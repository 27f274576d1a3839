//! Properties that relate the parser, the formatter and the sentence
//! reconstructor.
use vstd::prelude::*;

use crate::model::{BlockSpec, CohortSpec, ErrorSpec, ReadingSpec};
use crate::parse::{
    lemma_tabs_end_at,
    AssemblerSpec, assemble, flushed, is_quoted, oks, parse_lines, parse_reading,
    parse_word_form, start_state, step, tabs_end,
};
use crate::sentences::{contribution, ends_sentence, sentences_from, sentences_of};
use crate::text::{spec_is_whitespace, trim, trim_start};
use crate::tokenize::tokenize;

verus! {

/// Every later result of the assembler keeps the results already emitted.
proof fn lemma_assemble_keeps(ls: Seq<Seq<char>>, i: int, st: AssemblerSpec)
    requires
        0 <= i <= ls.len(),
    ensures
        assemble(ls, i, st).len() >= st.out.len(),
        forall|k: int| 0 <= k < st.out.len() ==> #[trigger] assemble(ls, i, st)[k] == st.out[k],
    decreases ls.len() - i,
{
    if i < ls.len() {
        let next = step(st, ls[i]);
        lemma_assemble_keeps(ls, i + 1, next);
        assert(next.out.len() >= st.out.len());
        assert forall|k: int| 0 <= k < st.out.len() implies next.out[k] == st.out[k] by {}
    }
}

/// Two header lines in a row give two cohorts, the first without readings.
pub proof fn lemma_consecutive_headers(h1: Seq<char>, h2: Seq<char>, rest: Seq<Seq<char>>)
    requires
        h1.len() > 0 && h1[0] == '"',
        h2.len() > 0 && h2[0] == '"',
        parse_word_form(h1) is Some,
        parse_word_form(h2) is Some,
    ensures
        parse_lines(seq![h1, h2] + rest)[0] == Ok::<BlockSpec, ErrorSpec>(
            BlockSpec::Cohort(CohortSpec { word_form: parse_word_form(h1)->0, readings: seq![] }),
        ),
        rest.len() == 0 ==> parse_lines(seq![h1, h2] + rest) == seq![
            Ok::<BlockSpec, ErrorSpec>(
                BlockSpec::Cohort(
                    CohortSpec { word_form: parse_word_form(h1)->0, readings: seq![] },
                ),
            ),
            Ok::<BlockSpec, ErrorSpec>(
                BlockSpec::Cohort(
                    CohortSpec { word_form: parse_word_form(h2)->0, readings: seq![] },
                ),
            ),
        ],
{
    let ls = seq![h1, h2] + rest;
    assert(ls[0] == h1 && ls[1] == h2);
    let s0 = start_state();
    let s1 = step(s0, h1);
    let s2 = step(s1, h2);
    assert(oks(seq![]) =~= seq![]);
    assert(s1.out =~= seq![]);
    assert(s2.out =~= seq![
        Ok::<BlockSpec, ErrorSpec>(
            BlockSpec::Cohort(CohortSpec { word_form: parse_word_form(h1)->0, readings: seq![] }),
        ),
    ]);
    assert(assemble(ls, 0, s0) == assemble(ls, 1, s1));
    assert(assemble(ls, 1, s1) == assemble(ls, 2, s2));
    lemma_assemble_keeps(ls, 2, s2);
    assert(assemble(ls, 2, s2)[0] == s2.out[0]);
    if rest.len() == 0 {
        assert(assemble(ls, 2, s2) =~= s2.out + flushed(s2.open, s2.pending));
    }
}

/// A tab line whose first token after the tabs is not quoted is reported as
/// an invalid reading, in any state of the assembler, and changes nothing
/// else: no reading is made of it.
pub proof fn lemma_unquoted_reading_rejected(st: AssemblerSpec, l: Seq<char>)
    requires
        l.len() > 0 && l[0] == '\t',
        ({
            let toks = tokenize(l.subrange(tabs_end(l, 0), l.len() as int));
            toks.len() == 0 || !is_quoted(toks[0])
        }),
    ensures
        step(st, l) == (AssemblerSpec {
            out: st.out.push(
                Err(
                    ErrorSpec::InvalidReading(
                        if st.open is Some {
                            l.subrange(tabs_end(l, 0), l.len() as int)
                        } else {
                            l
                        },
                    ),
                ),
            ),
            ..st
        }),
{
}

/// The depth of a reading is the number of tabs that open its line.
pub proof fn lemma_reading_depth(l: Seq<char>, d: nat)
    requires
        d < l.len(),
        forall|k: int| 0 <= k < d ==> l[k] == '\t',
        l[d as int] != '\t',
        parse_reading(l) is Ok,
    ensures
        parse_reading(l)->Ok_0.depth == d,
{
    lemma_tabs_end_at(l, 0, d as int);
}

/// The reading that a well-formed reading line gives.
pub open spec fn reading_value(l: Seq<char>) -> ReadingSpec {
    parse_reading(l)->Ok_0
}

/// Reading lines that follow a header all become readings of its cohort,
/// in file order and whatever their depths: the nesting is kept as depths,
/// not rebuilt into a tree.
pub proof fn lemma_readings_join_cohort(h: Seq<char>, rs: Seq<Seq<char>>)
    requires
        h.len() > 0 && h[0] == '"',
        parse_word_form(h) is Some,
        forall|j: int|
            0 <= j < rs.len() ==> (#[trigger] rs[j]).len() > 0 && rs[j][0] == '\t' && parse_reading(
                rs[j],
            ) is Ok,
    ensures
        parse_lines(seq![h] + rs) == seq![
            Ok::<BlockSpec, ErrorSpec>(
                BlockSpec::Cohort(
                    CohortSpec {
                        word_form: parse_word_form(h)->0,
                        readings: rs.map_values(|l: Seq<char>| reading_value(l)),
                    },
                ),
            ),
        ],
{
    let ls = seq![h] + rs;
    let w = parse_word_form(h)->0;
    let s1 = step(start_state(), h);
    assert(oks(seq![]) =~= seq![]);
    assert(s1.out =~= seq![]);
    assert forall|j: int| 1 <= j < ls.len() implies (#[trigger] ls[j]).len() > 0 && ls[j][0]
        == '\t' && parse_reading(ls[j]) is Ok by {
        assert(ls[j] == rs[j - 1]);
    }
    lemma_feed_readings(ls, 1, w, seq![]);
    assert(seq![] + ls.subrange(1, ls.len() as int).map_values(|l: Seq<char>| reading_value(l))
        =~= rs.map_values(|l: Seq<char>| reading_value(l)));
}

proof fn lemma_feed_readings(ls: Seq<Seq<char>>, i: int, w: Seq<char>, acc: Seq<ReadingSpec>)
    requires
        0 <= i <= ls.len(),
        forall|j: int|
            i <= j < ls.len() ==> (#[trigger] ls[j]).len() > 0 && ls[j][0] == '\t' && parse_reading(
                ls[j],
            ) is Ok,
    ensures
        assemble(
            ls,
            i,
            AssemblerSpec {
                open: Some(CohortSpec { word_form: w, readings: acc }),
                pending: seq![],
                out: seq![],
            },
        ) == seq![
            Ok::<BlockSpec, ErrorSpec>(
                BlockSpec::Cohort(
                    CohortSpec {
                        word_form: w,
                        readings: acc + ls.subrange(i, ls.len() as int).map_values(
                            |l: Seq<char>| reading_value(l),
                        ),
                    },
                ),
            ),
        ],
    decreases ls.len() - i,
{
    let st = AssemblerSpec {
        open: Some(CohortSpec { word_form: w, readings: acc }),
        pending: seq![],
        out: seq![],
    };
    if i == ls.len() {
        assert(oks(seq![]) =~= seq![]);
        assert(acc + ls.subrange(i, ls.len() as int).map_values(|l: Seq<char>| reading_value(l))
            =~= acc);
    } else {
        let r = reading_value(ls[i]);
        assert(step(st, ls[i]) == AssemblerSpec {
            open: Some(CohortSpec { word_form: w, readings: acc.push(r) }),
            pending: seq![],
            out: seq![],
        });
        lemma_feed_readings(ls, i + 1, w, acc.push(r));
        assert(acc.push(r) + ls.subrange(i + 1, ls.len() as int).map_values(
            |l: Seq<char>| reading_value(l),
        ) =~= acc + ls.subrange(i, ls.len() as int).map_values(|l: Seq<char>| reading_value(l)));
    }
}

proof fn lemma_sentences_shift(rs: Seq<Result<BlockSpec, ErrorSpec>>, m: int, j: int, acc: Seq<char>)
    requires
        0 <= m <= j,
        m <= rs.len(),
    ensures
        sentences_from(rs, j, acc) == sentences_from(rs.skip(m), j - m, acc),
    decreases rs.len() - j,
{
    if j < rs.len() {
        assert(rs.skip(m)[j - m] == rs[j]);
        match rs[j] {
            Ok(BlockSpec::Cohort(c)) => {
                lemma_sentences_shift(rs, m, j + 1, seq![]);
                lemma_sentences_shift(rs, m, j + 1, acc + contribution(c));
            },
            Ok(BlockSpec::Escaped(t)) => {
                lemma_sentences_shift(rs, m, j + 1, acc + crate::text::unescape(t));
            },
            _ => {
                lemma_sentences_shift(rs, m, j + 1, seq![]);
                lemma_sentences_shift(rs, m, j + 1, acc);
            },
        }
    }
}

proof fn lemma_trim_start_push(s: Seq<char>, c: char)
    requires
        !spec_is_whitespace(c),
    ensures
        trim_start(s.push(c)).len() > 0,
        trim_start(s.push(c)).last() == c,
    decreases s.len(),
{
    if s.len() > 0 && spec_is_whitespace(s[0]) {
        assert(s.push(c).drop_first() =~= s.drop_first().push(c));
        lemma_trim_start_push(s.drop_first(), c);
    }
}

/// Trimming keeps a last character that is not whitespace.
proof fn lemma_trim_keeps_last(s: Seq<char>, c: char)
    requires
        !spec_is_whitespace(c),
    ensures
        trim(s.push(c)).len() > 0,
        trim(s.push(c)).last() == c,
{
    lemma_trim_start_push(s, c);
}

proof fn lemma_sentences_cut(
    rs: Seq<Result<BlockSpec, ErrorSpec>>,
    k: int,
    i: int,
    acc: Seq<char>,
)
    requires
        0 <= i <= k < rs.len(),
        rs[k] is Ok && rs[k]->Ok_0 is Cohort && ends_sentence(rs[k]->Ok_0->Cohort_0),
    ensures
        sentences_from(rs, i, acc) == sentences_from(rs.take(k + 1), i, acc) + sentences_from(
            rs,
            k + 1,
            seq![],
        ),
        sentences_from(rs.take(k + 1), i, acc).len() > 0,
        sentences_from(rs.take(k + 1), i, acc).last() is Ok,
        contribution(rs[k]->Ok_0->Cohort_0) == seq!['.'] ==> ({
            let last = sentences_from(rs.take(k + 1), i, acc).last()->Ok_0;
            last.len() > 0 && last.last() == '.'
        }),
    decreases k - i,
{
    let t = rs.take(k + 1);
    assert(t[i] == rs[i]);
    if i == k {
        let c = rs[k]->Ok_0->Cohort_0;
        assert(sentences_from(t, k + 1, seq![]) =~= seq![]);
        if contribution(c) == seq!['.'] {
            lemma_trim_keeps_last(acc, '.');
            assert(acc + contribution(c) =~= acc.push('.'));
        }
    } else {
        match rs[i] {
            Ok(BlockSpec::Cohort(c)) => {
                lemma_sentences_cut(rs, k, i + 1, seq![]);
                lemma_sentences_cut(rs, k, i + 1, acc + contribution(c));
            },
            Ok(BlockSpec::Escaped(e)) => {
                lemma_sentences_cut(rs, k, i + 1, acc + crate::text::unescape(e));
            },
            _ => {
                lemma_sentences_cut(rs, k, i + 1, seq![]);
                lemma_sentences_cut(rs, k, i + 1, acc);
            },
        }
    }
}

/// A cohort that closes a clause ends a sentence: the sentences of a block
/// stream are those of the stream up to and including that cohort, the last
/// of which ends there (with a `.` if the cohort stands for `.`), followed by
/// those of the rest of the stream, read afresh.
pub proof fn lemma_sentence_split(rs: Seq<Result<BlockSpec, ErrorSpec>>, k: int)
    requires
        0 <= k < rs.len(),
        rs[k] is Ok && rs[k]->Ok_0 is Cohort,
        ends_sentence(rs[k]->Ok_0->Cohort_0),
    ensures
        sentences_of(rs) == sentences_of(rs.take(k + 1)) + sentences_of(rs.skip(k + 1)),
        sentences_of(rs.take(k + 1)).len() > 0,
        sentences_of(rs.take(k + 1)).last() is Ok,
        contribution(rs[k]->Ok_0->Cohort_0) == seq!['.'] ==> ({
            let last = sentences_of(rs.take(k + 1)).last()->Ok_0;
            last.len() > 0 && last.last() == '.'
        }),
{
    lemma_sentences_cut(rs, k, 0, seq![]);
    lemma_sentences_shift(rs, k + 1, k + 1, seq![]);
}

} // verus!
