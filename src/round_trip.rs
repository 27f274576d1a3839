//! The grammar of a well-formed stream, and the proof that parsing such a
//! stream and writing it back gives the same text.
use vstd::prelude::*;

use crate::model::{
    BlockSpec, CohortSpec, ErrorSpec, LineSpec, join_tags, render_block, render_cohort,
    render_header, render_reading, render_readings, render_results, tabs,
};
use crate::parse::{
    lemma_tabs_end_at,
    AssemblerSpec, assemble, classify, find_pair, flushed, lines_from, oks, parse_blocks,
    parse_reading, parse_word_form, split_lines, start_state, step, strip_cr, tabs_end, text_block,
};
use crate::text::{spec_is_whitespace, trim, trim_start};
use crate::tokenize::{TokenizeState, scan, span_texts, tokenize};

verus! {

/// A header line that reads back as written: `"<`, the word form, `>"`,
/// with no `>"` before the end.
pub open spec fn header_line_ok(l: Seq<char>) -> bool {
    &&& l.len() >= 4
    &&& l[0] == '"' && l[1] == '<'
    &&& l[l.len() - 2] == '>' && l[l.len() - 1] == '"'
    &&& forall|k: int| 0 <= k < l.len() - 2 ==> !(#[trigger] l[k] == '>' && l[k + 1] == '"')
}

/// A tag that the tokenizer reads back whole: not empty, no whitespace, and
/// not opening with a quote.
pub open spec fn tag_ok(t: Seq<char>) -> bool {
    &&& t.len() > 0
    &&& t[0] != '"'
    &&& forall|k: int| 0 <= k < t.len() ==> !spec_is_whitespace(#[trigger] t[k])
}

/// A base form that the tokenizer reads back whole: no quote in it.
pub open spec fn base_form_ok(b: Seq<char>) -> bool {
    forall|k: int| 0 <= k < b.len() ==> #[trigger] b[k] != '"'
}

/// The reading line with `d` tabs, base form `b` and tags `ts`.
pub open spec fn reading_line(d: nat, b: Seq<char>, ts: Seq<Seq<char>>) -> Seq<char> {
    tabs(d) + seq!['"'] + b + seq!['"'] + join_tags(ts)
}

/// Whether `d`, `b` and `ts` make a well-formed reading line.
pub open spec fn reading_parts_ok(d: nat, b: Seq<char>, ts: Seq<Seq<char>>) -> bool {
    d >= 1 && base_form_ok(b) && forall|j: int| 0 <= j < ts.len() ==> tag_ok(#[trigger] ts[j])
}

/// A reading line that reads back as written.
pub open spec fn reading_line_ok(l: Seq<char>) -> bool {
    exists|d: nat, b: Seq<char>, ts: Seq<Seq<char>>|
        reading_parts_ok(d, b, ts) && l == #[trigger] reading_line(d, b, ts)
}

proof fn lemma_find_pair_at(s: Seq<char>, a: char, b: char, from: int, m: int)
    requires
        0 <= from <= m,
        m + 1 < s.len(),
        s[m] == a && s[m + 1] == b,
        forall|k: int| from <= k < m ==> !(#[trigger] s[k] == a && s[k + 1] == b),
    ensures
        find_pair(s, a, b, from) == Some(m),
    decreases m - from,
{
    if from < m {
        lemma_find_pair_at(s, a, b, from + 1, m);
    }
}

/// A well-formed header line gives a word form that is written back as the
/// same line.
pub proof fn lemma_header_round_trip(l: Seq<char>)
    requires
        header_line_ok(l),
    ensures
        parse_word_form(l) is Some,
        render_header(parse_word_form(l)->0) == l + seq!['\n'],
{
    let n = l.len() as int;
    lemma_find_pair_at(l, '"', '<', 0, 0);
    lemma_find_pair_at(l, '>', '"', 0, n - 2);
    assert(render_header(l.subrange(2, n - 2)) =~= l + seq!['\n']);
}

proof fn lemma_join_tags_front(t: Seq<char>, ts: Seq<Seq<char>>)
    ensures
        join_tags(seq![t] + ts) == seq![' '] + t + join_tags(ts),
    decreases ts.len(),
{
    let all = seq![t] + ts;
    if ts.len() == 0 {
        assert(all.drop_last() =~= Seq::<Seq<char>>::empty());
        assert(all.last() == t);
        assert(join_tags(all.drop_last()) =~= seq![]);
        assert(join_tags(ts) =~= seq![]);
        assert(join_tags(all) =~= seq![' '] + t + join_tags(ts));
    } else {
        assert(all.drop_last() =~= seq![t] + ts.drop_last());
        assert(all.last() == ts.last());
        lemma_join_tags_front(t, ts.drop_last());
        assert(join_tags(ts) == join_tags(ts.drop_last()) + seq![' '] + ts.last());
        assert(join_tags(all) =~= seq![' '] + t + join_tags(ts));
    }
}

proof fn lemma_scan_token(s: Seq<char>, i: int, j: int, cur: int)
    requires
        0 <= i <= j <= s.len(),
        forall|k: int| i <= k < j ==> !spec_is_whitespace(#[trigger] s[k]),
    ensures
        scan(s, i, TokenizeState::Token, cur) == scan(s, j, TokenizeState::Token, cur),
    decreases j - i,
{
    if i < j {
        lemma_scan_token(s, i + 1, j, cur);
    }
}

proof fn lemma_scan_in_string(s: Seq<char>, i: int, j: int, cur: int)
    requires
        0 <= i <= j <= s.len(),
        forall|k: int| i <= k < j ==> #[trigger] s[k] != '"',
    ensures
        scan(s, i, TokenizeState::InString, cur) == scan(s, j, TokenizeState::InString, cur),
    decreases j - i,
{
    if i < j {
        lemma_scan_in_string(s, i + 1, j, cur);
    }
}

proof fn lemma_span_texts_cons(s: Seq<char>, p: (int, int), sp: Seq<(int, int)>)
    ensures
        span_texts(s, seq![p] + sp) == seq![s.subrange(p.0, p.1)] + span_texts(s, sp),
{
    assert(span_texts(s, seq![p] + sp) =~= seq![s.subrange(p.0, p.1)] + span_texts(s, sp));
}

/// After a token that ends at `i`, the rest `join_tags(ts)` scans as the
/// tags `ts`.
proof fn lemma_scan_tags(s: Seq<char>, i: int, st: TokenizeState, cur: int, ts: Seq<Seq<char>>)
    requires
        0 <= cur <= i <= s.len(),
        st == TokenizeState::Token || st == TokenizeState::EndOfString,
        s.subrange(i, s.len() as int) == join_tags(ts),
        forall|j: int| 0 <= j < ts.len() ==> tag_ok(#[trigger] ts[j]),
    ensures
        span_texts(s, scan(s, i, st, cur)) == seq![s.subrange(cur, i)] + ts,
    decreases ts.len(),
{
    if ts.len() == 0 {
        assert(s.subrange(i, s.len() as int).len() == 0);
        assert(scan(s, i, st, cur) == seq![(cur, s.len() as int)]);
        lemma_span_texts_cons(s, (cur, i), seq![]);
        assert(span_texts(s, Seq::<(int, int)>::empty()) =~= seq![]);
    } else {
        let t0 = ts[0];
        let rest = ts.drop_first();
        assert(ts =~= seq![t0] + rest);
        lemma_join_tags_front(t0, rest);
        let m = t0.len() as int;
        let tail = s.subrange(i, s.len() as int);
        assert(tail =~= seq![' '] + t0 + join_tags(rest));
        assert(tag_ok(ts[0]));
        assert(s[i] == tail[0]);
        assert(tail[1] == t0[0]);
        assert(s[i + 1] == tail[1]);
        assert(!spec_is_whitespace(t0[0]));
        assert forall|k: int| i + 2 <= k < i + 1 + m implies !spec_is_whitespace(#[trigger] s[k]) by {
            assert(s[k] == tail[k - i]);
            assert(tail[k - i] == t0[k - i - 1]);
        }
        lemma_scan_token(s, i + 2, i + 1 + m, i + 1);
        assert(tail.subrange(1 + m, tail.len() as int) =~= join_tags(rest));
        assert(s.subrange(i + 1 + m, s.len() as int) =~= tail.subrange(1 + m, tail.len() as int));
        assert forall|j: int| 0 <= j < rest.len() implies tag_ok(#[trigger] rest[j]) by {
            assert(rest[j] == ts[j + 1]);
        }
        lemma_scan_tags(s, i + 1 + m, TokenizeState::Token, i + 1, rest);
        assert(tail.subrange(1, 1 + m) =~= t0);
        assert(s.subrange(i + 1, i + 1 + m) =~= tail.subrange(1, 1 + m));
        assert(scan(s, i, st, cur) == seq![(cur, i)] + scan(
            s,
            i + 1,
            TokenizeState::Blank,
            i + 1,
        ));
        assert(scan(s, i + 1, TokenizeState::Blank, i + 1) == scan(
            s,
            i + 2,
            TokenizeState::Token,
            i + 1,
        ));
        lemma_span_texts_cons(s, (cur, i), scan(s, i + 1, TokenizeState::Blank, i + 1));
        assert(seq![s.subrange(cur, i)] + (seq![t0] + rest) =~= seq![s.subrange(cur, i)] + ts);
    }
}

/// The rest of a well-formed reading line, after its tabs, tokenizes as its
/// quoted base form and then its tags.
proof fn lemma_tokenize_reading(b: Seq<char>, ts: Seq<Seq<char>>)
    requires
        base_form_ok(b),
        forall|j: int| 0 <= j < ts.len() ==> tag_ok(#[trigger] ts[j]),
    ensures
        tokenize(seq!['"'] + b + seq!['"'] + join_tags(ts)) == seq![seq!['"'] + b + seq!['"']]
            + ts,
{
    let s = seq!['"'] + b + seq!['"'] + join_tags(ts);
    let m = b.len() as int;
    assert(s[0] == '"');
    assert forall|k: int| 1 <= k < 1 + m implies #[trigger] s[k] != '"' by {
        assert(s[k] == b[k - 1]);
    }
    lemma_scan_in_string(s, 1, 1 + m, 0);
    assert(s[1 + m] == '"');
    assert(s.subrange(2 + m, s.len() as int) =~= join_tags(ts));
    lemma_scan_tags(s, 2 + m, TokenizeState::EndOfString, 0, ts);
    assert(s.subrange(0, 2 + m) =~= seq!['"'] + b + seq!['"']);
}

/// A well-formed reading line gives a reading that is written back as the
/// same line.
pub proof fn lemma_reading_round_trip(l: Seq<char>)
    requires
        reading_line_ok(l),
    ensures
        parse_reading(l) is Ok,
        render_reading(parse_reading(l)->Ok_0) == l,
{
    let (d, b, ts) = choose|d: nat, b: Seq<char>, ts: Seq<Seq<char>>|
        reading_parts_ok(d, b, ts) && l == #[trigger] reading_line(d, b, ts);
    assert(forall|k: int| 0 <= k < d ==> l[k] == '\t');
    assert(l[d as int] == '"');
    lemma_tabs_end_at(l, 0, d as int);
    let rest = l.subrange(d as int, l.len() as int);
    assert(rest =~= seq!['"'] + b + seq!['"'] + join_tags(ts));
    lemma_tokenize_reading(b, ts);
    let q = seq!['"'] + b + seq!['"'];
    let toks = tokenize(rest);
    assert(toks[0] == q);
    assert(q.subrange(1, q.len() - 1) =~= b);
    assert(toks.drop_first() =~= ts);
}

/// Whether the line at `i` of `ls` fits the grammar: a header or a reading
/// line that reads back as written, a reading line only after a header or
/// another reading line; any text line.
pub open spec fn line_fits(ls: Seq<Seq<char>>, i: int) -> bool {
    match classify(ls[i]) {
        LineSpec::WordForm(_) => header_line_ok(ls[i]),
        LineSpec::Reading(_) => reading_line_ok(ls[i]) && i > 0 && !(classify(ls[i - 1]) is Text),
        LineSpec::Text(_) => true,
    }
}

/// Whether every line of `ls` fits the grammar.
pub open spec fn lines_conform(ls: Seq<Seq<char>>) -> bool {
    forall|i: int| 0 <= i < ls.len() ==> #[trigger] line_fits(ls, i)
}

/// No line of `s` ends in a carriage return before its newline.
pub open spec fn no_crlf(s: Seq<char>) -> bool {
    forall|k: int| 0 <= k < s.len() - 1 ==> !(#[trigger] s[k] == '\r' && s[k + 1] == '\n')
}

/// A buffer that conforms to the grammar of the stream.
pub open spec fn conforms(s: Seq<char>) -> bool {
    no_crlf(s) && lines_conform(split_lines(s))
}

/// `s` with a newline added if it does not end with one already.
pub open spec fn with_final_newline(s: Seq<char>) -> Seq<char> {
    if s.len() == 0 || s.last() == '\n' {
        s
    } else {
        s.push('\n')
    }
}

/// Whether every result of `rs` is a success.
pub open spec fn all_ok(rs: Seq<Result<BlockSpec, ErrorSpec>>) -> bool {
    forall|k: int| 0 <= k < rs.len() ==> #[trigger] rs[k] is Ok
}

spec fn render_all(rs: Seq<Result<BlockSpec, ErrorSpec>>) -> Seq<char>
    decreases rs.len(),
{
    if rs.len() == 0 {
        seq![]
    } else {
        render_all(rs.drop_last()) + match rs.last() {
            Ok(b) => render_block(b),
            Err(_) => seq![],
        }
    }
}

spec fn render_open(o: Option<CohortSpec>) -> Seq<char> {
    match o {
        Some(c) => render_cohort(c),
        None => seq![],
    }
}

spec fn join_lines(ls: Seq<Seq<char>>) -> Seq<char>
    decreases ls.len(),
{
    if ls.len() == 0 {
        seq![]
    } else {
        join_lines(ls.drop_last()) + ls.last() + seq!['\n']
    }
}

proof fn lemma_render_all_concat(a: Seq<Result<BlockSpec, ErrorSpec>>, b: Seq<Result<BlockSpec, ErrorSpec>>)
    ensures
        render_all(a + b) == render_all(a) + render_all(b),
    decreases b.len(),
{
    if b.len() == 0 {
        assert(a + b =~= a);
        assert(render_all(a) + render_all(b) =~= render_all(a));
    } else {
        assert((a + b).drop_last() =~= a + b.drop_last());
        assert((a + b).last() == b.last());
        lemma_render_all_concat(a, b.drop_last());
        assert(render_all(a + b) =~= render_all(a) + render_all(b));
    }
}

proof fn lemma_oks_push(p: Seq<BlockSpec>, b: BlockSpec)
    ensures
        oks(p.push(b)) == oks(p).push(Ok(b)),
        all_ok(oks(p)),
{
    assert(oks(p.push(b)) =~= oks(p).push(Ok(b)));
}

proof fn lemma_render_flushed(o: Option<CohortSpec>, p: Seq<BlockSpec>)
    ensures
        render_all(flushed(o, p)) == render_open(o) + render_all(oks(p)),
        all_ok(flushed(o, p)),
{
    lemma_oks_push(p, BlockSpec::Text(seq![]));
    match o {
        Some(c) => {
            let x = seq![Ok::<BlockSpec, ErrorSpec>(BlockSpec::Cohort(c))];
            lemma_render_all_concat(x, oks(p));
            assert(x.drop_last() =~= Seq::<Result<BlockSpec, ErrorSpec>>::empty());
            assert(render_all(x.drop_last()) =~= seq![]);
            assert(x.last() == Ok::<BlockSpec, ErrorSpec>(BlockSpec::Cohort(c)));
            assert(render_all(x) =~= render_cohort(c));
        },
        None => {},
    }
}

proof fn lemma_render_results_all(rs: Seq<Result<BlockSpec, ErrorSpec>>, i: int)
    requires
        all_ok(rs),
        0 <= i <= rs.len(),
    ensures
        render_results(rs, i) == render_all(rs.subrange(i, rs.len() as int)),
    decreases rs.len() - i,
{
    if i == rs.len() {
        assert(rs.subrange(i, rs.len() as int) =~= Seq::<Result<BlockSpec, ErrorSpec>>::empty());
    } else {
        assert(rs[i] is Ok);
        lemma_render_results_all(rs, i + 1);
        let x = seq![rs[i]];
        lemma_render_all_concat(x, rs.subrange(i + 1, rs.len() as int));
        assert(x + rs.subrange(i + 1, rs.len() as int) =~= rs.subrange(i, rs.len() as int));
        assert(x.drop_last() =~= Seq::<Result<BlockSpec, ErrorSpec>>::empty());
        assert(render_all(x.drop_last()) =~= seq![]);
        assert(x.last() == rs[i]);
        assert(render_all(x) =~= render_block(rs[i]->Ok_0));
        assert(render_results(rs, i) == render_block(rs[i]->Ok_0) + render_results(rs, i + 1));
    }
}

proof fn lemma_render_cohort_push(c: CohortSpec, r: crate::model::ReadingSpec)
    ensures
        render_cohort(CohortSpec { word_form: c.word_form, readings: c.readings.push(r) })
            == render_cohort(c) + render_reading(r) + seq!['\n'],
{
    let rs = c.readings.push(r);
    assert(rs.drop_last() =~= c.readings);
    assert(render_readings(rs) == render_readings(c.readings) + render_reading(r) + seq!['\n']);
    assert(render_cohort(CohortSpec { word_form: c.word_form, readings: rs }) =~= render_cohort(c)
        + render_reading(r) + seq!['\n']);
}

proof fn lemma_text_round_trip(l: Seq<char>)
    ensures
        render_block(text_block(l)) == l + seq!['\n'],
{
    if l.len() > 0 && l[0] == ':' {
        assert(seq![':'] + l.drop_first() + seq!['\n'] =~= l + seq!['\n']);
    }
}

/// What the assembler has seen of the first `i` lines of a conforming
/// stream is written back as those lines.
spec fn round_trip_inv(ls: Seq<Seq<char>>, i: int, st: AssemblerSpec) -> bool {
    &&& all_ok(st.out)
    &&& st.open is None ==> st.pending.len() == 0
    &&& (i > 0 && !(classify(ls[i - 1]) is Text)) ==> (st.open is Some && st.pending.len() == 0)
    &&& render_all(st.out) + render_open(st.open) + render_all(oks(st.pending)) == join_lines(
        ls.take(i),
    )
}

proof fn lemma_step_round_trip(ls: Seq<Seq<char>>, i: int, st: AssemblerSpec)
    requires
        lines_conform(ls),
        0 <= i < ls.len(),
        round_trip_inv(ls, i, st),
    ensures
        round_trip_inv(ls, i + 1, step(st, ls[i])),
{
    let l = ls[i];
    let nx = step(st, l);
    assert(line_fits(ls, i));
    assert(ls.take(i + 1).drop_last() =~= ls.take(i));
    assert(ls.take(i + 1).last() == l);
    assert(join_lines(ls.take(i + 1)) == join_lines(ls.take(i)) + l + seq!['\n']);
    let before = render_all(st.out) + render_open(st.open) + render_all(oks(st.pending));
    lemma_oks_push(st.pending, BlockSpec::Text(seq![]));
    match classify(l) {
        LineSpec::WordForm(_) => {
            lemma_header_round_trip(l);
            let w = parse_word_form(l)->0;
            let fl = flushed(st.open, st.pending);
            lemma_render_flushed(st.open, st.pending);
            lemma_render_all_concat(st.out, fl);
            assert(oks(seq![]) =~= seq![]);
            assert(nx.out == st.out + fl);
            assert(render_open(nx.open) == render_header(w) + render_readings(seq![]));
            assert(render_open(nx.open) =~= l + seq!['\n']);
            assert forall|k: int| 0 <= k < nx.out.len() implies #[trigger] nx.out[k] is Ok by {
                if k >= st.out.len() {
                    assert(nx.out[k] == fl[k - st.out.len()]);
                }
            }
            assert(render_all(oks(nx.pending)) =~= seq![]);
            assert(render_all(nx.out) + render_open(nx.open) + render_all(oks(nx.pending))
                =~= before + l + seq!['\n']);
        },
        LineSpec::Reading(_) => {
            lemma_reading_round_trip(l);
            let c = st.open->0;
            let r = parse_reading(l)->Ok_0;
            lemma_render_cohort_push(c, r);
            assert(oks(st.pending) =~= seq![]);
            assert(render_all(nx.out) + render_open(nx.open) + render_all(oks(nx.pending))
                =~= before + l + seq!['\n']);
        },
        LineSpec::Text(_) => {
            lemma_text_round_trip(l);
            let b = text_block(l);
            if st.open is None {
                assert(nx.out.drop_last() =~= st.out);
                assert(render_all(nx.out) == render_all(st.out) + render_block(b));
                assert forall|k: int| 0 <= k < nx.out.len() implies #[trigger] nx.out[k] is Ok by {
                    if k < st.out.len() {
                        assert(nx.out[k] == st.out[k]);
                    }
                }
                assert(render_all(nx.out) + render_open(nx.open) + render_all(oks(nx.pending))
                    =~= before + l + seq!['\n']);
            } else {
                lemma_oks_push(st.pending, b);
                assert(oks(nx.pending).drop_last() =~= oks(st.pending));
                assert(render_all(oks(nx.pending)) == render_all(oks(st.pending)) + render_block(b));
                assert(render_all(nx.out) + render_open(nx.open) + render_all(oks(nx.pending))
                    =~= before + l + seq!['\n']);
            }
        },
    }
}

proof fn lemma_assemble_round_trip(ls: Seq<Seq<char>>, i: int, st: AssemblerSpec)
    requires
        lines_conform(ls),
        0 <= i <= ls.len(),
        round_trip_inv(ls, i, st),
    ensures
        all_ok(assemble(ls, i, st)),
        render_all(assemble(ls, i, st)) == join_lines(ls),
    decreases ls.len() - i,
{
    if i == ls.len() {
        let fl = flushed(st.open, st.pending);
        lemma_render_flushed(st.open, st.pending);
        lemma_render_all_concat(st.out, fl);
        assert(ls.take(i) =~= ls);
        let r = st.out + fl;
        assert forall|k: int| 0 <= k < r.len() implies #[trigger] r[k] is Ok by {
            if k >= st.out.len() {
                assert(r[k] == fl[k - st.out.len()]);
            }
        }
        assert(render_all(r) =~= join_lines(ls));
    } else {
        lemma_step_round_trip(ls, i, st);
        lemma_assemble_round_trip(ls, i + 1, step(st, ls[i]));
    }
}

proof fn lemma_join_lines_front(x: Seq<char>, ys: Seq<Seq<char>>)
    ensures
        join_lines(seq![x] + ys) == x + seq!['\n'] + join_lines(ys),
    decreases ys.len(),
{
    let all = seq![x] + ys;
    assert(all.last() == if ys.len() == 0 {
        x
    } else {
        ys.last()
    });
    if ys.len() == 0 {
        assert(all.drop_last() =~= Seq::<Seq<char>>::empty());
        assert(join_lines(all.drop_last()) =~= seq![]);
        assert(join_lines(ys) =~= seq![]);
        assert(join_lines(all) =~= x + seq!['\n'] + join_lines(ys));
    } else {
        assert(all.drop_last() =~= seq![x] + ys.drop_last());
        lemma_join_lines_front(x, ys.drop_last());
        assert(join_lines(ys) == join_lines(ys.drop_last()) + ys.last() + seq!['\n']);
        assert(join_lines(all) =~= x + seq!['\n'] + join_lines(ys));
    }
}

/// Joining the lines of `s`, each with a newline, gives `s` back, with a
/// final newline if it had none.
proof fn lemma_lines_join(s: Seq<char>, start: int, i: int)
    requires
        no_crlf(s),
        0 <= start <= i <= s.len(),
        forall|k: int| start <= k < i ==> #[trigger] s[k] != '\n',
    ensures
        join_lines(lines_from(s, start, i)) == with_final_newline(s.subrange(start, s.len() as int)),
    decreases s.len() - i,
{
    let n = s.len() as int;
    if i == n {
        if start < n {
            let x = s.subrange(start, n);
            assert(seq![x].drop_last() =~= Seq::<Seq<char>>::empty());
            assert(join_lines(seq![x].drop_last()) =~= seq![]);
            assert(join_lines(seq![x]) =~= x.push('\n'));
            assert(x.last() == s[n - 1]);
        } else {
            assert(s.subrange(start, n) =~= Seq::<char>::empty());
        }
    } else if s[i] == '\n' {
        let x = s.subrange(start, i);
        if i > start {
            assert(!(s[i - 1] == '\r' && s[i] == '\n'));
        }
        assert(strip_cr(x) == x);
        lemma_lines_join(s, i + 1, i + 1);
        lemma_join_lines_front(x, lines_from(s, i + 1, i + 1));
        let after = s.subrange(i + 1, n);
        assert(s.subrange(start, n) =~= x + seq!['\n'] + after);
        if after.len() == 0 {
            assert(with_final_newline(after) =~= after);
        } else {
            assert((x + seq!['\n'] + after).last() == after.last());
            assert((x + seq!['\n'] + after).push('\n') =~= x + seq!['\n'] + after.push('\n'));
        }
        assert(join_lines(lines_from(s, start, i)) =~= with_final_newline(s.subrange(start, n)));
    } else {
        lemma_lines_join(s, start, i + 1);
    }
}

proof fn lemma_trim_start_push_ws(s: Seq<char>, c: char)
    requires
        spec_is_whitespace(c),
    ensures
        trim_start(s.push(c)) == if trim_start(s).len() == 0 {
            seq![]
        } else {
            trim_start(s).push(c)
        },
    decreases s.len(),
{
    if s.len() > 0 && spec_is_whitespace(s[0]) {
        assert(s.push(c).drop_first() =~= s.drop_first().push(c));
        lemma_trim_start_push_ws(s.drop_first(), c);
    } else if s.len() == 0 {
        assert(s.push(c).drop_first() =~= Seq::<char>::empty());
        assert(trim_start(Seq::<char>::empty()) =~= seq![]);
    }
}

/// A trailing newline does not change what trimming leaves.
proof fn lemma_trim_final_newline(s: Seq<char>)
    ensures
        trim(with_final_newline(s)) == trim(s),
{
    if !(s.len() == 0 || s.last() == '\n') {
        lemma_trim_start_push_ws(s, '\n');
        let t = trim_start(s);
        if t.len() > 0 {
            assert(t.push('\n').drop_last() =~= t);
        }
    }
}

/// Parsing a buffer that conforms to the grammar of the stream and writing
/// its blocks back gives the buffer again, with a final newline if it had
/// none; so the two are the same once trimmed. No line of such a buffer is
/// an error.
pub proof fn lemma_round_trip(b: Seq<char>)
    requires
        conforms(b),
    ensures
        all_ok(parse_blocks(b)),
        render_results(parse_blocks(b), 0) == with_final_newline(b),
        trim(render_results(parse_blocks(b), 0)) == trim(b),
{
    let ls = split_lines(b);
    let st = start_state();
    assert(oks(st.pending) =~= seq![]);
    assert(render_all(st.out) =~= seq![]);
    assert(render_all(oks(st.pending)) =~= seq![]);
    assert(ls.take(0) =~= Seq::<Seq<char>>::empty());
    assert(join_lines(ls.take(0)) =~= seq![]);
    lemma_assemble_round_trip(ls, 0, st);
    let rs = parse_blocks(b);
    lemma_render_results_all(rs, 0);
    assert(rs.subrange(0, rs.len() as int) =~= rs);
    lemma_lines_join(b, 0, 0);
    assert(b.subrange(0, b.len() as int) =~= b);
    lemma_trim_final_newline(b);
}

} // verus!
