//! Rebuilding plain-text sentences from the block stream.
use vstd::prelude::*;

use crate::model::{
    Block, BlockSpec, Cohort, CohortSpec, Error, ErrorSpec, reading_views, result_view,
    result_views,
};
use crate::parse::{Output, parse_blocks};
use crate::text::{chars_of, push_char, push_unescaped, string_views, trim, trimmed_string, unescape};

verus! {

/// The tag that closes a clause.
pub open spec fn clause_boundary_tag() -> Seq<char> {
    seq!['C', 'L', 'B']
}

/// What a cohort adds to the sentence: the base form of its first reading,
/// or its word form if it has none.
pub open spec fn contribution(c: CohortSpec) -> Seq<char> {
    if c.readings.len() > 0 {
        c.readings[0].base_form
    } else {
        c.word_form
    }
}

/// Whether a sentence ends after the cohort: its first reading is not a
/// comma and carries the clause-boundary tag.
pub open spec fn ends_sentence(c: CohortSpec) -> bool {
    c.readings.len() > 0 && c.readings[0].base_form != seq![','] && c.readings[0].tags.contains(
        clause_boundary_tag(),
    )
}

/// The sentences of the results `rs` from position `i` on, with `acc`
/// gathered so far. An error is passed on at once and the gathered text is
/// dropped.
pub open spec fn sentences_from(rs: Seq<Result<BlockSpec, ErrorSpec>>, i: int, acc: Seq<char>) -> Seq<
    Result<Seq<char>, ErrorSpec>,
>
    decreases rs.len() - i,
{
    if i < 0 || i >= rs.len() {
        if acc.len() > 0 {
            seq![Ok(trim(acc))]
        } else {
            seq![]
        }
    } else {
        match rs[i] {
            Err(e) => seq![Err(e)] + sentences_from(rs, i + 1, seq![]),
            Ok(BlockSpec::Cohort(c)) => if ends_sentence(c) {
                seq![Ok(trim(acc + contribution(c)))] + sentences_from(rs, i + 1, seq![])
            } else {
                sentences_from(rs, i + 1, acc + contribution(c))
            },
            Ok(BlockSpec::Escaped(t)) => sentences_from(rs, i + 1, acc + unescape(t)),
            Ok(BlockSpec::Text(_)) => sentences_from(rs, i + 1, acc),
        }
    }
}

/// The sentences of the results `rs`.
pub open spec fn sentences_of(rs: Seq<Result<BlockSpec, ErrorSpec>>) -> Seq<
    Result<Seq<char>, ErrorSpec>,
> {
    sentences_from(rs, 0, seq![])
}

/// The view of a sentence result.
pub open spec fn sentence_view(r: Result<String, Error>) -> Result<Seq<char>, ErrorSpec> {
    match r {
        Ok(s) => Ok(s@),
        Err(e) => Err(e@),
    }
}

pub open spec fn sentence_views(v: Seq<Result<String, Error>>) -> Seq<Result<Seq<char>, ErrorSpec>> {
    v.map_values(|r: Result<String, Error>| sentence_view(r))
}

fn copy_error(e: &Error) -> (r: Error)
    ensures
        r@ == e@,
{
    match e {
        Error::InvalidInput { line, position, expected } => Error::InvalidInput {
            line: *line,
            position: *position,
            expected,
        },
        Error::InvalidLine(s) => Error::InvalidLine(s.clone()),
        Error::InvalidReading(s) => Error::InvalidReading(s.clone()),
    }
}

fn is_sentence_end(c: &Cohort) -> (r: bool)
    ensures
        r == ends_sentence(c@),
{
    if c.readings.len() == 0 {
        return false;
    }
    let first = &c.readings[0];
    assert(reading_views(c.readings@)[0] == first@);
    let mut comma = String::new();
    push_char(&mut comma, ',');
    assert(comma@ =~= seq![',']);
    if first.base_form == comma {
        return false;
    }
    let mut clb = String::new();
    push_char(&mut clb, 'C');
    push_char(&mut clb, 'L');
    push_char(&mut clb, 'B');
    assert(clb@ =~= clause_boundary_tag());
    let ghost tags = string_views(first.tags@);
    let mut k: usize = 0;
    while k < first.tags.len()
        invariant
            k <= first.tags.len(),
            tags == string_views(first.tags@),
            c.readings.len() > 0,
            reading_views(c.readings@)[0] == first@,
            first.base_form@ != seq![','],
            clb@ == clause_boundary_tag(),
            forall|j: int| 0 <= j < k ==> tags[j] != clause_boundary_tag(),
        decreases first.tags.len() - k,
    {
        assert(tags[k as int] == first.tags@[k as int]@);
        if first.tags[k] == clb {
            assert(tags.contains(clause_boundary_tag()));
            return true;
        }
        k = k + 1;
    }
    false
}

/// The sentences of a block stream: the contributions of its cohorts and
/// escaped texts are gathered, and a sentence ends after each cohort that
/// closes a clause, and at the end.
pub fn sentences_of_blocks(blocks: &Vec<Result<Block, Error>>) -> (r: Vec<Result<String, Error>>)
    ensures
        sentence_views(r@) == sentences_of(result_views(blocks@)),
{
    let ghost rs = result_views(blocks@);
    let mut out: Vec<Result<String, Error>> = Vec::new();
    let mut acc: Vec<char> = Vec::new();
    let mut i: usize = 0;
    while i < blocks.len()
        invariant
            i <= blocks.len(),
            rs == result_views(blocks@),
            sentence_views(out@) + sentences_from(rs, i as int, acc@) == sentences_of(rs),
        decreases blocks.len() - i,
    {
        assert(rs[i as int] == result_view(blocks@[i as int]));
        let ghost before = out@;
        match &blocks[i] {
            Err(e) => {
                out.push(Err(copy_error(e)));
                assert(sentence_views(out@) =~= sentence_views(before) + seq![
                    Err::<Seq<char>, ErrorSpec>(e@),
                ]);
                acc = Vec::new();
                assert(acc@ =~= seq![]);
            },
            Ok(Block::Cohort(c)) => {
                let mut part = if c.readings.len() > 0 {
                    assert(reading_views(c.readings@)[0] == c.readings@[0]@);
                    chars_of(c.readings[0].base_form.as_str())
                } else {
                    chars_of(c.word_form.as_str())
                };
                acc.append(&mut part);
                if is_sentence_end(c) {
                    let t = trimmed_string(&acc);
                    out.push(Ok(t));
                    assert(sentence_views(out@) =~= sentence_views(before) + seq![
                        Ok::<Seq<char>, ErrorSpec>(t@),
                    ]);
                    acc = Vec::new();
                    assert(acc@ =~= seq![]);
                }
            },
            Ok(Block::Escaped(t)) => {
                push_unescaped(&mut acc, t.as_str());
            },
            Ok(Block::Text(_)) => {},
        }
        i = i + 1;
    }
    if acc.len() > 0 {
        let ghost before = out@;
        let t = trimmed_string(&acc);
        out.push(Ok(t));
        assert(sentence_views(out@) =~= sentence_views(before) + seq![Ok::<Seq<char>, ErrorSpec>(t@)]);
    } else {
        assert(sentence_views(out@) =~= sentences_of(rs));
    }
    out
}

impl Output {
    /// The sentences of the buffer, one entry per sentence, or the error of
    /// a malformed line where it comes.
    pub fn sentences(&self) -> (r: Vec<Result<String, Error>>)
        ensures
            sentence_views(r@) == sentences_of(parse_blocks(self@)),
    {
        let blocks = self.iter();
        sentences_of_blocks(&blocks)
    }
}

} // verus!
