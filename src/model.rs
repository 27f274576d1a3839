//! The parsed values of the stream, their mathematical views, and how each
//! one is written back as text.
use vstd::prelude::*;

use crate::text::{push_char, string_views};

verus! {

/// One physical line, classified by its first character.
#[derive(Debug, Clone)]
pub enum Line {
    /// A line that starts with `"`: a cohort header.
    WordForm(String),
    /// A line that starts with a tab: a reading.
    Reading(String),
    /// Any other line.
    Text(String),
}

/// One analysis of a cohort, or a sub-analysis of the nearest preceding
/// reading of smaller depth.
#[derive(Debug, Clone)]
pub struct Reading {
    /// The line the reading was read from.
    pub raw_line: String,
    /// The base form, without its quotes.
    pub base_form: String,
    /// The tags after the base form, in order.
    pub tags: Vec<String>,
    /// The number of leading tabs; 1 for a reading of the cohort itself.
    pub depth: usize,
}

/// A word form with its readings in file order.
#[derive(Debug, Clone)]
pub struct Cohort {
    pub word_form: String,
    pub readings: Vec<Reading>,
}

/// One unit of the stream.
#[derive(Debug, Clone)]
pub enum Block {
    Cohort(Cohort),
    /// The text of a line that starts with `:`, without the `:`.
    Escaped(String),
    /// A line passed through as it stands.
    Text(String),
}

/// Why a line could not be read.
#[derive(Debug, Clone)]
pub enum Error {
    InvalidInput { line: usize, position: usize, expected: &'static str },
    /// A header line without `"<` before `>"`.
    InvalidLine(String),
    /// A reading line outside a cohort, or whose first token is not a
    /// quoted base form.
    InvalidReading(String),
}

/// The view of a [`Line`].
pub enum LineSpec {
    WordForm(Seq<char>),
    Reading(Seq<char>),
    Text(Seq<char>),
}

/// The view of a [`Reading`].
pub struct ReadingSpec {
    pub raw_line: Seq<char>,
    pub base_form: Seq<char>,
    pub tags: Seq<Seq<char>>,
    pub depth: nat,
}

/// The view of a [`Cohort`].
pub struct CohortSpec {
    pub word_form: Seq<char>,
    pub readings: Seq<ReadingSpec>,
}

/// The view of a [`Block`].
pub enum BlockSpec {
    Cohort(CohortSpec),
    Escaped(Seq<char>),
    Text(Seq<char>),
}

/// The view of an [`Error`].
pub enum ErrorSpec {
    InvalidInput { line: nat, position: nat, expected: Seq<char> },
    InvalidLine(Seq<char>),
    InvalidReading(Seq<char>),
}

impl View for Line {
    type V = LineSpec;

    open spec fn view(&self) -> LineSpec {
        match self {
            Line::WordForm(s) => LineSpec::WordForm(s@),
            Line::Reading(s) => LineSpec::Reading(s@),
            Line::Text(s) => LineSpec::Text(s@),
        }
    }
}

impl View for Reading {
    type V = ReadingSpec;

    open spec fn view(&self) -> ReadingSpec {
        ReadingSpec {
            raw_line: self.raw_line@,
            base_form: self.base_form@,
            tags: string_views(self.tags@),
            depth: self.depth as nat,
        }
    }
}

/// The views of a sequence of readings.
pub open spec fn reading_views(v: Seq<Reading>) -> Seq<ReadingSpec> {
    v.map_values(|r: Reading| r@)
}

impl View for Cohort {
    type V = CohortSpec;

    open spec fn view(&self) -> CohortSpec {
        CohortSpec { word_form: self.word_form@, readings: reading_views(self.readings@) }
    }
}

impl View for Block {
    type V = BlockSpec;

    open spec fn view(&self) -> BlockSpec {
        match self {
            Block::Cohort(c) => BlockSpec::Cohort(c@),
            Block::Escaped(s) => BlockSpec::Escaped(s@),
            Block::Text(s) => BlockSpec::Text(s@),
        }
    }
}

impl View for Error {
    type V = ErrorSpec;

    open spec fn view(&self) -> ErrorSpec {
        match self {
            Error::InvalidInput { line, position, expected } => ErrorSpec::InvalidInput {
                line: *line as nat,
                position: *position as nat,
                expected: expected@,
            },
            Error::InvalidLine(s) => ErrorSpec::InvalidLine(s@),
            Error::InvalidReading(s) => ErrorSpec::InvalidReading(s@),
        }
    }
}

/// The view of a parse result.
pub open spec fn result_view(r: Result<Block, Error>) -> Result<BlockSpec, ErrorSpec> {
    match r {
        Ok(b) => Ok(b@),
        Err(e) => Err(e@),
    }
}

/// The views of a sequence of parse results.
pub open spec fn result_views(v: Seq<Result<Block, Error>>) -> Seq<Result<BlockSpec, ErrorSpec>> {
    v.map_values(|r: Result<Block, Error>| result_view(r))
}

/// `n` tab characters.
pub open spec fn tabs(n: nat) -> Seq<char> {
    Seq::new(n, |i: int| '\t')
}

/// Each tag preceded by one space.
pub open spec fn join_tags(tags: Seq<Seq<char>>) -> Seq<char>
    decreases tags.len(),
{
    if tags.len() == 0 {
        seq![]
    } else {
        join_tags(tags.drop_last()) + seq![' '] + tags.last()
    }
}

/// A reading line, without its line end.
pub open spec fn render_reading(r: ReadingSpec) -> Seq<char> {
    tabs(r.depth) + seq!['"'] + r.base_form + seq!['"'] + join_tags(r.tags)
}

/// Reading lines, each with its line end.
pub open spec fn render_readings(rs: Seq<ReadingSpec>) -> Seq<char>
    decreases rs.len(),
{
    if rs.len() == 0 {
        seq![]
    } else {
        render_readings(rs.drop_last()) + render_reading(rs.last()) + seq!['\n']
    }
}

/// A cohort header line, with its line end.
pub open spec fn render_header(word_form: Seq<char>) -> Seq<char> {
    seq!['"', '<'] + word_form + seq!['>', '"', '\n']
}

/// A cohort: its header line and its reading lines.
pub open spec fn render_cohort(c: CohortSpec) -> Seq<char> {
    render_header(c.word_form) + render_readings(c.readings)
}

/// The lines of a block, each with its line end.
pub open spec fn render_block(b: BlockSpec) -> Seq<char> {
    match b {
        BlockSpec::Cohort(c) => render_cohort(c),
        BlockSpec::Escaped(t) => seq![':'] + t + seq!['\n'],
        BlockSpec::Text(t) => t + seq!['\n'],
    }
}

/// The blocks of `rs` from position `i` on, up to the first error.
pub open spec fn render_results(rs: Seq<Result<BlockSpec, ErrorSpec>>, i: int) -> Seq<char>
    decreases rs.len() - i,
{
    if i < 0 || i >= rs.len() {
        seq![]
    } else {
        match rs[i] {
            Ok(b) => render_block(b) + render_results(rs, i + 1),
            Err(_) => seq![],
        }
    }
}

impl Reading {
    /// The reading line: `depth` tabs, the quoted base form, then each tag
    /// after a space.
    pub fn to_string(&self) -> (r: String)
        ensures
            r@ == render_reading(self@),
    {
        let mut s = String::new();
        let mut i: usize = 0;
        while i < self.depth
            invariant
                i <= self.depth,
                s@ == tabs(i as nat),
            decreases self.depth - i,
        {
            push_char(&mut s, '\t');
            i = i + 1;
            assert(s@ =~= tabs(i as nat));
        }
        push_char(&mut s, '"');
        s.append(self.base_form.as_str());
        push_char(&mut s, '"');
        let ghost head = s@;
        let mut k: usize = 0;
        while k < self.tags.len()
            invariant
                k <= self.tags.len(),
                s@ == head + join_tags(string_views(self.tags@).take(k as int)),
            decreases self.tags.len() - k,
        {
            push_char(&mut s, ' ');
            s.append(self.tags[k].as_str());
            let ghost ts = string_views(self.tags@);
            assert(ts.take(k + 1).drop_last() =~= ts.take(k as int));
            assert(ts[k as int] == self.tags@[k as int]@);
            k = k + 1;
        }
        assert(string_views(self.tags@).take(k as int) =~= string_views(self.tags@));
        s
    }
}

impl Cohort {
    /// The header line `"<word_form>"` and each reading line, each ended by
    /// a newline.
    pub fn to_string(&self) -> (r: String)
        ensures
            r@ == render_cohort(self@),
    {
        let mut s = String::new();
        push_char(&mut s, '"');
        push_char(&mut s, '<');
        s.append(self.word_form.as_str());
        push_char(&mut s, '>');
        push_char(&mut s, '"');
        push_char(&mut s, '\n');
        let ghost head = s@;
        assert(head =~= render_header(self.word_form@));
        let mut k: usize = 0;
        while k < self.readings.len()
            invariant
                k <= self.readings.len(),
                s@ == head + render_readings(reading_views(self.readings@).take(k as int)),
            decreases self.readings.len() - k,
        {
            let line = self.readings[k].to_string();
            s.append(line.as_str());
            push_char(&mut s, '\n');
            let ghost rs = reading_views(self.readings@);
            assert(rs.take(k + 1).drop_last() =~= rs.take(k as int));
            assert(rs[k as int] == self.readings@[k as int]@);
            k = k + 1;
        }
        assert(reading_views(self.readings@).take(k as int) =~= reading_views(self.readings@));
        s
    }
}

impl Block {
    /// The lines of the block: a cohort as its header and readings, an
    /// escaped text after a `:`, a text line as it stands; each ended by a
    /// newline.
    pub fn to_string(&self) -> (r: String)
        ensures
            r@ == render_block(self@),
    {
        match self {
            Block::Cohort(c) => c.to_string(),
            Block::Escaped(t) => {
                let mut s = String::new();
                push_char(&mut s, ':');
                s.append(t.as_str());
                push_char(&mut s, '\n');
                s
            },
            Block::Text(t) => {
                let mut s = String::new();
                s.append(t.as_str());
                push_char(&mut s, '\n');
                s
            },
        }
    }
}

} // verus!
