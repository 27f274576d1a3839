//! Splitting the buffer into lines, reading each line, and folding the
//! lines into blocks.
use vstd::prelude::*;

use std::collections::VecDeque;

use crate::model::{
    Block, BlockSpec, Cohort, CohortSpec, Error, ErrorSpec, Line, LineSpec, Reading, ReadingSpec,
    reading_views, render_results, result_view, result_views,
};
use crate::text::{chars_of, string_of, string_views};
use crate::tokenize::{spans_int, spans_within, token_spans, tokenize, tokenize_spans};

verus! {

/// `l` without one carriage return at its end.
pub open spec fn strip_cr(l: Seq<char>) -> Seq<char> {
    if l.len() > 0 && l.last() == '\r' {
        l.drop_last()
    } else {
        l
    }
}

/// The lines of `s` from the line that starts at `start`, scanning on from
/// position `i`. A line ends at `\n`, which it does not keep, nor a `\r`
/// just before it; the last line may have no `\n`.
pub open spec fn lines_from(s: Seq<char>, start: int, i: int) -> Seq<Seq<char>>
    decreases s.len() - i,
{
    if i >= s.len() {
        if start < s.len() {
            seq![s.subrange(start, s.len() as int)]
        } else {
            seq![]
        }
    } else if s[i] == '\n' {
        seq![strip_cr(s.subrange(start, i))] + lines_from(s, i + 1, i + 1)
    } else {
        lines_from(s, start, i + 1)
    }
}

/// The lines of `s`.
pub open spec fn split_lines(s: Seq<char>) -> Seq<Seq<char>> {
    lines_from(s, 0, 0)
}

/// The kind of a line, by its first character.
pub open spec fn classify(l: Seq<char>) -> LineSpec {
    if l.len() > 0 && l[0] == '"' {
        LineSpec::WordForm(l)
    } else if l.len() > 0 && l[0] == '\t' {
        LineSpec::Reading(l)
    } else {
        LineSpec::Text(l)
    }
}

/// The character sequences of a sequence of character vectors.
pub open spec fn char_views(v: Seq<Vec<char>>) -> Seq<Seq<char>> {
    v.map_values(|l: Vec<char>| l@)
}

/// The views of a sequence of lines.
pub open spec fn line_views(v: Seq<Line>) -> Seq<LineSpec> {
    v.map_values(|l: Line| l@)
}

/// A vector holding `v[lo..hi]`.
pub(crate) fn copy_range(v: &Vec<char>, lo: usize, hi: usize) -> (r: Vec<char>)
    requires
        lo <= hi <= v.len(),
    ensures
        r@ == v@.subrange(lo as int, hi as int),
{
    let mut r: Vec<char> = Vec::new();
    let mut i: usize = lo;
    while i < hi
        invariant
            lo <= i <= hi <= v.len(),
            r@ == v@.subrange(lo as int, i as int),
        decreases hi - i,
    {
        r.push(v[i]);
        i = i + 1;
        assert(r@ =~= v@.subrange(lo as int, i as int));
    }
    r
}

/// The lines of `s`, each as a vector of characters.
pub(crate) fn split_lines_of(s: &Vec<char>) -> (r: Vec<Vec<char>>)
    ensures
        char_views(r@) == split_lines(s@),
{
    let n = s.len();
    let mut r: Vec<Vec<char>> = Vec::new();
    let mut start: usize = 0;
    let mut i: usize = 0;
    while i < n
        invariant
            n == s.len(),
            start <= i <= n,
            char_views(r@) + lines_from(s@, start as int, i as int) == split_lines(s@),
        decreases n - i,
    {
        if s[i] == '\n' {
            let end: usize = if i > start && s[i - 1] == '\r' {
                i - 1
            } else {
                i
            };
            let line = copy_range(s, start, end);
            assert(line@ =~= strip_cr(s@.subrange(start as int, i as int)));
            let ghost old_r = r@;
            r.push(line);
            assert(char_views(r@) =~= char_views(old_r) + seq![line@]);
            start = i + 1;
        }
        i = i + 1;
    }
    if start < n {
        let line = copy_range(s, start, n);
        let ghost old_r = r@;
        r.push(line);
        assert(char_views(r@) =~= char_views(old_r) + seq![line@]);
    }
    assert(char_views(r@) =~= split_lines(s@));
    r
}

/// The line `l` as a [`Line`].
pub(crate) fn classify_line(l: &Vec<char>) -> (r: Line)
    ensures
        r@ == classify(l@),
{
    let s = string_of(l, 0, l.len());
    assert(l@.subrange(0, l@.len() as int) =~= l@);
    if l.len() > 0 && l[0] == '"' {
        Line::WordForm(s)
    } else if l.len() > 0 && l[0] == '\t' {
        Line::Reading(s)
    } else {
        Line::Text(s)
    }
}

/// A text buffer in the disambiguator's output format.
#[derive(Debug, Clone)]
pub struct Output {
    buf: Vec<char>,
}

impl View for Output {
    type V = Seq<char>;

    closed spec fn view(&self) -> Seq<char> {
        self.buf@
    }
}

impl Output {
    /// An output over the text `buf`.
    pub fn new(buf: &str) -> (r: Output)
        ensures
            r@ == buf@,
    {
        Output { buf: chars_of(buf) }
    }

    /// Each line of the buffer, classified.
    pub fn lines(&self) -> (r: Vec<Line>)
        ensures
            line_views(r@) == split_lines(self@).map_values(|l: Seq<char>| classify(l)),
    {
        let ls = split_lines_of(&self.buf);
        let mut r: Vec<Line> = Vec::new();
        let mut k: usize = 0;
        while k < ls.len()
            invariant
                k <= ls.len(),
                r@.len() == k,
                char_views(ls@) == split_lines(self.buf@),
                line_views(r@) == split_lines(self.buf@).map_values(
                    |l: Seq<char>| classify(l),
                ).take(k as int),
            decreases ls.len() - k,
        {
            let line = classify_line(&ls[k]);
            let ghost old_r = r@;
            r.push(line);
            assert(char_views(ls@)[k as int] == ls@[k as int]@);
            assert(line_views(r@) =~= line_views(old_r) + seq![line@]);
            k = k + 1;
        }
        assert(split_lines(self.buf@).map_values(|l: Seq<char>| classify(l)).take(k as int)
            =~= split_lines(self.buf@).map_values(|l: Seq<char>| classify(l)));
        r
    }
}

/// The first position, from `from` on, where `a` is followed by `b`.
pub open spec fn find_pair(s: Seq<char>, a: char, b: char, from: int) -> Option<int>
    decreases s.len() - from,
{
    if from < 0 || from + 1 >= s.len() {
        None
    } else if s[from] == a && s[from + 1] == b {
        Some(from)
    } else {
        find_pair(s, a, b, from + 1)
    }
}

/// The word form of a header line: what stands between the first `"<` and
/// the first `>"`, if both occur and in that order.
pub open spec fn parse_word_form(l: Seq<char>) -> Option<Seq<char>> {
    match find_pair(l, '"', '<', 0) {
        Some(a) => match find_pair(l, '>', '"', 0) {
            Some(b) => if a + 2 <= b {
                Some(l.subrange(a + 2, b))
            } else {
                None
            },
            None => None,
        },
        None => None,
    }
}

/// The position of the first character of `l`, from `i` on, that is not a
/// tab.
pub open spec fn tabs_end(l: Seq<char>, i: int) -> int
    decreases l.len() - i,
{
    if 0 <= i < l.len() && l[i] == '\t' {
        tabs_end(l, i + 1)
    } else {
        i
    }
}

/// A token enclosed in quotes.
pub open spec fn is_quoted(t: Seq<char>) -> bool {
    t.len() >= 2 && t[0] == '"' && t[t.len() - 1] == '"'
}

/// A reading line: its leading tabs give the depth; the first token of the
/// rest is the quoted base form and the other tokens are the tags.
pub open spec fn parse_reading(l: Seq<char>) -> Result<ReadingSpec, ErrorSpec> {
    let d = tabs_end(l, 0);
    let rest = l.subrange(d, l.len() as int);
    let toks = tokenize(rest);
    if toks.len() > 0 && is_quoted(toks[0]) {
        Ok(
            ReadingSpec {
                raw_line: l,
                base_form: toks[0].subrange(1, toks[0].len() - 1),
                tags: toks.drop_first(),
                depth: d as nat,
            },
        )
    } else {
        Err(ErrorSpec::InvalidReading(rest))
    }
}

/// The block of a text line: escaped if it starts with `:`.
pub open spec fn text_block(l: Seq<char>) -> BlockSpec {
    if l.len() > 0 && l[0] == ':' {
        BlockSpec::Escaped(l.drop_first())
    } else {
        BlockSpec::Text(l)
    }
}

/// `tabs_end` stops at the first character from `i` on that is not a tab.
pub(crate) proof fn lemma_tabs_end_at(l: Seq<char>, i: int, d: int)
    requires
        0 <= i <= d < l.len(),
        forall|k: int| i <= k < d ==> l[k] == '\t',
        l[d] != '\t',
    ensures
        tabs_end(l, i) == d,
    decreases d - i,
{
    if i < d {
        lemma_tabs_end_at(l, i + 1, d);
    }
}

fn find_pair_in(s: &Vec<char>, a: char, b: char) -> (r: Option<usize>)
    ensures
        match r {
            Some(k) => find_pair(s@, a, b, 0) == Some(k as int) && k + 1 < s@.len(),
            None => find_pair(s@, a, b, 0) is None,
        },
{
    let mut i: usize = 0;
    while s.len() > 1 && i < s.len() - 1
        invariant
            find_pair(s@, a, b, i as int) == find_pair(s@, a, b, 0),
        decreases s.len() - i,
    {
        if s[i] == a && s[i + 1] == b {
            return Some(i);
        }
        i = i + 1;
    }
    None
}

/// The word form of the header line `l`.
pub(crate) fn word_form_of(l: &Vec<char>) -> (r: Option<String>)
    ensures
        match r {
            Some(w) => parse_word_form(l@) == Some(w@),
            None => parse_word_form(l@) is None,
        },
{
    match find_pair_in(l, '"', '<') {
        Some(a) => match find_pair_in(l, '>', '"') {
            Some(b) => if b >= 2 && a <= b - 2 {
                Some(string_of(l, a + 2, b))
            } else {
                None
            },
            None => None,
        },
        None => None,
    }
}

/// The reading on the line `l`.
pub(crate) fn reading_of(l: &Vec<char>) -> (r: Result<Reading, Error>)
    ensures
        match r {
            Ok(x) => parse_reading(l@) == Ok::<ReadingSpec, ErrorSpec>(x@),
            Err(e) => parse_reading(l@) == Err::<ReadingSpec, ErrorSpec>(e@),
        },
{
    let n = l.len();
    let mut d: usize = 0;
    while d < n && l[d] == '\t'
        invariant
            d <= n == l.len(),
            tabs_end(l@, d as int) == tabs_end(l@, 0),
        decreases n - d,
    {
        d = d + 1;
    }
    let rest = copy_range(l, d, n);
    let spans = tokenize_spans(&rest);
    let ghost toks = tokenize(rest@);
    assert(spans_int(spans@).len() == spans@.len());
    if spans.len() > 0 {
        let (lo, hi) = spans[0];
        assert(spans_int(spans@)[0] == (lo as int, hi as int));
        assert(token_spans(rest@)[0] == (lo as int, hi as int));
        assert(lo <= hi <= rest.len());
        assert(toks[0] == rest@.subrange(lo as int, hi as int));
        if hi - lo >= 2 && rest[lo] == '"' && rest[hi - 1] == '"' {
            let base_form = string_of(&rest, lo + 1, hi - 1);
            assert(base_form@ =~= toks[0].subrange(1, toks[0].len() - 1));
            let mut tags: Vec<String> = Vec::new();
            let mut k: usize = 1;
            while k < spans.len()
                invariant
                    1 <= k <= spans.len(),
                    spans_int(spans@) == token_spans(rest@),
                    spans_within(token_spans(rest@), rest@.len() as int),
                    toks == tokenize(rest@),
                    toks.len() == spans.len(),
                    string_views(tags@) == toks.subrange(1, k as int),
                decreases spans.len() - k,
            {
                let (a, b) = spans[k];
                assert(spans_int(spans@)[k as int] == (a as int, b as int));
                assert(toks[k as int] == rest@.subrange(a as int, b as int));
                let t = string_of(&rest, a, b);
                let ghost old_tags = tags@;
                tags.push(t);
                assert(string_views(tags@) =~= string_views(old_tags) + seq![t@]);
                assert(toks.subrange(1, k + 1) =~= toks.subrange(1, k as int) + seq![t@]);
                k = k + 1;
            }
            assert(toks.subrange(1, k as int) =~= toks.drop_first());
            let raw_line = string_of(l, 0, n);
            assert(l@.subrange(0, n as int) =~= l@);
            return Ok(Reading { raw_line, base_form, tags, depth: d });
        }
    }
    assert(rest@.subrange(0, rest@.len() as int) =~= rest@);
    Err(Error::InvalidReading(string_of(&rest, 0, rest.len())))
}

/// The state of the block assembler between two lines.
pub struct AssemblerSpec {
    /// The cohort still open, if any.
    pub open: Option<CohortSpec>,
    /// Text blocks met while a cohort was open, to follow it.
    pub pending: Seq<BlockSpec>,
    /// The results so far.
    pub out: Seq<Result<BlockSpec, ErrorSpec>>,
}

/// Each block as a success.
pub open spec fn oks(bs: Seq<BlockSpec>) -> Seq<Result<BlockSpec, ErrorSpec>> {
    bs.map_values(|b: BlockSpec| Ok::<BlockSpec, ErrorSpec>(b))
}

/// What closing the open cohort emits: the cohort, then the pending blocks.
pub open spec fn flushed(open: Option<CohortSpec>, pending: Seq<BlockSpec>) -> Seq<
    Result<BlockSpec, ErrorSpec>,
> {
    match open {
        Some(c) => seq![Ok(BlockSpec::Cohort(c))] + oks(pending),
        None => oks(pending),
    }
}

/// The assembler's state after the line `l`.
pub open spec fn step(st: AssemblerSpec, l: Seq<char>) -> AssemblerSpec {
    match classify(l) {
        LineSpec::WordForm(_) => {
            let out = st.out + flushed(st.open, st.pending);
            match parse_word_form(l) {
                Some(w) => AssemblerSpec {
                    open: Some(CohortSpec { word_form: w, readings: seq![] }),
                    pending: seq![],
                    out,
                },
                None => AssemblerSpec {
                    open: None,
                    pending: seq![],
                    out: out.push(Err(ErrorSpec::InvalidLine(l))),
                },
            }
        },
        LineSpec::Reading(_) => match st.open {
            None => AssemblerSpec {
                open: st.open,
                pending: st.pending,
                out: st.out.push(Err(ErrorSpec::InvalidReading(l))),
            },
            Some(c) => match parse_reading(l) {
                Ok(r) => AssemblerSpec {
                    open: Some(CohortSpec { word_form: c.word_form, readings: c.readings.push(r) }),
                    pending: st.pending,
                    out: st.out,
                },
                Err(e) => AssemblerSpec { open: st.open, pending: st.pending, out: st.out.push(Err(e)) },
            },
        },
        LineSpec::Text(_) => match st.open {
            None => AssemblerSpec {
                open: st.open,
                pending: st.pending,
                out: st.out.push(Ok(text_block(l))),
            },
            Some(_) => AssemblerSpec {
                open: st.open,
                pending: st.pending.push(text_block(l)),
                out: st.out,
            },
        },
    }
}

/// The results of the lines `ls` from position `i` on, from the state `st`,
/// with whatever is open flushed at the end.
pub open spec fn assemble(ls: Seq<Seq<char>>, i: int, st: AssemblerSpec) -> Seq<
    Result<BlockSpec, ErrorSpec>,
>
    decreases ls.len() - i,
{
    if i < 0 || i >= ls.len() {
        st.out + flushed(st.open, st.pending)
    } else {
        assemble(ls, i + 1, step(st, ls[i]))
    }
}

/// The assembler before the first line.
pub open spec fn start_state() -> AssemblerSpec {
    AssemblerSpec { open: None, pending: seq![], out: seq![] }
}

/// The blocks of the lines `ls`, and the errors of its malformed lines, in
/// stream order.
pub open spec fn parse_lines(ls: Seq<Seq<char>>) -> Seq<Result<BlockSpec, ErrorSpec>> {
    assemble(ls, 0, start_state())
}

/// The blocks of the text `s`, and the errors of its malformed lines, in
/// stream order.
pub open spec fn parse_blocks(s: Seq<char>) -> Seq<Result<BlockSpec, ErrorSpec>> {
    parse_lines(split_lines(s))
}

/// The views of a sequence of blocks.
pub open spec fn block_views(v: Seq<Block>) -> Seq<BlockSpec> {
    v.map_values(|b: Block| b@)
}

pub open spec fn cohort_view(c: Option<Cohort>) -> Option<CohortSpec> {
    match c {
        Some(c) => Some(c@),
        None => None,
    }
}

struct Assembler {
    open: Option<Cohort>,
    pending: VecDeque<Block>,
    out: Vec<Result<Block, Error>>,
}

impl Assembler {
    spec fn view(&self) -> AssemblerSpec {
        AssemblerSpec {
            open: cohort_view(self.open),
            pending: block_views(self.pending@),
            out: result_views(self.out@),
        }
    }

    fn new() -> (r: Assembler)
        ensures
            r.view() == start_state(),
    {
        let r = Assembler { open: None, pending: VecDeque::new(), out: Vec::new() };
        assert(r.view().pending =~= seq![]);
        assert(r.view().out =~= seq![]);
        r
    }

    fn push_out(&mut self, x: Result<Block, Error>)
        ensures
            final(self).view() == (AssemblerSpec {
                out: old(self).view().out.push(result_view(x)),
                ..old(self).view()
            }),
    {
        let ghost before = self.out@;
        self.out.push(x);
        assert(result_views(self.out@) =~= result_views(before).push(result_view(x)));
    }

    /// Emits the open cohort, if any, and then the pending blocks.
    fn flush(&mut self)
        ensures
            final(self).view() == (AssemblerSpec {
                open: None,
                pending: seq![],
                out: old(self).view().out + flushed(old(self).view().open, old(self).view().pending),
            }),
    {
        let ghost target = self.view().out + flushed(self.view().open, self.view().pending);
        if let Some(c) = self.open.take() {
            self.push_out(Ok(Block::Cohort(c)));
        }
        assert(result_views(self.out@) + oks(block_views(self.pending@)) =~= target);
        while self.pending.len() > 0
            invariant
                self.open is None,
                result_views(self.out@) + oks(block_views(self.pending@)) == target,
            decreases self.pending@.len(),
        {
            let ghost before = self.pending@;
            let b = self.pending.pop_front().unwrap();
            assert(block_views(self.pending@) =~= block_views(before).drop_first());
            self.push_out(Ok(b));
            assert(oks(block_views(before)) =~= seq![Ok::<BlockSpec, ErrorSpec>(b@)] + oks(
                block_views(self.pending@),
            ));
        }
        assert(oks(block_views(self.pending@)) =~= seq![]);
        assert(block_views(self.pending@) =~= seq![]);
    }

    /// Takes in the line `l`.
    fn feed(&mut self, l: &Vec<char>)
        ensures
            final(self).view() == step(old(self).view(), l@),
    {
        let n = l.len();
        if n > 0 && l[0] == '"' {
            self.flush();
            match word_form_of(l) {
                Some(w) => {
                    let c = Cohort { word_form: w, readings: Vec::new() };
                    assert(c@.readings =~= seq![]);
                    self.open = Some(c);
                },
                None => {
                    assert(l@.subrange(0, n as int) =~= l@);
                    self.push_out(Err(Error::InvalidLine(string_of(l, 0, n))));
                },
            }
        } else if n > 0 && l[0] == '\t' {
            if self.open.is_none() {
                assert(l@.subrange(0, n as int) =~= l@);
                self.push_out(Err(Error::InvalidReading(string_of(l, 0, n))));
            } else {
                match reading_of(l) {
                    Ok(r) => {
                        let mut c = self.open.take().unwrap();
                        let ghost before = c.readings@;
                        c.readings.push(r);
                        assert(reading_views(c.readings@) =~= reading_views(before).push(r@));
                        self.open = Some(c);
                    },
                    Err(e) => {
                        self.push_out(Err(e));
                    },
                }
            }
        } else {
            let t = if n > 0 && l[0] == ':' {
                assert(l@.subrange(1, n as int) =~= l@.drop_first());
                Block::Escaped(string_of(l, 1, n))
            } else {
                assert(l@.subrange(0, n as int) =~= l@);
                Block::Text(string_of(l, 0, n))
            };
            if self.open.is_none() {
                self.push_out(Ok(t));
            } else {
                let ghost before = self.pending@;
                self.pending.push_back(t);
                assert(block_views(self.pending@) =~= block_views(before).push(t@));
            }
        }
    }
}

impl Output {
    /// The blocks of the buffer, and the errors of its malformed lines, in
    /// stream order. Text met inside a cohort follows that cohort.
    pub fn iter(&self) -> (r: Vec<Result<Block, Error>>)
        ensures
            result_views(r@) == parse_blocks(self@),
    {
        let ls = split_lines_of(&self.buf);
        let ghost lv = char_views(ls@);
        let mut a = Assembler::new();
        let mut i: usize = 0;
        while i < ls.len()
            invariant
                i <= ls.len(),
                lv == char_views(ls@),
                lv == split_lines(self.buf@),
                assemble(lv, i as int, a.view()) == parse_blocks(self.buf@),
            decreases ls.len() - i,
        {
            assert(lv[i as int] == ls@[i as int]@);
            a.feed(&ls[i]);
            i = i + 1;
        }
        a.flush();
        a.out
    }

    /// The buffer written back from its blocks, up to the first malformed
    /// line.
    pub fn to_string(&self) -> (r: String)
        ensures
            r@ == render_results(parse_blocks(self@), 0),
    {
        let blocks = self.iter();
        let ghost rs = result_views(blocks@);
        let mut s = String::new();
        let mut i: usize = 0;
        while i < blocks.len()
            invariant
                i <= blocks.len(),
                rs == result_views(blocks@),
                rs == parse_blocks(self@),
                s@ + render_results(rs, i as int) == render_results(rs, 0),
            decreases blocks.len() - i,
        {
            assert(rs[i as int] == result_view(blocks@[i as int]));
            match &blocks[i] {
                Ok(b) => {
                    let t = b.to_string();
                    s.append(t.as_str());
                    assert(s@ + render_results(rs, i + 1) =~= render_results(rs, 0));
                },
                Err(_) => {
                    assert(s@ =~= render_results(rs, 0));
                    return s;
                },
            }
            i = i + 1;
        }
        assert(s@ =~= render_results(rs, 0));
        s
    }
}

} // verus!
