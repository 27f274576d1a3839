//! The quote-aware tag tokenizer.
//!
//! A token is a run of non-whitespace characters, except that a token that
//! opens with `"` runs on, across whitespace, until the first whitespace
//! that follows a second `"`. Quote characters that are not followed by
//! whitespace stay inside the token. A token still open at the end of the
//! input ends there.
use vstd::prelude::*;

use crate::text::{is_whitespace, spec_is_whitespace, chars_of, string_of, string_views};

verus! {

/// Where the scanner stands between two characters.
#[derive(Clone, Copy, PartialEq, Eq, Debug)]
pub enum TokenizeState {
    /// Between tokens.
    Blank,
    /// Inside a token that does not open with a quote.
    Token,
    /// Inside a quoted token, before its closing quote.
    InString,
    /// Inside a quoted token, after a closing quote.
    EndOfString,
}

/// The spans `(start, end)` of the tokens that the scanner emits from
/// position `i` of `s` on, in state `st`, with the pending token starting
/// at `cur`.
pub open spec fn scan(s: Seq<char>, i: int, st: TokenizeState, cur: int) -> Seq<(int, int)>
    decreases s.len() - i,
{
    if i >= s.len() {
        if st == TokenizeState::Blank {
            seq![]
        } else {
            seq![(cur, s.len() as int)]
        }
    } else if s[i] == '"' {
        if st == TokenizeState::Blank {
            scan(s, i + 1, TokenizeState::InString, i)
        } else if st == TokenizeState::InString {
            scan(s, i + 1, TokenizeState::EndOfString, cur)
        } else {
            scan(s, i + 1, st, cur)
        }
    } else if spec_is_whitespace(s[i]) {
        if st == TokenizeState::Token || st == TokenizeState::EndOfString {
            seq![(cur, i)] + scan(s, i + 1, TokenizeState::Blank, i + 1)
        } else if st == TokenizeState::Blank {
            scan(s, i + 1, TokenizeState::Blank, i + 1)
        } else {
            scan(s, i + 1, st, cur)
        }
    } else if st == TokenizeState::Blank {
        scan(s, i + 1, TokenizeState::Token, cur)
    } else {
        scan(s, i + 1, st, cur)
    }
}

/// The spans of all tokens of `s`.
pub open spec fn token_spans(s: Seq<char>) -> Seq<(int, int)> {
    scan(s, 0, TokenizeState::Blank, 0)
}

/// The text of each span.
pub open spec fn span_texts(s: Seq<char>, sp: Seq<(int, int)>) -> Seq<Seq<char>> {
    sp.map_values(|p: (int, int)| s.subrange(p.0, p.1))
}

/// The tokens of `s`, in order.
pub open spec fn tokenize(s: Seq<char>) -> Seq<Seq<char>> {
    span_texts(s, token_spans(s))
}

pub open spec fn spans_int(v: Seq<(usize, usize)>) -> Seq<(int, int)> {
    v.map_values(|p: (usize, usize)| (p.0 as int, p.1 as int))
}

/// Spans within `0..n`, each with its start before its end.
pub open spec fn spans_within(sp: Seq<(int, int)>, n: int) -> bool {
    forall|k: int| 0 <= k < sp.len() ==> 0 <= (#[trigger] sp[k]).0 <= sp[k].1 <= n
}

proof fn lemma_scan_within(s: Seq<char>, i: int, st: TokenizeState, cur: int)
    requires
        0 <= cur <= i <= s.len(),
    ensures
        spans_within(scan(s, i, st, cur), s.len() as int),
    decreases s.len() - i,
{
    if i < s.len() {
        if s[i] == '"' && st == TokenizeState::Blank {
            lemma_scan_within(s, i + 1, TokenizeState::InString, i);
        } else if s[i] != '"' && spec_is_whitespace(s[i]) && st != TokenizeState::InString {
            lemma_scan_within(s, i + 1, TokenizeState::Blank, i + 1);
        } else if s[i] == '"' && st == TokenizeState::InString {
            lemma_scan_within(s, i + 1, TokenizeState::EndOfString, cur);
        } else if s[i] != '"' && !spec_is_whitespace(s[i]) && st == TokenizeState::Blank {
            lemma_scan_within(s, i + 1, TokenizeState::Token, cur);
        } else {
            lemma_scan_within(s, i + 1, st, cur);
        }
    }
}

/// The spans of the tokens of `s`, as the scanner finds them.
pub fn tokenize_spans(s: &Vec<char>) -> (r: Vec<(usize, usize)>)
    ensures
        spans_int(r@) == token_spans(s@),
        spans_within(token_spans(s@), s@.len() as int),
{
    let n = s.len();
    let mut r: Vec<(usize, usize)> = Vec::new();
    let mut st = TokenizeState::Blank;
    let mut cur: usize = 0;
    let mut i: usize = 0;
    while i < n
        invariant
            n == s.len(),
            cur <= i <= n,
            spans_int(r@) + scan(s@, i as int, st, cur as int) == token_spans(s@),
        decreases n - i,
    {
        let c = s[i];
        let ghost old_r = r@;
        if c == '"' {
            match st {
                TokenizeState::Blank => {
                    st = TokenizeState::InString;
                    cur = i;
                },
                TokenizeState::InString => {
                    st = TokenizeState::EndOfString;
                },
                _ => {},
            }
        } else if is_whitespace(c) {
            match st {
                TokenizeState::Token | TokenizeState::EndOfString => {
                    r.push((cur, i));
                    assert(spans_int(r@) =~= spans_int(old_r) + seq![(cur as int, i as int)]);
                    st = TokenizeState::Blank;
                    cur = i + 1;
                },
                TokenizeState::Blank => {
                    cur = i + 1;
                },
                TokenizeState::InString => {},
            }
        } else {
            match st {
                TokenizeState::Blank => {
                    st = TokenizeState::Token;
                },
                _ => {},
            }
        }
        i = i + 1;
    }
    match st {
        TokenizeState::Blank => {},
        _ => {
            let ghost old_r = r@;
            r.push((cur, n));
            assert(spans_int(r@) =~= spans_int(old_r) + seq![(cur as int, n as int)]);
        },
    }
    assert(spans_int(r@) =~= token_spans(s@));
    proof {
        lemma_scan_within(s@, 0, TokenizeState::Blank, 0);
    }
    r
}

/// Splits the tag part of a reading line into tokens, keeping each quoted
/// span whole.
pub fn tokenize_tags(input: &str) -> (r: Vec<String>)
    ensures
        string_views(r@) == tokenize(input@),
{
    let s = chars_of(input);
    let spans = tokenize_spans(&s);
    let mut r: Vec<String> = Vec::new();
    let mut k: usize = 0;
    while k < spans.len()
        invariant
            k <= spans.len(),
            r@.len() == k,
            s@ == input@,
            spans_int(spans@) == token_spans(s@),
            spans_within(token_spans(s@), s@.len() as int),
            string_views(r@) == tokenize(s@).take(k as int),
        decreases spans.len() - k,
    {
        let (lo, hi) = spans[k];
        assert(spans_int(spans@).len() == spans@.len());
        assert(spans_int(spans@)[k as int] == (lo as int, hi as int));
        assert(tokenize(s@)[k as int] == s@.subrange(lo as int, hi as int));
        let t = string_of(&s, lo, hi);
        let ghost old_r = r@;
        r.push(t);
        assert forall|j: int| 0 <= j <= k implies #[trigger] string_views(r@)[j]
            == tokenize(s@)[j] by {
            if j < k {
                assert(string_views(old_r)[j] == tokenize(s@).take(k as int)[j]);
            } else {
                assert(string_views(r@)[j] == r@[j]@);
            }
        }
        assert(string_views(r@) =~= tokenize(s@).take(k + 1));
        k = k + 1;
    }
    assert(tokenize(s@).take(k as int) =~= tokenize(s@));
    r
}

} // verus!
