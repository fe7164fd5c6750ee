//! The reference segmentation: greedy longest match from the left, one
//! unknown character at a time where nothing matches.
use crate::matcher::{in_matcher, lemma_pattern_at_chars, longest_at, matcher_ok, pattern_at, units};
use crate::text::has_cjk;
use vstd::prelude::*;

verus! {

/// The vocabulary key looked up for the characters `w[s..e]`: the text
/// itself when it holds an ideograph or starts the word, and the text
/// behind the continuation prefix otherwise.
pub open spec fn lookup_key(w: Seq<char>, prefix: Seq<char>, s: int, e: int) -> Seq<char> {
    let piece = w.subrange(s, e);
    if s > 0 && !has_cjk(piece) {
        prefix + piece
    } else {
        piece
    }
}

/// The largest `e' <= e` with `lookup_key(w, prefix, s, e')` in the
/// vocabulary, or `s` when there is none.
pub open spec fn longest_end(
    vocab: Map<Seq<char>, u32>,
    w: Seq<char>,
    prefix: Seq<char>,
    s: int,
    e: int,
) -> int
    decreases e - s,
{
    if e <= s {
        s
    } else if vocab.contains_key(lookup_key(w, prefix, s, e)) {
        e
    } else {
        longest_end(vocab, w, prefix, s, e - 1)
    }
}

/// The segments of `w` from character `s` on: (start, end, matched),
/// where an unmatched segment is one character wide.
pub open spec fn segments_from(
    vocab: Map<Seq<char>, u32>,
    w: Seq<char>,
    prefix: Seq<char>,
    s: int,
) -> Seq<(int, int, bool)>
    decreases w.len() - s,
{
    if s < 0 || s >= w.len() {
        Seq::empty()
    } else {
        let e = longest_end(vocab, w, prefix, s, w.len() as int);
        if s < e <= w.len() {
            seq![(s, e, true)] + segments_from(vocab, w, prefix, e)
        } else {
            seq![(s, s + 1, false)] + segments_from(vocab, w, prefix, s + 1)
        }
    }
}

pub proof fn lemma_longest_end_bounds(
    vocab: Map<Seq<char>, u32>,
    w: Seq<char>,
    prefix: Seq<char>,
    s: int,
    e: int,
)
    requires
        s <= e,
    ensures
        s <= longest_end(vocab, w, prefix, s, e) <= e,
        longest_end(vocab, w, prefix, s, e) > s ==> vocab.contains_key(
            lookup_key(w, prefix, s, longest_end(vocab, w, prefix, s, e)),
        ),
    decreases e - s,
{
    if e > s && !vocab.contains_key(lookup_key(w, prefix, s, e)) {
        lemma_longest_end_bounds(vocab, w, prefix, s, e - 1);
    }
}

/// On the encoded rest of a word, the automaton's longest match at a
/// character boundary ends where the reference scan's longest match ends.
pub proof fn lemma_longest_match_agrees(
    pats: Seq<Seq<u8>>,
    vocab: Map<Seq<char>, u32>,
    prefix: Seq<char>,
    w: Seq<char>,
    c0: int,
    i: int,
    j: int,
)
    requires
        matcher_ok(pats, vocab, prefix),
        1 <= c0 <= w.len(),
        0 <= i <= j <= w.len() - c0,
    ensures
        longest_at(pats, units(w.subrange(c0, w.len() as int)), 3 * i, 3 * j) == 3 * (longest_end(
            vocab,
            w,
            prefix,
            c0 + i,
            c0 + j,
        ) - c0),
    decreases j - i,
{
    let ws = w.subrange(c0, w.len() as int);
    let h = units(ws);
    if j > i {
        lemma_pattern_at_chars(pats, vocab, prefix, ws, 3 * i, 3 * j);
        assert((3 * i) % 3 == 0 && (3 * j) % 3 == 0 && (3 * i) / 3 == i && (3 * j) / 3 == j);
        assert(ws.subrange(i, j) =~= w.subrange(c0 + i, c0 + j));
        let x = w.subrange(c0 + i, c0 + j);
        assert(in_matcher(vocab, prefix, x) == vocab.contains_key(lookup_key(w, prefix, c0 + i, c0 + j)));
        if !pattern_at(pats, h, 3 * i, 3 * j) {
            lemma_pattern_at_chars(pats, vocab, prefix, ws, 3 * i, 3 * j - 1);
            lemma_pattern_at_chars(pats, vocab, prefix, ws, 3 * i, 3 * j - 2);
            assert((3 * j - 1) % 3 != 0 && (3 * j - 2) % 3 != 0);
            assert(3 * j - 3 == 3 * (j - 1));
            assert(longest_at(pats, h, 3 * i, 3 * j) == longest_at(pats, h, 3 * i, 3 * j - 1));
            assert(longest_at(pats, h, 3 * i, 3 * j - 1) == longest_at(pats, h, 3 * i, 3 * j - 2));
            assert(longest_at(pats, h, 3 * i, 3 * j - 2) == longest_at(pats, h, 3 * i, 3 * (j - 1)));
            lemma_longest_match_agrees(pats, vocab, prefix, w, c0, i, j - 1);
        }
    }
}

/// At a position inside a character, no pattern of the matcher starts.
pub proof fn lemma_no_match_inside_char(
    pats: Seq<Seq<u8>>,
    vocab: Map<Seq<char>, u32>,
    prefix: Seq<char>,
    ws: Seq<char>,
    b: int,
    e: int,
)
    requires
        matcher_ok(pats, vocab, prefix),
        0 <= b,
        b % 3 != 0,
        b <= e <= 3 * ws.len(),
    ensures
        longest_at(pats, units(ws), b, e) == b,
    decreases e - b,
{
    if e > b {
        lemma_pattern_at_chars(pats, vocab, prefix, ws, b, e);
        lemma_no_match_inside_char(pats, vocab, prefix, ws, b, e - 1);
    }
}

} // verus!
