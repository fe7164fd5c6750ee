//! The vocabulary matcher: an Aho-Corasick automaton with leftmost-longest
//! semantics over the vocabulary entries that can continue a word.
//!
//! Patterns and haystacks are handed to the automaton in a fixed-width,
//! self-synchronising encoding of three bytes per character (the first byte
//! has its high bit set, the other two do not), so every hit the automaton
//! reports starts and ends on a character boundary.
use crate::text::{chars_of, has_cjk, has_cjk_in};
use crate::vocab::{lemma_pairs_map_domain, pairs_map};
use aho_corasick::{AhoCorasick, AhoCorasickBuilder, MatchKind};
use vstd::prelude::*;

verus! {

/// An Aho-Corasick automaton, kept opaque. It is held in a struct of its
/// own because Verus does not accept a declaration of `AhoCorasick` itself,
/// whose type parameter is bound by the crate's `StateID` trait.
#[verifier::external_body]
pub struct Automaton {
    ac: AhoCorasick,
}

/// The patterns an automaton was built from.
pub uninterp spec fn patterns_of(ac: Automaton) -> Seq<Seq<u8>>;

/// Whether an automaton was built with leftmost-longest match semantics.
pub uninterp spec fn is_leftmost_longest(ac: Automaton) -> bool;

/// Byte `k` (0, 1 or 2) of the encoding of `c`.
pub open spec fn unit_byte(c: char, k: int) -> u8 {
    let u = c as u32;
    if k == 0 {
        (0x80u32 | (u >> 14u32)) as u8
    } else if k == 1 {
        ((u >> 7u32) & 0x7fu32) as u8
    } else {
        (u & 0x7fu32) as u8
    }
}

/// The fixed-width encoding of a character sequence.
pub open spec fn units(x: Seq<char>) -> Seq<u8> {
    Seq::new((3 * x.len()) as nat, |t: int| unit_byte(x[t / 3], t % 3))
}

/// Whether some pattern equals `h[s..e]`, a non-empty range.
pub open spec fn pattern_at(pats: Seq<Seq<u8>>, h: Seq<u8>, s: int, e: int) -> bool {
    0 <= s < e <= h.len() && exists|k: int| 0 <= k < pats.len() && pats[k] == h.subrange(s, e)
}

/// The largest `e' <= e` such that a pattern occupies `h[s..e']`, or `s`
/// when there is none.
pub open spec fn longest_at(pats: Seq<Seq<u8>>, h: Seq<u8>, s: int, e: int) -> int
    decreases e - s,
{
    if e <= s {
        s
    } else if pattern_at(pats, h, s, e) {
        e
    } else {
        longest_at(pats, h, s, e - 1)
    }
}

/// The non-overlapping leftmost-longest matches of `pats` in `h` from byte
/// `from` on, as (start, end) pairs in order.
pub open spec fn leftmost_longest(pats: Seq<Seq<u8>>, h: Seq<u8>, from: int) -> Seq<(int, int)>
    decreases h.len() - from,
{
    if from < 0 || from >= h.len() {
        Seq::empty()
    } else {
        let e = longest_at(pats, h, from, h.len() as int);
        if from < e <= h.len() {
            seq![(from, e)] + leftmost_longest(pats, h, e)
        } else {
            leftmost_longest(pats, h, from + 1)
        }
    }
}

/// Whether `x` is a continuation piece: a non-empty text that the
/// vocabulary holds verbatim when it contains an ideograph, and behind
/// the continuation prefix when it does not.
pub open spec fn in_matcher(vocab: Map<Seq<char>, u32>, prefix: Seq<char>, x: Seq<char>) -> bool {
    &&& x.len() > 0
    &&& if has_cjk(x) {
        vocab.contains_key(x)
    } else {
        vocab.contains_key(prefix + x)
    }
}

/// Whether `p` encodes a continuation piece.
pub open spec fn encodes_piece(vocab: Map<Seq<char>, u32>, prefix: Seq<char>, p: Seq<u8>) -> bool {
    exists|x: Seq<char>| p == #[trigger] units(x) && in_matcher(vocab, prefix, x)
}

/// The automaton's patterns are exactly the encodings of the continuation
/// pieces.
pub open spec fn matcher_ok(pats: Seq<Seq<u8>>, vocab: Map<Seq<char>, u32>, prefix: Seq<char>) -> bool {
    &&& forall|k: int| 0 <= k < pats.len() ==> encodes_piece(vocab, prefix, #[trigger] pats[k])
    &&& forall|x: Seq<char>| #[trigger] in_matcher(vocab, prefix, x) ==> exists|k: int| 0 <= k < pats.len() && pats[k] == units(x)
}

/// Relies on aho_corasick::AhoCorasickBuilder::build with
/// MatchKind::LeftmostLongest: the automaton searches for exactly the given
/// patterns, with leftmost-longest semantics.
#[verifier::external_body]
fn build_leftmost_longest(patterns: &Vec<Vec<u8>>) -> (r: Automaton)
    ensures
        patterns_of(r) == patterns@.map_values(|p: Vec<u8>| p@),
        is_leftmost_longest(r),
{
    Automaton { ac: AhoCorasickBuilder::new().match_kind(MatchKind::LeftmostLongest).build(patterns) }
}

/// Relies on aho_corasick::AhoCorasick::find_iter: under leftmost-longest
/// semantics it reports, left to right and without overlap, the longest
/// match that starts at the leftmost position where any pattern matches.
#[verifier::external_body]
pub(crate) fn find_all(ac: &Automaton, haystack: &Vec<u8>) -> (r: Vec<(usize, usize)>)
    requires
        is_leftmost_longest(*ac),
        forall|k: int| 0 <= k < patterns_of(*ac).len() ==> #[trigger] patterns_of(*ac)[k].len() > 0,
    ensures
        r@.len() == leftmost_longest(patterns_of(*ac), haystack@, 0).len(),
        forall|i: int|
            0 <= i < r@.len() ==> {
                &&& #[trigger] r@[i].0 as int == leftmost_longest(patterns_of(*ac), haystack@, 0)[i].0
                &&& r@[i].1 as int == leftmost_longest(patterns_of(*ac), haystack@, 0)[i].1
            },
{
    ac.ac.find_iter(haystack).map(|m| (m.start(), m.end())).collect()
}

/// The encoding of `cs[from..to]`.
pub fn encode_units(cs: &Vec<char>, from: usize, to: usize) -> (r: Vec<u8>)
    requires
        from <= to <= cs@.len(),
    ensures
        r@ == units(cs@.subrange(from as int, to as int)),
{
    let ghost x = cs@.subrange(from as int, to as int);
    let mut r: Vec<u8> = Vec::new();
    let mut i = from;
    while i < to
        invariant
            from <= i <= to <= cs@.len(),
            x == cs@.subrange(from as int, to as int),
            r@.len() == 3 * (i - from),
            forall|t: int| 0 <= t < r@.len() ==> #[trigger] r@[t] == unit_byte(x[t / 3], t % 3),
        decreases to - i,
    {
        let u = cs[i] as u32;
        let ghost base = r@.len() as int;
        r.push((0x80u32 | (u >> 14u32)) as u8);
        r.push(((u >> 7u32) & 0x7fu32) as u8);
        r.push((u & 0x7fu32) as u8);
        proof {
            assert forall|t: int| 0 <= t < r@.len() implies #[trigger] r@[t] == unit_byte(x[t / 3], t % 3) by {
                if t >= base {
                    assert(t / 3 == i - from);
                    assert(x[t / 3] == cs@[i as int]);
                }
            }
        }
        i += 1;
    }
    assert(r@ =~= units(x));
    r
}

/// Whether `a` begins with `b`.
pub fn chars_start_with(a: &Vec<char>, b: &Vec<char>) -> (r: bool)
    ensures
        r == (b@.len() <= a@.len() && a@.subrange(0, b@.len() as int) == b@),
{
    if b.len() > a.len() {
        return false;
    }
    let mut i: usize = 0;
    while i < b.len()
        invariant
            b@.len() <= a@.len(),
            0 <= i <= b@.len(),
            forall|k: int| 0 <= k < i ==> a@[k] == b@[k],
        decreases b@.len() - i,
    {
        if a[i] != b[i] {
            assert(a@.subrange(0, b@.len() as int)[i as int] != b@[i as int]);
            return false;
        }
        i += 1;
    }
    assert(a@.subrange(0, b@.len() as int) =~= b@);
    true
}

/// Builds the matcher for a vocabulary and a continuation prefix.
pub fn build_matcher(entries: &Vec<(String, u32)>, prefix: &String) -> (r: Automaton)
    ensures
        matcher_ok(patterns_of(r), pairs_map(entries@), prefix@),
        is_leftmost_longest(r),
        forall|k: int| 0 <= k < patterns_of(r).len() ==> #[trigger] patterns_of(r)[k].len() > 0,
{
    let ghost v = pairs_map(entries@);
    let ghost pf = prefix@;
    let pcs = chars_of(prefix.as_str());
    let mut pats: Vec<Vec<u8>> = Vec::new();
    let mut i: usize = 0;
    while i < entries.len()
        invariant
            0 <= i <= entries@.len(),
            v == pairs_map(entries@),
            pf == prefix@,
            pcs@ == pf,
            forall|k: int| 0 <= k < pats@.len() ==> encodes_piece(v, pf, #[trigger] pats@[k]@),
            forall|k: int| 0 <= k < pats@.len() ==> #[trigger] pats@[k]@.len() > 0,
            forall|j: int, x: Seq<char>|
                #![trigger in_matcher(v, pf, x), entries@[j]]
                0 <= j < i && in_matcher(v, pf, x) && ((entries@[j].0@ == x && has_cjk(x)) || (
                entries@[j].0@ == pf + x && !has_cjk(x))) ==> exists|k: int|
                    0 <= k < pats@.len() && pats@[k]@ == units(x),
        decreases entries@.len() - i,
    {
        let kcs = chars_of(entries[i].0.as_str());
        let ghost key = kcs@;
        proof {
            lemma_pairs_map_domain(entries@, key);
            assert(entries@[i as int].0@ == key);
            assert(kcs@.subrange(0, kcs@.len() as int) =~= kcs@);
        }
        let ghost before = pats@;
        let whole = has_cjk_in(&kcs, 0, kcs.len());
        if whole {
            let u = encode_units(&kcs, 0, kcs.len());
            pats.push(u);
            proof {
                assert(in_matcher(v, pf, key));
                assert(pats@[pats@.len() - 1]@ == units(key));
            }
        }
        let ghost middle = pats@;
        let mut rest_ok = false;
        if chars_start_with(&kcs, &pcs) && kcs.len() > pcs.len() {
            if !has_cjk_in(&kcs, pcs.len(), kcs.len()) {
                rest_ok = true;
            }
        }
        let ghost rest = if pf.len() <= key.len() {
            key.subrange(pf.len() as int, key.len() as int)
        } else {
            key
        };
        if rest_ok {
            let u = encode_units(&kcs, pcs.len(), kcs.len());
            pats.push(u);
            proof {
                assert(key =~= pf + rest);
                assert(in_matcher(v, pf, rest));
                assert(pats@[pats@.len() - 1]@ == units(rest));
            }
        }
        proof {
            assert forall|k: int| 0 <= k < pats@.len() implies encodes_piece(v, pf, #[trigger] pats@[k]@) by {
                if k < before.len() {
                    assert(pats@[k] == before[k]);
                } else if k < middle.len() {
                    assert(pats@[k] == middle[k]);
                    assert(pats@[k]@ == units(key) && in_matcher(v, pf, key));
                } else {
                    assert(pats@[k]@ == units(rest) && in_matcher(v, pf, rest));
                }
            }
            assert forall|k: int| 0 <= k < pats@.len() implies #[trigger] pats@[k]@.len() > 0 by {
                if k < before.len() {
                    assert(pats@[k] == before[k]);
                } else if k < middle.len() {
                    assert(pats@[k] == middle[k]);
                }
            }
            assert forall|j: int, x: Seq<char>|
                #![trigger in_matcher(v, pf, x), entries@[j]]
                0 <= j < i + 1 && in_matcher(v, pf, x) && ((entries@[j].0@ == x && has_cjk(x))
                    || (entries@[j].0@ == pf + x && !has_cjk(x))) implies exists|k: int|
                0 <= k < pats@.len() && pats@[k]@ == units(x) by {
                if j < i {
                    let k = choose|k: int| 0 <= k < before.len() && before[k]@ == units(x);
                    assert(pats@[k] == before[k]);
                } else if key == x && has_cjk(x) {
                    assert(pats@[before.len() as int] == middle[before.len() as int]);
                } else {
                    assert(key == pf + x && !has_cjk(x));
                    assert(key.subrange(0, pf.len() as int) =~= pf);
                    assert(rest =~= x);
                    assert(!has_cjk(key.subrange(pf.len() as int, key.len() as int)));
                    assert(rest_ok);
                    assert(pats@[pats@.len() - 1]@ == units(x));
                }
            }
        }
        i += 1;
    }
    let r = build_leftmost_longest(&pats);
    proof {
        let p = patterns_of(r);
        assert(p.len() == pats@.len());
        assert forall|k: int| 0 <= k < p.len() implies encodes_piece(v, pf, #[trigger] p[k]) by {
            assert(p[k] == pats@[k]@);
        }
        assert forall|x: Seq<char>| #[trigger] in_matcher(v, pf, x) implies exists|k: int| 0 <= k < p.len() && p[k] == units(x) by {
            if has_cjk(x) {
                lemma_pairs_map_domain(entries@, x);
                let j = choose|j: int| 0 <= j < entries@.len() && #[trigger] entries@[j].0@ == x;
            } else {
                lemma_pairs_map_domain(entries@, pf + x);
                let j = choose|j: int| 0 <= j < entries@.len() && #[trigger] entries@[j].0@ == pf + x;
            }
            let k = choose|k: int| 0 <= k < pats@.len() && pats@[k]@ == units(x);
            assert(p[k] == pats@[k]@);
        }
        assert forall|k: int| 0 <= k < p.len() implies #[trigger] p[k].len() > 0 by {
            assert(p[k] == pats@[k]@);
        }
    }
    r
}

proof fn lemma_unit_bits(u: u32)
    by (bit_vector)
    requires
        u <= 0x10ffff,
    ensures
        ((0x80u32 | (u >> 14u32)) as u8) >= 0x80u8,
        (((u >> 7u32) & 0x7fu32) as u8) < 0x80u8,
        ((u & 0x7fu32) as u8) < 0x80u8,
{
}

proof fn lemma_unit_bits_injective(u: u32, v: u32)
    by (bit_vector)
    requires
        u <= 0x10ffff,
        v <= 0x10ffff,
        (0x80u32 | (u >> 14u32)) as u8 == (0x80u32 | (v >> 14u32)) as u8,
        ((u >> 7u32) & 0x7fu32) as u8 == ((v >> 7u32) & 0x7fu32) as u8,
        (u & 0x7fu32) as u8 == (v & 0x7fu32) as u8,
    ensures
        u == v,
{
}

/// Only the first byte of a character's encoding has its high bit set.
pub proof fn lemma_unit_byte_high(c: char, k: int)
    requires
        0 <= k < 3,
    ensures
        (unit_byte(c, k) >= 0x80) == (k == 0),
{
    vstd::utf8::char_is_scalar(c);
    lemma_unit_bits(c as u32);
}

/// A character is determined by its three bytes.
pub proof fn lemma_unit_bytes_injective(c: char, d: char)
    requires
        unit_byte(c, 0) == unit_byte(d, 0),
        unit_byte(c, 1) == unit_byte(d, 1),
        unit_byte(c, 2) == unit_byte(d, 2),
    ensures
        c == d,
{
    vstd::utf8::char_is_scalar(c);
    vstd::utf8::char_is_scalar(d);
    lemma_unit_bits_injective(c as u32, d as u32);
    vstd::utf8::char_u32_cast(c, c as u32);
    vstd::utf8::char_u32_cast(d, d as u32);
}

proof fn lemma_div3(i: int, t: int)
    requires
        0 <= t,
    ensures
        (3 * i + t) / 3 == i + t / 3,
        (3 * i + t) % 3 == t % 3,
{
    assert((3 * i + t) / 3 == i + t / 3 && (3 * i + t) % 3 == t % 3) by (nonlinear_arith)
        requires
            0 <= t,
    ;
}

proof fn lemma_div3_small(i: int, k: int)
    requires
        0 <= k < 3,
    ensures
        (3 * i + k) / 3 == i,
        (3 * i + k) % 3 == k,
{
    assert((3 * i + k) / 3 == i && (3 * i + k) % 3 == k) by (nonlinear_arith)
        requires
            0 <= k < 3,
    ;
}

/// The encoding of a slice is the matching slice of the encoding.
pub proof fn lemma_units_subrange(w: Seq<char>, i: int, j: int)
    requires
        0 <= i <= j <= w.len(),
    ensures
        units(w).subrange(3 * i, 3 * j) == units(w.subrange(i, j)),
{
    let a = units(w).subrange(3 * i, 3 * j);
    let b = units(w.subrange(i, j));
    assert forall|t: int| 0 <= t < a.len() implies a[t] == b[t] by {
        lemma_div3(i, t);
    }
    assert(a =~= b);
}

/// The encoding is injective.
pub proof fn lemma_units_injective(x: Seq<char>, y: Seq<char>)
    requires
        units(x) == units(y),
    ensures
        x == y,
{
    assert(units(x).len() == 3 * x.len() && units(y).len() == 3 * y.len());
    assert(x.len() == y.len()) by (nonlinear_arith)
        requires
            3 * x.len() == 3 * y.len(),
    ;
    assert forall|i: int| 0 <= i < x.len() implies x[i] == y[i] by {
        lemma_div3_small(i, 0);
        lemma_div3_small(i, 1);
        lemma_div3_small(i, 2);
        assert(units(x)[3 * i] == units(y)[3 * i]);
        assert(units(x)[3 * i + 1] == units(y)[3 * i + 1]);
        assert(units(x)[3 * i + 2] == units(y)[3 * i + 2]);
        assert(units(x)[3 * i] == unit_byte(x[i], 0));
        assert(units(y)[3 * i] == unit_byte(y[i], 0));
        assert(units(x)[3 * i + 1] == unit_byte(x[i], 1));
        assert(units(y)[3 * i + 1] == unit_byte(y[i], 1));
        assert(units(x)[3 * i + 2] == unit_byte(x[i], 2));
        assert(units(y)[3 * i + 2] == unit_byte(y[i], 2));
        lemma_unit_bytes_injective(x[i], y[i]);
    }
    assert(x =~= y);
}

/// A pattern occurs in an encoded text exactly on character boundaries,
/// and there it is a continuation piece.
pub proof fn lemma_pattern_at_chars(
    pats: Seq<Seq<u8>>,
    vocab: Map<Seq<char>, u32>,
    prefix: Seq<char>,
    ws: Seq<char>,
    s: int,
    e: int,
)
    requires
        matcher_ok(pats, vocab, prefix),
        0 <= s < e <= 3 * ws.len(),
    ensures
        pattern_at(pats, units(ws), s, e) == (s % 3 == 0 && e % 3 == 0 && in_matcher(
            vocab,
            prefix,
            ws.subrange(s / 3, e / 3),
        )),
{
    let h = units(ws);
    if pattern_at(pats, h, s, e) {
        let k = choose|k: int| 0 <= k < pats.len() && pats[k] == h.subrange(s, e);
        assert(encodes_piece(vocab, prefix, pats[k]));
        let x = choose|x: Seq<char>| pats[k] == #[trigger] units(x) && in_matcher(vocab, prefix, x);
        assert(x.len() > 0);
        assert(pats[k][0] == unit_byte(x[0], 0)) by {
            lemma_div3(0, 0);
        }
        lemma_unit_byte_high(x[0], 0);
        assert(h[s] == pats[k][0]);
        assert(s == 3 * (s / 3) + s % 3);
        lemma_div3(s / 3, s % 3);
        lemma_unit_byte_high(ws[s / 3], s % 3);
        assert(s % 3 == 0);
        assert(pats[k].len() == e - s);
        assert(units(x).len() == 3 * x.len());
        assert((e - s) == 3 * x.len());
        assert(e == 3 * (s / 3 + x.len()));
        lemma_div3(s / 3 + x.len(), 0);
        lemma_units_subrange(ws, s / 3, e / 3);
        lemma_units_injective(x, ws.subrange(s / 3, e / 3));
    }
    if s % 3 == 0 && e % 3 == 0 && in_matcher(vocab, prefix, ws.subrange(s / 3, e / 3)) {
        let x = ws.subrange(s / 3, e / 3);
        let k = choose|k: int| 0 <= k < pats.len() && pats[k] == units(x);
        assert(s == 3 * (s / 3) && e == 3 * (e / 3));
        lemma_units_subrange(ws, s / 3, e / 3);
    }
}

pub proof fn lemma_longest_at_bounds(pats: Seq<Seq<u8>>, h: Seq<u8>, s: int, e: int)
    requires
        s <= e,
    ensures
        s <= longest_at(pats, h, s, e) <= e,
        longest_at(pats, h, s, e) > s ==> pattern_at(pats, h, s, longest_at(pats, h, s, e)),
    decreases e - s,
{
    if e > s && !pattern_at(pats, h, s, e) {
        lemma_longest_at_bounds(pats, h, s, e - 1);
    }
}

/// Every match reported from `from` on starts at or after `from`.
pub proof fn lemma_leftmost_longest_start(pats: Seq<Seq<u8>>, h: Seq<u8>, from: int)
    requires
        leftmost_longest(pats, h, from).len() > 0,
    ensures
        leftmost_longest(pats, h, from)[0].0 >= from,
    decreases h.len() - from,
{
    if 0 <= from < h.len() {
        let e = longest_at(pats, h, from, h.len() as int);
        if !(from < e <= h.len()) {
            lemma_leftmost_longest_start(pats, h, from + 1);
        }
    }
}

/// When nothing is reported at `b`, no pattern starts there and the
/// matches from `b` are those from `b + 1`.
pub proof fn lemma_leftmost_longest_skip(pats: Seq<Seq<u8>>, h: Seq<u8>, b: int)
    requires
        0 <= b < h.len(),
        leftmost_longest(pats, h, b).len() == 0 || leftmost_longest(pats, h, b)[0].0 != b,
    ensures
        longest_at(pats, h, b, h.len() as int) == b,
        leftmost_longest(pats, h, b) == leftmost_longest(pats, h, b + 1),
{
    lemma_longest_at_bounds(pats, h, b, h.len() as int);
}

/// When a match is reported at `b`, it is the longest one there, and the
/// rest are the matches from its end.
pub proof fn lemma_leftmost_longest_hit(pats: Seq<Seq<u8>>, h: Seq<u8>, b: int)
    requires
        0 <= b < h.len(),
        leftmost_longest(pats, h, b).len() > 0,
        leftmost_longest(pats, h, b)[0].0 == b,
    ensures
        b < longest_at(pats, h, b, h.len() as int) <= h.len(),
        leftmost_longest(pats, h, b)[0].1 == longest_at(pats, h, b, h.len() as int),
        leftmost_longest(pats, h, b).drop_first() == leftmost_longest(
            pats,
            h,
            longest_at(pats, h, b, h.len() as int),
        ),
{
    lemma_longest_at_bounds(pats, h, b, h.len() as int);
    let e = longest_at(pats, h, b, h.len() as int);
    if !(b < e <= h.len()) {
        if leftmost_longest(pats, h, b + 1).len() > 0 {
            lemma_leftmost_longest_start(pats, h, b + 1);
        }
    } else {
        assert(leftmost_longest(pats, h, b).drop_first() =~= leftmost_longest(pats, h, e));
    }
}

} // verus!
