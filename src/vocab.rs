//! Vocabularies: token text to id, stored as a list of entries with
//! distinct tokens.
use vstd::prelude::*;
use vstd::utf8::{encode_utf8, encode_utf8_decode_utf8};

verus! {

/// The mapping described by a list of (token, id) pairs, where a later pair
/// overrides an earlier pair for the same token.
pub open spec fn pairs_map(e: Seq<(String, u32)>) -> Map<Seq<char>, u32>
    decreases e.len(),
{
    if e.len() == 0 {
        Map::empty()
    } else {
        pairs_map(e.drop_last()).insert(e.last().0@, e.last().1)
    }
}

/// No two entries carry the same token.
pub open spec fn distinct_tokens(e: Seq<(String, u32)>) -> bool {
    forall|i: int, j: int|
        0 <= i < e.len() && 0 <= j < e.len() && i != j ==> #[trigger] e[i].0@ != #[trigger] e[j].0@
}

pub proof fn lemma_pairs_map_domain(e: Seq<(String, u32)>, k: Seq<char>)
    ensures
        pairs_map(e).contains_key(k) <==> exists|i: int| 0 <= i < e.len() && #[trigger] e[i].0@ == k,
    decreases e.len(),
{
    if e.len() > 0 {
        lemma_pairs_map_domain(e.drop_last(), k);
        if pairs_map(e.drop_last()).contains_key(k) {
            let i = choose|i: int| 0 <= i < e.drop_last().len() && #[trigger] e.drop_last()[i].0@ == k;
            assert(e[i].0@ == k);
        }
        if exists|i: int| 0 <= i < e.len() && #[trigger] e[i].0@ == k {
            let i = choose|i: int| 0 <= i < e.len() && #[trigger] e[i].0@ == k;
            if i < e.len() - 1 {
                assert(e.drop_last()[i].0@ == k);
            }
        }
    }
}

pub proof fn lemma_pairs_map_value(e: Seq<(String, u32)>, i: int)
    requires
        distinct_tokens(e),
        0 <= i < e.len(),
    ensures
        pairs_map(e).contains_key(e[i].0@),
        pairs_map(e)[e[i].0@] == e[i].1,
    decreases e.len(),
{
    if i < e.len() - 1 {
        let d = e.drop_last();
        assert(d[i] == e[i]);
        assert forall|a: int, b: int|
            0 <= a < d.len() && 0 <= b < d.len() && a != b implies #[trigger] d[a].0@ != #[trigger] d[b].0@ by {
            assert(d[a] == e[a] && d[b] == e[b]);
        }
        lemma_pairs_map_value(d, i);
        assert(e.last().0@ != e[i].0@);
    }
}

/// Replacing the id of entry `j` is an insert into the mapping.
pub proof fn lemma_pairs_map_update(e: Seq<(String, u32)>, j: int, p: (String, u32))
    requires
        distinct_tokens(e),
        0 <= j < e.len(),
        e[j].0@ == p.0@,
    ensures
        distinct_tokens(e.update(j, p)),
        pairs_map(e.update(j, p)) == pairs_map(e).insert(p.0@, p.1),
{
    let u = e.update(j, p);
    assert forall|a: int, b: int|
        0 <= a < u.len() && 0 <= b < u.len() && a != b implies #[trigger] u[a].0@ != #[trigger] u[b].0@ by {
        assert(u[a].0@ == e[a].0@ && u[b].0@ == e[b].0@);
    }
    let m1 = pairs_map(u);
    let m2 = pairs_map(e).insert(p.0@, p.1);
    assert forall|k: Seq<char>| m1.contains_key(k) <==> m2.contains_key(k) by {
        lemma_pairs_map_domain(u, k);
        lemma_pairs_map_domain(e, k);
        if m2.contains_key(k) && k != p.0@ {
            let i = choose|i: int| 0 <= i < e.len() && #[trigger] e[i].0@ == k;
            assert(u[i].0@ == k);
        }
        if m2.contains_key(k) && k == p.0@ {
            assert(u[j].0@ == k);
        }
        if m1.contains_key(k) {
            let i = choose|i: int| 0 <= i < u.len() && #[trigger] u[i].0@ == k;
            assert(e[i].0@ == k);
        }
    }
    assert forall|k: Seq<char>| #[trigger] m1.contains_key(k) implies m1[k] == m2[k] by {
        lemma_pairs_map_domain(u, k);
        let i = choose|i: int| 0 <= i < u.len() && #[trigger] u[i].0@ == k;
        lemma_pairs_map_value(u, i);
        if i != j {
            lemma_pairs_map_value(e, i);
        }
    }
    assert(m1 =~= m2);
}

/// The UTF-8 bytes of a token.
pub open spec fn key_bytes(s: String) -> Seq<u8> {
    encode_utf8(s@)
}

/// Lexicographic order on byte sequences.
pub open spec fn lex_lt(a: Seq<u8>, b: Seq<u8>) -> bool
    decreases a.len(),
{
    if a.len() == 0 {
        b.len() > 0
    } else if b.len() == 0 {
        false
    } else if a[0] != b[0] {
        a[0] < b[0]
    } else {
        lex_lt(a.drop_first(), b.drop_first())
    }
}

/// The entries are in strictly increasing order of their tokens' bytes.
pub open spec fn sorted_keys(e: Seq<(String, u32)>) -> bool {
    forall|i: int, j: int| 0 <= i < j < e.len() ==> lex_lt(key_bytes(#[trigger] e[i].0), key_bytes(#[trigger] e[j].0))
}

pub proof fn lemma_lex_irreflexive(a: Seq<u8>)
    ensures
        !lex_lt(a, a),
    decreases a.len(),
{
    if a.len() > 0 {
        lemma_lex_irreflexive(a.drop_first());
    }
}

pub proof fn lemma_lex_transitive(a: Seq<u8>, b: Seq<u8>, c: Seq<u8>)
    requires
        lex_lt(a, b),
        lex_lt(b, c),
    ensures
        lex_lt(a, c),
    decreases a.len(),
{
    if a.len() > 0 && b.len() > 0 && c.len() > 0 && a[0] == b[0] && b[0] == c[0] {
        lemma_lex_transitive(a.drop_first(), b.drop_first(), c.drop_first());
    }
}

proof fn lemma_lex_common_prefix(a: Seq<u8>, b: Seq<u8>, i: int)
    requires
        0 <= i <= a.len(),
        i <= b.len(),
        forall|k: int| 0 <= k < i ==> a[k] == b[k],
    ensures
        lex_lt(a, b) == lex_lt(a.subrange(i, a.len() as int), b.subrange(i, b.len() as int)),
    decreases i,
{
    if i > 0 {
        lemma_lex_common_prefix(a.drop_first(), b.drop_first(), i - 1);
        assert(a.drop_first().subrange(i - 1, a.len() - 1) =~= a.subrange(i, a.len() as int));
        assert(b.drop_first().subrange(i - 1, b.len() - 1) =~= b.subrange(i, b.len() as int));
    } else {
        assert(a.subrange(0, a.len() as int) =~= a);
        assert(b.subrange(0, b.len() as int) =~= b);
    }
}

/// Equal encodings mean equal texts.
pub proof fn lemma_encode_injective(a: Seq<char>, b: Seq<char>)
    requires
        encode_utf8(a) == encode_utf8(b),
    ensures
        a == b,
{
    encode_utf8_decode_utf8(a);
    encode_utf8_decode_utf8(b);
}

/// Compares byte sequences: negative, zero or positive as `a` is before,
/// equal to or after `b`.
pub fn compare_bytes(a: &[u8], b: &[u8]) -> (r: i8)
    ensures
        (r == 0) == (a@ == b@),
        (r < 0) == lex_lt(a@, b@),
        (r > 0) == lex_lt(b@, a@),
{
    let mut i: usize = 0;
    while i < a.len() && i < b.len() && a[i] == b[i]
        invariant
            0 <= i <= a@.len(),
            i <= b@.len(),
            forall|k: int| 0 <= k < i ==> a@[k] == b@[k],
        decreases a@.len() - i,
    {
        i += 1;
    }
    proof {
        lemma_lex_common_prefix(a@, b@, i as int);
        lemma_lex_common_prefix(b@, a@, i as int);
        lemma_lex_irreflexive(a@);
    }
    if i < a.len() && i < b.len() {
        proof {
            assert(a@.subrange(i as int, a@.len() as int)[0] == a@[i as int]);
            assert(b@.subrange(i as int, b@.len() as int)[0] == b@[i as int]);
        }
        if a[i] < b[i] {
            -1
        } else {
            1
        }
    } else if i < a.len() {
        1
    } else if i < b.len() {
        -1
    } else {
        assert(a@ =~= b@);
        0
    }
}

/// Where `token` is in the sorted entries (`Ok`), or where it would go
/// (`Err`).
pub fn search_token(entries: &Vec<(String, u32)>, token: &str) -> (r: Result<usize, usize>)
    requires
        sorted_keys(entries@),
    ensures
        match r {
            Ok(j) => j < entries@.len() && entries@[j as int].0@ == token@,
            Err(p) => {
                &&& p <= entries@.len()
                &&& forall|k: int| 0 <= k < p ==> lex_lt(key_bytes(#[trigger] entries@[k].0), encode_utf8(token@))
                &&& forall|k: int|
                    p <= k < entries@.len() ==> lex_lt(encode_utf8(token@), key_bytes(#[trigger] entries@[k].0))
            },
        },
{
    let t = token.as_bytes();
    let mut lo: usize = 0;
    let mut hi: usize = entries.len();
    while lo < hi
        invariant
            0 <= lo <= hi <= entries@.len(),
            sorted_keys(entries@),
            t@ == encode_utf8(token@),
            forall|k: int| 0 <= k < lo ==> lex_lt(key_bytes(#[trigger] entries@[k].0), t@),
            forall|k: int| hi <= k < entries@.len() ==> lex_lt(t@, key_bytes(#[trigger] entries@[k].0)),
        decreases hi - lo,
    {
        let mid = lo + (hi - lo) / 2;
        let c = compare_bytes(entries[mid].0.as_str().as_bytes(), t);
        if c == 0 {
            proof {
                lemma_encode_injective(entries@[mid as int].0@, token@);
            }
            return Ok(mid);
        } else if c < 0 {
            proof {
                assert forall|k: int| 0 <= k < mid + 1 implies lex_lt(key_bytes(#[trigger] entries@[k].0), t@) by {
                    if k < mid {
                        lemma_lex_transitive(key_bytes(entries@[k].0), key_bytes(entries@[mid as int].0), t@);
                    }
                }
            }
            lo = mid + 1;
        } else {
            proof {
                assert forall|k: int| mid <= k < entries@.len() implies lex_lt(t@, key_bytes(#[trigger] entries@[k].0)) by {
                    if k > mid {
                        lemma_lex_transitive(t@, key_bytes(entries@[mid as int].0), key_bytes(entries@[k].0));
                    }
                }
            }
            hi = mid;
        }
    }
    Err(lo)
}

/// Sorted entries have distinct tokens.
pub proof fn lemma_sorted_distinct(e: Seq<(String, u32)>)
    requires
        sorted_keys(e),
    ensures
        distinct_tokens(e),
{
    assert forall|i: int, j: int|
        0 <= i < e.len() && 0 <= j < e.len() && i != j implies #[trigger] e[i].0@ != #[trigger] e[j].0@ by {
        if e[i].0@ == e[j].0@ {
            lemma_lex_irreflexive(key_bytes(e[i].0));
        }
    }
}

/// Position of the entry whose token is `token`, if any.
pub fn find_token(entries: &Vec<(String, u32)>, token: &str) -> (r: Option<usize>)
    requires
        sorted_keys(entries@),
    ensures
        match r {
            Some(j) => j < entries@.len() && entries@[j as int].0@ == token@,
            None => forall|i: int| 0 <= i < entries@.len() ==> #[trigger] entries@[i].0@ != token@,
        },
{
    match search_token(entries, token) {
        Ok(j) => Some(j),
        Err(p) => {
            proof {
                assert forall|i: int| 0 <= i < entries@.len() implies #[trigger] entries@[i].0@ != token@ by {
                    if entries@[i].0@ == token@ {
                        lemma_lex_irreflexive(encode_utf8(token@));
                    }
                }
            }
            None
        },
    }
}

/// Inserting an entry with a new token at any position is an insert into
/// the mapping.
pub proof fn lemma_pairs_map_insert_at(e: Seq<(String, u32)>, k: int, p: (String, u32))
    requires
        distinct_tokens(e),
        0 <= k <= e.len(),
        !pairs_map(e).contains_key(p.0@),
    ensures
        distinct_tokens(e.insert(k, p)),
        pairs_map(e.insert(k, p)) == pairs_map(e).insert(p.0@, p.1),
{
    let a = e.insert(k, p);
    lemma_pairs_map_domain(e, p.0@);
    assert forall|i: int, j: int|
        0 <= i < a.len() && 0 <= j < a.len() && i != j implies #[trigger] a[i].0@ != #[trigger] a[j].0@ by {
        if i != k && j != k {
            let ii = if i < k { i } else { i - 1 };
            let jj = if j < k { j } else { j - 1 };
            assert(a[i] == e[ii] && a[j] == e[jj]);
        } else if i == k {
            let jj = if j < k { j } else { j - 1 };
            assert(a[j] == e[jj]);
        } else {
            let ii = if i < k { i } else { i - 1 };
            assert(a[i] == e[ii]);
        }
    }
    let m1 = pairs_map(a);
    let m2 = pairs_map(e).insert(p.0@, p.1);
    assert forall|key: Seq<char>| m1.contains_key(key) <==> m2.contains_key(key) by {
        lemma_pairs_map_domain(a, key);
        lemma_pairs_map_domain(e, key);
        if m2.contains_key(key) && key != p.0@ {
            let t = choose|t: int| 0 <= t < e.len() && #[trigger] e[t].0@ == key;
            let tt = if t < k { t } else { t + 1 };
            assert(a[tt] == e[t]);
        }
        if key == p.0@ {
            assert(a[k] == p);
        }
        if m1.contains_key(key) {
            let t = choose|t: int| 0 <= t < a.len() && #[trigger] a[t].0@ == key;
            if t != k {
                let tt = if t < k { t } else { t - 1 };
                assert(a[t] == e[tt]);
            }
        }
    }
    assert forall|key: Seq<char>| #[trigger] m1.contains_key(key) implies m1[key] == m2[key] by {
        lemma_pairs_map_domain(a, key);
        let t = choose|t: int| 0 <= t < a.len() && #[trigger] a[t].0@ == key;
        lemma_pairs_map_value(a, t);
        if t != k {
            let tt = if t < k { t } else { t - 1 };
            assert(a[t] == e[tt]);
            lemma_pairs_map_value(e, tt);
        } else {
            assert(a[t] == p);
        }
    }
    assert(m1 =~= m2);
}

/// The entries of `pairs` in token order with repeated tokens merged, the
/// last id winning.
pub fn merge_pairs(pairs: Vec<(String, u32)>) -> (r: Vec<(String, u32)>)
    ensures
        sorted_keys(r@),
        distinct_tokens(r@),
        pairs_map(r@) == pairs_map(pairs@),
{
    let mut out: Vec<(String, u32)> = Vec::new();
    let mut i: usize = 0;
    while i < pairs.len()
        invariant
            0 <= i <= pairs@.len(),
            sorted_keys(out@),
            pairs_map(out@) == pairs_map(pairs@.subrange(0, i as int)),
        decreases pairs@.len() - i,
    {
        let p = (pairs[i].0.clone(), pairs[i].1);
        proof {
            assert(pairs@.subrange(0, i + 1).drop_last() =~= pairs@.subrange(0, i as int));
            lemma_sorted_distinct(out@);
        }
        match search_token(&out, p.0.as_str()) {
            Ok(j) => {
                proof {
                    lemma_pairs_map_update(out@, j as int, p);
                }
                let ghost before = out@;
                out.set(j, p);
                proof {
                    assert forall|a: int, b: int| 0 <= a < b < out@.len() implies lex_lt(
                        key_bytes(#[trigger] out@[a].0),
                        key_bytes(#[trigger] out@[b].0),
                    ) by {
                        assert(key_bytes(out@[a].0) == key_bytes(before[a].0));
                        assert(key_bytes(out@[b].0) == key_bytes(before[b].0));
                    }
                }
            },
            Err(pos) => {
                let ghost before = out@;
                proof {
                    lemma_pairs_map_domain(before, p.0@);
                    if pairs_map(before).contains_key(p.0@) {
                        let t = choose|t: int| 0 <= t < before.len() && #[trigger] before[t].0@ == p.0@;
                        if t < pos {
                            assert(lex_lt(key_bytes(before[t].0), encode_utf8(p.0@)));
                        } else {
                            assert(lex_lt(encode_utf8(p.0@), key_bytes(before[t].0)));
                        }
                        lemma_lex_irreflexive(encode_utf8(p.0@));
                    }
                    lemma_pairs_map_insert_at(before, pos as int, p);
                }
                out.insert(pos, p);
                proof {
                    assert(out@ == before.insert(pos as int, p));
                    assert forall|a: int, b: int| 0 <= a < b < out@.len() implies lex_lt(
                        key_bytes(#[trigger] out@[a].0),
                        key_bytes(#[trigger] out@[b].0),
                    ) by {
                        if a < pos && b < pos {
                            assert(out@[a] == before[a] && out@[b] == before[b]);
                        } else if a < pos && b == pos {
                            assert(out@[a] == before[a]);
                        } else if a < pos {
                            assert(out@[a] == before[a] && out@[b] == before[b - 1]);
                        } else if a == pos {
                            assert(out@[b] == before[b - 1]);
                        } else {
                            assert(out@[a] == before[a - 1] && out@[b] == before[b - 1]);
                        }
                    }
                }
            },
        }
        i += 1;
    }
    assert(pairs@.subrange(0, pairs@.len() as int) =~= pairs@);
    proof {
        lemma_sorted_distinct(out@);
    }
    out
}

/// With distinct tokens, the mapping has one key per entry.
pub proof fn lemma_pairs_map_len(e: Seq<(String, u32)>)
    requires
        distinct_tokens(e),
    ensures
        pairs_map(e).dom().finite(),
        pairs_map(e).dom().len() == e.len(),
    decreases e.len(),
{
    if e.len() > 0 {
        let d = e.drop_last();
        assert forall|a: int, b: int|
            0 <= a < d.len() && 0 <= b < d.len() && a != b implies #[trigger] d[a].0@ != #[trigger] d[b].0@ by {
            assert(d[a] == e[a] && d[b] == e[b]);
        }
        lemma_pairs_map_len(d);
        lemma_pairs_map_domain(d, e.last().0@);
        if pairs_map(d).contains_key(e.last().0@) {
            let i = choose|i: int| 0 <= i < d.len() && #[trigger] d[i].0@ == e.last().0@;
            assert(e[i].0@ == e[e.len() - 1].0@);
        }
        assert(pairs_map(e).dom() == pairs_map(d).dom().insert(e.last().0@));
    }
}

/// Copies the entries.
pub fn copy_pairs(e: &Vec<(String, u32)>) -> (r: Vec<(String, u32)>)
    ensures
        r@ == e@,
{
    let mut r: Vec<(String, u32)> = Vec::new();
    let mut i: usize = 0;
    while i < e.len()
        invariant
            0 <= i <= e@.len(),
            r@ == e@.subrange(0, i as int),
        decreases e@.len() - i,
    {
        r.push((e[i].0.clone(), e[i].1));
        assert(r@ =~= e@.subrange(0, i + 1));
        i += 1;
    }
    assert(e@.subrange(0, e@.len() as int) =~= e@);
    r
}

} // verus!
