//! The vocabulary file: one token per line, the line number being the id.
use crate::model::ChineseWordPiece;
use crate::record::{ordered_by_id, sorted_by_id};
use crate::text::{chars_of, is_space, is_space_char};
use crate::vocab::{distinct_tokens, pairs_map};
use vstd::prelude::*;

verus! {

/// `s` without its trailing white space.
pub open spec fn trim_end(s: Seq<char>) -> Seq<char>
    decreases s.len(),
{
    if s.len() > 0 && is_space(s.last()) {
        trim_end(s.drop_last())
    } else {
        s
    }
}

/// The complete lines of `s` and the text after the last line break.
pub open spec fn lines_acc(s: Seq<char>) -> (Seq<Seq<char>>, Seq<char>)
    decreases s.len(),
{
    if s.len() == 0 {
        (Seq::empty(), Seq::empty())
    } else {
        let (ls, cur) = lines_acc(s.drop_last());
        if s.last() == '\n' {
            (ls.push(cur), Seq::empty())
        } else {
            (ls, cur.push(s.last()))
        }
    }
}

/// The lines of `s`: split at line breaks, a final line needing no break.
pub open spec fn lines_of(s: Seq<char>) -> Seq<Seq<char>> {
    let (ls, cur) = lines_acc(s);
    if cur.len() > 0 {
        ls.push(cur)
    } else {
        ls
    }
}

/// The file text for `entries`: each token followed by a line break.
pub open spec fn file_text(entries: Seq<(String, u32)>) -> Seq<char>
    decreases entries.len(),
{
    if entries.len() == 0 {
        Seq::empty()
    } else {
        file_text(entries.drop_last()) + entries.last().0@ + seq!['\n']
    }
}

/// Relies on std's `FromIterator<&char> for String`: the string holds the
/// characters in order.
#[verifier::external_body]
fn string_from_chars(cs: &Vec<char>, from: usize, to: usize) -> (r: String)
    requires
        from <= to <= cs@.len(),
    ensures
        r@ == cs@.subrange(from as int, to as int),
{
    cs[from..to].iter().collect()
}

/// The vocabulary in a file's text: line `i`, without trailing white
/// space, is the token with id `i`.
pub fn parse_vocab(text: &str) -> (r: Vec<(String, u32)>)
    ensures
        r@.len() == lines_of(text@).len(),
        forall|i: int|
            0 <= i < r@.len() ==> (#[trigger] r@[i]).0@ == trim_end(lines_of(text@)[i]) && r@[i].1 == i as u32,
{
    let cs = chars_of(text);
    let mut out: Vec<(String, u32)> = Vec::new();
    let mut start: usize = 0;
    let mut i: usize = 0;
    while i < cs.len()
        invariant
            0 <= start <= i <= cs@.len(),
            cs@ == text@,
            lines_acc(cs@.subrange(0, i as int)).1 == cs@.subrange(start as int, i as int),
            lines_acc(cs@.subrange(0, i as int)).0.len() == out@.len(),
            forall|k: int|
                0 <= k < out@.len() ==> (#[trigger] out@[k]).0@ == trim_end(
                    lines_acc(cs@.subrange(0, i as int)).0[k],
                ) && out@[k].1 == k as u32,
        decreases cs@.len() - i,
    {
        let ghost prev = lines_acc(cs@.subrange(0, i as int));
        proof {
            assert(cs@.subrange(0, i + 1).drop_last() =~= cs@.subrange(0, i as int));
        }
        if cs[i] == '\n' {
            let t = trimmed_end(&cs, start, i);
            let line = string_from_chars(&cs, start, t);
            let id = out.len() as u32;
            out.push((line, id));
            start = i + 1;
            proof {
                assert(cs@.subrange(start as int, i + 1) =~= Seq::<char>::empty());
                let now = lines_acc(cs@.subrange(0, i + 1));
                assert(now.0 == prev.0.push(prev.1));
                assert forall|k: int| 0 <= k < out@.len() implies (#[trigger] out@[k]).0@ == trim_end(now.0[k])
                    && out@[k].1 == k as u32 by {
                    if k < prev.0.len() {
                        assert(now.0[k] == prev.0[k]);
                    }
                }
            }
        } else {
            proof {
                assert(cs@.subrange(start as int, i + 1) =~= cs@.subrange(start as int, i as int).push(cs@[i as int]));
            }
        }
        i += 1;
    }
    proof {
        assert(cs@.subrange(0, cs@.len() as int) =~= cs@);
    }
    if start < cs.len() {
        let t = trimmed_end(&cs, start, cs.len());
        let line = string_from_chars(&cs, start, t);
        let id = out.len() as u32;
        out.push((line, id));
    }
    out
}

/// The end of `cs[from..to]` once trailing white space is dropped.
fn trimmed_end(cs: &Vec<char>, from: usize, to: usize) -> (r: usize)
    requires
        from <= to <= cs@.len(),
    ensures
        from <= r <= to,
        cs@.subrange(from as int, r as int) == trim_end(cs@.subrange(from as int, to as int)),
{
    let mut t = to;
    while t > from && is_space_char(cs[t - 1])
        invariant
            from <= t <= to <= cs@.len(),
            trim_end(cs@.subrange(from as int, t as int)) == trim_end(cs@.subrange(from as int, to as int)),
        decreases t,
    {
        proof {
            assert(cs@.subrange(from as int, t as int).drop_last() =~= cs@.subrange(from as int, t - 1));
        }
        t -= 1;
    }
    t
}

/// The file text for entries in the given order.
pub fn vocab_file_text(entries: &Vec<(String, u32)>) -> (r: String)
    ensures
        r@ == file_text(entries@),
{
    let mut out = String::new();
    let mut i: usize = 0;
    while i < entries.len()
        invariant
            0 <= i <= entries@.len(),
            out@ == file_text(entries@.subrange(0, i as int)),
        decreases entries@.len() - i,
    {
        out.append(entries[i].0.as_str());
        out.append("\n");
        proof {
            reveal_strlit("\n");
            assert(entries@.subrange(0, i + 1).drop_last() =~= entries@.subrange(0, i as int));
        }
        i += 1;
    }
    assert(entries@.subrange(0, entries@.len() as int) =~= entries@);
    out
}

/// The name of the vocabulary file: `vocab.txt`, or `<name>-vocab.txt`.
pub fn vocab_file_name(name: Option<&str>) -> (r: String)
    ensures
        r@ == (match name {
            Some(n) => n@ + "-vocab.txt"@,
            None => "vocab.txt"@,
        }),
{
    match name {
        Some(n) => {
            let mut s = n.to_owned();
            s.append("-vocab.txt");
            s
        },
        None => "vocab.txt".to_owned(),
    }
}

impl ChineseWordPiece {
    /// The vocabulary file's text: the tokens by ascending id, one per line.
    pub fn vocab_file_contents(&self) -> (r: String)
        ensures
            exists|s: Seq<(String, u32)>|
                ordered_by_id(s) && distinct_tokens(s) && pairs_map(s) == self.vocab_map() && r@ == file_text(s),
    {
        let entries = self.get_vocab();
        let sorted = sorted_by_id(&entries);
        vocab_file_text(&sorted)
    }
}

proof fn lemma_lines_acc_no_break(x: Seq<char>, t: Seq<char>)
    requires
        !t.contains('\n'),
    ensures
        lines_acc(x + t) == (lines_acc(x).0, lines_acc(x).1 + t),
    decreases t.len(),
{
    if t.len() == 0 {
        assert(x + t =~= x);
        assert(lines_acc(x).1 + t =~= lines_acc(x).1);
    } else {
        let u = t.drop_last();
        assert(!u.contains('\n')) by {
            if u.contains('\n') {
                let k = choose|k: int| 0 <= k < u.len() && u[k] == '\n';
                assert(t[k] == '\n');
            }
        }
        lemma_lines_acc_no_break(x, u);
        assert((x + t).drop_last() =~= x + u);
        assert((x + t).last() == t.last());
        assert(t[t.len() - 1] != '\n');
        assert(lines_acc(x).1 + u + seq![t.last()] =~= lines_acc(x).1 + t);
        assert((lines_acc(x).1 + u).push(t.last()) =~= lines_acc(x).1 + t);
    }
}

proof fn lemma_lines_of_file_text(s: Seq<(String, u32)>)
    requires
        forall|i: int| 0 <= i < s.len() ==> !(#[trigger] s[i]).0@.contains('\n'),
    ensures
        lines_acc(file_text(s)).1.len() == 0,
        lines_acc(file_text(s)).0.len() == s.len(),
        forall|i: int| 0 <= i < s.len() ==> lines_acc(file_text(s)).0[i] == (#[trigger] s[i]).0@,
    decreases s.len(),
{
    if s.len() > 0 {
        let d = s.drop_last();
        assert forall|i: int| 0 <= i < d.len() implies !(#[trigger] d[i]).0@.contains('\n') by {
            assert(d[i] == s[i]);
        }
        lemma_lines_of_file_text(d);
        let x = file_text(d);
        let t = s.last().0@;
        assert(s[s.len() - 1] == s.last());
        lemma_lines_acc_no_break(x, t);
        let f = file_text(s);
        assert(f == x + t + seq!['\n']);
        assert(f.drop_last() =~= x + t);
        assert(f.last() == '\n');
        assert(lines_acc(x).1 + t =~= t);
        assert forall|i: int| 0 <= i < s.len() implies lines_acc(file_text(s)).0[i] == (#[trigger] s[i]).0@ by {
            if i < d.len() {
                assert(d[i] == s[i]);
            }
        }
    }
}

proof fn lemma_dense_ids(s: Seq<(String, u32)>, i: int)
    requires
        ordered_by_id(s),
        forall|a: int, b: int| 0 <= a < s.len() && 0 <= b < s.len() && a != b ==> (#[trigger] s[a]).1 != (#[trigger] s[b]).1,
        forall|a: int| 0 <= a < s.len() ==> (#[trigger] s[a]).1 < s.len(),
        0 <= i < s.len(),
    ensures
        s[i].1 == i,
{
    lemma_ids_at_least(s, i);
    lemma_ids_at_most(s, i);
}

proof fn lemma_ids_at_least(s: Seq<(String, u32)>, i: int)
    requires
        ordered_by_id(s),
        forall|a: int, b: int| 0 <= a < s.len() && 0 <= b < s.len() && a != b ==> (#[trigger] s[a]).1 != (#[trigger] s[b]).1,
        0 <= i < s.len(),
    ensures
        s[i].1 >= i,
    decreases i,
{
    if i > 0 {
        lemma_ids_at_least(s, i - 1);
        assert(s[i - 1].1 <= s[i].1);
        assert(s[i - 1].1 != s[i].1);
    }
}

proof fn lemma_ids_at_most(s: Seq<(String, u32)>, i: int)
    requires
        ordered_by_id(s),
        forall|a: int, b: int| 0 <= a < s.len() && 0 <= b < s.len() && a != b ==> (#[trigger] s[a]).1 != (#[trigger] s[b]).1,
        forall|a: int| 0 <= a < s.len() ==> (#[trigger] s[a]).1 < s.len(),
        0 <= i < s.len(),
    ensures
        s[i].1 <= i,
    decreases s.len() - i,
{
    if i < s.len() - 1 {
        lemma_ids_at_most(s, i + 1);
        assert(s[i].1 <= s[i + 1].1);
        assert(s[i].1 != s[i + 1].1);
    } else {
        assert(s[i].1 < s.len());
    }
}

proof fn lemma_pairs_map_same_views(r: Seq<(String, u32)>, s: Seq<(String, u32)>)
    requires
        r.len() == s.len(),
        forall|i: int| 0 <= i < r.len() ==> (#[trigger] r[i]).0@ == s[i].0@ && r[i].1 == s[i].1,
    ensures
        pairs_map(r) == pairs_map(s),
    decreases r.len(),
{
    if r.len() > 0 {
        let (a, b) = (r.drop_last(), s.drop_last());
        assert forall|i: int| 0 <= i < a.len() implies (#[trigger] a[i]).0@ == b[i].0@ && a[i].1 == b[i].1 by {
            assert(a[i] == r[i] && b[i] == s[i]);
        }
        lemma_pairs_map_same_views(a, b);
        assert(r.last() == r[r.len() - 1] && s.last() == s[s.len() - 1]);
    }
}

/// Writing a vocabulary file and reading it back gives the same token to
/// id mapping, when the ids are 0 to n - 1 and no token holds a line break
/// or ends in white space.
pub proof fn lemma_vocab_file_round_trip(s: Seq<(String, u32)>, r: Seq<(String, u32)>)
    requires
        ordered_by_id(s),
        distinct_tokens(s),
        forall|a: int, b: int| 0 <= a < s.len() && 0 <= b < s.len() && a != b ==> (#[trigger] s[a]).1 != (#[trigger] s[b]).1,
        forall|a: int| 0 <= a < s.len() ==> (#[trigger] s[a]).1 < s.len(),
        forall|a: int| 0 <= a < s.len() ==> !(#[trigger] s[a]).0@.contains('\n') && trim_end(s[a].0@) == s[a].0@,
        r.len() == lines_of(file_text(s)).len(),
        forall|i: int|
            0 <= i < r.len() ==> (#[trigger] r[i]).0@ == trim_end(lines_of(file_text(s))[i]) && r[i].1 == i as u32,
    ensures
        pairs_map(r) == pairs_map(s),
{
    lemma_lines_of_file_text(s);
    assert forall|i: int| 0 <= i < r.len() implies (#[trigger] r[i]).0@ == s[i].0@ && r[i].1 == s[i].1 by {
        lemma_dense_ids(s, i);
        assert(lines_of(file_text(s))[i] == s[i].0@);
    }
    lemma_pairs_map_same_views(r, s);
}

} // verus!
