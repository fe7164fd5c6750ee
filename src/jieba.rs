//! Pre-tokenization with the jieba Chinese word segmenter: the words of a
//! text with their byte spans, white space left out.
use crate::text::{blank, byte_offset, chars_of, is_blank};
use vstd::prelude::*;

verus! {

/// The words jieba cuts `s` into, with its embedded dictionary and
/// without the hidden Markov model.
pub uninterp spec fn jieba_cut(s: Seq<char>) -> Seq<Seq<char>>;

/// Relies on jieba_rs::Jieba::new (the embedded dictionary) and
/// jieba_rs::Jieba::cut with HMM off: the words depend on the text alone.
#[verifier::external_body]
fn cut_words(s: &str) -> (r: Vec<String>)
    ensures
        r@.map_values(|w: String| w@) == jieba_cut(s@),
{
    jieba_rs::Jieba::new().cut(s, false).into_iter().map(|w| w.to_string()).collect()
}

/// The words concatenated.
pub open spec fn joined(words: Seq<Seq<char>>) -> Seq<char>
    decreases words.len(),
{
    if words.len() == 0 {
        Seq::empty()
    } else {
        joined(words.drop_last()) + words.last()
    }
}

/// The words of `text` that are not white space, each with its byte span,
/// when `words` cut `text` in order.
pub open spec fn word_spans(text: Seq<char>, words: Seq<Seq<char>>) -> Seq<(Seq<char>, int, int)>
    decreases words.len(),
{
    if words.len() == 0 {
        Seq::empty()
    } else {
        let before = word_spans(text, words.drop_last());
        let start = joined(words.drop_last()).len() as int;
        let w = words.last();
        if blank(w) {
            before
        } else {
            before.push((w, byte_offset(text, start), byte_offset(text, start + w.len())))
        }
    }
}

/// Whether `r` lists `spans`, each word with its byte span.
pub open spec fn lists_spans(r: Seq<(String, (usize, usize))>, spans: Seq<(Seq<char>, int, int)>) -> bool {
    &&& r.len() == spans.len()
    &&& forall|i: int|
        0 <= i < r.len() ==> {
            &&& (#[trigger] r[i]).0@ == spans[i].0
            &&& r[i].1.0 == spans[i].1
            &&& r[i].1.1 == spans[i].2
        }
}

/// The non-blank words with their byte spans in `text`, or `None` when the
/// words do not concatenate to `text`.
pub fn spans_of_words(text: &str, words: &Vec<String>) -> (r: Option<Vec<(String, (usize, usize))>>)
    ensures
        match r {
            Some(v) => joined(words@.map_values(|w: String| w@)) == text@ && lists_spans(
                v@,
                word_spans(text@, words@.map_values(|w: String| w@)),
            ),
            None => joined(words@.map_values(|w: String| w@)) != text@,
        },
{
    let ghost ws = words@.map_values(|w: String| w@);
    let cs = chars_of(text);
    let blen = text.as_bytes().len();
    let offs = crate::text::char_offsets(&cs);
    let clen = cs.len();
    let mut out: Vec<(String, (usize, usize))> = Vec::new();
    let mut pos: usize = 0;
    let mut i: usize = 0;
    while i < words.len()
        invariant
            0 <= i <= words@.len(),
            ws == words@.map_values(|w: String| w@),
            cs@ == text@,
            clen == cs@.len(),
            offs@.len() == cs@.len() + 1,
            forall|k: int| 0 <= k <= cs@.len() ==> offs@[k] == byte_offset(cs@, k),
            pos <= cs@.len(),
            joined(ws.subrange(0, i as int)) == cs@.subrange(0, pos as int),
            lists_spans(out@, word_spans(text@, ws.subrange(0, i as int))),
        decreases words@.len() - i,
    {
        let wcs = chars_of(words[i].as_str());
        let ghost pre = ws.subrange(0, i as int);
        let ghost next = ws.subrange(0, i + 1);
        proof {
            assert(next.drop_last() =~= pre);
            assert(next.last() == wcs@);
        }
        if wcs.len() > clen - pos {
            proof {
                lemma_joined_prefix_too_long(ws, i as int, cs@, pos as int);
            }
            return None;
        }
        proof {
            assert(joined(next) == cs@.subrange(0, pos as int) + wcs@);
        }
        let mut k: usize = 0;
        while k < wcs.len()
            invariant
                0 <= k <= wcs@.len(),
                clen == cs@.len(),
                cs@ == text@,
                ws == words@.map_values(|w: String| w@),
                i < ws.len(),
                next == ws.subrange(0, i + 1),
                joined(next) == cs@.subrange(0, pos as int) + wcs@,
                pos + wcs@.len() <= cs@.len(),
                forall|t: int| 0 <= t < k ==> wcs@[t] == cs@[pos + t],
            decreases wcs@.len() - k,
        {
            if wcs[k] != cs[pos + k] {
                proof {
                    assert(joined(next)[pos + k] != cs@[pos + k]);
                    lemma_joined_prefix_mismatch(ws, i as int + 1, cs@, pos + k);
                }
                return None;
            }
            k += 1;
        }
        let end = pos + wcs.len();
        proof {
            assert(cs@.subrange(0, end as int) =~= cs@.subrange(0, pos as int) + wcs@);
            assert(joined(next) == cs@.subrange(0, end as int));
            assert(joined(pre).len() == pos);
        }
        if !is_blank(&wcs) {
            out.push((words[i].clone(), (offs[pos], offs[end])));
        }
        proof {
            let sp = word_spans(text@, next);
            assert forall|t: int| 0 <= t < out@.len() implies {
                &&& (#[trigger] out@[t]).0@ == sp[t].0
                &&& out@[t].1.0 == sp[t].1
                &&& out@[t].1.1 == sp[t].2
            } by {
                if t < word_spans(text@, pre).len() {
                    assert(sp[t] == word_spans(text@, pre)[t]);
                }
            }
        }
        pos = end;
        i += 1;
    }
    proof {
        assert(ws.subrange(0, words@.len() as int) =~= ws);
    }
    if pos < cs.len() {
        proof {
            assert(joined(ws).len() == pos);
        }
        return None;
    }
    proof {
        assert(cs@.subrange(0, pos as int) =~= cs@);
    }
    Some(out)
}

proof fn lemma_joined_prefix(ws: Seq<Seq<char>>, i: int, j: int)
    requires
        0 <= i <= j <= ws.len(),
    ensures
        joined(ws.subrange(0, i)).len() <= joined(ws.subrange(0, j)).len(),
        joined(ws.subrange(0, j)).subrange(0, joined(ws.subrange(0, i)).len() as int) == joined(
            ws.subrange(0, i),
        ),
    decreases j - i,
{
    if i < j {
        lemma_joined_prefix(ws, i, j - 1);
        assert(ws.subrange(0, j).drop_last() =~= ws.subrange(0, j - 1));
        let a = joined(ws.subrange(0, i));
        let b = joined(ws.subrange(0, j - 1));
        let c = joined(ws.subrange(0, j));
        assert(c == b + ws[j - 1]);
        assert(c.subrange(0, a.len() as int) =~= b.subrange(0, a.len() as int));
    } else {
        assert(joined(ws.subrange(0, i)).subrange(0, joined(ws.subrange(0, i)).len() as int) =~= joined(
            ws.subrange(0, i),
        ));
    }
}

proof fn lemma_joined_prefix_too_long(ws: Seq<Seq<char>>, i: int, cs: Seq<char>, pos: int)
    requires
        0 <= i < ws.len(),
        0 <= pos <= cs.len(),
        joined(ws.subrange(0, i)) == cs.subrange(0, pos),
        ws[i].len() > cs.len() - pos,
    ensures
        joined(ws) != cs,
{
    lemma_joined_prefix(ws, i + 1, ws.len() as int);
    assert(ws.subrange(0, i + 1).drop_last() =~= ws.subrange(0, i));
    assert(ws.subrange(0, ws.len() as int) =~= ws);
}

proof fn lemma_joined_prefix_mismatch(ws: Seq<Seq<char>>, j: int, cs: Seq<char>, p: int)
    requires
        0 < j <= ws.len(),
        0 <= p < joined(ws.subrange(0, j)).len(),
        p < cs.len(),
        joined(ws.subrange(0, j))[p] != cs[p],
    ensures
        joined(ws) != cs,
{
    lemma_joined_prefix(ws, j, ws.len() as int);
    assert(ws.subrange(0, ws.len() as int) =~= ws);
    let a = joined(ws.subrange(0, j));
    if joined(ws) == cs {
        assert(joined(ws).subrange(0, a.len() as int)[p] == cs[p]);
    }
}

/// Pre-tokenizes text into words with the jieba segmenter.
#[derive(Debug, Clone, Copy, PartialEq, Eq, Structural)]
pub struct Jieba;

impl Default for Jieba {
    fn default() -> (r: Self) {
        Jieba
    }
}

impl Jieba {
    /// The words of `text` that are not white space, with their byte spans.
    pub fn pre_tokenize(&self, text: &str) -> (r: Option<Vec<(String, (usize, usize))>>)
        ensures
            match r {
                Some(v) => joined(jieba_cut(text@)) == text@ && lists_spans(v@, word_spans(text@, jieba_cut(text@))),
                None => joined(jieba_cut(text@)) != text@,
            },
    {
        let words = cut_words(text);
        spans_of_words(text, &words)
    }
}

} // verus!
