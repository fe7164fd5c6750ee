//! The persisted form of a model: a record of its settings and its
//! vocabulary ordered by id, and the checks made when reading one back.
use crate::model::ChineseWordPiece;
use crate::vocab::{distinct_tokens, lemma_pairs_map_insert_at, pairs_map};
use vstd::prelude::*;

verus! {

/// The type tag a record carries.
pub open spec fn model_type_tag() -> Seq<char> {
    "ChineseWordPiece"@
}

/// A model's settings and vocabulary as stored; each field may be absent
/// in a record being read.
pub struct ModelRecord {
    pub model_type: Option<String>,
    pub unk_token: Option<String>,
    pub continuing_subword_prefix: Option<String>,
    pub max_input_chars_per_word: Option<usize>,
    pub vocab: Option<Vec<(String, u32)>>,
}

impl ModelRecord {
    /// Whether the record carries a type tag of another model.
    pub open spec fn has_wrong_type(&self) -> bool {
        match self.model_type {
            Some(t) => t@ != model_type_tag(),
            None => false,
        }
    }
}

/// Why a record could not be read.
#[derive(Debug, Clone, PartialEq, Eq)]
pub enum RecordError {
    /// A required field is absent; the first such field is named.
    MissingField(String),
    /// The type tag names another model.
    InvalidType(String),
}

/// Whether the ids of `s` do not decrease.
pub open spec fn ordered_by_id(s: Seq<(String, u32)>) -> bool {
    forall|i: int, j: int| 0 <= i < j < s.len() ==> (#[trigger] s[i]).1 <= (#[trigger] s[j]).1
}

/// Inserts `p` into `out`, which is ordered by id, after the entries whose
/// id is not larger.
fn insert_by_id(out: &mut Vec<(String, u32)>, p: (String, u32))
    requires
        ordered_by_id(old(out)@),
        distinct_tokens(old(out)@),
        !pairs_map(old(out)@).contains_key(p.0@),
    ensures
        ordered_by_id(final(out)@),
        distinct_tokens(final(out)@),
        pairs_map(final(out)@) == pairs_map(old(out)@).insert(p.0@, p.1),
        final(out)@.len() == old(out)@.len() + 1,
{
    let ghost before = out@;
    let mut k: usize = 0;
    while k < out.len() && out[k].1 <= p.1
        invariant
            out@ == before,
            0 <= k <= out@.len(),
            forall|t: int| 0 <= t < k ==> (#[trigger] out@[t]).1 <= p.1,
        decreases out@.len() - k,
    {
        k += 1;
    }
    out.insert(k, p);
    proof {
        let a = out@;
        assert(a == before.insert(k as int, p));
        assert forall|i: int, j: int| 0 <= i < j < a.len() implies (#[trigger] a[i]).1 <= (#[trigger] a[j]).1 by {
            if i < k && j < k {
                assert(a[i] == before[i] && a[j] == before[j]);
            } else if i < k && j == k {
                assert(a[i] == before[i]);
            } else if i < k {
                assert(a[i] == before[i] && a[j] == before[j - 1]);
            } else if i == k {
                assert(a[j] == before[j - 1]);
                assert(k < before.len());
                assert(before[k as int].1 > p.1);
                if j - 1 > k {
                    assert(before[k as int].1 <= before[j - 1].1);
                }
            } else {
                assert(a[i] == before[i - 1] && a[j] == before[j - 1]);
            }
        }
        lemma_pairs_map_insert_at(before, k as int, p);
    }
}

/// The entries of `entries`, ordered by id.
pub fn sorted_by_id(entries: &Vec<(String, u32)>) -> (r: Vec<(String, u32)>)
    requires
        distinct_tokens(entries@),
    ensures
        ordered_by_id(r@),
        distinct_tokens(r@),
        pairs_map(r@) == pairs_map(entries@),
        r@.len() == entries@.len(),
{
    let mut out: Vec<(String, u32)> = Vec::new();
    let mut i: usize = 0;
    while i < entries.len()
        invariant
            0 <= i <= entries@.len(),
            distinct_tokens(entries@),
            ordered_by_id(out@),
            distinct_tokens(out@),
            pairs_map(out@) == pairs_map(entries@.subrange(0, i as int)),
            out@.len() == i,
        decreases entries@.len() - i,
    {
        let p = (entries[i].0.clone(), entries[i].1);
        proof {
            let pre = entries@.subrange(0, i as int);
            assert(entries@.subrange(0, i + 1).drop_last() =~= pre);
            crate::vocab::lemma_pairs_map_domain(pre, p.0@);
            if pairs_map(pre).contains_key(p.0@) {
                let t = choose|t: int| 0 <= t < pre.len() && #[trigger] pre[t].0@ == p.0@;
                assert(entries@[t].0@ == entries@[i as int].0@);
            }
        }
        insert_by_id(&mut out, p);
        i += 1;
    }
    assert(entries@.subrange(0, entries@.len() as int) =~= entries@);
    out
}

impl ChineseWordPiece {
    /// The model as a record: its type tag, settings, and vocabulary
    /// ordered by id.
    pub fn to_record(&self) -> (r: ModelRecord)
        ensures
            (r.model_type matches Some(t) && t@ == model_type_tag()),
            (r.unk_token matches Some(u) && u@ == self.unk()),
            (r.continuing_subword_prefix matches Some(p) && p@ == self.prefix()),
            r.max_input_chars_per_word == Some(self.max_chars()),
            (r.vocab matches Some(v) && pairs_map(v@) == self.vocab_map() && ordered_by_id(v@) && distinct_tokens(
                v@,
            )),
    {
        let entries = self.get_vocab();
        let v = sorted_by_id(&entries);
        ModelRecord {
            model_type: Some("ChineseWordPiece".to_owned()),
            unk_token: Some(self.unk_token().clone()),
            continuing_subword_prefix: Some(self.continuing_subword_prefix().clone()),
            max_input_chars_per_word: Some(self.max_input_chars_per_word()),
            vocab: Some(v),
        }
    }

    /// Reads a model back from a record. A present type tag must be
    /// `ChineseWordPiece`; then the unknown token, prefix, word limit and
    /// vocabulary must all be present, and the first absent one is named.
    pub fn from_record(rec: ModelRecord) -> (r: Result<ChineseWordPiece, RecordError>)
        ensures
            rec.has_wrong_type() ==> (r matches Err(RecordError::InvalidType(t)) && t@
                == rec.model_type->0@),
            !rec.has_wrong_type() ==> {
                if rec.unk_token is None {
                    (r matches Err(RecordError::MissingField(f)) && f@ == "unk_token"@)
                } else if rec.continuing_subword_prefix is None {
                    (r matches Err(RecordError::MissingField(f)) && f@ == "continuing_subword_prefix"@)
                } else if rec.max_input_chars_per_word is None {
                    (r matches Err(RecordError::MissingField(f)) && f@ == "max_input_chars_per_word"@)
                } else if rec.vocab is None {
                    (r matches Err(RecordError::MissingField(f)) && f@ == "vocab"@)
                } else {
                    (r matches Ok(m) && m.unk() == rec.unk_token->0@ && m.prefix()
                        == rec.continuing_subword_prefix->0@ && m.max_chars()
                        == rec.max_input_chars_per_word->0 && m.vocab_map() == pairs_map(rec.vocab->0@))
                }
            },
    {
        if let Some(t) = &rec.model_type {
            let expected = "ChineseWordPiece".to_owned();
            if *t != expected {
                return Err(RecordError::InvalidType(t.clone()));
            }
        }
        let unk = match rec.unk_token {
            Some(u) => u,
            None => return Err(RecordError::MissingField("unk_token".to_owned())),
        };
        let prefix = match rec.continuing_subword_prefix {
            Some(p) => p,
            None => return Err(RecordError::MissingField("continuing_subword_prefix".to_owned())),
        };
        let max = match rec.max_input_chars_per_word {
            Some(m) => m,
            None => return Err(RecordError::MissingField("max_input_chars_per_word".to_owned())),
        };
        let vocab = match rec.vocab {
            Some(v) => v,
            None => return Err(RecordError::MissingField("vocab".to_owned())),
        };
        Ok(ChineseWordPiece::builder().vocab(vocab).unk_token(unk).continuing_subword_prefix(prefix).max_input_chars_per_word(max).build())
    }
}

/// Writing a model to a record and reading it back gives a model with the
/// same vocabulary, unknown token, prefix and word limit.
pub proof fn lemma_record_round_trip(m: &ChineseWordPiece, rec: ModelRecord, back: ChineseWordPiece)
    requires
        (rec.model_type matches Some(t) && t@ == model_type_tag()),
        (rec.unk_token matches Some(u) && u@ == m.unk()),
        (rec.continuing_subword_prefix matches Some(p) && p@ == m.prefix()),
        rec.max_input_chars_per_word == Some(m.max_chars()),
        (rec.vocab matches Some(v) && pairs_map(v@) == m.vocab_map()),
        back.unk() == rec.unk_token->0@,
        back.prefix() == rec.continuing_subword_prefix->0@,
        back.max_chars() == rec.max_input_chars_per_word->0,
        back.vocab_map() == pairs_map(rec.vocab->0@),
    ensures
        back.vocab_map() == m.vocab_map(),
        back.unk() == m.unk(),
        back.prefix() == m.prefix(),
        back.max_chars() == m.max_chars(),
{
}

} // verus!
