//! The Chinese-aware WordPiece model and its builder.
use crate::matcher::{
    build_matcher, encode_units, find_all, is_leftmost_longest, lemma_leftmost_longest_hit,
    lemma_leftmost_longest_skip, leftmost_longest, matcher_ok, patterns_of, units, Automaton,
};
use crate::segment::{
    lemma_longest_end_bounds, lemma_longest_match_agrees, lemma_no_match_inside_char, longest_end,
    lookup_key, segments_from,
};
use crate::text::{byte_offset, char_offsets, chars_of, has_cjk_in, lemma_encode_push};
use crate::vocab::{
    copy_pairs, distinct_tokens, find_token, lemma_pairs_map_domain, lemma_pairs_map_len,
    lemma_pairs_map_value, merge_pairs, pairs_map, sorted_keys,
};
use vstd::prelude::*;
use vstd::utf8::encode_utf8;

verus! {

/// Errors of the model.
#[derive(Debug, Clone, Copy, PartialEq, Eq, Structural)]
pub enum Error {
    /// An unknown-token placeholder was needed but the vocabulary lacks it.
    MissingUnkToken,
}

impl Error {
    /// The error's message.
    pub fn to_string(&self) -> (r: String)
        ensures
            r@ == "ChineseWordPiece error: Missing [UNK] token from the vocabulary"@,
    {
        "ChineseWordPiece error: Missing [UNK] token from the vocabulary".to_owned()
    }
}

/// One piece of a segmented word: its text, its id and its byte span.
#[derive(Debug, PartialEq, Eq)]
pub struct Token {
    pub id: u32,
    pub value: String,
    pub offsets: (usize, usize),
}

/// Configures and builds a `ChineseWordPiece`.
pub struct ChineseWordPieceBuilder {
    files: Option<String>,
    vocab: Vec<(String, u32)>,
    unk_token: String,
    continuing_subword_prefix: String,
    max_input_chars_per_word: usize,
}

impl Default for ChineseWordPieceBuilder {
    fn default() -> (r: Self)
        ensures
            r.file() is None,
            r.pairs().len() == 0,
            r.unk() == "[UNK]"@,
            r.prefix() == "##"@,
            r.max_chars() == 100,
    {
        ChineseWordPieceBuilder {
            files: None,
            vocab: Vec::new(),
            unk_token: "[UNK]".to_owned(),
            continuing_subword_prefix: "##".to_owned(),
            max_input_chars_per_word: 100,
        }
    }
}

impl ChineseWordPieceBuilder {
    /// The vocabulary file to read, if one was set.
    pub closed spec fn file(&self) -> Option<Seq<char>> {
        match self.files {
            Some(f) => Some(f@),
            None => None,
        }
    }

    /// The (token, id) pairs given so far.
    pub closed spec fn pairs(&self) -> Seq<(String, u32)> {
        self.vocab@
    }

    pub closed spec fn unk(&self) -> Seq<char> {
        self.unk_token@
    }

    pub closed spec fn prefix(&self) -> Seq<char> {
        self.continuing_subword_prefix@
    }

    pub closed spec fn max_chars(&self) -> usize {
        self.max_input_chars_per_word
    }

    /// A builder with the default configuration: an empty vocabulary,
    /// `[UNK]`, `##` and 100 characters per word.
    pub fn new() -> (r: Self)
        ensures
            r.file() is None,
            r.pairs().len() == 0,
            r.unk() == "[UNK]"@,
            r.prefix() == "##"@,
            r.max_chars() == 100,
    {
        Self::default()
    }

    /// Sets the vocabulary file.
    pub fn files(self, vocab: String) -> (r: Self)
        ensures
            r.file() == Some(vocab@),
            r.pairs() == self.pairs(),
            r.unk() == self.unk(),
            r.prefix() == self.prefix(),
            r.max_chars() == self.max_chars(),
    {
        ChineseWordPieceBuilder { files: Some(vocab), ..self }
    }

    /// Sets the vocabulary as (token, id) pairs; where a token repeats, its
    /// last pair counts.
    pub fn vocab(self, vocab: Vec<(String, u32)>) -> (r: Self)
        ensures
            r.file() == self.file(),
            r.pairs() == vocab@,
            r.unk() == self.unk(),
            r.prefix() == self.prefix(),
            r.max_chars() == self.max_chars(),
    {
        ChineseWordPieceBuilder { vocab, ..self }
    }

    /// Sets the unknown token.
    pub fn unk_token(self, unk_token: String) -> (r: Self)
        ensures
            r.file() == self.file(),
            r.pairs() == self.pairs(),
            r.unk() == unk_token@,
            r.prefix() == self.prefix(),
            r.max_chars() == self.max_chars(),
    {
        ChineseWordPieceBuilder { unk_token, ..self }
    }

    /// Sets the prefix of continuing subwords.
    pub fn continuing_subword_prefix(self, continuing_subword_prefix: String) -> (r: Self)
        ensures
            r.file() == self.file(),
            r.pairs() == self.pairs(),
            r.unk() == self.unk(),
            r.prefix() == continuing_subword_prefix@,
            r.max_chars() == self.max_chars(),
    {
        ChineseWordPieceBuilder { continuing_subword_prefix, ..self }
    }

    /// Sets the largest number of characters a word may have.
    pub fn max_input_chars_per_word(self, max_input_chars_per_word: usize) -> (r: Self)
        ensures
            r.file() == self.file(),
            r.pairs() == self.pairs(),
            r.unk() == self.unk(),
            r.prefix() == self.prefix(),
            r.max_chars() == max_input_chars_per_word,
    {
        ChineseWordPieceBuilder { max_input_chars_per_word, ..self }
    }

    /// The vocabulary file set with `files`, if any: its contents are
    /// handed to `build_with_file_contents`.
    pub fn vocab_file(&self) -> (r: Option<String>)
        ensures
            match r {
                Some(f) => self.file() == Some(f@),
                None => self.file() is None,
            },
    {
        match &self.files {
            Some(f) => Some(f.clone()),
            None => None,
        }
    }

    /// Builds the model from the configured vocabulary pairs.
    pub fn build(self) -> (r: ChineseWordPiece)
        ensures
            r.vocab_map() == pairs_map(self.pairs()),
            r.unk() == self.unk(),
            r.prefix() == self.prefix(),
            r.max_chars() == self.max_chars(),
    {
        ChineseWordPiece::from_parts(
            self.vocab,
            self.unk_token,
            self.continuing_subword_prefix,
            self.max_input_chars_per_word,
        )
    }
}

/// A Chinese-aware WordPiece model.
pub struct ChineseWordPiece {
    vocab: Vec<(String, u32)>,
    trie: Automaton,
    unk_token: String,
    continuing_subword_prefix: String,
    max_input_chars_per_word: usize,
}

impl ChineseWordPiece {
    #[verifier::type_invariant]
    spec fn well_formed(&self) -> bool {
        &&& sorted_keys(self.vocab@)
        &&& distinct_tokens(self.vocab@)
        &&& matcher_ok(patterns_of(self.trie), pairs_map(self.vocab@), self.continuing_subword_prefix@)
        &&& is_leftmost_longest(self.trie)
        &&& forall|k: int|
            0 <= k < patterns_of(self.trie).len() ==> #[trigger] patterns_of(self.trie)[k].len() > 0
    }

    /// The vocabulary, token text to id.
    pub closed spec fn vocab_map(&self) -> Map<Seq<char>, u32> {
        pairs_map(self.vocab@)
    }

    /// The vocabulary entries, one per token.
    pub closed spec fn entries(&self) -> Seq<(String, u32)> {
        self.vocab@
    }

    pub closed spec fn unk(&self) -> Seq<char> {
        self.unk_token@
    }

    pub closed spec fn prefix(&self) -> Seq<char> {
        self.continuing_subword_prefix@
    }

    pub closed spec fn max_chars(&self) -> usize {
        self.max_input_chars_per_word
    }

    /// The segments `tokenize` produces for the word `w`.
    pub open spec fn planned(&self, w: Seq<char>) -> Seq<(int, int, bool)> {
        if w.len() > self.max_chars() {
            seq![(0, w.len() as int, false)]
        } else {
            segments_from(self.vocab_map(), w, self.prefix(), 0)
        }
    }

    /// Whether segmenting `w` needs the unknown token.
    pub open spec fn needs_unknown(&self, w: Seq<char>) -> bool {
        exists|i: int| 0 <= i < self.planned(w).len() && !(#[trigger] self.planned(w)[i]).2
    }

    /// Whether `t` is the token for segment `seg` of the word `w`.
    pub open spec fn token_for(&self, w: Seq<char>, seg: (int, int, bool), t: Token) -> bool {
        &&& t.offsets.0 == byte_offset(w, seg.0)
        &&& t.offsets.1 == byte_offset(w, seg.1)
        &&& if seg.2 {
            &&& t.value@ == lookup_key(w, self.prefix(), seg.0, seg.1)
            &&& self.vocab_map().contains_key(t.value@)
            &&& t.id == self.vocab_map()[t.value@]
        } else {
            &&& t.value@ == self.unk()
            &&& self.vocab_map().contains_key(self.unk())
            &&& t.id == self.vocab_map()[self.unk()]
        }
    }

    /// Assembles a model, building its matcher.
    pub fn from_parts(
        vocab: Vec<(String, u32)>,
        unk_token: String,
        continuing_subword_prefix: String,
        max_input_chars_per_word: usize,
    ) -> (r: Self)
        ensures
            r.vocab_map() == pairs_map(vocab@),
            r.unk() == unk_token@,
            r.prefix() == continuing_subword_prefix@,
            r.max_chars() == max_input_chars_per_word,
    {
        let entries = merge_pairs(vocab);
        let trie = build_matcher(&entries, &continuing_subword_prefix);
        ChineseWordPiece { vocab: entries, trie, unk_token, continuing_subword_prefix, max_input_chars_per_word }
    }

    /// A builder with the default configuration.
    pub fn builder() -> (r: ChineseWordPieceBuilder)
        ensures
            r.file() is None,
            r.pairs().len() == 0,
            r.unk() == "[UNK]"@,
            r.prefix() == "##"@,
            r.max_chars() == 100,
    {
        ChineseWordPieceBuilder::new()
    }

    /// A builder that reads its vocabulary from the file `vocab`.
    pub fn from_file(vocab: &str) -> (r: ChineseWordPieceBuilder)
        ensures
            r.file() == Some(vocab@),
            r.pairs().len() == 0,
            r.unk() == "[UNK]"@,
            r.prefix() == "##"@,
            r.max_chars() == 100,
    {
        ChineseWordPiece::builder().files(vocab.to_owned())
    }

    /// A model over a vocabulary made by a byte-pair-merge model, taking
    /// that model's unknown token and continuation prefix where it has them.
    pub fn from_bpe(
        vocab: Vec<(String, u32)>,
        unk_token: Option<String>,
        continuing_subword_prefix: Option<String>,
    ) -> (r: Self)
        ensures
            r.vocab_map() == pairs_map(vocab@),
            r.unk() == (match unk_token {
                Some(u) => u@,
                None => "[UNK]"@,
            }),
            r.prefix() == (match continuing_subword_prefix {
                Some(p) => p@,
                None => "##"@,
            }),
            r.max_chars() == 100,
    {
        let unk = match unk_token {
            Some(u) => u,
            None => "[UNK]".to_owned(),
        };
        let prefix = match continuing_subword_prefix {
            Some(p) => p,
            None => "##".to_owned(),
        };
        ChineseWordPiece::from_parts(vocab, unk, prefix, 100)
    }

    /// The vocabulary entries, one per token.
    pub fn get_vocab(&self) -> (r: Vec<(String, u32)>)
        ensures
            r@ == self.entries(),
            distinct_tokens(r@),
            pairs_map(r@) == self.vocab_map(),
    {
        proof {
            use_type_invariant(self);
        }
        copy_pairs(&self.vocab)
    }

    /// Number of tokens in the vocabulary.
    pub fn get_vocab_size(&self) -> (r: usize)
        ensures
            r == self.vocab_map().len(),
    {
        proof {
            use_type_invariant(self);
            lemma_pairs_map_len(self.vocab@);
        }
        self.vocab.len()
    }

    /// A token whose id is `id`, if there is one.
    pub fn id_to_token(&self, id: u32) -> (r: Option<String>)
        ensures
            match r {
                Some(t) => self.vocab_map().contains_key(t@) && self.vocab_map()[t@] == id,
                None => forall|k: Seq<char>| #[trigger] self.vocab_map().contains_key(k) ==> self.vocab_map()[k] != id,
            },
    {
        proof {
            use_type_invariant(self);
        }
        let mut i: usize = 0;
        while i < self.vocab.len()
            invariant
                0 <= i <= self.vocab@.len(),
                distinct_tokens(self.vocab@),
                forall|j: int| 0 <= j < i ==> (#[trigger] self.vocab@[j]).1 != id,
            decreases self.vocab@.len() - i,
        {
            if self.vocab[i].1 == id {
                proof {
                    lemma_pairs_map_value(self.vocab@, i as int);
                }
                return Some(self.vocab[i].0.clone());
            }
            i += 1;
        }
        proof {
            assert forall|k: Seq<char>| #[trigger] self.vocab_map().contains_key(k) implies self.vocab_map()[k] != id by {
                lemma_pairs_map_domain(self.vocab@, k);
                let j = choose|j: int| 0 <= j < self.vocab@.len() && #[trigger] self.vocab@[j].0@ == k;
                lemma_pairs_map_value(self.vocab@, j);
            }
        }
        None
    }

    /// The unknown token.
    pub fn unk_token(&self) -> (r: &String)
        ensures
            r@ == self.unk(),
    {
        &self.unk_token
    }

    /// The prefix of continuing subwords.
    pub fn continuing_subword_prefix(&self) -> (r: &String)
        ensures
            r@ == self.prefix(),
    {
        &self.continuing_subword_prefix
    }

    /// The largest number of characters a word may have.
    pub fn max_input_chars_per_word(&self) -> (r: usize)
        ensures
            r == self.max_chars(),
    {
        self.max_input_chars_per_word
    }

    /// Whether `ts` is the successful segmentation of the word `w`.
    pub open spec fn tokenization_of(&self, w: Seq<char>, ts: Seq<Token>) -> bool {
        &&& !(self.needs_unknown(w) && !self.vocab_map().contains_key(self.unk()))
        &&& ts.len() == self.planned(w).len()
        &&& forall|i: int| 0 <= i < ts.len() ==> self.token_for(w, #[trigger] self.planned(w)[i], ts[i])
    }

    /// Id of `token`, if the vocabulary has it.
    pub fn token_to_id(&self, token: &str) -> (r: Option<u32>)
        ensures
            match r {
                Some(id) => self.vocab_map().contains_key(token@) && self.vocab_map()[token@] == id,
                None => !self.vocab_map().contains_key(token@),
            },
    {
        proof {
            use_type_invariant(self);
            lemma_pairs_map_domain(self.vocab@, token@);
        }
        match find_token(&self.vocab, token) {
            Some(j) => {
                proof {
                    lemma_pairs_map_value(self.vocab@, j as int);
                }
                Some(self.vocab[j].1)
            },
            None => None,
        }
    }

    /// Splits one word into vocabulary pieces, greedily taking the longest
    /// match from the left and falling back to the unknown token one
    /// character at a time.
    pub fn tokenize(&self, sequence: &str) -> (r: Result<Vec<Token>, Error>)
        ensures
            match r {
                Ok(ts) => self.tokenization_of(sequence@, ts@),
                Err(e) => {
                    &&& e == Error::MissingUnkToken
                    &&& self.needs_unknown(sequence@)
                    &&& !self.vocab_map().contains_key(self.unk())
                },
            },
    {
        proof {
            use_type_invariant(self);
        }
        let ghost w = sequence@;
        let ghost v = self.vocab_map();
        let ghost pf = self.prefix();
        let ghost full = self.planned(w);
        let cs = chars_of(sequence);
        let n = cs.len();
        let unk_id = self.token_to_id(self.unk_token.as_str());
        let blen = sequence.as_bytes().len();
        proof {
            assert(w.subrange(0, w.len() as int) =~= w);
            assert(w.subrange(0, 0) =~= Seq::<char>::empty());
        }
        if n > self.max_input_chars_per_word {
            match unk_id {
                None => {
                    proof {
                        assert(!full[0].2);
                    }
                    return Err(Error::MissingUnkToken);
                },
                Some(id) => {
                    let t = Token { id, value: self.unk_token.clone(), offsets: (0, blen) };
                    let out = vec![t];
                    proof {
                        assert(!full[0].2);
                        assert(self.token_for(w, full[0], out@[0]));
                    }
                    return Ok(out);
                },
            }
        }
        let offs = char_offsets(&cs);
        let mut out: Vec<Token> = Vec::new();
        if n == 0 {
            return Ok(out);
        }
        // The first piece is looked up verbatim, longest first.
        let mut e = n;
        let mut hit: Option<u32> = None;
        while e > 0 && hit.is_none()
            invariant
                0 <= e <= n,
                w == sequence@,
                n == w.len(),
                v == self.vocab_map(),
                pf == self.prefix(),
                cs@ == w,
                hit is None ==> longest_end(v, w, pf, 0, n as int) == longest_end(v, w, pf, 0, e as int),
                hit is Some ==> {
                    &&& e > 0
                    &&& longest_end(v, w, pf, 0, n as int) == e
                    &&& v.contains_key(w.subrange(0, e as int))
                    &&& v[w.subrange(0, e as int)] == hit->0
                },
            decreases e + (if hit is None { 1int } else { 0int }),
        {
            let piece = sequence.substring_char(0, e);
            match self.token_to_id(piece) {
                Some(id) => {
                    hit = Some(id);
                },
                None => {
                    e -= 1;
                },
            }
        }
        let mut q: usize;
        let ghost mut done: Seq<(int, int, bool)>;
        proof {
            lemma_longest_end_bounds(v, w, pf, 0, n as int);
        }
        match hit {
            Some(id) => {
                let value = sequence.substring_char(0, e).to_owned();
                out.push(Token { id, value, offsets: (offs[0], offs[e]) });
                q = e;
                proof {
                    done = seq![(0int, e as int, true)];
                    assert(full == done + segments_from(v, w, pf, e as int));
                    assert(self.token_for(w, done[0], out@[0]));
                }
            },
            None => {
                proof {
                    assert(full == seq![(0int, 1int, false)] + segments_from(v, w, pf, 1));
                    assert(!full[0].2);
                }
                match unk_id {
                    None => {
                        return Err(Error::MissingUnkToken);
                    },
                    Some(id) => {
                        out.push(Token { id, value: self.unk_token.clone(), offsets: (offs[0], offs[1]) });
                    },
                }
                q = 1;
                proof {
                    done = seq![(0int, 1int, false)];
                    assert(self.token_for(w, done[0], out@[0]));
                }
            },
        }
        // The rest is found by the matcher, on the encoded remainder.
        let c0 = q;
        let hay = encode_units(&cs, c0, n);
        let hlen = hay.len();
        let hits = find_all(&self.trie, &hay);
        let ghost pats = patterns_of(self.trie);
        let ghost ws = w.subrange(c0 as int, n as int);
        let ghost h = hay@;
        let mut k: usize = 0;
        while q < n
            invariant
                1 <= c0 <= q <= n,
                w == sequence@,
                n == w.len(),
                cs@ == w,
                v == self.vocab_map(),
                pf == self.prefix(),
                pats == patterns_of(self.trie),
                matcher_ok(pats, v, pf),
                ws == w.subrange(c0 as int, n as int),
                h == units(ws),
                hay@ == h,
                hlen == h.len(),
                h.len() == 3 * (n - c0),
                offs@.len() == n + 1,
                forall|i: int| 0 <= i <= n ==> offs@[i] == byte_offset(w, i),
                full == self.planned(w),
                full == done + segments_from(v, w, pf, q as int),
                out@.len() == done.len(),
                forall|i: int| 0 <= i < done.len() ==> self.token_for(w, #[trigger] done[i], out@[i]),
                k <= hits@.len(),
                hits@.len() - k == leftmost_longest(pats, h, 3 * (q - c0)).len(),
                forall|i: int|
                    k <= i < hits@.len() ==> {
                        &&& #[trigger] hits@[i].0 as int == leftmost_longest(pats, h, 3 * (q - c0))[i - k].0
                        &&& hits@[i].1 as int == leftmost_longest(pats, h, 3 * (q - c0))[i - k].1
                    },
                unk_id is Some ==> v.contains_key(self.unk()) && v[self.unk()] == unk_id->0,
                unk_id is None ==> !v.contains_key(self.unk()),
            decreases n - q,
        {
            let b = 3 * (q - c0);
            let ghost ll = leftmost_longest(pats, h, b as int);
            proof {
                lemma_longest_match_agrees(pats, v, pf, w, c0 as int, q - c0, n - c0);
                lemma_longest_end_bounds(v, w, pf, q as int, n as int);
            }
            if k < hits.len() && hits[k].0 == b {
                let eb = hits[k].1;
                proof {
                    assert(ll[0].0 == b);
                    lemma_leftmost_longest_hit(pats, h, b as int);
                }
                let j = c0 + eb / 3;
                let ghost le = longest_end(v, w, pf, q as int, n as int);
                proof {
                    assert(eb == 3 * (le - c0));
                    assert(j == le);
                    assert(segments_from(v, w, pf, q as int) == seq![(q as int, j as int, true)] + segments_from(
                        v,
                        w,
                        pf,
                        j as int,
                    ));
                }
                let piece = sequence.substring_char(q, j).to_owned();
                let key = if has_cjk_in(&cs, q, j) {
                    piece
                } else {
                    let mut t = self.continuing_subword_prefix.clone();
                    t.append(piece.as_str());
                    t
                };
                proof {
                    assert(key@ == lookup_key(w, pf, q as int, j as int));
                }
                match self.token_to_id(key.as_str()) {
                    Some(id) => {
                        out.push(Token { id, value: key, offsets: (offs[q], offs[j]) });
                    },
                    None => {
                        proof {
                            assert(false);
                        }
                        return Err(Error::MissingUnkToken);
                    },
                }
                proof {
                    let old_done = done;
                    done = done.push((q as int, j as int, true));
                    assert(full == done + segments_from(v, w, pf, j as int));
                    assert(3 * (j - c0) == eb);
                    assert forall|i: int| 0 <= i < done.len() implies self.token_for(
                        w,
                        #[trigger] done[i],
                        out@[i],
                    ) by {
                        if i < old_done.len() {
                            assert(done[i] == old_done[i]);
                        }
                    }
                    assert forall|i: int| k + 1 <= i < hits@.len() implies {
                        &&& #[trigger] hits@[i].0 as int == leftmost_longest(pats, h, 3 * (j - c0))[i - (k
                            + 1)].0
                        &&& hits@[i].1 as int == leftmost_longest(pats, h, 3 * (j - c0))[i - (k + 1)].1
                    } by {
                        assert(ll.drop_first()[i - (k + 1)] == ll[i - k]);
                    }
                }
                k += 1;
                q = j;
            } else {
                proof {
                    lemma_leftmost_longest_skip(pats, h, b as int);
                    lemma_no_match_inside_char(pats, v, pf, ws, b + 1, h.len() as int);
                    lemma_no_match_inside_char(pats, v, pf, ws, b + 2, h.len() as int);
                    assert(leftmost_longest(pats, h, b + 1) == leftmost_longest(pats, h, b + 2));
                    assert(leftmost_longest(pats, h, b + 2) == leftmost_longest(pats, h, b + 3));
                    assert(b + 3 == 3 * (q + 1 - c0));
                    assert(longest_end(v, w, pf, q as int, n as int) == q);
                    assert(segments_from(v, w, pf, q as int) == seq![(q as int, q + 1, false)] + segments_from(
                        v,
                        w,
                        pf,
                        q + 1,
                    ));
                    assert(full[done.len() as int] == (q as int, q + 1, false));
                }
                match unk_id {
                    None => {
                        return Err(Error::MissingUnkToken);
                    },
                    Some(id) => {
                        out.push(Token { id, value: self.unk_token.clone(), offsets: (offs[q], offs[q + 1]) });
                    },
                }
                proof {
                    let old_done = done;
                    done = done.push((q as int, q + 1, false));
                    assert(full == done + segments_from(v, w, pf, q + 1));
                    assert forall|i: int| 0 <= i < done.len() implies self.token_for(
                        w,
                        #[trigger] done[i],
                        out@[i],
                    ) by {
                        if i < old_done.len() {
                            assert(done[i] == old_done[i]);
                        }
                    }
                }
                q += 1;
            }
        }
        proof {
            assert(full == done);
            if self.needs_unknown(w) {
                let i = choose|i: int| 0 <= i < full.len() && !(#[trigger] full[i]).2;
                assert(self.token_for(w, done[i], out@[i]));
            }
        }
        Ok(out)
    }
}

impl Default for ChineseWordPiece {
    fn default() -> (r: Self)
        ensures
            r.vocab_map() == Map::<Seq<char>, u32>::empty(),
            r.unk() == "[UNK]"@,
            r.prefix() == "##"@,
            r.max_chars() == 100,
    {
        ChineseWordPiece::from_parts(Vec::new(), "[UNK]".to_owned(), "##".to_owned(), 100)
    }
}

/// The bytes of `b` within the spans of `ts`, concatenated in order.
pub open spec fn span_bytes(b: Seq<u8>, ts: Seq<Token>) -> Seq<u8>
    decreases ts.len(),
{
    if ts.len() == 0 {
        Seq::empty()
    } else {
        span_bytes(b, ts.drop_last()) + b.subrange(ts.last().offsets.0 as int, ts.last().offsets.1 as int)
    }
}

/// A word longer than the limit becomes exactly one unknown token that
/// spans the whole word.
pub proof fn lemma_overlong_word_is_unknown(m: &ChineseWordPiece, w: Seq<char>, ts: Seq<Token>)
    requires
        m.tokenization_of(w, ts),
        w.len() > m.max_chars(),
    ensures
        ts.len() == 1,
        ts[0].value@ == m.unk(),
        m.vocab_map().contains_key(m.unk()),
        ts[0].id == m.vocab_map()[m.unk()],
        ts[0].offsets.0 == 0,
        ts[0].offsets.1 == encode_utf8(w).len(),
{
    assert(m.token_for(w, m.planned(w)[0], ts[0]));
    assert(w.subrange(0, 0) =~= Seq::<char>::empty());
    assert(w.subrange(0, w.len() as int) =~= w);
}

/// The token spans partition the word's bytes: each is non-empty, the
/// first starts at 0, each starts where the previous one ends, and the last
/// ends at the word's byte length.
pub proof fn lemma_spans_partition_word(m: &ChineseWordPiece, w: Seq<char>, ts: Seq<Token>)
    requires
        m.tokenization_of(w, ts),
    ensures
        ts.len() == 0 <==> w.len() == 0,
        ts.len() > 0 ==> ts[0].offsets.0 == 0 && ts.last().offsets.1 == encode_utf8(w).len(),
        forall|i: int| 0 <= i < ts.len() ==> (#[trigger] ts[i]).offsets.0 < ts[i].offsets.1,
        forall|i: int| 0 <= i < ts.len() - 1 ==> (#[trigger] ts[i]).offsets.1 == ts[i + 1].offsets.0,
{
    let segs = m.planned(w);
    if w.len() <= m.max_chars() {
        lemma_segments_shape(m.vocab_map(), w, m.prefix(), 0);
    }
    assert(w.subrange(0, 0) =~= Seq::<char>::empty());
    assert(w.subrange(0, w.len() as int) =~= w);
    assert forall|i: int| 0 <= i < ts.len() implies (#[trigger] ts[i]).offsets.0 < ts[i].offsets.1 by {
        assert(m.token_for(w, segs[i], ts[i]));
        lemma_byte_offset_increasing(w, segs[i].0, segs[i].1);
    }
    assert forall|i: int| 0 <= i < ts.len() - 1 implies (#[trigger] ts[i]).offsets.1 == ts[i + 1].offsets.0 by {
        assert(m.token_for(w, segs[i], ts[i]));
        assert(m.token_for(w, segs[i + 1], ts[i + 1]));
    }
    if ts.len() > 0 {
        assert(m.token_for(w, segs[0], ts[0]));
        assert(m.token_for(w, segs[ts.len() - 1], ts[ts.len() - 1]));
    }
}

/// Concatenating the word's bytes within the token spans gives back the
/// word.
pub proof fn lemma_spans_rebuild_word(m: &ChineseWordPiece, w: Seq<char>, ts: Seq<Token>)
    requires
        m.tokenization_of(w, ts),
    ensures
        span_bytes(encode_utf8(w), ts) == encode_utf8(w),
{
    lemma_spans_partition_word(m, w, ts);
    let b = encode_utf8(w);
    lemma_span_bytes_contiguous(b, ts, ts.len() as int);
    if ts.len() == 0 {
        assert(b =~= Seq::<u8>::empty());
    } else {
        assert(ts.subrange(0, ts.len() as int) =~= ts);
        assert(b.subrange(0, b.len() as int) =~= b);
    }
}

proof fn lemma_span_bytes_contiguous(b: Seq<u8>, ts: Seq<Token>, n: int)
    requires
        0 <= n <= ts.len(),
        ts.len() > 0 ==> ts[0].offsets.0 == 0 && ts.last().offsets.1 <= b.len(),
        forall|i: int| 0 <= i < ts.len() ==> (#[trigger] ts[i]).offsets.0 < ts[i].offsets.1,
        forall|i: int| 0 <= i < ts.len() - 1 ==> (#[trigger] ts[i]).offsets.1 == ts[i + 1].offsets.0,
    ensures
        n > 0 ==> span_bytes(b, ts.subrange(0, n)) == b.subrange(0, ts[n - 1].offsets.1 as int),
        n > 0 ==> ts[n - 1].offsets.1 <= ts.last().offsets.1,
    decreases n,
{
    if n > 0 {
        lemma_span_bytes_contiguous(b, ts, n - 1);
        let t = ts.subrange(0, n);
        assert(t.drop_last() =~= ts.subrange(0, n - 1));
        assert(t.last() == ts[n - 1]);
        if n > 1 {
            assert(ts[n - 2].offsets.1 == ts[n - 1].offsets.0);
            lemma_offsets_ordered(ts, n - 1);
            assert(b.subrange(0, ts[n - 2].offsets.1 as int) + b.subrange(
                ts[n - 1].offsets.0 as int,
                ts[n - 1].offsets.1 as int,
            ) =~= b.subrange(0, ts[n - 1].offsets.1 as int));
        } else {
            lemma_offsets_ordered(ts, 0);
            assert(span_bytes(b, t.drop_last()) =~= Seq::<u8>::empty());
            assert(Seq::<u8>::empty() + b.subrange(0, ts[0].offsets.1 as int) =~= b.subrange(
                0,
                ts[0].offsets.1 as int,
            ));
        }
    }
}

proof fn lemma_offsets_ordered(ts: Seq<Token>, i: int)
    requires
        0 <= i < ts.len(),
        forall|k: int| 0 <= k < ts.len() ==> (#[trigger] ts[k]).offsets.0 < ts[k].offsets.1,
        forall|k: int| 0 <= k < ts.len() - 1 ==> (#[trigger] ts[k]).offsets.1 == ts[k + 1].offsets.0,
    ensures
        ts[i].offsets.1 <= ts.last().offsets.1,
    decreases ts.len() - i,
{
    if i < ts.len() - 1 {
        lemma_offsets_ordered(ts, i + 1);
        assert(ts[i].offsets.1 == ts[i + 1].offsets.0);
    }
}

/// Byte offsets grow strictly with the character index.
pub proof fn lemma_byte_offset_increasing(w: Seq<char>, a: int, b: int)
    requires
        0 <= a < b <= w.len(),
    ensures
        byte_offset(w, a) < byte_offset(w, b),
    decreases b - a,
{
    lemma_encode_push(w.subrange(0, b - 1), w[b - 1]);
    assert(w.subrange(0, b - 1).push(w[b - 1]) =~= w.subrange(0, b));
    if a < b - 1 {
        lemma_byte_offset_increasing(w, a, b - 1);
    }
}

/// The segments from `s` cover `w[s..]` left to right without gaps.
pub proof fn lemma_segments_shape(vocab: Map<Seq<char>, u32>, w: Seq<char>, prefix: Seq<char>, s: int)
    requires
        0 <= s <= w.len(),
    ensures
        segments_from(vocab, w, prefix, s).len() == 0 <==> s == w.len(),
        segments_from(vocab, w, prefix, s).len() > 0 ==> segments_from(vocab, w, prefix, s)[0].0 == s
            && segments_from(vocab, w, prefix, s).last().1 == w.len(),
        forall|i: int|
            0 <= i < segments_from(vocab, w, prefix, s).len() ==> s <= (#[trigger] segments_from(
                vocab,
                w,
                prefix,
                s,
            )[i]).0 < segments_from(vocab, w, prefix, s)[i].1 <= w.len(),
        forall|i: int|
            0 <= i < segments_from(vocab, w, prefix, s).len() - 1 ==> (#[trigger] segments_from(
                vocab,
                w,
                prefix,
                s,
            )[i]).1 == segments_from(vocab, w, prefix, s)[i + 1].0,
    decreases w.len() - s,
{
    if s < w.len() {
        let segs = segments_from(vocab, w, prefix, s);
        let e = longest_end(vocab, w, prefix, s, w.len() as int);
        lemma_longest_end_bounds(vocab, w, prefix, s, w.len() as int);
        let next = if s < e <= w.len() {
            e
        } else {
            s + 1
        };
        lemma_segments_shape(vocab, w, prefix, next);
        let rest = segments_from(vocab, w, prefix, next);
        assert(segs == seq![segs[0]] + rest);
        assert forall|i: int| 0 <= i < segs.len() implies s <= (#[trigger] segs[i]).0 < segs[i].1 <= w.len() by {
            if i > 0 {
                assert(segs[i] == rest[i - 1]);
            }
        }
        assert forall|i: int| 0 <= i < segs.len() - 1 implies (#[trigger] segs[i]).1 == segs[i + 1].0 by {
            if i > 0 {
                assert(segs[i] == rest[i - 1]);
            }
            assert(segs[i + 1] == rest[i]);
        }
        if rest.len() > 0 {
            assert(segs.last() == rest.last());
        }
    }
}

impl ChineseWordPiece {
    /// The entries as (token text, id), in their stored order.
    pub open spec fn entry_views(&self) -> Seq<(Seq<char>, u32)> {
        self.entries().map_values(|e: (String, u32)| (e.0@, e.1))
    }
}

impl PartialEq for ChineseWordPiece {
    /// Models are equal when their vocabularies, unknown tokens, prefixes and
    /// word limits are.
    fn eq(&self, other: &ChineseWordPiece) -> (r: bool) {
        if self.vocab.len() != other.vocab.len() || self.max_input_chars_per_word != other.max_input_chars_per_word
            || self.unk_token != other.unk_token || self.continuing_subword_prefix != other.continuing_subword_prefix {
            proof {
                if self.vocab.len() != other.vocab.len() {
                    assert(self.entry_views().len() != other.entry_views().len());
                }
            }
            return false;
        }
        let mut i: usize = 0;
        while i < self.vocab.len()
            invariant
                0 <= i <= self.vocab@.len(),
                self.vocab@.len() == other.vocab@.len(),
                forall|k: int| 0 <= k < i ==> #[trigger] self.entry_views()[k] == other.entry_views()[k],
            decreases self.vocab@.len() - i,
        {
            if self.vocab[i].0 != other.vocab[i].0 || self.vocab[i].1 != other.vocab[i].1 {
                proof {
                    assert(self.entry_views()[i as int] != other.entry_views()[i as int]);
                }
                return false;
            }
            i += 1;
        }
        assert(self.entry_views() =~= other.entry_views());
        true
    }
}

impl vstd::std_specs::cmp::PartialEqSpecImpl for ChineseWordPiece {
    open spec fn obeys_eq_spec() -> bool {
        true
    }

    open spec fn eq_spec(&self, other: &ChineseWordPiece) -> bool {
        &&& self.entry_views() == other.entry_views()
        &&& self.unk() == other.unk()
        &&& self.prefix() == other.prefix()
        &&& self.max_chars() == other.max_chars()
    }
}

} // verus!
