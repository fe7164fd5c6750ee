//! Training: configuration of the byte-pair-merge trainer that induces the
//! vocabulary, and installation of a trained vocabulary into a model.
use crate::model::ChineseWordPiece;
use crate::vocab::pairs_map;
use std::collections::HashSet;
use vstd::prelude::*;

verus! {

/// Trains a `ChineseWordPiece` model.
pub struct ChineseWordPieceTrainer {
    min_frequency: u32,
    vocab_size: usize,
    show_progress: bool,
    special_tokens: Vec<String>,
    limit_alphabet: Option<usize>,
    initial_alphabet: HashSet<char>,
    continuing_subword_prefix: Option<String>,
    end_of_word_suffix: Option<String>,
}

/// Configures and builds a `ChineseWordPieceTrainer`.
pub struct ChineseWordPieceTrainerBuilder {
    trainer: ChineseWordPieceTrainer,
}

/// Copies a list of strings.
fn copy_strings(v: &Vec<String>) -> (r: Vec<String>)
    ensures
        r@ == v@,
{
    let mut r: Vec<String> = Vec::new();
    let mut i: usize = 0;
    while i < v.len()
        invariant
            0 <= i <= v@.len(),
            r@ == v@.subrange(0, i as int),
        decreases v@.len() - i,
    {
        r.push(v[i].clone());
        assert(r@ =~= v@.subrange(0, i + 1));
        i += 1;
    }
    assert(v@.subrange(0, v@.len() as int) =~= v@);
    r
}

impl Default for ChineseWordPieceTrainer {
    /// The merge trainer's defaults: minimum frequency 0, 30000 tokens,
    /// progress shown, no special tokens, no alphabet limit, an empty initial
    /// alphabet, and neither prefix nor suffix.
    fn default() -> (r: Self)
        ensures
            r.spec_min_frequency() == 0,
            r.spec_vocab_size() == 30000,
            r.spec_show_progress(),
            r.spec_special_tokens().len() == 0,
            r.spec_limit_alphabet() is None,
            r.spec_initial_alphabet()@ == Set::<char>::empty(),
            r.spec_prefix() is None,
            r.spec_suffix() is None,
    {
        ChineseWordPieceTrainer {
            min_frequency: 0,
            vocab_size: 30000,
            show_progress: true,
            special_tokens: Vec::new(),
            limit_alphabet: None,
            initial_alphabet: HashSet::new(),
            continuing_subword_prefix: None,
            end_of_word_suffix: None,
        }
    }
}

impl ChineseWordPieceTrainer {
    pub closed spec fn spec_min_frequency(&self) -> u32 {
        self.min_frequency
    }

    pub closed spec fn spec_vocab_size(&self) -> usize {
        self.vocab_size
    }

    pub closed spec fn spec_show_progress(&self) -> bool {
        self.show_progress
    }

    pub closed spec fn spec_special_tokens(&self) -> Seq<String> {
        self.special_tokens@
    }

    pub closed spec fn spec_limit_alphabet(&self) -> Option<usize> {
        self.limit_alphabet
    }

    pub closed spec fn spec_initial_alphabet(&self) -> HashSet<char> {
        self.initial_alphabet
    }

    pub closed spec fn spec_prefix(&self) -> Option<String> {
        self.continuing_subword_prefix
    }

    pub closed spec fn spec_suffix(&self) -> Option<String> {
        self.end_of_word_suffix
    }

    /// The minimum frequency a pair needs to be merged.
    pub fn min_frequency(&self) -> (r: u32)
        ensures
            r == self.spec_min_frequency(),
    {
        self.min_frequency
    }

    /// Sets the minimum frequency a pair needs to be merged.
    pub fn set_min_frequency(&mut self, freq: u32)
        ensures
            final(self).spec_min_frequency() == freq,
            final(self).spec_vocab_size() == old(self).spec_vocab_size(),
            final(self).spec_show_progress() == old(self).spec_show_progress(),
            final(self).spec_special_tokens() == old(self).spec_special_tokens(),
            final(self).spec_limit_alphabet() == old(self).spec_limit_alphabet(),
            final(self).spec_initial_alphabet() == old(self).spec_initial_alphabet(),
            final(self).spec_prefix() == old(self).spec_prefix(),
            final(self).spec_suffix() == old(self).spec_suffix(),
    {
        self.min_frequency = freq;
    }

    /// The target vocabulary size.
    pub fn vocab_size(&self) -> (r: usize)
        ensures
            r == self.spec_vocab_size(),
    {
        self.vocab_size
    }

    /// Sets the target vocabulary size.
    pub fn set_vocab_size(&mut self, size: usize)
        ensures
            final(self).spec_vocab_size() == size,
            final(self).spec_min_frequency() == old(self).spec_min_frequency(),
            final(self).spec_show_progress() == old(self).spec_show_progress(),
            final(self).spec_special_tokens() == old(self).spec_special_tokens(),
            final(self).spec_limit_alphabet() == old(self).spec_limit_alphabet(),
            final(self).spec_initial_alphabet() == old(self).spec_initial_alphabet(),
            final(self).spec_prefix() == old(self).spec_prefix(),
            final(self).spec_suffix() == old(self).spec_suffix(),
    {
        self.vocab_size = size;
    }

    /// Whether training reports progress.
    pub fn show_progress(&self) -> (r: bool)
        ensures
            r == self.spec_show_progress(),
    {
        self.show_progress
    }

    /// Sets whether training reports progress.
    pub fn set_show_progress(&mut self, show_progress: bool)
        ensures
            final(self).spec_show_progress() == show_progress,
            final(self).spec_min_frequency() == old(self).spec_min_frequency(),
            final(self).spec_vocab_size() == old(self).spec_vocab_size(),
            final(self).spec_special_tokens() == old(self).spec_special_tokens(),
            final(self).spec_limit_alphabet() == old(self).spec_limit_alphabet(),
            final(self).spec_initial_alphabet() == old(self).spec_initial_alphabet(),
            final(self).spec_prefix() == old(self).spec_prefix(),
            final(self).spec_suffix() == old(self).spec_suffix(),
    {
        self.show_progress = show_progress;
    }

    /// The special tokens.
    pub fn special_tokens(&self) -> (r: &[String])
        ensures
            r@ == self.spec_special_tokens(),
    {
        self.special_tokens.as_slice()
    }

    /// Sets the special tokens.
    pub fn set_special_tokens(&mut self, special_tokens: Vec<String>)
        ensures
            final(self).spec_special_tokens() == special_tokens@,
            final(self).spec_min_frequency() == old(self).spec_min_frequency(),
            final(self).spec_vocab_size() == old(self).spec_vocab_size(),
            final(self).spec_show_progress() == old(self).spec_show_progress(),
            final(self).spec_limit_alphabet() == old(self).spec_limit_alphabet(),
            final(self).spec_initial_alphabet() == old(self).spec_initial_alphabet(),
            final(self).spec_prefix() == old(self).spec_prefix(),
            final(self).spec_suffix() == old(self).spec_suffix(),
    {
        self.special_tokens = special_tokens;
    }

    /// The largest alphabet to keep.
    pub fn limit_alphabet(&self) -> (r: Option<usize>)
        ensures
            r == self.spec_limit_alphabet(),
    {
        self.limit_alphabet
    }

    /// Sets the largest alphabet to keep.
    pub fn set_limit_alphabet(&mut self, limit: Option<usize>)
        ensures
            final(self).spec_limit_alphabet() == limit,
            final(self).spec_min_frequency() == old(self).spec_min_frequency(),
            final(self).spec_vocab_size() == old(self).spec_vocab_size(),
            final(self).spec_show_progress() == old(self).spec_show_progress(),
            final(self).spec_special_tokens() == old(self).spec_special_tokens(),
            final(self).spec_initial_alphabet() == old(self).spec_initial_alphabet(),
            final(self).spec_prefix() == old(self).spec_prefix(),
            final(self).spec_suffix() == old(self).spec_suffix(),
    {
        self.limit_alphabet = limit;
    }

    /// The characters the alphabet starts with.
    pub fn initial_alphabet(&self) -> (r: &HashSet<char>)
        ensures
            *r == self.spec_initial_alphabet(),
    {
        &self.initial_alphabet
    }

    /// Sets the characters the alphabet starts with.
    pub fn set_initial_alphabet(&mut self, alphabet: HashSet<char>)
        ensures
            final(self).spec_initial_alphabet() == alphabet,
            final(self).spec_min_frequency() == old(self).spec_min_frequency(),
            final(self).spec_vocab_size() == old(self).spec_vocab_size(),
            final(self).spec_show_progress() == old(self).spec_show_progress(),
            final(self).spec_special_tokens() == old(self).spec_special_tokens(),
            final(self).spec_limit_alphabet() == old(self).spec_limit_alphabet(),
            final(self).spec_prefix() == old(self).spec_prefix(),
            final(self).spec_suffix() == old(self).spec_suffix(),
    {
        self.initial_alphabet = alphabet;
    }

    /// The prefix of continuing subwords.
    pub fn continuing_subword_prefix(&self) -> (r: &Option<String>)
        ensures
            *r == self.spec_prefix(),
    {
        &self.continuing_subword_prefix
    }

    /// Sets the prefix of continuing subwords.
    pub fn set_continuing_subword_prefix(&mut self, prefix: Option<String>)
        ensures
            final(self).spec_prefix() == prefix,
            final(self).spec_min_frequency() == old(self).spec_min_frequency(),
            final(self).spec_vocab_size() == old(self).spec_vocab_size(),
            final(self).spec_show_progress() == old(self).spec_show_progress(),
            final(self).spec_special_tokens() == old(self).spec_special_tokens(),
            final(self).spec_limit_alphabet() == old(self).spec_limit_alphabet(),
            final(self).spec_initial_alphabet() == old(self).spec_initial_alphabet(),
            final(self).spec_suffix() == old(self).spec_suffix(),
    {
        self.continuing_subword_prefix = prefix;
    }

    /// The suffix of word ends.
    pub fn end_of_word_suffix(&self) -> (r: &Option<String>)
        ensures
            *r == self.spec_suffix(),
    {
        &self.end_of_word_suffix
    }

    /// Sets the suffix of word ends.
    pub fn set_end_of_word_suffix(&mut self, suffix: Option<String>)
        ensures
            final(self).spec_suffix() == suffix,
            final(self).spec_min_frequency() == old(self).spec_min_frequency(),
            final(self).spec_vocab_size() == old(self).spec_vocab_size(),
            final(self).spec_show_progress() == old(self).spec_show_progress(),
            final(self).spec_special_tokens() == old(self).spec_special_tokens(),
            final(self).spec_limit_alphabet() == old(self).spec_limit_alphabet(),
            final(self).spec_initial_alphabet() == old(self).spec_initial_alphabet(),
            final(self).spec_prefix() == old(self).spec_prefix(),
    {
        self.end_of_word_suffix = suffix;
    }

    /// A builder with the defaults, continuation prefix `##`.
    pub fn builder() -> (r: ChineseWordPieceTrainerBuilder)
        ensures
            r.config().spec_min_frequency() == 0,
            r.config().spec_vocab_size() == 30000,
            r.config().spec_show_progress(),
            r.config().spec_special_tokens().len() == 0,
            r.config().spec_limit_alphabet() is None,
            r.config().spec_initial_alphabet()@ == Set::<char>::empty(),
            r.config().spec_prefix() matches Some(p) && p@ == "##"@,
            r.config().spec_suffix() is None,
    {
        ChineseWordPieceTrainerBuilder::default()
    }

    /// Installs a vocabulary trained with this configuration into `model`:
    /// the vocabulary and the continuation prefix (this trainer's, or `##`)
    /// are replaced, the unknown token and the word limit are kept. Returns
    /// the special tokens.
    pub fn train(&self, model: &mut ChineseWordPiece, trained: Vec<(String, u32)>) -> (r: Vec<String>)
        ensures
            r@ == self.spec_special_tokens(),
            final(model).vocab_map() == pairs_map(trained@),
            final(model).prefix() == (match self.spec_prefix() {
                Some(p) => p@,
                None => "##"@,
            }),
            final(model).unk() == old(model).unk(),
            final(model).max_chars() == old(model).max_chars(),
    {
        let prefix = match &self.continuing_subword_prefix {
            Some(p) => p.clone(),
            None => "##".to_owned(),
        };
        let unk = model.unk_token().clone();
        let max = model.max_input_chars_per_word();
        *model = ChineseWordPiece::from_parts(trained, unk, prefix, max);
        copy_strings(&self.special_tokens)
    }
}

impl Default for ChineseWordPieceTrainerBuilder {
    fn default() -> (r: Self)
        ensures
            r.config().spec_min_frequency() == 0,
            r.config().spec_vocab_size() == 30000,
            r.config().spec_show_progress(),
            r.config().spec_special_tokens().len() == 0,
            r.config().spec_limit_alphabet() is None,
            r.config().spec_initial_alphabet()@ == Set::<char>::empty(),
            r.config().spec_prefix() matches Some(p) && p@ == "##"@,
            r.config().spec_suffix() is None,
    {
        let mut trainer = ChineseWordPieceTrainer::default();
        trainer.set_continuing_subword_prefix(Some("##".to_owned()));
        ChineseWordPieceTrainerBuilder { trainer }
    }
}

impl ChineseWordPieceTrainerBuilder {
    /// The configuration of the trainer being built.
    pub closed spec fn config(&self) -> ChineseWordPieceTrainer {
        self.trainer
    }

    /// A builder with the defaults, continuation prefix `##`.
    pub fn new() -> (r: Self)
        ensures
            r.config().spec_min_frequency() == 0,
            r.config().spec_vocab_size() == 30000,
            r.config().spec_show_progress(),
            r.config().spec_special_tokens().len() == 0,
            r.config().spec_limit_alphabet() is None,
            r.config().spec_initial_alphabet()@ == Set::<char>::empty(),
            r.config().spec_prefix() matches Some(p) && p@ == "##"@,
            r.config().spec_suffix() is None,
    {
        Self::default()
    }

    /// Sets the minimum frequency a pair needs to be merged.
    pub fn min_frequency(self, frequency: u32) -> (r: Self)
        ensures
            r.config().spec_min_frequency() == frequency,
            r.config().spec_vocab_size() == self.config().spec_vocab_size(),
            r.config().spec_show_progress() == self.config().spec_show_progress(),
            r.config().spec_special_tokens() == self.config().spec_special_tokens(),
            r.config().spec_limit_alphabet() == self.config().spec_limit_alphabet(),
            r.config().spec_initial_alphabet() == self.config().spec_initial_alphabet(),
            r.config().spec_prefix() == self.config().spec_prefix(),
            r.config().spec_suffix() == self.config().spec_suffix(),
    {
        let mut trainer = self.trainer;
        trainer.set_min_frequency(frequency);
        ChineseWordPieceTrainerBuilder { trainer }
    }

    /// Sets the target vocabulary size.
    pub fn vocab_size(self, size: usize) -> (r: Self)
        ensures
            r.config().spec_vocab_size() == size,
            r.config().spec_min_frequency() == self.config().spec_min_frequency(),
            r.config().spec_show_progress() == self.config().spec_show_progress(),
            r.config().spec_special_tokens() == self.config().spec_special_tokens(),
            r.config().spec_limit_alphabet() == self.config().spec_limit_alphabet(),
            r.config().spec_initial_alphabet() == self.config().spec_initial_alphabet(),
            r.config().spec_prefix() == self.config().spec_prefix(),
            r.config().spec_suffix() == self.config().spec_suffix(),
    {
        let mut trainer = self.trainer;
        trainer.set_vocab_size(size);
        ChineseWordPieceTrainerBuilder { trainer }
    }

    /// Sets whether training reports progress.
    pub fn show_progress(self, show: bool) -> (r: Self)
        ensures
            r.config().spec_show_progress() == show,
            r.config().spec_min_frequency() == self.config().spec_min_frequency(),
            r.config().spec_vocab_size() == self.config().spec_vocab_size(),
            r.config().spec_special_tokens() == self.config().spec_special_tokens(),
            r.config().spec_limit_alphabet() == self.config().spec_limit_alphabet(),
            r.config().spec_initial_alphabet() == self.config().spec_initial_alphabet(),
            r.config().spec_prefix() == self.config().spec_prefix(),
            r.config().spec_suffix() == self.config().spec_suffix(),
    {
        let mut trainer = self.trainer;
        trainer.set_show_progress(show);
        ChineseWordPieceTrainerBuilder { trainer }
    }

    /// Sets the special tokens.
    pub fn special_tokens(self, tokens: Vec<String>) -> (r: Self)
        ensures
            r.config().spec_special_tokens() == tokens@,
            r.config().spec_min_frequency() == self.config().spec_min_frequency(),
            r.config().spec_vocab_size() == self.config().spec_vocab_size(),
            r.config().spec_show_progress() == self.config().spec_show_progress(),
            r.config().spec_limit_alphabet() == self.config().spec_limit_alphabet(),
            r.config().spec_initial_alphabet() == self.config().spec_initial_alphabet(),
            r.config().spec_prefix() == self.config().spec_prefix(),
            r.config().spec_suffix() == self.config().spec_suffix(),
    {
        let mut trainer = self.trainer;
        trainer.set_special_tokens(tokens);
        ChineseWordPieceTrainerBuilder { trainer }
    }

    /// Sets the largest alphabet to keep.
    pub fn limit_alphabet(self, limit: usize) -> (r: Self)
        ensures
            r.config().spec_limit_alphabet() == Some(limit),
            r.config().spec_min_frequency() == self.config().spec_min_frequency(),
            r.config().spec_vocab_size() == self.config().spec_vocab_size(),
            r.config().spec_show_progress() == self.config().spec_show_progress(),
            r.config().spec_special_tokens() == self.config().spec_special_tokens(),
            r.config().spec_initial_alphabet() == self.config().spec_initial_alphabet(),
            r.config().spec_prefix() == self.config().spec_prefix(),
            r.config().spec_suffix() == self.config().spec_suffix(),
    {
        let mut trainer = self.trainer;
        trainer.set_limit_alphabet(Some(limit));
        ChineseWordPieceTrainerBuilder { trainer }
    }

    /// Sets the characters the alphabet starts with.
    pub fn initial_alphabet(self, alphabet: HashSet<char>) -> (r: Self)
        ensures
            r.config().spec_initial_alphabet() == alphabet,
            r.config().spec_min_frequency() == self.config().spec_min_frequency(),
            r.config().spec_vocab_size() == self.config().spec_vocab_size(),
            r.config().spec_show_progress() == self.config().spec_show_progress(),
            r.config().spec_special_tokens() == self.config().spec_special_tokens(),
            r.config().spec_limit_alphabet() == self.config().spec_limit_alphabet(),
            r.config().spec_prefix() == self.config().spec_prefix(),
            r.config().spec_suffix() == self.config().spec_suffix(),
    {
        let mut trainer = self.trainer;
        trainer.set_initial_alphabet(alphabet);
        ChineseWordPieceTrainerBuilder { trainer }
    }

    /// Sets the prefix of continuing subwords.
    pub fn continuing_subword_prefix(self, prefix: String) -> (r: Self)
        ensures
            r.config().spec_prefix() == Some(prefix),
            r.config().spec_min_frequency() == self.config().spec_min_frequency(),
            r.config().spec_vocab_size() == self.config().spec_vocab_size(),
            r.config().spec_show_progress() == self.config().spec_show_progress(),
            r.config().spec_special_tokens() == self.config().spec_special_tokens(),
            r.config().spec_limit_alphabet() == self.config().spec_limit_alphabet(),
            r.config().spec_initial_alphabet() == self.config().spec_initial_alphabet(),
            r.config().spec_suffix() == self.config().spec_suffix(),
    {
        let mut trainer = self.trainer;
        trainer.set_continuing_subword_prefix(Some(prefix));
        ChineseWordPieceTrainerBuilder { trainer }
    }

    /// Sets the suffix of word ends.
    pub fn end_of_word_suffix(self, suffix: String) -> (r: Self)
        ensures
            r.config().spec_suffix() == Some(suffix),
            r.config().spec_min_frequency() == self.config().spec_min_frequency(),
            r.config().spec_vocab_size() == self.config().spec_vocab_size(),
            r.config().spec_show_progress() == self.config().spec_show_progress(),
            r.config().spec_special_tokens() == self.config().spec_special_tokens(),
            r.config().spec_limit_alphabet() == self.config().spec_limit_alphabet(),
            r.config().spec_initial_alphabet() == self.config().spec_initial_alphabet(),
            r.config().spec_prefix() == self.config().spec_prefix(),
    {
        let mut trainer = self.trainer;
        trainer.set_end_of_word_suffix(Some(suffix));
        ChineseWordPieceTrainerBuilder { trainer }
    }

    /// The configured trainer.
    pub fn build(self) -> (r: ChineseWordPieceTrainer)
        ensures
            r == self.config(),
    {
        self.trainer
    }
}

impl ChineseWordPiece {
    /// A trainer with the default configuration.
    pub fn get_trainer(&self) -> (r: ChineseWordPieceTrainer)
        ensures
            r.spec_min_frequency() == 0,
            r.spec_vocab_size() == 30000,
            r.spec_show_progress(),
            r.spec_special_tokens().len() == 0,
            r.spec_limit_alphabet() is None,
            r.spec_initial_alphabet()@ == Set::<char>::empty(),
            r.spec_prefix() matches Some(p) && p@ == "##"@,
            r.spec_suffix() is None,
    {
        ChineseWordPieceTrainer::builder().build()
    }
}

} // verus!
