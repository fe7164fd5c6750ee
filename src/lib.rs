//! A Chinese-aware WordPiece subword model.
//!
//! A word is split greedily into the longest vocabulary pieces from the
//! left; runs holding CJK ideographs are looked up as they are, other
//! non-initial pieces behind a continuation prefix, and characters that
//! start no piece become the unknown token. An Aho-Corasick automaton over
//! the continuation pieces finds the matches after the first piece.

pub mod jieba;
pub mod matcher;
pub mod model;
pub mod record;
pub mod segment;
pub mod text;
pub mod trainer;
pub mod vocab;
pub mod vocab_file;
