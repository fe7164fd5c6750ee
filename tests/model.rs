use chinese_wordpiece::model::{ChineseWordPiece, Error, Token};
use chinese_wordpiece::text::contain_chinese;

fn pairs(entries: &[(&str, u32)]) -> Vec<(String, u32)> {
    entries.iter().map(|(t, i)| (t.to_string(), *i)).collect()
}

fn model(entries: &[(&str, u32)]) -> ChineseWordPiece {
    ChineseWordPiece::builder().vocab(pairs(entries)).build()
}

fn tok(value: &str, id: u32, offsets: (usize, usize)) -> Token {
    Token { id, value: value.to_string(), offsets }
}

#[test]
fn test_error_display() {
    assert!(Error::MissingUnkToken.to_string().contains("Missing [UNK] token"));
}

#[test]
fn whole_word_match_is_preferred() {
    let m = model(&[("[UNK]", 0), ("un", 1), ("##able", 2), ("unable", 3)]);
    assert_eq!(m.tokenize("unable").unwrap(), vec![tok("unable", 3, (0, 6))]);
}

#[test]
fn ideographs_split_without_prefix() {
    let m = model(&[("[UNK]", 0), ("你", 1), ("好", 2)]);
    assert_eq!(
        m.tokenize("你好").unwrap(),
        vec![tok("你", 1, (0, 3)), tok("好", 2, (3, 6))]
    );
}

#[test]
fn missing_unknown_token_fails() {
    let m = model(&[("a", 0)]);
    assert_eq!(m.tokenize("xyz"), Err(Error::MissingUnkToken));
}

#[test]
fn missing_unknown_token_is_fine_when_all_matches() {
    let m = model(&[("a", 0), ("##b", 1)]);
    assert_eq!(m.tokenize("ab").unwrap(), vec![tok("a", 0, (0, 1)), tok("##b", 1, (1, 2))]);
}

#[test]
fn continuation_pieces_carry_the_prefix() {
    let m = model(&[("[UNK]", 0), ("un", 1), ("##able", 2)]);
    assert_eq!(
        m.tokenize("unable").unwrap(),
        vec![tok("un", 1, (0, 2)), tok("##able", 2, (2, 6))]
    );
}

#[test]
fn unknown_fills_single_characters() {
    let m = model(&[("[UNK]", 0), ("a", 1), ("##c", 2)]);
    assert_eq!(
        m.tokenize("abc").unwrap(),
        vec![tok("a", 1, (0, 1)), tok("[UNK]", 0, (1, 2)), tok("##c", 2, (2, 3))]
    );
}

#[test]
fn unknown_first_character() {
    let m = model(&[("[UNK]", 0), ("##b", 1)]);
    assert_eq!(
        m.tokenize("xb").unwrap(),
        vec![tok("[UNK]", 0, (0, 1)), tok("##b", 1, (1, 2))]
    );
}

#[test]
fn mixed_ideographs_and_latin() {
    let m = model(&[("[UNK]", 0), ("你好", 1), ("a", 2), ("##b", 3), ("世", 4)]);
    assert_eq!(
        m.tokenize("a你好b").unwrap(),
        vec![tok("a", 2, (0, 1)), tok("你好", 1, (1, 7)), tok("##b", 3, (7, 8))]
    );
}

#[test]
fn unknown_ideograph_spans_its_bytes() {
    let m = model(&[("[UNK]", 0), ("你", 1)]);
    assert_eq!(
        m.tokenize("你界").unwrap(),
        vec![tok("你", 1, (0, 3)), tok("[UNK]", 0, (3, 6))]
    );
}

#[test]
fn overlong_word_is_one_unknown() {
    let m = ChineseWordPiece::builder()
        .vocab(pairs(&[("[UNK]", 7), ("a", 1)]))
        .max_input_chars_per_word(3)
        .build();
    assert_eq!(m.tokenize("aaaa").unwrap(), vec![tok("[UNK]", 7, (0, 4))]);
    assert_eq!(m.tokenize("aaa").unwrap().len(), 3);
}

#[test]
fn overlong_word_without_unknown_fails() {
    let m = ChineseWordPiece::builder()
        .vocab(pairs(&[("a", 1)]))
        .max_input_chars_per_word(2)
        .build();
    assert_eq!(m.tokenize("aaa"), Err(Error::MissingUnkToken));
}

#[test]
fn empty_word_has_no_tokens() {
    let m = model(&[("[UNK]", 0)]);
    assert_eq!(m.tokenize("").unwrap(), vec![]);
}

#[test]
fn spans_partition_the_word() {
    let m = model(&[("[UNK]", 0), ("中", 1), ("##x", 2), ("x", 3), ("国人", 4)]);
    let word = "x中国人x!";
    let ts = m.tokenize(word).unwrap();
    assert_eq!(ts[0].offsets.0, 0);
    assert_eq!(ts.last().unwrap().offsets.1, word.len());
    for pair in ts.windows(2) {
        assert_eq!(pair[0].offsets.1, pair[1].offsets.0);
    }
    let rebuilt: String = ts.iter().map(|t| &word[t.offsets.0..t.offsets.1]).collect();
    assert_eq!(rebuilt, word);
    let values: Vec<&str> = ts.iter().map(|t| t.value.as_str()).collect();
    assert_eq!(values, vec!["x", "中", "国人", "##x", "[UNK]"]);
}

#[test]
fn custom_prefix_and_unknown() {
    let m = ChineseWordPiece::builder()
        .vocab(pairs(&[("<unk>", 5), ("ab", 1), ("@@cd", 2)]))
        .unk_token("<unk>".to_string())
        .continuing_subword_prefix("@@".to_string())
        .build();
    assert_eq!(
        m.tokenize("abcde").unwrap(),
        vec![tok("ab", 1, (0, 2)), tok("@@cd", 2, (2, 4)), tok("<unk>", 5, (4, 5))]
    );
}

#[test]
fn later_pair_wins() {
    let m = model(&[("a", 1), ("b", 2), ("a", 3)]);
    assert_eq!(m.token_to_id("a"), Some(3));
    assert_eq!(m.get_vocab_size(), 2);
}

#[test]
fn lookups_both_ways() {
    let m = model(&[("[UNK]", 0), ("un", 1), ("##able", 2)]);
    assert_eq!(m.token_to_id("##able"), Some(2));
    assert_eq!(m.token_to_id("able"), None);
    assert_eq!(m.id_to_token(1), Some("un".to_string()));
    assert_eq!(m.id_to_token(9), None);
    assert_eq!(m.get_vocab_size(), 3);
}

#[test]
fn defaults() {
    let m = ChineseWordPiece::default();
    assert_eq!(m.unk_token(), "[UNK]");
    assert_eq!(m.continuing_subword_prefix(), "##");
    assert_eq!(m.max_input_chars_per_word(), 100);
    assert_eq!(m.get_vocab_size(), 0);
}

#[test]
fn from_bpe_takes_its_settings() {
    let m = ChineseWordPiece::from_bpe(pairs(&[("<u>", 0), ("a", 1), ("%%b", 2)]), Some("<u>".to_string()), Some("%%".to_string()));
    assert_eq!(m.unk_token(), "<u>");
    assert_eq!(m.continuing_subword_prefix(), "%%");
    assert_eq!(m.tokenize("abc").unwrap(), vec![tok("a", 1, (0, 1)), tok("%%b", 2, (1, 2)), tok("<u>", 0, (2, 3))]);
    let d = ChineseWordPiece::from_bpe(pairs(&[("a", 1)]), None, None);
    assert_eq!(d.unk_token(), "[UNK]");
    assert_eq!(d.continuing_subword_prefix(), "##");
}

#[test]
fn from_file_sets_the_file() {
    let b = ChineseWordPiece::from_file("vocab.txt");
    assert_eq!(b.vocab_file(), Some("vocab.txt".to_string()));
}

#[test]
fn models_compare_by_settings_and_vocabulary() {
    let a = model(&[("[UNK]", 0), ("x", 1)]);
    let b = model(&[("x", 1), ("[UNK]", 0)]);
    let c = model(&[("[UNK]", 0), ("x", 2)]);
    assert!(a == b);
    assert!(a != c);
    let d = ChineseWordPiece::builder().vocab(pairs(&[("[UNK]", 0), ("x", 1)])).max_input_chars_per_word(5).build();
    assert!(a != d);
}

#[test]
fn ideograph_prefix_follows_the_scan() {
    let m = ChineseWordPiece::builder()
        .vocab(pairs(&[("[UNK]", 0), ("a", 1), ("中b", 2)]))
        .continuing_subword_prefix("中".to_string())
        .build();
    assert_eq!(m.tokenize("ab").unwrap(), vec![tok("a", 1, (0, 1)), tok("中b", 2, (1, 2))]);
}

#[test]
fn contain_chinese_detects_ideographs() {
    assert!(contain_chinese("ab中"));
    assert!(!contain_chinese("abc"));
    assert!(!contain_chinese(""));
    assert!(contain_chinese("\u{9fff}"));
    assert!(!contain_chinese("\u{4dff}"));
}
