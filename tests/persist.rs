use chinese_wordpiece::model::ChineseWordPiece;
use chinese_wordpiece::record::{ModelRecord, RecordError};
use chinese_wordpiece::vocab_file::{parse_vocab, vocab_file_name, vocab_file_text};

fn pairs(entries: &[(&str, u32)]) -> Vec<(String, u32)> {
    entries.iter().map(|(t, i)| (t.to_string(), *i)).collect()
}

fn full_record() -> ModelRecord {
    ModelRecord {
        model_type: Some("ChineseWordPiece".to_string()),
        unk_token: Some("[UNK]".to_string()),
        continuing_subword_prefix: Some("##".to_string()),
        max_input_chars_per_word: Some(100),
        vocab: Some(vec![]),
    }
}

#[test]
fn default_model_record() {
    let rec = ChineseWordPiece::default().to_record();
    assert_eq!(rec.model_type, Some("ChineseWordPiece".to_string()));
    assert_eq!(rec.unk_token, Some("[UNK]".to_string()));
    assert_eq!(rec.continuing_subword_prefix, Some("##".to_string()));
    assert_eq!(rec.max_input_chars_per_word, Some(100));
    assert_eq!(rec.vocab, Some(vec![]));
    let back = ChineseWordPiece::from_record(full_record()).unwrap();
    assert_eq!(back.unk_token(), "[UNK]");
    assert_eq!(back.get_vocab_size(), 0);
}

#[test]
fn record_missing_unk_token() {
    let rec = ModelRecord { unk_token: None, ..full_record() };
    assert_eq!(
        ChineseWordPiece::from_record(rec).err(),
        Some(RecordError::MissingField("unk_token".to_string()))
    );
}

#[test]
fn record_missing_vocab() {
    let rec = ModelRecord { vocab: None, ..full_record() };
    assert_eq!(
        ChineseWordPiece::from_record(rec).err(),
        Some(RecordError::MissingField("vocab".to_string()))
    );
}

#[test]
fn record_names_first_missing_field() {
    let rec = ModelRecord {
        continuing_subword_prefix: None,
        max_input_chars_per_word: None,
        vocab: None,
        ..full_record()
    };
    assert_eq!(
        ChineseWordPiece::from_record(rec).err(),
        Some(RecordError::MissingField("continuing_subword_prefix".to_string()))
    );
    let rec = ModelRecord { max_input_chars_per_word: None, ..full_record() };
    assert_eq!(
        ChineseWordPiece::from_record(rec).err(),
        Some(RecordError::MissingField("max_input_chars_per_word".to_string()))
    );
}

#[test]
fn record_with_wrong_type() {
    let rec = ModelRecord {
        model_type: Some("WordLevel".to_string()),
        continuing_subword_prefix: None,
        max_input_chars_per_word: None,
        ..full_record()
    };
    assert_eq!(
        ChineseWordPiece::from_record(rec).err(),
        Some(RecordError::InvalidType("WordLevel".to_string()))
    );
}

#[test]
fn record_without_type_is_accepted() {
    let rec = ModelRecord { model_type: None, ..full_record() };
    assert!(ChineseWordPiece::from_record(rec).is_ok());
}

#[test]
fn record_round_trip() {
    let m = ChineseWordPiece::builder()
        .vocab(pairs(&[("b", 2), ("<unk>", 0), ("##a", 1)]))
        .unk_token("<unk>".to_string())
        .continuing_subword_prefix("##".to_string())
        .max_input_chars_per_word(12)
        .build();
    let rec = m.to_record();
    assert_eq!(rec.vocab, Some(pairs(&[("<unk>", 0), ("##a", 1), ("b", 2)])));
    let back = ChineseWordPiece::from_record(rec).unwrap();
    assert_eq!(back.unk_token(), "<unk>");
    assert_eq!(back.continuing_subword_prefix(), "##");
    assert_eq!(back.max_input_chars_per_word(), 12);
    assert_eq!(back.get_vocab_size(), 3);
    assert_eq!(back.token_to_id("##a"), Some(1));
    assert_eq!(back.token_to_id("b"), Some(2));
    assert_eq!(back.token_to_id("<unk>"), Some(0));
}

#[test]
fn parse_assigns_line_numbers() {
    assert_eq!(parse_vocab("a\nb  \r\nc"), pairs(&[("a", 0), ("b", 1), ("c", 2)]));
    assert_eq!(parse_vocab("a\n"), pairs(&[("a", 0)]));
    assert_eq!(parse_vocab(""), pairs(&[]));
    assert_eq!(parse_vocab("\n你好\n"), pairs(&[("", 0), ("你好", 1)]));
}

#[test]
fn repeated_line_keeps_last_id() {
    let m = ChineseWordPiece::builder().vocab(parse_vocab("a\nb\na\n")).build();
    assert_eq!(m.token_to_id("a"), Some(2));
    assert_eq!(m.get_vocab_size(), 2);
}

#[test]
fn vocab_file_lists_tokens_by_id() {
    let m = ChineseWordPiece::builder().vocab(pairs(&[("b", 1), ("a", 0), ("中", 2)])).build();
    assert_eq!(m.vocab_file_contents(), "a\nb\n中\n");
    assert_eq!(vocab_file_text(&pairs(&[("x", 5), ("y", 3)])), "x\ny\n");
}

#[test]
fn vocab_file_round_trip() {
    let m = ChineseWordPiece::builder()
        .vocab(pairs(&[("[UNK]", 0), ("你", 3), ("##ab", 1), ("ab", 2)]))
        .build();
    let back = ChineseWordPiece::builder().vocab(parse_vocab(&m.vocab_file_contents())).build();
    assert_eq!(back.get_vocab_size(), 4);
    for (t, id) in m.get_vocab() {
        assert_eq!(back.token_to_id(&t), Some(id));
    }
}

#[test]
fn vocab_file_names() {
    assert_eq!(vocab_file_name(None), "vocab.txt");
    assert_eq!(vocab_file_name(Some("bert")), "bert-vocab.txt");
}
