use chinese_wordpiece::model::ChineseWordPiece;
use chinese_wordpiece::trainer::{ChineseWordPieceTrainer, ChineseWordPieceTrainerBuilder};
use std::collections::HashSet;

#[test]
fn builder_sets_every_option() {
    let alphabet: HashSet<char> = ['a', 'b'].into_iter().collect();
    let t = ChineseWordPieceTrainerBuilder::new()
        .min_frequency(2)
        .vocab_size(500)
        .show_progress(false)
        .special_tokens(vec!["[UNK]".to_string()])
        .limit_alphabet(40)
        .initial_alphabet(alphabet.clone())
        .continuing_subword_prefix("@@".to_string())
        .end_of_word_suffix("</w>".to_string())
        .build();
    assert_eq!(t.min_frequency(), 2);
    assert_eq!(t.vocab_size(), 500);
    assert!(!t.show_progress());
    assert_eq!(t.special_tokens(), &["[UNK]".to_string()]);
    assert_eq!(t.limit_alphabet(), Some(40));
    assert_eq!(t.initial_alphabet(), &alphabet);
    assert_eq!(t.continuing_subword_prefix(), &Some("@@".to_string()));
    assert_eq!(t.end_of_word_suffix(), &Some("</w>".to_string()));
}

#[test]
fn builder_defaults_use_hash_prefix() {
    let t = ChineseWordPieceTrainer::builder().build();
    assert_eq!(t.continuing_subword_prefix(), &Some("##".to_string()));
    assert_eq!(t.vocab_size(), 30000);
    assert_eq!(t.min_frequency(), 0);
    assert!(t.show_progress());
    let d = ChineseWordPieceTrainer::default();
    assert_eq!(d.continuing_subword_prefix(), &None);
}

#[test]
fn setters_change_one_option() {
    let mut t = ChineseWordPieceTrainer::default();
    t.set_min_frequency(3);
    t.set_vocab_size(10);
    t.set_show_progress(false);
    t.set_special_tokens(vec!["<s>".to_string()]);
    t.set_limit_alphabet(Some(5));
    t.set_initial_alphabet(['x'].into_iter().collect());
    t.set_continuing_subword_prefix(Some("++".to_string()));
    t.set_end_of_word_suffix(None);
    assert_eq!(t.min_frequency(), 3);
    assert_eq!(t.vocab_size(), 10);
    assert!(!t.show_progress());
    assert_eq!(t.special_tokens(), &["<s>".to_string()]);
    assert_eq!(t.limit_alphabet(), Some(5));
    assert!(t.initial_alphabet().contains(&'x'));
    assert_eq!(t.continuing_subword_prefix(), &Some("++".to_string()));
    assert_eq!(t.end_of_word_suffix(), &None);
}

#[test]
fn train_installs_vocabulary_and_prefix() {
    let mut m = ChineseWordPiece::builder()
        .unk_token("<unk>".to_string())
        .max_input_chars_per_word(7)
        .build();
    let t = ChineseWordPieceTrainer::builder()
        .continuing_subword_prefix("++".to_string())
        .special_tokens(vec!["<unk>".to_string()])
        .build();
    let trained = vec![("<unk>".to_string(), 0), ("a".to_string(), 1), ("++b".to_string(), 2)];
    let added = t.train(&mut m, trained);
    assert_eq!(added, vec!["<unk>".to_string()]);
    assert_eq!(m.continuing_subword_prefix(), "++");
    assert_eq!(m.unk_token(), "<unk>");
    assert_eq!(m.max_input_chars_per_word(), 7);
    assert_eq!(m.get_vocab_size(), 3);
    let ts = m.tokenize("ab").unwrap();
    assert_eq!(ts[1].value, "++b");
    assert_eq!(ts[1].id, 2);
    let g = m.get_trainer();
    assert_eq!(g.continuing_subword_prefix(), &Some("##".to_string()));
}
