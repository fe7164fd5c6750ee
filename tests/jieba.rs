use chinese_wordpiece::jieba::{spans_of_words, Jieba};

#[test]
fn basic() {
    let tests = vec![
        ("Hey man!", vec![("Hey", (0, 3)), ("man", (4, 7)), ("!", (7, 8))]),
        (
            "How are you doing?",
            vec![
                ("How", (0, 3)),
                ("are", (4, 7)),
                ("you", (8, 11)),
                ("doing", (12, 17)),
                ("?", (17, 18)),
            ],
        ),
        ("\n", vec![]),
    ];
    let pretok = Jieba::default();
    for (s, res) in tests {
        let splits = pretok.pre_tokenize(s).unwrap();
        let got: Vec<(&str, (usize, usize))> = splits.iter().map(|(w, o)| (w.as_str(), *o)).collect();
        assert_eq!(got, res);
    }
}

#[test]
fn chinese_words_get_byte_spans() {
    let splits = Jieba::default().pre_tokenize("我们 中国").unwrap();
    let last = splits.last().unwrap();
    assert_eq!(last.1 .1, "我们 中国".len());
    for (w, (a, b)) in &splits {
        assert_eq!(&"我们 中国"[*a..*b], w.as_str());
    }
}

#[test]
fn spans_skip_blank_words() {
    let words = vec!["你好".to_string(), " ".to_string(), "世界".to_string()];
    let got = spans_of_words("你好 世界", &words).unwrap();
    assert_eq!(got, vec![("你好".to_string(), (0, 6)), ("世界".to_string(), (7, 13))]);
}

#[test]
fn spans_reject_words_that_do_not_tile() {
    let words = vec!["你".to_string(), "界".to_string()];
    assert_eq!(spans_of_words("你好", &words), None);
    let short = vec!["你".to_string()];
    assert_eq!(spans_of_words("你好", &short), None);
    let long = vec!["你好".to_string(), "!".to_string()];
    assert_eq!(spans_of_words("你好", &long), None);
}
