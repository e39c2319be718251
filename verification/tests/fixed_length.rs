use tokenizer_utils::fixed_length::{default_length, FixedLength, SliceError};
use tokenizer_utils::pre_tokenized::{NormalizedString, PreTokenizedString, Split, Token};

fn splits(pretokenized: &PreTokenizedString) -> Vec<(&str, (usize, usize))> {
    pretokenized
        .get_splits()
        .into_iter()
        .map(|(s, o, _)| (s, o))
        .collect::<Vec<_>>()
}

#[test]
fn basic() {
    let tests = vec![
        (
            "Hello world",
            vec![("Hello", (0, 5)), (" worl", (5, 10)), ("d", (10, 11))],
        ),
        ("Short", vec![("Short", (0, 5))]),
        ("", vec![]),
    ];
    let pretok = FixedLength { length: 5 };
    for (s, res) in tests {
        let mut pretokenized = PreTokenizedString::new(s);
        pretok.pre_tokenize(&mut pretokenized).unwrap();
        assert_eq!(splits(&pretokenized), res);
    }
}

#[test]
fn custom_length() {
    let pretok = FixedLength { length: 3 };
    let mut pretokenized = PreTokenizedString::new("Hello world");
    pretok.pre_tokenize(&mut pretokenized).unwrap();
    assert_eq!(
        splits(&pretokenized),
        vec![
            ("Hel", (0, 3)),
            ("lo ", (3, 6)),
            ("wor", (6, 9)),
            ("ld", (9, 11)),
        ]
    );
}

#[test]
fn utf8_characters() {
    let pretok = FixedLength { length: 3 };
    let mut pretokenized = PreTokenizedString::new("Hello 👋 world");
    pretok.pre_tokenize(&mut pretokenized).unwrap();
    assert_eq!(
        splits(&pretokenized),
        vec![
            ("Hel", (0, 3)),
            ("lo ", (3, 6)),
            ("👋 w", (6, 12)),
            ("orl", (12, 15)),
            ("d", (15, 16)),
        ]
    );
}

#[test]
fn lengths() {
    assert_eq!(default_length(), 5);
    assert_eq!(FixedLength::new(7).length, 7);
    assert_eq!(FixedLength::new(7).clone(), FixedLength { length: 7 });
    assert!(FixedLength::new(7) != FixedLength::new(8));
}

#[test]
fn segments_of_text() {
    assert_eq!(FixedLength::new(2).segments("aéß👋"), vec![(0, 3), (3, 9)]);
    assert_eq!(FixedLength::new(3).segments("aéß👋"), vec![(0, 5), (5, 9)]);
    assert_eq!(FixedLength::new(usize::MAX).segments("ab"), vec![(0, 2)]);
    assert_eq!(FixedLength::new(0).segments(""), vec![]);
}

#[test]
fn pieces_join_to_the_text_and_cutting_twice_changes_nothing() {
    let text = "The quick brown 狐 jumps över the lazy 🐕.";
    for length in 1..12 {
        let pretok = FixedLength::new(length);
        let mut once = PreTokenizedString::new(text);
        pretok.pre_tokenize(&mut once).unwrap();
        let joined: String = splits(&once).iter().map(|(s, _)| *s).collect();
        assert_eq!(joined, text);
        for (piece, (start, end)) in splits(&once) {
            assert_eq!(&text[start..end], piece);
            assert!(piece.chars().count() >= 1 && piece.chars().count() <= length);
        }
        let before: Vec<(String, (usize, usize))> =
            splits(&once).iter().map(|(s, o)| (s.to_string(), *o)).collect();
        pretok.pre_tokenize(&mut once).unwrap();
        let after: Vec<(String, (usize, usize))> =
            splits(&once).iter().map(|(s, o)| (s.to_string(), *o)).collect();
        assert_eq!(before, after);
    }
}

#[test]
fn tokenized_splits_stay_as_they_are() {
    let token = Token { id: 1, value: "Hello".to_string(), offsets: (0, 5) };
    let mut pretokenized = PreTokenizedString {
        splits: vec![
            Split {
                normalized: NormalizedString::new("Hello"),
                tokens: Some(vec![token]),
            },
            Split { normalized: NormalizedString::new("world"), tokens: None },
        ],
    };
    FixedLength::new(3).pre_tokenize(&mut pretokenized).unwrap();
    let all = pretokenized.get_splits();
    assert_eq!(all.len(), 3);
    assert_eq!(all[0].0, "Hello");
    assert_eq!(all[0].2.as_ref().unwrap()[0].id, 1);
    assert_eq!((all[1].0, all[1].1), ("wor", (0, 3)));
    assert!(all[1].2.is_none());
    assert_eq!((all[2].0, all[2].1), ("ld", (3, 5)));
}

#[test]
fn length_zero_with_nothing_left_to_cut() {
    let mut pretokenized = PreTokenizedString::new("");
    FixedLength::new(0).pre_tokenize(&mut pretokenized).unwrap();
    assert_eq!(splits(&pretokenized), vec![]);
}

#[test]
fn offsets_follow_the_alignments() {
    // "ﬁx" normalized to "fix": both `f` and `i` stand for the ligature.
    let normalized = NormalizedString {
        text: "fix".to_string(),
        alignments: vec![(0, 3), (0, 3), (3, 4)],
        offsets: (0, 4),
    };
    let mut pretokenized = PreTokenizedString {
        splits: vec![Split { normalized, tokens: None }],
    };
    FixedLength::new(2).pre_tokenize(&mut pretokenized).unwrap();
    assert_eq!(splits(&pretokenized), vec![("fi", (0, 3)), ("x", (3, 4))]);
}

#[test]
fn slices_of_normalized_text() {
    let normalized = NormalizedString::new("aé");
    assert_eq!(normalized.alignments, vec![(0, 1), (1, 3), (1, 3)]);
    assert_eq!(normalized.offsets, (0, 3));
    assert_eq!(normalized.slice(1, 3).unwrap().text, "é");
    assert_eq!(normalized.slice(1, 3).unwrap().offsets, (1, 3));
    assert!(normalized.slice(1, 2).is_none());
    assert!(normalized.slice(2, 3).is_none());
    assert!(normalized.slice(1, 1).is_none());
    assert!(normalized.slice(2, 1).is_none());
    assert!(normalized.slice(0, 4).is_none());
}

#[test]
fn slice_error_message() {
    assert_eq!(SliceError.message(), "Failed to slice normalized text");
}
