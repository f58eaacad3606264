use rten_core::normalizers::{Bert, BertOptions, NormalizeError, Replace, Unicode, UnicodeBuf};

#[test]
fn test_bert_noop() {
    let normalizer = Bert::new(BertOptions::default());
    let inputs = [
        "Hello world!", // Mixed case
        "Mot\u{f6}rhead", // Accented
        "lowercase",
    ];
    for input in inputs {
        let (normalized, offsets) = normalizer.normalize(input).unwrap();
        assert_eq!(normalized, input);
        assert_eq!(offsets, (0..input.len()).collect::<Vec<_>>());
    }
}

#[test]
fn test_bert_lowercase() {
    let normalizer = Bert::new(BertOptions {
        lowercase: true,
        ..Default::default()
    });

    struct Case<'a> {
        input: &'a str,
        expected: &'a str,
        expected_offsets: Vec<usize>,
    }

    let cases = [
        // Simple text where chars map 1:1 to lower-case version
        Case {
            input: "Hello World!",
            expected: "hello world!",
            expected_offsets: (0.."hello world!".len()).collect(),
        },
        // Text with chars which expand when lower-cased
        Case {
            input: "\u{130}\u{130}AB",
            expected: "i\u{307}i\u{307}ab",
            // The dotted capital I char requires two bytes in the input and
            // expands into two characters which require one and three bytes
            // respectively. Hence the offsets contain two groups of three
            // equal offsets, with values separated by two.
            expected_offsets: vec![0, 0, 0, 2, 2, 2, 4, 5],
        },
    ];

    for case in cases {
        let Case {
            input,
            expected,
            expected_offsets,
        } = case;

        let (normalized, offsets) = normalizer.normalize(input).unwrap();
        assert_eq!(normalized, expected);
        assert_eq!(offsets, expected_offsets);
    }
}

#[test]
fn test_bert_strip_accepts() {
    struct Case<'a> {
        input: &'a str,
        lowercase: bool,
        expected: &'a str,
        expected_offsets: Vec<usize>,
    }

    let cases = [
        // Strip accents only
        Case {
            input: "Mot\u{f6}rhead",
            lowercase: false,
            expected: "Motorhead",
            // Note jump in offset where the two UTF-8 char is replaced
            // with "o".
            expected_offsets: vec![0, 1, 2, 3, 5, 6, 7, 8, 9],
        },
        // Combined lowercase + strip accents
        Case {
            input: "Mot\u{f6}rhead",
            lowercase: true,
            expected: "motorhead",
            // Note jump in offset where the two UTF-8 char is replaced
            // with "o".
            expected_offsets: vec![0, 1, 2, 3, 5, 6, 7, 8, 9],
        },
    ];

    for case in cases {
        let Case {
            input,
            lowercase,
            expected,
            expected_offsets,
        } = case;

        let normalizer = Bert::new(BertOptions {
            lowercase,
            strip_accents: true,
        });

        let (normalized, offsets) = normalizer.normalize(input).unwrap();
        assert_eq!(normalized, expected);
        assert_eq!(offsets, expected_offsets);
    }
}

#[test]
fn test_unicode() {
    struct Case<'a> {
        input: &'a str,
        normalizer: Unicode,
        expected: &'a str,
        expected_offsets: Vec<usize>,
    }

    let noop_case = |normalizer| Case {
        input: "abc",
        normalizer,
        expected: "abc",
        expected_offsets: vec![0, 1, 2],
    };

    let cases = [
        // No-op compositions and decompositions
        noop_case(Unicode::Nfc),
        noop_case(Unicode::Nfd),
        noop_case(Unicode::Nfkc),
        noop_case(Unicode::Nfkd),
        // Composition
        Case {
            input: "I\u{307}ab",
            normalizer: Unicode::Nfc,
            expected: "\u{130}ab",
            expected_offsets: vec![0, 0, 3, 4],
        },
        // Canonical decomposition
        Case {
            input: "\u{130}a",
            normalizer: Unicode::Nfd,
            expected: "I\u{307}a",
            expected_offsets: vec![0, 0, 0, 2],
        },
        // Compatible decomposition, followed by composition
        Case {
            input: "\u{2460}",
            normalizer: Unicode::Nfkc,
            expected: "1",
            expected_offsets: vec![0],
        },
        Case {
            input: "\u{c9}ab",
            normalizer: Unicode::Nfkc,
            expected: "\u{c9}ab",
            expected_offsets: vec![0, 0, 2, 3],
        },
        // Compatible decomposition
        Case {
            input: "\u{c9}ab",
            normalizer: Unicode::Nfkd,
            expected: "E\u{301}ab",
            expected_offsets: vec![0, 0, 0, 2, 3],
        },
    ];

    for case in cases {
        let Case {
            input,
            normalizer,
            expected,
            expected_offsets,
        } = case;

        let (normalized, offsets) = normalizer.normalize(input).unwrap();
        assert_eq!(normalized, expected);
        assert_eq!(normalized.len(), offsets.len());
        assert_eq!(offsets, expected_offsets);
    }
}

#[test]
fn test_unicode_buf_byte_offsets() {
    let mut buf = UnicodeBuf::with_capacity(8);
    buf.push('a', 0);
    buf.push('\u{e9}', 1); // two UTF-8 bytes, so its offset appears twice
    buf.push('b', 3);
    let (normalized, offsets) = buf.into_string_with_byte_offsets();
    assert_eq!(normalized, "a\u{e9}b");
    assert_eq!(offsets, vec![0, 1, 1, 3]);
}

#[test]
fn test_normalize_error_message() {
    let err = Replace::new("(", "x".to_string()).unwrap_err();
    assert!(err.message().starts_with("regex failed "));
    assert_eq!(
        NormalizeError::OffsetOutOfRange.message(),
        "offset out of range"
    );
}
