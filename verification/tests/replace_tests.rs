use rten_core::normalizers::{AnyNormalizer, Bert, BertOptions, NormalizeError, Replace, Sequence, Unicode};

#[test]
fn test_replace() {
    struct Case<'a> {
        input: &'a str,
        pattern: &'a str,
        content: &'a str,
        expected: &'a str,
        expected_offsets: Vec<usize>,
    }

    let cases = [
        // No-op replacement
        Case {
            input: "nothing to do here",
            pattern: "does-not-match",
            content: "replacement",
            expected: "nothing to do here",
            expected_offsets: (0.."nothing to do here".len()).collect(),
        },
        // Whitespace simplification
        Case {
            input: "foo  bar  baz",
            pattern: r"\s+",
            content: " ",
            expected: "foo bar baz",
            expected_offsets: vec![0, 1, 2, 3, 5, 6, 7, 8, 10, 11, 12],
        },
        // Pattern with overlapping matches
        Case {
            input: "foo   bar   baz",
            pattern: r"  ",
            content: " ",
            expected: "foo  bar  baz",
            expected_offsets: vec![0, 1, 2, 3, 5, 6, 7, 8, 9, 11, 12, 13, 14],
        },
    ];

    for case in cases {
        let Case {
            input,
            pattern,
            content,
            expected,
            expected_offsets,
        } = case;

        let normalizer = Replace::new(pattern, content.to_string()).unwrap();
        let (normalized, offsets) = normalizer.normalize(input).unwrap();
        assert_eq!(offsets.len(), normalized.len());
        assert_eq!(normalized, expected);
        assert_eq!(offsets, expected_offsets);
    }
}

#[test]
fn test_replace_bad_pattern() {
    let err = Replace::new("(", "x".to_string()).unwrap_err();
    assert!(matches!(err, NormalizeError::RegexError(_)));
}

fn lowercase_normalizer() -> AnyNormalizer {
    AnyNormalizer::Bert(Bert::new(BertOptions {
        lowercase: true,
        strip_accents: false,
    }))
}

fn nfc_normalizer() -> AnyNormalizer {
    AnyNormalizer::Unicode(Unicode::Nfc)
}

fn replace_normalizer(pattern: &str, content: &str) -> AnyNormalizer {
    AnyNormalizer::Replace(Replace::new(pattern, content.to_string()).unwrap())
}

#[test]
fn test_sequence() {
    struct Case<'a> {
        input: &'a str,
        normalizers: Vec<AnyNormalizer>,
        expected: &'a str,
        expected_offsets: Vec<usize>,
    }

    let cases = [
        // NFC + Lowercase + whitespace simplification.
        //
        // This is the sequence used by CLIP.
        Case {
            input: "FOO  BAR  BAZ",
            normalizers: vec![
                nfc_normalizer(),
                lowercase_normalizer(),
                replace_normalizer(r"\s+", " "),
            ],
            expected: "foo bar baz",
            expected_offsets: vec![0, 1, 2, 3, 5, 6, 7, 8, 10, 11, 12],
        },
        // Multiple normalizers that modify offsets.
        Case {
            input: "FOO BAR BAZ",
            normalizers: vec![
                replace_normalizer(" ", "--"),
                replace_normalizer("--", "_"),
                lowercase_normalizer(),
            ],
            expected: "foo_bar_baz",
            expected_offsets: (0.."foo bar baz".len()).collect(),
        },
        // Empty sequence
        Case {
            input: "foo bar baz",
            normalizers: Vec::new(),
            expected: "foo bar baz",
            expected_offsets: (0.."foo bar baz".len()).collect(),
        },
    ];

    for case in cases {
        let Case {
            input,
            normalizers,
            expected,
            expected_offsets,
        } = case;

        let seq = Sequence::from_vec(normalizers);
        let (normalized, offsets) = seq.normalize(input).unwrap();
        assert_eq!(normalized, expected);
        assert_eq!(offsets, expected_offsets);
    }
}

#[test]
fn test_sequence_offset_out_of_range() {
    // A replacement inserted at an empty match at the very end of the text
    // reports an offset equal to the input's byte length; composing that
    // mapping is rejected.
    let seq = Sequence::from_vec(vec![replace_normalizer("$", "!")]);
    let err = seq.normalize("ab").unwrap_err();
    assert!(matches!(err, NormalizeError::OffsetOutOfRange));
}
