use pocket_tts::alignment::aligner::{
    build_vocab, cache_dir_name, count_parts, holds_model, hub_url, mono_step, normalize_for_alignment, split_frames,
    MonoStep, NativeAligner, VocabError, ALIGNMENT_REPO, ONNX_FILENAME, VOCAB_FILENAME,
};
use pocket_tts::alignment::forced_align::{AlignError, LogProb};

fn aligner() -> NativeAligner {
    let json = "{\"<pad>\": 0, \"A\": 1, \"B\": 2, \"|\": 3}";
    NativeAligner::from_vocab_json(json.as_bytes()).unwrap()
}

/// Emissions of which the given token is by far the likeliest in every frame.
fn emissions(tokens: &[usize]) -> Vec<Vec<LogProb>> {
    tokens
        .iter()
        .map(|&token| {
            (0..4)
                .map(|id| LogProb::Units(if id == token { -1 } else { -100 }))
                .collect()
        })
        .collect()
}

#[test]
fn test_normalize_for_alignment() {
    assert_eq!(normalize_for_alignment("Hello, World!"), "hello world");
    assert_eq!(normalize_for_alignment("I'm fine."), "i'm fine");
    assert_eq!(
        normalize_for_alignment("  multiple   spaces  "),
        "multiple spaces"
    );
    assert_eq!(normalize_for_alignment("self-driving"), "self driving");
    assert_eq!(normalize_for_alignment("123!@#"), "");
    assert_eq!(normalize_for_alignment(""), "");
    assert_eq!(
        normalize_for_alignment("UPPER lower MiXeD"),
        "upper lower mixed"
    );
}

#[test]
fn normalizing_twice_changes_nothing() {
    for text in ["Hello, World!", "\u{a0}a\u{2003}b--c  ", "it's 5 o'clock", ""] {
        let once = normalize_for_alignment(text);
        assert_eq!(normalize_for_alignment(&once), once);
    }
    assert_eq!(normalize_for_alignment("\u{a0}a\u{2003}b--c  "), "a b c");
    // Letters outside ASCII are dropped.
    assert_eq!(normalize_for_alignment("caf\u{e9} \u{212a}"), "caf");
}

#[test]
fn a_vocabulary_is_turned_round() {
    let json = "{\"<pad>\": 2, \"A\": 0, \"\u{c9}T\": 5, \"|\": 4}";
    let aligner = NativeAligner::from_vocab_json(json.as_bytes()).unwrap();
    assert_eq!(aligner.vocab, vec!["a", "", "<pad>", "", " ", "\u{e9}t"]);
    assert_eq!(aligner.blank_id, 2);
}

#[test]
fn an_empty_vocabulary_has_one_empty_token() {
    let aligner = NativeAligner::from_vocab_json(b"{}").unwrap();
    assert_eq!(aligner.vocab, vec![""]);
    assert_eq!(aligner.blank_id, 0);
}

#[test]
fn unusable_vocabularies_are_refused() {
    let read = |json: &str| NativeAligner::from_vocab_json(json.as_bytes()).unwrap_err();
    assert!(matches!(read("no json"), VocabError::Json(_)));
    assert!(matches!(read("{\"a\": 1} more"), VocabError::Json(_)));
    assert!(matches!(read("[1, 2]"), VocabError::NotAnObject));
    assert!(
        matches!(read("{\"a\": 1, \"b\": \"2\"}"), VocabError::NotAnInteger { token } if token == "b")
    );
    assert!(
        matches!(read("{\"a\": -1}"), VocabError::NotAnInteger { token } if token == "a")
    );
    assert!(matches!(read("{\"a\": 18446744073709551615}"), VocabError::IdTooLarge));
}

#[test]
fn the_last_of_several_tokens_keeps_the_id() {
    let entries = vec![
        ("A".to_string(), Some(1)),
        ("<pad>".to_string(), Some(0)),
        ("B".to_string(), Some(1)),
    ];
    let aligner = build_vocab(&entries).unwrap();
    assert_eq!(aligner.vocab, vec!["<pad>", "b"]);
    assert_eq!(aligner.blank_id, 0);
    let entries = vec![("A".to_string(), Some(1)), ("B".to_string(), None)];
    assert!(
        matches!(build_vocab(&entries), Err(VocabError::NotAnInteger { token }) if token == "B")
    );
}

/// The words of the timestamps with their starts and ends.
fn align(tokens: &[usize], text: &str) -> Vec<(String, u128, u128)> {
    let words = aligner().align(&emissions(tokens), text).unwrap();
    words.into_iter().map(|w| (w.word, w.start_sec.millis, w.end_sec.millis)).collect()
}

#[test]
fn every_word_gets_its_time() {
    assert_eq!(
        align(&[0, 1, 1, 0, 3, 3, 2, 0], "A, b!"),
        vec![("A,".to_string(), 20, 60), ("b!".to_string(), 120, 140)]
    );
}

#[test]
fn a_hyphenated_word_stays_one() {
    // Its parts are "a" and "b"; the word lasts from the first to the last.
    assert_eq!(
        align(&[1, 3, 2, 0, 3, 0, 1, 1, 0, 0, 0], "A-b \u{201c}a\u{201d}"),
        vec![("A-b".to_string(), 0, 60), ("\u{201c}a\u{201d}".to_string(), 120, 160)]
    );
}

#[test]
fn words_without_letters_take_no_time() {
    assert_eq!(
        align(&[0, 1, 0, 3, 0, 2, 0], "1: A 12 - b"),
        vec![
            ("1:".to_string(), 0, 0),
            ("A".to_string(), 20, 40),
            ("12".to_string(), 40, 40),
            ("-".to_string(), 40, 40),
            ("b".to_string(), 100, 120),
        ]
    );
}

#[test]
fn words_come_back_as_provided() {
    let text = " Ab,\tBA!\n& (a) $100 \u{2014}";
    let words = align(&[1, 2, 0, 3, 2, 1, 0, 3, 1, 0, 0, 0, 0, 0, 0, 0, 0], text);
    let texts: Vec<&str> = words.iter().map(|(word, _, _)| word.as_str()).collect();
    assert_eq!(texts, text.split_whitespace().collect::<Vec<_>>());
}

#[test]
fn parts_of_words_are_counted() {
    let counted = count_parts("Hello, self-driving -- it's 5 well--known-");
    let expected = [("Hello,", 1), ("self-driving", 2), ("--", 0), ("it's", 1), ("5", 0), ("well--known-", 2)];
    assert_eq!(counted.len(), expected.len());
    for ((word, parts), (expected_word, expected_parts)) in counted.iter().zip(expected) {
        assert_eq!((word.as_str(), *parts), (expected_word, expected_parts));
    }
}

#[test]
fn both_files_make_a_model() {
    let files = |names: &[&str]| names.iter().map(|n| n.to_string()).collect::<Vec<String>>();
    assert!(holds_model(&files(&["README.md", VOCAB_FILENAME, ONNX_FILENAME])));
    assert!(!holds_model(&files(&[VOCAB_FILENAME])));
    assert!(!holds_model(&files(&[ONNX_FILENAME, "vocab.txt"])));
    assert!(!holds_model(&vec![]));
}

#[test]
fn too_little_audio_is_an_error() {
    let frames = emissions(&[0, 1, 0, 3, 0, 2]);
    assert_eq!(
        aligner().align(&frames, "a b").unwrap_err(),
        AlignError::TooFewFrames { frames: 6, targets: 7 }
    );
}

#[test]
fn a_text_without_letters_has_no_words() {
    assert!(aligner().align(&emissions(&[0]), "123!").unwrap().is_empty());
    assert!(aligner().align(&[], "").unwrap().is_empty());
}

#[test]
fn emissions_must_cover_the_text() {
    let frames = emissions(&[0, 1, 0, 3, 0, 2, 0]);
    assert!(aligner().can_align(&frames, "a b"));
    let narrow: Vec<Vec<LogProb>> = frames.iter().map(|f| f[..3].to_vec()).collect();
    assert!(!aligner().can_align(&narrow, "a b"));
    assert!(aligner().can_align(&narrow, "ab"));
    // Nothing is read of what cannot be aligned.
    assert!(aligner().can_align(&narrow, "a b a"));
    assert!(aligner().can_align(&[vec![]], "123"));
}

#[test]
fn audio_becomes_mono() {
    assert_eq!(mono_step(&[100]), Some(MonoStep::AddChannel));
    assert_eq!(mono_step(&[1, 100]), Some(MonoStep::Keep));
    assert_eq!(mono_step(&[2, 100]), Some(MonoStep::MeanOverChannels));
    assert_eq!(mono_step(&[0, 100]), Some(MonoStep::MeanOverChannels));
    assert_eq!(mono_step(&[1, 1, 100]), None);
    assert_eq!(mono_step(&[]), None);
}

#[test]
fn frames_are_cut_in_order() {
    assert_eq!(
        split_frames(&[1, 2, 3, 4, 5, 6, 7], 3, 2),
        vec![vec![1, 2], vec![3, 4], vec![5, 6]]
    );
    assert_eq!(split_frames::<u8>(&[], 2, 0), vec![Vec::<u8>::new(), Vec::new()]);
    assert!(split_frames(&[1, 2], 0, 2).is_empty());
}

#[test]
fn files_are_named_after_the_repository() {
    assert_eq!(
        hub_url(ALIGNMENT_REPO, ONNX_FILENAME),
        "hf://KnockOutEZ/pocket-tts-alignment/wav2vec2-large-int8.onnx"
    );
    assert_eq!(
        hub_url(ALIGNMENT_REPO, VOCAB_FILENAME),
        "hf://KnockOutEZ/pocket-tts-alignment/vocab.json"
    );
    assert_eq!(
        cache_dir_name(ALIGNMENT_REPO),
        "models--KnockOutEZ--pocket-tts-alignment"
    );
}
