use pocket_tts::alignment::forced_align::{
    covers_targets, path_to_word_timestamps, text_to_ctc_targets, viterbi_forced_align,
    AlignError, LogProb, WordTimestamp,
};

/// Log-probabilities in units of 2^-32.
fn log_probs(emissions: &[Vec<f32>]) -> Vec<Vec<LogProb>> {
    emissions
        .iter()
        .map(|frame| {
            frame
                .iter()
                .map(|&p| LogProb::Units((p as f64 * 4294967296.0).round() as i64))
                .collect()
        })
        .collect()
}

fn times(words: &[WordTimestamp]) -> Vec<(String, u128, u128)> {
    words
        .iter()
        .map(|w| (w.word.clone(), w.start_sec.millis, w.end_sec.millis))
        .collect()
}

fn test_vocab() -> Vec<String> {
    // Minimal vocab: <pad>=0, a-z=1-26, space=27, apostrophe=28
    let mut v = vec!["<pad>".to_string()];
    for c in 'a'..='z' {
        v.push(c.to_string());
    }
    v.push(" ".to_string()); // index 27
    v.push("'".to_string()); // index 28
    v
}

#[test]
fn test_ctc_targets_simple() {
    let vocab = test_vocab();
    let targets = text_to_ctc_targets("hi", &vocab, 0);
    // h=8, i=9 → [0, 8, 0, 9, 0]
    assert_eq!(targets, vec![0, 8, 0, 9, 0]);
}

#[test]
fn test_ctc_targets_with_space() {
    let vocab = test_vocab();
    let targets = text_to_ctc_targets("a b", &vocab, 0);
    // a=1, space=27, b=2 → [0, 1, 0, 27, 0, 2, 0]
    assert_eq!(targets, vec![0, 1, 0, 27, 0, 2, 0]);
}

#[test]
fn test_ctc_targets_repeated_chars() {
    let vocab = test_vocab();
    let targets = text_to_ctc_targets("ll", &vocab, 0);
    // l=12, l=12 → [0, 12, 0, 12, 0]
    assert_eq!(targets, vec![0, 12, 0, 12, 0]);
}

#[test]
fn test_ctc_targets_apostrophe() {
    let vocab = test_vocab();
    let targets = text_to_ctc_targets("i'm", &vocab, 0);
    // i=9, apostrophe=28, m=13 → [0, 9, 0, 28, 0, 13, 0]
    assert_eq!(targets, vec![0, 9, 0, 28, 0, 13, 0]);
}

#[test]
fn test_ctc_targets_single_char() {
    let vocab = test_vocab();
    let targets = text_to_ctc_targets("a", &vocab, 0);
    assert_eq!(targets, vec![0, 1, 0]);
}

#[test]
fn test_ctc_targets_empty() {
    let vocab = test_vocab();
    let targets = text_to_ctc_targets("", &vocab, 0);
    assert_eq!(targets, vec![0]); // just one blank
}

#[test]
fn test_ctc_targets_unknown_char_skipped() {
    let vocab = test_vocab();
    // '!' is not in vocab — should be skipped
    let targets = text_to_ctc_targets("a!b", &vocab, 0);
    assert_eq!(targets, vec![0, 1, 0, 2, 0]);
}


#[test]
fn test_viterbi_simple_two_chars() {
    // Synthetic emissions for "ab": targets = [blank, a, blank, b, blank]
    // 10 frames, vocab_size = 3 (blank=0, a=1, b=2)
    let t = 10;
    let vocab_size = 3;
    let mut emissions = vec![vec![-10.0f32; vocab_size]; t];

    // Make blank dominant for frames 0-2
    for f in 0..3 {
        emissions[f][0] = -0.1;
    }
    // Make 'a' dominant for frames 3-5
    for f in 3..6 {
        emissions[f][1] = -0.1;
    }
    // Make blank dominant for frames 6-7
    for f in 6..8 {
        emissions[f][0] = -0.1;
    }
    // Make 'b' dominant for frames 8-9
    for f in 8..10 {
        emissions[f][2] = -0.1;
    }

    let targets = vec![0, 1, 0, 2, 0]; // blank, a, blank, b, blank
    let path = viterbi_forced_align(&log_probs(&emissions), &targets).unwrap();

    assert_eq!(path.len(), t);
    assert_eq!(path[0], 0); // blank
    assert_eq!(path[4], 1); // 'a' region
    assert_eq!(path[7], 0); // blank
    assert_eq!(path[9], 2); // 'b' region
    assert_eq!(path, vec![0, 0, 0, 1, 1, 1, 0, 0, 2, 2]);
}

#[test]
fn test_viterbi_repeated_chars() {
    // "ll": targets = [blank, l, blank, l, blank]
    // Must pass through the intervening blank between the two l's
    let t = 8;
    let vocab_size = 2; // blank=0, l=1
    let mut emissions = vec![vec![-10.0f32; vocab_size]; t];

    // First 'l': frames 0-2
    for f in 0..3 {
        emissions[f][1] = -0.1;
    }
    // Blank: frames 3-4
    for f in 3..5 {
        emissions[f][0] = -0.1;
    }
    // Second 'l': frames 5-7
    for f in 5..8 {
        emissions[f][1] = -0.1;
    }

    let targets = vec![0, 1, 0, 1, 0];
    let path = viterbi_forced_align(&log_probs(&emissions), &targets).unwrap();

    assert_eq!(path.len(), t);
    let has_blank_between = path[3..5].iter().any(|&p| p == 0);
    assert!(has_blank_between, "Must pass through blank between repeated chars");
}

#[test]
fn test_viterbi_too_few_frames() {
    // 2 frames but 5 targets — impossible
    let emissions = vec![vec![-1.0f32; 3]; 2];
    let targets = vec![0, 1, 0, 2, 0];
    let result = viterbi_forced_align(&log_probs(&emissions), &targets);
    assert!(result.is_err());
    assert_eq!(result, Err(AlignError::TooFewFrames { frames: 2, targets: 5 }));
}

#[test]
fn no_targets_give_an_empty_path() {
    let emissions = vec![vec![LogProb::Units(-1)]; 3];
    assert_eq!(viterbi_forced_align(&emissions, &[]), Ok(vec![]));
    assert_eq!(viterbi_forced_align(&[], &[]), Ok(vec![]));
}

#[test]
fn equal_totals_prefer_to_stay_and_to_end_last() {
    let emissions = vec![vec![LogProb::Units(-1); 2]; 4];
    assert_eq!(viterbi_forced_align(&emissions, &[0, 1, 0]), Ok(vec![1, 0, 0, 0]));
}

#[test]
fn a_repeated_token_never_loses_its_blank() {
    // The blank is all but impossible, and yet the second token needs it.
    let emissions = vec![vec![LogProb::Units(-1000), LogProb::Units(-1)]; 5];
    assert_eq!(
        viterbi_forced_align(&emissions, &[0, 1, 0, 1, 0]),
        Ok(vec![1, 0, 1, 1, 1])
    );
}

#[test]
fn different_tokens_may_follow_without_a_blank() {
    let blank = LogProb::Units(-1000);
    let far = LogProb::Units(-500);
    let near = LogProb::Units(-1);
    let mut emissions = vec![vec![blank, near, far]; 3];
    emissions.push(vec![blank, far, near]);
    emissions.push(vec![blank, far, near]);
    assert_eq!(
        viterbi_forced_align(&emissions, &[0, 1, 0, 2, 0]),
        Ok(vec![1, 1, 1, 2, 2])
    );
}

#[test]
fn an_impossible_token_leaves_the_path_at_the_end() {
    let emissions = vec![vec![LogProb::Units(-1), LogProb::NegInf]; 3];
    assert_eq!(viterbi_forced_align(&emissions, &[0, 1, 0]), Ok(vec![0, 0, 0]));
}

#[test]
fn a_better_alignment_is_not_missed() {
    // Two ways through three frames; the better one takes the token late.
    let emissions = vec![
        vec![LogProb::Units(-1), LogProb::Units(-9)],
        vec![LogProb::Units(-2), LogProb::Units(-8)],
        vec![LogProb::Units(-5), LogProb::Units(-1)],
    ];
    assert_eq!(viterbi_forced_align(&emissions, &[0, 1, 0]), Ok(vec![0, 0, 1]));
}

#[test]
fn the_first_frame_needs_only_the_first_two_targets() {
    let first = vec![LogProb::Units(-1); 2];
    let other = vec![LogProb::Units(-1); 3];
    let targets = [0, 1, 0, 2, 0];
    let mut emissions = vec![first.clone()];
    emissions.extend(vec![other; 4]);
    assert!(covers_targets(&emissions, &targets));
    emissions[3] = first;
    assert!(!covers_targets(&emissions, &targets));
    assert!(!covers_targets(&[vec![LogProb::NegInf]], &targets));
    assert!(covers_targets(&[], &targets));
}

#[test]
fn the_last_of_equal_tokens_counts() {
    let vocab = vec!["_".to_string(), "a".to_string(), "a".to_string()];
    assert_eq!(text_to_ctc_targets("a", &vocab, 0), vec![0, 2, 0]);
}

#[test]
fn targets_are_lowercased() {
    let vocab = vec!["<pad>".to_string(), "\u{e9}".to_string(), "i\u{307}".to_string()];
    // One character that becomes one, and one that becomes two.
    assert_eq!(text_to_ctc_targets("\u{c9}", &vocab, 0), vec![0, 1, 0]);
    assert_eq!(text_to_ctc_targets("\u{130}", &vocab, 0), vec![0, 2, 0]);
    assert_eq!(text_to_ctc_targets("HI", &test_vocab(), 0), vec![0, 8, 0, 9, 0]);
}

#[test]
fn blanks_and_tokens_alternate() {
    let targets = text_to_ctc_targets("hello world", &test_vocab(), 0);
    assert_eq!(targets.len(), 2 * 11 + 1);
    assert!(targets.iter().step_by(2).all(|&id| id == 0));
    assert!(targets.iter().skip(1).step_by(2).all(|&id| id != 0));
}

#[test]
fn words_last_from_their_first_to_their_last_frame() {
    let path = [0, 1, 1, 0, 27, 2, 0, 2, 0];
    let words = path_to_word_timestamps(&path, "a bb", &test_vocab(), 0, 20);
    assert_eq!(
        times(&words),
        vec![("a".to_string(), 20, 60), ("bb".to_string(), 100, 160)]
    );
}

#[test]
fn a_word_spans_all_its_parts() {
    let path = [0, 1, 27, 2, 0, 27, 3, 3];
    let words = path_to_word_timestamps(&path, "A-B, C", &test_vocab(), 0, 20);
    assert_eq!(
        times(&words),
        vec![("A-B,".to_string(), 20, 80), ("C".to_string(), 120, 160)]
    );
    // A part without frames leaves the word the frames of the others.
    let words = path_to_word_timestamps(&[27, 2, 27, 3], "A-B C", &test_vocab(), 0, 20);
    assert_eq!(times(&words), vec![("A-B".to_string(), 20, 40), ("C".to_string(), 60, 80)]);
}

#[test]
fn a_word_without_frames_takes_no_time() {
    let words = path_to_word_timestamps(&[0, 1, 27], "a b", &test_vocab(), 0, 20);
    assert_eq!(times(&words), vec![("a".to_string(), 20, 40), ("b".to_string(), 40, 40)]);
    let words = path_to_word_timestamps(&[27, 0, 2], "a b", &test_vocab(), 0, 20);
    assert_eq!(times(&words), vec![("a".to_string(), 0, 0), ("b".to_string(), 40, 60)]);
    let words = path_to_word_timestamps(&[], "a b", &test_vocab(), 0, 20);
    assert_eq!(times(&words), vec![("a".to_string(), 0, 0), ("b".to_string(), 0, 0)]);
}

#[test]
fn a_vocabulary_without_space_knows_one_word() {
    let vocab = vec!["<pad>".to_string(), "a".to_string()];
    let words = path_to_word_timestamps(&[1, 0, 1], "a a", &vocab, 0, 20);
    assert_eq!(times(&words), vec![("a".to_string(), 0, 60), ("a".to_string(), 60, 60)]);
}
