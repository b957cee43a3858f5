use pocket_tts::alignment::dtw_decoder::{
    causal_mask, dtw_alignment, extract_word_timestamps, frame_to_sec, group_aligned_texts,
    group_words,
    try_extract_word_timestamps, TokenInfo,
};
use pocket_tts::alignment::forced_align::{LogProb, Seconds, WordTimestamp};
use tokenizers::Tokenizer;

/// Weights in units of 2^-32.
fn units(attention: &[Vec<f64>]) -> Vec<Vec<i64>> {
    attention
        .iter()
        .map(|row| {
            row.iter()
                .map(|&w| (w as f32 as f64 * 4294967296.0).round() as i64)
                .collect()
        })
        .collect()
}

fn secs(s: Seconds) -> f64 {
    s.millis as f64 / 1000.0
}

fn times(words: &[WordTimestamp]) -> Vec<(String, u128, u128)> {
    words
        .iter()
        .map(|w| (w.word.clone(), w.start_sec.millis, w.end_sec.millis))
        .collect()
}

fn token(text: &str, start_frame: usize, end_frame: usize) -> TokenInfo {
    TokenInfo { text: text.to_string(), start_frame, end_frame }
}

fn tokenizer(decoder: &str) -> Tokenizer {
    let json = format!(
        "{}{}{}",
        "{\"version\":\"1.0\",\"truncation\":null,\"padding\":null,\"added_tokens\":[],\
         \"normalizer\":null,\"pre_tokenizer\":null,\"post_processor\":null,\"decoder\":",
        decoder,
        ",\"model\":{\"type\":\"WordLevel\",\"vocab\":{\" he\":0,\"llo\":1,\" world\":2,\"[UNK]\":3,\" \":4,\
         \"\":5},\"unk_token\":\"[UNK]\"}}"
    );
    Tokenizer::from_bytes(json.as_bytes()).unwrap()
}

#[test]
fn test_dtw_alignment_basic() {
    // 3 text tokens, 5 audio frames
    // Strong diagonal attention pattern
    let attention = vec![
        vec![0.8, 0.1, 0.05, 0.03, 0.02],
        vec![0.05, 0.1, 0.7, 0.1, 0.05],
        vec![0.02, 0.03, 0.05, 0.1, 0.8],
    ];

    let result = dtw_alignment(&units(&attention));
    assert_eq!(result.len(), 3);

    // Token 0 should start at frame 0
    assert_eq!(result[0].0, 0); // token_idx
    assert_eq!(result[0].1, 0); // start_frame

    // Token 2 should end at frame 5 (exclusive)
    assert_eq!(result[2].0, 2);
    assert_eq!(result[2].2, 5);

    // Ranges must be monotonically non-decreasing
    for i in 1..result.len() {
        assert!(result[i].1 >= result[i - 1].1, "start frames must be non-decreasing");
    }
}

#[test]
fn test_dtw_alignment_empty() {
    let result = dtw_alignment(&[]);
    assert!(result.is_empty());

    let result = dtw_alignment(&[vec![]]);
    assert!(result.is_empty());
}

#[test]
fn test_dtw_alignment_single_token() {
    let attention = vec![vec![0.3, 0.5, 0.2]];
    let result = dtw_alignment(&units(&attention));
    assert_eq!(result.len(), 1);
    assert_eq!(result[0], (0, 0, 3)); // single token spans all frames
}

#[test]
fn test_frame_to_sec() {
    // frame 0 → 0.0s
    assert!((secs(frame_to_sec(0)) - 0.0).abs() < 1e-6);
    // frame 100 → 100 * 160 / 16000 = 1.0s
    assert!((secs(frame_to_sec(100)) - 1.0).abs() < 1e-6);
    // frame 50 → 50 * 160 / 16000 = 0.5s
    assert!((secs(frame_to_sec(50)) - 0.5).abs() < 1e-6);
}

#[test]
fn test_dtw_alignment_uniform_attention() {
    // When attention is uniform, DTW should still produce a valid monotonic alignment
    let attention = vec![vec![0.25, 0.25, 0.25, 0.25], vec![0.25, 0.25, 0.25, 0.25]];
    let result = dtw_alignment(&units(&attention));
    assert_eq!(result.len(), 2);
    // Must cover all frames
    assert_eq!(result[0].1, 0);
    assert_eq!(result[result.len() - 1].2, 4);
}

#[test]
fn the_cheapest_way_is_taken() {
    // The weights are so that the way goes (0,0) (0,1) (1,2) (2,3).
    let attention = vec![vec![9, 9, -9, -9], vec![-9, -9, 9, -9], vec![-9, -9, -9, 9]];
    assert_eq!(dtw_alignment(&attention), vec![(0, 0, 2), (1, 2, 3), (2, 3, 4)]);
}

#[test]
fn more_tokens_than_frames_share_frames() {
    let attention = vec![vec![1], vec![1], vec![1]];
    assert_eq!(dtw_alignment(&attention), vec![(0, 0, 1), (1, 0, 1), (2, 0, 1)]);
}

#[test]
fn of_equal_costs_the_diagonal_comes_first() {
    let attention = vec![vec![0, 0], vec![0, 0]];
    assert_eq!(dtw_alignment(&attention), vec![(0, 0, 1), (1, 1, 2)]);
}

#[test]
fn longer_rows_are_read_up_to_the_first() {
    let attention = vec![vec![1, 1], vec![1, 1, 1]];
    assert_eq!(dtw_alignment(&attention), vec![(0, 0, 2), (1, 1, 2)]);
}

#[test]
fn ranges_cover_the_audio_without_a_gap() {
    let attention: Vec<Vec<i64>> = (0..6i64)
        .map(|i| (0..17i64).map(|j| (i * 31 + j * 17 + i * j * 7) % 23).collect())
        .collect();
    let ranges = dtw_alignment(&attention);
    assert_eq!(ranges.len(), 6);
    assert_eq!(ranges[0].1, 0);
    assert_eq!(ranges[5].2, 17);
    for k in 0..5 {
        assert!(ranges[k].1 < ranges[k].2);
        assert!(ranges[k + 1].1 == ranges[k].2 || ranges[k + 1].1 + 1 == ranges[k].2);
    }
}

#[test]
fn extreme_weights_do_not_overflow() {
    let attention = vec![vec![i64::MIN; 3], vec![i64::MAX; 3]];
    assert_eq!(dtw_alignment(&attention), vec![(0, 0, 1), (1, 0, 3)]);
}

#[test]
fn a_space_starts_a_word() {
    let tokens = vec![
        token(" he", 0, 10),
        token("llo", 9, 20),
        token(" ", 20, 22),
        token(" world", 22, 50),
        token("!", 50, 51),
    ];
    assert_eq!(
        times(&group_words(&tokens)),
        vec![("hello".to_string(), 0, 200), ("world!".to_string(), 220, 510)]
    );
}

#[test]
fn the_first_word_needs_no_space() {
    let tokens = vec![token("a", 3, 4), token("b ", 5, 6)];
    assert_eq!(times(&group_words(&tokens)), vec![("ab".to_string(), 30, 60)]);
    assert!(group_words(&vec![]).is_empty());
    assert!(group_words(&vec![token(" \t\n", 0, 1)]).is_empty());
}

#[test]
fn other_white_space_starts_no_word_but_is_trimmed() {
    let tokens = vec![token("\u{a0}a", 0, 1), token("\nb", 1, 2), token(" \u{3000}c\t", 2, 3)];
    assert_eq!(
        times(&group_words(&tokens)),
        vec![("a\nb".to_string(), 0, 20), ("c".to_string(), 20, 30)]
    );
}

#[test]
fn tokens_are_decoded_and_grouped() {
    let tokenizer = tokenizer("null");
    let alignment = [(0, 0, 10), (1, 9, 20), (2, 20, 50)];
    let words = extract_word_timestamps(&alignment, &[0, 1, 2], &tokenizer);
    assert_eq!(
        times(&words),
        vec![("hello".to_string(), 0, 200), ("world".to_string(), 200, 500)]
    );
}

#[test]
fn missing_unknown_and_empty_tokens_are_passed_over() {
    let tokenizer = tokenizer("null");
    // Token 99 is unknown, token 5 has no text, and there is no token with index 7.
    let alignment = [(0, 0, 10), (1, 10, 11), (2, 11, 12), (7, 12, 13), (3, 13, 20)];
    let words = extract_word_timestamps(&alignment, &[0, 99, 5, 1], &tokenizer);
    assert_eq!(times(&words), vec![("hello".to_string(), 0, 200)]);
    assert!(extract_word_timestamps(&[], &[0], &tokenizer).is_empty());
    assert!(extract_word_timestamps(&alignment, &[], &tokenizer).is_empty());
}

#[test]
fn decoded_texts_are_grouped() {
    let text = |t: &str| Some(t.to_string());
    let texts = [text(" he"), None, text(""), text("llo"), text(" you")];
    let alignment = [(0, 0, 1), (1, 1, 2), (2, 2, 3), (3, 3, 4), (9, 4, 5), (4, 5, 6)];
    assert_eq!(
        times(&group_aligned_texts(&alignment, &texts)),
        vec![("hello".to_string(), 0, 40), ("you".to_string(), 50, 60)]
    );
    assert!(group_aligned_texts(&[], &texts).is_empty());
    assert!(group_aligned_texts(&alignment, &[]).is_empty());
}

#[test]
fn any_tokenizer_may_be_tried() {
    let alignment = [(0, 0, 10), (1, 9, 20), (2, 20, 50)];
    let expected = vec![("hello".to_string(), 0, 200), ("world".to_string(), 200, 500)];
    for decoder in ["null", "{\"type\":\"Fuse\"}", "{\"type\":\"ByteFallback\"}"] {
        let words = try_extract_word_timestamps(&alignment, &[0, 1, 2], &tokenizer(decoder));
        assert_eq!(words.map(|w| times(&w)), Some(expected.clone()));
    }
    let strip = "{\"type\":\"Strip\",\"content\":\" \",\"start\":1,\"stop\":0}";
    for decoder in [strip, "{\"type\":\"BPEDecoder\",\"suffix\":\"</w>\"}"] {
        let words = try_extract_word_timestamps(&alignment, &[0, 1, 2], &tokenizer(decoder));
        assert!(words.is_none());
    }
}

#[test]
fn a_byte_level_decoder_makes_words() {
    // The byte-level alphabet writes a space as U+0120.
    let json = "{\"version\":\"1.0\",\"truncation\":null,\"padding\":null,\"added_tokens\":[],\
        \"normalizer\":null,\"pre_tokenizer\":null,\"post_processor\":null,\"decoder\":\
        {\"type\":\"ByteLevel\",\"add_prefix_space\":true,\"trim_offsets\":true,\"use_regex\":true},\
        \"model\":{\"type\":\"WordLevel\",\"vocab\":{\"\u{120}hi\":0,\"\u{120}you\":1,\"[UNK]\":2},\
        \"unk_token\":\"[UNK]\"}}";
    let tokenizer = Tokenizer::from_bytes(json.as_bytes()).unwrap();
    let words = try_extract_word_timestamps(&[(0, 0, 5), (1, 5, 9)], &[0, 1], &tokenizer).unwrap();
    assert_eq!(
        times(&words),
        vec![("hi".to_string(), 0, 50), ("you".to_string(), 50, 90)]
    );
}

#[test]
fn words_of_an_alignment_are_in_order() {
    let attention = vec![vec![5, 1, 0, 0], vec![0, 5, 1, 0], vec![0, 0, 1, 5]];
    let alignment = dtw_alignment(&attention);
    let words = extract_word_timestamps(&alignment, &[0, 1, 2], &tokenizer("null"));
    assert_eq!(words.len(), 2);
    assert!(words[0].start_sec.millis < words[0].end_sec.millis);
    assert!(words[0].start_sec.millis <= words[1].start_sec.millis);
    assert_eq!(words[1].end_sec.millis, 40);
}

#[test]
fn the_mask_hides_later_positions() {
    let zero = LogProb::Units(0);
    let hidden = LogProb::NegInf;
    assert_eq!(
        causal_mask(3),
        vec![zero, hidden, hidden, zero, zero, hidden, zero, zero, zero]
    );
    assert!(causal_mask(0).is_empty());
}
