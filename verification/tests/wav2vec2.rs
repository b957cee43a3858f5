use pocket_tts::alignment::aligner::{FRAME_MILLIS, WHISPER_SAMPLE_RATE};
use pocket_tts::alignment::text::indexed_names;
use pocket_tts::alignment::wav2vec2::{
    feature_extractor_plan, ConvSpec, FEAT_DIM, HEAD_DIM, HIDDEN_SIZE, NUM_HEADS, NUM_LAYERS,
};

#[test]
fn the_plan_has_seven_layers() {
    let plan = feature_extractor_plan();
    let convs: Vec<(usize, usize, usize, usize)> = plan
        .iter()
        .map(|layer| {
            let ConvSpec { in_channels, out_channels, kernel, stride } = layer.conv;
            (in_channels, out_channels, kernel, stride)
        })
        .collect();
    assert_eq!(
        convs,
        vec![
            (1, 512, 10, 5),
            (512, 512, 3, 2),
            (512, 512, 3, 2),
            (512, 512, 3, 2),
            (512, 512, 3, 2),
            (512, 512, 2, 2),
            (512, 512, 2, 2),
        ]
    );
    assert_eq!(plan[6].conv.out_channels, FEAT_DIM);
}

#[test]
fn only_the_first_layer_is_normalized() {
    let plan = feature_extractor_plan();
    assert_eq!(plan[0].conv_name, "conv_layers.0.conv");
    assert_eq!(plan[6].conv_name, "conv_layers.6.conv");
    assert_eq!(plan[0].norm_name.as_deref(), Some("conv_layers.0.layer_norm"));
    assert!(plan[1..].iter().all(|layer| layer.norm_name.is_none()));
}

#[test]
fn a_frame_lasts_as_long_as_its_stride() {
    let stride: usize = feature_extractor_plan().iter().map(|layer| layer.conv.stride).product();
    assert_eq!(stride, 320);
    assert_eq!(stride as u64 * 1000, FRAME_MILLIS * WHISPER_SAMPLE_RATE as u64);
}

#[test]
fn heads_fill_the_hidden_state() {
    assert_eq!(HEAD_DIM, HIDDEN_SIZE / NUM_HEADS);
    assert_eq!(HEAD_DIM * NUM_HEADS, HIDDEN_SIZE);
}

#[test]
fn layers_are_numbered_in_decimal() {
    let names = indexed_names("encoder.layers.", NUM_LAYERS);
    assert_eq!(names.len(), 12);
    assert_eq!(names[0], "encoder.layers.0");
    assert_eq!(names[9], "encoder.layers.9");
    assert_eq!(names[11], "encoder.layers.11");
}
