//! The fixed architecture of wav2vec2-base-960h.

use vstd::prelude::*;

use crate::alignment::aligner::{FRAME_MILLIS, WHISPER_SAMPLE_RATE};
use crate::alignment::text::{decimal, indexed_name};

verus! {

pub const HIDDEN_SIZE: usize = 768;

pub const FEAT_DIM: usize = 512;

pub const NUM_HEADS: usize = 12;

pub const HEAD_DIM: usize = 64;

pub const INTERMEDIATE_SIZE: usize = 3072;

pub const NUM_LAYERS: usize = 12;

pub const VOCAB_SIZE: usize = 32;

pub const POS_CONV_KERNEL: usize = 128;

pub const POS_CONV_GROUPS: usize = 16;

/// A convolution of the feature extractor.
#[derive(Debug, Clone, Copy, PartialEq, Eq, Structural)]
pub struct ConvSpec {
    pub in_channels: usize,
    pub out_channels: usize,
    pub kernel: usize,
    pub stride: usize,
}

/// A layer of the feature extractor: the convolution, and the names under which its weights
/// and those of its normalization are stored. Only the first layer has a normalization.
#[derive(Debug, Clone)]
pub struct CnnLayerPlan {
    pub conv: ConvSpec,
    pub conv_name: String,
    pub norm_name: Option<String>,
}

/// The convolution of layer `i`.
pub open spec fn cnn_layer(i: int) -> ConvSpec {
    ConvSpec {
        in_channels: if i == 0 {
            1
        } else {
            512
        },
        out_channels: 512,
        kernel: if i == 0 {
            10
        } else if i <= 4 {
            3
        } else {
            2
        },
        stride: if i == 0 {
            5
        } else {
            2
        },
    }
}

/// Whether `plan` is the plan of layer `i`.
pub open spec fn is_plan_of(plan: CnnLayerPlan, i: int) -> bool {
    &&& plan.conv == cnn_layer(i)
    &&& plan.conv_name@ == "conv_layers."@ + decimal(i as nat) + ".conv"@
    &&& match plan.norm_name {
        Some(name) => i == 0 && name@ == "conv_layers."@ + decimal(i as nat) + ".layer_norm"@,
        None => i != 0,
    }
}

/// The convolution of layer `i`.
fn conv_spec(i: usize) -> (r: ConvSpec)
    ensures
        r == cnn_layer(i as int),
{
    if i == 0 {
        ConvSpec { in_channels: 1, out_channels: 512, kernel: 10, stride: 5 }
    } else if i <= 4 {
        ConvSpec { in_channels: 512, out_channels: 512, kernel: 3, stride: 2 }
    } else {
        ConvSpec { in_channels: 512, out_channels: 512, kernel: 2, stride: 2 }
    }
}

/// The plan of the seven layers of the feature extractor.
pub fn feature_extractor_plan() -> (plan: Vec<CnnLayerPlan>)
    ensures
        plan@.len() == 7,
        forall|i: int| 0 <= i < 7 ==> is_plan_of(#[trigger] plan@[i], i),
        forall|i: int|
            0 <= i < 7 ==> (#[trigger] plan@[i]).conv_name@ == "conv_layers."@ + decimal(i as nat)
                + ".conv"@,
        forall|i: int|
            0 <= i < 7 ==> match (#[trigger] plan@[i]).norm_name {
                Some(name) => i == 0 && name@ == "conv_layers."@ + decimal(0) + ".layer_norm"@,
                None => i > 0,
            },
        plan@[0].conv == (ConvSpec { in_channels: 1, out_channels: 512, kernel: 10, stride: 5 }),
        forall|i: int|
            1 <= i < 7 ==> (#[trigger] plan@[i]).conv == (ConvSpec {
                in_channels: 512,
                out_channels: 512,
                kernel: if i <= 4 {
                    3
                } else {
                    2
                },
                stride: 2,
            }),
{
    let mut plan: Vec<CnnLayerPlan> = Vec::new();
    for i in 0..7usize
        invariant
            plan@.len() == i,
            forall|k: int| 0 <= k < i ==> is_plan_of(#[trigger] plan@[k], k),
    {
        let norm_name: Option<String> = if i == 0 {
            Some(indexed_name("conv_layers.", i, ".layer_norm"))
        } else {
            None
        };
        plan.push(
            CnnLayerPlan {
                conv: conv_spec(i),
                conv_name: indexed_name("conv_layers.", i, ".conv"),
                norm_name,
            },
        );
    }
    plan
}

/// How many samples the first `n` layers take from one of their frames to the next.
pub open spec fn stride_of(n: int) -> int
    decreases n,
{
    if n <= 0 {
        1
    } else {
        stride_of(n - 1) * cnn_layer(n - 1).stride
    }
}

/// Every layer takes the channels that the layer before it gives, the first takes the single
/// channel of the audio, and the last gives the features that are projected.
pub proof fn law_channels_fit(i: int)
    requires
        0 < i < 7,
    ensures
        cnn_layer(0).in_channels == 1,
        cnn_layer(i).in_channels == cnn_layer(i - 1).out_channels,
        cnn_layer(6).out_channels == FEAT_DIM,
{
}

/// The layers together turn audio of the expected sample rate into frames that last as long as
/// the aligner takes a frame to last.
pub proof fn law_frame_duration()
    ensures
        stride_of(7) * 1000 == FRAME_MILLIS * WHISPER_SAMPLE_RATE,
{
    reveal_with_fuel(stride_of, 8);
    assert(stride_of(7) == 320);
    assert(FRAME_MILLIS * WHISPER_SAMPLE_RATE == 320000) by (nonlinear_arith)
        requires
            FRAME_MILLIS == 20,
            WHISPER_SAMPLE_RATE == 16000,
    ;
}

/// The heads share the hidden state without a remainder.
pub proof fn law_heads_fill_hidden_state()
    ensures
        HEAD_DIM * NUM_HEADS == HIDDEN_SIZE,
{
    assert(HEAD_DIM * NUM_HEADS == 768) by (nonlinear_arith)
        requires
            HEAD_DIM == 64,
            NUM_HEADS == 12,
    ;
}

} // verus!
