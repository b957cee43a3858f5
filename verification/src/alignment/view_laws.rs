//! What the views keep: every element, in order, with all that it holds.

use vstd::prelude::*;

use crate::alignment::aligner::members;
use crate::alignment::ar_decoder::{by_step, captured, referred, weights};
use crate::alignment::dtw_decoder::{decoded, framed_texts, optional_views, TokenInfo};
use crate::alignment::forced_align::{
    counted_words, id_of, rows, timed_words, WordTimestamp,
};
use crate::alignment::text::views;

verus! {

/// Timestamps are seen with their words, starts and ends.
pub proof fn law_timestamps_are_seen(v: Seq<WordTimestamp>, k: int)
    requires
        0 <= k < v.len(),
    ensures
        timed_words(v).len() == v.len(),
        timed_words(v)[k].word == v[k].word@,
        timed_words(v)[k].start == v[k].start_sec.millis,
        timed_words(v)[k].end == v[k].end_sec.millis,
{
}

/// Decoded tokens are seen with their texts, starts and ends.
pub proof fn law_tokens_are_seen(v: Seq<TokenInfo>, k: int)
    requires
        0 <= k < v.len(),
    ensures
        framed_texts(v).len() == v.len(),
        framed_texts(v)[k].text == v[k].text@,
        framed_texts(v)[k].start == v[k].start_frame,
        framed_texts(v)[k].end == v[k].end_frame,
{
}

/// Strings are seen with all their characters.
pub proof fn law_strings_are_seen(v: Seq<String>, k: int)
    requires
        0 <= k < v.len(),
    ensures
        views(v).len() == v.len(),
        views(v)[k] == v[k]@,
{
}

/// Texts that may be missing are seen as they are.
pub proof fn law_optional_texts_are_seen(v: Seq<Option<String>>, k: int)
    requires
        0 <= k < v.len(),
    ensures
        optional_views(v).len() == v.len(),
        v[k] is None ==> optional_views(v)[k] is None,
        v[k] matches Some(text) ==> optional_views(v)[k] == Some(text@),
{
}

/// The texts of tokens are those that the tokens have.
pub proof fn law_decoded_tokens_have_their_texts(
    tokens: Seq<u32>,
    texts: Map<u32, Option<Seq<char>>>,
    k: int,
)
    requires
        0 <= k < tokens.len(),
    ensures
        decoded(tokens, texts).len() == tokens.len(),
        decoded(tokens, texts)[k] == texts[tokens[k]],
{
}

/// The members of a vocabulary are seen with their IDs.
pub proof fn law_members_are_seen(v: Seq<(String, Option<u64>)>, k: int)
    requires
        0 <= k < v.len(),
    ensures
        members(v).len() == v.len(),
        members(v)[k] == (v[k].0@, v[k].1),
{
}

/// Words are seen with the numbers of their parts.
pub proof fn law_counted_words_are_seen(v: Seq<(String, usize)>, k: int)
    requires
        0 <= k < v.len(),
    ensures
        counted_words(v).len() == v.len(),
        counted_words(v)[k].0 == v[k].0@,
        counted_words(v)[k].1 == v[k].1,
{
}

/// The rows of a matrix are seen whole.
pub proof fn law_rows_are_seen<T>(m: Seq<Vec<T>>, k: int)
    requires
        0 <= k < m.len(),
    ensures
        rows(m).len() == m.len(),
        rows(m)[k] == m[k]@,
{
}

/// An ID is seen as the number that it is.
pub proof fn law_ids_are_seen(id: Option<usize>)
    ensures
        id is None ==> id_of(id) is None,
        id matches Some(n) ==> id_of(id) == Some(n as nat),
{
}

/// Captured weights are seen by layer and step, and turned round by step and layer.
pub proof fn law_weights_are_seen<T>(v: Seq<Vec<T>>, layer: int, step: int)
    requires
        0 <= layer < v.len(),
        0 <= step < v[0]@.len(),
    ensures
        weights(v).len() == v.len(),
        weights(v)[layer] == v[layer]@,
        by_step(weights(v)).len() == v[0]@.len(),
        by_step(weights(v))[step].len() == v.len(),
        by_step(weights(v))[step][layer] == v[layer]@[step],
{
}

/// References to weights are seen as the weights that they refer to.
pub proof fn law_references_are_seen<T>(v: Seq<Vec<&T>>, step: int, layer: int)
    requires
        0 <= step < v.len(),
        0 <= layer < v[step]@.len(),
    ensures
        referred(v).len() == v.len(),
        referred(v)[step].len() == v[step]@.len(),
        referred(v)[step][layer] == *v[step]@[layer],
{
}

/// A capture adds the weights behind those of its layer and leaves the other layers alone.
pub proof fn law_capture_adds_to_one_layer<T>(
    before: Seq<Seq<T>>,
    layer: int,
    w: T,
    other: int,
)
    requires
        0 <= layer < before.len(),
        0 <= other < before.len(),
    ensures
        captured(before, layer, w).len() == before.len(),
        captured(before, layer, w)[layer] == before[layer].push(w),
        other != layer ==> captured(before, layer, w)[other] == before[other],
{
}

} // verus!
