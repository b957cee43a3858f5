//! What holds of the vocabulary that is read from a file.

use vstd::prelude::*;

use crate::alignment::aligner::{
    first_without_id, max_id, pad_id, token_with_id, vocab_form,
};
use crate::alignment::text::lowercase_str_of;

verus! {

/// The vocabulary is the file turned round: at the ID of a token stands that token. Where
/// several tokens have the same ID it is the last of them.
pub proof fn law_token_stands_at_its_id(entries: Seq<(Seq<char>, Option<u64>)>, i: int, id: u64)
    requires
        0 <= i < entries.len(),
        entries[i].1 == Some(id),
        forall|j: int| i < j < entries.len() ==> (#[trigger] entries[j]).1 != Some(id),
    ensures
        token_with_id(entries, id as int) == vocab_form(entries[i].0),
    decreases entries.len(),
{
    if i < entries.len() - 1 {
        assert(entries[entries.len() - 1].1 != Some(id));
        let before = entries.drop_last();
        assert(forall|j: int| i < j < before.len() ==> before[j] == entries[j]);
        law_token_stands_at_its_id(before, i, id);
    }
}

/// At an ID that no token has stands the empty token.
pub proof fn law_unused_id_is_empty(entries: Seq<(Seq<char>, Option<u64>)>, id: u64)
    requires
        forall|j: int| 0 <= j < entries.len() ==> (#[trigger] entries[j]).1 != Some(id),
    ensures
        token_with_id(entries, id as int) == Seq::<char>::empty(),
    decreases entries.len(),
{
    if entries.len() > 0 {
        assert(entries[entries.len() - 1].1 != Some(id));
        let before = entries.drop_last();
        assert(forall|j: int| 0 <= j < before.len() ==> before[j] == entries[j]);
        law_unused_id_is_empty(before, id);
    }
}

/// The blank is the padding token.
pub proof fn law_blank_is_padding(entries: Seq<(Seq<char>, Option<u64>)>, i: int, id: u64)
    requires
        0 <= i < entries.len(),
        entries[i] == ("<pad>"@, Some(id)),
        forall|j: int| i < j < entries.len() ==> (#[trigger] entries[j]).0 != "<pad>"@,
    ensures
        pad_id(entries) == id,
    decreases entries.len(),
{
    if i < entries.len() - 1 {
        assert(entries[entries.len() - 1].0 != "<pad>"@);
        let before = entries.drop_last();
        assert(forall|j: int| i < j < before.len() ==> before[j] == entries[j]);
        law_blank_is_padding(before, i, id);
    }
}

/// The word boundary `|` becomes a space. In every other token of ASCII characters the capitals
/// become small letters and the rest stays; the form of any other token is what the standard
/// library gives as its lowercase form.
pub proof fn law_token_form(token: Seq<char>)
    ensures
        token == seq!['|'] ==> vocab_form(token) == seq![' '],
        token != seq!['|'] && (forall|i: int| 0 <= i < token.len() ==> (#[trigger] token[i]) as int
            <= 127) ==> {
            &&& vocab_form(token).len() == token.len()
            &&& forall|i: int|
                0 <= i < token.len() ==> (#[trigger] vocab_form(token)[i]) as int == token[i] as int
                    + if 'A' <= token[i] <= 'Z' {
                    32int
                } else {
                    0
                }
        },
        token != seq!['|'] && (exists|i: int| 0 <= i < token.len() && (#[trigger] token[i]) as int
            > 127) ==> vocab_form(token) == lowercase_str_of(token),
{
}

/// No ID is beyond the greatest, and a token has that, unless there is none at all.
pub proof fn law_greatest_id(entries: Seq<(Seq<char>, Option<u64>)>)
    ensures
        forall|i: int|
            0 <= i < entries.len() ==> ((#[trigger] entries[i]).1 matches Some(id) ==> id <= max_id(
                entries,
            )),
        max_id(entries) > 0 ==> exists|i: int|
            0 <= i < entries.len() && (#[trigger] entries[i]).1 == Some(max_id(entries)),
    decreases entries.len(),
{
    if entries.len() > 0 {
        let init = entries.drop_last();
        let last = entries.len() - 1;
        law_greatest_id(init);
        assert(entries.last() == entries[last]);
        assert forall|i: int| 0 <= i < entries.len() implies ((#[trigger] entries[i]).1 matches Some(
            id,
        ) ==> id <= max_id(entries)) by {
            if i < last {
                assert(init[i] == entries[i]);
            }
        }
        if max_id(entries) > 0 {
            if entries[last].1 == Some(max_id(entries)) {
            } else {
                assert(max_id(entries) == max_id(init));
                let i = choose|i: int|
                    0 <= i < init.len() && (#[trigger] init[i]).1 == Some(max_id(init));
                assert(entries[i] == init[i]);
            }
        }
    }
}

/// The token that is reported is the first whose ID is not an integer, and none is reported
/// only if there is none.
pub proof fn law_first_without_id_is_reported(entries: Seq<(Seq<char>, Option<u64>)>) -> (i: int)
    ensures
        match first_without_id(entries) {
            Some(token) => {
                &&& 0 <= i < entries.len() && entries[i] == (token, None::<u64>)
                &&& forall|j: int| 0 <= j < i ==> (#[trigger] entries[j]).1 is Some
            },
            None => forall|j: int| 0 <= j < entries.len() ==> (#[trigger] entries[j]).1 is Some,
        },
    decreases entries.len(),
{
    if entries.len() == 0 {
        0
    } else {
        let init = entries.drop_last();
        assert(forall|j: int| 0 <= j < init.len() ==> init[j] == entries[j]);
        assert(entries.last() == entries[entries.len() - 1]);
        let i = law_first_without_id_is_reported(init);
        if first_without_id(init) is Some {
            assert(init[i] == entries[i]);
            assert forall|j: int| 0 <= j < i implies (#[trigger] entries[j]).1 is Some by {
                assert(init[j].1 is Some);
            }
            i
        } else {
            assert forall|j: int| 0 <= j < init.len() implies (#[trigger] entries[j]).1 is Some by {
                assert(init[j].1 is Some);
            }
            entries.len() - 1
        }
    }
}

/// Without a padding token the blank is token 0.
pub proof fn law_blank_without_padding(entries: Seq<(Seq<char>, Option<u64>)>)
    requires
        forall|j: int| 0 <= j < entries.len() ==> (#[trigger] entries[j]).0 != "<pad>"@,
    ensures
        pad_id(entries) == 0,
    decreases entries.len(),
{
    if entries.len() > 0 {
        assert(entries[entries.len() - 1].0 != "<pad>"@);
        let before = entries.drop_last();
        assert(forall|j: int| 0 <= j < before.len() ==> before[j] == entries[j]);
        law_blank_without_padding(before);
    }
}

} // verus!
