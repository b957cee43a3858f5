//! What holds of the targets that a text is turned into.

use vstd::prelude::*;

use crate::alignment::aligner::{normalized, NativeAligner};
use crate::alignment::forced_align::{
    best_positions, interleaved, known_ids, token_id, tokens_at, LogProb,
};
use crate::alignment::text::{lowercase_of, lowercased, views};

verus! {

/// The ID of a token is the last place at which the vocabulary holds it, and there is one if the
/// vocabulary holds the token anywhere.
pub proof fn law_token_stands_at_its_last_place(vocab: Seq<Seq<char>>, key: Seq<char>)
    ensures
        match token_id(vocab, key) {
            Some(id) => {
                &&& id < vocab.len() && vocab[id as int] == key
                &&& forall|j: int| id < j < vocab.len() ==> #[trigger] vocab[j] != key
            },
            None => forall|j: int| 0 <= j < vocab.len() ==> #[trigger] vocab[j] != key,
        },
    decreases vocab.len(),
{
    if vocab.len() > 0 {
        let init = vocab.drop_last();
        assert(forall|j: int| 0 <= j < init.len() ==> init[j] == vocab[j]);
        assert(vocab.last() == vocab[vocab.len() - 1]);
        law_token_stands_at_its_last_place(init, key);
        if vocab.last() != key {
            match token_id(init, key) {
                Some(id) => {
                    assert forall|j: int| id < j < vocab.len() implies #[trigger] vocab[j] != key by {
                        if j < init.len() {
                            assert(init[j] != key);
                        }
                    }
                },
                None => {
                    assert forall|j: int| 0 <= j < vocab.len() implies #[trigger] vocab[j] != key by {
                        if j < init.len() {
                            assert(init[j] != key);
                        }
                    }
                },
            }
        }
    }
}

/// In ASCII the capitals become small letters and every other character stays as it is; the
/// lowercase form of any other character is what the standard library gives.
pub proof fn law_lowercase_form(c: char)
    ensures
        c as int <= 127 ==> lowercased(c).len() == 1 && lowercased(c)[0] as int == c as int + if 'A'
            <= c <= 'Z' {
            32int
        } else {
            0
        },
        c as int > 127 ==> lowercased(c) == lowercase_of(c),
{
}

/// Every character is looked up by its own lowercase form, whatever stands around it, and left
/// out if the vocabulary does not hold that.
pub proof fn law_characters_are_looked_up_one_by_one(
    a: Seq<char>,
    c: char,
    b: Seq<char>,
    vocab: Seq<Seq<char>>,
)
    ensures
        known_ids(a + b, vocab) == known_ids(a, vocab) + known_ids(b, vocab),
        known_ids(Seq::empty(), vocab) == Seq::<usize>::empty(),
        known_ids(seq![c], vocab) == match token_id(vocab, lowercased(c)) {
            Some(id) => seq![id as usize],
            None => Seq::empty(),
        },
    decreases b.len(),
{
    assert(seq![c].drop_last() == Seq::<char>::empty());
    assert(known_ids(Seq::empty(), vocab) == Seq::<usize>::empty());
    if b.len() == 0 {
        assert(a + b == a);
        assert(known_ids(a, vocab) + known_ids(b, vocab) == known_ids(a, vocab));
    } else {
        law_characters_are_looked_up_one_by_one(a, c, b.drop_last(), vocab);
        assert((a + b).drop_last() == a + b.drop_last());
        assert((a + b).last() == b.last());
    }
}

/// Where every character is known, each has its own ID.
proof fn lemma_own_ids(text: Seq<char>, vocab: Seq<Seq<char>>)
    requires
        vocab.len() <= usize::MAX,
        forall|i: int| 0 <= i < text.len() ==> vocab.contains(lowercased(#[trigger] text[i])),
    ensures
        known_ids(text, vocab).len() == text.len(),
        forall|i: int|
            0 <= i < text.len() ==> token_id(vocab, lowercased(text[i])) == Some(
                (#[trigger] known_ids(text, vocab)[i]) as nat,
            ),
    decreases text.len(),
{
    if text.len() > 0 {
        let init = text.drop_last();
        assert(forall|i: int| 0 <= i < init.len() ==> init[i] == text[i]);
        lemma_own_ids(init, vocab);
        let c = text[text.len() - 1];
        assert(vocab.contains(lowercased(c)));
        law_token_stands_at_its_last_place(vocab, lowercased(c));
        let before = known_ids(init, vocab);
        assert forall|i: int| 0 <= i < text.len() implies token_id(vocab, lowercased(text[i]))
            == Some((#[trigger] known_ids(text, vocab)[i]) as nat) by {
            if i < init.len() {
                assert(known_ids(text, vocab)[i] == before[i]);
                assert(init[i] == text[i]);
            }
        }
    }
}

/// The targets spell the text: if the vocabulary holds the lowercase form of every character,
/// then there is one target for every character, between blanks, and at that place of the
/// vocabulary, and at none behind it, stands the lowercase form of the character.
pub proof fn law_targets_spell_text(
    text: Seq<char>,
    vocab: Seq<Seq<char>>,
    blank_id: usize,
    i: int,
)
    requires
        vocab.len() <= usize::MAX,
        forall|k: int| 0 <= k < text.len() ==> vocab.contains(lowercased(#[trigger] text[k])),
        0 <= i < text.len(),
    ensures
        ({
            let targets = interleaved(known_ids(text, vocab), blank_id);
            &&& targets.len() == 2 * text.len() + 1
            &&& targets[2 * i] == blank_id
            &&& targets.last() == blank_id
            &&& targets[2 * i + 1] < vocab.len()
            &&& vocab[targets[2 * i + 1] as int] == lowercased(text[i])
            &&& forall|j: int|
                targets[2 * i + 1] < j < vocab.len() ==> #[trigger] vocab[j] != lowercased(text[i])
        }),
{
    lemma_own_ids(text, vocab);
    law_token_stands_at_its_last_place(vocab, lowercased(text[i]));
    let targets = interleaved(known_ids(text, vocab), blank_id);
    assert(targets[2 * i + 1] == known_ids(text, vocab)[i]);
}

/// What the aligner aligns: the targets are those of the normalized text, with the vocabulary
/// and the blank of the aligner, and the path has in every frame the target at the position
/// that the best alignment has in it.
pub proof fn law_aligner_aligns_normalized_text(
    aligner: NativeAligner,
    emissions: Seq<Seq<LogProb>>,
    text: Seq<char>,
)
    ensures
        aligner.targets_of(text) == interleaved(
            known_ids(normalized(text), views(aligner.vocab@)),
            aligner.blank_id,
        ),
        aligner.path_of(emissions, text) == tokens_at(
            aligner.targets_of(text),
            best_positions(emissions, aligner.targets_of(text)),
        ),
{
}

} // verus!
