//! What holds of the timestamps of aligned words.

use vstd::prelude::*;

use crate::alignment::aligner::{
    alignable_chars, alignable_words, normalized, provided_words, NativeAligner, FRAME_MILLIS,
};
use crate::alignment::forced_align::{
    best_positions, ends_in_parts, first_spoken, known_ids, last_spoken, parts_in,
    spaces_passed, spoken_as_provided, token_id, LogProb, TimedWord,
};
use crate::alignment::text::{is_white_space, joined, lowercased, views, words_of};
use crate::alignment::text_laws::{
    all_words, holds_letter, is_normalized_char, is_word, law_letters_make_parts,
    law_normalized_form, law_parts_are_counted, law_words_are_words,
};
use crate::alignment::viterbi_laws::{
    all_finite, collapsed, law_alignment_is_complete, law_path_spells_targets,
};

verus! {

/// The count of spaces never decreases along a path.
proof fn lemma_spaces_grow(path: Seq<usize>, space: Option<nat>, n: int)
    requires
        0 <= n <= path.len(),
    ensures
        0 <= spaces_passed(path.take(n), space) <= spaces_passed(path, space),
    decreases path.len(),
{
    if n < path.len() {
        assert(path.drop_last().take(n) == path.take(n));
        lemma_spaces_grow(path.drop_last(), space, n);
    } else {
        assert(path.take(n) == path);
        if n > 0 {
            assert(path.drop_last().take(n - 1) == path.drop_last());
            lemma_spaces_grow(path.drop_last(), space, n - 1);
        }
    }
}

/// The first and the last frame of parts belong to them, and parts have both or none.
proof fn lemma_spoken(
    path: Seq<usize>,
    blank_id: usize,
    space: Option<nat>,
    from: int,
    to: int,
)
    ensures
        match (
            first_spoken(path, blank_id, space, from, to),
            last_spoken(path, blank_id, space, from, to),
        ) {
            (Some(first), Some(last)) => {
                &&& 0 <= first <= last < path.len()
                &&& ends_in_parts(path.take(first + 1), blank_id, space, from, to)
                &&& ends_in_parts(path.take(last + 1), blank_id, space, from, to)
            },
            (None, None) => true,
            _ => false,
        },
    decreases path.len(),
{
    if path.len() > 0 {
        let before = path.drop_last();
        lemma_spoken(before, blank_id, space, from, to);
        assert(path.take(path.len() as int) == path);
        if let Some(t) = first_spoken(before, blank_id, space, from, to) {
            assert(before.take(t + 1) == path.take(t + 1));
        }
        if let Some(t) = last_spoken(before, blank_id, space, from, to) {
            assert(before.take(t + 1) == path.take(t + 1));
        }
    }
}

/// No frame of parts comes before their first or after their last.
proof fn lemma_spoken_between(
    path: Seq<usize>,
    blank_id: usize,
    space: Option<nat>,
    from: int,
    to: int,
    t: int,
)
    requires
        0 <= t < path.len(),
        ends_in_parts(path.take(t + 1), blank_id, space, from, to),
    ensures
        first_spoken(path, blank_id, space, from, to) matches Some(first) && first <= t,
        last_spoken(path, blank_id, space, from, to) matches Some(last) && t <= last,
    decreases path.len(),
{
    let before = path.drop_last();
    if t < before.len() {
        assert(before.take(t + 1) == path.take(t + 1));
        lemma_spoken_between(before, blank_id, space, from, to, t);
    } else {
        assert(path.take(t + 1) == path);
        lemma_spoken(before, blank_id, space, from, to);
    }
}

/// As many spaces have been passed at a frame as at any earlier one, or more.
proof fn lemma_spaces_in_order(path: Seq<usize>, space: Option<nat>, t: int, u: int)
    requires
        0 <= t <= u < path.len(),
    ensures
        spaces_passed(path.take(t + 1), space) <= spaces_passed(path.take(u + 1), space),
{
    let upto = path.take(u + 1);
    assert(upto.take(t + 1) == path.take(t + 1));
    lemma_spaces_grow(upto, space, t + 1);
}

/// Parts end before later parts start.
proof fn lemma_parts_apart(
    path: Seq<usize>,
    blank_id: usize,
    space: Option<nat>,
    from: int,
    to: int,
    later_from: int,
    later_to: int,
)
    requires
        to <= later_from,
        last_spoken(path, blank_id, space, from, to) is Some,
        first_spoken(path, blank_id, space, later_from, later_to) is Some,
    ensures
        last_spoken(path, blank_id, space, from, to)->0 < first_spoken(
            path,
            blank_id,
            space,
            later_from,
            later_to,
        )->0,
{
    lemma_spoken(path, blank_id, space, from, to);
    lemma_spoken(path, blank_id, space, later_from, later_to);
    let last = last_spoken(path, blank_id, space, from, to)->0;
    let first = first_spoken(path, blank_id, space, later_from, later_to)->0;
    if first <= last {
        lemma_spaces_in_order(path, space, first, last);
    }
}

/// Whether the timestamps follow one another: none ends before it has started or after `end`,
/// and each ends before the next one starts.
pub open spec fn in_order(words: Seq<TimedWord>, end: nat) -> bool {
    &&& forall|i: int|
        0 <= i < words.len() ==> (#[trigger] words[i]).start <= words[i].end <= end
    &&& forall|i: int, j: int|
        0 <= i < j < words.len() ==> (#[trigger] words[i]).end <= (#[trigger] words[j]).start
}

/// The timestamps of the first words follow one another, and those of later parts come after
/// them.
proof fn lemma_all_before(
    words: Seq<(Seq<char>, nat)>,
    path: Seq<usize>,
    blank_id: usize,
    space: Option<nat>,
    millis: nat,
    from: int,
    to: int,
)
    requires
        from >= parts_in(words),
    ensures
        in_order(spoken_as_provided(words, path, blank_id, space, millis), path.len() * millis),
        first_spoken(path, blank_id, space, from, to) matches Some(t) ==> forall|i: int|
            0 <= i < spoken_as_provided(words, path, blank_id, space, millis).len() ==> (
            #[trigger] spoken_as_provided(words, path, blank_id, space, millis)[i]).end <= t
                * millis,
    decreases words.len(),
{
    if words.len() > 0 {
        let init = words.drop_last();
        let own = parts_in(init) as int;
        let end = parts_in(words) as int;
        lemma_all_before(init, path, blank_id, space, millis, own, end);
        lemma_all_before(init, path, blank_id, space, millis, from, to);
        lemma_spoken(path, blank_id, space, own, end);
        if let Some(first) = first_spoken(path, blank_id, space, own, end) {
            let last = last_spoken(path, blank_id, space, own, end)->0;
            assert(0 <= first * millis <= (last + 1) * millis <= path.len() * millis)
                by (nonlinear_arith)
                requires
                    0 <= first <= last < path.len(),
            ;
            if let Some(t) = first_spoken(path, blank_id, space, from, to) {
                lemma_parts_apart(path, blank_id, space, own, end, from, to);
                assert((last + 1) * millis <= t * millis) by (nonlinear_arith)
                    requires
                        last < t,
                ;
            }
        } else if let Some(t) = first_spoken(path, blank_id, space, from, to) {
            lemma_spoken(path, blank_id, space, from, to);
            assert(0 <= t * millis) by (nonlinear_arith)
                requires
                    0 <= t,
            ;
        }
    }
}

/// The timestamps of a path follow one another and do not outlast the audio.
pub proof fn law_timestamps_in_order(
    words: Seq<(Seq<char>, nat)>,
    path: Seq<usize>,
    blank_id: usize,
    space: Option<nat>,
    millis: nat,
)
    ensures
        in_order(spoken_as_provided(words, path, blank_id, space, millis), path.len() * millis),
{
    let end = parts_in(words) as int;
    lemma_all_before(words, path, blank_id, space, millis, end, end);
}

/// How many of `ids` are the space.
spec fn spaces_in(ids: Seq<usize>, space: Option<nat>) -> int
    decreases ids.len(),
{
    if ids.len() == 0 {
        0
    } else {
        spaces_in(ids.drop_last(), space) + if space == Some(ids.last() as nat) {
            1int
        } else {
            0
        }
    }
}

/// Every token that a path spells, other than the space, gives frames to the part whose number
/// is the count of the spaces before the token.
proof fn lemma_spelled_is_spoken(
    path: Seq<usize>,
    blank_id: usize,
    space: Option<nat>,
    q: int,
)
    requires
        space != Some(blank_id as nat),
    ensures
        spaces_passed(path, space) == spaces_in(collapsed(path, blank_id), space),
        0 <= q < collapsed(path, blank_id).len() && space != Some(
            collapsed(path, blank_id)[q] as nat,
        ) ==> first_spoken(
            path,
            blank_id,
            space,
            spaces_in(collapsed(path, blank_id).take(q), space),
            spaces_in(collapsed(path, blank_id).take(q), space) + 1,
        ) is Some,
    decreases path.len(),
{
    if path.len() > 0 {
        let before = path.drop_last();
        lemma_spelled_is_spoken(before, blank_id, space, q);
        let ids = collapsed(path, blank_id);
        let ids0 = collapsed(before, blank_id);
        if ids != ids0 {
            assert(ids.drop_last() == ids0);
            if q == ids0.len() {
                assert(ids.take(q) == ids0);
            } else if 0 <= q < ids0.len() {
                assert(ids.take(q) == ids0.take(q));
            }
        }
    }
}

/// How many spaces are in `s`.
spec fn blanks_in(s: Seq<char>) -> int
    decreases s.len(),
{
    if s.len() == 0 {
        0
    } else {
        blanks_in(s.drop_last()) + if s.last() == ' ' {
            1int
        } else {
            0
        }
    }
}

/// A word has no spaces.
proof fn lemma_no_blanks(s: Seq<char>, w: Seq<char>)
    requires
        forall|i: int| 0 <= i < w.len() ==> !is_white_space(#[trigger] w[i]),
    ensures
        blanks_in(s + w) == blanks_in(s),
    decreases w.len(),
{
    if w.len() == 0 {
        assert(s + w == s);
    } else {
        assert((s + w).drop_last() == s + w.drop_last());
        assert(!is_white_space(w[w.len() - 1]));
        lemma_no_blanks(s, w.drop_last());
    }
}

/// Joined words have one space less than there are words.
proof fn lemma_blanks_in_joined(words: Seq<Seq<char>>)
    requires
        all_words(words),
        words.len() > 0,
    ensures
        blanks_in(joined(words, seq![' '])) == words.len() - 1,
    decreases words.len(),
{
    if words.len() == 1 {
        assert(is_word(words[0]));
        lemma_no_blanks(Seq::empty(), words[0]);
        assert(Seq::<char>::empty() + words[0] == words[0]);
    } else {
        let before = words.drop_last();
        assert(forall|k: int| 0 <= k < before.len() ==> before[k] == words[k]);
        lemma_blanks_in_joined(before);
        let head = joined(before, seq![' ']);
        assert((head + seq![' ']).drop_last() == head);
        assert(is_word(words.last()));
        lemma_no_blanks(head + seq![' '], words.last());
    }
}

/// Where word `k` starts in the joined text: as many spaces come before as words do.
proof fn lemma_word_start(words: Seq<Seq<char>>, k: int) -> (q: int)
    requires
        all_words(words),
        0 <= k < words.len(),
    ensures
        0 <= q < joined(words, seq![' ']).len(),
        joined(words, seq![' '])[q] != ' ',
        blanks_in(joined(words, seq![' ']).take(q)) == k,
    decreases words.len(),
{
    let whole = joined(words, seq![' ']);
    assert(is_word(words.last()));
    assert(!is_white_space(words.last()[0]));
    if words.len() == 1 {
        assert(whole.take(0) == Seq::<char>::empty());
        0
    } else {
        let before = words.drop_last();
        assert(forall|i: int| 0 <= i < before.len() ==> before[i] == words[i]);
        let head = joined(before, seq![' ']);
        if k < before.len() {
            let q = lemma_word_start(before, k);
            assert(whole.take(q) == head.take(q));
            q
        } else {
            lemma_blanks_in_joined(before);
            let q = head.len() as int + 1;
            assert(whole.take(q) == head + seq![' ']);
            assert((head + seq![' ']).drop_last() == head);
            q
        }
    }
}

/// A token that is found is the one that was asked for.
proof fn lemma_token_id(vocab: Seq<Seq<char>>, key: Seq<char>)
    ensures
        token_id(vocab, key) matches Some(id) ==> id < vocab.len() && vocab[id as int] == key,
    decreases vocab.len(),
{
    if vocab.len() > 0 {
        lemma_token_id(vocab.drop_last(), key);
    }
}

/// Whether the vocabulary has a token for every character of the normalized text, and neither
/// one of these nor the space is the blank.
pub open spec fn can_spell(vocab: Seq<Seq<char>>, blank_id: usize, text: Seq<char>) -> bool {
    &&& forall|i: int|
        0 <= i < normalized(text).len() ==> {
            let id = token_id(vocab, seq![#[trigger] normalized(text)[i]]);
            id is Some && id != Some(blank_id as nat)
        }
    &&& token_id(vocab, seq![' ']) != Some(blank_id as nat)
}

/// If the vocabulary knows every character of a text, then every character has its token.
proof fn lemma_known_ids(vocab: Seq<Seq<char>>, s: Seq<char>, blank_id: usize)
    requires
        vocab.len() <= usize::MAX,
        forall|i: int|
            0 <= i < s.len() ==> is_normalized_char(#[trigger] s[i]) && token_id(
                vocab,
                seq![s[i]],
            ) is Some && token_id(vocab, seq![s[i]]) != Some(blank_id as nat),
    ensures
        known_ids(s, vocab).len() == s.len(),
        !known_ids(s, vocab).contains(blank_id),
        forall|i: int|
            0 <= i < s.len() ==> (token_id(vocab, seq![' ']) == Some(
                (#[trigger] known_ids(s, vocab)[i]) as nat,
            ) <==> s[i] == ' '),
        spaces_in(known_ids(s, vocab), token_id(vocab, seq![' '])) == blanks_in(s),
    decreases s.len(),
{
    if s.len() > 0 {
        let init = s.drop_last();
        assert forall|i: int| 0 <= i < init.len() implies is_normalized_char(#[trigger] init[i])
            && token_id(vocab, seq![init[i]]) is Some && token_id(vocab, seq![init[i]]) != Some(
            blank_id as nat,
        ) by {
            assert(is_normalized_char(s[i]));
        }
        lemma_known_ids(vocab, init, blank_id);
        let c = s[s.len() - 1];
        assert(is_normalized_char(c));
        assert(lowercased(c) == seq![c]);
        lemma_token_id(vocab, seq![c]);
        lemma_token_id(vocab, seq![' ']);
        assert(c != ' ' ==> seq![c][0] != seq![' '][0]);
        let before = known_ids(init, vocab);
        let ids = known_ids(s, vocab);
        let id = token_id(vocab, seq![c])->0;
        assert(ids == before.push(id as usize));
        assert(ids.drop_last() == before);
        assert forall|i: int| 0 <= i < s.len() implies (token_id(vocab, seq![' ']) == Some(
            (#[trigger] ids[i]) as nat,
        ) <==> s[i] == ' ') by {
            if i < init.len() {
                assert(ids[i] == before[i]);
                assert(s[i] == init[i]);
            }
        }
        assert(!ids.contains(blank_id)) by {
            assert forall|i: int| 0 <= i < ids.len() implies ids[i] != blank_id by {
                if i < before.len() {
                    assert(before.contains(before[i]));
                }
            }
        }
    }
}

/// The count of spaces among the tokens of a text is that among its characters, up to every
/// position.
proof fn lemma_spaces_match(vocab: Seq<Seq<char>>, s: Seq<char>, blank_id: usize, q: int)
    requires
        vocab.len() <= usize::MAX,
        0 <= q <= s.len(),
        forall|i: int|
            0 <= i < s.len() ==> is_normalized_char(#[trigger] s[i]) && token_id(
                vocab,
                seq![s[i]],
            ) is Some && token_id(vocab, seq![s[i]]) != Some(blank_id as nat),
    ensures
        known_ids(s, vocab).take(q) == known_ids(s.take(q), vocab),
        spaces_in(known_ids(s, vocab).take(q), token_id(vocab, seq![' '])) == blanks_in(
            s.take(q),
        ),
    decreases s.len(),
{
    lemma_known_ids(vocab, s, blank_id);
    if q < s.len() {
        let init = s.drop_last();
        assert forall|i: int| 0 <= i < init.len() implies is_normalized_char(#[trigger] init[i])
            && token_id(vocab, seq![init[i]]) is Some && token_id(vocab, seq![init[i]]) != Some(
            blank_id as nat,
        ) by {
            assert(is_normalized_char(s[i]));
        }
        lemma_known_ids(vocab, init, blank_id);
        lemma_spaces_match(vocab, init, blank_id, q);
        assert(init.take(q) == s.take(q));
        assert(known_ids(s, vocab).take(q) == known_ids(init, vocab).take(q));
    } else {
        assert(s.take(q) == s);
        assert(known_ids(s, vocab).take(q) == known_ids(s, vocab));
    }
}

/// Whether the aligner finds a complete alignment of the text: its vocabulary can spell the
/// text, there are enough frames, and no log-probability is minus infinity.
pub open spec fn aligns_fully(
    aligner: NativeAligner,
    emissions: Seq<Seq<LogProb>>,
    text: Seq<char>,
) -> bool {
    &&& can_spell(views(aligner.vocab@), aligner.blank_id, text)
    &&& emissions.len() >= aligner.targets_of(text).len()
    &&& all_finite(emissions, aligner.targets_of(text))
}

/// Every alignable part of the text has frames.
proof fn lemma_every_part_is_spoken(
    aligner: NativeAligner,
    emissions: Seq<Seq<LogProb>>,
    text: Seq<char>,
    k: int,
)
    requires
        aligns_fully(aligner, emissions, text),
        0 <= k < alignable_words(text).len(),
    ensures
        first_spoken(
            aligner.path_of(emissions, text),
            aligner.blank_id,
            token_id(views(aligner.vocab@), seq![' ']),
            k,
            k + 1,
        ) is Some,
{
    let vocab = views(aligner.vocab@);
    let blank_id = aligner.blank_id;
    let s = normalized(text);
    let ids = known_ids(s, vocab);
    let positions = best_positions(emissions, aligner.targets_of(text));
    assert(vocab.len() == aligner.vocab.len());
    law_normalized_form(text);
    law_words_are_words(alignable_chars(text));
    lemma_known_ids(vocab, s, blank_id);
    law_alignment_is_complete(emissions, aligner.targets_of(text));
    law_path_spells_targets(ids, blank_id, emissions.len(), positions);
    let q = lemma_word_start(alignable_words(text), k);
    lemma_spaces_match(vocab, s, blank_id, q);
    lemma_spelled_is_spoken(
        aligner.path_of(emissions, text),
        blank_id,
        token_id(vocab, seq![' ']),
        q,
    );
}

/// The timestamps that the aligner gives for a text, which are none if nothing of it can be
/// aligned.
pub open spec fn timestamps(
    aligner: NativeAligner,
    emissions: Seq<Seq<LogProb>>,
    text: Seq<char>,
) -> Seq<TimedWord> {
    if normalized(text).len() == 0 {
        Seq::empty()
    } else {
        spoken_as_provided(
            provided_words(text),
            aligner.path_of(emissions, text),
            aligner.blank_id,
            token_id(views(aligner.vocab@), seq![' ']),
            FRAME_MILLIS as nat,
        )
    }
}

/// The words of timestamps.
pub open spec fn texts_of(timed: Seq<TimedWord>) -> Seq<Seq<char>> {
    Seq::new(timed.len(), |k: int| timed[k].word)
}

/// If the first of some parts has frames, then the parts start with it.
proof fn lemma_starts_with_first_part(
    path: Seq<usize>,
    blank_id: usize,
    space: Option<nat>,
    from: int,
    to: int,
)
    requires
        from < to,
        first_spoken(path, blank_id, space, from, from + 1) is Some,
    ensures
        first_spoken(path, blank_id, space, from, to) == first_spoken(
            path,
            blank_id,
            space,
            from,
            from + 1,
        ),
{
    let first = first_spoken(path, blank_id, space, from, from + 1)->0;
    lemma_spoken(path, blank_id, space, from, from + 1);
    lemma_spoken_between(path, blank_id, space, from, to, first);
    lemma_spoken(path, blank_id, space, from, to);
    let t = first_spoken(path, blank_id, space, from, to)->0;
    lemma_spaces_in_order(path, space, t, first);
    lemma_spoken_between(path, blank_id, space, from, from + 1, t);
}

/// If the last of some parts has frames, then the parts end with it.
proof fn lemma_ends_with_last_part(
    path: Seq<usize>,
    blank_id: usize,
    space: Option<nat>,
    from: int,
    to: int,
)
    requires
        from < to,
        last_spoken(path, blank_id, space, to - 1, to) is Some,
    ensures
        last_spoken(path, blank_id, space, from, to) == last_spoken(
            path,
            blank_id,
            space,
            to - 1,
            to,
        ),
{
    let last = last_spoken(path, blank_id, space, to - 1, to)->0;
    lemma_spoken(path, blank_id, space, to - 1, to);
    lemma_spoken_between(path, blank_id, space, from, to, last);
    lemma_spoken(path, blank_id, space, from, to);
    let t = last_spoken(path, blank_id, space, from, to)->0;
    lemma_spaces_in_order(path, space, last, t);
    lemma_spoken_between(path, blank_id, space, to - 1, to, t);
}

/// The words before others have no more parts than all together.
proof fn lemma_parts_grow(words: Seq<(Seq<char>, nat)>, k: int)
    requires
        0 <= k <= words.len(),
    ensures
        parts_in(words.take(k)) <= parts_in(words),
    decreases words.len(),
{
    if k < words.len() {
        assert(words.drop_last().take(k) == words.take(k));
        lemma_parts_grow(words.drop_last(), k);
    } else {
        assert(words.take(k) == words);
    }
}

/// The timestamp of a word depends on the words up to it alone.
proof fn lemma_timed_at(
    words: Seq<(Seq<char>, nat)>,
    path: Seq<usize>,
    blank_id: usize,
    space: Option<nat>,
    millis: nat,
    k: int,
)
    requires
        0 <= k < words.len(),
    ensures
        spoken_as_provided(words, path, blank_id, space, millis).len() == words.len(),
        spoken_as_provided(words.take(k), path, blank_id, space, millis)
            == spoken_as_provided(words, path, blank_id, space, millis).take(k),
        spoken_as_provided(words, path, blank_id, space, millis)[k] == spoken_as_provided(
            words.take(k + 1),
            path,
            blank_id,
            space,
            millis,
        ).last(),
    decreases words.len(),
{
    let init = words.drop_last();
    let before = spoken_as_provided(init, path, blank_id, space, millis);
    if init.len() > 0 {
        let j = if k < init.len() {
            k
        } else {
            init.len() - 1
        };
        lemma_timed_at(init, path, blank_id, space, millis, j);
    }
    if k < init.len() {
        assert(init.take(k) == words.take(k));
        assert(init.take(k + 1) == words.take(k + 1));
    } else {
        assert(words.take(k) == init);
        assert(words.take(k + 1) == words);
    }
}

/// There is a timestamp for every word, in order.
proof fn lemma_one_for_each(
    words: Seq<(Seq<char>, nat)>,
    path: Seq<usize>,
    blank_id: usize,
    space: Option<nat>,
    millis: nat,
)
    ensures
        texts_of(spoken_as_provided(words, path, blank_id, space, millis)) == Seq::new(
            words.len(),
            |k: int| words[k].0,
        ),
    decreases words.len(),
{
    if words.len() > 0 {
        let init = words.drop_last();
        lemma_one_for_each(init, path, blank_id, space, millis);
        let before = texts_of(spoken_as_provided(init, path, blank_id, space, millis));
        assert(texts_of(spoken_as_provided(words, path, blank_id, space, millis)) == before.push(
            words.last().0,
        ));
    }
}

/// The words come back as they were provided: unless nothing of the text can be aligned, there
/// is one timestamp for every word of the text between white space, in order, and it holds the
/// word with its case and punctuation.
pub proof fn law_words_come_back_as_provided(
    aligner: NativeAligner,
    emissions: Seq<Seq<LogProb>>,
    text: Seq<char>,
)
    requires
        normalized(text).len() > 0,
    ensures
        texts_of(timestamps(aligner, emissions, text)) == words_of(text),
{
    lemma_one_for_each(
        provided_words(text),
        aligner.path_of(emissions, text),
        aligner.blank_id,
        token_id(views(aligner.vocab@), seq![' ']),
        FRAME_MILLIS as nat,
    );
}

/// Every word that holds a letter or an apostrophe gets time: it lasts from the first frame of
/// its first part to the end of the last frame of its last part, and both parts have frames.
pub proof fn law_every_word_is_timed(
    aligner: NativeAligner,
    emissions: Seq<Seq<LogProb>>,
    text: Seq<char>,
    k: int,
)
    requires
        aligns_fully(aligner, emissions, text),
        0 <= k < words_of(text).len(),
        holds_letter(words_of(text)[k]),
    ensures
        ({
            let path = aligner.path_of(emissions, text);
            let space = token_id(views(aligner.vocab@), seq![' ']);
            let from = parts_in(provided_words(text).take(k)) as int;
            let to = from + provided_words(text)[k].1;
            let first = first_spoken(path, aligner.blank_id, space, from, from + 1);
            let last = last_spoken(path, aligner.blank_id, space, to - 1, to);
            let timed = timestamps(aligner, emissions, text)[k];
            &&& first is Some && last is Some && first->0 <= last->0
            &&& timed.start == first->0 * FRAME_MILLIS
            &&& timed.end == (last->0 + 1) * FRAME_MILLIS
            &&& timed.start < timed.end
        }),
{
    let words = provided_words(text);
    let path = aligner.path_of(emissions, text);
    let blank_id = aligner.blank_id;
    let space = token_id(views(aligner.vocab@), seq![' ']);
    let from = parts_in(words.take(k)) as int;
    let to = from + words[k].1;
    law_letters_make_parts(words_of(text)[k]);
    assert(words.take(k + 1).drop_last() == words.take(k));
    assert(words.take(k + 1).last() == words[k]);
    lemma_parts_grow(words, k + 1);
    law_parts_are_counted(text);
    law_words_are_words(alignable_chars(text));
    let _ = lemma_word_start(alignable_words(text), 0);
    lemma_every_part_is_spoken(aligner, emissions, text, from);
    lemma_every_part_is_spoken(aligner, emissions, text, to - 1);
    lemma_spoken(path, blank_id, space, to - 1, to);
    lemma_starts_with_first_part(path, blank_id, space, from, to);
    lemma_ends_with_last_part(path, blank_id, space, from, to);
    lemma_spoken(path, blank_id, space, from, to);
    lemma_timed_at(words, path, blank_id, space, FRAME_MILLIS as nat, k);
    let first = first_spoken(path, blank_id, space, from, to)->0;
    let last = last_spoken(path, blank_id, space, from, to)->0;
    assert(0 <= first * FRAME_MILLIS < (last + 1) * FRAME_MILLIS) by (nonlinear_arith)
        requires
            0 <= first <= last,
            FRAME_MILLIS == 20,
    ;
}

/// No frame belongs to no part.
proof fn lemma_no_parts(path: Seq<usize>, blank_id: usize, space: Option<nat>, from: int)
    ensures
        first_spoken(path, blank_id, space, from, from) is None,
        last_spoken(path, blank_id, space, from, from) is None,
    decreases path.len(),
{
    if path.len() > 0 {
        lemma_no_parts(path.drop_last(), blank_id, space, from);
    }
}

/// A word without a letter or an apostrophe takes no time: it starts and ends where the word
/// before it ends, or with the audio if it is the first.
pub proof fn law_other_words_take_no_time(
    aligner: NativeAligner,
    emissions: Seq<Seq<LogProb>>,
    text: Seq<char>,
    k: int,
)
    requires
        normalized(text).len() > 0,
        0 <= k < words_of(text).len(),
        !holds_letter(words_of(text)[k]),
    ensures
        ({
            let timed = timestamps(aligner, emissions, text);
            &&& timed[k].start == timed[k].end
            &&& timed[k].start == if k == 0 {
                0
            } else {
                timed[k - 1].end
            }
        }),
{
    let words = provided_words(text);
    let path = aligner.path_of(emissions, text);
    let blank_id = aligner.blank_id;
    let space = token_id(views(aligner.vocab@), seq![' ']);
    law_letters_make_parts(words_of(text)[k]);
    assert(words.take(k + 1).drop_last() == words.take(k));
    assert(words.take(k + 1).last() == words[k]);
    lemma_no_parts(path, blank_id, space, parts_in(words.take(k)) as int);
    lemma_timed_at(words, path, blank_id, space, FRAME_MILLIS as nat, k);
    let timed = timestamps(aligner, emissions, text);
    assert(k > 0 ==> timed.take(k).last() == timed[k - 1]);
}

/// How many runs of the token `space` begin before frame `t` of the path.
pub open spec fn space_runs(path: Seq<usize>, space: Option<nat>, t: int) -> int
    decreases t,
{
    if t <= 0 {
        0
    } else {
        space_runs(path, space, t - 1) + if space == Some(path[t - 1] as nat) && (t == 1 || path[t
            - 2] != path[t - 1]) {
            1int
        } else {
            0
        }
    }
}

/// How many parts the words before word `k` have.
pub open spec fn parts_before(words: Seq<(Seq<char>, nat)>, k: int) -> int
    decreases k,
{
    if k <= 0 {
        0
    } else {
        parts_before(words, k - 1) + words[k - 1].1
    }
}

/// Whether frame `t` is a frame of word `k`: its token is neither the blank nor the space, and
/// the number of runs of the space before it is the number of a part of the word.
pub open spec fn is_frame_of(
    words: Seq<(Seq<char>, nat)>,
    path: Seq<usize>,
    blank_id: usize,
    space: Option<nat>,
    k: int,
    t: int,
) -> bool {
    &&& 0 <= t < path.len()
    &&& path[t] != blank_id
    &&& space != Some(path[t] as nat)
    &&& parts_before(words, k) <= space_runs(path, space, t) < parts_before(words, k + 1)
}

/// Spaces are counted by their runs.
proof fn lemma_space_runs(path: Seq<usize>, space: Option<nat>, n: int)
    requires
        0 <= n <= path.len(),
    ensures
        spaces_passed(path.take(n), space) == space_runs(path, space, n),
    decreases n,
{
    if n > 0 {
        assert(path.take(n).drop_last() == path.take(n - 1));
        lemma_space_runs(path, space, n - 1);
    }
}

/// The parts before a word are those of the words before it.
proof fn lemma_parts_before(words: Seq<(Seq<char>, nat)>, k: int)
    requires
        0 <= k <= words.len(),
    ensures
        parts_in(words.take(k)) == parts_before(words, k),
    decreases k,
{
    if k > 0 {
        assert(words.take(k).drop_last() == words.take(k - 1));
        lemma_parts_before(words, k - 1);
    }
}

/// A frame of a word is one at which the path ends in its parts.
proof fn lemma_frame_of(
    words: Seq<(Seq<char>, nat)>,
    path: Seq<usize>,
    blank_id: usize,
    space: Option<nat>,
    k: int,
    t: int,
)
    requires
        0 <= t < path.len(),
        0 <= k < words.len(),
    ensures
        is_frame_of(words, path, blank_id, space, k, t) <==> ends_in_parts(
            path.take(t + 1),
            blank_id,
            space,
            parts_in(words.take(k)) as int,
            parts_in(words.take(k + 1)) as int,
        ),
{
    lemma_parts_before(words, k);
    lemma_parts_before(words, k + 1);
    lemma_space_runs(path, space, t);
    assert(path.take(t + 1).drop_last() == path.take(t));
    assert(path.take(t + 1).last() == path[t]);
}

/// Every frame of a word lies in the time of the word.
pub proof fn law_frames_lie_in_their_words(
    words: Seq<(Seq<char>, nat)>,
    path: Seq<usize>,
    blank_id: usize,
    space: Option<nat>,
    millis: nat,
    k: int,
    t: int,
)
    requires
        0 <= k < words.len(),
        is_frame_of(words, path, blank_id, space, k, t),
    ensures
        ({
            let timed = spoken_as_provided(words, path, blank_id, space, millis);
            &&& timed.len() == words.len()
            &&& timed[k].word == words[k].0
            &&& timed[k].start <= t * millis
            &&& (t + 1) * millis <= timed[k].end
        }),
{
    let from = parts_in(words.take(k)) as int;
    let to = parts_in(words.take(k + 1)) as int;
    lemma_frame_of(words, path, blank_id, space, k, t);
    lemma_timed_at(words, path, blank_id, space, millis, k);
    assert(words.take(k + 1).drop_last() == words.take(k));
    lemma_spoken_between(path, blank_id, space, from, to, t);
    lemma_spoken(path, blank_id, space, from, to);
    let first = first_spoken(path, blank_id, space, from, to)->0;
    let last = last_spoken(path, blank_id, space, from, to)->0;
    assert(0 <= first * millis <= t * millis && (t + 1) * millis <= (last + 1) * millis)
        by (nonlinear_arith)
        requires
            0 <= first <= t <= last,
    ;
}

/// A word that has frames starts with the first of the frames that are given back and ends with
/// the last. A word that has none takes no time, at the end of the word before it or, if there
/// is none before it, at the start of the audio.
pub proof fn law_words_start_and_end_with_frames(
    words: Seq<(Seq<char>, nat)>,
    path: Seq<usize>,
    blank_id: usize,
    space: Option<nat>,
    millis: nat,
    k: int,
) -> (frames: Option<(int, int)>)
    requires
        0 <= k < words.len(),
    ensures
        ({
            let timed = spoken_as_provided(words, path, blank_id, space, millis);
            &&& timed.len() == words.len()
            &&& timed[k].word == words[k].0
            &&& match frames {
                Some((first, last)) => {
                    &&& is_frame_of(words, path, blank_id, space, k, first)
                    &&& is_frame_of(words, path, blank_id, space, k, last)
                    &&& timed[k].start == first * millis
                    &&& timed[k].end == (last + 1) * millis
                },
                None => {
                    &&& forall|t: int| !#[trigger] is_frame_of(words, path, blank_id, space, k, t)
                    &&& timed[k].start == timed[k].end
                    &&& timed[k].start == if k == 0 {
                        0
                    } else {
                        timed[k - 1].end
                    }
                },
            }
        }),
{
    let from = parts_in(words.take(k)) as int;
    let to = parts_in(words.take(k + 1)) as int;
    let timed = spoken_as_provided(words, path, blank_id, space, millis);
    lemma_timed_at(words, path, blank_id, space, millis, k);
    assert(words.take(k + 1).drop_last() == words.take(k));
    assert(words.take(k + 1).last() == words[k]);
    lemma_spoken(path, blank_id, space, from, to);
    match (
        first_spoken(path, blank_id, space, from, to),
        last_spoken(path, blank_id, space, from, to),
    ) {
        (Some(first), Some(last)) => {
            lemma_frame_of(words, path, blank_id, space, k, first);
            lemma_frame_of(words, path, blank_id, space, k, last);
            assert(0 <= first * millis && 0 <= (last + 1) * millis) by (nonlinear_arith)
                requires
                    0 <= first <= last,
            ;
            Some((first, last))
        },
        _ => {
            assert forall|t: int| !#[trigger] is_frame_of(words, path, blank_id, space, k, t) by {
                if is_frame_of(words, path, blank_id, space, k, t) {
                    lemma_frame_of(words, path, blank_id, space, k, t);
                    lemma_spoken_between(path, blank_id, space, from, to, t);
                }
            }
            assert(k > 0 ==> timed.take(k).last() == timed[k - 1]);
            None
        },
    }
}

} // verus!
