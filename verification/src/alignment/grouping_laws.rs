//! What holds of the words that aligned tokens are grouped into.

use vstd::prelude::*;

use crate::alignment::dtw_decoder::{
    aligned_texts, frame_millis, law_ranges_cover_audio, pieces, token_ranges, words_in,
    FramedText, HOP_LENGTH,
};
use crate::alignment::forced_align::TimedWord;
use crate::alignment::text::{
    begins_with_space, is_white_space, trimmed, trimmed_end, trimmed_start,
};
use crate::alignment::text_laws::law_trimming_removes_white_space;

verus! {

/// The texts of all pieces, one after the other.
pub open spec fn whole_text(tokens: Seq<FramedText>) -> Seq<char>
    decreases tokens.len(),
{
    if tokens.len() == 0 {
        Seq::empty()
    } else {
        whole_text(tokens.drop_last()) + tokens.last().text
    }
}

/// Putting tokens together into pieces loses no text.
pub proof fn law_grouping_keeps_text(tokens: Seq<FramedText>)
    ensures
        whole_text(pieces(tokens)) == whole_text(tokens),
    decreases tokens.len(),
{
    if tokens.len() > 0 {
        let before = pieces(tokens.drop_last());
        let token = tokens.last();
        law_grouping_keeps_text(tokens.drop_last());
        if before.len() == 0 || begins_with_space(token.text) {
            assert(before.push(token).drop_last() == before);
        } else {
            let after = pieces(tokens);
            assert(after.drop_last() == before.drop_last());
            assert(whole_text(after) == whole_text(before.drop_last()) + (before.last().text
                + token.text));
            assert(whole_text(tokens) == (whole_text(before.drop_last()) + before.last().text)
                + token.text);
        }
    }
}

/// Pieces begin exactly where a token begins with a space: every piece but the first begins
/// with one, and there are as many pieces as such tokens, or one more if the first token
/// does not begin with a space.
pub proof fn law_pieces_begin_at_spaces(tokens: Seq<FramedText>)
    ensures
        forall|k: int|
            0 < k < pieces(tokens).len() ==> begins_with_space(
                (#[trigger] pieces(tokens)[k]).text,
            ),
        tokens.len() > 0 ==> pieces(tokens).len() == starts_in(tokens) + if begins_with_space(
            tokens[0].text,
        ) {
            0int
        } else {
            1
        },
        tokens.len() == 0 ==> pieces(tokens).len() == 0,
    decreases tokens.len(),
{
    if tokens.len() > 0 {
        law_pieces_begin_at_spaces(tokens.drop_last());
        let before = pieces(tokens.drop_last());
        assert forall|k: int| 0 < k < pieces(tokens).len() implies begins_with_space(
            (#[trigger] pieces(tokens)[k]).text,
        ) by {
            if k < before.len() {
                assert(begins_with_space(before[k].text));
            }
        }
        if tokens.len() == 1 {
            assert(tokens.drop_last().len() == 0);
            assert(starts_in(tokens.drop_last()) == 0);
        }
    }
}

/// How many tokens begin with a space.
pub open spec fn starts_in(tokens: Seq<FramedText>) -> int
    decreases tokens.len(),
{
    if tokens.len() == 0 {
        0
    } else {
        starts_in(tokens.drop_last()) + if begins_with_space(tokens.last().text) {
            1int
        } else {
            0
        }
    }
}

/// What is left when white space is removed at the start does not begin with white space.
proof fn lemma_trimmed_start(s: Seq<char>)
    ensures
        trimmed_start(s).len() > 0 ==> !is_white_space(trimmed_start(s)[0]),
    decreases s.len(),
{
    if s.len() > 0 && is_white_space(s[0]) {
        lemma_trimmed_start(s.drop_first());
    }
}

/// What is left when white space is removed at the end does not end in white space, and begins
/// as before.
proof fn lemma_trimmed_end(s: Seq<char>)
    ensures
        trimmed_end(s).len() <= s.len(),
        trimmed_end(s).len() > 0 ==> !is_white_space(trimmed_end(s).last()) && trimmed_end(s)[0]
            == s[0],
    decreases s.len(),
{
    if s.len() > 0 && is_white_space(s.last()) {
        lemma_trimmed_end(s.drop_last());
    }
}

/// Whether a word has characters and neither the first nor the last is white space.
pub open spec fn is_trimmed(word: Seq<char>) -> bool {
    &&& word.len() > 0
    &&& !is_white_space(word[0])
    &&& !is_white_space(word.last())
}

/// No word is empty, and none has white space at its ends.
pub proof fn law_words_are_trimmed(pieces: Seq<FramedText>)
    ensures
        forall|k: int|
            0 <= k < words_in(pieces).len() ==> is_trimmed((#[trigger] words_in(pieces)[k]).word),
    decreases pieces.len(),
{
    if pieces.len() > 0 {
        let before = words_in(pieces.drop_last());
        law_words_are_trimmed(pieces.drop_last());
        lemma_trimmed_start(pieces.last().text);
        lemma_trimmed_end(trimmed_start(pieces.last().text));
        assert forall|k: int| 0 <= k < words_in(pieces).len() implies is_trimmed(
            (#[trigger] words_in(pieces)[k]).word,
        ) by {
            if k < before.len() {
                assert(is_trimmed(before[k].word));
            }
        }
    }
}

/// Whether the ranges of frames lie in the first `end` frames, none of them is empty, and
/// their starts and ends never decrease.
pub open spec fn frames_grow(tokens: Seq<FramedText>, end: int) -> bool {
    &&& forall|i: int|
        0 <= i < tokens.len() ==> 0 <= (#[trigger] tokens[i]).start < tokens[i].end <= end
    &&& forall|i: int, j: int|
        0 <= i < j < tokens.len() ==> (#[trigger] tokens[i]).start <= (#[trigger] tokens[j]).start
            && tokens[i].end <= tokens[j].end
}

/// Whether no word ends after `end` or before it has started, and starts and
/// ends never decrease.
pub open spec fn times_grow(words: Seq<TimedWord>, end: nat) -> bool {
    &&& forall|i: int|
        0 <= i < words.len() ==> (#[trigger] words[i]).start < words[i].end <= end
    &&& forall|i: int, j: int|
        0 <= i < j < words.len() ==> (#[trigger] words[i]).start <= (#[trigger] words[j]).start
            && words[i].end <= words[j].end
}

/// A frame lasts ten milliseconds.
proof fn lemma_frame_millis(frame: int)
    requires
        frame >= 0,
    ensures
        frame_millis(frame) == 10 * frame,
{
    assert(frame * HOP_LENGTH * 1000 == 160000 * frame)
        by (nonlinear_arith)
        requires
            HOP_LENGTH == 160,
    ;
}

/// Pieces grow as their tokens do.
proof fn lemma_pieces_grow(tokens: Seq<FramedText>, end: int)
    requires
        frames_grow(tokens, end),
    ensures
        frames_grow(pieces(tokens), end),
        tokens.len() > 0 ==> {
            &&& pieces(tokens).len() > 0
            &&& pieces(tokens).last().start <= tokens.last().start
            &&& pieces(tokens).last().end == tokens.last().end
        },
    decreases tokens.len(),
{
    if tokens.len() > 0 {
        let init = tokens.drop_last();
        assert(frames_grow(init, end)) by {
            assert(forall|i: int| 0 <= i < init.len() ==> init[i] == tokens[i]);
        }
        lemma_pieces_grow(init, end);
        if init.len() > 0 {
            assert(init.last() == tokens[init.len() - 1]);
            assert(tokens[init.len() - 1].start <= tokens[tokens.len() - 1].start);
            assert(tokens[init.len() - 1].end <= tokens[tokens.len() - 1].end);
        }
        assert(tokens.last() == tokens[tokens.len() - 1]);
        let before = pieces(init);
        let after = pieces(tokens);
        assert forall|i: int| 0 <= i < after.len() implies 0 <= (#[trigger] after[i]).start
            < after[i].end <= end by {
            if i < before.len() {
                assert(0 <= before[i].start < before[i].end <= end);
            }
        }
        assert forall|i: int, j: int| 0 <= i < j < after.len() implies (#[trigger] after[i]).start
            <= (#[trigger] after[j]).start && after[i].end <= after[j].end by {
            assert(before[i].end <= before.last().end);
            assert(before[i].start <= before.last().start);
            if j < before.len() {
                assert(before[i].start <= before[j].start);
            }
        }
    }
}

/// Words grow as their pieces do.
proof fn lemma_words_grow(pieces: Seq<FramedText>, end: int)
    requires
        frames_grow(pieces, end),
        end >= 0,
    ensures
        times_grow(words_in(pieces), frame_millis(end)),
        pieces.len() > 0 ==> forall|i: int|
            0 <= i < words_in(pieces).len() ==> (#[trigger] words_in(pieces)[i]).start
                <= frame_millis(pieces.last().start) && words_in(pieces)[i].end <= frame_millis(
                pieces.last().end,
            ),
    decreases pieces.len(),
{
    if pieces.len() > 0 {
        let init = pieces.drop_last();
        assert(frames_grow(init, end)) by {
            assert(forall|i: int| 0 <= i < init.len() ==> init[i] == pieces[i]);
        }
        lemma_words_grow(init, end);
        let last = pieces[pieces.len() - 1];
        lemma_frame_millis(last.start);
        lemma_frame_millis(last.end);
        lemma_frame_millis(end);
        if init.len() > 0 {
            let previous = pieces[init.len() - 1];
            assert(previous.start <= last.start && previous.end <= last.end);
            lemma_frame_millis(previous.start);
            lemma_frame_millis(previous.end);
        }
    }
}

/// Words keep the order of their tokens: if the starts and ends of the tokens never decrease
/// then neither do those of the words.
pub proof fn law_words_keep_order(tokens: Seq<FramedText>, end: int)
    requires
        frames_grow(tokens, end),
        end >= 0,
    ensures
        times_grow(words_in(pieces(tokens)), frame_millis(end)),
{
    lemma_pieces_grow(tokens, end);
    lemma_words_grow(pieces(tokens), end);
}

/// Starts and ends never decrease from one token to any later one.
proof fn lemma_ranges_grow(attention: Seq<Seq<i64>>, i: int, j: int)
    requires
        0 < attention.len() <= usize::MAX,
        0 < attention[0].len() <= usize::MAX,
        0 <= i <= j < attention.len(),
    ensures
        token_ranges(attention)[i].1 <= token_ranges(attention)[j].1,
        token_ranges(attention)[i].2 <= token_ranges(attention)[j].2,
    decreases j - i,
{
    law_ranges_cover_audio(attention);
    if i < j {
        let range = token_ranges(attention)[i];
        let next = token_ranges(attention)[i + 1];
        assert(range.2 - 1 <= next.1);
        assert(range.1 < range.2);
        assert(next.1 < next.2);
        lemma_ranges_grow(attention, i + 1, j);
    }
}

/// The texts of the first `n` tokens keep the order of their ranges.
proof fn lemma_texts_grow(
    attention: Seq<Seq<i64>>,
    texts: Seq<Option<Seq<char>>>,
    n: int,
)
    requires
        0 < attention.len() <= usize::MAX,
        0 < attention[0].len() <= usize::MAX,
        0 <= n <= attention.len(),
    ensures
        ({
            let framed = aligned_texts(token_ranges(attention).take(n), texts);
            &&& frames_grow(framed, attention[0].len() as int)
            &&& n > 0 ==> forall|i: int|
                0 <= i < framed.len() ==> (#[trigger] framed[i]).start <= token_ranges(
                    attention,
                )[n - 1].1 && framed[i].end <= token_ranges(attention)[n - 1].2
        }),
    decreases n,
{
    law_ranges_cover_audio(attention);
    if n > 0 {
        let ranges = token_ranges(attention);
        assert(ranges.take(n).drop_last() == ranges.take(n - 1));
        assert(ranges.take(n).last() == ranges[n - 1]);
        lemma_texts_grow(attention, texts, n - 1);
        if n > 1 {
            lemma_ranges_grow(attention, n - 2, n - 1);
        }
    }
}

/// The words that come out of an alignment are in order: none is empty in time, none outlasts
/// the audio, and their starts and ends never decrease.
pub proof fn law_aligned_words_in_order(
    attention: Seq<Seq<i64>>,
    texts: Seq<Option<Seq<char>>>,
)
    requires
        attention.len() <= usize::MAX,
        attention.len() > 0 ==> attention[0].len() <= usize::MAX,
    ensures
        times_grow(
            words_in(pieces(aligned_texts(token_ranges(attention), texts))),
            if attention.len() == 0 {
                0
            } else {
                frame_millis(attention[0].len() as int)
            },
        ),
{
    let ranges = token_ranges(attention);
    if attention.len() == 0 || attention[0].len() == 0 {
        assert(aligned_texts(ranges, texts) == Seq::<FramedText>::empty());
        assert(pieces(Seq::<FramedText>::empty()) == Seq::<FramedText>::empty());
        assert(words_in(Seq::<FramedText>::empty()) == Seq::<TimedWord>::empty());
    } else {
        law_ranges_cover_audio(attention);
        lemma_texts_grow(attention, texts, attention.len() as int);
        assert(ranges.take(attention.len() as int) == ranges);
        law_words_keep_order(
            aligned_texts(ranges, texts),
            attention[0].len() as int,
        );
    }
}

/// Frame `frame` starts ten milliseconds times its number after the audio does.
pub proof fn law_frame_lasts_ten_milliseconds(frame: int)
    requires
        frame >= 0,
    ensures
        frame_millis(frame) == 10 * frame,
{
    lemma_frame_millis(frame);
}

/// Whether the text holds a character other than white space.
pub open spec fn is_visible(text: Seq<char>) -> bool {
    exists|i: int| 0 <= i < text.len() && !is_white_space(#[trigger] text[i])
}

/// Whether `word` is `text` without the white space at its ends.
pub open spec fn is_trim_of(word: Seq<char>, text: Seq<char>) -> bool {
    exists|a: int, b: int| #[trigger] trims_to(text, a, b, word)
}

/// Whether `word` stands between the positions `a` and `b` of `text`, with nothing but white
/// space outside and no white space at the ends.
pub open spec fn trims_to(text: Seq<char>, a: int, b: int, word: Seq<char>) -> bool {
    &&& 0 <= a < b <= text.len()
    &&& word == text.subrange(a, b)
    &&& !is_white_space(text[a]) && !is_white_space(text[b - 1])
    &&& forall|i: int| (0 <= i < a || b <= i < text.len()) ==> is_white_space(#[trigger] text[i])
}

/// Trimming leaves something of a text if and only if it holds more than white space.
proof fn lemma_trimmed_visible(text: Seq<char>)
    ensures
        trimmed(text).len() > 0 <==> is_visible(text),
        is_visible(text) ==> is_trim_of(trimmed(text), text),
{
    let (a, b) = law_trimming_removes_white_space(text);
    if a < b {
        assert(trims_to(text, a, b, trimmed(text)));
        assert(!is_white_space(text[a]));
    }
}

/// No word is lost and none is added: for every piece that holds more than white space, and for
/// no other, there is a word, in order. It is the text of the piece without the white space at
/// its ends, and it starts and ends with the piece. What is given back are the numbers of the
/// pieces.
pub proof fn law_every_piece_gives_its_word(pieces: Seq<FramedText>) -> (kept: Seq<int>)
    requires
        forall|i: int|
            0 <= i < pieces.len() ==> (#[trigger] pieces[i]).start >= 0 && pieces[i].end >= 0,
    ensures
        kept.len() == words_in(pieces).len(),
        forall|k: int| 0 <= k < kept.len() ==> 0 <= #[trigger] kept[k] < pieces.len(),
        forall|j: int, k: int| 0 <= j < k < kept.len() ==> #[trigger] kept[j] < #[trigger] kept[k],
        forall|i: int|
            0 <= i < pieces.len() ==> (is_visible((#[trigger] pieces[i]).text) <==> kept.contains(
                i,
            )),
        forall|k: int|
            0 <= k < kept.len() ==> {
                let word = #[trigger] words_in(pieces)[k];
                let piece = pieces[kept[k]];
                &&& is_trim_of(word.word, piece.text)
                &&& word.start == 10 * piece.start
                &&& word.end == 10 * piece.end
            },
    decreases pieces.len(),
{
    if pieces.len() == 0 {
        Seq::empty()
    } else {
        let init = pieces.drop_last();
        let last = pieces.len() - 1;
        let piece = pieces[last];
        assert(forall|i: int| 0 <= i < init.len() ==> init[i] == pieces[i]);
        let before = law_every_piece_gives_its_word(init);
        lemma_trimmed_visible(piece.text);
        lemma_frame_millis(piece.start);
        lemma_frame_millis(piece.end);
        let kept = if is_visible(piece.text) {
            before.push(last)
        } else {
            before
        };
        assert forall|i: int| 0 <= i < pieces.len() implies (is_visible(
            (#[trigger] pieces[i]).text,
        ) <==> kept.contains(i)) by {
            if i < last {
                assert(init[i] == pieces[i]);
                assert(is_visible(init[i].text) <==> before.contains(i));
                if before.contains(i) {
                    let q = choose|q: int| 0 <= q < before.len() && before[q] == i;
                    assert(kept[q] == i);
                }
                if kept.contains(i) {
                    let q = choose|q: int| 0 <= q < kept.len() && kept[q] == i;
                    assert(before[q] == i);
                }
            } else {
                if is_visible(piece.text) {
                    assert(kept[before.len() as int] == last);
                }
                if kept.contains(i) && !is_visible(piece.text) {
                    let q = choose|q: int| 0 <= q < kept.len() && kept[q] == i;
                    assert(0 <= before[q] < init.len());
                }
            }
        }
        assert forall|k: int| 0 <= k < kept.len() implies {
            let word = #[trigger] words_in(pieces)[k];
            let piece = pieces[kept[k]];
            &&& is_trim_of(word.word, piece.text)
            &&& word.start == 10 * piece.start
            &&& word.end == 10 * piece.end
        } by {
            if k < before.len() {
                assert(words_in(pieces)[k] == words_in(init)[k]);
                assert(0 <= before[k] < init.len());
                assert(init[before[k]] == pieces[kept[k]]);
            }
        }
        kept
    }
}

/// The characters of a text other than white space.
pub open spec fn visible(s: Seq<char>) -> Seq<char>
    decreases s.len(),
{
    if s.len() == 0 {
        Seq::empty()
    } else if is_white_space(s.last()) {
        visible(s.drop_last())
    } else {
        visible(s.drop_last()).push(s.last())
    }
}

/// The texts of all words, one after the other.
pub open spec fn whole_words(words: Seq<TimedWord>) -> Seq<char>
    decreases words.len(),
{
    if words.len() == 0 {
        Seq::empty()
    } else {
        whole_words(words.drop_last()) + words.last().word
    }
}

/// The visible characters of two texts are those of one and then of the other.
proof fn lemma_visible_concat(a: Seq<char>, b: Seq<char>)
    ensures
        visible(a + b) == visible(a) + visible(b),
    decreases b.len(),
{
    if b.len() == 0 {
        assert(a + b == a);
        assert(visible(a) + visible(b) == visible(a));
    } else {
        lemma_visible_concat(a, b.drop_last());
        assert((a + b).drop_last() == a + b.drop_last());
        assert((a + b).last() == b.last());
    }
}

/// White space has no visible characters.
proof fn lemma_nothing_visible(s: Seq<char>)
    requires
        forall|i: int| 0 <= i < s.len() ==> is_white_space(#[trigger] s[i]),
    ensures
        visible(s) == Seq::<char>::empty(),
    decreases s.len(),
{
    if s.len() > 0 {
        assert(is_white_space(s[s.len() - 1]));
        assert(forall|i: int| 0 <= i < s.drop_last().len() ==> s.drop_last()[i] == s[i]);
        lemma_nothing_visible(s.drop_last());
    }
}

/// Trimming keeps the visible characters.
proof fn lemma_trimmed_keeps_visible(s: Seq<char>)
    ensures
        visible(trimmed(s)) == visible(s),
{
    let (a, b) = law_trimming_removes_white_space(s);
    let head = s.take(a);
    let tail = s.skip(b);
    assert(s == head + trimmed(s) + tail);
    assert(forall|i: int| 0 <= i < head.len() ==> head[i] == s[i]);
    assert(forall|i: int| 0 <= i < tail.len() ==> tail[i] == s[b + i]);
    lemma_nothing_visible(head);
    lemma_nothing_visible(tail);
    lemma_visible_concat(head, trimmed(s));
    lemma_visible_concat(head + trimmed(s), tail);
}

/// No character is lost and none is added: but for white space, the words say what the tokens
/// say.
pub proof fn law_words_say_what_tokens_say(tokens: Seq<FramedText>)
    ensures
        visible(whole_words(words_in(pieces(tokens)))) == visible(whole_text(tokens)),
{
    law_grouping_keeps_text(tokens);
    lemma_words_say_what_pieces_say(pieces(tokens));
}

/// But for white space, the words say what the pieces say.
proof fn lemma_words_say_what_pieces_say(pieces: Seq<FramedText>)
    ensures
        visible(whole_words(words_in(pieces))) == visible(whole_text(pieces)),
    decreases pieces.len(),
{
    if pieces.len() > 0 {
        let init = pieces.drop_last();
        let text = pieces.last().text;
        lemma_words_say_what_pieces_say(init);
        lemma_trimmed_keeps_visible(text);
        lemma_visible_concat(whole_text(init), text);
        lemma_visible_concat(whole_words(words_in(init)), trimmed(text));
        if trimmed(text).len() == 0 {
            assert(trimmed(text) == Seq::<char>::empty());
            assert(visible(trimmed(text)) == Seq::<char>::empty());
            assert(visible(whole_text(init)) + visible(text) == visible(whole_text(init)));
        } else {
            assert(words_in(pieces).drop_last() == words_in(init));
        }
    }
}

/// A token that begins with a space starts anew: what stands before it is put together on its
/// own, and so is it with what follows.
pub proof fn law_space_starts_anew(a: Seq<FramedText>, b: Seq<FramedText>)
    requires
        b.len() > 0,
        b[0].text.len() > 0 && b[0].text[0] == ' ',
    ensures
        pieces(a + b) == pieces(a) + pieces(b),
    decreases b.len(),
{
    let whole = a + b;
    let init = b.drop_last();
    assert(whole.drop_last() == a + init);
    assert(whole.last() == b.last());
    let first = pieces(a);
    if b.len() == 1 {
        assert(a + init == a);
        assert(pieces(init) == Seq::<FramedText>::empty());
        assert(pieces(b) == seq![b[0]]);
        assert(first.push(b[0]) == first + seq![b[0]]);
    } else {
        law_space_starts_anew(a, init);
        lemma_some_piece(init);
        let second = pieces(init);
        let token = b.last();
        if begins_with_space(token.text) {
            assert((first + second).push(token) == first + second.push(token));
        } else {
            let piece = second.last();
            let grown = FramedText {
                text: piece.text + token.text,
                start: piece.start,
                end: token.end,
            };
            assert((first + second).last() == piece);
            assert((first + second).update(first.len() + second.len() - 1, grown) == first
                + second.update(second.len() - 1, grown));
        }
    }
}

/// Tokens give pieces.
proof fn lemma_some_piece(tokens: Seq<FramedText>)
    ensures
        tokens.len() > 0 <==> pieces(tokens).len() > 0,
    decreases tokens.len(),
{
    if tokens.len() > 0 {
        lemma_some_piece(tokens.drop_last());
    }
}

/// Tokens of which none but the first begins with a space are one piece: it holds their texts,
/// starts where the first of them does and ends where the last does.
pub proof fn law_tokens_without_space_are_one_piece(tokens: Seq<FramedText>)
    requires
        tokens.len() > 0,
        forall|i: int|
            0 < i < tokens.len() ==> !((#[trigger] tokens[i]).text.len() > 0 && tokens[i].text[0]
                == ' '),
    ensures
        pieces(tokens).len() == 1,
        pieces(tokens)[0].text == whole_text(tokens),
        pieces(tokens)[0].start == tokens[0].start,
        pieces(tokens)[0].end == tokens.last().end,
    decreases tokens.len(),
{
    let init = tokens.drop_last();
    if tokens.len() == 1 {
        assert(pieces(init) == Seq::<FramedText>::empty());
        assert(whole_text(init) == Seq::<char>::empty());
        assert(whole_text(tokens) == tokens[0].text);
    } else {
        assert(forall|i: int| 0 <= i < init.len() ==> init[i] == tokens[i]);
        law_tokens_without_space_are_one_piece(init);
        assert(tokens.last() == tokens[tokens.len() - 1]);
    }
}

/// Every entry of an alignment is looked up on its own: it gives the text of its token with its
/// frames, unless there is no such token or it has no text.
pub proof fn law_texts_are_looked_up_one_by_one(
    a: Seq<(usize, usize, usize)>,
    entry: (usize, usize, usize),
    b: Seq<(usize, usize, usize)>,
    texts: Seq<Option<Seq<char>>>,
)
    ensures
        aligned_texts(a + b, texts) == aligned_texts(a, texts) + aligned_texts(b, texts),
        aligned_texts(Seq::empty(), texts) == Seq::<FramedText>::empty(),
        ({
            let found = aligned_texts(seq![entry], texts);
            if entry.0 < texts.len() && texts[entry.0 as int] is Some && texts[entry.0 as int]->0.len()
                > 0 {
                &&& found.len() == 1
                &&& found[0].text == texts[entry.0 as int]->0
                &&& found[0].start == entry.1
                &&& found[0].end == entry.2
            } else {
                found.len() == 0
            }
        }),
    decreases b.len(),
{
    assert(seq![entry].drop_last() == Seq::<(usize, usize, usize)>::empty());
    assert(aligned_texts(Seq::empty(), texts) == Seq::<FramedText>::empty());
    if b.len() == 0 {
        assert(a + b == a);
        assert(aligned_texts(a, texts) + aligned_texts(b, texts) == aligned_texts(a, texts));
    } else {
        law_texts_are_looked_up_one_by_one(a, entry, b.drop_last(), texts);
        assert((a + b).drop_last() == a + b.drop_last());
        assert((a + b).last() == b.last());
    }
}

} // verus!
