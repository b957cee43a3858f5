//! What holds of words and of normalized text.

use vstd::prelude::*;

use crate::alignment::aligner::{
    alignable, alignable_chars, alignable_words, normalized, provided_words,
};
use crate::alignment::forced_align::parts_in;
use crate::alignment::text::{
    decimal, digit, is_ascii_letter, is_white_space, joined, replaced, trimmed, trimmed_end,
    trimmed_start, words_of,
};

verus! {

/// Whether `w` is a word: not empty, and without white space.
pub open spec fn is_word(w: Seq<char>) -> bool {
    w.len() > 0 && forall|i: int| 0 <= i < w.len() ==> !is_white_space(#[trigger] w[i])
}

/// Whether all of `words` are words.
pub open spec fn all_words(words: Seq<Seq<char>>) -> bool {
    forall|k: int| 0 <= k < words.len() ==> is_word(#[trigger] words[k])
}

/// What a text is split into are words.
pub proof fn law_words_are_words(s: Seq<char>)
    ensures
        all_words(words_of(s)),
        s.len() > 0 && !is_white_space(s.last()) ==> words_of(s).len() > 0,
    decreases s.len(),
{
    if s.len() > 0 {
        law_words_are_words(s.drop_last());
        let before = words_of(s.drop_last());
        if !is_white_space(s.last()) && s.len() > 1 && !is_white_space(s[s.len() - 2]) {
            assert(s.drop_last().last() == s[s.len() - 2]);
            assert(is_word(before.last()));
            assert(is_word(before.last().push(s.last())));
        } else if !is_white_space(s.last()) {
            assert(is_word(seq![s.last()]));
        }
    }
}

/// A word on its own is split into itself.
proof fn lemma_one_word(w: Seq<char>)
    requires
        is_word(w),
    ensures
        words_of(w) == seq![w],
    decreases w.len(),
{
    let before = w.drop_last();
    assert(!is_white_space(w.last()));
    if w.len() == 1 {
        assert(words_of(before) == Seq::<Seq<char>>::empty());
        assert(w == seq![w.last()]);
    } else {
        lemma_one_word(before);
        assert(!is_white_space(w[w.len() - 2]));
        assert(before.push(w.last()) == w);
    }
}

/// A space and a word behind a text add the word to its words.
proof fn lemma_word_after_space(s: Seq<char>, w: Seq<char>)
    requires
        is_word(w),
    ensures
        words_of(s + seq![' '] + w) == words_of(s).push(w),
    decreases w.len(),
{
    let whole = s + seq![' '] + w;
    let before = w.drop_last();
    assert(whole.drop_last() == s + seq![' '] + before);
    assert(whole.last() == w.last());
    assert(!is_white_space(w.last()));
    if w.len() == 1 {
        assert(before == Seq::<char>::empty());
        assert(whole.drop_last().drop_last() == s);
        assert(whole.drop_last().last() == ' ');
        assert(words_of(whole.drop_last()) == words_of(s));
        assert(w == seq![w.last()]);
    } else {
        lemma_word_after_space(s, before);
        assert(whole[whole.len() - 2] == w[w.len() - 2]);
        assert(!is_white_space(w[w.len() - 2]));
        assert(before.push(w.last()) == w);
        let words = words_of(s);
        assert(words.push(before).update(words.len() as int, w) == words.push(w));
    }
}

/// Splitting undoes joining with spaces.
pub proof fn law_split_undoes_join(words: Seq<Seq<char>>)
    requires
        all_words(words),
    ensures
        words_of(joined(words, seq![' '])) == words,
    decreases words.len(),
{
    if words.len() == 1 {
        assert(is_word(words[0]));
        lemma_one_word(words[0]);
    } else if words.len() > 1 {
        let before = words.drop_last();
        assert(all_words(before)) by {
            assert(forall|k: int| 0 <= k < before.len() ==> before[k] == words[k]);
        }
        law_split_undoes_join(before);
        assert(is_word(words.last()));
        lemma_word_after_space(joined(before, seq![' ']), words.last());
        assert(before.push(words.last()) == words);
    }
}

/// The words of the normalized text are the alignable words of the text.
pub proof fn law_normalizing_keeps_words(text: Seq<char>)
    ensures
        words_of(normalized(text)) == alignable_words(text),
{
    law_words_are_words(alignable_chars(text));
    law_split_undoes_join(alignable_words(text));
}

/// Whether `c` can stand in a normalized text.
pub open spec fn is_normalized_char(c: char) -> bool {
    'a' <= c <= 'z' || c == '\'' || c == ' '
}

/// Whether `s` is in normalized form: small letters, apostrophes and single spaces, none of
/// which stands at an end.
pub open spec fn is_normalized(s: Seq<char>) -> bool {
    &&& forall|i: int| 0 <= i < s.len() ==> is_normalized_char(#[trigger] s[i])
    &&& s.len() > 0 ==> s[0] != ' ' && s.last() != ' '
    &&& forall|i: int, j: int|
        0 <= i && j == i + 1 && j < s.len() ==> !(#[trigger] s[i] == ' ' && #[trigger] s[j] == ' ')
}

/// The alignable characters of a text can stand in a normalized text.
proof fn lemma_alignable_chars(text: Seq<char>)
    ensures
        forall|i: int|
            0 <= i < alignable_chars(text).len() ==> is_normalized_char(
                #[trigger] alignable_chars(text)[i],
            ),
    decreases text.len(),
{
    if text.len() > 0 {
        lemma_alignable_chars(text.drop_last());
        let before = alignable_chars(text.drop_last());
        assert forall|i: int| 0 <= i < alignable_chars(text).len() implies is_normalized_char(
            #[trigger] alignable_chars(text)[i],
        ) by {
            if i < before.len() {
                assert(is_normalized_char(before[i]));
                assert(alignable_chars(text)[i] == before[i]);
            }
        }
    }
}

/// The characters of the words of a text are among those of the text.
proof fn lemma_chars_of_words(s: Seq<char>)
    requires
        forall|i: int| 0 <= i < s.len() ==> is_normalized_char(#[trigger] s[i]),
    ensures
        forall|k: int, i: int|
            0 <= k < words_of(s).len() && 0 <= i < words_of(s)[k].len() ==> is_normalized_char(
                #[trigger] words_of(s)[k][i],
            ),
    decreases s.len(),
{
    if s.len() > 0 {
        assert(is_normalized_char(s.last()));
        assert forall|i: int| 0 <= i < s.drop_last().len() implies is_normalized_char(
            #[trigger] s.drop_last()[i],
        ) by {
            assert(is_normalized_char(s[i]));
        }
        lemma_chars_of_words(s.drop_last());
        law_words_are_words(s.drop_last());
    }
}

/// Words of normalized characters, joined with spaces, are in normalized form.
proof fn lemma_joined_form(words: Seq<Seq<char>>)
    requires
        all_words(words),
        forall|k: int, i: int|
            0 <= k < words.len() && 0 <= i < words[k].len() ==> is_normalized_char(
                #[trigger] words[k][i],
            ),
    ensures
        is_normalized(joined(words, seq![' '])),
        words.len() > 0 ==> joined(words, seq![' ']).len() > 0,
    decreases words.len(),
{
    if words.len() == 1 {
        assert(is_word(words[0]));
        assert(is_white_space(' '));
        assert(forall|i: int| 0 <= i < words[0].len() ==> is_normalized_char(words[0][i]));
    } else if words.len() > 1 {
        let before = words.drop_last();
        assert(forall|k: int| 0 <= k < before.len() ==> before[k] == words[k]);
        assert(all_words(before));
        assert forall|k: int, i: int|
            0 <= k < before.len() && 0 <= i < before[k].len() implies is_normalized_char(
            #[trigger] before[k][i],
        ) by {
            assert(is_normalized_char(words[k][i]));
        }
        lemma_joined_form(before);
        let w = words.last();
        let head = joined(before, seq![' ']);
        let whole = head + seq![' '] + w;
        assert(is_word(w));
        assert(is_white_space(' '));
        assert forall|i: int| 0 <= i < whole.len() implies is_normalized_char(
            #[trigger] whole[i],
        ) by {
            if i < head.len() {
                assert(whole[i] == head[i]);
            } else if i > head.len() {
                assert(whole[i] == w[i - head.len() - 1]);
                assert(is_normalized_char(words[words.len() - 1][i - head.len() - 1]));
            }
        }
        assert forall|i: int, j: int| 0 <= i && j == i + 1 && j < whole.len() implies !(
        #[trigger] whole[i] == ' ' && #[trigger] whole[j] == ' ') by {
            if j < head.len() {
                assert(whole[i] == head[i] && whole[j] == head[j]);
            } else if j == head.len() {
                assert(whole[i] == head.last());
            } else {
                assert(whole[j] == w[j - head.len() - 1]);
            }
        }
        assert(whole[0] == head[0]);
        assert(whole.last() == w.last());
    }
}

/// Normalizing yields a text in normalized form: only the letters a to z, apostrophes and
/// spaces, and the spaces collapsed.
pub proof fn law_normalized_form(text: Seq<char>)
    ensures
        is_normalized(normalized(text)),
{
    lemma_alignable_chars(text);
    law_words_are_words(alignable_chars(text));
    lemma_chars_of_words(alignable_chars(text));
    lemma_joined_form(alignable_words(text));
}

/// A text of normalized characters loses none of them.
proof fn lemma_all_alignable(s: Seq<char>)
    requires
        forall|i: int| 0 <= i < s.len() ==> is_normalized_char(#[trigger] s[i]),
    ensures
        alignable_chars(s) == s,
    decreases s.len(),
{
    if s.len() > 0 {
        assert forall|i: int| 0 <= i < s.drop_last().len() implies is_normalized_char(
            #[trigger] s.drop_last()[i],
        ) by {
            assert(is_normalized_char(s[i]));
        }
        lemma_all_alignable(s.drop_last());
        assert(is_normalized_char(s.last()));
        assert(alignable(s.last()) == Some(s.last()));
        assert(s.drop_last().push(s.last()) == s);
    }
}

/// Normalizing twice is the same as normalizing once.
pub proof fn law_normalizing_is_idempotent(text: Seq<char>)
    ensures
        normalized(normalized(text)) == normalized(text),
{
    law_normalized_form(text);
    lemma_all_alignable(normalized(text));
    law_normalizing_keeps_words(text);
}

/// Text is split separately before and after a gap.
proof fn lemma_split_at_gap(h: Seq<char>, s: Seq<char>)
    requires
        h.len() == 0 || is_white_space(h.last()),
    ensures
        words_of(h + s) == words_of(h) + words_of(s),
    decreases s.len(),
{
    if s.len() == 0 {
        assert(h + s == h);
        assert(words_of(h) + words_of(s) == words_of(h));
    } else {
        let init = s.drop_last();
        let whole = h + s;
        assert(whole.drop_last() == h + init);
        lemma_split_at_gap(h, init);
        law_words_are_words(init);
        let before = words_of(h);
        let inner = words_of(init);
        if is_white_space(s.last()) {
        } else if s.len() == 1 || is_white_space(s[s.len() - 2]) {
            assert(whole.len() == 1 || is_white_space(whole[whole.len() - 2]));
            assert((before + inner).push(seq![s.last()]) == before + inner.push(seq![s.last()]));
        } else {
            assert(whole[whole.len() - 2] == s[s.len() - 2]);
            assert(init.last() == s[s.len() - 2]);
            let grown = inner.last().push(s.last());
            assert((before + inner).last() == inner.last());
            assert((before + inner).update(before.len() + inner.len() - 1, grown) == before
                + inner.update(inner.len() - 1, grown));
        }
    }
}

/// The alignable characters of two texts together are those of one and then of the other.
proof fn lemma_alignable_concat(h: Seq<char>, s: Seq<char>)
    ensures
        alignable_chars(h + s) == alignable_chars(h) + alignable_chars(s),
    decreases s.len(),
{
    if s.len() == 0 {
        assert(h + s == h);
        assert(alignable_chars(h) + alignable_chars(s) == alignable_chars(h));
    } else {
        assert((h + s).drop_last() == h + s.drop_last());
        lemma_alignable_concat(h, s.drop_last());
    }
}

/// Where a text does not end in white space, it ends in its last word, behind a gap.
proof fn lemma_last_word(s: Seq<char>) -> (h: Seq<char>)
    requires
        s.len() > 0,
        !is_white_space(s.last()),
    ensures
        words_of(s).len() > 0,
        s == h + words_of(s).last(),
        h.len() == 0 || is_white_space(h.last()),
        words_of(h) == words_of(s).drop_last(),
        h.len() < s.len(),
    decreases s.len(),
{
    let init = s.drop_last();
    let before = words_of(init);
    if s.len() == 1 || is_white_space(s[s.len() - 2]) {
        assert(words_of(s).drop_last() == before);
        assert(s == init + seq![s.last()]);
        init
    } else {
        assert(init.last() == s[s.len() - 2]);
        let h = lemma_last_word(init);
        assert(words_of(s).drop_last() == before.drop_last());
        assert(s == init.push(s.last()));
        assert((h + before.last()).push(s.last()) == h + before.last().push(s.last()));
        h
    }
}

/// The alignable parts of all words, one after the other.
pub open spec fn parts_of(words: Seq<Seq<char>>) -> Seq<Seq<char>>
    decreases words.len(),
{
    if words.len() == 0 {
        Seq::empty()
    } else {
        parts_of(words.drop_last()) + alignable_words(words.last())
    }
}

/// What is aligned of a text are the alignable parts of its words, in order: no part reaches
/// beyond a word, and none is lost.
pub proof fn law_words_hold_all_parts(text: Seq<char>)
    ensures
        parts_of(words_of(text)) == alignable_words(text),
    decreases text.len(),
{
    if text.len() > 0 {
        if is_white_space(text.last()) {
            let init = text.drop_last();
            law_words_hold_all_parts(init);
            assert(!is_ascii_letter(text.last()) && text.last() != '\'');
            assert(alignable_chars(text) == alignable_chars(init).push(' '));
            assert(alignable_chars(text).drop_last() == alignable_chars(init));
        } else {
            let h = lemma_last_word(text);
            let w = words_of(text).last();
            law_words_hold_all_parts(h);
            lemma_alignable_concat(h, w);
            if h.len() > 0 {
                assert(!is_ascii_letter(h.last()) && h.last() != '\'');
                assert(alignable_chars(h).last() == ' ');
            }
            lemma_split_at_gap(alignable_chars(h), alignable_chars(w));
        }
    } else {
        assert(words_of(text) == Seq::<Seq<char>>::empty());
        assert(alignable_chars(text) == Seq::<char>::empty());
    }
}

/// The words hold as many parts together as are aligned of the text.
pub proof fn law_parts_are_counted(text: Seq<char>)
    ensures
        parts_in(provided_words(text)) == alignable_words(text).len(),
{
    law_words_hold_all_parts(text);
    lemma_parts_counted(text, words_of(text).len() as int);
    assert(provided_words(text).take(words_of(text).len() as int) == provided_words(text));
    assert(words_of(text).take(words_of(text).len() as int) == words_of(text));
}

/// The first `n` words hold as many parts as are counted for them.
proof fn lemma_parts_counted(text: Seq<char>, n: int)
    requires
        0 <= n <= words_of(text).len(),
    ensures
        parts_in(provided_words(text).take(n)) == parts_of(words_of(text).take(n)).len(),
    decreases n,
{
    if n > 0 {
        lemma_parts_counted(text, n - 1);
        assert(provided_words(text).take(n).drop_last() == provided_words(text).take(n - 1));
        assert(words_of(text).take(n).drop_last() == words_of(text).take(n - 1));
    }
}

/// Whether the word holds a letter or an apostrophe.
pub open spec fn holds_letter(word: Seq<char>) -> bool {
    exists|i: int|
        0 <= i < word.len() && (is_ascii_letter(#[trigger] word[i]) || word[i] == '\'')
}

/// A word has alignable parts if and only if it holds a letter or an apostrophe.
pub proof fn law_letters_make_parts(word: Seq<char>)
    ensures
        alignable_words(word).len() > 0 <==> holds_letter(word),
    decreases word.len(),
{
    if word.len() > 0 {
        let init = word.drop_last();
        let c = word.last();
        law_letters_make_parts(init);
        let before = alignable_chars(init);
        if holds_letter(init) {
            let i = choose|i: int|
                0 <= i < init.len() && (is_ascii_letter(#[trigger] init[i]) || init[i] == '\'');
            assert(word[i] == init[i]);
        }
        if is_ascii_letter(c) || c == '\'' {
            assert(word[word.len() - 1] == c);
            let after = alignable_chars(word);
            assert(after.drop_last() == before);
            assert(!is_white_space(after.last()));
            law_words_are_words(after);
        } else {
            if holds_letter(word) {
                let i = choose|i: int|
                    0 <= i < word.len() && (is_ascii_letter(#[trigger] word[i]) || word[i]
                        == '\'');
                assert(init[i] == word[i]);
            }
            if alignable(c) is Some {
                assert(alignable_chars(word).drop_last() == before);
            }
        }
    } else {
        assert(alignable_chars(word) == Seq::<char>::empty());
    }
}

/// White space separates words: what stands before it and what stands behind it is split on its
/// own. Text without white space is one word, and no text has no words.
pub proof fn law_white_space_separates(a: Seq<char>, c: char, b: Seq<char>)
    requires
        is_white_space(c),
    ensures
        words_of(a + seq![c] + b) == words_of(a) + words_of(b),
        is_word(a) ==> words_of(a) == seq![a],
        words_of(Seq::empty()) == Seq::<Seq<char>>::empty(),
{
    let h = a + seq![c];
    assert(h.drop_last() == a);
    assert(words_of(h) == words_of(a));
    lemma_split_at_gap(h, b);
    if is_word(a) {
        lemma_one_word(a);
    }
}

/// Joining puts the separator between what is joined, and nowhere else.
pub proof fn law_joined_with_separator(a: Seq<Seq<char>>, b: Seq<Seq<char>>, sep: Seq<char>)
    ensures
        joined(Seq::empty(), sep) == Seq::<char>::empty(),
        a.len() == 1 ==> joined(a, sep) == a[0],
        a.len() > 0 && b.len() > 0 ==> joined(a + b, sep) == joined(a, sep) + sep + joined(b, sep),
    decreases b.len(),
{
    if a.len() > 0 && b.len() == 1 {
        assert((a + b).drop_last() == a);
    } else if a.len() > 0 && b.len() > 1 {
        law_joined_with_separator(a, b.drop_last(), sep);
        assert((a + b).drop_last() == a + b.drop_last());
        assert((a + b).last() == b.last());
        let head = joined(a, sep) + sep;
        let inner = joined(b.drop_last(), sep);
        assert(head + inner + sep + b.last() == head + (inner + sep + b.last()));
    }
}

/// Trimming removes the white space at both ends and nothing else: what is left stands between
/// the positions `a` and `b` of the text, all that stands outside is white space, and what is
/// left neither begins nor ends with any.
pub proof fn law_trimming_removes_white_space(s: Seq<char>) -> (range: (int, int))
    ensures
        0 <= range.0 <= range.1 <= s.len(),
        trimmed(s) == s.subrange(range.0, range.1),
        forall|i: int|
            (0 <= i < range.0 || range.1 <= i < s.len()) ==> is_white_space(#[trigger] s[i]),
        range.0 < range.1 ==> !is_white_space(s[range.0]) && !is_white_space(s[range.1 - 1]),
{
    let a = lemma_start_range(s);
    let rest = trimmed_start(s);
    let b = lemma_end_range(rest);
    assert(rest.take(b) == s.subrange(a, a + b));
    assert forall|i: int| a + b <= i < s.len() implies is_white_space(#[trigger] s[i]) by {
        assert(rest[i - a] == s[i]);
    }
    assert(b > 0 ==> rest[0] == s[a] && rest[b - 1] == s[a + b - 1]);
    (a, a + b)
}

/// Where the text without white space at its start begins.
proof fn lemma_start_range(s: Seq<char>) -> (a: int)
    ensures
        0 <= a <= s.len(),
        trimmed_start(s) == s.skip(a),
        forall|i: int| 0 <= i < a ==> is_white_space(#[trigger] s[i]),
        a < s.len() ==> !is_white_space(s[a]),
    decreases s.len(),
{
    if s.len() > 0 && is_white_space(s[0]) {
        let rest = s.drop_first();
        let a = lemma_start_range(rest);
        assert(rest.skip(a) == s.skip(a + 1));
        assert forall|i: int| 0 <= i < a + 1 implies is_white_space(#[trigger] s[i]) by {
            if i > 0 {
                assert(rest[i - 1] == s[i]);
            }
        }
        assert(a < rest.len() ==> rest[a] == s[a + 1]);
        a + 1
    } else {
        assert(s.skip(0) == s);
        0
    }
}

/// Where the text without white space at its end ends.
proof fn lemma_end_range(s: Seq<char>) -> (b: int)
    ensures
        0 <= b <= s.len(),
        trimmed_end(s) == s.take(b),
        forall|i: int| b <= i < s.len() ==> is_white_space(#[trigger] s[i]),
        b > 0 ==> !is_white_space(s[b - 1]),
    decreases s.len(),
{
    if s.len() > 0 && is_white_space(s.last()) {
        let init = s.drop_last();
        let b = lemma_end_range(init);
        assert(init.take(b) == s.take(b));
        assert forall|i: int| b <= i < s.len() implies is_white_space(#[trigger] s[i]) by {
            if i < init.len() {
                assert(init[i] == s[i]);
            }
        }
        b
    } else {
        assert(s.take(s.len() as int) == s);
        s.len() as int
    }
}

/// Replacing goes character by character: one that is asked for becomes the replacement, and
/// every other stays.
pub proof fn law_replaced_one_by_one(a: Seq<char>, b: Seq<char>, c: char, from: char, to: Seq<char>)
    ensures
        replaced(Seq::empty(), from, to) == Seq::<char>::empty(),
        replaced(seq![c], from, to) == if c == from {
            to
        } else {
            seq![c]
        },
        replaced(a + b, from, to) == replaced(a, from, to) + replaced(b, from, to),
    decreases b.len(),
{
    assert(seq![c].drop_last() == Seq::<char>::empty());
    assert(replaced(Seq::empty(), from, to) == Seq::<char>::empty());
    if b.len() == 0 {
        assert(a + b == a);
        assert(replaced(a, from, to) + replaced(b, from, to) == replaced(a, from, to));
    } else {
        law_replaced_one_by_one(a, b.drop_last(), c, from, to);
        assert((a + b).drop_last() == a + b.drop_last());
        assert((a + b).last() == b.last());
    }
}

/// The number that decimal digits stand for.
pub open spec fn number_of(digits: Seq<char>) -> int
    decreases digits.len(),
{
    if digits.len() == 0 {
        0
    } else {
        10 * number_of(digits.drop_last()) + (digits.last() as int - '0' as int)
    }
}

/// A number is written in decimal digits that stand for it, without a zero in front.
pub proof fn law_decimal_stands_for_number(n: nat)
    ensures
        number_of(decimal(n)) == n,
        decimal(n).len() > 0,
        forall|i: int| 0 <= i < decimal(n).len() ==> '0' <= #[trigger] decimal(n)[i] <= '9',
        n > 0 ==> decimal(n)[0] != '0',
    decreases n,
{
    if n < 10 {
        assert(decimal(n).drop_last() == Seq::<char>::empty());
        assert(number_of(Seq::empty()) == 0);
        assert(decimal(n).last() == digit(n));
    } else {
        law_decimal_stands_for_number(n / 10);
        assert(decimal(n).drop_last() == decimal(n / 10));
        assert(decimal(n).last() == digit(n % 10));
        assert(decimal(n)[0] == decimal(n / 10)[0]);
    }
}

/// Words, if there are any, do not join to nothing.
proof fn lemma_joined_not_empty(words: Seq<Seq<char>>)
    requires
        all_words(words),
    ensures
        joined(words, seq![' ']).len() == 0 <==> words.len() == 0,
{
    if words.len() > 0 {
        assert(is_word(words.last()));
        assert(is_word(words[0]));
    }
}

/// White space and hyphens separate: what stands before one and what stands behind it is
/// normalized on its own and, if it is something, put together with one space between.
pub proof fn law_normalizing_separates(a: Seq<char>, c: char, b: Seq<char>)
    requires
        is_white_space(c) || c == '-',
    ensures
        alignable_words(a + seq![c] + b) == alignable_words(a) + alignable_words(b),
        normalized(a + seq![c] + b) == if normalized(a).len() == 0 {
            normalized(b)
        } else if normalized(b).len() == 0 {
            normalized(a)
        } else {
            normalized(a) + seq![' '] + normalized(b)
        },
{
    let first = alignable_words(a);
    let second = alignable_words(b);
    lemma_alignable_concat(a + seq![c], b);
    lemma_alignable_concat(a, seq![c]);
    assert(seq![c].drop_last() == Seq::<char>::empty());
    assert(alignable_chars(Seq::empty()) == Seq::<char>::empty());
    assert(!is_ascii_letter(c) && c != '\'');
    assert(alignable_chars(seq![c]) == seq![' ']);
    law_white_space_separates(alignable_chars(a), ' ', alignable_chars(b));
    law_words_are_words(alignable_chars(a));
    law_words_are_words(alignable_chars(b));
    lemma_joined_not_empty(first);
    lemma_joined_not_empty(second);
    law_joined_with_separator(first, second, seq![' ']);
    assert(first.len() == 0 ==> first + second == second);
    assert(second.len() == 0 ==> first + second == first);
}

/// What is neither a letter, an apostrophe, a hyphen nor white space does not matter.
pub proof fn law_normalizing_drops_the_rest(a: Seq<char>, c: char, b: Seq<char>)
    requires
        !('a' <= c <= 'z' || 'A' <= c <= 'Z'),
        c != '\'' && c != '-' && !is_white_space(c),
    ensures
        alignable_words(a + seq![c] + b) == alignable_words(a + b),
        normalized(a + seq![c] + b) == normalized(a + b),
{
    lemma_alignable_concat(a + seq![c], b);
    lemma_alignable_concat(a, seq![c]);
    lemma_alignable_concat(a, b);
    assert(seq![c].drop_last() == Seq::<char>::empty());
    assert(alignable_chars(Seq::empty()) == Seq::<char>::empty());
    assert(!is_ascii_letter(c));
    assert(alignable_chars(seq![c]) == Seq::<char>::empty());
    assert(alignable_chars(a) + Seq::<char>::empty() == alignable_chars(a));
}

/// A text of letters and apostrophes stays as it is but for its capitals, which become small
/// letters. It is one part.
pub proof fn law_normalizing_keeps_letters(text: Seq<char>)
    requires
        forall|i: int|
            0 <= i < text.len() ==> 'a' <= #[trigger] text[i] <= 'z' || 'A' <= text[i] <= 'Z'
                || text[i] == '\'',
    ensures
        normalized(text).len() == text.len(),
        forall|i: int|
            0 <= i < text.len() ==> (#[trigger] normalized(text)[i]) as int == text[i] as int + if 'A'
                <= text[i] <= 'Z' {
                32int
            } else {
                0
            },
        text.len() > 0 ==> alignable_words(text) == seq![normalized(text)],
        text.len() == 0 ==> alignable_words(text).len() == 0,
{
    let chars = alignable_chars(text);
    lemma_letters_kept(text);
    if text.len() > 0 {
        assert forall|i: int| 0 <= i < chars.len() implies !is_white_space(#[trigger] chars[i]) by {
            assert(text[i] == text[i]);
        }
        lemma_one_word(chars);
        assert(joined(seq![chars], seq![' ']) == chars);
    } else {
        assert(chars == Seq::<char>::empty());
    }
}

/// Letters and apostrophes are alignable.
proof fn lemma_letters_kept(text: Seq<char>)
    requires
        forall|i: int|
            0 <= i < text.len() ==> 'a' <= #[trigger] text[i] <= 'z' || 'A' <= text[i] <= 'Z'
                || text[i] == '\'',
    ensures
        alignable_chars(text).len() == text.len(),
        forall|i: int|
            0 <= i < text.len() ==> (#[trigger] alignable_chars(text)[i]) as int == text[i] as int
                + if 'A' <= text[i] <= 'Z' {
                32int
            } else {
                0
            },
    decreases text.len(),
{
    if text.len() > 0 {
        let init = text.drop_last();
        assert(forall|i: int| 0 <= i < init.len() ==> init[i] == text[i]);
        lemma_letters_kept(init);
        let c = text[text.len() - 1];
        assert('a' <= c <= 'z' || 'A' <= c <= 'Z' || c == '\'');
        assert(text.last() == c);
        let before = alignable_chars(init);
        assert forall|i: int| 0 <= i < text.len() implies (#[trigger] alignable_chars(text)[i]) as int
            == text[i] as int + if 'A' <= text[i] <= 'Z' {
            32int
        } else {
            0
        } by {
            if i < init.len() {
                assert(alignable_chars(text)[i] == before[i]);
                assert(init[i] == text[i]);
            }
        }
    }
}

/// A word without hyphens is one part if it holds a letter or an apostrophe, and else none. A
/// hyphen separates parts, by `law_normalizing_separates`.
pub proof fn law_word_without_hyphen_is_one_part(word: Seq<char>)
    requires
        forall|i: int|
            0 <= i < word.len() ==> #[trigger] word[i] != '-' && !is_white_space(word[i]),
    ensures
        alignable_words(word).len() == if holds_letter(word) {
            1nat
        } else {
            0
        },
{
    let chars = alignable_chars(word);
    lemma_no_gap(word);
    law_letters_make_parts(word);
    if chars.len() == 0 {
        assert(chars == Seq::<char>::empty());
    } else {
        lemma_one_word(chars);
    }
}

/// Without hyphens and white space there are no gaps among the alignable characters.
proof fn lemma_no_gap(word: Seq<char>)
    requires
        forall|i: int|
            0 <= i < word.len() ==> #[trigger] word[i] != '-' && !is_white_space(word[i]),
    ensures
        forall|i: int|
            0 <= i < alignable_chars(word).len() ==> !is_white_space(
                #[trigger] alignable_chars(word)[i],
            ),
    decreases word.len(),
{
    if word.len() > 0 {
        let init = word.drop_last();
        assert(forall|i: int| 0 <= i < init.len() ==> init[i] == word[i]);
        lemma_no_gap(init);
        let c = word[word.len() - 1];
        assert(c != '-' && !is_white_space(c));
        let before = alignable_chars(init);
        assert forall|i: int| 0 <= i < alignable_chars(word).len() implies !is_white_space(
            #[trigger] alignable_chars(word)[i],
        ) by {
            if i < before.len() {
                assert(alignable_chars(word)[i] == before[i]);
            }
        }
    }
}

/// The words that are provided are those between white space, each with the number of its
/// alignable parts.
pub proof fn law_provided_words_are_words(text: Seq<char>, k: int)
    requires
        0 <= k < words_of(text).len(),
    ensures
        provided_words(text).len() == words_of(text).len(),
        provided_words(text)[k].0 == words_of(text)[k],
        provided_words(text)[k].1 == alignable_words(words_of(text)[k]).len(),
{
}

} // verus!
