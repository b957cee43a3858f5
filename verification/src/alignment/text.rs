//! Characters, words and strings, and what of them comes from the standard library.

use vstd::prelude::*;

verus! {

/// `String::push` appends the character to the end of the string.
pub assume_specification[ String::push ](s: &mut String, c: char)
    ensures
        final(s)@ == old(s)@.push(c),
;

/// The characters that `char::to_lowercase` yields for a character outside ASCII.
pub uninterp spec fn lowercase_of(c: char) -> Seq<char>;

/// The lowercase form of `c`.
pub open spec fn lowercased(c: char) -> Seq<char> {
    if is_ascii_char(c) {
        seq![ascii_lowercase(c)]
    } else {
        lowercase_of(c)
    }
}

/// `char::to_lowercase`, collected into a string.
///
/// The result is the Unicode lowercase mapping of the character. In ASCII the letters `A` to
/// `Z` become `a` to `z`, and every other character stays as it is. Outside ASCII the mapping
/// depends on the character alone, and what it is, is not stated.
#[verifier::external_body]
pub(crate) fn char_to_lowercase(c: char) -> (r: String)
    ensures
        is_ascii_char(c) ==> r@ == seq![ascii_lowercase(c)],
        !is_ascii_char(c) ==> r@ == lowercase_of(c),
{
    c.to_lowercase().to_string()
}

/// What `str::to_lowercase` returns for a string with a character outside ASCII.
pub uninterp spec fn lowercase_str_of(s: Seq<char>) -> Seq<char>;

/// The lowercase form of the string `s`.
pub open spec fn lowercased_str(s: Seq<char>) -> Seq<char> {
    if all_ascii(s) {
        ascii_lowercased(s)
    } else {
        lowercase_str_of(s)
    }
}

/// `str::to_lowercase`.
///
/// In a string of ASCII characters the letters `A` to `Z` become `a` to `z`, and every other
/// character stays as it is. For other strings the result depends on the string alone, and
/// what it is, is not stated.
#[verifier::external_body]
pub(crate) fn str_to_lowercase(s: &str) -> (r: String)
    ensures
        all_ascii(s@) ==> r@ == ascii_lowercased(s@),
        !all_ascii(s@) ==> r@ == lowercase_str_of(s@),
{
    s.to_lowercase()
}

/// Whether all characters of `s` are ASCII characters.
pub open spec fn all_ascii(s: Seq<char>) -> bool {
    forall|i: int| 0 <= i < s.len() ==> is_ascii_char(#[trigger] s[i])
}

/// `s` with the ASCII capitals replaced by small letters.
pub open spec fn ascii_lowercased(s: Seq<char>) -> Seq<char> {
    Seq::new(s.len(), |i: int| ascii_lowercase(s[i]))
}

/// Whether `c` is one of the 128 ASCII characters.
pub open spec fn is_ascii_char(c: char) -> bool {
    c as int <= 127
}

/// Whether `c` is an ASCII letter.
pub open spec fn is_ascii_letter(c: char) -> bool {
    'a' <= c <= 'z' || 'A' <= c <= 'Z'
}

/// `c` with an ASCII capital replaced by the small letter.
pub open spec fn ascii_lowercase(c: char) -> char {
    if 'A' <= c <= 'Z' {
        ((c as int) + 32) as char
    } else {
        c
    }
}

/// The characters with the Unicode property `White_Space`.
pub open spec fn is_white_space(c: char) -> bool {
    let n = c as int;
    ||| 0x09 <= n <= 0x0d
    ||| n == 0x20
    ||| n == 0x85
    ||| n == 0xa0
    ||| n == 0x1680
    ||| 0x2000 <= n <= 0x200a
    ||| n == 0x2028
    ||| n == 0x2029
    ||| n == 0x202f
    ||| n == 0x205f
    ||| n == 0x3000
}

/// Whether `c` has the Unicode property `White_Space`.
pub fn is_whitespace(c: char) -> (r: bool)
    ensures
        r == is_white_space(c),
{
    let n: u32 = c as u32;
    (0x09 <= n && n <= 0x0d) || n == 0x20 || n == 0x85 || n == 0xa0 || n == 0x1680 || (0x2000 <= n
        && n <= 0x200a) || n == 0x2028 || n == 0x2029 || n == 0x202f || n == 0x205f || n == 0x3000
}

/// `c` with an ASCII capital replaced by the small letter.
pub fn to_ascii_lowercase(c: char) -> (r: char)
    ensures
        r == ascii_lowercase(c),
        r as int == c as int + if 'A' <= c <= 'Z' {
            32int
        } else {
            0
        },
{
    if 'A' <= c && c <= 'Z' {
        ((c as u8) + 32) as char
    } else {
        c
    }
}

/// The views of a sequence of strings.
pub open spec fn views(v: Seq<String>) -> Seq<Seq<char>> {
    Seq::new(v.len(), |i: int| v[i]@)
}

/// The maximal runs of characters without white space in `s`, in order.
pub open spec fn words_of(s: Seq<char>) -> Seq<Seq<char>>
    decreases s.len(),
{
    if s.len() == 0 {
        Seq::empty()
    } else {
        let before = words_of(s.drop_last());
        if is_white_space(s.last()) {
            before
        } else if s.len() == 1 || is_white_space(s[s.len() - 2]) {
            before.push(seq![s.last()])
        } else {
            before.update(before.len() - 1, before.last().push(s.last()))
        }
    }
}

/// `words` with `sep` between every two neighbours.
pub open spec fn joined(words: Seq<Seq<char>>, sep: Seq<char>) -> Seq<char>
    decreases words.len(),
{
    if words.len() == 0 {
        Seq::empty()
    } else if words.len() == 1 {
        words[0]
    } else {
        joined(words.drop_last(), sep) + sep + words.last()
    }
}

/// Splits `s` at white space, dropping the empty pieces.
pub fn split_whitespace(s: &str) -> (r: Vec<String>)
    ensures
        views(r@) == words_of(s@),
{
    let mut words: Vec<String> = Vec::new();
    let mut current: String = String::new();
    let mut in_word: bool = false;
    let ghost mut done: Seq<char> = Seq::empty();
    for c in it: s.chars()
        invariant
            it.seq() == s@,
            done == s@.take(it.index() as int),
            in_word <==> done.len() > 0 && !is_white_space(done.last()),
            in_word ==> words_of(done) == views(words@).push(current@),
            !in_word ==> words_of(done) == views(words@),
            !in_word ==> current@ == Seq::<char>::empty(),
    {
        proof {
            assert(s@.take(it.index() as int + 1).drop_last() == done);
            done = s@.take(it.index() as int + 1);
        }
        let ghost before = views(words@);
        if is_whitespace(c) {
            if in_word {
                words.push(current);
                current = String::new();
                in_word = false;
                assert(views(words@) == before.push(words@.last()@));
            }
        } else {
            let ghost held = current@;
            current.push(c);
            assert(in_word ==> before.push(held).update(before.len() as int, held.push(c))
                == before.push(held.push(c)));
            in_word = true;
        }
    }
    assert(s@.take(s@.len() as int) == s@);
    if in_word {
        let ghost before = views(words@);
        words.push(current);
        assert(views(words@) == before.push(words@.last()@));
    }
    words
}

/// Concatenates `words` with `sep` between every two neighbours.
pub fn join(words: &Vec<String>, sep: &str) -> (r: String)
    ensures
        r@ == joined(views(words@), sep@),
{
    let mut r: String = String::new();
    let n: usize = words.len();
    for i in 0..n
        invariant
            n == words@.len(),
            r@ == joined(views(words@).take(i as int), sep@),
    {
        let ghost prefix = views(words@).take(i as int);
        assert(views(words@).take(i as int + 1).drop_last() == prefix);
        if i > 0 {
            r.append(sep);
        }
        r.append(words[i].as_str());
        assert(i == 0 ==> r@ == words@[0]@);
    }
    assert(views(words@).take(n as int) == views(words@));
    r
}

/// `s` without the white space at its end.
pub open spec fn trimmed_end(s: Seq<char>) -> Seq<char>
    decreases s.len(),
{
    if s.len() > 0 && is_white_space(s.last()) {
        trimmed_end(s.drop_last())
    } else {
        s
    }
}

/// `s` without the white space at its start.
pub open spec fn trimmed_start(s: Seq<char>) -> Seq<char>
    decreases s.len(),
{
    if s.len() > 0 && is_white_space(s[0]) {
        trimmed_start(s.drop_first())
    } else {
        s
    }
}

/// `s` without the white space at its ends.
pub open spec fn trimmed(s: Seq<char>) -> Seq<char> {
    trimmed_end(trimmed_start(s))
}

/// The characters of `s`.
fn chars_of(s: &str) -> (r: Vec<char>)
    ensures
        r@ == s@,
{
    let mut r: Vec<char> = Vec::new();
    for c in it: s.chars()
        invariant
            it.seq() == s@,
            r@ == s@.take(it.index() as int),
    {
        r.push(c);
    }
    r
}

/// Removes the white space at both ends of `s`.
pub fn trim(s: &str) -> (r: String)
    ensures
        r@ == trimmed(s@),
{
    let chars: Vec<char> = chars_of(s);
    let n: usize = chars.len();
    let mut lo: usize = 0;
    assert(s@.skip(0) == s@);
    while lo < n && is_whitespace(chars[lo])
        invariant
            n == chars@.len(),
            chars@ == s@,
            lo <= n,
            trimmed_start(s@) == trimmed_start(s@.skip(lo as int)),
        decreases n - lo,
    {
        assert(s@.skip(lo as int).drop_first() == s@.skip(lo + 1));
        lo = lo + 1;
    }
    let ghost body = s@.skip(lo as int);
    assert(trimmed_start(s@) == body);
    let mut hi: usize = n;
    assert(body.take(body.len() as int) == body);
    while hi > lo && is_whitespace(chars[hi - 1])
        invariant
            n == chars@.len(),
            chars@ == s@,
            lo <= hi <= n,
            body == s@.skip(lo as int),
            trimmed_end(body) == trimmed_end(body.take(hi - lo)),
        decreases hi,
    {
        assert(body.take(hi - lo).drop_last() == body.take(hi - lo - 1));
        hi = hi - 1;
    }
    assert(trimmed_end(body) == body.take(hi - lo));
    let mut r: String = String::new();
    for i in lo..hi
        invariant
            n == chars@.len(),
            chars@ == s@,
            lo <= hi <= n,
            body == s@.skip(lo as int),
            r@ == body.take(i - lo),
    {
        r.push(chars[i]);
        assert(r@ == body.take(i + 1 - lo));
    }
    r
}

/// Whether the first character of `s` is a space.
pub open spec fn begins_with_space(s: Seq<char>) -> bool {
    s.len() > 0 && s[0] == ' '
}

/// Whether the first character of `s` is a space.
pub fn starts_with_space(s: &str) -> (r: bool)
    ensures
        r == begins_with_space(s@),
        r <==> s@.len() > 0 && s@[0] == ' ',
{
    let mut it = s.chars();
    match it.next() {
        Some(c) => c == ' ',
        None => false,
    }
}

/// The decimal digits of `n`.
pub open spec fn decimal(n: nat) -> Seq<char>
    decreases n,
{
    if n < 10 {
        seq![digit(n)]
    } else {
        decimal(n / 10).push(digit(n % 10))
    }
}

/// The digit for a number below ten.
pub open spec fn digit(n: nat) -> char {
    (('0' as int) + n) as char
}

/// Appends the decimal digits of `n` to `s`.
fn push_decimal(s: &mut String, n: usize)
    ensures
        final(s)@ == old(s)@ + decimal(n as nat),
    decreases n,
{
    if n >= 10 {
        push_decimal(s, n / 10);
    }
    s.push((48 + (n % 10) as u8) as char);
    assert(s@ == old(s)@ + decimal(n as nat));
}

/// `prefix`, the decimal digits of `index`, and `suffix`.
pub fn indexed_name(prefix: &str, index: usize, suffix: &str) -> (r: String)
    ensures
        r@ == prefix@ + decimal(index as nat) + suffix@,
{
    let mut r: String = prefix.to_owned();
    push_decimal(&mut r, index);
    r.append(suffix);
    r
}

/// The names with `prefix` and the indices from 0 to `n - 1`.
pub fn indexed_names(prefix: &str, n: usize) -> (r: Vec<String>)
    ensures
        views(r@) == Seq::new(n as nat, |i: int| prefix@ + decimal(i as nat)),
{
    let mut r: Vec<String> = Vec::new();
    for i in 0..n
        invariant
            views(r@) == Seq::new(i as nat, |k: int| prefix@ + decimal(k as nat)),
    {
        let ghost before = views(r@);
        let name: String = indexed_name(prefix, i, "");
        proof {
            reveal_strlit("");
        }
        assert(name@ == prefix@ + decimal(i as nat));
        r.push(name);
        assert(views(r@) == before.push(name@));
    }
    r
}

/// `s` with every occurrence of `from` replaced by `to`.
pub open spec fn replaced(s: Seq<char>, from: char, to: Seq<char>) -> Seq<char>
    decreases s.len(),
{
    if s.len() == 0 {
        Seq::empty()
    } else if s.last() == from {
        replaced(s.drop_last(), from, to) + to
    } else {
        replaced(s.drop_last(), from, to).push(s.last())
    }
}

/// Replaces every occurrence of `from` in `s` by `to`.
pub fn replace_char(s: &str, from: char, to: &str) -> (r: String)
    ensures
        r@ == replaced(s@, from, to@),
{
    let mut r: String = String::new();
    for c in it: s.chars()
        invariant
            it.seq() == s@,
            r@ == replaced(s@.take(it.index() as int), from, to@),
    {
        assert(s@.take(it.index() as int + 1).drop_last() == s@.take(it.index() as int));
        if c == from {
            r.append(to);
        } else {
            r.push(c);
        }
    }
    assert(s@.take(s@.len() as int) == s@);
    r
}

} // verus!
