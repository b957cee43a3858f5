//! Forced alignment.

use vstd::prelude::*;

use crate::alignment::aligner::{count_parts, provided_words};
use crate::alignment::text::{char_to_lowercase, lowercased, views, words_of};

verus! {

/// A time in seconds, held as a whole number of milliseconds.
#[derive(Debug, Clone, Copy, PartialEq, Eq, Structural)]
pub struct Seconds {
    pub millis: u128,
}

/// A word with its start and end time in seconds.
#[derive(Debug, Clone)]
pub struct WordTimestamp {
    pub word: String,
    pub start_sec: Seconds,
    pub end_sec: Seconds,
}

/// A word with its start and end in milliseconds.
pub struct TimedWord {
    pub word: Seq<char>,
    pub start: nat,
    pub end: nat,
}

impl View for WordTimestamp {
    type V = TimedWord;

    open spec fn view(&self) -> TimedWord {
        TimedWord {
            word: self.word@,
            start: self.start_sec.millis as nat,
            end: self.end_sec.millis as nat,
        }
    }
}

/// The views of a sequence of timestamps.
pub open spec fn timed_words(v: Seq<WordTimestamp>) -> Seq<TimedWord> {
    Seq::new(v.len(), |i: int| v[i]@)
}

/// The last index at which `vocab` holds `key`.
pub open spec fn token_id(vocab: Seq<Seq<char>>, key: Seq<char>) -> Option<nat>
    decreases vocab.len(),
{
    if vocab.len() == 0 {
        None
    } else if vocab.last() == key {
        Some((vocab.len() - 1) as nat)
    } else {
        token_id(vocab.drop_last(), key)
    }
}

/// The vocabulary indices of the characters of `text`, unknown characters left out.
pub open spec fn known_ids(text: Seq<char>, vocab: Seq<Seq<char>>) -> Seq<usize>
    decreases text.len(),
{
    if text.len() == 0 {
        Seq::empty()
    } else {
        let before = known_ids(text.drop_last(), vocab);
        match token_id(vocab, lowercased(text.last())) {
            Some(id) => before.push(id as usize),
            None => before,
        }
    }
}

/// `ids` with a blank before, between and after its elements.
pub open spec fn interleaved(ids: Seq<usize>, blank_id: usize) -> Seq<usize> {
    Seq::new(
        2 * ids.len() + 1,
        |i: int|
            if i % 2 == 0 {
                blank_id
            } else {
                ids[i / 2]
            },
    )
}

/// Finds the last index at which `vocab` holds `key`.
pub fn find_token(vocab: &[String], key: &String) -> (r: Option<usize>)
    ensures
        match r {
            Some(id) => token_id(views(vocab@), key@) == Some(id as nat),
            None => token_id(views(vocab@), key@) is None,
        },
        match r {
            Some(id) => {
                &&& id < vocab@.len() && vocab@[id as int]@ == key@
                &&& forall|j: int| id < j < vocab@.len() ==> (#[trigger] vocab@[j])@ != key@
            },
            None => forall|j: int| 0 <= j < vocab@.len() ==> (#[trigger] vocab@[j])@ != key@,
        },
{
    let mut i: usize = vocab.len();
    assert(views(vocab@).take(i as int) == views(vocab@));
    while i > 0
        invariant
            i <= vocab@.len(),
            token_id(views(vocab@), key@) == token_id(views(vocab@).take(i as int), key@),
            forall|j: int| i <= j < vocab@.len() ==> (#[trigger] vocab@[j])@ != key@,
        decreases i,
    {
        proof {
            assert(views(vocab@).take(i as int).drop_last() == views(vocab@).take(i as int - 1));
        }
        i = i - 1;
        if vocab[i] == *key {
            return Some(i);
        }
    }
    None
}

/// Convert text to CTC target token IDs with interleaved blanks.
///
/// `"hi"` with `blank_id` 0 becomes `[0, h_id, 0, i_id, 0]`.
/// Blanks between every character allow the model to absorb pauses and silence.
/// Characters that the vocabulary does not hold are left out.
pub fn text_to_ctc_targets(text: &str, vocab: &[String], blank_id: usize) -> (targets: Vec<usize>)
    ensures
        targets@ == interleaved(known_ids(text@, views(vocab@)), blank_id),
{
    let mut targets: Vec<usize> = Vec::new();
    targets.push(blank_id);
    let ghost mut done: Seq<char> = Seq::empty();
    for c in it: text.chars()
        invariant
            it.seq() == text@,
            done == text@.take(it.index() as int),
            targets@ == interleaved(known_ids(done, views(vocab@)), blank_id),
    {
        proof {
            assert(text@.take(it.index() as int + 1).drop_last() == done);
            done = text@.take(it.index() as int + 1);
        }
        let key: String = char_to_lowercase(c);
        if let Some(id) = find_token(vocab, &key) {
            targets.push(id);
            targets.push(blank_id);
        }
    }
    assert(text@.take(text@.len() as int) == text@);
    targets
}

/// A log-probability in units of a fixed size, or minus infinity.
#[derive(Debug, Clone, Copy, PartialEq, Eq, Structural)]
pub enum LogProb {
    NegInf,
    Units(i64),
}

/// Why a text cannot be aligned.
#[derive(Debug, Clone, Copy, PartialEq, Eq, Structural)]
pub enum AlignError {
    /// There are fewer audio frames than target tokens.
    TooFewFrames { frames: usize, targets: usize },
}

/// A sum of log-probabilities: `None` is minus infinity.
pub type Total = Option<int>;

/// The log-probability as a number.
pub open spec fn value_of(p: LogProb) -> Total {
    match p {
        LogProb::NegInf => None,
        LogProb::Units(n) => Some(n as int),
    }
}

/// Minus infinity plus anything is minus infinity.
pub open spec fn total_plus(a: Total, b: Total) -> Total {
    match (a, b) {
        (Some(x), Some(y)) => Some(x + y),
        _ => None,
    }
}

/// Whether `a` is strictly greater than `b`.
pub open spec fn exceeds(a: Total, b: Total) -> bool {
    match (a, b) {
        (Some(x), Some(y)) => x > y,
        (Some(_), None) => true,
        _ => false,
    }
}

/// The greater of two totals.
pub open spec fn greater_of(a: Total, b: Total) -> Total {
    if exceeds(b, a) {
        b
    } else {
        a
    }
}

/// What frame `t` says of the target at position `s`.
pub open spec fn emission(
    emissions: Seq<Seq<LogProb>>,
    targets: Seq<usize>,
    t: int,
    s: int,
) -> Total {
    value_of(emissions[t][targets[s] as int])
}

/// Whether an alignment may step from position `s - 2` straight to position `s`: the target
/// at `s` is no blank, and it differs from the one at `s - 2`, so that a blank between
/// repeated characters is never skipped. The first target is always the blank.
pub open spec fn may_skip_to(targets: Seq<usize>, s: int) -> bool {
    s >= 2 && targets[s] != targets[0] && targets[s] != targets[s - 2]
}

/// The total that an alignment at position `s - 1` brings along when it moves on to `s`.
pub open spec fn advance(row: Seq<Total>, s: int) -> Total {
    if s > 0 {
        row[s - 1]
    } else {
        None
    }
}

/// The total that an alignment at position `s - 2` brings along when it skips to `s`.
pub open spec fn skip(row: Seq<Total>, targets: Seq<usize>, s: int) -> Total {
    if may_skip_to(targets, s) {
        row[s - 2]
    } else {
        None
    }
}

/// The greatest total with which position `s` can be reached, where `row` holds the totals
/// of the frame before.
pub open spec fn arrival(row: Seq<Total>, targets: Seq<usize>, s: int) -> Total {
    greater_of(greater_of(row[s], advance(row, s)), skip(row, targets, s))
}

/// For every position `s`, the greatest total of an alignment of the frames up to `t` that
/// is at `s` in frame `t`. An alignment starts at the first or the second position.
pub open spec fn trellis_row(
    emissions: Seq<Seq<LogProb>>,
    targets: Seq<usize>,
    t: int,
) -> Seq<Total>
    decreases t,
{
    if t <= 0 {
        Seq::new(
            targets.len(),
            |s: int|
                if s <= 1 {
                    emission(emissions, targets, 0, s)
                } else {
                    None
                },
        )
    } else {
        let before = trellis_row(emissions, targets, t - 1);
        Seq::new(
            targets.len(),
            |s: int|
                total_plus(emission(emissions, targets, t, s), arrival(before, targets, s)),
        )
    }
}

/// The position from which `s` is best reached, where `row` holds the totals of the frame
/// before. On equal totals staying goes before moving on, and moving on before skipping.
pub open spec fn predecessor(row: Seq<Total>, targets: Seq<usize>, s: int) -> int {
    let moved = advance(row, s);
    let skipped = skip(row, targets, s);
    if exceeds(skipped, moved) && exceeds(skipped, row[s]) {
        s - 2
    } else if exceeds(moved, row[s]) {
        s - 1
    } else {
        s
    }
}

/// The positions of frames `0` to `t` on the best way to position `s` in frame `t`.
pub open spec fn trace(
    emissions: Seq<Seq<LogProb>>,
    targets: Seq<usize>,
    t: int,
    s: int,
) -> Seq<int>
    decreases t,
{
    if t <= 0 {
        seq![s]
    } else {
        let row = trellis_row(emissions, targets, t - 1);
        trace(emissions, targets, t - 1, predecessor(row, targets, s)).push(s)
    }
}

/// The position at which the best alignment ends, where `row` holds the totals of the last
/// frame: the last position or the one before it, on equal totals the last.
pub open spec fn end_position(row: Seq<Total>) -> int {
    if row.len() >= 2 && exceeds(row[row.len() - 2], row[row.len() - 1]) {
        row.len() - 2
    } else {
        row.len() - 1
    }
}

/// The positions of the best alignment, one for every frame.
pub open spec fn best_positions(
    emissions: Seq<Seq<LogProb>>,
    targets: Seq<usize>,
) -> Seq<int> {
    let last = emissions.len() - 1;
    trace(emissions, targets, last, end_position(trellis_row(emissions, targets, last)))
}

/// The targets at the given positions.
pub open spec fn tokens_at(targets: Seq<usize>, positions: Seq<int>) -> Seq<usize> {
    Seq::new(positions.len(), |t: int| targets[positions[t]])
}

/// The rows of a matrix.
pub open spec fn rows<T>(m: Seq<Vec<T>>) -> Seq<Seq<T>> {
    Seq::new(m.len(), |t: int| m[t]@)
}

/// Whether every frame has a log-probability for each target that it may be aligned to: the
/// first frame for the first two targets, the others for all of them.
pub open spec fn covers(emissions: Seq<Seq<LogProb>>, targets: Seq<usize>) -> bool {
    forall|t: int, s: int|
        0 <= t < emissions.len() && 0 <= s < targets.len() && (t > 0 || s <= 1)
            ==> (#[trigger] targets[s]) < (#[trigger] emissions[t]).len()
}

/// Whether every frame has a log-probability for each target that it may be aligned to.
pub fn covers_targets(emissions: &[Vec<LogProb>], targets: &[usize]) -> (r: bool)
    ensures
        r == covers(rows(emissions@), targets@),
        r <==> forall|t: int, s: int|
            0 <= t < emissions@.len() && 0 <= s < targets@.len() && (t > 0 || s <= 1) ==> (
            #[trigger] targets@[s]) < (#[trigger] emissions@[t])@.len(),
{
    let ghost em = rows(emissions@);
    for t in 0..emissions.len()
        invariant
            em == rows(emissions@),
            forall|i: int, s: int|
                0 <= i < t && 0 <= s < targets@.len() && (i > 0 || s <= 1) ==> (
                #[trigger] targets@[s]) < (#[trigger] em[i]).len(),
    {
        let width: usize = emissions[t].len();
        assert(em[t as int].len() == width);
        for s in 0..targets.len()
            invariant
                em == rows(emissions@),
                t < emissions@.len(),
                em[t as int].len() == width,
                forall|i: int|
                    0 <= i < s && (t > 0 || i <= 1) ==> (#[trigger] targets@[i]) < width,
        {
            if (t > 0 || s <= 1) && targets[s] >= width {
                assert(!(targets@[s as int] < em[t as int].len()));
                return false;
            }
        }
    }
    assert forall|t: int, s: int|
        0 <= t < emissions@.len() && 0 <= s < targets@.len() && (t > 0 || s <= 1) implies (
    #[trigger] targets@[s]) < (#[trigger] emissions@[t])@.len() by {
        assert(targets@[s] < em[t].len());
    }
    true
}

/// A total as the code holds it.
pub open spec fn total(c: Option<i128>) -> Total {
    match c {
        Some(n) => Some(n as int),
        None => None,
    }
}

/// A row of totals as the code holds it.
pub open spec fn totals(row: Seq<Option<i128>>) -> Seq<Total> {
    Seq::new(row.len(), |s: int| total(row[s]))
}

/// Whether no total in the row is the sum of more than `n` log-probabilities.
spec fn bounded(row: Seq<Option<i128>>, n: int) -> bool {
    forall|s: int|
        0 <= s < row.len() ==> ((#[trigger] row[s]) matches Some(x) ==> -n * 0x8000_0000_0000_0000
            <= x <= n * 0x8000_0000_0000_0000)
}

fn is_greater(a: Option<i128>, b: Option<i128>) -> (r: bool)
    ensures
        r == exceeds(total(a), total(b)),
{
    match (a, b) {
        (Some(x), Some(y)) => x > y,
        (Some(_), None) => true,
        _ => false,
    }
}

fn max_total(a: Option<i128>, b: Option<i128>) -> (r: Option<i128>)
    ensures
        total(r) == greater_of(total(a), total(b)),
        r == a || r == b,
{
    if is_greater(b, a) {
        b
    } else {
        a
    }
}

fn advance_total(row: &Vec<Option<i128>>, s: usize) -> (r: Option<i128>)
    requires
        s < row@.len(),
    ensures
        total(r) == advance(totals(row@), s as int),
        r is None || exists|i: int| 0 <= i < row@.len() && r == #[trigger] row@[i],
{
    if s > 0 {
        row[s - 1]
    } else {
        None
    }
}

fn skip_total(row: &Vec<Option<i128>>, targets: &[usize], s: usize) -> (r: Option<i128>)
    requires
        s < row@.len() == targets@.len(),
    ensures
        total(r) == skip(totals(row@), targets@, s as int),
        r is None || exists|i: int| 0 <= i < row@.len() && r == #[trigger] row@[i],
{
    if s >= 2 && targets[s] != targets[0] && targets[s] != targets[s - 2] {
        row[s - 2]
    } else {
        None
    }
}

/// Adds the log-probability `p` to a sum of at most `n` of them.
fn add_emission(p: LogProb, c: Option<i128>, Ghost(n): Ghost<int>) -> (r: Option<i128>)
    requires
        0 <= n < usize::MAX,
        c matches Some(x) ==> -n * 0x8000_0000_0000_0000 <= x <= n * 0x8000_0000_0000_0000,
    ensures
        total(r) == total_plus(value_of(p), total(c)),
        r matches Some(x) ==> -(n + 1) * 0x8000_0000_0000_0000 <= x <= (n + 1)
            * 0x8000_0000_0000_0000,
{
    match (p, c) {
        (LogProb::Units(u), Some(x)) => Some(u as i128 + x),
        _ => None,
    }
}

/// The totals of the first frame.
fn first_row(frame: &Vec<LogProb>, targets: &[usize]) -> (row: Vec<Option<i128>>)
    requires
        forall|s: int| 0 <= s <= 1 && s < targets@.len() ==> #[trigger] targets@[s] < frame@.len(),
    ensures
        totals(row@) == trellis_row(seq![frame@], targets@, 0),
        bounded(row@, 1),
{
    let mut row: Vec<Option<i128>> = Vec::new();
    let n: usize = targets.len();
    for s in 0..n
        invariant
            n == targets@.len(),
            forall|s: int|
                0 <= s <= 1 && s < targets@.len() ==> #[trigger] targets@[s] < frame@.len(),
            row@.len() == s,
            bounded(row@, 1),
            forall|i: int|
                0 <= i < s ==> total(#[trigger] row@[i]) == trellis_row(
                    seq![frame@],
                    targets@,
                    0,
                )[i],
    {
        let cell: Option<i128> = if s <= 1 {
            add_emission(frame[targets[s]], Some(0), Ghost(0))
        } else {
            None
        };
        row.push(cell);
    }
    row
}

/// The totals of the frame after the one whose totals are in `before`.
fn next_row(
    before: &Vec<Option<i128>>,
    frame: &Vec<LogProb>,
    targets: &[usize],
    Ghost(n): Ghost<int>,
) -> (row: Vec<Option<i128>>)
    requires
        0 <= n < usize::MAX,
        before@.len() == targets@.len(),
        bounded(before@, n),
        forall|s: int| 0 <= s < targets@.len() ==> #[trigger] targets@[s] < frame@.len(),
    ensures
        row@.len() == targets@.len(),
        forall|s: int|
            0 <= s < row@.len() ==> total(#[trigger] row@[s]) == total_plus(
                value_of(frame@[targets@[s] as int]),
                arrival(totals(before@), targets@, s),
            ),
        bounded(row@, n + 1),
{
    let mut row: Vec<Option<i128>> = Vec::new();
    let len: usize = targets.len();
    for s in 0..len
        invariant
            0 <= n < usize::MAX,
            len == targets@.len(),
            before@.len() == targets@.len(),
            bounded(before@, n),
            forall|s: int| 0 <= s < targets@.len() ==> #[trigger] targets@[s] < frame@.len(),
            row@.len() == s,
            bounded(row@, n + 1),
            forall|i: int|
                0 <= i < s ==> total(#[trigger] row@[i]) == total_plus(
                    value_of(frame@[targets@[i] as int]),
                    arrival(totals(before@), targets@, i),
                ),
    {
        let stay: Option<i128> = before[s];
        let moved: Option<i128> = advance_total(before, s);
        let skipped: Option<i128> = skip_total(before, targets, s);
        let reached: Option<i128> = max_total(max_total(stay, moved), skipped);
        row.push(add_emission(frame[targets[s]], reached, Ghost(n)));
    }
    row
}

/// The totals of every frame.
fn forward(emissions: &[Vec<LogProb>], targets: &[usize]) -> (trellis: Vec<Vec<Option<i128>>>)
    requires
        emissions@.len() > 0,
        covers(rows(emissions@), targets@),
    ensures
        trellis@.len() == emissions@.len(),
        forall|t: int|
            0 <= t < trellis@.len() ==> totals((#[trigger] trellis@[t])@) == trellis_row(
                rows(emissions@),
                targets@,
                t,
            ),
{
    let ghost em = rows(emissions@);
    let mut trellis: Vec<Vec<Option<i128>>> = Vec::new();
    assert(em[0] == emissions@[0]@);
    let first: Vec<Option<i128>> = first_row(&emissions[0], targets);
    assert(totals(first@) == trellis_row(em, targets@, 0));
    trellis.push(first);
    let n: usize = emissions.len();
    for t in 1..n
        invariant
            n == emissions@.len(),
            em == rows(emissions@),
            covers(em, targets@),
            trellis@.len() == t,
            bounded(trellis@[t - 1]@, t as int),
            forall|i: int|
                0 <= i < t ==> totals((#[trigger] trellis@[i])@) == trellis_row(em, targets@, i),
    {
        let ghost row_before = trellis_row(em, targets@, t - 1);
        assert(totals(trellis@[t - 1]@) == row_before);
        assert(em[t as int] == emissions@[t as int]@);
        assert(trellis@[t - 1]@.len() == totals(trellis@[t - 1]@).len());
        let row: Vec<Option<i128>> = next_row(&trellis[t - 1], &emissions[t], targets, Ghost(t as int));
        assert(totals(row@) == trellis_row(em, targets@, t as int));
        trellis.push(row);
    }
    trellis
}

fn best_predecessor(row: &Vec<Option<i128>>, targets: &[usize], s: usize) -> (r: usize)
    requires
        s < row@.len() == targets@.len(),
    ensures
        r == predecessor(totals(row@), targets@, s as int),
        r <= s,
{
    let stay: Option<i128> = row[s];
    let moved: Option<i128> = advance_total(row, s);
    let skipped: Option<i128> = skip_total(row, targets, s);
    if is_greater(skipped, moved) && is_greater(skipped, stay) {
        s - 2
    } else if is_greater(moved, stay) {
        s - 1
    } else {
        s
    }
}

/// Viterbi CTC forced alignment.
///
/// Given the emission log-probabilities of every frame and a CTC target sequence with
/// interleaved blanks, finds the best alignment of frames to targets and returns, for every
/// frame, the target token that it is aligned to.
pub fn viterbi_forced_align(
    emissions: &[Vec<LogProb>],
    targets: &[usize],
) -> (r: Result<Vec<usize>, AlignError>)
    requires
        emissions@.len() >= targets@.len() ==> covers(rows(emissions@), targets@),
    ensures
        match r {
            Err(e) => emissions@.len() < targets@.len() && e == (AlignError::TooFewFrames {
                frames: emissions@.len() as usize,
                targets: targets@.len() as usize,
            }),
            Ok(path) => emissions@.len() >= targets@.len() && path@ == if targets@.len() == 0 {
                Seq::empty()
            } else {
                tokens_at(targets@, best_positions(rows(emissions@), targets@))
            },
        },
        r matches Ok(path) ==> path@.len() == if targets@.len() == 0 {
            0
        } else {
            emissions@.len()
        },
{
    let t_len: usize = emissions.len();
    let s_len: usize = targets.len();
    if t_len < s_len {
        return Err(AlignError::TooFewFrames { frames: t_len, targets: s_len });
    }
    if s_len == 0 {
        return Ok(Vec::new());
    }
    let ghost em = rows(emissions@);
    let trellis: Vec<Vec<Option<i128>>> = forward(emissions, targets);
    let last_row: &Vec<Option<i128>> = &trellis[t_len - 1];
    let ghost last_totals = trellis_row(em, targets@, t_len - 1);
    assert(totals(last_row@) == last_totals);
    let mut s: usize = if s_len >= 2 && is_greater(last_row[s_len - 2], last_row[s_len - 1]) {
        s_len - 2
    } else {
        s_len - 1
    };
    let ghost positions = best_positions(em, targets@);
    assert(s == end_position(last_totals));
    proof {
        lemma_trace(em, targets@, t_len - 1, s as int);
    }
    let mut path: Vec<usize> = vec![0usize; t_len];
    path.set(t_len - 1, targets[s]);
    let mut t: usize = t_len - 1;
    while t > 0
        invariant
            t < t_len == emissions@.len() == trellis@.len() == path@.len(),
            s < s_len == targets@.len(),
            em == rows(emissions@),
            positions == best_positions(em, targets@),
            forall|i: int|
                0 <= i < t_len ==> totals((#[trigger] trellis@[i])@) == trellis_row(
                    em,
                    targets@,
                    i,
                ),
            positions.len() == t_len,
            positions.take(t + 1) == trace(em, targets@, t as int, s as int),
            forall|i: int|
                t <= i < t_len ==> #[trigger] path@[i] == targets@[positions[i]],
        decreases t,
    {
        assert(totals(trellis@[t - 1]@) == trellis_row(em, targets@, t - 1));
        assert(trellis@[t - 1]@.len() == totals(trellis@[t - 1]@).len());
        s = best_predecessor(&trellis[t - 1], targets, s);
        t = t - 1;
        proof {
            lemma_trace(em, targets@, t as int, s as int);
            assert(positions.take(t + 1) == positions.take(t + 2).drop_last());
            assert(positions.take(t + 1) == trace(em, targets@, t as int, s as int));
            assert(positions[t as int] == positions.take(t + 1).last());
        }
        path.set(t, targets[s]);
    }
    assert(path@ == tokens_at(targets@, positions));
    Ok(path)
}

/// A trace has one position for every frame, stays among the targets and ends where it should.
pub(crate) proof fn lemma_trace(emissions: Seq<Seq<LogProb>>, targets: Seq<usize>, t: int, s: int)
    requires
        t >= 0,
        0 <= s < targets.len(),
    ensures
        trace(emissions, targets, t, s).len() == t + 1,
        trace(emissions, targets, t, s).last() == s,
        forall|i: int|
            0 <= i <= t ==> 0 <= #[trigger] trace(emissions, targets, t, s)[i] < targets.len(),
    decreases t,
{
    if t > 0 {
        let row = trellis_row(emissions, targets, t - 1);
        lemma_trace(emissions, targets, t - 1, predecessor(row, targets, s));
    }
}

/// How many times the path has come to the token `space`.
pub open spec fn spaces_passed(path: Seq<usize>, space: Option<nat>) -> int
    decreases path.len(),
{
    if path.len() == 0 {
        0
    } else {
        let before = spaces_passed(path.drop_last(), space);
        if space == Some(path.last() as nat) && !(path.len() > 1 && path[path.len() - 2]
            == path.last()) {
            before + 1
        } else {
            before
        }
    }
}

/// Whether the last frame of the path belongs to one of the parts from `from` on and before
/// `to`: it is neither blank nor a space, and as many spaces came before it as parts do.
pub open spec fn ends_in_parts(
    path: Seq<usize>,
    blank_id: usize,
    space: Option<nat>,
    from: int,
    to: int,
) -> bool {
    &&& path.last() != blank_id
    &&& space != Some(path.last() as nat)
    &&& from <= spaces_passed(path, space) < to
}

/// The first frame of the path that belongs to one of the parts from `from` on and before `to`.
pub open spec fn first_spoken(
    path: Seq<usize>,
    blank_id: usize,
    space: Option<nat>,
    from: int,
    to: int,
) -> Option<int>
    decreases path.len(),
{
    if path.len() == 0 {
        None
    } else {
        match first_spoken(path.drop_last(), blank_id, space, from, to) {
            Some(t) => Some(t),
            None => if ends_in_parts(path, blank_id, space, from, to) {
                Some(path.len() - 1)
            } else {
                None
            },
        }
    }
}

/// The last frame of the path that belongs to one of the parts from `from` on and before `to`.
pub open spec fn last_spoken(
    path: Seq<usize>,
    blank_id: usize,
    space: Option<nat>,
    from: int,
    to: int,
) -> Option<int>
    decreases path.len(),
{
    if path.len() == 0 {
        None
    } else if ends_in_parts(path, blank_id, space, from, to) {
        Some(path.len() - 1)
    } else {
        last_spoken(path.drop_last(), blank_id, space, from, to)
    }
}

/// How many parts the words have together, where every word comes with the number of its parts.
pub open spec fn parts_in(words: Seq<(Seq<char>, nat)>) -> nat
    decreases words.len(),
{
    if words.len() == 0 {
        0
    } else {
        parts_in(words.drop_last()) + words.last().1
    }
}

/// When the last of the words ends, or 0 if there is none.
pub open spec fn end_of(words: Seq<TimedWord>) -> nat {
    if words.len() == 0 {
        0
    } else {
        words.last().end
    }
}

/// The words with their times, where every word comes with the number of its parts. A word
/// lasts from the start of the first frame to the end of the last that belongs to one of its
/// parts, and a frame lasts `millis` milliseconds. A word without frames takes no time: it
/// starts and ends where the word before it ends.
pub open spec fn spoken_as_provided(
    words: Seq<(Seq<char>, nat)>,
    path: Seq<usize>,
    blank_id: usize,
    space: Option<nat>,
    millis: nat,
) -> Seq<TimedWord>
    decreases words.len(),
{
    if words.len() == 0 {
        Seq::empty()
    } else {
        let before = spoken_as_provided(words.drop_last(), path, blank_id, space, millis);
        let from = parts_in(words.drop_last()) as int;
        let to = parts_in(words) as int;
        let (start, end) = match (
            first_spoken(path, blank_id, space, from, to),
            last_spoken(path, blank_id, space, from, to),
        ) {
            (Some(first), Some(last)) => ((first * millis) as nat, ((last + 1) * millis) as nat),
            _ => (end_of(before), end_of(before)),
        };
        before.push(TimedWord { word: words.last().0, start, end })
    }
}

/// The views of words with the numbers of their parts.
pub open spec fn counted_words(v: Seq<(String, usize)>) -> Seq<(Seq<char>, nat)> {
    Seq::new(v.len(), |i: int| (v[i].0@, v[i].1 as nat))
}

/// The number of the first part of word `k`.
spec fn first_part(words: Seq<(Seq<char>, nat)>, k: int) -> int {
    parts_in(words.take(k)) as int
}

/// The parts of a word come before those of the words after it.
proof fn lemma_parts_in_order(words: Seq<(Seq<char>, nat)>, j: int, k: int)
    requires
        0 <= j <= k <= words.len(),
    ensures
        first_part(words, j) <= first_part(words, k),
    decreases k - j,
{
    if j < k {
        assert(words.take(k).drop_last() == words.take(k - 1));
        lemma_parts_in_order(words, j, k - 1);
    }
}

/// Whether part `part` is one of the parts of word `k`.
spec fn is_part_of(words: Seq<(Seq<char>, nat)>, part: int, k: int) -> bool {
    0 <= k < words.len() && first_part(words, k) <= part < first_part(words, k + 1)
}

/// No word has a part behind all parts.
proof fn lemma_parts_end(words: Seq<(Seq<char>, nat)>, part: int, k: int)
    requires
        0 <= k < words.len(),
    ensures
        part >= parts_in(words) ==> !is_part_of(words, part, k),
{
    assert(words.take(words.len() as int) == words);
    lemma_parts_in_order(words, k + 1, words.len() as int);
}

/// A part belongs to one word only.
proof fn lemma_one_owner(words: Seq<(Seq<char>, nat)>, part: int, j: int, k: int)
    requires
        is_part_of(words, part, j),
        0 <= k < words.len(),
    ensures
        is_part_of(words, part, k) <==> j == k,
{
    if k < j {
        lemma_parts_in_order(words, k + 1, j);
    } else if k > j {
        lemma_parts_in_order(words, j + 1, k);
    }
}

/// For every part the word that it belongs to.
fn part_owners(words: &Vec<(String, usize)>) -> (owners: Vec<usize>)
    ensures
        owners@.len() == parts_in(counted_words(words@)),
        forall|part: int|
            0 <= part < owners@.len() ==> is_part_of(
                counted_words(words@),
                part,
                #[trigger] owners@[part] as int,
            ),
{
    let ghost all = counted_words(words@);
    let mut owners: Vec<usize> = Vec::new();
    let n: usize = words.len();
    for k in 0..n
        invariant
            n == words@.len() == all.len(),
            all == counted_words(words@),
            owners@.len() == first_part(all, k as int),
            forall|part: int|
                0 <= part < owners@.len() ==> is_part_of(all, part, #[trigger] owners@[part] as int),
    {
        assert(all.take(k + 1).drop_last() == all.take(k as int));
        let count: usize = words[k].1;
        for i in 0..count
            invariant
                k < n == all.len(),
                first_part(all, k + 1) == first_part(all, k as int) + count,
                owners@.len() == first_part(all, k as int) + i,
                forall|part: int|
                    0 <= part < owners@.len() ==> is_part_of(
                        all,
                        part,
                        #[trigger] owners@[part] as int,
                    ),
        {
            owners.push(k);
        }
    }
    assert(all.take(n as int) == all);
    owners
}

/// Whether `range` holds the first and the last frame of word `k` on the path, if it has any.
spec fn spoken_range(
    range: Option<(usize, usize)>,
    words: Seq<(Seq<char>, nat)>,
    path: Seq<usize>,
    blank_id: usize,
    space: Option<nat>,
    k: int,
) -> bool {
    let from = first_part(words, k);
    let to = first_part(words, k + 1);
    match range {
        Some((first, last)) => first_spoken(path, blank_id, space, from, to) == Some(first as int)
            && last_spoken(path, blank_id, space, from, to) == Some(last as int) && last
            < usize::MAX,
        None => first_spoken(path, blank_id, space, from, to) is None && last_spoken(
            path,
            blank_id,
            space,
            from,
            to,
        ) is None,
    }
}

/// What one more frame does to the range of a word: if the frame belongs to the word, it is the
/// last, and the first if there was none.
proof fn lemma_next_range(
    range: Option<(usize, usize)>,
    next: Option<(usize, usize)>,
    words: Seq<(Seq<char>, nat)>,
    path: Seq<usize>,
    blank_id: usize,
    space: Option<nat>,
    k: int,
)
    requires
        0 < path.len() <= usize::MAX,
        spoken_range(range, words, path.drop_last(), blank_id, space, k),
        next == if ends_in_parts(
            path,
            blank_id,
            space,
            first_part(words, k),
            first_part(words, k + 1),
        ) {
            let t = (path.len() - 1) as usize;
            match range {
                Some((first, _)) => Some((first, t)),
                None => Some((t, t)),
            }
        } else {
            range
        },
    ensures
        spoken_range(next, words, path, blank_id, space, k),
{
}

/// The first and the last frame of each of the words.
fn spoken_ranges(
    words: &Vec<(String, usize)>,
    path: &[usize],
    blank_id: usize,
    space: Option<usize>,
) -> (ranges: Vec<Option<(usize, usize)>>)
    ensures
        ranges@.len() == words@.len(),
        forall|k: int|
            0 <= k < words@.len() ==> spoken_range(
                #[trigger] ranges@[k],
                counted_words(words@),
                path@,
                blank_id,
                id_of(space),
                k,
            ),
{
    let ghost gap = id_of(space);
    let ghost all = counted_words(words@);
    let owners: Vec<usize> = part_owners(words);
    let n: usize = words.len();
    let mut ranges: Vec<Option<(usize, usize)>> = vec![None; n];
    let mut passed: usize = 0;
    let frames: usize = path.len();
    for t in 0..frames
        invariant
            frames == path@.len(),
            gap == id_of(space),
            n == words@.len() == all.len(),
            owners@.len() == parts_in(all),
            forall|part: int|
                0 <= part < owners@.len() ==> is_part_of(all, part, #[trigger] owners@[part] as int),
            passed == spaces_passed(path@.take(t as int), gap),
            passed <= t,
            ranges@.len() == n,
            forall|k: int|
                0 <= k < n ==> spoken_range(
                    #[trigger] ranges@[k],
                    all,
                    path@.take(t as int),
                    blank_id,
                    gap,
                    k,
                ),
    {
        let ghost seen = path@.take(t as int);
        let ghost now = path@.take(t + 1);
        let ghost old_ranges = ranges@;
        assert(now.drop_last() == seen);
        assert(now.last() == path@[t as int]);
        assert(t > 0 ==> now[now.len() - 2] == path@[t - 1]);
        let token: usize = path[t];
        let is_space: bool = match space {
            Some(id) => id == token,
            None => false,
        };
        if is_space {
            if !(t > 0 && path[t - 1] == token) {
                passed = passed + 1;
            }
        } else if token != blank_id && passed < owners.len() {
            let owner: usize = owners[passed];
            assert(is_part_of(all, passed as int, owner as int));
            let first: usize = match ranges[owner] {
                Some((first, _)) => first,
                None => t,
            };
            assert(spoken_range(old_ranges[owner as int], all, seen, blank_id, gap, owner as int));
            ranges.set(owner, Some((first, t)));
        }
        assert forall|k: int| 0 <= k < n implies spoken_range(
            #[trigger] ranges@[k],
            all,
            now,
            blank_id,
            gap,
            k,
        ) by {
            assert(spoken_range(old_ranges[k], all, seen, blank_id, gap, k));
            lemma_parts_end(all, passed as int, k);
            if passed < owners@.len() {
                assert(is_part_of(all, passed as int, owners@[passed as int] as int));
                lemma_one_owner(all, passed as int, owners@[passed as int] as int, k);
            }
            lemma_next_range(old_ranges[k], ranges@[k], all, now, blank_id, gap, k);
        }
    }
    assert(path@.take(frames as int) == path@);
    ranges
}

/// A token ID that may be missing.
pub open spec fn id_of(id: Option<usize>) -> Option<nat> {
    match id {
        Some(n) => Some(n as nat),
        None => None,
    }
}

/// Turns the path of an alignment into word timestamps.
///
/// The words are those of `text`, as they stand there. What was aligned are their alignable
/// parts: consecutive frames that are neither blank nor a space belong to one part, and the
/// space token separates the parts. A word lasts from the first frame of its parts to the end
/// of the last. A word without frames, such as a number, takes no time: it starts and ends
/// where the word before it ends, or with the audio if it is the first.
pub fn path_to_word_timestamps(
    path: &[usize],
    text: &str,
    vocab: &[String],
    blank_id: usize,
    frame_millis: u64,
) -> (r: Vec<WordTimestamp>)
    ensures
        timed_words(r@) == spoken_as_provided(
            provided_words(text@),
            path@,
            blank_id,
            token_id(views(vocab@), seq![' ']),
            frame_millis as nat,
        ),
        r@.len() == words_of(text@).len(),
        forall|k: int| 0 <= k < r@.len() ==> (#[trigger] r@[k]).word@ == words_of(text@)[k],
{
    let words: Vec<(String, usize)> = count_parts(text);
    let key: String = char_to_lowercase(' ');
    let space: Option<usize> = find_token(vocab, &key);
    let n: usize = words.len();
    let ranges: Vec<Option<(usize, usize)>> = spoken_ranges(&words, path, blank_id, space);
    let ghost all = counted_words(words@);
    let ghost gap = id_of(space);
    assert(gap == token_id(views(vocab@), seq![' ']));
    let mut r: Vec<WordTimestamp> = Vec::new();
    let mut end: Seconds = Seconds { millis: 0 };
    for k in 0..n
        invariant
            n == words@.len(),
            all == counted_words(words@),
            ranges@.len() == n,
            forall|k: int|
                0 <= k < n ==> spoken_range(#[trigger] ranges@[k], all, path@, blank_id, gap, k),
            timed_words(r@) == spoken_as_provided(
                all.take(k as int),
                path@,
                blank_id,
                gap,
                frame_millis as nat,
            ),
            end.millis == end_of(timed_words(r@)),
            r@.len() == k,
            forall|i: int| 0 <= i < k ==> (#[trigger] r@[i]).word@ == all[i].0,
    {
        let ghost before = timed_words(r@);
        assert(all.take(k + 1).drop_last() == all.take(k as int));
        assert(all.take(k + 1).last().0 == words@[k as int].0@);
        assert(spoken_range(ranges@[k as int], all, path@, blank_id, gap, k as int));
        let mut start: Seconds = end;
        if let Some((first, last)) = ranges[k] {
            assert(first * frame_millis <= usize::MAX * u64::MAX && (last + 1) * frame_millis
                <= usize::MAX * u64::MAX) by (nonlinear_arith)
                requires
                    first <= usize::MAX,
                    last + 1 <= usize::MAX,
                    0 <= frame_millis <= u64::MAX,
            ;
            start = Seconds { millis: first as u128 * frame_millis as u128 };
            end = Seconds { millis: (last + 1) as u128 * frame_millis as u128 };
        }
        r.push(WordTimestamp { word: words[k].0.clone(), start_sec: start, end_sec: end });
        assert(timed_words(r@) == before.push(r@.last()@));
    }
    assert(all.take(n as int) == all);
    r
}

} // verus!
