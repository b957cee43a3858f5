//! Alignment of tokens to audio frames by dynamic time warping.

use vstd::prelude::*;

use crate::alignment::forced_align::{
    rows, timed_words, LogProb, Seconds, TimedWord, WordTimestamp,
};
use crate::alignment::text::{begins_with_space, starts_with_space, trim, trimmed};

verus! {

/// Samples from one mel-spectrogram frame to the next.
pub const HOP_LENGTH: usize = 160;

/// Samples per second.
pub const SAMPLE_RATE: usize = 16000;

/// Config subset needed by the decoder that captures cross-attention weights.
#[derive(Debug, Clone)]
pub struct DecoderConfig {
    pub d_model: usize,
    pub decoder_attention_heads: usize,
    pub max_target_positions: usize,
    pub vocab_size: usize,
    pub decoder_layers: usize,
}

/// What is added to the attention score of position `i` for position `j`: nothing if `j` is not
/// after `i`, and minus infinity if it is.
pub open spec fn mask_entry(i: int, j: int) -> LogProb {
    if j > i {
        LogProb::NegInf
    } else {
        LogProb::Units(0)
    }
}

/// Causal mask: the rows of a square matrix of `n_ctx` positions, one after the other, with
/// minus infinity above the diagonal.
pub fn causal_mask(n_ctx: usize) -> (mask: Vec<LogProb>)
    ensures
        mask@.len() == n_ctx * n_ctx,
        forall|i: int, j: int|
            #![trigger mask_entry(i, j)]
            0 <= i < n_ctx && 0 <= j < n_ctx ==> {
                &&& mask@[i * n_ctx + j] == mask_entry(i, j)
                &&& mask@[i * n_ctx + j] == if j > i {
                    LogProb::NegInf
                } else {
                    LogProb::Units(0)
                }
            },
{
    let mut mask: Vec<LogProb> = Vec::new();
    assert(0 * n_ctx == 0) by (nonlinear_arith);
    for i in 0..n_ctx
        invariant
            mask@.len() == i * n_ctx,
            forall|a: int, b: int|
                #![trigger mask_entry(a, b)]
                0 <= a < i && 0 <= b < n_ctx ==> mask@[a * n_ctx + b] == mask_entry(a, b),
    {
        for j in 0..n_ctx
            invariant
                i < n_ctx,
                mask@.len() == i * n_ctx + j,
                forall|a: int, b: int|
                    #![trigger mask_entry(a, b)]
                    (0 <= a < i && 0 <= b < n_ctx) || (a == i && 0 <= b < j) ==> mask@[a * n_ctx
                        + b] == mask_entry(a, b),
        {
            let ghost before = mask@;
            if j > i {
                mask.push(LogProb::NegInf);
            } else {
                mask.push(LogProb::Units(0));
            }
            assert forall|a: int, b: int|
                #![trigger mask_entry(a, b)]
                (0 <= a < i && 0 <= b < n_ctx) || (a == i && 0 <= b < j + 1) implies mask@[a
                * n_ctx + b] == mask_entry(a, b) by {
                if a < i {
                    assert(a * n_ctx + b < i * n_ctx && a * n_ctx >= 0) by (nonlinear_arith)
                        requires
                            0 <= a < i,
                            0 <= b < n_ctx,
                    ;
                } else {
                    assert(a * n_ctx >= 0) by (nonlinear_arith)
                        requires
                            0 <= a,
                            0 <= n_ctx,
                    ;
                }
                if a < i || b < j {
                    assert(mask@[a * n_ctx + b] == before[a * n_ctx + b]);
                }
            }
        }
        assert((i + 1) * n_ctx == i * n_ctx + n_ctx) by (nonlinear_arith);
    }
    mask
}

/// The lesser of two numbers.
pub open spec fn lesser_of(a: int, b: int) -> int {
    if b < a {
        b
    } else {
        a
    }
}

/// The cost of the cheapest way from cell `(0, 0)` to cell `(i, j)`: every cell costs its
/// negated attention, and a way goes on to the next token, to the next frame, or to both.
pub open spec fn cost(attention: Seq<Seq<i64>>, i: int, j: int) -> int
    decreases i + j,
{
    -attention[i][j] + if i < 0 || j < 0 || (i == 0 && j == 0) {
        0
    } else if i == 0 {
        cost(attention, i, j - 1)
    } else if j == 0 {
        cost(attention, i - 1, j)
    } else {
        lesser_of(
            lesser_of(cost(attention, i - 1, j), cost(attention, i, j - 1)),
            cost(attention, i - 1, j - 1),
        )
    }
}

/// The cell from which `(i, j)` is reached most cheaply. On equal costs the diagonal goes
/// before the token above, and that before the frame to the left.
pub open spec fn cell_before(attention: Seq<Seq<i64>>, i: int, j: int) -> (int, int) {
    if i == 0 {
        (i, j - 1)
    } else if j == 0 {
        (i - 1, j)
    } else {
        let diag = cost(attention, i - 1, j - 1);
        let up = cost(attention, i - 1, j);
        let left = cost(attention, i, j - 1);
        if diag <= up && diag <= left {
            (i - 1, j - 1)
        } else if up <= left {
            (i - 1, j)
        } else {
            (i, j - 1)
        }
    }
}

/// The cells of the cheapest way from `(0, 0)` to `(i, j)`.
pub open spec fn warp_path(attention: Seq<Seq<i64>>, i: int, j: int) -> Seq<(int, int)>
    decreases i + j,
{
    if i < 0 || j < 0 || (i == 0 && j == 0) {
        seq![(i, j)]
    } else {
        let (i0, j0) = cell_before(attention, i, j);
        warp_path(attention, i0, j0).push((i, j))
    }
}

/// The first frame of token `i` on the way.
pub open spec fn first_frame(path: Seq<(int, int)>, i: int) -> Option<int>
    decreases path.len(),
{
    if path.len() == 0 {
        None
    } else {
        match first_frame(path.drop_last(), i) {
            Some(j) => Some(j),
            None => if path.last().0 == i {
                Some(path.last().1)
            } else {
                None
            },
        }
    }
}

/// The last frame of token `i` on the way.
pub open spec fn last_frame(path: Seq<(int, int)>, i: int) -> Option<int>
    decreases path.len(),
{
    if path.len() == 0 {
        None
    } else if path.last().0 == i {
        Some(path.last().1)
    } else {
        last_frame(path.drop_last(), i)
    }
}

/// For every token its index and the range of frames that the cheapest way gives it, the end
/// of the range not in it.
pub open spec fn token_ranges(attention: Seq<Seq<i64>>) -> Seq<(usize, usize, usize)> {
    if attention.len() == 0 || attention[0].len() == 0 {
        Seq::empty()
    } else {
        let path = warp_path(attention, attention.len() - 1, attention[0].len() - 1);
        Seq::new(
            attention.len(),
            |i: int|
                (
                    i as usize,
                    first_frame(path, i)->0 as usize,
                    (last_frame(path, i)->0 + 1) as usize,
                ),
        )
    }
}

/// Whether a way of single steps from `(0, 0)` to `(i, j)` leads through the cells of `path`.
pub open spec fn is_warp_path(path: Seq<(int, int)>, i: int, j: int) -> bool
    decreases path.len(),
{
    &&& path.len() > 0
    &&& path.last() == (i, j)
    &&& i >= 0 && j >= 0
    &&& if path.len() == 1 {
        i == 0 && j == 0
    } else {
        let (i0, j0) = path[path.len() - 2];
        &&& is_warp_path(path.drop_last(), i0, j0)
        &&& (i0 == i || i0 == i - 1) && (j0 == j || j0 == j - 1) && (i0, j0) != (i, j)
    }
}

/// The cost of a way: the sum over its cells.
pub open spec fn path_cost(attention: Seq<Seq<i64>>, path: Seq<(int, int)>) -> int
    decreases path.len(),
{
    if path.len() == 0 {
        0
    } else {
        let (i, j) = path.last();
        -attention[i][j] + path_cost(attention, path.drop_last())
    }
}

/// The cheapest way is a way, and it costs what it should.
pub(crate) proof fn lemma_warp_path(attention: Seq<Seq<i64>>, i: int, j: int)
    requires
        i >= 0,
        j >= 0,
    ensures
        forall|q: int|
            0 <= q < warp_path(attention, i, j).len() ==> 0 <= (#[trigger] warp_path(
                attention,
                i,
                j,
            )[q]).0 <= i && 0 <= warp_path(attention, i, j)[q].1 <= j,
        is_warp_path(warp_path(attention, i, j), i, j),
        path_cost(attention, warp_path(attention, i, j)) == cost(attention, i, j),
    decreases i + j,
{
    let path = warp_path(attention, i, j);
    if i == 0 && j == 0 {
        assert(path.drop_last() == Seq::<(int, int)>::empty());
        assert(path_cost(attention, path.drop_last()) == 0);
    } else {
        let (i0, j0) = cell_before(attention, i, j);
        lemma_warp_path(attention, i0, j0);
        let before = warp_path(attention, i0, j0);
        assert(path.drop_last() == before);
        assert(before.last() == (i0, j0));
        assert(path[path.len() - 2] == before.last());
    }
}

/// No way is cheaper than the cost of its end.
pub(crate) proof fn lemma_cost_is_least(attention: Seq<Seq<i64>>, path: Seq<(int, int)>, i: int, j: int)
    requires
        is_warp_path(path, i, j),
    ensures
        cost(attention, i, j) <= path_cost(attention, path),
    decreases path.len(),
{
    if path.len() == 1 {
        assert(path.drop_last() == Seq::<(int, int)>::empty());
        assert(path_cost(attention, path.drop_last()) == 0);
    } else {
        let (i0, j0) = path[path.len() - 2];
        assert(is_warp_path(path.drop_last(), i0, j0));
        lemma_cost_is_least(attention, path.drop_last(), i0, j0);
    }
}

/// The alignment follows a way of least cost through the attention matrix.
pub proof fn law_warping_is_optimal(
    attention: Seq<Seq<i64>>,
    other: Seq<(int, int)>,
    i: int,
    j: int,
)
    requires
        is_warp_path(other, i, j),
    ensures
        is_warp_path(warp_path(attention, i, j), i, j),
        path_cost(attention, warp_path(attention, i, j)) <= path_cost(attention, other),
{
    lemma_warp_path(attention, i, j);
    lemma_cost_is_least(attention, other, i, j);
}

/// Of every way to `(i, j)`: the tokens up to `i` all have frames, the first token starts at
/// frame 0, token `i` ends at frame `j`, and a token starts at the last frame of the token
/// before it or at the frame after that.
pub(crate) proof fn lemma_ranges(path: Seq<(int, int)>, i: int, j: int)
    requires
        is_warp_path(path, i, j),
    ensures
        first_frame(path, 0) == Some(0int),
        last_frame(path, i) == Some(j),
        forall|k: int| 0 <= k <= i ==> has_range(path, k) && last_frame(path, k)->0 <= j,
        forall|k: int| k > i ==> (#[trigger] first_frame(path, k)) is None,
        forall|k: int| 0 <= k < i ==> meets_next(path, k),
    decreases path.len(),
{
    if path.len() == 1 {
        assert(path.drop_last() == Seq::<(int, int)>::empty());
        assert(forall|k: int| first_frame(path.drop_last(), k) is None);
        assert(forall|k: int| last_frame(path.drop_last(), k) is None);
        assert(first_frame(path.drop_last(), 0) is None);
        assert(path.last() == (0int, 0int));
        assert forall|k: int| k > i implies (#[trigger] first_frame(path, k)) is None by {
            assert(first_frame(path.drop_last(), k) is None);
        }
    } else {
        let before = path.drop_last();
        let (i0, j0) = path[path.len() - 2];
        assert(is_warp_path(before, i0, j0));
        lemma_ranges(before, i0, j0);
        assert forall|k: int| 0 <= k <= i implies has_range(path, k) && last_frame(path, k)->0
            <= j by {
            assert(k <= i0 ==> has_range(before, k));
            assert(k > i0 ==> first_frame(before, k) is None);
        }
        assert forall|k: int| 0 <= k < i implies meets_next(path, k) by {
            assert(has_range(before, k));
            if k < i0 {
                assert(meets_next(before, k));
                assert(has_range(before, k + 1));
            } else {
                assert(first_frame(before, k + 1) is None);
            }
        }
        assert forall|k: int| k > i implies (#[trigger] first_frame(path, k)) is None by {
            assert(first_frame(before, k) is None);
        }
    }
}

/// Whether token `k` has frames, none of which comes before its first or after its last.
pub open spec fn has_range(path: Seq<(int, int)>, k: int) -> bool {
    &&& first_frame(path, k) is Some
    &&& last_frame(path, k) is Some
    &&& 0 <= first_frame(path, k)->0 <= last_frame(path, k)->0
}

/// Whether token `k + 1` starts at the last frame of token `k` or at the frame after that.
pub open spec fn meets_next(path: Seq<(int, int)>, k: int) -> bool {
    last_frame(path, k)->0 <= first_frame(path, k + 1)->0 <= last_frame(path, k)->0 + 1
}

/// The ranges of the tokens cover the audio without a gap: there is one for every token, the
/// first starts at frame 0 and the last ends with the last frame, none is empty, and each
/// starts at the last frame of the one before it or at the frame after that. So starts and
/// ends never decrease.
pub proof fn law_ranges_cover_audio(attention: Seq<Seq<i64>>)
    requires
        0 < attention.len() <= usize::MAX,
        0 < attention[0].len() <= usize::MAX,
    ensures
        token_ranges(attention).len() == attention.len(),
        token_ranges(attention)[0].1 == 0,
        token_ranges(attention).last().2 == attention[0].len(),
        forall|k: int|
            0 <= k < attention.len() ==> {
                let range = #[trigger] token_ranges(attention)[k];
                range.0 == k && range.1 < range.2 <= attention[0].len()
            },
        forall|k: int|
            #![trigger token_ranges(attention)[k]]
            0 <= k < attention.len() - 1 ==> token_ranges(attention)[k].2 - 1 <= token_ranges(
                attention,
            )[k + 1].1 <= token_ranges(attention)[k].2,
{
    let n = attention.len() - 1;
    let m = attention[0].len() - 1;
    let path = warp_path(attention, n, m);
    lemma_warp_path(attention, n, m);
    lemma_ranges(path, n, m);
    assert forall|k: int| 0 <= k < attention.len() implies {
        let range = #[trigger] token_ranges(attention)[k];
        range.0 == k && range.1 < range.2 <= attention[0].len()
    } by {
        assert(has_range(path, k));
    }
    assert forall|k: int|
        #![trigger token_ranges(attention)[k]]
        0 <= k < attention.len() - 1 implies token_ranges(attention)[k].2 - 1 <= token_ranges(
        attention,
    )[k + 1].1 <= token_ranges(attention)[k].2 by {
        assert(meets_next(path, k));
        assert(has_range(path, k));
        assert(has_range(path, k + 1));
    }
    assert(has_range(path, 0));
    assert(has_range(path, n));
}

/// Whether the cells of the first `n` rows of `costs` hold the costs of the cells.
spec fn holds_costs(costs: Seq<Vec<i128>>, attention: Seq<Seq<i64>>, n: int) -> bool {
    forall|i: int|
        0 <= i < n ==> row_holds_costs((#[trigger] costs[i])@, attention, i, attention[0].len()
            as int)
}

/// Whether the first `n` cells of `row` hold the costs of the cells of row `i`.
spec fn row_holds_costs(row: Seq<i128>, attention: Seq<Seq<i64>>, i: int, n: int) -> bool {
    &&& row.len() == n
    &&& forall|j: int| 0 <= j < n ==> #[trigger] row[j] == cost(attention, i, j)
}

/// A cost is a sum of `i + j + 1` weights at most.
proof fn lemma_cost_bound(attention: Seq<Seq<i64>>, i: int, j: int)
    requires
        i >= 0,
        j >= 0,
    ensures
        -(i + j + 1) * 0x8000_0000_0000_0000 <= cost(attention, i, j) <= (i + j + 1)
            * 0x8000_0000_0000_0000,
    decreases i + j,
{
    if i > 0 {
        lemma_cost_bound(attention, i - 1, j);
    }
    if j > 0 {
        lemma_cost_bound(attention, i, j - 1);
    }
    if i > 0 && j > 0 {
        lemma_cost_bound(attention, i - 1, j - 1);
    }
}

fn min_cost(a: i128, b: i128) -> (r: i128)
    ensures
        r == lesser_of(a as int, b as int),
{
    if b < a {
        b
    } else {
        a
    }
}

/// The costs of the cells of row `i`, where `costs` holds the rows before it.
fn cost_row(attention: &[Vec<i64>], costs: &Vec<Vec<i128>>, i: usize) -> (row: Vec<i128>)
    requires
        i == costs@.len() < attention@.len(),
        attention@.len() + attention@[0]@.len() <= usize::MAX,
        attention@[i as int]@.len() >= attention@[0]@.len(),
        holds_costs(costs@, rows(attention@), i as int),
    ensures
        row_holds_costs(row@, rows(attention@), i as int, attention@[0]@.len() as int),
{
    let ghost att = rows(attention@);
    let n_audio: usize = attention[0].len();
    let mut row: Vec<i128> = Vec::new();
    for j in 0..n_audio
        invariant
            att == rows(attention@),
            n_audio == attention@[0]@.len() == att[0].len(),
            i == costs@.len() < attention@.len(),
            attention@.len() + n_audio <= usize::MAX,
            attention@[i as int]@.len() >= n_audio,
            holds_costs(costs@, att, i as int),
            row_holds_costs(row@, att, i as int, j as int),
    {
        proof {
            if i > 0 {
                assert(row_holds_costs(costs@[i - 1]@, att, i - 1, n_audio as int));
                lemma_cost_bound(att, i - 1, j as int);
            }
            if j > 0 {
                lemma_cost_bound(att, i as int, j - 1);
            }
            if i > 0 && j > 0 {
                lemma_cost_bound(att, i - 1, j - 1);
            }
        }
        let before: i128 = if i == 0 && j == 0 {
            0
        } else if i == 0 {
            row[j - 1]
        } else if j == 0 {
            costs[i - 1][j]
        } else {
            min_cost(min_cost(costs[i - 1][j], row[j - 1]), costs[i - 1][j - 1])
        };
        let weight: i64 = attention[i][j];
        assert(att[i as int][j as int] == weight);
        row.push(before - weight as i128);
    }
    row
}

/// The costs of all cells.
fn cost_matrix(attention: &[Vec<i64>]) -> (costs: Vec<Vec<i128>>)
    requires
        attention@.len() > 0,
        attention@.len() + attention@[0]@.len() <= usize::MAX,
        forall|i: int|
            0 <= i < attention@.len() ==> (#[trigger] attention@[i])@.len()
                >= attention@[0]@.len(),
    ensures
        costs@.len() == attention@.len(),
        holds_costs(costs@, rows(attention@), attention@.len() as int),
{
    let n_text: usize = attention.len();
    let mut costs: Vec<Vec<i128>> = Vec::new();
    for i in 0..n_text
        invariant
            n_text == attention@.len() > 0,
            attention@.len() + attention@[0]@.len() <= usize::MAX,
            forall|i: int|
                0 <= i < attention@.len() ==> (#[trigger] attention@[i])@.len()
                    >= attention@[0]@.len(),
            costs@.len() == i,
            holds_costs(costs@, rows(attention@), i as int),
    {
        let row: Vec<i128> = cost_row(attention, &costs, i);
        costs.push(row);
    }
    costs
}

/// The cells of the cheapest way to the last cell, from the last to the first.
fn backtrack(attention: &[Vec<i64>], costs: &Vec<Vec<i128>>) -> (back: Vec<(usize, usize)>)
    requires
        0 < attention@.len() == costs@.len(),
        0 < attention@[0]@.len(),
        holds_costs(costs@, rows(attention@), attention@.len() as int),
    ensures
        is_reverse_of(
            back@,
            warp_path(rows(attention@), attention@.len() - 1, attention@[0]@.len() - 1),
            back@.len() as int,
        ),
{
    let ghost att = rows(attention@);
    let n_audio: usize = attention[0].len();
    let mut i: usize = attention.len() - 1;
    let mut j: usize = n_audio - 1;
    let ghost path = warp_path(att, i as int, j as int);
    let mut back: Vec<(usize, usize)> = Vec::new();
    back.push((i, j));
    proof {
        lemma_warp_path(att, i as int, j as int);
        assert(path.take(path.len() as int) == path);
    }
    while i > 0 || j > 0
        invariant
            att == rows(attention@),
            n_audio == attention@[0]@.len() == att[0].len(),
            i < attention@.len() == costs@.len(),
            j < n_audio,
            holds_costs(costs@, att, attention@.len() as int),
            0 < back@.len() <= path.len(),
            path.take(path.len() - back@.len() + 1) == warp_path(att, i as int, j as int),
            forall|k: int|
                0 <= k < back@.len() ==> same_cell(
                    #[trigger] back@[k],
                    path[path.len() - 1 - k],
                ),
        decreases i + j,
    {
        let ghost here = path.take(path.len() - back@.len() + 1);
        proof {
            let (i0, j0) = cell_before(att, i as int, j as int);
            assert(row_holds_costs(costs@[i as int]@, att, i as int, n_audio as int));
            if i > 0 {
                assert(row_holds_costs(costs@[i - 1]@, att, i - 1, n_audio as int));
            }
            lemma_warp_path(att, i0, j0);
            assert(here.drop_last() == warp_path(att, i0, j0));
            assert(here.drop_last() == path.take(path.len() - back@.len()));
            assert(path[path.len() - back@.len() - 1] == here.drop_last().last());
        }
        if i == 0 {
            j = j - 1;
        } else if j == 0 {
            i = i - 1;
        } else {
            let diag: i128 = costs[i - 1][j - 1];
            let up: i128 = costs[i - 1][j];
            let left: i128 = costs[i][j - 1];
            if diag <= up && diag <= left {
                i = i - 1;
                j = j - 1;
            } else if up <= left {
                i = i - 1;
            } else {
                j = j - 1;
            }
        }
        back.push((i, j));
    }
    assert(path.take(path.len() - back@.len() + 1).len() == 1);
    back
}

/// Whether the two name the same cell.
spec fn same_cell(a: (usize, usize), b: (int, int)) -> bool {
    a.0 == b.0 && a.1 == b.1
}

/// Whether `back` holds the last `n` cells of `path`, which has no more, from the last on.
spec fn is_reverse_of(back: Seq<(usize, usize)>, path: Seq<(int, int)>, n: int) -> bool {
    &&& back.len() == path.len() == n
    &&& forall|k: int|
        0 <= k < n ==> same_cell(#[trigger] back[k], path[path.len() - 1 - k])
}

/// Whether `range` is the range of frames of token `i` on the way, as far as it has one.
spec fn range_matches(range: Option<(usize, usize)>, path: Seq<(int, int)>, i: int) -> bool {
    match range {
        Some((start, end)) => first_frame(path, i) == Some(start as int) && last_frame(path, i)
            == Some(end - 1),
        None => first_frame(path, i) is None && last_frame(path, i) is None,
    }
}

/// The ranges of frames of all tokens, where `back` holds the cells of the way from the last to
/// the first.
fn collect_ranges(
    back: &Vec<(usize, usize)>,
    n_text: usize,
    n_audio: usize,
    Ghost(path): Ghost<Seq<(int, int)>>,
) -> (ranges: Vec<Option<(usize, usize)>>)
    requires
        is_reverse_of(back@, path, back@.len() as int),
        forall|q: int|
            0 <= q < path.len() ==> 0 <= (#[trigger] path[q]).0 < n_text && 0 <= path[q].1
                < n_audio,
    ensures
        ranges@.len() == n_text,
        forall|k: int| 0 <= k < n_text ==> range_matches(#[trigger] ranges@[k], path, k),
{
    let mut ranges: Vec<Option<(usize, usize)>> = vec![None; n_text];
    let mut left: usize = back.len();
    assert(path.take(0) == Seq::<(int, int)>::empty());
    while left > 0
        invariant
            is_reverse_of(back@, path, back@.len() as int),
            forall|q: int|
                0 <= q < path.len() ==> 0 <= (#[trigger] path[q]).0 < n_text && 0 <= path[q].1
                    < n_audio,
            left <= back@.len(),
            ranges@.len() == n_text,
            forall|k: int|
                0 <= k < n_text ==> range_matches(
                    #[trigger] ranges@[k],
                    path.take(path.len() - left),
                    k,
                ),
        decreases left,
    {
        let ghost seen = path.take(path.len() - left);
        let ghost old_ranges = ranges@;
        left = left - 1;
        let ghost now = path.take(path.len() - left);
        assert(now.drop_last() == seen);
        assert(same_cell(back@[left as int], path[path.len() - 1 - left]));
        let (token, frame): (usize, usize) = back[left];
        let range: (usize, usize) = match ranges[token] {
            Some((start, _)) => (start, frame + 1),
            None => (frame, frame + 1),
        };
        assert(range_matches(old_ranges[token as int], seen, token as int));
        ranges.set(token, Some(range));
        assert forall|k: int| 0 <= k < n_text implies range_matches(
            #[trigger] ranges@[k],
            now,
            k,
        ) by {
            assert(range_matches(old_ranges[k], seen, k));
        }
    }
    assert(path.take(path.len() as int) == path);
    ranges
}

/// Align text tokens to audio frames using dynamic time warping on attention weights.
///
/// `attention` has a row for every token and in it a weight for every frame, in units of a
/// fixed size (higher means more aligned). Returns `(token_idx, start_frame, end_frame)` for
/// every token: each is assigned a contiguous range of frames, of which `end_frame` is
/// exclusive.
pub fn dtw_alignment(attention: &[Vec<i64>]) -> (r: Vec<(usize, usize, usize)>)
    requires
        attention@.len() > 0 ==> attention@.len() + attention@[0]@.len() <= usize::MAX,
        forall|i: int|
            0 <= i < attention@.len() ==> (#[trigger] attention@[i])@.len()
                >= attention@[0]@.len(),
    ensures
        r@ == token_ranges(rows(attention@)),
{
    let n_text: usize = attention.len();
    let mut result: Vec<(usize, usize, usize)> = Vec::new();
    if n_text == 0 {
        return result;
    }
    let n_audio: usize = attention[0].len();
    let ghost att = rows(attention@);
    assert(att[0] == attention@[0]@);
    if n_audio == 0 {
        return result;
    }
    let costs: Vec<Vec<i128>> = cost_matrix(attention);
    let back: Vec<(usize, usize)> = backtrack(attention, &costs);
    let ghost path = warp_path(att, n_text - 1, n_audio - 1);
    proof {
        lemma_warp_path(att, n_text - 1, n_audio - 1);
        lemma_ranges(path, n_text - 1, n_audio - 1);
    }
    let ranges: Vec<Option<(usize, usize)>> = collect_ranges(
        &back,
        n_text,
        n_audio,
        Ghost(path),
    );
    for i in 0..n_text
        invariant
            n_text == attention@.len() == att.len(),
            0 < n_audio == att[0].len(),
            path == warp_path(att, n_text - 1, n_audio - 1),
            ranges@.len() == n_text,
            forall|k: int| 0 <= k < n_text ==> range_matches(#[trigger] ranges@[k], path, k),
            forall|k: int| 0 <= k < n_text ==> has_range(path, k),
            result@.len() == i,
            forall|k: int|
                0 <= k < i ==> #[trigger] result@[k] == token_ranges(att)[k],
    {
        assert(has_range(path, i as int));
        assert(range_matches(ranges@[i as int], path, i as int));
        if let Some((start, end)) = ranges[i] {
            result.push((i, start, end));
        }
    }
    result
}

/// When a mel-spectrogram frame starts, in milliseconds.
pub open spec fn frame_millis(frame: int) -> nat {
    (frame * HOP_LENGTH * 1000 / SAMPLE_RATE as int) as nat
}

/// Convert a mel-spectrogram frame index to seconds.
pub fn frame_to_sec(frame: usize) -> (r: Seconds)
    ensures
        r.millis == frame_millis(frame as int),
        r.millis == 10 * frame,
{
    assert(frame * HOP_LENGTH == frame * 160) by (nonlinear_arith)
        requires
            HOP_LENGTH == 160,
    ;
    assert(frame * 160 * 1000 / 16000 == 10 * frame);
    assert(frame * HOP_LENGTH * 1000 / (SAMPLE_RATE as int) == 10 * frame);
    Seconds { millis: frame as u128 * (HOP_LENGTH as u128) * 1000 / (SAMPLE_RATE as u128) }
}

/// A decoded token with the range of frames that it is aligned to.
#[derive(Debug, Clone)]
pub struct TokenInfo {
    pub text: String,
    pub start_frame: usize,
    pub end_frame: usize,
}

/// A piece of text with a range of frames.
pub struct FramedText {
    pub text: Seq<char>,
    pub start: int,
    pub end: int,
}

impl View for TokenInfo {
    type V = FramedText;

    open spec fn view(&self) -> FramedText {
        FramedText {
            text: self.text@,
            start: self.start_frame as int,
            end: self.end_frame as int,
        }
    }
}

/// The views of a sequence of decoded tokens.
pub open spec fn framed_texts(v: Seq<TokenInfo>) -> Seq<FramedText> {
    Seq::new(v.len(), |i: int| v[i]@)
}

/// The tokens put together: a token that begins with a space starts a new piece, and every
/// other token continues the piece before it. A piece starts where its first token does and
/// ends where its last token does.
pub open spec fn pieces(tokens: Seq<FramedText>) -> Seq<FramedText>
    decreases tokens.len(),
{
    if tokens.len() == 0 {
        Seq::empty()
    } else {
        let before = pieces(tokens.drop_last());
        let token = tokens.last();
        if before.len() == 0 || begins_with_space(token.text) {
            before.push(token)
        } else {
            let piece = before.last();
            before.update(
                before.len() - 1,
                FramedText { text: piece.text + token.text, start: piece.start, end: token.end },
            )
        }
    }
}

/// The pieces as timed words: white space around a word is removed, and a piece of nothing
/// but white space is no word.
pub open spec fn words_in(pieces: Seq<FramedText>) -> Seq<TimedWord>
    decreases pieces.len(),
{
    if pieces.len() == 0 {
        Seq::empty()
    } else {
        let before = words_in(pieces.drop_last());
        let piece = pieces.last();
        if trimmed(piece.text).len() == 0 {
            before
        } else {
            before.push(
                TimedWord {
                    word: trimmed(piece.text),
                    start: frame_millis(piece.start),
                    end: frame_millis(piece.end),
                },
            )
        }
    }
}

/// Adds the word of a piece to `words`, unless the piece is nothing but white space.
fn emit_word(
    words: &mut Vec<WordTimestamp>,
    text: &String,
    start_frame: usize,
    end_frame: usize,
    Ghost(before): Ghost<Seq<FramedText>>,
)
    requires
        timed_words(old(words)@) == words_in(before),
    ensures
        timed_words(final(words)@) == words_in(
            before.push(
                FramedText { text: text@, start: start_frame as int, end: end_frame as int },
            ),
        ),
{
    let ghost piece = FramedText {
        text: text@,
        start: start_frame as int,
        end: end_frame as int,
    };
    assert(before.push(piece).drop_last() == before);
    let word: String = trim(text.as_str());
    if !word.as_str().is_empty() {
        words.push(
            WordTimestamp {
                word,
                start_sec: frame_to_sec(start_frame),
                end_sec: frame_to_sec(end_frame),
            },
        );
        assert(timed_words(words@) == timed_words(old(words)@).push(words@.last()@));
    }
}

/// Group decoded tokens into words.
///
/// A new word starts when a decoded token begins with a space.
pub fn group_words(tokens: &Vec<TokenInfo>) -> (words: Vec<WordTimestamp>)
    ensures
        timed_words(words@) == words_in(pieces(framed_texts(tokens@))),
{
    let ghost all = framed_texts(tokens@);
    let mut words: Vec<WordTimestamp> = Vec::new();
    let mut text: String = String::new();
    let mut start: usize = 0;
    let mut end: usize = 0;
    let mut in_word: bool = false;
    let n: usize = tokens.len();
    for i in 0..n
        invariant
            n == tokens@.len(),
            all == framed_texts(tokens@),
            in_word == (i > 0),
            !in_word ==> text@.len() == 0 && words@.len() == 0,
            in_word ==> {
                let done = pieces(all.take(i as int));
                &&& done.len() > 0
                &&& done.last() == (FramedText { text: text@, start: start as int, end: end as int })
                &&& timed_words(words@) == words_in(done.drop_last())
            },
    {
        let ghost done = pieces(all.take(i as int));
        assert(all.take(i + 1).drop_last() == all.take(i as int));
        assert(all.take(i + 1).last() == tokens@[i as int]@);
        let info: &TokenInfo = &tokens[i];
        let starts_word: bool = starts_with_space(info.text.as_str());
        if starts_word && in_word {
            emit_word(&mut words, &text, start, end, Ghost(done.drop_last()));
            assert(done.drop_last().push(done.last()) == done);
            text = String::new();
        }
        if !in_word || starts_word {
            start = info.start_frame;
            in_word = true;
        }
        let ghost held = text@;
        text.append(info.text.as_str());
        end = info.end_frame;
        proof {
            let now = pieces(all.take(i + 1));
            if i == 0 || begins_with_space(info.text@) {
                assert(text@ == info.text@);
                assert(now.drop_last() == done);
            } else {
                assert(now.drop_last() == done.drop_last());
            }
        }
    }
    assert(all.take(n as int) == all);
    if in_word {
        let ghost done = pieces(all);
        emit_word(&mut words, &text, start, end, Ghost(done.drop_last()));
        assert(done.drop_last().push(done.last()) == done);
    }
    words
}

/// A tokenizer of the `tokenizers` crate.
#[verifier::external_type_specification]
#[verifier::external_body]
pub struct ExTokenizer(tokenizers::Tokenizer);

/// What a tokenizer holds for every single token that it can be asked to decode: the text of
/// the token, or `None` where its decoder reports an error.
///
/// Some decoders panic instead: the one for BPE suffixes on a token that the tokenizer does
/// not know, and the one that strips characters on a token that is too short. The tokens on
/// which that happens are not in the map.
pub uninterp spec fn token_texts(tokenizer: tokenizers::Tokenizer) -> Map<u32, Option<Seq<char>>>;

/// `Tokenizer::decode` on one token, with special tokens kept.
///
/// The text depends on the tokenizer and on the token alone. What it is for a given tokenizer
/// and token is not stated.
#[verifier::external_body]
fn decode_token(tokenizer: &tokenizers::Tokenizer, id: u32) -> (r: Option<String>)
    requires
        token_texts(*tokenizer).contains_key(id),
    ensures
        match r {
            Some(text) => token_texts(*tokenizer)[id] == Some(text@),
            None => token_texts(*tokenizer)[id] is None,
        },
{
    tokenizer.decode(&[id], false).ok()
}

/// The decoder of a tokenizer.
#[derive(Debug, Clone, Copy)]
pub enum DecoderKind {
    /// The tokenizer has none.
    Absent,
    Bpe,
    ByteLevel,
    WordPiece,
    Metaspace,
    Ctc,
    Sequence,
    Replace,
    Fuse,
    Strip,
    ByteFallback,
}

/// Whether a decoder of this kind gives a text or an error for every single token. Those for
/// BPE suffixes and for stripping characters panic on some, a sequence of decoders may hold
/// one of these, and one that replaces runs a pattern of the tokenizer's own.
pub open spec fn decodes_any_token(kind: DecoderKind) -> bool {
    match kind {
        DecoderKind::Bpe => false,
        DecoderKind::Sequence => false,
        DecoderKind::Replace => false,
        DecoderKind::Strip => false,
        _ => true,
    }
}

/// The decoder that a tokenizer was made with.
pub uninterp spec fn decoder_of(tokenizer: tokenizers::Tokenizer) -> DecoderKind;

/// `Tokenizer::get_decoder`, the decoder told by its kind.
///
/// With a decoder that takes every token, or with none, `Tokenizer::decode` does not panic on
/// any single token.
#[verifier::external_body]
fn decoder_kind(tokenizer: &tokenizers::Tokenizer) -> (r: DecoderKind)
    ensures
        r == decoder_of(*tokenizer),
        decodes_any_token(r) ==> forall|id: u32| token_texts(*tokenizer).contains_key(id),
{
    match tokenizer.get_decoder() {
        None => DecoderKind::Absent,
        Some(tokenizers::DecoderWrapper::BPE(_)) => DecoderKind::Bpe,
        Some(tokenizers::DecoderWrapper::ByteLevel(_)) => DecoderKind::ByteLevel,
        Some(tokenizers::DecoderWrapper::WordPiece(_)) => DecoderKind::WordPiece,
        Some(tokenizers::DecoderWrapper::Metaspace(_)) => DecoderKind::Metaspace,
        Some(tokenizers::DecoderWrapper::CTC(_)) => DecoderKind::Ctc,
        Some(tokenizers::DecoderWrapper::Sequence(_)) => DecoderKind::Sequence,
        Some(tokenizers::DecoderWrapper::Replace(_)) => DecoderKind::Replace,
        Some(tokenizers::DecoderWrapper::Fuse(_)) => DecoderKind::Fuse,
        Some(tokenizers::DecoderWrapper::Strip(_)) => DecoderKind::Strip,
        Some(tokenizers::DecoderWrapper::ByteFallback(_)) => DecoderKind::ByteFallback,
    }
}

/// The texts of the aligned tokens with their ranges of frames, where `texts` holds the text of
/// every token. Entries for tokens that do not exist and tokens without text are left out.
pub open spec fn aligned_texts(
    alignment: Seq<(usize, usize, usize)>,
    texts: Seq<Option<Seq<char>>>,
) -> Seq<FramedText>
    decreases alignment.len(),
{
    if alignment.len() == 0 {
        Seq::empty()
    } else {
        let before = aligned_texts(alignment.drop_last(), texts);
        let (index, start, end) = alignment.last();
        if index >= texts.len() {
            before
        } else {
            match texts[index as int] {
                Some(text) => if text.len() == 0 {
                    before
                } else {
                    before.push(FramedText { text, start: start as int, end: end as int })
                },
                None => before,
            }
        }
    }
}

/// The views of texts that may be missing.
pub open spec fn optional_views(v: Seq<Option<String>>) -> Seq<Option<Seq<char>>> {
    Seq::new(
        v.len(),
        |i: int|
            match v[i] {
                Some(text) => Some(text@),
                None => None,
            },
    )
}

/// The texts of tokens.
pub open spec fn decoded(
    tokens: Seq<u32>,
    texts: Map<u32, Option<Seq<char>>>,
) -> Seq<Option<Seq<char>>> {
    Seq::new(tokens.len(), |i: int| texts[tokens[i]])
}

/// Adds a decoded text to `infos`, unless it is empty.
fn add_text(infos: &mut Vec<TokenInfo>, text: String, start_frame: usize, end_frame: usize)
    ensures
        framed_texts(final(infos)@) == if text@.len() == 0 {
            framed_texts(old(infos)@)
        } else {
            framed_texts(old(infos)@).push(
                FramedText { text: text@, start: start_frame as int, end: end_frame as int },
            )
        },
{
    if !text.as_str().is_empty() {
        infos.push(TokenInfo { text, start_frame, end_frame });
        assert(framed_texts(infos@) == framed_texts(old(infos)@).push(infos@.last()@));
    }
}

/// Group per-token alignments into word-level timestamps, where `texts` holds the decoded text
/// of every token, or `None` for a token that cannot be decoded.
pub fn group_aligned_texts(
    alignment: &[(usize, usize, usize)],
    texts: &[Option<String>],
) -> (words: Vec<WordTimestamp>)
    ensures
        timed_words(words@) == words_in(
            pieces(aligned_texts(alignment@, optional_views(texts@))),
        ),
{
    let mut infos: Vec<TokenInfo> = Vec::new();
    let n: usize = alignment.len();
    for k in 0..n
        invariant
            n == alignment@.len(),
            framed_texts(infos@) == aligned_texts(
                alignment@.take(k as int),
                optional_views(texts@),
            ),
    {
        assert(alignment@.take(k + 1).drop_last() == alignment@.take(k as int));
        assert(alignment@.take(k + 1).last() == alignment@[k as int]);
        let (index, start_frame, end_frame): (usize, usize, usize) = alignment[k];
        if index < texts.len() {
            if let Some(text) = &texts[index] {
                add_text(&mut infos, text.clone(), start_frame, end_frame);
            }
        }
    }
    assert(alignment@.take(n as int) == alignment@);
    group_words(&infos)
}

/// Group per-token alignments into word-level timestamps.
///
/// Tokens whose decoded text starts with a space mark word boundaries. Decodes each token,
/// detects the boundaries and converts frame indices to seconds.
///
/// `alignment` is what [`dtw_alignment`] returns, and `tokens` holds the token IDs from
/// decoding (only the text tokens, no special tokens).
pub fn extract_word_timestamps(
    alignment: &[(usize, usize, usize)],
    tokens: &[u32],
    tokenizer: &tokenizers::Tokenizer,
) -> (words: Vec<WordTimestamp>)
    requires
        forall|k: int|
            0 <= k < alignment@.len() && (#[trigger] alignment@[k]).0 < tokens@.len()
                ==> token_texts(*tokenizer).contains_key(tokens@[alignment@[k].0 as int]),
    ensures
        timed_words(words@) == words_in(
            pieces(aligned_texts(alignment@, decoded(tokens@, token_texts(*tokenizer)))),
        ),
{
    let ghost texts = decoded(tokens@, token_texts(*tokenizer));
    let mut infos: Vec<TokenInfo> = Vec::new();
    let n: usize = alignment.len();
    for k in 0..n
        invariant
            n == alignment@.len(),
            texts == decoded(tokens@, token_texts(*tokenizer)),
            forall|k: int|
                0 <= k < alignment@.len() && (#[trigger] alignment@[k]).0 < tokens@.len()
                    ==> token_texts(*tokenizer).contains_key(tokens@[alignment@[k].0 as int]),
            framed_texts(infos@) == aligned_texts(alignment@.take(k as int), texts),
    {
        assert(alignment@.take(k + 1).drop_last() == alignment@.take(k as int));
        assert(alignment@.take(k + 1).last() == alignment@[k as int]);
        let (index, start_frame, end_frame): (usize, usize, usize) = alignment[k];
        if index < tokens.len() {
            if let Some(text) = decode_token(tokenizer, tokens[index]) {
                add_text(&mut infos, text, start_frame, end_frame);
            }
        }
    }
    assert(alignment@.take(n as int) == alignment@);
    group_words(&infos)
}

/// Group per-token alignments into word-level timestamps, as [`extract_word_timestamps`] does,
/// with a tokenizer of which nothing is known. `None` if its decoder is of a kind that does
/// not take every token.
pub fn try_extract_word_timestamps(
    alignment: &[(usize, usize, usize)],
    tokens: &[u32],
    tokenizer: &tokenizers::Tokenizer,
) -> (r: Option<Vec<WordTimestamp>>)
    ensures
        r is Some <==> decodes_any_token(decoder_of(*tokenizer)),
        r is None <==> (decoder_of(*tokenizer) is Bpe || decoder_of(*tokenizer) is Sequence
            || decoder_of(*tokenizer) is Replace || decoder_of(*tokenizer) is Strip),
        r matches Some(words) ==> timed_words(words@) == words_in(
            pieces(aligned_texts(alignment@, decoded(tokens@, token_texts(*tokenizer)))),
        ),
{
    match decoder_kind(tokenizer) {
        DecoderKind::Bpe | DecoderKind::Sequence | DecoderKind::Replace | DecoderKind::Strip => None,
        _ => Some(extract_word_timestamps(alignment, tokens, tokenizer)),
    }
}

} // verus!
