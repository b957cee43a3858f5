//! What the alignment by dynamic time warping guarantees.

use vstd::prelude::*;

use crate::alignment::dtw_decoder::{
    cell_before, cost, first_frame, has_range, is_warp_path, last_frame, lemma_cost_is_least,
    lemma_ranges, lemma_warp_path, path_cost, token_ranges, warp_path,
};
use crate::alignment::viterbi_laws::sum_of;

verus! {

/// Whether `path` is a way from the first token and frame to token `i` and frame `j`, each step
/// of which goes on to the next token, to the next frame, or to both.
pub open spec fn is_way(path: Seq<(int, int)>, i: int, j: int) -> bool {
    &&& path.len() > 0
    &&& path[0] == (0int, 0int)
    &&& path[path.len() - 1] == (i, j)
    &&& forall|q: int|
        #![trigger path[q]]
        0 <= q < path.len() - 1 ==> {
            let (i0, j0) = path[q];
            let next = path[q + 1];
            next == (i0 + 1, j0) || next == (i0, j0 + 1) || next == (i0 + 1, j0 + 1)
        }
}

/// The attention weights of the cells of a way.
pub open spec fn weights_along(attention: Seq<Seq<i64>>, path: Seq<(int, int)>) -> Seq<int> {
    Seq::new(path.len(), |q: int| attention[path[q].0][path[q].1] as int)
}

/// The two ways to say what a way is agree.
proof fn lemma_is_way(path: Seq<(int, int)>, i: int, j: int)
    ensures
        is_way(path, i, j) <==> is_warp_path(path, i, j),
    decreases path.len(),
{
    if path.len() > 1 {
        let init = path.drop_last();
        let (i0, j0) = path[path.len() - 2];
        lemma_is_way(init, i0, j0);
        if is_way(path, i, j) {
            assert forall|q: int| #![trigger init[q]] 0 <= q < init.len() - 1 implies {
                let (a, b) = init[q];
                let next = init[q + 1];
                next == (a + 1, b) || next == (a, b + 1) || next == (a + 1, b + 1)
            } by {
                assert(path[q] == init[q]);
                assert(path[q + 1] == init[q + 1]);
            }
            assert(is_way(init, i0, j0));
            assert(path[path.len() - 2] == (i0, j0));
            lemma_ways_are_not_negative(init, i0, j0);
        }
        if is_warp_path(path, i, j) {
            assert(is_way(init, i0, j0));
            assert forall|q: int| #![trigger path[q]] 0 <= q < path.len() - 1 implies {
                let (a, b) = path[q];
                let next = path[q + 1];
                next == (a + 1, b) || next == (a, b + 1) || next == (a + 1, b + 1)
            } by {
                if q < init.len() - 1 {
                    assert(init[q] == path[q]);
                    assert(init[q + 1] == path[q + 1]);
                }
            }
            assert(init[0] == path[0]);
        }
    }
}

/// A way does not lead before the first token or frame.
proof fn lemma_ways_are_not_negative(path: Seq<(int, int)>, i: int, j: int)
    requires
        is_warp_path(path, i, j),
    ensures
        i >= 0,
        j >= 0,
{
}

/// What a way costs is the negated sum of its weights.
proof fn lemma_path_cost_is_sum(attention: Seq<Seq<i64>>, path: Seq<(int, int)>)
    ensures
        path_cost(attention, path) == -sum_of(weights_along(attention, path)),
    decreases path.len(),
{
    let weights = weights_along(attention, path);
    if path.len() == 0 {
        assert(weights == Seq::<int>::empty());
    } else {
        lemma_path_cost_is_sum(attention, path.drop_last());
        assert(weights.drop_last() == weights_along(attention, path.drop_last()));
    }
}

/// The cost of a cell is the negated greatest sum of weights along a way to it: no way to the
/// cell has a greater sum, and the one that is given back has it.
pub proof fn law_cost_is_of_greatest_sum(
    attention: Seq<Seq<i64>>,
    i: int,
    j: int,
    other: Seq<(int, int)>,
) -> (way: Seq<(int, int)>)
    requires
        i >= 0,
        j >= 0,
    ensures
        is_way(other, i, j) ==> sum_of(weights_along(attention, other)) <= -cost(attention, i, j),
        is_way(way, i, j),
        sum_of(weights_along(attention, way)) == -cost(attention, i, j),
{
    let way = warp_path(attention, i, j);
    lemma_is_way(other, i, j);
    lemma_is_way(way, i, j);
    lemma_path_cost_is_sum(attention, other);
    lemma_path_cost_is_sum(attention, way);
    lemma_warp_path(attention, i, j);
    if is_way(other, i, j) {
        lemma_cost_is_least(attention, other, i, j);
    }
    way
}

/// The frames of a token on a way are those between its first and its last.
proof fn lemma_frames_of_token(path: Seq<(int, int)>, i: int, j: int, k: int, frame: int)
    requires
        is_warp_path(path, i, j),
        0 <= k <= i,
    ensures
        has_range(path, k),
        path.contains((k, frame)) <==> first_frame(path, k)->0 <= frame <= last_frame(
            path,
            k,
        )->0,
    decreases path.len(),
{
    lemma_ranges(path, i, j);
    assert(has_range(path, k));
    let before = path.drop_last();
    if path.len() == 1 {
        assert(path[0] == (0int, 0int));
        assert(before == Seq::<(int, int)>::empty());
        assert(first_frame(before, k) is None);
        assert(last_frame(before, k) is None);
    } else {
        let (i0, j0) = path[path.len() - 2];
        assert(is_warp_path(before, i0, j0));
        lemma_ranges(before, i0, j0);
        assert(path.contains((k, frame)) <==> before.contains((k, frame)) || (k, frame) == (i, j))
            by {
            if path.contains((k, frame)) {
                let q = choose|q: int| 0 <= q < path.len() && path[q] == (k, frame);
                if q < before.len() {
                    assert(before[q] == path[q]);
                }
            }
            if before.contains((k, frame)) {
                let q = choose|q: int| 0 <= q < before.len() && before[q] == (k, frame);
                assert(path[q] == before[q]);
            }
            assert(path[path.len() - 1] == (i, j));
        }
        if k <= i0 {
            lemma_frames_of_token(before, i0, j0, k, frame);
        } else {
            assert(first_frame(before, k) is None);
            lemma_not_on_way(before, i0, j0, k, frame);
        }
    }
}

/// No frame of a token behind the last is on a way.
proof fn lemma_not_on_way(path: Seq<(int, int)>, i: int, j: int, k: int, frame: int)
    requires
        is_warp_path(path, i, j),
        k > i,
    ensures
        !path.contains((k, frame)),
    decreases path.len(),
{
    if path.contains((k, frame)) {
        let q = choose|q: int| 0 <= q < path.len() && path[q] == (k, frame);
        if path.len() > 1 {
            let (i0, j0) = path[path.len() - 2];
            let before = path.drop_last();
            lemma_not_on_way(before, i0, j0, k, frame);
            if q < before.len() {
                assert(before[q] == path[q]);
                assert(before.contains((k, frame)));
            }
        }
    }
}

/// The ranges are those of a way of the greatest sum of weights through all tokens and frames:
/// a frame lies in the range of a token if and only if the way leads through the two.
pub proof fn law_ranges_are_of_best_way(attention: Seq<Seq<i64>>, other: Seq<(int, int)>) -> (way:
    Seq<(int, int)>)
    requires
        0 < attention.len() <= usize::MAX,
        0 < attention[0].len() < usize::MAX,
    ensures
        is_way(way, attention.len() - 1, attention[0].len() - 1),
        is_way(other, attention.len() - 1, attention[0].len() - 1) ==> sum_of(
            weights_along(attention, other),
        ) <= sum_of(weights_along(attention, way)),
        token_ranges(attention).len() == attention.len(),
        forall|k: int, frame: int|
            #![trigger way.contains((k, frame))]
            0 <= k < attention.len() ==> (way.contains((k, frame)) <==> token_ranges(
                attention,
            )[k].1 <= frame < token_ranges(attention)[k].2),
        forall|k: int| 0 <= k < attention.len() ==> (#[trigger] token_ranges(attention)[k]).0 == k,
{
    let n = attention.len() - 1;
    let m = attention[0].len() - 1;
    let way = law_cost_is_of_greatest_sum(attention, n, m, other);
    let path = warp_path(attention, n, m);
    lemma_warp_path(attention, n, m);
    lemma_is_way(path, n, m);
    lemma_path_cost_is_sum(attention, path);
    lemma_ranges(path, n, m);
    assert forall|k: int, frame: int|
        #![trigger path.contains((k, frame))]
        0 <= k < attention.len() implies (path.contains((k, frame)) <==> token_ranges(
        attention,
    )[k].1 <= frame < token_ranges(attention)[k].2) by {
        lemma_frames_of_token(path, n, m, k, frame);
        assert(has_range(path, k) && last_frame(path, k)->0 <= m);
    }
    path
}

/// Without tokens or frames there are no ranges.
pub proof fn law_nothing_has_no_ranges(attention: Seq<Seq<i64>>)
    requires
        attention.len() == 0 || attention[0].len() == 0,
    ensures
        token_ranges(attention).len() == 0,
{
}

/// Whether `from` is the cell from which `to` is best reached.
pub open spec fn is_best_before(
    attention: Seq<Seq<i64>>,
    from: (int, int),
    to: (int, int),
) -> bool {
    let (i, j) = to;
    let both = cost(attention, i - 1, j - 1);
    let up = cost(attention, i - 1, j);
    let left = cost(attention, i, j - 1);
    from == if i == 0 {
        (i, j - 1)
    } else if j == 0 {
        (i - 1, j)
    } else if both <= up && both <= left {
        (i - 1, j - 1)
    } else if up <= left {
        (i - 1, j)
    } else {
        (i, j - 1)
    }
}

/// Where several ways have the greatest sum, the ranges are those of the one that is found from
/// the end: before a cell it leads through the cell before it in both directions if none of the
/// three has a lower cost, else through the token before at the same frame if the third has no
/// lower cost, and else through the frame before of the same token.
pub proof fn law_way_is_found_from_the_end(attention: Seq<Seq<i64>>) -> (way: Seq<(int, int)>)
    requires
        0 < attention.len() <= usize::MAX,
        0 < attention[0].len() < usize::MAX,
    ensures
        is_way(way, attention.len() - 1, attention[0].len() - 1),
        forall|k: int, frame: int|
            #![trigger way.contains((k, frame))]
            0 <= k < attention.len() ==> (way.contains((k, frame)) <==> token_ranges(
                attention,
            )[k].1 <= frame < token_ranges(attention)[k].2),
        forall|q: int|
            #![trigger way[q]]
            0 <= q < way.len() - 1 ==> is_best_before(attention, way[q], way[q + 1]),
{
    let n = attention.len() - 1;
    let m = attention[0].len() - 1;
    let path = warp_path(attention, n, m);
    lemma_warp_path(attention, n, m);
    lemma_is_way(path, n, m);
    lemma_ranges(path, n, m);
    assert forall|k: int, frame: int|
        #![trigger path.contains((k, frame))]
        0 <= k < attention.len() implies (path.contains((k, frame)) <==> token_ranges(
        attention,
    )[k].1 <= frame < token_ranges(attention)[k].2) by {
        lemma_frames_of_token(path, n, m, k, frame);
        assert(has_range(path, k) && last_frame(path, k)->0 <= m);
    }
    assert forall|q: int| #![trigger path[q]] 0 <= q < path.len() - 1 implies is_best_before(
        attention,
        path[q],
        path[q + 1],
    ) by {
        lemma_cell_before(attention, n, m, q);
    }
    path
}

/// The way leads to every cell from the one that is best before it.
proof fn lemma_cell_before(attention: Seq<Seq<i64>>, i: int, j: int, q: int)
    requires
        i >= 0,
        j >= 0,
        0 <= q < warp_path(attention, i, j).len() - 1,
    ensures
        ({
            let (a, b) = warp_path(attention, i, j)[q + 1];
            warp_path(attention, i, j)[q] == cell_before(attention, a, b)
        }),
    decreases i + j,
{
    let path = warp_path(attention, i, j);
    if i > 0 || j > 0 {
        let (i0, j0) = cell_before(attention, i, j);
        let before = warp_path(attention, i0, j0);
        lemma_warp_path(attention, i0, j0);
        assert(before.last() == (i0, j0));
        assert(path == before.push((i, j)));
        if q < before.len() - 1 {
            lemma_cell_before(attention, i0, j0, q);
            assert(path[q] == before[q]);
            assert(path[q + 1] == before[q + 1]);
        } else {
            assert(path[q] == before.last());
            assert(path[q + 1] == (i, j));
        }
    }
}

} // verus!
