//! What a forced alignment guarantees.

use vstd::prelude::*;

use crate::alignment::forced_align::{
    advance, arrival, best_positions, emission, end_position, exceeds, interleaved, lemma_trace,
    predecessor, tokens_at, total_plus, trace, trellis_row, LogProb, Total,
};

verus! {

/// Blanks and tokens alternate: there is a blank before, between and after the tokens, and the
/// tokens keep their order.
pub proof fn law_targets_alternate(ids: Seq<usize>, blank_id: usize, k: int)
    requires
        0 <= k < ids.len(),
    ensures
        interleaved(ids, blank_id).len() == 2 * ids.len() + 1,
        interleaved(ids, blank_id)[2 * k] == blank_id,
        interleaved(ids, blank_id)[2 * k + 1] == ids[k],
        interleaved(ids, blank_id).last() == blank_id,
{
}

/// Without tokens there is the blank alone.
pub proof fn law_targets_of_nothing(blank_id: usize)
    ensures
        interleaved(Seq::empty(), blank_id) == seq![blank_id],
{
}

/// Whether an alignment that is at position `from` may be at position `to` one frame later: it
/// stays, it moves on, or it leaves out the position between, if that is a blank between two
/// different tokens. The first target is always the blank.
pub open spec fn may_step(targets: Seq<usize>, from: int, to: int) -> bool {
    ||| to == from
    ||| to == from + 1
    ||| to == from + 2 && targets[to] != targets[0] && targets[to] != targets[from]
}

/// Whether `positions` assigns a position to each of the first frames, in steps that are
/// allowed and from the first or the second position on.
pub open spec fn is_alignment(targets: Seq<usize>, positions: Seq<int>) -> bool
    decreases positions.len(),
{
    &&& positions.len() > 0
    &&& 0 <= positions.last() < targets.len()
    &&& if positions.len() == 1 {
        positions[0] <= 1
    } else {
        &&& is_alignment(targets, positions.drop_last())
        &&& may_step(targets, positions[positions.len() - 2], positions.last())
    }
}

/// Whether `positions` aligns all of `frames` frames to all of the targets: it ends at the last
/// target or at the one before it.
pub open spec fn is_complete_alignment(
    targets: Seq<usize>,
    frames: nat,
    positions: Seq<int>,
) -> bool {
    &&& positions.len() == frames
    &&& is_alignment(targets, positions)
    &&& positions.last() >= targets.len() - 2
}

/// The log-probability of an alignment: the sum over its frames.
pub open spec fn log_prob_of(
    emissions: Seq<Seq<LogProb>>,
    targets: Seq<usize>,
    positions: Seq<int>,
) -> Total
    decreases positions.len(),
{
    if positions.len() == 0 {
        Some(0)
    } else {
        total_plus(
            emission(emissions, targets, positions.len() - 1, positions.last()),
            log_prob_of(emissions, targets, positions.drop_last()),
        )
    }
}

/// The tokens that a path of tokens spells: blanks and repetitions removed.
pub open spec fn collapsed(path: Seq<usize>, blank_id: usize) -> Seq<usize>
    decreases path.len(),
{
    if path.len() == 0 {
        Seq::empty()
    } else {
        let before = collapsed(path.drop_last(), blank_id);
        if path.last() == blank_id || (path.len() > 1 && path[path.len() - 2] == path.last()) {
            before
        } else {
            before.push(path.last())
        }
    }
}

/// The path has a token for every frame, and each is one of the targets.
pub proof fn law_every_frame_has_a_target(emissions: Seq<Seq<LogProb>>, targets: Seq<usize>)
    requires
        emissions.len() >= targets.len() > 0,
    ensures
        tokens_at(targets, best_positions(emissions, targets)).len() == emissions.len(),
        forall|t: int|
            0 <= t < emissions.len() ==> targets.contains(
                #[trigger] tokens_at(targets, best_positions(emissions, targets))[t],
            ),
        forall|t: int|
            0 <= t < emissions.len() ==> #[trigger] tokens_at(
                targets,
                best_positions(emissions, targets),
            )[t] == targets[best_positions(emissions, targets)[t]],
{
    let last = emissions.len() - 1;
    let end = end_position(trellis_row(emissions, targets, last));
    lemma_trace(emissions, targets, last, end);
    assert forall|t: int| 0 <= t < emissions.len() implies targets.contains(
        #[trigger] tokens_at(targets, best_positions(emissions, targets))[t],
    ) by {
        let s = trace(emissions, targets, last, end)[t];
        assert(targets.contains(targets[s]));
    }
}

/// No alignment that ends at a position is better than the trellis says.
proof fn lemma_trellis_bounds(
    emissions: Seq<Seq<LogProb>>,
    targets: Seq<usize>,
    positions: Seq<int>,
)
    requires
        is_alignment(targets, positions),
    ensures
        !exceeds(
            log_prob_of(emissions, targets, positions),
            trellis_row(emissions, targets, positions.len() - 1)[positions.last()],
        ),
    decreases positions.len(),
{
    let t = positions.len() - 1;
    let s = positions.last();
    if t == 0 {
        assert(positions.drop_last() == Seq::<int>::empty());
        assert(log_prob_of(emissions, targets, positions.drop_last()) == Some(0int));
    } else {
        assert(is_alignment(targets, positions.drop_last()));
        lemma_trellis_bounds(emissions, targets, positions.drop_last());
        assert(positions.drop_last().last() == positions[t - 1]);
        let row = trellis_row(emissions, targets, t - 1);
        assert(!exceeds(row[positions[t - 1]], arrival(row, targets, s)));
    }
}

/// Where the trellis holds a number, the trace is an alignment that attains it.
proof fn lemma_trace_attains(
    emissions: Seq<Seq<LogProb>>,
    targets: Seq<usize>,
    t: int,
    s: int,
)
    requires
        t >= 0,
        0 <= s < targets.len(),
        trellis_row(emissions, targets, t)[s] is Some,
    ensures
        trace(emissions, targets, t, s).len() == t + 1,
        trace(emissions, targets, t, s).last() == s,
        is_alignment(targets, trace(emissions, targets, t, s)),
        log_prob_of(emissions, targets, trace(emissions, targets, t, s)) == trellis_row(
            emissions,
            targets,
            t,
        )[s],
    decreases t,
{
    if t == 0 {
        let positions = seq![s];
        assert(positions.drop_last() == Seq::<int>::empty());
        assert(log_prob_of(emissions, targets, positions.drop_last()) == Some(0int));
    } else {
        let row = trellis_row(emissions, targets, t - 1);
        let from = predecessor(row, targets, s);
        assert(row[from] == arrival(row, targets, s));
        lemma_trace_attains(emissions, targets, t - 1, from);
        let before = trace(emissions, targets, t - 1, from);
        assert(trace(emissions, targets, t, s).drop_last() == before);
    }
}

/// The alignment that is found is the best one: no complete alignment has a greater
/// log-probability, and if any has a log-probability above minus infinity, then the one that
/// is found is complete.
pub proof fn law_alignment_is_optimal(
    emissions: Seq<Seq<LogProb>>,
    targets: Seq<usize>,
    other: Seq<int>,
)
    requires
        emissions.len() >= targets.len() > 0,
        is_complete_alignment(targets, emissions.len(), other),
    ensures
        !exceeds(
            log_prob_of(emissions, targets, other),
            log_prob_of(emissions, targets, best_positions(emissions, targets)),
        ),
        log_prob_of(emissions, targets, other) is Some ==> is_complete_alignment(
            targets,
            emissions.len(),
            best_positions(emissions, targets),
        ),
{
    let last = emissions.len() - 1;
    let row = trellis_row(emissions, targets, last);
    lemma_trellis_bounds(emissions, targets, other);
    if log_prob_of(emissions, targets, other) is Some {
        assert(!exceeds(row[other.last()], row[end_position(row)]));
        lemma_trace_attains(emissions, targets, last, end_position(row));
    }
}

/// While no log-probability is minus infinity, every position that can be reached one step
/// at a time is reached.
proof fn lemma_reached(emissions: Seq<Seq<LogProb>>, targets: Seq<usize>, t: int, s: int)
    requires
        0 <= t < emissions.len(),
        0 <= s < targets.len(),
        s <= t + 1,
        all_finite(emissions, targets),
    ensures
        trellis_row(emissions, targets, t)[s] is Some,
    decreases t,
{
    assert(emission(emissions, targets, t, s) is Some);
    if t > 0 {
        let row = trellis_row(emissions, targets, t - 1);
        if s <= t {
            lemma_reached(emissions, targets, t - 1, s);
        } else {
            lemma_reached(emissions, targets, t - 1, s - 1);
            assert(advance(row, s) is Some);
        }
    }
}

/// Whether no target has the log-probability minus infinity in any frame.
pub open spec fn all_finite(emissions: Seq<Seq<LogProb>>, targets: Seq<usize>) -> bool {
    forall|t: int, s: int|
        0 <= t < emissions.len() && 0 <= s < targets.len() ==> #[trigger] emission(
            emissions,
            targets,
            t,
            s,
        ) is Some
}

/// With enough frames, and no log-probability of minus infinity, an alignment of all frames to
/// all targets is found.
pub proof fn law_alignment_is_complete(emissions: Seq<Seq<LogProb>>, targets: Seq<usize>)
    requires
        emissions.len() >= targets.len() > 0,
        all_finite(emissions, targets),
    ensures
        is_complete_alignment(
            targets,
            emissions.len(),
            best_positions(emissions, targets),
        ),
{
    let last = emissions.len() - 1;
    let row = trellis_row(emissions, targets, last);
    lemma_reached(emissions, targets, last, targets.len() - 1);
    lemma_trace_attains(emissions, targets, last, end_position(row));
}

/// What an alignment spells up to a frame: the tokens up to its position.
proof fn lemma_alignment_spells(ids: Seq<usize>, blank_id: usize, positions: Seq<int>)
    requires
        !ids.contains(blank_id),
        is_alignment(interleaved(ids, blank_id), positions),
    ensures
        collapsed(tokens_at(interleaved(ids, blank_id), positions), blank_id) == ids.take(
            (positions.last() + 1) / 2,
        ),
    decreases positions.len(),
{
    let targets = interleaved(ids, blank_id);
    let path = tokens_at(targets, positions);
    let s = positions.last();
    assert(forall|i: int| 0 <= i < ids.len() ==> #[trigger] ids[i] != blank_id);
    if positions.len() == 1 {
        assert(path.drop_last() == Seq::<usize>::empty());
        assert(collapsed(path.drop_last(), blank_id) == Seq::<usize>::empty());
    } else {
        let from = positions[positions.len() - 2];
        assert(positions.drop_last().last() == from);
        lemma_alignment_spells(ids, blank_id, positions.drop_last());
        assert(path.drop_last() == tokens_at(targets, positions.drop_last()));
        if s == from + 2 {
            assert(s % 2 == 1 && from % 2 == 1);
        }
    }
    if s % 2 == 1 {
        assert(ids.take((s + 1) / 2) == ids.take(s / 2).push(ids[s / 2]));
    }
}

/// A complete alignment spells the text: with repetitions and blanks removed, its tokens are
/// the tokens that the targets were made of.
pub proof fn law_path_spells_targets(
    ids: Seq<usize>,
    blank_id: usize,
    frames: nat,
    positions: Seq<int>,
)
    requires
        !ids.contains(blank_id),
        is_complete_alignment(interleaved(ids, blank_id), frames, positions),
    ensures
        collapsed(tokens_at(interleaved(ids, blank_id), positions), blank_id) == ids,
{
    lemma_alignment_spells(ids, blank_id, positions);
    assert(ids.take(ids.len() as int) == ids);
}

/// The sum of numbers.
pub open spec fn sum_of(numbers: Seq<int>) -> int {
    numbers.fold_left(0, |a: int, b: int| a + b)
}

/// Whether every log-probability of a target is a number.
pub open spec fn all_units(emissions: Seq<Seq<LogProb>>, targets: Seq<usize>) -> bool {
    forall|t: int, s: int|
        0 <= t < emissions.len() && 0 <= s < targets.len() ==> #[trigger] emissions[t][targets[s]
            as int] is Units
}

/// The numbers that an alignment meets, frame by frame.
pub open spec fn units_along(
    emissions: Seq<Seq<LogProb>>,
    targets: Seq<usize>,
    positions: Seq<int>,
) -> Seq<int> {
    Seq::new(
        positions.len(),
        |t: int| emissions[t][targets[positions[t]] as int]->Units_0 as int,
    )
}

/// Whether an alignment meets a number in every frame, and never minus infinity.
pub open spec fn meets_numbers(
    emissions: Seq<Seq<LogProb>>,
    targets: Seq<usize>,
    positions: Seq<int>,
) -> bool {
    forall|t: int|
        0 <= t < positions.len() ==> emissions[t][targets[#[trigger] positions[t]] as int] is Units
}

/// The log-probability of an alignment is the plain sum of the numbers that it meets, and it is
/// minus infinity if the alignment meets minus infinity.
pub proof fn law_log_prob_is_plain_sum(
    emissions: Seq<Seq<LogProb>>,
    targets: Seq<usize>,
    positions: Seq<int>,
)
    ensures
        log_prob_of(emissions, targets, positions) == if meets_numbers(
            emissions,
            targets,
            positions,
        ) {
            Some(sum_of(units_along(emissions, targets, positions)))
        } else {
            None
        },
    decreases positions.len(),
{
    let units = units_along(emissions, targets, positions);
    if positions.len() == 0 {
        assert(units == Seq::<int>::empty());
    } else {
        let init = positions.drop_last();
        let t = positions.len() - 1;
        law_log_prob_is_plain_sum(emissions, targets, init);
        assert(units.drop_last() == units_along(emissions, targets, init));
        if meets_numbers(emissions, targets, positions) {
            assert forall|u: int| 0 <= u < init.len() implies emissions[u][targets[
                #[trigger] init[u]] as int] is Units by {
                assert(init[u] == positions[u]);
            }
            assert(emissions[t][targets[positions[t]] as int] is Units);
        } else {
            if meets_numbers(emissions, targets, init) {
                assert forall|u: int|
                    0 <= u < positions.len() && emissions[t][targets[positions[t]] as int] is Units implies emissions[u][targets[
                    #[trigger] positions[u]] as int] is Units by {
                    if u < t {
                        assert(init[u] == positions[u]);
                    }
                }
            }
        }
    }
}

/// The alignment has the greatest sum: if all log-probabilities are numbers, then the alignment
/// that is found is complete, and no complete alignment meets numbers of a greater sum.
pub proof fn law_alignment_has_greatest_sum(
    emissions: Seq<Seq<LogProb>>,
    targets: Seq<usize>,
    other: Seq<int>,
)
    requires
        emissions.len() >= targets.len() > 0,
        all_units(emissions, targets),
        is_complete_alignment(targets, emissions.len(), other),
    ensures
        is_complete_alignment(targets, emissions.len(), best_positions(emissions, targets)),
        sum_of(units_along(emissions, targets, other)) <= sum_of(
            units_along(emissions, targets, best_positions(emissions, targets)),
        ),
{
    let best = best_positions(emissions, targets);
    assert forall|t: int, s: int|
        0 <= t < emissions.len() && 0 <= s < targets.len() implies #[trigger] emission(
        emissions,
        targets,
        t,
        s,
    ) is Some by {
        assert(emissions[t][targets[s] as int] is Units);
    }
    law_alignment_is_complete(emissions, targets);
    law_alignment_is_optimal(emissions, targets, other);
    lemma_positions_in_range(targets, other);
    lemma_positions_in_range(targets, best);
    law_log_prob_is_plain_sum(emissions, targets, other);
    law_log_prob_is_plain_sum(emissions, targets, best);
}

/// An alignment stays among the targets.
proof fn lemma_positions_in_range(targets: Seq<usize>, positions: Seq<int>)
    requires
        is_alignment(targets, positions),
    ensures
        forall|t: int| 0 <= t < positions.len() ==> 0 <= #[trigger] positions[t] < targets.len(),
    decreases positions.len(),
{
    if positions.len() > 1 {
        lemma_positions_in_range(targets, positions.drop_last());
        assert forall|t: int| 0 <= t < positions.len() implies 0 <= #[trigger] positions[t]
            < targets.len() by {
            if t < positions.len() - 1 {
                assert(positions.drop_last()[t] == positions[t]);
            }
        }
    }
}

/// The alignment is the best also where some log-probabilities are minus infinity: if a
/// complete alignment meets numbers only, then so does the one that is found, which is complete,
/// and its sum is not less.
pub proof fn law_alignment_avoids_the_impossible(
    emissions: Seq<Seq<LogProb>>,
    targets: Seq<usize>,
    other: Seq<int>,
)
    requires
        emissions.len() >= targets.len() > 0,
        is_complete_alignment(targets, emissions.len(), other),
        meets_numbers(emissions, targets, other),
    ensures
        ({
            let best = best_positions(emissions, targets);
            &&& is_complete_alignment(targets, emissions.len(), best)
            &&& meets_numbers(emissions, targets, best)
            &&& sum_of(units_along(emissions, targets, other)) <= sum_of(
                units_along(emissions, targets, best),
            )
        }),
{
    law_log_prob_is_plain_sum(emissions, targets, other);
    law_log_prob_is_plain_sum(emissions, targets, best_positions(emissions, targets));
    law_alignment_is_optimal(emissions, targets, other);
}

/// Of all alignments that end at `s` with the greatest log-probability, the trace is the one
/// that has the greatest position where it last differs from another.
proof fn lemma_trace_ties(
    emissions: Seq<Seq<LogProb>>,
    targets: Seq<usize>,
    t: int,
    s: int,
    other: Seq<int>,
    u: int,
)
    requires
        t >= 0,
        other.len() == t + 1,
        other.last() == s,
        is_alignment(targets, other),
        trellis_row(emissions, targets, t)[s] is Some,
        log_prob_of(emissions, targets, other) == trellis_row(emissions, targets, t)[s],
        0 <= u <= t,
        other[u] != trace(emissions, targets, t, s)[u],
        forall|v: int| u < v <= t ==> #[trigger] other[v] == trace(emissions, targets, t, s)[v],
    ensures
        trace(emissions, targets, t, s)[u] > other[u],
    decreases t,
{
    lemma_trace_attains(emissions, targets, t, s);
    if t > 0 {
        let row = trellis_row(emissions, targets, t - 1);
        let from = predecessor(row, targets, s);
        let init = other.drop_last();
        assert(is_alignment(targets, init));
        assert(init.last() == other[t - 1]);
        lemma_trellis_bounds(emissions, targets, init);
        let own = trace(emissions, targets, t - 1, from);
        assert(trace(emissions, targets, t, s).drop_last() == own);
        assert(row[from] == arrival(row, targets, s));
        assert(log_prob_of(emissions, targets, init) == arrival(row, targets, s));
        assert(!exceeds(row[other[t - 1]], arrival(row, targets, s)));
        lemma_trace_attains(emissions, targets, t - 1, from);
        assert(own.last() == own[t - 1]);
        if u < t - 1 {
            assert(other[t - 1] == trace(emissions, targets, t, s)[t - 1]);
            assert forall|v: int| u < v <= t - 1 implies #[trigger] init[v] == own[v] by {
                assert(other[v] == trace(emissions, targets, t, s)[v]);
            }
            lemma_trace_ties(emissions, targets, t - 1, from, init, u);
        }
    }
}

/// Ties are broken from the end: of all complete alignments with the greatest sum, the one that
/// is found has the greater position in the last frame in which it differs from another. So it
/// reaches every position as early as it can, and stays.
pub proof fn law_ties_go_to_the_later_position(
    emissions: Seq<Seq<LogProb>>,
    targets: Seq<usize>,
    other: Seq<int>,
    u: int,
)
    requires
        emissions.len() >= targets.len() > 0,
        is_complete_alignment(targets, emissions.len(), other),
        meets_numbers(emissions, targets, other),
        sum_of(units_along(emissions, targets, other)) == sum_of(
            units_along(emissions, targets, best_positions(emissions, targets)),
        ),
        0 <= u < emissions.len(),
        other[u] != best_positions(emissions, targets)[u],
        forall|v: int|
            u < v < emissions.len() ==> #[trigger] other[v] == best_positions(
                emissions,
                targets,
            )[v],
    ensures
        best_positions(emissions, targets)[u] > other[u],
{
    let best = best_positions(emissions, targets);
    let last = emissions.len() - 1;
    let row = trellis_row(emissions, targets, last);
    law_alignment_avoids_the_impossible(emissions, targets, other);
    law_log_prob_is_plain_sum(emissions, targets, other);
    law_log_prob_is_plain_sum(emissions, targets, best);
    lemma_trellis_bounds(emissions, targets, other);
    let end = end_position(row);
    assert(!exceeds(row[other.last()], row[end]));
    lemma_trace_attains(emissions, targets, last, end);
    if u < last {
        assert(other[last] == best[last]);
        lemma_trace_ties(emissions, targets, last, end, other, u);
    }
}

/// The trellis holds, for every frame and position, the greatest sum of an alignment that is at
/// the position in the frame: no such alignment has a greater one, and one has it. It holds
/// minus infinity where every such alignment meets minus infinity.
pub proof fn law_trellis_holds_greatest_sums(
    emissions: Seq<Seq<LogProb>>,
    targets: Seq<usize>,
    t: int,
    s: int,
    other: Seq<int>,
) -> (witness: Seq<int>)
    requires
        t >= 0,
        0 <= s < targets.len(),
    ensures
        is_alignment(targets, other) && other.len() == t + 1 && other.last() == s
            && meets_numbers(emissions, targets, other) ==> (trellis_row(
            emissions,
            targets,
            t,
        )[s] matches Some(x) && sum_of(units_along(emissions, targets, other)) <= x),
        trellis_row(emissions, targets, t)[s] matches Some(x) ==> {
            &&& is_alignment(targets, witness) && witness.len() == t + 1 && witness.last() == s
            &&& meets_numbers(emissions, targets, witness)
            &&& sum_of(units_along(emissions, targets, witness)) == x
        },
{
    let witness = trace(emissions, targets, t, s);
    law_log_prob_is_plain_sum(emissions, targets, other);
    law_log_prob_is_plain_sum(emissions, targets, witness);
    if is_alignment(targets, other) && other.len() == t + 1 && other.last() == s {
        lemma_trellis_bounds(emissions, targets, other);
    }
    if trellis_row(emissions, targets, t)[s] is Some {
        lemma_trace_attains(emissions, targets, t, s);
    }
    witness
}

/// Whether `a` is less than `b`, or equal and not at a later position, where nothing is less
/// than everything.
pub open spec fn is_no_better(a: Option<int>, at: int, b: Option<int>, than: int) -> bool {
    match (a, b) {
        (Some(x), Some(y)) => x < y || x == y && at <= than,
        (Some(_), None) => false,
        (None, Some(_)) => true,
        (None, None) => at <= than,
    }
}

/// A trace goes back from every position to the best one before it.
proof fn lemma_trace_goes_back(
    emissions: Seq<Seq<LogProb>>,
    targets: Seq<usize>,
    t: int,
    s: int,
    u: int,
)
    requires
        0 <= u < t,
        0 <= s < targets.len(),
    ensures
        trace(emissions, targets, t, s)[u] == predecessor(
            trellis_row(emissions, targets, u),
            targets,
            trace(emissions, targets, t, s)[u + 1],
        ),
    decreases t,
{
    let from = predecessor(trellis_row(emissions, targets, t - 1), targets, s);
    lemma_trace(emissions, targets, t, s);
    lemma_trace(emissions, targets, t - 1, from);
    let own = trace(emissions, targets, t - 1, from);
    assert(own.last() == own[t - 1]);
    if u < t - 1 {
        lemma_trace_goes_back(emissions, targets, t - 1, from, u);
    }
}

/// The path is found from the end: it ends at the better of the last two positions, and before
/// every position it is at the best one from which that can be reached, where of equally good
/// ones the later is better. This holds whether or not a complete alignment meets numbers only.
pub proof fn law_path_goes_back_to_the_best(
    emissions: Seq<Seq<LogProb>>,
    targets: Seq<usize>,
    t: int,
    from: int,
)
    requires
        emissions.len() >= targets.len() > 0,
        0 <= t < emissions.len(),
        0 <= from < targets.len(),
    ensures
        ({
            let best = best_positions(emissions, targets);
            let row = trellis_row(emissions, targets, t);
            &&& best.len() == emissions.len()
            &&& 0 <= best[t] < targets.len()
            &&& t < emissions.len() - 1 ==> {
                &&& may_step(targets, best[t], best[t + 1])
                &&& may_step(targets, from, best[t + 1]) ==> is_no_better(
                    row[from],
                    from,
                    row[best[t]],
                    best[t],
                )
            }
            &&& t == emissions.len() - 1 ==> {
                &&& best[t] >= targets.len() - 2
                &&& from >= targets.len() - 2 ==> is_no_better(
                    row[from],
                    from,
                    row[best[t]],
                    best[t],
                )
            }
        }),
{
    let last = emissions.len() - 1;
    let end = end_position(trellis_row(emissions, targets, last));
    lemma_trace(emissions, targets, last, end);
    let best = best_positions(emissions, targets);
    assert(best.last() == best[last]);
    if t < last {
        lemma_trace_goes_back(emissions, targets, last, end, t);
        let next = best[t + 1];
        assert(0 <= next < targets.len());
    }
}

} // verus!
