//! What holds of a tracker between any two operations, and why each
//! operation keeps it.

use vstd::prelude::*;
use crate::job::Job;
use crate::progress::{
    advances, candidate_parents, done_states, lemma_candidates_are_window_parents,
    lemma_promote_all_advances, promote, promote_all, promoted, promotes, rank, ready,
    settled, taken, window, ProgressState,
};
use crate::tile::{Tile, MAX_ZOOM};

verus! {

/// Every tracked tile is a tile of the pyramid at or above the finest zoom,
/// and none at the finest zoom is planned.
pub(crate) open spec fn tile_ok(states: Map<Tile, ProgressState>, leaf: int, t: Tile) -> bool {
    &&& t.valid()
    &&& t.zoom <= leaf <= MAX_ZOOM
    &&& (t.zoom == leaf ==> states[t] != ProgressState::Planned)
}

/// Every tracked tile is in order.
pub(crate) open spec fn tracked_ok(states: Map<Tile, ProgressState>, leaf: int) -> bool {
    forall|t: Tile| #[trigger] states.contains_key(t) ==> tile_ok(states, leaf, t)
}

/// A tile covered by a listed job is queued, or it was reported finished
/// before its job was taken.
pub(crate) open spec fn awaits_or_finished(state: ProgressState) -> bool {
    state == ProgressState::Queued || state == ProgressState::Finished
}

/// The job is of the right level and every tile it covers is queued or
/// already finished.
pub(crate) open spec fn job_ok<B>(
    job: Job<B>,
    states: Map<Tile, ProgressState>,
    unit_zoom: int,
    levels: nat,
) -> bool {
    &&& job.tile_spec().valid()
    &&& unit_zoom + levels <= MAX_ZOOM
    &&& match job {
        Job::Rasterize(meta) => meta.tile.zoom == unit_zoom,
        Job::Overview(tile) => tile.zoom < unit_zoom + levels,
    }
    &&& forall|t: Tile| #[trigger]
        job.covers(levels, t) ==> states.contains_key(t) && awaits_or_finished(states[t])
}

/// Each job in the list is in order.
pub(crate) open spec fn jobs_ok<B>(
    jobs: Seq<Job<B>>,
    states: Map<Tile, ProgressState>,
    unit_zoom: int,
    levels: nat,
) -> bool {
    forall|i: int| 0 <= i < jobs.len() ==> job_ok(#[trigger] jobs[i], states, unit_zoom, levels)
}

/// No tile is covered by two jobs of the list.
pub(crate) open spec fn jobs_disjoint<B>(jobs: Seq<Job<B>>, levels: nat) -> bool {
    forall|i: int, j: int, t: Tile|
        0 <= i < j < jobs.len() && #[trigger] jobs[i].covers(levels, t) ==> !#[trigger] jobs[j].covers(
            levels,
            t,
        )
}

/// The tile's job is listed or taken.
pub(crate) open spec fn admitted(state: ProgressState) -> bool {
    state == ProgressState::Queued || state == ProgressState::Processing
}

/// Every overview tile whose job is listed or taken has all sixteen tiles it
/// is built from finished or outside the pyramid.
pub(crate) open spec fn overviews_ok(states: Map<Tile, ProgressState>, leaf: int) -> bool {
    forall|t: Tile|
        #[trigger] states.contains_key(t) && t.zoom < leaf && admitted(states[t]) ==> ready(
            states,
            t,
        )
}

/// Every queued tile is covered by a job of the list.
pub(crate) open spec fn queued_listed<B>(jobs: Seq<Job<B>>, states: Map<Tile, ProgressState>, levels: nat) -> bool {
    forall|t: Tile|
        #[trigger] states.contains_key(t) && states[t] == ProgressState::Queued ==> exists|
            i: int,
        |
            0 <= i < jobs.len() && (#[trigger] jobs[i]).covers(levels, t)
}

/// What holds of the job list and the states between any two operations.
pub(crate) open spec fn inv<B>(
    jobs: Seq<Job<B>>,
    states: Map<Tile, ProgressState>,
    unit_zoom: int,
    levels: nat,
) -> bool {
    &&& tracked_ok(states, unit_zoom + levels)
    &&& jobs_ok(jobs, states, unit_zoom, levels)
    &&& jobs_disjoint(jobs, levels)
    &&& overviews_ok(states, unit_zoom + levels)
    &&& queued_listed(jobs, states, levels)
}

/// A tile that is ready stays ready while no tile is added and no finished
/// tile leaves that state.
pub(crate) proof fn lemma_ready_stable(
    before: Map<Tile, ProgressState>,
    after: Map<Tile, ProgressState>,
    parent: Tile,
)
    requires
        ready(before, parent),
        forall|c: Tile| #[trigger]
            after.contains_key(c) ==> before.contains_key(c) && (before[c]
                == ProgressState::Finished ==> after[c] == ProgressState::Finished),
    ensures
        ready(after, parent),
{
    assert forall|i: int| 0 <= i < window(parent).len() implies settled(
        after,
        #[trigger] window(parent)[i],
    ) by {
        assert(settled(before, window(parent)[i]));
    }
}

/// Finishing a tracked tile keeps the invariant.
pub(crate) proof fn lemma_finish<B>(
    jobs: Seq<Job<B>>,
    states: Map<Tile, ProgressState>,
    unit_zoom: int,
    levels: nat,
    tile: Tile,
)
    requires
        inv(jobs, states, unit_zoom, levels),
        states.contains_key(tile),
    ensures
        inv(jobs, states.insert(tile, ProgressState::Finished), unit_zoom, levels),
{
    let after = states.insert(tile, ProgressState::Finished);
    let leaf = unit_zoom + levels;
    assert forall|t: Tile| #[trigger] after.contains_key(t) implies tile_ok(after, leaf, t) by {
        assert(states.contains_key(t));
        assert(tile_ok(states, leaf, t));
    }
    assert forall|i: int| 0 <= i < jobs.len() implies job_ok(
        #[trigger] jobs[i],
        after,
        unit_zoom,
        levels,
    ) by {
        assert(job_ok(jobs[i], states, unit_zoom, levels));
    }
    assert forall|t: Tile|
        #[trigger] after.contains_key(t) && t.zoom < leaf && admitted(after[t]) implies ready(
        after,
        t,
    ) by {
        assert(states.contains_key(t));
        lemma_ready_stable(states, after, t);
    }
    assert forall|t: Tile|
        #[trigger] after.contains_key(t) && after[t] == ProgressState::Queued implies exists|
        i: int,
    |
        0 <= i < jobs.len() && (#[trigger] jobs[i]).covers(levels, t) by {
        assert(states.contains_key(t));
    }
}

/// Queueing a planned tile that is ready, with its overview job, keeps the
/// invariant.
pub(crate) proof fn lemma_promote<B>(
    jobs: Seq<Job<B>>,
    states: Map<Tile, ProgressState>,
    unit_zoom: int,
    levels: nat,
    parent: Tile,
)
    requires
        inv(jobs, states, unit_zoom, levels),
        promotes(states, parent),
    ensures
        inv(
            jobs.push(Job::Overview(parent)),
            states.insert(parent, ProgressState::Queued),
            unit_zoom,
            levels,
        ),
{
    let after = states.insert(parent, ProgressState::Queued);
    let leaf = unit_zoom + levels;
    let job: Job<B> = Job::Overview(parent);
    let jobs2 = jobs.push(job);
    assert(states.contains_key(parent));
    assert(tile_ok(states, leaf, parent));
    assert forall|t: Tile| #[trigger] after.contains_key(t) implies tile_ok(after, leaf, t) by {
        assert(states.contains_key(t));
        assert(tile_ok(states, leaf, t));
    }
    assert forall|i: int| 0 <= i < jobs2.len() implies job_ok(
        #[trigger] jobs2[i],
        after,
        unit_zoom,
        levels,
    ) by {
        if i < jobs.len() {
            assert(job_ok(jobs[i], states, unit_zoom, levels));
            assert forall|t: Tile| #[trigger] jobs2[i].covers(levels, t) implies after.contains_key(
                t,
            ) && awaits_or_finished(after[t]) by {
                assert(jobs[i].covers(levels, t));
            }
        } else {
            assert(jobs2[i] == job);
        }
    }
    assert forall|i: int, j: int, t: Tile|
        0 <= i < j < jobs2.len() && #[trigger] jobs2[i].covers(levels, t) implies !#[trigger] jobs2[j].covers(
        levels,
        t,
    ) by {
        assert(job_ok(jobs[i], states, unit_zoom, levels));
        if j < jobs.len() {
            assert(jobs[i].covers(levels, t));
            if jobs[j].covers(levels, t) {
                assert(false);
            }
        } else {
            assert(jobs[i].covers(levels, t));
        }
    }
    assert forall|t: Tile|
        #[trigger] after.contains_key(t) && t.zoom < leaf && admitted(after[t]) implies ready(
        after,
        t,
    ) by {
        assert(states.contains_key(t));
        lemma_ready_stable(states, after, t);
    }
    assert forall|t: Tile|
        #[trigger] after.contains_key(t) && after[t] == ProgressState::Queued implies exists|
        i: int,
    |
        0 <= i < jobs2.len() && (#[trigger] jobs2[i]).covers(levels, t) by {
        assert(states.contains_key(t));
        if t == parent {
            assert(jobs2[jobs.len() as int].covers(levels, t));
        } else {
            let i = choose|i: int| 0 <= i < jobs.len() && (#[trigger] jobs[i]).covers(levels, t);
            assert(jobs2[i].covers(levels, t));
        }
    }
}

/// Taking the last job and setting the queued tiles it covers to processing
/// keeps the invariant.
pub(crate) proof fn lemma_take<B>(
    jobs: Seq<Job<B>>,
    states: Map<Tile, ProgressState>,
    unit_zoom: int,
    levels: nat,
)
    requires
        inv(jobs, states, unit_zoom, levels),
        jobs.len() > 0,
    ensures
        inv(jobs.drop_last(), taken(states, jobs.last().covered_spec(levels)), unit_zoom, levels),
        taken(states, jobs.last().covered_spec(levels)).dom() == states.dom(),
{
    let job = jobs.last();
    let covered = job.covered_spec(levels);
    let after = taken(states, covered);
    let rest = jobs.drop_last();
    let leaf = unit_zoom + levels;
    let last = jobs.len() - 1;
    assert(job_ok(jobs[last], states, unit_zoom, levels));
    job.lemma_covered(levels);
    assert forall|t: Tile| covered.contains(t) implies states.contains_key(t)
        && awaits_or_finished(states[t]) by {
        assert(job.covers(levels, t));
    }
    assert(after.dom() =~= states.dom());
    assert forall|t: Tile| #[trigger] after.contains_key(t) implies tile_ok(after, leaf, t) by {
        assert(states.contains_key(t));
        assert(tile_ok(states, leaf, t));
    }
    assert forall|i: int| 0 <= i < rest.len() implies job_ok(
        #[trigger] rest[i],
        after,
        unit_zoom,
        levels,
    ) by {
        assert(job_ok(jobs[i], states, unit_zoom, levels));
        assert forall|t: Tile| #[trigger] rest[i].covers(levels, t) implies after.contains_key(t)
            && awaits_or_finished(after[t]) by {
            assert(jobs[i].covers(levels, t));
            assert(!jobs[last].covers(levels, t));
        }
    }
    assert forall|i: int, j: int, t: Tile|
        0 <= i < j < rest.len() && #[trigger] rest[i].covers(levels, t) implies !#[trigger] rest[j].covers(
        levels,
        t,
    ) by {
        assert(jobs[i].covers(levels, t));
        if jobs[j].covers(levels, t) {
            assert(false);
        }
    }
    assert forall|t: Tile|
        #[trigger] after.contains_key(t) && t.zoom < leaf && admitted(after[t]) implies ready(
        after,
        t,
    ) by {
        assert(states.contains_key(t));
        assert(admitted(states[t]));
        lemma_ready_stable(states, after, t);
    }
    assert forall|t: Tile|
        #[trigger] after.contains_key(t) && after[t] == ProgressState::Queued implies exists|
        i: int,
    |
        0 <= i < rest.len() && (#[trigger] rest[i]).covers(levels, t) by {
        assert(states.contains_key(t));
        assert(states[t] == ProgressState::Queued);
        assert(!covered.contains(t));
        let i = choose|i: int| 0 <= i < jobs.len() && (#[trigger] jobs[i]).covers(levels, t);
        assert(!job.covers(levels, t));
        assert(i < last);
        assert(rest[i].covers(levels, t));
    }
}

/// Every planned tile waits for something: one of the sixteen tiles it is
/// built from is tracked and not finished.
pub(crate) open spec fn planned_wait(states: Map<Tile, ProgressState>) -> bool {
    forall|t: Tile|
        #[trigger] states.contains_key(t) && states[t] == ProgressState::Planned ==> !ready(
            states,
            t,
        )
}

/// The same tiles are tracked and the same tiles are finished.
pub(crate) open spec fn same_finished(a: Map<Tile, ProgressState>, b: Map<Tile, ProgressState>) -> bool {
    &&& a.dom() == b.dom()
    &&& forall|t: Tile| #[trigger]
        a.contains_key(t) ==> (a[t] == ProgressState::Finished <==> b[t]
            == ProgressState::Finished)
}

/// Whether a tile is ready depends only on which tiles are tracked and which
/// are finished.
pub(crate) proof fn lemma_ready_same_finished(
    a: Map<Tile, ProgressState>,
    b: Map<Tile, ProgressState>,
    parent: Tile,
)
    requires
        same_finished(a, b),
    ensures
        ready(a, parent) == ready(b, parent),
{
    if ready(a, parent) {
        assert forall|i: int| 0 <= i < window(parent).len() implies settled(
            b,
            #[trigger] window(parent)[i],
        ) by {
            let c = window(parent)[i];
            assert(settled(a, c));
            if b.contains_key(c) {
                assert(a.contains_key(c));
            }
        }
    }
    if ready(b, parent) {
        assert forall|i: int| 0 <= i < window(parent).len() implies settled(
            a,
            #[trigger] window(parent)[i],
        ) by {
            let c = window(parent)[i];
            assert(settled(b, c));
            if a.contains_key(c) {
                assert(b.contains_key(c));
            }
        }
    }
}

/// With no job listed and no tile being processed, a tracked tile is
/// finished: were it planned, one of the tiles below it would be unfinished,
/// and so on down to the output tiles, which are never planned.
pub(crate) proof fn lemma_all_finished<B>(
    jobs: Seq<Job<B>>,
    states: Map<Tile, ProgressState>,
    unit_zoom: int,
    levels: nat,
    tile: Tile,
)
    requires
        inv(jobs, states, unit_zoom, levels),
        planned_wait(states),
        jobs.len() == 0,
        forall|t: Tile| #[trigger]
            states.contains_key(t) ==> states[t] != ProgressState::Processing,
        states.contains_key(tile),
    ensures
        states[tile] == ProgressState::Finished,
    decreases unit_zoom + levels - tile.zoom,
{
    let leaf = unit_zoom + levels;
    assert(tile_ok(states, leaf, tile));
    if states[tile] == ProgressState::Planned {
        assert(!ready(states, tile));
        let i = choose|i: int|
            0 <= i < window(tile).len() && !settled(states, #[trigger] window(tile)[i]);
        let child = window(tile)[i];
        assert(child.zoom == tile.zoom + 1);
        lemma_all_finished(jobs, states, unit_zoom, levels, child);
    }
}

/// Looking at parents finishes no tile and tracks no new one.
pub(crate) proof fn lemma_promote_all_same_finished(states: Map<Tile, ProgressState>, parents: Seq<Tile>)
    ensures
        same_finished(states, promote_all(states, parents)),
    decreases parents.len(),
{
    if parents.len() > 0 {
        let next = promote(states, parents[0]);
        assert(next.dom() =~= states.dom());
        lemma_promote_all_same_finished(next, parents.drop_first());
        let last = promote_all(states, parents);
        assert forall|t: Tile| #[trigger] states.contains_key(t) implies (states[t]
            == ProgressState::Finished <==> last[t] == ProgressState::Finished) by {
            assert(next.contains_key(t));
        }
    }
}

/// A parent that was looked at is not left planned and ready.
pub(crate) proof fn lemma_promote_all_settles(
    states: Map<Tile, ProgressState>,
    parents: Seq<Tile>,
    parent: Tile,
)
    requires
        parents.contains(parent),
    ensures
        !promotes(promote_all(states, parents), parent),
    decreases parents.len(),
{
    let next = promote(states, parents[0]);
    let rest = parents.drop_first();
    let last = promote_all(states, parents);
    if parents[0] == parent {
        assert(!promotes(next, parent)) by {
            if promotes(states, parent) {
                assert(next[parent] == ProgressState::Queued);
            }
        }
        lemma_promote_all_same_finished(next, rest);
        lemma_promote_all_advances(next, rest);
        lemma_ready_same_finished(next, last, parent);
        if promotes(last, parent) {
            assert(next.contains_key(parent));
            assert(rank(next[parent]) <= rank(last[parent]));
        }
    } else {
        let i = choose|i: int| 0 <= i < parents.len() && parents[i] == parent;
        assert(rest[i - 1] == parent);
        lemma_promote_all_settles(next, rest, parent);
    }
}

/// Reporting a tile finished leaves no planned tile ready: a planned tile
/// whose window holds the finished tile was looked at, and for any other
/// nothing it waits for has changed.
pub(crate) proof fn lemma_done_planned_wait(states: Map<Tile, ProgressState>, leaf: int, tile: Tile)
    requires
        tracked_ok(states, leaf),
        planned_wait(states),
        states.contains_key(tile),
    ensures
        planned_wait(done_states(states, tile)),
{
    let finished = states.insert(tile, ProgressState::Finished);
    let parents = candidate_parents(tile);
    let last = done_states(states, tile);
    lemma_promote_all_same_finished(finished, parents);
    lemma_promote_all_advances(finished, parents);
    assert(finished.dom() =~= states.dom());
    assert(tile_ok(states, leaf, tile));
    assert forall|t: Tile|
        #[trigger] last.contains_key(t) && last[t] == ProgressState::Planned implies !ready(
        last,
        t,
    ) by {
        assert(finished.contains_key(t));
        assert(rank(finished[t]) <= rank(last[t]));
        assert(finished[t] == ProgressState::Planned);
        assert(t != tile);
        assert(states.contains_key(t));
        assert(states[t] == ProgressState::Planned);
        assert(tile_ok(states, leaf, t));
        lemma_ready_same_finished(finished, last, t);
        if window(t).contains(tile) {
            let i = choose|i: int| 0 <= i < window(t).len() && window(t)[i] == tile;
            t.lemma_children_buffered_one();
            assert(window(t)[i].zoom == t.zoom + 1);
            lemma_candidates_are_window_parents(tile, t);
            lemma_promote_all_settles(finished, parents, t);
        } else {
            assert(!ready(states, t));
            if ready(finished, t) {
                assert forall|i: int| 0 <= i < window(t).len() implies settled(
                    states,
                    #[trigger] window(t)[i],
                ) by {
                    let c = window(t)[i];
                    assert(settled(finished, c));
                    assert(window(t).contains(c));
                    assert(c != tile);
                }
            }
        }
    }
}

/// Every parent that a look at parents queues is ready in the states the
/// look ends with, whatever the states it started from.
pub(crate) proof fn lemma_promoted_are_ready(
    states: Map<Tile, ProgressState>,
    parents: Seq<Tile>,
    i: int,
)
    requires
        0 <= i < promoted(states, parents).len(),
    ensures
        ready(promote_all(states, parents), promoted(states, parents)[i]),
    decreases parents.len(),
{
    if parents.len() > 0 {
        let next = promote(states, parents[0]);
        let rest = parents.drop_first();
        let last = promote_all(states, parents);
        if promotes(states, parents[0]) {
            if i == 0 {
                let p = parents[0];
                assert(next.dom() =~= states.dom());
                assert(same_finished(states, next));
                lemma_ready_same_finished(states, next, p);
                lemma_promote_all_same_finished(next, rest);
                lemma_ready_same_finished(next, last, p);
            } else {
                assert(promoted(states, parents)[i] == promoted(next, rest)[i - 1]);
                lemma_promoted_are_ready(next, rest, i - 1);
            }
        } else {
            lemma_promoted_are_ready(next, rest, i);
        }
    }
}

} // verus!
