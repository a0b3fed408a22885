//! Why the states and jobs a tracker starts with are in order.

use vstd::prelude::*;
use vstd::arithmetic::power2::lemma_pow2_unfold;
use crate::job::Job;
use crate::progress::upkeep::{inv, job_ok, planned_wait, tile_ok};
use crate::progress::{
    in_pyramid, initial_states, lemma_candidates_are_window_parents, marked, ready,
    related, reordered_from, settled, unit_jobs, window, ProgressState,
};
use crate::tile::{Tile, MAX_ZOOM};

verus! {

/// The states while a tracker is being set up: the pyramids over the first
/// `done` unit tiles, and of the pyramid over the next one the tiles with a
/// zoom from `lo` up to, but not including, `hi`.
pub(crate) open spec fn building<B>(
    jobs: Seq<Job<B>>,
    levels: nat,
    done: int,
    lo: int,
    hi: int,
) -> Map<Tile, ProgressState> {
    Map::new(
        |t: Tile|
            t.valid() && (in_pyramid(jobs.take(done), levels, t) || (done < jobs.len() && lo
                <= t.zoom < hi && related(jobs[done].tile_spec(), levels, t))),
        |t: Tile|
            if t.zoom == jobs[0].tile_spec().zoom + levels {
                ProgressState::Queued
            } else {
                ProgressState::Planned
            },
    )
}

/// A tile that belongs to the pyramid over a unit tile is at most `levels`
/// below it.
pub(crate) proof fn lemma_related_zoom(seed: Tile, levels: nat, t: Tile)
    requires
        related(seed, levels, t),
    ensures
        t.zoom <= seed.zoom + levels,
{
}

/// With the whole pyramid over unit tile `done` added, the states are those
/// of the pyramids over the first `done + 1` unit tiles.
pub(crate) proof fn lemma_building_step<B>(jobs: Seq<Job<B>>, levels: nat, done: int)
    requires
        0 <= done < jobs.len(),
        jobs[done].tile_spec().zoom + levels <= MAX_ZOOM,
    ensures
        building(jobs, levels, done, 0, jobs[done].tile_spec().zoom + levels + 1) == building(
            jobs,
            levels,
            done + 1,
            0,
            0,
        ),
{
    let a = building(jobs, levels, done, 0, jobs[done].tile_spec().zoom + levels + 1);
    let b = building(jobs, levels, done + 1, 0, 0);
    let seed = jobs[done].tile_spec();
    assert forall|t: Tile| a.contains_key(t) == b.contains_key(t) by {
        if a.contains_key(t) {
            if in_pyramid(jobs.take(done), levels, t) {
                let i = choose|i: int|
                    0 <= i < jobs.take(done).len() && related(
                        (#[trigger] jobs.take(done)[i]).tile_spec(),
                        levels,
                        t,
                    );
                assert(jobs.take(done + 1)[i] == jobs.take(done)[i]);
            } else {
                assert(jobs.take(done + 1)[done] == jobs[done]);
            }
            assert(in_pyramid(jobs.take(done + 1), levels, t));
        }
        if b.contains_key(t) {
            let i = choose|i: int|
                0 <= i < jobs.take(done + 1).len() && related(
                    (#[trigger] jobs.take(done + 1)[i]).tile_spec(),
                    levels,
                    t,
                );
            if i < done {
                assert(jobs.take(done)[i] == jobs.take(done + 1)[i]);
                assert(in_pyramid(jobs.take(done), levels, t));
            } else {
                assert(jobs.take(done + 1)[i] == jobs[done]);
                lemma_related_zoom(seed, levels, t);
            }
        }
    }
    assert(a =~= b);
}

/// The state a tile of the given zoom starts in.
pub(crate) open spec fn state_at_level(k: int, levels: nat) -> ProgressState {
    if k == levels {
        ProgressState::Queued
    } else {
        ProgressState::Planned
    }
}

/// Marking the descendants `k` levels below unit tile `done` adds the level
/// `k` below it to the states.
pub(crate) proof fn lemma_building_descend<B>(jobs: Seq<Job<B>>, levels: nat, done: int, k: nat)
    requires
        0 <= done < jobs.len(),
        jobs[done].tile_spec().valid(),
        jobs[done].tile_spec().zoom == jobs[0].tile_spec().zoom,
        jobs[done].tile_spec().zoom + levels <= MAX_ZOOM,
        k <= levels,
    ensures
        marked(
            building(
                jobs,
                levels,
                done,
                jobs[done].tile_spec().zoom as int,
                jobs[done].tile_spec().zoom + k,
            ),
            jobs[done].tile_spec().descendants_spec(k),
            state_at_level(k as int, levels),
        ) == building(
            jobs,
            levels,
            done,
            jobs[done].tile_spec().zoom as int,
            jobs[done].tile_spec().zoom + k + 1,
        ),
{
    let seed = jobs[done].tile_spec();
    let z = seed.zoom as int;
    let desc = seed.descendants_spec(k);
    let a = marked(building(jobs, levels, done, z, z + k), desc, state_at_level(k as int, levels));
    let b = building(jobs, levels, done, z, z + k + 1);
    seed.lemma_ancestor_zero();
    assert forall|t: Tile| desc.contains(t) implies t.valid() && t.zoom == z + k && related(
        seed,
        levels,
        t,
    ) by {
        let i = choose|i: int| 0 <= i < desc.len() && desc[i] == t;
        seed.lemma_descendant_within(k, i);
        t.lemma_ancestor_zero();
    }
    assert forall|t: Tile| t.valid() && t.zoom == z + k && related(seed, levels, t) implies desc.contains(
        t,
    ) by {
        t.lemma_ancestor_zero();
        seed.lemma_within_is_descendant(k, t);
    }
    assert forall|t: Tile| a.contains_key(t) == b.contains_key(t) by {
        if desc.contains(t) {
            assert(b.contains_key(t));
        }
    }
    assert(a =~= b);
}

/// Planning the ancestor `up + 1` levels above unit tile `done` adds that
/// level to the states.
pub(crate) proof fn lemma_building_ascend<B>(jobs: Seq<Job<B>>, levels: nat, done: int, up: nat, hi: int)
    requires
        0 <= done < jobs.len(),
        jobs[done].tile_spec().valid(),
        jobs[done].tile_spec().zoom == jobs[0].tile_spec().zoom,
        up < jobs[done].tile_spec().zoom,
        hi > jobs[done].tile_spec().zoom - up,
    ensures
        building(jobs, levels, done, jobs[done].tile_spec().zoom - up, hi).insert(
            jobs[done].tile_spec().ancestor_spec(up + 1),
            ProgressState::Planned,
        ) == building(jobs, levels, done, jobs[done].tile_spec().zoom - up - 1, hi),
        jobs[done].tile_spec().ancestor_spec(up + 1).valid(),
{
    let seed = jobs[done].tile_spec();
    let p = seed.ancestor_spec(up + 1);
    seed.lemma_ancestor_valid(up + 1);
    let a = building(jobs, levels, done, seed.zoom - up, hi).insert(p, ProgressState::Planned);
    let b = building(jobs, levels, done, seed.zoom - up - 1, hi);
    assert(related(seed, levels, p));
    assert forall|t: Tile| a.contains_key(t) == b.contains_key(t) by {
        if b.contains_key(t) && !in_pyramid(jobs.take(done), levels, t) && t.zoom == seed.zoom
            - up - 1 {
            assert(t == p);
        }
    }
    assert(a =~= b);
}

/// Among jobs that are each there once, a place is the place of one job of
/// the reordered list.
pub(crate) proof fn lemma_reordered_onto<B>(before: Seq<Job<B>>, after: Seq<Job<B>>, from: Seq<int>, k: int)
    requires
        reordered_from(before, after, from),
        0 <= k < before.len(),
    ensures
        exists|i: int| 0 <= i < from.len() && from[i] == k,
{
    // A list of distinct places, as long as there are places, misses none.
    lemma_distinct_places_cover(from, before.len() as int, k);
}

/// `n` distinct numbers below `n` are all the numbers below `n`.
pub(crate) proof fn lemma_distinct_places_cover(from: Seq<int>, n: int, k: int)
    requires
        from.len() == n,
        forall|i: int| 0 <= i < from.len() ==> 0 <= #[trigger] from[i] < n,
        forall|i: int, j: int| 0 <= i < j < from.len() ==> #[trigger] from[i] != #[trigger] from[j],
        0 <= k < n,
    ensures
        exists|i: int| 0 <= i < from.len() && from[i] == k,
{
    if !exists|i: int| 0 <= i < from.len() && from[i] == k {
        // Take `k` out of the range by moving the top place `n - 1` onto it:
        // what is left are `n` distinct numbers below `n - 1`, one too many.
        let moved = Seq::new(
            from.len(),
            |i: int|
                if from[i] == n - 1 {
                    k
                } else {
                    from[i]
                },
        );
        assert forall|i: int| 0 <= i < moved.len() implies 0 <= #[trigger] moved[i] < n - 1 by {
            assert(from[i] != k);
        }
        lemma_two_share_a_place(moved, n - 1);
        let (i, j) = choose|i: int, j: int|
            0 <= i < j < moved.len() && #[trigger] moved[i] == #[trigger] moved[j];
        assert(from[i] != from[j]);
        assert(from[i] != k);
        assert(from[j] != k);
    }
}

/// Of more than `n` numbers below `n`, two are the same.
pub(crate) proof fn lemma_two_share_a_place(places: Seq<int>, n: int)
    requires
        places.len() > n,
        n >= 0,
        forall|i: int| 0 <= i < places.len() ==> 0 <= #[trigger] places[i] < n,
    ensures
        exists|i: int, j: int|
            0 <= i < j < places.len() && #[trigger] places[i] == #[trigger] places[j],
    decreases n,
{
    if n == 0 {
        let v = places[0];
        assert(0 <= v && v < n);
    } else {
        let top = places.len() - 1;
        let last = places[top];
        if exists|i: int| 0 <= i < top && places[i] == last {
            let i = choose|i: int| 0 <= i < top && places[i] == last;
            assert(places[i] == places[top]);
        } else {
            // Drop the last number and move the top place onto the number
            // it held: the rest are numbers below `n - 1`.
            let rest = Seq::new(
                top as nat,
                |i: int|
                    if places[i] == n - 1 {
                        last
                    } else {
                        places[i]
                    },
            );
            assert forall|i: int| 0 <= i < rest.len() implies 0 <= #[trigger] rest[i] < n - 1 by {
                assert(places[i] != last);
                assert(0 <= places[i] < n);
                assert(0 <= places[top] < n);
            }
            lemma_two_share_a_place(rest, n - 1);
            let (i, j) = choose|i: int, j: int|
                0 <= i < j < rest.len() && #[trigger] rest[i] == #[trigger] rest[j];
            assert(places[i] != last);
            assert(places[j] != last);
            assert(places[i] == places[j]);
        }
    }
}

/// Unit jobs in another order are unit jobs still, and span the same
/// pyramid.
pub(crate) proof fn lemma_unit_jobs_reordered<B>(
    before: Seq<Job<B>>,
    after: Seq<Job<B>>,
    from: Seq<int>,
    levels: nat,
)
    requires
        unit_jobs(before, levels),
        reordered_from(before, after, from),
    ensures
        unit_jobs(after, levels),
        initial_states(after, levels) == initial_states(before, levels),
{
    assert forall|i: int, j: int| 0 <= i < j < after.len() implies {
        &&& (#[trigger] after[i]).tile_spec().zoom == (#[trigger] after[j]).tile_spec().zoom
        &&& after[i].tile_spec() != after[j].tile_spec()
    } by {
        assert(after[i] == before[from[i]]);
        assert(after[j] == before[from[j]]);
        if from[i] < from[j] {
            assert(before[from[i]].tile_spec() != before[from[j]].tile_spec());
        } else {
            assert(before[from[j]].tile_spec() != before[from[i]].tile_spec());
        }
    }
    assert forall|i: int| 0 <= i < after.len() implies {
        &&& (#[trigger] after[i]) is Rasterize
        &&& after[i].tile_spec().valid()
        &&& after[i].tile_spec().zoom + levels <= MAX_ZOOM
    } by {
        assert(after[i] == before[from[i]]);
    }
    let a = initial_states(after, levels);
    let b = initial_states(before, levels);
    if before.len() > 0 {
        assert(after[0] == before[from[0]]);
        if from[0] > 0 {
            assert(before[0].tile_spec().zoom == before[from[0]].tile_spec().zoom);
        }
    }
    assert forall|t: Tile| a.contains_key(t) == b.contains_key(t) by {
        if a.contains_key(t) {
            let i = choose|i: int|
                0 <= i < after.len() && related((#[trigger] after[i]).tile_spec(), levels, t);
            assert(after[i] == before[from[i]]);
            assert(related(before[from[i]].tile_spec(), levels, t));
        }
        if b.contains_key(t) {
            let k = choose|k: int|
                0 <= k < before.len() && related((#[trigger] before[k]).tile_spec(), levels, t);
            lemma_reordered_onto(before, after, from, k);
            let i = choose|i: int| 0 <= i < from.len() && from[i] == k;
            assert(after[i] == before[k]);
            assert(related(after[i].tile_spec(), levels, t));
        }
    }
    assert(a =~= b);
}

/// The states and the jobs a tracker starts with are consistent.
pub(crate) proof fn lemma_initial_inv<B>(jobs: Seq<Job<B>>, levels: nat)
    requires
        unit_jobs(jobs, levels),
    ensures
        inv(jobs, initial_states(jobs, levels), jobs[0].tile_spec().zoom as int, levels),
{
    let states = initial_states(jobs, levels);
    let unit_zoom = jobs[0].tile_spec().zoom as int;
    let leaf = unit_zoom + levels;
    assert forall|i: int| 0 <= i < jobs.len() implies (#[trigger] jobs[i]).tile_spec().zoom
        == unit_zoom by {
        if i > 0 {
            assert(jobs[0].tile_spec().zoom == jobs[i].tile_spec().zoom);
        }
    }
    assert forall|t: Tile| #[trigger] states.contains_key(t) implies tile_ok(states, leaf, t) by {
        let i = choose|i: int|
            0 <= i < jobs.len() && related((#[trigger] jobs[i]).tile_spec(), levels, t);
        lemma_related_zoom(jobs[i].tile_spec(), levels, t);
    }
    assert forall|a: int| 0 <= a < jobs.len() implies job_ok(
        #[trigger] jobs[a],
        states,
        unit_zoom,
        levels,
    ) by {
        let job = jobs[a];
        let seed = job.tile_spec();
        assert forall|t: Tile| #[trigger] job.covers(levels, t) implies states.contains_key(t)
            && states[t] == ProgressState::Queued by {
            t.lemma_ancestor_zero();
            seed.lemma_ancestor_zero();
            assert(related(seed, levels, t));
        }
    }
    assert forall|a: int, b: int, t: Tile|
        0 <= a < b < jobs.len() && #[trigger] jobs[a].covers(levels, t) implies !#[trigger] jobs[b].covers(
        levels,
        t,
    ) by {
        if jobs[b].covers(levels, t) {
            assert(jobs[a].tile_spec() != jobs[b].tile_spec());
        }
    }
    assert forall|t: Tile|
        #[trigger] states.contains_key(t) && states[t] == ProgressState::Queued implies exists|
        i: int,
    |
        0 <= i < jobs.len() && (#[trigger] jobs[i]).covers(levels, t) by {
        let i = choose|i: int|
            0 <= i < jobs.len() && related((#[trigger] jobs[i]).tile_spec(), levels, t);
        let seed = jobs[i].tile_spec();
        assert(seed.zoom == unit_zoom);
        seed.lemma_ancestor_zero();
        t.lemma_ancestor_zero();
        assert(jobs[i].covers(levels, t));
    }
}

/// In the states a tracker starts with, every planned tile waits for a child
/// of its own.
pub(crate) proof fn lemma_initial_planned_wait<B>(jobs: Seq<Job<B>>, levels: nat)
    requires
        unit_jobs(jobs, levels),
    ensures
        planned_wait(initial_states(jobs, levels)),
{
    let states = initial_states(jobs, levels);
    let unit_zoom = jobs[0].tile_spec().zoom as int;
    assert forall|t: Tile|
        #[trigger] states.contains_key(t) && states[t] == ProgressState::Planned implies !ready(
        states,
        t,
    ) by {
        let i = choose|i: int|
            0 <= i < jobs.len() && related((#[trigger] jobs[i]).tile_spec(), levels, t);
        let seed = jobs[i].tile_spec();
        if i > 0 {
            assert(jobs[0].tile_spec().zoom == jobs[i].tile_spec().zoom);
        }
        assert(seed.zoom == unit_zoom);
        lemma_related_zoom(seed, levels, t);
        assert(t.zoom < unit_zoom + levels);
        vstd::arithmetic::power2::lemma2_to64();
        let c = if t.zoom < seed.zoom {
            seed.ancestor_spec((seed.zoom - t.zoom - 1) as nat)
        } else {
            Tile { zoom: (t.zoom + 1) as u8, x: (2 * t.x) as u32, y: (2 * t.y) as u32 }
        };
        if t.zoom < seed.zoom {
            let up = (seed.zoom - t.zoom - 1) as nat;
            seed.lemma_ancestor_valid(up);
            seed.lemma_ancestor_twice(up, 1);
            seed.lemma_ancestor_zero();
            assert(c.ancestor_spec(1) == t);
            assert(related(seed, levels, c));
        } else {
            lemma_pow2_unfold((t.zoom + 1) as nat);
            vstd::arithmetic::power2::lemma2_to64_rest();
            if t.zoom + 1 < 30 {
                vstd::arithmetic::power2::lemma_pow2_strictly_increases((t.zoom + 1) as nat, 30);
            }
            assert(c.valid());
            assert(c.ancestor_spec(1) == t);
            t.lemma_ancestor_zero();
            c.lemma_ancestor_twice(1, (t.zoom - seed.zoom) as nat);
            assert(related(seed, levels, c));
        }
        assert(in_pyramid(jobs, levels, c));
        assert(states.contains_key(c));
        assert(states[c] != ProgressState::Finished);
        assert(c.x / 2 == t.x && c.y / 2 == t.y);
        lemma_candidates_are_window_parents(c, t);
        assert(window(t).contains(c));
        let k = choose|k: int| 0 <= k < window(t).len() && window(t)[k] == c;
        assert(!settled(states, window(t)[k]));
    }
}

} // verus!
