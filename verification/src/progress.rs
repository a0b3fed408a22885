//! The progress tracker: the state of every tile of the pyramid and the list
//! of jobs that are ready to run. An overview is admitted exactly when the
//! sixteen tiles it is built from are finished or outside the pyramid.

mod upkeep;
mod setup;

use vstd::prelude::*;
use vstd::arithmetic::power2::{lemma_pow2_unfold, pow2};
use std::collections::{HashMap, HashSet};
use crate::job::{Job, TileMeta};
use crate::tile::{lemma_key_injective, pow2_u32, wrap_coord, Tile, TileRange, MAX_ZOOM};
use self::upkeep::{
    inv, job_ok, lemma_all_finished, lemma_done_planned_wait, lemma_finish, lemma_promote,
    lemma_promoted_are_ready, lemma_take, planned_wait, tile_ok,
};
use self::setup::{
    building, lemma_building_ascend, lemma_building_descend, lemma_building_step,
    lemma_initial_inv, lemma_initial_planned_wait, lemma_unit_jobs_reordered,
};

verus! {


broadcast use vstd::std_specs::hash::group_hash_axioms;

/// Where a tile stands on its way to the container.
#[derive(Clone, Copy, Debug, PartialEq, Eq, Structural)]
pub enum ProgressState {
    /// No job yet: the tiles it is built from are not all finished.
    Planned,
    /// A job for it is in the list.
    Queued,
    /// A worker has taken its job.
    Processing,
    /// Its payload was handed to the writer, or it has none.
    Finished,
}

/// The states by tile of a table that is keyed by tile keys.
spec fn tile_states(table: Map<u128, ProgressState>) -> Map<Tile, ProgressState> {
    Map::new(|t: Tile| table.contains_key(t.key_spec()), |t: Tile| table[t.key_spec()])
}

/// The sixteen tiles an overview of `parent` is built from.
pub open spec fn window(parent: Tile) -> Seq<Tile> {
    parent.children_buffered_spec(1)
}

/// `child` does not hold an overview back: it is finished, or it is not part
/// of the pyramid.
pub open spec fn settled(states: Map<Tile, ProgressState>, child: Tile) -> bool {
    states.contains_key(child) ==> states[child] == ProgressState::Finished
}

/// All sixteen tiles that `parent` is built from are finished or outside the
/// pyramid.
pub open spec fn ready(states: Map<Tile, ProgressState>, parent: Tile) -> bool {
    forall|i: int| 0 <= i < window(parent).len() ==> settled(states, #[trigger] window(parent)[i])
}

/// `states` with every tile of `tiles` set to `state`.
pub open spec fn marked(
    states: Map<Tile, ProgressState>,
    tiles: Seq<Tile>,
    state: ProgressState,
) -> Map<Tile, ProgressState> {
    Map::new(
        |t: Tile| states.contains_key(t) || tiles.contains(t),
        |t: Tile|
            if tiles.contains(t) {
                state
            } else {
                states[t]
            },
    )
}

/// `states` after a job for `tiles` was taken: those of them that are queued
/// are being processed.
pub open spec fn taken(states: Map<Tile, ProgressState>, tiles: Seq<Tile>) -> Map<
    Tile,
    ProgressState,
> {
    Map::new(
        |t: Tile| states.contains_key(t),
        |t: Tile|
            if tiles.contains(t) && states[t] == ProgressState::Queued {
                ProgressState::Processing
            } else {
                states[t]
            },
    )
}

/// Setting the entry under a tile's key sets the state of that tile and of
/// no other.
proof fn lemma_tile_states_insert(table: Map<u128, ProgressState>, t: Tile, s: ProgressState)
    ensures
        tile_states(table.insert(t.key_spec(), s)) == tile_states(table).insert(t, s),
{
    let a = tile_states(table.insert(t.key_spec(), s));
    let b = tile_states(table).insert(t, s);
    assert forall|u: Tile| a.contains_key(u) == b.contains_key(u) && (a.contains_key(u)
        ==> a[u] == b[u]) by {
        if u.key_spec() == t.key_spec() {
            lemma_key_injective(u, t);
        }
    }
    assert(a =~= b);
}

/// Sets the state of each of `tiles` in the table.
fn mark_all(table: &mut HashMap<u128, ProgressState>, tiles: &Vec<Tile>, state: ProgressState)
    ensures
        tile_states(final(table)@) == marked(tile_states(old(table)@), tiles@, state),
{
    let ghost before = tile_states(table@);
    let mut i: usize = 0;
    assert(tile_states(table@) =~= marked(before, tiles@.take(0), state));
    while i < tiles.len()
        invariant
            i <= tiles.len(),
            tile_states(table@) == marked(before, tiles@.take(i as int), state),
        decreases tiles.len() - i,
    {
        let t = tiles[i];
        proof {
            lemma_tile_states_insert(table@, t, state);
        }
        table.insert(t.key(), state);
        proof {
            let prev = tiles@.take(i as int);
            let next = tiles@.take(i + 1);
            assert(next =~= prev.push(t));
            assert forall|u: Tile| next.contains(u) <==> (prev.contains(u) || u == t) by {
                if next.contains(u) {
                    let k = choose|k: int| 0 <= k < next.len() && next[k] == u;
                    if k < i {
                        assert(prev[k] == u);
                    }
                }
                if prev.contains(u) {
                    let k = choose|k: int| 0 <= k < prev.len() && prev[k] == u;
                    assert(next[k] == u);
                }
                if u == t {
                    assert(next[i as int] == u);
                }
            }
            assert(tile_states(table@) =~= marked(before, next, state));
        }
        i = i + 1;
    }
    assert(tiles@.take(tiles@.len() as int) =~= tiles@);
}

/// Looks a tile's state up in the table.
fn lookup(table: &HashMap<u128, ProgressState>, tile: Tile) -> (r: Option<ProgressState>)
    ensures
        r == (if tile_states(table@).contains_key(tile) {
            Some(tile_states(table@)[tile])
        } else {
            None
        }),
{
    let k = tile.key();
    match table.get(&k) {
        Some(s) => Some(*s),
        None => None,
    }
}

/// Sets those of `tiles` that are queued to processing.
fn take_all(table: &mut HashMap<u128, ProgressState>, tiles: &Vec<Tile>)
    ensures
        tile_states(final(table)@) == taken(tile_states(old(table)@), tiles@),
{
    let ghost before = tile_states(table@);
    let mut i: usize = 0;
    assert(tile_states(table@) =~= taken(before, tiles@.take(0)));
    while i < tiles.len()
        invariant
            i <= tiles.len(),
            tile_states(table@) == taken(before, tiles@.take(i as int)),
        decreases tiles.len() - i,
    {
        let t = tiles[i];
        let ghost prev = tiles@.take(i as int);
        let ghost next = tiles@.take(i + 1);
        proof {
            assert(next =~= prev.push(t));
            assert forall|u: Tile| next.contains(u) <==> (prev.contains(u) || u == t) by {
                if next.contains(u) {
                    let k = choose|k: int| 0 <= k < next.len() && next[k] == u;
                    if k < i {
                        assert(prev[k] == u);
                    }
                }
                if prev.contains(u) {
                    let k = choose|k: int| 0 <= k < prev.len() && prev[k] == u;
                    assert(next[k] == u);
                }
                if u == t {
                    assert(next[i as int] == u);
                }
            }
        }
        match lookup(table, t) {
            Some(ProgressState::Queued) => {
                proof {
                    lemma_tile_states_insert(table@, t, ProgressState::Processing);
                }
                table.insert(t.key(), ProgressState::Processing);
            },
            _ => {},
        }
        assert(tile_states(table@) =~= taken(before, next));
        i = i + 1;
    }
    assert(tiles@.take(tiles@.len() as int) =~= tiles@);
}

/// `states` with `parent` queued if it was planned and is ready, else
/// unchanged.
pub open spec fn promotes(states: Map<Tile, ProgressState>, parent: Tile) -> bool {
    &&& states.contains_key(parent)
    &&& states[parent] == ProgressState::Planned
    &&& ready(states, parent)
}

/// The states after `parent` was looked at: queued if it was planned and
/// ready.
pub open spec fn promote(states: Map<Tile, ProgressState>, parent: Tile) -> Map<
    Tile,
    ProgressState,
> {
    if promotes(states, parent) {
        states.insert(parent, ProgressState::Queued)
    } else {
        states
    }
}

/// The states after each of `parents` was looked at in turn.
pub open spec fn promote_all(states: Map<Tile, ProgressState>, parents: Seq<Tile>) -> Map<
    Tile,
    ProgressState,
>
    decreases parents.len(),
{
    if parents.len() == 0 {
        states
    } else {
        promote_all(promote(states, parents[0]), parents.drop_first())
    }
}

/// Those of `parents` that were queued when each was looked at in turn.
pub open spec fn promoted(states: Map<Tile, ProgressState>, parents: Seq<Tile>) -> Seq<Tile>
    decreases parents.len(),
{
    if parents.len() == 0 {
        Seq::empty()
    } else {
        let rest = promoted(promote(states, parents[0]), parents.drop_first());
        if promotes(states, parents[0]) {
            seq![parents[0]] + rest
        } else {
            rest
        }
    }
}

/// One overview job for each of `tiles`, in their order.
pub open spec fn overview_jobs<B>(tiles: Seq<Tile>) -> Seq<Job<B>> {
    Seq::new(tiles.len(), |i: int| Job::Overview(tiles[i]))
}

/// The coordinate of the other parent, along one axis, whose window reaches
/// a tile at coordinate `v`: the one after the tile's own parent for an odd
/// `v`, the one before it for an even `v`.
pub open spec fn neighbour_coord(v: u32) -> int {
    if v % 2 == 1 {
        v / 2 + 1
    } else {
        v / 2 - 1
    }
}

/// The tiles whose window of sixteen holds `tile`, as far as they lie inside
/// their level: the parent, then its neighbour along x, along y, and along
/// both.
pub open spec fn candidate_parents(tile: Tile) -> Seq<Tile> {
    if tile.zoom == 0 {
        Seq::empty()
    } else {
        let zoom = (tile.zoom - 1) as u8;
        let px = tile.x / 2;
        let py = tile.y / 2;
        let nx = neighbour_coord(tile.x);
        let ny = neighbour_coord(tile.y);
        let x_ok = 0 <= nx < pow2(zoom as nat);
        let y_ok = 0 <= ny < pow2(zoom as nat);
        let c0 = seq![Tile { zoom, x: px, y: py }];
        let c1 = if x_ok {
            c0.push(Tile { zoom, x: nx as u32, y: py })
        } else {
            c0
        };
        let c2 = if y_ok {
            c1.push(Tile { zoom, x: px, y: ny as u32 })
        } else {
            c1
        };
        if x_ok && y_ok {
            c2.push(Tile { zoom, x: nx as u32, y: ny as u32 })
        } else {
            c2
        }
    }
}

/// The other parent's coordinate along one axis, if it lies inside a level
/// of `len` tiles a side.
fn neighbour_of(v: u32, len: u32) -> (r: Option<u32>)
    ensures
        r == (if 0 <= neighbour_coord(v) < len {
            Some(neighbour_coord(v) as u32)
        } else {
            None
        }),
{
    let half = v / 2;
    if v % 2 == 1 {
        if half + 1 < len {
            Some(half + 1)
        } else {
            None
        }
    } else if half >= 1 && half - 1 < len {
        Some(half - 1)
    } else {
        None
    }
}

/// The tiles whose window of sixteen holds `tile`.
fn candidate_parents_of(tile: Tile) -> (r: Vec<Tile>)
    requires
        tile.valid(),
    ensures
        r@ == candidate_parents(tile),
        forall|i: int|
            0 <= i < r@.len() ==> (#[trigger] r@[i]).valid() && r@[i].zoom + 1 == tile.zoom,
{
    let mut out: Vec<Tile> = Vec::new();
    if tile.zoom == 0 {
        assert(out@ =~= candidate_parents(tile));
        return out;
    }
    proof {
        lemma_pow2_unfold(tile.zoom as nat);
    }
    let zoom = tile.zoom - 1;
    let len = pow2_u32(zoom);
    let px = tile.x / 2;
    let py = tile.y / 2;
    let nx = neighbour_of(tile.x, len);
    let ny = neighbour_of(tile.y, len);
    out.push(Tile { zoom, x: px, y: py });
    if let Some(x) = nx {
        out.push(Tile { zoom, x, y: py });
    }
    if let Some(y) = ny {
        out.push(Tile { zoom, x: px, y });
    }
    if let Some(x) = nx {
        if let Some(y) = ny {
            out.push(Tile { zoom, x, y });
        }
    }
    assert(out@ =~= candidate_parents(tile));
    out
}

/// Whether all sixteen tiles that `parent` is built from are finished or
/// outside the pyramid.
fn is_ready(table: &HashMap<u128, ProgressState>, parent: Tile) -> (r: bool)
    requires
        parent.valid(),
        parent.zoom < MAX_ZOOM,
    ensures
        r == ready(tile_states(table@), parent),
{
    proof {
        parent.lemma_children_buffered_one();
    }
    let children = parent.children_buffered(1);
    let ghost states = tile_states(table@);
    let mut i: usize = 0;
    while i < children.len()
        invariant
            i <= children.len(),
            children@ == window(parent),
            states == tile_states(table@),
            forall|k: int| 0 <= k < i ==> settled(states, #[trigger] window(parent)[k]),
        decreases children.len() - i,
    {
        match lookup(table, children[i]) {
            Some(ProgressState::Finished) | None => {},
            Some(_) => {
                assert(!settled(states, window(parent)[i as int]));
                return false;
            },
        }
        i = i + 1;
    }
    true
}

/// How far along a state is: planned, queued, processing, finished.
pub open spec fn rank(state: ProgressState) -> nat {
    match state {
        ProgressState::Planned => 0,
        ProgressState::Queued => 1,
        ProgressState::Processing => 2,
        ProgressState::Finished => 3,
    }
}

/// From `before` to `after` the same tiles are tracked and no tile has gone
/// back.
pub open spec fn advances(
    before: Map<Tile, ProgressState>,
    after: Map<Tile, ProgressState>,
) -> bool {
    &&& before.dom() == after.dom()
    &&& forall|t: Tile| #[trigger]
        before.contains_key(t) ==> rank(before[t]) <= rank(after[t])
}

/// Looking at parents tracks no new tile and takes no tile back.
pub proof fn lemma_promote_all_advances(states: Map<Tile, ProgressState>, parents: Seq<Tile>)
    ensures
        advances(states, promote_all(states, parents)),
    decreases parents.len(),
{
    if parents.len() > 0 {
        let next = promote(states, parents[0]);
        assert(next.dom() =~= states.dom());
        lemma_promote_all_advances(next, parents.drop_first());
        let last = promote_all(states, parents);
        assert forall|t: Tile| #[trigger] states.contains_key(t) implies rank(states[t]) <= rank(
            last[t],
        ) by {
            assert(next.contains_key(t));
        }
    }
}

/// The states after `tile` was reported finished.
pub open spec fn done_states(states: Map<Tile, ProgressState>, tile: Tile) -> Map<
    Tile,
    ProgressState,
> {
    promote_all(states.insert(tile, ProgressState::Finished), candidate_parents(tile))
}

/// The overview jobs that reporting `tile` finished adds to the list.
pub open spec fn done_jobs<B>(states: Map<Tile, ProgressState>, tile: Tile) -> Seq<Job<B>> {
    overview_jobs(
        promoted(states.insert(tile, ProgressState::Finished), candidate_parents(tile)),
    )
}

/// The states after each of `tiles` that is being processed was reported
/// finished, one after the other.
pub open spec fn finish_states(states: Map<Tile, ProgressState>, tiles: Seq<Tile>) -> Map<
    Tile,
    ProgressState,
>
    decreases tiles.len(),
{
    if tiles.len() == 0 {
        states
    } else if states.contains_key(tiles[0]) && states[tiles[0]] == ProgressState::Processing {
        finish_states(done_states(states, tiles[0]), tiles.drop_first())
    } else {
        finish_states(states, tiles.drop_first())
    }
}

/// The overview jobs added while each of `tiles` that is being processed was
/// reported finished, one after the other.
pub open spec fn finish_jobs<B>(states: Map<Tile, ProgressState>, tiles: Seq<Tile>) -> Seq<
    Job<B>,
>
    decreases tiles.len(),
{
    if tiles.len() == 0 {
        Seq::empty()
    } else if states.contains_key(tiles[0]) && states[tiles[0]] == ProgressState::Processing {
        done_jobs::<B>(states, tiles[0]) + finish_jobs::<B>(
            done_states(states, tiles[0]),
            tiles.drop_first(),
        )
    } else {
        finish_jobs::<B>(states, tiles.drop_first())
    }
}

/// The count of tiles reported done after one more was reported; it stops
/// at the largest number it can hold.
pub open spec fn counted(count: usize) -> usize {
    if count < usize::MAX {
        (count + 1) as usize
    } else {
        count
    }
}

/// The count of tiles reported done after each of `tiles` that is being
/// processed was reported finished, one after the other.
pub open spec fn finish_count(
    states: Map<Tile, ProgressState>,
    tiles: Seq<Tile>,
    count: usize,
) -> usize
    decreases tiles.len(),
{
    if tiles.len() == 0 {
        count
    } else if states.contains_key(tiles[0]) && states[tiles[0]] == ProgressState::Processing {
        finish_count(done_states(states, tiles[0]), tiles.drop_first(), counted(count))
    } else {
        finish_count(states, tiles.drop_first(), count)
    }
}

/// The container holds every one of `count` tiles: there is an answer for
/// each, and each answer is yes.
pub open spec fn all_found(count: nat, found: Seq<bool>) -> bool {
    found.len() == count && forall|i: int| 0 <= i < found.len() ==> found[i]
}

/// Whether every answer is yes.
fn every(found: &Vec<bool>) -> (r: bool)
    ensures
        r == forall|i: int| 0 <= i < found@.len() ==> found@[i],
{
    let mut i: usize = 0;
    while i < found.len()
        invariant
            i <= found.len(),
            forall|k: int| 0 <= k < i ==> found@[k],
        decreases found.len() - i,
    {
        if !found[i] {
            return false;
        }
        i = i + 1;
    }
    true
}

/// The job is an overview job for a tile whose sixteen tiles are all
/// finished or outside the pyramid.
pub open spec fn listed_ready<B>(states: Map<Tile, ProgressState>, job: Job<B>) -> bool {
    job is Overview && ready(states, job.tile_spec())
}

/// Parent after children, for every report: whatever the states and
/// whatever the tile, each overview job that reporting the tile finished
/// adds to the list is for a tile whose sixteen tiles are all finished or
/// outside the pyramid.
pub proof fn lemma_done_lists_ready<B>(states: Map<Tile, ProgressState>, tile: Tile)
    ensures
        forall|i: int|
            0 <= i < done_jobs::<B>(states, tile).len() ==> listed_ready(
                done_states(states, tile),
                #[trigger] done_jobs::<B>(states, tile)[i],
            ),
{
    let finished = states.insert(tile, ProgressState::Finished);
    let parents = candidate_parents(tile);
    assert forall|i: int| 0 <= i < done_jobs::<B>(states, tile).len() implies listed_ready(
        done_states(states, tile),
        #[trigger] done_jobs::<B>(states, tile)[i],
    ) by {
        lemma_promoted_are_ready(finished, parents, i);
    }
}

/// A run of the tracker: states that follow one another, each step tracking
/// the same tiles and taking no tile back. Every operation of the tracker is
/// such a step.
pub open spec fn is_run(history: Seq<Map<Tile, ProgressState>>) -> bool {
    forall|i: int|
        0 <= i < history.len() - 1 ==> advances(#[trigger] history[i], history[i + 1])
}

/// Over a run no tile goes back, however many steps lie between.
pub proof fn lemma_run_advances(history: Seq<Map<Tile, ProgressState>>, i: int, j: int)
    requires
        is_run(history),
        0 <= i <= j < history.len(),
    ensures
        advances(history[i], history[j]),
    decreases j - i,
{
    if i < j {
        lemma_run_advances(history, i, j - 1);
        assert(advances(history[j - 1], history[j]));
        let a = history[i];
        let b = history[j - 1];
        let c = history[j];
        assert forall|t: Tile| #[trigger] a.contains_key(t) implies rank(a[t]) <= rank(c[t]) by {
            assert(b.contains_key(t));
        }
    }
}

/// No double work: over a whole run a tile is being processed during one
/// stretch of steps only. Once it has left that state it is finished and
/// stays so, so that its payload is made and handed to the writer once.
pub proof fn lemma_processed_once(
    history: Seq<Map<Tile, ProgressState>>,
    tile: Tile,
    i: int,
    j: int,
    k: int,
)
    requires
        is_run(history),
        0 <= i <= j <= k < history.len(),
        history[i].contains_key(tile),
        history[i][tile] == ProgressState::Processing,
        history[j][tile] != ProgressState::Processing,
    ensures
        history[k].contains_key(tile),
        history[k][tile] == ProgressState::Finished,
{
    lemma_run_advances(history, i, j);
    lemma_run_advances(history, j, k);
    assert(history[j].contains_key(tile));
    assert(rank(history[i][tile]) <= rank(history[j][tile]));
    assert(rank(history[j][tile]) <= rank(history[k][tile]));
}

/// The tracker: the jobs that are ready, last in first out, and the state of
/// every tile of the pyramid.
pub struct Progress<B> {
    supertile_zoom_offset: u8,
    unit_zoom: u8,
    jobs: Vec<Job<B>>,
    states: HashMap<u128, ProgressState>,
    done_count: usize,
}

impl<B> Progress<B> {
    /// Zoom levels between a unit tile and the output tiles it is cut into.
    pub closed spec fn offset(&self) -> u8 {
        self.supertile_zoom_offset
    }

    /// Zoom level of the unit tiles.
    pub closed spec fn unit_zoom(&self) -> u8 {
        self.unit_zoom
    }

    /// The jobs that are ready to run; the last one is taken first.
    pub closed spec fn jobs(&self) -> Seq<Job<B>> {
        self.jobs@
    }

    /// The state of every tile of the pyramid.
    pub closed spec fn states(&self) -> Map<Tile, ProgressState> {
        tile_states(self.states@)
    }

    /// How many tiles were reported done.
    pub closed spec fn done_count(&self) -> usize {
        self.done_count
    }

    /// The tracker is consistent: every tracked tile is a tile of the
    /// pyramid; the tiles covered by the jobs in the list are queued or
    /// already finished and covered by one job only, and every queued tile
    /// is covered by a job in the list; an overview tile whose job is listed
    /// or taken has its sixteen tiles finished or outside the pyramid, and a
    /// planned one still waits for one of them.
    pub closed spec fn wf(&self) -> bool {
        &&& inv(
            self.jobs@,
            tile_states(self.states@),
            self.unit_zoom as int,
            self.supertile_zoom_offset as nat,
        )
        &&& planned_wait(tile_states(self.states@))
    }

    /// The state of `tile`, or `None` where it is outside the pyramid.
    pub fn state(&self, tile: Tile) -> (r: Option<ProgressState>)
        ensures
            r == (if self.states().contains_key(tile) {
                Some(self.states()[tile])
            } else {
                None
            }),
    {
        lookup(&self.states, tile)
    }

    /// Number of tiles that are tracked.
    pub closed spec fn tracked_count(&self) -> nat {
        self.states@.len()
    }

    /// How far the run is, in hundredths of a percent: the tiles reported
    /// done over the tiles tracked. Zero where no tile is tracked.
    pub fn done_hundredths(&self) -> (r: u128)
        ensures
            r == (if self.tracked_count() == 0 {
                0
            } else {
                self.done_count() * 10_000 / (self.tracked_count() as int)
            }),
    {
        let total = self.states.len();
        if total == 0 {
            0
        } else {
            self.done_count as u128 * 10_000 / total as u128
        }
    }

    /// Number of jobs that are ready to run.
    pub fn queue_len(&self) -> (r: usize)
        ensures
            r == self.jobs().len(),
    {
        self.jobs.len()
    }

    /// Takes the job that was listed last and sets every tile it covers to
    /// `Processing`; a tile that was reported finished while its job was
    /// still listed stays finished. `None` when no job is ready.
    pub fn next(&mut self) -> (r: Option<Job<B>>)
        requires
            old(self).wf(),
        ensures
            final(self).wf(),
            final(self).offset() == old(self).offset(),
            final(self).unit_zoom() == old(self).unit_zoom(),
            final(self).done_count() == old(self).done_count(),
            old(self).jobs().len() == 0 ==> r is None && final(self).jobs() == old(self).jobs()
                && final(self).states() == old(self).states(),
            old(self).jobs().len() > 0 ==> {
                &&& r == Some(old(self).jobs().last())
                &&& final(self).jobs() == old(self).jobs().drop_last()
                &&& final(self).states() == taken(
                    old(self).states(),
                    old(self).jobs().last().covered_spec(old(self).offset() as nat),
                )
            },
            advances(old(self).states(), final(self).states()),
            forall|t: Tile|
                old(self).states().contains_key(t) && #[trigger] final(self).states()[t]
                    != old(self).states()[t] ==> old(self).states()[t] == ProgressState::Queued
                    && final(self).states()[t] == ProgressState::Processing,
    {
        proof {
            if self.jobs@.len() > 0 {
                let job = self.jobs@.last();
                let levels = self.supertile_zoom_offset as nat;
                assert(job_ok(job, tile_states(self.states@), self.unit_zoom as int, levels));
                job.lemma_covered(levels);
                assert forall|t: Tile| job.covered_spec(levels).contains(t) implies tile_states(
                    self.states@,
                ).contains_key(t) by {
                    assert(job.covers(levels, t));
                }
                lemma_take(
                    self.jobs@,
                    tile_states(self.states@),
                    self.unit_zoom as int,
                    self.supertile_zoom_offset as nat,
                );
                assert(job_ok(
                    self.jobs@[self.jobs@.len() - 1],
                    tile_states(self.states@),
                    self.unit_zoom as int,
                    self.supertile_zoom_offset as nat,
                ));
            }
        }
        match self.jobs.pop() {
            None => None,
            Some(job) => {
                let tiles = job.covered_tiles(self.supertile_zoom_offset);
                take_all(&mut self.states, &tiles);
                Some(job)
            },
        }
    }

    /// Reports `tile` finished, whatever state it was in. Each tile whose
    /// window of sixteen holds `tile` is then looked at, the parent first:
    /// one that is planned and whose sixteen tiles are all finished or
    /// outside the pyramid is queued, and its overview job is added to the
    /// list. Every overview job that is added is for a tile whose sixteen are
    /// all finished or outside the pyramid.
    #[verifier::rlimit(40)]
    pub fn done(&mut self, tile: Tile)
        requires
            old(self).wf(),
            old(self).states().contains_key(tile),
        ensures
            final(self).wf(),
            final(self).offset() == old(self).offset(),
            final(self).unit_zoom() == old(self).unit_zoom(),
            final(self).states() == done_states(old(self).states(), tile),
            final(self).jobs() == old(self).jobs() + done_jobs::<B>(old(self).states(), tile),
            forall|i: int|
                old(self).jobs().len() <= i < final(self).jobs().len() ==> listed_ready(
                    final(self).states(),
                    #[trigger] final(self).jobs()[i],
                ),
            advances(old(self).states(), final(self).states()),
            final(self).states()[tile] == ProgressState::Finished,
            final(self).done_count() == counted(old(self).done_count()),
    {
        let ghost unit_zoom = self.unit_zoom as int;
        let ghost levels = self.supertile_zoom_offset as nat;
        let ghost jobs0 = self.jobs@;
        let ghost finished = tile_states(self.states@).insert(tile, ProgressState::Finished);
        proof {
            lemma_finish(self.jobs@, tile_states(self.states@), unit_zoom, levels, tile);
            lemma_tile_states_insert(self.states@, tile, ProgressState::Finished);
            assert(tile.valid());
        }
        self.states.insert(tile.key(), ProgressState::Finished);
        if self.done_count < usize::MAX {
            self.done_count = self.done_count + 1;
        }
        let ghost counted = self.done_count;
        let parents = candidate_parents_of(tile);
        let ghost mut pushed: Seq<Tile> = Seq::empty();
        let mut i: usize = 0;
        assert(parents@.skip(0) =~= parents@);
        assert(jobs0 + overview_jobs::<B>(pushed) =~= jobs0);
        while i < parents.len()
            invariant
                i <= parents.len(),
                parents@ == candidate_parents(tile),
                forall|k: int|
                    0 <= k < parents@.len() ==> (#[trigger] parents@[k]).valid() && parents@[k].zoom
                        + 1 == tile.zoom,
                tile.valid(),
                unit_zoom == self.unit_zoom,
                levels == self.supertile_zoom_offset,
                inv(self.jobs@, tile_states(self.states@), unit_zoom, levels),
                promote_all(finished, parents@) == promote_all(
                    tile_states(self.states@),
                    parents@.skip(i as int),
                ),
                promoted(finished, parents@) == pushed + promoted(
                    tile_states(self.states@),
                    parents@.skip(i as int),
                ),
                self.jobs@ == jobs0 + overview_jobs::<B>(pushed),
                self.done_count == counted,
            decreases parents.len() - i,
        {
            let parent = parents[i];
            let ghost states = tile_states(self.states@);
            let ghost rest = parents@.skip(i as int);
            proof {
                assert(rest[0] == parent);
                assert(rest.drop_first() =~= parents@.skip(i + 1));
            }
            let planned = match lookup(&self.states, parent) {
                Some(ProgressState::Planned) => true,
                _ => false,
            };
            if planned && is_ready(&self.states, parent) {
                proof {
                    assert(promotes(states, parent));
                    lemma_promote(self.jobs@, states, unit_zoom, levels, parent);
                    lemma_tile_states_insert(self.states@, parent, ProgressState::Queued);
                    assert(pushed + (seq![parent] + promoted(
                        promote(states, parent),
                        rest.drop_first(),
                    )) =~= pushed.push(parent) + promoted(
                        promote(states, parent),
                        rest.drop_first(),
                    ));
                    assert((jobs0 + overview_jobs::<B>(pushed)).push(Job::Overview(parent))
                        =~= jobs0 + overview_jobs::<B>(pushed.push(parent)));
                    pushed = pushed.push(parent);
                }
                self.states.insert(parent.key(), ProgressState::Queued);
                self.jobs.push(Job::Overview(parent));
            } else {
                assert(!promotes(states, parent));
            }
            i = i + 1;
        }
        proof {
            assert(parents@.skip(parents@.len() as int) =~= Seq::<Tile>::empty());
            assert(pushed + Seq::<Tile>::empty() =~= pushed);
            lemma_promote_all_advances(finished, candidate_parents(tile));
            assert(finished.dom() =~= old(self).states().dom());
            assert(finished.contains_key(tile));
            lemma_done_planned_wait(old(self).states(), unit_zoom + levels, tile);
        }
        assert forall|i: int| jobs0.len() <= i < self.jobs@.len() implies listed_ready(
            self.states(),
            #[trigger] self.jobs@[i],
        ) by {
            let added = done_jobs::<B>(old(self).states(), tile);
            lemma_done_lists_ready::<B>(old(self).states(), tile);
            assert(self.jobs@[i] == added[i - jobs0.len()]);
        }
    }

    /// Reports each of `tiles` that is being processed finished, one after
    /// the other: what a worker does with the tiles of a job that has
    /// nothing to store, because the container holds them already or there
    /// is no data in their region. Every one of them is finished afterwards.
    pub fn finish_all(&mut self, tiles: &Vec<Tile>)
        requires
            old(self).wf(),
        ensures
            final(self).wf(),
            final(self).offset() == old(self).offset(),
            final(self).unit_zoom() == old(self).unit_zoom(),
            final(self).states() == finish_states(old(self).states(), tiles@),
            final(self).jobs() == old(self).jobs() + finish_jobs::<B>(
                old(self).states(),
                tiles@,
            ),
            final(self).done_count() == finish_count(
                old(self).states(),
                tiles@,
                old(self).done_count(),
            ),
            advances(old(self).states(), final(self).states()),
            forall|i: int|
                0 <= i < tiles@.len() && old(self).states().contains_key(#[trigger] tiles@[i])
                    && old(self).states()[tiles@[i]] == ProgressState::Processing
                    ==> final(self).states()[tiles@[i]] == ProgressState::Finished,
    {
        let ghost states0 = self.states();
        let ghost jobs0 = self.jobs();
        let ghost count0 = self.done_count();
        let ghost mut added: Seq<Job<B>> = Seq::empty();
        let mut i: usize = 0;
        proof {
            assert(tiles@.skip(0) =~= tiles@);
            assert(jobs0 + added =~= jobs0);
        }
        while i < tiles.len()
            invariant
                i <= tiles.len(),
                self.wf(),
                self.offset() == old(self).offset(),
                self.unit_zoom() == old(self).unit_zoom(),
                states0 == old(self).states(),
                jobs0 == old(self).jobs(),
                advances(states0, self.states()),
                finish_states(states0, tiles@) == finish_states(
                    self.states(),
                    tiles@.skip(i as int),
                ),
                finish_jobs::<B>(states0, tiles@) == added + finish_jobs::<B>(
                    self.states(),
                    tiles@.skip(i as int),
                ),
                self.jobs() == jobs0 + added,
                count0 == old(self).done_count(),
                finish_count(states0, tiles@, count0) == finish_count(
                    self.states(),
                    tiles@.skip(i as int),
                    self.done_count(),
                ),
                forall|k: int|
                    0 <= k < i && states0.contains_key(#[trigger] tiles@[k]) && states0[tiles@[k]]
                        == ProgressState::Processing ==> self.states()[tiles@[k]]
                        == ProgressState::Finished,
            decreases tiles.len() - i,
        {
            let tile = tiles[i];
            let ghost before = self.states();
            let ghost rest = tiles@.skip(i as int);
            proof {
                assert(rest[0] == tile);
                assert(rest.drop_first() =~= tiles@.skip(i + 1));
            }
            match self.state(tile) {
                Some(ProgressState::Processing) => {
                    self.done(tile);
                    proof {
                        assert(added + (done_jobs::<B>(before, tile) + finish_jobs::<B>(
                            done_states(before, tile),
                            rest.drop_first(),
                        )) =~= (added + done_jobs::<B>(before, tile)) + finish_jobs::<B>(
                            done_states(before, tile),
                            rest.drop_first(),
                        ));
                        assert(jobs0 + added + done_jobs::<B>(before, tile) =~= jobs0 + (added
                            + done_jobs::<B>(before, tile)));
                        added = added + done_jobs::<B>(before, tile);
                    }
                },
                _ => {},
            }
            proof {
                let after = self.states();
                assert forall|t: Tile| #[trigger] states0.contains_key(t) implies rank(
                    states0[t],
                ) <= rank(after[t]) by {
                    assert(before.contains_key(t));
                }
                assert forall|k: int|
                    0 <= k < i + 1 && states0.contains_key(#[trigger] tiles@[k])
                        && states0[tiles@[k]] == ProgressState::Processing implies after[tiles@[k]]
                    == ProgressState::Finished by {
                    let t = tiles@[k];
                    assert(before.contains_key(t));
                    if k < i {
                        assert(before[t] == ProgressState::Finished);
                        assert(rank(before[t]) <= rank(after[t]));
                    } else {
                        assert(rank(states0[t]) <= rank(before[t]));
                    }
                }
            }
            i = i + 1;
        }
        proof {
            assert(tiles@.skip(tiles@.len() as int) =~= Seq::<Tile>::empty());
            assert(added + Seq::<Job<B>>::empty() =~= added);
        }
    }

    /// On resume, skips a job whose tiles the container holds already:
    /// `found` says of each of the `covered` tiles whether it is there. Where
    /// all are, each is reported finished as by `finish_all` and the answer
    /// is `true`; else nothing changes and the job is to be worked on.
    pub fn resume_skip(&mut self, covered: &Vec<Tile>, found: &Vec<bool>) -> (skipped: bool)
        requires
            old(self).wf(),
        ensures
            final(self).wf(),
            final(self).offset() == old(self).offset(),
            final(self).unit_zoom() == old(self).unit_zoom(),
            skipped == all_found(covered@.len(), found@),
            skipped ==> final(self).states() == finish_states(old(self).states(), covered@)
                && final(self).jobs() == old(self).jobs() + finish_jobs::<B>(
                old(self).states(),
                covered@,
            ) && final(self).done_count() == finish_count(
                old(self).states(),
                covered@,
                old(self).done_count(),
            ),
            !skipped ==> final(self).states() == old(self).states() && final(self).jobs()
                == old(self).jobs() && final(self).done_count() == old(self).done_count(),
            advances(old(self).states(), final(self).states()),
    {
        if found.len() != covered.len() || !every(found) {
            return false;
        }
        self.finish_all(covered);
        true
    }

    /// Where a unit tile has no points, nothing is made or stored for it:
    /// each of the `covered` tiles that is being processed is reported
    /// finished as by `finish_all`, and the answer is `true`. With points
    /// nothing changes and the job is to be worked on.
    pub fn skip_empty(&mut self, covered: &Vec<Tile>, point_count: usize) -> (skipped: bool)
        requires
            old(self).wf(),
        ensures
            final(self).wf(),
            final(self).offset() == old(self).offset(),
            final(self).unit_zoom() == old(self).unit_zoom(),
            skipped == (point_count == 0),
            skipped ==> final(self).states() == finish_states(old(self).states(), covered@)
                && final(self).jobs() == old(self).jobs() + finish_jobs::<B>(
                old(self).states(),
                covered@,
            ) && final(self).done_count() == finish_count(
                old(self).states(),
                covered@,
                old(self).done_count(),
            ),
            !skipped ==> final(self).states() == old(self).states() && final(self).jobs()
                == old(self).jobs() && final(self).done_count() == old(self).done_count(),
            advances(old(self).states(), final(self).states()),
            skipped ==> forall|i: int|
                0 <= i < covered@.len() && old(self).states().contains_key(
                    #[trigger] covered@[i],
                ) && old(self).states()[covered@[i]] == ProgressState::Processing
                    ==> final(self).states()[covered@[i]] == ProgressState::Finished,
    {
        if point_count != 0 {
            return false;
        }
        self.finish_all(covered);
        true
    }

    /// Parent after children: an overview tile whose job is listed or taken
    /// has each of the sixteen tiles it is built from finished or outside
    /// the pyramid; and as no tile ever goes back from finished, they stay
    /// so while the overview is built.
    pub proof fn lemma_parent_after_children(&self, tile: Tile)
        requires
            self.wf(),
            self.states().contains_key(tile),
            tile.zoom < self.unit_zoom() + self.offset(),
            self.states()[tile] == ProgressState::Queued || self.states()[tile]
                == ProgressState::Processing,
        ensures
            ready(self.states(), tile),
    {
    }

    /// A planned tile still waits: one of the sixteen tiles it is built from
    /// is tracked and not finished. Its job is listed when the last of them
    /// is reported finished, not later.
    pub proof fn lemma_planned_while_waiting(&self, tile: Tile)
        requires
            self.wf(),
            self.states().contains_key(tile),
            self.states()[tile] == ProgressState::Planned,
        ensures
            !ready(self.states(), tile),
    {
    }

    /// A run comes to its end: when no job is left in the list and no tile
    /// is being processed, every tile of the pyramid is finished. No tile is
    /// left planned with nothing to wait for, and none is left queued
    /// without a job.
    pub proof fn lemma_run_completes(&self, tile: Tile)
        requires
            self.wf(),
            self.jobs().len() == 0,
            forall|t: Tile| #[trigger]
                self.states().contains_key(t) ==> self.states()[t] != ProgressState::Processing,
            self.states().contains_key(tile),
        ensures
            self.states()[tile] == ProgressState::Finished,
    {
        lemma_all_finished(
            self.jobs@,
            self.states(),
            self.unit_zoom as int,
            self.supertile_zoom_offset as nat,
            tile,
        );
    }

    /// Every tracked tile is a tile of the pyramid, not finer than the
    /// output tiles; the output tiles themselves are never planned.
    pub proof fn lemma_tracked_tiles(&self, tile: Tile)
        requires
            self.wf(),
            self.states().contains_key(tile),
        ensures
            tile.valid(),
            tile.zoom <= self.unit_zoom() + self.offset() <= MAX_ZOOM,
            tile.zoom == self.unit_zoom() + self.offset() ==> self.states()[tile]
                != ProgressState::Planned,
    {
        assert(tile_ok(self.states(), self.unit_zoom as int + self.supertile_zoom_offset as nat, tile));
    }

    /// Every tile that a listed job covers is queued, unless it was reported
    /// finished while its job was listed, and no tile is covered by two
    /// listed jobs.
    pub proof fn lemma_jobs_cover_once(&self, i: int, j: int, tile: Tile)
        requires
            self.wf(),
            0 <= i < self.jobs().len(),
            0 <= j < self.jobs().len(),
            self.jobs()[i].covers(self.offset() as nat, tile),
        ensures
            self.states().contains_key(tile),
            self.states()[tile] == ProgressState::Queued || self.states()[tile]
                == ProgressState::Finished,
            i != j ==> !self.jobs()[j].covers(self.offset() as nat, tile),
    {
        let levels = self.supertile_zoom_offset as nat;
        assert(job_ok(self.jobs@[i], self.states(), self.unit_zoom as int, levels));
        if i < j {
            assert(!self.jobs@[j].covers(levels, tile));
        } else if j < i {
            if self.jobs@[j].covers(levels, tile) {
                assert(!self.jobs@[i].covers(levels, tile));
            }
        }
    }
}

/// `t` belongs to the pyramid that `seed` spans when unit tiles are cut
/// `levels` zoom levels down: it contains `seed`, or it lies inside `seed`
/// at most `levels` below it.
pub open spec fn related(seed: Tile, levels: nat, t: Tile) -> bool {
    if t.zoom <= seed.zoom {
        seed.ancestor_spec((seed.zoom - t.zoom) as nat) == t
    } else {
        t.zoom <= seed.zoom + levels && t.ancestor_spec((t.zoom - seed.zoom) as nat) == seed
    }
}

/// `t` is a tile of the pyramid over the unit tiles of `jobs`.
pub open spec fn in_pyramid<B>(jobs: Seq<Job<B>>, levels: nat, t: Tile) -> bool {
    t.valid() && exists|i: int|
        0 <= i < jobs.len() && related((#[trigger] jobs[i]).tile_spec(), levels, t)
}

/// The states a tracker starts with: the output tiles under each unit tile
/// are queued, every tile above them up to zoom 0 is planned.
pub open spec fn initial_states<B>(jobs: Seq<Job<B>>, levels: nat) -> Map<Tile, ProgressState> {
    Map::new(
        |t: Tile| in_pyramid(jobs, levels, t),
        |t: Tile|
            if t.zoom == jobs[0].tile_spec().zoom + levels {
                ProgressState::Queued
            } else {
                ProgressState::Planned
            },
    )
}

/// What a tracker can be started with: rasterize jobs for distinct unit
/// tiles of the pyramid, all of one zoom, whose output tiles are not finer
/// than the finest zoom supported.
pub open spec fn unit_jobs<B>(jobs: Seq<Job<B>>, levels: nat) -> bool {
    &&& forall|i: int|
        0 <= i < jobs.len() ==> {
            &&& (#[trigger] jobs[i]) is Rasterize
            &&& jobs[i].tile_spec().valid()
            &&& jobs[i].tile_spec().zoom + levels <= MAX_ZOOM
        }
    &&& forall|i: int, j: int|
        0 <= i < j < jobs.len() ==> {
            &&& (#[trigger] jobs[i]).tile_spec().zoom == (#[trigger] jobs[j]).tile_spec().zoom
            &&& jobs[i].tile_spec() != jobs[j].tile_spec()
        }
}

/// `after` holds the jobs of `before`, each once: `from[i]` is the place in
/// `before` of the job at place `i` of `after`.
pub open spec fn reordered_from<B>(before: Seq<Job<B>>, after: Seq<Job<B>>, from: Seq<int>) -> bool {
    &&& from.len() == before.len()
    &&& after.len() == before.len()
    &&& forall|i: int| 0 <= i < from.len() ==> 0 <= #[trigger] from[i] < before.len()
    &&& forall|i: int, j: int|
        0 <= i < j < from.len() ==> #[trigger] from[i] != #[trigger] from[j]
    &&& forall|i: int| 0 <= i < from.len() ==> #[trigger] after[i] == before[from[i]]
}

/// `after` holds the jobs of `before` in the order of their tiles' Morton
/// codes, jobs of equal code in the order they had.
pub open spec fn sorted_from<B>(before: Seq<Job<B>>, after: Seq<Job<B>>, from: Seq<int>) -> bool {
    &&& reordered_from(before, after, from)
    &&& forall|i: int, j: int|
        0 <= i < j < after.len() ==> {
            let a = (#[trigger] after[i]).tile_spec().morton_spec();
            let b = (#[trigger] after[j]).tile_spec().morton_spec();
            a < b || (a == b && from[i] < from[j])
        }
}

/// `after` holds the jobs of `before`, each once, ordered by the Morton code
/// of their tiles, jobs of equal code in the order they had.
pub open spec fn sorted_by_morton<B>(before: Seq<Job<B>>, after: Seq<Job<B>>) -> bool {
    exists|from: Seq<int>| sorted_from(before, after, from)
}

/// The sort key of a job: the Morton code of its tile.
fn morton_key<B>(job: &Job<B>) -> (key: u64)
    ensures
        key == job.tile_spec().morton_spec(),
{
    job.tile().morton_code()
}

/// `slice::sort_by_cached_key` with the Morton code as the key: a stable
/// sort, so the jobs come out each once, by ascending key, and those of
/// equal key in the order they went in.
#[verifier::external_body]
fn sort_by_morton<B>(jobs: &mut Vec<Job<B>>)
    ensures
        sorted_by_morton(old(jobs)@, final(jobs)@),
{
    jobs.sort_by_cached_key(|job| morton_key(job));
}

impl<B> Progress<B> {
    /// Starts a tracker over the unit jobs: the output tiles under each unit
    /// tile are queued, every tile above them up to zoom 0 is planned, and
    /// the jobs are listed by the Morton code of their tiles, so that tiles
    /// near each other are worked on one after the other.
    pub fn new(jobs: Vec<Job<B>>, supertile_zoom_offset: u8) -> (r: Self)
        requires
            unit_jobs(jobs@, supertile_zoom_offset as nat),
        ensures
            r.wf(),
            r.offset() == supertile_zoom_offset,
            jobs@.len() > 0 ==> r.unit_zoom() == jobs@[0].tile_spec().zoom,
            r.states() == initial_states(jobs@, supertile_zoom_offset as nat),
            sorted_by_morton(jobs@, r.jobs()),
            r.done_count() == 0,
    {
        let ghost seeds = jobs@;
        let ghost levels = supertile_zoom_offset as nat;
        let mut jobs = jobs;
        sort_by_morton(&mut jobs);
        proof {
            let from = choose|from: Seq<int>| sorted_from(seeds, jobs@, from);
            lemma_unit_jobs_reordered(seeds, jobs@, from, levels);
            if seeds.len() > 0 {
                assert(jobs@[0] == seeds[from[0]]);
                if from[0] > 0 {
                    assert(seeds[0].tile_spec().zoom == seeds[from[0]].tile_spec().zoom);
                }
            }
        }
        Self::from_ordered(jobs, supertile_zoom_offset)
    }

    /// Starts a tracker as `new` does, but lists the jobs in the order they
    /// are given; the last one is taken first.
    pub fn from_ordered(jobs: Vec<Job<B>>, supertile_zoom_offset: u8) -> (r: Self)
        requires
            unit_jobs(jobs@, supertile_zoom_offset as nat),
        ensures
            r.wf(),
            r.offset() == supertile_zoom_offset,
            jobs@.len() > 0 ==> r.unit_zoom() == jobs@[0].tile_spec().zoom,
            r.states() == initial_states(jobs@, supertile_zoom_offset as nat),
            r.jobs() == jobs@,
            r.done_count() == 0,
    {
        let ghost levels = supertile_zoom_offset as nat;
        let ghost seeds = jobs@;
        let unit_zoom: u8 = if jobs.len() > 0 {
            jobs[0].tile().zoom
        } else {
            0
        };
        let mut states: HashMap<u128, ProgressState> = HashMap::new();
        let mut i: usize = 0;
        assert(tile_states(states@) =~= building(seeds, levels, 0, 0, 0));
        while i < jobs.len()
            invariant
                i <= jobs.len(),
                seeds == jobs@,
                levels == supertile_zoom_offset as nat,
                unit_jobs(seeds, levels),
                tile_states(states@) == building(seeds, levels, i as int, 0, 0),
            decreases jobs.len() - i,
        {
            let seed = jobs[i].tile();
            proof {
                if i > 0 {
                    assert(seeds[0].tile_spec().zoom == seeds[i as int].tile_spec().zoom);
                }
                assert(building(seeds, levels, i as int, 0, 0) =~= building(
                    seeds,
                    levels,
                    i as int,
                    seed.zoom as int,
                    seed.zoom as int,
                ));
            }
            let mut k: u8 = 0;
            while k <= supertile_zoom_offset
                invariant
                    i < jobs.len(),
                    seeds == jobs@,
                    seed == seeds[i as int].tile_spec(),
                    seed.valid(),
                    seed.zoom == seeds[0].tile_spec().zoom,
                    levels == supertile_zoom_offset as nat,
                    seed.zoom + levels <= MAX_ZOOM,
                    k <= supertile_zoom_offset + 1,
                    tile_states(states@) == building(
                        seeds,
                        levels,
                        i as int,
                        seed.zoom as int,
                        seed.zoom + k,
                    ),
                decreases supertile_zoom_offset + 1 - k,
            {
                let tiles = seed.descendants(k);
                let state = if k == supertile_zoom_offset {
                    ProgressState::Queued
                } else {
                    ProgressState::Planned
                };
                proof {
                    lemma_building_descend(seeds, levels, i as int, k as nat);
                }
                mark_all(&mut states, &tiles, state);
                k = k + 1;
            }
            let ghost hi = seed.zoom + levels + 1;
            let mut up: u8 = 0;
            while up < seed.zoom
                invariant
                    i < jobs.len(),
                    seeds == jobs@,
                    seed == seeds[i as int].tile_spec(),
                    seed.valid(),
                    seed.zoom == seeds[0].tile_spec().zoom,
                    hi == seed.zoom + levels + 1,
                    up <= seed.zoom,
                    tile_states(states@) == building(seeds, levels, i as int, seed.zoom - up, hi),
                decreases seed.zoom - up,
            {
                proof {
                    lemma_building_ascend(seeds, levels, i as int, up as nat, hi);
                }
                match seed.ancestor(up + 1) {
                    Some(p) => {
                        proof {
                            lemma_tile_states_insert(states@, p, ProgressState::Planned);
                        }
                        states.insert(p.key(), ProgressState::Planned);
                    },
                    None => {},
                }
                up = up + 1;
            }
            proof {
                lemma_building_step(seeds, levels, i as int);
            }
            i = i + 1;
        }
        proof {
            assert(seeds.take(seeds.len() as int) =~= seeds);
            assert(building(seeds, levels, seeds.len() as int, 0, 0) =~= initial_states(
                seeds,
                levels,
            ));
        }
        proof {
            lemma_initial_inv(seeds, levels);
            lemma_initial_planned_wait(seeds, levels);
        }
        Progress { supertile_zoom_offset, unit_zoom, jobs, states, done_count: 0 }
    }
}

/// The window of the parent at coordinate `p` reaches the coordinate `v` of
/// the next level: from one tile before its first child to one after its
/// second.
pub open spec fn reaches(p: int, v: int) -> bool {
    2 * p - 1 <= v <= 2 * p + 2
}

/// A sequence with one more element holds what it held and that element.
proof fn lemma_push_contains(s: Seq<Tile>, a: Tile, b: Tile)
    ensures
        s.push(a).contains(b) <==> s.contains(b) || a == b,
{
    if s.contains(b) {
        let i = choose|i: int| 0 <= i < s.len() && s[i] == b;
        assert(s.push(a)[i] == b);
    }
    if a == b {
        assert(s.push(a)[s.len() as int] == b);
    }
    if s.push(a).contains(b) {
        let i = choose|i: int| 0 <= i < s.push(a).len() && s.push(a)[i] == b;
        if i < s.len() {
            assert(s[i] == b);
        }
    }
}

/// The tiles whose window of sixteen holds a tile are its parent and the
/// parent's neighbours on the sides the tile lies at: of the tiles of the
/// pyramid one level up, `candidate_parents` lists exactly those whose
/// window holds the tile.
pub proof fn lemma_candidates_are_window_parents(tile: Tile, parent: Tile)
    requires
        tile.valid(),
        parent.valid(),
        parent.zoom + 1 == tile.zoom,
    ensures
        window(parent).contains(tile) <==> candidate_parents(tile).contains(parent),
        window(parent).contains(tile) <==> reaches(parent.x as int, tile.x as int) && reaches(
            parent.y as int,
            tile.y as int,
        ),
{
    let z = tile.zoom as nat;
    let n = pow2(z) as int;
    let half = pow2((z - 1) as nat) as int;
    lemma_pow2_unfold(z);
    vstd::arithmetic::power2::lemma2_to64();
    vstd::arithmetic::power2::lemma2_to64_rest();
    if z < 30 {
        vstd::arithmetic::power2::lemma_pow2_strictly_increases(z, 30);
    }
    assert(n == 2 * half);
    assert(n <= 0x4000_0000);
    let w = window(parent);
    parent.lemma_children_buffered_one();
    let px = parent.x as int;
    let py = parent.y as int;
    let both = reaches(px, tile.x as int) && reaches(py, tile.y as int);
    // The window holds the tile exactly where it reaches it along both axes.
    assert forall|i: int| 0 <= i < 16 implies (#[trigger] w[i] == tile) == (tile.x == 2 * px + i
        % 4 - 1 && tile.y == 2 * py + i / 4 - 1) by {
        let dx = i % 4;
        let dy = i / 4;
        let c = parent.buffered_child(1, dx, dy);
        assert(w[i] == c);
        assert(c.zoom == tile.zoom);
        let vx = (2 * parent.x + dx) as nat;
        let vy = (2 * parent.y + dy) as nat;
        assert(wrap_coord(vx, 1, z) == if vx == 0 {
            2 * n - 1
        } else {
            vx - 1
        });
        assert(wrap_coord(vy, 1, z) == if vy == 0 {
            2 * n - 1
        } else {
            vy - 1
        });
    }
    if w.contains(tile) {
        let i = choose|i: int| 0 <= i < w.len() && w[i] == tile;
        assert(w[i] == tile);
        assert(both);
    }
    if both {
        let dx = tile.x - 2 * px + 1;
        let dy = tile.y - 2 * py + 1;
        let i = dy * 4 + dx;
        assert(i % 4 == dx && i / 4 == dy);
        assert(w[i] == tile);
    }
    // The candidates hold the parent exactly where it reaches the tile.
    let zoom = (tile.zoom - 1) as u8;
    let qx = tile.x / 2;
    let qy = tile.y / 2;
    let nx = neighbour_coord(tile.x);
    let ny = neighbour_coord(tile.y);
    let x_ok = 0 <= nx < half;
    let y_ok = 0 <= ny < half;
    let c0 = seq![Tile { zoom, x: qx, y: qy }];
    let tx = Tile { zoom, x: nx as u32, y: qy };
    let ty = Tile { zoom, x: qx, y: ny as u32 };
    let txy = Tile { zoom, x: nx as u32, y: ny as u32 };
    let c1 = if x_ok {
        c0.push(tx)
    } else {
        c0
    };
    let c2 = if y_ok {
        c1.push(ty)
    } else {
        c1
    };
    let c3 = if x_ok && y_ok {
        c2.push(txy)
    } else {
        c2
    };
    assert(candidate_parents(tile) == c3);
    assert(c0.contains(parent) <==> parent == c0[0]) by {
        if c0.contains(parent) {
            let i = choose|i: int| 0 <= i < c0.len() && c0[i] == parent;
            assert(i == 0);
        }
    }
    lemma_push_contains(c0, tx, parent);
    lemma_push_contains(c1, ty, parent);
    lemma_push_contains(c2, txy, parent);
    assert(reaches(px, tile.x as int) <==> px == qx || px == nx);
    assert(reaches(py, tile.y as int) <==> py == qy || py == ny);
}

/// Whether a tracker can be started with the jobs: whether they are
/// rasterize jobs for distinct unit tiles of the pyramid, all of one zoom,
/// whose output tiles are not finer than the finest zoom supported.
pub fn are_unit_jobs<B>(jobs: &Vec<Job<B>>, supertile_zoom_offset: u8) -> (r: bool)
    ensures
        r == unit_jobs(jobs@, supertile_zoom_offset as nat),
{
    let ghost levels = supertile_zoom_offset as nat;
    let mut seen: HashSet<u128> = HashSet::new();
    let mut i: usize = 0;
    while i < jobs.len()
        invariant
            i <= jobs.len(),
            levels == supertile_zoom_offset as nat,
            unit_jobs(jobs@.take(i as int), levels),
            forall|k: u128|
                seen@.contains(k) <==> exists|a: int|
                    0 <= a < i && (#[trigger] jobs@[a]).tile_spec().key_spec() == k,
        decreases jobs.len() - i,
    {
        let t = jobs[i].tile();
        let ghost head = jobs@.take(i as int);
        let ghost more = jobs@.take(i + 1);
        proof {
            assert(more[i as int] == jobs@[i as int]);
            assert forall|a: int| 0 <= a < i implies #[trigger] more[a] == head[a] by {}
        }
        let is_rasterize = match &jobs[i] {
            Job::Rasterize(_) => true,
            Job::Overview(_) => false,
        };
        if !is_rasterize || !t.is_valid() || t.zoom as u16 + supertile_zoom_offset as u16
            > MAX_ZOOM as u16 {
            proof {
                let job = jobs@[i as int];
                assert(!(job is Rasterize && job.tile_spec().valid() && job.tile_spec().zoom
                    + levels <= MAX_ZOOM));
            }
            return false;
        }
        if i > 0 && jobs[0].tile().zoom != t.zoom {
            proof {
                assert(jobs@[0].tile_spec().zoom != jobs@[i as int].tile_spec().zoom);
            }
            return false;
        }
        let k = t.key();
        if seen.contains(&k) {
            proof {
                let a = choose|a: int|
                    0 <= a < i && (#[trigger] jobs@[a]).tile_spec().key_spec() == k;
                lemma_key_injective(jobs@[a].tile_spec(), t);
                assert(jobs@[a].tile_spec() == jobs@[i as int].tile_spec());
            }
            return false;
        }
        seen.insert(k);
        proof {
            assert forall|a: int, b: int| 0 <= a < b < more.len() implies {
                &&& (#[trigger] more[a]).tile_spec().zoom == (#[trigger] more[b]).tile_spec().zoom
                &&& more[a].tile_spec() != more[b].tile_spec()
            } by {
                if b < i {
                    assert(head[a].tile_spec().zoom == head[b].tile_spec().zoom);
                } else {
                    if a > 0 {
                        assert(head[0].tile_spec().zoom == head[a].tile_spec().zoom);
                    }
                    assert(jobs@[a].tile_spec().key_spec() != k);
                }
            }
            assert forall|a: int| 0 <= a < more.len() implies {
                &&& (#[trigger] more[a]) is Rasterize
                &&& more[a].tile_spec().valid()
                &&& more[a].tile_spec().zoom + levels <= MAX_ZOOM
            } by {
                if a < i {
                    assert(head[a] is Rasterize);
                }
            }
            assert forall|key: u128|
                seen@.contains(key) <==> exists|a: int|
                    0 <= a < i + 1 && (#[trigger] jobs@[a]).tile_spec().key_spec() == key by {
                if key == k {
                    assert(jobs@[i as int].tile_spec().key_spec() == key);
                }
            }
        }
        i = i + 1;
    }
    proof {
        assert(jobs@.take(jobs@.len() as int) =~= jobs@);
    }
    true
}

/// One rasterize job for each unit tile descriptor, in their order.
pub fn rasterize_jobs<B>(metas: Vec<TileMeta<B>>) -> (r: Vec<Job<B>>)
    ensures
        r@.len() == metas@.len(),
        forall|i: int| 0 <= i < r@.len() ==> #[trigger] r@[i] == Job::Rasterize(metas@[i]),
{
    let ghost given = metas@;
    let mut metas = metas;
    let mut back: Vec<TileMeta<B>> = Vec::new();
    while metas.len() > 0
        invariant
            metas@.len() + back@.len() == given.len(),
            forall|i: int| 0 <= i < metas@.len() ==> metas@[i] == given[i],
            forall|i: int|
                0 <= i < back@.len() ==> #[trigger] back@[i] == given[given.len() - 1 - i],
        decreases metas@.len(),
    {
        match metas.pop() {
            Some(meta) => {
                back.push(meta);
            },
            None => {},
        }
    }
    let mut out: Vec<Job<B>> = Vec::new();
    while back.len() > 0
        invariant
            out@.len() + back@.len() == given.len(),
            forall|i: int|
                0 <= i < back@.len() ==> #[trigger] back@[i] == given[given.len() - 1 - i],
            forall|i: int| 0 <= i < out@.len() ==> #[trigger] out@[i] == Job::Rasterize(given[i]),
        decreases back@.len(),
    {
        match back.pop() {
            Some(meta) => {
                out.push(Job::Rasterize(meta));
            },
            None => {},
        }
    }
    out
}

/// Coverage: the jobs made for the tiles of a rectangle are unit jobs that a
/// tracker can be started with, and the tiles they are for are exactly the
/// tiles of the rectangle, each once.
pub proof fn lemma_range_jobs_cover<B>(range: TileRange, jobs: Seq<Job<B>>, levels: nat)
    requires
        range.valid(),
        range.zoom + levels <= MAX_ZOOM,
        jobs.len() == range.tiles_spec().len(),
        forall|i: int|
            0 <= i < jobs.len() ==> (#[trigger] jobs[i]) is Rasterize && jobs[i].tile_spec()
                == range.tiles_spec()[i],
    ensures
        unit_jobs(jobs, levels),
        forall|t: Tile|
            range.contains(t) <==> exists|i: int|
                0 <= i < jobs.len() && (#[trigger] jobs[i]).tile_spec() == t,
{
    range.lemma_tiles_cover();
    let tiles = range.tiles_spec();
    assert forall|i: int| 0 <= i < jobs.len() implies {
        &&& (#[trigger] jobs[i]) is Rasterize
        &&& jobs[i].tile_spec().valid()
        &&& jobs[i].tile_spec().zoom + levels <= MAX_ZOOM
    } by {
        assert(tiles[i].valid());
        assert(tiles.contains(tiles[i]));
        assert(range.contains(tiles[i]));
    }
    assert forall|i: int, j: int| 0 <= i < j < jobs.len() implies {
        &&& (#[trigger] jobs[i]).tile_spec().zoom == (#[trigger] jobs[j]).tile_spec().zoom
        &&& jobs[i].tile_spec() != jobs[j].tile_spec()
    } by {
        assert(tiles.contains(tiles[i]));
        assert(tiles.contains(tiles[j]));
        assert(range.contains(tiles[i]));
        assert(range.contains(tiles[j]));
        assert(tiles[i] != tiles[j]);
    }
    assert forall|t: Tile|
        range.contains(t) <==> exists|i: int|
            0 <= i < jobs.len() && (#[trigger] jobs[i]).tile_spec() == t by {
        if range.contains(t) {
            assert(tiles.contains(t));
            let i = choose|i: int| 0 <= i < tiles.len() && tiles[i] == t;
            assert(jobs[i].tile_spec() == t);
        }
        if exists|i: int| 0 <= i < jobs.len() && (#[trigger] jobs[i]).tile_spec() == t {
            let i = choose|i: int| 0 <= i < jobs.len() && (#[trigger] jobs[i]).tile_spec() == t;
            assert(tiles[i] == t);
            assert(tiles.contains(t));
        }
    }
}

} // verus!
