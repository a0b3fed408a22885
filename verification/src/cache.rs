//! The bounded cache of recently produced grids, by tile. When it is full,
//! the entry that was used least recently makes room.

use vstd::prelude::*;
use crate::tile::Tile;

verus! {

/// A cache of at most `capacity` values by tile, the most recently used
/// first.
pub struct TileCache<V> {
    capacity: usize,
    entries: Vec<(Tile, V)>,
}

/// Place of `tile` among the entries, or -1 where it has none.
pub open spec fn place_of<V>(entries: Seq<(Tile, V)>, tile: Tile) -> int
    decreases entries.len(),
{
    if entries.len() == 0 {
        -1
    } else if entries.last().0 == tile {
        entries.len() - 1
    } else {
        place_of(entries.drop_last(), tile)
    }
}

/// No tile has two entries.
pub open spec fn distinct_tiles<V>(entries: Seq<(Tile, V)>) -> bool {
    forall|i: int, j: int|
        0 <= i < j < entries.len() ==> (#[trigger] entries[i]).0 != (#[trigger] entries[j]).0
}

/// `place_of` is -1 exactly where no entry is for `tile`, and else the place
/// of an entry for it.
pub proof fn lemma_place_of<V>(entries: Seq<(Tile, V)>, tile: Tile)
    ensures
        -1 <= place_of(entries, tile) < entries.len(),
        place_of(entries, tile) >= 0 ==> entries[place_of(entries, tile)].0 == tile,
        place_of(entries, tile) == -1 ==> forall|i: int|
            0 <= i < entries.len() ==> (#[trigger] entries[i]).0 != tile,
    decreases entries.len(),
{
    if entries.len() > 0 && entries.last().0 != tile {
        lemma_place_of(entries.drop_last(), tile);
        assert forall|i: int| 0 <= i < entries.len() && place_of(entries, tile) == -1 implies (#[trigger] entries[i]).0
            != tile by {
            if i < entries.len() - 1 {
                assert(entries.drop_last()[i] == entries[i]);
            }
        }
    }
}

/// Among entries with distinct tiles, the place of an entry's tile is the
/// place of that entry.
pub proof fn lemma_place_of_entry<V>(entries: Seq<(Tile, V)>, i: int)
    requires
        distinct_tiles(entries),
        0 <= i < entries.len(),
    ensures
        place_of(entries, entries[i].0) == i,
{
    lemma_place_of(entries, entries[i].0);
    let p = place_of(entries, entries[i].0);
    if p < i {
        assert(entries[p].0 != entries[i].0);
    } else if i < p {
        assert(entries[i].0 != entries[p].0);
    }
}

/// The entries after `tile` was put in with `value`: the new entry first,
/// then the others in their order, without the old entry for `tile` or, if
/// there was none and no room was left, without the last one.
pub open spec fn after_put<V>(
    entries: Seq<(Tile, V)>,
    capacity: nat,
    tile: Tile,
    value: V,
) -> Seq<(Tile, V)> {
    if capacity == 0 {
        entries
    } else {
        let place = place_of(entries, tile);
        let kept = if place >= 0 {
            entries.remove(place)
        } else if entries.len() >= capacity {
            entries.drop_last()
        } else {
            entries
        };
        seq![(tile, value)] + kept
    }
}

/// The entries after `tile` was looked up: its entry moved to the front, or
/// nothing changed where it has none.
pub open spec fn after_get<V>(entries: Seq<(Tile, V)>, tile: Tile) -> Seq<(Tile, V)> {
    let place = place_of(entries, tile);
    if place >= 0 {
        seq![entries[place]] + entries.remove(place)
    } else {
        entries
    }
}

impl<V> TileCache<V> {
    /// How many entries the cache holds at most.
    pub closed spec fn capacity(&self) -> nat {
        self.capacity as nat
    }

    /// The entries, the most recently used first.
    pub closed spec fn entries(&self) -> Seq<(Tile, V)> {
        self.entries@
    }

    /// The cache holds no more than its capacity and no tile twice.
    pub open spec fn wf(&self) -> bool {
        &&& self.entries().len() <= self.capacity()
        &&& distinct_tiles(self.entries())
    }

    /// There is an entry for `tile`.
    pub open spec fn holds(&self, tile: Tile) -> bool {
        place_of(self.entries(), tile) >= 0
    }

    /// An empty cache for at most `capacity` entries.
    pub fn new(capacity: usize) -> (r: Self)
        ensures
            r.wf(),
            r.capacity() == capacity,
            r.entries() == Seq::<(Tile, V)>::empty(),
    {
        TileCache { capacity, entries: Vec::new() }
    }

    /// Number of entries.
    pub fn len(&self) -> (r: usize)
        ensures
            r == self.entries().len(),
    {
        self.entries.len()
    }

    /// Place of the entry for `tile`, if there is one.
    fn find(&self, tile: Tile) -> (r: Option<usize>)
        requires
            self.wf(),
        ensures
            match r {
                Some(i) => i == place_of(self.entries(), tile),
                None => place_of(self.entries(), tile) == -1,
            },
    {
        let mut i: usize = 0;
        while i < self.entries.len()
            invariant
                self.wf(),
                i <= self.entries.len(),
                forall|k: int| 0 <= k < i ==> (#[trigger] self.entries@[k]).0 != tile,
            decreases self.entries.len() - i,
        {
            if self.entries[i].0 == tile {
                proof {
                    lemma_place_of_entry(self.entries@, i as int);
                }
                return Some(i);
            }
            i = i + 1;
        }
        proof {
            lemma_place_of(self.entries@, tile);
        }
        None
    }

    /// Whether there is an entry for `tile`; the order of use is left as it
    /// is.
    pub fn contains(&self, tile: Tile) -> (r: bool)
        requires
            self.wf(),
        ensures
            r == self.holds(tile),
    {
        self.find(tile).is_some()
    }

    /// Puts `value` in for `tile` as the most recently used entry. An older
    /// entry for `tile` is replaced; where there is none and the cache is
    /// full, the least recently used entry is dropped.
    pub fn put(&mut self, tile: Tile, value: V)
        requires
            old(self).wf(),
        ensures
            final(self).wf(),
            final(self).capacity() == old(self).capacity(),
            final(self).entries() == after_put(
                old(self).entries(),
                old(self).capacity(),
                tile,
                value,
            ),
    {
        if self.capacity == 0 {
            return ;
        }
        let ghost before = self.entries@;
        proof {
            lemma_place_of(before, tile);
        }
        match self.find(tile) {
            Some(i) => {
                self.entries.remove(i);
            },
            None => {
                if self.entries.len() >= self.capacity {
                    self.entries.pop();
                }
            },
        }
        let ghost kept = self.entries@;
        assert(distinct_tiles(kept));
        assert(forall|k: int| 0 <= k < kept.len() ==> (#[trigger] kept[k]).0 != tile);
        self.entries.insert(0, (tile, value));
        assert(self.entries@ =~= seq![(tile, value)] + kept);
    }

    /// Looks `tile` up and, where it has an entry, makes that the most
    /// recently used one.
    pub fn get(&mut self, tile: Tile) -> (r: Option<&V>)
        requires
            old(self).wf(),
        ensures
            final(self).wf(),
            final(self).capacity() == old(self).capacity(),
            final(self).entries() == after_get(old(self).entries(), tile),
            match r {
                Some(v) => old(self).holds(tile) && *v == old(self).entries()[place_of(
                    old(self).entries(),
                    tile,
                )].1,
                None => !old(self).holds(tile),
            },
    {
        let ghost before = self.entries@;
        proof {
            lemma_place_of(before, tile);
        }
        match self.find(tile) {
            Some(i) => {
                let entry = self.entries.remove(i);
                let ghost kept = self.entries@;
                self.entries.insert(0, entry);
                assert(self.entries@ =~= seq![before[i as int]] + before.remove(i as int));
                Some(&self.entries[0].1)
            },
            None => None,
        }
    }
}

} // verus!
