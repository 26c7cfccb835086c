use vstd::prelude::*;
use std::collections::HashMap;
use vstd::std_specs::iter::IteratorSpec;
use crate::coord::AxialCoord;
use crate::grid::{HexGrid, lists_keys};

verus! {

broadcast use vstd::std_specs::hash::group_hash_axioms;

/// What storing a value in a numbered grid did.
#[derive(Debug, Clone, Copy, PartialEq, Eq, Structural)]
pub enum InsertOutcome {
    /// No grid has the id; nothing was stored.
    GridMissing,
    /// The cell was empty and now holds the value.
    Inserted,
    /// The cell held a value, which the new one replaced.
    Replaced,
}

/// Numbered grids, as the web API manages them. Ids for new grids are
/// handed out in increasing order, starting at 1, skipping ids in use.
pub struct GridRegistry<V> {
    grids: HashMap<u32, HexGrid<V>>,
    next_id: u32,
}

/// Whether `ids` lists every key of `m` exactly once.
pub open spec fn lists_ids<G>(m: Map<u32, G>, ids: Seq<u32>) -> bool {
    &&& ids.len() == m.dom().len()
    &&& ids.no_duplicates()
    &&& forall|id: u32| #[trigger] ids.contains(id) <==> m.contains_key(id)
}

impl<V> GridRegistry<V> {
    /// Ids start at 1, so the counter is never 0.
    #[verifier::type_invariant]
    spec fn counter_positive(self) -> bool {
        self.next_id >= 1
    }

    /// Moves the table of grids out, leaving an empty one in its place.
    fn take_table(&mut self) -> (table: HashMap<u32, HexGrid<V>>)
        ensures
            table@ == old(self).grids@,
            final(self).grids@ == Map::<u32, HexGrid<V>>::empty(),
            final(self).next_id == old(self).next_id,
    {
        proof {
            use_type_invariant(&*self);
        }
        let mut table = HashMap::new();
        std::mem::swap(&mut table, &mut self.grids);
        table
    }

    /// Puts `table` back as the table of grids.
    fn put_table(&mut self, table: HashMap<u32, HexGrid<V>>)
        ensures
            final(self).grids@ == table@,
            final(self).next_id == old(self).next_id,
    {
        proof {
            use_type_invariant(&*self);
        }
        let mut table = table;
        std::mem::swap(&mut table, &mut self.grids);
    }

    /// The grids by id, each as the map of its cells.
    pub closed spec fn grids(&self) -> Map<u32, Map<AxialCoord, V>> {
        self.grids@.map_values(|g: HexGrid<V>| g@)
    }

    /// The id that the next new grid gets.
    pub closed spec fn upcoming_id(&self) -> u32 {
        self.next_id
    }

    /// A registry with no grids, whose first new grid gets id 1.
    pub fn new() -> (reg: GridRegistry<V>)
        ensures
            reg.grids() == Map::<u32, Map<AxialCoord, V>>::empty(),
            reg.upcoming_id() == 1,
    {
        let reg = GridRegistry { grids: HashMap::new(), next_id: 1 };
        assert(reg.grids() =~= Map::<u32, Map<AxialCoord, V>>::empty());
        reg
    }

    /// The id that the next new grid gets.
    pub fn next_grid_id(&self) -> (id: u32)
        ensures
            id == self.upcoming_id(),
            id >= 1,
    {
        proof {
            use_type_invariant(self);
        }
        self.next_id
    }

    /// Creates an empty grid under the first id, from the next one on,
    /// that no grid uses, and returns that id; grids already in place
    /// (such as restored ones) are left alone. `None`, changing nothing,
    /// when every id from the next one up to `u32::MAX` (which is never
    /// handed out) is in use.
    pub fn create_grid(&mut self) -> (id: Option<u32>)
        ensures
            match id {
                Some(id) => {
                    &&& 1 <= old(self).upcoming_id() <= id < u32::MAX
                    &&& !old(self).grids().contains_key(id)
                    &&& forall|k: u32|
                        old(self).upcoming_id() <= k < id ==> #[trigger] old(
                            self,
                        ).grids().contains_key(k)
                    &&& final(self).upcoming_id() == id + 1
                    &&& final(self).grids() == old(self).grids().insert(
                        id,
                        Map::<AxialCoord, V>::empty(),
                    )
                },
                None => {
                    &&& forall|k: u32|
                        old(self).upcoming_id() <= k < u32::MAX ==> #[trigger] old(
                            self,
                        ).grids().contains_key(k)
                    &&& final(self).upcoming_id() == old(self).upcoming_id()
                    &&& final(self).grids() == old(self).grids()
                },
            },
    {
        proof {
            use_type_invariant(&*self);
        }
        let start = self.next_id;
        let mut candidate = start;
        while candidate < u32::MAX && self.grids.contains_key(&candidate)
            invariant
                start == old(self).upcoming_id(),
                self.grids() == old(self).grids(),
                self.grids@ == old(self).grids@,
                start <= candidate <= u32::MAX,
                forall|k: u32| start <= k < candidate ==> #[trigger] self.grids().contains_key(k),
            decreases u32::MAX - candidate,
        {
            candidate = candidate + 1;
        }
        if candidate == u32::MAX {
            return None;
        }
        assert(!self.grids().contains_key(candidate));
        self.next_id = candidate + 1;
        let mut table = self.take_table();
        table.insert(candidate, HexGrid::new());
        self.put_table(table);
        assert(self.grids() =~= old(self).grids().insert(candidate, Map::<AxialCoord, V>::empty()));
        Some(candidate)
    }

    /// Removes the grid `id`; tells whether there was one.
    pub fn destroy_grid(&mut self, id: u32) -> (existed: bool)
        ensures
            existed == old(self).grids().contains_key(id),
            final(self).grids() == old(self).grids().remove(id),
            final(self).upcoming_id() == old(self).upcoming_id(),
    {
        let mut table = self.take_table();
        let removed = table.remove(&id);
        self.put_table(table);
        assert(self.grids() =~= old(self).grids().remove(id));
        removed.is_some()
    }

    /// Empties the grid `id`; tells whether there is one.
    pub fn grid_clear(&mut self, id: u32) -> (found: bool)
        ensures
            found == old(self).grids().contains_key(id),
            final(self).grids() == (if found {
                old(self).grids().insert(id, Map::<AxialCoord, V>::empty())
            } else {
                old(self).grids()
            }),
            final(self).upcoming_id() == old(self).upcoming_id(),
    {
        let mut table = self.take_table();
        let found = match table.entry(id) {
            std::collections::hash_map::Entry::Occupied(o) => {
                let g = o.into_mut();
                g.clear();
                true
            },
            std::collections::hash_map::Entry::Vacant(_) => false,
        };
        self.put_table(table);
        found
    }

    /// Stores `value` at `(q, r)` in the grid `id`, if there is such a grid.
    pub fn grid_insert(&mut self, id: u32, q: i32, r: i32, value: V) -> (outcome: InsertOutcome)
        ensures
            final(self).upcoming_id() == old(self).upcoming_id(),
            !old(self).grids().contains_key(id) ==> outcome == InsertOutcome::GridMissing
                && final(self).grids() == old(self).grids(),
            old(self).grids().contains_key(id) ==> {
                let cells = old(self).grids()[id];
                let c = AxialCoord { q, r };
                &&& final(self).grids() == old(self).grids().insert(id, cells.insert(c, value))
                &&& outcome == (if cells.contains_key(c) {
                    InsertOutcome::Replaced
                } else {
                    InsertOutcome::Inserted
                })
            },
    {
        let mut table = self.take_table();
        let outcome = match table.entry(id) {
            std::collections::hash_map::Entry::Occupied(o) => {
                let g = o.into_mut();
                match g.insert(AxialCoord::new(q, r), value) {
                    Some(_) => InsertOutcome::Replaced,
                    None => InsertOutcome::Inserted,
                }
            },
            std::collections::hash_map::Entry::Vacant(_) => InsertOutcome::GridMissing,
        };
        self.put_table(table);
        outcome
    }

    /// The value at `(q, r)` in the grid `id`; `None` when there is no such
    /// grid or the cell is empty.
    pub fn grid_get(&self, id: u32, q: i32, r: i32) -> (value: Option<&V>)
        ensures
            match value {
                Some(v) => {
                    &&& self.grids().contains_key(id)
                    &&& self.grids()[id].contains_key(AxialCoord { q, r })
                    &&& *v == self.grids()[id][AxialCoord { q, r }]
                },
                None => !(self.grids().contains_key(id) && self.grids()[id].contains_key(
                    AxialCoord { q, r },
                )),
            },
    {
        match self.grids.get(&id) {
            Some(g) => g.get(&AxialCoord::new(q, r)),
            None => None,
        }
    }

    /// Takes the value at `(q, r)` out of the grid `id`; `None` when there is
    /// no such grid or the cell is empty.
    pub fn grid_remove(&mut self, id: u32, q: i32, r: i32) -> (removed: Option<V>)
        ensures
            final(self).upcoming_id() == old(self).upcoming_id(),
            !old(self).grids().contains_key(id) ==> removed is None && final(self).grids()
                == old(self).grids(),
            old(self).grids().contains_key(id) ==> {
                let cells = old(self).grids()[id];
                let c = AxialCoord { q, r };
                &&& final(self).grids() == old(self).grids().insert(id, cells.remove(c))
                &&& match removed {
                    Some(v) => cells.contains_key(c) && v == cells[c],
                    None => !cells.contains_key(c),
                }
            },
    {
        let mut table = self.take_table();
        let removed = match table.entry(id) {
            std::collections::hash_map::Entry::Occupied(o) => {
                let g = o.into_mut();
                g.remove(&AxialCoord::new(q, r))
            },
            std::collections::hash_map::Entry::Vacant(_) => None,
        };
        self.put_table(table);
        removed
    }

    /// Whether the grid `id` holds a value at `(q, r)`; `None` when there is
    /// no such grid.
    pub fn grid_contains(&self, id: u32, q: i32, r: i32) -> (found: Option<bool>)
        ensures
            match found {
                Some(b) => self.grids().contains_key(id) && b == self.grids()[id].contains_key(
                    AxialCoord { q, r },
                ),
                None => !self.grids().contains_key(id),
            },
    {
        match self.grids.get(&id) {
            Some(g) => Some(g.contains(&AxialCoord::new(q, r))),
            None => None,
        }
    }

    /// The number of cells with a value in the grid `id`; `None` when there
    /// is no such grid.
    pub fn grid_len(&self, id: u32) -> (n: Option<usize>)
        ensures
            match n {
                Some(k) => self.grids().contains_key(id) && k == self.grids()[id].len(),
                None => !self.grids().contains_key(id),
            },
    {
        match self.grids.get(&id) {
            Some(g) => Some(g.len()),
            None => None,
        }
    }

    /// The cells with a value in the grid `id`, each once, in no particular
    /// order; `None` when there is no such grid.
    pub fn grid_keys(&self, id: u32) -> (keys: Option<Vec<AxialCoord>>)
        ensures
            match keys {
                Some(ks) => self.grids().contains_key(id) && lists_keys(self.grids()[id], ks@),
                None => !self.grids().contains_key(id),
            },
    {
        match self.grids.get(&id) {
            Some(g) => Some(g.keys()),
            None => None,
        }
    }

    /// The grid `id`, if there is one.
    pub fn grid(&self, id: u32) -> (g: Option<&HexGrid<V>>)
        ensures
            match g {
                Some(g) => self.grids().contains_key(id) && g@ == self.grids()[id],
                None => !self.grids().contains_key(id),
            },
    {
        self.grids.get(&id)
    }

    /// Puts `grid` under `id`, replacing any grid there (the last step of
    /// restoring a saved grid).
    pub fn restore_grid(&mut self, id: u32, grid: HexGrid<V>)
        ensures
            final(self).grids() == old(self).grids().insert(id, grid@),
            final(self).upcoming_id() == old(self).upcoming_id(),
    {
        let mut table = self.take_table();
        table.insert(id, grid);
        self.put_table(table);
        assert(self.grids() =~= old(self).grids().insert(id, grid@));
    }

    /// The ids of all grids, each once, in no particular order.
    pub fn list_grids(&self) -> (ids: Vec<u32>)
        ensures
            lists_ids(self.grids(), ids@),
    {
        let mut out: Vec<u32> = Vec::new();
        let ghost keys = vstd::std_specs::hash::spec_keys_iter(&self.grids).remaining();
        for k in it: self.grids.keys()
            invariant
                it.seq() == keys,
                out@.len() == it.index(),
                forall|j: int| 0 <= j < it.index() ==> #[trigger] out@[j] == *keys[j],
        {
            out.push(*k);
        }
        proof {
            assert(out@ =~= keys.unref());
            assert(self.grids().dom() =~= self.grids@.dom());
            assert(keys.no_duplicates());
            assert(keys.len() == self.grids@.dom().len());
            assert(out@.no_duplicates()) by {
                assert forall|a: int, b: int| 0 <= a < out@.len() && 0 <= b < out@.len() && a
                    != b implies out@[a] != out@[b] by {
                    assert(keys[a] != keys[b]);
                }
            }
            assert forall|id: u32| #[trigger] out@.contains(id) <==> self.grids().contains_key(
                id,
            ) by {
                assert(keys.unref().to_set().contains(id) <==> self.grids@.dom().contains(id));
            }
        }
        out
    }
}

/// Two grids created one after the other get different ids, the second one
/// larger (the counter moved past the first), and the first is still there,
/// empty, after the second is made.
pub proof fn lemma_successive_creations<V>(
    before: Map<u32, Map<AxialCoord, V>>,
    first: u32,
    second: u32,
)
    requires
        second >= first + 1,
    ensures
        first < second,
        before.insert(first, Map::empty()).insert(second, Map::empty())[first] == Map::<
            AxialCoord,
            V,
        >::empty(),
        before.insert(first, Map::empty()).insert(second, Map::empty()).contains_key(first),
{
}

/// Creating a grid under an id no grid uses leaves every active grid as it
/// was.
pub proof fn lemma_creation_keeps_active_grids<V>(
    before: Map<u32, Map<AxialCoord, V>>,
    id: u32,
    other: u32,
)
    requires
        !before.contains_key(id),
        before.contains_key(other),
    ensures
        other != id,
        before.insert(id, Map::empty()).contains_key(other),
        before.insert(id, Map::empty())[other] == before[other],
{
}

/// After storing a value in a grid, reading that cell of that grid gives
/// the value back; other grids are untouched.
pub proof fn lemma_grid_get_after_insert<V>(
    grids: Map<u32, Map<AxialCoord, V>>,
    id: u32,
    c: AxialCoord,
    v: V,
    other: u32,
)
    requires
        grids.contains_key(id),
    ensures
        ({
            let after = grids.insert(id, grids[id].insert(c, v));
            &&& after[id].contains_key(c)
            &&& after[id][c] == v
            &&& other != id ==> after.contains_key(other) == grids.contains_key(other)
            &&& other != id && grids.contains_key(other) ==> after[other] == grids[other]
        }),
{
}

/// A destroyed grid is gone: every later lookup in it finds no grid.
pub proof fn lemma_destroyed_grid_is_gone<V>(grids: Map<u32, Map<AxialCoord, V>>, id: u32)
    ensures
        !grids.remove(id).contains_key(id),
{
}

} // verus!
