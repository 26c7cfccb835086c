use vstd::prelude::*;
use std::collections::HashMap;
use vstd::std_specs::iter::IteratorSpec;
use crate::coord::AxialCoord;

verus! {

broadcast use vstd::std_specs::hash::group_hash_axioms;

/// The number a cell is stored under: `q` and `r`, each shifted to be
/// non-negative, as the high and the low 32 bits of a 64-bit key.
pub open spec fn cell_key(p: (int, int)) -> int {
    (p.0 + 0x8000_0000) * 0x1_0000_0000 + (p.1 + 0x8000_0000)
}

/// The cell stored under key `k`: the inverse of `cell_key`.
pub open spec fn key_cell(k: int) -> (int, int) {
    (k / 0x1_0000_0000 - 0x8000_0000, k % 0x1_0000_0000 - 0x8000_0000)
}

pub open spec fn key_of(c: AxialCoord) -> u64 {
    cell_key(c@) as u64
}

pub open spec fn coord_of(k: u64) -> AxialCoord {
    AxialCoord { q: key_cell(k as int).0 as i32, r: key_cell(k as int).1 as i32 }
}

/// Every coordinate has a key in range, and the key gives it back.
proof fn lemma_cell_key_inverse(p: (int, int))
    requires
        i32::MIN <= p.0 <= i32::MAX,
        i32::MIN <= p.1 <= i32::MAX,
    ensures
        0 <= cell_key(p) <= u64::MAX,
        key_cell(cell_key(p)) == p,
{
    let a = p.0 + 0x8000_0000;
    let b = p.1 + 0x8000_0000;
    assert(0 <= a * 0x1_0000_0000 + b <= u64::MAX) by (nonlinear_arith)
        requires
            0 <= a < 0x1_0000_0000,
            0 <= b < 0x1_0000_0000,
    ;
    assert((a * 0x1_0000_0000 + b) / 0x1_0000_0000 == a && (a * 0x1_0000_0000 + b)
        % 0x1_0000_0000 == b) by (nonlinear_arith)
        requires
            0 <= a < 0x1_0000_0000,
            0 <= b < 0x1_0000_0000,
    ;
}

/// Every 64-bit key is the key of exactly one coordinate.
proof fn lemma_key_cell_inverse(k: int)
    requires
        0 <= k <= u64::MAX,
    ensures
        i32::MIN <= key_cell(k).0 <= i32::MAX,
        i32::MIN <= key_cell(k).1 <= i32::MAX,
        cell_key(key_cell(k)) == k,
{
    let a = k / 0x1_0000_0000;
    let b = k % 0x1_0000_0000;
    assert(0 <= a < 0x1_0000_0000 && 0 <= b < 0x1_0000_0000 && a * 0x1_0000_0000 + b == k)
        by (nonlinear_arith)
        requires
            0 <= k <= u64::MAX,
            a == k / 0x1_0000_0000,
            b == k % 0x1_0000_0000,
    ;
}

proof fn lemma_key_of(c: AxialCoord)
    ensures
        key_of(c) as int == cell_key(c@),
        coord_of(key_of(c)) == c,
{
    lemma_cell_key_inverse(c@);
}

proof fn lemma_coord_of(k: u64)
    ensures
        key_of(coord_of(k)) == k,
{
    lemma_key_cell_inverse(k as int);
}

proof fn lemma_key_of_injective(a: AxialCoord, b: AxialCoord)
    ensures
        key_of(a) == key_of(b) <==> a == b,
{
    lemma_key_of(a);
    lemma_key_of(b);
}

fn key_from_coord(c: &AxialCoord) -> (k: u64)
    ensures
        k == key_of(*c),
{
    proof {
        lemma_key_of(*c);
    }
    let hi: u64 = (c.q as i64 + 0x8000_0000) as u64;
    let lo: u64 = (c.r as i64 + 0x8000_0000) as u64;
    assert(hi * 0x1_0000_0000 + lo <= u64::MAX) by (nonlinear_arith)
        requires
            hi < 0x1_0000_0000,
            lo < 0x1_0000_0000,
    ;
    hi * 0x1_0000_0000 + lo
}

fn coord_from_key(k: u64) -> (c: AxialCoord)
    ensures
        c == coord_of(k),
{
    proof {
        lemma_key_cell_inverse(k as int);
    }
    let q: i64 = (k / 0x1_0000_0000) as i64 - 0x8000_0000;
    let r: i64 = (k % 0x1_0000_0000) as i64 - 0x8000_0000;
    AxialCoord::new(q as i32, r as i32)
}

/// A sparse hexagonal grid: a map from axial coordinates to values, holding
/// only the cells that have data.
#[derive(Clone)]
pub struct HexGrid<T> {
    data: HashMap<u64, T>,
}

impl<T> View for HexGrid<T> {
    type V = Map<AxialCoord, T>;

    closed spec fn view(&self) -> Map<AxialCoord, T> {
        Map::new(
            |c: AxialCoord| self.data@.contains_key(key_of(c)),
            |c: AxialCoord| self.data@[key_of(c)],
        )
    }
}

/// Whether `entries` lists every cell of `m` exactly once, each with its value.
pub open spec fn lists_cells<T>(m: Map<AxialCoord, T>, entries: Seq<(AxialCoord, T)>) -> bool {
    &&& entries.len() == m.len()
    &&& forall|i: int|
        0 <= i < entries.len() ==> m.contains_key(#[trigger] entries[i].0) && m[entries[i].0]
            == entries[i].1
    &&& forall|c: AxialCoord| #[trigger]
        m.contains_key(c) ==> exists|i: int| 0 <= i < entries.len() && entries[i].0 == c
    &&& forall|i: int, j: int|
        0 <= i < j < entries.len() ==> #[trigger] entries[i].0 != #[trigger] entries[j].0
}

/// The entries with their borrowed values read as values.
pub open spec fn read_entries<T>(entries: Seq<(AxialCoord, &T)>) -> Seq<(AxialCoord, T)> {
    entries.map_values(|e: (AxialCoord, &T)| (e.0, *e.1))
}

/// The cells paired with the borrowed values, read as values.
pub open spec fn pair_up<T>(cells: Seq<AxialCoord>, values: Seq<&T>) -> Seq<(AxialCoord, T)> {
    Seq::new(cells.len(), |i: int| (cells[i], *values[i]))
}

/// Whether `keys` lists every cell of `m` exactly once.
pub open spec fn lists_keys<T>(m: Map<AxialCoord, T>, keys: Seq<AxialCoord>) -> bool {
    &&& keys.len() == m.len()
    &&& keys.no_duplicates()
    &&& forall|c: AxialCoord| #[trigger] keys.contains(c) <==> m.contains_key(c)
}

/// The map built by storing the entries one after another, so that a later
/// entry for a cell replaces an earlier one.
pub open spec fn map_of_entries<T>(entries: Seq<(AxialCoord, T)>) -> Map<AxialCoord, T>
    decreases entries.len(),
{
    if entries.len() == 0 {
        Map::empty()
    } else {
        map_of_entries(entries.drop_last()).insert(entries.last().0, entries.last().1)
    }
}

/// Building from entries whose cells are all different stores each entry's
/// value at its cell and nothing else.
proof fn lemma_map_of_distinct_entries<T>(es: Seq<(AxialCoord, T)>)
    requires
        forall|i: int, j: int| 0 <= i < j < es.len() ==> #[trigger] es[i].0 != #[trigger] es[j].0,
    ensures
        forall|i: int|
            0 <= i < es.len() ==> map_of_entries(es).contains_key(#[trigger] es[i].0)
                && map_of_entries(es)[es[i].0] == es[i].1,
        forall|c: AxialCoord| #[trigger]
            map_of_entries(es).contains_key(c) ==> exists|i: int| 0 <= i < es.len() && es[i].0 == c,
    decreases es.len(),
{
    if es.len() > 0 {
        let init = es.drop_last();
        assert forall|i: int, j: int| 0 <= i < j < init.len() implies #[trigger] init[i].0
            != #[trigger] init[j].0 by {
            assert(es[i].0 != es[j].0);
        }
        lemma_map_of_distinct_entries(init);
        assert forall|i: int| 0 <= i < es.len() implies map_of_entries(es).contains_key(
            #[trigger] es[i].0,
        ) && map_of_entries(es)[es[i].0] == es[i].1 by {
            if i < es.len() - 1 {
                assert(init[i] == es[i]);
                assert(es[i].0 != es[es.len() - 1].0);
            }
        }
        assert forall|c: AxialCoord| #[trigger]
            map_of_entries(es).contains_key(c) implies exists|i: int|
            0 <= i < es.len() && es[i].0 == c by {
            if c != es.last().0 {
                assert(map_of_entries(init).contains_key(c));
                let i = choose|i: int| 0 <= i < init.len() && init[i].0 == c;
                assert(es[i] == init[i]);
            }
        }
    }
}

/// Building from entries with one more entry at the end stores that entry's
/// value at its cell, whatever came before, and leaves every other cell as
/// the earlier entries left it. Building from no entries gives no cells.
pub proof fn lemma_last_entry_wins<T>(
    es: Seq<(AxialCoord, T)>,
    c: AxialCoord,
    v: T,
    d: AxialCoord,
)
    ensures
        map_of_entries(Seq::<(AxialCoord, T)>::empty()) == Map::<AxialCoord, T>::empty(),
        map_of_entries(es.push((c, v))).contains_key(c),
        map_of_entries(es.push((c, v)))[c] == v,
        d != c ==> map_of_entries(es.push((c, v))).contains_key(d) == map_of_entries(
            es,
        ).contains_key(d),
        d != c && map_of_entries(es).contains_key(d) ==> map_of_entries(es.push((c, v)))[d]
            == map_of_entries(es)[d],
{
    assert(es.push((c, v)).drop_last() =~= es);
    assert(es.push((c, v)).last() == (c, v));
}

/// The entries read from borrowed entries are the same cells with the
/// borrowed values, in the same order.
pub proof fn lemma_read_entries_fields<T>(entries: Seq<(AxialCoord, &T)>)
    ensures
        read_entries(entries).len() == entries.len(),
        forall|i: int|
            0 <= i < entries.len() ==> #[trigger] read_entries(entries)[i] == (
                entries[i].0,
                *entries[i].1,
            ),
{
}

/// Rebuilding a grid from a listing of its cells (such as `iter` gives)
/// gives back the same grid.
pub proof fn lemma_rebuild_from_listing<T>(m: Map<AxialCoord, T>, es: Seq<(AxialCoord, T)>)
    requires
        lists_cells(m, es),
    ensures
        map_of_entries(es) == m,
{
    lemma_map_of_distinct_entries(es);
    assert forall|c: AxialCoord| #[trigger] map_of_entries(es).contains_key(c) <==> m.contains_key(
        c,
    ) by {
        if m.contains_key(c) {
            let i = choose|i: int| 0 <= i < es.len() && es[i].0 == c;
        }
        if map_of_entries(es).contains_key(c) {
            let i = choose|i: int| 0 <= i < es.len() && es[i].0 == c;
        }
    }
    assert forall|c: AxialCoord| #[trigger] m.contains_key(c) implies map_of_entries(es)[c]
        == m[c] by {
        let i = choose|i: int| 0 <= i < es.len() && es[i].0 == c;
    }
    assert(map_of_entries(es) =~= m);
}

impl<T> HexGrid<T> {
    /// The grid's map is its storage read through the key numbering.
    proof fn lemma_view_dom(&self)
        ensures
            self@.dom() == self.data@.dom().map(|k: u64| coord_of(k)),
            self@.dom().finite(),
            self@.len() == self.data@.len(),
    {
        let f = |k: u64| coord_of(k);
        let kd = self.data@.dom();
        assert forall|c: AxialCoord| #[trigger] self@.dom().contains(c) <==> kd.map(f).contains(
            c,
        ) by {
            lemma_key_of(c);
            if kd.map(f).contains(c) {
                let k = choose|k: u64| kd.contains(k) && c == f(k);
                lemma_coord_of(k);
            }
        }
        assert(self@.dom() =~= kd.map(f));
        assert forall|k1: u64, k2: u64| kd.contains(k1) && kd.contains(k2) && #[trigger] f(k1)
            == #[trigger] f(k2) implies k1 == k2 by {
            lemma_coord_of(k1);
            lemma_coord_of(k2);
        }
        vstd::set_lib::lemma_map_size(kd, self@.dom(), f);
    }

    /// Creates an empty grid.
    pub fn new() -> (g: HexGrid<T>)
        ensures
            g@ == Map::<AxialCoord, T>::empty(),
    {
        let g = HexGrid { data: HashMap::new() };
        assert(g@ =~= Map::<AxialCoord, T>::empty());
        g
    }

    /// Stores `value` at `coord`, giving back the value it replaces.
    pub fn insert(&mut self, coord: AxialCoord, value: T) -> (previous: Option<T>)
        ensures
            final(self)@ == old(self)@.insert(coord, value),
            match previous {
                Some(v) => old(self)@.contains_key(coord) && v == old(self)@[coord],
                None => !old(self)@.contains_key(coord),
            },
    {
        let k = key_from_coord(&coord);
        let previous = self.data.insert(k, value);
        proof {
            assert forall|c: AxialCoord| #![auto] key_of(c) == k <==> c == coord by {
                lemma_key_of_injective(c, coord);
            }
            assert(self@ =~= old(self)@.insert(coord, value));
        }
        previous
    }

    /// The value stored at `coord`, if any.
    pub fn get(&self, coord: &AxialCoord) -> (value: Option<&T>)
        ensures
            match value {
                Some(v) => self@.contains_key(*coord) && *v == self@[*coord],
                None => !self@.contains_key(*coord),
            },
    {
        let k = key_from_coord(coord);
        self.data.get(&k)
    }

    /// Takes the value stored at `coord` out of the grid, if any.
    pub fn remove(&mut self, coord: &AxialCoord) -> (removed: Option<T>)
        ensures
            final(self)@ == old(self)@.remove(*coord),
            match removed {
                Some(v) => old(self)@.contains_key(*coord) && v == old(self)@[*coord],
                None => !old(self)@.contains_key(*coord),
            },
    {
        let k = key_from_coord(coord);
        let removed = self.data.remove(&k);
        proof {
            assert forall|c: AxialCoord| #![auto] key_of(c) == k <==> c == *coord by {
                lemma_key_of_injective(c, *coord);
            }
            assert(self@ =~= old(self)@.remove(*coord));
        }
        removed
    }

    /// Whether a value is stored at `coord`.
    pub fn contains(&self, coord: &AxialCoord) -> (b: bool)
        ensures
            b == self@.contains_key(*coord),
    {
        let k = key_from_coord(coord);
        self.data.contains_key(&k)
    }

    /// Removes every value.
    pub fn clear(&mut self)
        ensures
            final(self)@ == Map::<AxialCoord, T>::empty(),
    {
        self.data.clear();
        assert(self@ =~= Map::<AxialCoord, T>::empty());
    }

    /// The number of cells that hold a value.
    pub fn len(&self) -> (n: usize)
        ensures
            n == self@.len(),
    {
        proof {
            self.lemma_view_dom();
        }
        self.data.len()
    }

    /// Whether no cell holds a value.
    pub fn is_empty(&self) -> (b: bool)
        ensures
            b == (self@.len() == 0),
            b == (self@ == Map::<AxialCoord, T>::empty()),
    {
        proof {
            self.lemma_view_dom();
            if self@.len() == 0 {
                assert(self@.dom() =~= Set::<AxialCoord>::empty());
                assert(self@ =~= Map::<AxialCoord, T>::empty());
            }
        }
        self.data.is_empty()
    }

    /// A mutable borrow of the value stored at `coord`, if any; what is
    /// written through it is what the grid then holds at `coord`.
    pub fn get_mut(&mut self, coord: &AxialCoord) -> (value: Option<&mut T>)
        ensures
            match value {
                Some(v) => {
                    &&& old(self)@.contains_key(*coord)
                    &&& *v == old(self)@[*coord]
                    &&& final(self)@ == old(self)@.insert(*coord, *final(v))
                },
                None => !old(self)@.contains_key(*coord) && final(self)@ == old(self)@,
            },
    {
        let k = key_from_coord(coord);
        proof {
            assert forall|c: AxialCoord| #![auto] key_of(c) == k <==> c == *coord by {
                lemma_key_of_injective(c, *coord);
            }
        }
        match self.data.entry(k) {
            std::collections::hash_map::Entry::Occupied(o) => {
                Some(o.into_mut())
            },
            std::collections::hash_map::Entry::Vacant(_) => None,
        }
    }

    /// Every cell that holds a value, with a borrow of that value, each
    /// exactly once, in no particular order.
    pub fn iter(&self) -> (entries: Vec<(AxialCoord, &T)>)
        ensures
            lists_cells(self@, read_entries(entries@)),
    {
        let mut out: Vec<(AxialCoord, &T)> = Vec::new();
        let ghost pairs = vstd::std_specs::hash::spec_hash_map_iter(&self.data).remaining();
        for kv in it: self.data.iter()
            invariant
                it.seq() == pairs,
                out@.len() == it.index(),
                forall|i: int|
                    0 <= i < it.index() ==> #[trigger] out@[i] == (
                        coord_of(*it.seq()[i].0),
                        it.seq()[i].1,
                    ),
        {
            let (k, v) = kv;
            out.push((coord_from_key(*k), v));
        }
        proof {
            let m = self.data@;
            let es = read_entries(out@);
            self.lemma_view_dom();
            assert(pairs.len() == m.dom().len());
            assert forall|i: int| 0 <= i < es.len() implies self@.contains_key(
                #[trigger] es[i].0,
            ) && self@[es[i].0] == es[i].1 by {
                assert(m.contains_key(*pairs[i].0) && m[*pairs[i].0] == *pairs[i].1);
                lemma_coord_of(*pairs[i].0);
            }
            assert forall|c: AxialCoord| #[trigger] self@.contains_key(c) implies exists|i: int|
                0 <= i < es.len() && es[i].0 == c by {
                let k = key_of(c);
                lemma_key_of(c);
                assert(m.contains_key(k));
                assert(pairs.contains((&k, &m[k])));
                let i = choose|i: int| 0 <= i < pairs.len() && pairs[i] == (&k, &m[k]);
                assert(es[i].0 == c);
            }
            assert forall|i: int, j: int| 0 <= i < j < es.len() implies #[trigger] es[i].0
                != #[trigger] es[j].0 by {
                if es[i].0 == es[j].0 {
                    lemma_coord_of(*pairs[i].0);
                    lemma_coord_of(*pairs[j].0);
                    assert(m.contains_key(*pairs[i].0) && m[*pairs[i].0] == *pairs[i].1);
                    assert(m.contains_key(*pairs[j].0) && m[*pairs[j].0] == *pairs[j].1);
                    assert(pairs[i] == pairs[j]);
                }
            }
        }
        out
    }

    /// Every cell that holds a value, each exactly once, in no particular
    /// order.
    pub fn keys(&self) -> (keys: Vec<AxialCoord>)
        ensures
            lists_keys(self@, keys@),
    {
        let entries = self.iter();
        let ghost es = read_entries(entries@);
        let mut out: Vec<AxialCoord> = Vec::new();
        let n = entries.len();
        for i in 0..n
            invariant
                n == entries@.len(),
                es == read_entries(entries@),
                lists_cells(self@, es),
                out@.len() == i,
                forall|j: int| 0 <= j < i ==> #[trigger] out@[j] == es[j].0,
        {
            out.push(entries[i].0);
        }
        proof {
            assert forall|c: AxialCoord| #[trigger] out@.contains(c) <==> self@.contains_key(c) by {
                if self@.contains_key(c) {
                    let j = choose|j: int| 0 <= j < es.len() && es[j].0 == c;
                    assert(out@[j] == c);
                }
            }
            assert forall|a: int, b: int| 0 <= a < out@.len() && 0 <= b < out@.len() && a
                != b implies out@[a] != out@[b] by {
                if a < b {
                    assert(es[a].0 != es[b].0);
                } else {
                    assert(es[b].0 != es[a].0);
                }
            }
        }
        out
    }

    /// Every stored value, borrowed, once for each cell that holds it, in
    /// no particular order.
    pub fn values(&self) -> (values: Vec<&T>)
        ensures
            exists|cells: Seq<AxialCoord>|
                #![trigger lists_cells(self@, pair_up(cells, values@))]
                cells.len() == values@.len() && lists_cells(self@, pair_up(cells, values@)),
    {
        let entries = self.iter();
        let ghost es = read_entries(entries@);
        let mut out: Vec<&T> = Vec::new();
        let n = entries.len();
        for i in 0..n
            invariant
                n == entries@.len(),
                es == read_entries(entries@),
                out@.len() == i,
                forall|j: int| 0 <= j < i ==> *#[trigger] out@[j] == es[j].1,
        {
            out.push(entries[i].1);
        }
        proof {
            let cells = es.map_values(|e: (AxialCoord, T)| e.0);
            assert(pair_up(cells, out@) =~= es);
        }
        out
    }

    /// The grid holding the entries stored one after another: where a cell
    /// occurs more than once, its last entry wins.
    pub fn from_entries(entries: Vec<(AxialCoord, T)>) -> (g: HexGrid<T>)
        ensures
            g@ == map_of_entries(entries@),
    {
        let mut g = HexGrid::new();
        let ghost es = entries@;
        let ghost mut done: int = 0;
        for e in it: entries.into_iter()
            invariant
                it.seq() == es,
                done == it.index(),
                g@ == map_of_entries(es.take(done)),
        {
            let (c, v) = e;
            proof {
                assert(es.take(done + 1).drop_last() =~= es.take(done));
            }
            g.insert(c, v);
            proof {
                done = done + 1;
            }
        }
        proof {
            assert(es.take(es.len() as int) =~= es);
        }
        g
    }
}

impl<T> Default for HexGrid<T> {
    /// An empty grid.
    fn default() -> (g: HexGrid<T>)
        ensures
            g@ == Map::<AxialCoord, T>::empty(),
    {
        HexGrid::new()
    }
}

/// Reading a cell after storing a value there gives that value, and every
/// other cell keeps what it held.
pub proof fn lemma_get_after_insert<T>(m: Map<AxialCoord, T>, c: AxialCoord, v: T, d: AxialCoord)
    ensures
        m.insert(c, v).contains_key(c),
        m.insert(c, v)[c] == v,
        d != c ==> m.insert(c, v).contains_key(d) == m.contains_key(d),
        d != c && m.contains_key(d) ==> m.insert(c, v)[d] == m[d],
{
}

/// After a removal the cell is empty, and every other cell keeps what it
/// held.
pub proof fn lemma_get_after_remove<T>(m: Map<AxialCoord, T>, c: AxialCoord, d: AxialCoord)
    ensures
        !m.remove(c).contains_key(c),
        d != c ==> m.remove(c).contains_key(d) == m.contains_key(d),
        d != c && m.contains_key(d) ==> m.remove(c)[d] == m[d],
{
}

/// Removing the value just stored in a cell that was empty gives back the
/// grid as it was.
pub proof fn lemma_remove_undoes_insert<T>(m: Map<AxialCoord, T>, c: AxialCoord, v: T)
    requires
        !m.contains_key(c),
    ensures
        m.insert(c, v).remove(c) == m,
{
    assert(m.insert(c, v).remove(c) =~= m);
}

/// Storing in an empty cell adds one to the number of cells with a value;
/// storing in a filled cell leaves it unchanged. Removing from a filled
/// cell takes one away.
pub proof fn lemma_len_after_change<T>(g: HexGrid<T>, c: AxialCoord, v: T)
    ensures
        g@.insert(c, v).len() == g@.len() + (if g@.contains_key(c) {
            0int
        } else {
            1int
        }),
        g@.contains_key(c) ==> g@.remove(c).len() == g@.len() - 1,
        !g@.contains_key(c) ==> g@.remove(c).len() == g@.len(),
{
    g.lemma_view_dom();
    if g@.contains_key(c) {
        assert(g@.insert(c, v).dom() =~= g@.dom());
    } else {
        assert(g@.remove(c).dom() =~= g@.dom());
    }
}

} // verus!
