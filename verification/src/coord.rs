use vstd::prelude::*;

verus! {

/// An axial coordinate `(q, r)` on a hexagonal grid. The third cube
/// coordinate is implicit: `s = -q - r`.
#[derive(Debug, Clone, Copy, PartialEq, Eq, Hash, Structural)]
pub struct AxialCoord {
    pub q: i32,
    pub r: i32,
}

/// A coordinate is viewed as the pair of mathematical integers `(q, r)`.
impl View for AxialCoord {
    type V = (int, int);

    open spec fn view(&self) -> (int, int) {
        (self.q as int, self.r as int)
    }
}

/// The offset of neighbour direction `d`; directions are taken modulo 6:
/// 0 east, 1 north-east, 2 north-west, 3 west, 4 south-west, 5 south-east.
pub open spec fn direction_offset(d: int) -> (int, int) {
    let k = d % 6;
    if k == 0 {
        (1, 0)
    } else if k == 1 {
        (0, 1)
    } else if k == 2 {
        (-1, 1)
    } else if k == 3 {
        (-1, 0)
    } else if k == 4 {
        (0, -1)
    } else {
        (1, -1)
    }
}

/// The cell one step from `p` in direction `d`.
pub open spec fn step(p: (int, int), d: int) -> (int, int) {
    (p.0 + direction_offset(d).0, p.1 + direction_offset(d).1)
}

/// The cell reached from `p` by taking the steps `dirs` in order.
pub open spec fn walk(p: (int, int), dirs: Seq<u8>) -> (int, int)
    decreases dirs.len(),
{
    if dirs.len() == 0 {
        p
    } else {
        walk(step(p, dirs[0] as int), dirs.drop_first())
    }
}

pub open spec fn abs_int(x: int) -> int {
    if x < 0 {
        -x
    } else {
        x
    }
}

pub open spec fn max_int(a: int, b: int) -> int {
    if a >= b {
        a
    } else {
        b
    }
}

/// Grid distance: the largest of the differences of the three cube
/// coordinates `q`, `r` and `s = -q - r`.
pub open spec fn hex_dist(a: (int, int), b: (int, int)) -> int {
    max_int(
        max_int(abs_int(a.0 - b.0), abs_int(a.1 - b.1)),
        abs_int(-a.0 - a.1 + b.0 + b.1),
    )
}

/// Whether both coordinates of `p` fit in an `i32`.
pub open spec fn fits_i32(p: (int, int)) -> bool {
    &&& i32::MIN <= p.0 <= i32::MAX
    &&& i32::MIN <= p.1 <= i32::MAX
}

/// One of the three cube coordinates `q`, `r` and `s = -q - r`.
#[derive(Debug, Clone, Copy, PartialEq, Eq, Structural)]
pub enum CubeAxis {
    Q,
    R,
    S,
}

impl AxialCoord {
    /// Creates the axial coordinate `(q, r)`.
    pub fn new(q: i32, r: i32) -> (c: AxialCoord)
        ensures
            c.q == q,
            c.r == r,
    {
        AxialCoord { q, r }
    }

    /// The neighbouring cell in `direction` (taken modulo 6; see
    /// `direction_offset`). The neighbour must be representable.
    pub fn neighbor(&self, direction: u8) -> (n: AxialCoord)
        requires
            fits_i32(step(self@, direction as int)),
        ensures
            n@ == step(self@, direction as int),
    {
        let d: u8 = direction % 6;
        let (dq, dr): (i32, i32) = if d == 0 {
            (1, 0)
        } else if d == 1 {
            (0, 1)
        } else if d == 2 {
            (-1, 1)
        } else if d == 3 {
            (-1, 0)
        } else if d == 4 {
            (0, -1)
        } else {
            (1, -1)
        };
        AxialCoord::new(self.q + dq, self.r + dr)
    }

    /// The grid distance to `other`: the number of steps of a shortest
    /// walk between the two cells (see `lemma_distance_is_shortest_walk`).
    pub fn hex_distance(&self, other: &AxialCoord) -> (d: i32)
        requires
            hex_dist(self@, other@) <= i32::MAX,
        ensures
            d == hex_dist(self@, other@),
    {
        let dq: i64 = self.q as i64 - other.q as i64;
        let dr: i64 = self.r as i64 - other.r as i64;
        let ds: i64 = -(self.q as i64) - self.r as i64 + other.q as i64 + other.r as i64;
        let aq: i64 = if dq < 0 {
            -dq
        } else {
            dq
        };
        let ar: i64 = if dr < 0 {
            -dr
        } else {
            dr
        };
        let as_: i64 = if ds < 0 {
            -ds
        } else {
            ds
        };
        let m1: i64 = if aq >= ar {
            aq
        } else {
            ar
        };
        let m: i64 = if m1 >= as_ {
            m1
        } else {
            as_
        };
        m as i32
    }

    /// The neighbouring cell in `direction`, or `None` when it lies outside
    /// the range of `i32` coordinates.
    pub fn checked_neighbor(&self, direction: u8) -> (n: Option<AxialCoord>)
        ensures
            match n {
                Some(c) => fits_i32(step(self@, direction as int)) && c@ == step(
                    self@,
                    direction as int,
                ),
                None => !fits_i32(step(self@, direction as int)),
            },
    {
        let d: u8 = direction % 6;
        let q: i64 = self.q as i64 + if d == 0 || d == 5 {
            1
        } else if d == 2 || d == 3 {
            -1
        } else {
            0
        };
        let r: i64 = self.r as i64 + if d == 1 || d == 2 {
            1
        } else if d == 4 || d == 5 {
            -1
        } else {
            0
        };
        if q < i32::MIN as i64 || q > i32::MAX as i64 || r < i32::MIN as i64 || r
            > i32::MAX as i64 {
            None
        } else {
            Some(self.neighbor(direction))
        }
    }

    /// The grid distance to `other`, or `None` when it exceeds `i32::MAX`.
    pub fn checked_hex_distance(&self, other: &AxialCoord) -> (d: Option<i32>)
        ensures
            match d {
                Some(k) => k == hex_dist(self@, other@),
                None => hex_dist(self@, other@) > i32::MAX,
            },
    {
        let dq: i64 = self.q as i64 - other.q as i64;
        let dr: i64 = self.r as i64 - other.r as i64;
        let ds: i64 = -(self.q as i64) - self.r as i64 + other.q as i64 + other.r as i64;
        if dq > i32::MAX as i64 || -dq > i32::MAX as i64 || dr > i32::MAX as i64 || -dr
            > i32::MAX as i64 || ds > i32::MAX as i64 || -ds > i32::MAX as i64 {
            None
        } else {
            Some(self.hex_distance(other))
        }
    }

    /// Reconciles cube coordinates `(q, r, s)` that were rounded one by
    /// one into an axial coordinate, so that the result is the nearest hex:
    /// the coordinate that moved most in rounding is the one recomputed
    /// from the other two. When it is `q`, `q = -r - s` and `r` is kept;
    /// when it is `r`, `q` is kept and `r = -q - s`; when it is `s`, `q`
    /// and `r` are kept as they are. `None` when the recomputed coordinate
    /// does not fit in an `i32`.
    pub fn from_rounded_cube(q: i32, r: i32, s: i32, moved_most: CubeAxis) -> (c: Option<
        AxialCoord,
    >)
        ensures
            moved_most == CubeAxis::Q ==> match c {
                Some(c) => c.q == -r - s && c.r == r,
                None => !(i32::MIN <= -r - s <= i32::MAX),
            },
            moved_most == CubeAxis::R ==> match c {
                Some(c) => c.q == q && c.r == -q - s,
                None => !(i32::MIN <= -q - s <= i32::MAX),
            },
            moved_most == CubeAxis::S ==> c == Some(AxialCoord { q, r }),
    {
        match moved_most {
            CubeAxis::Q => {
                let fixed: i64 = -(r as i64) - s as i64;
                if fixed < i32::MIN as i64 || fixed > i32::MAX as i64 {
                    None
                } else {
                    Some(AxialCoord::new(fixed as i32, r))
                }
            },
            CubeAxis::R => {
                let fixed: i64 = -(q as i64) - s as i64;
                if fixed < i32::MIN as i64 || fixed > i32::MAX as i64 {
                    None
                } else {
                    Some(AxialCoord::new(q, fixed as i32))
                }
            },
            CubeAxis::S => Some(AxialCoord::new(q, r)),
        }
    }
}

/// Grid distance is symmetric.
pub proof fn lemma_distance_symmetric(a: (int, int), b: (int, int))
    ensures
        hex_dist(a, b) == hex_dist(b, a),
{
}

/// Grid distance is never negative, and it is zero exactly between a cell
/// and itself.
pub proof fn lemma_distance_zero(a: (int, int), b: (int, int))
    ensures
        hex_dist(a, b) >= 0,
        hex_dist(a, b) == 0 <==> a == b,
{
}

/// Grid distance satisfies the triangle inequality.
pub proof fn lemma_distance_triangle(a: (int, int), b: (int, int), c: (int, int))
    ensures
        hex_dist(a, c) <= hex_dist(a, b) + hex_dist(b, c),
{
}

/// Every neighbour of a cell is at grid distance 1 from it.
pub proof fn lemma_neighbor_distance(p: (int, int), d: int)
    ensures
        hex_dist(p, step(p, d)) == 1,
{
}

/// Directions repeat with period 6: `d` and `d % 6` name the same neighbour.
pub proof fn lemma_direction_period(p: (int, int), d: int)
    ensures
        step(p, d) == step(p, d % 6),
        step(p, d + 6) == step(p, d),
{
}

/// A cell has six distinct neighbours: directions that differ modulo 6
/// lead to different cells.
pub proof fn lemma_neighbors_distinct(p: (int, int), d1: int, d2: int)
    requires
        d1 % 6 != d2 % 6,
    ensures
        step(p, d1) != step(p, d2),
{
}

/// A step in direction `d + 3` (the opposite direction) undoes a step in
/// direction `d`.
pub proof fn lemma_opposite_step_undoes(p: (int, int), d: int)
    ensures
        step(step(p, d), d + 3) == p,
{
}

/// A walk of `n` steps never ends farther than `n` from where it started.
pub proof fn lemma_walk_within_length(p: (int, int), dirs: Seq<u8>)
    ensures
        hex_dist(p, walk(p, dirs)) <= dirs.len(),
    decreases dirs.len(),
{
    if dirs.len() > 0 {
        let next = step(p, dirs[0] as int);
        lemma_walk_within_length(next, dirs.drop_first());
        lemma_neighbor_distance(p, dirs[0] as int);
        lemma_distance_triangle(p, next, walk(next, dirs.drop_first()));
    }
}

/// The direction of a first step from `a` on a shortest walk to `b`.
pub open spec fn direction_toward(a: (int, int), b: (int, int)) -> u8 {
    let dq = b.0 - a.0;
    let dr = b.1 - a.1;
    if dq > 0 && dr < 0 {
        5
    } else if dq < 0 && dr > 0 {
        2
    } else if dq > 0 {
        0
    } else if dq < 0 {
        3
    } else if dr > 0 {
        1
    } else {
        4
    }
}

/// Stepping from `a` toward a different cell `b` brings it one closer.
pub proof fn lemma_step_toward_is_closer(a: (int, int), b: (int, int))
    requires
        a != b,
    ensures
        hex_dist(step(a, direction_toward(a, b) as int), b) == hex_dist(a, b) - 1,
{
}

/// A walk from `a` to `b` with exactly `hex_dist(a, b)` steps.
pub proof fn lemma_shortest_walk(a: (int, int), b: (int, int)) -> (dirs: Seq<u8>)
    ensures
        walk(a, dirs) == b,
        dirs.len() == hex_dist(a, b),
    decreases hex_dist(a, b),
{
    lemma_distance_zero(a, b);
    if a == b {
        Seq::empty()
    } else {
        let d = direction_toward(a, b);
        let next = step(a, d as int);
        lemma_step_toward_is_closer(a, b);
        let rest = lemma_shortest_walk(next, b);
        let dirs = seq![d] + rest;
        assert(dirs.drop_first() =~= rest);
        dirs
    }
}

/// The grid distance between two cells is the number of steps of a
/// shortest walk between them: no walk from `a` to `b` is shorter, and
/// one walk has exactly that many steps.
pub proof fn lemma_distance_is_shortest_walk(a: (int, int), b: (int, int))
    ensures
        forall|dirs: Seq<u8>| #[trigger] walk(a, dirs) == b ==> hex_dist(a, b) <= dirs.len(),
        exists|dirs: Seq<u8>| #[trigger] walk(a, dirs) == b && dirs.len() == hex_dist(a, b),
{
    assert forall|dirs: Seq<u8>| #[trigger] walk(a, dirs) == b implies hex_dist(a, b)
        <= dirs.len() by {
        lemma_walk_within_length(a, dirs);
    }
    let w = lemma_shortest_walk(a, b);
    assert(walk(a, w) == b && w.len() == hex_dist(a, b));
}

} // verus!
