//! One lattice cell: its four-wall bitfield, its visited flag and its
//! coordinates, together with the wall-direction geometry shared by the
//! grid and the generator.

use vstd::prelude::*;

verus! {

/// One of the four walls around a cell.  The positive y axis points up,
/// so `Top` faces the neighbour at `(x, y + 1)`.
#[derive(Clone, Copy, Debug, PartialEq, Eq, Structural)]
pub enum Wall {
    Top,
    Right,
    Bottom,
    Left,
}

/// The bit that stands for wall `w` in a `WallSet` bitfield.
pub open spec fn wall_bit(w: Wall) -> u8 {
    match w {
        Wall::Top => 0x1,
        Wall::Right => 0x2,
        Wall::Bottom => 0x4,
        Wall::Left => 0x8,
    }
}

/// The wall on the opposite side: the one a neighbour presents back.
pub open spec fn opposite(w: Wall) -> Wall {
    match w {
        Wall::Top => Wall::Bottom,
        Wall::Right => Wall::Left,
        Wall::Bottom => Wall::Top,
        Wall::Left => Wall::Right,
    }
}

/// The coordinates of a cell position as mathematical integers.
pub open spec fn pv(p: (i32, i32)) -> (int, int) {
    (p.0 as int, p.1 as int)
}

/// Positions `a` and `b` differ by exactly one in exactly one axis.
pub open spec fn adjacent(a: (int, int), b: (int, int)) -> bool {
    let dx = a.0 - b.0;
    let dy = a.1 - b.1;
    (dy == 0 && (dx == 1 || dx == -1)) || (dx == 0 && (dy == 1 || dy == -1))
}

/// The wall of `a` that faces `b`, meaningful when `a` and `b` are
/// adjacent.
pub open spec fn wall_dir(a: (int, int), b: (int, int)) -> Wall {
    if a.0 < b.0 {
        Wall::Right
    } else if a.0 > b.0 {
        Wall::Left
    } else if a.1 < b.1 {
        Wall::Top
    } else {
        Wall::Bottom
    }
}

/// The position one cell away from `(x, y)`, through wall `w`.
pub open spec fn neighbor_pos(x: int, y: int, w: Wall) -> (int, int) {
    match w {
        Wall::Top => (x, y + 1),
        Wall::Right => (x + 1, y),
        Wall::Bottom => (x, y - 1),
        Wall::Left => (x - 1, y),
    }
}

/// Two adjacent cells face each other through complementary walls.
pub proof fn lemma_wall_dir_reciprocal(a: (int, int), b: (int, int))
    requires
        adjacent(a, b),
    ensures
        wall_dir(a, b) == opposite(wall_dir(b, a)),
{
}

/// `b` lies exactly behind the wall of `a` that faces `b`.
pub proof fn lemma_wall_dir_neighbor(a: (int, int), b: (int, int))
    requires
        adjacent(a, b),
    ensures
        neighbor_pos(a.0, a.1, wall_dir(a, b)) == b,
{
}

/// The neighbour behind wall `w` is adjacent, and `w` is the wall that
/// faces it; distinct walls lead to distinct neighbours.
pub proof fn lemma_neighbor_pos_facts(x: int, y: int, w: Wall)
    ensures
        adjacent((x, y), neighbor_pos(x, y, w)),
        adjacent(neighbor_pos(x, y, w), (x, y)),
        wall_dir((x, y), neighbor_pos(x, y, w)) == w,
        neighbor_pos(neighbor_pos(x, y, w).0, neighbor_pos(x, y, w).1, opposite(w)) == (x, y),
        wall_dir(neighbor_pos(x, y, w), (x, y)) == opposite(w),
{
}

/// Which of the four walls around a cell are standing, as a bitfield.
#[derive(Clone, Copy, Debug, PartialEq, Eq, Structural)]
pub struct WallSet {
    pub bits: u8,
}

/// The bit for wall `w`, as executable code.
fn wall_mask(w: Wall) -> (r: u8)
    ensures
        r == wall_bit(w),
{
    match w {
        Wall::Top => 0x1,
        Wall::Right => 0x2,
        Wall::Bottom => 0x4,
        Wall::Left => 0x8,
    }
}

/// Clearing one of the four wall bits clears exactly that bit.
proof fn lemma_bits_remove()
    ensures
        forall|b: u8, m: u8, k: u8|
            (m == 1 || m == 2 || m == 4 || m == 8) && (k == 1 || k == 2 || k == 4 || k == 8)
                ==> #[trigger] ((b & !m) & k) == (if k == m { 0u8 } else { b & k }),
{
    assert(forall|b: u8, m: u8, k: u8|
        (m == 1 || m == 2 || m == 4 || m == 8) && (k == 1 || k == 2 || k == 4 || k == 8)
            ==> #[trigger] ((b & !m) & k) == (if k == m { 0u8 } else { b & k })) by (bit_vector);
}

/// All four walls of `ws` are standing.
pub open spec fn all_walls(ws: WallSet) -> bool {
    forall|w: Wall| #[trigger] ws.has(w)
}

impl WallSet {
    /// Wall `w` is standing.
    pub open spec fn has(self, w: Wall) -> bool {
        self.bits & wall_bit(w) != 0
    }

    /// How many of the four walls are standing.
    pub open spec fn count(self) -> int {
        (if self.has(Wall::Top) { 1int } else { 0int })
            + (if self.has(Wall::Right) { 1int } else { 0int })
            + (if self.has(Wall::Bottom) { 1int } else { 0int })
            + (if self.has(Wall::Left) { 1int } else { 0int })
    }

    /// All four walls standing: the state of a freshly created cell.
    pub fn all() -> (r: WallSet)
        ensures
            forall|w: Wall| r.has(w),
    {
        let r = WallSet { bits: 0xF };
        proof {
            assert(0xFu8 & 0x1 != 0) by (bit_vector);
            assert(0xFu8 & 0x2 != 0) by (bit_vector);
            assert(0xFu8 & 0x4 != 0) by (bit_vector);
            assert(0xFu8 & 0x8 != 0) by (bit_vector);
            assert forall|w: Wall| r.has(w) by {
                match w {
                    Wall::Top => assert(r.has(Wall::Top)),
                    Wall::Right => assert(r.has(Wall::Right)),
                    Wall::Bottom => assert(r.has(Wall::Bottom)),
                    Wall::Left => assert(r.has(Wall::Left)),
                }
            }
        }
        r
    }

    /// Whether wall `w` is standing.
    pub fn contains(&self, w: Wall) -> (r: bool)
        ensures
            r == self.has(w),
    {
        self.bits & wall_mask(w) != 0
    }

    /// Take wall `w` down; every other wall is untouched.
    pub fn remove(&mut self, w: Wall)
        ensures
            forall|w2: Wall| final(self).has(w2) == (old(self).has(w2) && w2 != w),
    {
        let m = wall_mask(w);
        let b = self.bits;
        self.bits = b & !m;
        proof {
            lemma_bits_remove();
            assert forall|w2: Wall| self.has(w2) == (old(self).has(w2) && w2 != w) by {
                assert(wall_bit(w) == 1 || wall_bit(w) == 2 || wall_bit(w) == 4 || wall_bit(w)
                    == 8);
                assert(wall_bit(w2) == 1 || wall_bit(w2) == 2 || wall_bit(w2) == 4 || wall_bit(w2)
                    == 8);
                assert((wall_bit(w2) == wall_bit(w)) == (w2 == w));
                assert((b & !wall_bit(w)) & wall_bit(w2) == (if wall_bit(w2) == wall_bit(w) {
                    0u8
                } else {
                    b & wall_bit(w2)
                }));
            }
        }
    }
}

/// One lattice position: its standing walls, its visited flag and its
/// immutable coordinates.
#[derive(Clone, Copy, Debug)]
pub struct Cell {
    pub walls: WallSet,
    pub visited: bool,
    pub pos: (i32, i32),
}

impl Cell {
    /// A fresh cell at `pos`: unvisited, with all four walls standing.
    pub fn new(pos: (i32, i32)) -> (r: Cell)
        ensures
            r.pos == pos,
            !r.visited,
            forall|w: Wall| r.walls.has(w),
    {
        Cell { walls: WallSet::all(), visited: false, pos }
    }

    /// The wall of `self` that faces the adjacent cell `other`.
    pub fn get_wall_dir(&self, other: &Cell) -> (r: Wall)
        requires
            adjacent(pv(self.pos), pv(other.pos)),
        ensures
            r == wall_dir(pv(self.pos), pv(other.pos)),
    {
        if self.pos.0 < other.pos.0 {
            Wall::Right
        } else if self.pos.0 > other.pos.0 {
            Wall::Left
        } else if self.pos.1 < other.pos.1 {
            Wall::Top
        } else {
            Wall::Bottom
        }
    }

    /// Mark the cell visited; walls and position are untouched.
    pub fn visit_cell(&mut self)
        ensures
            final(self).visited,
            final(self).walls == old(self).walls,
            final(self).pos == old(self).pos,
    {
        self.visited = true;
    }

    /// Take wall `w` of this cell down; everything else is untouched.
    pub fn remove_wall(&mut self, w: Wall)
        ensures
            final(self).visited == old(self).visited,
            final(self).pos == old(self).pos,
            forall|w2: Wall|
                final(self).walls.has(w2) == (old(self).walls.has(w2) && w2 != w),
    {
        self.walls.remove(w);
    }
}

} // verus!
