//! The rectangular lattice: a fully populated, fixed-size collection of
//! cells in row-major order, with bounds-checked lookup, neighbour
//! enumeration and the wall-mutation operations the generator drives.

use vstd::prelude::*;

use crate::cell::{adjacent, all_walls, neighbor_pos, opposite, pv, wall_dir, Cell, Wall};
use crate::cell::{lemma_neighbor_pos_facts, lemma_wall_dir_neighbor};

verus! {

/// Why a grid or wall query is refused.
#[derive(Clone, Copy, Debug, PartialEq, Eq, Structural)]
pub enum MazeError {
    /// A grid was requested with a non-positive width or height.
    InvalidDimensions,
    /// A wall direction was asked of two positions that share no wall.
    NotAdjacent,
}

/// How many of the cells in `s` are visited.
pub open spec fn count_visited_seq(s: Seq<Cell>) -> int
    decreases s.len(),
{
    if s.len() == 0 {
        0
    } else {
        count_visited_seq(s.drop_last()) + if s.last().visited {
            1int
        } else {
            0int
        }
    }
}

/// How many single walls have been taken down over all cells in `s`.
/// Each carved passage is counted once from either side, so a perfect
/// maze on `n` cells shows `2 * (n - 1)` here.
pub open spec fn removed_walls_seq(s: Seq<Cell>) -> int
    decreases s.len(),
{
    if s.len() == 0 {
        0
    } else {
        removed_walls_seq(s.drop_last()) + (4 - s.last().walls.count())
    }
}

/// The visited count lies between zero and the number of cells.
pub proof fn lemma_count_visited_bounds(s: Seq<Cell>)
    ensures
        0 <= count_visited_seq(s) <= s.len(),
    decreases s.len(),
{
    if s.len() > 0 {
        lemma_count_visited_bounds(s.drop_last());
    }
}

/// Replacing one cell shifts the visited count by the two flags alone.
pub proof fn lemma_count_visited_update(s: Seq<Cell>, i: int, c: Cell)
    requires
        0 <= i < s.len(),
    ensures
        count_visited_seq(s.update(i, c)) == count_visited_seq(s) - (if s[i].visited {
            1int
        } else {
            0int
        }) + (if c.visited {
            1int
        } else {
            0int
        }),
    decreases s.len(),
{
    let t = s.update(i, c);
    if i == s.len() - 1 {
        assert(t.drop_last() =~= s.drop_last());
        assert(t.last() == c);
    } else {
        assert(t.drop_last() =~= s.drop_last().update(i, c));
        assert(t.last() == s.last());
        lemma_count_visited_update(s.drop_last(), i, c);
    }
}

/// When every cell is visited the count is the number of cells.
pub proof fn lemma_count_visited_all(s: Seq<Cell>)
    requires
        forall|k: int| 0 <= k < s.len() ==> (#[trigger] s[k]).visited,
    ensures
        count_visited_seq(s) == s.len(),
    decreases s.len(),
{
    if s.len() > 0 {
        lemma_count_visited_all(s.drop_last());
    }
}

/// Replacing one cell shifts the removed-wall total by that cell alone.
pub proof fn lemma_removed_walls_update(s: Seq<Cell>, i: int, c: Cell)
    requires
        0 <= i < s.len(),
    ensures
        removed_walls_seq(s.update(i, c)) == removed_walls_seq(s) - (4 - s[i].walls.count()) + (4
            - c.walls.count()),
    decreases s.len(),
{
    let t = s.update(i, c);
    if i == s.len() - 1 {
        assert(t.drop_last() =~= s.drop_last());
        assert(t.last() == c);
    } else {
        assert(t.drop_last() =~= s.drop_last().update(i, c));
        assert(t.last() == s.last());
        lemma_removed_walls_update(s.drop_last(), i, c);
    }
}

/// A rectangular lattice of cells, fully populated at construction and
/// never resized.
#[derive(Debug)]
pub struct Grid {
    pub width: i32,
    pub height: i32,
    pub cells: Vec<Cell>,
}

impl Grid {
    /// `(x, y)` lies on the lattice.
    pub open spec fn in_bounds(self, x: int, y: int) -> bool {
        0 <= x < self.width && 0 <= y < self.height
    }

    /// Row-major index of `(x, y)` in `cells`.
    pub open spec fn idx(self, x: int, y: int) -> int {
        x * self.height + y
    }

    /// The number of cells on the lattice.
    pub open spec fn area(self) -> int {
        self.width as int * self.height as int
    }

    /// The cell at `(x, y)`.
    pub open spec fn cell(self, x: int, y: int) -> Cell {
        self.cells[self.idx(x, y)]
    }

    /// The cell at `(x, y)` has been visited.
    pub open spec fn visited_at(self, x: int, y: int) -> bool {
        self.cell(x, y).visited
    }

    /// Wall `w` of the cell at `(x, y)` is standing.
    pub open spec fn has_wall_at(self, x: int, y: int, w: Wall) -> bool {
        self.cell(x, y).walls.has(w)
    }

    /// Structural well-formedness: positive dimensions, one cell per
    /// lattice position, each cell carrying its own coordinates.
    pub open spec fn wf(self) -> bool {
        &&& 1 <= self.width
        &&& 1 <= self.height
        &&& self.cells.len() == self.area()
        &&& forall|x: int, y: int|
            self.in_bounds(x, y) ==> (#[trigger] self.cell(x, y)).pos == (x as i32, y as i32)
    }

    /// No cell visited and every wall standing: a grid on which no
    /// generation step has run yet.
    pub open spec fn fresh(self) -> bool {
        forall|x: int, y: int|
            self.in_bounds(x, y) ==> {
                &&& !(#[trigger] self.cell(x, y)).visited
                &&& forall|w: Wall| self.cell(x, y).walls.has(w)
            }
    }

    /// Every in-bounds neighbour of `(x, y)` is visited.
    pub open spec fn neighbors_visited(self, x: int, y: int) -> bool {
        forall|w: Wall|
            #![trigger neighbor_pos(x, y, w)]
            self.in_bounds(neighbor_pos(x, y, w).0, neighbor_pos(x, y, w).1)
                ==> self.visited_at(neighbor_pos(x, y, w).0, neighbor_pos(x, y, w).1)
    }

    /// The wall state is globally consistent: walls toward the outside of
    /// the lattice stand, facing walls of neighbours agree, and unvisited
    /// cells still have all four walls.
    pub open spec fn walls_consistent(self) -> bool {
        &&& forall|x: int, y: int, w: Wall|
            #![trigger self.has_wall_at(x, y, w)]
            self.in_bounds(x, y) && !self.in_bounds(neighbor_pos(x, y, w).0, neighbor_pos(x, y, w).1)
                ==> self.has_wall_at(x, y, w)
        &&& forall|x: int, y: int, w: Wall|
            #![trigger self.has_wall_at(x, y, w)]
            self.in_bounds(x, y) && self.in_bounds(neighbor_pos(x, y, w).0, neighbor_pos(x, y, w).1)
                ==> (self.has_wall_at(x, y, w) <==> self.has_wall_at(
                neighbor_pos(x, y, w).0,
                neighbor_pos(x, y, w).1,
                opposite(w),
            ))
        &&& forall|x: int, y: int, w: Wall|
            #![trigger self.has_wall_at(x, y, w)]
            self.in_bounds(x, y) && !self.visited_at(x, y) ==> self.has_wall_at(x, y, w)
    }

    /// The row-major index of an in-bounds position lies inside `cells`.
    pub proof fn lemma_idx_bounds(self, x: int, y: int)
        requires
            self.in_bounds(x, y),
        ensures
            0 <= self.idx(x, y) < self.area(),
    {
        assert(0 <= x * self.height + y && x * self.height + y < self.width as int
            * self.height as int) by (nonlinear_arith)
            requires
                0 <= x < self.width as int,
                0 <= y < self.height as int,
        ;
    }

    /// Distinct in-bounds positions have distinct row-major indices.
    pub proof fn lemma_idx_injective(self, x1: int, y1: int, x2: int, y2: int)
        requires
            self.in_bounds(x1, y1),
            self.in_bounds(x2, y2),
            self.idx(x1, y1) == self.idx(x2, y2),
        ensures
            x1 == x2 && y1 == y2,
    {
        assert(x1 == x2 && y1 == y2) by (nonlinear_arith)
            requires
                0 <= y1 < self.height as int,
                0 <= y2 < self.height as int,
                x1 * self.height + y1 == x2 * self.height + y2,
        ;
    }

    /// Every index into `cells` is the row-major index of an in-bounds
    /// position.
    pub proof fn lemma_idx_surjective(self, k: int)
        requires
            self.wf(),
            0 <= k < self.cells.len(),
        ensures
            self.in_bounds(k / (self.height as int), k % (self.height as int)),
            self.idx(k / (self.height as int), k % (self.height as int)) == k,
    {
        let h = self.height as int;
        vstd::arithmetic::div_mod::lemma_fundamental_div_mod(k, h);
        vstd::arithmetic::div_mod::lemma_mod_bound(k, h);
        vstd::arithmetic::div_mod::lemma_div_pos_is_pos(k, h);
        if k / h >= self.width as int {
            assert(h * (k / h) >= h * (self.width as int)) by (nonlinear_arith)
                requires
                    k / h >= self.width as int,
                    h >= 1,
            ;
            assert(h * (self.width as int) == self.area());
        }
        assert(self.idx(k / h, k % h) == (k / h) * h + k % h);
        assert((k / h) * h == h * (k / h)) by (nonlinear_arith);
    }

    /// Row-major index, as executable code.
    fn index_of(&self, x: i32, y: i32) -> (r: usize)
        requires
            self.wf(),
            self.in_bounds(x as int, y as int),
        ensures
            r == self.idx(x as int, y as int),
    {
        proof {
            self.lemma_idx_bounds(x as int, y as int);
        }
        (x as usize) * (self.height as usize) + (y as usize)
    }

    /// Read access to the cell at `(x, y)`.
    pub fn cell_at(&self, x: i32, y: i32) -> (r: &Cell)
        requires
            self.wf(),
            self.in_bounds(x as int, y as int),
        ensures
            *r == self.cell(x as int, y as int),
    {
        let i = self.index_of(x, y);
        proof {
            self.lemma_idx_bounds(x as int, y as int);
        }
        &self.cells[i]
    }

    /// The identity of the cell at `(x, y)`: its own position when it
    /// lies on the lattice, nothing otherwise.
    pub fn get_cell_entity(&self, x: i32, y: i32) -> (r: Option<(i32, i32)>)
        ensures
            r == if self.in_bounds(x as int, y as int) {
                Some((x, y))
            } else {
                None::<(i32, i32)>
            },
    {
        if x < 0 || x >= self.width || y < 0 || y >= self.height {
            return None;
        }
        Some((x, y))
    }

    /// The wall of `a` that faces `b`, for two positions that share a
    /// wall; refused when `a` and `b` are not axis-adjacent.
    pub fn wall_between(a: (i32, i32), b: (i32, i32)) -> (r: Result<Wall, MazeError>)
        ensures
            adjacent(pv(a), pv(b)) <==> r is Ok,
            r is Ok ==> r == Result::<Wall, MazeError>::Ok(wall_dir(pv(a), pv(b))),
            r is Err ==> r == Result::<Wall, MazeError>::Err(MazeError::NotAdjacent),
    {
        let dx: i64 = (a.0 as i64) - (b.0 as i64);
        let dy: i64 = (a.1 as i64) - (b.1 as i64);
        if dy == 0 && dx == -1 {
            Ok(Wall::Right)
        } else if dy == 0 && dx == 1 {
            Ok(Wall::Left)
        } else if dx == 0 && dy == -1 {
            Ok(Wall::Top)
        } else if dx == 0 && dy == 1 {
            Ok(Wall::Bottom)
        } else {
            Err(MazeError::NotAdjacent)
        }
    }

    /// The in-bounds axis neighbours of `(x, y)`, in the fixed order
    /// left, below, right, above.  Generation does not rely on this
    /// order: the generator picks among the result at random.
    pub fn get_cell_neighbour_entities(&self, x: i32, y: i32) -> (r: Vec<(i32, i32)>)
        requires
            self.in_bounds(x as int, y as int),
        ensures
            r@.len() <= 4,
            r@.no_duplicates(),
            forall|i: int|
                0 <= i < r@.len() ==> {
                    let p = pv(#[trigger] r@[i]);
                    self.in_bounds(p.0, p.1) && adjacent(p, (x as int, y as int))
                },
            forall|w: Wall|
                #![trigger neighbor_pos(x as int, y as int, w)]
                self.in_bounds(
                    neighbor_pos(x as int, y as int, w).0,
                    neighbor_pos(x as int, y as int, w).1,
                ) ==> exists|i: int|
                    0 <= i < r@.len() && pv(#[trigger] r@[i]) == neighbor_pos(
                        x as int,
                        y as int,
                        w,
                    ),
    {
        let mut r: Vec<(i32, i32)> = Vec::new();
        let ghost mut at_left: int = -1;
        let ghost mut at_below: int = -1;
        let ghost mut at_right: int = -1;
        let ghost mut at_above: int = -1;
        if x >= 1 {
            proof {
                at_left = r@.len() as int;
            }
            r.push((x - 1, y));
        }
        if y >= 1 {
            proof {
                at_below = r@.len() as int;
            }
            r.push((x, y - 1));
        }
        if x + 1 < self.width {
            proof {
                at_right = r@.len() as int;
            }
            r.push((x + 1, y));
        }
        if y + 1 < self.height {
            proof {
                at_above = r@.len() as int;
            }
            r.push((x, y + 1));
        }
        proof {
            let s = r@;
            let xi = x as int;
            let yi = y as int;
            assert forall|w: Wall|
                self.in_bounds(
                    neighbor_pos(xi, yi, w).0,
                    neighbor_pos(xi, yi, w).1,
                ) implies exists|i: int|
                0 <= i < s.len() && pv(#[trigger] s[i]) == neighbor_pos(xi, yi, w) by {
                match w {
                    Wall::Left => {
                        assert(0 <= at_left < s.len() && pv(s[at_left]) == (xi - 1, yi));
                    },
                    Wall::Bottom => {
                        assert(0 <= at_below < s.len() && pv(s[at_below]) == (xi, yi - 1));
                    },
                    Wall::Right => {
                        assert(0 <= at_right < s.len() && pv(s[at_right]) == (xi + 1, yi));
                    },
                    Wall::Top => {
                        assert(0 <= at_above < s.len() && pv(s[at_above]) == (xi, yi + 1));
                    },
                }
            }
        }
        r
    }

    /// Mark the cell at `(x, y)` visited; every other cell, and its own
    /// walls and position, are untouched.
    pub(crate) fn visit_at(&mut self, x: i32, y: i32)
        requires
            old(self).wf(),
            old(self).in_bounds(x as int, y as int),
        ensures
            final(self).wf(),
            final(self).width == old(self).width,
            final(self).height == old(self).height,
            final(self).visited_at(x as int, y as int),
            final(self).cell(x as int, y as int).walls == old(self).cell(
                x as int,
                y as int,
            ).walls,
            final(self).cell(x as int, y as int).pos == old(self).cell(x as int, y as int).pos,
            forall|a: int, b: int|
                old(self).in_bounds(a, b) && (a, b) != (x as int, y as int) ==> final(self).cell(
                    a,
                    b,
                ) == old(self).cell(a, b),
            count_visited_seq(final(self).cells@) == count_visited_seq(old(self).cells@) + (
            if old(self).visited_at(x as int, y as int) {
                0int
            } else {
                1int
            }),
            removed_walls_seq(final(self).cells@) == removed_walls_seq(old(self).cells@),
    {
        let i = self.index_of(x, y);
        proof {
            self.lemma_idx_bounds(x as int, y as int);
        }
        let mut c = self.cells[i];
        c.visit_cell();
        self.cells[i] = c;
        proof {
            let g0 = *old(self);
            let xi = x as int;
            let yi = y as int;
            lemma_count_visited_update(g0.cells@, i as int, c);
            lemma_removed_walls_update(g0.cells@, i as int, c);
            assert forall|a: int, b: int|
                g0.in_bounds(a, b) && (a, b) != (xi, yi) implies self.cell(a, b) == g0.cell(
                a,
                b,
            ) by {
                g0.lemma_idx_bounds(a, b);
                if g0.idx(a, b) == g0.idx(xi, yi) {
                    g0.lemma_idx_injective(a, b, xi, yi);
                }
            }
            assert forall|a: int, b: int| self.in_bounds(a, b) implies (#[trigger] self.cell(
                a,
                b,
            )).pos == (a as i32, b as i32) by {
                if (a, b) != (xi, yi) {
                    assert(self.cell(a, b) == g0.cell(a, b));
                }
            }
        }
    }

    /// Carve the passage between the visited cell `c` and its unvisited
    /// neighbour `n`: the facing wall falls on both sides, `n` becomes
    /// visited, and nothing else changes.
    pub(crate) fn carve_pair(&mut self, c: (i32, i32), n: (i32, i32))
        requires
            old(self).wf(),
            old(self).walls_consistent(),
            old(self).in_bounds(c.0 as int, c.1 as int),
            old(self).in_bounds(n.0 as int, n.1 as int),
            adjacent(pv(c), pv(n)),
            old(self).visited_at(c.0 as int, c.1 as int),
            !old(self).visited_at(n.0 as int, n.1 as int),
        ensures
            final(self).wf(),
            final(self).walls_consistent(),
            final(self).width == old(self).width,
            final(self).height == old(self).height,
            final(self).cell(c.0 as int, c.1 as int).pos == old(self).cell(
                c.0 as int,
                c.1 as int,
            ).pos,
            final(self).cell(c.0 as int, c.1 as int).visited == old(self).cell(
                c.0 as int,
                c.1 as int,
            ).visited,
            forall|w: Wall|
                final(self).has_wall_at(c.0 as int, c.1 as int, w) == (old(self).has_wall_at(
                    c.0 as int,
                    c.1 as int,
                    w,
                ) && w != wall_dir(pv(c), pv(n))),
            final(self).visited_at(n.0 as int, n.1 as int),
            final(self).cell(n.0 as int, n.1 as int).pos == old(self).cell(
                n.0 as int,
                n.1 as int,
            ).pos,
            forall|w: Wall|
                final(self).has_wall_at(n.0 as int, n.1 as int, w) == (old(self).has_wall_at(
                    n.0 as int,
                    n.1 as int,
                    w,
                ) && w != wall_dir(pv(n), pv(c))),
            forall|a: int, b: int|
                old(self).in_bounds(a, b) && (a, b) != pv(c) && (a, b) != pv(n)
                    ==> final(self).cell(a, b) == old(self).cell(a, b),
            count_visited_seq(final(self).cells@) == count_visited_seq(old(self).cells@) + 1,
            removed_walls_seq(final(self).cells@) == removed_walls_seq(old(self).cells@) + 2,
    {
        let ca = self.cell_at(c.0, c.1);
        let na = self.cell_at(n.0, n.1);
        let d1 = ca.get_wall_dir(na);
        let d2 = na.get_wall_dir(ca);
        let i = self.index_of(c.0, c.1);
        let j = self.index_of(n.0, n.1);
        proof {
            let g0 = *old(self);
            g0.lemma_idx_bounds(c.0 as int, c.1 as int);
            g0.lemma_idx_bounds(n.0 as int, n.1 as int);
            if g0.idx(c.0 as int, c.1 as int) == g0.idx(n.0 as int, n.1 as int) {
                g0.lemma_idx_injective(c.0 as int, c.1 as int, n.0 as int, n.1 as int);
            }
            crate::cell::lemma_wall_dir_reciprocal(pv(c), pv(n));
            lemma_wall_dir_neighbor(pv(c), pv(n));
            lemma_wall_dir_neighbor(pv(n), pv(c));
        }
        let mut cc = self.cells[i];
        cc.remove_wall(d1);
        self.cells[i] = cc;
        let mut cn = self.cells[j];
        cn.remove_wall(d2);
        cn.visit_cell();
        self.cells[j] = cn;
        proof {
            let g0 = *old(self);
            let g1 = *self;
            let cxi = c.0 as int;
            let cyi = c.1 as int;
            let nxi = n.0 as int;
            let nyi = n.1 as int;
            let mid = g0.cells@.update(g0.idx(cxi, cyi), cc);
            lemma_count_visited_update(g0.cells@, g0.idx(cxi, cyi), cc);
            lemma_removed_walls_update(g0.cells@, g0.idx(cxi, cyi), cc);
            lemma_count_visited_update(mid, g0.idx(nxi, nyi), cn);
            lemma_removed_walls_update(mid, g0.idx(nxi, nyi), cn);
            // the carved walls were standing beforehand
            assert(g0.has_wall_at(nxi, nyi, d2));
            assert(g0.has_wall_at(cxi, cyi, d1));
            // untouched cells
            assert forall|a: int, b: int|
                g0.in_bounds(a, b) && (a, b) != pv(c) && (a, b) != pv(n) implies g1.cell(a, b)
                == g0.cell(a, b) by {
                g0.lemma_idx_bounds(a, b);
                if g0.idx(a, b) == g0.idx(cxi, cyi) {
                    g0.lemma_idx_injective(a, b, cxi, cyi);
                }
                if g0.idx(a, b) == g0.idx(nxi, nyi) {
                    g0.lemma_idx_injective(a, b, nxi, nyi);
                }
            }
            // well-formedness: positions carried by the cells are kept
            assert forall|a: int, b: int| g1.in_bounds(a, b) implies (#[trigger] g1.cell(
                a,
                b,
            )).pos == (a as i32, b as i32) by {
                if (a, b) != pv(c) && (a, b) != pv(n) {
                    assert(g1.cell(a, b) == g0.cell(a, b));
                }
            }
            lemma_carve_consistent(g0, g1, c, n);
        }
    }

    /// Build a fresh `width` by `height` grid: one cell per position,
    /// every cell unvisited with all four walls standing.  Refused when
    /// either dimension is not positive.
    pub fn generate(width: i32, height: i32) -> (r: Result<Grid, MazeError>)
        requires
            width as int * height as int <= usize::MAX as int,
        ensures
            (width <= 0 || height <= 0) <==> r is Err,
            r is Err ==> r == Result::<Grid, MazeError>::Err(MazeError::InvalidDimensions),
            r is Ok ==> {
                let g = r.unwrap();
                &&& g.wf()
                &&& g.fresh()
                &&& g.walls_consistent()
                &&& g.width == width
                &&& g.height == height
                &&& count_visited_seq(g.cells@) == 0
                &&& removed_walls_seq(g.cells@) == 0
            },
    {
        if width <= 0 || height <= 0 {
            return Err(MazeError::InvalidDimensions);
        }
        let mut cells: Vec<Cell> = Vec::new();
        let mut x: i32 = 0;
        while x < width
            invariant
                0 <= x <= width,
                1 <= height,
                width as int * height as int <= usize::MAX as int,
                cells.len() == x as int * height as int,
                forall|xi: int, yi: int|
                    0 <= xi < x && 0 <= yi < height ==> fresh_cell_at(
                        cells@,
                        height as int,
                        xi,
                        yi,
                    ),
                count_visited_seq(cells@) == 0,
                removed_walls_seq(cells@) == 0,
            decreases width - x,
        {
            let mut y: i32 = 0;
            while y < height
                invariant
                    0 <= x < width,
                    0 <= y <= height,
                    1 <= height,
                    width as int * height as int <= usize::MAX as int,
                    cells.len() == x as int * height as int + y as int,
                    forall|xi: int, yi: int|
                        0 <= xi < x && 0 <= yi < height ==> fresh_cell_at(
                            cells@,
                            height as int,
                            xi,
                            yi,
                        ),
                    forall|yi: int|
                        0 <= yi < y ==> fresh_cell_at(cells@, height as int, x as int, yi),
                    count_visited_seq(cells@) == 0,
                    removed_walls_seq(cells@) == 0,
                decreases height - y,
            {
                proof {
                    assert((x as int) * (height as int) + (y as int) < (width as int) * (
                    height as int)) by (nonlinear_arith)
                        requires
                            0 <= x < width,
                            0 <= y < height,
                    ;
                }
                let c = Cell::new((x, y));
                let ghost before = cells@;
                cells.push(c);
                proof {
                    assert(cells@.drop_last() =~= before);
                    assert forall|xi: int, yi: int|
                        0 <= xi < x && 0 <= yi < height implies fresh_cell_at(
                        cells@,
                        height as int,
                        xi,
                        yi,
                    ) by {
                        assert(fresh_cell_at(before, height as int, xi, yi));
                        assert(xi * (height as int) + yi < (x as int) * (height as int))
                            by (nonlinear_arith)
                            requires
                                0 <= xi < x as int,
                                0 <= yi < height as int,
                        ;
                        assert(cells@[xi * (height as int) + yi] == before[xi * (height as int)
                            + yi]);
                    }
                    assert forall|yi: int|
                        0 <= yi < y + 1 implies fresh_cell_at(
                        cells@,
                        height as int,
                        x as int,
                        yi,
                    ) by {
                        if yi < y {
                            assert(fresh_cell_at(before, height as int, x as int, yi));
                            assert(cells@[x as int * (height as int) + yi] == before[x as int * (
                            height as int) + yi]);
                        } else {
                            assert(cells@[x as int * (height as int) + yi] == c);
                        }
                    }
                }
                y = y + 1;
            }
            proof {
                assert((x as int + 1) * (height as int) == (x as int) * (height as int) + (
                height as int)) by (nonlinear_arith);
            }
            x = x + 1;
        }
        let g = Grid { width, height, cells };
        proof {
            assert forall|xi: int, yi: int| g.in_bounds(xi, yi) implies (#[trigger] g.cell(
                xi,
                yi,
            )).pos == (xi as i32, yi as i32) && !g.cell(xi, yi).visited && (forall|w: Wall|
                g.cell(xi, yi).walls.has(w)) by {
                assert(fresh_cell_at(g.cells@, height as int, xi, yi));
            }
        }
        Ok(g)
    }
}

/// No visited cells in `s`, so none are counted.
proof fn lemma_count_visited_none(s: Seq<Cell>)
    requires
        forall|k: int| 0 <= k < s.len() ==> !(#[trigger] s[k]).visited,
    ensures
        count_visited_seq(s) == 0,
    decreases s.len(),
{
    if s.len() > 0 {
        lemma_count_visited_none(s.drop_last());
    }
}

/// Every cell of `s` has all four walls, so none count as removed.
proof fn lemma_removed_walls_none(s: Seq<Cell>)
    requires
        forall|k: int| 0 <= k < s.len() ==> (#[trigger] s[k]).walls.count() == 4,
    ensures
        removed_walls_seq(s) == 0,
    decreases s.len(),
{
    if s.len() > 0 {
        lemma_removed_walls_none(s.drop_last());
    }
}

impl Grid {
    /// A fresh grid has no visited cell and no removed wall.
    pub proof fn lemma_fresh_counts(self)
        requires
            self.wf(),
            self.fresh(),
        ensures
            count_visited_seq(self.cells@) == 0,
            removed_walls_seq(self.cells@) == 0,
    {
        assert forall|k: int|
            0 <= k < self.cells@.len() implies !(#[trigger] self.cells@[k]).visited
            && self.cells@[k].walls.count() == 4 by {
            self.lemma_idx_surjective(k);
            let x = k / (self.height as int);
            let y = k % (self.height as int);
            assert(self.cell(x, y) == self.cells@[k]);
            assert(self.cell(x, y).walls.has(Wall::Top));
            assert(self.cell(x, y).walls.has(Wall::Right));
            assert(self.cell(x, y).walls.has(Wall::Bottom));
            assert(self.cell(x, y).walls.has(Wall::Left));
        }
        lemma_count_visited_none(self.cells@);
        lemma_removed_walls_none(self.cells@);
    }

    /// A fresh grid's wall state is trivially consistent: every wall of
    /// every cell is standing.
    pub proof fn lemma_fresh_consistent(self)
        requires
            self.wf(),
            self.fresh(),
        ensures
            self.walls_consistent(),
    {
        assert forall|x: int, y: int, w: Wall|
            self.in_bounds(x, y) implies #[trigger] self.has_wall_at(x, y, w) by {
            assert(self.cell(x, y).walls.has(w));
        }
    }
}

/// Wall state stays consistent when no wall changes and the visited set
/// only grows.
pub proof fn lemma_consistent_walls_unchanged(g0: Grid, g1: Grid)
    requires
        g0.walls_consistent(),
        g1.width == g0.width,
        g1.height == g0.height,
        forall|x: int, y: int, w: Wall|
            g1.in_bounds(x, y) ==> #[trigger] g1.has_wall_at(x, y, w) == g0.has_wall_at(x, y, w),
        forall|x: int, y: int|
            g1.in_bounds(x, y) && g0.visited_at(x, y) ==> #[trigger] g1.visited_at(x, y),
    ensures
        g1.walls_consistent(),
{
    assert forall|x: int, y: int, w: Wall|
        g1.in_bounds(x, y) && !g1.in_bounds(
            neighbor_pos(x, y, w).0,
            neighbor_pos(x, y, w).1,
        ) implies #[trigger] g1.has_wall_at(x, y, w) by {
        assert(g0.has_wall_at(x, y, w));
    }
    assert forall|x: int, y: int, w: Wall|
        g1.in_bounds(x, y) && g1.in_bounds(
            neighbor_pos(x, y, w).0,
            neighbor_pos(x, y, w).1,
        ) implies (#[trigger] g1.has_wall_at(x, y, w) <==> g1.has_wall_at(
        neighbor_pos(x, y, w).0,
        neighbor_pos(x, y, w).1,
        opposite(w),
    )) by {
        assert(g0.has_wall_at(x, y, w) <==> g0.has_wall_at(
            neighbor_pos(x, y, w).0,
            neighbor_pos(x, y, w).1,
            opposite(w),
        ));
        assert(g1.has_wall_at(neighbor_pos(x, y, w).0, neighbor_pos(x, y, w).1, opposite(w))
            == g0.has_wall_at(neighbor_pos(x, y, w).0, neighbor_pos(x, y, w).1, opposite(w)));
    }
    assert forall|x: int, y: int, w: Wall|
        g1.in_bounds(x, y) && !g1.visited_at(x, y) implies #[trigger] g1.has_wall_at(x, y, w) by {
        assert(!g0.visited_at(x, y));
        assert(g0.has_wall_at(x, y, w));
    }
}

/// Taking down the two facing walls between the visited cell `c` and its
/// newly visited neighbour `n` keeps the wall state globally consistent.
proof fn lemma_carve_consistent(g0: Grid, g1: Grid, c: (i32, i32), n: (i32, i32))
    requires
        g0.wf(),
        g0.walls_consistent(),
        g0.in_bounds(c.0 as int, c.1 as int),
        g0.in_bounds(n.0 as int, n.1 as int),
        adjacent(pv(c), pv(n)),
        g0.visited_at(c.0 as int, c.1 as int),
        !g0.visited_at(n.0 as int, n.1 as int),
        g1.width == g0.width,
        g1.height == g0.height,
        g1.cell(c.0 as int, c.1 as int).visited == g0.cell(c.0 as int, c.1 as int).visited,
        g1.visited_at(n.0 as int, n.1 as int),
        forall|w: Wall|
            g1.has_wall_at(c.0 as int, c.1 as int, w) == (g0.has_wall_at(c.0 as int, c.1 as int, w)
                && w != wall_dir(pv(c), pv(n))),
        forall|w: Wall|
            g1.has_wall_at(n.0 as int, n.1 as int, w) == (g0.has_wall_at(n.0 as int, n.1 as int, w)
                && w != wall_dir(pv(n), pv(c))),
        forall|a: int, b: int|
            g0.in_bounds(a, b) && (a, b) != pv(c) && (a, b) != pv(n) ==> g1.cell(a, b) == g0.cell(
                a,
                b,
            ),
    ensures
        g1.walls_consistent(),
{
    let cp = pv(c);
    let np = pv(n);
    let d1 = wall_dir(cp, np);
    let d2 = wall_dir(np, cp);
    crate::cell::lemma_wall_dir_reciprocal(cp, np);
    crate::cell::lemma_wall_dir_reciprocal(np, cp);
    lemma_wall_dir_neighbor(cp, np);
    lemma_wall_dir_neighbor(np, cp);
    // standing walls toward the outside of the lattice
    assert forall|x: int, y: int, w: Wall|
        g1.in_bounds(x, y) && !g1.in_bounds(
            neighbor_pos(x, y, w).0,
            neighbor_pos(x, y, w).1,
        ) implies #[trigger] g1.has_wall_at(x, y, w) by {
        lemma_neighbor_pos_facts(x, y, w);
        if (x, y) == cp {
            if w == d1 {
                assert(neighbor_pos(x, y, w) == np);
            } else {
                assert(g0.has_wall_at(x, y, w));
                assert(g1.has_wall_at(x, y, w) == g0.has_wall_at(x, y, w));
            }
        } else if (x, y) == np {
            if w == d2 {
                assert(neighbor_pos(x, y, w) == cp);
            } else {
                assert(g0.has_wall_at(x, y, w));
                assert(g1.has_wall_at(x, y, w) == g0.has_wall_at(x, y, w));
            }
        } else {
            assert(g1.cell(x, y) == g0.cell(x, y));
            assert(g0.has_wall_at(x, y, w));
            assert(g1.has_wall_at(x, y, w) == g0.has_wall_at(x, y, w));
        }
    }
    // facing walls of neighbours agree
    assert forall|x: int, y: int, w: Wall|
        g1.in_bounds(x, y) && g1.in_bounds(
            neighbor_pos(x, y, w).0,
            neighbor_pos(x, y, w).1,
        ) implies (#[trigger] g1.has_wall_at(x, y, w) <==> g1.has_wall_at(
        neighbor_pos(x, y, w).0,
        neighbor_pos(x, y, w).1,
        opposite(w),
    )) by {
        let q = neighbor_pos(x, y, w);
        lemma_neighbor_pos_facts(x, y, w);
        if (x, y) == cp && w == d1 {
            assert(q == np);
            assert(opposite(w) == d2);
            assert(!g1.has_wall_at(x, y, w));
            assert(!g1.has_wall_at(q.0, q.1, opposite(w)));
        } else if (x, y) == np && w == d2 {
            assert(q == cp);
            assert(opposite(w) == d1);
            assert(!g1.has_wall_at(x, y, w));
            assert(!g1.has_wall_at(q.0, q.1, opposite(w)));
        } else {
            // this side's wall is untouched
            if (x, y) == cp {
                if q == np {
                    assert(w == wall_dir(cp, np));
                }
                assert(g1.has_wall_at(x, y, w) == g0.has_wall_at(x, y, w));
            } else if (x, y) == np {
                if q == cp {
                    assert(w == wall_dir(np, cp));
                }
                assert(g1.has_wall_at(x, y, w) == g0.has_wall_at(x, y, w));
            } else {
                assert(g1.cell(x, y) == g0.cell(x, y));
            }
            // the facing wall is untouched as well
            if q == cp {
                if opposite(w) == d1 {
                    assert((x, y) == np);
                    assert(w == d2);
                }
                assert(g1.has_wall_at(q.0, q.1, opposite(w)) == g0.has_wall_at(
                    q.0,
                    q.1,
                    opposite(w),
                ));
            } else if q == np {
                if opposite(w) == d2 {
                    assert((x, y) == cp);
                    assert(w == d1);
                }
                assert(g1.has_wall_at(q.0, q.1, opposite(w)) == g0.has_wall_at(
                    q.0,
                    q.1,
                    opposite(w),
                ));
            } else {
                assert(g1.cell(q.0, q.1) == g0.cell(q.0, q.1));
            }
            assert(g0.has_wall_at(x, y, w) <==> g0.has_wall_at(q.0, q.1, opposite(w)));
        }
    }
    // unvisited cells keep all four walls
    assert forall|x: int, y: int, w: Wall|
        g1.in_bounds(x, y) && !g1.visited_at(x, y) implies #[trigger] g1.has_wall_at(x, y, w) by {
        if (x, y) == cp {
            assert(g1.visited_at(x, y));
        } else if (x, y) == np {
            assert(g1.visited_at(x, y));
        } else {
            assert(g1.cell(x, y) == g0.cell(x, y));
            assert(g0.has_wall_at(x, y, w));
        }
    }
}

/// The cell stored at row-major position `(x, y)` (for cell height `h`)
/// is a fresh cell that carries exactly those coordinates.
pub open spec fn fresh_cell_at(cells: Seq<Cell>, h: int, x: int, y: int) -> bool {
    &&& 0 <= x * h + y < cells.len()
    &&& cells[x * h + y].pos == (x as i32, y as i32)
    &&& !cells[x * h + y].visited
    &&& all_walls(cells[x * h + y].walls)
}

} // verus!
