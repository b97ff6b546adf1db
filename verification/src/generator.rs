//! The randomized depth-first backtracker: a stack-based state machine
//! that carves the maze one cell per step and reports each step's
//! observable changes, so a driver can animate the growth.

use vstd::prelude::*;

use rand::rngs::StdRng;

use crate::cell::{neighbor_pos, pv, wall_dir, Wall};
use crate::grid::{
    count_visited_seq, lemma_consistent_walls_unchanged, lemma_count_visited_all,
    lemma_count_visited_bounds, removed_walls_seq, Grid,
};
use crate::paths::{
    carved_connected, is_carved_path, lemma_path_extend, lemma_path_monotone, lemma_path_reverse,
    path_cell_ok,
};
use crate::rng::rand_below;

verus! {

/// The observable changes of one generation step, for an external
/// rendering collaborator.
#[derive(Debug)]
pub struct StepEvent {
    /// The cell the step worked on, now highlighted as current.
    pub cell_became_current: (i32, i32),
    /// The cell that became visited this step, on a forward move.
    pub cell_became_visited: Option<(i32, i32)>,
    /// The walls taken down this step: both sides of one passage on a
    /// forward move, nothing on a backtrack.
    pub walls_removed: Vec<((i32, i32), Wall)>,
    /// Whether this step finished the generation.
    pub finished: bool,
}

/// One backtrack move: the popped cell `c` had no unvisited neighbour
/// left, so the pop stands, the grid is untouched and nothing is
/// reported beyond the new current cell.
pub open spec fn backtrack_step(
    g0: Grid,
    s0: Generator,
    g1: Grid,
    s1: Generator,
    ev: StepEvent,
    c: (i32, i32),
) -> bool {
    &&& g0.neighbors_visited(c.0 as int, c.1 as int)
    &&& g1 == g0
    &&& s1.stack@ == s0.stack@.drop_last()
    &&& s1.current_cell == c
    &&& (s1.finished <==> s0.stack@.len() == 1)
    &&& ev.cell_became_current == c
    &&& ev.cell_became_visited is None
    &&& ev.walls_removed@.len() == 0
    &&& ev.finished == s1.finished
}

/// One forward move from `c` into the chosen unvisited neighbour `n`:
/// the two facing walls between them fall and nothing else changes, `n`
/// becomes visited and is stacked on top of the re-stacked `c`.
pub open spec fn forward_step(
    g0: Grid,
    s0: Generator,
    g1: Grid,
    s1: Generator,
    ev: StepEvent,
    c: (i32, i32),
    n: (i32, i32),
) -> bool {
    &&& g0.in_bounds(n.0 as int, n.1 as int)
    &&& crate::cell::adjacent(pv(n), pv(c))
    &&& !g0.visited_at(n.0 as int, n.1 as int)
    &&& s1.stack@ == s0.stack@.push(n)
    &&& !s1.finished
    &&& s1.current_cell == c
    &&& g1.width == g0.width
    &&& g1.height == g0.height
    &&& g1.visited_at(n.0 as int, n.1 as int)
    &&& g1.cell(n.0 as int, n.1 as int).pos == g0.cell(n.0 as int, n.1 as int).pos
    &&& forall|w: Wall|
        g1.has_wall_at(n.0 as int, n.1 as int, w) == (g0.has_wall_at(n.0 as int, n.1 as int, w)
            && w != wall_dir(pv(n), pv(c)))
    &&& g1.cell(c.0 as int, c.1 as int).pos == g0.cell(c.0 as int, c.1 as int).pos
    &&& g1.cell(c.0 as int, c.1 as int).visited == g0.cell(c.0 as int, c.1 as int).visited
    &&& forall|w: Wall|
        g1.has_wall_at(c.0 as int, c.1 as int, w) == (g0.has_wall_at(c.0 as int, c.1 as int, w)
            && w != wall_dir(pv(c), pv(n)))
    &&& forall|a: int, b: int|
        g0.in_bounds(a, b) && (a, b) != pv(c) && (a, b) != pv(n) ==> g1.cell(a, b) == g0.cell(a, b)
    &&& ev.cell_became_current == c
    &&& ev.cell_became_visited == Some(n)
    &&& ev.walls_removed@ == seq![(c, wall_dir(pv(c), pv(n))), (n, wall_dir(pv(n), pv(c)))]
    &&& ev.finished == false
}

/// The backtracking generator: the current cell, the stack of visited
/// cells still worth revisiting, and the terminal finished flag.
#[derive(Debug)]
pub struct Generator {
    pub current_cell: (i32, i32),
    pub stack: Vec<(i32, i32)>,
    pub finished: bool,
}

impl Generator {
    /// `(x, y)` is one of the stack entries.
    pub open spec fn on_stack(self, x: int, y: int) -> bool {
        exists|i: int| 0 <= i < self.stack@.len() && pv(#[trigger] self.stack@[i]) == (x, y)
    }

    /// The generator's invariant over `g`, kept by every step:
    /// a consistent grid, a stack of visited in-bounds cells that empties
    /// exactly when the generator finishes, a visited region whose
    /// off-stack cells have no unvisited neighbour left, and wall/visit
    /// counts that pin the carved passages to a spanning-tree count.
    pub open spec fn inv(self, g: Grid) -> bool {
        &&& g.wf()
        &&& g.walls_consistent()
        &&& (self.finished <==> self.stack@.len() == 0)
        &&& g.in_bounds(self.current_cell.0 as int, self.current_cell.1 as int)
        &&& g.visited_at(self.current_cell.0 as int, self.current_cell.1 as int)
        &&& forall|i: int|
            0 <= i < self.stack@.len() ==> {
                let p = pv(#[trigger] self.stack@[i]);
                g.in_bounds(p.0, p.1) && g.visited_at(p.0, p.1)
            }
        &&& forall|x: int, y: int|
            g.in_bounds(x, y) && g.visited_at(x, y) && !self.on_stack(x, y)
                ==> #[trigger] g.neighbors_visited(x, y)
        &&& forall|ax: int, ay: int, bx: int, by: int|
            g.in_bounds(ax, ay) && g.visited_at(ax, ay) && g.in_bounds(bx, by) && g.visited_at(
                bx,
                by,
            ) ==> #[trigger] carved_connected(g, ax, ay, bx, by)
        &&& 1 <= count_visited_seq(g.cells@)
        &&& self.stack@.len() <= 2 * count_visited_seq(g.cells@) - 1
        &&& removed_walls_seq(g.cells@) == 2 * (count_visited_seq(g.cells@) - 1)
    }

    /// Work still to do: two units per unvisited cell plus one per stack
    /// entry.  Every step of a running generator lowers this by one.
    pub open spec fn measure(self, g: Grid) -> int {
        2 * (g.area() - count_visited_seq(g.cells@)) + self.stack@.len()
    }

    /// Start a generation at `(x, y)` on a fresh grid: the start cell is
    /// marked visited and pushed as the only stack entry.
    pub fn with_start(grid: &mut Grid, x: i32, y: i32) -> (r: Generator)
        requires
            old(grid).wf(),
            old(grid).fresh(),
            old(grid).in_bounds(x as int, y as int),
        ensures
            r.inv(*final(grid)),
            final(grid).width == old(grid).width,
            final(grid).height == old(grid).height,
            r.current_cell == (x, y),
            r.stack@ == seq![(x, y)],
            !r.finished,
            final(grid).visited_at(x as int, y as int),
            final(grid).cell(x as int, y as int).walls == old(grid).cell(
                x as int,
                y as int,
            ).walls,
            forall|a: int, b: int|
                old(grid).in_bounds(a, b) && (a, b) != (x as int, y as int) ==> final(grid).cell(
                    a,
                    b,
                ) == old(grid).cell(a, b),
            count_visited_seq(final(grid).cells@) == 1,
            removed_walls_seq(final(grid).cells@) == 0,
            r.measure(*final(grid)) == 2 * old(grid).area() - 1,
    {
        proof {
            old(grid).lemma_fresh_counts();
            old(grid).lemma_fresh_consistent();
        }
        let mut stack: Vec<(i32, i32)> = Vec::new();
        stack.push((x, y));
        grid.visit_at(x, y);
        let r = Generator { current_cell: (x, y), stack, finished: false };
        proof {
            let g0 = *old(grid);
            let g1 = *grid;
            let xi = x as int;
            let yi = y as int;
            assert(r.stack@ =~= seq![(x, y)]);
            assert forall|a: int, b: int, w: Wall|
                g1.in_bounds(a, b) implies #[trigger] g1.has_wall_at(a, b, w) == g0.has_wall_at(
                a,
                b,
                w,
            ) by {
                if (a, b) != (xi, yi) {
                    assert(g1.cell(a, b) == g0.cell(a, b));
                }
            }
            lemma_consistent_walls_unchanged(g0, g1);
            assert(pv(r.stack@[0]) == (xi, yi));
            assert forall|a: int, b: int|
                g1.in_bounds(a, b) && g1.visited_at(a, b) && !r.on_stack(a, b) implies #[trigger] g1
                .neighbors_visited(a, b) by {
                if (a, b) == (xi, yi) {
                    assert(r.on_stack(a, b));
                } else {
                    assert(g1.cell(a, b) == g0.cell(a, b));
                    assert(!g0.visited_at(a, b));
                }
            }
            assert forall|ax: int, ay: int, bx: int, by: int|
                g1.in_bounds(ax, ay) && g1.visited_at(ax, ay) && g1.in_bounds(bx, by)
                    && g1.visited_at(bx, by) implies #[trigger] carved_connected(
                g1,
                ax,
                ay,
                bx,
                by,
            ) by {
                if (ax, ay) != (xi, yi) {
                    assert(g1.cell(ax, ay) == g0.cell(ax, ay));
                    assert(!g0.visited_at(ax, ay));
                }
                if (bx, by) != (xi, yi) {
                    assert(g1.cell(bx, by) == g0.cell(bx, by));
                    assert(!g0.visited_at(bx, by));
                }
                let p = seq![(xi, yi)];
                assert(p[0] == (xi, yi));
                assert(path_cell_ok(g1, p, 0));
                assert(is_carved_path(g1, p));
                assert(p.first() == (xi, yi) && p.last() == (xi, yi));
            }
        }
        r
    }

    /// Advance the generation by exactly one cell.  A finished generator
    /// is left untouched and reports nothing.  Otherwise the top of the
    /// stack becomes current; when it still has unvisited neighbours one
    /// of them, chosen at random, is carved into and visited, and when it
    /// has none the pop stands as one backtrack move.
    pub fn step(&mut self, grid: &mut Grid, rng: &mut StdRng) -> (r: Option<StepEvent>)
        requires
            old(self).inv(*old(grid)),
        ensures
            final(self).inv(*final(grid)),
            final(grid).width == old(grid).width,
            final(grid).height == old(grid).height,
            old(self).finished ==> *final(self) == *old(self) && *final(grid) == *old(grid) && r
                is None,
            forall|a: int, b: int|
                old(grid).in_bounds(a, b) && old(grid).visited_at(a, b)
                    ==> #[trigger] final(grid).visited_at(a, b),
            !old(self).finished ==> {
                let c = old(self).stack@.last();
                &&& r is Some
                &&& final(self).measure(*final(grid)) == old(self).measure(*old(grid)) - 1
                &&& (old(grid).neighbors_visited(c.0 as int, c.1 as int) ==> backtrack_step(
                    *old(grid),
                    *old(self),
                    *final(grid),
                    *final(self),
                    r.unwrap(),
                    c,
                ))
                &&& (!old(grid).neighbors_visited(c.0 as int, c.1 as int) ==> exists|n: (i32, i32)|
                    forward_step(
                        *old(grid),
                        *old(self),
                        *final(grid),
                        *final(self),
                        r.unwrap(),
                        c,
                        n,
                    ))
            },
    {
        if self.finished {
            return None;
        }
        let c = self.stack.pop().unwrap();
        proof {
            // the popped entry is a visited, in-bounds cell
            assert(c == old(self).stack@[old(self).stack@.len() - 1]);
        }
        self.current_cell = c;
        let ci: Ghost<int> = Ghost(c.0 as int);
        let cj: Ghost<int> = Ghost(c.1 as int);
        let neigh = grid.get_cell_neighbour_entities(c.0, c.1);
        let mut unvisited: Vec<(i32, i32)> = Vec::new();
        let mut i: usize = 0;
        while i < neigh.len()
            invariant
                0 <= i <= neigh.len(),
                *grid == *old(grid),
                old(self).inv(*old(grid)),
                !old(self).finished,
                c == old(self).stack@.last(),
                self.current_cell == c,
                self.stack@ == old(self).stack@.drop_last(),
                !self.finished,
                grid.in_bounds(c.0 as int, c.1 as int),
                forall|j: int|
                    0 <= j < neigh@.len() ==> {
                        let p = pv(#[trigger] neigh@[j]);
                        grid.in_bounds(p.0, p.1) && crate::cell::adjacent(p, pv(c))
                    },
                forall|w: Wall|
                    #![trigger neighbor_pos(c.0 as int, c.1 as int, w)]
                    grid.in_bounds(
                        neighbor_pos(c.0 as int, c.1 as int, w).0,
                        neighbor_pos(c.0 as int, c.1 as int, w).1,
                    ) ==> exists|j: int|
                        0 <= j < neigh@.len() && pv(#[trigger] neigh@[j]) == neighbor_pos(
                            c.0 as int,
                            c.1 as int,
                            w,
                        ),
                forall|j: int|
                    0 <= j < unvisited@.len() ==> {
                        let p = pv(#[trigger] unvisited@[j]);
                        grid.in_bounds(p.0, p.1) && !grid.visited_at(p.0, p.1)
                            && crate::cell::adjacent(p, pv(c))
                    },
                forall|j: int|
                    0 <= j < i ==> {
                        let p = #[trigger] neigh@[j];
                        grid.visited_at(p.0 as int, p.1 as int) || unvisited@.contains(p)
                    },
            decreases neigh.len() - i,
        {
            let p = neigh[i];
            let ghost u0 = unvisited@;
            if !grid.cell_at(p.0, p.1).visited {
                unvisited.push(p);
                proof {
                    assert(unvisited@.last() == p);
                    assert forall|j: int|
                        0 <= j < i + 1 implies {
                            let q = #[trigger] neigh@[j];
                            grid.visited_at(q.0 as int, q.1 as int) || unvisited@.contains(q)
                        } by {
                        let q = neigh@[j];
                        if j < i && !grid.visited_at(q.0 as int, q.1 as int) {
                            let m = choose|m: int| 0 <= m < u0.len() && u0[m] == q;
                            assert(unvisited@[m] == q);
                        }
                        if j == i {
                            assert(unvisited@.contains(q)) by {
                                assert(unvisited@[unvisited@.len() - 1] == q);
                            }
                        }
                    }
                }
            }
            i = i + 1;
        }
        if unvisited.len() == 0 {
            proof {
                assert forall|w: Wall|
                    #![trigger neighbor_pos(ci@, cj@, w)]
                    grid.in_bounds(
                        neighbor_pos(ci@, cj@, w).0,
                        neighbor_pos(ci@, cj@, w).1,
                    ) implies grid.visited_at(
                    neighbor_pos(ci@, cj@, w).0,
                    neighbor_pos(ci@, cj@, w).1,
                ) by {
                    let j = choose|j: int|
                        0 <= j < neigh@.len() && pv(neigh@[j]) == neighbor_pos(ci@, cj@, w);
                    assert(grid.visited_at(pv(neigh@[j]).0, pv(neigh@[j]).1) || unvisited@.contains(
                        neigh@[j],
                    ));
                }
                assert(grid.neighbors_visited(ci@, cj@));
            }
            let fin = self.stack.len() == 0;
            if fin {
                self.finished = true;
            }
            let ev = StepEvent {
                cell_became_current: c,
                cell_became_visited: None,
                walls_removed: Vec::new(),
                finished: fin,
            };
            proof {
                let s0 = *old(self);
                let g1 = *grid;
                assert(self.stack@ == s0.stack@.drop_last());
                assert forall|x: int, y: int|
                    g1.in_bounds(x, y) && g1.visited_at(x, y) && !self.on_stack(
                        x,
                        y,
                    ) implies #[trigger] g1.neighbors_visited(x, y) by {
                    if s0.on_stack(x, y) {
                        let k = choose|k: int|
                            0 <= k < s0.stack@.len() && pv(s0.stack@[k]) == (x, y);
                        if k < s0.stack@.len() - 1 {
                            assert(pv(self.stack@[k]) == (x, y));
                            assert(self.on_stack(x, y));
                        } else {
                            assert((x, y) == (ci@, cj@));
                        }
                    }
                }
                assert(ev.walls_removed@.len() == 0);
            }
            Some(ev)
        } else {
            let k = rand_below(rng, unvisited.len());
            let n = unvisited[k];
            self.stack.push(c);
            let ca = grid.cell_at(c.0, c.1);
            let na = grid.cell_at(n.0, n.1);
            let d1 = ca.get_wall_dir(na);
            let d2 = na.get_wall_dir(ca);
            grid.carve_pair(c, n);
            self.stack.push(n);
            let mut walls_removed: Vec<((i32, i32), Wall)> = Vec::new();
            walls_removed.push((c, d1));
            walls_removed.push((n, d2));
            let ev = StepEvent {
                cell_became_current: c,
                cell_became_visited: Some(n),
                walls_removed,
                finished: false,
            };
            proof {
                let s0 = *old(self);
                let g0 = *old(grid);
                let g1 = *grid;
                let ni = n.0 as int;
                let nj = n.1 as int;
                crate::cell::lemma_wall_dir_neighbor(pv(c), pv(n));
                assert(neighbor_pos(ci@, cj@, wall_dir(pv(c), pv(n))) == pv(n));
                assert(!g0.neighbors_visited(ci@, cj@));
                assert(self.stack@ =~= s0.stack@.push(n));
                assert(ev.walls_removed@ =~= seq![
                    (c, wall_dir(pv(c), pv(n))),
                    (n, wall_dir(pv(n), pv(c))),
                ]);
                // every cell visited before stays visited
                assert forall|a: int, b: int|
                    g0.in_bounds(a, b) && g0.visited_at(a, b) implies #[trigger] g1.visited_at(
                    a,
                    b,
                ) by {
                    if (a, b) != pv(c) && (a, b) != pv(n) {
                        assert(g1.cell(a, b) == g0.cell(a, b));
                    }
                }
                // stack entries remain visited, in-bounds cells
                assert forall|j: int|
                    0 <= j < self.stack@.len() implies {
                        let p = pv(#[trigger] self.stack@[j]);
                        g1.in_bounds(p.0, p.1) && g1.visited_at(p.0, p.1)
                    } by {
                    if j < s0.stack@.len() - 1 {
                        assert(self.stack@[j] == s0.stack@[j]);
                    } else if j == s0.stack@.len() - 1 {
                        assert(self.stack@[j] == c);
                    } else {
                        assert(self.stack@[j] == n);
                    }
                }
                // the closed part of the visited region stays closed
                assert forall|x: int, y: int|
                    g1.in_bounds(x, y) && g1.visited_at(x, y) && !self.on_stack(
                        x,
                        y,
                    ) implies #[trigger] g1.neighbors_visited(x, y) by {
                    assert(pv(self.stack@[s0.stack@.len() as int]) == (ni, nj));
                    assert((x, y) != (ni, nj));
                    if (x, y) != pv(c) {
                        assert(g1.cell(x, y) == g0.cell(x, y));
                    }
                    assert(g0.visited_at(x, y));
                    if s0.on_stack(x, y) {
                        let m = choose|m: int|
                            0 <= m < s0.stack@.len() && pv(s0.stack@[m]) == (x, y);
                        assert(pv(self.stack@[m]) == (x, y));
                        assert(self.on_stack(x, y));
                    }
                    assert(g0.neighbors_visited(x, y));
                    assert forall|w: Wall|
                        #![trigger neighbor_pos(x, y, w)]
                        g1.in_bounds(
                            neighbor_pos(x, y, w).0,
                            neighbor_pos(x, y, w).1,
                        ) implies g1.visited_at(
                        neighbor_pos(x, y, w).0,
                        neighbor_pos(x, y, w).1,
                    ) by {
                        assert(g0.visited_at(neighbor_pos(x, y, w).0, neighbor_pos(x, y, w).1));
                    }
                }
                // walls only come down
                assert forall|a: int, b: int, w: Wall|
                    g0.in_bounds(a, b) && !g0.has_wall_at(a, b, w) implies !(
                #[trigger] g1.has_wall_at(a, b, w)) by {
                    if (a, b) != pv(c) && (a, b) != pv(n) {
                        assert(g1.cell(a, b) == g0.cell(a, b));
                    }
                }
                // every pair of visited cells stays joined by carved walls
                assert forall|ax: int, ay: int, bx: int, by: int|
                    g1.in_bounds(ax, ay) && g1.visited_at(ax, ay) && g1.in_bounds(bx, by)
                        && g1.visited_at(bx, by) implies #[trigger] carved_connected(
                    g1,
                    ax,
                    ay,
                    bx,
                    by,
                ) by {
                    if (ax, ay) != (ni, nj) && (ax, ay) != pv(c) {
                        assert(g1.cell(ax, ay) == g0.cell(ax, ay));
                    }
                    if (bx, by) != (ni, nj) && (bx, by) != pv(c) {
                        assert(g1.cell(bx, by) == g0.cell(bx, by));
                    }
                    if (ax, ay) == (ni, nj) && (bx, by) == (ni, nj) {
                        let p = seq![(ni, nj)];
                        assert(p[0] == (ni, nj));
                        assert(path_cell_ok(g1, p, 0));
                        assert(is_carved_path(g1, p));
                        assert(p.first() == (ni, nj) && p.last() == (ni, nj));
                    } else if (bx, by) == (ni, nj) {
                        assert(g0.visited_at(ax, ay));
                        assert(carved_connected(g0, ax, ay, ci@, cj@));
                        let p = choose|p: Seq<(int, int)>|
                            {
                                &&& is_carved_path(g0, p)
                                &&& p.first() == (ax, ay)
                                &&& p.last() == (ci@, cj@)
                            };
                        lemma_path_monotone(g0, g1, p);
                        assert(!g1.has_wall_at(ci@, cj@, wall_dir(pv(c), pv(n))));
                        lemma_path_extend(g1, p, ni, nj);
                        assert(is_carved_path(g1, p.push((ni, nj))));
                    } else if (ax, ay) == (ni, nj) {
                        assert(g0.visited_at(bx, by));
                        assert(carved_connected(g0, bx, by, ci@, cj@));
                        let p = choose|p: Seq<(int, int)>|
                            {
                                &&& is_carved_path(g0, p)
                                &&& p.first() == (bx, by)
                                &&& p.last() == (ci@, cj@)
                            };
                        lemma_path_monotone(g0, g1, p);
                        assert(!g1.has_wall_at(ci@, cj@, wall_dir(pv(c), pv(n))));
                        lemma_path_extend(g1, p, ni, nj);
                        lemma_path_reverse(g1, p.push((ni, nj)));
                        assert(p.push((ni, nj)).last() == (ni, nj));
                        assert(p.push((ni, nj)).first() == (bx, by));
                    } else {
                        assert(g0.visited_at(ax, ay) && g0.visited_at(bx, by));
                        assert(carved_connected(g0, ax, ay, bx, by));
                        let p = choose|p: Seq<(int, int)>|
                            {
                                &&& is_carved_path(g0, p)
                                &&& p.first() == (ax, ay)
                                &&& p.last() == (bx, by)
                            };
                        lemma_path_monotone(g0, g1, p);
                        assert(is_carved_path(g1, p));
                    }
                }
                assert(forward_step(g0, s0, g1, *self, ev, c, n));
            }
            Some(ev)
        }
    }

    /// Drive a generation to completion, one step at a time, and return
    /// the number of steps taken: fewer than twice the number of cells.
    /// Afterwards every cell is visited and the carved passages number
    /// exactly `area - 1` reciprocal pairs.
    pub fn run_to_completion(&mut self, grid: &mut Grid, rng: &mut StdRng) -> (steps: u64)
        requires
            old(self).inv(*old(grid)),
        ensures
            final(self).inv(*final(grid)),
            final(self).finished,
            final(grid).width == old(grid).width,
            final(grid).height == old(grid).height,
            forall|x: int, y: int|
                final(grid).in_bounds(x, y) ==> #[trigger] final(grid).visited_at(x, y),
            removed_walls_seq(final(grid).cells@) == 2 * (final(grid).area() - 1),
            forall|ax: int, ay: int, bx: int, by: int|
                final(grid).in_bounds(ax, ay) && final(grid).in_bounds(bx, by)
                    ==> #[trigger] carved_connected(*final(grid), ax, ay, bx, by),
            steps as int == old(self).measure(*old(grid)),
            steps as int <= 2 * old(grid).area() - 1,
    {
        let mut steps: u64 = 0;
        proof {
            lemma_count_visited_bounds(grid.cells@);
            assert((grid.width as int) * (grid.height as int) < 0x4000_0000_0000_0000)
                by (nonlinear_arith)
                requires
                    1 <= grid.width as int <= 0x7fff_ffff,
                    1 <= grid.height as int <= 0x7fff_ffff,
            ;
        }
        let ghost m0 = self.measure(*grid);
        let ghost g0 = *grid;
        while !self.finished
            invariant
                self.inv(*grid),
                grid.width == g0.width,
                grid.height == g0.height,
                grid.area() == g0.area(),
                steps as int + self.measure(*grid) == m0,
                0 <= steps as int,
                m0 <= 2 * g0.area() - 1,
                g0.area() < 0x4000_0000_0000_0000,
                count_visited_seq(grid.cells@) <= grid.area(),
            decreases self.measure(*grid),
        {
            self.step(grid, rng);
            proof {
                lemma_count_visited_bounds(grid.cells@);
            }
            steps = steps + 1;
        }
        proof {
            lemma_finished_all_visited(*self, *grid);
            lemma_finished_connected(*self, *grid);
            assert forall|k: int|
                0 <= k < grid.cells@.len() implies (#[trigger] grid.cells@[k]).visited by {
                grid.lemma_idx_surjective(k);
                assert(grid.visited_at(k / (grid.height as int), k % (grid.height as int)));
            }
            lemma_count_visited_all(grid.cells@);
        }
        steps
    }

    /// Start a generation at a uniformly random cell of a fresh grid.
    pub fn new(grid: &mut Grid, rng: &mut StdRng) -> (r: Generator)
        requires
            old(grid).wf(),
            old(grid).fresh(),
        ensures
            r.inv(*final(grid)),
            final(grid).width == old(grid).width,
            final(grid).height == old(grid).height,
            !r.finished,
            r.stack@ == seq![r.current_cell],
            final(grid).in_bounds(r.current_cell.0 as int, r.current_cell.1 as int),
            final(grid).visited_at(r.current_cell.0 as int, r.current_cell.1 as int),
            forall|a: int, b: int|
                old(grid).in_bounds(a, b) && (a, b) != pv(r.current_cell) ==> final(grid).cell(
                    a,
                    b,
                ) == old(grid).cell(a, b),
            count_visited_seq(final(grid).cells@) == 1,
            removed_walls_seq(final(grid).cells@) == 0,
            r.measure(*final(grid)) == 2 * old(grid).area() - 1,
    {
        let sx = rand_below(rng, grid.width as usize);
        let sy = rand_below(rng, grid.height as usize);
        Generator::with_start(grid, sx as i32, sy as i32)
    }
}

/// Any in-bounds cell is visited: walk one lattice step at a time from
/// the visited cell `(cx, cy)` toward `(x, y)` through a region in which
/// every visited cell has only visited neighbours.
proof fn lemma_visited_spreads(s: Generator, g: Grid, cx: int, cy: int, x: int, y: int)
    requires
        s.inv(g),
        s.finished,
        g.in_bounds(cx, cy),
        g.visited_at(cx, cy),
        g.in_bounds(x, y),
    ensures
        g.visited_at(x, y),
    decreases (if x >= cx {
        x - cx
    } else {
        cx - x
    }) + (if y >= cy {
        y - cy
    } else {
        cy - y
    }),
{
    if x == cx && y == cy {
    } else {
        assert(!s.on_stack(cx, cy));
        assert(g.neighbors_visited(cx, cy));
        if cx < x {
            assert(neighbor_pos(cx, cy, Wall::Right) == (cx + 1, cy));
            assert(g.visited_at(cx + 1, cy));
            lemma_visited_spreads(s, g, cx + 1, cy, x, y);
        } else if cx > x {
            assert(neighbor_pos(cx, cy, Wall::Left) == (cx - 1, cy));
            assert(g.visited_at(cx - 1, cy));
            lemma_visited_spreads(s, g, cx - 1, cy, x, y);
        } else if cy < y {
            assert(neighbor_pos(cx, cy, Wall::Top) == (cx, cy + 1));
            assert(g.visited_at(cx, cy + 1));
            lemma_visited_spreads(s, g, cx, cy + 1, x, y);
        } else {
            assert(neighbor_pos(cx, cy, Wall::Bottom) == (cx, cy - 1));
            assert(g.visited_at(cx, cy - 1));
            lemma_visited_spreads(s, g, cx, cy - 1, x, y);
        }
    }
}

/// Once the generator has finished, every cell of the grid has been
/// visited: with an empty stack the visited region is closed under
/// adjacency, and it spreads from the current cell across the whole
/// connected lattice.
pub proof fn lemma_finished_all_visited(s: Generator, g: Grid)
    requires
        s.inv(g),
        s.finished,
    ensures
        forall|x: int, y: int| g.in_bounds(x, y) ==> #[trigger] g.visited_at(x, y),
{
    assert forall|x: int, y: int| g.in_bounds(x, y) implies #[trigger] g.visited_at(x, y) by {
        lemma_visited_spreads(s, g, s.current_cell.0 as int, s.current_cell.1 as int, x, y);
    }
}

/// Wall removal is always reciprocal: one forward step takes down
/// exactly the wall of `c` facing `n` and the complementary wall of `n`
/// facing `c`, and no standing wall of any other cell or direction.
pub proof fn lemma_step_walls_reciprocal(
    g0: Grid,
    s0: Generator,
    g1: Grid,
    s1: Generator,
    ev: StepEvent,
    c: (i32, i32),
    n: (i32, i32),
)
    requires
        forward_step(g0, s0, g1, s1, ev, c, n),
    ensures
        ev.walls_removed@.len() == 2,
        ev.walls_removed@[0] == (c, wall_dir(pv(c), pv(n))),
        ev.walls_removed@[1] == (n, wall_dir(pv(n), pv(c))),
        ev.walls_removed@[1].1 == crate::cell::opposite(ev.walls_removed@[0].1),
        forall|x: int, y: int, w: Wall|
            g0.in_bounds(x, y) && #[trigger] g0.has_wall_at(x, y, w) && !g1.has_wall_at(x, y, w)
                ==> ((x, y) == pv(c) && w == wall_dir(pv(c), pv(n))) || ((x, y) == pv(n) && w
                == wall_dir(pv(n), pv(c))),
{
    crate::cell::lemma_wall_dir_reciprocal(pv(n), pv(c));
    assert forall|x: int, y: int, w: Wall|
        g0.in_bounds(x, y) && #[trigger] g0.has_wall_at(x, y, w) && !g1.has_wall_at(
            x,
            y,
            w,
        ) implies ((x, y) == pv(c) && w == wall_dir(pv(c), pv(n))) || ((x, y) == pv(n) && w
        == wall_dir(pv(n), pv(c))) by {
        if (x, y) != pv(c) && (x, y) != pv(n) {
            assert(g1.cell(x, y) == g0.cell(x, y));
        }
    }
}

/// A finished generation's carved passages join every pair of cells of
/// the grid; together with `lemma_finished_wall_count` this makes the
/// carved maze a spanning tree.
pub proof fn lemma_finished_connected(s: Generator, g: Grid)
    requires
        s.inv(g),
        s.finished,
    ensures
        forall|ax: int, ay: int, bx: int, by: int|
            g.in_bounds(ax, ay) && g.in_bounds(bx, by) ==> #[trigger] carved_connected(
                g,
                ax,
                ay,
                bx,
                by,
            ),
{
    lemma_finished_all_visited(s, g);
    assert forall|ax: int, ay: int, bx: int, by: int|
        g.in_bounds(ax, ay) && g.in_bounds(bx, by) implies #[trigger] carved_connected(
        g,
        ax,
        ay,
        bx,
        by,
    ) by {
        assert(g.visited_at(ax, ay) && g.visited_at(bx, by));
    }
}

/// A finished generation has carved exactly `area - 1` passages: the
/// removed-wall total counts each reciprocal pair once per side.
pub proof fn lemma_finished_wall_count(s: Generator, g: Grid)
    requires
        s.inv(g),
        s.finished,
    ensures
        removed_walls_seq(g.cells@) == 2 * (g.area() - 1),
{
    lemma_finished_all_visited(s, g);
    assert forall|k: int| 0 <= k < g.cells@.len() implies (#[trigger] g.cells@[k]).visited by {
        g.lemma_idx_surjective(k);
        assert(g.visited_at(k / (g.height as int), k % (g.height as int)));
    }
    lemma_count_visited_all(g.cells@);
}

} // verus!
