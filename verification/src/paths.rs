//! Walks along carved passages: the reachability notion under which a
//! finished maze is connected.

use vstd::prelude::*;

use crate::cell::{
    adjacent, lemma_wall_dir_neighbor, lemma_wall_dir_reciprocal, wall_dir, Wall,
};
use crate::grid::Grid;

verus! {

/// The `i`-th cell of the walk `p` lies on the grid and is visited.
pub open spec fn path_cell_ok(g: Grid, p: Seq<(int, int)>, i: int) -> bool {
    g.in_bounds(p[i].0, p[i].1) && g.visited_at(p[i].0, p[i].1)
}

/// The `i`-th move of the walk `p` crosses one carved (absent) wall
/// between adjacent cells.
pub open spec fn path_edge_ok(g: Grid, p: Seq<(int, int)>, i: int) -> bool {
    adjacent(p[i], p[i + 1]) && !g.has_wall_at(p[i].0, p[i].1, wall_dir(p[i], p[i + 1]))
}

/// `p` is a walk through visited, in-bounds cells in which each
/// consecutive pair of cells is adjacent and shares a carved wall.
pub open spec fn is_carved_path(g: Grid, p: Seq<(int, int)>) -> bool {
    &&& p.len() >= 1
    &&& forall|i: int| 0 <= i < p.len() ==> #[trigger] path_cell_ok(g, p, i)
    &&& forall|i: int| 0 <= i < p.len() - 1 ==> #[trigger] path_edge_ok(g, p, i)
}

/// The cells at `(ax, ay)` and `(bx, by)` are joined by a walk along
/// carved passages.
pub open spec fn carved_connected(g: Grid, ax: int, ay: int, bx: int, by: int) -> bool {
    exists|p: Seq<(int, int)>|
        {
            &&& #[trigger] is_carved_path(g, p)
            &&& p.first() == (ax, ay)
            &&& p.last() == (bx, by)
        }
}

/// A carved walk stays a carved walk when cells only become visited and
/// walls only come down.
pub proof fn lemma_path_monotone(g0: Grid, g1: Grid, p: Seq<(int, int)>)
    requires
        is_carved_path(g0, p),
        g1.width == g0.width,
        g1.height == g0.height,
        forall|x: int, y: int|
            g0.in_bounds(x, y) && g0.visited_at(x, y) ==> #[trigger] g1.visited_at(x, y),
        forall|x: int, y: int, w: Wall|
            g0.in_bounds(x, y) && !g0.has_wall_at(x, y, w) ==> !(#[trigger] g1.has_wall_at(
                x,
                y,
                w,
            )),
    ensures
        is_carved_path(g1, p),
{
    assert forall|i: int| 0 <= i < p.len() implies #[trigger] path_cell_ok(g1, p, i) by {
        assert(path_cell_ok(g0, p, i));
    }
    assert forall|i: int| 0 <= i < p.len() - 1 implies #[trigger] path_edge_ok(g1, p, i) by {
        assert(path_edge_ok(g0, p, i));
        assert(path_cell_ok(g0, p, i));
    }
}

/// A carved walk grows by one cell that is adjacent to its end and
/// reachable through a carved wall.
pub proof fn lemma_path_extend(g: Grid, p: Seq<(int, int)>, x: int, y: int)
    requires
        is_carved_path(g, p),
        g.in_bounds(x, y),
        g.visited_at(x, y),
        adjacent(p.last(), (x, y)),
        !g.has_wall_at(p.last().0, p.last().1, wall_dir(p.last(), (x, y))),
    ensures
        is_carved_path(g, p.push((x, y))),
        p.push((x, y)).first() == p.first(),
        p.push((x, y)).last() == (x, y),
{
    let q = p.push((x, y));
    assert forall|i: int| 0 <= i < q.len() implies #[trigger] path_cell_ok(g, q, i) by {
        if i < p.len() {
            assert(path_cell_ok(g, p, i));
            assert(q[i] == p[i]);
        } else {
            assert(q[i] == (x, y));
        }
    }
    assert forall|i: int| 0 <= i < q.len() - 1 implies #[trigger] path_edge_ok(g, q, i) by {
        if i < p.len() - 1 {
            assert(path_edge_ok(g, p, i));
            assert(q[i] == p[i] && q[i + 1] == p[i + 1]);
        } else {
            assert(q[i] == p.last() && q[i + 1] == (x, y));
        }
    }
}

/// Every carved walk can be walked back: with consistent walls each
/// carved wall is carved from both sides.
pub proof fn lemma_path_reverse(g: Grid, p: Seq<(int, int)>)
    requires
        g.walls_consistent(),
        is_carved_path(g, p),
    ensures
        carved_connected(g, p.last().0, p.last().1, p.first().0, p.first().1),
    decreases p.len(),
{
    if p.len() == 1 {
        assert(p.first() == p.last());
        assert(is_carved_path(g, p));
    } else {
        let p2 = p.subrange(1, p.len() as int);
        assert forall|i: int| 0 <= i < p2.len() implies #[trigger] path_cell_ok(g, p2, i) by {
            assert(path_cell_ok(g, p, i + 1));
            assert(p2[i] == p[i + 1]);
        }
        assert forall|i: int| 0 <= i < p2.len() - 1 implies #[trigger] path_edge_ok(g, p2, i) by {
            assert(path_edge_ok(g, p, i + 1));
            assert(p2[i] == p[i + 1] && p2[i + 1] == p[i + 2]);
        }
        assert(is_carved_path(g, p2));
        lemma_path_reverse(g, p2);
        let q = choose|q: Seq<(int, int)>|
            {
                &&& is_carved_path(g, q)
                &&& q.first() == p2.last()
                &&& q.last() == p2.first()
            };
        // the first edge of `p`, walked backwards
        let a = p[0];
        let b = p[1];
        assert(p2.last() == p.last());
        assert(p2.first() == b);
        assert(path_edge_ok(g, p, 0));
        assert(path_cell_ok(g, p, 0));
        assert(path_cell_ok(g, p, 1));
        assert(adjacent(a, b) && !g.has_wall_at(a.0, a.1, wall_dir(a, b)));
        lemma_wall_dir_neighbor(a, b);
        lemma_wall_dir_reciprocal(a, b);
        lemma_wall_dir_reciprocal(b, a);
        assert(g.has_wall_at(a.0, a.1, wall_dir(a, b)) <==> g.has_wall_at(
            b.0,
            b.1,
            crate::cell::opposite(wall_dir(a, b)),
        ));
        assert(!g.has_wall_at(b.0, b.1, wall_dir(b, a)));
        assert(q.last() == b);
        lemma_path_extend(g, q, a.0, a.1);
        assert(is_carved_path(g, q.push(a)));
        assert(q.push(a).first() == p.last());
        assert(q.push(a).last() == p.first());
    }
}

} // verus!
