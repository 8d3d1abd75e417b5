//! Building the play-time connectivity graph from a dungeon's tiles.
//!
//! Every passable (non-wall) tile becomes a node. Edges join the four
//! axis-aligned neighbors, and the two lower diagonal neighbors of each
//! tile whenever both tiles flanking the diagonal are passable too (no
//! cutting corners through walls). The graph is undirected, so scanning
//! right, down, down-right and down-left from every tile covers every
//! direction.

use vstd::prelude::*;

use crate::dungeon::Dungeon;
use crate::dungeon::TileType;
use crate::graph::Graph;

verus! {

/// A tile type one can walk on.
pub open spec fn passable(t: TileType) -> bool {
    t != TileType::Wall
}

/// The coordinate `c` is a passable tile of `d`.
pub open spec fn passable_at(d: Dungeon, c: (int, int)) -> bool {
    d.in_bounds(c.0, c.1) && passable(d.type_at(c.0, c.1))
}

/// The adjacency rule of the connectivity graph: two passable tiles one
/// step apart, where a diagonal step additionally needs both flanking
/// axis-aligned tiles passable.
pub open spec fn tiles_adjacent(d: Dungeon, a: (int, int), b: (int, int)) -> bool {
    &&& passable_at(d, a)
    &&& passable_at(d, b)
    &&& {
        let dx = b.0 - a.0;
        let dy = b.1 - a.1;
        ||| (dx == 1 || dx == -1) && dy == 0
        ||| dx == 0 && (dy == 1 || dy == -1)
        ||| (dx == 1 || dx == -1) && (dy == 1 || dy == -1) && passable_at(d, (a.0, b.1))
            && passable_at(d, (b.0, a.1))
    }
}

/// The cell `c` comes strictly before `(x, y)` in row-major order.
spec fn before_cell(c: (int, int), x: int, y: int) -> bool {
    c.1 < y || (c.1 == y && c.0 < x)
}

/// Whether the tile at `(x, y)` is passable.
fn is_passable_at(d: &Dungeon, x: isize, y: isize) -> (r: bool)
    requires
        d.wf(),
    ensures
        r == passable_at(*d, (x as int, y as int)),
{
    match d.get_tile_type(x, y) {
        Some(TileType::Wall) => false,
        Some(_) => true,
        None => false,
    }
}

/// Builds the connectivity graph of `d`: one node per passable tile, and
/// exactly the edges of the adjacency rule.
pub fn build_graph(d: &Dungeon) -> (g: Graph)
    requires
        d.wf(),
    ensures
        g.wf(),
        forall|c: (int, int)| #[trigger] g.has_node(c) <==> passable_at(*d, c),
        forall|a: (int, int), b: (int, int)|
            #[trigger] g.has_edge(a, b) <==> tiles_adjacent(*d, a, b),
{
    let w = d.width();
    let h = d.height();
    proof {
        d.lemma_dims_nonneg();
    }
    let mut g = Graph::new();
    // nodes: one per passable tile
    let mut y: isize = 0;
    while y < h
        invariant
            d.wf(),
            w == d.spec_width(),
            h == d.spec_height(),
            g.wf(),
            0 <= w,
            0 <= y <= h,
            forall|c: (int, int)|
                #[trigger] g.has_node(c) <==> (passable_at(*d, c) && c.1 < y),
            forall|a: (int, int), b: (int, int)| !g.has_edge(a, b),
        decreases h - y,
    {
        let mut x: isize = 0;
        while x < w
            invariant
                d.wf(),
                w == d.spec_width(),
                h == d.spec_height(),
                g.wf(),
                0 <= w,
                0 <= y < h,
                0 <= x <= w,
                forall|c: (int, int)|
                    #[trigger] g.has_node(c) <==> (passable_at(*d, c) && before_cell(c, x as int, y as int)),
                forall|a: (int, int), b: (int, int)| !g.has_edge(a, b),
            decreases w - x,
        {
            if is_passable_at(d, x, y) {
                g.add_node_at(x, y);
            }
            x = x + 1;
        }
        proof {
            assert forall|c: (int, int)| #[trigger] g.has_node(c) <==> (passable_at(*d, c) && c.1
                < y + 1) by {
                if passable_at(*d, c) && c.1 < y + 1 {
                    assert(before_cell(c, w as int, y as int));
                }
            }
        }
        y = y + 1;
    }
    proof {
        assert forall|c: (int, int)| #[trigger] g.has_node(c) <==> passable_at(*d, c) by {
            if passable_at(*d, c) {
                assert(c.1 < h);
            }
        }
    }
    // edges: scan right, down, down-right and down-left from every tile
    let mut y: isize = 0;
    while y < h
        invariant
            d.wf(),
            w == d.spec_width(),
            h == d.spec_height(),
            g.wf(),
            0 <= w,
            0 <= y <= h,
            forall|c: (int, int)| #[trigger] g.has_node(c) <==> passable_at(*d, c),
            forall|a: (int, int), b: (int, int)|
                #[trigger] g.has_edge(a, b) <==> (tiles_adjacent(*d, a, b) && (before_cell(
                    a,
                    0,
                    y as int,
                ) || before_cell(b, 0, y as int))),
        decreases h - y,
    {
        let mut x: isize = 0;
        while x < w
            invariant
                d.wf(),
                w == d.spec_width(),
                h == d.spec_height(),
                g.wf(),
                0 <= w,
                0 <= y < h,
                0 <= x <= w,
                forall|c: (int, int)| #[trigger] g.has_node(c) <==> passable_at(*d, c),
                forall|a: (int, int), b: (int, int)|
                    #[trigger] g.has_edge(a, b) <==> (tiles_adjacent(*d, a, b) && (before_cell(
                        a,
                        x as int,
                        y as int,
                    ) || before_cell(b, x as int, y as int))),
            decreases w - x,
        {
            if is_passable_at(d, x, y) {
                // axis-aligned: right and down
                let _ = g.connect_nodes_at(x, y, x + 1, y);
                let _ = g.connect_nodes_at(x, y, x, y + 1);
                // diagonals, only past passable flanks
                if is_passable_at(d, x + 1, y) && is_passable_at(d, x, y + 1) {
                    let _ = g.connect_nodes_at(x, y, x + 1, y + 1);
                }
                if is_passable_at(d, x - 1, y) && is_passable_at(d, x, y + 1) {
                    let _ = g.connect_nodes_at(x, y, x - 1, y + 1);
                }
            }
            proof {
                let xi = x as int;
                let yi = y as int;
                let cur = (xi, yi);
                assert forall|a: (int, int), b: (int, int)| #[trigger] g.has_edge(a, b) implies (
                tiles_adjacent(*d, a, b) && (before_cell(a, xi + 1, yi) || before_cell(
                    b,
                    xi + 1,
                    yi,
                ))) by {}
                assert forall|a: (int, int), b: (int, int)|
                    tiles_adjacent(*d, a, b) && (before_cell(a, xi + 1, yi) || before_cell(
                        b,
                        xi + 1,
                        yi,
                    )) implies #[trigger] g.has_edge(a, b) by {
                    if !(before_cell(a, xi, yi) || before_cell(b, xi, yi)) {
                        // the pair's first cell in row-major order is (x, y)
                        assert(a == cur || b == cur);
                        let other = if a == cur {
                            b
                        } else {
                            a
                        };
                        assert(!before_cell(other, xi, yi));
                        assert(tiles_adjacent(*d, cur, other));
                        assert(other == (xi + 1, yi) || other == (xi, yi + 1) || other == (
                        xi + 1,
                        yi + 1,
                        ) || other == (xi - 1, yi + 1));
                    }
                }
            }
            x = x + 1;
        }
        proof {
            assert forall|a: (int, int), b: (int, int)| #[trigger] g.has_edge(a, b) <==> (
            tiles_adjacent(*d, a, b) && (before_cell(a, 0, y + 1) || before_cell(
                b,
                0,
                y + 1,
            ))) by {
                if tiles_adjacent(*d, a, b) && (before_cell(a, 0, y + 1) || before_cell(
                    b,
                    0,
                    y + 1,
                )) {
                    if before_cell(a, 0, y + 1) {
                        assert(before_cell(a, w as int, y as int));
                    } else if before_cell(b, 0, y + 1) {
                        assert(before_cell(b, w as int, y as int));
                    }
                }
            }
        }
        y = y + 1;
    }
    proof {
        assert forall|a: (int, int), b: (int, int)| #[trigger] g.has_edge(a, b) <==>
            tiles_adjacent(*d, a, b) by {
            if tiles_adjacent(*d, a, b) {
                assert(a.1 < h);
            }
        }
    }
    g
}


/// `p` is a walk over passable tiles of `d`, each step following the
/// adjacency rule.
pub open spec fn tile_path(d: Dungeon, p: Seq<(int, int)>) -> bool {
    &&& p.len() >= 1
    &&& (forall|i: int| 0 <= i < p.len() ==> passable_at(d, #[trigger] p[i]))
    &&& (forall|i: int| 0 <= i < p.len() - 1 ==> tiles_adjacent(d, #[trigger] p[i], p[i + 1]))
}

/// Some walk over passable tiles leads from `a` to `b`.
pub open spec fn tiles_connected(d: Dungeon, a: (int, int), b: (int, int)) -> bool {
    exists|p: Seq<(int, int)>| tile_path(d, p) && p.first() == a && p.last() == b
}

/// A passable tile is connected to itself.
pub proof fn lemma_connected_refl(d: Dungeon, a: (int, int))
    requires
        passable_at(d, a),
    ensures
        tiles_connected(d, a, a),
{
    let p = seq![a];
    assert(tile_path(d, p) && p.first() == a && p.last() == a);
}

/// Adjacent tiles are connected.
pub proof fn lemma_connected_step(d: Dungeon, a: (int, int), b: (int, int))
    requires
        tiles_adjacent(d, a, b),
    ensures
        tiles_connected(d, a, b),
{
    let p = seq![a, b];
    assert(tile_path(d, p) && p.first() == a && p.last() == b);
}

/// The adjacency rule is symmetric.
pub proof fn lemma_adjacent_sym(d: Dungeon, a: (int, int), b: (int, int))
    requires
        tiles_adjacent(d, a, b),
    ensures
        tiles_adjacent(d, b, a),
{
}

/// Connectivity is symmetric: walk the path backwards.
pub proof fn lemma_connected_sym(d: Dungeon, a: (int, int), b: (int, int))
    requires
        tiles_connected(d, a, b),
    ensures
        tiles_connected(d, b, a),
{
    let p = choose|p: Seq<(int, int)>| tile_path(d, p) && p.first() == a && p.last() == b;
    let q = Seq::new(p.len(), |i: int| p[p.len() - 1 - i]);
    assert forall|i: int| 0 <= i < q.len() - 1 implies tiles_adjacent(
        d,
        #[trigger] q[i],
        q[i + 1],
    ) by {
        let j = p.len() - 2 - i;
        assert(q[i] == p[j + 1] && q[i + 1] == p[j]);
        lemma_adjacent_sym(d, p[j], p[j + 1]);
    }
    assert(tile_path(d, q) && q.first() == b && q.last() == a);
}

/// Connectivity is transitive: join the paths at the shared endpoint.
pub proof fn lemma_connected_trans(d: Dungeon, a: (int, int), b: (int, int), c: (int, int))
    requires
        tiles_connected(d, a, b),
        tiles_connected(d, b, c),
    ensures
        tiles_connected(d, a, c),
{
    let p1 = choose|p: Seq<(int, int)>| tile_path(d, p) && p.first() == a && p.last() == b;
    let p2 = choose|p: Seq<(int, int)>| tile_path(d, p) && p.first() == b && p.last() == c;
    let q = p1 + p2.subrange(1, p2.len() as int);
    assert forall|i: int| 0 <= i < q.len() implies passable_at(d, #[trigger] q[i]) by {
        if i < p1.len() {
            assert(q[i] == p1[i]);
        } else {
            assert(q[i] == p2[i - p1.len() + 1]);
        }
    }
    assert forall|i: int| 0 <= i < q.len() - 1 implies tiles_adjacent(
        d,
        #[trigger] q[i],
        q[i + 1],
    ) by {
        if i + 1 < p1.len() {
            assert(q[i] == p1[i] && q[i + 1] == p1[i + 1]);
        } else if i + 1 == p1.len() {
            assert(q[i] == p1[i] && q[i + 1] == p2[1]);
            assert(p1[i] == p2[0]);
            assert(tiles_adjacent(d, p2[0], p2[1]));
        } else {
            assert(q[i] == p2[i - p1.len() + 1] && q[i + 1] == p2[i - p1.len() + 2]);
        }
    }
    assert(q.first() == a && q.last() == c);
    assert(q.last() == p2[p2.len() - 1]);
    assert(tile_path(d, q));
}

/// A walk stays valid on a grid that is at least as passable, tile for
/// tile.
pub proof fn lemma_connected_monotone(d1: Dungeon, d2: Dungeon, a: (int, int), b: (int, int))
    requires
        forall|c: (int, int)| passable_at(d1, c) ==> passable_at(d2, c),
        tiles_connected(d1, a, b),
    ensures
        tiles_connected(d2, a, b),
{
    let p = choose|p: Seq<(int, int)>| tile_path(d1, p) && p.first() == a && p.last() == b;
    assert forall|i: int| 0 <= i < p.len() - 1 implies tiles_adjacent(
        d2,
        #[trigger] p[i],
        p[i + 1],
    ) by {
        assert(tiles_adjacent(d1, p[i], p[i + 1]));
    }
    assert(tile_path(d2, p));
}

/// Walking along one row of passable tiles.
proof fn lemma_row_connected(d: Dungeon, y: int, x0: int, x1: int)
    requires
        forall|t: int|
            (if x0 <= x1 {
                x0 <= t <= x1
            } else {
                x1 <= t <= x0
            }) ==> #[trigger] passable_at(d, (t, y)),
    ensures
        tiles_connected(d, (x0, y), (x1, y)),
    decreases
            if x0 <= x1 {
                x1 - x0
            } else {
                x0 - x1
            },
{
    if x0 == x1 {
        lemma_connected_refl(d, (x0, y));
    } else if x0 < x1 {
        assert(tiles_adjacent(d, (x0, y), (x0 + 1, y)));
        lemma_connected_step(d, (x0, y), (x0 + 1, y));
        lemma_row_connected(d, y, x0 + 1, x1);
        lemma_connected_trans(d, (x0, y), (x0 + 1, y), (x1, y));
    } else {
        assert(tiles_adjacent(d, (x0, y), (x0 - 1, y)));
        lemma_connected_step(d, (x0, y), (x0 - 1, y));
        lemma_row_connected(d, y, x0 - 1, x1);
        lemma_connected_trans(d, (x0, y), (x0 - 1, y), (x1, y));
    }
}

/// Walking along one column of passable tiles.
proof fn lemma_col_connected(d: Dungeon, x: int, y0: int, y1: int)
    requires
        forall|t: int|
            (if y0 <= y1 {
                y0 <= t <= y1
            } else {
                y1 <= t <= y0
            }) ==> #[trigger] passable_at(d, (x, t)),
    ensures
        tiles_connected(d, (x, y0), (x, y1)),
    decreases
            if y0 <= y1 {
                y1 - y0
            } else {
                y0 - y1
            },
{
    if y0 == y1 {
        lemma_connected_refl(d, (x, y0));
    } else if y0 < y1 {
        assert(tiles_adjacent(d, (x, y0), (x, y0 + 1)));
        lemma_connected_step(d, (x, y0), (x, y0 + 1));
        lemma_col_connected(d, x, y0 + 1, y1);
        lemma_connected_trans(d, (x, y0), (x, y0 + 1), (x, y1));
    } else {
        assert(tiles_adjacent(d, (x, y0), (x, y0 - 1)));
        lemma_connected_step(d, (x, y0), (x, y0 - 1));
        lemma_col_connected(d, x, y0 - 1, y1);
        lemma_connected_trans(d, (x, y0), (x, y0 - 1), (x, y1));
    }
}

/// Any two cells of a fully passable rectangle are connected: walk the
/// row, then the column.
pub proof fn lemma_rect_connected(
    d: Dungeon,
    x: int,
    y: int,
    w: int,
    h: int,
    a: (int, int),
    b: (int, int),
)
    requires
        forall|c: (int, int)|
            x <= c.0 < x + w && y <= c.1 < y + h ==> #[trigger] passable_at(d, c),
        x <= a.0 < x + w,
        y <= a.1 < y + h,
        x <= b.0 < x + w,
        y <= b.1 < y + h,
    ensures
        tiles_connected(d, a, b),
{
    assert forall|t: int|
        (if a.0 <= b.0 {
            a.0 <= t <= b.0
        } else {
            b.0 <= t <= a.0
        }) implies #[trigger] passable_at(d, (t, a.1)) by {
        assert(passable_at(d, ((t, a.1))));
    }
    lemma_row_connected(d, a.1, a.0, b.0);
    assert forall|t: int|
        (if a.1 <= b.1 {
            a.1 <= t <= b.1
        } else {
            b.1 <= t <= a.1
        }) implies #[trigger] passable_at(d, (b.0, t)) by {
        assert(passable_at(d, ((b.0, t))));
    }
    lemma_col_connected(d, b.0, a.1, b.1);
    lemma_connected_trans(d, a, (b.0, a.1), b);
}

/// A walk over passable tiles is a path of the graph built from them.
pub proof fn lemma_tile_path_in_graph(d: Dungeon, g: Graph, p: Seq<(int, int)>)
    requires
        forall|c: (int, int)| #[trigger] g.has_node(c) <==> passable_at(d, c),
        forall|a: (int, int), b: (int, int)| #[trigger] g.has_edge(a, b) <==> tiles_adjacent(d, a, b),
        tile_path(d, p),
    ensures
        crate::search::is_path(g, p),
{
    assert forall|i: int| 0 <= i < p.len() implies g.has_node(#[trigger] p[i]) by {
        assert(passable_at(d, p[i]));
    }
    assert forall|i: int| 0 <= i < p.len() - 1 implies g.has_edge(#[trigger] p[i], p[i + 1]) by {
        assert(tiles_adjacent(d, p[i], p[i + 1]));
    }
}

/// Tile-level connectivity carries over to the built graph's reachability.
pub proof fn lemma_tiles_connected_in_graph(d: Dungeon, g: Graph, a: (int, int), b: (int, int))
    requires
        forall|c: (int, int)| #[trigger] g.has_node(c) <==> passable_at(d, c),
        forall|a2: (int, int), b2: (int, int)|
            #[trigger] g.has_edge(a2, b2) <==> tiles_adjacent(d, a2, b2),
        tiles_connected(d, a, b),
    ensures
        crate::search::reachable(g, a, b),
{
    let p = choose|p: Seq<(int, int)>| tile_path(d, p) && p.first() == a && p.last() == b;
    lemma_tile_path_in_graph(d, g, p);
    assert(crate::search::connects(g, p, a, b));
}

} // verus!
