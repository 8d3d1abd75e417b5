//! A* path search over the connectivity graph.
//!
//! The search keeps the classic open/closed bookkeeping. Scores follow the
//! accumulated Euclidean distance travelled, held in fixed-point form
//! (scaled by `DIST_SCALE`); the heuristic is configurable. Scores steer
//! only the order in which nodes leave the open list — the contract of
//! `solve` is that a returned sequence really is a path of the graph from
//! start to goal, and that `None` comes back exactly when one endpoint is
//! missing or no path exists at all.

use vstd::prelude::*;

use crate::graph::Graph;
use crate::graph::GraphNode;

verus! {

/// The mathematical coordinates of a coordinate pair.
pub open spec fn coord_view(c: (isize, isize)) -> (int, int) {
    (c.0 as int, c.1 as int)
}

/// The mathematical view of a coordinate path.
pub open spec fn path_view(p: Seq<(isize, isize)>) -> Seq<(int, int)> {
    p.map_values(|c: (isize, isize)| coord_view(c))
}

/// `p` is a non-empty walk through `g`: every entry is a node and every
/// consecutive pair is joined by an edge.
pub open spec fn is_path(g: Graph, p: Seq<(int, int)>) -> bool {
    &&& p.len() >= 1
    &&& (forall|i: int| 0 <= i < p.len() ==> g.has_node(#[trigger] p[i]))
    &&& (forall|i: int| 0 <= i < p.len() - 1 ==> g.has_edge(#[trigger] p[i], p[i + 1]))
}

/// `p` is a path of `g` leading from `a` to `b`.
pub open spec fn connects(g: Graph, p: Seq<(int, int)>, a: (int, int), b: (int, int)) -> bool {
    is_path(g, p) && p.first() == a && p.last() == b
}

/// Some path of `g` leads from `a` to `b`.
pub open spec fn reachable(g: Graph, a: (int, int), b: (int, int)) -> bool {
    exists|p: Seq<(int, int)>| connects(g, p, a, b)
}

/// A path search: absent results mean a missing endpoint or no route.
pub trait SearchStrategy {
    /// Finds a path from `start` to `end` through `graph`. The result is
    /// `Some` exactly when both coordinates are nodes of the graph and a
    /// path joins them; the returned sequence is then such a path.
    fn solve(&self, graph: &Graph, start: (isize, isize), end: (isize, isize)) -> (r: Option<
        Vec<(isize, isize)>,
    >)
        requires
            graph.wf(),
        ensures
            r is Some ==> graph.has_node(coord_view(start)) && graph.has_node(coord_view(end)),
            r matches Some(p) ==> connects(*graph, path_view(p@), coord_view(start), coord_view(end)),
            r is None ==> !graph.has_node(coord_view(start)) || !graph.has_node(coord_view(end))
                || !reachable(*graph, coord_view(start), coord_view(end)),
    ;
}

/// The heuristics the A* search can run with.
#[derive(Clone, Copy, PartialEq, Eq, Structural, Debug)]
pub enum Heuristic {
    /// No guidance: the search degenerates to Dijkstra's algorithm.
    Zero,
    /// Octile distance: exact for movement with unit cardinal steps and
    /// `sqrt(2)` diagonal steps.
    Diagonal,
    /// Euclidean straight-line distance.
    Euclidean,
}

/// A* search parametrized by its heuristic.
pub struct AStarSearch {
    pub heuristic: Heuristic,
}

/// Fixed-point scale for distances: one tile step is `DIST_SCALE`.
pub const DIST_SCALE: u64 = 1024;

/// `DIST_SCALE` squared.
pub const DIST_SCALE_SQ: u64 = 1048576;

/// `sqrt(2) * DIST_SCALE`, rounded to nearest.
pub const DIAGONAL_SCALE: u64 = 1448;

/// Coordinate differences are capped here before squaring, so that scaled
/// squared distances stay inside `u64`.
pub const COORD_DIFF_CAP: u64 = 1048576;

/// Per-node bookkeeping of one search: best known scaled travel cost `g`,
/// estimated total `f`, and the predecessor on the best known path. The
/// ghost `depth` counts predecessor hops and justifies that predecessor
/// chains terminate.
struct Rec {
    node: GraphNode,
    g: u64,
    f: u64,
    pred: Option<GraphNode>,
    depth: Ghost<nat>,
}

/// Some entry of `s` has coordinates `c`.
spec fn seq_has_coords(s: Seq<GraphNode>, c: (int, int)) -> bool {
    exists|i: int| 0 <= i < s.len() && (#[trigger] s[i]).coords() == c
}

/// The entries of `s` have pairwise distinct coordinates.
spec fn distinct_coords(s: Seq<GraphNode>) -> bool {
    forall|i: int, j: int|
        0 <= i < s.len() && 0 <= j < s.len() && i != j ==> (#[trigger] s[i]).coords() != (
        #[trigger] s[j]).coords()
}

/// Some record of `recs` is keyed by coordinates `c`.
spec fn has_rec(recs: Seq<Rec>, c: (int, int)) -> bool {
    exists|i: int| 0 <= i < recs.len() && (#[trigger] recs[i]).node.coords() == c
}

/// The records of `recs` have pairwise distinct key coordinates.
spec fn distinct_rec_keys(recs: Seq<Rec>) -> bool {
    forall|i: int, j: int|
        0 <= i < recs.len() && 0 <= j < recs.len() && i != j ==> (
        #[trigger] recs[i]).node.coords() != (#[trigger] recs[j]).node.coords()
}

/// The record of `recs` keyed by coordinates `c` (meaningful under
/// `has_rec` and `distinct_rec_keys`).
spec fn rec_at(recs: Seq<Rec>, c: (int, int)) -> Rec {
    recs[choose|i: int| 0 <= i < recs.len() && (#[trigger] recs[i]).node.coords() == c]
}

/// Under distinct keys, the record at key `c` is the one at index `i`.
proof fn lemma_rec_at_is(recs: Seq<Rec>, c: (int, int), i: int)
    requires
        distinct_rec_keys(recs),
        0 <= i < recs.len(),
        recs[i].node.coords() == c,
    ensures
        has_rec(recs, c),
        rec_at(recs, c) == recs[i],
{
    assert(has_rec(recs, c));
    let j = choose|j: int| 0 <= j < recs.len() && (#[trigger] recs[j]).node.coords() == c;
    assert(j == i);
}

/// A record's predecessor entry is valid: records without a predecessor
/// sit exactly at the search's start coordinate; every other record points
/// at a closed node joined to it by an edge, whose own record is strictly
/// shallower.
spec fn pred_ok(g: Graph, recs: Seq<Rec>, closed: Seq<GraphNode>, s: (int, int), r: Rec) -> bool {
    match r.pred {
        None => r.node.coords() == s,
        Some(p) => {
            &&& r.node.coords() != s
            &&& seq_has_coords(closed, p.coords())
            &&& g.has_edge(p.coords(), r.node.coords())
            &&& g.has_node(p.coords())
            &&& has_rec(recs, p.coords())
            &&& rec_at(recs, p.coords()).depth@ < r.depth@
        },
    }
}

/// The A* loop invariant, tying the open and closed lists and the score
/// records together.
spec fn astar_inv(
    g: Graph,
    recs: Seq<Rec>,
    open: Seq<GraphNode>,
    closed: Seq<GraphNode>,
    s: (int, int),
    e: (int, int),
) -> bool {
    &&& distinct_coords(open)
    &&& distinct_coords(closed)
    &&& distinct_rec_keys(recs)
    &&& (forall|c: (int, int)| !(#[trigger] seq_has_coords(open, c) && seq_has_coords(closed, c)))
    &&& (forall|i: int| 0 <= i < open.len() ==> g.has_node((#[trigger] open[i]).coords()))
    &&& (forall|i: int| 0 <= i < closed.len() ==> g.has_node((#[trigger] closed[i]).coords()))
    &&& (closed.len() == 0 ==> open.len() == 1 && open[0].coords() == s)
    &&& (closed.len() > 0 ==> seq_has_coords(closed, s))
    &&& !seq_has_coords(closed, e)
    &&& (forall|i: int, d: (int, int)|
        0 <= i < closed.len() && #[trigger] g.has_edge((#[trigger] closed[i]).coords(), d)
            ==> seq_has_coords(open, d) || seq_has_coords(closed, d))
    &&& (forall|i: int| 0 <= i < open.len() ==> has_rec(recs, (#[trigger] open[i]).coords()))
    &&& (forall|i: int| 0 <= i < closed.len() ==> has_rec(recs, (#[trigger] closed[i]).coords()))
    &&& (forall|i: int|
        0 <= i < recs.len() ==> seq_has_coords(open, (#[trigger] recs[i]).node.coords())
            || seq_has_coords(closed, recs[i].node.coords()))
    &&& (forall|i: int| 0 <= i < recs.len() ==> pred_ok(g, recs, closed, s, #[trigger] recs[i]))
}

/// With the open list empty, the closed list is closed under edges, so a
/// path starting inside it stays inside it.
proof fn lemma_path_stays_closed(g: Graph, closed: Seq<GraphNode>, p: Seq<(int, int)>)
    requires
        forall|i: int, d: (int, int)|
            0 <= i < closed.len() && #[trigger] g.has_edge((#[trigger] closed[i]).coords(), d)
                ==> seq_has_coords(closed, d),
        is_path(g, p),
        seq_has_coords(closed, p[0]),
    ensures
        seq_has_coords(closed, p.last()),
    decreases p.len(),
{
    if p.len() == 1 {
    } else {
        let i = choose|i: int| 0 <= i < closed.len() && (#[trigger] closed[i]).coords() == p[0];
        assert(g.has_edge(p[0], p[1]));
        assert(g.has_edge(closed[i].coords(), p[1]));
        assert(seq_has_coords(closed, p[1]));
        let q = p.subrange(1, p.len() as int);
        assert(is_path(g, q)) by {
            assert forall|k: int| 0 <= k < q.len() implies g.has_node(#[trigger] q[k]) by {
                assert(q[k] == p[k + 1]);
            }
            assert forall|k: int| 0 <= k < q.len() - 1 implies g.has_edge(
                #[trigger] q[k],
                q[k + 1],
            ) by {
                assert(q[k] == p[k + 1] && q[k + 1] == p[k + 2]);
            }
        }
        lemma_path_stays_closed(g, closed, q);
        assert(q.last() == p.last());
    }
}

/// Saturating addition on `u64`.
fn sat_add64(a: u64, b: u64) -> (r: u64)
    ensures
        r == if a + b > u64::MAX {
            u64::MAX as int
        } else {
            a + b
        },
{
    if a > u64::MAX - b {
        u64::MAX
    } else {
        a + b
    }
}

/// Floor of the square root.
fn isqrt64(n: u64) -> (r: u64)
    ensures
        r * r <= n < (r + 1) * (r + 1),
{
    let mut lo: u64 = 0;
    let mut hi: u64 = 0x1_0000_0000;
    proof {
        assert((hi as int) * (hi as int) == 0x1_0000_0000_0000_0000) by (nonlinear_arith)
            requires
                hi == 0x1_0000_0000,
        ;
    }
    while lo + 1 < hi
        invariant
            lo < hi,
            lo * lo <= n,
            n < hi * hi,
            hi <= 0x1_0000_0000,
        decreases hi - lo,
    {
        let mid = lo + (hi - lo) / 2;
        proof {
            assert((mid as int) * (mid as int) <= 0x1_0000_0000_0000_0000) by (nonlinear_arith)
                requires
                    0 <= mid <= 0x1_0000_0000,
            ;
        }
        if (mid as u128) * (mid as u128) <= n as u128 {
            lo = mid;
        } else {
            hi = mid;
        }
    }
    lo
}

/// Coordinate difference, capped at `COORD_DIFF_CAP`.
fn capped_abs_diff(a: isize, b: isize) -> (r: u64)
    ensures
        r == if (if a >= b {
            a - b
        } else {
            b - a
        }) > COORD_DIFF_CAP {
            COORD_DIFF_CAP as int
        } else {
            if a >= b {
                a - b
            } else {
                b - a
            }
        },
        r <= COORD_DIFF_CAP,
{
    let d: i128 = if a >= b {
        a as i128 - b as i128
    } else {
        b as i128 - a as i128
    };
    if d > COORD_DIFF_CAP as i128 {
        COORD_DIFF_CAP
    } else {
        d as u64
    }
}

/// Scaled Euclidean length of one step from `a` to `b`: the floor of
/// `DIST_SCALE * sqrt(dx^2 + dy^2)`, with the differences capped. Only the
/// ordering this metric induces matters to the search.
fn step_cost(a: &GraphNode, b: &GraphNode) -> u64 {
    let dx = capped_abs_diff(a.x, b.x);
    let dy = capped_abs_diff(a.y, b.y);
    proof {
        assert(dx * dx <= COORD_DIFF_CAP * COORD_DIFF_CAP && dy * dy <= COORD_DIFF_CAP
            * COORD_DIFF_CAP) by (nonlinear_arith)
            requires
                0 <= dx <= COORD_DIFF_CAP,
                0 <= dy <= COORD_DIFF_CAP,
        ;
        assert((dx * dx + dy * dy) * DIST_SCALE_SQ <= (COORD_DIFF_CAP * COORD_DIFF_CAP
            + COORD_DIFF_CAP * COORD_DIFF_CAP) * DIST_SCALE_SQ) by (nonlinear_arith)
            requires
                dx * dx + dy * dy <= COORD_DIFF_CAP * COORD_DIFF_CAP + COORD_DIFF_CAP
                    * COORD_DIFF_CAP,
        ;
    }
    isqrt64((dx * dx + dy * dy) * DIST_SCALE_SQ)
}

impl AStarSearch {
    /// A search guided by straight-line distance.
    pub fn new_euclidean() -> (r: AStarSearch)
        ensures
            r.heuristic == Heuristic::Euclidean,
    {
        AStarSearch { heuristic: Heuristic::Euclidean }
    }

    /// A search guided by octile distance; the choice the solver pool runs
    /// with.
    pub fn new_diagonal() -> (r: AStarSearch)
        ensures
            r.heuristic == Heuristic::Diagonal,
    {
        AStarSearch { heuristic: Heuristic::Diagonal }
    }

    /// An unguided search: Dijkstra's algorithm.
    pub fn new_dijkstra() -> (r: AStarSearch)
        ensures
            r.heuristic == Heuristic::Zero,
    {
        AStarSearch { heuristic: Heuristic::Zero }
    }

    /// The configured heuristic estimate from `a` to `b`, in the same
    /// scaled form as `step_cost`. Estimates steer the search order only.
    fn h(&self, a: &GraphNode, b: &GraphNode) -> u64 {
        match self.heuristic {
            Heuristic::Zero => 0,
            Heuristic::Euclidean => step_cost(a, b),
            Heuristic::Diagonal => {
                let dx = capped_abs_diff(a.x, b.x);
                let dy = capped_abs_diff(a.y, b.y);
                let lesser = if dx < dy {
                    dx
                } else {
                    dy
                };
                // (dx + dy) + (sqrt(2) - 2) * min(dx, dy), scaled:
                // DIST_SCALE * (dx + dy) - (2 * DIST_SCALE - DIAGONAL_SCALE) * min.
                let base = DIST_SCALE * (dx + dy);
                let discount = (2 * DIST_SCALE - DIAGONAL_SCALE) * lesser;
                proof {
                    assert(discount <= base) by (nonlinear_arith)
                        requires
                            0 <= lesser <= dx + dy,
                            discount == 600 * lesser,
                            base == 1024 * (dx + dy),
                    ;
                }
                base - discount
            },
        }
    }
}

impl SearchStrategy for AStarSearch {
    #[verifier::rlimit(100)]
    fn solve(&self, graph: &Graph, start: (isize, isize), end: (isize, isize)) -> (r: Option<
        Vec<(isize, isize)>,
    >) {
        let start_node = match graph.find_node_at_tuple(start) {
            Some(n) => n,
            None => {
                return None;
            },
        };
        let end_node = match graph.find_node_at_tuple(end) {
            Some(n) => n,
            None => {
                return None;
            },
        };
        let ghost s = coord_view(start);
        let ghost e = coord_view(end);
        let mut open: Vec<GraphNode> = Vec::new();
        let mut closed: Vec<GraphNode> = Vec::new();
        let mut recs: Vec<Rec> = Vec::new();
        open.push(start_node);
        let h0 = self.h(&start_node, &end_node);
        recs.push(Rec { node: start_node, g: 0, f: h0, pred: None, depth: Ghost(0nat) });
        proof {
            graph.lemma_node_count_nonneg();
            assert(open@[0] == start_node);
            assert(recs@[0].node.coords() == s);
            assert(seq_has_coords(open@, start_node.coords()));
            assert(has_rec(recs@, start_node.coords()));
            assert(astar_inv(*graph, recs@, open@, closed@, s, e));
        }
        while open.len() > 0
            invariant
                graph.wf(),
                s == coord_view(start),
                e == coord_view(end),
                graph.has_node(s),
                graph.has_node(e),
                start_node.coords() == s,
                end_node.coords() == e,
                end.0 == end_node.x && end.1 == end_node.y,
                astar_inv(*graph, recs@, open@, closed@, s, e),
                closed@.len() <= graph.spec_node_count(),
            decreases graph.spec_node_count() - closed@.len(),
        {
            // Pick the open node with the lowest f-score; ties go to the
            // node that entered the open list first.
            let bi = find_rec_idx(&recs, open[0].x, open[0].y);
            let mut best: usize = 0;
            let mut best_f: u64 = recs[bi].f;
            let mut j: usize = 1;
            while j < open.len()
                invariant
                    0 <= best < j <= open@.len(),
                    forall|i: int|
                        0 <= i < open@.len() ==> has_rec(recs@, (#[trigger] open@[i]).coords()),
                decreases open@.len() - j,
            {
                let ri = find_rec_idx(&recs, open[j].x, open[j].y);
                let fj = recs[ri].f;
                if fj < best_f {
                    best = j;
                    best_f = fj;
                }
                j = j + 1;
            }
            let ghost open0 = open@;
            let current = open.remove(best);
            proof {
                assert(open@ =~= open0.subrange(0, best as int) + open0.subrange(
                    best as int + 1,
                    open0.len() as int,
                ));
                assert forall|i: int| 0 <= i < open@.len() implies #[trigger] open@[i] == (if i
                    < best as int {
                    open0[i]
                } else {
                    open0[i + 1]
                }) by {}
                assert(current == open0[best as int]);
                assert(graph.has_node(current.coords()));
                assert(has_rec(recs@, current.coords()));
                // current's coordinates left the open list altogether
                assert forall|i: int| 0 <= i < open@.len() implies (
                #[trigger] open@[i]).coords() != current.coords() by {
                    if i < best as int {
                        assert(open0[i].coords() != open0[best as int].coords());
                    } else {
                        assert(open0[i + 1].coords() != open0[best as int].coords());
                    }
                }
                assert forall|c: (int, int)| #[trigger] seq_has_coords(open@, c) implies
                    seq_has_coords(open0, c) by {
                    let i = choose|i: int| 0 <= i < open@.len() && (#[trigger] open@[i]).coords() == c;
                }
                assert forall|c: (int, int)|
                    seq_has_coords(open0, c) && c != current.coords() implies
                    #[trigger] seq_has_coords(open@, c) by {
                    let i = choose|i: int|
                        0 <= i < open0.len() && (#[trigger] open0[i]).coords() == c;
                    if i < best as int {
                        assert(open@[i].coords() == c);
                    } else {
                        assert(i > best as int);
                        assert(open@[i - 1].coords() == c);
                    }
                }
            }
            if current.x == end.0 && current.y == end.1 {
                proof {
                    assert(current.coords() == e);
                    assert forall|i: int| 0 <= i < recs@.len() implies match (
                    #[trigger] recs@[i]).pred {
                        None => recs@[i].node.coords() == s,
                        Some(p) => g_pred_ok(*graph, recs@, recs@[i], p),
                    } by {
                        assert(pred_ok(*graph, recs@, closed@, s, recs@[i]));
                    }
                }
                let path = build_path(graph, &recs, current, Ghost(s));
                return Some(path);
            }
            let ghost closed0 = closed@;
            closed.push(current);
            proof {
                assert(closed@ == closed0.push(current));
                assert(closed@.last() == current);
                assert(current.coords() != e);
                assert forall|c: (int, int)| #[trigger] seq_has_coords(closed@, c) implies (
                seq_has_coords(closed0, c) || c == current.coords()) by {
                    let i = choose|i: int|
                        0 <= i < closed@.len() && (#[trigger] closed@[i]).coords() == c;
                    if i < closed0.len() {
                        assert(closed0[i].coords() == c);
                    }
                }
                assert forall|c: (int, int)| seq_has_coords(closed0, c) implies
                    #[trigger] seq_has_coords(closed@, c) by {
                    let i = choose|i: int|
                        0 <= i < closed0.len() && (#[trigger] closed0[i]).coords() == c;
                    assert(closed@[i].coords() == c);
                }
                assert(seq_has_coords(closed@, current.coords()));
                assert(seq_has_coords(closed@, s)) by {
                    if closed0.len() == 0 {
                        assert(open0[0].coords() == s);
                        assert(current.coords() == s);
                    }
                }
                assert(seq_has_coords(open0, current.coords())) by {
                    assert(open0[best as int].coords() == current.coords());
                }
                assert(distinct_coords(closed@)) by {
                    assert forall|i: int, j: int|
                        0 <= i < closed@.len() && 0 <= j < closed@.len() && i != j implies (
                    #[trigger] closed@[i]).coords() != (#[trigger] closed@[j]).coords() by {
                        if i < closed0.len() && j < closed0.len() {
                            assert(closed0[i].coords() != closed0[j].coords());
                        } else if i == closed0.len() {
                            assert(closed@[i] == current);
                            if closed@[j].coords() == current.coords() {
                                assert(closed0[j].coords() == current.coords());
                                assert(seq_has_coords(closed0, current.coords()));
                                assert(false);
                            }
                        } else {
                            assert(closed@[j] == current);
                            if closed@[i].coords() == current.coords() {
                                assert(closed0[i].coords() == current.coords());
                                assert(seq_has_coords(closed0, current.coords()));
                                assert(false);
                            }
                        }
                    }
                }
            }
            let ns = match graph.get_neighbors(&current) {
                Some(v) => v,
                None => {
                    proof {
                        assert(false);
                    }
                    return None;
                },
            };
            let nslen = ns.len();
            let mut k: usize = 0;
            while k < nslen
                invariant
                    graph.wf(),
                    graph.has_node(s),
                    graph.has_node(e),
                    end.0 == end_node.x && end.1 == end_node.y,
                    end_node.coords() == e,
                    nslen == ns@.len(),
                    0 <= k <= nslen,
                    graph.neighbor_list_sound(current.coords(), ns@),
                    distinct_coords(open@),
                    distinct_coords(closed@),
                    distinct_rec_keys(recs@),
                    forall|c: (int, int)|
                        !(#[trigger] seq_has_coords(open@, c) && seq_has_coords(closed@, c)),
                    forall|i: int| 0 <= i < open@.len() ==> graph.has_node((#[trigger] open@[i]).coords()),
                    forall|i: int|
                        0 <= i < closed@.len() ==> graph.has_node((#[trigger] closed@[i]).coords()),
                    closed@.len() > 0,
                    closed@.last() == current,
                    seq_has_coords(closed@, current.coords()),
                    seq_has_coords(closed@, s),
                    !seq_has_coords(closed@, e),
                    has_rec(recs@, current.coords()),
                    forall|i: int, d: (int, int)|
                        0 <= i < closed@.len() - 1 && #[trigger] graph.has_edge(
                            (#[trigger] closed@[i]).coords(),
                            d,
                        ) ==> seq_has_coords(open@, d) || seq_has_coords(closed@, d),
                    forall|k2: int|
                        0 <= k2 < k ==> seq_has_coords(open@, (#[trigger] ns@[k2]).coords())
                            || seq_has_coords(closed@, ns@[k2].coords()),
                    forall|i: int| 0 <= i < open@.len() ==> has_rec(recs@, (#[trigger] open@[i]).coords()),
                    forall|i: int|
                        0 <= i < closed@.len() ==> has_rec(recs@, (#[trigger] closed@[i]).coords()),
                    forall|i: int|
                        0 <= i < recs@.len() ==> seq_has_coords(
                            open@,
                            (#[trigger] recs@[i]).node.coords(),
                        ) || seq_has_coords(closed@, recs@[i].node.coords()),
                    forall|i: int|
                        0 <= i < recs@.len() ==> pred_ok(*graph, recs@, closed@, s, #[trigger] recs@[i]),
                decreases nslen - k,
            {
                let m = ns[k];
                proof {
                    assert(graph.has_edge(current.coords(), m.coords()));
                    graph.lemma_edge_endpoints(current.coords(), m.coords());
                }
                if !coords_in(&closed, m.x, m.y) {
                    let cur_idx = find_rec_idx(&recs, current.x, current.y);
                    proof {
                        lemma_rec_at_is(recs@, current.coords(), cur_idx as int);
                    }
                    let ghost cur_depth = recs@[cur_idx as int].depth@;
                    let tg = sat_add64(recs[cur_idx].g, step_cost(&current, &m));
                    let in_open = coords_in(&open, m.x, m.y);
                    proof {
                        // m is not at the start coordinate: the start is closed
                        assert(m.coords() != s);
                    }
                    if !in_open {
                        proof {
                            if has_rec(recs@, m.coords()) {
                                let i = choose|i: int|
                                    0 <= i < recs@.len() && (#[trigger] recs@[i]).node.coords()
                                        == m.coords();
                                assert(seq_has_coords(open@, recs@[i].node.coords())
                                    || seq_has_coords(closed@, recs@[i].node.coords()));
                                assert(false);
                            }
                        }
                        let hm = self.h(&m, &end_node);
                        let fm = sat_add64(tg, hm);
                        let ghost recs0 = recs@;
                        let ghost open1 = open@;
                        recs.push(
                            Rec {
                                node: m,
                                g: tg,
                                f: fm,
                                pred: Some(current),
                                depth: Ghost((cur_depth + 1) as nat),
                            },
                        );
                        open.push(m);
                        proof {
                            let n = recs0.len() as int;
                            assert(recs@ == recs0.push(recs@[n]));
                            assert(recs@[n].node == m);
                            assert forall|c: (int, int)| #[trigger] has_rec(recs0, c) implies
                                has_rec(recs@, c) by {
                                let i = choose|i: int|
                                    0 <= i < recs0.len() && (#[trigger] recs0[i]).node.coords() == c;
                                assert(recs@[i].node.coords() == c);
                            }
                            assert forall|c: (int, int)| #[trigger] seq_has_coords(open1, c)
                                implies seq_has_coords(open@, c) by {
                                let i = choose|i: int|
                                    0 <= i < open1.len() && (#[trigger] open1[i]).coords() == c;
                                assert(open@[i].coords() == c);
                            }
                            assert(open@ == open1.push(m));
                            assert(open@[open1.len() as int] == m);
                            assert(seq_has_coords(open@, m.coords()));
                            assert forall|c: (int, int)| #[trigger] seq_has_coords(open@, c)
                                implies (seq_has_coords(open1, c) || c == m.coords()) by {
                                let i = choose|i: int|
                                    0 <= i < open@.len() && (#[trigger] open@[i]).coords() == c;
                                if i < open1.len() {
                                    assert(open1[i].coords() == c);
                                }
                            }
                            // stability of every record's key-indexed view
                            assert forall|c: (int, int)| #[trigger] has_rec(recs0, c) implies
                                rec_at(recs@, c) == rec_at(recs0, c) by {
                                let i = choose|i: int|
                                    0 <= i < recs0.len() && (#[trigger] recs0[i]).node.coords() == c;
                                lemma_rec_at_is(recs0, c, i);
                                lemma_rec_at_is(recs@, c, i);
                            }
                            lemma_rec_at_is(recs@, m.coords(), n);
                            assert(rec_at(recs@, current.coords()).depth@ == cur_depth);
                            assert(pred_ok(*graph, recs@, closed@, s, recs@[n]));
                            assert forall|i: int| 0 <= i < recs@.len() implies pred_ok(
                                *graph,
                                recs@,
                                closed@,
                                s,
                                #[trigger] recs@[i],
                            ) by {
                                if i < n {
                                    assert(pred_ok(*graph, recs0, closed@, s, recs0[i]));
                                    match recs@[i].pred {
                                        None => {},
                                        Some(p) => {
                                            assert(has_rec(recs0, p.coords()));
                                            assert(rec_at(recs@, p.coords()) == rec_at(
                                                recs0,
                                                p.coords(),
                                            ));
                                        },
                                    }
                                }
                            }
                        }
                    } else {
                        let mi = find_rec_idx(&recs, m.x, m.y);
                        if tg < recs[mi].g {
                            let hm = self.h(&m, &end_node);
                            let fm = sat_add64(tg, hm);
                            let ghost recs0 = recs@;
                            let new_rec = Rec {
                                node: m,
                                g: tg,
                                f: fm,
                                pred: Some(current),
                                depth: Ghost((cur_depth + 1) as nat),
                            };
                            recs[mi] = new_rec;
                            proof {
                                let n = mi as int;
                                assert(recs@ == recs0.update(n, recs@[n]));
                                assert(recs@[n].node == m);
                                assert(recs0[n].node.coords() == m.coords());
                                assert(distinct_rec_keys(recs@)) by {
                                    assert forall|i: int, j: int|
                                        0 <= i < recs@.len() && 0 <= j < recs@.len() && i != j
                                            implies (#[trigger] recs@[i]).node.coords() != (
                                        #[trigger] recs@[j]).node.coords() by {
                                        assert(recs0[i].node.coords() != recs0[j].node.coords());
                                    }
                                }
                                assert forall|c: (int, int)| #[trigger] has_rec(recs0, c) implies
                                    has_rec(recs@, c) by {
                                    let i = choose|i: int|
                                        0 <= i < recs0.len() && (#[trigger] recs0[i]).node.coords()
                                            == c;
                                    assert(recs@[i].node.coords() == c);
                                }
                                assert forall|c: (int, int)| #[trigger] has_rec(recs@, c) implies
                                    has_rec(recs0, c) by {
                                    let i = choose|i: int|
                                        0 <= i < recs@.len() && (#[trigger] recs@[i]).node.coords()
                                            == c;
                                    assert(recs0[i].node.coords() == c);
                                }
                                // keys other than m's keep their records
                                assert forall|c: (int, int)|
                                    has_rec(recs0, c) && c != m.coords() implies #[trigger] rec_at(
                                    recs@,
                                    c,
                                ) == rec_at(recs0, c) by {
                                    let i = choose|i: int|
                                        0 <= i < recs0.len() && (#[trigger] recs0[i]).node.coords()
                                            == c;
                                    assert(i != n);
                                    lemma_rec_at_is(recs0, c, i);
                                    lemma_rec_at_is(recs@, c, i);
                                }
                                assert(current.coords() != m.coords());
                                assert(rec_at(recs@, current.coords()).depth@ == cur_depth);
                                lemma_rec_at_is(recs@, m.coords(), n);
                                assert(pred_ok(*graph, recs@, closed@, s, recs@[n]));
                                assert forall|i: int| 0 <= i < recs@.len() implies pred_ok(
                                    *graph,
                                    recs@,
                                    closed@,
                                    s,
                                    #[trigger] recs@[i],
                                ) by {
                                    if i != n {
                                        assert(recs@[i] == recs0[i]);
                                        assert(pred_ok(*graph, recs0, closed@, s, recs0[i]));
                                        match recs@[i].pred {
                                            None => {},
                                            Some(p) => {
                                                assert(seq_has_coords(closed@, p.coords()));
                                                assert(p.coords() != m.coords());
                                                assert(rec_at(recs@, p.coords()) == rec_at(
                                                    recs0,
                                                    p.coords(),
                                                ));
                                            },
                                        }
                                    }
                                }
                            }
                        }
                        proof {
                            assert(seq_has_coords(open@, m.coords()));
                        }
                    }
                }
                k = k + 1;
            }
            proof {
                // the closed list is again closed under edges, its new last
                // entry included, thanks to the completeness of `ns`
                assert forall|i: int, d: (int, int)|
                    0 <= i < closed@.len() && #[trigger] graph.has_edge(
                        (#[trigger] closed@[i]).coords(),
                        d,
                    ) implies seq_has_coords(open@, d) || seq_has_coords(closed@, d) by {
                    if i == closed@.len() - 1 {
                        assert(closed@[i] == current);
                        assert(graph.has_edge(current.coords(), d));
                        assert(graph.neighbor_list_complete(current.coords(), ns@));
                        let k2 = choose|k2: int|
                            0 <= k2 < ns@.len() && (#[trigger] ns@[k2]).coords() == d;
                        assert(seq_has_coords(open@, ns@[k2].coords()) || seq_has_coords(
                            closed@,
                            ns@[k2].coords(),
                        ));
                    }
                }
                assert(astar_inv(*graph, recs@, open@, closed@, s, e));
                graph.lemma_distinct_nodes_bound(closed@);
            }
        }
        // The open list ran dry: everything reachable from the start is
        // closed, and the goal never was.
        proof {
            assert(closed@.len() > 0);
            assert(seq_has_coords(closed@, s));
            assert forall|p: Seq<(int, int)>| !connects(*graph, p, s, e) by {
                if connects(*graph, p, s, e) {
                    assert(seq_has_coords(closed@, p[0]));
                    lemma_path_stays_closed(*graph, closed@, p);
                    assert(seq_has_coords(closed@, e));
                    assert(false);
                }
            }
            assert(!reachable(*graph, s, e));
        }
        None
    }
}

/// Index of the record keyed by the coordinates `(x, y)`.
fn find_rec_idx(recs: &Vec<Rec>, x: isize, y: isize) -> (i: usize)
    requires
        has_rec(recs@, (x as int, y as int)),
    ensures
        i < recs@.len(),
        recs@[i as int].node.coords() == (x as int, y as int),
{
    let n = recs.len();
    let mut i: usize = 0;
    while i < n
        invariant
            n == recs@.len(),
            0 <= i <= n,
            forall|j: int| 0 <= j < i ==> (#[trigger] recs@[j]).node.coords() != (x as int, y as int),
        decreases n - i,
    {
        if recs[i].node.x == x && recs[i].node.y == y {
            return i;
        }
        i = i + 1;
    }
    proof {
        assert(false);
    }
    0
}

/// Whether some entry of `v` has the coordinates `(x, y)`.
fn coords_in(v: &Vec<GraphNode>, x: isize, y: isize) -> (r: bool)
    ensures
        r == seq_has_coords(v@, (x as int, y as int)),
{
    let n = v.len();
    let mut i: usize = 0;
    while i < n
        invariant
            n == v@.len(),
            0 <= i <= n,
            forall|j: int| 0 <= j < i ==> (#[trigger] v@[j]).coords() != (x as int, y as int),
        decreases n - i,
    {
        if v[i].x == x && v[i].y == y {
            proof {
                assert(v@[i as int].coords() == (x as int, y as int));
            }
            return true;
        }
        i = i + 1;
    }
    false
}

/// Rebuilds the found path by following predecessor records back from
/// `goal` to the start coordinate, then reversing.
fn build_path(
    graph: &Graph,
    recs: &Vec<Rec>,
    goal: GraphNode,
    Ghost(s): Ghost<(int, int)>,
) -> (r: Vec<(isize, isize)>)
    requires
        graph.wf(),
        distinct_rec_keys(recs@),
        has_rec(recs@, goal.coords()),
        graph.has_node(goal.coords()),
        forall|i: int|
            0 <= i < recs@.len() ==> match (#[trigger] recs@[i]).pred {
                None => recs@[i].node.coords() == s,
                Some(p) => {
                    &&& g_pred_ok(*graph, recs@, recs@[i], p)
                },
            },
    ensures
        connects(*graph, path_view(r@), s, goal.coords()),
{
    let mut rev: Vec<GraphNode> = Vec::new();
    rev.push(goal);
    let mut cur: GraphNode = goal;
    loop
        invariant_except_break
            graph.wf(),
            distinct_rec_keys(recs@),
            forall|i: int|
                0 <= i < recs@.len() ==> match (#[trigger] recs@[i]).pred {
                    None => recs@[i].node.coords() == s,
                    Some(p) => {
                        &&& g_pred_ok(*graph, recs@, recs@[i], p)
                    },
                },
            has_rec(recs@, cur.coords()),
            graph.has_node(cur.coords()),
            rev@.len() >= 1,
            rev@[0] == goal,
            rev@.last() == cur,
            forall|i: int| 0 <= i < rev@.len() ==> graph.has_node((#[trigger] rev@[i]).coords()),
            forall|i: int|
                0 <= i < rev@.len() - 1 ==> graph.has_edge(
                    (#[trigger] rev@[i + 1]).coords(),
                    rev@[i].coords(),
                ),
        ensures
            rev@.len() >= 1,
            rev@[0] == goal,
            rev@.last() == cur,
            cur.coords() == s,
            forall|i: int| 0 <= i < rev@.len() ==> graph.has_node((#[trigger] rev@[i]).coords()),
            forall|i: int|
                0 <= i < rev@.len() - 1 ==> graph.has_edge(
                    (#[trigger] rev@[i + 1]).coords(),
                    rev@[i].coords(),
                ),
        decreases rec_at(recs@, cur.coords()).depth@,
    {
        let i = find_rec_idx(recs, cur.x, cur.y);
        proof {
            lemma_rec_at_is(recs@, cur.coords(), i as int);
        }
        match recs[i].pred {
            None => {
                proof {
                    assert(cur.coords() == s);
                }
                break ;
            },
            Some(p) => {
                proof {
                    assert(g_pred_ok(*graph, recs@, recs@[i as int], p));
                    assert(graph.has_edge(p.coords(), cur.coords()));
                    assert(rec_at(recs@, p.coords()).depth@ < rec_at(
                        recs@,
                        cur.coords(),
                    ).depth@);
                }
                rev.push(p);
                cur = p;
            },
        }
    }
    let ghost revs = rev@;
    let mut path: Vec<(isize, isize)> = Vec::new();
    let mut j = rev.len();
    while j > 0
        invariant
            revs == rev@,
            0 <= j <= rev@.len(),
            path@.len() == rev@.len() - j,
            forall|i: int|
                0 <= i < path@.len() ==> #[trigger] path@[i] == (
                rev@[rev@.len() - 1 - i].x,
                rev@[rev@.len() - 1 - i].y,
                ),
        decreases j,
    {
        j = j - 1;
        path.push((rev[j].x, rev[j].y));
    }
    proof {
        let pv = path_view(path@);
        let n = rev@.len() as int;
        assert(pv.len() == n);
        assert forall|i: int| 0 <= i < n implies #[trigger] pv[i] == rev@[n - 1 - i].coords() by {
            assert(path@[i] == (rev@[n - 1 - i].x, rev@[n - 1 - i].y));
        }
        assert forall|i: int| 0 <= i < n implies graph.has_node(#[trigger] pv[i]) by {
            assert(pv[i] == rev@[n - 1 - i].coords());
        }
        assert forall|i: int| 0 <= i < n - 1 implies graph.has_edge(#[trigger] pv[i], pv[i + 1]) by {
            assert(pv[i] == rev@[n - 1 - i].coords());
            assert(pv[i + 1] == rev@[n - 2 - i].coords());
            assert(graph.has_edge(rev@[(n - 2 - i) + 1].coords(), rev@[n - 2 - i].coords()));
        }
        assert(pv.first() == rev@[n - 1].coords());
        assert(rev@[n - 1] == rev@.last());
        assert(pv.last() == rev@[0].coords());
    }
    path
}

/// The predecessor part of a record is consistent: the predecessor has a
/// record of strictly smaller depth, is a node, and an edge joins it to
/// the record's own node.
spec fn g_pred_ok(g: Graph, recs: Seq<Rec>, r: Rec, p: GraphNode) -> bool {
    &&& g.has_edge(p.coords(), r.node.coords())
    &&& g.has_node(p.coords())
    &&& has_rec(recs, p.coords())
    &&& rec_at(recs, p.coords()).depth@ < r.depth@
}

} // verus!
