//! Undirected connectivity graph over integer grid coordinates.
//!
//! Nodes are identified purely by their coordinates; the neighbor relation is
//! kept symmetric at all times, and an edge may only connect nodes that were
//! both previously added.

use vstd::prelude::*;

verus! {

/// A node of the connectivity graph: a coordinate identity.
/// Two nodes with equal coordinates are interchangeable.
#[derive(Clone, Copy, PartialEq, Eq, Structural, Hash, Debug)]
pub struct GraphNode {
    pub x: isize,
    pub y: isize,
}

impl GraphNode {
    /// The mathematical coordinates of this node.
    pub open spec fn coords(self) -> (int, int) {
        (self.x as int, self.y as int)
    }

    pub fn new(x: isize, y: isize) -> (r: GraphNode)
        ensures
            r.x == x,
            r.y == y,
    {
        GraphNode { x, y }
    }

    pub fn get_x(&self) -> (r: isize)
        ensures
            r == self.x,
    {
        self.x
    }

    pub fn get_y(&self) -> (r: isize)
        ensures
            r == self.y,
    {
        self.y
    }

    /// Squared Euclidean distance between two nodes' coordinates.
    /// The bound on the result is a machine limit: the sum of the two
    /// squares has to fit the result type.
    pub fn distance_sq_to(&self, other: &GraphNode) -> (r: u128)
        requires
            (self.x - other.x) * (self.x - other.x) + (self.y - other.y) * (self.y - other.y)
                <= u128::MAX,
        ensures
            r == (self.x - other.x) * (self.x - other.x) + (self.y - other.y) * (self.y
                - other.y),
    {
        let dxa: u128 = if self.x >= other.x {
            (self.x as i128 - other.x as i128) as u128
        } else {
            (other.x as i128 - self.x as i128) as u128
        };
        let dya: u128 = if self.y >= other.y {
            (self.y as i128 - other.y as i128) as u128
        } else {
            (other.y as i128 - self.y as i128) as u128
        };
        proof {
            assert(dxa * dxa >= 0 && dya * dya >= 0 && dxa * dxa == (self.x - other.x) * (self.x
                - other.x) && dya * dya == (self.y - other.y) * (self.y - other.y))
                by (nonlinear_arith)
                requires
                    dxa == if self.x >= other.x {
                        self.x - other.x
                    } else {
                        other.x - self.x
                    },
                    dya == if self.y >= other.y {
                        self.y - other.y
                    } else {
                        other.y - self.y
                    },
            ;
        }
        dxa * dxa + dya * dya
    }
}

/// Undirected graph: each added node owns a list of neighbor nodes,
/// mirrored in both directions.
pub struct Graph {
    nodes: Vec<GraphNode>,
    adj: Vec<Vec<GraphNode>>,
}

impl Clone for Graph {
    fn clone(&self) -> (r: Graph)
        ensures
            self.wf() ==> r.wf(),
            r.spec_node_count() == self.spec_node_count(),
            forall|c: (int, int)| #[trigger] r.has_node(c) <==> self.has_node(c),
            self.wf() ==> forall|a: (int, int), b: (int, int)|
                #[trigger] r.has_edge(a, b) <==> self.has_edge(a, b),
    {
        let nodes = self.nodes.clone();
        let n = self.adj.len();
        let mut adj: Vec<Vec<GraphNode>> = Vec::new();
        let mut i: usize = 0;
        while i < n
            invariant
                n == self.adj.len(),
                0 <= i <= n,
                adj@.len() == i,
                forall|j: int| 0 <= j < i ==> (#[trigger] adj@[j])@ =~= self.adj[j]@,
            decreases n - i,
        {
            let row = self.adj[i].clone();
            proof {
                assert(row@ =~= self.adj[i as int]@);
            }
            adj.push(row);
            i = i + 1;
        }
        proof {
            assert(nodes@ =~= self.nodes@);
        }
        let r = Graph { nodes, adj };
        proof {
            assert forall|c: (int, int)| #[trigger] r.has_node(c) <==> self.has_node(c) by {
                if r.has_node(c) {
                    let k = choose|k: int| 0 <= k < r.nodes.len() && r.nodes[k].coords() == c;
                    assert(self.nodes[k].coords() == c);
                }
                if self.has_node(c) {
                    let k = choose|k: int|
                        0 <= k < self.nodes.len() && self.nodes[k].coords() == c;
                    assert(r.nodes[k].coords() == c);
                }
            }
            assert(self.wf() ==> r.wf()) by {
                if self.wf() {
                    assert(r.wf_base());
                    assert forall|a: (int, int), b: (int, int)| #[trigger] r.has_edge(a, b)
                        implies r.has_edge(b, a) by {
                        let (k, m) = choose|k: int, m: int|
                            0 <= k < r.nodes.len() && r.nodes[k].coords() == a && 0 <= m
                                < r.adj[k].len() && r.adj[k][m].coords() == b;
                        assert(r.adj@[k]@ =~= self.adj@[k]@);
                        assert(self.has_edge(a, b));
                        assert(self.has_edge(b, a));
                        let (k2, m2) = choose|k2: int, m2: int|
                            0 <= k2 < self.nodes.len() && self.nodes[k2].coords() == b && 0 <= m2
                                < self.adj[k2].len() && self.adj[k2][m2].coords() == a;
                        assert(r.adj@[k2]@ =~= self.adj@[k2]@);
                        assert(r.nodes[k2].coords() == b && r.adj[k2][m2].coords() == a);
                    }
                    assert(r.wf());
                }
            }
            if self.wf() {
            assert forall|a: (int, int), b: (int, int)| #[trigger] r.has_edge(a, b) <==>
                self.has_edge(a, b) by {
                if r.has_edge(a, b) {
                    let (k, m) = choose|k: int, m: int|
                        0 <= k < r.nodes.len() && r.nodes[k].coords() == a && 0 <= m
                            < r.adj[k].len() && r.adj[k][m].coords() == b;
                    assert(r.adj@[k]@ =~= self.adj@[k]@);
                    assert(self.nodes[k].coords() == a);
                    assert(self.adj[k][m].coords() == b);
                }
                if self.has_edge(a, b) {
                    let (k, m) = choose|k: int, m: int|
                        0 <= k < self.nodes.len() && self.nodes[k].coords() == a && 0 <= m
                            < self.adj[k].len() && self.adj[k][m].coords() == b;
                    assert(r.adj@[k]@ =~= self.adj@[k]@);
                    assert(r.nodes[k].coords() == a);
                    assert(r.adj[k][m].coords() == b);
                }
            }
            }
        }
        r
    }
}

impl Graph {
    /// The coordinate `c` names a node of the graph.
    pub closed spec fn has_node(self, c: (int, int)) -> bool {
        exists|i: int| 0 <= i < self.nodes.len() && self.nodes[i].coords() == c
    }

    /// The graph holds an edge from coordinate `a` to coordinate `b`
    /// (recorded in `a`'s neighbor list).
    pub closed spec fn has_edge(self, a: (int, int), b: (int, int)) -> bool {
        exists|i: int, k: int|
            0 <= i < self.nodes.len() && self.nodes[i].coords() == a && 0 <= k
                < self.adj[i].len() && self.adj[i][k].coords() == b
    }

    /// Number of nodes in the graph.
    pub closed spec fn spec_node_count(self) -> int {
        self.nodes.len() as int
    }

    /// The node count is never negative.
    pub proof fn lemma_node_count_nonneg(self)
        ensures
            self.spec_node_count() >= 0,
    {
    }

    /// Well-formedness except for symmetry of the neighbor relation: one
    /// neighbor list per node, no duplicate nodes, every neighbor is itself
    /// a node, and neighbor lists hold no duplicates.
    spec fn wf_base(self) -> bool {
        &&& self.adj.len() == self.nodes.len()
        &&& (forall|i: int, j: int|
            0 <= i < self.nodes.len() && 0 <= j < self.nodes.len() && i != j
                ==> #[trigger] self.nodes[i].coords() != #[trigger] self.nodes[j].coords())
        &&& (forall|i: int, k: int|
            0 <= i < self.nodes.len() && 0 <= k < self.adj[i].len() ==> self.has_node(
                (#[trigger] self.adj[i][k]).coords(),
            ))
        &&& (forall|i: int, k1: int, k2: int|
            0 <= i < self.nodes.len() && 0 <= k1 < self.adj[i].len() && 0 <= k2
                < self.adj[i].len() && k1 != k2 ==> (#[trigger] self.adj[i][k1]).coords() != (
            #[trigger] self.adj[i][k2]).coords())
    }

    /// Well-formedness: the base conditions plus symmetry.
    pub closed spec fn wf(self) -> bool {
        &&& self.wf_base()
        &&& (forall|a: (int, int), b: (int, int)|
            #[trigger] self.has_edge(a, b) ==> self.has_edge(b, a))
    }

    /// Every edge endpoint is a node of the graph.
    pub proof fn lemma_edge_endpoints(self, a: (int, int), b: (int, int))
        requires
            self.wf(),
            self.has_edge(a, b),
        ensures
            self.has_node(a),
            self.has_node(b),
    {
        let (i, k) = choose|i: int, k: int|
            0 <= i < self.nodes.len() && self.nodes[i].coords() == a && 0 <= k
                < self.adj[i].len() && self.adj[i][k].coords() == b;
        assert(self.has_node(self.nodes[i].coords()));
    }

    /// The neighbor relation is symmetric.
    pub proof fn lemma_edge_symmetric(self, a: (int, int), b: (int, int))
        requires
            self.wf(),
            self.has_edge(a, b),
        ensures
            self.has_edge(b, a),
    {
    }

    pub fn new() -> (r: Graph)
        ensures
            r.wf(),
            r.spec_node_count() == 0,
            forall|c: (int, int)| !r.has_node(c),
            forall|a: (int, int), b: (int, int)| !r.has_edge(a, b),
    {
        Graph { nodes: Vec::new(), adj: Vec::new() }
    }

    /// Index of the node with coordinates `(x, y)`, if present.
    fn find_index(&self, x: isize, y: isize) -> (r: Option<usize>)
        ensures
            match r {
                Some(i) => 0 <= i < self.nodes.len() && self.nodes[i as int].coords() == (
                x as int,
                y as int,
                ),
                None => !self.has_node((x as int, y as int)),
            },
    {
        let n = self.nodes.len();
        let mut i: usize = 0;
        while i < n
            invariant
                n == self.nodes.len(),
                0 <= i <= n,
                forall|j: int| 0 <= j < i ==> self.nodes[j].coords() != (x as int, y as int),
            decreases n - i,
        {
            if self.nodes[i].x == x && self.nodes[i].y == y {
                return Some(i);
            }
            i = i + 1;
        }
        None
    }

    /// Adds a node at `(x, y)` with no neighbors. Adding a coordinate that
    /// is already present leaves the graph unchanged, so that the symmetry
    /// of the neighbor relation is never broken.
    pub fn add_node_at(&mut self, x: isize, y: isize)
        requires
            old(self).wf(),
        ensures
            final(self).wf(),
            final(self).has_node((x as int, y as int)),
            forall|c: (int, int)|
                #[trigger] final(self).has_node(c) <==> (old(self).has_node(c) || c == (
                x as int,
                y as int,
                )),
            forall|a: (int, int), b: (int, int)|
                #[trigger] final(self).has_edge(a, b) <==> old(self).has_edge(a, b),
            final(self).spec_node_count() <= old(self).spec_node_count() + 1,
    {
        let ghost pre = *self;
        if self.find_index(x, y).is_none() {
            self.nodes.push(GraphNode { x, y });
            self.adj.push(Vec::new());
            proof {
                let n = pre.nodes.len() as int;
                assert(self.nodes[n].coords() == (x as int, y as int));
                assert forall|c: (int, int)| #[trigger] self.has_node(c) implies (pre.has_node(c)
                    || c == (x as int, y as int)) by {
                    let i = choose|i: int|
                        0 <= i < self.nodes.len() && self.nodes[i].coords() == c;
                    if i < n {
                        assert(pre.nodes[i].coords() == c);
                    }
                }
                assert forall|c: (int, int)| pre.has_node(c) implies #[trigger] self.has_node(
                    c,
                ) by {
                    let i = choose|i: int| 0 <= i < pre.nodes.len() && pre.nodes[i].coords() == c;
                    assert(self.nodes[i].coords() == c);
                }
                assert forall|a: (int, int), b: (int, int)| #[trigger] self.has_edge(a, b) implies
                    pre.has_edge(a, b) by {
                    let (i, k) = choose|i: int, k: int|
                        0 <= i < self.nodes.len() && self.nodes[i].coords() == a && 0 <= k
                            < self.adj[i].len() && self.adj[i][k].coords() == b;
                    assert(i != n);
                    assert(pre.nodes[i].coords() == a && pre.adj[i][k].coords() == b);
                }
                assert forall|a: (int, int), b: (int, int)| pre.has_edge(a, b) implies
                    #[trigger] self.has_edge(a, b) by {
                    let (i, k) = choose|i: int, k: int|
                        0 <= i < pre.nodes.len() && pre.nodes[i].coords() == a && 0 <= k
                            < pre.adj[i].len() && pre.adj[i][k].coords() == b;
                    assert(self.nodes[i].coords() == a && self.adj[i][k].coords() == b);
                }
            }
        }
    }

    /// The node at `(x, y)`, if one has been added there.
    pub fn find_node_at(&self, x: isize, y: isize) -> (r: Option<GraphNode>)
        ensures
            match r {
                Some(n) => self.has_node((x as int, y as int)) && n.x == x && n.y == y,
                None => !self.has_node((x as int, y as int)),
            },
    {
        match self.find_index(x, y) {
            Some(i) => {
                let node = self.nodes[i];
                proof {
                    assert(self.has_node((x as int, y as int)));
                }
                Some(node)
            },
            None => None,
        }
    }

    pub fn find_node_at_tuple(&self, coords: (isize, isize)) -> (r: Option<GraphNode>)
        ensures
            match r {
                Some(n) => self.has_node((coords.0 as int, coords.1 as int)) && n.x == coords.0
                    && n.y == coords.1,
                None => !self.has_node((coords.0 as int, coords.1 as int)),
            },
    {
        let (x, y) = coords;
        self.find_node_at(x, y)
    }

    /// Does node `i`'s neighbor list already hold the coordinates of `m`?
    fn row_contains(&self, i: usize, m: &GraphNode) -> (r: bool)
        requires
            i < self.adj.len(),
        ensures
            r == exists|j: int|
                0 <= j < self.adj[i as int].len() && (#[trigger] self.adj[i as int][j]).coords()
                    == m.coords(),
    {
        let row_len = self.adj[i].len();
        let mut k: usize = 0;
        while k < row_len
            invariant
                i < self.adj.len(),
                row_len == self.adj[i as int].len(),
                0 <= k <= row_len,
                forall|j: int|
                    0 <= j < k ==> (#[trigger] self.adj[i as int][j]).coords() != m.coords(),
            decreases row_len - k,
        {
            if self.adj[i][k].x == m.x && self.adj[i][k].y == m.y {
                assert(self.adj[i as int][k as int].coords() == m.coords());
                return true;
            }
            k = k + 1;
        }
        false
    }

    /// Appends `m` to node `i`'s neighbor list unless it is already there.
    fn insert_neighbor(&mut self, i: usize, m: GraphNode)
        requires
            old(self).wf_base(),
            i < old(self).nodes.len(),
            old(self).has_node(m.coords()),
        ensures
            final(self).wf_base(),
            final(self).nodes == old(self).nodes,
            forall|c: (int, int), d: (int, int)|
                #[trigger] final(self).has_edge(c, d) <==> (old(self).has_edge(c, d) || (c, d) == (
                old(self).nodes[i as int].coords(),
                m.coords(),
                )),
    {
        let ghost pre = *self;
        let ghost ic = i as int;
        if self.row_contains(i, &m) {
            proof {
                assert(self.has_edge(self.nodes[ic].coords(), m.coords()));
                assert forall|c: (int, int), d: (int, int)| #[trigger] self.has_edge(c, d) <==> (
                pre.has_edge(c, d) || (c, d) == (pre.nodes[ic].coords(), m.coords())) by {}
            }
        } else {
            let mut row = self.adj[i].clone();
            row.push(m);
            proof {
                assert(row@ =~= self.adj[ic]@.push(m));
            }
            self.adj[i] = row;
            proof {
                let n = self.adj[ic].len() - 1;
                assert(self.adj[ic][n] == m);
                assert(self.nodes == pre.nodes);
                let iw = choose|iw: int|
                    0 <= iw < pre.nodes.len() && pre.nodes[iw].coords() == m.coords();
                assert(self.nodes[iw].coords() == m.coords());
                assert(self.has_node(m.coords()));
                assert forall|c: (int, int), d: (int, int)| #[trigger] self.has_edge(c, d) implies
                    (pre.has_edge(c, d) || (c, d) == (pre.nodes[ic].coords(), m.coords())) by {
                    let (i2, k2) = choose|i2: int, k2: int|
                        0 <= i2 < self.nodes.len() && self.nodes[i2].coords() == c && 0 <= k2
                            < self.adj[i2].len() && self.adj[i2][k2].coords() == d;
                    if i2 == ic && k2 == n {
                    } else {
                        assert(pre.nodes[i2].coords() == c && pre.adj[i2][k2].coords() == d);
                    }
                }
                assert forall|c: (int, int), d: (int, int)| pre.has_edge(c, d) implies
                    #[trigger] self.has_edge(c, d) by {
                    let (i2, k2) = choose|i2: int, k2: int|
                        0 <= i2 < pre.nodes.len() && pre.nodes[i2].coords() == c && 0 <= k2
                            < pre.adj[i2].len() && pre.adj[i2][k2].coords() == d;
                    assert(self.nodes[i2].coords() == c && self.adj[i2][k2].coords() == d);
                }
                assert(self.has_edge(pre.nodes[ic].coords(), m.coords()));
            }
        }
    }

    /// Records the undirected edge `a -- b`. Returns `false`, leaving the
    /// graph unchanged, if either endpoint has not been added.
    pub fn connect_nodes(&mut self, a: &GraphNode, b: &GraphNode) -> (r: bool)
        requires
            old(self).wf(),
        ensures
            final(self).wf(),
            r == (old(self).has_node(a.coords()) && old(self).has_node(b.coords())),
            forall|c: (int, int)| #[trigger] final(self).has_node(c) <==> old(self).has_node(c),
            final(self).spec_node_count() == old(self).spec_node_count(),
            forall|c: (int, int), d: (int, int)|
                #[trigger] final(self).has_edge(c, d) <==> (old(self).has_edge(c, d) || (r && ((c, d) == (
                a.coords(),
                b.coords(),
                ) || (c, d) == (b.coords(), a.coords())))),
    {
        let ghost pre = *self;
        let ia_opt = self.find_index(a.x, a.y);
        let ib_opt = self.find_index(b.x, b.y);
        match (ia_opt, ib_opt) {
            (Some(ia), Some(ib)) => {
                proof {
                    assert(pre.has_node(a.coords()));
                    assert(pre.has_node(b.coords()));
                }
                self.insert_neighbor(ia, *b);
                let ghost mid = *self;
                self.insert_neighbor(ib, *a);
                proof {
                    assert(pre.nodes[ia as int].coords() == a.coords());
                    assert(pre.nodes[ib as int].coords() == b.coords());
                    assert forall|c: (int, int)| #[trigger] self.has_node(c) <==> pre.has_node(
                        c,
                    ) by {
                        assert(self.nodes == pre.nodes);
                    }
                    assert forall|c: (int, int), d: (int, int)| #[trigger] self.has_edge(c, d)
                        implies self.has_edge(d, c) by {
                        if pre.has_edge(c, d) {
                            assert(pre.has_edge(d, c));
                        }
                    }
                }
                true
            },
            _ => false,
        }
    }

    pub fn connect_nodes_at(&mut self, ax: isize, ay: isize, bx: isize, by: isize) -> (r: bool)
        requires
            old(self).wf(),
        ensures
            final(self).wf(),
            r == (old(self).has_node((ax as int, ay as int)) && old(self).has_node(
                (bx as int, by as int),
            )),
            forall|c: (int, int)| #[trigger] final(self).has_node(c) <==> old(self).has_node(c),
            final(self).spec_node_count() == old(self).spec_node_count(),
            forall|c: (int, int), d: (int, int)|
                #[trigger] final(self).has_edge(c, d) <==> (old(self).has_edge(c, d) || (r && ((c, d) == (
                (ax as int, ay as int),
                (bx as int, by as int),
                ) || (c, d) == ((bx as int, by as int), (ax as int, ay as int))))),
    {
        match (self.find_node_at(ax, ay), self.find_node_at(bx, by)) {
            (Some(a), Some(b)) => self.connect_nodes(&a, &b),
            _ => false,
        }
    }

    /// Every entry of `ns` is a neighbor of the coordinate `c`.
    pub open spec fn neighbor_list_sound(self, c: (int, int), ns: Seq<GraphNode>) -> bool {
        forall|k: int| 0 <= k < ns.len() ==> self.has_edge(c, (#[trigger] ns[k]).coords())
    }

    /// Every neighbor of the coordinate `c` appears in `ns`.
    pub open spec fn neighbor_list_complete(self, c: (int, int), ns: Seq<GraphNode>) -> bool {
        forall|d: (int, int)|
            #[trigger] self.has_edge(c, d) ==> exists|k: int| 0 <= k < ns.len() && ns[k].coords()
                == d
    }

    /// A copy of the neighbor list of `node`, or `None` if `node` has not
    /// been added. The list holds exactly the neighbors of `node`, each once.
    pub fn get_neighbors(&self, node: &GraphNode) -> (r: Option<Vec<GraphNode>>)
        requires
            self.wf(),
        ensures
            r is Some <==> self.has_node(node.coords()),
            r matches Some(ns) ==> self.neighbor_list_sound(node.coords(), ns@)
                && self.neighbor_list_complete(node.coords(), ns@),
            r matches Some(ns) ==> forall|k1: int, k2: int|
                0 <= k1 < ns@.len() && 0 <= k2 < ns@.len() && k1 != k2 ==> (
                #[trigger] ns@[k1]).coords() != (#[trigger] ns@[k2]).coords(),
    {
        match self.find_index(node.x, node.y) {
            Some(i) => {
                let ghost ic = i as int;
                let ns = self.adj[i].clone();
                proof {
                    assert(ns@ =~= self.adj[ic]@);
                    assert(self.has_node(node.coords()));
                    assert forall|k: int| 0 <= k < ns.len() implies self.has_edge(
                        node.coords(),
                        (#[trigger] ns[k]).coords(),
                    ) by {
                        assert(0 <= ic < self.nodes.len() && self.nodes[ic].coords()
                            == node.coords() && 0 <= k < self.adj[ic].len()
                            && self.adj[ic][k].coords() == ns[k].coords());
                    }
                    assert forall|d: (int, int)| #[trigger] self.has_edge(node.coords(), d)
                        implies exists|k: int| 0 <= k < ns.len() && ns[k].coords() == d by {
                        let (i2, k2) = choose|i2: int, k2: int|
                            0 <= i2 < self.nodes.len() && self.nodes[i2].coords() == node.coords()
                                && 0 <= k2 < self.adj[i2].len() && self.adj[i2][k2].coords() == d;
                        assert(i2 == ic);
                        assert(0 <= k2 < ns.len() && ns[k2].coords() == d);
                    }
                    assert(self.neighbor_list_sound(node.coords(), ns@));
                    assert(self.neighbor_list_complete(node.coords(), ns@));
                }
                Some(ns)
            },
            None => None,
        }
    }

    /// A list of nodes of the graph with pairwise distinct coordinates can
    /// be no longer than the graph's node count.
    pub proof fn lemma_distinct_nodes_bound(self, s: Seq<GraphNode>)
        requires
            self.wf(),
            forall|i: int, j: int|
                0 <= i < s.len() && 0 <= j < s.len() && i != j ==> (#[trigger] s[i]).coords() != (
                #[trigger] s[j]).coords(),
            forall|i: int| 0 <= i < s.len() ==> self.has_node((#[trigger] s[i]).coords()),
        ensures
            s.len() <= self.spec_node_count(),
    {
        broadcast use vstd::seq_lib::seq_to_set_is_finite;

        assert(s.no_duplicates()) by {
            assert forall|i: int, j: int| 0 <= i < s.len() && 0 <= j < s.len() && i != j implies
                s[i] != s[j] by {
                assert(s[i].coords() != s[j].coords());
            }
        }
        assert forall|a: GraphNode| s.to_set().contains(a) implies self.nodes@.to_set().contains(
            a,
        ) by {
            let i = choose|i: int| 0 <= i < s.len() && s[i] == a;
            assert(self.has_node(s[i].coords()));
            let k = choose|k: int|
                0 <= k < self.nodes.len() && self.nodes[k].coords() == s[i].coords();
            assert(self.nodes[k].x == a.x && self.nodes[k].y == a.y);
            assert(self.nodes[k] == a);
            assert(self.nodes@.to_set().contains(self.nodes@[k]));
        }
        assert(s.to_set() <= self.nodes@.to_set());
        s.unique_seq_to_set();
        self.nodes@.lemma_cardinality_of_set();
        vstd::set_lib::lemma_len_subset(s.to_set(), self.nodes@.to_set());
    }

    /// Number of nodes that have been added.
    pub fn node_count(&self) -> (r: usize)
        ensures
            r == self.spec_node_count(),
    {
        self.nodes.len()
    }
}

} // verus!
