//! The path-solver work queue.
//!
//! A `Solver` holds submitted problems and resolves them with one A* search
//! instance running the diagonal heuristic, in submission order, one per
//! `poll`. Results carry the caller-assigned id, and a caller correlates
//! responses to requests purely through it: no ordering is promised between
//! the completions of different solvers. A program that wants searching off
//! its interactive thread runs solvers on workers and forwards problems and
//! solutions over its own channels; the queue bookkeeping and the search
//! itself stand here.

use vstd::prelude::*;

use crate::graph::Graph;
use crate::search::AStarSearch;
use crate::search::Heuristic;
use crate::search::SearchStrategy;
use crate::search::connects;
use crate::search::coord_view;
use crate::search::path_view;
use crate::search::reachable;

verus! {

/// One queued request: the caller's id, the graph to search, and the start
/// and goal coordinates.
pub struct Problem {
    pub id: usize,
    pub graph: Graph,
    pub start: (isize, isize),
    pub end: (isize, isize),
}

/// The response to a `Problem`: the same id, and the found path, or `None`
/// when an endpoint is missing from the graph or no route exists.
pub struct Solution {
    pub id: usize,
    pub path: Option<Vec<(isize, isize)>>,
}

/// A work queue resolving path problems with the diagonal-heuristic A*.
pub struct Solver {
    pending: Vec<Problem>,
    search: AStarSearch,
    count: usize,
}

impl Solver {
    /// The queued problems, oldest first, as (id, graph, start, end).
    pub closed spec fn spec_pending(self) -> Seq<(int, Graph, (int, int), (int, int))> {
        self.pending@.map_values(
            |p: Problem| (p.id as int, p.graph, coord_view(p.start), coord_view(p.end)),
        )
    }

    /// Bookkeeping consistency: the count tracks the queue, every queued
    /// graph is well-formed, and the search runs the diagonal heuristic.
    pub closed spec fn wf(self) -> bool {
        &&& self.count == self.pending@.len()
        &&& forall|i: int| 0 <= i < self.pending@.len() ==> (#[trigger] self.pending@[i]).graph.wf()
        &&& self.search.heuristic == Heuristic::Diagonal
    }

    /// An empty solver.
    pub fn new() -> (r: Solver)
        ensures
            r.wf(),
            r.spec_pending().len() == 0,
    {
        Solver { pending: Vec::new(), search: AStarSearch::new_diagonal(), count: 0 }
    }

    /// Queues the problem `(id, start, end)` against `graph`.
    pub fn queue_solve(
        &mut self,
        id: usize,
        graph: &Graph,
        start: (isize, isize),
        end: (isize, isize),
    )
        requires
            old(self).wf(),
            graph.wf(),
            old(self).spec_pending().len() < usize::MAX,
        ensures
            final(self).wf(),
            final(self).spec_pending().len() == old(self).spec_pending().len() + 1,
            final(self).spec_pending().last() == (
                id as int,
                final(self).spec_pending().last().1,
                coord_view(start),
                coord_view(end),
            ),
            final(self).spec_pending().last().1.wf(),
            forall|c: (int, int)|
                #[trigger] final(self).spec_pending().last().1.has_node(c) <==> graph.has_node(c),
            forall|a: (int, int), b: (int, int)|
                #[trigger] final(self).spec_pending().last().1.has_edge(a, b) <==> graph.has_edge(
                    a,
                    b,
                ),
            forall|i: int|
                0 <= i < old(self).spec_pending().len() ==> #[trigger] final(self).spec_pending()[i]
                    == old(self).spec_pending()[i],
    {
        let g = graph.clone();
        self.pending.push(Problem { id, graph: g, start, end });
        self.count = self.count + 1;
        proof {
            assert(self.spec_pending() =~= old(self).spec_pending().push(
                self.spec_pending().last(),
            ));
        }
    }

    /// Resolves and returns the oldest queued problem, or `None` when
    /// nothing is queued. The returned path meets the search's contract
    /// against the problem's own graph: it is `Some` exactly when both
    /// endpoints are nodes and a path joins them, and then it is such a
    /// path.
    pub fn poll(&mut self) -> (r: Option<Solution>)
        requires
            old(self).wf(),
        ensures
            final(self).wf(),
            r is None <==> old(self).spec_pending().len() == 0,
            r is None ==> final(self).spec_pending() == old(self).spec_pending(),
            r matches Some(s) ==> {
                let q = old(self).spec_pending()[0];
                &&& final(self).spec_pending() == old(self).spec_pending().drop_first()
                &&& s.id == q.0
                &&& (s.path is Some ==> q.1.has_node(q.2) && q.1.has_node(q.3))
                &&& (s.path matches Some(p) ==> connects(q.1, path_view(p@), q.2, q.3))
                &&& (s.path is None ==> !q.1.has_node(q.2) || !q.1.has_node(q.3) || !reachable(
                    q.1,
                    q.2,
                    q.3,
                ))
            },
    {
        if self.pending.len() == 0 {
            return None;
        }
        let ghost pending0 = self.spec_pending();
        let p = self.pending.remove(0);
        self.count = self.count - 1;
        let path = self.search.solve(&p.graph, p.start, p.end);
        proof {
            assert(self.spec_pending() =~= pending0.drop_first());
        }
        Some(Solution { id: p.id, path })
    }

    /// How many problems are queued and unresolved.
    pub fn get_problem_count(&self) -> (r: usize)
        requires
            self.wf(),
        ensures
            r == self.spec_pending().len(),
    {
        self.count
    }
}

} // verus!
