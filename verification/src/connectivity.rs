//! The connectivity check: which nodes can be reached from the first one.

use crate::fixed::in_range;
use crate::graph::{Graph, GraphView};
use crate::node::NodeView;
use crate::text::texts;
use vstd::prelude::*;

verus! {

impl GraphView {
    /// Whether an edge joins the nodes `i` and `j`, in either direction.
    pub open spec fn adjacent(self, i: int, j: int) -> bool {
        exists|k: int|
            0 <= k < self.edges.len() && ((#[trigger] self.edges[k]).from == i && self.edges[k].to
                == j || self.edges[k].from == j && self.edges[k].to == i)
    }

    /// A path is a non-empty sequence of nodes in which each is joined to the
    /// next by an edge.
    pub open spec fn is_path(self, path: Seq<int>) -> bool {
        &&& path.len() > 0
        &&& forall|s: int|
            0 <= s < path.len() - 1 ==> self.adjacent(#[trigger] path[s], path[s + 1])
    }

    /// Whether a path leads from node `from` to node `to`. Edges count in
    /// both directions, visible or not.
    pub open spec fn reachable(self, from: int, to: int) -> bool {
        exists|path: Seq<int>| #[trigger]
            self.is_path(path) && path[0] == from && path.last() == to
    }

    /// Whether every node can be reached from the first one. A graph without
    /// nodes is connected.
    pub open spec fn connected(self) -> bool {
        forall|i: int| 0 <= i < self.nodes.len() ==> self.reachable(0, i)
    }

    /// The graph after a scan: a node is marked as visited exactly if it can
    /// be reached from the first node.
    pub open spec fn scanned(self) -> GraphView {
        GraphView {
            nodes: Seq::new(
                self.nodes.len(),
                |i: int| NodeView { visited: self.reachable(0, i), ..self.nodes[i] },
            ),
            ..self
        }
    }
}

/// The names of the nodes whose `visited` flag is `flag`, in store order.
pub open spec fn names_marked(nodes: Seq<NodeView>, flag: bool) -> Seq<Seq<char>>
    decreases nodes.len(),
{
    if nodes.len() == 0 {
        Seq::empty()
    } else if nodes.last().visited == flag {
        names_marked(nodes.drop_last(), flag).push(nodes.last().name)
    } else {
        names_marked(nodes.drop_last(), flag)
    }
}

/// The names of the visited nodes and the names of the others divide the
/// nodes between them.
pub proof fn lemma_names_divide(nodes: Seq<NodeView>)
    ensures
        names_marked(nodes, true).len() + names_marked(nodes, false).len() == nodes.len(),
    decreases nodes.len(),
{
    if nodes.len() > 0 {
        lemma_names_divide(nodes.drop_last());
    }
}

/// A scan keeps a graph well formed and moves no node.
pub proof fn lemma_scanned(g: GraphView)
    requires
        g.wf(),
    ensures
        g.scanned().wf(),
        g.scanned().positions() == g.positions(),
{
    let h = g.scanned();
    assert forall|i: int, j: int| 0 <= i < j < h.nodes.len() implies h.nodes[i].name
        != h.nodes[j].name by {
        assert(g.nodes[i].name != g.nodes[j].name);
    }
    assert forall|i: int| 0 <= i < h.nodes.len() implies in_range((#[trigger] h.nodes[i]).x)
        && in_range(h.nodes[i].y) by {
        assert(in_range(g.nodes[i].x) && in_range(g.nodes[i].y));
    }
    assert forall|k: int| 0 <= k < h.edges.len() implies h.edge_wf(#[trigger] h.edges[k]) by {
        assert(g.edge_wf(g.edges[k]));
    }
    assert(h.positions() =~= g.positions());
}

/// How many of the flags are set.
pub open spec fn count_set(flags: Seq<bool>) -> nat
    decreases flags.len(),
{
    if flags.len() == 0 {
        0
    } else if flags.last() {
        count_set(flags.drop_last()) + 1
    } else {
        count_set(flags.drop_last())
    }
}

proof fn lemma_count_bound(flags: Seq<bool>)
    ensures
        count_set(flags) <= flags.len(),
    decreases flags.len(),
{
    if flags.len() > 0 {
        lemma_count_bound(flags.drop_last());
    }
}

proof fn lemma_count_grows(flags: Seq<bool>, i: int)
    requires
        0 <= i < flags.len(),
    ensures
        count_set(flags.update(i, true)) == count_set(flags) + if flags[i] {
            0nat
        } else {
            1nat
        },
    decreases flags.len(),
{
    let updated = flags.update(i, true);
    if i == flags.len() - 1 {
        assert(updated.drop_last() =~= flags.drop_last());
    } else {
        lemma_count_grows(flags.drop_last(), i);
        assert(updated.drop_last() =~= flags.drop_last().update(i, true));
    }
}

/// Every node reaches itself.
pub proof fn lemma_reach_self(g: GraphView, i: int)
    ensures
        g.reachable(i, i),
{
    let path = seq![i];
    assert(g.is_path(path) && path[0] == i && path.last() == i);
}

/// A path can be extended by one edge.
pub proof fn lemma_reach_step(g: GraphView, start: int, i: int, j: int)
    requires
        g.reachable(start, i),
        g.adjacent(i, j),
    ensures
        g.reachable(start, j),
{
    let path = choose|path: Seq<int>| #[trigger]
        g.is_path(path) && path[0] == start && path.last() == i;
    let longer = path.push(j);
    assert forall|s: int| 0 <= s < longer.len() - 1 implies g.adjacent(
        #[trigger] longer[s],
        longer[s + 1],
    ) by {
        if s < path.len() - 1 {
            assert(g.adjacent(path[s], path[s + 1]));
        }
    }
    assert(g.is_path(longer) && longer[0] == start && longer.last() == j);
}

/// A set of nodes that holds `start` and, with either end of an edge, the
/// other end too holds every node that `start` reaches.
pub proof fn lemma_closed_holds_reachable(g: GraphView, flags: Seq<bool>, start: int, i: int)
    requires
        flags.len() == g.nodes.len(),
        0 <= start < g.nodes.len(),
        flags[start],
        forall|k: int|
            0 <= k < g.edges.len() ==> 0 <= (#[trigger] g.edges[k]).from < g.nodes.len() && 0
                <= g.edges[k].to < g.nodes.len() && flags[g.edges[k].from] == flags[g.edges[k].to],
        g.reachable(start, i),
    ensures
        0 <= i < g.nodes.len(),
        flags[i],
{
    let path = choose|path: Seq<int>| #[trigger]
        g.is_path(path) && path[0] == start && path.last() == i;
    lemma_path_stays(g, flags, path, path.len() - 1);
}

proof fn lemma_path_stays(g: GraphView, flags: Seq<bool>, path: Seq<int>, s: int)
    requires
        flags.len() == g.nodes.len(),
        g.is_path(path),
        0 <= path[0] < g.nodes.len(),
        flags[path[0]],
        forall|k: int|
            0 <= k < g.edges.len() ==> 0 <= (#[trigger] g.edges[k]).from < g.nodes.len() && 0
                <= g.edges[k].to < g.nodes.len() && flags[g.edges[k].from] == flags[g.edges[k].to],
        0 <= s < path.len(),
    ensures
        0 <= path[s] < g.nodes.len(),
        flags[path[s]],
    decreases s,
{
    if s > 0 {
        lemma_path_stays(g, flags, path, s - 1);
        assert(g.adjacent(path[s - 1], path[s - 1 + 1]));
    }
}

impl Graph {
    /// For each node, whether the first node reaches it: starting from the
    /// first node alone, passes over the edges add the other end of every
    /// edge that has exactly one end in the set, until a pass adds nothing.
    fn sweep(&self) -> (seen: Vec<bool>)
        requires
            self.wf(),
        ensures
            seen.len() == self.nodes.len(),
            forall|i: int| 0 <= i < seen.len() ==> seen[i] == self@.reachable(0, i),
    {
        let n = self.nodes.len();
        let mut seen: Vec<bool> = Vec::new();
        let mut i: usize = 0;
        while i < n
            invariant
                i <= n,
                seen.len() == i,
                forall|j: int| 0 <= j < i ==> !seen[j],
            decreases n - i,
        {
            seen.push(false);
            i += 1;
        }
        if n == 0 {
            return seen;
        }
        seen.set(0, true);
        proof {
            lemma_reach_self(self@, 0);
        }
        let mut changed = true;
        while changed
            invariant
                self.wf(),
                n == self.nodes.len(),
                n > 0,
                seen.len() == n,
                seen[0],
                forall|j: int| 0 <= j < n && seen[j] ==> self@.reachable(0, j),
                !changed ==> forall|k: int|
                    0 <= k < self.edges.len() ==> seen[(#[trigger] self.edges[k]).from as int]
                        == seen[self.edges[k].to as int],
            decreases n - count_set(seen@), changed as int,
        {
            let ghost before = seen@;
            proof {
                lemma_count_bound(seen@);
            }
            changed = false;
            let mut k: usize = 0;
            while k < self.edges.len()
                invariant
                    self.wf(),
                    n == self.nodes.len(),
                    k <= self.edges.len(),
                    seen.len() == n,
                    before.len() == n,
                    seen[0],
                    forall|j: int| 0 <= j < n && seen[j] ==> self@.reachable(0, j),
                    count_set(seen@) >= count_set(before),
                    changed ==> count_set(seen@) > count_set(before),
                    !changed ==> seen@ == before,
                    !changed ==> forall|e: int|
                        0 <= e < k ==> seen[(#[trigger] self.edges[e]).from as int]
                            == seen[self.edges[e].to as int],
                decreases self.edges.len() - k,
            {
                proof {
                    assert(self@.edge_wf(self@.edges[k as int]));
                }
                let from = self.edges[k].from;
                let to = self.edges[k].to;
                if seen[from] != seen[to] {
                    proof {
                        assert(self@.edges[k as int].from == from && self@.edges[k as int].to
                            == to);
                        assert(self@.adjacent(from as int, to as int));
                        assert(self@.adjacent(to as int, from as int));
                        if seen[from as int] {
                            lemma_reach_step(self@, 0, from as int, to as int);
                        } else {
                            lemma_reach_step(self@, 0, to as int, from as int);
                        }
                        lemma_count_grows(seen@, from as int);
                        lemma_count_grows(seen@.update(from as int, true), to as int);
                    }
                    seen.set(from, true);
                    seen.set(to, true);
                    changed = true;
                }
                k += 1;
            }
            proof {
                lemma_count_bound(seen@);
            }
        }
        proof {
            assert forall|i: int| 0 <= i < n implies seen[i] == self@.reachable(0, i) by {
                if self@.reachable(0, i) {
                    assert forall|k: int| 0 <= k < self@.edges.len() implies 0 <= (
                    #[trigger] self@.edges[k]).from < self@.nodes.len() && 0 <= self@.edges[k].to
                        < self@.nodes.len() && seen@[self@.edges[k].from]
                        == seen@[self@.edges[k].to] by {
                        assert(self@.edge_wf(self@.edges[k]));
                        assert(seen[self.edges[k].from as int] == seen[self.edges[k].to as int]);
                    }
                    lemma_closed_holds_reachable(self@, seen@, 0, i);
                }
            }
        }
        seen
    }

    /// The names of the nodes whose `visited` flag is `flag`, in store order.
    fn names_marked(&self, flag: bool) -> (names: Vec<String>)
        ensures
            texts(names@) == names_marked(self@.nodes, flag),
    {
        let mut names: Vec<String> = Vec::new();
        let mut i: usize = 0;
        assert(self@.nodes.take(0) =~= Seq::empty());
        assert(texts(names@) =~= Seq::empty());
        while i < self.nodes.len()
            invariant
                i <= self.nodes.len(),
                texts(names@) == names_marked(self@.nodes.take(i as int), flag),
            decreases self.nodes.len() - i,
        {
            let ghost shorter = texts(names@);
            if self.nodes[i].visited == flag {
                names.push(self.nodes[i].name.clone());
                assert(texts(names@) =~= shorter.push(self.nodes[i as int].name@));
            }
            proof {
                let next = self@.nodes.take(i + 1);
                assert(next.drop_last() =~= self@.nodes.take(i as int));
                assert(next.last() == self@.nodes[i as int]);
            }
            i += 1;
        }
        assert(self@.nodes.take(i as int) =~= self@.nodes);
        names
    }

    /// Marks each node as visited exactly if a path leads to it from the
    /// first node, and reports whether every node is. If not, the result
    /// holds the names of the nodes that were reached and of those that were
    /// not, each in store order.
    pub fn is_fully_connected(&mut self) -> (r: Result<(), (Vec<String>, Vec<String>)>)
        requires
            old(self).wf(),
        ensures
            final(self).wf(),
            final(self)@ == old(self)@.scanned(),
            match r {
                Ok(()) => old(self)@.connected(),
                Err((connected, unconnected)) => {
                    &&& !old(self)@.connected()
                    &&& texts(connected@) == names_marked(final(self)@.nodes, true)
                    &&& texts(unconnected@) == names_marked(final(self)@.nodes, false)
                    &&& connected.len() + unconnected.len() == final(self).nodes.len()
                },
            },
    {
        let seen = self.sweep();
        let n = self.nodes.len();
        let mut all = true;
        let mut i: usize = 0;
        while i < n
            invariant
                i <= n,
                n == self.nodes.len(),
                n == old(self).nodes.len(),
                seen.len() == n,
                self.edges == old(self).edges,
                self.seed == old(self).seed,
                self.draws == old(self).draws,
                all == forall|j: int| 0 <= j < i ==> seen[j],
                forall|j: int|
                    0 <= j < i ==> (#[trigger] self.nodes[j])@ == (NodeView {
                        visited: seen[j],
                        ..old(self).nodes[j]@
                    }),
                forall|j: int| i <= j < n ==> #[trigger] self.nodes[j] == old(self).nodes[j],
            decreases n - i,
        {
            let flag = seen[i];
            self.nodes[i].visited = flag;
            if !flag {
                all = false;
            }
            i += 1;
        }
        proof {
            let goal = old(self)@.scanned();
            lemma_scanned(old(self)@);
            assert(self@.nodes =~= goal.nodes);
            assert(self@.edges =~= goal.edges);
        }
        if all {
            proof {
                assert forall|i: int| 0 <= i < n implies old(self)@.reachable(0, i) by {
                    assert(seen[i]);
                }
            }
            Ok(())
        } else {
            let unconnected = self.names_marked(false);
            let connected = self.names_marked(true);
            proof {
                lemma_names_divide(self@.nodes);
                assert(texts(connected@).len() == connected.len());
                assert(texts(unconnected@).len() == unconnected.len());
            }
            Err((connected, unconnected))
        }
    }
}

} // verus!
