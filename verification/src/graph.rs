//! An index-addressed directed graph: nodes in a flat store, edges as
//! indices into it. Carries the mesh (cells with faces) and the dependency
//! DAG (tasks with dependencies).
//!
//! Beside the executable store the graph keeps a ghost flat list of its
//! directed edges, `deps`; the scheduler's counting invariants are stated
//! over that list.

use vstd::prelude::*;

verus! {

/// A directed edge out of the node that stores it.
#[derive(Clone, Copy)]
pub struct Edge<E> {
    pub index: usize,
    pub label: E,
}

/// A node: its payload, its own index in the store, and its outgoing edges.
pub struct Node<N, E> {
    pub data: N,
    pub index: usize,
    pub edges: Vec<Edge<E>>,
}

/// The graph itself. `deps@` mirrors every stored edge as a `(from, to)`
/// pair, in insertion order.
pub struct Graph<N, E> {
    pub nodes: Vec<Node<N, E>>,
    pub deps: Ghost<Seq<(usize, usize)>>,
}

/// The total number of edge entries stored across all nodes.
pub open spec fn edge_len_sum<N, E>(nodes: Seq<Node<N, E>>) -> int
    decreases nodes.len(),
{
    if nodes.len() == 0 {
        0
    } else {
        nodes[0].edges@.len() + edge_len_sum(nodes.drop_first())
    }
}

/// Replacing one node changes the edge total by the difference at that node.
pub proof fn lemma_edge_len_sum_update<N, E>(nodes: Seq<Node<N, E>>, i: int, x: Node<N, E>)
    requires
        0 <= i < nodes.len(),
    ensures
        edge_len_sum(nodes.update(i, x)) == edge_len_sum(nodes) - nodes[i].edges@.len()
            + x.edges@.len(),
    decreases nodes.len(),
{
    let t = nodes.update(i, x);
    if i == 0 {
        assert(t.drop_first() =~= nodes.drop_first());
    } else {
        assert(t.drop_first() =~= nodes.drop_first().update(i - 1, x));
        lemma_edge_len_sum_update(nodes.drop_first(), i - 1, x);
    }
}

/// A store of nodes without edges has edge total zero.
pub proof fn lemma_edge_len_sum_zero<N, E>(nodes: Seq<Node<N, E>>)
    requires
        forall|i: int| 0 <= i < nodes.len() ==> nodes[i].edges@.len() == 0,
    ensures
        edge_len_sum(nodes) == 0,
    decreases nodes.len(),
{
    if nodes.len() > 0 {
        lemma_edge_len_sum_zero(nodes.drop_first());
    }
}

/// The edge total is at least the edge count of any single node.
pub proof fn lemma_edge_len_sum_bound<N, E>(nodes: Seq<Node<N, E>>, i: int)
    requires
        0 <= i < nodes.len(),
    ensures
        edge_len_sum(nodes) >= nodes[i].edges@.len(),
        edge_len_sum(nodes) >= 0,
    decreases nodes.len(),
{
    if i == 0 {
        lemma_edge_len_sum_nonneg(nodes.drop_first());
    } else {
        lemma_edge_len_sum_bound(nodes.drop_first(), i - 1);
    }
}

/// The edge total is nonnegative.
pub proof fn lemma_edge_len_sum_nonneg<N, E>(nodes: Seq<Node<N, E>>)
    ensures
        edge_len_sum(nodes) >= 0,
    decreases nodes.len(),
{
    if nodes.len() > 0 {
        lemma_edge_len_sum_nonneg(nodes.drop_first());
    }
}


/// One more node extends a prefix's edge total by that node's edge count.
pub proof fn lemma_edge_len_sum_take_step<N, E>(nodes: Seq<Node<N, E>>, u: int)
    requires
        0 <= u < nodes.len(),
    ensures
        edge_len_sum(nodes.take(u + 1)) == edge_len_sum(nodes.take(u)) + nodes[u].edges@.len(),
    decreases u,
{
    if u == 0 {
        assert(nodes.take(1).drop_first() =~= Seq::<Node<N, E>>::empty());
        assert(nodes.take(0) =~= Seq::<Node<N, E>>::empty());
    } else {
        assert(nodes.take(u + 1).drop_first() =~= nodes.drop_first().take(u));
        assert(nodes.take(u).drop_first() =~= nodes.drop_first().take(u - 1));
        lemma_edge_len_sum_take_step(nodes.drop_first(), u - 1);
    }
}

/// A prefix's edge total never exceeds the whole store's.
pub proof fn lemma_edge_len_sum_take_le<N, E>(nodes: Seq<Node<N, E>>, u: int)
    requires
        0 <= u <= nodes.len(),
    ensures
        edge_len_sum(nodes.take(u)) <= edge_len_sum(nodes),
    decreases nodes.len() - u,
{
    if u == nodes.len() {
        assert(nodes.take(u) =~= nodes);
    } else {
        lemma_edge_len_sum_take_step(nodes, u);
        lemma_edge_len_sum_take_le(nodes, u + 1);
    }
}

/// The edges of `edges` that leave node `u`, in order, as stored edges.
pub open spec fn edges_to_spec<E>(edges: Seq<(usize, usize, E)>, u: int) -> Seq<Edge<E>>
    decreases edges.len(),
{
    if edges.len() == 0 {
        Seq::empty()
    } else {
        let rest = edges_to_spec(edges.drop_last(), u);
        if edges.last().0 == u {
            rest.push(Edge { index: edges.last().1, label: edges.last().2 })
        } else {
            rest
        }
    }
}

/// The `(from, to)` pairs of an edge list, in order.
pub open spec fn dep_pairs_spec<E>(edges: Seq<(usize, usize, E)>) -> Seq<(usize, usize)>
    decreases edges.len(),
{
    if edges.len() == 0 {
        Seq::empty()
    } else {
        dep_pairs_spec(edges.drop_last()).push((edges.last().0, edges.last().1))
    }
}

/// Every stored edge of node `u` comes from an input edge `(u, v, label)`.
pub proof fn lemma_edges_to_spec_elem<E>(edges: Seq<(usize, usize, E)>, u: int, k: int)
    requires
        0 <= k < edges_to_spec(edges, u).len(),
    ensures
        exists|j: int|
            0 <= j < edges.len() && edges[j].0 == u && edges_to_spec(edges, u)[k] == (Edge {
                index: edges[j].1,
                label: edges[j].2,
            }),
    decreases edges.len(),
{
    if edges.len() > 0 {
        let rest = edges_to_spec(edges.drop_last(), u);
        if edges.last().0 == u && k == rest.len() {
            let j = edges.len() - 1;
            assert(edges[j].0 == u && edges_to_spec(edges, u)[k] == (Edge {
                index: edges[j].1,
                label: edges[j].2,
            }));
        } else {
            lemma_edges_to_spec_elem(edges.drop_last(), u, k);
            let j = choose|j: int|
                0 <= j < edges.drop_last().len() && edges.drop_last()[j].0 == u && edges_to_spec(
                    edges.drop_last(),
                    u,
                )[k] == (Edge { index: edges.drop_last()[j].1, label: edges.drop_last()[j].2 });
            assert(edges[j] == edges.drop_last()[j]);
            assert(edges[j].0 == u && edges_to_spec(edges, u)[k] == (Edge {
                index: edges[j].1,
                label: edges[j].2,
            }));
        }
    }
}

/// Appends one edge to the node stored at `a`, leaving every other node and
/// the ghost edge list alone.
fn push_edge<N, E>(nodes: &mut Vec<Node<N, E>>, a: usize, e: Edge<E>)
    requires
        a < old(nodes)@.len(),
    ensures
        final(nodes)@.len() == old(nodes)@.len(),
        final(nodes)@[a as int].data == old(nodes)@[a as int].data,
        final(nodes)@[a as int].index == old(nodes)@[a as int].index,
        final(nodes)@[a as int].edges@ == old(nodes)@[a as int].edges@.push(e),
        forall|j: int|
            0 <= j < old(nodes)@.len() && j != a ==> final(nodes)@[j] == old(nodes)@[j],
        final(nodes)@ == old(nodes)@.update(a as int, final(nodes)@[a as int]),
    {
    let node = &mut nodes[a];
    node.edges.push(e);
    proof {
        assert(final(nodes)@ =~= old(nodes)@.update(a as int, final(nodes)@[a as int]));
    }
}

impl<N: Copy, E: Copy> Graph<N, E> {
    /// How many nodes the graph holds.
    pub fn len(&self) -> (r: usize)
        ensures
            r == self.nodes@.len(),
    {
        self.nodes.len()
    }

    /// The node stored at `index`, if there is one.
    pub fn get(&self, index: usize) -> (r: Option<&Node<N, E>>)
        ensures
            match r {
                Some(n) => index < self.nodes@.len() && *n == self.nodes@[index as int],
                None => index >= self.nodes@.len(),
            },
    {
        if index < self.nodes.len() {
            Some(&self.nodes[index])
        } else {
            None
        }
    }

    /// Mutable access to the node stored at `index`.
    pub fn node_mut(&mut self, index: usize) -> (r: &mut Node<N, E>)
        requires
            index < old(self).nodes@.len(),
        ensures
            *r == old(self).nodes@[index as int],
            final(self).nodes@ == old(self).nodes@.update(index as int, *final(r)),
            final(self).deps == old(self).deps,
    {
        &mut self.nodes[index]
    }

    /// Builds a graph from node payloads and an edge list: node `i` carries
    /// `data[i]`, and each listed `(from, to, label)` is stored at `from` in
    /// listing order.
    pub fn from_nodes_and_edge_list(data: &Vec<N>, edges: &Vec<(usize, usize, E)>) -> (r: Graph<
        N,
        E,
    >)
        requires
            forall|k: int|
                0 <= k < edges@.len() ==> (edges@[k].0 < data@.len() && edges@[k].1 < data@.len()),
        ensures
            r.nodes@.len() == data@.len(),
            forall|i: int| 0 <= i < data@.len() ==> r.nodes@[i].data == data@[i],
            forall|i: int| 0 <= i < data@.len() ==> r.nodes@[i].index == i,
            forall|i: int| 0 <= i < data@.len() ==> r.nodes@[i].edges@ == edges_to_spec(edges@, i),
            edge_len_sum(r.nodes@) == edges@.len(),
            r.deps@ == dep_pairs_spec(edges@),
    {
        let mut nodes: Vec<Node<N, E>> = Vec::new();
        let mut i: usize = 0;
        while i < data.len()
            invariant
                i <= data@.len(),
                nodes@.len() == i,
                forall|j: int| 0 <= j < i ==> nodes@[j].data == data@[j],
                forall|j: int| 0 <= j < i ==> nodes@[j].index == j,
                forall|j: int| 0 <= j < i ==> nodes@[j].edges@.len() == 0,
            decreases data@.len() - i,
        {
            nodes.push(Node { data: data[i], index: i, edges: Vec::new() });
            i = i + 1;
        }
        proof {
            assert(nodes@.len() == data@.len());
            lemma_edge_len_sum_zero(nodes@);
            assert(edges@.take(0) =~= Seq::<(usize, usize, E)>::empty());
            assert forall|j: int| 0 <= j < data@.len() implies nodes@[j].edges@ == edges_to_spec(
                edges@.take(0),
                j,
            ) by {
                assert(edges_to_spec(edges@.take(0), j) =~= Seq::<Edge<E>>::empty());
                assert(nodes@[j].edges@ =~= Seq::<Edge<E>>::empty());
            }
            assert(dep_pairs_spec(edges@.take(0)) =~= Seq::<(usize, usize)>::empty());
        }
        let ghost mut gdeps: Seq<(usize, usize)> = Seq::empty();
        let mut k: usize = 0;
        while k < edges.len()
            invariant
                k <= edges@.len(),
                nodes@.len() == data@.len(),
                forall|kk: int|
                    0 <= kk < edges@.len() ==> (edges@[kk].0 < data@.len() && edges@[kk].1
                        < data@.len()),
                forall|j: int| 0 <= j < data@.len() ==> nodes@[j].data == data@[j],
                forall|j: int| 0 <= j < data@.len() ==> nodes@[j].index == j,
                forall|j: int|
                    0 <= j < data@.len() ==> nodes@[j].edges@ == edges_to_spec(
                        edges@.take(k as int),
                        j,
                    ),
                edge_len_sum(nodes@) == k,
                gdeps == dep_pairs_spec(edges@.take(k as int)),
            decreases edges@.len() - k,
        {
            let ghost prev = nodes@;
            let e = edges[k];
            push_edge(&mut nodes, e.0, Edge { index: e.1, label: e.2 });
            proof {
                gdeps = gdeps.push((e.0, e.1));
                let a = e.0 as int;
                lemma_edge_len_sum_update(prev, a, nodes@[a]);
                assert(edges@.take(k + 1).drop_last() =~= edges@.take(k as int));
                assert(edges@.take(k + 1).last() == edges@[k as int]);
                assert forall|j: int| 0 <= j < data@.len() implies nodes@[j].edges@
                    == edges_to_spec(edges@.take(k + 1), j) by {
                    let t = edges@.take(k + 1);
                    assert(t.last() == edges@[k as int]);
                    if j == a {
                        assert(t.last().0 == j);
                        assert(edges_to_spec(t, j) == edges_to_spec(edges@.take(k as int),
                            j).push((Edge { index: e.1, label: e.2 })));
                        assert(prev[j].edges@ == edges_to_spec(edges@.take(k as int), j));
                        assert(nodes@[j].edges@ == prev[j].edges@.push(
                            (Edge { index: e.1, label: e.2 }),
                        ));
                    } else {
                        assert(t.last().0 != j);
                        assert(edges_to_spec(t, j) == edges_to_spec(edges@.take(k as int), j));
                        assert(nodes@[j] == prev[j]);
                    }
                }
            }
            k = k + 1;
        }
        proof {
            assert(edges@.take(edges@.len() as int) =~= edges@);
        }
        Graph { nodes, deps: Ghost(gdeps) }
    }
}

} // verus!
