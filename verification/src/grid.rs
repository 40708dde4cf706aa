//! The mesh: cells with their shared faces, and the per-direction
//! orientation of that mesh into a DAG of tasks.

use vstd::prelude::*;

use crate::cell::Cell;
use crate::counting::b2i;
use crate::counting::count_from_to;
use crate::counting::count_targets;
use crate::counting::count_unsolved_to;
use crate::counting::lemma_count_from_to_push;
use crate::counting::lemma_count_from_to_zero;
use crate::counting::lemma_count_targets_push;
use crate::counting::lemma_count_targets_zero;
use crate::counting::lemma_count_unsolved_to_push;
use crate::counting::lemma_count_unsolved_zero;
use crate::direction::Direction;
use crate::face::Face;
use crate::graph::edge_len_sum;
use crate::graph::edges_to_spec;
use crate::graph::lemma_edge_len_sum_take_le;
use crate::graph::lemma_edge_len_sum_take_step;
use crate::graph::lemma_edges_to_spec_elem;
use crate::graph::Edge;
use crate::graph::Graph;
use crate::graph::Node;
use crate::task::Task;
use crate::vector_3d::Vector3D;

verus! {

/// The label of a dependency edge in the task DAG.
#[derive(Clone, Copy, PartialEq, Eq, Structural, Debug)]
pub struct Dependency;

/// The per-direction (or union) DAG of tasks.
pub type DependencyGraph = Graph<Task, Dependency>;

/// The face normal between two cells: `center(a) - center(b)`.
pub open spec fn spec_face_between(a: Cell, b: Cell) -> Face {
    Face {
        normal: Vector3D {
            x: (a.center.x - b.center.x) as i64,
            y: (a.center.y - b.center.y) as i64,
            z: (a.center.z - b.center.z) as i64,
        },
    }
}

/// A is upwind of B for direction `d` exactly when the face normal
/// `center(A) - center(B)` points against `d`: their dot product is
/// strictly negative.
pub open spec fn spec_is_downwind(face: Face, direction: Direction) -> bool {
    face.normal.spec_dot(direction.vector) < 0
}

/// Whether the edge carrying `face` is oriented into a dependency for
/// `direction`.
pub fn is_downwind(face: &Face, direction: &Direction) -> (r: bool)
    requires
        -2 * crate::vector_3d::COORD_BOUND <= face.normal.x <= 2 * crate::vector_3d::COORD_BOUND,
        -2 * crate::vector_3d::COORD_BOUND <= face.normal.y <= 2 * crate::vector_3d::COORD_BOUND,
        -2 * crate::vector_3d::COORD_BOUND <= face.normal.z <= 2 * crate::vector_3d::COORD_BOUND,
        direction.vector.in_bounds(),
    ensures
        r == spec_is_downwind(*face, *direction),
{
    face.normal.dot(&direction.vector) < 0
}

/// For two adjacent cells and a direction not perpendicular to their shared
/// face, exactly one orientation of the adjacency is a dependency: A is
/// upwind of B, or B is upwind of A, never both.
pub proof fn lemma_one_orientation_downwind(a: Cell, b: Cell, d: Direction)
    requires
        a.center.in_bounds(),
        b.center.in_bounds(),
        spec_face_between(a, b).normal.spec_dot(d.vector) != 0,
    ensures
        spec_is_downwind(spec_face_between(a, b), d) <==> !spec_is_downwind(
            spec_face_between(b, a),
            d,
        ),
{
    let n = spec_face_between(a, b).normal;
    let m = spec_face_between(b, a).normal;
    assert(m.x == -n.x && m.y == -n.y && m.z == -n.z);
    assert(m.spec_dot(d.vector) == -n.spec_dot(d.vector)) by (nonlinear_arith)
        requires
            m.x == -n.x && m.y == -n.y && m.z == -n.z,
    ;
}

/// The edge list that `from_cell_pairs` hands to the graph: each index pair,
/// labelled with the face between the two cells.
pub open spec fn face_edges_spec(cells: Seq<Cell>, pairs: Seq<(usize, usize)>) -> Seq<
    (usize, usize, Face),
>
    decreases pairs.len(),
{
    if pairs.len() == 0 {
        Seq::empty()
    } else {
        face_edges_spec(cells, pairs.drop_last()).push(
            (
                pairs.last().0,
                pairs.last().1,
                spec_face_between(cells[pairs.last().0 as int], cells[pairs.last().1 as int]),
            ),
        )
    }
}

/// `face_edges_spec` keeps the listing's length.
pub proof fn lemma_face_edges_spec_len(cells: Seq<Cell>, pairs: Seq<(usize, usize)>)
    ensures
        face_edges_spec(cells, pairs).len() == pairs.len(),
    decreases pairs.len(),
{
    if pairs.len() > 0 {
        lemma_face_edges_spec_len(cells, pairs.drop_last());
    }
}

/// Elementwise content of `face_edges_spec`.
pub proof fn lemma_face_edges_spec_elem(cells: Seq<Cell>, pairs: Seq<(usize, usize)>, j: int)
    requires
        0 <= j < pairs.len(),
    ensures
        face_edges_spec(cells, pairs)[j] == (
            pairs[j].0,
            pairs[j].1,
            spec_face_between(cells[pairs[j].0 as int], cells[pairs[j].1 as int]),
        ),
    decreases pairs.len(),
{
    lemma_face_edges_spec_len(cells, pairs);
    lemma_face_edges_spec_len(cells, pairs.drop_last());
    if j < pairs.len() - 1 {
        lemma_face_edges_spec_elem(cells, pairs.drop_last(), j);
        assert(pairs.drop_last()[j] == pairs[j]);
    }
}

/// Well-formedness of a mesh graph: nodes know their index, cell
/// `global_index` equals the store index, centers are bounded, and every
/// stored edge points inside the mesh and carries the face between its two
/// end cells.
pub open spec fn mesh_wf(g: Graph<Cell, Face>) -> bool {
    let n = g.nodes@.len();
    &&& forall|i: int| 0 <= i < n ==> (#[trigger] g.nodes@[i]).index == i
    &&& forall|i: int| 0 <= i < n ==> (#[trigger] g.nodes@[i]).data.global_index == i
    &&& forall|i: int| 0 <= i < n ==> (#[trigger] g.nodes@[i]).data.center.in_bounds()
    &&& forall|i: int, k: int|
        0 <= i < n && 0 <= k < g.nodes@[i].edges@.len() ==> (#[trigger] g.nodes@[i].edges@[k]).index
            < n
    &&& forall|i: int, k: int|
        0 <= i < n && 0 <= k < g.nodes@[i].edges@.len() ==> (#[trigger] g.nodes@[i].edges@[k]).label
            == spec_face_between(
            g.nodes@[i].data,
            g.nodes@[g.nodes@[i].edges@[k].index as int].data,
        )
    &&& edge_len_sum(g.nodes@) <= usize::MAX
}

/// The mesh: an undirected cell adjacency stored as directed edges, each
/// carrying the face normal toward its source cell.
pub struct Grid {
    pub data: Graph<Cell, Face>,
}

/// How many edges of a mesh node point at cell `v` and are oriented into a
/// dependency for direction `d`.
pub open spec fn count_downwind(edges: Seq<Edge<Face>>, v: int, d: Direction) -> int
    decreases edges.len(),
{
    if edges.len() == 0 {
        0
    } else {
        b2i(edges[0].index == v && spec_is_downwind(edges[0].label, d)) + count_downwind(
            edges.drop_first(),
            v,
            d,
        )
    }
}

/// One more mesh edge extends a prefix's downwind count accordingly.
pub proof fn lemma_count_downwind_take_step(edges: Seq<Edge<Face>>, k: int, v: int, d: Direction)
    requires
        0 <= k < edges.len(),
    ensures
        count_downwind(edges.take(k + 1), v, d) == count_downwind(edges.take(k), v, d) + b2i(
            edges[k].index == v && spec_is_downwind(edges[k].label, d),
        ),
    decreases k,
{
    if k == 0 {
        assert(edges.take(1).drop_first() =~= Seq::<Edge<Face>>::empty());
        assert(edges.take(0) =~= Seq::<Edge<Face>>::empty());
        assert(edges.take(1)[0] == edges[0]);
    } else {
        assert(edges.take(k + 1).drop_first() =~= edges.drop_first().take(k));
        assert(edges.take(k).drop_first() =~= edges.drop_first().take(k - 1));
        assert(edges.take(k + 1)[0] == edges[0]);
        assert(edges.take(k)[0] == edges[0]);
        assert(forall|j: int|
            0 <= j < edges.drop_first().len() ==> edges.drop_first()[j] == edges[j + 1]);
        lemma_count_downwind_take_step(edges.drop_first(), k - 1, v, d);
    }
}


/// A positive downwind count names a mesh edge: this returns the position
/// of an edge at `v` whose face is oriented into a dependency for `d`.
pub proof fn lemma_count_downwind_witness(edges: Seq<Edge<Face>>, v: int, d: Direction) -> (k: int)
    requires
        count_downwind(edges, v, d) > 0,
    ensures
        0 <= k < edges.len(),
        edges[k].index == v,
        spec_is_downwind(edges[k].label, d),
    decreases edges.len(),
{
    if edges[0].index == v && spec_is_downwind(edges[0].label, d) {
        0
    } else {
        let k = lemma_count_downwind_witness(edges.drop_first(), v, d);
        assert(edges.drop_first()[k] == edges[k + 1]);
        k + 1
    }
}

/// A downwind face orders its two cells along the direction: the upwind
/// cell's center lies strictly behind the downwind cell's.
pub proof fn lemma_downwind_orders_centers(a: Cell, b: Cell, d: Direction)
    requires
        a.center.in_bounds(),
        b.center.in_bounds(),
        spec_is_downwind(spec_face_between(a, b), d),
    ensures
        a.center.spec_dot(d.vector) < b.center.spec_dot(d.vector),
{
    let n = spec_face_between(a, b).normal;
    assert(n.spec_dot(d.vector) == a.center.spec_dot(d.vector) - b.center.spec_dot(d.vector))
        by (nonlinear_arith)
        requires
            n.x == a.center.x - b.center.x,
            n.y == a.center.y - b.center.y,
            n.z == a.center.z - b.center.z,
    ;
}

/// Well-formedness of a task DAG, possibly a union over several directions:
/// indices are store positions, edges and recorded pairs stay inside the
/// store, the recorded pairs agree with the stored edges, and every task's
/// `num_upwind` counts the dependency edges into it.
pub open spec fn dep_graph_wf(g: DependencyGraph) -> bool {
    let n = g.nodes@.len();
    &&& forall|v: int| 0 <= v < n ==> (#[trigger] g.nodes@[v]).index == v
    &&& forall|v: int, k: int|
        0 <= v < n && 0 <= k < g.nodes@[v].edges@.len() ==> (#[trigger] g.nodes@[v].edges@[k]).index
            < n
    &&& forall|j: int|
        0 <= j < g.deps@.len() ==> (#[trigger] g.deps@[j]).0 < n && g.deps@[j].1 < n
    &&& forall|u: usize, v: usize|
        u < n && v < n ==> #[trigger] count_from_to(g.deps@, u, v) == count_targets(
            g.nodes@[u as int].edges@,
            v,
        )
    &&& forall|v: int|
        0 <= v < n ==> (#[trigger] g.nodes@[v]).data.num_upwind == count_unsolved_to(
            g.deps@,
            Set::empty(),
            v as usize,
        )
}

/// How one appended block of tasks relates to the mesh it came from: inside
/// the block that starts at `base`, the recorded dependency count from task
/// `a` to task `b` matches the mesh's downwind adjacency count between the
/// corresponding cells. Rows before `u` are complete; row `u` covers its
/// first `k` mesh edges; later rows are still empty.
pub open spec fn block_geometry(
    deps: Seq<(usize, usize)>,
    mesh: Seq<Node<Cell, Face>>,
    base: int,
    d: Direction,
    u: int,
    k: int,
) -> bool {
    forall|a: usize, b: usize|
        base <= a < base + mesh.len() && base <= b < base + mesh.len()
            ==> #[trigger] count_from_to(deps, a, b) == (if a - base < u {
            count_downwind(mesh[a - base].edges@, b - base, d)
        } else if a - base == u {
            count_downwind(mesh[a - base].edges@.take(k), b - base, d)
        } else {
            0
        })
}

impl Grid {
    /// The mesh invariant.
    pub open spec fn wf(self) -> bool {
        mesh_wf(self.data)
    }

    /// How many cells the grid holds.
    pub fn len(&self) -> (r: usize)
        ensures
            r == self.data.nodes@.len(),
    {
        self.data.len()
    }

    /// Builds a mesh from cells and an adjacency listing of index pairs.
    /// Each listed pair `(i, j)` stores one directed edge `i -> j` carrying
    /// the face normal `center(i) - center(j)`. A pair listed in one
    /// orientation only can yield a dependency only when that orientation
    /// is the downwind one; list both orientations to sequence the two
    /// cells under every direction.
    pub fn from_cell_pairs(cells: &Vec<Cell>, pairs: &Vec<(usize, usize)>) -> (r: Grid)
        requires
            forall|k: int|
                0 <= k < pairs@.len() ==> (#[trigger] pairs@[k]).0 < cells@.len() && pairs@[k].1
                    < cells@.len(),
            forall|i: int| 0 <= i < cells@.len() ==> (#[trigger] cells@[i]).global_index == i,
            forall|i: int| 0 <= i < cells@.len() ==> (#[trigger] cells@[i]).center.in_bounds(),
        ensures
            r.wf(),
            r.data.nodes@.len() == cells@.len(),
            forall|i: int| 0 <= i < cells@.len() ==> (#[trigger] r.data.nodes@[i]).data == cells@[i],
            forall|i: int|
                0 <= i < cells@.len() ==> (#[trigger] r.data.nodes@[i]).edges@ == edges_to_spec(
                    face_edges_spec(cells@, pairs@),
                    i,
                ),
    {
        let mut edge_list: Vec<(usize, usize, Face)> = Vec::new();
        let mut k: usize = 0;
        while k < pairs.len()
            invariant
                k <= pairs@.len(),
                edge_list@ == face_edges_spec(cells@, pairs@.take(k as int)),
                forall|j: int|
                    0 <= j < pairs@.len() ==> (#[trigger] pairs@[j]).0 < cells@.len()
                        && pairs@[j].1 < cells@.len(),
                forall|i: int| 0 <= i < cells@.len() ==> (#[trigger] cells@[i]).center.in_bounds(),
            decreases pairs@.len() - k,
        {
            let p = pairs[k];
            let c0 = cells[p.0];
            let c1 = cells[p.1];
            let face = Face { normal: c0.center.sub(&c1.center) };
            edge_list.push((p.0, p.1, face));
            proof {
                assert(pairs@.take(k + 1).drop_last() =~= pairs@.take(k as int));
                assert(pairs@.take(k + 1).last() == pairs@[k as int]);
                assert(face == spec_face_between(c0, c1));
            }
            k = k + 1;
        }
        proof {
            assert(pairs@.take(pairs@.len() as int) =~= pairs@);
            lemma_face_edges_spec_len(cells@, pairs@);
            assert forall|j: int|
                0 <= j < edge_list@.len() implies (#[trigger] edge_list@[j]).0 < cells@.len()
                && edge_list@[j].1 < cells@.len() by {
                lemma_face_edges_spec_elem(cells@, pairs@, j);
            }
            assert(edge_list.len() == edge_list@.len());
        }
        let graph = Graph::from_nodes_and_edge_list(cells, &edge_list);
        let grid = Grid { data: graph };
        proof {
            let n = cells@.len();
            let fe = face_edges_spec(cells@, pairs@);
            lemma_face_edges_spec_len(cells@, pairs@);
            assert forall|i: int|
                0 <= i < cells@.len() implies ((#[trigger] grid.data.nodes@[i]).data.global_index
                == i && grid.data.nodes@[i].data.center.in_bounds() && grid.data.nodes@[i].index
                == i) by {
                assert(grid.data.nodes@[i].data == cells@[i]);
            }
            assert forall|i: int, k2: int|
                0 <= i < n && 0 <= k2 < grid.data.nodes@[i].edges@.len() implies (
            #[trigger] grid.data.nodes@[i].edges@[k2]).index < n
                && grid.data.nodes@[i].edges@[k2].label == spec_face_between(
                grid.data.nodes@[i].data,
                grid.data.nodes@[grid.data.nodes@[i].edges@[k2].index as int].data,
            ) by {
                lemma_edges_to_spec_elem(fe, i, k2);
                let j = choose|j: int|
                    0 <= j < fe.len() && fe[j].0 == i && edges_to_spec(fe, i)[k2] == (Edge {
                        index: fe[j].1,
                        label: fe[j].2,
                    });
                lemma_face_edges_spec_elem(cells@, pairs@, j);
            }
        }
        grid
    }

    /// Orients the mesh for one direction into a DAG of tasks, one per cell,
    /// each counting its upwind dependencies.
    pub fn get_dependency_graph(&self, direction: &Direction) -> (r: DependencyGraph)
        requires
            self.wf(),
            direction.vector.in_bounds(),
        ensures
            dep_graph_wf(r),
            r.nodes@.len() == self.data.nodes@.len(),
            forall|i: int|
                0 <= i < r.nodes@.len() ==> (#[trigger] r.nodes@[i]).data.cell
                    == self.data.nodes@[i].data && r.nodes@[i].data.direction == *direction
                    && r.nodes@[i].data.processor_num == self.data.nodes@[i].data.processor_num,
            block_geometry(
                r.deps@,
                self.data.nodes@,
                0,
                *direction,
                self.data.nodes@.len() as int,
                0,
            ),
    {
        proof {
            assert(self.data.nodes.len() == self.data.nodes@.len());
        }
        let mut g: DependencyGraph = Graph { nodes: Vec::new(), deps: Ghost(Seq::empty()) };
        append_direction(&mut g, self, direction);
        g
    }
}

/// Appends one direction's tasks and dependencies to a union DAG. New task
/// indices start at the union's old size; existing tasks and dependencies
/// are untouched.
pub(crate) fn append_direction(g: &mut DependencyGraph, grid: &Grid, direction: &Direction)
    requires
        grid.wf(),
        direction.vector.in_bounds(),
        dep_graph_wf(*old(g)),
        old(g).nodes@.len() + grid.data.nodes@.len() <= usize::MAX,
    ensures
        dep_graph_wf(*final(g)),
        final(g).nodes@.len() == old(g).nodes@.len() + grid.data.nodes@.len(),
        forall|v: int|
            0 <= v < old(g).nodes@.len() ==> #[trigger] final(g).nodes@[v] == old(g).nodes@[v],
        forall|w: int|
            old(g).nodes@.len() <= w < final(g).nodes@.len() ==> {
                let t = (#[trigger] final(g).nodes@[w]).data;
                t.cell == grid.data.nodes@[w - old(g).nodes@.len()].data && t.direction
                    == *direction && t.processor_num == grid.data.nodes@[w - old(
                    g,
                ).nodes@.len()].data.processor_num
            },
        final(g).deps@.len() >= old(g).deps@.len(),
        final(g).deps@.take(old(g).deps@.len() as int) == old(g).deps@,
        forall|j: int|
            old(g).deps@.len() <= j < final(g).deps@.len() ==> (#[trigger] final(g).deps@[j]).0
                >= old(g).nodes@.len() && final(g).deps@[j].1 >= old(g).nodes@.len(),
        forall|a: usize, b: usize|
            a < old(g).nodes@.len() || b < old(g).nodes@.len() ==> #[trigger] count_from_to(
                final(g).deps@,
                a,
                b,
            ) == count_from_to(old(g).deps@, a, b),
        block_geometry(
            final(g).deps@,
            grid.data.nodes@,
            old(g).nodes@.len() as int,
            *direction,
            grid.data.nodes@.len() as int,
            0,
        ),
{
    let base = g.len();
    let n = grid.data.len();
    let ghost g0 = *g;
    let ghost mesh = grid.data.nodes@;
    let mut i: usize = 0;
    while i < n
        invariant
            i <= n,
            n == mesh.len(),
            mesh == grid.data.nodes@,
            base == g0.nodes@.len(),
            base + n <= usize::MAX,
            g.nodes@.len() == base + i,
            g.deps == g0.deps,
            forall|v: int| 0 <= v < base ==> #[trigger] g.nodes@[v] == g0.nodes@[v],
            forall|w: int|
                base <= w < base + i ==> {
                    let t = #[trigger] g.nodes@[w];
                    t.index == w && t.edges@.len() == 0 && t.data.cell == mesh[w - base].data
                        && t.data.direction == *direction && t.data.processor_num == mesh[w
                        - base].data.processor_num && t.data.num_upwind == 0
                },
        decreases n - i,
    {
        let node = grid.data.get(i).unwrap();
        let cell = node.data;
        let idx = g.nodes.len();
        g.nodes.push(
            Node {
                data: Task {
                    cell,
                    direction: *direction,
                    processor_num: cell.processor_num,
                    num_upwind: 0,
                },
                index: idx,
                edges: Vec::new(),
            },
        );
        i = i + 1;
    }
    proof {
        assert forall|v: usize| base <= v < base + n implies count_unsolved_to(
            g.deps@,
            Set::empty(),
            v,
        ) == 0 by {
            lemma_count_unsolved_zero(g.deps@, Set::empty(), v);
        }
        assert forall|a: usize, b: usize| a >= base || b >= base implies #[trigger] count_from_to(
            g.deps@,
            a,
            b,
        ) == 0 by {
            lemma_count_from_to_zero(g.deps@, a, b);
        }
        assert forall|w: usize, v: usize| w < base + n && v < base + n
            implies #[trigger] count_from_to(g.deps@, w, v) == count_targets(
            g.nodes@[w as int].edges@,
            v,
        ) by {
            if w < base && v < base {
                assert(g.nodes@[w as int] == g0.nodes@[w as int]);
            } else if w < base {
                assert(g.nodes@[w as int] == g0.nodes@[w as int]);
                assert forall|k2: int|
                    0 <= k2 < g.nodes@[w as int].edges@.len()
                        implies g.nodes@[w as int].edges@[k2].index != v by {}
                lemma_count_targets_zero(g.nodes@[w as int].edges@, v);
            } else {
                assert(g.nodes@[w as int].edges@.len() == 0);
            }
        }
        assert(dep_graph_wf(*g));
        assert(block_geometry(g.deps@, mesh, base as int, *direction, 0, 0));
        assert(g.deps@.take(g0.deps@.len() as int) =~= g0.deps@);
        assert(mesh.take(0) =~= Seq::<Node<Cell, Face>>::empty());
        crate::graph::lemma_edge_len_sum_nonneg(mesh);
    }
    let mut u: usize = 0;
    while u < n
        invariant
            u <= n,
            n == mesh.len(),
            mesh == grid.data.nodes@,
            grid.wf(),
            direction.vector.in_bounds(),
            base == g0.nodes@.len(),
            base + n <= usize::MAX,
            g.nodes@.len() == base + n,
            dep_graph_wf(*g),
            forall|v: int| 0 <= v < base ==> #[trigger] g.nodes@[v] == g0.nodes@[v],
            forall|w: int|
                base <= w < base + n ==> {
                    let t = #[trigger] g.nodes@[w];
                    t.index == w && t.data.cell == mesh[w - base].data && t.data.direction
                        == *direction && t.data.processor_num == mesh[w - base].data.processor_num
                        && t.data.num_upwind <= g.deps@.len() - g0.deps@.len()
                },
            g.deps@.len() >= g0.deps@.len(),
            g.deps@.take(g0.deps@.len() as int) == g0.deps@,
            forall|j: int|
                g0.deps@.len() <= j < g.deps@.len() ==> (#[trigger] g.deps@[j]).0 >= base
                    && g.deps@[j].1 >= base,
            g.deps@.len() - g0.deps@.len() <= edge_len_sum(mesh.take(u as int)),
            edge_len_sum(mesh.take(u as int)) <= edge_len_sum(mesh),
            forall|a: usize, b: usize|
                a < base || b < base ==> #[trigger] count_from_to(g.deps@, a, b) == count_from_to(
                    g0.deps@,
                    a,
                    b,
                ),
            block_geometry(g.deps@, mesh, base as int, *direction, u as int, 0),
        decreases n - u,
    {
        let m = grid.data.get(u).unwrap().edges.len();
        proof {
            lemma_edge_len_sum_take_step(mesh, u as int);
            lemma_edge_len_sum_take_le(mesh, u + 1);
            assert(block_geometry(g.deps@, mesh, base as int, *direction, u as int, 0));
            assert forall|v: int| 0 <= v < n implies count_downwind(
                mesh[u as int].edges@.take(0),
                v,
                *direction,
            ) == 0 by {
                assert(mesh[u as int].edges@.take(0) =~= Seq::<Edge<Face>>::empty());
            }
        }
        let mut k: usize = 0;
        while k < m
            invariant
                k <= m,
                u < n,
                n == mesh.len(),
                mesh == grid.data.nodes@,
                grid.wf(),
                direction.vector.in_bounds(),
                base == g0.nodes@.len(),
                base + n <= usize::MAX,
                g.nodes@.len() == base + n,
                m == mesh[u as int].edges@.len(),
                dep_graph_wf(*g),
                forall|v: int| 0 <= v < base ==> #[trigger] g.nodes@[v] == g0.nodes@[v],
                forall|w: int|
                    base <= w < base + n ==> {
                        let t = #[trigger] g.nodes@[w];
                        t.index == w && t.data.cell == mesh[w - base].data && t.data.direction
                            == *direction && t.data.processor_num == mesh[w
                            - base].data.processor_num && t.data.num_upwind <= g.deps@.len()
                            - g0.deps@.len()
                    },
                g.deps@.len() >= g0.deps@.len(),
                g.deps@.take(g0.deps@.len() as int) == g0.deps@,
                forall|j: int|
                    g0.deps@.len() <= j < g.deps@.len() ==> (#[trigger] g.deps@[j]).0 >= base
                        && g.deps@[j].1 >= base,
                g.deps@.len() - g0.deps@.len() <= edge_len_sum(mesh.take(u as int)) + k,
                edge_len_sum(mesh.take(u + 1)) == edge_len_sum(mesh.take(u as int)) + m,
                edge_len_sum(mesh.take(u + 1)) <= edge_len_sum(mesh),
                forall|a: usize, b: usize|
                    a < base || b < base ==> #[trigger] count_from_to(g.deps@, a, b)
                        == count_from_to(g0.deps@, a, b),
                block_geometry(g.deps@, mesh, base as int, *direction, u as int, k as int),
            decreases m - k,
        {
            let e = grid.data.get(u).unwrap().edges[k];
            let downwind = is_downwind(&e.label, direction);
            proof {
                assert forall|v: int| 0 <= v < n implies count_downwind(
                    mesh[u as int].edges@.take(k + 1),
                    v,
                    *direction,
                ) == count_downwind(mesh[u as int].edges@.take(k as int), v, *direction) + b2i(
                    mesh[u as int].edges@[k as int].index == v && spec_is_downwind(
                        mesh[u as int].edges@[k as int].label,
                        *direction,
                    ),
                ) by {
                    lemma_count_downwind_take_step(mesh[u as int].edges@, k as int, v, *direction);
                }
            }
            if downwind {
                let t = e.index;
                let src = base + u;
                let dst = base + t;
                let ghost deps0 = g.deps@;
                let ghost nodes0 = g.nodes@;
                proof {
                    g.deps@ = g.deps@.push((src, dst));
                }
                let src_node = g.node_mut(src);
                src_node.edges.push(Edge { index: dst, label: Dependency });
                let ghost nodes1 = g.nodes@;
                let dst_node = g.node_mut(dst);
                proof {
                    assert(dst_node.data.num_upwind <= deps0.len() - g0.deps@.len());
                    assert(deps0.len() - g0.deps@.len() + 1 <= edge_len_sum(mesh.take(u as int)) + k
                        + 1);
                    assert(edge_len_sum(mesh.take(u as int)) + k + 1 <= edge_len_sum(
                        mesh.take(u + 1),
                    ));
                }
                let upwind_count = dst_node.data.num_upwind;
                dst_node.data.num_upwind = upwind_count + 1;
                proof {
                    let deps1 = g.deps@;
                    assert(deps1 == deps0.push((src, dst)));
                    assert(deps1.take(g0.deps@.len() as int) =~= deps0.take(
                        g0.deps@.len() as int,
                    ));
                    assert forall|a: usize, b: usize| #[trigger] count_from_to(deps1, a, b)
                        == count_from_to(deps0, a, b) + b2i((src, dst) == (a, b)) by {
                        lemma_count_from_to_push(deps0, (src, dst), a, b);
                    }
                    assert forall|v: usize| #[trigger] count_unsolved_to(deps1, Set::empty(), v)
                        == count_unsolved_to(deps0, Set::empty(), v) + b2i(dst == v) by {
                        lemma_count_unsolved_to_push(deps0, (src, dst), Set::empty(), v);
                    }
                    assert(g.nodes@ == nodes1.update(
                        dst as int,
                        g.nodes@[dst as int],
                    ));
                    assert(nodes1 == nodes0.update(src as int, nodes1[src as int]));
                    assert(nodes1[src as int].edges@ == nodes0[src as int].edges@.push(
                        Edge { index: dst, label: Dependency },
                    ));
                    assert forall|w: usize, v: usize| w < base + n && v < base + n
                        implies #[trigger] count_from_to(deps1, w, v) == count_targets(
                        g.nodes@[w as int].edges@,
                        v,
                    ) by {
                        if w == src {
                            assert(g.nodes@[w as int].edges@ == nodes0[w as int].edges@.push(
                                Edge { index: dst, label: Dependency },
                            ));
                            lemma_count_targets_push(
                                nodes0[w as int].edges@,
                                Edge { index: dst, label: Dependency },
                                v,
                            );
                        } else {
                            assert(g.nodes@[w as int].edges@ == nodes0[w as int].edges@);
                        }
                    }
                    assert forall|v: int| 0 <= v < base + n implies (
                    #[trigger] g.nodes@[v]).data.num_upwind == count_unsolved_to(
                        deps1,
                        Set::empty(),
                        v as usize,
                    ) by {
                        if v == dst {
                        } else if v == src {
                            assert(g.nodes@[v].data == nodes0[v].data);
                        } else {
                            assert(g.nodes@[v] == nodes0[v]);
                        }
                    }
                    assert(dep_graph_wf(*g));
                    assert(block_geometry(
                        g.deps@,
                        mesh,
                        base as int,
                        *direction,
                        u as int,
                        k + 1,
                    ));
                }
            } else {
                proof {
                    assert(block_geometry(
                        g.deps@,
                        mesh,
                        base as int,
                        *direction,
                        u as int,
                        k + 1,
                    ));
                }
            }
            k = k + 1;
        }
        proof {
            assert(mesh[u as int].edges@.take(m as int) =~= mesh[u as int].edges@);
            assert(block_geometry(g.deps@, mesh, base as int, *direction, u + 1, 0));
        }
        u = u + 1;
    }
    proof {
        assert(mesh.take(n as int) =~= mesh);
        assert(final(g).deps@.take(g0.deps@.len() as int) == g0.deps@);
    }
}

} // verus!
