//! Building a grid from the records of a grid listing: one record per cell,
//! naming its neighbours by `(processor_num, local_index)`. The records are
//! ordered by that key, global indices are assigned densely, and every
//! neighbour reference is resolved to a global index.

use vstd::prelude::*;

use crate::cell::Cell;
use crate::cell::CellId;
use crate::counting::b2i;
use crate::face::Face;
use crate::graph::edges_to_spec;
use crate::graph::Edge;
use crate::graph::Node;
use crate::grid::face_edges_spec;
use crate::grid::Grid;
use crate::vector_3d::Vector3D;

verus! {

/// One line of a grid listing: the cell's own identity, its center, and the
/// cells it touches.
pub struct CellRecord {
    pub local_index: usize,
    pub processor_num: usize,
    pub center: Vector3D,
    pub neighbours: Vec<CellId>,
}

impl CellRecord {
    /// The identity under which other records name this one.
    pub open spec fn id(self) -> CellId {
        CellId { index: self.local_index, processor_num: self.processor_num }
    }
}

/// Why a grid listing is rejected.
#[derive(Clone, Copy, PartialEq, Eq, Structural, Debug)]
pub enum GridError {
    /// Two records carry the same `(processor_num, local_index)`.
    DuplicateCellId,
    /// A neighbour reference names no record.
    UnresolvedNeighbour,
    /// A cell center exceeds the coordinate bound.
    CoordinateOutOfRange,
}

/// The ordering of the listing: by processor, then by local index.
pub open spec fn key_le(a: CellRecord, b: CellRecord) -> bool {
    a.processor_num < b.processor_num || (a.processor_num == b.processor_num && a.local_index
        <= b.local_index)
}

/// Record `r` answers to identity `id`.
pub open spec fn id_matches(r: CellRecord, id: CellId) -> bool {
    r.processor_num == id.processor_num && r.local_index == id.index
}

/// Cell `c` was built from record `r`.
pub open spec fn cell_matches(c: Cell, r: CellRecord) -> bool {
    c.processor_num == r.processor_num && c.local_index == r.local_index && c.center == r.center
}

/// Cell `c` was built from some record of the listing.
pub open spec fn comes_from_listing(c: Cell, records: Seq<CellRecord>) -> bool {
    exists|j: int| 0 <= j < records.len() && cell_matches(c, records[j])
}

/// Some cell of `cells` was built from record `r`.
pub open spec fn listed_among(r: CellRecord, cells: Seq<Cell>) -> bool {
    exists|i: int| 0 <= i < cells.len() && cell_matches(cells[i], r)
}


/// How many of these neighbour references name `id`.
pub open spec fn count_refs(neighbours: Seq<CellId>, id: CellId) -> int
    decreases neighbours.len(),
{
    if neighbours.len() == 0 {
        0
    } else {
        count_refs(neighbours.drop_last(), id) + b2i(neighbours.last() == id)
    }
}

/// The stored edge `e` points at a cell of the store answering to `id`.
pub open spec fn edge_hits(e: Edge<Face>, nodes: Seq<Node<Cell, Face>>, id: CellId) -> bool {
    (e.index as int) < nodes.len() && nodes[e.index as int].data.processor_num == id.processor_num
        && nodes[e.index as int].data.local_index == id.index
}

/// How many of these stored edges point at a cell answering to `id`.
pub open spec fn count_edges_to(
    edges: Seq<Edge<Face>>,
    nodes: Seq<Node<Cell, Face>>,
    id: CellId,
) -> int
    decreases edges.len(),
{
    if edges.len() == 0 {
        0
    } else {
        count_edges_to(edges.drop_last(), nodes, id) + b2i(edge_hits(edges.last(), nodes, id))
    }
}

/// How many resolved `(from, to)` pairs leave `u` for a cell answering to
/// `id`.
pub open spec fn count_pairs_hits(
    pairs: Seq<(usize, usize)>,
    cells: Seq<Cell>,
    u: usize,
    id: CellId,
) -> int
    decreases pairs.len(),
{
    if pairs.len() == 0 {
        0
    } else {
        count_pairs_hits(pairs.drop_last(), cells, u, id) + b2i(
            pairs.last().0 == u && (pairs.last().1 as int) < cells.len()
                && cells[pairs.last().1 as int].processor_num == id.processor_num
                && cells[pairs.last().1 as int].local_index == id.index,
        )
    }
}

/// For every identity, node `a` of the grid stores exactly as many edges at
/// cells with that identity as record `r` names neighbours with it.
pub open spec fn refs_edges_agree(g: Grid, a: int, r: CellRecord) -> bool {
    forall|id: CellId|
        #[trigger] count_refs(r.neighbours@, id) == count_edges_to(
            g.data.nodes@[a].edges@,
            g.data.nodes@,
            id,
        )
}

/// The edges the graph stores at `a` hit identities exactly as often as the
/// resolved pairs leaving `a` do.
proof fn lemma_edges_to_spec_counts(
    cells: Seq<Cell>,
    pairs: Seq<(usize, usize)>,
    nodes: Seq<Node<Cell, Face>>,
    a: usize,
    id: CellId,
)
    requires
        nodes.len() == cells.len(),
        forall|i: int| 0 <= i < cells.len() ==> (#[trigger] nodes[i]).data == cells[i],
    ensures
        count_edges_to(edges_to_spec(face_edges_spec(cells, pairs), a as int), nodes, id)
            == count_pairs_hits(pairs, cells, a, id),
    decreases pairs.len(),
{
    if pairs.len() == 0 {
        assert(face_edges_spec(cells, pairs) =~= Seq::<(usize, usize, Face)>::empty());
        assert(edges_to_spec(face_edges_spec(cells, pairs), a as int) =~= Seq::<
            Edge<Face>,
        >::empty());
    } else {
        let p0 = pairs.drop_last();
        lemma_edges_to_spec_counts(cells, p0, nodes, a, id);
        let fe = face_edges_spec(cells, pairs);
        let fe0 = face_edges_spec(cells, p0);
        assert(fe.drop_last() =~= fe0);
        let last = pairs.last();
        if last.0 == a {
            let e = edges_to_spec(fe, a as int);
            let e0 = edges_to_spec(fe0, a as int);
            assert(e == e0.push((Edge { index: last.1, label: fe.last().2 })));
            assert(e.drop_last() =~= e0);
            if (last.1 as int) < nodes.len() {
                assert(nodes[last.1 as int].data == cells[last.1 as int]);
            }
        } else {
            assert(edges_to_spec(fe, a as int) == edges_to_spec(fe0, a as int));
        }
    }
}

/// Exec comparison of the listing order.
fn key_le_exec(a: &CellRecord, b: &CellRecord) -> (r: bool)
    ensures
        r == key_le(*a, *b),
{
    a.processor_num < b.processor_num || (a.processor_num == b.processor_num && a.local_index
        <= b.local_index)
}

/// The index of the record that answers to `id`, if any.
fn find_record(records: &Vec<CellRecord>, id: &CellId) -> (r: Option<usize>)
    ensures
        match r {
            Some(j) => j < records@.len() && id_matches(records@[j as int], *id),
            None => forall|j: int| 0 <= j < records@.len() ==> !id_matches(#[trigger] records@[j], *id),
        },
{
    let mut j: usize = 0;
    while j < records.len()
        invariant
            j <= records@.len(),
            forall|k: int| 0 <= k < j ==> !id_matches(#[trigger] records@[k], *id),
        decreases records@.len() - j,
    {
        let rec = &records[j];
        if rec.processor_num == id.processor_num && rec.local_index == id.index {
            return Some(j);
        }
        j = j + 1;
    }
    None
}

/// Whether any two records answer to the same identity.
fn check_no_duplicates(records: &Vec<CellRecord>) -> (r: bool)
    ensures
        r == no_duplicate_ids(records@),
{
    let n = records.len();
    let mut i: usize = 0;
    while i < n
        invariant
            i <= n,
            n == records@.len(),
            forall|a: int, b: int|
                0 <= a < i && a < b < n ==> !id_matches(
                    #[trigger] records@[b],
                    (#[trigger] records@[a]).id(),
                ),
        decreases n - i,
    {
        let rec = &records[i];
        let mut j: usize = i + 1;
        while j < n
            invariant
                i < j <= n,
                n == records@.len(),
                rec == &records@[i as int],
                forall|b: int|
                    i < b < j ==> !id_matches(#[trigger] records@[b], records@[i as int].id()),
            decreases n - j,
        {
            let other = &records[j];
            if other.processor_num == rec.processor_num && other.local_index == rec.local_index {
                proof {
                    assert(id_matches(records@[j as int], records@[i as int].id()));
                }
                return false;
            }
            j = j + 1;
        }
        i = i + 1;
    }
    true
}

/// The positions of the records in listing order: a permutation of the
/// record indices under which the keys ascend.
fn sorted_order(records: &Vec<CellRecord>) -> (r: Vec<usize>)
    ensures
        r@.len() == records@.len(),
        forall|a: int| 0 <= a < r@.len() ==> (#[trigger] r@[a]) < records@.len(),
        forall|a: int, b: int| 0 <= a < b < r@.len() ==> r@[a] != r@[b],
        forall|a: int, b: int|
            0 <= a < b < r@.len() ==> key_le(
                records@[#[trigger] r@[a] as int],
                records@[#[trigger] r@[b] as int],
            ),
{
    let n = records.len();
    let mut order: Vec<usize> = Vec::new();
    let mut k: usize = 0;
    while k < n
        invariant
            k <= n,
            n == records@.len(),
            order@.len() == k,
            forall|a: int| 0 <= a < k ==> #[trigger] order@[a] == a,
        decreases n - k,
    {
        order.push(k);
        k = k + 1;
    }
    let mut s: usize = 1;
    while s < n
        invariant
            n == records@.len(),
            1 <= s <= n || (n == 0 && s == 1),
            order@.len() == n,
            forall|a: int| 0 <= a < n ==> (#[trigger] order@[a]) < n,
            forall|a: int, b: int| 0 <= a < b < n ==> order@[a] != order@[b],
            forall|a: int, b: int|
                0 <= a < b < s && b < n ==> key_le(
                    records@[#[trigger] order@[a] as int],
                    records@[#[trigger] order@[b] as int],
                ),
        decreases n - s,
    {
        let mut j: usize = s;
        loop
            invariant_except_break
                n == records@.len(),
                s < n,
                j <= s,
                order@.len() == n,
                forall|a: int| 0 <= a < n ==> (#[trigger] order@[a]) < n,
                forall|a: int, b: int| 0 <= a < b < n ==> order@[a] != order@[b],
                forall|a: int, b: int|
                    0 <= a < b <= s && b != j ==> key_le(
                        records@[#[trigger] order@[a] as int],
                        records@[#[trigger] order@[b] as int],
                    ),
            ensures
                n == records@.len(),
                order@.len() == n,
                forall|a: int| 0 <= a < n ==> (#[trigger] order@[a]) < n,
                forall|a: int, b: int| 0 <= a < b < n ==> order@[a] != order@[b],
                forall|a: int, b: int|
                    0 <= a < b <= s ==> key_le(
                        records@[#[trigger] order@[a] as int],
                        records@[#[trigger] order@[b] as int],
                    ),
            decreases j,
        {
            if j == 0 {
                break ;
            }
            let stop = {
                let earlier = &records[order[j - 1]];
                let later = &records[order[j]];
                key_le_exec(earlier, later)
            };
            if stop {
                proof {
                    assert forall|a: int, b: int| 0 <= a < b <= s implies key_le(
                        records@[#[trigger] order@[a] as int],
                        records@[#[trigger] order@[b] as int],
                    ) by {
                        if b == j && a < j - 1 {
                            assert(key_le(
                                records@[order@[a] as int],
                                records@[order@[j - 1] as int],
                            ));
                            lemma_key_le_transitive(
                                records@[order@[a] as int],
                                records@[order@[j - 1] as int],
                                records@[order@[j as int] as int],
                            );
                        }
                    }
                }
                break ;
            }
            let hi = order[j];
            let lo = order[j - 1];
            order.set(j, lo);
            order.set(j - 1, hi);
            proof {
                assert forall|a: int, b: int|
                    0 <= a < b <= s && b != j - 1 implies key_le(
                    records@[#[trigger] order@[a] as int],
                    records@[#[trigger] order@[b] as int],
                ) by {
                    lemma_key_le_total(records@[lo as int], records@[hi as int]);
                }
            }
            j = j - 1;
        }
        s = s + 1;
    }
    order
}

/// The cells of the grid, in listing order, with dense global indices.
fn build_cells(records: &Vec<CellRecord>, order: &Vec<usize>) -> (r: Result<Vec<Cell>, GridError>)
    requires
        order@.len() == records@.len(),
        forall|a: int| 0 <= a < order@.len() ==> (#[trigger] order@[a]) < records@.len(),
    ensures
        match r {
            Ok(cells) => {
                &&& cells@.len() == records@.len()
                &&& forall|a: int|
                    0 <= a < cells@.len() ==> cell_matches(
                        #[trigger] cells@[a],
                        records@[order@[a] as int],
                    )
                &&& forall|a: int| 0 <= a < cells@.len() ==> (#[trigger] cells@[a]).global_index == a
                &&& forall|a: int| 0 <= a < cells@.len() ==> (#[trigger] cells@[a]).center.in_bounds()
            },
            Err(e) => e == GridError::CoordinateOutOfRange && exists|j: int|
                0 <= j < records@.len() && !(#[trigger] records@[j]).center.in_bounds(),
        },
{
    let n = records.len();
    let mut cells: Vec<Cell> = Vec::new();
    let mut t: usize = 0;
    while t < n
        invariant
            t <= n,
            n == records@.len(),
            order@.len() == n,
            forall|a: int| 0 <= a < n ==> (#[trigger] order@[a]) < n,
            cells@.len() == t,
            forall|a: int|
                0 <= a < t ==> cell_matches(#[trigger] cells@[a], records@[order@[a] as int]),
            forall|a: int| 0 <= a < t ==> (#[trigger] cells@[a]).global_index == a,
            forall|a: int| 0 <= a < t ==> (#[trigger] cells@[a]).center.in_bounds(),
        decreases n - t,
    {
        let rec = &records[order[t]];
        if !rec.center.check_bounds() {
            proof {
                assert(!records@[order@[t as int] as int].center.in_bounds());
            }
            return Err(GridError::CoordinateOutOfRange);
        }
        cells.push(
            Cell {
                center: rec.center,
                global_index: t,
                local_index: rec.local_index,
                processor_num: rec.processor_num,
            },
        );
        t = t + 1;
    }
    Ok(cells)
}

/// One directed edge per neighbour reference, resolved to cell indices.
fn resolve_pairs(records: &Vec<CellRecord>, order: &Vec<usize>, cells: &Vec<Cell>) -> (r: Result<
    Vec<(usize, usize)>,
    GridError,
>)
    requires
        order@.len() == records@.len(),
        cells@.len() == records@.len(),
        forall|a: int| 0 <= a < order@.len() ==> (#[trigger] order@[a]) < records@.len(),
        forall|a: int, b: int| 0 <= a < b < order@.len() ==> order@[a] != order@[b],
        forall|a: int|
            0 <= a < cells@.len() ==> cell_matches(
                #[trigger] cells@[a],
                records@[order@[a] as int],
            ),
    ensures
        match r {
            Ok(pairs) => {
                &&& forall|p: int|
                    0 <= p < pairs@.len() ==> (#[trigger] pairs@[p]).0 < records@.len()
                        && pairs@[p].1 < records@.len()
                &&& all_neighbours_resolve(records@)
                &&& forall|uu: usize, id: CellId|
                    (uu as int) < records@.len() ==> #[trigger] count_pairs_hits(
                        pairs@,
                        cells@,
                        uu,
                        id,
                    ) == count_refs(records@[order@[uu as int] as int].neighbours@, id)
            },
            Err(e) => e == GridError::UnresolvedNeighbour && !all_neighbours_resolve(records@),
        },
{
    let n = records.len();
    let mut pairs: Vec<(usize, usize)> = Vec::new();
    let mut u: usize = 0;
    while u < n
        invariant
            u <= n,
            n == records@.len(),
            order@.len() == n,
            cells@.len() == n,
            forall|a: int| 0 <= a < n ==> (#[trigger] order@[a]) < n,
            forall|a: int, b: int| 0 <= a < b < n ==> order@[a] != order@[b],
            forall|a: int|
                0 <= a < n ==> cell_matches(#[trigger] cells@[a], records@[order@[a] as int]),
            forall|p: int|
                0 <= p < pairs@.len() ==> (#[trigger] pairs@[p]).0 < n && pairs@[p].1 < n,
            forall|a: int|
                0 <= a < u ==> neighbours_of_resolve(
                    records@,
                    #[trigger] records@[order@[a] as int],
                ),
            forall|uu: usize, id: CellId|
                (uu as int) < n ==> #[trigger] count_pairs_hits(pairs@, cells@, uu, id) == (
                if (uu as int) < u {
                    count_refs(records@[order@[uu as int] as int].neighbours@, id)
                } else {
                    0int
                }),
        decreases n - u,
    {
        let rec = &records[order[u]];
        let mut w: usize = 0;
        while w < rec.neighbours.len()
            invariant
                u < n,
                n == records@.len(),
                w <= rec.neighbours@.len(),
                rec == &records@[order@[u as int] as int],
                order@.len() == n,
                cells@.len() == n,
                forall|a: int| 0 <= a < n ==> (#[trigger] order@[a]) < n,
                forall|a: int, b: int| 0 <= a < b < n ==> order@[a] != order@[b],
                forall|a: int|
                    0 <= a < n ==> cell_matches(#[trigger] cells@[a], records@[order@[a] as int]),
                forall|p: int|
                    0 <= p < pairs@.len() ==> (#[trigger] pairs@[p]).0 < n && pairs@[p].1 < n,
                forall|b: int|
                    0 <= b < w ==> exists|jj: int|
                        0 <= jj < records@.len() && id_matches(
                            records@[jj],
                            #[trigger] rec.neighbours@[b],
                        ),
                forall|uu: usize, id: CellId|
                    (uu as int) < n ==> #[trigger] count_pairs_hits(pairs@, cells@, uu, id) == (
                    if (uu as int) < u {
                        count_refs(records@[order@[uu as int] as int].neighbours@, id)
                    } else if uu == u {
                        count_refs(rec.neighbours@.take(w as int), id)
                    } else {
                        0int
                    }),
            decreases rec.neighbours@.len() - w,
        {
            let id = rec.neighbours[w];
            match find_record(records, &id) {
                Some(_source) => {
                    match find_cell(cells, &id) {
                        Some(target) => {
                            let ghost pairs0 = pairs@;
                            pairs.push((u, target));
                            proof {
                                assert(pairs@.drop_last() =~= pairs0);
                                assert(pairs@.last() == (u, target));
                                assert forall|uu: usize, id2: CellId|
                                    (uu as int) < n implies #[trigger] count_pairs_hits(
                                    pairs@,
                                    cells@,
                                    uu,
                                    id2,
                                ) == (if (uu as int) < u {
                                    count_refs(
                                        records@[order@[uu as int] as int].neighbours@,
                                        id2,
                                    )
                                } else if uu == u {
                                    count_refs(rec.neighbours@.take(w + 1), id2)
                                } else {
                                    0int
                                }) by {
                                    assert(count_pairs_hits(pairs@.drop_last(), cells@, uu, id2)
                                        == count_pairs_hits(pairs0, cells@, uu, id2));
                                    assert(rec.neighbours@.take(w + 1).drop_last()
                                        =~= rec.neighbours@.take(w as int));
                                    assert(rec.neighbours@.take(w + 1).last()
                                        == rec.neighbours@[w as int]);
                                    assert(count_refs(rec.neighbours@.take(w + 1), id2)
                                        == count_refs(rec.neighbours@.take(w as int), id2) + b2i(
                                        rec.neighbours@[w as int] == id2,
                                    ));
                                    if uu == u {
                                        assert(cells@[target as int].processor_num
                                            == id.processor_num && cells@[target as int].local_index
                                            == id.index);
                                        if id2 != id {
                                            assert(!(cells@[target as int].processor_num
                                                == id2.processor_num
                                                && cells@[target as int].local_index
                                                == id2.index));
                                        }
                                    }
                                }
                            }
                        },
                        None => {
                            proof {
                                let jj = choose|jj: int|
                                    0 <= jj < records@.len() && id_matches(records@[jj], id);
                                assert(records.len() == records@.len());
                                lemma_order_covers(order@, n as int, jj);
                                let a = choose|a: int| 0 <= a < n && order@[a] == jj;
                                assert(cell_matches(cells@[a], records@[jj]));
                                assert(false);
                            }
                        },
                    }
                },
                None => {
                    proof {
                        assert(!neighbours_of_resolve(
                            records@,
                            records@[order@[u as int] as int],
                        ));
                        assert(!all_neighbours_resolve(records@));
                    }
                    return Err(GridError::UnresolvedNeighbour);
                },
            }
            w = w + 1;
        }
        proof {
            assert(rec.neighbours@.take(rec.neighbours@.len() as int) =~= rec.neighbours@);
        }
        u = u + 1;
    }
    proof {
        assert forall|j: int| 0 <= j < records@.len() implies neighbours_of_resolve(
            records@,
            #[trigger] records@[j],
        ) by {
            assert(records.len() == records@.len());
            lemma_order_covers(order@, n as int, j);
            let a = choose|a: int| 0 <= a < n && order@[a] == j;
            assert(neighbours_of_resolve(records@, records@[order@[a] as int]));
        }
    }
    Ok(pairs)
}

/// What the sorted order and the built cells say about the listing itself:
/// cells and records cover one another, the cells ascend in listing order,
/// and every record's center is within bounds.
proof fn lemma_cells_cover_records(records: Seq<CellRecord>, order: Seq<usize>, cells: Seq<Cell>)
    requires
        order.len() == records.len(),
        cells.len() == records.len(),
        records.len() <= usize::MAX as int,
        forall|a: int| 0 <= a < order.len() ==> (#[trigger] order[a]) < records.len(),
        forall|a: int, b: int| 0 <= a < b < order.len() ==> order[a] != order[b],
        forall|a: int|
            0 <= a < cells.len() ==> cell_matches(#[trigger] cells[a], records[order[a] as int]),
        forall|a: int| 0 <= a < cells.len() ==> (#[trigger] cells[a]).center.in_bounds(),
        forall|a: int, b: int|
            0 <= a < b < order.len() ==> key_le(
                records[#[trigger] order[a] as int],
                records[#[trigger] order[b] as int],
            ),
    ensures
        forall|i: int|
            0 <= i < cells.len() ==> comes_from_listing(#[trigger] cells[i], records),
        forall|j: int| 0 <= j < records.len() ==> listed_among(#[trigger] records[j], cells),
        forall|j: int| 0 <= j < records.len() ==> (#[trigger] records[j]).center.in_bounds(),
        forall|a: int, b: int|
            0 <= a < b < cells.len() ==> key_le_cells(#[trigger] cells[a], #[trigger] cells[b]),
{
    let n = records.len() as int;
    assert forall|i: int| 0 <= i < cells.len() implies comes_from_listing(
        #[trigger] cells[i],
        records,
    ) by {
        assert(cell_matches(cells[i], records[order[i] as int]));
        assert(0 <= order[i] < records.len() && cell_matches(cells[i], records[order[i] as int]));
    }
    assert forall|j: int| 0 <= j < records.len() implies listed_among(
        #[trigger] records[j],
        cells,
    ) by {
        lemma_order_covers(order, n, j);
        let a = choose|a: int| 0 <= a < n && order[a] == j;
        assert(0 <= a < cells.len() && cell_matches(cells[a], records[j]));
    }
    assert forall|j: int| 0 <= j < records.len() implies (
    #[trigger] records[j]).center.in_bounds() by {
        lemma_order_covers(order, n, j);
        let a = choose|a: int| 0 <= a < n && order[a] == j;
        assert(cell_matches(cells[a], records[j]));
    }
    assert forall|a: int, b: int| 0 <= a < b < cells.len() implies key_le_cells(
        #[trigger] cells[a],
        #[trigger] cells[b],
    ) by {
        assert(key_le(records[order[a] as int], records[order[b] as int]));
        assert(cell_matches(cells[a], records[order[a] as int]));
        assert(cell_matches(cells[b], records[order[b] as int]));
    }
}

impl Grid {
    /// Builds the grid a listing describes: cells sorted by
    /// `(processor_num, local_index)` with dense global indices, and one
    /// directed edge per neighbour reference. Rejects listings with
    /// duplicate identities, unresolvable neighbour references, or centers
    /// beyond the coordinate bound; accepts everything else.
    #[verifier::rlimit(100)]
    #[verifier::spinoff_prover]
    pub fn from_cell_records(records: &Vec<CellRecord>) -> (r: Result<Grid, GridError>)
        ensures
            match r {
                Ok(grid) => {
                    &&& grid.wf()
                    &&& grid.data.nodes@.len() == records@.len()
                    &&& forall|a: int, b: int|
                        0 <= a < b < records@.len() ==> key_le_cells(
                            (#[trigger] grid.data.nodes@[a]).data,
                            (#[trigger] grid.data.nodes@[b]).data,
                        )
                    &&& forall|i: int|
                        0 <= i < records@.len() ==> comes_from_listing(
                            (#[trigger] grid.data.nodes@[i]).data,
                            records@,
                        )
                    &&& forall|j: int|
                        0 <= j < records@.len() ==> grid_builds(#[trigger] records@[j], grid)
                    &&& no_duplicate_ids(records@)
                    &&& all_neighbours_resolve(records@)
                    &&& forall|j: int|
                        0 <= j < records@.len() ==> (#[trigger] records@[j]).center.in_bounds()
                    &&& forall|a: int, j: int|
                        0 <= a < records@.len() && 0 <= j < records@.len() && cell_matches(
                            (#[trigger] grid.data.nodes@[a]).data,
                            #[trigger] records@[j],
                        ) ==> refs_edges_agree(grid, a, records@[j])
                },
                Err(GridError::DuplicateCellId) => !no_duplicate_ids(records@),
                Err(GridError::UnresolvedNeighbour) => !all_neighbours_resolve(records@),
                Err(GridError::CoordinateOutOfRange) => exists|j: int|
                    0 <= j < records@.len() && !(#[trigger] records@[j]).center.in_bounds(),
            },
    {
        let n = records.len();
        if !check_no_duplicates(records) {
            return Err(GridError::DuplicateCellId);
        }
        let order = sorted_order(records);
        let cells = match build_cells(records, &order) {
            Ok(cells) => cells,
            Err(e) => {
                return Err(e);
            },
        };
        let pairs = match resolve_pairs(records, &order, &cells) {
            Ok(pairs) => pairs,
            Err(e) => {
                return Err(e);
            },
        };
        proof {
            assert(records.len() == records@.len());
            lemma_cells_cover_records(records@, order@, cells@);
        }
        let grid = Grid::from_cell_pairs(&cells, &pairs);
        proof {
            assert forall|a: int, b: int| 0 <= a < b < records@.len() implies key_le_cells(
                (#[trigger] grid.data.nodes@[a]).data,
                (#[trigger] grid.data.nodes@[b]).data,
            ) by {
                assert(grid.data.nodes@[a].data == cells@[a]);
                assert(grid.data.nodes@[b].data == cells@[b]);
                assert(key_le_cells(cells@[a], cells@[b]));
            }
            assert forall|i: int| 0 <= i < records@.len() implies comes_from_listing(
                (#[trigger] grid.data.nodes@[i]).data,
                records@,
            ) by {
                assert(grid.data.nodes@[i].data == cells@[i]);
                assert(comes_from_listing(cells@[i], records@));
            }
            assert forall|j: int| 0 <= j < records@.len() implies grid_builds(
                #[trigger] records@[j],
                grid,
            ) by {
                assert(listed_among(records@[j], cells@));
                let i = choose|i: int|
                    0 <= i < cells@.len() && cell_matches(cells@[i], records@[j]);
                assert(grid.data.nodes@[i].data == cells@[i]);
                assert(cell_matches(grid.data.nodes@[i].data, records@[j]));
            }
            assert(records.len() == records@.len());
            assert forall|i: int|
                0 <= i < cells@.len() implies (#[trigger] grid.data.nodes@[i]).data
                == cells@[i] by {}
            assert forall|a: int, j: int|
                0 <= a < records@.len() && 0 <= j < records@.len() && cell_matches(
                    (#[trigger] grid.data.nodes@[a]).data,
                    #[trigger] records@[j],
                ) implies refs_edges_agree(grid, a, records@[j]) by {
                assert(grid.data.nodes@[a].data == cells@[a]);
                assert(cell_matches(cells@[a], records@[order@[a] as int]));
                let oj = order@[a] as int;
                assert(j == oj) by {
                    if j != oj {
                        if j < oj {
                            assert(id_matches(records@[oj], records@[j].id()));
                        } else {
                            assert(id_matches(records@[j], records@[oj].id()));
                        }
                        assert(false);
                    }
                }
                assert forall|id: CellId| #[trigger] count_refs(records@[j].neighbours@, id)
                    == count_edges_to(grid.data.nodes@[a].edges@, grid.data.nodes@, id) by {
                    lemma_edges_to_spec_counts(cells@, pairs@, grid.data.nodes@, a as usize, id);
                    assert(grid.data.nodes@[a].edges@ == edges_to_spec(
                        face_edges_spec(cells@, pairs@),
                        a,
                    ));
                    assert(count_pairs_hits(pairs@, cells@, a as usize, id) == count_refs(
                        records@[order@[a as int] as int].neighbours@,
                        id,
                    ));
                }
                assert(refs_edges_agree(grid, a, records@[j]));
            }
        }
        Ok(grid)
    }
}

/// Some cell of the grid was built from record `r`.
pub open spec fn grid_builds(r: CellRecord, grid: Grid) -> bool {
    exists|i: int| 0 <= i < grid.data.nodes@.len() && cell_matches(grid.data.nodes@[i].data, r)
}

/// The listing order, on built cells.
pub open spec fn key_le_cells(a: Cell, b: Cell) -> bool {
    a.processor_num < b.processor_num || (a.processor_num == b.processor_num && a.local_index
        <= b.local_index)
}

/// No two records answer to the same identity.
pub open spec fn no_duplicate_ids(records: Seq<CellRecord>) -> bool {
    forall|a: int, b: int|
        0 <= a < b < records.len() ==> !id_matches(#[trigger] records[b], (#[trigger] records[a]).id())
}

/// Every neighbour this record names exists in the listing.
pub open spec fn neighbours_of_resolve(records: Seq<CellRecord>, r: CellRecord) -> bool {
    forall|b: int|
        0 <= b < r.neighbours@.len() ==> exists|jj: int|
            0 <= jj < records.len() && id_matches(records[jj], #[trigger] r.neighbours@[b])
}

/// Every neighbour reference of the listing resolves.
pub open spec fn all_neighbours_resolve(records: Seq<CellRecord>) -> bool {
    forall|j: int| 0 <= j < records.len() ==> neighbours_of_resolve(records, #[trigger] records[j])
}

/// Two records are always ordered one way or the other.
proof fn lemma_key_le_total(a: CellRecord, b: CellRecord)
    ensures
        key_le(a, b) || key_le(b, a),
{
}

/// The listing order is transitive.
proof fn lemma_key_le_transitive(a: CellRecord, b: CellRecord, c: CellRecord)
    requires
        key_le(a, b),
        key_le(b, c),
    ensures
        key_le(a, c),
{
}

/// A permutation of `0..n` reaches every index below `n`.
proof fn lemma_order_covers(order: Seq<usize>, n: int, target: int)
    requires
        order.len() == n,
        n <= usize::MAX as int,
        0 <= target < n,
        forall|a: int| 0 <= a < n ==> (#[trigger] order[a]) < n,
        forall|a: int, b: int| 0 <= a < b < n ==> order[a] != order[b],
    ensures
        exists|a: int| 0 <= a < n && order[a] == target,
{
    let hit = Set::new(|v: usize| (v as int) < n && exists|a: int| 0 <= a < n && order[a] == v);
    let all = crate::sweep::below_set(n);
    assert(hit.subset_of(all));
    crate::sweep::lemma_below_set_len(n);
    if !hit.contains(target as usize) {
        // Then the n distinct values of `order` would fit in n - 1 slots.
        let smaller = all.remove(target as usize);
        assert(hit.subset_of(smaller));
        vstd::set_lib::lemma_len_subset(hit, smaller);
        lemma_distinct_seq_card(order, n, hit);
        broadcast use vstd::set_lib::group_set_properties;

        assert(false);
    }
}

/// A sequence of `n` distinct values has at least `n` distinct members.
proof fn lemma_distinct_seq_card(order: Seq<usize>, n: int, hit: Set<usize>)
    requires
        order.len() == n,
        0 <= n,
        forall|a: int, b: int| 0 <= a < b < n ==> order[a] != order[b],
        hit.finite(),
        forall|a: int| 0 <= a < n ==> hit.contains(#[trigger] order[a]),
    ensures
        hit.len() >= n,
    decreases n,
{
    if n > 0 {
        let last = order[n - 1];
        let rest = hit.remove(last);
        assert forall|a: int| 0 <= a < n - 1 implies rest.contains(#[trigger] order.take(n - 1)[a]) by {
            assert(order.take(n - 1)[a] == order[a]);
            assert(order[a] != last);
        }
        assert forall|a: int, b: int|
            0 <= a < b < n - 1 implies #[trigger] order.take(n - 1)[a] != #[trigger] order.take(
            n - 1,
        )[b] by {
            assert(order.take(n - 1)[a] == order[a]);
            assert(order.take(n - 1)[b] == order[b]);
        }
        lemma_distinct_seq_card(order.take(n - 1), n - 1, rest);
        broadcast use vstd::set_lib::group_set_properties;

        assert(hit.contains(last));
        assert(hit.len() == rest.len() + 1);
    }
}

/// The sorted cell that answers to `id`, if any.
fn find_cell(cells: &Vec<Cell>, id: &CellId) -> (r: Option<usize>)
    ensures
        match r {
            Some(j) => j < cells@.len() && cells@[j as int].processor_num == id.processor_num
                && cells@[j as int].local_index == id.index,
            None => forall|j: int|
                0 <= j < cells@.len() ==> !((#[trigger] cells@[j]).processor_num
                    == id.processor_num && cells@[j].local_index == id.index),
        },
{
    let mut j: usize = 0;
    while j < cells.len()
        invariant
            j <= cells@.len(),
            forall|k: int|
                0 <= k < j ==> !((#[trigger] cells@[k]).processor_num == id.processor_num
                    && cells@[k].local_index == id.index),
        decreases cells@.len() - j,
    {
        let c = &cells[j];
        if c.processor_num == id.processor_num && c.local_index == id.index {
            return Some(j);
        }
        j = j + 1;
    }
    None
}

} // verus!
