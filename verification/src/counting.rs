//! Ghost occurrence counts over dependency lists and queues. The
//! scheduler's invariants are stated with these, and its proofs use the
//! lemmas here.

use vstd::prelude::*;

verus! {

/// 1 for true, 0 for false; turns a membership test into a count.
pub open spec fn b2i(b: bool) -> int {
    if b {
        1
    } else {
        0
    }
}

/// How many pairs in `deps` are exactly `(u, v)`: the number of dependency
/// edges from task `u` to task `v`.
pub open spec fn count_from_to(deps: Seq<(usize, usize)>, u: usize, v: usize) -> int
    decreases deps.len(),
{
    if deps.len() == 0 {
        0
    } else {
        b2i(deps[0] == (u, v)) + count_from_to(deps.drop_first(), u, v)
    }
}

/// How many pairs in `deps` end at `v` and start at a task outside `solved`:
/// the upwind work still owed to `v`.
pub open spec fn count_unsolved_to(deps: Seq<(usize, usize)>, solved: Set<usize>, v: usize) -> int
    decreases deps.len(),
{
    if deps.len() == 0 {
        0
    } else {
        b2i(deps[0].1 == v && !solved.contains(deps[0].0)) + count_unsolved_to(
            deps.drop_first(),
            solved,
            v,
        )
    }
}

/// How many of these edges point at `v`.
pub open spec fn count_targets<E>(edges: Seq<crate::graph::Edge<E>>, v: usize) -> int
    decreases edges.len(),
{
    if edges.len() == 0 {
        0
    } else {
        b2i(edges[0].index == v) + count_targets(edges.drop_first(), v)
    }
}

/// How many entries of a send queue carry task `v`.
pub open spec fn count_carrying(entries: Seq<(usize, usize)>, v: usize) -> int
    decreases entries.len(),
{
    if entries.len() == 0 {
        0
    } else {
        b2i(entries[0].1 == v) + count_carrying(entries.drop_first(), v)
    }
}

/// Appending a pair raises `count_from_to` by one exactly for that pair.
pub proof fn lemma_count_from_to_push(deps: Seq<(usize, usize)>, x: (usize, usize), u: usize, v: usize)
    ensures
        count_from_to(deps.push(x), u, v) == count_from_to(deps, u, v) + b2i(x == (u, v)),
    decreases deps.len(),
{
    let s = deps.push(x);
    if deps.len() == 0 {
        assert(s.drop_first() =~= Seq::<(usize, usize)>::empty());
        assert(count_from_to(s.drop_first(), u, v) == 0);
        assert(s[0] == x);
    } else {
        assert(s.drop_first() =~= deps.drop_first().push(x));
        assert(s[0] == deps[0]);
        lemma_count_from_to_push(deps.drop_first(), x, u, v);
    }
}

/// Appending a pair raises `count_unsolved_to` accordingly.
pub proof fn lemma_count_unsolved_to_push(
    deps: Seq<(usize, usize)>,
    x: (usize, usize),
    solved: Set<usize>,
    v: usize,
)
    ensures
        count_unsolved_to(deps.push(x), solved, v) == count_unsolved_to(deps, solved, v) + b2i(
            x.1 == v && !solved.contains(x.0),
        ),
    decreases deps.len(),
{
    let s = deps.push(x);
    if deps.len() == 0 {
        assert(s.drop_first() =~= Seq::<(usize, usize)>::empty());
        assert(count_unsolved_to(s.drop_first(), solved, v) == 0);
        assert(s[0] == x);
    } else {
        assert(s.drop_first() =~= deps.drop_first().push(x));
        assert(s[0] == deps[0]);
        lemma_count_unsolved_to_push(deps.drop_first(), x, solved, v);
    }
}

/// Appending an edge raises `count_targets` accordingly.
pub proof fn lemma_count_targets_push<E>(edges: Seq<crate::graph::Edge<E>>, x: crate::graph::Edge<E>, v: usize)
    ensures
        count_targets(edges.push(x), v) == count_targets(edges, v) + b2i(x.index == v),
    decreases edges.len(),
{
    let s = edges.push(x);
    if edges.len() == 0 {
        assert(s.drop_first() =~= Seq::<crate::graph::Edge<E>>::empty());
        assert(count_targets(s.drop_first(), v) == 0);
        assert(s[0] == x);
    } else {
        assert(s.drop_first() =~= edges.drop_first().push(x));
        assert(s[0] == edges[0]);
        lemma_count_targets_push(edges.drop_first(), x, v);
    }
}

/// Appending an entry raises `count_carrying` accordingly.
pub proof fn lemma_count_carrying_push(entries: Seq<(usize, usize)>, x: (usize, usize), v: usize)
    ensures
        count_carrying(entries.push(x), v) == count_carrying(entries, v) + b2i(x.1 == v),
    decreases entries.len(),
{
    let s = entries.push(x);
    if entries.len() == 0 {
        assert(s.drop_first() =~= Seq::<(usize, usize)>::empty());
        assert(count_carrying(s.drop_first(), v) == 0);
        assert(s[0] == x);
    } else {
        assert(s.drop_first() =~= entries.drop_first().push(x));
        assert(s[0] == entries[0]);
        lemma_count_carrying_push(entries.drop_first(), x, v);
    }
}

/// Marking an unsolved task `u` as solved lowers every `count_unsolved_to`
/// by exactly the number of edges from `u`.
pub proof fn lemma_count_unsolved_insert(
    deps: Seq<(usize, usize)>,
    solved: Set<usize>,
    u: usize,
    v: usize,
)
    requires
        !solved.contains(u),
    ensures
        count_unsolved_to(deps, solved.insert(u), v) == count_unsolved_to(deps, solved, v)
            - count_from_to(deps, u, v),
    decreases deps.len(),
{
    if deps.len() > 0 {
        lemma_count_unsolved_insert(deps.drop_first(), solved, u, v);
    }
}

/// `count_unsolved_to` is nonnegative and `count_from_to` never exceeds it
/// for an unsolved source.
pub proof fn lemma_count_unsolved_nonneg(deps: Seq<(usize, usize)>, solved: Set<usize>, v: usize)
    ensures
        count_unsolved_to(deps, solved, v) >= 0,
    decreases deps.len(),
{
    if deps.len() > 0 {
        lemma_count_unsolved_nonneg(deps.drop_first(), solved, v);
    }
}

/// `count_from_to` is nonnegative.
pub proof fn lemma_count_from_to_nonneg(deps: Seq<(usize, usize)>, u: usize, v: usize)
    ensures
        count_from_to(deps, u, v) >= 0,
    decreases deps.len(),
{
    if deps.len() > 0 {
        lemma_count_from_to_nonneg(deps.drop_first(), u, v);
    }
}

/// `count_targets` is nonnegative.
pub proof fn lemma_count_targets_nonneg<E>(edges: Seq<crate::graph::Edge<E>>, v: usize)
    ensures
        count_targets(edges, v) >= 0,
    decreases edges.len(),
{
    if edges.len() > 0 {
        lemma_count_targets_nonneg(edges.drop_first(), v);
    }
}

/// `count_carrying` is nonnegative.
pub proof fn lemma_count_carrying_nonneg(entries: Seq<(usize, usize)>, v: usize)
    ensures
        count_carrying(entries, v) >= 0,
    decreases entries.len(),
{
    if entries.len() > 0 {
        lemma_count_carrying_nonneg(entries.drop_first(), v);
    }
}

/// Stepping one entry into a suffix of a dependency list.
pub proof fn lemma_count_targets_skip<E>(edges: Seq<crate::graph::Edge<E>>, k: int, v: usize)
    requires
        0 <= k < edges.len(),
    ensures
        count_targets(edges.skip(k), v) == b2i(edges[k].index == v) + count_targets(
            edges.skip(k + 1),
            v,
        ),
{
    assert(edges.skip(k).drop_first() =~= edges.skip(k + 1));
    assert(edges.skip(k)[0] == edges[k]);
}

/// Stepping one entry into a suffix of a send list.
pub proof fn lemma_count_carrying_skip(entries: Seq<(usize, usize)>, k: int, v: usize)
    requires
        0 <= k < entries.len(),
    ensures
        count_carrying(entries.skip(k), v) == b2i(entries[k].1 == v) + count_carrying(
            entries.skip(k + 1),
            v,
        ),
{
    assert(entries.skip(k).drop_first() =~= entries.skip(k + 1));
    assert(entries.skip(k)[0] == entries[k]);
}


/// A list with no `(u, v)` entry contributes no `count_from_to`.
pub proof fn lemma_count_from_to_zero(deps: Seq<(usize, usize)>, u: usize, v: usize)
    requires
        forall|j: int| 0 <= j < deps.len() ==> deps[j] != (u, v),
    ensures
        count_from_to(deps, u, v) == 0,
    decreases deps.len(),
{
    if deps.len() > 0 {
        assert(forall|j: int|
            0 <= j < deps.drop_first().len() ==> deps.drop_first()[j] == deps[j + 1]);
        lemma_count_from_to_zero(deps.drop_first(), u, v);
    }
}

/// A list with no entry ending at `v` owes `v` nothing.
pub proof fn lemma_count_unsolved_zero(deps: Seq<(usize, usize)>, solved: Set<usize>, v: usize)
    requires
        forall|j: int| 0 <= j < deps.len() ==> deps[j].1 != v,
    ensures
        count_unsolved_to(deps, solved, v) == 0,
    decreases deps.len(),
{
    if deps.len() > 0 {
        assert(forall|j: int|
            0 <= j < deps.drop_first().len() ==> deps.drop_first()[j] == deps[j + 1]);
        lemma_count_unsolved_zero(deps.drop_first(), solved, v);
    }
}

/// `count_unsolved_to` never exceeds the list length.
pub proof fn lemma_count_unsolved_le_len(deps: Seq<(usize, usize)>, solved: Set<usize>, v: usize)
    ensures
        count_unsolved_to(deps, solved, v) <= deps.len(),
    decreases deps.len(),
{
    if deps.len() > 0 {
        lemma_count_unsolved_le_len(deps.drop_first(), solved, v);
    }
}


/// A list of edges none of which points at `v` counts zero targets.
pub proof fn lemma_count_targets_zero<E>(edges: Seq<crate::graph::Edge<E>>, v: usize)
    requires
        forall|k: int| 0 <= k < edges.len() ==> edges[k].index != v,
    ensures
        count_targets(edges, v) == 0,
    decreases edges.len(),
{
    if edges.len() > 0 {
        assert(forall|k: int|
            0 <= k < edges.drop_first().len() ==> edges.drop_first()[k] == edges[k + 1]);
        lemma_count_targets_zero(edges.drop_first(), v);
    }
}


/// A suffix never counts more targets than the whole list.
pub proof fn lemma_count_targets_skip_prefix<E>(edges: Seq<crate::graph::Edge<E>>, k: int, v: usize)
    requires
        0 <= k <= edges.len(),
    ensures
        count_targets(edges, v) >= count_targets(edges.skip(k), v),
    decreases k,
{
    if k == 0 {
        assert(edges.skip(0) =~= edges);
    } else {
        lemma_count_targets_skip(edges, k - 1, v);
        lemma_count_targets_skip_prefix(edges, k - 1, v);
    }
}


/// A positive `count_unsolved_to` names at least one pair: this returns the
/// position of an edge into `v` whose source is still unsolved.
pub proof fn lemma_count_unsolved_witness(deps: Seq<(usize, usize)>, solved: Set<usize>, v: usize) -> (j: int)
    requires
        count_unsolved_to(deps, solved, v) > 0,
    ensures
        0 <= j < deps.len(),
        deps[j].1 == v,
        !solved.contains(deps[j].0),
    decreases deps.len(),
{
    if deps[0].1 == v && !solved.contains(deps[0].0) {
        0
    } else {
        let j = lemma_count_unsolved_witness(deps.drop_first(), solved, v);
        assert(deps.drop_first()[j] == deps[j + 1]);
        j + 1
    }
}


/// A task owing nothing has every upwind source inside `solved`.
pub proof fn lemma_count_unsolved_zero_sources(
    deps: Seq<(usize, usize)>,
    solved: Set<usize>,
    v: usize,
)
    requires
        count_unsolved_to(deps, solved, v) == 0,
    ensures
        forall|j: int|
            0 <= j < deps.len() && (#[trigger] deps[j]).1 == v ==> solved.contains(deps[j].0),
    decreases deps.len(),
{
    if deps.len() > 0 {
        lemma_count_unsolved_nonneg(deps.drop_first(), solved, v);
        lemma_count_unsolved_zero_sources(deps.drop_first(), solved, v);
        assert forall|j: int|
            0 <= j < deps.len() && (#[trigger] deps[j]).1 == v implies solved.contains(
            deps[j].0,
        ) by {
            if j > 0 {
                assert(deps.drop_first()[j - 1] == deps[j]);
            }
        }
    }
}


/// A listed pair is counted at least once.
pub proof fn lemma_count_from_to_elem(deps: Seq<(usize, usize)>, j: int)
    requires
        0 <= j < deps.len(),
    ensures
        count_from_to(deps, deps[j].0, deps[j].1) >= 1,
    decreases deps.len(),
{
    lemma_count_from_to_nonneg(deps.drop_first(), deps[j].0, deps[j].1);
    if j > 0 {
        assert(deps.drop_first()[j - 1] == deps[j]);
        lemma_count_from_to_elem(deps.drop_first(), j - 1);
    }
}

} // verus!
