//! The generator: bounded expansion, node deduplication, post-filtering and
//! edge composition.

use vstd::prelude::*;
use vstd::laws_eq::obeys_concrete_eq;
use vstd::set_lib::lemma_int_range;
use vstd::set_lib::lemma_len_subset;
use vstd::set_lib::set_int_range;

verus! {

/// Looks a node up among the nodes seen so far, by structural equality.
///
/// Returns the index of the equal node, or `None` when the node is new.
fn find_node<T: Eq>(nodes: &Vec<T>, target: &T) -> (r: Option<usize>)
    requires
        obeys_concrete_eq::<T>(),
    ensures
        match r {
            Some(i) => i < nodes@.len() && nodes@[i as int] == *target,
            None => forall|k: int| 0 <= k < nodes@.len() ==> nodes@[k] != *target,
        },
{
    proof {
        reveal(vstd::laws_eq::obeys_concrete_eq);
    }
    let mut k: usize = 0;
    while k < nodes.len()
        invariant
            obeys_concrete_eq::<T>(),
            k <= nodes@.len(),
            forall|q: int| 0 <= q < k ==> nodes@[q] != *target,
        decreases nodes@.len() - k,
    {
        proof {
            reveal(vstd::laws_eq::obeys_concrete_eq);
        }
        if nodes[k].eq(target) {
            return Some(k);
        }
        k += 1;
    }
    None
}

/// Whether the ordered index pair `(a, b)` is already recorded.
fn contains_pair(pairs: &Vec<(usize, usize)>, a: usize, b: usize) -> (r: bool)
    ensures
        r == pairs@.contains((a, b)),
{
    let mut k: usize = 0;
    while k < pairs.len()
        invariant
            k <= pairs@.len(),
            forall|q: int| 0 <= q < k ==> pairs@[q] != (a, b),
        decreases pairs@.len() - k,
    {
        if pairs[k].0 == a && pairs[k].1 == b {
            return true;
        }
        k += 1;
    }
    false
}

/// Records the ordered index pair `(a, b)` unless it is already recorded,
/// keeping the record free of duplicates.
fn insert_pair(pairs: &mut Vec<(usize, usize)>, a: usize, b: usize)
    ensures
        final(pairs)@.contains((a, b)),
        old(pairs)@.contains((a, b)) ==> final(pairs)@ == old(pairs)@,
        !old(pairs)@.contains((a, b)) ==> final(pairs)@ == old(pairs)@.push((a, b)),
        old(pairs)@.no_duplicates() ==> final(pairs)@.no_duplicates(),
        forall|p: (usize, usize)| final(pairs)@.contains(p) <==> (old(pairs)@.contains(p) || p == (
        a,
        b,
        )),
{
    if !contains_pair(pairs, a, b) {
        pairs.push((a, b));
        assert(pairs@.last() == (a, b));
        assert forall|p: (usize, usize)| pairs@.contains(p) implies (old(pairs)@.contains(p) || p
            == (a, b)) by {
            let q = choose|q: int| 0 <= q < pairs@.len() && pairs@[q] == p;
            if q < pairs@.len() - 1 {
                assert(old(pairs)@[q] == p);
            }
        }
        assert forall|p: (usize, usize)| old(pairs)@.contains(p) implies pairs@.contains(p) by {
            let q = choose|q: int| 0 <= q < old(pairs)@.len() && old(pairs)@[q] == p;
            assert(pairs@[q] == p);
        }
    }
}

/// A duplicate-free record of index pairs below `m` holds at most `m * m`
/// entries.
proof fn lemma_distinct_pairs_len(s: Seq<(usize, usize)>, m: int)
    requires
        s.no_duplicates(),
        forall|k: int| 0 <= k < s.len() ==> (#[trigger] s[k]).0 < m && s[k].1 < m,
        m >= 0,
    ensures
        s.len() <= m * m,
{
    broadcast use vstd::seq_lib::group_seq_properties;

    let f = |p: (usize, usize)| p.0 * m + p.1;
    let codes = s.map_values(f);
    assert forall|i: int, j: int| 0 <= i < j < codes.len() implies codes[i] != codes[j] by {
        let (a1, b1) = s[i];
        let (a2, b2) = s[j];
        assert(a1 * m + b1 != a2 * m + b2) by (nonlinear_arith)
            requires
                0 <= a1 < m,
                0 <= b1 < m,
                0 <= a2 < m,
                0 <= b2 < m,
                !(a1 == a2 && b1 == b2),
        ;
    }
    assert(codes.no_duplicates());
    codes.unique_seq_to_set();
    assert forall|c: int| codes.to_set().contains(c) implies 0 <= c < m * m by {
        let k = choose|k: int| 0 <= k < codes.len() && codes[k] == c;
        let (a, b) = s[k];
        assert(0 <= a * m + b < m * m) by (nonlinear_arith)
            requires
                0 <= a < m,
                0 <= b < m,
        ;
    }
    assert(codes.to_set().subset_of(set_int_range(0, m * m)));
    lemma_int_range(0, m * m);
    lemma_len_subset(codes.to_set(), set_int_range(0, m * m));
}

} // verus!
verus! {

use crate::GenerateError;
use crate::GenerateSettings;
use crate::Graph;
use crate::distinct_nodes;
use crate::edge_from;
use crate::edge_to;
use crate::edges_within;
use vstd::std_specs::convert::FromSpec;

/// The node was produced by some successful application of the expansion
/// rule `f` with a step index below `n`.
pub open spec fn expansion_node<T, U, E, F: Fn(&T, usize) -> Result<(T, U), E>>(
    f: F,
    n: usize,
    t: T,
) -> bool {
    exists|src: &T, s: usize, ret: Result<(T, U), E>|
        s < n && #[trigger] call_ensures(f, (src, s), ret) && ret is Ok && ret->Ok_0.0 == t
}

/// Every node of the result is either a seed node or an output of the
/// expansion rule: nodes do not appear out of thin air.
pub open spec fn node_from_run<T, U, E, F: Fn(&T, usize) -> Result<(T, U), E>>(
    f: F,
    n: usize,
    seed_nodes: Seq<T>,
    t: T,
) -> bool {
    seed_nodes.contains(t) || expansion_node(f, n, t)
}

/// Every edge label of the result is a seed label, a label produced by the
/// expansion rule, or a label produced by the composition rule.
pub open spec fn label_from_run<
    T,
    U,
    E,
    F: Fn(&T, usize) -> Result<(T, U), E>,
    H: Fn(&U, &U) -> Result<U, Option<E>>,
>(f: F, h: H, n: usize, seed_edges: Seq<([usize; 2], U)>, u: U) -> bool {
    ||| exists|k: int| 0 <= k < seed_edges.len() && (#[trigger] seed_edges[k]).1 == u
    ||| exists|src: &T, s: usize, ret: Result<(T, U), E>|
        s < n && #[trigger] call_ensures(f, (src, s), ret) && ret is Ok && ret->Ok_0.1 == u
    ||| exists|u1: &U, u2: &U, ret: Result<U, Option<E>>|
        #[trigger] call_ensures(h, (u1, u2), ret) && ret == Ok::<U, Option<E>>(u)
}

/// A reported error is a ceiling error or an error returned by one of the
/// caller-supplied rules: errors do not appear out of thin air.
pub open spec fn error_source<
    T,
    U,
    E: From<GenerateError>,
    F: Fn(&T, usize) -> Result<(T, U), E>,
    H: Fn(&U, &U) -> Result<U, Option<E>>,
>(f: F, h: H, n: usize, e: E) -> bool {
    ||| e == <E as FromSpec<GenerateError>>::from_spec(GenerateError::MaxNodes)
    ||| e == <E as FromSpec<GenerateError>>::from_spec(GenerateError::MaxEdges)
    ||| exists|src: &T, s: usize, ret: Result<(T, U), E>|
        s < n && #[trigger] call_ensures(f, (src, s), ret) && ret == Err::<(T, U), E>(e)
    ||| exists|u1: &U, u2: &U, ret: Result<U, Option<E>>|
        #[trigger] call_ensures(h, (u1, u2), ret) && ret == Err::<U, Option<E>>(Some(e))
}

/// The filter `g` accepted this node.
pub open spec fn node_kept<T, G: Fn(&T) -> bool>(g: G, t: T) -> bool {
    call_ensures(g, (&t,), true)
}

/// The filter `g` cannot reject any node (it may only answer `true`).
pub open spec fn keep_never_false<T, G: Fn(&T) -> bool>(g: G) -> bool {
    forall|t: &T, b: bool| #[trigger] call_ensures(g, (t,), b) ==> b
}

/// The graph carried by the result, on success and on error alike.
pub open spec fn result_graph<T, U, E>(r: Result<Graph<T, U>, (Graph<T, U>, E)>) -> Graph<T, U> {
    match r {
        Ok(gr) => gr,
        Err((gr, _)) => gr,
    }
}

/// The larger of two integers.
pub open spec fn imax(a: int, b: int) -> int {
    if a >= b {
        a
    } else {
        b
    }
}

/// How many of the first `i` nodes survive the filter: the compacted index
/// of node `i`, when node `i` itself survives.
pub open spec fn kept_before(removed: Seq<bool>, i: int) -> int
    decreases i,
{
    if i <= 0 {
        0
    } else {
        kept_before(removed, i - 1) + (if removed[i - 1] {
            0int
        } else {
            1int
        })
    }
}

/// Compacted slot `k` holds the node that stood at some surviving index `q`
/// below `bound` before compaction.
pub open spec fn originates<T>(nodes0: Seq<T>, removed: Seq<bool>, bound: int, v: T, k: int) -> bool {
    exists|q: int|
        0 <= q < bound && !removed[q] && #[trigger] kept_before(removed, q) == k && nodes0[q] == v
}

/// The edge runs from its source node's index to the index of the node one
/// successful call of the expansion rule produced from it, and carries that
/// call's label.
pub open spec fn edge_from_expansion<T, U, E, F: Fn(&T, usize) -> Result<(T, U), E>>(
    f: F,
    n: usize,
    nodes1: Seq<T>,
    e: ([usize; 2], U),
) -> bool {
    exists|src: &T, s: usize, ret: Result<(T, U), E>|
        s < n && #[trigger] call_ensures(f, (src, s), ret) && *src == nodes1[edge_from(e) as int]
            && ret is Ok && ret->Ok_0.0 == nodes1[edge_to(e) as int] && ret->Ok_0.1 == e.1
}

/// The expansion phase: `nodes1` and `edges1` extend the seed in place, the
/// appended nodes are deduplicated expansion outcomes, and every appended
/// edge ties the node it was expanded from to the candidate's index.
pub open spec fn expanded<T, U, E, F: Fn(&T, usize) -> Result<(T, U), E>>(
    f: F,
    n: usize,
    seed_nodes: Seq<T>,
    seed_edges: Seq<([usize; 2], U)>,
    nodes1: Seq<T>,
    edges1: Seq<([usize; 2], U)>,
) -> bool {
    &&& nodes1.len() >= seed_nodes.len()
    &&& nodes1.subrange(0, seed_nodes.len() as int) == seed_nodes
    &&& distinct_nodes(nodes1)
    &&& edges1.len() >= seed_edges.len()
    &&& edges1.subrange(0, seed_edges.len() as int) == seed_edges
    &&& edges_within(edges1, nodes1.len() as int)
    &&& forall|k: int|
        seed_nodes.len() <= k < nodes1.len() ==> expansion_node(f, n, #[trigger] nodes1[k])
    &&& forall|k: int|
        seed_edges.len() <= k < edges1.len() ==> edge_from_expansion(
            f,
            n,
            nodes1,
            #[trigger] edges1[k],
        )
}

/// The filter phase: `removed` records, for every node, an answer the
/// filter gave for it. A node the filter can only accept is never removed,
/// and one it can only reject never survives.
pub open spec fn filtered<T, G: Fn(&T) -> bool>(g: G, nodes1: Seq<T>, removed: Seq<bool>) -> bool {
    &&& removed.len() == nodes1.len()
    &&& forall|q: int|
        0 <= q < removed.len() ==> call_ensures(g, (&nodes1[q],), !(#[trigger] removed[q]))
}

/// The edge list holds an edge with this ordered index pair.
pub open spec fn pair_present<U>(edges: Seq<([usize; 2], U)>, a: usize, d: usize) -> bool {
    exists|mm: int|
        0 <= mm < edges.len() && edge_from(#[trigger] edges[mm]) == a && edge_to(edges[mm]) == d
}

/// The composer was offered these two labels and turned them down, silently
/// or with an error.
pub open spec fn compose_declined<U, E, H: Fn(&U, &U) -> Result<U, Option<E>>>(
    h: H,
    l1: U,
    l2: U,
) -> bool {
    exists|u1: &U, u2: &U, ret: Result<U, Option<E>>|
        #[trigger] call_ensures(h, (u1, u2), ret) && *u1 == l1 && *u2 == l2 && ret is Err
}

/// Edge `mm` of the composition phase's output bridges a removed node: it
/// runs from the source of an edge into that node to the target of a
/// snapshot edge out of it, and its label is one the composer returned for
/// those two edges' labels, in that order.
pub open spec fn composed_edge<U, E, H: Fn(&U, &U) -> Result<U, Option<E>>>(
    h: H,
    edges2: Seq<([usize; 2], U)>,
    e1len: int,
    removed: Seq<bool>,
    mm: int,
) -> bool {
    exists|j: int, k: int, u1: &U, u2: &U, ret: Result<U, Option<E>>|
        #![trigger call_ensures(h, (u1, u2), ret), edges2[j], edges2[k]]
        0 <= j < mm && 0 <= k < e1len && k < edges2.len() && edge_to(edges2[j]) < removed.len()
            && removed[edge_to(edges2[j]) as int] && edge_from(edges2[k]) == edge_to(edges2[j])
            && edge_from(edges2[mm]) == edge_from(edges2[j]) && edge_to(edges2[mm]) == edge_to(
            edges2[k],
        ) && call_ensures(h, (u1, u2), ret) && *u1 == edges2[j].1 && *u2 == edges2[k].1 && ret
            == Ok::<U, Option<E>>(edges2[mm].1)
}

/// Edges `jj` and `kk` were considered for composition: where `jj` runs
/// into a removed node and snapshot edge `kk` runs out of it, either a
/// bridging edge stands in the output or the composer turned the pair down.
pub open spec fn bridge_ok<U, E, H: Fn(&U, &U) -> Result<U, Option<E>>>(
    h: H,
    edges2: Seq<([usize; 2], U)>,
    removed: Seq<bool>,
    jj: int,
    kk: int,
) -> bool {
    (edge_to(edges2[jj]) < removed.len() && removed[edge_to(edges2[jj]) as int] && edge_from(
        edges2[kk],
    ) == edge_to(edges2[jj])) ==> (pair_present(
        edges2,
        edge_from(edges2[jj]),
        edge_to(edges2[kk]),
    ) || compose_declined(h, edges2[jj].1, edges2[kk].1))
}

/// The composition phase: the edges up to `e1len` are the expansion's,
/// untouched; everything after them is a bridging edge; and every pair of
/// an edge into a removed node and a snapshot edge out of it was offered to
/// the composer unless its bridge already existed.
pub open spec fn composed<U, E, H: Fn(&U, &U) -> Result<U, Option<E>>>(
    h: H,
    removed: Seq<bool>,
    edges2: Seq<([usize; 2], U)>,
    e1len: int,
) -> bool {
    &&& 0 <= e1len <= edges2.len()
    &&& forall|mm: int|
        e1len <= mm < edges2.len() ==> composed_edge(h, edges2, e1len, removed, mm)
    &&& forall|jj: int, kk: int|
        0 <= jj < edges2.len() && 0 <= kk < e1len ==> #[trigger] bridge_ok(
            h,
            edges2,
            removed,
            jj,
            kk,
        )
}

/// Both endpoints of the edge survive the filter.
pub open spec fn edge_kept<U>(removed: Seq<bool>, e: ([usize; 2], U)) -> bool {
    &&& edge_from(e) < removed.len()
    &&& edge_to(e) < removed.len()
    &&& !removed[edge_from(e) as int]
    &&& !removed[edge_to(e) as int]
}

/// `o` is `e` with both endpoints renumbered by compaction, same label.
pub open spec fn reindexes_to<U>(
    removed: Seq<bool>,
    e: ([usize; 2], U),
    o: ([usize; 2], U),
) -> bool {
    &&& edge_kept(removed, e)
    &&& edge_from(o) as int == kept_before(removed, edge_from(e) as int)
    &&& edge_to(o) as int == kept_before(removed, edge_to(e) as int)
    &&& o.1 == e.1
}

/// Some slot of `out` at or after `lo` holds `e`, reindexed.
pub open spec fn kept_present<U>(
    removed: Seq<bool>,
    e: ([usize; 2], U),
    out: Seq<([usize; 2], U)>,
    lo: int,
) -> bool {
    exists|mm: int| lo <= mm < out.len() && #[trigger] reindexes_to(removed, e, out[mm])
}

/// Slot `mm` of `out` is some surviving pre-compaction edge, reindexed.
pub open spec fn slot_reindexed<U>(
    removed: Seq<bool>,
    pre: Seq<([usize; 2], U)>,
    out: Seq<([usize; 2], U)>,
    mm: int,
) -> bool {
    exists|k: int| 0 <= k < pre.len() && #[trigger] reindexes_to(removed, pre[k], out[mm])
}

/// The compaction phase: surviving nodes keep their relative order under
/// consecutive new indices; the result's edges are exactly the surviving
/// edges with renumbered endpoints, in some order.
pub open spec fn compacted<T, U>(
    nodes1: Seq<T>,
    removed: Seq<bool>,
    edges2: Seq<([usize; 2], U)>,
    out_nodes: Seq<T>,
    out_edges: Seq<([usize; 2], U)>,
) -> bool {
    &&& out_nodes.len() == kept_before(removed, removed.len() as int)
    &&& forall|q: int|
        0 <= q < removed.len() && !removed[q] ==> 0 <= #[trigger] kept_before(removed, q)
            < out_nodes.len() && out_nodes[kept_before(removed, q)] == nodes1[q]
    &&& forall|k: int|
        0 <= k < edges2.len() && edge_kept(removed, #[trigger] edges2[k]) ==> kept_present(
            removed,
            edges2[k],
            out_edges,
            0,
        )
    &&& forall|mm: int| 0 <= mm < out_edges.len() ==> slot_reindexed(removed, edges2, out_edges, mm)
}

/// One run of the generator, witnessed by its intermediate state: the
/// post-expansion nodes `nodes1`, the removal flags `removed`, the
/// post-composition edges `edges2` whose first `e1len` entries are the
/// expansion's, and the compacted output.
pub open spec fn gen_run<
    T,
    U,
    E,
    F: Fn(&T, usize) -> Result<(T, U), E>,
    G: Fn(&T) -> bool,
    H: Fn(&U, &U) -> Result<U, Option<E>>,
>(
    f: F,
    g: G,
    h: H,
    n: usize,
    seed_nodes: Seq<T>,
    seed_edges: Seq<([usize; 2], U)>,
    nodes1: Seq<T>,
    removed: Seq<bool>,
    edges2: Seq<([usize; 2], U)>,
    e1len: int,
    out_nodes: Seq<T>,
    out_edges: Seq<([usize; 2], U)>,
    max_nodes: usize,
    max_edges: usize,
) -> bool {
    &&& e1len <= edges2.len()
    &&& expanded(f, n, seed_nodes, seed_edges, nodes1, edges2.subrange(0, e1len))
    &&& filtered(g, nodes1, removed)
    &&& composed(h, removed, edges2, e1len)
    &&& edges_within(edges2, nodes1.len() as int)
    &&& compacted(nodes1, removed, edges2, out_nodes, out_edges)
    &&& (nodes1.len() < max_nodes && e1len < max_edges) ==> forall|ii: int, ss: usize|
        0 <= ii < nodes1.len() && ss < n ==> step_done(
            f,
            nodes1,
            edges2.subrange(0, e1len),
            ii,
            ss,
        )
}

/// The expansion rule cannot fail: every call of it returns `Ok`.
pub open spec fn expand_never_fails<T, U, E, F: Fn(&T, usize) -> Result<(T, U), E>>(f: F) -> bool {
    forall|src: &T, s: usize, ret: Result<(T, U), E>|
        #[trigger] call_ensures(f, (src, s), ret) ==> ret is Ok
}

/// The composition rule never reports an error: every call of it returns
/// `Ok` or the silent `Err(None)`.
pub open spec fn compose_never_reports<U, E, H: Fn(&U, &U) -> Result<U, Option<E>>>(h: H) -> bool {
    forall|u1: &U, u2: &U, ret: Result<U, Option<E>>|
        #[trigger] call_ensures(h, (u1, u2), ret) ==> !(ret is Err && ret->Err_0 is Some)
}

/// The expansion rule was applied to node `i` with step `s`: some call of
/// `f` on that node's value either failed, or produced the node and label
/// that an edge from `i` records.
pub open spec fn step_done<T, U, E, F: Fn(&T, usize) -> Result<(T, U), E>>(
    f: F,
    nodes1: Seq<T>,
    edges1: Seq<([usize; 2], U)>,
    i: int,
    s: usize,
) -> bool {
    exists|src: &T, ret: Result<(T, U), E>|
        #![trigger call_ensures(f, (src, s), ret)]
        call_ensures(f, (src, s), ret) && *src == nodes1[i] && (ret is Err || exists|mm: int|
            0 <= mm < edges1.len() && edge_from(#[trigger] edges1[mm]) as int == i && edge_to(
                edges1[mm],
            ) < nodes1.len() && nodes1[edge_to(edges1[mm]) as int] == ret->Ok_0.0 && edges1[mm].1
                == ret->Ok_0.1)
}

/// An applied step stays applied as the graph grows in place.
proof fn lemma_step_done_grow<T, U, E, F: Fn(&T, usize) -> Result<(T, U), E>>(
    f: F,
    nodes1: Seq<T>,
    edges1: Seq<([usize; 2], U)>,
    nodes2: Seq<T>,
    edges2: Seq<([usize; 2], U)>,
    i: int,
    s: usize,
)
    requires
        step_done(f, nodes1, edges1, i, s),
        0 <= i < nodes1.len(),
        nodes2.len() >= nodes1.len(),
        nodes2.subrange(0, nodes1.len() as int) == nodes1,
        edges2.len() >= edges1.len(),
        edges2.subrange(0, edges1.len() as int) == edges1,
        edges_within(edges1, nodes1.len() as int),
    ensures
        step_done(f, nodes2, edges2, i, s),
{
    let (src, ret) = choose|src: &T, ret: Result<(T, U), E>|
        #![trigger call_ensures(f, (src, s), ret)]
        call_ensures(f, (src, s), ret) && *src == nodes1[i] && (ret is Err || exists|mm: int|
            0 <= mm < edges1.len() && edge_from(#[trigger] edges1[mm]) as int == i && edge_to(
                edges1[mm],
            ) < nodes1.len() && nodes1[edge_to(edges1[mm]) as int] == ret->Ok_0.0 && edges1[mm].1
                == ret->Ok_0.1);
    assert(nodes2[i] == nodes1[i]);
    if !(ret is Err) {
        let mm = choose|mm: int|
            0 <= mm < edges1.len() && edge_from(#[trigger] edges1[mm]) as int == i && edge_to(
                edges1[mm],
            ) < nodes1.len() && nodes1[edge_to(edges1[mm]) as int] == ret->Ok_0.0 && edges1[mm].1
                == ret->Ok_0.1;
        assert(edges2[mm] == edges1[mm]);
        assert(nodes2[edge_to(edges2[mm]) as int] == nodes1[edge_to(edges1[mm]) as int]);
    }
}

/// An ordered pair stays present when an edge is appended.
proof fn lemma_pair_present_push<U>(
    edges2: Seq<([usize; 2], U)>,
    x: ([usize; 2], U),
    a: usize,
    d: usize,
)
    requires
        pair_present(edges2, a, d),
    ensures
        pair_present(edges2.push(x), a, d),
{
    let mm = choose|mm: int|
        0 <= mm < edges2.len() && edge_from(#[trigger] edges2[mm]) == a && edge_to(edges2[mm])
            == d;
    assert(edges2.push(x)[mm] == edges2[mm]);
}

/// A bridging edge keeps its provenance when an edge is appended.
proof fn lemma_composed_edge_push<U, E, H: Fn(&U, &U) -> Result<U, Option<E>>>(
    h: H,
    edges2: Seq<([usize; 2], U)>,
    x: ([usize; 2], U),
    e1len: int,
    removed: Seq<bool>,
    mm: int,
)
    requires
        composed_edge(h, edges2, e1len, removed, mm),
        0 <= mm < edges2.len(),
    ensures
        composed_edge(h, edges2.push(x), e1len, removed, mm),
{
    let (j, k, u1, u2, ret) = choose|j: int, k: int, u1: &U, u2: &U, ret: Result<U, Option<E>>|
        #![trigger call_ensures(h, (u1, u2), ret), edges2[j], edges2[k]]
        0 <= j < mm && 0 <= k < e1len && k < edges2.len() && edge_to(edges2[j]) < removed.len()
            && removed[edge_to(edges2[j]) as int] && edge_from(edges2[k]) == edge_to(edges2[j])
            && edge_from(edges2[mm]) == edge_from(edges2[j]) && edge_to(edges2[mm]) == edge_to(
            edges2[k],
        ) && call_ensures(h, (u1, u2), ret) && *u1 == edges2[j].1 && *u2 == edges2[k].1 && ret
            == Ok::<U, Option<E>>(edges2[mm].1);
    assert(edges2.push(x)[j] == edges2[j]);
    assert(edges2.push(x)[k] == edges2[k]);
    assert(edges2.push(x)[mm] == edges2[mm]);
}

/// A considered pair stays considered when an edge is appended.
proof fn lemma_bridge_ok_push<U, E, H: Fn(&U, &U) -> Result<U, Option<E>>>(
    h: H,
    edges2: Seq<([usize; 2], U)>,
    x: ([usize; 2], U),
    removed: Seq<bool>,
    jj: int,
    kk: int,
)
    requires
        bridge_ok(h, edges2, removed, jj, kk),
        0 <= jj < edges2.len(),
        0 <= kk < edges2.len(),
    ensures
        bridge_ok(h, edges2.push(x), removed, jj, kk),
{
    assert(edges2.push(x)[jj] == edges2[jj]);
    assert(edges2.push(x)[kk] == edges2[kk]);
    if edge_to(edges2[jj]) < removed.len() && removed[edge_to(edges2[jj]) as int] && edge_from(
        edges2[kk],
    ) == edge_to(edges2[jj]) {
        if pair_present(edges2, edge_from(edges2[jj]), edge_to(edges2[kk])) {
            lemma_pair_present_push(edges2, x, edge_from(edges2[jj]), edge_to(edges2[kk]));
        }
    }
}

/// When no node is removed, compaction does not renumber anything.
proof fn lemma_kept_before_all(removed: Seq<bool>, i: int)
    requires
        0 <= i <= removed.len(),
        forall|q: int| 0 <= q < removed.len() ==> !(#[trigger] removed[q]),
    ensures
        kept_before(removed, i) == i,
    decreases i,
{
    if i > 0 {
        lemma_kept_before_all(removed, i - 1);
    }
}

} // verus!
verus! {

/// Generates a graph from:
///
/// - an initial seed graph of distinct nodes and valid edges
/// - a number `n` of expansion steps to attempt per node
/// - a function `f` to generate a new node with an edge label
/// - a filter `g` to post-process nodes
/// - a composer `h` to transform edges when nodes are filtered out
/// - settings with ceilings that control the use of memory
///
/// Nodes are processed in insertion order, each with steps `0..n`; every
/// candidate node returned by `f` is deduplicated by structural equality
/// against the nodes seen so far, and an edge from the current node to the
/// candidate's index is appended. Expansion stops as soon as a ceiling is
/// reached. Nodes rejected by `g` are then removed; every pair of edges
/// `a -> b`, `b -> d` through a removed node `b` is offered to `h`, which
/// can supply the label for a direct edge `a -> d`, decline silently, or
/// report an error. Finally the surviving nodes are renumbered
/// consecutively and edges are rewritten; the removal of dead edges swaps
/// the last edge into the gap, so the edge order of the result is not
/// preserved.
///
/// Returns `Ok` when no ceiling was hit and no rule reported an error, and
/// `Err` otherwise; either way the carried graph is the best-effort
/// filtered and compacted result, and only the first error is reported.
#[verifier::loop_isolation(false)]
#[verifier::rlimit(100)]
pub fn gen<T, U, F, G, H, E>(
    graph: Graph<T, U>,
    n: usize,
    f: F,
    g: G,
    h: H,
    settings: &GenerateSettings,
) -> (r: Result<Graph<T, U>, (Graph<T, U>, E)>) where
    T: Eq + core::hash::Hash + Clone,
    F: Fn(&T, usize) -> Result<(T, U), E>,
    G: Fn(&T) -> bool,
    H: Fn(&U, &U) -> Result<U, Option<E>>,
    E: From<GenerateError>,

    requires
        obeys_concrete_eq::<T>(),
        distinct_nodes(graph.0@),
        edges_within(graph.1@, graph.0@.len() as int),
        forall|t: &T, s: usize| s < n ==> call_requires(f, (t, s)),
        forall|t: &T| call_requires(g, (t,)),
        forall|u1: &U, u2: &U| call_requires(h, (u1, u2)),
    ensures
        distinct_nodes(result_graph(r).0@),
        edges_within(result_graph(r).1@, result_graph(r).0@.len() as int),
        forall|k: int|
            0 <= k < result_graph(r).0@.len() ==> node_kept(g, #[trigger] result_graph(r).0@[k]),
        graph.0@.len() < settings.max_nodes ==> result_graph(r).0@.len() <= settings.max_nodes,
        result_graph(r).0@.len() <= imax(graph.0@.len() as int + 1, settings.max_nodes as int),
        graph.1@.len() < settings.max_edges && keep_never_false(g) ==> result_graph(r).1@.len()
            <= settings.max_edges,
        keep_never_false(g) ==> result_graph(r).0@.len() >= graph.0@.len() && result_graph(
            r,
        ).0@.subrange(0, graph.0@.len() as int) == graph.0@,
        n == 0 && keep_never_false(g) ==> r is Ok && result_graph(r).0@ == graph.0@
            && result_graph(r).1@ == graph.1@,
        <E as FromSpec<GenerateError>>::obeys_from_spec() && r is Err ==> error_source(
            f,
            h,
            n,
            r->Err_0.1,
        ),
        exists|nodes1: Seq<T>, removed: Seq<bool>, edges2: Seq<([usize; 2], U)>, e1len: int|
            #[trigger] gen_run(
                f,
                g,
                h,
                n,
                graph.0@,
                graph.1@,
                nodes1,
                removed,
                edges2,
                e1len,
                result_graph(r).0@,
                result_graph(r).1@,
                settings.max_nodes,
                settings.max_edges,
            ),
        keep_never_false(g) && expand_never_fails(f) && compose_never_reports(h) && r is Err
            ==> result_graph(r).0@.len() >= settings.max_nodes || result_graph(r).1@.len()
            >= settings.max_edges,
{
    let ghost seed_nodes = graph.0@;
    let ghost seed_edges = graph.1@;
    let ghost nmax = settings.max_nodes as int;
    let ghost emax = settings.max_edges as int;
    let (mut nodes, mut edges) = graph;
    let mut error: Option<E> = None;
    let mut has_edge: Vec<(usize, usize)> = Vec::new();

    // Record the index pairs of the seed edges.
    let mut w: usize = 0;
    while w < edges.len()
        invariant
            w <= edges@.len(),
            has_edge@.no_duplicates(),
            forall|q: int|
                0 <= q < has_edge@.len() ==> (#[trigger] has_edge@[q]).0 < nodes@.len()
                    && has_edge@[q].1 < nodes@.len(),
            forall|q: int|
                0 <= q < has_edge@.len() ==> pair_present(
                    edges@,
                    (#[trigger] has_edge@[q]).0,
                    has_edge@[q].1,
                ),
        decreases edges@.len() - w,
    {
        let a = edges[w].0[0];
        let b = edges[w].0[1];
        assert(edge_from(edges@[w as int]) == a && edge_to(edges@[w as int]) == b);
        assert(pair_present(edges@, a, b));
        insert_pair(&mut has_edge, a, b);
        w += 1;
    }

    // Expansion: process nodes in insertion order, including appended ones.
    let ghost ncap = imax(seed_nodes.len() as int + 1, nmax);
    let ghost ecap = imax(seed_edges.len() as int + 1, emax);
    let mut stop = false;
    let mut i: usize = 0;
    while i < nodes.len() && !stop
        invariant
            i <= nodes@.len(),
            distinct_nodes(nodes@),
            edges_within(edges@, nodes@.len() as int),
            nodes@.len() >= seed_nodes.len(),
            nodes@.subrange(0, seed_nodes.len() as int) == seed_nodes,
            forall|k: int|
                0 <= k < nodes@.len() ==> node_from_run(f, n, seed_nodes, #[trigger] nodes@[k]),
            forall|k: int|
                0 <= k < edges@.len() ==> label_from_run(
                    f,
                    h,
                    n,
                    seed_edges,
                    (#[trigger] edges@[k]).1,
                ),
            has_edge@.no_duplicates(),
            forall|q: int|
                0 <= q < has_edge@.len() ==> (#[trigger] has_edge@[q]).0 < nodes@.len()
                    && has_edge@[q].1 < nodes@.len(),
            forall|q: int|
                0 <= q < has_edge@.len() ==> pair_present(
                    edges@,
                    (#[trigger] has_edge@[q]).0,
                    has_edge@[q].1,
                ),
            edges@.len() >= seed_edges.len(),
            edges@.subrange(0, seed_edges.len() as int) == seed_edges,
            forall|k: int|
                seed_nodes.len() <= k < nodes@.len() ==> expansion_node(f, n, #[trigger] nodes@[k]),
            forall|k: int|
                seed_edges.len() <= k < edges@.len() ==> edge_from_expansion(
                    f,
                    n,
                    nodes@,
                    #[trigger] edges@[k],
                ),
            stop ==> nodes@.len() >= nmax || edges@.len() >= emax,
            expand_never_fails(f) ==> (error is Some ==> stop),
            !stop ==> (forall|ii: int, ss: usize|
                0 <= ii < i && ss < n ==> step_done(f, nodes@, edges@, ii, ss)),
            nodes@.len() <= ncap,
            edges@.len() <= ecap,
            !stop ==> nodes@.len() <= imax(seed_nodes.len() as int, nmax - 1),
            !stop ==> edges@.len() <= imax(seed_edges.len() as int, emax - 1),
            match error {
                Some(e) => <E as FromSpec<GenerateError>>::obeys_from_spec() ==> error_source(
                    f,
                    h,
                    n,
                    e,
                ),
                None => true,
            },
            n == 0 ==> nodes@ == seed_nodes && edges@ == seed_edges && error is None && !stop,
        decreases ncap - i,
    {
        let mut j: usize = 0;
        while j < n && !stop
            invariant
                j <= n,
                i < nodes@.len(),
                distinct_nodes(nodes@),
                edges_within(edges@, nodes@.len() as int),
                nodes@.len() >= seed_nodes.len(),
                nodes@.subrange(0, seed_nodes.len() as int) == seed_nodes,
                forall|k: int|
                    0 <= k < nodes@.len() ==> node_from_run(f, n, seed_nodes, #[trigger] nodes@[k]),
                forall|k: int|
                    0 <= k < edges@.len() ==> label_from_run(
                        f,
                        h,
                        n,
                        seed_edges,
                        (#[trigger] edges@[k]).1,
                    ),
                has_edge@.no_duplicates(),
                forall|q: int|
                    0 <= q < has_edge@.len() ==> (#[trigger] has_edge@[q]).0 < nodes@.len()
                        && has_edge@[q].1 < nodes@.len(),
            forall|q: int|
                    0 <= q < has_edge@.len() ==> pair_present(
                        edges@,
                        (#[trigger] has_edge@[q]).0,
                        has_edge@[q].1,
                    ),
                edges@.len() >= seed_edges.len(),
                edges@.subrange(0, seed_edges.len() as int) == seed_edges,
                forall|k: int|
                    seed_nodes.len() <= k < nodes@.len() ==> expansion_node(f, n, #[trigger] nodes@[k]),
                forall|k: int|
                    seed_edges.len() <= k < edges@.len() ==> edge_from_expansion(
                        f,
                        n,
                        nodes@,
                        #[trigger] edges@[k],
                    ),
                stop ==> nodes@.len() >= nmax || edges@.len() >= emax,
                expand_never_fails(f) ==> (error is Some ==> stop),
                !stop ==> (forall|ii: int, ss: usize|
                    0 <= ii < i && ss < n ==> step_done(f, nodes@, edges@, ii, ss)),
                !stop ==> (forall|ss: usize| ss < j ==> step_done(f, nodes@, edges@, i as int, ss)),
                nodes@.len() <= ncap,
                edges@.len() <= ecap,
                !stop ==> nodes@.len() <= imax(seed_nodes.len() as int, nmax - 1),
                !stop ==> edges@.len() <= imax(seed_edges.len() as int, emax - 1),
                match error {
                    Some(e) => <E as FromSpec<GenerateError>>::obeys_from_spec() ==> error_source(
                        f,
                        h,
                        n,
                        e,
                    ),
                    None => true,
                },
                n == 0 ==> nodes@ == seed_nodes && edges@ == seed_edges && error is None && !stop,
            decreases n - j,
        {
            let ghost pre_nodes = nodes@;
            let res = f(&nodes[i], j);
            match res {
                Ok(pair) => {
                    let (new_node, new_label) = pair;
                    proof {
                        assert(expansion_node(f, n, new_node));
                        assert(label_from_run(f, h, n, seed_edges, new_label));
                    }
                    let id: usize;
                    match find_node(&nodes, &new_node) {
                        Some(found) => {
                            id = found;
                        },
                        None => {
                            id = nodes.len();
                            nodes.push(new_node);
                            proof {
                                assert(nodes@.subrange(0, seed_nodes.len() as int)
                                    =~= seed_nodes);
                            }
                        },
                    }
                    proof {
                        assert(nodes@[id as int] == new_node);
                    }
                    let ghost pre_has = has_edge@;
                    insert_pair(&mut has_edge, i, id);
                    let ghost mid_edges = edges@;
                    edges.push(([i, id], new_label));
                    proof {
                        let last = edges@.len() - 1;
                        assert(edge_from(edges@[last]) == i && edge_to(edges@[last]) == id
                            && edges@[last].1 == new_label);
                        assert(pair_present(edges@, i, id));
                        assert(edge_from_expansion(f, n, nodes@, edges@[last]));
                        assert(edges@.subrange(0, seed_edges.len() as int) =~= seed_edges);
                        assert(mid_edges.push(edges@[last]) == edges@);
                        assert forall|q: int| 0 <= q < has_edge@.len() implies pair_present(
                            edges@,
                            (#[trigger] has_edge@[q]).0,
                            has_edge@[q].1,
                        ) by {
                            if q < pre_has.len() {
                                assert(has_edge@[q] == pre_has[q]);
                                assert(pair_present(mid_edges, pre_has[q].0, pre_has[q].1));
                                lemma_pair_present_push(
                                    mid_edges,
                                    edges@[last],
                                    pre_has[q].0,
                                    pre_has[q].1,
                                );
                            } else {
                                assert(has_edge@[q] == (i, id));
                            }
                        }
                        assert(nodes@.subrange(0, pre_nodes.len() as int) =~= pre_nodes);
                        assert(edges@.subrange(0, mid_edges.len() as int) =~= mid_edges);
                        assert forall|ii: int, ss: usize|
                            0 <= ii < i && ss < n implies step_done(f, nodes@, edges@, ii, ss) by {
                            assert(step_done(f, pre_nodes, mid_edges, ii, ss));
                            lemma_step_done_grow(f, pre_nodes, mid_edges, nodes@, edges@, ii, ss);
                        }
                        assert forall|ss: usize|
                            ss < j + 1 implies step_done(f, nodes@, edges@, i as int, ss) by {
                            if ss < j {
                                assert(step_done(f, pre_nodes, mid_edges, i as int, ss));
                                lemma_step_done_grow(
                                    f,
                                    pre_nodes,
                                    mid_edges,
                                    nodes@,
                                    edges@,
                                    i as int,
                                    ss,
                                );
                            } else {
                                assert(edge_to(edges@[last]) == id && id < nodes@.len());
                                assert(nodes@[id as int] == new_node);
                                assert(step_done(f, nodes@, edges@, i as int, j));
                            }
                        }
                    }
                    if nodes.len() >= settings.max_nodes {
                        if error.is_none() {
                            error = Some(E::from(GenerateError::MaxNodes));
                        }
                        stop = true;
                    } else if edges.len() >= settings.max_edges {
                        if error.is_none() {
                            error = Some(E::from(GenerateError::MaxEdges));
                        }
                        stop = true;
                    }
                },
                Err(err) => {
                    proof {
                        assert(step_done(f, nodes@, edges@, i as int, j));
                    }
                    if error.is_none() {
                        error = Some(err);
                    }
                },
            }
            j += 1;
        }
        proof {
            if !stop {
                assert forall|ii: int, ss: usize|
                    0 <= ii < i + 1 && ss < n implies step_done(f, nodes@, edges@, ii, ss) by {
                    if ii == i {
                        assert(step_done(f, nodes@, edges@, i as int, ss));
                    }
                }
            }
        }
        i += 1;
    }

    // Filter: ask `g` which nodes survive.
    let ghost nodes0 = nodes@;
    let mut removed: Vec<bool> = Vec::new();
    let mut t: usize = 0;
    while t < nodes.len()
        invariant
            t <= nodes@.len(),
            removed@.len() == t,
            forall|q: int| 0 <= q < t ==> call_ensures(g, (&nodes@[q],), !(#[trigger] removed@[q])),
        decreases nodes@.len() - t,
    {
        let kp = g(&nodes[t]);
        removed.push(!kp);
        t += 1;
    }

    // Compose: close the gaps that removed nodes will leave behind.
    let ghost m = nodes@.len() as int;
    let ghost edges1 = edges@;
    let ghost error1 = error;
    let ghost has1 = has_edge@.len() as int;
    let edges_count = edges.len();
    proof {
        lemma_distinct_pairs_len(has_edge@, m);
    }
    let ghost ebound = edges1.len() + m * m - has1;
    let mut j: usize = 0;
    while j < edges.len()
        invariant
            j <= edges@.len(),
            edges_count <= edges@.len(),
            edges@.len() <= edges1.len() + has_edge@.len() - has1,
            has1 <= has_edge@.len(),
            edges_within(edges@, m),
            has_edge@.no_duplicates(),
            forall|q: int|
                0 <= q < has_edge@.len() ==> (#[trigger] has_edge@[q]).0 < m && has_edge@[q].1 < m,
            has_edge@.len() <= m * m,
            forall|k: int|
                0 <= k < edges@.len() ==> label_from_run(
                    f,
                    h,
                    n,
                    seed_edges,
                    (#[trigger] edges@[k]).1,
                ),
            match error {
                Some(e) => <E as FromSpec<GenerateError>>::obeys_from_spec() ==> error_source(
                    f,
                    h,
                    n,
                    e,
                ),
                None => true,
            },
            (forall|q: int| 0 <= q < removed@.len() ==> !(#[trigger] removed@[q])) ==> (edges@
                == edges1 && error == error1),
            removed@.len() == m,
            edges@.subrange(0, edges1.len() as int) == edges1,
            forall|q: int|
                0 <= q < has_edge@.len() ==> pair_present(
                    edges@,
                    (#[trigger] has_edge@[q]).0,
                    has_edge@[q].1,
                ),
            forall|mm: int|
                edges1.len() <= mm < edges@.len() ==> composed_edge(
                    h,
                    edges@,
                    edges1.len() as int,
                    removed@,
                    mm,
                ),
            forall|jj: int, kk: int|
                0 <= jj < j && 0 <= kk < edges_count ==> #[trigger] bridge_ok(
                    h,
                    edges@,
                    removed@,
                    jj,
                    kk,
                ),
            compose_never_reports(h) ==> error == error1,
        decreases ebound - j,
    {
        let a = edges[j].0[0];
        let b = edges[j].0[1];
        proof {
            assert(edge_from(edges@[j as int]) == a && edge_to(edges@[j as int]) == b);
            assert(a < m && b < m);
        }
        let rb = removed[b];
        if rb {
            let mut k: usize = 0;
            while k < edges_count
                invariant
                    k <= edges_count,
                    j < edges@.len(),
                    edges_count <= edges@.len(),
                    edges@.len() <= edges1.len() + has_edge@.len() - has1,
                    has1 <= has_edge@.len(),
                    edges_within(edges@, m),
                    has_edge@.no_duplicates(),
                    forall|q: int|
                        0 <= q < has_edge@.len() ==> (#[trigger] has_edge@[q]).0 < m
                            && has_edge@[q].1 < m,
                    has_edge@.len() <= m * m,
                    a == edge_from(edges@[j as int]) && b == edge_to(edges@[j as int]),
                    forall|k2: int|
                        0 <= k2 < edges@.len() ==> label_from_run(
                            f,
                            h,
                            n,
                            seed_edges,
                            (#[trigger] edges@[k2]).1,
                        ),
                    match error {
                        Some(e) => <E as FromSpec<GenerateError>>::obeys_from_spec()
                            ==> error_source(f, h, n, e),
                        None => true,
                    },
                    removed@.len() == m,
                    removed@[b as int],
                    edges@.subrange(0, edges1.len() as int) == edges1,
                    forall|q: int|
                        0 <= q < has_edge@.len() ==> pair_present(
                            edges@,
                            (#[trigger] has_edge@[q]).0,
                            has_edge@[q].1,
                        ),
                    forall|mm: int|
                        edges1.len() <= mm < edges@.len() ==> composed_edge(
                            h,
                            edges@,
                            edges1.len() as int,
                            removed@,
                            mm,
                        ),
                    forall|jj: int, kk: int|
                        0 <= jj < j && 0 <= kk < edges_count ==> #[trigger] bridge_ok(
                            h,
                            edges@,
                            removed@,
                            jj,
                            kk,
                        ),
                    forall|kk: int|
                        0 <= kk < k ==> #[trigger] bridge_ok(h, edges@, removed@, j as int, kk),
                    compose_never_reports(h) ==> error == error1,
                decreases edges_count - k,
            {
                let c = edges[k].0[0];
                let d = edges[k].0[1];
                proof {
                    assert(edge_from(edges@[k as int]) == c && edge_to(edges@[k as int]) == d);
                    assert(c < m && d < m);
                }
                if c == b {
                    let have = contains_pair(&has_edge, a, d);
                    if !have {
                        let hres = h(&edges[j].1, &edges[k].1);
                        match hres {
                            Ok(new_label) => {
                                proof {
                                    assert(label_from_run(f, h, n, seed_edges, new_label));
                                }
                                let ghost pre_has2 = has_edge@;
                                insert_pair(&mut has_edge, a, d);
                                let ghost mid2 = edges@;
                                edges.push(([a, d], new_label));
                                proof {
                                    lemma_distinct_pairs_len(has_edge@, m);
                                    let last = edges@.len() - 1;
                                    assert(edge_from(edges@[last]) == a && edge_to(edges@[last])
                                        == d && edges@[last].1 == new_label);
                                    assert(mid2.push(edges@[last]) == edges@);
                                    assert(pair_present(edges@, a, d));
                                    assert(edges@.subrange(0, edges1.len() as int) =~= edges1);
                                    assert forall|q: int| 0 <= q < has_edge@.len() implies
                                        pair_present(
                                            edges@,
                                            (#[trigger] has_edge@[q]).0,
                                            has_edge@[q].1,
                                        ) by {
                                        if q < pre_has2.len() {
                                            assert(has_edge@[q] == pre_has2[q]);
                                            assert(pair_present(
                                                mid2,
                                                pre_has2[q].0,
                                                pre_has2[q].1,
                                            ));
                                            lemma_pair_present_push(
                                                mid2,
                                                edges@[last],
                                                pre_has2[q].0,
                                                pre_has2[q].1,
                                            );
                                        } else {
                                            assert(has_edge@[q] == (a, d));
                                        }
                                    }
                                    assert forall|mm: int|
                                        edges1.len() <= mm < edges@.len() implies composed_edge(
                                            h,
                                            edges@,
                                            edges1.len() as int,
                                            removed@,
                                            mm,
                                        ) by {
                                        if mm < mid2.len() {
                                            assert(composed_edge(
                                                h,
                                                mid2,
                                                edges1.len() as int,
                                                removed@,
                                                mm,
                                            ));
                                            lemma_composed_edge_push(
                                                h,
                                                mid2,
                                                edges@[last],
                                                edges1.len() as int,
                                                removed@,
                                                mm,
                                            );
                                        } else {
                                            assert(edges@[j as int] == mid2[j as int]);
                                            assert(edges@[k as int] == mid2[k as int]);
                                            assert(edge_to(edges@[j as int]) == b
                                                && removed@[b as int]);
                                            assert(edge_from(edges@[k as int]) == c && c == b);
                                            assert(composed_edge(
                                                h,
                                                edges@,
                                                edges1.len() as int,
                                                removed@,
                                                mm,
                                            ));
                                        }
                                    }
                                    assert forall|jj: int, kk: int|
                                        0 <= jj < j && 0 <= kk < edges_count implies #[trigger]
                                        bridge_ok(h, edges@, removed@, jj, kk) by {
                                        assert(bridge_ok(h, mid2, removed@, jj, kk));
                                        lemma_bridge_ok_push(
                                            h,
                                            mid2,
                                            edges@[last],
                                            removed@,
                                            jj,
                                            kk,
                                        );
                                    }
                                    assert forall|kk: int|
                                        0 <= kk < k + 1 implies #[trigger] bridge_ok(
                                            h,
                                            edges@,
                                            removed@,
                                            j as int,
                                            kk,
                                        ) by {
                                        if kk < k {
                                            assert(bridge_ok(h, mid2, removed@, j as int, kk));
                                            lemma_bridge_ok_push(
                                                h,
                                                mid2,
                                                edges@[last],
                                                removed@,
                                                j as int,
                                                kk,
                                            );
                                        } else {
                                            assert(pair_present(edges@, a, d));
                                        }
                                    }
                                }
                            },
                            Err(eopt) => {
                                proof {
                                    assert(compose_declined(
                                        h,
                                        edges@[j as int].1,
                                        edges@[k as int].1,
                                    ));
                                    assert(bridge_ok(h, edges@, removed@, j as int, k as int));
                                }
                                match eopt {
                                    None => {},
                                    Some(err) => {
                                        if error.is_none() {
                                            error = Some(err);
                                        }
                                    },
                                }
                            },
                        }
                    } else {
                        proof {
                            let q = choose|q: int|
                                0 <= q < has_edge@.len() && has_edge@[q] == (a, d);
                            assert(pair_present(edges@, (#[trigger] has_edge@[q]).0, has_edge@[q].1));
                            assert(bridge_ok(h, edges@, removed@, j as int, k as int));
                        }
                    }
                } else {
                    proof {
                        assert(edge_from(edges@[k as int]) != edge_to(edges@[j as int]));
                        assert(bridge_ok(h, edges@, removed@, j as int, k as int));
                    }
                }
                k += 1;
            }
        } else {
            proof {
                assert forall|kk: int|
                    0 <= kk < edges_count implies #[trigger] bridge_ok(
                        h,
                        edges@,
                        removed@,
                        j as int,
                        kk,
                    ) by {
                    assert(edge_to(edges@[j as int]) == b);
                    assert(!removed@[b as int]);
                }
            }
        }
        j += 1;
    }

    // Compaction: renumber surviving nodes and rewrite or drop edges.
    let ghost edges2v = edges@;
    let out = compact(nodes, edges, &removed);

    proof {
        assert(edges2v.subrange(0, edges_count as int) == edges1);
        if nodes0.len() < settings.max_nodes && edges_count < settings.max_edges {
            assert(!stop);
            assert(forall|ii: int, ss: usize|
                0 <= ii < nodes0.len() && ss < n ==> step_done(f, nodes0, edges1, ii, ss));
        }
        assert(expanded(f, n, seed_nodes, seed_edges, nodes0, edges2v.subrange(0, edges_count as int)));
        assert(filtered(g, nodes0, removed@));
        assert(composed(h, removed@, edges2v, edges_count as int));
        assert(gen_run(
            f,
            g,
            h,
            n,
            seed_nodes,
            seed_edges,
            nodes0,
            removed@,
            edges2v,
            edges_count as int,
            out.0@,
            out.1@,
            settings.max_nodes,
            settings.max_edges,
        ));
        assert forall|k: int| 0 <= k < out.0@.len() implies node_kept(g, #[trigger] out.0@[k]) by {
            assert(originates(nodes0, removed@, removed@.len() as int, out.0@[k], k));
            let q = choose|q: int|
                0 <= q < removed@.len() && !removed@[q] && #[trigger] kept_before(removed@, q)
                    == k && nodes0[q] == out.0@[k];
            assert(call_ensures(g, (&nodes0[q],), !removed@[q]));
        }
        lemma_kept_before_le(removed@, removed@.len() as int);
        if keep_never_false(g) {
            assert forall|q: int| 0 <= q < removed@.len() implies !(#[trigger] removed@[q]) by {
                assert(call_ensures(g, (&nodes0[q],), !removed@[q]));
            }
            assert(out.0@ == nodes0 && out.1@ == edges2v);
            assert(edges2v == edges1);
            assert(out.0@.subrange(0, seed_nodes.len() as int) == seed_nodes);
            if expand_never_fails(f) && compose_never_reports(h) && error is Some {
                assert(error == error1);
                assert(stop);
                assert(nodes0.len() >= nmax || edges1.len() >= emax);
            }
        }
    }

    let ghost outn = out.0@;
    let ghost oute = out.1@;
    let r: Result<Graph<T, U>, (Graph<T, U>, E)> = match error {
        Some(err) => Err((out, err)),
        None => Ok(out),
    };
    proof {
        assert(result_graph(r).0@ == outn && result_graph(r).1@ == oute);
        assert(gen_run(
            f,
            g,
            h,
            n,
            seed_nodes,
            seed_edges,
            nodes0,
            removed@,
            edges2v,
            edges_count as int,
            result_graph(r).0@,
            result_graph(r).1@,
            settings.max_nodes,
            settings.max_edges,
        ));
    }
    r
}

} // verus!
verus! {

/// How far the compacted index can reach: never beyond the original one.
proof fn lemma_kept_before_le(removed: Seq<bool>, i: int)
    requires
        0 <= i,
    ensures
        kept_before(removed, i) <= i,
    decreases i,
{
    if i > 0 {
        lemma_kept_before_le(removed, i - 1);
    }
}

/// Compacts a graph against its removal flags: surviving nodes are
/// renumbered consecutively in their old order, edges between surviving
/// nodes are rewritten to the new indices, and the rest are dropped by
/// swapping the last edge into the gap, so the edge order of the result is
/// not preserved.
#[verifier::loop_isolation(false)]
#[verifier::rlimit(100)]
fn compact<T, U>(nodes: Vec<T>, edges: Vec<([usize; 2], U)>, removed: &Vec<bool>) -> (out: Graph<
    T,
    U,
>)
    requires
        removed@.len() == nodes@.len(),
        edges_within(edges@, nodes@.len() as int),
    ensures
        compacted(nodes@, removed@, edges@, out.0@, out.1@),
        forall|k: int|
            0 <= k < out.0@.len() ==> originates(
                nodes@,
                removed@,
                removed@.len() as int,
                #[trigger] out.0@[k],
                k,
            ),
        edges_within(out.1@, out.0@.len() as int),
        distinct_nodes(nodes@) ==> distinct_nodes(out.0@),
        (forall|q: int| 0 <= q < removed@.len() ==> !(#[trigger] removed@[q])) ==> out.0@ == nodes@
            && out.1@ == edges@,
{
    let ghost nodes0 = nodes@;
    let ghost edges0 = edges@;
    let ghost all_kept = forall|q: int| 0 <= q < removed@.len() ==> !(#[trigger] removed@[q]);
    let mut nodes = nodes;
    let mut edges = edges;
    let total_nodes = removed.len();
    let mut new_nodes: Vec<T> = Vec::new();
    let mut map_nodes: Vec<Option<usize>> = Vec::new();
    let mut idx: usize = 0;
    while nodes.len() > 0
        invariant
            total_nodes == nodes0.len(),
            idx <= total_nodes,
            idx <= nodes0.len(),
            nodes@ == nodes0.subrange(idx as int, nodes0.len() as int),
            map_nodes@.len() == idx,
            forall|q: int|
                0 <= q < idx ==> #[trigger] map_nodes@[q] == (if removed@[q] {
                    Option::<usize>::None
                } else {
                    Option::<usize>::Some(kept_before(removed@, q) as usize)
                }),
            new_nodes@.len() == kept_before(removed@, idx as int),
            new_nodes@.len() <= idx,
            forall|q: int|
                0 <= q < idx && !removed@[q] ==> 0 <= #[trigger] kept_before(removed@, q)
                    < new_nodes@.len() && new_nodes@[kept_before(removed@, q)] == nodes0[q],
            forall|k: int|
                0 <= k < new_nodes@.len() ==> originates(
                    nodes0,
                    removed@,
                    idx as int,
                    #[trigger] new_nodes@[k],
                    k,
                ),
            all_kept ==> new_nodes@ == nodes0.subrange(0, idx as int),
        decreases nodes@.len(),
    {
        let node = nodes.remove(0);
        proof {
            assert(node == nodes0[idx as int]);
            assert(nodes@ =~= nodes0.subrange(idx + 1, nodes0.len() as int));
        }
        let ghost old_new = new_nodes@;
        if removed[idx] {
            map_nodes.push(None);
        } else {
            map_nodes.push(Some(new_nodes.len()));
            new_nodes.push(node);
            proof {
                assert(kept_before(removed@, idx + 1) == kept_before(removed@, idx as int) + 1);
                assert(kept_before(removed@, idx as int) == new_nodes@.len() - 1);
                assert(new_nodes@[new_nodes@.len() - 1] == nodes0[idx as int]);
                if all_kept {
                    assert(new_nodes@ =~= nodes0.subrange(0, idx + 1));
                }
            }
        }
        proof {
            assert forall|k: int| 0 <= k < new_nodes@.len() implies originates(
                nodes0,
                removed@,
                idx as int + 1,
                new_nodes@[k],
                k,
            ) by {
                if k < old_new.len() {
                    assert(originates(nodes0, removed@, idx as int, old_new[k], k));
                    let q = choose|q: int|
                        0 <= q < idx && !removed@[q] && #[trigger] kept_before(removed@, q) == k
                            && nodes0[q] == old_new[k];
                    assert(new_nodes@[k] == old_new[k]);
                    assert(kept_before(removed@, q) == k);
                } else {
                    assert(!removed@[idx as int] && kept_before(removed@, idx as int) == k
                        && nodes0[idx as int] == new_nodes@[k]);
                }
            }
        }
        idx += 1;
    }
    proof {
        assert(idx == nodes0.len());
        assert(map_nodes@.len() == nodes0.len());
    }

    let mut j2: usize = edges.len();
    while j2 > 0
        invariant
            j2 <= edges@.len(),
            edges@.len() <= edges0.len(),
            forall|k: int| 0 <= k < j2 ==> #[trigger] edges@[k] == edges0[k],
            forall|k: int|
                j2 <= k < edges@.len() ==> edge_from(#[trigger] edges@[k]) < new_nodes@.len()
                    && edge_to(edges@[k]) < new_nodes@.len(),
            all_kept ==> edges@ == edges0,
            forall|k: int|
                j2 <= k < edges0.len() && edge_kept(removed@, #[trigger] edges0[k])
                    ==> kept_present(removed@, edges0[k], edges@, j2 as int),
            forall|mm: int|
                j2 <= mm < edges@.len() ==> slot_reindexed(removed@, edges0, edges@, mm),
        decreases j2,
    {
        j2 -= 1;
        let a = edges[j2].0[0];
        let b = edges[j2].0[1];
        proof {
            assert(edges@[j2 as int] == edges0[j2 as int]);
            assert(edge_from(edges0[j2 as int]) == a && edge_to(edges0[j2 as int]) == b);
            assert(a < nodes0.len() && b < nodes0.len());
        }
        let ma = map_nodes[a];
        let mb = map_nodes[b];
        match (ma, mb) {
            (Some(na), Some(nb)) => {
                let ghost oldv = edges@;
                edges[j2].0 = [na, nb];
                proof {
                    assert(!removed@[a as int] && !removed@[b as int]);
                    assert(na as int == kept_before(removed@, a as int) && nb as int
                        == kept_before(removed@, b as int));
                    assert(edges@[j2 as int].1 == edges0[j2 as int].1);
                    assert(reindexes_to(removed@, edges0[j2 as int], edges@[j2 as int]));
                    assert forall|k: int|
                        j2 <= k < edges0.len() && edge_kept(removed@, #[trigger] edges0[k])
                            implies kept_present(removed@, edges0[k], edges@, j2 as int) by {
                        if k > j2 {
                            assert(kept_present(removed@, edges0[k], oldv, j2 as int + 1));
                            let mm = choose|mm: int|
                                j2 + 1 <= mm < oldv.len() && #[trigger] reindexes_to(
                                    removed@,
                                    edges0[k],
                                    oldv[mm],
                                );
                            assert(edges@[mm] == oldv[mm]);
                        }
                    }
                    assert forall|mm: int|
                        j2 <= mm < edges@.len() implies slot_reindexed(
                        removed@,
                        edges0,
                        edges@,
                        mm,
                    ) by {
                        if mm > j2 {
                            assert(slot_reindexed(removed@, edges0, oldv, mm));
                            let k = choose|k: int|
                                0 <= k < edges0.len() && #[trigger] reindexes_to(
                                    removed@,
                                    edges0[k],
                                    oldv[mm],
                                );
                            assert(edges@[mm] == oldv[mm]);
                        }
                    }
                    if all_kept {
                        assert(kept_before(removed@, a as int) == a as int) by {
                            lemma_kept_before_all(removed@, a as int);
                        }
                        assert(kept_before(removed@, b as int) == b as int) by {
                            lemma_kept_before_all(removed@, b as int);
                        }
                        assert(edges@[j2 as int].0 =~= edges0[j2 as int].0);
                        assert(edges@[j2 as int] == edges0[j2 as int]);
                        assert(edges@ =~= edges0);
                    }
                }
            },
            _ => {
                proof {
                    assert(removed@[a as int] || removed@[b as int]);
                    assert(!edge_kept(removed@, edges0[j2 as int]));
                    if all_kept {
                        assert(false);
                    }
                }
                let ghost oldv = edges@;
                edges.swap_remove(j2);
                proof {
                    assert forall|k: int|
                        j2 <= k < edges0.len() && edge_kept(removed@, #[trigger] edges0[k])
                            implies kept_present(removed@, edges0[k], edges@, j2 as int) by {
                        assert(k != j2);
                        assert(kept_present(removed@, edges0[k], oldv, j2 as int + 1));
                        let mm = choose|mm: int|
                            j2 + 1 <= mm < oldv.len() && #[trigger] reindexes_to(
                                removed@,
                                edges0[k],
                                oldv[mm],
                            );
                        if mm == oldv.len() - 1 {
                            assert(edges@[j2 as int] == oldv[mm]);
                        } else {
                            assert(edges@[mm] == oldv[mm]);
                        }
                    }
                    assert forall|mm: int|
                        j2 <= mm < edges@.len() implies slot_reindexed(
                        removed@,
                        edges0,
                        edges@,
                        mm,
                    ) by {
                        if mm == j2 {
                            assert(edges@[j2 as int] == oldv[oldv.len() - 1]);
                            assert(slot_reindexed(removed@, edges0, oldv, oldv.len() - 1));
                            let k = choose|k: int|
                                0 <= k < edges0.len() && #[trigger] reindexes_to(
                                    removed@,
                                    edges0[k],
                                    oldv[oldv.len() - 1],
                                );
                            assert(reindexes_to(removed@, edges0[k], edges@[j2 as int]));
                        } else {
                            assert(slot_reindexed(removed@, edges0, oldv, mm));
                            let k = choose|k: int|
                                0 <= k < edges0.len() && #[trigger] reindexes_to(
                                    removed@,
                                    edges0[k],
                                    oldv[mm],
                                );
                            assert(edges@[mm] == oldv[mm]);
                        }
                    }
                }
            },
        }
    }
    proof {
        assert(compacted(nodes0, removed@, edges0, new_nodes@, edges@));
        if all_kept {
            assert(new_nodes@ =~= nodes0);
        }
    }
    (new_nodes, edges)
}

} // verus!
