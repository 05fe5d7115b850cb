//! The symmetrizer: keeps only edges whose two orientations between an
//! unordered node pair carry equal labels.

use vstd::prelude::*;
use vstd::laws_eq::obeys_concrete_eq;

verus! {

/// The smaller endpoint of an edge's unordered node pair.
pub open spec fn pair_lo<U>(e: ([usize; 2], U)) -> usize {
    if e.0[0] <= e.0[1] {
        e.0[0]
    } else {
        e.0[1]
    }
}

/// The larger endpoint of an edge's unordered node pair.
pub open spec fn pair_hi<U>(e: ([usize; 2], U)) -> usize {
    if e.0[0] <= e.0[1] {
        e.0[1]
    } else {
        e.0[0]
    }
}

/// The edge lies between the unordered pair `(a, b)`, and carries the label
/// `u` when one is asked for.
pub open spec fn edge_matches<U>(e: ([usize; 2], U), a: usize, b: usize, u: Option<U>) -> bool {
    pair_lo(e) == a && pair_hi(e) == b && (u is None || e.1 == u->0)
}

/// How many edges of `s` lie between the unordered pair `(a, b)`, counting
/// only those labeled `u` when a label is asked for.
pub open spec fn match_count<U>(s: Seq<([usize; 2], U)>, a: usize, b: usize, u: Option<U>) -> nat
    decreases s.len(),
{
    if s.len() <= 0 {
        0nat
    } else {
        (if edge_matches(s.first(), a, b, u) {
            1nat
        } else {
            0nat
        }) + match_count(s.drop_first(), a, b, u)
    }
}

/// How many edges of `s` lie between the unordered pair `(a, b)`.
pub open spec fn pair_count<U>(s: Seq<([usize; 2], U)>, a: usize, b: usize) -> nat {
    match_count(s, a, b, None)
}

/// How many edges of `s` lie between the unordered pair `(a, b)` and carry
/// the label `u`.
pub open spec fn pair_label_count<U>(s: Seq<([usize; 2], U)>, a: usize, b: usize, u: U) -> nat {
    match_count(s, a, b, Some(u))
}

/// The documented precondition of the symmetrizer: at most two edges per
/// unordered node pair.
pub open spec fn pairs_bounded<U>(s: Seq<([usize; 2], U)>) -> bool {
    forall|a: usize, b: usize| #[trigger] pair_count(s, a, b) <= 2
}

/// The unordered pair `(a, b)` survives symmetrization of `s` with label
/// `u`: both of its orientations are present and both carry the label `u`.
pub open spec fn keeps<U>(s: Seq<([usize; 2], U)>, a: usize, b: usize, u: U) -> bool {
    &&& a <= b
    &&& pair_count(s, a, b) == 2
    &&& pair_label_count(s, a, b, u) == 2
}

/// The edge list `r` holds an edge `[a, b]` with label `u`.
pub open spec fn contains_edge<U>(r: Seq<([usize; 2], U)>, a: usize, b: usize, u: U) -> bool {
    exists|k: int| 0 <= k < r.len() && (#[trigger] r[k]).0[0] == a && r[k].0[1] == b && r[k].1 == u
}

/// The unordered pair of `e1` comes strictly before that of `e2`.
pub open spec fn pair_lt<U>(e1: ([usize; 2], U), e2: ([usize; 2], U)) -> bool {
    pair_lo(e1) < pair_lo(e2) || (pair_lo(e1) == pair_lo(e2) && pair_hi(e1) < pair_hi(e2))
}

/// What the symmetrizer returns for the edge list `s`: an edge `[a, b]`
/// with `a <= b` and label `u` for every unordered pair whose two edges in
/// `s` both carry the label `u`, nothing else, sorted strictly by pair.
pub open spec fn symmetrized<U>(s: Seq<([usize; 2], U)>, r: Seq<([usize; 2], U)>) -> bool {
    &&& forall|k: int| 0 <= k < r.len() ==> (#[trigger] r[k]).0[0] <= r[k].0[1]
    &&& forall|k1: int, k2: int| 0 <= k1 < k2 < r.len() ==> pair_lt(r[k1], r[k2])
    &&& forall|k: int| 0 <= k < r.len() ==> keeps(s, (#[trigger] r[k]).0[0], r[k].0[1], r[k].1)
    &&& forall|a: usize, b: usize, u: U| #[trigger] keeps(s, a, b, u) ==> contains_edge(r, a, b, u)
}

/// Replacing an edge changes a match count by what the two edges contribute.
proof fn lemma_mc_update<U>(
    s: Seq<([usize; 2], U)>,
    i: int,
    x: ([usize; 2], U),
    a: usize,
    b: usize,
    u: Option<U>,
)
    requires
        0 <= i < s.len(),
    ensures
        match_count(s.update(i, x), a, b, u) + (if edge_matches(s[i], a, b, u) {
            1nat
        } else {
            0nat
        }) == match_count(s, a, b, u) + (if edge_matches(x, a, b, u) {
            1nat
        } else {
            0nat
        }),
    decreases i,
{
    if i == 0 {
        assert(s.update(0, x).first() == x);
        assert(s.update(0, x).drop_first() =~= s.drop_first());
    } else {
        assert(s.update(i, x).first() == s.first());
        assert(s.update(i, x).drop_first() =~= s.drop_first().update(i - 1, x));
        lemma_mc_update(s.drop_first(), i - 1, x, a, b, u);
    }
}

/// Inserting an edge adds what that edge contributes to a match count.
proof fn lemma_mc_insert<U>(
    s: Seq<([usize; 2], U)>,
    i: int,
    x: ([usize; 2], U),
    a: usize,
    b: usize,
    u: Option<U>,
)
    requires
        0 <= i <= s.len(),
    ensures
        match_count(s.insert(i, x), a, b, u) == match_count(s, a, b, u) + (if edge_matches(
            x,
            a,
            b,
            u,
        ) {
            1nat
        } else {
            0nat
        }),
    decreases i,
{
    if i == 0 {
        assert(s.insert(0, x).first() == x);
        assert(s.insert(0, x).drop_first() =~= s);
    } else {
        assert(s.insert(i, x).first() == s.first());
        assert(s.insert(i, x).drop_first() =~= s.drop_first().insert(i - 1, x));
        lemma_mc_insert(s.drop_first(), i - 1, x, a, b, u);
    }
}

/// A match count splits over a cut of the edge list.
proof fn lemma_mc_split<U>(s: Seq<([usize; 2], U)>, t: int, a: usize, b: usize, u: Option<U>)
    requires
        0 <= t <= s.len(),
    ensures
        match_count(s, a, b, u) == match_count(s.subrange(0, t), a, b, u) + match_count(
            s.subrange(t, s.len() as int),
            a,
            b,
            u,
        ),
    decreases t,
{
    if t == 0 {
        assert(s.subrange(0, s.len() as int) =~= s);
    } else {
        assert(s.subrange(0, t).first() == s.first());
        assert(s.subrange(0, t).drop_first() =~= s.drop_first().subrange(0, t - 1));
        assert(s.subrange(t, s.len() as int) =~= s.drop_first().subrange(
            t - 1,
            s.drop_first().len() as int,
        ));
        lemma_mc_split(s.drop_first(), t - 1, a, b, u);
    }
}

/// A match count is zero exactly when no edge matches.
proof fn lemma_mc_zero<U>(s: Seq<([usize; 2], U)>, a: usize, b: usize, u: Option<U>)
    ensures
        match_count(s, a, b, u) == 0 <==> (forall|k: int|
            0 <= k < s.len() ==> !edge_matches(#[trigger] s[k], a, b, u)),
    decreases s.len(),
{
    if s.len() > 0 {
        lemma_mc_zero(s.drop_first(), a, b, u);
        assert(forall|k: int|
            0 < k < s.len() ==> #[trigger] s[k] == s.drop_first()[k - 1]);
    }
}

/// Counting with a label asked for never counts more than counting without.
proof fn lemma_mc_le<U>(s: Seq<([usize; 2], U)>, a: usize, b: usize, u: U)
    ensures
        match_count(s, a, b, Some(u)) <= match_count(s, a, b, None),
    decreases s.len(),
{
    if s.len() > 0 {
        lemma_mc_le(s.drop_first(), a, b, u);
    }
}

/// When every edge of the pair carries the label `u` by count, every edge of
/// the pair carries the label `u` pointwise.
proof fn lemma_mc_all<U>(s: Seq<([usize; 2], U)>, a: usize, b: usize, u: U)
    requires
        match_count(s, a, b, Some(u)) == match_count(s, a, b, None),
    ensures
        forall|k: int|
            0 <= k < s.len() && edge_matches(#[trigger] s[k], a, b, None) ==> s[k].1 == u,
    decreases s.len(),
{
    if s.len() > 0 {
        lemma_mc_le(s.drop_first(), a, b, u);
        lemma_mc_all(s.drop_first(), a, b, u);
        assert(forall|k: int|
            0 < k < s.len() ==> #[trigger] s[k] == s.drop_first()[k - 1]);
    }
}

} // verus!
verus! {

/// The unordered pair of `e1` comes before that of `e2`, or is the same.
pub open spec fn pair_le<U>(e1: ([usize; 2], U), e2: ([usize; 2], U)) -> bool {
    pair_lt(e1, e2) || (pair_lo(e1) == pair_lo(e2) && pair_hi(e1) == pair_hi(e2))
}

/// Compares two edges by their unordered pairs.
fn edge_le<T>(x: &([usize; 2], T), y: &([usize; 2], T)) -> (r: bool)
    ensures
        r == pair_le(*x, *y),
{
    let xl = if x.0[0] <= x.0[1] {
        x.0[0]
    } else {
        x.0[1]
    };
    let xh = if x.0[0] <= x.0[1] {
        x.0[1]
    } else {
        x.0[0]
    };
    let yl = if y.0[0] <= y.0[1] {
        y.0[0]
    } else {
        y.0[1]
    };
    let yh = if y.0[0] <= y.0[1] {
        y.0[1]
    } else {
        y.0[0]
    };
    xl < yl || (xl == yl && xh <= yh)
}

/// Filters edges such that only those which are equal in both directions
/// remain.
///
/// Every edge's index pair is first turned into its unordered form
/// `[min, max]`; the edges are then sorted by that pair, and of each pair's
/// two orientations one copy is kept when their labels are equal, while
/// directed-only edges, edges whose reverse carries a different label, and
/// redundant duplicate copies are dropped. The result is sorted by the
/// unordered pair; the order of nodes is unaffected.
///
/// Assumes that there are at most two edges between any unordered pair of
/// nodes.
#[verifier::loop_isolation(false)]
#[verifier::rlimit(100)]
pub fn bidir<T: PartialEq + core::fmt::Debug>(edges: &mut Vec<([usize; 2], T)>)
    requires
        obeys_concrete_eq::<T>(),
        pairs_bounded(old(edges)@),
    ensures
        symmetrized(old(edges)@, final(edges)@),
{
    let ghost orig = edges@;
    if edges.len() == 0 {
        return ;
    }
    // Turn every index pair into its unordered form [min, max].
    let mut j: usize = 0;
    while j < edges.len()
        invariant
            j <= edges@.len(),
            edges@.len() == orig.len(),
            forall|a: usize, b: usize, u: Option<T>| #[trigger] match_count(edges@, a, b, u)
                == match_count(orig, a, b, u),
            forall|k: int| 0 <= k < j ==> (#[trigger] edges@[k]).0[0] <= edges@[k].0[1],
        decreases edges@.len() - j,
    {
        let a = edges[j].0[0];
        let b = edges[j].0[1];
        if b < a {
            let ghost pre = edges@;
            edges[j].0 = [b, a];
            proof {
                assert(edges@[j as int].1 == pre[j as int].1);
                assert(pair_lo(edges@[j as int]) == pair_lo(pre[j as int]) && pair_hi(
                    edges@[j as int],
                ) == pair_hi(pre[j as int]));
                assert forall|a2: usize, b2: usize, u2: Option<T>| #[trigger] match_count(
                    edges@,
                    a2,
                    b2,
                    u2,
                ) == match_count(orig, a2, b2, u2) by {
                    lemma_mc_update(pre, j as int, edges@[j as int], a2, b2, u2);
                }
            }
        }
        j += 1;
    }

    // Sort the edges by their unordered pair.
    let ghost canon = edges@;
    let mut sorted: Vec<([usize; 2], T)> = Vec::new();
    while edges.len() > 0
        invariant
            forall|a: usize, b: usize, u: Option<T>| #[trigger] match_count(edges@, a, b, u)
                + match_count(sorted@, a, b, u) == match_count(orig, a, b, u),
            forall|k: int| 0 <= k < edges@.len() ==> (#[trigger] edges@[k]).0[0] <= edges@[k].0[1],
            forall|k: int| 0 <= k < sorted@.len() ==> (#[trigger] sorted@[k]).0[0]
                <= sorted@[k].0[1],
            forall|k1: int, k2: int|
                0 <= k1 < k2 < sorted@.len() ==> pair_le(sorted@[k1], sorted@[k2]),
        decreases edges@.len(),
    {
        let ghost pre = edges@;
        let e = edges.remove(0);
        proof {
            assert(edges@ =~= pre.drop_first());
        }
        let mut pos: usize = 0;
        while pos < sorted.len() && edge_le(&sorted[pos], &e)
            invariant
                pos <= sorted@.len(),
                forall|q: int| 0 <= q < pos ==> pair_le(#[trigger] sorted@[q], e),
            decreases sorted@.len() - pos,
        {
            pos += 1;
        }
        let ghost mid = sorted@;
        sorted.insert(pos, e);
        proof {
            assert forall|a2: usize, b2: usize, u2: Option<T>| #[trigger] match_count(
                edges@,
                a2,
                b2,
                u2,
            ) + match_count(sorted@, a2, b2, u2) == match_count(orig, a2, b2, u2) by {
                assert(match_count(pre, a2, b2, u2) + match_count(mid, a2, b2, u2) == match_count(
                    orig,
                    a2,
                    b2,
                    u2,
                ));
                assert(pre.first() == e && pre.drop_first() == edges@);
                assert(match_count(pre, a2, b2, u2) == (if edge_matches(e, a2, b2, u2) {
                    1nat
                } else {
                    0nat
                }) + match_count(edges@, a2, b2, u2));
                lemma_mc_insert(mid, pos as int, e, a2, b2, u2);
            }
            assert forall|k1: int, k2: int|
                0 <= k1 < k2 < sorted@.len() implies pair_le(sorted@[k1], sorted@[k2]) by {
                if k2 == pos {
                    assert(pair_le(mid[k1], e));
                } else if k1 == pos {
                    assert(pos < mid.len());
                    assert(!pair_le(mid[pos as int], e));
                    assert(pair_le(e, mid[pos as int]));
                    if k2 - 1 > pos {
                        assert(pair_le(mid[pos as int], mid[k2 - 1]));
                    }
                } else if k1 < pos && k2 > pos {
                    assert(pair_le(mid[k1], mid[k2 - 1]));
                }
            }
        }
    }

    // Keep one copy of every pair whose two orientations carry equal labels.
    let ghost srt = sorted@;
    proof {
        assert forall|a: usize, b: usize, u: Option<T>| #[trigger] match_count(srt, a, b, u)
            == match_count(orig, a, b, u) by {
            assert(edges@.len() == 0);
            assert(match_count(edges@, a, b, u) == 0);
            assert(match_count(edges@, a, b, u) + match_count(sorted@, a, b, u) == match_count(
                orig,
                a,
                b,
                u,
            ));
        }
        assert(forall|k: int| 0 <= k < srt.len() ==> (#[trigger] srt[k]).0[0] <= srt[k].0[1]);
        assert(forall|k1: int, k2: int| 0 <= k1 < k2 < srt.len() ==> pair_le(srt[k1], srt[k2]));
    }
    let mut out: Vec<([usize; 2], T)> = Vec::new();
    let ghost mut done: int = 0;
    while sorted.len() > 0
        invariant
            0 <= done <= srt.len(),
            sorted@ == srt.subrange(done, srt.len() as int),
            forall|k: int| 0 <= k < out@.len() ==> (#[trigger] out@[k]).0[0] <= out@[k].0[1],
            forall|k1: int, k2: int| 0 <= k1 < k2 < out@.len() ==> pair_lt(out@[k1], out@[k2]),
            forall|k: int|
                0 <= k < out@.len() ==> keeps(srt, (#[trigger] out@[k]).0[0], out@[k].0[1], out@[k].1),
            forall|a: usize, b: usize, u: T|
                #[trigger] keeps(srt, a, b, u) && match_count(sorted@, a, b, None) == 0
                    ==> contains_edge(out@, a, b, u),
            forall|a: usize, b: usize|
                match_count(srt.subrange(0, done), a, b, None) == 0 || #[trigger] match_count(
                    sorted@,
                    a,
                    b,
                    None,
                ) == 0,
            forall|k: int, q: int|
                0 <= k < out@.len() && 0 <= q < sorted@.len() ==> pair_lt(
                    #[trigger] out@[k],
                    #[trigger] sorted@[q],
                ),
        decreases sorted@.len(),
    {
        let ghost pre = sorted@;
        let ghost d0 = done;
        let e = sorted.remove(0);
        proof {
            assert(e == srt[d0]);
            assert(sorted@ =~= srt.subrange(d0 + 1, srt.len() as int));
            done = done + 1;
        }
        let ghost ea = pair_lo(e);
        let ghost eb = pair_hi(e);
        let mut paired = false;
        if sorted.len() > 0 {
            if sorted[0].0[0] == e.0[0] && sorted[0].0[1] == e.0[1] {
                paired = true;
            }
        }
        proof {
            // The group of e's pair begins at e: nothing before matches it.
            assert(match_count(srt.subrange(0, d0), ea, eb, None) == 0) by {
                assert(edge_matches(pre.first(), ea, eb, None));
                assert(match_count(pre, ea, eb, None) >= 1);
            }
        }
        if paired {
            let e2 = sorted.remove(0);
            proof {
                assert(e2 == srt[d0 + 1]);
                assert(sorted@ =~= srt.subrange(d0 + 2, srt.len() as int));
                done = done + 1;
                // Both orientations are here, and the ceiling of two per
                // pair leaves nothing of this pair elsewhere.
                assert(e.0[0] <= e.0[1] && e2.0[0] <= e2.0[1]);
                assert(edge_matches(e, ea, eb, None));
                assert(edge_matches(e2, ea, eb, None));
                lemma_mc_split(srt, d0, ea, eb, None);
                assert(pre.first() == e);
                assert(pre.drop_first() =~= srt.subrange(d0 + 1, srt.len() as int));
                assert(pre.drop_first().first() == e2);
                assert(pre.drop_first().drop_first() =~= sorted@);
                assert(match_count(pre, ea, eb, None) == 1 + match_count(
                    pre.drop_first(),
                    ea,
                    eb,
                    None,
                ));
                assert(match_count(pre.drop_first(), ea, eb, None) == 1 + match_count(
                    sorted@,
                    ea,
                    eb,
                    None,
                ));
                assert(pair_count(orig, ea, eb) <= 2);
                assert(pair_count(srt, ea, eb) == pair_count(orig, ea, eb));
                assert(match_count(sorted@, ea, eb, None) == 0);
                assert(match_count(srt, ea, eb, None) == 2);
                // Later edges carry strictly larger pairs.
                assert forall|q: int| 0 <= q < sorted@.len() implies pair_lt(e, sorted@[q]) by {
                    assert(sorted@[q] == srt[d0 + 2 + q]);
                    assert(pair_le(srt[d0], srt[d0 + 2 + q]));
                    assert(!edge_matches(srt[d0 + 2 + q], ea, eb, None)) by {
                        lemma_mc_zero(sorted@, ea, eb, None);
                    }
                }
            }
            let same = e.1.eq(&e2.1);
            proof {
                reveal(vstd::laws_eq::obeys_concrete_eq);
            }
            let ghost out0 = out@;
            if same {
                out.push(e);
                proof {
                    assert(out@.drop_last() =~= out0);
                    lemma_mc_split(srt, d0, ea, eb, Some(e.1));
                    assert(e2.1 == e.1);
                    assert(edge_matches(e, ea, eb, Some(e.1)));
                    assert(edge_matches(e2, ea, eb, Some(e.1)));
                    assert(match_count(pre, ea, eb, Some(e.1)) == 1 + match_count(
                        pre.drop_first(),
                        ea,
                        eb,
                        Some(e.1),
                    ));
                    assert(match_count(pre.drop_first(), ea, eb, Some(e.1)) == 1 + match_count(
                        sorted@,
                        ea,
                        eb,
                        Some(e.1),
                    ));
                    assert(match_count(pre, ea, eb, Some(e.1)) == 2 + match_count(
                        sorted@,
                        ea,
                        eb,
                        Some(e.1),
                    ));
                    lemma_mc_le(sorted@, ea, eb, e.1);
                    lemma_mc_le(srt.subrange(0, d0), ea, eb, e.1);
                    assert(match_count(srt, ea, eb, Some(e.1)) == 2);
                    assert(keeps(srt, ea, eb, e.1));
                    assert(out@[out@.len() - 1] == e && e.0[0] == ea && e.0[1] == eb);
                    assert forall|a: usize, b: usize, u: T|
                        #[trigger] keeps(srt, a, b, u) && match_count(sorted@, a, b, None) == 0
                            implies contains_edge(out@, a, b, u) by {
                        if a == ea && b == eb {
                            lemma_mc_all(srt, a, b, u);
                            assert(edge_matches(srt[d0], a, b, None));
                            assert(u == e.1);
                            assert(contains_edge(out@, a, b, u));
                        } else {
                            assert(!edge_matches(e, a, b, None));
                            assert(!edge_matches(e2, a, b, None));
                            assert(match_count(pre, a, b, None) == match_count(
                                pre.drop_first(),
                                a,
                                b,
                                None,
                            ));
                            assert(match_count(pre.drop_first(), a, b, None) == match_count(
                                sorted@,
                                a,
                                b,
                                None,
                            ));
                            assert(match_count(pre, a, b, None) == 0);
                            assert(contains_edge(out0, a, b, u));
                            let k = choose|k: int|
                                0 <= k < out0.len() && (#[trigger] out0[k]).0[0] == a
                                    && out0[k].0[1] == b && out0[k].1 == u;
                            assert(out@[k].0[0] == a && out@[k].0[1] == b && out@[k].1 == u);
                        }
                    }
                }
            } else {
                proof {
                    assert(e.1 != e2.1);
                    assert forall|a: usize, b: usize, u: T|
                        #[trigger] keeps(srt, a, b, u) && match_count(sorted@, a, b, None) == 0
                            implies contains_edge(out@, a, b, u) by {
                        if a == ea && b == eb {
                            lemma_mc_all(srt, a, b, u);
                            assert(edge_matches(srt[d0], a, b, None));
                            assert(edge_matches(srt[d0 + 1], a, b, None));
                            assert(e.1 == u && e2.1 == u);
                            assert(false);
                        } else {
                            assert(!edge_matches(e, a, b, None));
                            assert(!edge_matches(e2, a, b, None));
                            assert(match_count(pre, a, b, None) == match_count(
                                pre.drop_first(),
                                a,
                                b,
                                None,
                            ));
                            assert(match_count(pre.drop_first(), a, b, None) == match_count(
                                sorted@,
                                a,
                                b,
                                None,
                            ));
                            assert(match_count(pre, a, b, None) == 0);
                        }
                    }
                }
            }
        } else {
            proof {
                // e is unpaired: nothing after it matches its pair either,
                // so its pair occurs exactly once and is never kept.
                assert(e.0[0] <= e.0[1]);
                if sorted.len() > 0 {
                    assert(sorted@[0] == srt[d0 + 1]);
                    assert(srt[d0 + 1].0[0] <= srt[d0 + 1].0[1]);
                    assert(!(srt[d0 + 1].0[0] == e.0[0] && srt[d0 + 1].0[1] == e.0[1]));
                    assert(!edge_matches(srt[d0 + 1], ea, eb, None));
                    assert(pair_le(srt[d0], srt[d0 + 1]));
                    assert(pair_lt(e, srt[d0 + 1]));
                }
                assert forall|q: int| 0 <= q < sorted@.len() implies !edge_matches(
                    sorted@[q],
                    ea,
                    eb,
                    None,
                ) by {
                    assert(sorted@[q] == srt[d0 + 1 + q]);
                    assert(srt[d0 + 1 + q].0[0] <= srt[d0 + 1 + q].0[1]);
                    assert(pair_le(srt[d0 + 1], srt[d0 + 1 + q]));
                }
                lemma_mc_zero(sorted@, ea, eb, None);
                assert(match_count(sorted@, ea, eb, None) == 0);
                lemma_mc_split(srt, d0, ea, eb, None);
                assert(match_count(pre, ea, eb, None) == 1 + match_count(sorted@, ea, eb, None));
                assert(match_count(srt, ea, eb, None) == 1);
                assert forall|a: usize, b: usize, u: T|
                    #[trigger] keeps(srt, a, b, u) && match_count(sorted@, a, b, None) == 0
                        implies contains_edge(out@, a, b, u) by {
                    if a == ea && b == eb {
                        assert(pair_count(srt, a, b) == 1);
                        assert(false);
                    } else {
                        assert(!edge_matches(e, a, b, None));
                        assert(match_count(pre, a, b, None) == match_count(
                            pre.drop_first(),
                            a,
                            b,
                            None,
                        ));
                        assert(pre.drop_first() =~= sorted@);
                        assert(match_count(pre, a, b, None) == 0);
                    }
                }
            }
        }
        proof {
            assert forall|a: usize, b: usize|
                match_count(srt.subrange(0, done), a, b, None) == 0 || #[trigger] match_count(
                    sorted@,
                    a,
                    b,
                    None,
                ) == 0 by {
                if a == ea && b == eb {
                    assert(match_count(sorted@, ea, eb, None) == 0);
                } else {
                    assert(!edge_matches(e, a, b, None));
                    assert(match_count(pre, a, b, None) == match_count(
                        pre.drop_first(),
                        a,
                        b,
                        None,
                    ));
                    if done == d0 + 2 {
                        assert(edge_matches(srt[d0 + 1], ea, eb, None));
                        assert(!edge_matches(srt[d0 + 1], a, b, None));
                        assert(pre.drop_first().first() == srt[d0 + 1]);
                        assert(pre.drop_first().drop_first() =~= sorted@);
                        assert(match_count(pre.drop_first(), a, b, None) == match_count(
                            sorted@,
                            a,
                            b,
                            None,
                        ));
                    } else {
                        assert(pre.drop_first() =~= sorted@);
                    }
                    assert(match_count(pre, a, b, None) == match_count(sorted@, a, b, None));
                    lemma_mc_split(srt, d0, a, b, None);
                    lemma_mc_split(srt, done, a, b, None);
                    assert(pre == srt.subrange(d0, srt.len() as int));
                    assert(match_count(srt.subrange(0, d0), a, b, None) == 0 || match_count(
                        pre,
                        a,
                        b,
                        None,
                    ) == 0);
                }
            }
        }
    }
    proof {
        assert(sorted@.len() == 0);
        assert forall|a: usize, b: usize, u: T| #[trigger] keeps(orig, a, b, u) implies keeps(
            srt,
            a,
            b,
            u,
        ) && contains_edge(out@, a, b, u) by {
            assert(match_count(srt, a, b, None) == match_count(orig, a, b, None));
            assert(match_count(srt, a, b, Some(u)) == match_count(orig, a, b, Some(u)));
            assert(keeps(srt, a, b, u));
            assert(match_count(sorted@, a, b, None) == 0);
        }
        assert forall|k: int| 0 <= k < out@.len() implies keeps(
            orig,
            (#[trigger] out@[k]).0[0],
            out@[k].0[1],
            out@[k].1,
        ) by {
            let a = out@[k].0[0];
            let b = out@[k].0[1];
            assert(match_count(srt, a, b, None) == match_count(orig, a, b, None));
            assert(match_count(srt, a, b, Some(out@[k].1)) == match_count(
                orig,
                a,
                b,
                Some(out@[k].1),
            ));
        }
    }
    *edges = out;
}

} // verus!
verus! {

/// Counts the edges lying between the unordered pair `(a, b)`.
fn count_pair<T>(edges: &Vec<([usize; 2], T)>, a: usize, b: usize) -> (r: usize)
    ensures
        r == match_count(edges@, a, b, None),
{
    let mut cnt: usize = 0;
    let mut k: usize = 0;
    while k < edges.len()
        invariant
            k <= edges@.len(),
            cnt <= k,
            cnt == match_count(edges@.subrange(0, k as int), a, b, None),
        decreases edges@.len() - k,
    {
        let lo = if edges[k].0[0] <= edges[k].0[1] {
            edges[k].0[0]
        } else {
            edges[k].0[1]
        };
        let hi = if edges[k].0[0] <= edges[k].0[1] {
            edges[k].0[1]
        } else {
            edges[k].0[0]
        };
        proof {
            lemma_mc_insert(edges@.subrange(0, k as int), k as int, edges@[k as int], a, b, None);
            assert(edges@.subrange(0, k as int).insert(k as int, edges@[k as int]) =~= edges@
                .subrange(0, k as int + 1));
            assert(edge_matches(edges@[k as int], a, b, None) == (lo == a && hi == b));
        }
        if lo == a && hi == b {
            cnt += 1;
        }
        k += 1;
    }
    proof {
        assert(edges@.subrange(0, edges@.len() as int) =~= edges@);
    }
    cnt
}

/// Whether the edge list satisfies the symmetrizer's documented
/// precondition: at most two edges per unordered node pair.
pub fn bidir_supported<T>(edges: &Vec<([usize; 2], T)>) -> (r: bool)
    ensures
        r == pairs_bounded(edges@),
{
    let mut k: usize = 0;
    while k < edges.len()
        invariant
            k <= edges@.len(),
            forall|q: int|
                0 <= q < k ==> match_count(
                    edges@,
                    pair_lo(#[trigger] edges@[q]),
                    pair_hi(edges@[q]),
                    None,
                ) <= 2,
        decreases edges@.len() - k,
    {
        let lo = if edges[k].0[0] <= edges[k].0[1] {
            edges[k].0[0]
        } else {
            edges[k].0[1]
        };
        let hi = if edges[k].0[0] <= edges[k].0[1] {
            edges[k].0[1]
        } else {
            edges[k].0[0]
        };
        let c = count_pair(edges, lo, hi);
        if c > 2 {
            proof {
                assert(pair_count(edges@, lo, hi) > 2);
                assert(!pairs_bounded(edges@));
            }
            return false;
        }
        proof {
            assert(pair_lo(edges@[k as int]) == lo && pair_hi(edges@[k as int]) == hi);
        }
        k += 1;
    }
    proof {
        assert forall|a: usize, b: usize| #[trigger] pair_count(edges@, a, b) <= 2 by {
            lemma_mc_zero(edges@, a, b, None);
            if match_count(edges@, a, b, None) > 0 {
                let q = choose|q: int|
                    0 <= q < edges@.len() && edge_matches(#[trigger] edges@[q], a, b, None);
                assert(pair_lo(edges@[q]) == a && pair_hi(edges@[q]) == b);
                assert(match_count(edges@, pair_lo(edges@[q]), pair_hi(edges@[q]), None) <= 2);
            }
        }
    }
    true
}

/// Two strictly pair-sorted edge lists holding the same edges are the same
/// list.
proof fn lemma_sorted_same_elements<U>(r1: Seq<([usize; 2], U)>, r2: Seq<([usize; 2], U)>)
    requires
        forall|k1: int, k2: int| 0 <= k1 < k2 < r1.len() ==> pair_lt(r1[k1], r1[k2]),
        forall|k1: int, k2: int| 0 <= k1 < k2 < r2.len() ==> pair_lt(r2[k1], r2[k2]),
        forall|k: int| 0 <= k < r1.len() ==> (#[trigger] r1[k]).0[0] <= r1[k].0[1],
        forall|k: int| 0 <= k < r2.len() ==> (#[trigger] r2[k]).0[0] <= r2[k].0[1],
        forall|a: usize, b: usize, u: U| contains_edge(r1, a, b, u) <==> contains_edge(r2, a, b, u),
    ensures
        r1 == r2,
    decreases r1.len(),
{
    if r1.len() == 0 {
        if r2.len() > 0 {
            assert(contains_edge(r2, r2[0].0[0], r2[0].0[1], r2[0].1));
            assert(contains_edge(r1, r2[0].0[0], r2[0].0[1], r2[0].1));
            assert(false);
        }
        assert(r1 =~= r2);
    } else if r2.len() == 0 {
        assert(contains_edge(r1, r1[0].0[0], r1[0].0[1], r1[0].1));
        assert(contains_edge(r2, r1[0].0[0], r1[0].0[1], r1[0].1));
        assert(false);
    } else {
        assert(contains_edge(r1, r1[0].0[0], r1[0].0[1], r1[0].1));
        assert(contains_edge(r2, r1[0].0[0], r1[0].0[1], r1[0].1));
        let k2 = choose|k: int|
            0 <= k < r2.len() && (#[trigger] r2[k]).0[0] == r1[0].0[0] && r2[k].0[1] == r1[0].0[1]
                && r2[k].1 == r1[0].1;
        assert(contains_edge(r2, r2[0].0[0], r2[0].0[1], r2[0].1));
        assert(contains_edge(r1, r2[0].0[0], r2[0].0[1], r2[0].1));
        let k1 = choose|k: int|
            0 <= k < r1.len() && (#[trigger] r1[k]).0[0] == r2[0].0[0] && r1[k].0[1] == r2[0].0[1]
                && r1[k].1 == r2[0].1;
        if k2 > 0 {
            assert(pair_lt(r2[0], r2[k2]));
            if k1 > 0 {
                assert(pair_lt(r1[0], r1[k1]));
            }
            assert(false);
        }
        assert(r1[0].0 =~= r2[0].0);
        assert(r1[0] == r2[0]);
        let t1 = r1.drop_first();
        let t2 = r2.drop_first();
        assert forall|a: usize, b: usize, u: U|
            contains_edge(t1, a, b, u) implies contains_edge(t2, a, b, u) by {
            let k = choose|k: int|
                0 <= k < t1.len() && (#[trigger] t1[k]).0[0] == a && t1[k].0[1] == b && t1[k].1
                    == u;
            assert(r1[k + 1].0[0] == a && r1[k + 1].0[1] == b && r1[k + 1].1 == u);
            assert(contains_edge(r1, a, b, u));
            let j = choose|j: int|
                0 <= j < r2.len() && (#[trigger] r2[j]).0[0] == a && r2[j].0[1] == b && r2[j].1
                    == u;
            assert(pair_lt(r1[0], r1[k + 1]));
            if j == 0 {
                assert(false);
            }
            assert(t2[j - 1].0[0] == a && t2[j - 1].0[1] == b && t2[j - 1].1 == u);
        }
        assert forall|a: usize, b: usize, u: U|
            contains_edge(t2, a, b, u) implies contains_edge(t1, a, b, u) by {
            let k = choose|k: int|
                0 <= k < t2.len() && (#[trigger] t2[k]).0[0] == a && t2[k].0[1] == b && t2[k].1
                    == u;
            assert(r2[k + 1].0[0] == a && r2[k + 1].0[1] == b && r2[k + 1].1 == u);
            assert(contains_edge(r2, a, b, u));
            let j = choose|j: int|
                0 <= j < r1.len() && (#[trigger] r1[j]).0[0] == a && r1[j].0[1] == b && r1[j].1
                    == u;
            assert(pair_lt(r2[0], r2[k + 1]));
            if j == 0 {
                assert(false);
            }
            assert(t1[j - 1].0[0] == a && t1[j - 1].0[1] == b && t1[j - 1].1 == u);
        }
        lemma_sorted_same_elements(t1, t2);
        assert(r1.len() == r2.len());
        assert forall|k: int| 0 <= k < r1.len() implies r1[k] == r2[k] by {
            if k > 0 {
                assert(r1[k] == t1[k - 1]);
                assert(r2[k] == t2[k - 1]);
            }
        }
        assert(r1 =~= r2);
    }
}

/// Law: the symmetrizer is deterministic. Its contract pins the output
/// down: any two edge lists that stand in the `symmetrized` relation to the
/// same input are equal, so repeated runs on equal inputs give equal
/// results.
pub proof fn lemma_symmetrized_unique<U>(
    s: Seq<([usize; 2], U)>,
    r1: Seq<([usize; 2], U)>,
    r2: Seq<([usize; 2], U)>,
)
    requires
        symmetrized(s, r1),
        symmetrized(s, r2),
    ensures
        r1 == r2,
{
    assert forall|a: usize, b: usize, u: U|
        contains_edge(r1, a, b, u) implies contains_edge(r2, a, b, u) by {
        let k = choose|k: int|
            0 <= k < r1.len() && (#[trigger] r1[k]).0[0] == a && r1[k].0[1] == b && r1[k].1 == u;
        assert(keeps(s, a, b, u));
    }
    assert forall|a: usize, b: usize, u: U|
        contains_edge(r2, a, b, u) implies contains_edge(r1, a, b, u) by {
        let k = choose|k: int|
            0 <= k < r2.len() && (#[trigger] r2[k]).0[0] == a && r2[k].0[1] == b && r2[k].1 == u;
        assert(keeps(s, a, b, u));
    }
    lemma_sorted_same_elements(r1, r2);
}

/// Law, restricted to empty results: applying the symmetrizer to its own
/// output changes nothing when that output is empty. The unrestricted law
/// fails: a nonempty output holds one copy per surviving pair, each of
/// which would count as unpaired on a second pass and be dropped.
pub proof fn lemma_symmetrize_idempotent_on_empty<U>(s: Seq<([usize; 2], U)>, r: Seq<([usize; 2], U)>)
    requires
        symmetrized(s, r),
        r.len() == 0,
    ensures
        symmetrized(r, r),
{
    assert forall|a: usize, b: usize, u: U| #[trigger] keeps(r, a, b, u) implies contains_edge(
        r,
        a,
        b,
        u,
    ) by {
        assert(match_count(r, a, b, None) == 0);
    }
}

} // verus!
