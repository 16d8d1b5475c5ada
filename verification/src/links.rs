//! Undirected links as a sequence of endpoint pairs: when such a sequence
//! is a simple graph, and what then holds of the neighbours of a node.

use crate::store::far_ends;
use crate::store::joined;
use vstd::prelude::*;
use vstd::set_lib::lemma_int_range;
use vstd::set_lib::lemma_len_subset;
use vstd::set_lib::set_int_range;

verus! {

/// Whether two pairs join the same two nodes.
pub open spec fn same_link(e: (usize, usize), f: (usize, usize)) -> bool {
    e == f || (e.0 == f.1 && e.1 == f.0)
}

/// A simple graph on the nodes below `n`: every link joins two different
/// nodes below `n`, and no two links join the same two nodes.
pub open spec fn simple(edges: Seq<(usize, usize)>, n: nat) -> bool {
    &&& forall|k: int|
        0 <= k < edges.len() ==> (#[trigger] edges[k]).0 < n && edges[k].1 < n && edges[k].0
            != edges[k].1
    &&& forall|k: int, l: int|
        0 <= k < l < edges.len() ==> !same_link(#[trigger] edges[k], #[trigger] edges[l])
}

/// Being joined does not depend on the order of the two nodes.
pub proof fn lemma_joined_symmetric(edges: Seq<(usize, usize)>, a: usize, b: usize)
    ensures
        joined(edges, a, b) == joined(edges, b, a),
{
    if joined(edges, a, b) {
        let k = choose|k: int|
            0 <= k < edges.len() && (#[trigger] edges[k] == (a, b) || edges[k] == (b, a));
        assert(edges[k] == (b, a) || edges[k] == (a, b));
    }
    if joined(edges, b, a) {
        let k = choose|k: int|
            0 <= k < edges.len() && (#[trigger] edges[k] == (b, a) || edges[k] == (a, b));
        assert(edges[k] == (a, b) || edges[k] == (b, a));
    }
}

/// One more link joins the two nodes it names, and changes nothing else.
pub proof fn lemma_joined_push(edges: Seq<(usize, usize)>, e: (usize, usize), a: usize, b: usize)
    ensures
        joined(edges.push(e), a, b) <==> joined(edges, a, b) || e == (a, b) || e == (b, a),
{
    let more = edges.push(e);
    if joined(edges, a, b) {
        let k = choose|k: int|
            0 <= k < edges.len() && (#[trigger] edges[k] == (a, b) || edges[k] == (b, a));
        assert(more[k] == edges[k]);
    }
    if e == (a, b) || e == (b, a) {
        assert(more[edges.len() as int] == e);
    }
    if joined(more, a, b) {
        let k = choose|k: int|
            0 <= k < more.len() && (#[trigger] more[k] == (a, b) || more[k] == (b, a));
        if k < edges.len() {
            assert(edges[k] == more[k]);
        }
    }
}

/// The far ends at `a` are exactly the nodes joined to `a`.
pub proof fn lemma_far_ends_joined(edges: Seq<(usize, usize)>, a: usize)
    ensures
        forall|b: usize| far_ends(edges, a).contains(b) <==> joined(edges, a, b),
    decreases edges.len(),
{
    if edges.len() == 0 {
    } else {
        let init = edges.drop_last();
        let e = edges.last();
        lemma_far_ends_joined(init, a);
        assert(edges =~= init.push(e));
        assert forall|b: usize| far_ends(edges, a).contains(b) <==> joined(edges, a, b) by {
            lemma_joined_push(init, e, a, b);
            let rest = far_ends(init, a);
            let out = far_ends(edges, a);
            if rest.contains(b) {
                let i = choose|i: int| 0 <= i < rest.len() && rest[i] == b;
                assert(out[i] == b);
            }
            if out.contains(b) {
                let i = choose|i: int| 0 <= i < out.len() && out[i] == b;
                if i < rest.len() {
                    assert(rest[i] == b);
                }
            }
            if e.0 == a {
                assert(out[rest.len() as int] == e.1);
            } else if e.1 == a {
                assert(out[rest.len() as int] == e.0);
            }
        }
    }
}

/// In a simple graph the far ends at `a` are distinct nodes below `n`, none
/// of them `a` itself.
pub proof fn lemma_far_ends_simple(edges: Seq<(usize, usize)>, n: nat, a: usize)
    requires
        simple(edges, n),
    ensures
        far_ends(edges, a).no_duplicates(),
        forall|i: int|
            0 <= i < far_ends(edges, a).len() ==> (#[trigger] far_ends(edges, a)[i]) < n
                && far_ends(edges, a)[i] != a,
    decreases edges.len(),
{
    if edges.len() > 0 {
        let init = edges.drop_last();
        let e = edges.last();
        assert forall|k: int| 0 <= k < init.len() implies (#[trigger] init[k]) == edges[k] by {}
        assert(simple(init, n));
        lemma_far_ends_simple(init, n, a);
        lemma_far_ends_joined(init, a);
        let rest = far_ends(init, a);
        let b = if e.0 == a {
            e.1
        } else {
            e.0
        };
        if e.0 == a || e.1 == a {
            if rest.contains(b) {
                assert(joined(init, a, b));
                let k = choose|k: int|
                    0 <= k < init.len() && (#[trigger] init[k] == (a, b) || init[k] == (b, a));
                assert(init[k] == edges[k]);
                assert(same_link(edges[k], edges[edges.len() - 1]));
            }
            assert(far_ends(edges, a) == rest.push(b));
            assert(edges[edges.len() - 1].0 != edges[edges.len() - 1].1);
        } else {
            assert(far_ends(edges, a) == rest);
        }
    }
}

/// Distinct numbers below `n`, none of them `a`, are fewer than `n`.
pub proof fn lemma_distinct_below(s: Seq<usize>, n: nat, a: usize)
    requires
        s.no_duplicates(),
        a < n,
        forall|i: int| 0 <= i < s.len() ==> (#[trigger] s[i]) < n && s[i] != a,
    ensures
        s.len() < n,
{
    let t = s.map_values(|x: usize| x as int);
    assert(t.no_duplicates());
    t.unique_seq_to_set();
    lemma_int_range(0, n as int);
    let whole = set_int_range(0, n as int);
    let rest = whole.remove(a as int);
    assert forall|x: int| t.to_set().contains(x) implies rest.contains(x) by {
        let i = choose|i: int| 0 <= i < t.len() && t[i] == x;
        assert(s[i] < n);
    }
    assert(t.to_set().subset_of(rest));
    lemma_len_subset(t.to_set(), rest);
}

/// In a simple graph on `n` nodes, a node has fewer than `n` far ends.
pub proof fn lemma_far_ends_bound(edges: Seq<(usize, usize)>, n: nat, a: usize)
    requires
        simple(edges, n),
        a < n,
    ensures
        far_ends(edges, a).len() < n,
{
    lemma_far_ends_simple(edges, n, a);
    lemma_distinct_below(far_ends(edges, a), n, a);
}

/// A pair of nodes with the smaller one first.
pub open spec fn ordered(e: (usize, usize)) -> (usize, usize) {
    if e.0 < e.1 {
        e
    } else {
        (e.1, e.0)
    }
}

/// The pairs of nodes that are joined, each pair once, smaller node first.
pub open spec fn link_pairs(edges: Seq<(usize, usize)>) -> Set<(usize, usize)> {
    Set::new(|p: (usize, usize)| p.0 < p.1 && joined(edges, p.0, p.1))
}

/// A simple graph has as many links as pairs of nodes that are joined.
pub proof fn lemma_link_pairs(edges: Seq<(usize, usize)>, n: nat)
    requires
        simple(edges, n),
    ensures
        link_pairs(edges).finite(),
        link_pairs(edges).len() == edges.len(),
{
    let s = edges.map_values(|e: (usize, usize)| ordered(e));
    assert forall|k: int, l: int| 0 <= k < s.len() && 0 <= l < s.len() && k != l implies s[k]
        != s[l] by {
        if s[k] == s[l] {
            if k < l {
                assert(same_link(edges[k], edges[l]));
            } else {
                assert(same_link(edges[l], edges[k]));
            }
        }
    }
    s.unique_seq_to_set();
    vstd::seq_lib::seq_to_set_is_finite(s);
    assert forall|p: (usize, usize)| s.to_set().contains(p) <==> link_pairs(edges).contains(p) by {
        if s.to_set().contains(p) {
            let k = choose|k: int| 0 <= k < s.len() && s[k] == p;
            assert(edges[k].0 != edges[k].1);
            assert(edges[k] == (p.0, p.1) || edges[k] == (p.1, p.0));
        }
        if link_pairs(edges).contains(p) {
            let k = choose|k: int|
                0 <= k < edges.len() && (#[trigger] edges[k] == (p.0, p.1) || edges[k] == (
                    p.1,
                    p.0,
                ));
            assert(s[k] == p);
        }
    }
    assert(s.to_set() =~= link_pairs(edges));
}

/// The numbers of far ends at the nodes below `upto`, added up.
pub open spec fn ends_sum(edges: Seq<(usize, usize)>, upto: nat) -> nat
    decreases upto,
{
    if upto == 0 {
        0
    } else {
        ends_sum(edges, (upto - 1) as nat) + far_ends(edges, (upto - 1) as usize).len()
    }
}

/// One more link between two different nodes adds one far end at each of
/// them.
pub proof fn lemma_ends_sum_push(edges: Seq<(usize, usize)>, e: (usize, usize), upto: nat)
    requires
        e.0 != e.1,
        upto <= usize::MAX,
    ensures
        ends_sum(edges.push(e), upto) == ends_sum(edges, upto) + (if e.0 < upto {
            1nat
        } else {
            0nat
        }) + (if e.1 < upto {
            1nat
        } else {
            0nat
        }),
    decreases upto,
{
    if upto > 0 {
        lemma_ends_sum_push(edges, e, (upto - 1) as nat);
        assert(edges.push(e).drop_last() =~= edges);
    }
}

/// In a simple graph the far ends at all nodes are twice as many as the
/// links: each link has two ends.
pub proof fn lemma_handshake(edges: Seq<(usize, usize)>, n: nat)
    requires
        simple(edges, n),
        n <= usize::MAX,
    ensures
        ends_sum(edges, n) == 2 * edges.len(),
    decreases edges.len(),
{
    if edges.len() == 0 {
        lemma_ends_sum_none(edges, n);
    } else {
        let init = edges.drop_last();
        let e = edges.last();
        assert forall|k: int| 0 <= k < init.len() implies (#[trigger] init[k]) == edges[k] by {}
        assert(simple(init, n));
        lemma_handshake(init, n);
        assert(edges =~= init.push(e));
        assert(edges[edges.len() - 1].0 < n && edges[edges.len() - 1].1 < n);
        lemma_ends_sum_push(init, e, n);
    }
}

/// Without links no node has a far end.
pub proof fn lemma_ends_sum_none(edges: Seq<(usize, usize)>, upto: nat)
    requires
        edges.len() == 0,
    ensures
        ends_sum(edges, upto) == 0,
    decreases upto,
{
    if upto > 0 {
        lemma_ends_sum_none(edges, (upto - 1) as nat);
    }
}

} // verus!
