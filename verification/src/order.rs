//! The graph does not depend on the order of its input.

use crate::graph::MarvelGraph;
use crate::links::ordered;
use crate::model::Name;
use crate::model::lemma_rearranged;
use crate::model::lemma_roster;
use crate::model::rearranged;
use vstd::prelude::*;
use vstd::relations::injective_on;
use vstd::set_lib::lemma_map_size;

verus! {

/// The node of `h` that has the name of node `i` of `g`.
pub open spec fn same_hero(g: MarvelGraph, h: MarvelGraph, i: usize) -> usize {
    choose|j: usize| j < h.size() && h.names()[j as int] == g.names()[i as int]
}

/// Two graphs of the same comics in another order have the same heroes, and
/// every hero of the one has their namesake in the other.
pub proof fn lemma_same_heroes(
    g: MarvelGraph,
    h: MarvelGraph,
    a: Seq<Seq<Name>>,
    b: Seq<Seq<Name>>,
    p: Seq<int>,
)
    requires
        g.represents(a),
        h.represents(b),
        rearranged(a, b, p),
    ensures
        g.size() == h.size(),
        forall|x: Name| g.names().contains(x) == h.names().contains(x),
        forall|i: usize|
            i < g.size() ==> (#[trigger] same_hero(g, h, i)) < h.size() && h.names()[same_hero(
                g,
                h,
                i,
            ) as int] == g.names()[i as int],
{
    lemma_roster(a);
    lemma_roster(b);
    assert forall|x: Name| g.names().contains(x) == h.names().contains(x) by {
        lemma_rearranged(a, b, p, x, x);
    }
    assert(g.names().to_set() =~= h.names().to_set());
    g.names().unique_seq_to_set();
    h.names().unique_seq_to_set();
    assert forall|i: usize| i < g.size() implies (#[trigger] same_hero(g, h, i)) < h.size()
        && h.names()[same_hero(g, h, i) as int] == g.names()[i as int] by {
        let x = g.names()[i as int];
        assert(g.names().contains(x));
        assert(h.names().contains(x));
        let j = choose|j: int| 0 <= j < h.names().len() && h.names()[j] == x;
        assert((j as usize) < h.size() && h.names()[(j as usize) as int] == x);
    }
}

/// Two graphs of the same comics in another order are the same graph but
/// for the numbering of their nodes: they have the same heroes; a hero has
/// the same appearance count in both; two heroes are linked in the one
/// exactly if they are in the other; and both have as many links.
pub proof fn lemma_order_independent(
    g: MarvelGraph,
    h: MarvelGraph,
    a: Seq<Seq<Name>>,
    b: Seq<Seq<Name>>,
    p: Seq<int>,
)
    requires
        g.represents(a),
        h.represents(b),
        rearranged(a, b, p),
    ensures
        g.size() == h.size(),
        forall|x: Name| g.names().contains(x) == h.names().contains(x),
        forall|i: int, j: int|
            0 <= i < g.size() && 0 <= j < h.size() && g.names()[i] == h.names()[j]
                ==> #[trigger] g.counts()[i] == #[trigger] h.counts()[j],
        forall|i: usize, k: usize, j: usize, l: usize|
            i < g.size() && k < g.size() && j < h.size() && l < h.size() && g.names()[i as int]
                == h.names()[j as int] && g.names()[k as int] == h.names()[l as int] ==> (
            #[trigger] g.adjacent(i, k)) == (#[trigger] h.adjacent(j, l)),
        g.links().len() == h.links().len(),
{
    lemma_same_heroes(g, h, a, b, p);
    assert forall|i: int, j: int|
        0 <= i < g.size() && 0 <= j < h.size() && g.names()[i] == h.names()[j]
            implies #[trigger] g.counts()[i] == #[trigger] h.counts()[j] by {
        lemma_rearranged(a, b, p, g.names()[i], g.names()[i]);
    }
    assert forall|i: usize, k: usize, j: usize, l: usize|
        i < g.size() && k < g.size() && j < h.size() && l < h.size() && g.names()[i as int]
            == h.names()[j as int] && g.names()[k as int] == h.names()[l as int] implies (
    #[trigger] g.adjacent(i, k)) == (#[trigger] h.adjacent(j, l)) by {
        lemma_rearranged(a, b, p, g.names()[i as int], g.names()[k as int]);
        if i == k {
            assert(j == l);
        }
        if j == l {
            assert(i == k);
        }
    }
    // The links of the one, renamed, are the links of the other.
    let f = |e: (usize, usize)| ordered((same_hero(g, h, e.0), same_hero(g, h, e.1)));
    let from = g.linked_pairs();
    let to = h.linked_pairs();
    g.lemma_linked_pairs();
    h.lemma_linked_pairs();
    assert forall|e: (usize, usize)| from.contains(e) implies e.0 < g.size() && e.1 < g.size() by {
        g.lemma_adjacent_nodes(e.0, e.1);
    }
    assert forall|e: (usize, usize)| to.contains(e) implies e.0 < h.size() && e.1 < h.size() by {
        h.lemma_adjacent_nodes(e.0, e.1);
    }
    assert(injective_on(f, from)) by {
        assert forall|d: (usize, usize), e: (usize, usize)|
            from.contains(d) && from.contains(e) && #[trigger] f(d) == #[trigger] f(e) implies d
            == e by {
            let d0 = same_hero(g, h, d.0);
            let d1 = same_hero(g, h, d.1);
            let e0 = same_hero(g, h, e.0);
            let e1 = same_hero(g, h, e.1);
            assert(h.names()[d0 as int] == g.names()[d.0 as int]);
            assert(h.names()[d1 as int] == g.names()[d.1 as int]);
            assert(h.names()[e0 as int] == g.names()[e.0 as int]);
            assert(h.names()[e1 as int] == g.names()[e.1 as int]);
            if d0 == e0 {
                assert(d.0 == e.0);
            }
            if d1 == e1 {
                assert(d.1 == e.1);
            }
            if d0 == e1 {
                assert(d.0 == e.1);
            }
            if d1 == e0 {
                assert(d.1 == e.0);
            }
        }
    }
    assert forall|e: (usize, usize)| from.map(f).contains(e) <==> to.contains(e) by {
        if from.map(f).contains(e) {
            let d = choose|d: (usize, usize)| from.contains(d) && e == f(d);
            let d0 = same_hero(g, h, d.0);
            let d1 = same_hero(g, h, d.1);
            assert(g.adjacent(d.0, d.1) == h.adjacent(d0, d1));
            h.lemma_adjacent_nodes(d0, d1);
            crate::links::lemma_joined_symmetric(h.links(), d0, d1);
        }
        if to.contains(e) {
            let x0 = h.names()[e.0 as int];
            let x1 = h.names()[e.1 as int];
            assert(h.names().contains(x0) && h.names().contains(x1));
            assert(g.names().contains(x0) && g.names().contains(x1));
            let i0 = choose|i: int| 0 <= i < g.names().len() && g.names()[i] == x0;
            let i1 = choose|i: int| 0 <= i < g.names().len() && g.names()[i] == x1;
            let u0 = i0 as usize;
            let u1 = i1 as usize;
            assert(g.adjacent(u0, u1) == h.adjacent(e.0, e.1));
            crate::links::lemma_joined_symmetric(g.links(), u0, u1);
            let d = ordered((u0, u1));
            g.lemma_adjacent_nodes(u0, u1);
            assert(from.contains(d));
            assert(same_hero(g, h, u0) == e.0);
            assert(same_hero(g, h, u1) == e.1);
            assert(f(d) == e);
        }
    }
    assert(from.map(f) =~= to);
    lemma_map_size(from, to, f);
}

} // verus!
