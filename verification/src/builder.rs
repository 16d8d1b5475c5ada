//! Building the graph, comic by comic: first the members of a comic are
//! entered and counted, then every two of them are linked.

use crate::graph::find_name;
use crate::links::lemma_joined_push;
use crate::links::lemma_joined_symmetric;
use crate::links::same_link;
use crate::links::simple;
use crate::model::Name;
use crate::model::appearances;
use crate::model::comics_of;
use crate::model::enroll;
use crate::model::lemma_appearances;
use crate::model::lemma_enroll;
use crate::model::lemma_roster;
use crate::model::lemma_share_occurs;
use crate::model::lemma_share_push;
use crate::model::names_of;
use crate::model::occurs;
use crate::model::roster;
use crate::model::share_comic;
use crate::pairs::position_pairs;
use crate::store::graph_add_edge;
use crate::store::graph_add_node;
use crate::store::graph_contains_edge;
use crate::store::graph_edges;
use crate::store::graph_new;
use crate::store::graph_set_weight;
use crate::store::graph_weight;
use crate::store::graph_weights;
use crate::store::joined;
use petgraph::Undirected;
use petgraph::graph::Graph;
use vstd::prelude::*;

verus! {

/// Whether `x` is among `ids`.
fn contains_id(ids: &Vec<usize>, x: usize) -> (r: bool)
    ensures
        r == ids@.contains(x),
{
    let mut i: usize = 0;
    while i < ids.len()
        invariant
            i <= ids.len(),
            forall|k: int| 0 <= k < i ==> ids@[k] != x,
        decreases ids.len() - i,
    {
        if ids[i] == x {
            return true;
        }
        i += 1;
    }
    false
}

/// The count that node `i` has once `members` are entered: what it had, or
/// nothing for a new node, and one more if `members` name it.
pub open spec fn counted(before: Seq<usize>, members: Seq<Name>, name: Name, i: int) -> int {
    (if i < before.len() {
        before[i] as int
    } else {
        0
    }) + (if members.contains(name) {
        1int
    } else {
        0int
    })
}

/// Enters the members of one comic: a node for each name that is new, and
/// one more appearance for each hero named, however often the comic names
/// them. Returns the node of each member, by position.
pub(crate) fn enroll_members(
    graph: &mut Graph<usize, (), Undirected, usize>,
    names: &mut Vec<String>,
    members: &Vec<String>,
) -> (ids: Vec<usize>)
    requires
        names_of(old(names)@).no_duplicates(),
        graph_weights(*old(graph)).len() == old(names)@.len(),
        forall|i: int|
            0 <= i < graph_weights(*old(graph)).len() ==> #[trigger] graph_weights(*old(graph))[i]
                < usize::MAX,
    ensures
        names_of(final(names)@) == enroll(names_of(old(names)@), names_of(members@)),
        graph_edges(*final(graph)) == graph_edges(*old(graph)),
        graph_weights(*final(graph)).len() == final(names)@.len(),
        forall|i: int|
            0 <= i < final(names)@.len() ==> #[trigger] graph_weights(*final(graph))[i] == counted(
                graph_weights(*old(graph)),
                names_of(members@),
                names_of(final(names)@)[i],
                i,
            ),
        ids@.len() == members@.len(),
        forall|q: int|
            0 <= q < ids@.len() ==> (#[trigger] ids@[q]) < final(names)@.len() && names_of(
                final(names)@,
            )[ids@[q] as int] == members@[q]@,
{
    let ghost seen = names_of(names@);
    let ghost before = graph_weights(*graph);
    let ghost edges = graph_edges(*graph);
    let ghost ms = names_of(members@);
    let mut ids: Vec<usize> = Vec::new();
    let mut p: usize = 0;
    proof {
        assert(ms.take(0) =~= Seq::<Name>::empty());
    }
    while p < members.len()
        invariant
            p <= members.len(),
            ms == names_of(members@),
            ids@.len() == p,
            seen.no_duplicates(),
            seen.len() == before.len(),
            forall|i: int| 0 <= i < before.len() ==> #[trigger] before[i] < usize::MAX,
            names_of(names@) == enroll(seen, ms.take(p as int)),
            names_of(names@).no_duplicates(),
            seen.len() <= names@.len(),
            graph_edges(*graph) == edges,
            graph_weights(*graph).len() == names@.len(),
            forall|i: int|
                0 <= i < names@.len() ==> #[trigger] graph_weights(*graph)[i] == counted(
                    before,
                    ms.take(p as int),
                    names_of(names@)[i],
                    i,
                ),
            forall|q: int|
                0 <= q < p ==> (#[trigger] ids@[q]) < names@.len() && names_of(names@)[ids@[q] as int]
                    == ms[q],
        decreases members.len() - p,
    {
        let ghost nv = names_of(names@);
        let ghost ws = graph_weights(*graph);
        let ghost pre = ms.take(p as int);
        let ghost post = ms.take(p + 1);
        let name = &members[p];
        proof {
            assert(post.drop_last() =~= pre);
            assert(post.last() == ms[p as int]);
            assert(ms[p as int] == name@);
            lemma_enroll(seen, pre);
        }
        let found = find_name(names, name);
        let idx = match found {
            Some(i) => i,
            None => {
                let i = graph_add_node(graph, 0);
                names.push(name.clone());
                proof {
                    assert(names_of(names@) =~= nv.push(name@));
                }
                i
            },
        };
        let ghost nv2 = names_of(names@);
        let ghost ws2 = graph_weights(*graph);
        proof {
            assert(nv2 == enroll(seen, post));
            lemma_enroll(seen, post);
            assert(nv2[idx as int] == name@);
            assert forall|i: int| 0 <= i < nv.len() implies nv2[i] == nv[i] by {}
            // A node counted so far is one of the members seen so far.
            assert(ids@.contains(idx) <==> pre.contains(name@)) by {
                if ids@.contains(idx) {
                    let q = choose|q: int| 0 <= q < ids@.len() && ids@[q] == idx;
                    assert(pre[q] == ms[q]);
                }
                if pre.contains(name@) {
                    let q = choose|q: int| 0 <= q < pre.len() && pre[q] == name@;
                    assert(ms[q] == name@);
                    assert(nv[ids@[q] as int] == name@);
                    assert(nv2[ids@[q] as int] == name@);
                }
            }
            assert forall|i: int| 0 <= i < nv2.len() implies (post.contains(#[trigger] nv2[i])
                <==> pre.contains(nv2[i]) || i == idx) by {
                if pre.contains(nv2[i]) {
                    let q = choose|q: int| 0 <= q < pre.len() && pre[q] == nv2[i];
                    assert(post[q] == nv2[i]);
                }
                if post.contains(nv2[i]) {
                    let q = choose|q: int| 0 <= q < post.len() && post[q] == nv2[i];
                    if q < pre.len() {
                        assert(pre[q] == nv2[i]);
                    }
                }
                if i == idx {
                    assert(post[p as int] == nv2[i]);
                }
            }
            assert forall|i: int| 0 <= i < nv2.len() implies #[trigger] ws2[i] == counted(
                before,
                pre,
                nv2[i],
                i,
            ) by {
                if i >= nv.len() {
                    assert(!nv.contains(name@));
                }
            }
        }
        if !contains_id(&ids, idx) {
            let w = graph_weight(graph, idx);
            graph_set_weight(graph, idx, w + 1);
        }
        ids.push(idx);
        p += 1;
    }
    proof {
        assert(ms.take(p as int) =~= ms);
    }
    ids
}

/// Whether the pair of positions `pr` stands for the nodes `a` and `b`, one
/// way round or the other.
pub open spec fn pair_names(ids: Seq<usize>, pr: (usize, usize), a: usize, b: usize) -> bool {
    (ids[pr.0 as int] == a && ids[pr.1 as int] == b) || (ids[pr.0 as int] == b && ids[pr.1 as int]
        == a)
}

/// Whether one of the first `t` pairs stands for the nodes `a` and `b`.
pub open spec fn paired(
    ids: Seq<usize>,
    pairs: Seq<(usize, usize)>,
    t: int,
    a: usize,
    b: usize,
) -> bool {
    exists|k: int| 0 <= k < t && k < pairs.len() && pair_names(ids, #[trigger] pairs[k], a, b)
}

/// Links every two different nodes among `ids` that are not linked yet.
pub(crate) fn link_members(graph: &mut Graph<usize, (), Undirected, usize>, ids: &Vec<usize>)
    requires
        simple(graph_edges(*old(graph)), graph_weights(*old(graph)).len()),
        forall|q: int| 0 <= q < ids@.len() ==> (#[trigger] ids@[q]) < graph_weights(*old(graph)).len(),
    ensures
        graph_weights(*final(graph)) == graph_weights(*old(graph)),
        simple(graph_edges(*final(graph)), graph_weights(*old(graph)).len()),
        forall|a: usize, b: usize|
            #[trigger] joined(graph_edges(*final(graph)), a, b) <==> joined(
                graph_edges(*old(graph)),
                a,
                b,
            ) || (a != b && ids@.contains(a) && ids@.contains(b)),
{
    let ghost edges0 = graph_edges(*graph);
    let ghost n = graph_weights(*graph).len();
    let pairs = position_pairs(ids.len());
    let mut t: usize = 0;
    while t < pairs.len()
        invariant
            t <= pairs.len(),
            graph_weights(*graph) == graph_weights(*old(graph)),
            n == graph_weights(*graph).len(),
            simple(graph_edges(*graph), n),
            forall|q: int| 0 <= q < ids@.len() ==> (#[trigger] ids@[q]) < n,
            forall|k: int| 0 <= k < pairs@.len() ==> (#[trigger] pairs@[k]).0 < pairs@[k].1 < ids@.len(),
            forall|a: usize, b: usize|
                #[trigger] joined(graph_edges(*graph), a, b) <==> joined(edges0, a, b) || (a != b
                    && paired(ids@, pairs@, t as int, a, b)),
        decreases pairs.len() - t,
    {
        let ghost edges = graph_edges(*graph);
        let pr = pairs[t];
        let a0 = ids[pr.0];
        let b0 = ids[pr.1];
        let mut added = false;
        if a0 != b0 {
            if !graph_contains_edge(graph, a0, b0) {
                graph_add_edge(graph, a0, b0);
                added = true;
                proof {
                    let more = graph_edges(*graph);
                    assert forall|k: int| 0 <= k < edges.len() implies !same_link(
                        #[trigger] more[k],
                        more[edges.len() as int],
                    ) by {
                        assert(edges[k] == more[k]);
                        if same_link(edges[k], (a0, b0)) {
                            assert(edges[k] == (a0, b0) || edges[k] == (b0, a0));
                        }
                    }
                    assert forall|k: int, l: int| 0 <= k < l < more.len() implies !same_link(
                        #[trigger] more[k],
                        #[trigger] more[l],
                    ) by {
                        if l < edges.len() {
                            assert(edges[k] == more[k] && edges[l] == more[l]);
                        }
                    }
                    assert forall|k: int| 0 <= k < more.len() implies (#[trigger] more[k]).0 < n
                        && more[k].1 < n && more[k].0 != more[k].1 by {
                        if k < edges.len() {
                            assert(edges[k] == more[k]);
                        }
                    }
                }
            }
        }
        proof {
            let more = graph_edges(*graph);
            assert forall|a: usize, b: usize| #[trigger]
                joined(more, a, b) <==> joined(edges0, a, b) || (a != b && paired(
                    ids@,
                    pairs@,
                    t + 1,
                    a,
                    b,
                )) by {
                let hit = pair_names(ids@, pairs@[t as int], a, b);
                assert(paired(ids@, pairs@, t + 1, a, b) <==> paired(ids@, pairs@, t as int, a, b)
                    || hit) by {
                    if paired(ids@, pairs@, t as int, a, b) {
                        let k = choose|k: int|
                            0 <= k < t && k < pairs@.len() && pair_names(
                                ids@,
                                #[trigger] pairs@[k],
                                a,
                                b,
                            );
                        assert(pair_names(ids@, pairs@[k], a, b));
                    }
                    if paired(ids@, pairs@, t + 1, a, b) {
                        let k = choose|k: int|
                            0 <= k < t + 1 && k < pairs@.len() && pair_names(
                                ids@,
                                #[trigger] pairs@[k],
                                a,
                                b,
                            );
                        if k < t {
                            assert(pair_names(ids@, pairs@[k], a, b));
                        }
                    }
                }
                assert(joined(edges, a, b) <==> joined(edges0, a, b) || (a != b && paired(
                    ids@,
                    pairs@,
                    t as int,
                    a,
                    b,
                )));
                if added {
                    lemma_joined_push(edges, (a0, b0), a, b);
                } else if a0 != b0 {
                    lemma_joined_symmetric(edges, a0, b0);
                }
            }
        }
        t += 1;
    }
    proof {
        let last = graph_edges(*graph);
        assert forall|a: usize, b: usize| #[trigger]
            joined(last, a, b) <==> joined(edges0, a, b) || (a != b && ids@.contains(a)
                && ids@.contains(b)) by {
            if a != b && ids@.contains(a) && ids@.contains(b) {
                let i = choose|i: int| 0 <= i < ids@.len() && ids@[i] == a;
                let j = choose|j: int| 0 <= j < ids@.len() && ids@[j] == b;
                let lo = if i < j {
                    i as usize
                } else {
                    j as usize
                };
                let hi = if i < j {
                    j as usize
                } else {
                    i as usize
                };
                assert(pairs@.contains((lo, hi)));
                let k = choose|k: int| 0 <= k < pairs@.len() && pairs@[k] == (lo, hi);
                assert(pair_names(ids@, pairs@[k], a, b));
            }
            if paired(ids@, pairs@, t as int, a, b) {
                let k = choose|k: int|
                    0 <= k < t && k < pairs@.len() && pair_names(ids@, #[trigger] pairs@[k], a, b);
                assert(pairs@[k].0 < pairs@[k].1 < ids@.len());
                assert(ids@[pairs@[k].0 as int] == a || ids@[pairs@[k].0 as int] == b);
                assert(ids@[pairs@[k].1 as int] == a || ids@[pairs@[k].1 as int] == b);
            }
        }
    }
}

/// What the store holds once the comics `done` are entered: the roster as
/// names, each hero's appearances as weight, and a link between every two
/// heroes who share a comic.
pub open spec fn holds(
    graph: Graph<usize, (), Undirected, usize>,
    names: Seq<String>,
    done: Seq<Seq<Name>>,
) -> bool {
    let nv = names_of(names);
    &&& nv == roster(done)
    &&& graph_weights(graph).len() == nv.len()
    &&& forall|i: int|
        0 <= i < nv.len() ==> #[trigger] graph_weights(graph)[i] == appearances(done, nv[i])
    &&& simple(graph_edges(graph), nv.len())
    &&& forall|a: usize, b: usize|
        a < nv.len() && b < nv.len() ==> (#[trigger] joined(graph_edges(graph), a, b) <==> a != b
            && share_comic(done, nv[a as int], nv[b as int]))
}

/// Enters every comic of `data`, in order.
pub(crate) fn build_store(data: &Vec<(String, Vec<String>)>) -> (r: (
    Graph<usize, (), Undirected, usize>,
    Vec<String>,
))
    ensures
        holds(r.0, r.1@, comics_of(data@)),
{
    let ghost comics = comics_of(data@);
    let mut graph = graph_new();
    let mut names: Vec<String> = Vec::new();
    let mut c: usize = 0;
    proof {
        assert(comics.take(0) =~= Seq::<Seq<Name>>::empty());
        assert(names_of(names@) =~= Seq::<Name>::empty());
    }
    while c < data.len()
        invariant
            c <= data.len(),
            comics == comics_of(data@),
            holds(graph, names@, comics.take(c as int)),
        decreases data.len() - c,
    {
        let ghost done = comics.take(c as int);
        let ghost next = comics.take(c + 1);
        let ghost m = comics[c as int];
        let ghost nv = names_of(names@);
        let ghost ws = graph_weights(graph);
        let ghost edges = graph_edges(graph);
        let members = &data[c].1;
        proof {
            assert(m == names_of(members@));
            assert(next.drop_last() =~= done);
            assert(next.last() == m);
            assert(next =~= done.push(m));
            lemma_roster(done);
            assert forall|i: int| 0 <= i < ws.len() implies #[trigger] ws[i] < usize::MAX by {
                lemma_appearances(done, nv[i]);
            }
        }
        let ids = enroll_members(&mut graph, &mut names, members);
        let ghost nv2 = names_of(names@);
        let ghost ws2 = graph_weights(graph);
        proof {
            lemma_enroll(nv, m);
            assert(nv2 == roster(next));
            assert forall|i: int| 0 <= i < nv.len() implies nv2[i] == nv[i] by {
                assert(nv2.subrange(0, nv.len() as int)[i] == nv2[i]);
            }
            // A name that came with this comic occurs in none before it.
            assert forall|i: int| nv.len() <= i < nv2.len() implies !occurs(done, nv2[i]) by {
                if nv.contains(nv2[i]) {
                    let k = choose|k: int| 0 <= k < nv.len() && nv[k] == nv2[i];
                    assert(nv2[k] == nv2[i]);
                }
            }
            assert forall|i: int| 0 <= i < nv2.len() implies #[trigger] ws2[i] == appearances(
                next,
                nv2[i],
            ) by {
                if i >= nv.len() {
                    assert(!occurs(done, nv2[i]));
                    lemma_appearances(done, nv2[i]);
                }
            }
            assert(simple(edges, nv2.len()));
        }
        link_members(&mut graph, &ids);
        proof {
            let linked = graph_edges(graph);
            assert forall|a: usize, b: usize| a < nv2.len() && b < nv2.len() implies (
            #[trigger] joined(linked, a, b) <==> a != b && share_comic(
                next,
                nv2[a as int],
                nv2[b as int],
            )) by {
                let x = nv2[a as int];
                let y = nv2[b as int];
                lemma_share_push(done, m, x, y);
                assert(ids@.contains(a) <==> m.contains(x)) by {
                    if ids@.contains(a) {
                        let q = choose|q: int| 0 <= q < ids@.len() && ids@[q] == a;
                        assert(m[q] == x);
                    }
                    if m.contains(x) {
                        let q = choose|q: int| 0 <= q < m.len() && m[q] == x;
                        assert(nv2[ids@[q] as int] == x);
                    }
                }
                assert(ids@.contains(b) <==> m.contains(y)) by {
                    if ids@.contains(b) {
                        let q = choose|q: int| 0 <= q < ids@.len() && ids@[q] == b;
                        assert(m[q] == y);
                    }
                    if m.contains(y) {
                        let q = choose|q: int| 0 <= q < m.len() && m[q] == y;
                        assert(nv2[ids@[q] as int] == y);
                    }
                }
                if a < nv.len() && b < nv.len() {
                    assert(joined(edges, a, b) <==> a != b && share_comic(done, x, y));
                } else {
                    if joined(edges, a, b) {
                        let k = choose|k: int|
                            0 <= k < edges.len() && (#[trigger] edges[k] == (a, b) || edges[k] == (
                                b,
                                a,
                            ));
                        assert(edges[k].0 < nv.len() && edges[k].1 < nv.len());
                    }
                    if share_comic(done, x, y) {
                        lemma_share_occurs(done, x, y);
                    }
                }
            }
        }
        c += 1;
    }
    proof {
        assert(comics.take(c as int) =~= comics);
    }
    (graph, names)
}

} // verus!
