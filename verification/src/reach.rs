//! Reachability within a bounded number of links.

use crate::graph::MarvelGraph;
use crate::links::lemma_distinct_below;
use crate::links::lemma_joined_symmetric;
use std::collections::VecDeque;
use vstd::prelude::*;

verus! {

impl MarvelGraph {
    /// Whether a walk over at most `k` links leads from `x` to `y`. Every
    /// node reaches itself, over no link.
    pub open spec fn within(&self, x: usize, y: usize, k: nat) -> bool
        decreases k,
    {
        x == y || (k > 0 && exists|z: usize|
            self.within(x, z, (k - 1) as nat) && #[trigger] self.adjacent(z, y))
    }

    /// What is reached within `k` links is reached within any larger bound.
    pub proof fn lemma_within_more(&self, x: usize, y: usize, k: nat, l: nat)
        requires
            self.within(x, y, k),
            k <= l,
        ensures
            self.within(x, y, l),
        decreases k,
    {
        if x != y {
            let z = choose|z: usize|
                self.within(x, z, (k - 1) as nat) && #[trigger] self.adjacent(z, y);
            self.lemma_within_more(x, z, (k - 1) as nat, (l - 1) as nat);
        }
    }

    /// A walk can be extended by one link at its start.
    pub proof fn lemma_within_prepend(&self, x: usize, z: usize, y: usize, k: nat)
        requires
            self.adjacent(x, z),
            self.within(z, y, k),
        ensures
            self.within(x, y, k + 1),
        decreases k,
    {
        if x == y {
        } else if z == y {
            assert(self.within(x, x, k));
        } else {
            let w = choose|w: usize|
                self.within(z, w, (k - 1) as nat) && #[trigger] self.adjacent(w, y);
            self.lemma_within_prepend(x, z, w, (k - 1) as nat);
            assert(self.within(x, w, k));
        }
    }

    /// Reachability within a bound is symmetric: a walk from `x` to `y` can
    /// be walked back from `y` to `x`, since links have no direction.
    pub proof fn lemma_within_symmetric(&self, x: usize, y: usize, k: nat)
        ensures
            self.within(x, y, k) == self.within(y, x, k),
    {
        if self.within(x, y, k) {
            self.lemma_walk_back(x, y, k);
        }
        if self.within(y, x, k) {
            self.lemma_walk_back(y, x, k);
        }
    }

    /// One direction of the symmetry.
    pub proof fn lemma_walk_back(&self, x: usize, y: usize, k: nat)
        requires
            self.within(x, y, k),
        ensures
            self.within(y, x, k),
        decreases k,
    {
        if x != y {
            let z = choose|z: usize|
                self.within(x, z, (k - 1) as nat) && #[trigger] self.adjacent(z, y);
            self.lemma_walk_back(x, z, (k - 1) as nat);
            lemma_joined_symmetric(self.links(), z, y);
            self.lemma_within_prepend(y, z, x, (k - 1) as nat);
        }
    }

    /// Only nodes are linked, and none to itself.
    pub proof fn lemma_adjacent_nodes(&self, a: usize, b: usize)
        requires
            self.wf(),
            self.adjacent(a, b),
        ensures
            a < self.size(),
            b < self.size(),
            a != b,
    {
        let edges = self.links();
        let k = choose|k: int|
            0 <= k < edges.len() && (#[trigger] edges[k] == (a, b) || edges[k] == (b, a));
        assert(edges[k].0 < self.size() && edges[k].1 < self.size() && edges[k].0 != edges[k].1);
    }
}

/// Whether node `v` waits in the queue.
pub open spec fn in_queue(queue: Seq<(usize, usize)>, v: usize) -> bool {
    exists|i: int| 0 <= i < queue.len() && (#[trigger] queue[i]).0 == v
}

/// The queue of a search whose last node taken out stood at depth `level`:
/// it holds nodes that were seen, each once, each with its depth, in the
/// order of their depths, and no depth in it or anywhere is more than one
/// beyond `level`.
pub open spec fn queue_in_order(
    seen: Seq<bool>,
    depth: Seq<int>,
    queue: Seq<(usize, usize)>,
    level: int,
) -> bool {
    &&& forall|i: int|
        0 <= i < queue.len() ==> {
            &&& (#[trigger] queue[i]).0 < seen.len()
            &&& seen[queue[i].0 as int]
            &&& depth[queue[i].0 as int] == queue[i].1
            &&& level <= queue[i].1 <= level + 1
        }
    &&& forall|i: int, j: int|
        0 <= i < j < queue.len() ==> (#[trigger] queue[i]).1 <= (#[trigger] queue[j]).1
            && queue[i].0 != queue[j].0
    &&& forall|v: int| 0 <= v < seen.len() && #[trigger] seen[v] ==> depth[v] <= level + 1
}

impl MarvelGraph {
    /// What a search from `source` has right at every moment: each node
    /// seen is reached within its depth, which is within the bound, and
    /// `found` lists the nodes seen but for the source, each once.
    pub open spec fn search_sound(
        &self,
        source: usize,
        bound: nat,
        seen: Seq<bool>,
        depth: Seq<int>,
        found: Seq<usize>,
    ) -> bool {
        &&& source < self.size()
        &&& seen.len() == self.size()
        &&& depth.len() == self.size()
        &&& seen[source as int]
        &&& depth[source as int] == 0
        &&& forall|v: usize|
            v < self.size() && #[trigger] seen[v as int] ==> 0 <= depth[v as int] <= bound
                && self.within(source, v, depth[v as int] as nat)
        &&& found.no_duplicates()
        &&& forall|i: int|
            0 <= i < found.len() ==> (#[trigger] found[i]) < self.size() && found[i] != source
                && seen[found[i] as int]
        &&& forall|v: usize|
            v < self.size() && v != source && #[trigger] seen[v as int] ==> found.contains(v)
    }

    /// Node `v` is done with: each of its neighbours was seen, no more than
    /// one link deeper.
    pub open spec fn expanded(&self, seen: Seq<bool>, depth: Seq<int>, v: usize) -> bool {
        forall|w: usize| #[trigger]
            self.adjacent(v, w) ==> w < seen.len() && seen[w as int] && depth[w as int] <= depth[v as int]
                + 1
    }

    /// Every node seen below the bound is done with, unless it waits in the
    /// queue or is `current`.
    pub open spec fn settled(
        &self,
        bound: nat,
        seen: Seq<bool>,
        depth: Seq<int>,
        queue: Seq<(usize, usize)>,
        current: int,
    ) -> bool {
        forall|v: usize|
            v < seen.len() && seen[v as int] && depth[v as int] < bound && !in_queue(queue, v) && v
                != current ==> #[trigger] self.expanded(seen, depth, v)
    }

    /// When every node seen below the bound is done with, the search has
    /// seen all that the source reaches within the bound.
    pub proof fn lemma_search_complete(
        &self,
        source: usize,
        bound: nat,
        seen: Seq<bool>,
        depth: Seq<int>,
        found: Seq<usize>,
        y: usize,
        k: nat,
    )
        requires
            self.wf(),
            self.search_sound(source, bound, seen, depth, found),
            forall|v: usize|
                v < seen.len() && seen[v as int] && depth[v as int] < bound
                    ==> #[trigger] self.expanded(seen, depth, v),
            self.within(source, y, k),
            k <= bound,
        ensures
            y < self.size(),
            seen[y as int],
            depth[y as int] <= k,
        decreases k,
    {
        if y != source {
            let z = choose|z: usize|
                self.within(source, z, (k - 1) as nat) && #[trigger] self.adjacent(z, y);
            self.lemma_search_complete(source, bound, seen, depth, found, z, (k - 1) as nat);
            assert(self.expanded(seen, depth, z));
        }
    }

    /// The nodes other than `source` that a walk over at most `max_hops`
    /// links reaches from it, each once, in no stated order. A number that
    /// names no node reaches nothing.
    pub fn reachable_from(&self, source: usize, max_hops: usize) -> (found: Vec<usize>)
        ensures
            found@.no_duplicates(),
            forall|y: usize|
                found@.contains(y) <==> source < self.size() && y != source && self.within(
                    source,
                    y,
                    max_hops as nat,
                ),
    {
        proof {
            use_type_invariant(self);
        }
        let n = self.node_count();
        let mut found: Vec<usize> = Vec::new();
        if source >= n {
            return found;
        }
        let mut seen: Vec<bool> = vec![false; n];
        seen.set(source, true);
        let mut queue: VecDeque<(usize, usize)> = VecDeque::new();
        queue.push_back((source, 0));
        let ghost bound = max_hops as nat;
        let ghost mut depth: Seq<int> = Seq::new(n as nat, |i: int| 0int);
        let ghost mut taken: int = 0;
        let ghost mut level: int = 0;
        proof {
            assert(queue@[0] == (source, 0usize));
            assert forall|v: usize|
                v < seen@.len() && seen@[v as int] && depth[v as int] < bound && !in_queue(
                    queue@,
                    v,
                ) && v != n as int implies #[trigger] self.expanded(seen@, depth, v) by {
                assert(v == source);
                assert(queue@[0].0 == v);
            }
        }
        loop
            invariant_except_break
                queue_in_order(seen@, depth, queue@, level),
                self.settled(bound, seen@, depth, queue@, n as int),
                taken + queue@.len() == found@.len() + 1,
            invariant
                self.wf(),
                n == self.size(),
                bound == max_hops,
                0 <= taken,
                self.search_sound(source, bound, seen@, depth, found@),
            ensures
                forall|v: usize|
                    v < seen@.len() && seen@[v as int] && depth[v as int] < bound
                        ==> #[trigger] self.expanded(seen@, depth, v),
            decreases n - taken,
        {
            let ghost queue0 = queue@;
            let ghost level0 = level;
            proof {
                lemma_distinct_below(found@, n as nat, source);
            }
            let head = queue.pop_front();
            match head {
                None => {
                    proof {
                        assert forall|v: usize|
                            v < seen@.len() && seen@[v as int] && depth[v as int] < bound
                                implies #[trigger] self.expanded(seen@, depth, v) by {
                            assert(!in_queue(queue0, v));
                        }
                    }
                    break ;
                },
                Some(entry) => {
                    let cur = entry.0;
                    let d = entry.1;
                    proof {
                        taken = taken + 1;
                        level = d as int;
                        assert(queue0[0] == entry);
                        assert forall|i: int| 0 <= i < queue@.len() implies queue@[i] == queue0[i
                            + 1] by {}
                    }
                    if d >= max_hops {
                        proof {
                            assert forall|v: usize|
                                v < seen@.len() && seen@[v as int] && depth[v as int] < bound
                                    implies #[trigger] self.expanded(seen@, depth, v) by {
                                if in_queue(queue0, v) {
                                    let i = choose|i: int|
                                        0 <= i < queue0.len() && (#[trigger] queue0[i]).0 == v;
                                    assert(queue0[0].1 <= queue0[i].1);
                                }
                            }
                        }
                        break ;
                    }
                    proof {
                        // The queue without its head is in order at the head's depth.
                        assert(queue_in_order(seen@, depth, queue@, level)) by {
                            assert forall|i: int| 0 <= i < queue@.len() implies {
                                &&& (#[trigger] queue@[i]).0 < seen@.len()
                                &&& seen@[queue@[i].0 as int]
                                &&& depth[queue@[i].0 as int] == queue@[i].1
                                &&& level <= queue@[i].1 <= level + 1
                            } by {
                                assert(queue@[i] == queue0[i + 1]);
                                assert(queue0[0].1 <= queue0[i + 1].1);
                            }
                            assert forall|i: int, j: int| 0 <= i < j < queue@.len() implies (
                            #[trigger] queue@[i]).1 <= (#[trigger] queue@[j]).1 && queue@[i].0
                                != queue@[j].0 by {
                                assert(queue@[i] == queue0[i + 1]);
                                assert(queue@[j] == queue0[j + 1]);
                            }
                        }
                        assert(!in_queue(queue@, cur)) by {
                            if in_queue(queue@, cur) {
                                let i = choose|i: int|
                                    0 <= i < queue@.len() && (#[trigger] queue@[i]).0 == cur;
                                assert(queue@[i] == queue0[i + 1]);
                                assert(queue0[0].0 != queue0[i + 1].0);
                            }
                        }
                        assert(self.settled(bound, seen@, depth, queue@, cur as int)) by {
                            assert forall|v: usize|
                                v < seen@.len() && seen@[v as int] && depth[v as int] < bound
                                    && !in_queue(queue@, v) && v != cur as int
                                    implies #[trigger] self.expanded(seen@, depth, v) by {
                                if in_queue(queue0, v) {
                                    let i = choose|i: int|
                                        0 <= i < queue0.len() && (#[trigger] queue0[i]).0 == v;
                                    assert(queue@[i - 1] == queue0[i]);
                                }
                            }
                        }
                    }
                    let nbrs = self.neighbors(cur);
                    let mut i: usize = 0;
                    while i < nbrs.len()
                        invariant
                            self.wf(),
                            n == self.size(),
                            bound == max_hops,
                            i <= nbrs.len(),
                            cur < n,
                            d < max_hops,
                            level == d,
                            seen@[cur as int],
                            depth[cur as int] == d,
                            !in_queue(queue@, cur),
                            forall|b: usize| nbrs@.contains(b) <==> self.adjacent(cur, b),
                            self.search_sound(source, bound, seen@, depth, found@),
                            queue_in_order(seen@, depth, queue@, level),
                            self.settled(bound, seen@, depth, queue@, cur as int),
                            taken + queue@.len() == found@.len() + 1,
                            forall|j: int|
                                0 <= j < i ==> (#[trigger] nbrs@[j]) < n && seen@[nbrs@[j] as int]
                                    && depth[nbrs@[j] as int] <= d + 1,
                        decreases nbrs.len() - i,
                    {
                        let w = nbrs[i];
                        proof {
                            assert(nbrs@.contains(w));
                            self.lemma_adjacent_nodes(cur, w);
                        }
                        if !seen[w] {
                            let ghost seen1 = seen@;
                            let ghost depth1 = depth;
                            let ghost queue1 = queue@;
                            let ghost found1 = found@;
                            seen.set(w, true);
                            found.push(w);
                            queue.push_back((w, d + 1));
                            proof {
                                depth = depth.update(w as int, d + 1);
                                assert(self.within(source, w, (d + 1) as nat));
                                assert forall|k: int| 0 <= k < queue1.len() implies queue@[k]
                                    == queue1[k] && queue1[k].0 != w by {}
                                assert(queue@[queue1.len() as int] == (w, (d + 1) as usize));
                                assert(in_queue(queue@, w));
                                assert forall|k: int| 0 <= k < found1.len() implies found@[k]
                                    == found1[k] && found1[k] != w by {}
                                assert(found@[found1.len() as int] == w);
                                assert(self.search_sound(source, bound, seen@, depth, found@)) by {
                                    assert forall|v: usize|
                                        v < self.size() && v != source && #[trigger] seen@[v as int]
                                            implies found@.contains(v) by {
                                        if v != w {
                                            assert(seen1[v as int]);
                                            let k = choose|k: int|
                                                0 <= k < found1.len() && found1[k] == v;
                                            assert(found@[k] == v);
                                        }
                                    }
                                    assert forall|v: usize|
                                        v < self.size() && #[trigger] seen@[v as int] implies 0
                                        <= depth[v as int] <= bound && self.within(
                                        source,
                                        v,
                                        depth[v as int] as nat,
                                    ) by {
                                        if v != w {
                                            assert(seen1[v as int]);
                                        }
                                    }
                                }
                                assert(queue_in_order(seen@, depth, queue@, level)) by {
                                    assert forall|v: int|
                                        0 <= v < seen@.len() && #[trigger] seen@[v] implies depth[v]
                                        <= level + 1 by {
                                        if v != w {
                                            assert(seen1[v]);
                                        }
                                    }
                                }
                                assert(self.settled(bound, seen@, depth, queue@, cur as int)) by {
                                    assert forall|v: usize|
                                        v < seen@.len() && seen@[v as int] && depth[v as int]
                                            < bound && !in_queue(queue@, v) && v != cur as int
                                            implies #[trigger] self.expanded(seen@, depth, v) by {
                                        assert(v != w);
                                        assert(seen1[v as int]);
                                        if in_queue(queue1, v) {
                                            let k = choose|k: int|
                                                0 <= k < queue1.len() && (#[trigger] queue1[k]).0
                                                    == v;
                                            assert(queue@[k].0 == v);
                                        }
                                        assert(self.expanded(seen1, depth1, v));
                                    }
                                }
                                assert(!in_queue(queue@, cur)) by {
                                    if in_queue(queue@, cur) {
                                        let k = choose|k: int|
                                            0 <= k < queue@.len() && (#[trigger] queue@[k]).0
                                                == cur;
                                        if k < queue1.len() {
                                            assert(queue1[k].0 == cur);
                                        }
                                    }
                                }
                            }
                        }
                        i += 1;
                    }
                    proof {
                        assert(self.expanded(seen@, depth, cur)) by {
                            assert forall|b: usize| #[trigger] self.adjacent(cur, b) implies b
                                < seen@.len() && seen@[b as int] && depth[b as int] <= depth[cur as int]
                                + 1 by {
                                assert(nbrs@.contains(b));
                                let j = choose|j: int| 0 <= j < nbrs@.len() && nbrs@[j] == b;
                                assert(seen@[nbrs@[j] as int]);
                            }
                        }
                    }
                },
            }
        }
        proof {
            assert forall|y: usize|
                found@.contains(y) <==> source < self.size() && y != source && self.within(
                    source,
                    y,
                    max_hops as nat,
                ) by {
                if found@.contains(y) {
                    let k = choose|k: int| 0 <= k < found@.len() && found@[k] == y;
                    assert(seen@[found@[k] as int]);
                    self.lemma_within_more(source, y, depth[y as int] as nat, bound);
                }
                if y != source && self.within(source, y, bound) {
                    self.lemma_search_complete(source, bound, seen@, depth, found@, y, bound);
                }
            }
        }
        found
    }

    /// Whether `row` lists, each once, the nodes other than `x` that `x`
    /// reaches over at most `k` links.
    pub open spec fn is_reach_of(&self, row: Seq<usize>, x: usize, k: nat) -> bool {
        &&& row.no_duplicates()
        &&& forall|y: usize| row.contains(y) <==> y != x && self.within(x, y, k)
    }

    /// The rows of two nodes agree on whether the two reach each other:
    /// `y` is in the row of `x` exactly if `x` is in the row of `y`.
    pub proof fn lemma_rows_symmetric(
        &self,
        row_x: Seq<usize>,
        row_y: Seq<usize>,
        x: usize,
        y: usize,
        k: nat,
    )
        requires
            self.is_reach_of(row_x, x, k),
            self.is_reach_of(row_y, y, k),
        ensures
            row_x.contains(y) == row_y.contains(x),
    {
        self.lemma_within_symmetric(x, y, k);
    }

    /// For every node, the other nodes that it reaches over at most
    /// `max_hops` links, each once: the row of node `x` stands at index `x`.
    pub fn compute_reachable_within(&self, max_hops: usize) -> (r: Vec<Vec<usize>>)
        ensures
            r@.len() == self.size(),
            forall|x: usize|
                x < self.size() ==> self.is_reach_of(#[trigger] r@[x as int]@, x, max_hops as nat),
    {
        let n = self.node_count();
        let mut r: Vec<Vec<usize>> = Vec::new();
        let mut x: usize = 0;
        while x < n
            invariant
                n == self.size(),
                x <= n,
                r@.len() == x,
                forall|v: usize|
                    v < x ==> self.is_reach_of(#[trigger] r@[v as int]@, v, max_hops as nat),
            decreases n - x,
        {
            let found = self.reachable_from(x, max_hops);
            let ghost before = r@;
            r.push(found);
            proof {
                assert forall|v: usize| v < x + 1 implies self.is_reach_of(
                    #[trigger] r@[v as int]@,
                    v,
                    max_hops as nat,
                ) by {
                    if v < x {
                        assert(r@[v as int] == before[v as int]);
                    }
                }
            }
            x += 1;
        }
        r
    }

    /// For every hero, the other heroes within six links: the row of node
    /// `x` stands at index `x`.
    pub fn compute_reachable_heroes(&self) -> (r: Vec<Vec<usize>>)
        ensures
            r@.len() == self.size(),
            forall|x: usize| x < self.size() ==> self.is_reach_of(#[trigger] r@[x as int]@, x, 6),
    {
        self.compute_reachable_within(6)
    }
}

} // verus!
