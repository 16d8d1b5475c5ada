//! Statistics over the hero graph: who appears most, how many links a hero
//! has on average, and each hero's share of the links they could have.

use crate::graph::Hero;
use crate::graph::MarvelGraph;
use crate::links::ends_sum;
use crate::links::lemma_far_ends_bound;
use crate::links::lemma_handshake;
use vstd::prelude::*;

verus! {

/// The fraction `num / den`, exact. The denominator is never zero in a
/// ratio that this library returns.
#[derive(Clone, Copy, Debug, PartialEq, Eq, Structural)]
pub struct Ratio {
    pub num: u128,
    pub den: u128,
}

impl MarvelGraph {
    /// Whether node `k` has the most appearances, and is the first node
    /// that has so many.
    pub open spec fn is_top(&self, k: int) -> bool {
        &&& 0 <= k < self.size()
        &&& forall|i: int| 0 <= i < self.size() ==> self.counts()[i] <= self.counts()[k]
        &&& forall|i: int| 0 <= i < k ==> self.counts()[i] < self.counts()[k]
    }

    /// The degrees of the nodes below `upto`, added up.
    pub open spec fn degree_sum(&self, upto: nat) -> nat
        decreases upto,
    {
        if upto == 0 {
            0
        } else {
            self.degree_sum((upto - 1) as nat) + self.degree((upto - 1) as usize)
        }
    }

    /// The centrality of node `a`: its degree over the number of other
    /// nodes. In a graph of one node, which has no other, it is zero.
    pub open spec fn centrality(&self, a: usize) -> Ratio {
        if self.size() <= 1 {
            Ratio { num: 0, den: 1 }
        } else {
            Ratio { num: self.degree(a) as u128, den: (self.size() - 1) as u128 }
        }
    }

    /// A node is linked to fewer nodes than there are.
    pub proof fn lemma_degree_bound(&self, a: usize)
        requires
            self.wf(),
            a < self.size(),
        ensures
            self.degree(a) < self.size(),
    {
        self.lemma_degree(a);
        lemma_far_ends_bound(self.links(), self.size(), a);
    }

    /// The degrees of all nodes add up to twice the number of links.
    pub proof fn lemma_degree_sum(&self)
        requires
            self.wf(),
        ensures
            self.degree_sum(self.size()) == 2 * self.links().len(),
    {
        self.lemma_degree_sum_upto(self.size());
        lemma_handshake(self.links(), self.size());
    }

    /// The degrees are the numbers of far ends, node by node.
    pub proof fn lemma_degree_sum_upto(&self, upto: nat)
        requires
            self.wf(),
            upto <= self.size(),
        ensures
            self.degree_sum(upto) == ends_sum(self.links(), upto),
        decreases upto,
    {
        if upto > 0 {
            self.lemma_degree_sum_upto((upto - 1) as nat);
            self.lemma_degree((upto - 1) as usize);
        }
    }

    /// Centrality lies between zero and one: its numerator is at most its
    /// denominator, which is positive.
    pub proof fn lemma_centrality_bound(&self, a: usize)
        requires
            self.wf(),
            a < self.size(),
        ensures
            self.centrality(a).den >= 1,
            self.centrality(a).num <= self.centrality(a).den,
    {
        self.lemma_degree_bound(a);
    }

    /// The hero who appears in the most comics, with that number. Among
    /// heroes who appear equally often the one whose name came first in the
    /// input is returned. An empty graph gives a hero without name and
    /// without appearances.
    pub fn most_connected_hero(&self) -> (r: Hero)
        ensures
            self.size() == 0 ==> r.name@ == Seq::<char>::empty() && r.comics == 0,
            self.size() > 0 ==> exists|k: int|
                self.is_top(k) && r.name@ == self.names()[k] && r.comics == self.counts()[k],
    {
        let n = self.node_count();
        let mut max_comics: usize = 0;
        let mut most = Hero::new(String::new());
        let ghost mut top: int = 0;
        let mut i: usize = 0;
        while i < n
            invariant
                n == self.size(),
                i <= n,
                most.comics == max_comics,
                i == 0 ==> max_comics == 0 && most.name@ == Seq::<char>::empty(),
                i > 0 ==> {
                    &&& 0 <= top < i
                    &&& most.name@ == self.names()[top]
                    &&& max_comics == self.counts()[top]
                    &&& forall|j: int| 0 <= j < i ==> self.counts()[j] <= self.counts()[top]
                    &&& forall|j: int| 0 <= j < top ==> self.counts()[j] < self.counts()[top]
                },
            decreases n - i,
        {
            let comics = self.count_at(i);
            if comics > max_comics {
                max_comics = comics;
                most = Hero::new(self.name_at(i).clone());
                most.comics = comics;
                proof {
                    top = i as int;
                }
            }
            i += 1;
        }
        proof {
            if n > 0 {
                assert(self.is_top(top));
            }
        }
        most
    }

    /// The mean number of links of a hero: the degrees added up, over the
    /// number of heroes. An empty graph gives zero, as `0 / 1`.
    pub fn average_connections(&self) -> (r: Ratio)
        ensures
            self.size() == 0 ==> r == (Ratio { num: 0, den: 1 }),
            self.size() > 0 ==> r.num == self.degree_sum(self.size()) && r.den == self.size(),
            self.size() > 0 ==> r.num == 2 * self.links().len(),
    {
        proof {
            use_type_invariant(self);
            self.lemma_degree_sum();
        }
        let n = self.node_count();
        let mut total: u128 = 0;
        let mut i: usize = 0;
        while i < n
            invariant
                n == self.size(),
                i <= n,
                total == self.degree_sum(i as nat),
                total <= i * 0x1_0000_0000_0000_0000,
            decreases n - i,
        {
            let degree = self.neighbors(i).len();
            total = total + degree as u128;
            i += 1;
        }
        if n > 0 {
            Ratio { num: total, den: n as u128 }
        } else {
            Ratio { num: 0, den: 1 }
        }
    }

    /// Each hero's name with their centrality, by node.
    pub fn compute_centrality(&self) -> (r: Vec<(String, Ratio)>)
        ensures
            r@.len() == self.size(),
            forall|a: usize|
                a < self.size() ==> {
                    &&& (#[trigger] r@[a as int]).0@ == self.names()[a as int]
                    &&& r@[a as int].1 == self.centrality(a)
                    &&& 1 <= r@[a as int].1.den
                    &&& r@[a as int].1.num <= r@[a as int].1.den
                },
    {
        proof {
            use_type_invariant(self);
        }
        let n = self.node_count();
        let mut r: Vec<(String, Ratio)> = Vec::new();
        let mut i: usize = 0;
        while i < n
            invariant
                self.wf(),
                n == self.size(),
                i <= n,
                r@.len() == i,
                forall|a: usize|
                    a < i ==> {
                        &&& (#[trigger] r@[a as int]).0@ == self.names()[a as int]
                        &&& r@[a as int].1 == self.centrality(a)
                        &&& 1 <= r@[a as int].1.den
                        &&& r@[a as int].1.num <= r@[a as int].1.den
                    },
            decreases n - i,
        {
            let share = if n > 1 {
                let degree = self.neighbors(i).len();
                Ratio { num: degree as u128, den: (n - 1) as u128 }
            } else {
                Ratio { num: 0, den: 1 }
            };
            proof {
                self.lemma_centrality_bound(i);
            }
            let ghost before = r@;
            r.push((self.name_at(i).clone(), share));
            proof {
                assert forall|a: usize| a < i implies r@[a as int] == before[a as int] by {}
            }
            i += 1;
        }
        r
    }
}

} // verus!
