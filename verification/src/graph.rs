//! The hero graph: its nodes, their appearance counts and the links
//! between them, with lookups that read it.

use crate::builder::build_store;
use crate::links::lemma_far_ends_joined;
use crate::links::lemma_far_ends_simple;
use crate::links::lemma_link_pairs;
use crate::links::link_pairs;
use crate::links::simple;
use crate::model::Name;
use crate::model::appearances;
use crate::model::comics_of;
use crate::model::lemma_appearances;
use crate::model::lemma_roster;
use crate::model::names_of;
use crate::model::roster;
use crate::model::share_comic;
use crate::store::far_ends;
use crate::store::graph_edge_count;
use crate::store::graph_edges;
use crate::store::graph_neighbors;
use crate::store::graph_node_count;
use crate::store::graph_weight;
use crate::store::graph_weights;
use crate::store::joined;
use petgraph::Undirected;
use petgraph::graph::Graph;
use vstd::prelude::*;

verus! {

/// A hero and the number of comics that name them.
#[derive(Debug)]
pub struct Hero {
    pub name: String,
    pub comics: usize,
}

impl Hero {
    /// A hero of that name who has appeared nowhere yet.
    pub fn new(name: String) -> (h: Hero)
        ensures
            h.name == name,
            h.comics == 0,
    {
        Hero { name, comics: 0 }
    }
}

/// An undirected graph of heroes. Nodes are numbered from zero in the order
/// in which their names first came; the weight of a node is the number of
/// comics that name its hero.
pub struct MarvelGraph {
    pub(crate) graph: Graph<usize, (), Undirected, usize>,
    pub(crate) names: Vec<String>,
}

/// The position of `name` among `names`, if it is there.
pub(crate) fn find_name(names: &Vec<String>, name: &String) -> (r: Option<usize>)
    ensures
        match r {
            Some(i) => i < names.len() && names_of(names@)[i as int] == name@,
            None => !names_of(names@).contains(name@),
        },
{
    let mut i: usize = 0;
    while i < names.len()
        invariant
            i <= names.len(),
            forall|k: int| 0 <= k < i ==> names_of(names@)[k] != name@,
        decreases names.len() - i,
    {
        if names[i] == *name {
            return Some(i);
        }
        i += 1;
    }
    None
}

impl MarvelGraph {
    /// The names of the heroes, by node.
    pub closed spec fn names(&self) -> Seq<Name> {
        names_of(self.names@)
    }

    /// The appearance counts of the heroes, by node.
    pub closed spec fn counts(&self) -> Seq<usize> {
        graph_weights(self.graph)
    }

    /// The links, each as the pair of nodes it joins.
    pub closed spec fn links(&self) -> Seq<(usize, usize)> {
        graph_edges(self.graph)
    }

    /// The number of heroes.
    pub open spec fn size(&self) -> nat {
        self.names().len()
    }

    /// What holds of every hero graph: each node has one name and one
    /// count, no name stands twice, every hero appears somewhere, and the
    /// links form a simple graph.
    #[verifier::type_invariant]
    pub open spec fn wf(&self) -> bool {
        &&& self.counts().len() == self.names().len()
        &&& self.size() <= usize::MAX
        &&& self.names().no_duplicates()
        &&& forall|i: int| 0 <= i < self.counts().len() ==> #[trigger] self.counts()[i] >= 1
        &&& simple(self.links(), self.size())
    }

    /// Whether this is the graph of `comics`: its heroes are the names
    /// that occur, in the order of their first appearance; each is counted
    /// once for every comic that names them; and two different heroes are
    /// linked exactly if some comic names both.
    pub open spec fn represents(&self, comics: Seq<Seq<Name>>) -> bool {
        &&& self.wf()
        &&& self.names() == roster(comics)
        &&& forall|i: int|
            0 <= i < self.size() ==> #[trigger] self.counts()[i] == appearances(
                comics,
                self.names()[i],
            )
        &&& forall|a: usize, b: usize|
            a < self.size() && b < self.size() ==> (#[trigger] self.adjacent(a, b) <==> a != b
                && share_comic(comics, self.names()[a as int], self.names()[b as int]))
    }

    /// Whether a link joins nodes `a` and `b`.
    pub open spec fn adjacent(&self, a: usize, b: usize) -> bool {
        joined(self.links(), a, b)
    }

    /// The nodes linked to `a`.
    pub open spec fn neighbor_set(&self, a: usize) -> Set<usize> {
        Set::new(|b: usize| self.adjacent(a, b))
    }

    /// The number of nodes linked to `a`.
    pub open spec fn degree(&self, a: usize) -> nat {
        self.neighbor_set(a).len()
    }

    /// The pairs of nodes that are linked, each pair once, smaller node
    /// first.
    pub open spec fn linked_pairs(&self) -> Set<(usize, usize)> {
        Set::new(|p: (usize, usize)| p.0 < p.1 && self.adjacent(p.0, p.1))
    }

    /// There are as many links as pairs of nodes that are linked: no pair
    /// is linked twice.
    pub proof fn lemma_linked_pairs(&self)
        requires
            self.wf(),
        ensures
            self.linked_pairs().finite(),
            self.linked_pairs().len() == self.links().len(),
    {
        lemma_link_pairs(self.links(), self.size());
        assert(self.linked_pairs() =~= link_pairs(self.links()));
    }

    /// The neighbours of a node are finitely many, and as many as it has
    /// links.
    pub proof fn lemma_degree(&self, a: usize)
        requires
            self.wf(),
        ensures
            self.neighbor_set(a).finite(),
            self.neighbor_set(a) == far_ends(self.links(), a).to_set(),
            self.degree(a) == far_ends(self.links(), a).len(),
    {
        let ends = far_ends(self.links(), a);
        lemma_far_ends_joined(self.links(), a);
        lemma_far_ends_simple(self.links(), self.size(), a);
        assert(self.neighbor_set(a) =~= ends.to_set());
        ends.unique_seq_to_set();
        vstd::seq_lib::seq_to_set_is_finite(ends);
    }

    /// Builds the graph of the comics in `data`, each given as its key and
    /// the names of its members. The heroes are the names that occur, in the
    /// order of their first appearance; each is counted once per comic that
    /// names them; two different heroes are linked exactly if some comic
    /// names both. The keys are not read: every entry is a comic of its own.
    pub fn from_comics_data(data: Vec<(String, Vec<String>)>) -> (g: MarvelGraph)
        ensures
            g.represents(comics_of(data@)),
    {
        let (graph, names) = build_store(&data);
        proof {
            let comics = comics_of(data@);
            let nv = names_of(names@);
            assert(names.len() <= usize::MAX);
            lemma_roster(comics);
            assert forall|i: int| 0 <= i < nv.len() implies #[trigger] graph_weights(graph)[i]
                >= 1 by {
                assert(nv.contains(nv[i]));
                lemma_appearances(comics, nv[i]);
            }
        }
        MarvelGraph { graph, names }
    }

    /// The number of heroes.
    pub fn node_count(&self) -> (n: usize)
        ensures
            n == self.size(),
    {
        proof {
            use_type_invariant(self);
        }
        graph_node_count(&self.graph)
    }

    /// The number of links: of pairs of heroes who are linked.
    pub fn edge_count(&self) -> (m: usize)
        ensures
            m == self.links().len(),
            m == self.linked_pairs().len(),
    {
        proof {
            use_type_invariant(self);
            self.lemma_linked_pairs();
        }
        graph_edge_count(&self.graph)
    }

    /// The node of the hero called `hero_name`, if there is one.
    pub fn get_hero_index(&self, hero_name: &str) -> (r: Option<usize>)
        ensures
            match r {
                Some(i) => i < self.size() && self.names()[i as int] == hero_name@,
                None => !self.names().contains(hero_name@),
            },
    {
        let wanted = hero_name.to_owned();
        find_name(&self.names, &wanted)
    }

    /// The hero at node `index`, if there is such a node.
    pub fn hero(&self, index: usize) -> (r: Option<Hero>)
        ensures
            r.is_some() <==> index < self.size(),
            r matches Some(h) ==> h.name@ == self.names()[index as int] && h.comics
                == self.counts()[index as int],
    {
        proof {
            use_type_invariant(self);
        }
        if index < self.names.len() {
            Some(Hero { name: self.names[index].clone(), comics: graph_weight(&self.graph, index) })
        } else {
            None
        }
    }

    /// The appearance count of node `index`.
    pub(crate) fn count_at(&self, index: usize) -> (c: usize)
        requires
            index < self.size(),
        ensures
            c == self.counts()[index as int],
            c >= 1,
    {
        proof {
            use_type_invariant(self);
        }
        graph_weight(&self.graph, index)
    }

    /// The name of node `index`.
    pub(crate) fn name_at(&self, index: usize) -> (name: &String)
        requires
            index < self.size(),
        ensures
            name@ == self.names()[index as int],
    {
        &self.names[index]
    }

    /// The nodes linked to `a`, each once. A number that names no node has
    /// no neighbours.
    pub fn neighbors(&self, a: usize) -> (r: Vec<usize>)
        ensures
            r@.no_duplicates(),
            forall|b: usize| r@.contains(b) <==> self.adjacent(a, b),
            r@.len() == self.degree(a),
    {
        let r = graph_neighbors(&self.graph, a);
        proof {
            use_type_invariant(self);
            self.lemma_degree(a);
            let ends = far_ends(self.links(), a);
            lemma_far_ends_joined(self.links(), a);
            lemma_far_ends_simple(self.links(), self.size(), a);
            ends.lemma_multiset_has_no_duplicates();
            r@.lemma_multiset_has_no_duplicates_conv();
            r@.to_multiset_ensures();
            ends.to_multiset_ensures();
            assert forall|b: usize| r@.contains(b) <==> self.adjacent(a, b) by {
                assert(r@.contains(b) <==> r@.to_multiset().count(b) > 0);
                assert(ends.contains(b) <==> ends.to_multiset().count(b) > 0);
            }
        }
        r
    }
}

} // verus!
