//! The mathematical reading of the input: which names there are, how often
//! each appears, and which of them share a comic.
//!
//! A comic is a sequence of names, a name a sequence of characters. Nothing
//! here is executable.

use vstd::prelude::*;
use vstd::relations::injective_on;
use vstd::set_lib::lemma_int_range;
use vstd::set_lib::lemma_map_size;
use vstd::set_lib::lemma_subset_equality;
use vstd::set_lib::set_int_range;

verus! {

pub type Name = Seq<char>;

/// The names of a member list.
pub open spec fn names_of(members: Seq<String>) -> Seq<Name> {
    members.map_values(|s: String| s@)
}

/// The member lists of the comics, keys dropped.
pub open spec fn comics_of(data: Seq<(String, Vec<String>)>) -> Seq<Seq<Name>> {
    data.map_values(|c: (String, Vec<String>)| names_of(c.1@))
}

/// `seen`, followed by the names of `members` that are new, each once, in
/// the order in which they first come.
pub open spec fn enroll(seen: Seq<Name>, members: Seq<Name>) -> Seq<Name>
    decreases members.len(),
{
    if members.len() == 0 {
        seen
    } else {
        let before = enroll(seen, members.drop_last());
        if before.contains(members.last()) {
            before
        } else {
            before.push(members.last())
        }
    }
}

/// Every name of every comic, once, in the order of first appearance.
pub open spec fn roster(comics: Seq<Seq<Name>>) -> Seq<Name>
    decreases comics.len(),
{
    if comics.len() == 0 {
        Seq::empty()
    } else {
        enroll(roster(comics.drop_last()), comics.last())
    }
}

/// Whether `x` is named in some comic.
pub open spec fn occurs(comics: Seq<Seq<Name>>, x: Name) -> bool {
    exists|c: int| 0 <= c < comics.len() && (#[trigger] comics[c]).contains(x)
}

/// In how many comics `x` is named. A comic that names it twice counts once.
pub open spec fn appearances(comics: Seq<Seq<Name>>, x: Name) -> nat
    decreases comics.len(),
{
    if comics.len() == 0 {
        0
    } else {
        appearances(comics.drop_last(), x) + if comics.last().contains(x) {
            1nat
        } else {
            0nat
        }
    }
}

/// Whether some comic names both `x` and `y`.
pub open spec fn share_comic(comics: Seq<Seq<Name>>, x: Name, y: Name) -> bool {
    exists|c: int|
        0 <= c < comics.len() && (#[trigger] comics[c]).contains(x) && comics[c].contains(y)
}

/// Enrolling keeps what was seen in place, adds exactly the names of the
/// members, and adds none twice.
pub proof fn lemma_enroll(seen: Seq<Name>, members: Seq<Name>)
    requires
        seen.no_duplicates(),
    ensures
        enroll(seen, members).no_duplicates(),
        seen.len() <= enroll(seen, members).len(),
        enroll(seen, members).subrange(0, seen.len() as int) == seen,
        forall|x: Name|
            enroll(seen, members).contains(x) <==> seen.contains(x) || members.contains(x),
    decreases members.len(),
{
    let out = enroll(seen, members);
    if members.len() == 0 {
        assert(out.subrange(0, seen.len() as int) =~= seen);
    } else {
        let init = members.drop_last();
        let last = members.last();
        let before = enroll(seen, init);
        lemma_enroll(seen, init);
        assert(out.subrange(0, seen.len() as int) =~= before.subrange(0, seen.len() as int));
        assert forall|x: Name| out.contains(x) <==> seen.contains(x) || members.contains(x) by {
            if members.contains(x) {
                let i = choose|i: int| 0 <= i < members.len() && members[i] == x;
                if i < init.len() {
                    assert(init[i] == x);
                    assert(init.contains(x));
                }
            }
            if init.contains(x) {
                let i = choose|i: int| 0 <= i < init.len() && init[i] == x;
                assert(members[i] == x);
            }
            assert(members[members.len() - 1] == last);
            if before.contains(x) {
                let i = choose|i: int| 0 <= i < before.len() && before[i] == x;
                if !before.contains(last) {
                    assert(out[i] == x);
                }
            }
            if !before.contains(last) {
                assert(out[before.len() as int] == last);
                if out.contains(x) {
                    let i = choose|i: int| 0 <= i < out.len() && out[i] == x;
                    if i < before.len() {
                        assert(before[i] == x);
                    }
                }
            }
        }
    }
}

/// The roster names nobody twice and names exactly those who occur.
pub proof fn lemma_roster(comics: Seq<Seq<Name>>)
    ensures
        roster(comics).no_duplicates(),
        forall|x: Name| roster(comics).contains(x) <==> occurs(comics, x),
    decreases comics.len(),
{
    if comics.len() > 0 {
        let init = comics.drop_last();
        lemma_roster(init);
        lemma_enroll(roster(init), comics.last());
        assert forall|x: Name| roster(comics).contains(x) <==> occurs(comics, x) by {
            if occurs(comics, x) {
                let c = choose|c: int| 0 <= c < comics.len() && (#[trigger] comics[c]).contains(x);
                if c < init.len() {
                    assert(init[c].contains(x));
                }
            }
            if occurs(init, x) {
                let c = choose|c: int| 0 <= c < init.len() && (#[trigger] init[c]).contains(x);
                assert(comics[c].contains(x));
            }
            if comics.last().contains(x) {
                assert(comics[comics.len() - 1].contains(x));
            }
        }
    }
}

/// A name appears in no more comics than there are, and in at least one
/// exactly if it occurs.
pub proof fn lemma_appearances(comics: Seq<Seq<Name>>, x: Name)
    ensures
        appearances(comics, x) <= comics.len(),
        appearances(comics, x) > 0 <==> occurs(comics, x),
    decreases comics.len(),
{
    if comics.len() > 0 {
        let init = comics.drop_last();
        lemma_appearances(init, x);
        if occurs(comics, x) {
            let c = choose|c: int| 0 <= c < comics.len() && (#[trigger] comics[c]).contains(x);
            if c < init.len() {
                assert(init[c].contains(x));
            }
        }
        if occurs(init, x) {
            let c = choose|c: int| 0 <= c < init.len() && (#[trigger] init[c]).contains(x);
            assert(comics[c].contains(x));
        }
        if comics.last().contains(x) {
            assert(comics[comics.len() - 1].contains(x));
        }
    }
}

/// One more comic adds the pairs that it names itself to those that share
/// a comic.
pub proof fn lemma_share_push(comics: Seq<Seq<Name>>, m: Seq<Name>, x: Name, y: Name)
    ensures
        share_comic(comics.push(m), x, y) <==> share_comic(comics, x, y) || (m.contains(x)
            && m.contains(y)),
{
    let more = comics.push(m);
    if share_comic(comics, x, y) {
        let c = choose|c: int|
            0 <= c < comics.len() && (#[trigger] comics[c]).contains(x) && comics[c].contains(y);
        assert(more[c] == comics[c]);
    }
    if m.contains(x) && m.contains(y) {
        assert(more[comics.len() as int] == m);
    }
    if share_comic(more, x, y) {
        let c = choose|c: int|
            0 <= c < more.len() && (#[trigger] more[c]).contains(x) && more[c].contains(y);
        if c < comics.len() {
            assert(comics[c] == more[c]);
        }
    }
}

/// Two names that share a comic both occur.
pub proof fn lemma_share_occurs(comics: Seq<Seq<Name>>, x: Name, y: Name)
    requires
        share_comic(comics, x, y),
    ensures
        occurs(comics, x),
        occurs(comics, y),
{
}

/// Whether `b` holds the comics of `a` in another order, comic `i` of `b`
/// being comic `p[i]` of `a`, each with the same members, in whatever order
/// and however often it names them.
pub open spec fn rearranged(a: Seq<Seq<Name>>, b: Seq<Seq<Name>>, p: Seq<int>) -> bool {
    &&& a.len() == b.len()
    &&& a.len() == p.len()
    &&& p.no_duplicates()
    &&& forall|i: int| 0 <= i < p.len() ==> 0 <= #[trigger] p[i] < a.len()
    &&& forall|i: int| 0 <= i < b.len() ==> (#[trigger] b[i]).to_set() == a[p[i]].to_set()
}

/// The comics that name `x`, by position.
pub open spec fn hits(comics: Seq<Seq<Name>>, x: Name) -> Set<int> {
    Set::new(|i: int| 0 <= i < comics.len() && comics[i].contains(x))
}

/// The appearances of a name are the comics that name it, counted.
pub proof fn lemma_hits(comics: Seq<Seq<Name>>, x: Name)
    ensures
        hits(comics, x).finite(),
        hits(comics, x).len() == appearances(comics, x),
    decreases comics.len(),
{
    if comics.len() == 0 {
        assert(hits(comics, x) =~= Set::<int>::empty());
    } else {
        let init = comics.drop_last();
        lemma_hits(init, x);
        let last = comics.len() - 1;
        if comics.last().contains(x) {
            assert(hits(comics, x) =~= hits(init, x).insert(last));
        } else {
            assert(hits(comics, x) =~= hits(init, x));
        }
    }
}

/// A rearrangement takes every position: each comic of `a` is some comic
/// of `b`.
pub proof fn lemma_rearranged_onto(a: Seq<Seq<Name>>, b: Seq<Seq<Name>>, p: Seq<int>, j: int)
    requires
        rearranged(a, b, p),
        0 <= j < a.len(),
    ensures
        exists|i: int| 0 <= i < p.len() && p[i] == j,
{
    let n = a.len() as int;
    lemma_int_range(0, n);
    p.unique_seq_to_set();
    vstd::seq_lib::seq_to_set_is_finite(p);
    assert(p.to_set().subset_of(set_int_range(0, n))) by {
        assert forall|v: int| p.to_set().contains(v) implies set_int_range(0, n).contains(v) by {
            let i = choose|i: int| 0 <= i < p.len() && p[i] == v;
        }
    }
    lemma_subset_equality(p.to_set(), set_int_range(0, n));
    assert(set_int_range(0, n).contains(j));
    assert(p.to_set().contains(j));
}

/// What is said of names does not depend on the order of the comics, nor on
/// the order of the members of a comic, nor on how often a comic names a
/// member: who occurs, how often each appears, and who shares a comic with
/// whom.
pub proof fn lemma_rearranged(a: Seq<Seq<Name>>, b: Seq<Seq<Name>>, p: Seq<int>, x: Name, y: Name)
    requires
        rearranged(a, b, p),
    ensures
        occurs(a, x) == occurs(b, x),
        appearances(a, x) == appearances(b, x),
        share_comic(a, x, y) == share_comic(b, x, y),
{
    assert forall|i: int, z: Name| 0 <= i < b.len() implies (#[trigger] b[i].contains(z))
        == a[p[i]].contains(z) by {
        assert(b[i].to_set().contains(z) == a[p[i]].to_set().contains(z));
    }
    if occurs(a, x) {
        let j = choose|j: int| 0 <= j < a.len() && (#[trigger] a[j]).contains(x);
        lemma_rearranged_onto(a, b, p, j);
        let i = choose|i: int| 0 <= i < p.len() && p[i] == j;
        assert(b[i].contains(x));
    }
    if occurs(b, x) {
        let i = choose|i: int| 0 <= i < b.len() && (#[trigger] b[i]).contains(x);
        assert(b[i].contains(x));
        assert(a[p[i]].contains(x));
    }
    if share_comic(a, x, y) {
        let j = choose|j: int|
            0 <= j < a.len() && (#[trigger] a[j]).contains(x) && a[j].contains(y);
        lemma_rearranged_onto(a, b, p, j);
        let i = choose|i: int| 0 <= i < p.len() && p[i] == j;
        assert(b[i].contains(x) && b[i].contains(y));
    }
    if share_comic(b, x, y) {
        let i = choose|i: int|
            0 <= i < b.len() && (#[trigger] b[i]).contains(x) && b[i].contains(y);
        assert(b[i].contains(x) && b[i].contains(y));
        assert(a[p[i]].contains(x) && a[p[i]].contains(y));
    }
    lemma_hits(a, x);
    lemma_hits(b, x);
    let f = |i: int|
        if 0 <= i < p.len() {
            p[i]
        } else {
            i
        };
    assert(injective_on(f, hits(b, x)));
    assert forall|j: int| hits(b, x).map(f).contains(j) <==> hits(a, x).contains(j) by {
        if hits(b, x).map(f).contains(j) {
            let i = choose|i: int| hits(b, x).contains(i) && j == f(i);
            assert(b[i].contains(x));
        }
        if hits(a, x).contains(j) {
            lemma_rearranged_onto(a, b, p, j);
            let i = choose|i: int| 0 <= i < p.len() && p[i] == j;
            assert(b[i].contains(x) == a[p[i]].contains(x));
            assert(hits(b, x).contains(i) && j == f(i));
        }
    }
    assert(hits(b, x).map(f) =~= hits(a, x));
    lemma_map_size(hits(b, x), hits(a, x), f);
}

} // verus!
