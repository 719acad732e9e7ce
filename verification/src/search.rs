//! Steps of the depth-first searches over attribute sets: the children of a
//! node of the search, and the attributes with the fewest values.
use vstd::prelude::*;
use vstd::multiset::Multiset;
use std::collections::BTreeSet;

use crate::varset::{copy_set, ordered_atts};

verus! {

/// The children of the search node `cur`, whose attributes still to add are
/// `to_add`: the `i`-th child adds `to_add[i]` to `cur`, and may add only
/// those before it, `to_add[..i]`.
pub fn expand(cur: &BTreeSet<usize>, to_add: &Vec<usize>) -> (children: Vec<(BTreeSet<usize>, Vec<usize>)>)
    ensures
        children.len() == to_add.len(),
        forall|i: int|
            0 <= i < to_add.len() ==> (#[trigger] children@[i]).0@ == cur@.insert(to_add@[i])
                && children@[i].1@ == to_add@.take(i),
{
    broadcast use vstd::std_specs::btree::group_btree_axioms;

    let mut children: Vec<(BTreeSet<usize>, Vec<usize>)> = Vec::new();
    let mut prefix: Vec<usize> = Vec::new();
    let mut i: usize = 0;
    while i < to_add.len()
        invariant
            i <= to_add.len(),
            children.len() == i,
            prefix@ == to_add@.take(i as int),
            forall|j: int|
                0 <= j < i ==> (#[trigger] children@[j]).0@ == cur@.insert(to_add@[j])
                    && children@[j].1@ == to_add@.take(j),
        decreases to_add.len() - i,
    {
        let mut next = copy_set(cur);
        next.insert(to_add[i]);
        let rest = prefix.clone();
        children.push((next, rest));
        prefix.push(to_add[i]);
        proof {
            assert(to_add@.take(i + 1) == to_add@.take(i as int).push(to_add@[i as int]));
        }
        i = i + 1;
    }
    children
}

/// The nodes that the search reaches from the node `cur` with the
/// attributes `to_add` still to add, `cur` itself included: each node as
/// often as the search reaches it, the children being those that `expand`
/// lists.
pub open spec fn subtree(cur: Set<usize>, to_add: Seq<usize>) -> Multiset<Set<usize>>
    decreases to_add.len(), to_add.len() + 1,
{
    Multiset::singleton(cur).add(children_subtrees(cur, to_add, to_add.len() as int))
}

/// The nodes that the search reaches from the first `k` children of `cur`.
pub open spec fn children_subtrees(cur: Set<usize>, to_add: Seq<usize>, k: int) -> Multiset<Set<usize>>
    decreases to_add.len(), k,
{
    if k <= 0 || k > to_add.len() {
        Multiset::empty()
    } else {
        children_subtrees(cur, to_add, k - 1).add(subtree(cur.insert(to_add[k - 1]), to_add.take(k - 1)))
    }
}

proof fn lemma_children_subtrees(cur: Set<usize>, to_add: Seq<usize>, k: int, x: Set<usize>)
    requires
        to_add.no_duplicates(),
        forall|i: int| 0 <= i < to_add.len() ==> !cur.contains(#[trigger] to_add[i]),
        0 <= k <= to_add.len(),
    ensures
        children_subtrees(cur, to_add, k).count(x) == if cur.subset_of(x) && x != cur && x.subset_of(
            cur.union(to_add.take(k).to_set()),
        ) {
            1nat
        } else {
            0nat
        },
    decreases to_add.len(), k,
{
    broadcast use vstd::multiset::group_multiset_axioms;

    if k == 0 {
        assert(to_add.take(0).to_set() =~= Set::<usize>::empty());
        if cur.subset_of(x) && x.subset_of(cur.union(Set::<usize>::empty())) {
            assert(x =~= cur);
        }
    } else {
        let y = to_add[k - 1];
        let pre = to_add.take(k - 1);
        lemma_children_subtrees(cur, to_add, k - 1, x);
        assert(pre.no_duplicates());
        assert forall|i: int| 0 <= i < pre.len() implies !cur.insert(y).contains(#[trigger] pre[i]) by {
            assert(pre[i] == to_add[i]);
        }
        law_search_visits_each_subset_once(cur.insert(y), pre, x);
        assert(to_add.take(k) == pre.push(y));
        pre.lemma_push_to_set_commute(y);
        assert(!pre.to_set().contains(y)) by {
            if pre.to_set().contains(y) {
                let i = choose|i: int| 0 <= i < pre.len() && pre[i] == y;
                assert(to_add[i] == to_add[k - 1]);
            }
        }
        assert(!cur.contains(y));
        let u = cur.union(pre.to_set());
        let u2 = cur.union(to_add.take(k).to_set());
        assert(u2 =~= u.insert(y));
        assert(cur.insert(y).union(pre.to_set()) =~= u.insert(y));
        if x.contains(y) {
            assert(!x.subset_of(u));
            assert(x != cur);
            if cur.subset_of(x) {
                assert(cur.insert(y).subset_of(x));
            }
        } else {
            assert(!cur.insert(y).subset_of(x));
            if x.subset_of(u2) {
                assert(x.subset_of(u));
            }
        }
    }
}

/// The search from `cur` reaches each node `cur ∪ s`, for `s` a set of the
/// attributes to add, exactly once, and no other node.
pub proof fn law_search_visits_each_subset_once(cur: Set<usize>, to_add: Seq<usize>, x: Set<usize>)
    requires
        to_add.no_duplicates(),
        forall|i: int| 0 <= i < to_add.len() ==> !cur.contains(#[trigger] to_add[i]),
    ensures
        subtree(cur, to_add).count(x) == if cur.subset_of(x) && x.subset_of(cur.union(to_add.to_set())) {
            1nat
        } else {
            0nat
        },
    decreases to_add.len(), to_add.len() + 1,
{
    broadcast use vstd::multiset::group_multiset_axioms;

    lemma_children_subtrees(cur, to_add, to_add.len() as int, x);
    assert(to_add.take(to_add.len() as int) == to_add);
}

/// `x` comes before `y` when it has fewer values, or as many and a smaller
/// index.
pub open spec fn fewer_values(nvals: Seq<usize>, x: usize, y: usize) -> bool {
    nvals[x as int] < nvals[y as int] || (nvals[x as int] == nvals[y as int] && x < y)
}

/// The `k` attributes of `atts` with the fewest values (all of them when
/// there are fewer than `k`), ties going to the smaller index.
pub fn fewest_values(nvals: &Vec<usize>, atts: &BTreeSet<usize>, k: usize) -> (r: BTreeSet<usize>)
    requires
        forall|a: usize| #[trigger] atts@.contains(a) ==> a < nvals.len(),
    ensures
        r@.subset_of(atts@),
        r@.finite(),
        r@.len() == if k < atts@.len() { k as nat } else { atts@.len() },
        forall|x: usize, y: usize|
            #[trigger] r@.contains(x) && #[trigger] atts@.contains(y) && !r@.contains(y) ==> fewer_values(
                nvals@,
                x,
                y,
            ),
{
    broadcast use vstd::std_specs::btree::group_btree_axioms, vstd::set_lib::group_set_properties;

    let order = ordered_atts(atts);
    let ghost s = order@;
    proof {
        s.unique_seq_to_set();
    }
    let mut r: BTreeSet<usize> = BTreeSet::new();
    let mut taken: usize = 0;
    while taken < k && taken < order.len()
        invariant
            s == order@,
            s.to_set() == atts@,
            s.no_duplicates(),
            s.len() == atts@.len(),
            forall|i: int| 0 <= i < s.len() ==> atts@.contains(#[trigger] s[i]),
            forall|a: usize| #[trigger] atts@.contains(a) ==> a < nvals.len(),
            r@.subset_of(atts@),
            r@.finite(),
            r@.len() == taken,
            taken <= s.len(),
            taken <= k,
            forall|x: usize, y: usize|
                #[trigger] r@.contains(x) && #[trigger] atts@.contains(y) && !r@.contains(y) ==> fewer_values(
                    nvals@,
                    x,
                    y,
                ),
        decreases s.len() - taken,
    {
        // the attribute not yet taken that comes first
        let mut best: usize = 0;
        let mut found: bool = false;
        let mut j: usize = 0;
        proof {
            if r@ == atts@ {
                assert(r@.len() == atts@.len());
            }
            assert(r@ != atts@);
        }
        while j < order.len()
            invariant
                s == order@,
                forall|i: int| 0 <= i < s.len() ==> atts@.contains(#[trigger] s[i]),
                forall|a: usize| #[trigger] atts@.contains(a) ==> a < nvals.len(),
                j <= s.len(),
                found ==> atts@.contains(best) && !r@.contains(best),
                found ==> forall|i: int|
                    0 <= i < j && !r@.contains(#[trigger] s[i]) ==> s[i] == best || fewer_values(nvals@, best, s[i]),
                !found ==> forall|i: int| 0 <= i < j ==> r@.contains(#[trigger] s[i]),
            decreases s.len() - j,
        {
            let a = order[j];
            proof {
                assert(atts@.contains(s[j as int]));
            }
            if !r.contains(&a) {
                if !found || nvals[a] < nvals[best] || (nvals[a] == nvals[best] && a < best) {
                    best = a;
                    found = true;
                }
            }
            j = j + 1;
        }
        proof {
            if !found {
                assert forall|a: usize| atts@.contains(a) implies r@.contains(a) by {
                    let i = choose|i: int| 0 <= i < s.len() && s[i] == a;
                    assert(r@.contains(s[i]));
                }
                assert(r@ =~= atts@);
            }
        }
        let ghost old_r = r@;
        r.insert(best);
        proof {
            assert forall|x: usize, y: usize|
                #[trigger] r@.contains(x) && #[trigger] atts@.contains(y) && !r@.contains(y) implies fewer_values(
                nvals@,
                x,
                y,
            ) by {
                let i = choose|i: int| 0 <= i < s.len() && s[i] == y;
                assert(!old_r.contains(s[i]));
                if x != best {
                    assert(old_r.contains(x));
                }
            }
        }
        taken = taken + 1;
    }
    r
}

} // verus!
