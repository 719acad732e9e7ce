//! Attribute sets: a `BTreeSet<usize>` of attribute indices, and the strictly
//! increasing sequence in which such a set lists its members.
use vstd::prelude::*;
use std::collections::BTreeSet;
use vstd::std_specs::iter::IteratorSpec;

verus! {

/// `s` lists distinct attributes in increasing order.
pub open spec fn is_var_order(s: Seq<usize>) -> bool {
    forall|i: int, j: int| 0 <= i < j < s.len() ==> s[i] < s[j]
}

/// The members of the finite set `s` in increasing order.
pub open spec fn var_seq(s: Set<usize>) -> Seq<usize> {
    choose|v: Seq<usize>| is_var_order(v) && v.to_set() == s
}

proof fn lemma_var_order_drop_last(a: Seq<usize>)
    requires
        is_var_order(a),
        a.len() > 0,
    ensures
        is_var_order(a.drop_last()),
        a.drop_last().to_set() == a.to_set().remove(a.last()),
        forall|x: usize| a.to_set().contains(x) ==> x <= a.last(),
{
    let d = a.drop_last();
    assert forall|x: usize| a.to_set().contains(x) implies x <= a.last() by {
        let k = choose|k: int| 0 <= k < a.len() && a[k] == x;
    }
    assert(d.to_set() =~= a.to_set().remove(a.last())) by {
        assert forall|x: usize| a.to_set().remove(a.last()).contains(x) implies d.to_set().contains(x) by {
            let k = choose|k: int| 0 <= k < a.len() && a[k] == x;
            assert(d[k] == x);
        }
        assert forall|x: usize| d.to_set().contains(x) implies a.to_set().remove(a.last()).contains(x) by {
            let k = choose|k: int| 0 <= k < d.len() && d[k] == x;
            assert(a[k] == x);
        }
    }
}

/// Two increasing sequences with the same members are equal.
pub proof fn lemma_var_order_unique(a: Seq<usize>, b: Seq<usize>)
    requires
        is_var_order(a),
        is_var_order(b),
        a.to_set() == b.to_set(),
    ensures
        a == b,
    decreases a.len(),
{
    if a.len() == 0 {
        if b.len() > 0 {
            assert(b.to_set().contains(b[0]));
            assert(a.to_set().contains(b[0]));
        }
        assert(a =~= b);
    } else {
        if b.len() == 0 {
            assert(a.to_set().contains(a[0]));
            assert(b.to_set().contains(a[0]));
        }
        lemma_var_order_drop_last(a);
        lemma_var_order_drop_last(b);
        assert(a.to_set().contains(a.last()));
        assert(b.to_set().contains(b.last()));
        assert(a.last() == b.last());
        lemma_var_order_unique(a.drop_last(), b.drop_last());
        assert(a =~= b) by {
            assert(a == a.drop_last().push(a.last()));
            assert(b == b.drop_last().push(b.last()));
        }
    }
}

/// An increasing sequence is the `var_seq` of its members.
pub proof fn lemma_var_seq_of(v: Seq<usize>)
    requires
        is_var_order(v),
    ensures
        var_seq(v.to_set()) == v,
{
    let w = var_seq(v.to_set());
    assert(is_var_order(w) && w.to_set() == v.to_set());
    lemma_var_order_unique(w, v);
}

/// `x` inserted into the increasing sequence `v` at its place.
pub open spec fn sorted_insert(v: Seq<usize>, x: usize) -> Seq<usize>
    decreases v.len(),
{
    if v.len() == 0 {
        seq![x]
    } else if v.last() < x {
        v.push(x)
    } else {
        sorted_insert(v.drop_last(), x).push(v.last())
    }
}

/// Inserting a new member into an increasing sequence keeps it increasing
/// and adds the member to its set.
pub proof fn lemma_sorted_insert(v: Seq<usize>, x: usize)
    requires
        is_var_order(v),
        !v.contains(x),
    ensures
        is_var_order(sorted_insert(v, x)),
        sorted_insert(v, x).to_set() == v.to_set().insert(x),
        sorted_insert(v, x).len() == v.len() + 1,
    decreases v.len(),
{
    if v.len() == 0 {
        assert(seq![x].to_set() =~= Set::<usize>::empty().insert(x)) by {
            assert(seq![x][0] == x);
        }
        assert(v.to_set() =~= Set::<usize>::empty());
    } else if v.last() < x {
        v.lemma_push_to_set_commute(x);
        assert forall|i: int, j: int| 0 <= i < j < v.len() + 1 implies #[trigger] v.push(x)[i] < #[trigger] v.push(x)[j] by {
            if j == v.len() {
                if i < v.len() - 1 {
                    assert(v[i] < v[v.len() - 1]);
                }
            }
        }
    } else {
        let d = v.drop_last();
        let l = v.last();
        assert(l != x) by {
            assert(v[v.len() - 1] == l);
        }
        assert(!d.contains(x)) by {
            if d.contains(x) {
                let k = choose|k: int| 0 <= k < d.len() && d[k] == x;
                assert(v[k] == x);
            }
        }
        lemma_var_order_drop_last(v);
        lemma_sorted_insert(d, x);
        let w = sorted_insert(d, x);
        w.lemma_push_to_set_commute(l);
        assert(v == d.push(l));
        d.lemma_push_to_set_commute(l);
        assert(w.push(l).to_set() =~= v.to_set().insert(x));
        assert forall|i: int, j: int| 0 <= i < j < w.len() + 1 implies #[trigger] w.push(l)[i] < #[trigger] w.push(l)[j] by {
            if j == w.len() {
                assert(w.to_set().contains(w[i]));
                if w[i] != x {
                    assert(d.to_set().contains(w[i]));
                    let k = choose|k: int| 0 <= k < d.len() && d[k] == w[i];
                    assert(v[k] == d[k]);
                    assert(v[k] < v[v.len() - 1]);
                }
            }
        }
    }
}

/// Every finite set of attributes has its increasing sequence.
pub proof fn lemma_var_seq_exists(s: Set<usize>)
    requires
        s.finite(),
    ensures
        is_var_order(var_seq(s)),
        var_seq(s).to_set() == s,
        var_seq(s).len() == s.len(),
    decreases s.len(),
{
    if s.len() == 0 {
        let e = Seq::<usize>::empty();
        assert(e.to_set() =~= s);
        assert(is_var_order(e));
    } else {
        let x = s.choose();
        let r = s.remove(x);
        lemma_var_seq_exists(r);
        let v = var_seq(r);
        assert(!v.contains(x)) by {
            if v.contains(x) {
                let k = choose|k: int| 0 <= k < v.len() && v[k] == x;
                assert(v.to_set().contains(x));
            }
        }
        lemma_sorted_insert(v, x);
        assert(v.to_set().insert(x) =~= s);
        assert(is_var_order(sorted_insert(v, x)) && sorted_insert(v, x).to_set() == s);
    }
    let w = var_seq(s);
    w.unique_seq_to_set();
}

/// Inserts `x` into the increasing vector `v`, keeping it increasing.
fn insert_ordered(v: &mut Vec<usize>, x: usize)
    requires
        is_var_order(old(v)@),
    ensures
        is_var_order(final(v)@),
        final(v)@.to_set() == old(v)@.to_set().insert(x),
{
    let mut i: usize = 0;
    while i < v.len() && v[i] < x
        invariant
            i <= v.len(),
            is_var_order(v@),
            forall|k: int| 0 <= k < i ==> v@[k] < x,
        decreases v.len() - i,
    {
        i = i + 1;
    }
    if i < v.len() && v[i] == x {
        assert(old(v)@.to_set().insert(x) =~= old(v)@.to_set()) by {
            assert(old(v)@.to_set().contains(x)) by {
                assert(v@[i as int] == x);
            }
        }
        return;
    }
    let ghost old_v = v@;
    v.insert(i, x);
    assert(v@ == old_v.insert(i as int, x));
    assert(v@.to_set() =~= old_v.to_set().insert(x)) by {
        assert forall|y: usize| v@.to_set().contains(y) implies old_v.to_set().insert(x).contains(y) by {
            let k = choose|k: int| 0 <= k < v@.len() && v@[k] == y;
            if k < i {
                assert(old_v[k] == y);
            } else if k > i {
                assert(old_v[k - 1] == y);
            }
        }
        assert forall|y: usize| old_v.to_set().insert(x).contains(y) implies v@.to_set().contains(y) by {
            if y == x {
                assert(v@[i as int] == x);
            } else {
                let k = choose|k: int| 0 <= k < old_v.len() && old_v[k] == y;
                if k < i {
                    assert(v@[k] == y);
                } else {
                    assert(v@[k + 1] == y);
                }
            }
        }
    }
}

/// The members of `s` in increasing order, as its iteration yields them.
pub fn ordered_atts(s: &BTreeSet<usize>) -> (v: Vec<usize>)
    ensures
        is_var_order(v@),
        v@.to_set() == s@,
        v@ == var_seq(s@),
        forall|i: int| 0 <= i < v@.len() ==> s@.contains(#[trigger] v@[i]),
{
    broadcast use vstd::std_specs::btree::group_btree_axioms, vstd::laws_cmp::group_laws_cmp;

    let mut v: Vec<usize> = Vec::new();
    let ghost keys = vstd::std_specs::btree::spec_btree_keys_iter(s).remaining();
    for a in it: s.iter()
        invariant
            it.seq() == keys,
            is_var_order(v@),
            v@.to_set() == keys.unref().take(it.index()).to_set(),
    {
        let ghost k = it.index();
        insert_ordered(&mut v, *a);
        assert(keys.unref().take(k + 1) == keys.unref().take(k).push(*a));
        assert(keys.unref().take(k).push(*a).to_set() =~= keys.unref().take(k).to_set().insert(*a))
            by {
            keys.unref().take(k).lemma_push_to_set_commute(*a);
        }
    }
    let ghost n: int = keys.len() + 0int;
    assert(keys.unref().take(n) == keys.unref());
    proof {
        lemma_var_seq_of(v@);
        assert forall|i: int| 0 <= i < v@.len() implies s@.contains(#[trigger] v@[i]) by {
            assert(v@.to_set().contains(v@[i]));
        }
    }
    v
}

/// The set of the members of `v`.
pub fn set_of(v: &Vec<usize>) -> (s: BTreeSet<usize>)
    ensures
        s@ == v@.to_set(),
{
    broadcast use vstd::std_specs::btree::group_btree_axioms, vstd::laws_cmp::group_laws_cmp;

    let mut s: BTreeSet<usize> = BTreeSet::new();
    let mut i: usize = 0;
    while i < v.len()
        invariant
            i <= v.len(),
            s@ == v@.take(i + 0int).to_set(),
        decreases v.len() - i,
    {
        s.insert(v[i]);
        assert(v@.take(i + 1int) == v@.take(i + 0int).push(v@[i + 0int]));
        proof {
            v@.take(i + 0int).lemma_push_to_set_commute(v@[i + 0int]);
        }
        i = i + 1;
    }
    assert(v@.take(i + 0int) == v@);
    s
}

/// The set `s` without the member `x`.
pub fn without(s: &BTreeSet<usize>, x: usize) -> (r: BTreeSet<usize>)
    ensures
        r@ == s@.remove(x),
{
    broadcast use vstd::std_specs::btree::group_btree_axioms, vstd::laws_cmp::group_laws_cmp;

    let mut r = s.clone();
    r.remove(&x);
    r
}

/// A copy of the set `s`.
pub fn copy_set(s: &BTreeSet<usize>) -> (r: BTreeSet<usize>)
    ensures
        r@ == s@,
{
    s.clone()
}

/// The union of the sets `a` and `b`.
pub fn union_sets(a: &BTreeSet<usize>, b: &BTreeSet<usize>) -> (r: BTreeSet<usize>)
    ensures
        r@ == a@.union(b@),
{
    broadcast use vstd::std_specs::btree::group_btree_axioms, vstd::laws_cmp::group_laws_cmp;

    let mut r = a.clone();
    let bv = ordered_atts(b);
    let mut i: usize = 0;
    while i < bv.len()
        invariant
            i <= bv.len(),
            bv@.to_set() == b@,
            r@ == a@.union(bv@.take(i + 0int).to_set()),
        decreases bv.len() - i,
    {
        r.insert(bv[i]);
        proof {
            assert(bv@.take(i + 1int) == bv@.take(i + 0int).push(bv@[i + 0int]));
            bv@.take(i + 0int).lemma_push_to_set_commute(bv@[i + 0int]);
            assert(r@ =~= a@.union(bv@.take(i + 1int).to_set()));
        }
        i = i + 1;
    }
    assert(bv@.take(i + 0int) == bv@);
    r
}

/// The set of the attributes `0..n`.
pub(crate) fn all_atts(n: usize) -> (s: BTreeSet<usize>)
    ensures
        s@ == Set::new(|a: usize| a < n),
{
    let mut v: Vec<usize> = Vec::new();
    let mut k: usize = 0;
    while k < n
        invariant
            k <= n,
            v.len() == k,
            forall|i: int| 0 <= i < k ==> v@[i] == i,
        decreases n - k,
    {
        v.push(k);
        k = k + 1;
    }
    let s = set_of(&v);
    proof {
        assert forall|a: usize| s@.contains(a) <==> a < n by {
            if a < n {
                assert(v@[a as int] == a);
            }
        }
        assert(s@ =~= Set::new(|a: usize| a < n));
    }
    s
}

} // verus!
