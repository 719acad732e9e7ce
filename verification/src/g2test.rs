//! Degrees of freedom of the G test of independence between a target
//! attribute and a set of attributes, given a conditioning set.
use vstd::prelude::*;
use std::collections::BTreeSet;

use crate::combs::observed_combs;
use crate::dataset::DataSet;
use crate::prob_map::ProbabilityMap;
use crate::varset::{
    copy_set, lemma_sorted_insert, lemma_var_order_unique, lemma_var_seq_exists, ordered_atts, sorted_insert, var_seq,
};

verus! {

/// The product of `nvals[a]` over the attributes `atts`.
pub open spec fn nvals_product(nvals: Seq<usize>, atts: Seq<usize>) -> nat
    decreases atts.len(),
{
    if atts.len() == 0 {
        1
    } else {
        nvals_product(nvals, atts.drop_last()) * (nvals[atts.last() as int] as nat)
    }
}

/// Every attribute of `atts` has an entry in `nvals`.
pub open spec fn has_counts(nvals: Seq<usize>, atts: Set<usize>) -> bool {
    forall|a: usize| #[trigger] atts.contains(a) ==> a < nvals.len()
}

/// `base` times each prefix product of `nvals` over `atts` fits in a `usize`.
pub open spec fn prefix_products_fit(base: nat, nvals: Seq<usize>, atts: Seq<usize>) -> bool {
    forall|k: int| 0 <= k <= atts.len() ==> base * #[trigger] nvals_product(nvals, atts.take(k)) <= usize::MAX
}

proof fn lemma_product_take_succ(nvals: Seq<usize>, atts: Seq<usize>, k: int)
    requires
        0 <= k < atts.len(),
    ensures
        nvals_product(nvals, atts.take(k + 1)) == nvals_product(nvals, atts.take(k)) * nvals[atts[k] as int],
{
    assert(atts.take(k + 1).drop_last() == atts.take(k));
}

/// Multiplies `base` by `nvals[a]` for each attribute `a` of `atts`.
fn scale_by(base: usize, nvals: &Vec<usize>, atts: &BTreeSet<usize>) -> (r: usize)
    requires
        has_counts(nvals@, atts@),
        prefix_products_fit(base as nat, nvals@, var_seq(atts@)),
    ensures
        r == base * nvals_product(nvals@, var_seq(atts@)),
{
    let order = ordered_atts(atts);
    let ghost s = order@;
    let mut r: usize = base;
    let mut k: usize = 0;
    proof {
        assert(s.take(0) =~= Seq::<usize>::empty());
        assert(nvals_product(nvals@, s.take(0)) == 1);
        let p0 = nvals_product(nvals@, s.take(0));
        assert(base * p0 == base) by (nonlinear_arith)
            requires
                p0 == 1,
        ;
        assert(k == 0);
    }
    while k < order.len()
        invariant
            k <= order.len(),
            s == order@,
            s == var_seq(atts@),
            has_counts(nvals@, atts@),
            forall|i: int| 0 <= i < s.len() ==> atts@.contains(#[trigger] s[i]),
            prefix_products_fit(base as nat, nvals@, s),
            r == base * nvals_product(nvals@, s.take(k as int)),
        decreases order.len() - k,
    {
        let ghost p = nvals_product(nvals@, s.take(k as int));
        proof {
            assert(atts@.contains(s[k as int]));
            lemma_product_take_succ(nvals@, s, k as int);
            assert(base * nvals_product(nvals@, s.take(k + 1)) <= usize::MAX);
            assert(base * (p * nvals@[s[k as int] as int]) == (base * p) * nvals@[s[k as int] as int])
                by (nonlinear_arith);
        }
        r = r * nvals[order[k]];
        k = k + 1;
    }
    proof {
        assert(s.take(k as int) == s);
    }
    r
}

/// The inputs on which `g2_df` computes without overflow or a missing value
/// count.
pub open spec fn g2_df_defined(nvals: Seq<usize>, t: usize, x: Set<usize>, cond: Set<usize>) -> bool {
    let px = nvals_product(nvals, var_seq(x));
    &&& t < nvals.len()
    &&& has_counts(nvals, x)
    &&& has_counts(nvals, cond)
    &&& prefix_products_fit(1, nvals, var_seq(x))
    &&& px >= 1
    &&& nvals[t as int] >= 1
    &&& (px - 1) * (nvals[t as int] - 1) <= usize::MAX
    &&& prefix_products_fit(((px - 1) * (nvals[t as int] - 1)) as nat, nvals, var_seq(cond))
}

/// (the product of the value counts over `x`, less one) times (the value
/// count of `t`, less one) times the product of the value counts over
/// `cond`.
pub open spec fn g2_df_value(nvals: Seq<usize>, t: usize, x: Set<usize>, cond: Set<usize>) -> int {
    (nvals_product(nvals, var_seq(x)) - 1) * (nvals[t as int] - 1) * nvals_product(nvals, var_seq(cond))
}

proof fn lemma_product_sorted_insert(nvals: Seq<usize>, v: Seq<usize>, x: usize)
    ensures
        nvals_product(nvals, sorted_insert(v, x)) == nvals_product(nvals, v) * nvals[x as int],
    decreases v.len(),
{
    let a = nvals[x as int] as int;
    if v.len() == 0 {
        assert(seq![x].drop_last() =~= Seq::<usize>::empty());
        assert(seq![x].last() == x);
        assert(nvals_product(nvals, seq![x]) == nvals_product(nvals, Seq::<usize>::empty()) * a);
        assert(nvals_product(nvals, v) == 1);
        assert(1 * a == a);
    } else if v.last() < x {
        assert(v.push(x).drop_last() == v);
        assert(v.push(x).last() == x);
    } else {
        let d = v.drop_last();
        let l = v.last();
        lemma_product_sorted_insert(nvals, d, x);
        let w = sorted_insert(d, x);
        assert(w.push(l).drop_last() == w);
        assert(w.push(l).last() == l);
        let pd = nvals_product(nvals, d) as int;
        let b = nvals[l as int] as int;
        assert(nvals_product(nvals, w) == pd * a);
        assert(nvals_product(nvals, w.push(l)) == nvals_product(nvals, w) * b);
        assert(nvals_product(nvals, v) == pd * b);
        assert((pd * a) * b == (pd * b) * a) by (nonlinear_arith);
    }
}

/// The product of the value counts over a set of attributes is multiplied
/// by the value count of each attribute added to the set; it is 1 over no
/// attribute.
pub proof fn law_nvals_product_insert(nvals: Seq<usize>, atts: Set<usize>, c: usize)
    requires
        atts.finite(),
        !atts.contains(c),
    ensures
        nvals_product(nvals, var_seq(atts.insert(c))) == nvals_product(nvals, var_seq(atts)) * nvals[c as int],
        nvals_product(nvals, var_seq(Set::<usize>::empty())) == 1,
{
    lemma_var_seq_exists(atts);
    let v = var_seq(atts);
    assert(!v.contains(c)) by {
        if v.contains(c) {
            let k = choose|k: int| 0 <= k < v.len() && v[k] == c;
            assert(v.to_set().contains(c));
        }
    }
    lemma_sorted_insert(v, c);
    lemma_var_seq_exists(atts.insert(c));
    lemma_var_order_unique(var_seq(atts.insert(c)), sorted_insert(v, c));
    lemma_product_sorted_insert(nvals, v, c);
    lemma_var_seq_exists(Set::<usize>::empty());
    assert(var_seq(Set::<usize>::empty()).len() == 0);
}

/// The product of the value counts over a set of attributes does not fall
/// when attributes with at least one value are added.
pub proof fn law_nvals_product_mono(nvals: Seq<usize>, small: Set<usize>, big: Set<usize>)
    requires
        big.finite(),
        small.subset_of(big),
        forall|b: usize| #[trigger] big.contains(b) && !small.contains(b) ==> nvals[b as int] >= 1,
    ensures
        nvals_product(nvals, var_seq(small)) <= nvals_product(nvals, var_seq(big)),
    decreases big.len(),
{
    if !(big =~= small) {
        let b = choose|b: usize| big.contains(b) && !small.contains(b);
        let rest = big.remove(b);
        law_nvals_product_mono(nvals, small, rest);
        law_nvals_product_insert(nvals, rest, b);
        assert(rest.insert(b) =~= big);
        let p = nvals_product(nvals, var_seq(rest));
        let n = nvals[b as int] as int;
        assert(p <= p * n) by (nonlinear_arith)
            requires
                n >= 1,
        ;
    }
}

/// Each attribute added to the conditioning set multiplies the degrees of
/// freedom by its value count.
pub proof fn law_g2_df_cond_insert(nvals: Seq<usize>, t: usize, x: Set<usize>, cond: Set<usize>, c: usize)
    requires
        cond.finite(),
        !cond.contains(c),
    ensures
        g2_df_value(nvals, t, x, cond.insert(c)) == g2_df_value(nvals, t, x, cond) * nvals[c as int],
{
    law_nvals_product_insert(nvals, cond, c);
    let a = (nvals_product(nvals, var_seq(x)) - 1) * (nvals[t as int] - 1);
    let pc = nvals_product(nvals, var_seq(cond)) as int;
    let n = nvals[c as int] as int;
    assert(a * (pc * n) == (a * pc) * n) by (nonlinear_arith);
}

/// With no conditioning attribute the degrees of freedom are (the product
/// of the value counts over `x`, less one) times (the value count of `t`,
/// less one); with no tested attribute either they are 0.
pub proof fn law_g2_df_no_cond(nvals: Seq<usize>, t: usize, x: Set<usize>, a: usize)
    requires
        x.finite(),
        !x.contains(a),
    ensures
        g2_df_value(nvals, t, x, Set::empty()) == (nvals_product(nvals, var_seq(x)) - 1) * (nvals[t as int] - 1),
        g2_df_value(nvals, t, x.insert(a), Set::empty()) == (nvals_product(nvals, var_seq(x)) * nvals[a as int] - 1) * (
        nvals[t as int] - 1),
        g2_df_value(nvals, t, Set::empty(), Set::empty()) == 0,
{
    law_nvals_product_insert(nvals, x, a);
    let k = (nvals_product(nvals, var_seq(x)) - 1) * (nvals[t as int] - 1);
    let k2 = (nvals_product(nvals, var_seq(x.insert(a))) - 1) * (nvals[t as int] - 1);
    assert(k * 1 == k);
    assert(k2 * 1 == k2);
    let nt = nvals[t as int] - 1;
    assert(0 * nt == 0);
    assert(0 * nt * 1 == 0);
}

/// `base` times the product of `nvals[a]` over the attributes `atts`, or
/// `None` where an attribute has no value count or a partial product
/// overflows.
pub fn checked_scale(base: usize, nvals: &Vec<usize>, atts: &BTreeSet<usize>) -> (r: Option<usize>)
    ensures
        match r {
            Some(v) => has_counts(nvals@, atts@) && prefix_products_fit(base as nat, nvals@, var_seq(atts@))
                && v == base * nvals_product(nvals@, var_seq(atts@)),
            None => !(has_counts(nvals@, atts@) && prefix_products_fit(base as nat, nvals@, var_seq(atts@))),
        },
{
    let order = ordered_atts(atts);
    let ghost s = order@;
    let mut r: usize = base;
    let mut k: usize = 0;
    proof {
        assert(s.take(0) =~= Seq::<usize>::empty());
        let p0 = nvals_product(nvals@, s.take(0));
        assert(p0 == 1);
        assert(base * p0 == base) by (nonlinear_arith)
            requires
                p0 == 1,
        ;
    }
    while k < order.len()
        invariant
            k <= order.len(),
            s == order@,
            s == var_seq(atts@),
            s.to_set() == atts@,
            forall|i: int| 0 <= i < s.len() ==> atts@.contains(#[trigger] s[i]),
            forall|i: int| 0 <= i < k ==> #[trigger] s[i] < nvals.len(),
            forall|j: int| 0 <= j <= k ==> base * #[trigger] nvals_product(nvals@, s.take(j)) <= usize::MAX,
            r == base * nvals_product(nvals@, s.take(k as int)),
        decreases order.len() - k,
    {
        let a = order[k];
        if a >= nvals.len() {
            proof {
                assert(atts@.contains(s[k as int]));
            }
            return None;
        }
        let ghost p = nvals_product(nvals@, s.take(k as int));
        proof {
            lemma_product_take_succ(nvals@, s, k as int);
            assert(base * (p * nvals@[a as int]) == (base * p) * nvals@[a as int]) by (nonlinear_arith);
        }
        match r.checked_mul(nvals[a]) {
            Some(v) => {
                r = v;
            },
            None => {
                proof {
                    assert(base * nvals_product(nvals@, s.take(k + 1)) > usize::MAX);
                }
                return None;
            },
        }
        k = k + 1;
    }
    proof {
        assert(s.take(k as int) == s);
        assert forall|a: usize| #[trigger] atts@.contains(a) implies a < nvals.len() by {
            assert(s.to_set().contains(a));
            let i = choose|i: int| 0 <= i < s.len() && s[i] == a;
        }
    }
    Some(r)
}

/// `g2_df`, or `None` on the inputs on which it would overflow or miss a
/// value count.
pub fn g2_df_checked(data: &DataSet, t: usize, x: &BTreeSet<usize>, cond: &BTreeSet<usize>) -> (r: Option<usize>)
    ensures
        match r {
            Some(df) => g2_df_defined(data.nvals@, t, x@, cond@) && df == g2_df_value(data.nvals@, t, x@, cond@),
            None => !g2_df_defined(data.nvals@, t, x@, cond@),
        },
{
    let px = match checked_scale(1, &data.nvals, x) {
        Some(v) => v,
        None => {
            return None;
        },
    };
    proof {
        assert(1 * nvals_product(data.nvals@, var_seq(x@)) == nvals_product(data.nvals@, var_seq(x@)));
    }
    if px == 0 || t >= data.nvals.len() || data.nvals[t] == 0 {
        return None;
    }
    let base = match (px - 1).checked_mul(data.nvals[t] - 1) {
        Some(v) => v,
        None => {
            return None;
        },
    };
    match checked_scale(base, &data.nvals, cond) {
        Some(df) => Some(df),
        None => None,
    }
}

/// The degrees of freedom of the test of `t` against `x` given `cond`:
/// (the product of the value counts over `x`, less one) times (the value
/// count of `t`, less one) times the product of the value counts over
/// `cond`.
pub fn g2_df(data: &DataSet, t: usize, x: &BTreeSet<usize>, cond: &BTreeSet<usize>) -> (df: usize)
    requires
        g2_df_defined(data.nvals@, t, x@, cond@),
    ensures
        df == g2_df_value(data.nvals@, t, x@, cond@),
{
    let px = scale_by(1, &data.nvals, x);
    let mut df = px - 1;
    df = df * (data.nvals[t] - 1);
    scale_by(df, &data.nvals, cond)
}

/// The attributes of `atts`, in their order, whose addition to `cur` gives
/// the test of `t` given `cond` fewer than `max_df` degrees of freedom.
pub open spec fn df_below(
    nvals: Seq<usize>,
    t: usize,
    cur: Set<usize>,
    cond: Set<usize>,
    atts: Seq<usize>,
    max_df: usize,
) -> Seq<usize>
    decreases atts.len(),
{
    if atts.len() == 0 {
        Seq::empty()
    } else {
        let rest = df_below(nvals, t, cur, cond, atts.drop_last(), max_df);
        if g2_df_value(nvals, t, cur.insert(atts.last()), cond) < max_df {
            rest.push(atts.last())
        } else {
            rest
        }
    }
}

/// `g2_df` computes for the addition of each attribute of `atts` to `cur`.
pub open spec fn df_defined_for_all(nvals: Seq<usize>, t: usize, cur: Set<usize>, cond: Set<usize>, atts: Seq<usize>) -> bool {
    forall|i: int| 0 <= i < atts.len() ==> #[trigger] g2_df_defined(nvals, t, cur.insert(atts[i]), cond)
}

/// The attributes that `df_below` keeps: an attribute of `atts` (listed
/// once each) is kept exactly when adding it to `cur` gives the test of `t`
/// given `cond` fewer than `max_df` degrees of freedom; and nothing else is
/// kept.
pub proof fn law_df_below_members(
    nvals: Seq<usize>,
    t: usize,
    cur: Set<usize>,
    cond: Set<usize>,
    atts: Seq<usize>,
    max_df: usize,
)
    requires
        atts.no_duplicates(),
    ensures
        forall|i: int|
            0 <= i < atts.len() ==> (df_below(nvals, t, cur, cond, atts, max_df).contains(#[trigger] atts[i])
                <==> g2_df_value(nvals, t, cur.insert(atts[i]), cond) < max_df),
        forall|y: usize| #[trigger] df_below(nvals, t, cur, cond, atts, max_df).contains(y) ==> atts.contains(y),
    decreases atts.len(),
{
    if atts.len() > 0 {
        let d = atts.drop_last();
        let l = atts.last();
        assert(d.no_duplicates());
        law_df_below_members(nvals, t, cur, cond, d, max_df);
        let rest = df_below(nvals, t, cur, cond, d, max_df);
        let res = df_below(nvals, t, cur, cond, atts, max_df);
        assert(!d.contains(l)) by {
            if d.contains(l) {
                let k = choose|k: int| 0 <= k < d.len() && d[k] == l;
                assert(atts[k] == atts[atts.len() - 1]);
            }
        }
        assert forall|i: int| 0 <= i < atts.len() implies (res.contains(#[trigger] atts[i])
            <==> g2_df_value(nvals, t, cur.insert(atts[i]), cond) < max_df) by {
            if i < atts.len() - 1 {
                assert(atts[i] == d[i]);
                assert(atts[i] != l);
                if res.contains(atts[i]) && !rest.contains(atts[i]) {
                    let k = choose|k: int| 0 <= k < res.len() && res[k] == atts[i];
                    assert(k == rest.len());
                }
                if rest.contains(atts[i]) {
                    let k = choose|k: int| 0 <= k < rest.len() && rest[k] == atts[i];
                    assert(res[k] == rest[k]);
                }
            } else {
                if g2_df_value(nvals, t, cur.insert(l), cond) < max_df {
                    assert(res[rest.len() as int] == l);
                } else {
                    assert(!rest.contains(l));
                }
            }
        }
        assert forall|y: usize| res.contains(y) implies atts.contains(y) by {
            let k = choose|k: int| 0 <= k < res.len() && res[k] == y;
            if k < rest.len() {
                assert(rest[k] == y);
                assert(rest.contains(y));
                assert(d.contains(y));
                let j = choose|j: int| 0 <= j < d.len() && d[j] == y;
                assert(atts[j] == y);
            } else {
                assert(atts[atts.len() - 1] == y);
            }
        }
    }
}

/// Enlarging the current set never keeps more: an attribute kept with the
/// larger set `cur2` is kept with `cur` (when the added attributes have at
/// least one value and the target has at least one value).
pub proof fn law_df_below_mono(
    nvals: Seq<usize>,
    t: usize,
    cur: Set<usize>,
    cur2: Set<usize>,
    cond: Set<usize>,
    atts: Seq<usize>,
    max_df: usize,
)
    requires
        atts.no_duplicates(),
        cur2.finite(),
        cur.subset_of(cur2),
        forall|b: usize| #[trigger] cur2.contains(b) ==> nvals[b as int] >= 1,
        nvals[t as int] >= 1,
    ensures
        forall|y: usize|
            df_below(nvals, t, cur2, cond, atts, max_df).contains(y) ==> df_below(nvals, t, cur, cond, atts, max_df).contains(
                y,
            ),
{
    law_df_below_members(nvals, t, cur, cond, atts, max_df);
    law_df_below_members(nvals, t, cur2, cond, atts, max_df);
    assert forall|y: usize| df_below(nvals, t, cur2, cond, atts, max_df).contains(y) implies df_below(
        nvals,
        t,
        cur,
        cond,
        atts,
        max_df,
    ).contains(y) by {
        assert(atts.contains(y));
        let i = choose|i: int| 0 <= i < atts.len() && atts[i] == y;
        assert(df_below(nvals, t, cur2, cond, atts, max_df).contains(atts[i]));
        law_nvals_product_mono(nvals, cur.insert(y), cur2.insert(y));
        let p1 = nvals_product(nvals, var_seq(cur.insert(y))) as int;
        let p2 = nvals_product(nvals, var_seq(cur2.insert(y))) as int;
        let k = nvals[t as int] - 1;
        let pc = nvals_product(nvals, var_seq(cond)) as int;
        assert((p1 - 1) * k * pc <= (p2 - 1) * k * pc) by (nonlinear_arith)
            requires
                p1 <= p2,
                k >= 0,
                pc >= 0,
        ;
        assert(df_below(nvals, t, cur, cond, atts, max_df).contains(atts[i]));
    }
}

/// The attributes of `atts` whose addition to `cur` keeps the degrees of
/// freedom of the test of `t` given `cond` below `max_df`; `None` where the
/// degrees of freedom of some addition cannot be computed.
pub fn below_max_df(
    data: &DataSet,
    t: usize,
    cur: &BTreeSet<usize>,
    cond: &BTreeSet<usize>,
    atts: &Vec<usize>,
    max_df: usize,
) -> (r: Option<Vec<usize>>)
    ensures
        match r {
            Some(v) => df_defined_for_all(data.nvals@, t, cur@, cond@, atts@) && v@ == df_below(
                data.nvals@,
                t,
                cur@,
                cond@,
                atts@,
                max_df,
            ),
            None => !df_defined_for_all(data.nvals@, t, cur@, cond@, atts@),
        },
{
    broadcast use vstd::std_specs::btree::group_btree_axioms;

    let mut kept: Vec<usize> = Vec::new();
    let mut k: usize = 0;
    proof {
        assert(atts@.take(0) =~= Seq::<usize>::empty());
    }
    while k < atts.len()
        invariant
            k <= atts.len(),
            forall|i: int| 0 <= i < k ==> #[trigger] g2_df_defined(data.nvals@, t, cur@.insert(atts@[i]), cond@),
            kept@ == df_below(data.nvals@, t, cur@, cond@, atts@.take(k as int), max_df),
        decreases atts.len() - k,
    {
        let a = atts[k];
        let mut next = copy_set(cur);
        next.insert(a);
        proof {
            assert(atts@.take(k + 1).drop_last() == atts@.take(k as int));
            assert(atts@.take(k + 1).last() == a);
        }
        match g2_df_checked(data, t, &next, cond) {
            Some(df) => {
                if df < max_df {
                    kept.push(a);
                }
            },
            None => {
                return None;
            },
        }
        k = k + 1;
    }
    proof {
        assert(atts@.take(k as int) == atts@);
    }
    Some(kept)
}

/// The effective degrees of freedom of the test of `t` against `x` given a
/// conditioning set that the rows of `data` take `size_c` distinct
/// combinations of: (the product of the value counts over `x`, less one)
/// times (the value count of `t`, less one) times `size_c`.
pub fn g2_df_eff(x: &BTreeSet<usize>, t: usize, data: &DataSet, size_c: usize) -> (df: usize)
    requires
        t < data.nvals.len(),
        has_counts(data.nvals@, x@),
        prefix_products_fit(1, data.nvals@, var_seq(x@)),
        nvals_product(data.nvals@, var_seq(x@)) >= 1,
        data.nvals@[t as int] >= 1,
        (nvals_product(data.nvals@, var_seq(x@)) - 1) * (data.nvals@[t as int] - 1) <= usize::MAX,
        (nvals_product(data.nvals@, var_seq(x@)) - 1) * (data.nvals@[t as int] - 1) * size_c <= usize::MAX,
    ensures
        df == (nvals_product(data.nvals@, var_seq(x@)) - 1) * (data.nvals@[t as int] - 1) * size_c,
{
    let px = scale_by(1, &data.nvals, x);
    let mut df = px - 1;
    df = df * (data.nvals[t] - 1);
    df = df * size_c;
    df
}

/// `g2_df_eff`, or `None` on the inputs on which it would overflow or miss a
/// value count.
pub fn g2_df_eff_checked(x: &BTreeSet<usize>, t: usize, data: &DataSet, size_c: usize) -> (r: Option<usize>)
    ensures
        match r {
            Some(df) => {
                &&& t < data.nvals.len()
                &&& has_counts(data.nvals@, x@)
                &&& prefix_products_fit(1, data.nvals@, var_seq(x@))
                &&& nvals_product(data.nvals@, var_seq(x@)) >= 1
                &&& data.nvals@[t as int] >= 1
                &&& (nvals_product(data.nvals@, var_seq(x@)) - 1) * (data.nvals@[t as int] - 1) <= usize::MAX
                &&& (nvals_product(data.nvals@, var_seq(x@)) - 1) * (data.nvals@[t as int] - 1) * size_c <= usize::MAX
                &&& df == (nvals_product(data.nvals@, var_seq(x@)) - 1) * (data.nvals@[t as int] - 1) * size_c
            },
            None => !{
                &&& t < data.nvals.len()
                &&& has_counts(data.nvals@, x@)
                &&& prefix_products_fit(1, data.nvals@, var_seq(x@))
                &&& nvals_product(data.nvals@, var_seq(x@)) >= 1
                &&& data.nvals@[t as int] >= 1
                &&& (nvals_product(data.nvals@, var_seq(x@)) - 1) * (data.nvals@[t as int] - 1) <= usize::MAX
                &&& (nvals_product(data.nvals@, var_seq(x@)) - 1) * (data.nvals@[t as int] - 1) * size_c <= usize::MAX
            },
        },
{
    let px = match checked_scale(1, &data.nvals, x) {
        Some(v) => v,
        None => {
            return None;
        },
    };
    proof {
        assert(1 * nvals_product(data.nvals@, var_seq(x@)) == nvals_product(data.nvals@, var_seq(x@)));
    }
    if px == 0 || t >= data.nvals.len() || data.nvals[t] == 0 {
        return None;
    }
    let base = match (px - 1).checked_mul(data.nvals[t] - 1) {
        Some(v) => v,
        None => {
            return None;
        },
    };
    base.checked_mul(size_c)
}

/// The degrees of freedom counted from the tables: how many more
/// combinations the tables over `x` and `cond`, and over `t` and `cond`,
/// have than the table over `cond`, added up.
pub fn g2_df_map(
    prob_xtc: &ProbabilityMap,
    prob_xc: &ProbabilityMap,
    prob_tc: &ProbabilityMap,
    prob_c: &ProbabilityMap,
) -> (df: usize)
    requires
        observed_combs(prob_c.rows(), prob_c.att_seq()).len() <= observed_combs(prob_xc.rows(), prob_xc.att_seq()).len(),
        observed_combs(prob_c.rows(), prob_c.att_seq()).len() <= observed_combs(prob_tc.rows(), prob_tc.att_seq()).len(),
        observed_combs(prob_xc.rows(), prob_xc.att_seq()).len() + observed_combs(prob_tc.rows(), prob_tc.att_seq()).len()
            - 2 * observed_combs(prob_c.rows(), prob_c.att_seq()).len() <= usize::MAX,
    ensures
        df == (observed_combs(prob_xc.rows(), prob_xc.att_seq()).len() - observed_combs(prob_c.rows(), prob_c.att_seq()).len())
            + (observed_combs(prob_tc.rows(), prob_tc.att_seq()).len() - observed_combs(prob_c.rows(), prob_c.att_seq()).len()),
{
    (prob_xc.get_size() - prob_c.get_size()) + (prob_tc.get_size() - prob_c.get_size())
}

} // verus!
