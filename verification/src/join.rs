//! Joining two combinations: one over the attributes `a`, one over the
//! attributes `b`, into one over the union `u` of the two, when they agree on
//! the attributes that `a` and `b` share.
use vstd::prelude::*;

use crate::combs::{matching_rows, project};
use crate::varset::is_var_order;

verus! {

/// How the attributes `u` (the union of `a` and `b`) are found in `a` and
/// `b`: `u[k]` is `a[pa[k]]` when `in_a[k]`, else `b[pb[k]]`; and `shared[q]`
/// is the position in `a` of `b[q]`, if it is there.
pub open spec fn is_join_layout(
    a: Seq<usize>,
    b: Seq<usize>,
    u: Seq<usize>,
    in_a: Seq<bool>,
    pa: Seq<usize>,
    pb: Seq<usize>,
    shared: Seq<Option<usize>>,
) -> bool {
    &&& is_var_order(a)
    &&& is_var_order(b)
    &&& u.to_set() == a.to_set().union(b.to_set())
    &&& in_a.len() == u.len()
    &&& pa.len() == u.len()
    &&& pb.len() == u.len()
    &&& forall|k: int|
        0 <= k < u.len() ==> if #[trigger] in_a[k] {
            pa[k] < a.len() && a[pa[k] as int] == u[k]
        } else {
            pb[k] < b.len() && b[pb[k] as int] == u[k] && !a.contains(u[k])
        }
    &&& shared.len() == b.len()
    &&& forall|q: int|
        0 <= q < b.len() ==> match #[trigger] shared[q] {
            Some(p) => p < a.len() && a[p as int] == b[q],
            None => !a.contains(b[q]),
        }
}

/// `c1` (values at `a`) and `c2` (values at `b`) give the same value to each
/// attribute that `a` and `b` share.
pub open spec fn compatible(c1: Seq<usize>, c2: Seq<usize>, shared: Seq<Option<usize>>) -> bool {
    forall|q: int|
        0 <= q < shared.len() && (#[trigger] shared[q]) is Some ==> c1[shared[q]->0 as int] == c2[q]
}

/// The combination over `u` that takes each value from `c1` where the
/// attribute is in `a`, else from `c2`.
pub open spec fn join_of(
    c1: Seq<usize>,
    c2: Seq<usize>,
    in_a: Seq<bool>,
    pa: Seq<usize>,
    pb: Seq<usize>,
) -> Seq<usize> {
    Seq::new(in_a.len(), |k: int| if in_a[k] { c1[pa[k] as int] } else { c2[pb[k] as int] })
}

proof fn lemma_var_order_injective(s: Seq<usize>, i: int, j: int)
    requires
        is_var_order(s),
        0 <= i < s.len(),
        0 <= j < s.len(),
        s[i] == s[j],
    ensures
        i == j,
{
    if i < j {
        assert(s[i] < s[j]);
    } else if j < i {
        assert(s[j] < s[i]);
    }
}

/// Where the attribute `a[p]` stands in `u`.
proof fn lemma_locate_a(
    a: Seq<usize>,
    b: Seq<usize>,
    u: Seq<usize>,
    in_a: Seq<bool>,
    pa: Seq<usize>,
    pb: Seq<usize>,
    shared: Seq<Option<usize>>,
    p: int,
) -> (k: int)
    requires
        is_join_layout(a, b, u, in_a, pa, pb, shared),
        0 <= p < a.len(),
    ensures
        0 <= k < u.len(),
        u[k] == a[p],
        in_a[k],
        pa[k] == p,
{
    assert(a.to_set().contains(a[p]));
    assert(u.to_set().contains(a[p]));
    let k = choose|k: int| 0 <= k < u.len() && u[k] == a[p];
    if !in_a[k] {
        assert(a.contains(u[k]));
    }
    lemma_var_order_injective(a, pa[k] as int, p);
    k
}

/// Where the attribute `b[q]` stands in `u`.
proof fn lemma_locate_b(
    a: Seq<usize>,
    b: Seq<usize>,
    u: Seq<usize>,
    in_a: Seq<bool>,
    pa: Seq<usize>,
    pb: Seq<usize>,
    shared: Seq<Option<usize>>,
    q: int,
) -> (k: int)
    requires
        is_join_layout(a, b, u, in_a, pa, pb, shared),
        0 <= q < b.len(),
    ensures
        0 <= k < u.len(),
        u[k] == b[q],
        in_a[k] ==> shared[q] == Some(pa[k]),
        !in_a[k] ==> pb[k] == q,
{
    assert(b.to_set().contains(b[q]));
    assert(u.to_set().contains(b[q]));
    let k = choose|k: int| 0 <= k < u.len() && u[k] == b[q];
    if in_a[k] {
        match shared[q] {
            Some(p) => {
                lemma_var_order_injective(a, p as int, pa[k] as int);
            },
            None => {
                assert(a[pa[k] as int] == b[q]);
                assert(a.contains(b[q]));
            },
        }
    } else {
        lemma_var_order_injective(b, pb[k] as int, q);
    }
    k
}

/// The rows that take `c1` at `a` and `c2` at `b` are those that take their
/// join at `u`.
pub proof fn law_join_rows(
    rows: Seq<Seq<usize>>,
    a: Seq<usize>,
    b: Seq<usize>,
    u: Seq<usize>,
    in_a: Seq<bool>,
    pa: Seq<usize>,
    pb: Seq<usize>,
    shared: Seq<Option<usize>>,
    c1: Seq<usize>,
    c2: Seq<usize>,
)
    requires
        is_join_layout(a, b, u, in_a, pa, pb, shared),
        c1.len() == a.len(),
        c2.len() == b.len(),
        compatible(c1, c2, shared),
    ensures
        matching_rows(rows, a, c1).intersect(matching_rows(rows, b, c2)) == matching_rows(
            rows,
            u,
            join_of(c1, c2, in_a, pa, pb),
        ),
{
    let uc = join_of(c1, c2, in_a, pa, pb);
    assert forall|i: usize|
        matching_rows(rows, a, c1).intersect(matching_rows(rows, b, c2)).contains(i) implies matching_rows(
        rows,
        u,
        uc,
    ).contains(i) by {
        let r = rows[i as int];
        assert(project(r, a) == c1);
        assert(project(r, b) == c2);
        assert forall|k: int| 0 <= k < u.len() implies project(r, u)[k] == uc[k] by {
            if in_a[k] {
                assert(project(r, a)[pa[k] as int] == c1[pa[k] as int]);
            } else {
                assert(project(r, b)[pb[k] as int] == c2[pb[k] as int]);
            }
        }
        assert(project(r, u) =~= uc);
    }
    assert forall|i: usize| matching_rows(rows, u, uc).contains(i) implies matching_rows(
        rows,
        a,
        c1,
    ).intersect(matching_rows(rows, b, c2)).contains(i) by {
        let r = rows[i as int];
        assert(project(r, u) == uc);
        assert forall|p: int| 0 <= p < a.len() implies project(r, a)[p] == c1[p] by {
            let k = lemma_locate_a(a, b, u, in_a, pa, pb, shared, p);
            assert(project(r, u)[k] == uc[k]);
        }
        assert(project(r, a) =~= c1);
        assert forall|q: int| 0 <= q < b.len() implies project(r, b)[q] == c2[q] by {
            let k = lemma_locate_b(a, b, u, in_a, pa, pb, shared, q);
            assert(project(r, u)[k] == uc[k]);
            if in_a[k] {
                assert(shared[q] is Some);
            }
        }
        assert(project(r, b) =~= c2);
    }
    assert(matching_rows(rows, a, c1).intersect(matching_rows(rows, b, c2)) =~= matching_rows(rows, u, uc));
}

/// A row's values at `a` and at `b` agree, and join into its values at `u`.
pub proof fn lemma_join_row(
    r: Seq<usize>,
    a: Seq<usize>,
    b: Seq<usize>,
    u: Seq<usize>,
    in_a: Seq<bool>,
    pa: Seq<usize>,
    pb: Seq<usize>,
    shared: Seq<Option<usize>>,
)
    requires
        is_join_layout(a, b, u, in_a, pa, pb, shared),
    ensures
        compatible(project(r, a), project(r, b), shared),
        join_of(project(r, a), project(r, b), in_a, pa, pb) == project(r, u),
{
    let c1 = project(r, a);
    let c2 = project(r, b);
    assert forall|q: int| 0 <= q < shared.len() && (#[trigger] shared[q]) is Some implies c1[shared[q]->0 as int]
        == c2[q] by {
        assert(a[shared[q]->0 as int] == b[q]);
    }
    let uc = join_of(c1, c2, in_a, pa, pb);
    assert forall|k: int| 0 <= k < u.len() implies uc[k] == project(r, u)[k] by {
        if in_a[k] {
            assert(a[pa[k] as int] == u[k]);
        } else {
            assert(b[pb[k] as int] == u[k]);
        }
    }
    assert(uc =~= project(r, u));
}

/// Two agreeing pairs with the same join are the same pair.
pub proof fn lemma_join_injective(
    a: Seq<usize>,
    b: Seq<usize>,
    u: Seq<usize>,
    in_a: Seq<bool>,
    pa: Seq<usize>,
    pb: Seq<usize>,
    shared: Seq<Option<usize>>,
    c1: Seq<usize>,
    c2: Seq<usize>,
    d1: Seq<usize>,
    d2: Seq<usize>,
)
    requires
        is_join_layout(a, b, u, in_a, pa, pb, shared),
        c1.len() == a.len(),
        c2.len() == b.len(),
        d1.len() == a.len(),
        d2.len() == b.len(),
        compatible(c1, c2, shared),
        compatible(d1, d2, shared),
        join_of(c1, c2, in_a, pa, pb) == join_of(d1, d2, in_a, pa, pb),
    ensures
        c1 == d1,
        c2 == d2,
{
    let uc = join_of(c1, c2, in_a, pa, pb);
    let ud = join_of(d1, d2, in_a, pa, pb);
    assert forall|p: int| 0 <= p < a.len() implies c1[p] == d1[p] by {
        let k = lemma_locate_a(a, b, u, in_a, pa, pb, shared, p);
        assert(uc[k] == ud[k]);
    }
    assert forall|q: int| 0 <= q < b.len() implies c2[q] == d2[q] by {
        let k = lemma_locate_b(a, b, u, in_a, pa, pb, shared, q);
        assert(uc[k] == ud[k]);
        if in_a[k] {
            assert(shared[q] is Some);
        }
    }
    assert(c1 =~= d1);
    assert(c2 =~= d2);
}

/// Whether `c1` and `c2` agree on the shared attributes.
pub fn agree(c1: &Vec<usize>, c2: &Vec<usize>, shared: &Vec<Option<usize>>) -> (r: bool)
    requires
        shared.len() == c2.len(),
        forall|q: int| 0 <= q < shared.len() && (#[trigger] shared@[q]) is Some ==> shared@[q]->0 < c1.len(),
    ensures
        r == compatible(c1@, c2@, shared@),
{
    let mut q: usize = 0;
    while q < shared.len()
        invariant
            q <= shared.len(),
            shared.len() == c2.len(),
            forall|t: int| 0 <= t < shared.len() && (#[trigger] shared@[t]) is Some ==> shared@[t]->0 < c1.len(),
            forall|t: int| 0 <= t < q && (#[trigger] shared@[t]) is Some ==> c1@[shared@[t]->0 as int] == c2@[t],
        decreases shared.len() - q,
    {
        match shared[q] {
            Some(p) => {
                if c1[p] != c2[q] {
                    return false;
                }
            },
            None => {},
        }
        q = q + 1;
    }
    true
}

/// The join of `c1` and `c2`.
pub fn join_comb(
    c1: &Vec<usize>,
    c2: &Vec<usize>,
    in_a: &Vec<bool>,
    pa: &Vec<usize>,
    pb: &Vec<usize>,
) -> (r: Vec<usize>)
    requires
        pa.len() == in_a.len(),
        pb.len() == in_a.len(),
        forall|k: int|
            0 <= k < in_a.len() ==> if #[trigger] in_a@[k] {
                pa@[k] < c1.len()
            } else {
                pb@[k] < c2.len()
            },
    ensures
        r@ == join_of(c1@, c2@, in_a@, pa@, pb@),
{
    let mut r: Vec<usize> = Vec::new();
    let mut k: usize = 0;
    while k < in_a.len()
        invariant
            k <= in_a.len(),
            pa.len() == in_a.len(),
            pb.len() == in_a.len(),
            forall|t: int|
                0 <= t < in_a.len() ==> if #[trigger] in_a@[t] {
                    pa@[t] < c1.len()
                } else {
                    pb@[t] < c2.len()
                },
            r.len() == k,
            forall|t: int| 0 <= t < k ==> #[trigger] r@[t] == join_of(c1@, c2@, in_a@, pa@, pb@)[t],
        decreases in_a.len() - k,
    {
        if in_a[k] {
            r.push(c1[pa[k]]);
        } else {
            r.push(c2[pb[k]]);
        }
        k = k + 1;
    }
    assert(r@ =~= join_of(c1@, c2@, in_a@, pa@, pb@));
    r
}

} // verus!
