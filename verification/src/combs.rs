//! Value combinations over a data set: the projection of a row onto an ordered
//! list of attributes, and how many rows project onto a given combination.
use vstd::prelude::*;
use std::collections::BTreeSet;

use crate::varset::{is_var_order, var_seq};

verus! {

/// The rows of a data set as sequences of values.
pub open spec fn rows_of(data: Seq<Vec<usize>>) -> Seq<Seq<usize>> {
    data.map_values(|r: Vec<usize>| r@)
}

/// The values that `row` takes at the attributes `atts`, in that order.
pub open spec fn project(row: Seq<usize>, atts: Seq<usize>) -> Seq<usize> {
    Seq::new(atts.len(), |i: int| row[atts[i] as int])
}

/// Every row has a value for every attribute in `atts`.
pub open spec fn covers(rows: Seq<Seq<usize>>, atts: Seq<usize>) -> bool {
    forall|i: int, k: int|
        0 <= i < rows.len() && 0 <= k < atts.len() ==> #[trigger] atts[k] < #[trigger] rows[i].len()
}

/// How many rows take the values `comb` at the attributes `atts`.
pub open spec fn count_rows(rows: Seq<Seq<usize>>, atts: Seq<usize>, comb: Seq<usize>) -> nat
    decreases rows.len(),
{
    if rows.len() == 0 {
        0
    } else {
        count_rows(rows.drop_last(), atts, comb) + if project(rows.last(), atts) == comb {
            1nat
        } else {
            0nat
        }
    }
}

/// The indices of the rows that take the values `comb` at the attributes `atts`.
pub open spec fn matching_rows(rows: Seq<Seq<usize>>, atts: Seq<usize>, comb: Seq<usize>) -> Set<
    usize,
> {
    Set::new(|i: usize| i < rows.len() && project(rows[i as int], atts) == comb)
}

/// The combinations of values at `atts` that some row takes.
pub open spec fn observed_combs(rows: Seq<Seq<usize>>, atts: Seq<usize>) -> Set<Seq<usize>> {
    Set::new(|c: Seq<usize>| count_rows(rows, atts, c) > 0)
}

pub proof fn lemma_count_take_succ(rows: Seq<Seq<usize>>, atts: Seq<usize>, comb: Seq<usize>, k: int)
    requires
        0 <= k < rows.len(),
    ensures
        count_rows(rows.take(k + 1), atts, comb) == count_rows(rows.take(k), atts, comb) + if project(
            rows[k],
            atts,
        ) == comb {
            1nat
        } else {
            0nat
        },
{
    assert(rows.take(k + 1).drop_last() == rows.take(k));
}

pub proof fn lemma_count_le(rows: Seq<Seq<usize>>, atts: Seq<usize>, comb: Seq<usize>)
    ensures
        count_rows(rows, atts, comb) <= rows.len(),
    decreases rows.len(),
{
    if rows.len() > 0 {
        lemma_count_le(rows.drop_last(), atts, comb);
    }
}

/// A combination is counted exactly when some row takes it.
pub proof fn lemma_count_pos(rows: Seq<Seq<usize>>, atts: Seq<usize>, comb: Seq<usize>)
    ensures
        count_rows(rows, atts, comb) > 0 <==> exists|i: int|
            0 <= i < rows.len() && project(rows[i], atts) == comb,
    decreases rows.len(),
{
    if rows.len() > 0 {
        let d = rows.drop_last();
        lemma_count_pos(d, atts, comb);
        if count_rows(rows, atts, comb) > 0 {
            if count_rows(d, atts, comb) > 0 {
                let i = choose|i: int| 0 <= i < d.len() && project(d[i], atts) == comb;
                assert(rows[i] == d[i]);
            } else {
                assert(project(rows[rows.len() - 1], atts) == comb);
            }
        }
        if exists|i: int| 0 <= i < rows.len() && project(rows[i], atts) == comb {
            let i = choose|i: int| 0 <= i < rows.len() && project(rows[i], atts) == comb;
            if i < rows.len() - 1 {
                assert(d[i] == rows[i]);
            }
        }
    }
}

/// The rows that take a combination are as many as `count_rows` says.
pub proof fn lemma_matching_len(rows: Seq<Seq<usize>>, atts: Seq<usize>, comb: Seq<usize>)
    requires
        rows.len() <= usize::MAX,
    ensures
        matching_rows(rows, atts, comb).finite(),
        matching_rows(rows, atts, comb).len() == count_rows(rows, atts, comb),
    decreases rows.len(),
{
    if rows.len() == 0 {
        assert(matching_rows(rows, atts, comb) =~= Set::empty());
    } else {
        let d = rows.drop_last();
        lemma_matching_len(d, atts, comb);
        let n = (rows.len() - 1) as usize;
        let prev = matching_rows(d, atts, comb);
        let cur = matching_rows(rows, atts, comb);
        assert(!prev.contains(n));
        if project(rows.last(), atts) == comb {
            assert(cur =~= prev.insert(n)) by {
                assert forall|i: usize| cur.contains(i) implies prev.insert(n).contains(i) by {
                    if i < n {
                        assert(d[i as int] == rows[i as int]);
                    }
                }
                assert forall|i: usize| prev.insert(n).contains(i) implies cur.contains(i) by {
                    if i < n {
                        assert(d[i as int] == rows[i as int]);
                    }
                }
            }
        } else {
            assert(cur =~= prev) by {
                assert forall|i: usize| cur.contains(i) implies prev.contains(i) by {
                    assert(i != n);
                    assert(d[i as int] == rows[i as int]);
                }
                assert forall|i: usize| prev.contains(i) implies cur.contains(i) by {
                    assert(d[i as int] == rows[i as int]);
                }
            }
        }
    }
}

/// Projecting a projection: if `pos` picks out, inside `atts`, the
/// attributes `sub`, then projecting onto `atts` and then through `pos` is
/// projecting onto `sub`.
pub proof fn lemma_project_compose(row: Seq<usize>, atts: Seq<usize>, pos: Seq<usize>, sub: Seq<usize>)
    requires
        pos.len() == sub.len(),
        forall|k: int| 0 <= k < pos.len() ==> #[trigger] pos[k] < atts.len() && atts[pos[k] as int] == sub[k],
    ensures
        project(project(row, atts), pos) == project(row, sub),
{
    let l = project(project(row, atts), pos);
    let r = project(row, sub);
    assert forall|k: int| 0 <= k < pos.len() implies l[k] == r[k] by {
        assert(pos[k] < atts.len() && atts[pos[k] as int] == sub[k]);
    }
    assert(l =~= r);
}

/// The counts of those combinations in `keys` (over the attributes `atts`)
/// whose values at the positions `pos` are `target`, summed.
pub open spec fn sum_matching(
    rows: Seq<Seq<usize>>,
    atts: Seq<usize>,
    keys: Seq<Seq<usize>>,
    pos: Seq<usize>,
    target: Seq<usize>,
) -> nat
    decreases keys.len(),
{
    if keys.len() == 0 {
        0
    } else {
        sum_matching(rows, atts, keys.drop_last(), pos, target) + if project(keys.last(), pos)
            == target {
            count_rows(rows, atts, keys.last())
        } else {
            0
        }
    }
}

/// How many of `keys` equal `x` and have the values `target` at `pos`.
pub open spec fn hits(keys: Seq<Seq<usize>>, pos: Seq<usize>, target: Seq<usize>, x: Seq<usize>) -> nat
    decreases keys.len(),
{
    if keys.len() == 0 {
        0
    } else {
        hits(keys.drop_last(), pos, target, x) + if project(keys.last(), pos) == target
            && keys.last() == x {
            1nat
        } else {
            0nat
        }
    }
}

/// `keys` lists every combination that a row takes at `atts`.
pub open spec fn complete_keys(rows: Seq<Seq<usize>>, atts: Seq<usize>, keys: Seq<Seq<usize>>) -> bool {
    forall|i: int| 0 <= i < rows.len() ==> keys.contains(#[trigger] project(rows[i], atts))
}

pub proof fn lemma_sum_matching_take_succ(
    rows: Seq<Seq<usize>>,
    atts: Seq<usize>,
    keys: Seq<Seq<usize>>,
    pos: Seq<usize>,
    target: Seq<usize>,
    j: int,
)
    requires
        0 <= j < keys.len(),
    ensures
        sum_matching(rows, atts, keys.take(j + 1), pos, target) == sum_matching(
            rows,
            atts,
            keys.take(j),
            pos,
            target,
        ) + if project(keys[j], pos) == target {
            count_rows(rows, atts, keys[j])
        } else {
            0
        },
{
    assert(keys.take(j + 1).drop_last() == keys.take(j));
}

pub proof fn lemma_sum_matching_mono(
    rows: Seq<Seq<usize>>,
    atts: Seq<usize>,
    keys: Seq<Seq<usize>>,
    pos: Seq<usize>,
    target: Seq<usize>,
    j: int,
)
    requires
        0 <= j <= keys.len(),
    ensures
        sum_matching(rows, atts, keys.take(j), pos, target) <= sum_matching(rows, atts, keys, pos, target),
    decreases keys.len() - j,
{
    if j < keys.len() {
        lemma_sum_matching_take_succ(rows, atts, keys, pos, target, j);
        lemma_sum_matching_mono(rows, atts, keys, pos, target, j + 1);
    } else {
        assert(keys.take(j) == keys);
    }
}

proof fn lemma_sum_matching_no_rows(atts: Seq<usize>, keys: Seq<Seq<usize>>, pos: Seq<usize>, target: Seq<usize>)
    ensures
        sum_matching(Seq::empty(), atts, keys, pos, target) == 0,
    decreases keys.len(),
{
    if keys.len() > 0 {
        lemma_sum_matching_no_rows(atts, keys.drop_last(), pos, target);
    }
}

proof fn lemma_sum_matching_last_row(
    rows: Seq<Seq<usize>>,
    atts: Seq<usize>,
    keys: Seq<Seq<usize>>,
    pos: Seq<usize>,
    target: Seq<usize>,
)
    requires
        rows.len() > 0,
    ensures
        sum_matching(rows, atts, keys, pos, target) == sum_matching(rows.drop_last(), atts, keys, pos, target)
            + hits(keys, pos, target, project(rows.last(), atts)),
    decreases keys.len(),
{
    if keys.len() > 0 {
        lemma_sum_matching_last_row(rows, atts, keys.drop_last(), pos, target);
    }
}

proof fn lemma_hits(keys: Seq<Seq<usize>>, pos: Seq<usize>, target: Seq<usize>, x: Seq<usize>)
    requires
        keys.no_duplicates(),
    ensures
        hits(keys, pos, target, x) == if keys.contains(x) && project(x, pos) == target {
            1nat
        } else {
            0nat
        },
    decreases keys.len(),
{
    if keys.len() > 0 {
        let d = keys.drop_last();
        assert(d.no_duplicates()) by {
            assert forall|i: int, j: int| 0 <= i < d.len() && 0 <= j < d.len() && i != j implies d[i] != d[j] by {
                assert(d[i] == keys[i] && d[j] == keys[j]);
            }
        }
        lemma_hits(d, pos, target, x);
        if keys.last() == x {
            if d.contains(x) {
                let i = choose|i: int| 0 <= i < d.len() && d[i] == x;
                assert(keys[i] == x && keys[keys.len() - 1] == x);
            }
            assert(keys.contains(x)) by {
                assert(keys[keys.len() - 1] == x);
            }
        } else {
            if keys.contains(x) {
                let i = choose|i: int| 0 <= i < keys.len() && keys[i] == x;
                assert(i < keys.len() - 1);
                assert(d[i] == x);
            }
            if d.contains(x) {
                let i = choose|i: int| 0 <= i < d.len() && d[i] == x;
                assert(keys[i] == x);
            }
        }
    }
}

/// Marginalising counts: when `keys` lists, once each, every combination the
/// rows take at `atts`, and `pos` maps a combination at `atts` onto the
/// attributes `sub`, then summing the counts of the keys that map onto
/// `target` gives the count of `target` at `sub`.
pub proof fn law_marginal_counts(
    rows: Seq<Seq<usize>>,
    atts: Seq<usize>,
    keys: Seq<Seq<usize>>,
    pos: Seq<usize>,
    sub: Seq<usize>,
    target: Seq<usize>,
)
    requires
        keys.no_duplicates(),
        complete_keys(rows, atts, keys),
        forall|i: int|
            0 <= i < rows.len() ==> project(project(rows[i], atts), pos) == #[trigger] project(rows[i], sub),
    ensures
        sum_matching(rows, atts, keys, pos, target) == count_rows(rows, sub, target),
    decreases rows.len(),
{
    if rows.len() == 0 {
        lemma_sum_matching_no_rows(atts, keys, pos, target);
        assert(rows == Seq::<Seq<usize>>::empty());
    } else {
        let d = rows.drop_last();
        assert forall|i: int| 0 <= i < d.len() implies keys.contains(#[trigger] project(d[i], atts)) by {
            assert(d[i] == rows[i]);
            assert(keys.contains(project(rows[i], atts)));
        }
        assert forall|i: int| 0 <= i < d.len() implies project(project(d[i], atts), pos) == #[trigger] project(d[i], sub) by {
            assert(d[i] == rows[i]);
            assert(project(project(rows[i], atts), pos) == project(rows[i], sub));
        }
        law_marginal_counts(d, atts, keys, pos, sub, target);
        lemma_sum_matching_last_row(rows, atts, keys, pos, target);
        let x = project(rows.last(), atts);
        lemma_hits(keys, pos, target, x);
        let l = rows.len() - 1;
        assert(rows[l] == rows.last());
        assert(keys.contains(project(rows[l], atts)));
        assert(project(project(rows[l], atts), pos) == project(rows[l], sub));
    }
}

/// The counts of the observed combinations add up to the number of rows.
pub proof fn law_total_count(rows: Seq<Seq<usize>>, atts: Seq<usize>, keys: Seq<Seq<usize>>)
    requires
        keys.no_duplicates(),
        complete_keys(rows, atts, keys),
    ensures
        sum_matching(rows, atts, keys, Seq::empty(), Seq::empty()) == rows.len(),
{
    let e = Seq::<usize>::empty();
    assert forall|i: int| 0 <= i < rows.len() implies project(project(rows[i], atts), e) == #[trigger] project(rows[i], e) by {
        assert(project(project(rows[i], atts), e) =~= project(rows[i], e));
    }
    law_marginal_counts(rows, atts, keys, e, e, e);
    lemma_count_all(rows, e);
}

/// Every row takes the empty combination.
pub proof fn lemma_count_all(rows: Seq<Seq<usize>>, e: Seq<usize>)
    requires
        e.len() == 0,
    ensures
        count_rows(rows, e, e) == rows.len(),
    decreases rows.len(),
{
    if rows.len() > 0 {
        lemma_count_all(rows.drop_last(), e);
        assert(project(rows.last(), e) =~= e);
    }
}

/// The sequences that the vectors hold.
pub open spec fn views(vs: Seq<Vec<usize>>) -> Seq<Seq<usize>> {
    vs.map_values(|v: Vec<usize>| v@)
}

/// Whether the two vectors hold the same values.
pub fn same_values(a: &Vec<usize>, b: &Vec<usize>) -> (r: bool)
    ensures
        r == (a@ == b@),
{
    if a.len() != b.len() {
        return false;
    }
    let mut i: usize = 0;
    while i < a.len()
        invariant
            a.len() == b.len(),
            i <= a.len(),
            forall|k: int| 0 <= k < i ==> a@[k] == b@[k],
        decreases a.len() - i,
    {
        if a[i] != b[i] {
            return false;
        }
        i = i + 1;
    }
    assert(a@ =~= b@);
    true
}

/// The position of the combination `c` in `combs`, if it is there.
pub fn find_comb(combs: &Vec<Vec<usize>>, c: &Vec<usize>) -> (r: Option<usize>)
    ensures
        match r {
            Some(j) => j < combs.len() && combs@[j as int]@ == c@,
            None => !views(combs@).contains(c@),
        },
{
    let mut j: usize = 0;
    while j < combs.len()
        invariant
            j <= combs.len(),
            forall|k: int| 0 <= k < j ==> combs@[k]@ != c@,
        decreases combs.len() - j,
    {
        if same_values(&combs[j], c) {
            return Some(j);
        }
        j = j + 1;
    }
    proof {
        if views(combs@).contains(c@) {
            let k = choose|k: int| 0 <= k < combs@.len() && views(combs@)[k] == c@;
            assert(combs@[k]@ == c@);
        }
    }
    None
}

/// The position of `x` in `v`, if it is there.
pub fn index_of(v: &Vec<usize>, x: usize) -> (r: Option<usize>)
    ensures
        match r {
            Some(p) => p < v.len() && v@[p as int] == x,
            None => !v@.contains(x),
        },
{
    let mut p: usize = 0;
    while p < v.len()
        invariant
            p <= v.len(),
            forall|k: int| 0 <= k < p ==> v@[k] != x,
        decreases v.len() - p,
    {
        if v[p] == x {
            return Some(p);
        }
        p = p + 1;
    }
    None
}

pub proof fn lemma_matching_take_succ(rows: Seq<Seq<usize>>, atts: Seq<usize>, comb: Seq<usize>, k: int)
    requires
        0 <= k < rows.len(),
        rows.len() <= usize::MAX,
    ensures
        matching_rows(rows.take(k + 1), atts, comb) == if project(rows[k], atts) == comb {
            matching_rows(rows.take(k), atts, comb).insert(k as usize)
        } else {
            matching_rows(rows.take(k), atts, comb)
        },
{
    let pre = rows.take(k);
    let post = rows.take(k + 1);
    if project(rows[k], atts) == comb {
        assert(matching_rows(post, atts, comb) =~= matching_rows(pre, atts, comb).insert(k as usize)) by {
            assert forall|i: usize| matching_rows(post, atts, comb).contains(i) implies matching_rows(pre, atts, comb).insert(k as usize).contains(i) by {
                if i < k {
                    assert(post[i as int] == pre[i as int]);
                }
            }
            assert forall|i: usize| matching_rows(pre, atts, comb).insert(k as usize).contains(i) implies matching_rows(post, atts, comb).contains(i) by {
                if i < k {
                    assert(post[i as int] == pre[i as int]);
                } else {
                    assert(post[k] == rows[k]);
                }
            }
        }
    } else {
        assert(matching_rows(post, atts, comb) =~= matching_rows(pre, atts, comb)) by {
            assert forall|i: usize| matching_rows(post, atts, comb).contains(i) implies matching_rows(pre, atts, comb).contains(i) by {
                if i == k {
                    assert(post[k] == rows[k]);
                }
                assert(post[i as int] == pre[i as int] || i == k);
            }
            assert forall|i: usize| matching_rows(pre, atts, comb).contains(i) implies matching_rows(post, atts, comb).contains(i) by {
                assert(post[i as int] == pre[i as int]);
            }
        }
    }
}

/// The values of the combination `c` (over the attributes `atts`) at those
/// of its attributes that are in `sub`, in the order of `atts`.
pub open spec fn restrict(c: Seq<usize>, atts: Seq<usize>, sub: Set<usize>) -> Seq<usize>
    decreases atts.len(),
{
    if atts.len() == 0 {
        Seq::empty()
    } else {
        let rest = restrict(c, atts.drop_last(), sub);
        if sub.contains(atts.last()) {
            rest.push(c[atts.len() - 1])
        } else {
            rest
        }
    }
}

/// `restrict` reads only the first `atts.len()` values of the combination.
proof fn lemma_restrict_prefix(c1: Seq<usize>, c2: Seq<usize>, atts: Seq<usize>, sub: Set<usize>)
    requires
        c1.len() >= atts.len(),
        c2.len() >= atts.len(),
        forall|k: int| 0 <= k < atts.len() ==> c1[k] == c2[k],
    ensures
        restrict(c1, atts, sub) == restrict(c2, atts, sub),
    decreases atts.len(),
{
    if atts.len() > 0 {
        lemma_restrict_prefix(c1, c2, atts.drop_last(), sub);
    }
}

/// Restricting the values of a row at `atts` to the attributes of `sub`
/// gives the values of the row at the attributes of `atts` that are in
/// `sub`.
proof fn lemma_restrict_project(r: Seq<usize>, c: Seq<usize>, atts: Seq<usize>, sub: Set<usize>)
    requires
        c.len() >= atts.len(),
        forall|k: int| 0 <= k < atts.len() ==> c[k] == r[atts[k] as int],
    ensures
        restrict(c, atts, sub) == project(r, restrict(atts, atts, sub)),
    decreases atts.len(),
{
    if atts.len() > 0 {
        let d = atts.drop_last();
        lemma_restrict_project(r, c, d, sub);
        lemma_restrict_prefix(atts, d, d, sub);
        let rd = restrict(d, d, sub);
        if sub.contains(atts.last()) {
            assert(project(r, rd.push(atts.last())) =~= project(r, rd).push(r[atts.last() as int]));
        }
    }
}

/// The attributes of an increasing `atts` that are in `sub` form an
/// increasing sequence, of the members of `atts` in `sub`.
proof fn lemma_restrict_order(atts: Seq<usize>, sub: Set<usize>)
    requires
        is_var_order(atts),
    ensures
        is_var_order(restrict(atts, atts, sub)),
        restrict(atts, atts, sub).to_set() == atts.to_set().intersect(sub),
        forall|k: int| 0 <= k < restrict(atts, atts, sub).len() ==> atts.contains(#[trigger] restrict(atts, atts, sub)[k]),
    decreases atts.len(),
{
    if atts.len() > 0 {
        let d = atts.drop_last();
        assert(is_var_order(d));
        lemma_restrict_order(d, sub);
        lemma_restrict_prefix(atts, d, d, sub);
        let rd = restrict(d, d, sub);
        let x = atts.last();
        assert forall|k: int| 0 <= k < rd.len() implies rd[k] < x by {
            assert(d.contains(rd[k]));
            let j = choose|j: int| 0 <= j < d.len() && d[j] == rd[k];
            assert(atts[j] == d[j]);
        }
        assert forall|k: int| 0 <= k < rd.len() implies atts.contains(#[trigger] rd[k]) by {
            assert(d.contains(rd[k]));
            let j = choose|j: int| 0 <= j < d.len() && d[j] == rd[k];
            assert(atts[j] == d[j]);
        }
        assert(atts == d.push(x));
        d.lemma_push_to_set_commute(x);
        if sub.contains(x) {
            rd.lemma_push_to_set_commute(x);
            assert(restrict(atts, atts, sub).to_set() =~= atts.to_set().intersect(sub));
            assert(atts.contains(x)) by {
                assert(atts[atts.len() - 1] == x);
            }
        } else {
            assert(restrict(atts, atts, sub).to_set() =~= atts.to_set().intersect(sub));
        }
    } else {
        assert(restrict(atts, atts, sub).to_set() =~= atts.to_set().intersect(sub));
    }
}

/// The values that the combinations observed at the attributes `atts` (in
/// increasing order) take at the attributes of `sub` are the combinations
/// observed at `sub`: distinct values at `sub` among the combinations of a
/// table are as many as the combinations of the table over `sub`.
pub proof fn law_restrict_observed(rows: Seq<Seq<usize>>, atts: Seq<usize>, sub: Set<usize>)
    requires
        is_var_order(atts),
        sub.subset_of(atts.to_set()),
    ensures
        observed_combs(rows, atts).map(|c: Seq<usize>| restrict(c, atts, sub)) == observed_combs(
            rows,
            var_seq(sub),
        ),
{
    lemma_restrict_order(atts, sub);
    let ra = restrict(atts, atts, sub);
    assert(ra.to_set() =~= sub);
    crate::varset::lemma_var_seq_of(ra);
    assert(var_seq(sub) == ra);
    let lhs = observed_combs(rows, atts).map(|c: Seq<usize>| restrict(c, atts, sub));
    let rhs = observed_combs(rows, ra);
    assert forall|y: Seq<usize>| lhs.contains(y) implies rhs.contains(y) by {
        let c = choose|c: Seq<usize>| observed_combs(rows, atts).contains(c) && restrict(c, atts, sub) == y;
        lemma_count_pos(rows, atts, c);
        let i = choose|i: int| 0 <= i < rows.len() && project(rows[i], atts) == c;
        lemma_restrict_project(rows[i], c, atts, sub);
        lemma_count_pos(rows, ra, y);
    }
    assert forall|y: Seq<usize>| rhs.contains(y) implies lhs.contains(y) by {
        lemma_count_pos(rows, ra, y);
        let i = choose|i: int| 0 <= i < rows.len() && project(rows[i], ra) == y;
        let c = project(rows[i], atts);
        lemma_count_pos(rows, atts, c);
        lemma_restrict_project(rows[i], c, atts, sub);
        assert(observed_combs(rows, atts).contains(c));
    }
    assert(lhs =~= rhs);
}

/// The distinct values at `sub` among the combinations of a table over the
/// attributes `atts` (listed in `keys`) are the combinations of the table
/// over `sub`.
pub proof fn law_distinct_restrictions(rows: Seq<Seq<usize>>, atts: Seq<usize>, keys: Seq<Seq<usize>>, sub: Set<usize>)
    requires
        is_var_order(atts),
        sub.subset_of(atts.to_set()),
        keys.to_set() == observed_combs(rows, atts),
    ensures
        keys.map_values(|c: Seq<usize>| restrict(c, atts, sub)).to_set() == observed_combs(rows, var_seq(sub)),
{
    law_restrict_observed(rows, atts, sub);
    let m = keys.map_values(|c: Seq<usize>| restrict(c, atts, sub));
    let om = observed_combs(rows, atts).map(|c: Seq<usize>| restrict(c, atts, sub));
    assert forall|y: Seq<usize>| m.to_set().contains(y) implies om.contains(y) by {
        let j = choose|j: int| 0 <= j < m.len() && m[j] == y;
        assert(keys.to_set().contains(keys[j]));
    }
    assert forall|y: Seq<usize>| om.contains(y) implies m.to_set().contains(y) by {
        let c = choose|c: Seq<usize>| observed_combs(rows, atts).contains(c) && restrict(c, atts, sub) == y;
        assert(keys.to_set().contains(c));
        let j = choose|j: int| 0 <= j < keys.len() && keys[j] == c;
        assert(m[j] == y);
    }
    assert(m.to_set() =~= om);
}

/// `restrict` of one combination.
fn restrict_comb(c: &Vec<usize>, atts: &Vec<usize>, sub: &BTreeSet<usize>) -> (r: Vec<usize>)
    requires
        c.len() == atts.len(),
    ensures
        r@ == restrict(c@, atts@, sub@),
{
    broadcast use vstd::std_specs::btree::group_btree_axioms;

    let mut r: Vec<usize> = Vec::new();
    let mut k: usize = 0;
    proof {
        assert(atts@.take(0) =~= Seq::<usize>::empty());
    }
    while k < atts.len()
        invariant
            k <= atts.len(),
            c.len() == atts.len(),
            r@ == restrict(c@, atts@.take(k as int), sub@),
        decreases atts.len() - k,
    {
        proof {
            assert(atts@.take(k + 1).drop_last() == atts@.take(k as int));
            assert(atts@.take(k + 1).last() == atts@[k as int]);
        }
        if sub.contains(&atts[k]) {
            r.push(c[k]);
        }
        k = k + 1;
    }
    assert(atts@.take(k as int) == atts@);
    r
}

/// How many distinct values the combinations `combs` (over the attributes
/// `atts`) take at the attributes of `sub`.
pub fn count_distinct_at(combs: &Vec<Vec<usize>>, atts: &Vec<usize>, sub: &BTreeSet<usize>) -> (r: usize)
    requires
        forall|j: int| 0 <= j < combs.len() ==> (#[trigger] combs@[j]).len() == atts.len(),
    ensures
        r == views(combs@).map_values(|c: Seq<usize>| restrict(c, atts@, sub@)).to_set().len(),
{
    let ghost all = views(combs@).map_values(|c: Seq<usize>| restrict(c, atts@, sub@));
    let mut seen: Vec<Vec<usize>> = Vec::new();
    let mut j: usize = 0;
    proof {
        assert(views(seen@) =~= Seq::<Seq<usize>>::empty());
        assert(all.take(0) =~= Seq::<Seq<usize>>::empty());
    }
    while j < combs.len()
        invariant
            j <= combs.len(),
            forall|i: int| 0 <= i < combs.len() ==> (#[trigger] combs@[i]).len() == atts.len(),
            all == views(combs@).map_values(|c: Seq<usize>| restrict(c, atts@, sub@)),
            views(seen@).no_duplicates(),
            views(seen@).to_set() == all.take(j as int).to_set(),
        decreases combs.len() - j,
    {
        let x = restrict_comb(&combs[j], atts, sub);
        let ghost before = views(seen@);
        proof {
            assert(x@ == all[j as int]);
            assert(all.take(j + 1) == all.take(j as int).push(x@));
            all.take(j as int).lemma_push_to_set_commute(x@);
        }
        match find_comb(&seen, &x) {
            Some(t) => {
                proof {
                    assert(before[t as int] == x@);
                    assert(before.contains(x@));
                    assert(before.to_set().contains(x@));
                    assert(before.to_set().insert(x@) =~= before.to_set());
                }
            },
            None => {
                seen.push(x);
                proof {
                    assert(views(seen@) =~= before.push(x@));
                    before.lemma_push_to_set_commute(x@);
                    assert(views(seen@).no_duplicates()) by {
                        let s2 = views(seen@);
                        assert forall|p: int, q: int| 0 <= p < s2.len() && 0 <= q < s2.len() && p != q implies s2[p] != s2[q] by {
                            if p < before.len() && q < before.len() {
                                assert(s2[p] == before[p] && s2[q] == before[q]);
                            } else if p < before.len() {
                                assert(before.contains(s2[p]));
                            } else {
                                assert(before.contains(s2[q]));
                            }
                        }
                    }
                }
            },
        }
        j = j + 1;
    }
    proof {
        assert(all.take(j as int) == all);
        views(seen@).unique_seq_to_set();
    }
    seen.len()
}

} // verus!
