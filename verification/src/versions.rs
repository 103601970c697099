//! Ordered sets of versions, kept as ascending vectors.

use vstd::prelude::*;
use crate::version::{lemma_version_order, SemVer};

verus! {

/// Whether the versions stand in strictly ascending order, so that none
/// occurs twice.
pub open spec fn is_ascending(s: Seq<SemVer>) -> bool {
    forall|i: int, j: int| 0 <= i < j < s.len() ==> (#[trigger] s[i]).spec_lt(#[trigger] s[j])
}

/// An ascending sequence is determined by the versions it holds.
pub proof fn lemma_ascending_unique(a: Seq<SemVer>, b: Seq<SemVer>)
    requires
        is_ascending(a),
        is_ascending(b),
        a.to_set() == b.to_set(),
    ensures
        a == b,
    decreases a.len(),
{
    if a.len() == 0 {
        if b.len() > 0 {
            assert(b.to_set().contains(b[0]));
            assert(a.to_set().contains(b[0]));
        }
        assert(a =~= b);
    } else {
        assert(a.to_set().contains(a[0]));
        assert(b.to_set().contains(a[0]));
        assert(b.len() > 0);
        assert(b.to_set().contains(b[0]));
        assert(a.to_set().contains(b[0]));
        let i = choose|i: int| 0 <= i < b.len() && b[i] == a[0];
        let j = choose|j: int| 0 <= j < a.len() && a[j] == b[0];
        lemma_version_order(a[0], b[0], b[0]);
        if i > 0 {
            assert(b[0].spec_lt(b[i]));
            if j > 0 {
                assert(a[0].spec_lt(a[j]));
            }
            assert(false);
        }
        assert(a[0] == b[0]);
        let ta = a.drop_first();
        let tb = b.drop_first();
        assert forall|v: SemVer| ta.to_set().contains(v) <==> tb.to_set().contains(v) by {
            if ta.to_set().contains(v) {
                let k = choose|k: int| 0 <= k < ta.len() && ta[k] == v;
                assert(a[k + 1] == v);
                assert(a[0].spec_lt(a[k + 1]));
                assert(a.to_set().contains(v));
                assert(b.to_set().contains(v));
                let m = choose|m: int| 0 <= m < b.len() && b[m] == v;
                lemma_version_order(a[0], v, v);
                assert(m > 0);
                assert(tb[m - 1] == v);
            }
            if tb.to_set().contains(v) {
                let k = choose|k: int| 0 <= k < tb.len() && tb[k] == v;
                assert(b[k + 1] == v);
                assert(b[0].spec_lt(b[k + 1]));
                assert(b.to_set().contains(v));
                assert(a.to_set().contains(v));
                let m = choose|m: int| 0 <= m < a.len() && a[m] == v;
                lemma_version_order(b[0], v, v);
                assert(m > 0);
                assert(ta[m - 1] == v);
            }
        }
        assert(ta.to_set() =~= tb.to_set());
        assert(is_ascending(ta)) by {
            assert forall|x: int, y: int| 0 <= x < y < ta.len() implies (#[trigger] ta[x]).spec_lt(
                #[trigger] ta[y],
            ) by {
                assert(a[x + 1].spec_lt(a[y + 1]));
            }
        }
        assert(is_ascending(tb)) by {
            assert forall|x: int, y: int| 0 <= x < y < tb.len() implies (#[trigger] tb[x]).spec_lt(
                #[trigger] tb[y],
            ) by {
                assert(b[x + 1].spec_lt(b[y + 1]));
            }
        }
        lemma_ascending_unique(ta, tb);
        assert(a =~= seq![a[0]] + ta);
        assert(b =~= seq![b[0]] + tb);
    }
}

/// Whether the ordered set holds the version.
pub fn contains_version(list: &Vec<SemVer>, v: SemVer) -> (b: bool)
    ensures
        b == list@.contains(v),
{
    let mut i: usize = 0;
    while i < list.len()
        invariant
            i <= list.len(),
            forall|j: int| 0 <= j < i ==> list@[j] != v,
        decreases list.len() - i,
    {
        let u = list[i];
        if u.major == v.major && u.minor == v.minor && u.patch == v.patch {
            return true;
        }
        i += 1;
    }
    false
}

/// Adds a version to an ordered set, at its place in the order.
pub fn insert_version(list: &mut Vec<SemVer>, v: SemVer)
    requires
        is_ascending(old(list)@),
    ensures
        is_ascending(final(list)@),
        final(list)@.to_set() == old(list)@.to_set().insert(v),
        old(list)@.contains(v) ==> final(list)@ == old(list)@,
        !old(list)@.contains(v) ==> final(list)@.len() == old(list)@.len() + 1,
{
    let mut i: usize = 0;
    while i < list.len() && list[i].lt(&v)
        invariant
            i <= list.len(),
            *list == *old(list),
            forall|j: int| 0 <= j < i ==> (#[trigger] list@[j]).spec_lt(v),
        decreases list.len() - i,
    {
        i += 1;
    }
    let ghost before = list@;
    if i < list.len() && list[i].le(&v) {
        proof {
            lemma_version_order(list@[i as int], v, v);
            assert(list@[i as int] == v);
            assert(before.to_set().contains(v));
            assert(before.to_set().insert(v) =~= before.to_set());
        }
        return ;
    }
    proof {
        assert forall|j: int| 0 <= j < before.len() implies before[j] != v by {
            if j < i {
                lemma_version_order(before[j], v, v);
            } else {
                lemma_version_order(before[i as int], v, v);
                if j > i {
                    assert(before[i as int].spec_lt(before[j]));
                    lemma_version_order(v, before[i as int], before[j]);
                }
                lemma_version_order(before[j], v, v);
            }
        }
    }
    list.insert(i, v);
    proof {
        let after = list@;
        assert(after == before.insert(i as int, v));
        assert forall|x: int, y: int| 0 <= x < y < after.len() implies (#[trigger] after[x]).spec_lt(
            #[trigger] after[y],
        ) by {
            let ax = after[x];
            let ay = after[y];
            if y < i {
                assert(ax == before[x] && ay == before[y]);
            } else if y == i {
                assert(ax == before[x]);
            } else if x < i {
                assert(ax == before[x] && ay == before[y - 1]);
                if y - 1 > x {
                } else {
                }
                lemma_version_order(before[i as int], v, v);
                lemma_version_order(ax, v, before[i as int]);
                if y - 1 > i {
                    assert(before[i as int].spec_lt(before[y - 1]));
                }
                lemma_version_order(ax, before[i as int], ay);
            } else if x == i {
                assert(ay == before[y - 1]);
                lemma_version_order(before[i as int], v, v);
                if y - 1 > i {
                    assert(before[i as int].spec_lt(before[y - 1]));
                    lemma_version_order(v, before[i as int], ay);
                }
            } else {
                assert(ax == before[x - 1] && ay == before[y - 1]);
            }
        }
        assert forall|u: SemVer| after.to_set().contains(u) <==> before.to_set().insert(
            v,
        ).contains(u) by {
            if after.to_set().contains(u) {
                let k = choose|k: int| 0 <= k < after.len() && after[k] == u;
                if k < i {
                    assert(before[k] == u);
                } else if k > i {
                    assert(before[k - 1] == u);
                }
            }
            if before.to_set().contains(u) {
                let k = choose|k: int| 0 <= k < before.len() && before[k] == u;
                if k < i {
                    assert(after[k] == u);
                } else {
                    assert(after[k + 1] == u);
                }
            }
            if u == v {
                assert(after[i as int] == v);
            }
        }
        assert(after.to_set() =~= before.to_set().insert(v));
    }
}

/// The union of two ordered sets.
pub fn merge_versions(a: &Vec<SemVer>, b: &Vec<SemVer>) -> (r: Vec<SemVer>)
    requires
        is_ascending(a@),
        is_ascending(b@),
    ensures
        is_ascending(r@),
        r@.to_set() == a@.to_set().union(b@.to_set()),
{
    let mut r: Vec<SemVer> = a.clone();
    let mut i: usize = 0;
    assert(a@.take(0).to_set() =~= Set::<SemVer>::empty());
    assert(r@.to_set() =~= a@.to_set().union(b@.take(0).to_set()));
    while i < b.len()
        invariant
            i <= b.len(),
            is_ascending(r@),
            r@.to_set() == a@.to_set().union(b@.take(i as int).to_set()),
        decreases b.len() - i,
    {
        insert_version(&mut r, b[i]);
        proof {
            let t0 = b@.take(i as int);
            let t1 = b@.take(i as int + 1);
            assert(t1 =~= t0.push(b@[i as int]));
            assert forall|u: SemVer| t1.to_set().contains(u) <==> t0.to_set().insert(
                b@[i as int],
            ).contains(u) by {
                if t1.to_set().contains(u) {
                    let k = choose|k: int| 0 <= k < t1.len() && t1[k] == u;
                    if k < i {
                        assert(t0[k] == u);
                    }
                }
                if t0.to_set().contains(u) {
                    let k = choose|k: int| 0 <= k < t0.len() && t0[k] == u;
                    assert(t1[k] == u);
                }
                if u == b@[i as int] {
                    assert(t1[i as int] == u);
                }
            }
            assert(t1.to_set() =~= t0.to_set().insert(b@[i as int]));
            assert(r@.to_set() =~= a@.to_set().union(t1.to_set()));
        }
        i += 1;
    }
    assert(b@.take(b.len() as int) =~= b@);
    r
}

/// The versions in the opposite order.
pub fn reversed(list: &Vec<SemVer>) -> (r: Vec<SemVer>)
    ensures
        r@ == list@.reverse(),
{
    let mut r: Vec<SemVer> = Vec::new();
    let mut i: usize = list.len();
    while i > 0
        invariant
            i <= list.len(),
            r@.len() == list.len() - i,
            forall|j: int| 0 <= j < r@.len() ==> r@[j] == list@[list.len() - 1 - j],
        decreases i,
    {
        i -= 1;
        r.push(list[i]);
    }
    assert(r@ =~= list@.reverse());
    r
}

} // verus!
