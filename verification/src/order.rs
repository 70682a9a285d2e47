//! Ascending listings of sets of keys.
use vstd::prelude::*;
use vstd::std_specs::btree::increasing_seq;
use vstd::std_specs::cmp::OrdSpec;

verus! {

broadcast use {vstd::std_specs::btree::group_btree_axioms, vstd::laws_cmp::group_laws_cmp};

/// `lt` is a strict total order.
pub open spec fn strict_total<T>(lt: spec_fn(T, T) -> bool) -> bool {
    &&& forall|a: T| !#[trigger] lt(a, a)
    &&& forall|a: T, b: T, c: T| #[trigger] lt(a, b) && #[trigger] lt(b, c) ==> lt(a, c)
    &&& forall|a: T, b: T| a != b ==> #[trigger] lt(a, b) || lt(b, a)
}

/// The sequence is strictly increasing under `lt`.
pub open spec fn ascending_by<T>(q: Seq<T>, lt: spec_fn(T, T) -> bool) -> bool {
    forall|i: int, j: int| 0 <= i < j < q.len() ==> lt(#[trigger] q[i], #[trigger] q[j])
}

/// The order of revision ids.
pub open spec fn rid_lt() -> spec_fn(u32, u32) -> bool {
    |a: u32, b: u32| a < b
}

/// The order of UUIDs.
pub open spec fn uuid_lt() -> spec_fn(u128, u128) -> bool {
    |a: u128, b: u128| a < b
}

/// The revision ids are strictly increasing.
pub open spec fn ascending(q: Seq<u32>) -> bool {
    forall|i: int, j: int| 0 <= i < j < q.len() ==> q[i] < q[j]
}

/// The UUIDs are strictly increasing.
pub open spec fn ascending_wide(q: Seq<u128>) -> bool {
    forall|i: int, j: int| 0 <= i < j < q.len() ==> q[i] < q[j]
}

/// The revision ids of a finite set, in increasing order.
pub open spec fn sorted(s: Set<u32>) -> Seq<u32> {
    choose|q: Seq<u32>| ascending(q) && q.to_set() == s
}

/// The UUIDs of a finite set, in increasing order.
pub open spec fn sorted_wide(s: Set<u128>) -> Seq<u128> {
    choose|q: Seq<u128>| ascending_wide(q) && q.to_set() == s
}

/// An increasing sequence of revision ids (as an ordered map yields them) is ascending.
pub proof fn lemma_increasing(q: Seq<u32>)
    requires
        increasing_seq(q),
    ensures
        ascending(q),
{
    assert forall|i: int, j: int| 0 <= i < j < q.len() implies q[i] < q[j] by {
        assert(q[i].cmp_spec(&q[j]) is Less);
    }
}

/// An increasing sequence of references to revision ids (as an ordered set yields them)
/// points to an ascending sequence.
pub proof fn lemma_increasing_refs(q: Seq<&u32>)
    requires
        increasing_seq(q),
    ensures
        ascending(q.unref()),
{
    assert(vstd::laws_cmp::obeys_cmp::<&u32>());
    assert forall|i: int, j: int| 0 <= i < j < q.len() implies q.unref()[i] < q.unref()[j] by {
        assert(OrdSpec::cmp_spec(&q[i], &q[j]) is Less);
    }
}

/// An increasing sequence of UUIDs (as an ordered map yields them) is ascending.
pub proof fn lemma_increasing_wide(q: Seq<u128>)
    requires
        increasing_seq(q),
    ensures
        ascending_wide(q),
{
    assert forall|i: int, j: int| 0 <= i < j < q.len() implies q[i] < q[j] by {
        assert(q[i].cmp_spec(&q[j]) is Less);
    }
}

/// Two sequences that ascend under a strict total order and hold the same elements are the
/// same sequence.
pub proof fn lemma_ascending_unique_by<T>(a: Seq<T>, b: Seq<T>, lt: spec_fn(T, T) -> bool)
    requires
        strict_total(lt),
        ascending_by(a, lt),
        ascending_by(b, lt),
        a.to_set() == b.to_set(),
    ensures
        a == b,
    decreases a.len(),
{
    if a.len() == 0 {
        if b.len() > 0 {
            assert(b.to_set().contains(b[0]));
        }
        assert(a =~= b);
    } else {
        assert(a.to_set().contains(a[0]));
        assert(b.to_set().contains(a[0]));
        assert(b.len() > 0);
        assert(a.to_set().contains(b[0]));
        let k = choose|k: int| 0 <= k < b.len() && b[k] == a[0];
        let m = choose|m: int| 0 <= m < a.len() && a[m] == b[0];
        assert(k == 0) by {
            if k > 0 {
                assert(lt(b[0], b[k]));
                if m > 0 {
                    assert(lt(a[0], a[m]));
                }
            }
        }
        let a1 = a.drop_first();
        let b1 = b.drop_first();
        assert forall|x: T| a1.to_set().contains(x) implies b1.to_set().contains(x) by {
            let i = choose|i: int| 0 <= i < a1.len() && a1[i] == x;
            assert(a[i + 1] == x);
            assert(lt(a[0], a[i + 1]));
            assert(b.to_set().contains(x));
            let j = choose|j: int| 0 <= j < b.len() && b[j] == x;
            assert(j != 0);
            assert(b1[j - 1] == x);
        }
        assert forall|x: T| b1.to_set().contains(x) implies a1.to_set().contains(x) by {
            let i = choose|i: int| 0 <= i < b1.len() && b1[i] == x;
            assert(b[i + 1] == x);
            assert(lt(b[0], b[i + 1]));
            assert(a.to_set().contains(x));
            let j = choose|j: int| 0 <= j < a.len() && a[j] == x;
            assert(j != 0);
            assert(a1[j - 1] == x);
        }
        assert(a1.to_set() =~= b1.to_set());
        lemma_ascending_unique_by(a1, b1, lt);
        assert(a =~= b) by {
            assert(a =~= seq![a[0]] + a1);
            assert(b =~= seq![b[0]] + b1);
        }
    }
}

/// Under a strict total order, every finite set has a listing that ascends, and that
/// listing is as long as the set.
pub proof fn lemma_ascending_exists_by<T>(s: Set<T>, lt: spec_fn(T, T) -> bool)
    requires
        strict_total(lt),
        s.finite(),
    ensures
        exists|q: Seq<T>| ascending_by(q, lt) && q.to_set() == s && q.len() == s.len(),
    decreases s.len(),
{
    if s.len() == 0 {
        let q = Seq::<T>::empty();
        assert(q.to_set() =~= s);
        assert(ascending_by(q, lt) && q.to_set() == s && q.len() == s.len());
    } else {
        let top = lemma_greatest_by(s, lt);
        let rest = s.remove(top);
        lemma_ascending_exists_by(rest, lt);
        let p = choose|p: Seq<T>| ascending_by(p, lt) && p.to_set() == rest && p.len() == rest.len();
        let q = p.push(top);
        assert forall|i: int, j: int| 0 <= i < j < q.len() implies lt(#[trigger] q[i], #[trigger] q[j]) by {
            if j == q.len() - 1 {
                assert(p.to_set().contains(p[i]));
                assert(q[i] == p[i]);
            } else {
                assert(q[i] == p[i] && q[j] == p[j]);
            }
        }
        assert(q.to_set() =~= s) by {
            assert forall|x: T| q.to_set().contains(x) <==> s.contains(x) by {
                if x == top {
                    assert(q[p.len() as int] == x);
                }
                if s.contains(x) && x != top {
                    assert(p.to_set().contains(x));
                    let i = choose|i: int| 0 <= i < p.len() && p[i] == x;
                    assert(q[i] == x);
                }
                if q.to_set().contains(x) {
                    let i = choose|i: int| 0 <= i < q.len() && q[i] == x;
                    if i < p.len() {
                        assert(p[i] == x);
                        assert(p.to_set().contains(x));
                    }
                }
            }
        }
        assert(ascending_by(q, lt) && q.to_set() == s && q.len() == s.len());
    }
}

/// Under a strict total order, a finite non-empty set has a greatest element.
pub proof fn lemma_greatest_by<T>(s: Set<T>, lt: spec_fn(T, T) -> bool) -> (top: T)
    requires
        strict_total(lt),
        s.finite(),
        s.len() > 0,
    ensures
        s.contains(top),
        forall|x: T| #[trigger] s.contains(x) && x != top ==> lt(x, top),
    decreases s.len(),
{
    let x = s.choose();
    let rest = s.remove(x);
    if rest.len() == 0 {
        assert forall|y: T| #[trigger] s.contains(y) && y != x implies lt(y, x) by {
            assert(rest.contains(y));
        }
        x
    } else {
        let m = lemma_greatest_by(rest, lt);
        if lt(m, x) {
            assert forall|y: T| #[trigger] s.contains(y) && y != x implies lt(y, x) by {
                assert(rest.contains(y));
                if y != m {
                    assert(lt(y, m));
                }
            }
            x
        } else {
            assert forall|y: T| #[trigger] s.contains(y) && y != m implies lt(y, m) by {
                if y != x {
                    assert(rest.contains(y));
                }
            }
            m
        }
    }
}

proof fn lemma_rid_lt_total()
    ensures
        strict_total(rid_lt()),
{
}

proof fn lemma_uuid_lt_total()
    ensures
        strict_total(uuid_lt()),
{
}

/// Two ascending sequences with the same elements are the same sequence.
pub proof fn lemma_ascending_unique(a: Seq<u32>, b: Seq<u32>)
    requires
        ascending(a),
        ascending(b),
        a.to_set() == b.to_set(),
    ensures
        a == b,
{
    lemma_rid_lt_total();
    lemma_ascending_unique_by(a, b, rid_lt());
}

/// Two ascending sequences of UUIDs with the same elements are the same sequence.
pub proof fn lemma_ascending_unique_wide(a: Seq<u128>, b: Seq<u128>)
    requires
        ascending_wide(a),
        ascending_wide(b),
        a.to_set() == b.to_set(),
    ensures
        a == b,
{
    lemma_uuid_lt_total();
    lemma_ascending_unique_by(a, b, uuid_lt());
}

/// The sorted listing of a finite set of revision ids ascends, holds exactly the set, and
/// is as long as the set.
pub proof fn lemma_sorted(s: Set<u32>)
    requires
        s.finite(),
    ensures
        ascending(sorted(s)),
        sorted(s).to_set() == s,
        sorted(s).len() == s.len(),
{
    lemma_rid_lt_total();
    lemma_ascending_exists_by(s, rid_lt());
    let q = choose|q: Seq<u32>| ascending_by(q, rid_lt()) && q.to_set() == s && q.len() == s.len();
    assert(ascending(q));
    let r = sorted(s);
    assert(ascending(r) && r.to_set() == s);
    lemma_ascending_unique(r, q);
}

/// The sorted listing of a finite set of UUIDs ascends, holds exactly the set, and is as
/// long as the set.
pub proof fn lemma_sorted_wide(s: Set<u128>)
    requires
        s.finite(),
    ensures
        ascending_wide(sorted_wide(s)),
        sorted_wide(s).to_set() == s,
        sorted_wide(s).len() == s.len(),
{
    lemma_uuid_lt_total();
    lemma_ascending_exists_by(s, uuid_lt());
    let q = choose|q: Seq<u128>| ascending_by(q, uuid_lt()) && q.to_set() == s && q.len() == s.len();
    assert(ascending_wide(q));
    let r = sorted_wide(s);
    assert(ascending_wide(r) && r.to_set() == s);
    lemma_ascending_unique_wide(r, q);
}

/// Keeping the revision ids of an ascending sequence that meet a predicate gives an
/// ascending sequence of exactly those ids.
pub proof fn lemma_filter_ascending(s: Seq<u32>, p: spec_fn(u32) -> bool)
    requires
        ascending(s),
    ensures
        ascending(s.filter(p)),
        forall|x: u32| #[trigger] s.filter(p).contains(x) <==> s.contains(x) && p(x),
    decreases s.len(),
{
    reveal_with_fuel(Seq::filter, 1);
    if s.len() > 0 {
        let d = s.drop_last();
        let last = s.last();
        lemma_filter_ascending(d, p);
        let sub = d.filter(p);
        assert forall|x: u32| #[trigger] sub.contains(x) implies x < last by {
            let i = choose|i: int| 0 <= i < d.len() && d[i] == x;
            assert(s[i] == x);
        }
        assert forall|x: u32| s.contains(x) <==> d.contains(x) || x == last by {
            if s.contains(x) {
                let i = choose|i: int| 0 <= i < s.len() && s[i] == x;
                if i < d.len() {
                    assert(d[i] == x);
                }
            }
            if d.contains(x) {
                let i = choose|i: int| 0 <= i < d.len() && d[i] == x;
                assert(s[i] == x);
            }
            if x == last {
                assert(s[s.len() - 1] == x);
            }
        }
        if p(last) {
            let f = sub.push(last);
            assert(s.filter(p) == f);
            assert forall|i: int, j: int| 0 <= i < j < f.len() implies f[i] < f[j] by {
                if j == f.len() - 1 {
                    assert(sub.contains(f[i]));
                }
            }
            assert forall|x: u32| #[trigger] f.contains(x) <==> sub.contains(x) || x == last by {
                if f.contains(x) {
                    let i = choose|i: int| 0 <= i < f.len() && f[i] == x;
                    if i < sub.len() {
                        assert(sub[i] == x);
                    }
                }
                if sub.contains(x) {
                    let i = choose|i: int| 0 <= i < sub.len() && sub[i] == x;
                    assert(f[i] == x);
                }
                if x == last {
                    assert(f[f.len() - 1] == x);
                }
            }
        } else {
            assert(s.filter(p) == sub);
        }
    }
}

/// An ascending sequence is the sorted listing of its elements.
pub proof fn lemma_sorted_is(q: Seq<u32>)
    requires
        ascending(q),
    ensures
        sorted(q.to_set()) == q,
{
    let s = sorted(q.to_set());
    assert(ascending(s) && s.to_set() == q.to_set());
    lemma_ascending_unique(s, q);
}

/// An ascending sequence of UUIDs is the sorted listing of its elements.
pub proof fn lemma_sorted_is_wide(q: Seq<u128>)
    requires
        ascending_wide(q),
    ensures
        sorted_wide(q.to_set()) == q,
{
    let s = sorted_wide(q.to_set());
    assert(ascending_wide(s) && s.to_set() == q.to_set());
    lemma_ascending_unique_wide(s, q);
}

} // verus!
