//! Indexes from a key to the set of revision ids filed under it.
use std::collections::{BTreeMap, BTreeSet};
use vstd::prelude::*;
use vstd::std_specs::btree::spec_btree_keys_iter;
use vstd::std_specs::iter::IteratorSpec;

use crate::text::{lemma_text_lt_irreflexive, lemma_text_lt_total, lemma_text_lt_transitive, text_eq, text_less, text_lt};

verus! {

broadcast use {vstd::std_specs::btree::group_btree_axioms, vstd::laws_cmp::group_laws_cmp};

/// One end of a range of keys.
#[derive(Debug, Clone, Copy)]
pub enum Bound<T> {
    /// The range includes this key.
    Included(T),
    /// The range stops just short of this key.
    Excluded(T),
    /// The range is open on this side.
    Unbounded,
}

/// The index after filing revision `r` under key `k`.
pub open spec fn add_rid<K>(m: Map<K, Set<u32>>, k: K, r: u32) -> Map<K, Set<u32>> {
    m.insert(
        k,
        if m.contains_key(k) {
            m[k].insert(r)
        } else {
            set![r]
        },
    )
}

/// The index after withdrawing revision `r` from key `k`; a key left with no revision is
/// dropped.
pub open spec fn drop_rid<K>(m: Map<K, Set<u32>>, k: K, r: u32) -> Map<K, Set<u32>> {
    if m.contains_key(k) {
        if m[k].remove(r).is_empty() {
            m.remove(k)
        } else {
            m.insert(k, m[k].remove(r))
        }
    } else {
        m
    }
}

/// The revisions filed under key `k` (none if the key is absent).
pub open spec fn lookup<K>(m: Map<K, Set<u32>>, k: K) -> Set<u32> {
    if m.contains_key(k) {
        m[k]
    } else {
        Set::empty()
    }
}

/// `k` lies at or after the start bound `b`, under the strict order `lt`.
pub open spec fn after_start<K>(k: K, b: Bound<K>, lt: spec_fn(K, K) -> bool) -> bool {
    match b {
        Bound::Included(s) => !lt(k, s),
        Bound::Excluded(s) => lt(s, k),
        Bound::Unbounded => true,
    }
}

/// `k` lies at or before the end bound `b`, under the strict order `lt`.
pub open spec fn before_end<K>(k: K, b: Bound<K>, lt: spec_fn(K, K) -> bool) -> bool {
    match b {
        Bound::Included(e) => !lt(e, k),
        Bound::Excluded(e) => lt(k, e),
        Bound::Unbounded => true,
    }
}

/// `k` lies within the range from `lo` to `hi`.
pub open spec fn in_range<K>(k: K, lo: Bound<K>, hi: Bound<K>, lt: spec_fn(K, K) -> bool) -> bool {
    after_start(k, lo, lt) && before_end(k, hi, lt)
}

/// All revisions filed under some key within the range from `lo` to `hi`.
pub open spec fn range_union<K>(
    m: Map<K, Set<u32>>,
    lo: Bound<K>,
    hi: Bound<K>,
    lt: spec_fn(K, K) -> bool,
) -> Set<u32> {
    Set::new(
        |r: u32|
            exists|k: K| #[trigger]
                m.contains_key(k) && in_range(k, lo, hi, lt) && m[k].contains(r),
    )
}

/// The order of numeric keys.
pub open spec fn num_order() -> spec_fn(u64, u64) -> bool {
    |a: u64, b: u64| a < b
}

/// The order of text keys: lexicographic by code point.
pub open spec fn text_order() -> spec_fn(Seq<char>, Seq<char>) -> bool {
    |a: Seq<char>, b: Seq<char>| text_lt(a, b)
}

/// Adds every element of `s` to `out`.
pub fn union_into(out: &mut BTreeSet<u32>, s: &BTreeSet<u32>)
    ensures
        final(out)@ == old(out)@ + s@,
{
    let ghost r = spec_btree_keys_iter(s).remaining();
    for x in it: s.iter()
        invariant
            it.seq() == r,
            r.unref().to_set() == s@,
            out@ == old(out)@ + r.unref().take(it.index()).to_set(),
    {
        let ghost before = r.unref().take(it.index());
        out.insert(*x);
        assert(r.unref().take(it.index() + 1) =~= before.push(*x));
        proof { before.lemma_push_to_set_commute(*x); }
        assert(out@ =~= old(out)@ + r.unref().take(it.index() + 1).to_set());
    }
    assert(r.unref().take(r.len() as int) =~= r.unref());
    assert(out@ =~= old(out)@ + s@);
}

/// A number lies within a range exactly when it is at least an included start, above an
/// excluded one, at most an included end, and below an excluded one.
pub proof fn lemma_numeric_bounds(k: u64, a: u64)
    ensures
        after_start(k, Bound::Included(a), num_order()) == (a <= k),
        after_start(k, Bound::Excluded(a), num_order()) == (a < k),
        after_start(k, Bound::Unbounded, num_order()),
        before_end(k, Bound::Included(a), num_order()) == (k <= a),
        before_end(k, Bound::Excluded(a), num_order()) == (k < a),
        before_end(k, Bound::Unbounded, num_order()),
{
}

/// No key lies in the range from `lo` to `hi`.
pub open spec fn no_key_in<K>(lo: Bound<K>, hi: Bound<K>, lt: spec_fn(K, K) -> bool) -> bool {
    forall|k: K| !#[trigger] in_range(k, lo, hi, lt)
}

/// The numeric range starts after it ends, or is empty with both ends excluded at one key.
pub open spec fn reversed(lo: Bound<u64>, hi: Bound<u64>) -> bool {
    match (lo, hi) {
        (Bound::Included(s), Bound::Included(e)) => e < s,
        (Bound::Included(s), Bound::Excluded(e)) => e <= s,
        (Bound::Excluded(s), Bound::Included(e)) => e <= s,
        (Bound::Excluded(s), Bound::Excluded(e)) => e <= s,
        _ => false,
    }
}

/// A reversed numeric range holds no key.
pub proof fn lemma_reversed_range_is_empty(lo: Bound<u64>, hi: Bound<u64>)
    requires
        reversed(lo, hi),
    ensures
        no_key_in(lo, hi, num_order()),
{
}

/// `BTreeMap::range` refuses the range: it starts after it ends, or it is empty with both
/// ends excluded at one key.
pub open spec fn range_refused(lo: Bound<u64>, hi: Bound<u64>) -> bool {
    match (lo, hi) {
        (Bound::Included(s), Bound::Included(e)) => e < s,
        (Bound::Included(s), Bound::Excluded(e)) => e < s,
        (Bound::Excluded(s), Bound::Included(e)) => e < s,
        (Bound::Excluded(s), Bound::Excluded(e)) => e <= s,
        _ => false,
    }
}

/// Whether `BTreeMap::range` refuses the range from `lo` to `hi`.
fn is_range_refused(lo: &Bound<u64>, hi: &Bound<u64>) -> (r: bool)
    ensures
        r == range_refused(*lo, *hi),
{
    match (lo, hi) {
        (Bound::Included(s), Bound::Included(e)) => *e < *s,
        (Bound::Included(s), Bound::Excluded(e)) => *e < *s,
        (Bound::Excluded(s), Bound::Included(e)) => *e < *s,
        (Bound::Excluded(s), Bound::Excluded(e)) => *e <= *s,
        _ => false,
    }
}

/// The entries of the map whose keys lie in the range from `lo` to `hi`, in increasing
/// order of key, each key with its value, from `BTreeMap::range`. `range` panics on a range
/// it refuses, which `requires` leaves out.
#[verifier::external_body]
fn map_range<'a>(m: &'a BTreeMap<u64, BTreeSet<u32>>, lo: &Bound<u64>, hi: &Bound<u64>) -> (r: Vec<
    (u64, &'a BTreeSet<u32>),
>)
    requires
        !range_refused(*lo, *hi),
    ensures
        forall|i: int, j: int| 0 <= i < j < r@.len() ==> r@[i].0 < r@[j].0,
        forall|i: int|
            #![trigger r@[i]]
            0 <= i < r@.len() ==> m@.contains_key(r@[i].0) && *r@[i].1 == m@[r@[i].0] && in_range(
                r@[i].0,
                *lo,
                *hi,
                num_order(),
            ),
        forall|k: u64|
            #[trigger] m@.contains_key(k) && in_range(k, *lo, *hi, num_order()) ==> exists|i: int|
                0 <= i < r@.len() && r@[i].0 == k,
{
    let b = |x: &Bound<u64>| match x {
        Bound::Included(v) => std::ops::Bound::Included(*v),
        Bound::Excluded(v) => std::ops::Bound::Excluded(*v),
        Bound::Unbounded => std::ops::Bound::Unbounded,
    };
    m.range((b(lo), b(hi))).map(|(k, s)| (*k, s)).collect()
}

/// An index from ordered keys to the revisions filed under them.
#[derive(Debug)]
pub struct KeyIndex<K> {
    map: BTreeMap<K, BTreeSet<u32>>,
}

impl<K> View for KeyIndex<K> {
    type V = Map<K, Set<u32>>;

    closed spec fn view(&self) -> Map<K, Set<u32>> {
        self.map@.map_values(|s: BTreeSet<u32>| s@)
    }
}

impl<K: Ord + Copy> KeyIndex<K> {
    /// An index with no keys.
    pub fn new() -> (r: Self)
        ensures
            r@ == Map::<K, Set<u32>>::empty(),
    {
        let r = KeyIndex { map: BTreeMap::new() };
        assert(r@ =~= Map::<K, Set<u32>>::empty());
        r
    }

    /// A copy of the index.
    pub fn duplicate(&self) -> (r: Self)
        ensures
            r@ == self@,
    {
        KeyIndex { map: self.map.clone() }
    }

    /// Files revision `r` under key `k`.
    pub fn push(&mut self, k: K, r: u32)
        requires
            vstd::laws_cmp::obeys_cmp::<K>(),
        ensures
            final(self)@ == add_rid(old(self)@, k, r),
    {
        let mut set = match self.map.remove(&k) {
            Some(s) => s,
            None => BTreeSet::new(),
        };
        set.insert(r);
        self.map.insert(k, set);
        assert(self@ =~= add_rid(old(self)@, k, r));
    }

    /// Withdraws revision `r` from key `k`, dropping the key when no revision is left.
    pub fn remove(&mut self, k: K, r: u32)
        requires
            vstd::laws_cmp::obeys_cmp::<K>(),
        ensures
            final(self)@ == drop_rid(old(self)@, k, r),
    {
        match self.map.remove(&k) {
            Some(s) => {
                let mut set = s;
                set.remove(&r);
                if !set.is_empty() {
                    self.map.insert(k, set);
                }
            },
            None => {},
        }
        assert(self@ =~= drop_rid(old(self)@, k, r));
    }

    /// The revisions filed under `k`, if the key is present.
    pub fn get(&self, k: &K) -> (r: Option<&BTreeSet<u32>>)
        requires
            vstd::laws_cmp::obeys_cmp::<K>(),
        ensures
            match r {
                Some(s) => self@.contains_key(*k) && s@ == self@[*k],
                None => !self@.contains_key(*k),
            },
    {
        self.map.get(k)
    }
}

impl KeyIndex<u64> {
    /// All revisions filed under keys within the range from `lo` to `hi`; a range that
    /// starts after it ends, or is empty with both ends excluded at one key, holds none.
    pub fn union_range(&self, lo: &Bound<u64>, hi: &Bound<u64>) -> (r: BTreeSet<u32>)
        ensures
            r@ == range_union(self@, *lo, *hi, num_order()),
    {
        let mut out: BTreeSet<u32> = BTreeSet::new();
        let ghost m = self@;
        if is_range_refused(lo, hi) {
            proof {
                lemma_reversed_range_is_empty(*lo, *hi);
                assert forall|x: u32| !range_union(m, *lo, *hi, num_order()).contains(x) by {
                    if range_union(m, *lo, *hi, num_order()).contains(x) {
                        let k = choose|k: u64|
                            #[trigger] m.contains_key(k) && in_range(k, *lo, *hi, num_order()) && m[k].contains(x);
                    }
                }
            }
            assert(out@ =~= range_union(m, *lo, *hi, num_order()));
            return out;
        }
        let found = map_range(&self.map, lo, hi);
        let mut i: usize = 0;
        while i < found.len()
            invariant
                i <= found@.len(),
                forall|x: u32|
                    out@.contains(x) <==> exists|j: int| 0 <= j < i && #[trigger] found@[j].1@.contains(x),
            decreases found@.len() - i,
        {
            let ghost before = out@;
            union_into(&mut out, found[i].1);
            assert forall|x: u32|
                out@.contains(x) <==> exists|j: int| 0 <= j < i + 1 && #[trigger] found@[j].1@.contains(x) by {
                if out@.contains(x) && !before.contains(x) {
                    assert(found@[i as int].1@.contains(x));
                }
            }
            i = i + 1;
        }
        assert forall|x: u32| out@.contains(x) <==> range_union(m, *lo, *hi, num_order()).contains(x) by {
            if out@.contains(x) {
                let j = choose|j: int| 0 <= j < found@.len() && #[trigger] found@[j].1@.contains(x);
                let k = found@[j].0;
                assert(m.contains_key(k) && m[k].contains(x));
            }
            if range_union(m, *lo, *hi, num_order()).contains(x) {
                let k = choose|k: u64|
                    #[trigger] m.contains_key(k) && in_range(k, *lo, *hi, num_order()) && m[k].contains(x);
                assert(self.map@.contains_key(k));
                let j = choose|j: int| 0 <= j < found@.len() && found@[j].0 == k;
                assert(found@[j].1@.contains(x));
            }
        }
        assert(out@ =~= range_union(m, *lo, *hi, num_order()));
        out
    }
}

/// An index from text keys to the revisions filed under them, kept as one slot per key in
/// increasing lexicographic order of key.
#[derive(Debug)]
pub struct TextIndex {
    slots: Vec<(Vec<char>, BTreeSet<u32>)>,
}

/// A copy of a character sequence.
fn copy_chars(v: &Vec<char>) -> (r: Vec<char>)
    ensures
        r@ == v@,
{
    let mut r: Vec<char> = Vec::new();
    let mut i: usize = 0;
    while i < v.len()
        invariant
            i <= v@.len(),
            r@ == v@.take(i as int),
        decreases v@.len() - i,
    {
        r.push(v[i]);
        assert(v@.take(i + 1) =~= v@.take(i as int).push(v@[i as int]));
        i = i + 1;
    }
    assert(v@.take(v@.len() as int) =~= v@);
    r
}

/// The map from each slot's key to its revisions.
pub open spec fn slot_map(slots: Seq<(Vec<char>, BTreeSet<u32>)>) -> Map<Seq<char>, Set<u32>> {
    Map::new(
        |k: Seq<char>| exists|i: int| 0 <= i < slots.len() && #[trigger] slots[i].0@ == k,
        |k: Seq<char>| slots[choose|i: int| 0 <= i < slots.len() && #[trigger] slots[i].0@ == k].1@,
    )
}

/// Slots that file each of their keys as the map does, and every key of the map, are the
/// map.
proof fn lemma_slots_hold(slots: Seq<(Vec<char>, BTreeSet<u32>)>, m: Map<Seq<char>, Set<u32>>)
    requires
        forall|i: int|
            #![trigger slots[i]]
            0 <= i < slots.len() ==> m.contains_key(slots[i].0@) && m[slots[i].0@] == slots[i].1@,
        forall|k: Seq<char>|
            #[trigger] m.contains_key(k) ==> exists|i: int| 0 <= i < slots.len() && #[trigger] slots[i].0@ == k,
    ensures
        slot_map(slots) == m,
{
    let sm = slot_map(slots);
    assert forall|k: Seq<char>| #[trigger] sm.contains_key(k) == m.contains_key(k) by {
        if sm.contains_key(k) {
            let i = choose|i: int| 0 <= i < slots.len() && #[trigger] slots[i].0@ == k;
            assert(m.contains_key(slots[i].0@));
        }
    }
    assert forall|k: Seq<char>| #[trigger] sm.contains_key(k) implies sm[k] == m[k] by {
        let i = choose|i: int| 0 <= i < slots.len() && #[trigger] slots[i].0@ == k;
        assert(m[slots[i].0@] == slots[i].1@);
    }
    assert(sm =~= m);
}

impl View for TextIndex {
    type V = Map<Seq<char>, Set<u32>>;

    closed spec fn view(&self) -> Map<Seq<char>, Set<u32>> {
        slot_map(self.slots@)
    }
}

/// The text bound that an exec bound over characters stands for.
pub open spec fn text_bound(b: Bound<Vec<char>>) -> Bound<Seq<char>> {
    match b {
        Bound::Included(s) => Bound::Included(s@),
        Bound::Excluded(s) => Bound::Excluded(s@),
        Bound::Unbounded => Bound::Unbounded,
    }
}

/// Whether the text key `k` lies at or after the start bound `lo`.
fn text_after_start(k: &Vec<char>, lo: &Bound<Vec<char>>) -> (r: bool)
    ensures
        r == after_start(k@, text_bound(*lo), text_order()),
{
    match lo {
        Bound::Included(s) => !text_less(k, s),
        Bound::Excluded(s) => text_less(s, k),
        Bound::Unbounded => true,
    }
}

/// Whether the text key `k` lies at or before the end bound `hi`.
fn text_before_end(k: &Vec<char>, hi: &Bound<Vec<char>>) -> (r: bool)
    ensures
        r == before_end(k@, text_bound(*hi), text_order()),
{
    match hi {
        Bound::Included(e) => !text_less(e, k),
        Bound::Excluded(e) => text_less(k, e),
        Bound::Unbounded => true,
    }
}

/// A key after one that lies at or after a start bound lies there too.
proof fn lemma_after_start_rises(a: Seq<char>, b: Seq<char>, lo: Bound<Seq<char>>)
    requires
        text_lt(a, b),
        after_start(a, lo, text_order()),
    ensures
        after_start(b, lo, text_order()),
{
    match lo {
        Bound::Included(s) => {
            if text_lt(b, s) {
                lemma_text_lt_transitive(a, b, s);
            }
        },
        Bound::Excluded(s) => {
            lemma_text_lt_transitive(s, a, b);
        },
        Bound::Unbounded => {},
    }
}

/// A key before one that lies at or before an end bound lies there too.
proof fn lemma_before_end_falls(a: Seq<char>, b: Seq<char>, hi: Bound<Seq<char>>)
    requires
        text_lt(a, b),
        before_end(b, hi, text_order()),
    ensures
        before_end(a, hi, text_order()),
{
    match hi {
        Bound::Included(e) => {
            if text_lt(e, a) {
                lemma_text_lt_transitive(e, a, b);
            }
        },
        Bound::Excluded(e) => {
            lemma_text_lt_transitive(a, b, e);
        },
        Bound::Unbounded => {},
    }
}

impl TextIndex {
    /// Each slot files its key with its revisions, every key of the view has a slot, and the
    /// keys increase from slot to slot.
    pub closed spec fn wf(&self) -> bool {
        &&& forall|i: int|
            #![trigger self.slots@[i]]
            0 <= i < self.slots@.len() ==> self@.contains_key(self.slots@[i].0@)
                && self@[self.slots@[i].0@] == self.slots@[i].1@
        &&& forall|k: Seq<char>|
            #[trigger] self@.contains_key(k) ==> exists|i: int|
                0 <= i < self.slots@.len() && #[trigger] self.slots@[i].0@ == k
        &&& forall|i: int, j: int|
            0 <= i < j < self.slots@.len() ==> text_lt(#[trigger] self.slots@[i].0@, #[trigger] self.slots@[j].0@)
        &&& self@.dom().finite()
    }

    /// An index with no keys.
    pub fn new() -> (r: Self)
        ensures
            r.wf(),
            r@ == Map::<Seq<char>, Set<u32>>::empty(),
    {
        let r = TextIndex { slots: Vec::new() };
        assert(r@ =~= Map::<Seq<char>, Set<u32>>::empty());
        r
    }

    /// A copy of the index.
    pub fn duplicate(&self) -> (r: Self)
        requires
            self.wf(),
        ensures
            r.wf(),
            r@ == self@,
    {
        let mut slots: Vec<(Vec<char>, BTreeSet<u32>)> = Vec::new();
        let mut i: usize = 0;
        while i < self.slots.len()
            invariant
                i <= self.slots@.len(),
                slots@.len() == i,
                forall|j: int|
                    #![trigger slots@[j]]
                    0 <= j < i ==> slots@[j].0@ == self.slots@[j].0@ && slots@[j].1@ == self.slots@[j].1@,
            decreases self.slots@.len() - i,
        {
            let key = copy_chars(&self.slots[i].0);
            let set = self.slots[i].1.clone();
            slots.push((key, set));
            i = i + 1;
        }
        let r = TextIndex { slots };
        proof {
            assert forall|j: int|
                #![trigger r.slots@[j]]
                0 <= j < r.slots@.len() implies self@.contains_key(r.slots@[j].0@) && self@[r.slots@[j].0@]
                    == r.slots@[j].1@ by {
                assert(self.slots@[j].0@ == r.slots@[j].0@);
            }
            assert forall|k: Seq<char>| #[trigger] self@.contains_key(k) implies exists|j: int|
                0 <= j < r.slots@.len() && #[trigger] r.slots@[j].0@ == k by {
                let j = choose|j: int| 0 <= j < self.slots@.len() && #[trigger] self.slots@[j].0@ == k;
                assert(r.slots@[j].0@ == k);
            }
            lemma_slots_hold(r.slots@, self@);
            assert forall|a: int, b: int|
                0 <= a < b < r.slots@.len() implies text_lt(#[trigger] r.slots@[a].0@, #[trigger] r.slots@[b].0@) by {
                assert(r.slots@[a].0@ == self.slots@[a].0@ && r.slots@[b].0@ == self.slots@[b].0@);
            }
        }
        r
    }

    /// The slot that holds key `k`, or, when no slot does, the position where a slot for it
    /// keeps the keys in order; found by binary search.
    fn find(&self, k: &Vec<char>) -> (r: Result<usize, usize>)
        requires
            self.wf(),
        ensures
            match r {
                Ok(i) => i < self.slots@.len() && self.slots@[i as int].0@ == k@,
                Err(p) => {
                    &&& !self@.contains_key(k@)
                    &&& p <= self.slots@.len()
                    &&& forall|j: int| 0 <= j < p ==> text_lt(#[trigger] self.slots@[j].0@, k@)
                    &&& forall|j: int| p <= j < self.slots@.len() ==> text_lt(k@, #[trigger] self.slots@[j].0@)
                },
            },
    {
        let mut lo: usize = 0;
        let mut hi: usize = self.slots.len();
        while lo < hi
            invariant
                self.wf(),
                lo <= hi <= self.slots@.len(),
                forall|j: int| 0 <= j < lo ==> text_lt(#[trigger] self.slots@[j].0@, k@),
                forall|j: int| hi <= j < self.slots@.len() ==> text_lt(k@, #[trigger] self.slots@[j].0@),
            decreases hi - lo,
        {
            let mid = lo + (hi - lo) / 2;
            if text_eq(&self.slots[mid].0, k) {
                return Ok(mid);
            }
            if text_less(&self.slots[mid].0, k) {
                assert forall|j: int| 0 <= j < mid + 1 implies text_lt(#[trigger] self.slots@[j].0@, k@) by {
                    if j < mid {
                        lemma_text_lt_transitive(self.slots@[j].0@, self.slots@[mid as int].0@, k@);
                    }
                }
                lo = mid + 1;
            } else {
                proof {
                    lemma_text_lt_total(self.slots@[mid as int].0@, k@);
                }
                assert forall|j: int| mid <= j < self.slots@.len() implies text_lt(k@, #[trigger] self.slots@[j].0@) by {
                    if j > mid {
                        lemma_text_lt_transitive(k@, self.slots@[mid as int].0@, self.slots@[j].0@);
                    }
                }
                hi = mid;
            }
        }
        proof {
            if self@.contains_key(k@) {
                let j = choose|j: int| 0 <= j < self.slots@.len() && #[trigger] self.slots@[j].0@ == k@;
                lemma_text_lt_irreflexive(k@);
            }
        }
        Err(lo)
    }

    /// Files revision `r` under key `k`.
    pub fn push(&mut self, k: Vec<char>, r: u32)
        requires
            old(self).wf(),
        ensures
            final(self).wf(),
            final(self)@ == add_rid(old(self)@, k@, r),
    {
        let ghost target = add_rid(self@, k@, r);
        let ghost old_slots = self.slots@;
        match self.find(&k) {
            Ok(i) => {
                self.slots[i].1.insert(r);
                assert forall|j: int|
                    #![trigger self.slots@[j]]
                    0 <= j < self.slots@.len() implies target.contains_key(self.slots@[j].0@)
                        && target[self.slots@[j].0@] == self.slots@[j].1@ by {
                    if j != i {
                        assert(self.slots@[j] == old_slots[j]);
                        assert(old_slots[j].0@ != k@) by {
                            if j < i {
                                lemma_text_lt_irreflexive(k@);
                            } else {
                                lemma_text_lt_irreflexive(k@);
                            }
                        }
                    }
                }
                assert forall|key2: Seq<char>|
                    #[trigger] target.contains_key(key2) implies exists|j: int|
                        0 <= j < self.slots@.len() && #[trigger] self.slots@[j].0@ == key2 by {
                    if key2 != k@ {
                        let j = choose|j: int| 0 <= j < old_slots.len() && #[trigger] old_slots[j].0@ == key2;
                        assert(self.slots@[j].0@ == key2);
                    } else {
                        assert(self.slots@[i as int].0@ == key2);
                    }
                }
                assert forall|a: int, b: int|
                    0 <= a < b < self.slots@.len() implies text_lt(#[trigger] self.slots@[a].0@, #[trigger] self.slots@[b].0@) by {
                    assert(self.slots@[a].0@ == old_slots[a].0@);
                    assert(self.slots@[b].0@ == old_slots[b].0@);
                }
                proof {
                    lemma_slots_hold(self.slots@, target);
                }
            },
            Err(p) => {
                let mut set: BTreeSet<u32> = BTreeSet::new();
                set.insert(r);
                self.slots.insert(p, (k, set));
                assert(set@ =~= set![r]);
                assert forall|j: int|
                    #![trigger self.slots@[j]]
                    0 <= j < self.slots@.len() implies target.contains_key(self.slots@[j].0@)
                        && target[self.slots@[j].0@] == self.slots@[j].1@ by {
                    if j < p {
                        assert(self.slots@[j] == old_slots[j]);
                        assert(old(self)@.contains_key(old_slots[j].0@));
                    } else if j > p {
                        assert(self.slots@[j] == old_slots[j - 1]);
                        assert(old(self)@.contains_key(old_slots[j - 1].0@));
                    }
                }
                assert forall|key2: Seq<char>|
                    #[trigger] target.contains_key(key2) implies exists|j: int|
                        0 <= j < self.slots@.len() && #[trigger] self.slots@[j].0@ == key2 by {
                    if key2 != k@ {
                        let j = choose|j: int| 0 <= j < old_slots.len() && #[trigger] old_slots[j].0@ == key2;
                        if j < p {
                            assert(self.slots@[j] == old_slots[j]);
                        } else {
                            assert(self.slots@[j + 1] == old_slots[j]);
                        }
                    } else {
                        assert(self.slots@[p as int].0@ == key2);
                    }
                }
                assert forall|a: int, b: int|
                    0 <= a < b < self.slots@.len() implies text_lt(#[trigger] self.slots@[a].0@, #[trigger] self.slots@[b].0@) by {
                    if b < p {
                        assert(self.slots@[a] == old_slots[a] && self.slots@[b] == old_slots[b]);
                    } else if b == p {
                        assert(self.slots@[a] == old_slots[a]);
                    } else if a < p {
                        assert(self.slots@[a] == old_slots[a] && self.slots@[b] == old_slots[b - 1]);
                        lemma_text_lt_transitive(old_slots[a].0@, k@, old_slots[b - 1].0@);
                    } else if a == p {
                        assert(self.slots@[b] == old_slots[b - 1]);
                    } else {
                        assert(self.slots@[a] == old_slots[a - 1] && self.slots@[b] == old_slots[b - 1]);
                    }
                }
                proof {
                    lemma_slots_hold(self.slots@, target);
                }
            },
        }
    }

    /// Withdraws revision `r` from key `k`, dropping the key when no revision is left.
    pub fn remove(&mut self, k: &Vec<char>, r: u32)
        requires
            old(self).wf(),
        ensures
            final(self).wf(),
            final(self)@ == drop_rid(old(self)@, k@, r),
    {
        let ghost target = drop_rid(self@, k@, r);
        let ghost old_slots = self.slots@;
        match self.find(k) {
            Ok(i) => {
                self.slots[i].1.remove(&r);
                let keep = !self.slots[i].1.is_empty();
                if !keep {
                    self.slots.remove(i);
                }
                assert forall|j: int| 0 <= j < old_slots.len() && j != i implies old_slots[j].0@ != k@ by {
                    lemma_text_lt_irreflexive(k@);
                }
                assert forall|j: int|
                    #![trigger self.slots@[j]]
                    0 <= j < self.slots@.len() implies target.contains_key(self.slots@[j].0@)
                        && target[self.slots@[j].0@] == self.slots@[j].1@ by {
                    if keep {
                        if j != i {
                            assert(self.slots@[j] == old_slots[j]);
                        }
                    } else if j < i {
                        assert(self.slots@[j] == old_slots[j]);
                    } else {
                        assert(self.slots@[j] == old_slots[j + 1]);
                    }
                }
                assert forall|key2: Seq<char>|
                    #[trigger] target.contains_key(key2) implies exists|j: int|
                        0 <= j < self.slots@.len() && #[trigger] self.slots@[j].0@ == key2 by {
                    if key2 == k@ {
                        assert(keep);
                        assert(self.slots@[i as int].0@ == key2);
                    } else {
                        let j = choose|j: int| 0 <= j < old_slots.len() && #[trigger] old_slots[j].0@ == key2;
                        if keep || j < i {
                            assert(self.slots@[j].0@ == key2);
                        } else {
                            assert(self.slots@[j - 1].0@ == key2);
                        }
                    }
                }
                assert forall|a: int, b: int|
                    0 <= a < b < self.slots@.len() implies text_lt(#[trigger] self.slots@[a].0@, #[trigger] self.slots@[b].0@) by {
                    if keep {
                        assert(self.slots@[a].0@ == old_slots[a].0@ && self.slots@[b].0@ == old_slots[b].0@);
                    } else {
                        let oa = if a < i { a } else { a + 1 };
                        let ob = if b < i { b } else { b + 1 };
                        assert(self.slots@[a] == old_slots[oa] && self.slots@[b] == old_slots[ob]);
                    }
                }
                proof {
                    lemma_slots_hold(self.slots@, target);
                }
            },
            Err(_) => {
                assert(self@ =~= target);
            },
        }
    }

    /// The revisions filed under `k`, if the key is present.
    pub fn get(&self, k: &Vec<char>) -> (r: Option<&BTreeSet<u32>>)
        requires
            self.wf(),
        ensures
            match r {
                Some(s) => self@.contains_key(k@) && s@ == self@[k@],
                None => !self@.contains_key(k@),
            },
    {
        match self.find(k) {
            Ok(i) => Some(&self.slots[i].1),
            Err(_) => None,
        }
    }

    /// The first slot whose key lies at or after the start bound `lo`; found by binary
    /// search.
    fn first_after_start(&self, lo: &Bound<Vec<char>>) -> (p: usize)
        requires
            self.wf(),
        ensures
            p <= self.slots@.len(),
            forall|j: int| 0 <= j < p ==> !after_start(#[trigger] self.slots@[j].0@, text_bound(*lo), text_order()),
            forall|j: int|
                p <= j < self.slots@.len() ==> after_start(#[trigger] self.slots@[j].0@, text_bound(*lo), text_order()),
    {
        let ghost l = text_bound(*lo);
        let mut a: usize = 0;
        let mut b: usize = self.slots.len();
        while a < b
            invariant
                self.wf(),
                l == text_bound(*lo),
                a <= b <= self.slots@.len(),
                forall|j: int| 0 <= j < a ==> !after_start(#[trigger] self.slots@[j].0@, l, text_order()),
                forall|j: int| b <= j < self.slots@.len() ==> after_start(#[trigger] self.slots@[j].0@, l, text_order()),
            decreases b - a,
        {
            let mid = a + (b - a) / 2;
            if text_after_start(&self.slots[mid].0, lo) {
                assert forall|j: int| mid <= j < self.slots@.len() implies after_start(
                    #[trigger] self.slots@[j].0@,
                    l,
                    text_order(),
                ) by {
                    if j > mid {
                        lemma_after_start_rises(self.slots@[mid as int].0@, self.slots@[j].0@, l);
                    }
                }
                b = mid;
            } else {
                assert forall|j: int| 0 <= j < mid + 1 implies !after_start(
                    #[trigger] self.slots@[j].0@,
                    l,
                    text_order(),
                ) by {
                    if j < mid && after_start(self.slots@[j].0@, l, text_order()) {
                        lemma_after_start_rises(self.slots@[j].0@, self.slots@[mid as int].0@, l);
                    }
                }
                a = mid + 1;
            }
        }
        a
    }

    /// All revisions filed under keys within the range from `lo` to `hi`: the slots from
    /// the first at or after the start, up to the first after the end.
    pub fn union_range(&self, lo: &Bound<Vec<char>>, hi: &Bound<Vec<char>>) -> (r: BTreeSet<u32>)
        requires
            self.wf(),
        ensures
            r@ == range_union(self@, text_bound(*lo), text_bound(*hi), text_order()),
    {
        let ghost l = text_bound(*lo);
        let ghost h = text_bound(*hi);
        let start = self.first_after_start(lo);
        let mut out: BTreeSet<u32> = BTreeSet::new();
        let mut i: usize = start;
        while i < self.slots.len() && text_before_end(&self.slots[i].0, hi)
            invariant
                self.wf(),
                start <= i <= self.slots@.len(),
                l == text_bound(*lo),
                h == text_bound(*hi),
                forall|j: int| 0 <= j < start ==> !after_start(#[trigger] self.slots@[j].0@, l, text_order()),
                forall|j: int|
                    start <= j < self.slots@.len() ==> after_start(#[trigger] self.slots@[j].0@, l, text_order()),
                forall|j: int| start <= j < i ==> before_end(#[trigger] self.slots@[j].0@, h, text_order()),
                forall|x: u32|
                    out@.contains(x) <==> exists|j: int| start <= j < i && #[trigger] self.slots@[j].1@.contains(x),
            decreases self.slots@.len() - i,
        {
            let ghost before = out@;
            union_into(&mut out, &self.slots[i].1);
            assert forall|x: u32|
                out@.contains(x) <==> exists|j: int| start <= j < i + 1 && #[trigger] self.slots@[j].1@.contains(x) by {
                if out@.contains(x) && !before.contains(x) {
                    assert(self.slots@[i as int].1@.contains(x));
                }
            }
            i = i + 1;
        }
        proof {
            if i < self.slots@.len() {
                assert forall|j: int| i <= j < self.slots@.len() implies !before_end(
                    #[trigger] self.slots@[j].0@,
                    h,
                    text_order(),
                ) by {
                    if j > i && before_end(self.slots@[j].0@, h, text_order()) {
                        lemma_before_end_falls(self.slots@[i as int].0@, self.slots@[j].0@, h);
                    }
                }
            }
        }
        assert forall|x: u32| out@.contains(x) <==> range_union(self@, l, h, text_order()).contains(x) by {
            if out@.contains(x) {
                let j = choose|j: int| start <= j < i && #[trigger] self.slots@[j].1@.contains(x);
                assert(self@.contains_key(self.slots@[j].0@));
                assert(in_range(self.slots@[j].0@, l, h, text_order()));
            }
            if range_union(self@, l, h, text_order()).contains(x) {
                let k = choose|k: Seq<char>|
                    #[trigger] self@.contains_key(k) && in_range(k, l, h, text_order()) && self@[k].contains(x);
                let j = choose|j: int| 0 <= j < self.slots@.len() && #[trigger] self.slots@[j].0@ == k;
                assert(self.slots@[j].1@.contains(x));
                assert(after_start(self.slots@[j].0@, l, text_order()));
                assert(before_end(self.slots@[j].0@, h, text_order()));
                assert(start <= j && j < i);
            }
        }
        assert(out@ =~= range_union(self@, l, h, text_order()));
        out
    }
}

} // verus!
