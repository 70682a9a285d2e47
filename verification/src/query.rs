//! Queries over a [`Library`], combining exact and range filters on its indexes.
use std::collections::BTreeSet;
use vstd::prelude::*;
use vstd::std_specs::btree::spec_btree_keys_iter;
use vstd::std_specs::iter::IteratorSpec;

use crate::index::{
    in_range, lookup, no_key_in, num_order, range_union, text_bound, text_order, Bound, KeyIndex,
};
use crate::library::{
    agrees, agrees_uuid, has_uuid, lemma_latest_held, lemma_well_formed_consistent, targets, Library, LibraryView,
    NumberField, TextField,
};
use crate::order::{
    ascending, ascending_wide, lemma_filter_ascending, lemma_increasing_refs, lemma_sorted, lemma_sorted_is,
    lemma_sorted_wide, sorted, sorted_wide,
};
use crate::text::chars_of;
use crate::Entry;
use crate::RevisionId;

verus! {

broadcast use {vstd::std_specs::btree::group_btree_axioms, vstd::laws_cmp::group_laws_cmp};

/// The filters of a query.
pub struct QueryView {
    pub uuid: Option<u128>,
    pub manufacturer: Option<Seq<char>>,
    pub fixture: Option<Seq<char>>,
    pub revision: Option<Seq<char>>,
    pub creator: Option<Seq<char>>,
    pub uploader: Option<Seq<char>>,
    pub rating: Option<Seq<char>>,
    pub rating_range: Option<(Bound<Seq<char>>, Bound<Seq<char>>)>,
    pub version: Option<Seq<char>>,
    pub version_range: Option<(Bound<Seq<char>>, Bound<Seq<char>>)>,
    pub creation_date: Option<u64>,
    pub creation_date_range: Option<(Bound<u64>, Bound<u64>)>,
    pub last_modified: Option<u64>,
    pub last_modified_range: Option<(Bound<u64>, Bound<u64>)>,
    pub filesize: Option<u64>,
    pub filesize_range: Option<(Bound<u64>, Bound<u64>)>,
    pub latest_only: bool,
}

/// One filter of a query, as it applies to a library: the revisions it admits.
pub struct Step {
    pub set: Set<u32>,
}

/// The step of an exact filter on an index, if the filter is set.
pub open spec fn exact_step<K>(key: Option<K>, m: Map<K, Set<u32>>) -> Seq<Step> {
    match key {
        Some(k) => seq![Step { set: lookup(m, k) }],
        None => Seq::empty(),
    }
}

/// The step of a range filter on an index, if the filter is set.
pub open spec fn range_step<K>(
    range: Option<(Bound<K>, Bound<K>)>,
    m: Map<K, Set<u32>>,
    lt: spec_fn(K, K) -> bool,
) -> Seq<Step> {
    match range {
        Some((lo, hi)) => seq![
            Step { set: range_union(m, lo, hi, lt) },
        ],
        None => Seq::empty(),
    }
}

impl QueryView {
    /// The query with no filters that returns every entry.
    pub open spec fn unfiltered() -> QueryView {
        QueryView {
            uuid: None,
            manufacturer: None,
            fixture: None,
            revision: None,
            creator: None,
            uploader: None,
            rating: None,
            rating_range: None,
            version: None,
            version_range: None,
            creation_date: None,
            creation_date_range: None,
            last_modified: None,
            last_modified_range: None,
            filesize: None,
            filesize_range: None,
            latest_only: false,
        }
    }

    /// The filters that are set, in the order they are applied.
    pub open spec fn steps(self, l: LibraryView) -> Seq<Step> {
        exact_step(self.uuid, l.by_uuid) + exact_step(self.manufacturer, l.by_manufacturer)
            + exact_step(self.fixture, l.by_fixture) + exact_step(self.revision, l.by_revision)
            + exact_step(self.creator, l.by_creator) + exact_step(self.uploader, l.by_uploader)
            + exact_step(self.rating, l.by_rating) + range_step(
            self.rating_range,
            l.by_rating,
            text_order(),
        ) + exact_step(self.version, l.by_version) + range_step(
            self.version_range,
            l.by_version,
            text_order(),
        ) + exact_step(self.creation_date, l.by_creation_date) + range_step(
            self.creation_date_range,
            l.by_creation_date,
            num_order(),
        ) + exact_step(self.last_modified, l.by_last_modified) + range_step(
            self.last_modified_range,
            l.by_last_modified,
            num_order(),
        ) + exact_step(self.filesize, l.by_filesize) + range_step(
            self.filesize_range,
            l.by_filesize,
            num_order(),
        )
    }

    /// Revision `r` is admitted by every filter that is set.
    pub open spec fn selects(self, l: LibraryView, r: u32) -> bool {
        forall|i: int| #![trigger self.steps(l)[i]] 0 <= i < self.steps(l).len() ==> self.steps(l)[i].set.contains(r)
    }

    /// Revision `r` passes the latest-only filter: the filter is off, or its entry has no
    /// UUID, or it is the latest revision of its UUID.
    pub open spec fn passes_latest(self, l: LibraryView, r: u32) -> bool {
        !self.latest_only || match l.entries[r].uuid {
            Some(u) => l.latest.contains_key(u) && l.latest[u] == r,
            None => true,
        }
    }

    /// The revisions a query with filters returns.
    pub open spec fn chosen(self, l: LibraryView) -> Set<u32> {
        l.entries.dom().filter(|r: u32| self.selects(l, r) && self.passes_latest(l, r))
    }

    /// What the query returns: with no filter set, every entry by revision id (or the latest
    /// revision of each UUID, by UUID, when only the latest are asked for); otherwise the
    /// chosen entries in increasing order of revision id.
    pub open spec fn result(self, l: LibraryView) -> Seq<Entry> {
        if self.steps(l).len() == 0 {
            if self.latest_only {
                l.latest_revisions()
            } else {
                l.all_revisions()
            }
        } else {
            sorted(self.chosen(l)).map_values(|r: u32| l.entries[r])
        }
    }
}

/// The text of an optional filter value.
pub open spec fn text_opt(o: Option<&str>) -> Option<Seq<char>> {
    match o {
        Some(s) => Some(s@),
        None => None,
    }
}

/// The text bound that a bound over a string stands for.
pub open spec fn str_bound(b: Bound<&str>) -> Bound<Seq<char>> {
    match b {
        Bound::Included(s) => Bound::Included(s@),
        Bound::Excluded(s) => Bound::Excluded(s@),
        Bound::Unbounded => Bound::Unbounded,
    }
}

/// The text range that an optional range over strings stands for.
pub open spec fn str_range(r: Option<(Bound<&str>, Bound<&str>)>) -> Option<
    (Bound<Seq<char>>, Bound<Seq<char>>),
> {
    match r {
        Some((lo, hi)) => Some((str_bound(lo), str_bound(hi))),
        None => None,
    }
}

/// The sets of revisions of a list of exec sets.
pub open spec fn set_views(v: Seq<BTreeSet<u32>>) -> Seq<Set<u32>> {
    v.map_values(|s: BTreeSet<u32>| s@)
}

/// The sets of revisions of a list of steps.
pub open spec fn step_sets(v: Seq<Step>) -> Seq<Set<u32>> {
    v.map_values(|s: Step| s.set)
}

/// A builder for querying entries in a [`Library`].
#[derive(Clone, Copy)]
pub struct Query<'a> {
    library: &'a Library,
    uuid: Option<u128>,
    manufacturer: Option<&'a str>,
    fixture: Option<&'a str>,
    revision: Option<&'a str>,
    creator: Option<&'a str>,
    uploader: Option<&'a str>,
    rating: Option<&'a str>,
    rating_range: Option<(Bound<&'a str>, Bound<&'a str>)>,
    version: Option<&'a str>,
    version_range: Option<(Bound<&'a str>, Bound<&'a str>)>,
    creation_date: Option<u64>,
    creation_date_range: Option<(Bound<u64>, Bound<u64>)>,
    last_modified: Option<u64>,
    last_modified_range: Option<(Bound<u64>, Bound<u64>)>,
    filesize: Option<u64>,
    filesize_range: Option<(Bound<u64>, Bound<u64>)>,
    latest_only: bool,
}

impl<'a> View for Query<'a> {
    type V = QueryView;

    closed spec fn view(&self) -> QueryView {
        QueryView {
            uuid: self.uuid,
            manufacturer: text_opt(self.manufacturer),
            fixture: text_opt(self.fixture),
            revision: text_opt(self.revision),
            creator: text_opt(self.creator),
            uploader: text_opt(self.uploader),
            rating: text_opt(self.rating),
            rating_range: str_range(self.rating_range),
            version: text_opt(self.version),
            version_range: str_range(self.version_range),
            creation_date: self.creation_date,
            creation_date_range: self.creation_date_range,
            last_modified: self.last_modified,
            last_modified_range: self.last_modified_range,
            filesize: self.filesize,
            filesize_range: self.filesize_range,
            latest_only: self.latest_only,
        }
    }
}

/// The set of revisions filed under an optional text key.
fn exact_text(lib: &Library, which: TextField, key: Option<&str>) -> (r: Option<BTreeSet<u32>>)
    ensures
        opt_sets(r) == step_sets(exact_step(text_opt(key), lib@.text_index(which))),
{
    match key {
        Some(k) => {
            let chars = chars_of(k);
            match lib.text_index(which).get(&chars) {
                Some(s) => Some(s.clone()),
                None => {
                    let empty: BTreeSet<u32> = BTreeSet::new();
                    Some(empty)
                },
            }
        },
        None => None,
    }
}

/// The set of revisions filed under an optional numeric key.
fn exact_number(index: &KeyIndex<u64>, key: Option<u64>) -> (r: Option<BTreeSet<u32>>)
    ensures
        opt_sets(r) == step_sets(exact_step(key, index@)),
{
    match key {
        Some(k) => match index.get(&k) {
            Some(s) => Some(s.clone()),
            None => {
                let empty: BTreeSet<u32> = BTreeSet::new();
                Some(empty)
            },
        },
        None => None,
    }
}

/// The exec text bound for a bound over a string.
fn chars_bound(b: &Bound<&str>) -> (r: Bound<Vec<char>>)
    ensures
        text_bound(r) == str_bound(*b),
{
    match b {
        Bound::Included(s) => Bound::Included(chars_of(s)),
        Bound::Excluded(s) => Bound::Excluded(chars_of(s)),
        Bound::Unbounded => Bound::Unbounded,
    }
}

/// The set of revisions filed under text keys within an optional range.
fn ranged_text(
    lib: &Library,
    which: TextField,
    range: &Option<(Bound<&str>, Bound<&str>)>,
) -> (r: Option<BTreeSet<u32>>)
    ensures
        opt_sets(r) == step_sets(range_step(str_range(*range), lib@.text_index(which), text_order())),
{
    match range {
        Some((lo, hi)) => {
            let l = chars_bound(lo);
            let h = chars_bound(hi);
            Some(lib.text_index(which).union_range(&l, &h))
        },
        None => None,
    }
}

/// The set of revisions filed under numeric keys within an optional range.
fn ranged_number(index: &KeyIndex<u64>, range: &Option<(Bound<u64>, Bound<u64>)>) -> (r: Option<
    BTreeSet<u32>,
>)
    ensures
        opt_sets(r) == step_sets(range_step(*range, index@, num_order())),
{
    match range {
        Some((lo, hi)) => Some(index.union_range(lo, hi)),
        None => None,
    }
}

/// The sets an optional exec set contributes.
pub open spec fn opt_sets(o: Option<BTreeSet<u32>>) -> Seq<Set<u32>> {
    match o {
        Some(s) => seq![s@],
        None => Seq::empty(),
    }
}

/// Appends an optional set to the list of sets.
fn push_opt(sets: &mut Vec<BTreeSet<u32>>, o: Option<BTreeSet<u32>>)
    ensures
        set_views(final(sets)@) == set_views(old(sets)@) + opt_sets(o),
{
    match o {
        Some(s) => {
            sets.push(s);
        },
        None => {},
    }
    assert(set_views(sets@) =~= set_views(old(sets)@) + opt_sets(o));
}

proof fn lemma_step_sets_concat(a: Seq<Step>, b: Seq<Step>)
    ensures
        step_sets(a + b) == step_sets(a) + step_sets(b),
{
    assert(step_sets(a + b) =~= step_sets(a) + step_sets(b));
}

/// The revisions that every one of the sets holds.
pub open spec fn common(sets: Seq<Set<u32>>) -> Set<u32> {
    Set::new(|x: u32| forall|i: int| #![trigger sets[i]] 0 <= i < sets.len() ==> sets[i].contains(x))
}

/// Whether every set of the list holds `x`.
fn in_all(sets: &Vec<BTreeSet<u32>>, x: u32) -> (r: bool)
    ensures
        r == common(set_views(sets@)).contains(x),
{
    let mut i: usize = 0;
    while i < sets.len()
        invariant
            i <= sets@.len(),
            forall|j: int| 0 <= j < i ==> sets@[j]@.contains(x),
        decreases sets@.len() - i,
    {
        if !sets[i].contains(&x) {
            assert(!set_views(sets@)[i as int].contains(x));
            return false;
        }
        i = i + 1;
    }
    assert(forall|j: int| #![trigger set_views(sets@)[j]] 0 <= j < sets@.len() ==> set_views(sets@)[j].contains(x));
    true
}

/// The revisions common to all the sets, in increasing order; the walk goes through the
/// smallest set.
fn intersect(sets: &Vec<BTreeSet<u32>>) -> (r: Vec<u32>)
    requires
        sets@.len() > 0,
    ensures
        ascending(r@),
        r@.to_set() == common(set_views(sets@)),
{
    let mut smallest: usize = 0;
    let mut i: usize = 1;
    while i < sets.len()
        invariant
            0 < sets@.len(),
            smallest < sets@.len(),
            1 <= i <= sets@.len(),
        decreases sets@.len() - i,
    {
        if sets[i].len() < sets[smallest].len() {
            smallest = i;
        }
        i = i + 1;
    }
    let base = &sets[smallest];
    let ghost seq = spec_btree_keys_iter(base).remaining().unref();
    proof {
        lemma_increasing_refs(spec_btree_keys_iter(base).remaining());
    }
    let mut out: Vec<u32> = Vec::new();
    for x in it: base.iter()
        invariant
            it.seq().unref() == seq,
            seq.to_set() == base@,
            ascending(seq),
            smallest < sets@.len(),
            *base == sets@[smallest as int],
            ascending(out@),
            forall|k: int, j: int|
                0 <= k < out@.len() && it.index() <= j < seq.len() ==> #[trigger] out@[k] < #[trigger] seq[j],
            forall|y: u32|
                out@.contains(y) <==> (exists|j: int| 0 <= j < it.index() && seq[j] == y)
                    && common(set_views(sets@)).contains(y),
    {
        let ghost idx = it.index();
        let ghost before = out@;
        assert(seq[idx] == *x);
        if in_all(sets, *x) {
            out.push(*x);
        }
        assert forall|y: u32|
            out@.contains(y) <==> (exists|j: int| 0 <= j < idx + 1 && seq[j] == y)
                && common(set_views(sets@)).contains(y) by {
            if out@.contains(y) {
                let k = choose|k: int| 0 <= k < out@.len() && out@[k] == y;
                if k < before.len() {
                    assert(before.contains(y));
                } else {
                    assert(y == *x);
                }
            }
            if (exists|j: int| 0 <= j < idx + 1 && seq[j] == y) && common(set_views(sets@)).contains(y) {
                let j = choose|j: int| 0 <= j < idx + 1 && seq[j] == y;
                if j == idx {
                    assert(out@.last() == y);
                } else {
                    assert(before.contains(y));
                    let k = choose|k: int| 0 <= k < before.len() && before[k] == y;
                    assert(out@[k] == y);
                }
            }
        }
    }
    assert forall|y: u32| out@.to_set().contains(y) <==> common(set_views(sets@)).contains(y) by {
        if common(set_views(sets@)).contains(y) {
            assert(set_views(sets@)[smallest as int].contains(y));
            assert(seq.to_set().contains(y));
        }
    }
    assert(out@.to_set() =~= common(set_views(sets@)));
    out
}

/// The set of revisions filed under an optional UUID.
fn exact_uuid(lib: &Library, key: Option<u128>) -> (r: Option<BTreeSet<u32>>)
    ensures
        opt_sets(r) == step_sets(exact_step(key, lib@.by_uuid)),
{
    match key {
        Some(k) => match lib.uuid_index().get(&k) {
            Some(s) => Some(s.clone()),
            None => {
                let empty: BTreeSet<u32> = BTreeSet::new();
                Some(empty)
            },
        },
        None => None,
    }
}

/// Every step admits only revisions within `dom`.
pub open spec fn steps_within(st: Seq<Step>, dom: Set<u32>) -> bool {
    forall|i: int| #![trigger st[i]] 0 <= i < st.len() ==> st[i].set.subset_of(dom)
}

proof fn lemma_within_concat(a: Seq<Step>, b: Seq<Step>, dom: Set<u32>)
    requires
        steps_within(a, dom),
        steps_within(b, dom),
    ensures
        steps_within(a + b, dom),
{
    assert forall|i: int| #![trigger (a + b)[i]] 0 <= i < (a + b).len() implies (a + b)[i].set.subset_of(dom) by {
        if i < a.len() {
            assert((a + b)[i] == a[i]);
        } else {
            assert((a + b)[i] == b[i - a.len()]);
        }
    }
}

proof fn lemma_exact_within<K>(key: Option<K>, m: Map<K, Set<u32>>, entries: Map<u32, Entry>)
    requires
        crate::library::index_ok(m, entries),
    ensures
        steps_within(exact_step(key, m), entries.dom()),
{
}

proof fn lemma_range_within<K>(
    range: Option<(Bound<K>, Bound<K>)>,
    m: Map<K, Set<u32>>,
    lt: spec_fn(K, K) -> bool,
    entries: Map<u32, Entry>,
)
    requires
        crate::library::index_ok(m, entries),
    ensures
        steps_within(range_step(range, m, lt), entries.dom()),
{
    if let Some((lo, hi)) = range {
        assert forall|r: u32| range_union(m, lo, hi, lt).contains(r) implies entries.dom().contains(r) by {
            let k = choose|k: K| #[trigger] m.contains_key(k) && in_range(k, lo, hi, lt) && m[k].contains(r);
        }
    }
}

/// In a well-formed library, every filter admits only revisions the library holds.
pub proof fn lemma_steps_within(q: QueryView, l: LibraryView)
    requires
        l.well_formed(),
    ensures
        steps_within(q.steps(l), l.entries.dom()),
{
    crate::library::lemma_indexes_ok(l);
    let d = l.entries;
    let s1 = exact_step(q.uuid, l.by_uuid);
    let s2 = exact_step(q.manufacturer, l.by_manufacturer);
    let s3 = exact_step(q.fixture, l.by_fixture);
    let s4 = exact_step(q.revision, l.by_revision);
    let s5 = exact_step(q.creator, l.by_creator);
    let s6 = exact_step(q.uploader, l.by_uploader);
    let s7 = exact_step(q.rating, l.by_rating);
    let s8 = range_step(q.rating_range, l.by_rating, text_order());
    let s9 = exact_step(q.version, l.by_version);
    let s10 = range_step(q.version_range, l.by_version, text_order());
    let s11 = exact_step(q.creation_date, l.by_creation_date);
    let s12 = range_step(q.creation_date_range, l.by_creation_date, num_order());
    let s13 = exact_step(q.last_modified, l.by_last_modified);
    let s14 = range_step(q.last_modified_range, l.by_last_modified, num_order());
    let s15 = exact_step(q.filesize, l.by_filesize);
    let s16 = range_step(q.filesize_range, l.by_filesize, num_order());
    lemma_exact_within(q.uuid, l.by_uuid, d);
    lemma_exact_within(q.manufacturer, l.by_manufacturer, d);
    lemma_exact_within(q.fixture, l.by_fixture, d);
    lemma_exact_within(q.revision, l.by_revision, d);
    lemma_exact_within(q.creator, l.by_creator, d);
    lemma_exact_within(q.uploader, l.by_uploader, d);
    lemma_exact_within(q.rating, l.by_rating, d);
    lemma_range_within(q.rating_range, l.by_rating, text_order(), d);
    lemma_exact_within(q.version, l.by_version, d);
    lemma_range_within(q.version_range, l.by_version, text_order(), d);
    lemma_exact_within(q.creation_date, l.by_creation_date, d);
    lemma_range_within(q.creation_date_range, l.by_creation_date, num_order(), d);
    lemma_exact_within(q.last_modified, l.by_last_modified, d);
    lemma_range_within(q.last_modified_range, l.by_last_modified, num_order(), d);
    lemma_exact_within(q.filesize, l.by_filesize, d);
    lemma_range_within(q.filesize_range, l.by_filesize, num_order(), d);
    let dom = d.dom();
    lemma_within_concat(s1, s2, dom);
    lemma_within_concat(s1 + s2, s3, dom);
    lemma_within_concat(s1 + s2 + s3, s4, dom);
    lemma_within_concat(s1 + s2 + s3 + s4, s5, dom);
    lemma_within_concat(s1 + s2 + s3 + s4 + s5, s6, dom);
    lemma_within_concat(s1 + s2 + s3 + s4 + s5 + s6, s7, dom);
    lemma_within_concat(s1 + s2 + s3 + s4 + s5 + s6 + s7, s8, dom);
    lemma_within_concat(s1 + s2 + s3 + s4 + s5 + s6 + s7 + s8, s9, dom);
    lemma_within_concat(s1 + s2 + s3 + s4 + s5 + s6 + s7 + s8 + s9, s10, dom);
    lemma_within_concat(s1 + s2 + s3 + s4 + s5 + s6 + s7 + s8 + s9 + s10, s11, dom);
    lemma_within_concat(s1 + s2 + s3 + s4 + s5 + s6 + s7 + s8 + s9 + s10 + s11, s12, dom);
    lemma_within_concat(s1 + s2 + s3 + s4 + s5 + s6 + s7 + s8 + s9 + s10 + s11 + s12, s13, dom);
    lemma_within_concat(
        s1 + s2 + s3 + s4 + s5 + s6 + s7 + s8 + s9 + s10 + s11 + s12 + s13,
        s14,
        dom,
    );
    lemma_within_concat(
        s1 + s2 + s3 + s4 + s5 + s6 + s7 + s8 + s9 + s10 + s11 + s12 + s13 + s14,
        s15,
        dom,
    );
    lemma_within_concat(
        s1 + s2 + s3 + s4 + s5 + s6 + s7 + s8 + s9 + s10 + s11 + s12 + s13 + s14 + s15,
        s16,
        dom,
    );
}

/// The entries of the candidate revisions (ascending, all held by the library) that pass
/// the latest-only filter, in the same order.
fn collect<'a>(lib: &'a Library, cands: &Vec<u32>, latest_only: bool, q: Ghost<QueryView>) -> (r: Vec<&'a Entry>)
    requires
        q@.latest_only == latest_only,
        ascending(cands@),
        forall|i: int| 0 <= i < cands@.len() ==> lib@.entries.contains_key(#[trigger] cands@[i]),
    ensures
        exists|kept: Seq<u32>|
            {
                &&& ascending(kept)
                &&& kept.to_set() == cands@.to_set().filter(|x: u32| q@.passes_latest(lib@, x))
                &&& targets(r@) == kept.map_values(|x: u32| lib@.entries[x])
            },
{
    let ghost l = lib@;
    let ghost pass = |x: u32| q@.passes_latest(l, x);
    let mut out: Vec<&'a Entry> = Vec::new();
    let ghost mut kept: Seq<u32> = Seq::empty();
    let mut i: usize = 0;
    while i < cands.len()
        invariant
            l == lib@,
            pass == (|x: u32| q@.passes_latest(l, x)),
            q@.latest_only == latest_only,
            ascending(cands@),
            forall|i: int| 0 <= i < cands@.len() ==> l.entries.contains_key(#[trigger] cands@[i]),
            i <= cands@.len(),
            ascending(kept),
            forall|k: int, j: int|
                0 <= k < kept.len() && i <= j < cands@.len() ==> #[trigger] kept[k] < #[trigger] cands@[j],
            forall|y: u32|
                kept.contains(y) <==> (exists|j: int| 0 <= j < i && cands@[j] == y) && pass(y),
            out@.len() == kept.len(),
            targets(out@) == kept.map_values(|x: u32| l.entries[x]),
        decreases cands@.len() - i,
    {
        let rid = cands[i];
        assert(l.entries.contains_key(cands@[i as int]));
        let e = match lib.get(RevisionId(rid)) {
            Some(e) => e,
            None => {
                assert(false);
                return out;
            },
        };
        let keep = if latest_only {
            match e.uuid {
                Some(u) => match lib.latest_of(u) {
                    Some(latest) => latest == rid,
                    None => false,
                },
                None => true,
            }
        } else {
            true
        };
        assert(keep == pass(rid));
        let ghost before = kept;
        let ghost out_before = out@;
        assert(*e == l.entries[rid]);
        if keep {
            out.push(e);
        }
        proof {
            kept = if keep { before.push(rid) } else { before };
        }
        assert forall|k: int| 0 <= k < out@.len() implies *out@[k] == l.entries[kept[k]] by {
            if k < out_before.len() {
                assert(targets(out_before)[k] == before.map_values(|x: u32| l.entries[x])[k]);
                assert(targets(out_before)[k] == *out_before[k]);
                assert(out@[k] == out_before[k]);
                assert(kept[k] == before[k]);
            } else {
                assert(keep);
                assert(out@[k] == e);
                assert(kept[k] == rid);
            }
        }
        assert(targets(out@) =~= kept.map_values(|x: u32| l.entries[x]));
        assert forall|y: u32|
            kept.contains(y) <==> (exists|j: int| 0 <= j < i + 1 && cands@[j] == y) && pass(y) by {
            if kept.contains(y) {
                let k = choose|k: int| 0 <= k < kept.len() && kept[k] == y;
                if k < before.len() {
                    assert(before.contains(y));
                } else {
                    assert(cands@[i as int] == y);
                }
            }
            if (exists|j: int| 0 <= j < i + 1 && cands@[j] == y) && pass(y) {
                let j = choose|j: int| 0 <= j < i + 1 && cands@[j] == y;
                if j == i {
                    assert(kept.last() == y);
                } else {
                    assert(before.contains(y));
                    let k = choose|k: int| 0 <= k < before.len() && before[k] == y;
                    assert(kept[k] == y);
                }
            }
        }
        i = i + 1;
    }
    assert forall|y: u32| kept.to_set().contains(y) <==> cands@.to_set().filter(pass).contains(y) by {
        if cands@.to_set().filter(pass).contains(y) {
            let j = choose|j: int| 0 <= j < cands@.len() && cands@[j] == y;
        }
    }
    assert(kept.to_set() =~= cands@.to_set().filter(pass));
    out
}

impl<'a> Query<'a> {
    /// The library the query runs on.
    pub closed spec fn library(&self) -> Library {
        *self.library
    }

    /// Creates a new query for the given library.
    pub fn new(library: &'a Library) -> (r: Self)
        ensures
            r@ == QueryView::unfiltered(),
            r.library() == *library,
    {
        let r = Query {
            library,
            uuid: None,
            manufacturer: None,
            fixture: None,
            revision: None,
            creator: None,
            uploader: None,
            rating: None,
            rating_range: None,
            version: None,
            version_range: None,
            creation_date: None,
            creation_date_range: None,
            last_modified: None,
            last_modified_range: None,
            filesize: None,
            filesize_range: None,
            latest_only: false,
        };
        assert(r@ =~= QueryView::unfiltered());
        r
    }

    /// Filters the query to only include entries with the given UUID.
    pub fn uuid(self, uuid: u128) -> (r: Self)
        ensures
            r@ == (QueryView { uuid: Some(uuid), ..self@ }),
            r.library() == self.library(),
    {
        Query { uuid: Some(uuid), ..self }
    }

    /// Filters the query to only include entries with the given manufacturer.
    pub fn manufacturer(self, manufacturer: &'a str) -> (r: Self)
        ensures
            r@ == (QueryView { manufacturer: Some(manufacturer@), ..self@ }),
            r.library() == self.library(),
    {
        Query { manufacturer: Some(manufacturer), ..self }
    }

    /// Filters the query to only include entries with the given fixture name.
    pub fn fixture(self, fixture: &'a str) -> (r: Self)
        ensures
            r@ == (QueryView { fixture: Some(fixture@), ..self@ }),
            r.library() == self.library(),
    {
        Query { fixture: Some(fixture), ..self }
    }

    /// Filters the query to only include entries with the given revision name.
    pub fn revision(self, revision: &'a str) -> (r: Self)
        ensures
            r@ == (QueryView { revision: Some(revision@), ..self@ }),
            r.library() == self.library(),
    {
        Query { revision: Some(revision), ..self }
    }

    /// Filters the query to only include entries with the given creator.
    pub fn creator(self, creator: &'a str) -> (r: Self)
        ensures
            r@ == (QueryView { creator: Some(creator@), ..self@ }),
            r.library() == self.library(),
    {
        Query { creator: Some(creator), ..self }
    }

    /// Filters the query to only include entries with the given uploader.
    pub fn uploader(self, uploader: &'a str) -> (r: Self)
        ensures
            r@ == (QueryView { uploader: Some(uploader@), ..self@ }),
            r.library() == self.library(),
    {
        Query { uploader: Some(uploader), ..self }
    }

    /// Filters the query to only include entries with the given rating.
    pub fn rating(self, rating: &'a str) -> (r: Self)
        ensures
            r@ == (QueryView { rating: Some(rating@), ..self@ }),
            r.library() == self.library(),
    {
        Query { rating: Some(rating), ..self }
    }

    /// Filters the query to only include entries whose rating falls within the given range.
    pub fn rating_range(self, rating_range: (Bound<&'a str>, Bound<&'a str>)) -> (r: Self)
        ensures
            r@ == (QueryView { rating_range: Some((str_bound(rating_range.0), str_bound(rating_range.1))), ..self@ }),
            r.library() == self.library(),
    {
        Query { rating_range: Some(rating_range), ..self }
    }

    /// Filters the query to only include entries with the given GDTF version.
    pub fn version(self, version: &'a str) -> (r: Self)
        ensures
            r@ == (QueryView { version: Some(version@), ..self@ }),
            r.library() == self.library(),
    {
        Query { version: Some(version), ..self }
    }

    /// Filters the query to only include entries whose GDTF version falls within the given range.
    pub fn version_range(self, version_range: (Bound<&'a str>, Bound<&'a str>)) -> (r: Self)
        ensures
            r@ == (QueryView { version_range: Some((str_bound(version_range.0), str_bound(version_range.1))), ..self@ }),
            r.library() == self.library(),
    {
        Query { version_range: Some(version_range), ..self }
    }

    /// Filters the query to only include entries with the given creation date (Unix timestamp).
    pub fn creation_date(self, creation_date: u64) -> (r: Self)
        ensures
            r@ == (QueryView { creation_date: Some(creation_date), ..self@ }),
            r.library() == self.library(),
    {
        Query { creation_date: Some(creation_date), ..self }
    }

    /// Filters the query to only include entries whose creation date falls within the given range (Unix timestamps).
    pub fn creation_date_range(self, creation_date_range: (Bound<u64>, Bound<u64>)) -> (r: Self)
        ensures
            r@ == (QueryView { creation_date_range: Some(creation_date_range), ..self@ }),
            r.library() == self.library(),
    {
        Query { creation_date_range: Some(creation_date_range), ..self }
    }

    /// Filters the query to only include entries with the given last modified date (Unix timestamp).
    pub fn last_modified(self, last_modified: u64) -> (r: Self)
        ensures
            r@ == (QueryView { last_modified: Some(last_modified), ..self@ }),
            r.library() == self.library(),
    {
        Query { last_modified: Some(last_modified), ..self }
    }

    /// Filters the query to only include entries whose last modified date falls within the given range (Unix timestamps).
    pub fn last_modified_range(self, last_modified_range: (Bound<u64>, Bound<u64>)) -> (r: Self)
        ensures
            r@ == (QueryView { last_modified_range: Some(last_modified_range), ..self@ }),
            r.library() == self.library(),
    {
        Query { last_modified_range: Some(last_modified_range), ..self }
    }

    /// Filters the query to only include entries with the given filesize (in bytes).
    pub fn filesize(self, filesize: u64) -> (r: Self)
        ensures
            r@ == (QueryView { filesize: Some(filesize), ..self@ }),
            r.library() == self.library(),
    {
        Query { filesize: Some(filesize), ..self }
    }

    /// Filters the query to only include entries whose filesize falls within the given range (in bytes).
    pub fn filesize_range(self, filesize_range: (Bound<u64>, Bound<u64>)) -> (r: Self)
        ensures
            r@ == (QueryView { filesize_range: Some(filesize_range), ..self@ }),
            r.library() == self.library(),
    {
        Query { filesize_range: Some(filesize_range), ..self }
    }

    /// Filters the query to only include the latest revision of each fixture (by UUID).
    pub fn latest_only(self, latest_only: bool) -> (r: Self)
        ensures
            r@ == (QueryView { latest_only: latest_only, ..self@ }),
            r.library() == self.library(),
    {
        Query { latest_only: latest_only, ..self }
    }

    /// The revisions each filter that is set admits, in the order the filters are applied.
    fn filter_sets(&self) -> (sets: Vec<BTreeSet<u32>>)
        ensures
            set_views(sets@) == step_sets(self@.steps(self.library()@)),
    {
        let lib = self.library;
        let ghost l = lib@;
        let ghost q = self@;
        let mut sets: Vec<BTreeSet<u32>> = Vec::new();
        let ghost mut acc: Seq<Step> = Seq::empty();
        assert(set_views(sets@) =~= step_sets(acc));
        push_opt(&mut sets, exact_uuid(lib, self.uuid));
        proof {
            lemma_step_sets_concat(acc, exact_step(q.uuid, l.by_uuid));
            acc = acc + exact_step(q.uuid, l.by_uuid);
        }
        push_opt(&mut sets, exact_text(lib, TextField::Manufacturer, self.manufacturer));
        proof {
            lemma_step_sets_concat(acc, exact_step(q.manufacturer, l.by_manufacturer));
            acc = acc + exact_step(q.manufacturer, l.by_manufacturer);
        }
        push_opt(&mut sets, exact_text(lib, TextField::Fixture, self.fixture));
        proof {
            lemma_step_sets_concat(acc, exact_step(q.fixture, l.by_fixture));
            acc = acc + exact_step(q.fixture, l.by_fixture);
        }
        push_opt(&mut sets, exact_text(lib, TextField::Revision, self.revision));
        proof {
            lemma_step_sets_concat(acc, exact_step(q.revision, l.by_revision));
            acc = acc + exact_step(q.revision, l.by_revision);
        }
        push_opt(&mut sets, exact_text(lib, TextField::Creator, self.creator));
        proof {
            lemma_step_sets_concat(acc, exact_step(q.creator, l.by_creator));
            acc = acc + exact_step(q.creator, l.by_creator);
        }
        push_opt(&mut sets, exact_text(lib, TextField::Uploader, self.uploader));
        proof {
            lemma_step_sets_concat(acc, exact_step(q.uploader, l.by_uploader));
            acc = acc + exact_step(q.uploader, l.by_uploader);
        }
        push_opt(&mut sets, exact_text(lib, TextField::Rating, self.rating));
        proof {
            lemma_step_sets_concat(acc, exact_step(q.rating, l.by_rating));
            acc = acc + exact_step(q.rating, l.by_rating);
        }
        push_opt(&mut sets, ranged_text(lib, TextField::Rating, &self.rating_range));
        proof {
            lemma_step_sets_concat(acc, range_step(q.rating_range, l.by_rating, text_order()));
            acc = acc + range_step(q.rating_range, l.by_rating, text_order());
        }
        push_opt(&mut sets, exact_text(lib, TextField::Version, self.version));
        proof {
            lemma_step_sets_concat(acc, exact_step(q.version, l.by_version));
            acc = acc + exact_step(q.version, l.by_version);
        }
        push_opt(&mut sets, ranged_text(lib, TextField::Version, &self.version_range));
        proof {
            lemma_step_sets_concat(acc, range_step(q.version_range, l.by_version, text_order()));
            acc = acc + range_step(q.version_range, l.by_version, text_order());
        }
        push_opt(&mut sets, exact_number(lib.number_index(NumberField::CreationDate), self.creation_date));
        proof {
            lemma_step_sets_concat(acc, exact_step(q.creation_date, l.by_creation_date));
            acc = acc + exact_step(q.creation_date, l.by_creation_date);
        }
        push_opt(&mut sets, ranged_number(lib.number_index(NumberField::CreationDate), &self.creation_date_range));
        proof {
            lemma_step_sets_concat(acc, range_step(q.creation_date_range, l.by_creation_date, num_order()));
            acc = acc + range_step(q.creation_date_range, l.by_creation_date, num_order());
        }
        push_opt(&mut sets, exact_number(lib.number_index(NumberField::LastModified), self.last_modified));
        proof {
            lemma_step_sets_concat(acc, exact_step(q.last_modified, l.by_last_modified));
            acc = acc + exact_step(q.last_modified, l.by_last_modified);
        }
        push_opt(&mut sets, ranged_number(lib.number_index(NumberField::LastModified), &self.last_modified_range));
        proof {
            lemma_step_sets_concat(acc, range_step(q.last_modified_range, l.by_last_modified, num_order()));
            acc = acc + range_step(q.last_modified_range, l.by_last_modified, num_order());
        }
        push_opt(&mut sets, exact_number(lib.number_index(NumberField::Filesize), self.filesize));
        proof {
            lemma_step_sets_concat(acc, exact_step(q.filesize, l.by_filesize));
            acc = acc + exact_step(q.filesize, l.by_filesize);
        }
        push_opt(&mut sets, ranged_number(lib.number_index(NumberField::Filesize), &self.filesize_range));
        proof {
            lemma_step_sets_concat(acc, range_step(q.filesize_range, l.by_filesize, num_order()));
            acc = acc + range_step(q.filesize_range, l.by_filesize, num_order());
        }
        assert(acc == q.steps(l));
        sets
    }

    /// Executes the query and returns the matching entries.
    pub fn execute(self) -> (r: Vec<&'a Entry>)
        ensures
            targets(r@) == self@.result(self.library()@),
    {
        let lib = self.library;
        let ghost l = lib@;
        let ghost q = self@;
        let sets = self.filter_sets();
        assert(step_sets(q.steps(l)).len() == q.steps(l).len());
        assert(set_views(sets@).len() == sets@.len());
        if sets.len() == 0 {
            if self.latest_only {
                return lib.iter_latest_revisions();
            } else {
                return lib.iter_all_revisions();
            }
        }
        let cands = intersect(&sets);
        lib.view_well_formed();
        proof {
            lemma_steps_within(q, l);
            assert forall|i: int| 0 <= i < cands@.len() implies l.entries.contains_key(#[trigger] cands@[i]) by {
                assert(cands@.to_set().contains(cands@[i]));
                assert(set_views(sets@)[0].contains(cands@[i]));
                assert(q.steps(l)[0].set.contains(cands@[i]));
            }
        }
        let r = collect(lib, &cands, self.latest_only, Ghost(q));
        proof {
            let kept = choose|kept: Seq<u32>|
                {
                    &&& ascending(kept)
                    &&& kept.to_set() == cands@.to_set().filter(|x: u32| q.passes_latest(l, x))
                    &&& targets(r@) == kept.map_values(|x: u32| l.entries[x])
                };
            assert forall|x: u32| kept.to_set().contains(x) <==> q.chosen(l).contains(x) by {
                if q.chosen(l).contains(x) {
                    assert forall|i: int| 0 <= i < set_views(sets@).len() implies #[trigger] set_views(sets@)[i].contains(x) by {
                        assert(q.steps(l)[i].set.contains(x));
                    }
                    assert(common(set_views(sets@)).contains(x));
                }
                if kept.to_set().contains(x) {
                    assert(common(set_views(sets@)).contains(x));
                    assert(l.entries.contains_key(x)) by {
                        assert(set_views(sets@)[0].contains(x));
                        assert(q.steps(l)[0].set.contains(x));
                    }
                    assert forall|i: int| 0 <= i < q.steps(l).len() implies #[trigger] q.steps(l)[i].set.contains(x) by {
                        assert(set_views(sets@)[i].contains(x));
                    }
                }
            }
            assert(kept.to_set() =~= q.chosen(l));
            lemma_sorted_is(kept);
        }
        r
    }
}

impl<'a> IntoIterator for Query<'a> {
    type Item = &'a Entry;
    type IntoIter = std::vec::IntoIter<&'a Entry>;

    /// Runs the query and walks the matching entries.
    fn into_iter(self) -> (r: std::vec::IntoIter<&'a Entry>)
        ensures
            targets(r.remaining()) == self@.result(self.library()@),
    {
        self.execute().into_iter()
    }
}

impl Library {
    /// Returns a [`Query`] for this [`Library`].
    pub fn query(&self) -> (r: Query<'_>)
        ensures
            r@ == QueryView::unfiltered(),
            r.library() == *self,
    {
        Query::new(self)
    }
}

impl QueryView {
    /// The entry meets every filter that is set (the latest-only filter aside).
    pub open spec fn admits(self, e: Entry) -> bool {
        &&& (self.uuid matches Some(u) ==> e.uuid == Some(u))
        &&& (self.manufacturer matches Some(m) ==> e.manufacturer@ == m)
        &&& (self.fixture matches Some(m) ==> e.fixture@ == m)
        &&& (self.revision matches Some(m) ==> e.revision@ == m)
        &&& (self.creator matches Some(m) ==> e.creator@ == m)
        &&& (self.uploader matches Some(m) ==> e.uploader@ == m)
        &&& (self.rating matches Some(m) ==> e.rating@ == m)
        &&& (self.rating_range matches Some((lo, hi)) ==> in_range(e.rating@, lo, hi, text_order()))
        &&& (self.version matches Some(m) ==> e.version@ == m)
        &&& (self.version_range matches Some((lo, hi)) ==> in_range(e.version@, lo, hi, text_order()))
        &&& (self.creation_date matches Some(d) ==> e.creation_date == d)
        &&& (self.creation_date_range matches Some((lo, hi)) ==> in_range(e.creation_date, lo, hi, num_order()))
        &&& (self.last_modified matches Some(d) ==> e.last_modified == d)
        &&& (self.last_modified_range matches Some((lo, hi)) ==> in_range(e.last_modified, lo, hi, num_order()))
        &&& (self.filesize matches Some(d) ==> e.filesize == d)
        &&& (self.filesize_range matches Some((lo, hi)) ==> in_range(e.filesize, lo, hi, num_order()))
    }
}

/// Revision `r` is admitted by every step.
pub open spec fn all_admit(st: Seq<Step>, r: u32) -> bool {
    forall|i: int| #![trigger st[i]] 0 <= i < st.len() ==> st[i].set.contains(r)
}

proof fn lemma_all_admit_concat(a: Seq<Step>, b: Seq<Step>, r: u32)
    ensures
        all_admit(a + b, r) == (all_admit(a, r) && all_admit(b, r)),
{
    if all_admit(a + b, r) {
        assert forall|i: int| #![trigger a[i]] 0 <= i < a.len() implies a[i].set.contains(r) by {
            assert((a + b)[i] == a[i]);
        }
        assert forall|i: int| #![trigger b[i]] 0 <= i < b.len() implies b[i].set.contains(r) by {
            assert((a + b)[a.len() + i] == b[i]);
        }
    }
    if all_admit(a, r) && all_admit(b, r) {
        assert forall|i: int| #![trigger (a + b)[i]] 0 <= i < (a + b).len() implies (a + b)[i].set.contains(r) by {
            if i < a.len() {
                assert((a + b)[i] == a[i]);
            } else {
                assert((a + b)[i] == b[i - a.len()]);
            }
        }
    }
}

proof fn lemma_exact_admit<K>(
    key: Option<K>,
    m: Map<K, Set<u32>>,
    entries: Map<u32, Entry>,
    field: spec_fn(Entry) -> K,
    r: u32,
)
    requires
        agrees(m, entries, field),
        entries.contains_key(r),
    ensures
        all_admit(exact_step(key, m), r) == (key matches Some(k) ==> field(entries[r]) == k),
{
    if let Some(k) = key {
        assert(exact_step(key, m)[0].set == lookup(m, k));
    }
}

proof fn lemma_uuid_admit(key: Option<u128>, m: Map<u128, Set<u32>>, entries: Map<u32, Entry>, r: u32)
    requires
        agrees_uuid(m, entries),
        entries.contains_key(r),
    ensures
        all_admit(exact_step(key, m), r) == (key matches Some(u) ==> entries[r].uuid == Some(u)),
{
    if let Some(k) = key {
        assert(exact_step(key, m)[0].set == lookup(m, k));
    }
}

proof fn lemma_range_admit<K>(
    range: Option<(Bound<K>, Bound<K>)>,
    m: Map<K, Set<u32>>,
    lt: spec_fn(K, K) -> bool,
    entries: Map<u32, Entry>,
    field: spec_fn(Entry) -> K,
    r: u32,
)
    requires
        agrees(m, entries, field),
        entries.contains_key(r),
    ensures
        all_admit(range_step(range, m, lt), r) == (range matches Some((lo, hi)) ==> in_range(
            field(entries[r]),
            lo,
            hi,
            lt,
        )),
{
    if let Some((lo, hi)) = range {
        let st = range_step(range, m, lt);
        assert(st[0].set == range_union(m, lo, hi, lt));
        let k = field(entries[r]);
        if in_range(k, lo, hi, lt) {
            assert(m.contains_key(k) && m[k].contains(r));
            assert(range_union(m, lo, hi, lt).contains(r));
        }
        if range_union(m, lo, hi, lt).contains(r) {
            let k2 = choose|k2: K| #[trigger] m.contains_key(k2) && in_range(k2, lo, hi, lt) && m[k2].contains(r);
            assert(field(entries[r]) == k2);
        }
    }
}

/// In a consistent library, the filters of a query admit a held revision exactly when its
/// entry meets them: an exact filter when the entry's field equals the value, a range
/// filter when the field lies within the range.
pub proof fn lemma_selects_iff_admits(q: QueryView, l: LibraryView, r: u32)
    requires
        l.consistent(),
        l.entries.contains_key(r),
    ensures
        q.selects(l, r) == q.admits(l.entries[r]),
{
    let en = l.entries;
    let s1 = exact_step(q.uuid, l.by_uuid);
    let s2 = exact_step(q.manufacturer, l.by_manufacturer);
    let s3 = exact_step(q.fixture, l.by_fixture);
    let s4 = exact_step(q.revision, l.by_revision);
    let s5 = exact_step(q.creator, l.by_creator);
    let s6 = exact_step(q.uploader, l.by_uploader);
    let s7 = exact_step(q.rating, l.by_rating);
    let s8 = range_step(q.rating_range, l.by_rating, text_order());
    let s9 = exact_step(q.version, l.by_version);
    let s10 = range_step(q.version_range, l.by_version, text_order());
    let s11 = exact_step(q.creation_date, l.by_creation_date);
    let s12 = range_step(q.creation_date_range, l.by_creation_date, num_order());
    let s13 = exact_step(q.last_modified, l.by_last_modified);
    let s14 = range_step(q.last_modified_range, l.by_last_modified, num_order());
    let s15 = exact_step(q.filesize, l.by_filesize);
    let s16 = range_step(q.filesize_range, l.by_filesize, num_order());
    lemma_uuid_admit(q.uuid, l.by_uuid, en, r);
    lemma_exact_admit(q.manufacturer, l.by_manufacturer, en, |e: Entry| e.manufacturer@, r);
    lemma_exact_admit(q.fixture, l.by_fixture, en, |e: Entry| e.fixture@, r);
    lemma_exact_admit(q.revision, l.by_revision, en, |e: Entry| e.revision@, r);
    lemma_exact_admit(q.creator, l.by_creator, en, |e: Entry| e.creator@, r);
    lemma_exact_admit(q.uploader, l.by_uploader, en, |e: Entry| e.uploader@, r);
    lemma_exact_admit(q.rating, l.by_rating, en, |e: Entry| e.rating@, r);
    lemma_range_admit(q.rating_range, l.by_rating, text_order(), en, |e: Entry| e.rating@, r);
    lemma_exact_admit(q.version, l.by_version, en, |e: Entry| e.version@, r);
    lemma_range_admit(q.version_range, l.by_version, text_order(), en, |e: Entry| e.version@, r);
    lemma_exact_admit(q.creation_date, l.by_creation_date, en, |e: Entry| e.creation_date, r);
    lemma_range_admit(q.creation_date_range, l.by_creation_date, num_order(), en, |e: Entry| e.creation_date, r);
    lemma_exact_admit(q.last_modified, l.by_last_modified, en, |e: Entry| e.last_modified, r);
    lemma_range_admit(q.last_modified_range, l.by_last_modified, num_order(), en, |e: Entry| e.last_modified, r);
    lemma_exact_admit(q.filesize, l.by_filesize, en, |e: Entry| e.filesize, r);
    lemma_range_admit(q.filesize_range, l.by_filesize, num_order(), en, |e: Entry| e.filesize, r);
    lemma_all_admit_concat(s1, s2, r);
    lemma_all_admit_concat(s1 + s2, s3, r);
    lemma_all_admit_concat(s1 + s2 + s3, s4, r);
    lemma_all_admit_concat(s1 + s2 + s3 + s4, s5, r);
    lemma_all_admit_concat(s1 + s2 + s3 + s4 + s5, s6, r);
    lemma_all_admit_concat(s1 + s2 + s3 + s4 + s5 + s6, s7, r);
    lemma_all_admit_concat(s1 + s2 + s3 + s4 + s5 + s6 + s7, s8, r);
    lemma_all_admit_concat(s1 + s2 + s3 + s4 + s5 + s6 + s7 + s8, s9, r);
    lemma_all_admit_concat(s1 + s2 + s3 + s4 + s5 + s6 + s7 + s8 + s9, s10, r);
    lemma_all_admit_concat(s1 + s2 + s3 + s4 + s5 + s6 + s7 + s8 + s9 + s10, s11, r);
    lemma_all_admit_concat(s1 + s2 + s3 + s4 + s5 + s6 + s7 + s8 + s9 + s10 + s11, s12, r);
    lemma_all_admit_concat(s1 + s2 + s3 + s4 + s5 + s6 + s7 + s8 + s9 + s10 + s11 + s12, s13, r);
    lemma_all_admit_concat(s1 + s2 + s3 + s4 + s5 + s6 + s7 + s8 + s9 + s10 + s11 + s12 + s13, s14, r);
    lemma_all_admit_concat(s1 + s2 + s3 + s4 + s5 + s6 + s7 + s8 + s9 + s10 + s11 + s12 + s13 + s14, s15, r);
    lemma_all_admit_concat(s1 + s2 + s3 + s4 + s5 + s6 + s7 + s8 + s9 + s10 + s11 + s12 + s13 + s14 + s15, s16, r);
    assert(q.steps(l) == s1 + s2 + s3 + s4 + s5 + s6 + s7 + s8 + s9 + s10 + s11 + s12 + s13 + s14 + s15 + s16);
    assert(q.selects(l, r) == all_admit(q.steps(l), r));
}

/// In a consistent library, a held revision passes the latest-only filter exactly when the
/// filter is off, or its entry has no UUID, or no held entry with the same UUID has a
/// greater revision id.
pub proof fn lemma_passes_latest_iff_greatest(q: QueryView, l: LibraryView, r: u32)
    requires
        l.consistent(),
        l.entries.contains_key(r),
    ensures
        q.passes_latest(l, r) == (!q.latest_only || match l.entries[r].uuid {
            Some(u) => forall|x: u32|
                l.entries.contains_key(x) && #[trigger] has_uuid(l.entries[x], u) ==> x <= r,
            None => true,
        }),
{
    if let Some(u) = l.entries[r].uuid {
        assert(has_uuid(l.entries[r], u));
        assert(l.latest.contains_key(u) && r <= l.latest[u]);
        if l.latest[u] == r {
            assert forall|x: u32| l.entries.contains_key(x) && #[trigger] has_uuid(l.entries[x], u) implies x <= r by {
            }
        } else {
            let g = l.latest[u];
            assert(l.entries.contains_key(g) && has_uuid(l.entries[g], u));
        }
    }
}

impl QueryView {
    /// Some filter other than latest-only is set.
    pub open spec fn filtered(self) -> bool {
        ||| self.uuid is Some
        ||| self.manufacturer is Some
        ||| self.fixture is Some
        ||| self.revision is Some
        ||| self.creator is Some
        ||| self.uploader is Some
        ||| self.rating is Some
        ||| self.rating_range is Some
        ||| self.version is Some
        ||| self.version_range is Some
        ||| self.creation_date is Some
        ||| self.creation_date_range is Some
        ||| self.last_modified is Some
        ||| self.last_modified_range is Some
        ||| self.filesize is Some
        ||| self.filesize_range is Some
    }

    /// The entry is the latest revision of its UUID among the held entries, or has no UUID.
    pub open spec fn greatest_of_its_uuid(self, l: LibraryView, r: u32) -> bool {
        match l.entries[r].uuid {
            Some(u) => forall|x: u32| l.entries.contains_key(x) && #[trigger] has_uuid(l.entries[x], u) ==> x <= r,
            None => true,
        }
    }
}

/// The query runs its filters exactly when one of them is set.
pub proof fn lemma_steps_iff_filtered(q: QueryView, l: LibraryView)
    ensures
        (q.steps(l).len() > 0) == q.filtered(),
{
}

/// In a well-formed library, a query with a filter set returns, in increasing order of
/// revision id, exactly the held entries that meet every filter and, when only the latest
/// are asked for, have no UUID or the greatest revision id among the entries with theirs.
pub proof fn lemma_query_result(q: QueryView, l: LibraryView)
    requires
        l.well_formed(),
        q.filtered(),
    ensures
        q.result(l) == sorted(
            l.entries.dom().filter(
                |r: u32| q.admits(l.entries[r]) && (!q.latest_only || q.greatest_of_its_uuid(l, r)),
            ),
        ).map_values(|r: u32| l.entries[r]),
{
    lemma_steps_iff_filtered(q, l);
    lemma_well_formed_consistent(l);
    let want = l.entries.dom().filter(
        |r: u32| q.admits(l.entries[r]) && (!q.latest_only || q.greatest_of_its_uuid(l, r)),
    );
    assert forall|r: u32| q.chosen(l).contains(r) <==> want.contains(r) by {
        if l.entries.contains_key(r) {
            lemma_selects_iff_admits(q, l, r);
            lemma_passes_latest_iff_greatest(q, l, r);
        }
    }
    assert(q.chosen(l) =~= want);
}


/// A filter that one of a query's setters sets, with its value.
pub enum Filter {
    Uuid(u128),
    Manufacturer(Seq<char>),
    Fixture(Seq<char>),
    Revision(Seq<char>),
    Creator(Seq<char>),
    Uploader(Seq<char>),
    Rating(Seq<char>),
    RatingRange(Bound<Seq<char>>, Bound<Seq<char>>),
    Version(Seq<char>),
    VersionRange(Bound<Seq<char>>, Bound<Seq<char>>),
    CreationDate(u64),
    CreationDateRange(Bound<u64>, Bound<u64>),
    LastModified(u64),
    LastModifiedRange(Bound<u64>, Bound<u64>),
    Filesize(u64),
    FilesizeRange(Bound<u64>, Bound<u64>),
    LatestOnly(bool),
}

impl Filter {
    /// The field of a query that the filter sets.
    pub open spec fn field(self) -> int {
        match self {
            Filter::Uuid(_) => 0,
            Filter::Manufacturer(_) => 1,
            Filter::Fixture(_) => 2,
            Filter::Revision(_) => 3,
            Filter::Creator(_) => 4,
            Filter::Uploader(_) => 5,
            Filter::Rating(_) => 6,
            Filter::RatingRange(_, _) => 7,
            Filter::Version(_) => 8,
            Filter::VersionRange(_, _) => 9,
            Filter::CreationDate(_) => 10,
            Filter::CreationDateRange(_, _) => 11,
            Filter::LastModified(_) => 12,
            Filter::LastModifiedRange(_, _) => 13,
            Filter::Filesize(_) => 14,
            Filter::FilesizeRange(_, _) => 15,
            Filter::LatestOnly(_) => 16,
        }
    }
}

impl QueryView {
    /// The query after the setter of the filter's field is called with the filter's value.
    pub open spec fn with(self, f: Filter) -> QueryView {
        match f {
            Filter::Uuid(v) => QueryView { uuid: Some(v), ..self },
            Filter::Manufacturer(v) => QueryView { manufacturer: Some(v), ..self },
            Filter::Fixture(v) => QueryView { fixture: Some(v), ..self },
            Filter::Revision(v) => QueryView { revision: Some(v), ..self },
            Filter::Creator(v) => QueryView { creator: Some(v), ..self },
            Filter::Uploader(v) => QueryView { uploader: Some(v), ..self },
            Filter::Rating(v) => QueryView { rating: Some(v), ..self },
            Filter::RatingRange(lo, hi) => QueryView { rating_range: Some((lo, hi)), ..self },
            Filter::Version(v) => QueryView { version: Some(v), ..self },
            Filter::VersionRange(lo, hi) => QueryView { version_range: Some((lo, hi)), ..self },
            Filter::CreationDate(v) => QueryView { creation_date: Some(v), ..self },
            Filter::CreationDateRange(lo, hi) => QueryView { creation_date_range: Some((lo, hi)), ..self },
            Filter::LastModified(v) => QueryView { last_modified: Some(v), ..self },
            Filter::LastModifiedRange(lo, hi) => QueryView { last_modified_range: Some((lo, hi)), ..self },
            Filter::Filesize(v) => QueryView { filesize: Some(v), ..self },
            Filter::FilesizeRange(lo, hi) => QueryView { filesize_range: Some((lo, hi)), ..self },
            Filter::LatestOnly(b) => QueryView { latest_only: b, ..self },
        }
    }

    /// The query already sets the field that the filter sets.
    pub open spec fn sets(self, f: Filter) -> bool {
        match f {
            Filter::Uuid(_) => self.uuid is Some,
            Filter::Manufacturer(_) => self.manufacturer is Some,
            Filter::Fixture(_) => self.fixture is Some,
            Filter::Revision(_) => self.revision is Some,
            Filter::Creator(_) => self.creator is Some,
            Filter::Uploader(_) => self.uploader is Some,
            Filter::Rating(_) => self.rating is Some,
            Filter::RatingRange(_, _) => self.rating_range is Some,
            Filter::Version(_) => self.version is Some,
            Filter::VersionRange(_, _) => self.version_range is Some,
            Filter::CreationDate(_) => self.creation_date is Some,
            Filter::CreationDateRange(_, _) => self.creation_date_range is Some,
            Filter::LastModified(_) => self.last_modified is Some,
            Filter::LastModifiedRange(_, _) => self.last_modified_range is Some,
            Filter::Filesize(_) => self.filesize is Some,
            Filter::FilesizeRange(_, _) => self.filesize_range is Some,
            Filter::LatestOnly(_) => true,
        }
    }
}

/// Setters of two different fields may be called in either order: the query is the same.
pub proof fn lemma_setters_commute(q: QueryView, f: Filter, g: Filter)
    requires
        f.field() != g.field(),
    ensures
        q.with(f).with(g) == q.with(g).with(f),
{
}

/// A later call of the setter of a field replaces the value an earlier call set.
pub proof fn lemma_later_setter_overwrites(q: QueryView, f: Filter, g: Filter)
    requires
        f.field() == g.field(),
    ensures
        q.with(f).with(g) == q.with(g),
{
}

impl QueryView {
    /// Some range filter of the query holds no key.
    pub open spec fn has_empty_range(self) -> bool {
        ||| self.rating_range matches Some((lo, hi)) && no_key_in(lo, hi, text_order())
        ||| self.version_range matches Some((lo, hi)) && no_key_in(lo, hi, text_order())
        ||| self.creation_date_range matches Some((lo, hi)) && no_key_in(lo, hi, num_order())
        ||| self.last_modified_range matches Some((lo, hi)) && no_key_in(lo, hi, num_order())
        ||| self.filesize_range matches Some((lo, hi)) && no_key_in(lo, hi, num_order())
    }
}

/// A query with a range filter that holds no key returns nothing.
pub proof fn lemma_empty_range_selects_nothing(q: QueryView, l: LibraryView)
    requires
        q.has_empty_range(),
    ensures
        q.result(l) == Seq::<Entry>::empty(),
{
    lemma_steps_iff_filtered(q, l);
    assert forall|r: u32| !q.chosen(l).contains(r) by {
        if q.chosen(l).contains(r) {
            assert(q.selects(l, r));
            let st = q.steps(l);
            let s1 = exact_step(q.uuid, l.by_uuid) + exact_step(q.manufacturer, l.by_manufacturer)
                + exact_step(q.fixture, l.by_fixture) + exact_step(q.revision, l.by_revision)
                + exact_step(q.creator, l.by_creator) + exact_step(q.uploader, l.by_uploader)
                + exact_step(q.rating, l.by_rating);
            let s2 = s1 + range_step(q.rating_range, l.by_rating, text_order());
            let s3 = s2 + exact_step(q.version, l.by_version);
            let s4 = s3 + range_step(q.version_range, l.by_version, text_order());
            let s5 = s4 + exact_step(q.creation_date, l.by_creation_date);
            let s6 = s5 + range_step(q.creation_date_range, l.by_creation_date, num_order());
            let s7 = s6 + exact_step(q.last_modified, l.by_last_modified);
            let s8 = s7 + range_step(q.last_modified_range, l.by_last_modified, num_order());
            let s9 = s8 + exact_step(q.filesize, l.by_filesize);
            let s10 = s9 + range_step(q.filesize_range, l.by_filesize, num_order());
            assert(st == s10);
            if let Some((lo, hi)) = q.rating_range {
                if no_key_in(lo, hi, text_order()) {
                    assert(st[s1.len() as int] == range_step(q.rating_range, l.by_rating, text_order())[0]);
                    assert(st[s1.len() as int].set.contains(r));
                    let k = choose|k: Seq<char>| #[trigger] l.by_rating.contains_key(k) && in_range(k, lo, hi, text_order()) && l.by_rating[k].contains(r);
                }
            }
            if let Some((lo, hi)) = q.version_range {
                if no_key_in(lo, hi, text_order()) {
                    assert(st[s3.len() as int] == range_step(q.version_range, l.by_version, text_order())[0]);
                    assert(st[s3.len() as int].set.contains(r));
                    let k = choose|k: Seq<char>| #[trigger] l.by_version.contains_key(k) && in_range(k, lo, hi, text_order()) && l.by_version[k].contains(r);
                }
            }
            if let Some((lo, hi)) = q.creation_date_range {
                if no_key_in(lo, hi, num_order()) {
                    assert(st[s5.len() as int] == range_step(q.creation_date_range, l.by_creation_date, num_order())[0]);
                    assert(st[s5.len() as int].set.contains(r));
                    let k = choose|k: u64| #[trigger] l.by_creation_date.contains_key(k) && in_range(k, lo, hi, num_order()) && l.by_creation_date[k].contains(r);
                }
            }
            if let Some((lo, hi)) = q.last_modified_range {
                if no_key_in(lo, hi, num_order()) {
                    assert(st[s7.len() as int] == range_step(q.last_modified_range, l.by_last_modified, num_order())[0]);
                    assert(st[s7.len() as int].set.contains(r));
                    let k = choose|k: u64| #[trigger] l.by_last_modified.contains_key(k) && in_range(k, lo, hi, num_order()) && l.by_last_modified[k].contains(r);
                }
            }
            if let Some((lo, hi)) = q.filesize_range {
                if no_key_in(lo, hi, num_order()) {
                    assert(st[s9.len() as int] == range_step(q.filesize_range, l.by_filesize, num_order())[0]);
                    assert(st[s9.len() as int].set.contains(r));
                    let k = choose|k: u64| #[trigger] l.by_filesize.contains_key(k) && in_range(k, lo, hi, num_order()) && l.by_filesize[k].contains(r);
                }
            }
        }
    }
    assert(q.chosen(l) =~= Set::<u32>::empty());
    lemma_sorted(Set::<u32>::empty());
}

/// A query with no filter and without the latest-only flag lists every held entry, in
/// increasing order of revision id, so it lists as many entries as the library holds.
pub proof fn lemma_unfiltered_lists_all(l: LibraryView)
    requires
        l.well_formed(),
    ensures
        QueryView::unfiltered().result(l) == l.all_revisions(),
        l.all_revisions().len() == l.entries.dom().len(),
        QueryView::unfiltered().with(Filter::LatestOnly(false)).result(l) == l.all_revisions(),
{
    lemma_sorted(l.entries.dom());
    assert(QueryView::unfiltered().with(Filter::LatestOnly(false)) == QueryView::unfiltered());
}

/// A query with no filter that asks for the latest revisions lists, for each UUID that a
/// held entry has, in increasing order of UUID, the held entry with that UUID and the
/// greatest revision id; it lists no entry without a UUID.
pub proof fn lemma_latest_only_lists_latest(l: LibraryView)
    requires
        l.well_formed(),
    ensures
        QueryView::unfiltered().with(Filter::LatestOnly(true)).result(l) == l.latest_revisions(),
        ascending_wide(sorted_wide(l.latest.dom())),
        l.latest_revisions().len() == l.latest.dom().len(),
        forall|u: u128|
            l.latest.contains_key(u) <==> exists|r: u32| l.entries.contains_key(r) && #[trigger] has_uuid(l.entries[r], u),
        forall|i: int|
            0 <= i < l.latest_revisions().len() ==> {
                let u = sorted_wide(l.latest.dom())[i];
                let e = #[trigger] l.latest_revisions()[i];
                &&& e.uuid == Some(u)
                &&& l.entries.contains_key(e.rid@) && l.entries[e.rid@] == e
                &&& forall|x: u32| l.entries.contains_key(x) && #[trigger] has_uuid(l.entries[x], u) ==> x <= e.rid@
            },
{
    crate::library::lemma_latest_finite(l);
    lemma_sorted_wide(l.latest.dom());
    let keys = sorted_wide(l.latest.dom());
    assert forall|u: u128|
        l.latest.contains_key(u) <==> exists|r: u32| l.entries.contains_key(r) && #[trigger] has_uuid(l.entries[r], u) by {
        if l.latest.contains_key(u) {
            lemma_latest_held(l, u);
            assert(has_uuid(l.entries[l.latest[u]], u));
        }
        if exists|r: u32| l.entries.contains_key(r) && #[trigger] has_uuid(l.entries[r], u) {
            lemma_well_formed_consistent(l);
        }
    }
    assert forall|i: int| 0 <= i < l.latest_revisions().len() implies {
        let u = sorted_wide(l.latest.dom())[i];
        let e = #[trigger] l.latest_revisions()[i];
        &&& e.uuid == Some(u)
        &&& l.entries.contains_key(e.rid@) && l.entries[e.rid@] == e
        &&& forall|x: u32| l.entries.contains_key(x) && #[trigger] has_uuid(l.entries[x], u) ==> x <= e.rid@
    } by {
        let u = keys[i];
        assert(keys.to_set().contains(u));
        lemma_latest_held(l, u);
    }
}

/// A query that has a filter set, or that does not ask for the latest revisions only,
/// lists the entries of its chosen revisions in increasing order of revision id.
pub proof fn lemma_result_lists_chosen(q: QueryView, l: LibraryView)
    requires
        l.well_formed(),
        q.filtered() || !q.latest_only,
    ensures
        q.result(l) == sorted(q.chosen(l)).map_values(|r: u32| l.entries[r]),
{
    lemma_steps_iff_filtered(q, l);
    if !q.filtered() {
        assert(q.chosen(l) =~= l.entries.dom());
    }
}

/// Setting a filter on a field a query has not set narrows it: the query then chooses
/// only revisions it chose before, and lists them in the same order as before, leaving
/// out the others.
pub proof fn lemma_added_filter_narrows(q: QueryView, f: Filter, l: LibraryView)
    requires
        l.well_formed(),
        !(f is LatestOnly),
        !q.sets(f),
        q.filtered() || !q.latest_only,
    ensures
        q.with(f).chosen(l).subset_of(q.chosen(l)),
        q.result(l) == sorted(q.chosen(l)).map_values(|r: u32| l.entries[r]),
        q.with(f).result(l) == sorted(q.with(f).chosen(l)).map_values(|r: u32| l.entries[r]),
        sorted(q.with(f).chosen(l)) == sorted(q.chosen(l)).filter(|r: u32| q.with(f).chosen(l).contains(r)),
{
    let q2 = q.with(f);
    lemma_result_lists_chosen(q, l);
    assert(q2.filtered());
    lemma_result_lists_chosen(q2, l);
    lemma_added_filter_chooses_fewer(q, f, l);
    let c = q.chosen(l);
    let c2 = q2.chosen(l);
    lemma_chosen_sublisting(c, c2, l);
}

/// An entry that meets a query with one more filter meets the query.
proof fn lemma_with_admits(q: QueryView, f: Filter, e: Entry)
    requires
        !(f is LatestOnly),
        !q.sets(f),
    ensures
        q.with(f).admits(e) ==> q.admits(e),
{
}

proof fn lemma_added_filter_chooses_fewer(q: QueryView, f: Filter, l: LibraryView)
    requires
        l.well_formed(),
        !(f is LatestOnly),
        !q.sets(f),
        q.filtered() || !q.latest_only,
    ensures
        q.with(f).chosen(l).subset_of(q.chosen(l)),
{
    let q2 = q.with(f);
    lemma_well_formed_consistent(l);
    assert forall|r: u32| q2.chosen(l).contains(r) implies q.chosen(l).contains(r) by {
        lemma_selects_iff_admits(q, l, r);
        lemma_selects_iff_admits(q2, l, r);
        lemma_with_admits(q, f, l.entries[r]);
    }
}

/// The sorted listing of a part of a set of held revisions is the sorted listing of the set
/// with the others left out.
proof fn lemma_chosen_sublisting(c: Set<u32>, c2: Set<u32>, l: LibraryView)
    requires
        l.well_formed(),
        c.subset_of(l.entries.dom()),
        c2.subset_of(c),
    ensures
        sorted(c2) == sorted(c).filter(|r: u32| c2.contains(r)),
{
    vstd::set_lib::lemma_len_subset(c, l.entries.dom());
    lemma_sorted(c);
    let p = |r: u32| c2.contains(r);
    lemma_filter_ascending(sorted(c), p);
    assert(sorted(c).filter(p).to_set() =~= c2) by {
        assert forall|x: u32| sorted(c).filter(p).to_set().contains(x) <==> c2.contains(x) by {
            assert(sorted(c).filter(p).contains(x) <==> sorted(c).contains(x) && p(x));
            assert(sorted(c).to_set().contains(x) <==> c.contains(x));
        }
    }
    lemma_sorted_is(sorted(c).filter(p));
}

/// An unbounded filesize range admits every filesize: setting it on a query that has a
/// filter set, or that does not ask for the latest revisions only, changes nothing it
/// returns.
pub proof fn lemma_unbounded_filesize_range_keeps(q: QueryView, l: LibraryView)
    requires
        l.well_formed(),
        q.filesize_range is None,
        q.filtered() || !q.latest_only,
    ensures
        q.with(Filter::FilesizeRange(Bound::Unbounded, Bound::Unbounded)).result(l) == q.result(l),
{
    let q2 = q.with(Filter::FilesizeRange(Bound::Unbounded, Bound::Unbounded));
    lemma_well_formed_consistent(l);
    lemma_result_lists_chosen(q, l);
    lemma_result_lists_chosen(q2, l);
    assert forall|r: u32| q2.chosen(l).contains(r) == q.chosen(l).contains(r) by {
        if l.entries.contains_key(r) {
            lemma_selects_iff_admits(q, l, r);
            lemma_selects_iff_admits(q2, l, r);
        }
    }
    assert(q2.chosen(l) =~= q.chosen(l));
}

} // verus!
