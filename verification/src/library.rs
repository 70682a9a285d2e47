//! An indexed collection of GDTF Share entries.
use std::collections::{BTreeMap, BTreeSet};
use vstd::prelude::*;
use vstd::std_specs::btree::{increasing_seq, spec_btree_keys_iter, spec_btree_map_iter};
use vstd::std_specs::iter::IteratorSpec;

use crate::index::{add_rid, drop_rid, KeyIndex, TextIndex};
use crate::order::{lemma_increasing, lemma_increasing_wide, lemma_sorted_is, lemma_sorted_is_wide, sorted, sorted_wide};
use crate::text::{
    lemma_contains_text_is_substring, occurs_at, ascii_lowercase, ascii_uppercase, chars_of, contains, contains_text, is_ascii_text, lemma_ascii_lower_of_upper,
    lemma_ascii_lowercase_blank, lemma_ascii_lowercase_join, lemma_words_of_blank, lemma_words_of_join, lowercase_of,
    push_char, to_lowercase, white_space, words, words_of,
};
use crate::Entry;
use crate::RevisionId;

verus! {

broadcast use {vstd::std_specs::btree::group_btree_axioms, vstd::laws_cmp::group_laws_cmp};

/// The text fields that a library indexes.
pub enum TextField {
    Manufacturer,
    Fixture,
    Revision,
    Creator,
    Uploader,
    Rating,
    Version,
}

/// The numeric fields that a library indexes.
pub enum NumberField {
    CreationDate,
    LastModified,
    Filesize,
}

/// The value of a text field of an entry.
pub open spec fn text_field(e: Entry, which: TextField) -> Seq<char> {
    match which {
        TextField::Manufacturer => e.manufacturer@,
        TextField::Fixture => e.fixture@,
        TextField::Revision => e.revision@,
        TextField::Creator => e.creator@,
        TextField::Uploader => e.uploader@,
        TextField::Rating => e.rating@,
        TextField::Version => e.version@,
    }
}

/// The value of a numeric field of an entry.
pub open spec fn number_field(e: Entry, which: NumberField) -> u64 {
    match which {
        NumberField::CreationDate => e.creation_date,
        NumberField::LastModified => e.last_modified,
        NumberField::Filesize => e.filesize,
    }
}

/// An entry is filed under the value of the text field.
pub open spec fn text_key(which: TextField) -> spec_fn(Entry, Seq<char>) -> bool {
    |e: Entry, k: Seq<char>| text_field(e, which) == k
}

/// An entry is filed under the value of the numeric field.
pub open spec fn number_key(which: NumberField) -> spec_fn(Entry, u64) -> bool {
    |e: Entry, k: u64| number_field(e, which) == k
}

/// An entry is filed under its UUID, when it has one.
pub open spec fn uuid_key() -> spec_fn(Entry, u128) -> bool {
    |e: Entry, u: u128| e.uuid == Some(u)
}

/// The held revisions whose entries are filed under `k`.
pub open spec fn filed<K>(entries: Map<u32, Entry>, has: spec_fn(Entry, K) -> bool, k: K) -> Set<u32> {
    Set::new(|r: u32| entries.contains_key(r) && has(entries[r], k))
}

/// The index of the held entries: every key that some held entry is filed under, with the
/// revisions of the entries filed under it.
pub open spec fn index_by<K>(entries: Map<u32, Entry>, has: spec_fn(Entry, K) -> bool) -> Map<K, Set<u32>> {
    Map::new(
        |k: K| exists|r: u32| #[trigger] filed(entries, has, k).contains(r),
        |k: K| filed(entries, has, k),
    )
}

/// The greatest revision id of a set.
pub open spec fn greatest(s: Set<u32>) -> u32 {
    choose|m: u32| s.contains(m) && forall|x: u32| #[trigger] s.contains(x) ==> x <= m
}

/// What a library holds: its entries by revision id, the latest revision of each fixture
/// UUID, and for every indexed field the revisions filed under each value of it.
#[verifier::ext_equal]
pub struct LibraryView {
    pub entries: Map<u32, Entry>,
    pub latest: Map<u128, u32>,
    pub by_uuid: Map<u128, Set<u32>>,
    pub by_manufacturer: Map<Seq<char>, Set<u32>>,
    pub by_fixture: Map<Seq<char>, Set<u32>>,
    pub by_revision: Map<Seq<char>, Set<u32>>,
    pub by_creator: Map<Seq<char>, Set<u32>>,
    pub by_uploader: Map<Seq<char>, Set<u32>>,
    pub by_rating: Map<Seq<char>, Set<u32>>,
    pub by_version: Map<Seq<char>, Set<u32>>,
    pub by_creation_date: Map<u64, Set<u32>>,
    pub by_last_modified: Map<u64, Set<u32>>,
    pub by_filesize: Map<u64, Set<u32>>,
}

impl LibraryView {
    /// The library that holds exactly `entries`: every index files exactly the held entries
    /// under their values, and the latest revision of each UUID is the greatest revision id
    /// among the held entries with that UUID.
    pub open spec fn of(entries: Map<u32, Entry>) -> LibraryView {
        LibraryView {
            entries,
            latest: index_by(entries, uuid_key()).map_values(|s: Set<u32>| greatest(s)),
            by_uuid: index_by(entries, uuid_key()),
            by_manufacturer: index_by(entries, text_key(TextField::Manufacturer)),
            by_fixture: index_by(entries, text_key(TextField::Fixture)),
            by_revision: index_by(entries, text_key(TextField::Revision)),
            by_creator: index_by(entries, text_key(TextField::Creator)),
            by_uploader: index_by(entries, text_key(TextField::Uploader)),
            by_rating: index_by(entries, text_key(TextField::Rating)),
            by_version: index_by(entries, text_key(TextField::Version)),
            by_creation_date: index_by(entries, number_key(NumberField::CreationDate)),
            by_last_modified: index_by(entries, number_key(NumberField::LastModified)),
            by_filesize: index_by(entries, number_key(NumberField::Filesize)),
        }
    }

    /// The library with no entries.
    pub open spec fn empty() -> LibraryView {
        LibraryView::of(Map::empty())
    }

    /// Finitely many entries, each held under its own revision id, and every index and the
    /// latest revisions as the held entries determine them.
    pub open spec fn well_formed(self) -> bool {
        &&& self.entries.dom().finite()
        &&& forall|r: u32| #[trigger] self.entries.contains_key(r) ==> self.entries[r].rid@ == r
        &&& self == LibraryView::of(self.entries)
    }

    /// The library after adding `e`: the entry is held under its revision id, replacing the
    /// one held there before, whose filings go with it.
    pub open spec fn insert(self, e: Entry) -> LibraryView {
        LibraryView::of(self.entries.insert(e.rid@, e))
    }

    /// All entries, in increasing order of revision id.
    pub open spec fn all_revisions(self) -> Seq<Entry> {
        sorted(self.entries.dom()).map_values(|r: u32| self.entries[r])
    }

    /// The latest revisions whose search text holds every word of the lowercased query.
    pub open spec fn search(self, query: Seq<char>) -> Seq<Entry> {
        self.search_words(words_of(lowercase_of(query)))
    }

    /// The latest revisions whose search text holds every one of the words.
    pub open spec fn search_words(self, ws: Seq<Seq<char>>) -> Seq<Entry> {
        self.latest_revisions().filter(|e: Entry| mentions_all(e, ws))
    }

    /// For each UUID in increasing order, the entry held under its latest revision.
    pub open spec fn latest_revisions(self) -> Seq<Entry> {
        sorted_wide(self.latest.dom()).map_values(|u: u128| self.entries[self.latest[u]])
    }

    /// The index of a text field.
    pub open spec fn text_index(self, which: TextField) -> Map<Seq<char>, Set<u32>> {
        match which {
            TextField::Manufacturer => self.by_manufacturer,
            TextField::Fixture => self.by_fixture,
            TextField::Revision => self.by_revision,
            TextField::Creator => self.by_creator,
            TextField::Uploader => self.by_uploader,
            TextField::Rating => self.by_rating,
            TextField::Version => self.by_version,
        }
    }

    /// The index of a numeric field.
    pub open spec fn number_index(self, which: NumberField) -> Map<u64, Set<u32>> {
        match which {
            NumberField::CreationDate => self.by_creation_date,
            NumberField::LastModified => self.by_last_modified,
            NumberField::Filesize => self.by_filesize,
        }
    }
}

/// The library built by adding the entries of `s` one after another, starting from none.
pub open spec fn built(s: Seq<Entry>) -> LibraryView
    decreases s.len(),
{
    if s.len() == 0 {
        LibraryView::empty()
    } else {
        built(s.drop_last()).insert(s.last())
    }
}

/// Every key of the index files at least one revision, and only revisions the library holds.
pub open spec fn index_ok<K>(m: Map<K, Set<u32>>, entries: Map<u32, Entry>) -> bool {
    forall|k: K|
        #[trigger] m.contains_key(k) ==> (exists|r: u32| m[k].contains(r)) && m[k].subset_of(
            entries.dom(),
        )
}

proof fn lemma_index_by_ok<K>(entries: Map<u32, Entry>, has: spec_fn(Entry, K) -> bool)
    ensures
        index_ok(index_by(entries, has), entries),
{
    let m = index_by(entries, has);
    assert forall|k: K| #[trigger] m.contains_key(k) implies (exists|r: u32| m[k].contains(r)) && m[k].subset_of(
        entries.dom(),
    ) by {
        let r = choose|r: u32| #[trigger] filed(entries, has, k).contains(r);
        assert(m[k].contains(r));
    }
}

/// In a well-formed library every index files at least one revision under each key, and
/// only revisions the library holds.
pub proof fn lemma_indexes_ok(l: LibraryView)
    requires
        l.well_formed(),
    ensures
        index_ok(l.by_uuid, l.entries),
        index_ok(l.by_manufacturer, l.entries),
        index_ok(l.by_fixture, l.entries),
        index_ok(l.by_revision, l.entries),
        index_ok(l.by_creator, l.entries),
        index_ok(l.by_uploader, l.entries),
        index_ok(l.by_rating, l.entries),
        index_ok(l.by_version, l.entries),
        index_ok(l.by_creation_date, l.entries),
        index_ok(l.by_last_modified, l.entries),
        index_ok(l.by_filesize, l.entries),
{
    let en = l.entries;
    lemma_index_by_ok(en, uuid_key());
    lemma_index_by_ok(en, text_key(TextField::Manufacturer));
    lemma_index_by_ok(en, text_key(TextField::Fixture));
    lemma_index_by_ok(en, text_key(TextField::Revision));
    lemma_index_by_ok(en, text_key(TextField::Creator));
    lemma_index_by_ok(en, text_key(TextField::Uploader));
    lemma_index_by_ok(en, text_key(TextField::Rating));
    lemma_index_by_ok(en, text_key(TextField::Version));
    lemma_index_by_ok(en, number_key(NumberField::CreationDate));
    lemma_index_by_ok(en, number_key(NumberField::LastModified));
    lemma_index_by_ok(en, number_key(NumberField::Filesize));
}

/// Withdrawing a held entry that is filed under the one key `k` withdraws its revision
/// from that key and from nothing else.
proof fn lemma_index_remove<K>(en: Map<u32, Entry>, has: spec_fn(Entry, K) -> bool, r: u32, k: K)
    requires
        en.contains_key(r),
        has(en[r], k),
        forall|j: K| #[trigger] has(en[r], j) ==> j == k,
    ensures
        index_by(en.remove(r), has) == drop_rid(index_by(en, has), k, r),
{
    let m = index_by(en, has);
    let en2 = en.remove(r);
    let a = index_by(en2, has);
    let b = drop_rid(m, k, r);
    assert(filed(en, has, k).contains(r));
    assert(m.contains_key(k));
    assert(filed(en2, has, k) =~= m[k].remove(r));
    assert forall|j: K| j != k implies #[trigger] filed(en2, has, j) == filed(en, has, j) by {
        assert(filed(en2, has, j) =~= filed(en, has, j));
    }
    assert forall|j: K| #[trigger] a.contains_key(j) == b.contains_key(j) by {
        if j == k {
            if a.contains_key(j) {
                let x = choose|x: u32| #[trigger] filed(en2, has, j).contains(x);
                assert(m[k].remove(r).contains(x));
            }
            if b.contains_key(j) {
                assert(!(m[k].remove(r) =~= Set::<u32>::empty()));
                let x = choose|x: u32| m[k].remove(r).contains(x);
                assert(filed(en2, has, j).contains(x));
            }
        } else {
            if a.contains_key(j) {
                let x = choose|x: u32| #[trigger] filed(en2, has, j).contains(x);
                assert(filed(en, has, j).contains(x));
            }
            if b.contains_key(j) {
                let x = choose|x: u32| #[trigger] filed(en, has, j).contains(x);
                assert(filed(en2, has, j).contains(x));
            }
        }
    }
    assert(a =~= b);
}

/// Entries that file the same revisions under every key give the same index.
proof fn lemma_index_same_filed<K>(a: Map<u32, Entry>, b: Map<u32, Entry>, has: spec_fn(Entry, K) -> bool)
    requires
        forall|j: K| #[trigger] filed(a, has, j) == filed(b, has, j),
    ensures
        index_by(a, has) == index_by(b, has),
{
    assert forall|j: K| #[trigger] index_by(a, has).contains_key(j) == index_by(b, has).contains_key(j) by {
        if index_by(a, has).contains_key(j) {
            let x = choose|x: u32| #[trigger] filed(a, has, j).contains(x);
            assert(filed(b, has, j).contains(x));
        }
        if index_by(b, has).contains_key(j) {
            let x = choose|x: u32| #[trigger] filed(b, has, j).contains(x);
            assert(filed(a, has, j).contains(x));
        }
    }
    assert(index_by(a, has) =~= index_by(b, has));
}

/// Withdrawing a held entry that is filed under no key leaves the index as it was.
proof fn lemma_index_remove_unfiled<K>(en: Map<u32, Entry>, has: spec_fn(Entry, K) -> bool, r: u32)
    requires
        en.contains_key(r),
        forall|j: K| !#[trigger] has(en[r], j),
    ensures
        index_by(en.remove(r), has) == index_by(en, has),
{
    let en2 = en.remove(r);
    assert forall|j: K| #[trigger] filed(en2, has, j) == filed(en, has, j) by {
        assert(filed(en2, has, j) =~= filed(en, has, j));
    }
    lemma_index_same_filed(en2, en, has);
}

/// Adding an entry under a revision id not held, filed under the one key `k`, files its
/// revision under that key and under nothing else.
proof fn lemma_index_insert<K>(en: Map<u32, Entry>, has: spec_fn(Entry, K) -> bool, r: u32, e: Entry, k: K)
    requires
        !en.contains_key(r),
        has(e, k),
        forall|j: K| #[trigger] has(e, j) ==> j == k,
    ensures
        index_by(en.insert(r, e), has) == add_rid(index_by(en, has), k, r),
{
    let m = index_by(en, has);
    let en2 = en.insert(r, e);
    let a = index_by(en2, has);
    let b = add_rid(m, k, r);
    assert(filed(en2, has, k).contains(r));
    assert forall|j: K| j != k implies #[trigger] filed(en2, has, j) == filed(en, has, j) by {
        assert(filed(en2, has, j) =~= filed(en, has, j));
    }
    if m.contains_key(k) {
        assert(filed(en2, has, k) =~= m[k].insert(r));
    } else {
        assert forall|x: u32| filed(en2, has, k).contains(x) implies x == r by {
            if x != r {
                assert(filed(en, has, k).contains(x));
            }
        }
        assert(filed(en2, has, k) =~= set![r]);
    }
    assert forall|j: K| #[trigger] a.contains_key(j) == b.contains_key(j) by {
        if j != k {
            if a.contains_key(j) {
                let x = choose|x: u32| #[trigger] filed(en2, has, j).contains(x);
                assert(filed(en, has, j).contains(x));
            }
            if b.contains_key(j) {
                let x = choose|x: u32| #[trigger] filed(en, has, j).contains(x);
                assert(filed(en2, has, j).contains(x));
            }
        }
    }
    assert(a =~= b);
}

/// Adding an entry under a revision id not held, filed under no key, leaves the index as
/// it was.
proof fn lemma_index_insert_unfiled<K>(en: Map<u32, Entry>, has: spec_fn(Entry, K) -> bool, r: u32, e: Entry)
    requires
        !en.contains_key(r),
        forall|j: K| !#[trigger] has(e, j),
    ensures
        index_by(en.insert(r, e), has) == index_by(en, has),
{
    let en2 = en.insert(r, e);
    assert forall|j: K| #[trigger] filed(en2, has, j) == filed(en, has, j) by {
        assert(filed(en2, has, j) =~= filed(en, has, j));
    }
    lemma_index_same_filed(en2, en, has);
}

/// A finite set that holds `x` has a greatest revision id, and `greatest` names it.
pub proof fn lemma_greatest(s: Set<u32>, x: u32)
    requires
        s.finite(),
        s.contains(x),
    ensures
        s.contains(greatest(s)),
        forall|y: u32| #[trigger] s.contains(y) ==> y <= greatest(s),
    decreases s.len(),
{
    let rest = s.remove(x);
    if rest =~= Set::<u32>::empty() {
        assert forall|y: u32| #[trigger] s.contains(y) implies y <= x by {
            if y != x {
                assert(rest.contains(y));
            }
        }
        assert(s.contains(x) && forall|y: u32| #[trigger] s.contains(y) ==> y <= x);
    } else {
        let z = choose|z: u32| rest.contains(z);
        lemma_greatest(rest, z);
        let m = greatest(rest);
        if m < x {
            assert forall|y: u32| #[trigger] s.contains(y) implies y <= x by {
                if y != x {
                    assert(rest.contains(y));
                }
            }
            assert(s.contains(x) && forall|y: u32| #[trigger] s.contains(y) ==> y <= x);
        } else {
            assert forall|y: u32| #[trigger] s.contains(y) implies y <= m by {
                if y != x {
                    assert(rest.contains(y));
                }
            }
            assert(s.contains(m) && forall|y: u32| #[trigger] s.contains(y) ==> y <= m);
        }
    }
}

/// The greatest element of a set, found by walking it.
fn greatest_in(s: &BTreeSet<u32>, x: Ghost<u32>) -> (m: u32)
    requires
        s@.contains(x@),
    ensures
        m == greatest(s@),
{
    let ghost seq = spec_btree_keys_iter(s).remaining().unref();
    let mut m: u32 = 0;
    for y in it: s.iter()
        invariant
            it.seq().unref() == seq,
            seq.to_set() == s@,
            forall|j: int| 0 <= j < it.index() ==> seq[j] <= m,
            it.index() > 0 ==> s@.contains(m),
            it.index() == 0 ==> m == 0,
    {
        assert(seq[it.index() as int] == *y);
        if *y >= m {
            m = *y;
        }
        assert(seq.to_set().contains(*y));
    }
    assert(seq.to_set().contains(x@));
    assert forall|y: u32| #[trigger] s@.contains(y) implies y <= m by {
        assert(seq.to_set().contains(y));
        let j = choose|j: int| 0 <= j < seq.len() && seq[j] == y;
    }
    assert(s@.contains(m));
    let ghost g = greatest(s@);
    assert(s@.contains(g) && forall|y: u32| #[trigger] s@.contains(y) ==> y <= g);
    assert(g <= m && m <= g);
    m
}

/// The maps a library keeps: its entries, the latest revision of each UUID, and the indexes.
#[derive(Debug)]
struct Store {
    entries: BTreeMap<u32, Entry>,
    latest_revisions: BTreeMap<u128, u32>,
    by_uuid: KeyIndex<u128>,
    by_manufacturer: TextIndex,
    by_fixture: TextIndex,
    by_revision: TextIndex,
    by_creator: TextIndex,
    by_uploader: TextIndex,
    by_rating: TextIndex,
    by_version: TextIndex,
    by_creation_date: KeyIndex<u64>,
    by_last_modified: KeyIndex<u64>,
    by_filesize: KeyIndex<u64>,
}

impl View for Store {
    type V = LibraryView;

    closed spec fn view(&self) -> LibraryView {
        LibraryView {
            entries: self.entries@,
            latest: self.latest_revisions@,
            by_uuid: self.by_uuid@,
            by_manufacturer: self.by_manufacturer@,
            by_fixture: self.by_fixture@,
            by_revision: self.by_revision@,
            by_creator: self.by_creator@,
            by_uploader: self.by_uploader@,
            by_rating: self.by_rating@,
            by_version: self.by_version@,
            by_creation_date: self.by_creation_date@,
            by_last_modified: self.by_last_modified@,
            by_filesize: self.by_filesize@,
        }
    }
}

/// Finitely many entries, each under its own revision id, and every index as the held
/// entries determine it; the latest revisions are left aside.
spec fn indexed(l: LibraryView) -> bool {
    let o = LibraryView::of(l.entries);
    &&& l.entries.dom().finite()
    &&& forall|r: u32| #[trigger] l.entries.contains_key(r) ==> l.entries[r].rid@ == r
    &&& l.by_uuid == o.by_uuid
    &&& l.by_manufacturer == o.by_manufacturer
    &&& l.by_fixture == o.by_fixture
    &&& l.by_revision == o.by_revision
    &&& l.by_creator == o.by_creator
    &&& l.by_uploader == o.by_uploader
    &&& l.by_rating == o.by_rating
    &&& l.by_version == o.by_version
    &&& l.by_creation_date == o.by_creation_date
    &&& l.by_last_modified == o.by_last_modified
    &&& l.by_filesize == o.by_filesize
}

impl Store {
    /// The text indexes are well-formed.
    closed spec fn indexes_wf(&self) -> bool {
        &&& self.by_manufacturer.wf()
        &&& self.by_fixture.wf()
        &&& self.by_revision.wf()
        &&& self.by_creator.wf()
        &&& self.by_uploader.wf()
        &&& self.by_rating.wf()
        &&& self.by_version.wf()
    }

    closed spec fn wf(&self) -> bool {
        self@.well_formed() && self.indexes_wf()
    }

    fn empty() -> (r: Store)
        ensures
            r.wf(),
            r@ == LibraryView::empty(),
    {
        let r = Store {
            entries: BTreeMap::new(),
            latest_revisions: BTreeMap::new(),
            by_uuid: KeyIndex::new(),
            by_manufacturer: TextIndex::new(),
            by_fixture: TextIndex::new(),
            by_revision: TextIndex::new(),
            by_creator: TextIndex::new(),
            by_uploader: TextIndex::new(),
            by_rating: TextIndex::new(),
            by_version: TextIndex::new(),
            by_creation_date: KeyIndex::new(),
            by_last_modified: KeyIndex::new(),
            by_filesize: KeyIndex::new(),
        };
        proof {
            let en = Map::<u32, Entry>::empty();
            assert(index_by(en, uuid_key()) =~= Map::empty());
            assert(index_by(en, text_key(TextField::Manufacturer)) =~= Map::empty());
            assert(index_by(en, text_key(TextField::Fixture)) =~= Map::empty());
            assert(index_by(en, text_key(TextField::Revision)) =~= Map::empty());
            assert(index_by(en, text_key(TextField::Creator)) =~= Map::empty());
            assert(index_by(en, text_key(TextField::Uploader)) =~= Map::empty());
            assert(index_by(en, text_key(TextField::Rating)) =~= Map::empty());
            assert(index_by(en, text_key(TextField::Version)) =~= Map::empty());
            assert(index_by(en, number_key(NumberField::CreationDate)) =~= Map::empty());
            assert(index_by(en, number_key(NumberField::LastModified)) =~= Map::empty());
            assert(index_by(en, number_key(NumberField::Filesize)) =~= Map::empty());
            assert(r@ =~= LibraryView::empty());
        }
        r
    }

    /// A copy of the store.
    fn duplicate(&self) -> (r: Store)
        requires
            self.wf(),
        ensures
            r.wf(),
            r@ == self@,
    {
        let r = Store {
            entries: self.entries.clone(),
            latest_revisions: self.latest_revisions.clone(),
            by_uuid: self.by_uuid.duplicate(),
            by_manufacturer: self.by_manufacturer.duplicate(),
            by_fixture: self.by_fixture.duplicate(),
            by_revision: self.by_revision.duplicate(),
            by_creator: self.by_creator.duplicate(),
            by_uploader: self.by_uploader.duplicate(),
            by_rating: self.by_rating.duplicate(),
            by_version: self.by_version.duplicate(),
            by_creation_date: self.by_creation_date.duplicate(),
            by_last_modified: self.by_last_modified.duplicate(),
            by_filesize: self.by_filesize.duplicate(),
        };
        assert(r@ =~= self@);
        r
    }

    /// Takes the entry held under `rid`, if any, out of the entries and out of every index;
    /// the latest revisions are left as they were.
    fn detach(&mut self, rid: u32) -> (taken: Option<Entry>)
        requires
            indexed(old(self)@),
            old(self).indexes_wf(),
        ensures
            indexed(final(self)@),
            final(self).indexes_wf(),
            final(self)@.entries == old(self)@.entries.remove(rid),
            final(self)@.latest == old(self)@.latest,
            taken == (if old(self)@.entries.contains_key(rid) {
                Some(old(self)@.entries[rid])
            } else {
                None::<Entry>
            }),
    {
        let ghost en = self@.entries;
        match self.entries.remove(&rid) {
            Some(e) => {
                proof {
                    lemma_index_remove(en, text_key(TextField::Manufacturer), rid, e.manufacturer@);
                    lemma_index_remove(en, text_key(TextField::Fixture), rid, e.fixture@);
                    lemma_index_remove(en, text_key(TextField::Revision), rid, e.revision@);
                    lemma_index_remove(en, text_key(TextField::Creator), rid, e.creator@);
                    lemma_index_remove(en, text_key(TextField::Uploader), rid, e.uploader@);
                    lemma_index_remove(en, text_key(TextField::Rating), rid, e.rating@);
                    lemma_index_remove(en, text_key(TextField::Version), rid, e.version@);
                    lemma_index_remove(en, number_key(NumberField::CreationDate), rid, e.creation_date);
                    lemma_index_remove(en, number_key(NumberField::LastModified), rid, e.last_modified);
                    lemma_index_remove(en, number_key(NumberField::Filesize), rid, e.filesize);
                    match e.uuid {
                        Some(u) => lemma_index_remove(en, uuid_key(), rid, u),
                        None => lemma_index_remove_unfiled(en, uuid_key(), rid),
                    }
                }
                self.by_manufacturer.remove(&chars_of(e.manufacturer.as_str()), rid);
                self.by_fixture.remove(&chars_of(e.fixture.as_str()), rid);
                self.by_revision.remove(&chars_of(e.revision.as_str()), rid);
                self.by_creator.remove(&chars_of(e.creator.as_str()), rid);
                self.by_uploader.remove(&chars_of(e.uploader.as_str()), rid);
                self.by_rating.remove(&chars_of(e.rating.as_str()), rid);
                self.by_version.remove(&chars_of(e.version.as_str()), rid);
                self.by_creation_date.remove(e.creation_date, rid);
                self.by_last_modified.remove(e.last_modified, rid);
                self.by_filesize.remove(e.filesize, rid);
                if let Some(u) = e.uuid {
                    self.by_uuid.remove(u, rid);
                }
                Some(e)
            },
            None => {
                assert(en.remove(rid) =~= en);
                None
            },
        }
    }

    /// Files an entry, under a revision id not held, in the entries and in every index;
    /// the latest revisions are left as they were.
    fn attach(&mut self, entry: Entry)
        requires
            indexed(old(self)@),
            old(self).indexes_wf(),
            !old(self)@.entries.contains_key(entry.rid@),
        ensures
            indexed(final(self)@),
            final(self).indexes_wf(),
            final(self)@.entries == old(self)@.entries.insert(entry.rid@, entry),
            final(self)@.latest == old(self)@.latest,
    {
        let ghost en = self@.entries;
        let rid = entry.rid.0;
        proof {
            let e = entry;
            lemma_index_insert(en, text_key(TextField::Manufacturer), rid, e, e.manufacturer@);
            lemma_index_insert(en, text_key(TextField::Fixture), rid, e, e.fixture@);
            lemma_index_insert(en, text_key(TextField::Revision), rid, e, e.revision@);
            lemma_index_insert(en, text_key(TextField::Creator), rid, e, e.creator@);
            lemma_index_insert(en, text_key(TextField::Uploader), rid, e, e.uploader@);
            lemma_index_insert(en, text_key(TextField::Rating), rid, e, e.rating@);
            lemma_index_insert(en, text_key(TextField::Version), rid, e, e.version@);
            lemma_index_insert(en, number_key(NumberField::CreationDate), rid, e, e.creation_date);
            lemma_index_insert(en, number_key(NumberField::LastModified), rid, e, e.last_modified);
            lemma_index_insert(en, number_key(NumberField::Filesize), rid, e, e.filesize);
            match e.uuid {
                Some(u) => lemma_index_insert(en, uuid_key(), rid, e, u),
                None => lemma_index_insert_unfiled(en, uuid_key(), rid, e),
            }
        }
        self.by_manufacturer.push(chars_of(entry.manufacturer.as_str()), rid);
        self.by_fixture.push(chars_of(entry.fixture.as_str()), rid);
        self.by_revision.push(chars_of(entry.revision.as_str()), rid);
        self.by_creator.push(chars_of(entry.creator.as_str()), rid);
        self.by_uploader.push(chars_of(entry.uploader.as_str()), rid);
        self.by_rating.push(chars_of(entry.rating.as_str()), rid);
        self.by_version.push(chars_of(entry.version.as_str()), rid);
        self.by_creation_date.push(entry.creation_date, rid);
        self.by_last_modified.push(entry.last_modified, rid);
        self.by_filesize.push(entry.filesize, rid);
        if let Some(u) = entry.uuid {
            self.by_uuid.push(u, rid);
        }
        self.entries.insert(rid, entry);
    }

    /// Sets the latest revision of `u` to the greatest revision filed under it, or drops it
    /// when none is.
    fn refresh_latest(&mut self, u: u128)
        requires
            indexed(old(self)@),
            old(self).indexes_wf(),
        ensures
            indexed(final(self)@),
            final(self).indexes_wf(),
            final(self)@.entries == old(self)@.entries,
            final(self)@.latest == (if old(self)@.by_uuid.contains_key(u) {
                old(self)@.latest.insert(u, greatest(old(self)@.by_uuid[u]))
            } else {
                old(self)@.latest.remove(u)
            }),
    {
        match self.by_uuid.get(&u) {
            Some(s) => {
                let ghost x = choose|x: u32| #[trigger] filed(self@.entries, uuid_key(), u).contains(x);
                assert(s@.contains(x));
                let m = greatest_in(s, Ghost(x));
                self.latest_revisions.insert(u, m);
            },
            None => {
                self.latest_revisions.remove(&u);
            },
        }
    }

    /// Adds an entry, replacing the one held under its revision id, if any.
    fn insert(&mut self, entry: Entry)
        requires
            old(self).wf(),
        ensures
            final(self).wf(),
            final(self)@ == old(self)@.insert(entry),
    {
        let ghost l0 = self@;
        let ghost target = l0.insert(entry);
        let rid = entry.rid.0;
        let new_uuid = entry.uuid;
        let taken = self.detach(rid);
        let ghost l1 = self@;
        self.attach(entry);
        let ghost l2 = self@;
        assert(l2.entries =~= l0.entries.insert(rid, entry));
        let old_uuid = match taken {
            Some(e) => e.uuid,
            None => None,
        };
        match old_uuid {
            Some(u) => self.refresh_latest(u),
            None => {},
        }
        match new_uuid {
            Some(u) => self.refresh_latest(u),
            None => {},
        }
        proof {
            let ghost lat = self@.latest;
            lemma_uuid_frame(l0.entries, rid, entry);
            assert(l2.by_uuid == index_by(l0.entries.insert(rid, entry), uuid_key()));
            assert(l0.by_uuid == index_by(l0.entries, uuid_key()));
            assert(old_uuid == (if l0.entries.contains_key(rid) { l0.entries[rid].uuid } else { None::<u128> }));
            assert forall|u: u128| Some(u) != old_uuid && Some(u) != new_uuid implies #[trigger] l2.by_uuid.contains_key(u)
                == l0.by_uuid.contains_key(u) && (l0.by_uuid.contains_key(u) ==> l2.by_uuid[u] == l0.by_uuid[u]) by {
                assert(index_by(l0.entries.insert(rid, entry), uuid_key()).contains_key(u) == index_by(
                    l0.entries,
                    uuid_key(),
                ).contains_key(u));
            }
            assert forall|u: u128| Some(u) != old_uuid && Some(u) != new_uuid implies (#[trigger] lat.contains_key(u)
                == l0.by_uuid.contains_key(u) && (l0.by_uuid.contains_key(u) ==> lat[u] == greatest(l0.by_uuid[u]))) by {
            }
            assert forall|u: u128| Some(u) == old_uuid || Some(u) == new_uuid implies (#[trigger] lat.contains_key(u)
                == l2.by_uuid.contains_key(u) && (l2.by_uuid.contains_key(u) ==> lat[u] == greatest(l2.by_uuid[u]))) by {
            }
            lemma_latest_frame(l0.by_uuid, l2.by_uuid, lat, old_uuid, new_uuid);
            assert(self@ =~= target);
        }
    }
}

/// Replacing the entry under `rid` by `e` changes the revisions filed under no UUID but the
/// old entry's and the new one's.
proof fn lemma_uuid_frame(en: Map<u32, Entry>, rid: u32, e: Entry)
    ensures
        forall|u: u128|
            (!en.contains_key(rid) || en[rid].uuid != Some(u)) && e.uuid != Some(u) ==> #[trigger] index_by(
                en.insert(rid, e),
                uuid_key(),
            ).contains_key(u) == index_by(en, uuid_key()).contains_key(u) && (index_by(en, uuid_key()).contains_key(u)
                ==> index_by(en.insert(rid, e), uuid_key())[u] == index_by(en, uuid_key())[u]),
{
    let en2 = en.insert(rid, e);
    assert forall|u: u128|
        (!en.contains_key(rid) || en[rid].uuid != Some(u)) && e.uuid != Some(u) implies #[trigger] index_by(
            en2,
            uuid_key(),
        ).contains_key(u) == index_by(en, uuid_key()).contains_key(u) && (index_by(en, uuid_key()).contains_key(u)
            ==> index_by(en2, uuid_key())[u] == index_by(en, uuid_key())[u]) by {
        assert(filed(en2, uuid_key(), u) =~= filed(en, uuid_key(), u));
        if index_by(en2, uuid_key()).contains_key(u) {
            let x = choose|x: u32| #[trigger] filed(en2, uuid_key(), u).contains(x);
            assert(filed(en, uuid_key(), u).contains(x));
        }
        if index_by(en, uuid_key()).contains_key(u) {
            let x = choose|x: u32| #[trigger] filed(en, uuid_key(), u).contains(x);
            assert(filed(en2, uuid_key(), u).contains(x));
        }
    }
}

/// Latest revisions that agree with the greatest revisions of the old UUID index away from
/// two UUIDs, which agree with the new index at those two, and whose index agrees with the
/// old away from them, are the greatest revisions of the new index.
proof fn lemma_latest_frame(
    m0: Map<u128, Set<u32>>,
    m2: Map<u128, Set<u32>>,
    lat: Map<u128, u32>,
    ou: Option<u128>,
    nu: Option<u128>,
)
    requires
        forall|u: u128|
            Some(u) != ou && Some(u) != nu ==> #[trigger] m2.contains_key(u) == m0.contains_key(u) && (m0.contains_key(u)
                ==> m2[u] == m0[u]),
        forall|u: u128|
            Some(u) != ou && Some(u) != nu ==> #[trigger] lat.contains_key(u) == m0.contains_key(u) && (m0.contains_key(u)
                ==> lat[u] == greatest(m0[u])),
        forall|u: u128|
            Some(u) == ou || Some(u) == nu ==> #[trigger] lat.contains_key(u) == m2.contains_key(u) && (m2.contains_key(u)
                ==> lat[u] == greatest(m2[u])),
    ensures
        lat == m2.map_values(|s: Set<u32>| greatest(s)),
{
    let want = m2.map_values(|s: Set<u32>| greatest(s));
    assert forall|u: u128| #[trigger] lat.contains_key(u) == want.contains_key(u) by {
        if Some(u) != ou && Some(u) != nu {
            assert(m2.contains_key(u) == m0.contains_key(u));
        }
    }
    assert forall|u: u128| #[trigger] lat.contains_key(u) implies lat[u] == want[u] by {
        if Some(u) != ou && Some(u) != nu {
            assert(m2.contains_key(u) == m0.contains_key(u));
        }
    }
    assert(lat =~= want);
}

/// An indexed collection of GDTF [`Entry`] values.
#[derive(Debug)]
pub struct Library {
    store: Store,
}

impl View for Library {
    type V = LibraryView;

    closed spec fn view(&self) -> LibraryView {
        self.store@
    }
}

impl Library {
    /// The library's view is well-formed and its text indexes with it.
    #[verifier::type_invariant]
    spec fn inv(self) -> bool {
        self.store.wf()
    }

    /// States that the library's view is well-formed.
    pub(crate) fn view_well_formed(&self)
        ensures
            self@.well_formed(),
    {
        proof {
            use_type_invariant(self);
        }
    }

    /// The text indexes of the library, for looking keys up.
    pub(crate) fn text_index(&self, which: TextField) -> (r: &TextIndex)
        ensures
            r.wf(),
            r@ == self@.text_index(which),
    {
        proof {
            use_type_invariant(self);
        }
        match which {
            TextField::Manufacturer => &self.store.by_manufacturer,
            TextField::Fixture => &self.store.by_fixture,
            TextField::Revision => &self.store.by_revision,
            TextField::Creator => &self.store.by_creator,
            TextField::Uploader => &self.store.by_uploader,
            TextField::Rating => &self.store.by_rating,
            TextField::Version => &self.store.by_version,
        }
    }

    /// The numeric indexes of the library, for looking keys up.
    pub(crate) fn number_index(&self, which: NumberField) -> (r: &KeyIndex<u64>)
        ensures
            r@ == self@.number_index(which),
    {
        match which {
            NumberField::CreationDate => &self.store.by_creation_date,
            NumberField::LastModified => &self.store.by_last_modified,
            NumberField::Filesize => &self.store.by_filesize,
        }
    }

    /// The UUID index of the library.
    pub(crate) fn uuid_index(&self) -> (r: &KeyIndex<u128>)
        ensures
            r@ == self@.by_uuid,
    {
        &self.store.by_uuid
    }

    /// The latest revision held for a UUID, if any.
    pub(crate) fn latest_of(&self, u: u128) -> (r: Option<u32>)
        ensures
            r == (if self@.latest.contains_key(u) {
                Some(self@.latest[u])
            } else {
                None::<u32>
            }),
    {
        match self.store.latest_revisions.get(&u) {
            Some(r) => Some(*r),
            None => None,
        }
    }

    fn empty() -> (r: Library)
        ensures
            r@ == LibraryView::empty(),
    {
        Library { store: Store::empty() }
    }

    /// Creates a library from a list of entries, adding them in order.
    pub fn new(entries: Vec<Entry>) -> (r: Library)
        ensures
            r@ == built(entries@),
            r@.well_formed(),
    {
        let mut library = Library::empty();
        let ghost all = entries@;
        for e in it: entries.into_iter()
            invariant
                it.seq() == all,
                library@ == built(all.take(it.index())),
        {
            proof {
                let next = all.take(it.index() + 1);
                assert(next.drop_last() =~= all.take(it.index()));
                assert(next.last() == e);
            }
            library.insert(e);
        }
        assert(all.take(all.len() as int) =~= all);
        library.view_well_formed();
        library
    }

    /// Adds an entry, filing it in every index; an entry held under the same revision id
    /// is replaced, and its filings go with it.
    fn insert(&mut self, entry: Entry)
        ensures
            final(self)@ == old(self)@.insert(entry),
    {
        proof {
            use_type_invariant(&*self);
        }
        let mut store = Store::empty();
        std::mem::swap(&mut store, &mut self.store);
        store.insert(entry);
        self.store = store;
    }

    /// Number of entries in the library.
    pub fn len(&self) -> (r: usize)
        ensures
            r == self@.entries.dom().len(),
    {
        self.store.entries.len()
    }

    /// Whether the library has no entries.
    pub fn is_empty(&self) -> (r: bool)
        ensures
            r == (self@.entries.dom().len() == 0),
    {
        proof {
            use_type_invariant(self);
        }
        self.store.entries.len() == 0
    }

    /// Looks up a single entry by its `rid`.
    pub fn get(&self, rid: RevisionId) -> (r: Option<&Entry>)
        ensures
            match r {
                Some(e) => self@.entries.contains_key(rid@) && *e == self@.entries[rid@],
                None => !self@.entries.contains_key(rid@),
            },
    {
        self.store.entries.get(&rid.0)
    }

    /// All entries, ordered by `rid`.
    pub fn iter_all_revisions(&self) -> (r: Vec<&Entry>)
        ensures
            targets(r@) == self@.all_revisions(),
    {
        proof {
            use_type_invariant(self);
        }
        let ghost seq = spec_btree_map_iter(&self.store.entries).remaining();
        let ghost keys = seq.map_values(|kv: (&u32, &Entry)| *kv.0);
        let mut out: Vec<&Entry> = Vec::new();
        for kv in it: self.store.entries.iter()
            invariant
                it.seq() == seq,
                keys == seq.map_values(|kv: (&u32, &Entry)| *kv.0),
                seq.len() == self.store.entries@.dom().len(),
                forall|i: int|
                    #![trigger seq[i]]
                    0 <= i < seq.len() ==> self.store.entries@.contains_key(*seq[i].0) && self.store.entries@[*seq[i].0]
                        == *seq[i].1,
                out@.len() == it.index(),
                forall|i: int| 0 <= i < it.index() ==> *out@[i] == *seq[i].1,
        {
            let (_k, e) = kv;
            out.push(e);
        }
        proof {
            assert(increasing_seq(keys));
            lemma_increasing(keys);
            assert forall|r: u32| keys.to_set().contains(r) <==> self@.entries.dom().contains(r) by {
                if self@.entries.dom().contains(r) {
                    assert(seq.contains((&r, &self.store.entries@[r])));
                    let i = choose|i: int| 0 <= i < seq.len() && seq[i] == (&r, &self.store.entries@[r]);
                    assert(keys[i] == r);
                }
                if keys.to_set().contains(r) {
                    let i = choose|i: int| 0 <= i < keys.len() && keys[i] == r;
                    assert(self.store.entries@.contains_key(*seq[i].0));
                }
            }
            assert(keys.to_set() =~= self@.entries.dom());
            lemma_sorted_is(keys);
            assert(targets(out@) =~= self@.all_revisions());
        }
        out
    }

    /// The latest revision of each fixture (by UUID), in order of UUID.
    pub fn iter_latest_revisions(&self) -> (r: Vec<&Entry>)
        ensures
            targets(r@) == self@.latest_revisions(),
            forall|i: int| 0 <= i < r@.len() ==> (#[trigger] r@[i]).uuid is Some,
    {
        proof {
            use_type_invariant(self);
        }
        let ghost seq = spec_btree_map_iter(&self.store.latest_revisions).remaining();
        let ghost keys = seq.map_values(|kv: (&u128, &u32)| *kv.0);
        let mut out: Vec<&Entry> = Vec::new();
        for kv in it: self.store.latest_revisions.iter()
            invariant
                self.store.wf(),
                it.seq() == seq,
                keys == seq.map_values(|kv: (&u128, &u32)| *kv.0),
                seq.len() == self.store.latest_revisions@.dom().len(),
                forall|i: int|
                    #![trigger seq[i]]
                    0 <= i < seq.len() ==> self.store.latest_revisions@.contains_key(*seq[i].0)
                        && self.store.latest_revisions@[*seq[i].0] == *seq[i].1,
                out@.len() == it.index(),
                forall|i: int|
                    0 <= i < it.index() ==> *out@[i] == self@.entries[self@.latest[*seq[i].0]],
        {
            let (u, rid) = kv;
            assert(self@.latest.contains_key(*u));
            proof {
                lemma_latest_held(self@, *u);
            }
            match self.store.entries.get(rid) {
                Some(e) => {
                    out.push(e);
                },
                None => {},
            }
        }
        proof {
            assert(increasing_seq(keys));
            lemma_increasing_wide(keys);
            assert forall|u: u128| keys.to_set().contains(u) <==> self@.latest.dom().contains(u) by {
                if self@.latest.dom().contains(u) {
                    assert(seq.contains((&u, &self.store.latest_revisions@[u])));
                    let i = choose|i: int| 0 <= i < seq.len() && seq[i] == (&u, &self.store.latest_revisions@[u]);
                    assert(keys[i] == u);
                }
                if keys.to_set().contains(u) {
                    let i = choose|i: int| 0 <= i < keys.len() && keys[i] == u;
                    assert(self.store.latest_revisions@.contains_key(*seq[i].0));
                }
            }
            assert(keys.to_set() =~= self@.latest.dom());
            lemma_sorted_is_wide(keys);
            assert(targets(out@) =~= self@.latest_revisions());
            assert forall|i: int| 0 <= i < out@.len() implies (#[trigger] out@[i]).uuid is Some by {
                lemma_latest_held(self@, *seq[i].0);
            }
        }
        out
    }
}

impl Clone for Library {
    /// A copy of the library, with the same entries and indexes.
    fn clone(&self) -> (r: Library)
        ensures
            r@ == self@,
    {
        proof {
            use_type_invariant(self);
        }
        Library { store: self.store.duplicate() }
    }
}

impl From<Vec<Entry>> for Library {
    /// The library of the entries, added in order.
    fn from(entries: Vec<Entry>) -> (r: Library)
        ensures
            r@ == built(entries@),
    {
        Library::new(entries)
    }
}

impl vstd::std_specs::convert::FromSpecImpl<Vec<Entry>> for Library {
    /// A library is not determined by its view, so `from` promises no single value; its own
    /// `ensures` states the view.
    open spec fn obeys_from_spec() -> bool {
        false
    }

    open spec fn from_spec(v: Vec<Entry>) -> Library {
        choose|l: Library| l@ == built(v@)
    }
}

impl Default for Library {
    /// An empty library.
    fn default() -> (r: Library)
        ensures
            r@ == LibraryView::empty(),
    {
        Library::empty()
    }
}

/// The text an entry is searched by: its manufacturer and fixture name, joined by a space
/// and lowercased.
pub open spec fn haystack(e: Entry) -> Seq<char> {
    lowercase_of(e.manufacturer@ + seq![' '] + e.fixture@)
}

/// Every one of the words occurs in the entry's search text.
pub open spec fn mentions_all(e: Entry, ws: Seq<Seq<char>>) -> bool {
    forall|i: int| #![trigger ws[i]] 0 <= i < ws.len() ==> contains_text(haystack(e), ws[i])
}

/// Whether every one of the words occurs in `h`.
fn all_words_in(h: &Vec<char>, ws: &Vec<Vec<char>>) -> (r: bool)
    ensures
        r == (forall|i: int| #![trigger ws@[i]] 0 <= i < ws@.len() ==> contains_text(h@, ws@[i]@)),
{
    let mut i: usize = 0;
    while i < ws.len()
        invariant
            i <= ws@.len(),
            forall|j: int| #![trigger ws@[j]] 0 <= j < i ==> contains_text(h@, ws@[j]@),
        decreases ws@.len() - i,
    {
        if !contains(h, &ws[i]) {
            return false;
        }
        i = i + 1;
    }
    true
}

/// The entries that a sequence of references points to.
pub open spec fn targets(v: Seq<&Entry>) -> Seq<Entry> {
    v.map_values(|e: &Entry| *e)
}

impl Library {
    /// Searches the latest revisions for entries whose manufacturer and fixture name contain
    /// all words in the query string (case-insensitive).
    pub fn search_latest(&self, query: &str) -> (r: Vec<&Entry>)
        ensures
            targets(r@) == self@.search(query@),
            is_ascii_text(query@) ==> targets(r@) == self@.search_words(words_of(ascii_lowercase(query@))),
            forall|i: int| 0 <= i < r@.len() ==> (#[trigger] r@[i]).uuid is Some,
    {
        let lower = to_lowercase(query);
        let ws = words(&chars_of(lower.as_str()));
        let ghost wv = words_of(lowercase_of(query@));
        assert(ws@.map_values(|v: Vec<char>| v@) == wv);
        let ghost pred = |e: Entry| mentions_all(e, wv);
        let latest = self.iter_latest_revisions();
        let ghost all = targets(latest@);
        let mut out: Vec<&Entry> = Vec::new();
        let mut i: usize = 0;
        while i < latest.len()
            invariant
                i <= latest@.len(),
                all == targets(latest@),
                all == self@.latest_revisions(),
                ws@.map_values(|v: Vec<char>| v@) == wv,
                pred == (|e: Entry| mentions_all(e, wv)),
                targets(out@) == all.take(i as int).filter(pred),
                forall|j: int| 0 <= j < latest@.len() ==> (#[trigger] latest@[j]).uuid is Some,
                forall|j: int| 0 <= j < out@.len() ==> (#[trigger] out@[j]).uuid is Some,
            decreases latest@.len() - i,
        {
            let e = latest[i];
            let mut hay = e.manufacturer.clone();
            push_char(&mut hay, ' ');
            hay.append(e.fixture.as_str());
            assert(hay@ =~= e.manufacturer@ + seq![' '] + e.fixture@);
            let h = chars_of(to_lowercase(hay.as_str()).as_str());
            assert(h@ == haystack(*e));
            let hit = all_words_in(&h, &ws);
            assert(hit == pred(*e)) by {
                if hit {
                    assert forall|j: int| #![trigger wv[j]] 0 <= j < wv.len() implies contains_text(haystack(*e), wv[j]) by {
                        assert(ws@[j]@ == wv[j]);
                    }
                } else {
                    let j = choose|j: int| #![trigger ws@[j]] 0 <= j < ws@.len() && !contains_text(h@, ws@[j]@);
                    assert(ws@[j]@ == wv[j]);
                }
            }
            let ghost before = out@;
            if hit {
                out.push(e);
            }
            proof {
                reveal_with_fuel(Seq::filter, 1);
                let next = all.take(i + 1);
                assert(next.drop_last() =~= all.take(i as int));
                assert(next.last() == *e);
                assert(targets(out@) =~= next.filter(pred));
            }
            i = i + 1;
        }
        assert(all.take(latest@.len() as int) =~= all);
        out
    }
}

/// The word occurs in the text: at some position of the text, the next characters are the
/// word.
pub open spec fn occurs_somewhere(t: Seq<char>, w: Seq<char>) -> bool {
    exists|k: int| 0 <= k && k + w.len() <= t.len() && #[trigger] t.subrange(k, k + w.len()) == w
}

/// Every one of the words occurs in the text.
pub open spec fn all_occur_in(ws: Seq<Seq<char>>, t: Seq<char>) -> bool {
    forall|i: int| #![trigger ws[i]] 0 <= i < ws.len() ==> occurs_somewhere(t, ws[i])
}

proof fn lemma_all_occur_iff_contains(ws: Seq<Seq<char>>, t: Seq<char>)
    ensures
        all_occur_in(ws, t) == (forall|i: int| #![trigger ws[i]] 0 <= i < ws.len() ==> contains_text(t, ws[i])),
{
    assert forall|i: int| 0 <= i < ws.len() implies #[trigger] occurs_somewhere(t, ws[i]) == contains_text(t, ws[i]) by {
        lemma_contains_text_is_substring(t, ws[i]);
    }
}

/// The search finds, among the latest revisions and in their order, exactly the entries
/// such that every word of the lowercased query occurs, at some position, in the lowercased
/// text of the entry's manufacturer, a space, and its fixture name.
pub proof fn lemma_search_matches_manufacturer_and_fixture(l: LibraryView, q: Seq<char>)
    ensures
        l.search(q) == l.latest_revisions().filter(
            |e: Entry| all_occur_in(words_of(lowercase_of(q)), lowercase_of(e.manufacturer@ + seq![' '] + e.fixture@)),
        ),
{
    let ws = words_of(lowercase_of(q));
    let p1 = |e: Entry| mentions_all(e, ws);
    let p2 = |e: Entry| all_occur_in(ws, lowercase_of(e.manufacturer@ + seq![' '] + e.fixture@));
    assert forall|e: Entry| #[trigger] p1(e) == p2(e) by {
        lemma_all_occur_iff_contains(ws, haystack(e));
    }
    assert(p1 =~= p2);
}

/// Keeping what meets both predicates is keeping what meets the first, then the second.
pub proof fn lemma_filter_both<A>(s: Seq<A>, p: spec_fn(A) -> bool, q: spec_fn(A) -> bool)
    ensures
        s.filter(|x: A| p(x) && q(x)) == s.filter(p).filter(q),
    decreases s.len(),
{
    reveal_with_fuel(Seq::filter, 1);
    if s.len() > 0 {
        lemma_filter_both(s.drop_last(), p, q);
        let x = s.drop_last().filter(p);
        if p(s.last()) {
            assert(x.push(s.last()).drop_last() =~= x);
        }
    }
}

/// Keeping what meets a predicate that everything meets keeps everything.
proof fn lemma_filter_all<A>(s: Seq<A>, p: spec_fn(A) -> bool)
    requires
        forall|x: A| #[trigger] p(x),
    ensures
        s.filter(p) == s,
    decreases s.len(),
{
    reveal_with_fuel(Seq::filter, 1);
    if s.len() > 0 {
        lemma_filter_all(s.drop_last(), p);
        assert(s.drop_last().push(s.last()) =~= s);
    }
}

proof fn lemma_mentions_by_set(e: Entry, ws1: Seq<Seq<char>>, ws2: Seq<Seq<char>>)
    requires
        ws1.to_set() == ws2.to_set(),
    ensures
        mentions_all(e, ws1) == mentions_all(e, ws2),
{
    if mentions_all(e, ws1) {
        assert forall|i: int| #![trigger ws2[i]] 0 <= i < ws2.len() implies contains_text(haystack(e), ws2[i]) by {
            assert(ws2.to_set().contains(ws2[i]));
            let j = choose|j: int| 0 <= j < ws1.len() && ws1[j] == ws2[i];
        }
    }
    if mentions_all(e, ws2) {
        assert forall|i: int| #![trigger ws1[i]] 0 <= i < ws1.len() implies contains_text(haystack(e), ws1[i]) by {
            assert(ws1.to_set().contains(ws1[i]));
            let j = choose|j: int| 0 <= j < ws2.len() && ws2[j] == ws1[i];
        }
    }
}

/// A search depends only on which words it looks for: not on their order, nor on how
/// often one is repeated.
pub proof fn lemma_search_words_as_a_set(l: LibraryView, ws1: Seq<Seq<char>>, ws2: Seq<Seq<char>>)
    requires
        ws1.to_set() == ws2.to_set(),
    ensures
        l.search_words(ws1) == l.search_words(ws2),
{
    assert forall|e: Entry| #[trigger] mentions_all(e, ws1) == mentions_all(e, ws2) by {
        lemma_mentions_by_set(e, ws1, ws2);
    }
    assert((|e: Entry| mentions_all(e, ws1)) =~= (|e: Entry| mentions_all(e, ws2)));
}

/// A search for an ASCII query does not depend on the case of its letters: the query with
/// its letters made capital is ASCII too, and finds the same entries.
pub proof fn lemma_search_ignores_ascii_case(l: LibraryView, q: Seq<char>)
    ensures
        is_ascii_text(q) ==> is_ascii_text(ascii_uppercase(q)),
        l.search_words(words_of(ascii_lowercase(ascii_uppercase(q)))) == l.search_words(
            words_of(ascii_lowercase(q)),
        ),
{
    lemma_ascii_lower_of_upper(q);
}

/// A query of white space alone, or of no characters, finds every latest revision.
pub proof fn lemma_blank_search_lists_latest(l: LibraryView, q: Seq<char>)
    requires
        forall|i: int| 0 <= i < q.len() ==> white_space(#[trigger] q[i]),
    ensures
        l.search_words(words_of(ascii_lowercase(q))) == l.latest_revisions(),
{
    lemma_ascii_lowercase_blank(q);
    lemma_words_of_blank(q);
    let ws = words_of(ascii_lowercase(q));
    assert forall|e: Entry| #[trigger] mentions_all(e, ws) by {}
    lemma_filter_all(l.latest_revisions(), |e: Entry| mentions_all(e, ws));
}

/// Adding a word to an ASCII query only narrows the search: the entries found are those
/// found without it that also mention the added words, in the same order.
pub proof fn lemma_search_added_word_narrows(l: LibraryView, q: Seq<char>, w: Seq<char>)
    ensures
        is_ascii_text(q) && is_ascii_text(w) ==> is_ascii_text(q + seq![' '] + w),
        l.search_words(words_of(ascii_lowercase(q + seq![' '] + w))) == l.search_words(
            words_of(ascii_lowercase(q)),
        ).filter(|e: Entry| mentions_all(e, words_of(ascii_lowercase(w)))),
{
    lemma_ascii_lowercase_join(q, w);
    lemma_words_of_join(ascii_lowercase(q), ascii_lowercase(w));
    let w1 = words_of(ascii_lowercase(q));
    let w2 = words_of(ascii_lowercase(w));
    let both = words_of(ascii_lowercase(q + seq![' '] + w));
    assert(both == w1 + w2);
    assert forall|e: Entry| #[trigger] mentions_all(e, both) == (mentions_all(e, w1) && mentions_all(e, w2)) by {
        if mentions_all(e, w1) && mentions_all(e, w2) {
            assert forall|i: int| #![trigger both[i]] 0 <= i < both.len() implies contains_text(haystack(e), both[i]) by {
                if i < w1.len() {
                    assert(both[i] == w1[i]);
                } else {
                    assert(both[i] == w2[i - w1.len()]);
                }
            }
        }
        if mentions_all(e, both) {
            assert forall|i: int| #![trigger w1[i]] 0 <= i < w1.len() implies contains_text(haystack(e), w1[i]) by {
                assert(both[i] == w1[i]);
            }
            assert forall|i: int| #![trigger w2[i]] 0 <= i < w2.len() implies contains_text(haystack(e), w2[i]) by {
                assert(both[w1.len() + i] == w2[i]);
            }
        }
    }
    let p1 = |e: Entry| mentions_all(e, w1);
    let p2 = |e: Entry| mentions_all(e, w2);
    lemma_filter_both(l.latest_revisions(), p1, p2);
    assert((|e: Entry| mentions_all(e, both)) =~= (|x: Entry| p1(x) && p2(x)));
}

/// No two entries of the list share a revision id.
pub open spec fn distinct_rids(s: Seq<Entry>) -> bool {
    forall|i: int, j: int| 0 <= i < j < s.len() ==> #[trigger] s[i].rid@ != #[trigger] s[j].rid@
}

/// The index files exactly the held entries whose field has the key.
pub open spec fn agrees<K>(m: Map<K, Set<u32>>, entries: Map<u32, Entry>, field: spec_fn(Entry) -> K) -> bool {
    forall|k: K, r: u32|
        #![trigger m[k].contains(r)]
        #![trigger entries[r], m.contains_key(k)]
        (m.contains_key(k) && m[k].contains(r)) <==> (entries.contains_key(r) && field(entries[r]) == k)
}

/// The UUID index files exactly the held entries that have the UUID.
pub open spec fn agrees_uuid(m: Map<u128, Set<u32>>, entries: Map<u32, Entry>) -> bool {
    forall|u: u128, r: u32|
        #![trigger m[u].contains(r)]
        #![trigger entries[r], m.contains_key(u)]
        (m.contains_key(u) && m[u].contains(r)) <==> (entries.contains_key(r) && entries[r].uuid == Some(u))
}

/// The entry has the UUID.
pub open spec fn has_uuid(e: Entry, u: u128) -> bool {
    e.uuid == Some(u)
}

/// A UUID has a latest revision exactly when some held entry has it, and that revision is
/// the greatest revision id among the held entries with the UUID.
pub open spec fn latest_is_greatest(latest: Map<u128, u32>, entries: Map<u32, Entry>) -> bool {
    &&& forall|u: u128, r: u32|
        entries.contains_key(r) && #[trigger] has_uuid(entries[r], u) ==> latest.contains_key(u) && r
            <= latest[u]
    &&& forall|u: u128|
        #[trigger] latest.contains_key(u) ==> entries.contains_key(latest[u]) && entries[latest[u]].uuid
            == Some(u)
}

impl LibraryView {
    /// Every index agrees with the held entries, and the latest revision of each UUID is the
    /// greatest one held.
    pub open spec fn consistent(self) -> bool {
        &&& agrees_uuid(self.by_uuid, self.entries)
        &&& agrees(self.by_manufacturer, self.entries, |e: Entry| e.manufacturer@)
        &&& agrees(self.by_fixture, self.entries, |e: Entry| e.fixture@)
        &&& agrees(self.by_revision, self.entries, |e: Entry| e.revision@)
        &&& agrees(self.by_creator, self.entries, |e: Entry| e.creator@)
        &&& agrees(self.by_uploader, self.entries, |e: Entry| e.uploader@)
        &&& agrees(self.by_rating, self.entries, |e: Entry| e.rating@)
        &&& agrees(self.by_version, self.entries, |e: Entry| e.version@)
        &&& agrees(self.by_creation_date, self.entries, |e: Entry| e.creation_date)
        &&& agrees(self.by_last_modified, self.entries, |e: Entry| e.last_modified)
        &&& agrees(self.by_filesize, self.entries, |e: Entry| e.filesize)
        &&& latest_is_greatest(self.latest, self.entries)
    }
}

/// A library built from a list holds exactly the revision ids of the list, and under each
/// the entry that came last with that id.
pub proof fn lemma_built_entries(s: Seq<Entry>)
    ensures
        forall|i: int| 0 <= i < s.len() ==> #[trigger] built(s).entries.contains_key(s[i].rid@),
        forall|r: u32|
            #[trigger] built(s).entries.contains_key(r) ==> exists|i: int| 0 <= i < s.len() && s[i].rid@ == r,
        forall|i: int|
            0 <= i < s.len() && (forall|j: int| i < j < s.len() ==> s[j].rid@ != s[i].rid@) ==> #[trigger] built(
                s,
            ).entries[s[i].rid@] == s[i],
        forall|r: u32|
            #[trigger] built(s).entries.contains_key(r) ==> exists|i: int| 0 <= i < s.len() && s[i] == built(s).entries[r],
    decreases s.len(),
{
    if s.len() > 0 {
        let p = s.drop_last();
        lemma_built_entries(p);
        let n = s.len() - 1;
        assert forall|i: int| 0 <= i < s.len() implies #[trigger] built(s).entries.contains_key(s[i].rid@) by {
            if i < n {
                assert(p[i] == s[i]);
                assert(built(p).entries.contains_key(p[i].rid@));
            }
        }
        assert forall|r: u32| #[trigger] built(s).entries.contains_key(r) implies exists|i: int|
            0 <= i < s.len() && s[i].rid@ == r by {
            if r != s[n].rid@ {
                assert(built(p).entries.contains_key(r));
                let i = choose|i: int| 0 <= i < p.len() && p[i].rid@ == r;
                assert(s[i] == p[i]);
            }
        }
        assert forall|i: int|
            0 <= i < s.len() && (forall|j: int| i < j < s.len() ==> s[j].rid@ != s[i].rid@) implies #[trigger] built(
                s,
            ).entries[s[i].rid@] == s[i] by {
            if i < n {
                assert(s[n].rid@ != s[i].rid@);
                assert(p[i] == s[i]);
                assert forall|j: int| i < j < p.len() implies p[j].rid@ != p[i].rid@ by {
                    assert(p[j] == s[j]);
                }
                assert(built(p).entries[p[i].rid@] == p[i]);
            }
        }
        assert forall|r: u32| #[trigger] built(s).entries.contains_key(r) implies exists|i: int|
            0 <= i < s.len() && s[i] == built(s).entries[r] by {
            if r == s[n].rid@ {
                assert(s[n] == built(s).entries[r]);
            } else {
                assert(built(p).entries.contains_key(r));
                let i = choose|i: int| 0 <= i < p.len() && p[i] == built(p).entries[r];
                assert(s[i] == p[i]);
            }
        }
    }
}

/// Adding entries with distinct revision ids in any order builds the same library: two
/// lists that hold the same entries, each as often, give equal libraries.
pub proof fn lemma_built_permutation(v: Seq<Entry>, w: Seq<Entry>)
    requires
        distinct_rids(v),
        v.to_multiset() == w.to_multiset(),
    ensures
        built(v) == built(w),
{
    v.to_multiset_ensures();
    w.to_multiset_ensures();
    lemma_built_entries(v);
    lemma_built_entries(w);
    lemma_built_well_formed(v);
    lemma_built_well_formed(w);
    let ev = built(v).entries;
    let ew = built(w).entries;
    assert forall|x: Entry| v.contains(x) <==> w.contains(x) by {
        assert(v.to_multiset().count(x) == w.to_multiset().count(x));
        assert(v.contains(x) <==> v.to_multiset().count(x) > 0);
        assert(w.contains(x) <==> w.to_multiset().count(x) > 0);
    }
    assert forall|r: u32| #[trigger] ev.contains_key(r) <==> ew.contains_key(r) by {
        if ev.contains_key(r) {
            let i = choose|i: int| 0 <= i < v.len() && v[i].rid@ == r;
            assert(v.contains(v[i]));
            let j = choose|j: int| 0 <= j < w.len() && w[j] == v[i];
            assert(ew.contains_key(w[j].rid@));
        }
        if ew.contains_key(r) {
            let j = choose|j: int| 0 <= j < w.len() && w[j].rid@ == r;
            assert(w.contains(w[j]));
            let i = choose|i: int| 0 <= i < v.len() && v[i] == w[j];
            assert(ev.contains_key(v[i].rid@));
        }
    }
    assert forall|r: u32| #[trigger] ev.contains_key(r) implies ev[r] == ew[r] by {
        let i = choose|i: int| 0 <= i < v.len() && v[i] == ev[r];
        let j = choose|j: int| 0 <= j < w.len() && w[j] == ew[r];
        assert(w.contains(w[j]));
        let k = choose|k: int| 0 <= k < v.len() && v[k] == w[j];
        assert(v[i].rid@ == r && v[k].rid@ == r);
        if i != k {
            if i < k {
                assert(v[i].rid@ != v[k].rid@);
            } else {
                assert(v[k].rid@ != v[i].rid@);
            }
        }
    }
    assert(ev =~= ew);
}

/// In a well-formed library, the latest revision of a UUID is held, has that UUID, and is
/// the greatest revision id among the held entries with it.
pub proof fn lemma_latest_held(l: LibraryView, u: u128)
    requires
        l.well_formed(),
        l.latest.contains_key(u),
    ensures
        l.entries.contains_key(l.latest[u]),
        l.entries[l.latest[u]].uuid == Some(u),
        forall|x: u32| l.entries.contains_key(x) && #[trigger] has_uuid(l.entries[x], u) ==> x <= l.latest[u],
{
    let s = filed(l.entries, uuid_key(), u);
    let x = choose|x: u32| #[trigger] filed(l.entries, uuid_key(), u).contains(x);
    assert(s.subset_of(l.entries.dom()));
    vstd::set_lib::lemma_len_subset(s, l.entries.dom());
    lemma_greatest(s, x);
    assert(l.latest[u] == greatest(s));
    assert forall|y: u32| l.entries.contains_key(y) && #[trigger] has_uuid(l.entries[y], u) implies y <= l.latest[u] by {
        assert(s.contains(y));
    }
}

proof fn lemma_index_agrees<K>(en: Map<u32, Entry>, has: spec_fn(Entry, K) -> bool, field: spec_fn(Entry) -> K)
    requires
        forall|e: Entry, k: K| #[trigger] has(e, k) == (field(e) == k),
    ensures
        agrees(index_by(en, has), en, field),
{
    let m = index_by(en, has);
    assert forall|k: K, r: u32|
        #![trigger m[k].contains(r)]
        #![trigger en[r], m.contains_key(k)]
        (m.contains_key(k) && m[k].contains(r)) <==> (en.contains_key(r) && field(en[r]) == k) by {
        if en.contains_key(r) && field(en[r]) == k {
            assert(has(en[r], k));
            assert(filed(en, has, k).contains(r));
        }
        if m.contains_key(k) && m[k].contains(r) {
            assert(has(en[r], k));
        }
    }
}

proof fn lemma_index_agrees_uuid(en: Map<u32, Entry>)
    ensures
        agrees_uuid(index_by(en, uuid_key()), en),
{
    let m = index_by(en, uuid_key());
    assert forall|k: u128, r: u32|
        #![trigger m[k].contains(r)]
        #![trigger en[r], m.contains_key(k)]
        (m.contains_key(k) && m[k].contains(r)) <==> (en.contains_key(r) && en[r].uuid == Some(k)) by {
        if en.contains_key(r) && en[r].uuid == Some(k) {
            assert(filed(en, uuid_key(), k).contains(r));
        }
    }
}

/// The UUIDs with a latest revision in a well-formed library are finitely many.
pub proof fn lemma_latest_finite(l: LibraryView)
    requires
        l.well_formed(),
    ensures
        l.latest.dom().finite(),
{
    let en = l.entries;
    let f = |r: u32|
        match en[r].uuid {
            Some(u) => u,
            None => 0u128,
        };
    let img = en.dom().map(f);
    en.dom().lemma_map_finite(f);
    assert forall|u: u128| l.latest.dom().contains(u) implies img.contains(u) by {
        let r = choose|r: u32| #[trigger] filed(en, uuid_key(), u).contains(r);
        assert(en.dom().contains(r) && u == f(r));
    }
    vstd::set_lib::lemma_len_subset(l.latest.dom(), img);
}

/// A well-formed library is consistent: every index files exactly the held entries under
/// their values, and the latest revision of each UUID is the greatest one held with it.
pub proof fn lemma_well_formed_consistent(l: LibraryView)
    requires
        l.well_formed(),
    ensures
        l.consistent(),
{
    let en = l.entries;
    assert forall|u: u128, r: u32| en.contains_key(r) && #[trigger] has_uuid(en[r], u) implies l.latest.contains_key(u) && r
        <= l.latest[u] by {
        assert(filed(en, uuid_key(), u).contains(r));
        lemma_latest_held(l, u);
    }
    assert forall|u: u128| #[trigger] l.latest.contains_key(u) implies en.contains_key(l.latest[u])
        && en[l.latest[u]].uuid == Some(u) by {
        lemma_latest_held(l, u);
    }
    lemma_index_agrees_uuid(en);
    lemma_index_agrees(en, text_key(TextField::Manufacturer), |e: Entry| e.manufacturer@);
    lemma_index_agrees(en, text_key(TextField::Fixture), |e: Entry| e.fixture@);
    lemma_index_agrees(en, text_key(TextField::Revision), |e: Entry| e.revision@);
    lemma_index_agrees(en, text_key(TextField::Creator), |e: Entry| e.creator@);
    lemma_index_agrees(en, text_key(TextField::Uploader), |e: Entry| e.uploader@);
    lemma_index_agrees(en, text_key(TextField::Rating), |e: Entry| e.rating@);
    lemma_index_agrees(en, text_key(TextField::Version), |e: Entry| e.version@);
    lemma_index_agrees(en, number_key(NumberField::CreationDate), |e: Entry| e.creation_date);
    lemma_index_agrees(en, number_key(NumberField::LastModified), |e: Entry| e.last_modified);
    lemma_index_agrees(en, number_key(NumberField::Filesize), |e: Entry| e.filesize);
    assert(agrees_uuid(l.by_uuid, en));
    assert(agrees(l.by_manufacturer, en, |e: Entry| e.manufacturer@));
    assert(agrees(l.by_fixture, en, |e: Entry| e.fixture@));
    assert(agrees(l.by_revision, en, |e: Entry| e.revision@));
    assert(agrees(l.by_creator, en, |e: Entry| e.creator@));
    assert(agrees(l.by_uploader, en, |e: Entry| e.uploader@));
    assert(agrees(l.by_rating, en, |e: Entry| e.rating@));
    assert(agrees(l.by_version, en, |e: Entry| e.version@));
    assert(agrees(l.by_creation_date, en, |e: Entry| e.creation_date));
    assert(agrees(l.by_last_modified, en, |e: Entry| e.last_modified));
    assert(agrees(l.by_filesize, en, |e: Entry| e.filesize));
    assert(latest_is_greatest(l.latest, en));
}

/// A library built from any list of entries is well-formed.
pub proof fn lemma_built_well_formed(s: Seq<Entry>)
    ensures
        built(s).well_formed(),
    decreases s.len(),
{
    if s.len() > 0 {
        lemma_built_well_formed(s.drop_last());
    }
}

/// A library built from any list of entries is consistent: each index files exactly the
/// held entries with each value, and each UUID's latest revision is the greatest revision
/// id among the held entries with that UUID.
pub proof fn lemma_built_consistent(s: Seq<Entry>)
    ensures
        built(s).consistent(),
{
    lemma_built_well_formed(s);
    lemma_well_formed_consistent(built(s));
}

/// A library built from entries with distinct revision ids holds one entry per list entry,
/// so its length is the list's length.
pub proof fn lemma_built_len(s: Seq<Entry>)
    requires
        distinct_rids(s),
    ensures
        built(s).entries.dom().len() == s.len(),
{
    lemma_built_entries(s);
    let rids = s.map_values(|e: Entry| e.rid@);
    assert(rids.no_duplicates()) by {
        assert forall|i: int, j: int| 0 <= i < rids.len() && 0 <= j < rids.len() && i != j implies rids[i] != rids[j] by {
            if i < j {
                assert(s[i].rid@ != s[j].rid@);
            } else {
                assert(s[j].rid@ != s[i].rid@);
            }
        }
    }
    assert forall|r: u32| rids.to_set().contains(r) <==> built(s).entries.dom().contains(r) by {
        if rids.to_set().contains(r) {
            let i = choose|i: int| 0 <= i < rids.len() && rids[i] == r;
            assert(built(s).entries.contains_key(s[i].rid@));
        }
        if built(s).entries.dom().contains(r) {
            let i = choose|i: int| 0 <= i < s.len() && s[i].rid@ == r;
            assert(rids[i] == r);
        }
    }
    assert(rids.to_set() =~= built(s).entries.dom());
    rids.unique_seq_to_set();
}

} // verus!
