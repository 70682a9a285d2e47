use gdtf_share::{Bound, Entry, GdtfMode, Library, RevisionId};

fn entry(rid: u32, manufacturer: &str, fixture: &str, uuid: Option<u128>) -> Entry {
    Entry {
        rid: RevisionId::new(rid),
        fixture: fixture.to_string(),
        manufacturer: manufacturer.to_string(),
        description: None,
        revision: format!("rev {rid}"),
        creation_date: 1_600_000_000 + rid as u64,
        last_modified: 1_700_000_000 + rid as u64,
        uploader: "Manuf.".to_string(),
        rating: "0".to_string(),
        version: "1.1".to_string(),
        creator: manufacturer.to_string(),
        uuid,
        filesize: 1000 * rid as u64,
        modes: vec![GdtfMode { name: "Mode 1".to_string(), dmxfootprint: 12 }],
    }
}

fn sample() -> Library {
    let mut e4 = entry(4, "Martin Professional", "MAC Aura", Some(30));
    e4.rating = "50".to_string();
    e4.version = "1.2".to_string();
    e4.uploader = "User".to_string();
    let mut e2 = entry(2, "GLP", "JDC1", Some(10));
    e2.rating = "10".to_string();
    Library::new(vec![
        entry(5, "GLP", "JDC1", Some(10)),
        e2,
        entry(7, "GLP", "impression X4", Some(20)),
        e4,
        entry(9, "Robe Lighting", "Robin MegaPointe", None),
    ])
}

fn rids(v: &[&Entry]) -> Vec<u32> {
    v.iter().map(|e| e.rid.as_u32()).collect()
}

#[test]
fn new_library_counts_and_looks_up_entries() {
    let lib = sample();
    assert_eq!(lib.len(), 5);
    assert!(!lib.is_empty());
    assert_eq!(lib.get(RevisionId::new(7)).map(|e| e.fixture.as_str()), Some("impression X4"));
    assert!(lib.get(RevisionId::new(8)).is_none());
    let empty = Library::new(vec![]);
    assert_eq!(empty.len(), 0);
    assert!(empty.is_empty());
}

#[test]
fn all_revisions_come_in_rid_order() {
    let lib = sample();
    assert_eq!(rids(&lib.iter_all_revisions()), vec![2, 4, 5, 7, 9]);
}

#[test]
fn latest_revisions_keep_the_greatest_rid_of_each_uuid_in_uuid_order() {
    let lib = sample();
    // uuid 10 has revisions 5 and 2: 5 is latest; entries without a uuid are not listed.
    assert_eq!(rids(&lib.iter_latest_revisions()), vec![5, 7, 4]);
}

#[test]
fn query_without_filters_lists_everything_or_the_latest() {
    let lib = sample();
    assert_eq!(rids(&lib.query().execute()), vec![2, 4, 5, 7, 9]);
    assert_eq!(rids(&lib.query().latest_only(true).execute()), vec![5, 7, 4]);
}

#[test]
fn query_by_fixture_latest_only() {
    let lib = sample();
    assert_eq!(rids(&lib.query().fixture("JDC1").execute()), vec![2, 5]);
    assert_eq!(rids(&lib.query().fixture("JDC1").latest_only(true).execute()), vec![5]);
    // Entries without a uuid pass the latest-only filter when another filter is set.
    assert_eq!(rids(&lib.query().manufacturer("Robe Lighting").latest_only(true).execute()), vec![9]);
}

#[test]
fn query_combines_filters() {
    let lib = sample();
    assert_eq!(rids(&lib.query().manufacturer("GLP").execute()), vec![2, 5, 7]);
    assert_eq!(rids(&lib.query().manufacturer("GLP").uuid(20).execute()), vec![7]);
    assert_eq!(rids(&lib.query().manufacturer("GLP").uploader("User").execute()), Vec::<u32>::new());
    assert_eq!(rids(&lib.query().uploader("User").execute()), vec![4]);
    assert_eq!(rids(&lib.query().creator("GLP").revision("rev 7").execute()), vec![7]);
    assert_eq!(rids(&lib.query().version("1.2").execute()), vec![4]);
    assert_eq!(rids(&lib.query().rating("10").execute()), vec![2]);
    assert_eq!(rids(&lib.query().filesize(5000).execute()), vec![5]);
    assert_eq!(rids(&lib.query().creation_date(1_600_000_007).execute()), vec![7]);
    assert_eq!(rids(&lib.query().last_modified(1_700_000_009).execute()), vec![9]);
}

#[test]
fn query_with_unknown_key_is_empty() {
    let lib = sample();
    assert!(lib.query().manufacturer("Nobody").execute().is_empty());
    assert!(lib.query().uuid(99).execute().is_empty());
    assert!(lib.query().filesize(1).execute().is_empty());
}

#[test]
fn query_numeric_ranges() {
    let lib = sample();
    let q = lib.query().filesize_range((Bound::Included(4000), Bound::Included(7000)));
    assert_eq!(rids(&q.execute()), vec![4, 5, 7]);
    let q = lib.query().filesize_range((Bound::Excluded(4000), Bound::Excluded(7000)));
    assert_eq!(rids(&q.execute()), vec![5]);
    let q = lib.query().creation_date_range((Bound::Unbounded, Bound::Excluded(1_600_000_005)));
    assert_eq!(rids(&q.execute()), vec![2, 4]);
    let q = lib.query().last_modified_range((Bound::Included(1_700_000_009), Bound::Unbounded));
    assert_eq!(rids(&q.execute()), vec![9]);
    let q = lib.query().filesize_range((Bound::Included(100_000), Bound::Unbounded));
    assert!(q.execute().is_empty());
}

#[test]
fn query_text_ranges_follow_lexicographic_order() {
    let lib = sample();
    // Ratings "0", "0", "0", "10", "50": the range "10"..="50" holds "10" and "50".
    let q = lib.query().rating_range((Bound::Included("10"), Bound::Included("50")));
    assert_eq!(rids(&q.execute()), vec![2, 4]);
    // Lexicographically "5" < "50", so "5".. excludes nothing above it.
    let q = lib.query().rating_range((Bound::Excluded("5"), Bound::Unbounded));
    assert_eq!(rids(&q.execute()), vec![4]);
    let q = lib.query().version_range((Bound::Included("1.0"), Bound::Excluded("1.2")));
    assert_eq!(rids(&q.execute()), vec![2, 5, 7, 9]);
    let q = lib.query().version_range((Bound::Included("1.2"), Bound::Included("1.2"))).manufacturer("GLP");
    assert!(q.execute().is_empty());
}

#[test]
fn search_latest_is_case_insensitive_and_needs_every_word() {
    let lib = sample();
    assert_eq!(rids(&lib.search_latest("glp")), vec![5, 7]);
    assert_eq!(rids(&lib.search_latest("  GLP   jdc1 ")), vec![5]);
    assert_eq!(rids(&lib.search_latest("aura martin")), vec![4]);
    assert!(lib.search_latest("robe").is_empty());
    assert_eq!(rids(&lib.search_latest("")), vec![5, 7, 4]);
    assert!(lib.search_latest("glp aura").is_empty());
}

#[test]
fn reinserting_a_rid_replaces_the_entry_and_its_filings() {
    let lib = Library::new(vec![entry(3, "A", "One", Some(1)), entry(3, "B", "Two", Some(2))]);
    assert_eq!(lib.len(), 1);
    assert_eq!(lib.get(RevisionId::new(3)).map(|e| e.manufacturer.as_str()), Some("B"));
    assert!(lib.query().manufacturer("A").execute().is_empty());
    assert_eq!(rids(&lib.query().manufacturer("B").execute()), vec![3]);
    let latest = lib.iter_latest_revisions();
    assert_eq!(rids(&latest), vec![3]);
    assert_eq!(latest[0].uuid, Some(2));
    assert!(lib.query().uuid(1).execute().is_empty());
}

#[test]
fn reinserting_a_rid_without_uuid_drops_it_from_the_latest() {
    let lib = Library::new(vec![
        entry(2, "A", "One", Some(7)),
        entry(5, "A", "One", Some(7)),
        entry(5, "A", "One", None),
    ]);
    assert_eq!(rids(&lib.iter_latest_revisions()), vec![2]);
    assert_eq!(rids(&lib.query().latest_only(true).execute()), vec![2]);
    assert!(lib.search_latest("a one").iter().all(|e| e.uuid.is_some()));
    assert_eq!(rids(&lib.search_latest("a one")), vec![2]);
}

#[test]
fn reversed_or_empty_ranges_select_nothing() {
    let lib = Library::new(vec![entry(1, "A", "One", Some(1))]);
    assert!(lib.query().creation_date_range((Bound::Included(20), Bound::Included(10))).execute().is_empty());
    assert!(lib.query().filesize_range((Bound::Excluded(0), Bound::Excluded(0))).execute().is_empty());
    assert!(lib.query().rating_range((Bound::Included("5"), Bound::Excluded("1"))).execute().is_empty());
}

#[test]
fn default_library_is_empty() {
    let lib = Library::default();
    assert!(lib.is_empty());
    assert_eq!(lib.len(), 0);
    assert!(lib.iter_all_revisions().is_empty());
}

#[test]
fn latest_revision_is_the_greatest_rid_whatever_the_insert_order() {
    let lib = Library::new(vec![
        entry(8, "X", "F", Some(5)),
        entry(3, "X", "F", Some(5)),
        entry(11, "X", "F", Some(5)),
        entry(10, "X", "F", Some(5)),
    ]);
    assert_eq!(rids(&lib.iter_latest_revisions()), vec![11]);
    assert_eq!(rids(&lib.query().manufacturer("X").latest_only(true).execute()), vec![11]);
}

#[test]
fn revision_id_conversions_round_trip() {
    let id = RevisionId::new(4711);
    assert_eq!(id.as_u32(), 4711);
    assert_eq!(u32::from(RevisionId::from(4711u32)), 4711);
    assert_eq!(RevisionId::from(4711u32), id);
    assert_eq!(id.to_string(), "4711");
    assert_eq!(RevisionId::new(0).to_string(), "0");
    assert_eq!(RevisionId::new(u32::MAX).to_string(), "4294967295");
}

#[test]
fn insertion_order_of_distinct_rids_does_not_matter() {
    let a = vec![
        entry(8, "X", "F", Some(5)),
        entry(3, "Y", "G", Some(5)),
        entry(11, "X", "H", None),
        entry(10, "Z", "F", Some(6)),
    ];
    let mut b = a.clone();
    b.reverse();
    let la = Library::new(a);
    let lb = Library::new(b);
    assert_eq!(la.len(), lb.len());
    assert_eq!(rids(&la.iter_all_revisions()), rids(&lb.iter_all_revisions()));
    assert_eq!(rids(&la.iter_latest_revisions()), rids(&lb.iter_latest_revisions()));
    assert_eq!(rids(&la.iter_latest_revisions()), vec![8, 10]);
    assert_eq!(rids(&la.query().manufacturer("X").execute()), rids(&lb.query().manufacturer("X").execute()));
}

#[test]
fn unfiltered_query_lists_as_many_entries_as_the_library_holds() {
    let lib = sample();
    assert_eq!(lib.query().execute().len(), lib.len());
    assert_eq!(rids(&lib.query().latest_only(false).execute()), rids(&lib.query().execute()));
}

#[test]
fn later_setter_replaces_the_earlier_value() {
    let lib = sample();
    assert_eq!(
        rids(&lib.query().manufacturer("Robe Lighting").manufacturer("GLP").execute()),
        rids(&lib.query().manufacturer("GLP").execute())
    );
    assert_eq!(
        rids(&lib.query().manufacturer("GLP").latest_only(true).latest_only(false).execute()),
        vec![2, 5, 7]
    );
}

#[test]
fn setters_on_different_fields_commute_and_narrow() {
    let lib = sample();
    let a = rids(&lib.query().manufacturer("GLP").filesize_range((Bound::Included(5000), Bound::Unbounded)).execute());
    let b = rids(&lib.query().filesize_range((Bound::Included(5000), Bound::Unbounded)).manufacturer("GLP").execute());
    assert_eq!(a, b);
    assert_eq!(a, vec![5, 7]);
    let wider = rids(&lib.query().manufacturer("GLP").execute());
    assert!(a.iter().all(|r| wider.contains(r)));
}

#[test]
fn unbounded_filesize_range_keeps_the_result() {
    let lib = sample();
    assert_eq!(
        rids(&lib.query().fixture("JDC1").filesize_range((Bound::Unbounded, Bound::Unbounded)).execute()),
        rids(&lib.query().fixture("JDC1").execute())
    );
    assert_eq!(
        rids(&lib.query().filesize_range((Bound::Unbounded, Bound::Unbounded)).execute()),
        vec![2, 4, 5, 7, 9]
    );
}

#[test]
fn text_keys_in_any_order_are_all_found() {
    let names = ["m", "b", "zz", "a", "mm", "", "ab", "z", "b"];
    let entries: Vec<Entry> =
        names.iter().enumerate().map(|(i, n)| entry(i as u32 + 1, n, "F", None)).collect();
    let lib = Library::new(entries);
    for (i, n) in names.iter().enumerate() {
        let found = rids(&lib.query().manufacturer(n).execute());
        assert!(found.contains(&(i as u32 + 1)));
        assert!(lib.query().manufacturer(n).execute().iter().all(|e| e.manufacturer == *n));
    }
    assert_eq!(rids(&lib.query().manufacturer("b").execute()), vec![2, 9]);
    assert!(lib.query().manufacturer("c").execute().is_empty());
}

#[test]
fn cloned_library_answers_like_the_library_it_copies() {
    let lib = sample();
    let copy = lib.clone();
    assert_eq!(copy.len(), lib.len());
    assert_eq!(rids(&copy.iter_all_revisions()), rids(&lib.iter_all_revisions()));
    assert_eq!(rids(&copy.iter_latest_revisions()), rids(&lib.iter_latest_revisions()));
    assert_eq!(rids(&copy.query().manufacturer("GLP").execute()), vec![2, 5, 7]);
    assert_eq!(rids(&copy.search_latest("glp")), rids(&lib.search_latest("glp")));
    assert!(format!("{:?}", copy).contains("MAC Aura"));
}

#[test]
fn numeric_ranges_at_their_edges() {
    let lib = sample();
    assert!(lib.query().filesize_range((Bound::Included(5000), Bound::Excluded(5000))).execute().is_empty());
    assert_eq!(rids(&lib.query().filesize_range((Bound::Included(5000), Bound::Included(5000))).execute()), vec![5]);
    assert_eq!(rids(&lib.query().filesize_range((Bound::Excluded(4000), Bound::Excluded(7000))).execute()), vec![5]);
    assert_eq!(rids(&lib.query().filesize_range((Bound::Excluded(4000), Bound::Unbounded)).execute()), vec![5, 7, 9]);
    assert!(lib.query().filesize_range((Bound::Excluded(u64::MAX), Bound::Unbounded)).execute().is_empty());
}

#[test]
fn library_from_entries_and_query_into_iterator() {
    let lib = Library::from(vec![entry(2, "A", "One", Some(1)), entry(1, "B", "Two", Some(2))]);
    assert_eq!(rids(&lib.iter_all_revisions()), vec![1, 2]);
    let mut seen = Vec::new();
    for e in lib.query().manufacturer("A") {
        seen.push(e.rid.as_u32());
    }
    assert_eq!(seen, vec![2]);
    let all: Vec<u32> = lib.query().into_iter().map(|e| e.rid.as_u32()).collect();
    assert_eq!(all, vec![1, 2]);
}

#[test]
fn search_ignores_ascii_case_and_word_order() {
    let lib = sample();
    assert_eq!(rids(&lib.search_latest("GLP")), rids(&lib.search_latest("glp")));
    assert_eq!(rids(&lib.search_latest("gLp JdC1")), vec![5]);
    assert_eq!(rids(&lib.search_latest("jdc1 glp")), rids(&lib.search_latest("glp jdc1")));
    assert_eq!(rids(&lib.search_latest("glp glp jdc1 glp")), vec![5]);
}

#[test]
fn blank_search_lists_every_latest_revision() {
    let lib = sample();
    let latest = rids(&lib.iter_latest_revisions());
    assert_eq!(rids(&lib.search_latest("")), latest);
    assert_eq!(rids(&lib.search_latest("   ")), latest);
    assert_eq!(rids(&lib.search_latest(" \t\n ")), latest);
}

#[test]
fn an_added_search_word_only_narrows() {
    let lib = sample();
    let wide = rids(&lib.search_latest("glp"));
    assert_eq!(wide, vec![5, 7]);
    let narrow = rids(&lib.search_latest("glp x4"));
    assert_eq!(narrow, vec![7]);
    assert!(narrow.iter().all(|r| wide.contains(r)));
    assert!(lib.search_latest("glp nothing").is_empty());
}

#[test]
fn a_copied_query_runs_like_the_query() {
    let lib = sample();
    let q = lib.query().manufacturer("GLP");
    let a: Vec<u32> = q.clone().into_iter().map(|e| e.rid.as_u32()).collect();
    assert_eq!(a, rids(&q.execute()));
    assert_eq!(a, vec![2, 5, 7]);
}
