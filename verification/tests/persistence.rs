use url_poller::persist::{Candidate, CandidateStore, OriginTable};

#[test]
fn dedup_is_idempotent() {
    let mut store = CandidateStore::new();
    let url = "http://example.org/a".to_string();
    assert!(store.save(&url, OriginTable::EditData, 7));
    assert!(!store.save(&url, OriginTable::EditData, 7));
    assert_eq!(store.stored_count(), 1);
    assert!(store.saved(&url, OriginTable::EditData, 7));
}

#[test]
fn distinct_origins_are_distinct_rows() {
    let mut store = CandidateStore::new();
    let url = "http://example.org/a".to_string();
    assert!(store.save(&url, OriginTable::EditData, 7));
    assert!(store.save(&url, OriginTable::EditNote, 7));
    assert!(store.save(&url, OriginTable::EditData, 8));
    assert_eq!(store.stored_count(), 3);
}

#[test]
fn failed_save_is_contained_to_its_candidate() {
    let mut store = CandidateStore::new();
    let saves: Vec<Candidate> = (0..5)
        .map(|k| Candidate {
            url: format!("http://example.org/{}", k),
            origin_table: OriginTable::EditNote,
            origin_id: 12,
        })
        .collect();
    let failed = vec![false, false, true, false, false];
    store.save_all(&saves, &failed);
    assert_eq!(store.stored_count(), 4);
    for k in 0..5 {
        let url = format!("http://example.org/{}", k);
        let expect = k != 2;
        assert_eq!(store.saved(&url, OriginTable::EditNote, 12), expect);
    }
}

#[test]
fn origin_table_names() {
    assert_eq!(OriginTable::EditData.table_name(), "edit_data");
    assert_eq!(OriginTable::EditNote.table_name(), "edit_note");
}
