use entry_store::binary_index_iterator::BinaryIndexIterator;
use entry_store::binary_store_error::BinaryStoreError;
use entry_store::data_store::Filter;
use entry_store::indexed_binary_file_entry_store::{IndexedBinaryFileEntryStore,
    INDEX_RECORD_SIZE};
use entry_store::model::{Entry, EntryV};

struct MatchAllFilter;

impl Filter<Entry> for MatchAllFilter {
    // Ghost half of the trait; never called at run time.
    fn spec_pass(&self, _v: EntryV) -> bool {
        true
    }

    fn pass(&self, _: &Entry) -> bool {
        true
    }
}

struct MatchNoneFilter;

impl Filter<Entry> for MatchNoneFilter {
    // Ghost half of the trait; never called at run time.
    fn spec_pass(&self, _v: EntryV) -> bool {
        false
    }

    fn pass(&self, _: &Entry) -> bool {
        false
    }
}

struct TitleFilter {
    title: String,
}

impl Filter<Entry> for TitleFilter {
    // Ghost half of the trait; never called at run time.
    fn spec_pass(&self, _v: EntryV) -> bool {
        true
    }

    fn pass(&self, entry: &Entry) -> bool {
        entry.title == self.title
    }
}

fn entry(id: &str, title: &str) -> Entry {
    Entry {
        id: id.to_string(),
        title: title.to_string(),
        username: None,
        password: None,
        url: None,
        note: None,
    }
}

#[test]
fn test_save_new_entry() {
    let mut store = IndexedBinaryFileEntryStore::new();

    let entry = Entry {
        id: "test_id".to_string(),
        title: "Test Title".to_string(),
        username: Some("test_user".to_string()),
        password: Some("test_password".to_string()),
        url: Some("https://example.com".to_string()),
        note: Some("This is a test entry".to_string()),
    };

    let id = entry.id.clone();
    store.save(&id, &entry).unwrap();

    // The table maps the id, and the data image holds exactly one
    // serialized entry.
    assert_eq!(store.load(&id).unwrap(), Some(entry));
    assert!(!store.data_image().is_empty());
    assert!(store.index_file_image().is_empty());
}

#[test]
fn test_save_multiple_entries() {
    let mut store = IndexedBinaryFileEntryStore::new();

    let entry1 = Entry {
        id: "id1".to_string(),
        title: "First Entry".to_string(),
        username: Some("user1".to_string()),
        password: Some("password1".to_string()),
        url: Some("https://example.com/1".to_string()),
        note: Some("First test entry".to_string()),
    };
    let id1 = entry1.id.clone();
    store.save(&id1, &entry1).unwrap();
    let after_first = store.data_image().len();

    let entry2 = Entry {
        id: "id2".to_string(),
        title: "Second Entry".to_string(),
        username: Some("user2".to_string()),
        password: Some("password2".to_string()),
        url: Some("https://example.com/2".to_string()),
        note: Some("Second test entry".to_string()),
    };
    let id2 = entry2.id.clone();
    store.save(&id2, &entry2).unwrap();

    assert_eq!(store.load(&id1).unwrap(), Some(entry1));
    assert_eq!(store.load(&id2).unwrap(), Some(entry2));
    // Appended, never rewritten.
    assert!(store.data_image().len() > after_first);
}

#[test]
fn test_save_and_persist_index() {
    let mut store = IndexedBinaryFileEntryStore::new();

    let entry = Entry {
        id: "test_id".to_string(),
        title: "Test Title".to_string(),
        username: Some("test_user".to_string()),
        password: Some("test_password".to_string()),
        url: Some("https://example.com".to_string()),
        note: Some("This is a test entry".to_string()),
    };
    let id = entry.id.clone();
    store.save(&id, &entry).unwrap();

    store.rewrite_index().unwrap();

    assert!(!store.index_file_image().is_empty());
    assert_eq!(store.index_file_image().len(), INDEX_RECORD_SIZE);
}

#[test]
fn test_save_existing_entry_updates_index() {
    let mut store = IndexedBinaryFileEntryStore::new();

    let entry1 = Entry {
        id: "test_id".to_string(),
        title: "Initial Title".to_string(),
        username: Some("initial_user".to_string()),
        password: Some("initial_password".to_string()),
        url: Some("https://example.com/initial".to_string()),
        note: Some("Initial test entry".to_string()),
    };
    let id = entry1.id.clone();
    store.save(&id, &entry1).unwrap();

    let entry2 = Entry {
        id: "test_id".to_string(),
        title: "Updated Title".to_string(),
        username: Some("updated_user".to_string()),
        password: Some("updated_password".to_string()),
        url: Some("https://example.com/updated".to_string()),
        note: Some("Updated test entry".to_string()),
    };
    store.save(&id, &entry2).unwrap();

    // The table points at the new bytes; the old ones stay as garbage.
    assert_eq!(store.load(&id).unwrap(), Some(entry2));
}

#[test]
fn test_load_non_existent_entry() {
    let store = IndexedBinaryFileEntryStore::new();

    let non_existent_id = "non_existent_id".to_string();
    let result = store.load(&non_existent_id).unwrap();

    assert!(result.is_none());
}

#[test]
fn test_delete_non_existent_entry() {
    let mut store = IndexedBinaryFileEntryStore::new();

    let non_existent_id = "non_existent_id".to_string();
    store.delete(&non_existent_id).unwrap();

    assert!(store.load(&non_existent_id).unwrap().is_none());
}

#[test]
fn test_rewrite_data_file_after_deletion() {
    let mut store = IndexedBinaryFileEntryStore::new();

    let entry = Entry {
        id: "test_id".to_string(),
        title: "Test Title".to_string(),
        username: Some("test_user".to_string()),
        password: Some("test_password".to_string()),
        url: Some("https://example.com".to_string()),
        note: Some("This is a test entry".to_string()),
    };
    let id = entry.id.clone();
    store.save(&id, &entry).unwrap();

    store.delete(&id).unwrap();
    store.write_data().unwrap();

    assert!(store.data_image().is_empty());
}

#[test]
fn test_reload_index() {
    let mut store = IndexedBinaryFileEntryStore::new();

    let entry = Entry {
        id: "test_id".to_string(),
        title: "Test Title".to_string(),
        username: Some("test_user".to_string()),
        password: Some("test_password".to_string()),
        url: Some("https://example.com".to_string()),
        note: Some("This is a test entry".to_string()),
    };
    let id = &entry.id;
    store.save(id, &entry).unwrap();

    store.rewrite_index().unwrap();
    store.reload_index();

    assert_eq!(store.load(id).unwrap(), Some(entry));
}

#[test]
fn test_error_handling_for_file_operations() {
    // A store whose data image was cut off behind a persisted index: the
    // stale range surfaces as an I/O error on access.
    let mut store = IndexedBinaryFileEntryStore::new();

    let entry = Entry {
        id: "test_id".to_string(),
        title: "Test Title".to_string(),
        username: Some("test_user".to_string()),
        password: Some("test_password".to_string()),
        url: Some("https://example.com".to_string()),
        note: Some("This is a test entry".to_string()),
    };
    let id = entry.id.clone();
    store.save(&id, &entry).unwrap();
    store.rewrite_index().unwrap();

    let mut cut_data = store.data_image().clone();
    cut_data.truncate(cut_data.len() - 1);
    let mut broken = IndexedBinaryFileEntryStore::from_images(
        cut_data,
        store.index_file_image().clone(),
    );
    broken.reload_index();

    let result = broken.load(&id);
    assert!(result.is_err());
    assert_eq!(result.unwrap_err(), BinaryStoreError::IoError);
}

#[test]
fn test_save_entry_with_existing_id() {
    let mut store = IndexedBinaryFileEntryStore::new();

    let entry1 = Entry {
        id: "test_id".to_string(),
        title: "Initial Title".to_string(),
        username: Some("initial_user".to_string()),
        password: Some("initial_password".to_string()),
        url: Some("https://example.com/initial".to_string()),
        note: Some("Initial test entry".to_string()),
    };
    let id = entry1.id.clone();
    store.save(&id, &entry1).unwrap();

    let entry2 = Entry {
        id: "test_id".to_string(),
        title: "Updated Title".to_string(),
        username: Some("updated_user".to_string()),
        password: Some("updated_password".to_string()),
        url: Some("https://example.com/updated".to_string()),
        note: Some("Updated test entry".to_string()),
    };
    store.save(&id, &entry2).unwrap();

    let loaded_entry = store.load(&id).unwrap().unwrap();
    assert_eq!(loaded_entry.title, "Updated Title");
}

#[test]
fn test_search_match_all() {
    let mut store = IndexedBinaryFileEntryStore::new();

    let entry1 = Entry {
        id: "id1".to_string(),
        title: "First Entry".to_string(),
        username: Some("user1".to_string()),
        password: Some("password1".to_string()),
        url: Some("https://example.com/1".to_string()),
        note: Some("First test entry".to_string()),
    };
    let entry2 = Entry {
        id: "id2".to_string(),
        title: "Second Entry".to_string(),
        username: Some("user2".to_string()),
        password: Some("password2".to_string()),
        url: Some("https://example.com/2".to_string()),
        note: Some("Second test entry".to_string()),
    };

    store.save(&entry1.id.clone(), &entry1).unwrap();
    store.save(&entry2.id.clone(), &entry2).unwrap();

    let filter = MatchAllFilter;
    let results = store.search(&filter).unwrap();

    assert_eq!(results.len(), 2);
    assert!(results.contains(&entry1));
    assert!(results.contains(&entry2));
}

#[test]
fn test_search_match_none() {
    let mut store = IndexedBinaryFileEntryStore::new();

    let entry1 = Entry {
        id: "id1".to_string(),
        title: "First Entry".to_string(),
        username: Some("user1".to_string()),
        password: Some("password1".to_string()),
        url: Some("https://example.com/1".to_string()),
        note: Some("First test entry".to_string()),
    };
    let entry2 = Entry {
        id: "id2".to_string(),
        title: "Second Entry".to_string(),
        username: Some("user2".to_string()),
        password: Some("password2".to_string()),
        url: Some("https://example.com/2".to_string()),
        note: Some("Second test entry".to_string()),
    };

    store.save(&entry1.id.clone(), &entry1).unwrap();
    store.save(&entry2.id.clone(), &entry2).unwrap();

    let filter = MatchNoneFilter;
    let results = store.search(&filter).unwrap();

    assert!(results.is_empty());
}

#[test]
fn test_search_match_specific_title() {
    let mut store = IndexedBinaryFileEntryStore::new();

    let entry1 = Entry {
        id: "id1".to_string(),
        title: "First Entry".to_string(),
        username: Some("user1".to_string()),
        password: Some("password1".to_string()),
        url: Some("https://example.com/1".to_string()),
        note: Some("First test entry".to_string()),
    };
    let entry2 = Entry {
        id: "id2".to_string(),
        title: "Second Entry".to_string(),
        username: Some("user2".to_string()),
        password: Some("password2".to_string()),
        url: Some("https://example.com/2".to_string()),
        note: Some("Second test entry".to_string()),
    };

    store.save(&entry1.id.clone(), &entry1).unwrap();
    store.save(&entry2.id.clone(), &entry2).unwrap();

    let filter = TitleFilter { title: "First Entry".to_string() };
    let results = store.search(&filter).unwrap();

    assert_eq!(results.len(), 1);
    assert!(results.contains(&entry1));
}

#[test]
fn test_search_empty_store() {
    let store = IndexedBinaryFileEntryStore::new();

    let filter = MatchAllFilter;
    let results = store.search(&filter).unwrap();

    assert!(results.is_empty());
}

#[test]
fn test_search_order_is_write_offset_order() {
    let mut store = IndexedBinaryFileEntryStore::new();
    let a = entry("a", "A");
    let b = entry("b", "B");
    let c = entry("c", "C");
    store.save(&a.id.clone(), &a).unwrap();
    store.save(&b.id.clone(), &b).unwrap();
    store.save(&c.id.clone(), &c).unwrap();
    // Re-saving moves the entry's bytes to the end of the data image.
    let b2 = entry("b", "B again");
    store.save(&b2.id.clone(), &b2).unwrap();

    let results = store.search(&MatchAllFilter).unwrap();
    assert_eq!(results.len(), 3);
    assert_eq!(results[0], a);
    assert_eq!(results[1], c);
    assert_eq!(results[2], b2);
}

#[test]
fn test_needs_index_rewrite_after_save() {
    let mut store = IndexedBinaryFileEntryStore::new();

    let entry = Entry {
        id: "test_id".to_string(),
        title: "Test Title".to_string(),
        username: Some("test_user".to_string()),
        password: Some("test_password".to_string()),
        url: Some("https://example.com".to_string()),
        note: Some("This is a test entry".to_string()),
    };
    store.save(&entry.id.clone(), &entry).unwrap();

    assert!(store.needs_index_rewrite());
}

#[test]
fn test_needs_index_rewrite_cleared_after_rewrite() {
    let mut store = IndexedBinaryFileEntryStore::new();

    let entry = Entry {
        id: "test_id".to_string(),
        title: "Test Title".to_string(),
        username: Some("test_user".to_string()),
        password: Some("test_password".to_string()),
        url: Some("https://example.com".to_string()),
        note: Some("This is a test entry".to_string()),
    };
    store.save(&entry.id.clone(), &entry).unwrap();

    store.rewrite_index().unwrap();

    assert!(!store.needs_index_rewrite());
}

#[test]
fn test_needs_data_rewrite_after_delete() {
    let mut store = IndexedBinaryFileEntryStore::new();

    let entry = Entry {
        id: "test_id".to_string(),
        title: "Test Title".to_string(),
        username: Some("test_user".to_string()),
        password: Some("test_password".to_string()),
        url: Some("https://example.com".to_string()),
        note: Some("This is a test entry".to_string()),
    };
    store.save(&entry.id.clone(), &entry).unwrap();

    store.delete(&entry.id).unwrap();

    assert!(store.needs_data_rewrite());
}

#[test]
fn test_needs_data_rewrite_cleared_after_rewrite() {
    let mut store = IndexedBinaryFileEntryStore::new();

    let entry = Entry {
        id: "test_id".to_string(),
        title: "Test Title".to_string(),
        username: Some("test_user".to_string()),
        password: Some("test_password".to_string()),
        url: Some("https://example.com".to_string()),
        note: Some("This is a test entry".to_string()),
    };
    store.save(&entry.id.clone(), &entry).unwrap();
    store.delete(&entry.id).unwrap();

    store.write_data().unwrap();

    assert!(!store.needs_data_rewrite());
}

#[test]
fn test_needs_index_rewrite_unchanged_without_modifications() {
    let store = IndexedBinaryFileEntryStore::new();
    assert!(!store.needs_index_rewrite());
}

#[test]
fn test_needs_data_rewrite_unchanged_without_deletions() {
    let mut store = IndexedBinaryFileEntryStore::new();

    let entry = Entry {
        id: "test_id".to_string(),
        title: "Test Title".to_string(),
        username: Some("test_user".to_string()),
        password: Some("test_password".to_string()),
        url: Some("https://example.com".to_string()),
        note: Some("This is a test entry".to_string()),
    };
    store.save(&entry.id.clone(), &entry).unwrap();

    assert!(!store.needs_data_rewrite());
}

#[test]
fn test_fresh_store_has_clean_flags() {
    let store = IndexedBinaryFileEntryStore::new();
    assert!(!store.needs_index_rewrite());
    assert!(!store.needs_data_rewrite());
}

#[test]
fn test_rewrite_then_noop_reload_keeps_flag_clear() {
    let mut store = IndexedBinaryFileEntryStore::new();
    let e = entry("k", "v");
    store.save(&e.id.clone(), &e).unwrap();
    store.rewrite_index().unwrap();
    store.reload_index();
    assert!(!store.needs_index_rewrite());
    assert_eq!(store.load(&e.id).unwrap(), Some(e));
}

#[test]
fn test_oversized_id_is_rejected_not_truncated() {
    let mut store = IndexedBinaryFileEntryStore::new();
    // The slot leaves 52 - 24 = 28 bytes for the id itself.
    let long_id = "x".repeat(29);
    let e = Entry {
        id: long_id.clone(),
        title: "too wide".to_string(),
        username: None,
        password: None,
        url: None,
        note: None,
    };
    store.save(&long_id, &e).unwrap();

    let before = store.index_file_image().clone();
    let result = store.rewrite_index();
    assert_eq!(result, Err(BinaryStoreError::IndexRecordTooLarge));
    // Nothing half-written, and the flag still set.
    assert_eq!(store.index_file_image(), &before);
    assert!(store.needs_index_rewrite());
}

#[test]
fn test_widest_fitting_id_is_accepted() {
    let mut store = IndexedBinaryFileEntryStore::new();
    let id = "y".repeat(28);
    let e = entry(&id, "just fits");
    store.save(&id, &e).unwrap();
    store.rewrite_index().unwrap();
    assert_eq!(store.index_file_image().len(), INDEX_RECORD_SIZE);
}

#[test]
fn test_truncated_index_image_reloads_to_nothing() {
    // Fail-soft: a short trailing slot leaves the in-memory table as it
    // was.
    let mut store = IndexedBinaryFileEntryStore::from_images(Vec::new(), vec![0u8; 10]);
    store.reload_index();
    assert!(store.load(&"any".to_string()).unwrap().is_none());
}

#[test]
fn test_index_iterator_reads_slots_back() {
    let mut store = IndexedBinaryFileEntryStore::new();
    let e1 = entry("one", "1");
    let e2 = entry("two", "2");
    store.save(&e1.id.clone(), &e1).unwrap();
    store.save(&e2.id.clone(), &e2).unwrap();
    store.rewrite_index().unwrap();

    let mut it = BinaryIndexIterator::new(store.index_file_image().clone(), INDEX_RECORD_SIZE);
    let s1 = it.next().unwrap().unwrap();
    assert_eq!(s1.id().as_str(), "one");
    let s2 = it.next().unwrap().unwrap();
    assert_eq!(s2.id().as_str(), "two");
    assert!(s2.position().offset > s1.position().offset);
    assert!(it.next().is_none());
}

#[test]
fn test_index_iterator_reports_short_slot() {
    let mut it = BinaryIndexIterator::new(vec![0u8; 10], INDEX_RECORD_SIZE);
    assert_eq!(it.next().unwrap().unwrap_err(), BinaryStoreError::IoError);
    assert!(it.next().is_none());
}

#[test]
fn test_index_iterator_reports_undecodable_slot() {
    let mut it = BinaryIndexIterator::new(vec![0xffu8; 52], INDEX_RECORD_SIZE);
    assert_eq!(
        it.next().unwrap().unwrap_err(),
        BinaryStoreError::SerializationError
    );
}

#[test]
fn test_indexed_scenario_delete_then_compact() {
    let mut store = IndexedBinaryFileEntryStore::new();
    let e1 = entry("1", "A");
    let e2 = entry("2", "B");
    store.save(&"1".to_string(), &e1).unwrap();
    store.save(&"2".to_string(), &e2).unwrap();
    store.delete(&"1".to_string()).unwrap();

    let results = store.search(&MatchAllFilter).unwrap();
    assert_eq!(results, vec![e2.clone()]);
    assert!(store.needs_data_rewrite());

    store.write_data().unwrap();
    assert!(!store.needs_data_rewrite());
    assert_eq!(store.load(&"2".to_string()).unwrap(), Some(e2));
}

#[test]
fn test_compaction_reclaims_garbage() {
    let mut store = IndexedBinaryFileEntryStore::new();
    let e1 = entry("1", "A");
    let e2 = entry("2", "B");
    store.save(&"1".to_string(), &e1).unwrap();
    store.save(&"2".to_string(), &e2).unwrap();
    store.delete(&"1".to_string()).unwrap();
    let before = store.data_image().len();

    store.write_data().unwrap();
    assert!(store.data_image().len() < before);
    assert_eq!(store.load(&"2".to_string()).unwrap(), Some(e2));
    assert!(store.load(&"1".to_string()).unwrap().is_none());
}

#[test]
fn test_compaction_must_be_followed_by_index_rewrite() {
    // write_data leaves the persisted index pointing at stale offsets;
    // only a rewrite_index catches it up.
    let mut store = IndexedBinaryFileEntryStore::new();
    let e1 = entry("1", "A");
    let e2 = entry("2", "B");
    store.save(&"1".to_string(), &e1).unwrap();
    store.save(&"2".to_string(), &e2).unwrap();
    store.rewrite_index().unwrap();
    store.delete(&"1".to_string()).unwrap();
    store.write_data().unwrap();

    let stale = store.index_file_image().clone();
    store.rewrite_index().unwrap();
    assert_ne!(store.index_file_image(), &stale);
    assert_eq!(store.load(&"2".to_string()).unwrap(), Some(e2));
}

#[test]
fn test_exact_data_and_slot_layout() {
    let mut store = IndexedBinaryFileEntryStore::new();
    let e = entry("a", "b");
    store.save(&e.id.clone(), &e).unwrap();

    // One bare serialized entry: id "a" (8 + 1) + title "b" (8 + 1) +
    // four absent-field tags.
    let data = store.data_image();
    assert_eq!(data.len(), 22);
    assert_eq!(data[0..8], [1u8, 0, 0, 0, 0, 0, 0, 0]);
    assert_eq!(data[8], b'a');
    assert_eq!(data[9..17], [1u8, 0, 0, 0, 0, 0, 0, 0]);
    assert_eq!(data[17], b'b');
    assert_eq!(data[18..22], [0u8, 0, 0, 0]);

    store.rewrite_index().unwrap();
    let slot = store.index_file_image();
    // One 52-byte slot: id "a" (8 + 1), offset 0 (8), length 22 (8), the
    // rest zero padding.
    assert_eq!(slot.len(), 52);
    assert_eq!(slot[0..8], [1u8, 0, 0, 0, 0, 0, 0, 0]);
    assert_eq!(slot[8], b'a');
    assert_eq!(slot[9..17], [0u8; 8]);
    assert_eq!(slot[17..25], [22u8, 0, 0, 0, 0, 0, 0, 0]);
    assert_eq!(slot[25..52], [0u8; 27]);
}
