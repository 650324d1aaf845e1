use entry_store::binary_file_entry_store::BinaryFileEntryStore;
use entry_store::binary_store_error::BinaryStoreError;
use entry_store::data_store::DataStore;
use entry_store::indexed_binary_file_entry_store::IndexedBinaryFileEntryStore;
use entry_store::model::Entry;

fn save_load_delete<S: DataStore<String, Entry, BinaryStoreError>>(
    store: &mut S,
    e: &Entry,
) -> (Option<Entry>, Option<Entry>) {
    store.save(&e.id, e).unwrap();
    let after_save = store.load(&e.id).unwrap();
    store.delete(&e.id).unwrap();
    let after_delete = store.load(&e.id).unwrap();
    (after_save, after_delete)
}

#[test]
fn test_both_engines_through_the_contract() {
    let e = Entry {
        id: "shared".to_string(),
        title: "same surface".to_string(),
        username: Some("u".to_string()),
        password: Some("p".to_string()),
        url: None,
        note: None,
    };

    let mut full = BinaryFileEntryStore::new();
    let (found, gone) = save_load_delete(&mut full, &e);
    assert_eq!(found, Some(e.clone()));
    assert_eq!(gone, None);

    let mut indexed = IndexedBinaryFileEntryStore::new();
    let (found, gone) = save_load_delete(&mut indexed, &e);
    assert_eq!(found, Some(e));
    assert_eq!(gone, None);
}
