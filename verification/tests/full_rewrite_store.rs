use entry_store::binary_file_entry_store::BinaryFileEntryStore;
use entry_store::binary_record_iterator::BinaryRecordIterator;
use entry_store::binary_store_error::BinaryStoreError;
use entry_store::codec::{decode_entry_at, decode_record_at, encode_entry, encode_record};
use entry_store::data_store::Filter;
use entry_store::model::{Entry, EntryV};

struct TitleFilter {
    keyword: String,
}

impl Filter<Entry> for TitleFilter {
    // Ghost half of the trait; never called at run time.
    fn spec_pass(&self, _v: EntryV) -> bool {
        true
    }

    fn pass(&self, entry: &Entry) -> bool {
        entry.title.contains(&self.keyword)
    }
}

struct MatchAll;

impl Filter<Entry> for MatchAll {
    // Ghost half of the trait; never called at run time.
    fn spec_pass(&self, _v: EntryV) -> bool {
        true
    }

    fn pass(&self, _entry: &Entry) -> bool {
        true
    }
}

#[test]
fn test_save_and_load() {
    let mut store = BinaryFileEntryStore::new();

    let entry = Entry {
        id: "1".to_string(),
        title: "Test Entry".to_string(),
        username: Some("user1".to_string()),
        password: Some("pass1".to_string()),
        url: Some("http://example.com".to_string()),
        note: Some("This is a note".to_string()),
    };

    let _ = store.save(&entry.id.clone(), &entry);

    let loaded_entry = store.load(&entry.id).unwrap();

    assert_eq!(loaded_entry, Some(entry));
}

#[test]
fn test_delete() {
    let mut store = BinaryFileEntryStore::new();

    let entry = Entry {
        id: "1".to_string(),
        title: "Entry to delete".to_string(),
        username: Some("user1".to_string()),
        password: None,
        url: None,
        note: None,
    };

    store.save(&entry.id.clone(), &entry).unwrap();
    store.delete(&entry.id).unwrap();

    let loaded_entry = store.load(&entry.id).unwrap();
    assert!(loaded_entry.is_none());
}

#[test]
fn test_search() {
    let mut store = BinaryFileEntryStore::new();

    let entry1 = Entry {
        id: "1".to_string(),
        title: "Searchable Entry 1".to_string(),
        username: Some("user1".to_string()),
        password: Some("pass1".to_string()),
        url: None,
        note: None,
    };

    let entry2 = Entry {
        id: "2".to_string(),
        title: "Another Searchable Entry".to_string(),
        username: Some("user2".to_string()),
        password: Some("pass2".to_string()),
        url: None,
        note: None,
    };

    let entry3 = Entry {
        id: "3".to_string(),
        title: "Non-Matching Entry".to_string(),
        username: None,
        password: None,
        url: None,
        note: None,
    };

    store.save(&entry1.id.clone(), &entry1).unwrap();
    store.save(&entry2.id.clone(), &entry2).unwrap();
    store.save(&entry3.id.clone(), &entry3).unwrap();

    let filter = TitleFilter { keyword: "Searchable".to_string() };

    let results = store.search(&filter).unwrap();
    assert_eq!(results.len(), 2);
    assert!(results.contains(&entry1));
    assert!(results.contains(&entry2));
}

#[test]
fn test_load_nonexistent_entry() {
    let store = BinaryFileEntryStore::new();

    let loaded_entry = store.load(&"nonexistent".to_string()).unwrap();
    assert!(loaded_entry.is_none());
}

#[test]
fn test_save_and_load_unicode() {
    let mut store = BinaryFileEntryStore::new();

    let entry = Entry {
        id: "schlüssel-1".to_string(),
        title: "Pässwörter — 資格情報".to_string(),
        username: Some("ünïcode".to_string()),
        password: Some("säcret".to_string()),
        url: None,
        note: Some("ノート".to_string()),
    };

    store.save(&entry.id.clone(), &entry).unwrap();
    let loaded = store.load(&entry.id).unwrap();
    assert_eq!(loaded, Some(entry));
}

#[test]
fn test_save_twice_keeps_latest() {
    let mut store = BinaryFileEntryStore::new();

    let first = Entry {
        id: "k".to_string(),
        title: "old".to_string(),
        username: None,
        password: None,
        url: None,
        note: None,
    };
    let second = Entry {
        id: "k".to_string(),
        title: "new".to_string(),
        username: None,
        password: None,
        url: None,
        note: None,
    };

    store.save(&first.id.clone(), &first).unwrap();
    store.save(&second.id.clone(), &second).unwrap();

    let loaded = store.load(&"k".to_string()).unwrap().unwrap();
    assert_eq!(loaded.title, "new");

    let results = store.search(&MatchAll).unwrap();
    assert_eq!(results.len(), 1);
    assert_eq!(results[0], second);
}

#[test]
fn test_truncated_image_is_io_error() {
    let mut store = BinaryFileEntryStore::new();
    let entry = Entry {
        id: "1".to_string(),
        title: "will be cut".to_string(),
        username: None,
        password: None,
        url: None,
        note: None,
    };
    store.save(&entry.id.clone(), &entry).unwrap();

    let mut image = store.image().clone();
    image.pop();
    let cut = BinaryFileEntryStore::from_image(image);

    assert_eq!(cut.load(&"other".to_string()), Err(BinaryStoreError::IoError));
    assert_eq!(cut.search(&MatchAll), Err(BinaryStoreError::IoError));
    let mut cut2 = cut;
    assert_eq!(cut2.save(&entry.id.clone(), &entry), Err(BinaryStoreError::IoError));
}

#[test]
fn test_short_length_prefix_is_io_error() {
    let store = BinaryFileEntryStore::from_image(vec![1, 2, 3]);
    assert_eq!(store.load(&"x".to_string()), Err(BinaryStoreError::IoError));
}

#[test]
fn test_undecodable_record_is_serialization_error() {
    // One frame whose single payload byte is no record.
    let image = vec![1, 0, 0, 0, 0, 0, 0, 0, 7];
    let store = BinaryFileEntryStore::from_image(image);
    assert_eq!(
        store.load(&"x".to_string()),
        Err(BinaryStoreError::SerializationError)
    );
    assert_eq!(store.search(&MatchAll), Err(BinaryStoreError::SerializationError));
}

#[test]
fn test_record_iterator_walks_the_image() {
    let mut store = BinaryFileEntryStore::new();
    let entry1 = Entry {
        id: "a".to_string(),
        title: "first".to_string(),
        username: None,
        password: None,
        url: None,
        note: None,
    };
    let entry2 = Entry {
        id: "b".to_string(),
        title: "second".to_string(),
        username: Some("u".to_string()),
        password: None,
        url: None,
        note: None,
    };
    store.save(&entry1.id.clone(), &entry1).unwrap();
    store.save(&entry2.id.clone(), &entry2).unwrap();

    let mut it = BinaryRecordIterator::new(store.image().clone());
    let (k1, e1) = it.next().unwrap().unwrap();
    assert_eq!(k1, "a");
    assert_eq!(e1, entry1);
    let (k2, e2) = it.next().unwrap().unwrap();
    assert_eq!(k2, "b");
    assert_eq!(e2, entry2);
    assert!(it.next().is_none());
}

#[test]
fn test_record_iterator_reports_truncation() {
    let mut store = BinaryFileEntryStore::new();
    let entry = Entry {
        id: "a".to_string(),
        title: "first".to_string(),
        username: None,
        password: None,
        url: None,
        note: None,
    };
    store.save(&entry.id.clone(), &entry).unwrap();

    let mut image = store.image().clone();
    image.pop();
    let mut it = BinaryRecordIterator::new(image);
    assert_eq!(
        it.next().unwrap().unwrap_err(),
        BinaryStoreError::IoError
    );
    assert!(it.next().is_none());
}

#[test]
fn test_codec_round_trip() {
    let entry = Entry {
        id: "some-id".to_string(),
        title: "title".to_string(),
        username: Some("user".to_string()),
        password: None,
        url: Some("https://example.net".to_string()),
        note: None,
    };

    let bytes = encode_entry(&entry);
    let (decoded, used) = decode_entry_at(&bytes, 0).unwrap();
    assert_eq!(decoded, entry);
    assert_eq!(used, bytes.len());

    let key = "stored-under".to_string();
    let rec = encode_record(&key, &entry);
    let (k, e, used2) = decode_record_at(&rec, 0).unwrap();
    assert_eq!(k, key);
    assert_eq!(e, entry);
    assert_eq!(used2, rec.len());
}

#[test]
fn test_codec_rejects_truncated_entry() {
    let entry = Entry {
        id: "id".to_string(),
        title: "title".to_string(),
        username: None,
        password: None,
        url: None,
        note: None,
    };
    let mut bytes = encode_entry(&entry);
    bytes.pop();
    assert!(decode_entry_at(&bytes, 0).is_none());
}

#[test]
fn test_exact_frame_layout() {
    let mut store = BinaryFileEntryStore::new();
    let entry = Entry {
        id: "a".to_string(),
        title: "b".to_string(),
        username: None,
        password: None,
        url: None,
        note: None,
    };
    store.save(&entry.id.clone(), &entry).unwrap();

    let image = store.image();
    // Payload: key "a" (8 + 1) + entry (8 + 1 + 8 + 1 + four absent-field
    // tags) = 31 bytes; the frame adds an 8-byte little-endian length.
    assert_eq!(image.len(), 39);
    assert_eq!(image[0..8], [31u8, 0, 0, 0, 0, 0, 0, 0]);
    assert_eq!(image[8..16], [1u8, 0, 0, 0, 0, 0, 0, 0]);
    assert_eq!(image[16], b'a');
}
