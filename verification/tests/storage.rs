use hash_db::entry::{Entry, EntryType};
use hash_db::key_dir::{bootstrap, KeyData, KeyDir};
use hash_db::page::{PageError, PageInner};
use hash_db::page_manager::{FetchResult, PageCache};
use hash_db::replacer::{LRUKNode, LRUKReplacer};

const PAGE_SIZE: usize = 256;

#[test]
fn codec_round_trip() {
    let e = Entry::new(b"hello", b"world!", EntryType::Put, 77);
    assert_eq!(e.len(), 25 + 5 + 6);
    let bytes = e.as_bytes();
    assert_eq!(bytes.len(), e.len());
    assert_eq!(bytes[0], 0);
    let mut page = PageInner::new(0, PAGE_SIZE);
    page.write_entry(&e).expect("fits");
    let got = page.read_entry(0).expect("decodes");
    assert_eq!(got, e);
}

#[test]
fn codec_fields_survive() {
    let e = Entry::new(b"k", b"", EntryType::Delete, 3);
    let mut page = PageInner::new(0, PAGE_SIZE);
    page.write_entry(&e).expect("fits");
    let got = page.read_entry(0).expect("decodes");
    assert_eq!(got.t, EntryType::Delete);
    assert_eq!(got.time, 3);
    assert_eq!(got.key, b"k".to_vec());
    assert_eq!(got.value, Vec::<u8>::new());
}

#[test]
fn codec_zero_time_is_reserved() {
    // A clock reading of zero is recorded as one second, so the record is
    // never mistaken for the padding sentinel.
    let e = Entry::new(b"", b"", EntryType::Put, 0);
    assert_eq!(e.time, 1);
}

#[test]
fn decode_sentinel_is_none() {
    let page = PageInner::new(0, PAGE_SIZE);
    assert!(page.read_entry(0).is_none());
    // fewer than 25 bytes remaining
    assert!(page.read_entry(PAGE_SIZE - 10).is_none());
    // past the end
    assert!(page.read_entry(PAGE_SIZE + 1).is_none());
}

#[test]
fn decode_bad_type_byte_is_none() {
    let mut data = vec![0u8; PAGE_SIZE];
    data[0] = 7; // no such record type
    data[8] = 1; // time = 1
    let page = PageInner::from_bytes(0, data);
    assert!(page.read_entry(0).is_none());
}

#[test]
fn decode_overlong_record_is_none() {
    let mut data = vec![0u8; PAGE_SIZE];
    data[0] = 0;
    data[8] = 1; // time = 1
    data[16] = 255; // key length far beyond the page
    let page = PageInner::from_bytes(0, data);
    assert!(page.read_entry(0).is_none());
}

#[test]
fn page_append_offsets_are_prefix_sums() {
    let mut page = PageInner::new(0, PAGE_SIZE);
    let a = Entry::new(b"a", b"1", EntryType::Put, 9); // 27 bytes
    let b = Entry::new(b"bb", b"22", EntryType::Put, 9); // 29 bytes
    let c = Entry::new(b"ccc", b"333", EntryType::Put, 9); // 31 bytes
    assert_eq!(page.write_entry(&a).unwrap(), 0);
    assert_eq!(page.write_entry(&b).unwrap(), 27);
    assert_eq!(page.write_entry(&c).unwrap(), 27 + 29);
    assert_eq!(page.read_entry(0).unwrap(), a);
    assert_eq!(page.read_entry(27).unwrap(), b);
    assert_eq!(page.read_entry(27 + 29).unwrap(), c);
}

#[test]
fn page_append_beyond_capacity_fails_and_changes_nothing() {
    let mut page = PageInner::new(0, 64);
    let a = Entry::new(b"key", b"val", EntryType::Put, 9); // 31 bytes
    assert_eq!(page.write_entry(&a).unwrap(), 0);
    assert_eq!(page.write_entry(&a).unwrap(), 31); // 62 bytes used
    let big = Entry::new(b"other", b"value", EntryType::Put, 9); // 35 bytes
    assert_eq!(page.write_entry(&big), Err(PageError::NotEnoughSpace));
    // the page is unchanged: both records still decode, offsets unchanged
    assert_eq!(page.read_entry(0).unwrap(), a);
    assert_eq!(page.read_entry(31).unwrap(), a);
}

#[test]
fn page_reload_derives_length_in_strides() {
    let mut page = PageInner::new(5, PAGE_SIZE);
    let a = Entry::new(b"key1", b"value1", EntryType::Put, 9); // 35 bytes
    assert_eq!(page.write_entry(&a).unwrap(), 0);
    let mut reloaded = PageInner::from_bytes(5, page.data_copy());
    assert_eq!(reloaded.id(), 5);
    // 35 bytes written; the derived length rounds up to the next 8-byte
    // stride, so the next record lands at 40
    let b = Entry::new(b"key2", b"value2", EntryType::Put, 9);
    assert_eq!(reloaded.write_entry(&b).unwrap(), 40);
    assert_eq!(reloaded.read_entry(0).unwrap(), a);
    assert_eq!(reloaded.read_entry(40).unwrap(), b);
}

#[test]
fn page_reset_zeroes() {
    let mut page = PageInner::new(3, PAGE_SIZE);
    let a = Entry::new(b"key", b"val", EntryType::Put, 9);
    page.write_entry(&a).unwrap();
    page.reset();
    assert_eq!(page.id(), 3);
    assert!(page.read_entry(0).is_none());
    assert_eq!(page.write_entry(&a).unwrap(), 0);
}

#[test]
fn key_dir_insert_get_remove() {
    let mut dir = KeyDir::new();
    assert!(dir.get(b"k").is_none());
    assert_eq!(dir.insert(b"k", KeyData::new(1, 10)), None);
    assert_eq!(dir.get(b"k"), Some(KeyData::new(1, 10)));
    assert_eq!(dir.insert(b"k", KeyData::new(2, 0)), Some(KeyData::new(1, 10)));
    assert_eq!(dir.get(b"k"), Some(KeyData::new(2, 0)));
    assert_eq!(dir.key_count(), 1);
    assert_eq!(dir.remove(b"k"), Some(KeyData::new(2, 0)));
    assert!(dir.get(b"k").is_none());
    assert_eq!(dir.remove(b"k"), None);
    assert_eq!(dir.key_count(), 0);
}

#[test]
fn lru_k_node_distance() {
    let node = LRUKNode::new(4, 10);
    assert_eq!(node.get_k_distance(2), None);
    assert_eq!(node.get_k_distance(1), Some(0));
    let mut r = LRUKReplacer::new(2);
    r.record_access(0); // ts 0
    r.record_access(0); // ts 1
    r.record_access(0); // ts 2
    // history [0, 1, 2]: the k-distance with k = 2 is 2 - 1 = 1
    assert_eq!(r.evict(), Some(0));
}

#[test]
fn lru_k_policy_prefers_largest_k_distance() {
    // With k = 2 and three slots, record accesses 0,1,2,0,1,0,1,0,1,2;
    // slot 2 has the largest gap between its two most recent accesses and
    // must be the victim.
    let mut r = LRUKReplacer::new(2);
    for i in [0usize, 1, 2, 0, 1, 0, 1, 0, 1, 2] {
        r.record_access(i);
    }
    assert_eq!(r.evict(), Some(2));
}

#[test]
fn lru_k_falls_back_to_earliest_single_access() {
    let mut r = LRUKReplacer::new(2);
    r.record_access(3); // ts 0, one access only
    r.record_access(1); // ts 1, one access only
    r.record_access(2); // ts 2, one access only
    assert_eq!(r.evict(), Some(3));
}

#[test]
fn pinned_slot_is_never_evicted() {
    let mut r = LRUKReplacer::new(2);
    r.record_access(0);
    r.record_access(1);
    r.pin(0);
    assert_eq!(r.evict(), Some(1));
    r.pin(1);
    assert_eq!(r.evict(), None);
    r.unpin(0);
    assert_eq!(r.evict(), Some(0));
    r.remove(0);
    assert_eq!(r.evict(), None);
}

#[test]
fn test_page_manager() {
    let m_page = PageInner::new(0, PAGE_SIZE);
    let mut m = PageCache::new(2, m_page, 8);

    let entry_a = Entry::new(b"test_keya", b"test_valuea", EntryType::Put, 11);
    let entry_b = Entry::new(b"test_keyb", b"test_valueb", EntryType::Put, 12);
    let offset_a = m.append_entry(&entry_a).expect("should not be full");
    let offset_b = m.append_entry(&entry_b).expect("should not be full");

    assert!(offset_a == 0);
    assert!(offset_b as usize == entry_a.len());

    let kda = KeyData { page_id: 0, offset: 0 };
    let kdb = KeyData { page_id: 0, offset: entry_a.len() as u64 };
    let got_a = match m.fetch_entry(&kda) {
        FetchResult::Found(e) => e,
        _ => panic!("should fetch current page"),
    };
    let got_b = match m.fetch_entry(&kdb) {
        FetchResult::Found(e) => e,
        _ => panic!("should fetch current page"),
    };

    assert!(entry_a == got_a, "\nExpected: {:?}\nGot: {:?}\n", entry_a, got_a);
    assert!(entry_b == got_b, "\nExpected: {:?}\nGot: {:?}\n", entry_b, got_b);
}

#[test]
fn test_replacer() {
    let mut disk: std::collections::HashMap<u32, Vec<u8>> = std::collections::HashMap::new();
    let mut m = PageCache::new(2, PageInner::new(0, PAGE_SIZE), 3);

    {
        let (id1, b1) = m.new_page().expect("should have space for page 1"); // ts = 0
        disk.insert(id1, b1);
        let (id2, b2) = m.new_page().expect("should have space for page 2"); // ts = 1
        disk.insert(id2, b2);
        let (id3, b3) = m.new_page().expect("should have space for page 3"); // ts = 2
        disk.insert(id3, b3);

        let kd1 = KeyData { page_id: 1, offset: 0 };
        let kd2 = KeyData { page_id: 2, offset: 0 };
        let kd3 = KeyData { page_id: 3, offset: 0 };

        m.fetch_entry(&kd1); // ts = 3
        m.fetch_entry(&kd2); // ts = 4
        m.fetch_entry(&kd1); // ts = 5

        m.fetch_entry(&kd1); // ts = 6
        m.fetch_entry(&kd2); // ts = 7
        m.fetch_entry(&kd1); // ts = 8
        m.fetch_entry(&kd2); // ts = 9

        m.fetch_entry(&kd3); // ts = 10 - least accessed, should get evicted
    }

    let (new_page_id, _) = m.new_page().expect("a page should have been evicted");
    assert!(new_page_id == 4, "Got: {}", new_page_id);

    // pages 1, 2 and 4 are resident; page 3 was evicted
    assert!(!matches!(m.fetch_entry(&KeyData { page_id: 1, offset: 0 }), FetchResult::NeedPage(_)));
    assert!(!matches!(m.fetch_entry(&KeyData { page_id: 2, offset: 0 }), FetchResult::NeedPage(_)));
    assert!(!matches!(m.fetch_entry(&KeyData { page_id: 4, offset: 0 }), FetchResult::NeedPage(_)));
    assert!(matches!(m.fetch_entry(&KeyData { page_id: 3, offset: 0 }), FetchResult::NeedPage(3)));
}

#[test]
fn test_bootstrap() {
    let entries = [
        Entry::new(b"key1", b"value1", EntryType::Put, 21),
        Entry::new(b"key2", b"value2", EntryType::Put, 22),
        Entry::new(b"key3", b"value3", EntryType::Put, 23),
        Entry::new(b"key4", b"value4", EntryType::Put, 24),
        Entry::new(b"key1", b"value1", EntryType::Delete, 25),
        Entry::new(b"key5", b"value5", EntryType::Put, 26),
        Entry::new(b"key5", b"value5", EntryType::Delete, 27),
        Entry::new(b"key4", b"latest", EntryType::Put, 28),
        Entry::new(b"key5", b"latest", EntryType::Put, 29),
    ];

    let mut pages: Vec<Vec<u8>> = Vec::new();
    let mut current_id: u32 = 0;
    let mut current = PageInner::new(current_id, PAGE_SIZE);
    for e in entries {
        if current.write_entry(&e).is_err() {
            pages.push(current.data_copy());
            current_id += 1;
            current = PageInner::new(current_id, PAGE_SIZE);
            current.write_entry(&e).expect("new current should have space");
        }
    }
    pages.push(current.data_copy());

    let (key_dir, _) = bootstrap(&pages, PAGE_SIZE, 2, 8);

    let expected = [
        (b"key2".to_vec(), KeyData { page_id: 0, offset: 35 }),
        (b"key3".to_vec(), KeyData { page_id: 0, offset: 70 }),
        (b"key4".to_vec(), KeyData { page_id: 1, offset: 0 }),
        (b"key5".to_vec(), KeyData { page_id: 1, offset: 35 }),
    ];
    assert_eq!(key_dir.key_count(), expected.len());
    for (k, kd) in expected {
        let got = key_dir.get(&k);
        assert!(got == Some(kd), "\nExpected: {:?}\n     Got: {:?}\n", Some(kd), got);
    }
    assert!(key_dir.get(b"key1").is_none());
}

#[test]
fn bootstrap_empty_file_starts_fresh() {
    let pages: Vec<Vec<u8>> = Vec::new();
    let (dir, cache) = bootstrap(&pages, PAGE_SIZE, 2, 8);
    assert_eq!(dir.key_count(), 0);
    assert_eq!(cache.current_page_id(), 0);
}
