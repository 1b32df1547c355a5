use hash_db::key_dir::{bootstrap, KeyDir};
use hash_db::message::{ExecOutcome, Message};
use hash_db::page::PageInner;
use hash_db::page_manager::PageCache;
use std::collections::HashMap;

struct Store {
    cache: PageCache,
    dir: KeyDir,
    disk: HashMap<u32, Vec<u8>>,
    page_size: usize,
    slots: usize,
    now: u64,
}

fn new_store(page_size: usize, slots: usize) -> Store {
    Store {
        cache: PageCache::new(2, PageInner::new(0, page_size), slots),
        dir: KeyDir::new(),
        disk: HashMap::new(),
        page_size,
        slots,
        now: 1,
    }
}

/// One wire line in, the reply bytes out, with the disk played by a map.
fn send(store: &mut Store, line: &str) -> Vec<u8> {
    let m = Message::parse(line.as_bytes()).expect("complete line");
    store.now += 1;
    let reply = match m.exec(&mut store.cache, &mut store.dir, store.now) {
        ExecOutcome::Done(reply, job) => {
            if let Some((id, bytes)) = job {
                store.disk.insert(id, bytes);
            }
            reply
        },
        ExecOutcome::NeedPage(pid) => {
            let bytes = store.disk.get(&pid).expect("page on disk").clone();
            m.exec_loaded(&mut store.cache, &store.dir, bytes)
        },
    };
    reply.reply_bytes()
}

/// Flush the tail, then rebuild directory and cache from the disk image,
/// as a process restart does.
fn restart(store: &mut Store) {
    let (id, bytes) = store.cache.flush_current();
    store.disk.insert(id, bytes);
    let n = store.disk.keys().max().map(|m| m + 1).unwrap_or(0);
    let mut pages: Vec<Vec<u8>> = Vec::new();
    for i in 0..n {
        pages.push(store.disk.get(&i).expect("contiguous pages").clone());
    }
    let (dir, cache) = bootstrap(&pages, store.page_size, 2, store.slots);
    store.dir = dir;
    store.cache = cache;
}

#[test]
fn insert_get_delete_round() {
    let mut s = new_store(4096, 8);
    assert_eq!(send(&mut s, "insert foo bar\n"), b"Success\n".to_vec());
    assert_eq!(send(&mut s, "get foo\n"), b"foo bar\n".to_vec());
    assert_eq!(send(&mut s, "delete foo\n"), b"Success\n".to_vec());
    assert_eq!(send(&mut s, "get foo\n"), Vec::<u8>::new());
}

#[test]
fn overwrite_then_delete() {
    let mut s = new_store(4096, 8);
    assert_eq!(send(&mut s, "insert k v1\n"), b"Success\n".to_vec());
    assert_eq!(send(&mut s, "insert k v2\n"), b"Success\n".to_vec());
    assert_eq!(send(&mut s, "get k\n"), b"k v2\n".to_vec());
    assert_eq!(send(&mut s, "delete k\n"), b"Success\n".to_vec());
    assert_eq!(send(&mut s, "get k\n"), Vec::<u8>::new());
}

#[test]
fn delete_of_absent_key_still_succeeds() {
    let mut s = new_store(4096, 8);
    assert_eq!(send(&mut s, "delete nothing\n"), b"Success\n".to_vec());
    assert_eq!(send(&mut s, "get nothing\n"), Vec::<u8>::new());
}

#[test]
fn many_keys_round_trip() {
    let mut s = new_store(4096, 8);
    let n: usize = 3000;
    for i in 0..n {
        let reply = send(&mut s, &format!("insert key_{} value_{}\n", i, i));
        assert_eq!(reply, b"Success\n".to_vec(), "insert {} not acknowledged", i);
    }
    // read each key back in a different order: step 7 is coprime to 3000
    for j in 0..n {
        let i = (j * 7 + 13) % n;
        let reply = send(&mut s, &format!("get key_{}\n", i));
        assert_eq!(reply, format!("key_{} value_{}\n", i, i).into_bytes());
    }
}

#[test]
fn restart_recovers_every_key() {
    let mut s = new_store(256, 8);
    // three pages of 256 bytes fill after a handful of ~35-byte records
    let n: usize = 24;
    for i in 0..n {
        assert_eq!(send(&mut s, &format!("insert k{:02} v{:02}\n", i, i)), b"Success\n".to_vec());
    }
    // overwrite a few so the latest value must win after the restart
    assert_eq!(send(&mut s, "insert k03 fresh\n"), b"Success\n".to_vec());
    assert_eq!(send(&mut s, "insert k17 fresh\n"), b"Success\n".to_vec());
    assert_eq!(send(&mut s, "delete k09\n"), b"Success\n".to_vec());
    assert!(s.disk.len() >= 3, "expected at least three sealed pages, got {}", s.disk.len());

    restart(&mut s);

    for i in 0..n {
        let expected = match i {
            3 | 17 => format!("k{:02} fresh\n", i).into_bytes(),
            9 => Vec::new(),
            _ => format!("k{:02} v{:02}\n", i, i).into_bytes(),
        };
        assert_eq!(send(&mut s, &format!("get k{:02}\n", i)), expected, "key {}", i);
    }
}

#[test]
fn small_cache_serves_many_pages() {
    // two read slots, many distinct keys spread over well more than ten
    // pages; every get returns the value most recently inserted
    let mut s = new_store(256, 2);
    let n: usize = 120;
    for i in 0..n {
        assert_eq!(send(&mut s, &format!("insert key{:03} val{:03}\n", i, i)), b"Success\n".to_vec());
    }
    for i in 0..n {
        if i % 3 == 0 {
            assert_eq!(send(&mut s, &format!("insert key{:03} new{:03}\n", i, i)), b"Success\n".to_vec());
        }
    }
    assert!(s.disk.len() >= 10, "expected at least ten sealed pages, got {}", s.disk.len());
    for j in 0..n {
        let i = (j * 49 + 31) % n; // 49 is coprime to 120
        let expected = if i % 3 == 0 {
            format!("key{:03} new{:03}\n", i, i).into_bytes()
        } else {
            format!("key{:03} val{:03}\n", i, i).into_bytes()
        };
        assert_eq!(send(&mut s, &format!("get key{:03}\n", i)), expected, "key {}", i);
    }
}

#[test]
fn three_clients_disjoint_ranges() {
    // three clients, each with a disjoint range of 1000 keys; their
    // inserts are interleaved, then their reads are interleaved
    let mut s = new_store(4096, 8);
    let per_client: usize = 1000;
    for i in 0..per_client {
        for c in 0..3 {
            let reply = send(&mut s, &format!("insert c{}k{} c{}v{}\n", c, i, c, i));
            assert_eq!(reply, b"Success\n".to_vec());
        }
    }
    for i in 0..per_client {
        for c in 0..3 {
            let reply = send(&mut s, &format!("get c{}k{}\n", c, i));
            assert_eq!(reply, format!("c{}k{} c{}v{}\n", c, i, c, i).into_bytes());
        }
    }
}

#[test]
fn oversized_record_is_refused() {
    let mut s = new_store(64, 2);
    let long = "x".repeat(100);
    assert_eq!(send(&mut s, &format!("insert big {}\n", long)), Vec::<u8>::new());
    assert_eq!(send(&mut s, "get big\n"), Vec::<u8>::new());
    assert_eq!(send(&mut s, "insert ok v\n"), b"Success\n".to_vec());
    assert_eq!(send(&mut s, "get ok\n"), b"ok v\n".to_vec());
}

#[test]
fn parse_commands() {
    assert_eq!(Message::parse(b"insert foo bar\n"), Some(Message::Insert(b"foo".to_vec(), b"bar".to_vec())));
    assert_eq!(Message::parse(b"delete foo\n"), Some(Message::Delete(b"foo".to_vec())));
    assert_eq!(Message::parse(b"get foo\n"), Some(Message::Get(b"foo".to_vec())));
    assert_eq!(Message::parse(b"\nrest"), Some(Message::Ignore(1)));
    assert_eq!(Message::parse(b"insert foo"), None);
    assert_eq!(Message::parse(b"get"), None);
    assert_eq!(Message::parse(b"nonsense here\n"), Some(Message::Ignore(14)));
}

#[test]
fn message_lengths() {
    assert_eq!(Message::parse(b"insert foo bar\n").unwrap().len(), 9 + 3 + 3);
    assert_eq!(Message::parse(b"get foo\n").unwrap().len(), 5 + 3);
    assert_eq!(Message::parse(b"delete foo\n").unwrap().len(), 7 + 3);
    assert_eq!(Message::Success.len(), 8);
    assert_eq!(Message::Empty.len(), 0);
}

#[test]
fn reply_bytes_on_the_wire() {
    assert_eq!(Message::Success.reply_bytes(), b"Success\n".to_vec());
    assert_eq!(
        Message::Reply(b"foo".to_vec(), b"bar".to_vec()).reply_bytes(),
        b"foo bar\n".to_vec()
    );
    assert_eq!(Message::Empty.reply_bytes(), Vec::<u8>::new());
    assert_eq!(Message::Ignore(3).reply_bytes(), Vec::<u8>::new());
}

#[test]
fn get_without_any_read_slot_is_a_transient_miss() {
    // a pool with no read slots cannot load a sealed page: the reply is
    // empty, but the key itself stays live
    let mut s = new_store(64, 0);
    assert_eq!(send(&mut s, "insert aa bb\n"), b"Success\n".to_vec());
    // roll the tail a few times so the first page is sealed
    assert_eq!(send(&mut s, "insert cc dd\n"), b"Success\n".to_vec());
    assert_eq!(send(&mut s, "insert ee ff\n"), b"Success\n".to_vec());
    assert_eq!(send(&mut s, "get aa\n"), Vec::<u8>::new());
    // the most recent key sits on the current page and is still served
    assert_eq!(send(&mut s, "get ee\n"), b"ee ff\n".to_vec());
}
