//! The key directory: the in-memory index from each live key to the
//! location of its most recent `Put` record, as a page id and an offset
//! inside that page.

use vstd::prelude::*;
use vstd::map::*;
use crate::page::{PageID, PageInner};
use crate::page_manager::{location_valid, store_inv, value_model, PageCache};

verus! {

/// Where a key's most recent record lies.
#[derive(Debug, PartialEq, Eq, Structural, Clone, Copy)]
pub struct KeyData {
    pub page_id: PageID,
    pub offset: u64,
}

impl KeyData {
    pub fn new(page_id: PageID, offset: u64) -> (r: KeyData)
        ensures
            r.page_id == page_id,
            r.offset == offset,
    {
        KeyData { page_id, offset }
    }
}

/// Whether two byte strings hold the same bytes.
pub fn bytes_eq(a: &[u8], b: &[u8]) -> (r: bool)
    ensures
        r == (a@ == b@),
{
    let n = a.len();
    if n != b.len() {
        proof {
            assert(a@ != b@);
        }
        return false;
    }
    let mut i: usize = 0;
    while i < n
        invariant
            n == a@.len() == b@.len(),
            i <= n,
            forall|j: int| 0 <= j < i ==> a@[j] == b@[j],
        decreases n - i,
    {
        if a[i] != b[i] {
            return false;
        }
        i += 1;
    }
    proof {
        assert(a@ =~= b@);
    }
    true
}

pub open spec fn keys_unique(s: Seq<(Vec<u8>, KeyData)>) -> bool {
    forall|a: int, b: int| 0 <= a < b < s.len() ==> s[a].0@ != s[b].0@
}

pub open spec fn seq_has_key(s: Seq<(Vec<u8>, KeyData)>, k: Seq<u8>) -> bool {
    exists|j: int| 0 <= j < s.len() && s[j].0@ == k
}

pub open spec fn seq_key_lookup(s: Seq<(Vec<u8>, KeyData)>, k: Seq<u8>) -> KeyData
    recommends
        seq_has_key(s, k),
{
    s[choose|j: int| 0 <= j < s.len() && s[j].0@ == k].1
}

/// With unique keys, the pair found at any index is the pair that the
/// key-indexed view returns for its key.
pub proof fn lemma_key_lookup(s: Seq<(Vec<u8>, KeyData)>, j: int)
    requires
        keys_unique(s),
        0 <= j < s.len(),
    ensures
        seq_has_key(s, s[j].0@),
        seq_key_lookup(s, s[j].0@) == s[j].1,
{
    let k = s[j].0@;
    assert(seq_has_key(s, k));
    let j2 = choose|j2: int| 0 <= j2 < s.len() && s[j2].0@ == k;
    if j2 != j {
        if j2 < j {
            assert(s[j2].0@ != s[j].0@);
        } else {
            assert(s[j].0@ != s[j2].0@);
        }
    }
}

/// The in-memory map from keys to record locations.
#[derive(Debug)]
pub struct KeyDir {
    entries: Vec<(Vec<u8>, KeyData)>,
}

impl View for KeyDir {
    type V = Map<Seq<u8>, KeyData>;

    closed spec fn view(&self) -> Map<Seq<u8>, KeyData> {
        Map::new(
            |k: Seq<u8>| seq_has_key(self.entries@, k),
            |k: Seq<u8>| seq_key_lookup(self.entries@, k),
        )
    }
}

impl KeyDir {
    pub closed spec fn spec_entries(self) -> Seq<(Vec<u8>, KeyData)> {
        self.entries@
    }

    pub closed spec fn wf(self) -> bool {
        keys_unique(self.entries@)
    }

    /// An empty directory.
    pub fn new() -> (r: KeyDir)
        ensures
            r.wf(),
            r@ == Map::<Seq<u8>, KeyData>::empty(),
    {
        let r = KeyDir { entries: Vec::new() };
        proof {
            assert(r@ =~= Map::<Seq<u8>, KeyData>::empty());
        }
        r
    }

    /// How many keys are live.
    pub fn key_count(&self) -> (r: usize)
        requires
            self.wf(),
        ensures
            r == self.spec_entries().len(),
    {
        self.entries.len()
    }

    fn find_index(&self, k: &[u8]) -> (r: Option<usize>)
        ensures
            match r {
                Some(j) => j < self.entries@.len() && self.entries@[j as int].0@ == k@,
                None => !seq_has_key(self.entries@, k@),
            },
    {
        let mut j: usize = 0;
        while j < self.entries.len()
            invariant
                j <= self.entries@.len(),
                forall|j2: int| 0 <= j2 < j ==> (#[trigger] self.entries@[j2].0@) != k@,
            decreases self.entries@.len() - j,
        {
            if bytes_eq(self.entries[j].0.as_slice(), k) {
                return Some(j);
            }
            j += 1;
        }
        None
    }

    /// Look a key up.
    pub fn get(&self, k: &[u8]) -> (r: Option<KeyData>)
        requires
            self.wf(),
        ensures
            match r {
                Some(kd) => self@.contains_key(k@) && kd == self@[k@],
                None => !self@.contains_key(k@),
            },
    {
        match self.find_index(k) {
            Some(j) => {
                proof {
                    lemma_key_lookup(self.entries@, j as int);
                }
                Some(self.entries[j].1)
            },
            None => None,
        }
    }

    /// Bind the key to a location, replacing and returning any existing
    /// binding.
    pub fn insert(&mut self, k: &[u8], v: KeyData) -> (r: Option<KeyData>)
        requires
            old(self).wf(),
        ensures
            final(self).wf(),
            final(self)@ == old(self)@.insert(k@, v),
            match r {
                Some(prev) => old(self)@.contains_key(k@) && prev == old(self)@[k@],
                None => !old(self)@.contains_key(k@),
            },
    {
        let ghost s0 = self.entries@;
        let prev = match self.find_index(k) {
            Some(idx) => {
                proof {
                    lemma_key_lookup(s0, idx as int);
                }
                let pair = self.entries.swap_remove(idx);
                proof {
                    let s1 = self.entries@;
                    assert forall|a: int, b: int| 0 <= a < b < s1.len() implies s1[a].0@
                        != s1[b].0@ by {}
                    assert forall|k2: Seq<u8>| seq_has_key(s1, k2) implies seq_has_key(s0, k2)
                        && k2 != k@ by {
                        let j = choose|j: int| 0 <= j < s1.len() && s1[j].0@ == k2;
                        if j == idx {
                            lemma_key_lookup(s0, s0.len() - 1);
                        } else {
                            lemma_key_lookup(s0, j);
                        }
                    }
                    assert forall|k2: Seq<u8>| seq_has_key(s0, k2) && k2 != k@ implies seq_has_key(
                        s1,
                        k2,
                    ) && seq_key_lookup(s1, k2) == seq_key_lookup(s0, k2) by {
                        let j = choose|j: int| 0 <= j < s0.len() && s0[j].0@ == k2;
                        lemma_key_lookup(s0, j);
                        if j == s0.len() - 1 {
                            assert(j != idx);
                            assert(s1[idx as int] == s0[j]);
                            lemma_key_lookup(s1, idx as int);
                        } else {
                            assert(s1[j] == s0[j]);
                            lemma_key_lookup(s1, j);
                        }
                    }
                }
                Some(pair.1)
            },
            None => None,
        };
        let key = vstd::slice::slice_to_vec(k);
        let ghost s_mid = self.entries@;
        self.entries.push((key, v));
        proof {
            let s1 = self.entries@;
            assert forall|a: int, b: int| 0 <= a < b < s1.len() implies s1[a].0@ != s1[b].0@ by {
                if b == s1.len() - 1 {
                    if seq_has_key(s_mid, k@) {
                        let j = choose|j: int| 0 <= j < s_mid.len() && s_mid[j].0@ == k@;
                        assert(false);
                    }
                }
            }
            lemma_key_lookup(s1, s1.len() - 1);
            assert_maps_equal!(self@, old(self)@.insert(k@, v), k2 => {
                if k2 == k@ {
                    assert(seq_has_key(s1, k2));
                } else {
                    if seq_has_key(s1, k2) {
                        let j = choose|j: int| 0 <= j < s1.len() && s1[j].0@ == k2;
                        assert(j < s_mid.len());
                        assert(s_mid[j] == s1[j]);
                        lemma_key_lookup(s_mid, j);
                        lemma_key_lookup(s1, j);
                    }
                    if seq_has_key(s_mid, k2) {
                        let j = choose|j: int| 0 <= j < s_mid.len() && s_mid[j].0@ == k2;
                        assert(s1[j] == s_mid[j]);
                        lemma_key_lookup(s_mid, j);
                        lemma_key_lookup(s1, j);
                    }
                    if seq_has_key(s0, k2) {
                        assert(seq_has_key(s_mid, k2));
                    }
                }
            });
        }
        prev
    }

    /// Erase the key's binding and return it, if one exists.
    pub fn remove(&mut self, k: &[u8]) -> (r: Option<KeyData>)
        requires
            old(self).wf(),
        ensures
            final(self).wf(),
            final(self)@ == old(self)@.remove(k@),
            match r {
                Some(prev) => old(self)@.contains_key(k@) && prev == old(self)@[k@],
                None => !old(self)@.contains_key(k@),
            },
    {
        let ghost s0 = self.entries@;
        match self.find_index(k) {
            Some(idx) => {
                proof {
                    lemma_key_lookup(s0, idx as int);
                }
                let pair = self.entries.swap_remove(idx);
                proof {
                    let s1 = self.entries@;
                    assert forall|a: int, b: int| 0 <= a < b < s1.len() implies s1[a].0@
                        != s1[b].0@ by {}
                    assert_maps_equal!(self@, old(self)@.remove(k@), k2 => {
                        if seq_has_key(s1, k2) {
                            let j = choose|j: int| 0 <= j < s1.len() && s1[j].0@ == k2;
                            if j == idx {
                                lemma_key_lookup(s0, s0.len() - 1);
                            } else {
                                lemma_key_lookup(s0, j);
                            }
                            lemma_key_lookup(s1, j);
                        }
                        if seq_has_key(s0, k2) && k2 != k@ {
                            let j = choose|j: int| 0 <= j < s0.len() && s0[j].0@ == k2;
                            lemma_key_lookup(s0, j);
                            if j == s0.len() - 1 {
                                assert(j != idx);
                                assert(s1[idx as int] == s0[j]);
                                lemma_key_lookup(s1, idx as int);
                            } else {
                                assert(s1[j] == s0[j]);
                                lemma_key_lookup(s1, j);
                            }
                        }
                    });
                }
                Some(pair.1)
            },
            None => {
                proof {
                    assert_maps_equal!(self@, old(self)@.remove(k@), k2 => {});
                }
                None
            },
        }
    }
}

/// One replayed record applied to the replay map: a `Put` binds the key
/// to its location and value, a `Delete` erases the key. Later records
/// win, because replay applies them in log order.
pub open spec fn spec_replay_apply(
    m: Map<Seq<u8>, (KeyData, Seq<u8>)>,
    es: crate::entry::EntrySpec,
    pid: PageID,
    off: int,
) -> Map<Seq<u8>, (KeyData, Seq<u8>)> {
    if es.t == crate::entry::EntryType::Put {
        m.insert(es.key, (KeyData { page_id: pid, offset: off as u64 }, es.value))
    } else {
        m.remove(es.key)
    }
}

/// Replay the records of one page from `off` on, over `m`: decode, apply,
/// step to the next record, and stop at the first position where nothing
/// decodes.
pub open spec fn spec_replay_page(
    m: Map<Seq<u8>, (KeyData, Seq<u8>)>,
    pid: PageID,
    page: Seq<u8>,
    off: int,
) -> Map<Seq<u8>, (KeyData, Seq<u8>)>
    decreases page.len() - off,
{
    match crate::entry::spec_decode_entry(page, off) {
        Option::Some(es) => spec_replay_page(spec_replay_apply(m, es, pid, off), pid, page, off + es.size()),
        Option::None => m,
    }
}

/// Replay pages `0..n` in ascending id order over an empty map.
pub open spec fn spec_replay_upto(pages: Seq<Seq<u8>>, n: int) -> Map<
    Seq<u8>,
    (KeyData, Seq<u8>),
>
    decreases n,
{
    if n <= 0 {
        Map::empty()
    } else {
        spec_replay_page(spec_replay_upto(pages, n - 1), (n - 1) as PageID, pages[n - 1], 0)
    }
}

/// The key directory that a log replays to, with each key's location and
/// value.
pub open spec fn spec_replay(pages: Seq<Seq<u8>>) -> Map<Seq<u8>, (KeyData, Seq<u8>)> {
    spec_replay_upto(pages, pages.len() as int)
}

/// Every record in the page's decode chain ends at or before `limit`.
pub open spec fn spec_entries_fit(page: Seq<u8>, limit: int, off: int) -> bool
    decreases page.len() - off,
{
    match crate::entry::spec_decode_entry(page, off) {
        Option::Some(es) => off + es.size() <= limit && spec_entries_fit(page, limit, off + es.size()),
        Option::None => true,
    }
}

/// The byte sequences of a list of pages.
pub open spec fn spec_page_views(pages: Seq<Vec<u8>>) -> Seq<Seq<u8>> {
    Seq::new(pages.len(), |i: int| pages[i]@)
}

/// Rebuild the store from the pages of its file, in ascending id order:
/// replay every record, keeping the latest binding of each key and
/// dropping deleted ones, and open the last page as the current page. An
/// empty file starts an empty directory on a fresh page with id zero.
///
/// The returned directory is exactly the log's replay, and when the last
/// page's records lie inside its derived length — they do whenever that
/// page was written by this store and its records do not end in aligned
/// runs of zero bytes — the pair satisfies the store invariant, so the
/// directory that mutations maintained before a restart is rebuilt intact.
pub fn bootstrap(pages: &Vec<Vec<u8>>, page_size: usize, k: usize, num_read_slots: usize) -> (r: (
    KeyDir,
    PageCache,
))
    requires
        k >= 1,
        pages@.len() < PageID::MAX,
        forall|i: int| 0 <= i < pages@.len() ==> (#[trigger] pages@[i])@.len() == page_size,
    ensures
        r.0.wf(),
        r.1.wf(),
        r.1.page_size() == page_size,
        r.1.current_id() == if pages@.len() == 0 {
            0int
        } else {
            pages@.len() - 1
        },
        r.1.spec_next_id() == if pages@.len() == 0 {
            1int
        } else {
            pages@.len() as int
        },
        r.0@ == spec_replay(spec_page_views(pages@)).map_values(
            |p: (KeyData, Seq<u8>)| p.0,
        ),
        value_model(r.1, r.0) == spec_replay(spec_page_views(pages@)).map_values(
            |p: (KeyData, Seq<u8>)| p.1,
        ),
        (pages@.len() == 0 || spec_entries_fit(
            pages@[pages@.len() - 1]@,
            crate::page::spec_loaded_len(pages@[pages@.len() - 1]@),
            0,
        )) ==> store_inv(r.1, r.0),
{
    let ghost pv = spec_page_views(pages@);
    let n = pages.len();
    let mut dir = KeyDir::new();
    if n == 0 {
        let current = PageInner::new(0, page_size);
        let cache = PageCache::with_disk(Ghost(Map::empty()), k, current, num_read_slots);
        proof {
            assert(dir@ =~= spec_replay(pv).map_values(|p: (KeyData, Seq<u8>)| p.0));
            assert(value_model(cache, dir) =~= spec_replay(pv).map_values(
                |p: (KeyData, Seq<u8>)| p.1,
            ));
        }
        return (dir, cache);
    }
    let ghost m_done: Map<Seq<u8>, (KeyData, Seq<u8>)> = Map::empty();
    let mut rm: Ghost<Map<Seq<u8>, (KeyData, Seq<u8>)>> = Ghost(Map::empty());
    let mut page_id: usize = 0;
    proof {
        assert(dir@ =~= rm@.map_values(|p: (KeyData, Seq<u8>)| p.0));
    }
    while page_id < n
        invariant
            n == pages@.len(),
            n < PageID::MAX,
            pv == spec_page_views(pages@),
            forall|i: int| 0 <= i < pages@.len() ==> (#[trigger] pages@[i])@.len() == page_size,
            page_id <= n,
            dir.wf(),
            rm@ == spec_replay_upto(pv, page_id as int),
            dir@ == rm@.map_values(|p: (KeyData, Seq<u8>)| p.0),
            forall|k2: Seq<u8>|
                #[trigger] rm@.contains_key(k2) ==> replayed_ok(rm@, k2, pv, page_id as int),
        decreases n - page_id,
    {
        let page_bytes = crate::page::bytes_range(&pages[page_id], 0, pages[page_id].len());
        let page = PageInner::from_bytes(page_id as PageID, page_bytes);
        let ghost llen = crate::page::spec_loaded_len(pv[page_id as int]);
        let ghost m_enter = rm@;
        let ghost pid = page_id as PageID;
        let mut offset: usize = 0;
        proof {
            assert(page.spec_data() == pv[page_id as int]);
        }
        loop
            invariant
                n == pages@.len(),
                n < PageID::MAX,
                page_id < n,
                pv == spec_page_views(pages@),
                forall|i: int|
                    0 <= i < pages@.len() ==> (#[trigger] pages@[i])@.len() == page_size,
                pid == page_id as PageID,
                llen == crate::page::spec_loaded_len(pv[page_id as int]),
                page.wf(),
                page.spec_data() == pv[page_id as int],
                dir.wf(),
                0 <= offset,
                dir@ == rm@.map_values(|p: (KeyData, Seq<u8>)| p.0),
                spec_replay_page(rm@, pid, pv[page_id as int], offset as int)
                    == spec_replay_page(m_enter, pid, pv[page_id as int], 0),
                spec_entries_fit(pv[page_id as int], llen, 0) ==> spec_entries_fit(
                    pv[page_id as int],
                    llen,
                    offset as int,
                ),
                forall|k2: Seq<u8>|
                    #[trigger] rm@.contains_key(k2) ==> replayed_ok(
                        rm@,
                        k2,
                        pv,
                        page_id + 1,
                    ),
            ensures
                dir.wf(),
                dir@ == rm@.map_values(|p: (KeyData, Seq<u8>)| p.0),
                rm@ == spec_replay_page(m_enter, pid, pv[page_id as int], 0),
                forall|k2: Seq<u8>|
                    #[trigger] rm@.contains_key(k2) ==> replayed_ok(
                        rm@,
                        k2,
                        pv,
                        page_id + 1,
                    ),
            decreases page.page_size() - offset,
        {
            match page.read_entry(offset) {
                Some(e) => {
                    let ghost es = crate::entry::spec_decode_entry(
                        pv[page_id as int],
                        offset as int,
                    )->Some_0;
                    let ghost rm_old = rm@;
                    let elen = e.len();
                    match e.t {
                        crate::entry::EntryType::Put => {
                            dir.insert(e.key.as_slice(), KeyData::new(page_id as u32, offset as u64));
                            proof {
                                rm@ = spec_replay_apply(rm_old, es, pid, offset as int);
                            }
                        },
                        crate::entry::EntryType::Delete => {
                            dir.remove(e.key.as_slice());
                            proof {
                                rm@ = spec_replay_apply(rm_old, es, pid, offset as int);
                            }
                        },
                    }
                    proof {
                        assert(dir@ =~= rm@.map_values(|p: (KeyData, Seq<u8>)| p.0));
                        if spec_entries_fit(pv[page_id as int], llen, 0) {
                            assert(spec_entries_fit(pv[page_id as int], llen, offset as int));
                        }
                        assert forall|k2: Seq<u8>| #[trigger] rm@.contains_key(k2) implies
                            replayed_ok(rm@, k2, pv, page_id + 1) by {
                            if k2 == es.key && es.t == crate::entry::EntryType::Put {
                                assert(rm@[k2] == (
                                    KeyData { page_id: pid, offset: offset as u64 },
                                    es.value,
                                ));
                                if spec_entries_fit(pv[page_id as int], llen, 0) {
                                    assert(spec_entries_fit(
                                        pv[page_id as int],
                                        llen,
                                        offset as int,
                                    ));
                                    assert(offset + es.size() <= llen);
                                }
                            } else {
                                assert(rm_old.contains_key(k2));
                                assert(replayed_ok(rm_old, k2, pv, page_id + 1));
                                assert(rm@[k2] == rm_old[k2]);
                            }
                        }
                    }
                    offset = offset + elen;
                },
                None => {
                    proof {
                        assert(spec_replay_page(rm@, pid, pv[page_id as int], offset as int)
                            == rm@);
                    }
                    break;
                },
            }
        }
        page_id = page_id + 1;
    }
    let last = n - 1;
    let cur_bytes = crate::page::bytes_range(&pages[last], 0, pages[last].len());
    proof {
        assert(cur_bytes@ =~= pv[last as int]);
    }
    let current = PageInner::from_bytes(last as PageID, cur_bytes);
    let ghost dm = Map::<PageID, Seq<u8>>::new(
        |id: PageID| (id as int) < n as int,
        |id: PageID| pv[id as int],
    );
    let cache = PageCache::with_disk(Ghost(dm), k, current, num_read_slots);
    proof {
        assert(dir@ =~= spec_replay(pv).map_values(|p: (KeyData, Seq<u8>)| p.0));
        assert forall|k2: Seq<u8>| #[trigger] dir@.contains_key(k2) implies {
            let kd = dir@[k2];
            &&& rm@.contains_key(k2)
            &&& kd == rm@[k2].0
            &&& kd.page_id < n
            &&& crate::entry::spec_decode_entry(cache.page_bytes(kd.page_id), kd.offset as int)
                == crate::entry::spec_decode_entry(pv[kd.page_id as int], kd.offset as int)
        } by {
            assert(rm@.contains_key(k2));
            assert(replayed_ok(rm@, k2, pv, n as int));
            let kd = rm@[k2].0;
            if kd.page_id == cache.current_id() {
                assert(cache.page_bytes(kd.page_id) == pv[last as int]);
            } else {
                assert(cache.page_bytes(kd.page_id) == dm[kd.page_id]);
            }
        }
        assert_maps_equal!(value_model(cache, dir), spec_replay(pv).map_values(|p: (KeyData, Seq<u8>)| p.1), k2 => {
            if dir@.contains_key(k2) {
                assert(replayed_ok(rm@, k2, pv, n as int));
            }
        });
        if spec_entries_fit(pv[last as int], crate::page::spec_loaded_len(pv[last as int]), 0) {
            assert forall|k2: Seq<u8>| #[trigger] dir@.contains_key(k2) implies location_valid(
                cache,
                dir@[k2],
                k2,
            ) by {
                assert(replayed_ok(rm@, k2, pv, n as int));
                let kd = dir@[k2];
                assert(kd == rm@[k2].0);
                assert(kd.page_id < n);
                if kd.page_id != cache.current_id() {
                    assert(cache.spec_disk().contains_key(kd.page_id));
                } else {
                    let es = crate::entry::spec_decode_entry(
                        pv[kd.page_id as int],
                        kd.offset as int,
                    )->Some_0;
                    assert(kd.offset + es.size() <= crate::page::spec_loaded_len(
                        pv[last as int],
                    ));
                    assert(cache.spec_current().spec_len() == crate::page::spec_loaded_len(
                        pv[last as int],
                    ));
                }
            }
        }
    }
    (dir, cache)
}

/// Where a page's record chain ends: the first position, walking record
/// by record from `off`, where nothing decodes.
pub open spec fn spec_chain_end(page: Seq<u8>, off: int) -> int
    decreases page.len() - off,
{
    match crate::entry::spec_decode_entry(page, off) {
        Option::Some(es) => spec_chain_end(page, off + es.size()),
        Option::None => off,
    }
}

pub proof fn lemma_chain_end_lower(page: Seq<u8>, off: int)
    ensures
        spec_chain_end(page, off) >= off,
    decreases page.len() - off,
{
    match crate::entry::spec_decode_entry(page, off) {
        Option::Some(es) => {
            lemma_chain_end_lower(page, off + es.size());
        },
        Option::None => {},
    }
}

/// Replaying from a chain position of the old page, the new page — equal
/// up to the old chain's end `limit`, holding the new record there, and
/// ending its chain right after it — yields the old replay with the one
/// record applied.
proof fn lemma_chain_replay_step(
    m: Map<Seq<u8>, (KeyData, Seq<u8>)>,
    pid: PageID,
    p1: Seq<u8>,
    p2: Seq<u8>,
    e: crate::entry::EntrySpec,
    off: int,
    limit: int,
)
    requires
        0 <= off,
        spec_chain_end(p1, off) == limit,
        limit + e.size() <= p1.len(),
        p2.len() == p1.len(),
        p2.subrange(0, limit) == p1.subrange(0, limit),
        crate::entry::spec_decode_entry(p2, limit) == Some(e),
        crate::entry::spec_decode_entry(p2, limit + e.size()) is None,
    ensures
        spec_replay_page(m, pid, p2, off) == spec_replay_apply(
            spec_replay_page(m, pid, p1, off),
            e,
            pid,
            limit,
        ),
    decreases p1.len() - off,
{
    lemma_chain_end_lower(p1, off);
    match crate::entry::spec_decode_entry(p1, off) {
        Option::Some(es) => {
            lemma_chain_end_lower(p1, off + es.size());
            assert(off + es.size() <= limit);
            assert(p2.subrange(off, off + es.size()) =~= p1.subrange(off, off + es.size()))
                by {
                assert forall|j: int| 0 <= j < es.size() implies #[trigger] p2.subrange(
                    off,
                    off + es.size(),
                )[j] == p1.subrange(off, off + es.size())[j] by {
                    assert(p2.subrange(0, limit)[off + j] == p2[off + j]);
                    assert(p1.subrange(0, limit)[off + j] == p1[off + j]);
                }
            }
            crate::entry::lemma_decode_entry_frame(p1, p2, off, es);
            lemma_chain_replay_step(
                spec_replay_apply(m, es, pid, off),
                pid,
                p1,
                p2,
                e,
                off + es.size(),
                limit,
            );
        },
        Option::None => {
            assert(off == limit);
            assert(spec_replay_page(m, pid, p1, off) == m);
            assert(spec_replay_page(m, pid, p2, off) == spec_replay_page(
                spec_replay_apply(m, e, pid, limit),
                pid,
                p2,
                limit + e.size(),
            ));
            assert(spec_replay_page(spec_replay_apply(m, e, pid, limit), pid, p2, limit
                + e.size()) == spec_replay_apply(m, e, pid, limit));
        },
    }
}

/// Replaying a prefix of the log reads only the pages inside it.
proof fn lemma_replay_upto_congruence(pv1: Seq<Seq<u8>>, pv2: Seq<Seq<u8>>, n: int)
    requires
        forall|i: int| 0 <= i < n ==> pv1[i] == pv2[i],
    ensures
        spec_replay_upto(pv1, n) == spec_replay_upto(pv2, n),
    decreases n,
{
    if n > 0 {
        lemma_replay_upto_congruence(pv1, pv2, n - 1);
    }
}

/// The bootstrap-replay law, write path: appending one record at the end
/// of the last page's record chain changes the log's replay exactly as
/// the dispatcher changes the directory — a `Put` binds the key to the
/// new record's location and value, a `Delete` erases the key. So the
/// directory maintained in memory is the directory a restart rebuilds,
/// page for page and record for record.
pub proof fn lemma_replay_after_append(
    pv1: Seq<Seq<u8>>,
    pv2: Seq<Seq<u8>>,
    e: crate::entry::EntrySpec,
    off: int,
)
    requires
        pv1.len() >= 1,
        pv2.len() == pv1.len(),
        forall|i: int| 0 <= i < pv1.len() - 1 ==> pv1[i] == pv2[i],
        off == spec_chain_end(pv1.last(), 0),
        off + e.size() <= pv1.last().len(),
        pv2.last().len() == pv1.last().len(),
        pv2.last().subrange(0, off) == pv1.last().subrange(0, off),
        crate::entry::spec_decode_entry(pv2.last(), off) == Some(e),
        crate::entry::spec_decode_entry(pv2.last(), off + e.size()) is None,
    ensures
        spec_replay(pv2) == spec_replay_apply(
            spec_replay(pv1),
            e,
            (pv1.len() - 1) as PageID,
            off,
        ),
{
    let n = pv1.len() as int;
    lemma_replay_upto_congruence(pv1, pv2, n - 1);
    lemma_chain_replay_step(
        spec_replay_upto(pv1, n - 1),
        (n - 1) as PageID,
        pv1.last(),
        pv2.last(),
        e,
        0,
        off,
    );
    assert(pv1[n - 1] == pv1.last());
    assert(pv2[n - 1] == pv2.last());
}

/// The bootstrap-replay law, roll path: sealing the log and starting a
/// fresh page whose only record is the new one changes the replay the
/// same way, with the record now at offset zero of the new page.
pub proof fn lemma_replay_after_new_page(
    pv1: Seq<Seq<u8>>,
    pv2: Seq<Seq<u8>>,
    e: crate::entry::EntrySpec,
)
    requires
        pv2 == pv1.push(pv2.last()),
        crate::entry::spec_decode_entry(pv2.last(), 0) == Some(e),
        crate::entry::spec_decode_entry(pv2.last(), e.size()) is None,
    ensures
        spec_replay(pv2) == spec_replay_apply(spec_replay(pv1), e, pv1.len() as PageID, 0),
{
    let n = pv1.len() as int;
    lemma_replay_upto_congruence(pv1, pv2, n);
    assert(spec_replay(pv2) == spec_replay_page(
        spec_replay_upto(pv2, n),
        n as PageID,
        pv2[n],
        0,
    ));
    assert(pv2[n] == pv2.last());
    let m = spec_replay_upto(pv1, n);
    assert(spec_replay_page(m, n as PageID, pv2.last(), 0) == spec_replay_page(
        spec_replay_apply(m, e, n as PageID, 0),
        n as PageID,
        pv2.last(),
        e.size(),
    ));
    assert(spec_replay_page(
        spec_replay_apply(m, e, n as PageID, 0),
        n as PageID,
        pv2.last(),
        e.size(),
    ) == spec_replay_apply(m, e, n as PageID, 0));
}

/// What replay guarantees of each binding it produces: the location lies
/// on a replayed page, decodes there to a `Put` of that key with the
/// recorded value, and — whenever the whole page's records lie inside its
/// derived length — ends inside that length.
pub open spec fn replayed_ok(
    m: Map<Seq<u8>, (KeyData, Seq<u8>)>,
    k: Seq<u8>,
    pv: Seq<Seq<u8>>,
    bound: int,
) -> bool {
    let kd = m[k].0;
    let v = m[k].1;
    &&& kd.page_id < bound
    &&& kd.page_id < pv.len()
    &&& match crate::entry::spec_decode_entry(pv[kd.page_id as int], kd.offset as int) {
        Option::Some(es) => {
            &&& es.t == crate::entry::EntryType::Put
            &&& es.key == k
            &&& es.value == v
            &&& spec_entries_fit(
                pv[kd.page_id as int],
                crate::page::spec_loaded_len(pv[kd.page_id as int]),
                0,
            ) ==> kd.offset + es.size() <= crate::page::spec_loaded_len(pv[kd.page_id as int])
        },
        Option::None => false,
    }
}

} // verus!
