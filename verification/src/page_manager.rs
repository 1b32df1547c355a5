//! The page cache: one writable current page (the tail of the log), a fixed
//! pool of read slots, a page table from resident page ids to their slot,
//! a free list, and the LRU-K replacer. Disk traffic is handed to the
//! caller: operations that write return the page id and bytes to store, and
//! a fetch that misses reports which page to read and accepts its bytes.
//! A ghost map records what the store has written to, or read from, each
//! disk page, so contracts can say that reads hand back stored bytes.

use vstd::prelude::*;
use std::collections::HashMap;
use crate::entry::{Entry, EntryType, spec_decode_entry};
use crate::key_dir::{KeyData, KeyDir};
use crate::page::{all_zero_range, PageError, PageID, PageInner};
use crate::replacer::LRUKReplacer;

verus! {

broadcast use vstd::std_specs::hash::group_hash_axioms;

/// Where a resident page lives: the single writable current page, or one of
/// the read slots.
#[derive(Debug, PartialEq, Eq, Structural, Clone, Copy)]
pub enum PageIndex {
    Write,
    Read(usize),
}

pub const DEFAULT_READ_SIZE: usize = 8;

/// What a fetch found without touching the disk.
#[derive(Debug)]
pub enum FetchResult {
    /// The page was resident and the record decoded.
    Found(Entry),
    /// The page was resident but no record decodes at the offset.
    Missing,
    /// The page is not resident: read it and call back with its bytes.
    NeedPage(PageID),
}

/// The buffer pool.
pub struct PageCache {
    disk_model: Ghost<Map<PageID, Seq<u8>>>,
    current: PageInner,
    read: Vec<PageInner>,
    page_table: HashMap<PageID, PageIndex>,
    free: Vec<usize>,
    next_id: PageID,
    replacer: LRUKReplacer,
}

impl PageCache {
    pub closed spec fn spec_disk(self) -> Map<PageID, Seq<u8>> {
        self.disk_model@
    }

    pub closed spec fn spec_current(self) -> PageInner {
        self.current
    }

    pub closed spec fn spec_read(self) -> Seq<PageInner> {
        self.read@
    }

    pub closed spec fn spec_table(self) -> Map<PageID, PageIndex> {
        self.page_table@
    }

    pub closed spec fn spec_free(self) -> Seq<usize> {
        self.free@
    }

    pub closed spec fn spec_next_id(self) -> PageID {
        self.next_id
    }

    pub closed spec fn spec_replacer(self) -> LRUKReplacer {
        self.replacer
    }

    pub open spec fn page_size(self) -> int {
        self.spec_current().page_size()
    }

    pub open spec fn current_id(self) -> PageID {
        self.spec_current().spec_id()
    }

    pub open spec fn num_slots(self) -> int {
        self.spec_read().len() as int
    }

    /// The bytes of log page `id` as the store sees them: the in-memory
    /// current page for the tail, the stored bytes for any other page.
    pub open spec fn page_bytes(self, id: PageID) -> Seq<u8> {
        if id == self.current_id() {
            self.spec_current().spec_data()
        } else {
            self.spec_disk()[id]
        }
    }

    /// Some resident page id occupies read slot `i`.
    pub open spec fn slot_mapped(self, i: usize) -> bool {
        exists|id: PageID|
            #[trigger] self.spec_table().contains_key(id) && self.spec_table()[id]
                == PageIndex::Read(i)
    }

    /// What the page table entry for `id` promises: the current page for
    /// `Write`, and for `Read(i)` a slot inside the pool that holds exactly
    /// the bytes stored for `id`. Together with the table being a map, this
    /// is the at-most-one-copy rule: a page id is held by at most one slot.
    pub open spec fn slot_ok(self, id: PageID, idx: PageIndex) -> bool {
        match idx {
            PageIndex::Write => id == self.current_id(),
            PageIndex::Read(i) => {
                &&& i < self.num_slots()
                &&& self.spec_read()[i as int].spec_id() == id
                &&& self.spec_disk().contains_key(id)
                &&& self.spec_read()[i as int].spec_data() == self.spec_disk()[id]
            },
        }
    }

    pub open spec fn wf(self) -> bool {
        &&& self.spec_current().wf()
        &&& forall|j: int|
            0 <= j < self.num_slots() ==> (#[trigger] self.spec_read()[j]).wf()
                && self.spec_read()[j].page_size() == self.page_size()
        &&& self.spec_table().contains_key(self.current_id())
        &&& self.spec_table()[self.current_id()] == PageIndex::Write
        &&& forall|id: PageID|
            #[trigger] self.spec_table().contains_key(id) ==> self.slot_ok(
                id,
                self.spec_table()[id],
            ) && id < self.spec_next_id()
        &&& self.current_id() < self.spec_next_id()
        &&& forall|j: int|
            0 <= j < self.spec_free().len() ==> (#[trigger] self.spec_free()[j])
                < self.num_slots()
        &&& forall|a: int, b: int|
            0 <= a < b < self.spec_free().len() ==> self.spec_free()[a] != self.spec_free()[b]
        &&& forall|j: int|
            0 <= j < self.spec_free().len() ==> !self.slot_mapped(#[trigger] self.spec_free()[j])
                && !self.spec_replacer().has(self.spec_free()[j])
        &&& self.spec_replacer().wf()
        &&& forall|i: usize|
            #[trigger] self.spec_replacer().has(i) ==> i < self.num_slots()
                && self.spec_table().contains_key(self.spec_read()[i as int].spec_id())
                && self.spec_table()[self.spec_read()[i as int].spec_id()] == PageIndex::Read(i)
        &&& forall|id: PageID|
            #[trigger] self.spec_disk().contains_key(id) ==> self.spec_disk()[id].len()
                == self.page_size()
    }

    /// A change that only touches the current page's contents keeps the
    /// cache well-formed.
    proof fn lemma_wf_frame(pre: PageCache, post: PageCache)
        requires
            pre.wf(),
            post.spec_read() == pre.spec_read(),
            post.spec_table() == pre.spec_table(),
            post.spec_free() == pre.spec_free(),
            post.spec_replacer() == pre.spec_replacer(),
            post.spec_disk() == pre.spec_disk(),
            post.spec_next_id() == pre.spec_next_id(),
            post.current_id() == pre.current_id(),
            post.page_size() == pre.page_size(),
            post.spec_current().wf(),
        ensures
            post.wf(),
    {
        assert forall|j: int| 0 <= j < post.num_slots() implies (#[trigger] post.spec_read()[j]).wf()
            && post.spec_read()[j].page_size() == post.page_size() by {
            assert(pre.spec_read()[j].wf());
        }
        assert forall|id: PageID| #[trigger] post.spec_table().contains_key(id) implies
            post.slot_ok(id, post.spec_table()[id]) && id < post.spec_next_id() by {
            assert(pre.spec_table().contains_key(id));
            assert(pre.slot_ok(id, pre.spec_table()[id]));
        }
        assert forall|j: int| 0 <= j < post.spec_free().len() implies (
        #[trigger] post.spec_free()[j]) < post.num_slots() by {
            assert(pre.spec_free()[j] < pre.num_slots());
        }
        assert forall|a: int, b: int| 0 <= a < b < post.spec_free().len() implies
            post.spec_free()[a] != post.spec_free()[b] by {
            assert(pre.spec_free()[a] != pre.spec_free()[b]);
        }
        assert forall|j: int| 0 <= j < post.spec_free().len() implies !post.slot_mapped(
            #[trigger] post.spec_free()[j],
        ) && !post.spec_replacer().has(post.spec_free()[j]) by {
            let s = pre.spec_free()[j];
            assert(!pre.slot_mapped(s) && !pre.spec_replacer().has(s));
            if post.slot_mapped(s) {
                let id = choose|id: PageID|
                    #[trigger] post.spec_table().contains_key(id) && post.spec_table()[id]
                        == PageIndex::Read(s);
                assert(pre.spec_table().contains_key(id) && pre.spec_table()[id]
                    == PageIndex::Read(s));
                assert(pre.slot_mapped(s));
            }
        }
        assert forall|i: usize| #[trigger] post.spec_replacer().has(i) implies i
            < post.num_slots() && post.spec_table().contains_key(
            post.spec_read()[i as int].spec_id(),
        ) && post.spec_table()[post.spec_read()[i as int].spec_id()] == PageIndex::Read(i) by {
            assert(pre.spec_replacer().has(i));
        }
        assert forall|id: PageID| #[trigger] post.spec_disk().contains_key(id) implies
            post.spec_disk()[id].len() == post.page_size() by {
            assert(pre.spec_disk().contains_key(id));
        }
    }

    /// A cache over an empty store: `latest` is the current page, the pool
    /// has `num_read_slots` read slots of the same size, and the replacer
    /// runs with parameter `k`.
    pub fn new(k: usize, latest: PageInner, num_read_slots: usize) -> (r: PageCache)
        requires
            k >= 1,
            latest.wf(),
            latest.spec_id() < PageID::MAX,
        ensures
            r.wf(),
            r.spec_current() == latest,
            r.spec_disk() == Map::<PageID, Seq<u8>>::empty(),
            r.spec_table() == Map::<PageID, PageIndex>::empty().insert(
                latest.spec_id(),
                PageIndex::Write,
            ),
            r.spec_next_id() == latest.spec_id() + 1,
            r.num_slots() == num_read_slots,
            r.spec_free().len() == num_read_slots,
            forall|j: int|
                0 <= j < num_read_slots ==> (#[trigger] r.spec_free()[j]) + j + 1
                    == num_read_slots,
            forall|i: usize| !r.spec_replacer().has(i),
    {
        Self::with_disk(Ghost(Map::empty()), k, latest, num_read_slots)
    }

    /// A cache whose store already holds the given page bytes; used when a
    /// log is reopened. Not callable from outside the crate, since the
    /// ghost image must match the real file.
    pub(crate) fn with_disk(
        disk: Ghost<Map<PageID, Seq<u8>>>,
        k: usize,
        latest: PageInner,
        num_read_slots: usize,
    ) -> (r: PageCache)
        requires
            k >= 1,
            latest.wf(),
            latest.spec_id() < PageID::MAX,
            forall|id: PageID|
                #[trigger] disk@.contains_key(id) ==> disk@[id].len() == latest.page_size(),
        ensures
            r.wf(),
            r.spec_current() == latest,
            r.spec_disk() == disk@,
            r.spec_table() == Map::<PageID, PageIndex>::empty().insert(
                latest.spec_id(),
                PageIndex::Write,
            ),
            r.spec_next_id() == latest.spec_id() + 1,
            r.num_slots() == num_read_slots,
            r.spec_free().len() == num_read_slots,
            forall|j: int|
                0 <= j < num_read_slots ==> (#[trigger] r.spec_free()[j]) + j + 1
                    == num_read_slots,
            forall|i: usize| !r.spec_replacer().has(i),
    {
        let page_size = latest.page_size_usize();
        let ghost latest_id = latest.spec_id();
        let mut page_table: HashMap<PageID, PageIndex> = HashMap::new();
        page_table.insert(latest.id(), PageIndex::Write);
        let mut read: Vec<PageInner> = Vec::new();
        let mut free: Vec<usize> = Vec::new();
        let mut j: usize = num_read_slots;
        while j > 0
            invariant
                j <= num_read_slots,
                read@.len() == num_read_slots - j,
                free@.len() == num_read_slots - j,
                forall|t: int|
                    0 <= t < num_read_slots - j ==> (#[trigger] free@[t]) + t + 1
                        == num_read_slots,
                forall|t: int|
                    0 <= t < read@.len() ==> (#[trigger] read@[t]).wf() && read@[t].page_size()
                        == page_size && read@[t].spec_id() == 0,
            decreases j,
        {
            j -= 1;
            free.push(j);
            read.push(PageInner::new(0, page_size));
        }
        let next_id = latest.id() + 1;
        let replacer = LRUKReplacer::new(k);
        let r = PageCache { disk_model: disk, current: latest, read, page_table, free, next_id, replacer };
        proof {
            assert(r.spec_table() =~= Map::<PageID, PageIndex>::empty().insert(
                latest_id,
                PageIndex::Write,
            ));
            assert forall|id: PageID| #[trigger] r.spec_table().contains_key(id) implies r.slot_ok(
                id,
                r.spec_table()[id],
            ) && id < r.spec_next_id() by {}
            assert forall|j2: int|
                0 <= j2 < r.spec_free().len() implies !r.slot_mapped(
                #[trigger] r.spec_free()[j2],
            ) && !r.spec_replacer().has(r.spec_free()[j2]) by {}
        }
        r
    }

    /// The next page id to be allocated; page ids above it are unused.
    pub fn next_page_id(&self) -> (r: PageID)
        ensures
            r == self.spec_next_id(),
    {
        self.next_id
    }

    /// The id of the current page.
    pub fn current_page_id(&self) -> (r: PageID)
        ensures
            r == self.current_id(),
    {
        self.current.id()
    }

    /// A shared view of the current page, for reading records off the tail.
    pub fn get_current(&self) -> (r: &PageInner)
        ensures
            *r == self.spec_current(),
    {
        &self.current
    }

    /// Append a record to the current page. On success the record now
    /// stands at the returned offset of the current page, every record that
    /// was already inside the written prefix still decodes, and nothing
    /// else in the cache moves. `NotEnoughSpace` asks the caller to roll
    /// the current page first.
    pub fn append_entry(&mut self, entry: &Entry) -> (r: Result<u64, PageError>)
        requires
            old(self).wf(),
            entry.wf(),
        ensures
            final(self).wf(),
            final(self).spec_disk() == old(self).spec_disk(),
            final(self).spec_read() == old(self).spec_read(),
            final(self).spec_table() == old(self).spec_table(),
            final(self).spec_free() == old(self).spec_free(),
            final(self).spec_next_id() == old(self).spec_next_id(),
            final(self).spec_replacer() == old(self).spec_replacer(),
            final(self).current_id() == old(self).current_id(),
            final(self).page_size() == old(self).page_size(),
            match r {
                Ok(offset) => {
                    &&& offset == old(self).spec_current().spec_len()
                    &&& old(self).spec_current().spec_len() + entry@.size() <= old(
                        self,
                    ).page_size()
                    &&& final(self).spec_current().spec_len() == old(self).spec_current().spec_len()
                        + entry@.size()
                    &&& (!entry@.is_sentinel() ==> spec_decode_entry(
                        final(self).spec_current().spec_data(),
                        offset as int,
                    ) == Some(entry@))
                    &&& forall|o: int|
                        0 <= o && (#[trigger] spec_decode_entry(
                            old(self).spec_current().spec_data(),
                            o,
                        )) is Some && o + spec_decode_entry(
                            old(self).spec_current().spec_data(),
                            o,
                        )->Some_0.size() <= old(self).spec_current().spec_len()
                            ==> spec_decode_entry(final(self).spec_current().spec_data(), o)
                            == spec_decode_entry(old(self).spec_current().spec_data(), o)
                },
                Err(e) => {
                    &&& e == PageError::NotEnoughSpace
                    &&& old(self).spec_current().spec_len() + entry@.size() > old(
                        self,
                    ).page_size()
                    &&& final(self).spec_current() == old(self).spec_current()
                },
            },
    {
        let r = self.current.write_entry(entry);
        proof {
            Self::lemma_wf_frame(*old(self), *self);
        }
        r
    }

    /// A change that only adds slot `i` — a mapped one — to the replacer's
    /// tracked set keeps the cache well-formed.
    proof fn lemma_wf_after_replacer_touch(pre: PageCache, post: PageCache, i: usize)
        requires
            pre.wf(),
            post.spec_current() == pre.spec_current(),
            post.spec_read() == pre.spec_read(),
            post.spec_table() == pre.spec_table(),
            post.spec_free() == pre.spec_free(),
            post.spec_disk() == pre.spec_disk(),
            post.spec_next_id() == pre.spec_next_id(),
            post.spec_replacer().wf(),
            forall|x: usize|
                post.spec_replacer().has(x) == (pre.spec_replacer().has(x) || x == i),
            i < pre.num_slots(),
            pre.spec_table().contains_key(pre.spec_read()[i as int].spec_id()),
            pre.spec_table()[pre.spec_read()[i as int].spec_id()] == PageIndex::Read(i),
        ensures
            post.wf(),
    {
        assert forall|j: int| 0 <= j < post.num_slots() implies (#[trigger] post.spec_read()[j]).wf()
            && post.spec_read()[j].page_size() == post.page_size() by {
            assert(pre.spec_read()[j].wf());
        }
        assert forall|id: PageID| #[trigger] post.spec_table().contains_key(id) implies
            post.slot_ok(id, post.spec_table()[id]) && id < post.spec_next_id() by {
            assert(pre.spec_table().contains_key(id));
            assert(pre.slot_ok(id, pre.spec_table()[id]));
        }
        assert forall|j: int| 0 <= j < post.spec_free().len() implies (
        #[trigger] post.spec_free()[j]) < post.num_slots() by {
            assert(pre.spec_free()[j] < pre.num_slots());
        }
        assert forall|a: int, b: int| 0 <= a < b < post.spec_free().len() implies
            post.spec_free()[a] != post.spec_free()[b] by {
            assert(pre.spec_free()[a] != pre.spec_free()[b]);
        }
        assert forall|j: int| 0 <= j < post.spec_free().len() implies !post.slot_mapped(
            #[trigger] post.spec_free()[j],
        ) && !post.spec_replacer().has(post.spec_free()[j]) by {
            let s = pre.spec_free()[j];
            assert(post.spec_free()[j] == s);
            assert(!pre.slot_mapped(s) && !pre.spec_replacer().has(s));
            if post.slot_mapped(s) {
                let id = choose|id: PageID|
                    #[trigger] post.spec_table().contains_key(id) && post.spec_table()[id]
                        == PageIndex::Read(s);
                assert(pre.spec_table().contains_key(id) && pre.spec_table()[id]
                    == PageIndex::Read(s));
                assert(pre.slot_mapped(s));
            }
            if s == i {
                assert(pre.slot_mapped(i));
            }
        }
        assert forall|x: usize| #[trigger] post.spec_replacer().has(x) implies x
            < post.num_slots() && post.spec_table().contains_key(
            post.spec_read()[x as int].spec_id(),
        ) && post.spec_table()[post.spec_read()[x as int].spec_id()] == PageIndex::Read(x) by {
            if x != i {
                assert(pre.spec_replacer().has(x));
            }
        }
        assert forall|id: PageID| #[trigger] post.spec_disk().contains_key(id) implies
            post.spec_disk()[id].len() == post.page_size() by {
            assert(pre.spec_disk().contains_key(id));
        }
    }

    /// Allocate the next page id.
    pub fn inc_id(&mut self) -> (r: PageID)
        requires
            old(self).wf(),
            old(self).spec_next_id() < PageID::MAX,
        ensures
            final(self).wf(),
            r == old(self).spec_next_id(),
            final(self).spec_next_id() == old(self).spec_next_id() + 1,
            final(self).spec_current() == old(self).spec_current(),
            final(self).spec_read() == old(self).spec_read(),
            final(self).spec_table() == old(self).spec_table(),
            final(self).spec_free() == old(self).spec_free(),
            final(self).spec_replacer() == old(self).spec_replacer(),
            final(self).spec_disk() == old(self).spec_disk(),
    {
        let r = self.next_id;
        self.next_id = self.next_id + 1;
        proof {
            let pre = *old(self);
            let post = *self;
            assert forall|id: PageID| #[trigger] post.spec_table().contains_key(id) implies
                post.slot_ok(id, post.spec_table()[id]) && id < post.spec_next_id() by {
                assert(pre.spec_table().contains_key(id));
                assert(pre.slot_ok(id, pre.spec_table()[id]));
            }
            assert forall|j: int| 0 <= j < post.num_slots() implies (
            #[trigger] post.spec_read()[j]).wf() && post.spec_read()[j].page_size()
                == post.page_size() by {
                assert(pre.spec_read()[j].wf());
            }
            assert forall|j: int| 0 <= j < post.spec_free().len() implies !post.slot_mapped(
                #[trigger] post.spec_free()[j],
            ) && !post.spec_replacer().has(post.spec_free()[j]) && post.spec_free()[j]
                < post.num_slots() by {
                let s = pre.spec_free()[j];
                assert(post.spec_free()[j] == s);
                assert(!pre.slot_mapped(s) && !pre.spec_replacer().has(s) && s < pre.num_slots());
                if post.slot_mapped(s) {
                    let id = choose|id: PageID|
                        #[trigger] post.spec_table().contains_key(id) && post.spec_table()[id]
                            == PageIndex::Read(s);
                    assert(pre.spec_table().contains_key(id) && pre.spec_table()[id]
                        == PageIndex::Read(s));
                }
            }
            assert forall|a: int, b: int| 0 <= a < b < post.spec_free().len() implies
                post.spec_free()[a] != post.spec_free()[b] by {
                assert(pre.spec_free()[a] != pre.spec_free()[b]);
            }
            assert forall|x: usize| #[trigger] post.spec_replacer().has(x) implies x
                < post.num_slots() && post.spec_table().contains_key(
                post.spec_read()[x as int].spec_id(),
            ) && post.spec_table()[post.spec_read()[x as int].spec_id()] == PageIndex::Read(
                x,
            ) by {
                assert(pre.spec_replacer().has(x));
            }
            assert forall|id: PageID| #[trigger] post.spec_disk().contains_key(id) implies
                post.spec_disk()[id].len() == post.page_size() by {
                assert(pre.spec_disk().contains_key(id));
            }
        }
        r
    }

    /// Take a slot for a page about to be loaded: pop the free list, or
    /// evict the replacer's victim and drop both its page-table entry and
    /// its replacer node. `None` means every slot is pinned.
    fn take_victim(&mut self) -> (r: Option<usize>)
        requires
            old(self).wf(),
        ensures
            final(self).spec_current() == old(self).spec_current(),
            final(self).spec_read() == old(self).spec_read(),
            final(self).spec_disk() == old(self).spec_disk(),
            final(self).spec_next_id() == old(self).spec_next_id(),
            match r {
                Some(i) => {
                    &&& final(self).wf()
                    &&& i < final(self).num_slots()
                    &&& !final(self).slot_mapped(i)
                    &&& !final(self).spec_replacer().has(i)
                    &&& forall|j: int|
                        0 <= j < final(self).spec_free().len() ==> (
                        #[trigger] final(self).spec_free()[j]) != i
                    &&& forall|id: PageID|
                        #[trigger] final(self).spec_table().contains_key(id) ==> old(
                            self,
                        ).spec_table().contains_key(id) && final(self).spec_table()[id] == old(
                            self,
                        ).spec_table()[id]
                },
                None => {
                    &&& *final(self) == *old(self)
                    &&& old(self).spec_free().len() == 0
                    &&& forall|i: usize| !old(self).spec_replacer().evictable(i)
                },
            },
    {
        let ghost pre = *self;
        if self.free.len() == 0 {
            return match self.replacer.evict() {
                Some(v) => {
                    proof {
                        assert(pre.spec_replacer().has(v));
                    }
                    let old_id = self.read[v].id();
                    self.page_table.remove(&old_id);
                    self.replacer.remove(v);
                    proof {
                        let post = *self;
                        assert(post.spec_table() =~= pre.spec_table().remove(old_id));
                        assert forall|id: PageID|
                            #[trigger] post.spec_table().contains_key(id) implies post.slot_ok(
                            id,
                            post.spec_table()[id],
                        ) && id < post.spec_next_id() by {
                            assert(pre.spec_table().contains_key(id));
                            assert(pre.slot_ok(id, pre.spec_table()[id]));
                        }
                        if post.slot_mapped(v) {
                            let id = choose|id: PageID|
                                #[trigger] post.spec_table().contains_key(id)
                                    && post.spec_table()[id] == PageIndex::Read(v);
                            assert(pre.slot_ok(id, pre.spec_table()[id]));
                            assert(pre.spec_read()[v as int].spec_id() == id);
                            assert(id == old_id);
                        }
                        assert forall|x: usize| #[trigger] post.spec_replacer().has(x) implies x
                            < post.num_slots() && post.spec_table().contains_key(
                            post.spec_read()[x as int].spec_id(),
                        ) && post.spec_table()[post.spec_read()[x as int].spec_id()]
                            == PageIndex::Read(x) by {
                            assert(pre.spec_replacer().has(x));
                            let sid = pre.spec_read()[x as int].spec_id();
                            assert(pre.spec_table()[sid] == PageIndex::Read(x));
                            if sid == old_id {
                                assert(PageIndex::Read(x) == PageIndex::Read(v));
                            }
                        }
                        assert forall|j: int| 0 <= j < post.num_slots() implies (
                        #[trigger] post.spec_read()[j]).wf() && post.spec_read()[j].page_size()
                            == post.page_size() by {
                            assert(pre.spec_read()[j].wf());
                        }
                        assert forall|id: PageID| #[trigger] post.spec_disk().contains_key(
                            id,
                        ) implies post.spec_disk()[id].len() == post.page_size() by {
                            assert(pre.spec_disk().contains_key(id));
                        }
                        assert(post.spec_table().contains_key(post.current_id()));
                        assert(post.wf());
                    }
                    Some(v)
                },
                None => {
                    proof {
                        assert forall|i: usize| !pre.spec_replacer().evictable(i) by {}
                    }
                    None
                },
            };
        }
        match self.free.pop() {
            Some(i) => {
                proof {
                    let post = *self;
                    let fl = pre.spec_free();
                    assert(i == fl[fl.len() - 1]);
                    assert(!pre.slot_mapped(i) && !pre.spec_replacer().has(i) && i
                        < pre.num_slots());
                    assert forall|j: int| 0 <= j < post.spec_free().len() implies (
                    #[trigger] post.spec_free()[j]) != i && post.spec_free()[j] < post.num_slots()
                        && !post.slot_mapped(post.spec_free()[j]) && !post.spec_replacer().has(
                        post.spec_free()[j],
                    ) by {
                        assert(post.spec_free()[j] == fl[j]);
                        assert(fl[j] != fl[fl.len() - 1]);
                        assert(!pre.slot_mapped(fl[j]) && !pre.spec_replacer().has(fl[j]) && fl[j]
                            < pre.num_slots());
                        if post.slot_mapped(fl[j]) {
                            let id = choose|id: PageID|
                                #[trigger] post.spec_table().contains_key(id)
                                    && post.spec_table()[id] == PageIndex::Read(fl[j]);
                            assert(pre.slot_mapped(fl[j]));
                        }
                    }
                    assert forall|a: int, b: int| 0 <= a < b < post.spec_free().len() implies
                        post.spec_free()[a] != post.spec_free()[b] by {
                        assert(fl[a] != fl[b]);
                    }
                    if post.slot_mapped(i) {
                        let id = choose|id: PageID|
                            #[trigger] post.spec_table().contains_key(id) && post.spec_table()[id]
                                == PageIndex::Read(i);
                        assert(pre.slot_mapped(i));
                    }
                    assert forall|j: int| 0 <= j < post.num_slots() implies (
                    #[trigger] post.spec_read()[j]).wf() && post.spec_read()[j].page_size()
                        == post.page_size() by {
                        assert(pre.spec_read()[j].wf());
                    }
                    assert forall|id: PageID|
                        #[trigger] post.spec_table().contains_key(id) implies post.slot_ok(
                        id,
                        post.spec_table()[id],
                    ) && id < post.spec_next_id() by {
                        assert(pre.spec_table().contains_key(id));
                        assert(pre.slot_ok(id, pre.spec_table()[id]));
                    }
                    assert forall|x: usize| #[trigger] post.spec_replacer().has(x) implies x
                        < post.num_slots() && post.spec_table().contains_key(
                        post.spec_read()[x as int].spec_id(),
                    ) && post.spec_table()[post.spec_read()[x as int].spec_id()]
                        == PageIndex::Read(x) by {
                        assert(pre.spec_replacer().has(x));
                    }
                    assert forall|id: PageID| #[trigger] post.spec_disk().contains_key(
                        id,
                    ) implies post.spec_disk()[id].len() == post.page_size() by {
                        assert(pre.spec_disk().contains_key(id));
                    }
                    assert(post.wf());
                }
                Some(i)
            },
            None => {
                proof {
                    assert(false);
                }
                None
            },
        }
    }

    /// The flush job for an orderly shutdown: the current page's id and a
    /// copy of its bytes, to be stored at its place in the file.
    pub fn flush_current(&self) -> (r: (PageID, Vec<u8>))
        ensures
            r.0 == self.current_id(),
            r.1@ == self.spec_current().spec_data(),
    {
        (self.current.id(), self.current.data_copy())
    }

    /// Look a record up without touching the disk. When its page is
    /// resident, the record is decoded from the resident copy — the
    /// current page or a read slot, whose bytes are the page's stored
    /// bytes — and on the read-slot path the replacer sees an access and a
    /// pin around the read. When the page is not resident, the caller is
    /// told to read it and hand the bytes to `fetch_entry_loaded`, and
    /// nothing changes.
    pub fn fetch_entry(&mut self, kd: &KeyData) -> (r: FetchResult)
        requires
            old(self).wf(),
        ensures
            final(self).wf(),
            final(self).spec_disk() == old(self).spec_disk(),
            final(self).spec_current() == old(self).spec_current(),
            final(self).spec_read() == old(self).spec_read(),
            final(self).spec_table() == old(self).spec_table(),
            final(self).spec_free() == old(self).spec_free(),
            final(self).spec_next_id() == old(self).spec_next_id(),
            match r {
                FetchResult::Found(e) => {
                    &&& old(self).spec_table().contains_key(kd.page_id)
                    &&& spec_decode_entry(old(self).page_bytes(kd.page_id), kd.offset as int)
                        == Some(e@)
                    &&& e.wf()
                },
                FetchResult::Missing => {
                    &&& old(self).spec_table().contains_key(kd.page_id)
                    &&& spec_decode_entry(
                        old(self).page_bytes(kd.page_id),
                        kd.offset as int,
                    ) is None
                },
                FetchResult::NeedPage(pid) => {
                    &&& pid == kd.page_id
                    &&& !old(self).spec_table().contains_key(kd.page_id)
                    &&& *final(self) == *old(self)
                },
            },
    {
        let ghost pre = *self;
        let pid = kd.page_id;
        let idx = match self.page_table.get(&pid) {
            Some(idx) => Some(*idx),
            None => None,
        };
        match idx {
            Some(PageIndex::Write) => {
                let e = self.current.read_entry_u64(kd.offset);
                proof {
                    assert(pre.slot_ok(pid, pre.spec_table()[pid]));
                    assert(pre.page_bytes(pid) == pre.spec_current().spec_data());
                }
                match e {
                    Some(e) => FetchResult::Found(e),
                    None => FetchResult::Missing,
                }
            },
            Some(PageIndex::Read(i)) => {
                proof {
                    assert(pre.spec_table().contains_key(pid));
                    assert(pre.slot_ok(pid, pre.spec_table()[pid]));
                    assert(pid != pre.current_id());
                    assert(pre.page_bytes(pid) == pre.spec_read()[i as int].spec_data());
                }
                self.replacer.record_access(i);
                self.replacer.pin(i);
                let e = self.read[i].read_entry_u64(kd.offset);
                self.replacer.unpin(i);
                proof {
                    let post = *self;
                    assert forall|x: usize|
                        post.spec_replacer().has(x) == (pre.spec_replacer().has(x) || x
                            == i) by {}
                    assert(pre.spec_read()[i as int].spec_id() == pid);
                    Self::lemma_wf_after_replacer_touch(pre, post, i);
                }
                match e {
                    Some(e) => FetchResult::Found(e),
                    None => FetchResult::Missing,
                }
            },
            None => FetchResult::NeedPage(pid),
        }
    }

    /// Finish a fetch that missed: install the page's bytes in a victim
    /// slot, map the page there, and decode the record. The bytes must be
    /// the page's stored bytes whenever the store knows them, and are
    /// recorded as the stored bytes afterwards. `None` means either that
    /// no record decodes at the offset, or that the free list was empty
    /// and every tracked slot was pinned, so nothing could be evicted.
    pub fn fetch_entry_loaded(&mut self, kd: &KeyData, bytes: Vec<u8>) -> (r: Option<Entry>)
        requires
            old(self).wf(),
            !old(self).spec_table().contains_key(kd.page_id),
            kd.page_id < old(self).spec_next_id(),
            bytes@.len() == old(self).page_size(),
            old(self).spec_disk().contains_key(kd.page_id) ==> old(self).spec_disk()[kd.page_id]
                == bytes@,
        ensures
            final(self).wf(),
            final(self).spec_current() == old(self).spec_current(),
            final(self).spec_next_id() == old(self).spec_next_id(),
            final(self).page_size() == old(self).page_size(),
            match r {
                Some(e) => {
                    &&& final(self).spec_disk() == old(self).spec_disk().insert(
                        kd.page_id,
                        bytes@,
                    )
                    &&& spec_decode_entry(bytes@, kd.offset as int) == Some(e@)
                    &&& e.wf()
                    &&& final(self).spec_table().contains_key(kd.page_id)
                },
                None => {
                    ||| {
                        &&& final(self).spec_disk() == old(self).spec_disk().insert(
                            kd.page_id,
                            bytes@,
                        )
                        &&& spec_decode_entry(bytes@, kd.offset as int) is None
                        &&& final(self).spec_table().contains_key(kd.page_id)
                    }
                    ||| {
                        &&& *final(self) == *old(self)
                        &&& old(self).spec_free().len() == 0
                        &&& forall|i: usize| !old(self).spec_replacer().evictable(i)
                    }
                },
            },
    {
        let ghost bytes_view = bytes@;
        let pid = kd.page_id;
        let i = match self.take_victim() {
            Some(i) => i,
            None => {
                return None;
            },
        };
        let ghost mid = *self;
        self.replacer.record_access(i);
        self.replacer.pin(i);
        self.read[i] = PageInner::from_bytes(pid, bytes);
        let e = self.read[i].read_entry_u64(kd.offset);
        self.replacer.unpin(i);
        self.page_table.insert(pid, PageIndex::Read(i));
        proof {
            self.disk_model@ = self.disk_model@.insert(pid, bytes_view);
        }
        proof {
            let post = *self;
            crate::page::lemma_loaded_len_bounds(bytes_view);
            assert(post.spec_read() =~= mid.spec_read().update(
                i as int,
                post.spec_read()[i as int],
            ));
            assert(post.spec_read()[i as int].spec_data() == bytes_view);
            assert(post.spec_table() =~= mid.spec_table().insert(pid, PageIndex::Read(i)));
            assert(!mid.spec_table().contains_key(pid));
            assert forall|x: usize|
                post.spec_replacer().has(x) == (mid.spec_replacer().has(x) || x == i) by {}
            assert forall|j: int| 0 <= j < post.num_slots() implies (
            #[trigger] post.spec_read()[j]).wf() && post.spec_read()[j].page_size()
                == post.page_size() by {
                if j != i {
                    assert(mid.spec_read()[j].wf());
                    assert(post.spec_read()[j] == mid.spec_read()[j]);
                }
            }
            assert forall|id: PageID| #[trigger] post.spec_table().contains_key(id) implies
                post.slot_ok(id, post.spec_table()[id]) && id < post.spec_next_id() by {
                if id != pid {
                    assert(mid.spec_table().contains_key(id));
                    assert(mid.slot_ok(id, mid.spec_table()[id]));
                    match mid.spec_table()[id] {
                        PageIndex::Write => {},
                        PageIndex::Read(j) => {
                            assert(j != i) by {
                                if j == i {
                                    assert(mid.slot_mapped(i));
                                }
                            }
                            assert(post.spec_read()[j as int] == mid.spec_read()[j as int]);
                        },
                    }
                }
            }
            assert(post.spec_table().contains_key(post.current_id())) by {
                assert(mid.spec_table().contains_key(mid.current_id()));
                assert(pid != mid.current_id());
            }
            assert forall|j: int| 0 <= j < post.spec_free().len() implies (
            #[trigger] post.spec_free()[j]) < post.num_slots() && !post.slot_mapped(
                post.spec_free()[j],
            ) && !post.spec_replacer().has(post.spec_free()[j]) by {
                let s = mid.spec_free()[j];
                assert(post.spec_free()[j] == s);
                assert(!mid.slot_mapped(s) && !mid.spec_replacer().has(s) && s < mid.num_slots());
                assert(s != i);
                if post.slot_mapped(s) {
                    let id = choose|id: PageID|
                        #[trigger] post.spec_table().contains_key(id) && post.spec_table()[id]
                            == PageIndex::Read(s);
                    assert(id != pid);
                    assert(mid.slot_mapped(s));
                }
            }
            assert forall|a: int, b: int| 0 <= a < b < post.spec_free().len() implies
                post.spec_free()[a] != post.spec_free()[b] by {
                assert(mid.spec_free()[a] != mid.spec_free()[b]);
            }
            assert forall|x: usize| #[trigger] post.spec_replacer().has(x) implies x
                < post.num_slots() && post.spec_table().contains_key(
                post.spec_read()[x as int].spec_id(),
            ) && post.spec_table()[post.spec_read()[x as int].spec_id()] == PageIndex::Read(
                x,
            ) by {
                if x != i {
                    assert(mid.spec_replacer().has(x));
                    let sid = mid.spec_read()[x as int].spec_id();
                    assert(mid.spec_table()[sid] == PageIndex::Read(x));
                    assert(sid != pid);
                    assert(post.spec_read()[x as int] == mid.spec_read()[x as int]);
                }
            }
            assert forall|id: PageID| #[trigger] post.spec_disk().contains_key(id) implies
                post.spec_disk()[id].len() == post.page_size() by {
                if id != pid {
                    assert(mid.spec_disk().contains_key(id));
                }
            }
            assert(post.wf());
        }
        e
    }

    /// Allocate a fresh zeroed page in a read slot, under the next page
    /// id, and hand back the job of storing it. `None` means no slot was
    /// free or evictable.
    pub fn new_page(&mut self) -> (r: Option<(PageID, Vec<u8>)>)
        requires
            old(self).wf(),
            old(self).spec_next_id() < PageID::MAX,
        ensures
            final(self).wf(),
            final(self).spec_current() == old(self).spec_current(),
            final(self).page_size() == old(self).page_size(),
            match r {
                Some(job) => {
                    &&& job.0 == old(self).spec_next_id()
                    &&& job.1@.len() == old(self).page_size()
                    &&& all_zero_range(job.1@, 0, old(self).page_size())
                    &&& final(self).spec_disk() == old(self).spec_disk().insert(job.0, job.1@)
                    &&& final(self).spec_next_id() == old(self).spec_next_id() + 1
                    &&& final(self).spec_table().contains_key(job.0)
                },
                None => {
                    &&& *final(self) == *old(self)
                    &&& old(self).spec_free().len() == 0
                    &&& forall|i: usize| !old(self).spec_replacer().evictable(i)
                },
            },
    {
        let i = match self.take_victim() {
            Some(i) => i,
            None => {
                return None;
            },
        };
        let ghost mid = *self;
        let page_id = self.inc_id();
        let ghost mid2 = *self;
        self.replacer.record_access(i);
        self.replacer.pin(i);
        let page_size = self.current.page_size_usize();
        let page = PageInner::new(page_id, page_size);
        let job = page.data_copy();
        self.read[i] = page;
        self.replacer.unpin(i);
        self.page_table.insert(page_id, PageIndex::Read(i));
        proof {
            self.disk_model@ = self.disk_model@.insert(page_id, job@);
        }
        proof {
            let post = *self;
            assert(post.spec_read() =~= mid2.spec_read().update(
                i as int,
                post.spec_read()[i as int],
            ));
            assert(post.spec_read()[i as int].spec_data() == job@);
            assert(post.spec_table() =~= mid2.spec_table().insert(page_id, PageIndex::Read(i)));
            assert(!mid2.spec_table().contains_key(page_id));
            assert forall|x: usize|
                post.spec_replacer().has(x) == (mid2.spec_replacer().has(x) || x == i) by {}
            assert forall|j: int| 0 <= j < post.num_slots() implies (
            #[trigger] post.spec_read()[j]).wf() && post.spec_read()[j].page_size()
                == post.page_size() by {
                if j != i {
                    assert(mid2.spec_read()[j].wf());
                    assert(post.spec_read()[j] == mid2.spec_read()[j]);
                }
            }
            assert forall|id: PageID| #[trigger] post.spec_table().contains_key(id) implies
                post.slot_ok(id, post.spec_table()[id]) && id < post.spec_next_id() by {
                if id != page_id {
                    assert(mid2.spec_table().contains_key(id));
                    assert(mid2.slot_ok(id, mid2.spec_table()[id]));
                    match mid2.spec_table()[id] {
                        PageIndex::Write => {},
                        PageIndex::Read(j) => {
                            assert(j != i) by {
                                if j == i {
                                    assert(mid2.slot_mapped(i)) by {
                                        assert(mid.slot_mapped(i) == mid2.slot_mapped(i));
                                    }
                                    assert(mid.slot_mapped(i));
                                }
                            }
                            assert(post.spec_read()[j as int] == mid2.spec_read()[j as int]);
                        },
                    }
                }
            }
            assert(post.spec_table().contains_key(post.current_id())) by {
                assert(mid2.spec_table().contains_key(mid2.current_id()));
                assert(page_id != mid2.current_id());
            }
            assert forall|j: int| 0 <= j < post.spec_free().len() implies (
            #[trigger] post.spec_free()[j]) < post.num_slots() && !post.slot_mapped(
                post.spec_free()[j],
            ) && !post.spec_replacer().has(post.spec_free()[j]) by {
                let s = mid.spec_free()[j];
                assert(post.spec_free()[j] == s);
                assert(!mid.slot_mapped(s) && !mid.spec_replacer().has(s) && s < mid.num_slots());
                assert(s != i);
                if post.slot_mapped(s) {
                    let id = choose|id: PageID|
                        #[trigger] post.spec_table().contains_key(id) && post.spec_table()[id]
                            == PageIndex::Read(s);
                    assert(id != page_id);
                    assert(mid.spec_table().contains_key(id) && mid.spec_table()[id]
                        == PageIndex::Read(s));
                    assert(mid.slot_mapped(s));
                }
            }
            assert forall|a: int, b: int| 0 <= a < b < post.spec_free().len() implies
                post.spec_free()[a] != post.spec_free()[b] by {
                assert(mid.spec_free()[a] != mid.spec_free()[b]);
            }
            assert forall|x: usize| #[trigger] post.spec_replacer().has(x) implies x
                < post.num_slots() && post.spec_table().contains_key(
                post.spec_read()[x as int].spec_id(),
            ) && post.spec_table()[post.spec_read()[x as int].spec_id()] == PageIndex::Read(
                x,
            ) by {
                if x != i {
                    assert(mid2.spec_replacer().has(x));
                    let sid = mid2.spec_read()[x as int].spec_id();
                    assert(mid2.spec_table()[sid] == PageIndex::Read(x));
                    assert(sid != page_id);
                    assert(post.spec_read()[x as int] == mid2.spec_read()[x as int]);
                }
            }
            assert forall|id: PageID| #[trigger] post.spec_disk().contains_key(id) implies
                post.spec_disk()[id].len() == post.page_size() by {
                if id != page_id {
                    assert(mid2.spec_disk().contains_key(id));
                }
            }
            assert(post.wf());
        }
        Some((page_id, job))
    }

    /// Roll the log tail: hand back the full current page as a flush job,
    /// record its bytes as stored, and start a fresh current page under the
    /// next id.
    pub fn replace_current(&mut self) -> (r: (PageID, Vec<u8>))
        requires
            old(self).wf(),
            old(self).spec_next_id() < PageID::MAX,
        ensures
            final(self).wf(),
            r.0 == old(self).current_id(),
            r.1@ == old(self).spec_current().spec_data(),
            final(self).spec_disk() == old(self).spec_disk().insert(r.0, r.1@),
            final(self).current_id() == old(self).spec_next_id(),
            final(self).spec_current().spec_len() == 0,
            all_zero_range(final(self).spec_current().spec_data(), 0, final(self).page_size()),
            final(self).page_size() == old(self).page_size(),
            final(self).spec_next_id() == old(self).spec_next_id() + 1,
            final(self).spec_read() == old(self).spec_read(),
            final(self).spec_free() == old(self).spec_free(),
            final(self).spec_replacer() == old(self).spec_replacer(),
            final(self).spec_table() == old(self).spec_table().remove(
                old(self).current_id(),
            ).insert(final(self).current_id(), PageIndex::Write),
    {
        let old_id = self.current.id();
        let data = self.current.data_copy();
        self.page_table.remove(&old_id);
        let page_id = self.next_id;
        self.next_id = self.next_id + 1;
        self.current.reset();
        self.current.set_id(page_id);
        self.page_table.insert(page_id, PageIndex::Write);
        proof {
            self.disk_model@ = self.disk_model@.insert(old_id, data@);
        }
        proof {
            let pre = *old(self);
            let post = *self;
            assert(post.spec_table() =~= pre.spec_table().remove(old_id).insert(
                page_id,
                PageIndex::Write,
            ));
            assert forall|id: PageID| #[trigger] post.spec_table().contains_key(id) implies
                post.slot_ok(id, post.spec_table()[id]) && id < post.spec_next_id() by {
                if id != page_id {
                    assert(pre.spec_table().contains_key(id));
                    assert(pre.slot_ok(id, pre.spec_table()[id]));
                    match pre.spec_table()[id] {
                        PageIndex::Write => {},
                        PageIndex::Read(i) => {
                            assert(id != old_id);
                        },
                    }
                }
            }
            assert forall|j: int| 0 <= j < post.spec_free().len() implies !post.slot_mapped(
                #[trigger] post.spec_free()[j],
            ) && !post.spec_replacer().has(post.spec_free()[j]) by {
                let s = pre.spec_free()[j];
                assert(post.spec_free()[j] == s);
                assert(!pre.slot_mapped(s) && !pre.spec_replacer().has(s));
                if post.slot_mapped(s) {
                    let id = choose|id: PageID|
                        #[trigger] post.spec_table().contains_key(id) && post.spec_table()[id]
                            == PageIndex::Read(s);
                    assert(pre.spec_table().contains_key(id) && pre.spec_table()[id]
                        == PageIndex::Read(s));
                }
            }
            assert forall|i: usize| #[trigger] post.spec_replacer().has(i) implies i
                < post.num_slots() && post.spec_table().contains_key(
                post.spec_read()[i as int].spec_id(),
            ) && post.spec_table()[post.spec_read()[i as int].spec_id()] == PageIndex::Read(
                i,
            ) by {
                assert(pre.spec_replacer().has(i));
                let sid = pre.spec_read()[i as int].spec_id();
                assert(pre.spec_table()[sid] == PageIndex::Read(i));
                assert(sid != old_id && sid != page_id);
            }
            assert forall|j: int| 0 <= j < post.num_slots() implies (
            #[trigger] post.spec_read()[j]).wf() && post.spec_read()[j].page_size()
                == post.page_size() by {
                assert(pre.spec_read()[j].wf());
            }
            assert forall|j: int| 0 <= j < post.spec_free().len() implies (
            #[trigger] post.spec_free()[j]) < post.num_slots() by {
                assert(pre.spec_free()[j] < pre.num_slots());
            }
            assert forall|a: int, b: int| 0 <= a < b < post.spec_free().len() implies
                post.spec_free()[a] != post.spec_free()[b] by {
                assert(pre.spec_free()[a] != pre.spec_free()[b]);
            }
            assert forall|id: PageID| #[trigger] post.spec_disk().contains_key(id) implies
                post.spec_disk()[id].len() == post.page_size() by {
                if id != old_id {
                    assert(pre.spec_disk().contains_key(id));
                }
            }
        }
        (old_id, data)
    }
}

/// At most one copy: a well-formed cache never holds one page id in two
/// places. Two distinct resident page ids sit in distinct slots, and a
/// read slot holds the id it is mapped under, so the current page and the
/// read slots all hold different pages.
pub proof fn lemma_at_most_one_copy(c: PageCache, id1: PageID, id2: PageID)
    requires
        c.wf(),
        c.spec_table().contains_key(id1),
        c.spec_table().contains_key(id2),
        id1 != id2,
    ensures
        c.spec_table()[id1] != c.spec_table()[id2],
{
    assert(c.slot_ok(id1, c.spec_table()[id1]));
    assert(c.slot_ok(id2, c.spec_table()[id2]));
    match c.spec_table()[id1] {
        PageIndex::Write => {
            if c.spec_table()[id2] == PageIndex::Write {
                assert(id1 == c.current_id() && id2 == c.current_id());
            }
        },
        PageIndex::Read(i) => {
            if c.spec_table()[id2] == PageIndex::Read(i) {
                assert(c.spec_read()[i as int].spec_id() == id1);
                assert(c.spec_read()[i as int].spec_id() == id2);
            }
        },
    }
}

/// Whether `kd` names a live `Put` record for key `k`: it lies on a page
/// the store holds — the current page or a stored one — it decodes there
/// to a `Put` of exactly that key, and on the current page it lies inside
/// the written prefix, where appends cannot touch it.
pub open spec fn location_valid(cache: PageCache, kd: KeyData, k: Seq<u8>) -> bool {
    &&& kd.page_id <= cache.current_id()
    &&& kd.page_id == cache.current_id() || cache.spec_disk().contains_key(kd.page_id)
    &&& match spec_decode_entry(cache.page_bytes(kd.page_id), kd.offset as int) {
        Some(es) => {
            &&& es.t == EntryType::Put
            &&& es.key == k
            &&& kd.page_id == cache.current_id() ==> kd.offset + es.size() <= cache.spec_current().spec_len()
        },
        None => false,
    }
}

/// The store's central invariant: a key is in the directory exactly while
/// it is live, and its entry names the location of its most recent `Put`.
pub open spec fn store_inv(cache: PageCache, dir: KeyDir) -> bool {
    &&& cache.wf()
    &&& dir.wf()
    &&& forall|k: Seq<u8>| #[trigger] dir@.contains_key(k) ==> location_valid(cache, dir@[k], k)
}

/// The abstract key-value map the store implements: each live key bound to
/// the value of the record its directory entry points at.
pub open spec fn value_model(cache: PageCache, dir: KeyDir) -> Map<Seq<u8>, Seq<u8>> {
    Map::new(
        |k: Seq<u8>| dir@.contains_key(k),
        |k: Seq<u8>| spec_decode_entry(
            cache.page_bytes(dir@[k].page_id),
            dir@[k].offset as int,
        )->Some_0.value,
    )
}


} // verus!
