//! The request dispatcher: parsed commands, the line parser, and the
//! translation of commands into storage operations and reply bytes.

use vstd::prelude::*;
use vstd::map::*;
use crate::entry::{Entry, EntryType, spec_decode_entry};
use crate::key_dir::{KeyData, KeyDir};
use crate::page::PageID;
use crate::page_manager::{location_valid, store_inv, value_model, FetchResult, PageCache};

verus! {

/// A parsed command or a reply.
#[derive(Debug, PartialEq)]
pub enum Message {
    Insert(Vec<u8>, Vec<u8>),
    Delete(Vec<u8>),
    Get(Vec<u8>),
    /// A get hit: the key and its value.
    Reply(Vec<u8>, Vec<u8>),
    Success,
    /// Malformed or blank input of the given length, consumed silently.
    Ignore(usize),
    /// No reply bytes: a get miss, or nothing to say.
    Empty,
}

/// The fields of a message, as mathematical values.
pub enum MessageSpec {
    Insert(Seq<u8>, Seq<u8>),
    Delete(Seq<u8>),
    Get(Seq<u8>),
    Reply(Seq<u8>, Seq<u8>),
    Success,
    Ignore(int),
    Empty,
}

impl View for Message {
    type V = MessageSpec;

    open spec fn view(&self) -> MessageSpec {
        match self {
            Message::Insert(k, v) => MessageSpec::Insert(k@, v@),
            Message::Delete(k) => MessageSpec::Delete(k@),
            Message::Get(k) => MessageSpec::Get(k@),
            Message::Reply(k, v) => MessageSpec::Reply(k@, v@),
            Message::Success => MessageSpec::Success,
            Message::Ignore(n) => MessageSpec::Ignore(*n as int),
            Message::Empty => MessageSpec::Empty,
        }
    }
}

/// How many buffer bytes a message accounts for, by its kind.
pub open spec fn spec_message_len(m: MessageSpec) -> int {
    match m {
        MessageSpec::Insert(k, v) => 9 + k.len() as int + v.len() as int,
        MessageSpec::Delete(k) => 7 + k.len() as int,
        MessageSpec::Get(k) => 5 + k.len() as int,
        MessageSpec::Reply(k, v) => k.len() as int + v.len() as int + 1,
        MessageSpec::Success => 8int,
        MessageSpec::Ignore(l) => l,
        MessageSpec::Empty => 0int,
    }
}

/// The first position at or after `from` where byte `c` stands, or -1.
pub open spec fn spec_find_byte(s: Seq<u8>, c: u8, from: int) -> int
    decreases s.len() - from,
{
    if from < 0 || from >= s.len() {
        -1
    } else if s[from] == c {
        from
    } else {
        spec_find_byte(s, c, from + 1)
    }
}

pub proof fn lemma_find_byte_bounds(s: Seq<u8>, c: u8, from: int)
    ensures
        spec_find_byte(s, c, from) == -1 || (from <= spec_find_byte(s, c, from) < s.len()
            && s[spec_find_byte(s, c, from)] == c),
    decreases s.len() - from,
{
    if 0 <= from < s.len() && s[from] != c {
        lemma_find_byte_bounds(s, c, from + 1);
    }
}

/// A parsed message accounts for no more bytes than the buffer holds, so
/// a connection can drop that many bytes from its front after each parse.
pub proof fn lemma_parse_len_bounded(s: Seq<u8>)
    requires
        spec_parse(s) is Some,
    ensures
        0 <= spec_message_len(spec_parse(s)->Some_0) <= s.len(),
{
    lemma_find_byte_bounds(s, 10, 4);
    lemma_find_byte_bounds(s, 32, 7);
    lemma_find_byte_bounds(s, 10, 7);
    if s.len() > 4 && s[0] == 105 {
        let ks = spec_find_byte(s, 32, 7);
        if ks != -1 {
            lemma_find_byte_bounds(s, 10, ks + 1);
        }
    }
}

/// Scan for byte `c` from `start`; `None` when it does not occur.
fn find_byte(s: &[u8], c: u8, start: usize) -> (r: Option<usize>)
    ensures
        match r {
            Some(i) => start <= i < s@.len() && i == spec_find_byte(s@, c, start as int),
            None => spec_find_byte(s@, c, start as int) == -1,
        },
{
    let n = s.len();
    let mut i = start;
    while i < n
        invariant
            start <= i,
            n == s@.len(),
            spec_find_byte(s@, c, start as int) == spec_find_byte(s@, c, i as int),
        decreases n - i,
    {
        if s[i] == c {
            return Some(i);
        }
        i += 1;
    }
    None
}

/// A copy of the slice bytes in `[from, to)`.
fn slice_range(s: &[u8], from: usize, to: usize) -> (r: Vec<u8>)
    requires
        from <= to <= s@.len(),
    ensures
        r@ == s@.subrange(from as int, to as int),
{
    let mut r: Vec<u8> = Vec::new();
    let mut i: usize = from;
    while i < to
        invariant
            from <= i <= to <= s@.len(),
            r@.len() == i - from,
            forall|j: int| 0 <= j < i - from ==> r@[j] == s@[from + j],
        decreases to - i,
    {
        r.push(s[i]);
        i += 1;
    }
    proof {
        assert(r@ =~= s@.subrange(from as int, to as int));
    }
    r
}

/// What a buffer parses to: a blank line is skipped; a line `get <key>\n`
/// reads, `insert <key> <value>\n` writes and `delete <key>\n` erases;
/// any other complete line is consumed and ignored; `None` asks for more
/// input.
pub open spec fn spec_parse(s: Seq<u8>) -> Option<MessageSpec> {
    if s.len() >= 1 && s[0] == 10 {
        Some(MessageSpec::Ignore(1))
    } else if s.len() <= 4 {
        None
    } else if s[0] == 103 && s[1] == 101 && s[2] == 116 {
        let e = spec_find_byte(s, 10, 4);
        if e == -1 {
            None
        } else {
            Some(MessageSpec::Get(s.subrange(4, e)))
        }
    } else if s.len() < 7 {
        None
    } else if s[0] == 105 && s[1] == 110 && s[2] == 115 && s[3] == 101 && s[4] == 114 && s[5]
        == 116 {
        let ks = spec_find_byte(s, 32, 7);
        if ks == -1 {
            None
        } else {
            let ve = spec_find_byte(s, 10, ks + 1);
            if ve == -1 {
                None
            } else {
                Some(MessageSpec::Insert(s.subrange(7, ks), s.subrange(ks + 1, ve)))
            }
        }
    } else if s[0] == 100 && s[1] == 101 && s[2] == 108 && s[3] == 101 && s[4] == 116 && s[5]
        == 101 {
        let e = spec_find_byte(s, 10, 7);
        if e == -1 {
            None
        } else {
            Some(MessageSpec::Delete(s.subrange(7, e)))
        }
    } else {
        Some(MessageSpec::Ignore(s.len() as int))
    }
}

impl Message {
    /// The lengths a command carries stay addressable.
    pub open spec fn wf(self) -> bool {
        match self@ {
            MessageSpec::Insert(k, v) => 25 + k.len() + v.len() <= usize::MAX,
            MessageSpec::Delete(k) => 25 + k.len() <= usize::MAX,
            MessageSpec::Get(k) => 25 + k.len() <= usize::MAX,
            _ => true,
        }
    }

    /// Parse one line from the front of the buffer.
    pub fn parse(buf: &[u8]) -> (r: Option<Message>)
        requires
            buf@.len() + 25 <= usize::MAX,
        ensures
            match r {
                Some(m) => spec_parse(buf@) == Some(m@) && m.wf(),
                None => spec_parse(buf@) is None,
            },
    {
        let n = buf.len();
        if n >= 1 && buf[0] == 10u8 {
            return Some(Message::Ignore(1));
        }
        if n <= 4 {
            return None;
        }
        if buf[0] == 103u8 && buf[1] == 101u8 && buf[2] == 116u8 {
            return match find_byte(buf, 10u8, 4) {
                Some(e) => Some(Message::Get(slice_range(buf, 4, e))),
                None => None,
            };
        }
        if n < 7 {
            return None;
        }
        if buf[0] == 105u8 && buf[1] == 110u8 && buf[2] == 115u8 && buf[3] == 101u8 && buf[4] == 114u8
            && buf[5] == 116u8 {
            let ks = match find_byte(buf, 32u8, 7) {
                Some(ks) => ks,
                None => {
                    return None;
                },
            };
            let ve = match find_byte(buf, 10u8, ks + 1) {
                Some(ve) => ve,
                None => {
                    return None;
                },
            };
            return Some(
                Message::Insert(slice_range(buf, 7, ks), slice_range(buf, ks + 1, ve)),
            );
        }
        if buf[0] == 100u8 && buf[1] == 101u8 && buf[2] == 108u8 && buf[3] == 101u8 && buf[4] == 116u8
            && buf[5] == 101u8 {
            return match find_byte(buf, 10u8, 7) {
                Some(e) => Some(Message::Delete(slice_range(buf, 7, e))),
                None => None,
            };
        }
        Some(Message::Ignore(n))
    }

    /// How many buffer bytes the message accounts for.
    pub fn len(&self) -> (r: usize)
        requires
            self.wf(),
            match self@ {
                MessageSpec::Reply(k, v) => k.len() + v.len() + 1 <= usize::MAX,
                _ => true,
            },
        ensures
            r == spec_message_len(self@),
    {
        match self {
            Message::Insert(k, v) => 9 + k.len() + v.len(),
            Message::Delete(k) => 7 + k.len(),
            Message::Get(k) => 5 + k.len(),
            Message::Reply(k, v) => k.len() + v.len() + 1,
            Message::Success => 8,
            Message::Ignore(l) => *l,
            Message::Empty => 0,
        }
    }

    /// The reply bytes for this message: `<key> <value>\n` for a get hit,
    /// `Success\n` for an acknowledged mutation, nothing otherwise.
    pub fn reply_bytes(&self) -> (r: Vec<u8>)
        requires
            match self@ {
                MessageSpec::Reply(k, v) => k.len() + v.len() + 2 <= usize::MAX,
                _ => true,
            },
        ensures
            r@ == spec_reply_bytes(self@),
    {
        match self {
            Message::Reply(k, v) => {
                let mut r = crate::page::bytes_range(k, 0, k.len());
                r.push(32u8);
                let mut vb = crate::page::bytes_range(v, 0, v.len());
                r.append(&mut vb);
                r.push(10u8);
                proof {
                    assert(k@.subrange(0, k@.len() as int) =~= k@);
                    assert(v@.subrange(0, v@.len() as int) =~= v@);
                    assert(r@ =~= k@ + seq![32u8] + v@ + seq![10u8]);
                }
                r
            },
            Message::Success => {
                let mut r: Vec<u8> = Vec::new();
                r.push(83u8);
                r.push(117u8);
                r.push(99u8);
                r.push(99u8);
                r.push(101u8);
                r.push(115u8);
                r.push(115u8);
                r.push(10u8);
                proof {
                    assert(r@ =~= seq![83u8, 117u8, 99u8, 99u8, 101u8, 115u8, 115u8, 10u8]);
                }
                r
            },
            _ => Vec::new(),
        }
    }
}

/// The bytes a message answers with on the wire.
pub open spec fn spec_reply_bytes(m: MessageSpec) -> Seq<u8> {
    match m {
        MessageSpec::Reply(k, v) => k + seq![32u8] + v + seq![10u8],
        MessageSpec::Success => seq![83u8, 117u8, 99u8, 99u8, 101u8, 115u8, 115u8, 10u8],
        _ => Seq::empty(),
    }
}

/// What executing one command produced.
#[derive(Debug)]
pub enum ExecOutcome {
    /// The reply, and possibly a full page to store at its place first.
    Done(Message, Option<(PageID, Vec<u8>)>),
    /// A get whose page is not resident: read it, then `exec_loaded`.
    NeedPage(PageID),
}

/// Rolling the log tail moves the old current page, byte for byte, into
/// the store, so every valid record location stays valid and decodes as
/// before.
proof fn lemma_roll_keeps_location(pre: PageCache, post: PageCache, kd: KeyData, k: Seq<u8>)
    requires
        location_valid(pre, kd, k),
        pre.current_id() < pre.spec_next_id(),
        post.spec_disk() == pre.spec_disk().insert(
            pre.current_id(),
            pre.spec_current().spec_data(),
        ),
        post.current_id() == pre.spec_next_id(),
    ensures
        location_valid(post, kd, k),
        spec_decode_entry(post.page_bytes(kd.page_id), kd.offset as int) == spec_decode_entry(
            pre.page_bytes(kd.page_id),
            kd.offset as int,
        ),
{
    assert(kd.page_id != post.current_id());
    if kd.page_id == pre.current_id() {
        assert(post.spec_disk()[kd.page_id] == pre.spec_current().spec_data());
    } else {
        assert(post.spec_disk()[kd.page_id] == pre.spec_disk()[kd.page_id]);
    }
}

/// Appending at the tail of the current page leaves every valid record
/// location valid and decoding as before.
proof fn lemma_append_keeps_location(pre: PageCache, post: PageCache, kd: KeyData, k: Seq<u8>)
    requires
        location_valid(pre, kd, k),
        post.current_id() == pre.current_id(),
        post.spec_disk() == pre.spec_disk(),
        post.spec_current().spec_len() >= pre.spec_current().spec_len(),
        forall|o: int|
            0 <= o && (#[trigger] spec_decode_entry(pre.spec_current().spec_data(), o)) is Some
                && o + spec_decode_entry(pre.spec_current().spec_data(), o)->Some_0.size()
                <= pre.spec_current().spec_len() ==> spec_decode_entry(
                post.spec_current().spec_data(),
                o,
            ) == spec_decode_entry(pre.spec_current().spec_data(), o),
    ensures
        location_valid(post, kd, k),
        spec_decode_entry(post.page_bytes(kd.page_id), kd.offset as int) == spec_decode_entry(
            pre.page_bytes(kd.page_id),
            kd.offset as int,
        ),
{
    if kd.page_id == pre.current_id() {
        assert(spec_decode_entry(post.spec_current().spec_data(), kd.offset as int)
            == spec_decode_entry(pre.spec_current().spec_data(), kd.offset as int));
        assert(post.page_bytes(kd.page_id) =~= post.spec_current().spec_data());
        assert(spec_decode_entry(post.page_bytes(kd.page_id), kd.offset as int)
            == spec_decode_entry(post.spec_current().spec_data(), kd.offset as int));
    } else {
        assert(post.spec_disk()[kd.page_id] == pre.spec_disk()[kd.page_id]);
    }
}

/// Append one record to the log tail, rolling to a fresh page when it does
/// not fit. Hands back the record's offset in the current page and, after
/// a roll, the flush job for the page that was sealed.
fn append_entry_rolling(cache: &mut PageCache, entry: &Entry) -> (r: (
    u64,
    Option<(PageID, Vec<u8>)>,
))
    requires
        old(cache).wf(),
        entry.wf(),
        !entry@.is_sentinel(),
        entry@.size() <= old(cache).page_size(),
        old(cache).spec_next_id() < PageID::MAX,
    ensures
        final(cache).wf(),
        final(cache).page_size() == old(cache).page_size(),
        forall|kd: KeyData, k2: Seq<u8>|
            #[trigger] location_valid(*old(cache), kd, k2) ==> location_valid(
                *final(cache),
                kd,
                k2,
            ) && spec_decode_entry(final(cache).page_bytes(kd.page_id), kd.offset as int)
                == spec_decode_entry(old(cache).page_bytes(kd.page_id), kd.offset as int),
        spec_decode_entry(final(cache).spec_current().spec_data(), r.0 as int) == Some(entry@),
        r.0 + entry@.size() == final(cache).spec_current().spec_len(),
        entry@.t == EntryType::Put ==> location_valid(
            *final(cache),
            KeyData { page_id: final(cache).current_id(), offset: r.0 },
            entry@.key,
        ),
        match r.1 {
            None => {
                &&& final(cache).current_id() == old(cache).current_id()
                &&& final(cache).spec_disk() == old(cache).spec_disk()
                &&& final(cache).spec_next_id() == old(cache).spec_next_id()
            },
            Some(job) => {
                &&& job.0 == old(cache).current_id()
                &&& job.1@ == old(cache).spec_current().spec_data()
                &&& final(cache).spec_disk() == old(cache).spec_disk().insert(job.0, job.1@)
                &&& final(cache).current_id() == old(cache).spec_next_id()
                &&& final(cache).spec_next_id() == old(cache).spec_next_id() + 1
                &&& final(cache).spec_disk().contains_key(job.0)
                &&& final(cache).spec_disk()[job.0] == job.1@
            },
        },
    {
        let ghost pre = *cache;
        match cache.append_entry(entry) {
            Ok(off) => {
                proof {
                    assert forall|kd: KeyData, k2: Seq<u8>|
                        #[trigger] location_valid(pre, kd, k2) implies location_valid(
                        *cache,
                        kd,
                        k2,
                    ) && spec_decode_entry(cache.page_bytes(kd.page_id), kd.offset as int)
                        == spec_decode_entry(pre.page_bytes(kd.page_id), kd.offset as int) by {
                        lemma_append_keeps_location(pre, *cache, kd, k2);
                    }
                    let post = *cache;
                    let kd_new = KeyData { page_id: post.current_id(), offset: off };
                    assert(spec_decode_entry(post.spec_current().spec_data(), off as int)
                        == Some(entry@));
                    assert(post.page_bytes(post.current_id())
                        == post.spec_current().spec_data());
                    if entry@.t == EntryType::Put {
                        assert(location_valid(post, kd_new, entry@.key));
                    }
                }
                (off, None)
            },
            Err(_) => {
                let job = cache.replace_current();
                let ghost mid = *cache;
                proof {
                    assert forall|kd: KeyData, k2: Seq<u8>|
                        #[trigger] location_valid(pre, kd, k2) implies location_valid(
                        mid,
                        kd,
                        k2,
                    ) && spec_decode_entry(mid.page_bytes(kd.page_id), kd.offset as int)
                        == spec_decode_entry(pre.page_bytes(kd.page_id), kd.offset as int) by {
                        lemma_roll_keeps_location(pre, mid, kd, k2);
                    }
                }
                let off = match cache.append_entry(entry) {
                    Ok(off) => off,
                    Err(_) => {
                        proof {
                            assert(false);
                        }
                        0
                    },
                };
                proof {
                    assert forall|kd: KeyData, k2: Seq<u8>|
                        #[trigger] location_valid(pre, kd, k2) implies location_valid(
                        *cache,
                        kd,
                        k2,
                    ) && spec_decode_entry(cache.page_bytes(kd.page_id), kd.offset as int)
                        == spec_decode_entry(pre.page_bytes(kd.page_id), kd.offset as int) by {
                        lemma_roll_keeps_location(pre, mid, kd, k2);
                        lemma_append_keeps_location(mid, *cache, kd, k2);
                    }
                    let post = *cache;
                    let kd_new = KeyData { page_id: post.current_id(), offset: off };
                    assert(spec_decode_entry(post.spec_current().spec_data(), off as int)
                        == Some(entry@));
                    assert(post.page_bytes(post.current_id())
                        == post.spec_current().spec_data());
                    if entry@.t == EntryType::Put {
                        assert(location_valid(post, kd_new, entry@.key));
                    }
                }
                (off, Some(job))
            },
        }
    }

/// A flush job handed back with a reply names a page and exactly the
/// bytes the store records for it.
pub open spec fn flush_ok(cache: PageCache, job: Option<(PageID, Vec<u8>)>) -> bool {
    match job {
        None => true,
        Some(j) => cache.spec_disk().contains_key(j.0) && cache.spec_disk()[j.0] == j.1@,
    }
}

impl Message {
    /// Apply one parsed command to the store. An insert appends a `Put`
    /// record and binds the key to it; a delete appends a tombstone and
    /// erases the key; both acknowledge with `Success` and may hand back
    /// the sealed page to store when the tail rolled. A get answers
    /// `Reply(key, value)` with the value most recently inserted under the
    /// key, `Empty` when the key is not live, or asks for a page to be
    /// read. A mutation whose record cannot fit in one page is refused
    /// with an empty reply and changes nothing.
    pub fn exec(&self, cache: &mut PageCache, dir: &mut KeyDir, now: u64) -> (r: ExecOutcome)
        requires
            self.wf(),
            store_inv(*old(cache), *old(dir)),
            old(cache).spec_next_id() < PageID::MAX,
        ensures
            store_inv(*final(cache), *final(dir)),
            final(cache).page_size() == old(cache).page_size(),
            match self@ {
                MessageSpec::Insert(k, v) => {
                    if 25 + k.len() + v.len() <= old(cache).page_size() {
                        &&& match r {
                            ExecOutcome::Done(m, job) => m@ == MessageSpec::Success && flush_ok(
                                *final(cache),
                                job,
                            ),
                            ExecOutcome::NeedPage(_) => false,
                        }
                        &&& final(dir)@.dom() == old(dir)@.dom().insert(k)
                        &&& value_model(*final(cache), *final(dir)) == value_model(
                            *old(cache),
                            *old(dir),
                        ).insert(k, v)
                    } else {
                        &&& match r {
                            ExecOutcome::Done(m, job) => m@ == MessageSpec::Empty
                                && job is None,
                            ExecOutcome::NeedPage(_) => false,
                        }
                        &&& *final(cache) == *old(cache)
                        &&& *final(dir) == *old(dir)
                    }
                },
                MessageSpec::Delete(k) => {
                    if 25 + k.len() <= old(cache).page_size() {
                        &&& match r {
                            ExecOutcome::Done(m, job) => m@ == MessageSpec::Success && flush_ok(
                                *final(cache),
                                job,
                            ),
                            ExecOutcome::NeedPage(_) => false,
                        }
                        &&& final(dir)@ == old(dir)@.remove(k)
                        &&& value_model(*final(cache), *final(dir)) == value_model(
                            *old(cache),
                            *old(dir),
                        ).remove(k)
                    } else {
                        &&& match r {
                            ExecOutcome::Done(m, job) => m@ == MessageSpec::Empty
                                && job is None,
                            ExecOutcome::NeedPage(_) => false,
                        }
                        &&& *final(cache) == *old(cache)
                        &&& *final(dir) == *old(dir)
                    }
                },
                MessageSpec::Get(k) => {
                    &&& *final(dir) == *old(dir)
                    &&& value_model(*final(cache), *final(dir)) == value_model(
                        *old(cache),
                        *old(dir),
                    )
                    &&& match r {
                        ExecOutcome::Done(m, job) => {
                            &&& job is None
                            &&& if old(dir)@.contains_key(k) {
                                m@ == MessageSpec::Reply(
                                    k,
                                    value_model(*old(cache), *old(dir))[k],
                                )
                            } else {
                                m@ == MessageSpec::Empty
                            }
                        },
                        ExecOutcome::NeedPage(pid) => {
                            &&& old(dir)@.contains_key(k)
                            &&& pid == old(dir)@[k].page_id
                            &&& !old(cache).spec_table().contains_key(pid)
                            &&& *final(cache) == *old(cache)
                        },
                    }
                },
                _ => {
                    &&& match r {
                        ExecOutcome::Done(m, job) => m@ == MessageSpec::Empty && job is None,
                        ExecOutcome::NeedPage(_) => false,
                    }
                    &&& *final(cache) == *old(cache)
                    &&& *final(dir) == *old(dir)
                },
            },
    {
        let ghost c0 = *cache;
        let ghost d0 = *dir;
        match self {
            Message::Insert(k, v) => {
                let entry = Entry::new(k.as_slice(), v.as_slice(), EntryType::Put, now);
                let psize = cache.get_current().page_size_usize();
                if entry.len() > psize {
                    return ExecOutcome::Done(Message::Empty, None);
                }
                let (off, job) = append_entry_rolling(cache, &entry);
                let kd = KeyData::new(cache.current_page_id(), off);
                dir.insert(k.as_slice(), kd);
                proof {
                    let c1 = *cache;
                    let d1 = *dir;
                    assert forall|k2: Seq<u8>| #[trigger] d1@.contains_key(k2) implies
                        location_valid(c1, d1@[k2], k2) by {
                        if k2 == k@ {
                            assert(d1@[k2] == kd);
                            assert(location_valid(
                                c1,
                                KeyData { page_id: c1.current_id(), offset: off },
                                entry@.key,
                            ));
                        } else {
                            assert(d0@.contains_key(k2));
                            assert(location_valid(c0, d0@[k2], k2));
                        }
                    }
                    assert(d1@.dom() =~= d0@.dom().insert(k@));
                    assert_maps_equal!(value_model(c1, d1), value_model(c0, d0).insert(k@, v@), k2 => {
                        if k2 == k@ {
                            assert(d1@[k2] == kd);
                            assert(spec_decode_entry(
                                c1.page_bytes(kd.page_id),
                                kd.offset as int,
                            ) == Some(entry@));
                        } else {
                            if d0@.contains_key(k2) {
                                assert(location_valid(c0, d0@[k2], k2));
                                assert(d1@[k2] == d0@[k2]);
                            }
                        }
                    });
                }
                ExecOutcome::Done(Message::Success, job)
            },
            Message::Delete(k) => {
                let none_value: Vec<u8> = Vec::new();
                let entry = Entry::new(
                    k.as_slice(),
                    none_value.as_slice(),
                    EntryType::Delete,
                    now,
                );
                let psize = cache.get_current().page_size_usize();
                if entry.len() > psize {
                    return ExecOutcome::Done(Message::Empty, None);
                }
                let (_, job) = append_entry_rolling(cache, &entry);
                dir.remove(k.as_slice());
                proof {
                    let c1 = *cache;
                    let d1 = *dir;
                    assert forall|k2: Seq<u8>| #[trigger] d1@.contains_key(k2) implies
                        location_valid(c1, d1@[k2], k2) by {
                        assert(d0@.contains_key(k2));
                        assert(location_valid(c0, d0@[k2], k2));
                        assert(d1@[k2] == d0@[k2]);
                    }
                    assert_maps_equal!(value_model(c1, d1), value_model(c0, d0).remove(k@), k2 => {
                        if k2 != k@ && d0@.contains_key(k2) {
                            assert(location_valid(c0, d0@[k2], k2));
                            assert(d1@[k2] == d0@[k2]);
                        }
                    });
                }
                ExecOutcome::Done(Message::Success, job)
            },
            Message::Get(k) => {
                match dir.get(k.as_slice()) {
                    None => ExecOutcome::Done(Message::Empty, None),
                    Some(kd) => {
                        proof {
                            assert(location_valid(c0, kd, k@));
                        }
                        match cache.fetch_entry(&kd) {
                            FetchResult::Found(e) => {
                                proof {
                                    let c1 = *cache;
                                    lemma_same_pages_same_model(c0, c1, d0);
                                    assert(e.value@ == value_model(c0, d0)[k@]);
                                }
                                let Entry { t: _, time: _, key, value } = e;
                                ExecOutcome::Done(Message::Reply(key, value), None)
                            },
                            FetchResult::Missing => {
                                proof {
                                    assert(false);
                                }
                                ExecOutcome::Done(Message::Empty, None)
                            },
                            FetchResult::NeedPage(pid) => ExecOutcome::NeedPage(pid),
                        }
                    },
                }
            },
            _ => ExecOutcome::Done(Message::Empty, None),
        }
    }

    /// Finish a get whose page had to be read from disk: the bytes must be
    /// the page's stored bytes. Answers like `exec`; `Empty` comes only
    /// when the key is no longer live or when every read slot is pinned.
    pub fn exec_loaded(&self, cache: &mut PageCache, dir: &KeyDir, bytes: Vec<u8>) -> (r:
        Message)
        requires
            self@ is Get,
            store_inv(*old(cache), *dir),
            bytes@.len() == old(cache).page_size(),
            dir@.contains_key(self@->Get_0) && old(cache).spec_disk().contains_key(
                dir@[self@->Get_0].page_id,
            ) ==> old(cache).spec_disk()[dir@[self@->Get_0].page_id] == bytes@,
        ensures
            store_inv(*final(cache), *dir),
            final(cache).page_size() == old(cache).page_size(),
            value_model(*final(cache), *dir) == value_model(*old(cache), *dir),
            if dir@.contains_key(self@->Get_0) {
                r@ == MessageSpec::Reply(
                    self@->Get_0,
                    value_model(*old(cache), *dir)[self@->Get_0],
                ) || (r@ == MessageSpec::Empty && old(cache).spec_free().len() == 0
                    && forall|i: usize| !old(cache).spec_replacer().evictable(i))
            } else {
                r@ == MessageSpec::Empty
            },
    {
        let ghost c0 = *cache;
        let ghost d0 = *dir;
        let k = match self {
            Message::Get(k) => k,
            _ => {
                proof {
                    assert(false);
                }
                return Message::Empty;
            },
        };
        match dir.get(k.as_slice()) {
            None => Message::Empty,
            Some(kd) => {
                proof {
                    assert(location_valid(c0, kd, k@));
                }
                match cache.fetch_entry(&kd) {
                    FetchResult::Found(e) => {
                        proof {
                            lemma_same_pages_same_model(c0, *cache, d0);
                        }
                        let Entry { t: _, time: _, key, value } = e;
                        Message::Reply(key, value)
                    },
                    FetchResult::Missing => {
                        proof {
                            assert(false);
                        }
                        Message::Empty
                    },
                    FetchResult::NeedPage(_) => {
                        proof {
                            assert(kd.page_id != c0.current_id());
                            assert(c0.spec_disk().contains_key(kd.page_id));
                        }
                        let r = cache.fetch_entry_loaded(&kd, bytes);
                        proof {
                            let c1 = *cache;
                            assert(c1.spec_disk() == c0.spec_disk().insert(
                                kd.page_id,
                                c0.spec_disk()[kd.page_id],
                            ) || *cache == c0 || (match r {
                                Option::Some(_) => false,
                                Option::None => true,
                            }));
                        }
                        match r {
                            Some(e) => {
                                proof {
                                    let c1 = *cache;
                                    assert(c1.spec_disk() =~= c0.spec_disk());
                                    lemma_same_pages_same_model(c0, c1, d0);
                                    assert(spec_decode_entry(bytes@, kd.offset as int)
                                        == spec_decode_entry(
                                        c0.page_bytes(kd.page_id),
                                        kd.offset as int,
                                    ));
                                }
                                let Entry { t: _, time: _, key, value } = e;
                                Message::Reply(key, value)
                            },
                            None => {
                                proof {
                                    let c1 = *cache;
                                    if !(c1 == c0) {
                                        assert(c1.spec_disk() =~= c0.spec_disk());
                                        lemma_same_pages_same_model(c0, c1, d0);
                                        assert(spec_decode_entry(bytes@, kd.offset as int)
                                            == spec_decode_entry(
                                            c0.page_bytes(kd.page_id),
                                            kd.offset as int,
                                        ));
                                        assert(false);
                                    } else {
                                        lemma_same_pages_same_model(c0, c1, d0);
                                    }
                                }
                                Message::Empty
                            },
                        }
                    },
                }
            },
        }
    }
}

/// Two cache states whose current page and stored pages agree implement
/// one abstract map over any directory, and validity carries over.
proof fn lemma_same_pages_same_model(c0: PageCache, c1: PageCache, d: KeyDir)
    requires
        store_inv(c0, d),
        c1.wf(),
        c1.spec_current() == c0.spec_current(),
        c1.spec_disk() =~= c0.spec_disk(),
    ensures
        store_inv(c1, d),
        value_model(c1, d) == value_model(c0, d),
        forall|k: Seq<u8>| #[trigger] d@.contains_key(k) ==> spec_decode_entry(
            c1.page_bytes(d@[k].page_id),
            d@[k].offset as int,
        ) == spec_decode_entry(c0.page_bytes(d@[k].page_id), d@[k].offset as int)
            && spec_decode_entry(c0.page_bytes(d@[k].page_id), d@[k].offset as int) is Some
            && spec_decode_entry(
            c0.page_bytes(d@[k].page_id),
            d@[k].offset as int,
        )->Some_0.value == value_model(c0, d)[k],
{
    assert forall|k: Seq<u8>| #[trigger] d@.contains_key(k) implies location_valid(
        c1,
        d@[k],
        k,
    ) && c1.page_bytes(d@[k].page_id) == c0.page_bytes(d@[k].page_id) by {
        assert(location_valid(c0, d@[k], k));
        assert(c1.page_bytes(d@[k].page_id) == c0.page_bytes(d@[k].page_id));
    }
    assert_maps_equal!(value_model(c1, d), value_model(c0, d), k => {
        if d@.contains_key(k) {
            assert(location_valid(c0, d@[k], k));
            assert(c1.page_bytes(d@[k].page_id) == c0.page_bytes(d@[k].page_id));
        }
    });
}

} // verus!
