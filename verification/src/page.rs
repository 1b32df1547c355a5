//! A page: a fixed-size byte buffer that holds whole log records starting at
//! offset zero, followed by zero padding. Pages are the unit of disk I/O;
//! a record never straddles a page boundary.

use vstd::prelude::*;
use crate::entry::{
    Entry, lemma_decode_entry_frame, lemma_encoded_parses_at, spec_decode_entry,
    u64_from_be_bytes,
};

verus! {

pub type PageID = u32;

#[derive(Debug, PartialEq, Eq, Structural)]
pub enum PageError {
    NotEnoughSpace,
}

pub open spec fn all_zero_range(data: Seq<u8>, from: int, to: int) -> bool {
    forall|i: int| from <= i < to ==> data[i] == 0
}

/// The logical length that loading a page's bytes derives: trailing zero
/// bytes are stripped in 8-byte strides from the end, so the result is the
/// position after the last non-zero trailing byte, rounded up to a stride.
pub open spec fn spec_loaded_len(data: Seq<u8>) -> int
    decreases data.len(),
{
    if data.len() >= 8 && all_zero_range(data, data.len() - 8, data.len() as int) {
        spec_loaded_len(data.take(data.len() - 8))
    } else {
        data.len() as int
    }
}

pub proof fn lemma_loaded_len_bounds(data: Seq<u8>)
    ensures
        0 <= spec_loaded_len(data) <= data.len(),
        all_zero_range(data, spec_loaded_len(data), data.len() as int),
    decreases data.len(),
{
    if data.len() >= 8 && all_zero_range(data, data.len() - 8, data.len() as int) {
        let shorter = data.take(data.len() - 8);
        lemma_loaded_len_bounds(shorter);
        assert forall|i: int| spec_loaded_len(data) <= i < data.len() implies data[i] == 0 by {
            if i < data.len() - 8 {
                assert(shorter[i] == 0);
            }
        }
    }
}

/// A vector of `n` zero bytes.
fn zeroed(n: usize) -> (v: Vec<u8>)
    ensures
        v@.len() == n,
        all_zero_range(v@, 0, n as int),
{
    let mut v: Vec<u8> = Vec::new();
    let mut i: usize = 0;
    while i < n
        invariant
            i <= n,
            v@.len() == i,
            forall|j: int| 0 <= j < i ==> v@[j] == 0,
        decreases n - i,
    {
        v.push(0);
        i += 1;
    }
    v
}

/// A copy of the bytes in `[from, to)`.
pub fn bytes_range(data: &Vec<u8>, from: usize, to: usize) -> (r: Vec<u8>)
    requires
        from <= to <= data@.len(),
    ensures
        r@ == data@.subrange(from as int, to as int),
{
    let mut r: Vec<u8> = Vec::new();
    let mut i: usize = from;
    while i < to
        invariant
            from <= i <= to <= data@.len(),
            r@.len() == i - from,
            forall|j: int| 0 <= j < i - from ==> r@[j] == data@[from + j],
        decreases to - i,
    {
        r.push(data[i]);
        i += 1;
    }
    proof {
        assert(r@ =~= data@.subrange(from as int, to as int));
    }
    r
}

/// Whether the bytes in `[from, to)` are all zero.
fn range_is_zero(data: &Vec<u8>, from: usize, to: usize) -> (r: bool)
    requires
        from <= to <= data@.len(),
    ensures
        r == all_zero_range(data@, from as int, to as int),
{
    let mut i: usize = from;
    while i < to
        invariant
            from <= i <= to <= data@.len(),
            forall|j: int| from <= j < i ==> data@[j] == 0,
        decreases to - i,
    {
        if data[i] != 0 {
            return false;
        }
        i += 1;
    }
    true
}

/// A page buffer: an id, the raw bytes, and the logical length, which is the
/// sum of the sizes of the records written so far. Bytes past the length are
/// zero.
#[derive(Debug)]
pub struct PageInner {
    id: PageID,
    data: Vec<u8>,
    len: usize,
}

impl PageInner {
    pub closed spec fn spec_id(self) -> PageID {
        self.id
    }

    /// The page id.
    pub fn id(&self) -> (r: PageID)
        ensures
            r == self.spec_id(),
    {
        self.id
    }

    /// Install a new page id; the buffer and length are untouched.
    pub fn set_id(&mut self, id: PageID)
        ensures
            final(self).spec_id() == id,
            final(self).spec_data() == old(self).spec_data(),
            final(self).spec_len() == old(self).spec_len(),
    {
        self.id = id;
    }

    pub closed spec fn spec_data(self) -> Seq<u8> {
        self.data@
    }

    pub closed spec fn spec_len(self) -> int {
        self.len as int
    }

    pub open spec fn page_size(self) -> int {
        self.spec_data().len() as int
    }

    pub open spec fn wf(self) -> bool {
        &&& 0 <= self.spec_len() <= self.page_size()
        &&& all_zero_range(self.spec_data(), self.spec_len(), self.page_size())
    }

    /// A fresh, zeroed page.
    pub fn new(id: PageID, page_size: usize) -> (r: PageInner)
        ensures
            r.spec_id() == id,
            r.page_size() == page_size,
            r.spec_len() == 0,
            all_zero_range(r.spec_data(), 0, page_size as int),
            r.wf(),
    {
        PageInner { id, data: zeroed(page_size), len: 0 }
    }

    /// Install a page id and the bytes read from disk, deriving the logical
    /// length by stripping trailing zero bytes in 8-byte strides.
    pub fn from_bytes(id: PageID, data: Vec<u8>) -> (r: PageInner)
        ensures
            r.spec_id() == id,
            r.spec_data() == data@,
            r.spec_len() == spec_loaded_len(data@),
            r.wf(),
    {
        let total: usize = data.len();
        let mut n: usize = total;
        proof {
            assert(data@.take(total as int) =~= data@);
        }
        while n >= 8 && range_is_zero(&data, n - 8, n)
            invariant
                n <= total,
                total == data@.len(),
                spec_loaded_len(data@) == spec_loaded_len(data@.take(n as int)),
            decreases n,
        {
            proof {
                let cur = data@.take(n as int);
                let shorter = data@.take(n as int - 8);
                assert(cur.len() == n);
                assert forall|i: int| n - 8 <= i < n implies cur[i] == 0 by {
                    assert(data@[i] == 0);
                }
                assert(cur.take(n as int - 8) =~= shorter);
                assert(spec_loaded_len(cur) == spec_loaded_len(shorter));
            }
            n = n - 8;
        }
        proof {
            let cur = data@.take(n as int);
            assert(cur.len() == n);
            if n >= 8 {
                assert(!all_zero_range(data@, n as int - 8, n as int));
                let i = choose|i: int| n - 8 <= i < n && data@[i] != 0;
                assert(cur[i] != 0);
                assert(!all_zero_range(cur, n as int - 8, n as int));
            }
            assert(spec_loaded_len(cur) == n);
            lemma_loaded_len_bounds(data@);
        }
        PageInner { id, data, len: n }
    }

    /// Append a record at the current length, or report that it does not
    /// fit. On success the returned offset is the length before the call;
    /// the bytes before it and after the record are unchanged, so every
    /// record already inside the written prefix still decodes to itself.
    pub fn write_entry(&mut self, entry: &Entry) -> (r: Result<u64, PageError>)
        requires
            old(self).wf(),
            entry.wf(),
        ensures
            final(self).spec_id() == old(self).spec_id(),
            final(self).page_size() == old(self).page_size(),
            final(self).wf(),
            match r {
                Ok(offset) => {
                    &&& old(self).spec_len() + entry@.size() <= old(self).page_size()
                    &&& offset == old(self).spec_len()
                    &&& final(self).spec_len() == old(self).spec_len() + entry@.size()
                    &&& final(self).spec_data() == old(self).spec_data().subrange(
                        0,
                        offset as int,
                    ) + entry@.encoded() + old(self).spec_data().subrange(
                        offset + entry@.size(),
                        old(self).page_size(),
                    )
                    &&& (!entry@.is_sentinel() ==> spec_decode_entry(
                        final(self).spec_data(),
                        offset as int,
                    ) == Some(entry@))
                    &&& forall|o: int|
                        0 <= o && (#[trigger] spec_decode_entry(old(self).spec_data(), o)) is Some
                            && o + spec_decode_entry(old(self).spec_data(), o)->Some_0.size()
                            <= old(self).spec_len() ==> spec_decode_entry(
                            final(self).spec_data(),
                            o,
                        ) == spec_decode_entry(old(self).spec_data(), o)
                },
                Err(e) => {
                    &&& e == PageError::NotEnoughSpace
                    &&& old(self).spec_len() + entry@.size() > old(self).page_size()
                    &&& *final(self) == *old(self)
                },
            },
    {
        let elen = entry.len();
        let offset = self.len;
        if elen > self.data.len() - offset {
            return Err(PageError::NotEnoughSpace);
        }
        let bytes = entry.as_bytes();
        let ghost old_data = self.data@;
        let mut i: usize = 0;
        while i < elen
            invariant
                i <= elen,
                offset + elen <= self.data@.len(),
                offset + elen <= usize::MAX,
                self.id == old(self).id,
                self.len == old(self).len,
                bytes@.len() == elen,
                self.data@.len() == old_data.len(),
                forall|j: int| 0 <= j < offset ==> self.data@[j] == old_data[j],
                forall|j: int| 0 <= j < i ==> self.data@[offset + j] == bytes@[j],
                forall|j: int| offset + i <= j < old_data.len() ==> self.data@[j] == old_data[j],
            decreases elen - i,
        {
            self.data[offset + i] = bytes[i];
            i += 1;
        }
        self.len = offset + elen;
        proof {
            let fin = self.data@;
            let spliced = old_data.subrange(0, offset as int) + entry@.encoded()
                + old_data.subrange(offset + entry@.size(), old_data.len() as int);
            assert(fin =~= spliced);
            assert(fin.subrange(offset as int, offset + entry@.size()) =~= entry@.encoded());
            if !entry@.is_sentinel() {
                lemma_encoded_parses_at(fin, offset as int, entry@);
            }
            assert forall|o: int|
                0 <= o && (#[trigger] spec_decode_entry(old_data, o)) is Some && o
                    + spec_decode_entry(old_data, o)->Some_0.size() <= offset implies
                spec_decode_entry(fin, o) == spec_decode_entry(old_data, o) by {
                let e2 = spec_decode_entry(old_data, o)->Some_0;
                assert(fin.subrange(o, o + e2.size()) =~= old_data.subrange(o, o + e2.size()));
                lemma_decode_entry_frame(old_data, fin, o, e2);
            }
        }
        Ok(offset as u64)
    }

    /// Decode the record that starts at `offset`, or return `None` when the
    /// bytes there are the zero sentinel, are malformed, or do not fit.
    pub fn read_entry(&self, offset: usize) -> (r: Option<Entry>)
        requires
            self.wf(),
        ensures
            match r {
                Some(e) => {
                    &&& spec_decode_entry(self.spec_data(), offset as int) == Some(e@)
                    &&& e.wf()
                },
                None => spec_decode_entry(self.spec_data(), offset as int) is None,
            },
    {
        let size = self.data.len();
        if offset > size || size - offset < 25 {
            return None;
        }
        let tb = self.data[offset];
        let time = u64_from_be_bytes(self.data.as_slice(), offset + 1);
        let klen = u64_from_be_bytes(self.data.as_slice(), offset + 9);
        let vlen = u64_from_be_bytes(self.data.as_slice(), offset + 17);
        if time == 0 && klen == 0 && vlen == 0 {
            return None;
        }
        if tb != 0 && tb != 1 {
            return None;
        }
        let remain = (size - offset - 25) as u64;
        if klen > remain || vlen > remain - klen {
            return None;
        }
        let k = klen as usize;
        let v = vlen as usize;
        let key = bytes_range(&self.data, offset + 25, offset + 25 + k);
        let value = bytes_range(&self.data, offset + 25 + k, offset + 25 + k + v);
        let e = Entry {
            t: if tb == 0 {
                crate::entry::EntryType::Put
            } else {
                crate::entry::EntryType::Delete
            },
            time,
            key,
            value,
        };
        proof {
            let d = spec_decode_entry(self.spec_data(), offset as int);
            assert(d is Some);
            assert(d->Some_0 == e@);
        }
        Some(e)
    }

    /// Decode the record at a 64-bit offset; an offset past the buffer
    /// decodes to nothing.
    pub fn read_entry_u64(&self, offset: u64) -> (r: Option<Entry>)
        requires
            self.wf(),
        ensures
            match r {
                Some(e) => {
                    &&& spec_decode_entry(self.spec_data(), offset as int) == Some(e@)
                    &&& e.wf()
                },
                None => spec_decode_entry(self.spec_data(), offset as int) is None,
            },
    {
        let size = self.data.len();
        if offset > size as u64 {
            return None;
        }
        self.read_entry(offset as usize)
    }

    /// Zero the buffer and reset the length; the id is untouched.
    pub fn reset(&mut self)
        ensures
            final(self).spec_id() == old(self).spec_id(),
            final(self).page_size() == old(self).page_size(),
            final(self).spec_len() == 0,
            all_zero_range(final(self).spec_data(), 0, final(self).page_size()),
            final(self).wf(),
    {
        let n = self.data.len();
        self.data = zeroed(n);
        self.len = 0;
    }

    /// The buffer size in bytes.
    pub fn page_size_usize(&self) -> (r: usize)
        ensures
            r == self.page_size(),
    {
        self.data.len()
    }

    /// A copy of the whole buffer, as handed to the disk.
    pub fn data_copy(&self) -> (r: Vec<u8>)
        ensures
            r@ == self.spec_data(),
    {
        let r = bytes_range(&self.data, 0, self.data.len());
        proof {
            assert(self.spec_data().subrange(0, self.spec_data().len() as int)
                =~= self.spec_data());
        }
        r
    }
}

} // verus!
