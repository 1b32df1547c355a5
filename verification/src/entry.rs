//! The entry codec: one log record is a type byte, an 8-byte big-endian
//! timestamp, two 8-byte big-endian lengths, then the key and value bytes.
//! A metadata block whose timestamp and lengths are all zero is the
//! end-of-entries sentinel that marks the zero padding at a page's tail.

use vstd::prelude::*;

verus! {

/// Number of bytes in an entry's metadata block: one type byte, an 8-byte
/// timestamp, an 8-byte key length and an 8-byte value length.
pub const METADATA_LEN: usize = 25;

#[derive(Debug, Clone, Copy, PartialEq, Eq, Structural)]
pub enum EntryType {
    Put,
    Delete,
}

pub open spec fn spec_type_byte(t: EntryType) -> u8 {
    match t {
        EntryType::Put => 0,
        EntryType::Delete => 1,
    }
}

pub open spec fn spec_u64_to_be_bytes(x: u64) -> Seq<u8> {
    vstd::bytes::spec_u64_to_le_bytes(x).reverse()
}

pub open spec fn spec_u64_from_be_bytes(s: Seq<u8>) -> u64
    recommends
        s.len() == 8,
{
    vstd::bytes::spec_u64_from_le_bytes(s.reverse())
}

pub proof fn lemma_u64_be_bytes_round_trip(x: u64)
    ensures
        spec_u64_to_be_bytes(x).len() == 8,
        spec_u64_from_be_bytes(spec_u64_to_be_bytes(x)) == x,
{
    vstd::bytes::lemma_auto_spec_u64_to_from_le_bytes();
    let le = vstd::bytes::spec_u64_to_le_bytes(x);
    assert(le.reverse().reverse() =~= le);
}

/// Big-endian encoding of a 64-bit integer, as executable code.
pub fn u64_to_be_bytes(x: u64) -> (r: Vec<u8>)
    ensures
        r@ == spec_u64_to_be_bytes(x),
        r@.len() == 8,
{
    proof {
        vstd::bytes::lemma_auto_spec_u64_to_from_le_bytes();
    }
    let le = vstd::bytes::u64_to_le_bytes(x);
    let mut r: Vec<u8> = Vec::new();
    let mut i: usize = 0;
    while i < 8
        invariant
            le@.len() == 8,
            i <= 8,
            r@.len() == i,
            forall|j: int| 0 <= j < i ==> r@[j] == le@[7 - j],
        decreases 8 - i,
    {
        r.push(le[7 - i]);
        i += 1;
    }
    proof {
        assert(r@ =~= le@.reverse());
    }
    r
}

/// Big-endian decoding of a 64-bit integer read at `offset`.
pub fn u64_from_be_bytes(s: &[u8], offset: usize) -> (x: u64)
    requires
        offset + 8 <= s@.len(),
    ensures
        x == spec_u64_from_be_bytes(s@.subrange(offset as int, offset + 8)),
{
    let n: usize = s.len();
    let mut le: Vec<u8> = Vec::new();
    let mut i: usize = 0;
    while i < 8
        invariant
            offset + 8 <= n,
            n == s@.len(),
            i <= 8,
            le@.len() == i,
            forall|j: int| 0 <= j < i ==> le@[j] == s@[offset + 7 - j],
        decreases 8 - i,
    {
        le.push(s[offset + 7 - i]);
        i += 1;
    }
    proof {
        assert(le@ =~= s@.subrange(offset as int, offset + 8).reverse());
    }
    vstd::bytes::u64_from_le_bytes(le.as_slice())
}

/// One log record.
#[derive(Debug, PartialEq)]
pub struct Entry {
    pub t: EntryType,
    pub time: u64,
    pub key: Vec<u8>,
    pub value: Vec<u8>,
}

/// The fields of a log record, as mathematical values.
pub struct EntrySpec {
    pub t: EntryType,
    pub time: u64,
    pub key: Seq<u8>,
    pub value: Seq<u8>,
}

impl View for Entry {
    type V = EntrySpec;

    open spec fn view(&self) -> EntrySpec {
        EntrySpec { t: self.t, time: self.time, key: self.key@, value: self.value@ }
    }
}

impl EntrySpec {
    /// Encoded length of the record.
    pub open spec fn size(self) -> int {
        25 + self.key.len() as int + self.value.len() as int
    }

    /// A metadata block that reads as all zeros in its time and length
    /// fields marks the zero padding at the tail of a page; a record with
    /// these fields never stands in a log.
    pub open spec fn is_sentinel(self) -> bool {
        self.time == 0 && self.key.len() == 0 && self.value.len() == 0
    }

    /// The encoded bytes of the record.
    pub open spec fn encoded(self) -> Seq<u8> {
        seq![spec_type_byte(self.t)] + spec_u64_to_be_bytes(self.time)
            + spec_u64_to_be_bytes(self.key.len() as u64)
            + spec_u64_to_be_bytes(self.value.len() as u64) + self.key + self.value
    }
}

pub proof fn lemma_encoded_len(e: EntrySpec)
    ensures
        e.encoded().len() == e.size(),
{
    vstd::bytes::lemma_auto_spec_u64_to_from_le_bytes();
}

/// Decode the record that starts at `offset` in `data`, or return `None`
/// when fewer than 25 bytes remain, when the metadata block is the zero
/// sentinel, when the type byte names no record type, or when the record
/// would extend past the end of `data`.
pub open spec fn spec_decode_entry(data: Seq<u8>, offset: int) -> Option<EntrySpec> {
    if !(0 <= offset && offset + 25 <= data.len()) {
        None
    } else {
        let tb = data[offset];
        let time = spec_u64_from_be_bytes(data.subrange(offset + 1, offset + 9));
        let klen = spec_u64_from_be_bytes(data.subrange(offset + 9, offset + 17)) as int;
        let vlen = spec_u64_from_be_bytes(data.subrange(offset + 17, offset + 25)) as int;
        if time == 0 && klen == 0 && vlen == 0 {
            None
        } else if tb != 0 && tb != 1 {
            None
        } else if offset + 25 + klen + vlen > data.len() {
            None
        } else {
            Some(
                EntrySpec {
                    t: if tb == 0 {
                        EntryType::Put
                    } else {
                        EntryType::Delete
                    },
                    time,
                    key: data.subrange(offset + 25, offset + 25 + klen),
                    value: data.subrange(offset + 25 + klen, offset + 25 + klen + vlen),
                },
            )
        }
    }
}

/// A part of a buffer region equals the same part of the bytes that the
/// whole region was shown to hold.
proof fn lemma_part_of_region(data: Seq<u8>, offset: int, enc: Seq<u8>, a: int, b: int)
    requires
        0 <= offset,
        offset + enc.len() <= data.len(),
        data.subrange(offset, offset + enc.len()) == enc,
        0 <= a <= b <= enc.len(),
    ensures
        data.subrange(offset + a, offset + b) == enc.subrange(a, b),
{
    assert forall|j: int| 0 <= j < b - a implies data.subrange(offset + a, offset + b)[j]
        == enc.subrange(a, b)[j] by {
        assert(data.subrange(offset, offset + enc.len())[a + j] == data[offset + a + j]);
    }
    assert(data.subrange(offset + a, offset + b) =~= enc.subrange(a, b));
}

/// Wherever the encoded bytes of a non-sentinel record stand in a buffer,
/// decoding at their start yields exactly that record.
pub proof fn lemma_encoded_parses_at(data: Seq<u8>, offset: int, e: EntrySpec)
    requires
        !e.is_sentinel(),
        e.key.len() <= u64::MAX,
        e.value.len() <= u64::MAX,
        0 <= offset,
        offset + e.size() <= data.len(),
        data.subrange(offset, offset + e.size()) == e.encoded(),
    ensures
        spec_decode_entry(data, offset) == Some(e),
{
    vstd::bytes::lemma_auto_spec_u64_to_from_le_bytes();
    lemma_u64_be_bytes_round_trip(e.time);
    lemma_u64_be_bytes_round_trip(e.key.len() as u64);
    lemma_u64_be_bytes_round_trip(e.value.len() as u64);
    let enc = e.encoded();
    let k = e.key.len() as int;
    let v = e.value.len() as int;
    assert(enc.len() == e.size()) by {
        lemma_encoded_len(e);
    }
    assert(enc.subrange(1, 9) =~= spec_u64_to_be_bytes(e.time));
    assert(enc.subrange(9, 17) =~= spec_u64_to_be_bytes(e.key.len() as u64));
    assert(enc.subrange(17, 25) =~= spec_u64_to_be_bytes(e.value.len() as u64));
    assert(enc.subrange(25, 25 + k) =~= e.key);
    assert(enc.subrange(25 + k, 25 + k + v) =~= e.value);
    lemma_part_of_region(data, offset, enc, 1, 9);
    lemma_part_of_region(data, offset, enc, 9, 17);
    lemma_part_of_region(data, offset, enc, 17, 25);
    lemma_part_of_region(data, offset, enc, 25, 25 + k);
    lemma_part_of_region(data, offset, enc, 25 + k, 25 + k + v);
    assert(data[offset] == enc[0]) by {
        assert(data.subrange(offset, offset + enc.len())[0] == data[offset]);
    }
    assert(enc[0] == spec_type_byte(e.t));
    let d = spec_decode_entry(data, offset);
    assert(d is Some);
    assert(d->Some_0.t == e.t);
    assert(d->Some_0 == e);
}

/// Decoding looks only at the bytes of the record itself: two buffers of one
/// length that agree on the record's bytes decode alike at its offset.
pub proof fn lemma_decode_entry_frame(d1: Seq<u8>, d2: Seq<u8>, offset: int, e: EntrySpec)
    requires
        spec_decode_entry(d1, offset) == Some(e),
        d1.len() == d2.len(),
        d2.subrange(offset, offset + e.size()) == d1.subrange(offset, offset + e.size()),
    ensures
        spec_decode_entry(d2, offset) == Some(e),
{
    let k = e.key.len() as int;
    let v = e.value.len() as int;
    assert(e.size() >= 25);
    let region = d1.subrange(offset, offset + e.size());
    lemma_part_of_region(d1, offset, region, 1, 9);
    lemma_part_of_region(d1, offset, region, 9, 17);
    lemma_part_of_region(d1, offset, region, 17, 25);
    lemma_part_of_region(d1, offset, region, 25, 25 + k);
    lemma_part_of_region(d1, offset, region, 25 + k, 25 + k + v);
    lemma_part_of_region(d2, offset, region, 1, 9);
    lemma_part_of_region(d2, offset, region, 9, 17);
    lemma_part_of_region(d2, offset, region, 17, 25);
    lemma_part_of_region(d2, offset, region, 25, 25 + k);
    lemma_part_of_region(d2, offset, region, 25 + k, 25 + k + v);
    assert(d2[offset] == d1[offset]) by {
        assert(d2.subrange(offset, offset + e.size())[0] == d2[offset]);
        assert(d1.subrange(offset, offset + e.size())[0] == d1[offset]);
    }
    assert(spec_decode_entry(d2, offset) == Some(e));
}

impl Entry {
    /// The encoded length fits in a machine word.
    pub open spec fn wf(self) -> bool {
        25 + self.key@.len() + self.value@.len() <= usize::MAX
    }

    /// Encoded length of this record.
    pub fn len(&self) -> (r: usize)
        requires
            self.wf(),
        ensures
            r == self@.size(),
    {
        METADATA_LEN + self.key.len() + self.value.len()
    }

    /// Build a record from a key, a value and the current wall-clock time in
    /// seconds. A zero clock reading is reserved for the page-tail sentinel
    /// and is recorded as one second instead.
    pub fn new(key: &[u8], value: &[u8], t: EntryType, now: u64) -> (r: Entry)
        requires
            25 + key@.len() + value@.len() <= usize::MAX,
        ensures
            r.t == t,
            r.time == if now == 0 {
                1u64
            } else {
                now
            },
            r.key@ == key@,
            r.value@ == value@,
            r.wf(),
            !r@.is_sentinel(),
    {
        let time: u64 = if now == 0 {
            1
        } else {
            now
        };
        Entry { t, time, key: vstd::slice::slice_to_vec(key), value: vstd::slice::slice_to_vec(value) }
    }

    /// Encode this record.
    pub fn as_bytes(&self) -> (r: Vec<u8>)
        requires
            self.wf(),
        ensures
            r@ == self@.encoded(),
            r@.len() == self@.size(),
    {
        let mut r: Vec<u8> = Vec::new();
        let tb: u8 = match self.t {
            EntryType::Put => 0,
            EntryType::Delete => 1,
        };
        r.push(tb);
        let mut time_b = u64_to_be_bytes(self.time);
        r.append(&mut time_b);
        let mut klen_b = u64_to_be_bytes(self.key.len() as u64);
        r.append(&mut klen_b);
        let mut vlen_b = u64_to_be_bytes(self.value.len() as u64);
        r.append(&mut vlen_b);
        let mut kb = vstd::slice::slice_to_vec(self.key.as_slice());
        r.append(&mut kb);
        let mut vb = vstd::slice::slice_to_vec(self.value.as_slice());
        r.append(&mut vb);
        proof {
            lemma_encoded_len(self@);
            assert(r@ =~= self@.encoded());
        }
        r
    }
}

/// Codec round trip: for every record whose fields are not the reserved
/// sentinel pattern, decoding its encoded bytes yields the same fields.
pub proof fn lemma_entry_round_trip(e: EntrySpec)
    requires
        !e.is_sentinel(),
        e.key.len() <= u64::MAX,
        e.value.len() <= u64::MAX,
    ensures
        spec_decode_entry(e.encoded(), 0) == Some(e),
{
    lemma_encoded_len(e);
    assert(e.encoded().subrange(0, e.size()) =~= e.encoded());
    lemma_encoded_parses_at(e.encoded(), 0, e);
}

} // verus!
