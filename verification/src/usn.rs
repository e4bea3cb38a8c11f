//! Reading the buffers that `FSCTL_ENUM_USN_DATA` fills: an 8-byte next
//! start reference followed by packed `USN_RECORD_V2` records.
use vstd::prelude::*;
use crate::wide::{WideString, max_wide_len};
use crate::hstring_utils::{hstring_from_utf16, words_of, le_word};

verus! {

/// Size in bytes of the fixed part of a `USN_RECORD_V2`, as laid out in memory.
pub const USN_RECORD_V2_SIZE: usize = 64;

/// The directory bit of the file attributes.
pub const FILE_ATTRIBUTE_DIRECTORY: u32 = 16;

/// Bytes at the start of an enumeration buffer that hold the next start reference.
pub const ENUM_HEADER_SIZE: usize = 8;

/// A 16-bit little-endian value at byte `i`.
pub open spec fn le_u16_at(d: Seq<u8>, i: int) -> u16 {
    le_word(d[i], d[i + 1])
}

/// A 32-bit little-endian value at byte `i`.
pub open spec fn le_u32_at(d: Seq<u8>, i: int) -> u32 {
    (d[i] as int + 256 * (d[i + 1] as int) + 65536 * (d[i + 2] as int) + 16777216 * (
    d[i + 3] as int)) as u32
}

/// A 64-bit little-endian value at byte `i`.
pub open spec fn le_u64_at(d: Seq<u8>, i: int) -> u64 {
    (le_u32_at(d, i) as int + 4294967296 * (le_u32_at(d, i + 4) as int)) as u64
}

/// `le_u64_at` is the 64-bit little-endian number made of the eight bytes
/// from `i`: byte `i + k` counts `256^k` times, all 64 bits kept.
pub proof fn lemma_le_u64_bytes(d: Seq<u8>, i: int)
    requires
        0 <= i,
        i + 8 <= d.len(),
    ensures
        le_u64_at(d, i) as int == d[i] as int + 256 * (d[i + 1] as int) + 65536 * (d[i + 2] as int)
            + 16777216 * (d[i + 3] as int) + 4294967296 * (d[i + 4] as int) + 1099511627776 * (
        d[i + 5] as int) + 281474976710656 * (d[i + 6] as int) + 72057594037927936 * (
        d[i + 7] as int),
{
}

/// `RecordLength` of the record at `o`.
pub open spec fn record_length_at(d: Seq<u8>, o: int) -> u32 {
    le_u32_at(d, o)
}

/// `FileNameLength` of the record at `o`, in bytes.
pub open spec fn name_length_at(d: Seq<u8>, o: int) -> u16 {
    le_u16_at(d, o + 56)
}

/// `FileNameOffset` of the record at `o`, in bytes from the record's start.
pub open spec fn name_offset_at(d: Seq<u8>, o: int) -> u16 {
    le_u16_at(d, o + 58)
}

/// The record at `o` can be read: its fixed part and its name lie inside the
/// buffer, its name has a whole number of UTF-16 units, and its length moves
/// the reader forward.
pub open spec fn record_readable(d: Seq<u8>, o: int) -> bool {
    &&& 0 <= o
    &&& o + USN_RECORD_V2_SIZE <= d.len()
    &&& o + name_offset_at(d, o) + name_length_at(d, o) <= d.len()
    &&& name_length_at(d, o) % 2 == 0
    &&& record_length_at(d, o) > 0
}

/// Every record from `o` up to `end` can be read.
pub open spec fn records_readable(d: Seq<u8>, o: int, end: int) -> bool
    decreases end - o,
{
    if o >= end {
        true
    } else {
        record_readable(d, o) && {
            let next = o + record_length_at(d, o);
            next >= end || records_readable(d, next, end)
        }
    }
}

/// A buffer that holds a next start reference and readable records up to
/// `bytes_returned`.
pub open spec fn buffer_readable(d: Seq<u8>, bytes_returned: u32) -> bool {
    d.len() >= ENUM_HEADER_SIZE && records_readable(d, ENUM_HEADER_SIZE as int, bytes_returned as int)
}

/// What the scan keeps of one record.
pub struct UsnRecordView {
    pub reference: u64,
    pub parent: u64,
    pub attributes: u32,
    pub name: Seq<u16>,
}

/// The record at `o`.
pub open spec fn record_at(d: Seq<u8>, o: int) -> UsnRecordView {
    let start = o + name_offset_at(d, o);
    UsnRecordView {
        reference: le_u64_at(d, o + 8),
        parent: le_u64_at(d, o + 16),
        attributes: le_u32_at(d, o + 52),
        name: words_of(d.subrange(start, start + name_length_at(d, o))),
    }
}

/// The records from `o` up to `end`, in buffer order.
pub open spec fn records_from(d: Seq<u8>, o: int, end: int) -> Seq<UsnRecordView>
    decreases end - o,
{
    if o >= end || !record_readable(d, o) {
        Seq::empty()
    } else {
        let next = o + record_length_at(d, o);
        if next >= end {
            seq![record_at(d, o)]
        } else {
            seq![record_at(d, o)] + records_from(d, next, end)
        }
    }
}

/// The byte offsets of the records read from `o` up to `end`, in order.
pub open spec fn record_offsets(d: Seq<u8>, o: int, end: int) -> Seq<int>
    decreases end - o,
{
    if o >= end || !record_readable(d, o) {
        Seq::empty()
    } else {
        let next = o + record_length_at(d, o);
        if next >= end {
            seq![o]
        } else {
            seq![o] + record_offsets(d, next, end)
        }
    }
}

/// The records read from `o` up to `end` start at `o`, each one `RecordLength`
/// bytes after the one before, all before `end`; and each record holds
/// exactly the fields of the `USN_RECORD_V2` at its offset: the 64-bit
/// little-endian file reference number at bytes 8..16, the parent's at
/// 16..24, the 32-bit attributes at 52..56, and the name as the UTF-16 units
/// of `FileNameLength` bytes at `FileNameOffset`.
pub proof fn lemma_records_are_the_buffer_fields(d: Seq<u8>, o: int, end: int)
    ensures
        records_from(d, o, end).len() == record_offsets(d, o, end).len(),
        record_offsets(d, o, end).len() > 0 ==> record_offsets(d, o, end)[0] == o,
        forall|i: int|
            0 <= i < record_offsets(d, o, end).len() ==> {
                let off = #[trigger] record_offsets(d, o, end)[i];
                &&& o <= off < end
                &&& record_readable(d, off)
                &&& i + 1 < record_offsets(d, o, end).len() ==> record_offsets(d, o, end)[i + 1]
                    == off + record_length_at(d, off)
            },
        forall|i: int|
            0 <= i < records_from(d, o, end).len() ==> {
                let off = record_offsets(d, o, end)[i];
                let r = #[trigger] records_from(d, o, end)[i];
                &&& r.reference == le_u64_at(d, off + 8)
                &&& r.parent == le_u64_at(d, off + 16)
                &&& r.attributes == le_u32_at(d, off + 52)
                &&& r.name == words_of(
                    d.subrange(
                        off + name_offset_at(d, off),
                        off + name_offset_at(d, off) + name_length_at(d, off),
                    ),
                )
            },
    decreases end - o,
{
    if o < end && record_readable(d, o) {
        let next = o + record_length_at(d, o);
        if next < end {
            lemma_records_are_the_buffer_fields(d, next, end);
            let ro = record_offsets(d, next, end);
            let rr = records_from(d, next, end);
            assert forall|i: int| 0 < i < record_offsets(d, o, end).len() implies record_offsets(
                d,
                o,
                end,
            )[i] == ro[i - 1] && records_from(d, o, end)[i] == rr[i - 1] by {}
            assert forall|i: int| 0 <= i < record_offsets(d, o, end).len() implies {
                let off = #[trigger] record_offsets(d, o, end)[i];
                &&& o <= off < end
                &&& record_readable(d, off)
                &&& i + 1 < record_offsets(d, o, end).len() ==> record_offsets(d, o, end)[i + 1]
                    == off + record_length_at(d, off)
            } by {
                if i > 0 {
                    let _ = ro[i - 1];
                } else if ro.len() > 0 {
                    assert(ro[0] == next);
                }
            }
            assert forall|i: int| 0 <= i < records_from(d, o, end).len() implies {
                let off = record_offsets(d, o, end)[i];
                let r = #[trigger] records_from(d, o, end)[i];
                &&& r.reference == le_u64_at(d, off + 8)
                &&& r.parent == le_u64_at(d, off + 16)
                &&& r.attributes == le_u32_at(d, off + 52)
                &&& r.name == words_of(
                    d.subrange(
                        off + name_offset_at(d, off),
                        off + name_offset_at(d, off) + name_length_at(d, off),
                    ),
                )
            } by {
                if i > 0 {
                    let _ = rr[i - 1];
                }
            }
        }
    }
}

/// One record of an enumeration buffer.
#[derive(Debug)]
pub struct UsnRecord {
    pub reference: u64,
    pub parent: u64,
    pub attributes: u32,
    pub name: WideString,
}

impl View for UsnRecord {
    type V = UsnRecordView;

    open spec fn view(&self) -> UsnRecordView {
        UsnRecordView {
            reference: self.reference,
            parent: self.parent,
            attributes: self.attributes,
            name: self.name@,
        }
    }
}

/// The content of one enumeration buffer.
#[derive(Debug)]
pub struct UsnBatch {
    /// Where the next enumeration call starts.
    pub next_start: u64,
    pub records: Vec<UsnRecord>,
}

/// The views of a list of records.
pub open spec fn record_views(v: Seq<UsnRecord>) -> Seq<UsnRecordView> {
    v.map_values(|r: UsnRecord| r@)
}

fn read_u16(d: &[u8], i: usize) -> (v: u16)
    requires
        i + 2 <= d@.len(),
    ensures
        v == le_u16_at(d@, i as int),
{
    (d[i] as u16) + (d[i + 1] as u16) * 256
}

fn read_u32(d: &[u8], i: usize) -> (v: u32)
    requires
        i + 4 <= d@.len(),
    ensures
        v == le_u32_at(d@, i as int),
{
    (d[i] as u32) + (d[i + 1] as u32) * 256 + (d[i + 2] as u32) * 65536 + (d[i + 3] as u32)
        * 16777216
}

fn read_u64(d: &[u8], i: usize) -> (v: u64)
    requires
        i + 8 <= d@.len(),
    ensures
        v == le_u64_at(d@, i as int),
{
    let end = d.len();
    assert(i + 8 <= end);
    let lo = read_u32(d, i);
    let hi = read_u32(d, i + 4);
    (lo as u64) + (hi as u64) * 4294967296
}

/// Whether the record at `offset` can be read.
fn check_record(d: &[u8], offset: usize) -> (b: bool)
    ensures
        b == record_readable(d@, offset as int),
{
    let n = d.len();
    if offset > n || n - offset < USN_RECORD_V2_SIZE {
        return false;
    }
    let name_len = read_u16(d, offset + 56) as usize;
    let name_off = read_u16(d, offset + 58) as usize;
    let rl = read_u32(d, offset);
    n - offset >= name_off && n - offset - name_off >= name_len && name_len % 2 == 0 && rl > 0
}

/// Whether `parse_usn_buffer` can read `data` with `bytes_returned` valid
/// bytes: the condition under which reading it neither indexes out of the
/// buffer, splits a UTF-16 unit, nor stops making progress.
pub fn usn_buffer_is_readable(data: &[u8], bytes_returned: u32) -> (b: bool)
    ensures
        b == buffer_readable(data@, bytes_returned),
{
    if data.len() < ENUM_HEADER_SIZE {
        return false;
    }
    let end = bytes_returned as u64;
    let mut offset: u64 = ENUM_HEADER_SIZE as u64;
    while offset < end
        invariant
            end == bytes_returned as u64,
            offset <= 0xFFFF_FFFFu64 + 0xFFFF_FFFFu64,
            data@.len() >= ENUM_HEADER_SIZE,
            records_readable(data@, ENUM_HEADER_SIZE as int, end as int) == records_readable(
                data@,
                offset as int,
                end as int,
            ),
        decreases if offset < end { end - offset } else { 0 },
    {
        if !check_record(data, offset as usize) {
            return false;
        }
        let rl = read_u32(data, offset as usize);
        offset = offset + rl as u64;
    }
    true
}

/// Reads one enumeration buffer: the next start reference from its first 8
/// bytes and every record from byte 8 up to `bytes_returned`.
pub fn parse_usn_buffer(data: &[u8], bytes_returned: u32) -> (batch: UsnBatch)
    requires
        buffer_readable(data@, bytes_returned),
    ensures
        batch.next_start == le_u64_at(data@, 0),
        record_views(batch.records@) == records_from(data@, 8, bytes_returned as int),
        batch.records@.len() == record_offsets(data@, 8, bytes_returned as int).len(),
        forall|i: int|
            0 <= i < batch.records@.len() ==> {
                let off = record_offsets(data@, 8, bytes_returned as int)[i];
                &&& (#[trigger] batch.records@[i]).reference == le_u64_at(data@, off + 8)
                &&& batch.records@[i].parent == le_u64_at(data@, off + 16)
                &&& batch.records@[i].attributes == le_u32_at(data@, off + 52)
            },
{
    let next_start = read_u64(data, 0);
    let end = bytes_returned as u64;
    let mut records: Vec<UsnRecord> = Vec::new();
    let mut offset: u64 = ENUM_HEADER_SIZE as u64;
    let n = data.len();
    while offset < end
        invariant
            n == data@.len(),
            end == bytes_returned as u64,
            offset <= 0xFFFF_FFFFu64 + 0xFFFF_FFFFu64,
            offset < end ==> records_readable(data@, offset as int, end as int),
            records_from(data@, 8, end as int) == record_views(records@) + records_from(
                data@,
                offset as int,
                end as int,
            ),
        decreases if offset < end { end - offset } else { 0 },
    {
        let o = offset as usize;
        let rl = read_u32(data, o);
        let reference = read_u64(data, o + 8);
        let parent = read_u64(data, o + 16);
        let attributes = read_u32(data, o + 52);
        let name_len = read_u16(data, o + 56) as usize;
        let name_off = read_u16(data, o + 58) as usize;
        let (_, tail) = data.split_at(o + name_off);
        let (name_bytes, _) = tail.split_at(name_len);
        let ghost start = o + name_off;
        assert(name_bytes@ == data@.subrange(start, start + name_len));
        let ghost old_records = records@;
        match hstring_from_utf16(name_bytes) {
            Ok(name) => {
                records.push(UsnRecord { reference, parent, attributes, name });
            },
            Err(_) => {
                assert(false);
            },
        }
        proof {
            assert(record_views(records@) == record_views(old_records).push(record_at(data@, o as int)));
            let next = o + rl;
            if next >= end {
                assert(records_from(data@, o as int, end as int) == seq![record_at(data@, o as int)]);
                assert(records_from(data@, next, end as int) =~= Seq::<UsnRecordView>::empty());
            } else {
                assert(records_from(data@, o as int, end as int) == seq![record_at(data@, o as int)] + records_from(data@, next, end as int));
            }
        }
        offset = offset + rl as u64;
        proof {
            assert(record_views(old_records) + records_from(data@, o as int, end as int)
                == record_views(records@) + records_from(data@, offset as int, end as int));
        }
    }
    proof {
        assert(records_from(data@, offset as int, end as int) =~= Seq::<UsnRecordView>::empty());
        assert(record_views(records@) + Seq::<UsnRecordView>::empty() == record_views(records@));
        assert forall|i: int| 0 <= i < records@.len() implies #[trigger] records@[i]@ == records_from(
            data@,
            8,
            bytes_returned as int,
        )[i] by {
            assert(record_views(records@)[i] == records@[i]@);
        }
        lemma_records_are_the_buffer_fields(data@, 8, bytes_returned as int);
        assert forall|i: int| 0 <= i < records@.len() implies {
            let off = record_offsets(data@, 8, bytes_returned as int)[i];
            &&& (#[trigger] records@[i]).reference == le_u64_at(data@, off + 8)
            &&& records@[i].parent == le_u64_at(data@, off + 16)
            &&& records@[i].attributes == le_u32_at(data@, off + 52)
        } by {
            assert(records@[i]@ == records_from(data@, 8, bytes_returned as int)[i]);
        }
    }
    UsnBatch { next_start, records }
}

} // verus!
