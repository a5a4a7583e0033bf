//! Slotted pages that pack several values into one page.
//!
//! Layout: byte 0 type tag, byte 1 page version, bytes 2..4 slot count, bytes
//! 4..6 `free_start` (end of the slot directory, growing forward), bytes 6..8
//! `free_end` (start of the packed values, growing backward), bytes 8..16
//! reserved, then the slot directory, the free hole, the values and the
//! checksum. A directory entry is six bytes: offset, length, flags.
//!
//! Slot indices are stable for the lifetime of the page, and dead slots are
//! not reused. Mutators do not stamp the checksum: callers do.

use vstd::prelude::*;

use crate::bytes::{le16, read_u16, same_outside, write_u16};
use crate::page::{current_version, zeroed, PageType, CHECKSUM_OFFSET, DATA_PAGE_HEADER_SIZE, PAGE_SIZE};

verus! {

/// Size of a slot directory entry: offset, length and flags, two bytes each.
pub const SLOT_ENTRY_SIZE: usize = 6;

/// Flags of a slot that holds a value.
pub const SLOT_FLAG_LIVE: u16 = 0x0001;

/// Number of directory entries that the header records.
pub open spec fn slot_count_of(s: Seq<u8>) -> int {
    le16(s, 2)
}

/// End of the slot directory.
pub open spec fn free_start_of(s: Seq<u8>) -> int {
    le16(s, 4)
}

/// Start of the packed values.
pub open spec fn free_end_of(s: Seq<u8>) -> int {
    le16(s, 6)
}

/// Offset of directory entry `slot`.
pub open spec fn entry_at(slot: int) -> int {
    DATA_PAGE_HEADER_SIZE + SLOT_ENTRY_SIZE * slot
}

/// The header is that of a data page and is consistent with itself: the
/// directory lies below the free hole, and the hole below the checksum.
pub open spec fn header_ok(s: Seq<u8>) -> bool {
    &&& s[0] == PageType::Data.code()
    &&& DATA_PAGE_HEADER_SIZE <= free_start_of(s) <= free_end_of(s) <= CHECKSUM_OFFSET
    &&& entry_at(slot_count_of(s)) <= free_start_of(s)
}

/// Offset, length and flags of directory entry `slot`, if the entry and the
/// payload that it names lie within the page body.
pub open spec fn slot_entry(s: Seq<u8>, slot: int) -> Option<(int, int, int)> {
    let base = entry_at(slot);
    let offset = le16(s, base);
    let length = le16(s, base + 2);
    if base + SLOT_ENTRY_SIZE > CHECKSUM_OFFSET || offset < DATA_PAGE_HEADER_SIZE || offset + length
        > CHECKSUM_OFFSET {
        None
    } else {
        Some((offset, length, le16(s, base + 4)))
    }
}

/// The value in slot `slot`, if there is one.
pub open spec fn slot_value(s: Seq<u8>, slot: int) -> Option<Seq<u8>> {
    if !header_ok(s) || slot >= slot_count_of(s) {
        None
    } else {
        match slot_entry(s, slot) {
            Some((offset, length, flags)) => if flags == SLOT_FLAG_LIVE {
                Some(s.subrange(offset, offset + length))
            } else {
                None
            },
            None => None,
        }
    }
}

/// Every recorded directory entry is readable.
pub open spec fn entries_ok(s: Seq<u8>) -> bool {
    forall|i: int| 0 <= i < slot_count_of(s) ==> #[trigger] slot_entry(s, i) is Some
}

/// What `init_page` establishes and `insert` keeps: a consistent header, the
/// directory ending exactly at the free hole, and every payload above it.
pub open spec fn well_packed(s: Seq<u8>) -> bool {
    &&& s.len() == PAGE_SIZE
    &&& header_ok(s)
    &&& entry_at(slot_count_of(s)) == free_start_of(s)
    &&& forall|i: int|
        0 <= i < slot_count_of(s) ==> ((#[trigger] slot_entry(s, i)) matches Some((offset, _, _))
            && offset >= free_end_of(s))
}

/// Bytes that the first `n` slots occupy: payload plus directory entry of each
/// live slot.
pub open spec fn live_bytes(s: Seq<u8>, n: int) -> int
    decreases n,
{
    if n <= 0 {
        0
    } else {
        live_bytes(s, n - 1) + match slot_entry(s, n - 1) {
            Some((_, length, flags)) => if flags == SLOT_FLAG_LIVE {
                SLOT_ENTRY_SIZE + length
            } else {
                0
            },
            None => 0,
        }
    }
}

/// Index and value of each live slot among the first `n`, in order.
pub open spec fn live_slots(s: Seq<u8>, n: int) -> Seq<(u16, Seq<u8>)>
    decreases n,
{
    if n <= 0 {
        Seq::empty()
    } else {
        match slot_value(s, n - 1) {
            Some(value) => live_slots(s, n - 1).push(((n - 1) as u16, value)),
            None => live_slots(s, n - 1),
        }
    }
}

/// Operations on data page buffers.
pub struct DataPage;

impl DataPage {
    /// Initialize a page as an empty data page.
    pub fn init_page(buf: &mut [u8; PAGE_SIZE])
        ensures
            final(buf)@[0] == PageType::Data.code(),
            final(buf)@[1] == 0,
            slot_count_of(final(buf)@) == 0,
            free_start_of(final(buf)@) == DATA_PAGE_HEADER_SIZE,
            free_end_of(final(buf)@) == CHECKSUM_OFFSET,
            forall|j: int| 8 <= j < PAGE_SIZE ==> final(buf)@[j] == 0,
            well_packed(final(buf)@),
    {
        *buf = zeroed();
        buf[0] = PageType::Data.code();
        buf[1] = current_version(PageType::Data);
        write_u16(buf, 4, DATA_PAGE_HEADER_SIZE as u16);
        write_u16(buf, 6, CHECKSUM_OFFSET as u16);
    }

    /// Number of slots, live and dead.
    pub fn slot_count(buf: &[u8; PAGE_SIZE]) -> (count: u16)
        ensures
            count == slot_count_of(buf@),
    {
        read_u16(buf, 2)
    }

    /// Size of the hole between the slot directory and the values; 0 if the
    /// header is not valid.
    pub fn free_space(buf: &[u8; PAGE_SIZE]) -> (space: usize)
        ensures
            space == (if header_ok(buf@) { free_end_of(buf@) - free_start_of(buf@) } else { 0 }),
    {
        match Self::validate_header(buf) {
            Some((free_start, free_end, _)) => free_end - free_start,
            None => 0,
        }
    }

    /// `(free_start, free_end, slot_count)` of a page whose header is
    /// consistent, `None` otherwise. Guards every path that indexes the page
    /// by values found in it.
    fn validate_header(buf: &[u8; PAGE_SIZE]) -> (header: Option<(usize, usize, u16)>)
        ensures
            header is Some == header_ok(buf@),
            header matches Some((free_start, free_end, slot_count)) ==> {
                &&& free_start == free_start_of(buf@)
                &&& free_end == free_end_of(buf@)
                &&& slot_count == slot_count_of(buf@)
            },
    {
        if buf[0] != PageType::Data.code() {
            return None;
        }
        let slot_count: u16 = read_u16(buf, 2);
        let free_start: usize = read_u16(buf, 4) as usize;
        let free_end: usize = read_u16(buf, 6) as usize;
        if free_start < DATA_PAGE_HEADER_SIZE {
            return None;
        }
        if free_end > CHECKSUM_OFFSET {
            return None;
        }
        if free_start > free_end {
            return None;
        }
        let dir_end: usize = DATA_PAGE_HEADER_SIZE + (slot_count as usize) * SLOT_ENTRY_SIZE;
        if dir_end > free_start {
            return None;
        }
        Some((free_start, free_end, slot_count))
    }

    /// Insert a value: append a directory entry at `free_start` and the bytes
    /// just below `free_end`. Returns the index of the new slot, which is the
    /// slot count before the call, or `None`, with the page unchanged, if the
    /// page is full or its header is not valid.
    #[verifier::spinoff_prover]
    #[verifier::rlimit(60)]
    pub fn insert(buf: &mut [u8; PAGE_SIZE], value: &[u8]) -> (slot: Option<u16>)
        ensures
            slot is Some <==> header_ok(old(buf)@) && free_end_of(old(buf)@) - free_start_of(old(buf)@)
                >= SLOT_ENTRY_SIZE + value@.len(),
            slot is None ==> final(buf)@ == old(buf)@,
            slot matches Some(index) ==> {
                &&& index == slot_count_of(old(buf)@)
                &&& header_ok(final(buf)@)
                &&& slot_count_of(final(buf)@) == index + 1
                &&& free_start_of(final(buf)@) == free_start_of(old(buf)@) + SLOT_ENTRY_SIZE
                &&& free_end_of(final(buf)@) == free_end_of(old(buf)@) - value@.len()
                &&& forall|j: int|
                    0 <= j < PAGE_SIZE && !(2 <= j < 8) && !(free_start_of(old(buf)@) <= j
                        < free_start_of(final(buf)@)) && !(free_end_of(final(buf)@) <= j < free_end_of(
                        old(buf)@,
                    )) ==> #[trigger] final(buf)@[j] == old(buf)@[j]
            },
            slot is Some ==> {
                &&& le16(final(buf)@, free_start_of(old(buf)@)) == free_end_of(final(buf)@)
                &&& le16(final(buf)@, free_start_of(old(buf)@) + 2) == value@.len()
                &&& le16(final(buf)@, free_start_of(old(buf)@) + 4) == SLOT_FLAG_LIVE
                &&& forall|k: int|
                    0 <= k < value@.len() ==> #[trigger] value@[k] == final(buf)@[free_end_of(final(buf)@) + k]
            },
            slot matches Some(index) ==> well_packed(old(buf)@) ==> {
                &&& well_packed(final(buf)@)
                &&& slot_value(final(buf)@, index as int) == Some(value@)
                &&& forall|i: int|
                    0 <= i < index ==> #[trigger] slot_value(final(buf)@, i) == slot_value(old(buf)@, i)
            },
    {
        let (free_start, free_end, slot_count) = match Self::validate_header(buf) {
            Some(header) => header,
            None => {
                return None;
            },
        };
        let room: usize = free_end - free_start;
        if room < SLOT_ENTRY_SIZE || room - SLOT_ENTRY_SIZE < value.len() {
            return None;
        }
        let data_offset: usize = free_end - value.len();
        let mut i: usize = 0;
        while i < value.len()
            invariant
                i <= value@.len(),
                data_offset + value@.len() == free_end,
                free_end <= CHECKSUM_OFFSET,
                forall|j: int| 0 <= j < i ==> #[trigger] buf@[data_offset + j] == value@[j],
                forall|j: int|
                    0 <= j < PAGE_SIZE && !(data_offset <= j < free_end) ==> #[trigger] buf@[j] == old(buf)@[j],
            decreases value@.len() - i,
        {
            buf[data_offset + i] = value[i];
            i += 1;
        }
        let ghost filled = buf@;
        write_u16(buf, free_start, data_offset as u16);
        write_u16(buf, free_start + 2, value.len() as u16);
        write_u16(buf, free_start + 4, SLOT_FLAG_LIVE);
        write_u16(buf, 2, slot_count + 1);
        write_u16(buf, 4, (free_start + SLOT_ENTRY_SIZE) as u16);
        write_u16(buf, 6, data_offset as u16);
        proof {
            assert(forall|j: int| data_offset <= j < free_end ==> #[trigger] buf@[j] == filled[j]);
            assert forall|k: int| 0 <= k < value@.len() implies #[trigger] value@[k] == buf@[data_offset + k] by {
                assert(filled[data_offset + k] == value@[k]);
            }
            if well_packed(old(buf)@) {
                let s = buf@;
                assert(slot_entry(s, slot_count as int) == Some(
                    (data_offset as int, value@.len() as int, SLOT_FLAG_LIVE as int),
                ));
                assert forall|k: int| 0 <= k < value@.len() implies s.subrange(
                    data_offset as int,
                    data_offset + value@.len(),
                )[k] == value@[k] by {
                    assert(filled[data_offset + k] == value@[k]);
                }
                assert(s.subrange(data_offset as int, data_offset + value@.len()) =~= value@);
                assert forall|k: int| 0 <= k < slot_count implies {
                    &&& (#[trigger] slot_entry(s, k)) == slot_entry(old(buf)@, k)
                    &&& slot_value(s, k) == slot_value(old(buf)@, k)
                } by {
                    assert(slot_entry(old(buf)@, k) is Some);
                    let (off, len, _) = slot_entry(old(buf)@, k)->0;
                    assert(s.subrange(off, off + len) =~= old(buf)@.subrange(off, off + len));
                }
            }
        }
        Some(slot_count)
    }

    /// Read a value by slot index. `None` if the slot is dead or out of range,
    /// or the header or the directory entry is not valid.
    pub fn read(buf: &[u8; PAGE_SIZE], slot: u16) -> (value: Option<&[u8]>)
        ensures
            match value {
                Some(bytes) => slot_value(buf@, slot as int) == Some(bytes@),
                None => slot_value(buf@, slot as int) is None,
            },
    {
        let (_, _, slot_count) = match Self::validate_header(buf) {
            Some(header) => header,
            None => {
                return None;
            },
        };
        if slot >= slot_count {
            return None;
        }
        let (offset, length, flags) = match Self::read_slot_entry(buf, slot) {
            Some(entry) => entry,
            None => {
                return None;
            },
        };
        if flags != SLOT_FLAG_LIVE {
            return None;
        }
        Some(vstd::slice::slice_subrange(buf.as_slice(), offset, offset + length))
    }

    /// Occupied bytes: payload and directory entry of each live slot. Dead
    /// slots are not counted; a page whose header or directory is not valid
    /// counts as 0.
    pub fn used_space(buf: &[u8; PAGE_SIZE]) -> (used: usize)
        ensures
            used == (if header_ok(buf@) && entries_ok(buf@) {
                live_bytes(buf@, slot_count_of(buf@))
            } else {
                0
            }),
    {
        let (_, _, count) = match Self::validate_header(buf) {
            Some(header) => header,
            None => {
                return 0;
            },
        };
        let mut data_bytes: usize = 0;
        let mut live: usize = 0;
        let mut i: u16 = 0;
        while i < count
            invariant
                header_ok(buf@),
                count == slot_count_of(buf@),
                i <= count,
                live <= i,
                data_bytes <= 8184 * i,
                forall|k: int| 0 <= k < i ==> #[trigger] slot_entry(buf@, k) is Some,
                live * SLOT_ENTRY_SIZE + data_bytes == live_bytes(buf@, i as int),
            decreases count - i,
        {
            let (_, length, flags) = match Self::read_slot_entry(buf, i) {
                Some(entry) => entry,
                None => {
                    return 0;
                },
            };
            if flags == SLOT_FLAG_LIVE {
                data_bytes += length;
                live += 1;
            }
            i += 1;
        }
        live * SLOT_ENTRY_SIZE + data_bytes
    }

    /// All live slots in order, each with its index (the one that `read`
    /// accepts) and its value. Empty if the header or the directory is not
    /// valid.
    pub fn iter_live(buf: &[u8; PAGE_SIZE]) -> (slots: Vec<(u16, &[u8])>)
        ensures
            ({
                let expected = if header_ok(buf@) && entries_ok(buf@) {
                    live_slots(buf@, slot_count_of(buf@))
                } else {
                    Seq::empty()
                };
                &&& slots@.len() == expected.len()
                &&& forall|i: int|
                    0 <= i < expected.len() ==> (#[trigger] slots@[i]).0 == expected[i].0 && slots@[i].1@
                        == expected[i].1
            }),
    {
        let (_, _, count) = match Self::validate_header(buf) {
            Some(header) => header,
            None => {
                return Vec::new();
            },
        };
        let mut result: Vec<(u16, &[u8])> = Vec::new();
        let mut i: u16 = 0;
        while i < count
            invariant
                header_ok(buf@),
                count == slot_count_of(buf@),
                i <= count,
                forall|k: int| 0 <= k < i ==> #[trigger] slot_entry(buf@, k) is Some,
                result@.len() == live_slots(buf@, i as int).len(),
                forall|k: int|
                    0 <= k < result@.len() ==> (#[trigger] result@[k]).0 == live_slots(buf@, i as int)[k].0
                        && result@[k].1@ == live_slots(buf@, i as int)[k].1,
            decreases count - i,
        {
            let (offset, length, flags) = match Self::read_slot_entry(buf, i) {
                Some(entry) => entry,
                None => {
                    return Vec::new();
                },
            };
            if flags == SLOT_FLAG_LIVE {
                result.push((i, vstd::slice::slice_subrange(buf.as_slice(), offset, offset + length)));
            }
            i += 1;
        }
        result
    }

    /// Parse one directory entry into offset, length and flags. `None` if the
    /// entry or its payload would leave the page body; safe on an untrusted
    /// index.
    fn read_slot_entry(buf: &[u8; PAGE_SIZE], slot: u16) -> (entry: Option<(usize, usize, u16)>)
        ensures
            match entry {
                Some((offset, length, flags)) => slot_entry(buf@, slot as int) == Some(
                    (offset as int, length as int, flags as int),
                ),
                None => slot_entry(buf@, slot as int) is None,
            },
    {
        let base: usize = DATA_PAGE_HEADER_SIZE + (slot as usize) * SLOT_ENTRY_SIZE;
        if base + SLOT_ENTRY_SIZE > CHECKSUM_OFFSET {
            return None;
        }
        let offset: usize = read_u16(buf, base) as usize;
        let length: usize = read_u16(buf, base + 2) as usize;
        let flags: u16 = read_u16(buf, base + 4);
        if offset < DATA_PAGE_HEADER_SIZE {
            return None;
        }
        if offset + length > CHECKSUM_OFFSET {
            return None;
        }
        Some((offset, length, flags))
    }
}

/// The values of a page do not depend on its checksum.
pub proof fn lemma_stamped(a: Seq<u8>, b: Seq<u8>)
    requires
        a.len() == PAGE_SIZE,
        same_outside(a, b, CHECKSUM_OFFSET as int, PAGE_SIZE as int),
    ensures
        well_packed(b) == well_packed(a),
        slot_count_of(b) == slot_count_of(a),
        forall|i: int| 0 <= i ==> #[trigger] slot_value(b, i) == slot_value(a, i),
{
    assert(slot_count_of(b) == slot_count_of(a) && free_start_of(b) == free_start_of(a) && free_end_of(b)
        == free_end_of(a) && header_ok(b) == header_ok(a));
    assert forall|i: int| 0 <= i implies #[trigger] slot_entry(b, i) == slot_entry(a, i) by {}
    if well_packed(b) {
        assert forall|i: int| 0 <= i < slot_count_of(a) implies ((#[trigger] slot_entry(a, i)) matches Some(
            (offset, _, _),
        ) && offset >= free_end_of(a)) by {
            assert(slot_entry(b, i) == slot_entry(a, i));
        }
    }
    assert forall|i: int| 0 <= i implies #[trigger] slot_value(b, i) == slot_value(a, i) by {
        assert(slot_entry(b, i) == slot_entry(a, i));
        if let Some((offset, length, _)) = slot_entry(a, i) {
            assert(b.subrange(offset, offset + length) =~= a.subrange(offset, offset + length));
        }
    }
}

/// A value is no longer than the part of a page that is for values.
pub proof fn lemma_slot_length(s: Seq<u8>, slot: int)
    requires
        s.len() == PAGE_SIZE,
    ensures
        slot_value(s, slot) matches Some(value) ==> value.len() <= CHECKSUM_OFFSET - DATA_PAGE_HEADER_SIZE,
{
}

} // verus!
