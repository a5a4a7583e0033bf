//! The superblock: where a database begins.
//!
//! The first pages of the storage are superblock slots. A commit writes the slot
//! that its counter selects, so that the superblock of the commit before stays
//! intact; the valid slot with the highest counter is the current one.

use vstd::prelude::*;

use crate::bytes::{le32, le64, read_u32, read_u64, write_u32, write_u64};
use crate::page::{checksum_ok, stamp_checksum, verify_checksum, zeroed, MAGIC, PAGE_SIZE};
use crate::text::{decimal, push_decimal};

verus! {

/// Number of superblock slots of a new database.
pub const DEFAULT_SUPERBLOCK_COUNT: u32 = 2;

/// Fewest superblock slots a database may have.
pub const MIN_SUPERBLOCKS: u32 = 2;

/// Most superblock slots a database may have.
pub const MAX_SUPERBLOCKS: u32 = 16;

/// Number of entries in the named-root table.
pub const NAMED_ROOT_COUNT: usize = 8;

/// Longest name of a named root, in bytes.
pub const NAMED_ROOT_NAME_LEN: usize = 24;

/// Why a superblock slot was rejected.
#[derive(Debug, Clone, Copy, PartialEq, Eq, Structural)]
pub enum SuperblockDefect {
    /// The file is too short to hold the slot.
    TooShort,
    /// The slot's checksum does not match its contents.
    BadChecksum,
    /// The slot does not start with the magic number.
    BadMagic,
    /// The slot count that the slot records is out of range.
    BadCount(u32),
}

impl SuperblockDefect {
    /// The words for this defect.
    pub open spec fn text(self) -> Seq<char> {
        match self {
            SuperblockDefect::TooShort => "too short"@,
            SuperblockDefect::BadChecksum => "bad checksum"@,
            SuperblockDefect::BadMagic => "bad magic"@,
            SuperblockDefect::BadCount(count) => "bad superblock_count "@ + decimal(count as nat),
        }
    }

    /// Append the words for this defect.
    pub fn push_text(&self, out: &mut String)
        ensures
            final(out)@ == old(out)@ + self.text(),
    {
        match *self {
            SuperblockDefect::TooShort => out.append("too short"),
            SuperblockDefect::BadChecksum => out.append("bad checksum"),
            SuperblockDefect::BadMagic => out.append("bad magic"),
            SuperblockDefect::BadCount(count) => {
                out.append("bad superblock_count ");
                push_decimal(out, count as u64);
                assert(out@ =~= old(out)@ + ("bad superblock_count "@ + decimal(count as nat)));
            },
        }
    }
}

/// A rejected superblock slot.
#[derive(Debug, Clone, Copy, PartialEq, Eq, Structural)]
pub struct SlotDefect {
    /// Index of the slot.
    pub slot: u32,
    /// Why it was rejected.
    pub defect: SuperblockDefect,
}

/// An entry of the named-root table. The name is padded with zero bytes; an
/// entry whose name is empty is free.
#[derive(Debug, Clone, Copy)]
pub struct NamedRoot {
    /// The name.
    pub name: [u8; NAMED_ROOT_NAME_LEN],
    /// The handle that the name stands for.
    pub handle: u64,
}

/// What a superblock records.
#[derive(Debug, Clone, Copy)]
pub struct Superblock {
    /// Marks the page as a superblock.
    pub magic: u32,
    /// Format of the file.
    pub format_version: u32,
    /// Counts the commits; the highest counter wins.
    pub txn_counter: u64,
    /// Root of the handle table.
    pub root_handle_table_page: u64,
    /// Root of the freemap.
    pub root_freemap_page: u64,
    /// Depth of the freemap.
    pub freemap_depth: u32,
    /// Root of the membership index.
    pub root_membership_index_page: u64,
    /// Number of pages in use, including free ones.
    pub total_pages: u64,
    /// The handle that the next value gets.
    pub next_handle: u64,
    /// Size of a page.
    pub page_size: u32,
    /// Number of superblock slots.
    pub superblock_count: u32,
    /// The named roots.
    pub named_roots: [NamedRoot; NAMED_ROOT_COUNT],
}

/// Offset of entry `i` of the named-root table.
pub open spec fn name_offset(i: int) -> int {
    72 + 32 * i
}

/// Entry `i` of the named-root table is stored in `s`.
pub open spec fn name_stored(s: Seq<u8>, i: int, root: NamedRoot) -> bool {
    &&& forall|j: int| 0 <= j < NAMED_ROOT_NAME_LEN ==> #[trigger] root.name@[j] == s[name_offset(i) + j]
    &&& root.handle == le64(s, name_offset(i) + 24)
}

/// The page contents `s` record the superblock.
pub open spec fn encodes(s: Seq<u8>, sb: Superblock) -> bool {
    &&& sb.magic == le32(s, 0)
    &&& sb.format_version == le32(s, 4)
    &&& sb.txn_counter == le64(s, 8)
    &&& sb.root_handle_table_page == le64(s, 16)
    &&& sb.root_freemap_page == le64(s, 24)
    &&& sb.total_pages == le64(s, 32)
    &&& sb.next_handle == le64(s, 40)
    &&& sb.page_size == le32(s, 48)
    &&& sb.superblock_count == le32(s, 52)
    &&& sb.root_membership_index_page == le64(s, 56)
    &&& sb.freemap_depth == le32(s, 64)
    &&& forall|i: int| 0 <= i < NAMED_ROOT_COUNT ==> name_stored(s, i, #[trigger] sb.named_roots@[i])
}

/// The number of slots is one that a database may have.
pub open spec fn count_ok(n: int) -> bool {
    MIN_SUPERBLOCKS <= n <= MAX_SUPERBLOCKS
}

/// Why the page contents are no superblock; `None` if they are one.
pub open spec fn slot_defect(s: Seq<u8>) -> Option<SuperblockDefect> {
    if !checksum_ok(s) {
        Some(SuperblockDefect::BadChecksum)
    } else if le32(s, 0) != MAGIC {
        Some(SuperblockDefect::BadMagic)
    } else if !count_ok(le32(s, 52)) {
        Some(SuperblockDefect::BadCount(le32(s, 52) as u32))
    } else {
        None
    }
}

/// The commit counter of a superblock.
pub open spec fn counter_of(s: Seq<u8>) -> int {
    le64(s, 8)
}

/// What is recorded can be read back: two superblocks that the same page
/// contents record agree in every field.
pub proof fn law_superblock_round_trip(s: Seq<u8>, a: Superblock, b: Superblock)
    requires
        encodes(s, a),
        encodes(s, b),
    ensures
        a.magic == b.magic,
        a.format_version == b.format_version,
        a.txn_counter == b.txn_counter,
        a.root_handle_table_page == b.root_handle_table_page,
        a.root_freemap_page == b.root_freemap_page,
        a.freemap_depth == b.freemap_depth,
        a.root_membership_index_page == b.root_membership_index_page,
        a.total_pages == b.total_pages,
        a.next_handle == b.next_handle,
        a.page_size == b.page_size,
        a.superblock_count == b.superblock_count,
        forall|i: int|
            0 <= i < NAMED_ROOT_COUNT ==> {
                &&& (#[trigger] a.named_roots@[i]).name@ == b.named_roots@[i].name@
                &&& a.named_roots@[i].handle == b.named_roots@[i].handle
            },
{
    assert forall|i: int| 0 <= i < NAMED_ROOT_COUNT implies {
        &&& (#[trigger] a.named_roots@[i]).name@ == b.named_roots@[i].name@
        &&& a.named_roots@[i].handle == b.named_roots@[i].handle
    } by {
        assert(name_stored(s, i, a.named_roots@[i]));
        assert(name_stored(s, i, b.named_roots@[i]));
        assert(a.named_roots@[i].name@ =~= b.named_roots@[i].name@);
    }
}

impl NamedRoot {
    /// A free entry.
    pub fn empty() -> (root: NamedRoot)
        ensures
            root.name@ == Seq::new(NAMED_ROOT_NAME_LEN as nat, |i: int| 0u8),
            root.handle == 0,
    {
        let root = NamedRoot { name: [0u8; NAMED_ROOT_NAME_LEN], handle: 0 };
        assert(root.name@ =~= Seq::new(NAMED_ROOT_NAME_LEN as nat, |i: int| 0u8));
        root
    }
}

impl Superblock {
    /// The page that records this superblock.
    pub fn serialize(&self) -> (buf: [u8; PAGE_SIZE])
        ensures
            checksum_ok(buf@),
            encodes(buf@, *self),
    {
        let mut buf: [u8; PAGE_SIZE] = zeroed();
        let mut i: usize = 0;
        while i < NAMED_ROOT_COUNT
            invariant
                i <= NAMED_ROOT_COUNT,
                forall|k: int| 0 <= k < i ==> name_stored(buf@, k, #[trigger] self.named_roots@[k]),
            decreases NAMED_ROOT_COUNT - i,
        {
            let base: usize = 72 + 32 * i;
            let ghost before = buf@;
            let mut j: usize = 0;
            while j < NAMED_ROOT_NAME_LEN
                invariant
                    i < NAMED_ROOT_COUNT,
                    j <= NAMED_ROOT_NAME_LEN,
                    base == 72 + 32 * i,
                    forall|k: int| 0 <= k < j ==> #[trigger] self.named_roots@[i as int].name@[k] == buf@[base + k],
                    crate::bytes::same_outside(before, buf@, base as int, base + 24),
                decreases NAMED_ROOT_NAME_LEN - j,
            {
                buf[base + j] = self.named_roots[i].name[j];
                j += 1;
            }
            let ghost named = buf@;
            write_u64(&mut buf, base + 24, self.named_roots[i].handle);
            proof {
                assert forall|k: int| 0 <= k < i + 1 implies name_stored(buf@, k, #[trigger] self.named_roots@[k]) by {
                    if k < i {
                        assert(name_stored(before, k, self.named_roots@[k]));
                        assert forall|m: int| 0 <= m < NAMED_ROOT_NAME_LEN implies #[trigger] self.named_roots@[k].name@[m]
                            == buf@[name_offset(k) + m] by {
                            assert(before[name_offset(k) + m] == named[name_offset(k) + m]);
                        }
                    }
                }
            }
            i += 1;
        }
        let ghost named = buf@;
        write_u32(&mut buf, 0, self.magic);
        write_u32(&mut buf, 4, self.format_version);
        write_u64(&mut buf, 8, self.txn_counter);
        write_u64(&mut buf, 16, self.root_handle_table_page);
        write_u64(&mut buf, 24, self.root_freemap_page);
        write_u64(&mut buf, 32, self.total_pages);
        write_u64(&mut buf, 40, self.next_handle);
        write_u32(&mut buf, 48, self.page_size);
        write_u32(&mut buf, 52, self.superblock_count);
        write_u64(&mut buf, 56, self.root_membership_index_page);
        write_u32(&mut buf, 64, self.freemap_depth);
        stamp_checksum(&mut buf);
        proof {
            assert forall|k: int| 0 <= k < NAMED_ROOT_COUNT implies name_stored(buf@, k, #[trigger] self.named_roots@[k]) by {
                assert(name_stored(named, k, self.named_roots@[k]));
                assert forall|m: int| 72 <= m < 328 implies #[trigger] buf@[m] == named[m] by {}
                assert forall|m: int| 0 <= m < NAMED_ROOT_NAME_LEN implies #[trigger] self.named_roots@[k].name@[m]
                    == buf@[name_offset(k) + m] by {
                    assert(named[name_offset(k) + m] == buf@[name_offset(k) + m]);
                }
            }
        }
        buf
    }

    /// The superblock that a page records.
    pub fn deserialize(buf: &[u8; PAGE_SIZE]) -> (outcome: Result<Superblock, SuperblockDefect>)
        ensures
            match outcome {
                Ok(sb) => slot_defect(buf@) is None && encodes(buf@, sb),
                Err(defect) => slot_defect(buf@) == Some(defect),
            },
    {
        if !verify_checksum(buf) {
            return Err(SuperblockDefect::BadChecksum);
        }
        let magic: u32 = read_u32(buf, 0);
        if magic != MAGIC {
            return Err(SuperblockDefect::BadMagic);
        }
        let superblock_count: u32 = read_u32(buf, 52);
        if superblock_count < MIN_SUPERBLOCKS || superblock_count > MAX_SUPERBLOCKS {
            return Err(SuperblockDefect::BadCount(superblock_count));
        }
        let mut named_roots: [NamedRoot; NAMED_ROOT_COUNT] = [NamedRoot::empty(); NAMED_ROOT_COUNT];
        let mut i: usize = 0;
        while i < NAMED_ROOT_COUNT
            invariant
                i <= NAMED_ROOT_COUNT,
                forall|k: int| 0 <= k < i ==> name_stored(buf@, k, #[trigger] named_roots@[k]),
            decreases NAMED_ROOT_COUNT - i,
        {
            let base: usize = 72 + 32 * i;
            let mut root: NamedRoot = NamedRoot::empty();
            let mut j: usize = 0;
            while j < NAMED_ROOT_NAME_LEN
                invariant
                    i < NAMED_ROOT_COUNT,
                    j <= NAMED_ROOT_NAME_LEN,
                    base == 72 + 32 * i,
                    forall|k: int| 0 <= k < j ==> #[trigger] root.name@[k] == buf@[base + k],
                decreases NAMED_ROOT_NAME_LEN - j,
            {
                root.name[j] = buf[base + j];
                j += 1;
            }
            root.handle = read_u64(buf, base + 24);
            named_roots[i] = root;
            i += 1;
        }
        Ok(
            Superblock {
                magic,
                format_version: read_u32(buf, 4),
                txn_counter: read_u64(buf, 8),
                root_handle_table_page: read_u64(buf, 16),
                root_freemap_page: read_u64(buf, 24),
                freemap_depth: read_u32(buf, 64),
                root_membership_index_page: read_u64(buf, 56),
                total_pages: read_u64(buf, 32),
                next_handle: read_u64(buf, 40),
                page_size: read_u32(buf, 48),
                superblock_count,
                named_roots,
            },
        )
    }

    /// The valid slot with the highest counter, the first of them if several
    /// have it.
    pub fn select(slots: &Vec<[u8; PAGE_SIZE]>) -> (selected: Option<Superblock>)
        ensures
            match selected {
                Some(sb) => exists|i: int|
                    0 <= i < slots@.len() && #[trigger] current_slot(slots@, i) && encodes(slots@[i]@, sb),
                None => forall|i: int| 0 <= i < slots@.len() ==> slot_defect((#[trigger] slots@[i])@) is Some,
            },
    {
        let mut best: Option<Superblock> = None;
        let ghost mut at: int = 0;
        let mut i: usize = 0;
        while i < slots.len()
            invariant
                i <= slots@.len(),
                match best {
                    Some(sb) => {
                        &&& 0 <= at < i
                        &&& slot_defect(slots@[at]@) is None
                        &&& encodes(slots@[at]@, sb)
                        &&& forall|j: int|
                            0 <= j < i && slot_defect((#[trigger] slots@[j])@) is None ==> counter_of(slots@[j]@)
                                <= counter_of(slots@[at]@) && (j < at ==> counter_of(slots@[j]@) < counter_of(
                                slots@[at]@,
                            ))
                    },
                    None => forall|j: int| 0 <= j < i ==> slot_defect((#[trigger] slots@[j])@) is Some,
                },
            decreases slots@.len() - i,
        {
            if let Ok(sb) = Superblock::deserialize(&slots[i]) {
                let better: bool = match best {
                    Some(b) => sb.txn_counter > b.txn_counter,
                    None => true,
                };
                if better {
                    proof {
                        at = i as int;
                    }
                    best = Some(sb);
                }
            }
            i += 1;
        }
        assert(best is Some ==> current_slot(slots@, at));
        best
    }
}

/// Slot `i` holds the current superblock: the valid one with the highest counter,
/// the first of them if several have it.
pub open spec fn current_slot(slots: Seq<[u8; PAGE_SIZE]>, i: int) -> bool {
    &&& slot_defect(slots[i]@) is None
    &&& forall|j: int|
        0 <= j < slots.len() && slot_defect((#[trigger] slots[j])@) is None ==> counter_of(slots[j]@) <= counter_of(
            slots[i]@,
        ) && (j < i ==> counter_of(slots[j]@) < counter_of(slots[i]@))
}

} // verus!
