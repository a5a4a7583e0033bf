//! Opening a database: whether a file may be opened, and finding the superblock of
//! one that exists already.

use vstd::prelude::*;

use crate::bytes::le32;
use crate::error::ChiselError;
use crate::options::Options;
use crate::page::{format_major, FORMAT_MAJOR_VERSION, FORMAT_VERSION, PAGE_SIZE};
use crate::page_io::PageIo;
use crate::superblock::{
    count_ok, counter_of, current_slot, encodes, slot_defect, SlotDefect, Superblock, SuperblockDefect, MAX_SUPERBLOCKS,
    MIN_SUPERBLOCKS,
};

verus! {

/// Why slot `i` holds no superblock. One whose count leaves it out is none.
pub open spec fn defect_at(disk: Seq<Seq<u8>>, i: int) -> Option<SuperblockDefect> {
    if i < disk.len() {
        if slot_defect(disk[i]) is None && le32(disk[i], 52) <= i {
            Some(SuperblockDefect::BadCount(le32(disk[i], 52) as u32))
        } else {
            slot_defect(disk[i])
        }
    } else {
        Some(SuperblockDefect::TooShort)
    }
}

/// The first slot from `i` on that holds a superblock.
pub open spec fn first_valid(disk: Seq<Seq<u8>>, i: int) -> Option<int>
    decreases MAX_SUPERBLOCKS - i,
{
    if i < 0 || i >= MAX_SUPERBLOCKS {
        None
    } else if defect_at(disk, i) is None {
        Some(i)
    } else {
        first_valid(disk, i + 1)
    }
}

/// How many superblock slots there are to choose from: as many as the first
/// superblock says, if the storage is long enough.
pub open spec fn slot_span(disk: Seq<Seq<u8>>) -> int {
    match first_valid(disk, 0) {
        Some(i) => if le32(disk[i], 52) <= disk.len() {
            le32(disk[i], 52)
        } else {
            disk.len() as int
        },
        None => 0,
    }
}

/// The superblock with the highest counter, the first of them if several have
/// it.
pub open spec fn is_current(disk: Seq<Seq<u8>>, i: int) -> bool {
    &&& 0 <= i < slot_span(disk)
    &&& slot_defect(disk[i]) is None
    &&& forall|j: int|
        0 <= j < slot_span(disk) && slot_defect(#[trigger] disk[j]) is None ==> counter_of(disk[j]) <= counter_of(
            disk[i],
        ) && (j < i ==> counter_of(disk[j]) < counter_of(disk[i]))
}

/// The storage holds a superblock, and this is the current one.
pub open spec fn current_superblock(disk: Seq<Seq<u8>>, sb: Superblock) -> bool {
    exists|i: int| #[trigger] is_current(disk, i) && encodes(disk[i], sb)
}

/// A size in bytes; saturates.
pub open spec fn byte_size(pages: nat) -> u64 {
    if pages * PAGE_SIZE <= u64::MAX {
        (pages * PAGE_SIZE) as u64
    } else {
        u64::MAX
    }
}

/// What speaks against opening a storage with this superblock.
pub open spec fn rejected(disk: Seq<Seq<u8>>, sb: Superblock) -> Option<ChiselError> {
    if sb.format_version / 0x1_0000 != FORMAT_MAJOR_VERSION {
        Some(ChiselError::UnsupportedFormatVersion { found: sb.format_version, expected: FORMAT_VERSION })
    } else if sb.page_size != PAGE_SIZE {
        Some(ChiselError::UnsupportedPageSize { stored: sb.page_size, compiled: PAGE_SIZE as u32 })
    } else if sb.total_pages > disk.len() {
        Some(
            ChiselError::FileSizeMismatch {
                expected: byte_size(sb.total_pages as nat),
                actual: byte_size(disk.len()),
            },
        )
    } else {
        None
    }
}

/// The slots that hold no superblock, each with its defect.
pub open spec fn all_defective(disk: Seq<Seq<u8>>, defects: Seq<SlotDefect>) -> bool {
    &&& defects.len() == MAX_SUPERBLOCKS
    &&& forall|i: int|
        0 <= i < defects.len() ==> (#[trigger] defects[i]).slot == i && defect_at(disk, i) == Some(defects[i].defect)
}

/// A number of pages in bytes; saturates.
pub fn pages_to_bytes(pages: u64) -> (bytes: u64)
    ensures
        bytes == byte_size(pages as nat),
{
    match pages.checked_mul(PAGE_SIZE as u64) {
        Some(bytes) => bytes,
        None => u64::MAX,
    }
}

/// The first slots of the storage.
fn read_slots(io: &PageIo, n: usize) -> (slots: Vec<[u8; PAGE_SIZE]>)
    requires
        n <= io.pages().len(),
    ensures
        slots@.len() == n,
        forall|i: int| 0 <= i < n ==> (#[trigger] slots@[i])@ == io.pages()[i],
{
    let mut slots: Vec<[u8; PAGE_SIZE]> = Vec::new();
    let mut i: usize = 0;
    while i < n
        invariant
            i <= n,
            n <= io.pages().len(),
            slots@.len() == i,
            forall|k: int| 0 <= k < i ==> (#[trigger] slots@[k])@ == io.pages()[k],
        decreases n - i,
    {
        if let Ok(page) = io.read_page(i as u64) {
            slots.push(page);
        }
        i += 1;
    }
    slots
}

/// Whether there is a file is decided by its length in bytes.
pub open spec fn file_there(length: Option<u64>) -> bool {
    length matches Some(n) && n > 0
}

/// Why options are refused whatever is opened with them.
pub open spec fn refused_options(options: Options) -> Option<ChiselError> {
    if !count_ok(options.superblock_count as int) {
        Some(ChiselError::InvalidSuperblockCount { value: options.superblock_count })
    } else {
        match options.argon2_params {
            Some(p) => if p.usable() {
                None
            } else {
                Some(ChiselError::InvalidArgon2Params { m_cost: p.m_cost, t_cost: p.t_cost, p_cost: p.p_cost })
            },
            None => None,
        }
    }
}

/// Refuse a number of superblocks out of range and cost parameters that cannot be
/// used. Without cost parameters the defaults hold.
pub fn check_options(options: &Options) -> (outcome: Result<(), ChiselError>)
    ensures
        match outcome {
            Ok(_) => refused_options(*options) is None,
            Err(e) => refused_options(*options) == Some(e),
        },
{
    if options.superblock_count < MIN_SUPERBLOCKS || options.superblock_count > MAX_SUPERBLOCKS {
        return Err(ChiselError::InvalidSuperblockCount { value: options.superblock_count });
    }
    match &options.argon2_params {
        Some(p) => if p.is_usable() {
            Ok(())
        } else {
            Err(ChiselError::InvalidArgon2Params { m_cost: p.m_cost, t_cost: p.t_cost, p_cost: p.p_cost })
        },
        None => Ok(()),
    }
}

/// Why a file must not even be opened, given its length in bytes, if there is one.
pub open spec fn unopenable(length: Option<u64>, options: Options) -> Option<ChiselError> {
    if refused_options(options) is Some {
        refused_options(options)
    } else if !file_there(length) && !options.create_if_missing {
        Some(ChiselError::FileNotFound)
    } else {
        None
    }
}

/// Decide whether a file may be opened, given its length in bytes, if there is
/// one.
pub fn check_before_open(length: Option<u64>, options: &Options) -> (outcome: Result<(), ChiselError>)
    ensures
        match outcome {
            Ok(_) => unopenable(length, *options) is None,
            Err(e) => unopenable(length, *options) == Some(e),
        },
{
    match check_options(options) {
        Ok(_) => {},
        Err(e) => {
            return Err(e);
        },
    }
    let there: bool = match length {
        Some(n) => n > 0,
        None => false,
    };
    if !there && !options.create_if_missing {
        return Err(ChiselError::FileNotFound);
    }
    Ok(())
}

/// Decide what an opened file is, given its length in bytes: how many pages of a
/// database it holds, 0 if there is none yet. A file that is not empty but shorter
/// than a page holds none, and must not be written over.
pub fn check_length(length: u64, options: &Options) -> (outcome: Result<u64, ChiselError>)
    ensures
        match outcome {
            Ok(pages) => pages == length / (PAGE_SIZE as u64) && (length >= PAGE_SIZE || length == 0
                && options.create_if_missing),
            Err(e) => if length > 0 {
                &&& length < PAGE_SIZE
                &&& e matches ChiselError::CorruptSuperblock { defects } && defects@ == seq![
                    SlotDefect { slot: 0, defect: SuperblockDefect::TooShort },
                ]
            } else {
                !options.create_if_missing && e is FileNotFound
            },
        },
{
    let pages: u64 = length / (PAGE_SIZE as u64);
    assert(pages == 0 <==> length < PAGE_SIZE) by (nonlinear_arith)
        requires
            pages == length / (PAGE_SIZE as u64),
            PAGE_SIZE == 8192,
    ;
    if pages == 0 {
        if length > 0 {
            let mut defects: Vec<SlotDefect> = Vec::new();
            defects.push(SlotDefect { slot: 0, defect: SuperblockDefect::TooShort });
            assert(defects@ =~= seq![SlotDefect { slot: 0, defect: SuperblockDefect::TooShort }]);
            return Err(ChiselError::CorruptSuperblock { defects });
        }
        if !options.create_if_missing {
            return Err(ChiselError::FileNotFound);
        }
    }
    Ok(pages)
}

/// Find the current superblock of a storage, and check that it can be opened.
pub fn discover(io: &PageIo) -> (outcome: Result<Superblock, ChiselError>)
    ensures
        match outcome {
            Ok(sb) => current_superblock(io.pages(), sb) && rejected(io.pages(), sb) is None,
            Err(e) => {
                ||| first_valid(io.pages(), 0) is None && (e matches ChiselError::CorruptSuperblock { defects }
                    && all_defective(io.pages(), defects@))
                ||| exists|sb: Superblock| #[trigger]
                    current_superblock(io.pages(), sb) && rejected(io.pages(), sb) == Some(e)
            },
        },
{
    let ghost disk = io.pages();
    let count: u64 = match io.page_count() {
        Ok(count) => count,
        Err(e) => {
            return Err(e);
        },
    };
    let mut defects: Vec<SlotDefect> = Vec::new();
    let mut span: Option<u32> = None;
    let mut i: u32 = 0;
    while i < MAX_SUPERBLOCKS && span.is_none()
        invariant
            i <= MAX_SUPERBLOCKS,
            disk == io.pages(),
            count == disk.len(),
            match span {
                Some(n) => {
                    &&& first_valid(disk, 0) matches Some(at)
                    &&& n == le32(disk[first_valid(disk, 0)->0], 52)
                    &&& n >= 2
                    &&& 0 <= first_valid(disk, 0)->0 < disk.len()
                    &&& first_valid(disk, 0)->0 < n
                    &&& slot_defect(disk[first_valid(disk, 0)->0]) is None
                },
                None => {
                    &&& first_valid(disk, 0) == first_valid(disk, i as int)
                    &&& defects@.len() == i
                    &&& forall|k: int|
                        0 <= k < i ==> (#[trigger] defects@[k]).slot == k && defect_at(disk, k) == Some(
                            defects@[k].defect,
                        )
                },
            },
        decreases MAX_SUPERBLOCKS - i,
    {
        if (i as u64) < count {
            if let Ok(page) = io.read_page(i as u64) {
                match Superblock::deserialize(&page) {
                    Ok(sb) => {
                        if sb.superblock_count > i {
                            span = Some(sb.superblock_count);
                        } else {
                            defects.push(
                                SlotDefect { slot: i, defect: SuperblockDefect::BadCount(sb.superblock_count) },
                            );
                        }
                    },
                    Err(defect) => {
                        defects.push(SlotDefect { slot: i, defect });
                    },
                }
            }
        } else {
            defects.push(SlotDefect { slot: i, defect: SuperblockDefect::TooShort });
        }
        i += 1;
    }
    let n: u32 = match span {
        Some(n) => n,
        None => {
            return Err(ChiselError::CorruptSuperblock { defects });
        },
    };
    let m: usize = if (n as u64) <= count {
        n as usize
    } else {
        count as usize
    };
    let slots = read_slots(io, m);
    let ghost at = first_valid(disk, 0)->0;
    assert(slot_span(disk) == m);
    let sb: Superblock = match Superblock::select(&slots) {
        Some(sb) => sb,
        None => {
            assert(slots@[at]@ == disk[at]);
            return Err(ChiselError::CorruptSuperblock { defects });
        },
    };
    proof {
        let k = choose|k: int| 0 <= k < slots@.len() && #[trigger] current_slot(slots@, k) && encodes(slots@[k]@, sb);
        assert(slots@[k]@ == disk[k]);
        assert forall|j: int| 0 <= j < m && slot_defect(#[trigger] disk[j]) is None implies counter_of(disk[j])
            <= counter_of(disk[k]) && (j < k ==> counter_of(disk[j]) < counter_of(disk[k])) by {
            assert(slots@[j]@ == disk[j]);
        }
        assert(is_current(disk, k));
        assert(current_superblock(disk, sb));
    }
    if format_major(sb.format_version) != FORMAT_MAJOR_VERSION {
        return Err(
            ChiselError::UnsupportedFormatVersion { found: sb.format_version, expected: FORMAT_VERSION },
        );
    }
    if sb.page_size != PAGE_SIZE as u32 {
        return Err(ChiselError::UnsupportedPageSize { stored: sb.page_size, compiled: PAGE_SIZE as u32 });
    }
    if sb.total_pages > count {
        return Err(
            ChiselError::FileSizeMismatch {
                expected: pages_to_bytes(sb.total_pages),
                actual: pages_to_bytes(count),
            },
        );
    }
    Ok(sb)
}

} // verus!
