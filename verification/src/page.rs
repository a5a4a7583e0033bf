//! On-disk page format: page size, type tags, header sizes, magic and format
//! versions, and the checksum primitives that every other page module uses.
//!
//! Every page is exactly [`PAGE_SIZE`] bytes long and ends with an 8-byte
//! little-endian XXH3 checksum over bytes `0..CHECKSUM_OFFSET`.
//!
//! Versioning has two tiers. The file carries a packed MAJOR/MINOR format
//! version; each page additionally carries a one-byte version of its own, so
//! that a page layout can evolve without a file-wide bump.

use vstd::prelude::*;

use crate::bytes::{read_u64, write_u64};

verus! {

/// Size of every page, in bytes.
pub const PAGE_SIZE: usize = 8192;

/// Size of the trailing checksum, in bytes.
pub const CHECKSUM_SIZE: usize = 8;

/// Offset of the trailing checksum; everything before it is hashed.
pub const CHECKSUM_OFFSET: usize = 8184;

/// Size of the header prefix shared by all page types.
pub const COMMON_HEADER_SIZE: usize = 16;

/// Size of a data page's header; its slot directory starts here.
pub const DATA_PAGE_HEADER_SIZE: usize = 16;

/// Bytes between the header and the checksum.
pub const PAGE_BODY_SIZE: usize = 8168;

/// Per-page format version stamped by every page type today.
pub const PAGE_FORMAT_VERSION_CURRENT: u8 = 0;

/// Start of the header region reserved for future common fields.
pub const COMMON_RESERVED_OFFSET: usize = 8;

/// Length of the reserved header region.
pub const COMMON_RESERVED_LEN: usize = 8;

/// "CHSL" in ASCII.
pub const MAGIC: u32 = 0x4348534C;

/// MAJOR half of the file format version.
pub const FORMAT_MAJOR_VERSION: u16 = 1;

/// MINOR half of the file format version.
pub const FORMAT_MINOR_VERSION: u16 = 1;

/// MAJOR version of an encrypted database.
pub const FORMAT_MAJOR_VERSION_ENCRYPTED: u16 = 2;

/// The packed file format version: MAJOR in the high half, MINOR in the low.
pub const FORMAT_VERSION: u32 = 0x0001_0001;

/// "Not yet allocated" marker for root page pointers (0 is a legitimate id).
pub const PAGE_ID_NONE: u64 = 0xFFFF_FFFF_FFFF_FFFF;

/// Page type, stored as a tag in byte 0 of the page. Tag 0 is reserved, so a
/// zeroed page is never mistaken for a typed one.
#[derive(Debug, Clone, Copy, PartialEq, Eq, Structural)]
pub enum PageType {
    HandleTable,
    Data,
    Overflow,
    FreeMap,
    MembershipInterior,
    MembershipLeaf,
    FreeMapInterior,
}

impl PageType {
    /// The tag byte of this page type.
    pub open spec fn spec_code(self) -> u8 {
        match self {
            PageType::HandleTable => 0x01u8,
            PageType::Data => 0x02u8,
            PageType::Overflow => 0x03u8,
            PageType::FreeMap => 0x04u8,
            PageType::MembershipInterior => 0x05u8,
            PageType::MembershipLeaf => 0x06u8,
            PageType::FreeMapInterior => 0x07u8,
        }
    }

    /// The tag byte of this page type. Tags are stable: changing one is a
    /// format break.
    #[verifier::when_used_as_spec(spec_code)]
    pub fn code(self) -> (tag: u8)
        ensures
            tag == self.spec_code(),
    {
        match self {
            PageType::HandleTable => 0x01,
            PageType::Data => 0x02,
            PageType::Overflow => 0x03,
            PageType::FreeMap => 0x04,
            PageType::MembershipInterior => 0x05,
            PageType::MembershipLeaf => 0x06,
            PageType::FreeMapInterior => 0x07,
        }
    }
}

/// The packed version of an encrypted database: MAJOR 2, current MINOR.
pub fn format_version_encrypted() -> (version: u32)
    ensures
        version == 0x0002_0001,
{
    pack_format_version(FORMAT_MAJOR_VERSION_ENCRYPTED, FORMAT_MINOR_VERSION)
}

/// Pack a (major, minor) pair into the on-disk format version.
pub fn pack_format_version(major: u16, minor: u16) -> (version: u32)
    ensures
        version == major * 0x1_0000 + minor,
{
    (major as u32) * 0x1_0000 + minor as u32
}

/// The major half of a packed format version.
pub fn format_major(version: u32) -> (major: u16)
    ensures
        major == version / 0x1_0000,
{
    (version / 0x1_0000) as u16
}

/// The minor half of a packed format version.
pub fn format_minor(version: u32) -> (minor: u16)
    ensures
        minor == version % 0x1_0000,
{
    (version % 0x1_0000) as u16
}

/// The version that a freshly initialized page of type `page_type` stamps.
pub fn current_version(page_type: PageType) -> (version: u8)
    ensures
        version == PAGE_FORMAT_VERSION_CURRENT,
{
    match page_type {
        PageType::HandleTable
        | PageType::Data
        | PageType::Overflow
        | PageType::FreeMap
        | PageType::MembershipInterior
        | PageType::MembershipLeaf
        | PageType::FreeMapInterior => PAGE_FORMAT_VERSION_CURRENT,
    }
}

/// The per-page version stamped in `buf`: byte 2 of a handle-table page
/// (whose byte 1 holds the leaf/interior flag), byte 1 of any other page.
pub fn page_format_version(buf: &[u8; PAGE_SIZE]) -> (version: u8)
    ensures
        version == (if buf@[0] == PageType::HandleTable.code() { buf@[2] } else { buf@[1] }),
{
    if buf[0] == PageType::HandleTable.code() {
        buf[2]
    } else {
        buf[1]
    }
}

/// The 64-bit XXH3 hash of a byte string.
pub uninterp spec fn xxh3_hash(input: Seq<u8>) -> u64;

/// `xxhash_rust::xxh3::xxh3_64` hashes its input with the default secret and
/// no seed: the result is a function of the input bytes alone, named
/// [`xxh3_hash`]. Nothing else is claimed of it.
pub assume_specification[ xxhash_rust::xxh3::xxh3_64 ](input: &[u8]) -> (hash: u64)
    ensures
        hash == xxh3_hash(input@),
;

/// The checksum that belongs to the page contents `s`.
pub open spec fn page_checksum(s: Seq<u8>) -> u64 {
    xxh3_hash(s.subrange(0, CHECKSUM_OFFSET as int))
}

/// The last eight bytes of `s` hold the checksum of the rest.
pub open spec fn checksum_ok(s: Seq<u8>) -> bool {
    crate::bytes::le64(s, CHECKSUM_OFFSET as int) == page_checksum(s)
}

/// Compute the checksum of a page over bytes `0..CHECKSUM_OFFSET`. The
/// checksum region itself is left out, so stamping and verifying agree.
pub fn compute_checksum(buf: &[u8; PAGE_SIZE]) -> (checksum: u64)
    ensures
        checksum == page_checksum(buf@),
        checksum == xxh3_hash(buf@.subrange(0, 8184)),
{
    xxhash_rust::xxh3::xxh3_64(vstd::slice::slice_subrange(buf.as_slice(), 0, CHECKSUM_OFFSET))
}

/// Write the checksum into the last eight bytes of the page. To be called
/// after every mutation, before the page is written out.
pub fn stamp_checksum(buf: &mut [u8; PAGE_SIZE])
    ensures
        crate::bytes::same_outside(old(buf)@, final(buf)@, CHECKSUM_OFFSET as int, PAGE_SIZE as int),
        crate::bytes::le64(final(buf)@, CHECKSUM_OFFSET as int) == page_checksum(old(buf)@),
        checksum_ok(final(buf)@),
        crate::bytes::le64(final(buf)@, 8184) == xxh3_hash(final(buf)@.subrange(0, 8184)),
{
    let checksum: u64 = compute_checksum(buf);
    write_u64(buf, CHECKSUM_OFFSET, checksum);
    assert(buf@.subrange(0, CHECKSUM_OFFSET as int) =~= old(buf)@.subrange(0, CHECKSUM_OFFSET as int));
}

/// Whether the stored checksum matches the computed one.
pub fn verify_checksum(buf: &[u8; PAGE_SIZE]) -> (ok: bool)
    ensures
        ok == checksum_ok(buf@),
        ok == (crate::bytes::le64(buf@, 8184) == xxh3_hash(buf@.subrange(0, 8184))),
{
    let stored: u64 = read_u64(buf, CHECKSUM_OFFSET);
    let computed: u64 = compute_checksum(buf);
    stored == computed
}

/// The header constants agree with each other: the common header ends where
/// the reserved region ends and where a data page's slot directory starts, the
/// body fills the page between header and checksum, and the version byte lies
/// below the reserved region.
pub proof fn law_layout_constants_agree()
    ensures
        COMMON_HEADER_SIZE == COMMON_RESERVED_OFFSET + COMMON_RESERVED_LEN,
        COMMON_HEADER_SIZE == DATA_PAGE_HEADER_SIZE,
        2 < COMMON_RESERVED_OFFSET,
        CHECKSUM_OFFSET + CHECKSUM_SIZE == PAGE_SIZE,
        DATA_PAGE_HEADER_SIZE + PAGE_BODY_SIZE + CHECKSUM_SIZE == PAGE_SIZE,
{
}

/// Packing a format version and taking it apart gives back both halves, and
/// [`FORMAT_VERSION`] is the packed pair of the two version constants.
pub proof fn law_format_version_round_trip(major: u16, minor: u16)
    ensures
        (major * 0x1_0000 + minor) / 0x1_0000 == major,
        (major * 0x1_0000 + minor) % 0x1_0000 == minor,
        0 <= major * 0x1_0000 + minor <= u32::MAX,
        FORMAT_VERSION == FORMAT_MAJOR_VERSION * 0x1_0000 + FORMAT_MINOR_VERSION,
{
}

/// The checksum does not depend on the bytes of the checksum region: two pages
/// that agree before it have the same checksum.
pub proof fn law_checksum_ignores_trailing_bytes(a: Seq<u8>, b: Seq<u8>)
    requires
        crate::bytes::same_outside(a, b, CHECKSUM_OFFSET as int, PAGE_SIZE as int),
        a.len() == PAGE_SIZE,
    ensures
        page_checksum(a) == page_checksum(b),
{
    assert(a.subrange(0, CHECKSUM_OFFSET as int) =~= b.subrange(0, CHECKSUM_OFFSET as int));
}

/// A page is intact exactly if its last eight bytes are the XXH3 hash of all others.
pub proof fn law_checksum_is_the_hash_of_the_page(s: Seq<u8>)
    ensures
        checksum_ok(s) <==> crate::bytes::le64(s, 8184) == xxh3_hash(s.subrange(0, 8184)),
{
}

/// No byte of a page can change unseen: two intact pages that differ anywhere before
/// the checksum and have the same checksum are a collision of XXH3.
pub proof fn law_checksum_covers_every_byte(a: Seq<u8>, b: Seq<u8>, i: int)
    requires
        a.len() == 8192,
        b.len() == 8192,
        0 <= i < 8184,
        a[i] != b[i],
        forall|j: int| 8184 <= j < 8192 ==> a[j] == b[j],
        checksum_ok(a),
        checksum_ok(b),
    ensures
        a.subrange(0, 8184) != b.subrange(0, 8184),
        xxh3_hash(a.subrange(0, 8184)) == xxh3_hash(b.subrange(0, 8184)),
{
    assert(a.subrange(0, 8184)[i] != b.subrange(0, 8184)[i]);
    assert(crate::bytes::le64(a, 8184) == crate::bytes::le64(b, 8184));
}

/// Page type tags are pairwise distinct and never zero.
pub proof fn law_page_type_tags_distinct(a: PageType, b: PageType)
    ensures
        a.code() == b.code() ==> a == b,
        a.code() != 0,
{
}

/// A page of zero bytes.
pub fn zeroed() -> (buf: [u8; PAGE_SIZE])
    ensures
        forall|j: int| 0 <= j < PAGE_SIZE ==> buf@[j] == 0,
        buf@.len() == PAGE_SIZE,
{
    vstd::array::array_fill_for_copy_types::<u8, PAGE_SIZE>(0)
}

} // verus!
