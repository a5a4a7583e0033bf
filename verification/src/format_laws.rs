//! Laws of the byte formats: what integers, messages, data pages, bitmaps and
//! superblocks are, byte by byte.

use vstd::prelude::*;

use crate::bytes::{le16, le32, le64, same_outside};
use crate::data_page::{
    entries_ok, free_end_of, free_start_of, header_ok, live_bytes, live_slots, slot_count_of, slot_entry, slot_value,
    well_packed,
};
use crate::error::{defects_text, ChiselError};
use crate::freemap::{free_ids, marked_free};
use crate::page::{xxh3_hash, PageType, PAGE_SIZE};
use crate::superblock::{count_ok, current_slot, encodes, slot_defect, SlotDefect, Superblock, SuperblockDefect};
use crate::text::decimal;

verus! {

/// The bytes of a stored `u16` are its digits to the base 256, lowest first.
pub proof fn law_u16_bytes(s: Seq<u8>, at: int)
    ensures
        0 <= le16(s, at) <= 0xffff,
        s[at] == le16(s, at) % 256,
        s[at + 1] == le16(s, at) / 256,
{
}

/// The bytes of a stored `u32` are its digits to the base 256, lowest first.
pub proof fn law_u32_bytes(s: Seq<u8>, at: int)
    ensures
        0 <= le32(s, at) <= 0xffff_ffff,
        s[at] == le32(s, at) % 256,
        s[at + 1] == (le32(s, at) / 0x100) % 256,
        s[at + 2] == (le32(s, at) / 0x1_0000) % 256,
        s[at + 3] == le32(s, at) / 0x100_0000,
{
}

/// The bytes of a stored `u64` are its digits to the base 256, lowest first.
pub proof fn law_u64_bytes(s: Seq<u8>, at: int)
    ensures
        0 <= le64(s, at) <= 0xffff_ffff_ffff_ffff,
        s[at] == le64(s, at) % 256,
        s[at + 1] == (le64(s, at) / 0x100) % 256,
        s[at + 2] == (le64(s, at) / 0x1_0000) % 256,
        s[at + 3] == (le64(s, at) / 0x100_0000) % 256,
        s[at + 4] == (le64(s, at) / 0x1_0000_0000) % 256,
        s[at + 5] == (le64(s, at) / 0x100_0000_0000) % 256,
        s[at + 6] == (le64(s, at) / 0x1_0000_0000_0000) % 256,
        s[at + 7] == le64(s, at) / 0x100_0000_0000_0000,
{
    let lo = le32(s, at);
    let hi = le32(s, at + 4);
    law_u32_bytes(s, at);
    law_u32_bytes(s, at + 4);
    lemma_digits_of_halves(lo, hi);
}

/// The digits of a number to the base 256 are those of its two halves.
proof fn lemma_digits_of_halves(lo: int, hi: int)
    requires
        0 <= lo < 0x1_0000_0000,
        0 <= hi < 0x1_0000_0000,
    ensures
        0 <= lo + 0x1_0000_0000 * hi <= 0xffff_ffff_ffff_ffff,
        (lo + 0x1_0000_0000 * hi) % 256 == lo % 256,
        ((lo + 0x1_0000_0000 * hi) / 0x100) % 256 == (lo / 0x100) % 256,
        ((lo + 0x1_0000_0000 * hi) / 0x1_0000) % 256 == (lo / 0x1_0000) % 256,
        ((lo + 0x1_0000_0000 * hi) / 0x100_0000) % 256 == lo / 0x100_0000,
        ((lo + 0x1_0000_0000 * hi) / 0x1_0000_0000) % 256 == hi % 256,
        ((lo + 0x1_0000_0000 * hi) / 0x100_0000_0000) % 256 == (hi / 0x100) % 256,
        ((lo + 0x1_0000_0000 * hi) / 0x1_0000_0000_0000) % 256 == (hi / 0x1_0000) % 256,
        (lo + 0x1_0000_0000 * hi) / 0x100_0000_0000_0000 == hi / 0x100_0000,
{
    let v = lo + 0x1_0000_0000 * hi;
    assert(v / 0x100 == lo / 0x100 + 0x100_0000 * hi);
    assert(v / 0x1_0000 == lo / 0x1_0000 + 0x1_0000 * hi);
    assert(v / 0x100_0000 == lo / 0x100_0000 + 0x100 * hi);
    assert(v / 0x1_0000_0000 == hi);
    vstd::arithmetic::div_mod::lemma_div_denominator(v, 0x1_0000_0000, 0x100);
    vstd::arithmetic::div_mod::lemma_div_denominator(v, 0x1_0000_0000, 0x1_0000);
    vstd::arithmetic::div_mod::lemma_div_denominator(v, 0x1_0000_0000, 0x100_0000);
}

/// A store touches the bytes of its range and no other.
pub proof fn law_nothing_outside_changes(before: Seq<u8>, after: Seq<u8>, lo: int, hi: int, j: int)
    requires
        same_outside(before, after, lo, hi),
        0 <= j < before.len(),
        j < lo || hi <= j,
    ensures
        after.len() == before.len(),
        after[j] == before[j],
{
}

/// The number that a string of decimal digits stands for.
pub open spec fn read_decimal(text: Seq<char>) -> int
    decreases text.len(),
{
    if text.len() == 0 {
        0
    } else {
        10 * read_decimal(text.drop_last()) + (text.last() as int - '0' as int)
    }
}

/// A number in decimal is made of digits, reads back as the number, and has no
/// leading zero.
pub proof fn law_decimal_reads_back(n: nat)
    ensures
        read_decimal(decimal(n)) == n,
        decimal(n).len() > 0,
        forall|i: int| 0 <= i < decimal(n).len() ==> '0' <= #[trigger] decimal(n)[i] <= '9',
        decimal(n)[0] == '0' ==> decimal(n).len() == 1,
    decreases n,
{
    reveal_with_fuel(read_decimal, 2);
    if n < 10 {
        assert(decimal(n).drop_last() =~= Seq::<char>::empty());
    } else {
        law_decimal_reads_back(n / 10);
        assert(decimal(n).drop_last() =~= decimal(n / 10));
        if decimal(n)[0] == '0' {
            assert(decimal(n / 10)[0] == '0');
            let one = decimal(n / 10);
            assert(one.drop_last() =~= Seq::<char>::empty());
            assert(read_decimal(one) == 0);
        }
    }
}

/// Different numbers are written differently.
pub proof fn law_decimal_tells_numbers_apart(a: nat, b: nat)
    requires
        decimal(a) == decimal(b),
    ensures
        a == b,
{
    law_decimal_reads_back(a);
    law_decimal_reads_back(b);
}

/// The first byte of each kind of page.
pub proof fn law_page_type_tags()
    ensures
        PageType::HandleTable.code() == 1,
        PageType::Data.code() == 2,
        PageType::Overflow.code() == 3,
        PageType::FreeMap.code() == 4,
        PageType::MembershipInterior.code() == 5,
        PageType::MembershipLeaf.code() == 6,
        PageType::FreeMapInterior.code() == 7,
{
}

/// The sizes and limits of the format.
pub proof fn law_sizes_and_limits()
    ensures
        PAGE_SIZE == 8192,
        crate::page::CHECKSUM_OFFSET == 8184,
        crate::page::DATA_PAGE_HEADER_SIZE == 16,
        crate::page::PAGE_ID_NONE == 0xffff_ffff_ffff_ffff,
        crate::page::FORMAT_MAJOR_VERSION == 1,
        crate::page::FORMAT_MINOR_VERSION == 1,
        crate::page::FORMAT_MAJOR_VERSION_ENCRYPTED == 2,
        crate::page::PAGE_FORMAT_VERSION_CURRENT == 0,
        crate::data_page::SLOT_ENTRY_SIZE == 6,
        crate::data_page::SLOT_FLAG_LIVE == 1,
        crate::superblock::DEFAULT_SUPERBLOCK_COUNT == 2,
        crate::superblock::MIN_SUPERBLOCKS == 2,
        crate::superblock::MAX_SUPERBLOCKS == 16,
        crate::superblock::NAMED_ROOT_COUNT == 8,
        crate::superblock::NAMED_ROOT_NAME_LEN == 24,
        crate::handle_table::MAX_DEPTH == 6,
        crate::radix_u64::MAX_DEPTH == 6,
        crate::freemap_tree::MAX_DEPTH == 5,
        crate::handle_table::FLAG_LEAF == 1,
        crate::handle_table::FLAG_INTERIOR == 2,
        crate::crypto::DEK_LEN == 32,
        crate::crypto::NONCE_LEN == 24,
        crate::crypto::TAG_LEN == 16,
        crate::crypto::SALT_LEN == 16,
        crate::crypto::ENC_PAGE_SIZE == PAGE_SIZE + crate::crypto::NONCE_LEN + crate::crypto::TAG_LEN,
{
}

/// A data page begins with its tag, has its slot count, the end of its directory and
/// the start of its values in bytes 2 to 7, and these follow one another inside the
/// page: 16 bytes of header, six per slot, the hole, the values, the checksum.
pub proof fn law_data_page_header(s: Seq<u8>)
    ensures
        slot_count_of(s) == s[2] + 256 * s[3],
        free_start_of(s) == s[4] + 256 * s[5],
        free_end_of(s) == s[6] + 256 * s[7],
        header_ok(s) <==> {
            &&& s[0] == 2
            &&& 16 <= s[4] + 256 * s[5]
            &&& s[4] + 256 * s[5] <= s[6] + 256 * s[7]
            &&& s[6] + 256 * s[7] <= 8184
            &&& 16 + 6 * (s[2] + 256 * s[3]) <= s[4] + 256 * s[5]
        },
{
}

/// A slot can be read exactly if the page is a data page that has the slot, the slot
/// is live, and its bytes lie between the header and the checksum. What is read are
/// those bytes, all of them.
pub proof fn law_slot_is_its_bytes(s: Seq<u8>, slot: int)
    requires
        s.len() == 8192,
        slot >= 0,
    ensures
        slot_value(s, slot) is Some <==> {
            &&& header_ok(s)
            &&& slot < le16(s, 2)
            &&& le16(s, 16 + 6 * slot) >= 16
            &&& le16(s, 16 + 6 * slot) + le16(s, 18 + 6 * slot) <= 8184
            &&& le16(s, 20 + 6 * slot) == 1
        },
        slot_value(s, slot) matches Some(value) ==> {
            &&& value.len() == le16(s, 18 + 6 * slot)
            &&& forall|k: int| 0 <= k < value.len() ==> #[trigger] value[k] == s[le16(s, 16 + 6 * slot) + k]
        },
{
}

/// Each live slot counts with its bytes and the six bytes of its entry; a dead one
/// does not count.
pub proof fn law_occupied_bytes_add_up(s: Seq<u8>, n: int)
    requires
        s.len() == 8192,
        header_ok(s),
        entries_ok(s),
        0 <= n < slot_count_of(s),
    ensures
        live_bytes(s, 0) == 0,
        live_bytes(s, n + 1) - live_bytes(s, n) == (match slot_value(s, n) {
            Some(value) => 6 + value.len(),
            None => 0,
        }),
{
    assert(slot_entry(s, n) is Some);
}

/// The listing of a page holds each live slot once, in ascending order, with what a
/// read of the slot gives.
pub proof fn law_live_slots_are_what_reads_give(s: Seq<u8>, n: int)
    requires
        0 <= n <= 0x1_0000,
    ensures
        forall|i: int|
            0 <= i < live_slots(s, n).len() ==> {
                let (slot, value) = #[trigger] live_slots(s, n)[i];
                slot < n && slot_value(s, slot as int) == Some(value)
            },
        forall|i: int, j: int|
            0 <= i < j < live_slots(s, n).len() ==> (#[trigger] live_slots(s, n)[i]).0 < (#[trigger] live_slots(s, n)[j]).0,
        forall|slot: u16|
            slot < n && (#[trigger] slot_value(s, slot as int)) is Some ==> exists|i: int|
                0 <= i < live_slots(s, n).len() && (#[trigger] live_slots(s, n)[i]).0 == slot,
    decreases n,
{
    if n > 0 {
        law_live_slots_are_what_reads_give(s, n - 1);
        let rest = live_slots(s, n - 1);
        let all = live_slots(s, n);
        assert forall|slot: u16| slot < n && (#[trigger] slot_value(s, slot as int)) is Some implies exists|i: int|
            0 <= i < all.len() && (#[trigger] all[i]).0 == slot by {
            if slot == n - 1 {
                assert(all[rest.len() as int].0 == slot);
            } else {
                let i = choose|i: int| 0 <= i < rest.len() && (#[trigger] rest[i]).0 == slot;
                assert(all[i] == rest[i]);
            }
        }
    }
}

/// On a packed page the directory ends where the hole begins, and no value reaches
/// into the hole.
pub proof fn law_packed_pages_keep_the_hole(s: Seq<u8>, slot: int, k: int)
    requires
        well_packed(s),
        0 <= slot < slot_count_of(s),
        0 <= k < le16(s, 18 + 6 * slot),
    ensures
        s.len() == 8192,
        free_start_of(s) == 16 + 6 * slot_count_of(s),
        free_end_of(s) <= le16(s, 16 + 6 * slot) + k < 8184,
{
    assert(slot_entry(s, slot) is Some);
}

/// A bit is a digit to the base 2.
proof fn lemma_bit_is_digit(b: u8)
    by (bit_vector)
    ensures
        (((b >> 0u8) & 1u8) == 1u8) == (b % 2 == 1),
        (((b >> 1u8) & 1u8) == 1u8) == ((b / 2) % 2 == 1),
        (((b >> 2u8) & 1u8) == 1u8) == ((b / 4) % 2 == 1),
        (((b >> 3u8) & 1u8) == 1u8) == ((b / 8) % 2 == 1),
        (((b >> 4u8) & 1u8) == 1u8) == ((b / 16) % 2 == 1),
        (((b >> 5u8) & 1u8) == 1u8) == ((b / 32) % 2 == 1),
        (((b >> 6u8) & 1u8) == 1u8) == ((b / 64) % 2 == 1),
        (((b >> 7u8) & 1u8) == 1u8) == ((b / 128) % 2 == 1),
{
}

/// A bitmap page has a bit for each of 65344 pages, eight to a byte from byte 16 on,
/// the lowest bit first. It marks no other page.
pub proof fn law_bitmap_has_a_bit_per_page(s: Seq<u8>, byte: int)
    requires
        0 <= byte < 8168,
    ensures
        free_ids(s).contains((8 * byte) as u64) <==> s[16 + byte] % 2 == 1,
        free_ids(s).contains((8 * byte + 1) as u64) <==> (s[16 + byte] / 2) % 2 == 1,
        free_ids(s).contains((8 * byte + 2) as u64) <==> (s[16 + byte] / 4) % 2 == 1,
        free_ids(s).contains((8 * byte + 3) as u64) <==> (s[16 + byte] / 8) % 2 == 1,
        free_ids(s).contains((8 * byte + 4) as u64) <==> (s[16 + byte] / 16) % 2 == 1,
        free_ids(s).contains((8 * byte + 5) as u64) <==> (s[16 + byte] / 32) % 2 == 1,
        free_ids(s).contains((8 * byte + 6) as u64) <==> (s[16 + byte] / 64) % 2 == 1,
        free_ids(s).contains((8 * byte + 7) as u64) <==> (s[16 + byte] / 128) % 2 == 1,
        forall|id: u64| free_ids(s).contains(id) ==> id < 65344,
{
    lemma_bit_is_digit(s[16 + byte]);
    assert forall|id: u64| #[trigger] free_ids(s).contains(id) == marked_free(s, id) by {}
}

/// Where a superblock keeps its fields.
pub proof fn law_superblock_layout(s: Seq<u8>, sb: Superblock)
    requires
        encodes(s, sb),
    ensures
        sb.magic == le32(s, 0),
        sb.format_version == le32(s, 4),
        sb.txn_counter == le64(s, 8),
        sb.root_handle_table_page == le64(s, 16),
        sb.root_freemap_page == le64(s, 24),
        sb.total_pages == le64(s, 32),
        sb.next_handle == le64(s, 40),
        sb.page_size == le32(s, 48),
        sb.superblock_count == le32(s, 52),
        sb.root_membership_index_page == le64(s, 56),
        sb.freemap_depth == le32(s, 64),
        forall|i: int|
            0 <= i < 8 ==> {
                &&& (#[trigger] sb.named_roots@[i]).handle == le64(s, 96 + 32 * i)
                &&& forall|j: int| 0 <= j < 24 ==> #[trigger] sb.named_roots@[i].name@[j] == s[72 + 32 * i + j]
            },
{
    assert forall|i: int| 0 <= i < 8 implies {
        &&& (#[trigger] sb.named_roots@[i]).handle == le64(s, 96 + 32 * i)
        &&& forall|j: int| 0 <= j < 24 ==> #[trigger] sb.named_roots@[i].name@[j] == s[72 + 32 * i + j]
    } by {
        assert(crate::superblock::name_stored(s, i, sb.named_roots@[i]));
    }
}

/// A page is a superblock exactly if its checksum is right, it begins with the bytes
/// `LSHC` and it counts 2 to 16 slots; the first of these that fails is the
/// defect that is reported.
pub proof fn law_superblock_defects(s: Seq<u8>)
    ensures
        slot_defect(s) is None <==> {
            &&& le64(s, 8184) == xxh3_hash(s.subrange(0, 8184))
            &&& s[0] == 0x4c && s[1] == 0x53 && s[2] == 0x48 && s[3] == 0x43
            &&& 2 <= le32(s, 52) <= 16
        },
        slot_defect(s) == Some(SuperblockDefect::BadChecksum) <==> le64(s, 8184) != xxh3_hash(s.subrange(0, 8184)),
        slot_defect(s) == Some(SuperblockDefect::BadMagic) <==> le64(s, 8184) == xxh3_hash(s.subrange(0, 8184))
            && !(s[0] == 0x4c && s[1] == 0x53 && s[2] == 0x48 && s[3] == 0x43),
        slot_defect(s) matches Some(SuperblockDefect::BadCount(n)) ==> n == le32(s, 52) && !(2 <= n <= 16),
        slot_defect(s) != Some(SuperblockDefect::TooShort),
{
    law_u32_bytes(s, 0);
    law_u32_bytes(s, 52);
}

/// The current superblock is the one with the most commits: no valid slot counts more
/// than it, and of those that count as many it is the first. So there is at most one.
pub proof fn law_current_slot_is_newest(slots: Seq<[u8; PAGE_SIZE]>, i: int, j: int)
    requires
        0 <= i < slots.len(),
        0 <= j < slots.len(),
        current_slot(slots, i),
        slot_defect(slots[j]@) is None,
    ensures
        slot_defect(slots[i]@) is None,
        le64(slots[j]@, 8) <= le64(slots[i]@, 8),
        le64(slots[j]@, 8) == le64(slots[i]@, 8) ==> i <= j,
        current_slot(slots, j) ==> i == j,
{
}

/// If any slot is valid, one of them is current.
pub proof fn law_some_slot_is_current(slots: Seq<[u8; PAGE_SIZE]>, j: int)
    requires
        0 <= j < slots.len(),
        slot_defect(slots[j]@) is None,
    ensures
        exists|i: int| 0 <= i < slots.len() && current_slot(slots, i),
{
    lemma_some_slot_is_best(slots, slots.len() as int, j);
}

/// Of the first `n` slots one is current, if any of them is valid.
proof fn lemma_some_slot_is_best(slots: Seq<[u8; PAGE_SIZE]>, n: int, j: int)
    requires
        0 <= j < n <= slots.len(),
        slot_defect(slots[j]@) is None,
    ensures
        exists|i: int| 0 <= i < n && #[trigger] current_slot(slots.take(n), i) && (n == slots.len() ==> current_slot(slots, i)),
    decreases n,
{
    let part = slots.take(n);
    if n == slots.len() {
        assert(part =~= slots);
    }
    let k = n - 1;
    let less = slots.take(k);
    if exists|m: int| 0 <= m < k && slot_defect((#[trigger] slots[m])@) is None {
        let m = choose|m: int| 0 <= m < k && slot_defect((#[trigger] slots[m])@) is None;
        lemma_some_slot_is_best(slots, k, m);
        let i = choose|i: int| 0 <= i < k && #[trigger] current_slot(slots.take(k), i);
        assert forall|q: int| 0 <= q < k implies #[trigger] part[q] == less[q] by {}
        if slot_defect(slots[k]@) is None && le64(slots[k]@, 8) > le64(slots[i]@, 8) {
            assert(current_slot(part, k));
        } else {
            assert(current_slot(part, i));
        }
    } else {
        assert(j == k);
        assert(current_slot(part, j));
    }
}

/// A database has two to sixteen superblock slots.
pub proof fn law_slot_counts(n: int)
    ensures
        count_ok(n) <==> 2 <= n <= 16,
{
}

/// The errors after which a database can go on are those that a caller's request
/// brought about; any error that speaks of the storage itself is for good.
pub proof fn law_fatal_errors(e: ChiselError)
    ensures
        e.is_fatal() <==> {
            ||| e is IoError
            ||| e is ChecksumMismatch
            ||| e is CorruptSuperblock
            ||| e is FileSizeMismatch
            ||| e is LockFailed
            ||| e is UnsupportedFormatVersion
            ||| e is CorruptPage
            ||| e is InvalidPageId
            ||| e is UnsupportedPageSize
            ||| e is DecryptionFailed
        },
{
}

/// A storage error that reports a missing file is that; any other is passed on.
pub proof fn law_storage_errors(e: std::io::Error)
    ensures
        crate::error::is_not_found_error(e) ==> crate::error::io_failure(e) is FileNotFound,
        !crate::error::is_not_found_error(e) ==> crate::error::io_failure(e) == ChiselError::IoError(e),
{
}

/// A storage error is converted as it is passed on, and every error of the keys means that the
/// key is wrong.
pub proof fn law_converted_errors(e: std::io::Error, k: crate::crypto::CryptoError)
    ensures
        crate::error::is_not_found_error(e) ==> <ChiselError as vstd::std_specs::convert::FromSpec<
            std::io::Error,
        >>::from_spec(e) is FileNotFound,
        !crate::error::is_not_found_error(e) ==> <ChiselError as vstd::std_specs::convert::FromSpec<
            std::io::Error,
        >>::from_spec(e) == ChiselError::IoError(e),
        <ChiselError as vstd::std_specs::convert::FromSpec<crate::crypto::CryptoError>>::from_spec(
            k,
        ) is InvalidEncryptionKey,
{
}

/// Key derivation costs are usable exactly if there is an iteration, a lane, and eight
/// blocks of memory for each lane.
pub proof fn law_usable_costs(params: crate::crypto::Argon2Params)
    ensures
        params.usable() <==> params.t_cost >= 1 && params.p_cost >= 1 && params.m_cost >= 8 * params.p_cost,
{
}

/// `whole` begins with `part`.
pub open spec fn begins_with(whole: Seq<char>, part: Seq<char>) -> bool {
    part.len() <= whole.len() && whole.take(part.len() as int) == part
}

/// `whole` ends with `part`.
pub open spec fn ends_with(whole: Seq<char>, part: Seq<char>) -> bool {
    part.len() <= whole.len() && whole.skip(whole.len() - part.len()) == part
}

/// What begins and ends a text that is put together.
proof fn lemma_ends(a: Seq<char>, b: Seq<char>)
    ensures
        begins_with(a + b, a),
        ends_with(a + b, b),
{
    assert((a + b).take(a.len() as int) =~= a);
    assert((a + b).skip((a + b).len() - b.len()) =~= b);
}

/// A message about a handle, a page or a limit ends with, or begins with, words that hold its
/// number in decimal.
pub proof fn law_messages_hold_numbers(n: u64, limit: usize)
    ensures
        ends_with(ChiselError::InvalidHandle(n).text(), decimal(n as nat)),
        ends_with((ChiselError::ChecksumMismatch { page_id: n }).text(), decimal(n as nat)),
        ends_with((ChiselError::CorruptPage { page_id: n }).text(), decimal(n as nat)),
        ends_with((ChiselError::DecryptionFailed { page_id: n }).text(), decimal(n as nat)),
        begins_with((ChiselError::InvalidPageId { page_id: n }).text(), "invalid page id "@ + decimal(n as nat)),
        begins_with((ChiselError::CacheFull { limit }).text(), "page cache full: "@ + decimal(limit as nat)),
        n != 0 ==> begins_with(
            (ChiselError::SpillwayFull { limit_bytes: n }).text(),
            "spillway full: "@ + decimal(n as nat),
        ),
{
    lemma_ends("invalid handle: "@, decimal(n as nat));
    lemma_ends("checksum mismatch on page "@, decimal(n as nat));
    lemma_ends("corrupt page structure at page "@, decimal(n as nat));
    lemma_ends("decryption/authentication failed for page "@, decimal(n as nat));
    lemma_ends("invalid page id "@ + decimal(n as nat), " (out of range for file)"@);
    lemma_ends(
        "page cache full: "@ + decimal(limit as nat),
        " dirty pages held; commit or roll back to free cache"@,
    );
    lemma_ends(
        "spillway full: "@ + decimal(n as nat),
        "-byte limit reached; commit or roll back to free cache and spillway"@,
    );
}

/// A message about two numbers holds both, the one that was found and the one that was
/// expected.
pub proof fn law_messages_hold_both_numbers(a: u64, b: u64, x: u32, y: u32)
    ensures
        (ChiselError::FileSizeMismatch { expected: a, actual: b }).text() == "file size mismatch: expected "@ + decimal(
            a as nat,
        ) + " bytes, got "@ + decimal(b as nat),
        (ChiselError::UnsupportedFormatVersion { found: x, expected: y }).text()
            == "unsupported on-disk format version: found "@ + decimal(x as nat) + ", this build supports "@ + decimal(
            y as nat,
        ),
        (ChiselError::UnsupportedPageSize { stored: x, compiled: y }).text()
            == "page size mismatch: file was written with "@ + decimal(x as nat) + "-byte pages, this build uses "@
            + decimal(y as nat) + "-byte pages"@,
        (ChiselError::TagMismatch { handle: a, expected: x, actual: y }).text() == "handle "@ + decimal(a as nat)
            + " has tag "@ + decimal(y as nat) + ", not the expected "@ + decimal(x as nat),
{
}

/// A message about a savepoint ends with its name, all of it.
pub proof fn law_messages_hold_names(name: String)
    ensures
        ends_with(ChiselError::SavepointNotFound(name).text(), name@),
        ends_with(ChiselError::DuplicateSavepoint(name).text(), name@),
        ChiselError::SavepointNotFound(name).text().len() == 21 + name@.len(),
        ChiselError::DuplicateSavepoint(name).text().len() == 21 + name@.len(),
{
    reveal_strlit("savepoint not found: ");
    reveal_strlit("duplicate savepoint: ");
    lemma_ends("savepoint not found: "@, name@);
    lemma_ends("duplicate savepoint: "@, name@);
}

/// The message about superblocks tells the defect of every slot, in turn: each new defect is
/// appended with the number of its slot.
pub proof fn law_messages_hold_all_defects(defects: Seq<SlotDefect>, n: int)
    requires
        0 <= n < defects.len(),
    ensures
        defects_text(defects, 0) == Seq::<char>::empty(),
        begins_with(defects_text(defects, n + 1), defects_text(defects, n)),
        ends_with(defects_text(defects, n + 1), decimal(defects[n].slot as nat) + ": "@ + defects[n].defect.text()),
        (SuperblockDefect::BadCount(defects[n].slot)).text() == "bad superblock_count "@ + decimal(
            defects[n].slot as nat,
        ),
{
    let lead = if n == 0 { ": slot "@ } else { "; slot "@ };
    let tail = decimal(defects[n].slot as nat) + ": "@ + defects[n].defect.text();
    lemma_ends(defects_text(defects, n) + lead, tail);
    lemma_ends(defects_text(defects, n), lead + tail);
    assert(defects_text(defects, n + 1) =~= defects_text(defects, n) + lead + tail);
    assert(defects_text(defects, n) + lead + tail =~= defects_text(defects, n) + (lead + tail));
}

/// The messages that are the same for every error of their kind.
pub proof fn law_fixed_messages()
    ensures
        ChiselError::NoActiveTransaction.text() == "no active transaction"@,
        ChiselError::TransactionAlreadyActive.text() == "transaction already active"@,
        ChiselError::ReadOnlyMode.text() == "database is read-only"@,
        ChiselError::FileNotFound.text() == "database file not found"@,
        ChiselError::InvalidRootName.text()
            == "invalid named-root name (empty, too long, non-UTF-8, or contains NUL)"@,
        ChiselError::RootNameTableFull.text() == "named-root table is full (all slots are in use)"@,
        ChiselError::TransactionInProgress.text()
            == "configuration changes are only allowed between transactions; commit or roll back first"@,
        ChiselError::LockFailed.text() == "failed to acquire exclusive file lock"@,
        ChiselError::Poisoned.text()
            == "database handle is poisoned after a previous fatal error; drop and reopen"@,
        ChiselError::NoEncryptionKey.text() == "database is encrypted but no encryption_key was supplied"@,
        ChiselError::InvalidEncryptionKey.text()
            == "encryption key does not match any key slot (wrong passphrase or raw key)"@,
        ChiselError::EncryptionNotSupported.text()
            == "encryption not supported for this open (key supplied for a plaintext database, or unknown crypto algorithm)"@,
        ChiselError::NoFreeKeySlot.text()
            == "no free key slot: all 8 key slots are occupied (remove an unused key first)"@,
        ChiselError::LastKeySlot.text()
            == "refusing to remove the last active key slot (the database would become permanently unopenable)"@,
        (ChiselError::SpillwayFull { limit_bytes: 0 }).text()
            == "spillway is disabled (spillway_max_bytes=0); commit or roll back to free cache"@,
{
}

/// What is said around the numbers of a message.
pub proof fn law_messages_around_numbers(n: u64, limit: usize, x: u32, y: u32, z: u32)
    ensures
        ChiselError::InvalidHandle(n).text() == "invalid handle: "@ + decimal(n as nat),
        (ChiselError::ChecksumMismatch { page_id: n }).text() == "checksum mismatch on page "@ + decimal(n as nat),
        (ChiselError::CorruptPage { page_id: n }).text() == "corrupt page structure at page "@ + decimal(n as nat),
        (ChiselError::DecryptionFailed { page_id: n }).text() == "decryption/authentication failed for page "@
            + decimal(n as nat),
        (ChiselError::InvalidPageId { page_id: n }).text() == "invalid page id "@ + decimal(n as nat)
            + " (out of range for file)"@,
        (ChiselError::CacheFull { limit }).text() == "page cache full: "@ + decimal(limit as nat)
            + " dirty pages held; commit or roll back to free cache"@,
        n != 0 ==> (ChiselError::SpillwayFull { limit_bytes: n }).text() == "spillway full: "@ + decimal(n as nat)
            + "-byte limit reached; commit or roll back to free cache and spillway"@,
        (ChiselError::InvalidSuperblockCount { value: x }).text() == "invalid superblock_count "@ + decimal(x as nat)
            + "; must be in 2..=16"@,
        (ChiselError::InvalidArgon2Params { m_cost: x, t_cost: y, p_cost: z }).text()
            == "invalid Argon2 parameters: m_cost "@ + decimal(x as nat) + ", t_cost "@ + decimal(y as nat)
            + ", p_cost "@ + decimal(z as nat),
{
}

/// What is said of a slot that holds no superblock.
pub proof fn law_messages_of_defects(n: u32)
    ensures
        SuperblockDefect::TooShort.text() == "too short"@,
        SuperblockDefect::BadChecksum.text() == "bad checksum"@,
        SuperblockDefect::BadMagic.text() == "bad magic"@,
        SuperblockDefect::BadCount(n).text() == "bad superblock_count "@ + decimal(n as nat),
{
}

/// Entry `i` of the directory of a page lies before the checksum and names bytes between the
/// header and the checksum.
pub open spec fn entry_fits(s: Seq<u8>, i: int) -> bool {
    &&& 22 + 6 * i <= 8184
    &&& 16 <= le16(s, 16 + 6 * i)
    &&& le16(s, 16 + 6 * i) + le16(s, 18 + 6 * i) <= 8184
}

/// A page is listed exactly if all entries of its directory fit.
pub proof fn law_pages_that_are_listed(s: Seq<u8>)
    requires
        s.len() == 8192,
    ensures
        entries_ok(s) <==> forall|i: int| 0 <= i < le16(s, 2) ==> #[trigger] entry_fits(s, i),
{
    assert forall|i: int| 0 <= i implies #[trigger] entry_fits(s, i) == (slot_entry(s, i) is Some) by {}
    if entries_ok(s) {
        assert forall|i: int| 0 <= i < le16(s, 2) implies #[trigger] entry_fits(s, i) by {
            assert(slot_entry(s, i) is Some);
        }
    }
    if forall|i: int| 0 <= i < le16(s, 2) ==> #[trigger] entry_fits(s, i) {
        assert forall|i: int| 0 <= i < slot_count_of(s) implies #[trigger] slot_entry(s, i) is Some by {
            assert(entry_fits(s, i));
        }
    }
}

} // verus!
