//! Bitmap-based free page tracking: the leaf pages of the freemap tree.
//!
//! Each bit of a freemap page stands for one page: 1 is free, 0 is in use.
//!
//! Layout: byte 0 type tag, byte 1 page version, bytes 2..16 zero, bytes
//! 16..8184 the bitmap, least significant bit first, then the checksum (which
//! callers stamp after a mutation).
//!
//! Every accessor is total: an id past the bitmap reads as "not free" and is
//! ignored by the mutators. Choosing the right leaf is the tree's job.

use vstd::prelude::*;

use crate::bytes::same_outside;
use crate::page::{current_version, zeroed, PageType, PAGE_BODY_SIZE, PAGE_SIZE};

verus! {

/// Offset of the bitmap within the page.
pub const BITMAP_OFFSET: usize = 16;

/// Number of page ids one freemap page tracks.
pub const BITS_PER_PAGE: u64 = 65344;

/// Bit `i` of `b`.
pub open spec fn bit_of(b: u8, i: u8) -> bool {
    (b >> i) & 1u8 == 1u8
}

/// The page contents `s` mark `id` free.
pub open spec fn marked_free(s: Seq<u8>, id: u64) -> bool {
    id < BITS_PER_PAGE && bit_of(s[BITMAP_OFFSET + id / 8], (id % 8) as u8)
}

/// The set of ids that the page contents `s` mark free.
pub open spec fn free_ids(s: Seq<u8>) -> Set<u64> {
    Set::new(|id: u64| marked_free(s, id))
}

proof fn lemma_set_bit(b: u8, i: u8, j: u8)
    by (bit_vector)
    requires
        i < 8,
        j < 8,
    ensures
        (((b | (1u8 << i)) >> j) & 1u8 == 1u8) == (i == j || (b >> j) & 1u8 == 1u8),
{
}

proof fn lemma_clear_bit(b: u8, i: u8, j: u8)
    by (bit_vector)
    requires
        i < 8,
        j < 8,
    ensures
        (((b & !(1u8 << i)) >> j) & 1u8 == 1u8) == (i != j && (b >> j) & 1u8 == 1u8),
{
}

proof fn lemma_zero_has_no_bit(i: u8)
    by (bit_vector)
    requires
        i < 8,
    ensures
        (0u8 >> i) & 1u8 != 1u8,
{
}

/// Operations on freemap page buffers.
pub struct FreeMap;

impl FreeMap {
    /// Initialize a page as an empty freemap: nothing is free.
    pub fn init_page(buf: &mut [u8; PAGE_SIZE])
        ensures
            final(buf)@[0] == PageType::FreeMap.code(),
            forall|j: int| 1 <= j < PAGE_SIZE ==> final(buf)@[j] == 0,
            free_ids(final(buf)@) == Set::<u64>::empty(),
    {
        *buf = zeroed();
        buf[0] = PageType::FreeMap.code();
        buf[1] = current_version(PageType::FreeMap);
        proof {
            assert forall|id: u64| !marked_free(buf@, id) by {
                lemma_zero_has_no_bit((id % 8) as u8);
            }
            assert(free_ids(buf@) =~= Set::<u64>::empty());
        }
    }

    /// Whether `page_id` is marked free. False for an out-of-range id.
    pub fn is_free(buf: &[u8; PAGE_SIZE], page_id: u64) -> (free: bool)
        ensures
            free == free_ids(buf@).contains(page_id),
    {
        if page_id >= BITS_PER_PAGE {
            return false;
        }
        let (byte_idx, bit_idx) = Self::bit_position(page_id);
        (buf[BITMAP_OFFSET + byte_idx] >> bit_idx) & 1 == 1
    }

    /// Mark a page as free. An out-of-range id is ignored. The caller stamps
    /// the checksum.
    pub fn mark_free(buf: &mut [u8; PAGE_SIZE], page_id: u64)
        ensures
            free_ids(final(buf)@) == (if page_id < BITS_PER_PAGE {
                free_ids(old(buf)@).insert(page_id)
            } else {
                free_ids(old(buf)@)
            }),
            same_outside(old(buf)@, final(buf)@, BITMAP_OFFSET as int, BITMAP_OFFSET + PAGE_BODY_SIZE),
    {
        if page_id < BITS_PER_PAGE {
            let (byte_idx, bit_idx) = Self::bit_position(page_id);
            let at: usize = BITMAP_OFFSET + byte_idx;
            let b: u8 = buf[at];
            buf[at] = b | (1u8 << bit_idx);
            proof {
                assert forall|id: u64| marked_free(buf@, id) == (id == page_id || marked_free(old(buf)@, id)) by {
                    lemma_set_bit(b, bit_idx, (id % 8) as u8);
                }
            }
        }
        assert(free_ids(buf@) =~= (if page_id < BITS_PER_PAGE {
            free_ids(old(buf)@).insert(page_id)
        } else {
            free_ids(old(buf)@)
        }));
    }

    /// The lowest free id that is at least `lo`, or `None` if there is none in
    /// this page.
    pub fn first_free_bit_from(buf: &[u8; PAGE_SIZE], lo: u64) -> (found: Option<u64>)
        ensures
            match found {
                Some(id) => {
                    &&& lo <= id
                    &&& free_ids(buf@).contains(id)
                    &&& forall|k: u64| lo <= k < id ==> !free_ids(buf@).contains(k)
                },
                None => forall|k: u64| lo <= k ==> !free_ids(buf@).contains(k),
            },
    {
        if lo >= BITS_PER_PAGE {
            return None;
        }
        let start_byte: usize = (lo / 8) as usize;
        let mut byte_idx: usize = start_byte;
        while byte_idx < PAGE_BODY_SIZE
            invariant
                lo < BITS_PER_PAGE,
                start_byte == lo / 8,
                start_byte <= byte_idx <= PAGE_BODY_SIZE,
                forall|k: u64| lo <= k < 8 * byte_idx ==> !marked_free(buf@, k),
            decreases PAGE_BODY_SIZE - byte_idx,
        {
            let byte: u8 = buf[BITMAP_OFFSET + byte_idx];
            if byte != 0 {
                let mut bit: u8 = if byte_idx == start_byte {
                    (lo % 8) as u8
                } else {
                    0
                };
                while bit < 8
                    invariant
                        lo < BITS_PER_PAGE,
                        start_byte == lo / 8,
                        start_byte <= byte_idx < PAGE_BODY_SIZE,
                        bit <= 8,
                        lo <= 8 * byte_idx + bit,
                        byte == buf@[BITMAP_OFFSET + byte_idx],
                        forall|k: u64| lo <= k < 8 * byte_idx + bit ==> !marked_free(buf@, k),
                    decreases 8 - bit,
                {
                    if (byte >> bit) & 1 == 1 {
                        let id: u64 = 8 * byte_idx as u64 + bit as u64;
                        assert(id / 8 == byte_idx && id % 8 == bit);
                        assert(marked_free(buf@, id));
                        return Some(id);
                    }
                    assert forall|k: u64| lo <= k < 8 * byte_idx + bit + 1 implies !marked_free(buf@, k) by {
                        if k == 8 * byte_idx + bit {
                            assert(k / 8 == byte_idx && k % 8 == bit);
                        }
                    }
                    bit += 1;
                }
            } else {
                assert forall|k: u64| lo <= k < 8 * (byte_idx + 1) implies !marked_free(buf@, k) by {
                    if k >= 8 * byte_idx {
                        assert(k / 8 == byte_idx);
                        lemma_zero_has_no_bit((k % 8) as u8);
                    }
                }
            }
            byte_idx += 1;
        }
        None
    }

    /// Mark one page as in use: the inverse of [`FreeMap::mark_free`] for a
    /// single id. An out-of-range id is ignored. The caller stamps the
    /// checksum.
    pub fn clear_bit(buf: &mut [u8; PAGE_SIZE], page_id: u64)
        ensures
            free_ids(final(buf)@) == free_ids(old(buf)@).remove(page_id),
            same_outside(old(buf)@, final(buf)@, BITMAP_OFFSET as int, BITMAP_OFFSET + PAGE_BODY_SIZE),
    {
        if page_id < BITS_PER_PAGE {
            let (byte_idx, bit_idx) = Self::bit_position(page_id);
            let at: usize = BITMAP_OFFSET + byte_idx;
            let b: u8 = buf[at];
            buf[at] = b & !(1u8 << bit_idx);
            proof {
                assert forall|id: u64| marked_free(buf@, id) == (id != page_id && marked_free(old(buf)@, id)) by {
                    lemma_clear_bit(b, bit_idx, (id % 8) as u8);
                }
            }
        }
        assert(free_ids(buf@) =~= free_ids(old(buf)@).remove(page_id));
    }

    /// Where the bit of `page_id` lies: byte within the bitmap, bit within the
    /// byte.
    fn bit_position(page_id: u64) -> (position: (usize, u8))
        requires
            page_id < BITS_PER_PAGE,
        ensures
            position.0 == page_id / 8,
            position.1 == page_id % 8,
    {
        ((page_id / 8) as usize, (page_id % 8) as u8)
    }
}

} // verus!
