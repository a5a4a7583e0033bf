//! Overflow chains: values too large for a slot, as linked lists of pages.
//!
//! Every page of a chain repeats the length of the value at offset 16 and names
//! its successor at offset 24; zero ends the chain. The payload is at offset 32.

use vstd::prelude::*;

use crate::bytes::{le64, read_u64, write_u64};
use crate::error::ChiselError;
use crate::page::{checksum_ok, current_version, stamp_checksum, zeroed, PageType, PAGE_SIZE};
use crate::page_cache::PageCache;
use crate::page_source::{extended, ids_from, lemma_extended_by_one, overrun};
use crate::radix::page_at;

verus! {

/// Start of the payload of an overflow page.
pub const OVERFLOW_HEADER_END: usize = 32;

/// Payload bytes per overflow page.
pub const OVERFLOW_PAYLOAD: usize = 8152;

/// The length of the value that a page claims to be part of.
pub open spec fn claimed_length(s: Seq<u8>) -> nat {
    le64(s, 16) as nat
}

/// The successor that a page names; zero for none.
pub open spec fn next_of(s: Seq<u8>) -> u64 {
    le64(s, 24) as u64
}

/// Number of pages for a value of length `n`.
pub open spec fn pages_for(n: nat) -> nat {
    (n + OVERFLOW_PAYLOAD as nat - 1) as nat / OVERFLOW_PAYLOAD as nat
}

/// Page `i` of the chain that starts at `first`.
pub open spec fn link(pages: Map<u64, Seq<u8>>, first: u64, i: nat) -> u64
    decreases i,
{
    if i == 0 {
        first
    } else {
        next_of(page_at(pages, link(pages, first, (i - 1) as nat)))
    }
}

/// How a walk along a chain ends.
pub enum ChainEnd {
    /// After this many pages, at one that names no successor.
    Complete(nat),
    /// There are more pages than expected.
    TooLong,
    /// At a page that is not an overflow page.
    WrongType(u64),
}

/// How the walk from page `i` of a chain of at most `max` pages ends.
pub open spec fn chain_end(pages: Map<u64, Seq<u8>>, first: u64, max: nat, i: nat) -> ChainEnd
    decreases max - i,
{
    let s = page_at(pages, link(pages, first, i));
    if i >= max {
        ChainEnd::TooLong
    } else if s[0] != PageType::Overflow.spec_code() {
        ChainEnd::WrongType(link(pages, first, i))
    } else if next_of(s) == 0 {
        ChainEnd::Complete(i + 1)
    } else {
        chain_end(pages, first, max, i + 1)
    }
}

/// The walk reaches page `i`.
pub open spec fn reaches(pages: Map<u64, Seq<u8>>, first: u64, i: nat) -> bool {
    forall|j: nat|
        j < i ==> {
            &&& page_at(pages, #[trigger] link(pages, first, j))[0] == PageType::Overflow.spec_code()
            &&& next_of(page_at(pages, link(pages, first, j))) != 0
        }
}

/// How the whole chain ends; its first page says how long it may be.
pub open spec fn chain_result(pages: Map<u64, Seq<u8>>, first: u64) -> ChainEnd {
    chain_end(pages, first, pages_for(claimed_length(page_at(pages, first))), 0)
}

/// The first page is an overflow page that claims a value that is not empty.
pub open spec fn chain_begins(pages: Map<u64, Seq<u8>>, first: u64) -> bool {
    page_at(pages, first)[0] == PageType::Overflow.spec_code() && claimed_length(page_at(pages, first)) > 0
}

/// The value that is `n` bytes long and stored in the chain.
pub open spec fn chain_value(pages: Map<u64, Seq<u8>>, first: u64, n: nat) -> Seq<u8> {
    Seq::new(
        n,
        |j: int|
            page_at(pages, link(pages, first, (j / OVERFLOW_PAYLOAD as int) as nat))[OVERFLOW_HEADER_END + j
                % OVERFLOW_PAYLOAD as int],
    )
}

/// The chain is complete: it has as many pages as its value needs.
pub open spec fn chain_complete(pages: Map<u64, Seq<u8>>, first: u64) -> bool {
    &&& chain_begins(pages, first)
    &&& chain_result(pages, first) == ChainEnd::Complete(pages_for(claimed_length(page_at(pages, first))))
}

/// What reading the chain says about its structure: `None` if it is complete.
pub open spec fn read_defect(pages: Map<u64, Seq<u8>>, first: u64) -> Option<ChiselError> {
    if chain_complete(pages, first) {
        None
    } else if !chain_begins(pages, first) {
        Some(ChiselError::CorruptPage { page_id: first })
    } else {
        match chain_result(pages, first) {
            ChainEnd::WrongType(page_id) => Some(ChiselError::CorruptPage { page_id }),
            _ => Some(ChiselError::CorruptPage { page_id: first }),
        }
    }
}

/// What walking the chain says about its structure: `None` if it ends in time.
pub open spec fn walk_defect(pages: Map<u64, Seq<u8>>, first: u64) -> Option<ChiselError> {
    if !chain_begins(pages, first) {
        Some(ChiselError::CorruptPage { page_id: first })
    } else {
        match chain_result(pages, first) {
            ChainEnd::Complete(_) => None,
            ChainEnd::WrongType(page_id) => Some(ChiselError::CorruptPage { page_id }),
            ChainEnd::TooLong => Some(ChiselError::CorruptPage { page_id: first }),
        }
    }
}

/// `e` is the error of reading a page that the walk reaches.
pub open spec fn chain_explains(cache: &PageCache, first: u64, e: ChiselError) -> bool {
    exists|i: nat|
        reaches(cache.contents(), first, i) && cache.explains(e, #[trigger] link(cache.contents(), first, i))
}

/// Every page that the walk reaches is in the cache, so that each can be fetched
/// whatever the limits are.
pub open spec fn chain_cached(cache: &PageCache, first: u64) -> bool {
    forall|i: nat|
        reaches(cache.contents(), first, i) ==> cache.cached().contains_key(#[trigger] link(cache.contents(), first, i))
}

/// Overflow chains.
pub struct Overflow;

impl Overflow {
    /// Read the value of the chain that starts at `first_page`.
    pub fn read(cache: &mut PageCache, first_page: u64) -> (outcome: Result<Vec<u8>, ChiselError>)
        requires
            old(cache).inv(),
        ensures
            final(cache).inv(),
            final(cache).same_pages(old(cache)),
            old(cache).bounded() ==> final(cache).bounded(),
            match outcome {
                Ok(value) => {
                    &&& chain_complete(old(cache).contents(), first_page)
                    &&& value@ == chain_value(
                        old(cache).contents(),
                        first_page,
                        claimed_length(page_at(old(cache).contents(), first_page)),
                    )
                },
                Err(e) => read_defect(old(cache).contents(), first_page) == Some(e) || chain_explains(
                    old(cache),
                    first_page,
                    e,
                ) && !chain_cached(old(cache), first_page),
            },
    {
        let ghost pages = cache.contents();
        proof {
            cache.lemma_explains(first_page);
            assert(link(pages, first_page, 0) == first_page);
            assert(reaches(pages, first_page, 0));
        }
        let total_length: u64 = match cache.get(first_page) {
            Ok(buf) => {
                if buf[0] != PageType::Overflow.code() {
                    return Err(ChiselError::CorruptPage { page_id: first_page });
                }
                read_u64(buf, 16)
            },
            Err(e) => {
                return Err(e);
            },
        };
        if total_length == 0 {
            return Err(ChiselError::CorruptPage { page_id: first_page });
        }
        let max_pages: u64 = (total_length - 1) / OVERFLOW_PAYLOAD as u64 + 1;
        let ghost total = total_length as nat;
        let ghost max = pages_for(total);
        assert(max_pages == max);
        let mut result: Vec<u8> = Vec::new();
        let mut current_page: u64 = first_page;
        let mut visited: u64 = 0;
        assert(reaches(pages, first_page, 0));
        loop
            invariant_except_break
                visited <= max,
                current_page == link(pages, first_page, visited as nat),
                reaches(pages, first_page, visited as nat),
                chain_result(pages, first_page) == chain_end(pages, first_page, max, visited as nat),
                result@.len() == visited * OVERFLOW_PAYLOAD || visited == max,
                result@ =~= chain_value(pages, first_page, result@.len()),
            invariant
                cache.inv(),
                cache.same_pages(old(cache)),
                old(cache).bounded() ==> cache.bounded(),
                pages == old(cache).contents(),
                chain_cached(old(cache), first_page) ==> cache.cached() == old(cache).cached(),
                chain_begins(pages, first_page),
                total_length == claimed_length(page_at(pages, first_page)),
                total == total_length as nat,
                max == pages_for(total),
                max_pages == max,
                max > 0,
                result@.len() <= total,
            ensures
                result@ =~= chain_value(pages, first_page, result@.len()),
                chain_result(pages, first_page) matches ChainEnd::Complete(n) && (n == max <==> result@.len() == total),
            decreases max_pages - visited,
        {
            if visited >= max_pages {
                return Err(ChiselError::CorruptPage { page_id: first_page });
            }
            proof {
                cache.lemma_explains(current_page);
                old(cache).lemma_same_explains(&*cache, current_page);
            }
            let buf: &[u8; PAGE_SIZE] = match cache.get(current_page) {
                Ok(buf) => buf,
                Err(e) => {
                    return Err(e);
                },
            };
            assert(buf@ == page_at(pages, current_page));
            if buf[0] != PageType::Overflow.code() {
                return Err(ChiselError::CorruptPage { page_id: current_page });
            }
            let next_page: u64 = read_u64(buf, 24);
            let ghost done = result@.len();
            let remaining: u64 = total_length - result.len() as u64;
            let chunk_len: usize = if remaining < OVERFLOW_PAYLOAD as u64 {
                remaining as usize
            } else {
                OVERFLOW_PAYLOAD
            };
            proof {
                lemma_chunk(total, visited as nat);
                assert(done == visited * OVERFLOW_PAYLOAD);
            }
            let mut k: usize = 0;
            while k < chunk_len
                invariant
                    k <= chunk_len <= OVERFLOW_PAYLOAD,
                    buf@ == page_at(pages, current_page),
                    current_page == link(pages, first_page, visited as nat),
                    done == visited * OVERFLOW_PAYLOAD,
                    result@.len() == done + k,
                    result@ =~= chain_value(pages, first_page, result@.len()),
                decreases chunk_len - k,
            {
                let ghost before = result@;
                result.push(buf[OVERFLOW_HEADER_END + k]);
                proof {
                    lemma_offset(visited as nat, k as nat);
                    let want = chain_value(pages, first_page, result@.len());
                    assert forall|j: int| 0 <= j < result@.len() implies result@[j] == want[j] by {
                        if j < before.len() {
                            assert(before[j] == chain_value(pages, first_page, before.len())[j]);
                        }
                    }
                }
                k = k + 1;
            }
            visited = visited + 1;
            if next_page == 0 {
                break;
            }
            proof {
                assert(reaches(pages, first_page, visited as nat));
            }
            current_page = next_page;
        }
        if result.len() as u64 != total_length {
            return Err(ChiselError::CorruptPage { page_id: first_page });
        }
        Ok(result)
    }

    /// The ids of the pages of the chain that starts at `first_page`.
    pub fn collect_chain_pages(cache: &mut PageCache, first_page: u64) -> (outcome: Result<Vec<u64>, ChiselError>)
        requires
            old(cache).inv(),
        ensures
            final(cache).inv(),
            final(cache).same_pages(old(cache)),
            old(cache).bounded() ==> final(cache).bounded(),
            match outcome {
                Ok(ids) => {
                    &&& walk_defect(old(cache).contents(), first_page) is None
                    &&& chain_result(old(cache).contents(), first_page) == ChainEnd::Complete(ids@.len())
                    &&& ids@ == Seq::new(ids@.len(), |i: int| link(old(cache).contents(), first_page, i as nat))
                },
                Err(e) => walk_defect(old(cache).contents(), first_page) == Some(e) || chain_explains(
                    old(cache),
                    first_page,
                    e,
                ),
            },
    {
        let ghost pages = cache.contents();
        proof {
            cache.lemma_explains(first_page);
            assert(link(pages, first_page, 0) == first_page);
            assert(reaches(pages, first_page, 0));
        }
        let total_length: u64 = match cache.get(first_page) {
            Ok(buf) => {
                if buf[0] != PageType::Overflow.code() {
                    return Err(ChiselError::CorruptPage { page_id: first_page });
                }
                read_u64(buf, 16)
            },
            Err(e) => {
                return Err(e);
            },
        };
        if total_length == 0 {
            return Err(ChiselError::CorruptPage { page_id: first_page });
        }
        let max_pages: u64 = (total_length - 1) / OVERFLOW_PAYLOAD as u64 + 1;
        let ghost max = pages_for(total_length as nat);
        assert(max_pages == max);
        let mut ids: Vec<u64> = Vec::new();
        let mut current_page: u64 = first_page;
        loop
            invariant
                cache.inv(),
                cache.same_pages(old(cache)),
                old(cache).bounded() ==> cache.bounded(),
                pages == old(cache).contents(),
                chain_begins(pages, first_page),
                total_length == claimed_length(page_at(pages, first_page)),
                max == pages_for(total_length as nat),
                max_pages == max,
                ids@.len() <= max,
                current_page == link(pages, first_page, ids@.len()),
                reaches(pages, first_page, ids@.len()),
                chain_result(pages, first_page) == chain_end(pages, first_page, max, ids@.len()),
                forall|i: int| 0 <= i < ids@.len() ==> #[trigger] ids@[i] == link(pages, first_page, i as nat),
            decreases max_pages - ids@.len(),
        {
            if ids.len() as u64 >= max_pages {
                return Err(ChiselError::CorruptPage { page_id: first_page });
            }
            proof {
                cache.lemma_explains(current_page);
                old(cache).lemma_same_explains(&*cache, current_page);
            }
            let buf: &[u8; PAGE_SIZE] = match cache.get(current_page) {
                Ok(buf) => buf,
                Err(e) => {
                    return Err(e);
                },
            };
            assert(buf@ == page_at(pages, current_page));
            if buf[0] != PageType::Overflow.code() {
                return Err(ChiselError::CorruptPage { page_id: current_page });
            }
            let next_page: u64 = read_u64(buf, 24);
            ids.push(current_page);
            if next_page == 0 {
                assert(ids@ =~= Seq::new(ids@.len(), |i: int| link(pages, first_page, i as nat)));
                return Ok(ids);
            }
            current_page = next_page;
        }
    }
}

/// How much of the value comes before and after page `i`.
proof fn lemma_chunk(total: nat, i: nat)
    requires
        total > 0,
        i < pages_for(total),
    ensures
        i * OVERFLOW_PAYLOAD < total,
        i + 1 == pages_for(total) <==> total - i * OVERFLOW_PAYLOAD <= OVERFLOW_PAYLOAD,
{
    let p = OVERFLOW_PAYLOAD as int;
    let q = (total + p - 1) / p;
    assert(q == pages_for(total));
    vstd::arithmetic::div_mod::lemma_fundamental_div_mod(total + p - 1, p);
    assert(p * q <= total + p - 1 < p * q + p);
    assert(p * q == q * p) by (nonlinear_arith);
    assert(i * p <= (q - 1) * p) by (nonlinear_arith)
        requires
            i <= q - 1,
            p > 0,
    ;
    assert((q - 1) * p == q * p - p) by (nonlinear_arith);
    if i + 1 < q {
        assert((i + 1) * p <= (q - 1) * p) by (nonlinear_arith)
            requires
                i + 1 <= q - 1,
                p > 0,
        ;
        assert((i + 1) * p == i * p + p) by (nonlinear_arith);
    }
}

/// Where a byte of the value is stored.
proof fn lemma_offset(i: nat, k: nat)
    requires
        k < OVERFLOW_PAYLOAD,
    ensures
        (i * OVERFLOW_PAYLOAD + k) / OVERFLOW_PAYLOAD as int == i,
        (i * OVERFLOW_PAYLOAD + k) % OVERFLOW_PAYLOAD as int == k,
{
    vstd::arithmetic::div_mod::lemma_fundamental_div_mod_converse(
        i * OVERFLOW_PAYLOAD + k,
        OVERFLOW_PAYLOAD as int,
        i as int,
        k as int,
    );
}

/// Page `i` of a chain for `value` that ends at page `n - 1`, its pages being
/// numbered from `first` on.
pub open spec fn chain_page(s: Seq<u8>, value: Seq<u8>, first: u64, n: nat, i: nat) -> bool {
    &&& checksum_ok(s)
    &&& s[0] == PageType::Overflow.spec_code()
    &&& claimed_length(s) == value.len()
    &&& next_of(s) == (if i + 1 < n {
        first + i + 1
    } else {
        0
    })
    &&& forall|k: int|
        0 <= k < OVERFLOW_PAYLOAD && i * OVERFLOW_PAYLOAD + k < value.len() ==> #[trigger] s[OVERFLOW_HEADER_END + k]
            == value[i * OVERFLOW_PAYLOAD + k]
}

/// Page `i` of a chain for `value` from `first` on is there.
pub open spec fn chain_at(pages: Map<u64, Seq<u8>>, value: Seq<u8>, first: u64, i: nat) -> bool {
    &&& pages.contains_key((first + i) as u64)
    &&& chain_page(pages[(first + i) as u64], value, first, pages_for(value.len()), i)
}

/// The value was stored in fresh pages, from the watermark on.
pub open spec fn chain_written(a: &PageCache, b: &PageCache, value: Seq<u8>) -> bool {
    &&& extended(a, b, pages_for(value.len()))
    &&& forall|i: nat| i < pages_for(value.len()) ==> #[trigger] chain_at(b.contents(), value, a.watermark(), i)
}

/// The pages of such a chain follow each other.
proof fn lemma_links(pages: Map<u64, Seq<u8>>, value: Seq<u8>, first: u64, i: nat)
    requires
        i < pages_for(value.len()),
        first + pages_for(value.len()) <= u64::MAX,
        forall|j: nat| j < pages_for(value.len()) ==> #[trigger] chain_at(pages, value, first, j),
    ensures
        link(pages, first, i) == first + i,
    decreases i,
{
    if i > 0 {
        let j = (i - 1) as nat;
        lemma_links(pages, value, first, j);
        assert(chain_at(pages, value, first, j));
    }
}

/// The walk along such a chain ends at its last page.
proof fn lemma_ends(pages: Map<u64, Seq<u8>>, value: Seq<u8>, first: u64, i: nat)
    requires
        i < pages_for(value.len()),
        first + pages_for(value.len()) <= u64::MAX,
        forall|j: nat| j < pages_for(value.len()) ==> #[trigger] chain_at(pages, value, first, j),
    ensures
        chain_end(pages, first, pages_for(value.len()), i) == ChainEnd::Complete(pages_for(value.len())),
    decreases pages_for(value.len()) - i,
{
    lemma_links(pages, value, first, i);
    assert(chain_at(pages, value, first, i));
    if i + 1 < pages_for(value.len()) {
        lemma_ends(pages, value, first, i + 1);
    }
}

/// Reading a chain that was written gives the value back, and its pages are the
/// ones that were allocated for it.
pub proof fn law_read_after_write(a: &PageCache, b: &PageCache, value: Seq<u8>)
    requires
        a.inv(),
        b.inv(),
        b.bounded(),
        0 < value.len() <= u64::MAX,
        chain_written(a, b, value),
    ensures
        chain_complete(b.contents(), a.watermark()),
        claimed_length(page_at(b.contents(), a.watermark())) == value.len(),
        chain_value(b.contents(), a.watermark(), value.len()) == value,
        forall|i: nat| i < pages_for(value.len()) ==> #[trigger] link(b.contents(), a.watermark(), i) == a.watermark() + i,
        forall|i: nat|
            i < pages_for(value.len()) ==> b.sound(#[trigger] link(b.contents(), a.watermark(), i)),
{
    let pages = b.contents();
    let first = a.watermark();
    let n = pages_for(value.len());
    lemma_chunk_count(value.len());
    assert forall|i: nat| i < n implies #[trigger] link(pages, first, i) == first + i && b.sound(
        link(pages, first, i),
    ) by {
        lemma_links(pages, value, first, i);
        assert(chain_at(pages, value, first, i));
        assert(ids_from(first, n).contains((first + i) as u64));
    }
    lemma_ends(pages, value, first, 0);
    assert(chain_at(pages, value, first, 0));
    let got = chain_value(pages, first, value.len());
    assert forall|j: int| 0 <= j < value.len() implies got[j] == value[j] by {
        let p = OVERFLOW_PAYLOAD as int;
        let i = (j / p) as nat;
        let k = j % p;
        vstd::arithmetic::div_mod::lemma_fundamental_div_mod(j, p);
        assert(i * OVERFLOW_PAYLOAD + k == j) by (nonlinear_arith)
            requires
                j == p * i + k,
                p == OVERFLOW_PAYLOAD,
        ;
        lemma_page_of(value.len(), j as nat);
        lemma_links(pages, value, first, i);
        assert(chain_at(pages, value, first, i));
        assert(pages[(first + i) as u64][OVERFLOW_HEADER_END + k] == value[i * OVERFLOW_PAYLOAD + k]);
    }
    assert(got =~= value);
}

/// A value that is not empty needs a page, and no more pages than bytes.
proof fn lemma_chunk_count(total: nat)
    requires
        total > 0,
    ensures
        0 < pages_for(total) <= total,
{
    let p = OVERFLOW_PAYLOAD as int;
    let q = (total + p - 1) / p;
    assert(0 < q <= total) by (nonlinear_arith)
        requires
            q == (total + p - 1) / p,
            p == 8152,
            total > 0,
    ;
}

/// Byte `j` is on one of the pages.
pub proof fn lemma_page_of(total: nat, j: nat)
    requires
        j < total,
    ensures
        j / (OVERFLOW_PAYLOAD as nat) < pages_for(total),
{
    let p = OVERFLOW_PAYLOAD as int;
    assert(j as int / p < (total + p - 1) / p) by (nonlinear_arith)
        requires
            j < total,
            p == 8152,
    ;
}

impl Overflow {
    /// Fill page `i` of a chain of `n` pages from `first` on.
    fn fill(buf: &mut [u8; PAGE_SIZE], value: &[u8], first: u64, n: usize, i: usize)
        requires
            0 < value@.len(),
            n == pages_for(value@.len()),
            i < n,
            first + n <= u64::MAX,
        ensures
            chain_page(final(buf)@, value@, first, n as nat, i as nat),
    {
        let len: usize = value.len();
        proof {
            lemma_chunk(value@.len(), i as nat);
        }
        let start: usize = i * OVERFLOW_PAYLOAD;
        let rest: usize = len - start;
        let chunk_len: usize = if rest < OVERFLOW_PAYLOAD {
            rest
        } else {
            OVERFLOW_PAYLOAD
        };
        let next_page: u64 = if i + 1 < n {
            first + i as u64 + 1
        } else {
            0
        };
        *buf = zeroed();
        buf[0] = PageType::Overflow.code();
        buf[1] = current_version(PageType::Overflow);
        write_u64(buf, 16, len as u64);
        write_u64(buf, 24, next_page);
        let mut k: usize = 0;
        while k < chunk_len
            invariant
                k <= chunk_len <= OVERFLOW_PAYLOAD,
                start == i * OVERFLOW_PAYLOAD,
                start + chunk_len <= value@.len() == len,
                buf@[0] == PageType::Overflow.spec_code(),
                le64(buf@, 16) == value@.len(),
                le64(buf@, 24) == next_page,
                forall|j: int| 0 <= j < k ==> #[trigger] buf@[OVERFLOW_HEADER_END + j] == value@[start + j],
            decreases chunk_len - k,
        {
            buf[OVERFLOW_HEADER_END + k] = value[start + k];
            k = k + 1;
        }
        let ghost s = buf@;
        stamp_checksum(buf);
        proof {
            assert forall|k: int|
                0 <= k < OVERFLOW_PAYLOAD && i * OVERFLOW_PAYLOAD + k < value@.len() implies #[trigger] buf@[
                OVERFLOW_HEADER_END + k]
                == value@[i * OVERFLOW_PAYLOAD + k] by {
                assert(s[OVERFLOW_HEADER_END + k] == value@[start + k]);
            }
        }
    }

    /// Store a value that is not empty in a chain of fresh pages. Returns the
    /// first page.
    pub fn write(cache: &mut PageCache, value: &[u8]) -> (outcome: Result<u64, ChiselError>)
        requires
            old(cache).inv(),
            old(cache).bounded(),
            value@.len() > 0,
            old(cache).watermark() > 0,
            old(cache).watermark() + pages_for(value@.len()) <= usize::MAX,
        ensures
            final(cache).inv(),
            final(cache).bounded(),
            extended(
                old(cache),
                final(cache),
                (final(cache).watermark() - old(cache).watermark()) as nat,
            ),
            old(cache).watermark() <= final(cache).watermark() <= old(cache).watermark() + pages_for(value@.len()),
            match outcome {
                Ok(first) => {
                    &&& !old(cache).full()
                    &&& old(cache).spill_fits() ==> old(cache).pending() + pages_for(value@.len()) <= old(
                        cache,
                    ).capacity()
                    &&& first == old(cache).watermark()
                    &&& chain_written(old(cache), final(cache), value@)
                },
                Err(e) => overrun(old(cache), final(cache), e, pages_for(value@.len())),
            },
    {
        let ghost c0 = *cache;
        let ghost n = pages_for(value@.len());
        proof {
            lemma_chunk_count(value@.len());
            assert(c0.unsaved() =~= c0.unsaved().union(ids_from(c0.watermark(), 0)));
            assert(c0.contents().dom() =~= c0.contents().dom().union(ids_from(c0.watermark(), 0)));
        }
        let num_pages: usize = (value.len() - 1) / OVERFLOW_PAYLOAD + 1;
        assert(num_pages == n);
        let first: u64 = cache.next_page_id();
        let mut i: usize = 0;
        while i < num_pages
            invariant
                i <= num_pages,
                num_pages == n,
                n == pages_for(value@.len()),
                c0 == *old(cache),
                c0.watermark() + n <= usize::MAX,
                cache.inv(),
                cache.bounded(),
                extended(&c0, cache, i as nat),
                i == 0 ==> *cache == c0,
                i > 0 ==> !c0.full(),
                c0.spill_fits() ==> cache.spill_fits(),
                c0.spill_fits() && i > 0 ==> c0.pending() + i <= c0.capacity(),
            decreases num_pages - i,
        {
            let ghost before = *cache;
            let fresh = cache.new_page();
            proof {
                before.lemma_notions();
                lemma_extended_by_one(&before, cache);
                lemma_extended_more(&c0, &before, cache, i as nat);
            }
            match fresh {
                Ok(_) => {},
                Err(e) => {
                    return Err(e);
                },
            }
            i = i + 1;
        }
        i = 0;
        while i < num_pages
            invariant
                i <= num_pages,
                num_pages == n,
                n == pages_for(value@.len()),
                0 < value@.len(),
                c0 == *old(cache),
                first == c0.watermark(),
                c0.watermark() + n <= usize::MAX,
                cache.inv(),
                cache.bounded(),
                extended(&c0, cache, n),
                !c0.full(),
                c0.spill_fits() ==> c0.pending() + n <= c0.capacity(),
                forall|j: nat| j < i ==> #[trigger] chain_at(cache.contents(), value@, first, j),
            decreases num_pages - i,
        {
            let page_id: u64 = first + i as u64;
            let ghost before = *cache;
            proof {
                assert(ids_from(first, n).contains(page_id));
                assert(cache.contents().dom().contains(page_id));
                cache.lemma_explains(page_id);
            }
            match cache.get_mut(page_id) {
                Ok(buf) => {
                    Self::fill(buf, value, first, num_pages, i);
                },
                Err(e) => {
                    return Err(e);
                },
            }
            proof {
                assert(cache.unsaved() =~= before.unsaved());
                assert(cache.contents().dom() =~= before.contents().dom());
                assert forall|j: nat| j < i + 1 implies #[trigger] chain_at(cache.contents(), value@, first, j) by {
                    if j < i {
                        assert(chain_at(before.contents(), value@, first, j));
                    }
                }
            }
            i = i + 1;
        }
        Ok(first)
    }
}

/// One page more.
proof fn lemma_extended_more(a: &PageCache, b: &PageCache, d: &PageCache, n: nat)
    requires
        extended(a, b, n),
        extended(b, d, 1),
    ensures
        extended(a, d, n + 1),
{
    assert(ids_from(a.watermark(), n + 1) =~= ids_from(a.watermark(), n).union(ids_from(b.watermark(), 1)));
    assert(d.unsaved() =~= a.unsaved().union(ids_from(a.watermark(), n + 1)));
    assert(d.contents().dom() =~= a.contents().dom().union(ids_from(a.watermark(), n + 1)));
}

} // verus!
