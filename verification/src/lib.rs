//! Chisel: a transactional, slot-based storage engine.

pub mod audit;
pub mod audit_all;
pub mod audit_values;
pub mod bytes;
pub mod cache_laws;
pub mod chisel;
pub mod commit;
pub mod crypto;
pub mod data_page;
pub mod database_laws;
pub mod defrag;
pub mod entries;
pub mod error;
pub mod forest;
pub mod format_laws;
pub mod freemap;
pub mod freemap_tree;
pub mod fx;
pub mod graft;
pub mod handle;
pub mod handle_table;
pub mod inspect;
pub mod listing;
pub mod lru;
pub mod membership_index;
pub mod names;
pub mod opening;
pub mod opening_laws;
pub mod operations;
pub mod options;
pub mod orphans;
pub mod overflow;
pub mod page;
pub mod page_cache;
pub mod page_io;
pub mod page_source;
pub mod persist;
pub mod placement;
pub mod pool;
pub mod radix;
pub mod radix_u64;
pub mod recycler;
pub mod release;
pub mod spillway;
pub mod spine;
pub mod stats;
pub mod step_laws;
pub mod store;
pub mod store_laws;
pub mod superblock;
pub mod tagging;
pub mod text;
pub mod transaction;
pub mod tree_laws;
pub mod workspace;

pub use chisel::Chisel;
pub use crypto::{Argon2Params, Key};
pub use defrag::DefragStats;
pub use error::ChiselError;
pub use handle::{Handle, Tag, TagDropProgress};
pub use options::{DrainInsertion, Options};
pub use page::{format_major, PAGE_SIZE};
pub use stats::{ChiselCounters, Stats};
pub use superblock::{
    SlotDefect, SuperblockDefect, DEFAULT_SUPERBLOCK_COUNT, MAX_SUPERBLOCKS, MIN_SUPERBLOCKS, NAMED_ROOT_COUNT,
    NAMED_ROOT_NAME_LEN,
};
