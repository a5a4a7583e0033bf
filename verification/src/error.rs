//! Error types.
//!
//! Operational errors mean that the database is still consistent and usable:
//! the caller can recover by a different request. Fatal errors mean that
//! integrity is in question; the handle should be dropped and reopened.

use vstd::prelude::*;

use crate::superblock::SlotDefect;
use crate::text::{decimal, push_decimal};

verus! {

/// `std::io::Error`, carried as an opaque cause.
#[verifier::external_type_specification]
#[verifier::external_body]
pub struct ExIoError(std::io::Error);

/// Every way an operation can fail.
#[non_exhaustive]
#[allow(inconsistent_fields)]
#[derive(Debug)]
pub enum ChiselError {
    /// No live chunk has this handle.
    InvalidHandle(u64),
    /// The operation needs an active transaction.
    NoActiveTransaction,
    /// A transaction is active already.
    TransactionAlreadyActive,
    /// No active savepoint has this name.
    SavepointNotFound(String),
    /// A savepoint of this name is active already.
    DuplicateSavepoint(String),
    /// The database was opened for reading only.
    ReadOnlyMode,
    /// The database file does not exist.
    FileNotFound,
    /// A named-root name is empty, longer than 24 bytes, or contains NUL.
    InvalidRootName,
    /// Every entry of the named-root table is in use.
    RootNameTableFull,
    /// The requested number of superblock slots is out of range.
    InvalidSuperblockCount { value: u32 },
    /// The Argon2id cost parameters cannot be used.
    InvalidArgon2Params { m_cost: u32, t_cost: u32, p_cost: u32 },
    /// The cache is at its cap with every page dirty and the spillway is
    /// disabled. Commit or roll back to free the cache.
    CacheFull { limit: usize },
    /// The spillway is at its cap too. Commit or roll back.
    SpillwayFull { limit_bytes: u64 },
    /// Configuration cannot change while a transaction is active.
    TransactionInProgress,
    /// The chunk does not carry the tag that the caller expected.
    TagMismatch { handle: u64, expected: u32, actual: u32 },
    /// Fatal: an operation on the underlying storage failed.
    IoError(std::io::Error),
    /// Fatal: a page does not match its checksum.
    ChecksumMismatch { page_id: u64 },
    /// Fatal: no superblock slot is usable.
    CorruptSuperblock { defects: Vec<SlotDefect> },
    /// Fatal: the file does not have the recorded size.
    FileSizeMismatch { expected: u64, actual: u64 },
    /// Fatal: another process holds the database.
    LockFailed,
    /// Fatal: the file's format version is not supported.
    UnsupportedFormatVersion { found: u32, expected: u32 },
    /// An earlier fatal error made the handle unusable.
    Poisoned,
    /// Fatal: the contents of a page violate the format.
    CorruptPage { page_id: u64 },
    /// Fatal: a page id beyond the end of the file.
    InvalidPageId { page_id: u64 },
    /// Fatal: the file was written with another page size.
    UnsupportedPageSize { stored: u32, compiled: u32 },
    /// The database is encrypted and no key was supplied.
    NoEncryptionKey,
    /// The supplied key opens no key slot.
    InvalidEncryptionKey,
    /// A key was supplied for a plaintext database, or the algorithm is
    /// unknown.
    EncryptionNotSupported,
    /// All key slots are occupied.
    NoFreeKeySlot,
    /// The last active key slot cannot be removed.
    LastKeySlot,
    /// Fatal: a page failed authentication while being decrypted.
    DecryptionFailed { page_id: u64 },
}

/// `": slot 0: bad checksum; slot 1: bad magic"`: the first `n` defects, the
/// first introduced by a colon and the others by a semicolon.
pub open spec fn defects_text(defects: Seq<SlotDefect>, n: int) -> Seq<char>
    decreases n,
{
    if n <= 0 {
        Seq::empty()
    } else {
        defects_text(defects, n - 1) + (if n == 1 {
            ": slot "@
        } else {
            "; slot "@
        }) + decimal(defects[n - 1].slot as nat) + ": "@ + defects[n - 1].defect.text()
    }
}

impl ChiselError {
    /// The error puts storage integrity in question.
    pub open spec fn spec_is_fatal(&self) -> bool {
        match self {
            ChiselError::IoError(_) => true,
            ChiselError::ChecksumMismatch { .. } => true,
            ChiselError::CorruptSuperblock { .. } => true,
            ChiselError::FileSizeMismatch { .. } => true,
            ChiselError::LockFailed => true,
            ChiselError::UnsupportedFormatVersion { .. } => true,
            ChiselError::CorruptPage { .. } => true,
            ChiselError::InvalidPageId { .. } => true,
            ChiselError::UnsupportedPageSize { .. } => true,
            ChiselError::DecryptionFailed { .. } => true,
            _ => false,
        }
    }

    /// Whether the error indicates a violation of storage integrity or an
    /// unrecoverable storage condition. `Poisoned` is not fatal: it only
    /// reports an earlier fatal error.
    #[verifier::when_used_as_spec(spec_is_fatal)]
    pub fn is_fatal(&self) -> (fatal: bool)
        ensures
            fatal == self.spec_is_fatal(),
    {
        matches!(
            self,
            ChiselError::IoError(_)
                | ChiselError::ChecksumMismatch { .. }
                | ChiselError::CorruptSuperblock { .. }
                | ChiselError::FileSizeMismatch { .. }
                | ChiselError::LockFailed
                | ChiselError::UnsupportedFormatVersion { .. }
                | ChiselError::CorruptPage { .. }
                | ChiselError::InvalidPageId { .. }
                | ChiselError::UnsupportedPageSize { .. }
                | ChiselError::DecryptionFailed { .. }
        )
    }

    /// The wrapped storage error of `IoError`; no other variant has a cause.
    pub fn source(&self) -> (cause: Option<&std::io::Error>)
        ensures
            match self {
                ChiselError::IoError(e) => cause == Some(e),
                _ => cause is None,
            },
    {
        match self {
            ChiselError::IoError(e) => Some(e),
            _ => None,
        }
    }

    /// The message of every error but `IoError`, whose text is the platform's.
    pub open spec fn text(&self) -> Seq<char> {
        match self {
            ChiselError::InvalidHandle(h) => "invalid handle: "@ + decimal(*h as nat),
            ChiselError::TagMismatch { handle, expected, actual } => "handle "@ + decimal(*handle as nat)
                + " has tag "@ + decimal(*actual as nat) + ", not the expected "@ + decimal(*expected as nat),
            ChiselError::NoActiveTransaction => "no active transaction"@,
            ChiselError::TransactionAlreadyActive => "transaction already active"@,
            ChiselError::SavepointNotFound(name) => "savepoint not found: "@ + name@,
            ChiselError::DuplicateSavepoint(name) => "duplicate savepoint: "@ + name@,
            ChiselError::ReadOnlyMode => "database is read-only"@,
            ChiselError::FileNotFound => "database file not found"@,
            ChiselError::InvalidRootName =>
                "invalid named-root name (empty, too long, non-UTF-8, or contains NUL)"@,
            ChiselError::RootNameTableFull => "named-root table is full (all slots are in use)"@,
            ChiselError::InvalidSuperblockCount { value } => "invalid superblock_count "@ + decimal(
                *value as nat,
            ) + "; must be in 2..=16"@,
            ChiselError::InvalidArgon2Params { m_cost, t_cost, p_cost } => "invalid Argon2 parameters: m_cost "@
                + decimal(*m_cost as nat) + ", t_cost "@ + decimal(*t_cost as nat) + ", p_cost "@ + decimal(
                *p_cost as nat,
            ),
            ChiselError::CacheFull { limit } => "page cache full: "@ + decimal(*limit as nat)
                + " dirty pages held; commit or roll back to free cache"@,
            ChiselError::SpillwayFull { limit_bytes } => if *limit_bytes == 0 {
                "spillway is disabled (spillway_max_bytes=0); commit or roll back to free cache"@
            } else {
                "spillway full: "@ + decimal(*limit_bytes as nat)
                    + "-byte limit reached; commit or roll back to free cache and spillway"@
            },
            ChiselError::TransactionInProgress =>
                "configuration changes are only allowed between transactions; commit or roll back first"@,
            ChiselError::IoError(_) => "I/O error: "@,
            ChiselError::ChecksumMismatch { page_id } => "checksum mismatch on page "@ + decimal(
                *page_id as nat,
            ),
            ChiselError::CorruptSuperblock { defects } => "no valid superblock found"@ + defects_text(
                defects@,
                defects@.len() as int,
            ),
            ChiselError::FileSizeMismatch { expected, actual } => "file size mismatch: expected "@
                + decimal(*expected as nat) + " bytes, got "@ + decimal(*actual as nat),
            ChiselError::LockFailed => "failed to acquire exclusive file lock"@,
            ChiselError::UnsupportedFormatVersion { found, expected } =>
                "unsupported on-disk format version: found "@ + decimal(*found as nat)
                + ", this build supports "@ + decimal(*expected as nat),
            ChiselError::Poisoned =>
                "database handle is poisoned after a previous fatal error; drop and reopen"@,
            ChiselError::CorruptPage { page_id } => "corrupt page structure at page "@ + decimal(
                *page_id as nat,
            ),
            ChiselError::InvalidPageId { page_id } => "invalid page id "@ + decimal(*page_id as nat)
                + " (out of range for file)"@,
            ChiselError::UnsupportedPageSize { stored, compiled } =>
                "page size mismatch: file was written with "@ + decimal(*stored as nat)
                + "-byte pages, this build uses "@ + decimal(*compiled as nat) + "-byte pages"@,
            ChiselError::NoEncryptionKey => "database is encrypted but no encryption_key was supplied"@,
            ChiselError::InvalidEncryptionKey =>
                "encryption key does not match any key slot (wrong passphrase or raw key)"@,
            ChiselError::EncryptionNotSupported =>
                "encryption not supported for this open (key supplied for a plaintext database, or unknown crypto algorithm)"@,
            ChiselError::NoFreeKeySlot =>
                "no free key slot: all 8 key slots are occupied (remove an unused key first)"@,
            ChiselError::LastKeySlot =>
                "refusing to remove the last active key slot (the database would become permanently unopenable)"@,
            ChiselError::DecryptionFailed { page_id } => "decryption/authentication failed for page "@
                + decimal(*page_id as nat),
        }
    }

    /// The message of the error. That of `IoError` goes on with the platform's
    /// own words for the cause.
    pub fn to_string(&self) -> (message: String)
        ensures
            match self {
                ChiselError::IoError(e) => exists|cause: String| #[trigger]
                    platform_words(e, cause) && message@ == "I/O error: "@ + cause@,
                _ => message@ == self.text(),
            },
    {
        let mut out: String = String::new();
        match self {
            ChiselError::InvalidHandle(h) => {
                out.append("invalid handle: ");
                push_decimal(&mut out, *h);
            },
            ChiselError::TagMismatch { handle, expected, actual } => {
                out.append("handle ");
                push_decimal(&mut out, *handle);
                out.append(" has tag ");
                push_decimal(&mut out, *actual as u64);
                out.append(", not the expected ");
                push_decimal(&mut out, *expected as u64);
            },
            ChiselError::NoActiveTransaction => out.append("no active transaction"),
            ChiselError::TransactionAlreadyActive => out.append("transaction already active"),
            ChiselError::SavepointNotFound(name) => {
                out.append("savepoint not found: ");
                out.append(name.as_str());
            },
            ChiselError::DuplicateSavepoint(name) => {
                out.append("duplicate savepoint: ");
                out.append(name.as_str());
            },
            ChiselError::ReadOnlyMode => out.append("database is read-only"),
            ChiselError::FileNotFound => out.append("database file not found"),
            ChiselError::InvalidRootName => out.append(
                "invalid named-root name (empty, too long, non-UTF-8, or contains NUL)",
            ),
            ChiselError::RootNameTableFull => out.append(
                "named-root table is full (all slots are in use)",
            ),
            ChiselError::InvalidSuperblockCount { value } => {
                out.append("invalid superblock_count ");
                push_decimal(&mut out, *value as u64);
                out.append("; must be in 2..=16");
            },
            ChiselError::InvalidArgon2Params { m_cost, t_cost, p_cost } => {
                out.append("invalid Argon2 parameters: m_cost ");
                push_decimal(&mut out, *m_cost as u64);
                out.append(", t_cost ");
                push_decimal(&mut out, *t_cost as u64);
                out.append(", p_cost ");
                push_decimal(&mut out, *p_cost as u64);
            },
            ChiselError::CacheFull { limit } => {
                out.append("page cache full: ");
                push_decimal(&mut out, *limit as u64);
                out.append(" dirty pages held; commit or roll back to free cache");
            },
            ChiselError::SpillwayFull { limit_bytes } => {
                if *limit_bytes == 0 {
                    out.append(
                        "spillway is disabled (spillway_max_bytes=0); commit or roll back to free cache",
                    );
                } else {
                    out.append("spillway full: ");
                    push_decimal(&mut out, *limit_bytes);
                    out.append(
                        "-byte limit reached; commit or roll back to free cache and spillway",
                    );
                }
            },
            ChiselError::TransactionInProgress => out.append(
                "configuration changes are only allowed between transactions; commit or roll back first",
            ),
            ChiselError::IoError(e) => {
                let cause: String = io_error_text(e);
                out = io_message(cause.as_str());
                assert(platform_words(e, cause));
            },
            ChiselError::ChecksumMismatch { page_id } => {
                out.append("checksum mismatch on page ");
                push_decimal(&mut out, *page_id);
            },
            ChiselError::CorruptSuperblock { defects } => {
                out.append("no valid superblock found");
                push_defects(&mut out, defects);
            },
            ChiselError::FileSizeMismatch { expected, actual } => {
                out.append("file size mismatch: expected ");
                push_decimal(&mut out, *expected);
                out.append(" bytes, got ");
                push_decimal(&mut out, *actual);
            },
            ChiselError::LockFailed => out.append("failed to acquire exclusive file lock"),
            ChiselError::UnsupportedFormatVersion { found, expected } => {
                out.append("unsupported on-disk format version: found ");
                push_decimal(&mut out, *found as u64);
                out.append(", this build supports ");
                push_decimal(&mut out, *expected as u64);
            },
            ChiselError::Poisoned => out.append(
                "database handle is poisoned after a previous fatal error; drop and reopen",
            ),
            ChiselError::CorruptPage { page_id } => {
                out.append("corrupt page structure at page ");
                push_decimal(&mut out, *page_id);
            },
            ChiselError::InvalidPageId { page_id } => {
                out.append("invalid page id ");
                push_decimal(&mut out, *page_id);
                out.append(" (out of range for file)");
            },
            ChiselError::UnsupportedPageSize { stored, compiled } => {
                out.append("page size mismatch: file was written with ");
                push_decimal(&mut out, *stored as u64);
                out.append("-byte pages, this build uses ");
                push_decimal(&mut out, *compiled as u64);
                out.append("-byte pages");
            },
            ChiselError::NoEncryptionKey => out.append(
                "database is encrypted but no encryption_key was supplied",
            ),
            ChiselError::InvalidEncryptionKey => out.append(
                "encryption key does not match any key slot (wrong passphrase or raw key)",
            ),
            ChiselError::EncryptionNotSupported => out.append(
                "encryption not supported for this open (key supplied for a plaintext database, or unknown crypto algorithm)",
            ),
            ChiselError::NoFreeKeySlot => out.append(
                "no free key slot: all 8 key slots are occupied (remove an unused key first)",
            ),
            ChiselError::LastKeySlot => out.append(
                "refusing to remove the last active key slot (the database would become permanently unopenable)",
            ),
            ChiselError::DecryptionFailed { page_id } => {
                out.append("decryption/authentication failed for page ");
                push_decimal(&mut out, *page_id);
            },
        }
        out
    }
}

/// Append the list of rejected slots.
fn push_defects(out: &mut String, defects: &Vec<SlotDefect>)
    ensures
        final(out)@ == old(out)@ + defects_text(defects@, defects@.len() as int),
{
    let mut i: usize = 0;
    while i < defects.len()
        invariant
            i <= defects@.len(),
            out@ == old(out)@ + defects_text(defects@, i as int),
        decreases defects@.len() - i,
    {
        if i == 0 {
            out.append(": slot ");
        } else {
            out.append("; slot ");
        }
        push_decimal(out, defects[i].slot as u64);
        out.append(": ");
        defects[i].defect.push_text(out);
        i += 1;
        assert(out@ =~= old(out)@ + defects_text(defects@, i as int));
    }
}

/// The platform has given these words for a storage error.
pub closed spec fn platform_words(e: &std::io::Error, words: String) -> bool {
    call_ensures(io_error_text, (e,), words)
}

/// The message of an `IoError` with this cause.
pub fn io_message(cause: &str) -> (message: String)
    ensures
        message@ == "I/O error: "@ + cause@,
{
    let mut message: String = String::new();
    message.append("I/O error: ");
    message.append(cause);
    assert(message@ =~= "I/O error: "@ + cause@);
    message
}

/// The `Display` text of a `std::io::Error`. It comes from the platform and
/// may depend on its language settings, so nothing is stated of it.
#[verifier::external_body]
fn io_error_text(e: &std::io::Error) -> (text: String) {
    e.to_string()
}

/// Whether a storage error reports a missing file.
pub uninterp spec fn is_not_found_error(e: std::io::Error) -> bool;

/// `std::io::Error::kind`, compared with `ErrorKind::NotFound`. The kind is
/// fixed when the error is made; the comparison is named
/// [`is_not_found_error`].
#[verifier::external_body]
fn io_error_is_not_found(e: &std::io::Error) -> (not_found: bool)
    ensures
        not_found == is_not_found_error(*e),
{
    matches!(e.kind(), std::io::ErrorKind::NotFound)
}

/// Classify a storage error: a missing file is the caller's mistake, anything
/// else is fatal.
pub fn classify_io_error(not_found: bool, e: std::io::Error) -> (error: ChiselError)
    ensures
        error == (if not_found { ChiselError::FileNotFound } else { ChiselError::IoError(e) }),
{
    if not_found {
        ChiselError::FileNotFound
    } else {
        ChiselError::IoError(e)
    }
}

/// What a storage error is to the caller.
pub open spec fn io_failure(e: std::io::Error) -> ChiselError {
    if is_not_found_error(e) {
        ChiselError::FileNotFound
    } else {
        ChiselError::IoError(e)
    }
}

impl From<std::io::Error> for ChiselError {
    fn from(e: std::io::Error) -> (error: Self) {
        let not_found = io_error_is_not_found(&e);
        classify_io_error(not_found, e)
    }
}

impl vstd::std_specs::convert::FromSpecImpl<std::io::Error> for ChiselError {
    open spec fn obeys_from_spec() -> bool {
        true
    }

    open spec fn from_spec(e: std::io::Error) -> Self {
        io_failure(e)
    }
}

impl From<crate::crypto::CryptoError> for ChiselError {
    fn from(e: crate::crypto::CryptoError) -> (error: Self) {
        ChiselError::InvalidEncryptionKey
    }
}

impl vstd::std_specs::convert::FromSpecImpl<crate::crypto::CryptoError> for ChiselError {
    open spec fn obeys_from_spec() -> bool {
        true
    }

    open spec fn from_spec(e: crate::crypto::CryptoError) -> Self {
        ChiselError::InvalidEncryptionKey
    }
}

} // verus!
