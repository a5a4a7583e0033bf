use chisel::error::io_message;
use chisel::superblock::{SlotDefect, SuperblockDefect};
use chisel::ChiselError;
use std::io;

fn documented_is_fatal(e: &ChiselError) -> bool {
    match e {
        ChiselError::InvalidHandle(_)
        | ChiselError::NoActiveTransaction
        | ChiselError::TransactionAlreadyActive
        | ChiselError::SavepointNotFound(_)
        | ChiselError::DuplicateSavepoint(_)
        | ChiselError::ReadOnlyMode
        | ChiselError::FileNotFound
        | ChiselError::InvalidRootName
        | ChiselError::RootNameTableFull
        | ChiselError::InvalidSuperblockCount { .. }
        | ChiselError::CacheFull { .. }
        | ChiselError::SpillwayFull { .. }
        | ChiselError::TransactionInProgress
        | ChiselError::TagMismatch { .. }
        | ChiselError::Poisoned
        | ChiselError::NoEncryptionKey
        | ChiselError::InvalidEncryptionKey
        | ChiselError::EncryptionNotSupported
        | ChiselError::NoFreeKeySlot
        | ChiselError::LastKeySlot => false,
        ChiselError::IoError(_)
        | ChiselError::ChecksumMismatch { .. }
        | ChiselError::CorruptSuperblock { .. }
        | ChiselError::FileSizeMismatch { .. }
        | ChiselError::LockFailed
        | ChiselError::UnsupportedFormatVersion { .. }
        | ChiselError::CorruptPage { .. }
        | ChiselError::InvalidPageId { .. }
        | ChiselError::UnsupportedPageSize { .. }
        | ChiselError::DecryptionFailed { .. } => true,
        _ => unreachable!(),
    }
}

#[test]
fn ioerror_source_returns_inner_io_error() {
    let inner = io::Error::new(io::ErrorKind::PermissionDenied, "denied");
    let e: ChiselError = inner.into();
    let src = e
        .source()
        .expect("IoError must expose its inner error via source()");
    assert_eq!(src.kind(), io::ErrorKind::PermissionDenied);
}

#[test]
fn non_io_variants_have_no_source() {
    let cases: [ChiselError; 5] = [
        ChiselError::InvalidHandle(0),
        ChiselError::NoActiveTransaction,
        ChiselError::ChecksumMismatch { page_id: 0 },
        ChiselError::CorruptSuperblock { defects: vec![] },
        ChiselError::Poisoned,
    ];
    for e in &cases {
        assert!(
            e.source().is_none(),
            "expected source() == None for {e:?}, got Some(...)"
        );
    }
}

#[test]
fn corrupt_page_variant_contract() {
    let e = ChiselError::CorruptPage { page_id: 42 };
    assert!(
        e.is_fatal(),
        "CorruptPage must be fatal so the manager poisons"
    );
    assert!(e.source().is_none(), "CorruptPage has no inner source");
    let msg = e.to_string();
    assert!(
        msg.contains("42"),
        "Display message {msg:?} should mention page id 42"
    );
}

#[test]
fn corrupt_superblock_display_format() {
    let empty = ChiselError::CorruptSuperblock { defects: vec![] };
    assert_eq!(empty.to_string(), "no valid superblock found");
    let one = ChiselError::CorruptSuperblock {
        defects: vec![SlotDefect {
            slot: 0,
            defect: SuperblockDefect::BadChecksum,
        }],
    };
    assert_eq!(
        one.to_string(),
        "no valid superblock found: slot 0: bad checksum"
    );
    let many = ChiselError::CorruptSuperblock {
        defects: vec![
            SlotDefect {
                slot: 0,
                defect: SuperblockDefect::BadChecksum,
            },
            SlotDefect {
                slot: 1,
                defect: SuperblockDefect::BadMagic,
            },
            SlotDefect {
                slot: 2,
                defect: SuperblockDefect::BadCount(99),
            },
        ],
    };
    assert_eq!(
        many.to_string(),
        "no valid superblock found: slot 0: bad checksum; slot 1: bad magic; slot 2: bad superblock_count 99"
    );
}

#[test]
fn is_fatal_matches_documented_classification_for_every_variant() {

    let all = [
        ChiselError::InvalidHandle(0),
        ChiselError::NoActiveTransaction,
        ChiselError::TransactionAlreadyActive,
        ChiselError::SavepointNotFound("s".to_string()),
        ChiselError::DuplicateSavepoint("s".to_string()),
        ChiselError::ReadOnlyMode,
        ChiselError::FileNotFound,
        ChiselError::InvalidRootName,
        ChiselError::RootNameTableFull,
        ChiselError::InvalidSuperblockCount { value: 0 },
        ChiselError::CacheFull { limit: 0 },
        ChiselError::SpillwayFull { limit_bytes: 0 },
        ChiselError::TransactionInProgress,
        ChiselError::TagMismatch {
            handle: 0,
            expected: 0,
            actual: 0,
        },
        ChiselError::Poisoned,
        ChiselError::IoError(io::Error::other("io")),
        ChiselError::ChecksumMismatch { page_id: 0 },
        ChiselError::CorruptSuperblock { defects: vec![] },
        ChiselError::FileSizeMismatch {
            expected: 0,
            actual: 0,
        },
        ChiselError::LockFailed,
        ChiselError::UnsupportedFormatVersion {
            found: 0,
            expected: 0,
        },
        ChiselError::CorruptPage { page_id: 0 },
        ChiselError::InvalidPageId { page_id: 0 },
        ChiselError::UnsupportedPageSize {
            stored: 0,
            compiled: 0,
        },
        ChiselError::NoEncryptionKey,
        ChiselError::InvalidEncryptionKey,
        ChiselError::EncryptionNotSupported,
        ChiselError::NoFreeKeySlot,
        ChiselError::LastKeySlot,
        ChiselError::DecryptionFailed { page_id: 0 },
    ];
    for e in &all {
        assert_eq!(
            e.is_fatal(),
            documented_is_fatal(e),
            "is_fatal() disagrees with the documented Fatal/Operational block for {e:?}"
        );
    }
    assert_eq!(all.iter().filter(|e| e.is_fatal()).count(), 10);
}

#[test]
fn encryption_error_classification() {
    assert!(!ChiselError::NoEncryptionKey.is_fatal());
    assert!(!ChiselError::InvalidEncryptionKey.is_fatal());
    assert!(!ChiselError::EncryptionNotSupported.is_fatal());
    assert!(!ChiselError::NoFreeKeySlot.is_fatal());
    assert!(!ChiselError::LastKeySlot.is_fatal());
    assert!(ChiselError::DecryptionFailed { page_id: 7 }.is_fatal());

    let msg = ChiselError::DecryptionFailed { page_id: 7 }.to_string();
    assert!(
        msg.contains('7'),
        "Display {msg:?} should mention page id 7"
    );

    for e in [
        ChiselError::NoEncryptionKey,
        ChiselError::InvalidEncryptionKey,
        ChiselError::EncryptionNotSupported,
        ChiselError::NoFreeKeySlot,
        ChiselError::LastKeySlot,
        ChiselError::DecryptionFailed { page_id: 0 },
    ] {
        assert!(e.source().is_none());
    }
}

#[test]
fn an_io_error_says_its_cause() {
    assert_eq!(io_message("disk on fire"), "I/O error: disk on fire");
    let e = ChiselError::from(io::Error::new(io::ErrorKind::Other, "disk on fire"));
    assert_eq!(e.to_string(), "I/O error: disk on fire");
}
