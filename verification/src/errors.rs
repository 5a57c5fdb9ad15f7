//! Why a file of the log could not be read or written.

use vstd::prelude::*;
use vstd::std_specs::convert::FromSpecImpl;

use crate::uintn::UintN;
use crate::wal_entry::WalEntryError;
use crate::wal_entry_v1::WalEntryV1Error;
use crate::wal_header_v1::{AnyWalHeaderError, WalHeaderV1Error};

verus! {

/// Why a file of the log could not be read or written.
#[derive(Debug, PartialEq, Eq)]
pub enum WalError {
    /// There is no such file.
    WalNotFound,
    /// The file with this id has no whole header.
    WalEmpty(UintN),
    WalEntryError(WalEntryError),
    WalEntryV1Error(WalEntryV1Error),
    WalHeaderError(AnyWalHeaderError),
}

impl From<AnyWalHeaderError> for WalError {
    fn from(e: AnyWalHeaderError) -> (r: Self) {
        WalError::WalHeaderError(e)
    }
}

impl FromSpecImpl<AnyWalHeaderError> for WalError {
    open spec fn obeys_from_spec() -> bool {
        true
    }

    open spec fn from_spec(e: AnyWalHeaderError) -> Self {
        WalError::WalHeaderError(e)
    }
}

impl From<WalHeaderV1Error> for WalError {
    fn from(e: WalHeaderV1Error) -> (r: Self) {
        WalError::WalHeaderError(AnyWalHeaderError::V1(e))
    }
}

impl FromSpecImpl<WalHeaderV1Error> for WalError {
    open spec fn obeys_from_spec() -> bool {
        true
    }

    open spec fn from_spec(e: WalHeaderV1Error) -> Self {
        WalError::WalHeaderError(AnyWalHeaderError::V1(e))
    }
}

impl From<WalEntryV1Error> for WalError {
    fn from(e: WalEntryV1Error) -> (r: Self) {
        WalError::WalEntryV1Error(e)
    }
}

impl FromSpecImpl<WalEntryV1Error> for WalError {
    open spec fn obeys_from_spec() -> bool {
        true
    }

    open spec fn from_spec(e: WalEntryV1Error) -> Self {
        WalError::WalEntryV1Error(e)
    }
}

} // verus!
