//! The error taxonomy shared by every component of the node.

use vstd::prelude::*;

verus! {

/// Everything that can go wrong inside a node.
#[derive(Clone, Copy, Debug, PartialEq, Eq, Structural)]
pub enum LedgerError {
    /// A wire event was malformed or carried an unknown tag.
    WrongCommandError,
    /// A socket failed, a read or write was short, or the acknowledgement was missing.
    NetworkError,
    /// A value could not be encoded: it is too long for the length field of
    /// its frame.
    SerializeError,
    /// A byte string is not the encoding of any value of the expected type.
    DeserializationError,
    /// A block failed validation or could not be applied to the ledger: it
    /// does not fit the end of the chain, or one of its commands fails.
    BlockError,
    /// Reserved for an attempt to start a chain that has been started. The
    /// storage reports such a block as a `BlockError`: the block does not
    /// name the tip.
    GenesisBlockError,
    /// An internal routing channel was closed, or an acknowledgement could
    /// not be written.
    SyncError,
    /// Reserved for an on-disk store.
    PersistenceError,
    /// The query path failed.
    ApiError,
    /// A transfer asked for more than the source asset holds. A command
    /// reports this; a block that holds such a command is a `BlockError`.
    InsufficientFunds,
    /// A transfer named a source asset that does not exist. A command
    /// reports this; a block that holds such a command is a `BlockError`.
    NoSuchAsset,
}

impl LedgerError {
    /// The text shown to an operator for each error.
    pub open spec fn spec_message(self) -> Seq<char> {
        match self {
            LedgerError::WrongCommandError => "Wrong command received"@,
            LedgerError::NetworkError => "Error while network_protocol interaction"@,
            LedgerError::SerializeError => "Serializing error"@,
            LedgerError::DeserializationError => "Deserializing error"@,
            LedgerError::BlockError => "Error while processing block"@,
            LedgerError::GenesisBlockError => "Genesis block already exists"@,
            LedgerError::SyncError => "Synchronization error"@,
            LedgerError::PersistenceError => "Persistence error"@,
            LedgerError::ApiError => "API error"@,
            LedgerError::InsufficientFunds => "Insufficient funds"@,
            LedgerError::NoSuchAsset => "No such asset"@,
        }
    }

    /// Renders the error as its operator-facing text.
    pub fn message(&self) -> (text: String)
        ensures
            text@ == self.spec_message(),
    {
        let text: &str = match self {
            LedgerError::WrongCommandError => "Wrong command received",
            LedgerError::NetworkError => "Error while network_protocol interaction",
            LedgerError::SerializeError => "Serializing error",
            LedgerError::DeserializationError => "Deserializing error",
            LedgerError::BlockError => "Error while processing block",
            LedgerError::GenesisBlockError => "Genesis block already exists",
            LedgerError::SyncError => "Synchronization error",
            LedgerError::PersistenceError => "Persistence error",
            LedgerError::ApiError => "API error",
            LedgerError::InsufficientFunds => "Insufficient funds",
            LedgerError::NoSuchAsset => "No such asset",
        };
        text.to_owned()
    }
}

} // verus!
