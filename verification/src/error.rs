//! The errors of the store's operations.
use vstd::prelude::*;

verus! {

/// What can go wrong in a store operation.
pub enum KvStoreError {
    /// An I/O failure, with its message.
    Io(String),
    /// A record that did not decode, with its message.
    Serde(String),
    /// `remove` of a key that the store does not hold.
    KeyNotFound,
    /// Log bytes that do not split into whole records, or records that do not
    /// match the commands decoded from them.
    CorruptLog,
    /// The working directory was last used by another engine.
    EngineMismatch,
    /// A failure of the embedded `sled` database, with its message.
    Sled(String),
    /// A stored value that is not UTF-8.
    Utf8,
}

impl KvStoreError {
    /// The text of the message that describes the error.
    pub open spec fn message_text(&self) -> Seq<char> {
        match self {
            KvStoreError::Io(m) => "IO error: "@ + m@,
            KvStoreError::Serde(m) => "serde_json error: "@ + m@,
            KvStoreError::KeyNotFound => "get error: Key not found"@,
            KvStoreError::CorruptLog => "corrupt log"@,
            KvStoreError::EngineMismatch => "engine mismatch"@,
            KvStoreError::Sled(m) => "sled error: "@ + m@,
            KvStoreError::Utf8 => "value is not UTF-8"@,
        }
    }

    /// The message that describes the error.
    pub fn message(&self) -> (msg: String)
        ensures
            msg@ == self.message_text(),
    {
        match self {
            KvStoreError::Io(m) => {
                let mut msg = String::from_str("IO error: ");
                msg.append(m.as_str());
                msg
            },
            KvStoreError::Serde(m) => {
                let mut msg = String::from_str("serde_json error: ");
                msg.append(m.as_str());
                msg
            },
            KvStoreError::KeyNotFound => String::from_str("get error: Key not found"),
            KvStoreError::CorruptLog => String::from_str("corrupt log"),
            KvStoreError::EngineMismatch => String::from_str("engine mismatch"),
            KvStoreError::Sled(m) => {
                let mut msg = String::from_str("sled error: ");
                msg.append(m.as_str());
                msg
            },
            KvStoreError::Utf8 => String::from_str("value is not UTF-8"),
        }
    }
}

/// The results of store operations.
pub type Result<T> = core::result::Result<T, KvStoreError>;

} // verus!
