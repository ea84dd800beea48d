use vstd::prelude::*;

verus! {

/// The errors the store can report.
///
/// `KeyNotFound` is recoverable: `remove` returns it for an absent key and
/// leaves the store unchanged. `Serialization` means a record in a segment
/// failed to decode (on-disk corruption), and is fatal to loading that
/// store. `CorruptIndex` would mean an index entry's byte range does not
/// decode to a matching record; the store's invariant rules it out, so no
/// verified operation ever returns it.
#[derive(Debug, PartialEq, Eq, Structural, Clone, Copy)]
pub enum KvsError {
    KeyNotFound,
    Serialization,
    CorruptIndex,
}

impl KvsError {
    /// The description `message` returns for each error.
    pub open spec fn message_view(self) -> Seq<char> {
        match self {
            KvsError::KeyNotFound => "Key not found"@,
            KvsError::Serialization => "a record in the log failed to decode"@,
            KvsError::CorruptIndex => "an index entry does not match the log"@,
        }
    }

    /// A short human-readable description, for embedding programs to print.
    pub fn message(&self) -> (r: &'static str)
        ensures
            r@ == self.message_view(),
    {
        match self {
            KvsError::KeyNotFound => "Key not found",
            KvsError::Serialization => "a record in the log failed to decode",
            KvsError::CorruptIndex => "an index entry does not match the log",
        }
    }
}

} // verus!
