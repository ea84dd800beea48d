//! An embedded, persistent key-value store backed by an append-only command
//! log split into numbered segment files ("generations"), with an in-memory
//! index from key to the byte range of its most recent committed record, and
//! a compaction procedure that reclaims space held by superseded records.
//!
//! The store itself operates on in-memory segment contents; reading segment
//! files into byte vectors and mirroring appends back to disk is left to the
//! embedding program.

mod codec;
mod error;
mod gens;
mod index;
mod laws;
mod store;
mod stream;

pub use codec::Command;
pub use codec::Decoded;
pub use codec::append_cmd;
pub use codec::decode_cmd;
pub use codec::encode_cmd;
pub use codec::read_cmd;
pub use error::KvsError;
pub use gens::lemma_parse_gen_name;
pub use gens::log_path;
pub use gens::parse_gen_file_name;
pub use gens::sorted_gen_list;
pub use index::CmdOffset;
pub use index::Index;
pub use index::IndexEntry;
pub use laws::law_set_then_get;
pub use laws::law_set_then_remove;
pub use laws::law_set_twice;
pub use store::COMPACTION_THRESHOLD;
pub use store::KvStore;
pub use store::SegmentFile;
pub use store::law_compaction_reclaims;
pub use store::law_reopen;
pub use store::load;
pub use stream::ReaderPos;
pub use stream::WriterPos;
