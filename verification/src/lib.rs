//! Approximate string matching over a fixed vocabulary with the symmetric
//! deletion technique: words are indexed under every string that a bounded
//! number of single-character deletions produces, a query is expanded the same
//! way, and the words found are checked against the true edit distance.

pub mod deletes;
pub mod distance;
pub mod embedded;
pub mod index;
pub mod ingest;
pub mod lookup;
pub mod ranking;
pub mod snapshot;
pub mod store;
pub mod symspell;
pub mod text;

pub use deletes::generate_deletes;
pub use distance::damerau_levenshtein;
pub use embedded::EmbeddedSymSpell;
pub use ranking::{Suggestion, Verbosity};
pub use snapshot::Snapshot;
pub use symspell::SymSpell;
