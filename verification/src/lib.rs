//! Two associative containers built from first principles over a flat,
//! indexable storage area: a separately chained table and an
//! open-addressed table with linear probing and an optional Robin Hood
//! displacement policy.
//!
//! Both variants share the same interface (`insert`, `get`, `remove`) and
//! are specified against a mathematical `Map` view of their contents.

mod chained;
mod keys;
mod laws;
mod open_addressing;

pub use chained::Basic;
pub use keys::FNV_OFFSET;
pub use keys::FNV_PRIME;
pub use keys::HashKey;
pub use keys::bucket_of;
pub use keys::fnv1a_step;
pub use keys::scramble64;
pub use laws::lemma_distinct_inserts_round_trip;
pub use laws::lemma_overwrite_counts_once;
pub use laws::lemma_remove_key;
pub use laws::map_of_pairs;
pub use open_addressing::Advanced;
pub use open_addressing::ProbePolicy;
pub use keys::fnv1a;
pub use keys::hash_chars;
pub use keys::str_eq;
