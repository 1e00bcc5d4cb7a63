//! Value runtime for an embedded, Python-like configuration language.
//!
//! Every runtime value is a small, copyable [`value::Value`] handle; container
//! payloads (lists and tuples) live in an arena, the [`heap::Heap`], so that
//! any number of holders can share one payload and see its mutations.  The
//! list variant implements the full capability contract: representation,
//! hashing, ordering, indexing, slicing, concatenation, repetition, in-place
//! mutation, and recursive freezing.

pub mod value;
pub mod heap;
pub mod model;
pub mod index;
pub mod list;
pub mod repr;
pub mod cmp;
pub mod laws;

pub use value::Value;
pub use value::ValueError;
pub use heap::Heap;
pub use heap::List;
pub use heap::Tuple;
