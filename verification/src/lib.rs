//! Typed views over the memory of a separate, live target process.
//!
//! A monitoring process that can read raw bytes at absolute addresses of a
//! managed-runtime target can interpret the target's object layout through
//! the views of this crate: pointers, fixed arrays, dynamically sized lists,
//! hash-based maps and sets, and UTF-16 strings. Every view is a lightweight
//! coordinate (an address plus cached header metadata), resolved once from a
//! [`MemReader`] and immutable afterwards.

mod reader;
mod shaped;
mod pointer;
mod array;
mod list;
mod cstring;
mod map;
mod binding;

pub use reader::MemReader;
pub use reader::SnapshotReader;
pub use shaped::Shaped;
pub use pointer::Binding;
pub use pointer::Pointer;
pub use pointer::Resolve;
pub use array::Array;
pub use array::ArrayIter;
pub use list::List;
pub use cstring::CSString;
pub use map::Entry;
pub use map::CSMap;
pub use map::CSSet;
pub use binding::BindShape;
pub use binding::ClassDesc;
pub use binding::FieldDesc;
pub use binding::GenError;
pub use binding::Reflection;
pub use binding::ClassBinding;
pub use binding::TableReflection;
