//! Description and canonical textual encoding of the public interface (ABI)
//! of a compiled program.
//!
//! The ABI pairs named, visibility-flagged inputs with structural types and
//! lists the structural types of the outputs.  A structural type is drawn
//! from a closed set of kinds: a field element, a boolean, a fixed-length
//! array, or a struct with ordered, named members.
//!
//! The [`types`] module defines the type schema and its mathematical model;
//! the [`abi`] module defines the ABI document, its derivation from an entry
//! function and the projection to a bare signature; [`encode`] and [`decode`]
//! give the recursive, discriminant-based textual encoding and its inverse;
//! [`pretty`] renders the same document with indentation for human readers;
//! and [`laws`] proves that the encoding is injective, so that decoding an
//! encoded document recovers the original value exactly.

pub mod abi;
pub mod decode;
pub mod encode;
pub mod laws;
pub mod pretty;
pub mod types;
