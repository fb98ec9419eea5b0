//! Core of a token-gated survey service: the survey document and its
//! invariants, the guarded read/write/delete operations, the form codec that
//! renders answer state and parses submitted fields, the snapshot codec that
//! persists the document, the capability-token resolver, and the import
//! converter.  All request routing, file handling and templating live outside
//! this crate and talk to it through plain values.

pub mod convert;
pub mod document;
pub mod error;
pub mod formcodec;
pub mod numbers;
pub mod snapshot;
pub mod store;
pub mod strutil;
pub mod tokens;
