//! SIMD-style dispatch, chunked iteration primitives, and text normalization.
//!
//! The crate has two halves. The first is a data-parallel kernel framework:
//! a dispatcher that picks one vector width from a fixed ladder
//! ([`dispatch`]), and width-agnostic chunked iteration primitives over
//! generic lane values ([`chunks`]). The second half is text normalization
//! with byte-offset tracking ([`normalizers`]): BERT-style lowercasing and
//! accent stripping, Unicode normalization forms, regex replacement, and
//! sequencing, each returning a mapping from byte offsets of the normalized
//! text back to the original text.

pub mod chardata;
pub mod chunks;
pub mod dispatch;
pub mod encoding;
pub mod normalizers;
pub mod softmax;
