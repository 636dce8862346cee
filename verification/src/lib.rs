//! WTF-8: a superset of UTF-8 that can additionally carry unpaired
//! UTF-16 surrogate code points, so that strings survive a round trip
//! through ill-formed UTF-16 while staying byte-compatible with UTF-8
//! whenever no surrogate is present.
//!
//! The crate offers:
//! - [`CodePoint`]: a validated value in `0 ..= 0x10FFFF`;
//! - [`Wtf8`]: an immutable well-formed WTF-8 byte sequence;
//! - [`Wtf8Buf`]: a growable buffer that keeps the same well-formedness
//!   invariant across every mutation, pairing surrogates at append
//!   boundaries exactly as concatenating ill-formed UTF-16 would;
//! - producers of code points and of UTF-16 code units;
//! - conversions to and from UTF-8 (strict and lossy) and UTF-16.
//!
//! The byte format itself is specified in [`codec`], and the library's
//! cross-function laws are stated and proved in [`laws`].

pub mod codec;
pub mod code_point;
pub mod iters;
pub mod wtf8;
pub mod buf;
pub mod laws;
pub mod render;

pub use buf::Wtf8Buf;
pub use code_point::CodePoint;
pub use iters::EncodeWide;
pub use iters::Wtf8CodePoints;
pub use wtf8::Wtf8;
pub use wtf8::is_code_point_boundary;
pub use wtf8::slice_unchecked;
