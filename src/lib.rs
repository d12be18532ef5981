//! UTF-8 validation over 64-byte chunks with a branch-free, sixteen-lane
//! classification of every byte pair.
pub mod error;
pub mod model;
pub mod simd;
pub mod utf8;
pub mod validator;

pub use error::Utf8Error;
pub use simd::Simd8x16;
pub use utf8::{from_utf8, validate_chunks};
pub use validator::{
    is_ascii, is_incomplete, multibyte_lengths, must_be_2_3_continuation, special_cases,
    Utf8Validator,
};
