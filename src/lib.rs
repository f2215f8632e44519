//! Integer square roots and single-precision decomposition written so that
//! the same code runs on plain machine words and on opaque words that cannot
//! be branched on.
//!
//! - `ops`: the operations a backend supplies, and the plain backend.
//! - `oblivious`: order search, leading-bit scan and the digit-recurrence
//!   square root, with a data-independent number of comparisons and selects.
//! - `codec`: taking a magnitude apart into sign, exponent and mantissa, and
//!   packing it back.
//! - `pipeline`: the square root of a packed single-precision word.
//! - `sqrt`, `ieee754`: the same routines on plain words, where an early exit
//!   is allowed.
//! - `model`, `schema`: the rows and requests of the distance service.
//! - `service`: reading a distance request and building its reply, with the
//!   serialisation and digest of the outside crates.

pub mod codec;
pub mod ieee754;
pub mod model;
pub mod oblivious;
pub mod ops;
pub mod pipeline;
pub mod schema;
pub mod service;
pub mod sqrt;
