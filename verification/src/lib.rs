//! Reed-Solomon erasure coding over GF(256): a payload is encoded into data shards
//! and parity shards, each a stream of checksummed chunks, and any `data_shards`
//! of the shards give the payload back.
//!
//! - `field`, `gf8`: the field of the bytes, and the laws of a field proved of it;
//! - `linalg`, `elimination`, `vandermonde`, `systematic`: matrices as mathematics,
//!   and why elimination inverts, why a Vandermonde matrix can be brought into
//!   systematic form, and why any `data_shards` rows of the result suffice;
//! - `matrix`, `encoding`: the matrices that are computed with;
//! - `chunk`: one chunk on a stream, with its checksum;
//! - `codec`, `encoder`, `unframer`: what is written and what is recovered, and
//!   the engine that does it;
//! - `laws`: decoding undoes encoding.
pub mod chunk;
pub mod codec;
pub mod elimination;
pub mod encoder;
pub mod encoding;
pub mod field;
pub mod gf8;
pub mod laws;
pub mod linalg;
pub mod matrix;
pub mod systematic;
pub mod unframer;
pub mod vandermonde;

pub use encoder::{Error, ReedSolomonEncoder};
