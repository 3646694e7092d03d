//! A chunked n-dimensional array store in the style of the N5 format.
//!
//! A store holds zero or more datasets, each described by an attribute
//! record (shape, chunking, element type, codec) and backed by a sparse
//! collection of fixed-shape blocks, addressed by grid coordinate and
//! kept in codec-compressed form.  Dense arrays over arbitrary bounding
//! boxes are assembled from, and scattered into, the overlapping blocks.
//!
//! All element buffers are flat byte vectors; the element type enters the
//! algorithms only through its byte width, so one generic gather/scatter
//! routine serves all ten numeric element kinds.

pub mod errors;
pub mod datatype;
pub mod strutil;
pub mod coords;
pub mod buffer;
pub mod codec;
pub mod attrs;
pub mod store;
pub mod ndarray;
pub mod dataset;
pub mod laws;
