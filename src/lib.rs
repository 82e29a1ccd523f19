//! Reading and writing EXIF metadata held in image containers: the metadata
//! model with its directory lookup and tag traversal, and the PNG chunk codec.

pub mod bytes;
pub mod codec;
pub mod metadata;
pub mod png;
