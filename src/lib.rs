//! Digest every surviving line of large text inputs and emit the digests in
//! globally sorted order, with an external sort: sorted runs, then a k-way merge.

pub mod order;
pub mod normalize;
pub mod digest;
pub mod hasher;
pub mod runs;
pub mod merge;
pub mod sink;
pub mod pipeline;
pub mod prefix;
