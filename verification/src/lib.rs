//! A copy-on-write overlay storage engine.
//!
//! A read-only *seed* store is paired with a writable *overlay* and a
//! byte-granularity *mask* that records, one sentinel byte per data byte,
//! which positions have been redirected to the overlay. The triple behaves
//! as one ordinary writable store without the seed ever being mutated.
//!
//! The engine here works on in-memory stores and is verified; a front end
//! that keeps the triple in files and exposes it as a virtual block device
//! drives the same logic through these functions.

use vstd::prelude::*;

pub mod apply;
pub mod arguments;
pub mod block_device;
pub mod buffer;
pub mod clean;
pub mod model;

verus! {

/// The backing store triple plus the I/O granularity used when scanning it.
///
/// The overlay and the mask are aligned 1:1 with the seed by offset and are
/// read as zero-extended streams, so they may be shorter or longer than the
/// seed without changing what the triple means.
pub struct Files {
    /// Read-only original data; defines the extent of the whole triple.
    pub seed: Vec<u8>,
    /// Holds the redirected data wherever the mask says so.
    pub overlay: Vec<u8>,
    /// One sentinel byte per data byte: `SET` redirects to the overlay.
    pub mask: Vec<u8>,
    /// Chunk size for scanning and transport requests, in bytes.
    pub block_size: u32,
}

impl Files {
    /// The triple is usable: chunked scans need a positive chunk size.
    pub open spec fn wf(&self) -> bool {
        self.block_size >= 1
    }

    /// The authoritative contents: per byte of the seed's extent, the
    /// overlay's byte where the mask is `SET`, the seed's byte otherwise.
    pub open spec fn content(&self) -> Seq<u8> {
        model::content(self.seed@, self.overlay@, self.mask@)
    }
}

} // verus!
