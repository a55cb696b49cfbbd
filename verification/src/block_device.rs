//! The masked overlay engine: the read/write/flush/trim capability set a
//! block-device transport drives, here against in-memory stores.
//!
//! Every operation is specified as a step of the store model
//! ([`EngineOp`], [`engine_step`]), which is what the seed-immutability
//! law is proved over.

use vstd::prelude::*;

use crate::arguments::TrimPolicy;
use crate::buffer::{all_bytes_are, filled, merge, read_range, splice};
use crate::model::{content, content_byte, repeated, store_write, stream_byte, SET, UNSET};
use crate::Files;

verus! {

/// The three stores as streams: the state the engine's operations step.
pub struct StoreModel {
    /// Read-only original data.
    pub seed: Seq<u8>,
    /// Redirected data.
    pub overlay: Seq<u8>,
    /// One sentinel byte per data byte.
    pub mask: Seq<u8>,
}

/// One call of the engine's capability set.
pub enum EngineOp {
    /// Read a byte range of the authoritative contents.
    Read {
        /// First byte of the range.
        offset: int,
        /// Length of the range in bytes.
        len: nat,
    },
    /// Redirect a byte range to the overlay and store `data` there.
    Write {
        /// First byte of the range.
        offset: int,
        /// The bytes written.
        data: Seq<u8>,
    },
    /// Give a byte range back: revert it to the seed.
    Trim {
        /// First byte of the range.
        offset: int,
        /// Length of the range in bytes.
        len: nat,
    },
    /// Persist pending overlay and mask writes.
    Flush,
}

/// What one operation does to the stores: a write redirects its range to
/// the overlay, a trim reverts its range to the seed, and no operation
/// touches the seed.
pub open spec fn engine_step(s: StoreModel, op: EngineOp) -> StoreModel {
    match op {
        EngineOp::Read { .. } => s,
        EngineOp::Flush => s,
        EngineOp::Write { offset, data } => StoreModel {
            seed: s.seed,
            overlay: store_write(s.overlay, offset, data),
            mask: store_write(s.mask, offset, repeated(SET, data.len())),
        },
        EngineOp::Trim { offset, len } => StoreModel {
            seed: s.seed,
            overlay: store_write(s.overlay, offset, repeated(UNSET, len)),
            mask: store_write(s.mask, offset, repeated(UNSET, len)),
        },
    }
}

/// The state after running a whole sequence of operations in order.
pub open spec fn engine_run(s: StoreModel, ops: Seq<EngineOp>) -> StoreModel
    decreases ops.len(),
{
    if ops.len() == 0 {
        s
    } else {
        engine_step(engine_run(s, ops.drop_last()), ops.last())
    }
}

/// The engine: the store triple together with the trim policy chosen at
/// construction time.
pub struct Virtual {
    /// The backing store triple.
    pub files: Files,
    /// How `trim` gives a range back. Both policies leave the range
    /// reading as zeros from the overlay and the mask; they differ only in
    /// whether the backing storage is overwritten or deallocated, which an
    /// in-memory store does not distinguish.
    pub trim_policy: TrimPolicy,
}

impl Virtual {
    /// The triple as the store model the operations are specified over.
    pub open spec fn model(&self) -> StoreModel {
        StoreModel { seed: self.files.seed@, overlay: self.files.overlay@, mask: self.files.mask@ }
    }

    /// Reads the authoritative bytes of `[offset, offset + len)`: per byte,
    /// the overlay's where the mask is `SET`, the seed's otherwise.
    pub fn read(&self, offset: usize, len: usize) -> (r: Vec<u8>)
        requires
            offset + len <= self.files.seed.len(),
        ensures
            r@ == self.files.content().subrange(offset as int, offset + len),
    {
        let ghost seed = self.files.seed@;
        let ghost overlay = self.files.overlay@;
        let ghost mask = self.files.mask@;
        let mask_buf = read_range(&self.files.mask, offset, len);
        let r: Vec<u8>;
        if all_bytes_are(&mask_buf, UNSET) {
            r = read_range(&self.files.seed, offset, len);
            proof {
                assert forall|j: int| 0 <= j < len implies r@[j] == content_byte(
                    seed,
                    overlay,
                    mask,
                    offset + j,
                ) by {
                    assert(mask_buf@[j] == stream_byte(mask, offset + j));
                    assert(mask_buf@[j] == UNSET);
                }
            }
        } else if all_bytes_are(&mask_buf, SET) {
            r = read_range(&self.files.overlay, offset, len);
            proof {
                assert forall|j: int| 0 <= j < len implies r@[j] == content_byte(
                    seed,
                    overlay,
                    mask,
                    offset + j,
                ) by {
                    assert(mask_buf@[j] == stream_byte(mask, offset + j));
                    assert(mask_buf@[j] == SET);
                }
            }
        } else {
            let seed_buf = read_range(&self.files.seed, offset, len);
            let overlay_buf = read_range(&self.files.overlay, offset, len);
            r = merge(&seed_buf, &overlay_buf, &mask_buf);
            proof {
                assert forall|j: int| 0 <= j < len implies r@[j] == content_byte(
                    seed,
                    overlay,
                    mask,
                    offset + j,
                ) by {
                    assert(mask_buf@[j] == stream_byte(mask, offset + j));
                    assert(seed_buf@[j] == stream_byte(seed, offset + j));
                    assert(overlay_buf@[j] == stream_byte(overlay, offset + j));
                }
            }
        }
        proof {
            assert forall|j: int| 0 <= j < len implies self.files.content().subrange(
                offset as int,
                offset + len,
            )[j] == r@[j] by {
                assert(self.files.content()[offset + j] == content_byte(
                    seed,
                    overlay,
                    mask,
                    offset + j,
                ));
            }
            assert(r@ =~= self.files.content().subrange(offset as int, offset + len));
        }
        r
    }

    /// Writes `data` to the overlay at `offset` and marks the range `SET`
    /// in the mask. The seed is never touched, and the effect is visible
    /// to every subsequent read of the range.
    pub fn write(&mut self, offset: usize, data: &Vec<u8>)
        requires
            offset + data.len() <= old(self).files.seed.len(),
        ensures
            final(self).model() == engine_step(
                old(self).model(),
                EngineOp::Write { offset: offset as int, data: data@ },
            ),
            final(self).files.block_size == old(self).files.block_size,
            final(self).trim_policy == old(self).trim_policy,
    {
        splice(&mut self.files.overlay, offset, data);
        let sentinels = filled(SET, data.len());
        splice(&mut self.files.mask, offset, &sentinels);
    }

    /// Persists pending overlay and mask writes. The in-memory store has
    /// nothing pending, so the state is unchanged; the file-backed front
    /// end flushes both files here.
    pub fn flush(&mut self)
        ensures
            final(self).model() == engine_step(old(self).model(), EngineOp::Flush),
            final(self).files.block_size == old(self).files.block_size,
            final(self).trim_policy == old(self).trim_policy,
    {
    }

    /// Gives `[offset, offset + len)` back: zeroes the range in the
    /// overlay and the mask, reverting it to the seed. Under `ZeroFill`
    /// the zeros are written, under `Reclaim` the backing storage is
    /// deallocated instead and reads back as zeros; the contents end up
    /// the same either way.
    pub fn trim(&mut self, offset: usize, len: usize)
        requires
            offset + len <= old(self).files.seed.len(),
        ensures
            final(self).model() == engine_step(
                old(self).model(),
                EngineOp::Trim { offset: offset as int, len: len as nat },
            ),
            final(self).files.block_size == old(self).files.block_size,
            final(self).trim_policy == old(self).trim_policy,
    {
        let zeros = filled(UNSET, len);
        splice(&mut self.files.overlay, offset, &zeros);
        splice(&mut self.files.mask, offset, &zeros);
    }

    /// Best-effort notification that the device is being detached; the
    /// core has nothing to do.
    pub fn unmount(&self) {
    }

    /// The I/O granularity of the exposed device, in bytes.
    pub fn block_size(&self) -> (r: u32)
        ensures
            r == self.files.block_size,
    {
        self.files.block_size
    }

    /// The extent of the exposed device in blocks: the seed defines it,
    /// however long the overlay and the mask are.
    pub fn blocks(&self) -> (r: u64)
        requires
            self.files.wf(),
        ensures
            r == self.files.seed@.len() as int / self.files.block_size as int,
    {
        (self.files.seed.len() as u64) / (self.files.block_size as u64)
    }
}

/// Law: the seed is immutable outside `apply`. No sequence of engine
/// operations — reads, writes, trims, flushes — changes the seed's bytes.
pub proof fn lemma_seed_immutable(s: StoreModel, ops: Seq<EngineOp>)
    ensures
        engine_run(s, ops).seed == s.seed,
    decreases ops.len(),
{
    if ops.len() > 0 {
        lemma_seed_immutable(s, ops.drop_last());
    }
}

/// Law: round trip. Writing `data` at `offset` and reading the same range
/// back yields exactly `data`, whatever the stores held before.
pub proof fn lemma_write_read_round_trip(s: StoreModel, offset: int, data: Seq<u8>)
    requires
        0 <= offset,
        offset + data.len() <= s.seed.len(),
    ensures
        ({
            let t = engine_step(s, EngineOp::Write { offset, data });
            content(t.seed, t.overlay, t.mask).subrange(offset, offset + data.len()) == data
        }),
{
    let t = engine_step(s, EngineOp::Write { offset, data });
    assert forall|j: int| 0 <= j < data.len() implies content(t.seed, t.overlay, t.mask)[offset + j]
        == data[j] by {
        assert(stream_byte(t.mask, offset + j) == SET);
        assert(stream_byte(t.overlay, offset + j) == data[j]);
    }
    assert(content(t.seed, t.overlay, t.mask).subrange(offset, offset + data.len()) =~= data);
}

/// Law: per-byte merge fidelity. Wherever the mask alternates between
/// `UNSET` and `SET` from one byte to the next, the contents alternate
/// between the seed's byte and the overlay's byte at exactly those
/// positions; granularity is the byte, not the block.
pub proof fn lemma_mixed_mask_merge(s: StoreModel, offset: int)
    requires
        0 <= offset,
        offset + 4 <= s.seed.len(),
        stream_byte(s.mask, offset) == UNSET,
        stream_byte(s.mask, offset + 1) == SET,
        stream_byte(s.mask, offset + 2) == UNSET,
        stream_byte(s.mask, offset + 3) == SET,
    ensures
        content(s.seed, s.overlay, s.mask)[offset] == s.seed[offset],
        content(s.seed, s.overlay, s.mask)[offset + 1] == stream_byte(s.overlay, offset + 1),
        content(s.seed, s.overlay, s.mask)[offset + 2] == s.seed[offset + 2],
        content(s.seed, s.overlay, s.mask)[offset + 3] == stream_byte(s.overlay, offset + 3),
{
}

/// Law: trim reverts its range to the seed. After a trim, every byte of
/// the trimmed range reads as the seed's byte again.
pub proof fn lemma_trim_reverts_to_seed(s: StoreModel, offset: int, len: nat)
    requires
        0 <= offset,
        offset + len <= s.seed.len(),
    ensures
        ({
            let t = engine_step(s, EngineOp::Trim { offset, len });
            forall|j: int|
                offset <= j < offset + len ==> content(t.seed, t.overlay, t.mask)[j] == s.seed[j]
        }),
{
    let t = engine_step(s, EngineOp::Trim { offset, len });
    assert forall|j: int| offset <= j < offset + len implies content(t.seed, t.overlay, t.mask)[j]
        == s.seed[j] by {
        assert(stream_byte(t.mask, j) == UNSET);
    }
}

/// Law: trim reads back as zeros wherever the seed itself is zero there.
/// (Where the seed holds other bytes, a trimmed range reads as those seed
/// bytes: trim is a reversion to the seed, not an eraser.)
pub proof fn lemma_trim_reads_zero(s: StoreModel, offset: int, len: nat)
    requires
        0 <= offset,
        offset + len <= s.seed.len(),
        forall|j: int| offset <= j < offset + len ==> s.seed[j] == 0,
    ensures
        ({
            let t = engine_step(s, EngineOp::Trim { offset, len });
            content(t.seed, t.overlay, t.mask).subrange(offset, offset + len) == repeated(
                0,
                len,
            )
        }),
{
    let t = engine_step(s, EngineOp::Trim { offset, len });
    lemma_trim_reverts_to_seed(s, offset, len);
    assert(content(t.seed, t.overlay, t.mask).subrange(offset, offset + len) =~= repeated(0, len));
}

} // verus!
