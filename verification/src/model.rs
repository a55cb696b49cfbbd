//! Mathematical model of the three backing stores.
//!
//! Seed, overlay and mask are byte stores aligned by offset. The overlay and
//! the mask behave as zero-extended streams: a position beyond the end of the
//! store reads as `0`. The mask holds one sentinel byte per data byte:
//! `UNSET` means the seed is authoritative at that offset, `SET` means the
//! overlay is.

use vstd::prelude::*;

verus! {

/// Mask sentinel: the byte at this offset comes from the seed.
pub const UNSET: u8 = 0x00;

/// Mask sentinel: the byte at this offset comes from the overlay.
pub const SET: u8 = 0xff;

/// Whether a mask byte redirects its offset to the overlay.
pub open spec fn is_set(m: u8) -> bool {
    m == SET
}

/// The byte a store yields at position `i`, reading the store as a
/// zero-extended stream: in-bounds positions yield the stored byte, all
/// others yield `0`.
pub open spec fn stream_byte(s: Seq<u8>, i: int) -> u8 {
    if 0 <= i < s.len() {
        s[i]
    } else {
        0
    }
}

/// A sequence of `n` copies of `v`.
pub open spec fn repeated(v: u8, n: nat) -> Seq<u8> {
    Seq::new(n, |i: int| v)
}

/// The store after writing `b` at offset `off`: positions in
/// `[off, off + b.len())` hold `b`, the store grows if the write reaches past
/// its end (any gap reads as zero, as it did before), and every other
/// position keeps its stream byte.
pub open spec fn store_write(s: Seq<u8>, off: int, b: Seq<u8>) -> Seq<u8> {
    Seq::new(
        (if off + b.len() > s.len() {
            off + b.len()
        } else {
            s.len() as int
        }) as nat,
        |i: int|
            if off <= i < off + b.len() {
                b[i - off]
            } else {
                stream_byte(s, i)
            },
    )
}

/// The authoritative byte at position `i` of the triple: the overlay's
/// stream byte where the mask is `SET`, the seed's otherwise.
pub open spec fn content_byte(seed: Seq<u8>, overlay: Seq<u8>, mask: Seq<u8>, i: int) -> u8 {
    if is_set(stream_byte(mask, i)) {
        stream_byte(overlay, i)
    } else {
        stream_byte(seed, i)
    }
}

/// The authoritative contents of the triple, over the seed's extent.
pub open spec fn content(seed: Seq<u8>, overlay: Seq<u8>, mask: Seq<u8>) -> Seq<u8> {
    Seq::new(seed.len(), |i: int| content_byte(seed, overlay, mask, i))
}

/// Every stream byte in `[off, off + len)` equals `v`.
pub open spec fn range_all(s: Seq<u8>, off: int, len: int, v: u8) -> bool {
    forall|i: int| off <= i < off + len ==> stream_byte(s, i) == v
}

/// The two stores agree, as streams, on every byte of `[off, off + len)`.
pub open spec fn range_identical(a: Seq<u8>, b: Seq<u8>, off: int, len: int) -> bool {
    forall|i: int| off <= i < off + len ==> stream_byte(a, i) == stream_byte(b, i)
}

/// The largest multiple of `bs` no greater than `len`: the extent covered by
/// whole `bs`-sized chunks.
pub open spec fn scan_end(len: int, bs: int) -> int {
    (len / bs) * bs
}

/// The start offset of the `bs`-sized chunk that position `i` falls in.
pub open spec fn chunk_base(i: int, bs: int) -> int {
    (i / bs) * bs
}

/// The chunk at offset `c` holds at least one `SET` mask byte.
pub open spec fn chunk_has_set(mask: Seq<u8>, c: int, bs: int) -> bool {
    exists|i: int| c <= i < c + bs && is_set(stream_byte(mask, i))
}

/// The `target` store after the dedup pass has scanned the first `o` bytes
/// in `bs`-sized chunks: each chunk where seed and overlay agree byte for
/// byte is overwritten with `UNSET` bytes, every other chunk is left alone.
/// The pass applies this to the overlay and to the mask alike, always
/// deciding by the seed and the overlay as they were before the pass.
pub open spec fn dedup_zap(seed: Seq<u8>, overlay: Seq<u8>, target: Seq<u8>, bs: int, o: int) -> Seq<
    u8,
>
    decreases o,
{
    if bs <= 0 || o < bs {
        target
    } else {
        let prev = dedup_zap(seed, overlay, target, bs, o - bs);
        if range_identical(seed, overlay, o - bs, bs) {
            store_write(prev, o - bs, repeated(UNSET, bs as nat))
        } else {
            prev
        }
    }
}

/// How many of the `bs`-sized chunks in `[0, o)` hold byte-identical seed
/// and overlay contents: the chunks the dedup pass frees.
pub open spec fn count_identical(seed: Seq<u8>, overlay: Seq<u8>, bs: int, o: int) -> nat
    decreases o,
{
    if bs <= 0 || o < bs {
        0
    } else {
        count_identical(seed, overlay, bs, o - bs) + (if range_identical(
            seed,
            overlay,
            o - bs,
            bs,
        ) {
            1nat
        } else {
            0nat
        })
    }
}

/// How many of the `bs`-sized chunks in `[0, o)` hold at least one `SET`
/// mask byte: the chunks the apply pass writes into the seed.
pub open spec fn count_set_chunks(mask: Seq<u8>, bs: int, o: int) -> nat
    decreases o,
{
    if bs <= 0 || o < bs {
        0
    } else {
        count_set_chunks(mask, bs, o - bs) + (if chunk_has_set(mask, o - bs, bs) {
            1nat
        } else {
            0nat
        })
    }
}

/// How many mask bytes in `[0, o)` are `SET`: the bytes the apply pass
/// writes into the seed.
pub open spec fn count_set_bytes(mask: Seq<u8>, o: int) -> nat
    decreases o,
{
    if o <= 0 {
        0
    } else {
        count_set_bytes(mask, o - 1) + (if is_set(stream_byte(mask, o - 1)) {
            1nat
        } else {
            0nat
        })
    }
}

/// The seed after the apply pass over the first `end` bytes: every byte of
/// that range whose mask byte is `SET` is replaced by the overlay's byte,
/// every other byte keeps its value. The seed's extent never changes.
pub open spec fn applied(seed: Seq<u8>, overlay: Seq<u8>, mask: Seq<u8>, end: int) -> Seq<u8> {
    Seq::new(
        seed.len(),
        |i: int|
            if i < end && is_set(stream_byte(mask, i)) {
                stream_byte(overlay, i)
            } else {
                seed[i]
            },
    )
}

/// Writing does not change the stream outside the written range.
pub proof fn lemma_store_write_outside(s: Seq<u8>, off: int, b: Seq<u8>, i: int)
    requires
        0 <= off,
        !(off <= i < off + b.len()),
    ensures
        stream_byte(store_write(s, off, b), i) == stream_byte(s, i),
{
}

/// Writing puts exactly the written bytes at the written range.
pub proof fn lemma_store_write_inside(s: Seq<u8>, off: int, b: Seq<u8>, i: int)
    requires
        0 <= off,
        off <= i < off + b.len(),
    ensures
        stream_byte(store_write(s, off, b), i) == b[i - off],
{
}

/// The whole-chunk extent of a store: it is within the store's extent and
/// chunk-aligned.
pub proof fn lemma_scan_end(len: int, bs: int)
    requires
        bs >= 1,
        len >= 0,
    ensures
        0 <= scan_end(len, bs) <= len,
        scan_end(len, bs) % bs == 0,
{
    vstd::arithmetic::div_mod::lemma_fundamental_div_mod(len, bs);
    vstd::arithmetic::div_mod::lemma_mod_bound(len, bs);
    vstd::arithmetic::div_mod::lemma_div_pos_is_pos(len, bs);
    vstd::arithmetic::mul::lemma_mul_is_commutative(len / bs, bs);
    vstd::arithmetic::mul::lemma_mul_nonnegative(len / bs, bs);
    vstd::arithmetic::div_mod::lemma_mod_multiples_basic(len / bs, bs);
}

/// A position inside a chunk-aligned chunk has that chunk's base.
pub proof fn lemma_chunk_base(i: int, c: int, bs: int)
    requires
        bs >= 1,
        c % bs == 0,
        c <= i < c + bs,
    ensures
        chunk_base(i, bs) == c,
{
    vstd::arithmetic::div_mod::lemma_fundamental_div_mod(c, bs);
    vstd::arithmetic::mul::lemma_mul_is_commutative(c / bs, bs);
    vstd::arithmetic::div_mod::lemma_fundamental_div_mod_converse(i, bs, c / bs, i - c);
}

/// Two distinct chunk-aligned offsets are at least one chunk apart.
pub proof fn lemma_aligned_gap(a: int, b: int, bs: int)
    requires
        bs >= 1,
        a % bs == 0,
        b % bs == 0,
        a < b,
    ensures
        a + bs <= b,
{
    vstd::arithmetic::div_mod::lemma_sub_mod_noop(b, a, bs);
    vstd::arithmetic::div_mod::lemma_small_mod(0nat, bs as nat);
    if b - a < bs {
        vstd::arithmetic::div_mod::lemma_small_mod((b - a) as nat, bs as nat);
    }
}

/// A positive chunk-aligned offset is at least one chunk.
pub proof fn lemma_aligned_pos(a: int, bs: int)
    requires
        bs >= 1,
        a % bs == 0,
        a > 0,
    ensures
        a >= bs,
{
    vstd::arithmetic::div_mod::lemma_small_mod(0nat, bs as nat);
    lemma_aligned_gap(0, a, bs);
}

/// Stepping one chunk forward keeps an offset chunk-aligned.
pub proof fn lemma_aligned_step(a: int, bs: int)
    requires
        bs >= 1,
        a % bs == 0,
    ensures
        (a + bs) % bs == 0,
        (a - bs) % bs == 0,
{
    vstd::arithmetic::div_mod::lemma_mod_add_multiples_vanish(a, bs);
    vstd::arithmetic::div_mod::lemma_mod_sub_multiples_vanish(a, bs);
}

/// The dedup pass never changes a store at or past the scan point.
pub proof fn lemma_dedup_zap_high(seed: Seq<u8>, overlay: Seq<u8>, target: Seq<u8>, bs: int, o: int, i: int)
    requires
        bs >= 1,
        o <= i,
    ensures
        stream_byte(dedup_zap(seed, overlay, target, bs, o), i) == stream_byte(target, i),
    decreases o,
{
    if o >= bs {
        lemma_dedup_zap_high(seed, overlay, target, bs, o - bs, i);
    }
}

/// What the dedup pass leaves at each position: a chunk-aligned prefix scan
/// of `o` bytes zeroes exactly the positions whose chunk holds identical
/// seed and overlay contents, and touches nothing else.
pub proof fn lemma_dedup_zap_stream(
    seed: Seq<u8>,
    overlay: Seq<u8>,
    target: Seq<u8>,
    bs: int,
    o: int,
    i: int,
)
    requires
        bs >= 1,
        o >= 0,
        o % bs == 0,
        0 <= i,
    ensures
        stream_byte(dedup_zap(seed, overlay, target, bs, o), i) == (if i < o && range_identical(
            seed,
            overlay,
            chunk_base(i, bs),
            bs,
        ) {
            UNSET
        } else {
            stream_byte(target, i)
        }),
    decreases o,
{
    if o < bs {
        vstd::arithmetic::div_mod::lemma_mod_bound(o, bs);
        assert(o == 0) by {
            if o != 0 {
                vstd::arithmetic::div_mod::lemma_small_mod(o as nat, bs as nat);
            }
        }
    } else {
        assert((o - bs) % bs == 0) by {
            vstd::arithmetic::div_mod::lemma_mod_sub_multiples_vanish(o, bs);
        }
        lemma_dedup_zap_stream(seed, overlay, target, bs, o - bs, i);
        let prev = dedup_zap(seed, overlay, target, bs, o - bs);
        if o - bs <= i < o {
            assert(chunk_base(i, bs) == o - bs) by {
                vstd::arithmetic::div_mod::lemma_fundamental_div_mod(o - bs, bs);
                vstd::arithmetic::mul::lemma_mul_is_commutative((o - bs) / bs, bs);
                vstd::arithmetic::div_mod::lemma_fundamental_div_mod_converse(
                    i,
                    bs,
                    (o - bs) / bs,
                    i - (o - bs),
                );
            }
        }
        if range_identical(seed, overlay, o - bs, bs) {
            if o - bs <= i < o {
                lemma_store_write_inside(prev, o - bs, repeated(UNSET, bs as nat), i);
            } else {
                lemma_store_write_outside(prev, o - bs, repeated(UNSET, bs as nat), i);
            }
        }
    }
}

/// The freed-chunk count of a scan of `o` bytes never exceeds `o`.
pub proof fn lemma_count_identical_le(seed: Seq<u8>, overlay: Seq<u8>, bs: int, o: int)
    requires
        bs >= 1,
        o >= 0,
    ensures
        count_identical(seed, overlay, bs, o) <= o,
    decreases o,
{
    if o >= bs {
        lemma_count_identical_le(seed, overlay, bs, o - bs);
    }
}

/// The applied-chunk count of a scan of `o` bytes never exceeds `o`.
pub proof fn lemma_count_set_chunks_le(mask: Seq<u8>, bs: int, o: int)
    requires
        bs >= 1,
        o >= 0,
    ensures
        count_set_chunks(mask, bs, o) <= o,
    decreases o,
{
    if o >= bs {
        lemma_count_set_chunks_le(mask, bs, o - bs);
    }
}

/// The written-byte count of a scan of `o` bytes never exceeds `o`.
pub proof fn lemma_count_set_bytes_le(mask: Seq<u8>, o: int)
    requires
        o >= 0,
    ensures
        count_set_bytes(mask, o) <= o,
    decreases o,
{
    if o > 0 {
        lemma_count_set_bytes_le(mask, o - 1);
    }
}

} // verus!
