//! The clean engine: the dedup pass, which reverts overlay chunks that are
//! byte-identical to the seed, and the truncate pass, which drops the
//! trailing all-`UNSET` space of the overlay and the mask.

use vstd::prelude::*;

use crate::buffer::{all_bytes_are, bytes_equal, filled, read_range, splice};
use crate::model::{
    content, count_identical, dedup_zap, is_set, lemma_aligned_gap, lemma_aligned_pos,
    lemma_aligned_step, lemma_chunk_base, lemma_count_identical_le, lemma_dedup_zap_high,
    lemma_dedup_zap_stream, lemma_scan_end, range_all, range_identical, repeated, scan_end,
    stream_byte, SET, UNSET,
};
use crate::Files;

verus! {

/// Deduplicates the overlay against the seed: scans the seed's whole-chunk
/// extent and, wherever a chunk of the overlay is byte-identical to the
/// seed's, writes an all-zero chunk to both the overlay and the mask,
/// reverting the chunk to `UNSET`. Chunks that differ anywhere are left
/// alone, even where the mask marks only part of them. Returns how many
/// chunks were freed; a chunk that compares identical is counted every
/// run, whether or not it was already `UNSET`.
pub fn dedup_pass(files: &mut Files) -> (freed: u64)
    requires
        old(files).wf(),
    ensures
        final(files).wf(),
        final(files).block_size == old(files).block_size,
        final(files).seed@ == old(files).seed@,
        ({
            let bs = old(files).block_size as int;
            let end = scan_end(old(files).seed@.len() as int, bs);
            &&& final(files).overlay@ == dedup_zap(
                old(files).seed@,
                old(files).overlay@,
                old(files).overlay@,
                bs,
                end,
            )
            &&& final(files).mask@ == dedup_zap(
                old(files).seed@,
                old(files).overlay@,
                old(files).mask@,
                bs,
                end,
            )
            &&& freed == count_identical(old(files).seed@, old(files).overlay@, bs, end)
        }),
{
    let ghost seed0 = files.seed@;
    let ghost ov0 = files.overlay@;
    let ghost mask0 = files.mask@;
    let bs: usize = files.block_size as usize;
    let limit: usize = files.seed.len() / bs;
    proof {
        lemma_scan_end(seed0.len() as int, bs as int);
    }
    let end: usize = limit * bs;
    let zeros = filled(UNSET, bs);
    let mut o: usize = 0;
    let mut freed: u64 = 0;
    while o < end
        invariant
            files.wf(),
            files.block_size == old(files).block_size,
            bs == files.block_size as usize,
            bs >= 1,
            end == scan_end(seed0.len() as int, bs as int),
            end <= seed0.len(),
            seed0.len() <= usize::MAX,
            end as int % bs as int == 0,
            files.seed@ == seed0,
            o <= end,
            o as int % bs as int == 0,
            zeros@ == repeated(UNSET, bs as nat),
            files.overlay@ == dedup_zap(seed0, ov0, ov0, bs as int, o as int),
            files.mask@ == dedup_zap(seed0, ov0, mask0, bs as int, o as int),
            freed == count_identical(seed0, ov0, bs as int, o as int),
        decreases end - o,
    {
        proof {
            lemma_aligned_gap(o as int, end as int, bs as int);
        }
        let seed_chunk = read_range(&files.seed, o, bs);
        let overlay_chunk = read_range(&files.overlay, o, bs);
        proof {
            assert forall|i: int| o <= i < o + bs implies stream_byte(files.overlay@, i)
                == stream_byte(ov0, i) by {
                lemma_dedup_zap_high(seed0, ov0, ov0, bs as int, o as int, i);
            }
        }
        let identical = bytes_equal(&seed_chunk, &overlay_chunk);
        proof {
            if identical {
                assert forall|i: int| o <= i < o + bs implies stream_byte(seed0, i)
                    == stream_byte(ov0, i) by {
                    assert(seed_chunk@[i - o] == overlay_chunk@[i - o]);
                }
                assert(range_identical(seed0, ov0, o as int, bs as int));
            } else {
                if range_identical(seed0, ov0, o as int, bs as int) {
                    assert forall|j: int| 0 <= j < bs implies seed_chunk@[j]
                        == overlay_chunk@[j] by {
                        assert(stream_byte(seed0, o + j) == stream_byte(ov0, o + j));
                    }
                    assert(seed_chunk@ =~= overlay_chunk@);
                }
                assert(!range_identical(seed0, ov0, o as int, bs as int));
            }
        }
        if identical {
            splice(&mut files.overlay, o, &zeros);
            splice(&mut files.mask, o, &zeros);
            proof {
                lemma_count_identical_le(seed0, ov0, bs as int, o as int);
            }
            freed = freed + 1;
        }
        o = o + bs;
        proof {
            lemma_aligned_step((o - bs) as int, bs as int);
            assert(files.overlay@ == dedup_zap(seed0, ov0, ov0, bs as int, o as int));
            assert(files.mask@ == dedup_zap(seed0, ov0, mask0, bs as int, o as int));
        }
    }
    freed
}

/// The start of the maximal suffix of all-`UNSET` chunks of `[0, o)`:
/// chunks are peeled off the top as long as they hold only `UNSET` bytes,
/// and the first offset no longer peeled is the answer. `o` itself means
/// the topmost chunk already holds other bytes (or there is no chunk).
pub open spec fn unset_suffix_start(mask: Seq<u8>, bs: int, o: int) -> int
    decreases o,
{
    if bs <= 0 || o < bs {
        o
    } else if range_all(mask, o - bs, bs, UNSET) {
        unset_suffix_start(mask, bs, o - bs)
    } else {
        o
    }
}

/// Where the truncate pass cuts the overlay and the mask: the start of the
/// maximal all-`UNSET` chunk-suffix of the mask's whole-chunk extent, or
/// nothing when that suffix is empty and there is nothing to drop.
pub open spec fn truncate_point(mask: Seq<u8>, bs: int) -> Option<int> {
    let end = scan_end(mask.len() as int, bs);
    let s = unset_suffix_start(mask, bs, end);
    if s == end {
        None
    } else {
        Some(s)
    }
}

/// What the cut offset satisfies: it is chunk-aligned, at least one chunk
/// below the scanned extent, everything from it up is `UNSET`, and the
/// chunk just below it (if any) holds some other byte — so the cut drops
/// exactly the trailing unused chunks.
pub proof fn lemma_unset_suffix_start(mask: Seq<u8>, bs: int, o: int)
    requires
        bs >= 1,
        o >= 0,
        o % bs == 0,
    ensures
        ({
            let s = unset_suffix_start(mask, bs, o);
            &&& 0 <= s <= o
            &&& s % bs == 0
            &&& range_all(mask, s, o - s, UNSET)
            &&& s > 0 ==> !range_all(mask, s - bs, bs, UNSET)
        }),
    decreases o,
{
    if o < bs {
        if o > 0 {
            lemma_aligned_pos(o, bs);
        }
    } else if range_all(mask, o - bs, bs, UNSET) {
        lemma_aligned_step(o, bs);
        lemma_unset_suffix_start(mask, bs, o - bs);
    }
}

/// The cut offset is the only chunk-aligned offset with an all-`UNSET`
/// range above it and a differing byte just below: any offset with those
/// properties is it. The boundary depends only on where the unused suffix
/// starts, not on how the scan found it.
pub proof fn lemma_unset_suffix_start_unique(mask: Seq<u8>, bs: int, o: int, b: int)
    requires
        bs >= 1,
        o >= 0,
        o % bs == 0,
        0 <= b <= o,
        b % bs == 0,
        range_all(mask, b, o - b, UNSET),
        b > 0 ==> !range_all(mask, b - bs, bs, UNSET),
    ensures
        unset_suffix_start(mask, bs, o) == b,
{
    lemma_unset_suffix_start(mask, bs, o);
    let s = unset_suffix_start(mask, bs, o);
    if s < b {
        lemma_aligned_gap(s, b, bs);
        assert(range_all(mask, b - bs, bs, UNSET));
    }
    if b < s {
        lemma_aligned_gap(b, s, bs);
        assert(range_all(mask, s - bs, bs, UNSET));
    }
}

/// Law: truncate boundary. Where every chunk from `b` up to the scanned
/// extent is all `UNSET` and the chunk just below `b` holds a `SET` byte
/// (or `b` is the very start), the truncate pass cuts at exactly `b`:
/// precisely the trailing unused chunks are dropped.
pub proof fn lemma_truncate_point_exact(mask: Seq<u8>, bs: int, b: int)
    requires
        bs >= 1,
        0 <= b,
        b % bs == 0,
        b + bs <= scan_end(mask.len() as int, bs),
        range_all(mask, b, scan_end(mask.len() as int, bs) - b, UNSET),
        b > 0 ==> exists|i: int| b - bs <= i < b && is_set(stream_byte(mask, i)),
    ensures
        truncate_point(mask, bs) == Some(b),
{
    let end = scan_end(mask.len() as int, bs);
    lemma_scan_end(mask.len() as int, bs);
    if b > 0 {
        let w = choose|i: int| b - bs <= i < b && is_set(stream_byte(mask, i));
        assert(stream_byte(mask, w) == SET);
        assert(!range_all(mask, b - bs, bs, UNSET));
    }
    lemma_unset_suffix_start_unique(mask, bs, end, b);
}

/// Finds where the truncate pass should cut: scans the mask's whole-chunk
/// extent backward from the top and returns the start of the trailing
/// all-`UNSET` run of chunks, or nothing when the topmost chunk is in use
/// (or there are no chunks), in which case truncation has nothing to do.
pub fn truncate_boundary(mask: &Vec<u8>, block_size: u32) -> (r: Option<usize>)
    requires
        block_size >= 1,
    ensures
        match r {
            None => truncate_point(mask@, block_size as int) is None,
            Some(off) => truncate_point(mask@, block_size as int) == Some(off as int),
        },
{
    let bs: usize = block_size as usize;
    let limit: usize = mask.len() / bs;
    proof {
        lemma_scan_end(mask@.len() as int, bs as int);
    }
    let end: usize = limit * bs;
    let mut o: usize = end;
    let mut stopped = false;
    while o > 0 && !stopped
        invariant
            bs == block_size as usize,
            bs >= 1,
            end == scan_end(mask@.len() as int, bs as int),
            end <= mask@.len(),
            mask@.len() <= usize::MAX,
            end as int % bs as int == 0,
            o <= end,
            o as int % bs as int == 0,
            unset_suffix_start(mask@, bs as int, end as int) == unset_suffix_start(
                mask@,
                bs as int,
                o as int,
            ),
            stopped ==> unset_suffix_start(mask@, bs as int, o as int) == o,
        decreases o, (if stopped {
            0int
        } else {
            1int
        }),
    {
        proof {
            lemma_aligned_pos(o as int, bs as int);
        }
        let chunk = read_range(mask, o - bs, bs);
        proof {
            assert forall|j: int| 0 <= j < bs implies chunk@[j] == stream_byte(
                mask@,
                o - bs + j,
            ) by {}
        }
        if all_bytes_are(&chunk, UNSET) {
            proof {
                assert forall|i: int| o - bs <= i < o implies stream_byte(mask@, i) == UNSET by {
                    assert(chunk@[i - (o - bs)] == stream_byte(mask@, i));
                }
                assert(range_all(mask@, o - bs, bs as int, UNSET));
                lemma_aligned_step(o as int, bs as int);
            }
            o = o - bs;
        } else {
            proof {
                if range_all(mask@, o - bs, bs as int, UNSET) {
                    assert forall|j: int| 0 <= j < bs implies chunk@[j] == UNSET by {
                        assert(stream_byte(mask@, o - bs + j) == UNSET);
                    }
                }
                assert(!range_all(mask@, o - bs, bs as int, UNSET));
            }
            stopped = true;
        }
    }
    proof {
        if !stopped {
            assert(o == 0);
        }
        assert(unset_suffix_start(mask@, bs as int, end as int) == o);
    }
    if o == end {
        None
    } else {
        Some(o)
    }
}

/// Runs the truncate pass: finds the trailing all-`UNSET` chunk-suffix of
/// the mask and shrinks both the overlay and the mask to its start. A
/// store already shorter than the cut is left alone — truncation only ever
/// shrinks, it never extends. Returns the cut offset, or nothing when
/// there was nothing to drop and both stores are untouched.
pub fn truncate_pass(files: &mut Files) -> (r: Option<usize>)
    requires
        old(files).wf(),
    ensures
        final(files).wf(),
        final(files).block_size == old(files).block_size,
        final(files).seed@ == old(files).seed@,
        ({
            let bs = old(files).block_size as int;
            match r {
                None => {
                    &&& truncate_point(old(files).mask@, bs) is None
                    &&& final(files).overlay@ == old(files).overlay@
                    &&& final(files).mask@ == old(files).mask@
                },
                Some(off) => {
                    &&& truncate_point(old(files).mask@, bs) == Some(off as int)
                    &&& final(files).mask@ == old(files).mask@.subrange(0, off as int)
                    &&& final(files).overlay@ == (if off <= old(files).overlay@.len() {
                        old(files).overlay@.subrange(0, off as int)
                    } else {
                        old(files).overlay@
                    })
                },
            }
        }),
{
    let r = truncate_boundary(&files.mask, files.block_size);
    match r {
        None => None,
        Some(off) => {
            proof {
                let bs = files.block_size as int;
                lemma_scan_end(files.mask@.len() as int, bs);
                lemma_unset_suffix_start(files.mask@, bs, scan_end(files.mask@.len() as int, bs));
            }
            files.mask.truncate(off);
            files.overlay.truncate(off);
            Some(off)
        },
    }
}

/// Law: dedup correctness. After the dedup pass, a chunk whose seed and
/// overlay contents were byte-identical has an all-`UNSET` mask and reads
/// back as exactly the seed's bytes; a chunk that differed in even one
/// byte is untouched in both the overlay and the mask.
pub proof fn lemma_dedup_correct(seed: Seq<u8>, overlay: Seq<u8>, mask: Seq<u8>, bs: int, c: int)
    requires
        bs >= 1,
        0 <= c,
        c % bs == 0,
        c + bs <= scan_end(seed.len() as int, bs),
    ensures
        ({
            let end = scan_end(seed.len() as int, bs);
            let ov2 = dedup_zap(seed, overlay, overlay, bs, end);
            let mask2 = dedup_zap(seed, overlay, mask, bs, end);
            &&& range_identical(seed, overlay, c, bs) ==> (forall|i: int|
                c <= i < c + bs ==> stream_byte(mask2, i) == UNSET && content(seed, ov2, mask2)[i]
                    == seed[i])
            &&& !range_identical(seed, overlay, c, bs) ==> (forall|i: int|
                c <= i < c + bs ==> stream_byte(mask2, i) == stream_byte(mask, i) && stream_byte(
                    ov2,
                    i,
                ) == stream_byte(overlay, i))
        }),
{
    let end = scan_end(seed.len() as int, bs);
    let ov2 = dedup_zap(seed, overlay, overlay, bs, end);
    let mask2 = dedup_zap(seed, overlay, mask, bs, end);
    lemma_scan_end(seed.len() as int, bs);
    assert forall|i: int| c <= i < c + bs implies stream_byte(mask2, i) == (if range_identical(
        seed,
        overlay,
        c,
        bs,
    ) {
        UNSET
    } else {
        stream_byte(mask, i)
    }) && stream_byte(ov2, i) == (if range_identical(seed, overlay, c, bs) {
        UNSET
    } else {
        stream_byte(overlay, i)
    }) by {
        lemma_chunk_base(i, c, bs);
        lemma_dedup_zap_stream(seed, overlay, mask, bs, end, i);
        lemma_dedup_zap_stream(seed, overlay, overlay, bs, end, i);
    }
    if range_identical(seed, overlay, c, bs) {
        assert forall|i: int| c <= i < c + bs implies content(seed, ov2, mask2)[i] == seed[i] by {
            assert(stream_byte(mask2, i) == UNSET);
        }
    }
}

/// Each chunk the dedup pass would free in a second run is a chunk it
/// cannot free when no seed chunk in range is entirely zero: the second
/// scan finds no identical chunk at all.
proof fn lemma_count_identical_zero(a: Seq<u8>, b: Seq<u8>, bs: int, o: int)
    requires
        bs >= 1,
        o >= 0,
        o % bs == 0,
        forall|c: int|
            0 <= c && c % bs == 0 && c + bs <= o ==> !range_identical(a, b, c, bs),
    ensures
        count_identical(a, b, bs, o) == 0,
    decreases o,
{
    if o >= bs {
        lemma_aligned_step(o, bs);
        assert(!range_identical(a, b, o - bs, bs));
        lemma_count_identical_zero(a, b, bs, o - bs);
    }
}

/// Law: dedup idempotence. Wherever no seed chunk in the scanned range is
/// entirely zero, a second dedup pass right after a first frees no chunk:
/// the first pass has left nothing identical behind. (A seed chunk of all
/// zeros is the exception: its freed overlay chunk is zero again and is
/// counted again by every run.)
pub proof fn lemma_dedup_idempotent(seed: Seq<u8>, overlay: Seq<u8>, bs: int)
    requires
        bs >= 1,
        forall|c: int|
            0 <= c && c % bs == 0 && c + bs <= scan_end(seed.len() as int, bs)
                ==> !range_all(seed, c, bs, UNSET),
    ensures
        ({
            let end = scan_end(seed.len() as int, bs);
            count_identical(seed, dedup_zap(seed, overlay, overlay, bs, end), bs, end) == 0
        }),
{
    let end = scan_end(seed.len() as int, bs);
    let ov2 = dedup_zap(seed, overlay, overlay, bs, end);
    lemma_scan_end(seed.len() as int, bs);
    assert forall|c: int|
        0 <= c && c % bs == 0 && c + bs <= end implies !range_identical(seed, ov2, c, bs) by {
        assert forall|i: int| c <= i < c + bs implies stream_byte(ov2, i) == (if range_identical(
            seed,
            overlay,
            c,
            bs,
        ) {
            UNSET
        } else {
            stream_byte(overlay, i)
        }) by {
            lemma_chunk_base(i, c, bs);
            lemma_dedup_zap_stream(seed, overlay, overlay, bs, end, i);
        }
        if range_identical(seed, overlay, c, bs) {
            assert(!range_all(seed, c, bs, UNSET));
            let w = choose|i: int| c <= i < c + bs && stream_byte(seed, i) != UNSET;
            assert(stream_byte(ov2, w) == UNSET);
            assert(stream_byte(seed, w) != stream_byte(ov2, w));
        } else {
            if range_identical(seed, ov2, c, bs) {
                assert forall|i: int| c <= i < c + bs implies stream_byte(seed, i) == stream_byte(
                    overlay,
                    i,
                ) by {
                    assert(stream_byte(seed, i) == stream_byte(ov2, i));
                }
            }
        }
    }
    lemma_count_identical_zero(seed, ov2, bs, end);
}

} // verus!
