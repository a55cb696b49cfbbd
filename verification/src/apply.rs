//! The apply engine: folds the masked overlay bytes back into the seed —
//! the one operation that mutates it — guarded by an explicit
//! confirmation flag.
//!
//! The scan walks the mask's whole-chunk extent. A chunk without a single
//! `SET` byte is skipped outright, so unmodified regions are never
//! dirtied. In a chunk with `SET` bytes, only the maximal contiguous runs
//! of `SET` positions are written into the seed, at their exact offsets:
//! bytes the mask does not redirect keep their stored value untouched.

use vstd::prelude::*;

use crate::arguments::EngineError;
use crate::buffer::{all_bytes_are, copy_into, read_range};
use crate::model::{
    applied, chunk_has_set, count_set_bytes, count_set_chunks, is_set, lemma_aligned_gap,
    lemma_aligned_step, lemma_count_set_bytes_le, lemma_count_set_chunks_le, lemma_scan_end,
    scan_end, stream_byte, SET, UNSET,
};
use crate::Files;

verus! {

/// What an apply run did: how many chunks had at least one run written,
/// and how many bytes went into the seed in all.
#[derive(Clone, Copy, PartialEq, Eq, Structural, Debug)]
pub struct ApplyStats {
    /// Chunks with at least one applied run.
    pub blocks_applied: u64,
    /// Bytes written into the seed in all.
    pub bytes_written: u64,
}

/// How many bytes of `s` are `SET`.
pub open spec fn count_set_seq(s: Seq<u8>) -> nat
    decreases s.len(),
{
    if s.len() == 0 {
        0
    } else {
        count_set_seq(s.drop_last()) + (if is_set(s.last()) {
            1nat
        } else {
            0nat
        })
    }
}

/// Position `p` falls in one of the first `k` runs.
pub open spec fn in_run_prefix(runs: Seq<(usize, usize)>, k: int, p: int) -> bool {
    exists|j: int| 0 <= j < k && (#[trigger] runs[j]).0 <= p < runs[j].1
}

/// Position `p` falls in one of the runs.
pub open spec fn in_some_run(runs: Seq<(usize, usize)>, p: int) -> bool {
    in_run_prefix(runs, runs.len() as int, p)
}

/// Counts the `SET` bytes of a buffer.
pub fn count_set(buf: &Vec<u8>) -> (n: usize)
    ensures
        n == count_set_seq(buf@),
        n <= buf@.len(),
{
    let mut n: usize = 0;
    let mut i: usize = 0;
    while i < buf.len()
        invariant
            i <= buf@.len(),
            n <= i,
            n == count_set_seq(buf@.subrange(0, i as int)),
        decreases buf@.len() - i,
    {
        let ghost pre = buf@.subrange(0, i as int);
        if buf[i] == SET {
            n = n + 1;
        }
        i = i + 1;
        proof {
            let cur = buf@.subrange(0, i as int);
            assert(cur.drop_last() =~= pre);
            assert(cur.last() == buf@[i - 1]);
        }
    }
    proof {
        assert(buf@.subrange(0, buf@.len() as int) =~= buf@);
    }
    n
}

/// The maximal contiguous runs of `SET` bytes in a mask chunk, in order:
/// each run is a half-open range, runs are separated by at least one
/// non-`SET` byte, and together they cover exactly the `SET` positions.
pub fn set_runs(mask_chunk: &Vec<u8>) -> (runs: Vec<(usize, usize)>)
    ensures
        forall|j: int|
            0 <= j < runs@.len() ==> (#[trigger] runs@[j]).0 < runs@[j].1 <= mask_chunk@.len(),
        forall|j: int| 0 <= j < runs@.len() - 1 ==> (#[trigger] runs@[j]).1 < runs@[j + 1].0,
        forall|p: int|
            #[trigger] in_some_run(runs@, p) ==> 0 <= p < mask_chunk@.len() && is_set(
                mask_chunk@[p],
            ),
        forall|p: int|
            0 <= p < mask_chunk@.len() && is_set(mask_chunk@[p]) ==> in_some_run(runs@, p),
{
    let len = mask_chunk.len();
    let mut runs: Vec<(usize, usize)> = Vec::new();
    let mut start: Option<usize> = None;
    let mut i: usize = 0;
    while i < len
        invariant
            len == mask_chunk@.len(),
            i <= len,
            forall|j: int| 0 <= j < runs@.len() ==> (#[trigger] runs@[j]).0 < runs@[j].1 <= i,
            forall|j: int| 0 <= j < runs@.len() - 1 ==> (#[trigger] runs@[j]).1 < runs@[j + 1].0,
            forall|p: int|
                #[trigger] in_some_run(runs@, p) ==> 0 <= p < i && is_set(mask_chunk@[p]),
            match start {
                Some(s) => {
                    &&& s < i
                    &&& (forall|p: int| s <= p < i ==> is_set(mask_chunk@[p]))
                    &&& (forall|j: int| 0 <= j < runs@.len() ==> (#[trigger] runs@[j]).1 < s)
                    &&& (forall|p: int|
                        0 <= p < s && is_set(mask_chunk@[p]) ==> in_some_run(runs@, p))
                },
                None => {
                    &&& (forall|p: int|
                        0 <= p < i && is_set(mask_chunk@[p]) ==> in_some_run(runs@, p))
                    &&& (forall|j: int| 0 <= j < runs@.len() ==> (#[trigger] runs@[j]).1 < i)
                },
            },
        decreases len - i,
    {
        let ghost old_runs = runs@;
        if mask_chunk[i] == SET {
            if start.is_none() {
                start = Some(i);
            }
        } else {
            if let Some(s) = start {
                runs.push((s, i));
                proof {
                    assert forall|p: int| #[trigger] in_some_run(runs@, p) implies 0 <= p < i + 1
                        && is_set(mask_chunk@[p]) by {
                        let j = choose|j: int|
                            0 <= j < runs@.len() && (#[trigger] runs@[j]).0 <= p < runs@[j].1;
                        if j < old_runs.len() {
                            assert(in_some_run(old_runs, p));
                        }
                    }
                    assert forall|p: int|
                        0 <= p < i + 1 && is_set(mask_chunk@[p]) implies in_some_run(
                        runs@,
                        p,
                    ) by {
                        if p < s {
                            assert(in_some_run(old_runs, p));
                            let j = choose|j: int|
                                0 <= j < old_runs.len() && (#[trigger] old_runs[j]).0 <= p
                                    < old_runs[j].1;
                            assert(runs@[j].0 <= p < runs@[j].1);
                        } else {
                            let j = runs@.len() - 1;
                            assert(runs@[j].0 <= p < runs@[j].1);
                        }
                    }
                }
                start = None;
            }
        }
        i = i + 1;
        proof {
            if start is None {
                assert forall|p: int| #[trigger] in_some_run(runs@, p) implies 0 <= p < i
                    && is_set(mask_chunk@[p]) by {}
            }
        }
    }
    if let Some(s) = start {
        let ghost old_runs = runs@;
        runs.push((s, len));
        proof {
            assert forall|p: int| #[trigger] in_some_run(runs@, p) implies 0 <= p < len && is_set(
                mask_chunk@[p],
            ) by {
                let j = choose|j: int|
                    0 <= j < runs@.len() && (#[trigger] runs@[j]).0 <= p < runs@[j].1;
                if j < old_runs.len() {
                    assert(in_some_run(old_runs, p));
                }
            }
            assert forall|p: int| 0 <= p < len && is_set(mask_chunk@[p]) implies in_some_run(
                runs@,
                p,
            ) by {
                if p < s {
                    assert(in_some_run(old_runs, p));
                    let j = choose|j: int|
                        0 <= j < old_runs.len() && (#[trigger] old_runs[j]).0 <= p < old_runs[j].1;
                    assert(runs@[j].0 <= p < runs@[j].1);
                } else {
                    let j = runs@.len() - 1;
                    assert(runs@[j].0 <= p < runs@[j].1);
                }
            }
        }
    }
    runs
}

/// Adding one more matching stretch of bytes to a scan: the `SET` bytes of
/// `[0, a + chunk.len())` are those of `[0, a)` plus those of the chunk,
/// whenever the chunk mirrors the mask's stream at `a`.
proof fn lemma_count_set_bytes_add(mask: Seq<u8>, a: int, chunk: Seq<u8>)
    requires
        0 <= a,
        forall|j: int| 0 <= j < chunk.len() ==> chunk[j] == stream_byte(mask, a + j),
    ensures
        count_set_bytes(mask, a + chunk.len()) == count_set_bytes(mask, a) + count_set_seq(chunk),
    decreases chunk.len(),
{
    if chunk.len() > 0 {
        let shorter = chunk.drop_last();
        assert(chunk.last() == stream_byte(mask, a + chunk.len() - 1));
        lemma_count_set_bytes_add(mask, a, shorter);
    }
}

/// Folds the masked overlay bytes into the seed. Without `force` the run
/// refuses: it returns the guard error and writes nothing. With `force`
/// it scans the mask's whole-chunk extent; chunks without a `SET` byte
/// are skipped, and in every other chunk exactly the `SET` positions take
/// the overlay's byte while all others keep the seed's. Returns how many
/// chunks were written and how many bytes in all. The overlay and the
/// mask are never modified.
pub fn apply(files: &mut Files, force: bool) -> (r: Result<ApplyStats, EngineError>)
    requires
        old(files).wf(),
        old(files).mask@.len() <= old(files).seed@.len(),
    ensures
        final(files).wf(),
        final(files).block_size == old(files).block_size,
        final(files).overlay@ == old(files).overlay@,
        final(files).mask@ == old(files).mask@,
        !force ==> ({
            &&& r == Err::<ApplyStats, EngineError>(EngineError::GuardRefused)
            &&& final(files).seed@ == old(files).seed@
        }),
        force ==> ({
            let bs = old(files).block_size as int;
            let end = scan_end(old(files).mask@.len() as int, bs);
            &&& r is Ok
            &&& final(files).seed@ == applied(
                old(files).seed@,
                old(files).overlay@,
                old(files).mask@,
                end,
            )
            &&& r->Ok_0.blocks_applied == count_set_chunks(old(files).mask@, bs, end)
            &&& r->Ok_0.bytes_written == count_set_bytes(old(files).mask@, end)
        }),
{
    if !force {
        return Err(EngineError::GuardRefused);
    }
    let ghost seed0 = files.seed@;
    let ghost ov0 = files.overlay@;
    let ghost mask0 = files.mask@;
    let bs: usize = files.block_size as usize;
    let limit: usize = files.mask.len() / bs;
    proof {
        lemma_scan_end(mask0.len() as int, bs as int);
        assert(files.seed.len() == seed0.len());
    }
    let end: usize = limit * bs;
    let mut o: usize = 0;
    let mut blocks: u64 = 0;
    let mut bytes: u64 = 0;
    proof {
        assert(files.seed@ =~= applied(seed0, ov0, mask0, 0));
    }
    while o < end
        invariant
            files.wf(),
            files.block_size == old(files).block_size,
            bs == files.block_size as usize,
            bs >= 1,
            end == scan_end(mask0.len() as int, bs as int),
            end <= mask0.len(),
            mask0.len() <= seed0.len(),
            seed0.len() <= usize::MAX,
            end as int % bs as int == 0,
            files.overlay@ == ov0,
            files.mask@ == mask0,
            o <= end,
            o as int % bs as int == 0,
            files.seed@ == applied(seed0, ov0, mask0, o as int),
            blocks == count_set_chunks(mask0, bs as int, o as int),
            bytes == count_set_bytes(mask0, o as int),
        decreases end - o,
    {
        proof {
            lemma_aligned_gap(o as int, end as int, bs as int);
            lemma_count_set_chunks_le(mask0, bs as int, o as int);
            lemma_count_set_bytes_le(mask0, o as int);
        }
        let mask_chunk = read_range(&files.mask, o, bs);
        if all_bytes_are(&mask_chunk, UNSET) {
            proof {
                assert forall|i: int| o <= i < o + bs implies !is_set(stream_byte(mask0, i)) by {
                    assert(mask_chunk@[i - o] == stream_byte(mask0, i));
                }
                assert(!chunk_has_set(mask0, o as int, bs as int));
                lemma_count_set_bytes_add(mask0, o as int, mask_chunk@);
                assert(count_set_seq(mask_chunk@) == 0) by {
                    lemma_count_set_seq_none(mask_chunk@);
                }
                assert(applied(seed0, ov0, mask0, o + bs as int) =~= applied(
                    seed0,
                    ov0,
                    mask0,
                    o as int,
                ));
            }
        } else {
            let overlay_chunk = read_range(&files.overlay, o, bs);
            let runs = set_runs(&mask_chunk);
            let set_count = count_set(&mask_chunk);
            let ghost seed_at_chunk = files.seed@;
            let mut r_idx: usize = 0;
            while r_idx < runs.len()
                invariant
                    files.wf(),
                    files.block_size == old(files).block_size,
                    files.overlay@ == ov0,
                    files.mask@ == mask0,
                    bs == files.block_size as usize,
                    bs >= 1,
                    o + bs <= end <= mask0.len() <= seed0.len() <= usize::MAX,
                    mask_chunk@.len() == bs,
                    overlay_chunk@.len() == bs,
                    forall|j: int| 0 <= j < bs ==> mask_chunk@[j] == stream_byte(mask0, o + j),
                    forall|j: int| 0 <= j < bs ==> overlay_chunk@[j] == stream_byte(ov0, o + j),
                    forall|j: int|
                        0 <= j < runs@.len() ==> (#[trigger] runs@[j]).0 < runs@[j].1 <= bs,
                    forall|p: int|
                        #[trigger] in_some_run(runs@, p) ==> 0 <= p < bs && is_set(
                            mask_chunk@[p],
                        ),
                    forall|p: int|
                        0 <= p < bs && is_set(mask_chunk@[p]) ==> in_some_run(runs@, p),
                    r_idx <= runs@.len(),
                    files.seed@.len() == seed0.len(),
                    seed_at_chunk.len() == seed0.len(),
                    forall|i: int|
                        0 <= i < seed0.len() ==> files.seed@[i] == (if o <= i < o + bs
                            && in_run_prefix(runs@, r_idx as int, i - o) {
                            stream_byte(ov0, i)
                        } else {
                            seed_at_chunk[i]
                        }),
                decreases runs@.len() - r_idx,
            {
                let (rs, re) = runs[r_idx];
                let ghost before = files.seed@;
                copy_into(&mut files.seed, o + rs, &overlay_chunk, rs, re);
                proof {
                    assert forall|i: int|
                        0 <= i < seed0.len() implies files.seed@[i] == (if o <= i < o + bs
                        && in_run_prefix(runs@, r_idx + 1, i - o) {
                        stream_byte(ov0, i)
                    } else {
                        seed_at_chunk[i]
                    }) by {
                        let p = i - o;
                        if o + rs <= i < o + re {
                            assert(in_run_prefix(runs@, r_idx + 1, p)) by {
                                assert(runs@[r_idx as int].0 <= p < runs@[r_idx as int].1);
                            }
                            assert(files.seed@[i] == overlay_chunk@[rs + (i - (o + rs))]);
                        } else {
                            assert(files.seed@[i] == before[i]);
                            if in_run_prefix(runs@, r_idx + 1, p) {
                                if !in_run_prefix(runs@, r_idx as int, p) {
                                    let j = choose|j: int|
                                        0 <= j < r_idx + 1 && (#[trigger] runs@[j]).0 <= p
                                            < runs@[j].1;
                                    assert(j == r_idx as int);
                                    assert(false);
                                }
                            }
                        }
                    }
                }
                r_idx = r_idx + 1;
            }
            proof {
                assert forall|i: int| 0 <= i < seed0.len() implies files.seed@[i] == applied(
                    seed0,
                    ov0,
                    mask0,
                    o + bs as int,
                )[i] by {
                    if o <= i < o + bs {
                        let p = i - o;
                        assert(mask_chunk@[p] == stream_byte(mask0, o + p));
                        assert(o + p == i);
                        if is_set(mask_chunk@[p]) {
                            assert(in_some_run(runs@, p));
                        } else {
                            if in_some_run(runs@, p) {
                                assert(is_set(mask_chunk@[p]));
                            }
                        }
                    }
                }
                assert(files.seed@ =~= applied(seed0, ov0, mask0, o + bs as int));
                lemma_count_set_bytes_add(mask0, o as int, mask_chunk@);
            }
            if runs.len() > 0 {
                blocks = blocks + 1;
            }
            proof {
                if runs@.len() > 0 {
                    let p = runs@[0].0 as int;
                    assert(in_some_run(runs@, p)) by {
                        assert((#[trigger] runs@[0]).0 <= p < runs@[0].1);
                    }
                    assert(is_set(mask_chunk@[p]));
                    assert(mask_chunk@[p] == stream_byte(mask0, o + p));
                    assert(chunk_has_set(mask0, o as int, bs as int)) by {
                        assert(o <= o + p < o + bs && is_set(stream_byte(mask0, o + p)));
                    }
                } else {
                    if chunk_has_set(mask0, o as int, bs as int) {
                        let w = choose|i: int|
                            o <= i < o + bs && is_set(#[trigger] stream_byte(mask0, i));
                        let p = w - o;
                        assert(mask_chunk@[p] == stream_byte(mask0, o + p));
                        assert(o + p == w);
                        assert(in_some_run(runs@, p));
                        assert(false);
                    }
                }
            }
            bytes = bytes + (set_count as u64);
        }
        o = o + bs;
        proof {
            lemma_aligned_step((o - bs) as int, bs as int);
        }
    }
    Ok(ApplyStats { blocks_applied: blocks, bytes_written: bytes })
}

/// A buffer without a single `SET` byte counts no `SET` bytes.
proof fn lemma_count_set_seq_none(s: Seq<u8>)
    requires
        forall|j: int| 0 <= j < s.len() ==> !is_set(s[j]),
    ensures
        count_set_seq(s) == 0,
    decreases s.len(),
{
    if s.len() > 0 {
        lemma_count_set_seq_none(s.drop_last());
    }
}

/// When no `SET` byte exists below the chunk-aligned offset `o`, the
/// apply scan up to `o` finds no chunk to write.
proof fn lemma_count_set_chunks_none(mask: Seq<u8>, bs: int, o: int)
    requires
        bs >= 1,
        o >= 0,
        forall|i: int| 0 <= i < o ==> !is_set(stream_byte(mask, i)),
    ensures
        count_set_chunks(mask, bs, o) == 0,
    decreases o,
{
    if o >= bs {
        lemma_count_set_chunks_none(mask, bs, o - bs);
        if chunk_has_set(mask, o - bs, bs) {
            let w = choose|i: int| o - bs <= i < o && is_set(stream_byte(mask, i));
            assert(!is_set(stream_byte(mask, w)));
        }
    }
}

/// When no byte below `o` is `SET`, no byte is counted as written.
proof fn lemma_count_set_bytes_none(mask: Seq<u8>, o: int)
    requires
        forall|i: int| 0 <= i < o ==> !is_set(stream_byte(mask, i)),
    ensures
        count_set_bytes(mask, o) == 0,
    decreases o,
{
    if o > 0 {
        lemma_count_set_bytes_none(mask, o - 1);
    }
}

/// Law: apply guard, second half. With an all-`UNSET` mask, a forced
/// apply writes nothing: the seed comes out unchanged and the run reports
/// zero chunks and zero bytes.
pub proof fn lemma_apply_all_unset(seed: Seq<u8>, overlay: Seq<u8>, mask: Seq<u8>, bs: int)
    requires
        bs >= 1,
        forall|i: int| 0 <= i < mask.len() ==> !is_set(#[trigger] stream_byte(mask, i)),
    ensures
        ({
            let end = scan_end(mask.len() as int, bs);
            &&& applied(seed, overlay, mask, end) == seed
            &&& count_set_chunks(mask, bs, end) == 0
            &&& count_set_bytes(mask, end) == 0
        }),
{
    let end = scan_end(mask.len() as int, bs);
    lemma_scan_end(mask.len() as int, bs);
    assert forall|i: int| 0 <= i < end implies !is_set(stream_byte(mask, i)) by {}
    lemma_count_set_chunks_none(mask, bs, end);
    lemma_count_set_bytes_none(mask, end);
    assert(applied(seed, overlay, mask, end) =~= seed);
}

} // verus!
