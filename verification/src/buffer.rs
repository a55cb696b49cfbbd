//! Executable helpers over byte buffers: stream reads, splicing writes,
//! uniform-byte tests and the per-byte merge.

use vstd::prelude::*;

use crate::model::{is_set, repeated, store_write, stream_byte};

verus! {

/// A buffer of `len` copies of `value`.
pub fn filled(value: u8, len: usize) -> (v: Vec<u8>)
    ensures
        v@ == repeated(value, len as nat),
{
    let mut v: Vec<u8> = Vec::new();
    let mut i: usize = 0;
    while i < len
        invariant
            i <= len,
            v@.len() == i,
            forall|j: int| 0 <= j < i ==> v@[j] == value,
        decreases len - i,
    {
        v.push(value);
        i = i + 1;
    }
    proof {
        assert(v@ =~= repeated(value, len as nat));
    }
    v
}

/// Copies `len` stream bytes of `store` starting at `offset`: in-bounds
/// positions yield the stored byte, positions past the end yield zero.
pub fn read_range(store: &Vec<u8>, offset: usize, len: usize) -> (r: Vec<u8>)
    requires
        offset + len <= usize::MAX,
    ensures
        r@.len() == len,
        forall|j: int| 0 <= j < len ==> r@[j] == stream_byte(store@, offset + j),
{
    let mut r: Vec<u8> = Vec::new();
    let mut i: usize = 0;
    while i < len
        invariant
            i <= len,
            offset + len <= usize::MAX,
            r@.len() == i,
            forall|j: int| 0 <= j < i ==> r@[j] == stream_byte(store@, offset + j),
        decreases len - i,
    {
        let pos = offset + i;
        if pos < store.len() {
            let b = store[pos];
            r.push(b);
        } else {
            r.push(0);
        }
        i = i + 1;
    }
    r
}

/// Writes `data` into `store` at `offset`, growing the store with zeros if
/// the write reaches past its end, as a write to a sparse file would.
pub fn splice(store: &mut Vec<u8>, offset: usize, data: &Vec<u8>)
    requires
        offset + data@.len() <= usize::MAX,
    ensures
        final(store)@ == store_write(old(store)@, offset as int, data@),
{
    let end = offset + data.len();
    while store.len() < end
        invariant
            store@.len() >= old(store)@.len(),
            store@.len() == old(store)@.len() || store@.len() <= end,
            forall|j: int| 0 <= j < store@.len() ==> store@[j] == stream_byte(old(store)@, j),
        decreases end - store@.len(),
    {
        store.push(0);
    }
    let ghost grown = store@;
    let mut i: usize = 0;
    while i < data.len()
        invariant
            i <= data@.len(),
            offset + data@.len() <= usize::MAX,
            end == offset + data@.len(),
            store@.len() == grown.len(),
            grown.len() >= end,
            forall|j: int| 0 <= j < grown.len() ==> grown[j] == stream_byte(old(store)@, j),
            forall|j: int| offset <= j < offset + i ==> store@[j] == data@[j - offset],
            forall|j: int|
                0 <= j < store@.len() && !(offset <= j < offset + i) ==> store@[j] == grown[j],
        decreases data@.len() - i,
    {
        let b = data[i];
        store[offset + i] = b;
        i = i + 1;
    }
    proof {
        assert(store@ =~= store_write(old(store)@, offset as int, data@));
    }
}

/// Copies `src[src_start..src_end]` into `dst` at `dst_off`, in place: the
/// destination keeps its length and every byte outside the written range.
pub fn copy_into(dst: &mut Vec<u8>, dst_off: usize, src: &Vec<u8>, src_start: usize, src_end: usize)
    requires
        src_start <= src_end,
        src_end <= src.len(),
        dst_off + (src_end - src_start) <= old(dst).len(),
    ensures
        final(dst)@.len() == old(dst)@.len(),
        forall|i: int|
            0 <= i < old(dst)@.len() ==> final(dst)@[i] == (if dst_off <= i < dst_off + (src_end
                - src_start) {
                src@[src_start + (i - dst_off)]
            } else {
                old(dst)@[i]
            }),
{
    let count = src_end - src_start;
    let mut j: usize = 0;
    while j < count
        invariant
            count == src_end - src_start,
            src_start <= src_end <= src@.len(),
            dst_off + count <= old(dst).len(),
            j <= count,
            dst@.len() == old(dst)@.len(),
            forall|i: int|
                dst_off <= i < dst_off + j ==> dst@[i] == src@[src_start + (i - dst_off)],
            forall|i: int|
                0 <= i < dst@.len() && !(dst_off <= i < dst_off + j) ==> dst@[i] == old(dst)@[i],
        decreases count - j,
    {
        let b = src[src_start + j];
        dst[dst_off + j] = b;
        j = j + 1;
    }
}

/// Whether every byte of `buf` equals `value`; true of the empty buffer.
pub fn all_bytes_are(buf: &Vec<u8>, value: u8) -> (r: bool)
    ensures
        r <==> (forall|j: int| 0 <= j < buf@.len() ==> buf@[j] == value),
{
    let mut i: usize = 0;
    while i < buf.len()
        invariant
            i <= buf@.len(),
            forall|j: int| 0 <= j < i ==> buf@[j] == value,
        decreases buf@.len() - i,
    {
        if buf[i] != value {
            return false;
        }
        i = i + 1;
    }
    true
}

/// Whether two buffers hold the same bytes.
pub fn bytes_equal(a: &Vec<u8>, b: &Vec<u8>) -> (r: bool)
    ensures
        r <==> a@ == b@,
{
    if a.len() != b.len() {
        proof {
            assert(a@.len() != b@.len());
        }
        return false;
    }
    let mut i: usize = 0;
    while i < a.len()
        invariant
            a@.len() == b@.len(),
            i <= a@.len(),
            forall|j: int| 0 <= j < i ==> a@[j] == b@[j],
        decreases a@.len() - i,
    {
        if a[i] != b[i] {
            return false;
        }
        i = i + 1;
    }
    proof {
        assert(a@ =~= b@);
    }
    true
}

/// The per-byte merge of one range of the triple: the overlay byte where
/// the mask byte is `SET`, the seed byte otherwise.
pub fn merge(seed_buf: &Vec<u8>, overlay_buf: &Vec<u8>, mask_buf: &Vec<u8>) -> (r: Vec<u8>)
    requires
        seed_buf@.len() == overlay_buf@.len(),
        seed_buf@.len() == mask_buf@.len(),
    ensures
        r@.len() == seed_buf@.len(),
        forall|j: int|
            0 <= j < r@.len() ==> r@[j] == (if is_set(mask_buf@[j]) {
                overlay_buf@[j]
            } else {
                seed_buf@[j]
            }),
{
    let mut r: Vec<u8> = Vec::new();
    let mut i: usize = 0;
    while i < seed_buf.len()
        invariant
            seed_buf@.len() == overlay_buf@.len(),
            seed_buf@.len() == mask_buf@.len(),
            i <= seed_buf@.len(),
            r@.len() == i,
            forall|j: int|
                0 <= j < i ==> r@[j] == (if is_set(mask_buf@[j]) {
                    overlay_buf@[j]
                } else {
                    seed_buf@[j]
                }),
        decreases seed_buf@.len() - i,
    {
        if mask_buf[i] == crate::model::SET {
            let b = overlay_buf[i];
            r.push(b);
        } else {
            let b = seed_buf[i];
            r.push(b);
        }
        i = i + 1;
    }
    r
}

} // verus!
