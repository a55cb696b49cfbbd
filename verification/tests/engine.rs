use overmask::arguments::TrimPolicy;
use overmask::block_device::Virtual;
use overmask::model::{SET, UNSET};
use overmask::Files;

fn device(seed: Vec<u8>, overlay: Vec<u8>, mask: Vec<u8>, block_size: u32) -> Virtual {
    Virtual {
        files: Files {
            seed,
            overlay,
            mask,
            block_size,
        },
        trim_policy: TrimPolicy::ZeroFill,
    }
}

#[test]
fn read_all_unset_comes_from_seed() {
    let v = device(vec![1, 2, 3, 4], vec![9, 9, 9, 9], vec![0, 0, 0, 0], 2);
    assert_eq!(v.read(0, 4), vec![1, 2, 3, 4]);
}

#[test]
fn read_all_set_comes_from_overlay() {
    let v = device(
        vec![1, 2, 3, 4],
        vec![9, 8, 7, 6],
        vec![SET, SET, SET, SET],
        2,
    );
    assert_eq!(v.read(0, 4), vec![9, 8, 7, 6]);
}

#[test]
fn read_mixed_mask_merges_per_byte() {
    // Mask alternates UNSET, SET, UNSET, SET: the result must interleave
    // seed and overlay bytes at byte granularity.
    let v = device(
        vec![1, 2, 3, 4],
        vec![9, 8, 7, 6],
        vec![UNSET, SET, UNSET, SET],
        2,
    );
    assert_eq!(v.read(0, 4), vec![1, 8, 3, 6]);
}

#[test]
fn read_empty_stores_zero_extend() {
    // Overlay and mask shorter than the seed read as zero-extended
    // streams: a missing mask byte is UNSET, so the seed shows through.
    let v = device(vec![5, 6, 7, 8], vec![9], vec![SET], 2);
    assert_eq!(v.read(0, 4), vec![9, 6, 7, 8]);
}

#[test]
fn read_unaligned_subrange() {
    let v = device(
        vec![10, 11, 12, 13, 14, 15],
        vec![0, 0, 90, 91, 0, 0],
        vec![0, 0, SET, SET, 0, 0],
        4,
    );
    assert_eq!(v.read(1, 3), vec![11, 90, 91]);
}

#[test]
fn read_corrupt_mask_byte_falls_back_to_seed() {
    // A mask byte that is neither sentinel does not redirect: only SET
    // selects the overlay.
    let v = device(vec![1, 2], vec![9, 9], vec![0x7f, SET], 2);
    assert_eq!(v.read(0, 2), vec![1, 9]);
}

#[test]
fn write_then_read_round_trips() {
    let mut v = device(vec![0; 8], vec![0; 8], vec![0; 8], 4);
    v.write(2, &vec![41, 42, 43]);
    assert_eq!(v.read(2, 3), vec![41, 42, 43]);
}

#[test]
fn write_marks_mask_and_spares_seed() {
    let mut v = device(vec![1, 2, 3, 4], vec![0; 4], vec![0; 4], 2);
    v.write(1, &vec![77, 78]);
    assert_eq!(v.files.seed, vec![1, 2, 3, 4]);
    assert_eq!(v.files.mask, vec![UNSET, SET, SET, UNSET]);
    assert_eq!(v.files.overlay, vec![0, 77, 78, 0]);
    assert_eq!(v.read(0, 4), vec![1, 77, 78, 4]);
}

#[test]
fn write_extends_short_overlay_and_mask() {
    let mut v = device(vec![1, 2, 3, 4], Vec::new(), Vec::new(), 2);
    v.write(2, &vec![50, 51]);
    assert_eq!(v.files.overlay, vec![0, 0, 50, 51]);
    assert_eq!(v.files.mask, vec![UNSET, UNSET, SET, SET]);
    assert_eq!(v.read(0, 4), vec![1, 2, 50, 51]);
}

#[test]
fn seed_immutable_under_operation_sequences() {
    let mut v = device(vec![1, 2, 3, 4, 5, 6], vec![0; 6], vec![0; 6], 2);
    let seed_before = v.files.seed.clone();
    v.write(0, &vec![9, 9]);
    let _ = v.read(0, 6);
    v.trim(1, 3);
    v.flush();
    v.write(4, &vec![8]);
    let _ = v.read(2, 2);
    v.trim(0, 6);
    v.flush();
    v.unmount();
    assert_eq!(v.files.seed, seed_before);
}

#[test]
fn trim_reverts_range_to_seed() {
    let mut v = device(vec![1, 2, 3, 4], vec![9; 4], vec![SET; 4], 2);
    v.trim(1, 2);
    assert_eq!(v.read(0, 4), vec![9, 2, 3, 9]);
    assert_eq!(v.files.mask, vec![SET, UNSET, UNSET, SET]);
}

#[test]
fn trim_reads_zero_where_seed_is_zero() {
    // Zero-fill trim over a zero seed region reads back as zeros.
    let mut v = device(vec![0; 4], vec![9; 4], vec![SET; 4], 2);
    v.trim(0, 4);
    assert_eq!(v.read(0, 4), vec![0, 0, 0, 0]);
    assert_eq!(v.files.overlay, vec![0; 4]);
    assert_eq!(v.files.mask, vec![0; 4]);
}

#[test]
fn trim_under_reclaim_policy_reads_zero_without_zero_writes() {
    // The reclaim policy deallocates instead of writing zeros; the store
    // yields zeros for the reclaimed range all the same.
    let mut v = device(vec![0; 4], vec![9; 4], vec![SET; 4], 2);
    v.trim_policy = TrimPolicy::Reclaim;
    v.trim(0, 4);
    assert_eq!(v.read(0, 4), vec![0, 0, 0, 0]);
}

#[test]
fn block_size_and_count_follow_seed_extent() {
    let v = device(vec![0; 10], vec![0; 2], vec![0; 100], 4);
    assert_eq!(v.block_size(), 4);
    // The seed defines the device extent: 10 / 4 whole blocks, however
    // long the overlay and the mask are.
    assert_eq!(v.blocks(), 2);
}

#[test]
fn flush_changes_nothing() {
    let mut v = device(vec![1, 2], vec![3, 4], vec![SET, UNSET], 2);
    v.flush();
    assert_eq!(v.files.seed, vec![1, 2]);
    assert_eq!(v.files.overlay, vec![3, 4]);
    assert_eq!(v.files.mask, vec![SET, UNSET]);
}
