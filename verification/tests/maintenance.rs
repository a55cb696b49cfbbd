use overmask::apply::{apply, count_set, set_runs, ApplyStats};
use overmask::arguments::EngineError;
use overmask::clean::{dedup_pass, truncate_boundary, truncate_pass};
use overmask::model::{SET, UNSET};
use overmask::Files;

fn files(seed: Vec<u8>, overlay: Vec<u8>, mask: Vec<u8>, block_size: u32) -> Files {
    Files {
        seed,
        overlay,
        mask,
        block_size,
    }
}

#[test]
fn dedup_frees_identical_chunks_only() {
    // Chunk 0 identical, chunk 1 differs in one byte: only chunk 0 is
    // reverted, the differing chunk is untouched.
    let mut f = files(
        vec![1, 2, 3, 4],
        vec![1, 2, 3, 5],
        vec![SET, SET, SET, SET],
        2,
    );
    let freed = dedup_pass(&mut f);
    assert_eq!(freed, 1);
    assert_eq!(f.seed, vec![1, 2, 3, 4]);
    assert_eq!(f.overlay, vec![0, 0, 3, 5]);
    assert_eq!(f.mask, vec![UNSET, UNSET, SET, SET]);
}

#[test]
fn dedup_read_after_free_returns_seed() {
    let mut f = files(vec![7, 8], vec![7, 8], vec![SET, SET], 2);
    let freed = dedup_pass(&mut f);
    assert_eq!(freed, 1);
    let v = overmask::block_device::Virtual {
        files: f,
        trim_policy: overmask::arguments::TrimPolicy::ZeroFill,
    };
    assert_eq!(v.read(0, 2), vec![7, 8]);
    assert_eq!(v.files.mask, vec![UNSET, UNSET]);
}

#[test]
fn dedup_one_differing_byte_blocks_whole_chunk() {
    let mut f = files(vec![1, 2, 3, 4], vec![1, 2, 9, 4], vec![0; 4], 4);
    let freed = dedup_pass(&mut f);
    assert_eq!(freed, 0);
    assert_eq!(f.overlay, vec![1, 2, 9, 4]);
}

#[test]
fn dedup_second_run_frees_nothing() {
    // No seed chunk is entirely zero, so a second pass finds nothing.
    let mut f = files(
        vec![1, 2, 3, 4, 5, 6],
        vec![1, 2, 9, 9, 5, 6],
        vec![0, 0, SET, SET, SET, SET],
        2,
    );
    let first = dedup_pass(&mut f);
    assert_eq!(first, 2);
    let second = dedup_pass(&mut f);
    assert_eq!(second, 0);
}

#[test]
fn dedup_all_zero_seed_chunk_is_counted_every_run() {
    // The exception to idempotent counting: a freed chunk over an
    // all-zero seed chunk compares identical again on the next run.
    let mut f = files(vec![0, 0], vec![0, 0], vec![0, 0], 2);
    assert_eq!(dedup_pass(&mut f), 1);
    assert_eq!(dedup_pass(&mut f), 1);
    assert_eq!(f.overlay, vec![0, 0]);
}

#[test]
fn dedup_compares_overlay_as_zero_extended() {
    // A missing overlay chunk reads as zeros; it is identical to a zero
    // seed chunk and the zero write extends both stores.
    let mut f = files(vec![0, 0, 1, 1], Vec::new(), Vec::new(), 2);
    let freed = dedup_pass(&mut f);
    assert_eq!(freed, 1);
    assert_eq!(f.overlay, vec![0, 0]);
    assert_eq!(f.mask, vec![0, 0]);
}

#[test]
fn dedup_ignores_partial_tail_chunk() {
    // Only whole chunks are scanned: the trailing odd byte stays.
    let mut f = files(vec![1, 1, 1], vec![1, 1, 1], vec![SET, SET, SET], 2);
    let freed = dedup_pass(&mut f);
    assert_eq!(freed, 1);
    assert_eq!(f.overlay, vec![0, 0, 1]);
    assert_eq!(f.mask, vec![UNSET, UNSET, SET]);
}

#[test]
fn truncate_boundary_finds_trailing_unset_chunks() {
    // Six mask bytes, chunk size 2: chunk 1 has a SET byte, chunks 2 is
    // all UNSET, so the cut is at byte 4.
    let mask = vec![0, 0, SET, 0, 0, 0];
    assert_eq!(truncate_boundary(&mask, 2), Some(4));
}

#[test]
fn truncate_boundary_none_when_last_chunk_used() {
    let mask = vec![0, 0, 0, SET];
    assert_eq!(truncate_boundary(&mask, 2), None);
}

#[test]
fn truncate_boundary_all_unset_cuts_to_start() {
    let mask = vec![0, 0, 0, 0];
    assert_eq!(truncate_boundary(&mask, 2), Some(0));
}

#[test]
fn truncate_boundary_empty_mask_is_none() {
    let mask: Vec<u8> = Vec::new();
    assert_eq!(truncate_boundary(&mask, 512), None);
}

#[test]
fn truncate_pass_shrinks_overlay_and_mask_exactly() {
    // Last two of four chunks are all UNSET: both stores shrink to
    // (totalChunks - 2) * block_size = 4 bytes.
    let mut f = files(
        vec![0; 8],
        vec![9, 9, 9, 9, 9, 9, 9, 9],
        vec![SET, 0, 0, SET, 0, 0, 0, 0],
        2,
    );
    let cut = truncate_pass(&mut f);
    assert_eq!(cut, Some(4));
    assert_eq!(f.mask, vec![SET, 0, 0, SET]);
    assert_eq!(f.overlay, vec![9, 9, 9, 9]);
}

#[test]
fn truncate_pass_never_extends_a_short_overlay() {
    // The overlay is already shorter than the cut: it stays as it is.
    let mut f = files(vec![0; 8], vec![9, 9], vec![SET, 0, 0, 0, 0, 0, 0, 0], 2);
    let cut = truncate_pass(&mut f);
    assert_eq!(cut, Some(2));
    assert_eq!(f.mask, vec![SET, 0]);
    assert_eq!(f.overlay, vec![9, 9]);
}

#[test]
fn truncate_pass_no_op_reports_none() {
    let mut f = files(vec![0; 4], vec![8; 4], vec![0, 0, SET, SET], 2);
    let cut = truncate_pass(&mut f);
    assert_eq!(cut, None);
    assert_eq!(f.mask, vec![0, 0, SET, SET]);
    assert_eq!(f.overlay, vec![8; 4]);
}

#[test]
fn apply_without_force_refuses_and_writes_nothing() {
    let mut f = files(vec![1, 2, 3, 4], vec![9; 4], vec![SET; 4], 2);
    let r = apply(&mut f, false);
    assert_eq!(r, Err(EngineError::GuardRefused));
    assert_eq!(f.seed, vec![1, 2, 3, 4]);
    assert_eq!(f.overlay, vec![9; 4]);
    assert_eq!(f.mask, vec![SET; 4]);
}

#[test]
fn guard_refusal_has_its_own_exit_code() {
    assert_eq!(EngineError::GuardRefused.exit_code(), 2);
    assert_eq!(EngineError::SeedRead.exit_code(), 1);
    assert_eq!(EngineError::SeedWrite.exit_code(), 1);
    assert_eq!(EngineError::OverlayRead.exit_code(), 1);
    assert_eq!(EngineError::OverlayWrite.exit_code(), 1);
    assert_eq!(EngineError::MaskRead.exit_code(), 1);
    assert_eq!(EngineError::MaskWrite.exit_code(), 1);
    assert_eq!(EngineError::Truncate.exit_code(), 1);
    assert_eq!(EngineError::Transport.exit_code(), 1);
}

#[test]
fn apply_forced_with_all_unset_mask_writes_nothing() {
    let mut f = files(vec![1, 2, 3, 4], vec![9; 4], vec![0; 4], 2);
    let r = apply(&mut f, true);
    assert_eq!(
        r,
        Ok(ApplyStats {
            blocks_applied: 0,
            bytes_written: 0
        })
    );
    assert_eq!(f.seed, vec![1, 2, 3, 4]);
}

#[test]
fn apply_fidelity_writes_only_masked_bytes() {
    // Seed [0,0,0,0], overlay [9,9,9,9], mask [SET,UNSET,SET,SET] at
    // block size 4 must yield seed [9,0,9,9].
    let mut f = files(vec![0, 0, 0, 0], vec![9, 9, 9, 9], vec![SET, UNSET, SET, SET], 4);
    let r = apply(&mut f, true);
    assert_eq!(
        r,
        Ok(ApplyStats {
            blocks_applied: 1,
            bytes_written: 3
        })
    );
    assert_eq!(f.seed, vec![9, 0, 9, 9]);
    assert_eq!(f.overlay, vec![9, 9, 9, 9]);
    assert_eq!(f.mask, vec![SET, UNSET, SET, SET]);
}

#[test]
fn apply_counts_chunks_and_bytes_across_blocks() {
    let mut f = files(
        vec![0; 8],
        vec![1, 2, 3, 4, 5, 6, 7, 8],
        vec![SET, 0, 0, 0, SET, SET, 0, SET],
        2,
    );
    let r = apply(&mut f, true);
    assert_eq!(
        r,
        Ok(ApplyStats {
            blocks_applied: 3,
            bytes_written: 4
        })
    );
    assert_eq!(f.seed, vec![1, 0, 0, 0, 5, 6, 0, 8]);
}

#[test]
fn apply_corrupt_mask_chunk_applies_no_run() {
    // A chunk whose only non-zero mask byte is not the SET sentinel has
    // no run to write: nothing reaches the seed and nothing is counted.
    let mut f = files(vec![1, 2], vec![9, 9], vec![0x7f, 0x01], 2);
    let r = apply(&mut f, true);
    assert_eq!(
        r,
        Ok(ApplyStats {
            blocks_applied: 0,
            bytes_written: 0
        })
    );
    assert_eq!(f.seed, vec![1, 2]);
}

#[test]
fn apply_scans_mask_extent_only() {
    // The scan covers the mask's whole-chunk extent; seed bytes past it
    // keep their values.
    let mut f = files(vec![1, 2, 3, 4, 5, 6], vec![9, 9], vec![SET, SET], 2);
    let r = apply(&mut f, true);
    assert_eq!(
        r,
        Ok(ApplyStats {
            blocks_applied: 1,
            bytes_written: 2
        })
    );
    assert_eq!(f.seed, vec![9, 9, 3, 4, 5, 6]);
}

#[test]
fn set_runs_finds_maximal_runs() {
    let runs = set_runs(&vec![SET, SET, 0, SET, 0, 0, SET]);
    assert_eq!(runs, vec![(0, 2), (3, 4), (6, 7)]);
}

#[test]
fn set_runs_empty_and_full() {
    assert_eq!(set_runs(&Vec::new()), vec![]);
    assert_eq!(set_runs(&vec![0, 0, 0]), vec![]);
    assert_eq!(set_runs(&vec![SET, SET, SET]), vec![(0, 3)]);
}

#[test]
fn count_set_counts_only_the_sentinel() {
    assert_eq!(count_set(&vec![SET, 0, 0x7f, SET, SET]), 3);
    assert_eq!(count_set(&Vec::new()), 0);
}
