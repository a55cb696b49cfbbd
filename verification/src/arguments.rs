//! Run configuration: which files make up the triple, the chunk size, the
//! failure policy, and the selected mode. A command-line front end fills
//! this in; the engine only reads it.

use vstd::prelude::*;

verus! {

/// How `trim` gives a range back. Exactly one policy is active per run,
/// chosen at construction time.
#[derive(Clone, Copy, PartialEq, Eq, Structural, Debug)]
pub enum TrimPolicy {
    /// Overwrite the range of the overlay and the mask with zero bytes,
    /// reverting it to the seed through the write path.
    ZeroFill,
    /// Deallocate the range's backing storage in the overlay and the mask;
    /// the store then reads the range back as zeros.
    Reclaim,
}

/// The mode a run executes, with its mode-specific options.
#[derive(Clone, Debug)]
pub enum MainSubcommand {
    /// Fold the masked overlay bytes back into a writable seed.
    Apply {
        /// Confirms the one operation that mutates the seed; without it the
        /// run refuses with a distinct guard status and performs no write.
        force: bool,
    },
    /// Revert overlay chunks that are byte-identical to the seed, and
    /// optionally drop the trailing all-unset space.
    Clean {
        /// Shrink the overlay and mask files to the last used chunk.
        truncate: bool,
    },
    /// Expose the triple as a virtual block device until interrupted.
    Device {
        /// Path of the kernel block-device node to mount on.
        nbd_device: String,
        /// Seconds before the device transport times a request out.
        nbd_timeout: u64,
        /// Report every device operation to the observer.
        print_operations: bool,
        /// How `trim` gives a range back.
        trim_policy: TrimPolicy,
    },
}

/// Everything a run is configured with, shared by all modes.
#[derive(Clone, Debug)]
pub struct Arguments {
    /// Where the original read-only data is read from.
    pub seed_file: String,
    /// Where modified data is stored.
    pub overlay_file: String,
    /// Where the mask of the modified data is stored.
    pub mask_file: String,
    /// Chunk size in bytes for scanning and transport requests.
    pub block_size: u32,
    /// Carry on with best-effort data after a store failure instead of
    /// aborting the operation.
    pub ignore_errors: bool,
    /// The selected mode.
    pub subcommand: MainSubcommand,
}

/// Default chunk size in bytes.
pub const DEFAULT_BLOCK_SIZE: u32 = 512;

/// Default device transport timeout in seconds.
pub const DEFAULT_NBD_TIMEOUT: u64 = 60;

impl Arguments {
    /// The configuration is usable: chunked scans need a positive chunk
    /// size.
    pub open spec fn wf(&self) -> bool {
        self.block_size >= 1
    }
}

/// Everything that can go wrong in a run, one variant per failing store
/// and direction, plus the guard refusal and transport failures.
#[derive(Clone, Copy, PartialEq, Eq, Structural, Debug)]
pub enum EngineError {
    /// A read from the seed failed.
    SeedRead,
    /// A write to the seed failed; only `apply` writes the seed.
    SeedWrite,
    /// A read from the overlay failed.
    OverlayRead,
    /// A write to the overlay failed.
    OverlayWrite,
    /// A read from the mask failed.
    MaskRead,
    /// A write to the mask failed.
    MaskWrite,
    /// Shrinking the overlay or the mask failed.
    Truncate,
    /// `apply` was asked to run without its confirmation flag.
    GuardRefused,
    /// Mounting, unmounting or configuring the device transport failed.
    Transport,
}

impl EngineError {
    /// The process status a run ends with on this error: the guard refusal
    /// has its own non-destructive status, every other failure shares the
    /// ordinary error status.
    pub fn exit_code(&self) -> (code: u8)
        ensures
            code == (if *self is GuardRefused {
                2u8
            } else {
                1u8
            }),
    {
        match self {
            EngineError::GuardRefused => 2,
            _ => 1,
        }
    }
}

} // verus!
