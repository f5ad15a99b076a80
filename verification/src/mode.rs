//! The deletion mode and its confirmation policy.

use vstd::prelude::*;

verus! {

/// Recycle Bin deletes run silently up to and including this many files.
pub const RECYCLE_SILENT_LIMIT: usize = 2;

/// How matched files are removed, and when the user must confirm first.
#[derive(Debug, Clone, Copy, PartialEq, Eq, Structural)]
pub enum Mode {
    /// Send files to the Recycle Bin (recoverable). Silent for small sets.
    RecycleBin,
    /// Delete files permanently (unrecoverable). Always confirms.
    Permanent,
}

/// Whether deleting `count` files in `mode` needs the user's approval first.
pub open spec fn confirmation_required(mode: Mode, count: nat) -> bool {
    match mode {
        Mode::RecycleBin => count > RECYCLE_SILENT_LIMIT,
        Mode::Permanent => true,
    }
}

impl Mode {
    /// Whether the user must approve before deleting `count` files.
    pub fn requires_confirmation(self, count: usize) -> (required: bool)
        ensures
            required == confirmation_required(self, count as nat),
            self == Mode::Permanent ==> required,
            self == Mode::RecycleBin ==> (required <==> count > 2),
    {
        match self {
            Mode::RecycleBin => count > RECYCLE_SILENT_LIMIT,
            Mode::Permanent => true,
        }
    }
}

/// Raising the number of files never lifts a requirement to confirm: a set
/// that needs approval keeps needing it when it grows.
pub proof fn lemma_confirmation_monotonic(mode: Mode, smaller: nat, larger: nat)
    requires
        smaller <= larger,
        confirmation_required(mode, smaller),
    ensures
        confirmation_required(mode, larger),
{
}

} // verus!
