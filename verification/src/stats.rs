//! Per-worker statistics, merged into the session totals on an interval.

use vstd::prelude::*;

verus! {

/// Statistics collected about number of fuzz cases and VM exits.
///
/// Workers keep a local copy and fold it into the session's shared totals at
/// the statistic-sync interval, so that the shared state is touched rarely.
pub struct Statistics {
    /// Number of fuzz cases performed on the target.
    pub fuzz_cases: u64,
    /// Number of cycles spent resetting the VM.
    pub reset_cycles: u64,
    /// Total cycles spent fuzzing.
    pub total_cycles: u64,
    /// Number of cycles spent inside the VM.
    pub vm_cycles: u64,
    /// Number of VM exits.
    pub vm_exits: u64,
}

impl Statistics {
    /// All counters zero.
    pub open spec fn spec_zero() -> Statistics {
        Statistics {
            fuzz_cases: 0,
            reset_cycles: 0,
            total_cycles: 0,
            vm_cycles: 0,
            vm_exits: 0,
        }
    }

    /// A fresh statistics block with all counters zero.
    pub fn zero() -> (r: Statistics)
        ensures
            r == Statistics::spec_zero(),
    {
        Statistics { fuzz_cases: 0, reset_cycles: 0, total_cycles: 0, vm_cycles: 0, vm_exits: 0 }
    }

    /// Sync the statistics in `self` into `master`, resetting `self`'s
    /// statistics back to 0 such that the syncing cycle can repeat. The
    /// counters add modulo the counter width.
    pub fn sync_into(&mut self, master: &mut Statistics)
        ensures
            final(master).fuzz_cases == old(master).fuzz_cases.wrapping_add(
                old(self).fuzz_cases,
            ),
            final(master).reset_cycles == old(master).reset_cycles.wrapping_add(
                old(self).reset_cycles,
            ),
            final(master).total_cycles == old(master).total_cycles.wrapping_add(
                old(self).total_cycles,
            ),
            final(master).vm_cycles == old(master).vm_cycles.wrapping_add(
                old(self).vm_cycles,
            ),
            final(master).vm_exits == old(master).vm_exits.wrapping_add(old(self).vm_exits),
            *final(self) == Statistics::spec_zero(),
    {
        master.fuzz_cases = master.fuzz_cases.wrapping_add(self.fuzz_cases);
        master.reset_cycles = master.reset_cycles.wrapping_add(self.reset_cycles);
        master.vm_cycles = master.vm_cycles.wrapping_add(self.vm_cycles);
        master.total_cycles = master.total_cycles.wrapping_add(self.total_cycles);
        master.vm_exits = master.vm_exits.wrapping_add(self.vm_exits);

        self.fuzz_cases = 0;
        self.reset_cycles = 0;
        self.total_cycles = 0;
        self.vm_cycles = 0;
        self.vm_exits = 0;
    }
}

} // verus!
