//! Records exchanged with the coverage server, and the messages of the
//! sync protocol.

use vstd::prelude::*;

verus! {

broadcast use vstd::std_specs::vec::axiom_spec_len;

/// A unit of coverage: an offset within a named module, or a raw address
/// when no module is known.
pub struct CoverageRecord {
    /// The module the address fell in, if resolved.
    pub module: Option<Vec<u8>>,
    /// Offset within the module, or the raw address.
    pub offset: u64,
}

impl CoverageRecord {
    /// The record as a mathematical value.
    pub open spec fn view(&self) -> (Option<Seq<u8>>, u64) {
        (
            match self.module {
                Some(ref m) => Some(m@),
                None => None,
            },
            self.offset,
        )
    }

    /// Copy the record.
    pub fn duplicate(&self) -> (r: CoverageRecord)
        ensures
            r@ == self@,
    {
        CoverageRecord {
            module: match &self.module {
                Some(m) => Some(crate::snapshot::clone_bytes(m)),
                None => None,
            },
            offset: self.offset,
        }
    }
}

/// An input worth keeping, keyed by its 128-bit hash.
pub struct InputRecord {
    /// Hash of the input bytes.
    pub hash: u128,
    /// The input bytes.
    pub input: Vec<u8>,
}

/// A message of the server sync protocol.
pub enum ServerMessage {
    /// A worker introducing itself: session identifier and core identifier.
    Login(u64, u64),
    /// Inputs newly observed on this machine, or new ones from elsewhere.
    Inputs(Vec<InputRecord>),
    /// Coverage newly observed on this machine, or new records from
    /// elsewhere.
    Coverage(Vec<CoverageRecord>),
    /// A statistics report.
    ReportStatistics {
        fuzz_cases: u64,
        total_cycles: u64,
        vm_cycles: u64,
        reset_cycles: u64,
        vm_exits: u64,
        allocs: u64,
        frees: u64,
        phys_free: u64,
        phys_total: u64,
    },
    /// The server has finished responding to a sync.
    SyncComplete,
}

/// Compare two byte strings.
pub fn bytes_eq(a: &Vec<u8>, b: &Vec<u8>) -> (r: bool)
    ensures
        r == (a@ == b@),
{
    proof {
        assert(a.len() == a@.len());
        assert(b.len() == b@.len());
    }
    if a.len() != b.len() {
        return false;
    }
    let mut i: usize = 0;
    while i < a.len()
        invariant
            i <= a@.len() == b@.len() <= usize::MAX,
            forall|k: int| 0 <= k < i ==> a@[k] == b@[k],
        decreases a@.len() - i,
    {
        if a[i] != b[i] {
            return false;
        }
        i = i + 1;
    }
    proof {
        assert(a@ =~= b@);
    }
    true
}

/// Compare two coverage records.
pub fn records_eq(a: &CoverageRecord, b: &CoverageRecord) -> (r: bool)
    ensures
        r == (a@ == b@),
{
    if a.offset != b.offset {
        return false;
    }
    match (&a.module, &b.module) {
        (None, None) => true,
        (Some(x), Some(y)) => bytes_eq(x, y),
        _ => false,
    }
}

} // verus!
