//! The virtual machine a worker drives: guest registers, the extended page
//! table mapping guest-physical pages to their backing bytes, and the
//! hardware page-modification log.

use vstd::prelude::*;
use crate::regs::RegisterFile;

verus! {

broadcast use vstd::std_specs::vec::axiom_spec_len;

/// An exception raised by the guest.
#[derive(Clone, Copy, PartialEq, Eq, Structural, Debug)]
pub enum GuestException {
    Nmi,
    Debug,
    Breakpoint,
    InvalidOpcode,
    GeneralProtection,
    PageFault,
}

/// Why the guest stopped running.
#[derive(Clone, Copy, PartialEq, Eq, Structural, Debug)]
pub enum VmExit {
    /// The guest touched a guest-physical page its extended page table does
    /// not map with the needed rights.
    EptViolation { addr: u64, read: bool, write: bool, execute: bool },
    /// The hardware page-modification log ran out of free slots.
    PmlFull,
    /// The guest executed `rdtsc`; `inst_len` is the instruction's length.
    Rdtsc { inst_len: u64 },
    /// The guest read the model-specific register selected by `ecx`.
    ReadMsr { inst_len: u64 },
    /// The guest wrote the model-specific register selected by `ecx`.
    WriteMsr { inst_len: u64 },
    /// The guest read control register `cr` into general register `gpr`.
    ReadCr { cr: u8, gpr: u8, inst_len: u64 },
    /// The guest wrote general register `gpr` into control register `cr`.
    WriteCr { cr: u8, gpr: u8, inst_len: u64 },
    /// A host interrupt arrived while the guest was running.
    ExternalInterrupt,
    /// The guest raised an exception.
    Exception(GuestException),
    /// The preemption timer expired.
    PreemptionTimer,
    /// The guest halted.
    Hlt,
    /// The wall clock passed the fuzz case's deadline.
    Timeout,
}

/// The guest-physical page an address lies in.
pub open spec fn page_of(addr: u64) -> u64 {
    addr & !0xfffu64
}

/// Paging an address is idempotent.
pub proof fn lemma_page_of_idem(a: u64)
    ensures
        page_of(page_of(a)) == page_of(a),
        page_of(a) & 0xfff == 0,
{
    assert((a & !0xfffu64) & !0xfffu64 == a & !0xfffu64 && (a & !0xfffu64) & 0xfffu64 == 0)
        by (bit_vector);
}

/// Align an address down to its page.
pub fn align_page(addr: u64) -> (r: u64)
    ensures
        r == page_of(addr),
{
    addr & !0xfffu64
}

/// One mapped guest-physical page of a VM's extended page table.
pub struct EptEntry {
    /// The page's guest-physical address (page-aligned).
    pub gpa: u64,
    /// Whether the guest may write the page. A writable page is a private
    /// copy; a read-only page mirrors its source.
    pub writable: bool,
    /// The hardware dirty bit: set when the page has been written since the
    /// last reset.
    pub dirty: bool,
    /// The page's 4096 bytes.
    pub data: Vec<u8>,
}

/// The index of the entry mapping `gpa`, scanning from the front.
pub open spec fn spec_find(s: Seq<EptEntry>, gpa: u64) -> Option<int>
    decreases s.len(),
{
    if s.len() == 0 {
        None
    } else if s[0].gpa == gpa {
        Some(0int)
    } else {
        match spec_find(s.drop_first(), gpa) {
            Some(i) => Some(i + 1),
            None => None,
        }
    }
}

/// What `spec_find` returns is a well-formed index to a matching entry, and
/// misses only when no entry matches.
pub proof fn lemma_spec_find(s: Seq<EptEntry>, gpa: u64)
    ensures
        match spec_find(s, gpa) {
            Some(i) => 0 <= i < s.len() && s[i].gpa == gpa,
            None => forall|k: int| 0 <= k < s.len() ==> s[k].gpa != gpa,
        },
    decreases s.len(),
{
    if s.len() > 0 && s[0].gpa != gpa {
        lemma_spec_find(s.drop_first(), gpa);
        match spec_find(s.drop_first(), gpa) {
            Some(i) => {
                assert(s.drop_first()[i] == s[i + 1]);
            },
            None => {
                assert forall|k: int| 0 <= k < s.len() implies s[k].gpa != gpa by {
                    if k > 0 {
                        assert(s.drop_first()[k - 1] == s[k]);
                    }
                }
            },
        }
    }
}

/// A virtual machine: guest register state, the extended page table, and
/// the page-modification log buffer the hardware appends dirtied page
/// addresses to.
pub struct Vm {
    /// The guest's registers.
    pub guest_regs: RegisterFile,
    /// The extended page table: every guest-physical page this VM has
    /// materialized.
    pub ept: Vec<EptEntry>,
    /// The 512-slot hardware page-modification log buffer. The hardware
    /// writes dirtied page addresses at the slot the `PmlIndex` register
    /// names, moving downward.
    pub pml_buffer: Vec<u64>,
    /// Whether extended-page-table state changed in a way that requires a
    /// TLB invalidation on the next VM entry.
    pub ept_dirty: bool,
    /// Optional preemption-timer value to arm before entering the guest.
    pub preemption_timer: Option<u64>,
    /// The extended-state save area loaded from the snapshot.
    pub fxsave: Vec<u8>,
}

impl Vm {
    /// Structural well-formedness: a full-size log buffer and save area,
    /// and an extended page table of aligned, full, uniquely keyed pages.
    pub open spec fn wf(&self) -> bool {
        &&& self.pml_buffer@.len() == 512
        &&& self.fxsave@.len() == 512
        &&& forall|i: int|
            0 <= i < self.ept@.len() ==> (#[trigger] self.ept@[i]).data@.len() == 4096
                && self.ept@[i].gpa & 0xfff == 0
        &&& forall|i: int, j: int|
            0 <= i < j < self.ept@.len() ==> self.ept@[i].gpa != self.ept@[j].gpa
    }

    /// The entry mapping page `gpa`, if any.
    pub open spec fn entry_for(&self, gpa: u64) -> Option<EptEntry> {
        match spec_find(self.ept@, gpa) {
            Some(i) => Some(self.ept@[i]),
            None => None,
        }
    }

    /// A fresh, empty VM: zeroed registers (log index at the top), no
    /// mapped pages, an empty log, a zeroed save area.
    pub fn new() -> (r: Vm)
        ensures
            r.wf(),
            r.guest_regs == RegisterFile::spec_new(),
            r.ept@.len() == 0,
            r.ept_dirty == false,
            r.preemption_timer is None,
            forall|k: int| 0 <= k < 512 ==> r.pml_buffer@[k] == 0u64,
    {
        let mut pml_buffer: Vec<u64> = Vec::new();
        let mut i: usize = 0;
        while i < 512
            invariant
                i <= 512,
                pml_buffer@.len() == i,
                forall|k: int| 0 <= k < i ==> pml_buffer@[k] == 0u64,
            decreases 512 - i,
        {
            pml_buffer.push(0);
            i = i + 1;
        }
        let mut fxsave: Vec<u8> = Vec::new();
        let mut j: usize = 0;
        while j < 512
            invariant
                j <= 512,
                fxsave@.len() == j,
            decreases 512 - j,
        {
            fxsave.push(0);
            j = j + 1;
        }
        Vm {
            guest_regs: RegisterFile::new(),
            ept: Vec::new(),
            pml_buffer,
            ept_dirty: false,
            preemption_timer: None,
            fxsave,
        }
    }

    /// Look up the index of the entry mapping page `gpa`.
    pub fn find_entry(&self, gpa: u64) -> (r: Option<usize>)
        ensures
            match r {
                Some(i) => spec_find(self.ept@, gpa) == Some(i as int),
                None => spec_find(self.ept@, gpa) is None,
            },
    {
        proof {
            assert(self.ept.len() == self.ept@.len());
            assert(self.ept@.skip(0) =~= self.ept@);
        }
        let mut i: usize = 0;
        while i < self.ept.len()
            invariant
                i <= self.ept@.len() <= usize::MAX,
                spec_find(self.ept@, gpa) == match spec_find(self.ept@.skip(i as int), gpa) {
                    Some(j) => Some(j + i),
                    None => None,
                },
            decreases self.ept@.len() - i,
        {
            proof {
                assert(self.ept@.skip(i as int)[0] == self.ept@[i as int]);
                assert(self.ept@.skip(i as int).drop_first() =~= self.ept@.skip(i + 1));
            }
            if self.ept[i].gpa == gpa {
                return Some(i);
            }
            i = i + 1;
        }
        proof {
            assert(self.ept@.skip(i as int).len() == 0);
        }
        None
    }
}

/// `dst` with `src` laid over it starting at `at`.
pub open spec fn overlay(dst: Seq<u8>, at: int, src: Seq<u8>) -> Seq<u8> {
    Seq::new(dst.len(), |k: int| if at <= k < at + src.len() { src[k - at] } else { dst[k] })
}

impl Vm {
    /// Copy `n` bytes of `src` starting at `src_off` into entry `i`'s page
    /// at `page_off`.
    pub(crate) fn write_entry_bytes(
        &mut self,
        i: usize,
        page_off: usize,
        src: &Vec<u8>,
        src_off: usize,
        n: usize,
    )
        requires
            i < old(self).ept@.len(),
            page_off + n <= old(self).ept@[i as int].data@.len(),
            src_off + n <= src@.len(),
        ensures
            final(self).ept@ == old(self).ept@.update(
                i as int,
                EptEntry {
                    gpa: old(self).ept@[i as int].gpa,
                    writable: old(self).ept@[i as int].writable,
                    dirty: old(self).ept@[i as int].dirty,
                    data: final(self).ept@[i as int].data,
                },
            ),
            final(self).ept@[i as int].data@ == overlay(
                old(self).ept@[i as int].data@,
                page_off as int,
                src@.subrange(src_off as int, src_off + n),
            ),
            final(self).guest_regs == old(self).guest_regs,
            final(self).pml_buffer == old(self).pml_buffer,
            final(self).ept_dirty == old(self).ept_dirty,
            final(self).preemption_timer == old(self).preemption_timer,
            final(self).fxsave == old(self).fxsave,
    {
        let ghost orig = self.ept@[i as int];
        proof {
            assert(src.len() == src@.len());
            assert(self.ept@[i as int].data.len() == self.ept@[i as int].data@.len());
        }
        let mut k: usize = 0;
        while k < n
            invariant
                k <= n,
                i < self.ept@.len() == old(self).ept@.len(),
                page_off + n <= orig.data@.len(),
                src_off + n <= src@.len(),
                src@.len() <= usize::MAX,
                orig.data@.len() <= usize::MAX,
                orig == old(self).ept@[i as int],
                self.ept@ == old(self).ept@.update(
                    i as int,
                    EptEntry {
                        gpa: orig.gpa,
                        writable: orig.writable,
                        dirty: orig.dirty,
                        data: self.ept@[i as int].data,
                    },
                ),
                self.ept@[i as int].data@.len() == orig.data@.len(),
                forall|t: int|
                    0 <= t < orig.data@.len() ==> self.ept@[i as int].data@[t] == if page_off
                        <= t < page_off + k {
                        src@[src_off + (t - page_off)]
                    } else {
                        orig.data@[t]
                    },
                self.guest_regs == old(self).guest_regs,
                self.pml_buffer == old(self).pml_buffer,
                self.ept_dirty == old(self).ept_dirty,
                self.preemption_timer == old(self).preemption_timer,
                self.fxsave == old(self).fxsave,
            decreases n - k,
        {
            proof {
                assert(src.len() == src@.len());
            }
            let b = src[src_off + k];
            self.ept[i].data[page_off + k] = b;
            k = k + 1;
        }
        proof {
            assert(final(self).ept@[i as int].data@ =~= overlay(
                orig.data@,
                page_off as int,
                src@.subrange(src_off as int, src_off + n),
            ));
        }
    }

    /// Copy `n` bytes of entry `i`'s page starting at `page_off` into `dst`
    /// at `dst_off`.
    pub(crate) fn read_entry_bytes(
        &self,
        i: usize,
        page_off: usize,
        dst: &mut Vec<u8>,
        dst_off: usize,
        n: usize,
    )
        requires
            i < self.ept@.len(),
            page_off + n <= self.ept@[i as int].data@.len(),
            dst_off + n <= old(dst)@.len(),
        ensures
            final(dst)@.len() == old(dst)@.len(),
            forall|t: int|
                0 <= t < old(dst)@.len() ==> final(dst)@[t] == if dst_off <= t < dst_off + n {
                    self.ept@[i as int].data@[page_off + (t - dst_off)]
                } else {
                    old(dst)@[t]
                },
    {
        proof {
            assert(dst.len() == dst@.len());
            assert(self.ept@[i as int].data.len() == self.ept@[i as int].data@.len());
        }
        let mut k: usize = 0;
        while k < n
            invariant
                k <= n,
                i < self.ept@.len(),
                page_off + n <= self.ept@[i as int].data@.len() <= usize::MAX,
                dst_off + n <= dst@.len() == old(dst)@.len() <= usize::MAX,
                forall|t: int|
                    0 <= t < old(dst)@.len() ==> dst@[t] == if dst_off <= t < dst_off + k {
                        self.ept@[i as int].data@[page_off + (t - dst_off)]
                    } else {
                        old(dst)@[t]
                    },
            decreases n - k,
        {
            let b = self.ept[i].data[page_off + k];
            dst[dst_off + k] = b;
            k = k + 1;
        }
    }
}

} // verus!
