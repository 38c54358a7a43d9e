//! Guest-physical memory backing: a VM's own extended page table over an
//! optional snapshot-file mapping. A worker's backing additionally defers
//! to the session master's backing, which this module's page view models.

use vstd::prelude::*;
use crate::snapshot::{Region, region_containing, sorted_by_start, lookup_region, lemma_find_region_is_max};
use crate::vm::{Vm, EptEntry, spec_find, lemma_spec_find};

verus! {

broadcast use vstd::std_specs::vec::axiom_spec_len;

/// The read-only snapshot memory a root backing resolves pages from.
pub struct NetBacking {
    /// The raw snapshot file; region offsets index into it.
    pub memory: Vec<u8>,
    /// The snapshot's guest-physical regions, sorted by start.
    pub regions: Vec<Region>,
}

impl NetBacking {
    /// Sorted, valid regions.
    pub open spec fn wf(&self) -> bool {
        &&& sorted_by_start(self.regions@)
        &&& forall|i: int| 0 <= i < self.regions@.len() ==> #[trigger] self.regions@[i].valid()
    }

    /// The bytes of the snapshot page holding the aligned guest-physical
    /// address `gpa`, if some region covers it and the file holds the page
    /// in full.
    pub open spec fn page_at(&self, gpa: u64) -> Option<Seq<u8>> {
        match region_containing(self.regions@, gpa) {
            Some(r) => {
                let off = r.offset + (gpa - r.start);
                if off + 4096 <= self.memory@.len() {
                    Some(self.memory@.subrange(off as int, off + 4096))
                } else {
                    None
                }
            },
            None => None,
        }
    }

    /// Copy the snapshot page holding `gpa` out of the file.
    pub fn get_page(&self, gpa: u64) -> (r: Option<Vec<u8>>)
        requires
            self.wf(),
            gpa & 0xfff == 0,
        ensures
            match r {
                Some(v) => self.page_at(gpa) == Some(v@) && v@.len() == 4096,
                None => self.page_at(gpa) is None,
            },
    {
        proof {
            assert(self.memory.len() == self.memory@.len());
        }
        let region = match lookup_region(&self.regions, gpa) {
            Some(region) => region,
            None => {
                return None;
            },
        };
        proof {
            lemma_find_region_is_max(self.regions@, gpa);
        }
        let diff = gpa - region.start;
        if region.offset > u64::MAX - diff {
            proof {
                assert(region.offset + diff + 4096 > self.memory@.len());
            }
            return None;
        }
        let off = region.offset + diff;
        let len = self.memory.len() as u64;
        if off > len || len - off < 4096 {
            return None;
        }
        let off = off as usize;
        let mut page: Vec<u8> = Vec::new();
        let mut i: usize = 0;
        while i < 4096
            invariant
                i <= 4096,
                off + 4096 <= self.memory@.len() <= usize::MAX,
                page@.len() == i,
                forall|k: int| 0 <= k < i ==> page@[k] == self.memory@[off + k],
            decreases 4096 - i,
        {
            let b = self.memory[off + i];
            page.push(b);
            i = i + 1;
        }
        proof {
            assert(page@ =~= self.memory@.subrange(off as int, off + 4096));
        }
        Some(page)
    }
}

/// A resolved snapshot page is a full page.
pub proof fn lemma_page_at_len(n: &NetBacking, gpa: u64)
    ensures
        n.page_at(gpa) is Some ==> n.page_at(gpa)->Some_0.len() == 4096,
{
    crate::snapshot::lemma_find_region_start(n.regions@, gpa);
}

/// A resolved page of a well-formed backing is a full page.
pub proof fn lemma_page_view_len(b: &Backing, gpa: u64)
    requires
        b.wf(),
    ensures
        b.page_view(gpa) is Some ==> b.page_view(gpa)->Some_0.len() == 4096,
{
    lemma_spec_find(b.vm.ept@, gpa);
    match spec_find(b.vm.ept@, gpa) {
        Some(i) => {
            assert(b.vm.ept@[i].data@.len() == 4096);
        },
        None => {
            match b.network_mem {
                Some(n) => {
                    lemma_page_at_len(&n, gpa);
                },
                None => {},
            }
        },
    }
}

/// A memory backing: a VM (registers and extended page table) plus, for a
/// root backing, the snapshot memory it resolves missing pages from. A
/// forked backing has no snapshot memory of its own and defers to its
/// master instead.
pub struct Backing {
    /// Snapshot memory, present on a root backing only.
    pub network_mem: Option<NetBacking>,
    /// The virtual machine of this backing.
    pub vm: Vm,
}

impl Backing {
    /// The backing's own structures are well-formed.
    pub open spec fn wf(&self) -> bool {
        &&& self.vm.wf()
        &&& match self.network_mem {
            Some(n) => n.wf(),
            None => true,
        }
    }

    /// The bytes this backing alone resolves for the aligned page `gpa`:
    /// its own extended page table first, the snapshot memory second.
    pub open spec fn page_view(&self, gpa: u64) -> Option<Seq<u8>> {
        match self.vm.entry_for(gpa) {
            Some(e) => Some(e.data@),
            None => match self.network_mem {
                Some(n) => n.page_at(gpa),
                None => None,
            },
        }
    }

    /// Copy out the page backing the aligned guest-physical address `gpa`,
    /// from this backing's extended page table or its snapshot memory.
    pub fn get_page(&self, gpa: u64) -> (r: Option<Vec<u8>>)
        requires
            self.wf(),
            gpa & 0xfff == 0,
        ensures
            match r {
                Some(v) => self.page_view(gpa) == Some(v@) && v@.len() == 4096,
                None => self.page_view(gpa) is None,
            },
    {
        match self.vm.find_entry(gpa) {
            Some(i) => {
                proof {
                    lemma_spec_find(self.vm.ept@, gpa);
                }
                Some(crate::snapshot::clone_bytes(&self.vm.ept[i].data))
            },
            None => {
                match &self.network_mem {
                    Some(n) => n.get_page(gpa),
                    None => None,
                }
            },
        }
    }
}

} // verus!
