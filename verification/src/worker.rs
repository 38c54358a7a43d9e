//! A per-CPU fuzzing worker: a VM forked from the session master, a
//! copy-on-write view of guest-physical memory, and the software mirror of
//! the page-modification log that makes resets cheap.

use vstd::prelude::*;
use crate::backing::{Backing, NetBacking};
use crate::bytes::{Primitive, le_at};
use crate::regs::{Register, RegisterFile};
use crate::rng::Rng;
use crate::stats::Statistics;
use crate::vm::{EptEntry, Vm, page_of, align_page, spec_find, lemma_spec_find};
use crate::walk::Segment;

verus! {

broadcast use vstd::std_specs::vec::axiom_spec_len;

/// One module of a guest module list: a guest-virtual range and a name.
pub struct ModuleEntry {
    /// First guest-virtual address of the module.
    pub base: u64,
    /// Last guest-virtual address of the module (inclusive).
    pub end: u64,
    /// The module's name.
    pub name: Vec<u8>,
}

/// A VM worker, usually one of a large fuzzing group.
pub struct Worker {
    /// The backing of the VM: its registers and memory.
    pub backing: Backing,
    /// Random number generator for input selection.
    pub rng: Rng,
    /// Fuzz input for the current fuzz case.
    pub fuzz_input: Vec<u8>,
    /// Local worker statistics, merged into the session on an interval.
    pub stats: Statistics,
    /// Time (microseconds) of the next statistic sync.
    pub sync: u64,
    /// Unique worker identifier.
    pub worker_id: u64,
    /// Module lists per context identifier, for symbol resolution.
    pub module_list: Vec<(u64, Vec<ModuleEntry>)>,
    /// The page-modification log mirror: dirtied guest-physical page
    /// addresses gathered in software since the last reset.
    pub pml: Vec<u64>,
    /// Whether an enlightenment source for module lists is configured.
    pub enlightenment: bool,
}

/// Pushing a fresh page onto the table maps it and nothing else.
pub proof fn lemma_find_push(s: Seq<EptEntry>, e: EptEntry)
    requires
        spec_find(s, e.gpa) is None,
    ensures
        spec_find(s.push(e), e.gpa) == Some(s.len() as int),
        forall|g: u64| g != e.gpa ==> spec_find(s.push(e), g) == spec_find(s, g),
    decreases s.len(),
{
    let s2 = s.push(e);
    if s.len() == 0 {
        assert(s2[0] == e);
        assert(s2.drop_first() =~= Seq::<EptEntry>::empty());
        assert(spec_find(s2, e.gpa) == Some(0int));
        assert forall|g: u64| g != e.gpa implies spec_find(s2, g) == spec_find(s, g) by {
            assert(s2[0].gpa != g);
            assert(spec_find(s2.drop_first(), g) is None);
        }
    } else {
        assert(s2[0] == s[0]);
        assert(s2.drop_first() =~= s.drop_first().push(e));
        assert(s[0].gpa != e.gpa);
        lemma_find_push(s.drop_first(), e);
        assert(spec_find(s2.drop_first(), e.gpa) == Some(s.drop_first().len() as int));
        assert(spec_find(s2, e.gpa) == Some(s.len() as int));
        assert forall|g: u64| g != e.gpa implies spec_find(s2, g) == spec_find(s, g) by {
            if s[0].gpa != g {
                assert(spec_find(s2.drop_first(), g) == spec_find(s.drop_first(), g));
            }
        }
    }
}

/// Replacing an entry with one for the same page leaves every lookup index
/// as it was.
pub proof fn lemma_find_update(s: Seq<EptEntry>, i: int, e: EptEntry)
    requires
        0 <= i < s.len(),
        e.gpa == s[i].gpa,
    ensures
        forall|g: u64| spec_find(s.update(i, e), g) == spec_find(s, g),
    decreases s.len(),
{
    let s2 = s.update(i, e);
    assert(s2[0].gpa == s[0].gpa);
    if i == 0 {
        assert(s2.drop_first() =~= s.drop_first());
        assert forall|g: u64| spec_find(s2, g) == spec_find(s, g) by {
            assert(spec_find(s2.drop_first(), g) == spec_find(s.drop_first(), g));
        }
    } else {
        assert(s2.drop_first() =~= s.drop_first().update(i - 1, e));
        lemma_find_update(s.drop_first(), i - 1, e);
        assert forall|g: u64| spec_find(s2, g) == spec_find(s, g) by {
            if s[0].gpa != g {
                assert(spec_find(s2.drop_first(), g) == spec_find(s.drop_first(), g));
            }
        }
    }
}

impl Worker {
    /// The page bytes this worker's own or inherited state resolves for the
    /// aligned page `gpa`, before the worker's own table is consulted: the
    /// parent backing if the worker is forked, the worker's own snapshot
    /// memory if it is a root.
    pub open spec fn src_view(&self, parent: Option<&Backing>, gpa: u64) -> Option<Seq<u8>> {
        match parent {
            Some(m) => m.page_view(gpa),
            None => match self.backing.network_mem {
                Some(n) => n.page_at(gpa),
                None => None,
            },
        }
    }

    /// The worker's view of the aligned page `gpa`: its own mapped copy if
    /// present, the inherited page otherwise.
    pub open spec fn view_at(&self, parent: Option<&Backing>, gpa: u64) -> Option<Seq<u8>> {
        match self.backing.vm.entry_for(gpa) {
            Some(e) => Some(e.data@),
            None => self.src_view(parent, gpa),
        }
    }

    /// The byte the worker's view holds at address `addr`, if its page
    /// resolves.
    pub open spec fn byte_at(&self, parent: Option<&Backing>, addr: u64) -> Option<u8> {
        match self.view_at(parent, page_of(addr)) {
            Some(p) => Some(p[(addr & 0xfff) as int]),
            None => None,
        }
    }

    /// Whether the page holding `addr` resolves in the worker's view.
    pub open spec fn resolvable(&self, parent: Option<&Backing>, addr: u64) -> bool {
        self.view_at(parent, page_of(addr)) is Some
    }

    /// Whether the worker's copy of page `gpa` carries the hardware dirty
    /// bit.
    pub open spec fn dirty_at(&self, gpa: u64) -> bool {
        match self.backing.vm.entry_for(gpa) {
            Some(e) => e.dirty,
            None => false,
        }
    }

    /// The first live slot of the hardware log buffer: the log fills from
    /// slot 511 downward, and the index register names the next free slot.
    /// An index that has wrapped to `0xffff` means the buffer is full.
    pub open spec fn tail_lo(&self) -> int {
        let s = (((self.backing.vm.guest_regs.pml_index as u16) as int) + 1) % 0x10000;
        if s > 512 {
            512
        } else {
            s
        }
    }

    /// The live slots of the hardware log buffer.
    pub open spec fn pml_tail(&self) -> Seq<u64> {
        self.backing.vm.pml_buffer@.subrange(self.tail_lo(), 512)
    }

    /// `gpa` is recorded as dirtied: in the software mirror or still in the
    /// hardware buffer.
    pub open spec fn logged(&self, gpa: u64) -> bool {
        self.pml@.contains(gpa) || self.pml_tail().contains(gpa)
    }

    /// Every mapped page is aligned with inherited bytes behind it, a dirty
    /// page is writable and recorded, and a clean page agrees with its
    /// inherited bytes.
    pub open spec fn entries_wf(&self, parent: Option<&Backing>) -> bool {
        forall|i: int|
            0 <= i < self.backing.vm.ept@.len() ==> {
                let e = #[trigger] self.backing.vm.ept@[i];
                &&& (e.dirty ==> e.writable)
                &&& (!e.dirty ==> self.src_view(parent, e.gpa) == Some(e.data@))
                &&& self.src_view(parent, e.gpa) is Some
                &&& (e.dirty ==> self.logged(e.gpa))
            }
    }

    /// Mirror entries are aligned, dirty, and unrepeated.
    pub open spec fn mirror_wf(&self) -> bool {
        &&& forall|i: int|
            0 <= i < self.pml@.len() ==> (#[trigger] self.pml@[i]) & 0xfff == 0 && self.dirty_at(
                self.pml@[i],
            )
        &&& forall|i: int, j: int| 0 <= i < j < self.pml@.len() ==> self.pml@[i] != self.pml@[j]
    }

    /// Live hardware-buffer entries are aligned, dirty, unrepeated, and not
    /// yet mirrored.
    pub open spec fn tail_wf(&self) -> bool {
        &&& forall|k: int|
            self.tail_lo() <= k < 512 ==> (#[trigger] self.backing.vm.pml_buffer@[k]) & 0xfff == 0
                && self.dirty_at(self.backing.vm.pml_buffer@[k])
        &&& forall|k1: int, k2: int|
            self.tail_lo() <= k1 < k2 < 512 ==> self.backing.vm.pml_buffer@[k1]
                != self.backing.vm.pml_buffer@[k2]
        &&& forall|k: int, j: int|
            self.tail_lo() <= k < 512 && 0 <= j < self.pml@.len()
                ==> self.backing.vm.pml_buffer@[k] != self.pml@[j]
    }

    /// The worker's memory state is well-formed against its parent.
    pub open spec fn mem_wf(&self, parent: Option<&Backing>) -> bool {
        &&& self.backing.wf()
        &&& match parent {
            Some(m) => m.wf(),
            None => true,
        }
        &&& self.entries_wf(parent)
        &&& self.mirror_wf()
        &&& self.tail_wf()
    }

    /// Everything a memory operation leaves alone: the worker's identity and
    /// bookkeeping, the guest registers, the hardware buffer, and the
    /// snapshot memory.
    pub open spec fn same_non_mem(a: Worker, b: Worker) -> bool {
        &&& b.rng == a.rng
        &&& b.fuzz_input == a.fuzz_input
        &&& b.stats == a.stats
        &&& b.sync == a.sync
        &&& b.worker_id == a.worker_id
        &&& b.module_list == a.module_list
        &&& b.enlightenment == a.enlightenment
        &&& b.backing.vm.guest_regs == a.backing.vm.guest_regs
        &&& b.backing.vm.pml_buffer == a.backing.vm.pml_buffer
        &&& b.backing.vm.fxsave == a.backing.vm.fxsave
        &&& b.backing.vm.preemption_timer == a.backing.vm.preemption_timer
        &&& b.backing.network_mem == a.backing.network_mem
    }

    /// Resolve the page holding `gpaddr` to the index of this worker's own
    /// mapped copy, materializing or promoting it as the access requires.
    ///
    /// For a write the resulting page is a private, writable, dirty copy,
    /// and the page is pushed to the log mirror exactly when its dirty bit
    /// was clear. The worker's view of memory is unchanged either way; a
    /// failed resolution changes nothing at all.
    pub(crate) fn translate_internal(
        &mut self,
        parent: Option<&Backing>,
        gpaddr: u64,
        write: bool,
    ) -> (r: Option<usize>)
        requires
            old(self).mem_wf(parent),
        ensures
            final(self).mem_wf(parent),
            Worker::same_non_mem(*old(self), *final(self)),
            forall|p: u64|
                #![trigger final(self).view_at(parent, p)]
                final(self).view_at(parent, p) == old(self).view_at(parent, p),
            match r {
                Some(i) => {
                    &&& old(self).resolvable(parent, gpaddr)
                    &&& i < final(self).backing.vm.ept@.len()
                    &&& spec_find(final(self).backing.vm.ept@, page_of(gpaddr)) == Some(i as int)
                    &&& final(self).backing.vm.ept@[i as int].gpa == page_of(gpaddr)
                    &&& (write ==> final(self).backing.vm.ept@[i as int].writable)
                    &&& (write ==> final(self).backing.vm.ept@[i as int].dirty)
                    &&& (!write ==> final(self).pml@ == old(self).pml@ && forall|p: u64|
                        final(self).dirty_at(p) == old(self).dirty_at(p))
                    &&& (write ==> {
                        &&& final(self).dirty_at(page_of(gpaddr))
                        &&& forall|p: u64|
                            p != page_of(gpaddr) ==> final(self).dirty_at(p) == old(
                                self,
                            ).dirty_at(p)
                        &&& final(self).pml@ == if old(self).dirty_at(page_of(gpaddr)) {
                            old(self).pml@
                        } else {
                            old(self).pml@.push(page_of(gpaddr))
                        }
                    })
                },
                None => {
                    &&& !old(self).resolvable(parent, gpaddr)
                    &&& *final(self) == *old(self)
                },
            },
    {
        let aligned = align_page(gpaddr);
        proof {
            assert(aligned & 0xfff == 0) by (bit_vector)
                requires
                    aligned == gpaddr & !0xfffu64,
            ;
            lemma_spec_find(self.backing.vm.ept@, aligned);
        }
        match self.backing.vm.find_entry(aligned) {
            Some(i) => {
                let ghost pre = *self;
                if write {
                    if self.backing.vm.ept[i].writable {
                        if !self.backing.vm.ept[i].dirty {
                            // First write to a clean writable page: set the
                            // dirty bit and log it to the mirror.
                            self.backing.vm.ept[i].dirty = true;
                            self.backing.vm.ept_dirty = true;
                            self.pml.push(aligned);
                            proof {
                                assert(self.backing.vm.ept@ =~= pre.backing.vm.ept@.update(
                                    i as int,
                                    EptEntry {
                                        gpa: aligned,
                                        writable: true,
                                        dirty: true,
                                        data: pre.backing.vm.ept@[i as int].data,
                                    },
                                ));
                                lemma_find_update(
                                    pre.backing.vm.ept@,
                                    i as int,
                                    self.backing.vm.ept@[i as int],
                                );
                                assert_translate_mark(pre, *self, parent, i as int, aligned);
                            }
                        }
                    } else {
                        // Promote a read-only mapping: the mapped bytes are
                        // the inherited bytes, so they become the private
                        // copy as they stand.
                        self.backing.vm.ept[i].writable = true;
                        self.backing.vm.ept[i].dirty = true;
                        self.backing.vm.ept_dirty = true;
                        self.pml.push(aligned);
                        proof {
                            assert(pre.backing.vm.ept@[i as int].dirty
                                ==> pre.backing.vm.ept@[i as int].writable);
                            assert(self.backing.vm.ept@ =~= pre.backing.vm.ept@.update(
                                i as int,
                                EptEntry {
                                    gpa: aligned,
                                    writable: true,
                                    dirty: true,
                                    data: pre.backing.vm.ept@[i as int].data,
                                },
                            ));
                            lemma_find_update(
                                pre.backing.vm.ept@,
                                i as int,
                                self.backing.vm.ept@[i as int],
                            );
                            assert_translate_mark(pre, *self, parent, i as int, aligned);
                        }
                    }
                }
                Some(i)
            },
            None => {
                // Not mapped locally: fetch the inherited page.
                let page = match parent {
                    Some(m) => m.get_page(aligned),
                    None => match &self.backing.network_mem {
                        Some(_) => self.backing.get_page(aligned),
                        None => None,
                    },
                };
                let data = match page {
                    Some(data) => data,
                    None => {
                        return None;
                    },
                };
                let ghost pre = *self;
                let i = self.backing.vm.ept.len();
                if write {
                    self.backing.vm.ept.push(
                        EptEntry { gpa: aligned, writable: true, dirty: true, data },
                    );
                    self.backing.vm.ept_dirty = true;
                    self.pml.push(aligned);
                } else {
                    self.backing.vm.ept.push(
                        EptEntry { gpa: aligned, writable: false, dirty: false, data },
                    );
                }
                proof {
                    lemma_find_push(pre.backing.vm.ept@, self.backing.vm.ept@[i as int]);
                    assert_translate_map(pre, *self, parent, i as int, aligned, write);
                }
                Some(i)
            },
        }
    }

    /// Translate a guest-physical address to a host-physical address for
    /// this worker, copy-on-write promoting the page if the access is a
    /// write. The low twelve bits of the address are preserved; the
    /// translation fails exactly when no ancestor nor the snapshot backs
    /// the page.
    pub fn translate(
        &mut self,
        parent: Option<&Backing>,
        gpaddr: u64,
        _read: bool,
        write: bool,
        _execute: bool,
    ) -> (r: Option<u64>)
        requires
            old(self).mem_wf(parent),
        ensures
            final(self).mem_wf(parent),
            Worker::same_non_mem(*old(self), *final(self)),
            forall|p: u64|
                #![trigger final(self).view_at(parent, p)]
                final(self).view_at(parent, p) == old(self).view_at(parent, p),
            r is Some <==> old(self).resolvable(parent, gpaddr),
            r is Some ==> r->Some_0 & 0xfff == gpaddr & 0xfff,
            !write ==> final(self).pml@ == old(self).pml@ && forall|p: u64|
                final(self).dirty_at(p) == old(self).dirty_at(p),
            write && r is Some ==> {
                &&& final(self).dirty_at(page_of(gpaddr))
                &&& forall|p: u64|
                    p != page_of(gpaddr) ==> final(self).dirty_at(p) == old(self).dirty_at(p)
                &&& final(self).pml@ == if old(self).dirty_at(page_of(gpaddr)) {
                    old(self).pml@
                } else {
                    old(self).pml@.push(page_of(gpaddr))
                }
            },
            r is None ==> *final(self) == *old(self),
    {
        match self.translate_internal(parent, gpaddr, write) {
            Some(i) => {
                proof {
                    assert((gpaddr & 0xfff) < 0x1000) by (bit_vector);
                    assert((((i as u64) & 0xf_ffff_ffff_ffffu64) << 12) & 0xfff == 0)
                        by (bit_vector);
                    assert(((((i as u64) & 0xf_ffff_ffff_ffffu64) << 12) | (gpaddr & 0xfff))
                        & 0xfff == gpaddr & 0xfff) by (bit_vector);
                }
                Some(((i as u64) & 0xf_ffff_ffff_ffffu64) << 12 | (gpaddr & 0xfff))
            },
            None => None,
        }
    }
}

/// The marking cases of `translate_internal` (dirty bit set on an existing
/// entry, possibly with a write promotion) preserve well-formedness and the
/// view.
proof fn assert_translate_mark(
    pre: Worker,
    post: Worker,
    parent: Option<&Backing>,
    i: int,
    aligned: u64,
)
    requires
        pre.mem_wf(parent),
        0 <= i < pre.backing.vm.ept@.len(),
        pre.backing.vm.ept@[i].gpa == aligned,
        !pre.backing.vm.ept@[i].dirty,
        post.backing.vm.ept@ == pre.backing.vm.ept@.update(
            i,
            EptEntry {
                gpa: aligned,
                writable: true,
                dirty: true,
                data: pre.backing.vm.ept@[i].data,
            },
        ),
        post.pml@ == pre.pml@.push(aligned),
        post.backing.vm.guest_regs == pre.backing.vm.guest_regs,
        post.backing.vm.pml_buffer == pre.backing.vm.pml_buffer,
        post.backing.vm.fxsave == pre.backing.vm.fxsave,
        post.backing.network_mem == pre.backing.network_mem,
        forall|g: u64| spec_find(post.backing.vm.ept@, g) == spec_find(pre.backing.vm.ept@, g),
    ensures
        post.mem_wf(parent),
        forall|p: u64|
            #![trigger post.view_at(parent, p)]
            post.view_at(parent, p) == pre.view_at(parent, p),
        post.dirty_at(aligned),
        forall|p: u64|
            #![trigger post.dirty_at(p)]
            p != aligned ==> post.dirty_at(p) == pre.dirty_at(p),
{
    lemma_spec_find(pre.backing.vm.ept@, aligned);
    assert(spec_find(pre.backing.vm.ept@, aligned) == Some(i)) by {
        match spec_find(pre.backing.vm.ept@, aligned) {
            Some(j) => {
                if j != i {
                    assert(pre.backing.vm.ept@[j].gpa == pre.backing.vm.ept@[i].gpa);
                }
            },
            None => {
                assert(pre.backing.vm.ept@[i].gpa != aligned);
            },
        }
    }
    // The page was clean, so it is in neither the mirror nor the tail.
    assert(!pre.dirty_at(aligned));
    assert(forall|j: int| 0 <= j < pre.pml@.len() ==> pre.pml@[j] != aligned);
    assert(forall|k: int|
        pre.tail_lo() <= k < 512 ==> pre.backing.vm.pml_buffer@[k] != aligned);
    assert(post.tail_lo() == pre.tail_lo());
    assert(post.pml_tail() =~= pre.pml_tail());
    // Views are unchanged: the entry's data did not change.
    assert forall|p: u64|
        #![trigger post.view_at(parent, p)]
        post.view_at(parent, p) == pre.view_at(parent, p) by {
        lemma_spec_find(pre.backing.vm.ept@, p);
        assert(post.src_view(parent, p) == pre.src_view(parent, p));
        if p == aligned {
            assert(post.backing.vm.ept@[i].data == pre.backing.vm.ept@[i].data);
        } else {
            match spec_find(pre.backing.vm.ept@, p) {
                Some(j) => {
                    assert(pre.backing.vm.ept@[j].gpa == p);
                    assert(j != i);
                    assert(post.backing.vm.ept@[j] == pre.backing.vm.ept@[j]);
                },
                None => {},
            }
        }
    }
    assert forall|p: u64| #![trigger post.dirty_at(p)] p != aligned implies post.dirty_at(p)
        == pre.dirty_at(p) by {
        lemma_spec_find(pre.backing.vm.ept@, p);
        match spec_find(pre.backing.vm.ept@, p) {
            Some(j) => {
                assert(pre.backing.vm.ept@[j].gpa == p);
                assert(j != i);
                assert(post.backing.vm.ept@[j] == pre.backing.vm.ept@[j]);
            },
            None => {},
        }
    }
    assert(post.dirty_at(aligned));
    // Mirror well-formedness: the new entry is aligned, dirty, and fresh.
    assert(post.mirror_wf()) by {
        assert(forall|j: int|
            0 <= j < pre.pml@.len() ==> post.pml@[j] == pre.pml@[j]);
        assert(post.pml@[pre.pml@.len() as int] == aligned);
        assert(aligned & 0xfff == 0) by {
            assert(pre.backing.vm.ept@[i].gpa & 0xfff == 0);
        }
        assert forall|j: int| 0 <= j < post.pml@.len() implies (post.pml@[j]) & 0xfff == 0
            && post.dirty_at(post.pml@[j]) by {
            if j < pre.pml@.len() {
                assert(pre.dirty_at(pre.pml@[j]));
                assert(pre.pml@[j] != aligned);
            }
        }
    }
    assert(post.tail_wf()) by {
        assert forall|k: int|
            post.tail_lo() <= k < 512 implies (#[trigger] post.backing.vm.pml_buffer@[k]) & 0xfff
            == 0 && post.dirty_at(post.backing.vm.pml_buffer@[k]) by {
            assert(pre.dirty_at(pre.backing.vm.pml_buffer@[k]));
            assert(pre.backing.vm.pml_buffer@[k] != aligned);
        }
    }
    assert(post.entries_wf(parent)) by {
        assert forall|j: int| 0 <= j < post.backing.vm.ept@.len() implies {
            let e = #[trigger] post.backing.vm.ept@[j];
            &&& (e.dirty ==> e.writable)
            &&& (!e.dirty ==> post.src_view(parent, e.gpa) == Some(e.data@))
            &&& post.src_view(parent, e.gpa) is Some
            &&& (e.dirty ==> post.logged(e.gpa))
        } by {
            let e = post.backing.vm.ept@[j];
            let e0 = pre.backing.vm.ept@[j];
            assert(post.src_view(parent, e.gpa) == pre.src_view(parent, e.gpa));
            if j != i {
                assert(e == e0);
                if e0.dirty {
                    assert(pre.logged(e0.gpa));
                    assert(post.logged(e0.gpa)) by {
                        if pre.pml@.contains(e0.gpa) {
                            let w = choose|w: int|
                                0 <= w < pre.pml@.len() && pre.pml@[w] == e0.gpa;
                            assert(post.pml@[w] == e0.gpa);
                        }
                    }
                }
            } else {
                assert(post.pml@[pre.pml@.len() as int] == aligned);
                assert(post.pml@.contains(aligned));
            }
        }
    }
}

/// The mapping cases of `translate_internal` (a fresh entry for an
/// inherited page, read-aliased or copied for write) preserve
/// well-formedness and the view.
proof fn assert_translate_map(
    pre: Worker,
    post: Worker,
    parent: Option<&Backing>,
    i: int,
    aligned: u64,
    write: bool,
)
    requires
        pre.mem_wf(parent),
        aligned & 0xfff == 0,
        spec_find(pre.backing.vm.ept@, aligned) is None,
        i == pre.backing.vm.ept@.len(),
        pre.src_view(parent, aligned) is Some,
        post.backing.vm.ept@ == pre.backing.vm.ept@.push(
            EptEntry {
                gpa: aligned,
                writable: write,
                dirty: write,
                data: post.backing.vm.ept@[i].data,
            },
        ),
        post.backing.vm.ept@[i].data@ == pre.src_view(parent, aligned)->Some_0,
        post.pml@ == if write {
            pre.pml@.push(aligned)
        } else {
            pre.pml@
        },
        post.backing.vm.guest_regs == pre.backing.vm.guest_regs,
        post.backing.vm.pml_buffer == pre.backing.vm.pml_buffer,
        post.backing.vm.fxsave == pre.backing.vm.fxsave,
        post.backing.network_mem == pre.backing.network_mem,
        spec_find(post.backing.vm.ept@, aligned) == Some(i),
        forall|g: u64| g != aligned ==> spec_find(post.backing.vm.ept@, g) == spec_find(
            pre.backing.vm.ept@,
            g,
        ),
    ensures
        post.mem_wf(parent),
        forall|p: u64|
            #![trigger post.view_at(parent, p)]
            post.view_at(parent, p) == pre.view_at(parent, p),
        post.dirty_at(aligned) == write,
        forall|p: u64| p != aligned ==> post.dirty_at(p) == pre.dirty_at(p),
{
    lemma_spec_find(pre.backing.vm.ept@, aligned);
    assert(!pre.dirty_at(aligned));
    assert(forall|j: int| 0 <= j < pre.pml@.len() ==> pre.pml@[j] != aligned);
    assert(forall|k: int|
        pre.tail_lo() <= k < 512 ==> pre.backing.vm.pml_buffer@[k] != aligned);
    assert(post.tail_lo() == pre.tail_lo());
    assert(post.pml_tail() =~= pre.pml_tail());
    assert(post.backing.vm.ept@[i].data@.len() == 4096) by {
        match parent {
            Some(m) => {
                crate::backing::lemma_page_view_len(m, aligned);
            },
            None => {
                match pre.backing.network_mem {
                    Some(n) => {
                        crate::backing::lemma_page_at_len(&n, aligned);
                    },
                    None => {},
                }
            },
        }
    }
    assert forall|p: u64|
        #![trigger post.view_at(parent, p)]
        post.view_at(parent, p) == pre.view_at(parent, p) by {
        lemma_spec_find(pre.backing.vm.ept@, p);
        assert(post.src_view(parent, p) == pre.src_view(parent, p));
        if p == aligned {
            assert(pre.view_at(parent, p) == pre.src_view(parent, p));
        } else {
            match spec_find(pre.backing.vm.ept@, p) {
                Some(j) => {
                    assert(pre.backing.vm.ept@[j].gpa == p);
                    assert(post.backing.vm.ept@[j] == pre.backing.vm.ept@[j]);
                },
                None => {},
            }
        }
    }
    assert forall|p: u64| p != aligned implies post.dirty_at(p) == pre.dirty_at(p) by {
        lemma_spec_find(pre.backing.vm.ept@, p);
        match spec_find(pre.backing.vm.ept@, p) {
            Some(j) => {
                assert(pre.backing.vm.ept@[j].gpa == p);
                assert(post.backing.vm.ept@[j] == pre.backing.vm.ept@[j]);
            },
            None => {},
        }
    }
    assert(post.mirror_wf()) by {
        if write {
            assert forall|j: int| 0 <= j < post.pml@.len() implies (post.pml@[j]) & 0xfff == 0
                && post.dirty_at(post.pml@[j]) by {
                if j < pre.pml@.len() {
                    assert(post.pml@[j] == pre.pml@[j]);
                    assert(pre.dirty_at(pre.pml@[j]));
                    assert(pre.pml@[j] != aligned);
                } else {
                    assert(post.pml@[j] == aligned);
                }
            }
        } else {
            assert forall|j: int| 0 <= j < post.pml@.len() implies (post.pml@[j]) & 0xfff == 0
                && post.dirty_at(post.pml@[j]) by {
                assert(pre.dirty_at(pre.pml@[j]));
                assert(pre.pml@[j] != aligned);
            }
        }
    }
    assert(post.tail_wf()) by {
        assert forall|k: int|
            post.tail_lo() <= k < 512 implies (#[trigger] post.backing.vm.pml_buffer@[k]) & 0xfff
            == 0 && post.dirty_at(post.backing.vm.pml_buffer@[k]) by {
            assert(pre.dirty_at(pre.backing.vm.pml_buffer@[k]));
            assert(pre.backing.vm.pml_buffer@[k] != aligned);
        }
    }
    assert(post.entries_wf(parent)) by {
        assert forall|j: int| 0 <= j < post.backing.vm.ept@.len() implies {
            let e = #[trigger] post.backing.vm.ept@[j];
            &&& (e.dirty ==> e.writable)
            &&& (!e.dirty ==> post.src_view(parent, e.gpa) == Some(e.data@))
            &&& post.src_view(parent, e.gpa) is Some
            &&& (e.dirty ==> post.logged(e.gpa))
        } by {
            let e = post.backing.vm.ept@[j];
            assert(post.src_view(parent, e.gpa) == pre.src_view(parent, e.gpa));
            if j < i {
                let e0 = pre.backing.vm.ept@[j];
                assert(e == e0);
                if e0.dirty {
                    assert(pre.logged(e0.gpa));
                    assert(post.logged(e0.gpa)) by {
                        if pre.pml@.contains(e0.gpa) {
                            let w = choose|w: int|
                                0 <= w < pre.pml@.len() && pre.pml@[w] == e0.gpa;
                            assert(post.pml@[w] == e0.gpa);
                        }
                    }
                }
            } else {
                if write {
                    assert(post.pml@[pre.pml@.len() as int] == aligned);
                    assert(post.pml@.contains(aligned));
                }
            }
        }
    }
    // Structural well-formedness of the grown table.
    assert(post.backing.vm.wf()) by {
        assert forall|a: int, b: int|
            0 <= a < b < post.backing.vm.ept@.len() implies post.backing.vm.ept@[a].gpa
            != post.backing.vm.ept@[b].gpa by {
            if b == i {
                assert(pre.backing.vm.ept@[a].gpa != aligned);
            }
        }
    }
}

/// Byte `addr + k` stays on `addr`'s page while `k` is below the page
/// remainder, and its page offset advances with `k`.
pub proof fn lemma_same_page(addr: u64, k: u64)
    requires
        (addr & 0xfff) + k < 4096,
    ensures
        addr + k <= u64::MAX,
        page_of((addr + k) as u64) == page_of(addr),
        ((addr + k) as u64) & 0xfff == (addr & 0xfff) + k,
{
    assert(addr + k <= 0xffff_ffff_ffff_ffffu64 && ((addr + k) as u64) & !0xfffu64 == addr
        & !0xfffu64 && ((addr + k) as u64) & 0xfffu64 == (addr & 0xfffu64) + k) by (bit_vector)
        requires
            (addr & 0xfffu64) + k < 4096,
    ;
}

/// Some byte of the `n`-byte span at `addr` lies on page `p`.
pub open spec fn spans_page(addr: u64, n: nat, p: u64) -> bool {
    exists|k: int| 0 <= k < n && #[trigger] page_of(((addr + k) as u64)) == p
}

impl Worker {
    /// Every byte of the `n`-byte span at `addr` resolves.
    pub open spec fn span_resolvable(
        &self,
        parent: Option<&Backing>,
        addr: u64,
        n: nat,
    ) -> bool {
        forall|k: int| 0 <= k < n ==> #[trigger] self.resolvable(parent, ((addr + k) as u64))
    }

    /// How many leading bytes of the `n`-byte span at `addr` lie on
    /// resolvable pages, counting page by page from the front.
    pub open spec fn span_prefix(&self, parent: Option<&Backing>, addr: u64, n: nat) -> nat
        decreases n,
        via Self::span_prefix_dec
    {
        if n == 0 {
            0
        } else if !self.resolvable(parent, addr) {
            0
        } else {
            let take = if 4096 - (addr & 0xfff) < n {
                (4096 - (addr & 0xfff)) as nat
            } else {
                n
            };
            (take + self.span_prefix(parent, ((addr + take) as u64), (n - take) as nat)) as nat
        }
    }

    #[via_fn]
    proof fn span_prefix_dec(&self, parent: Option<&Backing>, addr: u64, n: nat) {
        assert((addr & 0xfff) < 4096) by (bit_vector);
    }

    /// The span prefix covers the whole span exactly when every byte of the
    /// span resolves.
    pub proof fn lemma_span_prefix_full(
        &self,
        parent: Option<&Backing>,
        addr: u64,
        n: nat,
    )
        requires
            addr + n <= 0x1_0000_0000_0000_0000,
        ensures
            self.span_prefix(parent, addr, n) == n <==> self.span_resolvable(parent, addr, n),
            self.span_prefix(parent, addr, n) <= n,
        decreases n,
    {
        if n == 0 {
        } else if !self.resolvable(parent, addr) {
            assert((addr + 0) as u64 == addr);
            assert(!self.span_resolvable(parent, addr, n));
        } else {
            let off = addr & 0xfff;
            assert(off < 4096) by (bit_vector)
                requires
                    off == addr & 0xfff,
            ;
            let take = if 4096 - off < n {
                (4096 - off) as nat
            } else {
                n
            };
            let next = (addr + take) as u64;
            self.lemma_span_prefix_full(parent, next, (n - take) as nat);
            // Bytes within the first chunk share the page of `addr`.
            assert forall|k: int| 0 <= k < take implies #[trigger] self.resolvable(
                parent,
                ((addr + k) as u64),
            ) by {
                lemma_same_page(addr, k as u64);
            }
            if self.span_prefix(parent, addr, n) == n {
                assert(self.span_resolvable(parent, next, (n - take) as nat));
                assert forall|k: int| 0 <= k < n implies #[trigger] self.resolvable(
                    parent,
                    ((addr + k) as u64),
                ) by {
                    if k >= take {
                        assert(self.resolvable(parent, ((next + (k - take)) as u64)));
                        assert(((next + (k - take)) as u64) == ((addr + k) as u64));
                    }
                }
            }
            if self.span_resolvable(parent, addr, n) {
                assert forall|k: int| 0 <= k < n - take implies #[trigger] self.resolvable(
                    parent,
                    ((next + k) as u64),
                ) by {
                    assert(((addr + (take + k)) as u64) == ((next + k) as u64));
                    assert(self.resolvable(parent, ((addr + (take + k)) as u64)));
                }
            }
        }
    }

    /// Read one within-a-page chunk of guest-physical memory into
    /// `dst[dst_off..dst_off + n]`, faulting the page in read-only if
    /// needed. Fails exactly when the page does not resolve, leaving `dst`
    /// untouched.
    pub(crate) fn read_page_chunk(
        &mut self,
        parent: Option<&Backing>,
        gpa: u64,
        dst: &mut Vec<u8>,
        dst_off: usize,
        n: usize,
    ) -> (r: bool)
        requires
            old(self).mem_wf(parent),
            (gpa & 0xfff) + n <= 4096,
            dst_off + n <= old(dst)@.len(),
        ensures
            final(self).mem_wf(parent),
            Worker::same_non_mem(*old(self), *final(self)),
            forall|p: u64|
                #![trigger final(self).view_at(parent, p)]
                final(self).view_at(parent, p) == old(self).view_at(parent, p),
            final(self).pml@ == old(self).pml@,
            forall|p: u64| final(self).dirty_at(p) == old(self).dirty_at(p),
            r == old(self).resolvable(parent, gpa),
            final(dst)@.len() == old(dst)@.len(),
            r ==> forall|t: int|
                0 <= t < old(dst)@.len() ==> final(dst)@[t] == if dst_off <= t < dst_off + n {
                    old(self).byte_at(parent, ((gpa + (t - dst_off)) as u64))->Some_0
                } else {
                    old(dst)@[t]
                },
            !r ==> final(dst)@ == old(dst)@,
    {
        match self.translate_internal(parent, gpa, false) {
            Some(i) => {
                proof {
                    lemma_spec_find(self.backing.vm.ept@, page_of(gpa));
                    assert(self.backing.vm.ept@[i as int].data@.len() == 4096);
                    assert((gpa & 0xfff) < 4096) by (bit_vector);
                }
                let off = (gpa & 0xfff) as usize;
                self.backing.vm.read_entry_bytes(i, off, dst, dst_off, n);
                proof {
                    let e = self.backing.vm.ept@[i as int];
                    assert(self.view_at(parent, page_of(gpa)) == Some(e.data@));
                    assert forall|t: int|
                        dst_off <= t < dst_off + n implies final(dst)@[t] == old(self).byte_at(
                        parent,
                        ((gpa + (t - dst_off)) as u64),
                    )->Some_0 by {
                        let d = t - dst_off;
                        lemma_same_page(gpa, d as u64);
                        let a = (gpa + d) as u64;
                        assert(page_of(a) == page_of(gpa));
                        assert(a & 0xfff == off + d);
                        assert(old(self).view_at(parent, page_of(a)) == Some(e.data@));
                        assert(old(self).byte_at(parent, a) == Some(e.data@[off + d]));
                        assert(final(dst)@[t] == e.data@[off + d]);
                    }
                }
                true
            },
            None => false,
        }
    }

    /// Write `src[src_off..src_off + n]` into one within-a-page chunk of
    /// guest-physical memory, copy-on-write promoting the page. Fails
    /// exactly when the page does not resolve, changing nothing.
    pub(crate) fn write_page_chunk(
        &mut self,
        parent: Option<&Backing>,
        gpa: u64,
        src: &Vec<u8>,
        src_off: usize,
        n: usize,
    ) -> (r: bool)
        requires
            old(self).mem_wf(parent),
            1 <= n,
            (gpa & 0xfff) + n <= 4096,
            src_off + n <= src@.len(),
        ensures
            final(self).mem_wf(parent),
            Worker::same_non_mem(*old(self), *final(self)),
            r == old(self).resolvable(parent, gpa),
            !r ==> *final(self) == *old(self),
            r ==> {
                &&& forall|a: u64|
                    #![trigger final(self).byte_at(parent, a)]
                    final(self).byte_at(parent, a) == if gpa <= a < gpa + n {
                        Some(src@[src_off + (a - gpa)])
                    } else {
                        old(self).byte_at(parent, a)
                    }
                &&& forall|a: u64|
                    #![trigger final(self).resolvable(parent, a)]
                    final(self).resolvable(parent, a) == old(self).resolvable(parent, a)
                &&& final(self).dirty_at(page_of(gpa))
                &&& forall|p: u64|
                    p != page_of(gpa) ==> final(self).dirty_at(p) == old(self).dirty_at(p)
                &&& final(self).pml@ == if old(self).dirty_at(page_of(gpa)) {
                    old(self).pml@
                } else {
                    old(self).pml@.push(page_of(gpa))
                }
            },
    {
        match self.translate_internal(parent, gpa, true) {
            Some(i) => {
                let ghost mid = *self;
                proof {
                    lemma_spec_find(self.backing.vm.ept@, page_of(gpa));
                    assert(self.backing.vm.ept@[i as int].data@.len() == 4096);
                    assert((gpa & 0xfff) < 4096) by (bit_vector);
                }
                let off = (gpa & 0xfff) as usize;
                self.backing.vm.write_entry_bytes(i, off, src, src_off, n);
                proof {
                    assert_chunk_write(
                        *old(self),
                        mid,
                        *self,
                        parent,
                        i as int,
                        gpa,
                        src@.subrange(src_off as int, src_off + n),
                    );
                }
                true
            },
            None => false,
        }
    }
}

/// After a write-translate and an in-place data write of a dirty entry, the
/// state is well-formed and the view has changed by exactly the written
/// bytes.
proof fn assert_chunk_write(
    pre: Worker,
    mid: Worker,
    post: Worker,
    parent: Option<&Backing>,
    i: int,
    gpa: u64,
    bytes: Seq<u8>,
)
    requires
        pre.mem_wf(parent),
        mid.mem_wf(parent),
        Worker::same_non_mem(pre, mid),
        1 <= bytes.len(),
        (gpa & 0xfff) + bytes.len() <= 4096,
        forall|p: u64|
            #![trigger mid.view_at(parent, p)]
            mid.view_at(parent, p) == pre.view_at(parent, p),
        0 <= i < mid.backing.vm.ept@.len(),
        spec_find(mid.backing.vm.ept@, page_of(gpa)) == Some(i),
        mid.backing.vm.ept@[i].gpa == page_of(gpa),
        mid.backing.vm.ept@[i].writable,
        mid.backing.vm.ept@[i].dirty,
        mid.dirty_at(page_of(gpa)),
        forall|p: u64| p != page_of(gpa) ==> mid.dirty_at(p) == pre.dirty_at(p),
        mid.pml@ == if pre.dirty_at(page_of(gpa)) {
            pre.pml@
        } else {
            pre.pml@.push(page_of(gpa))
        },
        post.backing.vm.ept@ == mid.backing.vm.ept@.update(
            i,
            EptEntry {
                gpa: mid.backing.vm.ept@[i].gpa,
                writable: mid.backing.vm.ept@[i].writable,
                dirty: mid.backing.vm.ept@[i].dirty,
                data: post.backing.vm.ept@[i].data,
            },
        ),
        post.backing.vm.ept@[i].data@ == crate::vm::overlay(
            mid.backing.vm.ept@[i].data@,
            (gpa & 0xfff) as int,
            bytes,
        ),
        post.pml@ == mid.pml@,
        post.backing.vm.guest_regs == mid.backing.vm.guest_regs,
        post.backing.vm.pml_buffer == mid.backing.vm.pml_buffer,
        post.backing.vm.fxsave == mid.backing.vm.fxsave,
        post.backing.network_mem == mid.backing.network_mem,
        post.rng == mid.rng,
        post.fuzz_input == mid.fuzz_input,
        post.stats == mid.stats,
        post.sync == mid.sync,
        post.worker_id == mid.worker_id,
        post.module_list == mid.module_list,
        post.enlightenment == mid.enlightenment,
        post.backing.vm.preemption_timer == mid.backing.vm.preemption_timer,
    ensures
        post.mem_wf(parent),
        Worker::same_non_mem(pre, post),
        forall|a: u64|
            #![trigger post.byte_at(parent, a)]
            post.byte_at(parent, a) == if gpa <= a < gpa + bytes.len() {
                Some(bytes[a - gpa])
            } else {
                pre.byte_at(parent, a)
            },
        forall|a: u64|
            #![trigger post.resolvable(parent, a)]
            post.resolvable(parent, a) == pre.resolvable(parent, a),
        post.dirty_at(page_of(gpa)),
        forall|p: u64| p != page_of(gpa) ==> post.dirty_at(p) == pre.dirty_at(p),
        post.pml@ == if pre.dirty_at(page_of(gpa)) {
            pre.pml@
        } else {
            pre.pml@.push(page_of(gpa))
        },
{
    let page = page_of(gpa);
    let off = (gpa & 0xfff) as int;
    lemma_find_update(mid.backing.vm.ept@, i, post.backing.vm.ept@[i]);
    assert(post.backing.vm.ept@[i].data@.len() == 4096);
    assert(page & 0xfff == 0) by (bit_vector)
        requires
            page == gpa & !0xfffu64,
    ;
    // Views: only the written page's bytes changed.
    assert forall|p: u64|
        #![trigger post.view_at(parent, p)]
        p != page implies post.view_at(parent, p) == mid.view_at(parent, p) by {
        lemma_spec_find(mid.backing.vm.ept@, p);
        assert(post.src_view(parent, p) == mid.src_view(parent, p));
        match spec_find(mid.backing.vm.ept@, p) {
            Some(j) => {
                assert(mid.backing.vm.ept@[j].gpa == p);
                assert(j != i);
                assert(post.backing.vm.ept@[j] == mid.backing.vm.ept@[j]);
            },
            None => {},
        }
    }
    assert(post.view_at(parent, page) == Some(post.backing.vm.ept@[i].data@));
    assert forall|p: u64| #![trigger post.dirty_at(p)] p != page implies post.dirty_at(p)
        == mid.dirty_at(p) by {
        lemma_spec_find(mid.backing.vm.ept@, p);
        match spec_find(mid.backing.vm.ept@, p) {
            Some(j) => {
                assert(mid.backing.vm.ept@[j].gpa == p);
                assert(post.backing.vm.ept@[j] == mid.backing.vm.ept@[j]);
            },
            None => {},
        }
    }
    assert(post.dirty_at(page));
    assert(post.tail_lo() == mid.tail_lo());
    assert(post.pml_tail() =~= mid.pml_tail());
    // Well-formedness: the written entry is dirty, so its bytes are free.
    assert(post.entries_wf(parent)) by {
        assert forall|j: int| 0 <= j < post.backing.vm.ept@.len() implies {
            let e = #[trigger] post.backing.vm.ept@[j];
            &&& (e.dirty ==> e.writable)
            &&& (!e.dirty ==> post.src_view(parent, e.gpa) == Some(e.data@))
            &&& post.src_view(parent, e.gpa) is Some
            &&& (e.dirty ==> post.logged(e.gpa))
        } by {
            let e = post.backing.vm.ept@[j];
            let e0 = mid.backing.vm.ept@[j];
            assert(post.src_view(parent, e.gpa) == mid.src_view(parent, e.gpa));
            assert(e.gpa == e0.gpa && e.dirty == e0.dirty && e.writable == e0.writable);
            if e0.dirty {
                assert(mid.logged(e0.gpa));
                assert(post.logged(e0.gpa)) by {
                    assert(post.pml@ == mid.pml@);
                    assert(post.pml_tail() == mid.pml_tail());
                }
            }
        }
    }
    assert(post.mirror_wf()) by {
        assert forall|j: int| 0 <= j < post.pml@.len() implies (post.pml@[j]) & 0xfff == 0
            && post.dirty_at(post.pml@[j]) by {
            assert(mid.dirty_at(mid.pml@[j]));
            if mid.pml@[j] != page {
                assert(post.dirty_at(mid.pml@[j]) == mid.dirty_at(mid.pml@[j]));
            }
        }
    }
    assert(post.tail_wf()) by {
        assert forall|k: int|
            post.tail_lo() <= k < 512 implies (#[trigger] post.backing.vm.pml_buffer@[k]) & 0xfff
            == 0 && post.dirty_at(post.backing.vm.pml_buffer@[k]) by {
            assert(mid.dirty_at(mid.backing.vm.pml_buffer@[k]));
            if mid.backing.vm.pml_buffer@[k] != page {
                assert(post.dirty_at(mid.backing.vm.pml_buffer@[k]) == mid.dirty_at(
                    mid.backing.vm.pml_buffer@[k],
                ));
            }
        }
    }
    assert(post.backing.vm.wf()) by {
        assert forall|a: int, b: int|
            0 <= a < b < post.backing.vm.ept@.len() implies post.backing.vm.ept@[a].gpa
            != post.backing.vm.ept@[b].gpa by {
            assert(mid.backing.vm.ept@[a].gpa == post.backing.vm.ept@[a].gpa);
            assert(mid.backing.vm.ept@[b].gpa == post.backing.vm.ept@[b].gpa);
        }
    }
    // Byte-level effect.
    assert forall|a: u64|
        #![trigger post.byte_at(parent, a)]
        post.byte_at(parent, a) == (if gpa <= a < gpa + bytes.len() {
            Some(bytes[a - gpa])
        } else {
            pre.byte_at(parent, a)
        }) by {
        if page_of(a) == page {
            assert((a & 0xfffu64) < 4096) by (bit_vector);
            assert(post.view_at(parent, page_of(a)) == Some(post.backing.vm.ept@[i].data@));
            assert(mid.view_at(parent, page) == Some(mid.backing.vm.ept@[i].data@));
            assert(pre.byte_at(parent, a) == Some(mid.backing.vm.ept@[i].data@[(a
                & 0xfff) as int]));
            let n64 = bytes.len() as u64;
            assert(n64 == bytes.len());
            assert(a & !0xfffu64 == gpa & !0xfffu64);
            if gpa <= a < gpa + bytes.len() {
                assert((a & 0xfffu64) == (gpa & 0xfffu64) + (a - gpa)) by (bit_vector)
                    requires
                        a & !0xfffu64 == gpa & !0xfffu64,
                        gpa <= a,
                        a < gpa + n64,
                        (gpa & 0xfffu64) + n64 <= 4096,
                ;
                assert(post.backing.vm.ept@[i].data@[off + (a - gpa)] == bytes[a - gpa]);
            } else {
                assert(!((gpa & 0xfffu64) <= (a & 0xfffu64) < (gpa & 0xfffu64) + n64))
                    by (bit_vector)
                    requires
                        a & !0xfffu64 == gpa & !0xfffu64,
                        (gpa & 0xfffu64) + n64 <= 4096,
                        !(gpa <= a && a < gpa + n64),
                ;
                assert(post.backing.vm.ept@[i].data@[(a & 0xfff) as int]
                    == mid.backing.vm.ept@[i].data@[(a & 0xfff) as int]);
            }
        } else {
            let n64 = bytes.len() as u64;
            assert(n64 == bytes.len());
            if gpa <= a < gpa + bytes.len() {
                assert(a & !0xfffu64 == gpa & !0xfffu64) by (bit_vector)
                    requires
                        gpa <= a,
                        a < gpa + n64,
                        (gpa & 0xfffu64) + n64 <= 4096,
                ;
            }
            assert(post.view_at(parent, page_of(a)) == mid.view_at(parent, page_of(a)));
        }
    }
    assert forall|a: u64|
        #![trigger post.resolvable(parent, a)]
        post.resolvable(parent, a) == pre.resolvable(parent, a) by {
        if page_of(a) == page {
            assert(post.view_at(parent, page) is Some);
            assert(mid.view_at(parent, page) is Some);
        } else {
            assert(post.view_at(parent, page_of(a)) == mid.view_at(parent, page_of(a)));
        }
    }
}

impl Worker {
    /// The bytes the worker's view holds for the `n`-byte span at `addr`
    /// (meaningful where the span resolves).
    pub open spec fn bytes_at(&self, parent: Option<&Backing>, addr: u64, n: nat) -> Seq<u8> {
        Seq::new(n, |k: int| self.byte_at(parent, ((addr + k) as u64))->Some_0)
    }

    /// Read the contents of the guest physical memory at `gpaddr` into the
    /// `buf` provided.
    ///
    /// Returns `None` if the request cannot be fully satisfied. It is
    /// possible that some reading did occur, but is partial.
    pub fn read_phys_into(
        &mut self,
        parent: Option<&Backing>,
        gpaddr: u64,
        buf: &mut Vec<u8>,
    ) -> (r: Option<()>)
        requires
            old(self).mem_wf(parent),
            gpaddr + old(buf)@.len() <= 0x1_0000_0000_0000_0000,
        ensures
            final(self).mem_wf(parent),
            Worker::same_non_mem(*old(self), *final(self)),
            forall|p: u64|
                #![trigger final(self).view_at(parent, p)]
                final(self).view_at(parent, p) == old(self).view_at(parent, p),
            final(self).pml@ == old(self).pml@,
            forall|p: u64| final(self).dirty_at(p) == old(self).dirty_at(p),
            final(buf)@.len() == old(buf)@.len(),
            r is Some <==> old(self).span_resolvable(parent, gpaddr, old(buf)@.len() as nat),
            r is Some ==> forall|t: int|
                0 <= t < old(buf)@.len() ==> Some(#[trigger] final(buf)@[t]) == old(
                    self,
                ).byte_at(parent, ((gpaddr + t) as u64)),
            r is None ==> ({
                let k = old(self).span_prefix(parent, gpaddr, old(buf)@.len() as nat);
                &&& forall|t: int|
                    0 <= t < k ==> Some(#[trigger] final(buf)@[t]) == old(self).byte_at(
                        parent,
                        ((gpaddr + t) as u64),
                    )
                &&& forall|t: int| k <= t < old(buf)@.len() ==> final(buf)@[t] == old(buf)@[t]
            }),
    {
        proof {
            assert(buf.len() == buf@.len());
        }
        let len = buf.len();
        if len == 0 {
            return Some(());
        }
        let ghost total = old(self).span_prefix(parent, gpaddr, len as nat);
        let mut pos: usize = 0;
        while pos < len
            invariant
                0 < len == buf@.len() == old(buf)@.len() <= usize::MAX,
                gpaddr + len <= 0x1_0000_0000_0000_0000,
                pos <= len,
                total == old(self).span_prefix(parent, gpaddr, len as nat),
                total == pos + old(self).span_prefix(
                    parent,
                    ((gpaddr + pos) as u64),
                    (len - pos) as nat,
                ),
                forall|t: int| pos <= t < len ==> buf@[t] == old(buf)@[t],
                self.mem_wf(parent),
                Worker::same_non_mem(*old(self), *self),
                forall|p: u64|
                    #![trigger self.view_at(parent, p)]
                    self.view_at(parent, p) == old(self).view_at(parent, p),
                self.pml@ == old(self).pml@,
                forall|p: u64| self.dirty_at(p) == old(self).dirty_at(p),
                forall|k: int|
                    0 <= k < pos ==> #[trigger] old(self).resolvable(
                        parent,
                        ((gpaddr + k) as u64),
                    ),
                forall|t: int|
                    0 <= t < pos ==> Some(#[trigger] buf@[t]) == old(self).byte_at(
                        parent,
                        ((gpaddr + t) as u64),
                    ),
            decreases len - pos,
        {
            let gpa = gpaddr + (pos as u64);
            proof {
                assert((gpa & 0xfff) < 4096) by (bit_vector);
            }
            let off = (gpa & 0xfff) as usize;
            let remain = 4096 - off;
            let rem_buf = len - pos;
            let take = if remain < rem_buf {
                remain
            } else {
                rem_buf
            };
            let ghost cur = *self;
            let ghost prebuf = buf@;
            let ok = self.read_page_chunk(parent, gpa, buf, pos, take);
            proof {
                assert(cur.resolvable(parent, gpa) == old(self).resolvable(parent, gpa)) by {
                    assert(cur.view_at(parent, page_of(gpa)) == old(self).view_at(
                        parent,
                        page_of(gpa),
                    ));
                }
            }
            if !ok {
                proof {
                    assert(((gpaddr + (pos as int)) as u64) == gpa);
                    if old(self).span_resolvable(parent, gpaddr, len as nat) {
                        assert(old(self).resolvable(parent, ((gpaddr + (pos as int)) as u64)));
                    }
                    assert(old(self).span_prefix(parent, ((gpaddr + pos) as u64), (len
                        - pos) as nat) == 0) by {
                        assert(!old(self).resolvable(parent, ((gpaddr + pos) as u64)));
                    }
                    assert(total == pos);
                }
                return None;
            }
            proof {
                assert forall|k: int| 0 <= k < pos + take implies #[trigger] old(
                    self,
                ).resolvable(parent, ((gpaddr + k) as u64)) by {
                    if k >= pos {
                        lemma_same_page(gpa, (k - pos) as u64);
                        let a = ((gpaddr + k) as u64);
                        assert(a == ((gpa + (k - pos)) as u64));
                        assert(page_of(a) == page_of(gpa));
                        assert(old(self).resolvable(parent, gpa));
                    }
                }
                assert forall|t: int| 0 <= t < pos + take implies Some(#[trigger] buf@[t])
                    == old(self).byte_at(parent, ((gpaddr + t) as u64)) by {
                    if t < pos {
                        assert(buf@[t] == prebuf[t]);
                    } else {
                        let d = t - pos;
                        lemma_same_page(gpa, d as u64);
                        let a = ((gpa + d) as u64);
                        assert(a == ((gpaddr + t) as u64));
                        assert(buf@[t] == cur.byte_at(parent, a)->Some_0);
                        assert(cur.byte_at(parent, a) == old(self).byte_at(parent, a)) by {
                            assert(cur.view_at(parent, page_of(a)) == old(self).view_at(
                                parent,
                                page_of(a),
                            ));
                        }
                        assert(page_of(a) == page_of(gpa));
                        assert(old(self).resolvable(parent, a)) by {
                            assert(old(self).resolvable(parent, gpa));
                        }
                    }
                }
            }
            pos = pos + take;
        }
        proof {
            assert forall|k: int| 0 <= k < len implies #[trigger] old(self).resolvable(
                parent,
                ((gpaddr + k) as u64),
            ) by {}
        }
        Some(())
    }

    /// Write the contents of `buf` into the guest physical memory at
    /// `gpaddr`, copy-on-write promoting and dirtying every page touched.
    ///
    /// Returns `None` if the request cannot be fully satisfied; the longest
    /// resolvable prefix of whole pages has then already been written.
    pub fn write_phys_from(
        &mut self,
        parent: Option<&Backing>,
        gpaddr: u64,
        buf: &Vec<u8>,
    ) -> (r: Option<()>)
        requires
            old(self).mem_wf(parent),
            gpaddr + buf@.len() <= 0x1_0000_0000_0000_0000,
        ensures
            final(self).mem_wf(parent),
            Worker::same_non_mem(*old(self), *final(self)),
            r is Some <==> old(self).span_prefix(parent, gpaddr, buf@.len() as nat)
                == buf@.len(),
            forall|a: u64|
                #![trigger final(self).byte_at(parent, a)]
                final(self).byte_at(parent, a) == if gpaddr <= a < gpaddr + old(
                    self,
                ).span_prefix(parent, gpaddr, buf@.len() as nat) {
                    Some(buf@[a - gpaddr])
                } else {
                    old(self).byte_at(parent, a)
                },
            forall|a: u64|
                #![trigger final(self).resolvable(parent, a)]
                final(self).resolvable(parent, a) == old(self).resolvable(parent, a),
            forall|p: u64|
                #![trigger final(self).dirty_at(p)]
                final(self).dirty_at(p) <==> old(self).dirty_at(p) || spans_page(
                    gpaddr,
                    old(self).span_prefix(parent, gpaddr, buf@.len() as nat),
                    p,
                ),
            forall|p: u64|
                #![trigger final(self).pml@.contains(p)]
                final(self).pml@.contains(p) <==> old(self).pml@.contains(p) || (spans_page(
                    gpaddr,
                    old(self).span_prefix(parent, gpaddr, buf@.len() as nat),
                    p,
                ) && !old(self).dirty_at(p)),
    {
        proof {
            assert(buf.len() == buf@.len());
        }
        let len = buf.len();
        if len == 0 {
            return Some(());
        }
        let ghost total = old(self).span_prefix(parent, gpaddr, len as nat);
        let mut pos: usize = 0;
        while pos < len
            invariant
                0 < len == buf@.len() <= usize::MAX,
                gpaddr + len <= 0x1_0000_0000_0000_0000,
                pos <= len,
                self.mem_wf(parent),
                Worker::same_non_mem(*old(self), *self),
                total == old(self).span_prefix(parent, gpaddr, len as nat),
                total == pos + old(self).span_prefix(
                    parent,
                    ((gpaddr + pos) as u64),
                    (len - pos) as nat,
                ),
                forall|a: u64|
                    #![trigger self.byte_at(parent, a)]
                    self.byte_at(parent, a) == if gpaddr <= a < gpaddr + pos {
                        Some(buf@[a - gpaddr])
                    } else {
                        old(self).byte_at(parent, a)
                    },
                forall|a: u64|
                    #![trigger self.resolvable(parent, a)]
                    self.resolvable(parent, a) == old(self).resolvable(parent, a),
                forall|p: u64|
                    #![trigger self.dirty_at(p)]
                    self.dirty_at(p) <==> old(self).dirty_at(p) || spans_page(
                        gpaddr,
                        pos as nat,
                        p,
                    ),
                forall|p: u64|
                    #![trigger self.pml@.contains(p)]
                    self.pml@.contains(p) <==> old(self).pml@.contains(p) || (spans_page(
                        gpaddr,
                        pos as nat,
                        p,
                    ) && !old(self).dirty_at(p)),
            decreases len - pos,
        {
            let gpa = gpaddr + (pos as u64);
            proof {
                assert((gpa & 0xfff) < 4096) by (bit_vector);
            }
            let off = (gpa & 0xfff) as usize;
            let remain = 4096 - off;
            let rem_buf = len - pos;
            let take = if remain < rem_buf {
                remain
            } else {
                rem_buf
            };
            let ghost cur = *self;
            let ok = self.write_page_chunk(parent, gpa, buf, pos, take);
            proof {
                assert(cur.resolvable(parent, gpa) == old(self).resolvable(parent, gpa));
            }
            if !ok {
                proof {
                    assert(old(self).span_prefix(parent, ((gpaddr + pos) as u64), (len
                        - pos) as nat) == 0) by {
                        assert(!old(self).resolvable(parent, ((gpaddr + pos) as u64)));
                    }
                    assert(total == pos);
                    assert(total < len);
                }
                return None;
            }
            proof {
                assert_write_span_step(
                    *old(self),
                    cur,
                    *self,
                    parent,
                    gpaddr,
                    buf@,
                    len as nat,
                    pos as nat,
                    take as nat,
                    total,
                );
            }
            pos = pos + take;
        }
        proof {
            assert(old(self).span_prefix(parent, ((gpaddr + pos) as u64), 0) == 0);
            assert(total == len);
        }
        Some(())
    }
}

/// One successful chunk of a physical write preserves the span-write
/// invariants, advancing the written prefix by the chunk.
proof fn assert_write_span_step(
    w0: Worker,
    cur: Worker,
    post: Worker,
    parent: Option<&Backing>,
    gpaddr: u64,
    buf: Seq<u8>,
    len: nat,
    pos: nat,
    take: nat,
    total: nat,
)
    requires
        0 < len <= usize::MAX,
        gpaddr + len <= 0x1_0000_0000_0000_0000,
        pos < len,
        1 <= take,
        take == if 4096 - (((gpaddr + pos) as u64) & 0xfff) < len - pos {
            (4096 - (((gpaddr + pos) as u64) & 0xfff)) as nat
        } else {
            (len - pos) as nat
        },
        total == pos + w0.span_prefix(parent, ((gpaddr + pos) as u64), (len - pos) as nat),
        w0.resolvable(parent, ((gpaddr + pos) as u64)),
        // invariants at `cur`
        forall|a: u64|
            #![trigger cur.byte_at(parent, a)]
            cur.byte_at(parent, a) == if gpaddr <= a < gpaddr + pos {
                Some(buf[a - gpaddr])
            } else {
                w0.byte_at(parent, a)
            },
        forall|a: u64|
            #![trigger cur.resolvable(parent, a)]
            cur.resolvable(parent, a) == w0.resolvable(parent, a),
        forall|p: u64|
            #![trigger cur.dirty_at(p)]
            cur.dirty_at(p) <==> w0.dirty_at(p) || spans_page(gpaddr, pos, p),
        forall|p: u64|
            #![trigger cur.pml@.contains(p)]
            cur.pml@.contains(p) <==> w0.pml@.contains(p) || (spans_page(gpaddr, pos, p)
                && !w0.dirty_at(p)),
        // the chunk's effect, `cur` to `post`
        forall|a: u64|
            #![trigger post.byte_at(parent, a)]
            post.byte_at(parent, a) == if ((gpaddr + pos) as u64) <= a < ((gpaddr
                + pos) as u64) + take {
                Some(buf[pos + (a - ((gpaddr + pos) as u64))])
            } else {
                cur.byte_at(parent, a)
            },
        forall|a: u64|
            #![trigger post.resolvable(parent, a)]
            post.resolvable(parent, a) == cur.resolvable(parent, a),
        post.dirty_at(page_of(((gpaddr + pos) as u64))),
        forall|p: u64|
            p != page_of(((gpaddr + pos) as u64)) ==> post.dirty_at(p) == cur.dirty_at(p),
        post.pml@ == if cur.dirty_at(page_of(((gpaddr + pos) as u64))) {
            cur.pml@
        } else {
            cur.pml@.push(page_of(((gpaddr + pos) as u64)))
        },
    ensures
        total == pos + take + w0.span_prefix(
            parent,
            ((gpaddr + (pos + take)) as u64),
            (len - pos - take) as nat,
        ),
        forall|a: u64|
            #![trigger post.byte_at(parent, a)]
            post.byte_at(parent, a) == if gpaddr <= a < gpaddr + (pos + take) {
                Some(buf[a - gpaddr])
            } else {
                w0.byte_at(parent, a)
            },
        forall|a: u64|
            #![trigger post.resolvable(parent, a)]
            post.resolvable(parent, a) == w0.resolvable(parent, a),
        forall|p: u64|
            #![trigger post.dirty_at(p)]
            post.dirty_at(p) <==> w0.dirty_at(p) || spans_page(gpaddr, (pos + take) as nat, p),
        forall|p: u64|
            #![trigger post.pml@.contains(p)]
            post.pml@.contains(p) <==> w0.pml@.contains(p) || (spans_page(
                gpaddr,
                (pos + take) as nat,
                p,
            ) && !w0.dirty_at(p)),
{
    let gpa = ((gpaddr + pos) as u64);
    let page = page_of(gpa);
    assert((gpa & 0xfff) < 4096) by (bit_vector);
    // The span prefix unfolds by exactly this chunk.
    assert(w0.span_prefix(parent, gpa, (len - pos) as nat) == take + w0.span_prefix(
        parent,
        ((gpa + take) as u64),
        (len - pos - take) as nat,
    ));
    assert(((gpa + take) as u64) == ((gpaddr + (pos + take)) as u64));
    // The chunk's pages are the one page.
    assert forall|k: int| 0 <= k < take implies #[trigger] page_of(((gpa + k) as u64))
        == page by {
        lemma_same_page(gpa, k as u64);
    }
    // Extending the span by the chunk adds exactly `page`.
    assert forall|p: u64| spans_page(gpaddr, (pos + take) as nat, p) implies (spans_page(
        gpaddr,
        pos,
        p,
    ) || p == page) by {
        let k = choose|k: int|
            0 <= k < pos + take && #[trigger] page_of(((gpaddr + k) as u64)) == p;
        if k >= pos {
            assert(((gpaddr + k) as u64) == ((gpa + (k - pos)) as u64));
            assert(page_of(((gpa + (k - pos)) as u64)) == page);
        }
    }
    assert(spans_page(gpaddr, (pos + take) as nat, page)) by {
        assert(page_of(((gpaddr + (pos as int)) as u64)) == page);
    }
    assert forall|p: u64| spans_page(gpaddr, pos, p) implies spans_page(
        gpaddr,
        (pos + take) as nat,
        p,
    ) by {
        let k = choose|k: int|
            0 <= k < pos && #[trigger] page_of(((gpaddr + k) as u64)) == p;
        assert(0 <= k < pos + take);
    }
    // Bytes.
    assert forall|a: u64|
        #![trigger post.byte_at(parent, a)]
        post.byte_at(parent, a) == (if gpaddr <= a < gpaddr + (pos + take) {
            Some(buf[a - gpaddr])
        } else {
            w0.byte_at(parent, a)
        }) by {
        if gpa <= a < gpa + take {
            assert(pos + (a - gpa) == a - gpaddr);
        }
    }
    // Dirty bits.
    assert forall|p: u64|
        #![trigger post.dirty_at(p)]
        post.dirty_at(p) <==> (w0.dirty_at(p) || spans_page(gpaddr, (pos + take) as nat, p)) by {
        if p != page {
            assert(post.dirty_at(p) == cur.dirty_at(p));
        }
    }
    // Mirror membership.
    assert forall|p: u64|
        #![trigger post.pml@.contains(p)]
        post.pml@.contains(p) <==> (w0.pml@.contains(p) || (spans_page(
            gpaddr,
            (pos + take) as nat,
            p,
        ) && !w0.dirty_at(p))) by {
        if cur.dirty_at(page) {
            assert(post.pml@ == cur.pml@);
        } else {
            assert(post.pml@ == cur.pml@.push(page));
            assert forall|q: u64| #![trigger post.pml@.contains(q)] true implies post.pml@.contains(
                q,
            ) == (cur.pml@.contains(q) || q == page) by {
                if cur.pml@.contains(q) {
                    let w = choose|w: int| 0 <= w < cur.pml@.len() && cur.pml@[w] == q;
                    assert(post.pml@[w] == q);
                } else if q == page {
                    assert(post.pml@[cur.pml@.len() as int] == q);
                } else {
                    if post.pml@.contains(q) {
                        let w = choose|w: int|
                            0 <= w < post.pml@.len() && post.pml@[w] == q;
                        if w < cur.pml@.len() {
                            assert(cur.pml@[w] == q);
                        }
                    }
                }
            }
        }
    }
}

impl Worker {
    /// Get a register from the guest VM context.
    pub fn reg(&self, reg: Register) -> (r: u64)
        ensures
            r == self.backing.vm.guest_regs.spec_get(reg),
    {
        self.backing.vm.guest_regs.get(reg)
    }

    /// Set a register in the guest VM context.
    pub fn set_reg(&mut self, reg: Register, val: u64)
        ensures
            *final(self) == (Worker {
                backing: Backing {
                    vm: Vm {
                        guest_regs: old(self).backing.vm.guest_regs.spec_set(reg, val),
                        ..old(self).backing.vm
                    },
                    ..old(self).backing
                },
                ..*old(self)
            }),
    {
        self.backing.vm.guest_regs.set(reg, val);
    }

    /// Get the current privilege level.
    pub fn cpl(&self) -> (r: u8)
        ensures
            r == (self.backing.vm.guest_regs.cs as u8) & 3,
    {
        (self.reg(Register::Cs) as u8) & 3
    }

    /// Get a unique context identifier: all ones in kernel mode, else the
    /// current page-table base.
    pub fn context_id(&self) -> (r: u64)
        ensures
            r == if (self.backing.vm.guest_regs.cs as u8) & 3 == 0 {
                !0u64
            } else {
                self.backing.vm.guest_regs.cr3 & 0xffffffffff000
            },
    {
        if self.cpl() == 0 {
            !0u64
        } else {
            self.reg(Register::Cr3) & 0xffffffffff000
        }
    }

    /// The base address of `segment` in the register file `regs`.
    pub open spec fn spec_seg_base(regs: RegisterFile, segment: Segment) -> u64 {
        match segment {
            Segment::Es => regs.es_base,
            Segment::Ds => regs.ds_base,
            Segment::Fs => regs.fs_base,
            Segment::Gs => regs.gs_base,
            Segment::Ss => regs.ss_base,
            Segment::Cs => regs.cs_base,
        }
    }

    /// Get the base address for a given segment.
    pub fn seg_base(&self, segment: Segment) -> (r: u64)
        ensures
            r == Worker::spec_seg_base(self.backing.vm.guest_regs, segment),
    {
        match segment {
            Segment::Es => self.reg(Register::EsBase),
            Segment::Ds => self.reg(Register::DsBase),
            Segment::Fs => self.reg(Register::FsBase),
            Segment::Gs => self.reg(Register::GsBase),
            Segment::Ss => self.reg(Register::SsBase),
            Segment::Cs => self.reg(Register::CsBase),
        }
    }

    /// Set whether an enlightenment source is available for this guest.
    pub fn enlighten(&mut self, enlightenment: bool)
        ensures
            *final(self) == (Worker { enlightenment, ..*old(self) }),
    {
        self.enlightenment = enlightenment;
    }

    /// Reads the contents at `gpaddr` into a `T`, by its little-endian
    /// encoding.
    pub fn read_phys<T: Primitive>(&mut self, parent: Option<&Backing>, gpaddr: u64) -> (r:
        Option<T>)
        requires
            old(self).mem_wf(parent),
            gpaddr + T::spec_size() <= 0x1_0000_0000_0000_0000,
        ensures
            final(self).mem_wf(parent),
            Worker::same_non_mem(*old(self), *final(self)),
            forall|p: u64|
                #![trigger final(self).view_at(parent, p)]
                final(self).view_at(parent, p) == old(self).view_at(parent, p),
            final(self).pml@ == old(self).pml@,
            forall|p: u64| final(self).dirty_at(p) == old(self).dirty_at(p),
            r is Some <==> old(self).span_resolvable(parent, gpaddr, T::spec_size()),
            r is Some ==> r->Some_0.as_nat() == le_at(
                old(self).bytes_at(parent, gpaddr, T::spec_size()),
                0,
                T::spec_size(),
            ),
    {
        let size = T::size();
        let mut buf: Vec<u8> = Vec::new();
        let mut k: usize = 0;
        while k < size
            invariant
                k <= size,
                buf@.len() == k,
            decreases size - k,
        {
            buf.push(0);
            k = k + 1;
        }
        match self.read_phys_into(parent, gpaddr, &mut buf) {
            Some(()) => {
                let ghost n = T::spec_size();
                proof {
                    crate::bytes::lemma_le_at_agrees(
                        buf@,
                        old(self).bytes_at(parent, gpaddr, n),
                        0,
                        n,
                    );
                }
                Some(T::from_le(&buf))
            },
            None => None,
        }
    }

    /// Writes the little-endian encoding of `val` to `gpaddr`.
    pub fn write_phys<T: Primitive>(
        &mut self,
        parent: Option<&Backing>,
        gpaddr: u64,
        val: T,
    ) -> (r: Option<()>)
        requires
            old(self).mem_wf(parent),
            gpaddr + T::spec_size() <= 0x1_0000_0000_0000_0000,
        ensures
            final(self).mem_wf(parent),
            Worker::same_non_mem(*old(self), *final(self)),
            forall|a: u64|
                #![trigger final(self).resolvable(parent, a)]
                final(self).resolvable(parent, a) == old(self).resolvable(parent, a),
            r is Some <==> old(self).span_resolvable(parent, gpaddr, T::spec_size()),
            r is Some ==> le_at(
                final(self).bytes_at(parent, gpaddr, T::spec_size()),
                0,
                T::spec_size(),
            ) == val.as_nat(),
            forall|a: u64|
                !(gpaddr <= a < gpaddr + T::spec_size()) ==> final(self).byte_at(parent, a)
                    == old(self).byte_at(parent, a),
            forall|p: u64|
                #![trigger final(self).dirty_at(p)]
                final(self).dirty_at(p) ==> old(self).dirty_at(p) || spans_page(
                    gpaddr,
                    T::spec_size(),
                    p,
                ),
            forall|p: u64|
                #![trigger final(self).pml@.contains(p)]
                final(self).pml@.contains(p) ==> old(self).pml@.contains(p) || spans_page(
                    gpaddr,
                    T::spec_size(),
                    p,
                ),
            r is Some ==> forall|p: u64|
                spans_page(gpaddr, T::spec_size(), p) ==> final(self).dirty_at(p)
                    && final(self).logged(p),
    {
        let v = val.to_le();
        let ghost n = T::spec_size();
        let r = self.write_phys_from(parent, gpaddr, &v);
        proof {
            let k = old(self).span_prefix(parent, gpaddr, n);
            old(self).lemma_span_prefix_full(parent, gpaddr, n);
            if r is Some {
                assert(k == n);
                assert forall|t: int|
                    0 <= t < n implies #[trigger] final(self).bytes_at(parent, gpaddr, n)[t]
                    == v@[t] by {
                    let a = ((gpaddr + t) as u64);
                    assert(final(self).byte_at(parent, a) == Some(v@[a - gpaddr]));
                }
                crate::bytes::lemma_le_at_agrees(
                    final(self).bytes_at(parent, gpaddr, n),
                    v@,
                    0,
                    n,
                );
                assert forall|p: u64|
                    spans_page(gpaddr, n, p) implies final(self).dirty_at(p) && final(self).logged(p) by {
                    assert(final(self).dirty_at(p));
                    assert(final(self).mirror_wf() && final(self).tail_wf() && final(self).entries_wf(parent));
                    lemma_spec_find(final(self).backing.vm.ept@, p);
                    match spec_find(final(self).backing.vm.ept@, p) {
                        Some(j) => {
                            assert(final(self).backing.vm.ept@[j].dirty);
                        },
                        None => {},
                    }
                }
            }
            assert forall|a: u64|
                !(gpaddr <= a < gpaddr + n) implies final(self).byte_at(parent, a) == old(
                self,
            ).byte_at(parent, a) by {
                assert(final(self).byte_at(parent, a) == if gpaddr <= a < gpaddr + k {
                    Some(v@[a - gpaddr])
                } else {
                    old(self).byte_at(parent, a)
                });
            }
        }
        r
    }

    /// Restore this worker to the master's state: copy back every page the
    /// mirror records as dirtied, clear the dirty bits and the mirror, and
    /// reload the master's registers. Afterwards the worker's whole view of
    /// guest memory equals the master's.
    pub fn reset(&mut self, master: &Backing)
        requires
            old(self).mem_wf(Some(master)),
            old(self).tail_lo() == 512,
            master.vm.guest_regs.pml_index == 511,
        ensures
            final(self).mem_wf(Some(master)),
            final(self).pml@.len() == 0,
            final(self).backing.vm.guest_regs == master.vm.guest_regs,
            forall|p: u64|
                #![trigger final(self).view_at(Some(master), p)]
                final(self).view_at(Some(master), p) == master.page_view(p),
            forall|p: u64| !final(self).dirty_at(p),
            final(self).rng == old(self).rng,
            final(self).fuzz_input == old(self).fuzz_input,
            final(self).stats == old(self).stats,
            final(self).sync == old(self).sync,
            final(self).worker_id == old(self).worker_id,
            final(self).module_list == old(self).module_list,
            final(self).enlightenment == old(self).enlightenment,
            final(self).backing.network_mem == old(self).backing.network_mem,
    {
        proof {
            assert(self.pml.len() == self.pml@.len());
        }
        let n = self.pml.len();
        let mut idx: usize = 0;
        while idx < n
            invariant
                idx <= n == self.pml@.len() <= usize::MAX,
                self.pml@ == old(self).pml@,
                old(self).mem_wf(Some(master)),
                master.wf(),
                self.backing.vm.ept@.len() == old(self).backing.vm.ept@.len(),
                forall|g: u64|
                    spec_find(self.backing.vm.ept@, g) == spec_find(
                        old(self).backing.vm.ept@,
                        g,
                    ),
                forall|j: int|
                    #![trigger self.backing.vm.ept@[j]]
                    0 <= j < self.backing.vm.ept@.len() ==> {
                        let e = self.backing.vm.ept@[j];
                        let e0 = old(self).backing.vm.ept@[j];
                        &&& e.gpa == e0.gpa
                        &&& e.writable == e0.writable
                        &&& e.data@.len() == 4096
                        &&& if exists|w: int| 0 <= w < idx && old(self).pml@[w] == e.gpa {
                            !e.dirty && Some(e.data@) == master.page_view(e.gpa)
                        } else {
                            e == e0
                        }
                    },
                self.rng == old(self).rng,
                self.fuzz_input == old(self).fuzz_input,
                self.stats == old(self).stats,
                self.sync == old(self).sync,
                self.worker_id == old(self).worker_id,
                self.module_list == old(self).module_list,
                self.enlightenment == old(self).enlightenment,
                self.backing.network_mem == old(self).backing.network_mem,
                self.backing.vm.guest_regs == old(self).backing.vm.guest_regs,
                self.backing.vm.pml_buffer == old(self).backing.vm.pml_buffer,
                self.backing.vm.fxsave == old(self).backing.vm.fxsave,
                self.backing.vm.preemption_timer == old(self).backing.vm.preemption_timer,
            decreases n - idx,
        {
            let gpa = self.pml[idx];
            proof {
                assert(old(self).dirty_at(gpa) && gpa & 0xfff == 0) by {
                    assert(old(self).pml@[idx as int] == gpa);
                }
                lemma_spec_find(old(self).backing.vm.ept@, gpa);
            }
            // Fetch the master's copy of the page; the mirror only records
            // pages the master backs.
            let page = match master.get_page(gpa) {
                Some(page) => page,
                None => {
                    proof {
                        match spec_find(old(self).backing.vm.ept@, gpa) {
                            Some(j) => {
                                assert(old(self).backing.vm.ept@[j].gpa == gpa);
                                assert(old(self).src_view(Some(master), gpa) is Some);
                                assert(false);
                            },
                            None => {
                                assert(false);
                            },
                        }
                    }
                    Vec::new()
                },
            };
            let i = match self.backing.vm.find_entry(gpa) {
                Some(i) => i,
                None => {
                    proof {
                        assert(spec_find(old(self).backing.vm.ept@, gpa) is None);
                        assert(false);
                    }
                    0
                },
            };
            proof {
                lemma_spec_find(self.backing.vm.ept@, gpa);
            }
            let writable = self.backing.vm.ept[i].writable;
            let ghost pre = self.backing.vm.ept@;
            self.backing.vm.ept[i] = EptEntry { gpa, writable, dirty: false, data: page };
            self.backing.vm.ept_dirty = true;
            idx = idx + 1;
            proof {
                lemma_find_update(pre, i as int, self.backing.vm.ept@[i as int]);
                assert forall|j: int|
                    #![trigger self.backing.vm.ept@[j]]
                    0 <= j < self.backing.vm.ept@.len() implies {
                    let e = self.backing.vm.ept@[j];
                    let e0 = old(self).backing.vm.ept@[j];
                    &&& e.gpa == e0.gpa
                    &&& e.writable == e0.writable
                    &&& e.data@.len() == 4096
                    &&& if exists|w: int| 0 <= w < idx && old(self).pml@[w] == e.gpa {
                        !e.dirty && Some(e.data@) == master.page_view(e.gpa)
                    } else {
                        e == e0
                    }
                } by {
                    let e = self.backing.vm.ept@[j];
                    if j == i {
                        assert(e.gpa == gpa);
                        assert(old(self).pml@[(idx - 1) as int] == gpa);
                    } else {
                        assert(e == pre[j]);
                        if exists|w: int| 0 <= w < idx && old(self).pml@[w] == e.gpa {
                            let w = choose|w: int|
                                0 <= w < idx && old(self).pml@[w] == e.gpa;
                            if w == idx - 1 {
                                assert(e.gpa == gpa);
                                assert(pre[j].gpa == gpa);
                                match spec_find(old(self).backing.vm.ept@, gpa) {
                                    Some(q) => {
                                        assert(old(self).backing.vm.ept@[q].gpa == gpa);
                                        assert(q == j || q == i);
                                        if q != j {
                                            assert(old(self).backing.vm.ept@[j].gpa
                                                == old(self).backing.vm.ept@[q].gpa);
                                        }
                                    },
                                    None => {},
                                }
                                assert(false);
                            } else {
                                assert(0 <= w < idx - 1);
                            }
                        }
                    }
                }
            }
        }
        // Everything recorded is restored: clear the mirror, reload the
        // master's registers, and reset the VM state for the next entry.
        self.pml.clear();
        self.backing.vm.guest_regs = master.vm.guest_regs;
        self.backing.vm.ept_dirty = false;
        proof {
            assert_reset_done(*old(self), *self, master);
        }
    }
}

/// After the copy-back loop, the worker is clean, well-formed, and sees the
/// master's memory everywhere.
proof fn assert_reset_done(w0: Worker, post: Worker, master: &Backing)
    requires
        w0.mem_wf(Some(master)),
        w0.tail_lo() == 512,
        master.vm.guest_regs.pml_index == 511,
        post.backing.vm.ept@.len() == w0.backing.vm.ept@.len(),
        forall|g: u64|
            spec_find(post.backing.vm.ept@, g) == spec_find(w0.backing.vm.ept@, g),
        forall|j: int|
            #![trigger post.backing.vm.ept@[j]]
            0 <= j < post.backing.vm.ept@.len() ==> {
                let e = post.backing.vm.ept@[j];
                let e0 = w0.backing.vm.ept@[j];
                &&& e.gpa == e0.gpa
                &&& e.writable == e0.writable
                &&& e.data@.len() == 4096
                &&& if exists|w: int| 0 <= w < w0.pml@.len() && w0.pml@[w] == e.gpa {
                    !e.dirty && Some(e.data@) == master.page_view(e.gpa)
                } else {
                    e == e0
                }
            },
        post.pml@.len() == 0,
        post.backing.vm.guest_regs == master.vm.guest_regs,
        post.backing.network_mem == w0.backing.network_mem,
        post.backing.vm.pml_buffer == w0.backing.vm.pml_buffer,
        post.backing.vm.fxsave == w0.backing.vm.fxsave,
    ensures
        post.mem_wf(Some(master)),
        forall|p: u64|
            #![trigger post.view_at(Some(master), p)]
            post.view_at(Some(master), p) == master.page_view(p),
        forall|p: u64| !post.dirty_at(p),
{
    assert(post.tail_lo() == 512);
    // No entry is dirty: a dirty entry of `w0` was mirrored (the hardware
    // buffer being drained), so the loop cleaned it.
    assert forall|j: int|
        #![trigger post.backing.vm.ept@[j]]
        0 <= j < post.backing.vm.ept@.len() implies !post.backing.vm.ept@[j].dirty && Some(
        post.backing.vm.ept@[j].data@,
    ) == master.page_view(post.backing.vm.ept@[j].gpa) by {
        let e = post.backing.vm.ept@[j];
        let e0 = w0.backing.vm.ept@[j];
        if exists|w: int| 0 <= w < w0.pml@.len() && w0.pml@[w] == e.gpa {
        } else {
            assert(e == e0);
            if e0.dirty {
                assert(w0.logged(e0.gpa));
                assert(w0.pml_tail().len() == 0);
                assert(w0.pml@.contains(e0.gpa));
                let w = choose|w: int| 0 <= w < w0.pml@.len() && w0.pml@[w] == e0.gpa;
                assert(false);
            }
            assert(w0.src_view(Some(master), e0.gpa) == Some(e0.data@));
        }
    }
    assert forall|p: u64| !post.dirty_at(p) by {
        lemma_spec_find(post.backing.vm.ept@, p);
        match spec_find(post.backing.vm.ept@, p) {
            Some(j) => {
                assert(!post.backing.vm.ept@[j].dirty);
            },
            None => {},
        }
    }
    assert forall|p: u64|
        #![trigger post.view_at(Some(master), p)]
        post.view_at(Some(master), p) == master.page_view(p) by {
        lemma_spec_find(post.backing.vm.ept@, p);
        match spec_find(post.backing.vm.ept@, p) {
            Some(j) => {
                assert(post.backing.vm.ept@[j].gpa == p);
            },
            None => {},
        }
    }
    assert(post.entries_wf(Some(master))) by {
        assert forall|j: int| 0 <= j < post.backing.vm.ept@.len() implies {
            let e = #[trigger] post.backing.vm.ept@[j];
            &&& (e.dirty ==> e.writable)
            &&& (!e.dirty ==> post.src_view(Some(master), e.gpa) == Some(e.data@))
            &&& post.src_view(Some(master), e.gpa) is Some
            &&& (e.dirty ==> post.logged(e.gpa))
        } by {
            let e = post.backing.vm.ept@[j];
            assert(!e.dirty);
            assert(Some(e.data@) == master.page_view(e.gpa));
        }
    }
    assert(post.mirror_wf());
    assert(post.tail_wf()) by {
        assert(post.pml_tail().len() == 0);
    }
    assert(post.backing.vm.wf()) by {
        assert forall|a: int, b: int|
            0 <= a < b < post.backing.vm.ept@.len() implies post.backing.vm.ept@[a].gpa
            != post.backing.vm.ept@[b].gpa by {
            assert(w0.backing.vm.ept@[a].gpa == post.backing.vm.ept@[a].gpa);
            assert(w0.backing.vm.ept@[b].gpa == post.backing.vm.ept@[b].gpa);
        }
    }
}

impl Worker {
    /// The worker's whole view of guest-physical memory, byte by byte.
    pub open spec fn view_map(&self, parent: Option<&Backing>) -> Map<u64, u8> {
        Map::new(
            |a: u64| self.resolvable(parent, a),
            |a: u64| self.byte_at(parent, a)->Some_0,
        )
    }
}

/// Two workers that see the same pages see the same byte map.
pub proof fn lemma_view_map_congruent(
    w1: Worker,
    w2: Worker,
    p1: Option<&Backing>,
    p2: Option<&Backing>,
)
    requires
        forall|p: u64| w1.view_at(p1, p) == w2.view_at(p2, p),
    ensures
        w1.view_map(p1) == w2.view_map(p2),
{
    assert forall|a: u64|
        #![trigger w1.view_map(p1).contains_key(a)]
        w1.resolvable(p1, a) == w2.resolvable(p2, a) && w1.byte_at(p1, a) == w2.byte_at(
        p2,
        a,
    ) by {
        assert(w1.view_at(p1, page_of(a)) == w2.view_at(p2, page_of(a)));
    }
    assert(w1.view_map(p1) =~= w2.view_map(p2));
}

/// The module in `ms` with the greatest base at or below `addr`, in any
/// list order; of entries sharing that base, the later one. This is the
/// range lookup an ordered map keyed by base performs.
pub open spec fn find_module(ms: Seq<ModuleEntry>, addr: u64) -> Option<ModuleEntry>
    decreases ms.len(),
{
    if ms.len() == 0 {
        None
    } else {
        let rest = find_module(ms.drop_last(), addr);
        if ms.last().base <= addr && (rest is None || rest->Some_0.base <= ms.last().base) {
            Some(ms.last())
        } else {
            rest
        }
    }
}

/// Whatever `find_module` returns has base at or below `addr`.
pub proof fn lemma_find_module_base(ms: Seq<ModuleEntry>, addr: u64)
    ensures
        match find_module(ms, addr) {
            Some(e) => e.base <= addr,
            None => true,
        },
    decreases ms.len(),
{
    if ms.len() > 0 {
        lemma_find_module_base(ms.drop_last(), addr);
    }
}

/// The module list registered for context `ctx`, if any.
pub open spec fn find_context(lists: Seq<(u64, Vec<ModuleEntry>)>, ctx: u64) -> Option<
    Seq<ModuleEntry>,
>
    decreases lists.len(),
{
    if lists.len() == 0 {
        None
    } else if lists[0].0 == ctx {
        Some(lists[0].1@)
    } else {
        find_context(lists.drop_first(), ctx)
    }
}

/// What `resolve_module` yields for `addr` against a module list: the
/// containing module's name and the offset into it, or no name and the raw
/// address.
pub open spec fn spec_resolve_module(
    lists: Seq<(u64, Vec<ModuleEntry>)>,
    ctx: u64,
    addr: u64,
) -> (Option<Seq<u8>>, u64) {
    match find_context(lists, ctx) {
        Some(ms) => match find_module(ms, addr) {
            Some(e) => if addr <= e.end {
                (Some(e.name@), (addr - e.base) as u64)
            } else {
                (None, addr)
            },
            None => (None, addr),
        },
        None => (None, addr),
    }
}

impl Worker {
    /// The context identifier the worker is currently in.
    pub open spec fn spec_context_id(&self) -> u64 {
        if (self.backing.vm.guest_regs.cs as u8) & 3 == 0 {
            !0u64
        } else {
            self.backing.vm.guest_regs.cr3 & 0xffffffffff000
        }
    }

    /// Create a new empty VM from snapshot-backed memory.
    pub fn from_net(memory: NetBacking, cpu_id: u64, timestamp: u64) -> (r: Worker)
        requires
            memory.wf(),
        ensures
            r.mem_wf(None),
            r.backing.network_mem == Some(memory),
            r.backing.vm.guest_regs == RegisterFile::spec_new(),
            r.backing.vm.ept@.len() == 0,
            r.pml@.len() == 0,
            r.worker_id == !0u64,
            r.stats == Statistics::spec_zero(),
            r.sync == 0,
            r.fuzz_input@.len() == 0,
            r.module_list@.len() == 0,
            !r.enlightenment,
    {
        let w = Worker {
            backing: Backing { network_mem: Some(memory), vm: Vm::new() },
            rng: Rng::new(cpu_id, timestamp),
            fuzz_input: Vec::new(),
            stats: Statistics::zero(),
            sync: 0,
            worker_id: !0u64,
            module_list: Vec::new(),
            pml: Vec::new(),
            enlightenment: false,
        };
        proof {
            assert(w.pml_tail().len() == 0);
        }
        w
    }

    /// Create a new VM forked from a master.
    pub fn fork(master: &Backing, worker_id: u64, cpu_id: u64, timestamp: u64) -> (r: Worker)
        requires
            master.wf(),
        ensures
            r.mem_wf(Some(master)),
            r.backing.network_mem is None,
            r.backing.vm.guest_regs == RegisterFile::spec_new(),
            r.backing.vm.ept@.len() == 0,
            r.pml@.len() == 0,
            r.worker_id == worker_id,
            r.stats == Statistics::spec_zero(),
            r.sync == 0,
            r.fuzz_input@.len() == 0,
            r.module_list@.len() == 0,
            !r.enlightenment,
            forall|p: u64|
                #![trigger r.view_at(Some(master), p)]
                r.view_at(Some(master), p) == master.page_view(p),
    {
        let w = Worker {
            backing: Backing { network_mem: None, vm: Vm::new() },
            rng: Rng::new(cpu_id, timestamp),
            fuzz_input: Vec::new(),
            stats: Statistics::zero(),
            sync: 0,
            worker_id,
            module_list: Vec::new(),
            pml: Vec::new(),
            enlightenment: false,
        };
        proof {
            assert(w.pml_tail().len() == 0);
        }
        w
    }

    /// Attempt to resolve `addr` into a module and offset based on the
    /// current module list.
    pub fn resolve_module(&self, addr: u64) -> (r: (Option<Vec<u8>>, u64))
        ensures
            ({
                let (name, off) = spec_resolve_module(
                    self.module_list@,
                    self.spec_context_id(),
                    addr,
                );
                &&& (match r.0 {
                    Some(v) => name == Some(v@),
                    None => name is None,
                })
                &&& r.1 == off
            }),
    {
        proof {
            assert(self.module_list.len() == self.module_list@.len());
        }
        let pt = self.context_id();
        proof {
            assert(pt == self.spec_context_id());
            assert(self.module_list@.skip(0) =~= self.module_list@);
        }
        let mut i: usize = 0;
        while i < self.module_list.len()
            invariant
                i <= self.module_list@.len() <= usize::MAX,
                pt == self.spec_context_id(),
                find_context(self.module_list@, pt) == find_context(
                    self.module_list@.skip(i as int),
                    pt,
                ),
            decreases self.module_list@.len() - i,
        {
            proof {
                assert(self.module_list@.skip(i as int)[0] == self.module_list@[i as int]);
                assert(self.module_list@.skip(i as int).drop_first() =~= self.module_list@.skip(
                    i + 1,
                ));
            }
            if self.module_list[i].0 == pt {
                let ms = &self.module_list[i].1;
                proof {
                    assert(self.module_list.len() == self.module_list@.len());
                    assert(ms.len() == ms@.len());
                    assert(ms@.subrange(0, ms@.len() as int) =~= ms@);
                    assert(self.module_list@.skip(i as int)[0] == self.module_list@[i as int]);
                    assert(find_context(self.module_list@, pt) == Some(ms@));
                }
                // Scan for the entry with the greatest base at or below
                // the address, later entries winning ties, as an ordered
                // map's range lookup would.
                let mut best: Option<usize> = None;
                let mut j: usize = 0;
                proof {
                    assert(ms@.subrange(0, 0).len() == 0);
                }
                while j < ms.len()
                    invariant
                        j <= ms@.len() <= usize::MAX,
                        pt == self.spec_context_id(),
                        find_context(self.module_list@, pt) == Some(ms@),
                        match best {
                            Some(b) => b < j && find_module(ms@.subrange(0, j as int), addr)
                                == Some(ms@[b as int]),
                            None => find_module(ms@.subrange(0, j as int), addr) is None,
                        },
                    decreases ms@.len() - j,
                {
                    proof {
                        assert(ms@.subrange(0, j + 1).last() == ms@[j as int]);
                        assert(ms@.subrange(0, j + 1).drop_last() =~= ms@.subrange(
                            0,
                            j as int,
                        ));
                    }
                    if ms[j].base <= addr {
                        let take = match best {
                            Some(b) => ms[b].base <= ms[j].base,
                            None => true,
                        };
                        if take {
                            best = Some(j);
                        }
                    }
                    j = j + 1;
                }
                proof {
                    assert(ms@.subrange(0, ms@.len() as int) =~= ms@);
                }
                match best {
                    Some(b) => {
                        proof {
                            assert(find_module(ms@, addr) == Some(ms@[b as int]));
                            lemma_find_module_base(ms@, addr);
                        }
                        if addr <= ms[b].end {
                            return (
                                Some(crate::snapshot::clone_bytes(&ms[b].name)),
                                addr - ms[b].base,
                            );
                        } else {
                            return (None, addr);
                        }
                    },
                    None => {
                        proof {
                            assert(find_module(ms@, addr) is None);
                        }
                        return (None, addr);
                    },
                }
            }
            i = i + 1;
        }
        proof {
            assert(self.module_list@.skip(i as int).len() == 0);
        }
        (None, addr)
    }

    /// Register (or replace) the module list for context `ctx`.
    pub fn set_module_list(&mut self, ctx: u64, ml: Vec<ModuleEntry>)
        ensures
            final(self).backing == old(self).backing,
            final(self).rng == old(self).rng,
            final(self).fuzz_input == old(self).fuzz_input,
            final(self).stats == old(self).stats,
            final(self).sync == old(self).sync,
            final(self).worker_id == old(self).worker_id,
            final(self).pml == old(self).pml,
            final(self).enlightenment == old(self).enlightenment,
            find_context(final(self).module_list@, ctx) == Some(ml@),
            forall|c: u64|
                c != ctx ==> #[trigger] find_context(final(self).module_list@, c)
                    == find_context(old(self).module_list@, c),
    {
        proof {
            assert(self.module_list.len() == self.module_list@.len());
        }
        let ghost pre = self.module_list@;
        let mut i: usize = 0;
        while i < self.module_list.len()
            invariant
                i <= self.module_list@.len() <= usize::MAX,
                self.module_list@ == pre,
                pre == old(self).module_list@,
                forall|k: int| 0 <= k < i ==> pre[k].0 != ctx,
                self.backing == old(self).backing,
                self.rng == old(self).rng,
                self.fuzz_input == old(self).fuzz_input,
                self.stats == old(self).stats,
                self.sync == old(self).sync,
                self.worker_id == old(self).worker_id,
                self.pml == old(self).pml,
                self.enlightenment == old(self).enlightenment,
            decreases self.module_list@.len() - i,
        {
            if self.module_list[i].0 == ctx {
                self.module_list[i] = (ctx, ml);
                proof {
                    lemma_find_context_update(pre, i as int, ctx, final(self).module_list@);
                }
                return ;
            }
            i = i + 1;
        }
        self.module_list.push((ctx, ml));
        proof {
            lemma_find_context_push(pre, ctx, final(self).module_list@);
        }
    }
}

/// Replacing the first entry carrying `ctx` rebinds `ctx` and nothing else.
proof fn lemma_find_context_update(
    pre: Seq<(u64, Vec<ModuleEntry>)>,
    i: int,
    ctx: u64,
    post: Seq<(u64, Vec<ModuleEntry>)>,
)
    requires
        0 <= i < pre.len(),
        forall|k: int| 0 <= k < i ==> pre[k].0 != ctx,
        pre[i].0 == ctx,
        post == pre.update(i, (ctx, post[i].1)),
    ensures
        find_context(post, ctx) == Some(post[i].1@),
        forall|c: u64| c != ctx ==> #[trigger] find_context(post, c) == find_context(pre, c),
    decreases pre.len(),
{
    if i == 0 {
        assert(post.drop_first() =~= pre.drop_first());
        assert(post[0].0 == ctx);
        assert forall|c: u64| c != ctx implies #[trigger] find_context(post, c)
            == find_context(pre, c) by {
            assert(pre[0].0 == ctx);
            assert(find_context(post.drop_first(), c) == find_context(pre.drop_first(), c));
        }
    } else {
        assert(post[0] == pre[0]);
        assert(post.drop_first() =~= pre.drop_first().update(i - 1, post[i]));
        assert(post.drop_first()[i - 1] == post[i]);
        assert(forall|k: int| 0 <= k < i - 1 ==> pre.drop_first()[k] == pre[k + 1]);
        lemma_find_context_update(pre.drop_first(), i - 1, ctx, post.drop_first());
        assert forall|c: u64| c != ctx implies #[trigger] find_context(post, c)
            == find_context(pre, c) by {
            if post[0].0 != c {
                assert(find_context(post.drop_first(), c) == find_context(
                    pre.drop_first(),
                    c,
                ));
            }
        }
    }
}

/// Appending a binding for a fresh `ctx` adds it and changes nothing else.
proof fn lemma_find_context_push(
    pre: Seq<(u64, Vec<ModuleEntry>)>,
    ctx: u64,
    post: Seq<(u64, Vec<ModuleEntry>)>,
)
    requires
        forall|k: int| 0 <= k < pre.len() ==> pre[k].0 != ctx,
        post == pre.push(post.last()),
        post.last().0 == ctx,
    ensures
        find_context(post, ctx) == Some(post.last().1@),
        forall|c: u64| c != ctx ==> #[trigger] find_context(post, c) == find_context(pre, c),
    decreases pre.len(),
{
    if pre.len() == 0 {
        assert(post[0] == post.last());
        assert(post.drop_first() =~= Seq::<(u64, Vec<ModuleEntry>)>::empty());
        assert forall|c: u64| c != ctx implies #[trigger] find_context(post, c)
            == find_context(pre, c) by {
            assert(find_context(post.drop_first(), c) is None);
        }
    } else {
        assert(post[0] == pre[0]);
        assert(post[0].0 != ctx);
        assert(post.drop_first() =~= pre.drop_first().push(post.last()));
        assert(post.drop_first().last() == post.last());
        lemma_find_context_push(pre.drop_first(), ctx, post.drop_first());
        assert forall|c: u64| c != ctx implies #[trigger] find_context(post, c)
            == find_context(pre, c) by {
            if post[0].0 != c {
                assert(find_context(post.drop_first(), c) == find_context(
                    pre.drop_first(),
                    c,
                ));
            }
        }
    }
}

/// Within one case, reads return the last write: after a whole-span write
/// of `data` at `gpaddr`, the span resolves and reads back exactly `data`.
pub proof fn lemma_write_then_read(
    w0: Worker,
    w1: Worker,
    parent: Option<&Backing>,
    gpaddr: u64,
    data: Seq<u8>,
)
    requires
        gpaddr + data.len() <= 0x1_0000_0000_0000_0000,
        w0.span_prefix(parent, gpaddr, data.len()) == data.len(),
        forall|a: u64|
            #![trigger w1.byte_at(parent, a)]
            w1.byte_at(parent, a) == if gpaddr <= a < gpaddr + data.len() {
                Some(data[a - gpaddr])
            } else {
                w0.byte_at(parent, a)
            },
        forall|a: u64|
            #![trigger w1.resolvable(parent, a)]
            w1.resolvable(parent, a) == w0.resolvable(parent, a),
    ensures
        w1.span_resolvable(parent, gpaddr, data.len()),
        w1.bytes_at(parent, gpaddr, data.len()) == data,
{
    w0.lemma_span_prefix_full(parent, gpaddr, data.len());
    assert forall|k: int| 0 <= k < data.len() implies #[trigger] w1.resolvable(
        parent,
        ((gpaddr + k) as u64),
    ) by {
        assert(w0.resolvable(parent, ((gpaddr + k) as u64)));
    }
    assert forall|t: int|
        0 <= t < data.len() implies #[trigger] w1.bytes_at(parent, gpaddr, data.len())[t]
        == data[t] by {
        let a = ((gpaddr + t) as u64);
        assert(w1.byte_at(parent, a) == Some(data[a - gpaddr]));
    }
    assert(w1.bytes_at(parent, gpaddr, data.len()) =~= data);
}

/// Writing back the very bytes a span already holds leaves every byte of
/// memory as it was; by the write contract the touched pages are still
/// marked dirty and mirrored.
pub proof fn lemma_rewrite_same_bytes(
    w0: Worker,
    w1: Worker,
    parent: Option<&Backing>,
    gpaddr: u64,
    n: nat,
)
    requires
        gpaddr + n <= 0x1_0000_0000_0000_0000,
        w0.span_prefix(parent, gpaddr, n) == n,
        forall|a: u64|
            #![trigger w1.byte_at(parent, a)]
            w1.byte_at(parent, a) == if gpaddr <= a < gpaddr + n {
                Some(w0.bytes_at(parent, gpaddr, n)[a - gpaddr])
            } else {
                w0.byte_at(parent, a)
            },
        forall|a: u64|
            #![trigger w1.resolvable(parent, a)]
            w1.resolvable(parent, a) == w0.resolvable(parent, a),
    ensures
        forall|a: u64|
            #![trigger w1.byte_at(parent, a)]
            w1.byte_at(parent, a) == w0.byte_at(parent, a),
{
    w0.lemma_span_prefix_full(parent, gpaddr, n);
    assert forall|a: u64|
        #![trigger w1.byte_at(parent, a)]
        w1.byte_at(parent, a) == w0.byte_at(parent, a) by {
        if gpaddr <= a < gpaddr + n {
            let t = a - gpaddr;
            assert(w0.resolvable(parent, ((gpaddr + t) as u64)));
            assert(((gpaddr + t) as u64) == a);
            assert(w0.bytes_at(parent, gpaddr, n)[t as int] == w0.byte_at(parent, a)->Some_0);
        }
    }
}

/// A dirtied page is pushed to the mirror exactly once: the mirror of a
/// well-formed worker never repeats an entry.
pub proof fn lemma_mirror_unrepeated(w: &Worker, parent: Option<&Backing>)
    requires
        w.mem_wf(parent),
    ensures
        forall|i: int, j: int| 0 <= i < j < w.pml@.len() ==> w.pml@[i] != w.pml@[j],
{
}

} // verus!
