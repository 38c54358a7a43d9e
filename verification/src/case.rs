//! One step of guest execution: what the guest did to its memory before it
//! stopped, the hardware page-modification logging that accompanies it, and
//! the drain of the hardware log into the software mirror.

use vstd::prelude::*;
use crate::backing::Backing;
use crate::regs::Register;
use crate::vm::{VmExit, EptEntry, page_of, align_page, spec_find, lemma_spec_find};
use crate::worker::{Worker, lemma_find_update, lemma_view_map_congruent};

verus! {

broadcast use vstd::std_specs::vec::axiom_spec_len;

/// One burst of guest execution, as the virtualization hardware reports it:
/// the wall-clock time at the exit, the cycles spent inside the guest, the
/// byte writes the guest performed to its memory, and the exit it stopped
/// with.
pub struct VmStep {
    /// Wall-clock time (microseconds) when the exit was delivered.
    pub now: u64,
    /// Cycles spent inside the guest during this step.
    pub cycles: u64,
    /// Byte writes the guest performed, in order. A write lands only on a
    /// page the extended page table maps writable.
    pub writes: Vec<(u64, u8)>,
    /// The exit the guest stopped with.
    pub exit: VmExit,
}


impl Worker {
    /// The set of pages whose copies carry the dirty bit.
    pub open spec fn dirty_set(&self) -> Set<u64> {
        Set::new(|p: u64| self.dirty_at(p))
    }

    /// The set of pages mapped writable.
    pub open spec fn writable_set(&self) -> Set<u64> {
        Set::new(|p: u64| self.writable_at(p))
    }
}

/// What one guest byte write does to guest memory state: the byte map,
/// the dirty-page set, the hardware log buffer and the log index
/// register. A write outside the writable pages does not land; the first
/// write to a clean page logs it (the index moving down, wrapping to
/// `0xffff` past slot zero), or is dropped with a log-full event (the
/// first component false) when the index is out of its live range.
pub open spec fn spec_guest_write(
    bytes: Map<u64, u8>,
    dirty: Set<u64>,
    wrt: Set<u64>,
    buf: Seq<u64>,
    idx: u64,
    addr: u64,
    val: u8,
) -> (bool, Map<u64, u8>, Set<u64>, Seq<u64>, u64) {
    let page = page_of(addr);
    if !wrt.contains(page) {
        (true, bytes, dirty, buf, idx)
    } else if dirty.contains(page) {
        (true, bytes.insert(addr, val), dirty, buf, idx)
    } else if (idx & 0xffff) > 511 {
        (false, bytes, dirty, buf, idx)
    } else {
        let slot = idx & 0xffff;
        (
            true,
            bytes.insert(addr, val),
            dirty.insert(page),
            buf.update(slot as int, page),
            if slot == 0 {
                0xffff
            } else {
                (slot - 1) as u64
            },
        )
    }
}

/// The writes of one guest burst folded over the memory state, stopping
/// at the write a log-full event drops.
pub open spec fn spec_apply_writes(
    bytes: Map<u64, u8>,
    dirty: Set<u64>,
    wrt: Set<u64>,
    buf: Seq<u64>,
    idx: u64,
    writes: Seq<(u64, u8)>,
    k: nat,
) -> (bool, Map<u64, u8>, Set<u64>, Seq<u64>, u64)
    decreases writes.len() - k,
{
    if k >= writes.len() {
        (true, bytes, dirty, buf, idx)
    } else {
        let st = spec_guest_write(bytes, dirty, wrt, buf, idx, writes[k as int].0, writes[k as int].1);
        if !st.0 {
            (false, st.1, st.2, st.3, st.4)
        } else {
            spec_apply_writes(st.1, st.2, wrt, st.3, st.4, writes, k + 1)
        }
    }
}

impl Worker {
    /// Whether the worker's copy of the page holding `addr` is mapped
    /// writable.
    pub open spec fn writable_at(&self, addr: u64) -> bool {
        match self.backing.vm.entry_for(page_of(addr)) {
            Some(e) => e.writable,
            None => false,
        }
    }

    /// One guest byte write, as the hardware performs it: it lands only on
    /// a writable mapped page; the first write to a clean page logs the
    /// page to the hardware log, or raises a log-full event (returning
    /// false, the write dropped) when the log has no free slot.
    pub(crate) fn guest_write_byte(&mut self, parent: Option<&Backing>, addr: u64, val: u8) -> (r:
        bool)
        requires
            old(self).mem_wf(parent),
        ensures
            final(self).mem_wf(parent),
            final(self).pml@ == old(self).pml@,
            final(self).rng == old(self).rng,
            final(self).fuzz_input == old(self).fuzz_input,
            final(self).stats == old(self).stats,
            final(self).sync == old(self).sync,
            final(self).worker_id == old(self).worker_id,
            final(self).module_list == old(self).module_list,
            final(self).enlightenment == old(self).enlightenment,
            final(self).backing.network_mem == old(self).backing.network_mem,
            final(self).backing.vm.fxsave == old(self).backing.vm.fxsave,
            final(self).backing.vm.preemption_timer == old(self).backing.vm.preemption_timer,
            final(self).backing.vm.guest_regs == old(self).backing.vm.guest_regs.spec_set(
                Register::PmlIndex,
                final(self).backing.vm.guest_regs.pml_index,
            ),
            forall|a: u64|
                #![trigger final(self).resolvable(parent, a)]
                final(self).resolvable(parent, a) == old(self).resolvable(parent, a),
            forall|p: u64|
                p != page_of(addr) ==> final(self).view_at(parent, p) == old(self).view_at(
                    parent,
                    p,
                ),
            forall|p: u64| old(self).dirty_at(p) ==> final(self).dirty_at(p),
            !old(self).writable_at(addr) ==> *final(self) == *old(self),
            ({
                let t = spec_guest_write(
                    old(self).view_map(parent),
                    old(self).dirty_set(),
                    old(self).writable_set(),
                    old(self).backing.vm.pml_buffer@,
                    old(self).backing.vm.guest_regs.pml_index,
                    addr,
                    val,
                );
                &&& r == t.0
                &&& final(self).view_map(parent) == t.1
                &&& final(self).dirty_set() == t.2
                &&& final(self).backing.vm.pml_buffer@ == t.3
                &&& final(self).backing.vm.guest_regs.pml_index == t.4
                &&& final(self).writable_set() == old(self).writable_set()
            }),
    {
        let page = align_page(addr);
        proof {
            assert(page & 0xfff == 0 && (addr & 0xfff) < 4096) by (bit_vector)
                requires
                    page == addr & !0xfffu64,
            ;
            lemma_spec_find(self.backing.vm.ept@, page);
        }
        let i = match self.backing.vm.find_entry(page) {
            Some(i) => i,
            None => {
                proof {
                    crate::vm::lemma_page_of_idem(addr);
                    assert(!self.writable_at(addr));
                    assert(!self.writable_set().contains(page_of(addr)));
                }
                return true;
            },
        };
        if !self.backing.vm.ept[i].writable {
            proof {
                crate::vm::lemma_page_of_idem(addr);
                assert(!self.writable_at(addr));
                assert(!self.writable_set().contains(page_of(addr)));
            }
            return true;
        }
        proof {
            crate::vm::lemma_page_of_idem(addr);
            assert(self.writable_at(addr));
            assert(self.writable_at(page));
            assert(self.writable_set().contains(page));
        }
        let ghost pre = *self;
        let ghost was_dirty = self.dirty_at(page);
        if !self.backing.vm.ept[i].dirty {
            // First write to a clean page: the hardware logs the page
            // before the write goes through, or exits when the log is
            // full.
            let idxreg = self.reg(Register::PmlIndex);
            #[verifier::truncate]
            let idx = idxreg as u16;
            proof {
                assert(idx as u64 == idxreg & 0xffff) by (bit_vector)
                    requires
                        idx == idxreg as u16,
                ;
            }
            if idx > 511 {
                return false;
            }
            self.backing.vm.pml_buffer[idx as usize] = page;
            self.backing.vm.ept[i].dirty = true;
            self.set_reg(Register::PmlIndex, idx.wrapping_sub(1) as u64);
            proof {
                lemma_find_update(
                    pre.backing.vm.ept@,
                    i as int,
                    self.backing.vm.ept@[i as int],
                );
                assert_hw_log(pre, *self, parent, i as int, page, idx);
                lemma_dirty_set_insert(pre, *self, page);
                assert(self.writable_set() =~= pre.writable_set());
                if idx == 0 {
                    assert((0u16.wrapping_sub(1)) as u64 == 0xffff);
                }
            }
        }
        // The write itself, on a dirty private page.
        let ghost mid = *self;
        let off = (addr & 0xfff) as usize;
        proof {
            assert(self.backing.vm.ept@[i as int].data@.len() == 4096);
            assert((addr & 0xfff) < 4096) by (bit_vector);
        }
        self.backing.vm.ept[i].data[off] = val;
        proof {
            lemma_find_update(mid.backing.vm.ept@, i as int, self.backing.vm.ept@[i as int]);
            assert_guest_byte(mid, *self, parent, i as int, page, off as int, val);
            lemma_view_map_insert(mid, *self, parent, addr, val);
            lemma_same_page_sets(mid, *self);
            if was_dirty {
                lemma_view_map_congruent(pre, mid, parent, parent);
                lemma_same_page_sets(pre, mid);
            } else {
                lemma_view_map_congruent(pre, mid, parent, parent);
            }
        }
        true
    }

    /// Apply one burst of guest execution: perform its byte writes with
    /// hardware page-modification logging, and return the exit it stopped
    /// with, or the log-full event if one interrupted the writes.
    pub fn apply_step(&mut self, parent: Option<&Backing>, step: &VmStep) -> (r: VmExit)
        requires
            old(self).mem_wf(parent),
        ensures
            final(self).mem_wf(parent),
            r == step.exit || r == VmExit::PmlFull,
            final(self).pml@ == old(self).pml@,
            final(self).rng == old(self).rng,
            final(self).fuzz_input == old(self).fuzz_input,
            final(self).stats == old(self).stats,
            final(self).sync == old(self).sync,
            final(self).worker_id == old(self).worker_id,
            final(self).module_list == old(self).module_list,
            final(self).enlightenment == old(self).enlightenment,
            final(self).backing.network_mem == old(self).backing.network_mem,
            final(self).backing.vm.guest_regs == old(self).backing.vm.guest_regs.spec_set(
                Register::PmlIndex,
                final(self).backing.vm.guest_regs.pml_index,
            ),
            forall|a: u64|
                #![trigger final(self).resolvable(parent, a)]
                final(self).resolvable(parent, a) == old(self).resolvable(parent, a),
            forall|p: u64| old(self).dirty_at(p) ==> final(self).dirty_at(p),
            ({
                let t = spec_apply_writes(
                    old(self).view_map(parent),
                    old(self).dirty_set(),
                    old(self).writable_set(),
                    old(self).backing.vm.pml_buffer@,
                    old(self).backing.vm.guest_regs.pml_index,
                    step.writes@,
                    0,
                );
                &&& final(self).view_map(parent) == t.1
                &&& final(self).dirty_set() == t.2
                &&& final(self).backing.vm.pml_buffer@ == t.3
                &&& final(self).backing.vm.guest_regs.pml_index == t.4
                &&& final(self).writable_set() == old(self).writable_set()
                &&& r == (if t.0 {
                    step.exit
                } else {
                    VmExit::PmlFull
                })
            }),
    {
        proof {
            assert(step.writes.len() == step.writes@.len());
            assert(old(self).backing.vm.guest_regs.spec_set(
                Register::PmlIndex,
                old(self).backing.vm.guest_regs.pml_index,
            ) =~= old(self).backing.vm.guest_regs);
        }
        let ghost w0 = *self;
        let ghost full = spec_apply_writes(
            w0.view_map(parent),
            w0.dirty_set(),
            w0.writable_set(),
            w0.backing.vm.pml_buffer@,
            w0.backing.vm.guest_regs.pml_index,
            step.writes@,
            0,
        );
        let mut k: usize = 0;
        while k < step.writes.len()
            invariant
                k <= step.writes@.len() <= usize::MAX,
                self.mem_wf(parent),
                self.pml@ == old(self).pml@,
                self.rng == old(self).rng,
                self.fuzz_input == old(self).fuzz_input,
                self.stats == old(self).stats,
                self.sync == old(self).sync,
                self.worker_id == old(self).worker_id,
                self.module_list == old(self).module_list,
                self.enlightenment == old(self).enlightenment,
                self.backing.network_mem == old(self).backing.network_mem,
                self.backing.vm.guest_regs == old(self).backing.vm.guest_regs.spec_set(
                    Register::PmlIndex,
                    self.backing.vm.guest_regs.pml_index,
                ),
                forall|a: u64|
                    #![trigger self.resolvable(parent, a)]
                    self.resolvable(parent, a) == old(self).resolvable(parent, a),
                forall|p: u64| old(self).dirty_at(p) ==> self.dirty_at(p),
                self.writable_set() == old(self).writable_set(),
                w0 == *old(self),
                full == spec_apply_writes(
                    w0.view_map(parent),
                    w0.dirty_set(),
                    w0.writable_set(),
                    w0.backing.vm.pml_buffer@,
                    w0.backing.vm.guest_regs.pml_index,
                    step.writes@,
                    0,
                ),
                full == spec_apply_writes(
                    self.view_map(parent),
                    self.dirty_set(),
                    self.writable_set(),
                    self.backing.vm.pml_buffer@,
                    self.backing.vm.guest_regs.pml_index,
                    step.writes@,
                    k as nat,
                ),
            decreases step.writes@.len() - k,
        {
            let (addr, val) = step.writes[k];
            let ghost cur = *self;
            proof {
                assert(step.writes@[k as int] == (addr, val));
                assert(full == spec_apply_writes(
                    cur.view_map(parent),
                    cur.dirty_set(),
                    cur.writable_set(),
                    cur.backing.vm.pml_buffer@,
                    cur.backing.vm.guest_regs.pml_index,
                    step.writes@,
                    k as nat,
                ));
            }
            let ok = self.guest_write_byte(parent, addr, val);
            proof {
                assert(self.backing.vm.guest_regs == cur.backing.vm.guest_regs.spec_set(
                    Register::PmlIndex,
                    self.backing.vm.guest_regs.pml_index,
                ));
                assert(self.backing.vm.guest_regs =~= old(self).backing.vm.guest_regs.spec_set(
                    Register::PmlIndex,
                    self.backing.vm.guest_regs.pml_index,
                ));
            }
            if !ok {
                proof {
                    let st = spec_guest_write(
                        cur.view_map(parent),
                        cur.dirty_set(),
                        cur.writable_set(),
                        cur.backing.vm.pml_buffer@,
                        cur.backing.vm.guest_regs.pml_index,
                        addr,
                        val,
                    );
                    assert(!st.0);
                    assert(spec_apply_writes(
                        cur.view_map(parent),
                        cur.dirty_set(),
                        cur.writable_set(),
                        cur.backing.vm.pml_buffer@,
                        cur.backing.vm.guest_regs.pml_index,
                        step.writes@,
                        k as nat,
                    ) == (false, st.1, st.2, st.3, st.4));
                    assert(self.view_map(parent) == st.1);
                    assert(self.dirty_set() == st.2);
                    assert(self.backing.vm.pml_buffer@ == st.3);
                    assert(self.backing.vm.guest_regs.pml_index == st.4);
                }
                return VmExit::PmlFull;
            }
            k = k + 1;
        }
        proof {
            assert(spec_apply_writes(
                self.view_map(parent),
                self.dirty_set(),
                self.writable_set(),
                self.backing.vm.pml_buffer@,
                self.backing.vm.guest_regs.pml_index,
                step.writes@,
                k as nat,
            ) == (
                true,
                self.view_map(parent),
                self.dirty_set(),
                self.backing.vm.pml_buffer@,
                self.backing.vm.guest_regs.pml_index,
            ));
        }
        step.exit
    }

    /// Drain the live slots of the hardware page-modification log into the
    /// software mirror and reset the log to empty.
    ///
    /// The log index names the next free slot, so the live slots start one
    /// past it; an index that has wrapped to `0xffff` wraps back to zero
    /// here, draining the full 512-entry log.
    pub fn drain_pml(&mut self)
        requires
            old(self).mem_wf_any(),
        ensures
            final(self).mem_wf_any(),
            final(self).pml@ == old(self).pml@ + old(self).pml_tail(),
            final(self).pml_tail().len() == 0,
            *final(self) == (Worker {
                backing: Backing {
                    vm: crate::vm::Vm {
                        guest_regs: old(self).backing.vm.guest_regs.spec_set(
                            Register::PmlIndex,
                            511,
                        ),
                        ..old(self).backing.vm
                    },
                    ..old(self).backing
                },
                pml: final(self).pml,
                ..*old(self)
            }),
    {
        proof {
            assert(self.pml.len() == self.pml@.len());
            assert(self.backing.vm.pml_buffer.len() == self.backing.vm.pml_buffer@.len());
        }
        let idxreg = self.reg(Register::PmlIndex);
        #[verifier::truncate]
        let idx = idxreg as u16;
        let start16 = idx.wrapping_add(1);
        let start: usize = if start16 > 512 {
            512
        } else {
            start16 as usize
        };
        proof {
            assert(start == old(self).tail_lo());
        }
        let ghost w0 = *self;
        let mut k: usize = start;
        while k < 512
            invariant
                start <= k <= 512,
                *self == (Worker { pml: self.pml, ..w0 }),
                w0.mem_wf_any(),
                start == w0.tail_lo(),
                self.pml@ == w0.pml@ + w0.backing.vm.pml_buffer@.subrange(
                    start as int,
                    k as int,
                ),
            decreases 512 - k,
        {
            let v = self.backing.vm.pml_buffer[k];
            self.pml.push(v);
            proof {
                assert(self.pml@ =~= w0.pml@ + w0.backing.vm.pml_buffer@.subrange(
                    start as int,
                    k + 1,
                ));
            }
            k = k + 1;
        }
        proof {
            assert(self.pml@ == w0.pml@ + w0.pml_tail());
        }
        self.set_reg(Register::PmlIndex, 511);
        proof {
            assert_drain_done(w0, *self);
        }
    }

    /// Memory well-formedness against whichever parent applies; the parts
    /// the drain touches do not depend on the parent's pages.
    pub open spec fn mem_wf_any(&self) -> bool {
        &&& self.backing.vm.wf()
        &&& self.mirror_wf()
        &&& self.tail_wf()
    }
}

/// Logging a clean page to the hardware log preserves well-formedness: the
/// page joins the live slots and its dirty bit is set.
proof fn assert_hw_log(
    pre: Worker,
    post: Worker,
    parent: Option<&Backing>,
    i: int,
    page: u64,
    idx: u16,
)
    requires
        pre.mem_wf(parent),
        0 <= i < pre.backing.vm.ept@.len(),
        pre.backing.vm.ept@[i].gpa == page,
        pre.backing.vm.ept@[i].writable,
        !pre.backing.vm.ept@[i].dirty,
        idx <= 511,
        idx == (pre.backing.vm.guest_regs.pml_index as u16),
        post.backing.vm.ept@ == pre.backing.vm.ept@.update(
            i,
            EptEntry {
                gpa: page,
                writable: true,
                dirty: true,
                data: pre.backing.vm.ept@[i].data,
            },
        ),
        post.backing.vm.pml_buffer@ == pre.backing.vm.pml_buffer@.update(idx as int, page),
        post.backing.vm.guest_regs == pre.backing.vm.guest_regs.spec_set(
            Register::PmlIndex,
            idx.wrapping_sub(1) as u64,
        ),
        post.pml@ == pre.pml@,
        post.backing.network_mem == pre.backing.network_mem,
        post.backing.vm.fxsave == pre.backing.vm.fxsave,
        forall|g: u64| spec_find(post.backing.vm.ept@, g) == spec_find(pre.backing.vm.ept@, g),
    ensures
        post.mem_wf(parent),
        forall|p: u64|
            #![trigger post.view_at(parent, p)]
            post.view_at(parent, p) == pre.view_at(parent, p),
        post.dirty_at(page),
        forall|p: u64| p != page ==> post.dirty_at(p) == pre.dirty_at(p),
        forall|p: u64| post.writable_at(p) == pre.writable_at(p),
    decreases 0int,
{
    lemma_spec_find(pre.backing.vm.ept@, page);
    assert(spec_find(pre.backing.vm.ept@, page) == Some(i)) by {
        match spec_find(pre.backing.vm.ept@, page) {
            Some(j) => {
                if j != i {
                    assert(pre.backing.vm.ept@[j].gpa == pre.backing.vm.ept@[i].gpa);
                }
            },
            None => {
                assert(pre.backing.vm.ept@[i].gpa != page);
            },
        }
    }
    assert(!pre.dirty_at(page));
    assert(forall|j: int| 0 <= j < pre.pml@.len() ==> pre.pml@[j] != page);
    assert(forall|k: int| pre.tail_lo() <= k < 512 ==> pre.backing.vm.pml_buffer@[k] != page);
    // The new tail is the old tail plus the slot just written.
    assert(post.tail_lo() == pre.tail_lo() - 1 && pre.tail_lo() == idx + 1) by {
        let pi = pre.backing.vm.guest_regs.pml_index;
        assert(post.backing.vm.guest_regs.pml_index == idx.wrapping_sub(1) as u64);
        if idx == 0 {
            assert((((0u16.wrapping_sub(1)) as u64) as u16) as int == 0xffff);
        }
    }
    assert forall|p: u64|
        #![trigger post.view_at(parent, p)]
        post.view_at(parent, p) == pre.view_at(parent, p) by {
        lemma_spec_find(pre.backing.vm.ept@, p);
        assert(post.src_view(parent, p) == pre.src_view(parent, p));
        if p != page {
            match spec_find(pre.backing.vm.ept@, p) {
                Some(j) => {
                    assert(pre.backing.vm.ept@[j].gpa == p);
                    assert(j != i);
                    assert(post.backing.vm.ept@[j] == pre.backing.vm.ept@[j]);
                },
                None => {},
            }
        } else {
            assert(post.backing.vm.ept@[i].data == pre.backing.vm.ept@[i].data);
        }
    }
    assert forall|p: u64| #![trigger post.dirty_at(p)] p != page implies post.dirty_at(p)
        == pre.dirty_at(p) by {
        lemma_spec_find(pre.backing.vm.ept@, p);
        match spec_find(pre.backing.vm.ept@, p) {
            Some(j) => {
                assert(pre.backing.vm.ept@[j].gpa == p);
                assert(j != i);
                assert(post.backing.vm.ept@[j] == pre.backing.vm.ept@[j]);
            },
            None => {},
        }
    }
    assert forall|p: u64| #![trigger post.writable_at(p)] post.writable_at(p)
        == pre.writable_at(p) by {
        lemma_spec_find(pre.backing.vm.ept@, page_of(p));
        match spec_find(pre.backing.vm.ept@, page_of(p)) {
            Some(j) => {
                if j != i {
                    assert(post.backing.vm.ept@[j] == pre.backing.vm.ept@[j]);
                } else {
                    assert(post.backing.vm.ept@[j].writable
                        == pre.backing.vm.ept@[j].writable);
                }
            },
            None => {},
        }
    }
    assert(post.dirty_at(page));
    assert(post.mirror_wf()) by {
        assert forall|j: int| 0 <= j < post.pml@.len() implies (post.pml@[j]) & 0xfff == 0
            && post.dirty_at(post.pml@[j]) by {
            assert(pre.dirty_at(pre.pml@[j]));
            assert(pre.pml@[j] != page);
        }
    }
    assert(post.tail_wf()) by {
        assert forall|k: int|
            post.tail_lo() <= k < 512 implies (#[trigger] post.backing.vm.pml_buffer@[k]) & 0xfff
            == 0 && post.dirty_at(post.backing.vm.pml_buffer@[k]) by {
            if k == idx {
                assert(post.backing.vm.pml_buffer@[k] == page);
                assert(page & 0xfff == 0);
            } else {
                assert(post.backing.vm.pml_buffer@[k] == pre.backing.vm.pml_buffer@[k]);
                assert(pre.dirty_at(pre.backing.vm.pml_buffer@[k]));
                assert(pre.backing.vm.pml_buffer@[k] != page);
            }
        }
        assert forall|k1: int, k2: int|
            post.tail_lo() <= k1 < k2 < 512 implies post.backing.vm.pml_buffer@[k1]
            != post.backing.vm.pml_buffer@[k2] by {
            if k1 == idx {
                assert(post.backing.vm.pml_buffer@[k2] == pre.backing.vm.pml_buffer@[k2]);
                assert(pre.backing.vm.pml_buffer@[k2] != page);
            }
        }
        assert forall|k: int, j: int|
            post.tail_lo() <= k < 512 && 0 <= j < post.pml@.len()
            implies post.backing.vm.pml_buffer@[k] != post.pml@[j] by {
            if k == idx {
                assert(pre.pml@[j] != page);
            }
        }
    }
    assert(post.entries_wf(parent)) by {
        assert forall|j: int| 0 <= j < post.backing.vm.ept@.len() implies {
            let e = #[trigger] post.backing.vm.ept@[j];
            &&& (e.dirty ==> e.writable)
            &&& (!e.dirty ==> post.src_view(parent, e.gpa) == Some(e.data@))
            &&& post.src_view(parent, e.gpa) is Some
            &&& (e.dirty ==> post.logged(e.gpa))
        } by {
            let e = post.backing.vm.ept@[j];
            let e0 = pre.backing.vm.ept@[j];
            assert(post.src_view(parent, e.gpa) == pre.src_view(parent, e.gpa));
            if j != i {
                assert(e == e0);
                if e0.dirty {
                    assert(pre.logged(e0.gpa));
                    assert(post.logged(e0.gpa)) by {
                        if pre.pml@.contains(e0.gpa) {
                        } else {
                            assert(pre.pml_tail().contains(e0.gpa));
                            let u = choose|u: int|
                                0 <= u < pre.pml_tail().len() && #[trigger] pre.pml_tail()[u]
                                    == e0.gpa;
                            assert(pre.backing.vm.pml_buffer@[pre.tail_lo() + u] == e0.gpa);
                            assert(post.backing.vm.pml_buffer@[pre.tail_lo() + u] == e0.gpa);
                            assert(post.pml_tail()[(pre.tail_lo() + u) - post.tail_lo()]
                                == e0.gpa);
                            assert(post.pml_tail().contains(e0.gpa));
                        }
                    }
                }
            } else {
                assert(post.backing.vm.pml_buffer@[idx as int] == page);
                assert(post.pml_tail()[idx - post.tail_lo()] == page);
                assert(post.pml_tail().contains(page));
            }
        }
    }
    assert(post.backing.vm.wf()) by {
        assert forall|a: int, b: int|
            0 <= a < b < post.backing.vm.ept@.len() implies post.backing.vm.ept@[a].gpa
            != post.backing.vm.ept@[b].gpa by {
            assert(pre.backing.vm.ept@[a].gpa == post.backing.vm.ept@[a].gpa);
            assert(pre.backing.vm.ept@[b].gpa == post.backing.vm.ept@[b].gpa);
        }
    }
}

/// Writing one byte of a dirty private page preserves well-formedness and
/// changes only that byte of that page's view.
proof fn assert_guest_byte(
    pre: Worker,
    post: Worker,
    parent: Option<&Backing>,
    i: int,
    page: u64,
    off: int,
    val: u8,
)
    requires
        pre.mem_wf(parent),
        0 <= i < pre.backing.vm.ept@.len(),
        pre.backing.vm.ept@[i].gpa == page,
        pre.backing.vm.ept@[i].writable,
        pre.backing.vm.ept@[i].dirty,
        post.backing.vm.ept@ == pre.backing.vm.ept@.update(
            i,
            EptEntry {
                gpa: page,
                writable: true,
                dirty: true,
                data: post.backing.vm.ept@[i].data,
            },
        ),
        0 <= off < 4096,
        post.backing.vm.ept@[i].data@ == pre.backing.vm.ept@[i].data@.update(off, val),
        post.backing.vm.ept@[i].data@.len() == pre.backing.vm.ept@[i].data@.len(),
        post.backing.vm.pml_buffer == pre.backing.vm.pml_buffer,
        post.backing.vm.guest_regs == pre.backing.vm.guest_regs,
        post.pml@ == pre.pml@,
        post.backing.network_mem == pre.backing.network_mem,
        post.backing.vm.fxsave == pre.backing.vm.fxsave,
        forall|g: u64| spec_find(post.backing.vm.ept@, g) == spec_find(pre.backing.vm.ept@, g),
    ensures
        post.mem_wf(parent),
        forall|p: u64|
            p != page ==> post.view_at(parent, p) == pre.view_at(parent, p),
        forall|p: u64| post.dirty_at(p) == pre.dirty_at(p),
        forall|p: u64| post.writable_at(p) == pre.writable_at(p),
        forall|a: u64|
            #![trigger post.resolvable(parent, a)]
            post.resolvable(parent, a) == pre.resolvable(parent, a),
        pre.view_at(parent, page) == Some(pre.backing.vm.ept@[i].data@),
        post.view_at(parent, page) == Some(pre.backing.vm.ept@[i].data@.update(off, val)),
{
    lemma_spec_find(pre.backing.vm.ept@, page);
    assert(spec_find(pre.backing.vm.ept@, page) == Some(i)) by {
        match spec_find(pre.backing.vm.ept@, page) {
            Some(j) => {
                if j != i {
                    assert(pre.backing.vm.ept@[j].gpa == pre.backing.vm.ept@[i].gpa);
                }
            },
            None => {
                assert(pre.backing.vm.ept@[i].gpa != page);
            },
        }
    }
    assert(post.tail_lo() == pre.tail_lo());
    assert(post.pml_tail() =~= pre.pml_tail());
    assert forall|p: u64| p != page implies post.view_at(parent, p) == pre.view_at(
        parent,
        p,
    ) by {
        lemma_spec_find(pre.backing.vm.ept@, p);
        assert(post.src_view(parent, p) == pre.src_view(parent, p));
        match spec_find(pre.backing.vm.ept@, p) {
            Some(j) => {
                assert(pre.backing.vm.ept@[j].gpa == p);
                assert(j != i);
                assert(post.backing.vm.ept@[j] == pre.backing.vm.ept@[j]);
            },
            None => {},
        }
    }
    assert forall|p: u64| #![trigger post.dirty_at(p)] post.dirty_at(p) == pre.dirty_at(p) by {
        lemma_spec_find(pre.backing.vm.ept@, p);
        match spec_find(pre.backing.vm.ept@, p) {
            Some(j) => {
                if j != i {
                    assert(post.backing.vm.ept@[j] == pre.backing.vm.ept@[j]);
                }
            },
            None => {},
        }
    }
    assert forall|p: u64| #![trigger post.writable_at(p)] post.writable_at(p)
        == pre.writable_at(p) by {
        lemma_spec_find(pre.backing.vm.ept@, page_of(p));
        match spec_find(pre.backing.vm.ept@, page_of(p)) {
            Some(j) => {
                if j != i {
                    assert(post.backing.vm.ept@[j] == pre.backing.vm.ept@[j]);
                } else {
                    assert(post.backing.vm.ept@[j].writable
                        == pre.backing.vm.ept@[j].writable);
                }
            },
            None => {},
        }
    }
    assert forall|a: u64|
        #![trigger post.resolvable(parent, a)]
        post.resolvable(parent, a) == pre.resolvable(parent, a) by {
        if page_of(a) == page {
            assert(post.view_at(parent, page) is Some);
            assert(pre.view_at(parent, page) is Some);
        } else {
            assert(post.view_at(parent, page_of(a)) == pre.view_at(parent, page_of(a)));
        }
    }
    assert(post.entries_wf(parent)) by {
        assert forall|j: int| 0 <= j < post.backing.vm.ept@.len() implies {
            let e = #[trigger] post.backing.vm.ept@[j];
            &&& (e.dirty ==> e.writable)
            &&& (!e.dirty ==> post.src_view(parent, e.gpa) == Some(e.data@))
            &&& post.src_view(parent, e.gpa) is Some
            &&& (e.dirty ==> post.logged(e.gpa))
        } by {
            let e = post.backing.vm.ept@[j];
            let e0 = pre.backing.vm.ept@[j];
            assert(post.src_view(parent, e.gpa) == pre.src_view(parent, e.gpa));
            assert(e.gpa == e0.gpa && e.dirty == e0.dirty && e.writable == e0.writable);
            if e0.dirty {
                assert(pre.logged(e0.gpa));
                assert(post.logged(e0.gpa)) by {
                    assert(post.pml_tail() == pre.pml_tail());
                }
            }
        }
    }
    assert(post.mirror_wf()) by {
        assert forall|j: int| 0 <= j < post.pml@.len() implies (post.pml@[j]) & 0xfff == 0
            && post.dirty_at(post.pml@[j]) by {
            assert(pre.dirty_at(pre.pml@[j]));
        }
    }
    assert(post.tail_wf()) by {
        assert forall|k: int|
            post.tail_lo() <= k < 512 implies (#[trigger] post.backing.vm.pml_buffer@[k]) & 0xfff
            == 0 && post.dirty_at(post.backing.vm.pml_buffer@[k]) by {
            assert(pre.dirty_at(pre.backing.vm.pml_buffer@[k]));
        }
    }
    assert(post.backing.vm.wf()) by {
        assert forall|a: int, b: int|
            0 <= a < b < post.backing.vm.ept@.len() implies post.backing.vm.ept@[a].gpa
            != post.backing.vm.ept@[b].gpa by {
            assert(pre.backing.vm.ept@[a].gpa == post.backing.vm.ept@[a].gpa);
            assert(pre.backing.vm.ept@[b].gpa == post.backing.vm.ept@[b].gpa);
        }
    }
}

/// After the drain, the mirror holds the old tail, the tail is empty, and
/// everything is well-formed.
proof fn assert_drain_done(w0: Worker, post: Worker)
    requires
        w0.mem_wf_any(),
        post.backing.vm.ept == w0.backing.vm.ept,
        post.backing.vm.pml_buffer == w0.backing.vm.pml_buffer,
        post.backing.vm.fxsave == w0.backing.vm.fxsave,
        post.backing.vm.guest_regs == w0.backing.vm.guest_regs.spec_set(Register::PmlIndex, 511),
        post.pml@ == w0.pml@ + w0.pml_tail(),
    ensures
        post.mem_wf_any(),
        post.pml_tail().len() == 0,
        post.entries_wf_same(w0),
{
    assert(post.tail_lo() == 512);
    assert(post.pml_tail().len() == 0);
    let tail = w0.pml_tail();
    assert forall|p: u64| #![trigger post.dirty_at(p)] post.dirty_at(p) == w0.dirty_at(p) by {}
    assert(post.mirror_wf()) by {
        assert forall|j: int| 0 <= j < post.pml@.len() implies (post.pml@[j]) & 0xfff == 0
            && post.dirty_at(post.pml@[j]) by {
            if j < w0.pml@.len() {
                assert(post.pml@[j] == w0.pml@[j]);
                assert(w0.dirty_at(w0.pml@[j]));
            } else {
                assert(post.pml@[j] == tail[j - w0.pml@.len()]);
                assert(w0.backing.vm.pml_buffer@[w0.tail_lo() + (j - w0.pml@.len())]
                    == tail[j - w0.pml@.len()]);
                assert(w0.dirty_at(tail[j - w0.pml@.len()]));
            }
        }
        assert forall|j1: int, j2: int|
            0 <= j1 < j2 < post.pml@.len() implies post.pml@[j1] != post.pml@[j2] by {
            let n = w0.pml@.len() as int;
            if j1 < n && j2 >= n {
                assert(post.pml@[j1] == w0.pml@[j1]);
                assert(post.pml@[j2] == w0.backing.vm.pml_buffer@[w0.tail_lo() + (j2 - n)]);
            } else if j1 >= n {
                assert(post.pml@[j1] == w0.backing.vm.pml_buffer@[w0.tail_lo() + (j1 - n)]);
                assert(post.pml@[j2] == w0.backing.vm.pml_buffer@[w0.tail_lo() + (j2 - n)]);
            }
        }
    }
    assert(post.tail_wf());
}

impl Worker {
    /// The extended page table, mirror-tracking aside, is unchanged.
    pub open spec fn entries_wf_same(&self, other: Worker) -> bool {
        self.backing.vm.ept == other.backing.vm.ept
    }
}

/// Two states whose views agree except that one byte on one resolvable
/// page changed have byte maps related by a single insertion.
proof fn lemma_view_map_insert(
    w1: Worker,
    w2: Worker,
    parent: Option<&Backing>,
    addr: u64,
    val: u8,
)
    requires
        w1.view_at(parent, page_of(addr)) is Some,
        w1.view_at(parent, page_of(addr))->Some_0.len() == 4096,
        forall|p: u64|
            p != page_of(addr) ==> w2.view_at(parent, p) == w1.view_at(parent, p),
        w2.view_at(parent, page_of(addr)) == Some(
            w1.view_at(parent, page_of(addr))->Some_0.update((addr & 0xfff) as int, val),
        ),
    ensures
        w2.view_map(parent) == w1.view_map(parent).insert(addr, val),
{
    let page = page_of(addr);
    assert((addr & 0xfff) < 4096) by (bit_vector);
    assert forall|a: u64|
        #![trigger w2.view_map(parent).contains_key(a)]
        w2.resolvable(parent, a) == w1.resolvable(parent, a) && (a != addr ==> w2.byte_at(
        parent,
        a,
    ) == w1.byte_at(parent, a)) by {
        if page_of(a) == page {
            assert(w2.view_at(parent, page) is Some);
            if a != addr {
                assert((a & 0xfff) != (addr & 0xfff) && (a & 0xfff) < 4096) by (bit_vector)
                    requires
                        a & !0xfffu64 == addr & !0xfffu64,
                        a != addr,
                ;
            }
        } else {
            assert(w2.view_at(parent, page_of(a)) == w1.view_at(parent, page_of(a)));
        }
    }
    assert(w2.byte_at(parent, addr) == Some(val));
    assert(w1.resolvable(parent, addr));
    assert(w2.view_map(parent) =~= w1.view_map(parent).insert(addr, val));
}

/// Two states whose dirty bits agree except one page now dirty have dirty
/// sets related by a single insertion.
proof fn lemma_dirty_set_insert(w1: Worker, w2: Worker, page: u64)
    requires
        w2.dirty_at(page),
        forall|p: u64| p != page ==> w2.dirty_at(p) == w1.dirty_at(p),
    ensures
        w2.dirty_set() == w1.dirty_set().insert(page),
{
    assert(w2.dirty_set() =~= w1.dirty_set().insert(page));
}

/// States with the same per-page dirty bits have the same dirty set, and
/// the same for writability.
proof fn lemma_same_page_sets(w1: Worker, w2: Worker)
    requires
        forall|p: u64| w2.dirty_at(p) == w1.dirty_at(p),
        forall|p: u64| w2.writable_at(p) == w1.writable_at(p),
    ensures
        w2.dirty_set() == w1.dirty_set(),
        w2.writable_set() == w1.writable_set(),
{
    assert(w2.dirty_set() =~= w1.dirty_set());
    assert(w2.writable_set() =~= w1.writable_set());
}

} // verus!
