//! Guest-virtual address translation: the three paging modes, the page
//! walkers over guest-physical memory, and segment-relative addressing.

use vstd::prelude::*;
use crate::backing::Backing;
use crate::regs::{Register, RegisterFile};
use crate::worker::{Worker, lemma_view_map_congruent, lemma_same_page};
use crate::bytes::{le_at, Primitive};
use crate::vm::page_of;

verus! {

broadcast use vstd::std_specs::vec::axiom_spec_len;

/// Different types of paging modes.
#[derive(Clone, Copy, PartialEq, Eq, Structural, Debug)]
pub enum PagingMode {
    /// 32-bit paging without physical address extension.
    Bits32,
    /// 32-bit paging with physical address extension.
    Bits32Pae,
    /// 4-level 64-bit paging.
    Bits64,
}

/// Different x86 segments.
#[derive(Clone, Copy, PartialEq, Eq, Structural, Debug)]
pub enum Segment {
    Es,
    Ds,
    Fs,
    Gs,
    Ss,
    Cs,
}

/// Different addresses for x86.
#[derive(Clone, Copy, PartialEq, Eq, Structural, Debug)]
pub enum Address {
    /// Physical linear address.
    PhysicalLinear { addr: u64 },
    /// Physical address with a segment base and an offset.
    PhysicalSegOff { seg: Segment, off: u64 },
    /// Virtual address with a segment base, offset, paging mode, and a page
    /// table.
    Virtual { seg: Segment, off: u64, mode: PagingMode, cr3: u64 },
    /// Linear address with a paging mode and a page table.
    Linear { addr: u64, mode: PagingMode, cr3: u64 },
}

/// The paging mode the control registers `cr0`, `cr4` and `efer` select,
/// if they select a valid one.
pub open spec fn spec_paging_mode(cr0: u64, cr4: u64, efer: u64) -> Option<PagingMode> {
    if cr0 & (1u64 << 31) == 0 {
        None
    } else if efer & (1u64 << 8) == 0 {
        if cr4 & (1u64 << 5) == 0 {
            Some(PagingMode::Bits32)
        } else {
            Some(PagingMode::Bits32Pae)
        }
    } else {
        if cr4 & (1u64 << 5) == 0 {
            None
        } else {
            Some(PagingMode::Bits64)
        }
    }
}

impl Worker {
    /// Gets the current paging mode of the system: none with paging
    /// disabled, and none in the invalid long-mode-without-extensions
    /// state.
    pub fn paging_mode(&self) -> (r: Option<PagingMode>)
        ensures
            r == spec_paging_mode(
                self.backing.vm.guest_regs.cr0,
                self.backing.vm.guest_regs.cr4,
                self.backing.vm.guest_regs.efer,
            ),
    {
        let cr0 = self.reg(Register::Cr0);
        let cr4 = self.reg(Register::Cr4);
        let efer = self.reg(Register::Efer);

        if cr0 & (1u64 << 31) == 0 {
            // Paging disabled.
            None
        } else {
            if efer & (1u64 << 8) == 0 {
                // 32-bit mode.
                if cr4 & (1u64 << 5) == 0 {
                    Some(PagingMode::Bits32)
                } else {
                    Some(PagingMode::Bits32Pae)
                }
            } else {
                // 64-bit mode, valid only with physical address extension.
                if cr4 & (1u64 << 5) == 0 {
                    None
                } else {
                    Some(PagingMode::Bits64)
                }
            }
        }
    }
}

/// Permissions gathered along a page walk.
#[derive(Clone, Copy, PartialEq, Eq, Structural, Debug)]
pub struct PagePerms {
    /// Every level allows writing.
    pub write: bool,
    /// Every level allows user access.
    pub user: bool,
    /// Some level forbids instruction fetch.
    pub nx: bool,
}

/// The 64-bit little-endian value the byte map `m` holds at `addr`, if all
/// eight bytes are present.
pub open spec fn read64_m(m: Map<u64, u8>, addr: u64) -> Option<u64> {
    if addr + 8 <= 0x1_0000_0000_0000_0000 && (forall|k: int|
        0 <= k < 8 ==> #[trigger] m.contains_key(((addr + k) as u64))) {
        Some((le_at(Seq::new(8, |k: int| m[((addr + k) as u64)]), 0, 8)) as u64)
    } else {
        None
    }
}

/// The 32-bit little-endian value the byte map `m` holds at `addr`, if all
/// four bytes are present.
pub open spec fn read32_m(m: Map<u64, u8>, addr: u64) -> Option<u64> {
    if addr + 4 <= 0x1_0000_0000_0000_0000 && (forall|k: int|
        0 <= k < 4 ==> #[trigger] m.contains_key(((addr + k) as u64))) {
        Some((le_at(Seq::new(4, |k: int| m[((addr + k) as u64)]), 0, 4)) as u64)
    } else {
        None
    }
}

/// Mask selecting the physical page base of a 64-bit paging entry.
pub open spec fn entry_base(e: u64) -> u64 {
    e & 0x000f_ffff_ffff_f000u64
}

/// A 4-level 64-bit page walk of `va` through the tables rooted at `cr3`,
/// over the guest-physical bytes in `m`. Yields the guest-physical page
/// base, the offset within it, and the gathered permissions.
pub open spec fn spec_walk_64(m: Map<u64, u8>, cr3: u64, va: u64) -> Option<(u64, u64, PagePerms)> {
    match read64_m(m, (entry_base(cr3) + ((va >> 39) & 0x1ff) * 8) as u64) {
        None => None,
        Some(pml4e) => if pml4e & 1 == 0 {
            None
        } else {
            match read64_m(m, (entry_base(pml4e) + ((va >> 30) & 0x1ff) * 8) as u64) {
                None => None,
                Some(pdpte) => if pdpte & 1 == 0 {
                    None
                } else if pdpte & 0x80 != 0 {
                    Some(
                        (
                            pdpte & 0x000f_ffff_c000_0000u64,
                            va & 0x3fff_ffff,
                            walk_perms(seq![pml4e, pdpte]),
                        ),
                    )
                } else {
                    match read64_m(m, (entry_base(pdpte) + ((va >> 21) & 0x1ff) * 8) as u64) {
                        None => None,
                        Some(pde) => if pde & 1 == 0 {
                            None
                        } else if pde & 0x80 != 0 {
                            Some(
                                (
                                    pde & 0x000f_ffff_ffe0_0000u64,
                                    va & 0x1f_ffff,
                                    walk_perms(seq![pml4e, pdpte, pde]),
                                ),
                            )
                        } else {
                            match read64_m(
                                m,
                                (entry_base(pde) + ((va >> 12) & 0x1ff) * 8) as u64,
                            ) {
                                None => None,
                                Some(pte) => if pte & 1 == 0 {
                                    None
                                } else {
                                    Some(
                                        (
                                            entry_base(pte),
                                            va & 0xfff,
                                            walk_perms(seq![pml4e, pdpte, pde, pte]),
                                        ),
                                    )
                                },
                            }
                        },
                    }
                },
            }
        },
    }
}

/// The permissions a walk through `entries` gathers.
pub open spec fn walk_perms(entries: Seq<u64>) -> PagePerms {
    PagePerms {
        write: forall|i: int| 0 <= i < entries.len() ==> (#[trigger] entries[i]) & 2 != 0,
        user: forall|i: int| 0 <= i < entries.len() ==> (#[trigger] entries[i]) & 4 != 0,
        nx: exists|i: int| 0 <= i < entries.len() && (#[trigger] entries[i]) & (1u64 << 63) != 0,
    }
}

/// A 32-bit page walk with physical address extension: a 4-entry directory
/// pointer table at `cr3`, then two levels, with 2 MiB large pages.
pub open spec fn spec_walk_32_pae(
    m: Map<u64, u8>,
    cr3: u64,
    va: u64,
) -> Option<(u64, u64, PagePerms)> {
    match read64_m(m, ((cr3 & 0xffff_ffe0u64) + ((va >> 30) & 3) * 8) as u64) {
        None => None,
        Some(pdpte) => if pdpte & 1 == 0 {
            None
        } else {
            match read64_m(m, (entry_base(pdpte) + ((va >> 21) & 0x1ff) * 8) as u64) {
                None => None,
                Some(pde) => if pde & 1 == 0 {
                    None
                } else if pde & 0x80 != 0 {
                    Some(
                        (pde & 0x000f_ffff_ffe0_0000u64, va & 0x1f_ffff, walk_perms(seq![pde])),
                    )
                } else {
                    match read64_m(m, (entry_base(pde) + ((va >> 12) & 0x1ff) * 8) as u64) {
                        None => None,
                        Some(pte) => if pte & 1 == 0 {
                            None
                        } else {
                            Some((entry_base(pte), va & 0xfff, walk_perms(seq![pde, pte])))
                        },
                    }
                },
            }
        },
    }
}

/// A 32-bit page walk without physical address extension: two levels of
/// 32-bit entries, with 4 MiB large pages.
pub open spec fn spec_walk_32(m: Map<u64, u8>, cr3: u64, va: u64) -> Option<(u64, u64, PagePerms)> {
    match read32_m(m, ((cr3 & 0xffff_f000u64) + ((va >> 22) & 0x3ff) * 4) as u64) {
        None => None,
        Some(pde) => if pde & 1 == 0 {
            None
        } else if pde & 0x80 != 0 {
            Some((pde & 0xffc0_0000u64, va & 0x3f_ffff, walk_perms(seq![pde])))
        } else {
            match read32_m(m, ((pde & 0xffff_f000u64) + ((va >> 12) & 0x3ff) * 4) as u64) {
                None => None,
                Some(pte) => if pte & 1 == 0 {
                    None
                } else {
                    Some((pte & 0xffff_f000u64, va & 0xfff, walk_perms(seq![pde, pte])))
                },
            }
        },
    }
}

/// The page walk the paging mode `mode` selects.
pub open spec fn spec_walk(
    m: Map<u64, u8>,
    mode: PagingMode,
    cr3: u64,
    va: u64,
) -> Option<(u64, u64, PagePerms)> {
    match mode {
        PagingMode::Bits32 => spec_walk_32(m, cr3, va),
        PagingMode::Bits32Pae => spec_walk_32_pae(m, cr3, va),
        PagingMode::Bits64 => spec_walk_64(m, cr3, va),
    }
}

/// The value `read64_m` takes on a worker's byte map is the value of the
/// worker's eight bytes there, present exactly when they all resolve.
pub proof fn lemma_read64_of(w: &Worker, parent: Option<&Backing>, addr: u64)
    requires
        addr + 8 <= 0x1_0000_0000_0000_0000,
    ensures
        read64_m(w.view_map(parent), addr) is Some <==> w.span_resolvable(parent, addr, 8),
        read64_m(w.view_map(parent), addr) is Some ==> read64_m(w.view_map(parent), addr)
            == Some((le_at(w.bytes_at(parent, addr, 8), 0, 8)) as u64),
{
    let m = w.view_map(parent);
    assert forall|k: int| 0 <= k < 8 implies #[trigger] m.contains_key(((addr + k) as u64))
        == w.resolvable(parent, ((addr + k) as u64)) by {}
    if w.span_resolvable(parent, addr, 8) {
        assert forall|k: int| 0 <= k < 8 implies #[trigger] m.contains_key(
            ((addr + k) as u64),
        ) by {
            assert(w.resolvable(parent, ((addr + k) as u64)));
        }
        crate::bytes::lemma_le_at_agrees(
            Seq::new(8, |k: int| m[((addr + k) as u64)]),
            w.bytes_at(parent, addr, 8),
            0,
            8,
        );
    } else {
        let k = choose|k: int| 0 <= k < 8 && !(#[trigger] w.resolvable(parent, ((addr + k) as u64)));
        assert(!m.contains_key(((addr + k) as u64)));
    }
}

/// Likewise for four bytes.
pub proof fn lemma_read32_of(w: &Worker, parent: Option<&Backing>, addr: u64)
    requires
        addr + 4 <= 0x1_0000_0000_0000_0000,
    ensures
        read32_m(w.view_map(parent), addr) is Some <==> w.span_resolvable(parent, addr, 4),
        read32_m(w.view_map(parent), addr) is Some ==> read32_m(w.view_map(parent), addr)
            == Some((le_at(w.bytes_at(parent, addr, 4), 0, 4)) as u64),
{
    let m = w.view_map(parent);
    assert forall|k: int| 0 <= k < 4 implies #[trigger] m.contains_key(((addr + k) as u64))
        == w.resolvable(parent, ((addr + k) as u64)) by {}
    if w.span_resolvable(parent, addr, 4) {
        assert forall|k: int| 0 <= k < 4 implies #[trigger] m.contains_key(
            ((addr + k) as u64),
        ) by {
            assert(w.resolvable(parent, ((addr + k) as u64)));
        }
        crate::bytes::lemma_le_at_agrees(
            Seq::new(4, |k: int| m[((addr + k) as u64)]),
            w.bytes_at(parent, addr, 4),
            0,
            4,
        );
    } else {
        let k = choose|k: int| 0 <= k < 4 && !(#[trigger] w.resolvable(parent, ((addr + k) as u64)));
        assert(!m.contains_key(((addr + k) as u64)));
    }
}

impl Worker {
    /// Read one 64-bit page-table entry from guest-physical memory on
    /// behalf of a walk that started in state `w0`.
    fn read_pte64(
        &mut self,
        parent: Option<&Backing>,
        addr: u64,
        Ghost(w0): Ghost<Worker>,
    ) -> (r: Option<u64>)
        requires
            old(self).mem_wf(parent),
            addr + 8 <= 0x1_0000_0000_0000_0000,
            forall|p: u64| old(self).view_at(parent, p) == w0.view_at(parent, p),
        ensures
            final(self).mem_wf(parent),
            Worker::same_non_mem(*old(self), *final(self)),
            forall|p: u64|
                #![trigger final(self).view_at(parent, p)]
                final(self).view_at(parent, p) == old(self).view_at(parent, p),
            final(self).pml@ == old(self).pml@,
            forall|p: u64| final(self).dirty_at(p) == old(self).dirty_at(p),
            r == read64_m(w0.view_map(parent), addr),
    {
        let r = self.read_phys::<u64>(parent, addr);
        proof {
            lemma_read64_of(&w0, parent, addr);
            assert forall|k: int| 0 <= k < 8 implies #[trigger] old(self).resolvable(
                parent,
                ((addr + k) as u64),
            ) == w0.resolvable(parent, ((addr + k) as u64)) by {
                let a = ((addr + k) as u64);
                assert(old(self).view_at(parent, page_of(a)) == w0.view_at(parent, page_of(a)));
            }
            if r is Some {
                assert(w0.span_resolvable(parent, addr, 8)) by {
                    assert forall|k: int| 0 <= k < 8 implies #[trigger] w0.resolvable(
                        parent,
                        ((addr + k) as u64),
                    ) by {
                        assert(old(self).resolvable(parent, ((addr + k) as u64)));
                    }
                }
                assert forall|t: int|
                    0 <= t < 8 implies #[trigger] old(self).bytes_at(parent, addr, 8)[t]
                    == w0.bytes_at(parent, addr, 8)[t] by {
                    let a = ((addr + t) as u64);
                    assert(old(self).view_at(parent, page_of(a)) == w0.view_at(
                        parent,
                        page_of(a),
                    ));
                }
                crate::bytes::lemma_le_at_agrees(
                    old(self).bytes_at(parent, addr, 8),
                    w0.bytes_at(parent, addr, 8),
                    0,
                    8,
                );
                crate::bytes::lemma_le_at_bound(w0.bytes_at(parent, addr, 8), 0, 8);
                crate::bytes::lemma_pow256_values();
            } else {
                assert(!old(self).span_resolvable(parent, addr, 8));
                let k = choose|k: int|
                    0 <= k < 8 && !(#[trigger] old(self).resolvable(parent, ((addr + k) as u64)));
                assert(!w0.resolvable(parent, ((addr + k) as u64)));
                assert(!w0.span_resolvable(parent, addr, 8));
            }
        }
        r
    }

    /// Read one 32-bit page-table entry, widened, on behalf of a walk that
    /// started in state `w0`.
    fn read_pte32(
        &mut self,
        parent: Option<&Backing>,
        addr: u64,
        Ghost(w0): Ghost<Worker>,
    ) -> (r: Option<u64>)
        requires
            old(self).mem_wf(parent),
            addr + 4 <= 0x1_0000_0000_0000_0000,
            forall|p: u64| old(self).view_at(parent, p) == w0.view_at(parent, p),
        ensures
            final(self).mem_wf(parent),
            Worker::same_non_mem(*old(self), *final(self)),
            forall|p: u64|
                #![trigger final(self).view_at(parent, p)]
                final(self).view_at(parent, p) == old(self).view_at(parent, p),
            final(self).pml@ == old(self).pml@,
            forall|p: u64| final(self).dirty_at(p) == old(self).dirty_at(p),
            r == read32_m(w0.view_map(parent), addr),
    {
        let r = self.read_phys::<u32>(parent, addr);
        proof {
            lemma_read32_of(&w0, parent, addr);
            assert forall|k: int| 0 <= k < 4 implies #[trigger] old(self).resolvable(
                parent,
                ((addr + k) as u64),
            ) == w0.resolvable(parent, ((addr + k) as u64)) by {
                let a = ((addr + k) as u64);
                assert(old(self).view_at(parent, page_of(a)) == w0.view_at(parent, page_of(a)));
            }
            if r is Some {
                assert(w0.span_resolvable(parent, addr, 4)) by {
                    assert forall|k: int| 0 <= k < 4 implies #[trigger] w0.resolvable(
                        parent,
                        ((addr + k) as u64),
                    ) by {
                        assert(old(self).resolvable(parent, ((addr + k) as u64)));
                    }
                }
                assert forall|t: int|
                    0 <= t < 4 implies #[trigger] old(self).bytes_at(parent, addr, 4)[t]
                    == w0.bytes_at(parent, addr, 4)[t] by {
                    let a = ((addr + t) as u64);
                    assert(old(self).view_at(parent, page_of(a)) == w0.view_at(
                        parent,
                        page_of(a),
                    ));
                }
                crate::bytes::lemma_le_at_agrees(
                    old(self).bytes_at(parent, addr, 4),
                    w0.bytes_at(parent, addr, 4),
                    0,
                    4,
                );
                crate::bytes::lemma_le_at_bound(w0.bytes_at(parent, addr, 4), 0, 4);
                crate::bytes::lemma_pow256_values();
            } else {
                assert(!old(self).span_resolvable(parent, addr, 4));
                let k = choose|k: int|
                    0 <= k < 4 && !(#[trigger] old(self).resolvable(parent, ((addr + k) as u64)));
                assert(!w0.resolvable(parent, ((addr + k) as u64)));
                assert(!w0.span_resolvable(parent, addr, 4));
            }
        }
        match r {
            Some(v) => Some(v as u64),
            None => None,
        }
    }
}


/// The permissions of a 1-entry walk, spelled out.
pub proof fn lemma_perms1(e1: u64)
    ensures
        walk_perms(seq![e1]) == (PagePerms {
            write: e1 & 2 != 0,
            user: e1 & 4 != 0,
            nx: e1 & (1u64 << 63) != 0,
        }),
{
    let s = seq![e1];
    assert(s.len() == 1);
    assert(s[0] == e1);
    assert((e1 & 2 != 0) == (forall|i: int| 0 <= i < s.len() ==> (#[trigger] s[i]) & 2 != 0)) by {
        if e1 & 2 != 0 {
            assert forall|i: int| 0 <= i < s.len() implies (#[trigger] s[i]) & 2 != 0 by {}
        }
    }
    assert((e1 & 4 != 0) == (forall|i: int| 0 <= i < s.len() ==> (#[trigger] s[i]) & 4 != 0)) by {
        if e1 & 4 != 0 {
            assert forall|i: int| 0 <= i < s.len() implies (#[trigger] s[i]) & 4 != 0 by {}
        }
    }
    assert((e1 & (1u64 << 63) != 0) == (exists|i: int| 0 <= i < s.len() && (#[trigger] s[i]) & (1u64 << 63) != 0)) by {
        if e1 & (1u64 << 63) != 0 {
            if e1 & (1u64 << 63) != 0 {
                assert(s[0] & (1u64 << 63) != 0);
            }
        }
    }
}


/// The permissions of a 2-entry walk, spelled out.
pub proof fn lemma_perms2(e1: u64, e2: u64)
    ensures
        walk_perms(seq![e1, e2]) == (PagePerms {
            write: e1 & 2 != 0 && e2 & 2 != 0,
            user: e1 & 4 != 0 && e2 & 4 != 0,
            nx: e1 & (1u64 << 63) != 0 || e2 & (1u64 << 63) != 0,
        }),
{
    let s = seq![e1, e2];
    assert(s.len() == 2);
    assert(s[0] == e1);
    assert(s[1] == e2);
    assert((e1 & 2 != 0 && e2 & 2 != 0) == (forall|i: int| 0 <= i < s.len() ==> (#[trigger] s[i]) & 2 != 0)) by {
        if e1 & 2 != 0 && e2 & 2 != 0 {
            assert forall|i: int| 0 <= i < s.len() implies (#[trigger] s[i]) & 2 != 0 by {}
        }
    }
    assert((e1 & 4 != 0 && e2 & 4 != 0) == (forall|i: int| 0 <= i < s.len() ==> (#[trigger] s[i]) & 4 != 0)) by {
        if e1 & 4 != 0 && e2 & 4 != 0 {
            assert forall|i: int| 0 <= i < s.len() implies (#[trigger] s[i]) & 4 != 0 by {}
        }
    }
    assert((e1 & (1u64 << 63) != 0 || e2 & (1u64 << 63) != 0) == (exists|i: int| 0 <= i < s.len() && (#[trigger] s[i]) & (1u64 << 63) != 0)) by {
        if e1 & (1u64 << 63) != 0 || e2 & (1u64 << 63) != 0 {
            if e1 & (1u64 << 63) != 0 {
                assert(s[0] & (1u64 << 63) != 0);
            }
            if e2 & (1u64 << 63) != 0 {
                assert(s[1] & (1u64 << 63) != 0);
            }
        }
    }
}


/// The permissions of a 3-entry walk, spelled out.
pub proof fn lemma_perms3(e1: u64, e2: u64, e3: u64)
    ensures
        walk_perms(seq![e1, e2, e3]) == (PagePerms {
            write: e1 & 2 != 0 && e2 & 2 != 0 && e3 & 2 != 0,
            user: e1 & 4 != 0 && e2 & 4 != 0 && e3 & 4 != 0,
            nx: e1 & (1u64 << 63) != 0 || e2 & (1u64 << 63) != 0 || e3 & (1u64 << 63) != 0,
        }),
{
    let s = seq![e1, e2, e3];
    assert(s.len() == 3);
    assert(s[0] == e1);
    assert(s[1] == e2);
    assert(s[2] == e3);
    assert((e1 & 2 != 0 && e2 & 2 != 0 && e3 & 2 != 0) == (forall|i: int| 0 <= i < s.len() ==> (#[trigger] s[i]) & 2 != 0)) by {
        if e1 & 2 != 0 && e2 & 2 != 0 && e3 & 2 != 0 {
            assert forall|i: int| 0 <= i < s.len() implies (#[trigger] s[i]) & 2 != 0 by {}
        }
    }
    assert((e1 & 4 != 0 && e2 & 4 != 0 && e3 & 4 != 0) == (forall|i: int| 0 <= i < s.len() ==> (#[trigger] s[i]) & 4 != 0)) by {
        if e1 & 4 != 0 && e2 & 4 != 0 && e3 & 4 != 0 {
            assert forall|i: int| 0 <= i < s.len() implies (#[trigger] s[i]) & 4 != 0 by {}
        }
    }
    assert((e1 & (1u64 << 63) != 0 || e2 & (1u64 << 63) != 0 || e3 & (1u64 << 63) != 0) == (exists|i: int| 0 <= i < s.len() && (#[trigger] s[i]) & (1u64 << 63) != 0)) by {
        if e1 & (1u64 << 63) != 0 || e2 & (1u64 << 63) != 0 || e3 & (1u64 << 63) != 0 {
            if e1 & (1u64 << 63) != 0 {
                assert(s[0] & (1u64 << 63) != 0);
            }
            if e2 & (1u64 << 63) != 0 {
                assert(s[1] & (1u64 << 63) != 0);
            }
            if e3 & (1u64 << 63) != 0 {
                assert(s[2] & (1u64 << 63) != 0);
            }
        }
    }
}


/// The permissions of a 4-entry walk, spelled out.
pub proof fn lemma_perms4(e1: u64, e2: u64, e3: u64, e4: u64)
    ensures
        walk_perms(seq![e1, e2, e3, e4]) == (PagePerms {
            write: e1 & 2 != 0 && e2 & 2 != 0 && e3 & 2 != 0 && e4 & 2 != 0,
            user: e1 & 4 != 0 && e2 & 4 != 0 && e3 & 4 != 0 && e4 & 4 != 0,
            nx: e1 & (1u64 << 63) != 0 || e2 & (1u64 << 63) != 0 || e3 & (1u64 << 63) != 0 || e4 & (1u64 << 63) != 0,
        }),
{
    let s = seq![e1, e2, e3, e4];
    assert(s.len() == 4);
    assert(s[0] == e1);
    assert(s[1] == e2);
    assert(s[2] == e3);
    assert(s[3] == e4);
    assert((e1 & 2 != 0 && e2 & 2 != 0 && e3 & 2 != 0 && e4 & 2 != 0) == (forall|i: int| 0 <= i < s.len() ==> (#[trigger] s[i]) & 2 != 0)) by {
        if e1 & 2 != 0 && e2 & 2 != 0 && e3 & 2 != 0 && e4 & 2 != 0 {
            assert forall|i: int| 0 <= i < s.len() implies (#[trigger] s[i]) & 2 != 0 by {}
        }
    }
    assert((e1 & 4 != 0 && e2 & 4 != 0 && e3 & 4 != 0 && e4 & 4 != 0) == (forall|i: int| 0 <= i < s.len() ==> (#[trigger] s[i]) & 4 != 0)) by {
        if e1 & 4 != 0 && e2 & 4 != 0 && e3 & 4 != 0 && e4 & 4 != 0 {
            assert forall|i: int| 0 <= i < s.len() implies (#[trigger] s[i]) & 4 != 0 by {}
        }
    }
    assert((e1 & (1u64 << 63) != 0 || e2 & (1u64 << 63) != 0 || e3 & (1u64 << 63) != 0 || e4 & (1u64 << 63) != 0) == (exists|i: int| 0 <= i < s.len() && (#[trigger] s[i]) & (1u64 << 63) != 0)) by {
        if e1 & (1u64 << 63) != 0 || e2 & (1u64 << 63) != 0 || e3 & (1u64 << 63) != 0 || e4 & (1u64 << 63) != 0 {
            if e1 & (1u64 << 63) != 0 {
                assert(s[0] & (1u64 << 63) != 0);
            }
            if e2 & (1u64 << 63) != 0 {
                assert(s[1] & (1u64 << 63) != 0);
            }
            if e3 & (1u64 << 63) != 0 {
                assert(s[2] & (1u64 << 63) != 0);
            }
            if e4 & (1u64 << 63) != 0 {
                assert(s[3] & (1u64 << 63) != 0);
            }
        }
    }
}

impl Worker {
    /// Walk `va` through 4-level 64-bit paging rooted at `cr3`, reading the
    /// tables from this worker's guest-physical memory.
    pub fn translate_64_4_level(&mut self, parent: Option<&Backing>, cr3: u64, va: u64) -> (r:
        Option<(u64, u64, PagePerms)>)
        requires
            old(self).mem_wf(parent),
        ensures
            final(self).mem_wf(parent),
            Worker::same_non_mem(*old(self), *final(self)),
            forall|p: u64|
                #![trigger final(self).view_at(parent, p)]
                final(self).view_at(parent, p) == old(self).view_at(parent, p),
            final(self).pml@ == old(self).pml@,
            forall|p: u64| final(self).dirty_at(p) == old(self).dirty_at(p),
            r == spec_walk_64(old(self).view_map(parent), cr3, va),
    {
        let ghost w0 = *self;
        let table = cr3 & 0x000f_ffff_ffff_f000u64;
        let i4 = (va >> 39) & 0x1ff;
        proof {
            assert(table <= 0x000f_ffff_ffff_f000u64 && i4 < 512) by (bit_vector)
                requires
                    table == cr3 & 0x000f_ffff_ffff_f000u64,
                    i4 == (va >> 39) & 0x1ff,
            ;
        }
        let e4 = match self.read_pte64(parent, table + i4 * 8, Ghost(w0)) {
            Some(v) => v,
            None => {
                return None;
            },
        };
        if e4 & 1 == 0 {
            return None;
        }
        let pdpt = e4 & 0x000f_ffff_ffff_f000u64;
        let i3 = (va >> 30) & 0x1ff;
        proof {
            assert(pdpt <= 0x000f_ffff_ffff_f000u64 && i3 < 512) by (bit_vector)
                requires
                    pdpt == e4 & 0x000f_ffff_ffff_f000u64,
                    i3 == (va >> 30) & 0x1ff,
            ;
            assert(forall|p: u64|
                #![trigger self.view_at(parent, p)]
                self.view_at(parent, p) == w0.view_at(parent, p));
        }
        let e3 = match self.read_pte64(parent, pdpt + i3 * 8, Ghost(w0)) {
            Some(v) => v,
            None => {
                return None;
            },
        };
        if e3 & 1 == 0 {
            return None;
        }
        if e3 & 0x80 != 0 {
            proof {
                lemma_perms2(e4, e3);
            }
            return Some(
                (
                    e3 & 0x000f_ffff_c000_0000u64,
                    va & 0x3fff_ffff,
                    PagePerms {
                        write: e4 & 2 != 0 && e3 & 2 != 0,
                        user: e4 & 4 != 0 && e3 & 4 != 0,
                        nx: e4 & (1u64 << 63) != 0 || e3 & (1u64 << 63) != 0,
                    },
                ),
            );
        }
        let pd = e3 & 0x000f_ffff_ffff_f000u64;
        let i2 = (va >> 21) & 0x1ff;
        proof {
            assert(pd <= 0x000f_ffff_ffff_f000u64 && i2 < 512) by (bit_vector)
                requires
                    pd == e3 & 0x000f_ffff_ffff_f000u64,
                    i2 == (va >> 21) & 0x1ff,
            ;
            assert(forall|p: u64|
                #![trigger self.view_at(parent, p)]
                self.view_at(parent, p) == w0.view_at(parent, p));
        }
        let e2 = match self.read_pte64(parent, pd + i2 * 8, Ghost(w0)) {
            Some(v) => v,
            None => {
                return None;
            },
        };
        if e2 & 1 == 0 {
            return None;
        }
        if e2 & 0x80 != 0 {
            proof {
                lemma_perms3(e4, e3, e2);
            }
            return Some(
                (
                    e2 & 0x000f_ffff_ffe0_0000u64,
                    va & 0x1f_ffff,
                    PagePerms {
                        write: e4 & 2 != 0 && e3 & 2 != 0 && e2 & 2 != 0,
                        user: e4 & 4 != 0 && e3 & 4 != 0 && e2 & 4 != 0,
                        nx: e4 & (1u64 << 63) != 0 || e3 & (1u64 << 63) != 0 || e2 & (1u64
                            << 63) != 0,
                    },
                ),
            );
        }
        let pt = e2 & 0x000f_ffff_ffff_f000u64;
        let i1 = (va >> 12) & 0x1ff;
        proof {
            assert(pt <= 0x000f_ffff_ffff_f000u64 && i1 < 512) by (bit_vector)
                requires
                    pt == e2 & 0x000f_ffff_ffff_f000u64,
                    i1 == (va >> 12) & 0x1ff,
            ;
            assert(forall|p: u64|
                #![trigger self.view_at(parent, p)]
                self.view_at(parent, p) == w0.view_at(parent, p));
        }
        let e1 = match self.read_pte64(parent, pt + i1 * 8, Ghost(w0)) {
            Some(v) => v,
            None => {
                return None;
            },
        };
        if e1 & 1 == 0 {
            return None;
        }
        proof {
            lemma_perms4(e4, e3, e2, e1);
        }
        Some(
            (
                e1 & 0x000f_ffff_ffff_f000u64,
                va & 0xfff,
                PagePerms {
                    write: e4 & 2 != 0 && e3 & 2 != 0 && e2 & 2 != 0 && e1 & 2 != 0,
                    user: e4 & 4 != 0 && e3 & 4 != 0 && e2 & 4 != 0 && e1 & 4 != 0,
                    nx: e4 & (1u64 << 63) != 0 || e3 & (1u64 << 63) != 0 || e2 & (1u64 << 63)
                        != 0 || e1 & (1u64 << 63) != 0,
                },
            ),
        )
    }

    /// Walk `va` through 32-bit paging with physical address extension.
    pub fn translate_32_pae(&mut self, parent: Option<&Backing>, cr3: u64, va: u64) -> (r:
        Option<(u64, u64, PagePerms)>)
        requires
            old(self).mem_wf(parent),
        ensures
            final(self).mem_wf(parent),
            Worker::same_non_mem(*old(self), *final(self)),
            forall|p: u64|
                #![trigger final(self).view_at(parent, p)]
                final(self).view_at(parent, p) == old(self).view_at(parent, p),
            final(self).pml@ == old(self).pml@,
            forall|p: u64| final(self).dirty_at(p) == old(self).dirty_at(p),
            r == spec_walk_32_pae(old(self).view_map(parent), cr3, va),
    {
        let ghost w0 = *self;
        let pdpt = cr3 & 0xffff_ffe0u64;
        let i3 = (va >> 30) & 3;
        proof {
            assert(pdpt <= 0xffff_ffe0u64 && i3 < 4) by (bit_vector)
                requires
                    pdpt == cr3 & 0xffff_ffe0u64,
                    i3 == (va >> 30) & 3,
            ;
        }
        let e3 = match self.read_pte64(parent, pdpt + i3 * 8, Ghost(w0)) {
            Some(v) => v,
            None => {
                return None;
            },
        };
        if e3 & 1 == 0 {
            return None;
        }
        let pd = e3 & 0x000f_ffff_ffff_f000u64;
        let i2 = (va >> 21) & 0x1ff;
        proof {
            assert(pd <= 0x000f_ffff_ffff_f000u64 && i2 < 512) by (bit_vector)
                requires
                    pd == e3 & 0x000f_ffff_ffff_f000u64,
                    i2 == (va >> 21) & 0x1ff,
            ;
            assert(forall|p: u64|
                #![trigger self.view_at(parent, p)]
                self.view_at(parent, p) == w0.view_at(parent, p));
        }
        let e2 = match self.read_pte64(parent, pd + i2 * 8, Ghost(w0)) {
            Some(v) => v,
            None => {
                return None;
            },
        };
        if e2 & 1 == 0 {
            return None;
        }
        if e2 & 0x80 != 0 {
            proof {
                lemma_perms1(e2);
            }
            return Some(
                (
                    e2 & 0x000f_ffff_ffe0_0000u64,
                    va & 0x1f_ffff,
                    PagePerms {
                        write: e2 & 2 != 0,
                        user: e2 & 4 != 0,
                        nx: e2 & (1u64 << 63) != 0,
                    },
                ),
            );
        }
        let pt = e2 & 0x000f_ffff_ffff_f000u64;
        let i1 = (va >> 12) & 0x1ff;
        proof {
            assert(pt <= 0x000f_ffff_ffff_f000u64 && i1 < 512) by (bit_vector)
                requires
                    pt == e2 & 0x000f_ffff_ffff_f000u64,
                    i1 == (va >> 12) & 0x1ff,
            ;
            assert(forall|p: u64|
                #![trigger self.view_at(parent, p)]
                self.view_at(parent, p) == w0.view_at(parent, p));
        }
        let e1 = match self.read_pte64(parent, pt + i1 * 8, Ghost(w0)) {
            Some(v) => v,
            None => {
                return None;
            },
        };
        if e1 & 1 == 0 {
            return None;
        }
        proof {
            lemma_perms2(e2, e1);
        }
        Some(
            (
                e1 & 0x000f_ffff_ffff_f000u64,
                va & 0xfff,
                PagePerms {
                    write: e2 & 2 != 0 && e1 & 2 != 0,
                    user: e2 & 4 != 0 && e1 & 4 != 0,
                    nx: e2 & (1u64 << 63) != 0 || e1 & (1u64 << 63) != 0,
                },
            ),
        )
    }

    /// Walk `va` through 32-bit paging without physical address extension.
    pub fn translate_32_no_pae(&mut self, parent: Option<&Backing>, cr3: u64, va: u64) -> (r:
        Option<(u64, u64, PagePerms)>)
        requires
            old(self).mem_wf(parent),
        ensures
            final(self).mem_wf(parent),
            Worker::same_non_mem(*old(self), *final(self)),
            forall|p: u64|
                #![trigger final(self).view_at(parent, p)]
                final(self).view_at(parent, p) == old(self).view_at(parent, p),
            final(self).pml@ == old(self).pml@,
            forall|p: u64| final(self).dirty_at(p) == old(self).dirty_at(p),
            r == spec_walk_32(old(self).view_map(parent), cr3, va),
    {
        let ghost w0 = *self;
        let dir = cr3 & 0xffff_f000u64;
        let i2 = (va >> 22) & 0x3ff;
        proof {
            assert(dir <= 0xffff_f000u64 && i2 < 1024) by (bit_vector)
                requires
                    dir == cr3 & 0xffff_f000u64,
                    i2 == (va >> 22) & 0x3ff,
            ;
        }
        let e2 = match self.read_pte32(parent, dir + i2 * 4, Ghost(w0)) {
            Some(v) => v,
            None => {
                return None;
            },
        };
        if e2 & 1 == 0 {
            return None;
        }
        if e2 & 0x80 != 0 {
            proof {
                lemma_perms1(e2);
            }
            return Some(
                (
                    e2 & 0xffc0_0000u64,
                    va & 0x3f_ffff,
                    PagePerms {
                        write: e2 & 2 != 0,
                        user: e2 & 4 != 0,
                        nx: e2 & (1u64 << 63) != 0,
                    },
                ),
            );
        }
        let pt = e2 & 0xffff_f000u64;
        let i1 = (va >> 12) & 0x3ff;
        proof {
            assert(pt <= 0xffff_f000u64 && i1 < 1024) by (bit_vector)
                requires
                    pt == e2 & 0xffff_f000u64,
                    i1 == (va >> 12) & 0x3ff,
            ;
            assert(forall|p: u64|
                #![trigger self.view_at(parent, p)]
                self.view_at(parent, p) == w0.view_at(parent, p));
        }
        let e1 = match self.read_pte32(parent, pt + i1 * 4, Ghost(w0)) {
            Some(v) => v,
            None => {
                return None;
            },
        };
        if e1 & 1 == 0 {
            return None;
        }
        proof {
            lemma_perms2(e2, e1);
        }
        Some(
            (
                e1 & 0xffff_f000u64,
                va & 0xfff,
                PagePerms {
                    write: e2 & 2 != 0 && e1 & 2 != 0,
                    user: e2 & 4 != 0 && e1 & 4 != 0,
                    nx: e2 & (1u64 << 63) != 0 || e1 & (1u64 << 63) != 0,
                },
            ),
        )
    }

    /// Walk `va` in whichever paging mode is given.
    pub fn walk(&mut self, parent: Option<&Backing>, mode: PagingMode, cr3: u64, va: u64) -> (r:
        Option<(u64, u64, PagePerms)>)
        requires
            old(self).mem_wf(parent),
        ensures
            final(self).mem_wf(parent),
            Worker::same_non_mem(*old(self), *final(self)),
            forall|p: u64|
                #![trigger final(self).view_at(parent, p)]
                final(self).view_at(parent, p) == old(self).view_at(parent, p),
            final(self).pml@ == old(self).pml@,
            forall|p: u64| final(self).dirty_at(p) == old(self).dirty_at(p),
            r == spec_walk(old(self).view_map(parent), mode, cr3, va),
    {
        match mode {
            PagingMode::Bits32 => self.translate_32_no_pae(parent, cr3, va),
            PagingMode::Bits32Pae => self.translate_32_pae(parent, cr3, va),
            PagingMode::Bits64 => self.translate_64_4_level(parent, cr3, va),
        }
    }
}

/// The guest-physical address `a` names at offset `loff`, resolved over
/// the byte map `m` and register file `regs`: segment-relative addition
/// wraps, and virtual addresses go through the page walk.
pub open spec fn spec_resolve(
    m: Map<u64, u8>,
    regs: RegisterFile,
    a: Address,
    loff: u64,
) -> Option<u64> {
    match a {
        Address::PhysicalLinear { addr } => Some(addr.wrapping_add(loff)),
        Address::PhysicalSegOff { seg, off } => Some(
            Worker::spec_seg_base(regs, seg).wrapping_add(off).wrapping_add(loff),
        ),
        Address::Virtual { seg, off, mode, cr3 } => {
            match spec_walk(
                m,
                mode,
                cr3,
                Worker::spec_seg_base(regs, seg).wrapping_add(off).wrapping_add(loff),
            ) {
                Some((page, poff, _)) => Some(page.wrapping_add(poff)),
                None => None,
            }
        },
        Address::Linear { addr, mode, cr3 } => {
            match spec_walk(m, mode, cr3, addr.wrapping_add(loff)) {
                Some((page, poff, _)) => Some(page.wrapping_add(poff)),
                None => None,
            }
        },
    }
}

/// What reading `total` bytes through the address `a` yields over the byte
/// map `m`: each page-sized piece is located afresh at its offset into the
/// read, and the pieces are concatenated onto `acc`.
pub open spec fn spec_read_addr(
    m: Map<u64, u8>,
    regs: RegisterFile,
    a: Address,
    total: nat,
    loff: nat,
    acc: Seq<u8>,
) -> Option<Seq<u8>>
    decreases total - loff,
    via spec_read_addr_dec
{
    if loff >= total {
        Some(acc)
    } else {
        match spec_resolve(m, regs, a, loff as u64) {
            None => None,
            Some(g) => {
                if !m.contains_key(g) {
                    None
                } else {
                    let take = if 4096 - (g & 0xfff) < total - loff {
                        (4096 - (g & 0xfff)) as nat
                    } else {
                        (total - loff) as nat
                    };
                    spec_read_addr(
                        m,
                        regs,
                        a,
                        total,
                        loff + take,
                        acc + Seq::new(take, |k: int| m[((g + k) as u64)]),
                    )
                }
            },
        }
    }
}

#[via_fn]
proof fn spec_read_addr_dec(
    m: Map<u64, u8>,
    regs: RegisterFile,
    a: Address,
    total: nat,
    loff: nat,
    acc: Seq<u8>,
) {
    if loff < total {
        match spec_resolve(m, regs, a, loff as u64) {
            None => {},
            Some(g) => {
                assert((g & 0xfff) < 4096) by (bit_vector);
            },
        }
    }
}

/// What writing `data` through the address `a` does to the byte map `m`:
/// each page-sized piece is located afresh, in the map as written so far.
/// Yields whether the whole write landed, and the final map; a failed
/// write keeps the pieces already written.
pub open spec fn spec_write_addr(
    m: Map<u64, u8>,
    regs: RegisterFile,
    a: Address,
    data: Seq<u8>,
    loff: nat,
) -> (bool, Map<u64, u8>)
    decreases data.len() - loff,
    via spec_write_addr_dec
{
    if loff >= data.len() {
        (true, m)
    } else {
        match spec_resolve(m, regs, a, loff as u64) {
            None => (false, m),
            Some(g) => {
                if !m.contains_key(g) {
                    (false, m)
                } else {
                    let take = if 4096 - (g & 0xfff) < data.len() - loff {
                        (4096 - (g & 0xfff)) as nat
                    } else {
                        (data.len() - loff) as nat
                    };
                    let m2 = Map::new(
                        |x: u64| m.contains_key(x),
                        |x: u64| if g <= x < g + take {
                            data[loff + (x - g)]
                        } else {
                            m[x]
                        },
                    );
                    spec_write_addr(m2, regs, a, data, loff + take)
                }
            },
        }
    }
}

#[via_fn]
proof fn spec_write_addr_dec(
    m: Map<u64, u8>,
    regs: RegisterFile,
    a: Address,
    data: Seq<u8>,
    loff: nat,
) {
    if loff < data.len() {
        match spec_resolve(m, regs, a, loff as u64) {
            None => {},
            Some(g) => {
                assert((g & 0xfff) < 4096) by (bit_vector);
            },
        }
    }
}

/// A page chunk read through an unchanged view extends the gathered bytes
/// by exactly the byte map's values on the chunk.
proof fn lemma_read_chunk_step(
    w0: Worker,
    cur2: Worker,
    parent: Option<&Backing>,
    m0: Map<u64, u8>,
    g: u64,
    pos: nat,
    take: nat,
    prebuf: Seq<u8>,
    newbuf: Seq<u8>,
)
    requires
        m0 == w0.view_map(parent),
        forall|p: u64| cur2.view_at(parent, p) == w0.view_at(parent, p),
        w0.resolvable(parent, g),
        1 <= take,
        (g & 0xfff) + take <= 4096,
        newbuf.len() == prebuf.len(),
        pos + take <= prebuf.len(),
        forall|t: int|
            0 <= t < prebuf.len() ==> #[trigger] newbuf[t] == if pos <= t < pos + take {
                cur2.byte_at(parent, ((g + (t - pos)) as u64))->Some_0
            } else {
                prebuf[t]
            },
    ensures
        newbuf.subrange(0, (pos + take) as int) == prebuf.subrange(0, pos as int) + Seq::new(
            take,
            |k: int| m0[((g + k) as u64)],
        ),
{
    let acc = prebuf.subrange(0, pos as int);
    let chunk = Seq::new(take, |k: int| m0[((g + k) as u64)]);
    assert forall|t: int| 0 <= t < take implies #[trigger] newbuf[pos + t] == m0[((g
        + t) as u64)] by {
        lemma_same_page(g, t as u64);
        let x = ((g + t) as u64);
        assert(newbuf[pos + t] == cur2.byte_at(parent, x)->Some_0);
        assert(cur2.byte_at(parent, x) == w0.byte_at(parent, x)) by {
            assert(cur2.view_at(parent, page_of(x)) == w0.view_at(parent, page_of(x)));
        }
        assert(w0.resolvable(parent, x)) by {
            assert(page_of(x) == page_of(g));
        }
        assert(m0.contains_key(x));
        assert(m0[x] == w0.byte_at(parent, x)->Some_0);
    }
    assert forall|t: int|
        0 <= t < pos + take implies newbuf.subrange(0, (pos + take) as int)[t] == (acc
        + chunk)[t] by {
        if t < pos {
            assert(newbuf[t] == prebuf[t]);
            assert((acc + chunk)[t] == acc[t]);
        } else {
            let d = t - pos;
            assert(newbuf[pos + d] == m0[((g + d) as u64)]);
            assert((acc + chunk)[t] == chunk[t - pos]);
        }
    }
    assert(newbuf.subrange(0, (pos + take) as int) =~= acc + chunk);
}

impl Worker {
    /// Resolve the guest-physical address `a` names at offset `loff` into
    /// the access, walking the guest page tables where the address is
    /// virtual.
    fn resolve_addr(&mut self, parent: Option<&Backing>, a: Address, loff: u64) -> (r: Option<
        u64,
    >)
        requires
            old(self).mem_wf(parent),
        ensures
            final(self).mem_wf(parent),
            Worker::same_non_mem(*old(self), *final(self)),
            forall|p: u64|
                #![trigger final(self).view_at(parent, p)]
                final(self).view_at(parent, p) == old(self).view_at(parent, p),
            final(self).pml@ == old(self).pml@,
            forall|p: u64| final(self).dirty_at(p) == old(self).dirty_at(p),
            r == spec_resolve(
                old(self).view_map(parent),
                old(self).backing.vm.guest_regs,
                a,
                loff,
            ),
    {
        match a {
            Address::PhysicalLinear { addr } => Some(addr.wrapping_add(loff)),
            Address::PhysicalSegOff { seg, off } => Some(
                self.seg_base(seg).wrapping_add(off).wrapping_add(loff),
            ),
            Address::Virtual { seg, off, mode, cr3 } => {
                let lin = self.seg_base(seg).wrapping_add(off).wrapping_add(loff);
                match self.walk(parent, mode, cr3, lin) {
                    Some((page, poff, _)) => Some(page.wrapping_add(poff)),
                    None => None,
                }
            },
            Address::Linear { addr, mode, cr3 } => {
                let lin = addr.wrapping_add(loff);
                match self.walk(parent, mode, cr3, lin) {
                    Some((page, poff, _)) => Some(page.wrapping_add(poff)),
                    None => None,
                }
            },
        }
    }

    /// Reads memory using the `addr` provided, locating every page-sized
    /// piece afresh at its offset into the read.
    ///
    /// Returns `None` if the request cannot be fully satisfied. It is
    /// possible that some reading did occur, but is partial.
    #[verifier::rlimit(100)]
    #[verifier::spinoff_prover]
    pub fn read_addr(&mut self, parent: Option<&Backing>, addr: Address, buf: &mut Vec<u8>) -> (r:
        Option<()>)
        requires
            old(self).mem_wf(parent),
        ensures
            final(self).mem_wf(parent),
            Worker::same_non_mem(*old(self), *final(self)),
            forall|p: u64|
                #![trigger final(self).view_at(parent, p)]
                final(self).view_at(parent, p) == old(self).view_at(parent, p),
            final(self).pml@ == old(self).pml@,
            forall|p: u64| final(self).dirty_at(p) == old(self).dirty_at(p),
            final(buf)@.len() == old(buf)@.len(),
            match r {
                Some(_) => spec_read_addr(
                    old(self).view_map(parent),
                    old(self).backing.vm.guest_regs,
                    addr,
                    old(buf)@.len() as nat,
                    0,
                    Seq::empty(),
                ) == Some(final(buf)@),
                None => spec_read_addr(
                    old(self).view_map(parent),
                    old(self).backing.vm.guest_regs,
                    addr,
                    old(buf)@.len() as nat,
                    0,
                    Seq::empty(),
                ) is None,
            },
    {
        proof {
            assert(buf.len() == buf@.len());
        }
        let ghost m0 = old(self).view_map(parent);
        let ghost regs = old(self).backing.vm.guest_regs;
        let len = buf.len();
        let mut pos: usize = 0;
        proof {
            assert(buf@.subrange(0, 0) =~= Seq::<u8>::empty());
        }
        while pos < len
            invariant
                pos <= len == buf@.len() == old(buf)@.len() <= usize::MAX,
                m0 == old(self).view_map(parent),
                regs == old(self).backing.vm.guest_regs,
                self.mem_wf(parent),
                Worker::same_non_mem(*old(self), *self),
                forall|p: u64|
                    #![trigger self.view_at(parent, p)]
                    self.view_at(parent, p) == old(self).view_at(parent, p),
                self.pml@ == old(self).pml@,
                forall|p: u64| self.dirty_at(p) == old(self).dirty_at(p),
                spec_read_addr(m0, regs, addr, len as nat, 0, Seq::empty()) == spec_read_addr(
                    m0,
                    regs,
                    addr,
                    len as nat,
                    pos as nat,
                    buf@.subrange(0, pos as int),
                ),
            decreases len - pos,
        {
            let ghost cur = *self;
            proof {
                lemma_view_map_congruent(cur, *old(self), parent, parent);
            }
            let g = match self.resolve_addr(parent, addr, pos as u64) {
                Some(g) => g,
                None => {
                    return None;
                },
            };
            proof {
                assert((g & 0xfff) < 4096) by (bit_vector);
            }
            let off = (g & 0xfff) as usize;
            let remain = 4096 - off;
            let rem_buf = len - pos;
            let take = if remain < rem_buf {
                remain
            } else {
                rem_buf
            };
            let ghost cur2 = *self;
            let ghost prebuf = buf@;
            let ok = self.read_page_chunk(parent, g, buf, pos, take);
            proof {
                assert(cur2.resolvable(parent, g) == old(self).resolvable(parent, g)) by {
                    assert(cur2.view_at(parent, page_of(g)) == old(self).view_at(
                        parent,
                        page_of(g),
                    ));
                }
                assert(m0.contains_key(g) == old(self).resolvable(parent, g));
            }
            if !ok {
                return None;
            }
            proof {
                lemma_read_chunk_step(
                    *old(self),
                    cur2,
                    parent,
                    m0,
                    g,
                    pos as nat,
                    take as nat,
                    prebuf,
                    buf@,
                );
            }
            pos = pos + take;
        }
        proof {
            assert(buf@.subrange(0, pos as int) =~= buf@);
        }
        Some(())
    }

    /// Writes memory using the `addr` provided, locating every page-sized
    /// piece afresh at its offset into the write, in the memory as written
    /// so far.
    ///
    /// Returns `None` if the request cannot be fully satisfied. It is
    /// possible that some writing did occur, but is partial.
    #[verifier::rlimit(100)]
    #[verifier::spinoff_prover]
    pub fn write_addr(&mut self, parent: Option<&Backing>, addr: Address, buf: &Vec<u8>) -> (r:
        Option<()>)
        requires
            old(self).mem_wf(parent),
        ensures
            final(self).mem_wf(parent),
            Worker::same_non_mem(*old(self), *final(self)),
            forall|a: u64|
                #![trigger final(self).resolvable(parent, a)]
                final(self).resolvable(parent, a) == old(self).resolvable(parent, a),
            ({
                let (ok, m2) = spec_write_addr(
                    old(self).view_map(parent),
                    old(self).backing.vm.guest_regs,
                    addr,
                    buf@,
                    0,
                );
                &&& (r is Some <==> ok)
                &&& final(self).view_map(parent) == m2
            }),
    {
        proof {
            assert(buf.len() == buf@.len());
        }
        let ghost m0 = old(self).view_map(parent);
        let ghost regs = old(self).backing.vm.guest_regs;
        let ghost full = spec_write_addr(m0, regs, addr, buf@, 0);
        let len = buf.len();
        let mut pos: usize = 0;
        while pos < len
            invariant
                pos <= len == buf@.len() <= usize::MAX,
                m0 == old(self).view_map(parent),
                regs == old(self).backing.vm.guest_regs,
                full == spec_write_addr(m0, regs, addr, buf@, 0),
                self.mem_wf(parent),
                Worker::same_non_mem(*old(self), *self),
                forall|a: u64|
                    #![trigger self.resolvable(parent, a)]
                    self.resolvable(parent, a) == old(self).resolvable(parent, a),
                full == spec_write_addr(self.view_map(parent), regs, addr, buf@, pos as nat),
            decreases len - pos,
        {
            let ghost cur = *self;
            let gr = self.resolve_addr(parent, addr, pos as u64);
            proof {
                lemma_view_map_congruent(*self, cur, parent, parent);
                assert forall|a: u64|
                    #![trigger self.resolvable(parent, a)]
                    self.resolvable(parent, a) == cur.resolvable(parent, a) by {
                    assert(self.view_at(parent, page_of(a)) == cur.view_at(parent, page_of(a)));
                }
            }
            let g = match gr {
                Some(g) => g,
                None => {
                    return None;
                },
            };
            proof {
                assert((g & 0xfff) < 4096) by (bit_vector);
                assert(cur.view_map(parent).contains_key(g) == cur.resolvable(parent, g));
            }
            let off = (g & 0xfff) as usize;
            let remain = 4096 - off;
            let rem_buf = len - pos;
            let take = if remain < rem_buf {
                remain
            } else {
                rem_buf
            };
            let ghost cur2 = *self;
            proof {
                lemma_view_map_congruent(cur2, cur, parent, parent);
            }
            let ok = self.write_page_chunk(parent, g, buf, pos, take);
            proof {
                assert(cur2.resolvable(parent, g) == cur.resolvable(parent, g)) by {
                    assert(cur2.view_at(parent, page_of(g)) == cur.view_at(parent, page_of(g)));
                }
            }
            if !ok {
                return None;
            }
            proof {
                // The new state's byte map is the specification's overlay.
                let mcur = cur2.view_map(parent);
                let m2 = Map::new(
                    |x: u64| mcur.contains_key(x),
                    |x: u64| if g <= x < g + take {
                        buf@[pos + (x - g)]
                    } else {
                        mcur[x]
                    },
                );
                assert(self.view_map(parent) =~= m2) by {
                    assert forall|x: u64|
                        #![trigger self.view_map(parent).contains_key(x)]
                        self.resolvable(parent, x) == cur2.resolvable(parent, x) && self.byte_at(
                        parent,
                        x,
                    ) == (if g <= x < g + take {
                        Some(buf@[pos + (x - g)])
                    } else {
                        cur2.byte_at(parent, x)
                    }) by {}
                }
            }
            pos = pos + take;
        }
        proof {
            assert(spec_write_addr(self.view_map(parent), regs, addr, buf@, pos as nat) == (
            true,
            self.view_map(parent),
            ));
        }
        Some(())
    }
}

impl Worker {
    /// Read the contents of the guest virtual memory at `vaddr` into the
    /// `buf` provided using page table `cr3`.
    ///
    /// Returns `None` if the request cannot be fully satisfied. It is
    /// possible that some reading did occur, but is partial.
    pub fn read_virt_cr3_into(
        &mut self,
        parent: Option<&Backing>,
        vaddr: u64,
        buf: &mut Vec<u8>,
        cr3: u64,
    ) -> (r: Option<()>)
        requires
            old(self).mem_wf(parent),
        ensures
            final(self).mem_wf(parent),
            Worker::same_non_mem(*old(self), *final(self)),
            forall|p: u64|
                #![trigger final(self).view_at(parent, p)]
                final(self).view_at(parent, p) == old(self).view_at(parent, p),
            final(self).pml@ == old(self).pml@,
            forall|p: u64| final(self).dirty_at(p) == old(self).dirty_at(p),
            final(buf)@.len() == old(buf)@.len(),
            match spec_paging_mode(
                old(self).backing.vm.guest_regs.cr0,
                old(self).backing.vm.guest_regs.cr4,
                old(self).backing.vm.guest_regs.efer,
            ) {
                None => r is None && final(buf)@ == old(buf)@,
                Some(mode) => match r {
                    Some(_) => spec_read_addr(
                        old(self).view_map(parent),
                        old(self).backing.vm.guest_regs,
                        Address::Linear { addr: vaddr, mode, cr3 },
                        old(buf)@.len() as nat,
                        0,
                        Seq::empty(),
                    ) == Some(final(buf)@),
                    None => spec_read_addr(
                        old(self).view_map(parent),
                        old(self).backing.vm.guest_regs,
                        Address::Linear { addr: vaddr, mode, cr3 },
                        old(buf)@.len() as nat,
                        0,
                        Seq::empty(),
                    ) is None,
                },
            },
    {
        let mode = match self.paging_mode() {
            Some(mode) => mode,
            None => {
                return None;
            },
        };
        self.read_addr(parent, Address::Linear { addr: vaddr, mode, cr3 }, buf)
    }

    /// Read the contents of the guest virtual memory at `vaddr` into the
    /// `buf` provided using the current page table.
    pub fn read_virt_into(&mut self, parent: Option<&Backing>, vaddr: u64, buf: &mut Vec<u8>) -> (r:
        Option<()>)
        requires
            old(self).mem_wf(parent),
        ensures
            final(self).mem_wf(parent),
            Worker::same_non_mem(*old(self), *final(self)),
            forall|p: u64|
                #![trigger final(self).view_at(parent, p)]
                final(self).view_at(parent, p) == old(self).view_at(parent, p),
            final(self).pml@ == old(self).pml@,
            forall|p: u64| final(self).dirty_at(p) == old(self).dirty_at(p),
            final(buf)@.len() == old(buf)@.len(),
            match spec_paging_mode(
                old(self).backing.vm.guest_regs.cr0,
                old(self).backing.vm.guest_regs.cr4,
                old(self).backing.vm.guest_regs.efer,
            ) {
                None => r is None && final(buf)@ == old(buf)@,
                Some(mode) => match r {
                    Some(_) => spec_read_addr(
                        old(self).view_map(parent),
                        old(self).backing.vm.guest_regs,
                        Address::Linear {
                            addr: vaddr,
                            mode,
                            cr3: old(self).backing.vm.guest_regs.cr3,
                        },
                        old(buf)@.len() as nat,
                        0,
                        Seq::empty(),
                    ) == Some(final(buf)@),
                    None => spec_read_addr(
                        old(self).view_map(parent),
                        old(self).backing.vm.guest_regs,
                        Address::Linear {
                            addr: vaddr,
                            mode,
                            cr3: old(self).backing.vm.guest_regs.cr3,
                        },
                        old(buf)@.len() as nat,
                        0,
                        Seq::empty(),
                    ) is None,
                },
            },
    {
        let cr3 = self.reg(Register::Cr3);
        self.read_virt_cr3_into(parent, vaddr, buf, cr3)
    }

    /// Reads the contents at `vaddr` into a `T` using the page table in
    /// `cr3`.
    pub fn read_virt_cr3<T: Primitive>(
        &mut self,
        parent: Option<&Backing>,
        vaddr: u64,
        cr3: u64,
    ) -> (r: Option<T>)
        requires
            old(self).mem_wf(parent),
        ensures
            final(self).mem_wf(parent),
            Worker::same_non_mem(*old(self), *final(self)),
            forall|p: u64|
                #![trigger final(self).view_at(parent, p)]
                final(self).view_at(parent, p) == old(self).view_at(parent, p),
            final(self).pml@ == old(self).pml@,
            forall|p: u64| final(self).dirty_at(p) == old(self).dirty_at(p),
            match spec_paging_mode(
                old(self).backing.vm.guest_regs.cr0,
                old(self).backing.vm.guest_regs.cr4,
                old(self).backing.vm.guest_regs.efer,
            ) {
                None => r is None,
                Some(mode) => match spec_read_addr(
                    old(self).view_map(parent),
                    old(self).backing.vm.guest_regs,
                    Address::Linear { addr: vaddr, mode, cr3 },
                    T::spec_size(),
                    0,
                    Seq::empty(),
                ) {
                    Some(bs) => r is Some && r->Some_0.as_nat() == le_at(
                        bs,
                        0,
                        T::spec_size(),
                    ),
                    None => r is None,
                },
            },
    {
        let size = T::size();
        let mut buf: Vec<u8> = Vec::new();
        let mut k: usize = 0;
        while k < size
            invariant
                k <= size,
                buf@.len() == k,
            decreases size - k,
        {
            buf.push(0);
            k = k + 1;
        }
        match self.read_virt_cr3_into(parent, vaddr, &mut buf, cr3) {
            Some(()) => Some(T::from_le(&buf)),
            None => None,
        }
    }

    /// Reads the contents at `vaddr` into a `T` using the current active
    /// page table.
    pub fn read_virt<T: Primitive>(&mut self, parent: Option<&Backing>, vaddr: u64) -> (r: Option<
        T,
    >)
        requires
            old(self).mem_wf(parent),
        ensures
            final(self).mem_wf(parent),
            Worker::same_non_mem(*old(self), *final(self)),
            forall|p: u64|
                #![trigger final(self).view_at(parent, p)]
                final(self).view_at(parent, p) == old(self).view_at(parent, p),
            final(self).pml@ == old(self).pml@,
            forall|p: u64| final(self).dirty_at(p) == old(self).dirty_at(p),
            match spec_paging_mode(
                old(self).backing.vm.guest_regs.cr0,
                old(self).backing.vm.guest_regs.cr4,
                old(self).backing.vm.guest_regs.efer,
            ) {
                None => r is None,
                Some(mode) => match spec_read_addr(
                    old(self).view_map(parent),
                    old(self).backing.vm.guest_regs,
                    Address::Linear {
                        addr: vaddr,
                        mode,
                        cr3: old(self).backing.vm.guest_regs.cr3,
                    },
                    T::spec_size(),
                    0,
                    Seq::empty(),
                ) {
                    Some(bs) => r is Some && r->Some_0.as_nat() == le_at(
                        bs,
                        0,
                        T::spec_size(),
                    ),
                    None => r is None,
                },
            },
    {
        let cr3 = self.reg(Register::Cr3);
        self.read_virt_cr3::<T>(parent, vaddr, cr3)
    }

    /// Write the contents of `buf` to the guest virtual memory at `vaddr`
    /// using page table `cr3`.
    ///
    /// Returns `None` if the request cannot be fully satisfied. It is
    /// possible that some writing did occur, but is partial.
    pub fn write_virt_cr3_from(
        &mut self,
        parent: Option<&Backing>,
        vaddr: u64,
        buf: &Vec<u8>,
        cr3: u64,
    ) -> (r: Option<()>)
        requires
            old(self).mem_wf(parent),
        ensures
            final(self).mem_wf(parent),
            Worker::same_non_mem(*old(self), *final(self)),
            forall|a: u64|
                #![trigger final(self).resolvable(parent, a)]
                final(self).resolvable(parent, a) == old(self).resolvable(parent, a),
            match spec_paging_mode(
                old(self).backing.vm.guest_regs.cr0,
                old(self).backing.vm.guest_regs.cr4,
                old(self).backing.vm.guest_regs.efer,
            ) {
                None => r is None && *final(self) == *old(self),
                Some(mode) => ({
                    let (ok, m2) = spec_write_addr(
                        old(self).view_map(parent),
                        old(self).backing.vm.guest_regs,
                        Address::Linear { addr: vaddr, mode, cr3 },
                        buf@,
                        0,
                    );
                    &&& (r is Some <==> ok)
                    &&& final(self).view_map(parent) == m2
                }),
            },
    {
        let mode = match self.paging_mode() {
            Some(mode) => mode,
            None => {
                return None;
            },
        };
        self.write_addr(parent, Address::Linear { addr: vaddr, mode, cr3 }, buf)
    }
}

} // verus!
