//! The snapshot file: a frozen guest register file plus a set of
//! guest-physical regions indexing into a raw memory blob.
//!
//! The file layout is, little-endian throughout: an 8-byte magic, a 64-bit
//! register-block length, the register block itself, a 64-bit region count,
//! that many `{start, end (inclusive), file offset}` triples, and then the
//! raw page contents the offsets point into.

use vstd::prelude::*;
use crate::regs::RegisterFile;
use crate::bytes::{le_at, read_le};

verus! {

broadcast use vstd::std_specs::vec::axiom_spec_len;

/// A guest-physical region of the snapshot: guest addresses
/// `start..=end` are backed by the file bytes starting at `offset`.
#[derive(Clone, Copy, PartialEq, Eq, Structural, Debug)]
pub struct Region {
    /// First guest-physical address of the region (page-aligned).
    pub start: u64,
    /// Last guest-physical address of the region (inclusive; ends on a page
    /// boundary).
    pub end: u64,
    /// Offset of the region's bytes in the snapshot file (page-aligned).
    pub offset: u64,
}

impl Region {
    /// The structural invariant every region of a well-formed snapshot
    /// satisfies.
    pub open spec fn valid(self) -> bool {
        &&& self.end > self.start
        &&& self.start & 0xfff == 0
        &&& self.end & 0xfff == 0xfff
        &&& self.offset & 0xfff == 0
    }
}

/// Why a snapshot file was rejected.
#[derive(Clone, Copy, PartialEq, Eq, Structural, Debug)]
pub enum SnapshotError {
    /// The file does not begin with the snapshot magic.
    BadMagic,
    /// The file ends before a field it must contain.
    Truncated,
    /// The register block does not have the one supported size.
    BadRegisterBlock,
    /// A region has unordered bounds or misaligned bounds or offset.
    BadRegion,
}

/// `rs` is sorted strictly by region start.
pub open spec fn sorted_by_start(rs: Seq<Region>) -> bool {
    forall|i: int, j: int| 0 <= i < j < rs.len() ==> rs[i].start < rs[j].start
}

/// The map from region start to region described by a region list; a later
/// entry with the same start shadows an earlier one.
pub open spec fn region_map_of(rs: Seq<Region>) -> Map<u64, Region>
    decreases rs.len(),
{
    if rs.len() == 0 {
        Map::empty()
    } else {
        region_map_of(rs.drop_last()).insert(rs.last().start, rs.last())
    }
}

/// The last region in `rs` whose start is at or below `gpa`; on a list
/// sorted by start this is the region with the greatest such start.
pub open spec fn find_region(rs: Seq<Region>, gpa: u64) -> Option<Region>
    decreases rs.len(),
{
    if rs.len() == 0 {
        None
    } else if rs.last().start <= gpa {
        Some(rs.last())
    } else {
        find_region(rs.drop_last(), gpa)
    }
}

/// Whatever `find_region` returns starts at or below `gpa`.
pub proof fn lemma_find_region_start(rs: Seq<Region>, gpa: u64)
    ensures
        match find_region(rs, gpa) {
            Some(r) => r.start <= gpa,
            None => true,
        },
    decreases rs.len(),
{
    if rs.len() > 0 && rs.last().start > gpa {
        lemma_find_region_start(rs.drop_last(), gpa);
    }
}

/// The region of `rs` that contains `gpa`, if any.
pub open spec fn region_containing(rs: Seq<Region>, gpa: u64) -> Option<Region> {
    match find_region(rs, gpa) {
        Some(r) => if gpa <= r.end {
            Some(r)
        } else {
            None
        },
        None => None,
    }
}

/// On a sorted list, whatever `find_region` returns is in the map, has
/// start at or below `gpa`, and no mapped start between it and `gpa` exists.
pub proof fn lemma_find_region_is_max(rs: Seq<Region>, gpa: u64)
    requires
        sorted_by_start(rs),
    ensures
        match find_region(rs, gpa) {
            Some(r) => {
                &&& region_map_of(rs).contains_key(r.start)
                &&& region_map_of(rs)[r.start] == r
                &&& r.start <= gpa
                &&& forall|s: u64|
                    region_map_of(rs).contains_key(s) && s <= gpa ==> s <= r.start
            },
            None => forall|s: u64| region_map_of(rs).contains_key(s) ==> s > gpa,
        },
    decreases rs.len(),
{
    if rs.len() > 0 {
        lemma_find_region_is_max(rs.drop_last(), gpa);
        lemma_region_map_of_keys(rs);
        lemma_region_map_of_keys(rs.drop_last());
    }
}

/// The keys of a region list's map are exactly the starts of its entries,
/// and on a sorted list each key maps to the entry carrying it.
pub proof fn lemma_region_map_of_keys(rs: Seq<Region>)
    ensures
        forall|s: u64|
            region_map_of(rs).contains_key(s) <==> exists|i: int|
                0 <= i < rs.len() && rs[i].start == s,
        forall|i: int|
            #![trigger rs[i]]
            0 <= i < rs.len() && sorted_by_start(rs) ==> region_map_of(rs).contains_key(
                rs[i].start,
            ) && region_map_of(rs)[rs[i].start] == rs[i],
    decreases rs.len(),
{
    if rs.len() > 0 {
        lemma_region_map_of_keys(rs.drop_last());
        assert forall|s: u64| region_map_of(rs).contains_key(s) implies exists|i: int|
            0 <= i < rs.len() && rs[i].start == s by {
            if s == rs.last().start {
                assert(rs[rs.len() - 1].start == s);
            } else {
                assert(region_map_of(rs.drop_last()).contains_key(s));
                let j = choose|j: int|
                    0 <= j < rs.drop_last().len() && rs.drop_last()[j].start == s;
                assert(rs.drop_last()[j] == rs[j]);
                assert(rs[j].start == s);
            }
        }
        assert forall|s: u64|
            (exists|i: int| 0 <= i < rs.len() && rs[i].start == s) implies region_map_of(
            rs,
        ).contains_key(s) by {
            let i = choose|i: int| 0 <= i < rs.len() && rs[i].start == s;
            if i < rs.len() - 1 {
                assert(rs.drop_last()[i] == rs[i]);
                assert(rs.drop_last()[i].start == s);
                assert(region_map_of(rs.drop_last()).contains_key(s));
            }
        }
        if sorted_by_start(rs) {
            assert(sorted_by_start(rs.drop_last())) by {
                assert forall|a: int, b: int|
                    0 <= a < b < rs.drop_last().len() implies rs.drop_last()[a].start
                    < rs.drop_last()[b].start by {
                    assert(rs.drop_last()[a] == rs[a]);
                    assert(rs.drop_last()[b] == rs[b]);
                }
            }
            assert forall|i: int|
                0 <= i < rs.len() && sorted_by_start(rs) implies region_map_of(
                rs,
            ).contains_key(#[trigger] rs[i].start) && region_map_of(rs)[rs[i].start]
                == rs[i] by {
                if i < rs.len() - 1 {
                    assert(rs.drop_last()[i] == rs[i]);
                    assert(rs[i].start < rs.last().start);
                }
            }
        }
    }
}

/// Insert `r` into a list sorted by start, replacing the entry with the same
/// start if there is one.
pub fn insert_region(rs: &mut Vec<Region>, r: Region)
    requires
        sorted_by_start(old(rs)@),
    ensures
        sorted_by_start(final(rs)@),
        region_map_of(final(rs)@) == region_map_of(old(rs)@).insert(r.start, r),
        final(rs)@.len() <= old(rs)@.len() + 1,
        forall|k: int|
            0 <= k < final(rs)@.len() ==> final(rs)@[k] == r || old(rs)@.contains(
                #[trigger] final(rs)@[k],
            ),
{
    let mut i: usize = 0;
    while i < rs.len() && rs[i].start < r.start
        invariant
            i <= rs@.len(),
            forall|k: int| 0 <= k < i ==> rs@[k].start < r.start,
            rs@ == old(rs)@,
        decreases rs@.len() - i,
    {
        i = i + 1;
    }
    if i < rs.len() && rs[i].start == r.start {
        let ghost pre = rs@;
        rs[i] = r;
        proof {
            lemma_region_map_update(pre, i as int, r);
            assert forall|k: int|
                0 <= k < rs@.len() implies rs@[k] == r || pre.contains(#[trigger] rs@[k]) by {
                if k != i {
                    assert(pre[k] == rs@[k]);
                }
            }
        }
    } else {
        let ghost pre = rs@;
        rs.insert(i, r);
        proof {
            lemma_region_map_insert(pre, i as int, r);
            assert forall|k: int|
                0 <= k < rs@.len() implies rs@[k] == r || pre.contains(#[trigger] rs@[k]) by {
                if k < i {
                    assert(pre[k] == rs@[k]);
                } else if k > i {
                    assert(pre[k - 1] == rs@[k]);
                }
            }
        }
    }
}

/// Replacing the entry at `i` (same start) updates the map at that start.
proof fn lemma_region_map_update(rs: Seq<Region>, i: int, r: Region)
    requires
        0 <= i < rs.len(),
        sorted_by_start(rs),
        rs[i].start == r.start,
    ensures
        sorted_by_start(rs.update(i, r)),
        region_map_of(rs.update(i, r)) == region_map_of(rs).insert(r.start, r),
    decreases rs.len(),
{
    let rs2 = rs.update(i, r);
    if i == rs.len() - 1 {
        assert(rs2.drop_last() =~= rs.drop_last());
        assert(region_map_of(rs2) == region_map_of(rs.drop_last()).insert(r.start, r));
        assert(region_map_of(rs.drop_last()).insert(rs.last().start, rs.last()).insert(
            r.start,
            r,
        ) =~= region_map_of(rs.drop_last()).insert(r.start, r));
    } else {
        assert(rs2.drop_last() =~= rs.drop_last().update(i, r));
        lemma_region_map_update(rs.drop_last(), i, r);
        assert(rs2.last() == rs.last());
        assert(region_map_of(rs2) == region_map_of(rs.drop_last()).insert(r.start, r).insert(
            rs.last().start,
            rs.last(),
        ));
        assert(rs.last().start != r.start);
        assert(region_map_of(rs.drop_last()).insert(r.start, r).insert(
            rs.last().start,
            rs.last(),
        ) =~= region_map_of(rs.drop_last()).insert(rs.last().start, rs.last()).insert(
            r.start,
            r,
        ));
    }
}

/// Inserting at the sorted position `i` (a fresh start) inserts into the map.
proof fn lemma_region_map_insert(rs: Seq<Region>, i: int, r: Region)
    requires
        0 <= i <= rs.len(),
        sorted_by_start(rs),
        forall|k: int| 0 <= k < i ==> rs[k].start < r.start,
        forall|k: int| i <= k < rs.len() ==> rs[k].start > r.start,
    ensures
        sorted_by_start(rs.insert(i, r)),
        region_map_of(rs.insert(i, r)) == region_map_of(rs).insert(r.start, r),
    decreases rs.len(),
{
    let rs2 = rs.insert(i, r);
    assert forall|a: int, b: int| 0 <= a < b < rs2.len() implies rs2[a].start
        < rs2[b].start by {
        if a < i && b > i {
            assert(rs2[a] == rs[a] && rs2[b] == rs[b - 1]);
        }
    }
    if i == rs.len() {
        assert(rs2.drop_last() =~= rs);
        assert(rs2.last() == r);
    } else {
        assert(rs2.last() == rs.last());
        assert(rs2.drop_last() =~= rs.drop_last().insert(i, r));
        lemma_region_map_insert(rs.drop_last(), i, r);
        assert(rs.last().start != r.start);
        assert(region_map_of(rs.drop_last()).insert(r.start, r).insert(
            rs.last().start,
            rs.last(),
        ) =~= region_map_of(rs.drop_last()).insert(rs.last().start, rs.last()).insert(
            r.start,
            r,
        ));
    }
}

/// Find the region of a sorted list that contains `gpa`.
pub fn lookup_region(rs: &Vec<Region>, gpa: u64) -> (r: Option<Region>)
    requires
        sorted_by_start(rs@),
    ensures
        r == region_containing(rs@, gpa),
{
    let mut i: usize = rs.len();
    proof {
        assert(rs@.subrange(0, rs@.len() as int) =~= rs@);
    }
    while i > 0
        invariant
            i <= rs@.len(),
            find_region(rs@, gpa) == find_region(rs@.subrange(0, i as int), gpa),
            forall|k: int| i <= k < rs@.len() ==> rs@[k].start > gpa,
        decreases i,
    {
        i = i - 1;
        proof {
            assert(rs@.subrange(0, i + 1).last() == rs@[i as int]);
            assert(rs@.subrange(0, i + 1).drop_last() =~= rs@.subrange(0, i as int));
        }
        if rs[i].start <= gpa {
            proof {
                assert(find_region(rs@, gpa) == Some(rs@[i as int]));
            }
            if gpa <= rs[i].end {
                return Some(rs[i]);
            } else {
                return None;
            }
        }
    }
    proof {
        assert(rs@.subrange(0, 0).len() == 0);
    }
    None
}


/// The 64-bit little-endian value at `bs[off..off + 8]`.
pub open spec fn le64(bs: Seq<u8>, off: int) -> u64 {
    le_at(bs, off, 8) as u64
}

/// The 32-bit little-endian value at `bs[off..off + 4]`, widened to 64 bits.
pub open spec fn le32(bs: Seq<u8>, off: int) -> u64 {
    le_at(bs, off, 4) as u64
}

/// Byte length of the one supported register block: the fixed field layout
/// followed by a 512-byte extended-state save area.
pub const REGS_BLOCK_SIZE: u64 = 1088;

/// The register file encoded by the register block at `bs[base..]`, before
/// the post-load filters. Fields the block does not carry keep their
/// fresh-VM values.
pub open spec fn spec_parse_regs(bs: Seq<u8>, base: int) -> RegisterFile {
    RegisterFile {
        rax: le64(bs, base + 8),
        rbx: le64(bs, base + 16),
        rcx: le64(bs, base + 24),
        rdx: le64(bs, base + 32),
        rsi: le64(bs, base + 40),
        rdi: le64(bs, base + 48),
        rsp: le64(bs, base + 56),
        rbp: le64(bs, base + 64),
        r8: le64(bs, base + 72),
        r9: le64(bs, base + 80),
        r10: le64(bs, base + 88),
        r11: le64(bs, base + 96),
        r12: le64(bs, base + 104),
        r13: le64(bs, base + 112),
        r14: le64(bs, base + 120),
        r15: le64(bs, base + 128),
        rip: le64(bs, base + 136),
        rflags: le64(bs, base + 144),
        cs: le32(bs, base + 152),
        cs_limit: le32(bs, base + 156),
        cs_ar: le32(bs, base + 160) >> 8,
        cs_base: le64(bs, base + 168),
        ds: le32(bs, base + 176),
        ds_limit: le32(bs, base + 180),
        ds_ar: le32(bs, base + 184) >> 8,
        ds_base: le64(bs, base + 192),
        es: le32(bs, base + 200),
        es_limit: le32(bs, base + 204),
        es_ar: le32(bs, base + 208) >> 8,
        es_base: le64(bs, base + 216),
        fs: le32(bs, base + 224),
        fs_limit: le32(bs, base + 228),
        fs_ar: le32(bs, base + 232) >> 8,
        fs_base: le64(bs, base + 240),
        gs: le32(bs, base + 248),
        gs_limit: le32(bs, base + 252),
        gs_ar: le32(bs, base + 256) >> 8,
        gs_base: le64(bs, base + 264),
        ss: le32(bs, base + 272),
        ss_limit: le32(bs, base + 276),
        ss_ar: le32(bs, base + 280) >> 8,
        ss_base: le64(bs, base + 288),
        ldtr: le32(bs, base + 296),
        ldtr_limit: le32(bs, base + 300),
        ldtr_ar: le32(bs, base + 304) >> 8,
        ldtr_base: le64(bs, base + 312),
        tr: le32(bs, base + 320),
        tr_limit: le32(bs, base + 324),
        tr_ar: le32(bs, base + 328) >> 8,
        tr_base: le64(bs, base + 336),
        gdtr_limit: le32(bs, base + 348),
        gdtr_base: le64(bs, base + 360),
        idtr_limit: le32(bs, base + 372),
        idtr_base: le64(bs, base + 384),
        cr0: le64(bs, base + 392),
        cr2: le64(bs, base + 408),
        cr3: le64(bs, base + 416),
        cr4: le64(bs, base + 424) | (1u64 << 13),
        kernel_gs_base: le64(bs, base + 432),
        cr8: le64(bs, base + 440),
        cstar: le64(bs, base + 448),
        lstar: le64(bs, base + 456),
        fmask: le64(bs, base + 464),
        star: le64(bs, base + 472),
        sysenter_cs: le64(bs, base + 480),
        sysenter_esp: le64(bs, base + 488),
        sysenter_eip: le64(bs, base + 496),
        efer: le64(bs, base + 504),
        dr7: le64(bs, base + 568),
        pml_index: 511,
    }
}

/// Parse the register block at `file[base..base + REGS_BLOCK_SIZE]`.
pub fn parse_regs(file: &Vec<u8>, base: usize) -> (r: RegisterFile)
    requires
        base + REGS_BLOCK_SIZE <= file@.len(),
    ensures
        r == spec_parse_regs(file@, base as int),
{
    proof {
        assert(file.len() == file@.len());
    }
    RegisterFile {
        rax: read_le(file, base + 8, 8),
        rbx: read_le(file, base + 16, 8),
        rcx: read_le(file, base + 24, 8),
        rdx: read_le(file, base + 32, 8),
        rsi: read_le(file, base + 40, 8),
        rdi: read_le(file, base + 48, 8),
        rsp: read_le(file, base + 56, 8),
        rbp: read_le(file, base + 64, 8),
        r8: read_le(file, base + 72, 8),
        r9: read_le(file, base + 80, 8),
        r10: read_le(file, base + 88, 8),
        r11: read_le(file, base + 96, 8),
        r12: read_le(file, base + 104, 8),
        r13: read_le(file, base + 112, 8),
        r14: read_le(file, base + 120, 8),
        r15: read_le(file, base + 128, 8),
        rip: read_le(file, base + 136, 8),
        rflags: read_le(file, base + 144, 8),
        cs: read_le(file, base + 152, 4),
        cs_limit: read_le(file, base + 156, 4),
        cs_ar: read_le(file, base + 160, 4) >> 8,
        cs_base: read_le(file, base + 168, 8),
        ds: read_le(file, base + 176, 4),
        ds_limit: read_le(file, base + 180, 4),
        ds_ar: read_le(file, base + 184, 4) >> 8,
        ds_base: read_le(file, base + 192, 8),
        es: read_le(file, base + 200, 4),
        es_limit: read_le(file, base + 204, 4),
        es_ar: read_le(file, base + 208, 4) >> 8,
        es_base: read_le(file, base + 216, 8),
        fs: read_le(file, base + 224, 4),
        fs_limit: read_le(file, base + 228, 4),
        fs_ar: read_le(file, base + 232, 4) >> 8,
        fs_base: read_le(file, base + 240, 8),
        gs: read_le(file, base + 248, 4),
        gs_limit: read_le(file, base + 252, 4),
        gs_ar: read_le(file, base + 256, 4) >> 8,
        gs_base: read_le(file, base + 264, 8),
        ss: read_le(file, base + 272, 4),
        ss_limit: read_le(file, base + 276, 4),
        ss_ar: read_le(file, base + 280, 4) >> 8,
        ss_base: read_le(file, base + 288, 8),
        ldtr: read_le(file, base + 296, 4),
        ldtr_limit: read_le(file, base + 300, 4),
        ldtr_ar: read_le(file, base + 304, 4) >> 8,
        ldtr_base: read_le(file, base + 312, 8),
        tr: read_le(file, base + 320, 4),
        tr_limit: read_le(file, base + 324, 4),
        tr_ar: read_le(file, base + 328, 4) >> 8,
        tr_base: read_le(file, base + 336, 8),
        gdtr_limit: read_le(file, base + 348, 4),
        gdtr_base: read_le(file, base + 360, 8),
        idtr_limit: read_le(file, base + 372, 4),
        idtr_base: read_le(file, base + 384, 8),
        cr0: read_le(file, base + 392, 8),
        cr2: read_le(file, base + 408, 8),
        cr3: read_le(file, base + 416, 8),
        cr4: read_le(file, base + 424, 8) | (1u64 << 13),
        kernel_gs_base: read_le(file, base + 432, 8),
        cr8: read_le(file, base + 440, 8),
        cstar: read_le(file, base + 448, 8),
        lstar: read_le(file, base + 456, 8),
        fmask: read_le(file, base + 464, 8),
        star: read_le(file, base + 472, 8),
        sysenter_cs: read_le(file, base + 480, 8),
        sysenter_esp: read_le(file, base + 488, 8),
        sysenter_eip: read_le(file, base + 496, 8),
        efer: read_le(file, base + 504, 8),
        dr7: read_le(file, base + 568, 8),
        pml_index: 511,
    }
}

/// One segment's access rights after the post-load filter: a non-present
/// segment becomes unusable, and a limit without all twelve low bits set
/// clears the granularity bit.
pub open spec fn spec_ar_filter(ar: u64, limit: u64) -> u64 {
    let a = if ar & 0x80 == 0 {
        0x10000u64
    } else {
        ar
    };
    if limit & 0xfff != 0xfff {
        a & !(1u64 << 15)
    } else {
        a
    }
}

/// In long mode the segment limits of the six ordinary segments are forced
/// to zero.
pub open spec fn spec_zero_long_mode_limits(r: RegisterFile) -> RegisterFile {
    if r.efer & (1u64 << 8) != 0 {
        RegisterFile { es_limit: 0, cs_limit: 0, ss_limit: 0, ds_limit: 0, fs_limit: 0, gs_limit: 0, ..r }
    } else {
        r
    }
}

/// The access-rights filter applied to all eight segments.
pub open spec fn spec_filter_access_rights(r: RegisterFile) -> RegisterFile {
    RegisterFile {
        es_ar: spec_ar_filter(r.es_ar, r.es_limit),
        cs_ar: spec_ar_filter(r.cs_ar, r.cs_limit),
        ss_ar: spec_ar_filter(r.ss_ar, r.ss_limit),
        ds_ar: spec_ar_filter(r.ds_ar, r.ds_limit),
        fs_ar: spec_ar_filter(r.fs_ar, r.fs_limit),
        gs_ar: spec_ar_filter(r.gs_ar, r.gs_limit),
        ldtr_ar: spec_ar_filter(r.ldtr_ar, r.ldtr_limit),
        tr_ar: spec_ar_filter(r.tr_ar, r.tr_limit),
        ..r
    }
}

/// Both post-load filters, in the order they are applied: limits first, so
/// the access-rights filter sees the zeroed limits.
pub open spec fn spec_post_filter(r: RegisterFile) -> RegisterFile {
    spec_filter_access_rights(spec_zero_long_mode_limits(r))
}

/// The register file a snapshot loads: the parsed block with the post-load
/// filters applied.
pub open spec fn spec_load_regs(bs: Seq<u8>, base: int) -> RegisterFile {
    spec_post_filter(spec_parse_regs(bs, base))
}

/// Filter one segment's access rights.
fn ar_filter(ar: u64, limit: u64) -> (r: u64)
    ensures
        r == spec_ar_filter(ar, limit),
{
    let a = if ar & 0x80 == 0 {
        0x10000u64
    } else {
        ar
    };
    if limit & 0xfff != 0xfff {
        a & !(1u64 << 15)
    } else {
        a
    }
}

/// Apply the post-load filters to a freshly parsed register file.
pub fn apply_post_filter(r: &mut RegisterFile)
    ensures
        *final(r) == spec_post_filter(*old(r)),
{
    if r.efer & (1u64 << 8) != 0 {
        r.es_limit = 0;
        r.cs_limit = 0;
        r.ss_limit = 0;
        r.ds_limit = 0;
        r.fs_limit = 0;
        r.gs_limit = 0;
    }
    r.es_ar = ar_filter(r.es_ar, r.es_limit);
    r.cs_ar = ar_filter(r.cs_ar, r.cs_limit);
    r.ss_ar = ar_filter(r.ss_ar, r.ss_limit);
    r.ds_ar = ar_filter(r.ds_ar, r.ds_limit);
    r.fs_ar = ar_filter(r.fs_ar, r.fs_limit);
    r.gs_ar = ar_filter(r.gs_ar, r.gs_limit);
    r.ldtr_ar = ar_filter(r.ldtr_ar, r.ldtr_limit);
    r.tr_ar = ar_filter(r.tr_ar, r.tr_limit);
}

/// The region triple encoded at `bs[off..off + 24]`.
pub open spec fn spec_region_at(bs: Seq<u8>, off: int) -> Region {
    Region { start: le64(bs, off), end: le64(bs, off + 8), offset: le64(bs, off + 16) }
}

/// The region map described by the `n` triples at `bs[off..]`, in file
/// order; a later triple with the same start shadows an earlier one.
pub open spec fn spec_regions_map(bs: Seq<u8>, off: int, n: nat) -> Map<u64, Region>
    decreases n,
{
    if n == 0 {
        Map::empty()
    } else {
        spec_regions_map(bs, off, (n - 1) as nat).insert(
            spec_region_at(bs, off + 24 * (n - 1)).start,
            spec_region_at(bs, off + 24 * (n - 1)),
        )
    }
}

/// All `n` region triples at `bs[off..]` satisfy the region invariant.
pub open spec fn spec_regions_valid(bs: Seq<u8>, off: int, n: nat) -> bool {
    forall|i: int| 0 <= i < n ==> #[trigger] spec_region_at(bs, off + 24 * i).valid()
}

/// Offset of the region count in a snapshot file with the supported
/// register-block size.
pub const REGION_COUNT_OFFSET: u64 = 1104;

/// Offset of the first region triple.
pub const REGION_TABLE_OFFSET: u64 = 1112;

/// The file begins with the snapshot magic.
pub open spec fn spec_magic_ok(bs: Seq<u8>) -> bool {
    &&& bs.len() >= 8
    &&& bs[0] == 0x46u8
    &&& bs[1] == 0x41u8
    &&& bs[2] == 0x4cu8
    &&& bs[3] == 0x4bu8
    &&& bs[4] == 0x44u8
    &&& bs[5] == 0x55u8
    &&& bs[6] == 0x4du8
    &&& bs[7] == 0x50u8
}

/// The check a snapshot file must pass, and the first reason it fails.
pub open spec fn spec_snapshot_check(bs: Seq<u8>) -> Option<SnapshotError> {
    if bs.len() < 8 {
        Some(SnapshotError::Truncated)
    } else if !spec_magic_ok(bs) {
        Some(SnapshotError::BadMagic)
    } else if bs.len() < 16 {
        Some(SnapshotError::Truncated)
    } else if le64(bs, 8) != REGS_BLOCK_SIZE {
        Some(SnapshotError::BadRegisterBlock)
    } else if bs.len() < REGION_TABLE_OFFSET {
        Some(SnapshotError::Truncated)
    } else if bs.len() < REGION_TABLE_OFFSET + 24 * le64(bs, REGION_COUNT_OFFSET as int) {
        Some(SnapshotError::Truncated)
    } else if !spec_regions_valid(
        bs,
        REGION_TABLE_OFFSET as int,
        le64(bs, REGION_COUNT_OFFSET as int) as nat,
    ) {
        Some(SnapshotError::BadRegion)
    } else {
        None
    }
}

/// A parsed snapshot: the loaded register file, the extended-state save
/// area, the region table sorted by start, and the raw file bytes the
/// regions index into.
pub struct Snapshot {
    /// Register file after the post-load filters.
    pub regs: RegisterFile,
    /// The 512-byte extended-state save area.
    pub fxsave: Vec<u8>,
    /// Region table, sorted strictly by region start.
    pub regions: Vec<Region>,
    /// The whole snapshot file; region offsets index into it.
    pub memory: Vec<u8>,
}

impl Snapshot {
    /// A parsed snapshot is well-formed: regions sorted and valid, and the
    /// save area of fixed size.
    pub open spec fn wf(&self) -> bool {
        &&& sorted_by_start(self.regions@)
        &&& forall|i: int| 0 <= i < self.regions@.len() ==> #[trigger] self.regions@[i].valid()
        &&& self.fxsave@.len() == 512
    }

    /// Parse a snapshot file.
    ///
    /// Returns the parsed snapshot exactly when the file passes the
    /// snapshot check, and otherwise the first reason it fails.
    pub fn parse(file: &Vec<u8>) -> (r: Result<Snapshot, SnapshotError>)
        ensures
            match r {
                Ok(s) => {
                    &&& spec_snapshot_check(file@) is None
                    &&& s.wf()
                    &&& s.regs == spec_load_regs(file@, 16)
                    &&& s.fxsave@ == file@.subrange(592, 1104)
                    &&& region_map_of(s.regions@) == spec_regions_map(
                        file@,
                        REGION_TABLE_OFFSET as int,
                        le64(file@, REGION_COUNT_OFFSET as int) as nat,
                    )
                    &&& s.memory@ == file@
                },
                Err(e) => spec_snapshot_check(file@) == Some(e),
            },
    {
        proof {
            assert(file.len() == file@.len());
        }
        if file.len() < 8 {
            return Err(SnapshotError::Truncated);
        }
        if !(file[0] == 0x46 && file[1] == 0x41 && file[2] == 0x4c && file[3] == 0x4b && file[4]
            == 0x44 && file[5] == 0x55 && file[6] == 0x4d && file[7] == 0x50) {
            return Err(SnapshotError::BadMagic);
        }
        if file.len() < 16 {
            return Err(SnapshotError::Truncated);
        }
        let regs_size = read_le(file, 8, 8);
        if regs_size != 1088 {
            return Err(SnapshotError::BadRegisterBlock);
        }
        if file.len() < 1112 {
            return Err(SnapshotError::Truncated);
        }
        let count = read_le(file, 1104, 8);
        let room = (file.len() - 1112) / 24;
        if count > room as u64 {
            proof {
                assert(24 * (room as int) <= file@.len() - 1112);
                assert(file@.len() < 1112 + 24 * (count as int));
            }
            return Err(SnapshotError::Truncated);
        }
        proof {
            assert(24 * (count as int) <= 24 * (room as int)) by (nonlinear_arith)
                requires
                    0 <= count <= room,
            ;
            assert(1112 + 24 * (count as int) <= file@.len());
        }

        // Registers, then the post-load filters.
        let mut regs = parse_regs(file, 16);
        apply_post_filter(&mut regs);

        // The extended-state save area.
        let mut fxsave: Vec<u8> = Vec::new();
        let mut i: usize = 0;
        while i < 512
            invariant
                i <= 512,
                file@.len() >= 1112,
                fxsave@.len() == i,
                forall|k: int| 0 <= k < i ==> fxsave@[k] == file@[592 + k],
            decreases 512 - i,
        {
            let b = file[592 + i];
            fxsave.push(b);
            i = i + 1;
        }
        proof {
            assert(fxsave@ =~= file@.subrange(592, 1104));
        }

        // The region table.
        proof {
            assert(spec_magic_ok(file@));
            assert(spec_snapshot_check(file@) is None || spec_snapshot_check(file@)
                == Some(SnapshotError::BadRegion));
        }
        let mut regions: Vec<Region> = Vec::new();
        let mut j: usize = 0;
        while j < count as usize
            invariant
                spec_snapshot_check(file@) is None || spec_snapshot_check(file@)
                    == Some(SnapshotError::BadRegion),
                j <= count,
                count <= usize::MAX,
                count == le64(file@, 1104),
                1112 + 24 * (count as int) <= file@.len() <= usize::MAX,
                sorted_by_start(regions@),
                regions@.len() <= j,
                forall|k: int| 0 <= k < regions@.len() ==> #[trigger] regions@[k].valid(),
                region_map_of(regions@) == spec_regions_map(file@, 1112, j as nat),
                spec_regions_valid(file@, 1112, j as nat),
            decreases count - j,
        {
            proof {
                assert(24 * (j as int) < 24 * (count as int)) by (nonlinear_arith)
                    requires
                        0 <= j < count,
                ;
            }
            let off = 1112 + 24 * j;
            let r = Region {
                start: read_le(file, off, 8),
                end: read_le(file, off + 8, 8),
                offset: read_le(file, off + 16, 8),
            };
            proof {
                assert(r == spec_region_at(file@, 1112 + 24 * (j as int)));
            }
            if !(r.end > r.start && r.start & 0xfff == 0 && r.end & 0xfff == 0xfff && r.offset
                & 0xfff == 0) {
                proof {
                    assert(!spec_region_at(file@, 1112 + 24 * (j as int)).valid());
                    if spec_regions_valid(file@, 1112, le64(file@, 1104) as nat) {
                        assert(spec_region_at(file@, 1112 + 24 * (j as int)).valid());
                    }
                }
                return Err(SnapshotError::BadRegion);
            }
            insert_region(&mut regions, r);
            j = j + 1;
            proof {
                lemma_regions_valid_push(file@, 1112, j as nat);
            }
        }

        let memory = clone_bytes(file);
        proof {
            assert(spec_snapshot_check(file@) is None);
        }
        Ok(Snapshot { regs, fxsave, regions, memory })
    }
}

/// Validity of a region prefix extends one triple at a time.
proof fn lemma_regions_valid_push(bs: Seq<u8>, off: int, n: nat)
    requires
        n > 0,
        spec_regions_valid(bs, off, (n - 1) as nat),
        spec_region_at(bs, off + 24 * (n - 1)).valid(),
    ensures
        spec_regions_valid(bs, off, n),
{
    assert forall|i: int| 0 <= i < n implies #[trigger] spec_region_at(
        bs,
        off + 24 * i,
    ).valid() by {
        if i < n - 1 {
            assert(spec_region_at(bs, off + 24 * i).valid());
        }
    }
}

/// Copy a byte vector.
pub fn clone_bytes(v: &Vec<u8>) -> (r: Vec<u8>)
    ensures
        r@ == v@,
{
    proof {
        assert(v.len() == v@.len());
    }
    let mut r: Vec<u8> = Vec::new();
    let mut i: usize = 0;
    while i < v.len()
        invariant
            i <= v@.len() <= usize::MAX,
            r@.len() == i,
            forall|k: int| 0 <= k < i ==> r@[k] == v@[k],
        decreases v@.len() - i,
    {
        let b = v[i];
        r.push(b);
        i = i + 1;
    }
    proof {
        assert(r@ =~= v@);
    }
    r
}

} // verus!
