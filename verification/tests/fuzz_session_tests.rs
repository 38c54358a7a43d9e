use fuzz_session::case::VmStep;
use fuzz_session::proto::{CoverageRecord, InputRecord, ServerMessage};
use fuzz_session::regs::Register;
use fuzz_session::rng::Rng;
use fuzz_session::session::{
    hash128, load_master, CaseEnd, FuzzSession, NoEnlightenment, NoopHooks, SyncError,
};
use fuzz_session::snapshot::{Snapshot, SnapshotError};
use fuzz_session::vm::{GuestException, VmExit};

/// Write a 64-bit little-endian value into `buf` at `off`.
fn put_u64(buf: &mut [u8], off: usize, v: u64) {
    for k in 0..8 {
        buf[off + k] = (v >> (8 * k)) as u8;
    }
}

/// Write a 32-bit little-endian value into `buf` at `off`.
fn put_u32(buf: &mut [u8], off: usize, v: u32) {
    for k in 0..4 {
        buf[off + k] = (v >> (8 * k)) as u8;
    }
}

/// Build a snapshot file: a register block with the given patches
/// (offsets relative to the block), the given regions, and page contents
/// written at their file offsets. The file is `total` bytes long.
fn falkdump(
    reg_patches: &[(usize, u64)],
    reg_patches32: &[(usize, u32)],
    regions: &[(u64, u64, u64)],
    pages: &[(u64, Vec<u8>)],
    total: usize,
) -> Vec<u8> {
    let mut blob = vec![0u8; 1088];
    for &(off, v) in reg_patches {
        put_u64(&mut blob, off, v);
    }
    for &(off, v) in reg_patches32 {
        put_u32(&mut blob, off, v);
    }
    let mut file = Vec::new();
    file.extend_from_slice(b"FALKDUMP");
    let mut len8 = [0u8; 8];
    put_u64(&mut len8, 0, 1088);
    file.extend_from_slice(&len8);
    file.extend_from_slice(&blob);
    let mut cnt = [0u8; 8];
    put_u64(&mut cnt, 0, regions.len() as u64);
    file.extend_from_slice(&cnt);
    for &(start, end, offset) in regions {
        let mut trip = [0u8; 24];
        put_u64(&mut trip, 0, start);
        put_u64(&mut trip, 8, end);
        put_u64(&mut trip, 16, offset);
        file.extend_from_slice(&trip);
    }
    while file.len() < total {
        file.push(0);
    }
    for (off, data) in pages {
        let off = *off as usize;
        file[off..off + data.len()].copy_from_slice(data);
    }
    file
}

/// One region of zeroes at guest-physical 0x1000, backed at file offset
/// 0x1000.
fn one_page_session() -> FuzzSession {
    let file = falkdump(&[], &[], &[(0x1000, 0x1fff, 0x1000)], &[], 0x2000);
    let mut hooks = NoopHooks;
    FuzzSession::from_falkdump(String::from("server"), &file, 7, &mut hooks).unwrap()
}

#[test]
fn reset_fidelity() {
    // A single zeroed page; the worker dirties it, the mirror records it,
    // and the reset restores the master's bytes.
    let mut s = one_page_session();
    let mut w = s.worker(0, 42);
    w.write_phys::<u8>(Some(&s.master), 0x1000, 0xaa).unwrap();
    assert_eq!(w.read_phys::<u8>(Some(&s.master), 0x1000), Some(0xaa));
    assert_eq!(w.pml, vec![0x1000]);
    w.reset(&s.master);
    assert_eq!(w.pml.len(), 0);
    assert_eq!(w.read_phys::<u8>(Some(&s.master), 0x1000), Some(0x00));
}

#[test]
fn cross_page_read() {
    // Region 0x2000..=0x3fff: first page 0x11, second page 0x22. A read
    // spanning the boundary splits correctly.
    let file = falkdump(
        &[],
        &[],
        &[(0x2000, 0x3fff, 0x1000)],
        &[(0x1000, vec![0x11u8; 4096]), (0x2000, vec![0x22u8; 4096])],
        0x3000,
    );
    let mut hooks = NoopHooks;
    let mut s = FuzzSession::from_falkdump(String::from("server"), &file, 1, &mut hooks).unwrap();
    let mut w = s.worker(0, 42);
    let mut buf = vec![0u8; 4];
    w.read_phys_into(Some(&s.master), 0x2ffe, &mut buf).unwrap();
    assert_eq!(buf, vec![0x11, 0x11, 0x22, 0x22]);
    // The same span as a little-endian value.
    assert_eq!(w.read_phys::<u32>(Some(&s.master), 0x2ffe), Some(0x2222_1111));
}

#[test]
fn missing_page_read() {
    // An address outside every region resolves nowhere and does not touch
    // the mirror.
    let mut s = one_page_session();
    let mut w = s.worker(0, 42);
    let mut buf = vec![0u8; 1];
    assert_eq!(w.read_phys_into(Some(&s.master), 0x9000, &mut buf), None);
    assert_eq!(w.pml.len(), 0);
}

#[test]
fn partial_write_across_boundary() {
    // A write spanning into an unbacked page fails partially: the first
    // page's bytes land and its page is mirrored.
    let file = falkdump(&[], &[], &[(0x2000, 0x2fff, 0x1000)], &[], 0x2000);
    let mut hooks = NoopHooks;
    let mut s = FuzzSession::from_falkdump(String::from("server"), &file, 1, &mut hooks).unwrap();
    let mut w = s.worker(0, 42);
    let data = vec![0xde, 0xad, 0xbe, 0xef];
    assert_eq!(w.write_phys_from(Some(&s.master), 0x2ffe, &data), None);
    assert_eq!(w.read_phys::<u8>(Some(&s.master), 0x2ffe), Some(0xde));
    assert_eq!(w.read_phys::<u8>(Some(&s.master), 0x2fff), Some(0xad));
    assert_eq!(w.pml, vec![0x2000]);
}

#[test]
fn rewrite_same_bytes_marks_dirty() {
    // Reading a span and writing the same bytes back leaves memory as it
    // was, yet still dirties and mirrors the page.
    let mut s = one_page_session();
    let mut w = s.worker(0, 42);
    let mut buf = vec![0u8; 16];
    w.read_phys_into(Some(&s.master), 0x1008, &mut buf).unwrap();
    assert_eq!(w.pml.len(), 0);
    w.write_phys_from(Some(&s.master), 0x1008, &buf).unwrap();
    assert_eq!(w.pml, vec![0x1000]);
    let mut back = vec![0u8; 16];
    w.read_phys_into(Some(&s.master), 0x1008, &mut back).unwrap();
    assert_eq!(back, buf);
}

#[test]
fn write_then_read_round_trip() {
    let mut s = one_page_session();
    let mut w = s.worker(0, 42);
    let data = vec![1u8, 2, 3, 4, 5];
    w.write_phys_from(Some(&s.master), 0x1100, &data).unwrap();
    let mut back = vec![0u8; 5];
    w.read_phys_into(Some(&s.master), 0x1100, &mut back).unwrap();
    assert_eq!(back, data);
}

#[test]
fn second_write_single_mirror_entry() {
    // A log-full drain followed by another write to the same page leaves
    // exactly one mirror entry for it.
    let mut s = one_page_session();
    let mut w = s.worker(0, 42);
    // Map the page writable and let the guest dirty it; the hardware logs
    // it into the buffer.
    w.write_phys::<u8>(Some(&s.master), 0x1000, 0x01).unwrap();
    w.reset(&s.master);
    let step = VmStep {
        now: 1,
        cycles: 1,
        writes: vec![(0x1234, 0x5a)],
        exit: VmExit::PmlFull,
    };
    let exit = w.apply_step(Some(&s.master), &step);
    assert_eq!(exit, VmExit::PmlFull);
    assert_eq!(w.pml.len(), 0);
    w.drain_pml();
    assert_eq!(w.pml, vec![0x1000]);
    // The second write finds the dirty bit set and adds nothing.
    w.write_phys::<u8>(Some(&s.master), 0x1300, 0x5b).unwrap();
    assert_eq!(w.pml, vec![0x1000]);
}

#[test]
fn wrapped_log_index_drains_whole_buffer() {
    // An index that underflowed to 0xffff means the whole 512-entry log is
    // live: adding one wraps to zero and the drain takes everything.
    let mut s = one_page_session();
    let mut w = s.worker(0, 42);
    w.set_reg(Register::PmlIndex, 0xffff);
    w.drain_pml();
    assert_eq!(w.pml.len(), 512);
    assert_eq!(w.reg(Register::PmlIndex), 511);
    // An empty log (index at the top) drains nothing.
    let mut w2 = s.worker(1, 43);
    w2.drain_pml();
    assert_eq!(w2.pml.len(), 0);
}

#[test]
fn coverage_dedup() {
    // Two reports of the same record: new once, and the corpus grows by
    // one.
    let mut s = one_page_session();
    let input = vec![b'a', b'b', b'c'];
    let rec = CoverageRecord { module: None, offset: 0x400000 };
    assert!(s.report_coverage(Some(&input), &rec));
    assert_eq!(s.inputs.len(), 1);
    let rec2 = CoverageRecord { module: None, offset: 0x400000 };
    assert!(!s.report_coverage(Some(&input), &rec2));
    assert_eq!(s.inputs.len(), 1);
    assert_eq!(s.coverage.len(), 1);
    // A distinct record with the same input is new coverage but no new
    // input.
    let rec3 = CoverageRecord { module: None, offset: 0x400010 };
    assert!(s.report_coverage(Some(&input), &rec3));
    assert_eq!(s.inputs.len(), 1);
    assert_eq!(s.coverage.len(), 2);
}

#[test]
fn input_digest_is_deterministic() {
    let a = vec![b'a', b'b', b'c'];
    let b = vec![b'a', b'b', b'd'];
    assert_eq!(hash128(&a), hash128(&a));
    assert_ne!(hash128(&a), hash128(&b));
    assert_ne!(hash128(&a), hash128(&Vec::new()));
}

#[test]
fn msr_allow_list() {
    // The guest reads the fs-base machine register: the dispatcher splits
    // it into edx:eax and advances the instruction pointer.
    let file = falkdump(
        &[(24, 0xc000_0100), (240, 0x1234_5678_9abc_def0), (136, 0x40_1000)],
        &[],
        &[(0x1000, 0x1fff, 0x1000)],
        &[],
        0x2000,
    );
    let mut hooks = NoopHooks;
    let mut enl = NoEnlightenment;
    let mut s = FuzzSession::from_falkdump(String::from("server"), &file, 1, &mut hooks).unwrap();
    let mut w = s.worker(0, 42);
    let script = vec![
        VmStep { now: 1, cycles: 10, writes: vec![], exit: VmExit::ReadMsr { inst_len: 2 } },
        VmStep { now: 2, cycles: 10, writes: vec![], exit: VmExit::Hlt },
    ];
    let out = w.fuzz_case(&mut s, &script, 0, &mut hooks, &mut enl);
    assert!(matches!(out.end, CaseEnd::Exit(VmExit::Hlt)));
    assert_eq!(out.steps, 1);
    assert_eq!(w.reg(Register::Rax), 0x9abc_def0);
    assert_eq!(w.reg(Register::Rdx), 0x1234_5678);
    assert_eq!(w.reg(Register::Rip), 0x40_1002);
}

#[test]
fn unexpected_msr_is_fatal() {
    let mut s = one_page_session();
    let mut hooks = NoopHooks;
    let mut enl = NoEnlightenment;
    let mut w = s.worker(0, 42);
    // The master's rcx is zero, which is no register on the allow list.
    let script = vec![VmStep {
        now: 1,
        cycles: 1,
        writes: vec![],
        exit: VmExit::ReadMsr { inst_len: 2 },
    }];
    let out = w.fuzz_case(&mut s, &script, 0, &mut hooks, &mut enl);
    assert!(matches!(out.end, CaseEnd::Fatal(VmExit::ReadMsr { inst_len: 2 })));
}

#[test]
fn nmi_is_fatal() {
    let mut s = one_page_session();
    let mut hooks = NoopHooks;
    let mut enl = NoEnlightenment;
    let mut w = s.worker(0, 42);
    let script = vec![VmStep {
        now: 1,
        cycles: 1,
        writes: vec![],
        exit: VmExit::Exception(GuestException::Nmi),
    }];
    let out = w.fuzz_case(&mut s, &script, 0, &mut hooks, &mut enl);
    assert!(matches!(out.end, CaseEnd::Fatal(VmExit::Exception(GuestException::Nmi))));
}

#[test]
fn case_timeout() {
    // A 1000 microsecond budget and a guest that never gets anywhere: the
    // case ends with a timeout and the case counter advances by one.
    let mut s = one_page_session().timeout(1000);
    let mut hooks = NoopHooks;
    let mut enl = NoEnlightenment;
    let mut w = s.worker(0, 42);
    let script = vec![
        VmStep { now: 500, cycles: 1, writes: vec![], exit: VmExit::ExternalInterrupt },
        VmStep { now: 1000, cycles: 1, writes: vec![], exit: VmExit::ExternalInterrupt },
        VmStep { now: 1500, cycles: 1, writes: vec![], exit: VmExit::ExternalInterrupt },
    ];
    let out = w.fuzz_case(&mut s, &script, 0, &mut hooks, &mut enl);
    assert!(matches!(out.end, CaseEnd::Exit(VmExit::Timeout)));
    assert_eq!(out.steps, 1);
    assert_eq!(w.stats.fuzz_cases + s.stats.fuzz_cases, 1);
    assert!(out.report_due);
}

#[test]
fn ept_violation_resumes_and_dirties() {
    // A write fault on a backed page is serviced by copy-on-write and the
    // guest resumes; the page lands in the mirror at case end.
    let mut s = one_page_session();
    let mut hooks = NoopHooks;
    let mut enl = NoEnlightenment;
    let mut w = s.worker(0, 42);
    let script = vec![
        VmStep {
            now: 1,
            cycles: 1,
            writes: vec![],
            exit: VmExit::EptViolation { addr: 0x1040, read: false, write: true, execute: false },
        },
        VmStep { now: 2, cycles: 1, writes: vec![(0x1040, 0x77)], exit: VmExit::Hlt },
    ];
    let out = w.fuzz_case(&mut s, &script, 0, &mut hooks, &mut enl);
    assert!(matches!(out.end, CaseEnd::Exit(VmExit::Hlt)));
    assert_eq!(w.pml, vec![0x1000]);
    assert_eq!(w.read_phys::<u8>(Some(&s.master), 0x1040), Some(0x77));
}

#[test]
fn preemption_timer_records_coverage() {
    let file = falkdump(&[(136, 0x40_2000)], &[], &[(0x1000, 0x1fff, 0x1000)], &[], 0x2000);
    let mut hooks = NoopHooks;
    let mut enl = NoEnlightenment;
    let mut s = FuzzSession::from_falkdump(String::from("server"), &file, 1, &mut hooks).unwrap();
    let mut w = s.worker(0, 42);
    let script = vec![
        VmStep { now: 1, cycles: 1, writes: vec![], exit: VmExit::PreemptionTimer },
        VmStep { now: 2, cycles: 1, writes: vec![], exit: VmExit::Hlt },
    ];
    let out = w.fuzz_case(&mut s, &script, 0, &mut hooks, &mut enl);
    assert!(matches!(out.end, CaseEnd::Exit(VmExit::Hlt)));
    assert_eq!(s.coverage.len(), 1);
    assert_eq!(s.coverage[0].offset, 0x40_2000);
    assert!(s.coverage[0].module.is_none());
}

#[test]
fn snapshot_register_round_trip() {
    // The registers a file carries come back exactly, after the documented
    // filters: long-mode limit zeroing, access-rights filtering, and the
    // forced bit in cr4.
    let file = falkdump(
        &[
            (8, 0x1122_3344_5566_7788),   // rax
            (136, 0xdead_beef),           // rip
            (504, 1 << 8),                // efer: long mode
            (424, 0),                     // cr4 before the forced bit
        ],
        &[
            (156, 0xffff),                // cs limit, zeroed by long mode
            (160, 0x0000_8000),           // cs access rights, stored shifted
            (232, 0),                     // fs access rights: not present
        ],
        &[(0x1000, 0x1fff, 0x1000)],
        &[],
        0x2000,
    );
    let b = load_master(&file).unwrap();
    assert_eq!(b.vm.guest_regs.rax, 0x1122_3344_5566_7788);
    assert_eq!(b.vm.guest_regs.rip, 0xdead_beef);
    assert_eq!(b.vm.guest_regs.efer, 1 << 8);
    assert_eq!(b.vm.guest_regs.cr4, 1 << 13);
    // Long mode zeroes the cs limit; its access rights keep the present
    // bit and lose nothing else (the granularity bit was clear).
    assert_eq!(b.vm.guest_regs.cs_limit, 0);
    assert_eq!(b.vm.guest_regs.cs_ar, 0x80);
    // A non-present segment becomes unusable.
    assert_eq!(b.vm.guest_regs.fs_ar, 0x10000);
    assert_eq!(b.vm.guest_regs.pml_index, 511);
}

#[test]
fn snapshot_rejects_bad_magic() {
    let mut file = falkdump(&[], &[], &[(0x1000, 0x1fff, 0x1000)], &[], 0x2000);
    file[0] = b'X';
    assert_eq!(Snapshot::parse(&file).err(), Some(SnapshotError::BadMagic));
}

#[test]
fn snapshot_rejects_truncation() {
    let file = vec![b'F', b'A', b'L', b'K'];
    assert_eq!(Snapshot::parse(&file).err(), Some(SnapshotError::Truncated));
}

#[test]
fn snapshot_rejects_bad_register_block() {
    let mut file = falkdump(&[], &[], &[(0x1000, 0x1fff, 0x1000)], &[], 0x2000);
    put_u64(&mut file, 8, 100);
    assert_eq!(Snapshot::parse(&file).err(), Some(SnapshotError::BadRegisterBlock));
}

#[test]
fn snapshot_rejects_bad_region() {
    // End below start.
    let file = falkdump(&[], &[], &[(0x2000, 0x1fff, 0x1000)], &[], 0x2000);
    assert_eq!(Snapshot::parse(&file).err(), Some(SnapshotError::BadRegion));
    // Misaligned start.
    let file = falkdump(&[], &[], &[(0x1008, 0x1fff, 0x1000)], &[], 0x2000);
    assert_eq!(Snapshot::parse(&file).err(), Some(SnapshotError::BadRegion));
}

#[test]
fn worker_ids_are_assigned_in_order() {
    let mut s = one_page_session();
    let w0 = s.worker(0, 1);
    let w1 = s.worker(1, 2);
    assert_eq!(w0.worker_id, 0);
    assert_eq!(w1.worker_id, 1);
    assert_eq!(s.workers, 2);
}

#[test]
fn login_message_carries_session_and_core() {
    let s = one_page_session();
    assert!(matches!(s.login(3), ServerMessage::Login(7, 3)));
}

#[test]
fn rand_input_picks_from_corpus() {
    let mut s = one_page_session();
    let mut w = s.worker(0, 42);
    assert!(w.rand_input(&s).is_none());
    let input = vec![9u8, 9, 9];
    let rec = CoverageRecord { module: None, offset: 1 };
    s.report_coverage(Some(&input), &rec);
    assert_eq!(w.rand_input(&s), Some(&vec![9u8, 9, 9]));
}

#[test]
fn statistics_report_drains_queues() {
    let mut s = one_page_session();
    let input = vec![1u8];
    let rec = CoverageRecord { module: Some(vec![b'm']), offset: 5 };
    s.report_coverage(Some(&input), &rec);
    assert_eq!(s.pending_coverage.len(), 1);
    assert_eq!(s.pending_inputs.len(), 1);
    let msgs = s.report_statistics(10, 2, 3, 4);
    assert_eq!(msgs.len(), 3);
    assert!(matches!(&msgs[0], ServerMessage::Inputs(v) if v.len() == 1));
    assert!(matches!(&msgs[1], ServerMessage::Coverage(v) if v.len() == 1));
    assert!(matches!(
        &msgs[2],
        ServerMessage::ReportStatistics { allocs: 10, frees: 2, phys_free: 3, phys_total: 4, .. }
    ));
    assert_eq!(s.pending_coverage.len(), 0);
    assert_eq!(s.pending_inputs.len(), 0);
    // Nothing pending: only the statistics go out.
    let msgs = s.report_statistics(0, 0, 0, 0);
    assert_eq!(msgs.len(), 1);
}

#[test]
fn server_sync_merges_and_stops() {
    let mut s = one_page_session();
    // Coverage from another machine enters the set without an input.
    let recs = vec![CoverageRecord { module: None, offset: 0x10 }];
    assert_eq!(s.handle_server_message(ServerMessage::Coverage(recs)), Ok(false));
    assert_eq!(s.coverage.len(), 1);
    // Inputs from another machine enter the corpus and are queued back as
    // acknowledgement.
    let inputs = vec![InputRecord { hash: hash128(&vec![5u8]), input: vec![5u8] }];
    assert_eq!(s.handle_server_message(ServerMessage::Inputs(inputs)), Ok(false));
    assert_eq!(s.inputs.len(), 1);
    assert_eq!(s.pending_inputs.len(), 1);
    assert_eq!(s.handle_server_message(ServerMessage::SyncComplete), Ok(true));
    // Anything else during a sync is an error.
    assert_eq!(
        s.handle_server_message(ServerMessage::Login(1, 2)),
        Err(SyncError::UnexpectedMessage)
    );
}

#[test]
fn xorshift_is_reproducible() {
    let mut a = Rng::new(3, 12345);
    let mut b = Rng::new(3, 12345);
    assert_eq!(a.rand(), b.rand());
    assert_eq!(a.rand(), b.rand());
}

#[test]
fn module_resolution_names_offsets() {
    let mut s = one_page_session();
    let mut w = s.worker(0, 42);
    // Kernel context: all ones.
    assert_eq!(w.context_id(), !0u64);
    w.set_module_list(!0u64, vec![fuzz_session::worker::ModuleEntry {
        base: 0x40_0000,
        end: 0x40_ffff,
        name: vec![b'n', b't'],
    }]);
    let (name, off) = w.resolve_module(0x40_1234);
    assert_eq!(name, Some(vec![b'n', b't']));
    assert_eq!(off, 0x1234);
    let (name, off) = w.resolve_module(0x50_0000);
    assert!(name.is_none());
    assert_eq!(off, 0x50_0000);
}

#[test]
fn guest_virtual_read_walks_page_tables() {
    // A 64-bit identity-style walk: one page of tables at 0x1000..0x4fff
    // and a data page at 0x5000. Map virtual 0x0 to physical 0x5000.
    let mut tables = vec![0u8; 4096 * 4];
    put_u64(&mut tables, 0, 0x2000 | 3); // pml4[0] -> 0x2000
    put_u64(&mut tables, 4096, 0x3000 | 3); // pdpt[0] -> 0x3000
    put_u64(&mut tables, 8192, 0x4000 | 3); // pd[0] -> 0x4000
    put_u64(&mut tables, 12288, 0x5000 | 3); // pt[0] -> 0x5000
    let mut data = vec![0u8; 4096];
    data[0x34] = 0xab;
    let file = falkdump(
        &[
            (392, (1u64 << 31)),          // cr0: paging on
            (424, (1u64 << 5)),           // cr4: physical address extension
            (504, (1u64 << 8)),           // efer: long mode
            (416, 0x1000),                // cr3
        ],
        &[],
        &[(0x1000, 0x5fff, 0x1000)],
        &[(0x1000, tables), (0x5000, data)],
        0x7000,
    );
    let mut hooks = NoopHooks;
    let mut s = FuzzSession::from_falkdump(String::from("server"), &file, 1, &mut hooks).unwrap();
    let mut w = s.worker(0, 42);
    // Load the master's registers, paging state included.
    w.reset(&s.master);
    assert_eq!(w.read_virt::<u8>(Some(&s.master), 0x34), Some(0xab));
    // An unmapped virtual page fails the walk.
    assert_eq!(w.read_virt::<u8>(Some(&s.master), 0x20_0000), None);
    // Writing through the page tables dirties the data page.
    let buf = vec![0xcdu8];
    w.write_virt_cr3_from(Some(&s.master), 0x34, &buf, 0x1000).unwrap();
    assert_eq!(w.read_virt::<u8>(Some(&s.master), 0x34), Some(0xcd));
    assert!(w.pml.contains(&0x5000));
}

#[test]
fn primitive_round_trip_through_memory() {
    let mut s = one_page_session();
    let mut w = s.worker(0, 42);
    w.write_phys::<u64>(Some(&s.master), 0x1010, 0x0102_0304_0506_0708).unwrap();
    assert_eq!(w.read_phys::<u64>(Some(&s.master), 0x1010), Some(0x0102_0304_0506_0708));
    assert_eq!(w.read_phys::<u16>(Some(&s.master), 0x1010), Some(0x0708));
    w.write_phys::<u128>(Some(&s.master), 0x1020, 0x0f0e_0d0c_0b0a_0908_0706_0504_0302_0100)
        .unwrap();
    assert_eq!(
        w.read_phys::<u128>(Some(&s.master), 0x1020),
        Some(0x0f0e_0d0c_0b0a_0908_0706_0504_0302_0100)
    );
}

#[test]
fn paging_mode_detection() {
    let mut s = one_page_session();
    let mut w = s.worker(0, 42);
    assert!(w.paging_mode().is_none());
    w.set_reg(Register::Cr0, 1 << 31);
    assert_eq!(w.paging_mode(), Some(fuzz_session::walk::PagingMode::Bits32));
    w.set_reg(Register::Cr4, 1 << 5);
    assert_eq!(w.paging_mode(), Some(fuzz_session::walk::PagingMode::Bits32Pae));
    w.set_reg(Register::Efer, 1 << 8);
    assert_eq!(w.paging_mode(), Some(fuzz_session::walk::PagingMode::Bits64));
    // Long mode without the extension bit is invalid.
    w.set_reg(Register::Cr4, 0);
    assert!(w.paging_mode().is_none());
}

#[test]
fn control_register_moves() {
    let file = falkdump(&[(24, 0x8000_0011), (136, 0x100)], &[], &[(0x1000, 0x1fff, 0x1000)], &[], 0x2000);
    let mut hooks = NoopHooks;
    let mut enl = NoEnlightenment;
    let mut s = FuzzSession::from_falkdump(String::from("server"), &file, 1, &mut hooks).unwrap();
    let mut w = s.worker(0, 42);
    let script = vec![
        // mov cr0, rcx; then read it back into rbx.
        VmStep { now: 1, cycles: 1, writes: vec![], exit: VmExit::WriteCr { cr: 0, gpr: 1, inst_len: 3 } },
        VmStep { now: 2, cycles: 1, writes: vec![], exit: VmExit::ReadCr { cr: 0, gpr: 3, inst_len: 3 } },
        VmStep { now: 3, cycles: 1, writes: vec![], exit: VmExit::Hlt },
    ];
    let out = w.fuzz_case(&mut s, &script, 0, &mut hooks, &mut enl);
    assert!(matches!(out.end, CaseEnd::Exit(VmExit::Hlt)));
    assert_eq!(w.reg(Register::Cr0), 0x8000_0011);
    assert_eq!(w.reg(Register::Rbx), 0x8000_0011);
    assert_eq!(w.reg(Register::Rip), 0x106);
}

#[test]
fn rdtsc_zeroes_and_advances() {
    let file = falkdump(&[(8, 7), (32, 9), (136, 0x200)], &[], &[(0x1000, 0x1fff, 0x1000)], &[], 0x2000);
    let mut hooks = NoopHooks;
    let mut enl = NoEnlightenment;
    let mut s = FuzzSession::from_falkdump(String::from("server"), &file, 1, &mut hooks).unwrap();
    let mut w = s.worker(0, 42);
    let script = vec![
        VmStep { now: 1, cycles: 1, writes: vec![], exit: VmExit::Rdtsc { inst_len: 2 } },
        VmStep { now: 2, cycles: 1, writes: vec![], exit: VmExit::Hlt },
    ];
    let out = w.fuzz_case(&mut s, &script, 0, &mut hooks, &mut enl);
    assert!(matches!(out.end, CaseEnd::Exit(VmExit::Hlt)));
    assert_eq!(w.reg(Register::Rax), 0);
    assert_eq!(w.reg(Register::Rdx), 0);
    assert_eq!(w.reg(Register::Rip), 0x202);
}

/// Hooks that write the worker's current input at the start of guest
/// memory and swallow halts once.
struct InjectingHooks;

impl fuzz_session::session::CaseHooks for InjectingHooks {
    fn init_master(&mut self, _worker: &mut fuzz_session::worker::Worker) {}

    fn inject(
        &mut self,
        worker: &mut fuzz_session::worker::Worker,
        session: &FuzzSession,
    ) {
        let data = worker.fuzz_input.clone();
        worker.write_phys_from(Some(&session.master), 0x1000, &data);
    }

    fn vmexit_filter(
        &mut self,
        _worker: &mut fuzz_session::worker::Worker,
        _session: &mut FuzzSession,
        vmexit: &VmExit,
    ) -> bool {
        matches!(vmexit, VmExit::Hlt)
    }
}

#[test]
fn inject_hook_writes_each_case() {
    let mut s = one_page_session().inject(true);
    let mut hooks = InjectingHooks;
    let mut enl = NoEnlightenment;
    let mut w = s.worker(0, 42);
    w.fuzz_input = vec![0x41, 0x42];
    let script = vec![VmStep { now: 1, cycles: 1, writes: vec![], exit: VmExit::Timeout }];
    let out = w.fuzz_case(&mut s, &script, 0, &mut hooks, &mut enl);
    assert!(matches!(out.end, CaseEnd::Exit(VmExit::Timeout)));
    assert_eq!(w.read_phys::<u16>(Some(&s.master), 0x1000), Some(0x4241));
    assert!(w.pml.contains(&0x1000));
}

#[test]
fn exit_filter_resumes_handled_exits() {
    let mut s = one_page_session().vmexit_filter(true);
    let mut hooks = InjectingHooks;
    let mut enl = NoEnlightenment;
    let mut w = s.worker(0, 42);
    let script = vec![
        VmStep { now: 1, cycles: 1, writes: vec![], exit: VmExit::Hlt },
        VmStep { now: 2, cycles: 1, writes: vec![], exit: VmExit::Exception(GuestException::Breakpoint) },
    ];
    let out = w.fuzz_case(&mut s, &script, 0, &mut hooks, &mut enl);
    assert!(matches!(out.end, CaseEnd::Exit(VmExit::Exception(GuestException::Breakpoint))));
}


#[test]
fn module_resolution_ignores_list_order() {
    // Module lists need no order: the entry with the greatest base at or
    // below the address wins, as in an ordered map.
    let mut s = one_page_session();
    let mut w = s.worker(0, 42);
    w.set_module_list(
        !0u64,
        vec![
            fuzz_session::worker::ModuleEntry { base: 0x2000, end: 0x2fff, name: vec![b'b'] },
            fuzz_session::worker::ModuleEntry { base: 0x1000, end: 0x1fff, name: vec![b'a'] },
        ],
    );
    let (name, off) = w.resolve_module(0x2500);
    assert_eq!(name, Some(vec![b'b']));
    assert_eq!(off, 0x500);
    let (name, off) = w.resolve_module(0x1500);
    assert_eq!(name, Some(vec![b'a']));
    assert_eq!(off, 0x500);
}

#[test]
fn server_inputs_deduplicate_and_acknowledge() {
    // A received batch holding a duplicate enters once and is acknowledged
    // once.
    let mut s = one_page_session();
    let h = hash128(&vec![5u8]);
    let inputs = vec![
        InputRecord { hash: h, input: vec![5u8] },
        InputRecord { hash: h, input: vec![5u8] },
        InputRecord { hash: hash128(&vec![6u8]), input: vec![6u8] },
    ];
    assert_eq!(s.handle_server_message(ServerMessage::Inputs(inputs)), Ok(false));
    assert_eq!(s.inputs.len(), 2);
    assert_eq!(s.input_dedup.len(), 2);
    assert_eq!(s.pending_inputs.len(), 2);
}

#[test]
fn guest_writes_land_and_are_logged() {
    // A guest burst's writes land byte for byte, and the first write to a
    // clean page is logged by the hardware.
    let mut s = one_page_session();
    let mut w = s.worker(0, 42);
    // Make the page a clean writable private copy.
    w.write_phys::<u8>(Some(&s.master), 0x1000, 0x01).unwrap();
    w.reset(&s.master);
    let step = VmStep {
        now: 1,
        cycles: 1,
        writes: vec![(0x1010, 0x42), (0x1011, 0x43)],
        exit: VmExit::Hlt,
    };
    let exit = w.apply_step(Some(&s.master), &step);
    assert_eq!(exit, VmExit::Hlt);
    assert_eq!(w.read_phys::<u16>(Some(&s.master), 0x1010), Some(0x4342));
    // The page went into the hardware log, not yet the mirror.
    assert_eq!(w.pml.len(), 0);
    w.drain_pml();
    assert_eq!(w.pml, vec![0x1000]);
}
