//! A session for multiple workers to fuzz a shared job: the immutable
//! master snapshot, the session-wide deduplicated coverage set and input
//! corpus, the queues pending for the server, and the shared statistics.

use vstd::prelude::*;
use crate::backing::{Backing, NetBacking};
use crate::proto::{CoverageRecord, InputRecord, ServerMessage, records_eq};
use crate::stats::Statistics;
use crate::snapshot::{Snapshot, SnapshotError, clone_bytes};
use crate::worker::{Worker, ModuleEntry};
use crate::regs::Register;
use crate::vm::{VmExit, page_of};
use crate::case::VmStep;

verus! {

broadcast use vstd::std_specs::vec::axiom_spec_len;

/// The hash seed of the input digest.
pub const HASH_BASIS: u128 = 0x6c62272e07bb014262b821756295c58d;

/// The multiplier of the input digest.
pub const HASH_PRIME: u128 = 0x0000000001000000000000000000013b;

/// The 128-bit digest of a byte string: a fold multiplying in each byte.
pub open spec fn spec_hash128(s: Seq<u8>) -> u128
    decreases s.len(),
{
    if s.len() == 0 {
        HASH_BASIS
    } else {
        (spec_hash128(s.drop_last()) ^ (s.last() as u128)).wrapping_mul(HASH_PRIME)
    }
}

/// Compute the 128-bit digest of an input.
pub fn hash128(input: &Vec<u8>) -> (r: u128)
    ensures
        r == spec_hash128(input@),
{
    proof {
        assert(input.len() == input@.len());
    }
    let mut h: u128 = HASH_BASIS;
    let mut i: usize = 0;
    while i < input.len()
        invariant
            i <= input@.len() <= usize::MAX,
            h == spec_hash128(input@.subrange(0, i as int)),
        decreases input@.len() - i,
    {
        proof {
            assert(input@.subrange(0, i + 1).drop_last() =~= input@.subrange(0, i as int));
            assert(input@.subrange(0, i + 1).last() == input@[i as int]);
        }
        h = (h ^ (input[i] as u128)).wrapping_mul(HASH_PRIME);
        i = i + 1;
    }
    proof {
        assert(input@.subrange(0, i as int) =~= input@);
    }
    h
}

/// The set of record values a coverage list holds.
pub open spec fn cov_view(s: Seq<CoverageRecord>) -> Set<(Option<Seq<u8>>, u64)>
    decreases s.len(),
{
    if s.len() == 0 {
        Set::empty()
    } else {
        cov_view(s.drop_last()).insert(s.last()@)
    }
}

/// Membership in the coverage view is membership in the list, and the view
/// is finite.
pub proof fn lemma_cov_view(s: Seq<CoverageRecord>)
    ensures
        forall|x: (Option<Seq<u8>>, u64)|
            cov_view(s).contains(x) <==> exists|i: int| 0 <= i < s.len() && s[i]@ == x,
        cov_view(s).finite(),
    decreases s.len(),
{
    if s.len() > 0 {
        lemma_cov_view(s.drop_last());
        assert forall|x: (Option<Seq<u8>>, u64)| cov_view(s).contains(x) implies exists|i: int|
            0 <= i < s.len() && s[i]@ == x by {
            if x == s.last()@ {
                assert(s[s.len() - 1]@ == x);
            } else {
                let i = choose|i: int| 0 <= i < s.drop_last().len() && s.drop_last()[i]@ == x;
                assert(s[i]@ == x);
            }
        }
        assert forall|x: (Option<Seq<u8>>, u64)|
            (exists|i: int| 0 <= i < s.len() && s[i]@ == x) implies cov_view(s).contains(x) by {
            let i = choose|i: int| 0 <= i < s.len() && s[i]@ == x;
            if i < s.len() - 1 {
                assert(s.drop_last()[i]@ == x);
            }
        }
    }
}

/// The map from hash to input bytes a dedup list holds.
pub open spec fn dedup_view(s: Seq<InputRecord>) -> Map<u128, Seq<u8>>
    decreases s.len(),
{
    if s.len() == 0 {
        Map::empty()
    } else {
        dedup_view(s.drop_last()).insert(s.last().hash, s.last().input@)
    }
}

/// Keys of the dedup view are the hashes in the list.
pub proof fn lemma_dedup_view(s: Seq<InputRecord>)
    ensures
        forall|h: u128|
            dedup_view(s).contains_key(h) <==> exists|i: int| 0 <= i < s.len() && s[i].hash == h,
    decreases s.len(),
{
    if s.len() > 0 {
        lemma_dedup_view(s.drop_last());
        assert forall|h: u128| dedup_view(s).contains_key(h) implies exists|i: int|
            0 <= i < s.len() && s[i].hash == h by {
            if h == s.last().hash {
                assert(s[s.len() - 1].hash == h);
            } else {
                assert(dedup_view(s.drop_last()).contains_key(h));
                let i = choose|i: int|
                    0 <= i < s.drop_last().len() && s.drop_last()[i].hash == h;
                assert(s.drop_last()[i] == s[i]);
                assert(s[i].hash == h);
            }
        }
        assert forall|h: u128|
            (exists|i: int| 0 <= i < s.len() && s[i].hash == h) implies dedup_view(
            s,
        ).contains_key(h) by {
            let i = choose|i: int| 0 <= i < s.len() && s[i].hash == h;
            if i < s.len() - 1 {
                assert(s.drop_last()[i] == s[i]);
                assert(s.drop_last()[i].hash == h);
                assert(dedup_view(s.drop_last()).contains_key(h));
            }
        }
    }
}

/// The (hash, bytes) pairs an input queue holds.
pub open spec fn pend_view(s: Seq<InputRecord>) -> Seq<(u128, Seq<u8>)> {
    Seq::new(s.len(), |i: int| (s[i].hash, s[i].input@))
}

/// The byte strings a corpus holds.
pub open spec fn corpus_view(s: Seq<Vec<u8>>) -> Seq<Seq<u8>> {
    Seq::new(s.len(), |i: int| s[i]@)
}

/// What absorbing a run of received input records does to the dedup map,
/// the corpus, and the pending-inputs queue: a record whose hash is known
/// (or arriving at a full corpus) changes nothing; a fresh one enters the
/// map, is appended to the corpus, and is queued back as acknowledgement.
pub open spec fn spec_absorb_inputs(
    dd: Map<u128, Seq<u8>>,
    corpus: Seq<Seq<u8>>,
    pend: Seq<(u128, Seq<u8>)>,
    recs: Seq<(u128, Seq<u8>)>,
    k: nat,
) -> (Map<u128, Seq<u8>>, Seq<Seq<u8>>, Seq<(u128, Seq<u8>)>)
    decreases recs.len() - k,
{
    if k >= recs.len() {
        (dd, corpus, pend)
    } else {
        let h = recs[k as int].0;
        let b = recs[k as int].1;
        if dd.contains_key(h) || corpus.len() >= CORPUS_CAPACITY {
            spec_absorb_inputs(dd, corpus, pend, recs, k + 1)
        } else {
            spec_absorb_inputs(
                dd.insert(h, b),
                corpus.push(b),
                pend.push((h, b)),
                recs,
                k + 1,
            )
        }
    }
}

/// Capacity of the input corpus.
pub const CORPUS_CAPACITY: u64 = 65536;

/// A session for multiple workers to fuzz a shared job.
pub struct FuzzSession {
    /// Master VM state; immutable once the session is built.
    pub master: Backing,
    /// Timeout for each fuzz case, in microseconds.
    pub timeout: Option<u64>,
    /// Whether the injection hook runs before every fuzz case.
    pub inject_enabled: bool,
    /// Whether unhandled VM exits are offered to the exit filter hook.
    pub vmexit_filter_enabled: bool,
    /// All observed coverage, each record exactly once.
    pub coverage: Vec<CoverageRecord>,
    /// Coverage which has yet to be reported to the server.
    pub pending_coverage: Vec<CoverageRecord>,
    /// Inputs which have yet to be reported to the server.
    pub pending_inputs: Vec<InputRecord>,
    /// Table mapping input hashes to inputs, each hash exactly once.
    pub input_dedup: Vec<InputRecord>,
    /// Inputs which caused coverage; bounded, append-only.
    pub inputs: Vec<Vec<u8>>,
    /// Global statistics for the fuzz cases.
    pub stats: Statistics,
    /// Address to use when communicating with the server.
    pub server_addr: String,
    /// Number of workers handed out.
    pub workers: u64,
    /// "Unique" session identifier.
    pub id: u64,
}

impl FuzzSession {
    /// The session's structures are well-formed: a well-formed master with
    /// an empty hardware log, uniquely keyed coverage and dedup tables, and
    /// the corpus within capacity.
    pub open spec fn wf(&self) -> bool {
        &&& self.master.wf()
        &&& self.master.vm.guest_regs.pml_index == 511
        &&& forall|i: int, j: int|
            0 <= i < j < self.coverage@.len() ==> self.coverage@[i]@ != self.coverage@[j]@
        &&& forall|i: int, j: int|
            0 <= i < j < self.input_dedup@.len() ==> self.input_dedup@[i].hash
                != self.input_dedup@[j].hash
        &&& self.inputs@.len() <= CORPUS_CAPACITY
    }

    /// The configuration half of the session never changes after
    /// construction.
    pub open spec fn same_config(a: &FuzzSession, b: &FuzzSession) -> bool {
        &&& b.master == a.master
        &&& b.timeout == a.timeout
        &&& b.inject_enabled == a.inject_enabled
        &&& b.vmexit_filter_enabled == a.vmexit_filter_enabled
        &&& b.server_addr == a.server_addr
        &&& b.workers == a.workers
        &&& b.id == a.id
    }

    /// Set the timeout for the VMs in microseconds.
    pub fn timeout(self, timeout: u64) -> (r: FuzzSession)
        ensures
            r == (FuzzSession { timeout: Some(timeout), ..self }),
    {
        FuzzSession { timeout: Some(timeout), ..self }
    }

    /// Enable or disable the injection hook, invoked every time the VM is
    /// reset and a new fuzz case is about to begin.
    pub fn inject(self, enabled: bool) -> (r: FuzzSession)
        ensures
            r == (FuzzSession { inject_enabled: enabled, ..self }),
    {
        FuzzSession { inject_enabled: enabled, ..self }
    }

    /// Enable or disable the VM exit filter, offered unhandled exits so the
    /// fuzzer can handle them and re-enter the VM.
    pub fn vmexit_filter(self, enabled: bool) -> (r: FuzzSession)
        ensures
            r == (FuzzSession { vmexit_filter_enabled: enabled, ..self }),
    {
        FuzzSession { vmexit_filter_enabled: enabled, ..self }
    }

    /// The message a worker logs into the server with.
    pub fn login(&self, cpu_id: u64) -> (r: ServerMessage)
        ensures
            r == ServerMessage::Login(self.id, cpu_id),
    {
        ServerMessage::Login(self.id, cpu_id)
    }

    /// Whether the coverage set already holds `cr`.
    fn coverage_contains(&self, cr: &CoverageRecord) -> (r: bool)
        ensures
            r == cov_view(self.coverage@).contains(cr@),
    {
        proof {
            assert(self.coverage.len() == self.coverage@.len());
            lemma_cov_view(self.coverage@);
        }
        let mut i: usize = 0;
        while i < self.coverage.len()
            invariant
                i <= self.coverage@.len() <= usize::MAX,
                forall|k: int| 0 <= k < i ==> self.coverage@[k]@ != cr@,
            decreases self.coverage@.len() - i,
        {
            if records_eq(&self.coverage[i], cr) {
                proof {
                    lemma_cov_view(self.coverage@);
                }
                return true;
            }
            i = i + 1;
        }
        proof {
            lemma_cov_view(self.coverage@);
            if cov_view(self.coverage@).contains(cr@) {
                let k = choose|k: int|
                    0 <= k < self.coverage@.len() && self.coverage@[k]@ == cr@;
            }
        }
        false
    }

    /// Whether the dedup table already holds an input with hash `h`.
    fn dedup_contains(&self, h: u128) -> (r: bool)
        ensures
            r == dedup_view(self.input_dedup@).contains_key(h),
    {
        proof {
            assert(self.input_dedup.len() == self.input_dedup@.len());
        }
        let mut i: usize = 0;
        while i < self.input_dedup.len()
            invariant
                i <= self.input_dedup@.len() <= usize::MAX,
                forall|k: int| 0 <= k < i ==> self.input_dedup@[k].hash != h,
            decreases self.input_dedup@.len() - i,
        {
            if self.input_dedup[i].hash == h {
                proof {
                    lemma_dedup_view(self.input_dedup@);
                }
                return true;
            }
            i = i + 1;
        }
        proof {
            lemma_dedup_view(self.input_dedup@);
            if dedup_view(self.input_dedup@).contains_key(h) {
                let k = choose|k: int|
                    0 <= k < self.input_dedup@.len() && self.input_dedup@[k].hash == h;
            }
        }
        false
    }

    /// Record `input` as new under hash `h`: into the dedup table, the
    /// corpus, and the pending-inputs queue, if the corpus has room.
    fn record_input(&mut self, h: u128, input: &Vec<u8>)
        requires
            old(self).wf(),
            !dedup_view(old(self).input_dedup@).contains_key(h),
        ensures
            final(self).wf(),
            FuzzSession::same_config(old(self), final(self)),
            final(self).coverage == old(self).coverage,
            final(self).pending_coverage == old(self).pending_coverage,
            final(self).stats == old(self).stats,
            old(self).inputs@.len() < CORPUS_CAPACITY ==> {
                &&& dedup_view(final(self).input_dedup@) == dedup_view(
                    old(self).input_dedup@,
                ).insert(h, input@)
                &&& final(self).inputs@.len() == old(self).inputs@.len() + 1
                &&& final(self).inputs@.last()@ == input@
                &&& forall|j: int|
                    0 <= j < old(self).inputs@.len() ==> final(self).inputs@[j]
                        == old(self).inputs@[j]
                &&& final(self).pending_inputs@.len() == old(self).pending_inputs@.len() + 1
                &&& final(self).pending_inputs@.last().hash == h
                &&& final(self).pending_inputs@.last().input@ == input@
                &&& forall|j: int|
                    0 <= j < old(self).pending_inputs@.len() ==> final(self).pending_inputs@[j]
                        == old(self).pending_inputs@[j]
            },
            old(self).inputs@.len() >= CORPUS_CAPACITY ==> *final(self) == *old(self),
    {
        proof {
            assert(self.inputs.len() == self.inputs@.len());
            lemma_dedup_view(self.input_dedup@);
        }
        if self.inputs.len() >= 65536 {
            return ;
        }
        let ghost pre = *self;
        self.input_dedup.push(InputRecord { hash: h, input: clone_bytes(input) });
        self.inputs.push(clone_bytes(input));
        self.pending_inputs.push(InputRecord { hash: h, input: clone_bytes(input) });
        proof {
            assert(self.input_dedup@.drop_last() =~= pre.input_dedup@);
            assert(dedup_view(self.input_dedup@) == dedup_view(pre.input_dedup@).insert(
                h,
                input@,
            ));
            assert forall|i: int, j: int|
                0 <= i < j < self.input_dedup@.len() implies self.input_dedup@[i].hash
                != self.input_dedup@[j].hash by {
                if j == self.input_dedup@.len() - 1 {
                    assert(pre.input_dedup@[i].hash != h) by {
                        if pre.input_dedup@[i].hash == h {
                            assert(dedup_view(pre.input_dedup@).contains_key(h));
                        }
                    }
                }
            }
        }
    }

    /// Report coverage: attempt to insert `cr` into the coverage set.
    ///
    /// If the record is new it is queued for the server, and an
    /// accompanying input, if it is new too (by its digest) and the corpus
    /// has room, enters the dedup table, the corpus, and the pending-inputs
    /// queue. Returns whether the coverage was new.
    pub fn report_coverage(&mut self, input: Option<&Vec<u8>>, cr: &CoverageRecord) -> (r: bool)
        requires
            old(self).wf(),
        ensures
            final(self).wf(),
            FuzzSession::same_config(old(self), final(self)),
            final(self).stats == old(self).stats,
            r == !cov_view(old(self).coverage@).contains(cr@),
            cov_view(final(self).coverage@) == cov_view(old(self).coverage@).insert(cr@),
            !r ==> *final(self) == *old(self),
            r ==> {
                &&& final(self).coverage@.len() == old(self).coverage@.len() + 1
                &&& final(self).pending_coverage@.len() == old(self).pending_coverage@.len()
                    + 1
                &&& final(self).pending_coverage@.last()@ == cr@
                &&& forall|j: int|
                    0 <= j < old(self).pending_coverage@.len()
                        ==> final(self).pending_coverage@[j] == old(self).pending_coverage@[j]
            },
            r ==> match input {
                Some(i) => {
                    let h = spec_hash128(i@);
                    if dedup_view(old(self).input_dedup@).contains_key(h) || old(
                        self,
                    ).inputs@.len() >= CORPUS_CAPACITY {
                        final(self).input_dedup == old(self).input_dedup && final(self).inputs
                            == old(self).inputs && final(self).pending_inputs == old(
                            self,
                        ).pending_inputs
                    } else {
                        &&& dedup_view(final(self).input_dedup@) == dedup_view(
                            old(self).input_dedup@,
                        ).insert(h, i@)
                        &&& final(self).inputs@.len() == old(self).inputs@.len() + 1
                        &&& final(self).inputs@.last()@ == i@
                        &&& final(self).pending_inputs@.len() == old(
                            self,
                        ).pending_inputs@.len() + 1
                        &&& final(self).pending_inputs@.last().hash == h
                        &&& final(self).pending_inputs@.last().input@ == i@
                    }
                },
                None => final(self).input_dedup == old(self).input_dedup && final(self).inputs
                    == old(self).inputs && final(self).pending_inputs == old(
                    self,
                ).pending_inputs,
            },
    {
        if self.coverage_contains(cr) {
            proof {
                assert(cov_view(self.coverage@).insert(cr@) =~= cov_view(self.coverage@));
            }
            return false;
        }
        let ghost pre = *self;
        self.coverage.push(cr.duplicate());
        proof {
            assert(self.coverage@.drop_last() =~= pre.coverage@);
            assert(cov_view(self.coverage@) == cov_view(pre.coverage@).insert(cr@));
            lemma_cov_view(pre.coverage@);
            assert forall|i: int, j: int|
                0 <= i < j < self.coverage@.len() implies self.coverage@[i]@
                != self.coverage@[j]@ by {
                if j == self.coverage@.len() - 1 {
                    assert(pre.coverage@[i]@ != cr@) by {
                        if pre.coverage@[i]@ == cr@ {
                            assert(cov_view(pre.coverage@).contains(cr@));
                        }
                    }
                }
            }
            assert(self.wf());
        }
        // Save the input which caused this new unique coverage.
        match input {
            Some(i) => {
                let h = hash128(i);
                if !self.dedup_contains(h) {
                    self.record_input(h, i);
                }
            },
            None => {},
        }
        // Coverage was new; queue it to be reported to the server.
        self.pending_coverage.push(cr.duplicate());
        true
    }
}

impl Worker {
    /// Get a random existing input from the session corpus.
    pub fn rand_input<'a>(&mut self, session: &'a FuzzSession) -> (r: Option<&'a Vec<u8>>)
        ensures
            final(self).rng.state() == crate::rng::xorshift_step(old(self).rng.state()),
            *final(self) == (Worker { rng: final(self).rng, ..*old(self) }),
            session.inputs@.len() == 0 <==> r is None,
            match r {
                Some(v) => session.inputs@.len() > 0 && *v == session.inputs@[((old(
                    self,
                ).rng.state() as usize) % (session.inputs@.len() as usize)) as int],
                None => true,
            },
    {
        proof {
            assert(session.inputs.len() == session.inputs@.len());
        }
        let inputs = session.inputs.len();
        if inputs > 0 {
            let idx = self.rng.rand() % inputs;
            proof {
                assert(session.inputs@[idx as int] == session.inputs@[idx as int]);
            }
            Some(&session.inputs[idx])
        } else {
            let _ = self.rng.rand();
            None
        }
    }
}

/// The model-specific registers the dispatcher emulates.
pub const IA32_FS_BASE: u32 = 0xc000_0100;

/// See `IA32_FS_BASE`.
pub const IA32_GS_BASE: u32 = 0xc000_0101;

/// See `IA32_FS_BASE`.
pub const IA32_KERNEL_GS_BASE: u32 = 0xc000_0102;

/// A source of guest module lists, parsed out of the guest's own
/// structures by whoever understands the guest's operating system.
pub trait Enlightenment {
    /// Request the module list for the current execution state of the
    /// worker. Reading the guest may fault pages in, but changes nothing a
    /// worker's view of memory can see.
    fn get_module_list(&mut self, worker: &mut Worker, master: &Backing) -> (r: Option<
        Vec<ModuleEntry>,
    >)
        requires
            old(worker).mem_wf(Some(master)),
        ensures
            final(worker).mem_wf(Some(master)),
            Worker::same_non_mem(*old(worker), *final(worker)),
            forall|p: u64|
                #![trigger final(worker).view_at(Some(master), p)]
                final(worker).view_at(Some(master), p) == old(worker).view_at(Some(master), p),
            final(worker).pml@ == old(worker).pml@,
            forall|p: u64| final(worker).dirty_at(p) == old(worker).dirty_at(p),
    ;
}

/// An enlightenment source that knows nothing.
pub struct NoEnlightenment;

impl Enlightenment for NoEnlightenment {
    fn get_module_list(&mut self, worker: &mut Worker, master: &Backing) -> (r: Option<
        Vec<ModuleEntry>,
    >) {
        None
    }
}

/// The callbacks a fuzzer supplies around the fuzz loop.
pub trait CaseHooks {
    /// Invoked once on the master before the session freezes it, to
    /// prepare the target; it may write guest memory and registers but
    /// must leave the page-modification log state alone.
    fn init_master(&mut self, worker: &mut Worker)
        requires
            old(worker).mem_wf(None),
        ensures
            final(worker).mem_wf(None),
            final(worker).backing.vm.guest_regs.pml_index == old(
                worker,
            ).backing.vm.guest_regs.pml_index,
            final(worker).backing.network_mem == old(worker).backing.network_mem,
            final(worker).backing.vm.fxsave@.len() == old(worker).backing.vm.fxsave@.len(),
            final(worker).tail_lo() == old(worker).tail_lo(),
            final(worker).pml@ == old(worker).pml@,
    ;

    /// Invoked every time the VM is reset and a new fuzz case is about to
    /// begin, to inject the mutated input into the guest.
    fn inject(&mut self, worker: &mut Worker, session: &FuzzSession)
        requires
            old(worker).mem_wf(Some(&session.master)),
            session.wf(),
        ensures
            final(worker).mem_wf(Some(&session.master)),
            final(worker).worker_id == old(worker).worker_id,
            final(worker).sync == old(worker).sync,
            final(worker).stats == old(worker).stats,
    ;

    /// Invoked on an unhandled VM exit; returning true means the exit was
    /// handled and the VM may re-enter.
    fn vmexit_filter(&mut self, worker: &mut Worker, session: &mut FuzzSession, vmexit: &VmExit)
        -> (r: bool)
        requires
            old(worker).mem_wf(Some(&old(session).master)),
            old(session).wf(),
        ensures
            final(session).wf(),
            FuzzSession::same_config(old(session), final(session)),
            final(session).stats == old(session).stats,
            forall|x: (Option<Seq<u8>>, u64)|
                cov_view(old(session).coverage@).contains(x) ==> cov_view(
                    final(session).coverage@,
                ).contains(x),
            final(worker).mem_wf(Some(&final(session).master)),
            final(worker).worker_id == old(worker).worker_id,
            final(worker).sync == old(worker).sync,
            final(worker).stats == old(worker).stats,
    ;
}

/// Hooks that do nothing: no master preparation, no injection, no exit
/// filtering.
pub struct NoopHooks;

impl CaseHooks for NoopHooks {
    fn init_master(&mut self, worker: &mut Worker) {
    }

    fn inject(&mut self, worker: &mut Worker, session: &FuzzSession) {
    }

    fn vmexit_filter(&mut self, worker: &mut Worker, session: &mut FuzzSession, vmexit: &VmExit)
        -> (r: bool) {
        false
    }
}

/// Load the master backing a snapshot file describes: the filtered
/// register file over the file's memory regions.
pub fn load_master(contents: &Vec<u8>) -> (r: Result<Backing, SnapshotError>)
    ensures
        match r {
            Ok(b) => {
                &&& crate::snapshot::spec_snapshot_check(contents@) is None
                &&& b.wf()
                &&& b.vm.guest_regs == crate::snapshot::spec_load_regs(contents@, 16)
                &&& b.vm.guest_regs.pml_index == 511
                &&& b.vm.ept@.len() == 0
                &&& b.vm.fxsave@ == contents@.subrange(592, 1104)
                &&& b.network_mem is Some
                &&& b.network_mem->Some_0.memory@ == contents@
                &&& crate::snapshot::region_map_of(b.network_mem->Some_0.regions@)
                    == crate::snapshot::spec_regions_map(
                    contents@,
                    crate::snapshot::REGION_TABLE_OFFSET as int,
                    crate::snapshot::le64(contents@, crate::snapshot::REGION_COUNT_OFFSET as int)
                        as nat,
                )
            },
            Err(e) => crate::snapshot::spec_snapshot_check(contents@) == Some(e),
        },
{
    let snap = match Snapshot::parse(contents) {
        Ok(snap) => snap,
        Err(e) => {
            return Err(e);
        },
    };
    let mut vm = crate::vm::Vm::new();
    vm.guest_regs = snap.regs;
    vm.fxsave = snap.fxsave;
    Ok(Backing { network_mem: Some(NetBacking { memory: snap.memory, regions: snap.regions }), vm })
}

impl FuzzSession {
    /// Create a new empty fuzz session from a snapshot file's contents,
    /// preparing the master through the fuzzer's hook before freezing it.
    pub fn from_falkdump<H: CaseHooks>(
        server: String,
        contents: &Vec<u8>,
        session_id: u64,
        hooks: &mut H,
    ) -> (r: Result<FuzzSession, SnapshotError>)
        ensures
            match r {
                Ok(s) => {
                    &&& crate::snapshot::spec_snapshot_check(contents@) is None
                    &&& s.wf()
                    &&& s.timeout is None
                    &&& !s.inject_enabled
                    &&& !s.vmexit_filter_enabled
                    &&& s.coverage@.len() == 0
                    &&& s.pending_coverage@.len() == 0
                    &&& s.pending_inputs@.len() == 0
                    &&& s.input_dedup@.len() == 0
                    &&& s.inputs@.len() == 0
                    &&& s.stats == Statistics::spec_zero()
                    &&& s.workers == 0
                    &&& s.id == session_id
                    &&& s.master.network_mem is Some
                    &&& s.master.network_mem->Some_0.memory@ == contents@
                    &&& crate::snapshot::region_map_of(s.master.network_mem->Some_0.regions@)
                        == crate::snapshot::spec_regions_map(
                        contents@,
                        crate::snapshot::REGION_TABLE_OFFSET as int,
                        crate::snapshot::le64(
                            contents@,
                            crate::snapshot::REGION_COUNT_OFFSET as int,
                        ) as nat,
                    )
                },
                Err(e) => crate::snapshot::spec_snapshot_check(contents@) == Some(e),
            },
    {
        let master = match load_master(contents) {
            Ok(master) => master,
            Err(e) => {
                return Err(e);
            },
        };
        // Wrap the master in a worker so the preparation hook can use the
        // full guest-memory interface, then keep only the backing.
        let mut master_worker = Worker {
            backing: master,
            rng: crate::rng::Rng::new(0, 0),
            fuzz_input: Vec::new(),
            stats: Statistics::zero(),
            sync: 0,
            worker_id: !0u64,
            module_list: Vec::new(),
            pml: Vec::new(),
            enlightenment: false,
        };
        proof {
            assert(master_worker.pml_tail().len() == 0);
        }
        hooks.init_master(&mut master_worker);
        Ok(
            FuzzSession {
                master: master_worker.backing,
                timeout: None,
                inject_enabled: false,
                vmexit_filter_enabled: false,
                coverage: Vec::new(),
                pending_coverage: Vec::new(),
                pending_inputs: Vec::new(),
                input_dedup: Vec::new(),
                inputs: Vec::new(),
                stats: Statistics::zero(),
                server_addr: server,
                workers: 0,
                id: session_id,
            },
        )
    }

    /// Get a new worker for this fuzz session, forked from the master.
    pub fn worker(&mut self, cpu_id: u64, timestamp: u64) -> (r: Worker)
        requires
            old(self).wf(),
        ensures
            final(self).wf(),
            *final(self) == (FuzzSession {
                workers: old(self).workers.wrapping_add(1),
                ..*old(self)
            }),
            r.mem_wf(Some(&final(self).master)),
            r.worker_id == old(self).workers,
            r.pml@.len() == 0,
            r.tail_lo() == 512,
            r.stats == Statistics::spec_zero(),
            r.sync == 0,
    {
        let worker_id = self.workers;
        self.workers = self.workers.wrapping_add(1);
        let w = Worker::fork(&self.master, worker_id, cpu_id, timestamp);
        proof {
            assert(w.pml_tail().len() == 0);
        }
        w
    }
}

/// How the dispatcher left a VM exit.
#[derive(Clone, Copy, PartialEq, Eq, Structural, Debug)]
pub enum Disposition {
    /// The exit was serviced; the guest may run on.
    Resume,
    /// The exit is not the dispatcher's to service.
    Unhandled,
    /// The exit names a condition the worker cannot continue from.
    Fatal,
}

/// The general-purpose register a control-register move names.
pub open spec fn spec_gpr(g: u8) -> crate::regs::Register {
    if g == 0 {
        Register::Rax
    } else if g == 1 {
        Register::Rcx
    } else if g == 2 {
        Register::Rdx
    } else if g == 3 {
        Register::Rbx
    } else if g == 4 {
        Register::Rsp
    } else if g == 5 {
        Register::Rbp
    } else if g == 6 {
        Register::Rsi
    } else if g == 7 {
        Register::Rdi
    } else if g == 8 {
        Register::R8
    } else if g == 9 {
        Register::R9
    } else if g == 10 {
        Register::R10
    } else if g == 11 {
        Register::R11
    } else if g == 12 {
        Register::R12
    } else if g == 13 {
        Register::R13
    } else if g == 14 {
        Register::R14
    } else {
        Register::R15
    }
}

/// Resolve a 4-bit general-purpose register index.
fn gpr_register(g: u8) -> (r: Option<Register>)
    ensures
        g <= 15 ==> r == Some(spec_gpr(g)),
        g > 15 ==> r is None,
{
    match g {
        0 => Some(Register::Rax),
        1 => Some(Register::Rcx),
        2 => Some(Register::Rdx),
        3 => Some(Register::Rbx),
        4 => Some(Register::Rsp),
        5 => Some(Register::Rbp),
        6 => Some(Register::Rsi),
        7 => Some(Register::Rdi),
        8 => Some(Register::R8),
        9 => Some(Register::R9),
        10 => Some(Register::R10),
        11 => Some(Register::R11),
        12 => Some(Register::R12),
        13 => Some(Register::R13),
        14 => Some(Register::R14),
        15 => Some(Register::R15),
        _ => None,
    }
}

impl Worker {
    /// Whether a module list is registered for context `ctx`.
    fn has_module_list(&self, ctx: u64) -> (r: bool)
        ensures
            r == (crate::worker::find_context(self.module_list@, ctx) is Some),
    {
        proof {
            assert(self.module_list.len() == self.module_list@.len());
            assert(self.module_list@.skip(0) =~= self.module_list@);
        }
        let mut i: usize = 0;
        while i < self.module_list.len()
            invariant
                i <= self.module_list@.len() <= usize::MAX,
                crate::worker::find_context(self.module_list@, ctx)
                    == crate::worker::find_context(self.module_list@.skip(i as int), ctx),
            decreases self.module_list@.len() - i,
        {
            proof {
                assert(self.module_list@.skip(i as int)[0] == self.module_list@[i as int]);
                assert(self.module_list@.skip(i as int).drop_first()
                    =~= self.module_list@.skip(i + 1));
            }
            if self.module_list[i].0 == ctx {
                return true;
            }
            i = i + 1;
        }
        proof {
            assert(self.module_list@.skip(i as int).len() == 0);
        }
        false
    }

    /// Record coverage at the current instruction pointer: resolve it to a
    /// module and offset (consulting enlightenment for a module list if
    /// none is known for this context), and report it with the current
    /// fuzz input.
    fn record_coverage_at_rip<E: Enlightenment>(
        &mut self,
        session: &mut FuzzSession,
        enl: &mut E,
    )
        requires
            old(self).mem_wf(Some(&old(session).master)),
            old(session).wf(),
        ensures
            final(session).wf(),
            FuzzSession::same_config(old(session), final(session)),
            final(session).stats == old(session).stats,
            forall|x: (Option<Seq<u8>>, u64)|
                cov_view(old(session).coverage@).contains(x) ==> cov_view(
                    final(session).coverage@,
                ).contains(x),
            final(self).mem_wf(Some(&final(session).master)),
            forall|p: u64|
                #![trigger final(self).view_at(Some(&final(session).master), p)]
                final(self).view_at(Some(&final(session).master), p) == old(self).view_at(
                    Some(&old(session).master),
                    p,
                ),
            final(self).pml@ == old(self).pml@,
            forall|p: u64| final(self).dirty_at(p) == old(self).dirty_at(p),
            final(self).backing.vm.guest_regs == old(self).backing.vm.guest_regs,
            final(self).worker_id == old(self).worker_id,
            final(self).sync == old(self).sync,
            final(self).stats == old(self).stats,
            final(self).fuzz_input == old(self).fuzz_input,
    {
        let rip = self.reg(Register::Rip);
        let (mut name, mut off) = self.resolve_module(rip);
        if name.is_none() && self.enlightenment {
            let pt = self.context_id();
            if !self.has_module_list(pt) {
                match enl.get_module_list(self, &session.master) {
                    Some(ml) => {
                        let ghost ae = *self;
                        self.set_module_list(pt, ml);
                        proof {
                            assert forall|p: u64|
                                #![trigger self.view_at(Some(&session.master), p)]
                                self.view_at(Some(&session.master), p) == old(self).view_at(
                                Some(&old(session).master),
                                p,
                            ) by {
                                assert(self.backing == ae.backing);
                                assert(ae.view_at(Some(&session.master), p) == old(
                                    self,
                                ).view_at(Some(&session.master), p));
                            }
                            assert forall|p: u64|
                                #![trigger self.dirty_at(p)]
                                self.dirty_at(p) == old(self).dirty_at(p) by {
                                assert(ae.dirty_at(p) == old(self).dirty_at(p));
                            }
                            assert(self.mem_wf(Some(&session.master))) by {
                                assert(ae.mem_wf(Some(&session.master)));
                                assert(self.backing == ae.backing && self.pml == ae.pml);
                            }
                        }
                        let resolved = self.resolve_module(rip);
                        name = resolved.0;
                        off = resolved.1;
                    },
                    None => {},
                }
            }
        }
        proof {
            assert(session.master == old(session).master);
            assert forall|p: u64|
                #![trigger self.view_at(Some(&session.master), p)]
                self.view_at(Some(&session.master), p) == old(self).view_at(
                Some(&old(session).master),
                p,
            ) by {}
        }
        let record = CoverageRecord { module: name, offset: off };
        let ghost w1 = *self;
        let ghost s1 = *session;
        let _ = session.report_coverage(Some(&self.fuzz_input), &record);
        proof {
            assert(session.master == s1.master);
            assert forall|p: u64|
                #![trigger self.view_at(Some(&session.master), p)]
                self.view_at(Some(&session.master), p) == old(self).view_at(
                Some(&old(session).master),
                p,
            ) by {
                assert(w1.view_at(Some(&s1.master), p) == old(self).view_at(
                    Some(&old(session).master),
                    p,
                ));
            }
        }
    }
}

/// A worker's registers changed, everything else as it was.
pub open spec fn regs_only(a: Worker, b: Worker, regs: crate::regs::RegisterFile) -> bool {
    b == Worker {
        backing: Backing {
            vm: crate::vm::Vm { guest_regs: regs, ..a.backing.vm },
            ..a.backing
        },
        ..a
    }
}

impl Worker {
    /// Service one VM exit, as the fuzz loop's dispatcher: emulate what can
    /// be emulated, resolve extended-page-table faults, bank the hardware
    /// log when it fills, record coverage on the preemption timer, and
    /// leave the rest to the caller.
    #[verifier::rlimit(100)]
    #[verifier::spinoff_prover]
    pub fn dispatch_exit<E: Enlightenment>(
        &mut self,
        session: &mut FuzzSession,
        enl: &mut E,
        vmexit: &VmExit,
    ) -> (r: Disposition)
        requires
            old(self).mem_wf(Some(&old(session).master)),
            old(session).wf(),
        ensures
            final(session).wf(),
            FuzzSession::same_config(old(session), final(session)),
            final(session).stats == old(session).stats,
            forall|x: (Option<Seq<u8>>, u64)|
                cov_view(old(session).coverage@).contains(x) ==> cov_view(
                    final(session).coverage@,
                ).contains(x),
            final(self).mem_wf(Some(&final(session).master)),
            final(self).worker_id == old(self).worker_id,
            final(self).sync == old(self).sync,
            final(self).stats == old(self).stats,
            final(self).fuzz_input == old(self).fuzz_input,
            forall|p: u64| old(self).dirty_at(p) ==> final(self).dirty_at(p),
            forall|x: u64|
                old(self).pml@.contains(x) ==> final(self).pml@.contains(x),
            !(vmexit is PreemptionTimer) ==> *final(session) == *old(session),
            match *vmexit {
                VmExit::Rdtsc { inst_len } => r == Disposition::Resume && regs_only(
                    *old(self),
                    *final(self),
                    old(self).backing.vm.guest_regs.spec_set(Register::Rax, 0).spec_set(
                        Register::Rdx,
                        0,
                    ).spec_set(
                        Register::Rip,
                        old(self).backing.vm.guest_regs.rip.wrapping_add(inst_len),
                    ),
                ),
                VmExit::EptViolation { addr, write, .. } => {
                    if old(self).resolvable(Some(&old(session).master), addr) {
                        &&& r == Disposition::Resume
                        &&& forall|p: u64|
                            #![trigger final(self).view_at(Some(&old(session).master), p)]
                            final(self).view_at(Some(&old(session).master), p) == old(
                                self,
                            ).view_at(Some(&old(session).master), p)
                        &&& (write ==> final(self).dirty_at(page_of(addr)) && final(self).pml@
                            == if old(self).dirty_at(page_of(addr)) {
                            old(self).pml@
                        } else {
                            old(self).pml@.push(page_of(addr))
                        })
                        &&& (!write ==> final(self).pml@ == old(self).pml@ && forall|p: u64|
                            final(self).dirty_at(p) == old(self).dirty_at(p))
                    } else {
                        r == Disposition::Unhandled && *final(self) == *old(self)
                    }
                },
                VmExit::PmlFull => r == Disposition::Resume && final(self).pml@ == old(
                    self,
                ).pml@ + old(self).pml_tail() && final(self).pml_tail().len() == 0,
                VmExit::ReadMsr { inst_len } => {
                    let msr = old(self).backing.vm.guest_regs.rcx & 0xffff_ffff;
                    if msr == IA32_FS_BASE as u64 || msr == IA32_GS_BASE as u64 || msr
                        == IA32_KERNEL_GS_BASE as u64 {
                        let val = if msr == IA32_FS_BASE as u64 {
                            old(self).backing.vm.guest_regs.fs_base
                        } else if msr == IA32_GS_BASE as u64 {
                            old(self).backing.vm.guest_regs.gs_base
                        } else {
                            old(self).backing.vm.guest_regs.kernel_gs_base
                        };
                        r == Disposition::Resume && regs_only(
                            *old(self),
                            *final(self),
                            old(self).backing.vm.guest_regs.spec_set(
                                Register::Rax,
                                val & 0xffff_ffff,
                            ).spec_set(Register::Rdx, val >> 32).spec_set(
                                Register::Rip,
                                old(self).backing.vm.guest_regs.rip.wrapping_add(inst_len),
                            ),
                        )
                    } else {
                        r == Disposition::Fatal && *final(self) == *old(self)
                    }
                },
                VmExit::WriteMsr { inst_len } => {
                    let msr = old(self).backing.vm.guest_regs.rcx & 0xffff_ffff;
                    let val = (old(self).backing.vm.guest_regs.rdx << 32) | old(
                        self,
                    ).backing.vm.guest_regs.rax;
                    if msr == IA32_FS_BASE as u64 || msr == IA32_GS_BASE as u64 || msr
                        == IA32_KERNEL_GS_BASE as u64 {
                        let target = if msr == IA32_FS_BASE as u64 {
                            Register::FsBase
                        } else if msr == IA32_GS_BASE as u64 {
                            Register::GsBase
                        } else {
                            Register::KernelGsBase
                        };
                        r == Disposition::Resume && regs_only(
                            *old(self),
                            *final(self),
                            old(self).backing.vm.guest_regs.spec_set(target, val).spec_set(
                                Register::Rip,
                                old(self).backing.vm.guest_regs.rip.wrapping_add(inst_len),
                            ),
                        )
                    } else {
                        r == Disposition::Fatal && *final(self) == *old(self)
                    }
                },
                VmExit::WriteCr { cr, gpr, inst_len } => {
                    if (cr == 0 || cr == 3 || cr == 4) && gpr <= 15 {
                        let val = old(self).backing.vm.guest_regs.spec_get(spec_gpr(gpr));
                        let target = if cr == 0 {
                            Register::Cr0
                        } else if cr == 3 {
                            Register::Cr3
                        } else {
                            Register::Cr4
                        };
                        r == Disposition::Resume && regs_only(
                            *old(self),
                            *final(self),
                            old(self).backing.vm.guest_regs.spec_set(target, val).spec_set(
                                Register::Rip,
                                old(self).backing.vm.guest_regs.rip.wrapping_add(inst_len),
                            ),
                        )
                    } else {
                        r == Disposition::Fatal && *final(self) == *old(self)
                    }
                },
                VmExit::ReadCr { cr, gpr, inst_len } => {
                    if (cr == 0 || cr == 3 || cr == 4) && gpr <= 15 {
                        let val = if cr == 0 {
                            old(self).backing.vm.guest_regs.cr0
                        } else if cr == 3 {
                            old(self).backing.vm.guest_regs.cr3
                        } else {
                            old(self).backing.vm.guest_regs.cr4
                        };
                        r == Disposition::Resume && regs_only(
                            *old(self),
                            *final(self),
                            old(self).backing.vm.guest_regs.spec_set(
                                spec_gpr(gpr),
                                val,
                            ).spec_set(
                                Register::Rip,
                                old(self).backing.vm.guest_regs.rip.wrapping_add(inst_len),
                            ),
                        )
                    } else {
                        r == Disposition::Fatal && *final(self) == *old(self)
                    }
                },
                VmExit::ExternalInterrupt => r == Disposition::Resume && *final(self) == *old(
                    self,
                ),
                VmExit::Exception(e) => {
                    if e == crate::vm::GuestException::Nmi {
                        r == Disposition::Fatal && *final(self) == *old(self)
                    } else {
                        r == Disposition::Unhandled && *final(self) == *old(self)
                    }
                },
                VmExit::PreemptionTimer => r == Disposition::Resume,
                VmExit::Hlt => r == Disposition::Unhandled && *final(self) == *old(self),
                VmExit::Timeout => r == Disposition::Unhandled && *final(self) == *old(self),
            },
    {
        match *vmexit {
            VmExit::Rdtsc { inst_len } => {
                self.set_reg(Register::Rax, 0);
                self.set_reg(Register::Rdx, 0);
                let rip = self.reg(Register::Rip);
                self.set_reg(Register::Rip, rip.wrapping_add(inst_len));
                Disposition::Resume
            },
            VmExit::EptViolation { addr, read, write, execute } => {
                let t = self.translate(Some(&session.master), addr, read, write, execute);
                proof {
                    assert forall|x: u64|
                        old(self).pml@.contains(x) implies self.pml@.contains(x) by {
                        let w = choose|w: int|
                            0 <= w < old(self).pml@.len() && #[trigger] old(self).pml@[w] == x;
                        assert(self.pml@[w] == x);
                    }
                }
                if t.is_some() {
                    Disposition::Resume
                } else {
                    Disposition::Unhandled
                }
            },
            VmExit::PmlFull => {
                // Bank the hardware log into the mirror and reset it.
                self.drain_pml();
                proof {
                    assert_drain_keeps_mem_wf(*old(self), *self, &session.master);
                    assert forall|x: u64|
                        old(self).pml@.contains(x) implies self.pml@.contains(x) by {
                        let w = choose|w: int|
                            0 <= w < old(self).pml@.len() && #[trigger] old(self).pml@[w] == x;
                        assert(self.pml@[w] == x);
                    }
                }
                Disposition::Resume
            },
            VmExit::ExternalInterrupt => {
                // Host interrupt happened; ignore it.
                Disposition::Resume
            },
            VmExit::Exception(e) => {
                if e == crate::vm::GuestException::Nmi {
                    Disposition::Fatal
                } else {
                    Disposition::Unhandled
                }
            },
            VmExit::ReadMsr { inst_len } => {
                let msr = self.reg(Register::Rcx) & 0xffff_ffff;
                let val = if msr == IA32_FS_BASE as u64 {
                    self.reg(Register::FsBase)
                } else if msr == IA32_GS_BASE as u64 {
                    self.reg(Register::GsBase)
                } else if msr == IA32_KERNEL_GS_BASE as u64 {
                    self.reg(Register::KernelGsBase)
                } else {
                    return Disposition::Fatal;
                };
                self.set_reg(Register::Rax, val & 0xffff_ffff);
                self.set_reg(Register::Rdx, val >> 32);
                let rip = self.reg(Register::Rip);
                self.set_reg(Register::Rip, rip.wrapping_add(inst_len));
                Disposition::Resume
            },
            VmExit::WriteMsr { inst_len } => {
                let msr = self.reg(Register::Rcx) & 0xffff_ffff;
                let val = (self.reg(Register::Rdx) << 32) | self.reg(Register::Rax);
                if msr == IA32_FS_BASE as u64 {
                    self.set_reg(Register::FsBase, val);
                } else if msr == IA32_GS_BASE as u64 {
                    self.set_reg(Register::GsBase, val);
                } else if msr == IA32_KERNEL_GS_BASE as u64 {
                    self.set_reg(Register::KernelGsBase, val);
                } else {
                    return Disposition::Fatal;
                }
                let rip = self.reg(Register::Rip);
                self.set_reg(Register::Rip, rip.wrapping_add(inst_len));
                Disposition::Resume
            },
            VmExit::WriteCr { cr, gpr, inst_len } => {
                let src = match gpr_register(gpr) {
                    Some(srcreg) => srcreg,
                    None => {
                        return Disposition::Fatal;
                    },
                };
                let val = self.reg(src);
                if cr == 0 {
                    self.set_reg(Register::Cr0, val);
                } else if cr == 3 {
                    self.set_reg(Register::Cr3, val);
                } else if cr == 4 {
                    self.set_reg(Register::Cr4, val);
                } else {
                    return Disposition::Fatal;
                }
                let rip = self.reg(Register::Rip);
                self.set_reg(Register::Rip, rip.wrapping_add(inst_len));
                Disposition::Resume
            },
            VmExit::ReadCr { cr, gpr, inst_len } => {
                let val = if cr == 0 {
                    self.reg(Register::Cr0)
                } else if cr == 3 {
                    self.reg(Register::Cr3)
                } else if cr == 4 {
                    self.reg(Register::Cr4)
                } else {
                    return Disposition::Fatal;
                };
                let dst = match gpr_register(gpr) {
                    Some(dstreg) => dstreg,
                    None => {
                        return Disposition::Fatal;
                    },
                };
                self.set_reg(dst, val);
                let rip = self.reg(Register::Rip);
                self.set_reg(Register::Rip, rip.wrapping_add(inst_len));
                Disposition::Resume
            },
            VmExit::PreemptionTimer => {
                self.record_coverage_at_rip(session, enl);
                Disposition::Resume
            },
            VmExit::Hlt => Disposition::Unhandled,
            VmExit::Timeout => Disposition::Unhandled,
        }
    }
}

/// Register-only changes keep memory well-formedness as long as the log
/// index is untouched, and the drain's register change sets it to the
/// empty-log value.
proof fn assert_drain_keeps_mem_wf(pre: Worker, post: Worker, master: &Backing)
    requires
        pre.mem_wf(Some(master)),
        post.mem_wf_any(),
        post.pml@ == pre.pml@ + pre.pml_tail(),
        post.backing.vm.ept == pre.backing.vm.ept,
        post.backing.network_mem == pre.backing.network_mem,
    ensures
        post.mem_wf(Some(master)),
{
    assert(post.entries_wf(Some(master))) by {
        assert forall|j: int| 0 <= j < post.backing.vm.ept@.len() implies {
            let e = #[trigger] post.backing.vm.ept@[j];
            &&& (e.dirty ==> e.writable)
            &&& (!e.dirty ==> post.src_view(Some(master), e.gpa) == Some(e.data@))
            &&& post.src_view(Some(master), e.gpa) is Some
            &&& (e.dirty ==> post.logged(e.gpa))
        } by {
            let e = post.backing.vm.ept@[j];
            assert(pre.backing.vm.ept@[j] == e);
            assert(post.src_view(Some(master), e.gpa) == pre.src_view(Some(master), e.gpa));
            if e.dirty {
                assert(pre.logged(e.gpa));
                if pre.pml@.contains(e.gpa) {
                    let w = choose|w: int|
                        0 <= w < pre.pml@.len() && #[trigger] pre.pml@[w] == e.gpa;
                    assert(post.pml@[w] == e.gpa);
                } else {
                    let w = choose|w: int|
                        0 <= w < pre.pml_tail().len() && #[trigger] pre.pml_tail()[w]
                            == e.gpa;
                    assert(post.pml@[pre.pml@.len() + w] == e.gpa);
                }
            }
        }
    }
}

/// How a fuzz case ended.
pub enum CaseEnd {
    /// The case ended with an exit surfaced to the caller.
    Exit(VmExit),
    /// The case hit a condition the worker cannot continue from: an
    /// unexpected machine- or control-register access, an invalid register
    /// index, or a non-maskable interrupt.
    Fatal(VmExit),
}

/// What one fuzz case produced.
pub struct CaseOutcome {
    /// How the case ended.
    pub end: CaseEnd,
    /// How many guest bursts of the script ran to completion and were
    /// resumed before the case ended.
    pub steps: usize,
    /// Whether the statistic-sync interval elapsed on the worker that
    /// speaks to the server, so the caller should exchange state with it.
    pub report_due: bool,
}

/// The absolute deadline a per-case budget sets from the case's start
/// time; no budget means no deadline.
pub open spec fn spec_deadline(timeout: Option<u64>, start: u64) -> u64 {
    match timeout {
        Some(t) => if start + t > u64::MAX {
            u64::MAX
        } else {
            (start + t) as u64
        },
        None => u64::MAX,
    }
}

/// The exit kinds the dispatcher treats as fatal: a machine- or
/// control-register access off the allow list, or a non-maskable
/// interrupt.
pub open spec fn fatal_kind(e: VmExit) -> bool {
    ||| e matches VmExit::ReadMsr { .. }
    ||| e matches VmExit::WriteMsr { .. }
    ||| e matches VmExit::ReadCr { .. }
    ||| e matches VmExit::WriteCr { .. }
    ||| e == VmExit::Exception(crate::vm::GuestException::Nmi)
}

/// Number of microseconds to wait before syncing worker statistics into
/// the session.
pub const STATISTIC_SYNC_INTERVAL: u64 = 100_000;

impl Worker {
    /// Perform a single fuzz case to completion: reset to the master,
    /// inject an input, then drive the scripted guest bursts through the
    /// dispatcher until an exit surfaces, the deadline passes, or the
    /// script runs out (the guest runs forever without exiting). The
    /// hardware log is drained into the mirror at the end, so every page
    /// dirtied during the case is mirrored.
    pub fn fuzz_case<H: CaseHooks, E: Enlightenment>(
        &mut self,
        session: &mut FuzzSession,
        script: &Vec<VmStep>,
        start_time: u64,
        hooks: &mut H,
        enl: &mut E,
    ) -> (r: CaseOutcome)
        requires
            old(self).mem_wf(Some(&old(session).master)),
            old(self).tail_lo() == 512,
            old(session).wf(),
        ensures
            final(session).wf(),
            FuzzSession::same_config(old(session), final(session)),
            final(self).mem_wf(Some(&final(session).master)),
            final(self).tail_lo() == 512,
            final(self).worker_id == old(self).worker_id,
            forall|x: (Option<Seq<u8>>, u64)|
                cov_view(old(session).coverage@).contains(x) ==> cov_view(
                    final(session).coverage@,
                ).contains(x),
            forall|p: u64|
                #![trigger final(self).dirty_at(p)]
                final(self).dirty_at(p) ==> final(self).pml@.contains(p),
            ((final(self).stats.fuzz_cases + final(session).stats.fuzz_cases) % 0x10000000000000000)
                == ((old(self).stats.fuzz_cases + old(session).stats.fuzz_cases + 1)
                % 0x10000000000000000),
            script@.len() == 0 ==> r.end == CaseEnd::Exit(VmExit::Timeout),
            r.steps <= script@.len(),
            ({
                let dl = spec_deadline(old(session).timeout, start_time);
                if r.steps == script@.len() {
                    // Every burst was serviced and resumed; the guest never
                    // surfaced an exit.
                    r.end == CaseEnd::Exit(VmExit::Timeout)
                } else if script@[r.steps as int].now >= dl {
                    // The wall clock passed the deadline before this burst.
                    r.end == CaseEnd::Exit(VmExit::Timeout)
                } else {
                    // This burst's exit surfaced, to the caller or as a
                    // fatal condition.
                    r.end == CaseEnd::Exit(script@[r.steps as int].exit) || r.end
                        == CaseEnd::Fatal(script@[r.steps as int].exit)
                }
            }),
            r.end matches CaseEnd::Fatal(e) ==> fatal_kind(e),
    {
        proof {
            assert(script.len() == script@.len());
        }
        // Reset memory and registers to the master's state.
        self.reset(&session.master);
        // Let the fuzzer inject the mutated input.
        if session.inject_enabled {
            hooks.inject(self, session);
        }
        // Compute the absolute deadline for this case.
        let deadline = match session.timeout {
            Some(t) => start_time.saturating_add(t),
            None => u64::MAX,
        };
        proof {
            assert(deadline == spec_deadline(old(session).timeout, start_time));
        }
        let n = script.len();
        let mut i: usize = 0;
        let mut end_exit: VmExit = VmExit::Timeout;
        let mut fatal: bool = false;
        let mut done: bool = false;
        let mut last_now: u64 = start_time;
        while !done && i < n
            invariant
                i <= n == script@.len(),
                self.mem_wf(Some(&session.master)),
                session.wf(),
                FuzzSession::same_config(old(session), &*session),
                session.stats == old(session).stats,
                forall|x: (Option<Seq<u8>>, u64)|
                    cov_view(old(session).coverage@).contains(x) ==> cov_view(
                        session.coverage@,
                    ).contains(x),
                self.worker_id == old(self).worker_id,
                self.sync == old(self).sync,
                self.stats.fuzz_cases == old(self).stats.fuzz_cases,
                !done ==> end_exit == VmExit::Timeout && !fatal,
                n > 0 || !done,
                deadline == spec_deadline(old(session).timeout, start_time),
                done ==> i < n && (if script@[i as int].now >= deadline {
                    end_exit == VmExit::Timeout && !fatal
                } else {
                    end_exit == script@[i as int].exit
                }),
                fatal ==> fatal_kind(end_exit),
            decreases n - i + (if done {
                0int
            } else {
                1int
            }),
        {
            let step = &script[i];
            if step.now >= deadline {
                // Wall clock past the case's deadline.
                end_exit = VmExit::Timeout;
                done = true;
            } else {
                last_now = step.now;
                let exit = self.apply_step(Some(&session.master), step);
                self.stats.vm_exits = self.stats.vm_exits.wrapping_add(1);
                self.stats.vm_cycles = self.stats.vm_cycles.wrapping_add(step.cycles);
                match self.dispatch_exit(session, enl, &exit) {
                    Disposition::Resume => {
                        i = i + 1;
                    },
                    Disposition::Fatal => {
                        proof {
                            assert(exit != VmExit::PmlFull);
                            assert(exit == script@[i as int].exit);
                            assert(fatal_kind(exit));
                        }
                        end_exit = exit;
                        fatal = true;
                        done = true;
                    },
                    Disposition::Unhandled => {
                        proof {
                            assert(exit != VmExit::PmlFull);
                            assert(exit == script@[i as int].exit);
                        }
                        let handled = if session.vmexit_filter_enabled {
                            hooks.vmexit_filter(self, session, &exit)
                        } else {
                            false
                        };
                        if handled {
                            i = i + 1;
                        } else {
                            end_exit = exit;
                            done = true;
                        }
                    },
                }
            }
        }
        // Bank whatever the hardware logged during the case.
        let ghost predrain = *self;
        self.drain_pml();
        proof {
            assert_drain_keeps_mem_wf(predrain, *self, &session.master);
            assert forall|p: u64|
                #![trigger self.dirty_at(p)]
                self.dirty_at(p) implies self.pml@.contains(p) by {
                crate::vm::lemma_spec_find(self.backing.vm.ept@, p);
                match crate::vm::spec_find(self.backing.vm.ept@, p) {
                    Some(j) => {
                        assert(self.backing.vm.ept@[j].gpa == p);
                        assert(self.backing.vm.ept@[j].dirty);
                        assert(self.logged(p));
                        assert(self.pml_tail().len() == 0);
                    },
                    None => {},
                }
            }
        }
        // Update the case counters, and fold them into the session on the
        // statistic-sync interval.
        let ghost postdrain = *self;
        self.stats.fuzz_cases = self.stats.fuzz_cases.wrapping_add(1);
        self.stats.total_cycles = self.stats.total_cycles.wrapping_add(
            last_now.saturating_sub(start_time),
        );
        let mut report_due = false;
        if last_now >= self.sync {
            self.stats.sync_into(&mut session.stats);
            if self.worker_id == 0 {
                report_due = true;
            }
            self.sync = last_now.saturating_add(STATISTIC_SYNC_INTERVAL);
        }
        proof {
            assert(self.backing == postdrain.backing && self.pml == postdrain.pml);
            assert(self.mem_wf(Some(&session.master)));
            assert(self.tail_lo() == postdrain.tail_lo());
            assert forall|p: u64|
                #![trigger self.dirty_at(p)]
                self.dirty_at(p) implies self.pml@.contains(p) by {
                assert(postdrain.dirty_at(p) == self.dirty_at(p));
                assert(postdrain.pml@ == self.pml@);
            }
        }
        if fatal {
            CaseOutcome { end: CaseEnd::Fatal(end_exit), steps: i, report_due }
        } else {
            CaseOutcome { end: CaseEnd::Exit(end_exit), steps: i, report_due }
        }
    }
}

/// Why a server sync stopped.
#[derive(Clone, Copy, PartialEq, Eq, Structural, Debug)]
pub enum SyncError {
    /// The server sent a message that has no place during a sync.
    UnexpectedMessage,
}

impl FuzzSession {
    /// Build the messages one statistics report sends to the server:
    /// pending inputs, pending coverage (both queues drained), and the
    /// statistics themselves together with the allocator counters the
    /// caller supplies.
    pub fn report_statistics(
        &mut self,
        allocs: u64,
        frees: u64,
        phys_free: u64,
        phys_total: u64,
    ) -> (r: Vec<ServerMessage>)
        requires
            old(self).wf(),
        ensures
            final(self).wf(),
            FuzzSession::same_config(old(self), final(self)),
            final(self).coverage == old(self).coverage,
            final(self).input_dedup == old(self).input_dedup,
            final(self).inputs == old(self).inputs,
            final(self).stats == old(self).stats,
            final(self).pending_inputs@.len() == 0,
            final(self).pending_coverage@.len() == 0,
            ({
                let want_inputs = old(self).pending_inputs@.len() > 0;
                let want_cov = old(self).pending_coverage@.len() > 0;
                &&& r@.len() == 1 + (if want_inputs {
                    1int
                } else {
                    0
                }) + (if want_cov {
                    1int
                } else {
                    0
                })
                &&& r@.last() == (ServerMessage::ReportStatistics {
                    fuzz_cases: old(self).stats.fuzz_cases,
                    total_cycles: old(self).stats.total_cycles,
                    vm_cycles: old(self).stats.vm_cycles,
                    reset_cycles: old(self).stats.reset_cycles,
                    vm_exits: old(self).stats.vm_exits,
                    allocs,
                    frees,
                    phys_free,
                    phys_total,
                })
                &&& (want_inputs ==> (r@[0] matches ServerMessage::Inputs(v) && v@
                    == old(self).pending_inputs@))
                &&& (want_cov ==> (r@[if want_inputs {
                    1int
                } else {
                    0
                }] matches ServerMessage::Coverage(v) && v@ == old(self).pending_coverage@))
            }),
    {
        proof {
            assert(self.pending_inputs.len() == self.pending_inputs@.len());
            assert(self.pending_coverage.len() == self.pending_coverage@.len());
        }
        let mut out: Vec<ServerMessage> = Vec::new();
        if self.pending_inputs.len() > 0 {
            let mut drained: Vec<InputRecord> = Vec::new();
            core::mem::swap(&mut drained, &mut self.pending_inputs);
            out.push(ServerMessage::Inputs(drained));
        }
        if self.pending_coverage.len() > 0 {
            let mut drained: Vec<CoverageRecord> = Vec::new();
            core::mem::swap(&mut drained, &mut self.pending_coverage);
            out.push(ServerMessage::Coverage(drained));
        }
        out.push(
            ServerMessage::ReportStatistics {
                fuzz_cases: self.stats.fuzz_cases,
                total_cycles: self.stats.total_cycles,
                vm_cycles: self.stats.vm_cycles,
                reset_cycles: self.stats.reset_cycles,
                vm_exits: self.stats.vm_exits,
                allocs,
                frees,
                phys_free,
                phys_total,
            },
        );
        out
    }

    /// Handle one message the server sent back during a sync: merge its
    /// coverage and inputs, acknowledge new inputs by queueing them again,
    /// and stop at the sync-complete mark. Anything else is an error.
    ///
    /// Returns whether the sync is complete.
    pub fn handle_server_message(&mut self, msg: ServerMessage) -> (r: Result<bool, SyncError>)
        requires
            old(self).wf(),
        ensures
            final(self).wf(),
            FuzzSession::same_config(old(self), final(self)),
            final(self).stats == old(self).stats,
            forall|x: (Option<Seq<u8>>, u64)|
                cov_view(old(self).coverage@).contains(x) ==> cov_view(
                    final(self).coverage@,
                ).contains(x),
            match msg {
                ServerMessage::SyncComplete => r == Ok::<bool, SyncError>(true) && *final(self)
                    == *old(self),
                ServerMessage::Coverage(_) => r == Ok::<bool, SyncError>(false),
                ServerMessage::Inputs(_) => r == Ok::<bool, SyncError>(false),
                _ => r == Err::<bool, SyncError>(SyncError::UnexpectedMessage) && *final(self)
                    == *old(self),
            },
            (msg matches ServerMessage::Coverage(records) && cov_view(final(self).coverage@)
                == cov_view(old(self).coverage@).union(cov_view(records@))) || !(msg
                matches ServerMessage::Coverage(_)),
            (msg matches ServerMessage::Inputs(inputs) && ({
                let t = spec_absorb_inputs(
                    dedup_view(old(self).input_dedup@),
                    corpus_view(old(self).inputs@),
                    pend_view(old(self).pending_inputs@),
                    pend_view(inputs@),
                    0,
                );
                &&& dedup_view(final(self).input_dedup@) == t.0
                &&& corpus_view(final(self).inputs@) == t.1
                &&& pend_view(final(self).pending_inputs@) == t.2
                &&& final(self).coverage == old(self).coverage
                &&& final(self).pending_coverage == old(self).pending_coverage
            })) || !(msg matches ServerMessage::Inputs(_)),
    {
        match msg {
            ServerMessage::Coverage(records) => {
                proof {
                    assert(records.len() == records@.len());
                    assert(cov_view(records@.subrange(0, 0)) =~= Set::empty());
                    assert(cov_view(self.coverage@).union(cov_view(records@.subrange(0, 0)))
                        =~= cov_view(self.coverage@));
                }
                let mut k: usize = 0;
                while k < records.len()
                    invariant
                        k <= records@.len() <= usize::MAX,
                        self.wf(),
                        FuzzSession::same_config(old(self), &*self),
                        self.stats == old(self).stats,
                        cov_view(self.coverage@) == cov_view(old(self).coverage@).union(
                            cov_view(records@.subrange(0, k as int)),
                        ),
                    decreases records@.len() - k,
                {
                    let ghost pre = *self;
                    let _ = self.report_coverage(None, &records[k]);
                    proof {
                        assert(records@.subrange(0, k + 1).drop_last() =~= records@.subrange(
                            0,
                            k as int,
                        ));
                        assert(records@.subrange(0, k + 1).last() == records@[k as int]);
                        assert(cov_view(self.coverage@) =~= cov_view(old(self).coverage@).union(
                            cov_view(records@.subrange(0, k + 1)),
                        ));
                    }
                    k = k + 1;
                }
                proof {
                    assert(records@.subrange(0, records@.len() as int) =~= records@);
                    assert forall|x: (Option<Seq<u8>>, u64)|
                        cov_view(old(self).coverage@).contains(x) implies cov_view(
                        self.coverage@,
                    ).contains(x) by {}
                }
                Ok(false)
            },
            ServerMessage::Inputs(inputs) => {
                proof {
                    assert(inputs.len() == inputs@.len());
                }
                let ghost full = spec_absorb_inputs(
                    dedup_view(self.input_dedup@),
                    corpus_view(self.inputs@),
                    pend_view(self.pending_inputs@),
                    pend_view(inputs@),
                    0,
                );
                let mut k: usize = 0;
                while k < inputs.len()
                    invariant
                        k <= inputs@.len() <= usize::MAX,
                        self.wf(),
                        FuzzSession::same_config(old(self), &*self),
                        self.stats == old(self).stats,
                        self.coverage == old(self).coverage,
                        self.pending_coverage == old(self).pending_coverage,
                        full == spec_absorb_inputs(
                            dedup_view(self.input_dedup@),
                            corpus_view(self.inputs@),
                            pend_view(self.pending_inputs@),
                            pend_view(inputs@),
                            k as nat,
                        ),
                    decreases inputs@.len() - k,
                {
                    let rec = &inputs[k];
                    let ghost pre = *self;
                    proof {
                        assert(pend_view(inputs@)[k as int] == (rec.hash, rec.input@));
                    }
                    let fresh = !self.dedup_contains(rec.hash);
                    if fresh {
                        self.record_input(rec.hash, &rec.input);
                        proof {
                            if pre.inputs@.len() < CORPUS_CAPACITY {
                                assert(corpus_view(self.inputs@) =~= corpus_view(
                                    pre.inputs@,
                                ).push(rec.input@));
                                assert(pend_view(self.pending_inputs@) =~= pend_view(
                                    pre.pending_inputs@,
                                ).push((rec.hash, rec.input@)));
                            }
                        }
                    }
                    proof {
                        assert(corpus_view(pre.inputs@).len() == pre.inputs@.len());
                    }
                    k = k + 1;
                }
                proof {
                    assert(spec_absorb_inputs(
                        dedup_view(self.input_dedup@),
                        corpus_view(self.inputs@),
                        pend_view(self.pending_inputs@),
                        pend_view(inputs@),
                        k as nat,
                    ) == (
                        dedup_view(self.input_dedup@),
                        corpus_view(self.inputs@),
                        pend_view(self.pending_inputs@),
                    ));
                }
                Ok(false)
            },
            ServerMessage::SyncComplete => Ok(true),
            _ => Err(SyncError::UnexpectedMessage),
        }
    }
}

/// The coverage set only grows: whatever holds every old record holds no
/// fewer records.
pub proof fn lemma_coverage_monotone(pre: Seq<CoverageRecord>, post: Seq<CoverageRecord>)
    requires
        forall|x: (Option<Seq<u8>>, u64)|
            cov_view(pre).contains(x) ==> cov_view(post).contains(x),
    ensures
        cov_view(pre).len() <= cov_view(post).len(),
{
    lemma_cov_view(pre);
    lemma_cov_view(post);
    assert(cov_view(pre).subset_of(cov_view(post)));
    vstd::set_lib::lemma_len_subset(cov_view(pre), cov_view(post));
}

} // verus!
