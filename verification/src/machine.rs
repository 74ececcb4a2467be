//! The replay machine: a reversible in-memory model of a RISC-V hart driven
//! by a finite sequence of retirement events.
//!
//! The machine owns the hart, the sparse memory, the trace and a cursor into
//! it. `step` replays one event forward or backward, detects watchpoint and
//! breakpoint hits, and `run` drives `step` according to the execution mode
//! until a stop reason is produced.

use vstd::prelude::*;

use crate::cpu::{
    cpu_wf, spec_prev_pc, spec_step_cpu, spec_step_event, spec_step_mem, spec_undo_cpu,
    spec_undo_mem, step_accesses, undo_accesses, Cpu, CpuV,
};
use crate::mem_sniffer::{AccessKind, MemAccess, MemSniffer};
use crate::memory::SimpleMemory;
use crate::trace::{
    event_prev_none, event_prev_some, event_wf, strip_prev, trace_prev_none, trace_wf, EventV,
    RetireEvent, XRegWrite, Xlen,
};

verus! {

/// How the machine resumes: a single step, free running, or running while
/// the PC stays inside `[start, end)`.
#[derive(Clone, Copy, Debug, PartialEq, Eq, Structural)]
pub enum ExecMode {
    Step,
    Continue,
    RangeStep(u64, u64),
}

/// Replay direction.
#[derive(Clone, Copy, Debug, PartialEq, Eq, Structural)]
pub enum ExecDir {
    Forwards,
    Backwards,
}

/// Why a resume stopped. `Terminated` reports trace exhaustion going
/// forward; `DoneStep` reports a completed step, the start of the trace
/// going backward, or leaving a range-step window.
#[derive(Clone, Copy, Debug, PartialEq, Eq, Structural)]
pub enum StopReason {
    DoneStep,
    Terminated,
    SwBreak,
    Watch { kind: AccessKind, addr: u64 },
}

/// One tracepoint: collect a snapshot whenever the PC passes `addr` while
/// tracing is on.
#[derive(Clone, Copy, Debug, PartialEq, Eq, Structural)]
pub struct TracepointDef {
    pub number: u64,
    pub addr: u64,
    pub enabled: bool,
}

/// A captured frame: which tracepoint fired and the full hart snapshot.
pub struct TraceFrame {
    pub number: u64,
    pub snapshot: Cpu,
}

/// The model of a captured frame.
pub ghost struct FrameV {
    pub number: u64,
    pub snapshot: CpuV,
}

impl View for TraceFrame {
    type V = FrameV;

    open spec fn view(&self) -> FrameV {
        FrameV { number: self.number, snapshot: self.snapshot@ }
    }
}

pub open spec fn frames_view(s: Seq<TraceFrame>) -> Seq<FrameV> {
    s.map_values(|f: TraceFrame| f@)
}

/// The frames collected when the PC is at `pc`: one per enabled tracepoint
/// at that address, in table order.
pub open spec fn spec_frames(tps: Seq<TracepointDef>, c: CpuV) -> Seq<FrameV> {
    tps.filter(|t: TracepointDef| t.enabled && t.addr == c.pc).map_values(
        |t: TracepointDef| FrameV { number: t.number, snapshot: c },
    )
}

/// The construction-time state the replay is measured against: the initial
/// hart, the initial memory, and the parsed trace.
pub ghost struct InitState {
    pub cpu: CpuV,
    pub mem: Map<u64, u8>,
    pub trace: Seq<EventV>,
}

pub open spec fn init_wf(init: InitState) -> bool {
    &&& cpu_wf(init.cpu)
    &&& init.mem.dom() == Set::<u64>::full()
    &&& trace_wf(init.trace)
    &&& trace_prev_none(init.trace)
}

/// The hart, the memory and the filled-in events after the first `k` events
/// replayed forward from the initial state.
pub open spec fn spec_replay(init: InitState, k: int) -> (CpuV, Map<u64, u8>, Seq<EventV>)
    decreases k,
{
    if k <= 0 {
        (init.cpu, init.mem, Seq::empty())
    } else {
        let (c, m, filled) = spec_replay(init, k - 1);
        let e = init.trace[k - 1];
        (spec_step_cpu(c, e), spec_step_mem(m, e), filled.push(spec_step_event(c, m, e)))
    }
}

/// The stop produced by applying event `i` forward: a watchpoint hit on the
/// store's address wins over a breakpoint on the new PC.
pub open spec fn fwd_trigger(t: Seq<EventV>, bps: Seq<u64>, wps: Seq<u64>, i: int) -> Option<
    StopReason,
> {
    let e = t[i];
    match e.store {
        Some(st) => if wps.contains(st.phys_addr) {
            Some(StopReason::Watch { kind: AccessKind::Write, addr: st.phys_addr })
        } else if bps.contains(e.pc) {
            Some(StopReason::SwBreak)
        } else {
            None
        },
        None => if bps.contains(e.pc) {
            Some(StopReason::SwBreak)
        } else {
            None
        },
    }
}

/// The PC after event `j` has been undone.
pub open spec fn bwd_pc(t: Seq<EventV>, j: int) -> u64 {
    if j == 0 {
        t[0].pc
    } else {
        t[j - 1].pc
    }
}

/// The stop produced by undoing event `j` (the cursor moves from `j + 1`
/// to `j`).
pub open spec fn bwd_trigger(t: Seq<EventV>, bps: Seq<u64>, wps: Seq<u64>, j: int) -> Option<
    StopReason,
> {
    let e = t[j];
    match e.store {
        Some(st) => if wps.contains(st.phys_addr) {
            Some(StopReason::Watch { kind: AccessKind::Write, addr: st.phys_addr })
        } else if bps.contains(bwd_pc(t, j)) {
            Some(StopReason::SwBreak)
        } else {
            None
        },
        None => if bps.contains(bwd_pc(t, j)) {
            Some(StopReason::SwBreak)
        } else {
            None
        },
    }
}

/// "Emulator" for a RISC-V trace file. It reconstructs registers and memory
/// contents from the recording.
pub struct Machine {
    pub xlen: Xlen,
    pub exec_mode: ExecMode,
    pub exec_dir: ExecDir,

    pub cpu: Cpu,
    pub mem: SimpleMemory,

    /// The execution trace being replayed.
    pub trace: Vec<RetireEvent>,
    /// Cursor: index of the next event to apply forward.
    pub trace_index: usize,

    /// The ELF image, served verbatim to the client.
    pub elf: Vec<u8>,
    /// The ELF entry point.
    pub entry: u64,

    pub watchpoints: Vec<u64>,
    pub breakpoints: Vec<u64>,
    /// Open host-I/O handles; `true` marks an open handle onto the ELF.
    pub files: Vec<bool>,

    /// Tracepoint table, sorted by number, one entry per number.
    pub tracepoints: Vec<TracepointDef>,
    pub traceframes: Vec<TraceFrame>,
    pub tracing: bool,
    pub selected_frame: Option<usize>,

    /// The construction-time state, kept as the measure of the replay.
    pub init: Ghost<InitState>,
}

impl Machine {
    /// The current hart agrees with the replay of the cursor prefix; only
    /// the PC may lag at cursor zero, where a backward step has nothing to
    /// rewind it to.
    pub open spec fn cpu_matches(self, c: CpuV) -> bool {
        ||| self.cpu@ == c
        ||| (self.trace_index == 0 && self.init@.trace.len() > 0 && self.cpu@ == CpuV {
            pc: self.init@.trace[0].pc,
            ..c
        })
    }

    /// The machine invariant: the stored trace carries the payload of the
    /// parsed trace, and hart, memory and the replayed prefix are exactly
    /// the forward replay of `trace_index` events from the initial state.
    pub open spec fn inv(self) -> bool {
        let init = self.init@;
        let (c, m, filled) = spec_replay(init, self.trace_index as int);
        &&& init_wf(init)
        &&& self.trace_index <= self.trace@.len()
        &&& init.trace.len() == self.trace@.len()
        &&& (forall|i: int|
            0 <= i < self.trace@.len() ==> strip_prev(#[trigger] self.trace@[i]@) == init.trace[i])
        &&& self.cpu_matches(c)
        &&& self.mem@ == m
        &&& (forall|i: int| 0 <= i < self.trace_index ==> #[trigger] self.trace@[i]@ == filled[i])
    }
}

/// Replay preserves hart well-formedness and memory totality; the filled
/// prefix keeps the payload of the parsed trace with every `prev_value`
/// set; and the PC after `k` events is the PC of the last applied event.
pub proof fn lemma_replay_props(init: InitState, k: int)
    requires
        init_wf(init),
        0 <= k <= init.trace.len(),
    ensures
        ({
            let (c, m, filled) = spec_replay(init, k);
            &&& cpu_wf(c)
            &&& m.dom() == Set::<u64>::full()
            &&& filled.len() == k
            &&& (forall|i: int|
                0 <= i < k ==> strip_prev(#[trigger] filled[i]) == init.trace[i])
            &&& (forall|i: int| 0 <= i < k ==> event_prev_some(#[trigger] filled[i]))
            &&& c.pc == if k == 0 {
                init.cpu.pc
            } else {
                init.trace[k - 1].pc
            }
            &&& c.privilege == init.cpu.privilege
            &&& c.fregs == init.cpu.fregs
            &&& c.csrs == init.cpu.csrs
        }),
    decreases k,
{
    if k > 0 {
        lemma_replay_props(init, k - 1);
        let (c, m, filled) = spec_replay(init, k - 1);
        let e = init.trace[k - 1];
        assert(event_wf(e));
        assert(event_prev_none(e));
        // hart well-formedness is preserved
        match e.xwrite {
            Some(xw) => {
                assert(spec_step_cpu(c, e).xregs.len() == 32);
                assert(spec_step_cpu(c, e).xregs[0] == c.xregs[0]);
            },
            None => {},
        }
        // memory stays total
        crate::cpu::lemma_step_mem_dom(m, e);
        // the filled event keeps the payload
        assert(strip_prev(spec_step_event(c, m, e)) =~= strip_prev(e));
        assert(strip_prev(e) =~= e);
    }
}


/// Whether a `u64` vector holds a value.
pub fn vec_contains_u64(v: &Vec<u64>, x: u64) -> (r: bool)
    ensures
        r == v@.contains(x),
{
    let mut i: usize = 0;
    while i < v.len()
        invariant
            i <= v@.len(),
            forall|j: int| 0 <= j < i ==> v@[j] != x,
        decreases v@.len() - i,
    {
        if v[i] == x {
            proof {
                assert(v@[i as int] == x);
            }
            return true;
        }
        i += 1;
    }
    false
}

impl Machine {
    /// Build a machine directly from its parts. The given hart, memory and
    /// trace become the initial state the replay is measured against.
    pub fn from_parts(
        xlen: Xlen,
        cpu: Cpu,
        mem: SimpleMemory,
        trace: Vec<RetireEvent>,
        elf: Vec<u8>,
        entry: u64,
    ) -> (r: Machine)
        requires
            cpu_wf(cpu@),
            mem@.dom() == Set::<u64>::full(),
            trace_wf(crate::trace::trace_view(trace@)),
            trace_prev_none(crate::trace::trace_view(trace@)),
        ensures
            r.inv(),
            r.init@ == (InitState { cpu: cpu@, mem: mem@, trace: crate::trace::trace_view(trace@) }),
            r.xlen == xlen,
            r.exec_mode is Continue,
            r.exec_dir is Forwards,
            r.cpu == cpu,
            r.mem == mem,
            r.trace == trace,
            r.trace_index == 0,
            r.elf == elf,
            r.entry == entry,
            r.watchpoints@ == Seq::<u64>::empty(),
            r.breakpoints@ == Seq::<u64>::empty(),
            r.files@ == Seq::<bool>::empty(),
            r.tracepoints@ == Seq::<TracepointDef>::empty(),
            r.traceframes@ == Seq::<TraceFrame>::empty(),
            !r.tracing,
            r.selected_frame is None,
    {
        let ghost init = InitState {
            cpu: cpu@,
            mem: mem@,
            trace: crate::trace::trace_view(trace@),
        };
        let r = Machine {
            xlen,
            exec_mode: ExecMode::Continue,
            exec_dir: ExecDir::Forwards,
            cpu,
            mem,
            trace,
            trace_index: 0,
            elf,
            entry,
            watchpoints: Vec::new(),
            breakpoints: Vec::new(),
            files: Vec::new(),
            tracepoints: Vec::new(),
            traceframes: Vec::new(),
            tracing: false,
            selected_frame: None,
            init: Ghost(init),
        };
        proof {
            assert forall|i: int| 0 <= i < r.trace@.len() implies strip_prev(
                #[trigger] r.trace@[i]@,
            ) == init.trace[i] by {
                assert(init.trace[i] == r.trace@[i]@);
                assert(event_prev_none(r.trace@[i]@));
                assert(strip_prev(r.trace@[i]@) =~= r.trace@[i]@);
            }
            assert(r.watchpoints@ =~= Seq::<u64>::empty());
            assert(r.breakpoints@ =~= Seq::<u64>::empty());
            assert(r.files@ =~= Seq::<bool>::empty());
            assert(r.tracepoints@ =~= Seq::<TracepointDef>::empty());
            assert(r.traceframes@ =~= Seq::<TraceFrame>::empty());
        }
        r
    }

    /// Single-step the replay in the current direction. Returns `None` when
    /// nothing stopped it: a breakpoint, a watchpoint, trace exhaustion and
    /// the start of the trace all stop it.
    pub fn step(&mut self) -> (r: Option<StopReason>)
        requires
            old(self).inv(),
        ensures
            final(self).inv(),
            final(self).init == old(self).init,
            final(self).xlen == old(self).xlen,
            final(self).exec_mode == old(self).exec_mode,
            final(self).exec_dir == old(self).exec_dir,
            final(self).elf == old(self).elf,
            final(self).entry == old(self).entry,
            final(self).watchpoints == old(self).watchpoints,
            final(self).breakpoints == old(self).breakpoints,
            final(self).files == old(self).files,
            final(self).tracepoints == old(self).tracepoints,
            final(self).tracing == old(self).tracing,
            final(self).selected_frame == old(self).selected_frame,
            frames_view(final(self).traceframes@) == frames_view(old(self).traceframes@) + (
            if old(self).tracing {
                spec_frames(old(self).tracepoints@, old(self).cpu@)
            } else {
                Seq::<FrameV>::empty()
            }),
            old(self).exec_dir is Forwards ==> {
                if old(self).trace_index == old(self).trace@.len() {
                    &&& r == Some(StopReason::Terminated)
                    &&& final(self).trace_index == old(self).trace_index
                    &&& final(self).cpu == old(self).cpu
                    &&& final(self).mem@ == old(self).mem@
                    &&& final(self).trace@ == old(self).trace@
                } else {
                    &&& final(self).trace_index == old(self).trace_index + 1
                    &&& r == fwd_trigger(
                        old(self).init@.trace,
                        old(self).breakpoints@,
                        old(self).watchpoints@,
                        old(self).trace_index as int,
                    )
                    &&& final(self).cpu@.pc == old(self).init@.trace[old(self).trace_index as int].pc
                }
            },
            old(self).exec_dir is Backwards ==> {
                if old(self).trace_index == 0 {
                    &&& r == Some(StopReason::DoneStep)
                    &&& final(self).trace_index == 0
                    &&& final(self).cpu == old(self).cpu
                    &&& final(self).mem@ == old(self).mem@
                    &&& final(self).trace@ == old(self).trace@
                } else {
                    &&& final(self).trace_index == old(self).trace_index - 1
                    &&& r == bwd_trigger(
                        old(self).init@.trace,
                        old(self).breakpoints@,
                        old(self).watchpoints@,
                        old(self).trace_index - 1,
                    )
                    &&& final(self).cpu@.pc == bwd_pc(
                        old(self).init@.trace,
                        old(self).trace_index - 1,
                    )
                }
            },
    {
        proof {
            lemma_replay_props(self.init@, self.trace_index as int);
        }

        // Tracepoint collection happens at the PC the hart is at now.
        if self.tracing {
            let ghost pre_frames = self.traceframes@;
            let mut ti: usize = 0;
            while ti < self.tracepoints.len()
                invariant
                    ti <= self.tracepoints@.len(),
                    frames_view(self.traceframes@) == frames_view(pre_frames) + spec_frames(
                        self.tracepoints@.take(ti as int),
                        self.cpu@,
                    ),
                    self.xlen == old(self).xlen,
                    self.exec_mode == old(self).exec_mode,
                    self.exec_dir == old(self).exec_dir,
                    self.cpu == old(self).cpu,
                    self.mem == old(self).mem,
                    self.trace == old(self).trace,
                    self.trace_index == old(self).trace_index,
                    self.elf == old(self).elf,
                    self.entry == old(self).entry,
                    self.watchpoints == old(self).watchpoints,
                    self.breakpoints == old(self).breakpoints,
                    self.files == old(self).files,
                    self.tracepoints == old(self).tracepoints,
                    self.tracing == old(self).tracing,
                    self.selected_frame == old(self).selected_frame,
                    self.init == old(self).init,
                decreases self.tracepoints@.len() - ti,
            {
                let tp = self.tracepoints[ti];
                let ghost prefix = self.tracepoints@.take(ti as int);
                let ghost frames_before = self.traceframes@;
                if tp.enabled && tp.addr == self.cpu.pc {
                    let frame = TraceFrame { number: tp.number, snapshot: self.cpu.clone() };
                    self.traceframes.push(frame);
                }
                proof {
                    assert(self.tracepoints@.take(ti + 1) =~= prefix.push(tp));
                    lemma_spec_frames_push(prefix, tp, self.cpu@);
                    if tp.enabled && tp.addr == self.cpu@.pc {
                        assert(frames_view(self.traceframes@) =~= frames_view(frames_before)
                            + seq![FrameV { number: tp.number, snapshot: self.cpu@ }]);
                    } else {
                        assert(frames_view(self.traceframes@) =~= frames_view(frames_before));
                    }
                    assert(frames_view(self.traceframes@) =~= frames_view(pre_frames)
                        + spec_frames(self.tracepoints@.take(ti + 1), self.cpu@));
                }
                ti += 1;
            }
            proof {
                assert(self.tracepoints@.take(self.tracepoints@.len() as int)
                    =~= self.tracepoints@);
            }
        }
        let ghost frames_done = self.traceframes@;

        // Wrap the memory in a sniffer that records each logical access.
        let mut taken = SimpleMemory::new();
        core::mem::swap(&mut taken, &mut self.mem);
        let mut sniffer = MemSniffer::new(taken);

        match self.exec_dir {
            ExecDir::Forwards => {
                if self.trace_index >= self.trace.len() {
                    let parts = sniffer.into_parts();
                    self.mem = parts.0;
                    proof {
                        assert(self.mem@ == old(self).mem@);
                        assert(frames_view(self.traceframes@) == frames_view(
                            old(self).traceframes@,
                        ) + (if old(self).tracing {
                            spec_frames(old(self).tracepoints@, old(self).cpu@)
                        } else {
                            Seq::<FrameV>::empty()
                        }));
                    }
                    return Some(StopReason::Terminated);
                }
                let idx = self.trace_index;
                let mut ev = self.trace[idx].clone();
                let ghost stale = ev@;
                proof {
                    let init = self.init@;
                    let k = idx as int;
                    assert(strip_prev(stale) == init.trace[k]);
                    assert(event_wf(init.trace[k]));
                    assert(event_wf(stale)) by {
                        match stale.xwrite {
                            Some(xw) => {
                                assert(strip_prev(stale).xwrite == Some(
                                    XRegWrite { index: xw.index, value: xw.value, prev_value: None },
                                ));
                            },
                            None => {},
                        }
                    }
                    assert(self.cpu@.xregs.len() == 32);
                }
                self.cpu.step(&mut sniffer, &mut ev);
                self.trace.set(idx, ev);
                self.trace_index = idx + 1;
                proof {
                    let init = self.init@;
                    let k = idx as int;
                    let (c, m, filled) = spec_replay(init, k);
                    assert(event_prev_none(init.trace[k]));
                    assert(strip_prev(init.trace[k]) =~= init.trace[k]);
                    assert(strip_prev(stale) == init.trace[k]);
                    lemma_step_payload(c, m, stale, init.trace[k]);
                    lemma_step_pc_irrelevant(old(self).cpu@, c, m, stale, init.trace[0].pc);
                    assert(strip_prev(spec_step_event(c, m, init.trace[k])) =~= strip_prev(
                        init.trace[k],
                    ));
                    lemma_watch_scan_step(stale, self.watchpoints@);
                    assert(spec_replay(init, k + 1).2 =~= spec_replay(init, k).2.push(
                        spec_step_event(c, m, init.trace[k]),
                    ));
                }
            },
            ExecDir::Backwards => {
                if self.trace_index == 0 {
                    let parts = sniffer.into_parts();
                    self.mem = parts.0;
                    proof {
                        assert(self.mem@ == old(self).mem@);
                    }
                    return Some(StopReason::DoneStep);
                }
                let idx = self.trace_index - 1;
                let ev = self.trace[idx].clone();
                proof {
                    let init = self.init@;
                    let (c1, m1, f1) = spec_replay(init, idx + 1);
                    assert(self.trace@[idx as int]@ == f1[idx as int]);
                    lemma_replay_props(init, idx + 1);
                    assert(event_wf(ev@)) by {
                        assert(strip_prev(ev@) == init.trace[idx as int]);
                        assert(event_wf(init.trace[idx as int]));
                        match ev@.xwrite {
                            Some(xw) => {
                                assert(strip_prev(ev@).xwrite == Some(
                                    XRegWrite { index: xw.index, value: xw.value, prev_value: None },
                                ));
                            },
                            None => {},
                        }
                    }
                    assert(self.cpu@.xregs.len() == 32);
                }
                if idx >= 1 {
                    let prev = self.trace[idx - 1].clone();
                    self.cpu.step_undo(&mut sniffer, &ev, Some(&prev));
                } else {
                    self.cpu.step_undo(&mut sniffer, &ev, None);
                }
                self.trace_index = idx;
                proof {
                    let init = self.init@;
                    let (c1, m1, f1) = spec_replay(init, idx + 1);
                    lemma_replay_props(init, idx + 1);
                    lemma_replay_back(init, idx + 1);
                    assert(event_prev_some(f1[idx as int]));
                    lemma_watch_scan_undo(f1[idx as int], self.watchpoints@);
                    assert(strip_prev(f1[idx as int]) == init.trace[idx as int]);
                }
            },
        }

        let parts = sniffer.into_parts();
        self.mem = parts.0;
        let log = parts.1;

        // A watchpoint fires on the most recent observed access whose
        // address is registered.
        let mut hit: Option<MemAccess> = None;
        let mut li: usize = 0;
        while li < log.len()
            invariant
                li <= log@.len(),
                hit == last_watch_match(log@.take(li as int), self.watchpoints@),
                self.watchpoints@ == old(self).watchpoints@,
            decreases log@.len() - li,
        {
            let acc = log[li];
            if vec_contains_u64(&self.watchpoints, acc.addr) {
                hit = Some(acc);
            }
            proof {
                assert(log@.take(li + 1) =~= log@.take(li as int).push(acc));
                lemma_last_watch_match_push(log@.take(li as int), acc, self.watchpoints@);
            }
            li += 1;
        }
        proof {
            assert(log@.take(log@.len() as int) =~= log@);
        }

        match hit {
            Some(acc) => {
                return Some(StopReason::Watch { kind: acc.kind, addr: acc.addr });
            },
            None => {},
        }

        if vec_contains_u64(&self.breakpoints, self.cpu.pc) {
            return Some(StopReason::SwBreak);
        }

        None
    }
}

/// The most recent access in `log` whose address is in `wps`.
pub open spec fn last_watch_match(log: Seq<MemAccess>, wps: Seq<u64>) -> Option<MemAccess>
    decreases log.len(),
{
    if log.len() == 0 {
        None
    } else if wps.contains(log.last().addr) {
        Some(log.last())
    } else {
        last_watch_match(log.drop_last(), wps)
    }
}

proof fn lemma_last_watch_match_push(log: Seq<MemAccess>, acc: MemAccess, wps: Seq<u64>)
    ensures
        last_watch_match(log.push(acc), wps) == if wps.contains(acc.addr) {
            Some(acc)
        } else {
            last_watch_match(log, wps)
        },
{
    assert(log.push(acc).last() == acc);
    assert(log.push(acc).drop_last() =~= log);
}

/// A forward step reads nothing of the incoming `prev_value` fields: two
/// events with the same payload step the same way.
proof fn lemma_step_payload(c: CpuV, m: Map<u64, u8>, e1: EventV, e2: EventV)
    requires
        strip_prev(e1) == strip_prev(e2),
    ensures
        spec_step_cpu(c, e1) == spec_step_cpu(c, e2),
        spec_step_mem(m, e1) == spec_step_mem(m, e2),
        spec_step_event(c, m, e1) == spec_step_event(c, m, e2),
{
    assert(strip_prev(e1).pc == strip_prev(e2).pc);
    match (e1.xwrite, e2.xwrite) {
        (Some(x1), Some(x2)) => {
            assert(strip_prev(e1).xwrite == Some(XRegWrite { prev_value: None, ..x1 }));
            assert(x1.index == x2.index && x1.value == x2.value);
        },
        (None, None) => {},
        _ => {
            assert(false);
        },
    }
    match (e1.store, e2.store) {
        (Some(s1), Some(s2)) => {
            assert(strip_prev(e1).store == Some(crate::trace::MemWrite {
                prev_value: None,
                ..s1
            }));
            assert(s1.phys_addr == s2.phys_addr && s1.value == s2.value);
        },
        (None, None) => {},
        _ => {
            assert(false);
        },
    }
    assert(spec_step_cpu(c, e1) =~= spec_step_cpu(c, e2));
    assert(spec_step_event(c, m, e1) =~= spec_step_event(c, m, e2));
}

/// The PC of the hart a forward step starts from does not matter.
proof fn lemma_step_pc_irrelevant(actual: CpuV, c: CpuV, m: Map<u64, u8>, e: EventV, p: u64)
    requires
        actual == c || actual == (CpuV { pc: p, ..c }),
    ensures
        spec_step_cpu(actual, e) == spec_step_cpu(c, e),
        spec_step_event(actual, m, e) == spec_step_event(c, m, e),
{
    assert(spec_step_cpu(actual, e) =~= spec_step_cpu(c, e));
    assert(spec_step_event(actual, m, e) =~= spec_step_event(c, m, e));
}

/// Appending a tracepoint to the table appends its frame, if it fires.
proof fn lemma_spec_frames_push(tps: Seq<TracepointDef>, t: TracepointDef, c: CpuV)
    ensures
        spec_frames(tps.push(t), c) == spec_frames(tps, c) + (
        if t.enabled && t.addr == c.pc {
            seq![FrameV { number: t.number, snapshot: c }]
        } else {
            Seq::<FrameV>::empty()
        }),
{
    reveal(Seq::filter);
    let pred = |x: TracepointDef| x.enabled && x.addr == c.pc;
    let f = |x: TracepointDef| FrameV { number: x.number, snapshot: c };
    assert(tps.push(t).drop_last() =~= tps);
    assert(tps.push(t).last() == t);
    if pred(t) {
        assert(tps.push(t).filter(pred) == tps.filter(pred).push(t));
        assert(tps.filter(pred).push(t).map_values(f) =~= tps.filter(pred).map_values(f) + seq![
            FrameV { number: t.number, snapshot: c },
        ]);
    } else {
        assert(tps.push(t).filter(pred) == tps.filter(pred));
        assert(spec_frames(tps, c) + Seq::<FrameV>::empty() =~= spec_frames(tps, c));
    }
}

/// What the watchpoint scan finds after a forward step.
proof fn lemma_watch_scan_step(e: EventV, wps: Seq<u64>)
    ensures
        last_watch_match(step_accesses(e), wps) == (match e.store {
            Some(st) => if wps.contains(st.phys_addr) {
                Some(MemAccess { kind: AccessKind::Write, addr: st.phys_addr })
            } else {
                None
            },
            None => None,
        }),
{
    match e.store {
        Some(st) => {
            let rd = MemAccess { kind: AccessKind::Read, addr: st.phys_addr };
            let wr = MemAccess { kind: AccessKind::Write, addr: st.phys_addr };
            let s = step_accesses(e);
            assert(s =~= seq![rd, wr]);
            assert(s.last() == wr);
            let s1 = s.drop_last();
            assert(s1 =~= seq![rd]);
            assert(s1.last() == rd);
            assert(s1.drop_last() =~= Seq::<MemAccess>::empty());
            assert(last_watch_match(Seq::<MemAccess>::empty(), wps) is None);
            if wps.contains(st.phys_addr) {
                assert(last_watch_match(s, wps) == Some(wr));
            } else {
                assert(last_watch_match(s1, wps) is None);
                assert(last_watch_match(s, wps) is None);
            }
        },
        None => {
            assert(step_accesses(e) =~= Seq::<MemAccess>::empty());
            assert(last_watch_match(Seq::<MemAccess>::empty(), wps) is None);
        },
    }
}

/// What the watchpoint scan finds after a backward step.
proof fn lemma_watch_scan_undo(e: EventV, wps: Seq<u64>)
    requires
        event_prev_some(e),
    ensures
        last_watch_match(undo_accesses(e), wps) == (match e.store {
            Some(st) => if wps.contains(st.phys_addr) {
                Some(MemAccess { kind: AccessKind::Write, addr: st.phys_addr })
            } else {
                None
            },
            None => None,
        }),
{
    match e.store {
        Some(st) => {
            let wr = MemAccess { kind: AccessKind::Write, addr: st.phys_addr };
            let s = undo_accesses(e);
            assert(s =~= seq![wr]);
            assert(s.last() == wr);
            assert(s.drop_last() =~= Seq::<MemAccess>::empty());
            assert(last_watch_match(Seq::<MemAccess>::empty(), wps) is None);
        },
        None => {
            assert(undo_accesses(e) =~= Seq::<MemAccess>::empty());
            assert(last_watch_match(Seq::<MemAccess>::empty(), wps) is None);
        },
    }
}

/// Undoing the last replayed event steps the replay back one prefix, except
/// that at prefix length zero only the PC may disagree with the initial
/// hart.
pub proof fn lemma_replay_back(init: InitState, k: int)
    requires
        init_wf(init),
        1 <= k <= init.trace.len(),
    ensures
        ({
            let (c1, m1, f1) = spec_replay(init, k);
            let (c0, m0, f0) = spec_replay(init, k - 1);
            let prev_pc = if k >= 2 {
                Some(init.trace[k - 2].pc)
            } else {
                None::<u64>
            };
            let cu = spec_undo_cpu(c1, f1[k - 1], prev_pc);
            let mu = spec_undo_mem(m1, f1[k - 1]);
            &&& mu == m0
            &&& (k >= 2 ==> cu == c0)
            &&& (k == 1 ==> cu == (CpuV { pc: init.trace[0].pc, ..c0 }))
        }),
{
    lemma_replay_props(init, k - 1);
    let (c0, m0, f0) = spec_replay(init, k - 1);
    let e = init.trace[k - 1];
    let filled = spec_step_event(c0, m0, e);
    crate::cpu::lemma_step_undo_inverse(c0, m0, e);
    let cu_ref = spec_undo_cpu(spec_step_cpu(c0, e), filled, Some(c0.pc));
    if k >= 2 {
        assert(c0.pc == init.trace[k - 2].pc);
    } else {
        // no previous event: the PC stays at the undone event's PC
        let cu = spec_undo_cpu(spec_step_cpu(c0, e), filled, None::<u64>);
        assert(spec_step_cpu(c0, e).pc == e.pc);
        assert(cu =~= (CpuV { pc: e.pc, ..cu_ref }));
    }
}


/// The stop produced by applying event `i` forward in a range step: leaving
/// `[start, end)` stops with `DoneStep` where nothing else stopped first.
pub open spec fn fwd_range_trigger(
    t: Seq<EventV>,
    bps: Seq<u64>,
    wps: Seq<u64>,
    start: u64,
    end: u64,
    i: int,
) -> Option<StopReason> {
    match fwd_trigger(t, bps, wps, i) {
        Some(r) => Some(r),
        None => if !(start <= t[i].pc < end) {
            Some(StopReason::DoneStep)
        } else {
            None
        },
    }
}

/// The stop produced by undoing event `j` in a range step.
pub open spec fn bwd_range_trigger(
    t: Seq<EventV>,
    bps: Seq<u64>,
    wps: Seq<u64>,
    start: u64,
    end: u64,
    j: int,
) -> Option<StopReason> {
    match bwd_trigger(t, bps, wps, j) {
        Some(r) => Some(r),
        None => if !(start <= bwd_pc(t, j) < end) {
            Some(StopReason::DoneStep)
        } else {
            None
        },
    }
}

/// The first index at or after `from` whose forward application stops a
/// continue, or the trace length if none does.
pub open spec fn first_fwd_stop(t: Seq<EventV>, bps: Seq<u64>, wps: Seq<u64>, from: int) -> int
    decreases t.len() - from,
{
    if from < 0 || from >= t.len() {
        t.len() as int
    } else if fwd_trigger(t, bps, wps, from) is Some {
        from
    } else {
        first_fwd_stop(t, bps, wps, from + 1)
    }
}

pub open spec fn first_fwd_range_stop(
    t: Seq<EventV>,
    bps: Seq<u64>,
    wps: Seq<u64>,
    start: u64,
    end: u64,
    from: int,
) -> int
    decreases t.len() - from,
{
    if from < 0 || from >= t.len() {
        t.len() as int
    } else if fwd_range_trigger(t, bps, wps, start, end, from) is Some {
        from
    } else {
        first_fwd_range_stop(t, bps, wps, start, end, from + 1)
    }
}

/// The cursor a backward continue started at `cur` stops at: the first undo
/// that triggers, or zero.
pub open spec fn first_bwd_stop(t: Seq<EventV>, bps: Seq<u64>, wps: Seq<u64>, cur: int) -> int
    decreases cur,
{
    if cur <= 0 {
        0
    } else if bwd_trigger(t, bps, wps, cur - 1) is Some {
        cur - 1
    } else {
        first_bwd_stop(t, bps, wps, cur - 1)
    }
}

pub open spec fn first_bwd_range_stop(
    t: Seq<EventV>,
    bps: Seq<u64>,
    wps: Seq<u64>,
    start: u64,
    end: u64,
    cur: int,
) -> int
    decreases cur,
{
    if cur <= 0 {
        0
    } else if bwd_range_trigger(t, bps, wps, start, end, cur - 1) is Some {
        cur - 1
    } else {
        first_bwd_range_stop(t, bps, wps, start, end, cur - 1)
    }
}

/// The cursor and the stop reason a `run` started at cursor `c0` ends with.
pub open spec fn run_outcome(
    t: Seq<EventV>,
    bps: Seq<u64>,
    wps: Seq<u64>,
    mode: ExecMode,
    dir: ExecDir,
    c0: int,
) -> (int, StopReason) {
    match mode {
        ExecMode::Step => match dir {
            ExecDir::Forwards => if c0 == t.len() {
                (c0, StopReason::Terminated)
            } else {
                (
                    c0 + 1,
                    match fwd_trigger(t, bps, wps, c0) {
                        Some(r) => r,
                        None => StopReason::DoneStep,
                    },
                )
            },
            ExecDir::Backwards => if c0 == 0 {
                (0, StopReason::DoneStep)
            } else {
                (
                    c0 - 1,
                    match bwd_trigger(t, bps, wps, c0 - 1) {
                        Some(r) => r,
                        None => StopReason::DoneStep,
                    },
                )
            },
        },
        ExecMode::Continue => match dir {
            ExecDir::Forwards => {
                let j = first_fwd_stop(t, bps, wps, c0);
                if j < t.len() {
                    (
                        j + 1,
                        match fwd_trigger(t, bps, wps, j) {
                            Some(r) => r,
                            None => StopReason::DoneStep,
                        },
                    )
                } else {
                    (t.len() as int, StopReason::Terminated)
                }
            },
            ExecDir::Backwards => {
                let s = first_bwd_stop(t, bps, wps, c0);
                if s < c0 && bwd_trigger(t, bps, wps, s) is Some {
                    (
                        s,
                        match bwd_trigger(t, bps, wps, s) {
                            Some(r) => r,
                            None => StopReason::DoneStep,
                        },
                    )
                } else {
                    (0, StopReason::DoneStep)
                }
            },
        },
        ExecMode::RangeStep(start, end) => match dir {
            ExecDir::Forwards => {
                let j = first_fwd_range_stop(t, bps, wps, start, end, c0);
                if j < t.len() {
                    (
                        j + 1,
                        match fwd_range_trigger(t, bps, wps, start, end, j) {
                            Some(r) => r,
                            None => StopReason::DoneStep,
                        },
                    )
                } else {
                    (t.len() as int, StopReason::Terminated)
                }
            },
            ExecDir::Backwards => {
                let s = first_bwd_range_stop(t, bps, wps, start, end, c0);
                if s < c0 && bwd_range_trigger(t, bps, wps, start, end, s) is Some {
                    (
                        s,
                        match bwd_range_trigger(t, bps, wps, start, end, s) {
                            Some(r) => r,
                            None => StopReason::DoneStep,
                        },
                    )
                } else {
                    (0, StopReason::DoneStep)
                }
            },
        },
    }
}


/// The parts of a machine a resume never changes.
pub open spec fn same_config(a: Machine, b: Machine) -> bool {
    &&& a.xlen == b.xlen
    &&& a.exec_mode == b.exec_mode
    &&& a.exec_dir == b.exec_dir
    &&& a.elf == b.elf
    &&& a.entry == b.entry
    &&& a.watchpoints == b.watchpoints
    &&& a.breakpoints == b.breakpoints
    &&& a.files == b.files
    &&& a.tracepoints == b.tracepoints
    &&& a.tracing == b.tracing
    &&& a.selected_frame == b.selected_frame
    &&& a.init == b.init
}

pub proof fn lemma_first_fwd_bounds(t: Seq<EventV>, bps: Seq<u64>, wps: Seq<u64>, from: int)
    requires
        0 <= from <= t.len(),
    ensures
        from <= first_fwd_stop(t, bps, wps, from) <= t.len(),
    decreases t.len() - from,
{
    if from < t.len() && fwd_trigger(t, bps, wps, from) is None {
        lemma_first_fwd_bounds(t, bps, wps, from + 1);
    }
}

pub proof fn lemma_first_fwd_range_bounds(
    t: Seq<EventV>,
    bps: Seq<u64>,
    wps: Seq<u64>,
    start: u64,
    end: u64,
    from: int,
)
    requires
        0 <= from <= t.len(),
    ensures
        from <= first_fwd_range_stop(t, bps, wps, start, end, from) <= t.len(),
    decreases t.len() - from,
{
    if from < t.len() && fwd_range_trigger(t, bps, wps, start, end, from) is None {
        lemma_first_fwd_range_bounds(t, bps, wps, start, end, from + 1);
    }
}

pub proof fn lemma_first_bwd_bounds(t: Seq<EventV>, bps: Seq<u64>, wps: Seq<u64>, cur: int)
    requires
        0 <= cur,
    ensures
        0 <= first_bwd_stop(t, bps, wps, cur) <= cur,
    decreases cur,
{
    if cur > 0 && bwd_trigger(t, bps, wps, cur - 1) is None {
        lemma_first_bwd_bounds(t, bps, wps, cur - 1);
    }
}

pub proof fn lemma_first_bwd_range_bounds(
    t: Seq<EventV>,
    bps: Seq<u64>,
    wps: Seq<u64>,
    start: u64,
    end: u64,
    cur: int,
)
    requires
        0 <= cur,
    ensures
        0 <= first_bwd_range_stop(t, bps, wps, start, end, cur) <= cur,
    decreases cur,
{
    if cur > 0 && bwd_range_trigger(t, bps, wps, start, end, cur - 1) is None {
        lemma_first_bwd_range_bounds(t, bps, wps, start, end, cur - 1);
    }
}

proof fn lemma_prefix_trans(a: Seq<FrameV>, b: Seq<FrameV>, c: Seq<FrameV>)
    requires
        a.is_prefix_of(b),
        b.is_prefix_of(c),
    ensures
        a.is_prefix_of(c),
{
    assert(a =~= c.take(a.len() as int));
}

impl Machine {
    /// Run up to `budget` single steps in accordance with the currently set
    /// execution mode. Returns `None` when the budget ran out before
    /// anything stopped the replay, so a caller can yield and call again.
    pub fn run_burst(&mut self, budget: usize) -> (r: Option<StopReason>)
        requires
            old(self).inv(),
            budget >= 1,
        ensures
            final(self).inv(),
            same_config(*old(self), *final(self)),
            final(self).trace@.len() == old(self).trace@.len(),
            frames_view(old(self).traceframes@).is_prefix_of(
                frames_view(final(self).traceframes@),
            ),
            old(self).exec_mode is Step ==> r is Some,
            old(self).exec_dir is Forwards ==> final(self).trace_index >= old(self).trace_index,
            old(self).exec_dir is Backwards ==> final(self).trace_index <= old(self).trace_index,
            r matches Some(x) ==> ({
                let (ce, reason) = run_outcome(
                    old(self).init@.trace,
                    old(self).breakpoints@,
                    old(self).watchpoints@,
                    old(self).exec_mode,
                    old(self).exec_dir,
                    old(self).trace_index as int,
                );
                final(self).trace_index == ce && x == reason
            }),
            r is None ==> ({
                &&& run_outcome(
                    old(self).init@.trace,
                    old(self).breakpoints@,
                    old(self).watchpoints@,
                    old(self).exec_mode,
                    old(self).exec_dir,
                    final(self).trace_index as int,
                ) == run_outcome(
                    old(self).init@.trace,
                    old(self).breakpoints@,
                    old(self).watchpoints@,
                    old(self).exec_mode,
                    old(self).exec_dir,
                    old(self).trace_index as int,
                )
                &&& (old(self).exec_dir is Forwards ==> final(self).trace_index > old(self).trace_index)
                &&& (old(self).exec_dir is Backwards ==> final(self).trace_index < old(self).trace_index)
            }),
    {
        let ghost t = self.init@.trace;
        let ghost bps = self.breakpoints@;
        let ghost wps = self.watchpoints@;
        let ghost mode = self.exec_mode;
        let ghost dir = self.exec_dir;
        let ghost c0 = self.trace_index as int;

        match self.exec_mode {
            ExecMode::Step => {
                let r = self.step();
                match r {
                    Some(x) => Some(x),
                    None => Some(StopReason::DoneStep),
                }
            },
            ExecMode::Continue => {
                let mut n: usize = 0;
                let mut out: Option<StopReason> = None;
                while n < budget && out.is_none()
                    invariant
                        self.inv(),
                        same_config(*old(self), *self),
                        self.trace@.len() == old(self).trace@.len(),
                        frames_view(old(self).traceframes@).is_prefix_of(
                            frames_view(self.traceframes@),
                        ),
                        n <= budget,
                        mode == self.exec_mode,
                        mode is Continue,
                        dir == self.exec_dir,
                        t == self.init@.trace,
                        bps == self.breakpoints@,
                        wps == self.watchpoints@,
                        c0 == old(self).trace_index as int,
                        dir is Forwards ==> self.trace_index >= c0,
                        dir is Backwards ==> self.trace_index <= c0,
                        out is None ==> run_outcome(t, bps, wps, mode, dir, self.trace_index as int)
                            == run_outcome(t, bps, wps, mode, dir, c0),
                        out is None && dir is Forwards ==> self.trace_index == c0 + n,
                        out is None && dir is Backwards ==> self.trace_index == c0 - n && c0 - n
                            >= 0,
                        out matches Some(x) ==> ({
                            let (ce, reason) = run_outcome(t, bps, wps, mode, dir, c0);
                            self.trace_index == ce && x == reason
                        }),
                    decreases budget - n,
                {
                    let ghost frames_pre = frames_view(self.traceframes@);
                    let ghost cur = self.trace_index as int;
                    let r = self.step();
                    proof {
                        lemma_prefix_trans(
                            frames_view(old(self).traceframes@),
                            frames_pre,
                            frames_view(self.traceframes@),
                        );
                        match dir {
                            ExecDir::Forwards => {
                                if cur < t.len() && fwd_trigger(t, bps, wps, cur) is None {
                                    assert(first_fwd_stop(t, bps, wps, cur) == first_fwd_stop(
                                        t,
                                        bps,
                                        wps,
                                        cur + 1,
                                    ));
                                }
                            },
                            ExecDir::Backwards => {
                                if cur > 0 && bwd_trigger(t, bps, wps, cur - 1) is None {
                                    assert(first_bwd_stop(t, bps, wps, cur) == first_bwd_stop(
                                        t,
                                        bps,
                                        wps,
                                        cur - 1,
                                    ));
                                    lemma_first_bwd_bounds(t, bps, wps, cur - 1);
                                }
                            },
                        }
                    }
                    match r {
                        Some(x) => {
                            out = Some(x);
                            proof {
                                match dir {
                                    ExecDir::Forwards => {
                                        if cur == t.len() {
                                            assert(first_fwd_stop(t, bps, wps, cur) == t.len());
                                        } else {
                                            assert(fwd_trigger(t, bps, wps, cur) == Some(x));
                                            assert(first_fwd_stop(t, bps, wps, cur) == cur);
                                        }
                                    },
                                    ExecDir::Backwards => {
                                        if cur == 0 {
                                            assert(first_bwd_stop(t, bps, wps, 0) == 0);
                                        } else {
                                            assert(bwd_trigger(t, bps, wps, cur - 1) == Some(x));
                                            assert(first_bwd_stop(t, bps, wps, cur) == cur - 1);
                                        }
                                    },
                                }
                            }
                        },
                        None => {},
                    }
                    n += 1;
                }
                out
            },
            ExecMode::RangeStep(start, end) => {
                let mut n: usize = 0;
                let mut out: Option<StopReason> = None;
                while n < budget && out.is_none()
                    invariant
                        self.inv(),
                        same_config(*old(self), *self),
                        self.trace@.len() == old(self).trace@.len(),
                        frames_view(old(self).traceframes@).is_prefix_of(
                            frames_view(self.traceframes@),
                        ),
                        n <= budget,
                        mode == self.exec_mode,
                        dir == self.exec_dir,
                        mode == ExecMode::RangeStep(start, end),
                        t == self.init@.trace,
                        bps == self.breakpoints@,
                        wps == self.watchpoints@,
                        c0 == old(self).trace_index as int,
                        dir is Forwards ==> self.trace_index >= c0,
                        dir is Backwards ==> self.trace_index <= c0,
                        out is None ==> run_outcome(t, bps, wps, mode, dir, self.trace_index as int)
                            == run_outcome(t, bps, wps, mode, dir, c0),
                        out is None && dir is Forwards ==> self.trace_index == c0 + n,
                        out is None && dir is Backwards ==> self.trace_index == c0 - n && c0 - n
                            >= 0,
                        out matches Some(x) ==> ({
                            let (ce, reason) = run_outcome(t, bps, wps, mode, dir, c0);
                            self.trace_index == ce && x == reason
                        }),
                    decreases budget - n,
                {
                    let ghost frames_pre = frames_view(self.traceframes@);
                    let ghost cur = self.trace_index as int;
                    let r = self.step();
                    proof {
                        lemma_prefix_trans(
                            frames_view(old(self).traceframes@),
                            frames_pre,
                            frames_view(self.traceframes@),
                        );
                    }
                    match r {
                        Some(x) => {
                            out = Some(x);
                            proof {
                                match dir {
                                    ExecDir::Forwards => {
                                        if cur == t.len() {
                                            assert(first_fwd_range_stop(t, bps, wps, start, end, cur)
                                                == t.len());
                                        } else {
                                            assert(fwd_trigger(t, bps, wps, cur) == Some(x));
                                            assert(fwd_range_trigger(t, bps, wps, start, end, cur)
                                                == Some(x));
                                            assert(first_fwd_range_stop(t, bps, wps, start, end, cur)
                                                == cur);
                                        }
                                    },
                                    ExecDir::Backwards => {
                                        if cur == 0 {
                                            assert(first_bwd_range_stop(t, bps, wps, start, end, 0)
                                                == 0);
                                        } else {
                                            assert(bwd_trigger(t, bps, wps, cur - 1) == Some(x));
                                            assert(bwd_range_trigger(t, bps, wps, start, end, cur - 1)
                                                == Some(x));
                                            assert(first_bwd_range_stop(t, bps, wps, start, end, cur)
                                                == cur - 1);
                                        }
                                    },
                                }
                            }
                        },
                        None => {
                            let pc = self.cpu.pc;
                            if !(start <= pc && pc < end) {
                                out = Some(StopReason::DoneStep);
                            }
                            proof {
                                match dir {
                                    ExecDir::Forwards => {
                                        assert(pc == t[cur].pc);
                                        if start <= pc && pc < end {
                                            assert(fwd_range_trigger(
                                                t,
                                                bps,
                                                wps,
                                                start,
                                                end,
                                                cur,
                                            ) is None);
                                            assert(first_fwd_range_stop(
                                                t,
                                                bps,
                                                wps,
                                                start,
                                                end,
                                                cur,
                                            ) == first_fwd_range_stop(
                                                t,
                                                bps,
                                                wps,
                                                start,
                                                end,
                                                cur + 1,
                                            ));
                                        } else {
                                            assert(fwd_range_trigger(t, bps, wps, start, end, cur)
                                                == Some(StopReason::DoneStep));
                                            assert(first_fwd_range_stop(
                                                t,
                                                bps,
                                                wps,
                                                start,
                                                end,
                                                cur,
                                            ) == cur);
                                        }
                                    },
                                    ExecDir::Backwards => {
                                        assert(pc == bwd_pc(t, cur - 1));
                                        if start <= pc && pc < end {
                                            assert(bwd_range_trigger(
                                                t,
                                                bps,
                                                wps,
                                                start,
                                                end,
                                                cur - 1,
                                            ) is None);
                                            assert(first_bwd_range_stop(
                                                t,
                                                bps,
                                                wps,
                                                start,
                                                end,
                                                cur,
                                            ) == first_bwd_range_stop(
                                                t,
                                                bps,
                                                wps,
                                                start,
                                                end,
                                                cur - 1,
                                            ));
                                            lemma_first_bwd_range_bounds(
                                                t,
                                                bps,
                                                wps,
                                                start,
                                                end,
                                                cur - 1,
                                            );
                                        } else {
                                            assert(bwd_range_trigger(
                                                t,
                                                bps,
                                                wps,
                                                start,
                                                end,
                                                cur - 1,
                                            ) == Some(StopReason::DoneStep));
                                        }
                                    },
                                }
                            }
                        },
                    }
                    n += 1;
                }
                out
            },
        }
    }

    /// Run the replay in accordance with the currently set execution mode
    /// until something stops it.
    pub fn run(&mut self) -> (r: StopReason)
        requires
            old(self).inv(),
        ensures
            final(self).inv(),
            same_config(*old(self), *final(self)),
            final(self).trace@.len() == old(self).trace@.len(),
            frames_view(old(self).traceframes@).is_prefix_of(
                frames_view(final(self).traceframes@),
            ),
            ({
                let (ce, reason) = run_outcome(
                    old(self).init@.trace,
                    old(self).breakpoints@,
                    old(self).watchpoints@,
                    old(self).exec_mode,
                    old(self).exec_dir,
                    old(self).trace_index as int,
                );
                final(self).trace_index == ce && r == reason
            }),
            (old(self).exec_mode is Continue && old(self).exec_dir is Forwards
                && old(self).trace_index < old(self).trace@.len()) ==> (old(self).trace_index
                < final(self).trace_index <= old(self).trace@.len()),
    {
        let ghost t = self.init@.trace;
        let ghost bps = self.breakpoints@;
        let ghost wps = self.watchpoints@;
        let ghost mode = self.exec_mode;
        let ghost dir = self.exec_dir;
        let ghost c0 = self.trace_index as int;

        let mut out: Option<StopReason> = None;
        while out.is_none()
            invariant
                self.inv(),
                same_config(*old(self), *self),
                self.trace@.len() == old(self).trace@.len(),
                frames_view(old(self).traceframes@).is_prefix_of(frames_view(self.traceframes@)),
                mode == self.exec_mode,
                dir == self.exec_dir,
                t == self.init@.trace,
                bps == self.breakpoints@,
                wps == self.watchpoints@,
                c0 == old(self).trace_index as int,
                self.trace_index <= self.trace@.len(),
                out is None ==> run_outcome(t, bps, wps, mode, dir, self.trace_index as int)
                    == run_outcome(t, bps, wps, mode, dir, c0),
                out matches Some(x) ==> ({
                    let (ce, reason) = run_outcome(t, bps, wps, mode, dir, c0);
                    self.trace_index == ce && x == reason
                }),
            decreases (if dir is Forwards {
                self.trace@.len() - self.trace_index
            } else {
                self.trace_index as int
            }), (if out is None {
                1int
            } else {
                0int
            }),
        {
            let ghost frames_pre = frames_view(self.traceframes@);
            match self.run_burst(1024) {
                Some(x) => {
                    out = Some(x);
                },
                None => {},
            }
            proof {
                lemma_prefix_trans(
                    frames_view(old(self).traceframes@),
                    frames_pre,
                    frames_view(self.traceframes@),
                );
            }
        }
        proof {
            if mode is Continue && dir is Forwards && c0 < t.len() {
                lemma_first_fwd_bounds(t, bps, wps, c0);
            }
        }
        match out {
            Some(x) => x,
            None => {
                proof {
                    assert(false);
                }
                StopReason::DoneStep
            },
        }
    }
}


/// Undo the last `k` of the filled events, newest first, rewinding the PC
/// to the previous event's PC at each step.
pub open spec fn spec_unwind(filled: Seq<EventV>, c: CpuV, m: Map<u64, u8>, k: int) -> (
    CpuV,
    Map<u64, u8>,
)
    decreases k,
{
    if k <= 0 {
        (c, m)
    } else {
        let prev_pc = if k >= 2 {
            Some(filled[k - 2].pc)
        } else {
            None::<u64>
        };
        let c1 = spec_undo_cpu(c, filled[k - 1], prev_pc);
        let m1 = spec_undo_mem(m, filled[k - 1]);
        spec_unwind(filled, c1, m1, k - 1)
    }
}

proof fn lemma_unwind_prefix(f1: Seq<EventV>, f2: Seq<EventV>, c: CpuV, m: Map<u64, u8>, k: int)
    requires
        k <= f1.len(),
        k <= f2.len(),
        forall|i: int| 0 <= i < k ==> f1[i] == f2[i],
    ensures
        spec_unwind(f1, c, m, k) == spec_unwind(f2, c, m, k),
    decreases k,
{
    if k > 0 {
        let prev_pc = if k >= 2 {
            Some(f1[k - 2].pc)
        } else {
            None::<u64>
        };
        let c1 = spec_undo_cpu(c, f1[k - 1], prev_pc);
        let m1 = spec_undo_mem(m, f1[k - 1]);
        lemma_unwind_prefix(f1, f2, c1, m1, k - 1);
    }
}

/// Reversibility: replaying any prefix of the trace forward and then
/// undoing it, newest event first, restores the initial hart and memory bit
/// for bit — except that the PC comes to rest at the first event's PC, the
/// one address backward replay cannot rewind past.
pub proof fn lemma_replay_reversible(init: InitState, k: int)
    requires
        init_wf(init),
        0 <= k <= init.trace.len(),
    ensures
        ({
            let (c, m, filled) = spec_replay(init, k);
            let (cu, mu) = spec_unwind(filled, c, m, k);
            &&& mu == init.mem
            &&& cu.xregs == init.cpu.xregs
            &&& cu.fregs == init.cpu.fregs
            &&& cu.csrs == init.cpu.csrs
            &&& cu.privilege == init.cpu.privilege
            &&& (k == 0 ==> cu == init.cpu)
            &&& (k > 0 ==> cu == (CpuV { pc: init.trace[0].pc, ..init.cpu }))
        }),
    decreases k,
{
    if k > 0 {
        let (c, m, filled) = spec_replay(init, k);
        let (c0, m0, filled0) = spec_replay(init, k - 1);
        lemma_replay_props(init, k - 1);
        lemma_replay_back(init, k);
        let prev_pc = if k >= 2 {
            Some(init.trace[k - 2].pc)
        } else {
            None::<u64>
        };
        assert(filled[k - 1] == spec_step_event(c0, m0, init.trace[k - 1]));
        let c1 = spec_undo_cpu(c, filled[k - 1], prev_pc);
        let m1 = spec_undo_mem(m, filled[k - 1]);
        if k >= 2 {
            assert(c1 == c0 && m1 == m0);
            lemma_unwind_prefix(filled, filled0, c1, m1, k - 1);
            lemma_replay_reversible(init, k - 1);
            assert(spec_unwind(filled0, c0, m0, k - 1) == (
                CpuV { pc: init.trace[0].pc, ..init.cpu },
                init.mem,
            ));
        } else {
            // k == 1: the undo restores everything but leaves the PC at the
            // event's own PC
            assert(m1 == m0);
            assert(c1 == (CpuV { pc: init.trace[0].pc, ..c0 }));
            assert(spec_unwind(filled, c1, m1, 0) == (c1, m1));
        }
    }
}

/// The first index at or after `from` that triggers is found by the scan.
pub proof fn lemma_first_fwd_finds(t: Seq<EventV>, bps: Seq<u64>, wps: Seq<u64>, from: int, i: int)
    requires
        0 <= from <= i < t.len(),
        forall|j: int| from <= j < i ==> fwd_trigger(t, bps, wps, j) is None,
        fwd_trigger(t, bps, wps, i) is Some,
    ensures
        first_fwd_stop(t, bps, wps, from) == i,
    decreases i - from,
{
    if from < i {
        lemma_first_fwd_finds(t, bps, wps, from + 1, i);
    }
}

pub proof fn lemma_first_fwd_range_finds(
    t: Seq<EventV>,
    bps: Seq<u64>,
    wps: Seq<u64>,
    start: u64,
    end: u64,
    from: int,
    i: int,
)
    requires
        0 <= from <= i < t.len(),
        forall|j: int| from <= j < i ==> fwd_range_trigger(t, bps, wps, start, end, j) is None,
        fwd_range_trigger(t, bps, wps, start, end, i) is Some,
    ensures
        first_fwd_range_stop(t, bps, wps, start, end, from) == i,
    decreases i - from,
{
    if from < i {
        lemma_first_fwd_range_finds(t, bps, wps, start, end, from + 1, i);
    }
}

/// Breakpoint law: if event `i` retires at an address in the breakpoint
/// table, no watchpoint fires on it, and nothing stops the run earlier,
/// then a forward continue from any cursor at or before `i` stops with
/// `SwBreak` at cursor `i + 1`: the event has been applied and the PC now
/// equals the breakpoint address.
pub proof fn lemma_breakpoint_fires(
    t: Seq<EventV>,
    bps: Seq<u64>,
    wps: Seq<u64>,
    c0: int,
    i: int,
)
    requires
        0 <= c0 <= i < t.len(),
        bps.contains(t[i].pc),
        t[i].store matches Some(st) ==> !wps.contains(st.phys_addr),
        forall|j: int| c0 <= j < i ==> fwd_trigger(t, bps, wps, j) is None,
    ensures
        run_outcome(t, bps, wps, ExecMode::Continue, ExecDir::Forwards, c0) == (
            i + 1,
            StopReason::SwBreak,
        ),
{
    assert(fwd_trigger(t, bps, wps, i) == Some(StopReason::SwBreak));
    lemma_first_fwd_finds(t, bps, wps, c0, i);
}

/// Watchpoint law: if event `i` stores to an address in the watchpoint
/// table and nothing stops the run earlier, a forward continue from any
/// cursor at or before `i` stops with a write watch at the store's physical
/// address, after event `i` has been applied.
pub proof fn lemma_watchpoint_fires(
    t: Seq<EventV>,
    bps: Seq<u64>,
    wps: Seq<u64>,
    c0: int,
    i: int,
    pa: u64,
)
    requires
        0 <= c0 <= i < t.len(),
        t[i].store matches Some(st) && st.phys_addr == pa,
        wps.contains(pa),
        forall|j: int| c0 <= j < i ==> fwd_trigger(t, bps, wps, j) is None,
    ensures
        run_outcome(t, bps, wps, ExecMode::Continue, ExecDir::Forwards, c0) == (
            i + 1,
            StopReason::Watch { kind: AccessKind::Write, addr: pa },
        ),
{
    assert(fwd_trigger(t, bps, wps, i) == Some(
        StopReason::Watch { kind: AccessKind::Write, addr: pa },
    ));
    lemma_first_fwd_finds(t, bps, wps, c0, i);
}

/// Range-step law: a forward range step over `[start, end)` stops with
/// `DoneStep` right after the first event whose PC leaves the range,
/// provided no breakpoint or watchpoint stops it first; it never stops on
/// an event whose PC stays inside the range.
pub proof fn lemma_range_step_exits(
    t: Seq<EventV>,
    bps: Seq<u64>,
    wps: Seq<u64>,
    start: u64,
    end: u64,
    c0: int,
    i: int,
)
    requires
        0 <= c0 <= i < t.len(),
        !(start <= t[i].pc < end),
        forall|j: int| c0 <= j < i ==> fwd_trigger(t, bps, wps, j) is None,
        forall|j: int| c0 <= j < i ==> start <= #[trigger] t[j].pc < end,
        fwd_trigger(t, bps, wps, i) is None,
    ensures
        run_outcome(t, bps, wps, ExecMode::RangeStep(start, end), ExecDir::Forwards, c0) == (
            i + 1,
            StopReason::DoneStep,
        ),
{
    assert(fwd_range_trigger(t, bps, wps, start, end, i) == Some(StopReason::DoneStep));
    assert forall|j: int| c0 <= j < i implies fwd_range_trigger(
        t,
        bps,
        wps,
        start,
        end,
        j,
    ) is None by {
        assert(start <= t[j].pc < end);
    }
    lemma_first_fwd_range_finds(t, bps, wps, start, end, c0, i);
}

/// X0 invariance: in every reachable machine state, integer register 0
/// reads zero.
pub proof fn lemma_x0_invariant(m: Machine)
    requires
        m.inv(),
    ensures
        m.cpu@.xregs[0] == 0,
{
    lemma_replay_props(m.init@, m.trace_index as int);
}


/// The nearest undo below `c0` that triggers is found by the backward scan.
pub proof fn lemma_first_bwd_finds(t: Seq<EventV>, bps: Seq<u64>, wps: Seq<u64>, c0: int, s: int)
    requires
        0 <= s < c0,
        forall|k: int| s < k < c0 ==> bwd_trigger(t, bps, wps, k) is None,
        bwd_trigger(t, bps, wps, s) is Some,
    ensures
        first_bwd_stop(t, bps, wps, c0) == s,
    decreases c0 - s,
{
    if c0 - 1 > s {
        lemma_first_bwd_finds(t, bps, wps, c0 - 1, s);
    }
}

/// Reverse-continue breakpoint law: undoing events from cursor `c0`, the
/// run stops with `SwBreak` at cursor `j` as soon as the PC rewinds onto a
/// breakpoint address — the state is the one right after event `j` was
/// applied — provided no watchpoint fires on event `j`'s store and nothing
/// stops the run on the way down.
pub proof fn lemma_reverse_breakpoint_fires(
    t: Seq<EventV>,
    bps: Seq<u64>,
    wps: Seq<u64>,
    c0: int,
    j: int,
)
    requires
        0 <= j < c0 <= t.len(),
        bps.contains(bwd_pc(t, j)),
        t[j].store matches Some(st) ==> !wps.contains(st.phys_addr),
        forall|k: int| j < k < c0 ==> bwd_trigger(t, bps, wps, k) is None,
    ensures
        run_outcome(t, bps, wps, ExecMode::Continue, ExecDir::Backwards, c0) == (
            j,
            StopReason::SwBreak,
        ),
{
    assert(bwd_trigger(t, bps, wps, j) == Some(StopReason::SwBreak));
    lemma_first_bwd_finds(t, bps, wps, c0, j);
}

} // verus!
