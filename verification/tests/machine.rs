use tracedbg::cpu::Cpu;
use tracedbg::gdb::{TpAction, WatchKind};
use tracedbg::ibex_trace;
use tracedbg::machine::{Machine, StopReason};
use tracedbg::mem_sniffer::AccessKind;
use tracedbg::memory::SimpleMemory;
use tracedbg::trace::Xlen;

fn machine_from_text(text: &[u8]) -> Machine {
    let trace = ibex_trace::read_trace(text, Xlen::X32).unwrap();
    Machine::from_parts(
        Xlen::X32,
        Cpu::new(),
        SimpleMemory::new(),
        trace,
        Vec::new(),
        0,
    )
}

#[test]
fn one_record_forward_step_inspect() {
    // one event: time=10 cycle=1 pc=0x80 instruction=0x00100093 x1=0x1
    let mut m = machine_from_text(b"10\t1\t80\t00100093\t\t\tx1=0x1");
    let stop = m.step();
    assert!(stop.is_none());
    assert_eq!(m.cpu.pc, 0x80);
    assert_eq!(m.cpu.xregs[1], 1);
    for i in 2..32 {
        assert_eq!(m.cpu.xregs[i], 0);
    }
    assert_eq!(m.cpu.xregs[0], 0);
    assert_eq!(m.trace_index, 1);
    // stepping past the end reports exhaustion and does not move
    let stop = m.step();
    assert_eq!(stop, Some(StopReason::Terminated));
    assert_eq!(m.trace_index, 1);
}

#[test]
fn reversibility_with_a_store() {
    // memory at 0x1000 is initially 0; the event stores 0xAB there (SB)
    let mut m = machine_from_text(b"1\t1\t100\t00100023\t\t\tstore:0xab PA:0x1000");
    assert_eq!(m.read_addrs(0x1000, 1), vec![0u8]);
    let stop = m.step();
    assert!(stop.is_none());
    assert_eq!(m.read_addrs(0x1000, 1), vec![0xabu8]);
    assert_eq!(
        m.trace[0].store.as_ref().unwrap().prev_value,
        Some(tracedbg::trace::Data::U8(0))
    );
    m.reverse_step();
    let stop = m.step();
    assert!(stop.is_none());
    assert_eq!(m.read_addrs(0x1000, 1), vec![0u8]);
    assert_eq!(m.trace_index, 0);
}

#[test]
fn reversibility_over_a_prefix() {
    // forward k steps then backward k steps restores registers and memory
    let text = b"1\t1\t10\t00100023\t\t\tstore:0x11 PA:0x1000 x1=0x5\n\
2\t2\t14\t00100023\t\t\tstore:0x22 PA:0x1000\n\
3\t3\t18\t00100093\t\t\tx1=0x7\n";
    let mut m = machine_from_text(text);
    for _ in 0..3 {
        assert!(m.step().is_none());
    }
    assert_eq!(m.cpu.xregs[1], 7);
    assert_eq!(m.read_addrs(0x1000, 1), vec![0x22u8]);
    m.reverse_step();
    for _ in 0..3 {
        m.step();
    }
    assert_eq!(m.trace_index, 0);
    assert_eq!(m.cpu.xregs[1], 0);
    for i in 0..32 {
        assert_eq!(m.cpu.xregs[i], 0);
    }
    assert_eq!(m.read_addrs(0x1000, 1), vec![0u8]);
    // the PC comes to rest at the first event's PC
    assert_eq!(m.cpu.pc, 0x10);
}

#[test]
fn continue_stops_at_breakpoint() {
    let text = b"1\t1\t10\t13\n2\t2\t14\t13\n3\t3\t18\t13\n4\t4\t1c\t13\n";
    let mut m = machine_from_text(text);
    assert!(m.add_sw_breakpoint(0x18));
    assert!(m.resume(false));
    let stop = m.run();
    assert_eq!(stop, StopReason::SwBreak);
    assert_eq!(m.trace_index, 3);
    assert_eq!(m.cpu.pc, 0x18);
}

#[test]
fn continue_with_signal_is_refused() {
    let text = b"1\t1\t10\t13\n";
    let mut m = machine_from_text(text);
    assert!(!m.resume(true));
    assert!(!m.single_step(true));
}

#[test]
fn watchpoint_fires_on_store_address() {
    let text = b"1\t1\t10\t13\n2\t2\t14\t00100023\t\t\tstore:0xab PA:0x1002\n3\t3\t18\t13\n";
    let mut m = machine_from_text(text);
    // watchpoint over [0x1000, 0x1000 + 4)
    assert!(m.add_hw_watchpoint(0x1000, 4, WatchKind::Write));
    assert!(m.resume(false));
    let stop = m.run();
    assert_eq!(
        stop,
        StopReason::Watch { kind: AccessKind::Write, addr: 0x1002 }
    );
    assert_eq!(m.trace_index, 2);
}

#[test]
fn range_step_exits_the_range() {
    // events with PCs 0x10, 0x14, 0x18, 0x80; RangeStep(0x10, 0x20)
    let text = b"1\t1\t10\t13\n2\t2\t14\t13\n3\t3\t18\t13\n4\t4\t80\t13\n";
    let mut m = machine_from_text(text);
    m.resume_range_step(0x10, 0x20);
    let stop = m.run();
    assert_eq!(stop, StopReason::DoneStep);
    assert_eq!(m.trace_index, 4);
    assert_eq!(m.cpu.pc, 0x80);
}

#[test]
fn reverse_continue_past_a_breakpoint() {
    // 5 events; breakpoint at the PC of event 2 (zero-based)
    let text = b"1\t1\t10\t13\n2\t2\t14\t13\n3\t3\t18\t13\n4\t4\t1c\t13\n5\t5\t20\t13\n";
    let mut m = machine_from_text(text);
    assert!(m.resume(false));
    assert_eq!(m.run(), StopReason::Terminated);
    assert_eq!(m.trace_index, 5);
    assert!(m.add_sw_breakpoint(0x18));
    m.reverse_cont();
    let stop = m.run();
    assert_eq!(stop, StopReason::SwBreak);
    assert_eq!(m.trace_index, 3);
    assert_eq!(m.cpu.pc, 0x18);
}

#[test]
fn plain_continue_after_reverse_goes_forward() {
    // a signal-free continue always resumes forward, even after a reverse run
    let text = b"1	1	10	13
2	2	14	13
3	3	18	13
";
    let mut m = machine_from_text(text);
    assert!(m.resume(false));
    assert_eq!(m.run(), StopReason::Terminated);
    m.reverse_cont();
    assert_eq!(m.run(), StopReason::DoneStep);
    assert_eq!(m.trace_index, 0);
    assert!(m.resume(false));
    assert_eq!(m.run(), StopReason::Terminated);
    assert_eq!(m.trace_index, 3);
}

#[test]
fn reverse_continue_runs_to_the_start() {
    let text = b"1\t1\t10\t13\n2\t2\t14\t13\n";
    let mut m = machine_from_text(text);
    assert!(m.resume(false));
    m.run();
    m.reverse_cont();
    let stop = m.run();
    assert_eq!(stop, StopReason::DoneStep);
    assert_eq!(m.trace_index, 0);
}

#[test]
fn run_burst_yields_and_resumes() {
    let text = b"1\t1\t10\t13\n2\t2\t14\t13\n3\t3\t18\t13\n4\t4\t1c\t13\n";
    let mut m = machine_from_text(text);
    assert!(m.resume(false));
    assert_eq!(m.run_burst(2), None);
    assert_eq!(m.trace_index, 2);
    assert_eq!(m.run_burst(1024), Some(StopReason::Terminated));
    assert_eq!(m.trace_index, 4);
}

#[test]
fn x0_stays_zero_through_replay() {
    let text = b"1\t1\t10\t13\t\t\tx1=0xff\n2\t2\t14\t13\t\t\tx2=0x7\n";
    let mut m = machine_from_text(text);
    assert!(m.resume(false));
    m.run();
    assert_eq!(m.cpu.xregs[0], 0);
    m.reverse_cont();
    m.run();
    assert_eq!(m.cpu.xregs[0], 0);
}

#[test]
fn breakpoint_add_remove_semantics() {
    let mut m = machine_from_text(b"1\t1\t10\t13\n");
    assert!(m.add_sw_breakpoint(0x10));
    assert!(m.add_sw_breakpoint(0x10));
    assert!(m.remove_sw_breakpoint(0x10));
    assert!(m.remove_sw_breakpoint(0x10));
    assert!(!m.remove_sw_breakpoint(0x10));
    assert!(!m.remove_sw_breakpoint(0x999));
}

#[test]
fn watchpoint_remove_per_byte() {
    let mut m = machine_from_text(b"1\t1\t10\t13\n");
    assert!(m.add_hw_watchpoint(0x100, 2, WatchKind::ReadWrite));
    assert!(m.remove_hw_watchpoint(0x100, 2, WatchKind::ReadWrite));
    // nothing left to remove
    assert!(!m.remove_hw_watchpoint(0x100, 2, WatchKind::ReadWrite));
}

#[test]
fn tracepoints_capture_frames() {
    let text = b"1\t1\t10\t13\n2\t2\t14\t13\t\t\tx1=0x5\n3\t3\t18\t13\n";
    let mut m = machine_from_text(text);
    m.tracepoint_define(1, 0x14, true);
    m.set_tracing(true);
    assert!(m.resume(false));
    m.run();
    // the tracepoint fired when the hart sat at 0x14, before event 2 applied
    assert_eq!(m.traceframes_len(), 1);
    assert_eq!(m.traceframe_info(0), Some((1, 0x14)));
    // a selected frame serves register reads from the snapshot
    m.select_frame(Some(0));
    let (pc, xregs) = m.read_registers();
    assert_eq!(pc, 0x14);
    assert_eq!(xregs[1], 5);
    // memory reads in frame mode are empty
    assert_eq!(m.read_addrs(0, 4), Vec::<u8>::new());
    m.select_frame(None);
    let (pc, _) = m.read_registers();
    assert_eq!(pc, 0x18);
}

#[test]
fn tracepoint_actions_validation() {
    let m = machine_from_text(b"1\t1\t10\t13\n");
    assert!(m.tracepoint_actions_ok(&vec![TpAction::CollectRegisters]));
    assert!(m.tracepoint_actions_ok(&Vec::new()));
    assert!(!m.tracepoint_actions_ok(&vec![
        TpAction::CollectRegisters,
        TpAction::CollectMemory
    ]));
}

#[test]
fn writes_are_refused() {
    let m = machine_from_text(b"1\t1\t10\t13\n");
    assert!(!m.write_registers());
    assert!(!m.write_register());
    assert!(!m.write_addrs());
}
