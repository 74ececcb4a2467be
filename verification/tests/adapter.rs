use tracedbg::buffered_connection::BufferedConnection;
use tracedbg::cpu::Cpu;
use tracedbg::gdb::{riscv_regid_from_raw_id, RegId, copy_range_to_buf, copy_to_buf};
use tracedbg::ibex_trace;
use tracedbg::machine::Machine;
use tracedbg::memory::SimpleMemory;
use tracedbg::trace::Xlen;

fn push_u16(v: &mut Vec<u8>, x: u16) {
    v.extend_from_slice(&x.to_le_bytes());
}

fn push_u32(v: &mut Vec<u8>, x: u32) {
    v.extend_from_slice(&x.to_le_bytes());
}

/// A minimal 32-bit little-endian RISC-V ELF: one allocated PROGBITS
/// section of four bytes at virtual address 0x1000, entry point 0x80.
fn minimal_elf() -> Vec<u8> {
    let mut e: Vec<u8> = Vec::new();
    // e_ident
    e.extend_from_slice(&[0x7f, b'E', b'L', b'F', 1, 1, 1, 0, 0, 0, 0, 0, 0, 0, 0, 0]);
    push_u16(&mut e, 2); // e_type: EXEC
    push_u16(&mut e, 243); // e_machine: RISC-V
    push_u32(&mut e, 1); // e_version
    push_u32(&mut e, 0x80); // e_entry
    push_u32(&mut e, 0); // e_phoff
    push_u32(&mut e, 52); // e_shoff
    push_u32(&mut e, 0); // e_flags
    push_u16(&mut e, 52); // e_ehsize
    push_u16(&mut e, 0); // e_phentsize
    push_u16(&mut e, 0); // e_phnum
    push_u16(&mut e, 40); // e_shentsize
    push_u16(&mut e, 2); // e_shnum
    push_u16(&mut e, 0); // e_shstrndx
    assert_eq!(e.len(), 52);
    // section header 0: null
    for _ in 0..40 {
        e.push(0);
    }
    // section header 1: PROGBITS, ALLOC, addr 0x1000, offset 132, size 4
    push_u32(&mut e, 0); // sh_name
    push_u32(&mut e, 1); // sh_type: PROGBITS
    push_u32(&mut e, 2); // sh_flags: ALLOC
    push_u32(&mut e, 0x1000); // sh_addr
    push_u32(&mut e, 132); // sh_offset
    push_u32(&mut e, 4); // sh_size
    push_u32(&mut e, 0); // sh_link
    push_u32(&mut e, 0); // sh_info
    push_u32(&mut e, 0); // sh_addralign
    push_u32(&mut e, 0); // sh_entsize
    assert_eq!(e.len(), 132);
    e.extend_from_slice(&[0xde, 0xad, 0xbe, 0xef]);
    e
}

#[test]
fn machine_new_loads_the_image() {
    let elf = minimal_elf();
    let m = Machine::new(elf, Vec::new()).unwrap();
    assert_eq!(m.xlen, Xlen::X32);
    assert_eq!(m.entry, 0x80);
    assert_eq!(m.cpu.pc, 0x80);
    assert_eq!(m.read_addrs(0x1000, 4), vec![0xde, 0xad, 0xbe, 0xef]);
    // unwritten bytes read as zero
    assert_eq!(m.read_addrs(0x2000, 2), vec![0, 0]);
}

#[test]
fn machine_new_rejects_big_endian() {
    let mut elf = minimal_elf();
    elf[5] = 2; // EI_DATA: big-endian
    assert!(Machine::new(elf, Vec::new()).is_err());
}

#[test]
fn restart_gives_identical_initial_state() {
    // two machines from the same image and trace observe the same state
    let trace_text = b"10\t1\t80\t13\t\t\tx3=0x9\n";
    let t1 = ibex_trace::read_trace(trace_text, Xlen::X32).unwrap();
    let t2 = ibex_trace::read_trace(trace_text, Xlen::X32).unwrap();
    let a = Machine::new(minimal_elf(), t1).unwrap();
    let b = Machine::new(minimal_elf(), t2).unwrap();
    assert_eq!(a.cpu.pc, b.cpu.pc);
    assert_eq!(a.cpu.xregs, b.cpu.xregs);
    assert_eq!(a.read_addrs(0x1000, 4), b.read_addrs(0x1000, 4));
    assert_eq!(a.trace_index, b.trace_index);
}

#[test]
fn auxv_reports_the_entry_point() {
    let trace = Vec::new();
    let m = Machine::from_parts(
        Xlen::X32,
        Cpu::new(),
        SimpleMemory::new(),
        trace,
        Vec::new(),
        0x80,
    );
    let mut buf = vec![0u8; 16];
    let n = m.get_auxv(0, 16, &mut buf);
    assert_eq!(n, 16);
    // (AT_ENTRY = 9, 0x80), (AT_NULL = 0, 0) as 32-bit LE words
    assert_eq!(
        buf,
        vec![9, 0, 0, 0, 0x80, 0, 0, 0, 0, 0, 0, 0, 0, 0, 0, 0]
    );
}

#[test]
fn exec_file_is_the_pseudo_path() {
    let m = Machine::from_parts(
        Xlen::X32,
        Cpu::new(),
        SimpleMemory::new(),
        Vec::new(),
        Vec::new(),
        0,
    );
    let mut buf = vec![0u8; 9];
    let n = m.get_exec_file(0, 9, &mut buf);
    assert_eq!(n, 9);
    assert_eq!(&buf, b"/test.elf");
    // an offset into the name works too
    let mut buf = vec![0u8; 4];
    let n = m.get_exec_file(1, 4, &mut buf);
    assert_eq!(n, 4);
    assert_eq!(&buf, b"test");
}

#[test]
fn single_register_reads() {
    let text = b"1\t1\t80\t13\t\t\tx7=0x1234\n";
    let trace = ibex_trace::read_trace(text, Xlen::X32).unwrap();
    let mut m = Machine::from_parts(
        Xlen::X32,
        Cpu::new(),
        SimpleMemory::new(),
        trace,
        Vec::new(),
        0,
    );
    m.step();
    assert_eq!(m.read_register(RegId::Gpr(7)).unwrap(), vec![0x34, 0x12, 0, 0]);
    assert_eq!(m.read_register(RegId::Pc).unwrap(), vec![0x80, 0, 0, 0]);
    // privilege starts in machine mode, encoded as 3
    assert_eq!(m.read_register(RegId::Priv).unwrap(), vec![3]);
    // an unknown CSR is refused
    assert!(m.read_register(RegId::Csr(0x300)).is_none());
}

#[test]
fn regid_mapping() {
    assert_eq!(
        riscv_regid_from_raw_id(0, Xlen::X64),
        Some((RegId::Gpr(0), 8))
    );
    assert_eq!(riscv_regid_from_raw_id(32, Xlen::X32), Some((RegId::Pc, 4)));
    assert_eq!(
        riscv_regid_from_raw_id(33, Xlen::X32),
        Some((RegId::Fpr(0), 4))
    );
    assert_eq!(
        riscv_regid_from_raw_id(65, Xlen::X32),
        Some((RegId::Csr(0), 4))
    );
    assert_eq!(
        riscv_regid_from_raw_id(4161, Xlen::X64),
        Some((RegId::Priv, 1))
    );
    assert_eq!(riscv_regid_from_raw_id(4162, Xlen::X64), None);
}

#[test]
fn register_info_entries() {
    let m = Machine::from_parts(
        Xlen::X32,
        Cpu::new(),
        SimpleMemory::new(),
        Vec::new(),
        Vec::new(),
        0,
    );
    let x0 = m.lldb_register_info(0).unwrap();
    assert_eq!(x0.name, b"x0".to_vec());
    assert_eq!(x0.bitsize, 32);
    assert_eq!(x0.offset, 0);
    assert_eq!(x0.dwarf, 0);
    let x31 = m.lldb_register_info(31).unwrap();
    assert_eq!(x31.name, b"x31".to_vec());
    assert_eq!(x31.offset, 31 * 4);
    let pc = m.lldb_register_info(32).unwrap();
    assert_eq!(pc.name, b"unknown".to_vec());
    assert_eq!(pc.bitsize, 32);
    let privilege = m.lldb_register_info(4161).unwrap();
    assert_eq!(privilege.bitsize, 8);
    // past the last known register the exchange ends
    assert!(m.lldb_register_info(4162).is_none());
}

#[test]
fn host_io_serves_the_elf() {
    let elf = minimal_elf();
    let mut m = Machine::new(elf.clone(), Vec::new()).unwrap();
    assert!(m.host_open(b"/other").is_none());
    let fd = m.host_open(b"/test.elf").unwrap();
    let mut buf = vec![0u8; 4];
    let n = m.host_pread(fd, 4, 0, &mut buf).unwrap();
    assert_eq!(n, 4);
    assert_eq!(&buf, &elf[0..4]);
    assert!(m.host_close(fd));
    assert!(!m.host_close(fd));
    assert!(m.host_pread(fd, 4, 0, &mut buf).is_none());
}

#[test]
fn buffered_connection_holds_until_drained() {
    let mut c = BufferedConnection::new();
    c.write(b'+');
    c.write(b'$');
    // nothing pending until a flush
    assert!(c.take_pending().is_none());
    c.flush();
    let sent = c.take_pending().unwrap();
    assert_eq!(sent, vec![b'+', b'$']);
    // drained: nothing pending any more
    assert!(c.take_pending().is_none());
    c.write(b'#');
    c.flush();
    assert_eq!(c.take_pending().unwrap(), vec![b'#']);
}

#[test]
fn copy_helpers() {
    let mut buf = vec![0u8; 3];
    let n = copy_to_buf(&[1, 2, 3, 4], &mut buf);
    assert_eq!(n, 3);
    assert_eq!(buf, vec![1, 2, 3]);
    let mut buf = vec![0u8; 8];
    let n = copy_range_to_buf(&[1, 2, 3, 4], 2, 10, &mut buf);
    assert_eq!(n, 2);
    assert_eq!(&buf[0..2], &[3, 4]);
    let mut buf = vec![0u8; 4];
    let n = copy_range_to_buf(&[1, 2, 3], 7, 2, &mut buf);
    assert_eq!(n, 0);
}

#[test]
fn current_time_follows_the_cursor() {
    let text = b"10\t1\t80\t13\n20\t2\t84\t13\n";
    let trace = ibex_trace::read_trace(text, Xlen::X32).unwrap();
    let mut m = Machine::from_parts(
        Xlen::X32,
        Cpu::new(),
        SimpleMemory::new(),
        trace,
        Vec::new(),
        0,
    );
    assert_eq!(m.current_time(), Some(10));
    m.step();
    assert_eq!(m.current_time(), Some(20));
    m.step();
    assert_eq!(m.current_time(), None);
}
