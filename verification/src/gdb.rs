//! The capabilities the replay machine offers a remote debug session: frame-
//! aware register reads, memory reads, breakpoints and watchpoints, resume
//! mode selection, the auxiliary vector, the advertised executable path,
//! host I/O onto the ELF image, and tracepoints. Register and memory writes
//! are refused: the replay is read-only.

use vstd::prelude::*;

use crate::cpu::{Cpu, Privilege};
use crate::machine::{ExecDir, ExecMode, Machine, TraceFrame, TracepointDef};
use crate::memory::{addr_off, le_bytes, read8};
use crate::trace::Xlen;

verus! {

/// Copy all bytes of `data` to `buf`.
/// Return the size of data copied.
pub fn copy_to_buf(data: &[u8], buf: &mut Vec<u8>) -> (len: usize)
    ensures
        len == if old(buf)@.len() <= data@.len() {
            old(buf)@.len() as int
        } else {
            data@.len() as int
        },
        final(buf)@.len() == old(buf)@.len(),
        forall|i: int| 0 <= i < len ==> final(buf)@[i] == data@[i],
        forall|i: int| len <= i < old(buf)@.len() ==> final(buf)@[i] == old(buf)@[i],
{
    let len = if buf.len() < data.len() {
        buf.len()
    } else {
        data.len()
    };
    let mut i: usize = 0;
    while i < len
        invariant
            len <= buf@.len(),
            len <= data@.len(),
            i <= len,
            buf@.len() == old(buf)@.len(),
            forall|j: int| 0 <= j < i ==> buf@[j] == data@[j],
            forall|j: int| i <= j < old(buf)@.len() ==> buf@[j] == old(buf)@[j],
        decreases len - i,
    {
        let b = data[i];
        buf.set(i, b);
        i += 1;
    }
    len
}

/// Copy a range of `data` (start at `offset` with a size of `length`) to `buf`.
/// Return the size of data copied. Returns 0 if `offset` is past the data.
pub fn copy_range_to_buf(data: &[u8], offset: u64, length: usize, buf: &mut Vec<u8>) -> (len:
    usize)
    ensures
        served_window(data@, offset, length, old(buf)@, final(buf)@, len as int),
{
    if offset > data.len() as u64 {
        return 0;
    }
    let off = offset as usize;
    let end = if length <= data.len() - off {
        off + length
    } else {
        data.len()
    };
    let window = vstd::slice::slice_subrange(data, off, end);
    proof {
        assert(window@ =~= data@.skip(offset as int).take(
            if length <= data@.len() - offset {
                length as int
            } else {
                data@.len() - offset
            },
        ));
    }
    copy_to_buf(window, buf)
}

/// What serving a window of `data` into `buf` leaves behind: with `offset`
/// past the data nothing is copied; otherwise the window of at most
/// `length` bytes starting at `offset` fills the front of `buf`, as far as
/// `buf` reaches, and the rest of `buf` is untouched.
pub open spec fn served_window(
    data: Seq<u8>,
    offset: u64,
    length: usize,
    buf0: Seq<u8>,
    buf1: Seq<u8>,
    len: int,
) -> bool {
    &&& buf1.len() == buf0.len()
    &&& (offset > data.len() ==> len == 0 && buf1 == buf0)
    &&& (offset <= data.len() ==> {
        let window = data.skip(offset as int).take(
            if length <= data.len() - offset {
                length as int
            } else {
                data.len() - offset
            },
        );
        &&& len == if buf0.len() <= window.len() {
            buf0.len() as int
        } else {
            window.len() as int
        }
        &&& (forall|i: int| 0 <= i < len ==> buf1[i] == window[i])
        &&& (forall|i: int| len <= i < buf0.len() ==> buf1[i] == buf0[i])
    })
}

/// The pseudo-path the ELF is advertised under.
pub open spec fn spec_exec_file_name() -> Seq<u8> {
    seq![47u8, 116u8, 101u8, 115u8, 116u8, 46u8, 101u8, 108u8, 102u8]
}

/// `/test.elf`, as bytes.
pub fn exec_file_name() -> (r: Vec<u8>)
    ensures
        r@ == spec_exec_file_name(),
{
    let mut v: Vec<u8> = Vec::new();
    v.push(47);
    v.push(116);
    v.push(101);
    v.push(115);
    v.push(116);
    v.push(46);
    v.push(101);
    v.push(108);
    v.push(102);
    proof {
        assert(v@ =~= spec_exec_file_name());
    }
    v
}

/// Bytes per register of the given width.
pub open spec fn xlen_bytes(x: Xlen) -> nat {
    match x {
        Xlen::X32 => 4,
        Xlen::X64 => 8,
    }
}

/// The auxiliary vector served to the client: `(AT_ENTRY, entry)` then the
/// `(AT_NULL, 0)` terminator, as pairs of register-width little-endian
/// words. It exists to hand debuggers the true entry point.
pub open spec fn spec_auxv(entry: u64, x: Xlen) -> Seq<u8> {
    le_bytes(9, xlen_bytes(x)) + le_bytes(entry as int, xlen_bytes(x)) + le_bytes(0, xlen_bytes(x))
        + le_bytes(0, xlen_bytes(x))
}

/// Append one auxiliary-vector entry word in little-endian order.
pub fn append_auxv(auxv: &mut Vec<u8>, val: u64, x: Xlen)
    ensures
        final(auxv)@ == old(auxv)@ + le_bytes(val as int, xlen_bytes(x)),
{
    let n: usize = match x {
        Xlen::X32 => 4,
        Xlen::X64 => 8,
    };
    let mut v: u64 = val;
    let mut i: usize = 0;
    while i < n
        invariant
            i <= n,
            n == xlen_bytes(x),
            auxv@ == old(auxv)@ + le_bytes(val as int, i as nat),
            v as int == lex_shift(val as int, i as nat),
        decreases n - i,
    {
        proof {
            lemma_le_bytes_snoc(val as int, i as nat);
        }
        auxv.push((v % 0x100) as u8);
        v = v / 0x100;
        proof {
            assert(auxv@ =~= old(auxv)@ + le_bytes(val as int, (i + 1) as nat));
        }
        i += 1;
    }
}

/// The value with its low `i` bytes shifted away.
pub open spec fn lex_shift(v: int, i: nat) -> int
    decreases i,
{
    if i == 0 {
        v
    } else {
        lex_shift(v, (i - 1) as nat) / 0x100
    }
}

/// The next little-endian byte extends the encoding by one.
proof fn lemma_le_bytes_snoc(v: int, i: nat)
    requires
        0 <= v,
    ensures
        le_bytes(v, i + 1) == le_bytes(v, i).push((lex_shift(v, i) % 0x100) as u8),
        lex_shift(v, i) >= 0,
    decreases i,
{
    if i == 0 {
        assert(le_bytes(v / 0x100, 0) =~= Seq::<u8>::empty());
        assert(le_bytes(v, 1) =~= le_bytes(v, 0).push((v % 0x100) as u8));
    } else {
        lemma_le_bytes_snoc(v / 0x100, (i - 1) as nat);
        assert(lex_shift(v, i) == lex_shift(v / 0x100, (i - 1) as nat)) by {
            lemma_lex_shift_div(v, (i - 1) as nat);
        }
        assert(le_bytes(v, i + 1) =~= le_bytes(v, i).push((lex_shift(v, i) % 0x100) as u8));
    }
}

proof fn lemma_lex_shift_div(v: int, i: nat)
    ensures
        lex_shift(v, i) / 0x100 == lex_shift(v / 0x100, i),
    decreases i,
{
    if i > 0 {
        lemma_lex_shift_div(v, (i - 1) as nat);
    }
}

/// The access class a watchpoint was registered for. All three kinds are
/// tracked uniformly: the table stores addresses only.
#[derive(Clone, Copy, Debug, PartialEq, Eq, Structural)]
pub enum WatchKind {
    Read,
    Write,
    ReadWrite,
}

/// A register as the remote protocol numbers it.
#[derive(Clone, Copy, Debug, PartialEq, Eq, Structural)]
pub enum RegId {
    Gpr(u8),
    Fpr(u8),
    Pc,
    Csr(u16),
    Priv,
}

/// The register and its wire size for a raw protocol register number:
/// 0–31 the integer registers, 32 the PC, 33–64 the float registers,
/// 65–4160 the CSRs, 4161 the privilege level.
pub open spec fn spec_regid_from_raw(id: int, x: Xlen) -> Option<(RegId, int)> {
    if 0 <= id <= 31 {
        Some((RegId::Gpr(id as u8), xlen_bytes(x) as int))
    } else if id == 32 {
        Some((RegId::Pc, xlen_bytes(x) as int))
    } else if 33 <= id <= 64 {
        Some((RegId::Fpr((id - 33) as u8), xlen_bytes(x) as int))
    } else if 65 <= id <= 4160 {
        Some((RegId::Csr((id - 65) as u16), xlen_bytes(x) as int))
    } else if id == 4161 {
        Some((RegId::Priv, 1))
    } else {
        None
    }
}

pub fn riscv_regid_from_raw_id(id: usize, x: Xlen) -> (r: Option<(RegId, usize)>)
    ensures
        r matches Some((reg, sz)) ==> spec_regid_from_raw(id as int, x) == Some((reg, sz as int)),
        r is None ==> spec_regid_from_raw(id as int, x) is None,
{
    let size: usize = match x {
        Xlen::X32 => 4,
        Xlen::X64 => 8,
    };
    if id <= 31 {
        Some((RegId::Gpr(id as u8), size))
    } else if id == 32 {
        Some((RegId::Pc, size))
    } else if 33 <= id && id <= 64 {
        Some((RegId::Fpr((id - 33) as u8), size))
    } else if 65 <= id && id <= 4160 {
        Some((RegId::Csr((id - 65) as u16), size))
    } else if id == 4161 {
        Some((RegId::Priv, 1))
    } else {
        None
    }
}

/// The privilege level as the wire encodes it.
pub open spec fn spec_priv_wire(p: Privilege) -> u8 {
    match p {
        Privilege::Machine => 3,
        Privilege::Supervisor => 1,
        Privilege::User => 0,
    }
}

pub fn privilege_wire_value(p: Privilege) -> (r: u8)
    ensures
        r == spec_priv_wire(p),
{
    match p {
        Privilege::Machine => 3,
        Privilege::Supervisor => 1,
        Privilege::User => 0,
    }
}

/// Append the little-endian bytes of `val` at the register width.
fn push_le(out: &mut Vec<u8>, val: u64, x: Xlen)
    ensures
        final(out)@ == old(out)@ + le_bytes(val as int, xlen_bytes(x)),
{
    append_auxv(out, val, x);
}

/// Fields a resume-mode change leaves alone.
pub open spec fn eq_except_resume(a: Machine, b: Machine) -> bool {
    &&& a.xlen == b.xlen
    &&& a.cpu == b.cpu
    &&& a.mem == b.mem
    &&& a.trace == b.trace
    &&& a.trace_index == b.trace_index
    &&& a.elf == b.elf
    &&& a.entry == b.entry
    &&& a.watchpoints == b.watchpoints
    &&& a.breakpoints == b.breakpoints
    &&& a.files == b.files
    &&& a.tracepoints == b.tracepoints
    &&& a.traceframes == b.traceframes
    &&& a.tracing == b.tracing
    &&& a.selected_frame == b.selected_frame
    &&& a.init == b.init
}

/// Fields untouched by breakpoint and watchpoint edits.
pub open spec fn eq_except_bps(a: Machine, b: Machine) -> bool {
    &&& a.xlen == b.xlen
    &&& a.exec_mode == b.exec_mode
    &&& a.exec_dir == b.exec_dir
    &&& a.cpu == b.cpu
    &&& a.mem == b.mem
    &&& a.trace == b.trace
    &&& a.trace_index == b.trace_index
    &&& a.elf == b.elf
    &&& a.entry == b.entry
    &&& a.files == b.files
    &&& a.tracepoints == b.tracepoints
    &&& a.traceframes == b.traceframes
    &&& a.tracing == b.tracing
    &&& a.selected_frame == b.selected_frame
    &&& a.init == b.init
}

/// The smallest index holding `x`, or the length.
pub open spec fn first_match(s: Seq<u64>, x: u64) -> int
    decreases s.len(),
{
    if s.len() == 0 {
        0
    } else if s[0] == x {
        0
    } else {
        1 + first_match(s.drop_first(), x)
    }
}

pub proof fn lemma_first_match_bounds(s: Seq<u64>, x: u64)
    ensures
        0 <= first_match(s, x) <= s.len(),
        first_match(s, x) < s.len() ==> s[first_match(s, x)] == x,
        forall|k: int| 0 <= k < first_match(s, x) ==> s[k] != x,
        s.contains(x) <==> first_match(s, x) < s.len(),
    decreases s.len(),
{
    if s.len() > 0 && s[0] != x {
        lemma_first_match_bounds(s.drop_first(), x);
        assert forall|k: int| 0 <= k < first_match(s, x) implies s[k] != x by {
            if k > 0 {
                assert(s.drop_first()[k - 1] == s[k]);
            }
        }
        if first_match(s, x) < s.len() {
            assert(s.drop_first()[first_match(s.drop_first(), x)] == s[first_match(s, x)]);
        }
        if s.contains(x) {
            let w = choose|w: int| 0 <= w < s.len() && s[w] == x;
            assert(s.drop_first()[w - 1] == x);
            assert(s.drop_first().contains(x));
        }
        if first_match(s, x) < s.len() {
            assert(s.contains(x));
        }
    }
}

/// Remove the watchpoint bytes `a`, `a+1`, … one at a time, stopping with
/// `false` at the first missing one; what was removed so far stays removed.
pub open spec fn spec_remove_watch(w: Seq<u64>, a: u64, n: nat) -> (Seq<u64>, bool)
    decreases n,
{
    if n == 0 {
        (w, true)
    } else if w.contains(a) {
        spec_remove_watch(w.remove(first_match(w, a)), addr_off(a, 1), (n - 1) as nat)
    } else {
        (w, false)
    }
}

impl Machine {
    /// The hart register reads are served from: the selected frame's
    /// snapshot if one is selected and exists, the live hart otherwise.
    pub open spec fn spec_visible_cpu(self) -> Cpu {
        match self.selected_frame {
            Some(idx) => if idx < self.traceframes@.len() {
                self.traceframes@[idx as int].snapshot
            } else {
                self.cpu
            },
            None => self.cpu,
        }
    }

    pub fn visible_cpu(&self) -> (r: &Cpu)
        ensures
            *r == self.spec_visible_cpu(),
    {
        match self.selected_frame {
            Some(idx) => if idx < self.traceframes.len() {
                &self.traceframes[idx].snapshot
            } else {
                &self.cpu
            },
            None => &self.cpu,
        }
    }

    /// Read the general registers: the PC and the 32 integer registers of
    /// the visible hart.
    pub fn read_registers(&self) -> (r: (u64, Vec<u64>))
        ensures
            r.0 == self.spec_visible_cpu()@.pc,
            r.1@ == self.spec_visible_cpu()@.xregs,
    {
        let cpu = self.visible_cpu();
        (cpu.pc, cpu.xregs.clone())
    }

    /// Register writes are refused: the replay is read-only.
    pub fn write_registers(&self) -> (r: bool)
        ensures
            !r,
    {
        false
    }

    /// Read one register of the visible hart as little-endian wire bytes.
    /// An unknown CSR or an out-of-range register number is refused.
    pub fn read_register(&self, reg: RegId) -> (r: Option<Vec<u8>>)
        ensures
            ({
                let c = self.spec_visible_cpu()@;
                match reg {
                    RegId::Gpr(i) => if i < 32 && c.xregs.len() == 32 {
                        r matches Some(v) && v@ == le_bytes(
                            c.xregs[i as int] as int,
                            xlen_bytes(self.xlen),
                        )
                    } else {
                        r is None
                    },
                    RegId::Fpr(i) => if i < 32 && c.fregs.len() == 32 {
                        r matches Some(v) && v@ == le_bytes(
                            c.fregs[i as int] as int,
                            xlen_bytes(self.xlen),
                        )
                    } else {
                        r is None
                    },
                    RegId::Pc => r matches Some(v) && v@ == le_bytes(
                        c.pc as int,
                        xlen_bytes(self.xlen),
                    ),
                    RegId::Csr(i) => if c.csrs.dom().contains(i) {
                        r matches Some(v) && v@ == le_bytes(
                            c.csrs[i] as int,
                            xlen_bytes(self.xlen),
                        )
                    } else {
                        r is None
                    },
                    RegId::Priv => r matches Some(v) && v@ == seq![spec_priv_wire(c.privilege)],
                }
            }),
    {
        let cpu = self.visible_cpu();
        match reg {
            RegId::Gpr(i) => {
                if (i as usize) < cpu.xregs.len() && cpu.xregs.len() == 32 {
                    let mut out: Vec<u8> = Vec::new();
                    push_le(&mut out, cpu.xregs[i as usize], self.xlen);
                    Some(out)
                } else {
                    None
                }
            },
            RegId::Fpr(i) => {
                if (i as usize) < cpu.fregs.len() && cpu.fregs.len() == 32 {
                    let mut out: Vec<u8> = Vec::new();
                    push_le(&mut out, cpu.fregs[i as usize], self.xlen);
                    Some(out)
                } else {
                    None
                }
            },
            RegId::Pc => {
                let mut out: Vec<u8> = Vec::new();
                push_le(&mut out, cpu.pc, self.xlen);
                Some(out)
            },
            RegId::Csr(i) => {
                match cpu.csrs.get(&i) {
                    Some(v) => {
                        let val = *v;
                        let mut out: Vec<u8> = Vec::new();
                        push_le(&mut out, val, self.xlen);
                        Some(out)
                    },
                    None => None,
                }
            },
            RegId::Priv => {
                let mut out: Vec<u8> = Vec::new();
                out.push(privilege_wire_value(cpu.privilege));
                proof {
                    assert(out@ =~= seq![spec_priv_wire(self.spec_visible_cpu()@.privilege)]);
                }
                Some(out)
            },
        }
    }

    /// Register writes are refused: the replay is read-only.
    pub fn write_register(&self) -> (r: bool)
        ensures
            !r,
    {
        false
    }

    /// Read `count` bytes of memory starting at `start_addr`, wrapping at
    /// the end of the address space. With a frame selected the read is
    /// empty: frames capture no memory.
    pub fn read_addrs(&self, start_addr: u64, count: usize) -> (r: Vec<u8>)
        ensures
            self.selected_frame is Some ==> r@ == Seq::<u8>::empty(),
            self.selected_frame is None ==> r@.len() == count && (forall|i: int|
                0 <= i < count ==> r@[i] == read8(self.mem@, addr_off(start_addr, i))),
    {
        let mut out: Vec<u8> = Vec::new();
        if self.selected_frame.is_some() {
            proof {
                assert(out@ =~= Seq::<u8>::empty());
            }
            return out;
        }
        let mut i: usize = 0;
        let mut addr: u64 = start_addr;
        while i < count
            invariant
                i <= count,
                out@.len() == i,
                addr == addr_off(start_addr, i as int),
                forall|j: int| 0 <= j < i ==> out@[j] == read8(self.mem@, addr_off(start_addr, j)),
            decreases count - i,
        {
            out.push(self.mem.peek8(addr));
            proof {
                crate::memory::lemma_addr_off_is_wrapping(addr, 1);
                crate::memory::lemma_addr_off_add(start_addr, i as int, 1);
            }
            addr = addr.wrapping_add(1);
            i += 1;
        }
        out
    }

    /// Memory writes are refused: the replay is read-only.
    pub fn write_addrs(&self) -> (r: bool)
        ensures
            !r,
    {
        false
    }

    /// Resume forward, free running. A resume carrying a signal is refused.
    pub fn resume(&mut self, has_signal: bool) -> (r: bool)
        ensures
            eq_except_resume(*old(self), *final(self)),
            !has_signal ==> r && final(self).exec_mode == ExecMode::Continue
                && final(self).exec_dir == ExecDir::Forwards,
            has_signal ==> !r && *final(self) == *old(self),
            old(self).inv() ==> final(self).inv(),
    {
        if has_signal {
            return false;
        }
        self.exec_mode = ExecMode::Continue;
        self.exec_dir = ExecDir::Forwards;
        true
    }

    /// Resume forward, one step. A step carrying a signal is refused.
    pub fn single_step(&mut self, has_signal: bool) -> (r: bool)
        ensures
            eq_except_resume(*old(self), *final(self)),
            !has_signal ==> r && final(self).exec_mode == ExecMode::Step && final(self).exec_dir
                == ExecDir::Forwards,
            has_signal ==> !r && *final(self) == *old(self),
            old(self).inv() ==> final(self).inv(),
    {
        if has_signal {
            return false;
        }
        self.exec_mode = ExecMode::Step;
        self.exec_dir = ExecDir::Forwards;
        true
    }

    /// Resume backward, free running.
    pub fn reverse_cont(&mut self)
        ensures
            eq_except_resume(*old(self), *final(self)),
            final(self).exec_mode == ExecMode::Continue,
            final(self).exec_dir == ExecDir::Backwards,
            old(self).inv() ==> final(self).inv(),
    {
        self.exec_mode = ExecMode::Continue;
        self.exec_dir = ExecDir::Backwards;
    }

    /// Resume backward, one step.
    pub fn reverse_step(&mut self)
        ensures
            eq_except_resume(*old(self), *final(self)),
            final(self).exec_mode == ExecMode::Step,
            final(self).exec_dir == ExecDir::Backwards,
            old(self).inv() ==> final(self).inv(),
    {
        self.exec_mode = ExecMode::Step;
        self.exec_dir = ExecDir::Backwards;
    }

    /// Resume forward until the PC leaves `[start, end)`.
    pub fn resume_range_step(&mut self, start: u64, end: u64)
        ensures
            eq_except_resume(*old(self), *final(self)),
            final(self).exec_mode == ExecMode::RangeStep(start, end),
            final(self).exec_dir == ExecDir::Forwards,
            old(self).inv() ==> final(self).inv(),
    {
        self.exec_mode = ExecMode::RangeStep(start, end);
        self.exec_dir = ExecDir::Forwards;
    }

    /// Add a software breakpoint; duplicates are permitted.
    pub fn add_sw_breakpoint(&mut self, addr: u64) -> (r: bool)
        ensures
            r,
            eq_except_bps(*old(self), *final(self)),
            final(self).watchpoints == old(self).watchpoints,
            final(self).breakpoints@ == old(self).breakpoints@.push(addr),
            old(self).inv() ==> final(self).inv(),
    {
        self.breakpoints.push(addr);
        true
    }

    /// Remove one breakpoint matching by address; reports whether one was
    /// found.
    pub fn remove_sw_breakpoint(&mut self, addr: u64) -> (r: bool)
        ensures
            eq_except_bps(*old(self), *final(self)),
            final(self).watchpoints == old(self).watchpoints,
            r == old(self).breakpoints@.contains(addr),
            r ==> final(self).breakpoints@ == old(self).breakpoints@.remove(
                first_match(old(self).breakpoints@, addr),
            ),
            !r ==> final(self).breakpoints@ == old(self).breakpoints@,
            old(self).inv() ==> final(self).inv(),
    {
        proof {
            lemma_first_match_bounds(self.breakpoints@, addr);
        }
        let mut i: usize = 0;
        let n = self.breakpoints.len();
        while i < n
            invariant
                i <= n,
                n == self.breakpoints@.len(),
                *self == *old(self),
                forall|k: int| 0 <= k < i ==> self.breakpoints@[k] != addr,
            decreases n - i,
        {
            if self.breakpoints[i] == addr {
                proof {
                    lemma_first_match_bounds(self.breakpoints@, addr);
                    assert(self.breakpoints@[i as int] == addr);
                    assert(first_match(self.breakpoints@, addr) == i) by {
                        let f = first_match(self.breakpoints@, addr);
                        if f < i {
                            assert(self.breakpoints@[f] != addr);
                        }
                    }
                    assert(self.breakpoints@.contains(addr));
                }
                self.breakpoints.remove(i);
                return true;
            }
            i += 1;
        }
        proof {
            if self.breakpoints@.contains(addr) {
                let w = choose|w: int|
                    0 <= w < self.breakpoints@.len() && self.breakpoints@[w] == addr;
                assert(self.breakpoints@[w] != addr);
            }
        }
        false
    }

    /// Register a watchpoint over `[addr, addr + len)`: one table entry per
    /// byte, whatever the kind. Fails only if the range wraps past the end
    /// of the address space.
    pub fn add_hw_watchpoint(&mut self, addr: u64, len: u64, kind: WatchKind) -> (r: bool)
        ensures
            eq_except_bps(*old(self), *final(self)),
            final(self).breakpoints == old(self).breakpoints,
            r == (addr + len <= u64::MAX + 1),
            r ==> final(self).watchpoints@ == old(self).watchpoints@ + Seq::new(
                len as nat,
                |i: int| (addr + i) as u64,
            ),
            !r ==> *final(self) == *old(self),
            old(self).inv() ==> final(self).inv(),
    {
        if len > 0 && addr > u64::MAX - (len - 1) {
            return false;
        }
        let mut i: u64 = 0;
        while i < len
            invariant
                i <= len,
                len > 0 ==> addr + len - 1 <= u64::MAX,
                self.watchpoints@ == old(self).watchpoints@ + Seq::new(
                    i as nat,
                    |j: int| (addr + j) as u64,
                ),
                eq_except_bps(*old(self), *self),
                self.breakpoints == old(self).breakpoints,
            decreases len - i,
        {
            self.watchpoints.push(addr + i);
            proof {
                assert(self.watchpoints@ =~= old(self).watchpoints@ + Seq::new(
                    (i + 1) as nat,
                    |j: int| (addr + j) as u64,
                ));
            }
            i += 1;
        }
        proof {
            assert(self.watchpoints@ =~= old(self).watchpoints@ + Seq::new(
                len as nat,
                |j: int| (addr + j) as u64,
            ));
        }
        true
    }

    /// Remove the watchpoint entries for `[addr, addr + len)` byte by byte,
    /// reporting `false` at the first byte that is not registered; bytes
    /// removed up to that point stay removed.
    pub fn remove_hw_watchpoint(&mut self, addr: u64, len: u64, kind: WatchKind) -> (r: bool)
        ensures
            eq_except_bps(*old(self), *final(self)),
            final(self).breakpoints == old(self).breakpoints,
            (final(self).watchpoints@, r) == spec_remove_watch(
                old(self).watchpoints@,
                addr,
                len as nat,
            ),
            old(self).inv() ==> final(self).inv(),
    {
        let mut i: u64 = 0;
        let mut a: u64 = addr;
        while i < len
            invariant
                i <= len,
                a == addr_off(addr, i as int),
                spec_remove_watch(old(self).watchpoints@, addr, len as nat) == spec_remove_watch(
                    self.watchpoints@,
                    a,
                    (len - i) as nat,
                ),
                eq_except_bps(*old(self), *self),
                self.breakpoints == old(self).breakpoints,
            decreases len - i,
        {
            proof {
                lemma_first_match_bounds(self.watchpoints@, a);
            }
            let mut j: usize = 0;
            let n = self.watchpoints.len();
            let mut found: bool = false;
            let mut pos: usize = 0;
            while j < n
                invariant
                    j <= n,
                    n == self.watchpoints@.len(),
                    !found ==> forall|k: int| 0 <= k < j ==> self.watchpoints@[k] != a,
                    found ==> pos < n && self.watchpoints@[pos as int] == a && pos
                        == first_match(self.watchpoints@, a),
                decreases n - j + (if found { 0int } else { 1int }),
            {
                if !found && self.watchpoints[j] == a {
                    found = true;
                    pos = j;
                    proof {
                        lemma_first_match_bounds(self.watchpoints@, a);
                        let f = first_match(self.watchpoints@, a);
                        if f < j {
                            assert(self.watchpoints@[f] != a);
                        }
                    }
                }
                j += 1;
            }
            if !found {
                proof {
                    if self.watchpoints@.contains(a) {
                        let w = choose|w: int|
                            0 <= w < self.watchpoints@.len() && self.watchpoints@[w] == a;
                        assert(self.watchpoints@[w] != a);
                    }
                }
                return false;
            }
            proof {
                assert(self.watchpoints@.contains(a)) by {
                    assert(self.watchpoints@[pos as int] == a);
                }
            }
            self.watchpoints.remove(pos);
            proof {
                crate::memory::lemma_addr_off_is_wrapping(a, 1);
                crate::memory::lemma_addr_off_add(addr, i as int, 1);
            }
            a = a.wrapping_add(1);
            i += 1;
        }
        proof {
            crate::memory::lemma_addr_off_is_wrapping(addr, 0);
        }
        true
    }

    /// Serve the auxiliary vector window the client asked for.
    pub fn get_auxv(&self, offset: u64, length: usize, buf: &mut Vec<u8>) -> (len: usize)
        ensures
            served_window(
                spec_auxv(self.entry, self.xlen),
                offset,
                length,
                old(buf)@,
                final(buf)@,
                len as int,
            ),
    {
        let mut auxv: Vec<u8> = Vec::new();
        let t: u64 = 9;
        append_auxv(&mut auxv, t, self.xlen);
        append_auxv(&mut auxv, self.entry, self.xlen);
        append_auxv(&mut auxv, 0, self.xlen);
        append_auxv(&mut auxv, 0, self.xlen);
        proof {
            assert(auxv@ =~= spec_auxv(self.entry, self.xlen));
        }
        copy_range_to_buf(auxv.as_slice(), offset, length, buf)
    }

    /// Serve the advertised executable path window the client asked for.
    pub fn get_exec_file(&self, offset: u64, length: usize, buf: &mut Vec<u8>) -> (len: usize)
        ensures
            served_window(
                spec_exec_file_name(),
                offset,
                length,
                old(buf)@,
                final(buf)@,
                len as int,
            ),
    {
        let name = exec_file_name();
        copy_range_to_buf(name.as_slice(), offset, length, buf)
    }

    /// The recorded time at the cursor, published to the wave bridge after
    /// each resume.
    pub fn current_time(&self) -> (r: Option<u64>)
        ensures
            self.trace_index < self.trace@.len() ==> r == Some(
                self.trace@[self.trace_index as int]@.time,
            ),
            self.trace_index >= self.trace@.len() ==> r is None,
    {
        if self.trace_index < self.trace.len() {
            Some(self.trace[self.trace_index].time)
        } else {
            None
        }
    }
}


/// A tracepoint action, as the library models it: only register collection
/// is supported.
#[derive(Clone, Copy, Debug, PartialEq, Eq, Structural)]
pub enum TpAction {
    CollectRegisters,
    CollectMemory,
    CollectExpression,
}

/// The smallest index whose tracepoint number is at least `n`, or the
/// length.
pub open spec fn tp_lower_bound(s: Seq<TracepointDef>, n: u64) -> int
    decreases s.len(),
{
    if s.len() == 0 {
        0
    } else if s[0].number >= n {
        0
    } else {
        1 + tp_lower_bound(s.drop_first(), n)
    }
}

pub proof fn lemma_tp_lower_bound(s: Seq<TracepointDef>, n: u64)
    ensures
        0 <= tp_lower_bound(s, n) <= s.len(),
        tp_lower_bound(s, n) < s.len() ==> s[tp_lower_bound(s, n)].number >= n,
        forall|k: int| 0 <= k < tp_lower_bound(s, n) ==> s[k].number < n,
    decreases s.len(),
{
    if s.len() > 0 && s[0].number < n {
        lemma_tp_lower_bound(s.drop_first(), n);
        assert forall|k: int| 0 <= k < tp_lower_bound(s, n) implies s[k].number < n by {
            if k > 0 {
                assert(s.drop_first()[k - 1] == s[k]);
            }
        }
        if tp_lower_bound(s, n) < s.len() {
            assert(s.drop_first()[tp_lower_bound(s.drop_first(), n)] == s[tp_lower_bound(s, n)]);
        }
    }
}

/// Fields untouched by tracepoint edits.
pub open spec fn eq_except_tps(a: Machine, b: Machine) -> bool {
    &&& a.xlen == b.xlen
    &&& a.exec_mode == b.exec_mode
    &&& a.exec_dir == b.exec_dir
    &&& a.cpu == b.cpu
    &&& a.mem == b.mem
    &&& a.trace == b.trace
    &&& a.trace_index == b.trace_index
    &&& a.elf == b.elf
    &&& a.entry == b.entry
    &&& a.watchpoints == b.watchpoints
    &&& a.breakpoints == b.breakpoints
    &&& a.files == b.files
    &&& a.init == b.init
}

/// Fields untouched by host I/O.
pub open spec fn eq_except_files(a: Machine, b: Machine) -> bool {
    &&& a.xlen == b.xlen
    &&& a.exec_mode == b.exec_mode
    &&& a.exec_dir == b.exec_dir
    &&& a.cpu == b.cpu
    &&& a.mem == b.mem
    &&& a.trace == b.trace
    &&& a.trace_index == b.trace_index
    &&& a.elf == b.elf
    &&& a.entry == b.entry
    &&& a.watchpoints == b.watchpoints
    &&& a.breakpoints == b.breakpoints
    &&& a.tracepoints == b.tracepoints
    &&& a.traceframes == b.traceframes
    &&& a.tracing == b.tracing
    &&& a.selected_frame == b.selected_frame
    &&& a.init == b.init
}

impl Machine {
    /// Validate a tracepoint definition's actions: only register collection
    /// is accepted.
    pub fn tracepoint_actions_ok(&self, actions: &Vec<TpAction>) -> (r: bool)
        ensures
            r == (forall|i: int|
                0 <= i < actions@.len() ==> actions@[i] == TpAction::CollectRegisters),
    {
        let mut i: usize = 0;
        while i < actions.len()
            invariant
                i <= actions@.len(),
                forall|j: int| 0 <= j < i ==> actions@[j] == TpAction::CollectRegisters,
            decreases actions@.len() - i,
        {
            match actions[i] {
                TpAction::CollectRegisters => {},
                _ => {
                    proof {
                        assert(actions@[i as int] != TpAction::CollectRegisters);
                    }
                    return false;
                },
            }
            i += 1;
        }
        true
    }

    /// Define or replace a tracepoint, keeping the table ordered by number.
    pub fn tracepoint_define(&mut self, number: u64, addr: u64, enabled: bool)
        ensures
            eq_except_tps(*old(self), *final(self)),
            final(self).tracing == old(self).tracing,
            final(self).selected_frame == old(self).selected_frame,
            final(self).traceframes == old(self).traceframes,
            ({
                let s = old(self).tracepoints@;
                let k = tp_lower_bound(s, number);
                let t = TracepointDef { number, addr, enabled };
                if k < s.len() && s[k].number == number {
                    final(self).tracepoints@ == s.update(k, t)
                } else {
                    final(self).tracepoints@ == s.insert(k, t)
                }
            }),
            old(self).inv() ==> final(self).inv(),
    {
        proof {
            lemma_tp_lower_bound(self.tracepoints@, number);
        }
        let t = TracepointDef { number, addr, enabled };
        let mut k: usize = 0;
        let n = self.tracepoints.len();
        while k < n && self.tracepoints[k].number < number
            invariant
                k <= n,
                n == self.tracepoints@.len(),
                *self == *old(self),
                forall|j: int| 0 <= j < k ==> self.tracepoints@[j].number < number,
            decreases n - k,
        {
            k += 1;
        }
        proof {
            let s = self.tracepoints@;
            let lb = tp_lower_bound(s, number);
            lemma_tp_lower_bound(s, number);
            assert(lb == k) by {
                if lb < k {
                    assert(s[lb].number < number);
                }
                if k < lb {
                    assert(s[k as int].number < number);
                }
            }
        }
        if k < self.tracepoints.len() {
            let existing = self.tracepoints[k].number;
            if existing == number {
                self.tracepoints.set(k, t);
                return ;
            }
        }
        self.tracepoints.insert(k, t);
    }

    /// Remove every tracepoint and captured frame; tracing stops.
    pub fn tracepoints_clear(&mut self)
        ensures
            eq_except_tps(*old(self), *final(self)),
            final(self).tracepoints@ == Seq::<TracepointDef>::empty(),
            final(self).traceframes@ == Seq::<TraceFrame>::empty(),
            !final(self).tracing,
            final(self).selected_frame is None,
            old(self).inv() ==> final(self).inv(),
    {
        self.tracepoints.clear();
        self.traceframes.clear();
        self.tracing = false;
        self.selected_frame = None;
        proof {
            assert(self.tracepoints@ =~= Seq::<TracepointDef>::empty());
            assert(self.traceframes@ =~= Seq::<TraceFrame>::empty());
        }
    }

    /// Switch trace-frame collection on or off.
    pub fn set_tracing(&mut self, on: bool)
        ensures
            eq_except_tps(*old(self), *final(self)),
            final(self).tracepoints == old(self).tracepoints,
            final(self).traceframes == old(self).traceframes,
            final(self).selected_frame == old(self).selected_frame,
            final(self).tracing == on,
            old(self).inv() ==> final(self).inv(),
    {
        self.tracing = on;
    }

    /// Select the frame register reads are served from, or none.
    pub fn select_frame(&mut self, frame: Option<usize>)
        ensures
            eq_except_tps(*old(self), *final(self)),
            final(self).tracepoints == old(self).tracepoints,
            final(self).traceframes == old(self).traceframes,
            final(self).tracing == old(self).tracing,
            final(self).selected_frame == frame,
            old(self).inv() ==> final(self).inv(),
    {
        self.selected_frame = frame;
    }

    /// How many frames the log holds.
    pub fn traceframes_len(&self) -> (r: usize)
        ensures
            r == self.traceframes@.len(),
    {
        self.traceframes.len()
    }

    /// The tracepoint number and snapshot PC of one captured frame.
    pub fn traceframe_info(&self, idx: usize) -> (r: Option<(u64, u64)>)
        ensures
            idx < self.traceframes@.len() ==> r == Some(
                (
                    self.traceframes@[idx as int].number,
                    self.traceframes@[idx as int].snapshot.pc,
                ),
            ),
            idx >= self.traceframes@.len() ==> r is None,
    {
        if idx < self.traceframes.len() {
            let f = &self.traceframes[idx];
            Some((f.number, f.snapshot.pc))
        } else {
            None
        }
    }

    /// Open the advertised executable for host I/O; any other path is
    /// refused. The descriptor indexes the handle table.
    pub fn host_open(&mut self, filename: &[u8]) -> (r: Option<usize>)
        ensures
            eq_except_files(*old(self), *final(self)),
            r matches Some(fd) ==> filename@ == spec_exec_file_name() && final(self).files@ == old(
                self,
            ).files@.push(true) && fd == old(self).files@.len(),
            r is None ==> filename@ != spec_exec_file_name() && *final(self) == *old(self),
            old(self).inv() ==> final(self).inv(),
    {
        let name = exec_file_name();
        if filename.len() != name.len() {
            proof {
                assert(filename@ != spec_exec_file_name());
            }
            return None;
        }
        let mut i: usize = 0;
        while i < name.len()
            invariant
                i <= name@.len(),
                name@ == spec_exec_file_name(),
                filename@.len() == name@.len(),
                *self == *old(self),
                forall|j: int| 0 <= j < i ==> filename@[j] == name@[j],
            decreases name@.len() - i,
        {
            if filename[i] != name[i] {
                proof {
                    assert(filename@[i as int] != spec_exec_file_name()[i as int]);
                }
                return None;
            }
            i += 1;
        }
        proof {
            assert(filename@ =~= spec_exec_file_name());
        }
        let fd = self.files.len();
        self.files.push(true);
        Some(fd)
    }

    /// Read from an open host-I/O handle: a window of the ELF bytes, served
    /// verbatim.
    pub fn host_pread(&self, fd: usize, count: usize, offset: u64, buf: &mut Vec<u8>) -> (r:
        Option<usize>)
        ensures
            final(buf)@.len() == old(buf)@.len(),
            (fd >= self.files@.len() || !self.files@[fd as int]) ==> r is None && final(buf)@
                == old(buf)@,
            (fd < self.files@.len() && self.files@[fd as int]) ==> (r matches Some(n)
                && served_window(self.elf@, offset, count, old(buf)@, final(buf)@, n as int)),
    {
        if fd >= self.files.len() {
            return None;
        }
        if !self.files[fd] {
            return None;
        }
        Some(copy_range_to_buf(self.elf.as_slice(), offset, count, buf))
    }

    /// Close a host-I/O handle; closing an unknown handle is refused.
    pub fn host_close(&mut self, fd: usize) -> (r: bool)
        ensures
            eq_except_files(*old(self), *final(self)),
            r == (fd < old(self).files@.len() && old(self).files@[fd as int]),
            r ==> final(self).files@ == old(self).files@.update(fd as int, false),
            !r ==> *final(self) == *old(self),
            old(self).inv() ==> final(self).inv(),
    {
        if fd < self.files.len() && self.files[fd] {
            self.files.set(fd, false);
            true
        } else {
            false
        }
    }
}


/// The register-set class a register belongs to, for the register-info
/// override.
#[derive(Clone, Copy, Debug, PartialEq, Eq, Structural)]
pub enum RegSetClass {
    Gpr,
    Fpr,
    Pc,
    Csr,
    Priv,
}

pub open spec fn spec_reg_set(reg: RegId) -> RegSetClass {
    match reg {
        RegId::Gpr(_) => RegSetClass::Gpr,
        RegId::Fpr(_) => RegSetClass::Fpr,
        RegId::Pc => RegSetClass::Pc,
        RegId::Csr(_) => RegSetClass::Csr,
        RegId::Priv => RegSetClass::Priv,
    }
}

/// The reported register name: `x<i>` for the integer registers, the word
/// `unknown` for the rest.
pub open spec fn spec_reg_name(reg: RegId) -> Seq<u8> {
    match reg {
        RegId::Gpr(i) => seq![120u8] + crate::lex::dec_str(i as int),
        _ => seq![117u8, 110u8, 107u8, 110u8, 111u8, 119u8, 110u8],
    }
}

/// One entry of the register-info override: name, bit size, offset into the
/// register packet, DWARF number, and register-set class.
pub struct LldbRegInfo {
    pub name: Vec<u8>,
    pub bitsize: usize,
    pub offset: usize,
    pub dwarf: usize,
    pub set: RegSetClass,
}

impl Machine {
    /// The register-info override served for one raw protocol register
    /// number: `None` past the last known register, which ends the exchange.
    pub fn lldb_register_info(&self, reg_id: usize) -> (r: Option<LldbRegInfo>)
        ensures
            (match spec_regid_from_raw(reg_id as int, self.xlen) {
                Some((reg, sz)) => r matches Some(info) && info.name@ == spec_reg_name(reg)
                    && info.bitsize == 8 * sz && info.offset == reg_id * sz && info.dwarf == reg_id
                    && info.set == spec_reg_set(reg),
                None => r is None,
            }),
    {
        let (reg, size) = match riscv_regid_from_raw_id(reg_id, self.xlen) {
            Some(pair) => pair,
            None => {
                return None;
            },
        };
        let mut name: Vec<u8> = Vec::new();
        match reg {
            RegId::Gpr(i) => {
                name.push(120);
                if i < 10 {
                    name.push(48 + i);
                    proof {
                        assert(name@ =~= seq![120u8] + crate::lex::dec_str(i as int));
                    }
                } else {
                    name.push(48 + i / 10);
                    name.push(48 + i % 10);
                    proof {
                        assert(crate::lex::dec_str(i as int / 10) =~= seq![(48 + i / 10) as u8]);
                        assert(name@ =~= seq![120u8] + crate::lex::dec_str(i as int));
                    }
                }
            },
            _ => {
                name.push(117);
                name.push(110);
                name.push(107);
                name.push(110);
                name.push(111);
                name.push(119);
                name.push(110);
                proof {
                    assert(name@ =~= spec_reg_name(reg));
                }
            },
        }
        proof {
            assert(reg_id <= 4161 && size <= 8);
            assert(reg_id * size <= 33288) by (nonlinear_arith)
                requires
                    reg_id <= 4161 && size <= 8,
            ;
        }
        Some(
            LldbRegInfo {
                name,
                bitsize: 8 * size,
                offset: reg_id * size,
                dwarf: reg_id,
                set: match reg {
                    RegId::Gpr(_) => RegSetClass::Gpr,
                    RegId::Fpr(_) => RegSetClass::Fpr,
                    RegId::Pc => RegSetClass::Pc,
                    RegId::Csr(_) => RegSetClass::Csr,
                    RegId::Priv => RegSetClass::Priv,
                },
            },
        )
    }
}


/// How many captured frames hit the given tracepoint number.
pub open spec fn spec_frame_hits(frames: Seq<crate::machine::FrameV>, number: u64) -> int
    decreases frames.len(),
{
    if frames.len() == 0 {
        0
    } else {
        spec_frame_hits(frames.drop_last(), number) + if frames.last().number == number {
            1int
        } else {
            0int
        }
    }
}

impl Machine {
    /// How many tracepoints the table holds.
    pub fn tracepoints_len(&self) -> (r: usize)
        ensures
            r == self.tracepoints@.len(),
    {
        self.tracepoints.len()
    }

    /// One tracepoint of the table, by position.
    pub fn tracepoint_at(&self, idx: usize) -> (r: Option<TracepointDef>)
        ensures
            idx < self.tracepoints@.len() ==> r == Some(self.tracepoints@[idx as int]),
            idx >= self.tracepoints@.len() ==> r is None,
    {
        if idx < self.tracepoints.len() {
            Some(self.tracepoints[idx])
        } else {
            None
        }
    }

    /// How many captured frames hit the given tracepoint number.
    pub fn traceframe_hits(&self, number: u64) -> (r: usize)
        ensures
            r == spec_frame_hits(crate::machine::frames_view(self.traceframes@), number),
    {
        let ghost fv = crate::machine::frames_view(self.traceframes@);
        let mut count: usize = 0;
        let mut i: usize = 0;
        while i < self.traceframes.len()
            invariant
                i <= self.traceframes@.len(),
                fv == crate::machine::frames_view(self.traceframes@),
                fv.len() == self.traceframes@.len(),
                count <= i,
                count == spec_frame_hits(fv.take(i as int), number),
            decreases self.traceframes@.len() - i,
        {
            proof {
                assert(fv[i as int] == self.traceframes@[i as int]@);
                assert(fv.take(i + 1).drop_last() =~= fv.take(i as int));
                assert(fv.take(i + 1).last() == fv[i as int]);
            }
            if self.traceframes[i].number == number {
                count += 1;
            }
            i += 1;
        }
        proof {
            assert(fv.take(fv.len() as int) =~= fv);
        }
        count
    }
}

} // verus!
