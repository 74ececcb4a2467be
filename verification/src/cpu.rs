//! RISC-V hart state and the step engine.
//!
//! `step` applies one retirement event against the hart and a memory,
//! recording the overwritten values into the event itself, so that
//! `step_undo` can replay it backward without a separate undo journal.

use vstd::prelude::*;
use std::collections::HashMap;

use crate::mem_sniffer::{AccessKind, MemAccess, MemSniffer};
use crate::memory::{
    lemma_from_le_bound, lemma_le_bytes_len, lemma_le_from_le, lemma_pow256_values,
    lemma_write_bytes_dom_full, lemma_write_bytes_undo, le_bytes, from_le, read128, read16,
    read32, read64, read8, read_bytes, write128, write16, write32, write64, write8,
    write_bytes, Memory,
};
use crate::trace::{event_wf, Data, EventV, MemWrite, RetireEvent, XRegWrite};

verus! {

broadcast use vstd::std_specs::hash::group_hash_axioms;

/// RISC-V privilege level; the replay starts in machine mode.
#[derive(Debug, Default, Clone, Copy, PartialEq, Eq, Structural)]
pub enum Privilege {
    #[default]
    Machine,
    Supervisor,
    User,
}

/// RISC-V CPU state.
pub struct Cpu {
    pub pc: u64,
    pub privilege: Privilege,
    pub xregs: Vec<u64>,
    pub fregs: Vec<u64>,
    pub csrs: HashMap<u16, u64>,
}

/// The mathematical model of a hart.
#[verifier::ext_equal]
pub ghost struct CpuV {
    pub pc: u64,
    pub privilege: Privilege,
    pub xregs: Seq<u64>,
    pub fregs: Seq<u64>,
    pub csrs: Map<u16, u64>,
}

impl View for Cpu {
    type V = CpuV;

    open spec fn view(&self) -> CpuV {
        CpuV {
            pc: self.pc,
            privilege: self.privilege,
            xregs: self.xregs@,
            fregs: self.fregs@,
            csrs: self.csrs@,
        }
    }
}

/// The register files have 32 registers each and x0 is hard-wired zero.
pub open spec fn cpu_wf(c: CpuV) -> bool {
    &&& c.xregs.len() == 32
    &&& c.fregs.len() == 32
    &&& c.xregs[0] == 0
}

/// A fresh hart: everything zero, machine mode.
pub open spec fn cpu_init() -> CpuV {
    CpuV {
        pc: 0,
        privilege: Privilege::Machine,
        xregs: Seq::new(32, |i: int| 0u64),
        fregs: Seq::new(32, |i: int| 0u64),
        csrs: Map::empty(),
    }
}

/// The value of the same width as `like` held in memory at `a`.
pub open spec fn read_like(m: Map<u64, u8>, a: u64, like: Data) -> Data {
    match like {
        Data::U8(_) => Data::U8(read8(m, a)),
        Data::U16(_) => Data::U16(read16(m, a)),
        Data::U32(_) => Data::U32(read32(m, a)),
        Data::U64(_) => Data::U64(read64(m, a)),
        Data::U128(_) => Data::U128(read128(m, a)),
    }
}

/// The memory after `d` is stored at `a`.
pub open spec fn write_data(m: Map<u64, u8>, a: u64, d: Data) -> Map<u64, u8> {
    match d {
        Data::U8(v) => write8(m, a, v),
        Data::U16(v) => write16(m, a, v),
        Data::U32(v) => write32(m, a, v),
        Data::U64(v) => write64(m, a, v),
        Data::U128(v) => write128(m, a, v),
    }
}

/// The hart after one forward step: the PC moves to the event's PC and the
/// written register takes its new value.
pub open spec fn spec_step_cpu(c: CpuV, e: EventV) -> CpuV {
    let c1 = CpuV { pc: e.pc, ..c };
    match e.xwrite {
        Some(xw) => CpuV { xregs: c1.xregs.update(xw.index as int, xw.value), ..c1 },
        None => c1,
    }
}

/// The memory after one forward step: the store is applied, if any.
pub open spec fn spec_step_mem(m: Map<u64, u8>, e: EventV) -> Map<u64, u8> {
    match e.store {
        Some(st) => write_data(m, st.phys_addr, st.value),
        None => m,
    }
}

/// The event after one forward step: both `prev_value` fields filled with
/// what the step overwrote.
pub open spec fn spec_step_event(c: CpuV, m: Map<u64, u8>, e: EventV) -> EventV {
    EventV {
        xwrite: match e.xwrite {
            Some(xw) => Some(XRegWrite { prev_value: Some(c.xregs[xw.index as int]), ..xw }),
            None => None,
        },
        store: match e.store {
            Some(st) => Some(
                MemWrite { prev_value: Some(read_like(m, st.phys_addr, st.value)), ..st },
            ),
            None => None,
        },
        ..e
    }
}

/// The logical memory accesses a forward step makes: the pre-image read and
/// the store itself, both at the store's base address.
pub open spec fn step_accesses(e: EventV) -> Seq<MemAccess> {
    match e.store {
        Some(st) => seq![
            MemAccess { kind: AccessKind::Read, addr: st.phys_addr },
            MemAccess { kind: AccessKind::Write, addr: st.phys_addr },
        ],
        None => Seq::empty(),
    }
}

/// The hart after one backward step: the PC rewinds to the previous event's
/// PC (if one is given) and the written register takes its recorded
/// previous value.
pub open spec fn spec_undo_cpu(c: CpuV, e: EventV, prev_pc: Option<u64>) -> CpuV {
    let c1 = match prev_pc {
        Some(p) => CpuV { pc: p, ..c },
        None => c,
    };
    match e.xwrite {
        Some(xw) => match xw.prev_value {
            Some(pv) => CpuV { xregs: c1.xregs.update(xw.index as int, pv), ..c1 },
            None => c1,
        },
        None => c1,
    }
}

/// The memory after one backward step: the store's recorded pre-image is
/// written back.
pub open spec fn spec_undo_mem(m: Map<u64, u8>, e: EventV) -> Map<u64, u8> {
    match e.store {
        Some(st) => match st.prev_value {
            Some(pv) => write_data(m, st.phys_addr, pv),
            None => m,
        },
        None => m,
    }
}

/// The logical memory accesses a backward step makes.
pub open spec fn undo_accesses(e: EventV) -> Seq<MemAccess> {
    match e.store {
        Some(st) => match st.prev_value {
            Some(_) => seq![MemAccess { kind: AccessKind::Write, addr: st.phys_addr }],
            None => Seq::empty(),
        },
        None => Seq::empty(),
    }
}

/// The PC a backward step rewinds to.
pub open spec fn spec_prev_pc(p: Option<&RetireEvent>) -> Option<u64> {
    match p {
        Some(e) => Some(e.pc),
        None => None,
    }
}

/// Read a value of the width of `like` through the sniffer.
pub fn sniff_read_like<M: Memory>(mem: &mut MemSniffer<M>, addr: u64, like: Data) -> (r: Data)
    ensures
        final(mem).mem.mview() == old(mem).mem.mview(),
        r == read_like(old(mem).mem.mview(), addr, like),
        final(mem).log@ == old(mem).log@.push(MemAccess { kind: AccessKind::Read, addr }),
{
    match like {
        Data::U8(_) => Data::U8(mem.r8(addr)),
        Data::U16(_) => Data::U16(mem.r16(addr)),
        Data::U32(_) => Data::U32(mem.r32(addr)),
        Data::U64(_) => Data::U64(mem.r64(addr)),
        Data::U128(_) => Data::U128(mem.r128(addr)),
    }
}

/// Store a value through the sniffer.
pub fn sniff_write_data<M: Memory>(mem: &mut MemSniffer<M>, addr: u64, val: Data)
    ensures
        final(mem).mem.mview() == write_data(old(mem).mem.mview(), addr, val),
        final(mem).log@ == old(mem).log@.push(MemAccess { kind: AccessKind::Write, addr }),
{
    match val {
        Data::U8(v) => mem.w8(addr, v),
        Data::U16(v) => mem.w16(addr, v),
        Data::U32(v) => mem.w32(addr, v),
        Data::U64(v) => mem.w64(addr, v),
        Data::U128(v) => mem.w128(addr, v),
    }
}

/// A store keeps the memory domain total.
pub proof fn lemma_write_data_dom(m: Map<u64, u8>, a: u64, d: Data)
    requires
        m.dom() == Set::<u64>::full(),
    ensures
        write_data(m, a, d).dom() == Set::<u64>::full(),
{
    match d {
        Data::U8(v) => {
            assert(write8(m, a, v).dom() =~= Set::<u64>::full());
        },
        Data::U16(v) => {
            lemma_le_bytes_len(v as int, 2);
            lemma_write_bytes_dom_full(m, a, le_bytes(v as int, 2));
        },
        Data::U32(v) => {
            lemma_le_bytes_len(v as int, 4);
            lemma_write_bytes_dom_full(m, a, le_bytes(v as int, 4));
        },
        Data::U64(v) => {
            lemma_le_bytes_len(v as int, 8);
            lemma_write_bytes_dom_full(m, a, le_bytes(v as int, 8));
        },
        Data::U128(v) => {
            lemma_le_bytes_len(v as int, 16);
            lemma_write_bytes_dom_full(m, a, le_bytes(v as int, 16));
        },
    }
}

/// A forward step keeps the memory domain total.
pub proof fn lemma_step_mem_dom(m: Map<u64, u8>, e: EventV)
    requires
        m.dom() == Set::<u64>::full(),
    ensures
        spec_step_mem(m, e).dom() == Set::<u64>::full(),
{
    match e.store {
        Some(st) => {
            lemma_write_data_dom(m, st.phys_addr, st.value);
        },
        None => {},
    }
}

impl Clone for Cpu {
    fn clone(&self) -> (r: Self)
        ensures
            r@ == self@,
    {
        let r = Cpu {
            pc: self.pc,
            privilege: self.privilege,
            xregs: self.xregs.clone(),
            fregs: self.fregs.clone(),
            csrs: self.csrs.clone(),
        };
        proof {
            assert(r.xregs@ =~= self.xregs@);
            assert(r.fregs@ =~= self.fregs@);
            assert(r@ =~= self@);
        }
        r
    }
}

impl Cpu {
    /// A fresh hart.
    pub fn new() -> (r: Cpu)
        ensures
            r@ == cpu_init(),
            cpu_wf(r@),
    {
        let mut xregs: Vec<u64> = Vec::new();
        let mut fregs: Vec<u64> = Vec::new();
        let mut i: usize = 0;
        while i < 32
            invariant
                i <= 32,
                xregs@.len() == i,
                fregs@.len() == i,
                forall|j: int| 0 <= j < i ==> xregs@[j] == 0 && fregs@[j] == 0,
            decreases 32 - i,
        {
            xregs.push(0);
            fregs.push(0);
            i += 1;
        }
        let r = Cpu { pc: 0, privilege: Privilege::Machine, xregs, fregs, csrs: HashMap::new() };
        proof {
            assert(r@.xregs =~= cpu_init().xregs);
            assert(r@.fregs =~= cpu_init().fregs);
            assert(r@.csrs =~= cpu_init().csrs);
            assert(r@ =~= cpu_init());
        }
        r
    }

    /// Perform a trace step, and fill in the previous values in the event.
    pub fn step<M: Memory>(&mut self, mem: &mut MemSniffer<M>, event: &mut RetireEvent)
        requires
            old(self)@.xregs.len() == 32,
            event_wf(old(event)@),
        ensures
            final(self)@ == spec_step_cpu(old(self)@, old(event)@),
            final(mem).mem.mview() == spec_step_mem(old(mem).mem.mview(), old(event)@),
            final(event)@ == spec_step_event(old(self)@, old(mem).mem.mview(), old(event)@),
            final(mem).log@ == old(mem).log@ + step_accesses(old(event)@),
    {
        self.pc = event.pc;

        // X register write.
        match event.xwrite {
            Some(xw) => {
                let prev = self.xregs[xw.index as usize];
                self.xregs.set(xw.index as usize, xw.value);
                event.xwrite = Some(XRegWrite { prev_value: Some(prev), ..xw });
            },
            None => {},
        }

        // Memory store.
        match event.store {
            Some(st) => {
                let prev = sniff_read_like(mem, st.phys_addr, st.value);
                sniff_write_data(mem, st.phys_addr, st.value);
                event.store = Some(MemWrite { prev_value: Some(prev), ..st });
            },
            None => {},
        }

        proof {
            assert(self@ =~= spec_step_cpu(old(self)@, old(event)@));
            assert(event@ =~= spec_step_event(old(self)@, old(mem).mem.mview(), old(event)@));
            assert(mem.log@ =~= old(mem).log@ + step_accesses(old(event)@));
        }
    }

    /// Undo a step (i.e. step backwards).
    pub fn step_undo<M: Memory>(
        &mut self,
        mem: &mut MemSniffer<M>,
        event: &RetireEvent,
        prev_event: Option<&RetireEvent>,
    )
        requires
            old(self)@.xregs.len() == 32,
            event_wf(event@),
        ensures
            final(self)@ == spec_undo_cpu(old(self)@, event@, spec_prev_pc(prev_event)),
            final(mem).mem.mview() == spec_undo_mem(old(mem).mem.mview(), event@),
            final(mem).log@ == old(mem).log@ + undo_accesses(event@),
    {
        match prev_event {
            Some(prev) => {
                self.pc = prev.pc;
            },
            None => {},
        }

        // X register write.
        match event.xwrite {
            Some(xw) => match xw.prev_value {
                Some(pv) => {
                    self.xregs.set(xw.index as usize, pv);
                },
                None => {},
            },
            None => {},
        }

        // Memory store.
        match event.store {
            Some(st) => match st.prev_value {
                Some(pv) => {
                    sniff_write_data(mem, st.phys_addr, pv);
                },
                None => {},
            },
            None => {},
        }

        proof {
            assert(self@ =~= spec_undo_cpu(old(self)@, event@, spec_prev_pc(prev_event)));
            assert(mem.log@ =~= old(mem).log@ + undo_accesses(event@));
        }
    }
}

/// Forward-stepping one event and then undoing it restores the hart and the
/// memory bit for bit, provided the undo rewinds the PC to what it was.
pub proof fn lemma_step_undo_inverse(c: CpuV, m: Map<u64, u8>, e: EventV)
    requires
        cpu_wf(c),
        event_wf(e),
        m.dom() == Set::<u64>::full(),
    ensures
        spec_undo_cpu(spec_step_cpu(c, e), spec_step_event(c, m, e), Some(c.pc)) == c,
        spec_undo_mem(spec_step_mem(m, e), spec_step_event(c, m, e)) == m,
{
    let filled = spec_step_event(c, m, e);

    // hart
    match e.xwrite {
        Some(xw) => {
            let i = xw.index as int;
            assert(c.xregs.update(i, xw.value).update(i, c.xregs[i]) =~= c.xregs);
        },
        None => {},
    }
    assert(spec_undo_cpu(spec_step_cpu(c, e), filled, Some(c.pc)) =~= c);

    // memory
    match e.store {
        Some(st) => {
            let a = st.phys_addr;
            lemma_pow256_values();
            lemma_undo_store(m, a, st.value);
        },
        None => {},
    }
}

/// Writing a store's pre-image back over the store restores the memory.
proof fn lemma_undo_store(m: Map<u64, u8>, a: u64, v: Data)
    requires
        m.dom() == Set::<u64>::full(),
    ensures
        write_data(write_data(m, a, v), a, read_like(m, a, v)) == m,
{
    lemma_pow256_values();
    let n: nat = match v {
        Data::U8(_) => 1,
        Data::U16(_) => 2,
        Data::U32(_) => 4,
        Data::U64(_) => 8,
        Data::U128(_) => 16,
    };
    let bs = match v {
        Data::U8(x) => le_bytes(x as int, 1),
        Data::U16(x) => le_bytes(x as int, 2),
        Data::U32(x) => le_bytes(x as int, 4),
        Data::U64(x) => le_bytes(x as int, 8),
        Data::U128(x) => le_bytes(x as int, 16),
    };
    let rb = read_bytes(m, a, n);
    lemma_le_bytes_len(
        match v {
            Data::U8(x) => x as int,
            Data::U16(x) => x as int,
            Data::U32(x) => x as int,
            Data::U64(x) => x as int,
            Data::U128(x) => x as int,
        },
        n,
    );
    lemma_from_le_bound(rb);
    lemma_le_from_le(rb);
    match v {
        Data::U8(_) => {
            assert(write_data(m, a, v) == write_bytes(m, a, bs) || n == 1);
            // an 8-bit store is a plain insert; handle it directly
            let m1 = write8(m, a, v->U8_0);
            let pv = read_like(m, a, v);
            assert(write_data(m1, a, pv) =~= m);
        },
        Data::U16(_) => {
            assert(le_bytes(read16(m, a) as int, 2) == rb);
            lemma_write_bytes_undo(m, a, bs);
        },
        Data::U32(_) => {
            assert(le_bytes(read32(m, a) as int, 4) == rb);
            lemma_write_bytes_undo(m, a, bs);
        },
        Data::U64(_) => {
            assert(le_bytes(read64(m, a) as int, 8) == rb);
            lemma_write_bytes_undo(m, a, bs);
        },
        Data::U128(_) => {
            assert(le_bytes(read128(m, a) as int, 16) == rb);
            lemma_write_bytes_undo(m, a, bs);
        },
    }
}

} // verus!
