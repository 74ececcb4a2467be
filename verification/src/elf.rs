//! ELF image handling: a trusted parse through an outside ELF parser into a
//! plain-value description, and a verified loader that copies every
//! allocated, non-NOBITS section into the sparse memory at its virtual
//! address and seeds the PC with the entry point.

use vstd::prelude::*;

use crate::cpu::{cpu_init, Cpu, CpuV};
use crate::machine::{InitState, Machine};
use crate::memory::{mem_zero, write8, write_bytes, Memory, SimpleMemory};
use crate::trace::{trace_prev_none, trace_view, trace_wf, RetireEvent, Xlen};

verus! {

/// One section header, reduced to what loading reads.
#[derive(Clone, Copy, Debug, PartialEq, Eq, Structural)]
pub struct ElfSection {
    pub sh_type: u32,
    pub sh_flags: u64,
    pub sh_addr: u64,
    pub sh_offset: u64,
    pub sh_size: u64,
}

/// What the loader reads of an ELF image.
#[derive(Clone, Debug, PartialEq, Eq)]
pub struct ElfInfo {
    pub entry: u64,
    pub little_endian: bool,
    pub is_64: bool,
    pub machine: u16,
    pub sections: Vec<ElfSection>,
}

/// The model of an image description.
pub ghost struct ElfInfoV {
    pub entry: u64,
    pub little_endian: bool,
    pub is_64: bool,
    pub machine: u16,
    pub sections: Seq<ElfSection>,
}

impl View for ElfInfo {
    type V = ElfInfoV;

    open spec fn view(&self) -> ElfInfoV {
        ElfInfoV {
            entry: self.entry,
            little_endian: self.little_endian,
            is_64: self.is_64,
            machine: self.machine,
            sections: self.sections@,
        }
    }
}

/// What the outside ELF parser makes of the bytes: the parse depends on the
/// bytes alone, so its result carries a name the contracts can speak of.
pub uninterp spec fn elf_parse_of(bytes: Seq<u8>) -> Option<ElfInfoV>;

/// Why a machine could not be built from an image.
#[derive(Clone, Copy, Debug, PartialEq, Eq, Structural)]
pub enum MachineError {
    BadElf,
    NotLittleEndian,
    NotRiscv,
    EntryOutOfRange,
    SectionOutOfRange,
}

/// Relies on `goblin::elf::Elf::parse`: the ELF header and section table of
/// the image, reduced to plain values; `None` where goblin rejects the
/// bytes. The parse reads the bytes alone, so its result is `elf_parse_of`
/// of them.
#[verifier::external_body]
fn parse_elf(bytes: &[u8]) -> (r: Option<ElfInfo>)
    ensures
        r matches Some(info) ==> elf_parse_of(bytes@) == Some(info@),
        r is None ==> elf_parse_of(bytes@) is None,
{
    let elf = match goblin::elf::Elf::parse(bytes) {
        Ok(e) => e,
        Err(_) => return None,
    };
    let sections = elf.section_headers.iter().map(|h| ElfSection {
        sh_type: h.sh_type, sh_flags: h.sh_flags, sh_addr: h.sh_addr,
        sh_offset: h.sh_offset, sh_size: h.sh_size,
    }).collect();
    Some(ElfInfo {
        entry: elf.entry, little_endian: elf.little_endian, is_64: elf.is_64,
        machine: elf.header.e_machine, sections,
    })
}

/// A section the loader copies: allocated and not NOBITS.
pub open spec fn section_loadable(s: ElfSection) -> bool {
    s.sh_flags & 2 != 0 && s.sh_type != 8
}

/// A loadable section's bytes lie inside the image.
pub open spec fn section_in_range(s: ElfSection, elf: Seq<u8>) -> bool {
    section_loadable(s) ==> s.sh_offset + s.sh_size <= elf.len()
}

/// Memory after one section is copied to its virtual address.
pub open spec fn spec_load_section(m: Map<u64, u8>, s: ElfSection, elf: Seq<u8>) -> Map<u64, u8> {
    if section_loadable(s) {
        write_bytes(m, s.sh_addr, elf.subrange(s.sh_offset as int, s.sh_offset + s.sh_size))
    } else {
        m
    }
}

/// Memory after the sections are copied in table order.
pub open spec fn spec_load_sections(m: Map<u64, u8>, sections: Seq<ElfSection>, elf: Seq<u8>) -> Map<
    u64,
    u8,
>
    decreases sections.len(),
{
    if sections.len() == 0 {
        m
    } else {
        spec_load_sections(spec_load_section(m, sections[0], elf), sections.drop_first(), elf)
    }
}

/// The register width the ELF class selects.
pub open spec fn spec_elf_xlen(info: ElfInfoV) -> Xlen {
    if info.is_64 {
        Xlen::X64
    } else {
        Xlen::X32
    }
}

/// An image the machine accepts: little-endian RISC-V, an entry point that
/// fits the register width, and loadable sections inside the image.
pub open spec fn image_ok(info: ElfInfoV, elf: Seq<u8>) -> bool {
    &&& info.little_endian
    &&& info.machine == 243
    &&& (spec_elf_xlen(info) == Xlen::X32 ==> info.entry < 0x1_0000_0000)
    &&& (forall|i: int|
        0 <= i < info.sections.len() ==> section_in_range(#[trigger] info.sections[i], elf))
}

/// Copy every loadable section into memory.
#[verifier::loop_isolation(false)]
fn load_sections(mem: &mut SimpleMemory, info: &ElfInfo, elf: &Vec<u8>) -> (ok: bool)
    ensures
        ok == (forall|i: int|
            0 <= i < info.sections@.len() ==> section_in_range(#[trigger] info.sections@[i], elf@)),
        ok ==> final(mem)@ == spec_load_sections(old(mem)@, info.sections@, elf@),
        !ok ==> final(mem)@ == old(mem)@,
{
    // validate first, so that a refused image leaves the memory untouched
    let mut i: usize = 0;
    while i < info.sections.len()
        invariant
            i <= info.sections@.len(),
            forall|j: int| 0 <= j < i ==> section_in_range(#[trigger] info.sections@[j], elf@),
            *mem == *old(mem),
        decreases info.sections@.len() - i,
    {
        let s = info.sections[i];
        if (s.sh_flags & 2 != 0) && s.sh_type != 8 {
            if s.sh_size > elf.len() as u64 || s.sh_offset > elf.len() as u64 - s.sh_size {
                return false;
            }
        }
        i += 1;
    }

    let ghost m0 = mem@;
    proof {
        assert(info.sections@.skip(0) =~= info.sections@);
    }
    let mut k: usize = 0;
    while k < info.sections.len()
        invariant
            k <= info.sections@.len(),
            forall|j: int| 0 <= j < info.sections@.len() ==> section_in_range(
                #[trigger] info.sections@[j],
                elf@,
            ),
            spec_load_sections(m0, info.sections@, elf@) == spec_load_sections(
                mem@,
                info.sections@.skip(k as int),
                elf@,
            ),
        decreases info.sections@.len() - k,
    {
        let s = info.sections[k];
        let ghost pre = mem@;
        proof {
            assert(info.sections@.skip(k as int)[0] == info.sections@[k as int]);
            assert(info.sections@.skip(k as int).drop_first() =~= info.sections@.skip(k + 1));
        }
        if (s.sh_flags & 2 != 0) && s.sh_type != 8 {
            let elen: usize = elf.len();
            proof {
                assert(section_in_range(info.sections@[k as int], elf@));
                assert(section_loadable(s));
                assert(s.sh_offset + s.sh_size <= elen);
            }
            let off = s.sh_offset as usize;
            let size = s.sh_size as usize;
            proof {
                assert(off == s.sh_offset && size == s.sh_size);
            }
            let ghost bytes = elf@.subrange(s.sh_offset as int, s.sh_offset + s.sh_size);
            let mut b: usize = 0;
            while b < size
                invariant
                    b <= size,
                    off + size <= elf@.len(),
                    bytes == elf@.subrange(s.sh_offset as int, s.sh_offset + s.sh_size),
                    off == s.sh_offset,
                    size == s.sh_size,
                    mem@ == write_bytes(pre, s.sh_addr, bytes.take(b as int)),
                decreases size - b,
            {
                proof {
                    crate::memory::lemma_addr_off_is_wrapping(s.sh_addr, b as u64);
                    crate::memory::lemma_write_bytes_append(
                        pre,
                        s.sh_addr,
                        bytes.take(b as int),
                        seq![bytes[b as int]],
                    );
                    crate::memory::lemma_write_bytes_one(
                        write_bytes(pre, s.sh_addr, bytes.take(b as int)),
                        crate::memory::addr_off(s.sh_addr, b as int),
                        bytes[b as int],
                    );
                    assert(bytes.take(b + 1) =~= bytes.take(b as int) + seq![bytes[b as int]]);
                }
                let byte = elf[off + b];
                proof {
                    assert(bytes[b as int] == elf@[off + b]);
                }
                mem.w8(s.sh_addr.wrapping_add(b as u64), byte);
                b += 1;
            }
            proof {
                assert(bytes.take(size as int) =~= bytes);
                assert(mem@ == spec_load_section(pre, s, elf@));
            }
        } else {
            proof {
                assert(mem@ == spec_load_section(pre, s, elf@));
            }
        }
        k += 1;
    }
    proof {
        assert(info.sections@.skip(info.sections@.len() as int) =~= Seq::<ElfSection>::empty());
    }
    true
}

/// A machine freshly loaded from an image: the hart sits at the entry point
/// with zeroed registers, the memory holds exactly the loaded sections, the
/// cursor is at the start, every table is empty, no frame is selected and
/// tracing is off; the loaded state is the one the replay is measured
/// against.
pub open spec fn machine_fresh_from(
    m: Machine,
    info: ElfInfoV,
    elf: Seq<u8>,
    trace: Seq<crate::trace::EventV>,
) -> bool {
    let cpu0 = CpuV { pc: info.entry, ..cpu_init() };
    let mem0 = spec_load_sections(mem_zero(), info.sections, elf);
    &&& m.inv()
    &&& m.init@ == (InitState { cpu: cpu0, mem: mem0, trace })
    &&& m.xlen == spec_elf_xlen(info)
    &&& m.cpu@ == cpu0
    &&& m.mem@ == mem0
    &&& m.trace_index == 0
    &&& m.entry == info.entry
    &&& m.exec_mode is Continue
    &&& m.exec_dir is Forwards
    &&& m.watchpoints@ == Seq::<u64>::empty()
    &&& m.breakpoints@ == Seq::<u64>::empty()
    &&& m.files@ == Seq::<bool>::empty()
    &&& m.tracepoints@ == Seq::<crate::machine::TracepointDef>::empty()
    &&& crate::machine::frames_view(m.traceframes@) == Seq::<crate::machine::FrameV>::empty()
    &&& !m.tracing
    &&& m.selected_frame is None
}

/// Which error a refused image gives, and on exactly which images it comes.
pub open spec fn image_error_fits(e: MachineError, info: ElfInfoV, elf: Seq<u8>) -> bool {
    match e {
        MachineError::NotLittleEndian => !info.little_endian,
        MachineError::NotRiscv => info.little_endian && info.machine != 243,
        MachineError::EntryOutOfRange => info.little_endian && info.machine == 243
            && spec_elf_xlen(info) == Xlen::X32 && info.entry >= 0x1_0000_0000,
        MachineError::SectionOutOfRange => info.little_endian && info.machine == 243 && (
        spec_elf_xlen(info) == Xlen::X32 ==> info.entry < 0x1_0000_0000) && !(forall|i: int|
            0 <= i < info.sections.len() ==> section_in_range(#[trigger] info.sections[i], elf)),
        MachineError::BadElf => false,
    }
}

impl Machine {
    /// Build a machine from a parsed image description: validate that the
    /// image is little-endian RISC-V with a representable entry point, load
    /// the sections, and seed the PC with the entry point. The loaded state
    /// becomes the initial state the replay is measured against.
    pub fn from_image(info: &ElfInfo, elf: Vec<u8>, trace: Vec<RetireEvent>) -> (r: Result<
        Machine,
        MachineError,
    >)
        requires
            trace_wf(trace_view(trace@)),
            trace_prev_none(trace_view(trace@)),
        ensures
            r is Ok <==> image_ok(info@, elf@),
            r matches Ok(m) ==> machine_fresh_from(m, info@, elf@, trace_view(trace@)),
            r matches Ok(m) ==> m.trace == trace && m.elf == elf,
            r matches Err(e) ==> image_error_fits(e, info@, elf@),
    {
        if !info.little_endian {
            return Err(MachineError::NotLittleEndian);
        }
        if info.machine != 243 {
            return Err(MachineError::NotRiscv);
        }
        let xlen = if info.is_64 {
            Xlen::X64
        } else {
            Xlen::X32
        };
        if !info.is_64 && info.entry > 0xFFFF_FFFF {
            return Err(MachineError::EntryOutOfRange);
        }
        let mut cpu = Cpu::new();
        let mut mem = SimpleMemory::new();
        if !load_sections(&mut mem, info, &elf) {
            return Err(MachineError::SectionOutOfRange);
        }
        cpu.pc = info.entry;
        proof {
            assert(cpu@ =~= (CpuV { pc: info.entry, ..cpu_init() }));
            crate::memory::lemma_simple_memory_dom(&mem);
        }
        let m = Machine::from_parts(xlen, cpu, mem, trace, elf, info.entry);
        proof {
            assert(crate::machine::frames_view(m.traceframes@)
                =~= Seq::<crate::machine::FrameV>::empty());
        }
        Ok(m)
    }

    /// Build a machine from raw ELF bytes and a parsed trace: parse the
    /// image, then load it. The ELF bytes are kept to be served verbatim to
    /// the client.
    pub fn new(elf: Vec<u8>, trace: Vec<RetireEvent>) -> (r: Result<Machine, MachineError>)
        requires
            trace_wf(trace_view(trace@)),
            trace_prev_none(trace_view(trace@)),
        ensures
            r == Err::<Machine, MachineError>(MachineError::BadElf) <==> elf_parse_of(
                elf@,
            ) is None,
            (match elf_parse_of(elf@) {
                Some(info) => {
                    &&& (r is Ok <==> image_ok(info, elf@))
                    &&& (r matches Ok(m) ==> machine_fresh_from(m, info, elf@, trace_view(trace@))
                        && m.trace == trace && m.elf == elf)
                    &&& (r matches Err(e) ==> image_error_fits(e, info, elf@))
                },
                None => r == Err::<Machine, MachineError>(MachineError::BadElf),
            }),
    {
        let info = match parse_elf(elf.as_slice()) {
            Some(i) => i,
            None => {
                return Err(MachineError::BadElf);
            },
        };
        Machine::from_image(&info, elf, trace)
    }
}

} // verus!
