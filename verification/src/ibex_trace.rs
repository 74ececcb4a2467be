//! Parser for the legacy trace flavor.
//!
//! Records are tab-separated: `time` and `cycle` in decimal, `pc` and
//! `instruction` in hex, then the mnemonic and argument fields, then
//! whitespace-separated access tokens. A store value is a single hex word
//! whose width is inferred from the instruction's load/store encoding.

use vstd::prelude::*;
use vstd::slice::slice_subrange;

use crate::lex::{
    spec_parse_dec, spec_parse_hex, spec_split, spec_tokens, spec_trim, parse_dec_u64,
    parse_hex_width, split_bytes, tokenize, trim_bytes,
};
use crate::trace::{EventV, MemWrite, ParseErr, RetireEvent, TraceError, XRegWrite, Xlen, Data};

verus! {

/// Numeric bound of one register of the given width.
pub open spec fn xlen_bound(x: Xlen) -> int {
    match x {
        Xlen::X32 => 0x1_0000_0000,
        Xlen::X64 => 0x1_0000_0000_0000_0000,
    }
}

pub open spec fn starts_with(s: Seq<u8>, p: Seq<u8>) -> bool {
    s.len() >= p.len() && s.take(p.len() as int) == p
}

/// The literal `store:0x`.
pub open spec fn lit_store0x() -> Seq<u8> {
    seq![115u8, 116u8, 111u8, 114u8, 101u8, 58u8, 48u8, 120u8]
}

/// The literal `PA:0x`.
pub open spec fn lit_pa0x() -> Seq<u8> {
    seq![80u8, 65u8, 58u8, 48u8, 120u8]
}

/// The literal `Time`, which opens a header line.
pub open spec fn lit_time() -> Seq<u8> {
    seq![84u8, 105u8, 109u8, 101u8]
}

/// Width class of a memory access, inferred from the instruction word.
#[derive(Clone, Copy, Debug, PartialEq, Eq, Structural)]
pub enum AccessWidth {
    Byte,
    Half,
    Word,
}

impl AccessWidth {
    pub open spec fn bytes(self) -> int {
        match self {
            AccessWidth::Byte => 1,
            AccessWidth::Half => 2,
            AccessWidth::Word => 4,
        }
    }
}

/// The load/store width encoded by an instruction word, over the standard
/// RISC-V and compressed load/store encodings the traced core retires.
pub open spec fn spec_access_width(instruction: u32) -> Option<AccessWidth> {
    if instruction & 0x707f == 0x3 {
        Some(AccessWidth::Byte)  // LB
    } else if instruction & 0x707f == 0x1003 {
        Some(AccessWidth::Half)  // LH
    } else if instruction & 0x707f == 0x2003 {
        Some(AccessWidth::Word)  // LW
    } else if instruction & 0x707f == 0x23 {
        Some(AccessWidth::Byte)  // SB
    } else if instruction & 0x707f == 0x1023 {
        Some(AccessWidth::Half)  // SH
    } else if instruction & 0x707f == 0x2023 {
        Some(AccessWidth::Word)  // SW
    } else if instruction & 0xe003 == 0x4000 {
        Some(AccessWidth::Word)  // C.LW
    } else if instruction & 0xe003 == 0xc000 {
        Some(AccessWidth::Word)  // C.SW
    } else if instruction & 0xe003 == 0x4002 {
        Some(AccessWidth::Word)  // C.LWSP
    } else if instruction & 0xe003 == 0xc002 {
        Some(AccessWidth::Word)  // C.SWSP
    } else {
        None
    }
}

/// Match the instruction against the RISC-V load/store encodings the traced
/// core retires; the width of the access is the only way the legacy flavor
/// records store sizes.
pub fn instruction_access_width(instruction: u32) -> (r: Option<AccessWidth>)
    ensures
        r == spec_access_width(instruction),
{
    if instruction & 0x707f == 0x3 {
        Some(AccessWidth::Byte)
    } else if instruction & 0x707f == 0x1003 {
        Some(AccessWidth::Half)
    } else if instruction & 0x707f == 0x2003 {
        Some(AccessWidth::Word)
    } else if instruction & 0x707f == 0x23 {
        Some(AccessWidth::Byte)
    } else if instruction & 0x707f == 0x1023 {
        Some(AccessWidth::Half)
    } else if instruction & 0x707f == 0x2023 {
        Some(AccessWidth::Word)
    } else if instruction & 0xe003 == 0x4000 {
        Some(AccessWidth::Word)
    } else if instruction & 0xe003 == 0xc000 {
        Some(AccessWidth::Word)
    } else if instruction & 0xe003 == 0x4002 {
        Some(AccessWidth::Word)
    } else if instruction & 0xe003 == 0xc002 {
        Some(AccessWidth::Word)
    } else {
        None
    }
}

/// An access token of the form `x<i>=0x<value>` with `i` written without a
/// leading zero and in `1..=31`: the register index and the value digits.
pub open spec fn xreg_split_legacy(tok: Seq<u8>) -> Option<(u8, Seq<u8>)> {
    if tok.len() >= 5 && tok[0] == 120 && 49 <= tok[1] <= 57 && tok[2] == 61 && tok[3] == 48
        && tok[4] == 120 {
        Some((((tok[1] - 48)) as u8, tok.skip(5)))
    } else if tok.len() >= 6 && tok[0] == 120 && 49 <= tok[1] <= 51 && 48 <= tok[2] <= 57
        && tok[3] == 61 && tok[4] == 48 && tok[5] == 120 && (tok[1] - 48) * 10 + (tok[2] - 48)
        <= 31 {
        Some((((tok[1] - 48) * 10 + (tok[2] - 48)) as u8, tok.skip(6)))
    } else {
        None
    }
}

/// Running state of the access-token scan: the store value, the physical
/// address and the register write seen so far.
pub type AccessAcc = (Option<u64>, Option<u64>, Option<XRegWrite>);

/// One access token applied to the scan state. Unrecognized tokens are
/// skipped; a second store, address or register write is an error.
pub open spec fn legacy_token_step(acc: AccessAcc, tok: Seq<u8>, xlen: Xlen) -> Result<
    AccessAcc,
    ParseErr,
> {
    if starts_with(tok, lit_store0x()) {
        if acc.0 is Some {
            Err(ParseErr::MultipleStores)
        } else {
            match spec_parse_hex(tok.skip(8), 0x1_0000_0000_0000_0000) {
                Some(v) => Ok((Some(v as u64), acc.1, acc.2)),
                None => Err(ParseErr::BadStoreValue),
            }
        }
    } else if starts_with(tok, lit_pa0x()) {
        if acc.1 is Some {
            Err(ParseErr::MultiplePhysAddrs)
        } else {
            match spec_parse_hex(tok.skip(5), 0x1_0000_0000_0000_0000) {
                Some(v) => Ok((acc.0, Some(v as u64), acc.2)),
                None => Err(ParseErr::BadPhysAddr),
            }
        }
    } else {
        match xreg_split_legacy(tok) {
            Some((i, digits)) => if acc.2 is Some {
                Err(ParseErr::MultipleXWrites)
            } else {
                match spec_parse_hex(digits, xlen_bound(xlen)) {
                    Some(v) => Ok(
                        (
                            acc.0,
                            acc.1,
                            Some(XRegWrite { index: i, value: v as u64, prev_value: None }),
                        ),
                    ),
                    None => Err(ParseErr::BadXRegValue),
                }
            },
            None => Ok(acc),
        }
    }
}

/// The access tokens scanned left to right.
pub open spec fn legacy_fold(tokens: Seq<Seq<u8>>, xlen: Xlen) -> Result<AccessAcc, ParseErr>
    decreases tokens.len(),
{
    if tokens.len() == 0 {
        Ok((None, None, None))
    } else {
        match legacy_fold(tokens.drop_last(), xlen) {
            Ok(acc) => legacy_token_step(acc, tokens.last(), xlen),
            Err(e) => Err(e),
        }
    }
}

/// Assemble the store: the width comes from the instruction word, and the
/// recorded value must fit it.
pub open spec fn legacy_store(sv: Option<u64>, pa: Option<u64>, instruction: u32) -> Result<
    Option<MemWrite>,
    ParseErr,
> {
    match (sv, pa) {
        (Some(v), Some(a)) => match spec_access_width(instruction) {
            Some(AccessWidth::Byte) => if v <= 0xFF {
                Ok(Some(MemWrite { phys_addr: a, value: Data::U8(v as u8), prev_value: None }))
            } else {
                Err(ParseErr::StoreTooWide)
            },
            Some(AccessWidth::Half) => if v <= 0xFFFF {
                Ok(Some(MemWrite { phys_addr: a, value: Data::U16(v as u16), prev_value: None }))
            } else {
                Err(ParseErr::StoreTooWide)
            },
            Some(AccessWidth::Word) => if v <= 0xFFFF_FFFF {
                Ok(Some(MemWrite { phys_addr: a, value: Data::U32(v as u32), prev_value: None }))
            } else {
                Err(ParseErr::StoreTooWide)
            },
            None => Err(ParseErr::UnknownAccessWidth),
        },
        (None, _) => Ok(None),
        (Some(_), None) => Err(ParseErr::StoreWithoutPa),
    }
}

/// One record of the legacy flavor.
pub open spec fn spec_read_line(line: Seq<u8>, xlen: Xlen) -> Result<EventV, ParseErr> {
    let fields = spec_split(line, 9);
    if fields.len() < 4 {
        Err(ParseErr::FieldCount)
    } else {
        match spec_parse_dec(spec_trim(fields[0]), 0x1_0000_0000_0000_0000) {
            None => Err(ParseErr::BadTime),
            Some(time) => match spec_parse_dec(spec_trim(fields[1]), 0x1_0000_0000_0000_0000) {
                None => Err(ParseErr::BadCycle),
                Some(cycle) => match spec_parse_hex(fields[2], xlen_bound(xlen)) {
                    None => Err(ParseErr::BadPc),
                    Some(pc) => match spec_parse_hex(spec_trim(fields[3]), 0x1_0000_0000) {
                        None => Err(ParseErr::BadInstruction),
                        Some(instr) => {
                            let mnemonic = if fields.len() > 4 {
                                fields[4]
                            } else {
                                Seq::empty()
                            };
                            let args = if fields.len() > 5 {
                                fields[5]
                            } else {
                                Seq::empty()
                            };
                            let accesses = if fields.len() > 6 {
                                fields[6]
                            } else {
                                Seq::empty()
                            };
                            match legacy_fold(spec_tokens(accesses), xlen) {
                                Err(e) => Err(e),
                                Ok((sv, pa, xw)) => match legacy_store(sv, pa, instr as u32) {
                                    Err(e) => Err(e),
                                    Ok(store) => Ok(
                                        EventV {
                                            time: time as u64,
                                            cycle: cycle as u64,
                                            pc: pc as u64,
                                            trap: false,
                                            instruction: Some(instr as u32),
                                            assembly_mnemonic: mnemonic,
                                            assembly_args: args,
                                            xwrite: xw,
                                            store,
                                        },
                                    ),
                                },
                            }
                        },
                    },
                },
            },
        }
    }
}

/// Strip `store:0x` from an access token.
fn strip_store0x(tok: &[u8]) -> (r: Option<&[u8]>)
    ensures
        starts_with(tok@, lit_store0x()) ==> (r matches Some(v) && v@ == tok@.skip(8)),
        !starts_with(tok@, lit_store0x()) ==> r is None,
{
    if tok.len() >= 8 && tok[0] == 115 && tok[1] == 116 && tok[2] == 111 && tok[3] == 114
        && tok[4] == 101 && tok[5] == 58 && tok[6] == 48 && tok[7] == 120 {
        proof {
            assert(tok@.take(8) =~= lit_store0x());
        }
        Some(slice_subrange(tok, 8, tok.len()))
    } else {
        proof {
            if starts_with(tok@, lit_store0x()) {
                assert(tok@[0] == tok@.take(8)[0]);
                assert(tok@[1] == tok@.take(8)[1]);
                assert(tok@[2] == tok@.take(8)[2]);
                assert(tok@[3] == tok@.take(8)[3]);
                assert(tok@[4] == tok@.take(8)[4]);
                assert(tok@[5] == tok@.take(8)[5]);
                assert(tok@[6] == tok@.take(8)[6]);
                assert(tok@[7] == tok@.take(8)[7]);
            }
        }
        None
    }
}

/// Strip `PA:0x` from an access token.
fn strip_pa0x(tok: &[u8]) -> (r: Option<&[u8]>)
    ensures
        starts_with(tok@, lit_pa0x()) ==> (r matches Some(v) && v@ == tok@.skip(5)),
        !starts_with(tok@, lit_pa0x()) ==> r is None,
{
    if tok.len() >= 5 && tok[0] == 80 && tok[1] == 65 && tok[2] == 58 && tok[3] == 48 && tok[4]
        == 120 {
        proof {
            assert(tok@.take(5) =~= lit_pa0x());
        }
        Some(slice_subrange(tok, 5, tok.len()))
    } else {
        proof {
            if starts_with(tok@, lit_pa0x()) {
                assert(tok@[0] == tok@.take(5)[0]);
                assert(tok@[1] == tok@.take(5)[1]);
                assert(tok@[2] == tok@.take(5)[2]);
                assert(tok@[3] == tok@.take(5)[3]);
                assert(tok@[4] == tok@.take(5)[4]);
            }
        }
        None
    }
}

/// Split an `x<i>=0x…` token into register index and value digits.
fn xreg_split_legacy_exec(tok: &[u8]) -> (r: Option<(u8, &[u8])>)
    ensures
        r matches Some((i, v)) ==> xreg_split_legacy(tok@) == Some((i, v@)),
        r is None ==> xreg_split_legacy(tok@) is None,
{
    if tok.len() >= 5 && tok[0] == 120 && 49 <= tok[1] && tok[1] <= 57 && tok[2] == 61 && tok[3]
        == 48 && tok[4] == 120 {
        Some(((tok[1] - 48), slice_subrange(tok, 5, tok.len())))
    } else if tok.len() >= 6 && tok[0] == 120 && 49 <= tok[1] && tok[1] <= 51 && 48 <= tok[2]
        && tok[2] <= 57 && tok[3] == 61 && tok[4] == 48 && tok[5] == 120 && (tok[1] - 48) * 10
        + (tok[2] - 48) <= 31 {
        Some(((tok[1] - 48) * 10 + (tok[2] - 48), slice_subrange(tok, 6, tok.len())))
    } else {
        None
    }
}

/// Numeric bound of one register of the given width, as a value.
pub fn xlen_bound_exec(x: Xlen) -> (r: u128)
    ensures
        r as int == xlen_bound(x),
        r > 0,
{
    match x {
        Xlen::X32 => 0x1_0000_0000,
        Xlen::X64 => 0x1_0000_0000_0000_0000,
    }
}

/// A scan error at any prefix is the error of the whole scan.
proof fn lemma_legacy_fold_err(tokens: Seq<Seq<u8>>, xlen: Xlen, k: int)
    requires
        0 <= k <= tokens.len(),
        legacy_fold(tokens.take(k), xlen) is Err,
    ensures
        legacy_fold(tokens, xlen) == legacy_fold(tokens.take(k), xlen),
    decreases tokens.len() - k,
{
    if k == tokens.len() {
        assert(tokens.take(k) =~= tokens);
    } else {
        assert(tokens.take(k + 1).drop_last() =~= tokens.take(k));
        assert(tokens.take(k + 1).last() == tokens[k]);
        lemma_legacy_fold_err(tokens, xlen, k + 1);
    }
}

/// Parse one record line of the legacy flavor.
#[verifier::loop_isolation(false)]
#[verifier::rlimit(50)]
pub fn read_line(line: &[u8], xlen: Xlen) -> (r: Result<RetireEvent, ParseErr>)
    ensures
        r matches Ok(e) ==> spec_read_line(line@, xlen) == Ok::<EventV, ParseErr>(e@),
        r matches Err(k) ==> spec_read_line(line@, xlen) == Err::<EventV, ParseErr>(k),
        r matches Ok(e) ==> crate::trace::event_wf(e@) && crate::trace::event_prev_none(e@),
{
    let fields = split_bytes(line, 9);
    let ghost sfields = spec_split(line@, 9);
    if fields.len() < 4 {
        return Err(ParseErr::FieldCount);
    }
    proof {
        assert(sfields[0] == fields@.map_values(|v: Vec<u8>| v@)[0]);
        assert(sfields[1] == fields@.map_values(|v: Vec<u8>| v@)[1]);
        assert(sfields[2] == fields@.map_values(|v: Vec<u8>| v@)[2]);
        assert(sfields[3] == fields@.map_values(|v: Vec<u8>| v@)[3]);
    }
    let time = match parse_dec_u64(trim_bytes(fields[0].as_slice())) {
        Some(v) => v,
        None => {
            return Err(ParseErr::BadTime);
        },
    };
    let cycle = match parse_dec_u64(trim_bytes(fields[1].as_slice())) {
        Some(v) => v,
        None => {
            return Err(ParseErr::BadCycle);
        },
    };
    let bound = xlen_bound_exec(xlen);
    let pc = match parse_hex_width(fields[2].as_slice(), bound) {
        Some(v) => v as u64,
        None => {
            return Err(ParseErr::BadPc);
        },
    };
    let instruction = match parse_hex_width(trim_bytes(fields[3].as_slice()), 0x1_0000_0000) {
        Some(v) => v as u32,
        None => {
            return Err(ParseErr::BadInstruction);
        },
    };

    let mnemonic: Vec<u8> = if fields.len() > 4 {
        fields[4].clone()
    } else {
        Vec::new()
    };
    let args: Vec<u8> = if fields.len() > 5 {
        fields[5].clone()
    } else {
        Vec::new()
    };
    let empty_accesses: Vec<u8> = Vec::new();
    let accesses: &Vec<u8> = if fields.len() > 6 {
        &fields[6]
    } else {
        &empty_accesses
    };
    let ghost saccesses = if sfields.len() > 6 {
        sfields[6]
    } else {
        Seq::<u8>::empty()
    };
    proof {
        if sfields.len() > 6 {
            assert(sfields[6] == fields@.map_values(|v: Vec<u8>| v@)[6]);
        }
        assert(accesses@ =~= saccesses);
        if sfields.len() > 4 {
            assert(sfields[4] == fields@.map_values(|v: Vec<u8>| v@)[4]);
        }
        if sfields.len() > 5 {
            assert(sfields[5] == fields@.map_values(|v: Vec<u8>| v@)[5]);
        }
        assert(mnemonic@ =~= if sfields.len() > 4 {
            sfields[4]
        } else {
            Seq::<u8>::empty()
        });
        assert(args@ =~= if sfields.len() > 5 {
            sfields[5]
        } else {
            Seq::<u8>::empty()
        });
    }

    let tokens = tokenize(accesses.as_slice());
    let ghost stokens = spec_tokens(saccesses);

    let mut store_val: Option<u64> = None;
    let mut phys_addr: Option<u64> = None;
    let mut xwrite: Option<XRegWrite> = None;
    let mut ti: usize = 0;
    while ti < tokens.len()
        invariant
            ti <= tokens@.len(),
            stokens == tokens@.map_values(|v: Vec<u8>| v@),
            legacy_fold(stokens.take(ti as int), xlen) == Ok::<AccessAcc, ParseErr>(
                (store_val, phys_addr, xwrite),
            ),
            xwrite matches Some(x) ==> 1 <= x.index <= 31 && x.prev_value is None,
        decreases tokens@.len() - ti,
    {
        let tok = tokens[ti].as_slice();
        let ghost acc0: AccessAcc = (store_val, phys_addr, xwrite);
        proof {
            assert(stokens[ti as int] == tokens@.map_values(|v: Vec<u8>| v@)[ti as int]);
            assert(stokens.take(ti + 1).drop_last() =~= stokens.take(ti as int));
            assert(stokens.take(ti + 1).last() == stokens[ti as int]);
            assert(legacy_fold(stokens.take(ti + 1), xlen) == legacy_token_step(
                acc0,
                stokens[ti as int],
                xlen,
            ));
            if legacy_token_step(acc0, stokens[ti as int], xlen) is Err {
                lemma_legacy_fold_err(stokens, xlen, ti + 1);
            }
        }
        match strip_store0x(tok) {
            Some(val) => {
                if store_val.is_some() {
                    return Err(ParseErr::MultipleStores);
                }
                match parse_hex_width(val, 0x1_0000_0000_0000_0000) {
                    Some(v) => {
                        store_val = Some(v as u64);
                    },
                    None => {
                        return Err(ParseErr::BadStoreValue);
                    },
                }
            },
            None => {
                match strip_pa0x(tok) {
                    Some(val) => {
                        if phys_addr.is_some() {
                            return Err(ParseErr::MultiplePhysAddrs);
                        }
                        match parse_hex_width(val, 0x1_0000_0000_0000_0000) {
                            Some(v) => {
                                phys_addr = Some(v as u64);
                            },
                            None => {
                                return Err(ParseErr::BadPhysAddr);
                            },
                        }
                    },
                    None => {
                        match xreg_split_legacy_exec(tok) {
                            Some((index, digits)) => {
                                if xwrite.is_some() {
                                    return Err(ParseErr::MultipleXWrites);
                                }
                                match parse_hex_width(digits, bound) {
                                    Some(v) => {
                                        xwrite = Some(
                                            XRegWrite {
                                                index,
                                                value: v as u64,
                                                prev_value: None,
                                            },
                                        );
                                    },
                                    None => {
                                        return Err(ParseErr::BadXRegValue);
                                    },
                                }
                            },
                            None => {},
                        }
                    },
                }
            },
        }
        ti += 1;
    }
    proof {
        assert(stokens.take(stokens.len() as int) =~= stokens);
    }

    let store = match (store_val, phys_addr) {
        (Some(v), Some(a)) => match instruction_access_width(instruction) {
            Some(AccessWidth::Byte) => if v <= 0xFF {
                Some(MemWrite { phys_addr: a, value: Data::U8(v as u8), prev_value: None })
            } else {
                return Err(ParseErr::StoreTooWide);
            },
            Some(AccessWidth::Half) => if v <= 0xFFFF {
                Some(MemWrite { phys_addr: a, value: Data::U16(v as u16), prev_value: None })
            } else {
                return Err(ParseErr::StoreTooWide);
            },
            Some(AccessWidth::Word) => if v <= 0xFFFF_FFFF {
                Some(MemWrite { phys_addr: a, value: Data::U32(v as u32), prev_value: None })
            } else {
                return Err(ParseErr::StoreTooWide);
            },
            None => {
                return Err(ParseErr::UnknownAccessWidth);
            },
        },
        (None, _) => None,
        (Some(_), None) => {
            return Err(ParseErr::StoreWithoutPa);
        },
    };

    let ev = RetireEvent {
        time,
        cycle,
        pc,
        trap: false,
        instruction: Some(instruction),
        assembly_mnemonic: mnemonic,
        assembly_args: args,
        xwrite,
        store,
    };
    proof {
        assert(spec_read_line(line@, xlen) == Ok::<EventV, ParseErr>(ev@));
    }
    Ok(ev)
}


/// The records of a whole trace text, starting at line `i` (zero-based);
/// errors carry the one-based line number.
pub open spec fn spec_parse_lines(lines: Seq<Seq<u8>>, i: int, xlen: Xlen) -> Result<
    Seq<EventV>,
    (int, ParseErr),
>
    decreases lines.len() - i,
{
    if i < 0 || i >= lines.len() {
        Ok(Seq::empty())
    } else if starts_with(lines[i], lit_time()) {
        spec_parse_lines(lines, i + 1, xlen)
    } else {
        match spec_read_line(lines[i], xlen) {
            Ok(e) => match spec_parse_lines(lines, i + 1, xlen) {
                Ok(rest) => Ok(seq![e] + rest),
                Err(x) => Err(x),
            },
            Err(k) => Err((i + 1, k)),
        }
    }
}

/// The records of a whole trace text: lines beginning with `Time` are
/// headers and are skipped.
pub open spec fn spec_read_trace(data: Seq<u8>, xlen: Xlen) -> Result<
    Seq<EventV>,
    (int, ParseErr),
> {
    spec_parse_lines(crate::lex::spec_lines(data), 0, xlen)
}

/// Parse a whole trace text of the legacy flavor.
#[verifier::rlimit(50)]
#[verifier::spinoff_prover]
pub fn read_trace(data: &[u8], xlen: Xlen) -> (r: Result<Vec<RetireEvent>, TraceError>)
    ensures
        r matches Ok(v) ==> spec_read_trace(data@, xlen) == Ok::<Seq<EventV>, (int, ParseErr)>(
            crate::trace::trace_view(v@),
        ),
        r matches Ok(v) ==> crate::trace::trace_wf(crate::trace::trace_view(v@))
            && crate::trace::trace_prev_none(crate::trace::trace_view(v@)),
        r matches Err(te) ==> spec_read_trace(data@, xlen) == Err::<Seq<EventV>, (int, ParseErr)>(
            (te.line as int, te.kind),
        ),
{
    let lines = crate::lex::split_lines(data);
    let ghost slines = crate::lex::spec_lines(data@);
    let mut events: Vec<RetireEvent> = Vec::new();
    let mut i: usize = 0;
    proof {
        assert(crate::trace::trace_view(events@) + spec_parse_lines(slines, 0, xlen)->Ok_0
            =~= spec_parse_lines(slines, 0, xlen)->Ok_0);
    }
    while i < lines.len()
        invariant
            i <= lines@.len(),
            slines == lines@.map_values(|v: Vec<u8>| v@),
            slines == crate::lex::spec_lines(data@),
            spec_parse_lines(slines, 0, xlen) == (match spec_parse_lines(slines, i as int, xlen) {
                Ok(rest) => Ok::<Seq<EventV>, (int, ParseErr)>(
                    crate::trace::trace_view(events@) + rest,
                ),
                Err(x) => Err::<Seq<EventV>, (int, ParseErr)>(x),
            }),
            crate::trace::trace_wf(crate::trace::trace_view(events@)),
            crate::trace::trace_prev_none(crate::trace::trace_view(events@)),
        decreases lines@.len() - i,
    {
        let line = lines[i].as_slice();
        proof {
            assert(slines[i as int] == lines@.map_values(|v: Vec<u8>| v@)[i as int]);
        }
        let header = line.len() >= 4 && line[0] == 84 && line[1] == 105 && line[2] == 109
            && line[3] == 101;
        proof {
            if header {
                assert(line@.take(4) =~= lit_time());
            } else if starts_with(line@, lit_time()) {
                assert(line@[0] == line@.take(4)[0]);
                assert(line@[1] == line@.take(4)[1]);
                assert(line@[2] == line@.take(4)[2]);
                assert(line@[3] == line@.take(4)[3]);
            }
        }
        if !header {
            match read_line(line, xlen) {
                Ok(ev) => {
                    let ghost before = crate::trace::trace_view(events@);
                    events.push(ev);
                    proof {
                        assert(crate::trace::trace_view(events@) =~= before + seq![ev@]);
                        let rest1 = spec_parse_lines(slines, i + 1, xlen);
                        if rest1 is Ok {
                            assert((before + seq![ev@]) + rest1->Ok_0 =~= before + (seq![ev@]
                                + rest1->Ok_0));
                        }
                    }
                },
                Err(k) => {
                    return Err(TraceError { line: i + 1, kind: k });
                },
            }
        }
        i += 1;
    }
    proof {
        assert(spec_parse_lines(slines, i as int, xlen) == Ok::<Seq<EventV>, (int, ParseErr)>(
            Seq::empty(),
        ));
        assert(crate::trace::trace_view(events@) + Seq::<EventV>::empty() =~= crate::trace::trace_view(
            events@,
        ));
    }
    Ok(events)
}


/// The access tokens of a record, re-emitted: the store value, the physical
/// address, then the register write.
pub open spec fn spec_emit_tokens(e: EventV) -> Seq<Seq<u8>> {
    let st = match e.store {
        Some(st) => seq![lit_store0x() + crate::lex::hex_str(st.value.spec_value())],
        None => Seq::empty(),
    };
    let pa = match e.store {
        Some(st) => seq![lit_pa0x() + crate::lex::hex_str(st.phys_addr as int)],
        None => Seq::empty(),
    };
    let xw = match e.xwrite {
        Some(x) => seq![
            seq![120u8] + crate::lex::dec_str(x.index as int) + seq![61u8, 48u8, 120u8]
                + crate::lex::hex_str(x.value as int),
        ],
        None => Seq::empty(),
    };
    st + pa + xw
}

/// A record re-emitted in the legacy form, with the same field order.
pub open spec fn spec_emit_line(e: EventV) -> Seq<u8> {
    crate::lex::spec_join(
        seq![
            crate::lex::dec_str(e.time as int),
            crate::lex::dec_str(e.cycle as int),
            crate::lex::hex_str(e.pc as int),
            crate::lex::hex_str(
                match e.instruction {
                    Some(i) => i as int,
                    None => 0,
                },
            ),
            e.assembly_mnemonic,
            e.assembly_args,
            crate::lex::spec_join(spec_emit_tokens(e), crate::lex::SPACE),
        ],
        crate::lex::TAB,
    )
}

/// A record the legacy form can carry: no trap mark, an instruction word
/// whose load/store width matches the store's width, values that fit the
/// register width, unreplayed side effects, and free-text fields without
/// tabs.
pub open spec fn legacy_emittable(e: EventV, xlen: Xlen) -> bool {
    &&& !e.trap
    &&& e.instruction is Some
    &&& crate::trace::event_wf(e)
    &&& crate::trace::event_prev_none(e)
    &&& e.pc < xlen_bound(xlen)
    &&& (e.xwrite matches Some(x) ==> x.value < xlen_bound(xlen))
    &&& (e.store matches Some(st) ==> (match (e.instruction, spec_access_width(
        match e.instruction {
            Some(i) => i,
            None => 0,
        },
    )) {
        (Some(_), Some(w)) => w.bytes() == st.value.spec_width(),
        _ => false,
    }))
    &&& crate::lex::sep_free(e.assembly_mnemonic, crate::lex::TAB)
    &&& crate::lex::sep_free(e.assembly_args, crate::lex::TAB)
}

/// Digit strings carry neither tabs nor token whitespace.
proof fn lemma_numeric_clean(n: int)
    requires
        0 <= n,
    ensures
        crate::lex::sep_free(crate::lex::dec_str(n), crate::lex::TAB),
        crate::lex::sep_free(crate::lex::hex_str(n), crate::lex::TAB),
        crate::lex::ws_free(crate::lex::dec_str(n)),
        crate::lex::ws_free(crate::lex::hex_str(n)),
{
    crate::lex::lemma_dec_str_digits(n);
    crate::lex::lemma_hex_str_digits(n);
    assert forall|i: int| 0 <= i < crate::lex::dec_str(n).len() implies crate::lex::dec_str(n)[i]
        != crate::lex::TAB && !crate::lex::is_token_ws(#[trigger] crate::lex::dec_str(n)[i]) by {
        assert(crate::lex::is_dec_digit(crate::lex::dec_str(n)[i]));
    }
    assert forall|i: int| 0 <= i < crate::lex::hex_str(n).len() implies crate::lex::hex_str(n)[i]
        != crate::lex::TAB && !crate::lex::is_token_ws(#[trigger] crate::lex::hex_str(n)[i]) by {
        assert(crate::lex::is_hex_digit(crate::lex::hex_str(n)[i]));
    }
}

/// Parsing a printed hexadecimal value below the bound succeeds.
proof fn lemma_parse_hex_str(n: int, bound: int)
    requires
        0 <= n < bound,
    ensures
        crate::lex::spec_parse_hex(crate::lex::hex_str(n), bound) == Some(n),
{
    crate::lex::lemma_hex_str_digits(n);
    crate::lex::lemma_hex_val_str(n);
    let s = crate::lex::hex_str(n);
    assert(crate::lex::is_hex_digit(s[0]));
    assert(s[0] != 43);
    assert(crate::lex::strip_plus(s) == s);
}

/// Parsing a printed and trimmed decimal value succeeds.
proof fn lemma_parse_dec_str(n: int, bound: int)
    requires
        0 <= n < bound,
    ensures
        crate::lex::spec_parse_dec(
            crate::lex::spec_trim(crate::lex::dec_str(n)),
            bound,
        ) == Some(n),
{
    crate::lex::lemma_dec_str_digits(n);
    crate::lex::lemma_dec_val_str(n);
    let s = crate::lex::dec_str(n);
    assert forall|i: int| 0 <= i < s.len() implies !crate::lex::is_trim_ws(#[trigger] s[i]) by {
        assert(crate::lex::is_dec_digit(s[i]));
    }
    crate::lex::lemma_trim_id(s);
    assert(crate::lex::is_dec_digit(s[0]));
    assert(s[0] != 43);
    assert(crate::lex::strip_plus(s) == s);
}

/// Round trip of the legacy form: a record it can carry, re-emitted with
/// the same field order and parsed again, is the identical event.
pub proof fn lemma_legacy_round_trip(e: EventV, xlen: Xlen)
    requires
        legacy_emittable(e, xlen),
    ensures
        spec_read_line(spec_emit_line(e), xlen) == Ok::<EventV, crate::trace::ParseErr>(e),
{
    let line = spec_emit_line(e);
    let instr: u32 = match e.instruction {
        Some(i) => i,
        None => 0,
    };
    let toks = spec_emit_tokens(e);
    let acc_field = crate::lex::spec_join(toks, crate::lex::SPACE);
    let fields = seq![
        crate::lex::dec_str(e.time as int),
        crate::lex::dec_str(e.cycle as int),
        crate::lex::hex_str(e.pc as int),
        crate::lex::hex_str(instr as int),
        e.assembly_mnemonic,
        e.assembly_args,
        acc_field,
    ];

    // every token and every field is clean
    lemma_numeric_clean(e.time as int);
    lemma_numeric_clean(e.cycle as int);
    lemma_numeric_clean(e.pc as int);
    lemma_numeric_clean(instr as int);
    assert forall|i: int| 0 <= i < toks.len() implies (#[trigger] toks[i]).len() > 0
        && crate::lex::ws_free(toks[i]) && crate::lex::sep_free(toks[i], crate::lex::TAB) by {
        lemma_emit_token_clean(e, i);
    }
    crate::lex::lemma_join_sep_free(toks, crate::lex::SPACE, crate::lex::TAB);

    assert forall|i: int| 0 <= i < fields.len() implies crate::lex::sep_free(
        #[trigger] fields[i],
        crate::lex::TAB,
    ) by {}
    crate::lex::lemma_split_join(fields, crate::lex::TAB);
    assert(seq![
        crate::lex::dec_str(e.time as int),
        crate::lex::dec_str(e.cycle as int),
        crate::lex::hex_str(e.pc as int),
        crate::lex::hex_str(
            match e.instruction {
                Some(i) => i as int,
                None => 0,
            },
        ),
        e.assembly_mnemonic,
        e.assembly_args,
        crate::lex::spec_join(spec_emit_tokens(e), crate::lex::SPACE),
    ] =~~= fields);
    assert(line == crate::lex::spec_join(fields, crate::lex::TAB));
    assert(crate::lex::spec_split(line, 9) == fields);

    // the four numeric fields parse back
    lemma_parse_dec_str(e.time as int, 0x1_0000_0000_0000_0000);
    lemma_parse_dec_str(e.cycle as int, 0x1_0000_0000_0000_0000);
    lemma_parse_hex_str(e.pc as int, xlen_bound(xlen));
    crate::lex::lemma_hex_str_digits(instr as int);
    assert forall|i: int|
        0 <= i < crate::lex::hex_str(instr as int).len() implies !crate::lex::is_trim_ws(
        #[trigger] crate::lex::hex_str(instr as int)[i],
    ) by {
        assert(crate::lex::is_hex_digit(crate::lex::hex_str(instr as int)[i]));
    }
    crate::lex::lemma_trim_id(crate::lex::hex_str(instr as int));
    lemma_parse_hex_str(instr as int, 0x1_0000_0000);

    // the access tokens parse back
    crate::lex::lemma_tokens_join(toks);
    assert(spec_tokens(acc_field) == toks);
    lemma_emit_fold(e, xlen);

    // and the store reassembles
    match e.store {
        Some(st) => {
            match st.value {
                Data::U8(v) => {},
                Data::U16(v) => {},
                Data::U32(v) => {},
                Data::U64(v) => {
                    assert(false);
                },
                Data::U128(v) => {
                    assert(false);
                },
            }
        },
        None => {},
    }
    assert(spec_read_line(line, xlen) =~~= Ok::<EventV, crate::trace::ParseErr>(e));
}

/// Each re-emitted token is nonempty and free of whitespace and tabs.
proof fn lemma_emit_token_clean(e: EventV, i: int)
    requires
        legacy_emittable(e, Xlen::X32) || legacy_emittable(e, Xlen::X64),
        0 <= i < spec_emit_tokens(e).len(),
    ensures
        spec_emit_tokens(e)[i].len() > 0,
        crate::lex::ws_free(spec_emit_tokens(e)[i]),
        crate::lex::sep_free(spec_emit_tokens(e)[i], crate::lex::TAB),
{
    let toks = spec_emit_tokens(e);
    let t = toks[i];
    match e.store {
        Some(st) => {
            lemma_numeric_clean(st.value.spec_value());
            lemma_numeric_clean(st.phys_addr as int);
        },
        None => {},
    }
    match e.xwrite {
        Some(x) => {
            lemma_numeric_clean(x.index as int);
            lemma_numeric_clean(x.value as int);
        },
        None => {},
    }
    lemma_data_value_nonneg();
    assert forall|k: int| 0 <= k < t.len() implies !crate::lex::is_token_ws(#[trigger] t[k]) && t[k]
        != crate::lex::TAB by {
        lemma_emit_token_byte(e, i, k);
    }
}

/// The value a `Data` holds is non-negative.
proof fn lemma_data_value_nonneg()
    ensures
        forall|d: Data| (#[trigger] d.spec_value()) >= 0,
{
}

/// Each byte of a re-emitted token is a literal byte or a digit.
proof fn lemma_emit_token_byte(e: EventV, i: int, k: int)
    requires
        0 <= i < spec_emit_tokens(e).len(),
        0 <= k < spec_emit_tokens(e)[i].len(),
    ensures
        !crate::lex::is_token_ws(spec_emit_tokens(e)[i][k]),
        spec_emit_tokens(e)[i][k] != crate::lex::TAB,
{
    let t = spec_emit_tokens(e)[i];
    match e.store {
        Some(st) => {
            lemma_data_value_nonneg();
            lemma_numeric_clean(st.value.spec_value());
            lemma_numeric_clean(st.phys_addr as int);
        },
        None => {},
    }
    match e.xwrite {
        Some(x) => {
            lemma_numeric_clean(x.index as int);
            lemma_numeric_clean(x.value as int);
        },
        None => {},
    }
}

/// Scanning the re-emitted tokens recovers the record's side effects.
proof fn lemma_emit_fold(e: EventV, xlen: Xlen)
    requires
        legacy_emittable(e, xlen),
    ensures
        legacy_fold(spec_emit_tokens(e), xlen) == Ok::<AccessAcc, crate::trace::ParseErr>(
            (
                match e.store {
                    Some(st) => Some(st.value.spec_value() as u64),
                    None => None,
                },
                match e.store {
                    Some(st) => Some(st.phys_addr),
                    None => None,
                },
                e.xwrite,
            ),
        ),
{
    let toks = spec_emit_tokens(e);
    lemma_data_value_nonneg();
    let acc0: AccessAcc = (None, None, None);
    match (e.store, e.xwrite) {
        (Some(st), Some(x)) => {
            let t0 = lit_store0x() + crate::lex::hex_str(st.value.spec_value());
            let t1 = lit_pa0x() + crate::lex::hex_str(st.phys_addr as int);
            let t2 = seq![120u8] + crate::lex::dec_str(x.index as int) + seq![61u8, 48u8, 120u8]
                + crate::lex::hex_str(x.value as int);
            assert(toks =~~= seq![t0, t1, t2]);
            lemma_store_token_step(acc0, st, xlen);
            let acc1: AccessAcc = (Some(st.value.spec_value() as u64), None, None);
            lemma_pa_token_step(acc1, st, xlen);
            let acc2: AccessAcc = (Some(st.value.spec_value() as u64), Some(st.phys_addr), None);
            lemma_xreg_token_step(acc2, x, xlen);
            assert(toks.drop_last() =~~= seq![t0, t1]);
            assert(seq![t0, t1].drop_last() =~~= seq![t0]);
            assert(seq![t0].drop_last() =~~= Seq::<Seq<u8>>::empty());
            assert(legacy_fold(Seq::<Seq<u8>>::empty(), xlen) == Ok::<
                AccessAcc,
                crate::trace::ParseErr,
            >(acc0));
            assert(legacy_fold(seq![t0], xlen) == Ok::<AccessAcc, crate::trace::ParseErr>(acc1));
            assert(legacy_fold(seq![t0, t1], xlen) == Ok::<AccessAcc, crate::trace::ParseErr>(
                acc2,
            ));
        },
        (Some(st), None) => {
            let t0 = lit_store0x() + crate::lex::hex_str(st.value.spec_value());
            let t1 = lit_pa0x() + crate::lex::hex_str(st.phys_addr as int);
            assert(toks =~~= seq![t0, t1]);
            lemma_store_token_step(acc0, st, xlen);
            let acc1: AccessAcc = (Some(st.value.spec_value() as u64), None, None);
            lemma_pa_token_step(acc1, st, xlen);
            assert(toks.drop_last() =~~= seq![t0]);
            assert(seq![t0].drop_last() =~~= Seq::<Seq<u8>>::empty());
            assert(legacy_fold(Seq::<Seq<u8>>::empty(), xlen) == Ok::<
                AccessAcc,
                crate::trace::ParseErr,
            >(acc0));
            assert(legacy_fold(seq![t0], xlen) == Ok::<AccessAcc, crate::trace::ParseErr>(acc1));
        },
        (None, Some(x)) => {
            let t2 = seq![120u8] + crate::lex::dec_str(x.index as int) + seq![61u8, 48u8, 120u8]
                + crate::lex::hex_str(x.value as int);
            assert(toks =~~= seq![t2]);
            lemma_xreg_token_step(acc0, x, xlen);
            assert(toks.drop_last() =~~= Seq::<Seq<u8>>::empty());
            assert(legacy_fold(Seq::<Seq<u8>>::empty(), xlen) == Ok::<
                AccessAcc,
                crate::trace::ParseErr,
            >(acc0));
        },
        (None, None) => {
            assert(toks =~~= Seq::<Seq<u8>>::empty());
        },
    }
}

/// A re-emitted store token steps the scan to the store value.
proof fn lemma_store_token_step(acc: AccessAcc, st: MemWrite, xlen: Xlen)
    requires
        acc.0 is None,
        st.value.spec_width() <= 4,
    ensures
        legacy_token_step(
            acc,
            lit_store0x() + crate::lex::hex_str(st.value.spec_value()),
            xlen,
        ) == Ok::<AccessAcc, crate::trace::ParseErr>(
            (Some(st.value.spec_value() as u64), acc.1, acc.2),
        ),
{
    lemma_data_value_nonneg();
    let v = st.value.spec_value();
    let t = lit_store0x() + crate::lex::hex_str(v);
    assert(t.take(8) =~= lit_store0x());
    assert(starts_with(t, lit_store0x()));
    assert(t.skip(8) =~= crate::lex::hex_str(v));
    assert(v < 0x1_0000_0000_0000_0000) by {
        match st.value {
            Data::U8(x) => {},
            Data::U16(x) => {},
            Data::U32(x) => {},
            Data::U64(x) => {
                assert(false);
            },
            Data::U128(x) => {
                assert(false);
            },
        }
    }
    lemma_parse_hex_str(v, 0x1_0000_0000_0000_0000);
}

/// A re-emitted physical-address token steps the scan to the address.
proof fn lemma_pa_token_step(acc: AccessAcc, st: MemWrite, xlen: Xlen)
    requires
        acc.1 is None,
    ensures
        legacy_token_step(acc, lit_pa0x() + crate::lex::hex_str(st.phys_addr as int), xlen)
            == Ok::<AccessAcc, crate::trace::ParseErr>((acc.0, Some(st.phys_addr), acc.2)),
{
    let t = lit_pa0x() + crate::lex::hex_str(st.phys_addr as int);
    crate::lex::lemma_hex_str_digits(st.phys_addr as int);
    assert(!starts_with(t, lit_store0x())) by {
        if starts_with(t, lit_store0x()) {
            assert(t.take(8)[0] == t[0]);
            assert(t[0] == 80);
        }
    }
    assert(t.take(5) =~= lit_pa0x());
    assert(starts_with(t, lit_pa0x()));
    assert(t.skip(5) =~= crate::lex::hex_str(st.phys_addr as int));
    lemma_parse_hex_str(st.phys_addr as int, 0x1_0000_0000_0000_0000);
}

/// A re-emitted register-write token steps the scan to the write.
proof fn lemma_xreg_token_step(acc: AccessAcc, x: XRegWrite, xlen: Xlen)
    requires
        acc.2 is None,
        1 <= x.index < 32,
        x.value < xlen_bound(xlen),
        x.prev_value is None,
    ensures
        legacy_token_step(
            acc,
            seq![120u8] + crate::lex::dec_str(x.index as int) + seq![61u8, 48u8, 120u8]
                + crate::lex::hex_str(x.value as int),
            xlen,
        ) == Ok::<AccessAcc, crate::trace::ParseErr>((acc.0, acc.1, Some(x))),
{
    let i = x.index as int;
    let digits = crate::lex::dec_str(i);
    let t = seq![120u8] + digits + seq![61u8, 48u8, 120u8] + crate::lex::hex_str(x.value as int);
    assert(t[0] == 120);
    assert(!starts_with(t, lit_store0x())) by {
        if starts_with(t, lit_store0x()) {
            assert(t.take(8)[0] == t[0]);
        }
    }
    assert(!starts_with(t, lit_pa0x())) by {
        if starts_with(t, lit_pa0x()) {
            assert(t.take(5)[0] == t[0]);
        }
    }
    if i < 10 {
        assert(digits =~= seq![(48 + i) as u8]);
        assert(t[1] == (48 + i) as u8);
        assert(49 <= t[1] <= 57);
        assert(t[2] == 61 && t[3] == 48 && t[4] == 120);
        assert(t.skip(5) =~= crate::lex::hex_str(x.value as int));
        assert(xreg_split_legacy(t) == Some(
            (x.index, crate::lex::hex_str(x.value as int)),
        ));
    } else {
        assert(0 <= i / 10 < 10 && i / 10 >= 1 && 0 <= i % 10 < 10) by (nonlinear_arith)
            requires
                10 <= i < 32,
        ;
        assert(digits =~= seq![(48 + i / 10) as u8, (48 + i % 10) as u8]) by {
            assert(crate::lex::dec_str(i / 10) =~= seq![(48 + i / 10) as u8]);
        }
        assert(t[1] == (48 + i / 10) as u8 && t[2] == (48 + i % 10) as u8);
        assert(i / 10 <= 3) by (nonlinear_arith)
            requires
                10 <= i < 32,
        ;
        assert(49 <= t[1] <= 51 && 48 <= t[2] <= 57);
        assert(t[3] == 61 && t[4] == 48 && t[5] == 120);
        vstd::arithmetic::div_mod::lemma_fundamental_div_mod(i, 10);
        assert((t[1] - 48) * 10 + (t[2] - 48) == i);
        assert(t.skip(6) =~= crate::lex::hex_str(x.value as int));
        assert(xreg_split_legacy(t) == Some(
            (x.index, crate::lex::hex_str(x.value as int)),
        ));
    }
    lemma_parse_hex_str(x.value as int, xlen_bound(xlen));
}

} // verus!
