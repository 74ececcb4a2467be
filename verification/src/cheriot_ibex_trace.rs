//! Parser for the capability (Cheriot) trace flavor.
//!
//! Stores carry their width in the value itself: leading `?` digits stand
//! for byte-lane don't-cares and the remaining nibble count selects the
//! width. A capability store is written `0xDATA+0xTMETA`: the metadata's
//! leading nibble is the tag bit, and the assembled value is the metadata
//! over the data, twice the register width wide.

use vstd::prelude::*;
use vstd::slice::slice_subrange;

use crate::ibex_trace::{lit_time, starts_with, xlen_bound, xlen_bound_exec};
use crate::lex::{
    first_sep, spec_parse_dec, spec_parse_hex, spec_split, spec_tokens, spec_trim, spec_lines,
    find_sep, parse_dec_u64, parse_hex_width, split_bytes, split_lines, tokenize, trim_bytes,
};
use crate::trace::{
    trace_view, Data, EventV, MemWrite, ParseErr, RetireEvent, TraceError, XRegWrite, Xlen,
};

verus! {

/// The literal `store:`.
pub open spec fn lit_store() -> Seq<u8> {
    seq![115u8, 116u8, 111u8, 114u8, 101u8, 58u8]
}

/// The literal `PA:`.
pub open spec fn lit_pa() -> Seq<u8> {
    seq![80u8, 65u8, 58u8]
}

/// The literal `-->`, which marks a trap entry in the mnemonic.
pub open spec fn lit_trap() -> Seq<u8> {
    seq![45u8, 45u8, 62u8]
}

/// The string with its `0x` prefix removed, if it has one.
pub open spec fn spec_strip_hex_prefix(s: Seq<u8>) -> Option<Seq<u8>> {
    if s.len() >= 2 && s[0] == 48 && s[1] == 120 {
        Some(s.skip(2))
    } else {
        None
    }
}

/// Strip the `0x` hex prefix, or fail if it is not there.
pub fn strip_hex_prefix(val: &[u8]) -> (r: Result<&[u8], ParseErr>)
    ensures
        r matches Ok(v) ==> spec_strip_hex_prefix(val@) == Some(v@),
        r is Err ==> spec_strip_hex_prefix(val@) is None && r == Err::<
            &[u8],
            ParseErr,
        >(ParseErr::MissingHexPrefix),
{
    if val.len() >= 2 && val[0] == 48 && val[1] == 120 {
        Ok(slice_subrange(val, 2, val.len()))
    } else {
        Err(ParseErr::MissingHexPrefix)
    }
}

/// Leading `?` digits removed from a plain store value.
pub open spec fn spec_strip_question(s: Seq<u8>) -> Seq<u8>
    decreases s.len(),
{
    if s.len() > 0 && s[0] == 63 {
        spec_strip_question(s.drop_first())
    } else {
        s
    }
}

fn strip_question(s: &[u8]) -> (r: &[u8])
    ensures
        r@ == spec_strip_question(s@),
{
    proof {
        assert(s@.skip(0) =~= s@);
    }
    let mut a: usize = 0;
    while a < s.len() && s[a] == 63
        invariant
            a <= s@.len(),
            spec_strip_question(s@) == spec_strip_question(s@.skip(a as int)),
        decreases s@.len() - a,
    {
        proof {
            let rest = s@.skip(a as int);
            assert(rest[0] == s@[a as int]);
            assert(rest.drop_first() =~= s@.skip(a + 1));
        }
        a += 1;
    }
    let r = slice_subrange(s, a, s.len());
    proof {
        let rest = s@.skip(a as int);
        if a < s@.len() {
            assert(rest[0] == s@[a as int]);
        }
        assert(spec_strip_question(rest) == rest);
        assert(r@ =~= rest);
    }
    r
}

/// A plain (non-capability) store value: strip the don't-care digits, and
/// the number of nibbles that remain is the width.
pub open spec fn spec_plain_store(body: Seq<u8>) -> Result<Data, ParseErr> {
    let v = spec_strip_question(body);
    if v.len() == 2 {
        match spec_parse_hex(v, 0x100) {
            Some(x) => Ok(Data::U8(x as u8)),
            None => Err(ParseErr::BadStoreValue),
        }
    } else if v.len() == 4 {
        match spec_parse_hex(v, 0x1_0000) {
            Some(x) => Ok(Data::U16(x as u16)),
            None => Err(ParseErr::BadStoreValue),
        }
    } else if v.len() == 8 {
        match spec_parse_hex(v, 0x1_0000_0000) {
            Some(x) => Ok(Data::U32(x as u32)),
            None => Err(ParseErr::BadStoreValue),
        }
    } else if v.len() == 16 {
        match spec_parse_hex(v, 0x1_0000_0000_0000_0000) {
            Some(x) => Ok(Data::U64(x as u64)),
            None => Err(ParseErr::BadStoreValue),
        }
    } else if v.len() == 32 {
        match spec_parse_hex(v, 0x1_0000_0000_0000_0000_0000_0000_0000_0000int) {
            Some(x) => Ok(Data::U128(x as u128)),
            None => Err(ParseErr::BadStoreValue),
        }
    } else {
        Err(ParseErr::BadStoreLength)
    }
}

/// A capability store value `DATA+TMETA`, both `0x`-prefixed; the metadata's
/// leading digit is the tag bit and the rest sits above the data.
pub open spec fn spec_cap_store(data_tok: Seq<u8>, meta_tok: Seq<u8>, xlen: Xlen) -> Result<
    Data,
    ParseErr,
> {
    match spec_strip_hex_prefix(data_tok) {
        None => Err(ParseErr::MissingHexPrefix),
        Some(data) => match spec_strip_hex_prefix(meta_tok) {
            None => Err(ParseErr::MissingHexPrefix),
            Some(meta) => {
                if meta.len() > 0 && (meta[0] == 48 || meta[0] == 49) {
                    let rest = meta.drop_first();
                    match xlen {
                        Xlen::X32 => match spec_parse_hex(rest, 0x1_0000_0000) {
                            None => Err(ParseErr::BadStoreValue),
                            Some(m) => match spec_parse_hex(data, 0x1_0000_0000) {
                                None => Err(ParseErr::BadStoreValue),
                                Some(d) => Ok(Data::U64((m * 0x1_0000_0000 + d) as u64)),
                            },
                        },
                        Xlen::X64 => match spec_parse_hex(rest, 0x1_0000_0000_0000_0000) {
                            None => Err(ParseErr::BadStoreValue),
                            Some(m) => match spec_parse_hex(data, 0x1_0000_0000_0000_0000) {
                                None => Err(ParseErr::BadStoreValue),
                                Some(d) => Ok(
                                    Data::U128((m * 0x1_0000_0000_0000_0000 + d) as u128),
                                ),
                            },
                        },
                    }
                } else {
                    Err(ParseErr::BadMetadata)
                }
            },
        },
    }
}

/// A store token's value, after `store:`: a capability store if a `+`
/// splits it, a plain store otherwise.
pub open spec fn spec_store_value(val: Seq<u8>, xlen: Xlen) -> Result<Data, ParseErr> {
    let plus = first_sep(val, 43);
    if plus < val.len() {
        spec_cap_store(val.take(plus), val.skip(plus + 1), xlen)
    } else {
        match spec_strip_hex_prefix(val) {
            None => Err(ParseErr::MissingHexPrefix),
            Some(body) => spec_plain_store(body),
        }
    }
}

/// An access token of the form `x<i>=` with `i` in `1..=31` and no leading
/// zero: the register index and the value text after the equals sign.
pub open spec fn xreg_split_cheriot(tok: Seq<u8>) -> Option<(u8, Seq<u8>)> {
    if tok.len() >= 3 && tok[0] == 120 && 49 <= tok[1] <= 57 && tok[2] == 61 {
        Some((((tok[1] - 48)) as u8, tok.skip(3)))
    } else if tok.len() >= 4 && tok[0] == 120 && 49 <= tok[1] <= 51 && 48 <= tok[2] <= 57
        && tok[3] == 61 && (tok[1] - 48) * 10 + (tok[2] - 48) <= 31 {
        Some((((tok[1] - 48) * 10 + (tok[2] - 48)) as u8, tok.skip(4)))
    } else {
        None
    }
}

/// A register-write value: `0xVALUE`, or `0xVALUE+0xMETA` with the metadata
/// parsed but discarded.
pub open spec fn spec_xreg_value(val: Seq<u8>, xlen: Xlen) -> Result<u64, ParseErr> {
    let plus = first_sep(val, 43);
    let data_tok = if plus < val.len() {
        val.take(plus)
    } else {
        val
    };
    match spec_strip_hex_prefix(data_tok) {
        None => Err(ParseErr::MissingHexPrefix),
        Some(body) => match spec_parse_hex(body, xlen_bound(xlen)) {
            None => Err(ParseErr::BadXRegValue),
            Some(v) => Ok(v as u64),
        },
    }
}

/// Running state of the access-token scan.
pub type AccessAcc = (Option<Data>, Option<u64>, Option<XRegWrite>);

/// One access token applied to the scan state.
pub open spec fn cheriot_token_step(acc: AccessAcc, tok: Seq<u8>, xlen: Xlen) -> Result<
    AccessAcc,
    ParseErr,
> {
    if starts_with(tok, lit_store()) {
        if acc.0 is Some {
            Err(ParseErr::MultipleStores)
        } else {
            match spec_store_value(tok.skip(6), xlen) {
                Ok(d) => Ok((Some(d), acc.1, acc.2)),
                Err(e) => Err(e),
            }
        }
    } else if starts_with(tok, lit_pa()) {
        if acc.1 is Some {
            Err(ParseErr::MultiplePhysAddrs)
        } else {
            match spec_strip_hex_prefix(tok.skip(3)) {
                None => Err(ParseErr::MissingHexPrefix),
                Some(body) => match spec_parse_hex(body, 0x1_0000_0000_0000_0000) {
                    Some(v) => Ok((acc.0, Some(v as u64), acc.2)),
                    None => Err(ParseErr::BadPhysAddr),
                },
            }
        }
    } else {
        match xreg_split_cheriot(tok) {
            Some((i, val)) => if acc.2 is Some {
                Err(ParseErr::MultipleXWrites)
            } else {
                match spec_xreg_value(val, xlen) {
                    Ok(v) => Ok(
                        (acc.0, acc.1, Some(XRegWrite { index: i, value: v, prev_value: None })),
                    ),
                    Err(e) => Err(e),
                }
            },
            None => Ok(acc),
        }
    }
}

pub open spec fn cheriot_fold(tokens: Seq<Seq<u8>>, xlen: Xlen) -> Result<AccessAcc, ParseErr>
    decreases tokens.len(),
{
    if tokens.len() == 0 {
        Ok((None, None, None))
    } else {
        match cheriot_fold(tokens.drop_last(), xlen) {
            Ok(acc) => cheriot_token_step(acc, tokens.last(), xlen),
            Err(e) => Err(e),
        }
    }
}

/// One record of the capability flavor.
pub open spec fn spec_read_line(line: Seq<u8>, xlen: Xlen) -> Result<EventV, ParseErr> {
    let fields = spec_split(line, 9);
    if fields.len() < 4 {
        Err(ParseErr::FieldCount)
    } else {
        match spec_parse_dec(spec_trim(fields[0]), 0x1_0000_0000_0000_0000) {
            None => Err(ParseErr::BadTime),
            Some(time) => match spec_parse_dec(spec_trim(fields[1]), 0x1_0000_0000_0000_0000) {
                None => Err(ParseErr::BadCycle),
                Some(cycle) => match spec_parse_hex(fields[2], xlen_bound(xlen)) {
                    None => Err(ParseErr::BadPc),
                    Some(pc) => match spec_parse_hex(spec_trim(fields[3]), 0x1_0000_0000) {
                        None => Err(ParseErr::BadInstruction),
                        Some(instr) => {
                            let mnemonic = if fields.len() > 4 {
                                fields[4]
                            } else {
                                Seq::empty()
                            };
                            let args = if fields.len() > 5 {
                                fields[5]
                            } else {
                                Seq::empty()
                            };
                            let accesses = if fields.len() > 6 {
                                fields[6]
                            } else {
                                Seq::empty()
                            };
                            match cheriot_fold(spec_tokens(accesses), xlen) {
                                Err(e) => Err(e),
                                Ok((sv, pa, xw)) => match (sv, pa) {
                                    (Some(d), Some(a)) => Ok(
                                        EventV {
                                            time: time as u64,
                                            cycle: cycle as u64,
                                            pc: pc as u64,
                                            trap: fields.len() > 4 && starts_with(
                                                fields[4],
                                                lit_trap(),
                                            ),
                                            instruction: Some(instr as u32),
                                            assembly_mnemonic: mnemonic,
                                            assembly_args: args,
                                            xwrite: xw,
                                            store: Some(
                                                MemWrite {
                                                    phys_addr: a,
                                                    value: d,
                                                    prev_value: None,
                                                },
                                            ),
                                        },
                                    ),
                                    (None, _) => Ok(
                                        EventV {
                                            time: time as u64,
                                            cycle: cycle as u64,
                                            pc: pc as u64,
                                            trap: fields.len() > 4 && starts_with(
                                                fields[4],
                                                lit_trap(),
                                            ),
                                            instruction: Some(instr as u32),
                                            assembly_mnemonic: mnemonic,
                                            assembly_args: args,
                                            xwrite: xw,
                                            store: None,
                                        },
                                    ),
                                    (Some(_), None) => Err(ParseErr::StoreWithoutPa),
                                },
                            }
                        },
                    },
                },
            },
        }
    }
}


/// Parse the value of a store token.
fn store_value_exec(val: &[u8], xlen: Xlen) -> (r: Result<Data, ParseErr>)
    ensures
        r == spec_store_value(val@, xlen),
{
    let plus = find_sep(val, 0, 43);
    proof {
        assert(val@.skip(0) =~= val@);
    }
    if plus < val.len() {
        // capability store: DATA+TMETA
        let data_tok = slice_subrange(val, 0, plus);
        let meta_tok = slice_subrange(val, plus + 1, val.len());
        proof {
            assert(data_tok@ =~= val@.take(plus as int));
            assert(meta_tok@ =~= val@.skip(plus + 1));
        }
        let data = match strip_hex_prefix(data_tok) {
            Ok(d) => d,
            Err(e) => {
                return Err(e);
            },
        };
        let meta = match strip_hex_prefix(meta_tok) {
            Ok(m) => m,
            Err(e) => {
                return Err(e);
            },
        };
        if meta.len() > 0 && (meta[0] == 48 || meta[0] == 49) {
            let rest = slice_subrange(meta, 1, meta.len());
            proof {
                assert(rest@ =~= meta@.drop_first());
            }
            match xlen {
                Xlen::X32 => {
                    let m = match parse_hex_width(rest, 0x1_0000_0000) {
                        Some(v) => v,
                        None => {
                            return Err(ParseErr::BadStoreValue);
                        },
                    };
                    let d = match parse_hex_width(data, 0x1_0000_0000) {
                        Some(v) => v,
                        None => {
                            return Err(ParseErr::BadStoreValue);
                        },
                    };
                    Ok(Data::U64((m as u64) * 0x1_0000_0000 + (d as u64)))
                },
                Xlen::X64 => {
                    let m = match parse_hex_width(rest, 0x1_0000_0000_0000_0000) {
                        Some(v) => v,
                        None => {
                            return Err(ParseErr::BadStoreValue);
                        },
                    };
                    let d = match parse_hex_width(data, 0x1_0000_0000_0000_0000) {
                        Some(v) => v,
                        None => {
                            return Err(ParseErr::BadStoreValue);
                        },
                    };
                    Ok(Data::U128((m as u128) * 0x1_0000_0000_0000_0000 + (d as u128)))
                },
            }
        } else {
            Err(ParseErr::BadMetadata)
        }
    } else {
        let body = match strip_hex_prefix(val) {
            Ok(b) => b,
            Err(e) => {
                return Err(e);
            },
        };
        let v = strip_question(body);
        if v.len() == 2 {
            match parse_hex_width(v, 0x100) {
                Some(x) => Ok(Data::U8(x as u8)),
                None => Err(ParseErr::BadStoreValue),
            }
        } else if v.len() == 4 {
            match parse_hex_width(v, 0x1_0000) {
                Some(x) => Ok(Data::U16(x as u16)),
                None => Err(ParseErr::BadStoreValue),
            }
        } else if v.len() == 8 {
            match parse_hex_width(v, 0x1_0000_0000) {
                Some(x) => Ok(Data::U32(x as u32)),
                None => Err(ParseErr::BadStoreValue),
            }
        } else if v.len() == 16 {
            match parse_hex_width(v, 0x1_0000_0000_0000_0000) {
                Some(x) => Ok(Data::U64(x as u64)),
                None => Err(ParseErr::BadStoreValue),
            }
        } else if v.len() == 32 {
            match parse_hex_u128_full(v) {
                Some(x) => Ok(Data::U128(x)),
                None => Err(ParseErr::BadStoreValue),
            }
        } else {
            Err(ParseErr::BadStoreLength)
        }
    }
}

/// Parse a full-range 128-bit hexadecimal value.
fn parse_hex_u128_full(s: &[u8]) -> (r: Option<u128>)
    ensures
        r matches Some(v) ==> spec_parse_hex(s@, 0x1_0000_0000_0000_0000_0000_0000_0000_0000int)
            == Some(v as int),
        r is None ==> spec_parse_hex(s@, 0x1_0000_0000_0000_0000_0000_0000_0000_0000int) is None,
{
    crate::lex::parse_hex_u128(s)
}

/// Split an `x<i>=…` token into register index and value text.
fn xreg_split_cheriot_exec(tok: &[u8]) -> (r: Option<(u8, &[u8])>)
    ensures
        r matches Some((i, v)) ==> xreg_split_cheriot(tok@) == Some((i, v@)),
        r is None ==> xreg_split_cheriot(tok@) is None,
{
    if tok.len() >= 3 && tok[0] == 120 && 49 <= tok[1] && tok[1] <= 57 && tok[2] == 61 {
        Some(((tok[1] - 48), slice_subrange(tok, 3, tok.len())))
    } else if tok.len() >= 4 && tok[0] == 120 && 49 <= tok[1] && tok[1] <= 51 && 48 <= tok[2]
        && tok[2] <= 57 && tok[3] == 61 && (tok[1] - 48) * 10 + (tok[2] - 48) <= 31 {
        Some(((tok[1] - 48) * 10 + (tok[2] - 48), slice_subrange(tok, 4, tok.len())))
    } else {
        None
    }
}

/// Parse a register-write value, discarding capability metadata.
fn xreg_value_exec(val: &[u8], xlen: Xlen) -> (r: Result<u64, ParseErr>)
    ensures
        r == spec_xreg_value(val@, xlen),
{
    let plus = find_sep(val, 0, 43);
    proof {
        assert(val@.skip(0) =~= val@);
    }
    let data_tok = if plus < val.len() {
        slice_subrange(val, 0, plus)
    } else {
        val
    };
    proof {
        if plus < val@.len() {
            assert(data_tok@ =~= val@.take(plus as int));
        }
    }
    let body = match strip_hex_prefix(data_tok) {
        Ok(b) => b,
        Err(e) => {
            return Err(e);
        },
    };
    match parse_hex_width(body, xlen_bound_exec(xlen)) {
        Some(v) => Ok(v as u64),
        None => Err(ParseErr::BadXRegValue),
    }
}

/// Strip `store:` from an access token.
fn strip_store(tok: &[u8]) -> (r: Option<&[u8]>)
    ensures
        starts_with(tok@, lit_store()) ==> (r matches Some(v) && v@ == tok@.skip(6)),
        !starts_with(tok@, lit_store()) ==> r is None,
{
    if tok.len() >= 6 && tok[0] == 115 && tok[1] == 116 && tok[2] == 111 && tok[3] == 114
        && tok[4] == 101 && tok[5] == 58 {
        proof {
            assert(tok@.take(6) =~= lit_store());
        }
        Some(slice_subrange(tok, 6, tok.len()))
    } else {
        proof {
            if starts_with(tok@, lit_store()) {
                assert(tok@[0] == tok@.take(6)[0]);
                assert(tok@[1] == tok@.take(6)[1]);
                assert(tok@[2] == tok@.take(6)[2]);
                assert(tok@[3] == tok@.take(6)[3]);
                assert(tok@[4] == tok@.take(6)[4]);
                assert(tok@[5] == tok@.take(6)[5]);
            }
        }
        None
    }
}

/// Strip `PA:` from an access token.
fn strip_pa(tok: &[u8]) -> (r: Option<&[u8]>)
    ensures
        starts_with(tok@, lit_pa()) ==> (r matches Some(v) && v@ == tok@.skip(3)),
        !starts_with(tok@, lit_pa()) ==> r is None,
{
    if tok.len() >= 3 && tok[0] == 80 && tok[1] == 65 && tok[2] == 58 {
        proof {
            assert(tok@.take(3) =~= lit_pa());
        }
        Some(slice_subrange(tok, 3, tok.len()))
    } else {
        proof {
            if starts_with(tok@, lit_pa()) {
                assert(tok@[0] == tok@.take(3)[0]);
                assert(tok@[1] == tok@.take(3)[1]);
                assert(tok@[2] == tok@.take(3)[2]);
            }
        }
        None
    }
}

/// A scan error at any prefix is the error of the whole scan.
proof fn lemma_cheriot_fold_err(tokens: Seq<Seq<u8>>, xlen: Xlen, k: int)
    requires
        0 <= k <= tokens.len(),
        cheriot_fold(tokens.take(k), xlen) is Err,
    ensures
        cheriot_fold(tokens, xlen) == cheriot_fold(tokens.take(k), xlen),
    decreases tokens.len() - k,
{
    if k == tokens.len() {
        assert(tokens.take(k) =~= tokens);
    } else {
        assert(tokens.take(k + 1).drop_last() =~= tokens.take(k));
        assert(tokens.take(k + 1).last() == tokens[k]);
        lemma_cheriot_fold_err(tokens, xlen, k + 1);
    }
}

/// Parse one record line of the capability flavor.
#[verifier::loop_isolation(false)]
#[verifier::rlimit(50)]
pub fn read_line(line: &[u8], xlen: Xlen) -> (r: Result<RetireEvent, ParseErr>)
    ensures
        r matches Ok(e) ==> spec_read_line(line@, xlen) == Ok::<EventV, ParseErr>(e@),
        r matches Err(k) ==> spec_read_line(line@, xlen) == Err::<EventV, ParseErr>(k),
        r matches Ok(e) ==> crate::trace::event_wf(e@) && crate::trace::event_prev_none(e@),
{
    let fields = split_bytes(line, 9);
    let ghost sfields = spec_split(line@, 9);
    if fields.len() < 4 {
        return Err(ParseErr::FieldCount);
    }
    proof {
        assert(sfields[0] == fields@.map_values(|v: Vec<u8>| v@)[0]);
        assert(sfields[1] == fields@.map_values(|v: Vec<u8>| v@)[1]);
        assert(sfields[2] == fields@.map_values(|v: Vec<u8>| v@)[2]);
        assert(sfields[3] == fields@.map_values(|v: Vec<u8>| v@)[3]);
    }
    let time = match parse_dec_u64(trim_bytes(fields[0].as_slice())) {
        Some(v) => v,
        None => {
            return Err(ParseErr::BadTime);
        },
    };
    let cycle = match parse_dec_u64(trim_bytes(fields[1].as_slice())) {
        Some(v) => v,
        None => {
            return Err(ParseErr::BadCycle);
        },
    };
    let bound = xlen_bound_exec(xlen);
    let pc = match parse_hex_width(fields[2].as_slice(), bound) {
        Some(v) => v as u64,
        None => {
            return Err(ParseErr::BadPc);
        },
    };
    let instruction = match parse_hex_width(trim_bytes(fields[3].as_slice()), 0x1_0000_0000) {
        Some(v) => v as u32,
        None => {
            return Err(ParseErr::BadInstruction);
        },
    };

    let mnemonic: Vec<u8> = if fields.len() > 4 {
        fields[4].clone()
    } else {
        Vec::new()
    };
    let args: Vec<u8> = if fields.len() > 5 {
        fields[5].clone()
    } else {
        Vec::new()
    };
    let trap = if fields.len() > 4 {
        let m = fields[4].as_slice();
        if m.len() >= 3 && m[0] == 45 && m[1] == 45 && m[2] == 62 {
            proof {
                assert(fields[4]@.take(3) =~= lit_trap());
            }
            true
        } else {
            proof {
                if starts_with(sfields[4], lit_trap()) {
                    assert(sfields[4][0] == sfields[4].take(3)[0]);
                    assert(sfields[4][1] == sfields[4].take(3)[1]);
                    assert(sfields[4][2] == sfields[4].take(3)[2]);
                }
            }
            false
        }
    } else {
        false
    };
    let empty_accesses: Vec<u8> = Vec::new();
    let accesses: &Vec<u8> = if fields.len() > 6 {
        &fields[6]
    } else {
        &empty_accesses
    };
    let ghost saccesses = if sfields.len() > 6 {
        sfields[6]
    } else {
        Seq::<u8>::empty()
    };
    proof {
        if sfields.len() > 6 {
            assert(sfields[6] == fields@.map_values(|v: Vec<u8>| v@)[6]);
        }
        assert(accesses@ =~= saccesses);
        if sfields.len() > 4 {
            assert(sfields[4] == fields@.map_values(|v: Vec<u8>| v@)[4]);
        }
        if sfields.len() > 5 {
            assert(sfields[5] == fields@.map_values(|v: Vec<u8>| v@)[5]);
        }
        assert(mnemonic@ =~= if sfields.len() > 4 {
            sfields[4]
        } else {
            Seq::<u8>::empty()
        });
        assert(args@ =~= if sfields.len() > 5 {
            sfields[5]
        } else {
            Seq::<u8>::empty()
        });
    }

    let tokens = tokenize(accesses.as_slice());
    let ghost stokens = spec_tokens(saccesses);

    let mut store_val: Option<Data> = None;
    let mut phys_addr: Option<u64> = None;
    let mut xwrite: Option<XRegWrite> = None;
    let mut ti: usize = 0;
    while ti < tokens.len()
        invariant
            ti <= tokens@.len(),
            stokens == tokens@.map_values(|v: Vec<u8>| v@),
            cheriot_fold(stokens.take(ti as int), xlen) == Ok::<AccessAcc, ParseErr>(
                (store_val, phys_addr, xwrite),
            ),
            xwrite matches Some(x) ==> 1 <= x.index <= 31 && x.prev_value is None,
        decreases tokens@.len() - ti,
    {
        let tok = tokens[ti].as_slice();
        let ghost acc0: AccessAcc = (store_val, phys_addr, xwrite);
        proof {
            assert(stokens[ti as int] == tokens@.map_values(|v: Vec<u8>| v@)[ti as int]);
            assert(stokens.take(ti + 1).drop_last() =~= stokens.take(ti as int));
            assert(stokens.take(ti + 1).last() == stokens[ti as int]);
            assert(cheriot_fold(stokens.take(ti + 1), xlen) == cheriot_token_step(
                acc0,
                stokens[ti as int],
                xlen,
            ));
            if cheriot_token_step(acc0, stokens[ti as int], xlen) is Err {
                lemma_cheriot_fold_err(stokens, xlen, ti + 1);
            }
        }
        match strip_store(tok) {
            Some(val) => {
                if store_val.is_some() {
                    return Err(ParseErr::MultipleStores);
                }
                match store_value_exec(val, xlen) {
                    Ok(d) => {
                        store_val = Some(d);
                    },
                    Err(e) => {
                        return Err(e);
                    },
                }
            },
            None => {
                match strip_pa(tok) {
                    Some(val) => {
                        if phys_addr.is_some() {
                            return Err(ParseErr::MultiplePhysAddrs);
                        }
                        let body = match strip_hex_prefix(val) {
                            Ok(b) => b,
                            Err(e) => {
                                return Err(e);
                            },
                        };
                        match parse_hex_width(body, 0x1_0000_0000_0000_0000) {
                            Some(v) => {
                                phys_addr = Some(v as u64);
                            },
                            None => {
                                return Err(ParseErr::BadPhysAddr);
                            },
                        }
                    },
                    None => {
                        match xreg_split_cheriot_exec(tok) {
                            Some((index, val)) => {
                                if xwrite.is_some() {
                                    return Err(ParseErr::MultipleXWrites);
                                }
                                match xreg_value_exec(val, xlen) {
                                    Ok(v) => {
                                        xwrite = Some(
                                            XRegWrite { index, value: v, prev_value: None },
                                        );
                                    },
                                    Err(e) => {
                                        return Err(e);
                                    },
                                }
                            },
                            None => {},
                        }
                    },
                }
            },
        }
        ti += 1;
    }
    proof {
        assert(stokens.take(stokens.len() as int) =~= stokens);
    }

    let store = match (store_val, phys_addr) {
        (Some(d), Some(a)) => Some(MemWrite { phys_addr: a, value: d, prev_value: None }),
        (None, _) => None,
        (Some(_), None) => {
            return Err(ParseErr::StoreWithoutPa);
        },
    };

    let ev = RetireEvent {
        time,
        cycle,
        pc,
        trap,
        instruction: Some(instruction),
        assembly_mnemonic: mnemonic,
        assembly_args: args,
        xwrite,
        store,
    };
    proof {
        assert(spec_read_line(line@, xlen) == Ok::<EventV, ParseErr>(ev@));
    }
    Ok(ev)
}


/// The records of a whole trace text, starting at line `i` (zero-based);
/// errors carry the one-based line number.
pub open spec fn spec_parse_lines(lines: Seq<Seq<u8>>, i: int, xlen: Xlen) -> Result<
    Seq<EventV>,
    (int, ParseErr),
>
    decreases lines.len() - i,
{
    if i < 0 || i >= lines.len() {
        Ok(Seq::empty())
    } else if starts_with(lines[i], lit_time()) {
        spec_parse_lines(lines, i + 1, xlen)
    } else {
        match spec_read_line(lines[i], xlen) {
            Ok(e) => match spec_parse_lines(lines, i + 1, xlen) {
                Ok(rest) => Ok(seq![e] + rest),
                Err(x) => Err(x),
            },
            Err(k) => Err((i + 1, k)),
        }
    }
}

/// The records of a whole trace text: lines beginning with `Time` are
/// headers and are skipped.
pub open spec fn spec_read_trace(data: Seq<u8>, xlen: Xlen) -> Result<
    Seq<EventV>,
    (int, ParseErr),
> {
    spec_parse_lines(crate::lex::spec_lines(data), 0, xlen)
}

/// Parse a whole trace text of the capability flavor.
#[verifier::rlimit(100)]
#[verifier::spinoff_prover]
pub fn read_trace(data: &[u8], xlen: Xlen) -> (r: Result<Vec<RetireEvent>, TraceError>)
    ensures
        r matches Ok(v) ==> spec_read_trace(data@, xlen) == Ok::<Seq<EventV>, (int, ParseErr)>(
            crate::trace::trace_view(v@),
        ),
        r matches Ok(v) ==> crate::trace::trace_wf(crate::trace::trace_view(v@))
            && crate::trace::trace_prev_none(crate::trace::trace_view(v@)),
        r matches Err(te) ==> spec_read_trace(data@, xlen) == Err::<Seq<EventV>, (int, ParseErr)>(
            (te.line as int, te.kind),
        ),
{
    let lines = crate::lex::split_lines(data);
    let ghost slines = crate::lex::spec_lines(data@);
    let mut events: Vec<RetireEvent> = Vec::new();
    let mut i: usize = 0;
    proof {
        assert(crate::trace::trace_view(events@) + spec_parse_lines(slines, 0, xlen)->Ok_0
            =~= spec_parse_lines(slines, 0, xlen)->Ok_0);
    }
    while i < lines.len()
        invariant
            i <= lines@.len(),
            slines == lines@.map_values(|v: Vec<u8>| v@),
            slines == crate::lex::spec_lines(data@),
            spec_parse_lines(slines, 0, xlen) == (match spec_parse_lines(slines, i as int, xlen) {
                Ok(rest) => Ok::<Seq<EventV>, (int, ParseErr)>(
                    crate::trace::trace_view(events@) + rest,
                ),
                Err(x) => Err::<Seq<EventV>, (int, ParseErr)>(x),
            }),
            crate::trace::trace_wf(crate::trace::trace_view(events@)),
            crate::trace::trace_prev_none(crate::trace::trace_view(events@)),
        decreases lines@.len() - i,
    {
        let line = lines[i].as_slice();
        proof {
            assert(slines[i as int] == lines@.map_values(|v: Vec<u8>| v@)[i as int]);
        }
        let header = line.len() >= 4 && line[0] == 84 && line[1] == 105 && line[2] == 109
            && line[3] == 101;
        proof {
            if header {
                assert(line@.take(4) =~= lit_time());
            } else if starts_with(line@, lit_time()) {
                assert(line@[0] == line@.take(4)[0]);
                assert(line@[1] == line@.take(4)[1]);
                assert(line@[2] == line@.take(4)[2]);
                assert(line@[3] == line@.take(4)[3]);
            }
        }
        if !header {
            match read_line(line, xlen) {
                Ok(ev) => {
                    let ghost before = crate::trace::trace_view(events@);
                    events.push(ev);
                    proof {
                        assert(crate::trace::trace_view(events@) =~= before + seq![ev@]);
                        let rest1 = spec_parse_lines(slines, i + 1, xlen);
                        if rest1 is Ok {
                            assert((before + seq![ev@]) + rest1->Ok_0 =~= before + (seq![ev@]
                                + rest1->Ok_0));
                        }
                    }
                },
                Err(k) => {
                    return Err(TraceError { line: i + 1, kind: k });
                },
            }
        }
        i += 1;
    }
    proof {
        assert(spec_parse_lines(slines, i as int, xlen) == Ok::<Seq<EventV>, (int, ParseErr)>(
            Seq::empty(),
        ));
        assert(crate::trace::trace_view(events@) + Seq::<EventV>::empty() =~= crate::trace::trace_view(
            events@,
        ));
    }
    Ok(events)
}

} // verus!
