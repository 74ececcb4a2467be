use tracedbg::cheriot_ibex_trace;
use tracedbg::ibex_trace;
use tracedbg::ibex_trace::{instruction_access_width, AccessWidth};
use tracedbg::trace::{Data, ParseErr, Xlen};

#[test]
fn legacy_basic_line() {
    let line = b"10\t1\t80\t00100093\tli\tx1,1\tx1=0x1";
    let ev = ibex_trace::read_line(line, Xlen::X32).unwrap();
    assert_eq!(ev.time, 10);
    assert_eq!(ev.cycle, 1);
    assert_eq!(ev.pc, 0x80);
    assert_eq!(ev.instruction, Some(0x00100093));
    assert_eq!(ev.assembly_mnemonic, b"li".to_vec());
    assert_eq!(ev.assembly_args, b"x1,1".to_vec());
    let xw = ev.xwrite.unwrap();
    assert_eq!(xw.index, 1);
    assert_eq!(xw.value, 1);
    assert_eq!(xw.prev_value, None);
    assert!(ev.store.is_none());
    assert!(!ev.trap);
}

#[test]
fn legacy_store_width_from_instruction() {
    // SB: byte store
    let line = b"1\t1\t100\t00100023\tsb\t\tstore:0xab PA:0x1000";
    let ev = ibex_trace::read_line(line, Xlen::X32).unwrap();
    let st = ev.store.unwrap();
    assert_eq!(st.phys_addr, 0x1000);
    assert_eq!(st.value, Data::U8(0xab));
    // SH: halfword store
    let line = b"1\t1\t100\t00101023\tsh\t\tstore:0xbeef PA:0x1000";
    let ev = ibex_trace::read_line(line, Xlen::X32).unwrap();
    assert_eq!(ev.store.unwrap().value, Data::U16(0xbeef));
    // SW: word store
    let line = b"1\t1\t100\t00102023\tsw\t\tstore:0xdeadbeef PA:0x1000";
    let ev = ibex_trace::read_line(line, Xlen::X32).unwrap();
    assert_eq!(ev.store.unwrap().value, Data::U32(0xdeadbeef));
    // C.SW: compressed word store
    let line = b"1\t1\t100\tc004\tc.sw\t\tstore:0x11223344 PA:0x2000";
    let ev = ibex_trace::read_line(line, Xlen::X32).unwrap();
    assert_eq!(ev.store.unwrap().value, Data::U32(0x11223344));
}

#[test]
fn legacy_store_value_with_dont_cares_is_rejected() {
    // the legacy flavor takes a plain hex word: `?` digits do not parse
    let line = b"1\t1\t100\t00100023\tsb\t\tstore:0x????ab PA:0x1000";
    assert_eq!(
        ibex_trace::read_line(line, Xlen::X32).unwrap_err(),
        ParseErr::BadStoreValue
    );
}

#[test]
fn legacy_error_cases() {
    assert_eq!(
        ibex_trace::read_line(b"1\t2\t3", Xlen::X32).unwrap_err(),
        ParseErr::FieldCount
    );
    assert_eq!(
        ibex_trace::read_line(b"x\t1\t80\t13", Xlen::X32).unwrap_err(),
        ParseErr::BadTime
    );
    assert_eq!(
        ibex_trace::read_line(b"1\tx\t80\t13", Xlen::X32).unwrap_err(),
        ParseErr::BadCycle
    );
    assert_eq!(
        ibex_trace::read_line(b"1\t1\tzz\t13", Xlen::X32).unwrap_err(),
        ParseErr::BadPc
    );
    assert_eq!(
        ibex_trace::read_line(b"1\t1\t80\tzz", Xlen::X32).unwrap_err(),
        ParseErr::BadInstruction
    );
    // two stores
    assert_eq!(
        ibex_trace::read_line(
            b"1\t1\t80\t00100023\t\t\tstore:0x1 store:0x2 PA:0x0",
            Xlen::X32
        )
        .unwrap_err(),
        ParseErr::MultipleStores
    );
    // store without a physical address
    assert_eq!(
        ibex_trace::read_line(b"1\t1\t80\t00100023\t\t\tstore:0x1", Xlen::X32).unwrap_err(),
        ParseErr::StoreWithoutPa
    );
    // store on an instruction with no load/store width
    assert_eq!(
        ibex_trace::read_line(b"1\t1\t80\t00000013\t\t\tstore:0x1 PA:0x0", Xlen::X32)
            .unwrap_err(),
        ParseErr::UnknownAccessWidth
    );
    // a byte store too wide for SB
    assert_eq!(
        ibex_trace::read_line(b"1\t1\t80\t00100023\t\t\tstore:0x1ff PA:0x0", Xlen::X32)
            .unwrap_err(),
        ParseErr::StoreTooWide
    );
}

#[test]
fn legacy_unrecognized_tokens_are_skipped() {
    // x0 writes are never recorded; unknown tokens are ignored
    let line = b"1\t1\t80\t13\t\t\tx0=0x5 foo x32=0x1 x01=0x2";
    let ev = ibex_trace::read_line(line, Xlen::X32).unwrap();
    assert!(ev.xwrite.is_none());
    assert!(ev.store.is_none());
}

#[test]
fn legacy_pc_width_depends_on_xlen() {
    let line = b"1\t1\t123456789\t13";
    assert_eq!(
        ibex_trace::read_line(line, Xlen::X32).unwrap_err(),
        ParseErr::BadPc
    );
    let ev = ibex_trace::read_line(line, Xlen::X64).unwrap();
    assert_eq!(ev.pc, 0x123456789);
}

#[test]
fn legacy_read_trace_skips_headers_and_counts_lines() {
    let text = b"Time\tCycle\tPC\tInsn\n10\t1\t80\t13\n11\t2\t84\t13\n";
    let evs = ibex_trace::read_trace(text, Xlen::X32).unwrap();
    assert_eq!(evs.len(), 2);
    assert_eq!(evs[0].pc, 0x80);
    assert_eq!(evs[1].pc, 0x84);

    let bad = b"Time\tx\n10\t1\t80\t13\nbroken\n";
    let err = ibex_trace::read_trace(bad, Xlen::X32).unwrap_err();
    assert_eq!(err.line, 3);
    assert_eq!(err.kind, ParseErr::FieldCount);
}

#[test]
fn legacy_round_trip_of_canonical_record() {
    // a record, re-emitted with the same field order, parses identically
    let line: &[u8] = b"10\t2\tff\t00100023\tsb\ta0,0(a1)\tstore:0xab PA:0x1000 x5=0x17";
    let ev1 = ibex_trace::read_line(line, Xlen::X32).unwrap();
    let reemitted = format!(
        "{}\t{}\t{:x}\t{:x}\tsb\ta0,0(a1)\tstore:0x{:x} PA:0x{:x} x{}=0x{:x}",
        ev1.time,
        ev1.cycle,
        ev1.pc,
        ev1.instruction.unwrap(),
        0xab,
        0x1000,
        5,
        0x17
    );
    let ev2 = ibex_trace::read_line(reemitted.as_bytes(), Xlen::X32).unwrap();
    assert_eq!(ev1, ev2);
}

#[test]
fn cheriot_plain_store_widths() {
    let cases: &[(&[u8], Data)] = &[
        (b"1\t1\t80\t13\t\t\tstore:0xab PA:0x0", Data::U8(0xab)),
        (b"1\t1\t80\t13\t\t\tstore:0xbeef PA:0x0", Data::U16(0xbeef)),
        (b"1\t1\t80\t13\t\t\tstore:0xdeadbeef PA:0x0", Data::U32(0xdeadbeef)),
        (
            b"1\t1\t80\t13\t\t\tstore:0x0123456789abcdef PA:0x0",
            Data::U64(0x0123456789abcdef),
        ),
        (
            b"1\t1\t80\t13\t\t\tstore:0x0123456789abcdef0123456789abcdef PA:0x0",
            Data::U128(0x0123456789abcdef0123456789abcdef),
        ),
    ];
    for (line, want) in cases {
        let ev = cheriot_ibex_trace::read_line(line, Xlen::X64).unwrap();
        assert_eq!(ev.store.unwrap().value, *want);
    }
}

#[test]
fn cheriot_dont_care_digits_select_width() {
    let ev =
        cheriot_ibex_trace::read_line(b"1\t1\t80\t13\t\t\tstore:0x????ab PA:0x0", Xlen::X64)
            .unwrap();
    assert_eq!(ev.store.unwrap().value, Data::U8(0xab));
    // a width that is not 1, 2, 4, 8 or 16 bytes is refused
    assert_eq!(
        cheriot_ibex_trace::read_line(b"1\t1\t80\t13\t\t\tstore:0xabc PA:0x0", Xlen::X64)
            .unwrap_err(),
        ParseErr::BadStoreLength
    );
}

#[test]
fn cheriot_capability_store_w64() {
    // tag nibble 1, 15 nibbles of metadata over a 16-nibble data word
    let line = b"1\t1\t80\t13\t\t\tstore:0x0123456789abcdef+0x1fedcba987654321 PA:0x0";
    let ev = cheriot_ibex_trace::read_line(line, Xlen::X64).unwrap();
    let want = (0x0fedcba987654321u128 << 64) | 0x0123456789abcdefu128;
    assert_eq!(ev.store.unwrap().value, Data::U128(want));

    // tag nibble 0
    let line = b"1\t1\t80\t13\t\t\tstore:0x1+0x02 PA:0x0";
    let ev = cheriot_ibex_trace::read_line(line, Xlen::X64).unwrap();
    assert_eq!(ev.store.unwrap().value, Data::U128((0x2u128 << 64) | 0x1));
}

#[test]
fn cheriot_capability_store_metadata_too_wide_is_rejected() {
    // 17 metadata nibbles after the tag exceed the register width
    let line = b"1\t1\t80\t13\t\t\tstore:0x0123456789abcdef+0x1fedcba987654321ff PA:0x0";
    assert_eq!(
        cheriot_ibex_trace::read_line(line, Xlen::X64).unwrap_err(),
        ParseErr::BadStoreValue
    );
}

#[test]
fn cheriot_capability_store_w32() {
    let line = b"1\t1\t80\t13\t\t\tstore:0x12345678+0x19abcdef0 PA:0x0";
    let ev = cheriot_ibex_trace::read_line(line, Xlen::X32).unwrap();
    assert_eq!(
        ev.store.unwrap().value,
        Data::U64((0x9abcdef0u64 << 32) | 0x12345678)
    );
}

#[test]
fn cheriot_bad_metadata_tag() {
    let line = b"1\t1\t80\t13\t\t\tstore:0x1+0x52 PA:0x0";
    assert_eq!(
        cheriot_ibex_trace::read_line(line, Xlen::X64).unwrap_err(),
        ParseErr::BadMetadata
    );
}

#[test]
fn cheriot_missing_hex_prefix() {
    assert_eq!(
        cheriot_ibex_trace::read_line(b"1\t1\t80\t13\t\t\tstore:ab PA:0x0", Xlen::X64)
            .unwrap_err(),
        ParseErr::MissingHexPrefix
    );
    assert_eq!(
        cheriot_ibex_trace::read_line(b"1\t1\t80\t13\t\t\tPA:1000", Xlen::X64).unwrap_err(),
        ParseErr::MissingHexPrefix
    );
}

#[test]
fn cheriot_register_write_discards_metadata() {
    let ev = cheriot_ibex_trace::read_line(
        b"1\t1\t80\t13\t\t\tx5=0x10+0x1ff",
        Xlen::X64,
    )
    .unwrap();
    let xw = ev.xwrite.unwrap();
    assert_eq!(xw.index, 5);
    assert_eq!(xw.value, 0x10);
}

#[test]
fn cheriot_trap_marker() {
    let ev =
        cheriot_ibex_trace::read_line(b"1\t1\t80\t13\t--> handler\targs", Xlen::X64).unwrap();
    assert!(ev.trap);
    let ev = cheriot_ibex_trace::read_line(b"1\t1\t80\t13\tadd\targs", Xlen::X64).unwrap();
    assert!(!ev.trap);
}

#[test]
fn strip_hex_prefix_requires_prefix() {
    assert_eq!(
        cheriot_ibex_trace::strip_hex_prefix(b"0x12").unwrap(),
        b"12"
    );
    assert_eq!(
        cheriot_ibex_trace::strip_hex_prefix(b"12").unwrap_err(),
        ParseErr::MissingHexPrefix
    );
}

#[test]
fn access_width_decoding() {
    assert_eq!(instruction_access_width(0x00000003), Some(AccessWidth::Byte)); // LB
    assert_eq!(instruction_access_width(0x00001003), Some(AccessWidth::Half)); // LH
    assert_eq!(instruction_access_width(0x00002003), Some(AccessWidth::Word)); // LW
    assert_eq!(instruction_access_width(0x00000023), Some(AccessWidth::Byte)); // SB
    assert_eq!(instruction_access_width(0x00001023), Some(AccessWidth::Half)); // SH
    assert_eq!(instruction_access_width(0x00002023), Some(AccessWidth::Word)); // SW
    assert_eq!(instruction_access_width(0x4000), Some(AccessWidth::Word)); // C.LW
    assert_eq!(instruction_access_width(0xc000), Some(AccessWidth::Word)); // C.SW
    assert_eq!(instruction_access_width(0x4002), Some(AccessWidth::Word)); // C.LWSP
    assert_eq!(instruction_access_width(0xc002), Some(AccessWidth::Word)); // C.SWSP
    assert_eq!(instruction_access_width(0x00000013), None); // ADDI
}
