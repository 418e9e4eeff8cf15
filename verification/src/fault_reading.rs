//! What a reader finds in the report of a fault.
use vstd::prelude::*;
use crate::text::{utf8, hex_value, lemma_hex_reads_back, lemma_hex64_reads_back, lemma_pow16};
use crate::linux_vm::{block_touched, in_framebuffer};
use crate::glyph::{Font, Geometry, char_pixel, in_cell};
use crate::terminal::{is_set, lemma_bitmap};
use crate::hv_console::{HvConsole, cell_shows, cells_of, is_refused_store, row_shows, shown, LineView, SpanView, report, syndrome_lines, status_lines, address_lines, hint_lines, footer_lines, ec_name, ec_of, fsc_name, iss_of, ipa_of};

verus! {

/// The characters of a line, one after the other.
pub open spec fn line_text(spans: Seq<SpanView>) -> Seq<u8>
    decreases spans.len(),
{
    if spans.len() == 0 {
        Seq::empty()
    } else {
        spans[0].text + line_text(spans.drop_first())
    }
}

/// The text starts with `label`, and behind it stand `digits` hexadecimal digits of the
/// number `v`.
pub open spec fn reads(text: Seq<u8>, label: Seq<u8>, digits: int, v: int) -> bool {
    &&& label.len() + digits <= text.len()
    &&& text.take(label.len() as int) == label
    &&& hex_value(text.subrange(label.len() as int, label.len() + digits)) == v
}

/// Some line of a report starts with `label` and then has the number `v`.
pub open spec fn says(lines: Seq<LineView>, label: &str, digits: int, v: int) -> bool {
    exists|i: int|
        0 <= i < lines.len() && reads(line_text((#[trigger] lines[i]).spans), utf8(label), digits, v)
}

/// Some line of a report ends with `label` and then `digits` hexadecimal digits of the
/// number `v`.
pub open spec fn says_last(lines: Seq<LineView>, label: &str, digits: int, v: int) -> bool {
    exists|i: int|
        0 <= i < lines.len() && {
            let text = line_text((#[trigger] lines[i]).spans);
            let n = text.len() - digits;
            &&& utf8(label).is_suffix_of(text.take(n))
            &&& hex_value(text.skip(n)) == v
        }
}

/// Some line of a report ends with this text.
pub open spec fn ends_with(lines: Seq<LineView>, text: Seq<u8>) -> bool {
    exists|i: int|
        0 <= i < lines.len() && text.is_suffix_of(line_text((#[trigger] lines[i]).spans))
}

proof fn lemma_text2(a: SpanView, b: SpanView)
    ensures
        line_text(seq![a, b]) == a.text + b.text,
{
    reveal_with_fuel(line_text, 3);
    assert(seq![a, b].drop_first() =~= seq![b]);
    assert(seq![b].drop_first() =~= Seq::empty());
    assert(line_text(seq![a, b]) =~= a.text + b.text);
}

proof fn lemma_text_more(spans: Seq<SpanView>)
    requires
        spans.len() >= 2,
    ensures
        line_text(spans) == spans[0].text + spans[1].text + line_text(
            spans.drop_first().drop_first(),
        ),
{
    reveal_with_fuel(line_text, 3);
    assert(line_text(spans) =~= spans[0].text + spans[1].text + line_text(
        spans.drop_first().drop_first(),
    ));
}

proof fn lemma_reads(text: Seq<u8>, label: Seq<u8>, number: Seq<u8>, rest: Seq<u8>)
    requires
        text == label + number + rest,
    ensures
        reads(text, label, number.len() as int, hex_value(number)),
{
    assert(text.take(label.len() as int) =~= label);
    assert(text.subrange(label.len() as int, (label.len() + number.len()) as int) =~= number);
}

/// The report tells all four registers in full: the sixteen digits behind each name
/// are that register's value.
pub proof fn lemma_registers_can_be_read(esr: u64, elr: u64, far: u64, hpfar: u64)
    ensures
        says(report(esr, elr, far, hpfar), "ESR_EL2  : 0x", 16, esr as int),
        says(report(esr, elr, far, hpfar), "ELR_EL2  : 0x", 16, elr as int),
        says(report(esr, elr, far, hpfar), "FAR_EL2  : 0x", 16, far as int),
        says(report(esr, elr, far, hpfar), "HPFAR_EL2: 0x", 16, hpfar as int),
{
    let lines = report(esr, elr, far, hpfar);
    let n = syndrome_lines(esr).len() + status_lines(esr).len();
    lemma_hex64_reads_back(esr, true);
    lemma_hex64_reads_back(elr, true);
    lemma_hex64_reads_back(far, true);
    lemma_hex64_reads_back(hpfar, true);
    let l = lines[2].spans;
    lemma_text_more(l);
    lemma_reads(line_text(l), l[0].text, l[1].text, line_text(l.drop_first().drop_first()));
    assert(reads(line_text(lines[2].spans), utf8("ESR_EL2  : 0x"), 16, esr as int));
    let all = address_lines(elr, far, hpfar);
    assert(lines[n as int] == all[0]);
    assert(lines[n + 1int] == all[1]);
    assert(lines[n + 2int] == all[2]);
    let l = all[0].spans;
    lemma_text_more(l);
    lemma_reads(line_text(l), l[0].text, l[1].text, line_text(l.drop_first().drop_first()));
    assert(reads(line_text(lines[n as int].spans), utf8("ELR_EL2  : 0x"), 16, elr as int));
    let l = all[1].spans;
    lemma_text_more(l);
    lemma_reads(line_text(l), l[0].text, l[1].text, line_text(l.drop_first().drop_first()));
    assert(reads(line_text(lines[n + 1int].spans), utf8("FAR_EL2  : 0x"), 16, far as int));
    let l = all[2].spans;
    lemma_text_more(l);
    lemma_reads(line_text(l), l[0].text, l[1].text, line_text(l.drop_first().drop_first()));
    assert(reads(line_text(lines[n + 2int].spans), utf8("HPFAR_EL2: 0x"), 16, hpfar as int));
}

/// The report tells the fields of the syndrome, as they lie in the register, and the
/// address of the page that the guest has touched.
pub proof fn lemma_fields_can_be_read(esr: u64, elr: u64, far: u64, hpfar: u64)
    ensures
        says(report(esr, elr, far, hpfar), "EC  = 0x", 2, ((esr >> 26) & 0x3F) as int),
        says(report(esr, elr, far, hpfar), "ISS = 0x", 6, (esr & 0xFF_FFFF) as int),
        ({
            let ec = (esr >> 26) & 0x3F;
            &&& ec == 0x24 || ec == 0x25 ==> says(
                report(esr, elr, far, hpfar),
                "DFSC=0x",
                2,
                (esr & 0x3F) as int,
            ) && ends_with(
                report(esr, elr, far, hpfar),
                utf8(
                    if esr & 0x40 != 0 {
                        "  WRITE"
                    } else {
                        "  READ"
                    },
                ),
            )
            &&& ec == 0x20 || ec == 0x21 ==> says(
                report(esr, elr, far, hpfar),
                "IFSC=0x",
                2,
                (esr & 0x3F) as int,
            )
        }),
        says_last(report(esr, elr, far, hpfar), "  IPA=0x", 16, ((hpfar >> 4) << 12) as int),
{
    let lines = report(esr, elr, far, hpfar);
    let ec = ec_of(esr);
    let iss = iss_of(esr);
    let n = syndrome_lines(esr).len() + status_lines(esr).len();
    crate::hv_console::lemma_syndrome_fields(esr, hpfar);
    let low = esr & 0xFF_FFFF;
    assert((esr & 0xFF_FFFF) & 0x3F == esr & 0x3F && ((((esr & 0xFF_FFFF) >> 6) & 1 != 0) <==> (esr
        & 0x40 != 0))) by (bit_vector);
    lemma_pow16();
    lemma_hex_reads_back(ec as nat, 2, true);
    lemma_hex_reads_back(iss as nat, 6, true);
    lemma_hex_reads_back((iss % 64) as nat, 2, true);
    vstd::arithmetic::div_mod::lemma_small_mod(ec as nat, 0x100);
    vstd::arithmetic::div_mod::lemma_small_mod(iss as nat, 0x100_0000);
    vstd::arithmetic::div_mod::lemma_small_mod((iss % 64) as nat, 0x100);
    let l = lines[3].spans;
    lemma_text_more(l);
    lemma_reads(line_text(l), l[0].text, l[1].text, line_text(l.drop_first().drop_first()));
    assert(reads(line_text(lines[3].spans), utf8("EC  = 0x"), 2, ec as int));
    let l = lines[4].spans;
    lemma_text_more(l);
    lemma_reads(line_text(l), l[0].text, l[1].text, line_text(l.drop_first().drop_first()));
    assert(reads(line_text(lines[4].spans), utf8("ISS = 0x"), 6, iss as int));
    if ec == 0x24 || ec == 0x25 || ec == 0x20 || ec == 0x21 {
        assert(lines[5] == status_lines(esr)[0]);
        let l = lines[5].spans;
        lemma_text_more(l);
        lemma_reads(line_text(l), l[0].text, l[1].text, line_text(l.drop_first().drop_first()));
        if ec == 0x24 || ec == 0x25 {
            assert(reads(line_text(lines[5].spans), utf8("DFSC=0x"), 2, (iss % 64) as int));
            lemma_last_span(l);
            assert(l.last().text.is_suffix_of(line_text(lines[5].spans)));
        } else {
            assert(reads(line_text(lines[5].spans), utf8("IFSC=0x"), 2, (iss % 64) as int));
        }
    }
    lemma_hex64_reads_back(ipa_of(hpfar), true);
    let all = address_lines(elr, far, hpfar);
    assert(lines[n + 2int] == all[2]);
    let l = all[2].spans;
    lemma_text_more(l);
    assert(l.drop_first().drop_first() =~= seq![l[2], l[3]]);
    lemma_text2(l[2], l[3]);
    let text = line_text(lines[n + 2int].spans);
    assert(text.skip(text.len() - 16) =~= l[3].text);
    assert(utf8("  IPA=0x").is_suffix_of(text.take(text.len() - 16)));
}

proof fn lemma_last_span(spans: Seq<SpanView>)
    requires
        spans.len() > 0,
    ensures
        spans.last().text.is_suffix_of(line_text(spans)),
    decreases spans.len(),
{
    if spans.len() == 1 {
        reveal_with_fuel(line_text, 2);
        assert(spans.drop_first() =~= Seq::empty());
        assert(line_text(spans) =~= spans[0].text);
    } else {
        lemma_last_span(spans.drop_first());
        assert(spans.drop_first().last() == spans.last());
    }
}

/// Faults with different registers have different reports.
pub proof fn lemma_reports_differ(
    a: (u64, u64, u64, u64),
    b: (u64, u64, u64, u64),
)
    requires
        report(a.0, a.1, a.2, a.3) == report(b.0, b.1, b.2, b.3),
    ensures
        a == b,
{
    let la = report(a.0, a.1, a.2, a.3);
    let lb = report(b.0, b.1, b.2, b.3);
    lemma_hex64_reads_back(a.0, true);
    lemma_hex64_reads_back(b.0, true);
    lemma_hex64_reads_back(a.1, true);
    lemma_hex64_reads_back(b.1, true);
    lemma_hex64_reads_back(a.2, true);
    lemma_hex64_reads_back(b.2, true);
    lemma_hex64_reads_back(a.3, true);
    lemma_hex64_reads_back(b.3, true);
    assert(la[2].spans[1] == lb[2].spans[1]);
    assert(a.0 == b.0);
    let n = syndrome_lines(a.0).len() + status_lines(a.0).len();
    assert(la[n as int] == address_lines(a.1, a.2, a.3)[0]);
    assert(lb[n as int] == address_lines(b.1, b.2, b.3)[0]);
    assert(la[n + 1int] == address_lines(a.1, a.2, a.3)[1]);
    assert(lb[n + 1int] == address_lines(b.1, b.2, b.3)[1]);
    assert(la[n + 2int] == address_lines(a.1, a.2, a.3)[2]);
    assert(lb[n + 2int] == address_lines(b.1, b.2, b.3)[2]);
    assert(la[n as int].spans[1] == lb[n as int].spans[1]);
    assert(la[n + 1int].spans[1] == lb[n + 1int].spans[1]);
    assert(la[n + 2int].spans[1] == lb[n + 2int].spans[1]);
}

// ── Names ──────────────────────────────────────────────────────────────────

/// The kind of exceptions that come from a lower level or from the same.
pub open spec fn class_kind(ec: u8) -> &'static str {
    if ec / 2 == 0x10 {
        "Instruction abort"
    } else if ec / 2 == 0x12 {
        "Data abort"
    } else if ec / 2 == 0x18 {
        "Breakpoint"
    } else if ec / 2 == 0x19 {
        "Software step"
    } else {
        "Watchpoint"
    }
}

/// Even classes come from a lower level, odd ones from the same.
pub open spec fn class_level(ec: u8) -> &'static str {
    if ec % 2 == 0 {
        " (lower EL)"
    } else {
        " (same EL)"
    }
}

/// Aborts and debug exceptions come in pairs: the name says which, and from where.
pub proof fn lemma_paired_classes(ec: u8)
    requires
        ec / 2 == 0x10 || ec / 2 == 0x12 || 0x18 <= ec / 2 <= 0x1A,
    ensures
        ec_name(ec)@ == class_kind(ec)@ + class_level(ec)@,
{
    reveal_strlit("Instruction abort");
    reveal_strlit("Data abort");
    reveal_strlit("Breakpoint");
    reveal_strlit("Software step");
    reveal_strlit("Watchpoint");
    reveal_strlit(" (lower EL)");
    reveal_strlit(" (same EL)");
    match ec {
        0x20 => {
            reveal_strlit("Instruction abort (lower EL)");
            assert(ec_name(ec)@ =~= class_kind(ec)@ + class_level(ec)@);
        },
        0x21 => {
            reveal_strlit("Instruction abort (same EL)");
            assert(ec_name(ec)@ =~= class_kind(ec)@ + class_level(ec)@);
        },
        0x24 => {
            reveal_strlit("Data abort (lower EL)");
            assert(ec_name(ec)@ =~= class_kind(ec)@ + class_level(ec)@);
        },
        0x25 => {
            reveal_strlit("Data abort (same EL)");
            assert(ec_name(ec)@ =~= class_kind(ec)@ + class_level(ec)@);
        },
        0x30 => {
            reveal_strlit("Breakpoint (lower EL)");
            assert(ec_name(ec)@ =~= class_kind(ec)@ + class_level(ec)@);
        },
        0x31 => {
            reveal_strlit("Breakpoint (same EL)");
            assert(ec_name(ec)@ =~= class_kind(ec)@ + class_level(ec)@);
        },
        0x32 => {
            reveal_strlit("Software step (lower EL)");
            assert(ec_name(ec)@ =~= class_kind(ec)@ + class_level(ec)@);
        },
        0x33 => {
            reveal_strlit("Software step (same EL)");
            assert(ec_name(ec)@ =~= class_kind(ec)@ + class_level(ec)@);
        },
        0x34 => {
            reveal_strlit("Watchpoint (lower EL)");
            assert(ec_name(ec)@ =~= class_kind(ec)@ + class_level(ec)@);
        },
        0x35 => {
            reveal_strlit("Watchpoint (same EL)");
            assert(ec_name(ec)@ =~= class_kind(ec)@ + class_level(ec)@);
        },
        _ => {},
    }
}

/// The three calls to a higher level.
pub open spec fn call_kind(ec: u8) -> &'static str {
    if ec % 4 == 1 {
        "SVC"
    } else if ec % 4 == 2 {
        "HVC"
    } else {
        "SMC"
    }
}

/// Whether the caller ran 32-bit or 64-bit code.
pub open spec fn call_state(ec: u8) -> &'static str {
    if ec < 0x14 {
        " from AArch32"
    } else {
        " from AArch64"
    }
}

/// Calls are named with the state that they came from.
pub proof fn lemma_calls(ec: u8)
    requires
        0x11 <= ec <= 0x17,
        ec != 0x14,
    ensures
        ec_name(ec)@ == call_kind(ec)@ + call_state(ec)@,
{
    reveal_strlit("SVC");
    reveal_strlit("HVC");
    reveal_strlit("SMC");
    reveal_strlit(" from AArch32");
    reveal_strlit(" from AArch64");
    match ec {
        0x11 => {
            reveal_strlit("SVC from AArch32");
            assert(ec_name(ec)@ =~= call_kind(ec)@ + call_state(ec)@);
        },
        0x15 => {
            reveal_strlit("SVC from AArch64");
            assert(ec_name(ec)@ =~= call_kind(ec)@ + call_state(ec)@);
        },
        0x12 => {
            reveal_strlit("HVC from AArch32");
            assert(ec_name(ec)@ =~= call_kind(ec)@ + call_state(ec)@);
        },
        0x16 => {
            reveal_strlit("HVC from AArch64");
            assert(ec_name(ec)@ =~= call_kind(ec)@ + call_state(ec)@);
        },
        0x13 => {
            reveal_strlit("SMC from AArch32");
            assert(ec_name(ec)@ =~= call_kind(ec)@ + call_state(ec)@);
        },
        0x17 => {
            reveal_strlit("SMC from AArch64");
            assert(ec_name(ec)@ =~= call_kind(ec)@ + call_state(ec)@);
        },
        _ => {},
    }
}

/// The kind of a fault that is met at a level of the page tables.
pub open spec fn status_kind(fsc: u8) -> &'static str {
    if fsc / 4 == 0 {
        "Address size fault L"
    } else if fsc / 4 == 1 {
        "Translation fault L"
    } else if fsc / 4 == 2 {
        "Access flag fault L"
    } else if fsc / 4 == 3 {
        "Permission fault L"
    } else {
        "Sync ext abort on table walk L"
    }
}

/// Faults of the page tables come in groups of four: the name says which, and the level
/// is the remainder.
pub proof fn lemma_levels(fsc: u8)
    requires
        fsc < 0x10 || fsc / 4 == 5,
    ensures
        fsc_name(fsc)@ == status_kind(fsc)@.push((0x30 + fsc % 4) as char),
{
    reveal_strlit("Address size fault L");
    reveal_strlit("Translation fault L");
    reveal_strlit("Access flag fault L");
    reveal_strlit("Permission fault L");
    reveal_strlit("Sync ext abort on table walk L");
    match fsc {
        0x00 => {
            reveal_strlit("Address size fault L0");
            assert(fsc_name(fsc)@ =~= status_kind(fsc)@.push('0'));
        },
        0x01 => {
            reveal_strlit("Address size fault L1");
            assert(fsc_name(fsc)@ =~= status_kind(fsc)@.push('1'));
        },
        0x02 => {
            reveal_strlit("Address size fault L2");
            assert(fsc_name(fsc)@ =~= status_kind(fsc)@.push('2'));
        },
        0x03 => {
            reveal_strlit("Address size fault L3");
            assert(fsc_name(fsc)@ =~= status_kind(fsc)@.push('3'));
        },
        0x04 => {
            reveal_strlit("Translation fault L0");
            assert(fsc_name(fsc)@ =~= status_kind(fsc)@.push('0'));
        },
        0x05 => {
            reveal_strlit("Translation fault L1");
            assert(fsc_name(fsc)@ =~= status_kind(fsc)@.push('1'));
        },
        0x06 => {
            reveal_strlit("Translation fault L2");
            assert(fsc_name(fsc)@ =~= status_kind(fsc)@.push('2'));
        },
        0x07 => {
            reveal_strlit("Translation fault L3");
            assert(fsc_name(fsc)@ =~= status_kind(fsc)@.push('3'));
        },
        0x08 => {
            reveal_strlit("Access flag fault L0");
            assert(fsc_name(fsc)@ =~= status_kind(fsc)@.push('0'));
        },
        0x09 => {
            reveal_strlit("Access flag fault L1");
            assert(fsc_name(fsc)@ =~= status_kind(fsc)@.push('1'));
        },
        0x0A => {
            reveal_strlit("Access flag fault L2");
            assert(fsc_name(fsc)@ =~= status_kind(fsc)@.push('2'));
        },
        0x0B => {
            reveal_strlit("Access flag fault L3");
            assert(fsc_name(fsc)@ =~= status_kind(fsc)@.push('3'));
        },
        0x0C => {
            reveal_strlit("Permission fault L0");
            assert(fsc_name(fsc)@ =~= status_kind(fsc)@.push('0'));
        },
        0x0D => {
            reveal_strlit("Permission fault L1");
            assert(fsc_name(fsc)@ =~= status_kind(fsc)@.push('1'));
        },
        0x0E => {
            reveal_strlit("Permission fault L2");
            assert(fsc_name(fsc)@ =~= status_kind(fsc)@.push('2'));
        },
        0x0F => {
            reveal_strlit("Permission fault L3");
            assert(fsc_name(fsc)@ =~= status_kind(fsc)@.push('3'));
        },
        0x14 => {
            reveal_strlit("Sync ext abort on table walk L0");
            assert(fsc_name(fsc)@ =~= status_kind(fsc)@.push('0'));
        },
        0x15 => {
            reveal_strlit("Sync ext abort on table walk L1");
            assert(fsc_name(fsc)@ =~= status_kind(fsc)@.push('1'));
        },
        0x16 => {
            reveal_strlit("Sync ext abort on table walk L2");
            assert(fsc_name(fsc)@ =~= status_kind(fsc)@.push('2'));
        },
        0x17 => {
            reveal_strlit("Sync ext abort on table walk L3");
            assert(fsc_name(fsc)@ =~= status_kind(fsc)@.push('3'));
        },
        _ => {},
    }
}

/// The report names the class, and the status of an abort.
pub proof fn lemma_names_can_be_read(esr: u64, elr: u64, far: u64, hpfar: u64)
    ensures
        ends_with(report(esr, elr, far, hpfar), utf8(ec_name(((esr >> 26) & 0x3F) as u8))),
        (esr >> 26) & 0x3F == 0x20 || (esr >> 26) & 0x3F == 0x21 ==> ends_with(
            report(esr, elr, far, hpfar),
            utf8(fsc_name((esr & 0x3F) as u8)),
        ),
        (esr >> 26) & 0x3F == 0x24 || (esr >> 26) & 0x3F == 0x25 ==> ends_with(
            report(esr, elr, far, hpfar),
            utf8(fsc_name((esr & 0x3F) as u8)) + utf8(
                if esr & 0x40 != 0 {
                    "  WRITE"
                } else {
                    "  READ"
                },
            ),
        ),
{
    let lines = report(esr, elr, far, hpfar);
    let ec = ec_of(esr);
    let iss = iss_of(esr);
    crate::hv_console::lemma_syndrome_fields(esr, hpfar);
    assert((esr & 0xFF_FFFF) & 0x3F == esr & 0x3F && ((((esr & 0xFF_FFFF) >> 6) & 1 != 0) <==> (esr
        & 0x40 != 0))) by (bit_vector);
    lemma_last_span(lines[3].spans);
    assert(utf8(ec_name(ec)).is_suffix_of(line_text(lines[3].spans)));
    if ec == 0x20 || ec == 0x21 {
        assert(lines[5] == status_lines(esr)[0]);
        lemma_last_span(lines[5].spans);
        assert(utf8(fsc_name((iss % 64) as u8)).is_suffix_of(line_text(lines[5].spans)));
    } else if ec == 0x24 || ec == 0x25 {
        assert(lines[5] == status_lines(esr)[0]);
        let l = lines[5].spans;
        lemma_text_more(l);
        let m = l.drop_first().drop_first();
        lemma_text_more(m);
        let k = m.drop_first().drop_first();
        lemma_text_more(m.drop_first());
        reveal_with_fuel(line_text, 2);
        assert(k =~= seq![l[4]]);
        assert(seq![l[4]].drop_first() =~= Seq::empty());
        assert(line_text(k) =~= l[4].text);
        let text = line_text(l);
        assert(text =~= l[0].text + l[1].text + l[2].text + (l[3].text + l[4].text));
        assert((l[3].text + l[4].text).is_suffix_of(line_text(lines[5].spans)));
    }
}

/// The report says what the address of the page suggests, by where it lies.
pub proof fn lemma_hints_can_be_read(esr: u64, elr: u64, far: u64, hpfar: u64)
    ensures
        ({
            let lines = report(esr, elr, far, hpfar);
            let ipa = (hpfar >> 4) << 12;
            &&& ipa == 0 ==> ends_with(lines, utf8("  (IPA=0 likely not a stage-2 fault)"))
            &&& 0 < ipa < 0x8_0000 ==> ends_with(
                lines,
                utf8("  below kernel (0x80000) — null ptr / early boot"),
            )
            &&& 0xFC00_0000 <= ipa ==> ends_with(
                lines,
                utf8("  device region — bad peripheral access"),
            )
            &&& 0x3B40_0000 <= ipa < 0x3C00_0000 ==> ends_with(
                lines,
                utf8("  EL2 page-table pool — stage-2 corruption!"),
            )
            &&& 0x8_0000 <= ipa < 0x3B40_0000 || 0x3C00_0000 <= ipa < 0xFC00_0000
                ==> hint_lines(hpfar).len() == 0
        }),
{
    crate::hv_console::lemma_syndrome_fields(esr, hpfar);
    let lines = report(esr, elr, far, hpfar);
    let n = syndrome_lines(esr).len() + status_lines(esr).len() + 3;
    if hint_lines(hpfar).len() > 0 {
        assert(lines[n as int] == hint_lines(hpfar)[0]);
        lemma_last_span(lines[n as int].spans);
    }
}

/// Which faults of the guest are passed over: a data abort from a lower level (class
/// 0x24) whose syndrome says that it was a write (bit 6) and that permission was wanting
/// (0b0011 in bits 5 to 2), where some byte of the framebuffer lies in the same 2 MB as
/// the page that the guest wrote to.
pub proof fn lemma_passed_over(con: HvConsole, esr: u64, hpfar: u64)
    requires
        con.base != 0,
        0 < con.pitch * con.height,
    ensures
        is_refused_store(con, esr, hpfar) <==> {
            &&& (esr >> 26) & 0x3F == 0x24
            &&& (esr >> 6) & 1 == 1
            &&& (esr >> 2) & 0xF == 3
            &&& exists|a: int| #[trigger]
                in_framebuffer(con.base as int, con.pitch * con.height, a) && a / 0x20_0000
                    == ((hpfar >> 4) << 12) as int / 0x20_0000
        },
{
    assert((esr >> 26) & 0x3F == esr / 0x400_0000 % 64 && (esr >> 6) & 1 == esr % 0x100_0000 / 64
        % 2 && ((esr >> 2) & 0xF == 3 <==> 0x0C <= esr % 0x100_0000 % 64 <= 0x0F)) by (bit_vector);
    let page = (hpfar >> 4) << 12;
    assert(page == (hpfar / 16) % 0x10_0000_0000_0000 * 4096) by (bit_vector)
        requires
            page == (hpfar >> 4) << 12,
    ;
    assert(ipa_of(hpfar) == page) by {
        let q = hpfar as int / 16;
        assert((q * 4096) % 0x1_0000_0000_0000_0000 == q % 0x10_0000_0000_0000 * 4096);
    }
    let size = con.pitch * con.height;
    let blk = page as int / 0x20_0000;
    if block_touched(con.base as int, size, blk) {
        let first = 0x20_0000 * blk;
        let a = if con.base as int > first {
            con.base as int
        } else {
            first
        };
        assert(in_framebuffer(con.base as int, size, a) && a / 0x20_0000 == blk);
    }
}

/// The classes of exceptions that are neither in pairs nor calls, and those that have no
/// name.
pub proof fn lemma_other_classes(ec: u8)
    requires
        !(0x11 <= ec <= 0x13) && !(0x15 <= ec <= 0x17),
        ec != 0x20 && ec != 0x21 && ec != 0x24 && ec != 0x25,
        !(0x30 <= ec <= 0x35),
    ensures
        ec == 0 ==> ec_name(ec)@ == "Unknown"@,
        ec == 1 ==> ec_name(ec)@ == "WFI/WFE trap"@,
        ec == 7 ==> ec_name(ec)@ == "SVE/SIMD/FP access trap"@,
        ec == 14 ==> ec_name(ec)@ == "Illegal execution state"@,
        ec == 24 ==> ec_name(ec)@ == "MSR/MRS/System instruction trap"@,
        ec == 34 ==> ec_name(ec)@ == "PC alignment fault"@,
        ec == 38 ==> ec_name(ec)@ == "SP alignment fault"@,
        ec == 44 ==> ec_name(ec)@ == "FP exception (AArch64)"@,
        ec == 47 ==> ec_name(ec)@ == "SError interrupt"@,
        ec == 60 ==> ec_name(ec)@ == "BRK instruction"@,
        !seq![0u8, 1, 7, 14, 24, 34, 38, 44, 47, 60].contains(ec) ==> ec_name(ec)@ == "Reserved"@,
{
    let known = seq![0u8, 1, 7, 14, 24, 34, 38, 44, 47, 60];
    assert(known[0] == 0 && known[1] == 1 && known[2] == 7 && known[3] == 14 && known[4] == 24
        && known[5] == 34 && known[6] == 38 && known[7] == 44 && known[8] == 47 && known[9] == 60);
}

/// The codes of faults that have no level, and those that have no name.
pub proof fn lemma_other_faults(fsc: u8)
    requires
        fsc >= 0x10,
        !(0x14 <= fsc <= 0x17),
    ensures
        fsc == 0x10 ==> fsc_name(fsc)@ == "Synchronous external abort"@,
        fsc == 0x21 ==> fsc_name(fsc)@ == "Alignment fault"@,
        fsc == 0x30 ==> fsc_name(fsc)@ == "TLB conflict abort"@,
        fsc != 0x10 && fsc != 0x21 && fsc != 0x30 ==> fsc_name(fsc)@ == "Reserved FSC"@,
{
}

// ── The pixels of the report ───────────────────────────────────────────────

proof fn lemma_cells_are_text(spans: Seq<SpanView>)
    ensures
        cells_of(spans).len() == line_text(spans).len(),
        forall|j: int|
            0 <= j < line_text(spans).len() ==> (#[trigger] cells_of(spans)[j]).0 == line_text(
                spans,
            )[j],
    decreases spans.len(),
{
    if spans.len() > 0 {
        lemma_cells_are_text(spans.drop_first());
        let rest = cells_of(spans.drop_first());
        let n = spans[0].text.len();
        assert forall|j: int| 0 <= j < line_text(spans).len() implies (#[trigger] cells_of(
            spans,
        )[j]).0 == line_text(spans)[j] by {
            if j >= n {
                assert(cells_of(spans)[j] == rest[j - n]);
            }
        }
    }
}

/// Pixel (dx, dy) of a character that is three times as large as its bitmap.
pub open spec fn large_pixel(font: Font, c: u8, color: u32, dx: int, dy: int) -> u32 {
    let bitmap = font@[if 0x20 <= c <= 0x7F {
        c - 0x20
    } else {
        0
    }]@;
    if is_set(bitmap[dy / 3], dx / 3) {
        color
    } else {
        0xFF1A_0000
    }
}

/// Every report can be read on a display of 1280 by 720 pixels: character `j` of line `i`
/// stands in a square of 24 by 24 pixels, `i` squares from the top and, behind the
/// line's indent, `j` squares from the left, in its colour on dark red.
pub proof fn lemma_report_pixels(
    g: Geometry,
    font: Font,
    esr: u64,
    elr: u64,
    far: u64,
    hpfar: u64,
    i: int,
    j: int,
    dx: int,
    dy: int,
)
    requires
        g.wf(),
        g.width == 1280,
        g.height == 720,
        0 <= i < report(esr, elr, far, hpfar).len(),
        0 <= j < line_text(report(esr, elr, far, hpfar)[i].spans).len(),
        0 <= dx < 24,
        0 <= dy < 24,
    ensures
        ({
            let line = report(esr, elr, far, hpfar)[i];
            let px = shown(g.area() as nat, g, font, report(esr, elr, far, hpfar));
            let x = 24 * (line.indent + j) + dx;
            let y = 24 * i + dy;
            x < 1280 && y < 720 ==> px[y * (g.pitch as int / 4) + x] == large_pixel(
                font,
                line_text(line.spans)[j],
                cells_of(line.spans)[j].1,
                dx,
                dy,
            )
        }),
{
    let lines = report(esr, elr, far, hpfar);
    let line = lines[i];
    let px = shown(g.area() as nat, g, font, lines);
    let col = line.indent + j;
    let x = 24 * col + dx;
    let y = 24 * i + dy;
    lemma_cells_are_text(line.spans);
    crate::hv_console::lemma_report_can_be_read(g, font, esr, elr, far, hpfar);
    let cell = cells_of(line.spans)[j];
    assert(row_shows(px, g, font, line.indent as int, i, cells_of(line.spans)));
    assert(cell_shows(px, g, font, col, i, cell.0, cell.1));
    if x < 1280 && y < 720 {
        assert(in_cell(g, col, i, 3, x, y));
        assert(px[y * g.stride() + x] == char_pixel(font, cell.0, col, i, 3, cell.1, 0xFF1A_0000, x, y));
        assert(8 * 3int * col == 24 * col && 8 * 3int * i == 24 * i);
        lemma_bitmap(font, cell.0, dx / 3, dy / 3);
    }
}

// ── The colours of the report ──────────────────────────────────────────────

/// Whole registers are green and fields of them orange.
pub open spec fn number_colours(line: LineView) -> bool {
    forall|k: int|
        0 <= k < line.spans.len() && !(#[trigger] line.spans[k]).wraps ==> line.spans[k].color
            == (if line.spans[k].text.len() == 16 {
            0xFF40_FF90u32
        } else {
            0xFFFF_AA00u32
        })
}

pub open spec fn all_number_colours(lines: Seq<LineView>) -> bool {
    forall|i: int| 0 <= i < lines.len() ==> number_colours(#[trigger] lines[i])
}

proof fn lemma_colours_of_both(a: Seq<LineView>, b: Seq<LineView>)
    requires
        all_number_colours(a),
        all_number_colours(b),
    ensures
        all_number_colours(a + b),
{
}

proof fn lemma_syndrome_colours(esr: u64)
    ensures
        all_number_colours(syndrome_lines(esr)),
        syndrome_lines(esr).len() == 5,
        syndrome_lines(esr)[0].spans[0].color == 0xFFFF_4040,
        syndrome_lines(esr)[2].spans[0].color == 0xFFE0_E0E0,
{
    lemma_hex_reads_back(esr as nat, 16, true);
    lemma_hex_reads_back(ec_of(esr) as nat, 2, true);
    lemma_hex_reads_back(iss_of(esr) as nat, 6, true);
    let a = syndrome_lines(esr);
    assert(number_colours(a[0]));
    assert(number_colours(a[1]));
    assert(number_colours(a[2]));
    assert(number_colours(a[3]));
    assert(number_colours(a[4]));
}

proof fn lemma_status_colours(esr: u64)
    ensures
        all_number_colours(status_lines(esr)),
{
    let fsc = (iss_of(esr) % 64) as u8;
    lemma_hex_reads_back(fsc as nat, 2, true);
    let b = status_lines(esr);
    if b.len() > 0 {
        assert(number_colours(b[0]));
    }
}

proof fn lemma_address_colours(elr: u64, far: u64, hpfar: u64)
    ensures
        all_number_colours(address_lines(elr, far, hpfar)),
{
    lemma_hex_reads_back(elr as nat, 16, true);
    lemma_hex_reads_back(far as nat, 16, true);
    lemma_hex_reads_back(hpfar as nat, 16, true);
    lemma_hex_reads_back(ipa_of(hpfar) as nat, 16, true);
    let c = address_lines(elr, far, hpfar);
    assert(number_colours(c[0]));
    assert(number_colours(c[1]));
    assert(number_colours(c[2]));
}

proof fn lemma_last_colours(hpfar: u64)
    ensures
        all_number_colours(hint_lines(hpfar)),
        all_number_colours(footer_lines()),
        footer_lines().len() == 3,
        footer_lines()[1].spans[0].color == 0xFFFF_FF44,
        footer_lines()[2].spans[0].color == 0xFFFF_FF44,
{
    let d = hint_lines(hpfar);
    if d.len() > 0 {
        assert(number_colours(d[0]));
    }
    let e = footer_lines();
    assert(number_colours(e[0]));
    assert(number_colours(e[1]));
    assert(number_colours(e[2]));
}

/// In a report, the digits of whole registers are green and those of fields orange, the
/// title is bright red and the last two lines are yellow; the names of registers are
/// light grey.
pub proof fn lemma_report_colours(esr: u64, elr: u64, far: u64, hpfar: u64)
    ensures
        ({
            let lines = report(esr, elr, far, hpfar);
            let n = lines.len();
            &&& all_number_colours(lines)
            &&& lines[0].spans[0].color == 0xFFFF_4040
            &&& lines[2].spans[0].color == 0xFFE0_E0E0
            &&& lines[n - 1].spans[0].color == 0xFFFF_FF44
            &&& lines[n - 2].spans[0].color == 0xFFFF_FF44
        }),
{
    let a = syndrome_lines(esr);
    let b = status_lines(esr);
    let c = address_lines(elr, far, hpfar);
    let d = hint_lines(hpfar);
    let e = footer_lines();
    lemma_syndrome_colours(esr);
    lemma_status_colours(esr);
    lemma_address_colours(elr, far, hpfar);
    lemma_last_colours(hpfar);
    lemma_colours_of_both(a, b);
    lemma_colours_of_both(a + b, c);
    lemma_colours_of_both(a + b + c, d);
    lemma_colours_of_both(a + b + c + d, e);
    lemma_ends(a, b + c + d, e);
    assert(a + (b + c + d) + e =~= a + b + c + d + e);
}

/// The first and the last lines of lines put together.
proof fn lemma_ends(a: Seq<LineView>, m: Seq<LineView>, e: Seq<LineView>)
    requires
        a.len() >= 3,
        e.len() >= 2,
    ensures
        ({
            let all = a + m + e;
            &&& all[0] == a[0] && all[2] == a[2]
            &&& all[all.len() - 1] == e[e.len() - 1] && all[all.len() - 2] == e[e.len() - 2]
        }),
{
}

} // verus!
