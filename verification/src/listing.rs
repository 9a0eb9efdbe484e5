//! The text written out for decoded code: one instruction at a time, or every section
//! of a file with the address of each instruction.
use crate::cli::OutputFormat;
use crate::decoder::{resp_views, ParseResponse, ParseResponseView};
use crate::executable::{Executable, ExecutableView, SectionView};
use crate::format::{base_of, response_text, CustomFormat, InstructionFormatting, NumFormat};
use crate::text::{chars_of, digits, digits_of, hex_byte, hex_byte_of, push_chars, push_str, string_of};
use vstd::prelude::*;

verus! {

/// One byte of code as the `code_fmt` option asks: two upper-case hexadecimal digits, or
/// the digits in the base of the format.
pub open spec fn code_byte(fmt: NumFormat, b: u8) -> Seq<char> {
    match fmt {
        NumFormat::Hex => hex_byte(b),
        _ => digits(b as nat, base_of(fmt), true),
    }
}

/// Bytes of code as the `code_fmt` option asks, each followed by a space.
pub open spec fn code_text(fmt: NumFormat, b: Seq<u8>) -> Seq<char>
    decreases b.len(),
{
    if b.len() == 0 {
        Seq::empty()
    } else {
        code_text(fmt, b.drop_last()) + code_byte(fmt, b.last()) + seq![' ']
    }
}

/// The line of bytes written for a response: its bytes in the format for opcode bytes,
/// or `Failed to parse` where there are none.
pub open spec fn bytes_line(r: ParseResponseView, opts: &InstructionFormatting) -> Seq<char> {
    match r.bytes {
        None => "Failed to parse"@,
        Some(b) => code_text(opts.code_fmt, b),
    }
}

/// The line of bytes written for a response (see `bytes_line`).
fn bytes_line_of(r: &ParseResponse, opts: &InstructionFormatting) -> (s: String)
    ensures
        s@ == match r.bytes {
            None => "Failed to parse"@,
            Some(b) => code_text(opts.code_fmt, b@),
        },
{
    match &r.bytes {
        None => String::from_str("Failed to parse"),
        Some(b) => {
            let base: u64 = match opts.code_fmt {
                NumFormat::Hex => 16,
                NumFormat::Dec => 10,
                NumFormat::Bi => 2,
                NumFormat::Oct => 8,
            };
            let mut out: Vec<char> = Vec::new();
            let mut i: usize = 0;
            while i < b.len()
                invariant
                    i <= b@.len(),
                    base == base_of(opts.code_fmt),
                    out@ == code_text(opts.code_fmt, b@.take(i as int)),
                decreases b.len() - i,
            {
                assert(b@.take(i + 1).drop_last() == b@.take(i as int));
                assert(b@.take(i + 1).last() == b@[i as int]);
                let h = match opts.code_fmt {
                    NumFormat::Hex => hex_byte_of(b[i]),
                    _ => digits_of(b[i] as u64, base, true),
                };
                push_chars(&mut out, &h);
                out.push(' ');
                i = i + 1;
            }
            assert(b@.take(b@.len() as int) == b@);
            string_of(out.as_slice())
        },
    }
}

/// What is written for one response: its text on a line, after a line of its bytes where
/// they are asked for; nothing for JSON, which is written for a whole file at once.
pub open spec fn one_text(r: ParseResponseView, format: OutputFormat, opts: &InstructionFormatting) -> Option<
    Seq<char>,
> {
    match format {
        OutputFormat::JSON => None,
        OutputFormat::PrettyPrint => Some(response_text(opts, r).unwrap() + seq!['\n']),
        OutputFormat::PlusBytes => Some(
            bytes_line(r, opts) + seq!['\n'] + response_text(opts, r).unwrap() + seq!['\n'],
        ),
    }
}

/// The number of bytes a response covers.
pub open spec fn covered(r: ParseResponseView) -> nat {
    match r.bytes {
        Some(b) => b.len(),
        None => 0,
    }
}

/// Every response can be written, and every address counted from `addr` onwards (after
/// `vaddr` bytes), up to the end of the last response, fits in 64 bits.
pub open spec fn fits(rs: Seq<ParseResponseView>, addr: u64, vaddr: int, opts: &InstructionFormatting) -> bool
    decreases rs.len(),
{
    rs.len() == 0 || {
        &&& response_text(opts, rs[0]) is Some
        &&& addr + vaddr <= u64::MAX
        &&& vaddr + covered(rs[0]) <= u64::MAX
        &&& fits(rs.drop_first(), addr, vaddr + covered(rs[0]), opts)
    }
}

/// The responses of a section, each on a line after its address in upper-case
/// hexadecimal and a tab.
pub open spec fn addressed_lines(rs: Seq<ParseResponseView>, addr: u64, vaddr: int, opts: &InstructionFormatting) -> Seq<char>
    decreases rs.len(),
{
    if rs.len() == 0 {
        Seq::empty()
    } else {
        "0x"@ + digits((addr + vaddr) as nat, 16, true) + seq!['\t'] + response_text(opts, rs[0]).unwrap()
            + seq!['\n'] + addressed_lines(rs.drop_first(), addr, vaddr + covered(rs[0]), opts)
    }
}

/// The bytes of a response; none where it has none.
pub open spec fn bytes_of(r: ParseResponseView) -> Seq<u8> {
    match r.bytes {
        Some(b) => b,
        None => Seq::empty(),
    }
}

/// The bytes of the responses, one after another.
pub open spec fn all_bytes(rs: Seq<ParseResponseView>) -> Seq<u8>
    decreases rs.len(),
{
    if rs.len() == 0 {
        Seq::empty()
    } else {
        bytes_of(rs[0]) + all_bytes(rs.drop_first())
    }
}

/// The line written for one response at address `addr + vaddr`.
pub open spec fn addressed_line(r: ParseResponseView, addr: u64, vaddr: int, opts: &InstructionFormatting) -> Seq<char> {
    "0x"@ + digits((addr + vaddr) as nat, 16, true) + seq!['\t'] + response_text(opts, r).unwrap()
        + seq!['\n']
}

/// Listing responses one after another: the responses that follow others are listed from
/// the address after all the bytes of those before them.
pub proof fn lemma_listing_split(
    rs1: Seq<ParseResponseView>,
    rs2: Seq<ParseResponseView>,
    addr: u64,
    vaddr: int,
    opts: &InstructionFormatting,
)
    ensures
        addressed_lines(rs1 + rs2, addr, vaddr, opts) == addressed_lines(rs1, addr, vaddr, opts)
            + addressed_lines(rs2, addr, vaddr + all_bytes(rs1).len(), opts),
    decreases rs1.len(),
{
    if rs1.len() == 0 {
        assert(rs1 + rs2 =~= rs2);
        assert(Seq::<char>::empty() + addressed_lines(rs2, addr, vaddr, opts) =~= addressed_lines(
            rs2,
            addr,
            vaddr,
            opts,
        ));
    } else {
        let r = rs1[0];
        assert((rs1 + rs2)[0] == r);
        assert((rs1 + rs2).drop_first() =~= rs1.drop_first() + rs2);
        assert(covered(r) == bytes_of(r).len());
        lemma_listing_split(rs1.drop_first(), rs2, addr, vaddr + covered(r), opts);
        let line = addressed_line(r, addr, vaddr, opts);
        assert(line + addressed_lines(rs1.drop_first(), addr, vaddr + covered(r), opts)
            + addressed_lines(rs2, addr, vaddr + covered(r) + all_bytes(rs1.drop_first()).len(), opts)
            =~= line + (addressed_lines(rs1.drop_first(), addr, vaddr + covered(r), opts)
            + addressed_lines(rs2, addr, vaddr + covered(r) + all_bytes(rs1.drop_first()).len(), opts)));
    }
}

/// In a section's listing, the line of the `k`-th response carries the section's address
/// plus the number of bytes of the responses before it.
pub proof fn lemma_listing_address(rs: Seq<ParseResponseView>, addr: u64, k: int, opts: &InstructionFormatting)
    requires
        0 <= k < rs.len(),
    ensures
        addressed_lines(rs, addr, 0, opts) == addressed_lines(rs.take(k), addr, 0, opts)
            + addressed_line(rs[k], addr, all_bytes(rs.take(k)).len() as int, opts)
            + addressed_lines(rs.skip(k + 1), addr, all_bytes(rs.take(k + 1)).len() as int, opts),
{
    let v = all_bytes(rs.take(k)).len() as int;
    assert(rs =~= rs.take(k) + rs.skip(k));
    lemma_listing_split(rs.take(k), rs.skip(k), addr, 0, opts);
    let tail = rs.skip(k);
    assert(tail[0] == rs[k]);
    assert(tail.drop_first() =~= rs.skip(k + 1));
    assert(covered(rs[k]) == bytes_of(rs[k]).len());
    assert(rs.take(k + 1) =~= rs.take(k) + seq![rs[k]]);
    lemma_all_bytes_split(rs.take(k), seq![rs[k]]);
    assert(all_bytes(seq![rs[k]]) =~= bytes_of(rs[k])) by {
        assert(seq![rs[k]].drop_first() =~= Seq::<ParseResponseView>::empty());
        assert(seq![rs[k]][0] == rs[k]);
        assert(all_bytes(Seq::<ParseResponseView>::empty()) == Seq::<u8>::empty());
        assert(bytes_of(rs[k]) + Seq::<u8>::empty() =~= bytes_of(rs[k]));
    }
}

proof fn lemma_all_bytes_split(rs1: Seq<ParseResponseView>, rs2: Seq<ParseResponseView>)
    ensures
        all_bytes(rs1 + rs2) == all_bytes(rs1) + all_bytes(rs2),
    decreases rs1.len(),
{
    if rs1.len() == 0 {
        assert(rs1 + rs2 =~= rs2);
        assert(all_bytes(rs1) + all_bytes(rs2) =~= all_bytes(rs2));
    } else {
        assert((rs1 + rs2)[0] == rs1[0]);
        assert((rs1 + rs2).drop_first() =~= rs1.drop_first() + rs2);
        lemma_all_bytes_split(rs1.drop_first(), rs2);
        assert(bytes_of(rs1[0]) + (all_bytes(rs1.drop_first()) + all_bytes(rs2)) =~= bytes_of(
            rs1[0],
        ) + all_bytes(rs1.drop_first()) + all_bytes(rs2));
    }
}

/// The responses of a section with their bytes, each response as `one_text` writes it.
pub open spec fn byte_lines(rs: Seq<ParseResponseView>, opts: &InstructionFormatting) -> Seq<char>
    decreases rs.len(),
{
    if rs.len() == 0 {
        Seq::empty()
    } else {
        bytes_line(rs[0], opts) + seq!['\n'] + response_text(opts, rs[0]).unwrap() + seq!['\n']
            + byte_lines(rs.drop_first(), opts)
    }
}

/// What is written for one section, followed by an empty line.
pub open spec fn section_text(s: SectionView, format: OutputFormat, opts: &InstructionFormatting) -> Seq<char> {
    match format {
        OutputFormat::PlusBytes => s.name + seq!['\n'] + byte_lines(s.disassembled, opts) + seq!['\n'],
        _ => "section "@ + s.name + seq!['\n'] + addressed_lines(s.disassembled, s.addr, 0, opts)
            + seq!['\n'],
    }
}

/// The text of every section of a file, in order.
pub open spec fn sections_text(ss: Seq<SectionView>, format: OutputFormat, opts: &InstructionFormatting) -> Seq<char>
    decreases ss.len(),
{
    if ss.len() == 0 {
        Seq::empty()
    } else {
        section_text(ss[0], format, opts) + sections_text(ss.drop_first(), format, opts)
    }
}

/// Every section of the file can be listed: see `fits`.
pub open spec fn listable(e: ExecutableView, opts: &InstructionFormatting) -> bool {
    forall|i: int| 0 <= i < e.code.len() ==> fits(#[trigger] e.code[i].disassembled, e.code[i].addr, 0, opts)
}

/// What is written for a file in a text format; nothing for JSON.
pub open spec fn listing_text(e: ExecutableView, format: OutputFormat, opts: &InstructionFormatting) -> Option<Seq<char>> {
    match format {
        OutputFormat::JSON => None,
        _ => Some(sections_text(e.code, format, opts)),
    }
}

/// The text written for one response (see `one_text`).
pub fn output_one(response: &ParseResponse, format: OutputFormat, opts: &InstructionFormatting) -> (r: Option<String>)
    requires
        response_text(opts, response@) is Some,
    ensures
        match r {
            Some(t) => one_text(response@, format, opts) == Some(t@),
            None => one_text(response@, format, opts) is None,
        },
{
    match format {
        OutputFormat::JSON => None,
        OutputFormat::PrettyPrint => {
            let t = response.custom_format(opts);
            let mut out = chars_of(t.as_str());
            out.push('\n');
            Some(string_of(out.as_slice()))
        },
        OutputFormat::PlusBytes => {
            let b = bytes_line_of(response, opts);
            let t = response.custom_format(opts);
            let mut out = chars_of(b.as_str());
            out.push('\n');
            push_str(&mut out, t.as_str());
            out.push('\n');
            Some(string_of(out.as_slice()))
        },
    }
}

/// The number of bytes a response covers.
fn covered_of(r: &ParseResponse) -> (n: usize)
    ensures
        n == covered(r@),
{
    match &r.bytes {
        Some(b) => b.len(),
        None => 0,
    }
}

/// Whether every response can be written and every address fits (see `fits`).
fn fits_exec(rs: &Vec<ParseResponse>, addr: u64, opts: &InstructionFormatting) -> (r: bool)
    ensures
        r == fits(resp_views(rs@), addr, 0, opts),
{
    let ghost views = resp_views(rs@);
    let mut vaddr: u64 = 0;
    let mut i: usize = 0;
    assert(views.skip(0) == views);
    while i < rs.len()
        invariant
            i <= rs@.len(),
            views == resp_views(rs@),
            fits(views, addr, 0, opts) == fits(views.skip(i as int), addr, vaddr as int, opts),
        decreases rs.len() - i,
    {
        let ghost rest = views.skip(i as int);
        assert(rest[0] == rs@[i as int]@);
        assert(rest.drop_first() == views.skip(i + 1));
        let n = covered_of(&rs[i]);
        if !rs[i].can_format(opts) || addr > u64::MAX - vaddr || vaddr > u64::MAX - n as u64 {
            return false;
        }
        vaddr = vaddr + n as u64;
        i = i + 1;
    }
    assert(views.skip(i as int).len() == 0);
    true
}

/// Whether every section of the file can be listed (see `listable`).
pub fn can_list(exe: &Executable, opts: &InstructionFormatting) -> (r: bool)
    ensures
        r == listable(exe@, opts),
{
    let mut i: usize = 0;
    while i < exe.code.len()
        invariant
            i <= exe.code@.len(),
            forall|k: int|
                0 <= k < i ==> fits(#[trigger] exe@.code[k].disassembled, exe@.code[k].addr, 0, opts),
        decreases exe.code.len() - i,
    {
        assert(exe@.code[i as int] == exe.code@[i as int]@);
        if !fits_exec(&exe.code[i].disassembled, exe.code[i].addr, opts) {
            assert(!fits(exe@.code[i as int].disassembled, exe@.code[i as int].addr, 0, opts));
            return false;
        }
        i = i + 1;
    }
    true
}

fn section_out(
    out: &mut Vec<char>,
    name: &String,
    rs: &Vec<ParseResponse>,
    addr: u64,
    format: OutputFormat,
    opts: &InstructionFormatting,
)
    requires
        format != OutputFormat::JSON,
        fits(resp_views(rs@), addr, 0, opts),
    ensures
        final(out)@ == old(out)@ + section_text(
            SectionView {
                name: name@,
                offset: 0,
                size: 0,
                addr,
                disassembled: resp_views(rs@),
            },
            format,
            opts,
        ),
{
    let ghost views = resp_views(rs@);
    let ghost start = old(out)@;
    let plus = format == OutputFormat::PlusBytes;
    if !plus {
        push_str(out, "section ");
    }
    push_str(out, name.as_str());
    out.push('\n');
    let ghost head = out@;
    let mut vaddr: u64 = 0;
    let mut i: usize = 0;
    assert(views.skip(0) == views);
    while i < rs.len()
        invariant
            i <= rs@.len(),
            views == resp_views(rs@),
            plus == (format == OutputFormat::PlusBytes),
            fits(views.skip(i as int), addr, vaddr as int, opts),
            plus ==> head + byte_lines(views, opts) == out@ + byte_lines(views.skip(i as int), opts),
            !plus ==> head + addressed_lines(views, addr, 0, opts) == out@ + addressed_lines(
                views.skip(i as int),
                addr,
                vaddr as int,
                opts,
            ),
        decreases rs.len() - i,
    {
        let ghost rest = views.skip(i as int);
        let ghost before = out@;
        assert(rest[0] == rs@[i as int]@);
        assert(rest.drop_first() == views.skip(i + 1));
        let t = rs[i].custom_format(opts);
        if plus {
            let b = bytes_line_of(&rs[i], opts);
            push_str(out, b.as_str());
            out.push('\n');
            push_str(out, t.as_str());
            out.push('\n');
            assert(out@ + byte_lines(views.skip(i + 1), opts) =~= before + byte_lines(rest, opts));
        } else {
            push_str(out, "0x");
            let h = digits_of(addr + vaddr, 16, true);
            let mut k: usize = 0;
            let ghost mid = out@;
            while k < h.len()
                invariant
                    k <= h@.len(),
                    out@ == mid + h@.take(k as int),
                decreases h.len() - k,
            {
                out.push(h[k]);
                assert(h@.take(k + 1) == h@.take(k as int).push(h@[k as int]));
                k = k + 1;
            }
            assert(h@.take(h@.len() as int) == h@);
            out.push('\t');
            push_str(out, t.as_str());
            out.push('\n');
            assert(out@ + addressed_lines(views.skip(i + 1), addr, vaddr + covered(rest[0]), opts)
                =~= before + addressed_lines(rest, addr, vaddr as int, opts));
        }
        vaddr = vaddr + covered_of(&rs[i]) as u64;
        i = i + 1;
    }
    assert(views.skip(i as int) =~= Seq::<ParseResponseView>::empty());
    out.push('\n');
    proof {
        if plus {
            assert(out@ =~= start + (name@ + seq!['\n'] + byte_lines(views, opts) + seq!['\n']));
        } else {
            assert(out@ =~= start + ("section "@ + name@ + seq!['\n'] + addressed_lines(views, addr, 0, opts) + seq!['\n']));
        }
    }
}

/// What is written for a file in a text format (see `listing_text`).
pub fn output_parsed(exe: &Executable, format: OutputFormat, opts: &InstructionFormatting) -> (r: Option<String>)
    requires
        listable(exe@, opts),
    ensures
        match r {
            Some(t) => listing_text(exe@, format, opts) == Some(t@),
            None => listing_text(exe@, format, opts) is None,
        },
{
    if format == OutputFormat::JSON {
        return None;
    }
    let ghost ss = exe@.code;
    let mut out: Vec<char> = Vec::new();
    let mut i: usize = 0;
    assert(ss.skip(0) == ss);
    while i < exe.code.len()
        invariant
            i <= exe.code@.len(),
            ss == exe@.code,
            format != OutputFormat::JSON,
            listable(exe@, opts),
            sections_text(ss, format, opts) == out@ + sections_text(ss.skip(i as int), format, opts),
        decreases exe.code.len() - i,
    {
        let ghost before = out@;
        let ghost rest = ss.skip(i as int);
        assert(rest[0] == exe.code@[i as int]@);
        assert(rest.drop_first() == ss.skip(i + 1));
        let sec = &exe.code[i];
        assert(fits(ss[i as int].disassembled, ss[i as int].addr, 0, opts));
        section_out(&mut out, &sec.name, &sec.disassembled, sec.addr, format, opts);
        assert(section_text(
            SectionView { name: sec.name@, offset: 0, size: 0, addr: sec.addr, disassembled: resp_views(sec.disassembled@) },
            format,
            opts,
        ) == section_text(rest[0], format, opts));
        assert(out@ + sections_text(ss.skip(i + 1), format, opts) =~= before + sections_text(rest, format, opts));
        i = i + 1;
    }
    assert(ss.skip(i as int) =~= Seq::<SectionView>::empty());
    assert(out@ + Seq::<char>::empty() == out@);
    Some(string_of(out.as_slice()))
}

} // verus!
