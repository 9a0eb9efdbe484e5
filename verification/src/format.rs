//! How decoded instructions are written as text.
use crate::decoder::{op_views, opt_ops, Address, Bespoke, Immediate, Operand, OperandView, ParseResponse, ParseResponseView, Register, SIBScale};
use crate::instruction_tree::{OperandSize, RegisterType};
use crate::text::{begins, chars_of, digits, digits_of, ends_with, hex_byte, hex_byte_of, lowercase, push_chars, push_str, split, split_chars, starts_with, string_of, to_lowercase};
use std::collections::HashMap;
use vstd::prelude::*;

verus! {

/// The base in which numbers are written.
#[derive(Clone, Copy, Debug, PartialEq, Eq, Structural)]
pub enum NumFormat {
    Hex,
    Dec,
    Bi,
    Oct,
}

/// Options for writing instructions as text. The defaults produce NASM-style assembly.
#[derive(Debug)]
pub struct InstructionFormatting {
    pub reg_uppercase: bool,
    pub imm_uppercase: bool,
    pub addr_open: String,
    pub addr_close: String,
    pub addr_add: String,
    pub addr_mul: String,
    pub addr_scale_two: String,
    pub addr_scale_four: String,
    pub addr_scale_eight: String,
    pub addr_seg_seperator: String,
    pub addr_prefix: String,
    pub addr_byte: String,
    pub addr_word: String,
    pub addr_dword: String,
    pub addr_qword: String,
    pub addr_tword: String,
    pub addr_oword: String,
    pub addr_yword: String,
    pub addr_zword: String,
    pub imm_prefix: String,
    pub imm_suffix: String,
    pub imm_fmt: NumFormat,
    pub ins_uppercase: bool,
    pub prefixes: HashMap<u8, String>,
    pub code_fmt: NumFormat,
    pub mm_base: String,
    pub k_base: String,
    pub bnd_base: String,
    pub fpu_base: String,
    pub ctrl_base: String,
    pub dbg_base: String,
    pub rex_gp_set: Vec<String>,
    pub gp_set: Vec<String>,
    pub seg_set: Vec<String>,
    pub comment: String,
    pub section: String,
}

/// The texts of a sequence of strings.
pub open spec fn names(v: Seq<String>) -> Seq<Seq<char>> {
    v.map_values(|s: String| s@)
}

/// The texts of a map of strings.
pub open spec fn name_map(m: Map<u8, String>) -> Map<u8, Seq<char>> {
    m.map_values(|s: String| s@)
}

/// The default names of the byte registers without REX, in encoding order.
pub open spec fn default_gp_names() -> Seq<Seq<char>> {
    seq!["AL"@, "CL"@, "DL"@, "BL"@, "AH"@, "CH"@, "DH"@, "BH"@]
}

/// The default base names of the general-purpose registers with REX.
pub open spec fn default_rex_gp_names() -> Seq<Seq<char>> {
    seq![
        "A"@, "C"@, "D"@, "B"@, "SP"@, "BP"@, "SI"@, "DI"@, "R8"@, "R9"@, "R10"@, "R11"@,
        "R12"@, "R13"@, "R14"@, "R15"@,
    ]
}

/// The default names of the segment registers.
pub open spec fn default_seg_names() -> Seq<Seq<char>> {
    seq!["ES"@, "CS"@, "SS"@, "DS"@, "FS"@, "GS"@]
}

/// The default texts of the prefixes: LOCK, REPNE and REP.
pub open spec fn default_prefix_names() -> Map<u8, Seq<char>> {
    map![0xF0u8 => "LOCK "@, 0xF2u8 => "REPNE "@, 0xF3u8 => "REP "@]
}

fn strings_of(items: &[&str]) -> (r: Vec<String>)
    ensures
        r@.len() == items@.len(),
        forall|i: int| 0 <= i < items@.len() ==> (#[trigger] r@[i])@ == items@[i]@,
{
    let mut v: Vec<String> = Vec::new();
    let mut i: usize = 0;
    while i < items.len()
        invariant
            i <= items@.len(),
            v@.len() == i,
            forall|j: int| 0 <= j < i ==> (#[trigger] v@[j])@ == items@[j]@,
        decreases items.len() - i,
    {
        v.push(String::from_str(items[i]));
        i = i + 1;
    }
    v
}

impl Default for InstructionFormatting {
    /// NASM-style formatting.
    fn default() -> (r: Self)
        ensures
            r.reg_uppercase,
            r.imm_uppercase,
            r.addr_open@ == "["@,
            r.addr_close@ == "]"@,
            r.addr_add@ == "+"@,
            r.addr_mul@ == "*"@,
            r.addr_scale_two@ == "2"@,
            r.addr_scale_four@ == "4"@,
            r.addr_scale_eight@ == "8"@,
            r.addr_seg_seperator@ == ":"@,
            r.addr_prefix@ == ""@,
            r.addr_byte@ == "byte "@,
            r.addr_word@ == "word "@,
            r.addr_dword@ == "dword "@,
            r.addr_qword@ == "qword "@,
            r.addr_tword@ == "tword "@,
            r.addr_oword@ == "oword "@,
            r.addr_yword@ == "yword "@,
            r.addr_zword@ == "zword "@,
            r.imm_prefix@ == "0x"@,
            r.imm_suffix@ == ""@,
            r.imm_fmt == NumFormat::Hex,
            r.ins_uppercase,
            name_map(r.prefixes@) == default_prefix_names(),
            r.code_fmt == NumFormat::Hex,
            r.mm_base@ == "MM"@,
            r.k_base@ == "K"@,
            r.bnd_base@ == "BND"@,
            r.fpu_base@ == "ST"@,
            r.ctrl_base@ == "CR"@,
            r.dbg_base@ == "DR"@,
            names(r.gp_set@) == default_gp_names(),
            names(r.rex_gp_set@) == default_rex_gp_names(),
            names(r.seg_set@) == default_seg_names(),
            r.comment@ == ";"@,
            r.section@ == "section "@,
    {
        let mut prefixes: HashMap<u8, String> = HashMap::new();
        prefixes.insert(0xF0, String::from_str("LOCK "));
        prefixes.insert(0xF2, String::from_str("REPNE "));
        prefixes.insert(0xF3, String::from_str("REP "));
        assert(name_map(prefixes@) =~= default_prefix_names());
        let gp_set = strings_of(&["AL", "CL", "DL", "BL", "AH", "CH", "DH", "BH"]);
        let rex_gp_set = strings_of(
            &[
                "A", "C", "D", "B", "SP", "BP", "SI", "DI", "R8", "R9", "R10", "R11", "R12", "R13",
                "R14", "R15",
            ],
        );
        let seg_set = strings_of(&["ES", "CS", "SS", "DS", "FS", "GS"]);
        assert(names(gp_set@) =~= default_gp_names());
        assert(names(rex_gp_set@) =~= default_rex_gp_names());
        assert(names(seg_set@) =~= default_seg_names());
        InstructionFormatting {
            reg_uppercase: true,
            imm_uppercase: true,
            addr_open: String::from_str("["),
            addr_close: String::from_str("]"),
            addr_add: String::from_str("+"),
            addr_mul: String::from_str("*"),
            addr_scale_two: String::from_str("2"),
            addr_scale_four: String::from_str("4"),
            addr_scale_eight: String::from_str("8"),
            addr_seg_seperator: String::from_str(":"),
            addr_prefix: String::from_str(""),
            addr_byte: String::from_str("byte "),
            addr_word: String::from_str("word "),
            addr_dword: String::from_str("dword "),
            addr_qword: String::from_str("qword "),
            addr_tword: String::from_str("tword "),
            addr_oword: String::from_str("oword "),
            addr_yword: String::from_str("yword "),
            addr_zword: String::from_str("zword "),
            imm_prefix: String::from_str("0x"),
            imm_suffix: String::from_str(""),
            imm_fmt: NumFormat::Hex,
            ins_uppercase: true,
            prefixes,
            code_fmt: NumFormat::Hex,
            mm_base: String::from_str("MM"),
            k_base: String::from_str("K"),
            bnd_base: String::from_str("BND"),
            fpu_base: String::from_str("ST"),
            ctrl_base: String::from_str("CR"),
            dbg_base: String::from_str("DR"),
            rex_gp_set,
            gp_set,
            seg_set,
            comment: String::from_str(";"),
            section: String::from_str("section "),
        }
    }
}

/// Two formattings write everything alike: every field holds the same value.
pub open spec fn same_formatting(a: &InstructionFormatting, b: &InstructionFormatting) -> bool {
    &&& a.reg_uppercase == b.reg_uppercase
    &&& a.imm_uppercase == b.imm_uppercase
    &&& a.addr_open == b.addr_open
    &&& a.addr_close == b.addr_close
    &&& a.addr_add == b.addr_add
    &&& a.addr_mul == b.addr_mul
    &&& a.addr_scale_two == b.addr_scale_two
    &&& a.addr_scale_four == b.addr_scale_four
    &&& a.addr_scale_eight == b.addr_scale_eight
    &&& a.addr_seg_seperator == b.addr_seg_seperator
    &&& a.addr_prefix == b.addr_prefix
    &&& a.addr_byte == b.addr_byte
    &&& a.addr_word == b.addr_word
    &&& a.addr_dword == b.addr_dword
    &&& a.addr_qword == b.addr_qword
    &&& a.addr_tword == b.addr_tword
    &&& a.addr_oword == b.addr_oword
    &&& a.addr_yword == b.addr_yword
    &&& a.addr_zword == b.addr_zword
    &&& a.imm_prefix == b.imm_prefix
    &&& a.imm_suffix == b.imm_suffix
    &&& a.imm_fmt == b.imm_fmt
    &&& a.ins_uppercase == b.ins_uppercase
    &&& a.prefixes@ == b.prefixes@
    &&& a.code_fmt == b.code_fmt
    &&& a.mm_base == b.mm_base
    &&& a.k_base == b.k_base
    &&& a.bnd_base == b.bnd_base
    &&& a.fpu_base == b.fpu_base
    &&& a.ctrl_base == b.ctrl_base
    &&& a.dbg_base == b.dbg_base
    &&& a.rex_gp_set@ == b.rex_gp_set@
    &&& a.gp_set@ == b.gp_set@
    &&& a.seg_set@ == b.seg_set@
    &&& a.comment == b.comment
    &&& a.section == b.section
}

fn clone_strings(v: &Vec<String>) -> (r: Vec<String>)
    ensures
        r@ == v@,
{
    let c = v.clone();
    assert(c@ =~= v@);
    c
}

impl Clone for InstructionFormatting {
    fn clone(&self) -> (r: Self)
        ensures
            same_formatting(&r, self),
    {
        InstructionFormatting {
            reg_uppercase: self.reg_uppercase,
            imm_uppercase: self.imm_uppercase,
            addr_open: self.addr_open.clone(),
            addr_close: self.addr_close.clone(),
            addr_add: self.addr_add.clone(),
            addr_mul: self.addr_mul.clone(),
            addr_scale_two: self.addr_scale_two.clone(),
            addr_scale_four: self.addr_scale_four.clone(),
            addr_scale_eight: self.addr_scale_eight.clone(),
            addr_seg_seperator: self.addr_seg_seperator.clone(),
            addr_prefix: self.addr_prefix.clone(),
            addr_byte: self.addr_byte.clone(),
            addr_word: self.addr_word.clone(),
            addr_dword: self.addr_dword.clone(),
            addr_qword: self.addr_qword.clone(),
            addr_tword: self.addr_tword.clone(),
            addr_oword: self.addr_oword.clone(),
            addr_yword: self.addr_yword.clone(),
            addr_zword: self.addr_zword.clone(),
            imm_prefix: self.imm_prefix.clone(),
            imm_suffix: self.imm_suffix.clone(),
            imm_fmt: self.imm_fmt,
            ins_uppercase: self.ins_uppercase,
            prefixes: self.prefixes.clone(),
            code_fmt: self.code_fmt,
            mm_base: self.mm_base.clone(),
            k_base: self.k_base.clone(),
            bnd_base: self.bnd_base.clone(),
            fpu_base: self.fpu_base.clone(),
            ctrl_base: self.ctrl_base.clone(),
            dbg_base: self.dbg_base.clone(),
            rex_gp_set: clone_strings(&self.rex_gp_set),
            gp_set: clone_strings(&self.gp_set),
            seg_set: clone_strings(&self.seg_set),
            comment: self.comment.clone(),
            section: self.section.clone(),
        }
    }
}

// ---------------------------------------------------------------------------
// Registers
// ---------------------------------------------------------------------------

/// The string is one byte long in UTF-8: a single ASCII character.
pub open spec fn one_byte(s: Seq<char>) -> bool {
    s.len() == 1 && (s[0] as u32) < 128
}

/// A number in decimal.
pub open spec fn decimal(n: nat) -> Seq<char> {
    digits(n, 10, false)
}

/// The name of a general-purpose register: the base name from the set for its size,
/// with the prefix and suffix that the size adds; `None` for a size that no such register has.
/// A byte register without REX is named by the byte set as it stands (`AL` ... `BH`); with
/// REX it is the low byte of the register: `R8B` ... `R15B`, or `L` after the base name
/// (`AL`, `SPL`).
pub open spec fn gp_name(f: &InstructionFormatting, index: usize, size: OperandSize, rex: bool) -> Option<Seq<char>> {
    let set = if size != OperandSize::Byte || rex {
        f.rex_gp_set@
    } else {
        f.gp_set@
    };
    if index >= set.len() {
        None
    } else {
        let r = set[index as int]@;
        let numbered = starts_with(r, "R"@);
        match size {
            OperandSize::Quad => Some(
                if numbered {
                    r
                } else if one_byte(r) {
                    seq!['R'] + r + seq!['X']
                } else {
                    seq!['R'] + r
                },
            ),
            OperandSize::Double => Some(
                if numbered {
                    r + seq!['D']
                } else if one_byte(r) {
                    seq!['E'] + r + seq!['X']
                } else {
                    seq!['E'] + r
                },
            ),
            OperandSize::Word => Some(
                if numbered {
                    r + seq!['W']
                } else if one_byte(r) {
                    r + seq!['X']
                } else {
                    r
                },
            ),
            OperandSize::Byte => Some(
                if !rex {
                    r
                } else if numbered {
                    r + seq!['B']
                } else {
                    r + seq!['L']
                },
            ),
            _ => None,
        }
    }
}

/// The name of a register before case is applied; `None` where the register cannot be
/// named (a size or index that the kind does not have).
pub open spec fn reg_name(
    f: &InstructionFormatting,
    index: usize,
    size: OperandSize,
    group: RegisterType,
    rex: bool,
) -> Option<Seq<char>> {
    match group {
        RegisterType::GPReg => gp_name(f, index, size, rex),
        RegisterType::MMXReg => match size {
            OperandSize::DoubleQuadQuad => Some(seq!['Z'] + f.mm_base@ + decimal(index as nat)),
            OperandSize::QuadQuad => Some(seq!['Y'] + f.mm_base@ + decimal(index as nat)),
            OperandSize::DoubleQuad => Some(seq!['X'] + f.mm_base@ + decimal(index as nat)),
            OperandSize::Quad => Some(f.mm_base@ + decimal(index as nat)),
            _ => None,
        },
        RegisterType::KReg => Some(f.k_base@ + decimal(index as nat)),
        RegisterType::BoundReg => if index < 4 {
            Some(f.bnd_base@ + decimal(index as nat))
        } else {
            None
        },
        RegisterType::SegReg => {
            let j = if index > 5 {
                index & 3
            } else {
                index & 7
            };
            if j < f.seg_set@.len() {
                Some(f.seg_set@[j as int]@)
            } else {
                None
            }
        },
        RegisterType::FPUReg => Some(f.fpu_base@ + decimal(index as nat)),
        RegisterType::CtrlReg => Some(
            f.ctrl_base@ + if rex {
                "8"@
            } else {
                decimal(index as nat)
            },
        ),
        RegisterType::DbgReg => Some(f.dbg_base@ + decimal(index as nat)),
    }
}

/// The name of a register as written, in lower case unless upper case is asked for.
pub open spec fn reg_text(
    f: &InstructionFormatting,
    index: usize,
    size: OperandSize,
    group: RegisterType,
    rex: bool,
) -> Option<Seq<char>> {
    match reg_name(f, index, size, group, rex) {
        Some(t) => Some(
            if f.reg_uppercase {
                t
            } else {
                lowercase(t)
            },
        ),
        None => None,
    }
}

// ---------------------------------------------------------------------------
// Numbers, sizes and addresses
// ---------------------------------------------------------------------------

/// The base that a number format writes in.
pub open spec fn base_of(n: NumFormat) -> nat {
    match n {
        NumFormat::Hex => 16,
        NumFormat::Dec => 10,
        NumFormat::Bi => 2,
        NumFormat::Oct => 8,
    }
}

/// An immediate as written: prefix, digits (letters in upper case where asked for), suffix.
pub open spec fn imm_text(f: &InstructionFormatting, v: u64) -> Seq<char> {
    f.imm_prefix@ + digits(v as nat, base_of(f.imm_fmt), f.imm_uppercase) + f.imm_suffix@
}

/// The word written before a memory operand of a size.
pub open spec fn size_text(f: &InstructionFormatting, s: OperandSize) -> Seq<char> {
    match s {
        OperandSize::Any => Seq::empty(),
        OperandSize::Byte => f.addr_byte@,
        OperandSize::Word => f.addr_word@,
        OperandSize::Double => f.addr_dword@,
        OperandSize::Quad => f.addr_qword@,
        OperandSize::DoubleSeg => f.addr_word@ + f.addr_seg_seperator@ + f.addr_dword@,
        OperandSize::Penta => f.addr_tword@,
        OperandSize::DoubleQuad => f.addr_oword@,
        OperandSize::QuadQuad => f.addr_yword@,
        OperandSize::Z => Seq::empty(),
        OperandSize::DoubleQuadQuad => f.addr_zword@,
    }
}

/// The multiplier written after an index register.
pub open spec fn scale_text(f: &InstructionFormatting, s: SIBScale) -> Seq<char> {
    match s {
        SIBScale::Double => f.addr_mul@ + f.addr_scale_two@,
        SIBScale::Quad => f.addr_mul@ + f.addr_scale_four@,
        SIBScale::Octo => f.addr_mul@ + f.addr_scale_eight@,
        SIBScale::Zero => Seq::empty(),
    }
}

/// Parts written with the text for addition between them.
pub open spec fn joined(parts: Seq<Seq<char>>, sep: Seq<char>) -> Seq<char>
    decreases parts.len(),
{
    if parts.len() == 0 {
        Seq::empty()
    } else if parts.len() == 1 {
        parts[0]
    } else {
        joined(parts.drop_last(), sep) + sep + parts.last()
    }
}

/// One more part: it is written after the text for addition unless it is the first.
pub proof fn lemma_joined_push(parts: Seq<Seq<char>>, sep: Seq<char>, t: Seq<char>)
    ensures
        joined(parts.push(t), sep) == joined(parts, sep) + if parts.len() == 0 {
            t
        } else {
            sep + t
        },
{
    assert(parts.push(t).drop_last() =~= parts);
    if parts.len() == 0 {
        assert(joined(parts, sep) + t =~= t);
    } else {
        assert(joined(parts, sep) + sep + t =~= joined(parts, sep) + (sep + t));
    }
}

/// The parts of a memory operand, in order: the index register with its multiplier, the
/// base register, the ModR/M displacement and the SIB displacement, each where present;
/// `None` where a register in it cannot be named.
pub open spec fn address_parts(f: &InstructionFormatting, a: Address) -> Option<Seq<Seq<char>>> {
    let index: Option<Seq<Seq<char>>> = match a.index {
        None => Some(Seq::empty()),
        Some(i) => match reg_text(f, i, a.addr_size, RegisterType::GPReg, true) {
            Some(t) => Some(seq![t + scale_text(f, a.scale)]),
            None => None,
        },
    };
    let base: Option<Seq<Seq<char>>> = if a.no_base {
        Some(Seq::empty())
    } else {
        match reg_text(f, a.base, a.addr_size, RegisterType::GPReg, true) {
            Some(t) => Some(seq![t]),
            None => None,
        }
    };
    let rm: Seq<Seq<char>> = match a.rm_disp {
        Some(d) => seq![imm_text(f, d.value)],
        None => Seq::empty(),
    };
    let sib: Seq<Seq<char>> = match a.sib_disp {
        Some(d) => seq![imm_text(f, d.value)],
        None => Seq::empty(),
    };
    match (index, base) {
        (Some(x), Some(y)) => Some(x + y + rm + sib),
        _ => None,
    }
}

/// Joined parts begin with the first part.
proof fn lemma_joined_first(parts: Seq<Seq<char>>, sep: Seq<char>)
    requires
        parts.len() > 0,
    ensures
        parts[0].len() <= joined(parts, sep).len(),
        joined(parts, sep).subrange(0, parts[0].len() as int) == parts[0],
    decreases parts.len(),
{
    if parts.len() > 1 {
        lemma_joined_first(parts.drop_last(), sep);
        let j = joined(parts.drop_last(), sep);
        assert(parts.drop_last()[0] == parts[0]);
        assert((j + sep + parts.last()).subrange(0, parts[0].len() as int) =~= j.subrange(
            0,
            parts[0].len() as int,
        ));
    } else {
        assert(parts[0].subrange(0, parts[0].len() as int) =~= parts[0]);
    }
}

/// A memory operand with an index register always shows it: right after the opening text
/// comes the index register's name at the address size, followed by the multiplier
/// (nothing for a scale of one).
pub proof fn lemma_address_shows_index(f: &InstructionFormatting, a: Address)
    ensures
        address_text(f, a) matches Some(t) ==> (a.index matches Some(i) ==> {
            let head = f.addr_prefix@ + size_text(f, a.dest_size) + f.addr_open@;
            let shown = reg_text(f, i, a.addr_size, RegisterType::GPReg, true);
            &&& shown is Some
            &&& head.len() + shown.unwrap().len() + scale_text(f, a.scale).len() <= t.len()
            &&& t.subrange(
                head.len() as int,
                (head.len() + shown.unwrap().len() + scale_text(f, a.scale).len()) as int,
            ) == shown.unwrap() + scale_text(f, a.scale)
        }),
{
    match (address_parts(f, a), a.index) {
        (Some(ps), Some(i)) => {
            let head = f.addr_prefix@ + size_text(f, a.dest_size) + f.addr_open@;
            let first = reg_text(f, i, a.addr_size, RegisterType::GPReg, true).unwrap() + scale_text(
                f,
                a.scale,
            );
            assert(ps[0] == first);
            lemma_joined_first(ps, f.addr_add@);
            let t = head + joined(ps, f.addr_add@) + f.addr_close@;
            assert(t.subrange(head.len() as int, (head.len() + first.len()) as int) =~= joined(
                ps,
                f.addr_add@,
            ).subrange(0, first.len() as int));
        },
        _ => {},
    }
}

/// A memory operand as written, such as `qword [RAX+RBX*4+0x10]`: the address prefix, the
/// size word, the opening text, the parts joined by the text for addition, and the closing
/// text; `None` where a register in it cannot be named.
pub open spec fn address_text(f: &InstructionFormatting, a: Address) -> Option<Seq<char>> {
    match address_parts(f, a) {
        None => None,
        Some(ps) => Some(
            f.addr_prefix@ + size_text(f, a.dest_size) + f.addr_open@ + joined(ps, f.addr_add@)
                + f.addr_close@,
        ),
    }
}

/// An operand as written.
pub open spec fn operand_text(f: &InstructionFormatting, o: OperandView) -> Option<Seq<char>> {
    match o {
        OperandView::Reg(r) => reg_text(f, r.index, r.size, r.group, r.rex),
        OperandView::Imm(i) => Some(imm_text(f, i.value)),
        OperandView::Addr(a) => address_text(f, a),
        OperandView::Bes(t) => Some(t),
    }
}

// ---------------------------------------------------------------------------
// Instructions
// ---------------------------------------------------------------------------

/// The text of the prefixes that the formatting names, in order.
pub open spec fn prefixes_text(f: &InstructionFormatting, ps: Seq<u8>) -> Seq<char>
    decreases ps.len(),
{
    if ps.len() == 0 {
        Seq::empty()
    } else {
        prefixes_text(f, ps.drop_last()) + if f.prefixes@.contains_key(ps.last()) {
            f.prefixes@[ps.last()]@
        } else {
            Seq::empty()
        }
    }
}

/// Each operand with a space before and a comma after.
pub open spec fn operands_text(f: &InstructionFormatting, os: Seq<OperandView>) -> Option<Seq<char>>
    decreases os.len(),
{
    if os.len() == 0 {
        Some(Seq::empty())
    } else {
        match (operands_text(f, os.drop_last()), operand_text(f, os.last())) {
            (Some(a), Some(t)) => Some(a + seq![' '] + t + seq![',']),
            _ => None,
        }
    }
}

/// A decoded instruction as written: `Failed to parse` where nothing was left, the byte in
/// hexadecimal where it is no instruction, otherwise the prefixes, the mnemonic and the
/// operands separated by commas.
pub open spec fn response_text(f: &InstructionFormatting, r: ParseResponseView) -> Option<Seq<char>> {
    match r.bytes {
        None => Some("Failed to parse"@),
        Some(b) => match r.instruction {
            None => if b.len() == 0 {
                None
            } else {
                Some(hex_byte(b[0]))
            },
            Some(ins) => {
                let head = match r.prefixes {
                    Some(p) => prefixes_text(f, p),
                    None => Seq::empty(),
                } + split(ins.text, ' ')[0];
                match r.operands {
                    None => Some(head),
                    Some(os) => match operands_text(f, os) {
                        None => None,
                        Some(t) => {
                            let all = head + t;
                            Some(
                                if all.len() > 0 {
                                    all.drop_last()
                                } else {
                                    all
                                },
                            )
                        },
                    },
                }
            },
        },
    }
}

/// The bytes of a decoded instruction in hexadecimal, each followed by a space.
pub open spec fn bytes_text(b: Seq<u8>) -> Seq<char>
    decreases b.len(),
{
    if b.len() == 0 {
        Seq::empty()
    } else {
        bytes_text(b.drop_last()) + hex_byte(b.last()) + seq![' ']
    }
}

// ---------------------------------------------------------------------------
// Writing
// ---------------------------------------------------------------------------

/// A value that can be written as text under the formatting options.
pub trait CustomFormat {
    /// The text written; `None` where writing it fails.
    spec fn format_spec(&self, opts: &InstructionFormatting) -> Option<Seq<char>>;

    /// Writes the value as text.
    fn custom_format(&self, opts: &InstructionFormatting) -> (r: String)
        requires
            self.format_spec(opts) is Some,
        ensures
            Some(r@) == self.format_spec(opts),
    ;

    /// Whether the value can be written as text.
    fn can_format(&self, opts: &InstructionFormatting) -> (r: bool)
        ensures
            r == self.format_spec(opts) is Some,
    ;
}

fn decimal_of(n: usize) -> (r: Vec<char>)
    ensures
        r@ == decimal(n as nat),
{
    digits_of(n as u64, 10, false)
}

impl InstructionFormatting {
    /// `text` as a comment.
    pub fn as_comment(&self, text: &String) -> (r: String)
        ensures
            r@ == self.comment@ + text@,
    {
        let mut r = self.comment.clone();
        r.append(text.as_str());
        r
    }

    /// `text` as a section heading.
    pub fn as_section(&self, text: &String) -> (r: String)
        ensures
            r@ == self.section@ + text@,
    {
        let mut r = self.section.clone();
        r.append(text.as_str());
        r
    }

    /// The text of the prefixes that the formatting names, in order.
    pub fn format_prefixes(&self, prefixes: Vec<u8>) -> (r: String)
        ensures
            r@ == prefixes_text(self, prefixes@),
    {
        let mut out: Vec<char> = Vec::new();
        let mut i: usize = 0;
        while i < prefixes.len()
            invariant
                i <= prefixes@.len(),
                out@ == prefixes_text(self, prefixes@.take(i as int)),
            decreases prefixes.len() - i,
        {
            assert(prefixes@.take(i + 1).drop_last() == prefixes@.take(i as int));
            assert(prefixes@.take(i + 1).last() == prefixes@[i as int]);
            match self.prefixes.get(&prefixes[i]) {
                Some(s) => {
                    push_str(&mut out, s.as_str());
                },
                None => {
                    assert(out@ == out@ + Seq::<char>::empty());
                },
            }
            i = i + 1;
        }
        assert(prefixes@.take(prefixes@.len() as int) == prefixes@);
        string_of(out.as_slice())
    }

    fn gp_name_exec(&self, index: usize, size: OperandSize, rex: bool) -> (r: Vec<char>)
        requires
            gp_name(self, index, size, rex) is Some,
        ensures
            r@ == gp_name(self, index, size, rex).unwrap(),
    {
        let base = if size != OperandSize::Byte || rex {
            chars_of(self.rex_gp_set[index].as_str())
        } else {
            chars_of(self.gp_set[index].as_str())
        };
        let numbered = begins(base.as_slice(), "R");
        let single = base.len() == 1 && (base[0] as u32) < 128;
        let mut out: Vec<char> = Vec::new();
        match size {
            OperandSize::Quad => {
                if numbered {
                    push_chars(&mut out, &base);
                } else {
                    out.push('R');
                    push_chars(&mut out, &base);
                    if single {
                        out.push('X');
                    }
                }
            },
            OperandSize::Double => {
                if numbered {
                    push_chars(&mut out, &base);
                    out.push('D');
                } else {
                    out.push('E');
                    push_chars(&mut out, &base);
                    if single {
                        out.push('X');
                    }
                }
            },
            OperandSize::Word => {
                push_chars(&mut out, &base);
                if numbered {
                    out.push('W');
                } else if single {
                    out.push('X');
                }
            },
            _ => {
                push_chars(&mut out, &base);
                if rex {
                    if numbered {
                        out.push('B');
                    } else {
                        out.push('L');
                    }
                }
            },
        }
        proof {
            let r = base@;
            match size {
                OperandSize::Quad => {
                    assert(out@ =~= gp_name(self, index, size, rex).unwrap());
                },
                OperandSize::Double => {
                    assert(out@ =~= gp_name(self, index, size, rex).unwrap());
                },
                OperandSize::Word => {
                    assert(out@ =~= gp_name(self, index, size, rex).unwrap());
                },
                _ => {
                    assert(out@ =~= gp_name(self, index, size, rex).unwrap());
                },
            }
        }
        out
    }

    /// Whether a register can be named (see `reg_name`).
    pub fn can_name_reg(&self, index: usize, size: &OperandSize, group: &RegisterType, rex: bool) -> (r: bool)
        ensures
            r == reg_name(self, index, *size, *group, rex) is Some,
    {
        match group {
            RegisterType::GPReg => {
                let n = if *size != OperandSize::Byte || rex {
                    self.rex_gp_set.len()
                } else {
                    self.gp_set.len()
                };
                index < n && (*size == OperandSize::Quad || *size == OperandSize::Double || *size
                    == OperandSize::Word || *size == OperandSize::Byte)
            },
            RegisterType::MMXReg => *size == OperandSize::DoubleQuadQuad || *size
                == OperandSize::QuadQuad || *size == OperandSize::DoubleQuad || *size
                == OperandSize::Quad,
            RegisterType::BoundReg => index < 4,
            RegisterType::SegReg => {
                let j = if index > 5 {
                    index & 3
                } else {
                    index & 7
                };
                j < self.seg_set.len()
            },
            _ => true,
        }
    }

    /// The name of a register (see `reg_text`).
    pub fn format_reg(&self, index: usize, size: &OperandSize, group: &RegisterType, rex: bool) -> (r: String)
        requires
            reg_name(self, index, *size, *group, rex) is Some,
        ensures
            Some(r@) == reg_text(self, index, *size, *group, rex),
    {
        let mut out: Vec<char> = Vec::new();
        match group {
            RegisterType::GPReg => {
                out = self.gp_name_exec(index, *size, rex);
            },
            RegisterType::MMXReg => {
                match size {
                    OperandSize::DoubleQuadQuad => {
                        out.push('Z');
                    },
                    OperandSize::QuadQuad => {
                        out.push('Y');
                    },
                    OperandSize::DoubleQuad => {
                        out.push('X');
                    },
                    _ => {},
                }
                push_str(&mut out, self.mm_base.as_str());
                let d = decimal_of(index);
                push_chars(&mut out, &d);
            },
            RegisterType::KReg => {
                push_str(&mut out, self.k_base.as_str());
                let d = decimal_of(index);
                push_chars(&mut out, &d);
            },
            RegisterType::BoundReg => {
                push_str(&mut out, self.bnd_base.as_str());
                let d = decimal_of(index);
                push_chars(&mut out, &d);
            },
            RegisterType::SegReg => {
                let j = if index > 5 {
                    index & 3
                } else {
                    index & 7
                };
                push_str(&mut out, self.seg_set[j].as_str());
            },
            RegisterType::FPUReg => {
                push_str(&mut out, self.fpu_base.as_str());
                let d = decimal_of(index);
                push_chars(&mut out, &d);
            },
            RegisterType::CtrlReg => {
                push_str(&mut out, self.ctrl_base.as_str());
                if rex {
                    push_str(&mut out, "8");
                } else {
                    let d = decimal_of(index);
                    push_chars(&mut out, &d);
                }
            },
            RegisterType::DbgReg => {
                push_str(&mut out, self.dbg_base.as_str());
                let d = decimal_of(index);
                push_chars(&mut out, &d);
            },
        }
        proof {
            assert(out@ =~= reg_name(self, index, *size, *group, rex).unwrap());
        }
        let s = string_of(out.as_slice());
        if !self.reg_uppercase {
            to_lowercase(s.as_str())
        } else {
            s
        }
    }
}


/// `v` ends with the character `c`.
/// Appends a part of a memory operand: after the text for addition unless it is the first.
fn push_part(out: &mut Vec<char>, count: &mut usize, sep: &str, t: &[char])
    requires
        *old(count) < usize::MAX,
    ensures
        final(out)@ == old(out)@ + if *old(count) == 0 {
            t@
        } else {
            sep@ + t@
        },
        *final(count) == *old(count) + 1,
{
    let ghost o = out@;
    if *count > 0 {
        push_str(out, sep);
    }
    let ghost mid = out@;
    let mut i: usize = 0;
    while i < t.len()
        invariant
            i <= t@.len(),
            out@ == mid + t@.take(i as int),
        decreases t.len() - i,
    {
        out.push(t[i]);
        assert(t@.take(i + 1) == t@.take(i as int).push(t@[i as int]));
        i = i + 1;
    }
    assert(t@.take(t@.len() as int) == t@);
    if *count > 0 {
        assert(mid == o + sep@);
        assert(o + sep@ + t@ =~= o + (sep@ + t@));
    } else {
        assert(mid == o);
    }
    *count = *count + 1;
}

/// The texts of a sequence of character vectors.
pub open spec fn char_views(v: Seq<Vec<char>>) -> Seq<Seq<char>> {
    v.map_values(|c: Vec<char>| c@)
}

/// Parts written one after another with `sep` between them.
fn join_parts(parts: &Vec<Vec<char>>, sep: &str) -> (r: Vec<char>)
    ensures
        r@ == joined(char_views(parts@), sep@),
{
    let mut out: Vec<char> = Vec::new();
    let mut count: usize = 0;
    let mut i: usize = 0;
    while i < parts.len()
        invariant
            i <= parts@.len(),
            count == i,
            out@ == joined(char_views(parts@).take(i as int), sep@),
        decreases parts.len() - i,
    {
        proof {
            lemma_joined_push(char_views(parts@).take(i as int), sep@, parts@[i as int]@);
            assert(char_views(parts@).take(i + 1) =~= char_views(parts@).take(i as int).push(
                parts@[i as int]@,
            ));
        }
        push_part(&mut out, &mut count, sep, parts[i].as_slice());
        i = i + 1;
    }
    assert(char_views(parts@).take(parts@.len() as int) =~= char_views(parts@));
    out
}

impl Address {
    /// The parts of the memory operand as text (see `address_parts`).
    fn parts(&self, opts: &InstructionFormatting) -> (r: Vec<Vec<char>>)
        requires
            address_parts(opts, *self) is Some,
        ensures
            char_views(r@) == address_parts(opts, *self).unwrap(),
    {
        let mut v: Vec<Vec<char>> = Vec::new();
        let ghost idx: Seq<Seq<char>> = match self.index {
            Some(i) => seq![reg_text(opts, i, self.addr_size, RegisterType::GPReg, true).unwrap()
                + scale_text(opts, self.scale)],
            None => Seq::empty(),
        };
        match self.index {
            Some(index) => {
                let mut t = chars_of(
                    opts.format_reg(index, &self.addr_size, &RegisterType::GPReg, true).as_str(),
                );
                match self.scale {
                    SIBScale::Double => {
                        push_str(&mut t, opts.addr_mul.as_str());
                        push_str(&mut t, opts.addr_scale_two.as_str());
                    },
                    SIBScale::Quad => {
                        push_str(&mut t, opts.addr_mul.as_str());
                        push_str(&mut t, opts.addr_scale_four.as_str());
                    },
                    SIBScale::Octo => {
                        push_str(&mut t, opts.addr_mul.as_str());
                        push_str(&mut t, opts.addr_scale_eight.as_str());
                    },
                    SIBScale::Zero => {},
                }
                assert(t@ =~= idx[0]);
                v.push(t);
            },
            None => {},
        }
        assert(char_views(v@) =~= idx);
        let ghost bas: Seq<Seq<char>> = if self.no_base {
            Seq::empty()
        } else {
            seq![reg_text(opts, self.base, self.addr_size, RegisterType::GPReg, true).unwrap()]
        };
        let ghost prev = v@;
        if !self.no_base {
            let t = chars_of(
                opts.format_reg(self.base, &self.addr_size, &RegisterType::GPReg, true).as_str(),
            );
            v.push(t);
        }
        assert(char_views(v@) =~= idx + bas) by {
            if !self.no_base {
                assert(v@ == prev.push(v@.last()));
            } else {
                assert(v@ == prev);
            }
        }
        let ghost rm: Seq<Seq<char>> = match self.rm_disp {
            Some(d) => seq![imm_text(opts, d.value)],
            None => Seq::empty(),
        };
        let ghost prev = v@;
        match self.rm_disp {
            Some(d) => {
                let t = chars_of(d.custom_format(opts).as_str());
                v.push(t);
            },
            None => {},
        }
        assert(char_views(v@) =~= idx + bas + rm) by {
            if self.rm_disp is Some {
                assert(v@ == prev.push(v@.last()));
            } else {
                assert(v@ == prev);
            }
        }
        let ghost sib: Seq<Seq<char>> = match self.sib_disp {
            Some(d) => seq![imm_text(opts, d.value)],
            None => Seq::empty(),
        };
        let ghost prev = v@;
        match self.sib_disp {
            Some(d) => {
                let t = chars_of(d.custom_format(opts).as_str());
                v.push(t);
            },
            None => {},
        }
        assert(char_views(v@) =~= idx + bas + rm + sib) by {
            if self.sib_disp is Some {
                assert(v@ == prev.push(v@.last()));
            } else {
                assert(v@ == prev);
            }
        }
        v
    }
}

impl CustomFormat for Immediate {
    open spec fn format_spec(&self, opts: &InstructionFormatting) -> Option<Seq<char>> {
        Some(imm_text(opts, self.value))
    }

    fn custom_format(&self, opts: &InstructionFormatting) -> (r: String) {
        let base: u64 = match opts.imm_fmt {
            NumFormat::Hex => 16,
            NumFormat::Dec => 10,
            NumFormat::Bi => 2,
            NumFormat::Oct => 8,
        };
        let mut out = chars_of(opts.imm_prefix.as_str());
        let d = digits_of(self.value, base, opts.imm_uppercase);
        push_chars(&mut out, &d);
        push_str(&mut out, opts.imm_suffix.as_str());
        string_of(out.as_slice())
    }

    fn can_format(&self, opts: &InstructionFormatting) -> (r: bool) {
        true
    }
}

impl CustomFormat for OperandSize {
    open spec fn format_spec(&self, opts: &InstructionFormatting) -> Option<Seq<char>> {
        Some(size_text(opts, *self))
    }

    fn custom_format(&self, opts: &InstructionFormatting) -> (r: String) {
        match self {
            OperandSize::Any => String::new(),
            OperandSize::Byte => opts.addr_byte.clone(),
            OperandSize::Word => opts.addr_word.clone(),
            OperandSize::Double => opts.addr_dword.clone(),
            OperandSize::Quad => opts.addr_qword.clone(),
            OperandSize::DoubleSeg => {
                let mut r = opts.addr_word.clone();
                r.append(opts.addr_seg_seperator.as_str());
                r.append(opts.addr_dword.as_str());
                r
            },
            OperandSize::Penta => opts.addr_tword.clone(),
            OperandSize::DoubleQuad => opts.addr_oword.clone(),
            OperandSize::QuadQuad => opts.addr_yword.clone(),
            OperandSize::Z => String::new(),
            OperandSize::DoubleQuadQuad => opts.addr_zword.clone(),
        }
    }

    fn can_format(&self, opts: &InstructionFormatting) -> (r: bool) {
        true
    }
}

impl CustomFormat for Register {
    open spec fn format_spec(&self, opts: &InstructionFormatting) -> Option<Seq<char>> {
        reg_text(opts, self.index, self.size, self.group, self.rex)
    }

    fn custom_format(&self, opts: &InstructionFormatting) -> (r: String) {
        opts.format_reg(self.index, &self.size, &self.group, self.rex)
    }

    fn can_format(&self, opts: &InstructionFormatting) -> (r: bool) {
        opts.can_name_reg(self.index, &self.size, &self.group, self.rex)
    }
}

impl CustomFormat for Bespoke {
    open spec fn format_spec(&self, opts: &InstructionFormatting) -> Option<Seq<char>> {
        Some(self.value@)
    }

    fn custom_format(&self, opts: &InstructionFormatting) -> (r: String) {
        self.value.clone()
    }

    fn can_format(&self, opts: &InstructionFormatting) -> (r: bool) {
        true
    }
}

impl CustomFormat for Address {
    open spec fn format_spec(&self, opts: &InstructionFormatting) -> Option<Seq<char>> {
        address_text(opts, *self)
    }

    fn custom_format(&self, opts: &InstructionFormatting) -> (r: String) {
        let mut out = chars_of(opts.addr_prefix.as_str());
        let size = self.dest_size.custom_format(opts);
        push_str(&mut out, size.as_str());
        push_str(&mut out, opts.addr_open.as_str());
        let parts = self.parts(opts);
        let body = join_parts(&parts, opts.addr_add.as_str());
        push_chars(&mut out, &body);
        push_str(&mut out, opts.addr_close.as_str());
        string_of(out.as_slice())
    }

    fn can_format(&self, opts: &InstructionFormatting) -> (r: bool) {
        let index_ok = match self.index {
            Some(i) => opts.can_name_reg(i, &self.addr_size, &RegisterType::GPReg, true),
            None => true,
        };
        index_ok && (self.no_base || opts.can_name_reg(
            self.base,
            &self.addr_size,
            &RegisterType::GPReg,
            true,
        ))
    }
}

impl CustomFormat for Operand {
    open spec fn format_spec(&self, opts: &InstructionFormatting) -> Option<Seq<char>> {
        operand_text(opts, self@)
    }

    fn custom_format(&self, opts: &InstructionFormatting) -> (r: String) {
        match self {
            Operand::Reg(x) => x.custom_format(opts),
            Operand::Imm(x) => x.custom_format(opts),
            Operand::Addr(x) => x.custom_format(opts),
            Operand::Bes(x) => x.custom_format(opts),
        }
    }

    fn can_format(&self, opts: &InstructionFormatting) -> (r: bool) {
        match self {
            Operand::Reg(x) => x.can_format(opts),
            Operand::Imm(x) => x.can_format(opts),
            Operand::Addr(x) => x.can_format(opts),
            Operand::Bes(x) => x.can_format(opts),
        }
    }
}

impl CustomFormat for ParseResponse {
    open spec fn format_spec(&self, opts: &InstructionFormatting) -> Option<Seq<char>> {
        response_text(opts, self@)
    }

    fn custom_format(&self, opts: &InstructionFormatting) -> (r: String) {
        match &self.bytes {
            None => String::from_str("Failed to parse"),
            Some(b) => match &self.instruction {
                None => {
                    let h = hex_byte_of(b[0]);
                    string_of(h.as_slice())
                },
                Some(ins) => {
                    let mut out: Vec<char> = Vec::new();
                    match &self.prefixes {
                        Some(p) => {
                            let t = opts.format_prefixes(p.clone());
                            push_str(&mut out, t.as_str());
                        },
                        None => {},
                    }
                    let text = chars_of(ins.text.as_str());
                    let pieces = split_chars(text.as_slice(), ' ');
                    proof {
                        crate::text::lemma_split_len(ins.text@, ' ');
                    }
                    push_chars(&mut out, &pieces[0]);
                    let ghost head = out@;
                    match &self.operands {
                        None => {},
                        Some(os) => {
                            let ghost views = op_views(os@);
                            let mut i: usize = 0;
                            while i < os.len()
                                invariant
                                    i <= os@.len(),
                                    views == op_views(os@),
                                    operands_text(opts, views) is Some,
                                    operands_text(opts, views.take(i as int)) is Some,
                                    out@ == head + operands_text(opts, views.take(i as int)).unwrap(),
                                decreases os.len() - i,
                            {
                                proof {
                                    lemma_operands_text_prefix(opts, views, i as int + 1);
                                    assert(views.take(i + 1).drop_last() == views.take(i as int));
                                    assert(views.take(i + 1).last() == os@[i as int]@);
                                }
                                out.push(' ');
                                let t = os[i].custom_format(opts);
                                push_str(&mut out, t.as_str());
                                out.push(',');
                                i = i + 1;
                            }
                            assert(views.take(os@.len() as int) == views);
                            if out.len() > 0 {
                                out.pop();
                            }
                        },
                    }
                    string_of(out.as_slice())
                },
            },
        }
    }

    fn can_format(&self, opts: &InstructionFormatting) -> (r: bool) {
        match &self.bytes {
            None => true,
            Some(b) => match &self.instruction {
                None => b.len() > 0,
                Some(_) => match &self.operands {
                    None => true,
                    Some(os) => {
                        let ghost views = op_views(os@);
                        let mut i: usize = 0;
                        while i < os.len()
                            invariant
                                i <= os@.len(),
                                views == op_views(os@),
                                self.operands == Some(*os),
                                self.bytes is Some,
                                self.instruction is Some,
                                operands_text(opts, views.take(i as int)) is Some,
                            decreases os.len() - i,
                        {
                            assert(views.take(i + 1).drop_last() == views.take(i as int));
                            assert(views.take(i + 1).last() == os@[i as int]@);
                            if !os[i].can_format(opts) {
                                proof {
                                    assert(views[i as int] == os@[i as int]@);
                                    if operands_text(opts, views) is Some {
                                        lemma_operands_text_prefix(opts, views, i as int + 1);
                                        assert(false);
                                    }
                                    assert(opt_ops(self.operands) == Some(views));
                                }
                                return false;
                            }
                            i = i + 1;
                        }
                        assert(views.take(os@.len() as int) == views);
                        true
                    },
                },
            },
        }
    }
}

/// Where the operands as a whole can be written, so can each prefix of them.
proof fn lemma_operands_text_prefix(f: &InstructionFormatting, os: Seq<OperandView>, k: int)
    requires
        0 <= k <= os.len(),
        operands_text(f, os) is Some,
    ensures
        operands_text(f, os.take(k)) is Some,
        k > 0 ==> operand_text(f, os[k - 1]) is Some,
    decreases os.len() - k,
{
    if k < os.len() {
        lemma_operands_text_prefix(f, os, k + 1);
        assert(os.take(k + 1).drop_last() == os.take(k));
        assert(os.take(k + 1).last() == os[k]);
        if k > 0 {
            assert(os.take(k).last() == os[k - 1]);
            assert(os.take(k).drop_last() == os.take(k - 1));
        }
    } else {
        assert(os.take(k) == os);
        if k > 0 {
            assert(os.drop_last() == os.take(k - 1));
        }
    }
}

impl ParseResponse {
    /// The bytes in hexadecimal, each followed by a space; `Failed to parse` where there
    /// are none.
    pub fn bytes_to_string(&self) -> (r: String)
        ensures
            r@ == match self.bytes {
                None => "Failed to parse"@,
                Some(b) => bytes_text(b@),
            },
    {
        match &self.bytes {
            None => String::from_str("Failed to parse"),
            Some(b) => {
                let mut out: Vec<char> = Vec::new();
                let mut i: usize = 0;
                while i < b.len()
                    invariant
                        i <= b@.len(),
                        out@ == bytes_text(b@.take(i as int)),
                    decreases b.len() - i,
                {
                    assert(b@.take(i + 1).drop_last() == b@.take(i as int));
                    assert(b@.take(i + 1).last() == b@[i as int]);
                    let h = hex_byte_of(b[i]);
                    push_chars(&mut out, &h);
                    out.push(' ');
                    i = i + 1;
                }
                assert(b@.take(b@.len() as int) == b@);
                string_of(out.as_slice())
            },
        }
    }
}

} // verus!
