use decoder::decoder::{Address, Bespoke, Immediate, Operand, ParseResponse, Register, SIBScale};
use decoder::format::{CustomFormat, InstructionFormatting, NumFormat};
use decoder::instruction_tree::{Instruction, OperandSize, RegisterType};

fn opts() -> InstructionFormatting {
    InstructionFormatting::default()
}

fn reg(f: &InstructionFormatting, index: usize, size: OperandSize, group: RegisterType, rex: bool) -> String {
    f.format_reg(index, &size, &group, rex)
}

#[test]
fn general_purpose_register_names() {
    let f = opts();
    assert_eq!(reg(&f, 0, OperandSize::Quad, RegisterType::GPReg, false), "RAX");
    assert_eq!(reg(&f, 5, OperandSize::Quad, RegisterType::GPReg, false), "RBP");
    assert_eq!(reg(&f, 8, OperandSize::Quad, RegisterType::GPReg, true), "R8");
    assert_eq!(reg(&f, 8, OperandSize::Double, RegisterType::GPReg, true), "R8D");
    assert_eq!(reg(&f, 1, OperandSize::Double, RegisterType::GPReg, false), "ECX");
    assert_eq!(reg(&f, 6, OperandSize::Double, RegisterType::GPReg, false), "ESI");
    assert_eq!(reg(&f, 0, OperandSize::Word, RegisterType::GPReg, false), "AX");
    assert_eq!(reg(&f, 6, OperandSize::Word, RegisterType::GPReg, false), "SI");
    assert_eq!(reg(&f, 10, OperandSize::Word, RegisterType::GPReg, true), "R10W");
    assert_eq!(reg(&f, 4, OperandSize::Byte, RegisterType::GPReg, false), "AH");
    assert_eq!(reg(&f, 4, OperandSize::Byte, RegisterType::GPReg, true), "SPL");
    assert_eq!(reg(&f, 0, OperandSize::Byte, RegisterType::GPReg, true), "AL");
    assert_eq!(reg(&f, 9, OperandSize::Byte, RegisterType::GPReg, true), "R9B");
}

#[test]
fn byte_register_names_are_those_of_nasm() {
    let f = opts();
    let names: Vec<String> = (0..8).map(|i| reg(&f, i, OperandSize::Byte, RegisterType::GPReg, false)).collect();
    assert_eq!(names, vec!["AL", "CL", "DL", "BL", "AH", "CH", "DH", "BH"]);
    assert_eq!(reg(&f, 8, OperandSize::Byte, RegisterType::GPReg, true), "R8B");
    assert_eq!(reg(&f, 6, OperandSize::Byte, RegisterType::GPReg, true), "SIL");
}

#[test]
fn other_register_names() {
    let f = opts();
    assert_eq!(reg(&f, 3, OperandSize::DoubleQuad, RegisterType::MMXReg, false), "XMM3");
    assert_eq!(reg(&f, 12, OperandSize::QuadQuad, RegisterType::MMXReg, false), "YMM12");
    assert_eq!(reg(&f, 31, OperandSize::DoubleQuadQuad, RegisterType::MMXReg, false), "ZMM31");
    assert_eq!(reg(&f, 2, OperandSize::Quad, RegisterType::MMXReg, false), "MM2");
    assert_eq!(reg(&f, 1, OperandSize::Any, RegisterType::KReg, false), "K1");
    assert_eq!(reg(&f, 2, OperandSize::Any, RegisterType::BoundReg, false), "BND2");
    assert_eq!(reg(&f, 4, OperandSize::Any, RegisterType::SegReg, false), "FS");
    assert_eq!(reg(&f, 6, OperandSize::Any, RegisterType::SegReg, false), "SS");
    assert_eq!(reg(&f, 0, OperandSize::Any, RegisterType::FPUReg, false), "ST0");
    assert_eq!(reg(&f, 3, OperandSize::Any, RegisterType::CtrlReg, false), "CR3");
    assert_eq!(reg(&f, 0, OperandSize::Any, RegisterType::CtrlReg, true), "CR8");
    assert_eq!(reg(&f, 7, OperandSize::Any, RegisterType::DbgReg, false), "DR7");
}

#[test]
fn register_names_in_lower_case() {
    let mut f = opts();
    f.reg_uppercase = false;
    assert_eq!(reg(&f, 0, OperandSize::Quad, RegisterType::GPReg, false), "rax");
    assert_eq!(reg(&f, 3, OperandSize::DoubleQuad, RegisterType::MMXReg, false), "xmm3");
    let r = Register { index: 9, size: OperandSize::Byte, group: RegisterType::GPReg, rex: true };
    assert_eq!(r.custom_format(&f), "r9b");
}

#[test]
fn immediates_in_each_base() {
    let mut f = opts();
    let i = Immediate { value: 0x1f };
    assert_eq!(i.custom_format(&f), "0x1F");
    f.imm_fmt = NumFormat::Dec;
    assert_eq!(i.custom_format(&f), "0x31");
    f.imm_fmt = NumFormat::Bi;
    assert_eq!(Immediate { value: 5 }.custom_format(&f), "0x101");
    f.imm_fmt = NumFormat::Oct;
    assert_eq!(Immediate { value: 8 }.custom_format(&f), "0x10");
    f.imm_prefix = String::new();
    f.imm_suffix = String::from("h");
    f.imm_fmt = NumFormat::Hex;
    assert_eq!(Immediate { value: 0 }.custom_format(&f), "0h");
}

#[test]
fn operand_sizes_as_written() {
    let f = opts();
    assert_eq!(OperandSize::Any.custom_format(&f), "");
    assert_eq!(OperandSize::Byte.custom_format(&f), "byte ");
    assert_eq!(OperandSize::Penta.custom_format(&f), "tword ");
    assert_eq!(OperandSize::DoubleSeg.custom_format(&f), "word :dword ");
    assert_eq!(OperandSize::DoubleQuadQuad.custom_format(&f), "zword ");
    assert_eq!(OperandSize::QuadQuad.custom_format(&f), "yword ");
    assert_eq!(OperandSize::DoubleQuad.custom_format(&f), "oword ");
    assert_eq!(OperandSize::Quad.custom_format(&f), "qword ");
    assert_eq!(OperandSize::Z.custom_format(&f), "");
}

#[test]
fn addresses_with_index_base_and_displacement() {
    let f = opts();
    let a = Address {
        dest_size: OperandSize::Double,
        addr_size: OperandSize::Quad,
        base: 3,
        index: Some(1),
        scale: SIBScale::Quad,
        rm_disp: Some(Immediate { value: 0x10 }),
        sib_disp: None,
        no_base: false,
    };
    assert_eq!(a.custom_format(&f), "dword [RCX*4+RBX+0x10]");
    let b = Address {
        dest_size: OperandSize::Double,
        addr_size: OperandSize::Quad,
        base: 5,
        index: Some(1),
        scale: SIBScale::Double,
        rm_disp: None,
        sib_disp: Some(Immediate { value: 8 }),
        no_base: false,
    };
    assert_eq!(b.custom_format(&f), "dword [RCX*2+RBP+0x8]");
}

#[test]
fn address_of_a_displacement_alone() {
    let f = opts();
    let a = Address {
        dest_size: OperandSize::Quad,
        addr_size: OperandSize::Quad,
        base: 0,
        index: None,
        scale: SIBScale::Zero,
        rm_disp: Some(Immediate { value: 0x20 }),
        sib_disp: None,
        no_base: true,
    };
    assert_eq!(a.custom_format(&f), "qword [0x20]");
    let b = Address { no_base: false, rm_disp: None, addr_size: OperandSize::Double, ..a };
    assert_eq!(b.custom_format(&f), "qword [EAX]");
}

#[test]
fn operands_dispatch_to_their_kind() {
    let f = opts();
    let b = Operand::Bes(Bespoke { value: String::from("AL") });
    assert_eq!(b.custom_format(&f), "AL");
    let r = Operand::Reg(Register { index: 2, size: OperandSize::Quad, group: RegisterType::GPReg, rex: false });
    assert_eq!(r.custom_format(&f), "RDX");
    assert_eq!(Operand::Imm(Immediate { value: 255 }).custom_format(&f), "0xFF");
}

fn instruction(text: &str) -> Instruction {
    Instruction {
        opcode: String::from("B8+rd id"),
        text: String::from(text),
        x64: true,
        legacy: true,
        operands: None,
        size: OperandSize::Double,
        invalid_prefixes: Vec::new(),
        description: String::new(),
    }
}

#[test]
fn responses_as_written() {
    let f = opts();
    let none = ParseResponse { instruction: None, operands: None, bytes: None, prefixes: None };
    assert_eq!(none.custom_format(&f), "Failed to parse");
    let byte = ParseResponse { instruction: None, operands: None, bytes: Some(vec![0xab]), prefixes: None };
    assert_eq!(byte.custom_format(&f), "AB");
    let mov = ParseResponse {
        instruction: Some(instruction("MOV r32, imm32")),
        operands: Some(vec![
            Operand::Reg(Register { index: 1, size: OperandSize::Double, group: RegisterType::GPReg, rex: false }),
            Operand::Imm(Immediate { value: 5 }),
        ]),
        bytes: Some(vec![0xf3, 0xb9, 5, 0, 0, 0]),
        prefixes: Some(vec![0xf3]),
    };
    assert_eq!(mov.custom_format(&f), "REP MOV ECX, 0x5");
    let bare = ParseResponse {
        instruction: Some(instruction("NOP")),
        operands: None,
        bytes: Some(vec![0x90]),
        prefixes: Some(vec![0x2e]),
    };
    assert_eq!(bare.custom_format(&f), "NOP");
}

#[test]
fn empty_operand_list_drops_the_last_character() {
    let f = opts();
    let r = ParseResponse {
        instruction: Some(instruction("MOV")),
        operands: Some(Vec::new()),
        bytes: Some(vec![0x90]),
        prefixes: None,
    };
    assert_eq!(r.custom_format(&f), "MO");
}

#[test]
fn bytes_in_hexadecimal() {
    let r = ParseResponse { instruction: None, operands: None, bytes: Some(vec![0x0f, 0x05, 0xa0]), prefixes: None };
    assert_eq!(r.bytes_to_string(), "0F 05 A0 ");
    let none = ParseResponse { instruction: None, operands: None, bytes: None, prefixes: None };
    assert_eq!(none.bytes_to_string(), "Failed to parse");
}

#[test]
fn comments_and_sections() {
    let f = opts();
    assert_eq!(f.as_comment(&String::from(" x")), "; x");
    assert_eq!(f.as_section(&String::from(".text")), "section .text");
}

#[test]
fn default_formatting_names_three_prefixes() {
    let f = opts();
    assert_eq!(f.prefixes.len(), 3);
    assert_eq!(f.prefixes.get(&0xf0).map(|s| s.as_str()), Some("LOCK "));
    assert_eq!(f.prefixes.get(&0xf2).map(|s| s.as_str()), Some("REPNE "));
    assert_eq!(f.prefixes.get(&0xf3).map(|s| s.as_str()), Some("REP "));
    assert_eq!(f.gp_set.len(), 8);
    assert_eq!(f.rex_gp_set.len(), 16);
    assert_eq!(f.seg_set.len(), 6);
    let g = f.clone();
    assert_eq!(g.rex_gp_set, f.rex_gp_set);
    assert_eq!(g.prefixes, f.prefixes);
    assert_eq!(g.section, f.section);
}

#[test]
fn immediates_follow_the_case_option() {
    let mut f = opts();
    assert_eq!(Immediate { value: 255 }.custom_format(&f), "0xFF");
    assert_eq!(Immediate { value: 0xab12 }.custom_format(&f), "0xAB12");
    assert_eq!(Immediate { value: 16 }.custom_format(&f), "0x10");
    f.imm_uppercase = false;
    assert_eq!(Immediate { value: 0xab12 }.custom_format(&f), "0xab12");
}

#[test]
fn addresses_use_the_bracket_and_addition_options() {
    let mut f = opts();
    f.addr_open = String::from("(");
    f.addr_close = String::from(")");
    let a = Address {
        dest_size: OperandSize::Quad,
        addr_size: OperandSize::Quad,
        base: 0,
        index: None,
        scale: SIBScale::Zero,
        rm_disp: None,
        sib_disp: None,
        no_base: false,
    };
    assert_eq!(a.custom_format(&f), "qword (RAX)");
    f.addr_add = String::from(" + ");
    let b = Address { index: Some(1), scale: SIBScale::Octo, rm_disp: Some(Immediate { value: 4 }), ..a };
    assert_eq!(b.custom_format(&f), "qword (RCX*8 + RAX + 0x4)");
    let empty = Address { no_base: true, ..a };
    assert_eq!(empty.custom_format(&f), "qword ()");
}
