use decoder::decoder::{ByteString, Context, Decoder, Operand, ParseResponse, SIBScale};
use decoder::format::{CustomFormat, InstructionFormatting};
use decoder::instruction_tree::{
    GenericOperand, Instruction, InstructionJSON, InstructionTree, OperandEncoding, OperandSize, RegisterType,
};

fn legacy(opcode: &str, text: &str, operands: Option<Vec<&str>>, description: &str) -> InstructionJSON {
    InstructionJSON {
        opcode: String::from(opcode),
        text: String::from(text),
        x64: String::from("Valid"),
        legacy: String::from("Valid"),
        operands: operands.map(|v| v.into_iter().map(String::from).collect()),
        description: String::from(description),
    }
}

fn tables() -> Vec<Vec<Instruction>> {
    let nop = legacy("90", "NOP", None, "No operation");
    let mov = legacy("B8+rd id", "MOV r32, imm32", Some(vec!["opcode + rd (w)", "imm8/16/32/64"]), "Move imm32 to r32");
    let add = legacy("01 /r", "ADD r/m32, r32", Some(vec!["ModRM:r/m (r, w)", "ModRM:reg (r)"]), "Add r32 to r/m32");
    let sub = legacy("83 /5 ib", "SUB r/m32, imm8", Some(vec!["ModRM:r/m (r, w)", "imm8"]), "Subtract imm8 from r/m32");
    InstructionTree::from_legacy_tables(&vec![vec![nop, mov, add, sub]]).unwrap()
}

fn decoder_for(code: Vec<u8>) -> Decoder {
    Decoder {
        context: Context::default(),
        format: InstructionFormatting::default(),
        tree: InstructionTree::from_tables(&tables()).unwrap(),
        code: ByteString { code, curr: 0 },
    }
}

fn texts(d: &Decoder, rs: &[ParseResponse]) -> Vec<String> {
    rs.iter().map(|r| r.custom_format(&d.format)).collect()
}

#[test]
fn decodes_a_register_and_an_immediate() {
    let mut d = decoder_for(vec![0xb9, 0x78, 0x56, 0x34, 0x12, 0x90]);
    let rs = d.parse();
    assert_eq!(texts(&d, &rs), vec!["MOV ECX, 0x12345678", "NOP"]);
    assert_eq!(rs[0].bytes, Some(vec![0xb9, 0x78, 0x56, 0x34, 0x12]));
    assert_eq!(rs[0].prefixes, Some(vec![]));
    assert_eq!(rs[1].bytes, Some(vec![0x90]));
    assert_eq!(d.code.curr, 6);
}

#[test]
fn decodes_a_memory_operand_with_sib_and_displacement() {
    let mut d = decoder_for(vec![0x01, 0x44, 0x8b, 0x10, 0x90]);
    let r = d.parse_one();
    assert_eq!(r.custom_format(&d.format), "ADD dword [RCX*4+RBX+0x10], EAX");
    assert_eq!(r.bytes, Some(vec![0x01, 0x44, 0x8b, 0x10]));
    match &r.operands.as_ref().unwrap()[0] {
        Operand::Addr(a) => {
            assert_eq!(a.index, Some(1));
            assert_eq!(a.scale, SIBScale::Quad);
            assert_eq!(a.base, 3);
            assert_eq!(a.addr_size, OperandSize::Quad);
        }
        _ => panic!("expected a memory operand"),
    }
}

#[test]
fn decodes_an_opcode_extension() {
    let mut d = decoder_for(vec![0x83, 0xe8, 0x07, 0x90]);
    let r = d.parse_one();
    assert_eq!(r.custom_format(&d.format), "SUB EAX, 0x7");
    assert_eq!(r.bytes, Some(vec![0x83, 0xe8, 0x07]));
}

#[test]
fn unknown_bytes_before_an_instruction_are_kept_as_prefixes() {
    let mut d = decoder_for(vec![0xff, 0x90]);
    let r = d.parse_one();
    assert_eq!(r.custom_format(&d.format), "NOP");
    assert_eq!(r.prefixes, Some(vec![0xff]));
    assert_eq!(r.bytes, Some(vec![0xff, 0x90]));
}

#[test]
fn bytes_that_are_no_instruction() {
    let mut d = decoder_for(vec![0xaa, 0xcc, 0xdd, 0xee, 0xf1, 0xf4]);
    let r = d.parse_one();
    assert!(r.instruction.is_none());
    assert_eq!(r.bytes, Some(vec![0xaa]));
    assert_eq!(r.custom_format(&d.format), "AA");
    assert_eq!(d.code.curr, 1);
}

fn empty_tree_decoder(code: Vec<u8>) -> Decoder {
    Decoder {
        context: Context::default(),
        format: InstructionFormatting::default(),
        tree: InstructionTree::from_tables(&Vec::new()).unwrap(),
        code: ByteString { code, curr: 0 },
    }
}

#[test]
fn a_failed_decode_reports_the_byte_it_skips() {
    let mut d = empty_tree_decoder(vec![0x0f, 0x0b, 0x90]);
    let r = d.parse_one();
    assert!(r.instruction.is_none() && r.operands.is_none() && r.prefixes.is_none());
    assert_eq!(r.bytes, Some(vec![0x0f]));
    assert_eq!(d.code.curr, 1);
    let rest = d.parse();
    let bytes: Vec<Option<Vec<u8>>> = rest.into_iter().map(|r| r.bytes).collect();
    assert_eq!(bytes, vec![Some(vec![0x0b]), Some(vec![0x90])]);
}

#[test]
fn decoding_runs_to_the_last_byte() {
    let mut d = empty_tree_decoder(vec![0x90]);
    let rs = d.parse();
    assert_eq!(rs.len(), 1);
    assert!(rs[0].instruction.is_none());
    assert_eq!(rs[0].bytes, Some(vec![0x90]));
    let mut n = decoder_for(vec![0x90]);
    let rs = n.parse();
    assert_eq!(texts(&n, &rs), vec!["NOP"]);
    assert_eq!(n.code.curr, 1);
}

#[test]
fn nothing_left_to_decode() {
    let mut d = decoder_for(Vec::new());
    let r = d.parse_one();
    assert!(r.bytes.is_none());
    assert_eq!(r.custom_format(&d.format), "Failed to parse");
    assert!(d.parse().is_empty());
    let mut e = decoder_for(vec![0x90]);
    e.parse_one();
    assert!(e.parse_one().bytes.is_none());
}

#[test]
fn sib_base_five_under_mod_zero_is_a_displacement_alone() {
    let mut d = decoder_for(vec![0x01, 0x04, 0x8d, 0x10, 0, 0, 0, 0x90]);
    let r = d.parse_one();
    assert_eq!(r.custom_format(&d.format), "ADD dword [RCX*4+0x10], EAX");
    assert_eq!(r.bytes, Some(vec![0x01, 0x04, 0x8d, 0x10, 0, 0, 0]));
    match &r.operands.as_ref().unwrap()[0] {
        Operand::Addr(a) => {
            assert!(a.no_base);
            assert_eq!((a.index, a.scale), (Some(1), SIBScale::Quad));
            assert!(a.rm_disp.is_none());
            assert_eq!(a.sib_disp.map(|d| d.value), Some(0x10));
        }
        _ => panic!("expected a memory operand"),
    }
    assert_eq!(d.code.curr, 7);
}

#[test]
fn sib_base_five_under_mod_one_reads_one_displacement() {
    let mut d = decoder_for(vec![0x01, 0x44, 0x8d, 0x08, 0x90]);
    let r = d.parse_one();
    assert_eq!(r.custom_format(&d.format), "ADD dword [RCX*4+RBP+0x8], EAX");
    assert_eq!(r.bytes, Some(vec![0x01, 0x44, 0x8d, 0x08]));
    match &r.operands.as_ref().unwrap()[0] {
        Operand::Addr(a) => {
            assert!(!a.no_base);
            assert_eq!(a.base, 5);
            assert_eq!(a.rm_disp.map(|d| d.value), Some(8));
            assert!(a.sib_disp.is_none());
        }
        _ => panic!("expected a memory operand"),
    }
    assert_eq!(d.code.curr, 4);
    let rest = d.parse();
    assert_eq!(texts(&d, &rest), vec!["NOP"]);
}

#[test]
fn a_mib_operand_is_listed() {
    let bndldx = Instruction {
        opcode: String::from("0F 1A /r"),
        text: String::from("BNDLDX bnd, mib"),
        x64: true,
        legacy: true,
        operands: Some(vec![
            GenericOperand {
                size: OperandSize::Any,
                encoding: OperandEncoding::Modreg,
                reg: Some(RegisterType::BoundReg),
                text: String::from("bnd"),
            },
            GenericOperand {
                size: OperandSize::Any,
                encoding: OperandEncoding::Bespoke,
                reg: None,
                text: String::from("mib"),
            },
        ]),
        size: OperandSize::Any,
        invalid_prefixes: Vec::new(),
        description: String::new(),
    };
    let mut d = Decoder {
        context: Context::default(),
        format: InstructionFormatting::default(),
        tree: InstructionTree::from_tables(&vec![vec![bndldx]]).unwrap(),
        code: ByteString { code: vec![0x0f, 0x1a, 0x04, 0x8d, 0x10, 0, 0, 0], curr: 0 },
    };
    let r = d.parse_one();
    let ops = r.operands.as_ref().unwrap();
    assert_eq!(ops.len(), 2);
    match &ops[1] {
        Operand::Addr(a) => {
            assert!(a.no_base);
            assert_eq!(a.sib_disp.map(|d| d.value), Some(0x10));
            assert_eq!(a.dest_size, OperandSize::Double);
        }
        _ => panic!("expected a memory operand"),
    }
    assert_eq!(r.bytes, Some(vec![0x0f, 0x1a, 0x04, 0x8d, 0x10, 0, 0, 0]));
    assert_eq!(r.custom_format(&d.format), "BNDLDX BND0, dword [0x10]");
}

#[test]
fn parse_n_gives_the_start_of_parse() {
    let code = vec![0x90, 0xb9, 1, 0, 0, 0, 0x90, 0x90];
    let mut all = decoder_for(code.clone());
    let everything = all.parse();
    let mut some = decoder_for(code.clone());
    let first = some.parse_n(2);
    assert_eq!(first.len(), 2);
    assert_eq!(texts(&some, &first), texts(&all, &everything[..2]));
    let rest = some.parse_n(10);
    assert_eq!(first.len() + rest.len(), everything.len());
    assert_eq!(texts(&some, &rest), texts(&all, &everything[2..]));
    let mut bounded = decoder_for(code);
    let whole = bounded.parse_n(100);
    assert_eq!(texts(&bounded, &whole), texts(&all, &everything));
}

#[test]
fn parse_instruction_reports_opcode_size_and_prefixes() {
    let mut d = decoder_for(vec![0xf3, 0x90]);
    let r = d.parse_instruction();
    assert_eq!(r.val.unwrap().text, "NOP");
    assert_eq!(r.size, 1);
    assert_eq!(r.prefixes, Some(vec![0xf3]));
    assert_eq!(d.context.one, 0xf3);
}

#[test]
fn loading_and_appending_code() {
    let mut d = decoder_for(Vec::new());
    assert!(!d.has_code());
    d.load_code(&vec![0x90]);
    assert!(d.has_code());
    d.append_code(&vec![0x90]);
    assert_eq!(d.code.code, vec![0x90, 0x90]);
    assert_eq!(d.parse().len(), 2);
}

#[test]
fn instruction_text_in_lower_case() {
    let mut d = decoder_for(vec![0xb8, 1, 0, 0, 0]);
    d.format.ins_uppercase = false;
    d.format.reg_uppercase = false;
    let r = d.parse_one();
    assert_eq!(r.custom_format(&d.format), "mov eax, 0x1");
}

#[test]
fn an_instruction_without_prefixes_starts_from_a_clean_context() {
    let mut d = decoder_for(vec![0x90]);
    d.context.op_override = true;
    d.context.addr_override = true;
    d.context.one = 0xf3;
    d.context.two = 0x2e;
    d.context.rex = Some(decoder::decoder::Rex::from(0x48));
    let r = d.parse_instruction();
    assert_eq!(r.prefixes, Some(vec![]));
    assert!(!d.context.op_override && !d.context.addr_override);
    assert_eq!((d.context.one, d.context.two), (0, 0));
    assert!(d.context.rex.is_none());
    assert_eq!(d.context.size, Context::default().size);
}

#[test]
fn parse_n_stops_at_the_limit_or_the_end() {
    let mut d = decoder_for(vec![0x90, 0x90, 0x90]);
    assert!(d.parse_n(0).is_empty());
    assert_eq!(d.code.curr, 0);
    assert_eq!(d.parse_n(2).len(), 2);
    let rest = d.parse_n(5);
    assert_eq!(rest.len(), 1);
    assert!(d.code.is_end());
}

#[test]
fn every_answer_of_parse_holds_bytes() {
    let code = vec![0xaa, 0x90, 0xb9, 1, 0, 0, 0, 0xcc];
    let n = code.len();
    let mut d = decoder_for(code);
    let rs = d.parse();
    assert!(rs.len() <= n);
    assert!(rs.iter().all(|r| r.bytes.is_some()));
    assert_eq!(rs.len(), 3);
}
