use decoder::instruction_tree::{
    GenericOperand, Instruction, InstructionJSON, InstructionTree, Node, OpByte, OperandEncoding,
    OperandSize, RegisterType,
};

fn exact(code: u8) -> OpByte {
    OpByte { code, mask: 0xff, inv_code: 0, inv_mask: 0 }
}

fn legacy(opcode: &str, text: &str, operands: Option<Vec<&str>>, description: &str) -> InstructionJSON {
    InstructionJSON {
        opcode: String::from(opcode),
        text: String::from(text),
        x64: String::from("Valid"),
        legacy: String::from("Valid"),
        operands: operands.map(|v| v.into_iter().map(String::from).collect()),
        description: String::from(description),
    }
}

fn table() -> Vec<Vec<Instruction>> {
    let nop = legacy("90", "NOP", None, "No operation");
    let mov = legacy("B8+rd id", "MOV r32, imm32", Some(vec!["opcode + rd (w)", "imm8/16/32/64"]), "Move imm32 to r32");
    let add = legacy("01 /r", "ADD r/m32, r32", Some(vec!["ModRM:r/m (r, w)", "ModRM:reg (r)"]), "Add r32 to r/m32");
    InstructionTree::from_legacy_tables(&vec![vec![nop, mov], vec![add]]).unwrap()
}

#[test]
fn opcode_text_to_pattern_bytes() {
    let p = |s: &str| InstructionTree::parse_opcode(&String::from(s));
    assert_eq!(p("0F 20 /r"), Some(vec![exact(0x0f), exact(0x20)]));
    assert_eq!(p("D8 /0"), Some(vec![exact(0xd8), OpByte { code: 0, mask: 0x38, inv_code: 0, inv_mask: 0 }]));
    assert_eq!(p("DD /7"), Some(vec![exact(0xdd), OpByte { code: 0x38, mask: 0x38, inv_code: 0, inv_mask: 0 }]));
    assert_eq!(p("B8+rd id"), Some(vec![OpByte { code: 0xb8, mask: 0xf8, inv_code: 0, inv_mask: 0 }]));
    assert_eq!(p("C7 /0 id"), Some(vec![exact(0xc7), OpByte { code: 0, mask: 0x38, inv_code: 0, inv_mask: 0 }]));
    assert_eq!(p("NP 0F 10 /r"), Some(vec![exact(0x0f), exact(0x10)]));
    assert_eq!(p("REX.W"), Some(vec![OpByte { code: 0x48, mask: 0xf8, inv_code: 0, inv_mask: 0 }]));
    assert_eq!(p("REX.R"), Some(vec![OpByte { code: 0x40, mask: 0xf8, inv_code: 0, inv_mask: 0 }]));
    assert_eq!(p("11:rrr:bbb"), Some(vec![OpByte { code: 0xc0, mask: 0xc0, inv_code: 0, inv_mask: 0 }]));
    assert_eq!(p("ZZ"), None);
}

#[test]
fn legacy_entries_become_instructions() {
    let t = table();
    assert_eq!(t.len(), 2);
    let mov = &t[0][1];
    assert!(mov.x64 && mov.legacy);
    assert_eq!(mov.size, OperandSize::Double);
    assert!(mov.invalid_prefixes.is_empty());
    let ops = mov.operands.as_ref().unwrap();
    assert_eq!(ops.len(), 2);
    assert_eq!((ops[0].size, ops[0].encoding, ops[0].reg), (OperandSize::Double, OperandEncoding::Opcode, Some(RegisterType::GPReg)));
    assert_eq!(ops[0].text, "r32");
    assert_eq!((ops[1].size, ops[1].encoding, ops[1].reg), (OperandSize::Double, OperandEncoding::Immediate, None));
    assert_eq!(ops[1].text, "imm32");
    let add = &t[1][0];
    let ops = add.operands.as_ref().unwrap();
    assert_eq!((ops[0].encoding, ops[0].reg), (OperandEncoding::Modrm, Some(RegisterType::GPReg)));
    assert_eq!(ops[0].text, "r/m32");
    assert_eq!((ops[1].encoding, ops[1].reg), (OperandEncoding::Modreg, Some(RegisterType::GPReg)));
    let nop = &t[0][0];
    assert!(nop.operands.is_none());
    assert_eq!(nop.size, OperandSize::Any);
}

#[test]
fn prefix_rules_from_the_opcode() {
    let np = InstructionTree::convert_legacy(&legacy("NP 0F 10 /r", "MOVUPS xmm1, xmm2/m128", Some(vec!["ModRM:reg (w)", "ModRM:r/m (r)"]), "Move")).unwrap();
    assert_eq!(np.invalid_prefixes, vec![0xf2, 0xf3, 0x66]);
    assert_eq!(np.size, OperandSize::DoubleQuad);
    let nfx = InstructionTree::convert_legacy(&legacy("NFx 0F AE /7", "CLFLUSH m8", Some(vec!["ModRM:r/m (w)"]), "Flush")).unwrap();
    assert_eq!(nfx.invalid_prefixes, vec![0xf2, 0xf3]);
    let na = InstructionTree::convert_legacy(&legacy("F4", "HLT", Some(vec!["N/A"]), "Halt")).unwrap();
    assert!(na.operands.is_none());
}

#[test]
fn traversal_finds_instructions_under_their_opcodes() {
    let mut tree = InstructionTree::from_tables(&table()).unwrap();
    let r = tree.traverse(&vec![0x90]);
    assert_eq!(r.val.len(), 1);
    assert_eq!(r.val[0].text, "NOP");
    assert!(r.bottom);
    let r = tree.traverse(&vec![0xbb]);
    assert_eq!(r.val.len(), 1);
    assert_eq!(r.val[0].text, "MOV r32, imm32");
    let r = tree.traverse(&vec![0x0f]);
    assert!(r.val.is_empty());
    assert!(r.bottom);
}

#[test]
fn stepping_from_the_root_and_resetting() {
    let mut tree = InstructionTree::from_tables(&table()).unwrap();
    let r = tree.step(0x01);
    assert_eq!(r.val.len(), 1);
    assert_eq!(r.val[0].text, "ADD r/m32, r32");
    assert!(r.bottom);
    assert_ne!(tree.current(), 0);
    tree.reset();
    assert_eq!(tree.current(), 0);
    let r = tree.step(0x0f);
    assert!(r.val.is_empty() && r.bottom);
    assert_eq!(tree.current(), 0);
}

#[test]
fn gathering_from_the_root_gives_everything_in_order() {
    let tree = InstructionTree::from_tables(&table()).unwrap();
    let all: Vec<&str> = tree.gather_instructions(0).iter().map(|i| i.text.as_str()).collect();
    assert_eq!(all, vec!["NOP", "MOV r32, imm32", "ADD r/m32, r32"]);
}

#[test]
fn instructions_sharing_a_pattern_share_a_node() {
    let mut t = table();
    let mut other = t[0][0].clone();
    other.text = String::from("XCHG EAX, EAX");
    t[1].push(other);
    let mut tree = InstructionTree::from_tables(&t).unwrap();
    let r = tree.traverse(&vec![0x90]);
    let names: Vec<&str> = r.val.iter().map(|i| i.text.as_str()).collect();
    assert_eq!(names, vec!["NOP", "XCHG EAX, EAX"]);
}

#[test]
fn unreadable_opcode_gives_no_tree() {
    let mut t = table();
    let mut bad = t[0][0].clone();
    bad.opcode = String::from("QQ");
    t[0].push(bad);
    assert!(InstructionTree::from_tables(&t).is_none());
}

#[test]
fn tree_parts_round_trip() {
    let tree = InstructionTree::from_tables(&table()).unwrap();
    let (nodes, root, last) = tree.into_parts();
    let n = nodes.len();
    assert_eq!((root, last), (0, 0));
    let mut back = InstructionTree::from_parts(nodes, root, last).unwrap();
    assert_eq!(back.traverse(&vec![0x90]).val.len(), 1);
    let (nodes, _, _) = back.into_parts();
    assert_eq!(nodes.len(), n);
    assert!(InstructionTree::from_parts(nodes, n, 0).is_none());
}

#[test]
fn pattern_bytes_match_under_their_masks() {
    let o = OpByte { code: 0xb8, mask: 0xf8, inv_code: 0, inv_mask: 0 };
    assert!(o.matches(0xb8) && o.matches(0xbf));
    assert!(!o.matches(0xc0));
    let not_mem = OpByte { code: 0, mask: 0, inv_code: 0xc0, inv_mask: 0xc0 };
    assert!(not_mem.matches(0x00));
    assert!(!not_mem.matches(0xc5));
    assert_eq!(OpByte::default(), exact(0));
}

#[test]
fn pattern_byte_text_form() {
    let o = OpByte { code: 0xb8, mask: 0xf8, inv_code: 0x0c, inv_mask: 0 };
    assert_eq!(o.to_text(), "B8F80C00");
    assert_eq!(OpByte::from_text(&o.to_text()), Ok(o));
    assert_eq!(OpByte::from_text("b8f80c00"), Ok(o));
    assert_eq!(OpByte::from_text("+8F80000"), Ok(OpByte { code: 8, mask: 0xf8, inv_code: 0, inv_mask: 0 }));
    assert_eq!(OpByte::from_text("B8F800"), Err(String::from("Invalid length")));
    assert_eq!(OpByte::from_text("ZZ000000"), Err(String::from("invalid digit found in string")));
}

#[test]
fn operand_views_keep_their_fields() {
    let g = GenericOperand { size: OperandSize::Word, encoding: OperandEncoding::Bespoke, reg: None, text: String::from("AX") };
    let c = g.clone();
    assert_eq!(c.text, "AX");
    assert_eq!(c.size.bits(), 16);
}

#[test]
fn nodes_compare_by_pattern_byte() {
    let a = Node { val: exact(0x90), instructions: table().remove(0), children: vec![(exact(1), 1)] };
    let b = Node { val: exact(0x90), instructions: Vec::new(), children: Vec::new() };
    let c = Node { val: exact(0x91), instructions: Vec::new(), children: Vec::new() };
    assert!(a == b);
    assert!(b != c);
}

#[test]
fn traverse_is_reset_then_steps() {
    let t = table();
    let mut walked = InstructionTree::from_tables(&t).unwrap();
    let mut stepped = InstructionTree::from_tables(&t).unwrap();
    let a: Vec<String> = walked.traverse(&vec![0xbb]).val.iter().map(|i| i.text.clone()).collect();
    stepped.step(0x90);
    stepped.reset();
    let b: Vec<String> = stepped.step(0xbb).val.iter().map(|i| i.text.clone()).collect();
    assert_eq!(a, b);
    assert_eq!(walked.current(), stepped.current());
    let missed = walked.traverse(&vec![0x0f]);
    assert!(missed.val.is_empty() && missed.bottom);
    stepped.reset();
    let step_missed = stepped.step(0x0f);
    assert!(step_missed.val.is_empty() && step_missed.bottom);
}

#[test]
fn tokens_after_the_opcode_bytes_are_ignored() {
    let p = |s: &str| InstructionTree::parse_opcode(&String::from(s));
    assert_eq!(p("B8+rd id"), p("B8+rd"));
    assert_eq!(p("0F 84 cd ib ZZ"), p("0F 84"));
    assert_eq!(p("E8 cw"), Some(vec![exact(0xe8)]));
}
