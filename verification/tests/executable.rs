use decoder::cli::{default_arguments, ArgValue, Argument, Arguments};
use decoder::executable::{
    ElfFacts, ElfSection, ElfSymbol, Executable, InterContext, PeFacts, PeSection, Section, Symbol,
};
use decoder::format::InstructionFormatting;

fn put(b: &mut [u8], at: usize, v: &[u8]) {
    b[at..at + v.len()].copy_from_slice(v);
}

fn section_header(b: &mut [u8], at: usize, name: u32, ty: u32, flags: u64, addr: u64, offset: u64, size: u64, link: u32, entsize: u64) {
    put(b, at, &name.to_le_bytes());
    put(b, at + 4, &ty.to_le_bytes());
    put(b, at + 8, &flags.to_le_bytes());
    put(b, at + 16, &addr.to_le_bytes());
    put(b, at + 24, &offset.to_le_bytes());
    put(b, at + 32, &size.to_le_bytes());
    put(b, at + 40, &link.to_le_bytes());
    put(b, at + 48, &1u64.to_le_bytes());
    put(b, at + 56, &entsize.to_le_bytes());
}

/// A small 64-bit ELF file: one executable section `.text` at 0x401000 holding the entry
/// point, and one symbol `main`.
fn elf_file() -> Vec<u8> {
    let mut b = vec![0u8; 0xa0 + 5 * 64];
    put(&mut b, 0, &[0x7f, b'E', b'L', b'F', 2, 1, 1]);
    put(&mut b, 16, &2u16.to_le_bytes());
    put(&mut b, 18, &0x3eu16.to_le_bytes());
    put(&mut b, 20, &1u32.to_le_bytes());
    put(&mut b, 24, &0x401000u64.to_le_bytes());
    put(&mut b, 40, &0xa0u64.to_le_bytes());
    put(&mut b, 52, &64u16.to_le_bytes());
    put(&mut b, 54, &56u16.to_le_bytes());
    put(&mut b, 58, &64u16.to_le_bytes());
    put(&mut b, 60, &5u16.to_le_bytes());
    put(&mut b, 62, &2u16.to_le_bytes());
    put(&mut b, 0x40, &[0x90, 0x90, 0x90, 0xc3]);
    put(&mut b, 0x44, b"\0.text\0.shstrtab\0.symtab\0.strtab\0");
    // symbol 1: main
    put(&mut b, 0x68 + 24, &1u32.to_le_bytes());
    put(&mut b, 0x68 + 28, &[0x12, 0]);
    put(&mut b, 0x68 + 30, &1u16.to_le_bytes());
    put(&mut b, 0x68 + 32, &0x401000u64.to_le_bytes());
    put(&mut b, 0x68 + 40, &4u64.to_le_bytes());
    put(&mut b, 0x98, b"\0main\0");
    let sh = 0xa0;
    section_header(&mut b, sh + 64, 1, 1, 6, 0x401000, 0x40, 4, 0, 0);
    section_header(&mut b, sh + 128, 7, 3, 0, 0, 0x44, 33, 0, 0);
    section_header(&mut b, sh + 192, 17, 2, 0, 0, 0x68, 48, 4, 24);
    section_header(&mut b, sh + 256, 25, 3, 0, 0, 0x98, 6, 0, 0);
    b
}

#[test]
fn reads_the_code_sections_and_symbols_of_an_elf_file() {
    let exe = Executable::from_bytes(String::from("a.out"), &elf_file()).unwrap();
    assert_eq!(exe.path, "a.out");
    assert!(exe.is_64);
    assert_eq!(exe.code.len(), 1);
    assert_eq!(exe.code[0].name, ".text");
    assert_eq!((exe.code[0].offset, exe.code[0].size, exe.code[0].addr), (0x40, 4, 0x401000));
    assert!(exe.code[0].disassembled.is_empty());
    assert_eq!(exe.entry, 0);
    assert_eq!(exe.syms.len(), 1);
    assert_eq!(exe.syms[0].name, "main");
    assert_eq!(exe.syms[0].value, 0x401000);
}

#[test]
fn any_other_file_is_one_arbitrary_section() {
    let exe = Executable::from_bytes(String::from("raw.bin"), &[0x90, 0x90, 0xc3]).unwrap();
    assert_eq!(exe.code.len(), 1);
    assert_eq!(exe.code[0].name, "arbitrary");
    assert_eq!((exe.code[0].offset, exe.code[0].size, exe.code[0].addr), (0, 0, 0));
    assert!(exe.is_64);
    assert!(exe.syms.is_empty());
    let empty = Executable::from_bytes(String::from("empty"), &[]).unwrap();
    assert_eq!(empty.code[0].name, "arbitrary");
}

fn elf_section(name: Option<&str>, flags: u64, addr: u64, size: u64) -> ElfSection {
    ElfSection { name: name.map(String::from), flags, addr, offset: addr / 2, size }
}

#[test]
fn elf_code_sections_and_the_entry_section() {
    let facts = ElfFacts {
        is_64: false,
        entry: 0x3000,
        syms: vec![
            ElfSymbol { name: None, name_offset: 0, value: 1 },
            ElfSymbol { name: None, name_offset: 9, value: 2 },
            ElfSymbol { name: Some(String::from("f")), name_offset: 3, value: 3 },
        ],
        sections: vec![
            elf_section(Some(".data"), 3, 0x1000, 0x100),
            elf_section(Some(".init"), 6, 0x2000, 0x100),
            elf_section(None, 4, 0x2800, 0x100),
            elf_section(Some(".text"), 6, 0x3000, 0x100),
        ],
    };
    let exe = Executable::from_elf_facts(String::from("x"), facts);
    assert!(!exe.is_64);
    let names: Vec<&str> = exe.code.iter().map(|s| s.name.as_str()).collect();
    assert_eq!(names, vec![".init", ".text"]);
    assert_eq!(exe.entry, 1);
    assert_eq!(exe.code[1].offset, 0x1800);
    let syms: Vec<(&str, u64)> = exe.syms.iter().map(|s| (s.name.as_str(), s.value)).collect();
    assert_eq!(syms, vec![("", 2), ("f", 3)]);
}

#[test]
fn pe_code_sections_and_the_entry_section() {
    let sec = |name: &str, ch: u32, va: u32, vs: u32| PeSection {
        real_name: Some(String::from(name)),
        characteristics: ch,
        virtual_address: va,
        virtual_size: vs,
        size_of_raw_data: 0x200,
        pointer_to_raw_data: 0x400,
    };
    let facts = PeFacts {
        is_64: true,
        entry: 0x1010,
        image_base: 0x140000000,
        sections: vec![sec(".text", 0x60000020, 0x1000, 0x100), sec(".rdata", 0x40000040, 0x2000, 0x100)],
    };
    let exe = Executable::from_pe_facts(String::from("a.exe"), facts);
    assert_eq!(exe.code.len(), 1);
    assert_eq!(exe.code[0].name, ".text");
    assert_eq!(exe.code[0].addr, 0x140001000);
    assert_eq!((exe.code[0].offset, exe.code[0].size), (0x400, 0x200));
    assert_eq!(exe.entry, 0);
    assert!(exe.syms.is_empty());
}

#[test]
fn addresses_within_a_section() {
    let s = Section { name: String::from(".text"), offset: 0, size: 0, addr: 0x400000, disassembled: Vec::new() };
    assert_eq!(s.abs_addr(0x10), 0x400010);
}

#[test]
fn symbols_replace_their_values_in_text() {
    let exe = Executable {
        path: String::new(),
        code: Vec::new(),
        syms: vec![Symbol { name: String::from("main"), value: 0x401000 }, Symbol { name: String::from("end"), value: 0xff }],
        entry: 0,
        is_64: true,
    };
    assert_eq!(exe.replace_symbol(String::from("call 0x401000")), "call 0xmain");
    assert_eq!(exe.replace_symbol(String::from("jmp FF; jmp FF")), "jmp end; jmp end");
    assert_eq!(exe.replace_symbol(String::from("nop")), "nop");
}

#[test]
fn symbols_compared() {
    let a = Symbol { name: String::from("main"), value: 0x10 };
    let b = Symbol { name: String::from("main"), value: 0x10 };
    let c = Symbol { name: String::from("mai"), value: 0x10 };
    assert!(a.same_as(&b));
    assert!(!a.same_as(&c));
    assert!(a.matches_hex(&String::from("10")));
    assert!(a.matches_hex(&String::from("+10")));
    assert!(!a.matches_hex(&String::from("0x10")));
    assert!(!a.matches_hex(&String::from("11")));
}

fn table_with_size() -> Arguments {
    let list = vec![
        Argument::new("no-infer", "", "", ArgValue::Bool(false), vec!["--no-infer"]),
        Argument::new("offset", "", "", ArgValue::Text(String::from("16")), vec!["--offset"]),
        Argument::new("max", "", "", ArgValue::Text(String::from("32")), vec!["-m"]),
        Argument::new("size", "", "", ArgValue::Text(String::from("32")), vec!["-s"]),
    ];
    Arguments::from(list, "", "")
}

#[test]
fn command_line_decides_where_raw_code_is() {
    let mut exe = Executable::from_bytes(String::from("raw"), &[1, 2, 3]).unwrap();
    let mut opts = table_with_size();
    exe.resolve_opts(&mut opts);
    assert_eq!(exe.code.len(), 1);
    assert_eq!((exe.code[0].offset, exe.code[0].size), (16, 32));
    assert!(!exe.is_64);
}

#[test]
fn object_files_keep_their_sections_unless_told_otherwise() {
    let mut exe = Executable::from_bytes(String::from("a.out"), &elf_file()).unwrap();
    let mut opts = default_arguments();
    exe.resolve_opts(&mut opts);
    assert_eq!(exe.code[0].name, ".text");
    let mut told = table_with_size();
    told.match_flag(&String::from("--no-infer")).unwrap().value = Some(ArgValue::Bool(true));
    exe.resolve_opts(&mut told);
    assert_eq!(exe.code[0].name, "arbitrary");
    assert_eq!(exe.syms.len(), 1);
}

#[test]
fn interactive_state_copies_the_settings() {
    let exe = Executable::from_bytes(String::from("a.out"), &elf_file()).unwrap();
    let mut opts = default_arguments();
    let f = InstructionFormatting::default();
    let ctx = InterContext::build(&exe, &mut opts, &f);
    assert_eq!(ctx.opts.tree, "./tree64.json");
    assert_eq!(ctx.opts.output, "-");
    assert_eq!(ctx.opts.format, "PrettyPrint");
    assert_eq!(ctx.opts.arch, "x64");
    assert_eq!(ctx.source.path, "a.out");
    assert_eq!(ctx.source.code.len(), 1);
    assert_eq!(ctx.format.comment, ";");
}

/// A small 64-bit PE file: one code section at 0x1000 holding the entry point, and one
/// data section. With `long_names`, the code section's name `.text` is kept in the string
/// table that follows the (empty) symbol table.
fn pe_file(long_names: bool) -> Vec<u8> {
    let mut b = vec![0u8; 0x400];
    put(&mut b, 0, b"MZ");
    put(&mut b, 0x3c, &0x40u32.to_le_bytes());
    put(&mut b, 0x40, b"PE\0\0");
    let coff = 0x44;
    put(&mut b, coff, &0x8664u16.to_le_bytes());
    put(&mut b, coff + 2, &2u16.to_le_bytes());
    put(&mut b, coff + 16, &112u16.to_le_bytes());
    put(&mut b, coff + 18, &0x22u16.to_le_bytes());
    let opt = coff + 20;
    put(&mut b, opt, &0x20bu16.to_le_bytes());
    put(&mut b, opt + 4, &0x200u32.to_le_bytes());
    put(&mut b, opt + 16, &0x1010u32.to_le_bytes());
    put(&mut b, opt + 20, &0x1000u32.to_le_bytes());
    put(&mut b, opt + 24, &0x140000000u64.to_le_bytes());
    put(&mut b, opt + 32, &0x1000u32.to_le_bytes());
    put(&mut b, opt + 36, &0x200u32.to_le_bytes());
    put(&mut b, opt + 40, &6u16.to_le_bytes());
    put(&mut b, opt + 48, &6u16.to_le_bytes());
    put(&mut b, opt + 56, &0x3000u32.to_le_bytes());
    put(&mut b, opt + 60, &0x200u32.to_le_bytes());
    put(&mut b, opt + 68, &3u16.to_le_bytes());
    let sections = opt + 112;
    let mut section = |at: usize, name: &[u8], va: u32, raw: u32, ch: u32| {
        put(&mut b, at, name);
        put(&mut b, at + 8, &0x100u32.to_le_bytes());
        put(&mut b, at + 12, &va.to_le_bytes());
        put(&mut b, at + 16, &0x100u32.to_le_bytes());
        put(&mut b, at + 20, &raw.to_le_bytes());
        put(&mut b, at + 36, &ch.to_le_bytes());
    };
    if long_names {
        section(sections, b"/4", 0x1000, 0x200, 0x60000020);
    } else {
        section(sections, b".text", 0x1000, 0x200, 0x60000020);
    }
    section(sections + 40, b".data", 0x2000, 0x300, 0xc0000040);
    if long_names {
        put(&mut b, coff + 8, &0x300u32.to_le_bytes());
        put(&mut b, 0x300, &10u32.to_le_bytes());
        put(&mut b, 0x304, b".text\0");
    }
    b
}

#[test]
fn pe_code_sections_need_names_from_the_string_table() {
    assert!(Executable::from_bytes(String::from("a.exe"), &pe_file(false)).is_none());
}

#[test]
fn reads_the_code_sections_of_a_pe_file() {
    let exe = Executable::from_bytes(String::from("a.exe"), &pe_file(true)).unwrap();
    assert!(exe.is_64);
    assert_eq!(exe.code.len(), 1);
    assert_eq!(exe.code[0].name, ".text");
    assert_eq!(exe.code[0].addr, 0x140001000);
    assert_eq!((exe.code[0].offset, exe.code[0].size), (0x200, 0x100));
    assert_eq!(exe.entry, 0);
    assert!(exe.syms.is_empty());
}
