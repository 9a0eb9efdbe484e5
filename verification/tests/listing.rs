use decoder::cli::OutputFormat;
use decoder::decoder::ParseResponse;
use decoder::executable::{Executable, Section};
use decoder::format::{InstructionFormatting, NumFormat};
use decoder::listing::{can_list, output_one, output_parsed};

fn byte_response(b: u8) -> ParseResponse {
    ParseResponse { instruction: None, operands: None, bytes: Some(vec![b]), prefixes: None }
}

#[test]
fn one_response_in_each_text_format() {
    let f = InstructionFormatting::default();
    let r = byte_response(0xab);
    assert_eq!(output_one(&r, OutputFormat::PrettyPrint, &f), Some(String::from("AB\n")));
    assert_eq!(output_one(&r, OutputFormat::PlusBytes, &f), Some(String::from("AB \nAB\n")));
    assert_eq!(output_one(&r, OutputFormat::JSON, &f), None);
}

#[test]
fn bytes_are_written_in_the_format_for_opcode_bytes() {
    let mut f = InstructionFormatting::default();
    let r = ParseResponse { instruction: None, operands: None, bytes: Some(vec![0x0f, 0xff]), prefixes: None };
    f.code_fmt = NumFormat::Dec;
    assert_eq!(output_one(&r, OutputFormat::PlusBytes, &f), Some(String::from("15 255 \n0F\n")));
    f.code_fmt = NumFormat::Oct;
    assert_eq!(output_one(&r, OutputFormat::PlusBytes, &f), Some(String::from("17 377 \n0F\n")));
    f.code_fmt = NumFormat::Bi;
    assert_eq!(output_one(&r, OutputFormat::PlusBytes, &f), Some(String::from("1111 11111111 \n0F\n")));
    f.code_fmt = NumFormat::Hex;
    assert_eq!(output_one(&r, OutputFormat::PlusBytes, &f), Some(String::from("0F FF \n0F\n")));
}

#[test]
fn a_file_is_listed_section_by_section_with_addresses() {
    let f = InstructionFormatting::default();
    let exe = Executable {
        path: String::from("a.out"),
        code: vec![Section {
            name: String::from(".text"),
            offset: 0,
            size: 2,
            addr: 0x1000,
            disassembled: vec![byte_response(0xaa), byte_response(0xbb)],
        }],
        syms: Vec::new(),
        entry: 0,
        is_64: true,
    };
    assert!(can_list(&exe, &f));
    assert_eq!(
        output_parsed(&exe, OutputFormat::PrettyPrint, &f),
        Some(String::from("section .text\n0x1000\tAA\n0x1001\tBB\n\n"))
    );
    assert_eq!(
        output_parsed(&exe, OutputFormat::PlusBytes, &f),
        Some(String::from(".text\nAA \nAA\nBB \nBB\n\n"))
    );
    assert_eq!(output_parsed(&exe, OutputFormat::JSON, &f), None);
}
