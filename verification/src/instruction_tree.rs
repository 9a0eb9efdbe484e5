//! The instruction table and the opcode tree that maps opcode bytes to instructions.
use crate::text::{lemma_split_join, digit_char, digit_value, digits_value, hex_byte, hex_byte_of, str_starts_with, occurs_at, lemma_trim_piece, lemma_contains_piece, lemma_split_len, starts_with, ends_with, contains, split, trim, parse_unsigned, regex_matches, begins, ends, has, same, chars_of, string_of, split_chars, trim_chars, parse_unsigned_of, regex_is_match};
use vstd::prelude::*;
use vstd::string::StringSliceAdditionalSpecFns;
use vstd::std_specs::cmp::PartialEqSpecImpl;

verus! {

// ---------------------------------------------------------------------------
// Operand and instruction data
// ---------------------------------------------------------------------------

/// The width of an operand.
#[derive(Clone, Copy, Debug, PartialEq, Eq, Structural)]
pub enum OperandSize {
    Any,
    Byte,
    Word,
    Double,
    Quad,
    DoubleSeg,
    Penta,
    DoubleQuad,
    QuadQuad,
    Z,
    DoubleQuadQuad,
}

impl OperandSize {
    /// The width in bits; operand sizes are ordered by it.
    pub open spec fn width(self) -> nat {
        match self {
            OperandSize::Any => 0,
            OperandSize::Byte => 8,
            OperandSize::Word => 16,
            OperandSize::Double => 32,
            OperandSize::Quad => 64,
            OperandSize::DoubleSeg => 48,
            OperandSize::Penta => 80,
            OperandSize::DoubleQuad => 128,
            OperandSize::QuadQuad => 256,
            OperandSize::Z => 384,
            OperandSize::DoubleQuadQuad => 512,
        }
    }

    /// The width in bits.
    pub fn bits(&self) -> (r: u16)
        ensures
            r == self.width(),
    {
        match self {
            OperandSize::Any => 0,
            OperandSize::Byte => 8,
            OperandSize::Word => 16,
            OperandSize::Double => 32,
            OperandSize::Quad => 64,
            OperandSize::DoubleSeg => 48,
            OperandSize::Penta => 80,
            OperandSize::DoubleQuad => 128,
            OperandSize::QuadQuad => 256,
            OperandSize::Z => 384,
            OperandSize::DoubleQuadQuad => 512,
        }
    }
}

/// How an operand is encoded in the instruction bytes.
#[derive(Clone, Copy, Debug, PartialEq, Eq, Structural)]
pub enum OperandEncoding {
    Opcode,
    Immediate,
    Modrm,
    Modreg,
    Bespoke,
}

/// The kind of a register operand.
#[derive(Clone, Copy, Debug, PartialEq, Eq, Structural)]
pub enum RegisterType {
    GPReg,
    SegReg,
    FPUReg,
    MMXReg,
    BoundReg,
    KReg,
    CtrlReg,
    DbgReg,
}

/// An operand as the instruction table describes it.
#[derive(Debug)]
pub struct GenericOperand {
    pub size: OperandSize,
    pub encoding: OperandEncoding,
    pub reg: Option<RegisterType>,
    pub text: String,
}

/// The abstract value of a `GenericOperand`.
pub ghost struct GenericOperandView {
    pub size: OperandSize,
    pub encoding: OperandEncoding,
    pub reg: Option<RegisterType>,
    pub text: Seq<char>,
}

impl View for GenericOperand {
    type V = GenericOperandView;

    open spec fn view(&self) -> GenericOperandView {
        GenericOperandView {
            size: self.size,
            encoding: self.encoding,
            reg: self.reg,
            text: self.text@,
        }
    }
}

impl Clone for GenericOperand {
    fn clone(&self) -> (r: Self)
        ensures
            r == *self,
    {
        GenericOperand {
            size: self.size,
            encoding: self.encoding,
            reg: self.reg,
            text: self.text.clone(),
        }
    }
}

/// An instruction of the table.
#[derive(Debug)]
pub struct Instruction {
    pub opcode: String,
    pub text: String,
    pub x64: bool,
    pub legacy: bool,
    pub operands: Option<Vec<GenericOperand>>,
    pub size: OperandSize,
    pub invalid_prefixes: Vec<u8>,
    pub description: String,
}

/// The abstract value of an `Instruction`.
pub ghost struct InstructionView {
    pub opcode: Seq<char>,
    pub text: Seq<char>,
    pub x64: bool,
    pub legacy: bool,
    pub operands: Option<Seq<GenericOperandView>>,
    pub size: OperandSize,
    pub invalid_prefixes: Seq<u8>,
    pub description: Seq<char>,
}

/// The abstract values of a sequence of operands.
pub open spec fn operand_views(v: Seq<GenericOperand>) -> Seq<GenericOperandView> {
    v.map_values(|o: GenericOperand| o@)
}

impl View for Instruction {
    type V = InstructionView;

    open spec fn view(&self) -> InstructionView {
        InstructionView {
            opcode: self.opcode@,
            text: self.text@,
            x64: self.x64,
            legacy: self.legacy,
            operands: match self.operands {
                Some(v) => Some(operand_views(v@)),
                None => None,
            },
            size: self.size,
            invalid_prefixes: self.invalid_prefixes@,
            description: self.description@,
        }
    }
}

impl Clone for Instruction {
    fn clone(&self) -> (r: Self)
        ensures
            r@ == self@,
    {
        let operands = match &self.operands {
            Some(v) => {
                let c = v.clone();
                assert(operand_views(c@) =~= operand_views(v@));
                Some(c)
            },
            None => None,
        };
        let prefixes = self.invalid_prefixes.clone();
        assert(prefixes@ =~= self.invalid_prefixes@);
        Instruction {
            opcode: self.opcode.clone(),
            text: self.text.clone(),
            x64: self.x64,
            legacy: self.legacy,
            operands,
            size: self.size,
            invalid_prefixes: prefixes,
            description: self.description.clone(),
        }
    }
}

/// An instruction as the older instruction tables write it.
#[derive(Debug)]
pub struct InstructionJSON {
    pub opcode: String,
    pub text: String,
    pub x64: String,
    pub legacy: String,
    pub operands: Option<Vec<String>>,
    pub description: String,
}

// ---------------------------------------------------------------------------
// Opcode bytes
// ---------------------------------------------------------------------------

/// One byte of an opcode pattern: a byte matches when its bits under `mask` equal `code`
/// and, where `inv_mask` is set, its bits under `inv_mask` differ from `inv_code`.
#[derive(Clone, Copy, Debug, PartialEq, Eq, Structural)]
pub struct OpByte {
    pub code: u8,
    pub mask: u8,
    pub inv_code: u8,
    pub inv_mask: u8,
}

/// A byte matches an opcode pattern byte.
pub open spec fn op_matches(o: OpByte, b: u8) -> bool {
    o.code == (b & o.mask) && (o.inv_mask == 0 || o.inv_code != (b & o.inv_mask))
}

/// An exact opcode byte.
pub open spec fn exact_byte(v: u8) -> OpByte {
    OpByte { code: v, mask: 255, inv_code: 0, inv_mask: 0 }
}

/// A pattern byte that matches under a mask.
pub open spec fn masked_byte(code: u8, mask: u8) -> OpByte {
    OpByte { code, mask, inv_code: 0, inv_mask: 0 }
}

impl OpByte {
    /// Whether `byte` matches this pattern byte.
    pub fn matches(&self, byte: u8) -> (r: bool)
        ensures
            r == op_matches(*self, byte),
    {
        self.code == (byte & self.mask) && (self.inv_mask == 0 || self.inv_code != (byte
            & self.inv_mask))
    }
}

impl Default for OpByte {
    fn default() -> (r: Self)
        ensures
            r == exact_byte(0),
    {
        OpByte { code: 0, mask: 255, inv_code: 0, inv_mask: 0 }
    }
}

/// The text form of a pattern byte: its four bytes in upper-case hexadecimal, two
/// digits each (`code`, `mask`, `inv_code`, `inv_mask`).
pub open spec fn op_byte_text(o: OpByte) -> Seq<char> {
    hex_byte(o.code) + hex_byte(o.mask) + hex_byte(o.inv_code) + hex_byte(o.inv_mask)
}

/// The byte written by the two characters of `s` at `i`, in hexadecimal as
/// `u8::from_str_radix` reads it.
pub open spec fn hex_pair(s: Seq<char>, i: int) -> Option<nat> {
    parse_unsigned(s.subrange(i, i + 2), 16, 255)
}

/// The pattern byte written by eight characters, if each pair is a hexadecimal byte.
pub open spec fn op_byte_of_chars(s: Seq<char>) -> Option<OpByte> {
    match (hex_pair(s, 0), hex_pair(s, 2), hex_pair(s, 4), hex_pair(s, 6)) {
        (Some(a), Some(b), Some(c), Some(d)) => Some(
            OpByte { code: a as u8, mask: b as u8, inv_code: c as u8, inv_mask: d as u8 },
        ),
        _ => None,
    }
}

/// What reading a pattern byte from text gives: an error unless the text is eight
/// bytes long, and an error unless each pair of characters is a hexadecimal byte.
pub open spec fn op_byte_read(s: &str) -> Result<OpByte, Seq<char>> {
    if s.spec_bytes().len() != 8 {
        Err("Invalid length"@)
    } else if !vstd::string::is_ascii(s) {
        Err("invalid digit found in string"@)
    } else {
        match op_byte_of_chars(s@) {
            Some(o) => Ok(o),
            None => Err("invalid digit found in string"@),
        }
    }
}

/// The abstract value of a result with a text error.
pub open spec fn text_result<T>(r: Result<T, String>) -> Result<T, Seq<char>> {
    match r {
        Ok(v) => Ok(v),
        Err(e) => Err(e@),
    }
}

fn hex_pair_of(c: &Vec<char>, i: usize) -> (r: Option<u8>)
    requires
        i + 2 <= c.len(),
    ensures
        match r {
            Some(v) => hex_pair(c@, i as int) == Some(v as nat),
            None => hex_pair(c@, i as int) is None,
        },
{
    let mut p: Vec<char> = Vec::new();
    p.push(c[i]);
    p.push(c[i + 1]);
    assert(p@ =~= c@.subrange(i as int, i + 2));
    match parse_unsigned_of(p.as_slice(), 16, 255) {
        Some(v) => Some(v as u8),
        None => None,
    }
}

impl OpByte {
    /// The text form (see `op_byte_text`).
    pub fn to_text(&self) -> (r: String)
        ensures
            r@ == op_byte_text(*self),
    {
        proof {
            lemma_hex_byte_round_trip(self.code);
            lemma_hex_byte_round_trip(self.mask);
            lemma_hex_byte_round_trip(self.inv_code);
            lemma_hex_byte_round_trip(self.inv_mask);
        }
        let mut out = hex_byte_of(self.code);
        let m = hex_byte_of(self.mask);
        let c = hex_byte_of(self.inv_code);
        let n = hex_byte_of(self.inv_mask);
        let mut k: usize = 0;
        let ghost start = out@;
        while k < 2
            invariant
                k <= 2,
                m@.len() == 2,
                c@.len() == 2,
                n@.len() == 2,
                out@ == start + m@.take(k as int),
            decreases 2 - k,
        {
            out.push(m[k]);
            assert(m@.take(k + 1) == m@.take(k as int).push(m@[k as int]));
            k = k + 1;
        }
        assert(m@.take(2) == m@);
        let ghost start = out@;
        k = 0;
        while k < 2
            invariant
                k <= 2,
                c@.len() == 2,
                n@.len() == 2,
                out@ == start + c@.take(k as int),
            decreases 2 - k,
        {
            out.push(c[k]);
            assert(c@.take(k + 1) == c@.take(k as int).push(c@[k as int]));
            k = k + 1;
        }
        assert(c@.take(2) == c@);
        let ghost start = out@;
        k = 0;
        while k < 2
            invariant
                k <= 2,
                n@.len() == 2,
                out@ == start + n@.take(k as int),
            decreases 2 - k,
        {
            out.push(n[k]);
            assert(n@.take(k + 1) == n@.take(k as int).push(n@[k as int]));
            k = k + 1;
        }
        assert(n@.take(2) == n@);
        string_of(out.as_slice())
    }

    /// Reads a pattern byte from its text form (see `op_byte_read`).
    pub fn from_text(s: &str) -> (r: Result<OpByte, String>)
        requires
            s.spec_bytes().len() == 8 ==> {
                &&& vstd::utf8::is_char_boundary(s.spec_bytes(), 2)
                &&& vstd::utf8::is_char_boundary(s.spec_bytes(), 4)
                &&& vstd::utf8::is_char_boundary(s.spec_bytes(), 6)
            },
        ensures
            text_result(r) == op_byte_read(s),
    {
        if s.as_bytes().len() != 8 {
            return Err(String::from_str("Invalid length"));
        }
        if !s.is_ascii() {
            return Err(String::from_str("invalid digit found in string"));
        }
        proof {
            vstd::string::is_ascii_spec_bytes(s);
        }
        let c = chars_of(s);
        assert(c@.len() == 8);
        let a = hex_pair_of(&c, 0);
        let b = hex_pair_of(&c, 2);
        let d = hex_pair_of(&c, 4);
        let e = hex_pair_of(&c, 6);
        match (a, b, d, e) {
            (Some(a), Some(b), Some(d), Some(e)) => Ok(
                OpByte { code: a, mask: b, inv_code: d, inv_mask: e },
            ),
            _ => Err(String::from_str("invalid digit found in string")),
        }
    }
}

/// A digit character reads back as its value.
proof fn lemma_digit_round_trip(d: nat)
    requires
        d < 16,
    ensures
        crate::text::digit_value(crate::text::digit_char(d, true), 16) == Some(d),
{
}

/// Two hexadecimal digits read back as the byte they write.
proof fn lemma_hex_byte_round_trip(b: u8)
    ensures
        hex_byte(b).len() == 2,
        parse_unsigned(hex_byte(b), 16, 255) == Some(b as nat),
        vstd::utf8::is_ascii_chars(hex_byte(b)),
{
    let hi = (b / 16) as nat;
    let lo = (b % 16) as nat;
    lemma_digit_round_trip(hi);
    lemma_digit_round_trip(lo);
    reveal_with_fuel(crate::text::digits, 2);
    let h = hex_byte(b);
    if b < 16 {
        assert(h =~= seq!['0', crate::text::digit_char(b as nat, true)]);
        lemma_digit_round_trip(0);
        assert(crate::text::digit_value('0', 16) == Some(0nat));
    } else {
        assert(h =~= seq![crate::text::digit_char(hi, true), crate::text::digit_char(lo, true)]);
    }
    reveal_with_fuel(crate::text::digits_value, 3);
    assert(h.drop_last().drop_last() =~= Seq::<char>::empty());
    assert(h[0] != '+');
}

/// The text form of a pattern byte is eight ASCII characters that read back as it.
proof fn lemma_op_byte_text_chars(o: OpByte)
    ensures
        op_byte_text(o).len() == 8,
        vstd::utf8::is_ascii_chars(op_byte_text(o)),
        op_byte_of_chars(op_byte_text(o)) == Some(o),
{
    lemma_hex_byte_round_trip(o.code);
    lemma_hex_byte_round_trip(o.mask);
    lemma_hex_byte_round_trip(o.inv_code);
    lemma_hex_byte_round_trip(o.inv_mask);
    let t = op_byte_text(o);
    assert(t.subrange(0, 2) =~= hex_byte(o.code));
    assert(t.subrange(2, 4) =~= hex_byte(o.mask));
    assert(t.subrange(4, 6) =~= hex_byte(o.inv_code));
    assert(t.subrange(6, 8) =~= hex_byte(o.inv_mask));
    assert forall|i: int| 0 <= i < t.len() implies '\0' <= #[trigger] t[i] <= '\u{7f}' by {
        if i < 2 {
            assert(t[i] == hex_byte(o.code)[i]);
        } else if i < 4 {
            assert(t[i] == hex_byte(o.mask)[i - 2]);
        } else if i < 6 {
            assert(t[i] == hex_byte(o.inv_code)[i - 4]);
        } else {
            assert(t[i] == hex_byte(o.inv_mask)[i - 6]);
        }
    }
}

/// Reading the text form of a pattern byte gives the pattern byte back.
pub proof fn lemma_op_byte_text_round_trip(o: OpByte, s: &str)
    requires
        s@ == op_byte_text(o),
    ensures
        op_byte_read(s) == Ok::<OpByte, Seq<char>>(o),
{
    lemma_op_byte_text_chars(o);
    vstd::string::is_ascii_spec_bytes(s);
    assert(vstd::string::is_ascii(s));
}

// ---------------------------------------------------------------------------
// Opcode text
// ---------------------------------------------------------------------------

/// What one space-separated piece of an opcode's text contributes to its byte pattern.
#[derive(Clone, Copy, Debug, PartialEq, Eq, Structural)]
pub enum Piece {
    /// The opcode ends here (an immediate or code offset follows).
    Stop,
    /// The piece adds no byte.
    Skip,
    /// The piece adds this pattern byte.
    Push(OpByte),
    /// The piece cannot be read.
    Bad,
}

/// State while reading a bit pattern such as `11:rrr:bbb`.
pub ghost struct BitState {
    pub mask: u8,
    pub code: u8,
    pub inv_mask: u8,
    pub inv_code: u8,
    pub i: int,
    pub neg: bool,
}

/// The state before any character of a bit pattern.
pub open spec fn bits_init() -> BitState {
    BitState { mask: 0, code: 0, inv_mask: 0, inv_code: 0, i: 7, neg: false }
}

/// One character of a bit pattern: `!` and `)` switch to and from the negated part, `1`
/// and `0` fix the next bit, `r` and `b` skip one; `None` where a bit falls outside the byte.
pub open spec fn bit_step(st: BitState, ch: char) -> Option<BitState> {
    if ch == '!' {
        Some(BitState { neg: true, ..st })
    } else if ch == ')' {
        Some(BitState { neg: !st.neg, ..st })
    } else if ch == '1' || ch == '0' {
        if 0 <= st.i <= 7 {
            let bit: u8 = (1u8 << (st.i as u8)) as u8;
            if st.neg {
                Some(
                    BitState {
                        inv_mask: st.inv_mask | bit,
                        inv_code: if ch == '1' {
                            st.inv_code | bit
                        } else {
                            st.inv_code
                        },
                        i: st.i - 1,
                        ..st
                    },
                )
            } else {
                Some(
                    BitState {
                        mask: st.mask | bit,
                        code: if ch == '1' {
                            st.code | bit
                        } else {
                            st.code
                        },
                        i: st.i - 1,
                        ..st
                    },
                )
            }
        } else {
            None
        }
    } else if ch == 'r' || ch == 'b' {
        if st.i - 1 >= i32::MIN {
            Some(BitState { i: st.i - 1, ..st })
        } else {
            None
        }
    } else {
        Some(st)
    }
}

/// The state after all characters of `c`.
pub open spec fn bits_state(c: Seq<char>) -> Option<BitState>
    decreases c.len(),
{
    if c.len() == 0 {
        Some(bits_init())
    } else {
        match bits_state(c.drop_last()) {
            Some(st) => bit_step(st, c.last()),
            None => None,
        }
    }
}

/// The pattern byte that a bit pattern such as `11:rrr:bbb` describes.
pub open spec fn bit_pattern(c: Seq<char>) -> Option<OpByte> {
    match bits_state(c) {
        Some(st) => Some(
            OpByte { code: st.code, mask: st.mask, inv_code: st.inv_code, inv_mask: st.inv_mask },
        ),
        None => None,
    }
}

/// The character is ASCII.
pub open spec fn is_ascii_char(c: char) -> bool {
    (c as u32) < 128
}

/// The opcode pieces that add no byte.
pub open spec fn ignored_code(c: Seq<char>) -> bool {
    c == "NP"@ || c == "NFx"@ || c == "cb"@ || c == "cw"@ || c == "cd"@ || c == "cp"@ || c
        == "co"@ || c == "ct"@ || c == "ib"@ || c == "iw"@ || c == "id"@ || c == "io"@ || c
        == "+i"@
}

/// The `/digit` pieces: the digit selects the `reg` field of the ModR/M byte.
pub open spec fn slash_piece(c: Seq<char>) -> Piece {
    if ends_with(c, "0"@) {
        Piece::Push(masked_byte(0x00, 0x38))
    } else if ends_with(c, "1"@) {
        Piece::Push(masked_byte(0x08, 0x38))
    } else if ends_with(c, "2"@) {
        Piece::Push(masked_byte(0x10, 0x38))
    } else if ends_with(c, "3"@) {
        Piece::Push(masked_byte(0x18, 0x38))
    } else if ends_with(c, "4"@) {
        Piece::Push(masked_byte(0x20, 0x38))
    } else if ends_with(c, "5"@) {
        Piece::Push(masked_byte(0x28, 0x38))
    } else if ends_with(c, "6"@) {
        Piece::Push(masked_byte(0x30, 0x38))
    } else if ends_with(c, "7"@) {
        Piece::Push(masked_byte(0x38, 0x38))
    } else {
        Piece::Skip
    }
}

/// What a piece of an opcode's text contributes.
pub open spec fn piece_of(c: Seq<char>) -> Piece {
    if starts_with(c, "i"@) || starts_with(c, "c"@) {
        Piece::Stop
    } else if c.len() == 2 && parse_unsigned(c, 16, 255) is Some {
        Piece::Push(exact_byte(parse_unsigned(c, 16, 255).unwrap() as u8))
    } else if ignored_code(c) {
        Piece::Skip
    } else if contains(c, "+"@) {
        if c.len() >= 2 && is_ascii_char(c[0]) && is_ascii_char(c[1]) {
            match parse_unsigned(c.take(2), 16, 255) {
                Some(v) => Piece::Push(masked_byte(v as u8, 0xf8)),
                None => Piece::Bad,
            }
        } else {
            Piece::Bad
        }
    } else if starts_with(c, "REX."@) {
        if ends_with(c, "R"@) {
            Piece::Push(masked_byte(0x40, 0xf8))
        } else {
            Piece::Push(masked_byte(0x48, 0xf8))
        }
    } else if starts_with(c, "/"@) {
        slash_piece(c)
    } else if contains(c, ":"@) {
        match bit_pattern(c) {
            Some(o) => Piece::Push(o),
            None => Piece::Bad,
        }
    } else {
        Piece::Bad
    }
}

/// The reg field of a ModR/M byte: its bits 5..3.
pub open spec fn reg_field(b: u8) -> u8 {
    ((b >> 3u8) & 7u8) as u8
}

proof fn lemma_reg_field_mask(b: u8, d: u8)
    requires
        d < 8,
    ensures
        (b & 0x38u8) == ((d << 3u8) as u8) <==> reg_field(b) == d,
{
    assert((b & 0x38u8) == ((d << 3u8) as u8) <==> ((b >> 3u8) & 7u8) == d) by (bit_vector)
        requires
            d < 8,
    ;
}

/// The opcode piece `/d` (a digit `d` from 0 to 7) adds one pattern byte, and that byte
/// matches exactly the ModR/M bytes whose reg field is `d`.
pub proof fn lemma_slash_digit_selects_reg(d: u8, b: u8)
    requires
        d < 8,
    ensures
        piece_of(seq!['/', digit_char(d as nat, false)]) matches Piece::Push(o) && (op_matches(
            o,
            b,
        ) <==> reg_field(b) == d),
{
    let c = seq!['/', digit_char(d as nat, false)];
    reveal_strlit("i");
    reveal_strlit("c");
    reveal_strlit("NP");
    reveal_strlit("NFx");
    reveal_strlit("cb");
    reveal_strlit("cw");
    reveal_strlit("cd");
    reveal_strlit("cp");
    reveal_strlit("co");
    reveal_strlit("ct");
    reveal_strlit("ib");
    reveal_strlit("iw");
    reveal_strlit("id");
    reveal_strlit("io");
    reveal_strlit("+i");
    reveal_strlit("+");
    reveal_strlit("REX.");
    reveal_strlit("/");
    reveal_strlit("0");
    reveal_strlit("1");
    reveal_strlit("2");
    reveal_strlit("3");
    reveal_strlit("4");
    reveal_strlit("5");
    reveal_strlit("6");
    reveal_strlit("7");
    let ch = digit_char(d as nat, false);
    assert(ch as u32 == 48 + d);
    assert(c.take(1) =~= seq!['/']);
    assert(!starts_with(c, "i"@));
    assert(!starts_with(c, "c"@));
    assert(parse_unsigned(c, 16, 255) is None) by {
        assert(digit_value('/', 16) is None);
        assert(c[0] == '/');
        assert(c.drop_last() =~= seq!['/']);
        assert(seq!['/'].drop_last() =~= Seq::<char>::empty());
        assert(seq!['/'].last() == '/');
        assert(digits_value(seq!['/'], 16) is None);
        assert(digits_value(c, 16) is None);
    }
    assert(!ignored_code(c)) by {
        assert(c[0] == '/');
    }
    assert(!contains(c, "+"@)) by {
        if contains(c, "+"@) {
            let i = choose|i: int| occurs_at(c, "+"@, i);
            assert(c.subrange(i, i + 1)[0] == c[i]);
        }
    }
    assert("/"@ =~= seq!['/']);
    assert(starts_with(c, "/"@));
    assert(!starts_with(c, "REX."@));
    assert(c.skip(1) =~= seq![ch]);
    assert("0"@ =~= seq!['0']);
    assert("1"@ =~= seq!['1']);
    assert("2"@ =~= seq!['2']);
    assert("3"@ =~= seq!['3']);
    assert("4"@ =~= seq!['4']);
    assert("5"@ =~= seq!['5']);
    assert("6"@ =~= seq!['6']);
    assert("7"@ =~= seq!['7']);
    if d == 0 {
        assert(ch == '0');
        assert(ends_with(c, "0"@));
    } else if d == 1 {
        assert(ch == '1');
        assert(!ends_with(c, "0"@)) by {
            if seq![ch] == seq!['0'] {
                assert(seq![ch][0] == seq!['0'][0]);
            }
        }
        assert(ends_with(c, "1"@));
    } else if d == 2 {
        assert(ch == '2');
        assert(!ends_with(c, "0"@)) by {
            if seq![ch] == seq!['0'] {
                assert(seq![ch][0] == seq!['0'][0]);
            }
        }
        assert(!ends_with(c, "1"@)) by {
            if seq![ch] == seq!['1'] {
                assert(seq![ch][0] == seq!['1'][0]);
            }
        }
        assert(ends_with(c, "2"@));
    } else if d == 3 {
        assert(ch == '3');
        assert(!ends_with(c, "0"@)) by {
            if seq![ch] == seq!['0'] {
                assert(seq![ch][0] == seq!['0'][0]);
            }
        }
        assert(!ends_with(c, "1"@)) by {
            if seq![ch] == seq!['1'] {
                assert(seq![ch][0] == seq!['1'][0]);
            }
        }
        assert(!ends_with(c, "2"@)) by {
            if seq![ch] == seq!['2'] {
                assert(seq![ch][0] == seq!['2'][0]);
            }
        }
        assert(ends_with(c, "3"@));
    } else if d == 4 {
        assert(ch == '4');
        assert(!ends_with(c, "0"@)) by {
            if seq![ch] == seq!['0'] {
                assert(seq![ch][0] == seq!['0'][0]);
            }
        }
        assert(!ends_with(c, "1"@)) by {
            if seq![ch] == seq!['1'] {
                assert(seq![ch][0] == seq!['1'][0]);
            }
        }
        assert(!ends_with(c, "2"@)) by {
            if seq![ch] == seq!['2'] {
                assert(seq![ch][0] == seq!['2'][0]);
            }
        }
        assert(!ends_with(c, "3"@)) by {
            if seq![ch] == seq!['3'] {
                assert(seq![ch][0] == seq!['3'][0]);
            }
        }
        assert(ends_with(c, "4"@));
    } else if d == 5 {
        assert(ch == '5');
        assert(!ends_with(c, "0"@)) by {
            if seq![ch] == seq!['0'] {
                assert(seq![ch][0] == seq!['0'][0]);
            }
        }
        assert(!ends_with(c, "1"@)) by {
            if seq![ch] == seq!['1'] {
                assert(seq![ch][0] == seq!['1'][0]);
            }
        }
        assert(!ends_with(c, "2"@)) by {
            if seq![ch] == seq!['2'] {
                assert(seq![ch][0] == seq!['2'][0]);
            }
        }
        assert(!ends_with(c, "3"@)) by {
            if seq![ch] == seq!['3'] {
                assert(seq![ch][0] == seq!['3'][0]);
            }
        }
        assert(!ends_with(c, "4"@)) by {
            if seq![ch] == seq!['4'] {
                assert(seq![ch][0] == seq!['4'][0]);
            }
        }
        assert(ends_with(c, "5"@));
    } else if d == 6 {
        assert(ch == '6');
        assert(!ends_with(c, "0"@)) by {
            if seq![ch] == seq!['0'] {
                assert(seq![ch][0] == seq!['0'][0]);
            }
        }
        assert(!ends_with(c, "1"@)) by {
            if seq![ch] == seq!['1'] {
                assert(seq![ch][0] == seq!['1'][0]);
            }
        }
        assert(!ends_with(c, "2"@)) by {
            if seq![ch] == seq!['2'] {
                assert(seq![ch][0] == seq!['2'][0]);
            }
        }
        assert(!ends_with(c, "3"@)) by {
            if seq![ch] == seq!['3'] {
                assert(seq![ch][0] == seq!['3'][0]);
            }
        }
        assert(!ends_with(c, "4"@)) by {
            if seq![ch] == seq!['4'] {
                assert(seq![ch][0] == seq!['4'][0]);
            }
        }
        assert(!ends_with(c, "5"@)) by {
            if seq![ch] == seq!['5'] {
                assert(seq![ch][0] == seq!['5'][0]);
            }
        }
        assert(ends_with(c, "6"@));
    } else if d == 7 {
        assert(ch == '7');
        assert(!ends_with(c, "0"@)) by {
            if seq![ch] == seq!['0'] {
                assert(seq![ch][0] == seq!['0'][0]);
            }
        }
        assert(!ends_with(c, "1"@)) by {
            if seq![ch] == seq!['1'] {
                assert(seq![ch][0] == seq!['1'][0]);
            }
        }
        assert(!ends_with(c, "2"@)) by {
            if seq![ch] == seq!['2'] {
                assert(seq![ch][0] == seq!['2'][0]);
            }
        }
        assert(!ends_with(c, "3"@)) by {
            if seq![ch] == seq!['3'] {
                assert(seq![ch][0] == seq!['3'][0]);
            }
        }
        assert(!ends_with(c, "4"@)) by {
            if seq![ch] == seq!['4'] {
                assert(seq![ch][0] == seq!['4'][0]);
            }
        }
        assert(!ends_with(c, "5"@)) by {
            if seq![ch] == seq!['5'] {
                assert(seq![ch][0] == seq!['5'][0]);
            }
        }
        assert(!ends_with(c, "6"@)) by {
            if seq![ch] == seq!['6'] {
                assert(seq![ch][0] == seq!['6'][0]);
            }
        }
        assert(ends_with(c, "7"@));
    }
    lemma_reg_field_mask(b, d);
    assert((0u8 << 3u8) == 0u8 && (1u8 << 3u8) == 0x08u8 && (2u8 << 3u8) == 0x10u8 && (3u8 << 3u8)
        == 0x18u8 && (4u8 << 3u8) == 0x20u8 && (5u8 << 3u8) == 0x28u8 && (6u8 << 3u8) == 0x30u8 && (
    7u8 << 3u8) == 0x38u8) by (bit_vector);
}

/// The byte pattern of a sequence of opcode pieces; `None` where a piece cannot be read.
pub open spec fn path_of(pieces: Seq<Seq<char>>) -> Option<Seq<OpByte>>
    decreases pieces.len(),
{
    if pieces.len() == 0 {
        Some(Seq::empty())
    } else {
        match piece_of(pieces[0]) {
            Piece::Stop => Some(Seq::empty()),
            Piece::Skip => path_of(pieces.drop_first()),
            Piece::Push(o) => match path_of(pieces.drop_first()) {
                Some(p) => Some(seq![o] + p),
                None => None,
            },
            Piece::Bad => None,
        }
    }
}

/// The byte pattern of an opcode's text, such as `REX.W + 0F 01 /7`.
pub open spec fn opcode_path(opcode: Seq<char>) -> Option<Seq<OpByte>> {
    path_of(split(opcode, ' '))
}

/// Pieces after one that stops the pattern add nothing.
proof fn lemma_path_stops(p: Seq<Seq<char>>, q: Seq<Seq<char>>)
    requires
        q.len() > 0,
        piece_of(q[0]) is Stop,
    ensures
        path_of(p + q) == path_of(p),
    decreases p.len(),
{
    if p.len() == 0 {
        assert(p + q =~= q);
    } else {
        assert((p + q)[0] == p[0]);
        assert((p + q).drop_first() =~= p.drop_first() + q);
        lemma_path_stops(p.drop_first(), q);
    }
}

/// An opcode's text may go on after its bytes with the immediate and code-offset tokens
/// (`ib`, `iw`, `cd`, ...): from the first token that begins with `i` or `c`, nothing
/// more is read, so the pattern is that of the text before it.
pub proof fn lemma_opcode_trailing_ignored(a: Seq<char>, b: Seq<char>)
    requires
        starts_with(split(b, ' ')[0], "i"@) || starts_with(split(b, ' ')[0], "c"@),
    ensures
        opcode_path(a + seq![' '] + b) == opcode_path(a),
{
    lemma_split_join(a, ' ', b);
    lemma_split_len(b, ' ');
    lemma_path_stops(split(a, ' '), split(b, ' '));
}

/// `p` in front of the pattern in `o`, if there is one.
pub open spec fn prepend(p: Seq<OpByte>, o: Option<Seq<OpByte>>) -> Option<Seq<OpByte>> {
    match o {
        Some(q) => Some(p + q),
        None => None,
    }
}

proof fn lemma_bits_none(c: Seq<char>, j: int)
    requires
        0 <= j <= c.len(),
        bits_state(c.take(j)) is None,
    ensures
        bits_state(c) is None,
    decreases c.len() - j,
{
    if j < c.len() {
        assert(c.take(j + 1).drop_last() == c.take(j));
        lemma_bits_none(c, j + 1);
    } else {
        assert(c.take(j) == c);
    }
}

fn bits_of(c: &[char]) -> (r: Option<OpByte>)
    ensures
        r == bit_pattern(c@),
{
    let mut mask: u8 = 0;
    let mut code: u8 = 0;
    let mut inv_mask: u8 = 0;
    let mut inv_code: u8 = 0;
    let mut i: i64 = 7;
    let mut neg = false;
    let mut k: usize = 0;
    assert(c@.take(0) =~= Seq::<char>::empty());
    while k < c.len()
        invariant
            k <= c@.len(),
            i32::MIN <= i <= 7,
            bits_state(c@.take(k as int)) == Some(
                BitState { mask, code, inv_mask, inv_code, i: i as int, neg },
            ),
        decreases c.len() - k,
    {
        let ch = c[k];
        assert(c@.take(k + 1).drop_last() == c@.take(k as int));
        assert(c@.take(k + 1).last() == ch);
        if ch == '!' {
            neg = true;
        } else if ch == ')' {
            neg = !neg;
        } else if ch == '1' || ch == '0' {
            if i < 0 {
                proof {
                    lemma_bits_none(c@, k + 1);
                }
                return None;
            }
            let bit: u8 = 1u8 << (i as u8);
            if neg {
                inv_mask = inv_mask | bit;
                if ch == '1' {
                    inv_code = inv_code | bit;
                }
            } else {
                mask = mask | bit;
                if ch == '1' {
                    code = code | bit;
                }
            }
            i = i - 1;
        } else if ch == 'r' || ch == 'b' {
            if i == i32::MIN as i64 {
                proof {
                    lemma_bits_none(c@, k + 1);
                }
                return None;
            }
            i = i - 1;
        }
        k = k + 1;
    }
    assert(c@.take(c.len() as int) == c@);
    Some(OpByte { code, mask, inv_code, inv_mask })
}

fn is_ignored_code(c: &[char]) -> (r: bool)
    ensures
        r == ignored_code(c@),
{
    same(c, "NP") || same(c, "NFx") || same(c, "cb") || same(c, "cw") || same(c, "cd") || same(
        c,
        "cp",
    ) || same(c, "co") || same(c, "ct") || same(c, "ib") || same(c, "iw") || same(c, "id")
        || same(c, "io") || same(c, "+i")
}

fn slash_piece_of(c: &[char]) -> (r: Piece)
    ensures
        r == slash_piece(c@),
{
    if ends(c, "0") {
        Piece::Push(OpByte { code: 0x00, mask: 0x38, inv_code: 0, inv_mask: 0 })
    } else if ends(c, "1") {
        Piece::Push(OpByte { code: 0x08, mask: 0x38, inv_code: 0, inv_mask: 0 })
    } else if ends(c, "2") {
        Piece::Push(OpByte { code: 0x10, mask: 0x38, inv_code: 0, inv_mask: 0 })
    } else if ends(c, "3") {
        Piece::Push(OpByte { code: 0x18, mask: 0x38, inv_code: 0, inv_mask: 0 })
    } else if ends(c, "4") {
        Piece::Push(OpByte { code: 0x20, mask: 0x38, inv_code: 0, inv_mask: 0 })
    } else if ends(c, "5") {
        Piece::Push(OpByte { code: 0x28, mask: 0x38, inv_code: 0, inv_mask: 0 })
    } else if ends(c, "6") {
        Piece::Push(OpByte { code: 0x30, mask: 0x38, inv_code: 0, inv_mask: 0 })
    } else if ends(c, "7") {
        Piece::Push(OpByte { code: 0x38, mask: 0x38, inv_code: 0, inv_mask: 0 })
    } else {
        Piece::Skip
    }
}

fn piece(c: &[char]) -> (r: Piece)
    ensures
        r == piece_of(c@),
{
    if begins(c, "i") || begins(c, "c") {
        return Piece::Stop;
    }
    if c.len() == 2 {
        if let Some(v) = parse_unsigned_of(c, 16, 255) {
            return Piece::Push(OpByte { code: v as u8, mask: 255, inv_code: 0, inv_mask: 0 });
        }
    }
    if is_ignored_code(c) {
        Piece::Skip
    } else if has(c, "+") {
        if c.len() >= 2 && (c[0] as u32) < 128 && (c[1] as u32) < 128 {
            let two = slice_take(c, 2);
            match parse_unsigned_of(two.as_slice(), 16, 255) {
                Some(v) => Piece::Push(OpByte { code: v as u8, mask: 0xf8, inv_code: 0, inv_mask: 0 }),
                None => Piece::Bad,
            }
        } else {
            Piece::Bad
        }
    } else if begins(c, "REX.") {
        if ends(c, "R") {
            Piece::Push(OpByte { code: 0x40, mask: 0xf8, inv_code: 0, inv_mask: 0 })
        } else {
            Piece::Push(OpByte { code: 0x48, mask: 0xf8, inv_code: 0, inv_mask: 0 })
        }
    } else if begins(c, "/") {
        slash_piece_of(c)
    } else if has(c, ":") {
        match bits_of(c) {
            Some(o) => Piece::Push(o),
            None => Piece::Bad,
        }
    } else {
        Piece::Bad
    }
}

/// The first `n` characters of `c`.
fn slice_take(c: &[char], n: usize) -> (r: Vec<char>)
    requires
        n <= c.len(),
    ensures
        r@ == c@.take(n as int),
{
    let mut r: Vec<char> = Vec::new();
    let mut i: usize = 0;
    while i < n
        invariant
            i <= n <= c.len(),
            r@ == c@.take(i as int),
        decreases n - i,
    {
        r.push(c[i]);
        i = i + 1;
    }
    r
}

// ---------------------------------------------------------------------------
// Instructions from the older tables
// ---------------------------------------------------------------------------

/// The abstract value of an `InstructionJSON`.
pub ghost struct InstructionJSONView {
    pub opcode: Seq<char>,
    pub text: Seq<char>,
    pub x64: Seq<char>,
    pub legacy: Seq<char>,
    pub operands: Option<Seq<Seq<char>>>,
    pub description: Seq<char>,
}

impl View for InstructionJSON {
    type V = InstructionJSONView;

    open spec fn view(&self) -> InstructionJSONView {
        InstructionJSONView {
            opcode: self.opcode@,
            text: self.text@,
            x64: self.x64@,
            legacy: self.legacy@,
            operands: match self.operands {
                Some(v) => Some(v@.map_values(|s: String| s@)),
                None => None,
            },
            description: self.description@,
        }
    }
}

/// The operand size that an operand's text names, such as `r/m64` or `xmm1`.
pub open spec fn size_of_text(t: Seq<char>) -> OperandSize {
    if ends_with(t, "512"@) {
        OperandSize::DoubleQuadQuad
    } else if ends_with(t, "384"@) {
        OperandSize::Z
    } else if ends_with(t, "256"@) {
        OperandSize::QuadQuad
    } else if ends_with(t, "128"@) || starts_with(t, "xmm"@) {
        OperandSize::DoubleQuad
    } else if ends_with(t, "80"@) {
        OperandSize::Penta
    } else if ends_with(t, "64"@) || starts_with(t, "mm"@) {
        OperandSize::Quad
    } else if ends_with(t, "32"@) {
        OperandSize::Double
    } else if ends_with(t, "16"@) {
        OperandSize::Word
    } else if ends_with(t, "8"@) {
        OperandSize::Byte
    } else {
        OperandSize::Any
    }
}

/// How an operand is encoded, from its encoding column `op` and its text `t`.
pub open spec fn encoding_of(op: Seq<char>, t: Seq<char>, size: OperandSize) -> OperandEncoding {
    if contains(op, "ModRM:reg"@) {
        OperandEncoding::Modreg
    } else if contains(op, "ModRM:r/m"@) {
        if size.width() <= 64 && contains(t, "m"@) && contains(t, "r"@) && !(contains(t, "r/m"@)
            || contains(t, "16:32"@) || starts_with(t, "mm"@)) {
            OperandEncoding::Bespoke
        } else {
            OperandEncoding::Modrm
        }
    } else if starts_with(op, "imm"@) || starts_with(op, "Offset"@) || starts_with(op, "Moffs"@) {
        OperandEncoding::Immediate
    } else if contains(op, "opcode"@) {
        OperandEncoding::Opcode
    } else {
        OperandEncoding::Bespoke
    }
}

/// The register kind of an operand, with the size and encoding it fixes.
pub open spec fn register_of(enc: OperandEncoding, t: Seq<char>, size: OperandSize) -> (
    OperandSize,
    OperandEncoding,
    Option<RegisterType>,
) {
    match enc {
        OperandEncoding::Modreg => if starts_with(t, "CR"@) {
            (OperandSize::Any, enc, Some(RegisterType::CtrlReg))
        } else if starts_with(t, "DR"@) {
            (OperandSize::Any, enc, Some(RegisterType::DbgReg))
        } else if contains(t, "mm"@) || size.width() >= 128 {
            (size, enc, Some(RegisterType::MMXReg))
        } else if t == "Sreg"@ {
            (OperandSize::Word, enc, Some(RegisterType::SegReg))
        } else {
            (size, enc, Some(RegisterType::GPReg))
        },
        OperandEncoding::Modrm => if contains(t, "m16:"@) {
            (OperandSize::Word, enc, Some(RegisterType::SegReg))
        } else if starts_with(t, "CR"@) {
            (OperandSize::Any, enc, Some(RegisterType::CtrlReg))
        } else if starts_with(t, "DR"@) {
            (OperandSize::Any, enc, Some(RegisterType::DbgReg))
        } else if contains(t, "mm"@) || size.width() >= 128 {
            (size, enc, Some(RegisterType::MMXReg))
        } else {
            (size, enc, Some(RegisterType::GPReg))
        },
        OperandEncoding::Bespoke => if contains(t, "ST"@) {
            (OperandSize::Penta, enc, Some(RegisterType::FPUReg))
        } else if contains(t, "bnd"@) {
            (OperandSize::DoubleQuad, enc, Some(RegisterType::BoundReg))
        } else if contains(t, "k1"@) {
            (OperandSize::Quad, enc, Some(RegisterType::KReg))
        } else if ends_with(t, "32&32"@) {
            (OperandSize::Quad, OperandEncoding::Modrm, None)
        } else if ends_with(t, "16&16"@) {
            (OperandSize::Double, OperandEncoding::Modrm, None)
        } else if ends_with(t, "16&64"@) {
            (OperandSize::Penta, OperandEncoding::Modrm, None)
        } else {
            (size, enc, None)
        },
        OperandEncoding::Immediate => (size, enc, None),
        OperandEncoding::Opcode => (size, enc, Some(RegisterType::GPReg)),
    }
}

/// The operand that an encoding column `op` and an operand text `t` describe; `None`
/// where a far pointer has a size that has no wider form.
pub open spec fn operand_of(op: Seq<char>, t: Seq<char>) -> Option<GenericOperandView> {
    let size0 = size_of_text(t);
    let enc0 = encoding_of(op, t, size0);
    let (size1, enc1, reg) = register_of(enc0, t, size0);
    if enc1 == OperandEncoding::Bespoke && op == "iw"@ {
        Some(
            GenericOperandView {
                size: OperandSize::Word,
                encoding: OperandEncoding::Immediate,
                reg,
                text: t,
            },
        )
    } else if enc1 == OperandEncoding::Bespoke && starts_with(t, "ptr"@) {
        match size1 {
            OperandSize::Word => Some(
                GenericOperandView {
                    size: OperandSize::Double,
                    encoding: OperandEncoding::Immediate,
                    reg,
                    text: t,
                },
            ),
            OperandSize::Double => Some(
                GenericOperandView {
                    size: OperandSize::DoubleSeg,
                    encoding: OperandEncoding::Immediate,
                    reg,
                    text: t,
                },
            ),
            OperandSize::Quad => Some(
                GenericOperandView {
                    size: OperandSize::Penta,
                    encoding: OperandEncoding::Immediate,
                    reg,
                    text: t,
                },
            ),
            _ => None,
        }
    } else {
        Some(GenericOperandView { size: size1, encoding: enc1, reg, text: t })
    }
}

/// The operands from the `i`-th on, pairing each encoding column with the operand text
/// of the same position; they end at `N/A`, `1` or an implicit operand.
pub open spec fn operand_list(ops: Seq<Seq<char>>, texts: Seq<Seq<char>>, i: int) -> Option<
    Seq<GenericOperandView>,
>
    decreases ops.len() - i,
{
    if i < 0 || i >= ops.len() || ops[i] == "N/A"@ || ops[i] == "1"@ || starts_with(
        ops[i],
        "Implicit"@,
    ) {
        Some(Seq::empty())
    } else if i >= texts.len() {
        None
    } else {
        match operand_of(ops[i], trim(texts[i])) {
            None => None,
            Some(o) => match operand_list(ops, texts, i + 1) {
                Some(l) => Some(seq![o] + l),
                None => None,
            },
        }
    }
}

/// The operand texts of an instruction's text, such as `ADD r/m64, imm8`: the pieces
/// between commas, the first without the mnemonic.
pub open spec fn operand_texts(text: Seq<char>) -> Seq<Seq<char>> {
    let pieces = split(text, ',');
    if contains(trim(pieces[0]), " "@) {
        pieces.update(0, split(pieces[0], ' ')[1])
    } else {
        pieces
    }
}

/// The operands of an older table entry: `Some(None)` where it has none, `None` where
/// it cannot be read.
pub open spec fn legacy_operands(ins: InstructionJSONView) -> Option<Option<Seq<GenericOperandView>>> {
    if ins.operands is None && !regex_matches("\\+[ir][bwdo]"@, ins.opcode) {
        Some(None)
    } else {
        let ops = match ins.operands {
            Some(o) => o,
            None => seq!["opcode"@],
        };
        if ops.len() == 0 {
            None
        } else if ops[0] == "N/A"@ {
            Some(None)
        } else {
            match operand_list(ops, operand_texts(ins.text), 0) {
                Some(l) => Some(Some(l)),
                None => None,
            }
        }
    }
}

/// The widest of the operands' sizes.
pub open spec fn max_size(ops: Seq<GenericOperandView>) -> OperandSize
    decreases ops.len(),
{
    if ops.len() == 0 {
        OperandSize::Any
    } else {
        let m = max_size(ops.drop_last());
        if ops.last().size.width() > m.width() {
            ops.last().size
        } else {
            m
        }
    }
}

/// The prefixes that an opcode's `NP` or `NFx` marking rules out.
pub open spec fn invalid_prefixes_of(opcode: Seq<char>) -> Seq<u8> {
    if contains(opcode, "NP"@) {
        seq![0xf2u8, 0xf3u8, 0x66u8]
    } else if contains(opcode, "NFx"@) {
        seq![0xf2u8, 0xf3u8]
    } else {
        Seq::empty()
    }
}

/// The instruction that an older table entry describes; `None` where it cannot be read.
pub open spec fn converted(ins: InstructionJSONView) -> Option<InstructionView> {
    match legacy_operands(ins) {
        None => None,
        Some(ops) => Some(
            InstructionView {
                opcode: ins.opcode,
                text: ins.text,
                x64: starts_with(ins.x64, "V"@),
                legacy: starts_with(ins.legacy, "V"@),
                operands: ops,
                size: match ops {
                    Some(l) => max_size(l),
                    None => OperandSize::Any,
                },
                invalid_prefixes: invalid_prefixes_of(ins.opcode),
                description: ins.description,
            },
        ),
    }
}

fn size_of_chars(t: &[char]) -> (r: OperandSize)
    ensures
        r == size_of_text(t@),
{
    if ends(t, "512") {
        OperandSize::DoubleQuadQuad
    } else if ends(t, "384") {
        OperandSize::Z
    } else if ends(t, "256") {
        OperandSize::QuadQuad
    } else if ends(t, "128") || begins(t, "xmm") {
        OperandSize::DoubleQuad
    } else if ends(t, "80") {
        OperandSize::Penta
    } else if ends(t, "64") || begins(t, "mm") {
        OperandSize::Quad
    } else if ends(t, "32") {
        OperandSize::Double
    } else if ends(t, "16") {
        OperandSize::Word
    } else if ends(t, "8") {
        OperandSize::Byte
    } else {
        OperandSize::Any
    }
}

fn encoding_of_chars(op: &[char], t: &[char], size: OperandSize) -> (r: OperandEncoding)
    ensures
        r == encoding_of(op@, t@, size),
{
    if has(op, "ModRM:reg") {
        OperandEncoding::Modreg
    } else if has(op, "ModRM:r/m") {
        if size.bits() <= 64 && has(t, "m") && has(t, "r") && !(has(t, "r/m") || has(t, "16:32")
            || begins(t, "mm")) {
            OperandEncoding::Bespoke
        } else {
            OperandEncoding::Modrm
        }
    } else if begins(op, "imm") || begins(op, "Offset") || begins(op, "Moffs") {
        OperandEncoding::Immediate
    } else if has(op, "opcode") {
        OperandEncoding::Opcode
    } else {
        OperandEncoding::Bespoke
    }
}

fn register_of_chars(enc: OperandEncoding, t: &[char], size: OperandSize) -> (r: (
    OperandSize,
    OperandEncoding,
    Option<RegisterType>,
))
    ensures
        r == register_of(enc, t@, size),
{
    match enc {
        OperandEncoding::Modreg => if begins(t, "CR") {
            (OperandSize::Any, enc, Some(RegisterType::CtrlReg))
        } else if begins(t, "DR") {
            (OperandSize::Any, enc, Some(RegisterType::DbgReg))
        } else if has(t, "mm") || size.bits() >= 128 {
            (size, enc, Some(RegisterType::MMXReg))
        } else if same(t, "Sreg") {
            (OperandSize::Word, enc, Some(RegisterType::SegReg))
        } else {
            (size, enc, Some(RegisterType::GPReg))
        },
        OperandEncoding::Modrm => if has(t, "m16:") {
            (OperandSize::Word, enc, Some(RegisterType::SegReg))
        } else if begins(t, "CR") {
            (OperandSize::Any, enc, Some(RegisterType::CtrlReg))
        } else if begins(t, "DR") {
            (OperandSize::Any, enc, Some(RegisterType::DbgReg))
        } else if has(t, "mm") || size.bits() >= 128 {
            (size, enc, Some(RegisterType::MMXReg))
        } else {
            (size, enc, Some(RegisterType::GPReg))
        },
        OperandEncoding::Bespoke => if has(t, "ST") {
            (OperandSize::Penta, enc, Some(RegisterType::FPUReg))
        } else if has(t, "bnd") {
            (OperandSize::DoubleQuad, enc, Some(RegisterType::BoundReg))
        } else if has(t, "k1") {
            (OperandSize::Quad, enc, Some(RegisterType::KReg))
        } else if ends(t, "32&32") {
            (OperandSize::Quad, OperandEncoding::Modrm, None)
        } else if ends(t, "16&16") {
            (OperandSize::Double, OperandEncoding::Modrm, None)
        } else if ends(t, "16&64") {
            (OperandSize::Penta, OperandEncoding::Modrm, None)
        } else {
            (size, enc, None)
        },
        OperandEncoding::Immediate => (size, enc, None),
        OperandEncoding::Opcode => (size, enc, Some(RegisterType::GPReg)),
    }
}

fn operand_of_chars(op: &[char], t: &[char]) -> (r: Option<GenericOperand>)
    ensures
        match r {
            Some(o) => operand_of(op@, t@) == Some(o@),
            None => operand_of(op@, t@) is None,
        },
{
    let size0 = size_of_chars(t);
    let enc0 = encoding_of_chars(op, t, size0);
    let (size1, enc1, reg) = register_of_chars(enc0, t, size0);
    let text = string_of(t);
    if enc1 == OperandEncoding::Bespoke && same(op, "iw") {
        Some(
            GenericOperand {
                size: OperandSize::Word,
                encoding: OperandEncoding::Immediate,
                reg,
                text,
            },
        )
    } else if enc1 == OperandEncoding::Bespoke && begins(t, "ptr") {
        match size1 {
            OperandSize::Word => Some(
                GenericOperand {
                    size: OperandSize::Double,
                    encoding: OperandEncoding::Immediate,
                    reg,
                    text,
                },
            ),
            OperandSize::Double => Some(
                GenericOperand {
                    size: OperandSize::DoubleSeg,
                    encoding: OperandEncoding::Immediate,
                    reg,
                    text,
                },
            ),
            OperandSize::Quad => Some(
                GenericOperand {
                    size: OperandSize::Penta,
                    encoding: OperandEncoding::Immediate,
                    reg,
                    text,
                },
            ),
            _ => None,
        }
    } else {
        Some(GenericOperand { size: size1, encoding: enc1, reg, text })
    }
}

/// The abstract values of operand lists.
pub open spec fn operands_view(o: Option<Vec<GenericOperand>>) -> Option<Seq<GenericOperandView>> {
    match o {
        Some(v) => Some(operand_views(v@)),
        None => None,
    }
}

/// `p` in front of the operand list in `o`, if there is one.
pub open spec fn prepend_operands(p: Seq<GenericOperandView>, o: Option<Seq<GenericOperandView>>) -> Option<
    Seq<GenericOperandView>,
> {
    match o {
        Some(q) => Some(p + q),
        None => None,
    }
}

fn operand_texts_of(text: &String) -> (r: Vec<Vec<char>>)
    ensures
        r@.len() == operand_texts(text@).len(),
        forall|k: int| 0 <= k < r@.len() ==> (#[trigger] r@[k])@ == operand_texts(text@)[k],
{
    let chars = chars_of(text.as_str());
    let mut pieces = split_chars(chars.as_slice(), ',');
    proof {
        lemma_split_len(text@, ',');
    }
    let first = trim_chars(pieces[0].as_slice());
    if has(first.as_slice(), " ") {
        let ghost p0 = pieces@[0]@;
        proof {
            lemma_trim_piece(p0);
            let (a, b) = choose|a: int, b: int| 0 <= a <= b <= p0.len() && trim(p0) == p0.subrange(a, b);
            lemma_contains_piece(p0, a, b, " "@);
            reveal_strlit(" ");
            let i = choose|i: int| occurs_at(p0, " "@, i);
            assert(p0.subrange(i, i + 1)[0] == p0[i]);
            assert(p0[i] == ' ');
            lemma_split_len(p0, ' ');
        }
        let sub = split_chars(pieces[0].as_slice(), ' ');
        let second = sub[1].clone();
        assert(second@ == sub@[1]@);
        pieces.set(0, second);
        proof {
            let t = operand_texts(text@);
            assert forall|k: int| 0 <= k < pieces@.len() implies (#[trigger] pieces@[k])@ == t[k] by {}
        }
    }
    pieces
}

fn ends_operand_list(op: &[char]) -> (r: bool)
    ensures
        r == (op@ == "N/A"@ || op@ == "1"@ || starts_with(op@, "Implicit"@)),
{
    same(op, "N/A") || same(op, "1") || begins(op, "Implicit")
}

fn operands_from_instruction(ins: &InstructionJSON) -> (r: Option<Option<Vec<GenericOperand>>>)
    ensures
        match r {
            Some(o) => legacy_operands(ins@) == Some(operands_view(o)),
            None => legacy_operands(ins@) is None,
        },
{
    let coded = regex_is_match("\\+[ir][bwdo]", ins.opcode.as_str());
    if ins.operands.is_none() && !coded {
        return Some(None);
    }
    let ghost iv = ins@;
    let ghost ops_v: Seq<Seq<char>> = match iv.operands {
        Some(o) => o,
        None => seq!["opcode"@],
    };
    let mut ops: Vec<Vec<char>> = Vec::new();
    match &ins.operands {
        Some(v) => {
            let mut k: usize = 0;
            while k < v.len()
                invariant
                    k <= v@.len(),
                    ins.operands == Some(*v),
                    ops_v == v@.map_values(|s: String| s@),
                    ops@.len() == k,
                    forall|j: int| 0 <= j < k ==> (#[trigger] ops@[j])@ == ops_v[j],
                decreases v.len() - k,
            {
                ops.push(chars_of(v[k].as_str()));
                k = k + 1;
            }
        },
        None => {
            ops.push(chars_of("opcode"));
        },
    }
    assert(ops@.len() == ops_v.len());
    if ops.len() == 0 {
        return None;
    }
    if same(ops[0].as_slice(), "N/A") {
        return Some(None);
    }
    let texts = operand_texts_of(&ins.text);
    let ghost texts_v = operand_texts(iv.text);
    let mut res: Vec<GenericOperand> = Vec::new();
    let mut i: usize = 0;
    while i < ops.len() && !ends_operand_list(ops[i].as_slice())
        invariant
            iv == ins@,
            !(iv.operands is None && !regex_matches("\\+[ir][bwdo]"@, iv.opcode)),
            ops_v == (match iv.operands {
                Some(o) => o,
                None => seq!["opcode"@],
            }),
            ops_v.len() > 0,
            ops_v[0] != "N/A"@,
            texts_v == operand_texts(iv.text),
            i <= ops@.len(),
            ops@.len() == ops_v.len(),
            forall|j: int| 0 <= j < ops@.len() ==> (#[trigger] ops@[j])@ == ops_v[j],
            texts@.len() == texts_v.len(),
            forall|j: int| 0 <= j < texts@.len() ==> (#[trigger] texts@[j])@ == texts_v[j],
            operand_list(ops_v, texts_v, 0) == prepend_operands(
                operand_views(res@),
                operand_list(ops_v, texts_v, i as int),
            ),
        decreases ops.len() - i,
    {
        assert(ops@[i as int]@ == ops_v[i as int]);
        if i >= texts.len() {
            return None;
        }
        assert(texts@[i as int]@ == texts_v[i as int]);
        let t = trim_chars(texts[i].as_slice());
        match operand_of_chars(ops[i].as_slice(), t.as_slice()) {
            None => {
                return None;
            },
            Some(o) => {
                proof {
                    match operand_list(ops_v, texts_v, i + 1) {
                        Some(q) => {
                            assert(operand_views(res@.push(o)) == operand_views(res@).push(o@));
                            assert(operand_views(res@) + (seq![o@] + q) =~= operand_views(
                                res@,
                            ).push(o@) + q);
                        },
                        None => {},
                    }
                }
                res.push(o);
                assert(operand_views(res@) =~= operand_views(res@));
            },
        }
        i = i + 1;
    }
    proof {
        if i < ops.len() {
            assert(ops@[i as int]@ == ops_v[i as int]);
        }
        assert(operand_list(ops_v, texts_v, i as int) == Some(Seq::<GenericOperandView>::empty()));
        assert(operand_views(res@) + Seq::<GenericOperandView>::empty() == operand_views(res@));
    }
    Some(Some(res))
}

fn size_of_operands(ops: &Vec<GenericOperand>) -> (r: OperandSize)
    ensures
        r == max_size(operand_views(ops@)),
{
    let mut m = OperandSize::Any;
    let mut k: usize = 0;
    while k < ops.len()
        invariant
            k <= ops@.len(),
            m == max_size(operand_views(ops@).take(k as int)),
        decreases ops.len() - k,
    {
        let ghost pre = operand_views(ops@).take(k as int);
        assert(operand_views(ops@).take(k + 1).drop_last() == pre);
        assert(operand_views(ops@).take(k + 1).last() == ops@[k as int]@);
        if ops[k].size.bits() > m.bits() {
            m = ops[k].size;
        }
        k = k + 1;
    }
    assert(operand_views(ops@).take(ops.len() as int) == operand_views(ops@));
    m
}

fn invalid_prefixes_for(opcode: &String) -> (r: Vec<u8>)
    ensures
        r@ == invalid_prefixes_of(opcode@),
{
    let c = chars_of(opcode.as_str());
    if has(c.as_slice(), "NP") {
        let r = vec![0xf2u8, 0xf3u8, 0x66u8];
        assert(r@ =~= seq![0xf2u8, 0xf3u8, 0x66u8]);
        r
    } else if has(c.as_slice(), "NFx") {
        let r = vec![0xf2u8, 0xf3u8];
        assert(r@ =~= seq![0xf2u8, 0xf3u8]);
        r
    } else {
        let r: Vec<u8> = Vec::new();
        assert(r@ =~= Seq::<u8>::empty());
        r
    }
}

// ---------------------------------------------------------------------------
// The tree
// ---------------------------------------------------------------------------

/// A node of the opcode tree: the instructions whose opcode ends here and the children,
/// each under the pattern byte that leads to it.
#[derive(Debug)]
pub struct Node {
    pub val: OpByte,
    pub instructions: Vec<Instruction>,
    pub children: Vec<(OpByte, usize)>,
}

/// The abstract value of a `Node`.
pub ghost struct NodeView {
    pub val: OpByte,
    pub instructions: Seq<InstructionView>,
    pub children: Seq<(OpByte, usize)>,
}

/// The abstract values of a sequence of instructions.
pub open spec fn instruction_views(v: Seq<Instruction>) -> Seq<InstructionView> {
    v.map_values(|i: Instruction| i@)
}

/// The abstract values of a sequence of instruction references.
pub open spec fn ref_views(v: Seq<&Instruction>) -> Seq<InstructionView> {
    v.map_values(|i: &Instruction| i@)
}

impl View for Node {
    type V = NodeView;

    open spec fn view(&self) -> NodeView {
        NodeView {
            val: self.val,
            instructions: instruction_views(self.instructions@),
            children: self.children@,
        }
    }
}

/// Two nodes are equal when their pattern bytes are.
impl PartialEq for Node {
    fn eq(&self, other: &Self) -> (r: bool) {
        self.val == other.val
    }
}

impl PartialEqSpecImpl for Node {
    open spec fn obeys_eq_spec() -> bool {
        true
    }

    open spec fn eq_spec(&self, other: &Node) -> bool {
        self.val == other.val
    }
}

/// The abstract values of a sequence of nodes.
pub open spec fn node_views(v: Seq<Node>) -> Seq<NodeView> {
    v.map_values(|n: Node| n@)
}

/// The first child, in order, whose pattern byte matches `b`.
pub open spec fn child_from(children: Seq<(OpByte, usize)>, b: u8, k: int) -> Option<usize>
    decreases children.len() - k,
{
    if k < 0 || k >= children.len() {
        None
    } else if op_matches(children[k].0, b) {
        Some(children[k].1)
    } else {
        child_from(children, b, k + 1)
    }
}

/// The child of node `i` that a byte leads to.
pub open spec fn child_of(nodes: Seq<NodeView>, i: int, b: u8) -> Option<usize> {
    child_from(nodes[i].children, b, 0)
}

/// All instructions at node `i` and below: the node's own first, then those under each
/// child in order.
pub open spec fn gather(nodes: Seq<NodeView>, i: int) -> Seq<InstructionView>
    decreases nodes.len() - i, 1int, 0int,
{
    if 0 <= i < nodes.len() {
        nodes[i].instructions + gather_kids(nodes, i, 0)
    } else {
        Seq::empty()
    }
}

/// The instructions under the children of node `i` from the `k`-th on.
pub open spec fn gather_kids(nodes: Seq<NodeView>, i: int, k: int) -> Seq<InstructionView>
    decreases nodes.len() - i, 0int, nodes[i].children.len() - k,
{
    if 0 <= i < nodes.len() && 0 <= k < nodes[i].children.len() {
        let c = nodes[i].children[k].1 as int;
        (if i < c < nodes.len() {
            gather(nodes, c)
        } else {
            Seq::empty()
        }) + gather_kids(nodes, i, k + 1)
    } else {
        Seq::empty()
    }
}

/// Follows `bytes` from node `i`: the node reached, and whether some byte had no child to
/// lead to (the walk then stops at the node it had reached).
pub open spec fn walk(nodes: Seq<NodeView>, i: int, bytes: Seq<u8>) -> (int, bool)
    decreases bytes.len(),
{
    if bytes.len() == 0 {
        (i, false)
    } else {
        match child_of(nodes, i, bytes[0]) {
            None => (i, true),
            Some(c) => walk(nodes, c as int, bytes.drop_first()),
        }
    }
}

/// Where one step by a byte leads from node `last`: the child it selects, or the root
/// where there is none.
pub open spec fn step_target(nodes: Seq<NodeView>, root: int, last: int, b: u8) -> int {
    match child_of(nodes, last, b) {
        Some(c) => c as int,
        None => root,
    }
}

/// The node reached by stepping by each of `bytes` in turn from node `last`.
pub open spec fn steps_from(nodes: Seq<NodeView>, root: int, last: int, bytes: Seq<u8>) -> int
    decreases bytes.len(),
{
    if bytes.len() == 0 {
        last
    } else {
        steps_from(nodes, root, step_target(nodes, root, last, bytes[0]), bytes.drop_first())
    }
}

/// `traverse` is `reset` followed by a `step` for each byte: where every byte has a child
/// to lead to, stepping from the root reaches the node that the walk reaches, and the last
/// step goes there from the node the steps before it reach, so it answers with the same
/// instructions and the same bottom flag as `traverse`; where one has not, stepping
/// reaches, before that byte, the node the walk stops at, and the step by that byte finds
/// no child, so it answers, as `traverse` does, with no instruction.
pub proof fn lemma_traverse_is_reset_then_steps(nodes: Seq<NodeView>, root: int, bytes: Seq<u8>)
    ensures
        !walk(nodes, root, bytes).1 ==> steps_from(nodes, root, root, bytes) == walk(
            nodes,
            root,
            bytes,
        ).0,
        !walk(nodes, root, bytes).1 && bytes.len() > 0 ==> {
            let m = walk(nodes, root, bytes.drop_last()).0;
            &&& !walk(nodes, root, bytes.drop_last()).1
            &&& steps_from(nodes, root, root, bytes.drop_last()) == m
            &&& child_of(nodes, m, bytes.last()) matches Some(c) && c == walk(nodes, root, bytes).0
        },
        walk(nodes, root, bytes).1 ==> exists|k: int|
            0 <= k < bytes.len() && steps_from(nodes, root, root, #[trigger] bytes.take(k))
                == walk(nodes, root, bytes).0 && child_of(
                nodes,
                walk(nodes, root, bytes).0,
                bytes[k],
            ) is None,
{
    lemma_walk_steps(nodes, root, root, bytes);
    if bytes.len() > 0 {
        lemma_walk_steps(nodes, root, root, bytes.drop_last());
        lemma_walk_then_step(nodes, root, bytes.drop_last(), bytes.last());
        assert(bytes.drop_last().push(bytes.last()) =~= bytes);
    }
}

proof fn lemma_walk_steps(nodes: Seq<NodeView>, root: int, i: int, bytes: Seq<u8>)
    ensures
        !walk(nodes, i, bytes).1 ==> steps_from(nodes, root, i, bytes) == walk(nodes, i, bytes).0,
        walk(nodes, i, bytes).1 ==> exists|k: int|
            0 <= k < bytes.len() && steps_from(nodes, root, i, #[trigger] bytes.take(k)) == walk(
                nodes,
                i,
                bytes,
            ).0 && child_of(nodes, walk(nodes, i, bytes).0, bytes[k]) is None,
    decreases bytes.len(),
{
    if bytes.len() > 0 {
        match child_of(nodes, i, bytes[0]) {
            None => {
                assert(bytes.take(0) =~= Seq::<u8>::empty());
                assert(steps_from(nodes, root, i, bytes.take(0)) == i);
            },
            Some(c) => {
                lemma_walk_steps(nodes, root, c as int, bytes.drop_first());
                if walk(nodes, i, bytes).1 {
                    let k = choose|k: int|
                        0 <= k < bytes.drop_first().len() && steps_from(
                            nodes,
                            root,
                            c as int,
                            #[trigger] bytes.drop_first().take(k),
                        ) == walk(nodes, c as int, bytes.drop_first()).0 && child_of(
                            nodes,
                            walk(nodes, c as int, bytes.drop_first()).0,
                            bytes.drop_first()[k],
                        ) is None;
                    assert(bytes.take(k + 1)[0] == bytes[0]);
                    assert(bytes.take(k + 1).drop_first() =~= bytes.drop_first().take(k));
                    assert(bytes[k + 1] == bytes.drop_first()[k]);
                    assert(steps_from(nodes, root, i, bytes.take(k + 1)) == steps_from(
                        nodes,
                        root,
                        c as int,
                        bytes.drop_first().take(k),
                    ));
                }
            },
        }
    }
}

/// A child found by `child_from` is one of the listed children.
pub proof fn lemma_child_in_range(children: Seq<(OpByte, usize)>, b: u8, k: int)
    ensures
        child_from(children, b, k) matches Some(c) ==> exists|j: int|
            0 <= j < children.len() && #[trigger] children[j].1 == c,
    decreases children.len() - k,
{
    if 0 <= k < children.len() && !op_matches(children[k].0, b) {
        lemma_child_in_range(children, b, k + 1);
    }
}

/// Every child comes after its parent and is a node of the list.
pub open spec fn nodes_wf(ns: Seq<NodeView>) -> bool {
    forall|i: int, k: int|
        0 <= i < ns.len() && 0 <= k < ns[i].children.len() ==> i < (#[trigger] ns[i].children[k]).1
            < ns.len()
}

/// A node with nothing in it.
pub open spec fn empty_node(val: OpByte) -> NodeView {
    NodeView { val, instructions: Seq::empty(), children: Seq::empty() }
}

/// The pattern byte of the root, which every byte matches.
pub open spec fn root_byte() -> OpByte {
    OpByte { code: 0, mask: 0, inv_code: 0, inv_mask: 0 }
}

/// The first child, from the `k`-th on, kept under exactly this pattern byte.
pub open spec fn exact_child(children: Seq<(OpByte, usize)>, key: OpByte, k: int) -> Option<usize>
    decreases children.len() - k,
{
    if k < 0 || k >= children.len() {
        None
    } else if children[k].0 == key {
        Some(children[k].1)
    } else {
        exact_child(children, key, k + 1)
    }
}

/// Follows `path` from node `at`, adding a node at the end of the list for each pattern
/// byte that has no child yet; the nodes afterwards and the node reached.
pub open spec fn insert_path(nodes: Seq<NodeView>, at: int, path: Seq<OpByte>) -> (Seq<NodeView>, int)
    decreases path.len(),
{
    if path.len() == 0 {
        (nodes, at)
    } else {
        match exact_child(nodes[at].children, path[0], 0) {
            Some(c) => insert_path(nodes, c as int, path.drop_first()),
            None => {
                let n = nodes.len();
                let grown = nodes.update(
                    at,
                    NodeView { children: nodes[at].children.push((path[0], n as usize)), ..nodes[at] },
                ).push(empty_node(path[0]));
                insert_path(grown, n as int, path.drop_first())
            },
        }
    }
}

/// The nodes after adding an instruction under its pattern, from the root (node 0).
pub open spec fn add_instruction(nodes: Seq<NodeView>, ins: InstructionView, path: Seq<OpByte>) -> Seq<
    NodeView,
> {
    let (ns, end) = insert_path(nodes, 0, path);
    ns.update(end, NodeView { instructions: ns[end].instructions.push(ins), ..ns[end] })
}

/// The nodes of the tree that holds the instructions, added in order to a lone root;
/// `None` where the opcode of one cannot be read.
pub open spec fn build_nodes(instrs: Seq<InstructionView>) -> Option<Seq<NodeView>>
    decreases instrs.len(),
{
    if instrs.len() == 0 {
        Some(seq![empty_node(root_byte())])
    } else {
        match build_nodes(instrs.drop_last()) {
            None => None,
            Some(ns) => match opcode_path(instrs.last().opcode) {
                None => None,
                Some(p) => Some(add_instruction(ns, instrs.last(), p)),
            },
        }
    }
}

/// The instructions of the tables, table after table.
pub open spec fn flat(tables: Seq<Seq<InstructionView>>) -> Seq<InstructionView>
    decreases tables.len(),
{
    if tables.len() == 0 {
        Seq::empty()
    } else {
        flat(tables.drop_last()) + tables.last()
    }
}

/// The abstract values of the tables.
pub open spec fn table_views(tables: Seq<Vec<Instruction>>) -> Seq<Seq<InstructionView>> {
    tables.map_values(|t: Vec<Instruction>| instruction_views(t@))
}

/// The instructions of the first tables come first.
proof fn lemma_flat_prefix(tv: Seq<Seq<InstructionView>>, t: int)
    requires
        0 <= t <= tv.len(),
    ensures
        flat(tv.take(t)).len() <= flat(tv).len(),
        flat(tv).take(flat(tv.take(t)).len() as int) == flat(tv.take(t)),
    decreases tv.len() - t,
{
    if t < tv.len() {
        lemma_flat_prefix(tv, t + 1);
        assert(tv.take(t + 1).drop_last() == tv.take(t));
        let a = flat(tv.take(t));
        let b = flat(tv.take(t + 1));
        assert(b == a + tv[t]);
        assert(flat(tv).take(a.len() as int) =~= b.take(a.len() as int));
    } else {
        assert(tv.take(t) == tv);
    }
}

/// Once the instructions up to some point cannot be placed, no longer list can.
proof fn lemma_build_none(all: Seq<InstructionView>, pre: Seq<InstructionView>)
    requires
        build_nodes(pre) is None,
        pre.len() <= all.len(),
        all.take(pre.len() as int) == pre,
    ensures
        build_nodes(all) is None,
    decreases all.len() - pre.len(),
{
    if pre.len() < all.len() {
        let longer = all.take(pre.len() as int + 1);
        assert(longer.drop_last() == pre);
        assert(all.take(longer.len() as int) == longer);
        lemma_build_none(all, longer);
    } else {
        assert(all == pre);
    }
}

fn find_exact(children: &Vec<(OpByte, usize)>, key: OpByte) -> (r: Option<usize>)
    ensures
        r == exact_child(children@, key, 0),
{
    let mut k: usize = 0;
    while k < children.len()
        invariant
            k <= children@.len(),
            exact_child(children@, key, 0) == exact_child(children@, key, k as int),
        decreases children.len() - k,
    {
        if children[k].0 == key {
            return Some(children[k].1);
        }
        k = k + 1;
    }
    None
}

proof fn lemma_exact_child_in(children: Seq<(OpByte, usize)>, key: OpByte, k: int)
    ensures
        exact_child(children, key, k) matches Some(c) ==> exists|j: int|
            0 <= j < children.len() && #[trigger] children[j].1 == c,
    decreases children.len() - k,
{
    if 0 <= k < children.len() && children[k].0 != key {
        lemma_exact_child_in(children, key, k + 1);
    }
}

fn insert_path_into(nodes: &mut Vec<Node>, path: &Vec<OpByte>) -> (end: usize)
    requires
        old(nodes)@.len() > 0,
        nodes_wf(node_views(old(nodes)@)),
    ensures
        (node_views(final(nodes)@), end as int) == insert_path(node_views(old(nodes)@), 0, path@),
        nodes_wf(node_views(final(nodes)@)),
        final(nodes)@.len() > 0,
        end < final(nodes)@.len(),
{
    let mut cur: usize = 0;
    let mut j: usize = 0;
    assert(path@.skip(0) == path@);
    while j < path.len()
        invariant
            j <= path@.len(),
            cur < nodes@.len(),
            nodes_wf(node_views(nodes@)),
            insert_path(node_views(old(nodes)@), 0, path@) == insert_path(
                node_views(nodes@),
                cur as int,
                path@.skip(j as int),
            ),
        decreases path.len() - j,
    {
        let ghost before = node_views(nodes@);
        let ghost rest = path@.skip(j as int);
        assert(rest[0] == path@[j as int]);
        assert(rest.drop_first() == path@.skip(j + 1));
        let step = path[j];
        assert(before[cur as int].children == nodes@[cur as int].children@);
        match find_exact(&nodes[cur].children, step) {
            Some(c) => {
                proof {
                    lemma_exact_child_in(before[cur as int].children, step, 0);
                }
                cur = c;
            },
            None => {
                let n = nodes.len();
                nodes[cur].children.push((step, n));
                nodes.push(Node { val: step, instructions: Vec::new(), children: Vec::new() });
                proof {
                    let grown = before.update(
                        cur as int,
                        NodeView {
                            children: before[cur as int].children.push((step, n)),
                            ..before[cur as int]
                        },
                    ).push(empty_node(step));
                    assert(instruction_views(nodes@[n as int].instructions@) =~= Seq::<InstructionView>::empty());
                    assert(node_views(nodes@)[n as int] == empty_node(step));
                    assert(node_views(nodes@)[cur as int] == grown[cur as int]);
                    assert forall|i: int| 0 <= i < grown.len() implies node_views(nodes@)[i] == grown[i] by {
                        if i != cur && i != n {
                            assert(node_views(nodes@)[i] == before[i]);
                        }
                    }
                    assert(node_views(nodes@) =~= grown);
                    assert forall|i: int, k: int|
                        0 <= i < grown.len() && 0 <= k < grown[i].children.len() implies i < (
                        #[trigger] grown[i].children[k]).1 < grown.len() by {
                        if i != cur && i < before.len() {
                            assert(grown[i] == before[i]);
                        }
                    }
                }
                cur = n;
            },
        }
        j = j + 1;
    }
    assert(path@.skip(j as int) =~= Seq::<OpByte>::empty());
    cur
}

/// The instructions at and below a node without children are its own.
pub proof fn lemma_leaf_gather(nodes: Seq<NodeView>, i: int)
    requires
        0 <= i < nodes.len(),
        nodes[i].children.len() == 0,
    ensures
        gather(nodes, i) == nodes[i].instructions,
{
    assert(gather_kids(nodes, i, 0) =~= Seq::<InstructionView>::empty());
    assert(nodes[i].instructions + Seq::<InstructionView>::empty() == nodes[i].instructions);
}

// ---------------------------------------------------------------------------
// Where an instruction is kept
// ---------------------------------------------------------------------------

/// Follows the pattern bytes `path` from node `i`, each to the child kept under exactly
/// that pattern byte; `None` where one has no such child.
pub open spec fn exact_walk(nodes: Seq<NodeView>, i: int, path: Seq<OpByte>) -> Option<int>
    decreases path.len(),
{
    if path.len() == 0 {
        Some(i)
    } else {
        match exact_child(nodes[i].children, path[0], 0) {
            None => None,
            Some(c) => exact_walk(nodes, c as int, path.drop_first()),
        }
    }
}

/// `b` keeps every node of `a` with its children and instructions first, and may have
/// more of each after them, and more nodes.
pub open spec fn grows(a: Seq<NodeView>, b: Seq<NodeView>) -> bool {
    &&& a.len() <= b.len()
    &&& forall|i: int|
        0 <= i < a.len() ==> {
            &&& a[i].children.len() <= (#[trigger] b[i]).children.len()
            &&& b[i].children.take(a[i].children.len() as int) == a[i].children
            &&& a[i].instructions.len() <= b[i].instructions.len()
            &&& b[i].instructions.take(a[i].instructions.len() as int) == a[i].instructions
        }
}

proof fn lemma_grows_trans(a: Seq<NodeView>, b: Seq<NodeView>, c: Seq<NodeView>)
    requires
        grows(a, b),
        grows(b, c),
    ensures
        grows(a, c),
{
    assert forall|i: int| 0 <= i < a.len() implies {
        &&& a[i].children.len() <= (#[trigger] c[i]).children.len()
        &&& c[i].children.take(a[i].children.len() as int) == a[i].children
        &&& a[i].instructions.len() <= c[i].instructions.len()
        &&& c[i].instructions.take(a[i].instructions.len() as int) == a[i].instructions
    } by {
        assert(c[i].children.take(a[i].children.len() as int) =~= c[i].children.take(
            b[i].children.len() as int,
        ).take(a[i].children.len() as int));
        assert(c[i].instructions.take(a[i].instructions.len() as int) =~= c[i].instructions.take(
            b[i].instructions.len() as int,
        ).take(a[i].instructions.len() as int));
    }
}

/// A child kept under a pattern byte stays the first such when more children follow.
proof fn lemma_exact_child_grows(c: Seq<(OpByte, usize)>, d: Seq<(OpByte, usize)>, key: OpByte, k: int)
    requires
        0 <= k,
        c.len() <= d.len(),
        d.take(c.len() as int) == c,
        exact_child(c, key, k) is Some,
    ensures
        exact_child(d, key, k) == exact_child(c, key, k),
    decreases c.len() - k,
{
    assert(k < c.len());
    assert(d[k] == c[k]) by {
        assert(d.take(c.len() as int)[k] == d[k]);
    }
    if c[k].0 != key {
        lemma_exact_child_grows(c, d, key, k + 1);
    }
}

/// A walk along exact pattern bytes still leads to the same node in a grown tree.
proof fn lemma_exact_walk_grows(a: Seq<NodeView>, b: Seq<NodeView>, i: int, path: Seq<OpByte>)
    requires
        grows(a, b),
        nodes_wf(a),
        0 <= i < a.len(),
        exact_walk(a, i, path) is Some,
    ensures
        exact_walk(b, i, path) == exact_walk(a, i, path),
    decreases path.len(),
{
    if path.len() > 0 {
        let c = exact_child(a[i].children, path[0], 0).unwrap();
        assert(b[i].children.take(a[i].children.len() as int) == a[i].children);
        lemma_exact_child_grows(a[i].children, b[i].children, path[0], 0);
        lemma_exact_child_in(a[i].children, path[0], 0);
        let j = choose|j: int| 0 <= j < a[i].children.len() && #[trigger] a[i].children[j].1 == c;
        assert(i < a[i].children[j].1 < a.len());
        lemma_exact_walk_grows(a, b, c as int, path.drop_first());
    }
}

/// Every child is a node of the list.
pub open spec fn children_in(ns: Seq<NodeView>) -> bool {
    forall|i: int, k: int|
        0 <= i < ns.len() && 0 <= k < ns[i].children.len() ==> (#[trigger] ns[i].children[k]).1
            < ns.len()
}

/// Following a path never removes nodes, ends at a node, and keeps every child a node.
proof fn lemma_insert_len(nodes: Seq<NodeView>, at: int, path: Seq<OpByte>)
    requires
        children_in(nodes),
        0 <= at < nodes.len(),
    ensures
        insert_path(nodes, at, path).0.len() >= nodes.len(),
        0 <= insert_path(nodes, at, path).1 < insert_path(nodes, at, path).0.len(),
        children_in(insert_path(nodes, at, path).0),
    decreases path.len(),
{
    if path.len() > 0 {
        match exact_child(nodes[at].children, path[0], 0) {
            Some(c) => {
                lemma_exact_child_in(nodes[at].children, path[0], 0);
                let j = choose|j: int| 0 <= j < nodes[at].children.len() && #[trigger] nodes[at].children[j].1 == c;
                assert(nodes[at].children[j].1 < nodes.len());
                lemma_insert_len(nodes, c as int, path.drop_first());
                assert(insert_path(nodes, at, path) == insert_path(nodes, c as int, path.drop_first()));
            },
            None => {
                let n = nodes.len();
                let grown = nodes.update(
                    at,
                    NodeView { children: nodes[at].children.push((path[0], n as usize)), ..nodes[at] },
                ).push(empty_node(path[0]));
                assert(children_in(grown)) by {
                    assert forall|i: int, k: int|
                        0 <= i < grown.len() && 0 <= k < grown[i].children.len() implies (
                        #[trigger] grown[i].children[k]).1 < grown.len() by {
                        if i < nodes.len() && !(i == at && k == nodes[at].children.len()) {
                            assert(grown[i].children[k] == nodes[i].children[k]);
                        }
                    }
                }
                lemma_insert_len(grown, n as int, path.drop_first());
                assert(insert_path(nodes, at, path) == insert_path(grown, n as int, path.drop_first()));
            },
        }
    }
}

/// Adding an instruction keeps the number of nodes that following its path gives.
proof fn lemma_add_len(nodes: Seq<NodeView>, ins: InstructionView, path: Seq<OpByte>)
    requires
        children_in(nodes),
        nodes.len() > 0,
    ensures
        add_instruction(nodes, ins, path).len() == insert_path(nodes, 0, path).0.len(),
        add_instruction(nodes, ins, path).len() >= nodes.len(),
{
    lemma_insert_len(nodes, 0, path);
}

/// Following a path adds to the tree without changing what was there, keeps every child
/// after its parent, and ends where the exact walk along the path ends.
proof fn lemma_insert_path(nodes: Seq<NodeView>, at: int, path: Seq<OpByte>)
    requires
        nodes_wf(nodes),
        0 <= at < nodes.len(),
        insert_path(nodes, at, path).0.len() <= usize::MAX,
    ensures
        ({
            let (ns, end) = insert_path(nodes, at, path);
            &&& grows(nodes, ns)
            &&& nodes_wf(ns)
            &&& 0 <= end < ns.len()
            &&& exact_walk(ns, at, path) == Some(end)
        }),
    decreases path.len(),
{
    if path.len() > 0 {
        match exact_child(nodes[at].children, path[0], 0) {
            Some(c) => {
                lemma_exact_child_in(nodes[at].children, path[0], 0);
                let j = choose|j: int| 0 <= j < nodes[at].children.len() && #[trigger] nodes[at].children[j].1 == c;
                assert(at < nodes[at].children[j].1 < nodes.len());
                lemma_insert_path(nodes, c as int, path.drop_first());
                let (ns, end) = insert_path(nodes, c as int, path.drop_first());
                let ch = nodes[at].children;
                assert(ns[at].children.take(ch.len() as int) == ch);
                lemma_exact_child_grows(ch, ns[at].children, path[0], 0);
            },
            None => {
                let n = nodes.len();
                let grown = nodes.update(
                    at,
                    NodeView { children: nodes[at].children.push((path[0], n as usize)), ..nodes[at] },
                ).push(empty_node(path[0]));
                assert(children_in(grown)) by {
                    assert forall|i: int, k: int|
                        0 <= i < grown.len() && 0 <= k < grown[i].children.len() implies (
                        #[trigger] grown[i].children[k]).1 < grown.len() by {
                        if i < nodes.len() && !(i == at && k == nodes[at].children.len()) {
                            assert(grown[i].children[k] == nodes[i].children[k]);
                        }
                    }
                }
                lemma_insert_len(grown, n as int, path.drop_first());
                assert(n < usize::MAX);
                assert(grows(nodes, grown)) by {
                    assert forall|i: int| 0 <= i < nodes.len() implies {
                        &&& nodes[i].children.len() <= (#[trigger] grown[i]).children.len()
                        &&& grown[i].children.take(nodes[i].children.len() as int) == nodes[i].children
                        &&& nodes[i].instructions.len() <= grown[i].instructions.len()
                        &&& grown[i].instructions.take(nodes[i].instructions.len() as int) == nodes[i].instructions
                    } by {
                        if i == at {
                            assert(grown[i].children.take(nodes[i].children.len() as int) =~= nodes[i].children);
                        }
                        assert(grown[i].instructions.take(nodes[i].instructions.len() as int) =~= nodes[i].instructions);
                        assert(grown[i].children.take(nodes[i].children.len() as int) =~= nodes[i].children);
                    }
                }
                assert(nodes_wf(grown)) by {
                    assert forall|i: int, k: int|
                        0 <= i < grown.len() && 0 <= k < grown[i].children.len() implies i < (
                        #[trigger] grown[i].children[k]).1 < grown.len() by {
                        if i == at && k == nodes[at].children.len() {
                        } else if i < nodes.len() {
                            assert(grown[i].children[k] == nodes[i].children[k]);
                        }
                    }
                }
                assert(exact_child(grown[at].children, path[0], 0) == Some(n as usize)) by {
                    lemma_exact_child_last(nodes[at].children, path[0], n as usize, 0);
                }
                lemma_insert_path(grown, n as int, path.drop_first());
                let (ns, end) = insert_path(grown, n as int, path.drop_first());
                lemma_grows_trans(nodes, grown, ns);
                let ch = grown[at].children;
                assert(ns[at].children.take(ch.len() as int) == ch);
                lemma_exact_child_grows(ch, ns[at].children, path[0], 0);
            },
        }
    } else {
        assert forall|i: int| 0 <= i < nodes.len() implies {
            &&& nodes[i].children.len() <= (#[trigger] nodes[i]).children.len()
            &&& nodes[i].children.take(nodes[i].children.len() as int) == nodes[i].children
            &&& nodes[i].instructions.len() <= nodes[i].instructions.len()
            &&& nodes[i].instructions.take(nodes[i].instructions.len() as int) == nodes[i].instructions
        } by {
            assert(nodes[i].children.take(nodes[i].children.len() as int) =~= nodes[i].children);
            assert(nodes[i].instructions.take(nodes[i].instructions.len() as int) =~= nodes[i].instructions);
        }
    }
}

/// A child added last under a pattern byte that no child had is the one found for it.
proof fn lemma_exact_child_last(c: Seq<(OpByte, usize)>, key: OpByte, n: usize, k: int)
    requires
        0 <= k <= c.len(),
        exact_child(c, key, k) is None,
    ensures
        exact_child(c.push((key, n)), key, k) == Some(n),
    decreases c.len() - k,
{
    if k < c.len() {
        assert(c.push((key, n))[k] == c[k]);
        lemma_exact_child_last(c, key, n, k + 1);
    }
}

/// Adding an instruction grows the tree and puts the instruction last among those at the
/// node that its pattern leads to exactly from the root.
proof fn lemma_add_instruction(nodes: Seq<NodeView>, ins: InstructionView, path: Seq<OpByte>)
    requires
        nodes_wf(nodes),
        nodes.len() > 0,
        add_instruction(nodes, ins, path).len() <= usize::MAX,
    ensures
        ({
            let ns = add_instruction(nodes, ins, path);
            let end = insert_path(nodes, 0, path).1;
            &&& grows(nodes, ns)
            &&& nodes_wf(ns)
            &&& ns.len() > 0
            &&& exact_walk(ns, 0, path) == Some(end)
            &&& ns[end].instructions.last() == ins
            &&& ns[end].instructions.len() > 0
        }),
{
    lemma_add_len(nodes, ins, path);
    lemma_insert_path(nodes, 0, path);
    let (mid, end) = insert_path(nodes, 0, path);
    let ns = add_instruction(nodes, ins, path);
    assert(grows(mid, ns)) by {
        assert forall|i: int| 0 <= i < mid.len() implies {
            &&& mid[i].children.len() <= (#[trigger] ns[i]).children.len()
            &&& ns[i].children.take(mid[i].children.len() as int) == mid[i].children
            &&& mid[i].instructions.len() <= ns[i].instructions.len()
            &&& ns[i].instructions.take(mid[i].instructions.len() as int) == mid[i].instructions
        } by {
            assert(ns[i].children.take(mid[i].children.len() as int) =~= mid[i].children);
            assert(ns[i].instructions.take(mid[i].instructions.len() as int) =~= mid[i].instructions);
        }
    }
    lemma_grows_trans(nodes, mid, ns);
    assert(nodes_wf(ns)) by {
        assert forall|i: int, k: int|
            0 <= i < ns.len() && 0 <= k < ns[i].children.len() implies i < (
            #[trigger] ns[i].children[k]).1 < ns.len() by {
            assert(ns[i].children == mid[i].children);
        }
    }
    lemma_exact_walk_grows(mid, ns, 0, path);
}

/// Building from more instructions never gives fewer nodes.
proof fn lemma_build_len(instrs: Seq<InstructionView>)
    requires
        instrs.len() > 0,
        build_nodes(instrs) is Some,
    ensures
        build_nodes(instrs.drop_last()) is Some,
        build_nodes(instrs.drop_last()).unwrap().len() <= build_nodes(instrs).unwrap().len(),
{
    lemma_build_children_in(instrs.drop_last());
    let prev = build_nodes(instrs.drop_last()).unwrap();
    let p = opcode_path(instrs.last().opcode).unwrap();
    lemma_insert_len(prev, 0, p);
    lemma_add_len(prev, instrs.last(), p);
}

/// In a tree built from instructions every child is a node, and there is a root.
proof fn lemma_build_children_in(instrs: Seq<InstructionView>)
    ensures
        build_nodes(instrs) matches Some(ns) ==> children_in(ns) && ns.len() > 0,
    decreases instrs.len(),
{
    if instrs.len() > 0 {
        lemma_build_children_in(instrs.drop_last());
        match build_nodes(instrs.drop_last()) {
            None => {},
            Some(prev) => match opcode_path(instrs.last().opcode) {
                None => {},
                Some(p) => {
                    lemma_insert_len(prev, 0, p);
                    let mid = insert_path(prev, 0, p).0;
                    let ns = add_instruction(prev, instrs.last(), p);
                    assert(children_in(ns)) by {
                        assert forall|i: int, k: int|
                            0 <= i < ns.len() && 0 <= k < ns[i].children.len() implies (
                            #[trigger] ns[i].children[k]).1 < ns.len() by {
                            assert(ns[i].children == mid[i].children);
                        }
                    }
                },
            },
        }
    } else {
        assert(children_in(seq![empty_node(root_byte())]));
    }
}

/// A tree built from instructions is well formed and has a root.
proof fn lemma_build_wf(instrs: Seq<InstructionView>)
    requires
        build_nodes(instrs) matches Some(ns) ==> ns.len() <= usize::MAX,
    ensures
        build_nodes(instrs) matches Some(ns) ==> nodes_wf(ns) && ns.len() > 0,
    decreases instrs.len(),
{
    if instrs.len() > 0 && build_nodes(instrs) is Some {
        lemma_build_len(instrs);
        lemma_build_wf(instrs.drop_last());
        match build_nodes(instrs.drop_last()) {
            None => {},
            Some(ns) => match opcode_path(instrs.last().opcode) {
                None => {},
                Some(p) => {
                    lemma_add_instruction(ns, instrs.last(), p);
                },
            },
        }
    } else if instrs.len() == 0 {
        assert(nodes_wf(seq![empty_node(root_byte())]));
    }
}

/// Every instruction of the tables is kept, in the tree built from them, at the node that
/// its opcode's pattern leads to exactly from the root.
pub proof fn lemma_built_instruction_found(instrs: Seq<InstructionView>, k: int)
    requires
        0 <= k < instrs.len(),
        build_nodes(instrs) is Some,
        build_nodes(instrs).unwrap().len() <= usize::MAX,
    ensures
        opcode_path(instrs[k].opcode) matches Some(p) && ({
            let ns = build_nodes(instrs).unwrap();
            exact_walk(ns, 0, p) matches Some(e) && 0 <= e < ns.len()
                && ns[e].instructions.contains(instrs[k])
        }),
    decreases instrs.len(),
{
    let pre = instrs.drop_last();
    lemma_build_len(instrs);
    lemma_build_wf(pre);
    let prev = build_nodes(pre).unwrap();
    let p_last = opcode_path(instrs.last().opcode).unwrap();
    lemma_add_len(prev, instrs.last(), p_last);
    lemma_add_instruction(prev, instrs.last(), p_last);
    let ns = build_nodes(instrs).unwrap();
    if k == instrs.len() - 1 {
        let end = insert_path(prev, 0, p_last).1;
        lemma_insert_path(prev, 0, p_last);
        assert(ns[end].instructions[ns[end].instructions.len() - 1] == instrs[k]);
    } else {
        assert(pre[k] == instrs[k]);
        lemma_built_instruction_found(pre, k);
        let p = opcode_path(instrs[k].opcode).unwrap();
        let e = exact_walk(prev, 0, p).unwrap();
        lemma_exact_walk_grows(prev, ns, 0, p);
        let old_ins = prev[e].instructions;
        let j = choose|j: int| 0 <= j < old_ins.len() && old_ins[j] == instrs[k];
        assert(ns[e].instructions.take(old_ins.len() as int) == old_ins);
        assert(ns[e].instructions[j] == instrs[k]);
    }
}

/// Following a longer opcode is following its start, then stepping by the last byte
/// from the node reached.
pub proof fn lemma_walk_then_step(nodes: Seq<NodeView>, i: int, bytes: Seq<u8>, b: u8)
    ensures
        walk(nodes, i, bytes.push(b)) == match walk(nodes, i, bytes) {
            (n, true) => (n, true),
            (n, false) => match child_of(nodes, n, b) {
                None => (n, true),
                Some(c) => (c as int, false),
            },
        },
    decreases bytes.len(),
{
    reveal_with_fuel(walk, 2);
    if bytes.len() > 0 {
        assert(bytes.push(b).drop_first() == bytes.drop_first().push(b));
        assert(bytes.push(b)[0] == bytes[0]);
        match child_of(nodes, i, bytes[0]) {
            None => {},
            Some(c) => {
                lemma_walk_then_step(nodes, c as int, bytes.drop_first(), b);
            },
        }
    } else {
        assert(bytes.push(b) =~= seq![b]);
        assert(seq![b].drop_first() =~= Seq::<u8>::empty());
    }
}

/// The opcode tree: `root` is where every walk starts, `last` where the current walk is.
pub struct InstructionTree {
    nodes: Vec<Node>,
    root: usize,
    last: usize,
}

/// The abstract value of an `InstructionTree`.
pub ghost struct TreeView {
    pub nodes: Seq<NodeView>,
    pub root: int,
    pub last: int,
}

/// The tree is well formed: `root` and `last` are nodes, and every child comes after its
/// parent.
pub open spec fn tree_wf(t: TreeView) -> bool {
    &&& 0 <= t.root < t.nodes.len()
    &&& 0 <= t.last < t.nodes.len()
    &&& forall|i: int, k: int|
        0 <= i < t.nodes.len() && 0 <= k < t.nodes[i].children.len() ==> i < (
        #[trigger] t.nodes[i].children[k]).1 < t.nodes.len()
}

impl View for InstructionTree {
    type V = TreeView;

    closed spec fn view(&self) -> TreeView {
        TreeView { nodes: node_views(self.nodes@), root: self.root as int, last: self.last as int }
    }
}

/// The result of a step down the tree: the instructions at and below the node reached,
/// and whether the walk can go no further.
#[derive(Debug)]
pub struct InsTreeResponse<'a> {
    pub val: Vec<&'a Instruction>,
    pub bottom: bool,
}

impl Node {
    /// The first child whose pattern byte matches `byte`.
    pub fn get(&self, byte: &u8) -> (r: Option<usize>)
        ensures
            r == child_from(self.children@, *byte, 0),
    {
        let mut k: usize = 0;
        while k < self.children.len()
            invariant
                k <= self.children@.len(),
                child_from(self.children@, *byte, 0) == child_from(self.children@, *byte, k as int),
            decreases self.children.len() - k,
        {
            if self.children[k].0.matches(*byte) {
                return Some(self.children[k].1);
            }
            k = k + 1;
        }
        None
    }
}

impl InstructionTree {
    #[verifier::type_invariant]
    closed spec fn well_formed(self) -> bool {
        tree_wf(self@)
    }

    /// The byte pattern of an opcode's text; `None` where a piece cannot be read.
    pub fn parse_opcode(opcode: &String) -> (r: Option<Vec<OpByte>>)
        ensures
            match r {
                Some(v) => opcode_path(opcode@) == Some(v@),
                None => opcode_path(opcode@) is None,
            },
    {
        let chars = chars_of(opcode.as_str());
        let pieces = split_chars(chars.as_slice(), ' ');
        let ghost ps = split(opcode@, ' ');
        let mut result: Vec<OpByte> = Vec::new();
        let mut k: usize = 0;
        assert(ps.skip(0) == ps);
        while k < pieces.len()
            invariant
                k <= pieces@.len(),
                ps == split(opcode@, ' '),
                pieces@.len() == ps.len(),
                forall|j: int| 0 <= j < pieces@.len() ==> (#[trigger] pieces@[j])@ == ps[j],
                path_of(ps) == prepend(result@, path_of(ps.skip(k as int))),
            decreases pieces.len() - k,
        {
            let ghost rest = ps.skip(k as int);
            assert(rest[0] == ps[k as int]);
            assert(rest.drop_first() == ps.skip(k + 1));
            let pc = piece(pieces[k].as_slice());
            assert(pieces@[k as int]@ == ps[k as int]);
            assert(pc == piece_of(rest[0]));
            match pc {
                Piece::Stop => {
                    assert(path_of(rest) == Some(Seq::<OpByte>::empty()));
                    assert(result@ + Seq::<OpByte>::empty() == result@);
                    return Some(result);
                },
                Piece::Skip => {},
                Piece::Push(o) => {
                    proof {
                        assert(result@.push(o) == result@ + seq![o]);
                        match path_of(ps.skip(k + 1)) {
                            Some(q) => {
                                assert(result@ + (seq![o] + q) == result@.push(o) + q);
                            },
                            None => {},
                        }
                    }
                    result.push(o);
                },
                Piece::Bad => {
                    assert(path_of(rest) is None);
                    return None;
                },
            }
            k = k + 1;
        }
        assert(ps.skip(k as int) =~= Seq::<Seq<char>>::empty());
        assert(result@ + Seq::<OpByte>::empty() == result@);
        Some(result)
    }

    /// The instruction that an older table entry describes; `None` where the entry cannot
    /// be read (an empty operand column, fewer operand texts than operand columns, or a far
    /// pointer whose size has no wider form).
    pub fn convert_legacy(ins: &InstructionJSON) -> (r: Option<Instruction>)
        ensures
            match r {
                Some(i) => converted(ins@) == Some(i@),
                None => converted(ins@) is None,
            },
    {
        let ops = match operands_from_instruction(ins) {
            Some(o) => o,
            None => {
                return None;
            },
        };
        let size = match &ops {
            Some(v) => size_of_operands(v),
            None => OperandSize::Any,
        };
        let x64 = str_starts_with(ins.x64.as_str(), "V");
        let legacy = str_starts_with(ins.legacy.as_str(), "V");
        let invalid_prefixes = invalid_prefixes_for(&ins.opcode);
        Some(
            Instruction {
                opcode: ins.opcode.clone(),
                text: ins.text.clone(),
                x64,
                legacy,
                operands: ops,
                size,
                invalid_prefixes,
                description: ins.description.clone(),
            },
        )
    }

    /// The older tables converted table by table; `None` where some entry cannot be read.
    pub fn from_legacy_tables(tables: &Vec<Vec<InstructionJSON>>) -> (r: Option<Vec<Vec<Instruction>>>)
        ensures
            r is None <==> exists|t: int, k: int|
                0 <= t < tables@.len() && 0 <= k < tables@[t]@.len() && (#[trigger] converted(
                    tables@[t]@[k]@,
                )) is None,
            r matches Some(v) ==> {
                &&& v@.len() == tables@.len()
                &&& forall|t: int|
                    0 <= t < v@.len() ==> (#[trigger] v@[t])@.len() == tables@[t]@.len()
                &&& forall|t: int, k: int|
                    0 <= t < v@.len() && 0 <= k < v@[t]@.len() ==> converted(tables@[t]@[k]@)
                        == Some((#[trigger] v@[t]@[k])@)
            },
    {
        let mut out: Vec<Vec<Instruction>> = Vec::new();
        let mut t: usize = 0;
        while t < tables.len()
            invariant
                t <= tables@.len(),
                out@.len() == t,
                forall|a: int| 0 <= a < t ==> (#[trigger] out@[a])@.len() == tables@[a]@.len(),
                forall|a: int, k: int|
                    0 <= a < t && 0 <= k < out@[a]@.len() ==> converted(tables@[a]@[k]@) == Some(
                        (#[trigger] out@[a]@[k])@,
                    ),
            decreases tables.len() - t,
        {
            let table = &tables[t];
            let mut conv: Vec<Instruction> = Vec::new();
            let mut k: usize = 0;
            while k < table.len()
                invariant
                    k <= table@.len(),
                    t < tables@.len(),
                    table == tables@[t as int],
                    conv@.len() == k,
                    forall|j: int|
                        0 <= j < k ==> converted(table@[j]@) == Some((#[trigger] conv@[j])@),
                decreases table.len() - k,
            {
                match Self::convert_legacy(&table[k]) {
                    Some(i) => {
                        conv.push(i);
                    },
                    None => {
                        assert(converted(tables@[t as int]@[k as int]@) is None);
                        return None;
                    },
                }
                k = k + 1;
            }
            out.push(conv);
            t = t + 1;
        }
        proof {
            assert forall|a: int, k: int|
                0 <= a < tables@.len() && 0 <= k < tables@[a]@.len() implies (#[trigger] converted(
                tables@[a]@[k]@,
            )) is Some by {
                assert(converted(tables@[a]@[k]@) == Some(out@[a]@[k]@));
            }
        }
        Some(out)
    }

    /// The tree that holds the instructions of the tables, each under the pattern of its
    /// opcode, added in order; `None` where the opcode of one cannot be read.
    pub fn from_tables(tables: &Vec<Vec<Instruction>>) -> (r: Option<InstructionTree>)
        ensures
            match r {
                Some(t) => {
                    &&& build_nodes(flat(table_views(tables@))) == Some(t@.nodes)
                    &&& t@.root == 0
                    &&& t@.last == 0
                },
                None => build_nodes(flat(table_views(tables@))) is None,
            },
    {
        let mut nodes: Vec<Node> = Vec::new();
        nodes.push(
            Node {
                val: OpByte { code: 0, mask: 0, inv_code: 0, inv_mask: 0 },
                instructions: Vec::new(),
                children: Vec::new(),
            },
        );
        let ghost tv = table_views(tables@);
        assert(instruction_views(nodes@[0].instructions@) =~= Seq::<InstructionView>::empty());
        assert(node_views(nodes@)[0] == empty_node(root_byte()));
        assert(node_views(nodes@) =~= seq![empty_node(root_byte())]);
        assert(tv.take(0) =~= Seq::<Seq<InstructionView>>::empty());
        let mut t: usize = 0;
        while t < tables.len()
            invariant
                t <= tables@.len(),
                tv == table_views(tables@),
                nodes@.len() > 0,
                nodes_wf(node_views(nodes@)),
                build_nodes(flat(tv.take(t as int))) == Some(node_views(nodes@)),
            decreases tables.len() - t,
        {
            let table = &tables[t];
            let ghost done = flat(tv.take(t as int));
            assert(tv.take(t + 1).drop_last() == tv.take(t as int));
            assert(tv[t as int] == instruction_views(table@));
            let mut k: usize = 0;
            while k < table.len()
                invariant
                    k <= table@.len(),
                    t < tables@.len(),
                    tv == table_views(tables@),
                    table == tables@[t as int],
                    tv[t as int] == instruction_views(table@),
                    done == flat(tv.take(t as int)),
                    tv.take(t + 1).drop_last() == tv.take(t as int),
                    nodes@.len() > 0,
                    nodes_wf(node_views(nodes@)),
                    build_nodes(done + instruction_views(table@).take(k as int)) == Some(
                        node_views(nodes@),
                    ),
                decreases table.len() - k,
            {
                let ghost sofar = done + instruction_views(table@).take(k as int);
                let ghost next = done + instruction_views(table@).take(k + 1);
                assert(next.drop_last() =~= sofar);
                assert(next.last() == table@[k as int]@);
                let path = match Self::parse_opcode(&table[k].opcode) {
                    Some(p) => p,
                    None => {
                        proof {
                            lemma_flat_prefix(tv, t as int + 1);
                            assert(flat(tv.take(t + 1)) == done + instruction_views(table@));
                            assert(flat(tv).take(next.len() as int) =~= next);
                            lemma_build_none(flat(tv), next);
                        }
                        return None;
                    },
                };
                let end = insert_path_into(&mut nodes, &path);
                let ins = table[k].clone();
                let ghost mid = node_views(nodes@);
                nodes[end].instructions.push(ins);
                proof {
                    let target = mid.update(
                        end as int,
                        NodeView {
                            instructions: mid[end as int].instructions.push(table@[k as int]@),
                            ..mid[end as int]
                        },
                    );
                    assert(instruction_views(nodes@[end as int].instructions@) =~= mid[end as int].instructions.push(table@[k as int]@));
                    assert(node_views(nodes@) =~= target);
                }
                k = k + 1;
            }
            assert(instruction_views(table@).take(table@.len() as int) == instruction_views(table@));
            assert(flat(tv.take(t + 1)) == done + instruction_views(table@));
            t = t + 1;
        }
        assert(tv.take(t as int) == tv);
        Some(InstructionTree { nodes, root: 0, last: 0 })
    }

    /// The tree with these nodes, root and current node; `None` where they do not make a
    /// well-formed tree (a child that does not come after its parent, or an index out of range).
    pub fn from_parts(nodes: Vec<Node>, root: usize, last: usize) -> (r: Option<InstructionTree>)
        ensures
            match r {
                Some(t) => t@ == (TreeView {
                    nodes: node_views(nodes@),
                    root: root as int,
                    last: last as int,
                }),
                None => !tree_wf(
                    TreeView { nodes: node_views(nodes@), root: root as int, last: last as int },
                ),
            },
    {
        let ghost tv = TreeView { nodes: node_views(nodes@), root: root as int, last: last as int };
        if root >= nodes.len() || last >= nodes.len() {
            return None;
        }
        let mut i: usize = 0;
        while i < nodes.len()
            invariant
                i <= nodes@.len(),
                tv.nodes == node_views(nodes@),
                forall|a: int, k: int|
                    0 <= a < i && 0 <= k < tv.nodes[a].children.len() ==> a < (
                    #[trigger] tv.nodes[a].children[k]).1 < tv.nodes.len(),
            decreases nodes.len() - i,
        {
            let mut k: usize = 0;
            while k < nodes[i].children.len()
                invariant
                    i < nodes@.len(),
                    k <= nodes@[i as int].children@.len(),
                    tv.nodes == node_views(nodes@),
                    forall|a: int, j: int|
                        0 <= a < i && 0 <= j < tv.nodes[a].children.len() ==> a < (
                        #[trigger] tv.nodes[a].children[j]).1 < tv.nodes.len(),
                    forall|j: int|
                        0 <= j < k ==> i < (#[trigger] tv.nodes[i as int].children[j]).1
                            < tv.nodes.len(),
                decreases nodes@[i as int].children@.len() - k,
            {
                let c = nodes[i].children[k].1;
                assert(tv.nodes[i as int].children[k as int].1 == c);
                if c <= i || c >= nodes.len() {
                    return None;
                }
                k = k + 1;
            }
            i = i + 1;
        }
        Some(InstructionTree { nodes, root, last })
    }

    /// The nodes, root and current node of the tree.
    pub fn into_parts(self) -> (r: (Vec<Node>, usize, usize))
        ensures
            node_views(r.0@) == self@.nodes,
            r.1 == self@.root,
            r.2 == self@.last,
    {
        (self.nodes, self.root, self.last)
    }

    /// Steps down one byte from the current node like `step`, giving the node reached
    /// instead of the instructions below it.
    pub fn step_to(&mut self, byte: u8) -> (r: Option<usize>)
        ensures
            final(self)@.nodes == old(self)@.nodes,
            final(self)@.root == old(self)@.root,
            tree_wf(final(self)@),
            r == child_of(old(self)@.nodes, old(self)@.last, byte),
            final(self)@.last == match r {
                Some(c) => c as int,
                None => old(self)@.root,
            },
    {
        proof {
            use_type_invariant(&*self);
        }
        let ghost nodes = self@.nodes;
        let curr = self.nodes[self.last].get(&byte);
        assert(nodes[self.last as int].children == self.nodes@[self.last as int].children@);
        match curr {
            None => {
                self.last = self.root;
            },
            Some(exp) => {
                proof {
                    lemma_child_in_range(nodes[self.last as int].children, byte, 0);
                }
                self.last = exp;
            },
        }
        curr
    }

    /// Whether a node has no children, and whether it holds no instruction itself.
    pub fn shape(&self, index: usize) -> (r: (bool, bool))
        requires
            index < self@.nodes.len(),
        ensures
            r.0 == (self@.nodes[index as int].children.len() == 0),
            r.1 == (self@.nodes[index as int].instructions.len() == 0),
    {
        (self.nodes[index].children.len() == 0, self.nodes[index].instructions.len() == 0)
    }

    /// The node the current walk is at.
    pub fn current(&self) -> (r: usize)
        ensures
            r == self@.last,
            tree_wf(self@),
    {
        proof {
            use_type_invariant(self);
        }
        self.last
    }

    /// Moves the walk back to the root.
    pub fn reset(&mut self)
        ensures
            final(self)@ == (TreeView { last: old(self)@.root, ..old(self)@ }),
    {
        proof {
            use_type_invariant(&*self);
        }
        self.last = self.root;
    }

    fn gather_into<'a>(&'a self, index: usize, out: &mut Vec<&'a Instruction>)
        requires
            index < self@.nodes.len(),
        ensures
            ref_views(final(out)@) == ref_views(old(out)@) + gather(self@.nodes, index as int),
        decreases self@.nodes.len() - index, 1int, 0int,
    {
        proof {
            use_type_invariant(self);
        }
        let ghost nodes = self@.nodes;
        let node = &self.nodes[index];
        let ghost start = out@;
        let mut j: usize = 0;
        while j < node.instructions.len()
            invariant
                j <= node.instructions@.len(),
                node == self.nodes@[index as int],
                nodes == self@.nodes,
                index < nodes.len(),
                ref_views(out@) == ref_views(start) + nodes[index as int].instructions.take(
                    j as int,
                ),
            decreases node.instructions.len() - j,
        {
            let ghost prev = out@;
            out.push(&node.instructions[j]);
            proof {
                assert(ref_views(out@) =~= ref_views(prev).push(node.instructions@[j as int]@));
                assert(node.instructions@[j as int]@ == nodes[index as int].instructions[j as int]);
                assert(nodes[index as int].instructions.take(j + 1) =~= nodes[index as int].instructions.take(j as int).push(nodes[index as int].instructions[j as int]));
                assert(ref_views(out@) =~= ref_views(start) + nodes[index as int].instructions.take(
                    j + 1,
                ));
            }
            j = j + 1;
        }
        assert(nodes[index as int].instructions.take(j as int) == nodes[index as int].instructions);
        self.gather_kids_into(index, 0, out);
    }

    fn gather_kids_into<'a>(&'a self, index: usize, k: usize, out: &mut Vec<&'a Instruction>)
        requires
            index < self@.nodes.len(),
            k <= self@.nodes[index as int].children.len(),
        ensures
            ref_views(final(out)@) == ref_views(old(out)@) + gather_kids(
                self@.nodes,
                index as int,
                k as int,
            ),
        decreases self@.nodes.len() - index, 0int, self@.nodes[index as int].children.len() - k,
    {
        proof {
            use_type_invariant(self);
        }
        let ghost nodes = self@.nodes;
        if k >= self.nodes[index].children.len() {
            assert(ref_views(old(out)@) + gather_kids(nodes, index as int, k as int) =~= ref_views(
                old(out)@,
            ));
            return ;
        }
        let c = self.nodes[index].children[k].1;
        assert(nodes[index as int].children[k as int] == self.nodes@[index as int].children@[k as int]);
        assert(index < c < nodes.len());
        self.gather_into(c, out);
        self.gather_kids_into(index, k + 1, out);
        assert(ref_views(final(out)@) =~= ref_views(old(out)@) + gather_kids(
            nodes,
            index as int,
            k as int,
        ));
    }

    /// Traverses the tree from the root along `opcode`. Where a byte leads nowhere the
    /// answer is empty and at the bottom; otherwise it holds every instruction at and below
    /// the node reached, and is at the bottom when that node has no children.
    pub fn traverse(&mut self, opcode: &Vec<u8>) -> (r: InsTreeResponse<'_>)
        ensures
            final(self)@.nodes == old(self)@.nodes,
            final(self)@.root == old(self)@.root,
            tree_wf(final(self)@),
            final(self)@.last == walk(old(self)@.nodes, old(self)@.root, opcode@).0,
            walk(old(self)@.nodes, old(self)@.root, opcode@).1 ==> r.val@.len() == 0 && r.bottom,
            !walk(old(self)@.nodes, old(self)@.root, opcode@).1 ==> {
                let n = walk(old(self)@.nodes, old(self)@.root, opcode@).0;
                &&& ref_views(r.val@) == gather(old(self)@.nodes, n)
                &&& r.bottom == (old(self)@.nodes[n].children.len() == 0)
            },
    {
        proof {
            use_type_invariant(&*self);
        }
        let ghost nodes = self@.nodes;
        self.last = self.root;
        let mut curr = self.root;
        let mut k: usize = 0;
        assert(opcode@.skip(0) == opcode@);
        while k < opcode.len()
            invariant
                self@.nodes == nodes,
                nodes == old(self)@.nodes,
                self@.root == old(self)@.root,
                tree_wf(self@),
                curr == self.last,
                k <= opcode@.len(),
                walk(nodes, old(self)@.root, opcode@) == walk(nodes, curr as int, opcode@.skip(k as int)),
            decreases opcode.len() - k,
        {
            let ghost rest = opcode@.skip(k as int);
            assert(rest[0] == opcode@[k as int]);
            assert(rest.drop_first() == opcode@.skip(k + 1));
            match self.nodes[self.last].get(&opcode[k]) {
                None => {
                    return InsTreeResponse { val: Vec::new(), bottom: true };
                },
                Some(c) => {
                    assert(nodes[curr as int].children == self.nodes@[curr as int].children@);
                    proof {
                        let ch = nodes[curr as int].children;
                        lemma_child_in_range(ch, opcode@[k as int], 0);
                    }
                    curr = c;
                    self.last = c;
                },
            }
            k = k + 1;
        }
        let val = self.gather_instructions(curr);
        let bottom = self.nodes[curr].children.len() == 0;
        InsTreeResponse { val, bottom }
    }

    /// Steps down the tree by one byte from the current node. Where the byte leads nowhere
    /// the walk returns to the root and the answer is empty and at the bottom; otherwise the
    /// walk moves to the child and the answer holds every instruction at and below it.
    pub fn step(&mut self, byte: u8) -> (r: InsTreeResponse<'_>)
        ensures
            final(self)@.nodes == old(self)@.nodes,
            final(self)@.root == old(self)@.root,
            tree_wf(final(self)@),
            match child_of(old(self)@.nodes, old(self)@.last, byte) {
                None => {
                    &&& final(self)@.last == old(self)@.root
                    &&& r.val@.len() == 0
                    &&& r.bottom
                },
                Some(c) => {
                    &&& final(self)@.last == c
                    &&& ref_views(r.val@) == gather(old(self)@.nodes, c as int)
                    &&& r.bottom == (old(self)@.nodes[c as int].children.len() == 0)
                },
            },
    {
        proof {
            use_type_invariant(&*self);
        }
        let ghost nodes = self@.nodes;
        let curr = self.nodes[self.last].get(&byte);
        assert(nodes[self.last as int].children == self.nodes@[self.last as int].children@);
        match curr {
            None => {
                self.last = self.root;
                InsTreeResponse { val: Vec::new(), bottom: true }
            },
            Some(exp) => {
                proof {
                    lemma_child_in_range(nodes[self.last as int].children, byte, 0);
                }
                self.last = exp;
                let val = self.gather_instructions(exp);
                let bottom = self.nodes[exp].children.len() == 0;
                InsTreeResponse { val, bottom }
            },
        }
    }

    /// Every instruction at node `index` and below, the node's own first, then those under
    /// each child in order.
    pub fn gather_instructions(&self, index: usize) -> (r: Vec<&Instruction>)
        requires
            index < self@.nodes.len(),
        ensures
            ref_views(r@) == gather(self@.nodes, index as int),
    {
        let mut out: Vec<&Instruction> = Vec::new();
        assert(ref_views(out@) =~= Seq::<InstructionView>::empty());
        self.gather_into(index, &mut out);
        assert(ref_views(out@) =~= gather(self@.nodes, index as int));
        out
    }
}

} // verus!
