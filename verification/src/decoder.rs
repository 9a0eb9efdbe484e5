//! The decoder: from bytes of x86 machine code to instructions and their operands.
use crate::format::InstructionFormatting;
use crate::decoding::{decode_step, nothing, run_ok, ends_within, run_resps, run_state, lemma_search_found, lemma_ends_within_bytes, lemma_run_bounded, lemma_run_short, lemma_instruction_context, apply_prefixes, reset_ctx, prefix_allowed, allowed, arch_invalid, arch_filter, select, first_wanted, wanted, Want, decode_instruction, pass, search, PassResult, SearchResult, MAX_PREFIX, MAX_WIDTH, decode_operands, modrm_of, rex_or_empty, blank_address, bespoke_operand, default_size, disp, imm_at, imm_len, le_value, mib_operand, modrm_operand, modrm_reg, operand_step, operands_fold, pow256, scale_of, sib_address, take_modrm, OpEnv, OpState};
use crate::instruction_tree::{GenericOperand, GenericOperandView, Instruction, InstructionTree, InstructionView, TreeView, OperandEncoding, OperandSize, RegisterType, operand_views, ref_views, lemma_leaf_gather};
use crate::text::{contains, starts_with, ends_with, str_ends_with, regex_is_match, str_contains, str_eq, str_starts_with, to_lowercase};
use vstd::prelude::*;
use vstd::slice::slice_subrange;

verus! {

// ---------------------------------------------------------------------------
// Operands
// ---------------------------------------------------------------------------

/// The scale factor of a SIB byte.
#[derive(Clone, Copy, Debug, PartialEq, Eq, Structural)]
pub enum SIBScale {
    Zero,
    Double,
    Quad,
    Octo,
}

/// A register operand: `index` within its `group`, of width `size`.
#[derive(Clone, Copy, Debug, PartialEq, Eq, Structural)]
pub struct Register {
    pub index: usize,
    pub size: OperandSize,
    pub group: RegisterType,
    pub rex: bool,
}

/// An immediate value.
#[derive(Clone, Copy, Debug, PartialEq, Eq, Structural)]
pub struct Immediate {
    pub value: u64,
}

/// A memory operand.
#[derive(Clone, Copy, Debug, PartialEq, Eq, Structural)]
pub struct Address {
    pub dest_size: OperandSize,
    pub addr_size: OperandSize,
    /// REX.B with the r/m field (no SIB) or the SIB base field.
    pub base: usize,
    /// REX.X with the SIB index field, where there is a SIB index.
    pub index: Option<usize>,
    pub scale: SIBScale,
    /// The displacement that the mod field of the ModR/M byte calls for.
    pub rm_disp: Option<Immediate>,
    /// The displacement that the SIB base field calls for.
    pub sib_disp: Option<Immediate>,
    pub no_base: bool,
}

/// An operand written as given text.
#[derive(Debug)]
pub struct Bespoke {
    pub value: String,
}

impl Clone for Bespoke {
    fn clone(&self) -> (r: Self)
        ensures
            r == *self,
    {
        Bespoke { value: self.value.clone() }
    }
}

/// A decoded operand.
#[derive(Debug)]
pub enum Operand {
    Reg(Register),
    Imm(Immediate),
    Addr(Address),
    Bes(Bespoke),
}

impl Clone for Operand {
    fn clone(&self) -> (r: Self)
        ensures
            r == *self,
    {
        match self {
            Operand::Reg(x) => Operand::Reg(*x),
            Operand::Imm(x) => Operand::Imm(*x),
            Operand::Addr(x) => Operand::Addr(*x),
            Operand::Bes(x) => Operand::Bes(x.clone()),
        }
    }
}

/// The abstract value of an `Operand`.
pub ghost enum OperandView {
    Reg(Register),
    Imm(Immediate),
    Addr(Address),
    Bes(Seq<char>),
}

impl View for Operand {
    type V = OperandView;

    open spec fn view(&self) -> OperandView {
        match self {
            Operand::Reg(x) => OperandView::Reg(*x),
            Operand::Imm(x) => OperandView::Imm(*x),
            Operand::Addr(x) => OperandView::Addr(*x),
            Operand::Bes(x) => OperandView::Bes(x.value@),
        }
    }
}

/// The abstract values of a sequence of operands.
pub open spec fn op_views(v: Seq<Operand>) -> Seq<OperandView> {
    v.map_values(|o: Operand| o@)
}

// ---------------------------------------------------------------------------
// Decoding context
// ---------------------------------------------------------------------------

/// The size of the architecture decoded for.
#[derive(Clone, Copy, Debug, PartialEq, Eq, Structural)]
pub enum ArchSize {
    I16,
    I32,
    I64,
}

/// The fields of a REX prefix, each placed where it extends a 3-bit register field.
#[derive(Clone, Copy, Debug, PartialEq, Eq, Structural)]
pub struct Rex {
    pub w: bool,
    pub r: u8,
    pub b: u8,
    pub x: u8,
}

/// The fields of a ModR/M byte.
#[derive(Clone, Copy, Debug, PartialEq, Eq, Structural)]
pub struct Modrm {
    pub mode: u8,
    pub rm: u8,
    pub reg: u8,
}

/// The REX prefix that a byte holds.
pub open spec fn rex_of(value: u8) -> Rex {
    Rex {
        w: (value & 0b1000) != 0,
        r: ((value & 0b0100) << 1) as u8,
        x: ((value & 0b0010) << 2) as u8,
        b: ((value & 0b0001) << 3) as u8,
    }
}

impl Rex {
    /// The REX prefix that a byte holds: W from bit 3, and R, X and B from bits 2, 1 and 0,
    /// each moved to bit 3.
    pub fn from(value: u8) -> (r: Self)
        ensures
            r == rex_of(value),
    {
        Rex {
            w: (value & 0b1000) != 0,
            r: (value & 0b0100) << 1,
            x: (value & 0b0010) << 2,
            b: (value & 0b0001) << 3,
        }
    }
}

/// What the prefixes of the instruction being decoded have set.
#[derive(Clone, Copy, Debug, PartialEq, Eq, Structural)]
pub struct Context {
    pub size: ArchSize,
    pub one: u8,
    pub two: u8,
    pub op_override: bool,
    pub addr_override: bool,
    pub rex: Option<Rex>,
}

/// The address size for an architecture size and address-size override.
pub open spec fn addr_size_of(size: ArchSize, addr_override: bool) -> OperandSize {
    match size {
        ArchSize::I64 => if addr_override {
            OperandSize::Double
        } else {
            OperandSize::Quad
        },
        ArchSize::I32 => if addr_override {
            OperandSize::Word
        } else {
            OperandSize::Double
        },
        ArchSize::I16 => if addr_override {
            OperandSize::Byte
        } else {
            OperandSize::Word
        },
    }
}

impl Default for Context {
    fn default() -> (r: Self)
        ensures
            r == (Context {
                size: ArchSize::I64,
                one: 0,
                two: 0,
                op_override: false,
                addr_override: false,
                rex: None,
            }),
    {
        Context {
            size: ArchSize::I64,
            one: 0,
            two: 0,
            op_override: false,
            addr_override: false,
            rex: None,
        }
    }
}

impl Context {
    /// The size of addresses: the architecture's, halved by an address-size override.
    pub fn addr_size(&self) -> (r: OperandSize)
        ensures
            r == addr_size_of(self.size, self.addr_override),
    {
        match self.size {
            ArchSize::I64 => {
                if self.addr_override {
                    OperandSize::Double
                } else {
                    OperandSize::Quad
                }
            },
            ArchSize::I32 => {
                if self.addr_override {
                    OperandSize::Word
                } else {
                    OperandSize::Double
                }
            },
            ArchSize::I16 => {
                if self.addr_override {
                    OperandSize::Byte
                } else {
                    OperandSize::Word
                }
            },
        }
    }
}

// ---------------------------------------------------------------------------
// The code being decoded
// ---------------------------------------------------------------------------

/// Every byte has been passed: the cursor is at (or past) the end of the code.
pub open spec fn at_end(code: Seq<u8>, curr: int) -> bool {
    curr >= code.len()
}

/// The byte at an index, or 0 outside the code.
pub open spec fn byte_at(code: Seq<u8>, i: int) -> u8 {
    if 0 <= i < code.len() {
        code[i]
    } else {
        0
    }
}

/// Where the cursor is after moving forward `n` times, stopping at the end of the code.
pub open spec fn advanced(code: Seq<u8>, curr: int, n: int) -> int {
    if at_end(code, curr) {
        curr
    } else if curr + n <= code.len() {
        curr + n
    } else {
        code.len() as int
    }
}

/// The `n` bytes read by taking the byte at the cursor and moving forward, `n` times;
/// past the end of the code a byte reads as 0.
pub open spec fn read_bytes(code: Seq<u8>, curr: int, n: nat) -> Seq<u8> {
    Seq::new(n, |j: int| byte_at(code, advanced(code, curr, j)))
}

/// Bytes to be decoded, with a cursor.
pub struct ByteString {
    pub code: Vec<u8>,
    pub curr: usize,
}

impl ByteString {
    /// The number of bytes.
    pub fn len(&self) -> (r: usize)
        ensures
            r == self.code@.len(),
    {
        self.code.len()
    }

    /// Moves the cursor forward by `by` bytes where it then stays within the code, and says
    /// whether it did.
    pub fn advance(&mut self, by: usize) -> (r: bool)
        requires
            old(self).curr + by <= usize::MAX,
        ensures
            final(self).code == old(self).code,
            r == (old(self).curr + by < old(self).code@.len()),
            final(self).curr == if r {
                old(self).curr + by
            } else {
                old(self).curr as int
            },
    {
        self.curr += by;
        if self.curr >= self.code.len() {
            self.curr -= by;
            return false;
        }
        true
    }

    /// Removes the bytes before the cursor and moves the cursor to the start.
    pub fn trim(&mut self)
        requires
            old(self).curr <= old(self).code@.len(),
        ensures
            final(self).code@ == old(self).code@.skip(old(self).curr as int),
            final(self).curr == 0,
    {
        let mut rest: Vec<u8> = Vec::new();
        let mut i: usize = self.curr;
        while i < self.code.len()
            invariant
                self.curr <= i <= self.code@.len(),
                self == old(self),
                rest@ == self.code@.subrange(self.curr as int, i as int),
            decreases self.code.len() - i,
        {
            rest.push(self.code[i]);
            i = i + 1;
        }
        self.code = rest;
        self.curr = 0;
    }

    /// Adds bytes at the end.
    pub fn append(&mut self, bytes: &Vec<u8>)
        ensures
            final(self).code@ == old(self).code@ + bytes@,
            final(self).curr == old(self).curr,
    {
        let mut i: usize = 0;
        while i < bytes.len()
            invariant
                i <= bytes@.len(),
                self.curr == old(self).curr,
                self.code@ == old(self).code@ + bytes@.take(i as int),
            decreases bytes.len() - i,
        {
            self.code.push(bytes[i]);
            assert(bytes@.take(i + 1) == bytes@.take(i as int).push(bytes@[i as int]));
            i = i + 1;
        }
        assert(bytes@.take(bytes.len() as int) == bytes@);
    }

    /// Adds one byte at the end.
    pub fn push(&mut self, byte: u8)
        ensures
            final(self).code@ == old(self).code@.push(byte),
            final(self).curr == old(self).curr,
    {
        self.code.push(byte);
    }

    /// The byte at an index.
    pub fn get_at(&self, index: usize) -> (r: u8)
        requires
            index < self.code@.len(),
        ensures
            r == self.code@[index as int],
    {
        self.code[index]
    }

    /// The byte at an offset from the cursor, or 0 outside the code.
    pub fn get_offset(&self, offset: isize) -> (r: u8)
        requires
            self.curr <= isize::MAX,
            isize::MIN <= self.curr + offset <= isize::MAX,
        ensures
            r == byte_at(self.code@, self.curr + offset),
    {
        if offset < 0 {
            let back = (0 - (offset + 1)) as usize + 1;
            if back > self.curr {
                0
            } else {
                let index = self.curr - back;
                if index >= self.code.len() {
                    0
                } else {
                    self.code[index]
                }
            }
        } else {
            let index = self.curr + offset as usize;
            if index >= self.code.len() {
                0
            } else {
                self.code[index]
            }
        }
    }

    /// The byte at the cursor.
    pub fn get(&self) -> (r: u8)
        requires
            self.curr < self.code@.len(),
        ensures
            r == self.code@[self.curr as int],
    {
        self.code[self.curr]
    }

    /// The byte at the cursor, or 0 at the end of the code.
    fn peek(&self) -> (r: u8)
        ensures
            r == byte_at(self.code@, self.curr as int),
    {
        if self.curr < self.code.len() {
            self.code[self.curr]
        } else {
            0
        }
    }

    /// Moves the cursor to the next byte, unless it is on the last one, and gives the byte
    /// it is then on.
    pub fn step(&mut self) -> (r: u8)
        requires
            old(self).curr < old(self).code@.len(),
        ensures
            final(self).code == old(self).code,
            final(self).curr == if old(self).curr + 1 < old(self).code@.len() {
                old(self).curr + 1
            } else {
                old(self).curr as int
            },
            r == old(self).code@[final(self).curr as int],
    {
        if self.curr < self.code.len() - 1 {
            self.curr = self.curr + 1;
        }
        self.code[self.curr]
    }

    /// Gives the byte at the cursor and moves the cursor past it.
    pub(crate) fn take(&mut self) -> (r: u8)
        requires
            old(self).curr < old(self).code@.len(),
        ensures
            final(self).code == old(self).code,
            final(self).curr == old(self).curr + 1,
            r == old(self).code@[old(self).curr as int],
    {
        let n = self.code.len();
        let b = self.code[self.curr];
        assert(self.curr < n);
        self.curr = self.curr + 1;
        b
    }

    /// Moves the cursor forward unless it is at the end, and says whether it did.
    pub fn inc(&mut self) -> (r: bool)
        ensures
            final(self).code == old(self).code,
            r == !at_end(old(self).code@, old(self).curr as int),
            final(self).curr == advanced(old(self).code@, old(self).curr as int, 1),
    {
        if self.curr >= self.code.len() {
            false
        } else {
            self.curr += 1;
            true
        }
    }

    /// Moves the cursor back by one byte.
    pub fn dec(&mut self)
        requires
            old(self).curr > 0,
        ensures
            final(self).code == old(self).code,
            final(self).curr == old(self).curr - 1,
    {
        self.curr -= 1;
    }

    /// Every byte has been passed.
    pub fn is_end(&mut self) -> (r: bool)
        ensures
            *final(self) == *old(self),
            r == at_end(old(self).code@, old(self).curr as int),
    {
        self.curr >= self.code.len()
    }

    /// The bytes from index `from` up to `to`.
    pub fn get_slice(&mut self, from: usize, to: usize) -> (r: &[u8])
        requires
            from <= to <= old(self).code@.len(),
        ensures
            *final(self) == *old(self),
            r@ == old(self).code@.subrange(from as int, to as int),
    {
        slice_of(&self.code, from, to)
    }

    /// The bytes from offset `from` to offset `to` of the cursor.
    pub fn get_slice_offset(&mut self, from: isize, to: isize) -> (r: &[u8])
        requires
            0 <= old(self).curr + from,
            from <= to,
            old(self).curr + to <= old(self).code@.len(),
        ensures
            *final(self) == *old(self),
            r@ == old(self).code@.subrange(old(self).curr + from, old(self).curr + to),
    {
        let n = self.code.len();
        let a = if from < 0 {
            self.curr - ((0 - (from + 1)) as usize + 1)
        } else {
            let f = from as usize;
            assert(f == from);
            self.curr + f
        };
        let b = if to < 0 {
            self.curr - ((0 - (to + 1)) as usize + 1)
        } else {
            let t = to as usize;
            assert(t == to);
            self.curr + t
        };
        slice_of(&self.code, a, b)
    }
}

// ---------------------------------------------------------------------------
// Reading operands
// ---------------------------------------------------------------------------

/// What stays fixed while the operands of one instruction are read.
struct OperandEnv {
    ctx: Context,
    rex: Rex,
    modrm: Modrm,
    reg_upper: bool,
}

/// The operands read so far and the number of bytes they take.
struct OperandRun {
    size: usize,
    has_modrm: bool,
    ops: Vec<Operand>,
}

spec fn env_of(e: &OperandEnv, code: &ByteString) -> OpEnv {
    OpEnv { code: code.code@, ctx: e.ctx, rex: e.rex, modrm: e.modrm, reg_upper: e.reg_upper }
}

spec fn state_of(code: &ByteString, run: &OperandRun) -> OpState {
    OpState {
        curr: code.curr as int,
        size: run.size as int,
        has_modrm: run.has_modrm,
        ops: op_views(run.ops@),
        fails: false,
    }
}

/// The cursor is within the code or at its end, and offsets from it stay within `isize`.
spec fn cursor_ok(code: &ByteString) -> bool {
    &&& code.curr <= code.code@.len()
    &&& code.code@.len() + 16 <= isize::MAX
}

proof fn lemma_advanced_ok(code: Seq<u8>, curr: int, n: int)
    requires
        0 <= curr <= code.len(),
        n >= 0,
    ensures
        0 <= advanced(code, curr, n) <= code.len(),
        advanced(code, curr, n) >= curr,
        advanced(code, advanced(code, curr, n), 1) == advanced(code, curr, n + 1),
{
}

proof fn lemma_le_value_bound(b: Seq<u8>)
    ensures
        le_value(b) < pow256(b.len()),
    decreases b.len(),
{
    if b.len() > 0 {
        lemma_le_value_bound(b.drop_last());
        let p = pow256((b.len() - 1) as nat);
        let x = b.last() as nat;
        assert(x * p <= 255 * p) by (nonlinear_arith)
            requires
                x <= 255,
        ;
    }
}

/// Reads `n` bytes at the cursor as a little-endian number.
fn parse_imm(code: &mut ByteString, n: usize) -> (r: Immediate)
    requires
        cursor_ok(old(code)),
        n <= 8,
    ensures
        final(code).code == old(code).code,
        (r, final(code).curr as int) == imm_at(old(code).code@, old(code).curr as int, n as nat),
        cursor_ok(final(code)),
{
    let ghost code0 = code.code@;
    let ghost curr0 = code.curr as int;
    let mut val: u64 = 0;
    let mut factor: u64 = 1;
    let mut i: usize = 0;
    assert(read_bytes(code0, curr0, 0) =~= Seq::<u8>::empty());
    proof {
        reveal_with_fuel(pow256, 9);
    }
    while i < n
        invariant
            i <= n <= 8,
            code.code == old(code).code,
            code.code@ == code0,
            0 <= curr0 <= code0.len(),
            code0.len() + 16 <= isize::MAX,
            code.curr == advanced(code0, curr0, i as int),
            val == le_value(read_bytes(code0, curr0, i as nat)),
            le_value(read_bytes(code0, curr0, i as nat)) < pow256(i as nat),
            i < n ==> factor == pow256(i as nat),
            pow256(8) == 0x1_0000_0000_0000_0000,
        decreases n - i,
    {
        proof {
            lemma_advanced_ok(code0, curr0, i as int);
        }
        let b = code.peek();
        let ghost prev = read_bytes(code0, curr0, i as nat);
        let ghost next = read_bytes(code0, curr0, (i + 1) as nat);
        assert(next.drop_last() =~= prev);
        assert(next.last() == b);
        proof {
            let p = pow256(i as nat);
            assert((b as nat) * p <= 255 * p) by (nonlinear_arith)
                requires
                    b <= 255,
            ;
            assert(p * 256 == pow256((i + 1) as nat));
            assert(le_value(next) == le_value(prev) + (b as nat) * p);
            assert(le_value(next) < pow256((i + 1) as nat));
            assert(pow256((i + 1) as nat) <= pow256(8)) by {
                lemma_pow256_mono((i + 1) as nat, 8);
            }
        }
        val = val + (b as u64) * factor;
        code.inc();
        if i + 1 < n {
            proof {
                assert(pow256((i + 1) as nat) <= pow256(7)) by {
                    lemma_pow256_mono((i + 1) as nat, 7);
                }
            }
            factor = factor * 256;
        }
        i = i + 1;
    }
    proof {
        lemma_advanced_ok(code0, curr0, n as int);
    }
    Immediate { value: val }
}

proof fn lemma_pow256_mono(a: nat, b: nat)
    requires
        a <= b,
    ensures
        pow256(a) <= pow256(b),
    decreases b,
{
    if a < b {
        lemma_pow256_mono(a, (b - 1) as nat);
    }
}

/// Counts `n` more bytes; `None` where the count passes `usize::MAX`.
fn grow_by(size: usize, n: usize) -> (r: Option<usize>)
    ensures
        match r {
            Some(v) => v == size + n,
            None => size + n > usize::MAX,
        },
{
    size.checked_add(n)
}

/// Reads a displacement of `n` bytes and counts it.
fn read_disp(code: &mut ByteString, run: &mut OperandRun, n: usize) -> (r: Option<Immediate>)
    requires
        cursor_ok(old(code)),
        n <= 8,
    ensures
        final(code).code == old(code).code,
        cursor_ok(final(code)),
        final(run).ops == old(run).ops,
        final(run).has_modrm == old(run).has_modrm,
        match r {
            Some(d) => {
                let (sd, st) = disp(old(code).code@, state_of(old(code), old(run)), n as nat);
                &&& !st.fails
                &&& d == sd
                &&& state_of(final(code), final(run)) == st
            },
            None => disp(old(code).code@, state_of(old(code), old(run)), n as nat).1.fails,
        },
{
    match grow_by(run.size, n) {
        None => None,
        Some(v) => {
            run.size = v;
            let d = parse_imm(code, n);
            Some(d)
        },
    }
}

/// Counts and passes the ModR/M byte, once.
fn take_modrm_exec(code: &mut ByteString, run: &mut OperandRun) -> (ok: bool)
    requires
        cursor_ok(old(code)),
    ensures
        final(code).code == old(code).code,
        cursor_ok(final(code)),
        final(run).ops == old(run).ops,
        ok ==> state_of(final(code), final(run)) == take_modrm(
            old(code).code@,
            state_of(old(code), old(run)),
        ),
        !ok ==> take_modrm(old(code).code@, state_of(old(code), old(run))).fails,
{
    if !run.has_modrm {
        match grow_by(run.size, 1) {
            None => {
                return false;
            },
            Some(v) => {
                run.size = v;
            },
        }
        run.has_modrm = true;
        proof {
            lemma_advanced_ok(code.code@, code.curr as int, 1);
        }
        code.inc();
    }
    true
}

/// Adds an operand.
fn push_operand(run: &mut OperandRun, o: Operand)
    ensures
        final(run).size == old(run).size,
        final(run).has_modrm == old(run).has_modrm,
        op_views(final(run).ops@) == op_views(old(run).ops@).push(o@),
{
    let ghost o2 = o;
    run.ops.push(o);
    assert(op_views(run.ops@) =~= op_views(old(run).ops@).push(o2@));
}

fn blank_address_exec(e: &OperandEnv, size: OperandSize) -> (a: Address)
    ensures
        a == blank_address(e.ctx, size),
{
    Address {
        dest_size: size,
        addr_size: e.ctx.addr_size(),
        base: 0,
        index: None,
        scale: SIBScale::Zero,
        rm_disp: None,
        sib_disp: None,
        no_base: false,
    }
}

fn scale_of_exec(s: u8) -> (r: SIBScale)
    ensures
        r == scale_of(s),
{
    if s == 1 {
        SIBScale::Double
    } else if s == 2 {
        SIBScale::Quad
    } else if s == 3 {
        SIBScale::Octo
    } else {
        SIBScale::Zero
    }
}

/// Reads the SIB byte at the cursor into `a`.
fn sib_exec(e: &OperandEnv, a: &mut Address, code: &mut ByteString, run: &mut OperandRun) -> (ok: bool)
    requires
        cursor_ok(old(code)),
    ensures
        final(code).code == old(code).code,
        cursor_ok(final(code)),
        ok ==> (*final(a), state_of(final(code), final(run))) == sib_address(
            env_of(e, old(code)),
            *old(a),
            state_of(old(code), old(run)),
        ),
        !ok ==> sib_address(env_of(e, old(code)), *old(a), state_of(old(code), old(run))).1.fails,
{
    let ghost env = env_of(e, code);
    let sib = code.peek();
    match grow_by(run.size, 1) {
        None => {
            return false;
        },
        Some(v) => {
            run.size = v;
        },
    }
    proof {
        lemma_advanced_ok(code.code@, code.curr as int, 1);
    }
    code.inc();
    let scale = (sib & 0xc0) >> 6;
    let index = (sib & 0x38) >> 3;
    let base = sib & 0x07;
    if (e.rex.x | index) != 4 {
        a.index = Some((index | e.rex.x) as usize);
        a.scale = scale_of_exec(scale);
    }
    if base != 5 {
        a.base = (base | e.rex.b) as usize;
        true
    } else {
        a.base = 5;
        if e.modrm.mode == 0 {
            match read_disp(code, run, 4) {
                None => false,
                Some(d) => {
                    a.sib_disp = Some(d);
                    a.no_base = true;
                    true
                },
            }
        } else {
            true
        }
    }
}

/// Reads the operand that the ModR/M byte's mod and r/m fields describe.
fn parse_modrm(
    e: &OperandEnv,
    reg: RegisterType,
    size: OperandSize,
    code: &mut ByteString,
    run: &mut OperandRun,
) -> (ok: bool)
    requires
        cursor_ok(old(code)),
    ensures
        final(code).code == old(code).code,
        cursor_ok(final(code)),
        ok ==> state_of(final(code), final(run)) == modrm_operand(
            env_of(e, old(code)),
            reg,
            size,
            state_of(old(code), old(run)),
        ),
        !ok ==> modrm_operand(env_of(e, old(code)), reg, size, state_of(old(code), old(run))).fails,
{
    let m = e.modrm;
    if m.mode == 3 {
        push_operand(
            run,
            Operand::Reg(
                Register {
                    index: (m.rm | e.rex.b) as usize,
                    size,
                    group: reg,
                    rex: e.ctx.rex.is_some(),
                },
            ),
        );
        true
    } else if m.mode == 0 && m.rm == 5 {
        let n: usize = if e.ctx.rex.is_none() && e.ctx.op_override {
            2
        } else {
            4
        };
        match read_disp(code, run, n) {
            None => false,
            Some(d) => {
                let blank = blank_address_exec(e, size);
                push_operand(run, Operand::Addr(Address { rm_disp: Some(d), no_base: true, ..blank }));
                true
            },
        }
    } else {
        let mut a = blank_address_exec(e, size);
        if m.rm == 4 {
            if !sib_exec(e, &mut a, code, run) {
                return false;
            }
        } else {
            a.base = (m.rm | e.rex.b) as usize;
        }
        if m.mode == 1 {
            match read_disp(code, run, 1) {
                None => {
                    return false;
                },
                Some(d) => {
                    a.rm_disp = Some(d);
                },
            }
        } else if m.mode == 2 {
            match read_disp(code, run, 4) {
                None => {
                    return false;
                },
                Some(d) => {
                    a.rm_disp = Some(d);
                },
            }
        }
        push_operand(run, Operand::Addr(a));
        true
    }
}

fn default_size_exec(e: &OperandEnv) -> (r: OperandSize)
    ensures
        r == default_size(env_parts(e)),
{
    if e.rex.w {
        OperandSize::Quad
    } else if e.ctx.rex.is_none() && e.ctx.op_override {
        OperandSize::Word
    } else {
        OperandSize::Double
    }
}

spec fn env_parts(e: &OperandEnv) -> OpEnv {
    OpEnv { code: Seq::empty(), ctx: e.ctx, rex: e.rex, modrm: e.modrm, reg_upper: e.reg_upper }
}

proof fn lemma_env_parts(e: &OperandEnv, code: &ByteString)
    ensures
        env_of(e, code) == (OpEnv { code: code.code@, ..env_parts(e) }),
{
}

fn modrm_reg_exec(op: &GenericOperand) -> (r: RegisterType)
    ensures
        r == modrm_reg(op@),
{
    match op.reg {
        Some(RegisterType::MMXReg) => RegisterType::MMXReg,
        _ => RegisterType::GPReg,
    }
}

fn imm_len_exec(size: OperandSize) -> (r: usize)
    ensures
        r == imm_len(size),
{
    match size {
        OperandSize::Byte => 1,
        OperandSize::Word => 2,
        OperandSize::Double => 4,
        OperandSize::DoubleSeg => 6,
        OperandSize::Quad => 8,
        OperandSize::Penta => 10,
        OperandSize::DoubleQuad => 16,
        OperandSize::QuadQuad => 32,
        OperandSize::Z => 48,
        OperandSize::DoubleQuadQuad => 64,
        OperandSize::Any => 0,
    }
}

/// Reads the `mib` operand: its SIB-like byte, the displacement it calls for, and the
/// memory operand they give.
fn mib_exec(e: &OperandEnv, size: OperandSize, code: &mut ByteString, run: &mut OperandRun) -> (ok: bool)
    requires
        cursor_ok(old(code)),
    ensures
        final(code).code == old(code).code,
        cursor_ok(final(code)),
        ok ==> state_of(final(code), final(run)) == mib_operand(
            env_of(e, old(code)),
            size,
            state_of(old(code), old(run)),
        ),
        !ok ==> mib_operand(env_of(e, old(code)), size, state_of(old(code), old(run))).fails,
{
    let base = code.peek() & 7;
    match grow_by(run.size, 1) {
        None => {
            return false;
        },
        Some(v) => {
            run.size = v;
        },
    }
    proof {
        lemma_advanced_ok(code.code@, code.curr as int, 1);
    }
    code.inc();
    let a = blank_address_exec(e, size);
    if base == 5 {
        let a5 = Address { base: 5, ..a };
        let n: usize = if e.modrm.mode == 1 {
            1
        } else {
            4
        };
        if e.modrm.mode > 2 {
            push_operand(run, Operand::Addr(a5));
            true
        } else {
            match read_disp(code, run, n) {
                None => false,
                Some(d) => {
                    let no_base = e.modrm.mode == 0;
                    push_operand(run, Operand::Addr(Address { sib_disp: Some(d), no_base, ..a5 }));
                    true
                },
            }
        }
    } else {
        push_operand(run, Operand::Addr(Address { base: (base | e.rex.b) as usize, ..a }));
        true
    }
}

/// Reads an operand that its encoding alone does not describe.
fn bespoke_exec(e: &OperandEnv, op: &GenericOperand, code: &mut ByteString, run: &mut OperandRun) -> (ok: bool)
    requires
        cursor_ok(old(code)),
    ensures
        final(code).code == old(code).code,
        cursor_ok(final(code)),
        ok ==> state_of(final(code), final(run)) == bespoke_operand(
            env_of(e, old(code)),
            op@,
            state_of(old(code), old(run)),
        ),
        !ok ==> bespoke_operand(env_of(e, old(code)), op@, state_of(old(code), old(run))).fails,
{
    proof {
        lemma_env_parts(e, code);
    }
    let dsize = default_size_exec(e);
    let size = if op.size != OperandSize::Any {
        op.size
    } else {
        dsize
    };
    let text = op.text.as_str();
    if regex_is_match("([ER]?[AC]X)|([AC][HL])", text) {
        let v = if e.reg_upper {
            op.text.clone()
        } else {
            to_lowercase(text)
        };
        push_operand(run, Operand::Bes(Bespoke { value: v }));
        true
    } else if str_eq(text, "mib") {
        mib_exec(e, size, code, run)
    } else if regex_is_match("r(8|16|32|64)/m(8|16|32|64)", text) {
        if !take_modrm_exec(code, run) {
            return false;
        }
        let reg = modrm_reg_exec(op);
        if e.modrm.mode == 3 {
            parse_modrm(e, reg, dsize, code, run)
        } else {
            parse_modrm(e, reg, op.size, code, run)
        }
    } else if str_contains(text, "16:") {
        let asz = e.ctx.addr_size();
        if str_starts_with(text, "ptr") {
            if asz == OperandSize::Word || asz == OperandSize::Double {
                match read_disp(code, run, 6) {
                    None => false,
                    Some(d) => {
                        push_operand(run, Operand::Imm(d));
                        true
                    },
                }
            } else {
                true
            }
        } else {
            if !take_modrm_exec(code, run) {
                return false;
            }
            let reg = modrm_reg_exec(op);
            if asz == OperandSize::Word {
                parse_modrm(e, reg, OperandSize::Double, code, run)
            } else if asz == OperandSize::Double {
                parse_modrm(e, reg, OperandSize::DoubleSeg, code, run)
            } else if asz == OperandSize::Quad {
                parse_modrm(e, reg, OperandSize::Penta, code, run)
            } else {
                true
            }
        }
    } else if str_eq(text, "m") {
        if !take_modrm_exec(code, run) {
            return false;
        }
        let reg = modrm_reg_exec(op);
        parse_modrm(e, reg, size, code, run)
    } else {
        false
    }
}

/// Reads one operand.
fn operand_step_exec(e: &OperandEnv, op: &GenericOperand, code: &mut ByteString, run: &mut OperandRun) -> (ok: bool)
    requires
        cursor_ok(old(code)),
    ensures
        final(code).code == old(code).code,
        cursor_ok(final(code)),
        ok ==> state_of(final(code), final(run)) == operand_step(
            env_of(e, old(code)),
            state_of(old(code), old(run)),
            op@,
        ),
        !ok ==> operand_step(env_of(e, old(code)), state_of(old(code), old(run)), op@).fails,
{
    proof {
        lemma_env_parts(e, code);
    }
    let dsize = default_size_exec(e);
    let size = if op.size != OperandSize::Any {
        op.size
    } else {
        dsize
    };
    let group = match op.reg {
        Some(g) => g,
        None => RegisterType::GPReg,
    };
    match op.encoding {
        OperandEncoding::Modrm => {
            if !take_modrm_exec(code, run) {
                return false;
            }
            let reg = modrm_reg_exec(op);
            parse_modrm(e, reg, size, code, run)
        },
        OperandEncoding::Modreg => {
            if !take_modrm_exec(code, run) {
                return false;
            }
            push_operand(
                run,
                Operand::Reg(
                    Register {
                        index: (e.modrm.reg | e.rex.r) as usize,
                        size,
                        group,
                        rex: e.ctx.rex.is_some(),
                    },
                ),
            );
            true
        },
        OperandEncoding::Opcode => {
            if run.size >= isize::MAX as usize {
                return false;
            }
            let back: usize = run.size + 1;
            let byte = if back > code.curr {
                0u8
            } else {
                code.code[code.curr - back]
            };
            push_operand(
                run,
                Operand::Reg(
                    Register { index: ((byte & 7) | e.rex.b) as usize, size, group, rex: e.ctx.rex.is_some() },
                ),
            );
            true
        },
        OperandEncoding::Immediate => {
            let n = imm_len_exec(size);
            if n == 0 || n > 8 {
                return false;
            }
            match read_disp(code, run, n) {
                None => false,
                Some(d) => {
                    push_operand(run, Operand::Imm(d));
                    true
                },
            }
        },
        OperandEncoding::Bespoke => bespoke_exec(e, op, code, run),
    }
}

// ---------------------------------------------------------------------------
// Responses and the decoder
// ---------------------------------------------------------------------------

/// The instruction found at the cursor: the number of opcode bytes and the prefix bytes.
#[derive(Debug)]
pub struct InstructionResponse {
    pub val: Option<Instruction>,
    pub size: usize,
    pub prefixes: Option<Vec<u8>>,
}

/// The operands read and the number of bytes they take.
#[derive(Debug)]
pub struct OperandResponse {
    pub val: Option<Vec<Operand>>,
    pub size: usize,
}

impl Default for OperandResponse {
    fn default() -> (r: Self)
        ensures
            r.val is None,
            r.size == 0,
    {
        OperandResponse { val: None, size: 0 }
    }
}

/// One decoded instruction: the instruction, its operands, all its bytes and its prefix
/// bytes. No bytes means that there was nothing left to decode; bytes without an
/// instruction mean that the byte is no instruction.
#[derive(Debug)]
pub struct ParseResponse {
    pub instruction: Option<Instruction>,
    pub operands: Option<Vec<Operand>>,
    pub bytes: Option<Vec<u8>>,
    pub prefixes: Option<Vec<u8>>,
}

/// The abstract value of a `ParseResponse`.
pub ghost struct ParseResponseView {
    pub instruction: Option<InstructionView>,
    pub operands: Option<Seq<OperandView>>,
    pub bytes: Option<Seq<u8>>,
    pub prefixes: Option<Seq<u8>>,
}

/// The abstract value of an optional byte vector.
pub open spec fn opt_bytes(v: Option<Vec<u8>>) -> Option<Seq<u8>> {
    match v {
        Some(b) => Some(b@),
        None => None,
    }
}

/// The abstract value of an optional operand vector.
pub open spec fn opt_ops(v: Option<Vec<Operand>>) -> Option<Seq<OperandView>> {
    match v {
        Some(o) => Some(op_views(o@)),
        None => None,
    }
}

/// The abstract value of an optional instruction.
pub open spec fn opt_ins(v: Option<Instruction>) -> Option<InstructionView> {
    match v {
        Some(i) => Some(i@),
        None => None,
    }
}

impl View for ParseResponse {
    type V = ParseResponseView;

    open spec fn view(&self) -> ParseResponseView {
        ParseResponseView {
            instruction: opt_ins(self.instruction),
            operands: opt_ops(self.operands),
            bytes: opt_bytes(self.bytes),
            prefixes: opt_bytes(self.prefixes),
        }
    }
}

fn clone_bytes(v: &Option<Vec<u8>>) -> (r: Option<Vec<u8>>)
    ensures
        opt_bytes(r) == opt_bytes(*v),
{
    match v {
        Some(b) => {
            let c = b.clone();
            assert(c@ =~= b@);
            Some(c)
        },
        None => None,
    }
}

impl Clone for ParseResponse {
    fn clone(&self) -> (r: Self)
        ensures
            r@ == self@,
    {
        let instruction = match &self.instruction {
            Some(i) => Some(i.clone()),
            None => None,
        };
        let operands = match &self.operands {
            Some(v) => {
                let c = v.clone();
                assert(op_views(c@) =~= op_views(v@));
                Some(c)
            },
            None => None,
        };
        ParseResponse {
            instruction,
            operands,
            bytes: clone_bytes(&self.bytes),
            prefixes: clone_bytes(&self.prefixes),
        }
    }
}

/// A decoder: its context, formatting options, opcode tree and code.
pub struct Decoder {
    pub context: Context,
    pub format: InstructionFormatting,
    pub tree: InstructionTree,
    pub code: ByteString,
}

/// The abstract state of a decoder.
pub ghost struct DecoderView {
    pub ctx: Context,
    pub code: Seq<u8>,
    pub curr: int,
    pub tree: TreeView,
    pub ins_upper: bool,
    pub reg_upper: bool,
}

impl Decoder {
    /// The abstract state of the decoder.
    pub open spec fn state(&self) -> DecoderView {
        DecoderView {
            ctx: self.context,
            code: self.code.code@,
            curr: self.code.curr as int,
            tree: self.tree@,
            ins_upper: self.format.ins_uppercase,
            reg_upper: self.format.reg_uppercase,
        }
    }

    /// Searches the tree for an opcode at the cursor, allowing up to `MAX_PREFIX` prefix
    /// bytes before it: `None` where a walk would never end, `Some(None)` where there is no
    /// opcode, otherwise the number of prefix bytes and the offset of the last opcode byte.
    fn find_opcode(&mut self) -> (r: Option<Option<(usize, usize)>>)
        requires
            cursor_ok(&old(self).code),
        ensures
            final(self).code == old(self).code,
            final(self).context == old(self).context,
            final(self).format == old(self).format,
            final(self).tree@.nodes == old(self).tree@.nodes,
            final(self).tree@.root == old(self).tree@.root,
            match search(
                old(self).tree@.nodes,
                old(self).tree@.root,
                old(self).code.code@,
                old(self).code.curr as int,
                0,
            ) {
                SearchResult::Endless => r is None,
                SearchResult::NotFound(last) => r == Some(None::<(usize, usize)>)
                    && final(self).tree@.last == last,
                SearchResult::Found(pc, i, c) => r == Some(Some((pc as usize, i as usize)))
                    && final(self).tree@.last == c,
            },
    {
        let ghost nodes = self.tree@.nodes;
        let ghost root = self.tree@.root;
        let ghost code = self.code.code@;
        let ghost curr = self.code.curr as int;
        let mut pc: usize = 0;
        loop
            invariant
                pc <= MAX_PREFIX,
                self.code == old(self).code,
                self.context == old(self).context,
                self.format == old(self).format,
                self.tree@.nodes == nodes,
                self.tree@.root == root,
                nodes == old(self).tree@.nodes,
                root == old(self).tree@.root,
                code == old(self).code.code@,
                curr == old(self).code.curr,
                cursor_ok(&self.code),
                search(nodes, root, code, curr, 0) == search(nodes, root, code, curr, pc as int),
            decreases MAX_PREFIX - pc,
        {
            self.tree.reset();
            let mut i: usize = pc;
            let mut missed = false;
            while i < MAX_WIDTH && !missed
                invariant
                    pc <= i <= MAX_WIDTH,
                    nodes == old(self).tree@.nodes,
                    root == old(self).tree@.root,
                    code == old(self).code.code@,
                    curr == old(self).code.curr,
                    self.code == old(self).code,
                    self.context == old(self).context,
                    self.format == old(self).format,
                    self.tree@.nodes == nodes,
                    self.tree@.root == root,
                    code == self.code.code@,
                    curr == self.code.curr,
                    cursor_ok(&self.code),
                    !missed ==> pass(nodes, root, root, code, curr, pc as int) == pass(
                        nodes,
                        self.tree@.last,
                        root,
                        code,
                        curr,
                        i as int,
                    ),
                    missed ==> pass(nodes, root, root, code, curr, pc as int) == (
                        PassResult::Miss,
                        self.tree@.last,
                    ),
                    search(nodes, root, code, curr, 0) == search(nodes, root, code, curr, pc as int),
                    pc <= MAX_PREFIX,
                decreases MAX_WIDTH - i, if missed {
                    0int
                } else {
                    1int
                },
            {
                let byte = self.code.get_offset(i as isize);
                match self.tree.step_to(byte) {
                    None => {
                        missed = true;
                    },
                    Some(c) => {
                        let _ = self.tree.current();
                        let (leaf, empty) = self.tree.shape(c);
                        if leaf {
                            proof {
                                lemma_leaf_gather(nodes, c as int);
                            }
                            if empty {
                                missed = true;
                            } else {
                                return Some(Some((pc, i)));
                            }
                        } else {
                            i = i + 1;
                        }
                    },
                }
            }
            if !missed {
                return None;
            }
            pc = pc + 1;
            if pc > MAX_PREFIX {
                return Some(None);
            }
        }
    }

    /// There is code loaded.
    pub fn has_code(&self) -> (r: bool)
        ensures
            r == (self.code.code@.len() > 0),
    {
        self.code.code.len() != 0
    }

    /// Loads code, with the cursor at its start.
    pub fn load_code(&mut self, code: &Vec<u8>)
        ensures
            final(self).code.code@ == code@,
            final(self).code.curr == 0,
            final(self).context == old(self).context,
            final(self).tree == old(self).tree,
            final(self).format == old(self).format,
    {
        let copy = copy_range(code, 0, code.len());
        assert(code@.subrange(0, code@.len() as int) == code@);
        self.code = ByteString { code: copy, curr: 0 };
    }

    /// Adds code after the code loaded.
    pub fn append_code(&mut self, code: &Vec<u8>)
        ensures
            final(self).code.code@ == old(self).code.code@ + code@,
            final(self).code.curr == old(self).code.curr,
            final(self).context == old(self).context,
            final(self).tree == old(self).tree,
            final(self).format == old(self).format,
    {
        self.code.append(code);
    }

    /// Decodes the instruction at the cursor (see `decode_instruction`): the prefixes set
    /// the context, the cursor moves past the prefixes and opcode, and the answer holds the
    /// instruction chosen, the number of opcode bytes and the prefix bytes.
    pub fn parse_instruction(&mut self) -> (r: InstructionResponse)
        requires
            old(self).code.curr < old(self).code.code@.len(),
            old(self).code.code@.len() + 16 <= isize::MAX,
            !decode_instruction(
                old(self).context,
                old(self).code.code@,
                old(self).code.curr as int,
                old(self).tree@,
                old(self).format.ins_uppercase,
            ).fails,
        ensures
            final(self).code.code == old(self).code.code,
            final(self).format == old(self).format,
            final(self).tree@.nodes == old(self).tree@.nodes,
            final(self).tree@.root == old(self).tree@.root,
            ({
                let o = decode_instruction(
                    old(self).context,
                    old(self).code.code@,
                    old(self).code.curr as int,
                    old(self).tree@,
                    old(self).format.ins_uppercase,
                );
                &&& opt_ins(r.val) == o.val
                &&& r.size == o.size
                &&& opt_bytes(r.prefixes) == o.prefixes
                &&& final(self).context == o.ctx
                &&& final(self).code.curr == o.curr
                &&& final(self).tree@.last == o.last
            }),
            final(self).context.size == old(self).context.size,
            opt_bytes(r.prefixes) == Some(Seq::<u8>::empty()) && (old(self).code.code@[old(
                self,
            ).code.curr as int] & 0xf0) != 0x40 ==> final(self).context == reset_ctx(
                old(self).context,
            ),
    {
        proof {
            lemma_instruction_context(
                old(self).context,
                old(self).code.code@,
                old(self).code.curr as int,
                old(self).tree@,
                old(self).format.ins_uppercase,
            );
        }
        match self.try_parse_instruction() {
            Some(r) => r,
            None => {
                proof {
                    assert(false);
                }
                InstructionResponse { val: None, size: 0, prefixes: None }
            },
        }
    }

    /// Decodes one instruction at the cursor like `parse_one`; `None` where the decoder
    /// fails there (see `decode_step`).
    pub fn try_parse_one(&mut self) -> (r: Option<ParseResponse>)
        requires
            old(self).code.code@.len() + 16 <= isize::MAX,
        ensures
            final(self).code.code == old(self).code.code,
            final(self).format == old(self).format,
            match r {
                Some(resp) => {
                    &&& !decode_step(old(self).state()).fails
                    &&& resp@ == decode_step(old(self).state()).resp
                    &&& final(self).state() == decode_step(old(self).state()).next
                },
                None => decode_step(old(self).state()).fails,
            },
    {
        if self.code.is_end() {
            return Some(ParseResponse { instruction: None, operands: None, bytes: None, prefixes: None });
        }
        let ghost s0 = self.state();
        let start = self.code.curr;
        let instruction = match self.try_parse_instruction() {
            Some(x) => x,
            None => {
                return None;
            },
        };
        let ghost s1 = self.state();
        assert(s1.tree =~= (TreeView { last: s1.tree.last, ..s0.tree }));
        let ins = match &instruction.val {
            None => {
                self.code.curr = start;
                let byte = self.code.take();
                let bytes = vec![byte];
                assert(bytes@ =~= seq![byte]);
                assert(self.state().tree == s1.tree);
                return Some(ParseResponse {
                    instruction: None,
                    operands: None,
                    bytes: Some(bytes),
                    prefixes: None,
                });
            },
            Some(i) => i,
        };
        let operands = match self.read_operands(ins) {
            Some(o) => o,
            None => {
                return None;
            },
        };
        let pref_size: usize = match &instruction.prefixes {
            Some(p) => p.len(),
            None => 0,
        };
        let end = self.code.curr;
        if instruction.size > end || pref_size > end - instruction.size || operands.size > end
            - instruction.size - pref_size {
            return None;
        }
        let total = instruction.size + pref_size + operands.size;
        let bytes = copy_range(&self.code.code, end - total, end);
        Some(ParseResponse {
            instruction: instruction.val,
            operands: operands.val,
            bytes: Some(bytes),
            prefixes: instruction.prefixes,
        })
    }

    /// Decodes one instruction at the cursor (see `decode_step`).
    pub fn parse_one(&mut self) -> (r: ParseResponse)
        requires
            old(self).code.code@.len() + 16 <= isize::MAX,
            !decode_step(old(self).state()).fails,
        ensures
            r@ == decode_step(old(self).state()).resp,
            final(self).state() == decode_step(old(self).state()).next,
            final(self).format == old(self).format,
    {
        match self.try_parse_one() {
            Some(r) => r,
            None => {
                proof {
                    assert(false);
                }
                ParseResponse { instruction: None, operands: None, bytes: None, prefixes: None }
            },
        }
    }

    /// Decodes until the end of the code: the answers of the steps until the end.
    pub fn parse(&mut self) -> (r: Vec<ParseResponse>)
        requires
            old(self).code.code@.len() + 16 <= isize::MAX,
            exists|k: nat| ends_within(old(self).state(), k),
        ensures
            exists|k: nat|
                {
                    &&& ends_within(old(self).state(), k)
                    &&& resp_views(r@) == run_resps(old(self).state(), k)
                    &&& final(self).state() == run_state(old(self).state(), k)
                },
            at_end(final(self).code.code@, final(self).code.curr as int),
            r@.len() <= old(self).code.code@.len() - old(self).code.curr || r@.len() == 0,
            forall|j: int| 0 <= j < r@.len() ==> (#[trigger] r@[j]).bytes is Some,
            final(self).format == old(self).format,
    {
        let ghost s0 = self.state();
        let ghost k0: nat = choose|k: nat| ends_within(s0, k);
        let ghost mut left: nat = k0;
        let mut responses: Vec<ParseResponse> = Vec::new();
        while !self.code.is_end()
            invariant
                self.code.code@.len() + 16 <= isize::MAX,
                self.code.code@ == s0.code,
                self.format == old(self).format,
                ends_within(s0, k0),
                ends_within(self.state(), left),
                run_resps(s0, k0) == resp_views(responses@) + run_resps(self.state(), left),
                run_state(s0, k0) == run_state(self.state(), left),
            decreases left,
        {
            let ghost before = self.state();
            let ghost prev = responses@;
            let rep = self.parse_one();
            responses.push(rep);
            proof {
                assert(resp_views(responses@) =~= resp_views(prev).push(rep@));
                assert(run_resps(before, left) == seq![rep@] + run_resps(self.state(), (left - 1) as nat));
                assert(resp_views(responses@) + run_resps(self.state(), (left - 1) as nat) =~= resp_views(prev) + run_resps(before, left));
                left = (left - 1) as nat;
            }
        }
        assert(resp_views(responses@) + Seq::<ParseResponseView>::empty() == resp_views(responses@));
        proof {
            lemma_run_bounded(s0, k0);
            assert forall|j: int| 0 <= j < responses@.len() implies (#[trigger] responses@[j]).bytes is Some by {
                assert(resp_views(responses@)[j] == responses@[j]@);
            }
        }
        responses
    }

    /// Decodes at most `n` instructions, stopping at the end of the code.
    pub fn parse_n(&mut self, n: usize) -> (r: Vec<ParseResponse>)
        requires
            old(self).code.code@.len() + 16 <= isize::MAX,
            run_ok(old(self).state(), n as nat),
        ensures
            resp_views(r@) == run_resps(old(self).state(), n as nat),
            final(self).state() == run_state(old(self).state(), n as nat),
            r@.len() <= n,
            r@.len() < n ==> at_end(final(self).code.code@, final(self).code.curr as int),
            n == 0 ==> r@.len() == 0 && final(self).state() == old(self).state(),
            final(self).format == old(self).format,
    {
        let ghost s0 = self.state();
        proof {
            lemma_run_short(s0, n as nat);
        }
        let mut responses: Vec<ParseResponse> = Vec::new();
        while !self.code.is_end() && responses.len() < n
            invariant
                responses@.len() <= n,
                self.code.code@.len() + 16 <= isize::MAX,
                self.code.code@ == s0.code,
                self.format == old(self).format,
                run_ok(self.state(), (n - responses@.len()) as nat),
                run_resps(s0, n as nat) == resp_views(responses@) + run_resps(
                    self.state(),
                    (n - responses@.len()) as nat,
                ),
                run_state(s0, n as nat) == run_state(self.state(), (n - responses@.len()) as nat),
            decreases n - responses@.len(),
        {
            let ghost before = self.state();
            let ghost prev = responses@;
            let ghost left: nat = (n - responses@.len()) as nat;
            let rep = self.parse_one();
            responses.push(rep);
            proof {
                assert(resp_views(responses@) =~= resp_views(prev).push(rep@));
                assert(run_resps(before, left) == seq![rep@] + run_resps(self.state(), (left - 1) as nat));
                assert(resp_views(responses@) + run_resps(self.state(), (left - 1) as nat) =~= resp_views(prev) + run_resps(before, left));
            }
        }
        proof {
            let left: nat = (n - responses@.len()) as nat;
            assert(run_resps(self.state(), left) =~= Seq::<ParseResponseView>::empty());
            assert(resp_views(responses@) + Seq::<ParseResponseView>::empty() == resp_views(responses@));
        }
        responses
    }

    /// Decodes at most `n` instructions like `parse_n`; `None` where the decoder fails on
    /// one of them.
    pub fn try_parse_n(&mut self, n: usize) -> (r: Option<Vec<ParseResponse>>)
        requires
            old(self).code.code@.len() + 16 <= isize::MAX,
        ensures
            final(self).format == old(self).format,
            match r {
                Some(v) => {
                    &&& run_ok(old(self).state(), n as nat)
                    &&& resp_views(v@) == run_resps(old(self).state(), n as nat)
                    &&& final(self).state() == run_state(old(self).state(), n as nat)
                    &&& v@.len() <= n
                    &&& v@.len() < n ==> at_end(final(self).code.code@, final(self).code.curr as int)
                },
                None => !run_ok(old(self).state(), n as nat),
            },
    {
        let ghost s0 = self.state();
        proof {
            lemma_run_short(s0, n as nat);
        }
        let mut responses: Vec<ParseResponse> = Vec::new();
        while !self.code.is_end() && responses.len() < n
            invariant
                responses@.len() <= n,
                s0 == old(self).state(),
                self.code.code@.len() + 16 <= isize::MAX,
                self.code.code@ == s0.code,
                self.format == old(self).format,
                run_ok(s0, n as nat) == run_ok(self.state(), (n - responses@.len()) as nat),
                run_resps(s0, n as nat) == resp_views(responses@) + run_resps(
                    self.state(),
                    (n - responses@.len()) as nat,
                ),
                run_state(s0, n as nat) == run_state(self.state(), (n - responses@.len()) as nat),
            decreases n - responses@.len(),
        {
            let ghost before = self.state();
            let ghost prev = responses@;
            let ghost left: nat = (n - responses@.len()) as nat;
            let rep = match self.try_parse_one() {
                Some(rep) => rep,
                None => {
                    return None;
                },
            };
            responses.push(rep);
            proof {
                assert(resp_views(responses@) =~= resp_views(prev).push(rep@));
                assert(run_resps(before, left) == seq![rep@] + run_resps(self.state(), (left - 1) as nat));
                assert(resp_views(responses@) + run_resps(self.state(), (left - 1) as nat) =~= resp_views(prev) + run_resps(before, left));
            }
        }
        proof {
            let left: nat = (n - responses@.len()) as nat;
            assert(run_resps(self.state(), left) =~= Seq::<ParseResponseView>::empty());
            assert(resp_views(responses@) + Seq::<ParseResponseView>::empty() == resp_views(responses@));
        }
        Some(responses)
    }

    /// Decodes until the end of the code like `parse`, trying one step more than there are
    /// bytes; `None` exactly where decoding never reaches the end (a step fails, or the
    /// steps go on for ever).
    pub fn try_parse(&mut self) -> (r: Option<Vec<ParseResponse>>)
        requires
            old(self).code.code@.len() + 16 <= isize::MAX,
        ensures
            final(self).format == old(self).format,
            match r {
                Some(v) => {
                    &&& ends_within(old(self).state(), old(self).code.code@.len() + 1)
                    &&& resp_views(v@) == run_resps(
                        old(self).state(),
                        old(self).code.code@.len() + 1,
                    )
                    &&& final(self).state() == run_state(
                        old(self).state(),
                        old(self).code.code@.len() + 1,
                    )
                    &&& at_end(final(self).code.code@, final(self).code.curr as int)
                },
                None => forall|k: nat| !ends_within(old(self).state(), k),
            },
    {
        let ghost s0 = self.state();
        assert forall|k: nat| #[trigger] ends_within(s0, k) implies ends_within(s0, (s0.code.len() + 1) as nat) by {
            lemma_ends_within_bytes(s0, k, (s0.code.len() + 1) as nat);
        }
        let bound: usize = self.code.code.len() + 1;
        let mut left: usize = bound;
        let mut responses: Vec<ParseResponse> = Vec::new();
        while !self.code.is_end()
            invariant
                s0 == old(self).state(),
                self.code.code@.len() + 16 <= isize::MAX,
                self.code.code@ == s0.code,
                bound == s0.code.len() + 1,
                self.format == old(self).format,
                forall|k: nat| #[trigger] ends_within(s0, k) ==> ends_within(s0, bound as nat),
                ends_within(s0, bound as nat) == ends_within(self.state(), left as nat),
                run_resps(s0, bound as nat) == resp_views(responses@) + run_resps(
                    self.state(),
                    left as nat,
                ),
                run_state(s0, bound as nat) == run_state(self.state(), left as nat),
            decreases left,
        {
            if left == 0 {
                return None;
            }
            let ghost before = self.state();
            let ghost prev = responses@;
            let rep = match self.try_parse_one() {
                Some(rep) => rep,
                None => {
                    return None;
                },
            };
            responses.push(rep);
            proof {
                assert(resp_views(responses@) =~= resp_views(prev).push(rep@));
                assert(run_resps(before, left as nat) == seq![rep@] + run_resps(
                    self.state(),
                    (left - 1) as nat,
                ));
                assert(resp_views(responses@) + run_resps(self.state(), (left - 1) as nat)
                    =~= resp_views(prev) + run_resps(before, left as nat));
            }
            left = left - 1;
        }
        assert(resp_views(responses@) + Seq::<ParseResponseView>::empty() == resp_views(responses@));
        Some(responses)
    }

    /// Decodes the instruction at the cursor; `None` where the decoder fails.
    fn try_parse_instruction(&mut self) -> (r: Option<InstructionResponse>)
        requires
            cursor_ok(&old(self).code),
        ensures
            final(self).code.code == old(self).code.code,
            final(self).format == old(self).format,
            final(self).tree@.nodes == old(self).tree@.nodes,
            final(self).tree@.root == old(self).tree@.root,
            ({
                let o = decode_instruction(
                    old(self).context,
                    old(self).code.code@,
                    old(self).code.curr as int,
                    old(self).tree@,
                    old(self).format.ins_uppercase,
                );
                match r {
                    Some(resp) => {
                        &&& !o.fails
                        &&& opt_ins(resp.val) == o.val
                        &&& resp.size == o.size
                        &&& opt_bytes(resp.prefixes) == o.prefixes
                        &&& final(self).context == o.ctx
                        &&& final(self).code.curr == o.curr
                        &&& final(self).tree@.last == o.last
                        &&& cursor_ok(&final(self).code)
                    },
                    None => o.fails,
                }
            }),
    {
        let ghost code0 = self.code.code@;
        let ghost curr0 = self.code.curr as int;
        let ghost tree0 = self.tree@;
        self.tree.reset();
        self.context.rex = None;
        self.context.one = 0;
        self.context.two = 0;
        self.context.op_override = false;
        self.context.addr_override = false;
        assert(self.context == reset_ctx(old(self).context));
        proof {
            lemma_search_found(tree0.nodes, tree0.root, code0, curr0, 0);
        }
        let found = self.find_opcode();
        let (pc, i) = match found {
            None => {
                return None;
            },
            Some(None) => {
                return Some(InstructionResponse { val: None, size: 1, prefixes: None });
            },
            Some(Some(x)) => x,
        };
        let prefix = read_bytes_exec(&mut self.code, pc);
        let first = self.code.peek();
        let size: usize = i + 1 - pc;
        skip_bytes(&mut self.code, size);
        proof {
            lemma_advanced_add(code0, curr0, pc as int, size as int);
        }
        apply_prefixes_exec(&mut self.context, &prefix);
        if (first & 0xf0) == 0x40 {
            self.context.rex = Some(Rex::from(first));
        }
        let c = self.tree.current();
        let cands = self.tree.gather_instructions(c);
        let mut valids = allowed_exec(&cands, &self.context);
        arch_filter_exec(&mut valids, &self.context);
        if valids.len() == 0 {
            return Some(InstructionResponse { val: None, size: 0, prefixes: None });
        }
        assert(ref_views(valids@)[0] == valids@[0]@);
        let adj = regex_is_match("/[0-7]", valids[0].opcode.as_str());
        let mut size = size;
        if adj {
            if self.code.curr == 0 {
                return None;
            }
            size = size - 1;
            self.code.dec();
        }
        match select_exec(&valids, &self.context) {
            None => None,
            Some(ins) => {
                let mut rep = ins.clone();
                if !self.format.ins_uppercase {
                    rep.text = to_lowercase(rep.text.as_str());
                }
                Some(InstructionResponse { val: Some(rep), size, prefixes: Some(prefix) })
            },
        }
    }

    /// Reads the operands of `instruction` at the cursor; `None` where the decoder fails.
    fn read_operands(&mut self, instruction: &Instruction) -> (r: Option<OperandResponse>)
        requires
            cursor_ok(&old(self).code),
        ensures
            final(self).code.code == old(self).code.code,
            final(self).context == old(self).context,
            final(self).tree == old(self).tree,
            final(self).format == old(self).format,
            ({
                let o = decode_operands(
                    old(self).context,
                    old(self).code.code@,
                    old(self).code.curr as int,
                    instruction@,
                    old(self).format.reg_uppercase,
                );
                match r {
                    Some(resp) => {
                        &&& !o.fails
                        &&& opt_ops(resp.val) == o.val
                        &&& resp.size == o.size
                        &&& final(self).code.curr == o.curr
                        &&& cursor_ok(&final(self).code)
                    },
                    None => o.fails,
                }
            }),
    {
        match &instruction.operands {
            None => Some(OperandResponse { val: None, size: 0 }),
            Some(ops) => {
                let rex = match self.context.rex {
                    Some(r) => r,
                    None => Rex { w: false, r: 0, b: 0, x: 0 },
                };
                let b = self.code.peek();
                let modrm = Modrm { mode: (b & 0xc0) >> 6, reg: (b & 0x38) >> 3, rm: b & 0x07 };
                let e = OperandEnv {
                    ctx: self.context,
                    rex,
                    modrm,
                    reg_upper: self.format.reg_uppercase,
                };
                let ghost env = env_of(&e, &self.code);
                assert(env == OpEnv {
                    code: self.code.code@,
                    ctx: self.context,
                    rex: rex_or_empty(self.context),
                    modrm: modrm_of(byte_at(self.code.code@, self.code.curr as int)),
                    reg_upper: self.format.reg_uppercase,
                });
                let ghost ops_v = operand_views(ops@);
                let mut run = OperandRun { size: 0, has_modrm: false, ops: Vec::new() };
                let ghost st0 = state_of(&self.code, &run);
                assert(op_views(run.ops@) =~= Seq::<OperandView>::empty());
                assert(ops_v.skip(0) == ops_v);
                let mut k: usize = 0;
                while k < ops.len()
                    invariant
                        k <= ops@.len(),
                        ops_v == operand_views(ops@),
                        instruction@.operands == Some(ops_v),
                        cursor_ok(&old(self).code),
                        env == env_of(&e, &self.code),
                        st0 == (OpState {
                            curr: old(self).code.curr as int,
                            size: 0,
                            has_modrm: false,
                            ops: Seq::empty(),
                            fails: false,
                        }),
                        env == (OpEnv {
                            code: old(self).code.code@,
                            ctx: old(self).context,
                            rex: rex_or_empty(old(self).context),
                            modrm: modrm_of(byte_at(old(self).code.code@, old(self).code.curr as int)),
                            reg_upper: old(self).format.reg_uppercase,
                        }),
                        self.code.code == old(self).code.code,
                        self.context == old(self).context,
                        self.tree == old(self).tree,
                        self.format == old(self).format,
                        cursor_ok(&self.code),
                        !state_of(&self.code, &run).fails,
                        operands_fold(env, st0, ops_v) == operands_fold(
                            env,
                            state_of(&self.code, &run),
                            ops_v.skip(k as int),
                        ),
                    decreases ops.len() - k,
                {
                    let ghost before = state_of(&self.code, &run);
                    assert(ops_v.skip(k as int)[0] == ops@[k as int]@);
                    assert(ops_v.skip(k as int).drop_first() == ops_v.skip(k + 1));
                    if !operand_step_exec(&e, &ops[k], &mut self.code, &mut run) {
                        proof {
                            let stepped = operand_step(env, before, ops_v.skip(k as int)[0]);
                            assert(operands_fold(env, stepped, ops_v.skip(k + 1)) == stepped);
                            assert(operands_fold(env, before, ops_v.skip(k as int)) == stepped);
                        }
                        return None;
                    }
                    k = k + 1;
                }
                assert(ops_v.skip(k as int) =~= Seq::<GenericOperandView>::empty());
                if run.ops.len() == 0 {
                    Some(OperandResponse { val: None, size: 0 })
                } else {
                    Some(OperandResponse { val: Some(run.ops), size: run.size })
                }
            },
        }
    }
}

// ---------------------------------------------------------------------------
// Choosing the instruction
// ---------------------------------------------------------------------------

proof fn lemma_advanced_add(code: Seq<u8>, curr: int, a: int, b: int)
    requires
        0 <= curr <= code.len(),
        a >= 0,
        b >= 0,
    ensures
        advanced(code, advanced(code, curr, a), b) == advanced(code, curr, a + b),
{
}

/// Reads `n` bytes at the cursor, moving past each.
fn read_bytes_exec(code: &mut ByteString, n: usize) -> (r: Vec<u8>)
    requires
        cursor_ok(old(code)),
    ensures
        final(code).code == old(code).code,
        cursor_ok(final(code)),
        r@ == read_bytes(old(code).code@, old(code).curr as int, n as nat),
        final(code).curr == advanced(old(code).code@, old(code).curr as int, n as int),
{
    let ghost code0 = code.code@;
    let ghost curr0 = code.curr as int;
    let mut out: Vec<u8> = Vec::new();
    let mut k: usize = 0;
    while k < n
        invariant
            k <= n,
            code.code == old(code).code,
            code0 == code.code@,
            curr0 == old(code).curr,
            cursor_ok(code),
            0 <= curr0 <= code0.len(),
            code.curr == advanced(code0, curr0, k as int),
            out@ == read_bytes(code0, curr0, k as nat),
        decreases n - k,
    {
        let b = code.peek();
        out.push(b);
        code.inc();
        proof {
            lemma_advanced_add(code0, curr0, k as int, 1);
            assert(out@ =~= read_bytes(code0, curr0, (k + 1) as nat));
        }
        k = k + 1;
    }
    assert(read_bytes(code0, curr0, 0) =~= Seq::<u8>::empty());
    out
}

/// Moves the cursor forward `n` times.
fn skip_bytes(code: &mut ByteString, n: usize)
    requires
        cursor_ok(old(code)),
    ensures
        final(code).code == old(code).code,
        cursor_ok(final(code)),
        final(code).curr == advanced(old(code).code@, old(code).curr as int, n as int),
{
    let ghost code0 = code.code@;
    let ghost curr0 = code.curr as int;
    let mut k: usize = 0;
    while k < n
        invariant
            k <= n,
            code.code == old(code).code,
            code0 == code.code@,
            curr0 == old(code).curr,
            cursor_ok(code),
            0 <= curr0 <= code0.len(),
            code.curr == advanced(code0, curr0, k as int),
        decreases n - k,
    {
        code.inc();
        proof {
            lemma_advanced_add(code0, curr0, k as int, 1);
        }
        k = k + 1;
    }
}

/// Applies the prefix bytes to the context.
fn apply_prefixes_exec(ctx: &mut Context, prefixes: &Vec<u8>)
    ensures
        *final(ctx) == apply_prefixes(*old(ctx), prefixes@),
{
    let mut k: usize = 0;
    let mut done = false;
    assert(prefixes@.skip(0) == prefixes@);
    while k < prefixes.len() && !done
        invariant
            k <= prefixes@.len(),
            !done ==> apply_prefixes(*old(ctx), prefixes@) == apply_prefixes(
                *ctx,
                prefixes@.skip(k as int),
            ),
            done ==> apply_prefixes(*old(ctx), prefixes@) == *ctx,
        decreases prefixes.len() - k, if done {
            0int
        } else {
            1int
        },
    {
        let b = prefixes[k];
        let ghost rest = prefixes@.skip(k as int);
        assert(rest[0] == b);
        assert(rest.drop_first() == prefixes@.skip(k + 1));
        if (b & 0xf0) == 0x40 && ctx.size == ArchSize::I64 {
            ctx.rex = Some(Rex::from(b));
        } else if b < 0x26 || b > 0xf3 {
            done = true;
        } else if b >= 0xf0 {
            ctx.one = b;
        } else if b == 0x66 {
            ctx.op_override = true;
        } else if b == 0x67 {
            ctx.addr_override = true;
        } else {
            let seg: u8 = if b == 0x2e || b == 0x36 || b == 0x3e || b == 0x26 || b == 0x64 || b
                == 0x65 {
                b
            } else {
                0
            };
            ctx.two = seg;
            if seg == 0 {
                done = true;
            }
        }
        if !done {
            k = k + 1;
        }
    }
    if !done {
        assert(prefixes@.skip(k as int) =~= Seq::<u8>::empty());
    }
}

fn has_text(s: &String, p: &str) -> (r: bool)
    ensures
        r == contains(s@, p@),
{
    str_contains(s.as_str(), p)
}

fn begins_text(s: &String, p: &str) -> (r: bool)
    ensures
        r == starts_with(s@, p@),
{
    str_starts_with(s.as_str(), p)
}

fn ends_text(s: &String, p: &str) -> (r: bool)
    ensures
        r == ends_with(s@, p@),
{
    str_ends_with(s.as_str(), p)
}

fn prefix_allowed_exec(ins: &Instruction, ctx: &Context) -> (r: bool)
    ensures
        r == prefix_allowed(ins@, *ctx),
{
    let rep = ctx.one == 0xf2 || ctx.one == 0xf3;
    !(has_text(&ins.opcode, "NP") && (rep || ctx.op_override)) && !(has_text(&ins.opcode, "NFx")
        && rep)
}

fn arch_invalid_exec(ins: &Instruction, ctx: &Context) -> (r: bool)
    ensures
        r == arch_invalid(ins@, *ctx),
{
    let over = ctx.addr_override || ctx.op_override;
    match ctx.size {
        ArchSize::I16 => !ins.legacy || ins.size.bits() > 16,
        ArchSize::I32 => !ins.legacy || ins.size == OperandSize::Quad,
        ArchSize::I64 => !ins.x64 || (ins.size == OperandSize::Double && over) || (ins.size.bits()
            < 64 && !over) || (ins.size == OperandSize::Quad && over),
    }
}

fn wanted_exec(w: Want, x: &Instruction) -> (r: bool)
    ensures
        r == wanted(w, x@),
{
    match w {
        Want::EndsF => ends_text(&x.text, "F"),
        Want::NotEndsF => !ends_text(&x.text, "F"),
        Want::EndsW => ends_text(&x.text, "W"),
        Want::EndsD => ends_text(&x.text, "D") || ends_text(&x.text, "DE"),
        Want::HasAx => has_text(&x.text, " AX"),
        Want::HasEax => has_text(&x.text, "EAX"),
        Want::RegMem => regex_is_match("r(8|16|32|64)/m(8|16|32|64)", x.text.as_str()),
    }
}

fn first_wanted_exec<'a>(v: &Vec<&'a Instruction>, w: Want) -> (r: Option<&'a Instruction>)
    ensures
        match r {
            Some(x) => first_wanted(ref_views(v@), w) == Some(x@),
            None => first_wanted(ref_views(v@), w) is None,
        },
{
    let ghost vv = ref_views(v@);
    let mut k: usize = 0;
    assert(vv.skip(0) == vv);
    while k < v.len()
        invariant
            k <= v@.len(),
            vv == ref_views(v@),
            first_wanted(vv, w) == first_wanted(vv.skip(k as int), w),
        decreases v.len() - k,
    {
        assert(vv.skip(k as int)[0] == v@[k as int]@);
        assert(vv.skip(k as int).drop_first() == vv.skip(k + 1));
        if wanted_exec(w, v[k]) {
            return Some(v[k]);
        }
        k = k + 1;
    }
    assert(vv.skip(k as int) =~= Seq::<InstructionView>::empty());
    None
}

fn select_exec<'a>(v: &Vec<&'a Instruction>, ctx: &Context) -> (r: Option<&'a Instruction>)
    requires
        v@.len() > 0,
    ensures
        match r {
            Some(x) => select(ref_views(v@), *ctx) == Some(x@),
            None => select(ref_views(v@), *ctx) is None,
        },
{
    let first = v[0];
    assert(ref_views(v@)[0] == first@);
    if v.len() == 1 {
        Some(first)
    } else if begins_text(&first.description, "Jump") || begins_text(&first.description, "Mult")
        || begins_text(&first.description, "Exchange") || begins_text(&first.text, "CMOV") {
        Some(first)
    } else if begins_text(&first.text, "PUSH") {
        if ctx.op_override {
            first_wanted_exec(v, Want::EndsF)
        } else {
            first_wanted_exec(v, Want::NotEndsF)
        }
    } else if begins_text(&first.text, "INS") || begins_text(&first.text, "OUTS") || begins_text(
        &first.text,
        "SCAS",
    ) || begins_text(&first.text, "LODS") || (begins_text(&first.text, "C") && has_text(
        &first.description,
        "sign-extend",
    )) {
        if ctx.op_override {
            first_wanted_exec(v, Want::EndsW)
        } else {
            first_wanted_exec(v, Want::EndsD)
        }
    } else if begins_text(&first.text, "IN ") {
        if ctx.op_override {
            first_wanted_exec(v, Want::HasAx)
        } else {
            first_wanted_exec(v, Want::HasEax)
        }
    } else {
        first_wanted_exec(v, Want::RegMem)
    }
}

/// The instructions that allow the prefixes in the context, in order.
fn allowed_exec<'a>(cands: &Vec<&'a Instruction>, ctx: &Context) -> (r: Vec<&'a Instruction>)
    ensures
        ref_views(r@) == allowed(ref_views(cands@), *ctx),
{
    let ghost cv = ref_views(cands@);
    let mut out: Vec<&'a Instruction> = Vec::new();
    let mut k: usize = 0;
    assert(ref_views(out@) =~= allowed(cv.take(0), *ctx));
    while k < cands.len()
        invariant
            k <= cands@.len(),
            cv == ref_views(cands@),
            ref_views(out@) == allowed(cv.take(k as int), *ctx),
        decreases cands.len() - k,
    {
        let ghost prev = out@;
        assert(cv.take(k + 1).drop_last() == cv.take(k as int));
        assert(cv.take(k + 1).last() == cands@[k as int]@);
        if prefix_allowed_exec(cands[k], ctx) {
            out.push(cands[k]);
            assert(ref_views(out@) =~= ref_views(prev) + seq![cands@[k as int]@]);
        } else {
            assert(ref_views(out@) =~= ref_views(prev) + Seq::<InstructionView>::empty());
        }
        k = k + 1;
    }
    assert(cv.take(k as int) == cv);
    out
}

/// Drops, in order, the instructions that do not fit the architecture, until one is left.
fn arch_filter_exec(v: &mut Vec<&Instruction>, ctx: &Context)
    ensures
        ref_views(final(v)@) == arch_filter(ref_views(old(v)@), 0, *ctx),
{
    let mut i: usize = 0;
    while i < v.len() && v.len() > 1
        invariant
            arch_filter(ref_views(old(v)@), 0, *ctx) == arch_filter(ref_views(v@), i as int, *ctx),
        decreases v@.len() - i, v@.len(),
    {
        if arch_invalid_exec(v[i], ctx) {
            let ghost before = v@;
            assert(ref_views(before)[i as int] == before[i as int]@);
            v.remove(i);
            assert(ref_views(v@) =~= ref_views(before).remove(i as int));
        } else {
            assert(ref_views(v@)[i as int] == v@[i as int]@);
            i = i + 1;
        }
    }
}

/// The abstract values of a sequence of answers.
pub open spec fn resp_views(v: Seq<ParseResponse>) -> Seq<ParseResponseView> {
    v.map_values(|r: ParseResponse| r@)
}

/// A copy of `v[from..to]`.
fn copy_range(v: &Vec<u8>, from: usize, to: usize) -> (r: Vec<u8>)
    requires
        from <= to <= v@.len(),
    ensures
        r@ == v@.subrange(from as int, to as int),
{
    let mut out: Vec<u8> = Vec::new();
    let mut i: usize = from;
    while i < to
        invariant
            from <= i <= to <= v@.len(),
            out@ == v@.subrange(from as int, i as int),
        decreases to - i,
    {
        out.push(v[i]);
        i = i + 1;
    }
    out
}

/// `&v[from..to]`.
fn slice_of(v: &Vec<u8>, from: usize, to: usize) -> (r: &[u8])
    requires
        from <= to <= v@.len(),
    ensures
        r@ == v@.subrange(from as int, to as int),
{
    slice_subrange(v.as_slice(), from, to)
}

} // verus!
