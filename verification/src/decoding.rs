//! What decoding one instruction does, stated over abstract values: the opcode search in
//! the tree, the prefixes, the choice among candidate instructions, and the operands.
use crate::decoder::{
    DecoderView, ParseResponseView, addr_size_of, advanced, at_end, byte_at, read_bytes, rex_of, Address, ArchSize, Context,
    Immediate, Modrm, OperandView, Register, Rex, SIBScale,
};
use crate::instruction_tree::{
    child_of, gather, GenericOperandView, TreeView as TV, InstructionView, NodeView, OperandEncoding, OperandSize,
    RegisterType, TreeView,
};
use crate::text::{contains, ends_with, lowercase, regex_matches, starts_with};
use vstd::prelude::*;

verus! {

/// The most prefix bytes an instruction may have.
pub const MAX_PREFIX: usize = 4;

/// The most bytes looked at to find an opcode.
pub const MAX_WIDTH: usize = 12;

// ---------------------------------------------------------------------------
// The opcode search
// ---------------------------------------------------------------------------

/// How one walk down the tree ends.
pub ghost enum PassResult {
    /// A node with nothing below it and no instruction, or a byte that leads nowhere.
    Miss,
    /// A node with nothing below it and some instruction: the offset of the last byte
    /// read and the node.
    Hit(int, int),
    /// No node without children was reached within the bytes looked at.
    Endless,
}

/// A walk from `node` that reads the byte at offset `i` from the cursor and goes on; with
/// the node the walk is at afterwards.
pub open spec fn pass(
    nodes: Seq<NodeView>,
    node: int,
    root: int,
    code: Seq<u8>,
    curr: int,
    i: int,
) -> (PassResult, int)
    decreases MAX_WIDTH - i,
{
    if i >= MAX_WIDTH {
        (PassResult::Endless, node)
    } else {
        match child_of(nodes, node, byte_at(code, curr + i)) {
            None => (PassResult::Miss, root),
            Some(c) => if nodes[c as int].children.len() == 0 {
                if gather(nodes, c as int).len() == 0 {
                    (PassResult::Miss, c as int)
                } else {
                    (PassResult::Hit(i, c as int), c as int)
                }
            } else {
                pass(nodes, c as int, root, code, curr, i + 1)
            },
        }
    }
}

/// How the search for an opcode ends.
pub ghost enum SearchResult {
    /// With this many prefix bytes, the last opcode byte at this offset leads to this node.
    Found(int, int, int),
    /// No opcode within the prefixes allowed; the node the last walk ended at.
    NotFound(int),
    /// Some walk never ends.
    Endless,
}

/// The search for an opcode after `pc` prefix bytes, then one more, and so on.
pub open spec fn search(nodes: Seq<NodeView>, root: int, code: Seq<u8>, curr: int, pc: int) -> SearchResult
    decreases MAX_PREFIX - pc,
{
    if pc < 0 || pc > MAX_PREFIX {
        SearchResult::NotFound(root)
    } else {
        let (r, last) = pass(nodes, root, root, code, curr, pc);
        match r {
            PassResult::Endless => SearchResult::Endless,
            PassResult::Hit(i, c) => SearchResult::Found(pc, i, c),
            PassResult::Miss => if pc + 1 > MAX_PREFIX {
                SearchResult::NotFound(last)
            } else {
                search(nodes, root, code, curr, pc + 1)
            },
        }
    }
}

/// A hit lies within the bytes looked at, at or after where the walk began.
pub proof fn lemma_pass_hit(nodes: Seq<NodeView>, node: int, root: int, code: Seq<u8>, curr: int, i0: int)
    ensures
        pass(nodes, node, root, code, curr, i0).0 matches PassResult::Hit(i, c) ==> i0 <= i
            < MAX_WIDTH,
    decreases MAX_WIDTH - i0,
{
    if i0 < MAX_WIDTH {
        match child_of(nodes, node, byte_at(code, curr + i0)) {
            None => {},
            Some(c) => {
                if nodes[c as int].children.len() != 0 {
                    lemma_pass_hit(nodes, c as int, root, code, curr, i0 + 1);
                }
            },
        }
    }
}

/// An opcode found after `pc` prefix bytes ends at or after them.
pub proof fn lemma_search_found(nodes: Seq<NodeView>, root: int, code: Seq<u8>, curr: int, pc: int)
    ensures
        search(nodes, root, code, curr, pc) matches SearchResult::Found(p, i, c) ==> 0 <= p
            <= MAX_PREFIX && p <= i < MAX_WIDTH,
    decreases MAX_PREFIX - pc,
{
    if 0 <= pc <= MAX_PREFIX {
        lemma_pass_hit(nodes, root, root, code, curr, pc);
        let (r, last) = pass(nodes, root, root, code, curr, pc);
        if r is Miss && pc + 1 <= MAX_PREFIX {
            lemma_search_found(nodes, root, code, curr, pc + 1);
        }
    }
}

// ---------------------------------------------------------------------------
// Prefixes
// ---------------------------------------------------------------------------

/// The context with no prefix applied.
pub open spec fn reset_ctx(ctx: Context) -> Context {
    Context { one: 0, two: 0, op_override: false, addr_override: false, rex: None, ..ctx }
}

/// The segment-override prefix that a byte is, or 0.
pub open spec fn segment_of(b: u8) -> u8 {
    if b == 0x2e || b == 0x36 || b == 0x3e || b == 0x26 || b == 0x64 || b == 0x65 {
        b
    } else {
        0
    }
}

/// The context after the prefix bytes, read in order until one is no prefix: REX (in
/// 64-bit mode), LOCK/REP (`one`), operand- and address-size overrides, segment overrides
/// (`two`).
pub open spec fn apply_prefixes(ctx: Context, bytes: Seq<u8>) -> Context
    decreases bytes.len(),
{
    if bytes.len() == 0 {
        ctx
    } else {
        let b = bytes[0];
        if (b & 0xf0) == 0x40 && ctx.size == ArchSize::I64 {
            apply_prefixes(Context { rex: Some(rex_of(b)), ..ctx }, bytes.drop_first())
        } else if b < 0x26 || b > 0xf3 {
            ctx
        } else if b >= 0xf0 {
            apply_prefixes(Context { one: b, ..ctx }, bytes.drop_first())
        } else if b == 0x66 {
            apply_prefixes(Context { op_override: true, ..ctx }, bytes.drop_first())
        } else if b == 0x67 {
            apply_prefixes(Context { addr_override: true, ..ctx }, bytes.drop_first())
        } else if segment_of(b) == 0 {
            Context { two: 0, ..ctx }
        } else {
            apply_prefixes(Context { two: segment_of(b), ..ctx }, bytes.drop_first())
        }
    }
}

// ---------------------------------------------------------------------------
// Choosing the instruction
// ---------------------------------------------------------------------------

/// The instruction allows the LOCK/REP and operand-size prefixes given (`NP`: none of
/// them; `NFx`: no LOCK/REP).
pub open spec fn prefix_allowed(ins: InstructionView, ctx: Context) -> bool {
    !(contains(ins.opcode, "NP"@) && (ctx.one == 0xf2 || ctx.one == 0xf3 || ctx.op_override))
        && !(contains(ins.opcode, "NFx"@) && (ctx.one == 0xf2 || ctx.one == 0xf3))
}

/// The instructions that allow the prefixes given, in order.
pub open spec fn allowed(s: Seq<InstructionView>, ctx: Context) -> Seq<InstructionView>
    decreases s.len(),
{
    if s.len() == 0 {
        Seq::empty()
    } else {
        allowed(s.drop_last(), ctx) + if prefix_allowed(s.last(), ctx) {
            seq![s.last()]
        } else {
            Seq::empty()
        }
    }
}

/// The instruction does not fit the architecture size and size overrides.
pub open spec fn arch_invalid(ins: InstructionView, ctx: Context) -> bool {
    let over = ctx.addr_override || ctx.op_override;
    match ctx.size {
        ArchSize::I16 => !ins.legacy || ins.size.width() > 16,
        ArchSize::I32 => !ins.legacy || ins.size == OperandSize::Quad,
        ArchSize::I64 => !ins.x64 || (ins.size == OperandSize::Double && over) || (
        ins.size.width() < 64 && !over) || (ins.size == OperandSize::Quad && over),
    }
}

/// From the `i`-th on, the instructions that do not fit are dropped, in order, until one
/// is left.
pub open spec fn arch_filter(s: Seq<InstructionView>, i: int, ctx: Context) -> Seq<InstructionView>
    decreases s.len() - i, s.len(),
{
    if 0 <= i < s.len() && s.len() > 1 {
        if arch_invalid(s[i], ctx) {
            arch_filter(s.remove(i), i, ctx)
        } else {
            arch_filter(s, i + 1, ctx)
        }
    } else {
        s
    }
}

/// A property that decides between instructions of the same opcode.
#[derive(Clone, Copy, Debug, PartialEq, Eq, Structural)]
pub enum Want {
    /// The text ends in `F`.
    EndsF,
    /// The text does not end in `F`.
    NotEndsF,
    /// The text ends in `W`.
    EndsW,
    /// The text ends in `D` or `DE`.
    EndsD,
    /// The text holds ` AX`.
    HasAx,
    /// The text holds `EAX`.
    HasEax,
    /// The text names a register size and a memory size apart.
    RegMem,
}

/// The instruction has the property.
pub open spec fn wanted(w: Want, x: InstructionView) -> bool {
    match w {
        Want::EndsF => ends_with(x.text, "F"@),
        Want::NotEndsF => !ends_with(x.text, "F"@),
        Want::EndsW => ends_with(x.text, "W"@),
        Want::EndsD => ends_with(x.text, "D"@) || ends_with(x.text, "DE"@),
        Want::HasAx => contains(x.text, " AX"@),
        Want::HasEax => contains(x.text, "EAX"@),
        Want::RegMem => regex_matches(reg_mem_pattern(), x.text),
    }
}

/// The first instruction that has the property.
pub open spec fn first_wanted(s: Seq<InstructionView>, w: Want) -> Option<InstructionView>
    decreases s.len(),
{
    if s.len() == 0 {
        None
    } else if wanted(w, s[0]) {
        Some(s[0])
    } else {
        first_wanted(s.drop_first(), w)
    }
}

/// The pattern of operands that name a register and a memory size apart.
pub open spec fn reg_mem_pattern() -> Seq<char> {
    "r(8|16|32|64)/m(8|16|32|64)"@
}

/// The instruction chosen among those left; `None` where no rule decides.
pub open spec fn select(v: Seq<InstructionView>, ctx: Context) -> Option<InstructionView> {
    if v.len() == 1 {
        Some(v[0])
    } else if starts_with(v[0].description, "Jump"@) || starts_with(v[0].description, "Mult"@)
        || starts_with(v[0].description, "Exchange"@) || starts_with(v[0].text, "CMOV"@) {
        Some(v[0])
    } else if starts_with(v[0].text, "PUSH"@) {
        if ctx.op_override {
            first_wanted(v, Want::EndsF)
        } else {
            first_wanted(v, Want::NotEndsF)
        }
    } else if starts_with(v[0].text, "INS"@) || starts_with(v[0].text, "OUTS"@) || starts_with(
        v[0].text,
        "SCAS"@,
    ) || starts_with(v[0].text, "LODS"@) || (starts_with(v[0].text, "C"@) && contains(
        v[0].description,
        "sign-extend"@,
    )) {
        if ctx.op_override {
            first_wanted(v, Want::EndsW)
        } else {
            first_wanted(v, Want::EndsD)
        }
    } else if starts_with(v[0].text, "IN "@) {
        if ctx.op_override {
            first_wanted(v, Want::HasAx)
        } else {
            first_wanted(v, Want::HasEax)
        }
    } else {
        first_wanted(v, Want::RegMem)
    }
}

/// The instruction with its text in lower case unless upper case is asked for.
pub open spec fn cased(ins: InstructionView, upper: bool) -> InstructionView {
    if upper {
        ins
    } else {
        InstructionView { text: lowercase(ins.text), ..ins }
    }
}

/// What decoding an instruction gives and leaves.
pub ghost struct InsOutcome {
    /// The decoder does not return (it loops or panics).
    pub fails: bool,
    pub val: Option<InstructionView>,
    pub size: int,
    pub prefixes: Option<Seq<u8>>,
    pub ctx: Context,
    pub curr: int,
    pub last: int,
}

/// Decoding the instruction at the cursor.
pub open spec fn decode_instruction(ctx0: Context, code: Seq<u8>, curr: int, tree: TreeView, upper: bool) -> InsOutcome {
    let ctx = reset_ctx(ctx0);
    match search(tree.nodes, tree.root, code, curr, 0) {
        SearchResult::Endless => InsOutcome {
            fails: true,
            val: None,
            size: 0,
            prefixes: None,
            ctx,
            curr,
            last: tree.last,
        },
        SearchResult::NotFound(last) => InsOutcome {
            fails: false,
            val: None,
            size: 1,
            prefixes: None,
            ctx,
            curr,
            last,
        },
        SearchResult::Found(pc, i, c) => {
            let prefixes = read_bytes(code, curr, pc as nat);
            let first = byte_at(code, advanced(code, curr, pc));
            let ctx1 = apply_prefixes(ctx, prefixes);
            let ctx2 = if (first & 0xf0) == 0x40 {
                Context { rex: Some(rex_of(first)), ..ctx1 }
            } else {
                ctx1
            };
            let v = arch_filter(allowed(gather(tree.nodes, c), ctx2), 0, ctx2);
            let end = advanced(code, curr, i + 1);
            if v.len() == 0 {
                InsOutcome {
                    fails: false,
                    val: None,
                    size: 0,
                    prefixes: None,
                    ctx: ctx2,
                    curr: end,
                    last: c,
                }
            } else {
                let adj: int = if regex_matches("/[0-7]"@, v[0].opcode) {
                    1
                } else {
                    0
                };
                match select(v, ctx2) {
                    None => InsOutcome {
                        fails: true,
                        val: None,
                        size: 0,
                        prefixes: None,
                        ctx: ctx2,
                        curr: end - adj,
                        last: c,
                    },
                    Some(_) if end - adj < 0 => InsOutcome {
                        fails: true,
                        val: None,
                        size: 0,
                        prefixes: None,
                        ctx: ctx2,
                        curr: end - adj,
                        last: c,
                    },
                    Some(ins) => InsOutcome {
                        fails: false,
                        val: Some(cased(ins, upper)),
                        size: i + 1 - pc - adj,
                        prefixes: Some(prefixes),
                        ctx: ctx2,
                        curr: end - adj,
                        last: c,
                    },
                }
            }
        },
    }
}

// ---------------------------------------------------------------------------
// Operands
// ---------------------------------------------------------------------------

/// Powers of 256.
pub open spec fn pow256(n: nat) -> nat
    decreases n,
{
    if n == 0 {
        1
    } else {
        256 * pow256((n - 1) as nat)
    }
}

/// The value of bytes in little-endian order.
pub open spec fn le_value(b: Seq<u8>) -> nat
    decreases b.len(),
{
    if b.len() == 0 {
        0
    } else {
        le_value(b.drop_last()) + (b.last() as nat) * pow256((b.len() - 1) as nat)
    }
}

/// The state while reading operands.
pub ghost struct OpState {
    pub curr: int,
    pub size: int,
    pub has_modrm: bool,
    pub ops: Seq<OperandView>,
    pub fails: bool,
}

/// What stays fixed while the operands of one instruction are read.
pub ghost struct OpEnv {
    pub code: Seq<u8>,
    pub ctx: Context,
    pub rex: Rex,
    pub modrm: Modrm,
    pub reg_upper: bool,
}

/// `n` more bytes belong to the instruction; past `usize::MAX` the decoder fails.
pub open spec fn grow(st: OpState, n: int) -> OpState {
    if st.size + n > usize::MAX {
        OpState { fails: true, ..st }
    } else {
        OpState { size: st.size + n, ..st }
    }
}

/// An operand is added.
pub open spec fn push_op(st: OpState, o: OperandView) -> OpState {
    OpState { ops: st.ops.push(o), ..st }
}

/// The immediate of `n` little-endian bytes at the cursor, and where the cursor is then.
pub open spec fn imm_at(code: Seq<u8>, curr: int, n: nat) -> (Immediate, int) {
    (Immediate { value: le_value(read_bytes(code, curr, n)) as u64 }, advanced(code, curr, n as int))
}

/// The ModR/M byte is counted and passed, once.
pub open spec fn take_modrm(code: Seq<u8>, st: OpState) -> OpState {
    if st.has_modrm {
        st
    } else {
        let g = grow(st, 1);
        OpState { has_modrm: true, curr: advanced(code, st.curr, 1), ..g }
    }
}

/// A displacement of `n` bytes: counted, read, and the cursor moved past it.
pub open spec fn disp(code: Seq<u8>, st: OpState, n: nat) -> (Immediate, OpState) {
    let g = grow(st, n as int);
    let (d, c) = imm_at(code, st.curr, n);
    (d, OpState { curr: c, ..g })
}

/// The size of operands whose size the instruction leaves to the prefixes.
pub open spec fn default_size(env: OpEnv) -> OperandSize {
    if env.rex.w {
        OperandSize::Quad
    } else if env.ctx.rex is None && env.ctx.op_override {
        OperandSize::Word
    } else {
        OperandSize::Double
    }
}

/// The size an operand has in this instruction.
pub open spec fn real_size(env: OpEnv, op: GenericOperandView) -> OperandSize {
    if op.size != OperandSize::Any {
        op.size
    } else {
        default_size(env)
    }
}

/// The register kind of a ModR/M operand.
pub open spec fn modrm_reg(op: GenericOperandView) -> RegisterType {
    if op.reg == Some(RegisterType::MMXReg) {
        RegisterType::MMXReg
    } else {
        RegisterType::GPReg
    }
}

/// A memory operand with no base, index or displacement yet.
pub open spec fn blank_address(ctx: Context, size: OperandSize) -> Address {
    Address {
        dest_size: size,
        addr_size: addr_size_of(ctx.size, ctx.addr_override),
        base: 0,
        index: None,
        scale: SIBScale::Zero,
        rm_disp: None,
        sib_disp: None,
        no_base: false,
    }
}

/// The scale a SIB byte's scale field gives.
pub open spec fn scale_of(s: u8) -> SIBScale {
    if s == 1 {
        SIBScale::Double
    } else if s == 2 {
        SIBScale::Quad
    } else if s == 3 {
        SIBScale::Octo
    } else {
        SIBScale::Zero
    }
}

/// A SIB byte with base 5: under mod 0 there is no base register and a 32-bit
/// displacement follows; otherwise the base is RBP (or EBP) and the displacement is the
/// one that the mod field calls for, read after the SIB byte.
pub open spec fn sib_base_disp(env: OpEnv, a: Address, st: OpState) -> (Address, OpState) {
    let a5 = Address { base: 5, ..a };
    if env.modrm.mode == 0 {
        let (d, s2) = disp(env.code, st, 4);
        (Address { sib_disp: Some(d), no_base: true, ..a5 }, s2)
    } else {
        (a5, st)
    }
}

/// The SIB byte at the cursor read into an address.
pub open spec fn sib_address(env: OpEnv, a: Address, st: OpState) -> (Address, OpState) {
    let sib = byte_at(env.code, st.curr);
    let st1 = OpState { curr: advanced(env.code, st.curr, 1), ..grow(st, 1) };
    let scale = ((sib & 0xc0) >> 6) as u8;
    let index = ((sib & 0x38) >> 3) as u8;
    let base = (sib & 0x07) as u8;
    let a1 = if (env.rex.x | index) == 4 {
        a
    } else {
        Address { index: Some((index | env.rex.x) as usize), scale: scale_of(scale), ..a }
    };
    if base != 5 {
        (Address { base: (base | env.rex.b) as usize, ..a1 }, st1)
    } else {
        sib_base_disp(env, a1, st1)
    }
}

/// The operand that the ModR/M byte's mod and r/m fields describe, with what it reads.
pub open spec fn modrm_operand(env: OpEnv, reg: RegisterType, size: OperandSize, st: OpState) -> OpState {
    let m = env.modrm;
    if m.mode == 3 {
        push_op(
            st,
            OperandView::Reg(
                Register {
                    index: (m.rm | env.rex.b) as usize,
                    size,
                    group: reg,
                    rex: env.ctx.rex is Some,
                },
            ),
        )
    } else if m.mode == 0 && m.rm == 5 {
        let n: nat = if env.ctx.rex is None && env.ctx.op_override {
            2
        } else {
            4
        };
        let (d, s2) = disp(env.code, st, n);
        push_op(
            s2,
            OperandView::Addr(
                Address { rm_disp: Some(d), no_base: true, ..blank_address(env.ctx, size) },
            ),
        )
    } else {
        let a = blank_address(env.ctx, size);
        let (a1, s1) = if m.rm == 4 {
            sib_address(env, a, st)
        } else {
            (Address { base: (m.rm | env.rex.b) as usize, ..a }, st)
        };
        let (a2, s2) = if m.mode == 1 {
            let (d, s) = disp(env.code, s1, 1);
            (Address { rm_disp: Some(d), ..a1 }, s)
        } else if m.mode == 2 {
            let (d, s) = disp(env.code, s1, 4);
            (Address { rm_disp: Some(d), ..a1 }, s)
        } else {
            (a1, s1)
        };
        push_op(s2, OperandView::Addr(a2))
    }
}

/// The number of bytes of an immediate of a size.
pub open spec fn imm_len(size: OperandSize) -> nat {
    match size {
        OperandSize::Byte => 1,
        OperandSize::Word => 2,
        OperandSize::Double => 4,
        OperandSize::DoubleSeg => 6,
        OperandSize::Quad => 8,
        OperandSize::Penta => 10,
        OperandSize::DoubleQuad => 16,
        OperandSize::QuadQuad => 32,
        OperandSize::Z => 48,
        OperandSize::DoubleQuadQuad => 64,
        OperandSize::Any => 0,
    }
}

/// The pattern of operands that name a register outright.
pub open spec fn reg_literal_pattern() -> Seq<char> {
    "([ER]?[AC]X)|([AC][HL])"@
}

/// The `mib` operand: a memory operand whose base comes from the SIB-like byte at the
/// cursor; base 5 calls for a displacement under the mod field (with no base register
/// under mod 0).
pub open spec fn mib_operand(env: OpEnv, size: OperandSize, st: OpState) -> OpState {
    let base = byte_at(env.code, st.curr) & 7;
    let s1 = OpState { curr: advanced(env.code, st.curr, 1), ..grow(st, 1) };
    let a = blank_address(env.ctx, size);
    if base == 5 {
        let a5 = Address { base: 5, ..a };
        if env.modrm.mode == 0 {
            let (d, s2) = disp(env.code, s1, 4);
            push_op(s2, OperandView::Addr(Address { sib_disp: Some(d), no_base: true, ..a5 }))
        } else if env.modrm.mode == 1 {
            let (d, s2) = disp(env.code, s1, 1);
            push_op(s2, OperandView::Addr(Address { sib_disp: Some(d), ..a5 }))
        } else if env.modrm.mode == 2 {
            let (d, s2) = disp(env.code, s1, 4);
            push_op(s2, OperandView::Addr(Address { sib_disp: Some(d), ..a5 }))
        } else {
            push_op(s1, OperandView::Addr(a5))
        }
    } else {
        push_op(s1, OperandView::Addr(Address { base: (base | env.rex.b) as usize, ..a }))
    }
}

/// An operand that its encoding alone does not describe.
pub open spec fn bespoke_operand(env: OpEnv, op: GenericOperandView, st: OpState) -> OpState {
    let size = real_size(env, op);
    if regex_matches(reg_literal_pattern(), op.text) {
        push_op(
            st,
            OperandView::Bes(
                if env.reg_upper {
                    op.text
                } else {
                    lowercase(op.text)
                },
            ),
        )
    } else if op.text == "mib"@ {
        mib_operand(env, size, st)
    } else if regex_matches(reg_mem_pattern(), op.text) {
        let s1 = take_modrm(env.code, st);
        if env.modrm.mode == 3 {
            modrm_operand(env, modrm_reg(op), default_size(env), s1)
        } else {
            modrm_operand(env, modrm_reg(op), op.size, s1)
        }
    } else if contains(op.text, "16:"@) {
        let asz = addr_size_of(env.ctx.size, env.ctx.addr_override);
        if starts_with(op.text, "ptr"@) {
            if asz == OperandSize::Word || asz == OperandSize::Double {
                let (d, s1) = disp(env.code, st, 6);
                push_op(s1, OperandView::Imm(d))
            } else {
                st
            }
        } else {
            let s1 = take_modrm(env.code, st);
            if asz == OperandSize::Word {
                modrm_operand(env, modrm_reg(op), OperandSize::Double, s1)
            } else if asz == OperandSize::Double {
                modrm_operand(env, modrm_reg(op), OperandSize::DoubleSeg, s1)
            } else if asz == OperandSize::Quad {
                modrm_operand(env, modrm_reg(op), OperandSize::Penta, s1)
            } else {
                s1
            }
        }
    } else if op.text == "m"@ {
        let s1 = take_modrm(env.code, st);
        modrm_operand(env, modrm_reg(op), size, s1)
    } else {
        OpState { fails: true, ..st }
    }
}

/// One operand read.
pub open spec fn operand_step(env: OpEnv, st: OpState, op: GenericOperandView) -> OpState {
    let size = real_size(env, op);
    let group = match op.reg {
        Some(g) => g,
        None => RegisterType::GPReg,
    };
    match op.encoding {
        OperandEncoding::Modrm => {
            let s1 = take_modrm(env.code, st);
            modrm_operand(env, modrm_reg(op), size, s1)
        },
        OperandEncoding::Modreg => {
            let s1 = take_modrm(env.code, st);
            push_op(
                s1,
                OperandView::Reg(
                    Register {
                        index: (env.modrm.reg | env.rex.r) as usize,
                        size,
                        group,
                        rex: env.ctx.rex is Some,
                    },
                ),
            )
        },
        OperandEncoding::Opcode => if st.size + 1 > isize::MAX {
            OpState { fails: true, ..st }
        } else {
            push_op(
                st,
                OperandView::Reg(
                    Register {
                        index: ((byte_at(env.code, st.curr - (st.size + 1)) & 7) | env.rex.b) as usize,
                        size,
                        group,
                        rex: env.ctx.rex is Some,
                    },
                ),
            )
        },
        OperandEncoding::Immediate => {
            let n = imm_len(size);
            if n == 0 || n > 8 {
                OpState { fails: true, ..st }
            } else {
                let (d, s1) = disp(env.code, st, n);
                push_op(s1, OperandView::Imm(d))
            }
        },
        OperandEncoding::Bespoke => bespoke_operand(env, op, st),
    }
}

/// The operands read in order, stopping at a failure.
pub open spec fn operands_fold(env: OpEnv, st: OpState, ops: Seq<GenericOperandView>) -> OpState
    decreases ops.len(),
{
    if st.fails || ops.len() == 0 {
        st
    } else {
        operands_fold(env, operand_step(env, st, ops[0]), ops.drop_first())
    }
}

/// The fields of a ModR/M byte.
pub open spec fn modrm_of(b: u8) -> Modrm {
    Modrm { mode: ((b & 0xc0) >> 6) as u8, reg: ((b & 0x38) >> 3) as u8, rm: (b & 0x07) as u8 }
}

/// The REX prefix in force, or an empty one.
pub open spec fn rex_or_empty(ctx: Context) -> Rex {
    match ctx.rex {
        Some(r) => r,
        None => Rex { w: false, r: 0, b: 0, x: 0 },
    }
}

/// What reading the operands of an instruction gives and leaves.
pub ghost struct OperandsOutcome {
    pub fails: bool,
    pub val: Option<Seq<OperandView>>,
    pub size: int,
    pub curr: int,
}

/// Reading the operands of `ins` at the cursor (the first byte there is taken as the
/// ModR/M byte).
pub open spec fn decode_operands(ctx: Context, code: Seq<u8>, curr: int, ins: InstructionView, reg_upper: bool) -> OperandsOutcome {
    match ins.operands {
        None => OperandsOutcome { fails: false, val: None, size: 0, curr },
        Some(ops) => {
            let env = OpEnv {
                code,
                ctx,
                rex: rex_or_empty(ctx),
                modrm: modrm_of(byte_at(code, curr)),
                reg_upper,
            };
            let st = operands_fold(
                env,
                OpState { curr, size: 0, has_modrm: false, ops: Seq::empty(), fails: false },
                ops,
            );
            if st.ops.len() == 0 {
                OperandsOutcome { fails: st.fails, val: None, size: 0, curr: st.curr }
            } else {
                OperandsOutcome { fails: st.fails, val: Some(st.ops), size: st.size, curr: st.curr }
            }
        },
    }
}

// ---------------------------------------------------------------------------
// Whole instructions and runs
// ---------------------------------------------------------------------------

/// What one decoding step gives and leaves.
pub ghost struct StepOutcome {
    /// The decoder does not return (it loops or panics).
    pub fails: bool,
    pub resp: ParseResponseView,
    pub next: DecoderView,
}

/// The answer where nothing is left to decode.
pub open spec fn nothing() -> ParseResponseView {
    ParseResponseView { instruction: None, operands: None, bytes: None, prefixes: None }
}

/// A step that does not return.
pub open spec fn failed_step(s: DecoderView) -> StepOutcome {
    StepOutcome { fails: true, resp: nothing(), next: s }
}

/// Decoding one instruction at the cursor: where no instruction fits, the answer holds the
/// byte at the cursor and the cursor moves just past it; otherwise it holds the instruction, its operands,
/// its prefixes and all its bytes, and the cursor is past them.
pub open spec fn decode_step(s: DecoderView) -> StepOutcome {
    if at_end(s.code, s.curr) {
        StepOutcome { fails: false, resp: nothing(), next: s }
    } else {
        let io = decode_instruction(s.ctx, s.code, s.curr, s.tree, s.ins_upper);
        let s1 = DecoderView {
            ctx: io.ctx,
            curr: io.curr,
            tree: TV { last: io.last, ..s.tree },
            ..s
        };
        if io.fails {
            failed_step(s1)
        } else if io.val is None {
            StepOutcome {
                fails: false,
                resp: ParseResponseView {
                    instruction: None,
                    operands: None,
                    bytes: Some(seq![s.code[s.curr]]),
                    prefixes: None,
                },
                next: DecoderView { curr: s.curr + 1, ..s1 },
            }
        } else {
            let od = decode_operands(io.ctx, s.code, io.curr, io.val.unwrap(), s.reg_upper);
            let plen: int = match io.prefixes {
                Some(p) => p.len() as int,
                None => 0,
            };
            let total = io.size + plen + od.size;
            if od.fails || total > od.curr {
                failed_step(s1)
            } else {
                StepOutcome {
                    fails: false,
                    resp: ParseResponseView {
                        instruction: io.val,
                        operands: od.val,
                        bytes: Some(s.code.subrange(od.curr - total, od.curr)),
                        prefixes: io.prefixes,
                    },
                    next: DecoderView { curr: od.curr, ..s1 },
                }
            }
        }
    }
}

/// The next `n` steps, or those until the end, return.
pub open spec fn run_ok(s: DecoderView, n: nat) -> bool
    decreases n,
{
    if at_end(s.code, s.curr) || n == 0 {
        true
    } else {
        let o = decode_step(s);
        !o.fails && run_ok(o.next, (n - 1) as nat)
    }
}

/// The end is reached within `n` steps, each of which returns.
pub open spec fn ends_within(s: DecoderView, n: nat) -> bool
    decreases n,
{
    if at_end(s.code, s.curr) {
        true
    } else if n == 0 {
        false
    } else {
        let o = decode_step(s);
        !o.fails && ends_within(o.next, (n - 1) as nat)
    }
}

/// The answers of the next `n` steps, or of those until the end.
pub open spec fn run_resps(s: DecoderView, n: nat) -> Seq<ParseResponseView>
    decreases n,
{
    if at_end(s.code, s.curr) || n == 0 {
        Seq::empty()
    } else {
        let o = decode_step(s);
        seq![o.resp] + run_resps(o.next, (n - 1) as nat)
    }
}

/// The state after the next `n` steps, or after those until the end.
pub open spec fn run_state(s: DecoderView, n: nat) -> DecoderView
    decreases n,
{
    if at_end(s.code, s.curr) || n == 0 {
        s
    } else {
        run_state(decode_step(s).next, (n - 1) as nat)
    }
}

/// Decoding `n` instructions and then `m` more is decoding `n + m`: what `parse_n(n)`
/// returns is the start of what `parse_n(n + m)` returns from the same state.
pub proof fn lemma_run_split(s: DecoderView, n: nat, m: nat)
    ensures
        run_resps(s, n + m) == run_resps(s, n) + run_resps(run_state(s, n), m),
        run_state(s, n + m) == run_state(run_state(s, n), m),
        run_ok(s, n + m) <==> run_ok(s, n) && run_ok(run_state(s, n), m),
    decreases n,
{
    if at_end(s.code, s.curr) {
        assert(run_resps(s, n) == Seq::<ParseResponseView>::empty());
        assert(run_state(s, n) == s);
        if m == 0 {
            assert(run_resps(s, m) == Seq::<ParseResponseView>::empty());
        }
        assert(Seq::<ParseResponseView>::empty() + run_resps(s, m) == run_resps(s, m));
    } else if n == 0 {
        assert(Seq::<ParseResponseView>::empty() + run_resps(s, m) == run_resps(s, m));
    } else {
        let o = decode_step(s);
        lemma_run_split(o.next, (n - 1) as nat, m);
        assert((n + m - 1) as nat == ((n - 1) as nat + m) as nat);
        assert(seq![o.resp] + (run_resps(o.next, (n - 1) as nat) + run_resps(
            run_state(o.next, (n - 1) as nat),
            m,
        )) == (seq![o.resp] + run_resps(o.next, (n - 1) as nat)) + run_resps(
            run_state(o.next, (n - 1) as nat),
            m,
        ));
    }
}

/// Once the end is reached, decoding further gives nothing more: `parse` returns the
/// same with any bound that reaches the end.
pub proof fn lemma_run_stable(s: DecoderView, k: nat, m: nat)
    requires
        ends_within(s, k),
        k <= m,
    ensures
        ends_within(s, m),
        run_ok(s, m),
        run_resps(s, m) == run_resps(s, k),
        run_state(s, m) == run_state(s, k),
        at_end(run_state(s, k).code, run_state(s, k).curr),
    decreases k,
{
    if !at_end(s.code, s.curr) {
        let o = decode_step(s);
        lemma_run_stable(o.next, (k - 1) as nat, (m - 1) as nat);
    }
}

proof fn lemma_disp_forward(code: Seq<u8>, st: OpState, n: nat)
    requires
        0 <= st.curr,
    ensures
        disp(code, st, n).1.curr >= st.curr,
        take_modrm(code, st).curr >= st.curr,
{
}

proof fn lemma_sib_forward(env: OpEnv, a: Address, st: OpState)
    requires
        0 <= st.curr,
    ensures
        sib_address(env, a, st).1.curr >= st.curr,
{
    let st1 = OpState { curr: advanced(env.code, st.curr, 1), ..grow(st, 1) };
    lemma_disp_forward(env.code, st1, 4);
}

proof fn lemma_modrm_forward(env: OpEnv, reg: RegisterType, size: OperandSize, st: OpState)
    requires
        0 <= st.curr,
    ensures
        modrm_operand(env, reg, size, st).curr >= st.curr,
{
    lemma_disp_forward(env.code, st, 2);
    lemma_disp_forward(env.code, st, 4);
    let a = blank_address(env.ctx, size);
    lemma_sib_forward(env, a, st);
    let (a1, s1) = if env.modrm.rm == 4 {
        sib_address(env, a, st)
    } else {
        (Address { base: (env.modrm.rm | env.rex.b) as usize, ..a }, st)
    };
    lemma_disp_forward(env.code, s1, 1);
    lemma_disp_forward(env.code, s1, 4);
}

proof fn lemma_mib_forward(env: OpEnv, size: OperandSize, st: OpState)
    requires
        0 <= st.curr,
    ensures
        mib_operand(env, size, st).curr >= st.curr,
{
    let s1 = OpState { curr: advanced(env.code, st.curr, 1), ..grow(st, 1) };
    lemma_disp_forward(env.code, s1, 1);
    lemma_disp_forward(env.code, s1, 4);
}

#[verifier::rlimit(30)]
proof fn lemma_bespoke_forward(env: OpEnv, op: GenericOperandView, st: OpState)
    requires
        0 <= st.curr,
    ensures
        bespoke_operand(env, op, st).curr >= st.curr,
{
    let s1 = take_modrm(env.code, st);
    lemma_disp_forward(env.code, st, 6);
    lemma_mib_forward(env, real_size(env, op), st);
    lemma_modrm_forward(env, modrm_reg(op), default_size(env), s1);
    lemma_modrm_forward(env, modrm_reg(op), op.size, s1);
    lemma_modrm_forward(env, modrm_reg(op), real_size(env, op), s1);
    lemma_modrm_forward(env, modrm_reg(op), OperandSize::Double, s1);
    lemma_modrm_forward(env, modrm_reg(op), OperandSize::DoubleSeg, s1);
    lemma_modrm_forward(env, modrm_reg(op), OperandSize::Penta, s1);
}

/// Reading an operand never moves the cursor back.
proof fn lemma_operand_forward(env: OpEnv, st: OpState, op: GenericOperandView)
    requires
        0 <= st.curr,
    ensures
        operand_step(env, st, op).curr >= st.curr,
{
    let s1 = take_modrm(env.code, st);
    lemma_disp_forward(env.code, st, imm_len(real_size(env, op)));
    lemma_modrm_forward(env, modrm_reg(op), real_size(env, op), s1);
    lemma_bespoke_forward(env, op, st);
}

/// Reading operands never moves the cursor back.
proof fn lemma_operands_forward(env: OpEnv, st: OpState, ops: Seq<GenericOperandView>)
    requires
        0 <= st.curr,
    ensures
        operands_fold(env, st, ops).curr >= st.curr,
    decreases ops.len(),
{
    if !st.fails && ops.len() > 0 {
        lemma_operand_forward(env, st, ops[0]);
        lemma_operands_forward(env, operand_step(env, st, ops[0]), ops.drop_first());
    }
}

/// Prefixes change only what `reset_ctx` clears.
proof fn lemma_prefixes_reset(ctx: Context, bytes: Seq<u8>)
    ensures
        reset_ctx(apply_prefixes(ctx, bytes)) == reset_ctx(ctx),
    decreases bytes.len(),
{
    if bytes.len() > 0 {
        let b = bytes[0];
        if (b & 0xf0) == 0x40 && ctx.size == ArchSize::I64 {
            lemma_prefixes_reset(Context { rex: Some(rex_of(b)), ..ctx }, bytes.drop_first());
        } else if b < 0x26 || b > 0xf3 {
        } else if b >= 0xf0 {
            lemma_prefixes_reset(Context { one: b, ..ctx }, bytes.drop_first());
        } else if b == 0x66 {
            lemma_prefixes_reset(Context { op_override: true, ..ctx }, bytes.drop_first());
        } else if b == 0x67 {
            lemma_prefixes_reset(Context { addr_override: true, ..ctx }, bytes.drop_first());
        } else if segment_of(b) == 0 {
        } else {
            lemma_prefixes_reset(Context { two: segment_of(b), ..ctx }, bytes.drop_first());
        }
    }
}

/// A step depends on the context only through what `reset_ctx` keeps, and not on the
/// node the tree was left at.
proof fn lemma_step_same(s: DecoderView, t: DecoderView)
    requires
        reset_ctx(s.ctx) == reset_ctx(t.ctx),
        s.code == t.code,
        s.curr == t.curr,
        s.tree.nodes == t.tree.nodes,
        s.tree.root == t.tree.root,
        s.ins_upper == t.ins_upper,
        s.reg_upper == t.reg_upper,
        !at_end(s.code, s.curr),
        !decode_step(s).fails,
    ensures
        decode_step(s) == decode_step(t),
{
    match search(s.tree.nodes, s.tree.root, s.code, s.curr, 0) {
        SearchResult::Endless => {},
        _ => {
            assert(decode_instruction(s.ctx, s.code, s.curr, s.tree, s.ins_upper)
                == decode_instruction(t.ctx, t.code, t.curr, t.tree, t.ins_upper));
        },
    }
}

/// A step that returns keeps the context's lasting part, and does not move the cursor
/// back; one that gives no instruction moves it forward by one.
proof fn lemma_step_forward(s: DecoderView)
    requires
        0 <= s.curr,
        !at_end(s.code, s.curr),
        !decode_step(s).fails,
    ensures
        decode_step(s).next.curr >= s.curr,
        reset_ctx(decode_step(s).next.ctx) == reset_ctx(s.ctx),
        decode_step(s).next.code == s.code,
        decode_step(s).next.tree.nodes == s.tree.nodes,
        decode_step(s).next.tree.root == s.tree.root,
        decode_step(s).next.ins_upper == s.ins_upper,
        decode_step(s).next.reg_upper == s.reg_upper,
        decode_step(s).resp.bytes is Some,
{
    let io = decode_instruction(s.ctx, s.code, s.curr, s.tree, s.ins_upper);
    let ctx = reset_ctx(s.ctx);
    lemma_search_found(s.tree.nodes, s.tree.root, s.code, s.curr, 0);
    match search(s.tree.nodes, s.tree.root, s.code, s.curr, 0) {
        SearchResult::Found(pc, i, c) => {
            let prefixes = read_bytes(s.code, s.curr, pc as nat);
            lemma_prefixes_reset(ctx, prefixes);
            if io.val is Some {
                let od = decode_operands(io.ctx, s.code, io.curr, io.val.unwrap(), s.reg_upper);
                match io.val.unwrap().operands {
                    None => {},
                    Some(ops) => {
                        let env = OpEnv {
                            code: s.code,
                            ctx: io.ctx,
                            rex: rex_or_empty(io.ctx),
                            modrm: modrm_of(byte_at(s.code, io.curr)),
                            reg_upper: s.reg_upper,
                        };
                        lemma_operands_forward(
                            env,
                            OpState {
                                curr: io.curr,
                                size: 0,
                                has_modrm: false,
                                ops: Seq::empty(),
                                fails: false,
                            },
                            ops,
                        );
                    },
                }
            }
        },
        _ => {},
    }
}

/// A state whose step returns, gives the same state back and is not at the end never
/// reaches the end.
proof fn lemma_stuck(s: DecoderView, k: nat)
    requires
        !at_end(s.code, s.curr),
        !decode_step(s).fails,
        decode_step(s).next == s,
    ensures
        !ends_within(s, k),
    decreases k,
{
    if k > 0 {
        lemma_stuck(s, (k - 1) as nat);
    }
}

/// In a run that reaches the end, every step moves the cursor forward.
proof fn lemma_step_progress(s: DecoderView, k: nat)
    requires
        0 <= s.curr,
        !at_end(s.code, s.curr),
        ends_within(s, k),
    ensures
        decode_step(s).next.curr > s.curr,
{
    lemma_step_forward(s);
    let n = decode_step(s).next;
    if n.curr == s.curr {
        lemma_step_same(s, n);
        lemma_step_forward(n);
        assert(decode_step(n).next == n);
        lemma_stuck(n, (k - 1) as nat);
    }
}

/// A run of `parse` that reaches the end within `k` steps makes at most as many steps as
/// there are bytes left, and every answer in it holds bytes: each step moves the cursor
/// forward.
pub proof fn lemma_run_bounded(s: DecoderView, k: nat)
    requires
        0 <= s.curr,
        ends_within(s, k),
    ensures
        run_resps(s, k).len() <= if s.curr <= s.code.len() {
            s.code.len() - s.curr
        } else {
            0
        },
        forall|j: int| 0 <= j < run_resps(s, k).len() ==> (#[trigger] run_resps(s, k)[j]).bytes is Some,
    decreases k,
{
    if !at_end(s.code, s.curr) && k > 0 {
        let o = decode_step(s);
        lemma_step_forward(s);
        lemma_step_progress(s, k);
        lemma_run_bounded(o.next, (k - 1) as nat);
        let rest = run_resps(o.next, (k - 1) as nat);
        assert forall|j: int| 0 <= j < run_resps(s, k).len() implies (#[trigger] run_resps(s, k)[j]).bytes is Some by {
            if j > 0 {
                assert(run_resps(s, k)[j] == rest[j - 1]);
            }
        }
    }
}

/// `parse_n(n)` gives at most `n` answers, each that of one more `parse_one`: the first
/// is the answer of a step from the state, and the rest are those of `parse_n(n - 1)`
/// from the state after it.
pub proof fn lemma_run_is_steps(s: DecoderView, n: nat)
    ensures
        run_resps(s, n).len() <= n,
        !at_end(s.code, s.curr) && n > 0 ==> {
            &&& run_resps(s, n) == seq![decode_step(s).resp] + run_resps(
                decode_step(s).next,
                (n - 1) as nat,
            )
            &&& run_state(s, n) == run_state(decode_step(s).next, (n - 1) as nat)
        },
    decreases n,
{
    if !at_end(s.code, s.curr) && n > 0 {
        lemma_run_is_steps(decode_step(s).next, (n - 1) as nat);
    }
}

/// A run that reaches the end does so within as many steps as there are bytes left: so
/// `try_parse`, which tries one step more than there are bytes, fails only on a run that
/// never ends.
pub proof fn lemma_ends_within_bytes(s: DecoderView, k: nat, m: nat)
    requires
        0 <= s.curr,
        ends_within(s, k),
        m >= s.code.len() - s.curr,
    ensures
        ends_within(s, m),
    decreases k,
{
    if !at_end(s.code, s.curr) {
        lemma_step_forward(s);
        lemma_step_progress(s, k);
        lemma_ends_within_bytes(decode_step(s).next, (k - 1) as nat, (m - 1) as nat);
    }
}

/// `parse_n(n)` gives fewer than `n` answers only where it reaches the end, and with `n`
/// zero it gives nothing and leaves the state as it was.
pub proof fn lemma_run_short(s: DecoderView, n: nat)
    ensures
        run_resps(s, n).len() <= n,
        run_resps(s, n).len() < n ==> at_end(run_state(s, n).code, run_state(s, n).curr),
        run_state(s, n).code == s.code,
        n == 0 ==> run_resps(s, n).len() == 0 && run_state(s, n) == s,
    decreases n,
{
    if !at_end(s.code, s.curr) && n > 0 {
        lemma_step_code(s);
        lemma_run_short(decode_step(s).next, (n - 1) as nat);
    }
}

/// A step keeps the code.
proof fn lemma_step_code(s: DecoderView)
    ensures
        decode_step(s).next.code == s.code,
{
}

/// Decoding an instruction starts from the context without prefixes: it keeps the
/// architecture size, and where no prefix byte comes before the opcode and the opcode's
/// first byte is no REX byte, the context afterwards is the one without prefixes.
pub proof fn lemma_instruction_context(ctx0: Context, code: Seq<u8>, curr: int, tree: TreeView, upper: bool)
    ensures
        decode_instruction(ctx0, code, curr, tree, upper).ctx.size == ctx0.size,
        decode_instruction(ctx0, code, curr, tree, upper).prefixes == Some(Seq::<u8>::empty())
            && (byte_at(code, curr) & 0xf0) != 0x40 ==> decode_instruction(
            ctx0,
            code,
            curr,
            tree,
            upper,
        ).ctx == reset_ctx(ctx0),
{
    let ctx = reset_ctx(ctx0);
    lemma_search_found(tree.nodes, tree.root, code, curr, 0);
    match search(tree.nodes, tree.root, code, curr, 0) {
        SearchResult::Found(pc, i, c) => {
            let prefixes = read_bytes(code, curr, pc as nat);
            lemma_prefixes_reset(ctx, prefixes);
            if prefixes.len() == 0 {
                assert(pc == 0);
                assert(advanced(code, curr, 0) == curr);
                assert(apply_prefixes(ctx, prefixes) == ctx);
            }
        },
        _ => {},
    }
}

/// The factor that a SIB scale multiplies the index register by.
pub open spec fn multiplier(s: SIBScale) -> nat {
    match s {
        SIBScale::Zero => 1,
        SIBScale::Double => 2,
        SIBScale::Quad => 4,
        SIBScale::Octo => 8,
    }
}

/// Two to the power `n`.
pub open spec fn two_to(n: nat) -> nat
    decreases n,
{
    if n == 0 {
        1
    } else {
        2 * two_to((n - 1) as nat)
    }
}

/// The scale field `s` of a SIB byte multiplies the index register by two to the power `s`.
pub proof fn lemma_scale_is_power_of_two(s: u8)
    requires
        s < 4,
    ensures
        multiplier(scale_of(s)) == two_to(s as nat),
{
    reveal_with_fuel(two_to, 4);
}

/// Reading a SIB byte: unless its index field (with REX.X) is 4, which means no index,
/// the address gets the index register from bits 5..3 (extended by REX.X) and a scale
/// that multiplies it by two to the power of bits 7..6.
pub proof fn lemma_sib_index_and_scale(env: OpEnv, a: Address, st: OpState)
    ensures
        ({
            let sib = byte_at(env.code, st.curr);
            let index = ((sib >> 3u8) & 7u8) as u8;
            let r = sib_address(env, a, st).0;
            (env.rex.x | index) != 4 ==> {
                &&& r.index == Some((index | env.rex.x) as usize)
                &&& multiplier(r.scale) == two_to((sib >> 6u8) as nat)
            }
        }),
{
    let sib = byte_at(env.code, st.curr);
    assert(((sib & 0xc0u8) >> 6u8) == (sib >> 6u8) && ((sib & 0x38u8) >> 3u8) == ((sib >> 3u8) & 7u8)
        && (sib >> 6u8) < 4) by (bit_vector);
    lemma_scale_is_power_of_two((sib >> 6u8) as u8);
    let index = ((sib >> 3u8) & 7u8) as u8;
    let a1 = Address {
        index: Some((index | env.rex.x) as usize),
        scale: scale_of((sib >> 6u8) as u8),
        ..a
    };
    let st1 = OpState { curr: advanced(env.code, st.curr, 1), ..grow(st, 1) };
    if (env.rex.x | index) != 4 && (sib & 0x07) as u8 == 5 {
        assert(sib_base_disp(env, a1, st1).0.index == a1.index);
        assert(sib_base_disp(env, a1, st1).0.scale == a1.scale);
    }
}

/// Operand-size (0x66) and address-size (0x67) prefixes, in any number and order: the
/// context afterwards has the operand-size override exactly where it had it or a 0x66
/// came, the address-size override exactly where it had it or a 0x67 came, and nothing
/// else changed.
pub proof fn lemma_size_prefixes(ctx: Context, p: Seq<u8>)
    requires
        forall|i: int| 0 <= i < p.len() ==> p[i] == 0x66u8 || p[i] == 0x67u8,
    ensures
        apply_prefixes(ctx, p) == (Context {
            op_override: ctx.op_override || p.contains(0x66u8),
            addr_override: ctx.addr_override || p.contains(0x67u8),
            ..ctx
        }),
    decreases p.len(),
{
    if p.len() > 0 {
        let b = p[0];
        let rest = p.drop_first();
        assert(forall|i: int| 0 <= i < rest.len() ==> rest[i] == p[i + 1]);
        assert((b & 0xf0u8) != 0x40u8) by (bit_vector)
            requires
                b == 0x66u8 || b == 0x67u8,
        ;
        let next = if b == 0x66u8 {
            Context { op_override: true, ..ctx }
        } else {
            Context { addr_override: true, ..ctx }
        };
        lemma_size_prefixes(next, rest);
        assert forall|x: u8| p.contains(x) <==> (b == x || rest.contains(x)) by {
            if p.contains(x) {
                let i = choose|i: int| 0 <= i < p.len() && p[i] == x;
                if i > 0 {
                    assert(rest[i - 1] == x);
                }
            }
            if rest.contains(x) {
                let i = choose|i: int| 0 <= i < rest.len() && rest[i] == x;
                assert(p[i + 1] == x);
            }
            if b == x {
                assert(p[0] == x);
            }
        }
    } else {
        assert(!p.contains(0x66u8));
        assert(!p.contains(0x67u8));
    }
}

/// After an address-size prefix in 64-bit mode, memory operands use 32-bit registers; in
/// 32-bit mode, 16-bit ones.
pub proof fn lemma_address_size_prefix(ctx: Context)
    ensures
        ctx.size == ArchSize::I64 ==> addr_size_of(
            apply_prefixes(ctx, seq![0x67u8]).size,
            apply_prefixes(ctx, seq![0x67u8]).addr_override,
        ) == OperandSize::Double,
        ctx.size == ArchSize::I32 ==> addr_size_of(
            apply_prefixes(ctx, seq![0x67u8]).size,
            apply_prefixes(ctx, seq![0x67u8]).addr_override,
        ) == OperandSize::Word,
        apply_prefixes(ctx, seq![0x67u8]).op_override == ctx.op_override,
        apply_prefixes(ctx, seq![0x66u8]).addr_override == ctx.addr_override,
        apply_prefixes(ctx, seq![0x66u8]).op_override,
{
    lemma_size_prefixes(ctx, seq![0x67u8]);
    lemma_size_prefixes(ctx, seq![0x66u8]);
    assert(seq![0x67u8].contains(0x67u8) && seq![0x66u8].contains(0x66u8)) by {
        assert(seq![0x67u8][0] == 0x67u8);
        assert(seq![0x66u8][0] == 0x66u8);
    }
    assert(!seq![0x67u8].contains(0x66u8) && !seq![0x66u8].contains(0x67u8));
}

} // verus!
