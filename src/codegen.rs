use vstd::prelude::*;
use crate::ast::{Expression, Node, node_of, nodes_of, lemma_nodes_of};
use crate::optimize::{MOVE_LIMIT, within_limits, node_within_limits};
use crate::labels::{well_labelled, lemma_code_well_labelled};

verus! {

broadcast use vstd::std_specs::vec::group_vec_axioms, vstd::seq::group_seq_axioms;

/// One step of emitting x86-64 code into an instruction stream. Labels are
/// numbered in the order in which they are created, from zero.
#[derive(Debug, Clone, Copy, PartialEq, Eq, Structural)]
pub enum Emit {
    /// One literal byte.
    Byte(u8),
    /// A 32-bit little-endian immediate.
    DoubleWord(u32),
    /// Create the next label, not yet attached.
    CreateLabel,
    /// `jz rel32` to the label (six bytes).
    JzLabel(usize),
    /// `jnz rel32` to the label (six bytes).
    JnzLabel(usize),
    /// Attach the label to the current offset.
    AttachLabel(usize),
}

/// Bytes of machine code that a step adds to the stream.
pub open spec fn emit_len(e: Emit) -> nat {
    match e {
        Emit::Byte(_) => 1,
        Emit::DoubleWord(_) => 4,
        Emit::JzLabel(_) => 6,
        Emit::JnzLabel(_) => 6,
        _ => 0,
    }
}

/// Bytes of machine code that a sequence of steps adds to the stream.
pub open spec fn plan_len(p: Seq<Emit>) -> nat
    decreases p.len(),
{
    if p.len() == 0 {
        0
    } else {
        plan_len(p.drop_last()) + emit_len(p.last())
    }
}

pub open spec fn bytes(s: Seq<u8>) -> Seq<Emit> {
    s.map_values(|b: u8| Emit::Byte(b))
}

/// `addq $imm32, %rsi` / `subq $imm32, %rsi` with the opcode byte `op`.
pub open spec fn rsi_arith(op: u8, imm: u32) -> Seq<Emit> {
    bytes(seq![0x48u8, 0x81u8, op]) + seq![Emit::DoubleWord(imm)]
}

/// `addl $imm32, (%rsi)` / `subl $imm32, (%rsi)` with the ModR/M byte `modrm`.
pub open spec fn cell_arith(modrm: u8, imm: u32) -> Seq<Emit> {
    bytes(seq![0x81u8, modrm]) + seq![Emit::DoubleWord(imm)]
}

/// A one-byte `read`/`write` system call on the cell: the call number in
/// `%rax`, the descriptor in `%rdi`, a length of one in `%rdx`.
pub open spec fn syscall(number: u32, fd: u8) -> Seq<Emit> {
    bytes(seq![0x48u8, 0xc7u8, 0xc0u8]) + seq![Emit::DoubleWord(number)]
        + bytes(seq![0x48u8, 0xc7u8, 0xc7u8, fd, 0u8, 0u8, 0u8])
        + bytes(seq![0x48u8, 0xc7u8, 0xc2u8, 1u8, 0u8, 0u8, 0u8])
        + bytes(seq![0x0fu8, 0x05u8])
}

/// `cmpl $0, (%rsi)`.
pub open spec fn cmp_cell_zero() -> Seq<Emit> {
    bytes(seq![0x83u8, 0x3eu8, 0x00u8])
}

pub const WRITE_SYSCALL: u32 = 0x0200_0004;
pub const READ_SYSCALL: u32 = 0x0200_0003;
/// `retq`.
pub const RET: u8 = 0xc3;

/// Number of loops in a tree, nested ones included.
pub open spec fn loop_count(s: Seq<Node>) -> nat
    decreases s,
{
    if s.len() == 0 {
        0
    } else {
        loop_count(s.drop_last()) + node_loop_count(s.last())
    }
}

pub open spec fn node_loop_count(n: Node) -> nat
    decreases n,
{
    match n {
        Node::Loop(body) => 1 + loop_count(body),
        _ => 0,
    }
}

/// The code of a tree whose first loop takes labels `base` and `base + 1`.
pub open spec fn code(s: Seq<Node>, base: nat) -> Seq<Emit>
    decreases s,
{
    if s.len() == 0 {
        Seq::empty()
    } else {
        code(s.drop_last(), base) + node_code(s.last(), base + 2 * loop_count(s.drop_last()))
    }
}

/// The fixed template of one node. A loop tests the cell and skips past its
/// end when it is zero, runs its body, and jumps back to the body's start
/// while the cell is not zero.
pub open spec fn node_code(n: Node, base: nat) -> Seq<Emit>
    decreases n,
{
    match n {
        Node::MoveForward(k) => rsi_arith(0xc6, (4 * k) as u32),
        Node::MoveBack(k) => rsi_arith(0xee, (4 * k) as u32),
        Node::IncValue(k) => cell_arith(0x06, k as u32),
        Node::DecValue(k) => cell_arith(0x2e, k as u32),
        Node::OutputValue => syscall(WRITE_SYSCALL, 1),
        Node::InputValue => syscall(READ_SYSCALL, 0),
        Node::Loop(body) => {
            let loop_start = base as usize;
            let post_loop = (base + 1) as usize;
            seq![Emit::CreateLabel, Emit::CreateLabel] + cmp_cell_zero()
                + seq![Emit::JzLabel(post_loop), Emit::AttachLabel(loop_start)]
                + code(body, base + 2)
                + cmp_cell_zero() + seq![Emit::JnzLabel(loop_start), Emit::AttachLabel(post_loop)]
        },
    }
}

proof fn lemma_loop_count_take(s: Seq<Node>, k: int)
    requires
        0 <= k <= s.len(),
    ensures
        loop_count(s.take(k)) <= loop_count(s),
        k < s.len() ==> loop_count(s.take(k + 1)) == loop_count(s.take(k)) + node_loop_count(s[k]),
    decreases s.len(),
{
    if k < s.len() {
        assert(s.take(k + 1).drop_last() =~= s.take(k));
        if k + 1 < s.len() {
            lemma_loop_count_take(s.drop_last(), k);
            assert(s.drop_last().take(k) =~= s.take(k));
            assert(s.drop_last().take(k + 1) =~= s.take(k + 1));
            lemma_loop_count_take(s.drop_last(), k + 1);
        } else {
            assert(s.take(k + 1) =~= s);
        }
    } else {
        assert(s.take(k) =~= s);
    }
}

fn emit_rsi_arith(plan: &mut Vec<Emit>, op: u8, imm: u32)
    ensures
        final(plan)@ == old(plan)@ + rsi_arith(op, imm),
{
    plan.push(Emit::Byte(0x48));
    plan.push(Emit::Byte(0x81));
    plan.push(Emit::Byte(op));
    plan.push(Emit::DoubleWord(imm));
    assert(plan@ =~= old(plan)@ + rsi_arith(op, imm));
}

fn emit_cell_arith(plan: &mut Vec<Emit>, modrm: u8, imm: u32)
    ensures
        final(plan)@ == old(plan)@ + cell_arith(modrm, imm),
{
    plan.push(Emit::Byte(0x81));
    plan.push(Emit::Byte(modrm));
    plan.push(Emit::DoubleWord(imm));
    assert(plan@ =~= old(plan)@ + cell_arith(modrm, imm));
}

fn emit_syscall(plan: &mut Vec<Emit>, number: u32, fd: u8)
    ensures
        final(plan)@ == old(plan)@ + syscall(number, fd),
{
    plan.push(Emit::Byte(0x48));
    plan.push(Emit::Byte(0xc7));
    plan.push(Emit::Byte(0xc0));
    plan.push(Emit::DoubleWord(number));
    plan.push(Emit::Byte(0x48));
    plan.push(Emit::Byte(0xc7));
    plan.push(Emit::Byte(0xc7));
    plan.push(Emit::Byte(fd));
    plan.push(Emit::Byte(0));
    plan.push(Emit::Byte(0));
    plan.push(Emit::Byte(0));
    plan.push(Emit::Byte(0x48));
    plan.push(Emit::Byte(0xc7));
    plan.push(Emit::Byte(0xc2));
    plan.push(Emit::Byte(1));
    plan.push(Emit::Byte(0));
    plan.push(Emit::Byte(0));
    plan.push(Emit::Byte(0));
    plan.push(Emit::Byte(0x0f));
    plan.push(Emit::Byte(0x05));
    assert(plan@ =~= old(plan)@ + syscall(number, fd));
}

fn emit_cmp_cell_zero(plan: &mut Vec<Emit>)
    ensures
        final(plan)@ == old(plan)@ + cmp_cell_zero(),
{
    plan.push(Emit::Byte(0x83));
    plan.push(Emit::Byte(0x3e));
    plan.push(Emit::Byte(0x00));
    assert(plan@ =~= old(plan)@ + cmp_cell_zero());
}

/// Appends the code of a tree to `plan`, taking labels from `next_label` on:
/// each loop creates two, the loop's entry and the point after it.
pub fn compile(expressions: &Vec<Expression>, plan: &mut Vec<Emit>, next_label: &mut usize)
    requires
        within_limits(nodes_of(expressions@)),
        *old(next_label) + 2 * loop_count(nodes_of(expressions@)) <= usize::MAX,
    ensures
        final(plan)@ == old(plan)@ + code(nodes_of(expressions@), *old(next_label) as nat),
        *final(next_label) == *old(next_label) + 2 * loop_count(nodes_of(expressions@)),
    decreases expressions@,
{
    let ghost n = nodes_of(expressions@);
    let ghost base = *next_label as nat;
    let mut k: usize = 0;
    proof {
        lemma_nodes_of(expressions@);
        assert(n.take(0) =~= Seq::empty());
        assert(plan@ =~= old(plan)@ + code(n.take(0), base));
    }
    while k < expressions.len()
        invariant
            n == nodes_of(expressions@),
            n.len() == expressions@.len(),
            forall|j: int| 0 <= j < n.len() ==> n[j] == node_of(#[trigger] expressions@[j]),
            within_limits(n),
            base + 2 * loop_count(n) <= usize::MAX,
            k <= expressions.len(),
            plan@ == old(plan)@ + code(n.take(k as int), base),
            *next_label == base + 2 * loop_count(n.take(k as int)),
        decreases expressions.len() - k,
    {
        let ghost before = plan@;
        let ghost at = *next_label as nat;
        proof {
            lemma_loop_count_take(n, k as int);
            lemma_loop_count_take(n, k + 1);
            let t = n.take(k + 1);
            assert(t.drop_last() =~= n.take(k as int));
            assert(code(t, base) == code(n.take(k as int), base) + node_code(n[k as int], at));
            assert(node_within_limits(n[k as int]));
        }
        match &expressions[k] {
            Expression::MoveForward(c) => {
                emit_rsi_arith(plan, 0xc6, *c * 4);
            },
            Expression::MoveBack(c) => {
                emit_rsi_arith(plan, 0xee, *c * 4);
            },
            Expression::IncValue(c) => {
                emit_cell_arith(plan, 0x06, *c);
            },
            Expression::DecValue(c) => {
                emit_cell_arith(plan, 0x2e, *c);
            },
            Expression::OutputValue => {
                emit_syscall(plan, WRITE_SYSCALL, 1);
            },
            Expression::InputValue => {
                emit_syscall(plan, READ_SYSCALL, 0);
            },
            Expression::Loop(body) => {
                let loop_start = *next_label;
                let post_loop = loop_start + 1;
                *next_label = loop_start + 2;
                plan.push(Emit::CreateLabel);
                plan.push(Emit::CreateLabel);
                emit_cmp_cell_zero(plan);
                plan.push(Emit::JzLabel(post_loop));
                plan.push(Emit::AttachLabel(loop_start));
                let ghost mid = plan@;
                proof {
                    assert(decreases_to!(expressions@ => expressions@[k as int]));
                    lemma_nodes_of(body@);
                }
                compile(body, plan, next_label);
                let ghost after_body = plan@;
                emit_cmp_cell_zero(plan);
                plan.push(Emit::JnzLabel(loop_start));
                plan.push(Emit::AttachLabel(post_loop));
                proof {
                    let bc = code(nodes_of(body@), at + 2);
                    assert(after_body == mid + bc);
                    assert(node_code(n[k as int], at) =~= seq![Emit::CreateLabel, Emit::CreateLabel]
                        + cmp_cell_zero() + seq![Emit::JzLabel(post_loop), Emit::AttachLabel(loop_start)]
                        + bc + cmp_cell_zero() + seq![Emit::JnzLabel(loop_start), Emit::AttachLabel(post_loop)]);
                    assert(plan@ =~= before + node_code(n[k as int], at));
                }
            },
        }
        proof {
            assert(plan@ =~= old(plan)@ + code(n.take(k + 1), base));
        }
        k = k + 1;
    }
    proof {
        assert(n.take(k as int) =~= n);
    }
}

/// Counts of each kind of node in a tree, nested ones included.
pub struct Tally {
    pub fwd: nat,
    pub bwd: nat,
    pub inc: nat,
    pub dec: nat,
    pub output: nat,
    pub input: nat,
    pub loops: nat,
}

pub open spec fn tally_add(a: Tally, b: Tally) -> Tally {
    Tally {
        fwd: a.fwd + b.fwd,
        bwd: a.bwd + b.bwd,
        inc: a.inc + b.inc,
        dec: a.dec + b.dec,
        output: a.output + b.output,
        input: a.input + b.input,
        loops: a.loops + b.loops,
    }
}

pub open spec fn tally_zero() -> Tally {
    Tally { fwd: 0, bwd: 0, inc: 0, dec: 0, output: 0, input: 0, loops: 0 }
}

pub open spec fn tally(s: Seq<Node>) -> Tally
    decreases s,
{
    if s.len() == 0 {
        tally_zero()
    } else {
        tally_add(tally(s.drop_last()), node_tally(s.last()))
    }
}

pub open spec fn node_tally(n: Node) -> Tally
    decreases n,
{
    match n {
        Node::MoveForward(_) => Tally { fwd: 1, bwd: 0, inc: 0, dec: 0, output: 0, input: 0, loops: 0 },
        Node::MoveBack(_) => Tally { fwd: 0, bwd: 1, inc: 0, dec: 0, output: 0, input: 0, loops: 0 },
        Node::IncValue(_) => Tally { fwd: 0, bwd: 0, inc: 1, dec: 0, output: 0, input: 0, loops: 0 },
        Node::DecValue(_) => Tally { fwd: 0, bwd: 0, inc: 0, dec: 1, output: 0, input: 0, loops: 0 },
        Node::OutputValue => Tally { fwd: 0, bwd: 0, inc: 0, dec: 0, output: 1, input: 0, loops: 0 },
        Node::InputValue => Tally { fwd: 0, bwd: 0, inc: 0, dec: 0, output: 0, input: 1, loops: 0 },
        Node::Loop(body) => tally_add(Tally { fwd: 0, bwd: 0, inc: 0, dec: 0, output: 0, input: 0, loops: 1 }, tally(body)),
    }
}

/// Bytes of code for a tree with these counts: each node kind has a fixed
/// template size, and a loop has two tests of three plus six bytes.
pub open spec fn tally_size(t: Tally) -> nat {
    7 * t.fwd + 7 * t.bwd + 6 * t.inc + 6 * t.dec + 23 * t.output + 23 * t.input + 9 * 2 * t.loops
}

/// Largest code size that the generator takes on: every 32-bit relative
/// jump inside the code must reach its target.
pub const MAX_CODE_SIZE: usize = 0x7fff_0000;

/// Slack that the instruction stream wants beyond the code it holds.
pub const STREAM_SLACK: usize = 8;

/// Aggregate counts of each expression kind across a tree.
pub struct Stats {
    pub fwd_count: usize,
    pub bwd_count: usize,
    pub inc_count: usize,
    pub dec_count: usize,
    pub output_count: usize,
    pub input_count: usize,
    pub loop_count: usize,
}

impl View for Stats {
    type V = Tally;

    open spec fn view(&self) -> Tally {
        Tally {
            fwd: self.fwd_count as nat,
            bwd: self.bwd_count as nat,
            inc: self.inc_count as nat,
            dec: self.dec_count as nat,
            output: self.output_count as nat,
            input: self.input_count as nat,
            loops: self.loop_count as nat,
        }
    }
}

proof fn lemma_plan_len_concat(a: Seq<Emit>, b: Seq<Emit>)
    ensures
        plan_len(a + b) == plan_len(a) + plan_len(b),
    decreases b.len(),
{
    if b.len() > 0 {
        lemma_plan_len_concat(a, b.drop_last());
        assert((a + b).drop_last() =~= a + b.drop_last());
    } else {
        assert(a + b =~= a);
    }
}

proof fn lemma_plan_len_bytes(s: Seq<u8>)
    ensures
        plan_len(bytes(s)) == s.len(),
    decreases s.len(),
{
    if s.len() > 0 {
        lemma_plan_len_bytes(s.drop_last());
        assert(bytes(s).drop_last() =~= bytes(s.drop_last()));
    }
}

proof fn lemma_plan_len_one(e: Emit)
    ensures
        plan_len(seq![e]) == emit_len(e),
{
    assert(seq![e].drop_last() =~= Seq::<Emit>::empty());
    assert(plan_len(Seq::<Emit>::empty()) == 0);
}

proof fn lemma_tally_zero_size()
    ensures
        tally_size(tally_zero()) == 0,
{
    let z = tally_zero();
    assert(z.fwd == 0 && z.bwd == 0 && z.inc == 0 && z.dec == 0);
    assert(z.output == 0 && z.input == 0 && z.loops == 0);
    assert(7 * z.fwd + 7 * z.bwd + 6 * z.inc + 6 * z.dec == 0);
    assert(23 * z.output + 23 * z.input + 9 * 2 * z.loops == 0);
}

proof fn lemma_tally_size_add(a: Tally, b: Tally)
    ensures
        tally_size(tally_add(a, b)) == tally_size(a) + tally_size(b),
{
    assert(7 * (a.fwd + b.fwd) == 7 * a.fwd + 7 * b.fwd) by (nonlinear_arith);
    assert(7 * (a.bwd + b.bwd) == 7 * a.bwd + 7 * b.bwd) by (nonlinear_arith);
    assert(6 * (a.inc + b.inc) == 6 * a.inc + 6 * b.inc) by (nonlinear_arith);
    assert(6 * (a.dec + b.dec) == 6 * a.dec + 6 * b.dec) by (nonlinear_arith);
    assert(23 * (a.output + b.output) == 23 * a.output + 23 * b.output) by (nonlinear_arith);
    assert(23 * (a.input + b.input) == 23 * a.input + 23 * b.input) by (nonlinear_arith);
    assert(9 * 2 * (a.loops + b.loops) == 9 * 2 * a.loops + 9 * 2 * b.loops) by (nonlinear_arith);
}

/// The code of a tree is exactly as long as its counts say.
pub proof fn lemma_code_len(s: Seq<Node>, base: nat)
    ensures
        plan_len(code(s, base)) == tally_size(tally(s)),
        tally(s).loops == loop_count(s),
    decreases s,
{
    if s.len() > 0 {
        let p = s.drop_last();
        lemma_code_len(p, base);
        lemma_node_code_len(s.last(), base + 2 * loop_count(s.drop_last()));
        lemma_plan_len_concat(code(p, base), node_code(s.last(), base + 2 * loop_count(p)));
        assert(code(s, base) == code(p, base) + node_code(s.last(), base + 2 * loop_count(p)));
        assert(tally(s) == tally_add(tally(p), node_tally(s.last())));
        let (a, b) = (tally(p), node_tally(s.last()));
        lemma_tally_size_add(a, b);
    } else {
        assert(plan_len(code(s, base)) == 0);
    }
}

pub proof fn lemma_node_code_len(n: Node, base: nat)
    ensures
        plan_len(node_code(n, base)) == tally_size(node_tally(n)),
        node_tally(n).loops == node_loop_count(n),
    decreases n,
{
    match n {
        Node::MoveForward(k) => {
            lemma_imm_len(seq![0x48u8, 0x81u8, 0xc6u8], (4 * k) as u32);
        },
        Node::MoveBack(k) => {
            lemma_imm_len(seq![0x48u8, 0x81u8, 0xeeu8], (4 * k) as u32);
        },
        Node::IncValue(k) => {
            lemma_imm_len(seq![0x81u8, 0x06u8], k as u32);
        },
        Node::DecValue(k) => {
            lemma_imm_len(seq![0x81u8, 0x2eu8], k as u32);
        },
        Node::OutputValue => {
            lemma_syscall_len(WRITE_SYSCALL, 1);
            assert(node_code(n, base) == syscall(WRITE_SYSCALL, 1));
            let t = node_tally(n);
            assert(t.fwd == 0 && t.bwd == 0 && t.inc == 0 && t.dec == 0 && t.loops == 0);
            assert(t.output + t.input == 1);
            assert(tally_size(t) == 23);
        },
        Node::InputValue => {
            lemma_syscall_len(READ_SYSCALL, 0);
            assert(node_code(n, base) == syscall(READ_SYSCALL, 0));
            let t = node_tally(n);
            assert(t.fwd == 0 && t.bwd == 0 && t.inc == 0 && t.dec == 0 && t.loops == 0);
            assert(t.output + t.input == 1);
            assert(tally_size(t) == 23);
        },
        Node::Loop(body) => {
            let ls = base as usize;
            let pl = (base + 1) as usize;
            let a = seq![Emit::CreateLabel, Emit::CreateLabel];
            let c = cmp_cell_zero();
            let j1 = seq![Emit::JzLabel(pl), Emit::AttachLabel(ls)];
            let b = code(body, base + 2);
            let j2 = seq![Emit::JnzLabel(ls), Emit::AttachLabel(pl)];
            lemma_code_len(body, base + 2);
            lemma_plan_len_bytes(seq![0x83u8, 0x3eu8, 0x00u8]);
            assert(plan_len(a) == 0) by {
                assert(a.drop_last() =~= seq![Emit::CreateLabel]);
                lemma_plan_len_one(Emit::CreateLabel);
            }
            assert(plan_len(j1) == 6) by {
                assert(j1.drop_last() =~= seq![Emit::JzLabel(pl)]);
                lemma_plan_len_one(Emit::JzLabel(pl));
            }
            assert(plan_len(j2) == 6) by {
                assert(j2.drop_last() =~= seq![Emit::JnzLabel(ls)]);
                lemma_plan_len_one(Emit::JnzLabel(ls));
            }
            lemma_plan_len_concat(a, c);
            lemma_plan_len_concat(a + c, j1);
            lemma_plan_len_concat(a + c + j1, b);
            lemma_plan_len_concat(a + c + j1 + b, c);
            lemma_plan_len_concat(a + c + j1 + b + c, j2);
            assert(node_code(n, base) == a + c + j1 + b + c + j2);
            let one = Tally { fwd: 0, bwd: 0, inc: 0, dec: 0, output: 0, input: 0, loops: 1 };
            lemma_tally_size_add(one, tally(body));
            assert(tally_size(one) == 18);
            assert(plan_len(node_code(n, base)) == tally_size(node_tally(n)));
        },
    }
}

proof fn lemma_imm_len(prefix: Seq<u8>, imm: u32)
    ensures
        plan_len(bytes(prefix) + seq![Emit::DoubleWord(imm)]) == prefix.len() + 4,
{
    lemma_plan_len_bytes(prefix);
    lemma_plan_len_one(Emit::DoubleWord(imm));
    lemma_plan_len_concat(bytes(prefix), seq![Emit::DoubleWord(imm)]);
}

proof fn lemma_syscall_len(number: u32, fd: u8)
    ensures
        plan_len(syscall(number, fd)) == 23,
{
    let a = bytes(seq![0x48u8, 0xc7u8, 0xc0u8]);
    let d = seq![Emit::DoubleWord(number)];
    let b = bytes(seq![0x48u8, 0xc7u8, 0xc7u8, fd, 0u8, 0u8, 0u8]);
    let c = bytes(seq![0x48u8, 0xc7u8, 0xc2u8, 1u8, 0u8, 0u8, 0u8]);
    let e = bytes(seq![0x0fu8, 0x05u8]);
    lemma_plan_len_bytes(seq![0x48u8, 0xc7u8, 0xc0u8]);
    lemma_plan_len_bytes(seq![0x48u8, 0xc7u8, 0xc7u8, fd, 0u8, 0u8, 0u8]);
    lemma_plan_len_bytes(seq![0x48u8, 0xc7u8, 0xc2u8, 1u8, 0u8, 0u8, 0u8]);
    lemma_plan_len_bytes(seq![0x0fu8, 0x05u8]);
    lemma_plan_len_one(Emit::DoubleWord(number));
    lemma_plan_len_concat(a, d);
    lemma_plan_len_concat(a + d, b);
    lemma_plan_len_concat(a + d + b, c);
    lemma_plan_len_concat(a + d + b + c, e);
}

/// The code's length never exceeds the buffer size computed from the
/// counts: it is exactly the counts' template size, plus the return.
pub proof fn lemma_code_fits_buffer(s: Seq<Node>)
    ensures
        plan_len(code(s, 0).push(Emit::Byte(RET))) == tally_size(tally(s)) + 1,
        plan_len(code(s, 0).push(Emit::Byte(RET))) <= tally_size(tally(s)) + 1 + STREAM_SLACK,
{
    lemma_code_len(s, 0);
    assert(code(s, 0).push(Emit::Byte(RET)).drop_last() =~= code(s, 0));
}

proof fn lemma_tally_take(s: Seq<Node>, k: int)
    requires
        0 <= k <= s.len(),
    ensures
        tally_size(tally(s.take(k))) <= tally_size(tally(s)),
        k < s.len() ==> tally(s.take(k + 1)) == tally_add(tally(s.take(k)), node_tally(s[k])),
    decreases s.len(),
{
    if k < s.len() {
        assert(s.take(k + 1).drop_last() =~= s.take(k));
    }
    if k == s.len() {
        assert(s.take(k) =~= s);
    } else {
        let p = s.drop_last();
        lemma_tally_take(p, k);
        assert(p.take(k) =~= s.take(k));
        lemma_tally_size_add(tally(p), node_tally(s.last()));
    }
}

/// The tree fits the generator: move counts within their limit, and code
/// no longer than `MAX_CODE_SIZE`.
pub open spec fn compilable(s: Seq<Node>) -> bool {
    within_limits(s) && tally_size(tally(s)) <= MAX_CODE_SIZE
}

/// Counts each kind of node across a tree, nested ones included.
pub fn stats(expressions: &Vec<Expression>) -> (r: Stats)
    requires
        tally_size(tally(nodes_of(expressions@))) <= MAX_CODE_SIZE,
    ensures
        r@ == tally(nodes_of(expressions@)),
    decreases expressions@,
{
    let ghost n = nodes_of(expressions@);
    let mut r = Stats {
        fwd_count: 0,
        bwd_count: 0,
        inc_count: 0,
        dec_count: 0,
        output_count: 0,
        input_count: 0,
        loop_count: 0,
    };
    let mut k: usize = 0;
    proof {
        lemma_nodes_of(expressions@);
        assert(n.take(0) =~= Seq::empty());
    }
    while k < expressions.len()
        invariant
            n == nodes_of(expressions@),
            n.len() == expressions@.len(),
            forall|j: int| 0 <= j < n.len() ==> n[j] == node_of(#[trigger] expressions@[j]),
            tally_size(tally(n)) <= MAX_CODE_SIZE,
            k <= expressions.len(),
            r@ == tally(n.take(k as int)),
        decreases expressions.len() - k,
    {
        proof {
            lemma_tally_take(n, k as int);
            lemma_tally_take(n, k + 1);
        }
        match &expressions[k] {
            Expression::MoveForward(_) => r.fwd_count = r.fwd_count + 1,
            Expression::MoveBack(_) => r.bwd_count = r.bwd_count + 1,
            Expression::IncValue(_) => r.inc_count = r.inc_count + 1,
            Expression::DecValue(_) => r.dec_count = r.dec_count + 1,
            Expression::OutputValue => r.output_count = r.output_count + 1,
            Expression::InputValue => r.input_count = r.input_count + 1,
            Expression::Loop(body) => {
                proof {
                    assert(decreases_to!(expressions@ => expressions@[k as int]));
                    lemma_nodes_of(body@);
                    let one = Tally { fwd: 0, bwd: 0, inc: 0, dec: 0, output: 0, input: 0, loops: 1 };
                    lemma_tally_size_add(one, tally(nodes_of(body@)));
                    lemma_tally_size_add(tally(n.take(k as int)), node_tally(n[k as int]));
                }
                let sub = stats(body);
                r.fwd_count = r.fwd_count + sub.fwd_count;
                r.bwd_count = r.bwd_count + sub.bwd_count;
                r.inc_count = r.inc_count + sub.inc_count;
                r.dec_count = r.dec_count + sub.dec_count;
                r.output_count = r.output_count + sub.output_count;
                r.input_count = r.input_count + sub.input_count;
                r.loop_count = r.loop_count + 1 + sub.loop_count;
            },
        }
        k = k + 1;
    }
    proof {
        assert(n.take(k as int) =~= n);
    }
    r
}

/// Bytes of code that a tree with these counts compiles to, without the
/// final return.
pub fn opcodes_size(stats: &Stats) -> (r: usize)
    requires
        tally_size(stats@) <= MAX_CODE_SIZE,
    ensures
        r == tally_size(stats@),
{
    7 * stats.fwd_count + 7 * stats.bwd_count + 6 * stats.inc_count + 6 * stats.dec_count
        + 23 * stats.output_count + 23 * stats.input_count + 9 * 2 * stats.loop_count
}

/// What is left of `budget` after the code of the tree, if every move count
/// is within its limit and the code fits in `budget`.
fn remaining_budget(expressions: &Vec<Expression>, budget: usize) -> (r: Option<usize>)
    ensures
        r is Some <==> within_limits(nodes_of(expressions@))
            && tally_size(tally(nodes_of(expressions@))) <= budget,
        r matches Some(rest) ==> rest == budget - tally_size(tally(nodes_of(expressions@))),
    decreases expressions@,
{
    let ghost n = nodes_of(expressions@);
    let mut rest: usize = budget;
    let mut k: usize = 0;
    proof {
        lemma_nodes_of(expressions@);
        assert(n.take(0) =~= Seq::empty());
        assert(tally(n.take(0)) == tally_zero());
        lemma_tally_zero_size();
    }
    while k < expressions.len()
        invariant
            n == nodes_of(expressions@),
            n.len() == expressions@.len(),
            forall|j: int| 0 <= j < n.len() ==> n[j] == node_of(#[trigger] expressions@[j]),
            k <= expressions.len(),
            within_limits(n.take(k as int)),
            tally_size(tally(n.take(k as int))) <= budget,
            rest == budget - tally_size(tally(n.take(k as int))),
        decreases expressions.len() - k,
    {
        proof {
            lemma_tally_take(n, k as int);
            lemma_tally_take(n, k + 1);
            lemma_tally_size_add(tally(n.take(k as int)), node_tally(n[k as int]));
            assert(n.take(k + 1)[k as int] == n[k as int]);
        }
        let cost: usize = match &expressions[k] {
            Expression::MoveForward(c) => {
                if *c > MOVE_LIMIT {
                    proof {
                        assert(!node_within_limits(n[k as int]));
                    }
                    return None;
                }
                7
            },
            Expression::MoveBack(c) => {
                if *c > MOVE_LIMIT {
                    proof {
                        assert(!node_within_limits(n[k as int]));
                    }
                    return None;
                }
                7
            },
            Expression::IncValue(_) => 6,
            Expression::DecValue(_) => 6,
            Expression::OutputValue => 23,
            Expression::InputValue => 23,
            Expression::Loop(body) => {
                proof {
                    assert(decreases_to!(expressions@ => expressions@[k as int]));
                    lemma_nodes_of(body@);
                    let one = Tally { fwd: 0, bwd: 0, inc: 0, dec: 0, output: 0, input: 0, loops: 1 };
                    lemma_tally_size_add(one, tally(nodes_of(body@)));
                }
                if rest < 18 {
                    return None;
                }
                match remaining_budget(body, rest - 18) {
                    Some(after) => rest - after,
                    None => {
                        proof {
                            if within_limits(nodes_of(body@)) {
                                assert(tally_size(tally(n)) > budget);
                            } else {
                                assert(!node_within_limits(n[k as int]));
                            }
                        }
                        return None;
                    },
                }
            },
        };
        if cost > rest {
            return None;
        }
        rest = rest - cost;
        proof {
            assert(node_within_limits(n.take(k + 1)[k as int]));
            assert(within_limits(n.take(k + 1)));
        }
        k = k + 1;
    }
    proof {
        assert(n.take(k as int) =~= n);
    }
    Some(rest)
}

/// Everything the runtime needs to build the executable code of a tree.
pub struct CodePlan {
    /// Counts of each node kind, from which the buffer is sized.
    pub stats: Stats,
    /// Bytes to allocate for the code: its fixed-size templates, the final
    /// return and the stream's slack.
    pub buffer_size: usize,
    /// The emission steps, ending with the return.
    pub steps: Vec<Emit>,
}

/// Plans the executable code of a tree: the code of every node followed by
/// a return. Fails exactly when a move count is over its limit or the code
/// would exceed `MAX_CODE_SIZE`.
pub fn generate(expressions: &Vec<Expression>) -> (r: Option<CodePlan>)
    ensures
        r is Some <==> compilable(nodes_of(expressions@)),
        r matches Some(p) ==> {
            &&& p.stats@ == tally(nodes_of(expressions@))
            &&& p.steps@ == code(nodes_of(expressions@), 0).push(Emit::Byte(RET))
            &&& p.buffer_size == tally_size(p.stats@) + 1 + STREAM_SLACK
            &&& plan_len(p.steps@) <= p.buffer_size
            &&& well_labelled(p.steps@)
        },
{
    let ghost n = nodes_of(expressions@);
    let fits = remaining_budget(expressions, MAX_CODE_SIZE);
    if fits.is_none() {
        return None;
    }
    let stats = stats(expressions);
    let buffer_size = opcodes_size(&stats) + 1 + STREAM_SLACK;
    let mut steps: Vec<Emit> = Vec::new();
    let mut next_label: usize = 0;
    proof {
        lemma_code_len(n, 0);
        assert(tally_size(tally(n)) <= MAX_CODE_SIZE);
        assert(9 * 2 * tally(n).loops <= tally_size(tally(n)));
        let x = loop_count(n);
        assert(2 * x <= MAX_CODE_SIZE) by (nonlinear_arith)
            requires
                9 * 2 * x <= MAX_CODE_SIZE,
        ;
    }
    compile(expressions, &mut steps, &mut next_label);
    steps.push(Emit::Byte(RET));
    proof {
        assert(steps@ =~= code(n, 0).push(Emit::Byte(RET)));
        lemma_code_fits_buffer(n);
        lemma_code_well_labelled(n);
    }
    Some(CodePlan { stats, buffer_size, steps })
}

} // verus!
