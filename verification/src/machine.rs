//! The stack machine that runs compiled programs, and the mailbox through
//! which a running machine is handed a new program.
//!
//! The machine holds a table of node values, a parallel table of each node's
//! value as of the previous tick, and per-slot update behaviour. A tick is one
//! pass of the installed update program: it first swaps the two tables, then
//! evaluates every node's stored update code in dependency order, writing the
//! fresh values into the current table. The interpreter walks an owned
//! instruction buffer by index; relative jumps carry serialized byte offsets
//! and are resolved against the buffer, validated against its bounds.
//!
//! Execution is specified by [`run_flat`] (straight-line expression code, as
//! stored per node and as compiled for single expressions) and [`run_main`]
//! (whole programs, which may also allocate slots, store to them, and swap the
//! tables). Faults — type mismatches, stack underflow, a value left on the
//! stack at termination, a bad jump or slot — abort the current pass only; the
//! machine keeps its state and can run the next tick or take a new program.

use vstd::prelude::*;
use vstd::pervasive::VecAdditionalExecFns;
use crate::insn::{Insn, InsnV, byte_len, seq_byte_len, deep_code, lemma_deep_code_index};
use crate::compile::RuntimeNodeIndex;

verus! {

/// A runtime value: an integer, a boolean, or the absent value.
#[derive(Debug, Clone, Copy, PartialEq, Eq, Structural)]
pub enum Value {
    Int(i32),
    Bool(bool),
    Nil,
}

/// A fault during execution. Faults indicate a broken program (a compiler
/// bug or hand-made bytecode), not a user error: the current pass is aborted
/// and reported, and the machine itself survives.
#[derive(Debug, Clone, Copy, PartialEq, Eq, Structural)]
pub enum RuntimeErr {
    /// A terminate instruction found more than its one value on the stack.
    ValueLeft,
    /// An instruction needed more operands than the stack holds.
    StackUnderflow,
    /// An arithmetic or branch instruction met an operand of the wrong shape.
    TypeMismatch,
    /// A jump offset did not land on an instruction boundary inside the
    /// program.
    BadJump,
    /// A slot index lay outside the table it addresses.
    BadSlot,
    /// An instruction that this machine does not execute.
    Unsupported,
}

/// What a node slot does when the update program asks it for a fresh value.
pub enum InputAction {
    /// The value is supplied from outside (an input device); the machine
    /// reads it from its input table.
    Device,
    /// The stored update code computes the value.
    Body(Vec<Insn>),
    /// Nothing is stored: the slot yields the absent value.
    Absent,
}

/// The mathematical shape of an [`InputAction`].
pub enum ActV {
    Device,
    Body(Seq<InsnV>),
    Absent,
}

impl InputAction {
    /// The mathematical shape of this action.
    pub open spec fn deep(self) -> ActV {
        match self {
            InputAction::Device => ActV::Device,
            InputAction::Body(b) => ActV::Body(deep_code(b@)),
            InputAction::Absent => ActV::Absent,
        }
    }
}

/// The mathematical shape of an action table.
pub open spec fn deep_acts(s: Seq<InputAction>) -> Seq<ActV>
    decreases s,
{
    if s.len() == 0 {
        Seq::empty()
    } else {
        seq![s[0].deep()] + deep_acts(s.drop_first())
    }
}

/// `deep_acts` maps element by element.
pub proof fn lemma_deep_acts_index(s: Seq<InputAction>)
    ensures
        deep_acts(s).len() == s.len(),
        forall|k: int| 0 <= k < s.len() ==> #[trigger] deep_acts(s)[k] == s[k].deep(),
    decreases s,
{
    if s.len() > 0 {
        lemma_deep_acts_index(s.drop_first());
        assert forall|k: int| 0 <= k < s.len() implies #[trigger] deep_acts(s)[k] == s[k].deep()
        by {
            if k > 0 {
                assert(deep_acts(s)[k] == deep_acts(s.drop_first())[k - 1]);
                assert(s.drop_first()[k - 1] == s[k]);
            }
        }
    }
}

/// The mathematical state of a machine.
#[verifier::ext_equal]
pub struct MachV {
    /// Node values as of this tick, indexed by slot.
    pub nodes: Seq<Value>,
    /// Node values as of the previous tick.
    pub last: Seq<Value>,
    /// Per-slot update behaviour.
    pub acts: Seq<ActV>,
    /// Which slots are output nodes.
    pub outs: Seq<bool>,
    /// The externally supplied value of each input slot.
    pub ins: Seq<Value>,
}

/// How a run of straight-line code ended.
pub enum FlatOut {
    /// A `Return` gave this value back, with nothing else on the stack.
    Ret(Value),
    /// An `Exit` produced this value, with nothing else on the stack.
    Exited(Value),
    /// A `Halt` ended the run without a value, with an empty stack.
    Halted,
    /// The run aborted.
    Fault(RuntimeErr),
}

/// How a run of a whole program ended: the machine state it left behind,
/// and a value where the program produced one.
pub enum MainOut {
    Halted(MachV),
    Exited(MachV, Value),
    Fault(MachV, RuntimeErr),
}

/// The instruction index reached from `t` by skipping `rem` serialized
/// bytes of straight-line instructions, or nothing if no instruction
/// boundary lies exactly `rem` bytes ahead. Block instructions end the
/// search: a jump never skips over an allocation block.
pub open spec fn seek_target(code: Seq<InsnV>, t: int, rem: int) -> Option<int>
    decreases code.len() - t,
{
    if rem == 0 {
        Option::Some(t)
    } else if rem < 0 || t < 0 || t >= code.len() || !flat_insn(code[t]) {
        Option::None
    } else {
        seek_target(code, t + 1, rem - byte_len(code[t]))
    }
}

/// Whether an instruction is straight-line: no nested block.
pub open spec fn flat_insn(i: InsnV) -> bool {
    match i {
        InsnV::AllocNode(_, _) => false,
        InsnV::AllocNodeNew(_) => false,
        InsnV::AllocFunc(_, _) => false,
        InsnV::AllocFuncNew(_) => false,
        InsnV::AllocData(_, _) => false,
        InsnV::AllocDataNew(_) => false,
        _ => true,
    }
}

/// Straight-line instructions serialize to at most five bytes each.
pub proof fn lemma_flat_byte_len_bound(s: Seq<InsnV>)
    requires
        forall|k: int| 0 <= k < s.len() ==> flat_insn(#[trigger] s[k]),
    ensures
        seq_byte_len(s) <= 5 * s.len(),
    decreases s,
{
    if s.len() > 0 {
        assert(byte_len(s[0]) <= 5);
        assert(forall|k: int|
            0 <= k < s.drop_first().len() ==> flat_insn(#[trigger] s.drop_first()[k]));
        lemma_flat_byte_len_bound(s.drop_first());
    }
}

/// The sum of a pair of integers as the machine computes it: two's
/// complement, wrapping around on overflow.
pub open spec fn wrap_add(a: i32, b: i32) -> i32 {
    a.wrapping_add(b)
}

/// The product of a pair of integers as the machine computes it.
pub open spec fn wrap_mul(a: i32, b: i32) -> i32 {
    a.wrapping_mul(b)
}

/// Runs straight-line code from `pc` with the given stack, reading node
/// tables but never writing them. This is the meaning of a node's stored
/// update code and of a compiled single expression.
pub open spec fn run_flat(
    code: Seq<InsnV>,
    pc: int,
    stack: Seq<Value>,
    nodes: Seq<Value>,
    last: Seq<Value>,
) -> FlatOut
    decreases code.len() - pc, 1int,
{
    if pc < 0 || pc >= code.len() {
        FlatOut::Fault(RuntimeErr::BadJump)
    } else {
        match code[pc] {
            InsnV::Nil => run_flat(code, pc + 1, stack.push(Value::Nil), nodes, last),
            InsnV::Int(x) => run_flat(code, pc + 1, stack.push(Value::Int(x)), nodes, last),
            InsnV::Bool(b) => run_flat(code, pc + 1, stack.push(Value::Bool(b)), nodes, last),
            InsnV::Add => {
                if stack.len() < 2 {
                    FlatOut::Fault(RuntimeErr::StackUnderflow)
                } else {
                    match (stack[stack.len() - 1], stack[stack.len() - 2]) {
                        (Value::Int(a), Value::Int(b)) => run_flat(
                            code,
                            pc + 1,
                            stack.drop_last().drop_last().push(Value::Int(wrap_add(a, b))),
                            nodes,
                            last,
                        ),
                        _ => FlatOut::Fault(RuntimeErr::TypeMismatch),
                    }
                }
            },
            InsnV::Mul => {
                if stack.len() < 2 {
                    FlatOut::Fault(RuntimeErr::StackUnderflow)
                } else {
                    match (stack[stack.len() - 1], stack[stack.len() - 2]) {
                        (Value::Int(a), Value::Int(b)) => run_flat(
                            code,
                            pc + 1,
                            stack.drop_last().drop_last().push(Value::Int(wrap_mul(a, b))),
                            nodes,
                            last,
                        ),
                        _ => FlatOut::Fault(RuntimeErr::TypeMismatch),
                    }
                }
            },
            InsnV::Je8(o) => spec_branch(code, pc, o as int, stack, nodes, last),
            InsnV::Je32(o) => spec_branch(code, pc, o as int, stack, nodes, last),
            InsnV::J8(o) => spec_jump(code, pc, o as int, stack, nodes, last),
            InsnV::J32(o) => spec_jump(code, pc, o as int, stack, nodes, last),
            InsnV::GetLocal(u) => {
                if u < stack.len() {
                    run_flat(code, pc + 1, stack.push(stack[u as int]), nodes, last)
                } else {
                    FlatOut::Fault(RuntimeErr::BadSlot)
                }
            },
            InsnV::SetLocal(u) => {
                if stack.len() == 0 {
                    FlatOut::Fault(RuntimeErr::StackUnderflow)
                } else if u < stack.len() - 1 {
                    run_flat(
                        code,
                        pc + 1,
                        stack.drop_last().update(u as int, stack[stack.len() - 1]),
                        nodes,
                        last,
                    )
                } else {
                    FlatOut::Fault(RuntimeErr::BadSlot)
                }
            },
            InsnV::GetNode(u) => {
                if u < nodes.len() {
                    run_flat(code, pc + 1, stack.push(nodes[u as int]), nodes, last)
                } else {
                    FlatOut::Fault(RuntimeErr::BadSlot)
                }
            },
            InsnV::GetLast(u) => {
                if u < last.len() {
                    run_flat(code, pc + 1, stack.push(last[u as int]), nodes, last)
                } else {
                    FlatOut::Fault(RuntimeErr::BadSlot)
                }
            },
            InsnV::Return => {
                if stack.len() == 0 {
                    FlatOut::Fault(RuntimeErr::StackUnderflow)
                } else if stack.len() == 1 {
                    FlatOut::Ret(stack[0])
                } else {
                    FlatOut::Fault(RuntimeErr::ValueLeft)
                }
            },
            InsnV::Exit => {
                if stack.len() == 0 {
                    FlatOut::Fault(RuntimeErr::StackUnderflow)
                } else if stack.len() == 1 {
                    FlatOut::Exited(stack[0])
                } else {
                    FlatOut::Fault(RuntimeErr::ValueLeft)
                }
            },
            InsnV::Halt => {
                if stack.len() == 0 {
                    FlatOut::Halted
                } else {
                    FlatOut::Fault(RuntimeErr::ValueLeft)
                }
            },
            _ => FlatOut::Fault(RuntimeErr::Unsupported),
        }
    }
}

/// A conditional branch in straight-line code: pops a boolean; when it is
/// true, skips `off` serialized bytes forward.
pub open spec fn spec_branch(
    code: Seq<InsnV>,
    pc: int,
    off: int,
    stack: Seq<Value>,
    nodes: Seq<Value>,
    last: Seq<Value>,
) -> FlatOut
    decreases code.len() - pc, 0int,
{
    if pc < 0 || pc >= code.len() {
        FlatOut::Fault(RuntimeErr::BadJump)
    } else if stack.len() == 0 {
        FlatOut::Fault(RuntimeErr::StackUnderflow)
    } else {
        match stack[stack.len() - 1] {
            Value::Bool(b) => {
                let popped = stack.drop_last();
                if b {
                    match seek_target(code, pc + 1, off) {
                        Option::Some(t) => {
                            if pc < t <= code.len() {
                                run_flat(code, t, popped, nodes, last)
                            } else {
                                FlatOut::Fault(RuntimeErr::BadJump)
                            }
                        },
                        Option::None => FlatOut::Fault(RuntimeErr::BadJump),
                    }
                } else {
                    run_flat(code, pc + 1, popped, nodes, last)
                }
            },
            _ => FlatOut::Fault(RuntimeErr::TypeMismatch),
        }
    }
}

/// Runs a whole program from `pc` with the given stack against machine
/// state `m`. Beyond the straight-line instructions this executes slot
/// stores, slot allocation, the table swap, and per-slot update evaluation;
/// it yields the machine state left behind, along with a value where the
/// program produced one.
pub open spec fn run_main(code: Seq<InsnV>, pc: int, stack: Seq<Value>, m: MachV) -> MainOut
    decreases code.len() - pc, 1int,
{
    if pc < 0 || pc >= code.len() {
        MainOut::Fault(m, RuntimeErr::BadJump)
    } else {
        match code[pc] {
            InsnV::Nil => run_main(code, pc + 1, stack.push(Value::Nil), m),
            InsnV::Int(x) => run_main(code, pc + 1, stack.push(Value::Int(x)), m),
            InsnV::Bool(b) => run_main(code, pc + 1, stack.push(Value::Bool(b)), m),
            InsnV::Add => {
                if stack.len() < 2 {
                    MainOut::Fault(m, RuntimeErr::StackUnderflow)
                } else {
                    match (stack[stack.len() - 1], stack[stack.len() - 2]) {
                        (Value::Int(a), Value::Int(b)) => run_main(
                            code,
                            pc + 1,
                            stack.drop_last().drop_last().push(Value::Int(wrap_add(a, b))),
                            m,
                        ),
                        _ => MainOut::Fault(m, RuntimeErr::TypeMismatch),
                    }
                }
            },
            InsnV::Mul => {
                if stack.len() < 2 {
                    MainOut::Fault(m, RuntimeErr::StackUnderflow)
                } else {
                    match (stack[stack.len() - 1], stack[stack.len() - 2]) {
                        (Value::Int(a), Value::Int(b)) => run_main(
                            code,
                            pc + 1,
                            stack.drop_last().drop_last().push(Value::Int(wrap_mul(a, b))),
                            m,
                        ),
                        _ => MainOut::Fault(m, RuntimeErr::TypeMismatch),
                    }
                }
            },
            InsnV::Je8(o) => main_branch(code, pc, o as int, stack, m),
            InsnV::Je32(o) => main_branch(code, pc, o as int, stack, m),
            InsnV::J8(o) => main_jump(code, pc, o as int, stack, m),
            InsnV::J32(o) => main_jump(code, pc, o as int, stack, m),
            InsnV::GetLocal(u) => {
                if u < stack.len() {
                    run_main(code, pc + 1, stack.push(stack[u as int]), m)
                } else {
                    MainOut::Fault(m, RuntimeErr::BadSlot)
                }
            },
            InsnV::SetLocal(u) => {
                if stack.len() == 0 {
                    MainOut::Fault(m, RuntimeErr::StackUnderflow)
                } else if u < stack.len() - 1 {
                    run_main(
                        code,
                        pc + 1,
                        stack.drop_last().update(u as int, stack[stack.len() - 1]),
                        m,
                    )
                } else {
                    MainOut::Fault(m, RuntimeErr::BadSlot)
                }
            },
            InsnV::GetNode(u) => {
                if u < m.nodes.len() {
                    run_main(code, pc + 1, stack.push(m.nodes[u as int]), m)
                } else {
                    MainOut::Fault(m, RuntimeErr::BadSlot)
                }
            },
            InsnV::GetLast(u) => {
                if u < m.last.len() {
                    run_main(code, pc + 1, stack.push(m.last[u as int]), m)
                } else {
                    MainOut::Fault(m, RuntimeErr::BadSlot)
                }
            },
            InsnV::SaveLast => run_main(
                code,
                pc + 1,
                stack,
                MachV { nodes: m.last, last: m.nodes, ..m },
            ),
            InsnV::UpdateNode(u) => {
                if u >= m.acts.len() {
                    MainOut::Fault(m, RuntimeErr::BadSlot)
                } else {
                    match m.acts[u as int] {
                        ActV::Device => {
                            if u < m.ins.len() {
                                run_main(code, pc + 1, stack.push(m.ins[u as int]), m)
                            } else {
                                MainOut::Fault(m, RuntimeErr::BadSlot)
                            }
                        },
                        ActV::Body(b) => {
                            match run_flat(b, 0, Seq::empty(), m.nodes, m.last) {
                                FlatOut::Ret(v) => run_main(code, pc + 1, stack.push(v), m),
                                FlatOut::Fault(e) => MainOut::Fault(m, e),
                                _ => MainOut::Fault(m, RuntimeErr::Unsupported),
                            }
                        },
                        ActV::Absent => run_main(code, pc + 1, stack.push(Value::Nil), m),
                    }
                }
            },
            InsnV::SetNode(u) => {
                if stack.len() == 0 {
                    MainOut::Fault(m, RuntimeErr::StackUnderflow)
                } else if u < m.nodes.len() {
                    run_main(
                        code,
                        pc + 1,
                        stack.drop_last(),
                        MachV { nodes: m.nodes.update(u as int, stack[stack.len() - 1]), ..m },
                    )
                } else {
                    MainOut::Fault(m, RuntimeErr::BadSlot)
                }
            },
            InsnV::AllocNodeNew(b) => {
                if stack.len() == 0 {
                    MainOut::Fault(m, RuntimeErr::StackUnderflow)
                } else {
                    let v = stack[stack.len() - 1];
                    run_main(
                        code,
                        pc + 1,
                        stack.drop_last(),
                        MachV {
                            nodes: m.nodes.push(v),
                            last: m.last.push(v),
                            acts: m.acts.push(ActV::Body(b)),
                            outs: m.outs.push(false),
                            ins: m.ins.push(Value::Nil),
                            ..m
                        },
                    )
                }
            },
            InsnV::AllocNode(u, b) => {
                if stack.len() == 0 {
                    MainOut::Fault(m, RuntimeErr::StackUnderflow)
                } else if u < m.nodes.len() && u < m.acts.len() {
                    run_main(
                        code,
                        pc + 1,
                        stack.drop_last(),
                        MachV {
                            nodes: m.nodes.update(u as int, stack[stack.len() - 1]),
                            acts: m.acts.update(u as int, ActV::Body(b)),
                            ..m
                        },
                    )
                } else {
                    MainOut::Fault(m, RuntimeErr::BadSlot)
                }
            },
            InsnV::Exit => {
                if stack.len() == 0 {
                    MainOut::Fault(m, RuntimeErr::StackUnderflow)
                } else if stack.len() == 1 {
                    MainOut::Exited(m, stack[0])
                } else {
                    MainOut::Fault(m, RuntimeErr::ValueLeft)
                }
            },
            InsnV::Halt => {
                if stack.len() == 0 {
                    MainOut::Halted(m)
                } else {
                    MainOut::Fault(m, RuntimeErr::ValueLeft)
                }
            },
            _ => MainOut::Fault(m, RuntimeErr::Unsupported),
        }
    }
}

/// A conditional branch at program level.
pub open spec fn main_branch(
    code: Seq<InsnV>,
    pc: int,
    off: int,
    stack: Seq<Value>,
    m: MachV,
) -> MainOut
    decreases code.len() - pc, 0int,
{
    if pc < 0 || pc >= code.len() {
        MainOut::Fault(m, RuntimeErr::BadJump)
    } else if stack.len() == 0 {
        MainOut::Fault(m, RuntimeErr::StackUnderflow)
    } else {
        match stack[stack.len() - 1] {
            Value::Bool(b) => {
                let popped = stack.drop_last();
                if b {
                    match seek_target(code, pc + 1, off) {
                        Option::Some(t) => {
                            if pc < t <= code.len() {
                                run_main(code, t, popped, m)
                            } else {
                                MainOut::Fault(m, RuntimeErr::BadJump)
                            }
                        },
                        Option::None => MainOut::Fault(m, RuntimeErr::BadJump),
                    }
                } else {
                    run_main(code, pc + 1, popped, m)
                }
            },
            _ => MainOut::Fault(m, RuntimeErr::TypeMismatch),
        }
    }
}

/// An unconditional jump at program level.
pub open spec fn main_jump(
    code: Seq<InsnV>,
    pc: int,
    off: int,
    stack: Seq<Value>,
    m: MachV,
) -> MainOut
    decreases code.len() - pc, 0int,
{
    if pc < 0 || pc >= code.len() {
        MainOut::Fault(m, RuntimeErr::BadJump)
    } else {
        match seek_target(code, pc + 1, off) {
            Option::Some(t) => {
                if pc < t <= code.len() {
                    run_main(code, t, stack, m)
                } else {
                    MainOut::Fault(m, RuntimeErr::BadJump)
                }
            },
            Option::None => MainOut::Fault(m, RuntimeErr::BadJump),
        }
    }
}

/// An unconditional jump in straight-line code: skips `off` serialized
/// bytes forward.
pub open spec fn spec_jump(
    code: Seq<InsnV>,
    pc: int,
    off: int,
    stack: Seq<Value>,
    nodes: Seq<Value>,
    last: Seq<Value>,
) -> FlatOut
    decreases code.len() - pc, 0int,
{
    if pc < 0 || pc >= code.len() {
        FlatOut::Fault(RuntimeErr::BadJump)
    } else {
        match seek_target(code, pc + 1, off) {
            Option::Some(t) => {
                if pc < t <= code.len() {
                    run_flat(code, t, stack, nodes, last)
                } else {
                    FlatOut::Fault(RuntimeErr::BadJump)
                }
            },
            Option::None => FlatOut::Fault(RuntimeErr::BadJump),
        }
    }
}

/// Rebuilds an instruction, giving an owned value with the same shape.
pub(crate) fn copy_insn(i: &Insn) -> (r: Insn)
    ensures
        r.deep() == i.deep(),
    decreases *i,
{
    match i {
        Insn::Nop => Insn::Nop,
        Insn::Nil => Insn::Nil,
        Insn::Int(x) => Insn::Int(*x),
        Insn::Bool(b) => Insn::Bool(*b),
        Insn::Add => Insn::Add,
        Insn::Mul => Insn::Mul,
        Insn::Je8(x) => Insn::Je8(*x),
        Insn::Je32(x) => Insn::Je32(*x),
        Insn::J8(x) => Insn::J8(*x),
        Insn::J32(x) => Insn::J32(*x),
        Insn::GetLocal(u) => Insn::GetLocal(*u),
        Insn::SetLocal(u) => Insn::SetLocal(*u),
        Insn::Halt => Insn::Halt,
        Insn::AllocNode(u, b) => Insn::AllocNode(*u, copy_code(b)),
        Insn::AllocNodeNew(b) => Insn::AllocNodeNew(copy_code(b)),
        Insn::AllocFunc(u, b) => Insn::AllocFunc(*u, copy_code(b)),
        Insn::AllocFuncNew(b) => Insn::AllocFuncNew(copy_code(b)),
        Insn::AllocData(u, b) => Insn::AllocData(*u, copy_code(b)),
        Insn::AllocDataNew(b) => Insn::AllocDataNew(copy_code(b)),
        Insn::Return => Insn::Return,
        Insn::Call(u) => Insn::Call(*u),
        Insn::UpdateNode(u) => Insn::UpdateNode(*u),
        Insn::GetNode(u) => Insn::GetNode(*u),
        Insn::SetNode(u) => Insn::SetNode(*u),
        Insn::GetLast(u) => Insn::GetLast(*u),
        Insn::SaveLast => Insn::SaveLast,
        Insn::Exit => Insn::Exit,
        Insn::Placeholder => Insn::Placeholder,
    }
}

/// Rebuilds an instruction sequence, giving owned values of the same shape.
fn copy_code(v: &Vec<Insn>) -> (r: Vec<Insn>)
    ensures
        deep_code(r@) == deep_code(v@),
    decreases v@,
{
    let mut r: Vec<Insn> = Vec::new();
    let mut k: usize = 0;
    proof {
        lemma_deep_code_index(v@);
    }
    while k < v.len()
        invariant
            k <= v@.len(),
            deep_code(r@) =~= deep_code(v@.subrange(0, k as int)),
            forall|j: int| 0 <= j < v@.len() ==> #[trigger] deep_code(v@)[j] == v@[j].deep(),
            deep_code(v@).len() == v@.len(),
        decreases v@.len() - k,
    {
        proof {
            assert(v@.subrange(0, v@.len() as int)[k as int] == v@[k as int]);
        }
        let c = copy_insn(&v[k]);
        let ghost r0 = r@;
        r.push(c);
        proof {
            lemma_deep_code_index(r0);
            lemma_deep_code_index(r0.push(c));
            lemma_deep_code_index(v@.subrange(0, k as int));
            lemma_deep_code_index(v@.subrange(0, k + 1));
            assert(r@ =~= r0.push(c));
            assert forall|j: int| 0 <= j < k + 1 implies #[trigger] deep_code(r0.push(c))[j]
                == deep_code(v@.subrange(0, k + 1))[j] by {
                assert(v@.subrange(0, k + 1)[j] == v@[j]);
                if j < k {
                    assert(r0.push(c)[j] == r0[j]);
                    assert(deep_code(r0)[j] == deep_code(v@.subrange(0, k as int))[j]);
                    assert(v@.subrange(0, k as int)[j] == v@[j]);
                } else {
                    assert(r0.push(c)[j] == c);
                }
            }
            assert(deep_code(r@) =~= deep_code(v@.subrange(0, k + 1)));
        }
        k = k + 1;
    }
    proof {
        assert(v@.subrange(0, k as int) =~= v@);
    }
    r
}

/// Resolves a forward jump: the instruction index whose distance from
/// `start`, in serialized bytes, is exactly `off`.
fn find_jump_target(code: &Vec<Insn>, start: usize, off: i32) -> (r: Option<usize>)
    requires
        start <= code@.len(),
    ensures
        match r {
            Option::Some(t) => seek_target(deep_code(code@), start as int, off as int)
                == Option::Some(t as int) && start <= t <= code@.len(),
            Option::None => seek_target(deep_code(code@), start as int, off as int) is None,
        },
{
    let ghost dc = deep_code(code@);
    proof {
        lemma_deep_code_index(code@);
    }
    if off < 0 {
        return Option::None;
    }
    let mut rem: usize = off as usize;
    let mut t: usize = start;
    let n = code.len();
    while rem > 0
        invariant
            start <= t <= n == code@.len(),
            dc == deep_code(code@),
            dc.len() == code@.len(),
            forall|j: int| 0 <= j < code@.len() ==> #[trigger] dc[j] == code@[j].deep(),
            seek_target(dc, start as int, off as int) == seek_target(dc, t as int, rem as int),
        decreases rem,
    {
        if t >= n {
            return Option::None;
        }
        let l: usize = match &code[t] {
            Insn::Nop => 1,
            Insn::Nil => 1,
            Insn::Add => 1,
            Insn::Mul => 1,
            Insn::Halt => 1,
            Insn::Return => 1,
            Insn::SaveLast => 1,
            Insn::Exit => 1,
            Insn::Placeholder => 1,
            Insn::Je8(_) => 2,
            Insn::J8(_) => 2,
            Insn::Bool(_) => 2,
            Insn::Call(_) => 2,
            Insn::UpdateNode(_) => 2,
            Insn::GetNode(_) => 2,
            Insn::SetNode(_) => 2,
            Insn::GetLast(_) => 2,
            Insn::GetLocal(_) => 2,
            Insn::SetLocal(_) => 2,
            Insn::Int(_) => 5,
            Insn::Je32(_) => 5,
            Insn::J32(_) => 5,
            _ => {
                proof {
                    assert(!flat_insn(dc[t as int]));
                }
                return Option::None;
            },
        };
        proof {
            assert(flat_insn(dc[t as int]) && byte_len(dc[t as int]) == l);
        }
        if l > rem {
            proof {
                assert(seek_target(dc, t + 1, rem - l) is None);
            }
            return Option::None;
        }
        rem = rem - l;
        t = t + 1;
    }
    Option::Some(t)
}

/// Runs a node's stored update code: straight-line instructions ending in
/// `Return`, evaluated on a fresh stack against the given tables.
fn exec_flat(code: &Vec<Insn>, nodes: &Vec<Value>, last: &Vec<Value>) -> (r: Result<
    Value,
    RuntimeErr,
>)
    ensures
        match run_flat(deep_code(code@), 0, Seq::empty(), nodes@, last@) {
            FlatOut::Ret(v) => r == Ok::<Value, RuntimeErr>(v),
            FlatOut::Fault(e) => r == Err::<Value, RuntimeErr>(e),
            _ => r == Err::<Value, RuntimeErr>(RuntimeErr::Unsupported),
        },
{
    let ghost dc = deep_code(code@);
    proof {
        lemma_deep_code_index(code@);
    }
    let mut stack: Vec<Value> = Vec::new();
    let mut pc: usize = 0;
    let n = code.len();
    loop
        invariant
            pc <= n == code@.len(),
            dc == deep_code(code@),
            dc.len() == code@.len(),
            forall|j: int| 0 <= j < code@.len() ==> #[trigger] dc[j] == code@[j].deep(),
            run_flat(dc, 0, Seq::empty(), nodes@, last@) == run_flat(
                dc,
                pc as int,
                stack@,
                nodes@,
                last@,
            ),
        decreases n - pc,
    {
        if pc >= n {
            return Err(RuntimeErr::BadJump);
        }
        match &code[pc] {
            Insn::Nil => {
                stack.push(Value::Nil);
                pc = pc + 1;
            },
            Insn::Int(x) => {
                stack.push(Value::Int(*x));
                pc = pc + 1;
            },
            Insn::Bool(b) => {
                stack.push(Value::Bool(*b));
                pc = pc + 1;
            },
            Insn::Add => {
                let v1 = match stack.pop() {
                    Option::Some(v) => v,
                    Option::None => {
                        return Err(RuntimeErr::StackUnderflow);
                    },
                };
                let v2 = match stack.pop() {
                    Option::Some(v) => v,
                    Option::None => {
                        return Err(RuntimeErr::StackUnderflow);
                    },
                };
                match (v1, v2) {
                    (Value::Int(a), Value::Int(b)) => {
                        stack.push(Value::Int(a.wrapping_add(b)));
                        pc = pc + 1;
                    },
                    _ => {
                        return Err(RuntimeErr::TypeMismatch);
                    },
                }
            },
            Insn::Mul => {
                let v1 = match stack.pop() {
                    Option::Some(v) => v,
                    Option::None => {
                        return Err(RuntimeErr::StackUnderflow);
                    },
                };
                let v2 = match stack.pop() {
                    Option::Some(v) => v,
                    Option::None => {
                        return Err(RuntimeErr::StackUnderflow);
                    },
                };
                match (v1, v2) {
                    (Value::Int(a), Value::Int(b)) => {
                        stack.push(Value::Int(a.wrapping_mul(b)));
                        pc = pc + 1;
                    },
                    _ => {
                        return Err(RuntimeErr::TypeMismatch);
                    },
                }
            },
            Insn::Je8(o) => {
                let off = *o as i32;
                proof {
                    assert(dc[pc as int] == InsnV::Je8(*o));
                    assert(run_flat(dc, pc as int, stack@, nodes@, last@) == spec_branch(
                        dc,
                        pc as int,
                        *o as int,
                        stack@,
                        nodes@,
                        last@,
                    ));
                    assert(off as int == *o as int);
                }
                match stack.pop() {
                    Option::Some(Value::Bool(b)) => {
                        if b {
                            match find_jump_target(code, pc + 1, off) {
                                Option::Some(t) => {
                                    pc = t;
                                },
                                Option::None => {
                                    return Err(RuntimeErr::BadJump);
                                },
                            }
                        } else {
                            pc = pc + 1;
                        }
                    },
                    Option::Some(_) => {
                        return Err(RuntimeErr::TypeMismatch);
                    },
                    Option::None => {
                        return Err(RuntimeErr::StackUnderflow);
                    },
                }
            },
            Insn::Je32(o) => {
                let off = *o;
                proof {
                    assert(dc[pc as int] == InsnV::Je32(*o));
                    assert(run_flat(dc, pc as int, stack@, nodes@, last@) == spec_branch(
                        dc,
                        pc as int,
                        *o as int,
                        stack@,
                        nodes@,
                        last@,
                    ));
                }
                match stack.pop() {
                    Option::Some(Value::Bool(b)) => {
                        if b {
                            match find_jump_target(code, pc + 1, off) {
                                Option::Some(t) => {
                                    pc = t;
                                },
                                Option::None => {
                                    return Err(RuntimeErr::BadJump);
                                },
                            }
                        } else {
                            pc = pc + 1;
                        }
                    },
                    Option::Some(_) => {
                        return Err(RuntimeErr::TypeMismatch);
                    },
                    Option::None => {
                        return Err(RuntimeErr::StackUnderflow);
                    },
                }
            },
            Insn::J8(o) => {
                let off = *o as i32;
                proof {
                    assert(dc[pc as int] == InsnV::J8(*o));
                    assert(run_flat(dc, pc as int, stack@, nodes@, last@) == spec_jump(
                        dc,
                        pc as int,
                        *o as int,
                        stack@,
                        nodes@,
                        last@,
                    ));
                    assert(off as int == *o as int);
                }
                match find_jump_target(code, pc + 1, off) {
                    Option::Some(t) => {
                        pc = t;
                    },
                    Option::None => {
                        return Err(RuntimeErr::BadJump);
                    },
                }
            },
            Insn::J32(o) => {
                let off = *o;
                proof {
                    assert(dc[pc as int] == InsnV::J32(*o));
                    assert(run_flat(dc, pc as int, stack@, nodes@, last@) == spec_jump(
                        dc,
                        pc as int,
                        *o as int,
                        stack@,
                        nodes@,
                        last@,
                    ));
                }
                match find_jump_target(code, pc + 1, off) {
                    Option::Some(t) => {
                        pc = t;
                    },
                    Option::None => {
                        return Err(RuntimeErr::BadJump);
                    },
                }
            },
            Insn::GetLocal(u) => {
                if *u < stack.len() {
                    let v = stack[*u];
                    stack.push(v);
                    pc = pc + 1;
                } else {
                    return Err(RuntimeErr::BadSlot);
                }
            },
            Insn::SetLocal(u) => {
                let v = match stack.pop() {
                    Option::Some(v) => v,
                    Option::None => {
                        return Err(RuntimeErr::StackUnderflow);
                    },
                };
                if *u < stack.len() {
                    stack.set(*u, v);
                    pc = pc + 1;
                } else {
                    return Err(RuntimeErr::BadSlot);
                }
            },
            Insn::GetNode(u) => {
                if *u < nodes.len() {
                    let v = nodes[*u];
                    stack.push(v);
                    pc = pc + 1;
                } else {
                    return Err(RuntimeErr::BadSlot);
                }
            },
            Insn::GetLast(u) => {
                if *u < last.len() {
                    let v = last[*u];
                    stack.push(v);
                    pc = pc + 1;
                } else {
                    return Err(RuntimeErr::BadSlot);
                }
            },
            Insn::Return => {
                match stack.pop() {
                    Option::Some(v) => {
                        if stack.len() == 0 {
                            return Ok(v);
                        } else {
                            return Err(RuntimeErr::ValueLeft);
                        }
                    },
                    Option::None => {
                        return Err(RuntimeErr::StackUnderflow);
                    },
                }
            },
            Insn::Exit => {
                match stack.pop() {
                    Option::Some(_) => {
                        if stack.len() == 0 {
                            return Err(RuntimeErr::Unsupported);
                        } else {
                            return Err(RuntimeErr::ValueLeft);
                        }
                    },
                    Option::None => {
                        return Err(RuntimeErr::StackUnderflow);
                    },
                }
            },
            Insn::Halt => {
                if stack.len() == 0 {
                    return Err(RuntimeErr::Unsupported);
                } else {
                    return Err(RuntimeErr::ValueLeft);
                }
            },
            _ => {
                return Err(RuntimeErr::Unsupported);
            },
        }
    }
}

/// The stored update code of a counter node: its own previous-tick value,
/// plus one. This is what the compiler emits for an update formula that
/// adds one to the node's own last value.
pub open spec fn counter_body() -> Seq<InsnV> {
    seq![InsnV::GetLast(0), InsnV::Int(1), InsnV::Add, InsnV::Return]
}

/// A machine holding one counter node with value `k`.
pub open spec fn counter_mach(m: MachV, k: i32) -> bool {
    &&& m.nodes =~= seq![Value::Int(k)]
    &&& m.last.len() == 1
    &&& m.acts =~= seq![ActV::Body(counter_body())]
}

/// One tick of a counter node adds one: from value `k`, the update program
/// over its single slot halts with the node holding `k + 1`, and the
/// previous-tick table holding the old `k`.
#[verifier::rlimit(100)]
pub proof fn lemma_counter_tick(m: MachV, k: i32)
    requires
        counter_mach(m, k),
        k < i32::MAX,
    ensures
        match run_main(crate::compile::upd_program(1), 0, Seq::empty(), m) {
            MainOut::Halted(m2) => counter_mach(m2, (k + 1) as i32) && m2.last =~= seq![
                Value::Int(k),
            ] && m2.outs == m.outs && m2.ins == m.ins,
            _ => false,
        },
{
    let prog = crate::compile::upd_program(1);
    assert(crate::compile::upd_pairs(1) =~= seq![InsnV::UpdateNode(0), InsnV::SetNode(0)]) by {
        assert(crate::compile::upd_pairs(0) =~= Seq::<InsnV>::empty());
    }
    assert(prog =~= seq![InsnV::SaveLast, InsnV::UpdateNode(0), InsnV::SetNode(0), InsnV::Halt]);
    let m1 = MachV { nodes: m.last, last: m.nodes, ..m };
    assert(run_main(prog, 0, Seq::empty(), m) == run_main(prog, 1, Seq::empty(), m1));
    // The single node's stored code runs on a fresh stack against the
    // swapped tables and returns the old value plus one.
    let b = counter_body();
    let s1 = Seq::<Value>::empty().push(Value::Int(k));
    let s2 = s1.push(Value::Int(1));
    assert(run_flat(b, 0, Seq::empty(), m1.nodes, m1.last) == run_flat(b, 1, s1, m1.nodes, m1.last));
    assert(run_flat(b, 1, s1, m1.nodes, m1.last) == run_flat(b, 2, s2, m1.nodes, m1.last));
    let s3 = s2.drop_last().drop_last().push(Value::Int(wrap_add(1, k)));
    assert(run_flat(b, 2, s2, m1.nodes, m1.last) == run_flat(b, 3, s3, m1.nodes, m1.last));
    assert(s3.len() == 1 && s3[0] == Value::Int(wrap_add(1, k)));
    assert(run_flat(b, 3, s3, m1.nodes, m1.last) == FlatOut::Ret(Value::Int(wrap_add(1, k))));
    assert(wrap_add(1, k) == k + 1);
    let st1 = Seq::<Value>::empty().push(Value::Int((k + 1) as i32));
    assert(run_main(prog, 1, Seq::empty(), m1) == run_main(prog, 2, st1, m1));
    let m2 = MachV { nodes: m1.nodes.update(0, Value::Int((k + 1) as i32)), ..m1 };
    assert(run_main(prog, 2, st1, m1) == run_main(prog, 3, st1.drop_last(), m2));
    assert(st1.drop_last().len() == 0);
    assert(run_main(prog, 3, st1.drop_last(), m2) == MainOut::Halted(m2));
    assert(m2.nodes =~= seq![Value::Int((k + 1) as i32)]);
    assert(m2.last =~= seq![Value::Int(k)]);
}

/// The machine state after `n` ticks, where every tick halts.
pub open spec fn run_ticks(upd: Seq<InsnV>, m: MachV, n: nat) -> Option<MachV>
    decreases n,
{
    if n == 0 {
        Option::Some(m)
    } else {
        match run_main(upd, 0, Seq::empty(), m) {
            MainOut::Halted(m2) => run_ticks(upd, m2, (n - 1) as nat),
            _ => Option::None,
        }
    }
}

/// A counter node counts the ticks: from value `k`, after `j` ticks of its
/// update program it holds `k + j`, every tick halting cleanly.
pub proof fn lemma_counter_counts(m: MachV, k: i32, j: nat)
    requires
        counter_mach(m, k),
        k + j <= i32::MAX,
    ensures
        match run_ticks(crate::compile::upd_program(1), m, j) {
            Option::Some(m2) => counter_mach(m2, (k + j) as i32),
            Option::None => false,
        },
    decreases j,
{
    if j > 0 {
        lemma_counter_tick(m, k);
        match run_main(crate::compile::upd_program(1), 0, Seq::empty(), m) {
            MainOut::Halted(m2) => {
                lemma_counter_counts(m2, (k + 1) as i32, (j - 1) as nat);
            },
            _ => {},
        }
    }
}

/// Appending an action appends its shape.
proof fn lemma_deep_acts_push(s: Seq<InputAction>, a: InputAction)
    ensures
        deep_acts(s.push(a)) =~= deep_acts(s) + seq![a.deep()],
{
    lemma_deep_acts_index(s);
    lemma_deep_acts_index(s.push(a));
    assert forall|j: int| 0 <= j < s.len() + 1 implies #[trigger] deep_acts(s.push(a))[j] == (
    deep_acts(s) + seq![a.deep()])[j] by {
        if j < s.len() {
            assert(s.push(a)[j] == s[j]);
        } else {
            assert(s.push(a)[j] == a);
        }
    }
}

/// Replacing an action replaces its shape.
proof fn lemma_deep_acts_update(s: Seq<InputAction>, k: int, a: InputAction)
    requires
        0 <= k < s.len(),
    ensures
        deep_acts(s.update(k, a)) =~= deep_acts(s).update(k, a.deep()),
{
    lemma_deep_acts_index(s);
    lemma_deep_acts_index(s.update(k, a));
    assert forall|j: int| 0 <= j < s.len() implies #[trigger] deep_acts(s.update(k, a))[j]
        == deep_acts(s).update(k, a.deep())[j] by {
        if j != k {
            assert(s.update(k, a)[j] == s[j]);
        } else {
            assert(s.update(k, a)[j] == a);
        }
    }
}

/// The machine: node tables, per-slot behaviour, and the installed update
/// program. The view [`MachV`] abstracts everything but the update program,
/// which contracts name through `deep_code(self.update@)`.
pub struct Machine {
    /// Node values as of this tick, indexed by slot.
    pub node_v: Vec<Value>,
    /// Node values as of the previous tick.
    pub node_v_last: Vec<Value>,
    /// Per-slot update behaviour.
    pub node_input_action: Vec<InputAction>,
    /// Which slots are output nodes, whose values the host forwards after a
    /// tick.
    pub node_output: Vec<bool>,
    /// The externally supplied value of each input slot.
    pub node_input_v: Vec<Value>,
    /// The update program run once per tick.
    pub update: Vec<Insn>,
}

impl View for Machine {
    type V = MachV;

    open spec fn view(&self) -> MachV {
        MachV {
            nodes: self.node_v@,
            last: self.node_v_last@,
            acts: deep_acts(self.node_input_action@),
            outs: self.node_output@,
            ins: self.node_input_v@,
        }
    }
}

/// Runs a whole program against the machine state held in the given tables.
/// The borrows are split so that the update program itself can be one of the
/// caller's fields.
fn exec_code(
    code: &Vec<Insn>,
    node_v: &mut Vec<Value>,
    node_v_last: &mut Vec<Value>,
    node_input_action: &mut Vec<InputAction>,
    node_output: &mut Vec<bool>,
    node_input_v: &mut Vec<Value>,
) -> (r: Result<Value, RuntimeErr>)
    ensures
        ({
            let m0 = MachV {
                nodes: old(node_v)@,
                last: old(node_v_last)@,
                acts: deep_acts(old(node_input_action)@),
                outs: old(node_output)@,
                ins: old(node_input_v)@,
            };
            let m1 = MachV {
                nodes: final(node_v)@,
                last: final(node_v_last)@,
                acts: deep_acts(final(node_input_action)@),
                outs: final(node_output)@,
                ins: final(node_input_v)@,
            };
            match run_main(deep_code(code@), 0, Seq::empty(), m0) {
                MainOut::Halted(m2) => m1 == m2 && r == Ok::<Value, RuntimeErr>(Value::Nil),
                MainOut::Exited(m2, v) => m1 == m2 && r == Ok::<Value, RuntimeErr>(v),
                MainOut::Fault(m2, e) => m1 == m2 && r == Err::<Value, RuntimeErr>(e),
            }
        }),
{
    let ghost dc = deep_code(code@);
    let ghost m0 = MachV {
        nodes: node_v@,
        last: node_v_last@,
        acts: deep_acts(node_input_action@),
        outs: node_output@,
        ins: node_input_v@,
    };
    proof {
        lemma_deep_code_index(code@);
    }
    let mut stack: Vec<Value> = Vec::new();
    let mut pc: usize = 0;
    let n = code.len();
    loop
        invariant
            pc <= n == code@.len(),
            dc == deep_code(code@),
            dc.len() == code@.len(),
            forall|j: int| 0 <= j < code@.len() ==> #[trigger] dc[j] == code@[j].deep(),
            m0 == (MachV {
                nodes: old(node_v)@,
                last: old(node_v_last)@,
                acts: deep_acts(old(node_input_action)@),
                outs: old(node_output)@,
                ins: old(node_input_v)@,
            }),
            run_main(dc, 0, Seq::empty(), m0) == run_main(
                dc,
                pc as int,
                stack@,
                MachV {
                    nodes: node_v@,
                    last: node_v_last@,
                    acts: deep_acts(node_input_action@),
                    outs: node_output@,
                    ins: node_input_v@,
                },
            ),
        decreases n - pc,
    {
        let ghost mc = MachV {
            nodes: node_v@,
            last: node_v_last@,
            acts: deep_acts(node_input_action@),
            outs: node_output@,
            ins: node_input_v@,
        };
        if pc >= n {
            return Err(RuntimeErr::BadJump);
        }
        match &code[pc] {
            Insn::Nil => {
                stack.push(Value::Nil);
                pc = pc + 1;
            },
            Insn::Int(x) => {
                stack.push(Value::Int(*x));
                pc = pc + 1;
            },
            Insn::Bool(b) => {
                stack.push(Value::Bool(*b));
                pc = pc + 1;
            },
            Insn::Add => {
                let v1 = match stack.pop() {
                    Option::Some(v) => v,
                    Option::None => {
                        return Err(RuntimeErr::StackUnderflow);
                    },
                };
                let v2 = match stack.pop() {
                    Option::Some(v) => v,
                    Option::None => {
                        return Err(RuntimeErr::StackUnderflow);
                    },
                };
                match (v1, v2) {
                    (Value::Int(a), Value::Int(b)) => {
                        stack.push(Value::Int(a.wrapping_add(b)));
                        pc = pc + 1;
                    },
                    _ => {
                        return Err(RuntimeErr::TypeMismatch);
                    },
                }
            },
            Insn::Mul => {
                let v1 = match stack.pop() {
                    Option::Some(v) => v,
                    Option::None => {
                        return Err(RuntimeErr::StackUnderflow);
                    },
                };
                let v2 = match stack.pop() {
                    Option::Some(v) => v,
                    Option::None => {
                        return Err(RuntimeErr::StackUnderflow);
                    },
                };
                match (v1, v2) {
                    (Value::Int(a), Value::Int(b)) => {
                        stack.push(Value::Int(a.wrapping_mul(b)));
                        pc = pc + 1;
                    },
                    _ => {
                        return Err(RuntimeErr::TypeMismatch);
                    },
                }
            },
            Insn::Je8(o) => {
                let off = *o as i32;
                proof {
                    assert(run_main(dc, pc as int, stack@, mc) == main_branch(
                        dc,
                        pc as int,
                        *o as int,
                        stack@,
                        mc,
                    ));
                    assert(off as int == *o as int);
                }
                match stack.pop() {
                    Option::Some(Value::Bool(b)) => {
                        if b {
                            match find_jump_target(code, pc + 1, off) {
                                Option::Some(t) => {
                                    pc = t;
                                },
                                Option::None => {
                                    return Err(RuntimeErr::BadJump);
                                },
                            }
                        } else {
                            pc = pc + 1;
                        }
                    },
                    Option::Some(_) => {
                        return Err(RuntimeErr::TypeMismatch);
                    },
                    Option::None => {
                        return Err(RuntimeErr::StackUnderflow);
                    },
                }
            },
            Insn::Je32(o) => {
                let off = *o;
                proof {
                    assert(run_main(dc, pc as int, stack@, mc) == main_branch(
                        dc,
                        pc as int,
                        *o as int,
                        stack@,
                        mc,
                    ));
                }
                match stack.pop() {
                    Option::Some(Value::Bool(b)) => {
                        if b {
                            match find_jump_target(code, pc + 1, off) {
                                Option::Some(t) => {
                                    pc = t;
                                },
                                Option::None => {
                                    return Err(RuntimeErr::BadJump);
                                },
                            }
                        } else {
                            pc = pc + 1;
                        }
                    },
                    Option::Some(_) => {
                        return Err(RuntimeErr::TypeMismatch);
                    },
                    Option::None => {
                        return Err(RuntimeErr::StackUnderflow);
                    },
                }
            },
            Insn::J8(o) => {
                let off = *o as i32;
                proof {
                    assert(run_main(dc, pc as int, stack@, mc) == main_jump(
                        dc,
                        pc as int,
                        *o as int,
                        stack@,
                        mc,
                    ));
                    assert(off as int == *o as int);
                }
                match find_jump_target(code, pc + 1, off) {
                    Option::Some(t) => {
                        pc = t;
                    },
                    Option::None => {
                        return Err(RuntimeErr::BadJump);
                    },
                }
            },
            Insn::J32(o) => {
                let off = *o;
                proof {
                    assert(run_main(dc, pc as int, stack@, mc) == main_jump(
                        dc,
                        pc as int,
                        *o as int,
                        stack@,
                        mc,
                    ));
                }
                match find_jump_target(code, pc + 1, off) {
                    Option::Some(t) => {
                        pc = t;
                    },
                    Option::None => {
                        return Err(RuntimeErr::BadJump);
                    },
                }
            },
            Insn::GetLocal(u) => {
                if *u < stack.len() {
                    let v = stack[*u];
                    stack.push(v);
                    pc = pc + 1;
                } else {
                    return Err(RuntimeErr::BadSlot);
                }
            },
            Insn::SetLocal(u) => {
                let v = match stack.pop() {
                    Option::Some(v) => v,
                    Option::None => {
                        return Err(RuntimeErr::StackUnderflow);
                    },
                };
                if *u < stack.len() {
                    stack.set(*u, v);
                    pc = pc + 1;
                } else {
                    return Err(RuntimeErr::BadSlot);
                }
            },
            Insn::GetNode(u) => {
                if *u < node_v.len() {
                    let v = node_v[*u];
                    stack.push(v);
                    pc = pc + 1;
                } else {
                    return Err(RuntimeErr::BadSlot);
                }
            },
            Insn::GetLast(u) => {
                if *u < node_v_last.len() {
                    let v = node_v_last[*u];
                    stack.push(v);
                    pc = pc + 1;
                } else {
                    return Err(RuntimeErr::BadSlot);
                }
            },
            Insn::SaveLast => {
                core::mem::swap(node_v, node_v_last);
                pc = pc + 1;
            },
            Insn::UpdateNode(u) => {
                let u = *u;
                proof {
                    lemma_deep_acts_index(node_input_action@);
                }
                if u >= node_input_action.len() {
                    return Err(RuntimeErr::BadSlot);
                }
                match &node_input_action[u] {
                    InputAction::Device => {
                        if u < node_input_v.len() {
                            let v = node_input_v[u];
                            stack.push(v);
                            pc = pc + 1;
                        } else {
                            return Err(RuntimeErr::BadSlot);
                        }
                    },
                    InputAction::Body(b) => {
                        proof {
                            assert(mc.acts[u as int] == ActV::Body(deep_code(b@)));
                        }
                        match exec_flat(b, node_v, node_v_last) {
                            Ok(v) => {
                                stack.push(v);
                                pc = pc + 1;
                            },
                            Err(e) => {
                                return Err(e);
                            },
                        }
                    },
                    InputAction::Absent => {
                        stack.push(Value::Nil);
                        pc = pc + 1;
                    },
                }
            },
            Insn::SetNode(u) => {
                let v = match stack.pop() {
                    Option::Some(v) => v,
                    Option::None => {
                        return Err(RuntimeErr::StackUnderflow);
                    },
                };
                if *u < node_v.len() {
                    node_v.set(*u, v);
                    pc = pc + 1;
                } else {
                    return Err(RuntimeErr::BadSlot);
                }
            },
            Insn::AllocNodeNew(b) => {
                let v = match stack.pop() {
                    Option::Some(v) => v,
                    Option::None => {
                        return Err(RuntimeErr::StackUnderflow);
                    },
                };
                let body = copy_code(b);
                proof {
                    lemma_deep_acts_push(node_input_action@, InputAction::Body(body));
                }
                node_v.push(v);
                node_v_last.push(v);
                node_input_action.push(InputAction::Body(body));
                node_output.push(false);
                node_input_v.push(Value::Nil);
                pc = pc + 1;
                proof {
                    assert(deep_acts(node_input_action@) =~= mc.acts.push(
                        ActV::Body(deep_code(b@)),
                    ));
                }
            },
            Insn::AllocNode(u, b) => {
                let v = match stack.pop() {
                    Option::Some(v) => v,
                    Option::None => {
                        return Err(RuntimeErr::StackUnderflow);
                    },
                };
                proof {
                    lemma_deep_acts_index(node_input_action@);
                }
                if *u < node_v.len() && *u < node_input_action.len() {
                    let body = copy_code(b);
                    proof {
                        lemma_deep_acts_update(
                            node_input_action@,
                            *u as int,
                            InputAction::Body(body),
                        );
                    }
                    node_v.set(*u, v);
                    node_input_action.set(*u, InputAction::Body(body));
                    pc = pc + 1;
                    proof {
                        assert(deep_acts(node_input_action@) =~= mc.acts.update(
                            *u as int,
                            ActV::Body(deep_code(b@)),
                        ));
                    }
                } else {
                    return Err(RuntimeErr::BadSlot);
                }
            },
            Insn::Exit => {
                match stack.pop() {
                    Option::Some(v) => {
                        if stack.len() == 0 {
                            return Ok(v);
                        } else {
                            return Err(RuntimeErr::ValueLeft);
                        }
                    },
                    Option::None => {
                        return Err(RuntimeErr::StackUnderflow);
                    },
                }
            },
            Insn::Halt => {
                if stack.len() == 0 {
                    return Ok(Value::Nil);
                } else {
                    return Err(RuntimeErr::ValueLeft);
                }
            },
            _ => {
                return Err(RuntimeErr::Unsupported);
            },
        }
    }
}

/// A compiled program as handed to the machine: a definitions program with
/// its one-shot initialization section and cyclic update section, or a
/// single-expression program.
pub enum Code {
    DefNode { init: Vec<Insn>, upd: Vec<Insn> },
    Exp(Vec<Insn>),
}

impl Machine {
    /// A machine with no nodes and no program.
    pub fn new() -> (m: Machine)
        ensures
            m@.nodes == Seq::<Value>::empty(),
            m@.last == Seq::<Value>::empty(),
            m@.acts == Seq::<ActV>::empty(),
            m@.outs == Seq::<bool>::empty(),
            m@.ins == Seq::<Value>::empty(),
            m.update@ == Seq::<Insn>::empty(),
    {
        let m = Machine {
            node_v: Vec::new(),
            node_v_last: Vec::new(),
            node_input_action: Vec::new(),
            node_output: Vec::new(),
            node_input_v: Vec::new(),
            update: Vec::new(),
        };
        proof {
            assert(deep_acts(m.node_input_action@) =~= Seq::<ActV>::empty());
        }
        m
    }

    /// Appends one empty slot: absent value, no behaviour, not an output.
    pub fn make_empty_node(&mut self)
        ensures
            final(self)@.nodes == old(self)@.nodes.push(Value::Nil),
            final(self)@.last == old(self)@.last.push(Value::Nil),
            final(self)@.acts == old(self)@.acts.push(ActV::Absent),
            final(self)@.outs == old(self)@.outs.push(false),
            final(self)@.ins == old(self)@.ins.push(Value::Nil),
            final(self).update@ == old(self).update@,
    {
        proof {
            lemma_deep_acts_push(self.node_input_action@, InputAction::Absent);
        }
        self.node_v.push(Value::Nil);
        self.node_v_last.push(Value::Nil);
        self.node_input_action.push(InputAction::Absent);
        self.node_output.push(false);
        self.node_input_v.push(Value::Nil);
    }

    /// Runs a whole program against this machine's tables. The result value
    /// is what the program produced: the value of an `Exit`, or the absent
    /// value for a program that ended in `Halt`.
    pub fn exec_insn(&mut self, code: &Vec<Insn>) -> (r: Result<Value, RuntimeErr>)
        ensures
            match run_main(deep_code(code@), 0, Seq::empty(), old(self)@) {
                MainOut::Halted(m2) => final(self)@ == m2 && r == Ok::<Value, RuntimeErr>(
                    Value::Nil,
                ),
                MainOut::Exited(m2, v) => final(self)@ == m2 && r == Ok::<Value, RuntimeErr>(v),
                MainOut::Fault(m2, e) => final(self)@ == m2 && r == Err::<Value, RuntimeErr>(e),
            },
            final(self).update@ == old(self).update@,
    {
        exec_code(
            code,
            &mut self.node_v,
            &mut self.node_v_last,
            &mut self.node_input_action,
            &mut self.node_output,
            &mut self.node_input_v,
        )
    }

    /// One tick: one pass of the installed update program.
    pub fn exec_upd(&mut self) -> (r: Result<(), RuntimeErr>)
        ensures
            match run_main(deep_code(old(self).update@), 0, Seq::empty(), old(self)@) {
                MainOut::Halted(m2) => final(self)@ == m2 && r == Ok::<(), RuntimeErr>(()),
                MainOut::Exited(m2, _) => final(self)@ == m2 && r == Ok::<(), RuntimeErr>(()),
                MainOut::Fault(m2, e) => final(self)@ == m2 && r == Err::<(), RuntimeErr>(e),
            },
            final(self).update@ == old(self).update@,
    {
        let r = exec_code(
            &self.update,
            &mut self.node_v,
            &mut self.node_v_last,
            &mut self.node_input_action,
            &mut self.node_output,
            &mut self.node_input_v,
        );
        match r {
            Ok(_) => Ok(()),
            Err(e) => Err(e),
        }
    }

    /// Installs a newly compiled program. A definitions program first resets
    /// the node tables wholesale, then runs its initialization section once
    /// (which rebuilds every slot), and only on success replaces the update
    /// section, so that the next tick runs the new update code and no part of
    /// the old program survives beside it. A single-expression program runs
    /// to its value and leaves the update program alone.
    pub fn new_code(&mut self, code: Code) -> (r: Result<Value, RuntimeErr>)
        ensures
            match code {
                Code::DefNode { init, upd } => {
                    let cleared = MachV {
                        nodes: Seq::empty(),
                        last: Seq::empty(),
                        acts: Seq::empty(),
                        outs: Seq::empty(),
                        ins: Seq::empty(),
                    };
                    match run_main(deep_code(init@), 0, Seq::empty(), cleared) {
                        MainOut::Halted(m2) => final(self)@ == m2 && final(self).update@ == upd@
                            && r == Ok::<Value, RuntimeErr>(Value::Nil),
                        MainOut::Exited(m2, v) => final(self)@ == m2 && final(self).update@ == upd@
                            && r == Ok::<Value, RuntimeErr>(v),
                        MainOut::Fault(m2, e) => final(self)@ == m2 && final(self).update@ == old(self).update@ && r == Err::<Value, RuntimeErr>(e),
                    }
                },
                Code::Exp(e) => match run_main(deep_code(e@), 0, Seq::empty(), old(self)@) {
                    MainOut::Halted(m2) => final(self)@ == m2 && final(self).update@ == old(self).update@ && r == Ok::<Value, RuntimeErr>(Value::Nil),
                    MainOut::Exited(m2, v) => final(self)@ == m2 && final(self).update@ == old(self).update@ && r == Ok::<Value, RuntimeErr>(v),
                    MainOut::Fault(m2, e2) => final(self)@ == m2 && final(self).update@ == old(self).update@ && r == Err::<Value, RuntimeErr>(e2),
                },
            },
    {
        match code {
            Code::DefNode { init, upd } => {
                self.node_v.clear();
                self.node_v_last.clear();
                self.node_input_action.clear();
                self.node_output.clear();
                self.node_input_v.clear();
                proof {
                    assert(deep_acts(self.node_input_action@) =~= Seq::<ActV>::empty());
                }
                let r = self.exec_insn(&init);
                match r {
                    Ok(v) => {
                        self.update = upd;
                        Ok(v)
                    },
                    Err(e) => Err(e),
                }
            },
            Code::Exp(e) => self.exec_insn(&e),
        }
    }

    /// Marks a slot as an input node: each tick reads its value from the
    /// machine's input table, where the host stores what the device
    /// delivered. Appends the slot's update pair to the update program, for
    /// input nodes that stand outside the compiled program.
    pub fn add_input_node(&mut self, ind: RuntimeNodeIndex)
        requires
            ind.0 < old(self)@.acts.len(),
        ensures
            final(self)@ == (MachV {
                acts: old(self)@.acts.update(ind.0 as int, ActV::Device),
                ..old(self)@
            }),
            final(self).update@ == old(self).update@ + seq![
                Insn::UpdateNode(ind.0),
                Insn::SetNode(ind.0),
            ],
    {
        let i = ind.i();
        proof {
            lemma_deep_acts_index(self.node_input_action@);
            lemma_deep_acts_update(self.node_input_action@, i as int, InputAction::Device);
        }
        self.node_input_action.set(i, InputAction::Device);
        self.update.push(Insn::UpdateNode(i));
        self.update.push(Insn::SetNode(i));
        proof {
            assert(self.update@ =~= old(self).update@ + seq![
                Insn::UpdateNode(ind.0),
                Insn::SetNode(ind.0),
            ]);
            assert(self@ =~= (MachV {
                acts: old(self)@.acts.update(ind.0 as int, ActV::Device),
                ..old(self)@
            }));
        }
    }

    /// Marks a slot as an output node: after each tick the host forwards its
    /// value to the device. Appends the slot's update pair to the update
    /// program, for output nodes that stand outside the compiled program.
    pub fn add_output_node(&mut self, ind: RuntimeNodeIndex)
        requires
            ind.0 < old(self)@.outs.len(),
        ensures
            final(self)@ == (MachV {
                outs: old(self)@.outs.update(ind.0 as int, true),
                ..old(self)@
            }),
            final(self).update@ == old(self).update@ + seq![
                Insn::UpdateNode(ind.0),
                Insn::SetNode(ind.0),
            ],
    {
        let i = ind.i();
        self.node_output.set(i, true);
        self.update.push(Insn::UpdateNode(i));
        self.update.push(Insn::SetNode(i));
        proof {
            assert(self.update@ =~= old(self).update@ + seq![
                Insn::UpdateNode(ind.0),
                Insn::SetNode(ind.0),
            ]);
            assert(self@ =~= (MachV {
                outs: old(self)@.outs.update(ind.0 as int, true),
                ..old(self)@
            }));
        }
    }

    /// Stores the value an input device delivered for a slot; the next tick's
    /// read of that input node yields it.
    pub fn set_input(&mut self, slot: usize, v: Value) -> (r: bool)
        ensures
            r == (slot < old(self)@.ins.len()),
            r ==> final(self)@ == (MachV {
                ins: old(self)@.ins.update(slot as int, v),
                ..old(self)@
            }),
            !r ==> final(self)@ == old(self)@,
            final(self).update@ == old(self).update@,
    {
        if slot < self.node_input_v.len() {
            self.node_input_v.set(slot, v);
            proof {
                assert(self@ =~= (MachV {
                    ins: old(self)@.ins.update(slot as int, v),
                    ..old(self)@
                }));
            }
            true
        } else {
            false
        }
    }

    /// The current value of a slot, if it exists.
    pub fn node_value(&self, slot: usize) -> (r: Option<Value>)
        ensures
            r == if slot < self@.nodes.len() {
                Option::Some(self@.nodes[slot as int])
            } else {
                Option::None::<Value>
            },
    {
        if slot < self.node_v.len() {
            Option::Some(self.node_v[slot])
        } else {
            Option::None
        }
    }

    /// Whether a slot is marked as an output node.
    pub fn is_output_node(&self, slot: usize) -> (r: bool)
        ensures
            r == (slot < self@.outs.len() && self@.outs[slot as int]),
    {
        slot < self.node_output.len() && self.node_output[slot]
    }

    /// The number of node slots.
    pub fn node_count(&self) -> (r: usize)
        ensures
            r == self@.nodes.len(),
    {
        self.node_v.len()
    }
}

/// The single-slot mailbox through which a producer hands a newly compiled
/// program to the running machine. The host wraps it in its lock; the
/// methods here are the indivisible units that must happen under that lock:
/// testing and setting the dirty flag together with the content is one
/// step, so a submission can never be half taken.
pub struct Msg {
    /// The pending program, if one has been submitted and not yet drained.
    pub code: Option<Code>,
    /// Whether `code` holds a submission the machine has not yet taken.
    pub code_is_updated: bool,
}

impl Msg {
    /// An empty mailbox.
    pub fn new() -> (m: Msg)
        ensures
            m.code is None,
            !m.code_is_updated,
    {
        Msg { code: Option::None, code_is_updated: false }
    }

    /// Submits a program. If the previous submission has not been drained
    /// yet, nothing changes and the program comes back to the caller, who
    /// retries; otherwise the mailbox now holds it and is marked dirty.
    pub fn send_code(&mut self, code: Code) -> (r: Option<Code>)
        ensures
            old(self).code_is_updated ==> r == Option::Some(code) && *final(self) == *old(self),
            !old(self).code_is_updated ==> r is None && final(self).code_is_updated && final(
                self).code == Option::Some(code),
    {
        if self.code_is_updated {
            Option::Some(code)
        } else {
            self.code_is_updated = true;
            self.code = Option::Some(code);
            Option::None
        }
    }

    /// Drains the mailbox: yields the pending submission, if any, and marks
    /// the mailbox clean.
    pub fn try_receive_code(&mut self) -> (r: Option<Code>)
        ensures
            old(self).code_is_updated ==> r == old(self).code && !final(self).code_is_updated
                && final(self).code is None,
            !old(self).code_is_updated ==> r is None && *final(self) == *old(self),
    {
        if self.code_is_updated {
            self.code_is_updated = false;
            let mut c: Option<Code> = Option::None;
            core::mem::swap(&mut self.code, &mut c);
            c
        } else {
            Option::None
        }
    }
}

} // verus!

