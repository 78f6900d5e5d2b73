//! The instruction set of the stack machine, and its serialized byte form.
//!
//! Instructions address node slots by integer index. Jump instructions carry
//! the byte length of the region they skip, in the narrowest of two widths:
//! an 8-bit offset when it fits in a signed byte, else a 32-bit offset. The
//! serialized form is one opcode byte followed by a fixed-size little-endian
//! immediate (none, one byte, or four bytes); block-structured allocation
//! instructions carry a 4-byte little-endian byte-length prefix before their
//! nested instruction stream, so a reader can skip the block without decoding
//! it.
//!
//! Specifications are stated over [`InsnV`], the mathematical mirror of
//! [`Insn`] in which nested instruction blocks are sequences; [`Insn::deep`]
//! maps one to the other.

use vstd::prelude::*;

verus! {

pub type NArgs = usize;

pub type NodeOffset = usize;

pub type StackOffset = usize;

pub type FuncOffset = usize;

pub type DataOffset = usize;

#[derive(Debug, PartialEq, Eq)]
pub enum Insn {
    Nop,
    Nil,
    Int(i32),
    Bool(bool),
    Add,
    Mul,
    Je8(i8),
    Je32(i32),
    J8(i8),
    J32(i32),
    GetLocal(StackOffset),
    SetLocal(StackOffset),
    /// Ends a program without producing a value.
    Halt,
    AllocNode(NodeOffset, Vec<Insn>),
    AllocNodeNew(Vec<Insn>),
    AllocFunc(FuncOffset, Vec<Insn>),
    AllocFuncNew(Vec<Insn>),
    AllocData(DataOffset, Vec<Insn>),
    AllocDataNew(Vec<Insn>),
    Return,
    Call(NArgs),
    UpdateNode(NodeOffset),
    GetNode(NodeOffset),
    SetNode(NodeOffset),
    GetLast(NodeOffset),
    /// Swaps the current and previous-tick node tables wholesale.
    SaveLast,
    /// Ends a program producing the single value left on the stack.
    Exit,
    Placeholder,
}

/// The mathematical shape of an instruction: as [`Insn`], but with nested
/// blocks as sequences, so that specifications can build and take apart
/// instruction streams.
pub enum InsnV {
    Nop,
    Nil,
    Int(i32),
    Bool(bool),
    Add,
    Mul,
    Je8(i8),
    Je32(i32),
    J8(i8),
    J32(i32),
    GetLocal(StackOffset),
    SetLocal(StackOffset),
    Halt,
    AllocNode(NodeOffset, Seq<InsnV>),
    AllocNodeNew(Seq<InsnV>),
    AllocFunc(FuncOffset, Seq<InsnV>),
    AllocFuncNew(Seq<InsnV>),
    AllocData(DataOffset, Seq<InsnV>),
    AllocDataNew(Seq<InsnV>),
    Return,
    Call(NArgs),
    UpdateNode(NodeOffset),
    GetNode(NodeOffset),
    SetNode(NodeOffset),
    GetLast(NodeOffset),
    SaveLast,
    Exit,
    Placeholder,
}

impl Insn {
    /// The mathematical shape of this instruction.
    pub open spec fn deep(self) -> InsnV
        decreases self,
    {
        match self {
            Insn::Nop => InsnV::Nop,
            Insn::Nil => InsnV::Nil,
            Insn::Int(x) => InsnV::Int(x),
            Insn::Bool(b) => InsnV::Bool(b),
            Insn::Add => InsnV::Add,
            Insn::Mul => InsnV::Mul,
            Insn::Je8(x) => InsnV::Je8(x),
            Insn::Je32(x) => InsnV::Je32(x),
            Insn::J8(x) => InsnV::J8(x),
            Insn::J32(x) => InsnV::J32(x),
            Insn::GetLocal(u) => InsnV::GetLocal(u),
            Insn::SetLocal(u) => InsnV::SetLocal(u),
            Insn::Halt => InsnV::Halt,
            Insn::AllocNode(u, b) => InsnV::AllocNode(u, deep_code(b@)),
            Insn::AllocNodeNew(b) => InsnV::AllocNodeNew(deep_code(b@)),
            Insn::AllocFunc(u, b) => InsnV::AllocFunc(u, deep_code(b@)),
            Insn::AllocFuncNew(b) => InsnV::AllocFuncNew(deep_code(b@)),
            Insn::AllocData(u, b) => InsnV::AllocData(u, deep_code(b@)),
            Insn::AllocDataNew(b) => InsnV::AllocDataNew(deep_code(b@)),
            Insn::Return => InsnV::Return,
            Insn::Call(u) => InsnV::Call(u),
            Insn::UpdateNode(u) => InsnV::UpdateNode(u),
            Insn::GetNode(u) => InsnV::GetNode(u),
            Insn::SetNode(u) => InsnV::SetNode(u),
            Insn::GetLast(u) => InsnV::GetLast(u),
            Insn::SaveLast => InsnV::SaveLast,
            Insn::Exit => InsnV::Exit,
            Insn::Placeholder => InsnV::Placeholder,
        }
    }
}

/// The mathematical shape of an instruction sequence.
pub open spec fn deep_code(s: Seq<Insn>) -> Seq<InsnV>
    decreases s,
{
    if s.len() == 0 {
        Seq::empty()
    } else {
        seq![s[0].deep()] + deep_code(s.drop_first())
    }
}

/// `deep_code` maps element by element.
pub proof fn lemma_deep_code_index(s: Seq<Insn>)
    ensures
        deep_code(s).len() == s.len(),
        forall|k: int| 0 <= k < s.len() ==> #[trigger] deep_code(s)[k] == s[k].deep(),
    decreases s,
{
    if s.len() > 0 {
        lemma_deep_code_index(s.drop_first());
        assert forall|k: int| 0 <= k < s.len() implies #[trigger] deep_code(s)[k] == s[k].deep()
        by {
            if k > 0 {
                assert(deep_code(s)[k] == deep_code(s.drop_first())[k - 1]);
                assert(s.drop_first()[k - 1] == s[k]);
            }
        }
    }
}

/// Appending an instruction appends its shape.
pub proof fn lemma_deep_code_push(s: Seq<Insn>, x: Insn)
    ensures
        deep_code(s.push(x)) =~= deep_code(s) + seq![x.deep()],
{
    lemma_deep_code_index(s);
    lemma_deep_code_index(s.push(x));
    assert forall|j: int| 0 <= j < s.len() + 1 implies #[trigger] deep_code(s.push(x))[j] == (
    deep_code(s) + seq![x.deep()])[j] by {
        if j < s.len() {
            assert(s.push(x)[j] == s[j]);
        } else {
            assert(s.push(x)[j] == x);
        }
    }
}

/// Concatenating instruction buffers concatenates their shapes.
pub proof fn lemma_deep_code_add(s: Seq<Insn>, t: Seq<Insn>)
    ensures
        deep_code(s + t) =~= deep_code(s) + deep_code(t),
{
    lemma_deep_code_index(s);
    lemma_deep_code_index(t);
    lemma_deep_code_index(s + t);
    assert forall|j: int| 0 <= j < s.len() + t.len() implies #[trigger] deep_code(s + t)[j] == (
    deep_code(s) + deep_code(t))[j] by {
        if j < s.len() {
            assert((s + t)[j] == s[j]);
        } else {
            assert((s + t)[j] == t[j - s.len()]);
        }
    }
}

/// Replacing an instruction replaces its shape.
pub proof fn lemma_deep_code_update(s: Seq<Insn>, k: int, x: Insn)
    requires
        0 <= k < s.len(),
    ensures
        deep_code(s.update(k, x)) =~= deep_code(s).update(k, x.deep()),
{
    lemma_deep_code_index(s);
    lemma_deep_code_index(s.update(k, x));
    assert forall|j: int| 0 <= j < s.len() implies #[trigger] deep_code(s.update(k, x))[j]
        == deep_code(s).update(k, x.deep())[j] by {
        if j != k {
            assert(s.update(k, x)[j] == s[j]);
        } else {
            assert(s.update(k, x)[j] == x);
        }
    }
}

/// The length in bytes of one instruction's serialized form.
pub open spec fn byte_len(i: InsnV) -> nat
    decreases i,
{
    match i {
        InsnV::Nop => 1,
        InsnV::Nil => 1,
        InsnV::Add => 1,
        InsnV::Mul => 1,
        InsnV::Halt => 1,
        InsnV::Return => 1,
        InsnV::SaveLast => 1,
        InsnV::Exit => 1,
        InsnV::Placeholder => 1,
        InsnV::Je8(_) => 2,
        InsnV::J8(_) => 2,
        InsnV::Bool(_) => 2,
        InsnV::Call(_) => 2,
        InsnV::UpdateNode(_) => 2,
        InsnV::GetNode(_) => 2,
        InsnV::SetNode(_) => 2,
        InsnV::GetLast(_) => 2,
        InsnV::GetLocal(_) => 2,
        InsnV::SetLocal(_) => 2,
        InsnV::Int(_) => 5,
        InsnV::Je32(_) => 5,
        InsnV::J32(_) => 5,
        InsnV::AllocNodeNew(b) => 5 + seq_byte_len(b),
        InsnV::AllocFuncNew(b) => 5 + seq_byte_len(b),
        InsnV::AllocDataNew(b) => 5 + seq_byte_len(b),
        InsnV::AllocNode(_, b) => 6 + seq_byte_len(b),
        InsnV::AllocFunc(_, b) => 6 + seq_byte_len(b),
        InsnV::AllocData(_, b) => 6 + seq_byte_len(b),
    }
}

/// The length in bytes of an instruction sequence's serialized form.
pub open spec fn seq_byte_len(s: Seq<InsnV>) -> nat
    decreases s,
{
    if s.len() == 0 {
        0
    } else {
        byte_len(s[0]) + seq_byte_len(s.drop_first())
    }
}

/// Splitting a sequence splits its byte length.
pub proof fn lemma_seq_byte_len_add(s: Seq<InsnV>, t: Seq<InsnV>)
    ensures
        seq_byte_len(s + t) == seq_byte_len(s) + seq_byte_len(t),
    decreases s,
{
    if s.len() == 0 {
        assert(s + t =~= t);
    } else {
        assert((s + t).drop_first() =~= s.drop_first() + t);
        lemma_seq_byte_len_add(s.drop_first(), t);
    }
}

/// The byte length of one more instruction at the front.
pub proof fn lemma_seq_byte_len_push(s: Seq<InsnV>, i: int)
    requires
        0 <= i < s.len(),
    ensures
        seq_byte_len(s.subrange(0, i + 1)) == seq_byte_len(s.subrange(0, i)) + byte_len(s[i]),
{
    let single = seq![s[i]];
    assert(single.drop_first() =~= Seq::<InsnV>::empty());
    assert(seq_byte_len(Seq::<InsnV>::empty()) == 0);
    assert(seq_byte_len(single) == byte_len(s[i]));
    assert(s.subrange(0, i + 1) =~= s.subrange(0, i) + single);
    lemma_seq_byte_len_add(s.subrange(0, i), single);
}

/// A prefix's byte length is at most the whole sequence's.
pub proof fn lemma_seq_byte_len_prefix(s: Seq<InsnV>, i: int)
    requires
        0 <= i <= s.len(),
    ensures
        seq_byte_len(s.subrange(0, i)) <= seq_byte_len(s),
    decreases s.len() - i,
{
    assert(s.subrange(0, s.len() as int) =~= s);
    if i < s.len() {
        lemma_seq_byte_len_push(s, i);
        lemma_seq_byte_len_prefix(s, i + 1);
    }
}

/// The serialized byte length of one instruction, computed.
pub fn insn_byte_len(i: &Insn) -> (r: usize)
    requires
        byte_len(i.deep()) <= usize::MAX,
    ensures
        r == byte_len(i.deep()),
    decreases *i,
{
    match i {
        Insn::Nop => 1,
        Insn::Nil => 1,
        Insn::Add => 1,
        Insn::Mul => 1,
        Insn::Halt => 1,
        Insn::Return => 1,
        Insn::SaveLast => 1,
        Insn::Exit => 1,
        Insn::Placeholder => 1,
        Insn::Je8(_) => 2,
        Insn::J8(_) => 2,
        Insn::Bool(_) => 2,
        Insn::Call(_) => 2,
        Insn::UpdateNode(_) => 2,
        Insn::GetNode(_) => 2,
        Insn::SetNode(_) => 2,
        Insn::GetLast(_) => 2,
        Insn::GetLocal(_) => 2,
        Insn::SetLocal(_) => 2,
        Insn::Int(_) => 5,
        Insn::Je32(_) => 5,
        Insn::J32(_) => 5,
        Insn::AllocNodeNew(b) => {
            proof {
                assert(b@.subrange(0, b@.len() as int) =~= b@);
            }
            5 + bytecode_len(0, b.len(), b)
        },
        Insn::AllocFuncNew(b) => {
            proof {
                assert(b@.subrange(0, b@.len() as int) =~= b@);
            }
            5 + bytecode_len(0, b.len(), b)
        },
        Insn::AllocDataNew(b) => {
            proof {
                assert(b@.subrange(0, b@.len() as int) =~= b@);
            }
            5 + bytecode_len(0, b.len(), b)
        },
        Insn::AllocNode(_, b) => {
            proof {
                assert(b@.subrange(0, b@.len() as int) =~= b@);
            }
            6 + bytecode_len(0, b.len(), b)
        },
        Insn::AllocFunc(_, b) => {
            proof {
                assert(b@.subrange(0, b@.len() as int) =~= b@);
            }
            6 + bytecode_len(0, b.len(), b)
        },
        Insn::AllocData(_, b) => {
            proof {
                assert(b@.subrange(0, b@.len() as int) =~= b@);
            }
            6 + bytecode_len(0, b.len(), b)
        },
    }
}

/// The serialized byte length of the instructions `v[st..ed]`.
pub fn bytecode_len(st: usize, ed: usize, v: &Vec<Insn>) -> (r: usize)
    requires
        st <= ed <= v@.len(),
        seq_byte_len(deep_code(v@.subrange(st as int, ed as int))) <= usize::MAX,
    ensures
        r == seq_byte_len(deep_code(v@.subrange(st as int, ed as int))),
    decreases v@.subrange(st as int, ed as int),
{
    let mut ret: usize = 0;
    let mut k: usize = st;
    while k < ed
        invariant
            st <= k <= ed <= v@.len(),
            seq_byte_len(deep_code(v@.subrange(st as int, ed as int))) <= usize::MAX,
            ret == seq_byte_len(deep_code(v@.subrange(st as int, k as int))),
        decreases ed - k,
    {
        proof {
            let sub_ed = v@.subrange(st as int, ed as int);
            let sub_k1 = v@.subrange(st as int, k + 1);
            let sub_k = v@.subrange(st as int, k as int);
            let cur = v@[k as int].deep();
            lemma_deep_code_index(sub_ed);
            lemma_deep_code_index(sub_k1);
            lemma_deep_code_index(sub_k);
            assert(deep_code(sub_k1) =~= deep_code(sub_k) + seq![cur]);
            assert(seq![cur].drop_first() =~= Seq::<InsnV>::empty());
            assert(seq_byte_len(Seq::<InsnV>::empty()) == 0);
            assert(seq_byte_len(seq![cur]) == byte_len(cur));
            lemma_seq_byte_len_add(deep_code(sub_k), seq![cur]);
            // The processed part together with the current instruction is a
            // prefix of the whole region, so the sum stays within bounds.
            assert(deep_code(sub_k1) =~= deep_code(sub_ed).subrange(0, k - st + 1));
            lemma_seq_byte_len_prefix(deep_code(sub_ed), k - st + 1);
            assert(sub_ed[k - st] == v@[k as int]);
        }
        ret = ret + insn_byte_len(&v[k]);
        k = k + 1;
    }
    assert(v@.subrange(st as int, k as int) =~= v@.subrange(st as int, ed as int));
    ret
}

impl Insn {
    /// The unconditional jump over `i` serialized bytes, in the narrowest
    /// encoding that holds the offset.
    pub fn j(i: i32) -> (r: Self)
        ensures
            r.deep() == spec_j(i),
    {
        if i8::MIN as i32 <= i && i <= i8::MAX as i32 {
            Insn::J8(#[verifier::truncate] (i as i8))
        } else {
            Insn::J32(i)
        }
    }

    /// The conditional jump over `i` serialized bytes, in the narrowest
    /// encoding that holds the offset.
    pub fn je(i: i32) -> (r: Self)
        ensures
            r.deep() == spec_je(i),
    {
        if i8::MIN as i32 <= i && i <= i8::MAX as i32 {
            Insn::Je8(#[verifier::truncate] (i as i8))
        } else {
            Insn::Je32(i)
        }
    }
}

pub open spec fn spec_j(i: i32) -> InsnV {
    if -128 <= i <= 127 {
        InsnV::J8(i as i8)
    } else {
        InsnV::J32(i)
    }
}

pub open spec fn spec_je(i: i32) -> InsnV {
    if -128 <= i <= 127 {
        InsnV::Je8(i as i8)
    } else {
        InsnV::Je32(i)
    }
}

/// The opcode tag of an instruction's serialized form.
pub open spec fn opcode(i: InsnV) -> u8 {
    match i {
        InsnV::Nop => 0,
        InsnV::Nil => 1,
        InsnV::Int(_) => 2,
        InsnV::Bool(_) => 3,
        InsnV::Add => 4,
        InsnV::Mul => 5,
        InsnV::Je8(_) => 6,
        InsnV::Je32(_) => 7,
        InsnV::J8(_) => 8,
        InsnV::J32(_) => 9,
        InsnV::GetLocal(_) => 10,
        InsnV::SetLocal(_) => 11,
        InsnV::AllocNode(_, _) => 12,
        InsnV::AllocNodeNew(_) => 13,
        InsnV::UpdateNode(_) => 14,
        InsnV::GetNode(_) => 15,
        InsnV::SetNode(_) => 16,
        InsnV::GetLast(_) => 17,
        InsnV::SaveLast => 18,
        InsnV::AllocFunc(_, _) => 19,
        InsnV::AllocFuncNew(_) => 20,
        InsnV::AllocData(_, _) => 21,
        InsnV::AllocDataNew(_) => 22,
        InsnV::Return => 23,
        InsnV::Call(_) => 24,
        InsnV::Exit => 25,
        InsnV::Halt => 26,
        InsnV::Placeholder => 27,
    }
}

/// Whether an instruction can be serialized: no placeholder is left, every
/// one-byte immediate fits in a byte, and every nested block's byte length
/// fits in its four-byte prefix.
pub open spec fn wf_code(i: InsnV) -> bool
    decreases i,
{
    match i {
        InsnV::Placeholder => false,
        InsnV::Call(u) => u < 256,
        InsnV::UpdateNode(u) => u < 256,
        InsnV::GetNode(u) => u < 256,
        InsnV::SetNode(u) => u < 256,
        InsnV::GetLast(u) => u < 256,
        InsnV::GetLocal(u) => u < 256,
        InsnV::SetLocal(u) => u < 256,
        InsnV::AllocNodeNew(b) => seq_byte_len(b) < 0x1_0000_0000 && wf_code_seq(b),
        InsnV::AllocFuncNew(b) => seq_byte_len(b) < 0x1_0000_0000 && wf_code_seq(b),
        InsnV::AllocDataNew(b) => seq_byte_len(b) < 0x1_0000_0000 && wf_code_seq(b),
        InsnV::AllocNode(u, b) => u < 256 && seq_byte_len(b) < 0x1_0000_0000 && wf_code_seq(b),
        InsnV::AllocFunc(u, b) => u < 256 && seq_byte_len(b) < 0x1_0000_0000 && wf_code_seq(b),
        InsnV::AllocData(u, b) => u < 256 && seq_byte_len(b) < 0x1_0000_0000 && wf_code_seq(b),
        _ => true,
    }
}

/// Whether every instruction of a sequence can be serialized.
pub open spec fn wf_code_seq(s: Seq<InsnV>) -> bool
    decreases s,
{
    if s.len() == 0 {
        true
    } else {
        wf_code(s[0]) && wf_code_seq(s.drop_first())
    }
}

/// A sequence is serializable exactly when each of its instructions is.
pub proof fn lemma_wf_code_seq_index(s: Seq<InsnV>)
    ensures
        wf_code_seq(s) <==> (forall|k: int| 0 <= k < s.len() ==> wf_code(#[trigger] s[k])),
    decreases s,
{
    if s.len() > 0 {
        lemma_wf_code_seq_index(s.drop_first());
        assert(forall|k: int|
            1 <= k < s.len() ==> #[trigger] s[k] == s.drop_first()[k - 1]);
    }
}

/// The four bytes of `n`, least significant first.
pub open spec fn u32_le(n: u32) -> Seq<u8> {
    seq![n as u8, (n >> 8) as u8, (n >> 16) as u8, (n >> 24) as u8]
}

/// The four bytes of `n`'s two's-complement form, least significant first.
pub open spec fn i32_le(n: i32) -> Seq<u8> {
    u32_le(n as u32)
}

/// The serialized form of one instruction.
pub open spec fn encoding(i: InsnV) -> Seq<u8>
    decreases i,
{
    match i {
        InsnV::Je8(x) => seq![opcode(i), x as u8],
        InsnV::J8(x) => seq![opcode(i), x as u8],
        InsnV::Bool(b) => seq![opcode(i), if b { 1u8 } else { 0u8 }],
        InsnV::Call(u) => seq![opcode(i), u as u8],
        InsnV::UpdateNode(u) => seq![opcode(i), u as u8],
        InsnV::GetNode(u) => seq![opcode(i), u as u8],
        InsnV::SetNode(u) => seq![opcode(i), u as u8],
        InsnV::GetLast(u) => seq![opcode(i), u as u8],
        InsnV::GetLocal(u) => seq![opcode(i), u as u8],
        InsnV::SetLocal(u) => seq![opcode(i), u as u8],
        InsnV::Int(x) => seq![opcode(i)] + i32_le(x),
        InsnV::Je32(x) => seq![opcode(i)] + i32_le(x),
        InsnV::J32(x) => seq![opcode(i)] + i32_le(x),
        InsnV::AllocNodeNew(b) => seq![opcode(i)] + u32_le(seq_byte_len(b) as u32) + seq_encoding(
            b,
        ),
        InsnV::AllocFuncNew(b) => seq![opcode(i)] + u32_le(seq_byte_len(b) as u32) + seq_encoding(
            b,
        ),
        InsnV::AllocDataNew(b) => seq![opcode(i)] + u32_le(seq_byte_len(b) as u32) + seq_encoding(
            b,
        ),
        InsnV::AllocNode(u, b) => seq![opcode(i), u as u8] + u32_le(seq_byte_len(b) as u32)
            + seq_encoding(b),
        InsnV::AllocFunc(u, b) => seq![opcode(i), u as u8] + u32_le(seq_byte_len(b) as u32)
            + seq_encoding(b),
        InsnV::AllocData(u, b) => seq![opcode(i), u as u8] + u32_le(seq_byte_len(b) as u32)
            + seq_encoding(b),
        _ => seq![opcode(i)],
    }
}

/// The serialized form of an instruction sequence.
pub open spec fn seq_encoding(s: Seq<InsnV>) -> Seq<u8>
    decreases s,
{
    if s.len() == 0 {
        Seq::empty()
    } else {
        encoding(s[0]) + seq_encoding(s.drop_first())
    }
}

/// Concatenating sequences concatenates their serialized forms.
pub proof fn lemma_seq_encoding_add(s: Seq<InsnV>, t: Seq<InsnV>)
    ensures
        seq_encoding(s + t) =~= seq_encoding(s) + seq_encoding(t),
    decreases s,
{
    if s.len() == 0 {
        assert(s + t =~= t);
        assert(seq_encoding(s) + seq_encoding(t) =~= seq_encoding(t));
    } else {
        assert((s + t).drop_first() =~= s.drop_first() + t);
        lemma_seq_encoding_add(s.drop_first(), t);
        assert((s + t)[0] == s[0]);
        assert(encoding(s[0]) + (seq_encoding(s.drop_first()) + seq_encoding(t)) =~= (encoding(
            s[0],
        ) + seq_encoding(s.drop_first())) + seq_encoding(t));
    }
}

/// A serialized instruction occupies exactly its stated byte length.
pub proof fn lemma_encoding_len(i: InsnV)
    requires
        wf_code(i),
    ensures
        encoding(i).len() == byte_len(i),
    decreases i,
{
    match i {
        InsnV::AllocNodeNew(b) => lemma_seq_encoding_len(b),
        InsnV::AllocFuncNew(b) => lemma_seq_encoding_len(b),
        InsnV::AllocDataNew(b) => lemma_seq_encoding_len(b),
        InsnV::AllocNode(_, b) => lemma_seq_encoding_len(b),
        InsnV::AllocFunc(_, b) => lemma_seq_encoding_len(b),
        InsnV::AllocData(_, b) => lemma_seq_encoding_len(b),
        _ => {},
    }
}

/// A serialized sequence occupies exactly its stated byte length.
pub proof fn lemma_seq_encoding_len(s: Seq<InsnV>)
    requires
        wf_code_seq(s),
    ensures
        seq_encoding(s).len() == seq_byte_len(s),
    decreases s,
{
    if s.len() > 0 {
        lemma_encoding_len(s[0]);
        lemma_seq_encoding_len(s.drop_first());
    }
}

/// Appends the four little-endian bytes of `i`'s two's-complement form.
pub fn push_int_le(i: i32, ret: &mut Vec<u8>)
    ensures
        final(ret)@ == old(ret)@ + i32_le(i),
{
    let n: u32 = #[verifier::truncate] (i as u32);
    push_u32_le(n, ret);
    assert(ret@ =~= old(ret)@ + i32_le(i));
}

/// Appends the four little-endian bytes of `n`.
fn push_u32_le(n: u32, ret: &mut Vec<u8>)
    ensures
        final(ret)@ == old(ret)@ + u32_le(n),
{
    ret.push(#[verifier::truncate] (n as u8));
    ret.push(#[verifier::truncate] ((n >> 8) as u8));
    ret.push(#[verifier::truncate] ((n >> 16) as u8));
    ret.push(#[verifier::truncate] ((n >> 24) as u8));
    assert(ret@ =~= old(ret)@ + u32_le(n));
}

/// Appends the serialized form of `i` to `ret`.
fn push_code(i: &Insn, ret: &mut Vec<u8>)
    requires
        wf_code(i.deep()),
    ensures
        final(ret)@ == old(ret)@ + encoding(i.deep()),
    decreases *i,
{
    match i {
        Insn::Nop => push_op(0, ret),
        Insn::Nil => push_op(1, ret),
        Insn::Add => push_op(4, ret),
        Insn::Mul => push_op(5, ret),
        Insn::SaveLast => push_op(18, ret),
        Insn::Return => push_op(23, ret),
        Insn::Exit => push_op(25, ret),
        Insn::Halt => push_op(26, ret),
        Insn::Placeholder => push_op(27, ret),
        Insn::Int(x) => {
            ret.push(2);
            push_int_le(*x, ret);
            assert(ret@ =~= old(ret)@ + encoding(i.deep()));
        },
        Insn::Bool(b) => push_imm(3, if *b { 1 } else { 0 }, ret),
        Insn::Je8(x) => push_imm(6, #[verifier::truncate] (*x as u8), ret),
        Insn::Je32(x) => {
            ret.push(7);
            push_int_le(*x, ret);
            assert(ret@ =~= old(ret)@ + encoding(i.deep()));
        },
        Insn::J8(x) => push_imm(8, #[verifier::truncate] (*x as u8), ret),
        Insn::J32(x) => {
            ret.push(9);
            push_int_le(*x, ret);
            assert(ret@ =~= old(ret)@ + encoding(i.deep()));
        },
        Insn::GetLocal(u) => push_imm(10, #[verifier::truncate] (*u as u8), ret),
        Insn::SetLocal(u) => push_imm(11, #[verifier::truncate] (*u as u8), ret),
        Insn::UpdateNode(u) => push_imm(14, #[verifier::truncate] (*u as u8), ret),
        Insn::GetNode(u) => push_imm(15, #[verifier::truncate] (*u as u8), ret),
        Insn::SetNode(u) => push_imm(16, #[verifier::truncate] (*u as u8), ret),
        Insn::GetLast(u) => push_imm(17, #[verifier::truncate] (*u as u8), ret),
        Insn::Call(u) => push_imm(24, #[verifier::truncate] (*u as u8), ret),
        Insn::AllocNodeNew(b) => {
            ret.push(13);
            push_block(b, ret);
            assert(ret@ =~= old(ret)@ + encoding(i.deep()));
        },
        Insn::AllocFuncNew(b) => {
            ret.push(20);
            push_block(b, ret);
            assert(ret@ =~= old(ret)@ + encoding(i.deep()));
        },
        Insn::AllocDataNew(b) => {
            ret.push(22);
            push_block(b, ret);
            assert(ret@ =~= old(ret)@ + encoding(i.deep()));
        },
        Insn::AllocNode(u, b) => {
            ret.push(12);
            ret.push(#[verifier::truncate] (*u as u8));
            push_block(b, ret);
            assert(ret@ =~= old(ret)@ + encoding(i.deep()));
        },
        Insn::AllocFunc(u, b) => {
            ret.push(19);
            ret.push(#[verifier::truncate] (*u as u8));
            push_block(b, ret);
            assert(ret@ =~= old(ret)@ + encoding(i.deep()));
        },
        Insn::AllocData(u, b) => {
            ret.push(21);
            ret.push(#[verifier::truncate] (*u as u8));
            push_block(b, ret);
            assert(ret@ =~= old(ret)@ + encoding(i.deep()));
        },
    }
}

/// Appends a one-byte instruction.
fn push_op(op: u8, ret: &mut Vec<u8>)
    ensures
        final(ret)@ == old(ret)@ + seq![op],
{
    ret.push(op);
    assert(ret@ =~= old(ret)@ + seq![op]);
}

/// Appends an instruction with a one-byte immediate.
fn push_imm(op: u8, imm: u8, ret: &mut Vec<u8>)
    ensures
        final(ret)@ == old(ret)@ + seq![op, imm],
{
    ret.push(op);
    ret.push(imm);
    assert(ret@ =~= old(ret)@ + seq![op, imm]);
}

/// Appends a nested block: its four-byte length prefix, then its body.
fn push_block(b: &Vec<Insn>, ret: &mut Vec<u8>)
    requires
        seq_byte_len(deep_code(b@)) < 0x1_0000_0000,
        wf_code_seq(deep_code(b@)),
    ensures
        final(ret)@ == old(ret)@ + u32_le(seq_byte_len(deep_code(b@)) as u32) + seq_encoding(
            deep_code(b@),
        ),
    decreases b@,
{
    proof {
        assert(b@.subrange(0, b@.len() as int) =~= b@);
    }
    let l = bytecode_len(0, b.len(), b);
    push_u32_le(#[verifier::truncate] (l as u32), ret);
    let ghost mid = ret@;
    let mut k: usize = 0;
    while k < b.len()
        invariant
            k <= b@.len(),
            wf_code_seq(deep_code(b@)),
            ret@ == mid + seq_encoding(deep_code(b@.subrange(0, k as int))),
        decreases b@.len() - k,
    {
        proof {
            lemma_deep_code_index(b@);
            lemma_deep_code_index(b@.subrange(0, k as int));
            lemma_deep_code_index(b@.subrange(0, k + 1));
            lemma_wf_code_seq_index(deep_code(b@));
            assert(deep_code(b@)[k as int] == b@[k as int].deep());
            assert(wf_code(deep_code(b@)[k as int]));
            assert(wf_code(b@[k as int].deep()));
            assert(deep_code(b@.subrange(0, k + 1)) =~= deep_code(b@.subrange(0, k as int))
                + seq![b@[k as int].deep()]);
            lemma_seq_encoding_add(deep_code(b@.subrange(0, k as int)), seq![b@[k as int].deep()]);
            assert(seq![b@[k as int].deep()].drop_first() =~= Seq::<InsnV>::empty());
            assert(seq_encoding(Seq::<InsnV>::empty()) =~= Seq::<u8>::empty());
            assert(encoding(b@[k as int].deep()) + Seq::<u8>::empty() =~= encoding(
                b@[k as int].deep(),
            ));
            assert(seq_encoding(seq![b@[k as int].deep()]) =~= encoding(b@[k as int].deep()));
            assert(b@.subrange(0, b@.len() as int)[k as int] == b@[k as int]);
        }
        push_code(&b[k], ret);
        proof {
            assert(ret@ =~= mid + seq_encoding(deep_code(b@.subrange(0, k + 1))));
        }
        k = k + 1;
    }
    proof {
        assert(b@.subrange(0, b@.len() as int) =~= b@);
        assert(ret@ =~= old(ret)@ + u32_le(seq_byte_len(deep_code(b@)) as u32) + seq_encoding(
            deep_code(b@),
        ));
    }
}

impl Insn {
    /// Appends this instruction's serialized form to `ret`.
    pub fn push_byte_code(self, ret: &mut Vec<u8>)
        requires
            wf_code(self.deep()),
        ensures
            final(ret)@ == old(ret)@ + encoding(self.deep()),
    {
        push_code(&self, ret)
    }
}

/// The framed transport form of a definitions program: a header of two
/// four-byte little-endian lengths — the byte length of the initialization
/// section, then of the update section — followed by the two serialized
/// sections in that order.
pub fn frame_byte_code(init: &Vec<Insn>, upd: &Vec<Insn>) -> (r: Vec<u8>)
    requires
        wf_code_seq(deep_code(init@)),
        wf_code_seq(deep_code(upd@)),
        seq_byte_len(deep_code(init@)) < 0x1_0000_0000,
        seq_byte_len(deep_code(upd@)) < 0x1_0000_0000,
    ensures
        r@ == u32_le(seq_byte_len(deep_code(init@)) as u32) + u32_le(
            seq_byte_len(deep_code(upd@)) as u32,
        ) + seq_encoding(deep_code(init@)) + seq_encoding(deep_code(upd@)),
{
    proof {
        assert(init@.subrange(0, init@.len() as int) =~= init@);
        assert(upd@.subrange(0, upd@.len() as int) =~= upd@);
    }
    let li = bytecode_len(0, init.len(), init);
    let lu = bytecode_len(0, upd.len(), upd);
    let mut r: Vec<u8> = Vec::new();
    push_u32_le(#[verifier::truncate] (li as u32), &mut r);
    push_u32_le(#[verifier::truncate] (lu as u32), &mut r);
    push_section(init, &mut r);
    push_section(upd, &mut r);
    proof {
        assert(r@ =~= u32_le(seq_byte_len(deep_code(init@)) as u32) + u32_le(
            seq_byte_len(deep_code(upd@)) as u32,
        ) + seq_encoding(deep_code(init@)) + seq_encoding(deep_code(upd@)));
    }
    r
}

/// Appends a whole section's serialized instructions.
fn push_section(v: &Vec<Insn>, ret: &mut Vec<u8>)
    requires
        wf_code_seq(deep_code(v@)),
    ensures
        final(ret)@ == old(ret)@ + seq_encoding(deep_code(v@)),
{
    let ghost mid = ret@;
    let mut k: usize = 0;
    while k < v.len()
        invariant
            k <= v@.len(),
            wf_code_seq(deep_code(v@)),
            ret@ == mid + seq_encoding(deep_code(v@.subrange(0, k as int))),
        decreases v@.len() - k,
    {
        proof {
            lemma_deep_code_index(v@);
            lemma_deep_code_index(v@.subrange(0, k as int));
            lemma_deep_code_index(v@.subrange(0, k + 1));
            lemma_wf_code_seq_index(deep_code(v@));
            assert(deep_code(v@)[k as int] == v@[k as int].deep());
            assert(wf_code(deep_code(v@)[k as int]));
            assert(wf_code(v@[k as int].deep()));
            assert(deep_code(v@.subrange(0, k + 1)) =~= deep_code(v@.subrange(0, k as int))
                + seq![v@[k as int].deep()]);
            lemma_seq_encoding_add(deep_code(v@.subrange(0, k as int)), seq![v@[k as int].deep()]);
            assert(seq![v@[k as int].deep()].drop_first() =~= Seq::<InsnV>::empty());
            assert(seq_encoding(Seq::<InsnV>::empty()) =~= Seq::<u8>::empty());
            assert(encoding(v@[k as int].deep()) + Seq::<u8>::empty() =~= encoding(
                v@[k as int].deep(),
            ));
            assert(seq_encoding(seq![v@[k as int].deep()]) =~= encoding(v@[k as int].deep()));
        }
        push_code(&v[k], ret);
        proof {
            assert(ret@ =~= mid + seq_encoding(deep_code(v@.subrange(0, k + 1))));
        }
        k = k + 1;
    }
    proof {
        assert(v@.subrange(0, v@.len() as int) =~= v@);
    }
}

/// The value whose four little-endian bytes are `b0`, `b1`, `b2`, `b3`.
pub open spec fn u32_of_le(b0: u8, b1: u8, b2: u8, b3: u8) -> u32 {
    (b0 as u32) | ((b1 as u32) << 8) | ((b2 as u32) << 16) | ((b3 as u32) << 24)
}

/// Reads one instruction of the serialized form at `st`, staying inside
/// `[st, ed)`: the instruction and the position just after it, or nothing if
/// the bytes there are not a serialized instruction.
pub open spec fn dec_insn(bytes: Seq<u8>, st: int, ed: int) -> Option<(InsnV, int)>
    decreases ed - st, 0int,
{
    if st < 0 || st >= ed || ed > bytes.len() {
        Option::None
    } else {
        let op = bytes[st];
        if op == 0 {
            Option::Some((InsnV::Nop, st + 1))
        } else if op == 1 {
            Option::Some((InsnV::Nil, st + 1))
        } else if op == 4 {
            Option::Some((InsnV::Add, st + 1))
        } else if op == 5 {
            Option::Some((InsnV::Mul, st + 1))
        } else if op == 18 {
            Option::Some((InsnV::SaveLast, st + 1))
        } else if op == 23 {
            Option::Some((InsnV::Return, st + 1))
        } else if op == 25 {
            Option::Some((InsnV::Exit, st + 1))
        } else if op == 26 {
            Option::Some((InsnV::Halt, st + 1))
        } else if op == 3 {
            if st + 2 <= ed && (bytes[st + 1] == 0 || bytes[st + 1] == 1) {
                Option::Some((InsnV::Bool(bytes[st + 1] == 1), st + 2))
            } else {
                Option::None
            }
        } else if op == 6 {
            if st + 2 <= ed {
                Option::Some((InsnV::Je8(bytes[st + 1] as i8), st + 2))
            } else {
                Option::None
            }
        } else if op == 8 {
            if st + 2 <= ed {
                Option::Some((InsnV::J8(bytes[st + 1] as i8), st + 2))
            } else {
                Option::None
            }
        } else if op == 10 {
            if st + 2 <= ed {
                Option::Some((InsnV::GetLocal(bytes[st + 1] as usize), st + 2))
            } else {
                Option::None
            }
        } else if op == 11 {
            if st + 2 <= ed {
                Option::Some((InsnV::SetLocal(bytes[st + 1] as usize), st + 2))
            } else {
                Option::None
            }
        } else if op == 14 {
            if st + 2 <= ed {
                Option::Some((InsnV::UpdateNode(bytes[st + 1] as usize), st + 2))
            } else {
                Option::None
            }
        } else if op == 15 {
            if st + 2 <= ed {
                Option::Some((InsnV::GetNode(bytes[st + 1] as usize), st + 2))
            } else {
                Option::None
            }
        } else if op == 16 {
            if st + 2 <= ed {
                Option::Some((InsnV::SetNode(bytes[st + 1] as usize), st + 2))
            } else {
                Option::None
            }
        } else if op == 17 {
            if st + 2 <= ed {
                Option::Some((InsnV::GetLast(bytes[st + 1] as usize), st + 2))
            } else {
                Option::None
            }
        } else if op == 24 {
            if st + 2 <= ed {
                Option::Some((InsnV::Call(bytes[st + 1] as usize), st + 2))
            } else {
                Option::None
            }
        } else if op == 2 {
            if st + 5 <= ed {
                Option::Some(
                    (
                        InsnV::Int(
                            u32_of_le(bytes[st + 1], bytes[st + 2], bytes[st + 3], bytes[st + 4])
                                as i32,
                        ),
                        st + 5,
                    ),
                )
            } else {
                Option::None
            }
        } else if op == 7 {
            if st + 5 <= ed {
                Option::Some(
                    (
                        InsnV::Je32(
                            u32_of_le(bytes[st + 1], bytes[st + 2], bytes[st + 3], bytes[st + 4])
                                as i32,
                        ),
                        st + 5,
                    ),
                )
            } else {
                Option::None
            }
        } else if op == 9 {
            if st + 5 <= ed {
                Option::Some(
                    (
                        InsnV::J32(
                            u32_of_le(bytes[st + 1], bytes[st + 2], bytes[st + 3], bytes[st + 4])
                                as i32,
                        ),
                        st + 5,
                    ),
                )
            } else {
                Option::None
            }
        } else if op == 13 || op == 20 || op == 22 {
            if st + 5 <= ed {
                let l = u32_of_le(bytes[st + 1], bytes[st + 2], bytes[st + 3], bytes[st + 4]) as int;
                if st + 5 + l <= ed {
                    match dec_insns(bytes, st + 5, st + 5 + l) {
                        Option::Some(b) => Option::Some(
                            (
                                if op == 13 {
                                    InsnV::AllocNodeNew(b)
                                } else if op == 20 {
                                    InsnV::AllocFuncNew(b)
                                } else {
                                    InsnV::AllocDataNew(b)
                                },
                                st + 5 + l,
                            ),
                        ),
                        Option::None => Option::None,
                    }
                } else {
                    Option::None
                }
            } else {
                Option::None
            }
        } else if op == 12 || op == 19 || op == 21 {
            if st + 6 <= ed {
                let u = bytes[st + 1] as usize;
                let l = u32_of_le(bytes[st + 2], bytes[st + 3], bytes[st + 4], bytes[st + 5]) as int;
                if st + 6 + l <= ed {
                    match dec_insns(bytes, st + 6, st + 6 + l) {
                        Option::Some(b) => Option::Some(
                            (
                                if op == 12 {
                                    InsnV::AllocNode(u, b)
                                } else if op == 19 {
                                    InsnV::AllocFunc(u, b)
                                } else {
                                    InsnV::AllocData(u, b)
                                },
                                st + 6 + l,
                            ),
                        ),
                        Option::None => Option::None,
                    }
                } else {
                    Option::None
                }
            } else {
                Option::None
            }
        } else {
            Option::None
        }
    }
}

/// Reads the serialized instructions that fill `[st, ed)` exactly, or nothing
/// if the bytes there are not a serialized instruction sequence.
pub open spec fn dec_insns(bytes: Seq<u8>, st: int, ed: int) -> Option<Seq<InsnV>>
    decreases ed - st, 1int,
{
    if st == ed {
        Option::Some(Seq::empty())
    } else {
        match dec_insn(bytes, st, ed) {
            Option::Some((i, nx)) => {
                if st < nx <= ed {
                    match dec_insns(bytes, nx, ed) {
                        Option::Some(rest) => Option::Some(seq![i] + rest),
                        Option::None => Option::None,
                    }
                } else {
                    Option::None
                }
            },
            Option::None => Option::None,
        }
    }
}

proof fn lemma_u32_le_round_trip(n: u32)
    ensures
        u32_of_le(n as u8, (n >> 8) as u8, (n >> 16) as u8, (n >> 24) as u8) == n,
{
    assert(((n as u8) as u32 | (((n >> 8) as u8) as u32) << 8 | (((n >> 16) as u8) as u32) << 16 | ((
    (n >> 24) as u8) as u32) << 24) == n) by (bit_vector);
}

proof fn lemma_i32_round_trip(x: i32)
    ensures
        ((x as u32) as i32) == x,
        u32_of_le(
            (x as u32) as u8,
            ((x as u32) >> 8) as u8,
            ((x as u32) >> 16) as u8,
            ((x as u32) >> 24) as u8,
        ) as i32 == x,
{
    assert(((x as u32) as i32) == x) by (bit_vector);
    lemma_u32_le_round_trip(x as u32);
}

proof fn lemma_i8_round_trip(x: i8)
    ensures
        ((x as u8) as i8) == x,
{
    assert(((x as u8) as i8) == x) by (bit_vector);
}

/// Every instruction's serialized form is at least one byte.
pub proof fn lemma_byte_len_pos(i: InsnV)
    ensures
        byte_len(i) >= 1,
{
}

/// Reads back a one-byte instruction's opcode.
proof fn lemma_dec_op1(bytes: Seq<u8>, st: int, opb: u8)
    requires
        0 <= st,
        st + 1 <= bytes.len(),
        bytes.subrange(st, st + 1) == seq![opb],
    ensures
        bytes[st] == opb,
{
    assert(bytes.subrange(st, st + 1)[0] == bytes[st]);
}

/// Reads back an instruction with a one-byte immediate.
proof fn lemma_dec_op2(bytes: Seq<u8>, st: int, opb: u8, imm: u8)
    requires
        0 <= st,
        st + 2 <= bytes.len(),
        bytes.subrange(st, st + 2) == seq![opb, imm],
    ensures
        bytes[st] == opb,
        bytes[st + 1] == imm,
{
    assert(bytes.subrange(st, st + 2)[0] == bytes[st]);
    assert(bytes.subrange(st, st + 2)[1] == bytes[st + 1]);
}

/// Reads back an instruction with a four-byte signed immediate.
proof fn lemma_dec_op5(bytes: Seq<u8>, st: int, opb: u8, x: i32)
    requires
        0 <= st,
        st + 5 <= bytes.len(),
        bytes.subrange(st, st + 5) == seq![opb] + i32_le(x),
    ensures
        bytes[st] == opb,
        u32_of_le(bytes[st + 1], bytes[st + 2], bytes[st + 3], bytes[st + 4]) as i32 == x,
{
    let e = seq![opb] + i32_le(x);
    assert(bytes.subrange(st, st + 5)[0] == bytes[st]);
    assert(bytes.subrange(st, st + 5)[1] == bytes[st + 1]);
    assert(bytes.subrange(st, st + 5)[2] == bytes[st + 2]);
    assert(bytes.subrange(st, st + 5)[3] == bytes[st + 3]);
    assert(bytes.subrange(st, st + 5)[4] == bytes[st + 4]);
    assert(e[0] == opb);
    assert(e[1] == u32_le(x as u32)[0]);
    assert(e[2] == u32_le(x as u32)[1]);
    assert(e[3] == u32_le(x as u32)[2]);
    assert(e[4] == u32_le(x as u32)[3]);
    lemma_i32_round_trip(x);
}

/// Reading one serialized instruction back yields that instruction.
proof fn lemma_dec_insn(bytes: Seq<u8>, st: int, ed: int, i: InsnV)
    requires
        wf_code(i),
        0 <= st,
        st + byte_len(i) <= ed,
        ed <= bytes.len(),
        bytes.subrange(st, st + byte_len(i)) == encoding(i),
    ensures
        dec_insn(bytes, st, ed) == Option::Some((i, st + byte_len(i))),
    decreases i,
{
    lemma_encoding_len(i);
    match i {
        InsnV::Nop => lemma_dec_op1(bytes, st, opcode(i)),
        InsnV::Nil => lemma_dec_op1(bytes, st, opcode(i)),
        InsnV::Add => lemma_dec_op1(bytes, st, opcode(i)),
        InsnV::Mul => lemma_dec_op1(bytes, st, opcode(i)),
        InsnV::Halt => lemma_dec_op1(bytes, st, opcode(i)),
        InsnV::Return => lemma_dec_op1(bytes, st, opcode(i)),
        InsnV::SaveLast => lemma_dec_op1(bytes, st, opcode(i)),
        InsnV::Exit => lemma_dec_op1(bytes, st, opcode(i)),
        InsnV::Bool(b) => lemma_dec_op2(bytes, st, opcode(i), if b { 1u8 } else { 0u8 }),
        InsnV::Je8(x) => {
            lemma_dec_op2(bytes, st, opcode(i), x as u8);
            lemma_i8_round_trip(x);
        },
        InsnV::J8(x) => {
            lemma_dec_op2(bytes, st, opcode(i), x as u8);
            lemma_i8_round_trip(x);
        },
        InsnV::GetLocal(u) => lemma_dec_slot(bytes, st, opcode(i), u),
        InsnV::SetLocal(u) => lemma_dec_slot(bytes, st, opcode(i), u),
        InsnV::UpdateNode(u) => lemma_dec_slot(bytes, st, opcode(i), u),
        InsnV::GetNode(u) => lemma_dec_slot(bytes, st, opcode(i), u),
        InsnV::SetNode(u) => lemma_dec_slot(bytes, st, opcode(i), u),
        InsnV::GetLast(u) => lemma_dec_slot(bytes, st, opcode(i), u),
        InsnV::Call(u) => lemma_dec_slot(bytes, st, opcode(i), u),
        InsnV::Int(x) => lemma_dec_op5(bytes, st, opcode(i), x),
        InsnV::Je32(x) => lemma_dec_op5(bytes, st, opcode(i), x),
        InsnV::J32(x) => lemma_dec_op5(bytes, st, opcode(i), x),
        InsnV::AllocNodeNew(b) => {
            lemma_dec_alloc_new(bytes, st, ed, b, opcode(i));
        },
        InsnV::AllocFuncNew(b) => {
            lemma_dec_alloc_new(bytes, st, ed, b, opcode(i));
        },
        InsnV::AllocDataNew(b) => {
            lemma_dec_alloc_new(bytes, st, ed, b, opcode(i));
        },
        InsnV::AllocNode(u, b) => {
            lemma_dec_alloc_at(bytes, st, ed, u, b, opcode(i));
        },
        InsnV::AllocFunc(u, b) => {
            lemma_dec_alloc_at(bytes, st, ed, u, b, opcode(i));
        },
        InsnV::AllocData(u, b) => {
            lemma_dec_alloc_at(bytes, st, ed, u, b, opcode(i));
        },
        InsnV::Placeholder => {},
    }
}

/// Reads back a slot-addressed instruction.
proof fn lemma_dec_slot(bytes: Seq<u8>, st: int, opb: u8, u: usize)
    requires
        u < 256,
        0 <= st,
        st + 2 <= bytes.len(),
        bytes.subrange(st, st + 2) == seq![opb, u as u8],
    ensures
        bytes[st] == opb,
        bytes[st + 1] as usize == u,
{
    lemma_dec_op2(bytes, st, opb, u as u8);
    assert((u as u8) as usize == u) by (bit_vector)
        requires
            u < 256,
    ;
}

/// The block part shared by the slotless allocation instructions.
proof fn lemma_dec_alloc_new(bytes: Seq<u8>, st: int, ed: int, b: Seq<InsnV>, opb: u8)
    requires
        seq_byte_len(b) < 0x1_0000_0000,
        wf_code_seq(b),
        0 <= st,
        st + 5 + seq_byte_len(b) <= ed,
        ed <= bytes.len(),
        bytes.subrange(st, st + 5 + seq_byte_len(b)) == seq![opb] + u32_le(
            seq_byte_len(b) as u32,
        ) + seq_encoding(b),
    ensures
        bytes[st] == opb,
        u32_of_le(bytes[st + 1], bytes[st + 2], bytes[st + 3], bytes[st + 4]) == seq_byte_len(b),
        dec_insns(bytes, st + 5, st + 5 + seq_byte_len(b)) == Option::Some(b),
    decreases b, 1int,
{
    let l = seq_byte_len(b) as int;
    let n = seq_byte_len(b) as u32;
    let e = seq![opb] + u32_le(n) + seq_encoding(b);
    let sub = bytes.subrange(st, st + 5 + l);
    lemma_seq_encoding_len(b);
    lemma_u32_le_round_trip(n);
    assert(sub[0] == bytes[st] && e[0] == opb);
    assert(sub[1] == bytes[st + 1] && e[1] == u32_le(n)[0]);
    assert(sub[2] == bytes[st + 2] && e[2] == u32_le(n)[1]);
    assert(sub[3] == bytes[st + 3] && e[3] == u32_le(n)[2]);
    assert(sub[4] == bytes[st + 4] && e[4] == u32_le(n)[3]);
    assert(bytes.subrange(st + 5, st + 5 + l) =~= seq_encoding(b)) by {
        assert(forall|j: int|
            0 <= j < l ==> #[trigger] bytes.subrange(st + 5, st + 5 + l)[j] == bytes[st + 5 + j]
                && sub[5 + j] == bytes[st + 5 + j] && e[5 + j] == seq_encoding(b)[j]);
    }
    lemma_dec_insns(bytes, st + 5, st + 5 + l, b);
}

/// The block part shared by the slot-addressed allocation instructions.
proof fn lemma_dec_alloc_at(bytes: Seq<u8>, st: int, ed: int, u: usize, b: Seq<InsnV>, opb: u8)
    requires
        u < 256,
        seq_byte_len(b) < 0x1_0000_0000,
        wf_code_seq(b),
        0 <= st,
        st + 6 + seq_byte_len(b) <= ed,
        ed <= bytes.len(),
        bytes.subrange(st, st + 6 + seq_byte_len(b)) == seq![opb, u as u8] + u32_le(
            seq_byte_len(b) as u32,
        ) + seq_encoding(b),
    ensures
        bytes[st] == opb,
        bytes[st + 1] as usize == u,
        u32_of_le(bytes[st + 2], bytes[st + 3], bytes[st + 4], bytes[st + 5]) == seq_byte_len(b),
        dec_insns(bytes, st + 6, st + 6 + seq_byte_len(b)) == Option::Some(b),
    decreases b, 1int,
{
    let l = seq_byte_len(b) as int;
    let n = seq_byte_len(b) as u32;
    let e = seq![opb, u as u8] + u32_le(n) + seq_encoding(b);
    let sub = bytes.subrange(st, st + 6 + l);
    lemma_seq_encoding_len(b);
    lemma_u32_le_round_trip(n);
    assert(sub[0] == bytes[st] && e[0] == opb);
    assert(sub[1] == bytes[st + 1] && e[1] == u as u8);
    assert(sub[2] == bytes[st + 2] && e[2] == u32_le(n)[0]);
    assert(sub[3] == bytes[st + 3] && e[3] == u32_le(n)[1]);
    assert(sub[4] == bytes[st + 4] && e[4] == u32_le(n)[2]);
    assert(sub[5] == bytes[st + 5] && e[5] == u32_le(n)[3]);
    assert((u as u8) as usize == u) by (bit_vector)
        requires
            u < 256,
    ;
    assert(bytes.subrange(st + 6, st + 6 + l) =~= seq_encoding(b)) by {
        assert(forall|j: int|
            0 <= j < l ==> #[trigger] bytes.subrange(st + 6, st + 6 + l)[j] == bytes[st + 6 + j]
                && sub[6 + j] == bytes[st + 6 + j] && e[6 + j] == seq_encoding(b)[j]);
    }
    lemma_dec_insns(bytes, st + 6, st + 6 + l, b);
}

/// Reading a serialized instruction sequence back yields that sequence.
proof fn lemma_dec_insns(bytes: Seq<u8>, st: int, ed: int, s: Seq<InsnV>)
    requires
        wf_code_seq(s),
        0 <= st,
        st + seq_byte_len(s) == ed,
        ed <= bytes.len(),
        bytes.subrange(st, ed) == seq_encoding(s),
    ensures
        dec_insns(bytes, st, ed) == Option::Some(s),
    decreases s, 0int,
{
    lemma_seq_encoding_len(s);
    if s.len() == 0 {
        assert(seq_byte_len(s) == 0);
        assert(dec_insns(bytes, st, ed) == Option::Some(Seq::<InsnV>::empty()));
        assert(s =~= Seq::<InsnV>::empty());
    } else {
        let hd = s[0];
        let tl = s.drop_first();
        lemma_encoding_len(hd);
        lemma_seq_encoding_len(tl);
        let hl = byte_len(hd) as int;
        assert(seq_encoding(s) =~= encoding(hd) + seq_encoding(tl));
        assert(forall|j: int|
            st <= j < ed ==> #[trigger] bytes[j] == seq_encoding(s)[j - st]) by {
            assert(forall|j: int|
                st <= j < ed ==> bytes.subrange(st, ed)[j - st] == #[trigger] bytes[j]);
        }
        assert(bytes.subrange(st, st + hl) =~= encoding(hd));
        lemma_dec_insn(bytes, st, ed, hd);
        assert(bytes.subrange(st + hl, ed) =~= seq_encoding(tl));
        lemma_byte_len_pos(hd);
        lemma_dec_insns(bytes, st + hl, ed, tl);
        assert(seq![hd] + tl =~= s);
    }
}

/// Reads the four little-endian bytes at `p`.
fn read_u32_le(bytes: &Vec<u8>, p: usize) -> (r: u32)
    requires
        p + 4 <= bytes@.len(),
    ensures
        r == u32_of_le(bytes@[p as int], bytes@[p + 1], bytes@[p + 2], bytes@[p + 3]),
{
    let n = bytes.len();
    (bytes[p] as u32) | ((bytes[p + 1] as u32) << 8) | ((bytes[p + 2] as u32) << 16) | ((bytes[p
        + 3] as u32) << 24)
}

/// Reads one instruction of the serialized form at `st`, staying inside
/// `[st, ed)`.
pub fn decode_insn(bytes: &Vec<u8>, st: usize, ed: usize) -> (r: Option<(Insn, usize)>)
    requires
        st <= ed,
        ed <= bytes@.len(),
    ensures
        match r {
            Option::Some((insn, nx)) => dec_insn(bytes@, st as int, ed as int) == Option::Some(
                (insn.deep(), nx as int),
            ) && st < nx <= ed,
            Option::None => dec_insn(bytes@, st as int, ed as int) is None,
        },
    decreases ed - st, 0int,
{
    if st >= ed {
        return Option::None;
    }
    let op = bytes[st];
    match op {
        0 => Option::Some((Insn::Nop, st + 1)),
        1 => Option::Some((Insn::Nil, st + 1)),
        4 => Option::Some((Insn::Add, st + 1)),
        5 => Option::Some((Insn::Mul, st + 1)),
        18 => Option::Some((Insn::SaveLast, st + 1)),
        23 => Option::Some((Insn::Return, st + 1)),
        25 => Option::Some((Insn::Exit, st + 1)),
        26 => Option::Some((Insn::Halt, st + 1)),
        3 => {
            if ed - st >= 2 && (bytes[st + 1] == 0 || bytes[st + 1] == 1) {
                Option::Some((Insn::Bool(bytes[st + 1] == 1), st + 2))
            } else {
                Option::None
            }
        },
        6 => {
            if ed - st >= 2 {
                Option::Some((Insn::Je8(#[verifier::truncate] (bytes[st + 1] as i8)), st + 2))
            } else {
                Option::None
            }
        },
        8 => {
            if ed - st >= 2 {
                Option::Some((Insn::J8(#[verifier::truncate] (bytes[st + 1] as i8)), st + 2))
            } else {
                Option::None
            }
        },
        10 => {
            if ed - st >= 2 {
                Option::Some((Insn::GetLocal(bytes[st + 1] as usize), st + 2))
            } else {
                Option::None
            }
        },
        11 => {
            if ed - st >= 2 {
                Option::Some((Insn::SetLocal(bytes[st + 1] as usize), st + 2))
            } else {
                Option::None
            }
        },
        14 => {
            if ed - st >= 2 {
                Option::Some((Insn::UpdateNode(bytes[st + 1] as usize), st + 2))
            } else {
                Option::None
            }
        },
        15 => {
            if ed - st >= 2 {
                Option::Some((Insn::GetNode(bytes[st + 1] as usize), st + 2))
            } else {
                Option::None
            }
        },
        16 => {
            if ed - st >= 2 {
                Option::Some((Insn::SetNode(bytes[st + 1] as usize), st + 2))
            } else {
                Option::None
            }
        },
        17 => {
            if ed - st >= 2 {
                Option::Some((Insn::GetLast(bytes[st + 1] as usize), st + 2))
            } else {
                Option::None
            }
        },
        24 => {
            if ed - st >= 2 {
                Option::Some((Insn::Call(bytes[st + 1] as usize), st + 2))
            } else {
                Option::None
            }
        },
        2 => {
            if ed - st >= 5 {
                Option::Some(
                    (Insn::Int(#[verifier::truncate] (read_u32_le(bytes, st + 1) as i32)), st + 5),
                )
            } else {
                Option::None
            }
        },
        7 => {
            if ed - st >= 5 {
                Option::Some(
                    (Insn::Je32(#[verifier::truncate] (read_u32_le(bytes, st + 1) as i32)), st + 5),
                )
            } else {
                Option::None
            }
        },
        9 => {
            if ed - st >= 5 {
                Option::Some(
                    (Insn::J32(#[verifier::truncate] (read_u32_le(bytes, st + 1) as i32)), st + 5),
                )
            } else {
                Option::None
            }
        },
        13 | 20 | 22 => {
            if ed - st >= 5 {
                let l = read_u32_le(bytes, st + 1) as usize;
                if l <= ed - st - 5 {
                    match decode_byte_code(bytes, st + 5, st + 5 + l) {
                        Option::Some(body) => {
                            let nx = st + 5 + l;
                            if op == 13 {
                                Option::Some((Insn::AllocNodeNew(body), nx))
                            } else if op == 20 {
                                Option::Some((Insn::AllocFuncNew(body), nx))
                            } else {
                                Option::Some((Insn::AllocDataNew(body), nx))
                            }
                        },
                        Option::None => Option::None,
                    }
                } else {
                    Option::None
                }
            } else {
                Option::None
            }
        },
        12 | 19 | 21 => {
            if ed - st >= 6 {
                let u = bytes[st + 1] as usize;
                let l = read_u32_le(bytes, st + 2) as usize;
                if l <= ed - st - 6 {
                    match decode_byte_code(bytes, st + 6, st + 6 + l) {
                        Option::Some(body) => {
                            let nx = st + 6 + l;
                            if op == 12 {
                                Option::Some((Insn::AllocNode(u, body), nx))
                            } else if op == 19 {
                                Option::Some((Insn::AllocFunc(u, body), nx))
                            } else {
                                Option::Some((Insn::AllocData(u, body), nx))
                            }
                        },
                        Option::None => Option::None,
                    }
                } else {
                    Option::None
                }
            } else {
                Option::None
            }
        },
        _ => Option::None,
    }
}

/// Reads the serialized instructions that fill `[st, ed)` exactly.
pub fn decode_byte_code(bytes: &Vec<u8>, st: usize, ed: usize) -> (r: Option<Vec<Insn>>)
    requires
        st <= ed,
        ed <= bytes@.len(),
    ensures
        match r {
            Option::Some(v) => dec_insns(bytes@, st as int, ed as int) == Option::Some(
                deep_code(v@),
            ),
            Option::None => dec_insns(bytes@, st as int, ed as int) is None,
        },
    decreases ed - st, 1int,
{
    let mut acc: Vec<Insn> = Vec::new();
    let mut pos: usize = st;
    proof {
        assert(deep_code(acc@) =~= Seq::<InsnV>::empty());
    }
    while pos < ed
        invariant
            st <= pos <= ed <= bytes@.len(),
            match dec_insns(bytes@, pos as int, ed as int) {
                Option::Some(rest) => dec_insns(bytes@, st as int, ed as int) == Option::Some(
                    deep_code(acc@) + rest,
                ),
                Option::None => dec_insns(bytes@, st as int, ed as int) is None,
            },
        decreases ed - pos,
    {
        let ghost acc0 = acc@;
        let ghost pos0 = pos as int;
        match decode_insn(bytes, pos, ed) {
            Option::Some((insn, nx)) => {
                proof {
                    lemma_deep_code_index(acc0);
                    lemma_deep_code_index(acc0.push(insn));
                    assert(deep_code(acc0.push(insn)) =~= deep_code(acc0) + seq![insn.deep()]);
                }
                acc.push(insn);
                pos = nx;
                proof {
                    assert(acc@ =~= acc0.push(insn));
                    match dec_insns(bytes@, pos as int, ed as int) {
                        Option::Some(rest) => {
                            assert(dec_insns(bytes@, pos0, ed as int) == Option::Some(
                                seq![insn.deep()] + rest,
                            ));
                            assert(deep_code(acc0) + (seq![insn.deep()] + rest) =~= deep_code(acc@)
                                + rest);
                        },
                        Option::None => {
                            assert(dec_insns(bytes@, pos0, ed as int) is None);
                        },
                    }
                }
            },
            Option::None => {
                proof {
                    assert(dec_insns(bytes@, pos as int, ed as int) is None);
                }
                return Option::None;
            },
        }
    }
    proof {
        assert(dec_insns(bytes@, pos as int, ed as int) == Option::Some(Seq::<InsnV>::empty()));
        assert(deep_code(acc@) + Seq::<InsnV>::empty() =~= deep_code(acc@));
    }
    Option::Some(acc)
}

/// Serialization round-trips: reading back the serialized form of a
/// well-formed instruction sequence yields exactly that sequence.
pub proof fn lemma_byte_code_round_trip(s: Seq<InsnV>)
    requires
        wf_code_seq(s),
    ensures
        dec_insns(seq_encoding(s), 0, seq_encoding(s).len() as int) == Option::Some(s),
{
    lemma_seq_encoding_len(s);
    let bytes = seq_encoding(s);
    assert(bytes.subrange(0, bytes.len() as int) =~= bytes);
    lemma_dec_insns(bytes, 0, bytes.len() as int, s);
}

} // verus!
