//! The compiler: from the abstract syntax of a submission to a two-phase
//! bytecode program.
//!
//! A submission of definitions is processed in passes. First every node name
//! is registered, so that update expressions may refer to nodes declared
//! later in the same submission; a resource bound caps how many nodes may
//! exist. Then each node's current-value dependency set and its symbolic
//! code (node references by registration index) are computed and stored.
//! The dependency sets are ordered topologically — a cycle among
//! current-value reads is a compile-time error — and the order gives each
//! node its slot. Finally the stored code is resolved, registration indices
//! becoming slots, and assembled: an initialization program that rebuilds
//! every slot in dependency order, and a cyclic update program that swaps
//! the tick tables and refreshes every slot in dependency order.
//!
//! A bare expression compiles directly to straight-line code ending in
//! `Exit`; it skips registration and ordering entirely.

use vstd::prelude::*;
use crate::ast::{Def, Exp, Id, Program, Term};
use crate::datastructure::List;
use crate::dependency::{
    SortResult, is_topo_order, is_cycle, lemma_nodup_len_bound, lemma_nodup_complete,
};
use crate::insn::{
    Insn, InsnV, byte_len, seq_byte_len, deep_code, lemma_deep_code_index, lemma_deep_code_push,
    lemma_deep_code_add,
    lemma_deep_code_update, lemma_seq_byte_len_add, spec_j, spec_je, bytecode_len,
};
use crate::machine::{flat_insn, lemma_flat_byte_len_bound};

verus! {

/// The most nodes a program may declare: a resource bound, not a semantic
/// one.
pub const MAX_NUMBER_OF_NODE: usize = 100;

/// The most instructions the compiler emits for one expression: a resource
/// bound that keeps every serialized jump offset well inside its 32-bit
/// encoding.
pub const MAX_CODE_LEN: usize = 0x0100_0000;

/// A node's slot: its position in the topologically sorted evaluation order,
/// which is also its index in the machine's node tables.
pub struct RuntimeNodeIndex(pub usize);

impl RuntimeNodeIndex {
    /// The slot as a plain index.
    pub fn i(&self) -> (r: usize)
        ensures
            r == self.0,
    {
        self.0
    }
}

/// What the compiler records per registered node: its name, the
/// registration indices of the nodes whose current value its update
/// expression reads, and its stored symbolic code.
struct NodeInfo {
    name: Id,
    pointed: List<usize>,
    init_code: Vec<Insn>,
    upd_code: Vec<Insn>,
}

/// The mathematical shape of a registered node.
#[verifier::ext_equal]
pub struct NodeInfoV {
    /// The node's name.
    pub name: Seq<char>,
    /// The registration indices the node's update expression reads.
    pub dep_list: Seq<usize>,
    /// Symbolic code for the initial value, one value on the stack.
    pub init_code: Seq<InsnV>,
    /// Symbolic code for the update formula, ending in `Return`.
    pub upd_code: Seq<InsnV>,
}

impl NodeInfo {
    spec fn deep(self) -> NodeInfoV {
        NodeInfoV {
            name: self.name@,
            dep_list: self.pointed@,
            init_code: deep_code(self.init_code@),
            upd_code: deep_code(self.upd_code@),
        }
    }
}

/// The mathematical shape of the registry.
pub open spec fn names_of(infos: Seq<NodeInfoV>) -> Seq<Seq<char>> {
    Seq::new(infos.len(), |i: int| infos[i].name)
}

/// The dependency table of the registry, as the sort consumes it.
pub open spec fn deps_of(infos: Seq<NodeInfoV>) -> Seq<Seq<usize>> {
    Seq::new(infos.len(), |i: int| infos[i].dep_list)
}

/// The index of the first occurrence of `x` among `names`.
pub open spec fn find_name(names: Seq<Seq<char>>, x: Seq<char>) -> Option<int>
    decreases names,
{
    if names.len() == 0 {
        Option::None
    } else if names[0] == x {
        Option::Some(0)
    } else {
        match find_name(names.drop_first(), x) {
            Option::Some(i) => Option::Some(i + 1),
            Option::None => Option::None,
        }
    }
}

/// What `find_name` finds: the first index holding `x`, if any.
pub proof fn lemma_find_name(names: Seq<Seq<char>>, x: Seq<char>)
    ensures
        match find_name(names, x) {
            Option::Some(i) => 0 <= i < names.len() && names[i] == x && (forall|j: int|
                0 <= j < i ==> #[trigger] names[j] != x),
            Option::None => forall|j: int| 0 <= j < names.len() ==> #[trigger] names[j] != x,
        },
    decreases names,
{
    if names.len() > 0 {
        lemma_find_name(names.drop_first(), x);
        if names[0] != x {
            assert(forall|j: int|
                1 <= j < names.len() ==> #[trigger] names[j] == names.drop_first()[j - 1]);
        }
    }
}

/// A first occurrence is what `find_name` finds.
pub proof fn lemma_find_name_witness(names: Seq<Seq<char>>, x: Seq<char>, w: int)
    requires
        0 <= w < names.len(),
        names[w] == x,
        forall|j: int| 0 <= j < w ==> #[trigger] names[j] != x,
    ensures
        find_name(names, x) == Option::Some(w),
    decreases names,
{
    if w > 0 {
        assert(forall|j: int|
            0 <= j < names.drop_first().len() ==> #[trigger] names.drop_first()[j] == names[j + 1]);
        lemma_find_name_witness(names.drop_first(), x, w - 1);
    }
}

/// The symbolic code of a term: operands left to right, then the operator.
/// An identifier resolves innermost-first among the local parameters, then
/// among the registered nodes; a previous-tick read resolves among the
/// nodes alone. Nothing is emitted — the result is absent — where a name
/// resolves to neither, or for a call, which this compiler does not emit.
pub open spec fn emit_term(t: Term, locals: Seq<Seq<char>>, nodes: Seq<Seq<char>>) -> Option<
    Seq<InsnV>,
>
    decreases t,
{
    match t {
        Term::Mul(t1, t2) => match (emit_term(*t1, locals, nodes), emit_term(*t2, locals, nodes)) {
            (Option::Some(a), Option::Some(b)) => Option::Some(a + b + seq![InsnV::Mul]),
            _ => Option::None,
        },
        Term::Int(i) => Option::Some(seq![InsnV::Int(i)]),
        Term::FnCall(_, _) => Option::None,
        Term::Bool(b) => Option::Some(seq![InsnV::Bool(b)]),
        Term::Last(id) => match find_name(nodes, id@) {
            Option::Some(i) => Option::Some(seq![InsnV::GetLast(i as usize)]),
            Option::None => Option::None,
        },
        Term::Id(id) => match find_name(locals, id@) {
            Option::Some(i) => Option::Some(seq![InsnV::GetLocal(i as usize)]),
            Option::None => match find_name(nodes, id@) {
                Option::Some(i) => Option::Some(seq![InsnV::GetNode(i as usize)]),
                Option::None => Option::None,
            },
        },
    }
}

/// The symbolic code of an expression. A conditional emits its condition, a
/// conditional branch, the first branch's code, an unconditional jump, then
/// the second branch's code; both jumps carry the byte length of the region
/// they skip, in the narrowest encoding that holds it.
pub open spec fn emit_exp(e: Exp, locals: Seq<Seq<char>>, nodes: Seq<Seq<char>>) -> Option<
    Seq<InsnV>,
>
    decreases e,
{
    match e {
        Exp::Term(t) => emit_term(*t, locals, nodes),
        Exp::Add(e1, t) => match (emit_exp(*e1, locals, nodes), emit_term(*t, locals, nodes)) {
            (Option::Some(a), Option::Some(b)) => Option::Some(a + b + seq![InsnV::Add]),
            _ => Option::None,
        },
        Exp::If { cond, then_e, else_e } => match (
            emit_exp(*cond, locals, nodes),
            emit_exp(*then_e, locals, nodes),
            emit_exp(*else_e, locals, nodes),
        ) {
            (Option::Some(cc), Option::Some(ca), Option::Some(cb)) => {
                let cj = spec_j(seq_byte_len(cb) as i32);
                let je = spec_je((seq_byte_len(ca) + byte_len(cj)) as i32);
                Option::Some(cc + seq![je] + ca + seq![cj] + cb)
            },
            _ => Option::None,
        },
    }
}

/// The registration indices of the nodes whose current value a term reads.
/// A previous-tick read creates no dependency; an unregistered name creates
/// none either.
pub open spec fn deps_of_term(t: Term, nodes: Seq<Seq<char>>) -> Set<usize>
    decreases t,
{
    match t {
        Term::Mul(t1, t2) => deps_of_term(*t1, nodes).union(deps_of_term(*t2, nodes)),
        Term::Int(_) => Set::empty(),
        Term::FnCall(_, args) => deps_of_exps(args@, nodes),
        Term::Bool(_) => Set::empty(),
        Term::Last(_) => Set::empty(),
        Term::Id(id) => match find_name(nodes, id@) {
            Option::Some(i) => Set::empty().insert(i as usize),
            Option::None => Set::empty(),
        },
    }
}

/// The dependencies of a sequence of expressions, together.
pub open spec fn deps_of_exps(s: Seq<Exp>, nodes: Seq<Seq<char>>) -> Set<usize>
    decreases s,
{
    if s.len() == 0 {
        Set::empty()
    } else {
        deps_of_exp(s[0], nodes).union(deps_of_exps(s.drop_first(), nodes))
    }
}

/// The registration indices of the nodes whose current value an expression
/// reads.
pub open spec fn deps_of_exp(e: Exp, nodes: Seq<Seq<char>>) -> Set<usize>
    decreases e,
{
    match e {
        Exp::If { cond, then_e, else_e } => deps_of_exp(*cond, nodes).union(
            deps_of_exp(*then_e, nodes),
        ).union(deps_of_exp(*else_e, nodes)),
        Exp::Add(e1, t) => deps_of_exp(*e1, nodes).union(deps_of_term(*t, nodes)),
        Exp::Term(t) => deps_of_term(*t, nodes),
    }
}

/// `d` prepended to an accumulated dependency list, unless already there.
pub open spec fn add_dep(acc: Seq<usize>, d: usize) -> Seq<usize> {
    if acc.contains(d) {
        acc
    } else {
        seq![d] + acc
    }
}

/// A term's dependencies accumulated onto `acc`, operands left to right.
pub open spec fn dep_acc_term(t: Term, nodes: Seq<Seq<char>>, acc: Seq<usize>) -> Seq<usize>
    decreases t,
{
    match t {
        Term::Mul(t1, t2) => dep_acc_term(*t2, nodes, dep_acc_term(*t1, nodes, acc)),
        Term::Int(_) => acc,
        Term::FnCall(_, args) => dep_acc_exps(args@, nodes, acc),
        Term::Bool(_) => acc,
        Term::Last(_) => acc,
        Term::Id(id) => match find_name(nodes, id@) {
            Option::Some(i) => add_dep(acc, i as usize),
            Option::None => acc,
        },
    }
}

/// The dependencies of a sequence of expressions accumulated onto `acc`.
pub open spec fn dep_acc_exps(s: Seq<Exp>, nodes: Seq<Seq<char>>, acc: Seq<usize>) -> Seq<usize>
    decreases s,
{
    if s.len() == 0 {
        acc
    } else {
        dep_acc_exps(s.drop_first(), nodes, dep_acc_exp(s[0], nodes, acc))
    }
}

/// An expression's dependencies accumulated onto `acc`.
pub open spec fn dep_acc_exp(e: Exp, nodes: Seq<Seq<char>>, acc: Seq<usize>) -> Seq<usize>
    decreases e,
{
    match e {
        Exp::If { cond, then_e, else_e } => dep_acc_exp(
            *else_e,
            nodes,
            dep_acc_exp(*then_e, nodes, dep_acc_exp(*cond, nodes, acc)),
        ),
        Exp::Add(e1, t) => dep_acc_term(*t, nodes, dep_acc_exp(*e1, nodes, acc)),
        Exp::Term(t) => dep_acc_term(*t, nodes, acc),
    }
}

/// A well-formed accumulated dependency list over `n` nodes.
pub open spec fn wf_acc(acc: Seq<usize>, n: int) -> bool {
    acc.no_duplicates() && (forall|p: int| 0 <= p < acc.len() ==> #[trigger] acc[p] < n)
}

/// Accumulating a term's dependencies keeps the list well formed and makes
/// it hold exactly the old entries and the term's dependency set.
pub proof fn lemma_dep_acc_term(t: Term, nodes: Seq<Seq<char>>, acc: Seq<usize>)
    requires
        wf_acc(acc, nodes.len() as int),
    ensures
        wf_acc(dep_acc_term(t, nodes, acc), nodes.len() as int),
        forall|d: usize|
            #[trigger] dep_acc_term(t, nodes, acc).contains(d) <==> (acc.contains(d)
                || deps_of_term(t, nodes).contains(d)),
    decreases t,
{
    match t {
        Term::Mul(t1, t2) => {
            lemma_dep_acc_term(*t1, nodes, acc);
            lemma_dep_acc_term(*t2, nodes, dep_acc_term(*t1, nodes, acc));
        },
        Term::FnCall(_, args) => {
            lemma_dep_acc_exps(args@, nodes, acc);
        },
        Term::Id(id) => {
            match find_name(nodes, id@) {
                Option::Some(i) => {
                    lemma_find_name(nodes, id@);
                    let d0 = i as usize;
                    if !acc.contains(d0) {
                        let r = seq![d0] + acc;
                        assert(r[0] == d0);
                        assert(forall|p: int| 1 <= p < r.len() ==> #[trigger] r[p] == acc[p - 1]);
                        assert(r.no_duplicates());
                        assert forall|d: usize| #[trigger] r.contains(d) implies (acc.contains(d)
                            || d == d0) by {
                            let p = choose|p: int| 0 <= p < r.len() && r[p] == d;
                            if p > 0 {
                                assert(acc[p - 1] == d);
                            }
                        }
                        assert forall|d: usize| acc.contains(d) implies r.contains(d) by {
                            let p = choose|p: int| 0 <= p < acc.len() && acc[p] == d;
                            assert(r[p + 1] == d);
                        }
                    }
                },
                Option::None => {},
            }
        },
        _ => {},
    }
}

/// Accumulating several expressions' dependencies, likewise.
pub proof fn lemma_dep_acc_exps(s: Seq<Exp>, nodes: Seq<Seq<char>>, acc: Seq<usize>)
    requires
        wf_acc(acc, nodes.len() as int),
    ensures
        wf_acc(dep_acc_exps(s, nodes, acc), nodes.len() as int),
        forall|d: usize|
            #[trigger] dep_acc_exps(s, nodes, acc).contains(d) <==> (acc.contains(d)
                || deps_of_exps(s, nodes).contains(d)),
    decreases s,
{
    if s.len() > 0 {
        lemma_dep_acc_exp(s[0], nodes, acc);
        lemma_dep_acc_exps(s.drop_first(), nodes, dep_acc_exp(s[0], nodes, acc));
    }
}

/// Accumulating an expression's dependencies, likewise.
pub proof fn lemma_dep_acc_exp(e: Exp, nodes: Seq<Seq<char>>, acc: Seq<usize>)
    requires
        wf_acc(acc, nodes.len() as int),
    ensures
        wf_acc(dep_acc_exp(e, nodes, acc), nodes.len() as int),
        forall|d: usize|
            #[trigger] dep_acc_exp(e, nodes, acc).contains(d) <==> (acc.contains(d)
                || deps_of_exp(e, nodes).contains(d)),
    decreases e,
{
    match e {
        Exp::If { cond, then_e, else_e } => {
            lemma_dep_acc_exp(*cond, nodes, acc);
            lemma_dep_acc_exp(*then_e, nodes, dep_acc_exp(*cond, nodes, acc));
            lemma_dep_acc_exp(
                *else_e,
                nodes,
                dep_acc_exp(*then_e, nodes, dep_acc_exp(*cond, nodes, acc)),
            );
        },
        Exp::Add(e1, t) => {
            lemma_dep_acc_exp(*e1, nodes, acc);
            lemma_dep_acc_term(*t, nodes, dep_acc_exp(*e1, nodes, acc));
        },
        Exp::Term(t) => {
            lemma_dep_acc_term(*t, nodes, acc);
        },
    }
}

/// Well-formed stored code over `n` registered nodes: straight-line
/// instructions whose node references stay in range.
pub open spec fn code_wf(code: Seq<InsnV>, n: int) -> bool {
    forall|k: int|
        0 <= k < code.len() ==> flat_insn(#[trigger] code[k]) && (match code[k] {
            InsnV::GetNode(u) => u < n,
            InsnV::GetLast(u) => u < n,
            InsnV::UpdateNode(u) => u < n,
            InsnV::SetNode(u) => u < n,
            _ => true,
        })
}

/// Emitted term code is well formed over the node table it was emitted
/// against.
pub proof fn lemma_emit_term_wf(t: Term, locals: Seq<Seq<char>>, nodes: Seq<Seq<char>>)
    ensures
        match emit_term(t, locals, nodes) {
            Option::Some(code) => code_wf(code, nodes.len() as int),
            Option::None => true,
        },
    decreases t,
{
    match t {
        Term::Mul(t1, t2) => {
            lemma_emit_term_wf(*t1, locals, nodes);
            lemma_emit_term_wf(*t2, locals, nodes);
        },
        Term::Last(id) => {
            lemma_find_name(nodes, id@);
        },
        Term::Id(id) => {
            lemma_find_name(locals, id@);
            lemma_find_name(nodes, id@);
        },
        _ => {},
    }
}

/// Emitted expression code is well formed over the node table it was
/// emitted against.
pub proof fn lemma_emit_exp_wf(e: Exp, locals: Seq<Seq<char>>, nodes: Seq<Seq<char>>)
    ensures
        match emit_exp(e, locals, nodes) {
            Option::Some(code) => code_wf(code, nodes.len() as int),
            Option::None => true,
        },
    decreases e,
{
    match e {
        Exp::Term(t) => {
            lemma_emit_term_wf(*t, locals, nodes);
        },
        Exp::Add(e1, t) => {
            lemma_emit_exp_wf(*e1, locals, nodes);
            lemma_emit_term_wf(*t, locals, nodes);
        },
        Exp::If { cond, then_e, else_e } => {
            lemma_emit_exp_wf(*cond, locals, nodes);
            lemma_emit_exp_wf(*then_e, locals, nodes);
            lemma_emit_exp_wf(*else_e, locals, nodes);
        },
    }
}

/// The definitions a submission carries.
pub open spec fn prog_defs(p: Program) -> Seq<Def> {
    match p {
        Program::Defs(v) => v@,
        Program::Def(d) => seq![d],
        Program::Exp(_) => Seq::empty(),
    }
}

/// A freshly registered node: its name, and nothing else yet.
pub open spec fn blank_info(nm: Seq<char>) -> NodeInfoV {
    NodeInfoV {
        name: nm,
        dep_list: Seq::empty(),
        init_code: Seq::empty(),
        upd_code: Seq::empty(),
    }
}

/// Registering one definition: a node definition with a fresh name appends
/// a blank entry; anything else changes nothing.
pub open spec fn reg_one(infos: Seq<NodeInfoV>, d: Def) -> Seq<NodeInfoV> {
    match d {
        Def::Node { name, .. } => {
            if find_name(names_of(infos), name@) is Some {
                infos
            } else {
                infos.push(blank_info(name@))
            }
        },
        _ => infos,
    }
}

/// Registering a submission's definitions in order.
pub open spec fn reg_infos(infos: Seq<NodeInfoV>, defs: Seq<Def>) -> Seq<NodeInfoV>
    decreases defs,
{
    if defs.len() == 0 {
        infos
    } else {
        reg_infos(reg_one(infos, defs[0]), defs.drop_first())
    }
}

/// Registration splits over concatenation.
pub proof fn lemma_reg_infos_concat(infos: Seq<NodeInfoV>, a: Seq<Def>, b: Seq<Def>)
    ensures
        reg_infos(infos, a + b) == reg_infos(reg_infos(infos, a), b),
    decreases a,
{
    if a.len() == 0 {
        assert(a + b =~= b);
    } else {
        assert((a + b)[0] == a[0]);
        assert((a + b).drop_first() =~= a.drop_first() + b);
        lemma_reg_infos_concat(reg_one(infos, a[0]), a.drop_first(), b);
    }
}

/// The second pass over one definition: for a node, compute its dependency
/// set and compile its initial-value and update code against the full name
/// table, and store all three at its entry. Nothing happens for data and
/// function definitions, which stand outside the compiled scope. The result
/// is absent where a name fails to resolve or compiled code outgrows the
/// emission bound.
pub open spec fn upd_one(infos: Seq<NodeInfoV>, d: Def) -> Option<Seq<NodeInfoV>> {
    match d {
        Def::Node { name, init, val } => {
            let names = names_of(infos);
            match find_name(names, name@) {
                Option::Some(i) => {
                    let ic = match init {
                        Option::Some(e) => emit_exp(e, Seq::empty(), names),
                        Option::None => Option::Some(seq![InsnV::Nil]),
                    };
                    match (ic, emit_exp(val, Seq::empty(), names)) {
                        (Option::Some(icode), Option::Some(ucode)) => {
                            if icode.len() <= MAX_CODE_LEN && ucode.len() <= MAX_CODE_LEN {
                                Option::Some(
                                    infos.update(
                                        i,
                                        NodeInfoV {
                                            name: infos[i].name,
                                            dep_list: dep_acc_exp(val, names, Seq::empty()),
                                            init_code: icode,
                                            upd_code: ucode.push(InsnV::Return),
                                        },
                                    ),
                                )
                            } else {
                                Option::None
                            }
                        },
                        _ => Option::None,
                    }
                },
                Option::None => Option::None,
            }
        },
        _ => Option::Some(infos),
    }
}

/// The second pass over a submission's definitions in order.
pub open spec fn upd_infos(infos: Seq<NodeInfoV>, defs: Seq<Def>) -> Option<Seq<NodeInfoV>>
    decreases defs,
{
    if defs.len() == 0 {
        Option::Some(infos)
    } else {
        match upd_one(infos, defs[0]) {
            Option::Some(infos2) => upd_infos(infos2, defs.drop_first()),
            Option::None => Option::None,
        }
    }
}

/// The second pass splits over concatenation.
pub proof fn lemma_upd_infos_concat(infos: Seq<NodeInfoV>, a: Seq<Def>, b: Seq<Def>)
    ensures
        upd_infos(infos, a + b) == (match upd_infos(infos, a) {
            Option::Some(infos2) => upd_infos(infos2, b),
            Option::None => Option::None,
        }),
    decreases a,
{
    if a.len() == 0 {
        assert(a + b =~= b);
    } else {
        assert((a + b)[0] == a[0]);
        assert((a + b).drop_first() =~= a.drop_first() + b);
        match upd_one(infos, a[0]) {
            Option::Some(infos2) => {
                lemma_upd_infos_concat(infos2, a.drop_first(), b);
            },
            Option::None => {},
        }
    }
}

/// A symbolic instruction with its node references turned into slots.
pub open spec fn resolve_insn(i: InsnV, slots: Seq<usize>) -> InsnV {
    match i {
        InsnV::GetNode(u) => if u < slots.len() {
            InsnV::GetNode(slots[u as int])
        } else {
            i
        },
        InsnV::GetLast(u) => if u < slots.len() {
            InsnV::GetLast(slots[u as int])
        } else {
            i
        },
        InsnV::UpdateNode(u) => if u < slots.len() {
            InsnV::UpdateNode(slots[u as int])
        } else {
            i
        },
        InsnV::SetNode(u) => if u < slots.len() {
            InsnV::SetNode(slots[u as int])
        } else {
            i
        },
        _ => i,
    }
}

/// Stored code with its node references turned into slots.
pub open spec fn resolve_codev(s: Seq<InsnV>, slots: Seq<usize>) -> Seq<InsnV> {
    Seq::new(s.len(), |k: int| resolve_insn(s[k], slots))
}

/// The update-program body: each slot's update pair, in slot order.
pub open spec fn upd_pairs(n: nat) -> Seq<InsnV>
    decreases n,
{
    if n == 0 {
        Seq::empty()
    } else {
        upd_pairs((n - 1) as nat) + seq![
            InsnV::UpdateNode((n - 1) as usize),
            InsnV::SetNode((n - 1) as usize),
        ]
    }
}

/// The cyclic update program over `n` slots: swap the tick tables once,
/// then refresh every slot in slot order, then end the pass.
pub open spec fn upd_program(n: nat) -> Seq<InsnV> {
    seq![InsnV::SaveLast] + upd_pairs(n) + seq![InsnV::Halt]
}

/// The first `k` nodes' initialization blocks, in evaluation order: each
/// node's resolved initial-value code, then the allocation instruction that
/// binds the value to the next slot and carries the node's resolved update
/// code.
pub open spec fn init_blocks(
    infos: Seq<NodeInfoV>,
    ord: Seq<usize>,
    slots: Seq<usize>,
    k: nat,
) -> Seq<InsnV>
    decreases k,
{
    if k == 0 {
        Seq::empty()
    } else {
        let nd = ord[k - 1] as int;
        init_blocks(infos, ord, slots, (k - 1) as nat) + resolve_codev(infos[nd].init_code, slots)
            + seq![InsnV::AllocNodeNew(resolve_codev(infos[nd].upd_code, slots))]
    }
}

/// The one-shot initialization program: every node's block in evaluation
/// order, then the end of the pass.
pub open spec fn init_program(infos: Seq<NodeInfoV>, ord: Seq<usize>, slots: Seq<usize>) -> Seq<
    InsnV,
> {
    init_blocks(infos, ord, slots, ord.len()) + seq![InsnV::Halt]
}

/// `slots` inverts `ord`: a node's slot is its position in the evaluation
/// order.
pub open spec fn slots_invert(ord: Seq<usize>, slots: Seq<usize>) -> bool {
    slots.len() == ord.len() && (forall|p: int|
        0 <= p < ord.len() ==> #[trigger] slots[ord[p] as int] == p)
}

/// The compiler: a scratch buffer for the code being emitted, the registry
/// of nodes, and the local-parameter table (empty until named functions are
/// compiled).
pub struct Compiler {
    codes: Vec<Insn>,
    node_info: Vec<NodeInfo>,
    symbol_table: Vec<Id>,
}

/// A compile-time error. Compilation is all-or-nothing per submission: no
/// partial program is ever handed to the machine.
#[derive(Debug)]
pub enum CompileErr {
    /// A referenced name resolves to neither a local parameter nor a node.
    IdNotFound(Id),
    /// The current-value dependencies contain a cycle; the named nodes are
    /// those caught in or behind it.
    CircularRef(Vec<Id>),
    /// The submission declares more nodes than the machine provisions for.
    TooManyNodes,
    /// One expression's code outgrew the emission bound.
    CodeTooLong,
}

/// A compiled program: a definitions program in its two sections, or a
/// single expression's code.
pub enum CompiledCode {
    DefNode { init: Vec<Insn>, upd: Vec<Insn> },
    Exp(Vec<Insn>),
}

impl Compiler {
    /// The registry's mathematical shape.
    pub closed spec fn infos(self) -> Seq<NodeInfoV> {
        Seq::new(self.node_info@.len(), |i: int| self.node_info@[i].deep())
    }

    /// The scratch buffer's mathematical shape.
    pub closed spec fn scratch(self) -> Seq<InsnV> {
        deep_code(self.codes@)
    }

    /// The local-parameter table's mathematical shape.
    pub closed spec fn locals(self) -> Seq<Seq<char>> {
        Seq::new(self.symbol_table@.len(), |i: int| self.symbol_table@[i]@)
    }

    /// The compiler's representation invariant: the scratch buffer stays
    /// under the emission bound and holds only straight-line instructions,
    /// registered names are distinct, and every stored dependency set holds
    /// distinct registered indices.
    pub closed spec fn wf(self) -> bool {
        &&& self.codes@.len() <= MAX_CODE_LEN
        &&& forall|k: int| 0 <= k < self.scratch().len() ==> flat_insn(#[trigger] self.scratch()[k])
        &&& forall|i: int, j: int|
            #![trigger names_of(self.infos())[i], names_of(self.infos())[j]]
            0 <= i < j < self.infos().len() ==> names_of(self.infos())[i] != names_of(
                self.infos(),
            )[j]
        &&& forall|i: int|
            0 <= i < self.infos().len() ==> (#[trigger] self.infos()[i].dep_list).no_duplicates()
                && (forall|j: int|
                0 <= j < self.infos()[i].dep_list.len() ==> #[trigger] self.infos()[i].dep_list[j]
                    < self.infos().len())
        &&& forall|i: int|
            0 <= i < self.infos().len() ==> code_wf(
                (#[trigger] self.infos()[i]).init_code,
                self.infos().len() as int,
            ) && code_wf(self.infos()[i].upd_code, self.infos().len() as int)
    }

    /// A fresh compiler: nothing registered, nothing emitted.
    pub fn new() -> (r: Self)
        ensures
            r.wf(),
            r.infos() == Seq::<NodeInfoV>::empty(),
            r.scratch() == Seq::<InsnV>::empty(),
            r.locals() == Seq::<Seq<char>>::empty(),
    {
        let r = Compiler { codes: vec![], node_info: vec![], symbol_table: vec![] };
        proof {
            assert(r.infos() =~= Seq::<NodeInfoV>::empty());
            assert(r.scratch() =~= Seq::<InsnV>::empty());
            assert(r.locals() =~= Seq::<Seq<char>>::empty());
        }
        r
    }

    /// The registration index of the node called `name`, if registered.
    fn node_offset(&self, name: &Id) -> (r: Option<usize>)
        ensures
            match r {
                Option::Some(u) => find_name(names_of(self.infos()), name@) == Option::Some(
                    u as int,
                ) && u < self.infos().len(),
                Option::None => find_name(names_of(self.infos()), name@) is None,
            },
    {
        proof {
            lemma_find_name(names_of(self.infos()), name@);
        }
        let n = self.node_info.len();
        let mut i: usize = 0;
        while i < n
            invariant
                n == self.node_info@.len(),
                i <= n,
                forall|j: int| 0 <= j < i ==> #[trigger] names_of(self.infos())[j] != name@,
            decreases n - i,
        {
            if name.eq(&self.node_info[i].name) {
                proof {
                    assert(names_of(self.infos())[i as int] == name@);
                    lemma_find_name_witness(names_of(self.infos()), name@, i as int);
                }
                return Option::Some(i);
            }
            proof {
                assert(names_of(self.infos())[i as int] == self.node_info@[i as int].name@);
            }
            i = i + 1;
        }
        proof {
            lemma_find_name(names_of(self.infos()), name@);
        }
        Option::None
    }

    /// Appends one instruction to the scratch buffer, refusing to outgrow
    /// the emission bound.
    pub fn push_insn(&mut self, insn: Insn) -> (r: Result<(), CompileErr>)
        requires
            old(self).wf(),
            flat_insn(insn.deep()),
        ensures
            final(self).wf(),
            final(self).infos() == old(self).infos(),
            final(self).locals() == old(self).locals(),
            old(self).scratch().len() < MAX_CODE_LEN ==> r is Ok && final(self).scratch() == old(
                self,
            ).scratch().push(insn.deep()),
            old(self).scratch().len() >= MAX_CODE_LEN ==> (r matches Err(CompileErr::CodeTooLong))
                && final(self).scratch() == old(self).scratch(),
    {
        proof {
            lemma_deep_code_index(self.codes@);
        }
        if self.codes.len() < MAX_CODE_LEN {
            proof {
                lemma_deep_code_push(self.codes@, insn);
                lemma_deep_code_index(self.codes@.push(insn));
            }
            self.codes.push(insn);
            proof {
                assert(self.infos() =~= old(self).infos());
                assert(self.locals() =~= old(self).locals());
                assert(self.scratch() =~= old(self).scratch().push(insn.deep()));
            }
            Ok(())
        } else {
            proof {
                assert(self.infos() =~= old(self).infos());
                assert(self.locals() =~= old(self).locals());
            }
            Err(CompileErr::CodeTooLong)
        }
    }
}

/// The innermost local parameter called `id`, if any is bound.
fn find_local(c: &Compiler, id: &Id) -> (r: Option<usize>)
    ensures
        match find_name(c.locals(), id@) {
            Option::Some(i) => r == Option::Some(i as usize),
            Option::None => r is None,
        },
{
    let n = c.symbol_table.len();
    let mut i: usize = 0;
    while i < n
        invariant
            n == c.symbol_table@.len(),
            i <= n,
            forall|j: int| 0 <= j < i ==> #[trigger] c.locals()[j] != id@,
        decreases n - i,
    {
        if id.eq(&c.symbol_table[i]) {
            proof {
                assert(c.locals()[i as int] == id@);
                lemma_find_name_witness(c.locals(), id@, i as int);
            }
            return Option::Some(i);
        }
        proof {
            assert(c.locals()[i as int] == c.symbol_table@[i as int]@);
        }
        i = i + 1;
    }
    proof {
        lemma_find_name(c.locals(), id@);
    }
    Option::None
}

impl Exp {
    /// Emits this expression's symbolic code into the compiler's scratch
    /// buffer: exactly [`emit_exp`], or the error that stopped emission.
    #[verifier::rlimit(100)]
    pub fn emit_code(&self, c: &mut Compiler) -> (r: Result<(), CompileErr>)
        requires
            old(c).wf(),
        ensures
            final(c).wf(),
            final(c).infos() == old(c).infos(),
            final(c).locals() == old(c).locals(),
            match emit_exp(*self, old(c).locals(), names_of(old(c).infos())) {
                Option::Some(code) => {
                    &&& (r is Ok <==> old(c).scratch().len() + code.len() <= MAX_CODE_LEN)
                    &&& (r is Ok ==> final(c).scratch() == old(c).scratch() + code)
                    &&& (r is Err ==> r matches Err(CompileErr::CodeTooLong))
                },
                Option::None => r is Err && (r matches Err(CompileErr::IdNotFound(_)) || r matches
                    Err(CompileErr::CodeTooLong)),
            },
        decreases *self,
    {
        let ghost locals = old(c).locals();
        let ghost names = names_of(old(c).infos());
        let ghost s0 = old(c).scratch();
        match self {
            Exp::Term(t) => t.emit_code(c),
            Exp::Add(e1, t) => {
                match e1.emit_code(c) {
                    Ok(()) => {},
                    Err(e) => {
                        return Err(e);
                    },
                }
                match t.emit_code(c) {
                    Ok(()) => {},
                    Err(e) => {
                        return Err(e);
                    },
                }
                match c.push_insn(Insn::Add) {
                    Ok(()) => {},
                    Err(e) => {
                        return Err(e);
                    },
                }
                proof {
                    let a = emit_exp(**e1, locals, names).unwrap();
                    let b = emit_term(**t, locals, names).unwrap();
                    assert(c.scratch() =~= s0 + (a + b + seq![InsnV::Add]));
                }
                Ok(())
            },
            Exp::If { cond, then_e, else_e } => {
                match cond.emit_code(c) {
                    Ok(()) => {},
                    Err(e) => {
                        return Err(e);
                    },
                }
                let a = c.codes.len();
                proof {
                    lemma_deep_code_index(c.codes@);
                    assert(a == c.scratch().len());
                }
                match c.push_insn(Insn::Placeholder) {
                    Ok(()) => {},
                    Err(e) => {
                        return Err(e);
                    },
                }
                match then_e.emit_code(c) {
                    Ok(()) => {},
                    Err(e) => {
                        return Err(e);
                    },
                }
                let b = c.codes.len();
                proof {
                    lemma_deep_code_index(c.codes@);
                    assert(b == c.scratch().len());
                }
                match c.push_insn(Insn::Placeholder) {
                    Ok(()) => {},
                    Err(e) => {
                        return Err(e);
                    },
                }
                match else_e.emit_code(c) {
                    Ok(()) => {},
                    Err(e) => {
                        return Err(e);
                    },
                }
                let end = c.codes.len();
                let ghost cc = emit_exp(**cond, locals, names).unwrap();
                let ghost ca = emit_exp(**then_e, locals, names).unwrap();
                let ghost cb = emit_exp(**else_e, locals, names).unwrap();
                proof {
                    lemma_deep_code_index(c.codes@);
                    assert(end == c.scratch().len());
                    assert(c.scratch() =~= s0 + cc + seq![InsnV::Placeholder] + ca + seq![InsnV::Placeholder] + cb);
                    assert(c.scratch().subrange(b + 1, end as int) =~= cb);
                    assert(forall|k: int|
                        0 <= k < cb.len() ==> flat_insn(#[trigger] cb[k])) by {
                        assert(forall|k: int|
                            0 <= k < cb.len() ==> cb[k] == c.scratch()[b + 1 + k]);
                    }
                    lemma_flat_byte_len_bound(cb);
                    assert(deep_code(c.codes@.subrange(b + 1, end as int)) =~= c.scratch().subrange(
                        b + 1,
                        end as int,
                    )) by {
                        lemma_deep_code_index(c.codes@);
                        lemma_deep_code_index(c.codes@.subrange(b + 1, end as int));
                    }
                }
                let oj = bytecode_len(b + 1, end, &c.codes);
                let ghost s5 = c.scratch();
                let cj = Insn::j(#[verifier::truncate] (oj as i32));
                proof {
                    assert(cj.deep() == spec_j(seq_byte_len(cb) as i32));
                    lemma_deep_code_update(c.codes@, b as int, cj);
                }
                c.codes.set(b, cj);
                let ghost s6 = c.scratch();
                proof {
                    lemma_deep_code_index(c.codes@);
                    assert(s6 =~= s5.update(b as int, spec_j(seq_byte_len(cb) as i32)));
                    assert(c.scratch().subrange(a + 1, b + 1) =~= ca.push(
                        spec_j(seq_byte_len(cb) as i32),
                    ));
                    assert(forall|k: int|
                        0 <= k < ca.len() ==> flat_insn(#[trigger] ca[k])) by {
                        assert(forall|k: int| 0 <= k < ca.len() ==> ca[k] == s6[a + 1 + k]);
                    }
                    lemma_flat_byte_len_bound(ca.push(spec_j(seq_byte_len(cb) as i32)));
                    assert(deep_code(c.codes@.subrange(a + 1, b + 1)) =~= c.scratch().subrange(
                        a + 1,
                        b + 1,
                    )) by {
                        lemma_deep_code_index(c.codes@);
                        lemma_deep_code_index(c.codes@.subrange(a + 1, b + 1));
                    }
                    assert(seq_byte_len(ca.push(spec_j(seq_byte_len(cb) as i32))) == seq_byte_len(
                        ca,
                    ) + byte_len(spec_j(seq_byte_len(cb) as i32))) by {
                        let cjv = spec_j(seq_byte_len(cb) as i32);
                        assert(ca.push(cjv) =~= ca + seq![cjv]);
                        lemma_seq_byte_len_add(ca, seq![cjv]);
                        assert(seq![cjv].drop_first() =~= Seq::<InsnV>::empty());
                        assert(seq_byte_len(Seq::<InsnV>::empty()) == 0);
                        assert(seq_byte_len(seq![cjv]) == byte_len(cjv));
                    }
                }
                let oje = bytecode_len(a + 1, b + 1, &c.codes);
                let cje = Insn::je(#[verifier::truncate] (oje as i32));
                proof {
                    let cjv = spec_j(seq_byte_len(cb) as i32);
                    assert(cje.deep() == spec_je((seq_byte_len(ca) + byte_len(cjv)) as i32));
                    lemma_deep_code_update(c.codes@, a as int, cje);
                }
                c.codes.set(a, cje);
                proof {
                    let cjv = spec_j(seq_byte_len(cb) as i32);
                    let cjev = spec_je((seq_byte_len(ca) + byte_len(cjv)) as i32);
                    lemma_deep_code_index(c.codes@);
                    assert(c.scratch() =~= s6.update(a as int, cjev));
                    assert(c.scratch() =~= s0 + (cc + seq![cjev] + ca + seq![cjv] + cb));
                    assert(c.infos() =~= old(c).infos());
                    assert(c.locals() =~= old(c).locals());
                }
                Ok(())
            },
        }
    }
}

impl Term {
    /// Emits this term's symbolic code into the compiler's scratch buffer:
    /// exactly [`emit_term`], or the error that stopped emission.
    fn emit_code(&self, c: &mut Compiler) -> (r: Result<(), CompileErr>)
        requires
            old(c).wf(),
        ensures
            final(c).wf(),
            final(c).infos() == old(c).infos(),
            final(c).locals() == old(c).locals(),
            match emit_term(*self, old(c).locals(), names_of(old(c).infos())) {
                Option::Some(code) => {
                    &&& (r is Ok <==> old(c).scratch().len() + code.len() <= MAX_CODE_LEN)
                    &&& (r is Ok ==> final(c).scratch() == old(c).scratch() + code)
                    &&& (r is Err ==> r matches Err(CompileErr::CodeTooLong))
                },
                Option::None => r is Err && (r matches Err(CompileErr::IdNotFound(_)) || r matches
                    Err(CompileErr::CodeTooLong)),
            },
        decreases *self,
    {
        let ghost locals = old(c).locals();
        let ghost names = names_of(old(c).infos());
        let ghost s0 = old(c).scratch();
        match self {
            Term::Mul(t1, t2) => {
                match t1.emit_code(c) {
                    Ok(()) => {},
                    Err(e) => {
                        return Err(e);
                    },
                }
                match t2.emit_code(c) {
                    Ok(()) => {},
                    Err(e) => {
                        return Err(e);
                    },
                }
                match c.push_insn(Insn::Mul) {
                    Ok(()) => {},
                    Err(e) => {
                        return Err(e);
                    },
                }
                proof {
                    let a = emit_term(**t1, locals, names).unwrap();
                    let b = emit_term(**t2, locals, names).unwrap();
                    assert(c.scratch() =~= s0 + (a + b + seq![InsnV::Mul]));
                }
                Ok(())
            },
            Term::Int(i) => {
                match c.push_insn(Insn::Int(*i)) {
                    Ok(()) => {},
                    Err(e) => {
                        return Err(e);
                    },
                }
                proof {
                    assert(c.scratch() =~= s0 + seq![InsnV::Int(*i)]);
                }
                Ok(())
            },
            Term::Bool(b) => {
                match c.push_insn(Insn::Bool(*b)) {
                    Ok(()) => {},
                    Err(e) => {
                        return Err(e);
                    },
                }
                proof {
                    assert(c.scratch() =~= s0 + seq![InsnV::Bool(*b)]);
                }
                Ok(())
            },
            Term::FnCall(name, _) => Err(CompileErr::IdNotFound(Id { s: name.s.clone() })),
            Term::Last(id) => {
                match c.node_offset(id) {
                    Option::Some(i) => {
                        match c.push_insn(Insn::GetLast(i)) {
                            Ok(()) => {},
                            Err(e) => {
                                return Err(e);
                            },
                        }
                        proof {
                            assert(c.scratch() =~= s0 + seq![InsnV::GetLast(i)]);
                        }
                        Ok(())
                    },
                    Option::None => Err(CompileErr::IdNotFound(Id { s: id.s.clone() })),
                }
            },
            Term::Id(id) => {
                match find_local(c, id) {
                    Option::Some(li) => {
                        match c.push_insn(Insn::GetLocal(li)) {
                            Ok(()) => {},
                            Err(e) => {
                                return Err(e);
                            },
                        }
                        proof {
                            assert(c.scratch() =~= s0 + seq![InsnV::GetLocal(li)]);
                        }
                        return Ok(());
                    },
                    Option::None => {},
                }
                match c.node_offset(id) {
                    Option::Some(i) => {
                        match c.push_insn(Insn::GetNode(i)) {
                            Ok(()) => {},
                            Err(e) => {
                                return Err(e);
                            },
                        }
                        proof {
                            assert(c.scratch() =~= s0 + seq![InsnV::GetNode(i)]);
                        }
                        Ok(())
                    },
                    Option::None => Err(CompileErr::IdNotFound(Id { s: id.s.clone() })),
                }
            },
        }
    }
}

/// Splitting an accumulation at any point composes.
pub proof fn lemma_dep_acc_exps_concat(a: Seq<Exp>, b: Seq<Exp>, nodes: Seq<Seq<char>>, acc: Seq<
    usize,
>)
    ensures
        dep_acc_exps(a + b, nodes, acc) == dep_acc_exps(b, nodes, dep_acc_exps(a, nodes, acc)),
    decreases a,
{
    if a.len() == 0 {
        assert(a + b =~= b);
    } else {
        assert((a + b)[0] == a[0]);
        assert((a + b).drop_first() =~= a.drop_first() + b);
        lemma_dep_acc_exps_concat(a.drop_first(), b, nodes, dep_acc_exp(a[0], nodes, acc));
    }
}

impl Exp {
    /// Collects into `lst` the registration indices of the nodes whose
    /// current value this expression reads, skipping entries already there:
    /// exactly [`dep_acc_exp`].
    fn to_dependency(&self, lst: &mut List<usize>, c: &Compiler)
        requires
            wf_acc(old(lst)@, names_of(c.infos()).len() as int),
        ensures
            final(lst)@ == dep_acc_exp(*self, names_of(c.infos()), old(lst)@),
        decreases *self,
    {
        proof {
            lemma_dep_acc_exp(*self, names_of(c.infos()), old(lst)@);
        }
        match self {
            Exp::If { cond, then_e, else_e } => {
                cond.to_dependency(lst, c);
                proof {
                    lemma_dep_acc_exp(**cond, names_of(c.infos()), old(lst)@);
                }
                then_e.to_dependency(lst, c);
                proof {
                    lemma_dep_acc_exp(
                        **then_e,
                        names_of(c.infos()),
                        dep_acc_exp(**cond, names_of(c.infos()), old(lst)@),
                    );
                }
                else_e.to_dependency(lst, c);
            },
            Exp::Add(e1, t) => {
                e1.to_dependency(lst, c);
                proof {
                    lemma_dep_acc_exp(**e1, names_of(c.infos()), old(lst)@);
                }
                t.to_dependency(lst, c);
            },
            Exp::Term(t) => t.to_dependency(lst, c),
        }
    }
}

/// Collects the dependencies of each expression in turn.
fn args_to_dependency(args: &Vec<Exp>, lst: &mut List<usize>, c: &Compiler)
    requires
        wf_acc(old(lst)@, names_of(c.infos()).len() as int),
    ensures
        final(lst)@ == dep_acc_exps(args@, names_of(c.infos()), old(lst)@),
    decreases args@,
{
    let ghost names = names_of(c.infos());
    let ghost acc0 = old(lst)@;
    let n_args = args.len();
    let mut k: usize = 0;
    while k < n_args
        invariant
            n_args == args@.len(),
            k <= n_args,
            names == names_of(c.infos()),
            wf_acc(acc0, names.len() as int),
            acc0 == old(lst)@,
            lst@ == dep_acc_exps(args@.subrange(0, k as int), names, acc0),
            wf_acc(lst@, names.len() as int),
        decreases n_args - k,
    {
        proof {
            assert(args@.subrange(0, n_args as int)[k as int] == args@[k as int]);
        }
        args[k].to_dependency(lst, c);
        proof {
            let pre = args@.subrange(0, k as int);
            assert(args@.subrange(0, k + 1) =~= pre + seq![args@[k as int]]);
            lemma_dep_acc_exps_concat(pre, seq![args@[k as int]], names, acc0);
            assert(seq![args@[k as int]].drop_first() =~= Seq::<Exp>::empty());
            let mid = dep_acc_exp(args@[k as int], names, dep_acc_exps(pre, names, acc0));
            assert(dep_acc_exps(Seq::<Exp>::empty(), names, mid) == mid);
            assert(dep_acc_exps(seq![args@[k as int]], names, dep_acc_exps(pre, names, acc0))
                == dep_acc_exp(args@[k as int], names, dep_acc_exps(pre, names, acc0)));
            lemma_dep_acc_exps(pre, names, acc0);
            lemma_dep_acc_exp(args@[k as int], names, dep_acc_exps(pre, names, acc0));
        }
        k = k + 1;
    }
    proof {
        assert(args@.subrange(0, n_args as int) =~= args@);
    }
}

impl Term {
    /// Collects into `lst` the registration indices of the nodes whose
    /// current value this term reads, skipping entries already there:
    /// exactly [`dep_acc_term`].
    fn to_dependency(&self, lst: &mut List<usize>, c: &Compiler)
        requires
            wf_acc(old(lst)@, names_of(c.infos()).len() as int),
        ensures
            final(lst)@ == dep_acc_term(*self, names_of(c.infos()), old(lst)@),
        decreases *self,
    {
        let ghost names = names_of(c.infos());
        proof {
            lemma_dep_acc_term(*self, names, old(lst)@);
        }
        match self {
            Term::Mul(t1, t2) => {
                t1.to_dependency(lst, c);
                proof {
                    lemma_dep_acc_term(**t1, names, old(lst)@);
                }
                t2.to_dependency(lst, c);
            },
            Term::Int(_) => {},
            Term::Bool(_) => {},
            Term::Last(_) => {},
            Term::FnCall(_, args) => {
                args_to_dependency(args, lst, c);
            },
            Term::Id(id) => {
                match c.node_offset(id) {
                    Option::Some(u) => {
                        proof {
                            lemma_find_name(names, id@);
                        }
                        if !lst.contains(&u) {
                            let nn = c.node_info.len();
                            proof {
                                let n = names.len() as int;
                                assert(c.infos().len() == nn);
                                lemma_nodup_len_bound(lst@, n);
                                if lst@.len() >= n {
                                    lemma_nodup_complete(lst@, n);
                                }
                                assert(lst@.len() < n);
                                assert(c.infos().len() <= usize::MAX);
                            }
                            lst.push(u);
                            proof {
                                assert(lst@ == add_dep(old(lst)@, u));
                            }
                        }
                    },
                    Option::None => {},
                }
            },
        }
    }
}

impl Compiler {
    /// Takes the scratch buffer, leaving it empty.
    fn insn_popall(&mut self) -> (r: Vec<Insn>)
        requires
            old(self).wf(),
        ensures
            final(self).wf(),
            final(self).infos() == old(self).infos(),
            final(self).locals() == old(self).locals(),
            final(self).scratch() == Seq::<InsnV>::empty(),
            deep_code(r@) == old(self).scratch(),
    {
        let mut v: Vec<Insn> = Vec::new();
        core::mem::swap(&mut self.codes, &mut v);
        proof {
            assert(self.infos() =~= old(self).infos());
            assert(self.locals() =~= old(self).locals());
            assert(deep_code(self.codes@) =~= Seq::<InsnV>::empty());
        }
        v
    }

    /// Compiles one expression to a standalone code buffer, leaving the
    /// scratch buffer as it was.
    fn compile_exp(&mut self, exp: &Exp) -> (r: Result<Vec<Insn>, CompileErr>)
        requires
            old(self).wf(),
        ensures
            final(self).wf(),
            final(self).infos() == old(self).infos(),
            final(self).locals() == old(self).locals(),
            final(self).scratch() == old(self).scratch(),
            match emit_exp(*exp, old(self).locals(), names_of(old(self).infos())) {
                Option::Some(code) => {
                    &&& (r is Ok <==> code.len() <= MAX_CODE_LEN)
                    &&& (r matches Ok(v) ==> deep_code(v@) == code)
                    &&& (r is Err ==> r matches Err(CompileErr::CodeTooLong))
                },
                Option::None => r is Err && (r matches Err(CompileErr::IdNotFound(_)) || r matches
                    Err(CompileErr::CodeTooLong)),
            },
    {
        let mut saved: Vec<Insn> = Vec::new();
        core::mem::swap(&mut self.codes, &mut saved);
        proof {
            assert(self.infos() =~= old(self).infos());
            assert(self.locals() =~= old(self).locals());
            assert(deep_code(self.codes@) =~= Seq::<InsnV>::empty());
        }
        let res = exp.emit_code(self);
        let mut out = self.insn_popall();
        core::mem::swap(&mut self.codes, &mut saved);
        proof {
            assert(self.infos() =~= old(self).infos());
            assert(self.locals() =~= old(self).locals());
            assert(self.codes@ == old(self).codes@);
            assert(self.scratch() == old(self).scratch());
        }
        match res {
            Ok(()) => Ok(out),
            Err(e) => Err(e),
        }
    }

    /// First pass for one definition: registers a node's name, so that
    /// later definitions in the same submission may refer to it.
    #[verifier::rlimit(100)]
    pub fn register_new_node_one(&mut self, def: &Def) -> (r: Result<(), CompileErr>)
        requires
            old(self).wf(),
        ensures
            final(self).wf(),
            final(self).locals() == old(self).locals(),
            final(self).scratch() == old(self).scratch(),
            final(self).infos() == reg_one(old(self).infos(), *def),
            r is Ok,
    {
        match def {
            Def::Node { name, .. } => {
                match self.node_offset(name) {
                    Option::Some(_) => Ok(()),
                    Option::None => {
                        let info = NodeInfo {
                            name: Id { s: name.s.clone() },
                            pointed: List::new(),
                            init_code: Vec::new(),
                            upd_code: Vec::new(),
                        };
                        proof {
                            assert(info.deep() == blank_info(name@));
                        }
                        self.node_info.push(info);
                        proof {
                            assert(self.infos() =~= old(self).infos().push(blank_info(name@)));
                            assert(self.locals() =~= old(self).locals());
                            assert(forall|ii: int|
                                0 <= ii < old(self).infos().len() ==> #[trigger] self.infos()[ii]
                                    == old(self).infos()[ii]);
                            assert(self.infos()[old(self).infos().len() as int] == blank_info(
                                name@,
                            ));
                            assert forall|ii: int| 0 <= ii < self.infos().len() implies ((
                            #[trigger] self.infos()[ii].dep_list).no_duplicates() && (forall|
                                j: int,
                            |
                                0 <= j < self.infos()[ii].dep_list.len()
                                    ==> #[trigger] self.infos()[ii].dep_list[j]
                                    < self.infos().len())) by {
                                if ii < old(self).infos().len() {
                                    assert(old(self).infos()[ii].dep_list.no_duplicates());
                                    assert(forall|j: int|
                                        0 <= j < old(self).infos()[ii].dep_list.len()
                                            ==> #[trigger] old(self).infos()[ii].dep_list[j] < old(
                                            self,
                                        ).infos().len());
                                }
                            }
                            assert forall|ii: int| 0 <= ii < self.infos().len() implies code_wf(
                                (#[trigger] self.infos()[ii]).init_code,
                                self.infos().len() as int,
                            ) && code_wf(self.infos()[ii].upd_code, self.infos().len() as int) by {
                                if ii < old(self).infos().len() {
                                    assert(code_wf(
                                        old(self).infos()[ii].init_code,
                                        old(self).infos().len() as int,
                                    ));
                                    assert(code_wf(
                                        old(self).infos()[ii].upd_code,
                                        old(self).infos().len() as int,
                                    ));
                                }
                            }
                            assert(self.codes@ == old(self).codes@);
                            assert(self.scratch() == old(self).scratch());
                            assert(self.codes@.len() <= MAX_CODE_LEN);
                            assert(forall|k: int|
                                0 <= k < self.scratch().len() ==> flat_insn(
                                    #[trigger] self.scratch()[k],
                                ));
                            assert(forall|i: int|
                                0 <= i < self.infos().len() ==> (
                                #[trigger] self.infos()[i].dep_list).no_duplicates() && (forall|
                                    j: int,
                                |
                                    0 <= j < self.infos()[i].dep_list.len()
                                        ==> #[trigger] self.infos()[i].dep_list[j]
                                        < self.infos().len()));
                            assert(forall|i: int|
                                0 <= i < self.infos().len() ==> code_wf(
                                    (#[trigger] self.infos()[i]).init_code,
                                    self.infos().len() as int,
                                ) && code_wf(self.infos()[i].upd_code, self.infos().len() as int));
                            assert forall|i: int, j: int|
                                #![trigger names_of(self.infos())[i], names_of(self.infos())[j]]
                                0 <= i < j < self.infos().len() implies names_of(self.infos())[i]
                                != names_of(self.infos())[j] by {
                                assert(names_of(self.infos())[i] == self.infos()[i].name);
                                assert(names_of(self.infos())[j] == self.infos()[j].name);
                                if j < old(self).infos().len() {
                                    assert(self.infos()[i] == old(self).infos()[i]);
                                    assert(self.infos()[j] == old(self).infos()[j]);
                                    assert(names_of(old(self).infos())[i] == old(self).infos()[i].name);
                                    assert(names_of(old(self).infos())[j] == old(self).infos()[j].name);
                                } else {
                                    lemma_find_name(names_of(old(self).infos()), name@);
                                    assert(self.infos()[i] == old(self).infos()[i]);
                                    assert(names_of(old(self).infos())[i] == old(self).infos()[i].name);
                                    assert(self.infos()[j].name == name@);
                                }
                            }
                        }
                        Ok(())
                    },
                }
            },
            _ => Ok(()),
        }
    }

    /// First pass: registers every node name a submission declares.
    pub fn register_new_node(&mut self, prog: &Program) -> (r: Result<(), CompileErr>)
        requires
            old(self).wf(),
        ensures
            final(self).wf(),
            final(self).locals() == old(self).locals(),
            final(self).scratch() == old(self).scratch(),
            final(self).infos() == reg_infos(old(self).infos(), prog_defs(*prog)),
            r is Ok,
    {
        match prog {
            Program::Defs(defs) => {
                let nd = defs.len();
                let mut k: usize = 0;
                while k < nd
                    invariant
                        nd == defs@.len(),
                        k <= nd,
                        self.wf(),
                        self.locals() == old(self).locals(),
                        self.scratch() == old(self).scratch(),
                        self.infos() == reg_infos(old(self).infos(), defs@.subrange(0, k as int)),
                    decreases nd - k,
                {
                    let r = self.register_new_node_one(&defs[k]);
                    proof {
                        let pre = defs@.subrange(0, k as int);
                        assert(defs@.subrange(0, k + 1) =~= pre + seq![defs@[k as int]]);
                        lemma_reg_infos_concat(old(self).infos(), pre, seq![defs@[k as int]]);
                        assert(seq![defs@[k as int]].drop_first() =~= Seq::<Def>::empty());
                        assert(reg_infos(reg_one(reg_infos(old(self).infos(), pre), defs@[k as int]), Seq::<Def>::empty()) == reg_one(reg_infos(old(self).infos(), pre), defs@[k as int]));
                    }
                    k = k + 1;
                }
                proof {
                    assert(defs@.subrange(0, nd as int) =~= defs@);
                    assert(prog_defs(*prog) == defs@);
                }
                Ok(())
            },
            Program::Def(d) => {
                let r = self.register_new_node_one(d);
                proof {
                    assert(prog_defs(*prog) =~= seq![*d]);
                    assert(prog_defs(*prog)[0] == *d);
                    assert(prog_defs(*prog).drop_first() =~= Seq::<Def>::empty());
                    assert(reg_infos(reg_one(old(self).infos(), *d), Seq::<Def>::empty())
                        == reg_one(old(self).infos(), *d));
                }
                Ok(())
            },
            Program::Exp(_) => {
                proof {
                    assert(prog_defs(*prog) =~= Seq::<Def>::empty());
                }
                Ok(())
            },
        }
    }

    /// Second pass for one definition: computes a node's dependency set and
    /// its stored code against the full name table.
    pub fn emit_alloc_node_one(&mut self, def: &Def) -> (r: Result<(), CompileErr>)
        requires
            old(self).wf(),
            old(self).locals() == Seq::<Seq<char>>::empty(),
        ensures
            final(self).wf(),
            final(self).locals() == old(self).locals(),
            final(self).scratch() == old(self).scratch(),
            names_of(final(self).infos()) == names_of(old(self).infos()),
            match upd_one(old(self).infos(), *def) {
                Option::Some(infos2) => r is Ok && final(self).infos() == infos2,
                Option::None => r is Err && final(self).infos() == old(self).infos() && (r matches
                    Err(CompileErr::IdNotFound(_)) || r matches Err(CompileErr::CodeTooLong)),
            },
    {
        let ghost names = names_of(old(self).infos());
        match def {
            Def::Node { name, init, val } => {
                match self.node_offset(name) {
                    Option::Some(i) => {
                        proof {
                            lemma_find_name(names, name@);
                        }
                        let mut pointed = List::<usize>::new();
                        val.to_dependency(&mut pointed, self);
                        proof {
                            lemma_dep_acc_exp(*val, names, Seq::empty());
                        }
                        let icode: Vec<Insn> = match init {
                            Option::Some(e) => {
                                match self.compile_exp(e) {
                                    Ok(v) => v,
                                    Err(er) => {
                                        return Err(er);
                                    },
                                }
                            },
                            Option::None => {
                                let mut v: Vec<Insn> = Vec::new();
                                v.push(Insn::Nil);
                                proof {
                                    lemma_deep_code_index(v@);
                                    assert(deep_code(v@) =~= seq![InsnV::Nil]);
                                }
                                v
                            },
                        };
                        let mut ucode = match self.compile_exp(val) {
                            Ok(v) => v,
                            Err(er) => {
                                return Err(er);
                            },
                        };
                        let ghost ucode0 = deep_code(ucode@);
                        proof {
                            lemma_deep_code_push(ucode@, Insn::Return);
                        }
                        ucode.push(Insn::Return);
                        let info = NodeInfo {
                            name: Id { s: name.s.clone() },
                            pointed,
                            init_code: icode,
                            upd_code: ucode,
                        };
                        proof {
                            lemma_emit_exp_wf(*val, Seq::empty(), names);
                            match init {
                                Option::Some(e) => {
                                    lemma_emit_exp_wf(*e, Seq::empty(), names);
                                },
                                Option::None => {},
                            }
                        }
                        self.node_info.set(i, info);
                        proof {
                            let infos2 = upd_one(old(self).infos(), *def).unwrap();
                            assert(info.deep() =~= infos2[i as int]) by {
                                assert(names[i as int] == name@);
                                assert(names[i as int] == old(self).infos()[i as int].name);
                                assert(info.deep().name == name@);
                                assert(info.deep().dep_list == dep_acc_exp(
                                    *val,
                                    names,
                                    Seq::empty(),
                                ));
                            }
                            assert(self.infos() =~= infos2) by {
                                assert(forall|j: int|
                                    0 <= j < self.infos().len() && j != i
                                        ==> #[trigger] self.infos()[j] == old(self).infos()[j]);
                                assert(self.infos()[i as int] == info.deep());
                            }
                            assert(names_of(self.infos()) =~= names_of(old(self).infos()));
                        }
                        Ok(())
                    },
                    Option::None => Err(CompileErr::IdNotFound(Id { s: name.s.clone() })),
                }
            },
            Def::Data { .. } => Ok(()),
            Def::Func { .. } => Ok(()),
        }
    }

    /// Second pass: computes every declared node's dependency set and
    /// stored code.
    pub fn emit_alloc_node(&mut self, prog: &Program) -> (r: Result<(), CompileErr>)
        requires
            old(self).wf(),
            old(self).locals() == Seq::<Seq<char>>::empty(),
        ensures
            final(self).wf(),
            final(self).locals() == old(self).locals(),
            final(self).scratch() == old(self).scratch(),
            match upd_infos(old(self).infos(), prog_defs(*prog)) {
                Option::Some(infos2) => r is Ok && final(self).infos() == infos2,
                Option::None => r is Err && names_of(final(self).infos()) == names_of(
                    old(self).infos(),
                ) && (r matches Err(CompileErr::IdNotFound(_)) || r matches Err(
                    CompileErr::CodeTooLong,
                )),
            },
    {
        match prog {
            Program::Defs(defs) => {
                let nd = defs.len();
                let mut k: usize = 0;
                while k < nd
                    invariant
                        nd == defs@.len(),
                        k <= nd,
                        prog_defs(*prog) == defs@,
                        self.wf(),
                        self.locals() == old(self).locals(),
                        old(self).locals() == Seq::<Seq<char>>::empty(),
                        self.scratch() == old(self).scratch(),
                        names_of(self.infos()) == names_of(old(self).infos()),
                        upd_infos(old(self).infos(), defs@.subrange(0, k as int)) == Option::Some(
                            self.infos(),
                        ),
                    decreases nd - k,
                {
                    let ghost pre = defs@.subrange(0, k as int);
                    let ghost infos_k = self.infos();
                    let r = self.emit_alloc_node_one(&defs[k]);
                    proof {
                        assert(defs@.subrange(0, k + 1) =~= pre + seq![defs@[k as int]]);
                        lemma_upd_infos_concat(old(self).infos(), pre, seq![defs@[k as int]]);
                        assert(seq![defs@[k as int]].drop_first() =~= Seq::<Def>::empty());
                    }
                    match r {
                        Ok(()) => {
                            proof {
                                let i3 = upd_one(infos_k, defs@[k as int]).unwrap();
                                assert(upd_infos(i3, Seq::<Def>::empty()) == Option::Some(i3));
                                assert(upd_infos(infos_k, seq![defs@[k as int]]) == Option::Some(
                                    i3,
                                ));
                                assert(upd_infos(old(self).infos(), defs@.subrange(0, k + 1))
                                    == Option::Some(self.infos()));
                            }
                        },
                        Err(e) => {
                            proof {
                                assert(upd_one(infos_k, defs@[k as int]) is None);
                                assert(upd_infos(old(self).infos(), defs@) is None) by {
                                    lemma_upd_infos_concat(
                                        old(self).infos(),
                                        defs@.subrange(0, k as int),
                                        defs@.subrange(k as int, nd as int),
                                    );
                                    assert(defs@.subrange(0, k as int) + defs@.subrange(
                                        k as int,
                                        nd as int,
                                    ) =~= defs@);
                                    assert(defs@.subrange(k as int, nd as int)[0] == defs@[k as int]);
                                }
                            }
                            return Err(e);
                        },
                    }
                    k = k + 1;
                }
                proof {
                    assert(defs@.subrange(0, nd as int) =~= defs@);
                    assert(prog_defs(*prog) == defs@);
                }
                Ok(())
            },
            Program::Def(d) => {
                let ghost infos0 = self.infos();
                let r = self.emit_alloc_node_one(d);
                proof {
                    assert(prog_defs(*prog) =~= seq![*d]);
                    assert(prog_defs(*prog)[0] == *d);
                    assert(prog_defs(*prog).drop_first() =~= Seq::<Def>::empty());
                    match upd_one(infos0, *d) {
                        Option::Some(i2) => {
                            assert(upd_infos(i2, Seq::<Def>::empty()) == Option::Some(i2));
                        },
                        Option::None => {},
                    }
                }
                r
            },
            Program::Exp(_) => {
                proof {
                    assert(prog_defs(*prog) =~= Seq::<Def>::empty());
                }
                Ok(())
            },
        }
    }

    /// Orders the registered nodes so that every node follows everything
    /// its update expression reads, or reports the nodes caught in or
    /// behind a cycle.
    fn topological_sort(&self) -> (r: SortResult)
        requires
            self.wf(),
        ensures
            match r {
                SortResult::Success(ord) => is_topo_order(deps_of(self.infos()), ord@),
                SortResult::CicularRef(rem) => {
                    &&& rem@.len() > 0
                    &&& forall|p: int| 0 <= p < rem@.len() ==> #[trigger] rem@[p] < self.infos().len()
                    &&& exists|c: Seq<usize>|
                        is_cycle(deps_of(self.infos()), c) && rem@.contains(c[0])
                },
            },
    {
        let n = self.node_info.len();
        let mut deps: Vec<Vec<usize>> = Vec::new();
        let mut i: usize = 0;
        while i < n
            invariant
                n == self.node_info@.len(),
                i <= n,
                deps@.len() == i,
                forall|k: int| 0 <= k < i ==> #[trigger] deps@[k]@ == self.infos()[k].dep_list,
            decreases n - i,
        {
            let d = self.node_info[i].pointed.to_vec();
            proof {
                assert(self.infos()[i as int].dep_list == self.node_info@[i as int].pointed@);
            }
            deps.push(d);
            i = i + 1;
        }
        proof {
            assert(crate::dependency::deps_view(deps@) =~= deps_of(self.infos()));
        }
        crate::dependency::kahn_sort(&deps)
    }
}

impl Compiler {
    /// Compiles one submission. A bare expression becomes straight-line
    /// code ending in `Exit`. A batch of definitions is registered, its
    /// node count checked against the machine's capacity, analyzed and
    /// compiled per node, ordered — a dependency cycle is reported with the
    /// nodes caught in it — and assembled into the one-shot initialization
    /// program and the cyclic update program, with every node reference
    /// resolved to its slot in the evaluation order.
    #[verifier::rlimit(100)]
    pub fn compile(&mut self, prog: &Program) -> (r: Result<CompiledCode, CompileErr>)
        requires
            old(self).wf(),
            old(self).locals() == Seq::<Seq<char>>::empty(),
        ensures
            final(self).wf(),
            final(self).locals() == old(self).locals(),
            match *prog {
                Program::Exp(e) => {
                    &&& final(self).infos() == old(self).infos()
                    &&& match emit_exp(e, old(self).locals(), names_of(old(self).infos())) {
                        Option::Some(code) => {
                            &&& (r is Ok <==> code.len() < MAX_CODE_LEN)
                            &&& (match r {
                                Ok(CompiledCode::Exp(v)) => deep_code(v@) == code.push(
                                    InsnV::Exit,
                                ),
                                Ok(_) => false,
                                Err(e2) => e2 matches CompileErr::CodeTooLong,
                            })
                        },
                        Option::None => r is Err && (r matches Err(CompileErr::IdNotFound(_))
                            || r matches Err(CompileErr::CodeTooLong)),
                    }
                },
                _ => {
                    let defs = prog_defs(*prog);
                    let infos1 = reg_infos(old(self).infos(), defs);
                    if infos1.len() > MAX_NUMBER_OF_NODE {
                        final(self).infos() == infos1 && r matches Err(CompileErr::TooManyNodes)
                    } else {
                        match upd_infos(infos1, defs) {
                            Option::Some(infos2) => {
                                &&& final(self).infos() == infos2
                                &&& match r {
                                    Ok(CompiledCode::DefNode { init, upd }) => {
                                        &&& deep_code(upd@) == upd_program(infos2.len())
                                        &&& exists|ord: Seq<usize>, slots: Seq<usize>|
                                            is_topo_order(deps_of(infos2), ord) && slots_invert(
                                                ord,
                                                slots,
                                            ) && deep_code(init@) == init_program(
                                                infos2,
                                                ord,
                                                slots,
                                            )
                                    },
                                    Ok(_) => false,
                                    Err(CompileErr::CircularRef(ids)) => {
                                        &&& ids@.len() > 0
                                        &&& exists|c: Seq<usize>|
                                            is_cycle(deps_of(infos2), c) && (exists|p: int|
                                                0 <= p < ids@.len() && ids@[p]@ == infos2[c[0] as int].name)
                                    },
                                    Err(_) => false,
                                }
                            },
                            Option::None => r is Err && names_of(final(self).infos()) == names_of(
                                infos1,
                            ) && (r matches Err(CompileErr::IdNotFound(_)) || r matches Err(
                                CompileErr::CodeTooLong,
                            )),
                        }
                    }
                },
            },
    {
        self.codes.clear();
        proof {
            assert(deep_code(self.codes@) =~= Seq::<InsnV>::empty());
            assert(self.infos() =~= old(self).infos());
            assert(self.locals() =~= old(self).locals());
        }
        if let Program::Exp(e) = prog {
            let res = e.emit_code(self);
            match res {
                Ok(()) => {},
                Err(er) => {
                    return Err(er);
                },
            }
            let res2 = self.push_insn(Insn::Exit);
            match res2 {
                Ok(()) => {},
                Err(er) => {
                    return Err(er);
                },
            }
            let out = self.insn_popall();
            proof {
                let code = emit_exp(*e, old(self).locals(), names_of(old(self).infos())).unwrap();
                assert(deep_code(out@) =~= code.push(InsnV::Exit));
            }
            return Ok(CompiledCode::Exp(out));
        }
        let r1 = self.register_new_node(prog);
        match r1 {
            Ok(()) => {},
            Err(er) => {
                return Err(er);
            },
        }
        let ghost infos1 = self.infos();
        if self.node_info.len() > MAX_NUMBER_OF_NODE {
            return Err(CompileErr::TooManyNodes);
        }
        let r2 = self.emit_alloc_node(prog);
        match r2 {
            Ok(()) => {},
            Err(er) => {
                return Err(er);
            },
        }
        let ghost infos2 = self.infos();
        match self.topological_sort() {
            SortResult::CicularRef(rem) => {
                let nrem = rem.len();
                let mut ids: Vec<Id> = Vec::new();
                let mut k: usize = 0;
                while k < nrem
                    invariant
                        nrem == rem@.len(),
                        k <= nrem,
                        infos2 == self.infos(),
                        forall|p: int| 0 <= p < rem@.len() ==> #[trigger] rem@[p] < infos2.len(),
                        ids@.len() == k,
                        forall|p: int|
                            0 <= p < k ==> #[trigger] ids@[p]@ == infos2[rem@[p] as int].name,
                    decreases nrem - k,
                {
                    let nd = rem[k];
                    let idv = Id { s: self.node_info[nd].name.s.clone() };
                    proof {
                        assert(idv@ == infos2[nd as int].name);
                    }
                    ids.push(idv);
                    k = k + 1;
                }
                proof {
                    let c = choose|c: Seq<usize>|
                        is_cycle(deps_of(infos2), c) && rem@.contains(c[0]);
                    let p0 = choose|p0: int| 0 <= p0 < rem@.len() && rem@[p0] == c[0];
                    assert(ids@[p0]@ == infos2[c[0] as int].name);
                }
                Err(CompileErr::CircularRef(ids))
            },
            SortResult::Success(ord) => {
                let n = self.node_info.len();
                proof {
                    assert(ord@.len() == n);
                }
                let mut slots: Vec<usize> = Vec::new();
                let mut k: usize = 0;
                while k < n
                    invariant
                        k <= n,
                        slots@.len() == k,
                    decreases n - k,
                {
                    slots.push(0);
                    k = k + 1;
                }
                let mut p: usize = 0;
                while p < n
                    invariant
                        p <= n,
                        n == infos2.len(),
                        infos2 == self.infos(),
                        is_topo_order(deps_of(infos2), ord@),
                        ord@.len() == n,
                        slots@.len() == n,
                        forall|p2: int| 0 <= p2 < p ==> #[trigger] slots@[ord@[p2] as int] == p2,
                    decreases n - p,
                {
                    let nd = ord[p];
                    proof {
                        assert(ord@[p as int] < n);
                        assert forall|p2: int|
                            0 <= p2 < p implies ord@[p2] != ord@[p as int] by {}
                    }
                    slots.set(nd, p);
                    p = p + 1;
                }
                proof {
                    assert(slots_invert(ord@, slots@));
                }
                let mut init: Vec<Insn> = Vec::new();
                let mut p: usize = 0;
                proof {
                    assert(deep_code(init@) =~= Seq::<InsnV>::empty());
                    assert(deep_code(init@) =~= init_blocks(infos2, ord@, slots@, 0));
                }
                while p < n
                    invariant
                        p <= n,
                        n == infos2.len(),
                        infos2 == self.infos(),
                        self.wf(),
                        is_topo_order(deps_of(infos2), ord@),
                        ord@.len() == n,
                        slots@.len() == n,
                        deep_code(init@) == init_blocks(infos2, ord@, slots@, p as nat),
                    decreases n - p,
                {
                    let nd = ord[p];
                    proof {
                        assert(ord@[p as int] < n);
                        assert(code_wf(self.infos()[nd as int].init_code, n as int));
                        assert(code_wf(self.infos()[nd as int].upd_code, n as int));
                        assert(deep_code(self.node_info@[nd as int].init_code@) == self.infos()[
                            nd as int].init_code);
                        assert(deep_code(self.node_info@[nd as int].upd_code@) == self.infos()[
                            nd as int].upd_code);
                    }
                    let mut rc = resolve_code(&self.node_info[nd].init_code, &slots);
                    let ru = resolve_code(&self.node_info[nd].upd_code, &slots);
                    let ghost init0 = init@;
                    let ghost rc0 = rc@;
                    init.append(&mut rc);
                    let ghost init1 = init@;
                    let alloc = Insn::AllocNodeNew(ru);
                    init.push(alloc);
                    proof {
                        lemma_deep_code_add(init0, rc0);
                        assert(deep_code(init1) =~= deep_code(init0) + resolve_codev(
                            infos2[nd as int].init_code,
                            slots@,
                        ));
                        lemma_deep_code_push(init1, alloc);
                        assert(alloc.deep() == InsnV::AllocNodeNew(
                            resolve_codev(infos2[nd as int].upd_code, slots@),
                        ));
                        assert(deep_code(init@) =~= init_blocks(
                            infos2,
                            ord@,
                            slots@,
                            (p + 1) as nat,
                        ));
                    }
                    p = p + 1;
                }
                let ghost init_body = init@;
                init.push(Insn::Halt);
                proof {
                    lemma_deep_code_push(init_body, Insn::Halt);
                    assert(deep_code(init@) =~= init_program(infos2, ord@, slots@));
                }
                let mut upd: Vec<Insn> = Vec::new();
                upd.push(Insn::SaveLast);
                proof {
                    lemma_deep_code_index(upd@);
                    assert(upd_pairs(0) =~= Seq::<InsnV>::empty());
                    assert(deep_code(upd@) =~= seq![InsnV::SaveLast] + upd_pairs(0));
                }
                let mut p: usize = 0;
                while p < n
                    invariant
                        p <= n,
                        deep_code(upd@) == seq![InsnV::SaveLast] + upd_pairs(p as nat),
                    decreases n - p,
                {
                    let ghost upd0 = upd@;
                    upd.push(Insn::UpdateNode(p));
                    let ghost upd1 = upd@;
                    upd.push(Insn::SetNode(p));
                    proof {
                        lemma_deep_code_push(upd0, Insn::UpdateNode(p));
                        lemma_deep_code_push(upd1, Insn::SetNode(p));
                        assert(deep_code(upd@) =~= seq![InsnV::SaveLast] + upd_pairs(
                            (p + 1) as nat,
                        ));
                    }
                    p = p + 1;
                }
                let ghost upd_body = upd@;
                upd.push(Insn::Halt);
                proof {
                    lemma_deep_code_push(upd_body, Insn::Halt);
                    assert(deep_code(upd@) =~= upd_program(n as nat));
                }
                Ok(CompiledCode::DefNode { init, upd })
            },
        }
    }
}

/// Stored symbolic code with every node reference turned into its slot.
fn resolve_code(v: &Vec<Insn>, slots: &Vec<usize>) -> (r: Vec<Insn>)
    requires
        code_wf(deep_code(v@), slots@.len() as int),
    ensures
        deep_code(r@) == resolve_codev(deep_code(v@), slots@),
{
    let ghost dv = deep_code(v@);
    proof {
        lemma_deep_code_index(v@);
    }
    let n = v.len();
    let mut r: Vec<Insn> = Vec::new();
    let mut k: usize = 0;
    proof {
        assert(deep_code(r@) =~= Seq::<InsnV>::empty());
    }
    while k < n
        invariant
            n == v@.len(),
            k <= n,
            dv == deep_code(v@),
            dv.len() == n,
            forall|j: int| 0 <= j < n ==> #[trigger] dv[j] == v@[j].deep(),
            code_wf(dv, slots@.len() as int),
            deep_code(r@) =~= resolve_codev(dv, slots@).subrange(0, k as int),
        decreases n - k,
    {
        let ins: Insn = match &v[k] {
            Insn::GetNode(u) => Insn::GetNode(slots[*u]),
            Insn::GetLast(u) => Insn::GetLast(slots[*u]),
            Insn::UpdateNode(u) => Insn::UpdateNode(slots[*u]),
            Insn::SetNode(u) => Insn::SetNode(slots[*u]),
            other => crate::machine::copy_insn(other),
        };
        proof {
            assert(ins.deep() == resolve_insn(dv[k as int], slots@));
        }
        let ghost r0 = r@;
        r.push(ins);
        proof {
            lemma_deep_code_push(r0, ins);
            assert(deep_code(r@) =~= resolve_codev(dv, slots@).subrange(0, k + 1));
        }
        k = k + 1;
    }
    proof {
        assert(resolve_codev(dv, slots@).subrange(0, n as int) =~= resolve_codev(dv, slots@));
    }
    r
}

} // verus!
