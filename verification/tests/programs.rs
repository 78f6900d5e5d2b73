//! End-to-end scenarios: compiling submissions and running them on the
//! machine — expression evaluation, tick-by-tick state, dependency
//! ordering, cycle reporting, redefinition, and the compile-time errors.

use tickvm::ast::{Def, Exp, Id, Program, Term};
use tickvm::compile::{CompileErr, CompiledCode, Compiler};
use tickvm::machine::{Code, Machine, RuntimeErr, Value};

fn id(s: &str) -> Id {
    Id { s: s.to_string() }
}

fn num(i: i32) -> Exp {
    Exp::Term(Box::new(Term::Int(i)))
}

fn read(name: &str) -> Exp {
    Exp::Term(Box::new(Term::Id(id(name))))
}

fn add(e: Exp, t: Term) -> Exp {
    Exp::Add(Box::new(e), Box::new(t))
}

fn node(name: &str, init: Exp, val: Exp) -> Def {
    Def::Node { name: id(name), init: Some(init), val }
}

/// `1 + 2 * 3` evaluates left to right over the grammar's explicit
/// nesting: the product is one term, so the result is the integer 7.
#[test]
fn single_expression_seven() {
    let e = add(num(1), Term::Mul(Box::new(Term::Int(2)), Box::new(Term::Int(3))));
    let mut cmp = Compiler::new();
    let code = match cmp.compile(&Program::Exp(e)) {
        Ok(CompiledCode::Exp(v)) => v,
        _ => panic!("expression did not compile"),
    };
    let mut m = Machine::new();
    assert_eq!(m.new_code(Code::Exp(code)), Ok(Value::Int(7)));
}

/// A node reading only its own previous-tick value counts the ticks: from
/// an initial 0, after five ticks it holds 5.
#[test]
fn counter_counts_ticks() {
    let counter = node(
        "counter",
        num(0),
        add(
            Exp::Term(Box::new(Term::Last(id("counter")))),
            Term::Int(1),
        ),
    );
    let mut cmp = Compiler::new();
    let (init, upd) = match cmp.compile(&Program::Def(counter)) {
        Ok(CompiledCode::DefNode { init, upd }) => (init, upd),
        _ => panic!("counter did not compile"),
    };
    let mut m = Machine::new();
    assert_eq!(m.new_code(Code::DefNode { init, upd }), Ok(Value::Nil));
    assert_eq!(m.node_value(0), Some(Value::Int(0)));
    for _ in 0..5 {
        assert_eq!(m.exec_upd(), Ok(()));
    }
    assert_eq!(m.node_value(0), Some(Value::Int(5)));
}

/// Nodes declared against declaration order still evaluate in dependency
/// order: each reads the fresh current value of the node it depends on.
#[test]
fn dependency_order_wins() {
    let c = node("c", num(0), add(read("b"), Term::Int(1)));
    let b = node("b", num(0), add(read("a"), Term::Int(1)));
    let a = node("a", num(0), num(1));
    let mut cmp = Compiler::new();
    let (init, upd) = match cmp.compile(&Program::Defs(vec![c, b, a])) {
        Ok(CompiledCode::DefNode { init, upd }) => (init, upd),
        _ => panic!("chain did not compile"),
    };
    let mut m = Machine::new();
    assert_eq!(m.new_code(Code::DefNode { init, upd }), Ok(Value::Nil));
    assert_eq!(m.exec_upd(), Ok(()));
    // Slot order is evaluation order: a first, then b, then c.
    assert_eq!(m.node_value(0), Some(Value::Int(1)));
    assert_eq!(m.node_value(1), Some(Value::Int(2)));
    assert_eq!(m.node_value(2), Some(Value::Int(3)));
}

/// A cycle among current-value reads is a compile-time error naming nodes
/// caught in it; no partial order comes back.
#[test]
fn cycle_is_reported() {
    let x = node("x", num(0), read("y"));
    let y = node("y", num(0), read("x"));
    let mut cmp = Compiler::new();
    match cmp.compile(&Program::Defs(vec![x, y])) {
        Err(CompileErr::CircularRef(names)) => {
            assert!(!names.is_empty());
            for n in &names {
                assert!(n.s == "x" || n.s == "y");
            }
        },
        _ => panic!("cycle was not reported"),
    }
}

/// Reading back one's own current value is a one-node cycle.
#[test]
fn self_reference_is_a_cycle() {
    let x = node("x", num(0), add(read("x"), Term::Int(1)));
    let mut cmp = Compiler::new();
    assert!(matches!(
        cmp.compile(&Program::Def(x)),
        Err(CompileErr::CircularRef(_))
    ));
}

/// Re-declaring a node under its old name replaces it: the table holds a
/// single entry for the name, and the new update expression takes over.
#[test]
fn redeclaration_replaces() {
    let mut cmp = Compiler::new();
    let first = node("n", num(0), num(1));
    let (init, upd) = match cmp.compile(&Program::Def(first)) {
        Ok(CompiledCode::DefNode { init, upd }) => (init, upd),
        _ => panic!("first declaration did not compile"),
    };
    let mut m = Machine::new();
    assert_eq!(m.new_code(Code::DefNode { init, upd }), Ok(Value::Nil));
    assert_eq!(m.node_count(), 1);

    let second = node("n", num(0), num(42));
    let (init2, upd2) = match cmp.compile(&Program::Def(second)) {
        Ok(CompiledCode::DefNode { init, upd }) => (init, upd),
        _ => panic!("second declaration did not compile"),
    };
    assert_eq!(m.new_code(Code::DefNode { init: init2, upd: upd2 }), Ok(Value::Nil));
    assert_eq!(m.node_count(), 1);
    assert_eq!(m.exec_upd(), Ok(()));
    assert_eq!(m.node_value(0), Some(Value::Int(42)));
}

/// A name that resolves to neither a local nor a node is reported.
#[test]
fn unknown_identifier_is_reported() {
    let mut cmp = Compiler::new();
    assert!(matches!(
        cmp.compile(&Program::Exp(read("ghost"))),
        Err(CompileErr::IdNotFound(_))
    ));
}

/// Declaring more nodes than the machine provisions for is refused.
#[test]
fn too_many_nodes_is_reported() {
    let mut defs = Vec::new();
    for k in 0..101 {
        defs.push(node(&format!("n{}", k), num(0), num(1)));
    }
    let mut cmp = Compiler::new();
    assert!(matches!(
        cmp.compile(&Program::Defs(defs)),
        Err(CompileErr::TooManyNodes)
    ));
}

/// Adding an integer to a boolean faults the run with a type mismatch; the
/// machine itself survives and can still take programs.
#[test]
fn type_mismatch_faults() {
    let e = add(num(1), Term::Bool(true));
    let mut cmp = Compiler::new();
    let code = match cmp.compile(&Program::Exp(e)) {
        Ok(CompiledCode::Exp(v)) => v,
        _ => panic!("expression did not compile"),
    };
    let mut m = Machine::new();
    assert_eq!(m.new_code(Code::Exp(code)), Err(RuntimeErr::TypeMismatch));
    let e2 = num(3);
    let code2 = match cmp.compile(&Program::Exp(e2)) {
        Ok(CompiledCode::Exp(v)) => v,
        _ => panic!("expression did not compile"),
    };
    assert_eq!(m.new_code(Code::Exp(code2)), Ok(Value::Int(3)));
}

/// A conditional takes the branch the machine's branch rule picks: the
/// conditional branch skips the first branch's code when the popped
/// condition is true.
#[test]
fn conditional_branches() {
    let cond_true = Exp::If {
        cond: Box::new(Exp::Term(Box::new(Term::Bool(true)))),
        then_e: Box::new(num(10)),
        else_e: Box::new(num(20)),
    };
    let cond_false = Exp::If {
        cond: Box::new(Exp::Term(Box::new(Term::Bool(false)))),
        then_e: Box::new(num(10)),
        else_e: Box::new(num(20)),
    };
    let mut cmp = Compiler::new();
    let mut m = Machine::new();
    let code_t = match cmp.compile(&Program::Exp(cond_true)) {
        Ok(CompiledCode::Exp(v)) => v,
        _ => panic!("conditional did not compile"),
    };
    let code_f = match cmp.compile(&Program::Exp(cond_false)) {
        Ok(CompiledCode::Exp(v)) => v,
        _ => panic!("conditional did not compile"),
    };
    // A true condition branches over the first arm's code.
    assert_eq!(m.new_code(Code::Exp(code_t)), Ok(Value::Int(20)));
    assert_eq!(m.new_code(Code::Exp(code_f)), Ok(Value::Int(10)));
}
