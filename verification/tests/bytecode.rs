//! The serialized byte form and the machine's fault discipline: jump
//! offsets round-trip through the byte encoding at both widths, hand-made
//! instruction streams fault in the documented ways, the mailbox hands a
//! program over exactly once, and a fresh definitions program fully
//! replaces the old one's tables within one tick.

use tickvm::ast::{Def, Exp, Id, Program, Term};
use tickvm::compile::{CompiledCode, Compiler};
use tickvm::insn::{decode_byte_code, frame_byte_code, Insn};
use tickvm::machine::{Code, Machine, Msg, RuntimeErr, Value};
use tickvm::token::{tokenize, Token};
use tickvm::qstr::{QstrIndex, QstrPool};

fn encode_all(code: Vec<Insn>) -> Vec<u8> {
    let mut bytes = Vec::new();
    for insn in code {
        insn.push_byte_code(&mut bytes);
    }
    bytes
}

fn num(i: i32) -> Exp {
    Exp::Term(Box::new(Term::Int(i)))
}

/// A chain of `k` added integers, whose code spans well over a signed
/// byte's worth of serialized bytes for large `k`.
fn long_sum(k: i32) -> Exp {
    let mut e = num(1);
    for _ in 1..k {
        e = Exp::Add(Box::new(e), Box::new(Term::Int(1)));
    }
    e
}

/// The narrowest jump encoding flips exactly between an offset of 127,
/// which fits in a signed byte, and 128, which does not.
#[test]
fn jump_width_boundary() {
    assert_eq!(Insn::j(127), Insn::J8(127));
    assert_eq!(Insn::j(128), Insn::J32(128));
    assert_eq!(Insn::je(127), Insn::Je8(127));
    assert_eq!(Insn::je(128), Insn::Je32(128));
    let boundary = vec![Insn::j(127), Insn::j(128), Insn::je(127), Insn::je(128)];
    let bytes = encode_all(vec![Insn::j(127), Insn::j(128), Insn::je(127), Insn::je(128)]);
    let back = decode_byte_code(&bytes, 0, bytes.len()).expect("boundary stream decodes");
    assert_eq!(back, boundary);
}

/// Backpatched jump offsets round-trip: a conditional whose branches are
/// long enough to need 32-bit offsets serializes and decodes back to the
/// very instructions the compiler emitted, wide branches included.
#[test]
fn backpatch_round_trip() {
    let e = Exp::If {
        cond: Box::new(Exp::Term(Box::new(Term::Bool(false)))),
        then_e: Box::new(long_sum(40)),
        else_e: Box::new(long_sum(35)),
    };
    let mut cmp = Compiler::new();
    let code = match cmp.compile(&Program::Exp(e)) {
        Ok(CompiledCode::Exp(v)) => v,
        _ => panic!("conditional did not compile"),
    };
    assert!(code.iter().any(|i| matches!(i, Insn::Je32(o) if *o > 127)));
    let mut expected = Vec::new();
    for i in &code {
        expected.push(match i {
            Insn::Int(x) => Insn::Int(*x),
            Insn::Bool(b) => Insn::Bool(*b),
            Insn::Add => Insn::Add,
            Insn::Je8(o) => Insn::Je8(*o),
            Insn::Je32(o) => Insn::Je32(*o),
            Insn::J8(o) => Insn::J8(*o),
            Insn::J32(o) => Insn::J32(*o),
            Insn::Exit => Insn::Exit,
            other => panic!("unexpected instruction {:?}", other),
        });
    }
    let bytes = encode_all(code);
    let back = decode_byte_code(&bytes, 0, bytes.len()).expect("compiled stream decodes");
    assert_eq!(back, expected);
}

/// A definitions program's two sections, with their nested update blocks,
/// survive the byte form unchanged.
#[test]
fn definitions_round_trip() {
    let counter = Def::Node {
        name: Id { s: "counter".to_string() },
        init: Some(num(0)),
        val: Exp::Add(
            Box::new(Exp::Term(Box::new(Term::Last(Id { s: "counter".to_string() })))),
            Box::new(Term::Int(1)),
        ),
    };
    let mut cmp = Compiler::new();
    let (init, upd) = match cmp.compile(&Program::Def(counter)) {
        Ok(CompiledCode::DefNode { init, upd }) => (init, upd),
        _ => panic!("counter did not compile"),
    };
    let bytes_upd = encode_all(upd);
    let back_upd = decode_byte_code(&bytes_upd, 0, bytes_upd.len()).expect("update section decodes");
    assert!(matches!(back_upd.first(), Some(Insn::SaveLast)));
    let bytes = encode_all(init);
    let back = decode_byte_code(&bytes, 0, bytes.len()).expect("init section decodes");
    assert!(back.iter().any(|i| matches!(i, Insn::AllocNodeNew(_))));
    assert!(matches!(back.last(), Some(Insn::Halt)));
}

/// The framed transport form: two four-byte little-endian section lengths,
/// then the two serialized sections.
#[test]
fn frame_layout() {
    let counter = Def::Node {
        name: Id { s: "c".to_string() },
        init: Some(num(0)),
        val: Exp::Add(
            Box::new(Exp::Term(Box::new(Term::Last(Id { s: "c".to_string() })))),
            Box::new(Term::Int(1)),
        ),
    };
    let mut cmp = Compiler::new();
    let (init, upd) = match cmp.compile(&Program::Def(counter)) {
        Ok(CompiledCode::DefNode { init, upd }) => (init, upd),
        _ => panic!("counter did not compile"),
    };
    let framed = frame_byte_code(&init, &upd);
    let bi = encode_all(init);
    let bu = encode_all(upd);
    assert_eq!(framed.len(), 8 + bi.len() + bu.len());
    assert_eq!(&framed[0..4], &(bi.len() as u32).to_le_bytes());
    assert_eq!(&framed[4..8], &(bu.len() as u32).to_le_bytes());
    assert_eq!(&framed[8..8 + bi.len()], &bi[..]);
    assert_eq!(&framed[8 + bi.len()..], &bu[..]);
}

/// Each fault the machine can raise, from a stream that raises it.
#[test]
fn fault_kinds() {
    let mut m = Machine::new();
    assert_eq!(
        m.new_code(Code::Exp(vec![Insn::Int(1), Insn::Int(2), Insn::Exit])),
        Err(RuntimeErr::ValueLeft)
    );
    assert_eq!(
        m.new_code(Code::Exp(vec![Insn::Add, Insn::Exit])),
        Err(RuntimeErr::StackUnderflow)
    );
    assert_eq!(
        m.new_code(Code::Exp(vec![Insn::GetNode(5), Insn::Exit])),
        Err(RuntimeErr::BadSlot)
    );
    assert_eq!(
        m.new_code(Code::Exp(vec![Insn::J8(100), Insn::Halt])),
        Err(RuntimeErr::BadJump)
    );
    assert_eq!(
        m.new_code(Code::Exp(vec![Insn::Call(0), Insn::Exit])),
        Err(RuntimeErr::Unsupported)
    );
    assert_eq!(
        m.new_code(Code::Exp(vec![Insn::Int(1), Insn::Bool(true), Insn::Mul, Insn::Exit])),
        Err(RuntimeErr::TypeMismatch)
    );
}

/// The mailbox takes one program at a time: a submission over an undrained
/// one comes back to the caller, and draining empties the slot.
#[test]
fn mailbox_hands_over_once() {
    let mut msg = Msg::new();
    assert!(msg.try_receive_code().is_none());
    assert!(msg.send_code(Code::Exp(vec![Insn::Int(1), Insn::Exit])).is_none());
    // The slot is full: the second submission bounces back to its caller.
    let bounced = msg.send_code(Code::Exp(vec![Insn::Int(2), Insn::Exit]));
    assert!(matches!(bounced, Some(Code::Exp(_))));
    // Draining yields the first submission and empties the slot.
    assert!(matches!(msg.try_receive_code(), Some(Code::Exp(_))));
    assert!(msg.try_receive_code().is_none());
}

/// Installing a new definitions program while another is ticking rebuilds
/// the node tables wholesale: the next tick runs only the new update code.
#[test]
fn install_replaces_wholesale() {
    let mut cmp = Compiler::new();
    let first = Def::Node { name: Id { s: "a".to_string() }, init: Some(num(7)), val: num(7) };
    let (init, upd) = match cmp.compile(&Program::Def(first)) {
        Ok(CompiledCode::DefNode { init, upd }) => (init, upd),
        _ => panic!("first program did not compile"),
    };
    let mut m = Machine::new();
    assert_eq!(m.new_code(Code::DefNode { init, upd }), Ok(Value::Nil));
    assert_eq!(m.exec_upd(), Ok(()));
    assert_eq!(m.node_value(0), Some(Value::Int(7)));

    // A separate submission arrives through the mailbox mid-run.
    let second = vec![
        Def::Node { name: Id { s: "b".to_string() }, init: Some(num(1)), val: num(2) },
        Def::Node { name: Id { s: "c".to_string() }, init: Some(num(3)), val: num(4) },
    ];
    let mut cmp2 = Compiler::new();
    let (init2, upd2) = match cmp2.compile(&Program::Defs(second)) {
        Ok(CompiledCode::DefNode { init, upd }) => (init, upd),
        _ => panic!("second program did not compile"),
    };
    let mut msg = Msg::new();
    assert!(msg.send_code(Code::DefNode { init: init2, upd: upd2 }).is_none());
    if let Some(code) = msg.try_receive_code() {
        assert_eq!(m.new_code(code), Ok(Value::Nil));
    } else {
        panic!("mailbox lost the submission");
    }
    // The table was rebuilt by the new program's init section alone.
    assert_eq!(m.node_count(), 2);
    assert_eq!(m.node_value(0), Some(Value::Int(1)));
    assert_eq!(m.node_value(1), Some(Value::Int(3)));
    // The next tick runs only the new update section.
    assert_eq!(m.exec_upd(), Ok(()));
    assert_eq!(m.node_value(0), Some(Value::Int(2)));
    assert_eq!(m.node_value(1), Some(Value::Int(4)));
}

/// Scanning a small definition yields its tokens in order.
#[test]
fn tokenize_definition() {
    let toks = tokenize("node init[0] cnt = cnt + 1;").expect("text scans");
    assert_eq!(
        toks,
        vec![
            Token::KwNode,
            Token::KwInit,
            Token::RBracket,
            Token::Int(0),
            Token::LBracket,
            Token::Id(b"cnt".to_vec()),
            Token::Eq,
            Token::Id(b"cnt".to_vec()),
            Token::Plus,
            Token::Int(1),
            Token::Semicoron,
            Token::Eof,
        ]
    );
}

/// A byte that opens no token makes the whole text unscannable.
#[test]
fn tokenize_rejects_stray_bytes() {
    assert!(tokenize("a # b").is_none());
}

/// Interning hands back stable, consecutive indices, and interning a
/// string twice hands back the index it already has.
#[test]
fn interning_indices_are_stable() {
    let mut pool = QstrPool::empty();
    let i0;
    let i1;
    (pool, i0) = pool.insert("alpha".to_string());
    (pool, i1) = pool.insert("beta".to_string());
    assert_eq!(i0, QstrIndex(0));
    assert_eq!(i1, QstrIndex(1));
    let again;
    (pool, again) = pool.insert("alpha".to_string());
    assert_eq!(again, QstrIndex(0));
    assert_eq!(pool.get(i1), Some("beta"));
}
