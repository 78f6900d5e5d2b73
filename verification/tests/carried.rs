//! The tests carried over from the library's components: the linked list,
//! the narrow/wide jump choice, the interned-string pool, and number
//! scanning.

use tickvm::datastructure::List;
use tickvm::insn::Insn;
use tickvm::qstr::{QstrIndex, QstrPool};
use tickvm::token::{tokenize_num, Token};

#[test]
fn linkedlist_test() {
    let mut lst = List::new();
    for i in 0..10 {
        lst.push(i);
    }
    println!("{:?}", lst);
}

#[test]
fn insn_8_32() {
    assert_eq!(Insn::j(1000), Insn::J32(1000));
    assert_eq!(Insn::j(100), Insn::J8(100));
    assert_eq!(12, 12usize.to_le_bytes()[0]);
}

#[test]
fn qstrpool_test() {
    let mut pool = QstrPool::empty();
    for s in ["a", "b", "c", "d", "a", "c", "e", "f", "a"] {
        (pool, _) = pool.insert(s.to_string())
    }
    for (i, s) in ["a", "b", "c", "d", "e", "f"].iter().enumerate() {
        println!("{}", s);
        assert_eq!(Some(QstrIndex(i)), pool.find(s));
        assert_eq!(Some(*s), pool.get(QstrIndex(i)));
    }
}

#[test]
fn tokenize_num_test() {
    assert!(matches!(
        tokenize_num(0, b"123;"),
        Some((3, Token::Int(123)))
    ));
    assert!(matches!(
        tokenize_num(2, b"  1230"),
        Some((4, Token::Int(1230)))
    ));
    assert!(matches!(tokenize_num(1, b" 0 ;"), Some((1, Token::Int(0)))));
    assert!(tokenize_num(1, b" 00 ;").is_none());
    assert!(tokenize_num(1, b" 1000000000000000000000 ;").is_none());
}
