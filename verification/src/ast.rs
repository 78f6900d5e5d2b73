//! Abstract syntax of the dataflow language.
//!
//! The surface grammar (parsed upstream; the parser is not part of this
//! library) is:
//!
//! ```text
//! TOP     => (DEF)* | EXP
//! DEF     => DEFNODE | DEFDATA | DEFFUNC
//! DEFNODE => node init[EXP] ID = EXP
//! DEFDATA => data ID = EXP
//! DEFFUNC => func ID (PARAMS) = EXP
//! PARAMS  => (ID [, ID]*)?
//! EXP     => if EXP then EXP else EXP | EXP + TERM | TERM
//! TERM    => TERM * TERM | FNCALL | INTEGER | BOOLEAN | ID
//! FNCALL  => ID(ARGS)
//! ARGS    => (EXP [, EXP]*)?
//! ID      => [a-zA-Z][a-zA-Z0-9]*
//! ```

use vstd::prelude::*;

verus! {

/// An identifier: equality is by underlying string content.
#[derive(Debug, Clone)]
pub struct Id {
    pub s: String,
}

impl View for Id {
    type V = Seq<char>;

    open spec fn view(&self) -> Seq<char> {
        self.s@
    }
}

impl PartialEq for Id {
    fn eq(&self, other: &Id) -> (r: bool)
        ensures
            r == (self@ == other@),
    {
        self.s == other.s
    }
}

impl vstd::std_specs::cmp::PartialEqSpecImpl for Id {
    open spec fn obeys_eq_spec() -> bool {
        true
    }

    open spec fn eq_spec(&self, other: &Id) -> bool {
        self@ == other@
    }
}

impl Eq for Id {}

/// A submission: a batch of definitions, a single definition, or a bare
/// expression to evaluate once.
#[derive(Debug)]
pub enum Program {
    Defs(Vec<Def>),
    Def(Def),
    Exp(Exp),
}

/// One definition. A node is a reactive cell with an optional initial value
/// (absent means the cell starts as nil) and an update formula evaluated every
/// tick. Data is a named constant and func a named parameterized expression;
/// both are recognized but take no part in tick-to-tick ordering.
#[derive(Debug)]
pub enum Def {
    Node { name: Id, init: Option<Exp>, val: Exp },
    Data { name: Id, val: Exp },
    Func { name: Id, params: Vec<Id>, body: Exp },
}

/// An expression: addition layers over terms, plus a conditional form.
#[derive(Debug)]
pub enum Exp {
    If { cond: Box<Exp>, then_e: Box<Exp>, else_e: Box<Exp> },
    Add(Box<Exp>, Box<Term>),
    Term(Box<Term>),
}

/// A term: multiplication, literals, calls, and identifier reads. `Last(x)`
/// reads node `x`'s value as of the previous tick and never creates an
/// ordering dependency; `Id(x)` reads a local or a node's current value.
#[derive(Debug)]
pub enum Term {
    Mul(Box<Term>, Box<Term>),
    Int(i32),
    FnCall(Box<Id>, Vec<Exp>),
    Bool(bool),
    Last(Id),
    Id(Id),
}

} // verus!
