//! A small reactive dataflow language: a compiler that turns definitions of
//! *nodes* — time-varying values with an explicit initial state and an update
//! formula that may read other nodes, or any node's previous-tick value —
//! into a two-phase bytecode program, and a stack machine that runs the
//! program on a tick schedule.
//!
//! A submission flows through [`compile`]: the nodes' current-value
//! dependencies are analyzed and ordered ([`dependency`]) — a cycle is a
//! compile-time error — and the program is assembled over the instruction
//! set ([`insn`]), which also has a compact serialized byte form. The
//! machine ([`machine`]) executes the one-shot initialization section once,
//! then one pass of the cyclic update section per tick, and takes freshly
//! compiled programs through a single-slot mailbox, so a running program
//! can be replaced between ticks. Around the core stand the tokenizer
//! ([`token`]), the interned-string pool ([`qstr`]), and the linked list
//! the compiler's dependency sets use ([`datastructure`]).

pub mod ast;
pub mod compile;
pub mod datastructure;
pub mod dependency;
pub mod insn;
pub mod machine;
pub mod qstr;
pub mod token;
