//! Into SSA form, and back out of it.
//!
//! Lowering gives a variable **one** virtual register for its whole life and
//! writes it as often as the program assigns it. That is the smallest thing
//! that works, and it is what makes every interesting question about a value
//! unanswerable: `%n` at one point and `%n` at another need not hold the same
//! thing, so nothing can be said about `%n`, only about `%n` *here*, which
//! takes one dataflow analysis to find out and another to use.
//!
//! [`construct`] rewrites the function so that **every virtual register is
//! written exactly once**. Where two definitions meet, the block they meet in
//! grows a *parameter*, and each edge into it carries the definition that
//! reaches along that edge:
//!
//! ```text
//! entry0:                            entry0:
//!   %n = const 1                       %n = const 1
//!   branch %c ? then1 : else2          branch %c ? then1 : else2
//! then1:                             then1:
//!   %n = add %n, 1                     %n.1 = add %n, 1
//!   jump join3                         jump join3(%n.1)
//! else2:                             else2:
//!   jump join3                         jump join3(%n)
//! join3:                             join3(%n.2):
//!   print int %n                       print int %n.2
//! ```
//!
//! Everything after it gets easier. A register now *has* a value rather than
//! holding a different one at each point, so constant propagation is a walk
//! over definitions rather than a fixpoint over blocks; a copy is removable by
//! substituting its source everywhere; and a write nothing reads is dead on its
//! own account rather than needing a backward liveness pass to prove it.
//!
//! [`destruct`] undoes it before the register allocator ever sees the function,
//! by turning each edge's arguments into copies at the end of the block the
//! edge leaves. Machines have no block parameters: SSA is a form the *middle*
//! of the compiler works in, not something a backend has to understand.
//!
//! ## Where the parameters go
//!
//! At the **iterated dominance frontier** of a variable's definitions, the
//! standard answer, and the one place a value written on one path can meet a
//! value written on another. Two refinements keep the result small:
//!
//! * Only variables written in more than one block are considered. A temporary
//!   is written once, and one definition cannot meet another.
//! * A parameter is placed only where the variable is **live**, which is what
//!   stops a value computed inside a loop from growing a parameter on a header
//!   it is not live on, where the entry edge would have had to hand it a value
//!   that does not exist yet.

pub mod above;
pub mod climb;
pub mod construct;
pub mod destruct;
pub mod dom;
pub mod form;
pub mod leaving;
pub mod meaning;
pub mod names;
pub mod order;
pub mod place;
pub mod rename;

pub use construct::{construct, construct_function};
pub use destruct::{destruct, destruct_function, sequence, Move};
pub use dom::Dominators;
pub use names::Names;
