//! Stage 4b: IR -> IR.
//!
//! Lowering already folds what it can see — `print(1 + 2 * 3)` reaches the
//! backend as `print int 7` — but it folds *syntax*: as soon as a value goes
//! through a variable, it stops looking.
//!
//! ```text
//! int a = 6;  int b = 7;  println(a + b);
//! ```
//!
//! Answering that needs a *pass*: a walk over the finished control flow graph,
//! which knows what reaches each point rather than what was written there. Two
//! run here.
//!
//! * [`propagate`] works out which registers hold a value known at compile
//!   time, and rewrites what it can — an operation on two known operands
//!   becomes its answer, a branch on a known condition becomes a jump, and a
//!   block nothing can reach any more goes away.
//! * [`eliminate_dead`] removes what nothing reads.
//!
//! They run in that order and to a fixpoint, because each feeds itself: a
//! branch folded to a jump can leave a block unreachable, whose disappearance
//! makes a variable constant on the only path that is left.
//!
//! ## The one rule
//!
//! **A pass may change how long a program takes and how much it spells out. It
//! may not change what the program does — including where it stops.**
//!
//! That reads like a platitude until it meets guarded arithmetic. The language
//! stops rather than answer wrongly, so an overflow is *observable behaviour*,
//! and two things follow that a language with wrapping arithmetic would not have
//! to think about:
//!
//! * **Folding is allowed exactly when the answer exists.**
//!   [`crate::ir::fold_bin`] is the same function lowering uses, and it answers
//!   `None` for anything the machine would refuse — so `a * b` that overflows
//!   stays an instruction, and the program still stops where it was written.
//! * **Dead code that can fail is not dead.** An unread `%t = mul %a, %b` still
//!   decides whether the program gets any further, so
//!   [`crate::ir::Instr::can_fail`] is what [`eliminate_dead`] asks before
//!   removing anything.
//!
//! [`runs`] proves the rule of every run that goes on, and [`stops`] of every run
//! that stops, with [`lengths`] for an index that is out of range. [`form`] proves
//! that what comes out is still in SSA form, and [`complete`] that nothing is left that
//! could have been worked out or left out.

pub mod again;
pub mod complete;
pub mod dead;
pub mod facts;
pub mod form;
pub mod lengths;
pub mod meaning;
pub mod optimise;
pub mod rewrite;
pub mod runs;
pub mod stops;

pub use dead::eliminate_dead;
pub use optimise::{optimise, optimise_function};
pub use rewrite::propagate;
