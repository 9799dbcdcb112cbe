//! AST -> IR.
//!
//! One [`builder::Lowering`] per function walks the tree and appends
//! instructions to the block it is currently filling. [`meaning`] says what each
//! piece of the tree becomes; the other modules split the walk by what it is
//! walking: statements, control flow, `match`, places and aggregates,
//! expressions, and `print`.
//!
//! What is built can be run, and that it does what the tree says is proved by
//! running it. [`machine`] has registers and memory, and works out expressions;
//! [`stores`], [`rooms`] and [`variants`] put values somewhere and find them again;
//! [`dispatch`] calls what is named; [`branches`], [`loops`] and [`matches`] follow
//! a run from block to block; [`writing`] looks at what is printed. [`pieces`] and
//! [`copies`] say the rest of what is built; [`held`] of which strings are grown in
//! place, and [`naming`] and [`kept`] of a program's functions.

pub mod branches;
pub mod builder;
pub mod calls;
pub mod copies;
pub mod dispatch;
pub mod expr;
pub mod flow;
pub mod held;
pub mod kept;
pub mod loops;
pub mod machine;
pub mod matches;
pub mod matching;
pub mod meaning;
pub mod naming;
pub mod owned;
pub mod pieces;
pub mod place;
pub mod print;
pub mod program;
pub mod rooms;
pub mod state;
pub mod stmt;
pub mod stores;
pub mod variants;
pub mod writing;
pub mod written;

pub use program::{lower, ENTRY_POINT};
