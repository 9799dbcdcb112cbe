//! AST -> intermediate representation.
//!
//! The IR is three-address code over an unbounded supply of *virtual*
//! registers, arranged as a **control flow graph**: a list of basic blocks,
//! each a straight run of instructions ending in a terminator that names its
//! successors.

pub mod block;
pub mod coalesce;
pub mod deeds;
pub mod dump;
pub mod exact;
pub mod fold;
pub mod func;
pub mod halt;
pub mod instr;
pub mod lines;
pub mod liveness;
pub mod lower;
pub mod parts;
pub mod run;
pub mod shared;
pub mod sharing;
pub mod ssa;
pub mod value;
pub mod vregset;

pub use block::{
    prune_unreachable, Block, BlockKind, BlockView, Target, TargetView, TermView, Terminator,
};
pub use fold::{fold_bin, fold_cmp, fold_logic, negate_const, zero_to_subtract_from};
pub use func::{Function, FunctionView, Program, ProgramView};
pub use instr::{DivGuards, Instr, InstrView, Runtime};
pub use liveness::{liveness, Liveness, VRegSet};
pub use lower::lower;
pub use value::{
    BlockId, FuncId, Num, StrId, TextId, VReg, Value, CHAR_BYTES, MAX_FRAME_BYTES, STR_HEADER,
};
