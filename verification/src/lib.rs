//! TinyC: a small compiler for a tiny typed language.
//!
//! The pipeline is one module per stage:
//!
//! ```text
//! source text
//!   -> lexer   -> tokens                     (lexer, token, vocabulary)
//!   -> ...     -> a checked tree             (ast, sema)
//!   -> ir      -> three-address code         (ir)
//!   -> opt     -> the same, with less of it  (opt)
//! ```
//!
//! Every stage reports failures as [`diag::Diagnostic`]s carrying a source span.
//! Reading a tree out of the tokens, checking it, and writing assembly for what
//! comes out are the caller's: [`compile_with`] takes a checked tree and hands
//! back the IR a backend is given.

use vstd::prelude::*;

use diag::{diagnostic_views, Diagnostic};
use ir::func::{program_limits, program_well_formed, well_formed, ProgramView};
use ir::lower::program::{all_lowered_well, lowered, lowered_well};
use ir::ssa::construct::{all_constructed, construction_leaves_ssa_form};
use ir::ssa::destruct::{all_destructed, destructed, destructible};
use ir::ssa::form::arities_agree;
use ir::ssa::rename::{constructed, constructible};
use observe::{calls_since, may_answer, shown_in_turn, stopped, Call, StageView};
pub use observe::Observer;
use opt::optimise::all_optimised;
use sema::Types;
use stages::stages_keep_well_formed;

pub mod ast;
pub mod big;
pub mod decimal;
pub mod diag;
pub mod float;
pub mod graph;
pub mod ir;
pub mod lexer;
pub mod observe;
pub mod opt;
pub mod sema;
pub mod stages;
pub mod text;
pub mod token;
pub mod vocabulary;

verus! {

/// Stack the compiler needs to run on.
///
/// Lowering walks the tree with plain recursion, so source nesting becomes call
/// frames, several kilobytes of them per level in a debug build. A thread is
/// often handed no more than one megabyte, so anything that runs the pipeline
/// should do it on a thread with this much.
pub const STACK_SIZE: usize = 33554432;

/// Everything the pipeline produced.
#[derive(Debug)]
pub struct Compiled {
    pub ir: ir::Program,
}

/// An intermediate result, on its way past [`compile_with`]'s observer.
#[derive(Debug)]
pub enum Stage<'a> {
    /// The IR in SSA form, as the optimiser leaves it.
    Ssa(&'a ir::Program),
    /// The IR out of SSA form, as the backend is handed it.
    Ir(&'a ir::Program),
}

/// What to do with a program beyond compiling it.
///
/// One field so far, and a struct rather than a bare `bool` because the next
/// one should not have to change every call site.
#[derive(Clone, Copy, Debug)]
pub struct Options {
    /// Whether to run [`opt`] over the IR before it reaches the backend.
    ///
    /// Turning it off is what makes the passes *readable*: `--emit ir` twice,
    /// once each way, is the diff.
    pub optimise: bool,
}

impl Default for Options {
    fn default() -> (options: Options)
        ensures
            options.optimise,
    {
        Options { optimise: true }
    }
}

/// A lowered program in SSA form, as the optimiser leaves it.
pub open spec fn in_ssa_form(program: ProgramView, options: Options) -> ProgramView {
    let functions = all_constructed(program.functions);
    ProgramView {
        functions: if options.optimise {
            all_optimised(functions)
        } else {
            functions
        },
        ..program
    }
}

/// A program out of SSA form, as the backend is handed it.
pub open spec fn out_of_ssa_form(program: ProgramView) -> ProgramView {
    ProgramView { functions: all_destructed(program.functions), ..program }
}

/// What an observer is shown of a lowered program, stage by stage.
pub open spec fn stages_of(program: ProgramView, options: Options) -> Seq<StageView> {
    let ssa = in_ssa_form(program, options);
    seq![StageView::Ssa(ssa), StageView::Ir(out_of_ssa_form(ssa))]
}

/// Whether the registers and the blocks there are to be can be numbered.
pub open spec fn can_be_numbered(program: ProgramView, options: Options) -> bool {
    &&& forall|i: int|
        0 <= i < program.functions.len() ==> constructed(
            #[trigger] program.functions[i],
        ).names.len() <= u32::MAX
    &&& forall|i: int|
        0 <= i < in_ssa_form(program, options).functions.len() ==> {
            let done = destructed(
                #[trigger] in_ssa_form(program, options).functions[i],
            );
            done.blocks.len() <= u32::MAX && done.names.len() <= u32::MAX
        }
}

/// Into SSA form, through the optimiser where it is wanted.
fn into_ssa_form(program: &mut ir::Program, options: Options)
    requires
        all_lowered_well(
            old(program)@.functions,
            program_limits(old(program)@),
            old(program)@.strings.len(),
            old(program)@.texts.len(),
        ),
        can_be_numbered(old(program)@, options),
    ensures
        final(program)@ == in_ssa_form(old(program)@, options),
        forall|i: int|
            0 <= i < final(program)@.functions.len() ==> destructible(
                #[trigger] final(program)@.functions[i],
            ),
{
    let ghost whole = program@;
    proof {
        assert forall|i: int| 0 <= i < whole.functions.len() implies constructible(
            #[trigger] whole.functions[i],
        ) by {
            assert(lowered_well(
                whole.functions[i],
                program_limits(whole),
                whole.strings.len(),
                whole.texts.len(),
            ));
        }
    }
    ir::ssa::construct(program);
    let ghost constructed = program@;
    proof {
        assert forall|i: int| 0 <= i < constructed.functions.len() implies well_formed(
            #[trigger] constructed.functions[i],
        ) && arities_agree(constructed.functions[i].blocks) by {
            construction_leaves_ssa_form(whole.functions[i]);
        }
    }
    if options.optimise {
        opt::optimise(program);
    }
    proof {
        let done = program@;
        assert(done =~= in_ssa_form(whole, options));
        assert forall|i: int| 0 <= i < done.functions.len() implies destructible(
            #[trigger] done.functions[i],
        ) by {
            assert(well_formed(constructed.functions[i]));
            assert(done.functions[i] == in_ssa_form(whole, options).functions[i]);
        }
    }
}

/// Run the middle of the pipeline, from a checked tree to what a backend is
/// handed.
pub fn compile(ast: &ast::Program, types: Types) -> (result: Result<Compiled, Vec<Diagnostic>>)
    requires
        lowered(*ast, types) is Some,
        lowered(*ast, types)->0 matches Ok(program) ==> can_be_numbered(
            program,
            Options { optimise: true },
        ),
    ensures
        match lowered(*ast, types)->0 {
            Ok(program) => result is Ok && result->Ok_0.ir@ == out_of_ssa_form(
                in_ssa_form(program, Options { optimise: true }),
            ) && program_well_formed(result->Ok_0.ir@),
            Err(errors) => result is Err && diagnostic_views(result->Err_0@) == errors,
        },
{
    match ir::lower(ast, types) {
        Ok(program) => {
            let mut ir = program;
            proof {
                stages_keep_well_formed(ir@, Options { optimise: true });
            }
            into_ssa_form(&mut ir, Options { optimise: true });
            ir::ssa::destruct(&mut ir);
            Ok(Compiled { ir })
        },
        Err(errors) => Err(errors),
    }
}

/// Run the middle of the pipeline, showing each intermediate result to `observe`
/// as it is produced. `observe` answers whether to carry on, which is what lets
/// a caller stop after a stage, and why there is only one copy of the stage
/// order in the whole compiler.
///
/// What `observe` is shown is a first part of [`stages_of`] the program, each stage
/// once, and nothing behind an answer to stop. The answer is `None` exactly when
/// `observe` stopped the run.
pub fn compile_with<F: FnMut(Stage<'_>) -> bool>(
    ast: &ast::Program,
    types: Types,
    options: Options,
    observe: &mut Observer<F>,
) -> (result: Result<Option<Compiled>, Vec<Diagnostic>>)
    requires
        lowered(*ast, types) is Some,
        lowered(*ast, types)->0 matches Ok(program) ==> can_be_numbered(program, options),
        old(observe).ready(),
    ensures
        final(observe).function() == old(observe).function(),
        match lowered(*ast, types)->0 {
            Ok(program) => {
                let stages = stages_of(program, options);
                let calls = calls_since(old(observe)@, final(observe)@);
                &&& final(observe)@ == old(observe)@ + calls
                &&& shown_in_turn(calls, stages)
                &&& forall|i: int|
                    0 <= i < calls.len() ==> may_answer(
                        old(observe).function(),
                        #[trigger] calls[i],
                    )
                &&& match result {
                    Ok(Some(compiled)) => {
                        &&& !stopped(calls)
                        &&& calls.len() == stages.len()
                        &&& compiled.ir@ == out_of_ssa_form(in_ssa_form(program, options))
                        &&& program_well_formed(compiled.ir@)
                    },
                    Ok(None) => stopped(calls),
                    Err(_) => false,
                }
            },
            Err(errors) => result is Err && diagnostic_views(result->Err_0@) == errors
                && final(observe)@ == old(observe)@,
        },
{
    let ghost before = observe@;
    let mut ir = match ir::lower(ast, types) {
        Ok(program) => program,
        Err(errors) => {
            return Err(errors);
        },
    };
    let ghost program = ir@;
    proof {
        stages_keep_well_formed(program, options);
    }
    // SSA is the form the middle of the compiler works in: lowering does not
    // produce it and the backend cannot read it, so it is put on here and taken
    // off again below.
    into_ssa_form(&mut ir, options);
    let ghost ssa = StageView::Ssa(ir@);
    let carry_on: bool = observe.show(Stage::Ssa(&ir));
    let ghost first = Call { stage: ssa, carry_on };
    assert(calls_since(before, observe@) =~= seq![first]);
    assert(may_answer(old(observe).function(), first));
    if !carry_on {
        assert(!seq![first][0].carry_on);
        return Ok(None);
    }
    ir::ssa::destruct(&mut ir);
    // Optimised before it is shown, not after: what is shown is what the backend
    // is about to be handed, not a draft of it.
    let ghost done = StageView::Ir(ir@);
    let carry_on: bool = observe.show(Stage::Ir(&ir));
    let ghost second = Call { stage: done, carry_on };
    assert(calls_since(before, observe@) =~= seq![first, second]);
    assert(may_answer(old(observe).function(), second));
    if !carry_on {
        assert(!seq![first, second][1].carry_on);
        return Ok(None);
    }
    Ok(Some(Compiled { ir }))
}

} // verus!
