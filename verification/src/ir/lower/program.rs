//! Lowering whole functions, and the program they make up.

use vstd::prelude::*;

use crate::ast::{ClassDecl, FnDecl, MethodInfo, Param, Program as Ast, Ty, TypeTable};
use crate::diag::{diagnostic_views, Diagnostic, DiagnosticView};
use crate::graph::reaches;
use crate::ir::block::{
    block_views, is_flow_graph, prune_unreachable, pruned, Block, BlockKind, BlockView, TermView,
    Terminator,
};
use crate::ir::deeds::{is_deed, length_is_asked, lengths_are_asked};
use crate::ir::func::{
    all_reached, arities, arity, arrived, arrives_in, block_within, call_matches, calls_match,
    function_known, function_views, hands_nothing, instr_known, leading, literal_views,
    parameters_arrive, position_taken, program_limits, pruning_keeps_known,
    pruning_keeps_well_formed, pruning_leaves_only_what_is_reached, target_args_empty,
    vtable_views, well_formed, Function, FunctionView, Limits, Program, ProgramView,
};
use crate::ir::instr::{instr_within, InstrView};
use crate::ir::liveness::{live_at, reads_only_written};
use crate::ir::lower::builder::{blank, pending_views, Lowering};
use crate::ir::lower::calls::{
    call_graph, called_flags, called_only, calls_of_blocks, calls_of_instr, calls_of_instrs,
    is_call_graph, kept_functions, makes_known_classes, prune_unreachable_functions,
    renamed_function, renamed_instr,
};
use crate::ir::lower::meaning::stmts_from;
use crate::ir::lower::owned::{function_seen, nothing_else_holds, owned_strings};
use crate::ir::lower::state::{
    arrivals, arrives_among, bounds, called, declared_arities, emitted, ended, first_at, kept,
    limits, named, opened, params_among, pending_within, rests_on, sound, term_within, Context,
    ContextView, PendingBlock, PendingView, State, Strings,
};
use crate::ir::lower::written::{filled_reads_only_written, renaming_keeps_reads};
use crate::ir::value::{value_within, FuncId, VReg, Value, MAX_FRAME_BYTES};
use crate::sema::Types;
use crate::text::{decimal_nat, push_decimal_u64, text_views};

verus! {

/// What a program starts in.
pub const ENTRY_POINT: &'static str = "main";

// -- one function -----------------------------------------------------------

/// A function with its entry open and, where its answer is an aggregate, the
/// address the caller handed in for it.
pub open spec fn started(
    cx: ContextView,
    ret: Option<Ty>,
    strings: Seq<Seq<char>>,
    texts: Seq<Seq<char>>,
) -> Option<State> {
    match opened(blank(strings, texts, limits(cx)), BlockKind::Entry, Set::empty()) {
        Some((st, _)) => if leading(ret) == 1 {
            match named(st, "out"@) {
                Some((st, dst)) => Some(
                    State {
                        out_pointer: Some(dst),
                        ..emitted(st, InstrView::Param { dst, index: 0 })
                    },
                ),
                None => None,
            }
        } else {
            Some(st)
        },
        None => None,
    }
}

/// The parameters from `i` on, each defined at the top of the function.
pub open spec fn params_from(
    st: State,
    params: Seq<Param>,
    types: Seq<Ty>,
    first: u32,
    i: int,
    regs: Seq<VReg>,
) -> Option<(State, Seq<VReg>)>
    decreases params.len() - i,
{
    if 0 <= i < params.len() && i < types.len() {
        match named(st, params[i].name@) {
            Some((st, dst)) => if i + first <= u32::MAX {
                params_from(
                    called(
                        emitted(st, InstrView::Param { dst, index: (i + first) as u32 }),
                        params[i].name@,
                        dst,
                        types[i],
                    ),
                    params,
                    types,
                    first,
                    i + 1,
                    regs.push(dst),
                )
            } else {
                None
            },
            None => None,
        }
    } else {
        Some((st, regs))
    }
}

/// The blocks of a function that is done, where each of them was finished.
pub open spec fn closed_off(blocks: Seq<PendingView>) -> Option<Seq<BlockView>> {
    if forall|i: int| 0 <= i < blocks.len() ==> (#[trigger] blocks[i]).term is Some {
        Some(
            Seq::new(
                blocks.len(),
                |i: int|
                    BlockView {
                        kind: blocks[i].kind,
                        params: seq![],
                        index: i as u32,
                        instrs: blocks[i].instrs,
                        term: blocks[i].term->0,
                    },
            ),
        )
    } else {
        None
    }
}

/// A function with everything in it, and the registers its parameters arrive in.
pub open spec fn filled_in(
    cx: ContextView,
    decl: FnDecl,
    ret: Option<Ty>,
    params: Seq<Ty>,
    strings: Seq<Seq<char>>,
    texts: Seq<Seq<char>>,
) -> Option<(State, Seq<VReg>)> {
    if decl.params@.len() == params.len() {
        match started(cx, ret, strings, texts) {
            Some(st) => match params_from(st, decl.params@, params, leading(ret), 0, seq![]) {
                Some((st, regs)) => match stmts_from(cx, st, decl.body.stmts, 0) {
                    Some(st) => Some((ended(st, st.current, TermView::Return(None)), regs)),
                    None => None,
                },
                None => None,
            },
            None => None,
        }
    } else {
        None
    }
}

/// What a declaration lowers to, and the literals found so far.
///
/// What the prologue reserves is the most room that was ever in use at once.
pub open spec fn function_of(
    cx: ContextView,
    decl: FnDecl,
    ret: Option<Ty>,
    params: Seq<Ty>,
    strings: Seq<Seq<char>>,
    texts: Seq<Seq<char>>,
) -> Option<(FunctionView, Seq<Seq<char>>, Seq<Seq<char>>)> {
    match filled_in(cx, decl, ret, params, strings, texts) {
        Some((st, regs)) => finished_function(st, decl.name@, ret, regs),
        None => None,
    }
}

/// A function once everything is in it: only the blocks control can get to.
pub open spec fn finished_function(
    st: State,
    name: Seq<char>,
    ret: Option<Ty>,
    params: Seq<VReg>,
) -> Option<(FunctionView, Seq<Seq<char>>, Seq<Seq<char>>)> {
    match closed_off(st.blocks) {
        Some(blocks) => Some(
            (
                FunctionView {
                    name,
                    params,
                    ret,
                    frame_bytes: st.frame_peak,
                    blocks: pruned(blocks),
                    names: st.names,
                },
                st.strings,
                st.texts,
            ),
        ),
        None => None,
    }
}

/// What holds of every function lowering hands on.
pub open spec fn lowered_well(
    function: FunctionView,
    limits: Limits,
    strings: nat,
    texts: nat,
) -> bool {
    &&& well_formed(function)
    &&& all_reached(function.blocks)
    &&& hands_nothing(function.blocks)
    &&& parameters_arrive(function)
    &&& function_known(function, limits, strings, texts)
    &&& calls_match(function, limits)
    &&& lengths_are_asked(function.blocks)
}

/// Fewer blocks call and look at indices as more do.
proof fn pruning_keeps_calls_and_lengths(function: FunctionView, limits: Limits)
    requires
        calls_match(function, limits),
        lengths_are_asked(function.blocks),
    ensures
        calls_match(FunctionView { blocks: pruned(function.blocks), ..function }, limits),
        lengths_are_asked(pruned(function.blocks)),
{
    let blocks = function.blocks;
    let kept = pruned(blocks);
    assert forall|i: int, k: int|
        #![trigger kept[i].instrs[k]]
        0 <= i < kept.len() && 0 <= k < kept[i].instrs.len() implies call_matches(
        kept[i].instrs[k],
        limits,
    ) && length_is_asked(kept, kept[i].instrs[k]) by {
        let at = position_taken(blocks, blocks.len() as int, i);
        assert(kept[i].instrs[k] == blocks[at].instrs[k]);
        assert(length_is_asked(blocks, blocks[at].instrs[k]));
        if let InstrView::Elem { len: Value::Reg(reg), .. } = kept[i].instrs[k] {
            assert forall|b: int, j: int|
                #![trigger kept[b].instrs[j]]
                0 <= b < kept.len() && 0 <= j < kept[b].instrs.len()
                    && kept[b].instrs[j].written() == Some(reg) implies is_deed(
                kept[b].instrs[j],
            ) by {
                let from = position_taken(blocks, blocks.len() as int, b);
                assert(kept[b].instrs[j] == blocks[from].instrs[j]);
            }
        }
    }
}

/// What arrives by one of the parameters taken at the top arrives.
proof fn among_arrives(instrs: Seq<InstrView>, index: int)
    requires
        arrives_among(params_among(instrs), index),
    ensures
        arrives_in(instrs, index, instrs.len() as int) is Some,
    decreases instrs.len(),
{
    let taken = params_among(instrs);
    let k = choose|k: int| 0 <= k < taken.len() && #[trigger] taken[k]->Param_index == index;
    let rest = instrs.drop_last();
    if k < params_among(rest).len() {
        assert(params_among(rest)[k]->Param_index == index);
        among_arrives(rest, index);
        arrives_the_same(instrs, rest, index, rest.len() as int);
    }
}

/// Where an argument arrives is settled by the instructions looked at.
proof fn arrives_the_same(a: Seq<InstrView>, b: Seq<InstrView>, index: int, n: int)
    requires
        n <= a.len(),
        n <= b.len(),
        forall|i: int| 0 <= i < n && (a[i] is Param || b[i] is Param) ==> #[trigger] a[i] == #[trigger] b[i],
    ensures
        arrives_in(a, index, n) == arrives_in(b, index, n),
    decreases n,
{
    if n > 0 {
        arrives_the_same(a, b, index, n - 1);
        assert(a[n - 1] is Param || b[n - 1] is Param ==> a[n - 1] == b[n - 1]);
    }
}

/// A finished function names only what there is.
proof fn finished_well(
    st: State,
    name: Seq<char>,
    ret: Option<Ty>,
    params: Seq<VReg>,
)
    requires
        sound(st),
        forall|i: int| 0 <= i < params.len() ==> (#[trigger] params[i]).0 < st.names.len(),
        forall|i: int|
            0 <= i < params.len() ==> #[trigger] arrives_among(
                arrivals(st.blocks),
                i + leading(ret),
            ),
        finished_function(st, name, ret, params) is Some,
        st.blocks[0].given == Set::<VReg>::empty(),
    ensures
        is_flow_graph(closed_off(st.blocks)->0),
        st.settled ==> reads_only_written((finished_function(st, name, ret, params)->0).0),
        lowered_well(
            (finished_function(st, name, ret, params)->0).0,
            st.limits,
            st.strings.len(),
            st.texts.len(),
        ),
{
    reveal(sound);
    let blocks = closed_off(st.blocks)->0;
    let whole = FunctionView {
        name,
        params,
        ret,
        frame_bytes: st.frame_peak,
        blocks,
        names: st.names,
    };
    assert forall|i: int| 0 <= i < blocks.len() implies block_within(
        #[trigger] blocks[i],
        st.names.len(),
        blocks.len(),
    ) && blocks[i].index == i && blocks[i].params.len() == 0 && target_args_empty(blocks[i]) by {
        let pending = st.blocks[i];
        assert(pending_within(pending, bounds(st)));
        assert(pending.term is Some);
        let term = pending.term->0;
        assert(term_within(term, st.names.len(), st.blocks.len()));
        assert forall|k: int| 0 <= k < term.operands().len() implies value_within(
            #[trigger] term.operands()[k],
            st.names.len(),
        ) by {
            match term {
                TermView::Jump(target) => {
                    assert(term.targets()[0].args.len() == 0);
                },
                TermView::Branch { cond, then_blk, else_blk } => {
                    assert(term.targets()[0].args.len() == 0);
                    assert(term.targets()[1].args.len() == 0);
                    assert(value_within(term.head()[0], st.names.len()));
                },
                TermView::Return(value) => {
                    if value is Some {
                        assert(value_within(term.head()[0], st.names.len()));
                    }
                },
            }
        }
    }
    assert forall|i: int, k: int|
        #![trigger whole.blocks[i].instrs[k]]
        0 <= i < whole.blocks.len() && 0 <= k < whole.blocks[i].instrs.len() implies instr_known(
        whole.blocks[i].instrs[k],
        st.limits,
        st.strings.len(),
        st.texts.len(),
    ) by {
        assert(pending_within(st.blocks[i], bounds(st)));
        assert(st.blocks[i].instrs[k] == whole.blocks[i].instrs[k]);
    }
    assert forall|i: int, k: int|
        #![trigger whole.blocks[i].instrs[k]]
        0 <= i < whole.blocks.len() && 0 <= k < whole.blocks[i].instrs.len() implies call_matches(
        whole.blocks[i].instrs[k],
        st.limits,
    ) && length_is_asked(blocks, blocks[i].instrs[k]) by {
        assert(pending_within(st.blocks[i], bounds(st)));
        assert(st.blocks[i].instrs[k] == whole.blocks[i].instrs[k]);
        if let InstrView::Elem { len: Value::Reg(reg), .. } = blocks[i].instrs[k] {
            assert(st.lengths.contains(reg));
            assert forall|b: int, j: int|
                #![trigger blocks[b].instrs[j]]
                0 <= b < blocks.len() && 0 <= j < blocks[b].instrs.len()
                    && blocks[b].instrs[j].written() == Some(reg) implies is_deed(
                blocks[b].instrs[j],
            ) by {
                assert(pending_within(st.blocks[b], bounds(st)));
                assert(st.blocks[b].instrs[j] == blocks[b].instrs[j]);
            }
        }
    }
    pruning_keeps_calls_and_lengths(whole, st.limits);
    pruning_keeps_well_formed(whole);
    pruning_leaves_only_what_is_reached(blocks);
    crate::graph::reaches_itself(crate::ir::block::flow(blocks), 0);
    crate::ir::block::pruned_position(blocks, blocks.len() as int, 0);
    assert(pruned(blocks)[0].instrs == st.blocks[0].instrs);
    let done = (finished_function(st, name, ret, params)->0).0;
    assert forall|i: int| 0 <= i < done.params.len() implies #[trigger] arrived(
        done,
        i + leading(done.ret),
    ) is Some by {
        reveal(arrivals);
        assert(arrives_among(arrivals(st.blocks), i + leading(ret)));
        among_arrives(st.blocks[0].instrs, i + leading(ret));
    }
    pruning_keeps_known(whole, st.limits, st.strings.len(), st.texts.len());
    if st.settled {
        filled_reads_only_written(whole, st.blocks);
    }
}

/// Lower one function: the entry and the parameters, the body, and a return for
/// falling off the end.
fn run(
    cx: &Context<'_>,
    decl: &FnDecl,
    ret: Option<Ty>,
    param_types: &Vec<Ty>,
    strings: Strings,
) -> (lowered: (Function, Strings))
    requires
        strings.chars@.len() <= u32::MAX,
        strings.texts@.len() <= u32::MAX,
        function_of(
            cx@,
            *decl,
            ret,
            param_types@,
            literal_views(strings.chars@),
            text_views(strings.texts@),
        ) is Some,
    ensures
        Some(
            (
                lowered.0@,
                literal_views(lowered.1.chars@),
                text_views(lowered.1.texts@),
            ),
        ) == function_of(
            cx@,
            *decl,
            ret,
            param_types@,
            literal_views(strings.chars@),
            text_views(strings.texts@),
        ),
        lowered_well(
            lowered.0@,
            limits(cx@),
            lowered.1.chars@.len(),
            lowered.1.texts@.len(),
        ),
        strings.chars@.len() <= lowered.1.chars@.len() <= u32::MAX,
        strings.texts@.len() <= lowered.1.texts@.len() <= u32::MAX,
        arity(lowered.0@) == param_types@.len() + leading(ret),
        (filled_in(
            cx@,
            *decl,
            ret,
            param_types@,
            literal_views(strings.chars@),
            text_views(strings.texts@),
        )->0).0.settled ==> reads_only_written(lowered.0@),
{
    let ghost had = strings.chars@.len();
    let ghost had_texts = strings.texts@.len();
    let mut lowering = Lowering::empty(strings, Ghost(limits(cx@)));
    proof {
        reveal(rests_on);
    }
    lowering.new_block(BlockKind::Entry, Ghost(Set::empty()));

    // An aggregate does not come back in a register, so the caller reserves the
    // room and hands its address in ahead of everything else.
    let first: u32 = match ret {
        Some(ty) => if ty.fits_in_a_register() {
            0
        } else {
            1
        },
        None => 0,
    };
    proof {
        reveal(opened);
    }
    if first == 1 {
        let dst = lowering.fresh("out");
        proof {
            reveal(named);
        }
        lowering.arrive(dst, 0);
        lowering.set_out_pointer(dst);
    }

    // Parameters next, so each one is defined at the top of the function. What
    // arrived in the register for an aggregate is its address.
    let ghost start = lowering@;
    let mut params: Vec<VReg> = Vec::new();
    let mut i: usize = 0;
    while i < decl.params.len() && i < param_types.len()
        invariant
            i <= decl.params@.len(),
            i <= param_types@.len(),
            sound(lowering@),
            kept(start, lowering@),
            lowering@.current.0 == 0,
            start.blocks.len() > 0,
            start.blocks[0].given == Set::<VReg>::empty(),
            first == leading(ret),
            decl.params@.len() == param_types@.len(),
            params@.len() == i,
            forall|k: int|
                0 <= k < i ==> #[trigger] arrives_among(arrivals(lowering@.blocks), k + first),
            lowering@.limits == limits(cx@),
            params_from(start, decl.params@, param_types@, first, 0, seq![]) is Some,
            params_from(lowering@, decl.params@, param_types@, first, i as int, params@)
                == params_from(start, decl.params@, param_types@, first, 0, seq![]),
            forall|k: int|
                0 <= k < params@.len() ==> (#[trigger] params@[k]).0 < lowering@.names.len(),
        decreases decl.params@.len() - i,
    {
        let ghost before = lowering@;
        let dst = lowering.fresh(decl.params[i].name.as_str());
        proof {
            reveal(named);
        }
        let ghost taken = arrivals(lowering@.blocks);
        lowering.arrive(dst, i as u32 + first);
        lowering.declare(decl.params[i].name.as_str(), dst, param_types[i]);
        params.push(dst);
        proof {
            let now = arrivals(lowering@.blocks);
            assert(taken == arrivals(before.blocks));
            assert forall|k: int| 0 <= k < i + 1 implies #[trigger] arrives_among(
                now,
                k + first,
            ) by {
                if k < i {
                    assert(arrives_among(taken, k + first));
                    let at = choose|at: int|
                        0 <= at < taken.len() && #[trigger] taken[at]->Param_index == k + first;
                    assert(now[at]->Param_index == k + first);
                } else {
                    assert(now[taken.len() as int]->Param_index == k + first);
                }
            }
        }
        i = i + 1;
    }
    let ghost bare = lowering@;
    assert(bare.blocks[0].given == start.blocks[0].given);
    lowering.stmts(cx, &decl.body.stmts);
    assert(lowering@.blocks[0].given == bare.blocks[0].given);
    let ghost bodied = lowering@;
    // Falling off the end returns nothing.
    lowering.terminate(Terminator::Return(None));

    let ghost st = lowering@;
    proof {
        assert(st.blocks[0].given == bodied.blocks[0].given);
        finished_well(st, decl.name@, ret, params@);
        reveal(sound);
    }
    let (pending, vreg_names, frame_bytes, strings) = lowering.into_parts();
    let blocks: Vec<Block> = close_off(pending);
    let function = Function {
        name: decl.name.clone(),
        params,
        ret,
        frame_bytes,
        blocks: prune_unreachable(blocks),
        vreg_names,
    };
    (function, strings)
}

/// The blocks of a function, each of them finished.
fn close_off(pending: Vec<PendingBlock>) -> (blocks: Vec<Block>)
    requires
        pending@.len() <= u32::MAX,
        closed_off(pending_views(pending@)) is Some,
    ensures
        Some(block_views(blocks@)) == closed_off(pending_views(pending@)),
{
    let ghost views = pending_views(pending@);
    let ghost all = closed_off(views)->0;
    let count: usize = pending.len();
    let mut rest: Vec<PendingBlock> = pending;
    let mut blocks: Vec<Block> = Vec::new();
    let mut i: usize = 0;
    while i < count
        invariant
            i <= count == views.len() == all.len(),
            count <= u32::MAX,
            closed_off(views) == Some(all),
            rest@.len() == count - i,
            forall|j: int| 0 <= j < rest@.len() ==> (#[trigger] rest@[j])@ == views[j + i],
            blocks@.len() == i,
            forall|j: int| 0 <= j < i ==> (#[trigger] blocks@[j])@ == all[j],
        decreases count - i,
    {
        assert(rest@[0]@ == views[i as int]);
        let ghost remaining = rest@;
        let block: PendingBlock = rest.remove(0);
        assert forall|j: int| 0 <= j < rest@.len() implies (#[trigger] rest@[j])@ == views[j + i
            + 1] by {
            assert(rest@[j] == remaining[j + 1]);
        }
        assert(views[i as int].term is Some);
        let term: Terminator = match block.term {
            Some(term) => term,
            None => {
                assert(false);
                Terminator::Return(None)
            },
        };
        let done = Block {
            kind: block.kind,
            params: Vec::new(),
            index: i as u32,
            instrs: block.instrs,
            term,
        };
        assert(done@ =~= all[i as int]);
        blocks.push(done);
        i = i + 1;
    }
    assert(block_views(blocks@) =~= all);
    blocks
}

// -- the whole program ------------------------------------------------------

/// A method's name, told apart from those of other classes: `Circle$area`.
pub open spec fn method_name(class: Seq<char>, method: Seq<char>) -> Seq<char> {
    class + "$"@ + method
}

/// The names with the methods from `k` on of one class qualified.
pub open spec fn methods_named(
    ast: Ast,
    names: Seq<Seq<char>>,
    class: ClassDecl,
    k: int,
) -> Option<Seq<Seq<char>>>
    decreases class.methods@.len() - k,
{
    if 0 <= k < class.methods@.len() {
        let at = class.methods@[k] as int;
        if at < names.len() && at < ast.functions@.len() {
            methods_named(
                ast,
                names.update(at, method_name(class.name@, ast.functions@[at].name@)),
                class,
                k + 1,
            )
        } else {
            None
        }
    } else {
        Some(names)
    }
}

/// The names with the methods of the classes from `i` on qualified.
pub open spec fn classes_named(ast: Ast, names: Seq<Seq<char>>, i: int) -> Option<Seq<Seq<char>>>
    decreases ast.classes@.len() - i,
{
    if 0 <= i < ast.classes@.len() {
        match methods_named(ast, names, ast.classes@[i], 0) {
            Some(names) => classes_named(ast, names, i + 1),
            None => None,
        }
    } else {
        Some(names)
    }
}

/// The name each of the program's functions is known by once methods and free
/// functions share one list.
pub open spec fn names_of(ast: Ast) -> Option<Seq<Seq<char>>> {
    classes_named(ast, ast.functions@.map_values(|decl: FnDecl| decl.name@), 0)
}

/// What lowering one function reads.
pub open spec fn context_of(types: Types, names: Seq<Seq<char>>, decl: FnDecl) -> Option<
    ContextView,
> {
    match function_seen(types, decl) {
        Some(seen) => Some(
            ContextView {
                types,
                names,
                owned: Set::new(|name: Seq<char>| nothing_else_holds(seen, name)),
            },
        ),
        None => None,
    }
}

/// The functions from `i` on, lowered one after the other, each under its own
/// name.
pub open spec fn functions_from(
    ast: Ast,
    types: Types,
    names: Seq<Seq<char>>,
    i: int,
    strings: Seq<Seq<char>>,
    texts: Seq<Seq<char>>,
    done: Seq<FunctionView>,
) -> Option<(Seq<FunctionView>, Seq<Seq<char>>, Seq<Seq<char>>)>
    decreases ast.functions@.len() - i,
{
    if 0 <= i < ast.functions@.len() {
        if i < types.returns@.len() && i < types.params@.len() {
            match context_of(types, names, ast.functions@[i]) {
                Some(cx) => match function_of(
                    cx,
                    ast.functions@[i],
                    types.returns@[i],
                    types.params@[i]@,
                    strings,
                    texts,
                ) {
                    Some((function, strings, texts)) => functions_from(
                        ast,
                        types,
                        names,
                        i + 1,
                        strings,
                        texts,
                        done.push(FunctionView { name: names[i], ..function }),
                    ),
                    None => None,
                },
                None => None,
            }
        } else {
            None
        }
    } else {
        Some((done, strings, texts))
    }
}

/// Whether in the functions from `i` on every arm of a valued `match` that is a block
/// is left before its end, no step of a loop declares anything, and no variable is
/// read while it is being declared.
pub open spec fn settled_from(
    ast: Ast,
    types: Types,
    names: Seq<Seq<char>>,
    i: int,
    strings: Seq<Seq<char>>,
    texts: Seq<Seq<char>>,
) -> bool
    decreases ast.functions@.len() - i,
{
    if 0 <= i < ast.functions@.len() {
        match context_of(types, names, ast.functions@[i]) {
            Some(cx) => {
                let decl = ast.functions@[i];
                let ret = types.returns@[i];
                let params = types.params@[i]@;
                &&& filled_in(cx, decl, ret, params, strings, texts) matches Some((st, _))
                    && st.settled
                &&& function_of(cx, decl, ret, params, strings, texts) matches Some(
                    (_, strings, texts),
                ) && settled_from(ast, types, names, i + 1, strings, texts)
            },
            None => false,
        }
    } else {
        true
    }
}

/// Whether in every function of a program every arm of a valued `match` that is a
/// block is left before its end, no step of a loop declares anything, and no variable
/// is read while it is being declared.
pub open spec fn settled(ast: Ast, types: Types) -> bool {
    names_of(ast) matches Some(names) && settled_from(ast, types, names, 0, seq![], seq![])
}

/// What is said of a function whose locals no stack would hold.
pub open spec fn stack_diagnostic(bytes: u32, decl: FnDecl) -> DiagnosticView {
    let size = if bytes == u32::MAX {
        "more than four gigabytes"@
    } else {
        decimal_nat(bytes as nat) + " bytes"@
    };
    DiagnosticView::plain("`"@ + decl.name@ + "` needs too much stack"@, decl.name_span).labelled(
        size + " of locals, and at most "@ + decimal_nat(MAX_FRAME_BYTES as nat)
            + " are supported"@,
    ).noted(
        "every value too big for a register lives in the frame, and the frame is reserved for the whole call; `int[]` is what holds a quantity the stack cannot"@,
    )
}

/// A diagnostic put among others in the order of the source, behind any about
/// the same place.
pub open spec fn placed(sorted: Seq<DiagnosticView>, one: DiagnosticView) -> Seq<DiagnosticView>
    decreases sorted.len(),
{
    if sorted.len() == 0 {
        seq![one]
    } else if sorted.last().span.offset <= one.span.offset {
        sorted.push(one)
    } else {
        placed(sorted.drop_last(), one).push(sorted.last())
    }
}

/// What is said of the first `n` functions, in the order of the source.
pub open spec fn stack_errors(functions: Seq<FunctionView>, decls: Seq<FnDecl>, n: int) -> Seq<
    DiagnosticView,
>
    decreases n,
{
    if n <= 0 {
        seq![]
    } else if functions[n - 1].frame_bytes > MAX_FRAME_BYTES {
        placed(
            stack_errors(functions, decls, n - 1),
            stack_diagnostic(functions[n - 1].frame_bytes, decls[n - 1]),
        )
    } else {
        stack_errors(functions, decls, n - 1)
    }
}

/// Whether every method of every class is a function there is.
pub open spec fn methods_exist(table: TypeTable, functions: nat) -> bool {
    forall|i: int, k: int|
        #![trigger table.classes@[i].methods@[k]]
        0 <= i < table.classes@.len() && 0 <= k < table.classes@[i].methods@.len()
            ==> table.classes@[i].methods@[k].function < functions
}

/// One method table per class, holding the implementation each slot resolved
/// to.
pub open spec fn tables_of(table: TypeTable) -> Seq<Seq<FuncId>> {
    Seq::new(
        table.classes@.len(),
        |i: int|
            table.classes@[i].methods@.map_values(|method: MethodInfo| FuncId(method.function)),
    )
}

/// What a checked program lowers to: its functions, or what is said of those
/// whose frames no stack would hold. A frame nothing reaches is still one the
/// program asked for, so it is refused too.
pub open spec fn lowered(ast: Ast, types: Types) -> Option<
    Result<ProgramView, Seq<DiagnosticView>>,
> {
    if ast.functions@.len() <= u32::MAX && methods_exist(types.table, ast.functions@.len()) {
        match names_of(ast) {
            Some(names) => match functions_from(ast, types, names, 0, seq![], seq![], seq![]) {
                Some((functions, strings, texts)) => {
                    let errors = stack_errors(
                        functions,
                        ast.functions@,
                        ast.functions@.len() as int,
                    );
                    if errors.len() > 0 {
                        Some(Err(errors))
                    } else {
                        let entry = match first_at(names, ENTRY_POINT@, 0) {
                            Some(at) => Some(FuncId(at as u32)),
                            None => None,
                        };
                        let (functions, vtables) = called_only(
                            functions,
                            tables_of(types.table),
                            entry,
                        );
                        Some(
                            Ok(
                                ProgramView {
                                    functions,
                                    strings,
                                    texts,
                                    vtables,
                                    table: types.table,
                                },
                            ),
                        )
                    }
                },
                None => None,
            },
            None => None,
        }
    } else {
        None
    }
}

/// A function whose locals no stack would hold.
fn too_much_stack(bytes: u32, decl: &FnDecl) -> (diagnostic: Diagnostic)
    ensures
        diagnostic@ == stack_diagnostic(bytes, *decl),
{
    let mut size: String = String::new();
    if bytes == u32::MAX {
        size.append("more than four gigabytes");
        assert(size@ =~= "more than four gigabytes"@);
    } else {
        push_decimal_u64(&mut size, bytes as u64);
        size.append(" bytes");
        assert(size@ =~= decimal_nat(bytes as nat) + " bytes"@);
    }
    let mut message: String = "`".to_owned();
    message.append(decl.name.as_str());
    message.append("` needs too much stack");
    let mut label: String = size;
    label.append(" of locals, and at most ");
    push_decimal_u64(&mut label, MAX_FRAME_BYTES as u64);
    label.append(" are supported");
    let note: String =
        "every value too big for a register lives in the frame, and the frame is reserved for the whole call; `int[]` is what holds a quantity the stack cannot".to_owned();
    Diagnostic::new(message, decl.name_span).with_label(label).with_note(note)
}

/// Put a diagnostic among others in the order of the source.
fn place(sorted: &mut Vec<Diagnostic>, one: Diagnostic)
    ensures
        diagnostic_views(final(sorted)@) == placed(diagnostic_views(old(sorted)@), one@),
{
    let ghost given = sorted@;
    let ghost views = diagnostic_views(given);
    let mut at: usize = sorted.len();
    assert(views.subrange(0, at as int) =~= views);
    assert(placed(views, one@) =~= placed(views.subrange(0, at as int), one@) + views.subrange(
        at as int,
        views.len() as int,
    ));
    while at > 0 && sorted[at - 1].span.offset > one.span.offset
        invariant
            at <= sorted@.len(),
            sorted@ == given,
            views == diagnostic_views(given),
            placed(views, one@) == placed(views.subrange(0, at as int), one@) + views.subrange(
                at as int,
                views.len() as int,
            ),
        decreases at,
    {
        proof {
            let upto = views.subrange(0, at as int);
            assert(upto.last() == given[at - 1]@);
            assert(upto.drop_last() =~= views.subrange(0, at - 1));
            assert(placed(upto, one@) == placed(views.subrange(0, at - 1), one@).push(
                views[at - 1],
            ));
            assert(placed(views.subrange(0, at - 1), one@).push(views[at - 1]) + views.subrange(
                at as int,
                views.len() as int,
            ) =~= placed(views.subrange(0, at - 1), one@) + views.subrange(
                at - 1,
                views.len() as int,
            ));
        }
        at = at - 1;
    }
    proof {
        let upto = views.subrange(0, at as int);
        if at > 0 {
            assert(upto.last() == given[at - 1]@);
            assert(placed(upto, one@) == upto.push(one@));
        } else {
            assert(placed(upto, one@) =~= upto.push(one@));
        }
    }
    sorted.insert(at, one);
    assert(diagnostic_views(sorted@) =~= views.subrange(0, at as int).push(one@) + views.subrange(
        at as int,
        views.len() as int,
    ));
}

/// The name each of the program's functions is known by once methods and free
/// functions share one list: `Circle$area` for a method, the plain name
/// otherwise.
fn qualified_names(ast: &Ast) -> (names: Vec<String>)
    requires
        names_of(*ast) is Some,
    ensures
        Some(text_views(names@)) == names_of(*ast),
        names@.len() == ast.functions@.len(),
{
    let ghost plain = ast.functions@.map_values(|decl: FnDecl| decl.name@);
    let mut names: Vec<String> = Vec::new();
    let mut i: usize = 0;
    while i < ast.functions.len()
        invariant
            i <= ast.functions@.len(),
            names@.len() == i,
            forall|j: int| 0 <= j < i ==> (#[trigger] names@[j])@ == ast.functions@[j].name@,
        decreases ast.functions@.len() - i,
    {
        names.push(ast.functions[i].name.clone());
        i = i + 1;
    }
    assert(text_views(names@) =~= plain);
    let mut i: usize = 0;
    while i < ast.classes.len()
        invariant
            i <= ast.classes@.len(),
            names@.len() == ast.functions@.len(),
            names_of(*ast) is Some,
            classes_named(*ast, text_views(names@), i as int) == names_of(*ast),
        decreases ast.classes@.len() - i,
    {
        let class: &ClassDecl = &ast.classes[i];
        let ghost start = text_views(names@);
        let mut k: usize = 0;
        while k < class.methods.len()
            invariant
                k <= class.methods@.len(),
                names@.len() == ast.functions@.len(),
                methods_named(*ast, start, *class, 0) is Some,
                methods_named(*ast, text_views(names@), *class, k as int) == methods_named(
                    *ast,
                    start,
                    *class,
                    0,
                ),
            decreases class.methods@.len() - k,
        {
            let at: usize = class.methods[k];
            let ghost before = text_views(names@);
            let mut name: String = class.name.clone();
            name.append("$");
            name.append(ast.functions[at].name.as_str());
            let ghost text = name@;
            names.set(at, name);
            assert(text_views(names@) =~= before.update(at as int, text));
            k = k + 1;
        }
        i = i + 1;
    }
    names
}

/// One method table per class.
fn vtables_of(table: &TypeTable) -> (vtables: Vec<Vec<FuncId>>)
    ensures
        vtable_views(vtables@) == tables_of(*table),
{
    let mut vtables: Vec<Vec<FuncId>> = Vec::new();
    let mut i: usize = 0;
    while i < table.classes.len()
        invariant
            i <= table.classes@.len(),
            vtables@.len() == i,
            forall|j: int| 0 <= j < i ==> (#[trigger] vtables@[j])@ == tables_of(*table)[j],
        decreases table.classes@.len() - i,
    {
        let methods: &Vec<MethodInfo> = &table.classes[i].methods;
        let mut slots: Vec<FuncId> = Vec::new();
        let mut k: usize = 0;
        while k < methods.len()
            invariant
                k <= methods@.len(),
                slots@.len() == k,
                forall|j: int| 0 <= j < k ==> #[trigger] slots@[j] == FuncId(methods@[j].function),
            decreases methods@.len() - k,
        {
            slots.push(FuncId(methods[k].function));
            k = k + 1;
        }
        assert(slots@ =~= tables_of(*table)[i as int]);
        vtables.push(slots);
        i = i + 1;
    }
    assert(vtable_views(vtables@) =~= tables_of(*table));
    vtables
}

/// Where a name first occurs.
fn function_named(names: &Vec<String>, name: &str) -> (at: Option<FuncId>)
    requires
        names@.len() <= u32::MAX,
    ensures
        at == match first_at(text_views(names@), name@, 0) {
            Some(at) => Some(FuncId(at as u32)),
            None => None,
        },
        match at {
            Some(id) => id.0 < names@.len(),
            None => true,
        },
{
    let ghost views = text_views(names@);
    let mut i: usize = 0;
    while i < names.len()
        invariant
            i <= names@.len() <= u32::MAX,
            views == text_views(names@),
            first_at(views, name@, 0) == first_at(views, name@, i as nat),
        decreases names@.len() - i,
    {
        if names[i].as_str().eq(name) {
            return Some(FuncId(i as u32));
        }
        i = i + 1;
    }
    None
}

/// More literals leave everything a function names where it was.
proof fn known_grows(
    function: FunctionView,
    limits: Limits,
    strings: nat,
    texts: nat,
    more_strings: nat,
    more_texts: nat,
)
    requires
        lowered_well(function, limits, strings, texts),
        strings <= more_strings,
        texts <= more_texts,
    ensures
        lowered_well(function, limits, more_strings, more_texts),
{
    assert forall|i: int, k: int|
        #![trigger function.blocks[i].instrs[k]]
        0 <= i < function.blocks.len() && 0 <= k < function.blocks[i].instrs.len() implies instr_known(
        function.blocks[i].instrs[k],
        limits,
        more_strings,
        more_texts,
    ) by {
        assert(instr_known(function.blocks[i].instrs[k], limits, strings, texts));
    }
}

// -- what dropping functions keeps ------------------------------------------

/// What an instruction makes callable exists.
proof fn calls_in_range(
    blocks: Seq<BlockView>,
    vtables: Seq<Seq<FuncId>>,
    functions: nat,
    n: int,
    instrs: Seq<InstrView>,
    m: int,
)
    requires
        0 <= n <= blocks.len(),
        0 <= m <= instrs.len(),
        forall|i: int, k: int|
            #![trigger vtables[i][k]]
            0 <= i < vtables.len() && 0 <= k < vtables[i].len() ==> vtables[i][k].0 < functions,
        forall|i: int, k: int|
            #![trigger blocks[i].instrs[k]]
            0 <= i < blocks.len() && 0 <= k < blocks[i].instrs.len() ==> calls_known(
                blocks[i].instrs[k],
                functions,
                vtables.len(),
            ),
        forall|k: int|
            0 <= k < instrs.len() ==> calls_known(#[trigger] instrs[k], functions, vtables.len()),
    ensures
        forall|k: int|
            0 <= k < calls_of_blocks(blocks, vtables, n).len() ==> 0
                <= #[trigger] calls_of_blocks(blocks, vtables, n)[k] < functions,
        forall|k: int|
            0 <= k < calls_of_instrs(instrs, vtables, m).len() ==> 0
                <= #[trigger] calls_of_instrs(instrs, vtables, m)[k] < functions,
    decreases n, m,
{
    if m > 0 {
        calls_in_range(blocks, vtables, functions, n, instrs, m - 1);
        assert(calls_known(instrs[m - 1], functions, vtables.len()));
        let one = calls_of_instr(instrs[m - 1], vtables);
        assert forall|k: int| 0 <= k < one.len() implies 0 <= #[trigger] one[k] < functions by {
            if let InstrView::VTable { class, .. } = instrs[m - 1] {
                assert(vtables[class.0 as int][k].0 < functions);
            }
        }
        let before = calls_of_instrs(instrs, vtables, m - 1);
        let whole = calls_of_instrs(instrs, vtables, m);
        assert(whole == before + one);
        assert forall|k: int| 0 <= k < whole.len() implies 0 <= #[trigger] whole[k] < functions by {
            if k < before.len() {
                assert(whole[k] == before[k]);
            } else {
                assert(whole[k] == one[k - before.len()]);
            }
        }
    } else if n > 0 {
        calls_in_range(
            blocks,
            vtables,
            functions,
            n - 1,
            blocks[n - 1].instrs,
            blocks[n - 1].instrs.len() as int,
        );
        let before = calls_of_blocks(blocks, vtables, n - 1);
        let here = calls_of_instrs(
            blocks[n - 1].instrs,
            vtables,
            blocks[n - 1].instrs.len() as int,
        );
        let whole = calls_of_blocks(blocks, vtables, n);
        assert(whole == before + here);
        assert forall|k: int| 0 <= k < whole.len() implies 0 <= #[trigger] whole[k] < functions by {
            if k < before.len() {
                assert(whole[k] == before[k]);
            } else {
                assert(whole[k] == here[k - before.len()]);
            }
        }
    }
}

/// Whether what an instruction makes callable is there to be called.
pub open spec fn calls_known(instr: InstrView, functions: nat, vtables: nat) -> bool {
    match instr {
        InstrView::Call { callee, .. } => callee.0 < functions,
        InstrView::VTable { class, .. } => class.0 < vtables,
        _ => true,
    }
}

/// A function a call names is among what the caller makes callable.
pub proof fn call_is_among(
    blocks: Seq<BlockView>,
    vtables: Seq<Seq<FuncId>>,
    n: int,
    b: int,
    k: int,
)
    requires
        0 <= b < n <= blocks.len(),
        0 <= k < blocks[b].instrs.len(),
        blocks[b].instrs[k] is Call,
    ensures
        calls_of_blocks(blocks, vtables, n).contains(
            blocks[b].instrs[k]->Call_callee.0 as int,
        ),
    decreases n,
{
    let callee = blocks[b].instrs[k]->Call_callee.0 as int;
    let before = calls_of_blocks(blocks, vtables, n - 1);
    let instrs = blocks[n - 1].instrs;
    let here = calls_of_instrs(instrs, vtables, instrs.len() as int);
    if b < n - 1 {
        call_is_among(blocks, vtables, n - 1, b, k);
        let i = choose|i: int| 0 <= i < before.len() && before[i] == callee;
        assert((before + here)[i] == callee);
    } else {
        call_is_here(instrs, vtables, instrs.len() as int, k);
        let i = choose|i: int| 0 <= i < here.len() && here[i] == callee;
        assert((before + here)[before.len() + i] == callee);
    }
}

proof fn call_is_here(instrs: Seq<InstrView>, vtables: Seq<Seq<FuncId>>, n: int, k: int)
    requires
        0 <= k < n <= instrs.len(),
        instrs[k] is Call,
    ensures
        calls_of_instrs(instrs, vtables, n).contains(instrs[k]->Call_callee.0 as int),
    decreases n,
{
    let callee = instrs[k]->Call_callee.0 as int;
    let before = calls_of_instrs(instrs, vtables, n - 1);
    let one = calls_of_instr(instrs[n - 1], vtables);
    if k < n - 1 {
        call_is_here(instrs, vtables, n - 1, k);
        let i = choose|i: int| 0 <= i < before.len() && before[i] == callee;
        assert((before + one)[i] == callee);
    } else {
        assert(one[0] == callee);
        assert((before + one)[before.len() as int] == callee);
    }
}

/// The function that ends up at a position.
proof fn function_kept(functions: Seq<FunctionView>, flags: Seq<bool>, n: int, k: int) -> (at: int)
    requires
        0 <= n <= functions.len(),
        0 <= k < kept_functions(functions, flags, n).len(),
    ensures
        0 <= at < n,
        flags[at],
        kept_functions(functions, flags, n)[k] == renamed_function(functions[at], flags),
    decreases n,
{
    if n <= 0 {
        0
    } else if flags[n - 1] && k == kept_functions(functions, flags, n - 1).len() {
        n - 1
    } else {
        function_kept(functions, flags, n - 1, k)
    }
}

/// Where a function that stays ends up.
pub proof fn function_found(functions: Seq<FunctionView>, flags: Seq<bool>, n: int, at: int)
    requires
        0 <= at < n <= functions.len(),
        n <= flags.len(),
        flags[at],
    ensures
        crate::graph::raised_before(flags, at) < kept_functions(functions, flags, n).len(),
        kept_functions(functions, flags, n)[crate::graph::raised_before(flags, at) as int]
            == renamed_function(functions[at], flags),
    decreases n,
{
    kept_length(functions, flags, n - 1);
    if at < n - 1 {
        function_found(functions, flags, n - 1, at);
    }
}

/// Calling other functions by their new names leaves what indices are looked at
/// against.
proof fn renaming_keeps_lengths(function: FunctionView, flags: Seq<bool>)
    requires
        lengths_are_asked(function.blocks),
    ensures
        lengths_are_asked(renamed_function(function, flags).blocks),
{
    let blocks = function.blocks;
    let new = renamed_function(function, flags).blocks;
    assert forall|b: int, k: int|
        #![trigger new[b].instrs[k]]
        0 <= b < new.len() && 0 <= k < new[b].instrs.len() implies length_is_asked(
        new,
        new[b].instrs[k],
    ) by {
        assert(new[b].instrs[k] == renamed_instr(blocks[b].instrs[k], flags));
        assert(length_is_asked(blocks, blocks[b].instrs[k]));
        if let InstrView::Elem { len: Value::Reg(reg), .. } = new[b].instrs[k] {
            assert forall|c: int, j: int|
                #![trigger new[c].instrs[j]]
                0 <= c < new.len() && 0 <= j < new[c].instrs.len() && new[c].instrs[j].written()
                    == Some(reg) implies is_deed(new[c].instrs[j]) by {
                assert(new[c].instrs[j] == renamed_instr(blocks[c].instrs[j], flags));
                assert(blocks[c].instrs[j].written() == Some(reg));
            }
        }
    }
}

pub proof fn kept_length(functions: Seq<FunctionView>, flags: Seq<bool>, n: int)
    requires
        0 <= n <= functions.len(),
    ensures
        kept_functions(functions, flags, n).len() == crate::graph::raised_before(flags, n),
    decreases n,
{
    if n > 0 {
        kept_length(functions, flags, n - 1);
    }
}

/// Calling other functions by their new names keeps a function as it was.
proof fn renaming_keeps(function: FunctionView, flags: Seq<bool>)
    requires
        well_formed(function),
        all_reached(function.blocks),
        hands_nothing(function.blocks),
        parameters_arrive(function),
    ensures
        parameters_arrive(renamed_function(function, flags)),
        well_formed(renamed_function(function, flags)),
        all_reached(renamed_function(function, flags).blocks),
        hands_nothing(renamed_function(function, flags).blocks),
{
    let new = renamed_function(function, flags);
    assert forall|i: int| 0 <= i < new.params.len() implies #[trigger] arrived(
        new,
        i + leading(new.ret),
    ) is Some by {
        let a = function.blocks[0].instrs;
        let b = new.blocks[0].instrs;
        assert(arrived(function, i + leading(function.ret)) is Some);
        assert forall|k: int| 0 <= k < a.len() && (a[k] is Param || b[k] is Param) implies
            #[trigger] a[k] == #[trigger] b[k] by {
            assert(b[k] == renamed_instr(a[k], flags));
        }
        arrives_the_same(a, b, i + leading(function.ret), a.len() as int);
    }
    assert(crate::ir::block::flow(new.blocks) =~= crate::ir::block::flow(function.blocks));
    assert forall|i: int| 0 <= i < new.blocks.len() implies block_within(
        #[trigger] new.blocks[i],
        new.names.len(),
        new.blocks.len(),
    ) && new.blocks[i].index == i by {
        let old_block = function.blocks[i];
        assert(block_within(old_block, function.names.len(), function.blocks.len()));
        assert forall|k: int| 0 <= k < new.blocks[i].instrs.len() implies instr_within(
            #[trigger] new.blocks[i].instrs[k],
            new.names.len(),
        ) by {
            assert(instr_within(old_block.instrs[k], function.names.len()));
            assert(new.blocks[i].instrs[k] == renamed_instr(old_block.instrs[k], flags));
            assert(new.blocks[i].instrs[k].operands() == old_block.instrs[k].operands());
        }
    }
    assert forall|i: int| 0 <= i < new.blocks.len() implies #[trigger] crate::ir::block::reached(
        new.blocks,
        i,
    ) by {
        assert(crate::ir::block::reached(function.blocks, i));
    }
    assert forall|i: int| 0 <= i < new.blocks.len() implies (#[trigger] new.blocks[i]).params.len()
        == 0 && target_args_empty(new.blocks[i]) by {
        assert(function.blocks[i].params.len() == 0 && target_args_empty(function.blocks[i]));
    }
}

/// What holds of every function of a lowered program.
pub open spec fn all_lowered_well(
    functions: Seq<FunctionView>,
    limits: Limits,
    strings: nat,
    texts: nat,
) -> bool {
    forall|i: int|
        0 <= i < functions.len() ==> lowered_well(
            #[trigger] functions[i],
            limits,
            strings,
            texts,
        )
}

/// Whether no function reads what was not written on every way there.
pub open spec fn all_read_only_written(functions: Seq<FunctionView>) -> bool {
    forall|i: int| 0 <= i < functions.len() ==> reads_only_written(#[trigger] functions[i])
}

/// Dropping what nothing calls keeps every function whole, and every call a call
/// of a function there is.
proof fn dropping_keeps_well(
    functions: Seq<FunctionView>,
    table: TypeTable,
    strings: nat,
    texts: nat,
    entry: Option<FuncId>,
)
    requires
        functions.len() <= u32::MAX,
        methods_exist(table, functions.len()),
        all_lowered_well(functions, (Limits { arities: arities(functions), table }), strings, texts),
        match entry {
            Some(id) => id.0 < functions.len(),
            None => true,
        },
    ensures
        is_call_graph(functions, tables_of(table), entry),
        all_lowered_well(
            called_only(functions, tables_of(table), entry).0,
            (Limits { arities: arities(called_only(functions, tables_of(table), entry).0), table }),
            strings,
            texts,
        ),
        called_only(functions, tables_of(table), entry).0.len() <= functions.len(),
        all_read_only_written(functions) ==> all_read_only_written(
            called_only(functions, tables_of(table), entry).0,
        ),
{
    let limits = Limits { arities: arities(functions), table };
    let vtables = tables_of(table);
    assert forall|i: int, k: int|
        #![trigger vtables[i][k]]
        0 <= i < vtables.len() && 0 <= k < vtables[i].len() implies vtables[i][k].0
        < functions.len() by {
        assert(table.classes@[i].methods@[k].function < functions.len());
    }
    assert forall|f: int| 0 <= f < functions.len() implies makes_known_classes(
        #[trigger] functions[f],
        vtables.len(),
    ) by {
        assert(lowered_well(functions[f], limits, strings, texts));
        assert forall|i: int, k: int|
            #![trigger functions[f].blocks[i].instrs[k]]
            0 <= i < functions[f].blocks.len() && 0 <= k < functions[f].blocks[i].instrs.len()
                implies (functions[f].blocks[i].instrs[k] matches InstrView::VTable { class, .. }
            ==> class.0 < vtables.len()) by {
            assert(instr_known(functions[f].blocks[i].instrs[k], limits, strings, texts));
        }
    }
    let graph = call_graph(functions, vtables);
    if let Some(id) = entry {
        assert forall|node: int, i: int|
            #![trigger graph[node][i]]
            reaches(graph, id.0 as int, node) && 0 <= i < graph[node].len() implies 0
            <= graph[node][i] < graph.len() by {
            let path = choose|path: Seq<int>| crate::graph::leads(graph, path, id.0 as int, node);
            assert(path[path.len() - 1] == node);
            let function = functions[node];
            assert(lowered_well(function, limits, strings, texts));
            assert forall|b: int, k: int|
                #![trigger function.blocks[b].instrs[k]]
                0 <= b < function.blocks.len() && 0 <= k < function.blocks[b].instrs.len()
                    implies calls_known(
                function.blocks[b].instrs[k],
                functions.len(),
                vtables.len(),
            ) by {
                assert(instr_known(function.blocks[b].instrs[k], limits, strings, texts));
            }
            calls_in_range(
                function.blocks,
                vtables,
                functions.len(),
                function.blocks.len() as int,
                seq![],
                0,
            );
        }
        let flags = called_flags(functions, vtables, id);
        let n = functions.len() as int;
        let kept = kept_functions(functions, flags, n);
        kept_length(functions, flags, n);
        crate::graph::raised_before_grows(flags, 0, n);
        let fewer = Limits { arities: arities(kept), table };
        assert forall|j: int| 0 <= j < kept.len() implies lowered_well(
            #[trigger] kept[j],
            fewer,
            strings,
            texts,
        ) by {
            let at = function_kept(functions, flags, n, j);
            let function = functions[at];
            assert(lowered_well(function, limits, strings, texts));
            renaming_keeps(function, flags);
            let new = renamed_function(function, flags);
            assert forall|b: int, k: int|
                #![trigger new.blocks[b].instrs[k]]
                0 <= b < new.blocks.len() && 0 <= k < new.blocks[b].instrs.len()
                    implies instr_known(new.blocks[b].instrs[k], fewer, strings, texts)
                && call_matches(new.blocks[b].instrs[k], fewer) by {
                let instr = function.blocks[b].instrs[k];
                assert(instr_known(instr, limits, strings, texts));
                assert(new.blocks[b].instrs[k] == renamed_instr(instr, flags));
                if let InstrView::Call { callee, .. } = instr {
                    call_is_among(function.blocks, vtables, function.blocks.len() as int, b, k);
                    assert(graph[at].contains(callee.0 as int));
                    crate::graph::reaches_further(graph, id.0 as int, at, callee.0 as int);
                    assert(flags[callee.0 as int]);
                    crate::graph::raised_before_grows(flags, callee.0 as int, n);
                    function_found(functions, flags, n, callee.0 as int);
                    assert(call_matches(function.blocks[b].instrs[k], limits));
                }
            }
            renaming_keeps_lengths(function, flags);
        }
        if all_read_only_written(functions) {
            assert forall|j: int| 0 <= j < kept.len() implies reads_only_written(
                #[trigger] kept[j],
            ) by {
                let at = function_kept(functions, flags, n, j);
                assert(reads_only_written(functions[at]));
                renaming_keeps_reads(functions[at], flags);
            }
        }
    }
}

/// A function goes by another name.
proof fn naming_keeps_well(
    function: FunctionView,
    name: Seq<char>,
    limits: Limits,
    strings: nat,
    texts: nat,
)
    requires
        lowered_well(function, limits, strings, texts),
    ensures
        lowered_well(FunctionView { name, ..function }, limits, strings, texts),
{
    let new = FunctionView { name, ..function };
    assert forall|i: int| 0 <= i < new.params.len() implies #[trigger] arrived(
        new,
        i + leading(new.ret),
    ) is Some by {
        assert(arrived(function, i + leading(function.ret)) is Some);
    }
    assert forall|i: int| 0 <= i < new.blocks.len() implies block_within(
        #[trigger] new.blocks[i],
        new.names.len(),
        new.blocks.len(),
    ) && new.blocks[i].index == i by {
        assert(block_within(
            function.blocks[i],
            function.names.len(),
            function.blocks.len(),
        ));
    }
    assert forall|i: int, k: int|
        #![trigger new.blocks[i].instrs[k]]
        0 <= i < new.blocks.len() && 0 <= k < new.blocks[i].instrs.len() implies instr_known(
        new.blocks[i].instrs[k],
        limits,
        strings,
        texts,
    ) by {
        assert(instr_known(function.blocks[i].instrs[k], limits, strings, texts));
    }
}

/// **A program is refused exactly where a frame is too large**: there is something
/// to say of the first `n` functions where one of them needs more room than there
/// is, and only there.
pub proof fn refused_where_too_large(functions: Seq<FunctionView>, decls: Seq<FnDecl>, n: int)
    requires
        0 <= n <= functions.len(),
    ensures
        stack_errors(functions, decls, n).len() == 0 <==> (forall|i: int|
            0 <= i < n ==> (#[trigger] functions[i]).frame_bytes <= MAX_FRAME_BYTES),
    decreases n,
{
    if n > 0 {
        refused_where_too_large(functions, decls, n - 1);
        placed_grows(
            stack_errors(functions, decls, n - 1),
            stack_diagnostic(functions[n - 1].frame_bytes, decls[n - 1]),
        );
        if functions[n - 1].frame_bytes > MAX_FRAME_BYTES {
            assert(!(functions[n - 1].frame_bytes <= MAX_FRAME_BYTES));
        }
    }
}

proof fn placed_grows(sorted: Seq<DiagnosticView>, one: DiagnosticView)
    ensures
        placed(sorted, one).len() == sorted.len() + 1,
    decreases sorted.len(),
{
    if sorted.len() > 0 {
        placed_grows(sorted.drop_last(), one);
    }
}

/// Lower a type-checked AST to IR.
///
/// The one thing that can still fail here is the size of a frame, and it can
/// only fail here: how much stack a function wants is not a fact about its
/// types, it is the sum of every aggregate this stage hands room to.
///
/// Where the program is [`settled`], no function reads what was not written on every
/// way there.
pub fn lower(ast: &Ast, types: Types) -> (result: Result<Program, Vec<Diagnostic>>)
    requires
        lowered(*ast, types) is Some,
    ensures
        match result {
            Ok(program) => lowered(*ast, types) == Some(
                Ok::<ProgramView, Seq<DiagnosticView>>(program@),
            ),
            Err(errors) => lowered(*ast, types) == Some(
                Err::<ProgramView, Seq<DiagnosticView>>(diagnostic_views(errors@)),
            ),
        },
        match result {
            Ok(program) => {
                &&& all_lowered_well(
                    program@.functions,
                    program_limits(program@),
                    program@.strings.len(),
                    program@.texts.len(),
                )
                &&& program@.functions.len() <= u32::MAX
                &&& settled(*ast, types) ==> all_read_only_written(program@.functions)
            },
            Err(errors) => errors@.len() > 0,
        },
{
    // Function ids follow declaration order, so a call can be lowered to an
    // index without caring whether the callee has been lowered yet. The first
    // declaration of a name wins.
    let names: Vec<String> = qualified_names(ast);
    let ghost views = text_views(names@);
    let ghost all = Limits {
        arities: declared_arities(types, ast.functions@.len()),
        table: types.table,
    };
    let count: usize = ast.functions.len();

    let mut strings = Strings { chars: Vec::new(), texts: Vec::new() };
    let mut functions: Vec<Function> = Vec::new();
    let mut errors: Vec<Diagnostic> = Vec::new();
    let ghost total = functions_from(*ast, types, views, 0, seq![], seq![], seq![]);
    let mut i: usize = 0;
    proof {
        assert(literal_views(strings.chars@) =~= seq![]);
        assert(text_views(strings.texts@) =~= seq![]);
        assert(function_views(functions@) =~= seq![]);
        assert(diagnostic_views(errors@) =~= seq![]);
    }
    while i < count
        invariant
            i <= count == ast.functions@.len() == names@.len(),
            views == text_views(names@),
            all == (Limits {
                arities: declared_arities(types, ast.functions@.len()),
                table: types.table,
            }),
            forall|k: int|
                0 <= k < i ==> arity(#[trigger] function_views(functions@)[k]) == all.arities[k],
            strings.chars@.len() <= u32::MAX,
            strings.texts@.len() <= u32::MAX,
            functions@.len() == i,
            total is Some,
            functions_from(
                *ast,
                types,
                views,
                i as int,
                literal_views(strings.chars@),
                text_views(strings.texts@),
                function_views(functions@),
            ) == total,
            diagnostic_views(errors@) == stack_errors(
                function_views(functions@),
                ast.functions@,
                i as int,
            ),
            all_lowered_well(
                function_views(functions@),
                all,
                strings.chars@.len(),
                strings.texts@.len(),
            ),
            names_of(*ast) == Some(views),
            settled(*ast, types) ==> all_read_only_written(function_views(functions@))
                && settled_from(
                *ast,
                types,
                views,
                i as int,
                literal_views(strings.chars@),
                text_views(strings.texts@),
            ),
        decreases count - i,
    {
        let decl: &FnDecl = &ast.functions[i];
        let owned: Vec<String> = owned_strings(decl, &types);
        let cx = Context { types: &types, names: &names, owned: &owned };
        proof {
            let wanted = context_of(types, views, *decl)->0;
            assert(cx@.owned =~= wanted.owned);
            assert(cx@ == wanted);
            reveal(limits);
        }
        let ghost had = strings.chars@.len();
        let ghost had_texts = strings.texts@.len();
        let (mut lowered, now) = run(&cx, decl, types.ret_of(i), types.params_of(i), strings);
        strings = now;
        let ghost whole = lowered@;
        lowered.name = names[i].clone();
        if lowered.frame_bytes > MAX_FRAME_BYTES {
            place(&mut errors, too_much_stack(lowered.frame_bytes, decl));
        }
        let ghost before = function_views(functions@);
        proof {
            assert(lowered@ == FunctionView { name: views[i as int], ..whole });
            naming_keeps_well(
                whole,
                views[i as int],
                all,
                strings.chars@.len(),
                strings.texts@.len(),
            );
        }
        functions.push(lowered);
        proof {
            let after = function_views(functions@);
            assert(after =~= before.push(lowered@));
            assert forall|j: int| 0 <= j < after.len() implies lowered_well(
                #[trigger] after[j],
                all,
                strings.chars@.len(),
                strings.texts@.len(),
            ) by {
                if j < before.len() {
                    assert(lowered_well(before[j], all, had, had_texts));
                    known_grows(
                        before[j],
                        all,
                        had,
                        had_texts,
                        strings.chars@.len(),
                        strings.texts@.len(),
                    );
                }
            }
            assert forall|k: int| 0 <= k < i + 1 implies arity(#[trigger] after[k])
                == all.arities[k] by {
                if k < i {
                    assert(arity(before[k]) == all.arities[k]);
                }
            }
            same_errors(before, after, ast.functions@, i as int);
            if settled(*ast, types) {
                assert forall|j: int| 0 <= j < after.len() implies reads_only_written(
                    #[trigger] after[j],
                ) by {
                    if j < before.len() {
                        assert(reads_only_written(before[j]));
                    } else {
                        assert(reads_only_written(whole));
                        assert forall|r: int| 0 <= r < after[j].names.len() implies !#[trigger] live_at(
                            after[j].blocks,
                            0,
                            VReg(r as u32),
                        ) by {
                            assert(!live_at(whole.blocks, 0, VReg(r as u32)));
                        }
                    }
                }
            }
        }
        i = i + 1;
    }

    // Before the pruning, deliberately: a frame nothing reaches is still one the
    // program asked for. What is emitted must not decide what is diagnosed, or a
    // program would start failing to compile the moment something called it.
    if errors.len() > 0 {
        return Err(errors);
    }

    let vtables: Vec<Vec<FuncId>> = vtables_of(&types.table);
    let entry: Option<FuncId> = function_named(&names, ENTRY_POINT);
    proof {
        let whole = function_views(functions@);
        assert(arities(whole) =~= all.arities);
        dropping_keeps_well(
            whole,
            types.table,
            strings.chars@.len(),
            strings.texts@.len(),
            entry,
        );
        assert forall|f: int, b: int, k: int|
            #![trigger functions@[f]@.blocks[b].instrs[k]]
            0 <= f < functions@.len() && 0 <= b < functions@[f]@.blocks.len() && 0 <= k
                < functions@[f]@.blocks[b].instrs.len() implies (functions@[f]@.blocks[b].instrs[k]
            matches InstrView::Call { callee, .. } ==> callee.0 < functions@.len()) by {
            assert(lowered_well(whole[f], all, strings.chars@.len(), strings.texts@.len()));
            assert(instr_known(
                whole[f].blocks[b].instrs[k],
                all,
                strings.chars@.len(),
                strings.texts@.len(),
            ));
        }
    }
    let (functions, vtables) = prune_unreachable_functions(functions, vtables, entry);
    Ok(
        Program {
            functions,
            strings: strings.chars,
            texts: strings.texts,
            vtables,
            table: types.table,
        },
    )
}

/// What is said of earlier functions does not depend on later ones.
proof fn same_errors(
    before: Seq<FunctionView>,
    after: Seq<FunctionView>,
    decls: Seq<FnDecl>,
    n: int,
)
    requires
        0 <= n <= before.len() <= after.len(),
        forall|i: int| 0 <= i < n ==> before[i] == after[i],
    ensures
        stack_errors(before, decls, n) == stack_errors(after, decls, n),
    decreases n,
{
    if n > 0 {
        same_errors(before, after, decls, n - 1);
    }
}

} // verus!
