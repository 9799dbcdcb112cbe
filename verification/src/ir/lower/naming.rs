//! That a program's functions stay in their order, under their own names.

use vstd::prelude::*;

use super::program::{
    context_of, function_of, functions_from, method_name, methods_named, placed, stack_diagnostic,
    stack_errors,
};
use super::state::{label_of, times_borne};
use crate::ast::{ClassDecl, FnDecl, Program as Ast};
use crate::diag::DiagnosticView;
use crate::ir::func::FunctionView;
use crate::ir::value::MAX_FRAME_BYTES;
use crate::sema::Types;
use crate::text::{decimal_is_one_to_one, decimal_nat};

verus! {

/// **Each function is lowered as itself.** There is one for each declared, in the order
/// they are declared; each bears the name it is known by and answers what it is declared
/// to, and is what its own declaration lowers to, with its own parameters' types.
pub proof fn functions_come_in_order(
    ast: Ast,
    types: Types,
    names: Seq<Seq<char>>,
    i: int,
    strings: Seq<Seq<char>>,
    texts: Seq<Seq<char>>,
    done: Seq<FunctionView>,
)
    requires
        0 <= i <= ast.functions@.len(),
        done.len() == i,
        functions_from(ast, types, names, i, strings, texts, done) is Some,
    ensures
        ({
            let (all, _, _) = functions_from(ast, types, names, i, strings, texts, done)->0;
            &&& all.len() == ast.functions@.len()
            &&& forall|j: int| 0 <= j < i ==> #[trigger] all[j] == done[j]
            &&& forall|j: int|
                #![trigger all[j]]
                i <= j < all.len() ==> {
                    &&& all[j].name == names[j]
                    &&& all[j].ret == types.returns@[j]
                    &&& all[j].params.len() == ast.functions@[j].params@.len()
                    &&& ast.functions@[j].params@.len() == types.params@[j]@.len()
                }
        }),
    decreases ast.functions@.len() - i,
{
    let (all, _, _) = functions_from(ast, types, names, i, strings, texts, done)->0;
    if i < ast.functions@.len() {
        let decl = ast.functions@[i];
        let cx = context_of(types, names, decl)->0;
        let ret = types.returns@[i];
        let params = types.params@[i]@;
        let (function, more, further) = function_of(cx, decl, ret, params, strings, texts)->0;
        let named = FunctionView { name: names[i], ..function };
        functions_come_in_order(ast, types, names, i + 1, more, further, done.push(named));
        assert(all[i] == done.push(named)[i]);
        function_is_as_declared(cx, decl, ret, params, strings, texts);
        assert forall|j: int| 0 <= j < i implies #[trigger] all[j] == done[j] by {
            assert(all[j] == done.push(named)[j]);
        }
    }
}

proof fn function_is_as_declared(
    cx: super::state::ContextView,
    decl: FnDecl,
    ret: Option<crate::ast::Ty>,
    params: Seq<crate::ast::Ty>,
    strings: Seq<Seq<char>>,
    texts: Seq<Seq<char>>,
)
    requires
        function_of(cx, decl, ret, params, strings, texts) is Some,
    ensures
        ({
            let (function, _, _) = function_of(cx, decl, ret, params, strings, texts)->0;
            &&& function.ret == ret
            &&& function.params.len() == decl.params@.len()
            &&& decl.params@.len() == params.len()
        }),
{
    let st = super::program::started(cx, ret, strings, texts)->0;
    params_are_counted(st, decl.params@, params, crate::ir::func::leading(ret), 0, seq![]);
}

proof fn params_are_counted(
    st: super::state::State,
    params: Seq<crate::ast::Param>,
    types: Seq<crate::ast::Ty>,
    first: u32,
    i: int,
    regs: Seq<crate::ir::value::VReg>,
)
    requires
        0 <= i <= params.len(),
        params.len() == types.len(),
        super::program::params_from(st, params, types, first, i, regs) is Some,
    ensures
        (super::program::params_from(st, params, types, first, i, regs)->0).1.len() == regs.len()
            + params.len() - i,
    decreases params.len() - i,
{
    if i < params.len() {
        let (made, dst) = super::state::named(st, params[i].name@)->0;
        params_are_counted(
            super::state::called(
                super::state::emitted(
                    made,
                    crate::ir::instr::InstrView::Param { dst, index: (i + first) as u32 },
                ),
                params[i].name@,
                dst,
                types[i],
            ),
            params,
            types,
            first,
            i + 1,
            regs.push(dst),
        );
    }
}

/// **A method is known by its class and its name**, with a `$` between, and every function
/// that is not a method of the class as it was.
pub proof fn methods_bear_their_class(
    ast: Ast,
    names: Seq<Seq<char>>,
    class: ClassDecl,
    k: int,
    at: int,
)
    requires
        0 <= k <= class.methods@.len(),
        0 <= at < names.len(),
        methods_named(ast, names, class, k) is Some,
    ensures
        ({
            let after = methods_named(ast, names, class, k)->0;
            let own = exists|j: int| k <= j < class.methods@.len() && #[trigger] class.methods@[j]
                == at;
            &&& after.len() == names.len()
            &&& own ==> after[at] == class.name@ + "$"@ + ast.functions@[at].name@
            &&& !own ==> after[at] == names[at]
        }),
    decreases class.methods@.len() - k,
{
    if k < class.methods@.len() {
        let m = class.methods@[k] as int;
        let next = names.update(m, method_name(class.name@, ast.functions@[m].name@));
        methods_bear_their_class(ast, next, class, k + 1, at);
        if exists|j: int| k <= j < class.methods@.len() && #[trigger] class.methods@[j] == at {
            let j = choose|j: int|
                k <= j < class.methods@.len() && #[trigger] class.methods@[j] == at;
            if j == k {
                assert(next[at] == class.name@ + "$"@ + ast.functions@[at].name@);
            }
        } else {
            assert(class.methods@[k] != at);
        }
    }
}

/// **Registers that bear one name are told apart**: the first bears it as it is, and every
/// later one with a number of its own behind a dot.
pub proof fn labels_are_told_apart(
    borne: Seq<Seq<char>>,
    name: Seq<char>,
    later: Seq<Seq<char>>,
)
    requires
        later.len() > borne.len(),
        later.take(borne.len() as int) == borne,
        later[borne.len() as int] == name,
    ensures
        label_of(later, name) != label_of(borne, name),
        !borne.contains(name) ==> label_of(borne, name) == name,
{
    borne_more(borne, name, later, later.len() as int);
    assert(later.take(later.len() as int) =~= later);
    let a = times_borne(borne, name);
    let b = times_borne(later, name);
    if a == 0 {
        assert((name + "."@ + decimal_nat(b)).len() > name.len()) by {
            reveal_strlit(".");
        }
    } else {
        let x = name + "."@ + decimal_nat(a);
        let y = name + "."@ + decimal_nat(b);
        if x == y {
            let n = (name + "."@).len() as int;
            assert(x.skip(n) =~= decimal_nat(a));
            assert(y.skip(n) =~= decimal_nat(b));
            decimal_is_one_to_one(a, b);
        }
    }
    if !borne.contains(name) {
        never_borne(borne, name);
    }
}

proof fn borne_more(borne: Seq<Seq<char>>, name: Seq<char>, later: Seq<Seq<char>>, n: int)
    requires
        borne.len() < n <= later.len(),
        later.take(borne.len() as int) == borne,
        later[borne.len() as int] == name,
    ensures
        times_borne(later.take(n), name) > times_borne(borne, name),
    decreases n,
{
    let some = later.take(n);
    assert(some.drop_last() =~= later.take(n - 1));
    assert(some.last() == later[n - 1]);
    if n > borne.len() + 1 {
        borne_more(borne, name, later, n - 1);
    } else {
        assert(some.drop_last() =~= borne);
    }
}

proof fn never_borne(borne: Seq<Seq<char>>, name: Seq<char>)
    requires
        !borne.contains(name),
    ensures
        times_borne(borne, name) == 0,
    decreases borne.len(),
{
    if borne.len() > 0 {
        let fewer = borne.drop_last();
        assert forall|i: int| 0 <= i < fewer.len() implies fewer[i] != name by {
            assert(fewer[i] == borne[i]);
            assert(borne.contains(borne[i]));
        }
        assert(borne.contains(borne.last())) by {
            assert(borne[borne.len() - 1] == borne.last());
        }
        never_borne(fewer, name);
    }
}

/// **Refusals come in the order of the source**, one for each function that is too large
/// and no more, each naming its function.
pub proof fn refusals_are_in_source_order(
    functions: Seq<FunctionView>,
    decls: Seq<FnDecl>,
    n: int,
)
    requires
        0 <= n <= functions.len(),
        n <= decls.len(),
    ensures
        ({
            let errors = stack_errors(functions, decls, n);
            &&& forall|a: int, b: int|
                #![trigger errors[a], errors[b]]
                0 <= a < b < errors.len() ==> errors[a].span.offset <= errors[b].span.offset
            &&& forall|i: int|
                #![trigger functions[i]]
                0 <= i < n && functions[i].frame_bytes > 256 * 1024 ==> exists|a: int|
                    0 <= a < errors.len() && is_refusal(
                        #[trigger] errors[a],
                        decls[i],
                        functions[i].frame_bytes,
                    )
            &&& errors.len() <= n
        }),
    decreases n,
{
    if n > 0 {
        refusals_are_in_source_order(functions, decls, n - 1);
        let before = stack_errors(functions, decls, n - 1);
        let errors = stack_errors(functions, decls, n);
        if functions[n - 1].frame_bytes > MAX_FRAME_BYTES {
            let one = stack_diagnostic(functions[n - 1].frame_bytes, decls[n - 1]);
            let at = placing_keeps_order(before, one);
            refusal_says_so(functions[n - 1].frame_bytes, decls[n - 1]);
            assert forall|i: int|
                #![trigger functions[i]]
                0 <= i < n && functions[i].frame_bytes > 256 * 1024 implies exists|a: int|
                0 <= a < errors.len() && is_refusal(
                    #[trigger] errors[a],
                    decls[i],
                    functions[i].frame_bytes,
                ) by {
                if i == n - 1 {
                    assert(errors[at] == one);
                } else {
                    let a = choose|a: int|
                        0 <= a < before.len() && is_refusal(
                            #[trigger] before[a],
                            decls[i],
                            functions[i].frame_bytes,
                        );
                    if a < at {
                        assert(errors[a] == before[a]);
                    } else {
                        assert(errors[a + 1] == before[a]);
                    }
                }
            }
        }
    }
}

/// Whether a diagnostic says of a function that its frame is too large, and how large.
pub open spec fn is_refusal(error: DiagnosticView, decl: FnDecl, bytes: u32) -> bool {
    &&& error.span == decl.name_span
    &&& error.message == "`"@ + decl.name@ + "` needs too much stack"@
    &&& error.label == Some(
        (if bytes == u32::MAX {
            "more than four gigabytes"@
        } else {
            decimal_nat(bytes as nat) + " bytes"@
        }) + " of locals, and at most 262144 are supported"@,
    )
    &&& error.note == Some(
        (
            "every value too big for a register lives in the frame, and the frame is reserved for the whole call; `int[]` is what holds a quantity the stack cannot"@,
            None::<crate::diag::Span>,
        ),
    )
}

proof fn refusal_says_so(bytes: u32, decl: FnDecl)
    ensures
        is_refusal(stack_diagnostic(bytes, decl), decl, bytes),
{
    let limit = decimal_nat(MAX_FRAME_BYTES as nat);
    assert(limit =~= seq!['2', '6', '2', '1', '4', '4']) by {
        reveal_with_fuel(decimal_nat, 7);
    }
    reveal_strlit(" of locals, and at most ");
    reveal_strlit(" are supported");
    reveal_strlit(" of locals, and at most 262144 are supported");
    let size = if bytes == u32::MAX {
        "more than four gigabytes"@
    } else {
        decimal_nat(bytes as nat) + " bytes"@
    };
    assert(" of locals, and at most "@ + limit + " are supported"@
        =~= " of locals, and at most 262144 are supported"@);
    assert(size + " of locals, and at most "@ + limit + " are supported"@ =~= size
        + " of locals, and at most 262144 are supported"@);
}

/// Where a diagnostic goes among others, with those before and after as they were.
proof fn placing_keeps_order(sorted: Seq<DiagnosticView>, one: DiagnosticView) -> (at: int)
    requires
        forall|a: int, b: int|
            #![trigger sorted[a], sorted[b]]
            0 <= a < b < sorted.len() ==> sorted[a].span.offset <= sorted[b].span.offset,
    ensures
        ({
            let all = placed(sorted, one);
            &&& 0 <= at <= sorted.len()
            &&& all.len() == sorted.len() + 1
            &&& all[at] == one
            &&& forall|a: int| 0 <= a < at ==> #[trigger] all[a] == sorted[a]
            &&& forall|a: int| at <= a < sorted.len() ==> all[a + 1] == #[trigger] sorted[a]
            &&& forall|a: int| 0 <= a < at ==> (#[trigger] sorted[a]).span.offset
                <= one.span.offset
            &&& forall|a: int|
                at <= a < sorted.len() ==> (#[trigger] sorted[a]).span.offset > one.span.offset
            &&& forall|a: int, b: int|
                #![trigger all[a], all[b]]
                0 <= a < b < all.len() ==> all[a].span.offset <= all[b].span.offset
        }),
    decreases sorted.len(),
{
    if sorted.len() == 0 {
        0
    } else if sorted.last().span.offset <= one.span.offset {
        let last = sorted.len() - 1;
        assert forall|a: int| 0 <= a < sorted.len() implies (#[trigger] sorted[a]).span.offset
            <= one.span.offset by {
            if a < last {
                assert(sorted[a].span.offset <= sorted[last].span.offset);
            }
        }
        sorted.len() as int
    } else {
        let fewer = sorted.drop_last();
        assert forall|a: int, b: int|
            #![trigger fewer[a], fewer[b]]
            0 <= a < b < fewer.len() implies fewer[a].span.offset <= fewer[b].span.offset by {
            assert(sorted[a].span.offset <= sorted[b].span.offset);
        }
        let at = placing_keeps_order(fewer, one);
        let part = placed(fewer, one);
        let all = placed(sorted, one);
        assert(all == part.push(sorted.last()));
        assert forall|a: int| at <= a < sorted.len() implies all[a + 1] == #[trigger] sorted[a] by {
            if a < fewer.len() {
                assert(part[a + 1] == fewer[a]);
            }
        }
        assert forall|a: int| 0 <= a < at implies #[trigger] all[a] == sorted[a] by {
            assert(part[a] == fewer[a]);
        }
        assert forall|a: int| 0 <= a < at implies (#[trigger] sorted[a]).span.offset
            <= one.span.offset by {
            assert(fewer[a] == sorted[a]);
        }
        assert forall|a: int| at <= a < sorted.len() implies (#[trigger] sorted[a]).span.offset
            > one.span.offset by {
            if a < fewer.len() {
                assert(fewer[a] == sorted[a]);
            }
        }
        assert forall|a: int, b: int|
            #![trigger all[a], all[b]]
            0 <= a < b < all.len() implies all[a].span.offset <= all[b].span.offset by {
            if b < part.len() {
                assert(part[a].span.offset <= part[b].span.offset);
            } else if a < at {
                assert(sorted[a].span.offset <= sorted[sorted.len() - 1].span.offset);
            } else if a > at {
                assert(all[a - 1 + 1] == sorted[a - 1]);
                if a - 1 < sorted.len() - 1 {
                    assert(sorted[a - 1].span.offset <= sorted[sorted.len() - 1].span.offset);
                }
            }
        }
        at
    }
}

} // verus!
