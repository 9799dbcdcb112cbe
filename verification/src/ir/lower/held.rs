//! That a string grown where it stands is held by nothing else.

use vstd::prelude::*;

use super::owned::{
    arms_seen, bindings_seen, disowns, expr_seen, fields_seen, function_seen, given_fresh,
    list_seen, nothing_else_holds, params_seen, parts_seen, place_seen, stmt_seen, stmts_seen,
    SightingView,
};
use crate::ast::{
    ArmBody, Expr, ExprKind, FieldInit, FnDecl, MatchArm, Pattern, Place, PrintPart, Stmt,
};
use crate::sema::Types;

verus! {

/// Whether an expression hands on a string that was there before.
pub open spec fn hands_on(e: Expr) -> bool {
    match e.kind {
        ExprKind::Var(_) => true,
        ExprKind::Field { .. } => true,
        ExprKind::Index { .. } => true,
        ExprKind::MethodCall { .. } => true,
        ExprKind::Call { name, args } => name@ != "read_line"@,
        _ => false,
    }
}

/// Whether an expression, its value kept by something or not, lets something else get
/// hold of a variable's string.
pub open spec fn gives_away(e: Expr, name: Seq<char>, kept: bool) -> bool
    decreases e, 1int, 0int,
{
    match e.kind {
        ExprKind::Var(other) => kept && other@ == name,
        ExprKind::Neg(inner) => gives_away(*inner, name, false),
        ExprKind::Not(inner) => gives_away(*inner, name, false),
        ExprKind::Bin { op, lhs, rhs } => gives_away(*lhs, name, false) || gives_away(
            *rhs,
            name,
            false,
        ),
        ExprKind::Cmp { op, lhs, rhs } => gives_away(*lhs, name, false) || gives_away(
            *rhs,
            name,
            false,
        ),
        ExprKind::Logic { op, lhs, rhs } => gives_away(*lhs, name, false) || gives_away(
            *rhs,
            name,
            false,
        ),
        ExprKind::Index { array, index } => gives_away(*array, name, false) || gives_away(
            *index,
            name,
            false,
        ),
        ExprKind::Len { array } => gives_away(*array, name, false),
        ExprKind::Convert { to, value } => gives_away(*value, name, false),
        ExprKind::Field { object, name: field } => gives_away(*object, name, false),
        ExprKind::Array { elements } => some_given_away(elements, 0, name),
        ExprKind::Variant { variant, args } => some_given_away(args, 0, name),
        ExprKind::Call { name: callee, args } => some_given_away(args, 0, name),
        ExprKind::MethodCall { receiver, name: method, args } => gives_away(*receiver, name, true)
            || some_given_away(args, 0, name),
        ExprKind::New { fields } => some_field_given_away(fields, 0, name),
        ExprKind::Match { scrutinee, arms } => gives_away(*scrutinee, name, false)
            || some_arm_gives_away(arms, 0, name, kept),
        _ => false,
    }
}

/// Whether one of the expressions from `i` on does, each of them kept.
pub open spec fn some_given_away(list: Vec<Expr>, i: int, name: Seq<char>) -> bool
    decreases list, 0int, list@.len() - i,
{
    0 <= i < list@.len() && (gives_away(list@[i], name, true) || some_given_away(
        list,
        i + 1,
        name,
    ))
}

/// Whether one of the field values from `i` on does.
pub open spec fn some_field_given_away(list: Vec<FieldInit>, i: int, name: Seq<char>) -> bool
    decreases list, 0int, list@.len() - i,
{
    0 <= i < list@.len() && (gives_away(list@[i].value, name, true) || some_field_given_away(
        list,
        i + 1,
        name,
    ))
}

/// Whether a pattern gives the name to something a variant goes on holding.
pub open spec fn names_a_part(pattern: Pattern, name: Seq<char>) -> bool {
    match pattern {
        Pattern::Variant { variant, bindings } => exists|k: int|
            0 <= k < bindings@.len() && (#[trigger] bindings@[k])@ == name,
        _ => false,
    }
}

/// Whether one of the arms from `i` on does.
pub open spec fn some_arm_gives_away(
    list: Vec<MatchArm>,
    i: int,
    name: Seq<char>,
    kept: bool,
) -> bool
    decreases list, 0int, list@.len() - i,
{
    0 <= i < list@.len() && (names_a_part(list@[i].pattern, name) || (match list@[i].body {
        ArmBody::Value(value) => gives_away(value, name, kept),
        ArmBody::Block(block) => some_statement_gives_away(block.stmts, 0, name),
    }) || some_arm_gives_away(list, i + 1, name, kept))
}

/// Whether an index inside a place does.
pub open spec fn place_gives_away(place: Place, name: Seq<char>) -> bool
    decreases place, 1int, 0int,
{
    match place {
        Place::Var { .. } => false,
        Place::Element { base, index } => place_gives_away(*base, name) || gives_away(
            index,
            name,
            false,
        ),
        Place::Field { base, name: field } => place_gives_away(*base, name),
    }
}

/// Whether one of the parts from `i` on of a `print` does.
pub open spec fn some_part_gives_away(parts: Vec<PrintPart>, i: int, name: Seq<char>) -> bool
    decreases parts, 0int, parts@.len() - i,
{
    0 <= i < parts@.len() && ((match parts@[i] {
        PrintPart::Text(_) => false,
        PrintPart::Value(e) => gives_away(e, name, false),
        PrintPart::Spec { expr } => gives_away(expr, name, false),
    }) || some_part_gives_away(parts, i + 1, name))
}

/// Whether one of the statements from `i` on does.
pub open spec fn some_statement_gives_away(stmts: Vec<Stmt>, i: int, name: Seq<char>) -> bool
    decreases stmts, 0int, stmts@.len() - i,
{
    0 <= i < stmts@.len() && (statement_gives_away(stmts@[i], name) || some_statement_gives_away(
        stmts,
        i + 1,
        name,
    ))
}

/// Whether a statement lets something else get hold of a variable's string, or gives the
/// variable a string that something else may hold.
pub open spec fn statement_gives_away(s: Stmt, name: Seq<char>) -> bool
    decreases s, 1int, 0int,
{
    match s {
        Stmt::Decl { id, name: declared, init } => gives_away(init, name, true) || (declared@
            == name && hands_on(init)),
        Stmt::Assign { target, value } => gives_away(value, name, true) || place_gives_away(
            target,
            name,
        ) || (target matches Place::Var { name: given } && given@ == name && hands_on(value)),
        Stmt::Push { target, value } => gives_away(value, name, true) || place_gives_away(
            target,
            name,
        ),
        Stmt::Return { value } => match value {
            Some(e) => gives_away(e, name, true),
            None => false,
        },
        Stmt::Print { newline, parts } => some_part_gives_away(parts, 0, name),
        Stmt::If { cond, then_block, else_block } => gives_away(cond, name, false)
            || some_statement_gives_away(then_block.stmts, 0, name) || (match else_block {
            Some(block) => some_statement_gives_away(block.stmts, 0, name),
            None => false,
        }),
        Stmt::While { cond, body } => gives_away(cond, name, false) || some_statement_gives_away(
            body.stmts,
            0,
            name,
        ),
        Stmt::For { init, cond, step, body } => statement_gives_away(*init, name) || gives_away(
            cond,
            name,
            false,
        ) || statement_gives_away(*step, name) || some_statement_gives_away(body.stmts, 0, name),
        Stmt::Match(e) => gives_away(e, name, false),
        Stmt::Call(e) => gives_away(e, name, false),
        Stmt::Break => false,
        Stmt::Continue => false,
    }
}

/// Whether something seen rules out that a variable's string is its own.
spec fn ruled_out(seen: Seq<SightingView>, name: Seq<char>) -> bool {
    exists|i: int| 0 <= i < seen.len() && disowns(#[trigger] seen[i], name)
}

proof fn still_ruled_out(seen: Seq<SightingView>, one: SightingView, name: Seq<char>)
    ensures
        ruled_out(seen, name) || disowns(one, name) ==> ruled_out(seen.push(one), name),
{
    let more = seen.push(one);
    if ruled_out(seen, name) {
        let i = choose|i: int| 0 <= i < seen.len() && disowns(#[trigger] seen[i], name);
        assert(disowns(more[i], name));
    }
    if disowns(one, name) {
        assert(disowns(more[seen.len() as int], name));
    }
}

proof fn parts_ruled_out(seen: Seq<SightingView>, pattern: Pattern, name: Seq<char>)
    ensures
        ruled_out(seen, name) || names_a_part(pattern, name) ==> ruled_out(
            seen + bindings_seen(pattern),
            name,
        ),
{
    let more = seen + bindings_seen(pattern);
    if ruled_out(seen, name) {
        let i = choose|i: int| 0 <= i < seen.len() && disowns(#[trigger] seen[i], name);
        assert(disowns(more[i], name));
    }
    if names_a_part(pattern, name) {
        let bindings = pattern->Variant_bindings@;
        let k = choose|k: int| 0 <= k < bindings.len() && (#[trigger] bindings[k])@ == name;
        assert(bindings_seen(pattern)[k] == (SightingView::Declared { name, fresh: false }));
        assert(more[seen.len() + k] == bindings_seen(pattern)[k]);
        assert(disowns(more[seen.len() + k], name));
    }
}

proof fn expressions_are_seen(
    types: Types,
    seen: Seq<SightingView>,
    e: Expr,
    kept: bool,
    name: Seq<char>,
)
    requires
        expr_seen(types, seen, e, kept) is Some,
    ensures
        ruled_out(seen, name) || gives_away(e, name, kept) ==> ruled_out(
            expr_seen(types, seen, e, kept)->0,
            name,
        ),
    decreases e, 1int, 0int,
{
    match e.kind {
        ExprKind::Var(other) => {
            still_ruled_out(seen, SightingView::Escaped { name: other@ }, name);
        },
        ExprKind::Neg(inner) => {
            expressions_are_seen(types, seen, *inner, false, name);
        },
        ExprKind::Not(inner) => {
            expressions_are_seen(types, seen, *inner, false, name);
        },
        ExprKind::Len { array } => {
            expressions_are_seen(types, seen, *array, false, name);
        },
        ExprKind::Convert { to, value } => {
            expressions_are_seen(types, seen, *value, false, name);
        },
        ExprKind::Field { object, name: field } => {
            expressions_are_seen(types, seen, *object, false, name);
        },
        ExprKind::Bin { op, lhs, rhs } => {
            expressions_are_seen(types, seen, *lhs, false, name);
            expressions_are_seen(types, expr_seen(types, seen, *lhs, false)->0, *rhs, false, name);
        },
        ExprKind::Cmp { op, lhs, rhs } => {
            expressions_are_seen(types, seen, *lhs, false, name);
            expressions_are_seen(types, expr_seen(types, seen, *lhs, false)->0, *rhs, false, name);
        },
        ExprKind::Logic { op, lhs, rhs } => {
            expressions_are_seen(types, seen, *lhs, false, name);
            expressions_are_seen(types, expr_seen(types, seen, *lhs, false)->0, *rhs, false, name);
        },
        ExprKind::Index { array, index } => {
            expressions_are_seen(types, seen, *array, false, name);
            expressions_are_seen(
                types,
                expr_seen(types, seen, *array, false)->0,
                *index,
                false,
                name,
            );
        },
        ExprKind::Array { elements } => {
            lists_are_seen(types, seen, elements, 0, name);
        },
        ExprKind::Variant { variant, args } => {
            lists_are_seen(types, seen, args, 0, name);
        },
        ExprKind::Call { name: callee, args } => {
            lists_are_seen(types, seen, args, 0, name);
        },
        ExprKind::MethodCall { receiver, name: method, args } => {
            expressions_are_seen(types, seen, *receiver, true, name);
            lists_are_seen(types, expr_seen(types, seen, *receiver, true)->0, args, 0, name);
        },
        ExprKind::New { fields } => {
            fields_are_seen(types, seen, fields, 0, name);
        },
        ExprKind::Match { scrutinee, arms } => {
            expressions_are_seen(types, seen, *scrutinee, false, name);
            arms_are_seen(
                types,
                expr_seen(types, seen, *scrutinee, false)->0,
                arms,
                0,
                kept,
                name,
            );
        },
        _ => {},
    }
}

proof fn lists_are_seen(
    types: Types,
    seen: Seq<SightingView>,
    list: Vec<Expr>,
    i: int,
    name: Seq<char>,
)
    requires
        list_seen(types, seen, list, i) is Some,
    ensures
        ruled_out(seen, name) || some_given_away(list, i, name) ==> ruled_out(
            list_seen(types, seen, list, i)->0,
            name,
        ),
    decreases list, 0int, list@.len() - i,
{
    if 0 <= i < list@.len() {
        expressions_are_seen(types, seen, list@[i], true, name);
        lists_are_seen(types, expr_seen(types, seen, list@[i], true)->0, list, i + 1, name);
    }
}

proof fn fields_are_seen(
    types: Types,
    seen: Seq<SightingView>,
    list: Vec<FieldInit>,
    i: int,
    name: Seq<char>,
)
    requires
        fields_seen(types, seen, list, i) is Some,
    ensures
        ruled_out(seen, name) || some_field_given_away(list, i, name) ==> ruled_out(
            fields_seen(types, seen, list, i)->0,
            name,
        ),
    decreases list, 0int, list@.len() - i,
{
    if 0 <= i < list@.len() {
        expressions_are_seen(types, seen, list@[i].value, true, name);
        fields_are_seen(types, expr_seen(types, seen, list@[i].value, true)->0, list, i + 1, name);
    }
}

proof fn arms_are_seen(
    types: Types,
    seen: Seq<SightingView>,
    list: Vec<MatchArm>,
    i: int,
    kept: bool,
    name: Seq<char>,
)
    requires
        arms_seen(types, seen, list, i, kept) is Some,
    ensures
        ruled_out(seen, name) || some_arm_gives_away(list, i, name, kept) ==> ruled_out(
            arms_seen(types, seen, list, i, kept)->0,
            name,
        ),
    decreases list, 0int, list@.len() - i,
{
    if 0 <= i < list@.len() {
        parts_ruled_out(seen, list@[i].pattern, name);
        let more = seen + bindings_seen(list@[i].pattern);
        let next = match list@[i].body {
            ArmBody::Value(value) => expr_seen(types, more, value, kept)->0,
            ArmBody::Block(block) => stmts_seen(types, more, block.stmts, 0)->0,
        };
        match list@[i].body {
            ArmBody::Value(value) => {
                expressions_are_seen(types, more, value, kept, name);
            },
            ArmBody::Block(block) => {
                statements_are_seen(types, more, block.stmts, 0, name);
            },
        }
        arms_are_seen(types, next, list, i + 1, kept, name);
    }
}

proof fn places_are_seen(types: Types, seen: Seq<SightingView>, place: Place, name: Seq<char>)
    requires
        place_seen(types, seen, place) is Some,
    ensures
        ruled_out(seen, name) || place_gives_away(place, name) ==> ruled_out(
            place_seen(types, seen, place)->0,
            name,
        ),
    decreases place, 1int, 0int,
{
    match place {
        Place::Var { .. } => {},
        Place::Element { base, index } => {
            places_are_seen(types, seen, *base, name);
            expressions_are_seen(types, place_seen(types, seen, *base)->0, index, false, name);
        },
        Place::Field { base, name: field } => {
            places_are_seen(types, seen, *base, name);
        },
    }
}

proof fn print_parts_are_seen(
    types: Types,
    seen: Seq<SightingView>,
    parts: Vec<PrintPart>,
    i: int,
    name: Seq<char>,
)
    requires
        parts_seen(types, seen, parts, i) is Some,
    ensures
        ruled_out(seen, name) || some_part_gives_away(parts, i, name) ==> ruled_out(
            parts_seen(types, seen, parts, i)->0,
            name,
        ),
    decreases parts, 0int, parts@.len() - i,
{
    if 0 <= i < parts@.len() {
        match parts@[i] {
            PrintPart::Text(_) => {
                print_parts_are_seen(types, seen, parts, i + 1, name);
            },
            PrintPart::Value(e) => {
                expressions_are_seen(types, seen, e, false, name);
                print_parts_are_seen(
                    types,
                    expr_seen(types, seen, e, false)->0,
                    parts,
                    i + 1,
                    name,
                );
            },
            PrintPart::Spec { expr } => {
                expressions_are_seen(types, seen, expr, false, name);
                print_parts_are_seen(
                    types,
                    expr_seen(types, seen, expr, false)->0,
                    parts,
                    i + 1,
                    name,
                );
            },
        }
    }
}

proof fn statements_are_seen(
    types: Types,
    seen: Seq<SightingView>,
    stmts: Vec<Stmt>,
    i: int,
    name: Seq<char>,
)
    requires
        stmts_seen(types, seen, stmts, i) is Some,
    ensures
        ruled_out(seen, name) || some_statement_gives_away(stmts, i, name) ==> ruled_out(
            stmts_seen(types, seen, stmts, i)->0,
            name,
        ),
    decreases stmts, 0int, stmts@.len() - i,
{
    if 0 <= i < stmts@.len() {
        a_statement_is_seen(types, seen, stmts@[i], name);
        statements_are_seen(types, stmt_seen(types, seen, stmts@[i])->0, stmts, i + 1, name);
    }
}

proof fn a_statement_is_seen(types: Types, seen: Seq<SightingView>, s: Stmt, name: Seq<char>)
    requires
        stmt_seen(types, seen, s) is Some,
    ensures
        ruled_out(seen, name) || statement_gives_away(s, name) ==> ruled_out(
            stmt_seen(types, seen, s)->0,
            name,
        ),
    decreases s, 1int, 0int,
{
    match s {
        Stmt::Decl { id, name: declared, init } => {
            let fresh = given_fresh(types, types.ty(id), init)->0;
            let one = SightingView::Declared { name: declared@, fresh };
            assert(hands_on(init) ==> !fresh);
            still_ruled_out(seen, one, name);
            expressions_are_seen(types, seen.push(one), init, true, name);
            assert(stmt_seen(types, seen, s) == expr_seen(types, seen.push(one), init, true));
        },
        Stmt::Assign { target, value } => {
            match target {
                Place::Var { name: given } => {
                    let fresh = given_fresh(types, types.ty(value.id), value)->0;
                    let one = SightingView::Given { name: given@, fresh };
                    assert(hands_on(value) ==> !fresh);
                    still_ruled_out(seen, one, name);
                    expressions_are_seen(types, seen.push(one), value, true, name);
                    assert(stmt_seen(types, seen, s) == expr_seen(
                        types,
                        seen.push(one),
                        value,
                        true,
                    ));
                    assert(!place_gives_away(target, name));
                    assert(ruled_out(seen, name) || statement_gives_away(s, name) ==> ruled_out(
                        stmt_seen(types, seen, s)->0,
                        name,
                    ));
                },
                _ => {
                    let one = place_seen(types, seen, target)->0;
                    places_are_seen(types, seen, target, name);
                    expressions_are_seen(types, one, value, true, name);
                    assert(stmt_seen(types, seen, s) == expr_seen(types, one, value, true));
                    assert(!(target is Var));
                },
            }
        },
        Stmt::Push { target, value } => {
            places_are_seen(types, seen, target, name);
            expressions_are_seen(types, place_seen(types, seen, target)->0, value, true, name);
        },
        Stmt::Return { value } => {
            if let Some(e) = value {
                expressions_are_seen(types, seen, e, true, name);
            }
        },
        Stmt::Print { newline, parts } => {
            print_parts_are_seen(types, seen, parts, 0, name);
        },
        Stmt::If { cond, then_block, else_block } => {
            expressions_are_seen(types, seen, cond, false, name);
            let one = expr_seen(types, seen, cond, false)->0;
            statements_are_seen(types, one, then_block.stmts, 0, name);
            if let Some(block) = else_block {
                statements_are_seen(
                    types,
                    stmts_seen(types, one, then_block.stmts, 0)->0,
                    block.stmts,
                    0,
                    name,
                );
            }
        },
        Stmt::While { cond, body } => {
            expressions_are_seen(types, seen, cond, false, name);
            statements_are_seen(
                types,
                expr_seen(types, seen, cond, false)->0,
                body.stmts,
                0,
                name,
            );
        },
        Stmt::For { init, cond, step, body } => {
            a_statement_is_seen(types, seen, *init, name);
            let one = stmt_seen(types, seen, *init)->0;
            expressions_are_seen(types, one, cond, false, name);
            let two = expr_seen(types, one, cond, false)->0;
            a_statement_is_seen(types, two, *step, name);
            statements_are_seen(types, stmt_seen(types, two, *step)->0, body.stmts, 0, name);
        },
        Stmt::Match(e) => {
            expressions_are_seen(types, seen, e, false, name);
        },
        Stmt::Call(e) => {
            expressions_are_seen(types, seen, e, false, name);
        },
        _ => {},
    }
}

/// **What is owned is held by nothing else.** A variable is grown where it stands only if
/// it is no parameter, and nowhere in the function is its string kept by anything, or the
/// variable given one that was there before.
pub proof fn what_is_owned_is_given_to_nothing(types: Types, decl: FnDecl, name: Seq<char>)
    requires
        function_seen(types, decl) is Some,
        nothing_else_holds(function_seen(types, decl)->0, name),
    ensures
        !some_statement_gives_away(decl.body.stmts, 0, name),
        forall|i: int| 0 <= i < decl.params@.len() ==> (#[trigger] decl.params@[i]).name@ != name,
{
    let first = params_seen(decl);
    let all = function_seen(types, decl)->0;
    statements_are_seen(types, first, decl.body.stmts, 0, name);
    if ruled_out(all, name) {
        let i = choose|i: int| 0 <= i < all.len() && disowns(#[trigger] all[i], name);
        assert(!disowns(all[i], name));
    }
    assert forall|i: int| 0 <= i < decl.params@.len() implies (#[trigger] decl.params@[i]).name@
        != name by {
        if decl.params@[i].name@ == name {
            assert(first[i] == (SightingView::Escaped { name }));
            assert(disowns(first[i], name));
        }
    }
}

} // verus!
