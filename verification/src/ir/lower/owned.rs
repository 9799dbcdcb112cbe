//! Which string variables nothing else can be holding, so growing one in place is safe.

use vstd::prelude::*;

use crate::ast::{
    ArmBody, BinOp, Builtin, Expr, ExprKind, FieldInit, FnDecl, MatchArm, Pattern, Place, Prim,
    PrintPart, Stmt, Ty,
};
use crate::ir::lower::meaning::{makes_its_own, reads, some_arm_reads, some_field_reads, some_reads};
use crate::ir::lower::state::among;
use crate::sema::Types;

verus! {

// -- what a sweep over a function sees --------------------------------------

/// One thing a function does with a variable that bears on who may be holding
/// its string.
#[derive(Debug)]
pub enum Sighting {
    /// Declared, with a value that was freshly built or was not.
    Declared { name: String, fresh: bool },
    /// Given a value that was freshly built or was not.
    Given { name: String, fresh: bool },
    /// Its *pointer* reaches somewhere that outlives the read.
    Escaped { name: String },
}

/// A [`Sighting`] as what it says.
#[verifier::ext_equal]
pub enum SightingView {
    Declared { name: Seq<char>, fresh: bool },
    Given { name: Seq<char>, fresh: bool },
    Escaped { name: Seq<char> },
}

impl View for Sighting {
    type V = SightingView;

    open spec fn view(&self) -> SightingView {
        match *self {
            Sighting::Declared { name, fresh } => SightingView::Declared { name: name@, fresh },
            Sighting::Given { name, fresh } => SightingView::Given { name: name@, fresh },
            Sighting::Escaped { name } => SightingView::Escaped { name: name@ },
        }
    }
}

pub open spec fn sighting_views(seen: Seq<Sighting>) -> Seq<SightingView> {
    seen.map_values(|sighting: Sighting| sighting@)
}

/// Whether an expression *builds* the string it produces, rather than handing
/// on one that already existed somewhere. A literal is not built at all, and
/// counts: it does not live where strings grow. `None` where a type is asked of
/// an operand that has none.
pub open spec fn fresh_of(types: Types, e: Expr) -> Option<bool>
    decreases e, 1int, 0int,
{
    match e.kind {
        ExprKind::Bin { op, lhs, rhs } => if op is Add {
            if types.has(lhs.id) {
                Some(types.ty(lhs.id) == Ty::Str)
            } else {
                None
            }
        } else {
            Some(false)
        },
        ExprKind::Convert { to, value } => Some(to is Str),
        ExprKind::Str(_) => Some(true),
        ExprKind::Call { name, args } => Some(name@ == "read_line"@ && args@.len() == 0),
        ExprKind::Match { scrutinee, arms } => arms_fresh_from(types, arms, 0),
        _ => Some(false),
    }
}

/// Whether every arm from `i` on builds the string it produces.
pub open spec fn arms_fresh_from(types: Types, arms: Vec<MatchArm>, i: int) -> Option<bool>
    decreases arms, 0int, arms@.len() - i,
{
    if 0 <= i < arms@.len() {
        match arms@[i].body {
            ArmBody::Value(value) => match fresh_of(types, value) {
                Some(fresh) => if fresh {
                    arms_fresh_from(types, arms, i + 1)
                } else {
                    Some(false)
                },
                None => None,
            },
            ArmBody::Block(_) => Some(false),
        }
    } else {
        Some(true)
    }
}

/// Whether a variable of a type is given a string freshly built.
pub open spec fn given_fresh(types: Types, ty: Ty, e: Expr) -> Option<bool> {
    if ty == Ty::Str {
        fresh_of(types, e)
    } else {
        Some(false)
    }
}

/// What an expression does, knowing whether the value it produces is **kept**:
/// `y = x` keeps `x`, while `y = x + "!"` does not.
pub open spec fn expr_seen(types: Types, seen: Seq<SightingView>, e: Expr, kept: bool) -> Option<
    Seq<SightingView>,
>
    decreases e, 1int, 0int,
{
    match e.kind {
        ExprKind::Var(name) => if kept {
            Some(seen.push(SightingView::Escaped { name: name@ }))
        } else {
            Some(seen)
        },
        ExprKind::Bin { op, lhs, rhs } => match expr_seen(types, seen, *lhs, false) {
            Some(seen) => expr_seen(types, seen, *rhs, false),
            None => None,
        },
        ExprKind::Cmp { op, lhs, rhs } => match expr_seen(types, seen, *lhs, false) {
            Some(seen) => expr_seen(types, seen, *rhs, false),
            None => None,
        },
        ExprKind::Logic { op, lhs, rhs } => match expr_seen(types, seen, *lhs, false) {
            Some(seen) => expr_seen(types, seen, *rhs, false),
            None => None,
        },
        ExprKind::Index { array, index } => match expr_seen(types, seen, *array, false) {
            Some(seen) => expr_seen(types, seen, *index, false),
            None => None,
        },
        ExprKind::Neg(inner) => expr_seen(types, seen, *inner, false),
        ExprKind::Not(inner) => expr_seen(types, seen, *inner, false),
        ExprKind::Len { array } => expr_seen(types, seen, *array, false),
        ExprKind::Convert { to, value } => expr_seen(types, seen, *value, false),
        ExprKind::Field { object, name } => expr_seen(types, seen, *object, false),
        ExprKind::Call { name, args } => list_seen(types, seen, args, 0),
        ExprKind::MethodCall { receiver, name, args } => match expr_seen(
            types,
            seen,
            *receiver,
            true,
        ) {
            Some(seen) => list_seen(types, seen, args, 0),
            None => None,
        },
        ExprKind::Array { elements } => list_seen(types, seen, elements, 0),
        ExprKind::New { fields } => fields_seen(types, seen, fields, 0),
        ExprKind::Variant { variant, args } => list_seen(types, seen, args, 0),
        ExprKind::Match { scrutinee, arms } => match expr_seen(types, seen, *scrutinee, false) {
            Some(seen) => arms_seen(types, seen, arms, 0, kept),
            None => None,
        },
        _ => Some(seen),
    }
}

/// What the expressions from `i` on do, each of them kept.
pub open spec fn list_seen(types: Types, seen: Seq<SightingView>, list: Vec<Expr>, i: int) -> Option<
    Seq<SightingView>,
>
    decreases list, 0int, list@.len() - i,
{
    if 0 <= i < list@.len() {
        match expr_seen(types, seen, list@[i], true) {
            Some(seen) => list_seen(types, seen, list, i + 1),
            None => None,
        }
    } else {
        Some(seen)
    }
}

/// What the field values from `i` on do, each of them kept.
pub open spec fn fields_seen(
    types: Types,
    seen: Seq<SightingView>,
    list: Vec<FieldInit>,
    i: int,
) -> Option<Seq<SightingView>>
    decreases list, 0int, list@.len() - i,
{
    if 0 <= i < list@.len() {
        match expr_seen(types, seen, list@[i].value, true) {
            Some(seen) => fields_seen(types, seen, list, i + 1),
            None => None,
        }
    } else {
        Some(seen)
    }
}

/// The names a pattern gives to what a variant carries. Each is a declaration, and
/// of something the variant goes on holding.
pub open spec fn bindings_seen(pattern: Pattern) -> Seq<SightingView> {
    match pattern {
        Pattern::Variant { variant, bindings } => bindings@.map_values(
            |name: String| SightingView::Declared { name: name@, fresh: false },
        ),
        _ => seq![],
    }
}

/// What the arms from `i` on do. A match hands its arm's value on as its own,
/// so the arms inherit whatever was asked of the match.
pub open spec fn arms_seen(
    types: Types,
    seen: Seq<SightingView>,
    list: Vec<MatchArm>,
    i: int,
    kept: bool,
) -> Option<Seq<SightingView>>
    decreases list, 0int, list@.len() - i,
{
    if 0 <= i < list@.len() {
        let seen = seen + bindings_seen(list@[i].pattern);
        match (match list@[i].body {
            ArmBody::Value(value) => expr_seen(types, seen, value, kept),
            ArmBody::Block(block) => stmts_seen(types, seen, block.stmts, 0),
        }) {
            Some(seen) => arms_seen(types, seen, list, i + 1, kept),
            None => None,
        }
    } else {
        Some(seen)
    }
}

/// What the index expressions inside a place do, which are read and nothing
/// more.
pub open spec fn place_seen(types: Types, seen: Seq<SightingView>, place: Place) -> Option<
    Seq<SightingView>,
>
    decreases place, 1int, 0int,
{
    match place {
        Place::Var { .. } => Some(seen),
        Place::Element { base, index } => match place_seen(types, seen, *base) {
            Some(seen) => expr_seen(types, seen, index, false),
            None => None,
        },
        Place::Field { base, name } => place_seen(types, seen, *base),
    }
}

/// What the parts from `i` on of a `print` do.
pub open spec fn parts_seen(
    types: Types,
    seen: Seq<SightingView>,
    parts: Vec<PrintPart>,
    i: int,
) -> Option<Seq<SightingView>>
    decreases parts, 0int, parts@.len() - i,
{
    if 0 <= i < parts@.len() {
        match (match parts@[i] {
            PrintPart::Text(_) => Some(seen),
            PrintPart::Value(e) => expr_seen(types, seen, e, false),
            PrintPart::Spec { expr: e } => expr_seen(types, seen, e, false),
        }) {
            Some(seen) => parts_seen(types, seen, parts, i + 1),
            None => None,
        }
    } else {
        Some(seen)
    }
}

/// What the statements from `i` on do.
pub open spec fn stmts_seen(types: Types, seen: Seq<SightingView>, stmts: Vec<Stmt>, i: int) -> Option<
    Seq<SightingView>,
>
    decreases stmts, 0int, stmts@.len() - i,
{
    if 0 <= i < stmts@.len() {
        match stmt_seen(types, seen, stmts@[i]) {
            Some(seen) => stmts_seen(types, seen, stmts, i + 1),
            None => None,
        }
    } else {
        Some(seen)
    }
}

/// What a statement does.
pub open spec fn stmt_seen(types: Types, seen: Seq<SightingView>, s: Stmt) -> Option<
    Seq<SightingView>,
>
    decreases s, 1int, 0int,
{
    match s {
        Stmt::Decl { id, name, init } => if types.has(id) {
            match given_fresh(types, types.ty(id), init) {
                Some(fresh) => expr_seen(
                    types,
                    seen.push(SightingView::Declared { name: name@, fresh }),
                    init,
                    true,
                ),
                None => None,
            }
        } else {
            None
        },
        Stmt::Assign { target, value } => match target {
            Place::Var { name } => if types.has(value.id) {
                match given_fresh(types, types.ty(value.id), value) {
                    Some(fresh) => expr_seen(
                        types,
                        seen.push(SightingView::Given { name: name@, fresh }),
                        value,
                        true,
                    ),
                    None => None,
                }
            } else {
                None
            },
            _ => match place_seen(types, seen, target) {
                Some(seen) => expr_seen(types, seen, value, true),
                None => None,
            },
        },
        // What is pushed is kept by the list; where it is pushed is a place.
        Stmt::Push { target, value } => match place_seen(types, seen, target) {
            Some(seen) => expr_seen(types, seen, value, true),
            None => None,
        },
        // Handed outward, so whoever called this function keeps it.
        Stmt::Return { value } => match value {
            Some(value) => expr_seen(types, seen, value, true),
            None => Some(seen),
        },
        Stmt::Print { newline, parts } => parts_seen(types, seen, parts, 0),
        Stmt::If { cond, then_block, else_block } => match expr_seen(types, seen, cond, false) {
            Some(seen) => match stmts_seen(types, seen, then_block.stmts, 0) {
                Some(seen) => match else_block {
                    Some(block) => stmts_seen(types, seen, block.stmts, 0),
                    None => Some(seen),
                },
                None => None,
            },
            None => None,
        },
        Stmt::While { cond, body } => match expr_seen(types, seen, cond, false) {
            Some(seen) => stmts_seen(types, seen, body.stmts, 0),
            None => None,
        },
        Stmt::For { init, cond, step, body } => match stmt_seen(types, seen, *init) {
            Some(seen) => match expr_seen(types, seen, cond, false) {
                Some(seen) => match stmt_seen(types, seen, *step) {
                    Some(seen) => stmts_seen(types, seen, body.stmts, 0),
                    None => None,
                },
                None => None,
            },
            None => None,
        },
        Stmt::Match(e) => expr_seen(types, seen, e, false),
        Stmt::Call(e) => expr_seen(types, seen, e, false),
        Stmt::Break => Some(seen),
        Stmt::Continue => Some(seen),
    }
}

/// A parameter's string is the caller's, whatever the body does with it.
pub open spec fn params_seen(decl: FnDecl) -> Seq<SightingView> {
    decl.params@.map_values(
        |param: crate::ast::Param| SightingView::Escaped { name: param.name@ },
    )
}

/// What a whole function does.
pub open spec fn function_seen(types: Types, decl: FnDecl) -> Option<Seq<SightingView>> {
    stmts_seen(types, params_seen(decl), decl.body.stmts, 0)
}

/// How often a name is declared.
pub open spec fn times_declared(seen: Seq<SightingView>, name: Seq<char>) -> nat
    decreases seen.len(),
{
    if seen.len() == 0 {
        0
    } else {
        times_declared(seen.drop_last(), name) + match seen.last() {
            SightingView::Declared { name: other, fresh } => if other == name {
                1nat
            } else {
                0nat
            },
            _ => 0nat,
        }
    }
}

/// Whether a sighting rules out that nothing else holds a name's string.
pub open spec fn disowns(sighting: SightingView, name: Seq<char>) -> bool {
    match sighting {
        SightingView::Declared { name: other, fresh } => other == name && !fresh,
        SightingView::Given { name: other, fresh } => other == name && !fresh,
        SightingView::Escaped { name: other } => other == name,
    }
}

/// Whether **nothing else can be holding** a name's string: it is declared
/// exactly once, so the name means one variable everywhere; every value it is
/// ever given is freshly built; and it is never kept anywhere else.
pub open spec fn nothing_else_holds(seen: Seq<SightingView>, name: Seq<char>) -> bool {
    &&& times_declared(seen, name) == 1
    &&& forall|i: int| 0 <= i < seen.len() ==> !disowns(#[trigger] seen[i], name)
}

/// Put a sighting on the end of a list.
fn see(seen: &mut Vec<Sighting>, sighting: Sighting)
    ensures
        sighting_views(final(seen)@) == sighting_views(old(seen)@).push(sighting@),
{
    seen.push(sighting);
    assert(sighting_views(seen@) =~= sighting_views(old(seen)@).push(sighting@));
}

/// The string variables of one function that **nothing else can be holding**.
///
/// A string is read-only, so sharing one is free. One operation would tell two
/// names for the same characters apart: growing a string *where it stands*. So
/// the question is asked the cautious way round: a name is owned only if it can
/// be *proved* to be, and anything the analysis does not recognise means no.
pub fn owned_strings(decl: &FnDecl, types: &Types) -> (owned: Vec<String>)
    requires
        function_seen(*types, *decl) is Some,
    ensures
        forall|name: Seq<char>|
            among(owned@, name) <==> #[trigger] nothing_else_holds(
                function_seen(*types, *decl)->0,
                name,
            ),
{
    let mut seen: Vec<Sighting> = Vec::new();
    let mut i: usize = 0;
    assert(sighting_views(seen@) =~= params_seen(*decl).subrange(0, 0));
    while i < decl.params.len()
        invariant
            i <= decl.params@.len(),
            sighting_views(seen@) == params_seen(*decl).subrange(0, i as int),
        decreases decl.params@.len() - i,
    {
        see(&mut seen, Sighting::Escaped { name: decl.params[i].name.clone() });
        i = i + 1;
        assert(params_seen(*decl).subrange(0, i as int) =~= params_seen(*decl).subrange(
            0,
            i - 1,
        ).push(params_seen(*decl)[i - 1]));
    }
    assert(params_seen(*decl).subrange(0, i as int) =~= params_seen(*decl));
    see_stmts(types, &mut seen, &decl.body.stmts);

    let ghost views = sighting_views(seen@);
    let mut owned: Vec<String> = Vec::new();
    let mut i: usize = 0;
    while i < seen.len()
        invariant
            i <= seen@.len(),
            views == sighting_views(seen@),
            forall|k: int|
                0 <= k < owned@.len() ==> nothing_else_holds(views, (#[trigger] owned@[k])@),
            forall|k: int|
                0 <= k < i && (#[trigger] views[k]) is Declared && nothing_else_holds(
                    views,
                    views[k]->Declared_name,
                ) ==> among(owned@, views[k]->Declared_name),
        decreases seen@.len() - i,
    {
        let ghost before = owned@;
        assert(views[i as int] == seen@[i as int]@);
        if let Sighting::Declared { name, .. } = &seen[i] {
            if held_by_nothing_else(&seen, name) {
                owned.push(name.clone());
                assert(owned@[before.len() as int]@ == name@);
                assert(among(owned@, name@));
            }
        }
        assert forall|k: int|
            0 <= k < i + 1 && (#[trigger] views[k]) is Declared && nothing_else_holds(
                views,
                views[k]->Declared_name,
            ) implies among(owned@, views[k]->Declared_name) by {
            if k < i {
                let j = choose|j: int|
                    0 <= j < before.len() && (#[trigger] before[j])@ == views[k]->Declared_name;
                assert(owned@[j]@ == views[k]->Declared_name);
            }
        }
        i = i + 1;
    }
    proof {
        assert forall|name: Seq<char>|
            among(owned@, name) <==> #[trigger] nothing_else_holds(views, name) by {
            if nothing_else_holds(views, name) {
                declared_somewhere(views, name);
                let k = choose|k: int|
                    0 <= k < views.len() && (#[trigger] views[k]) is Declared
                        && views[k]->Declared_name == name;
                assert(among(owned@, views[k]->Declared_name));
            }
        }
    }
    owned
}

proof fn declared_somewhere(seen: Seq<SightingView>, name: Seq<char>)
    requires
        times_declared(seen, name) > 0,
    ensures
        exists|k: int|
            0 <= k < seen.len() && (#[trigger] seen[k]) is Declared && seen[k]->Declared_name
                == name,
    decreases seen.len(),
{
    if seen.len() > 0 {
        if times_declared(seen.drop_last(), name) > 0 {
            declared_somewhere(seen.drop_last(), name);
            let k = choose|k: int|
                0 <= k < seen.drop_last().len() && (#[trigger] seen.drop_last()[k]) is Declared
                    && seen.drop_last()[k]->Declared_name == name;
            assert(seen[k] is Declared && seen[k]->Declared_name == name);
        } else {
            assert(seen[seen.len() - 1] is Declared);
        }
    }
}

fn held_by_nothing_else(seen: &Vec<Sighting>, name: &String) -> (held: bool)
    ensures
        held == nothing_else_holds(sighting_views(seen@), name@),
{
    let ghost views = sighting_views(seen@);
    let mut declared: usize = 0;
    let mut i: usize = 0;
    while i < seen.len()
        invariant
            i <= seen@.len(),
            views == sighting_views(seen@),
            declared <= i,
            declared == times_declared(views.subrange(0, i as int), name@),
            forall|k: int| 0 <= k < i ==> !disowns(#[trigger] views[k], name@),
        decreases seen@.len() - i,
    {
        let ghost upto = views.subrange(0, i + 1);
        assert(upto.drop_last() =~= views.subrange(0, i as int));
        assert(upto.last() == views[i as int]);
        assert(views[i as int] == seen@[i as int]@);
        match &seen[i] {
            Sighting::Declared { name: other, fresh } => {
                if *other == *name {
                    if !*fresh {
                        assert(disowns(views[i as int], name@));
                        return false;
                    }
                    declared = declared + 1;
                }
            },
            Sighting::Given { name: other, fresh } => {
                if *other == *name && !*fresh {
                    assert(disowns(views[i as int], name@));
                    return false;
                }
            },
            Sighting::Escaped { name: other } => {
                if *other == *name {
                    assert(disowns(views[i as int], name@));
                    return false;
                }
            },
        }
        i = i + 1;
    }
    assert(views.subrange(0, i as int) =~= views);
    declared == 1
}

/// Whether this expression *builds* the string it produces.
fn is_fresh(types: &Types, e: &Expr) -> (fresh: bool)
    requires
        fresh_of(*types, *e) is Some,
    ensures
        Some(fresh) == fresh_of(*types, *e),
    decreases *e, 1int, 0int,
{
    match &e.kind {
        ExprKind::Bin { op, lhs, .. } => match op {
            BinOp::Add => match types.of(lhs.id) {
                Ty::Str => true,
                _ => false,
            },
            _ => false,
        },
        ExprKind::Convert { to, .. } => match to {
            Prim::Str => true,
            _ => false,
        },
        ExprKind::Str(_) => true,
        ExprKind::Call { name, args } => name.as_str().eq(Builtin::ReadLine.name()) && args.len()
            == 0,
        ExprKind::Match { arms, .. } => arms_fresh(types, arms),
        _ => false,
    }
}

fn arms_fresh(types: &Types, arms: &Vec<MatchArm>) -> (fresh: bool)
    requires
        arms_fresh_from(*types, *arms, 0) is Some,
    ensures
        Some(fresh) == arms_fresh_from(*types, *arms, 0),
    decreases *arms, 0int, arms@.len(),
{
    let mut i: usize = 0;
    while i < arms.len()
        invariant
            i <= arms@.len(),
            arms_fresh_from(*types, *arms, 0) is Some,
            arms_fresh_from(*types, *arms, 0) == arms_fresh_from(*types, *arms, i as int),
        decreases arms@.len() - i,
    {
        let fresh: bool = match &arms[i].body {
            ArmBody::Value(value) => is_fresh(types, value),
            ArmBody::Block(_) => false,
        };
        if !fresh {
            return false;
        }
        i = i + 1;
    }
    true
}

/// Whether a variable of a type is given a string freshly built.
fn fresh_given(types: &Types, ty: Ty, e: &Expr) -> (fresh: bool)
    requires
        given_fresh(*types, ty, *e) is Some,
    ensures
        Some(fresh) == given_fresh(*types, ty, *e),
{
    match ty {
        Ty::Str => is_fresh(types, e),
        _ => false,
    }
}

/// What an expression does, knowing whether the value it produces is kept.
fn see_expr(types: &Types, seen: &mut Vec<Sighting>, e: &Expr, kept: bool)
    requires
        expr_seen(*types, sighting_views(old(seen)@), *e, kept) is Some,
    ensures
        Some(sighting_views(final(seen)@)) == expr_seen(
            *types,
            sighting_views(old(seen)@),
            *e, kept,
        ),
    decreases *e, 1int, 0int,
{
    match &e.kind {
        ExprKind::Var(name) => {
            if kept {
                see(seen, Sighting::Escaped { name: name.clone() });
            }
        },
        // A string operator reads its operands and allocates its answer.
        ExprKind::Bin { op, lhs, rhs } => {
            see_expr(types, seen, lhs, false);
            see_expr(types, seen, rhs, false);
        },
        ExprKind::Cmp { op, lhs, rhs } => {
            see_expr(types, seen, lhs, false);
            see_expr(types, seen, rhs, false);
        },
        ExprKind::Logic { op, lhs, rhs } => {
            see_expr(types, seen, lhs, false);
            see_expr(types, seen, rhs, false);
        },
        ExprKind::Index { array, index } => {
            see_expr(types, seen, array, false);
            see_expr(types, seen, index, false);
        },
        ExprKind::Neg(inner) => see_expr(types, seen, inner, false),
        ExprKind::Not(inner) => see_expr(types, seen, inner, false),
        ExprKind::Len { array } => see_expr(types, seen, array, false),
        // A conversion builds a new value out of what it reads.
        ExprKind::Convert { value, .. } => see_expr(types, seen, value, false),
        ExprKind::Field { object, .. } => see_expr(types, seen, object, false),
        // A callee may keep anything it is handed.
        ExprKind::Call { args, .. } => see_list(types, seen, args),
        ExprKind::MethodCall { receiver, args, .. } => {
            see_expr(types, seen, receiver, true);
            see_list(types, seen, args);
        },
        // All three put what they are given *into* something that outlives the
        // expression.
        ExprKind::Array { elements } => see_list(types, seen, elements),
        ExprKind::New { fields } => see_fields(types, seen, fields),
        ExprKind::Variant { args, .. } => see_list(types, seen, args),
        ExprKind::Match { scrutinee, arms } => {
            see_expr(types, seen, scrutinee, false);
            see_arms(types, seen, arms, kept);
        },
        _ => {},
    }
}

/// What a list of expressions does, each of them kept.
fn see_list(types: &Types, seen: &mut Vec<Sighting>, list: &Vec<Expr>)
    requires
        list_seen(*types, sighting_views(old(seen)@), *list, 0) is Some,
    ensures
        Some(sighting_views(final(seen)@)) == list_seen(
            *types,
            sighting_views(old(seen)@),
            *list, 0,
        ),
    decreases *list, 0int, list@.len(),
{
    let ghost start = sighting_views(seen@);
    let mut i: usize = 0;
    while i < list.len()
        invariant
            i <= list@.len(),
            list_seen(*types, start, *list, 0) is Some,
            list_seen(*types, sighting_views(seen@), *list, i as int) == list_seen(
                *types,
                start,
                *list,
                0,
            ),
        decreases list@.len() - i,
    {
        see_expr(types, seen, &list[i], true);
        i = i + 1;
    }
}

/// What a list of field values does, each of them kept.
fn see_fields(types: &Types, seen: &mut Vec<Sighting>, list: &Vec<FieldInit>)
    requires
        fields_seen(*types, sighting_views(old(seen)@), *list, 0) is Some,
    ensures
        Some(sighting_views(final(seen)@)) == fields_seen(
            *types,
            sighting_views(old(seen)@),
            *list, 0,
        ),
    decreases *list, 0int, list@.len(),
{
    let ghost start = sighting_views(seen@);
    let mut i: usize = 0;
    while i < list.len()
        invariant
            i <= list@.len(),
            fields_seen(*types, start, *list, 0) is Some,
            fields_seen(*types, sighting_views(seen@), *list, i as int) == fields_seen(
                *types,
                start,
                *list,
                0,
            ),
        decreases list@.len() - i,
    {
        see_expr(types, seen, &list[i].value, true);
        i = i + 1;
    }
}

/// The names a pattern gives to what a variant carries.
fn see_bindings(seen: &mut Vec<Sighting>, pattern: &Pattern)
    ensures
        sighting_views(final(seen)@) == sighting_views(old(seen)@) + bindings_seen(*pattern),
{
    let ghost start = sighting_views(seen@);
    let ghost all = bindings_seen(*pattern);
    if let Pattern::Variant { bindings, .. } = pattern {
        let mut i: usize = 0;
        assert(start + all.subrange(0, 0) =~= start);
        while i < bindings.len()
            invariant
                i <= bindings@.len() == all.len(),
                all == bindings_seen(*pattern),
                *pattern matches Pattern::Variant { bindings: names, .. } && names == *bindings,
                sighting_views(seen@) == start + all.subrange(0, i as int),
            decreases bindings@.len() - i,
        {
            see(seen, Sighting::Declared { name: bindings[i].clone(), fresh: false });
            assert(start + all.subrange(0, i + 1) =~= (start + all.subrange(0, i as int)).push(
                all[i as int],
            ));
            i = i + 1;
        }
        assert(all.subrange(0, i as int) =~= all);
    } else {
        assert(start + all =~= start);
    }
}

/// What the arms of a match do.
fn see_arms(types: &Types, seen: &mut Vec<Sighting>, list: &Vec<MatchArm>, kept: bool)
    requires
        arms_seen(*types, sighting_views(old(seen)@), *list, 0, kept) is Some,
    ensures
        Some(sighting_views(final(seen)@)) == arms_seen(
            *types,
            sighting_views(old(seen)@),
            *list, 0, kept,
        ),
    decreases *list, 0int, list@.len(),
{
    let ghost start = sighting_views(seen@);
    let mut i: usize = 0;
    while i < list.len()
        invariant
            i <= list@.len(),
            arms_seen(*types, start, *list, 0, kept) is Some,
            arms_seen(*types, sighting_views(seen@), *list, i as int, kept) == arms_seen(
                *types,
                start,
                *list,
                0, kept,
            ),
        decreases list@.len() - i,
    {
        see_bindings(seen, &list[i].pattern);
        match &list[i].body {
            ArmBody::Value(value) => see_expr(types, seen, value, kept),
            ArmBody::Block(block) => see_stmts(types, seen, &block.stmts),
        }
        i = i + 1;
    }
}

/// What the index expressions inside a place do.
fn see_place(types: &Types, seen: &mut Vec<Sighting>, place: &Place)
    requires
        place_seen(*types, sighting_views(old(seen)@), *place) is Some,
    ensures
        Some(sighting_views(final(seen)@)) == place_seen(
            *types,
            sighting_views(old(seen)@),
            *place,
        ),
    decreases *place, 1int, 0int,
{
    match place {
        Place::Var { .. } => {},
        Place::Element { base, index } => {
            see_place(types, seen, base);
            see_expr(types, seen, index, false);
        },
        Place::Field { base, .. } => see_place(types, seen, base),
    }
}

/// What the parts of a `print` do.
fn see_parts(types: &Types, seen: &mut Vec<Sighting>, parts: &Vec<PrintPart>)
    requires
        parts_seen(*types, sighting_views(old(seen)@), *parts, 0) is Some,
    ensures
        Some(sighting_views(final(seen)@)) == parts_seen(
            *types,
            sighting_views(old(seen)@),
            *parts, 0,
        ),
    decreases *parts, 0int, parts@.len(),
{
    let ghost start = sighting_views(seen@);
    let mut i: usize = 0;
    while i < parts.len()
        invariant
            i <= parts@.len(),
            parts_seen(*types, start, *parts, 0) is Some,
            parts_seen(*types, sighting_views(seen@), *parts, i as int) == parts_seen(
                *types,
                start,
                *parts,
                0,
            ),
        decreases parts@.len() - i,
    {
        match &parts[i] {
            PrintPart::Text(_) => {},
            PrintPart::Value(e) => see_expr(types, seen, e, false),
            PrintPart::Spec { expr: e } => see_expr(types, seen, e, false),
        }
        i = i + 1;
    }
}

/// What a list of statements does.
fn see_stmts(types: &Types, seen: &mut Vec<Sighting>, stmts: &Vec<Stmt>)
    requires
        stmts_seen(*types, sighting_views(old(seen)@), *stmts, 0) is Some,
    ensures
        Some(sighting_views(final(seen)@)) == stmts_seen(
            *types,
            sighting_views(old(seen)@),
            *stmts, 0,
        ),
    decreases *stmts, 0int, stmts@.len(),
{
    let ghost start = sighting_views(seen@);
    let mut i: usize = 0;
    while i < stmts.len()
        invariant
            i <= stmts@.len(),
            stmts_seen(*types, start, *stmts, 0) is Some,
            stmts_seen(*types, sighting_views(seen@), *stmts, i as int) == stmts_seen(
                *types,
                start,
                *stmts,
                0,
            ),
        decreases stmts@.len() - i,
    {
        see_stmt(types, seen, &stmts[i]);
        i = i + 1;
    }
}

/// What a statement does.
fn see_stmt(types: &Types, seen: &mut Vec<Sighting>, s: &Stmt)
    requires
        stmt_seen(*types, sighting_views(old(seen)@), *s) is Some,
    ensures
        Some(sighting_views(final(seen)@)) == stmt_seen(
            *types,
            sighting_views(old(seen)@),
            *s,
        ),
    decreases *s, 1int, 0int,
{
    match s {
        Stmt::Decl { id, name, init } => {
            let fresh: bool = fresh_given(types, types.of(*id), init);
            see(seen, Sighting::Declared { name: name.clone(), fresh });
            see_expr(types, seen, init, true);
        },
        Stmt::Assign { target, value } => {
            if let Place::Var { name } = target {
                let fresh: bool = fresh_given(types, types.of(value.id), value);
                see(seen, Sighting::Given { name: name.clone(), fresh });
            } else {
                see_place(types, seen, target);
            }
            see_expr(types, seen, value, true);
        },
        Stmt::Push { target, value } => {
            see_place(types, seen, target);
            see_expr(types, seen, value, true);
        },
        Stmt::Return { value } => {
            if let Some(value) = value {
                see_expr(types, seen, value, true);
            }
        },
        Stmt::Print { parts, .. } => see_parts(types, seen, parts),
        Stmt::If { cond, then_block, else_block } => {
            see_expr(types, seen, cond, false);
            see_stmts(types, seen, &then_block.stmts);
            if let Some(block) = else_block {
                see_stmts(types, seen, &block.stmts);
            }
        },
        Stmt::While { cond, body } => {
            see_expr(types, seen, cond, false);
            see_stmts(types, seen, &body.stmts);
        },
        Stmt::For { init, cond, step, body } => {
            see_stmt(types, seen, init);
            see_expr(types, seen, cond, false);
            see_stmt(types, seen, step);
            see_stmts(types, seen, &body.stmts);
        },
        Stmt::Match(e) => see_expr(types, seen, e, false),
        Stmt::Call(e) => see_expr(types, seen, e, false),
        Stmt::Break => {},
        Stmt::Continue => {},
    }
}

// -- what lowering asks of an expression ------------------------------------

/// Whether this expression reads the variable `name` anywhere inside it.
///
/// The one shape not walked is a block arm, which is answered `true` without
/// looking: the cautious answer costs nothing but an optimisation.
pub fn mentions(e: &Expr, name: &String) -> (found: bool)
    ensures
        found == reads(*e, name@),
    decreases *e, 1int, 0int,
{
    match &e.kind {
        ExprKind::Var(other) => *other == *name,
        ExprKind::Neg(inner) => mentions(inner, name),
        ExprKind::Not(inner) => mentions(inner, name),
        ExprKind::Bin { op, lhs, rhs } => mentions(lhs, name) || mentions(rhs, name),
        ExprKind::Cmp { op, lhs, rhs } => mentions(lhs, name) || mentions(rhs, name),
        ExprKind::Logic { op, lhs, rhs } => mentions(lhs, name) || mentions(rhs, name),
        ExprKind::Index { array, index } => mentions(array, name) || mentions(index, name),
        ExprKind::Len { array } => mentions(array, name),
        ExprKind::Convert { to, value } => mentions(value, name),
        ExprKind::Field { object, .. } => mentions(object, name),
        ExprKind::Array { elements } => one_mentions(elements, name),
        ExprKind::New { fields } => one_field_mentions(fields, name),
        ExprKind::Variant { args, .. } => one_mentions(args, name),
        ExprKind::Call { args, .. } => one_mentions(args, name),
        ExprKind::MethodCall { receiver, args, .. } => mentions(receiver, name) || one_mentions(
            args,
            name,
        ),
        ExprKind::Match { scrutinee, arms } => mentions(scrutinee, name) || one_arm_mentions(
            arms,
            name,
        ),
        _ => false,
    }
}

fn one_mentions(list: &Vec<Expr>, name: &String) -> (found: bool)
    ensures
        found == some_reads(*list, 0, name@),
    decreases *list, 0int, list@.len(),
{
    let mut i: usize = 0;
    while i < list.len()
        invariant
            i <= list@.len(),
            some_reads(*list, 0, name@) == some_reads(*list, i as int, name@),
        decreases list@.len() - i,
    {
        if mentions(&list[i], name) {
            return true;
        }
        i = i + 1;
    }
    false
}

fn one_field_mentions(list: &Vec<FieldInit>, name: &String) -> (found: bool)
    ensures
        found == some_field_reads(*list, 0, name@),
    decreases *list, 0int, list@.len(),
{
    let mut i: usize = 0;
    while i < list.len()
        invariant
            i <= list@.len(),
            some_field_reads(*list, 0, name@) == some_field_reads(*list, i as int, name@),
        decreases list@.len() - i,
    {
        if mentions(&list[i].value, name) {
            return true;
        }
        i = i + 1;
    }
    false
}

fn one_arm_mentions(list: &Vec<MatchArm>, name: &String) -> (found: bool)
    ensures
        found == some_arm_reads(*list, 0, name@),
    decreases *list, 0int, list@.len(),
{
    let mut i: usize = 0;
    while i < list.len()
        invariant
            i <= list@.len(),
            some_arm_reads(*list, 0, name@) == some_arm_reads(*list, i as int, name@),
        decreases list@.len() - i,
    {
        let found: bool = match &list[i].body {
            ArmBody::Value(value) => mentions(value, name),
            ArmBody::Block(_) => true,
        };
        if found {
            return true;
        }
        i = i + 1;
    }
    false
}

/// Whether lowering this expression *reserves* the room its value lives in,
/// rather than naming room something else owns.
///
/// The ones that do are the two literals and a call, which fills room the
/// caller reserved for it.
pub fn builds_its_own(e: &Expr) -> (builds: bool)
    ensures
        builds == makes_its_own(*e),
{
    match &e.kind {
        ExprKind::New { .. } => true,
        ExprKind::Array { .. } => true,
        ExprKind::Call { .. } => true,
        ExprKind::MethodCall { .. } => true,
        _ => false,
    }
}

} // verus!
