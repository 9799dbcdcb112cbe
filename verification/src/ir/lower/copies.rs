//! What is copied, and how much of it.

use vstd::prelude::*;

use super::machine::{
    both_appended, code, nothing_appended, one_appended, one_into_a_new_register, scopes_exist,
    straight, temp_is_new,
};
use super::meaning::{
    array_into_of, binding_of, boxed_enum, element_read, expr_body, expr_into_of, expr_of,
    fixed_up, keep_into_body, keep_into_of, list_element, object_into_of, payload_offset,
    push_routine, pushed_args, shaped, type_of, variant_value_of, write_through_body,
    write_through_of, Room,
};
use super::program::started;
use super::rooms::{
    elements_are_laid_out, fields_apart, fields_are_filled_out, room_is_made, stride,
};
use super::state::{
    allocated, bound, called, emitted, measure, met, named, opened, temp, ContextView, State,
};
use super::variants::{called_is_bound, plain_word, variants_are_found};
use crate::ast::{most_carried, Expr, ExprKind, Ty, VariantInfo};
use crate::ir::instr::{InstrView, Runtime};
use crate::ir::value::{VReg, Value};

verus! {

/// **A variant carries its values one word behind the other**, behind its tag.
pub proof fn payloads_stand_word_by_word(cx: ContextView, i: u32)
    requires
        payload_offset(cx, i) is Some,
    ensures
        payload_offset(cx, i)->0 == (i + 1) * cx.types.table.layout.word,
{
    let word = cx.types.table.layout.word as int;
    assert(word + i * word == (i + 1) * word) by (nonlinear_arith);
}

/// **A name in a pattern is read from its own place**, whatever its type; a list comes out
/// as a copy of what stands there.
pub proof fn bindings_are_read_from_their_place(
    cx: ContextView,
    st: State,
    value: Value,
    ty: Ty,
    name: Seq<char>,
    i: int,
)
    requires
        0 <= i < u32::MAX,
        st.current.0 < st.blocks.len(),
        st.scopes.len() > 0,
        binding_of(cx, st, value, ty, name, i) is Some,
    ensures
        ({
            let after = binding_of(cx, st, value, ty, name, i)->0;
            let steps = code(st, after);
            &&& straight(st, after)
            &&& steps.len() == (if ty is List {
                3int
            } else {
                2
            })
            &&& bound(after, name) matches Some((dst, to)) && to == ty && (
            steps[0] matches InstrView::Field { dst: at, base, offset } && base == value && offset
                == (i + 1) * cx.types.table.layout.word && (
            steps[1] matches InstrView::Load { dst: into, addr } && into == dst && addr
                == Value::Reg(at) && at != dst)) && (ty matches Ty::List(id) ==> steps[2]
                == InstrView::RtCall {
                dst: Some(dst),
                callee: Runtime::ListClone,
                args: seq![
                    Value::Reg(dst),
                    Value::Const(
                        cx.types.table.bytes_of(cx.types.table.lists@[id.0 as int]) as i64,
                    ),
                    Value::Const(
                        if cx.types.table.may_hold_a_list(cx.types.table.lists@[id.0 as int]) {
                            1
                        } else {
                            0
                        },
                    ),
                ],
            })
        }),
{
    let after = binding_of(cx, st, value, ty, name, i)->0;
    let (first, dst) = named(st, name)->0;
    let (made, at) = temp(first)->0;
    let offset = payload_offset(cx, i as u32)->0;
    payloads_stand_word_by_word(cx, i as u32);
    let field = InstrView::Field { dst: at, base: value, offset };
    let load = InstrView::Load { dst, addr: Value::Reg(at) };
    reveal(named);
    nothing_appended(st, first);
    one_into_a_new_register(first, field);
    let pointed = emitted(made, field);
    let loaded = emitted(pointed, load);
    one_appended(pointed, load);
    both_appended(st, first, pointed);
    both_appended(st, pointed, loaded);
    assert(code(st, loaded) =~= seq![field, load]);
    if let Ty::List(id) = ty {
        let (elem, bytes) = list_element(cx, ty)->0;
        let copy = InstrView::RtCall {
            dst: Some(dst),
            callee: Runtime::ListClone,
            args: seq![
                Value::Reg(dst),
                Value::Const(bytes as i64),
                Value::Const(super::meaning::flag(cx.types.table.may_hold_a_list(elem))),
            ],
        };
        let copied = emitted(loaded, copy);
        one_appended(loaded, copy);
        both_appended(st, loaded, copied);
        assert(code(st, copied) =~= seq![field, load, copy]);
        called_is_bound(copied, name, dst, ty, name);
        assert(after.blocks == copied.blocks && after.current == copied.current) by {
            reveal(called);
        }
        nothing_appended(copied, after);
        both_appended(st, copied, after);
        assert(code(st, after) =~= seq![field, load, copy]);
    } else {
        called_is_bound(loaded, name, dst, ty, name);
        assert(after.blocks == loaded.blocks && after.current == loaded.current) by {
            reveal(called);
        }
        nothing_appended(loaded, after);
        both_appended(st, loaded, after);
        assert(code(st, after) =~= seq![field, load]);
    }
}

/// **A list that something else holds is copied where it is kept**, and nothing else is.
pub proof fn kept_lists_are_copied(cx: ContextView, st: State, dst: VReg, e: Expr)
    requires
        keep_into_of(cx, st, dst, e) is Some,
    ensures
        ({
            let put = expr_into_of(cx, st, dst, e);
            let names_one = e.kind is Var || e.kind is Field || e.kind is Index;
            &&& put is Some
            &&& !(type_of(cx, e.id) matches Some(Ty::List(_))) ==> keep_into_of(cx, st, dst, e)
                == put
            &&& e.kind is New || e.kind is Array || e.kind is Call || e.kind is MethodCall
                ==> keep_into_of(cx, st, dst, e) == put
            &&& names_one && (type_of(cx, e.id) matches Some(Ty::List(_))) ==> {
                let elem = cx.types.table.lists@[(type_of(cx, e.id)->0)->List_0.0 as int];
                keep_into_of(cx, st, dst, e) == Some(
                    emitted(
                        put->0,
                        InstrView::RtCall {
                            dst: Some(dst),
                            callee: Runtime::ListClone,
                            args: seq![
                                Value::Reg(dst),
                                Value::Const(cx.types.table.bytes_of(elem) as i64),
                                Value::Const(
                                    if cx.types.table.may_hold_a_list(elem) {
                                        1
                                    } else {
                                        0
                                    },
                                ),
                            ],
                        },
                    ),
                )
            }
        }),
{
    assert(keep_into_of(cx, st, dst, e) == keep_into_body(cx, st, dst, e));
}

/// **A copy that may hold lists is given its own**: as many times as there are elements,
/// and as far apart as they are.
pub proof fn copies_are_given_their_own(cx: ContextView, st: State, at: Value, ty: Ty)
    requires
        st.current.0 < st.blocks.len(),
        fixed_up(cx, st, at, ty) is Some,
    ensures
        ({
            let after = fixed_up(cx, st, at, ty)->0;
            &&& !cx.types.table.may_hold_a_list(ty) ==> after == st
            &&& cx.types.table.may_hold_a_list(ty) ==> {
                &&& ty matches Ty::Array(id) ==> code(st, after) == seq![
                    InstrView::Fixup {
                        at,
                        count: Value::Const(cx.types.table.arrays@[id.0 as int].len as i64),
                        stride: cx.types.table.bytes_of(cx.types.table.arrays@[id.0 as int].elem),
                    },
                ]
                &&& !(ty is Array) ==> code(st, after) == seq![
                    InstrView::Fixup { at, count: Value::Const(1), stride: 0 },
                ]
            }
        }),
{
    let after = fixed_up(cx, st, at, ty)->0;
    if cx.types.table.may_hold_a_list(ty) {
        match ty {
            Ty::Array(id) => {
                one_appended(
                    st,
                    InstrView::Fixup {
                        at,
                        count: Value::Const(cx.types.table.arrays@[id.0 as int].len as i64),
                        stride: cx.types.table.bytes_of(cx.types.table.arrays@[id.0 as int].elem),
                    },
                );
            },
            _ => {
                one_appended(st, InstrView::Fixup { at, count: Value::Const(1), stride: 0 });
            },
        }
    }
}

/// **The characters of a string are four bytes each**, counted where they are, and read as
/// characters; whatever else fits in a register is read as a word, and what does not is
/// named by where it is.
pub proof fn elements_are_read_as_what_they_are(
    cx: ContextView,
    st: State,
    base: Value,
    dst: VReg,
    of: Ty,
    ty: Ty,
    addr: VReg,
)
    requires
        st.current.0 < st.blocks.len(),
    ensures
        shaped(cx, st, Ty::Str, base) matches Some((after, len, scale)) ==> {
            &&& scale == 4
            &&& len is Reg
            &&& code(st, after) == seq![InstrView::Count { dst: len->Reg_0, of: base }]
        },
        of == Ty::Str ==> element_read(dst, of, ty, addr) == (InstrView::LoadChar {
            dst,
            addr: Value::Reg(addr),
        }),
        of != Ty::Str && !(ty is Array || ty is Class) ==> element_read(dst, of, ty, addr) == (
        InstrView::Load { dst, addr: Value::Reg(addr) }),
        of != Ty::Str && (ty is Array || ty is Class) ==> element_read(dst, of, ty, addr) == (
        InstrView::Copy { dst, src: Value::Reg(addr) }),
{
    if let Some((after, len, scale)) = shaped(cx, st, Ty::Str, base) {
        reveal(measure);
        let (made, reg) = measure(st)->0;
        temp_is_new(st);
        let instr = InstrView::Count { dst: reg, of: base };
        nothing_appended(st, made);
        one_appended(made, instr);
        both_appended(st, made, after);
        assert(code(st, after) =~= seq![instr]);
    }
}

/// **A variant of an enum that carries nothing is its number**, that of the first variant
/// of the name.
pub proof fn bare_variants_are_numbers(cx: ContextView, st: State, e: Expr)
    requires
        e.kind is Variant,
        type_of(cx, e.id) matches Some(Ty::Enum(id)) && !boxed_enum(cx, Ty::Enum(id))
            && cx.types.table.enums@[id.0 as int].variants@.len() <= i64::MAX,
        variant_value_of(cx, st, e) is Some,
    ensures
        ({
            let id = (type_of(cx, e.id)->0)->Enum_0;
            let variants = cx.types.table.enums@[id.0 as int].variants@;
            let name = e.kind->Variant_variant@;
            let (after, value) = variant_value_of(cx, st, e)->0;
            &&& after == st
            &&& value matches Value::Const(k) && 0 <= k < variants.len() && variants[k as int].name@
                == name && (forall|j: int|
                0 <= j < k ==> (#[trigger] variants[j]).name@ != name)
        }),
{
    let id = (type_of(cx, e.id)->0)->Enum_0;
    variants_are_found(
        cx.types.table.enums@[id.0 as int].variants@,
        e.kind->Variant_variant@,
        0,
    );
}

/// **An answer that does not fit in a register goes where the caller says**: the first
/// thing the function is given is where, and nothing else is taken in before its parameters.
pub proof fn answers_go_where_the_caller_says(
    cx: ContextView,
    ret: Option<Ty>,
    strings: Seq<Seq<char>>,
    texts: Seq<Seq<char>>,
)
    requires
        started(cx, ret, strings, texts) is Some,
    ensures
        ({
            let st = started(cx, ret, strings, texts)->0;
            let first = st.blocks[st.current.0 as int].instrs;
            &&& st.blocks.len() == 1
            &&& st.current.0 == 0
            &&& st.strings == strings
            &&& st.texts == texts
            &&& if ret is Some && (ret->0 is Array || ret->0 is Class) {
                &&& st.out_pointer is Some
                &&& first == seq![InstrView::Param { dst: st.out_pointer->0, index: 0 }]
            } else {
                &&& st.out_pointer is None
                &&& first.len() == 0
            }
        }),
{
    reveal(opened);
    reveal(named);
    reveal(emitted);
    let st = started(cx, ret, strings, texts)->0;
    if ret is Some && (ret->0 is Array || ret->0 is Class) {
        assert(st.blocks[0].instrs =~= seq![
            InstrView::Param { dst: st.out_pointer->0, index: 0 },
        ]);
    }
}

// -- room -------------------------------------------------------------------

/// Whether building starts by reserving so many bytes of the frame for a register.
pub open spec fn reserves(st: State, after: State, dst: VReg, bytes: u32) -> bool {
    &&& code(st, after).len() > 0
    &&& code(st, after)[0] == (InstrView::Frame { dst, offset: st.frame_bytes })
    &&& allocated(st, dst, bytes).frame_bytes - st.frame_bytes == bytes || st.frame_bytes + bytes
        > u32::MAX
}

/// **An object is made with the room its class needs, and knows its class.** Before any of
/// its fields is filled, the room is reserved and the class's table is put at its start.
pub proof fn objects_know_their_class(cx: ContextView, st: State, dst: VReg, e: Expr)
    requires
        e.kind matches ExprKind::New { fields } && (forall|j: int|
            0 <= j < fields@.len() ==> plain_word(cx, (#[trigger] fields@[j]).value)) && (forall|
            a: int,
            b: int,
        |
            #![trigger fields@[a], fields@[b]]
            0 <= a < b < fields@.len() ==> fields@[a].name@ != fields@[b].name@),
        type_of(cx, e.id) matches Some(Ty::Class(id)) && fields_apart(
            cx.types.table.classes@[id.0 as int].fields@,
        ),
        scopes_exist(st),
        st.names.len() <= u32::MAX,
        dst.0 < st.names.len(),
        st.current.0 < st.blocks.len(),
        object_into_of(cx, st, dst, e) is Some,
    ensures
        ({
            let after = object_into_of(cx, st, dst, e)->0;
            let steps = code(st, after);
            &&& type_of(cx, e.id) matches Some(Ty::Class(id)) && {
                &&& reserves(st, after, dst, cx.types.table.classes@[id.0 as int].storage)
                &&& steps.len() >= 3
                &&& steps[1] matches InstrView::VTable { dst: table, class } && class == id && (
                steps[2] == (InstrView::Store { addr: Value::Reg(dst), value: Value::Reg(table) }))
            }
        }),
{
    let after = object_into_of(cx, st, dst, e)->0;
    let id = (type_of(cx, e.id)->0)->Class_0;
    let storage = cx.types.table.classes@[id.0 as int].storage;
    let one = allocated(st, dst, storage);
    room_is_made(st, dst, storage);
    let (two, table) = temp(one)->0;
    let set = InstrView::VTable { dst: table, class: id };
    let store = InstrView::Store { addr: Value::Reg(dst), value: Value::Reg(table) };
    one_into_a_new_register(one, set);
    let three = emitted(two, set);
    let four = emitted(three, store);
    one_appended(three, store);
    both_appended(st, one, three);
    both_appended(st, three, four);
    assert(code(st, four) =~= seq![
        InstrView::Frame { dst, offset: st.frame_bytes },
        set,
        store,
    ]);
    assert(scopes_exist(four));
    let fields = e.kind->New_fields;
    fields_are_filled_out(cx, four, Value::Reg(dst), id, fields, 0);
    both_appended(st, four, after);
    assert(code(st, after)[0] == code(st, four)[0]);
    assert(code(st, after)[1] == code(st, four)[1]);
    assert(code(st, after)[2] == code(st, four)[2]);
    assert(reserves(st, after, dst, storage)) by {
        reveal(allocated);
        reveal(emitted);
    }
}

/// **An array is made with the room its type needs, and a list as long as it is written.**
pub proof fn literals_have_room(cx: ContextView, st: State, dst: VReg, e: Expr)
    requires
        e.kind matches ExprKind::Array { elements } && elements@.len() <= i64::MAX && (forall|
            j: int,
        |
            0 <= j < elements@.len() ==> plain_word(cx, #[trigger] elements@[j])),
        type_of(cx, e.id) matches Some(ty) && (ty is Array || ty is List) && stride(cx, ty) > 0,
        scopes_exist(st),
        st.names.len() <= u32::MAX,
        dst.0 < st.names.len(),
        st.current.0 < st.blocks.len(),
        array_into_of(cx, st, dst, e) is Some,
    ensures
        ({
            let after = array_into_of(cx, st, dst, e)->0;
            let count = e.kind->Array_elements@.len();
            &&& type_of(cx, e.id) matches Some(Ty::Array(id)) ==> reserves(
                st,
                after,
                dst,
                cx.types.table.arrays@[id.0 as int].bytes,
            )
            &&& type_of(cx, e.id) matches Some(Ty::List(id)) ==> code(st, after).len() > 0 && code(
                st,
                after,
            )[0] == InstrView::RtCall {
                dst: Some(dst),
                callee: Runtime::ListNew,
                args: seq![
                    Value::Const(count as i64),
                    Value::Const(
                        cx.types.table.bytes_of(cx.types.table.lists@[id.0 as int]) as i64,
                    ),
                ],
            }
        }),
{
    let after = array_into_of(cx, st, dst, e)->0;
    let elements = e.kind->Array_elements;
    let ty = type_of(cx, e.id)->0;
    let scale = stride(cx, ty) as u32;
    match ty {
        Ty::Array(id) => {
            let bytes = cx.types.table.arrays@[id.0 as int].bytes;
            room_is_made(st, dst, bytes);
            let one = allocated(st, dst, bytes);
            let len = Value::Const(cx.types.table.arrays@[id.0 as int].len as i64);
            assert(scopes_exist(one));
            elements_are_laid_out(cx, one, Value::Reg(dst), len, scale, elements, 0);
            both_appended(st, one, after);
            assert(code(st, after)[0] == code(st, one)[0]);
            assert(reserves(st, after, dst, bytes)) by {
                reveal(allocated);
                reveal(emitted);
            }
        },
        Ty::List(id) => {
            let len = Value::Const(elements@.len() as i64);
            let instr = InstrView::RtCall {
                dst: Some(dst),
                callee: Runtime::ListNew,
                args: seq![
                    len,
                    Value::Const(
                        cx.types.table.bytes_of(cx.types.table.lists@[id.0 as int]) as i64,
                    ),
                ],
            };
            let one = emitted(st, instr);
            one_appended(st, instr);
            assert(scopes_exist(one));
            elements_are_laid_out(cx, one, Value::Reg(dst), len, scale, elements, 0);
            both_appended(st, one, after);
            assert(code(st, after)[0] == code(st, one)[0]);
        },
        _ => {},
    }
}

/// **A variable that does not fit in a register is copied whole**, as many bytes as its
/// type has, from where it stands to where it is wanted.
pub proof fn aggregates_are_copied_whole(
    cx: ContextView,
    st: State,
    addr: Value,
    e: Expr,
    room: Room,
)
    requires
        e.kind is Var,
        type_of(cx, e.id) matches Some(ty) && (ty is Array || ty is Class)
            && !cx.types.table.may_hold_a_list(ty),
        st.current.0 < st.blocks.len(),
        write_through_of(cx, st, addr, e, room) is Some,
    ensures
        bound(st, e.kind->Var_0@) is Some,
        code(st, write_through_of(cx, st, addr, e, room)->0) == seq![
            InstrView::CopyBytes {
                dst: addr,
                src: Value::Reg((bound(st, e.kind->Var_0@)->0).0),
                bytes: cx.types.table.bytes_of(type_of(cx, e.id)->0),
            },
        ],
{
    let after = write_through_of(cx, st, addr, e, room)->0;
    assert(write_through_of(cx, st, addr, e, room) == write_through_body(cx, st, addr, e, room));
    assert(expr_of(cx, st, e) == expr_body(cx, st, e));
    let reg = (bound(st, e.kind->Var_0@)->0).0;
    let read = met(st, reg);
    let copy = InstrView::CopyBytes {
        dst: addr,
        src: Value::Reg(reg),
        bytes: cx.types.table.bytes_of(type_of(cx, e.id)->0),
    };
    nothing_appended(st, read);
    one_appended(read, copy);
    both_appended(st, read, after);
    assert(Seq::<InstrView>::empty() + seq![copy] =~= seq![copy]);
}

/// **What is pushed is handed over as what it is**: a word as itself, and anything else by
/// where it is, how big it is, and whether it may hold a list.
pub proof fn pushes_hand_over_what_they_push(
    cx: ContextView,
    elem: Ty,
    bytes: u32,
    value: Value,
)
    ensures
        !(elem is Array || elem is Class) ==> push_routine(elem) == Runtime::ListPush
            && pushed_args(cx, elem, bytes, value) == seq![value],
        elem is Array || elem is Class ==> push_routine(elem) == Runtime::ListPushBig
            && pushed_args(cx, elem, bytes, value) == seq![
            value,
            Value::Const(bytes as i64),
            Value::Const(
                if cx.types.table.may_hold_a_list(elem) {
                    1
                } else {
                    0
                },
            ),
        ],
{
}

/// **The most that is carried is what the fullest variant carries**, so that there is room
/// for what any of them does.
pub proof fn variants_have_room(variants: Seq<VariantInfo>, k: int)
    requires
        0 <= k < variants.len(),
    ensures
        variants[k].payload@.len() <= most_carried(variants),
        exists|j: int|
            0 <= j < variants.len() && (#[trigger] variants[j]).payload@.len() == most_carried(
                variants,
            ),
    decreases variants.len(),
{
    let rest = variants.drop_last();
    let last = variants.len() - 1;
    assert(variants[last] == variants.last());
    if rest.len() > 0 {
        let at = if k < last {
            k
        } else {
            0
        };
        variants_have_room(rest, at);
        let j = choose|j: int|
            0 <= j < rest.len() && (#[trigger] rest[j]).payload@.len() == most_carried(rest);
        assert(variants[j] == rest[j]);
        assert(k < last ==> variants[k] == rest[k]);
    } else {
        assert(most_carried(rest) == 0);
        if variants[last].payload@.len() == 0 {
            assert(variants[last].payload@.len() == most_carried(variants));
        }
    }
}

} // verus!
