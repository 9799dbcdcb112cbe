//! Lowering the things that live in memory: arrays, lists, objects and places.

use vstd::prelude::*;

use crate::ast::{
    is_scalar_value, BinOp, Builtin, ClassId, CmpOp, Expr, ExprKind, FieldInit, Place, Prim, Ty,
};
use crate::float;
use crate::ir::fold::{bits_of, word, word_of};
use crate::ir::instr::{Instr, Runtime};
use crate::ir::lower::builder::Lowering;
use crate::ir::lower::meaning::{
    append_of, args_from, conversion, convert_into_of, counted, elements_from, field_at,
    fields_from, fill_array_of, fill_object_of, fixed_up, flag, grows, index_address_of, is_append,
    keep_into_body, keep_into_of, list_element, makes_a_temporary, method_call_of, method_called,
    operand_typed, place_address_of, place_type_of, place_value_of, shaped, spine_typed,
    string_op_of, string_operator, strings_compared, takes, temporary_typed, write_through_body,
    write_through_of, Room,
};
use crate::ir::lower::owned::{builds_its_own, mentions};
use crate::ir::lower::state::{
    allocated, follows, has, held_here, is_length, is_set, limits, sound, writable, Context,
};
use crate::ir::value::{FuncId, Num, VReg, Value, CHAR_BYTES};

verus! {

/// The 0 or 1 a `bool` is.
pub fn flag_of(b: bool) -> (word: i64)
    ensures
        word == flag(b),
{
    if b {
        1
    } else {
        0
    }
}

/// What one element of a list type is, and how many bytes it takes.
pub fn element_of(cx: &Context<'_>, list: Ty) -> (element: (Ty, u32))
    requires
        list_element(cx@, list) is Some,
    ensures
        Some(element) == list_element(cx@, list),
{
    match list {
        Ty::List(id) => {
            let elem = cx.types.table().element(id);
            (elem, cx.types.table().size_of(elem))
        },
        _ => {
            assert(false);
            (list, 0)
        },
    }
}

impl Lowering {
    // -- arrays ------------------------------------------------------------

    /// The address of `array[index]`, in a fresh register.
    ///
    /// One `Elem` and nothing else. The multiply-and-add that turns an index
    /// into an offset is *addressing*, not arithmetic the program wrote, so it
    /// never picks up the overflow guard `Bin` carries.
    pub fn element_address(&mut self, cx: &Context<'_>, e: &Expr) -> (addr: VReg)
        requires
            sound(old(self)@),
            old(self)@.limits == limits(cx@),
            index_address_of(cx@, old(self)@, *e) is Some,
        ensures
            Some((final(self)@, addr)) == index_address_of(cx@, old(self)@, *e),
            follows(old(self)@, final(self)@),
            has(final(self)@, Value::Reg(addr)),
        decreases *e, 10int, 0int,
    {
        match &e.kind {
            ExprKind::Index { array, index } => {
                let ty = cx.types.of(array.id);
                let base = self.expr(cx, array);
                let (len, scale) = self.shape_of(cx, ty, base);
                let index = self.expr(cx, index);
                let dst = self.fresh_temp();
                self.emit(Instr::Elem { dst, base, index, len, scale });
                dst
            },
            _ => {
                assert(false);
                VReg(0)
            },
        }
    }

    /// How long the thing in `base` is and how wide each of its elements is.
    ///
    /// For an array both are facts about the *type*. For a string or a list the
    /// width still is, but the length is a load.
    pub fn shape_of(&mut self, cx: &Context<'_>, ty: Ty, base: Value) -> (shape: (Value, u32))
        requires
            sound(old(self)@),
            old(self)@.limits == limits(cx@),
            has(old(self)@, base),
            shaped(cx@, old(self)@, ty, base) is Some,
        ensures
            Some((final(self)@, shape.0, shape.1)) == shaped(cx@, old(self)@, ty, base),
            follows(old(self)@, final(self)@),
            has(final(self)@, shape.0),
            is_length(shape.0, final(self)@.lengths),
    {
        match ty {
            Ty::Array(id) => {
                let info = cx.types.table().array(id);
                (Value::Const(info.len as i64), cx.types.table().size_of(info.elem))
            },
            Ty::Str => (self.length_of(base), CHAR_BYTES),
            Ty::List(_) => {
                let (_, bytes) = element_of(cx, ty);
                (self.length_of(base), bytes)
            },
            _ => {
                assert(false);
                (base, 0)
            },
        }
    }

    /// The count in front of a string's characters or a list's elements.
    pub fn length_of(&mut self, of: Value) -> (len: Value)
        requires
            sound(old(self)@),
            has(old(self)@, of),
            counted(old(self)@, of) is Some,
        ensures
            Some((final(self)@, len)) == counted(old(self)@, of),
            follows(old(self)@, final(self)@),
            has(final(self)@, len),
            is_length(len, final(self)@.lengths),
    {
        let dst = self.fresh_length();
        self.emit(Instr::Count { dst, of });
        Value::Reg(dst)
    }

    /// Lower a value that is about to be **kept**: put in a variable, or handed
    /// back from a function.
    ///
    /// A list is one pointer, so lowering one straight into a variable would
    /// give two names to one run of elements. Something that built its own is
    /// nobody else's already, and moves in as it is.
    pub fn keep_into(&mut self, cx: &Context<'_>, dst: VReg, e: &Expr)
        requires
            sound(old(self)@),
            old(self)@.limits == limits(cx@),
            writable(old(self)@, dst),
            keep_into_of(cx@, old(self)@, dst, *e) is Some,
        ensures
            Some(final(self)@) == keep_into_of(cx@, old(self)@, dst, *e),
            follows(old(self)@, final(self)@),
            is_set(final(self)@, dst),
        decreases *e, 75int, 0int,
    {
        assert(keep_into_of(cx@, self@, dst, *e) == keep_into_body(cx@, self@, dst, *e));
        self.expr_into(cx, dst, e);
        let ty = cx.types.of(e.id);
        let list: bool = match ty {
            Ty::List(_) => true,
            _ => false,
        };
        if list && !builds_its_own(e) {
            let (elem, bytes) = element_of(cx, ty);
            let deep: i64 = flag_of(cx.types.table().holds_a_list(elem));
            let args: Vec<Value> = vec![
                Value::Reg(dst),
                Value::Const(bytes as i64),
                Value::Const(deep),
            ];
            assert(args@ =~= seq![Value::Reg(dst), Value::Const(bytes as i64), Value::Const(deep)]);
            self.emit(Instr::RtCall { dst: Some(dst), callee: Runtime::ListClone, args });
        }
    }

    /// Append each string added on the right of a variable, in order.
    pub fn append_pieces(&mut self, cx: &Context<'_>, dst: VReg, e: &Expr)
        requires
            sound(old(self)@),
            old(self)@.limits == limits(cx@),
            writable(old(self)@, dst),
            is_set(old(self)@, dst),
            append_of(cx@, old(self)@, dst, *e) is Some,
        ensures
            Some(final(self)@) == append_of(cx@, old(self)@, dst, *e),
            follows(old(self)@, final(self)@),
            is_set(final(self)@, dst),
        decreases *e, 70int, 0int,
    {
        match &e.kind {
            ExprKind::Bin { op, lhs, rhs } => {
                self.append_pieces(cx, dst, lhs);
                // Whether this piece was built by this very statement, and so
                // is nobody else's to lose.
                let own: i64 = flag_of(builds_a_temporary(cx, rhs));
                let piece = self.expr(cx, rhs);
                let args: Vec<Value> = vec![Value::Reg(dst), piece, Value::Const(own)];
                assert(args@ =~= seq![Value::Reg(dst), piece, Value::Const(own)]);
                self.emit(Instr::RtCall { dst: Some(dst), callee: Runtime::Append, args });
            },
            _ => {},
        }
    }

    /// Lower `a + b` or a comparison on two strings into `dst`.
    pub fn string_op_into(&mut self, cx: &Context<'_>, dst: VReg, e: &Expr)
        requires
            sound(old(self)@),
            old(self)@.limits == limits(cx@),
            writable(old(self)@, dst),
            string_op_of(cx@, old(self)@, dst, *e) is Some,
        ensures
            Some(final(self)@) == string_op_of(cx@, old(self)@, dst, *e),
            follows(old(self)@, final(self)@),
            is_set(final(self)@, dst),
        decreases *e, 10int, 0int,
    {
        match &e.kind {
            ExprKind::Bin { op, lhs, rhs } => {
                let a = self.expr(cx, lhs);
                let b = self.expr(cx, rhs);
                let args: Vec<Value> = vec![a, b];
                assert(args@ =~= seq![a, b]);
                self.emit(Instr::RtCall { dst: Some(dst), callee: Runtime::Concat, args });
            },
            ExprKind::Cmp { op, lhs, rhs } => {
                let a = self.expr(cx, lhs);
                let b = self.expr(cx, rhs);
                self.compare_strings(dst, *op, a, b);
            },
            _ => {
                assert(false);
            },
        }
    }

    /// The routine answers whether the two are the same, and `!=` is that
    /// question read the other way round, so one routine serves both.
    fn compare_strings(&mut self, dst: VReg, op: CmpOp, a: Value, b: Value)
        requires
            sound(old(self)@),
            writable(old(self)@, dst),
            has(old(self)@, a),
            has(old(self)@, b),
            strings_compared(old(self)@, dst, op, a, b) is Some,
        ensures
            Some(final(self)@) == strings_compared(old(self)@, dst, op, a, b),
            follows(old(self)@, final(self)@),
            is_set(final(self)@, dst),
    {
        let args: Vec<Value> = vec![a, b];
        assert(args@ =~= seq![a, b]);
        match op {
            CmpOp::Eq => {
                self.emit(Instr::RtCall { dst: Some(dst), callee: Runtime::StrEq, args });
            },
            _ => {
                let same = self.fresh_temp();
                self.emit(Instr::RtCall { dst: Some(same), callee: Runtime::StrEq, args });
                self.emit(
                    Instr::Cmp {
                        num: Num::Int,
                        op: CmpOp::Eq,
                        dst,
                        lhs: Value::Reg(same),
                        rhs: Value::Const(0),
                    },
                );
            },
        }
    }

    /// Lower a conversion into `dst`.
    ///
    /// Every character has a code point, but not every number names a
    /// character. So only that direction can fail, and it fails where it was
    /// written. A constant is settled here: what is left to check at run time is
    /// only ever a value the running program alone knows.
    pub fn convert_into(&mut self, cx: &Context<'_>, dst: VReg, to: Prim, e: &Expr)
        requires
            sound(old(self)@),
            old(self)@.limits == limits(cx@),
            writable(old(self)@, dst),
            convert_into_of(cx@, old(self)@, dst, to, *e) is Some,
        ensures
            Some(final(self)@) == convert_into_of(cx@, old(self)@, dst, to, *e),
            follows(old(self)@, final(self)@),
            is_set(final(self)@, dst),
        decreases *e, 70int, 0int,
    {
        let from = cx.types.of(e.id);
        let src = self.expr(cx, e);
        let instr = converted(dst, from, to, src);
        self.emit(instr);
    }

    /// Room in the frame for a value of `ty`, with its address in `dst`.
    pub fn allocate_for(&mut self, cx: &Context<'_>, dst: VReg, ty: Ty)
        requires
            sound(old(self)@),
            old(self)@.limits == limits(cx@),
            writable(old(self)@, dst),
            cx.types.table.knows(ty),
        ensures
            final(self)@ == allocated(old(self)@, dst, cx.types.table.bytes_of(ty)),
            follows(old(self)@, final(self)@),
            held_here(final(self)@).contains(dst),
    {
        let bytes: u32 = cx.types.table().size_of(ty);
        self.allocate(dst, bytes);
    }

    /// Put `value` where `addr` points, whichever kind of value it is.
    ///
    /// A scalar is one store. An aggregate does not fit in a register, so what
    /// the expression produced is an *address* and the value is copied out of
    /// it, which is what makes assignment value semantics rather than aliasing.
    pub fn write_through(&mut self, cx: &Context<'_>, addr: Value, e: &Expr, room: Room)
        requires
            sound(old(self)@),
            old(self)@.limits == limits(cx@),
            has(old(self)@, addr),
            write_through_of(cx@, old(self)@, addr, *e, room) is Some,
        ensures
            Some(final(self)@) == write_through_of(cx@, old(self)@, addr, *e, room),
            follows(old(self)@, final(self)@),
        decreases *e, 85int, 0int,
    {
        assert(write_through_of(cx@, self@, addr, *e, room) == write_through_body(cx@, self@, addr, *e, room));
        let ty = cx.types.of(e.id);
        if let Ty::List(_) = ty {
            // A list fits in a register, and is the one thing that fits and can
            // still be written to, so it is copied as every other field is.
            let held = self.fresh_temp();
            self.keep_into(cx, held, e);
            self.emit(Instr::Store { addr, value: Value::Reg(held) });
            return;
        }
        if ty.fits_in_a_register() {
            let value = self.expr(cx, e);
            self.emit(Instr::Store { addr, value });
            return;
        }
        // A literal has no room of its own until something gives it some, so
        // where the room here is new it may as well be this room.
        if let Room::Fresh = room {
            if let ExprKind::New { fields } = &e.kind {
                if let Ty::Class(id) = ty {
                    self.fill_object(cx, addr, id, fields);
                }
                return;
            }
            if let ExprKind::Array { elements } = &e.kind {
                self.fill_array(cx, addr, ty, elements);
                return;
            }
        }
        let src = self.expr(cx, e);
        let bytes: u32 = cx.types.table().size_of(ty);
        self.emit(Instr::CopyBytes { dst: addr, src, bytes });
        self.fixup_after_copy(cx, addr, ty);
    }

    /// Give a fresh copy its own elements, where what was copied may hold a
    /// list.
    pub fn fixup_after_copy(&mut self, cx: &Context<'_>, at: Value, ty: Ty)
        requires
            sound(old(self)@),
            old(self)@.limits == limits(cx@),
            has(old(self)@, at),
            cx.types.table.knows(ty),
            fixed_up(cx@, old(self)@, at, ty) is Some,
        ensures
            Some(final(self)@) == fixed_up(cx@, old(self)@, at, ty),
            follows(old(self)@, final(self)@),
    {
        if !cx.types.table().holds_a_list(ty) {
            return;
        }
        // An array was copied whole, so every element of it is a fresh copy.
        // Anything else is one value.
        match ty {
            Ty::Array(id) => {
                let info = cx.types.table().array(id);
                let stride: u32 = cx.types.table().size_of(info.elem);
                self.emit(Instr::Fixup { at, count: Value::Const(info.len as i64), stride });
            },
            _ => {
                self.emit(Instr::Fixup { at, count: Value::Const(1), stride: 0 });
            },
        }
    }

    /// Put a class's vtable pointer and every field where `at` points.
    ///
    /// The vtable pointer goes in first, at offset 0: the object is a complete
    /// one of its class from the first instruction.
    pub fn fill_object(
        &mut self,
        cx: &Context<'_>,
        at: Value,
        id: ClassId,
        fields: &Vec<FieldInit>,
    )
        requires
            sound(old(self)@),
            old(self)@.limits == limits(cx@),
            has(old(self)@, at),
            fill_object_of(cx@, old(self)@, at, id, *fields) is Some,
        ensures
            Some(final(self)@) == fill_object_of(cx@, old(self)@, at, id, *fields),
            follows(old(self)@, final(self)@),
        decreases *fields, 20int, 0int,
    {
        proof {
            reveal(limits);
        }
        let vptr = self.fresh_temp();
        self.emit(Instr::VTable { dst: vptr, class: id });
        self.emit(Instr::Store { addr: at, value: Value::Reg(vptr) });
        let ghost start = self@;
        let mut i: usize = 0;
        while i < fields.len()
            invariant
                i <= fields@.len(),
                sound(self@),
                self@.limits == limits(cx@),
                follows(start, self@),
                has(start, at),
                fields_from(cx@, start, at, id, *fields, 0) is Some,
                fields_from(cx@, self@, at, id, *fields, i as int) == fields_from(
                    cx@,
                    start,
                    at,
                    id,
                    *fields,
                    0,
                ),
            decreases fields@.len() - i,
        {
            let addr = self.field_address(cx, at, id, &fields[i].name);
            // A field of an object being built is room nothing can name, so
            // whatever fills it may be built there directly.
            self.write_through(cx, Value::Reg(addr), &fields[i].value, Room::Fresh);
            i = i + 1;
        }
    }

    /// Put every element of an array literal where `at` points, in written
    /// order.
    pub fn fill_array(&mut self, cx: &Context<'_>, at: Value, ty: Ty, elements: &Vec<Expr>)
        requires
            sound(old(self)@),
            old(self)@.limits == limits(cx@),
            has(old(self)@, at),
            fill_array_of(cx@, old(self)@, at, ty, *elements) is Some,
        ensures
            Some(final(self)@) == fill_array_of(cx@, old(self)@, at, ty, *elements),
            follows(old(self)@, final(self)@),
        decreases *elements, 20int, 0int,
    {
        let (len, scale) = self.shape_of(cx, ty, at);
        self.fill_elements(cx, at, len, scale, elements);
    }

    /// Put every element where it goes, given how many there are and how wide.
    pub fn fill_elements(
        &mut self,
        cx: &Context<'_>,
        at: Value,
        len: Value,
        scale: u32,
        elements: &Vec<Expr>,
    )
        requires
            sound(old(self)@),
            old(self)@.limits == limits(cx@),
            has(old(self)@, at),
            has(old(self)@, len),
            is_length(len, old(self)@.lengths),
            elements_from(cx@, old(self)@, at, len, scale, *elements, 0) is Some,
        ensures
            Some(final(self)@) == elements_from(cx@, old(self)@, at, len, scale, *elements, 0),
            follows(old(self)@, final(self)@),
        decreases *elements, 10int, elements@.len(),
    {
        let ghost start = self@;
        let mut i: usize = 0;
        while i < elements.len()
            invariant
                i <= elements@.len(),
                sound(self@),
                self@.limits == limits(cx@),
                follows(start, self@),
                has(start, at),
                has(start, len),
                is_length(len, start.lengths),
                elements_from(cx@, start, at, len, scale, *elements, 0) is Some,
                elements_from(cx@, self@, at, len, scale, *elements, i as int) == elements_from(
                    cx@,
                    start,
                    at,
                    len,
                    scale,
                    *elements,
                    0,
                ),
            decreases elements@.len() - i,
        {
            let addr = self.fresh_temp();
            self.emit(
                Instr::Elem { dst: addr, base: at, index: Value::Const(i as i64), len, scale },
            );
            self.write_through(cx, Value::Reg(addr), &elements[i], Room::Fresh);
            i = i + 1;
        }
    }

    /// The address of `object.field`, which is the object's plus a fixed offset.
    pub fn field_address(
        &mut self,
        cx: &Context<'_>,
        object: Value,
        class: ClassId,
        name: &String,
    ) -> (addr: VReg)
        requires
            sound(old(self)@),
            old(self)@.limits == limits(cx@),
            has(old(self)@, object),
            field_at(cx@, old(self)@, object, class, name@) is Some,
        ensures
            Some((final(self)@, addr)) == field_at(cx@, old(self)@, object, class, name@),
            follows(old(self)@, final(self)@),
            has(final(self)@, Value::Reg(addr)),
    {
        match cx.types.table().class(class).field(name) {
            Some(field) => {
                let offset: u32 = field.offset;
                let dst = self.fresh_temp();
                self.emit(Instr::Field { dst, base: object, offset });
                dst
            },
            None => {
                assert(false);
                VReg(0)
            },
        }
    }

    /// Lower `receiver.method(args)`.
    ///
    /// The receiver is the first argument, and also where the vtable comes
    /// from. Which of the two calls goes out is settled here: a class nothing
    /// derives from has one possible implementation.
    pub fn method_call(&mut self, cx: &Context<'_>, dst: Option<VReg>, e: &Expr)
        requires
            sound(old(self)@),
            old(self)@.limits == limits(cx@),
            match dst {
                Some(reg) => writable(old(self)@, reg),
                None => true,
            },
            method_call_of(cx@, old(self)@, dst, *e) is Some,
        ensures
            Some(final(self)@) == method_call_of(cx@, old(self)@, dst, *e),
            follows(old(self)@, final(self)@),
            match dst {
                Some(reg) => is_set(final(self)@, reg),
                None => true,
            },
        decreases *e, 10int, 0int,
    {
        match &e.kind {
            ExprKind::MethodCall { receiver, name, args } => match cx.types.of(receiver.id) {
                Ty::Class(id) => {
                    match cx.types.table().class(id).method(name) {
                        Some(method) => {
                            let slot: u32 = method.slot;
                            let function: u32 = method.function;
                            let object = self.expr(cx, receiver);
                            let mut values: Vec<Value> = vec![object];
                            assert(values@ =~= seq![object]);
                            self.eval_args(cx, args, &mut values);
                            let ty = cx.types.of(e.id);
                            self.call_method(cx, dst, ty, id, slot, function, object, values);
                        },
                        None => {
                            assert(false);
                        },
                    }
                },
                _ => {
                    assert(false);
                },
            },
            _ => {
                assert(false);
            },
        }
    }

    /// The call itself, once the receiver and the arguments are evaluated.
    fn call_method(
        &mut self,
        cx: &Context<'_>,
        dst: Option<VReg>,
        ty: Ty,
        class: ClassId,
        slot: u32,
        function: u32,
        object: Value,
        arguments: Vec<Value>,
    )
        requires
            sound(old(self)@),
            old(self)@.limits == limits(cx@),
            match dst {
                Some(reg) => writable(old(self)@, reg),
                None => true,
            },
            cx.types.table.knows(ty),
            has(old(self)@, object),
            forall|i: int|
                0 <= i < arguments@.len() ==> has(old(self)@, #[trigger] arguments@[i]),
            takes(cx@, function as int, arguments@.len()),
            method_called(
                cx@,
                old(self)@,
                dst,
                ty,
                class,
                slot,
                function,
                object,
                arguments@,
            ) is Some,
        ensures
            Some(final(self)@) == method_called(
                cx@,
                old(self)@,
                dst,
                ty,
                class,
                slot,
                function,
                object,
                arguments@,
            ),
            follows(old(self)@, final(self)@),
            match dst {
                Some(reg) => is_set(final(self)@, reg),
                None => true,
            },
    {
        proof {
            reveal(limits);
        }
        // Ahead of the receiver, since the receiver is an ordinary argument and
        // the room for an answer is not.
        let ret: Option<Ty> = match dst {
            Some(_) => Some(ty),
            None => cx.types.ret_of(function as usize),
        };
        let (into, values) = self.hand_room(cx, dst, ret, arguments);
        if cx.types.table().is_sealed(class) {
            self.emit(Instr::Call { dst: into, callee: FuncId(function), args: values });
        } else {
            self.emit(Instr::CallVirtual { dst: into, slot, receiver: object, args: values });
        }
    }

    /// Evaluate arguments left to right, onto the end of `values`.
    pub fn eval_args(&mut self, cx: &Context<'_>, args: &Vec<Expr>, values: &mut Vec<Value>)
        requires
            sound(old(self)@),
            old(self)@.limits == limits(cx@),
            forall|i: int|
                0 <= i < old(values)@.len() ==> has(old(self)@, #[trigger] old(values)@[i]),
            args_from(cx@, old(self)@, *args, 0, old(values)@) is Some,
        ensures
            Some((final(self)@, final(values)@)) == args_from(
                cx@,
                old(self)@,
                *args,
                0,
                old(values)@,
            ),
            follows(old(self)@, final(self)@),
            forall|i: int|
                0 <= i < final(values)@.len() ==> has(final(self)@, #[trigger] final(values)@[i]),
        decreases *args, 10int, args@.len(),
    {
        let ghost start = self@;
        let ghost first = values@;
        let mut i: usize = 0;
        while i < args.len()
            invariant
                i <= args@.len(),
                sound(self@),
                self@.limits == limits(cx@),
                follows(start, self@),
                args_from(cx@, start, *args, 0, first) is Some,
                args_from(cx@, self@, *args, i as int, values@) == args_from(
                    cx@,
                    start,
                    *args,
                    0,
                    first,
                ),
                forall|j: int|
                    0 <= j < values@.len() ==> has(self@, #[trigger] values@[j]),
            decreases args@.len() - i,
        {
            let ghost held = values@;
            let ghost had = self@;
            let value = self.expr(cx, &args[i]);
            values.push(value);
            assert forall|j: int| 0 <= j < values@.len() implies has(self@, #[trigger] values@[j]) by {
                if j < held.len() {
                    assert(has(had, held[j]));
                }
            }
            i = i + 1;
        }
    }

    /// The type a place has, read off the chain of names that leads to it.
    pub fn place_type(&self, cx: &Context<'_>, place: &Place) -> (ty: Ty)
        requires
            sound(self@),
            place_type_of(cx@, self@, *place) is Some,
        ensures
            Some(ty) == place_type_of(cx@, self@, *place),
        decreases *place,
    {
        match place {
            Place::Var { name } => self.lookup_type(name),
            Place::Element { base, index } => match self.place_type(cx, base) {
                Ty::Array(id) => cx.types.table().array(id).elem,
                // `xs[i].f` asks what `xs[i]` is before it can ask where its
                // field is.
                Ty::List(id) => cx.types.table().element(id),
                _ => {
                    assert(false);
                    Ty::Int
                },
            },
            Place::Field { base, name } => match self.place_type(cx, base) {
                Ty::Class(id) => match cx.types.table().class(id).field(name) {
                    Some(field) => field.ty,
                    None => {
                        assert(false);
                        Ty::Int
                    },
                },
                _ => {
                    assert(false);
                    Ty::Int
                },
            },
        }
    }

    /// The address a place names, for a write.
    ///
    /// Only a variable has no address: it is a register.
    pub fn place_address(&mut self, cx: &Context<'_>, place: &Place) -> (addr: VReg)
        requires
            sound(old(self)@),
            old(self)@.limits == limits(cx@),
            place_address_of(cx@, old(self)@, *place) is Some,
        ensures
            Some((final(self)@, addr)) == place_address_of(cx@, old(self)@, *place),
            follows(old(self)@, final(self)@),
            has(final(self)@, Value::Reg(addr)),
        decreases *place, 10int, 0int,
    {
        match place {
            Place::Var { .. } => {
                assert(false);
                VReg(0)
            },
            Place::Element { base, index } => {
                let ty = self.place_type(cx, base);
                let object = self.place_value(cx, base);
                let (len, scale) = self.shape_of(cx, ty, object);
                let index = self.expr(cx, index);
                let dst = self.fresh_temp();
                self.emit(Instr::Elem { dst, base: object, index, len, scale });
                dst
            },
            Place::Field { base, name } => match self.place_type(cx, base) {
                Ty::Class(id) => {
                    let object = self.place_value(cx, base);
                    self.field_address(cx, object, id, name)
                },
                _ => {
                    assert(false);
                    VReg(0)
                },
            },
        }
    }

    /// What a place *holds*, which for anything but a variable means reading it.
    ///
    /// An aggregate is the exception: what a place of that type holds does not
    /// fit in a register, so its *address* is the value.
    pub fn place_value(&mut self, cx: &Context<'_>, place: &Place) -> (value: Value)
        requires
            sound(old(self)@),
            old(self)@.limits == limits(cx@),
            place_value_of(cx@, old(self)@, *place) is Some,
        ensures
            Some((final(self)@, value)) == place_value_of(cx@, old(self)@, *place),
            follows(old(self)@, final(self)@),
            has(final(self)@, value),
        decreases *place, 20int, 0int,
    {
        if let Place::Var { name } = place {
            let reg = self.lookup(name);
            self.note_settled(Ghost(!self@.unset.contains(reg)));
            return Value::Reg(reg);
        }
        let ty = self.place_type(cx, place);
        let addr = self.place_address(cx, place);
        if !ty.fits_in_a_register() {
            return Value::Reg(addr);
        }
        let dst = self.fresh_temp();
        self.emit(Instr::Load { dst, addr: Value::Reg(addr) });
        Value::Reg(dst)
    }
}

/// Whether an assignment to a variable adds to the string it holds, where it
/// stands: `s = s + a + b + ..`, for a string `s` nothing else can be holding.
///
/// The shape has to start at the variable, and **no piece may mention `s`
/// itself**: appending the pieces one at a time makes the intermediate values
/// visible where the single expression would have read the variable once.
pub fn append_chain(cx: &Context<'_>, name: &String, value: &Expr) -> (appends: bool)
    requires
        cx@.owned.contains(name@) ==> spine_typed(cx@, *value),
    ensures
        appends == is_append(cx@, name@, *value),
{
    let mut owned: bool = false;
    let mut i: usize = 0;
    while i < cx.owned.len()
        invariant
            i <= cx.owned@.len(),
            owned == (exists|j: int| 0 <= j < i && (#[trigger] cx.owned@[j])@ == name@),
        decreases cx.owned@.len() - i,
    {
        if cx.owned[i] == *name {
            assert(cx.owned@[i as int]@ == name@);
            owned = true;
        }
        i = i + 1;
    }
    if !owned {
        return false;
    }
    match &value.kind {
        ExprKind::Bin { .. } => grows_from(cx, name, value),
        _ => false,
    }
}

/// Whether an expression is a variable with strings added on its right, none of
/// which reads the variable.
fn grows_from(cx: &Context<'_>, name: &String, e: &Expr) -> (does: bool)
    requires
        spine_typed(cx@, *e),
    ensures
        does == grows(cx@, *e, name@),
    decreases *e,
{
    match &e.kind {
        ExprKind::Bin { op, lhs, rhs } => match op {
            BinOp::Add => match cx.types.of(lhs.id) {
                Ty::Str => grows_from(cx, name, lhs) && !mentions(rhs, name),
                _ => false,
            },
            _ => false,
        },
        ExprKind::Var(left) => *left == *name,
        _ => false,
    }
}

/// Whether this expression allocates the string it produces *here*, so that
/// what it produced is this statement's own and nobody else's.
pub fn builds_a_temporary(cx: &Context<'_>, e: &Expr) -> (builds: bool)
    requires
        temporary_typed(cx@, *e),
    ensures
        builds == makes_a_temporary(cx@, *e),
{
    match &e.kind {
        ExprKind::Bin { op, lhs, .. } => match op {
            BinOp::Add => match cx.types.of(lhs.id) {
                Ty::Str => true,
                _ => false,
            },
            _ => false,
        },
        ExprKind::Convert { to, .. } => match to {
            Prim::Str => true,
            _ => false,
        },
        ExprKind::Call { name, args } => name.as_str().eq(Builtin::ReadLine.name()) && args.len()
            == 0,
        _ => false,
    }
}

/// Whether this is one of the operators a string gives a second meaning to, and
/// so one that becomes a call rather than an instruction.
pub fn is_string_op(cx: &Context<'_>, e: &Expr) -> (is: bool)
    requires
        operand_typed(cx@, *e),
    ensures
        is == string_operator(cx@, *e),
{
    match &e.kind {
        ExprKind::Bin { op, lhs, .. } => match op {
            BinOp::Add => match cx.types.of(lhs.id) {
                Ty::Str => true,
                _ => false,
            },
            _ => false,
        },
        ExprKind::Cmp { lhs, .. } => match cx.types.of(lhs.id) {
            Ty::Str => true,
            _ => false,
        },
        _ => false,
    }
}

/// The instruction a conversion is, once its operand is evaluated.
fn converted(dst: VReg, from: Ty, to: Prim, src: Value) -> (instr: Instr)
    ensures
        instr@ == conversion(dst, from, to, src),
{
    let callee: Runtime = match (from, to) {
        (Ty::Int, Prim::Float) => {
            return match src {
                Value::Const(c) => Instr::Const { dst, val: word_of(float::from_int(c)) },
                Value::Reg(_) => Instr::Cast { dst, to: Num::Float, src },
            };
        },
        (Ty::Float, Prim::Int) => {
            if let Value::Const(c) = src {
                if let Some(whole) = float::to_int(bits_of(c)) {
                    return Instr::Const { dst, val: whole };
                }
            }
            return Instr::Cast { dst, to: Num::Int, src };
        },
        (Ty::Int, Prim::Char) => {
            if let Value::Const(c) = src {
                if is_scalar_value(c) {
                    return Instr::Copy { dst, src };
                }
            }
            Runtime::CheckChar
        },
        (Ty::Str, Prim::Int) => Runtime::StrToInt,
        (Ty::Char, Prim::Str) => Runtime::CharToStr,
        (Ty::Int, Prim::Str) => Runtime::IntToStr,
        (Ty::List(_), Prim::Str) => Runtime::CharsToStr,
        _ => {
            return Instr::Copy { dst, src };
        },
    };
    let args: Vec<Value> = vec![src];
    assert(args@ =~= seq![src]);
    Instr::RtCall { dst: Some(dst), callee, args }
}

} // verus!
