//! The tree lowering walks, and the types a checked program has.

use vstd::prelude::*;

use crate::text::{decimal_nat, push_decimal_u64};

use crate::diag::Span;

verus! {

/// Which expression or declaration a type was worked out for.
#[derive(Clone, Copy, Debug, PartialEq, Eq, Structural)]
pub struct NodeId(pub u32);

/// Index into [`TypeTable::classes`].
#[derive(Clone, Copy, Debug, PartialEq, Eq, Structural)]
pub struct ClassId(pub u32);

/// Index into [`TypeTable::enums`].
#[derive(Clone, Copy, Debug, PartialEq, Eq, Structural)]
pub struct EnumId(pub u32);

/// Index into [`TypeTable::arrays`].
#[derive(Clone, Copy, Debug, PartialEq, Eq, Structural)]
pub struct ArrayId(pub u32);

/// Index into [`TypeTable::lists`].
#[derive(Clone, Copy, Debug, PartialEq, Eq, Structural)]
pub struct ListId(pub u32);

/// A type, as small as it can be made: whatever a type is *about* sits in the
/// [`TypeTable`].
#[derive(Clone, Copy, Debug, PartialEq, Eq, Structural)]
pub enum Ty {
    Int,
    Float,
    Bool,
    Char,
    Str,
    Array(ArrayId),
    List(ListId),
    Class(ClassId),
    Enum(EnumId),
}

/// The types a program can convert to by name.
#[derive(Clone, Copy, Debug, PartialEq, Eq, Structural)]
pub enum Prim {
    Int,
    Float,
    Bool,
    Char,
    Str,
}

#[derive(Clone, Copy, Debug, PartialEq, Eq, Structural)]
pub enum BinOp {
    Add,
    Sub,
    Mul,
    Div,
    Rem,
}

#[derive(Clone, Copy, Debug, PartialEq, Eq, Structural)]
pub enum CmpOp {
    Eq,
    Ne,
    Lt,
    Le,
    Gt,
    Ge,
}

#[derive(Clone, Copy, Debug, PartialEq, Eq, Structural)]
pub enum LogicOp {
    And,
    Or,
}

/// The functions every program has without declaring them.
#[derive(Clone, Copy, Debug, PartialEq, Eq, Structural)]
pub enum Builtin {
    ReadLine,
    Eof,
    IsInt,
}

// -- arithmetic the program writes ------------------------------------------

/// The magnitude of a number.
pub open spec fn abs(n: int) -> int {
    if n < 0 {
        -n
    } else {
        n
    }
}

/// `a / b` rounded towards zero.
pub open spec fn quotient(a: int, b: int) -> int {
    if (a < 0) == (b < 0) {
        abs(a) / abs(b)
    } else {
        -(abs(a) / abs(b))
    }
}

/// What [`quotient`] leaves over, which has the sign of `a`.
pub open spec fn remainder(a: int, b: int) -> int {
    if a < 0 {
        -(abs(a) % abs(b))
    } else {
        abs(a) % abs(b)
    }
}

/// A number as a machine word, where it fits in one.
pub open spec fn fitting(n: int) -> Option<i64> {
    if i64::MIN <= n <= i64::MAX {
        Some(n as i64)
    } else {
        None
    }
}

impl BinOp {
    pub open spec fn spec_divides(self) -> bool {
        self is Div || self is Rem
    }

    /// Whether this is one of the two operators a zero on the right stops.
    pub fn divides(self) -> (divides: bool)
        ensures
            divides == self.spec_divides(),
    {
        match self {
            BinOp::Div | BinOp::Rem => true,
            _ => false,
        }
    }

    /// What the operator answers on two `int`s, and whether it answers at all:
    /// a result that does not fit, a division by zero and the one quotient that
    /// does not fit (whose remainder the machine refuses with it) have none.
    pub open spec fn answer(self, a: i64, b: i64) -> Option<i64> {
        match self {
            BinOp::Add => fitting(a + b),
            BinOp::Sub => fitting(a - b),
            BinOp::Mul => fitting(a * b),
            BinOp::Div => if b == 0 {
                None
            } else {
                fitting(quotient(a as int, b as int))
            },
            BinOp::Rem => if b == 0 || (a == i64::MIN && b == -1) {
                None
            } else {
                fitting(remainder(a as int, b as int))
            },
        }
    }

    pub fn apply(self, a: i64, b: i64) -> (answer: Option<i64>)
        ensures
            answer == self.answer(a, b),
    {
        match self {
            BinOp::Add => a.checked_add(b),
            BinOp::Sub => a.checked_sub(b),
            BinOp::Mul => a.checked_mul(b),
            BinOp::Div => {
                let answer = a.checked_div(b);
                proof {
                    if b != 0 {
                        assert(0int / abs(b as int) == 0) by (nonlinear_arith)
                            requires
                                b != 0,
                        ;
                    }
                }
                answer
            },
            BinOp::Rem => {
                let answer = a.checked_rem(b);
                proof {
                    if b != 0 {
                        assert(0int % abs(b as int) == 0) by (nonlinear_arith)
                            requires
                                b != 0,
                        ;
                    }
                }
                answer
            },
        }
    }
}

impl CmpOp {
    pub open spec fn spec_symbol(self) -> Seq<char> {
        match self {
            CmpOp::Eq => "=="@,
            CmpOp::Ne => "!="@,
            CmpOp::Lt => "<"@,
            CmpOp::Le => "<="@,
            CmpOp::Gt => ">"@,
            CmpOp::Ge => ">="@,
        }
    }

    /// How the operator is written.
    pub fn symbol(self) -> (symbol: &'static str)
        ensures
            symbol@ == self.spec_symbol(),
    {
        match self {
            CmpOp::Eq => "==",
            CmpOp::Ne => "!=",
            CmpOp::Lt => "<",
            CmpOp::Le => "<=",
            CmpOp::Gt => ">",
            CmpOp::Ge => ">=",
        }
    }

    pub open spec fn spec_negate(self) -> CmpOp {
        match self {
            CmpOp::Eq => CmpOp::Ne,
            CmpOp::Ne => CmpOp::Eq,
            CmpOp::Lt => CmpOp::Ge,
            CmpOp::Le => CmpOp::Gt,
            CmpOp::Gt => CmpOp::Le,
            CmpOp::Ge => CmpOp::Lt,
        }
    }

    /// The comparison turned round: the one that holds exactly when this one does
    /// not, of whole numbers and of floats asked whether they are equal. Of floats
    /// put in order it is not: neither way round holds of a NaN.
    pub fn negate(self) -> (negated: CmpOp)
        ensures
            negated == self.spec_negate(),
    {
        match self {
            CmpOp::Eq => CmpOp::Ne,
            CmpOp::Ne => CmpOp::Eq,
            CmpOp::Lt => CmpOp::Ge,
            CmpOp::Le => CmpOp::Gt,
            CmpOp::Gt => CmpOp::Le,
            CmpOp::Ge => CmpOp::Lt,
        }
    }
}

impl LogicOp {
    pub open spec fn settled(self) -> i64 {
        match self {
            LogicOp::And => 0,
            LogicOp::Or => 1,
        }
    }

    /// What the operator answers when its left operand decides on its own.
    pub fn short_circuit(self) -> (settled: i64)
        ensures
            settled == self.settled(),
    {
        match self {
            LogicOp::And => 0,
            LogicOp::Or => 1,
        }
    }
}

impl Builtin {
    pub open spec fn spec_name(self) -> Seq<char> {
        match self {
            Builtin::ReadLine => "read_line"@,
            Builtin::Eof => "eof"@,
            Builtin::IsInt => "is_int"@,
        }
    }

    pub fn name(self) -> (name: &'static str)
        ensures
            name@ == self.spec_name(),
    {
        match self {
            Builtin::ReadLine => "read_line",
            Builtin::Eof => "eof",
            Builtin::IsInt => "is_int",
        }
    }

    /// The built-in function a name means, if it means one.
    pub open spec fn named(name: Seq<char>) -> Option<Builtin> {
        if name == "read_line"@ {
            Some(Builtin::ReadLine)
        } else if name == "eof"@ {
            Some(Builtin::Eof)
        } else if name == "is_int"@ {
            Some(Builtin::IsInt)
        } else {
            None
        }
    }

    pub fn from_name(name: &str) -> (builtin: Option<Builtin>)
        ensures
            builtin == Builtin::named(name@),
    {
        if name.eq("read_line") {
            Some(Builtin::ReadLine)
        } else if name.eq("eof") {
            Some(Builtin::Eof)
        } else if name.eq("is_int") {
            Some(Builtin::IsInt)
        } else {
            None
        }
    }
}

impl Prim {
    pub open spec fn spec_name(self) -> Seq<char> {
        match self {
            Prim::Int => "int"@,
            Prim::Float => "float"@,
            Prim::Bool => "bool"@,
            Prim::Char => "char"@,
            Prim::Str => "string"@,
        }
    }

    /// How the type is written.
    pub fn name(self) -> (name: &'static str)
        ensures
            name@ == self.spec_name(),
    {
        match self {
            Prim::Int => "int",
            Prim::Float => "float",
            Prim::Bool => "bool",
            Prim::Char => "char",
            Prim::Str => "string",
        }
    }
}

/// Whether a number is a Unicode scalar value, and so names a character.
pub open spec fn names_a_character(n: int) -> bool {
    0 <= n < 0xD800 || 0xE000 <= n <= 0x10FFFF
}

pub fn is_scalar_value(n: i64) -> (names: bool)
    ensures
        names == names_a_character(n as int),
{
    (0 <= n && n < 0xD800) || (0xE000 <= n && n <= 0x10FFFF)
}

// -- the types a program has ------------------------------------------------

#[derive(Debug)]
pub struct FieldInfo {
    pub name: String,
    /// Where the field sits in the object, in bytes.
    pub offset: u32,
    pub ty: Ty,
}

#[derive(Debug)]
pub struct MethodInfo {
    pub name: String,
    /// Which entry of the vtable the method is.
    pub slot: u32,
    /// Index into [`Program::functions`] of what implements it here.
    pub function: u32,
}

#[derive(Debug)]
pub struct ClassInfo {
    pub name: String,
    pub parent: Option<ClassId>,
    /// Every field, inherited ones first.
    pub fields: Vec<FieldInfo>,
    /// Every method, in slot order.
    pub methods: Vec<MethodInfo>,
    /// Bytes an object of exactly this class takes.
    pub size: u32,
    /// Room a value of this type takes: enough for any class below it.
    pub storage: u32,
    /// Whether a value of this type may hold a list, itself or in a subclass.
    pub holds_list: bool,
}

#[derive(Debug)]
pub struct VariantInfo {
    pub name: String,
    /// What the variant carries.
    pub payload: Vec<Ty>,
}

#[derive(Debug)]
pub struct EnumInfo {
    pub name: String,
    pub variants: Vec<VariantInfo>,
}

#[derive(Clone, Copy, Debug, PartialEq, Eq, Structural)]
pub struct ArrayInfo {
    pub elem: Ty,
    pub len: u32,
    /// Room the whole array takes.
    pub bytes: u32,
    /// Whether an element may hold a list.
    pub holds_list: bool,
}

/// The sizes a machine decides.
#[derive(Clone, Copy, Debug, PartialEq, Eq, Structural)]
pub struct Layout {
    /// Bytes in a machine word, which is what everything in a register takes.
    pub word: u32,
}

/// Every type a program has, by index.
#[derive(Debug)]
pub struct TypeTable {
    pub classes: Vec<ClassInfo>,
    pub enums: Vec<EnumInfo>,
    pub arrays: Vec<ArrayInfo>,
    /// What each list type holds.
    pub lists: Vec<Ty>,
    pub layout: Layout,
}

impl Layout {
    pub open spec fn spec_tag(self) -> u32 {
        self.word
    }

    /// Bytes in front of a boxed enum's payload, holding its tag.
    pub fn tag(&self) -> (bytes: u32)
        ensures
            bytes == self.spec_tag(),
    {
        self.word
    }
}

impl Ty {
    pub open spec fn in_a_register(self) -> bool {
        !(self is Array || self is Class)
    }

    /// Whether a value of this type is one machine word.
    pub fn fits_in_a_register(self) -> (fits: bool)
        ensures
            fits == self.in_a_register(),
    {
        match self {
            Ty::Array(_) | Ty::Class(_) => false,
            _ => true,
        }
    }
}

/// Whether a type's arrays and lists can be taken apart within so many steps.
pub open spec fn nests(table: TypeTable, ty: Ty, depth: nat) -> bool
    decreases depth,
{
    &&& table.knows(ty)
    &&& match ty {
        Ty::Array(id) => depth > 0 && nests(
            table,
            table.arrays@[id.0 as int].elem,
            (depth - 1) as nat,
        ),
        Ty::List(id) => depth > 0 && nests(table, table.lists@[id.0 as int], (depth - 1) as nat),
        _ => true,
    }
}

/// How a type is written, its arrays and lists taken apart in so many steps.
pub open spec fn ty_text_within(table: TypeTable, ty: Ty, depth: nat) -> Seq<char>
    decreases depth,
{
    match ty {
        Ty::Int => "int"@,
        Ty::Float => "float"@,
        Ty::Bool => "bool"@,
        Ty::Char => "char"@,
        Ty::Str => "string"@,
        Ty::Class(id) => table.classes@[id.0 as int].name@,
        Ty::Enum(id) => table.enums@[id.0 as int].name@,
        Ty::Array(id) => if depth == 0 {
            ""@
        } else {
            let info = table.arrays@[id.0 as int];
            ty_text_within(table, info.elem, (depth - 1) as nat) + "["@ + decimal_nat(
                info.len as nat,
            ) + "]"@
        },
        Ty::List(id) => if depth == 0 {
            ""@
        } else {
            ty_text_within(table, table.lists@[id.0 as int], (depth - 1) as nat) + "[]"@
        },
    }
}

/// How a type is written.
pub open spec fn ty_text(table: TypeTable, ty: Ty) -> Seq<char> {
    ty_text_within(table, ty, table.deepest())
}

impl Ty {
    /// How the type is written: `int`, `Shape`, `int[3]`, `string[]`.
    pub fn name(self, table: &TypeTable) -> (name: String)
        requires
            nests(*table, self, table.deepest()),
        ensures
            name@ == ty_text(*table, self),
    {
        self.name_within(table, Ghost(table.deepest()))
    }

    fn name_within(self, table: &TypeTable, Ghost(depth): Ghost<nat>) -> (name: String)
        requires
            nests(*table, self, depth),
        ensures
            name@ == ty_text_within(*table, self, depth),
        decreases depth,
    {
        match self {
            Ty::Int => "int".to_owned(),
            Ty::Float => "float".to_owned(),
            Ty::Bool => "bool".to_owned(),
            Ty::Char => "char".to_owned(),
            Ty::Str => "string".to_owned(),
            Ty::Class(id) => table.class(id).name.as_str().to_owned(),
            Ty::Enum(id) => table.enum_info(id).name.as_str().to_owned(),
            Ty::Array(id) => {
                let info = table.array(id);
                let mut name = info.elem.name_within(table, Ghost((depth - 1) as nat));
                name.append("[");
                push_decimal_u64(&mut name, info.len as u64);
                name.append("]");
                name
            },
            Ty::List(id) => {
                let mut name = table.element(id).name_within(table, Ghost((depth - 1) as nat));
                name.append("[]");
                name
            },
        }
    }
}

/// The first entry of a list of fields that bears a name.
pub open spec fn field_named(fields: Seq<FieldInfo>, name: Seq<char>) -> Option<FieldInfo>
    decreases fields.len(),
{
    if fields.len() == 0 {
        None
    } else if fields[0].name@ == name {
        Some(fields[0])
    } else {
        field_named(fields.drop_first(), name)
    }
}

/// The first entry of a list of methods that bears a name.
pub open spec fn method_named(methods: Seq<MethodInfo>, name: Seq<char>) -> Option<MethodInfo>
    decreases methods.len(),
{
    if methods.len() == 0 {
        None
    } else if methods[0].name@ == name {
        Some(methods[0])
    } else {
        method_named(methods.drop_first(), name)
    }
}

impl ClassInfo {
    /// The field a name means.
    pub fn field(&self, name: &String) -> (field: Option<&FieldInfo>)
        ensures
            match field {
                Some(found) => field_named(self.fields@, name@) == Some(*found),
                None => field_named(self.fields@, name@) is None,
            },
    {
        let mut i: usize = 0;
        assert(self.fields@.subrange(0, self.fields@.len() as int) =~= self.fields@);
        while i < self.fields.len()
            invariant
                i <= self.fields@.len(),
                field_named(self.fields@, name@) == field_named(
                    self.fields@.subrange(i as int, self.fields@.len() as int),
                    name@,
                ),
            decreases self.fields@.len() - i,
        {
            let ghost rest = self.fields@.subrange(i as int, self.fields@.len() as int);
            proof {
                assert(rest[0] == self.fields@[i as int]);
                assert(rest.drop_first() =~= self.fields@.subrange(
                    i + 1,
                    self.fields@.len() as int,
                ));
            }
            if self.fields[i].name == *name {
                return Some(&self.fields[i]);
            }
            i = i + 1;
        }
        None
    }

    /// The method a name means.
    pub fn method(&self, name: &String) -> (method: Option<&MethodInfo>)
        ensures
            match method {
                Some(found) => method_named(self.methods@, name@) == Some(*found),
                None => method_named(self.methods@, name@) is None,
            },
    {
        let mut i: usize = 0;
        assert(self.methods@.subrange(0, self.methods@.len() as int) =~= self.methods@);
        while i < self.methods.len()
            invariant
                i <= self.methods@.len(),
                method_named(self.methods@, name@) == method_named(
                    self.methods@.subrange(i as int, self.methods@.len() as int),
                    name@,
                ),
            decreases self.methods@.len() - i,
        {
            let ghost rest = self.methods@.subrange(i as int, self.methods@.len() as int);
            proof {
                assert(rest[0] == self.methods@[i as int]);
                assert(rest.drop_first() =~= self.methods@.subrange(
                    i + 1,
                    self.methods@.len() as int,
                ));
            }
            if self.methods[i].name == *name {
                return Some(&self.methods[i]);
            }
            i = i + 1;
        }
        None
    }
}

/// Where in a list of variants a name first occurs, counting from `from`.
pub open spec fn variant_index(variants: Seq<VariantInfo>, name: Seq<char>, from: nat) -> Option<
    nat,
>
    decreases variants.len() - from,
{
    if from >= variants.len() {
        None
    } else if variants[from as int].name@ == name {
        Some(from)
    } else {
        variant_index(variants, name, from + 1)
    }
}

/// The most values any of a list of variants carries.
pub open spec fn most_carried(variants: Seq<VariantInfo>) -> nat
    decreases variants.len(),
{
    if variants.len() == 0 {
        0
    } else {
        let rest = most_carried(variants.drop_last());
        let last = variants.last().payload@.len();
        if last > rest {
            last
        } else {
            rest
        }
    }
}

impl EnumInfo {
    /// Which variant a name means.
    pub open spec fn index_of(self, name: Seq<char>) -> Option<nat> {
        variant_index(self.variants@, name, 0)
    }

    /// Whether some variant carries something, so that a value is a pointer to
    /// its tag rather than the tag.
    pub open spec fn boxed(self) -> bool {
        exists|i: int|
            0 <= i < self.variants@.len() && (#[trigger] self.variants@[i]).payload@.len() > 0
    }

    /// Where a variant's name first occurs.
    pub fn position(&self, name: &String) -> (position: Option<usize>)
        ensures
            match position {
                Some(at) => self.index_of(name@) == Some(at as nat) && at < self.variants@.len(),
                None => self.index_of(name@) is None,
            },
    {
        let mut i: usize = 0;
        while i < self.variants.len()
            invariant
                i <= self.variants@.len(),
                self.index_of(name@) == variant_index(self.variants@, name@, i as nat),
            decreases self.variants@.len() - i,
        {
            if self.variants[i].name == *name {
                return Some(i);
            }
            i = i + 1;
        }
        None
    }

    /// The number a variant is known by at run time.
    pub fn tag(&self, name: &String) -> (tag: Option<i64>)
        ensures
            match self.index_of(name@) {
                Some(at) => tag == Some(at as i64) && at < self.variants@.len(),
                None => tag is None,
            },
    {
        match self.position(name) {
            Some(at) => Some(at as i64),
            None => None,
        }
    }

    /// The variant a name means.
    pub fn variant(&self, name: &String) -> (variant: Option<&VariantInfo>)
        ensures
            match self.index_of(name@) {
                Some(at) => variant == Some(&self.variants@[at as int]),
                None => variant is None,
            },
    {
        match self.position(name) {
            Some(at) => Some(&self.variants[at]),
            None => None,
        }
    }

    pub fn carries_data(&self) -> (carries: bool)
        ensures
            carries == self.boxed(),
    {
        let mut i: usize = 0;
        while i < self.variants.len()
            invariant
                i <= self.variants@.len(),
                forall|j: int| 0 <= j < i ==> (#[trigger] self.variants@[j]).payload@.len() == 0,
            decreases self.variants@.len() - i,
        {
            if self.variants[i].payload.len() > 0 {
                assert(self.variants@[i as int].payload@.len() > 0);
                return true;
            }
            i = i + 1;
        }
        false
    }

    /// The most values any variant carries, which is the room every one of them
    /// gets.
    pub fn slots(&self) -> (slots: usize)
        ensures
            slots == most_carried(self.variants@),
    {
        let mut most: usize = 0;
        let mut i: usize = 0;
        while i < self.variants.len()
            invariant
                i <= self.variants@.len(),
                most == most_carried(self.variants@.subrange(0, i as int)),
            decreases self.variants@.len() - i,
        {
            proof {
                let upto = self.variants@.subrange(0, i + 1);
                assert(upto.drop_last() =~= self.variants@.subrange(0, i as int));
                assert(upto.last() == self.variants@[i as int]);
            }
            if self.variants[i].payload.len() > most {
                most = self.variants[i].payload.len();
            }
            i = i + 1;
        }
        assert(self.variants@.subrange(0, i as int) =~= self.variants@);
        most
    }
}

impl TypeTable {
    pub open spec fn has_class(self, id: ClassId) -> bool {
        id.0 < self.classes@.len()
    }

    pub open spec fn has_enum(self, id: EnumId) -> bool {
        id.0 < self.enums@.len()
    }

    pub open spec fn has_array(self, id: ArrayId) -> bool {
        id.0 < self.arrays@.len()
    }

    pub open spec fn has_list(self, id: ListId) -> bool {
        id.0 < self.lists@.len()
    }

    /// Whether the table knows what a type is about.
    pub open spec fn knows(self, ty: Ty) -> bool {
        match ty {
            Ty::Array(id) => self.has_array(id),
            Ty::List(id) => self.has_list(id),
            Ty::Class(id) => self.has_class(id),
            Ty::Enum(id) => self.has_enum(id),
            _ => true,
        }
    }

    /// How deep arrays and lists can go: no further than there are any of them.
    pub open spec fn deepest(self) -> nat {
        self.arrays@.len() + self.lists@.len()
    }

    /// Whether no array and no list is, in the end, made of itself.
    pub open spec fn grounded(self) -> bool {
        forall|ty: Ty| #[trigger] self.knows(ty) ==> nests(self, ty, self.deepest())
    }

    pub fn class(&self, id: ClassId) -> (info: &ClassInfo)
        requires
            self.has_class(id),
        ensures
            *info == self.classes@[id.0 as int],
    {
        &self.classes[id.0 as usize]
    }

    pub fn enum_info(&self, id: EnumId) -> (info: &EnumInfo)
        requires
            self.has_enum(id),
        ensures
            *info == self.enums@[id.0 as int],
    {
        &self.enums[id.0 as usize]
    }

    pub fn array(&self, id: ArrayId) -> (info: ArrayInfo)
        requires
            self.has_array(id),
        ensures
            info == self.arrays@[id.0 as int],
    {
        self.arrays[id.0 as usize]
    }

    /// What a list type holds.
    pub fn element(&self, id: ListId) -> (ty: Ty)
        requires
            self.has_list(id),
        ensures
            ty == self.lists@[id.0 as int],
    {
        self.lists[id.0 as usize]
    }

    pub open spec fn bytes_of(self, ty: Ty) -> u32 {
        match ty {
            Ty::Array(id) => self.arrays@[id.0 as int].bytes,
            Ty::Class(id) => self.classes@[id.0 as int].storage,
            _ => self.layout.word,
        }
    }

    /// Room a value of a type takes, in bytes.
    pub fn size_of(&self, ty: Ty) -> (bytes: u32)
        requires
            self.knows(ty),
        ensures
            bytes == self.bytes_of(ty),
    {
        match ty {
            Ty::Array(id) => self.array(id).bytes,
            Ty::Class(id) => self.class(id).storage,
            _ => self.layout.word,
        }
    }

    pub open spec fn may_hold_a_list(self, ty: Ty) -> bool {
        match ty {
            Ty::List(_) => true,
            Ty::Array(id) => self.arrays@[id.0 as int].holds_list,
            Ty::Class(id) => self.classes@[id.0 as int].holds_list,
            _ => false,
        }
    }

    /// Whether copying the bytes of a value leaves elements shared.
    pub fn holds_a_list(&self, ty: Ty) -> (holds: bool)
        requires
            self.knows(ty),
        ensures
            holds == self.may_hold_a_list(ty),
    {
        match ty {
            Ty::List(_) => true,
            Ty::Array(id) => self.array(id).holds_list,
            Ty::Class(id) => self.class(id).holds_list,
            _ => false,
        }
    }

    /// Whether nothing derives from a class.
    pub open spec fn sealed(self, id: ClassId) -> bool {
        forall|i: int|
            0 <= i < self.classes@.len() ==> (#[trigger] self.classes@[i]).parent != Some(id)
    }

    pub fn is_sealed(&self, id: ClassId) -> (sealed: bool)
        ensures
            sealed == self.sealed(id),
    {
        let mut i: usize = 0;
        while i < self.classes.len()
            invariant
                i <= self.classes@.len(),
                forall|j: int|
                    0 <= j < i ==> (#[trigger] self.classes@[j]).parent != Some(id),
            decreases self.classes@.len() - i,
        {
            if let Some(parent) = self.classes[i].parent {
                if parent == id {
                    assert(self.classes@[i as int].parent == Some(id));
                    return false;
                }
            }
            i = i + 1;
        }
        true
    }

}

// -- the tree ---------------------------------------------------------------

#[derive(Debug)]
pub struct Expr {
    pub id: NodeId,
    pub kind: ExprKind,
}

#[allow(inconsistent_fields)]
#[derive(Debug)]
pub enum ExprKind {
    Int(i64),
    /// The bits of an IEEE-754 double.
    Float(u64),
    Bool(bool),
    Str(Vec<char>),
    Char(char),
    Var(String),
    /// `Enum::Variant(args)`.
    Variant { variant: String, args: Vec<Expr> },
    /// `Class { field: value, .. }`.
    New { fields: Vec<FieldInit> },
    Field { object: Box<Expr>, name: String },
    MethodCall { receiver: Box<Expr>, name: String, args: Vec<Expr> },
    /// An array or a list literal; its type says which.
    Array { elements: Vec<Expr> },
    Index { array: Box<Expr>, index: Box<Expr> },
    Len { array: Box<Expr> },
    Convert { to: Prim, value: Box<Expr> },
    Bin { op: BinOp, lhs: Box<Expr>, rhs: Box<Expr> },
    Cmp { op: CmpOp, lhs: Box<Expr>, rhs: Box<Expr> },
    Neg(Box<Expr>),
    Not(Box<Expr>),
    Logic { op: LogicOp, lhs: Box<Expr>, rhs: Box<Expr> },
    Match { scrutinee: Box<Expr>, arms: Vec<MatchArm> },
    Call { name: String, args: Vec<Expr> },
}

#[derive(Debug)]
pub struct FieldInit {
    pub name: String,
    pub value: Expr,
}

#[derive(Debug)]
pub struct MatchArm {
    pub pattern: Pattern,
    pub body: ArmBody,
}

#[derive(Debug)]
pub enum ArmBody {
    Value(Expr),
    Block(Block),
}

#[derive(Debug)]
pub enum Pattern {
    Variant { variant: String, bindings: Vec<String> },
    Int(i64),
    Char(char),
    Bool(bool),
    Str(Vec<char>),
    Float(u64),
    Wildcard,
}

/// Something that can be written to.
#[derive(Debug)]
pub enum Place {
    Var { name: String },
    Element { base: Box<Place>, index: Expr },
    Field { base: Box<Place>, name: String },
}

/// One piece of what a `print` writes.
#[derive(Debug)]
pub enum PrintPart {
    Text(Vec<char>),
    Value(Expr),
    /// A value written where a format string asked for it.
    Spec { expr: Expr },
}

#[allow(inconsistent_fields)]
#[derive(Debug)]
pub enum Stmt {
    Decl { id: NodeId, name: String, init: Expr },
    Assign { target: Place, value: Expr },
    Push { target: Place, value: Expr },
    Print { newline: bool, parts: Vec<PrintPart> },
    If { cond: Expr, then_block: Block, else_block: Option<Block> },
    While { cond: Expr, body: Block },
    For { init: Box<Stmt>, cond: Expr, step: Box<Stmt>, body: Block },
    Return { value: Option<Expr> },
    Match(Expr),
    Break,
    Continue,
    Call(Expr),
}

#[derive(Debug)]
pub struct Block {
    pub stmts: Vec<Stmt>,
}

#[derive(Debug)]
pub struct Param {
    pub name: String,
}

#[derive(Debug)]
pub struct FnDecl {
    pub name: String,
    pub name_span: Span,
    pub params: Vec<Param>,
    pub body: Block,
}

#[derive(Debug)]
pub struct ClassDecl {
    pub name: String,
    /// Indices into [`Program::functions`].
    pub methods: Vec<usize>,
}

/// A whole source file. Methods sit among the functions; a class says which are
/// its own.
#[derive(Debug)]
pub struct Program {
    pub functions: Vec<FnDecl>,
    pub classes: Vec<ClassDecl>,
}

} // verus!
