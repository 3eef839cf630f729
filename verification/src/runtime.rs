use vstd::prelude::*;
use vstd::string::*;
use crate::ir::{BinOp, Const, ConstV, Pointer, UnaOp};
use crate::bytecode::{Bytecode, BytecodeV, Callable, CallableV, Elysia, GroupV, Id, Index, ProgramV, Reg};

verus! {

/// A value the machine computes with. Floats are kept as their IEEE-754
/// bit pattern.
#[derive(Debug)]
pub enum Object {
    Pointer(Pointer, Index),
    List(Vec<Object>),
    Tuple(Vec<Object>),
    Group(Index, Vec<Object>),
    Str(String),
    Int(i32),
    Float(u32),
    Bool(bool),
    Void,
}

/// The mathematical value of an object.
pub enum ObjectV {
    Pointer(Pointer, Index),
    List(Seq<ObjectV>),
    Tuple(Seq<ObjectV>),
    Group(Index, Seq<ObjectV>),
    Str(Seq<char>),
    Int(i32),
    Float(u32),
    Bool(bool),
    Void,
}

/// The values of a sequence of objects.
pub open spec fn values(s: Seq<Object>) -> Seq<ObjectV>
    decreases s,
{
    if s.len() == 0 {
        Seq::empty()
    } else {
        proof {
            vstd::seq::axiom_seq_len_decreases(s, s.drop_last());
        }
        values(s.drop_last()).push(value(s.last()))
    }
}

/// `values` takes the value of each object.
pub proof fn lemma_values(s: Seq<Object>)
    ensures
        values(s).len() == s.len(),
        forall|i: int| 0 <= i < s.len() ==> #[trigger] values(s)[i] == value(s[i]),
    decreases s.len(),
{
    if s.len() > 0 {
        lemma_values(s.drop_last());
        assert forall|i: int| 0 <= i < s.len() implies #[trigger] values(s)[i] == value(s[i]) by {
            if i < s.len() - 1 {
                assert(s.drop_last()[i] == s[i]);
            }
        }
    }
}

/// Two sequences of objects have the same values when their objects do,
/// one by one.
pub proof fn lemma_values_equal(a: Seq<Object>, b: Seq<Object>)
    requires
        a.len() == b.len(),
        forall|i: int| 0 <= i < a.len() ==> value(#[trigger] a[i]) == value(b[i]),
    ensures
        values(a) == values(b),
{
    lemma_values(a);
    lemma_values(b);
    assert(values(a) =~= values(b));
}

/// The value of an object.
pub open spec fn value(o: Object) -> ObjectV
    decreases o,
{
    match o {
        Object::Pointer(p, i) => ObjectV::Pointer(p, i),
        Object::List(v) => ObjectV::List(values(v@)),
        Object::Tuple(v) => ObjectV::Tuple(values(v@)),
        Object::Group(g, v) => ObjectV::Group(g, values(v@)),
        Object::Str(s) => ObjectV::Str(s@),
        Object::Int(x) => ObjectV::Int(x),
        Object::Float(x) => ObjectV::Float(x),
        Object::Bool(x) => ObjectV::Bool(x),
        Object::Void => ObjectV::Void,
    }
}

impl Object {
    /// A copy of the object with the same value.
    pub fn dup(&self) -> (r: Object)
        ensures
            value(r) == value(*self),
        decreases self,
    {
        match self {
            Object::Pointer(p, i) => Object::Pointer(*p, *i),
            Object::List(v) => Object::List(dup_all(v)),
            Object::Tuple(v) => Object::Tuple(dup_all(v)),
            Object::Group(g, v) => Object::Group(*g, dup_all(v)),
            Object::Str(s) => Object::Str(s.clone()),
            Object::Int(x) => Object::Int(*x),
            Object::Float(x) => Object::Float(*x),
            Object::Bool(x) => Object::Bool(*x),
            Object::Void => Object::Void,
        }
    }
}

/// Copies of the objects, in order.
pub fn dup_all(v: &Vec<Object>) -> (r: Vec<Object>)
    ensures
        values(r@) == values(v@),
    decreases v,
{
    let mut r: Vec<Object> = Vec::new();
    let mut i: usize = 0;
    while i < v.len()
        invariant
            i <= v@.len(),
            r@.len() == i,
            forall|k: int| 0 <= k < i ==> value(#[trigger] r@[k]) == value(v@[k]),
        decreases v@.len() - i,
    {
        let o = v[i].dup();
        r.push(o);
        i = i + 1;
    }
    proof {
        lemma_values_equal(r@, v@);
    }
    r
}

/// Why the machine stopped on a program error.
#[derive(Debug)]
pub enum Fault {
    /// The object does not have the type the operation expects.
    DataType(Object, &'static str),
    /// The operator does not apply to the two objects.
    BinaryOperation(&'static str, Object, Object),
    /// The operator does not apply to the object.
    UnaryOperation(&'static str, Object),
    /// A call with the wrong number of arguments: expected, given.
    NumArgsNotMatch(usize, usize),
    /// The index is out of the bounds of the list.
    IndexOutOfBounds(Object, i32),
    /// The tuple has no element at the index.
    NotEnoughToUnpack(Object, u32),
}

/// The mathematical value of a fault.
pub enum FaultV {
    DataType(ObjectV, &'static str),
    BinaryOperation(&'static str, ObjectV, ObjectV),
    UnaryOperation(&'static str, ObjectV),
    NumArgsNotMatch(usize, usize),
    IndexOutOfBounds(ObjectV, i32),
    NotEnoughToUnpack(ObjectV, u32),
}

/// The value of a fault.
pub open spec fn fault_value(f: Fault) -> FaultV {
    match f {
        Fault::DataType(o, t) => FaultV::DataType(value(o), t),
        Fault::BinaryOperation(s, a, b) => FaultV::BinaryOperation(s, value(a), value(b)),
        Fault::UnaryOperation(s, a) => FaultV::UnaryOperation(s, value(a)),
        Fault::NumArgsNotMatch(a, b) => FaultV::NumArgsNotMatch(a, b),
        Fault::IndexOutOfBounds(o, i) => FaultV::IndexOutOfBounds(value(o), i),
        Fault::NotEnoughToUnpack(o, i) => FaultV::NotEnoughToUnpack(value(o), i),
    }
}

/// The float with bit pattern `x` is not a number.
pub open spec fn f_nan(x: u32) -> bool {
    (x & 0x7F80_0000u32) == 0x7F80_0000u32 && (x & 0x007F_FFFFu32) != 0
}

/// The float with bit pattern `x` is a zero of either sign.
pub open spec fn f_zero(x: u32) -> bool {
    (x & 0x7FFF_FFFFu32) == 0
}

/// IEEE-754 equality of two floats given by their bit patterns.
pub open spec fn f_eq(x: u32, y: u32) -> bool {
    !f_nan(x) && !f_nan(y) && (x == y || (f_zero(x) && f_zero(y)))
}

/// IEEE-754 `<` of two floats given by their bit patterns.
pub open spec fn f_lt(x: u32, y: u32) -> bool {
    &&& !f_nan(x)
    &&& !f_nan(y)
    &&& !(f_zero(x) && f_zero(y))
    &&& if (x >> 31u32) == 0 && (y >> 31u32) == 0 {
        x < y
    } else if (x >> 31u32) == 1 && (y >> 31u32) == 1 {
        x > y
    } else {
        (x >> 31u32) == 1
    }
}

/// IEEE-754 equality of two floats.
pub fn float_eq(x: u32, y: u32) -> (b: bool)
    ensures
        b == f_eq(x, y),
{
    let nx = (x & 0x7F80_0000u32) == 0x7F80_0000u32 && (x & 0x007F_FFFFu32) != 0;
    let ny = (y & 0x7F80_0000u32) == 0x7F80_0000u32 && (y & 0x007F_FFFFu32) != 0;
    !nx && !ny && (x == y || ((x & 0x7FFF_FFFFu32) == 0 && (y & 0x7FFF_FFFFu32) == 0))
}

/// IEEE-754 `<` of two floats.
pub fn float_lt(x: u32, y: u32) -> (b: bool)
    ensures
        b == f_lt(x, y),
{
    let nx = (x & 0x7F80_0000u32) == 0x7F80_0000u32 && (x & 0x007F_FFFFu32) != 0;
    let ny = (y & 0x7F80_0000u32) == 0x7F80_0000u32 && (y & 0x007F_FFFFu32) != 0;
    if nx || ny || ((x & 0x7FFF_FFFFu32) == 0 && (y & 0x7FFF_FFFFu32) == 0) {
        return false;
    }
    if (x >> 31u32) == 0 && (y >> 31u32) == 0 {
        x < y
    } else if (x >> 31u32) == 1 && (y >> 31u32) == 1 {
        x > y
    } else {
        (x >> 31u32) == 1
    }
}

/// Structural equality of two objects, as `==` of the language has it, or
/// the pair of objects it could not compare.
pub open spec fn equal(l: ObjectV, r: ObjectV) -> Result<bool, (ObjectV, ObjectV)>
    decreases l, 0int,
{
    match (l, r) {
        (ObjectV::Int(x), ObjectV::Int(y)) => Ok(x == y),
        (ObjectV::Float(x), ObjectV::Float(y)) => Ok(f_eq(x, y)),
        (ObjectV::Bool(x), ObjectV::Bool(y)) => Ok(x == y),
        (ObjectV::Str(x), ObjectV::Str(y)) => Ok(x == y),
        (ObjectV::Pointer(p, i), ObjectV::Pointer(q, j)) => Ok(p == q && i == j),
        (ObjectV::Tuple(a), ObjectV::Tuple(b)) => if a.len() != b.len() {
            Ok(false)
        } else {
            equal_from(a, b, 0)
        },
        (ObjectV::List(a), ObjectV::List(b)) => if a.len() != b.len() {
            Ok(false)
        } else {
            equal_from(a, b, 0)
        },
        (ObjectV::Group(g, a), ObjectV::Group(h, b)) => if g != h || a.len() != b.len() {
            Ok(false)
        } else {
            equal_from(a, b, 0)
        },
        _ => Err((l, r)),
    }
}

/// Element-wise equality from index `i` on, stopping at the first element
/// that differs or cannot be compared.
pub open spec fn equal_from(a: Seq<ObjectV>, b: Seq<ObjectV>, i: int) -> Result<bool, (ObjectV, ObjectV)>
    decreases a, a.len() - i,
{
    if i < 0 || i >= a.len() || i >= b.len() {
        Ok(true)
    } else {
        match equal(a[i], b[i]) {
            Err(e) => Err(e),
            Ok(false) => Ok(false),
            Ok(true) => equal_from(a, b, i + 1),
        }
    }
}

/// Compares two objects with `==`.
pub fn equals(l: &Object, r: &Object) -> (res: Result<bool, Fault>)
    ensures
        match (equal(value(*l), value(*r)), res) {
            (Ok(x), Ok(y)) => x == y,
            (Err((a, b)), Err(Fault::BinaryOperation(s, c, d))) => s == "==" && value(c) == a && value(d) == b,
            _ => false,
        },
    decreases l,
{
    match (l, r) {
        (Object::Int(x), Object::Int(y)) => Ok(*x == *y),
        (Object::Float(x), Object::Float(y)) => Ok(float_eq(*x, *y)),
        (Object::Bool(x), Object::Bool(y)) => Ok(*x == *y),
        (Object::Str(x), Object::Str(y)) => Ok(x.eq(y)),
        (Object::Pointer(p, i), Object::Pointer(q, j)) => Ok(*p == *q && *i == *j),
        (Object::Tuple(a), Object::Tuple(b)) => {
            proof {
                lemma_values(a@);
                lemma_values(b@);
            }
            if a.len() != b.len() {
                Ok(false)
            } else {
                equals_from(a, b)
            }
        },
        (Object::List(a), Object::List(b)) => {
            proof {
                lemma_values(a@);
                lemma_values(b@);
            }
            if a.len() != b.len() {
                Ok(false)
            } else {
                equals_from(a, b)
            }
        },
        (Object::Group(g, a), Object::Group(h, b)) => {
            proof {
                lemma_values(a@);
                lemma_values(b@);
            }
            if *g != *h || a.len() != b.len() {
                Ok(false)
            } else {
                equals_from(a, b)
            }
        },
        _ => Err(Fault::BinaryOperation("==", l.dup(), r.dup())),
    }
}

/// Compares two sequences of objects of the same length element-wise.
fn equals_from(a: &Vec<Object>, b: &Vec<Object>) -> (res: Result<bool, Fault>)
    requires
        a@.len() == b@.len(),
    ensures
        match (equal_from(values(a@), values(b@), 0), res) {
            (Ok(x), Ok(y)) => x == y,
            (Err((c, d)), Err(Fault::BinaryOperation(s, e, f))) => s == "==" && value(e) == c && value(f) == d,
            _ => false,
        },
    decreases a, 0int,
{
    proof {
        lemma_values(a@);
        lemma_values(b@);
    }
    let mut i: usize = 0;
    while i < a.len()
        invariant
            a@.len() == b@.len(),
            i <= a@.len(),
            values(a@).len() == a@.len(),
            values(b@).len() == b@.len(),
            forall|k: int| 0 <= k < a@.len() ==> #[trigger] values(a@)[k] == value(a@[k]),
            forall|k: int| 0 <= k < b@.len() ==> #[trigger] values(b@)[k] == value(b@[k]),
            equal_from(values(a@), values(b@), 0) == equal_from(values(a@), values(b@), i as int),
        decreases a@.len() - i,
    {
        assert(values(a@)[i as int] == value(a@[i as int]));
        assert(decreases_to!(a => a@[i as int]));
        let e = equals(&a[i], &b[i]);
        match e {
            Err(f) => return Err(f),
            Ok(false) => return Ok(false),
            Ok(true) => {},
        }
        i = i + 1;
    }
    Ok(true)
}

/// What applying an operator to objects gives.
pub enum Folded {
    /// This object.
    Value(ObjectV),
    /// The float the floating-point unit computes from the two floats.
    Float(BinOp, u32, u32),
    /// A refusal, with the symbol of the operator and the objects.
    Refused(&'static str, ObjectV, ObjectV),
    /// No result: the machine stops short of one.
    Stuck,
}

/// What applying a unary operator to an object gives.
pub enum Folded1 {
    /// This object.
    Value(ObjectV),
    /// A refusal, with the symbol of the operator and the object.
    Refused(&'static str, ObjectV),
    /// No result: the machine stops short of one.
    Stuck,
}

/// Integer arithmetic of the machine, which refuses what overflows.
pub open spec fn int_arith(op: BinOp, x: i32, y: i32) -> Option<i32> {
    match op {
        BinOp::Add => x.checked_add(y),
        BinOp::Sub => x.checked_sub(y),
        BinOp::Mul => x.checked_mul(y),
        _ => x.checked_div(y),
    }
}

/// The symbol of an arithmetic operator.
pub open spec fn arith_symbol(op: BinOp) -> &'static str {
    match op {
        BinOp::Add => "+",
        BinOp::Sub => "-",
        BinOp::Mul => "*",
        _ => "/",
    }
}

/// `l op r` on objects.
pub open spec fn fold_binary(op: BinOp, l: ObjectV, r: ObjectV) -> Folded {
    match op {
        BinOp::Or => match (l, r) {
            (ObjectV::Bool(x), ObjectV::Bool(y)) => Folded::Value(ObjectV::Bool(x || y)),
            _ => Folded::Refused("or", l, r),
        },
        BinOp::And => match (l, r) {
            (ObjectV::Bool(x), ObjectV::Bool(y)) => Folded::Value(ObjectV::Bool(x && y)),
            _ => Folded::Refused("and", l, r),
        },
        BinOp::Gt => match (l, r) {
            (ObjectV::Int(x), ObjectV::Int(y)) => Folded::Value(ObjectV::Bool(x > y)),
            (ObjectV::Float(x), ObjectV::Float(y)) => Folded::Value(ObjectV::Bool(f_lt(y, x))),
            _ => Folded::Refused(">", l, r),
        },
        BinOp::Ge => match (l, r) {
            (ObjectV::Int(x), ObjectV::Int(y)) => Folded::Value(ObjectV::Bool(x >= y)),
            (ObjectV::Float(x), ObjectV::Float(y)) => Folded::Value(ObjectV::Bool(f_lt(y, x) || f_eq(x, y))),
            _ => Folded::Refused(">=", l, r),
        },
        BinOp::Lt => match (l, r) {
            (ObjectV::Int(x), ObjectV::Int(y)) => Folded::Value(ObjectV::Bool(x < y)),
            (ObjectV::Float(x), ObjectV::Float(y)) => Folded::Value(ObjectV::Bool(f_lt(x, y))),
            _ => Folded::Refused("<", l, r),
        },
        BinOp::Le => match (l, r) {
            (ObjectV::Int(x), ObjectV::Int(y)) => Folded::Value(ObjectV::Bool(x <= y)),
            (ObjectV::Float(x), ObjectV::Float(y)) => Folded::Value(ObjectV::Bool(f_lt(x, y) || f_eq(x, y))),
            _ => Folded::Refused("<=", l, r),
        },
        BinOp::Eq => match equal(l, r) {
            Ok(b) => Folded::Value(ObjectV::Bool(b)),
            Err((a, b)) => Folded::Refused("==", a, b),
        },
        BinOp::Ne => match equal(l, r) {
            Ok(b) => Folded::Value(ObjectV::Bool(!b)),
            Err((a, b)) => Folded::Refused("==", a, b),
        },
        BinOp::Add | BinOp::Sub | BinOp::Mul | BinOp::Div => match (l, r) {
            (ObjectV::Int(x), ObjectV::Int(y)) => match int_arith(op, x, y) {
                Some(z) => Folded::Value(ObjectV::Int(z)),
                None => Folded::Refused(arith_symbol(op), l, r),
            },
            (ObjectV::Float(x), ObjectV::Float(y)) => Folded::Float(op, x, y),
            (ObjectV::Str(x), ObjectV::Str(y)) => if op is Add {
                Folded::Value(ObjectV::Str(x + y))
            } else {
                Folded::Refused(arith_symbol(op), l, r)
            },
            _ => Folded::Refused(arith_symbol(op), l, r),
        },
        BinOp::Mod => match (l, r) {
            (ObjectV::Int(x), ObjectV::Int(y)) => match x.checked_rem(y) {
                Some(z) => Folded::Value(ObjectV::Int(z)),
                None => Folded::Stuck,
            },
            _ => Folded::Refused("%", l, r),
        },
        BinOp::At => Folded::Refused("@", l, r),
    }
}

/// `op o` on an object.
pub open spec fn fold_unary(op: UnaOp, o: ObjectV) -> Folded1 {
    match op {
        UnaOp::Not => match o {
            ObjectV::Bool(x) => Folded1::Value(ObjectV::Bool(!x)),
            _ => Folded1::Refused("not", o),
        },
        UnaOp::Pos => match o {
            ObjectV::Int(_) => Folded1::Value(o),
            ObjectV::Float(_) => Folded1::Value(o),
            _ => Folded1::Refused("+", o),
        },
        UnaOp::Neg => match o {
            ObjectV::Int(x) => if x == i32::MIN {
                Folded1::Stuck
            } else {
                Folded1::Value(ObjectV::Int((-x) as i32))
            },
            ObjectV::Float(x) => Folded1::Value(ObjectV::Float(x ^ 0x8000_0000u32)),
            _ => Folded1::Refused("-", o),
        },
    }
}

/// `r` is the outcome `f` describes, the floating-point unit being `float`.
pub open spec fn binary_done<F: Fn(BinOp, u32, u32) -> u32>(f: Folded, r: Result<Object, Fault>, float: F) -> bool {
    match f {
        Folded::Value(v) => r matches Ok(o) && value(o) == v,
        Folded::Float(op, x, y) => r matches Ok(Object::Float(z)) && float.ensures((op, x, y), z),
        Folded::Refused(s, a, b) => r matches Err(Fault::BinaryOperation(t, c, d)) && t == s && value(c) == a && value(d) == b,
        Folded::Stuck => false,
    }
}

/// `r` is the outcome `f` describes.
pub open spec fn unary_done(f: Folded1, r: Result<Object, Fault>) -> bool {
    match f {
        Folded1::Value(v) => r matches Ok(o) && value(o) == v,
        Folded1::Refused(s, a) => r matches Err(Fault::UnaryOperation(t, c)) && t == s && value(c) == a,
        Folded1::Stuck => false,
    }
}

/// Appends `t` to `s`.
pub(crate) fn push_str(s: &mut String, t: &str)
    ensures
        final(s)@ == old(s)@ + t@,
{
    s.append(t);
}

impl Object {
    /// `self op rhs`. The four arithmetic operators on two floats are
    /// handed to `float`, the floating-point unit of the caller, which
    /// maps the operands' bit patterns to the result's.
    pub fn binary<F: Fn(BinOp, u32, u32) -> u32>(&self, op: &BinOp, rhs: &Object, float: &F) -> (r: Result<Object, Fault>)
        requires
            !(fold_binary(*op, value(*self), value(*rhs)) is Stuck),
            forall|o: BinOp, x: u32, y: u32| float.requires((o, x, y)),
        ensures
            binary_done(fold_binary(*op, value(*self), value(*rhs)), r, *float),
    {
        match op {
            BinOp::Or | BinOp::And => match (self, rhs) {
                (Object::Bool(x), Object::Bool(y)) => Ok(Object::Bool(if *op == BinOp::Or { *x || *y } else { *x && *y })),
                _ => Err(Fault::BinaryOperation(if *op == BinOp::Or { "or" } else { "and" }, self.dup(), rhs.dup())),
            },
            BinOp::Gt | BinOp::Ge | BinOp::Lt | BinOp::Le => {
                let sym = match op {
                    BinOp::Gt => ">",
                    BinOp::Ge => ">=",
                    BinOp::Lt => "<",
                    _ => "<=",
                };
                match (self, rhs) {
                    (Object::Int(x), Object::Int(y)) => Ok(Object::Bool(match op {
                        BinOp::Gt => *x > *y,
                        BinOp::Ge => *x >= *y,
                        BinOp::Lt => *x < *y,
                        _ => *x <= *y,
                    })),
                    (Object::Float(x), Object::Float(y)) => Ok(Object::Bool(match op {
                        BinOp::Gt => float_lt(*y, *x),
                        BinOp::Ge => float_lt(*y, *x) || float_eq(*x, *y),
                        BinOp::Lt => float_lt(*x, *y),
                        _ => float_lt(*x, *y) || float_eq(*x, *y),
                    })),
                    _ => Err(Fault::BinaryOperation(sym, self.dup(), rhs.dup())),
                }
            },
            BinOp::Eq | BinOp::Ne => {
                let b = equals(self, rhs)?;
                Ok(Object::Bool(if *op == BinOp::Eq { b } else { !b }))
            },
            BinOp::Add | BinOp::Sub | BinOp::Mul | BinOp::Div => {
                let sym = match op {
                    BinOp::Add => "+",
                    BinOp::Sub => "-",
                    BinOp::Mul => "*",
                    _ => "/",
                };
                match (self, rhs) {
                    (Object::Int(x), Object::Int(y)) => {
                        let v = match op {
                            BinOp::Add => x.checked_add(*y),
                            BinOp::Sub => x.checked_sub(*y),
                            BinOp::Mul => x.checked_mul(*y),
                            _ => x.checked_div(*y),
                        };
                        match v {
                            Some(z) => Ok(Object::Int(z)),
                            None => Err(Fault::BinaryOperation(sym, self.dup(), rhs.dup())),
                        }
                    },
                    (Object::Float(x), Object::Float(y)) => Ok(Object::Float(float(*op, *x, *y))),
                    (Object::Str(x), Object::Str(y)) => {
                        if *op == BinOp::Add {
                            let mut z = x.clone();
                            push_str(&mut z, y.as_str());
                            Ok(Object::Str(z))
                        } else {
                            Err(Fault::BinaryOperation(sym, self.dup(), rhs.dup()))
                        }
                    },
                    _ => Err(Fault::BinaryOperation(sym, self.dup(), rhs.dup())),
                }
            },
            BinOp::Mod => match (self, rhs) {
                (Object::Int(x), Object::Int(y)) => {
                    let z = x.checked_rem(*y).unwrap();
                    Ok(Object::Int(z))
                },
                _ => Err(Fault::BinaryOperation("%", self.dup(), rhs.dup())),
            },
            BinOp::At => Err(Fault::BinaryOperation("@", self.dup(), rhs.dup())),
        }
    }

    /// `op self`.
    pub fn unary(&self, op: &UnaOp) -> (r: Result<Object, Fault>)
        requires
            !(fold_unary(*op, value(*self)) is Stuck),
        ensures
            unary_done(fold_unary(*op, value(*self)), r),
    {
        match op {
            UnaOp::Not => match self {
                Object::Bool(x) => Ok(Object::Bool(!*x)),
                _ => Err(Fault::UnaryOperation("not", self.dup())),
            },
            UnaOp::Pos => match self {
                Object::Int(x) => Ok(Object::Int(*x)),
                Object::Float(x) => Ok(Object::Float(*x)),
                _ => Err(Fault::UnaryOperation("+", self.dup())),
            },
            UnaOp::Neg => match self {
                Object::Int(x) => Ok(Object::Int(-*x)),
                Object::Float(x) => Ok(Object::Float(*x ^ 0x8000_0000u32)),
                _ => Err(Fault::UnaryOperation("-", self.dup())),
            },
        }
    }
}

/// `values` after one object is replaced.
pub proof fn lemma_values_update(s: Seq<Object>, i: int, o: Object)
    requires
        0 <= i < s.len(),
    ensures
        values(s.update(i, o)) == values(s).update(i, value(o)),
{
    lemma_values(s);
    lemma_values(s.update(i, o));
    assert(values(s.update(i, o)) =~= values(s).update(i, value(o)));
}

/// The frame of a call: the next bytecode to run, the registers, and the
/// caller's registers that hold the arguments.
pub struct Frame {
    pub pc: Index,
    pub registers: Vec<Object>,
    pub args: Vec<Reg>,
}

/// The mathematical value of a frame.
pub struct FrameV {
    pub pc: Index,
    pub registers: Seq<ObjectV>,
    pub args: Seq<Reg>,
}

impl View for Frame {
    type V = FrameV;

    open spec fn view(&self) -> FrameV {
        FrameV { pc: self.pc, registers: values(self.registers@), args: self.args@ }
    }
}

/// The state of the machine: the argument of the program, the registers
/// that receive what the pending calls return, the frame of the main
/// function, and the frames of the functions called, each with its index.
pub struct Runtime {
    pub args: Object,
    pub rets: Vec<Reg>,
    pub main: Frame,
    pub stack: Vec<(Index, Frame)>,
}

/// The mathematical value of the machine state.
pub struct RuntimeV {
    pub args: ObjectV,
    pub rets: Seq<Reg>,
    pub main: FrameV,
    pub stack: Seq<(Index, FrameV)>,
}

/// The values of the frames of a call stack.
pub open spec fn frames(s: Seq<(Index, Frame)>) -> Seq<(Index, FrameV)> {
    s.map_values(|e: (Index, Frame)| (e.0, e.1@))
}

impl View for Runtime {
    type V = RuntimeV;

    open spec fn view(&self) -> RuntimeV {
        RuntimeV { args: value(self.args), rets: self.rets@, main: self.main@, stack: frames(self.stack@) }
    }
}

/// The frame that runs: the last one called, or the main one.
pub open spec fn top(rt: RuntimeV) -> FrameV {
    if rt.stack.len() == 0 {
        rt.main
    } else {
        rt.stack.last().1
    }
}

/// The state with the running frame replaced.
pub open spec fn put_top(rt: RuntimeV, f: FrameV) -> RuntimeV {
    if rt.stack.len() == 0 {
        RuntimeV { main: f, ..rt }
    } else {
        RuntimeV { stack: rt.stack.update(rt.stack.len() - 1, (rt.stack.last().0, f)), ..rt }
    }
}

/// The state after `v` is stored in register `reg` of the running frame.
pub open spec fn stored(rt: RuntimeV, reg: Reg, v: ObjectV) -> RuntimeV {
    put_top(rt, FrameV { registers: top(rt).registers.update(reg as int, v), ..top(rt) })
}

/// The state after the running frame jumps to `pc`.
pub open spec fn jumped(rt: RuntimeV, pc: Index) -> RuntimeV {
    put_top(rt, FrameV { pc: pc, ..top(rt) })
}

/// The state after a call of function `idx` in a new frame `f`, whose
/// result goes to register `dst` of the caller.
pub open spec fn pushed(rt: RuntimeV, dst: Reg, idx: Index, f: FrameV) -> RuntimeV {
    RuntimeV { rets: rt.rets.push(dst), stack: rt.stack.push((idx, f)), ..rt }
}

/// The frame a call of `c` with the argument registers `args` starts in.
pub open spec fn fresh(c: CallableV, args: Seq<Reg>) -> FrameV {
    FrameV { pc: 0, registers: Seq::new(c.registers as nat, |i: int| ObjectV::Void), args: args }
}

impl Runtime {
    /// The number of registers of the running frame.
    pub fn width(&self) -> (n: usize)
        ensures
            n == top(self@).registers.len(),
    {
        proof {
            lemma_values(self.main.registers@);
        }
        let k = self.stack.len();
        if k == 0 {
            self.main.registers.len()
        } else {
            proof {
                lemma_values(self.stack@[k - 1].1.registers@);
            }
            self.stack[k - 1].1.registers.len()
        }
    }

    /// The program counter of the running frame.
    pub fn pc(&self) -> (pc: Index)
        ensures
            pc == top(self@).pc,
    {
        let k = self.stack.len();
        if k == 0 {
            self.main.pc
        } else {
            self.stack[k - 1].1.pc
        }
    }

    /// The index of the running function; `None` for the main one.
    pub fn callee(&self) -> (r: Option<Index>)
        ensures
            r == (if self@.stack.len() == 0 {
                None
            } else {
                Some(self@.stack.last().0)
            }),
    {
        let k = self.stack.len();
        if k == 0 {
            None
        } else {
            Some(self.stack[k - 1].0)
        }
    }

    /// A copy of register `reg` of the running frame.
    pub fn load(&self, reg: Reg) -> (o: Object)
        requires
            (reg as int) < top(self@).registers.len(),
        ensures
            value(o) == top(self@).registers[reg as int],
    {
        proof {
            lemma_values(self.main.registers@);
        }
        let k = self.stack.len();
        if k == 0 {
            self.main.registers[reg as usize].dup()
        } else {
            proof {
                lemma_values(self.stack@[k - 1].1.registers@);
            }
            self.stack[k - 1].1.registers[reg as usize].dup()
        }
    }

    /// Copies of the registers `args` of the running frame, in order;
    /// `None` when one of them is not a register of the frame.
    pub fn gather(&self, args: &Vec<Reg>) -> (r: Option<Vec<Object>>)
        ensures
            match r {
                Some(v) => (forall|i: int| 0 <= i < args@.len() ==> (args@[i] as int) < top(self@).registers.len())
                    && values(v@) == args@.map_values(|a: Reg| top(self@).registers[a as int]),
                None => exists|i: int| 0 <= i < args@.len() && (args@[i] as int) >= top(self@).registers.len(),
            },
    {
        let n = self.width();
        let mut objs: Vec<Object> = Vec::new();
        let mut i: usize = 0;
        while i < args.len()
            invariant
                n == top(self@).registers.len(),
                i <= args@.len(),
                objs@.len() == i,
                forall|k: int| 0 <= k < i ==> (args@[k] as int) < n,
                forall|k: int| 0 <= k < i ==> value(#[trigger] objs@[k]) == top(self@).registers[args@[k] as int],
            decreases args@.len() - i,
        {
            if args[i] as usize >= n {
                return None;
            }
            let o = self.load(args[i]);
            objs.push(o);
            i = i + 1;
        }
        proof {
            lemma_values(objs@);
            assert(values(objs@) =~= args@.map_values(|a: Reg| top(self@).registers[a as int]));
        }
        Some(objs)
    }

    /// Stores `o` in register `reg` of the running frame.
    pub fn store(&mut self, reg: Reg, o: Object)
        requires
            (reg as int) < top(old(self)@).registers.len(),
        ensures
            final(self)@ == stored(old(self)@, reg, value(o)),
    {
        proof {
            lemma_values(self.main.registers@);
        }
        let k = self.stack.len();
        if k == 0 {
            proof {
                lemma_values_update(self.main.registers@, reg as int, o);
            }
            self.main.registers.set(reg as usize, o);
        } else {
            let ghost before = self.stack@;
            let (idx, mut f) = self.stack.pop().unwrap();
            proof {
                lemma_values(f.registers@);
                lemma_values_update(f.registers@, reg as int, o);
            }
            f.registers.set(reg as usize, o);
            self.stack.push((idx, f));
            assert(frames(self.stack@) =~= frames(before).update(k - 1, (idx, f@)));
        }
    }

    /// Moves the running frame to bytecode `pc`.
    pub fn goto(&mut self, pc: Index)
        ensures
            final(self)@ == jumped(old(self)@, pc),
    {
        let k = self.stack.len();
        if k == 0 {
            self.main.pc = pc;
        } else {
            let ghost before = self.stack@;
            let (idx, mut f) = self.stack.pop().unwrap();
            f.pc = pc;
            self.stack.push((idx, f));
            assert(frames(self.stack@) =~= frames(before).update(k - 1, (idx, f@)));
        }
    }

    /// Enters function `idx` in frame `f`; its result goes to register
    /// `dst` of the running frame.
    pub fn call(&mut self, dst: Reg, idx: Index, f: Frame)
        ensures
            final(self)@ == pushed(old(self)@, dst, idx, f@),
    {
        let ghost before = self.stack@;
        self.rets.push(dst);
        self.stack.push((idx, f));
        assert(frames(self.stack@) =~= frames(before).push((idx, f@)));
    }
}

impl Callable {
    /// The frame a call with the argument registers `args` starts in;
    /// refused when the number of arguments is not the function's.
    pub fn frame(&self, args: Vec<Reg>) -> (r: Result<Frame, Fault>)
        ensures
            match r {
                Ok(f) => self.args as int == args@.len() && f@ == fresh(self@, args@),
                Err(e) => self.args as int != args@.len() && e == Fault::NumArgsNotMatch(self.args as usize, args@.len() as usize),
            },
    {
        if self.args as usize != args.len() {
            return Err(Fault::NumArgsNotMatch(self.args as usize, args.len()));
        }
        let mut registers: Vec<Object> = Vec::new();
        let mut i: u8 = 0;
        while i < self.registers
            invariant
                i <= self.registers,
                registers@.len() == i,
                forall|k: int| 0 <= k < i ==> value(#[trigger] registers@[k]) == ObjectV::Void,
            decreases self.registers - i,
        {
            registers.push(Object::Void);
            i = i + 1;
        }
        proof {
            lemma_values(registers@);
            assert(values(registers@) =~= Seq::new(self.registers as nat, |i: int| ObjectV::Void));
        }
        Ok(Frame { pc: 0, registers, args })
    }
}

/// What a step of the machine asks of its caller.
#[derive(Debug)]
pub enum Step {
    /// Nothing: run the next step.
    Next,
    /// The main function returned this object: the program is over.
    Exit(Object),
    /// Call the host function `idx` on these objects and store what it
    /// returns in register `dst` of the running frame.
    Foreign(Reg, Index, Vec<Object>),
}

/// The mathematical value of a step's request.
pub enum StepV {
    Next,
    Exit(ObjectV),
    Foreign(Reg, Index, Seq<ObjectV>),
}

/// The value of a step's request.
pub open spec fn step_value(s: Step) -> StepV {
    match s {
        Step::Next => StepV::Next,
        Step::Exit(o) => StepV::Exit(value(o)),
        Step::Foreign(d, i, v) => StepV::Foreign(d, i, values(v@)),
    }
}

/// What running one bytecode does.
pub enum Effect {
    /// The machine goes to this state and asks this of its caller.
    Go(RuntimeV, StepV),
    /// The program fails with this fault.
    Fail(FaultV),
    /// Register `dst` receives the float the floating-point unit computes
    /// for `op` on the two floats.
    Arith(Reg, BinOp, u32, u32),
    /// The machine cannot go on.
    Stuck,
}

/// The object a constant loads as.
pub open spec fn const_value(c: ConstV) -> ObjectV {
    match c {
        ConstV::Int(x) => ObjectV::Int(x),
        ConstV::Float(x) => ObjectV::Float(x),
        ConstV::Bool(x) => ObjectV::Bool(x),
        ConstV::Str(x) => ObjectV::Str(x),
    }
}

/// The index filed under `id`: the first entry that has it.
pub open spec fn find(s: Seq<(Id, Index)>, id: Id) -> Option<Index>
    decreases s.len(),
{
    if s.len() == 0 {
        None
    } else if s[0].0 == id {
        Some(s[0].1)
    } else {
        find(s.drop_first(), id)
    }
}

/// Register `r` exists in the running frame.
pub open spec fn has_reg(rt: RuntimeV, r: Reg) -> bool {
    (r as int) < top(rt).registers.len()
}

/// Every register of `args` exists in the running frame.
pub open spec fn has_regs(rt: RuntimeV, args: Seq<Reg>) -> bool {
    forall|i: int| 0 <= i < args.len() ==> has_reg(rt, #[trigger] args[i])
}

/// The contents of the registers `args` of the running frame.
pub open spec fn gathered(rt: RuntimeV, args: Seq<Reg>) -> Seq<ObjectV> {
    args.map_values(|a: Reg| top(rt).registers[a as int])
}

/// Stores `v` in `dst` and goes on, when `dst` exists.
pub open spec fn put(rt: RuntimeV, dst: Reg, v: ObjectV) -> Effect {
    if has_reg(rt, dst) {
        Effect::Go(stored(rt, dst, v), StepV::Next)
    } else {
        Effect::Stuck
    }
}

/// The frame that called the running one.
pub open spec fn caller(rt: RuntimeV) -> FrameV {
    if rt.stack.len() >= 2 {
        rt.stack[rt.stack.len() - 2].1
    } else {
        rt.main
    }
}

/// The state after the running function returns `v` to its caller.
pub open spec fn returned(rt: RuntimeV, v: ObjectV) -> Effect {
    if rt.rets.len() == 0 {
        Effect::Stuck
    } else {
        let popped = RuntimeV { rets: rt.rets.drop_last(), stack: rt.stack.drop_last(), ..rt };
        put(popped, rt.rets.last(), v)
    }
}

/// A call of function `idx` with argument registers `args`, its result
/// going to `dst`.
pub open spec fn invoke(p: ProgramV, rt: RuntimeV, dst: Reg, idx: Index, args: Seq<Reg>) -> Effect {
    if (idx as int) >= p.text.len() {
        Effect::Stuck
    } else if p.text[idx as int].args as int != args.len() {
        Effect::Fail(FaultV::NumArgsNotMatch(p.text[idx as int].args as usize, args.len() as usize))
    } else {
        Effect::Go(pushed(rt, dst, idx, fresh(p.text[idx as int], args)), StepV::Next)
    }
}

/// What bytecode `b` does to the state `rt`, whose program counter has
/// already moved past it.
pub open spec fn effect(p: ProgramV, rt: RuntimeV, b: BytecodeV) -> Effect {
    let regs = top(rt).registers;
    match b {
        BytecodeV::Arg(dst, idx) => if rt.stack.len() == 0 {
            put(rt, dst, rt.args)
        } else if (idx as int) >= top(rt).args.len() {
            Effect::Stuck
        } else {
            let a = top(rt).args[idx as int];
            if (a as int) >= caller(rt).registers.len() {
                Effect::Stuck
            } else {
                put(rt, dst, caller(rt).registers[a as int])
            }
        },
        BytecodeV::Field(dst, src, id) => if !has_reg(rt, src) {
            Effect::Stuck
        } else {
            match regs[src as int] {
                ObjectV::Group(gp, elems) => if (gp as int) >= p.groups.len() {
                    Effect::Stuck
                } else {
                    match find(p.groups[gp as int].indices, id) {
                        Some(i) => if (i as int) < elems.len() {
                            put(rt, dst, elems[i as int])
                        } else {
                            Effect::Stuck
                        },
                        None => Effect::Stuck,
                    }
                },
                o => Effect::Fail(FaultV::DataType(o, "group")),
            }
        },
        BytecodeV::Unpack(dst, src, idx) => if !has_reg(rt, src) {
            Effect::Stuck
        } else {
            match regs[src as int] {
                ObjectV::Tuple(objs) => if (idx as int) < objs.len() {
                    put(rt, dst, objs[idx as int])
                } else {
                    Effect::Fail(FaultV::NotEnoughToUnpack(regs[src as int], idx))
                },
                o => Effect::Fail(FaultV::DataType(o, "tuple")),
            }
        },
        BytecodeV::Pointer(dst, pt, idx) => put(rt, dst, ObjectV::Pointer(pt, idx)),
        BytecodeV::Load(dst, idx) => if (idx as int) < p.data.len() {
            put(rt, dst, const_value(p.data[idx as int]))
        } else {
            Effect::Stuck
        },
        BytecodeV::Binary(dst, l, op, r) => if !has_reg(rt, l) || !has_reg(rt, r) {
            Effect::Stuck
        } else {
            match fold_binary(op, regs[l as int], regs[r as int]) {
                Folded::Value(v) => put(rt, dst, v),
                Folded::Float(o, x, y) => if has_reg(rt, dst) {
                    Effect::Arith(dst, o, x, y)
                } else {
                    Effect::Stuck
                },
                Folded::Refused(s, a, c) => Effect::Fail(FaultV::BinaryOperation(s, a, c)),
                Folded::Stuck => Effect::Stuck,
            }
        },
        BytecodeV::Unary(dst, op, src) => if !has_reg(rt, src) {
            Effect::Stuck
        } else {
            match fold_unary(op, regs[src as int]) {
                Folded1::Value(v) => put(rt, dst, v),
                Folded1::Refused(s, a) => Effect::Fail(FaultV::UnaryOperation(s, a)),
                Folded1::Stuck => Effect::Stuck,
            }
        },
        BytecodeV::Call(dst, src, args) => if !has_reg(rt, src) {
            Effect::Stuck
        } else {
            match regs[src as int] {
                ObjectV::Pointer(Pointer::Function, idx) => invoke(p, rt, dst, idx, args),
                ObjectV::Pointer(Pointer::Group, idx) => if (idx as int) >= p.groups.len() || !has_regs(rt, args) {
                    Effect::Stuck
                } else if p.groups[idx as int].indices.len() != args.len() {
                    Effect::Fail(FaultV::NumArgsNotMatch(p.groups[idx as int].indices.len() as usize, args.len() as usize))
                } else {
                    put(rt, dst, ObjectV::Group(idx, gathered(rt, args)))
                },
                ObjectV::Pointer(Pointer::Rust, idx) => if has_regs(rt, args) {
                    Effect::Go(rt, StepV::Foreign(dst, idx, gathered(rt, args)))
                } else {
                    Effect::Stuck
                },
                o => Effect::Fail(FaultV::DataType(o, "ptr")),
            }
        },
        BytecodeV::List(dst, args) => if has_regs(rt, args) {
            put(rt, dst, ObjectV::List(gathered(rt, args)))
        } else {
            Effect::Stuck
        },
        BytecodeV::Tuple(dst, args) => if has_regs(rt, args) {
            put(rt, dst, ObjectV::Tuple(gathered(rt, args)))
        } else {
            Effect::Stuck
        },
        BytecodeV::Index(dst, src, index) => if !has_reg(rt, src) {
            Effect::Stuck
        } else {
            match regs[src as int] {
                ObjectV::List(items) => if !has_reg(rt, index) {
                    Effect::Stuck
                } else {
                    match regs[index as int] {
                        ObjectV::Int(i) => {
                            let at = if i >= 0 { i as int } else { items.len() + i };
                            if 0 <= at < items.len() {
                                put(rt, dst, items[at])
                            } else {
                                Effect::Fail(FaultV::IndexOutOfBounds(regs[src as int], i))
                            }
                        },
                        o => Effect::Fail(FaultV::DataType(o, "int")),
                    }
                },
                o => Effect::Fail(FaultV::DataType(o, "list")),
            }
        },
        BytecodeV::Method(dst, src, id, args) => if !has_reg(rt, src) {
            Effect::Stuck
        } else {
            match regs[src as int] {
                ObjectV::Group(gp, _) => if (gp as int) >= p.groups.len() {
                    Effect::Stuck
                } else {
                    match find(p.groups[gp as int].methods, id) {
                        Some(m) => invoke(p, rt, dst, m, args.push(src)),
                        None => Effect::Stuck,
                    }
                },
                o => Effect::Fail(FaultV::DataType(o, "group")),
            }
        },
        BytecodeV::Branch(cond, yes, no) => if !has_reg(rt, cond) {
            Effect::Stuck
        } else {
            match regs[cond as int] {
                ObjectV::Bool(b) => Effect::Go(jumped(rt, if b { yes } else { no }), StepV::Next),
                o => Effect::Fail(FaultV::DataType(o, "bool")),
            }
        },
        BytecodeV::Jump(target) => Effect::Go(jumped(rt, target), StepV::Next),
        BytecodeV::Return(src) => if !has_reg(rt, src) {
            Effect::Stuck
        } else if rt.stack.len() == 0 {
            Effect::Go(rt, StepV::Exit(regs[src as int]))
        } else {
            returned(rt, regs[src as int])
        },
        BytecodeV::Copy(dst, src) => if !has_reg(rt, src) {
            Effect::Stuck
        } else {
            put(rt, dst, regs[src as int])
        },
    }
}

/// The callable the running frame executes.
pub open spec fn running(p: ProgramV, rt: RuntimeV) -> Option<CallableV> {
    if rt.stack.len() == 0 {
        Some(p.main)
    } else if (rt.stack.last().0 as int) < p.text.len() {
        Some(p.text[rt.stack.last().0 as int])
    } else {
        None
    }
}

/// The state once the running frame's program counter has moved past the
/// bytecode it points to.
pub open spec fn advanced(rt: RuntimeV) -> RuntimeV {
    jumped(rt, (top(rt).pc + 1) as Index)
}

/// What one step of the machine does: fetch the bytecode the running frame
/// points to, move past it, and run it.
pub open spec fn stepped(p: ProgramV, rt: RuntimeV) -> Effect {
    match running(p, rt) {
        None => Effect::Stuck,
        Some(c) => if (top(rt).pc as int) >= c.bytecodes.len() || top(rt).pc == u32::MAX {
            Effect::Stuck
        } else {
            effect(p, advanced(rt), c.bytecodes[top(rt).pc as int])
        },
    }
}

/// `r` and the state `after` are what `e` describes, starting from `rt`.
pub open spec fn step_done<F: Fn(BinOp, u32, u32) -> u32>(
    e: Effect,
    rt: RuntimeV,
    r: Option<Result<Step, Fault>>,
    after: RuntimeV,
    float: F,
) -> bool {
    match e {
        Effect::Go(next, s) => r matches Some(Ok(st)) && step_value(st) == s && after == next,
        Effect::Fail(f) => r matches Some(Err(x)) && fault_value(x) == f && after == rt,
        Effect::Arith(dst, op, x, y) => r matches Some(Ok(Step::Next)) && exists|z: u32|
            float.ensures((op, x, y), z) && after == stored(rt, dst, ObjectV::Float(z)),
        Effect::Stuck => r is None,
    }
}

/// The index filed under `id`.
pub fn lookup(v: &Vec<(Id, Index)>, id: Id) -> (r: Option<Index>)
    ensures
        r == find(v@, id),
{
    let mut i: usize = 0;
    assert(v@.skip(0) =~= v@);
    while i < v.len()
        invariant
            i <= v@.len(),
            find(v@, id) == find(v@.skip(i as int), id),
        decreases v@.len() - i,
    {
        assert(v@.skip(i as int).drop_first() =~= v@.skip(i + 1));
        if v[i].0 == id {
            return Some(v[i].1);
        }
        i = i + 1;
    }
    None
}

/// The object a constant loads as.
pub fn from_const(c: &Const) -> (o: Object)
    ensures
        value(o) == const_value(c@),
{
    match c {
        Const::Int(x) => Object::Int(*x),
        Const::Float(x) => Object::Float(*x),
        Const::Bool(x) => Object::Bool(*x),
        Const::Str(x) => Object::Str(x.clone()),
    }
}

impl Runtime {
    /// Argument `idx` of the running function: the contents of the
    /// caller's register it names, or the program's argument in the main
    /// function; `None` when there is no such register.
    pub fn arg(&self, idx: Index) -> (r: Option<Object>)
        ensures
            self@.stack.len() == 0 ==> (r matches Some(o) && value(o) == self@.args),
            self@.stack.len() > 0 ==> match r {
                Some(o) => (idx as int) < top(self@).args.len() && (top(self@).args[idx as int] as int) < caller(self@).registers.len()
                    && value(o) == caller(self@).registers[top(self@).args[idx as int] as int],
                None => (idx as int) >= top(self@).args.len() || (top(self@).args[idx as int] as int) >= caller(self@).registers.len(),
            },
    {
        let k = self.stack.len();
        if k == 0 {
            return Some(self.args.dup());
        }
        let args = &self.stack[k - 1].1.args;
        if idx as usize >= args.len() {
            return None;
        }
        let a = args[idx as usize];
        let regs = if k >= 2 {
            &self.stack[k - 2].1.registers
        } else {
            &self.main.registers
        };
        proof {
            lemma_values(regs@);
        }
        if a as usize >= regs.len() {
            return None;
        }
        Some(regs[a as usize].dup())
    }

    /// Returns `v` from the running function to the register of its caller
    /// that waits for it; `false` when the machine cannot.
    pub fn ret(&mut self, v: Object) -> (ok: bool)
        requires
            old(self)@.stack.len() > 0,
        ensures
            match returned(old(self)@, value(v)) {
                Effect::Go(next, s) => ok && final(self)@ == next,
                _ => !ok,
            },
    {
        if self.rets.len() == 0 {
            return false;
        }
        let ghost before = self.stack@;
        let _ = self.stack.pop();
        let dst = self.rets.pop().unwrap();
        assert(frames(self.stack@) =~= frames(before).drop_last());
        if dst as usize >= self.width() {
            return false;
        }
        self.store(dst, v);
        true
    }
}

impl Bytecode {
    /// Runs the bytecode on the machine, whose program counter has already
    /// moved past it; `None` when the machine cannot go on.
    pub fn exec<F: Fn(BinOp, u32, u32) -> u32>(&self, elysia: &Elysia, rt: &mut Runtime, float: &F) -> (r: Option<Result<Step, Fault>>)
        requires
            forall|o: BinOp, x: u32, y: u32| float.requires((o, x, y)),
        ensures
            step_done(effect(elysia@, old(rt)@, self@), old(rt)@, r, final(rt)@, *float),
    {
        match self {
            Bytecode::Arg(dst, idx) => exec_arg(elysia, rt, *dst, *idx, float),
            Bytecode::Field(dst, src, id) => exec_field(elysia, rt, *dst, *src, *id, float),
            Bytecode::Unpack(dst, src, idx) => exec_unpack(elysia, rt, *dst, *src, *idx, float),
            Bytecode::Pointer(dst, pt, idx) => exec_pointer(elysia, rt, *dst, *pt, *idx, float),
            Bytecode::Load(dst, idx) => exec_load(elysia, rt, *dst, *idx, float),
            Bytecode::Binary(dst, lhs, op, rhs) => exec_binary(elysia, rt, *dst, *lhs, *op, *rhs, float),
            Bytecode::Unary(dst, op, src) => exec_unary(elysia, rt, *dst, *op, *src, float),
            Bytecode::Call(dst, src, args) => exec_call(elysia, rt, *dst, *src, args, float),
            Bytecode::List(dst, args) => exec_list(elysia, rt, *dst, args, float),
            Bytecode::Tuple(dst, args) => exec_tuple(elysia, rt, *dst, args, float),
            Bytecode::Index(dst, src, index) => exec_index(elysia, rt, *dst, *src, *index, float),
            Bytecode::Method(dst, src, id, args) => exec_method(elysia, rt, *dst, *src, *id, args, float),
            Bytecode::Branch(cond, yes, no) => exec_branch(elysia, rt, *cond, *yes, *no, float),
            Bytecode::Jump(target) => exec_jump(elysia, rt, *target, float),
            Bytecode::Return(src) => exec_return(elysia, rt, *src, float),
            Bytecode::Copy(dst, src) => exec_copy(elysia, rt, *dst, *src, float),
        }
    }
}

/// Runs `Arg` on the machine, whose program counter has already moved
/// past it.
fn exec_arg<F: Fn(BinOp, u32, u32) -> u32>(elysia: &Elysia, rt: &mut Runtime, dst: Reg, idx: Index, float: &F) -> (r: Option<Result<Step, Fault>>)
    requires
        forall|o: BinOp, x: u32, y: u32| float.requires((o, x, y)),
    ensures
        step_done(effect(elysia@, old(rt)@, BytecodeV::Arg(dst, idx)), old(rt)@, r, final(rt)@, *float),
{
    let n = rt.width();
    let o = match rt.arg(idx) {
        Some(o) => o,
        None => return None,
    };
    if dst as usize >= n {
        return None;
    }
    rt.store(dst, o);
    Some(Ok(Step::Next))
}

/// Runs `Field` on the machine, whose program counter has already moved
/// past it.
fn exec_field<F: Fn(BinOp, u32, u32) -> u32>(elysia: &Elysia, rt: &mut Runtime, dst: Reg, src: Reg, id: Id, float: &F) -> (r: Option<Result<Step, Fault>>)
    requires
        forall|o: BinOp, x: u32, y: u32| float.requires((o, x, y)),
    ensures
        step_done(effect(elysia@, old(rt)@, BytecodeV::Field(dst, src, id)), old(rt)@, r, final(rt)@, *float),
{
    let n = rt.width();
    if src as usize >= n {
        return None;
    }
    let tmp = rt.load(src);
    match &tmp {
        Object::Group(gp, elems) => {
            if *gp as usize >= elysia.groups.len() {
                return None;
            }
            let i = match lookup(&elysia.groups[*gp as usize].indices, id) {
                Some(i) => i,
                None => return None,
            };
            proof {
                lemma_values(elems@);
            }
            if i as usize >= elems.len() || dst as usize >= n {
                return None;
            }
            let o = elems[i as usize].dup();
            rt.store(dst, o);
        },
        _ => return Some(Err(Fault::DataType(tmp, "group"))),
    }
    Some(Ok(Step::Next))
}

/// Runs `Unpack` on the machine, whose program counter has already moved
/// past it.
fn exec_unpack<F: Fn(BinOp, u32, u32) -> u32>(elysia: &Elysia, rt: &mut Runtime, dst: Reg, src: Reg, idx: Index, float: &F) -> (r: Option<Result<Step, Fault>>)
    requires
        forall|o: BinOp, x: u32, y: u32| float.requires((o, x, y)),
    ensures
        step_done(effect(elysia@, old(rt)@, BytecodeV::Unpack(dst, src, idx)), old(rt)@, r, final(rt)@, *float),
{
    let n = rt.width();
    if src as usize >= n {
        return None;
    }
    let tmp = rt.load(src);
    match &tmp {
        Object::Tuple(objs) => {
            proof {
                lemma_values(objs@);
            }
            if idx as usize >= objs.len() {
                return Some(Err(Fault::NotEnoughToUnpack(tmp.dup(), idx)));
            }
            if dst as usize >= n {
                return None;
            }
            let o = objs[idx as usize].dup();
            rt.store(dst, o);
        },
        _ => return Some(Err(Fault::DataType(tmp, "tuple"))),
    }
    Some(Ok(Step::Next))
}

/// Runs `Pointer` on the machine, whose program counter has already moved
/// past it.
fn exec_pointer<F: Fn(BinOp, u32, u32) -> u32>(elysia: &Elysia, rt: &mut Runtime, dst: Reg, pt: Pointer, idx: Index, float: &F) -> (r: Option<Result<Step, Fault>>)
    requires
        forall|o: BinOp, x: u32, y: u32| float.requires((o, x, y)),
    ensures
        step_done(effect(elysia@, old(rt)@, BytecodeV::Pointer(dst, pt, idx)), old(rt)@, r, final(rt)@, *float),
{
    let n = rt.width();
    if dst as usize >= n {
        return None;
    }
    rt.store(dst, Object::Pointer(pt, idx));
    Some(Ok(Step::Next))
}

/// Runs `Load` on the machine, whose program counter has already moved
/// past it.
fn exec_load<F: Fn(BinOp, u32, u32) -> u32>(elysia: &Elysia, rt: &mut Runtime, dst: Reg, idx: Index, float: &F) -> (r: Option<Result<Step, Fault>>)
    requires
        forall|o: BinOp, x: u32, y: u32| float.requires((o, x, y)),
    ensures
        step_done(effect(elysia@, old(rt)@, BytecodeV::Load(dst, idx)), old(rt)@, r, final(rt)@, *float),
{
    let n = rt.width();
    if idx as usize >= elysia.data.len() || dst as usize >= n {
        return None;
    }
    let o = from_const(&elysia.data[idx as usize]);
    rt.store(dst, o);
    Some(Ok(Step::Next))
}

/// Runs `Binary` on the machine, whose program counter has already moved
/// past it.
fn exec_binary<F: Fn(BinOp, u32, u32) -> u32>(elysia: &Elysia, rt: &mut Runtime, dst: Reg, lhs: Reg, op: BinOp, rhs: Reg, float: &F) -> (r: Option<Result<Step, Fault>>)
    requires
        forall|o: BinOp, x: u32, y: u32| float.requires((o, x, y)),
    ensures
        step_done(effect(elysia@, old(rt)@, BytecodeV::Binary(dst, lhs, op, rhs)), old(rt)@, r, final(rt)@, *float),
{
    let n = rt.width();
    if lhs as usize >= n || rhs as usize >= n {
        return None;
    }
    let l = rt.load(lhs);
    let r = rt.load(rhs);
    if let BinOp::Mod = op {
        if let (Object::Int(x), Object::Int(y)) = (&l, &r) {
            if x.checked_rem(*y).is_none() {
                return None;
            }
        }
    }
    let o = match l.binary(&op, &r, float) {
        Ok(o) => o,
        Err(e) => return Some(Err(e)),
    };
    if dst as usize >= n {
        return None;
    }
    rt.store(dst, o);
    Some(Ok(Step::Next))
}

/// Runs `Unary` on the machine, whose program counter has already moved
/// past it.
fn exec_unary<F: Fn(BinOp, u32, u32) -> u32>(elysia: &Elysia, rt: &mut Runtime, dst: Reg, op: UnaOp, src: Reg, float: &F) -> (r: Option<Result<Step, Fault>>)
    requires
        forall|o: BinOp, x: u32, y: u32| float.requires((o, x, y)),
    ensures
        step_done(effect(elysia@, old(rt)@, BytecodeV::Unary(dst, op, src)), old(rt)@, r, final(rt)@, *float),
{
    let n = rt.width();
    if src as usize >= n {
        return None;
    }
    let s = rt.load(src);
    if let UnaOp::Neg = op {
        if let Object::Int(x) = &s {
            if *x == i32::MIN {
                return None;
            }
        }
    }
    let o = match s.unary(&op) {
        Ok(o) => o,
        Err(e) => return Some(Err(e)),
    };
    if dst as usize >= n {
        return None;
    }
    rt.store(dst, o);
    Some(Ok(Step::Next))
}

/// Runs `Call` on the machine, whose program counter has already moved
/// past it.
fn exec_call<F: Fn(BinOp, u32, u32) -> u32>(elysia: &Elysia, rt: &mut Runtime, dst: Reg, src: Reg, args: &Vec<Reg>, float: &F) -> (r: Option<Result<Step, Fault>>)
    requires
        forall|o: BinOp, x: u32, y: u32| float.requires((o, x, y)),
    ensures
        step_done(effect(elysia@, old(rt)@, BytecodeV::Call(dst, src, args@)), old(rt)@, r, final(rt)@, *float),
{
    let n = rt.width();
    if src as usize >= n {
        return None;
    }
    let target = rt.load(src);
    match &target {
        Object::Pointer(Pointer::Function, idx) => {
            return call_function(elysia, rt, dst, *idx, args.clone());
        },
        Object::Pointer(Pointer::Group, idx) => {
            if *idx as usize >= elysia.groups.len() {
                return None;
            }
            let objs = match rt.gather(args) {
                Some(objs) => objs,
                None => return None,
            };
            let expected = elysia.groups[*idx as usize].indices.len();
            if expected != args.len() {
                return Some(Err(Fault::NumArgsNotMatch(expected, args.len())));
            }
            if dst as usize >= n {
                return None;
            }
            rt.store(dst, Object::Group(*idx, objs));
        },
        Object::Pointer(Pointer::Rust, idx) => {
            let objs = match rt.gather(args) {
                Some(objs) => objs,
                None => return None,
            };
            return Some(Ok(Step::Foreign(dst, *idx, objs)));
        },
        _ => return Some(Err(Fault::DataType(target, "ptr"))),
    }
    Some(Ok(Step::Next))
}

/// Runs `List` on the machine, whose program counter has already moved
/// past it.
fn exec_list<F: Fn(BinOp, u32, u32) -> u32>(elysia: &Elysia, rt: &mut Runtime, dst: Reg, args: &Vec<Reg>, float: &F) -> (r: Option<Result<Step, Fault>>)
    requires
        forall|o: BinOp, x: u32, y: u32| float.requires((o, x, y)),
    ensures
        step_done(effect(elysia@, old(rt)@, BytecodeV::List(dst, args@)), old(rt)@, r, final(rt)@, *float),
{
    let n = rt.width();
    let objs = match rt.gather(args) {
        Some(objs) => objs,
        None => return None,
    };
    if dst as usize >= n {
        return None;
    }
    rt.store(dst, Object::List(objs));
    Some(Ok(Step::Next))
}

/// Runs `Tuple` on the machine, whose program counter has already moved
/// past it.
fn exec_tuple<F: Fn(BinOp, u32, u32) -> u32>(elysia: &Elysia, rt: &mut Runtime, dst: Reg, args: &Vec<Reg>, float: &F) -> (r: Option<Result<Step, Fault>>)
    requires
        forall|o: BinOp, x: u32, y: u32| float.requires((o, x, y)),
    ensures
        step_done(effect(elysia@, old(rt)@, BytecodeV::Tuple(dst, args@)), old(rt)@, r, final(rt)@, *float),
{
    let n = rt.width();
    let objs = match rt.gather(args) {
        Some(objs) => objs,
        None => return None,
    };
    if dst as usize >= n {
        return None;
    }
    rt.store(dst, Object::Tuple(objs));
    Some(Ok(Step::Next))
}

/// Runs `Index` on the machine, whose program counter has already moved
/// past it.
fn exec_index<F: Fn(BinOp, u32, u32) -> u32>(elysia: &Elysia, rt: &mut Runtime, dst: Reg, src: Reg, index: Reg, float: &F) -> (r: Option<Result<Step, Fault>>)
    requires
        forall|o: BinOp, x: u32, y: u32| float.requires((o, x, y)),
    ensures
        step_done(effect(elysia@, old(rt)@, BytecodeV::Index(dst, src, index)), old(rt)@, r, final(rt)@, *float),
{
    let n = rt.width();
    if src as usize >= n {
        return None;
    }
    let tmp = rt.load(src);
    match &tmp {
        Object::List(items) => {
            if index as usize >= n {
                return None;
            }
            let k = rt.load(index);
            let i = match k {
                Object::Int(i) => i,
                _ => return Some(Err(Fault::DataType(k, "int"))),
            };
            proof {
                lemma_values(items@);
            }
            let at: usize = if i >= 0 {
                i as usize
            } else {
                let back: usize = if i == i32::MIN { 2147483648usize } else { (-i) as usize };
                if back > items.len() {
                    return Some(Err(Fault::IndexOutOfBounds(tmp.dup(), i)));
                }
                items.len() - back
            };
            if at >= items.len() {
                return Some(Err(Fault::IndexOutOfBounds(tmp.dup(), i)));
            }
            if dst as usize >= n {
                return None;
            }
            let o = items[at].dup();
            rt.store(dst, o);
        },
        _ => return Some(Err(Fault::DataType(tmp, "list"))),
    }
    Some(Ok(Step::Next))
}

/// Runs `Method` on the machine, whose program counter has already moved
/// past it.
fn exec_method<F: Fn(BinOp, u32, u32) -> u32>(elysia: &Elysia, rt: &mut Runtime, dst: Reg, src: Reg, id: Id, args: &Vec<Reg>, float: &F) -> (r: Option<Result<Step, Fault>>)
    requires
        forall|o: BinOp, x: u32, y: u32| float.requires((o, x, y)),
    ensures
        step_done(effect(elysia@, old(rt)@, BytecodeV::Method(dst, src, id, args@)), old(rt)@, r, final(rt)@, *float),
{
    let n = rt.width();
    if src as usize >= n {
        return None;
    }
    let target = rt.load(src);
    match &target {
        Object::Group(gp, _) => {
            if *gp as usize >= elysia.groups.len() {
                return None;
            }
            let m = match lookup(&elysia.groups[*gp as usize].methods, id) {
                Some(m) => m,
                None => return None,
            };
            let mut all = args.clone();
            all.push(src);
            call_function(elysia, rt, dst, m, all)
        },
        _ => Some(Err(Fault::DataType(target, "group"))),
    }
}

/// Runs `Branch` on the machine, whose program counter has already moved
/// past it.
fn exec_branch<F: Fn(BinOp, u32, u32) -> u32>(elysia: &Elysia, rt: &mut Runtime, cond: Reg, yes: Index, no: Index, float: &F) -> (r: Option<Result<Step, Fault>>)
    requires
        forall|o: BinOp, x: u32, y: u32| float.requires((o, x, y)),
    ensures
        step_done(effect(elysia@, old(rt)@, BytecodeV::Branch(cond, yes, no)), old(rt)@, r, final(rt)@, *float),
{
    let n = rt.width();
    if cond as usize >= n {
        return None;
    }
    match rt.load(cond) {
        Object::Bool(b) => rt.goto(if b { yes } else { no }),
        o => return Some(Err(Fault::DataType(o, "bool"))),
    }
    Some(Ok(Step::Next))
}

/// Runs `Jump` on the machine, whose program counter has already moved
/// past it.
fn exec_jump<F: Fn(BinOp, u32, u32) -> u32>(elysia: &Elysia, rt: &mut Runtime, target: Index, float: &F) -> (r: Option<Result<Step, Fault>>)
    requires
        forall|o: BinOp, x: u32, y: u32| float.requires((o, x, y)),
    ensures
        step_done(effect(elysia@, old(rt)@, BytecodeV::Jump(target)), old(rt)@, r, final(rt)@, *float),
{
    let n = rt.width();
    rt.goto(target);
    Some(Ok(Step::Next))
}

/// Runs `Return` on the machine, whose program counter has already moved
/// past it.
fn exec_return<F: Fn(BinOp, u32, u32) -> u32>(elysia: &Elysia, rt: &mut Runtime, src: Reg, float: &F) -> (r: Option<Result<Step, Fault>>)
    requires
        forall|o: BinOp, x: u32, y: u32| float.requires((o, x, y)),
    ensures
        step_done(effect(elysia@, old(rt)@, BytecodeV::Return(src)), old(rt)@, r, final(rt)@, *float),
{
    let n = rt.width();
    if src as usize >= n {
        return None;
    }
    let o = rt.load(src);
    if rt.stack.len() == 0 {
        return Some(Ok(Step::Exit(o)));
    }
    if !rt.ret(o) {
        return None;
    }
    Some(Ok(Step::Next))
}

/// Runs `Copy` on the machine, whose program counter has already moved
/// past it.
fn exec_copy<F: Fn(BinOp, u32, u32) -> u32>(elysia: &Elysia, rt: &mut Runtime, dst: Reg, src: Reg, float: &F) -> (r: Option<Result<Step, Fault>>)
    requires
        forall|o: BinOp, x: u32, y: u32| float.requires((o, x, y)),
    ensures
        step_done(effect(elysia@, old(rt)@, BytecodeV::Copy(dst, src)), old(rt)@, r, final(rt)@, *float),
{
    let n = rt.width();
    if src as usize >= n || dst as usize >= n {
        return None;
    }
    let o = rt.load(src);
    rt.store(dst, o);
    Some(Ok(Step::Next))
}

/// Calls function `idx` with the argument registers `args`; its result
/// goes to `dst`.
fn call_function(elysia: &Elysia, rt: &mut Runtime, dst: Reg, idx: Index, args: Vec<Reg>) -> (r: Option<Result<Step, Fault>>)
    ensures
        match invoke(elysia@, old(rt)@, dst, idx, args@) {
            Effect::Go(next, s) => r matches Some(Ok(st)) && step_value(st) == s && final(rt)@ == next,
            Effect::Fail(f) => r matches Some(Err(x)) && fault_value(x) == f && final(rt)@ == old(rt)@,
            _ => r is None,
        },
{
    if idx as usize >= elysia.text.len() {
        return None;
    }
    let f = match elysia.text[idx as usize].frame(args) {
        Ok(f) => f,
        Err(e) => return Some(Err(e)),
    };
    rt.call(dst, idx, f);
    Some(Ok(Step::Next))
}

impl Elysia {
    /// The machine at the start of the program, with `args` as the
    /// program's argument; refused when the main function does not take
    /// exactly one argument.
    pub fn init(&self, args: Object) -> (r: Result<Runtime, Fault>)
        ensures
            match r {
                Ok(rt) => self.main.args == 1 && rt@ == (RuntimeV {
                    args: value(args),
                    rets: Seq::empty(),
                    main: fresh(self@.main, seq![1u8]),
                    stack: Seq::empty(),
                }),
                Err(e) => self.main.args != 1 && e == Fault::NumArgsNotMatch(self.main.args as usize, 1),
            },
    {
        let mut regs: Vec<Reg> = Vec::new();
        regs.push(1);
        let main = self.main.frame(regs)?;
        let rt = Runtime { args, rets: Vec::new(), main, stack: Vec::new() };
        assert(rt@.rets =~= Seq::<Reg>::empty());
        assert(frames(rt.stack@) =~= Seq::<(Index, FrameV)>::empty());
        Ok(rt)
    }

    /// One step of the machine: fetches the bytecode the running frame
    /// points to, moves past it and runs it; `None` when the machine cannot
    /// go on.
    pub fn step<F: Fn(BinOp, u32, u32) -> u32>(&self, rt: &mut Runtime, float: &F) -> (r: Option<Result<Step, Fault>>)
        requires
            forall|o: BinOp, x: u32, y: u32| float.requires((o, x, y)),
        ensures
            step_done(stepped(self@, old(rt)@), advanced(old(rt)@), r, final(rt)@, *float),
    {
        let code: &Callable = match rt.callee() {
            None => &self.main,
            Some(i) => {
                if i as usize >= self.text.len() {
                    return None;
                }
                &self.text[i as usize]
            },
        };
        let pc = rt.pc();
        if pc as usize >= code.bytecodes.len() || pc == u32::MAX {
            return None;
        }
        rt.goto(pc + 1);
        assert(code.bytecodes@[pc as int]@ == code@.bytecodes[pc as int]);
        code.bytecodes[pc as usize].exec(self, rt, float)
    }
}

/// A call followed by its return: whatever the callee did to its own frame,
/// returning `v` leaves the caller's state as it was, with `v` in the
/// register that waited for it.
pub proof fn law_call_return(rt: RuntimeV, dst: Reg, idx: Index, f: FrameV, g: FrameV, v: ObjectV)
    requires
        has_reg(rt, dst),
    ensures
        returned(put_top(pushed(rt, dst, idx, f), g), v) == Effect::Go(stored(rt, dst, v), StepV::Next),
{
    let inner = put_top(pushed(rt, dst, idx, f), g);
    assert(inner.rets.drop_last() =~= rt.rets);
    assert(inner.stack.drop_last() =~= rt.stack);
}

impl Object {
    /// The elements of a list.
    pub fn list(&self) -> (r: Result<&Vec<Object>, Fault>)
        ensures
            match self {
                Object::List(v) => r matches Ok(w) && w == v,
                _ => r matches Err(Fault::DataType(o, t)) && value(o) == value(*self) && t == "list",
            },
    {
        match self {
            Object::List(v) => Ok(v),
            _ => Err(Fault::DataType(self.dup(), "list")),
        }
    }

    /// The elements of a tuple.
    pub fn tuple(&self) -> (r: Result<&Vec<Object>, Fault>)
        ensures
            match self {
                Object::Tuple(v) => r matches Ok(w) && w == v,
                _ => r matches Err(Fault::DataType(o, t)) && value(o) == value(*self) && t == "tuple",
            },
    {
        match self {
            Object::Tuple(v) => Ok(v),
            _ => Err(Fault::DataType(self.dup(), "tuple")),
        }
    }

    /// The group index and the fields of a group.
    pub fn group(&self) -> (r: Result<(Index, &Vec<Object>), Fault>)
        ensures
            match self {
                Object::Group(g, v) => r matches Ok(x) && x.0 == g && x.1 == v,
                _ => r matches Err(Fault::DataType(o, t)) && value(o) == value(*self) && t == "group",
            },
    {
        match self {
            Object::Group(g, v) => Ok((*g, v)),
            _ => Err(Fault::DataType(self.dup(), "group")),
        }
    }

    /// The kind and index of a pointer.
    pub fn pointer(&self) -> (r: Result<(Pointer, Index), Fault>)
        ensures
            match self {
                Object::Pointer(p, i) => r matches Ok(x) && x == (*p, *i),
                _ => r matches Err(Fault::DataType(o, t)) && value(o) == value(*self) && t == "ptr",
            },
    {
        match self {
            Object::Pointer(p, i) => Ok((*p, *i)),
            _ => Err(Fault::DataType(self.dup(), "ptr")),
        }
    }

    /// The boolean of a boolean.
    pub fn bool(&self) -> (r: Result<bool, Fault>)
        ensures
            match self {
                Object::Bool(b) => r matches Ok(x) && x == *b,
                _ => r matches Err(Fault::DataType(o, t)) && value(o) == value(*self) && t == "bool",
            },
    {
        match self {
            Object::Bool(b) => Ok(*b),
            _ => Err(Fault::DataType(self.dup(), "bool")),
        }
    }

    /// The integer of an integer.
    pub fn integer(&self) -> (r: Result<i32, Fault>)
        ensures
            match self {
                Object::Int(x) => r matches Ok(y) && y == *x,
                _ => r matches Err(Fault::DataType(o, t)) && value(o) == value(*self) && t == "int",
            },
    {
        match self {
            Object::Int(x) => Ok(*x),
            _ => Err(Fault::DataType(self.dup(), "int")),
        }
    }

    /// The bit pattern of a float.
    pub fn float(&self) -> (r: Result<u32, Fault>)
        ensures
            match self {
                Object::Float(x) => r matches Ok(y) && y == *x,
                _ => r matches Err(Fault::DataType(o, t)) && value(o) == value(*self) && t == "float",
            },
    {
        match self {
            Object::Float(x) => Ok(*x),
            _ => Err(Fault::DataType(self.dup(), "float")),
        }
    }

    /// The text of a string.
    pub fn str(&self) -> (r: Result<&String, Fault>)
        ensures
            match self {
                Object::Str(x) => r matches Ok(y) && y == x,
                _ => r matches Err(Fault::DataType(o, t)) && value(o) == value(*self) && t == "str",
            },
    {
        match self {
            Object::Str(x) => Ok(x),
            _ => Err(Fault::DataType(self.dup(), "str")),
        }
    }
}

/// Each pending call has a register waiting for its result.
pub open spec fn balanced(rt: RuntimeV) -> bool {
    rt.rets.len() == rt.stack.len()
}

/// Every step keeps one waiting register per pending call.
pub proof fn law_steps_stay_balanced(p: ProgramV, rt: RuntimeV)
    requires
        balanced(rt),
    ensures
        stepped(p, rt) matches Effect::Go(next, _) ==> balanced(next),
        stepped(p, rt) matches Effect::Arith(dst, _, _, _) ==> forall|z: u32| balanced(#[trigger] stored(advanced(rt), dst, ObjectV::Float(z))),
{
    let a = advanced(rt);
    assert(balanced(a));
    assert forall|dst: Reg, z: u32| balanced(#[trigger] stored(a, dst, ObjectV::Float(z))) by {}
}


/// On two integers the machine's `+`, `-` and `*` give the sum, the
/// difference (the left operand minus the right) and the product when it
/// fits an `i32`, and refuse it when it does not; `/` truncates, giving a
/// quotient that times the divisor leaves a remainder smaller than the
/// divisor with the sign of the dividend, and refuses zero divisors.
pub proof fn law_int_arith<F: Fn(BinOp, u32, u32) -> u32>(op: BinOp, x: i32, y: i32, r: Result<Object, Fault>, float: F)
    requires
        binary_done(fold_binary(op, ObjectV::Int(x), ObjectV::Int(y)), r, float),
    ensures
        op is Add && i32::MIN <= x + y <= i32::MAX ==> (r matches Ok(o) && value(o) == ObjectV::Int((x + y) as i32)),
        op is Sub && i32::MIN <= x - y <= i32::MAX ==> (r matches Ok(o) && value(o) == ObjectV::Int((x - y) as i32)),
        op is Mul && i32::MIN <= x * y <= i32::MAX ==> (r matches Ok(o) && value(o) == ObjectV::Int((x * y) as i32)),
        op is Add && !(i32::MIN <= x + y <= i32::MAX) ==> r is Err,
        op is Sub && !(i32::MIN <= x - y <= i32::MAX) ==> r is Err,
        op is Mul && !(i32::MIN <= x * y <= i32::MAX) ==> r is Err,
        op is Div && (y == 0 || (x == i32::MIN && y == -1)) ==> r is Err,
        op is Div && y != 0 && !(x == i32::MIN && y == -1) ==> (r matches Ok(o) && value(o) matches ObjectV::Int(q)
            && {
            let m = x - q * y;
            &&& y > 0 ==> -y < m < y
            &&& y < 0 ==> y < m < -y
            &&& m == 0 || (m < 0) == (x < 0)
        }),
        op is Mod ==> y != 0 && !(x == i32::MIN && y == -1) && (r matches Ok(o) && value(o) matches ObjectV::Int(m) && {
            &&& y > 0 ==> -y < m < y
            &&& y < 0 ==> y < m < -y
            &&& m == 0 || (m < 0) == (x < 0)
        }),
{
    crate::eval::lemma_div_rem(x, y);
}

/// The machine's `/` and `%` on the same two integers agree: the quotient
/// times the divisor plus the remainder gives the dividend back.
pub proof fn law_div_mod<F: Fn(BinOp, u32, u32) -> u32>(
    x: i32,
    y: i32,
    rq: Result<Object, Fault>,
    rm: Result<Object, Fault>,
    float: F,
)
    requires
        binary_done(fold_binary(BinOp::Div, ObjectV::Int(x), ObjectV::Int(y)), rq, float),
        binary_done(fold_binary(BinOp::Mod, ObjectV::Int(x), ObjectV::Int(y)), rm, float),
    ensures
        rq matches Ok(a) && rm matches Ok(b) && value(a) matches ObjectV::Int(q) && value(b) matches ObjectV::Int(m)
            && q * y + m == x,
{
    crate::eval::lemma_div_rem(x, y);
}

/// The machine compares two integers by their order: `<=` is true exactly
/// when the left is below or equal to the right, `==` exactly when they are
/// the same integer.
pub proof fn law_int_order<F: Fn(BinOp, u32, u32) -> u32>(op: BinOp, x: i32, y: i32, r: Result<Object, Fault>, float: F)
    requires
        binary_done(fold_binary(op, ObjectV::Int(x), ObjectV::Int(y)), r, float),
    ensures
        op is Lt ==> (r matches Ok(o) && value(o) == ObjectV::Bool(x < y)),
        op is Gt ==> (r matches Ok(o) && value(o) == ObjectV::Bool(y < x)),
        op is Le ==> (r matches Ok(o) && value(o) == ObjectV::Bool(x < y || x == y)),
        op is Ge ==> (r matches Ok(o) && value(o) == ObjectV::Bool(y < x || x == y)),
        op is Eq ==> (r matches Ok(o) && value(o) == ObjectV::Bool(x == y)),
        op is Ne ==> (r matches Ok(o) && value(o) == ObjectV::Bool(x != y)),
{
}

/// `and` and `or` on two booleans give their conjunction and disjunction.
pub proof fn law_bool_logic<F: Fn(BinOp, u32, u32) -> u32>(op: BinOp, x: bool, y: bool, r: Result<Object, Fault>, float: F)
    requires
        binary_done(fold_binary(op, ObjectV::Bool(x), ObjectV::Bool(y)), r, float),
    ensures
        op is And ==> (r matches Ok(o) && value(o) == ObjectV::Bool(x && y)),
        op is Or ==> (r matches Ok(o) && value(o) == ObjectV::Bool(x || y)),
        op is Eq ==> (r matches Ok(o) && value(o) == ObjectV::Bool(x == y)),
        op is Ne ==> (r matches Ok(o) && value(o) == ObjectV::Bool(x != y)),
{
}

/// `!=` answers the opposite of `==` on the same objects, and refuses
/// what `==` refuses.
pub proof fn law_ne_negates_eq<F: Fn(BinOp, u32, u32) -> u32>(
    l: ObjectV,
    rr: ObjectV,
    r1: Result<Object, Fault>,
    r2: Result<Object, Fault>,
    float: F,
)
    requires
        binary_done(fold_binary(BinOp::Eq, l, rr), r1, float),
        binary_done(fold_binary(BinOp::Ne, l, rr), r2, float),
    ensures
        r1 is Ok <==> r2 is Ok,
        r1 matches Ok(a) ==> (r2 matches Ok(b) && value(a) matches ObjectV::Bool(x) && value(b) == ObjectV::Bool(!x)),
{
}

/// Negating an integer gives its opposite, `not` a boolean its negation.
pub proof fn law_unary(op: UnaOp, o: ObjectV, r: Result<Object, Fault>)
    requires
        unary_done(fold_unary(op, o), r),
    ensures
        op is Neg ==> (o matches ObjectV::Int(x) ==> x != i32::MIN && (r matches Ok(p) && value(p) matches ObjectV::Int(
            z,
        ) && z + x == 0)),
        op is Not ==> (o matches ObjectV::Bool(b) ==> (r matches Ok(p) && value(p) == ObjectV::Bool(!b))),
{
}

/// `Copy(dst, src)` puts in register `dst` what register `src` held, and
/// leaves every other register, the program counter and the call stack as
/// they were.
pub proof fn law_copy(p: ProgramV, rt: RuntimeV, dst: Reg, src: Reg)
    requires
        has_reg(rt, dst),
        has_reg(rt, src),
    ensures
        effect(p, rt, BytecodeV::Copy(dst, src)) matches Effect::Go(rt2, s) && s == StepV::Next && {
            let a = top(rt).registers;
            let b = top(rt2).registers;
            &&& b.len() == a.len()
            &&& b[dst as int] == a[src as int]
            &&& forall|i: int| 0 <= i < a.len() && i != dst ==> b[i] == a[i]
            &&& top(rt2).pc == top(rt).pc
            &&& rt2.stack.len() == rt.stack.len()
        },
{
}

/// `Branch(cond, yes, no)` on a register holding a boolean goes on at
/// `yes` when it is true and at `no` when it is false, keeping the
/// registers.
pub proof fn law_branch(p: ProgramV, rt: RuntimeV, cond: Reg, yes: Index, no: Index, b: bool)
    requires
        has_reg(rt, cond),
        top(rt).registers[cond as int] == ObjectV::Bool(b),
    ensures
        effect(p, rt, BytecodeV::Branch(cond, yes, no)) matches Effect::Go(rt2, s) && s == StepV::Next && {
            &&& b ==> top(rt2).pc == yes
            &&& !b ==> top(rt2).pc == no
            &&& top(rt2).registers == top(rt).registers
            &&& rt2.stack.len() == rt.stack.len()
        },
{
}

/// `Binary(dst, l, op, r)` on two integer registers puts in `dst` the
/// result of `op` with register `l` on the left and register `r` on the
/// right (for `-`, `l` minus `r`), keeping the other registers.
pub proof fn law_binary_step(p: ProgramV, rt: RuntimeV, dst: Reg, l: Reg, op: BinOp, r: Reg, x: i32, y: i32)
    requires
        has_reg(rt, dst),
        has_reg(rt, l),
        has_reg(rt, r),
        top(rt).registers[l as int] == ObjectV::Int(x),
        top(rt).registers[r as int] == ObjectV::Int(y),
    ensures
        op is Sub && i32::MIN <= x - y <= i32::MAX ==> (effect(p, rt, BytecodeV::Binary(dst, l, op, r)) matches Effect::Go(rt2, s)
            && s == StepV::Next && top(rt2).registers[dst as int] == ObjectV::Int((x - y) as i32) && forall|i: int|
            0 <= i < top(rt).registers.len() && i != dst ==> top(rt2).registers[i] == top(rt).registers[i]),
        op is Lt ==> (effect(p, rt, BytecodeV::Binary(dst, l, op, r)) matches Effect::Go(rt2, s) && s == StepV::Next
            && top(rt2).registers[dst as int] == ObjectV::Bool(x < y)),
        op is Add && i32::MIN <= x + y <= i32::MAX ==> (effect(p, rt, BytecodeV::Binary(dst, l, op, r)) matches Effect::Go(rt2, s)
            && s == StepV::Next && top(rt2).registers[dst as int] == ObjectV::Int((x + y) as i32)),
{
}

/// `Load(dst, idx)` puts in `dst` the object of the constant `idx` of the
/// program: an integer, float, boolean or string of the same value.
pub proof fn law_load(p: ProgramV, rt: RuntimeV, dst: Reg, idx: Index)
    requires
        has_reg(rt, dst),
        (idx as int) < p.data.len(),
    ensures
        effect(p, rt, BytecodeV::Load(dst, idx)) matches Effect::Go(rt2, s) && s == StepV::Next && {
            let o = top(rt2).registers[dst as int];
            &&& p.data[idx as int] matches ConstV::Int(x) ==> o == ObjectV::Int(x)
            &&& p.data[idx as int] matches ConstV::Float(x) ==> o == ObjectV::Float(x)
            &&& p.data[idx as int] matches ConstV::Bool(x) ==> o == ObjectV::Bool(x)
            &&& p.data[idx as int] matches ConstV::Str(x) ==> o == ObjectV::Str(x)
            &&& forall|i: int| 0 <= i < top(rt).registers.len() && i != dst ==> top(rt2).registers[i] == top(rt).registers[i]
        },
{
}

/// `Jump(target)` goes on at `target`, keeping the registers.
pub proof fn law_jump(p: ProgramV, rt: RuntimeV, target: Index)
    ensures
        effect(p, rt, BytecodeV::Jump(target)) matches Effect::Go(rt2, s) && s == StepV::Next && top(rt2).pc == target
            && top(rt2).registers == top(rt).registers,
{
}

/// `Return(src)` in `main` ends the program with what register `src`
/// holds.
pub proof fn law_return_main(p: ProgramV, rt: RuntimeV, src: Reg)
    requires
        has_reg(rt, src),
        rt.stack.len() == 0,
    ensures
        effect(p, rt, BytecodeV::Return(src)) == Effect::Go(rt, StepV::Exit(top(rt).registers[src as int])),
{
}

/// `List(dst, args)` and `Tuple(dst, args)` put in `dst` the objects of
/// the registers `args`, in their order.
pub proof fn law_gather(p: ProgramV, rt: RuntimeV, dst: Reg, args: Seq<Reg>)
    requires
        has_reg(rt, dst),
        forall|i: int| 0 <= i < args.len() ==> has_reg(rt, #[trigger] args[i]),
    ensures
        effect(p, rt, BytecodeV::List(dst, args)) matches Effect::Go(rt2, s) && top(rt2).registers[dst as int] matches ObjectV::List(
            items,
        ) && items.len() == args.len() && forall|i: int|
            0 <= i < args.len() ==> items[i] == top(rt).registers[#[trigger] args[i] as int],
        effect(p, rt, BytecodeV::Tuple(dst, args)) matches Effect::Go(rt2, s) && top(rt2).registers[dst as int] matches ObjectV::Tuple(
            items,
        ) && items.len() == args.len() && forall|i: int|
            0 <= i < args.len() ==> items[i] == top(rt).registers[#[trigger] args[i] as int],
{
}

/// `Index(dst, src, index)` on a list and an integer `i` puts in `dst`
/// the item at `i`, counted from the end when `i` is negative, and fails
/// past either end.
pub proof fn law_index(p: ProgramV, rt: RuntimeV, dst: Reg, src: Reg, index: Reg, items: Seq<ObjectV>, i: i32)
    requires
        has_reg(rt, dst),
        has_reg(rt, src),
        has_reg(rt, index),
        top(rt).registers[src as int] == ObjectV::List(items),
        top(rt).registers[index as int] == ObjectV::Int(i),
    ensures
        0 <= i < items.len() ==> (effect(p, rt, BytecodeV::Index(dst, src, index)) matches Effect::Go(rt2, s)
            && top(rt2).registers[dst as int] == items[i as int]),
        i < 0 && 0 <= items.len() + i ==> (effect(p, rt, BytecodeV::Index(dst, src, index)) matches Effect::Go(rt2, s)
            && top(rt2).registers[dst as int] == items[items.len() + i]),
        (i >= items.len() || items.len() + i < 0) ==> effect(p, rt, BytecodeV::Index(dst, src, index)) is Fail,
{
}

/// A call passes its argument registers in order: once `Call(d, src, args)`
/// has entered function `idx`, the callee's `Arg(dst, k)` reads what the
/// caller's register `args[k]` held, and the callee starts at its first
/// bytecode.
pub proof fn law_call_arg(p: ProgramV, rt: RuntimeV, d: Reg, src: Reg, args: Seq<Reg>, idx: Index, dst: Reg, k: int)
    requires
        has_reg(rt, src),
        top(rt).registers[src as int] == ObjectV::Pointer(Pointer::Function, idx),
        (idx as int) < p.text.len(),
        p.text[idx as int].args as int == args.len(),
        0 <= k < args.len(),
        k <= u32::MAX,
        has_reg(rt, args[k]),
        (dst as int) < p.text[idx as int].registers,
    ensures
        effect(p, rt, BytecodeV::Call(d, src, args)) matches Effect::Go(rt2, s) && top(rt2).pc == 0 && (effect(
            p,
            rt2,
            BytecodeV::Arg(dst, k as Index),
        ) matches Effect::Go(rt3, s3) && top(rt3).registers[dst as int] == top(rt).registers[args[k] as int]),
{
}

/// A method call passes the receiver after the arguments: once
/// `Method(d, src, id, args)` has entered the method, its `Arg(dst, k)`
/// reads the caller's register `args[k]` for `k` below the number of
/// arguments, and the receiver in `src` for `k` equal to it.
pub proof fn law_method_arg(
    p: ProgramV,
    rt: RuntimeV,
    d: Reg,
    src: Reg,
    id: Id,
    args: Seq<Reg>,
    gp: Index,
    fields: Seq<ObjectV>,
    m: Index,
    dst: Reg,
    k: int,
)
    requires
        has_reg(rt, src),
        top(rt).registers[src as int] == ObjectV::Group(gp, fields),
        (gp as int) < p.groups.len(),
        find(p.groups[gp as int].methods, id) == Some(m),
        (m as int) < p.text.len(),
        p.text[m as int].args as int == args.len() + 1,
        0 <= k <= args.len(),
        k <= u32::MAX,
        k < args.len() ==> has_reg(rt, args[k]),
        (dst as int) < p.text[m as int].registers,
    ensures
        effect(p, rt, BytecodeV::Method(d, src, id, args)) matches Effect::Go(rt2, s) && (effect(
            p,
            rt2,
            BytecodeV::Arg(dst, k as Index),
        ) matches Effect::Go(rt3, s3) && top(rt3).registers[dst as int] == if k < args.len() {
            top(rt).registers[args[k] as int]
        } else {
            top(rt).registers[src as int]
        }),
{
}

/// `+` on two strings joins them, the left one first; `-` on strings is
/// refused.
pub proof fn law_str_join<F: Fn(BinOp, u32, u32) -> u32>(
    op: BinOp,
    x: Seq<char>,
    y: Seq<char>,
    r: Result<Object, Fault>,
    float: F,
)
    requires
        binary_done(fold_binary(op, ObjectV::Str(x), ObjectV::Str(y)), r, float),
    ensures
        op is Add ==> (r matches Ok(o) && value(o) matches ObjectV::Str(z) && z.len() == x.len() + y.len() && z.take(
            x.len() as int,
        ) == x && z.skip(x.len() as int) == y),
        op is Sub ==> r is Err,
{
    assert((x + y).take(x.len() as int) =~= x);
    assert((x + y).skip(x.len() as int) =~= y);
}

/// `Unpack(dst, src, idx)` on a tuple puts in `dst` its item `idx`, and
/// fails when the tuple is shorter.
pub proof fn law_unpack(p: ProgramV, rt: RuntimeV, dst: Reg, src: Reg, idx: Index, items: Seq<ObjectV>)
    requires
        has_reg(rt, dst),
        has_reg(rt, src),
        top(rt).registers[src as int] == ObjectV::Tuple(items),
    ensures
        (idx as int) < items.len() ==> (effect(p, rt, BytecodeV::Unpack(dst, src, idx)) matches Effect::Go(rt2, s)
            && top(rt2).registers[dst as int] == items[idx as int]),
        (idx as int) >= items.len() ==> effect(p, rt, BytecodeV::Unpack(dst, src, idx)) is Fail,
{
}

} // verus!
