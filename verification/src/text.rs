use vstd::prelude::*;
use crate::eval;
use crate::ir::{Const, ConstV, Pointer};
use crate::runtime::{fault_value, push_str, value, values, Fault, FaultV, Object, ObjectV};

verus! {

/// The text of a decimal digit.
pub open spec fn digit(d: nat) -> Seq<char> {
    if d == 0 {
        "0"@
    } else if d == 1 {
        "1"@
    } else if d == 2 {
        "2"@
    } else if d == 3 {
        "3"@
    } else if d == 4 {
        "4"@
    } else if d == 5 {
        "5"@
    } else if d == 6 {
        "6"@
    } else if d == 7 {
        "7"@
    } else if d == 8 {
        "8"@
    } else {
        "9"@
    }
}

/// The text of a hexadecimal digit, in lower case.
pub open spec fn hexit(d: nat) -> Seq<char> {
    if d < 10 {
        digit(d)
    } else if d == 10 {
        "a"@
    } else if d == 11 {
        "b"@
    } else if d == 12 {
        "c"@
    } else if d == 13 {
        "d"@
    } else if d == 14 {
        "e"@
    } else {
        "f"@
    }
}

/// The decimal numeral of `n`.
pub open spec fn decimal(n: nat) -> Seq<char>
    decreases n,
{
    if n < 10 {
        digit(n)
    } else {
        decimal(n / 10) + digit(n % 10)
    }
}

/// The decimal numeral of `x`, after a minus sign when it is negative.
pub open spec fn signed(x: int) -> Seq<char> {
    if x < 0 {
        "-"@ + decimal((-x) as nat)
    } else {
        decimal(x as nat)
    }
}

/// The last `w` hexadecimal digits of `n`, padded with zeros.
pub open spec fn hex_digits(n: nat, w: nat) -> Seq<char>
    decreases w,
{
    if w == 0 {
        Seq::empty()
    } else {
        hex_digits(n / 16, (w - 1) as nat) + hexit(n % 16)
    }
}

/// `x` as `0x` and eight hexadecimal digits.
pub open spec fn hex8(x: u32) -> Seq<char> {
    "0x"@ + hex_digits(x as nat, 8)
}

fn digit_str(d: u64) -> (s: &'static str)
    requires
        d < 10,
    ensures
        s@ == digit(d as nat),
{
    if d == 0 {
        "0"
    } else if d == 1 {
        "1"
    } else if d == 2 {
        "2"
    } else if d == 3 {
        "3"
    } else if d == 4 {
        "4"
    } else if d == 5 {
        "5"
    } else if d == 6 {
        "6"
    } else if d == 7 {
        "7"
    } else if d == 8 {
        "8"
    } else {
        "9"
    }
}

fn hexit_str(d: u64) -> (s: &'static str)
    requires
        d < 16,
    ensures
        s@ == hexit(d as nat),
{
    if d < 10 {
        digit_str(d)
    } else if d == 10 {
        "a"
    } else if d == 11 {
        "b"
    } else if d == 12 {
        "c"
    } else if d == 13 {
        "d"
    } else if d == 14 {
        "e"
    } else {
        "f"
    }
}

/// Appends the decimal numeral of `n`.
pub fn push_decimal(s: &mut String, n: u64)
    ensures
        final(s)@ == old(s)@ + decimal(n as nat),
    decreases n,
{
    if n >= 10 {
        push_decimal(s, n / 10);
    }
    push_str(s, digit_str(n % 10));
    assert(s@ =~= old(s)@ + decimal(n as nat));
}

/// Appends the decimal numeral of `x`, after a minus sign when it is
/// negative.
pub fn push_signed(s: &mut String, x: i32)
    ensures
        final(s)@ == old(s)@ + signed(x as int),
{
    if x < 0 {
        push_str(s, "-");
        let m = (0i64 - x as i64) as u64;
        push_decimal(s, m);
        assert(s@ =~= old(s)@ + signed(x as int));
    } else {
        push_decimal(s, x as u64);
    }
}

fn push_hex(s: &mut String, n: u64, w: u64)
    ensures
        final(s)@ == old(s)@ + hex_digits(n as nat, w as nat),
    decreases w,
{
    if w > 0 {
        push_hex(s, n / 16, w - 1);
        push_str(s, hexit_str(n % 16));
        assert(s@ =~= old(s)@ + hex_digits(n as nat, w as nat));
    } else {
        assert(s@ =~= old(s)@ + hex_digits(n as nat, w as nat));
    }
}

/// Appends `x` as `0x` and eight hexadecimal digits.
pub fn push_hex8(s: &mut String, x: u32)
    ensures
        final(s)@ == old(s)@ + hex8(x),
{
    push_str(s, "0x");
    push_hex(s, x as u64, 8);
    assert(s@ =~= old(s)@ + hex8(x));
}

/// `float` gives one text for each bit pattern.
pub open spec fn deterministic<F: Fn(u32) -> String>(float: F) -> bool {
    forall|x: u32, a: String, b: String|
        #![trigger float.ensures((x,), a), float.ensures((x,), b)]
        float.ensures((x,), a) && float.ensures((x,), b) ==> a@ == b@
}

/// The text `float` gives the float with bit pattern `x`.
pub open spec fn float_text<F: Fn(u32) -> String>(float: F, x: u32) -> Seq<char> {
    (choose|s: String| float.ensures((x,), s))@
}

/// The text before the address of a pointer.
pub open spec fn pointer_text(p: Pointer) -> Seq<char> {
    match p {
        Pointer::Function => "F @ "@,
        Pointer::Group => "G @ "@,
        Pointer::Rust => "R @ "@,
    }
}

/// The text of an object: lists in brackets, tuples in parentheses and
/// groups in angle brackets with their items separated by commas, pointers
/// and group ids in hexadecimal, numbers in decimal, floats as `float`
/// writes them.
pub open spec fn text_of<F: Fn(u32) -> String>(o: ObjectV, float: F) -> Seq<char>
    decreases o,
{
    match o {
        ObjectV::Pointer(p, i) => pointer_text(p) + hex8(i),
        ObjectV::List(items) => "["@ + joined(items, float) + "]"@,
        ObjectV::Tuple(items) => "("@ + joined(items, float) + ")"@,
        ObjectV::Group(id, items) => "<"@ + joined(items, float) + "> as "@ + hex8(id),
        ObjectV::Str(s) => s,
        ObjectV::Int(x) => signed(x as int),
        ObjectV::Float(x) => float_text(float, x),
        ObjectV::Bool(b) => if b {
            "true"@
        } else {
            "false"@
        },
        ObjectV::Void => "void"@,
    }
}

/// The texts of the objects, separated by commas.
pub open spec fn joined<F: Fn(u32) -> String>(vs: Seq<ObjectV>, float: F) -> Seq<char>
    decreases vs,
{
    if vs.len() == 0 {
        Seq::empty()
    } else if vs.len() == 1 {
        text_of(vs[0], float)
    } else {
        joined(vs.drop_last(), float) + ", "@ + text_of(vs.last(), float)
    }
}

proof fn lemma_joined_step<F: Fn(u32) -> String>(vs: Seq<ObjectV>, i: int, float: F)
    requires
        0 <= i < vs.len(),
    ensures
        joined(vs.take(i + 1), float) == joined(vs.take(i), float) + (if i == 0 {
            Seq::<char>::empty()
        } else {
            ", "@
        }) + text_of(vs[i], float),
{
    let t = vs.take(i + 1);
    if i == 0 {
        assert(t[0] == vs[0]);
        assert(joined(vs.take(0), float) =~= Seq::<char>::empty());
        assert(joined(t, float) =~= Seq::<char>::empty() + Seq::<char>::empty() + text_of(vs[0], float));
    } else {
        assert(t.drop_last() =~= vs.take(i));
        assert(t.last() == vs[i]);
    }
}

/// Appends the texts of the objects, separated by commas.
fn write_all<F: Fn(u32) -> String>(v: &Vec<Object>, s: &mut String, float: &F)
    requires
        forall|x: u32| float.requires((x,)),
        deterministic(*float),
    ensures
        final(s)@ == old(s)@ + joined(values(v@), *float),
    decreases v,
{
    let ghost s0 = s@;
    let ghost vs = values(v@);
    proof {
        crate::runtime::lemma_values(v@);
    }
    let mut i: usize = 0;
    while i < v.len()
        invariant
            i <= v@.len(),
            vs == values(v@),
            vs.len() == v@.len(),
            forall|k: int| 0 <= k < v@.len() ==> #[trigger] vs[k] == value(v@[k]),
            forall|x: u32| float.requires((x,)),
            deterministic(*float),
            s@ == s0 + joined(vs.take(i as int), *float),
        decreases v@.len() - i,
    {
        proof {
            lemma_joined_step(vs, i as int, *float);
        }
        let ghost before = s@;
        if i > 0 {
            push_str(s, ", ");
        }
        v[i].write(s, float);
        assert(s@ =~= s0 + joined(vs.take(i + 1), *float));
        i = i + 1;
    }
    assert(vs.take(i as int) =~= vs);
}

impl Object {
    /// The text of the object, with `float` writing the floats.
    pub fn text<F: Fn(u32) -> String>(&self, float: &F) -> (s: String)
        requires
            forall|x: u32| float.requires((x,)),
            deterministic(*float),
        ensures
            s@ == text_of(value(*self), *float),
    {
        let mut s = String::new();
        self.write(&mut s, float);
        assert(s@ =~= text_of(value(*self), *float));
        s
    }

    /// Appends the text of the object.
    fn write<F: Fn(u32) -> String>(&self, s: &mut String, float: &F)
        requires
            forall|x: u32| float.requires((x,)),
            deterministic(*float),
        ensures
            final(s)@ == old(s)@ + text_of(value(*self), *float),
        decreases self,
    {
        match self {
            Object::Pointer(p, i) => {
                match p {
                    Pointer::Function => push_str(s, "F @ "),
                    Pointer::Group => push_str(s, "G @ "),
                    Pointer::Rust => push_str(s, "R @ "),
                }
                push_hex8(s, *i);
            },
            Object::List(items) => {
                push_str(s, "[");
                write_all(items, s, float);
                push_str(s, "]");
            },
            Object::Tuple(items) => {
                push_str(s, "(");
                write_all(items, s, float);
                push_str(s, ")");
            },
            Object::Group(id, items) => {
                push_str(s, "<");
                write_all(items, s, float);
                push_str(s, "> as ");
                push_hex8(s, *id);
            },
            Object::Str(t) => push_str(s, t.as_str()),
            Object::Int(x) => push_signed(s, *x),
            Object::Float(x) => {
                let t = float(*x);
                proof {
                    let c = choose|c: String| float.ensures((*x,), c);
                    assert(float.ensures((*x,), c));
                }
                push_str(s, t.as_str());
            },
            Object::Bool(b) => {
                if *b {
                    push_str(s, "true");
                } else {
                    push_str(s, "false");
                }
            },
            Object::Void => push_str(s, "void"),
        }
        assert(s@ =~= old(s)@ + text_of(value(*self), *float));
    }
}

/// The message of a fault of the machine.
pub open spec fn fault_text<F: Fn(u32) -> String>(f: FaultV, float: F) -> Seq<char> {
    "Elysia: "@ + match f {
        FaultV::DataType(o, ty) => "expecting `"@ + text_of(o, float) + "` to be `"@ + ty@ + "`"@,
        FaultV::BinaryOperation(op, l, r) => "cannot apply `"@ + op@ + "` to `"@ + text_of(l, float) + "` and `"@
            + text_of(r, float) + "`"@,
        FaultV::UnaryOperation(op, o) => "cannot apply `"@ + op@ + "` to `"@ + text_of(o, float) + "`"@,
        FaultV::NumArgsNotMatch(e, a) => "expected "@ + decimal(e as nat) + " arguments, got "@ + decimal(a as nat),
        FaultV::IndexOutOfBounds(o, i) => "index "@ + signed(i as int) + " is out of boundaries for `"@ + text_of(o, float)
            + "`"@,
        FaultV::NotEnoughToUnpack(o, i) => "cannot unpack element at index "@ + decimal(i as nat) + " for `"@ + text_of(
            o,
            float,
        ) + "`"@,
    } + "\n"@
}

impl Fault {
    /// The message of the fault, with `float` writing the floats.
    pub fn text<F: Fn(u32) -> String>(&self, float: &F) -> (s: String)
        requires
            forall|x: u32| float.requires((x,)),
            deterministic(*float),
        ensures
            s@ == fault_text(fault_value(*self), *float),
    {
        let mut s = String::new();
        push_str(&mut s, "Elysia: ");
        match self {
            Fault::DataType(o, ty) => {
                push_str(&mut s, "expecting `");
                o.write(&mut s, float);
                push_str(&mut s, "` to be `");
                push_str(&mut s, ty);
                push_str(&mut s, "`");
            },
            Fault::BinaryOperation(op, l, r) => {
                push_str(&mut s, "cannot apply `");
                push_str(&mut s, op);
                push_str(&mut s, "` to `");
                l.write(&mut s, float);
                push_str(&mut s, "` and `");
                r.write(&mut s, float);
                push_str(&mut s, "`");
            },
            Fault::UnaryOperation(op, o) => {
                push_str(&mut s, "cannot apply `");
                push_str(&mut s, op);
                push_str(&mut s, "` to `");
                o.write(&mut s, float);
                push_str(&mut s, "`");
            },
            Fault::NumArgsNotMatch(e, a) => {
                push_str(&mut s, "expected ");
                push_decimal(&mut s, *e as u64);
                push_str(&mut s, " arguments, got ");
                push_decimal(&mut s, *a as u64);
            },
            Fault::IndexOutOfBounds(o, i) => {
                push_str(&mut s, "index ");
                push_signed(&mut s, *i);
                push_str(&mut s, " is out of boundaries for `");
                o.write(&mut s, float);
                push_str(&mut s, "`");
            },
            Fault::NotEnoughToUnpack(o, i) => {
                push_str(&mut s, "cannot unpack element at index ");
                push_decimal(&mut s, *i as u64);
                push_str(&mut s, " for `");
                o.write(&mut s, float);
                push_str(&mut s, "`");
            },
        }
        push_str(&mut s, "\n");
        assert(s@ =~= fault_text(fault_value(*self), *float));
        s
    }
}

/// The text of a constant: strings in double quotes, numbers in decimal,
/// floats as `float` writes them.
pub open spec fn const_text<F: Fn(u32) -> String>(c: ConstV, float: F) -> Seq<char> {
    match c {
        ConstV::Int(x) => signed(x as int),
        ConstV::Float(x) => float_text(float, x),
        ConstV::Bool(b) => if b {
            "true"@
        } else {
            "false"@
        },
        ConstV::Str(t) => "\""@ + t + "\""@,
    }
}

/// The message of a fault found while optimizing.
pub open spec fn compile_fault_text<F: Fn(u32) -> String>(f: eval::Fault, float: F) -> Seq<char> {
    "Demiurge: "@ + match f {
        eval::Fault::BinaryOperation(op, l, r) => "cannot apply `"@ + op@ + "` to `"@ + const_text(l@, float) + "` and `"@
            + const_text(r@, float) + "`"@,
        eval::Fault::UnaryOperation(op, c) => "cannot apply `"@ + op@ + "` to `"@ + const_text(c@, float) + "`"@,
        eval::Fault::ConstantType(c, ty) => "expecting `"@ + const_text(c@, float) + "` to be `"@ + ty@ + "`"@,
        eval::Fault::ExitBlockUnreachable => "infinite loop detected"@,
        eval::Fault::UndeterminedValue => "a branch depends on a value never computed"@,
    } + "\n"@
}

impl Const {
    /// Appends the text of the constant.
    fn write<F: Fn(u32) -> String>(&self, s: &mut String, float: &F)
        requires
            forall|x: u32| float.requires((x,)),
            deterministic(*float),
        ensures
            final(s)@ == old(s)@ + const_text(self@, *float),
    {
        match self {
            Const::Int(x) => push_signed(s, *x),
            Const::Float(x) => {
                let t = float(*x);
                proof {
                    let c = choose|c: String| float.ensures((*x,), c);
                    assert(float.ensures((*x,), c));
                }
                push_str(s, t.as_str());
            },
            Const::Bool(b) => {
                if *b {
                    push_str(s, "true");
                } else {
                    push_str(s, "false");
                }
            },
            Const::Str(t) => {
                push_str(s, "\"");
                push_str(s, t.as_str());
                push_str(s, "\"");
            },
        }
        assert(s@ =~= old(s)@ + const_text(self@, *float));
    }

    /// The text of the constant, with `float` writing the floats.
    pub fn text<F: Fn(u32) -> String>(&self, float: &F) -> (s: String)
        requires
            forall|x: u32| float.requires((x,)),
            deterministic(*float),
        ensures
            s@ == const_text(self@, *float),
    {
        let mut s = String::new();
        self.write(&mut s, float);
        assert(s@ =~= const_text(self@, *float));
        s
    }
}

impl eval::Fault {
    /// The message of the fault, with `float` writing the floats.
    pub fn text<F: Fn(u32) -> String>(&self, float: &F) -> (s: String)
        requires
            forall|x: u32| float.requires((x,)),
            deterministic(*float),
        ensures
            s@ == compile_fault_text(*self, *float),
    {
        let mut s = String::new();
        push_str(&mut s, "Demiurge: ");
        match self {
            eval::Fault::BinaryOperation(op, l, r) => {
                push_str(&mut s, "cannot apply `");
                push_str(&mut s, op);
                push_str(&mut s, "` to `");
                l.write(&mut s, float);
                push_str(&mut s, "` and `");
                r.write(&mut s, float);
                push_str(&mut s, "`");
            },
            eval::Fault::UnaryOperation(op, c) => {
                push_str(&mut s, "cannot apply `");
                push_str(&mut s, op);
                push_str(&mut s, "` to `");
                c.write(&mut s, float);
                push_str(&mut s, "`");
            },
            eval::Fault::ConstantType(c, ty) => {
                push_str(&mut s, "expecting `");
                c.write(&mut s, float);
                push_str(&mut s, "` to be `");
                push_str(&mut s, ty);
                push_str(&mut s, "`");
            },
            eval::Fault::ExitBlockUnreachable => push_str(&mut s, "infinite loop detected"),
            eval::Fault::UndeterminedValue => push_str(&mut s, "a branch depends on a value never computed"),
        }
        push_str(&mut s, "\n");
        assert(s@ =~= compile_fault_text(*self, *float));
        s
    }
}

} // verus!
