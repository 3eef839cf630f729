use vstd::prelude::*;
use vstd::string::*;
use crate::ir::{BinOp, Const, ConstV, UnaOp};

verus! {

/// Errors of the middle end.
#[derive(Debug)]
pub enum Fault {
    BinaryOperation(&'static str, Const, Const),
    UnaryOperation(&'static str, Const),
    ConstantType(Const, &'static str),
    ExitBlockUnreachable,
    UndeterminedValue,
}

/// The type a constant was expected to have.
pub enum Kind {
    Bool,
    Int,
    Float,
    Str,
}

/// The name the error messages give a type.
pub open spec fn kind_name(k: Kind) -> &'static str {
    match k {
        Kind::Bool => "bool",
        Kind::Int => "int",
        Kind::Float => "float",
        Kind::Str => "str",
    }
}

/// The symbol the error messages give a binary operator.
pub open spec fn bin_symbol(op: BinOp) -> &'static str {
    match op {
        BinOp::Or => "or",
        BinOp::And => "and",
        BinOp::Gt => ">",
        BinOp::Ge => ">=",
        BinOp::Lt => "<",
        BinOp::Le => "<=",
        BinOp::Eq => "==",
        BinOp::Ne => "!=",
        BinOp::Add => "+",
        BinOp::Sub => "-",
        BinOp::Mul => "*",
        BinOp::Div => "/",
        BinOp::Mod => "%",
        BinOp::At => "@",
    }
}

/// The symbol the error messages give a unary operator.
pub open spec fn una_symbol(op: UnaOp) -> &'static str {
    match op {
        UnaOp::Not => "not",
        UnaOp::Pos => "+",
        UnaOp::Neg => "-",
    }
}

/// What folding an operation on constants yields.
pub enum Outcome {
    /// A constant of this value.
    Value(ConstV),
    /// Two floats, whose result the floating-point unit decides.
    Float(u32, u32),
    /// The operator does not apply to the operands.
    Operation,
    /// The constant does not have the expected type.
    Type(ConstV, Kind),
}

/// Expects a boolean.
pub open spec fn want_bool(c: ConstV) -> Option<bool> {
    match c {
        ConstV::Bool(b) => Some(b),
        _ => None,
    }
}

/// Folding of a binary operator, following the operand types.
pub open spec fn eval_binary(op: BinOp, l: ConstV, r: ConstV) -> Outcome {
    match op {
        BinOp::Or => match l {
            ConstV::Bool(x) => if x {
                Outcome::Value(ConstV::Bool(true))
            } else {
                match r {
                    ConstV::Bool(y) => Outcome::Value(ConstV::Bool(y)),
                    _ => Outcome::Type(r, Kind::Bool),
                }
            },
            _ => Outcome::Operation,
        },
        BinOp::And => match l {
            ConstV::Bool(x) => if !x {
                Outcome::Value(ConstV::Bool(false))
            } else {
                match r {
                    ConstV::Bool(y) => Outcome::Value(ConstV::Bool(y)),
                    _ => Outcome::Type(r, Kind::Bool),
                }
            },
            _ => Outcome::Operation,
        },
        BinOp::Gt | BinOp::Ge | BinOp::Lt | BinOp::Le => match (l, r) {
            (ConstV::Int(x), ConstV::Int(y)) => Outcome::Value(
                ConstV::Bool(
                    match op {
                        BinOp::Gt => x > y,
                        BinOp::Ge => x >= y,
                        BinOp::Lt => x < y,
                        _ => x <= y,
                    },
                ),
            ),
            (ConstV::Int(_), _) => Outcome::Type(r, Kind::Int),
            (ConstV::Float(x), ConstV::Float(y)) => Outcome::Float(x, y),
            (ConstV::Float(_), _) => Outcome::Type(r, Kind::Float),
            _ => Outcome::Operation,
        },
        BinOp::Eq | BinOp::Ne => {
            let eq = op is Eq;
            match (l, r) {
                (ConstV::Int(x), ConstV::Int(y)) => Outcome::Value(ConstV::Bool((x == y) == eq)),
                (ConstV::Int(_), _) => Outcome::Type(r, Kind::Int),
                (ConstV::Float(x), ConstV::Float(y)) => Outcome::Float(x, y),
                (ConstV::Float(_), _) => Outcome::Type(r, Kind::Float),
                (ConstV::Bool(x), ConstV::Bool(y)) => Outcome::Value(ConstV::Bool((x == y) == eq)),
                (ConstV::Bool(_), _) => Outcome::Type(r, Kind::Bool),
                (ConstV::Str(x), ConstV::Str(y)) => Outcome::Value(ConstV::Bool((x == y) == eq)),
                (ConstV::Str(_), _) => Outcome::Type(r, Kind::Str),
            }
        },
        BinOp::Add | BinOp::Sub | BinOp::Mul | BinOp::Div | BinOp::Mod => match (l, r) {
            (ConstV::Int(x), ConstV::Int(y)) => {
                let v: Option<i32> = match op {
                    BinOp::Add => x.checked_add(y),
                    BinOp::Sub => x.checked_sub(y),
                    BinOp::Mul => x.checked_mul(y),
                    BinOp::Div => x.checked_div(y),
                    _ => x.checked_rem(y),
                };
                match v {
                    Some(z) => Outcome::Value(ConstV::Int(z)),
                    None => Outcome::Operation,
                }
            },
            (ConstV::Int(_), _) => Outcome::Type(r, Kind::Int),
            (ConstV::Float(x), ConstV::Float(y)) => Outcome::Float(x, y),
            (ConstV::Float(_), _) => Outcome::Type(r, Kind::Float),
            (ConstV::Str(x), ConstV::Str(y)) => if op is Add {
                Outcome::Value(ConstV::Str(x + y))
            } else {
                Outcome::Operation
            },
            (ConstV::Str(_), _) => if op is Add {
                Outcome::Type(r, Kind::Str)
            } else {
                Outcome::Operation
            },
            _ => Outcome::Operation,
        },
        BinOp::At => Outcome::Value(l),
    }
}

/// The sign bit of an IEEE-754 single-precision number.
pub open spec fn sign_bit() -> u32 {
    0x8000_0000u32
}

/// Folding of a unary operator. Negating a float flips its sign bit.
pub open spec fn eval_unary(op: UnaOp, c: ConstV) -> Outcome {
    match op {
        UnaOp::Not => match c {
            ConstV::Bool(x) => Outcome::Value(ConstV::Bool(!x)),
            _ => Outcome::Operation,
        },
        UnaOp::Pos => match c {
            ConstV::Int(_) | ConstV::Float(_) => Outcome::Value(c),
            _ => Outcome::Operation,
        },
        UnaOp::Neg => match c {
            ConstV::Int(x) => if x == i32::MIN {
                Outcome::Operation
            } else {
                Outcome::Value(ConstV::Int(-x as i32))
            },
            ConstV::Float(x) => Outcome::Value(ConstV::Float(x ^ sign_bit())),
            _ => Outcome::Operation,
        },
    }
}

/// Whether the result of a binary fold agrees with its outcome; `float`
/// is the floating-point unit that decides the `Float` case.
pub open spec fn binary_agrees<F: Fn(BinOp, u32, u32) -> Const>(
    r: Result<Const, Fault>,
    op: BinOp,
    l: ConstV,
    rr: ConstV,
    float: F,
) -> bool {
    match eval_binary(op, l, rr) {
        Outcome::Value(v) => r matches Ok(c) && c@ == v,
        Outcome::Float(x, y) => r matches Ok(c) && float.ensures((op, x, y), c),
        Outcome::Operation => r matches Err(Fault::BinaryOperation(s, a, b)) && s@ == bin_symbol(
            op,
        )@ && a@ == l && b@ == rr,
        Outcome::Type(c, k) => r matches Err(Fault::ConstantType(a, s)) && a@ == c && s@
            == kind_name(k)@,
    }
}

/// Whether the result of a unary fold agrees with its outcome.
pub open spec fn unary_agrees(r: Result<Const, Fault>, op: UnaOp, c: ConstV) -> bool {
    match eval_unary(op, c) {
        Outcome::Value(v) => r matches Ok(x) && x@ == v,
        Outcome::Operation => r matches Err(Fault::UnaryOperation(s, a)) && s@ == una_symbol(op)@
            && a@ == c,
        _ => false,
    }
}

impl Const {
    /// Folds `self op rhs`. Operations on two floats are handed to `float`,
    /// the floating-point unit of the caller.
    pub fn binary<F: Fn(BinOp, u32, u32) -> Const>(&self, op: &BinOp, rhs: &Const, float: &F) -> (r:
        Result<Const, Fault>)
        requires
            forall|o: BinOp, x: u32, y: u32| float.requires((o, x, y)),
        ensures
            binary_agrees(r, *op, self@, rhs@, *float),
    {
        match op {
            BinOp::Or => self.or(rhs),
            BinOp::And => self.and(rhs),
            BinOp::Gt | BinOp::Ge | BinOp::Lt | BinOp::Le => self.compare(op, rhs, float),
            BinOp::Eq => self.eq(rhs, float),
            BinOp::Ne => self.ne(rhs, float),
            BinOp::Add => self.add(rhs, float),
            BinOp::Sub => self.sub(rhs, float),
            BinOp::Mul => self.mul(rhs, float),
            BinOp::Div => self.div(rhs, float),
            BinOp::Mod => self.rem(rhs, float),
            BinOp::At => self.dot(rhs),
        }
    }

    /// Folds `op self`.
    pub fn unary(&self, op: &UnaOp) -> (r: Result<Const, Fault>)
        ensures
            unary_agrees(r, *op, self@),
    {
        match op {
            UnaOp::Not => self.not(),
            UnaOp::Pos => self.pos(),
            UnaOp::Neg => self.neg(),
        }
    }

    /// The boolean a constant holds.
    pub fn bool(&self) -> (r: Result<bool, Fault>)
        ensures
            match self {
                Const::Bool(b) => r == Ok::<bool, Fault>(*b),
                _ => r matches Err(Fault::ConstantType(c, s)) && c@ == self@ && s@ == kind_name(
                    Kind::Bool,
                )@,
            },
    {
        if let Const::Bool(x) = self {
            Ok(*x)
        } else {
            Err(Fault::ConstantType(self.dup(), "bool"))
        }
    }

    /// The integer a constant holds.
    pub fn integer(&self) -> (r: Result<i32, Fault>)
        ensures
            match self {
                Const::Int(x) => r == Ok::<i32, Fault>(*x),
                _ => r matches Err(Fault::ConstantType(c, s)) && c@ == self@ && s@ == kind_name(
                    Kind::Int,
                )@,
            },
    {
        if let Const::Int(x) = self {
            Ok(*x)
        } else {
            Err(Fault::ConstantType(self.dup(), "int"))
        }
    }

    /// The bit pattern of the float a constant holds.
    pub fn float(&self) -> (r: Result<u32, Fault>)
        ensures
            match self {
                Const::Float(x) => r == Ok::<u32, Fault>(*x),
                _ => r matches Err(Fault::ConstantType(c, s)) && c@ == self@ && s@ == kind_name(
                    Kind::Float,
                )@,
            },
    {
        if let Const::Float(x) = self {
            Ok(*x)
        } else {
            Err(Fault::ConstantType(self.dup(), "float"))
        }
    }

    /// The string a constant holds.
    pub fn str(&self) -> (r: Result<&String, Fault>)
        ensures
            match self {
                Const::Str(x) => r matches Ok(s) && s@ == x@,
                _ => r matches Err(Fault::ConstantType(c, s)) && c@ == self@ && s@ == kind_name(
                    Kind::Str,
                )@,
            },
    {
        if let Const::Str(x) = self {
            Ok(x)
        } else {
            Err(Fault::ConstantType(self.dup(), "str"))
        }
    }

    fn operation(&self, sym: &'static str, rhs: &Const) -> (r: Result<Const, Fault>)
        ensures
            r matches Err(Fault::BinaryOperation(s, a, b)) && s == sym && a@ == self@ && b@ == rhs@,
    {
        Err(Fault::BinaryOperation(sym, self.dup(), rhs.dup()))
    }

    fn or(&self, rhs: &Const) -> (r: Result<Const, Fault>)
        ensures
            binary_agrees(r, BinOp::Or, self@, rhs@, |o: BinOp, x: u32, y: u32| Const::Int(0)),
    {
        let value = match self {
            Const::Bool(x) => *x || rhs.bool()?,
            _ => {
                return self.operation("or", rhs);
            },
        };
        Ok(Const::Bool(value))
    }

    fn and(&self, rhs: &Const) -> (r: Result<Const, Fault>)
        ensures
            binary_agrees(r, BinOp::And, self@, rhs@, |o: BinOp, x: u32, y: u32| Const::Int(0)),
    {
        let value = match self {
            Const::Bool(x) => *x && rhs.bool()?,
            _ => {
                return self.operation("and", rhs);
            },
        };
        Ok(Const::Bool(value))
    }

    fn compare<F: Fn(BinOp, u32, u32) -> Const>(&self, op: &BinOp, rhs: &Const, float: &F) -> (r:
        Result<Const, Fault>)
        requires
            forall|o: BinOp, x: u32, y: u32| float.requires((o, x, y)),
            *op is Gt || *op is Ge || *op is Lt || *op is Le,
        ensures
            binary_agrees(r, *op, self@, rhs@, *float),
    {
        match self {
            Const::Int(x) => {
                let y = rhs.integer()?;
                let b = match op {
                    BinOp::Gt => *x > y,
                    BinOp::Ge => *x >= y,
                    BinOp::Lt => *x < y,
                    _ => *x <= y,
                };
                Ok(Const::Bool(b))
            },
            Const::Float(x) => {
                let y = rhs.float()?;
                Ok(float(*op, *x, y))
            },
            _ => {
                let sym = match op {
                    BinOp::Gt => ">",
                    BinOp::Ge => ">=",
                    BinOp::Lt => "<",
                    _ => "<=",
                };
                self.operation(sym, rhs)
            },
        }
    }

    fn equal<F: Fn(BinOp, u32, u32) -> Const>(&self, op: &BinOp, rhs: &Const, float: &F) -> (r:
        Result<Const, Fault>)
        requires
            forall|o: BinOp, x: u32, y: u32| float.requires((o, x, y)),
            *op is Eq || *op is Ne,
        ensures
            binary_agrees(r, *op, self@, rhs@, *float),
    {
        let eq = matches!(op, BinOp::Eq);
        let same = match self {
            Const::Int(x) => *x == rhs.integer()?,
            Const::Float(x) => {
                let y = rhs.float()?;
                return Ok(float(*op, *x, y));
            },
            Const::Bool(x) => *x == rhs.bool()?,
            Const::Str(x) => x.eq(rhs.str()?),
        };
        Ok(Const::Bool(same == eq))
    }

    fn eq<F: Fn(BinOp, u32, u32) -> Const>(&self, rhs: &Const, float: &F) -> (r: Result<Const, Fault>)
        requires
            forall|o: BinOp, x: u32, y: u32| float.requires((o, x, y)),
        ensures
            binary_agrees(r, BinOp::Eq, self@, rhs@, *float),
    {
        self.equal(&BinOp::Eq, rhs, float)
    }

    fn ne<F: Fn(BinOp, u32, u32) -> Const>(&self, rhs: &Const, float: &F) -> (r: Result<Const, Fault>)
        requires
            forall|o: BinOp, x: u32, y: u32| float.requires((o, x, y)),
        ensures
            binary_agrees(r, BinOp::Ne, self@, rhs@, *float),
    {
        self.equal(&BinOp::Ne, rhs, float)
    }

    fn add<F: Fn(BinOp, u32, u32) -> Const>(&self, rhs: &Const, float: &F) -> (r: Result<Const, Fault>)
        requires
            forall|o: BinOp, x: u32, y: u32| float.requires((o, x, y)),
        ensures
            binary_agrees(r, BinOp::Add, self@, rhs@, *float),
    {
        match self {
            Const::Int(x) => {
                let y = rhs.integer()?;
                match x.checked_add(y) {
                    Some(z) => Ok(Const::Int(z)),
                    None => self.operation("+", rhs),
                }
            },
            Const::Float(x) => {
                let y = rhs.float()?;
                Ok(float(BinOp::Add, *x, y))
            },
            Const::Str(x) => {
                let y = rhs.str()?;
                let mut s = x.clone();
                s.append(y.as_str());
                Ok(Const::Str(s))
            },
            _ => self.operation("+", rhs),
        }
    }

    fn arith<F: Fn(BinOp, u32, u32) -> Const>(&self, op: &BinOp, rhs: &Const, float: &F) -> (r:
        Result<Const, Fault>)
        requires
            forall|o: BinOp, x: u32, y: u32| float.requires((o, x, y)),
            *op is Sub || *op is Mul || *op is Div || *op is Mod,
        ensures
            binary_agrees(r, *op, self@, rhs@, *float),
    {
        let sym = match op {
            BinOp::Sub => "-",
            BinOp::Mul => "*",
            BinOp::Div => "/",
            _ => "%",
        };
        match self {
            Const::Int(x) => {
                let y = rhs.integer()?;
                let v = match op {
                    BinOp::Sub => x.checked_sub(y),
                    BinOp::Mul => x.checked_mul(y),
                    BinOp::Div => x.checked_div(y),
                    _ => x.checked_rem(y),
                };
                match v {
                    Some(z) => Ok(Const::Int(z)),
                    None => self.operation(sym, rhs),
                }
            },
            Const::Float(x) => {
                let y = rhs.float()?;
                Ok(float(*op, *x, y))
            },
            _ => self.operation(sym, rhs),
        }
    }

    fn sub<F: Fn(BinOp, u32, u32) -> Const>(&self, rhs: &Const, float: &F) -> (r: Result<Const, Fault>)
        requires
            forall|o: BinOp, x: u32, y: u32| float.requires((o, x, y)),
        ensures
            binary_agrees(r, BinOp::Sub, self@, rhs@, *float),
    {
        self.arith(&BinOp::Sub, rhs, float)
    }

    fn mul<F: Fn(BinOp, u32, u32) -> Const>(&self, rhs: &Const, float: &F) -> (r: Result<Const, Fault>)
        requires
            forall|o: BinOp, x: u32, y: u32| float.requires((o, x, y)),
        ensures
            binary_agrees(r, BinOp::Mul, self@, rhs@, *float),
    {
        self.arith(&BinOp::Mul, rhs, float)
    }

    fn div<F: Fn(BinOp, u32, u32) -> Const>(&self, rhs: &Const, float: &F) -> (r: Result<Const, Fault>)
        requires
            forall|o: BinOp, x: u32, y: u32| float.requires((o, x, y)),
        ensures
            binary_agrees(r, BinOp::Div, self@, rhs@, *float),
    {
        self.arith(&BinOp::Div, rhs, float)
    }

    fn rem<F: Fn(BinOp, u32, u32) -> Const>(&self, rhs: &Const, float: &F) -> (r: Result<Const, Fault>)
        requires
            forall|o: BinOp, x: u32, y: u32| float.requires((o, x, y)),
        ensures
            binary_agrees(r, BinOp::Mod, self@, rhs@, *float),
    {
        self.arith(&BinOp::Mod, rhs, float)
    }

    fn dot(&self, _rhs: &Const) -> (r: Result<Const, Fault>)
        ensures
            r matches Ok(c) && c@ == self@,
    {
        Ok(self.dup())
    }

    fn not(&self) -> (r: Result<Const, Fault>)
        ensures
            unary_agrees(r, UnaOp::Not, self@),
    {
        match self {
            Const::Bool(x) => Ok(Const::Bool(!*x)),
            _ => Err(Fault::UnaryOperation("not", self.dup())),
        }
    }

    fn pos(&self) -> (r: Result<Const, Fault>)
        ensures
            unary_agrees(r, UnaOp::Pos, self@),
    {
        if matches!(self, Const::Int(_) | Const::Float(_)) {
            Ok(self.dup())
        } else {
            Err(Fault::UnaryOperation("+", self.dup()))
        }
    }

    fn neg(&self) -> (r: Result<Const, Fault>)
        ensures
            unary_agrees(r, UnaOp::Neg, self@),
    {
        match self {
            Const::Int(x) => {
                if *x == i32::MIN {
                    Err(Fault::UnaryOperation("-", self.dup()))
                } else {
                    Ok(Const::Int(-*x))
                }
            },
            Const::Float(x) => Ok(Const::Float(*x ^ 0x8000_0000u32)),
            _ => Err(Fault::UnaryOperation("-", self.dup())),
        }
    }
}


/// Folding `+`, `-` and `*` on two integer constants gives their sum,
/// their difference (the left operand minus the right) and their product
/// when it fits an `i32`, and a refusal when it does not.
pub proof fn law_fold_int_arith<F: Fn(BinOp, u32, u32) -> Const>(
    op: BinOp,
    x: i32,
    y: i32,
    r: Result<Const, Fault>,
    float: F,
)
    requires
        binary_agrees(r, op, ConstV::Int(x), ConstV::Int(y), float),
    ensures
        op is Add && i32::MIN <= x + y <= i32::MAX ==> (r matches Ok(c) && c@ == ConstV::Int((x + y) as i32)),
        op is Sub && i32::MIN <= x - y <= i32::MAX ==> (r matches Ok(c) && c@ == ConstV::Int((x - y) as i32)),
        op is Mul && i32::MIN <= x * y <= i32::MAX ==> (r matches Ok(c) && c@ == ConstV::Int((x * y) as i32)),
        op is Add && !(i32::MIN <= x + y <= i32::MAX) ==> r is Err,
        op is Sub && !(i32::MIN <= x - y <= i32::MAX) ==> r is Err,
        op is Mul && !(i32::MIN <= x * y <= i32::MAX) ==> r is Err,
{
}

/// Folding `/` and `%` on two integer constants truncates: the quotient
/// times the divisor plus the remainder gives the dividend back, and the
/// remainder is smaller than the divisor and has the sign of the dividend.
/// Dividing by zero, or `i32::MIN` by `-1`, is refused.
pub proof fn law_fold_int_div<F: Fn(BinOp, u32, u32) -> Const>(
    x: i32,
    y: i32,
    rq: Result<Const, Fault>,
    rm: Result<Const, Fault>,
    float: F,
)
    requires
        binary_agrees(rq, BinOp::Div, ConstV::Int(x), ConstV::Int(y), float),
        binary_agrees(rm, BinOp::Mod, ConstV::Int(x), ConstV::Int(y), float),
    ensures
        y == 0 ==> rq is Err && rm is Err,
        x == i32::MIN && y == -1 ==> rq is Err,
        y != 0 && !(x == i32::MIN && y == -1) ==> (rq matches Ok(cq) && rm matches Ok(cm) && cq@ matches ConstV::Int(
            q,
        ) && cm@ matches ConstV::Int(m) && {
            &&& q * y + m == x
            &&& y > 0 ==> -y < m < y
            &&& y < 0 ==> y < m < -y
            &&& m == 0 || (m < 0) == (x < 0)
        }),
{
    lemma_div_rem(x, y);
}

/// Comparing two integer constants follows the order of the integers:
/// `<=` holds exactly when the left is below or equal to the right, `==`
/// exactly when they are the same integer.
pub proof fn law_fold_int_order<F: Fn(BinOp, u32, u32) -> Const>(
    op: BinOp,
    x: i32,
    y: i32,
    r: Result<Const, Fault>,
    float: F,
)
    requires
        binary_agrees(r, op, ConstV::Int(x), ConstV::Int(y), float),
    ensures
        op is Lt ==> (r matches Ok(c) && c@ == ConstV::Bool(x < y)),
        op is Gt ==> (r matches Ok(c) && c@ == ConstV::Bool(y < x)),
        op is Le ==> (r matches Ok(c) && c@ == ConstV::Bool(x < y || x == y)),
        op is Ge ==> (r matches Ok(c) && c@ == ConstV::Bool(y < x || x == y)),
        op is Eq ==> (r matches Ok(c) && c@ == ConstV::Bool(x == y)),
        op is Ne ==> (r matches Ok(c) && c@ == ConstV::Bool(x != y)),
{
}

/// `and` and `or` on two boolean constants give their conjunction and
/// disjunction; `==` and `!=` say whether they are the same.
pub proof fn law_fold_bool<F: Fn(BinOp, u32, u32) -> Const>(
    op: BinOp,
    x: bool,
    y: bool,
    r: Result<Const, Fault>,
    float: F,
)
    requires
        binary_agrees(r, op, ConstV::Bool(x), ConstV::Bool(y), float),
    ensures
        op is And ==> (r matches Ok(c) && c@ == ConstV::Bool(x && y)),
        op is Or ==> (r matches Ok(c) && c@ == ConstV::Bool(x || y)),
        op is Eq ==> (r matches Ok(c) && c@ == ConstV::Bool(x == y)),
        op is Ne ==> (r matches Ok(c) && c@ == ConstV::Bool(x != y)),
{
}

/// `+` on two string constants joins them, the left one first; `==` and
/// `!=` say whether they are the same.
pub proof fn law_fold_str<F: Fn(BinOp, u32, u32) -> Const>(
    op: BinOp,
    x: Seq<char>,
    y: Seq<char>,
    r: Result<Const, Fault>,
    float: F,
)
    requires
        binary_agrees(r, op, ConstV::Str(x), ConstV::Str(y), float),
    ensures
        op is Add ==> (r matches Ok(c) && c@ matches ConstV::Str(z) && z.len() == x.len() + y.len() && z.take(
            x.len() as int,
        ) == x && z.skip(x.len() as int) == y),
        op is Eq ==> (r matches Ok(c) && c@ == ConstV::Bool(x == y)),
        op is Ne ==> (r matches Ok(c) && c@ == ConstV::Bool(x != y)),
{
    assert((x + y).take(x.len() as int) =~= x);
    assert((x + y).skip(x.len() as int) =~= y);
}

/// Negating an integer constant gives its opposite (refused for
/// `i32::MIN`), `not` a boolean its negation, and `+` keeps a number.
pub proof fn law_fold_unary(op: UnaOp, c: ConstV, r: Result<Const, Fault>)
    requires
        unary_agrees(r, op, c),
    ensures
        op is Neg ==> (c matches ConstV::Int(x) ==> (x == i32::MIN ==> r is Err) && (x != i32::MIN ==> (r matches Ok(d)
            && d@ matches ConstV::Int(z) && z + x == 0))),
        op is Not ==> (c matches ConstV::Bool(b) ==> (r matches Ok(d) && d@ == ConstV::Bool(!b))),
        op is Pos && (c is Int || c is Float) ==> (r matches Ok(d) && d@ == c),
{
}

/// Integer division truncates: for a divisor that is not zero (and not
/// `-1` under `i32::MIN`), the quotient times the divisor plus the
/// remainder gives the dividend back, the remainder is smaller than the
/// divisor and has the sign of the dividend. By zero both are refused.
pub proof fn lemma_div_rem(x: i32, y: i32)
    ensures
        y == 0 ==> x.checked_div(y) is None && x.checked_rem(y) is None,
        y != 0 && !(x == i32::MIN && y == -1) ==> (x.checked_div(y) matches Some(q) && x.checked_rem(y) matches Some(m)
            && {
            &&& q * y + m == x
            &&& y > 0 ==> -y < m < y
            &&& y < 0 ==> y < m < -y
            &&& m == 0 || (m < 0) == (x < 0)
        }),
{
    if y != 0 && !(x == i32::MIN && y == -1) {
        let a = x as int;
        let d = y as int;
        let (q, m): (int, int) = if a == 0 {
            (0, 0)
        } else if a > 0 && d > 0 {
            lemma_pos_div(a, d);
            (a / d, a % d)
        } else if a < 0 && d < 0 {
            lemma_pos_div(-a, -d);
            if d == -1 {
                assert(a > i32::MIN);
            } else {
                lemma_half(-a, -d);
            }
            assert(((a * -1) / (d * -1)) * d + ((a * -1) % (d * -1)) * -1 == a) by (nonlinear_arith)
                requires
                    (-a) == (-d) * ((-a) / (-d)) + (-a) % (-d),
            ;
            ((a * -1) / (d * -1), ((a * -1) % (d * -1)) * -1)
        } else if a < 0 {
            lemma_pos_div(-a, d);
            assert(((a * -1) / d) * -1 * d + ((a * -1) % d) * -1 == a) by (nonlinear_arith)
                requires
                    (-a) == d * ((-a) / d) + (-a) % d,
            ;
            (((a * -1) / d) * -1, ((a * -1) % d) * -1)
        } else {
            lemma_pos_div(a, -d);
            assert((a / (d * -1)) * -1 * d + a % (d * -1) == a) by (nonlinear_arith)
                requires
                    a == (-d) * (a / (-d)) + a % (-d),
            ;
            ((a / (d * -1)) * -1, a % (d * -1))
        };
        assert(i32::MIN <= q <= i32::MAX);
        assert(i32::MIN <= m <= i32::MAX);
        assert(x.checked_div(y) == Some(q as i32));
        assert(x.checked_rem(y) == Some(m as i32));
        assert(q * d + m == a);
    }
}

/// For positive `a` and `d`: `a` is `d` times the quotient plus the
/// remainder, the quotient lies in `0..=a` and the remainder in `0..d`.
proof fn lemma_pos_div(a: int, d: int)
    requires
        a > 0,
        d > 0,
    ensures
        a == d * (a / d) + a % d,
        0 <= a % d < d,
        0 <= a / d <= a,
        (a / d) * d + a % d == a,
{
    vstd::arithmetic::div_mod::lemma_fundamental_div_mod(a, d);
    vstd::arithmetic::div_mod::lemma_mod_pos_bound(a, d);
    assert(0 <= a / d <= a) by (nonlinear_arith)
        requires
            a == d * (a / d) + a % d,
            0 <= a % d < d,
            a > 0,
            d > 0,
    ;
    assert((a / d) * d == d * (a / d)) by (nonlinear_arith);
}

/// For positive `a` and a divisor of at least 2, the quotient is at most
/// half of `a`.
proof fn lemma_half(a: int, d: int)
    requires
        a > 0,
        d >= 2,
    ensures
        a / d <= a / 2,
{
    vstd::arithmetic::div_mod::lemma_fundamental_div_mod(a, d);
    vstd::arithmetic::div_mod::lemma_mod_pos_bound(a, d);
    vstd::arithmetic::div_mod::lemma_fundamental_div_mod(a, 2);
    vstd::arithmetic::div_mod::lemma_mod_pos_bound(a, 2);
    assert(a / d <= a / 2) by (nonlinear_arith)
        requires
            a == d * (a / d) + a % d,
            0 <= a % d < d,
            a == 2 * (a / 2) + a % 2,
            0 <= a % 2 < 2,
            d >= 2,
            a > 0,
    ;
}

} // verus!
