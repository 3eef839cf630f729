use felys::bytecode::{Bytecode, Callable, Elysia, Group};
use felys::ir::{BinOp, Const, Pointer, UnaOp};
use felys::runtime::{equals, float_eq, float_lt, Fault, Object, Runtime, Step};

fn fpu(op: BinOp, x: u32, y: u32) -> u32 {
    let a = f32::from_bits(x);
    let b = f32::from_bits(y);
    let r = match op {
        BinOp::Add => a + b,
        BinOp::Sub => a - b,
        BinOp::Mul => a * b,
        _ => a / b,
    };
    r.to_bits()
}

fn program(main: Vec<Bytecode>, registers: u8, text: Vec<Callable>, data: Vec<Const>, groups: Vec<Group>) -> Elysia {
    Elysia { main: Callable { args: 1, registers, bytecodes: main }, text, data, groups }
}

enum End {
    Exit(Object),
    Fail(Fault),
    Host(u8, u32, Vec<Object>),
    Stuck,
}

fn run(e: &Elysia, rt: &mut Runtime) -> End {
    for _ in 0..10_000 {
        match e.step(rt, &fpu) {
            Some(Ok(Step::Next)) => {}
            Some(Ok(Step::Exit(o))) => return End::Exit(o),
            Some(Ok(Step::Foreign(d, i, v))) => return End::Host(d, i, v),
            Some(Err(f)) => return End::Fail(f),
            None => return End::Stuck,
        }
    }
    panic!("the program does not stop");
}

fn start(e: &Elysia) -> Runtime {
    e.init(Object::Void).ok().unwrap()
}

#[test]
fn main_adds_two_constants() {
    let e = program(
        vec![Bytecode::Load(0, 0), Bytecode::Load(1, 1), Bytecode::Binary(2, 0, BinOp::Add, 1), Bytecode::Return(2)],
        3,
        vec![],
        vec![Const::Int(2), Const::Int(3)],
        vec![],
    );
    let mut rt = start(&e);
    assert!(matches!(run(&e, &mut rt), End::Exit(Object::Int(5))));
}

#[test]
fn adding_an_integer_to_a_string_fails() {
    let e = program(
        vec![Bytecode::Load(0, 0), Bytecode::Load(1, 1), Bytecode::Binary(2, 0, BinOp::Add, 1), Bytecode::Return(2)],
        3,
        vec![],
        vec![Const::Int(2), Const::Str("three".to_string())],
        vec![],
    );
    let mut rt = start(&e);
    match run(&e, &mut rt) {
        End::Fail(Fault::BinaryOperation(s, Object::Int(2), Object::Str(t))) => {
            assert_eq!(s, "+");
            assert_eq!(t, "three");
        }
        _ => panic!("expected a refused addition"),
    }
}

#[test]
fn strings_concatenate() {
    let e = program(
        vec![Bytecode::Load(0, 0), Bytecode::Load(1, 1), Bytecode::Binary(2, 0, BinOp::Add, 1), Bytecode::Return(2)],
        3,
        vec![],
        vec![Const::Str("ab".to_string()), Const::Str("cd".to_string())],
        vec![],
    );
    let mut rt = start(&e);
    match run(&e, &mut rt) {
        End::Exit(Object::Str(s)) => assert_eq!(s, "abcd"),
        _ => panic!("expected a string"),
    }
}

#[test]
fn a_call_returns_to_its_register() {
    // square(x) = x * x; main returns square(7)
    let square = Callable {
        args: 1,
        registers: 2,
        bytecodes: vec![Bytecode::Arg(0, 0), Bytecode::Binary(1, 0, BinOp::Mul, 0), Bytecode::Return(1)],
    };
    let e = program(
        vec![
            Bytecode::Pointer(0, Pointer::Function, 0),
            Bytecode::Load(1, 0),
            Bytecode::Call(2, 0, vec![1]),
            Bytecode::Return(2),
        ],
        3,
        vec![square],
        vec![Const::Int(7)],
        vec![],
    );
    let mut rt = start(&e);
    assert!(matches!(run(&e, &mut rt), End::Exit(Object::Int(49))));
    assert!(rt.stack.is_empty());
    assert!(rt.rets.is_empty());
}

#[test]
fn a_call_with_the_wrong_number_of_arguments_fails() {
    let f = Callable { args: 2, registers: 1, bytecodes: vec![Bytecode::Return(0)] };
    let e = program(
        vec![Bytecode::Pointer(0, Pointer::Function, 0), Bytecode::Call(1, 0, vec![0]), Bytecode::Return(1)],
        2,
        vec![f],
        vec![],
        vec![],
    );
    let mut rt = start(&e);
    assert!(matches!(run(&e, &mut rt), End::Fail(Fault::NumArgsNotMatch(2, 1))));
}

#[test]
fn groups_are_built_and_read_by_field() {
    let e = program(
        vec![
            Bytecode::Pointer(0, Pointer::Group, 0),
            Bytecode::Load(1, 0),
            Bytecode::Load(2, 1),
            Bytecode::Call(3, 0, vec![1, 2]),
            Bytecode::Field(4, 3, 9),
            Bytecode::Return(4),
        ],
        5,
        vec![],
        vec![Const::Int(10), Const::Int(20)],
        vec![Group { indices: vec![(8, 0), (9, 1)], methods: vec![] }],
    );
    let mut rt = start(&e);
    assert!(matches!(run(&e, &mut rt), End::Exit(Object::Int(20))));
}

#[test]
fn a_method_receives_its_object_last() {
    // get(self) = self.x
    let get = Callable { args: 1, registers: 2, bytecodes: vec![Bytecode::Arg(0, 0), Bytecode::Field(1, 0, 8), Bytecode::Return(1)] };
    let e = program(
        vec![
            Bytecode::Pointer(0, Pointer::Group, 0),
            Bytecode::Load(1, 0),
            Bytecode::Call(2, 0, vec![1]),
            Bytecode::Method(3, 2, 5, vec![]),
            Bytecode::Return(3),
        ],
        4,
        vec![get],
        vec![Const::Int(42)],
        vec![Group { indices: vec![(8, 0)], methods: vec![(5, 0)] }],
    );
    let mut rt = start(&e);
    assert!(matches!(run(&e, &mut rt), End::Exit(Object::Int(42))));
}

#[test]
fn negative_indices_count_from_the_end() {
    let e = program(
        vec![
            Bytecode::Load(0, 0),
            Bytecode::Load(1, 1),
            Bytecode::List(2, vec![0, 1]),
            Bytecode::Load(3, 2),
            Bytecode::Index(4, 2, 3),
            Bytecode::Return(4),
        ],
        5,
        vec![],
        vec![Const::Int(10), Const::Int(20), Const::Int(-1)],
        vec![],
    );
    let mut rt = start(&e);
    assert!(matches!(run(&e, &mut rt), End::Exit(Object::Int(20))));
}

#[test]
fn an_index_past_the_end_fails() {
    let e = program(
        vec![
            Bytecode::Load(0, 0),
            Bytecode::List(2, vec![0]),
            Bytecode::Load(3, 1),
            Bytecode::Index(4, 2, 3),
            Bytecode::Return(4),
        ],
        5,
        vec![],
        vec![Const::Int(10), Const::Int(-2)],
        vec![],
    );
    let mut rt = start(&e);
    assert!(matches!(run(&e, &mut rt), End::Fail(Fault::IndexOutOfBounds(_, -2))));
}

#[test]
fn unpacking_past_the_end_fails() {
    let e = program(
        vec![Bytecode::Load(0, 0), Bytecode::Tuple(1, vec![0]), Bytecode::Unpack(2, 1, 0), Bytecode::Unpack(3, 1, 1), Bytecode::Return(3)],
        4,
        vec![],
        vec![Const::Int(1)],
        vec![],
    );
    let mut rt = start(&e);
    assert!(matches!(run(&e, &mut rt), End::Fail(Fault::NotEnoughToUnpack(_, 1))));
}

#[test]
fn branches_follow_the_condition() {
    let e = program(
        vec![
            Bytecode::Load(0, 0),
            Bytecode::Branch(0, 2, 4),
            Bytecode::Load(1, 1),
            Bytecode::Return(1),
            Bytecode::Load(1, 2),
            Bytecode::Return(1),
        ],
        2,
        vec![],
        vec![Const::Bool(false), Const::Int(1), Const::Int(2)],
        vec![],
    );
    let mut rt = start(&e);
    assert!(matches!(run(&e, &mut rt), End::Exit(Object::Int(2))));
}

#[test]
fn branching_on_an_integer_fails() {
    let e = program(vec![Bytecode::Load(0, 0), Bytecode::Branch(0, 0, 0)], 1, vec![], vec![Const::Int(1)], vec![]);
    let mut rt = start(&e);
    assert!(matches!(run(&e, &mut rt), End::Fail(Fault::DataType(Object::Int(1), "bool"))));
}

#[test]
fn host_functions_are_handed_to_the_caller() {
    let e = program(
        vec![Bytecode::Pointer(0, Pointer::Rust, 3), Bytecode::Load(1, 0), Bytecode::Call(2, 0, vec![1, 1]), Bytecode::Return(2)],
        3,
        vec![],
        vec![Const::Int(6)],
        vec![],
    );
    let mut rt = start(&e);
    match run(&e, &mut rt) {
        End::Host(2, 3, args) => {
            assert_eq!(args.len(), 2);
            assert!(matches!(args[0], Object::Int(6)));
            rt.store(2, Object::Bool(true));
        }
        _ => panic!("expected a host call"),
    }
    assert!(matches!(run(&e, &mut rt), End::Exit(Object::Bool(true))));
}

#[test]
fn a_missing_register_stops_the_machine() {
    let e = program(vec![Bytecode::Copy(5, 0)], 1, vec![], vec![], vec![]);
    let mut rt = start(&e);
    assert!(matches!(run(&e, &mut rt), End::Stuck));
}

#[test]
fn running_off_the_end_stops_the_machine() {
    let e = program(vec![Bytecode::Load(0, 0)], 1, vec![], vec![Const::Int(0)], vec![]);
    let mut rt = start(&e);
    assert!(matches!(run(&e, &mut rt), End::Stuck));
}

#[test]
fn main_must_take_one_argument() {
    let mut e = program(vec![], 0, vec![], vec![], vec![]);
    e.main.args = 0;
    assert!(matches!(e.init(Object::Void), Err(Fault::NumArgsNotMatch(0, 1))));
}

#[test]
fn the_main_argument_is_the_programs() {
    let e = program(vec![Bytecode::Arg(0, 0), Bytecode::Return(0)], 1, vec![], vec![], vec![]);
    let mut rt = e.init(Object::Int(9)).ok().unwrap();
    assert!(matches!(run(&e, &mut rt), End::Exit(Object::Int(9))));
}

#[test]
fn float_arithmetic_goes_to_the_unit() {
    let a = Object::Float(1.5f32.to_bits());
    let b = Object::Float(2.25f32.to_bits());
    match a.binary(&BinOp::Add, &b, &fpu) {
        Ok(Object::Float(x)) => assert_eq!(f32::from_bits(x), 3.75),
        _ => panic!("expected a float"),
    }
    assert!(matches!(a.binary(&BinOp::Lt, &b, &fpu), Ok(Object::Bool(true))));
    assert!(matches!(a.binary(&BinOp::Ge, &b, &fpu), Ok(Object::Bool(false))));
}

#[test]
fn float_comparison_follows_ieee() {
    let nan = f32::NAN.to_bits();
    let one = 1.0f32.to_bits();
    let minus = (-2.0f32).to_bits();
    assert!(!float_eq(nan, nan));
    assert!(float_eq(0.0f32.to_bits(), (-0.0f32).to_bits()));
    assert!(!float_lt(0.0f32.to_bits(), (-0.0f32).to_bits()));
    assert!(float_lt(minus, one));
    assert!(!float_lt(one, minus));
    assert!(float_lt((-3.0f32).to_bits(), minus));
    assert!(!float_lt(nan, one));
}

#[test]
fn integer_overflow_and_division_by_zero_are_refused() {
    let max = Object::Int(i32::MAX);
    let one = Object::Int(1);
    let zero = Object::Int(0);
    assert!(matches!(max.binary(&BinOp::Add, &one, &fpu), Err(Fault::BinaryOperation("+", _, _))));
    assert!(matches!(one.binary(&BinOp::Div, &zero, &fpu), Err(Fault::BinaryOperation("/", _, _))));
    assert!(matches!(Object::Int(7).binary(&BinOp::Mod, &Object::Int(-3), &fpu), Ok(Object::Int(1))));
}

#[test]
fn structural_equality_of_lists() {
    let a = Object::List(vec![Object::Int(1), Object::Str("x".to_string())]);
    let b = Object::List(vec![Object::Int(1), Object::Str("x".to_string())]);
    let c = Object::List(vec![Object::Int(1), Object::Str("y".to_string())]);
    let d = Object::List(vec![Object::Int(1), Object::Bool(true)]);
    assert!(matches!(equals(&a, &b), Ok(true)));
    assert!(matches!(equals(&a, &c), Ok(false)));
    assert!(matches!(equals(&a, &d), Err(Fault::BinaryOperation("==", Object::Str(_), Object::Bool(true)))));
    assert!(matches!(a.binary(&BinOp::Ne, &c, &fpu), Ok(Object::Bool(true))));
}

#[test]
fn unary_operators() {
    assert!(matches!(Object::Int(3).unary(&UnaOp::Neg), Ok(Object::Int(-3))));
    assert!(matches!(Object::Bool(true).unary(&UnaOp::Not), Ok(Object::Bool(false))));
    match Object::Float(1.0f32.to_bits()).unary(&UnaOp::Neg) {
        Ok(Object::Float(x)) => assert_eq!(f32::from_bits(x), -1.0),
        _ => panic!("expected a float"),
    }
    assert!(matches!(Object::Str("s".to_string()).unary(&UnaOp::Pos), Err(Fault::UnaryOperation("+", _))));
}

#[test]
fn accessors_report_the_expected_type() {
    assert!(matches!(Object::Int(1).list(), Err(Fault::DataType(Object::Int(1), "list"))));
    assert!(matches!(Object::Bool(true).bool(), Ok(true)));
    assert!(matches!(Object::Int(4).integer(), Ok(4)));
    assert!(matches!(Object::Void.pointer(), Err(Fault::DataType(Object::Void, "ptr"))));
}
