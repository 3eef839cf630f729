use felys::eval;
use felys::ir::{Const, Pointer};
use felys::runtime::{Fault, Object};

fn float(x: u32) -> String {
    format!("{}", f32::from_bits(x))
}

#[test]
fn scalars_read_as_the_language_prints_them() {
    assert_eq!(Object::Int(0).text(&float), "0");
    assert_eq!(Object::Int(-23).text(&float), "-23");
    assert_eq!(Object::Int(i32::MIN).text(&float), "-2147483648");
    assert_eq!(Object::Int(1234567890).text(&float), "1234567890");
    assert_eq!(Object::Bool(true).text(&float), "true");
    assert_eq!(Object::Str(String::from("hi")).text(&float), "hi");
    assert_eq!(Object::Float(1.5f32.to_bits()).text(&float), "1.5");
}

#[test]
fn pointers_and_groups_read_in_hexadecimal() {
    assert_eq!(Object::Pointer(Pointer::Function, 255).text(&float), "F @ 0x000000ff");
    assert_eq!(Object::Pointer(Pointer::Rust, 0xdeadbeef).text(&float), "R @ 0xdeadbeef");
    assert_eq!(Object::Group(5, vec![Object::Bool(false), Object::Int(7)]).text(&float), "<false, 7> as 0x00000005");
}

#[test]
fn collections_separate_their_items_by_commas() {
    let inner = Object::Tuple(vec![Object::Int(1), Object::Str(String::from("a"))]);
    let list = Object::List(vec![inner, Object::List(vec![]), Object::Int(-2)]);
    assert_eq!(list.text(&float), "[(1, a), [], -2]");
    assert_eq!(Object::Tuple(vec![]).text(&float), "()");
}

#[test]
fn faults_of_the_machine_read_as_messages() {
    assert_eq!(Fault::NumArgsNotMatch(2, 3).text(&float), "Elysia: expected 2 arguments, got 3\n");
    assert_eq!(
        Fault::IndexOutOfBounds(Object::List(vec![Object::Int(1)]), -1).text(&float),
        "Elysia: index -1 is out of boundaries for `[1]`\n"
    );
    assert_eq!(
        Fault::BinaryOperation("+", Object::Int(1), Object::Bool(true)).text(&float),
        "Elysia: cannot apply `+` to `1` and `true`\n"
    );
    assert_eq!(
        Fault::NotEnoughToUnpack(Object::Tuple(vec![]), 4).text(&float),
        "Elysia: cannot unpack element at index 4 for `()`\n"
    );
    assert_eq!(Fault::DataType(Object::Int(3), "bool").text(&float), "Elysia: expecting `3` to be `bool`\n");
}

#[test]
fn constants_and_compile_faults_read_as_messages() {
    assert_eq!(Const::Str(String::from("hi")).text(&float), "\"hi\"");
    assert_eq!(Const::Int(-5).text(&float), "-5");
    assert_eq!(
        eval::Fault::ConstantType(Const::Int(3), "bool").text(&float),
        "Demiurge: expecting `3` to be `bool`\n"
    );
    assert_eq!(
        eval::Fault::BinaryOperation("-", Const::Str(String::from("a")), Const::Bool(false)).text(&float),
        "Demiurge: cannot apply `-` to `\"a\"` and `false`\n"
    );
    assert_eq!(eval::Fault::ExitBlockUnreachable.text(&float), "Demiurge: infinite loop detected\n");
}
