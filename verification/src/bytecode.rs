use vstd::prelude::*;
use crate::ir::{BinOp, Const, ConstV, Pointer, UnaOp};

verus! {

/// A register of a frame.
pub type Reg = u8;

/// A position in a table or in a stream of bytecodes.
pub type Index = u32;

/// An interned name.
pub type Id = u32;

/// An instruction of the virtual machine.
#[derive(Debug, Clone)]
pub enum Bytecode {
    Arg(Reg, Index),
    Field(Reg, Reg, Id),
    Unpack(Reg, Reg, Index),
    Pointer(Reg, Pointer, Index),
    Load(Reg, Index),
    Binary(Reg, Reg, BinOp, Reg),
    Unary(Reg, UnaOp, Reg),
    Call(Reg, Reg, Vec<Reg>),
    List(Reg, Vec<Reg>),
    Tuple(Reg, Vec<Reg>),
    Index(Reg, Reg, Reg),
    Method(Reg, Reg, Id, Vec<Reg>),
    Branch(Reg, Index, Index),
    Jump(Index),
    Return(Reg),
    Copy(Reg, Reg),
}

/// The mathematical value of a bytecode.
pub enum BytecodeV {
    Arg(Reg, Index),
    Field(Reg, Reg, Id),
    Unpack(Reg, Reg, Index),
    Pointer(Reg, Pointer, Index),
    Load(Reg, Index),
    Binary(Reg, Reg, BinOp, Reg),
    Unary(Reg, UnaOp, Reg),
    Call(Reg, Reg, Seq<Reg>),
    List(Reg, Seq<Reg>),
    Tuple(Reg, Seq<Reg>),
    Index(Reg, Reg, Reg),
    Method(Reg, Reg, Id, Seq<Reg>),
    Branch(Reg, Index, Index),
    Jump(Index),
    Return(Reg),
    Copy(Reg, Reg),
}

impl View for Bytecode {
    type V = BytecodeV;

    open spec fn view(&self) -> BytecodeV {
        match self {
            Bytecode::Arg(a, b) => BytecodeV::Arg(*a, *b),
            Bytecode::Field(a, b, c) => BytecodeV::Field(*a, *b, *c),
            Bytecode::Unpack(a, b, c) => BytecodeV::Unpack(*a, *b, *c),
            Bytecode::Pointer(a, b, c) => BytecodeV::Pointer(*a, *b, *c),
            Bytecode::Load(a, b) => BytecodeV::Load(*a, *b),
            Bytecode::Binary(a, b, c, d) => BytecodeV::Binary(*a, *b, *c, *d),
            Bytecode::Unary(a, b, c) => BytecodeV::Unary(*a, *b, *c),
            Bytecode::Call(a, b, v) => BytecodeV::Call(*a, *b, v@),
            Bytecode::List(a, v) => BytecodeV::List(*a, v@),
            Bytecode::Tuple(a, v) => BytecodeV::Tuple(*a, v@),
            Bytecode::Index(a, b, c) => BytecodeV::Index(*a, *b, *c),
            Bytecode::Method(a, b, c, v) => BytecodeV::Method(*a, *b, *c, v@),
            Bytecode::Branch(a, b, c) => BytecodeV::Branch(*a, *b, *c),
            Bytecode::Jump(a) => BytecodeV::Jump(*a),
            Bytecode::Return(a) => BytecodeV::Return(*a),
            Bytecode::Copy(a, b) => BytecodeV::Copy(*a, *b),
        }
    }
}

/// A compiled function: its number of arguments, the number of registers
/// its frame needs, and its code.
#[derive(Debug, Clone)]
pub struct Callable {
    pub args: Reg,
    pub registers: Reg,
    pub bytecodes: Vec<Bytecode>,
}

/// The mathematical value of a callable.
pub struct CallableV {
    pub args: Reg,
    pub registers: Reg,
    pub bytecodes: Seq<BytecodeV>,
}

impl View for Callable {
    type V = CallableV;

    open spec fn view(&self) -> CallableV {
        CallableV {
            args: self.args,
            registers: self.registers,
            bytecodes: self.bytecodes@.map_values(|b: Bytecode| b@),
        }
    }
}

/// A group (a record type): the position of each field name, and the
/// callable of each method name.
#[derive(Debug, Clone)]
pub struct Group {
    pub indices: Vec<(Id, Index)>,
    pub methods: Vec<(Id, Index)>,
}

/// The mathematical value of a group.
pub struct GroupV {
    pub indices: Seq<(Id, Index)>,
    pub methods: Seq<(Id, Index)>,
}

impl View for Group {
    type V = GroupV;

    open spec fn view(&self) -> GroupV {
        GroupV { indices: self.indices@, methods: self.methods@ }
    }
}

/// The mathematical value of a whole program.
pub struct ProgramV {
    pub main: CallableV,
    pub text: Seq<CallableV>,
    pub data: Seq<ConstV>,
    pub groups: Seq<GroupV>,
}

/// A program ready to run: the main callable, the other callables, the
/// constant pool and the groups.
#[derive(Debug)]
pub struct Elysia {
    pub main: Callable,
    pub text: Vec<Callable>,
    pub data: Vec<Const>,
    pub groups: Vec<Group>,
}

impl View for Elysia {
    type V = ProgramV;

    open spec fn view(&self) -> ProgramV {
        ProgramV {
            main: self.main@,
            text: self.text@.map_values(|c: Callable| c@),
            data: self.data@.map_values(|c: Const| c@),
            groups: self.groups@.map_values(|g: Group| g@),
        }
    }
}

/// A program as read back from its binary form.
#[derive(Debug)]
pub struct III {
    pub main: Callable,
    pub text: Vec<Callable>,
    pub data: Vec<Const>,
    pub groups: Vec<Group>,
}

impl View for III {
    type V = ProgramV;

    open spec fn view(&self) -> ProgramV {
        ProgramV {
            main: self.main@,
            text: self.text@.map_values(|c: Callable| c@),
            data: self.data@.map_values(|c: Const| c@),
            groups: self.groups@.map_values(|g: Group| g@),
        }
    }
}

} // verus!
