use felys::eval::Fault;
use felys::generate::{Generation, Pooling, Worker};
use felys::ir::{BinOp, Const, Function, Instruction, Label, Pointer, Terminator};
use felys::bytecode::Bytecode;

fn fpu(_op: BinOp, _x: u32, _y: u32) -> Const {
    Const::Bool(false)
}

fn empty() -> Generation {
    Generation {
        consts: Pooling { pool: vec![] },
        groups: Worker { indices: vec![], source: vec![], worklist: vec![] },
        functions: Worker { indices: vec![], source: vec![], worklist: vec![] },
    }
}

#[test]
fn worker_numbers_keys_as_it_meets_them() {
    let mut w: Worker<u8> = Worker { indices: vec![], source: vec![(7, 70), (9, 90)], worklist: vec![] };
    assert_eq!(w.get(9), Some(0));
    assert_eq!(w.get(7), Some(1));
    assert_eq!(w.get(9), Some(0));
    assert_eq!(w.get(8), None);
    assert_eq!(w.worklist.len(), 2);
    assert!(w.source.is_empty());
}

#[test]
fn a_pointer_to_an_unknown_function_does_not_compile() {
    let mut ctx = empty();
    let regs = vec![0u8, 1u8];
    let ins = Instruction::Pointer(0, Pointer::Function, 3);
    assert!(ins.codegen(&regs, &mut ctx).is_none());
    let host = Instruction::Pointer(0, Pointer::Rust, 3);
    assert!(matches!(host.codegen(&regs, &mut ctx), Some(Bytecode::Pointer(0, Pointer::Rust, 3))));
}

#[test]
fn a_pointer_gets_the_index_of_its_function() {
    let mut ctx = empty();
    ctx.functions.source.push((5, Function { args: 0, vars: 0, blocks: vec![] }));
    let regs = vec![4u8];
    let ins = Instruction::Pointer(0, Pointer::Function, 5);
    assert!(matches!(ins.codegen(&regs, &mut ctx), Some(Bytecode::Pointer(4, Pointer::Function, 0))));
    assert_eq!(ctx.functions.worklist.len(), 1);
}

#[test]
fn loads_share_the_pool() {
    let mut ctx = empty();
    let regs = vec![0u8, 1u8];
    let a = Instruction::Load(0, Const::Int(5));
    let b = Instruction::Load(1, Const::Int(6));
    assert!(matches!(a.codegen(&regs, &mut ctx), Some(Bytecode::Load(0, 0))));
    assert!(matches!(b.codegen(&regs, &mut ctx), Some(Bytecode::Load(1, 1))));
    assert!(matches!(a.codegen(&regs, &mut ctx), Some(Bytecode::Load(0, 0))));
    assert_eq!(ctx.consts.pool.len(), 2);
}

#[test]
fn a_jump_to_code_without_a_start_does_not_compile() {
    let regs = vec![0u8];
    let starts: Vec<Option<usize>> = vec![Some(0), None];
    assert!(Terminator::Jump(Label::Exit).codegen(&regs, &starts).is_none());
    assert!(Terminator::Jump(Label::Id(4)).codegen(&regs, &starts).is_none());
    assert!(matches!(Terminator::Jump(Label::Entry).codegen(&regs, &starts), Some(Bytecode::Jump(0))));
    assert!(matches!(Terminator::Return(0).codegen(&regs, &starts), Some(Bytecode::Return(0))));
}

#[test]
fn folding_an_int_with_a_bool_is_refused() {
    let entry = felys::ir::Fragment {
        phis: vec![],
        instructions: vec![
            Instruction::Load(0, Const::Int(1)),
            Instruction::Load(1, Const::Bool(true)),
            Instruction::Binary(2, 0, BinOp::Sub, 1),
        ],
        terminator: Some(Terminator::Jump(Label::Exit)),
        predecessors: vec![],
    };
    let exit = felys::ir::Fragment {
        phis: vec![],
        instructions: vec![],
        terminator: Some(Terminator::Return(2)),
        predecessors: vec![Label::Entry],
    };
    let mut f = Function { args: 0, vars: 3, blocks: vec![Some(entry), Some(exit)] };
    assert!(matches!(f.analyze(&fpu), Err(Fault::ConstantType(Const::Bool(true), "int"))));
    let before = format!("{:?}", f);
    assert!(f.optimize(10, &fpu).is_err());
    assert_eq!(format!("{:?}", f), before);
}
