use felys::bytecode::{Bytecode, Callable, Elysia, Group, III};
use felys::context::Lattice;
use felys::ir::{BinOp, Const, Fragment, Function, Instruction, Label, Phi, Terminator};
use felys::load::Source;
use felys::optimize::Demiurge;
use felys::register::{allocate, Intervals};

fn fpu(op: BinOp, x: u32, y: u32) -> Const {
    let a = f32::from_bits(x);
    let b = f32::from_bits(y);
    match op {
        BinOp::Add => Const::Float((a + b).to_bits()),
        BinOp::Sub => Const::Float((a - b).to_bits()),
        BinOp::Mul => Const::Float((a * b).to_bits()),
        BinOp::Div => Const::Float((a / b).to_bits()),
        BinOp::Mod => Const::Float((a % b).to_bits()),
        BinOp::Gt => Const::Bool(a > b),
        BinOp::Ge => Const::Bool(a >= b),
        BinOp::Lt => Const::Bool(a < b),
        BinOp::Le => Const::Bool(a <= b),
        BinOp::Eq => Const::Bool(a == b),
        BinOp::Ne => Const::Bool(a != b),
        _ => Const::Bool(false),
    }
}

fn frag(instructions: Vec<Instruction>, terminator: Terminator, predecessors: Vec<Label>) -> Fragment {
    Fragment { phis: vec![], instructions, terminator: Some(terminator), predecessors }
}

/// main: v0 = 2; v1 = 3; v2 = v0 + v1; return v2
fn adder() -> Function {
    let entry = frag(
        vec![
            Instruction::Load(0, Const::Int(2)),
            Instruction::Load(1, Const::Int(3)),
            Instruction::Binary(2, 0, BinOp::Add, 1),
        ],
        Terminator::Jump(Label::Exit),
        vec![],
    );
    let exit = frag(vec![], Terminator::Return(2), vec![Label::Entry]);
    Function { args: 1, vars: 3, blocks: vec![Some(entry), Some(exit)] }
}

/// f(x): if x > 0 { 1 } else { 2 }, with a phi at the exit.
fn chooser(cond: Option<bool>) -> Function {
    let test = match cond {
        Some(b) => Instruction::Load(2, Const::Bool(b)),
        None => Instruction::Binary(2, 0, BinOp::Gt, 1),
    };
    let entry = frag(
        vec![Instruction::Arg(0, 0), Instruction::Load(1, Const::Int(0)), test],
        Terminator::Branch(2, Label::Id(0), Label::Id(1)),
        vec![],
    );
    let yes = frag(vec![Instruction::Load(3, Const::Int(1))], Terminator::Jump(Label::Exit), vec![Label::Entry]);
    let no = frag(vec![Instruction::Load(4, Const::Int(2))], Terminator::Jump(Label::Exit), vec![Label::Entry]);
    let mut exit = frag(vec![], Terminator::Return(5), vec![Label::Id(0), Label::Id(1)]);
    exit.phis.push(Phi { var: 5, inputs: vec![(Label::Id(0), 3), (Label::Id(1), 4)] });
    Function { args: 1, vars: 6, blocks: vec![Some(entry), Some(exit), Some(yes), Some(no)] }
}

#[test]
fn analysis_folds_the_sum() {
    let f = adder();
    let meta = f.analyze(&fpu).ok().unwrap();
    assert!(matches!(meta.get(2), Lattice::Const(Const::Int(5))));
    assert!(meta.visits(Label::Entry));
    assert!(meta.visits(Label::Exit));
}

#[test]
fn analysis_leaves_arguments_unknown() {
    let f = chooser(None);
    let meta = f.analyze(&fpu).ok().unwrap();
    assert!(matches!(meta.get(0), Lattice::Bottom));
    assert!(matches!(meta.get(5), Lattice::Bottom));
    assert!(meta.visits(Label::Id(0)));
    assert!(meta.visits(Label::Id(1)));
}

#[test]
fn rewrite_turns_the_sum_into_a_load() {
    let mut f = adder();
    let meta = f.analyze(&fpu).ok().unwrap();
    assert!(f.decided(&meta));
    assert!(f.rewrite(&meta));
    let entry = f.get(Label::Entry).unwrap();
    assert!(matches!(entry.instructions[2], Instruction::Load(2, Const::Int(5))));
    assert!(!f.rewrite(&meta));
}

#[test]
fn optimize_removes_the_dead_side_of_a_constant_branch() {
    let mut f = chooser(Some(true));
    f.optimize(10, &fpu).ok().unwrap();
    assert!(!f.contains(Label::Id(1)));
    let mut found = false;
    for (_, fr) in f.safe() {
        for ins in fr.instructions.iter() {
            if let Instruction::Load(_, Const::Int(2)) = ins {
                found = true;
            }
        }
    }
    assert!(!found);
}

#[test]
fn optimize_keeps_both_sides_of_an_unknown_branch() {
    let mut f = chooser(None);
    f.optimize(10, &fpu).ok().unwrap();
    assert!(f.contains(Label::Entry));
    assert!(f.contains(Label::Exit));
    let exit = f.get(Label::Exit).unwrap();
    assert_eq!(exit.phis.len(), 1);
}

#[test]
fn order_and_safe_list_the_fragments() {
    let f = chooser(None);
    assert_eq!(f.order(), vec![Label::Entry, Label::Id(0), Label::Id(1), Label::Exit]);
    let labels: Vec<Label> = f.safe().into_iter().map(|(l, _)| l).collect();
    assert_eq!(labels, vec![Label::Entry, Label::Id(0), Label::Id(1), Label::Exit]);
}

#[test]
fn rpo_starts_at_the_entry_and_visits_every_reachable_fragment() {
    let f = chooser(None);
    let rpo = f.rpo();
    assert_eq!(rpo[0], Label::Entry);
    assert_eq!(rpo.len(), 4);
    assert_eq!(*rpo.last().unwrap(), Label::Exit);
    assert!(rpo.contains(&Label::Id(0)));
    assert!(rpo.contains(&Label::Id(1)));
}

#[test]
fn split_inserts_a_trampoline_on_a_critical_edge() {
    // entry branches to Id(0) or straight to the exit, which Id(0) reaches too
    let entry = frag(
        vec![Instruction::Arg(0, 0)],
        Terminator::Branch(0, Label::Id(0), Label::Exit),
        vec![],
    );
    let mid = frag(vec![], Terminator::Jump(Label::Exit), vec![Label::Entry]);
    let exit = frag(vec![], Terminator::Return(0), vec![Label::Entry, Label::Id(0)]);
    let mut f = Function { args: 1, vars: 1, blocks: vec![Some(entry), Some(exit), Some(mid)] };
    let before = f.blocks.len();
    f.split();
    assert_eq!(f.blocks.len(), before + 1);
    let entry = f.get(Label::Entry).unwrap();
    match entry.terminator {
        Some(Terminator::Branch(_, Label::Id(0), Label::Id(t))) => {
            let tramp = f.get(Label::Id(t)).unwrap();
            assert!(matches!(tramp.terminator, Some(Terminator::Jump(Label::Exit))));
            assert!(tramp.instructions.is_empty());
        }
        other => panic!("unexpected terminator {:?}", other),
    }
}

#[test]
fn copies_resolve_the_phi_on_each_edge() {
    let mut f = chooser(None);
    let copies = f.copies().unwrap();
    let at = |l: usize| &copies[l + 2];
    assert_eq!(at(0), &vec![felys::copies::Copy(5, 3)]);
    assert_eq!(at(1), &vec![felys::copies::Copy(5, 4)]);
    assert!(copies[0].is_empty());
}

#[test]
fn decycle_breaks_a_swap_with_a_fresh_variable() {
    let mut f = Function { args: 0, vars: 2, blocks: vec![] };
    let mut pending = vec![felys::copies::Copy(0, 1), felys::copies::Copy(1, 0)];
    f.decycle(&mut pending);
    assert_eq!(f.vars, 3);
    // run the copies one after another on a = 10, b = 20
    let mut st = vec![10, 20, 0];
    for felys::copies::Copy(d, s) in pending.iter() {
        st[*d] = st[*s];
    }
    assert_eq!(st[0], 20);
    assert_eq!(st[1], 10);
}

#[test]
fn decycle_orders_a_chain() {
    let mut f = Function { args: 0, vars: 3, blocks: vec![] };
    let mut pending = vec![felys::copies::Copy(1, 0), felys::copies::Copy(2, 1)];
    f.decycle(&mut pending);
    assert_eq!(f.vars, 3);
    let mut st = vec![1, 2, 3];
    for felys::copies::Copy(d, s) in pending.iter() {
        st[*d] = st[*s];
    }
    assert_eq!(st, vec![1, 1, 2]);
}

#[test]
fn allocation_reuses_a_register_once_a_range_ends() {
    // v0 lives over [0, 2], v1 over [1, 3], v2 over [2, 4]; v3 is never used
    let iv = Intervals {
        defs: vec![Some(0), Some(1), Some(2), None],
        uses: vec![Some(2), Some(3), Some(4), None],
    };
    let (regs, used) = allocate(&iv).unwrap();
    assert_eq!(regs.len(), 4);
    assert_eq!(regs[3], 0);
    assert_ne!(regs[0], regs[1]);
    assert_ne!(regs[1], regs[2]);
    assert_eq!(regs[0], regs[2]);
    assert_eq!(used, 2);
}

#[test]
fn ranges_that_touch_share_a_register() {
    let iv = Intervals { defs: vec![Some(0), Some(1)], uses: vec![Some(1), Some(2)] };
    let (regs, used) = allocate(&iv).unwrap();
    assert_eq!(regs, vec![1, 1]);
    assert_eq!(used, 1);
}

#[test]
fn allocation_separates_overlapping_ranges() {
    let iv = Intervals { defs: vec![Some(0), Some(0), Some(0)], uses: vec![Some(5), Some(5), Some(5)] };
    let (regs, used) = allocate(&iv).unwrap();
    assert_eq!(used, 3);
    assert!(regs[0] != regs[1] && regs[1] != regs[2] && regs[0] != regs[2]);
    assert!(regs.iter().all(|r| *r >= 1 && *r <= 3));
}

#[test]
fn codegen_lays_out_main() {
    let d = Demiurge { groups: vec![], fns: vec![], main: chooser(None) };
    let e = d.codegen().unwrap();
    assert_eq!(e.main.args, 1);
    assert!(!e.main.bytecodes.is_empty());
    assert!(e.main.bytecodes.iter().any(|b| matches!(b, Bytecode::Return(_))));
    assert!(e.main.bytecodes.iter().any(|b| matches!(b, Bytecode::Branch(_, _, _))));
    assert!(e.data.iter().any(|c| matches!(c, Const::Int(1))));
}

#[test]
fn optimize_then_codegen_a_whole_program() {
    let d = Demiurge { groups: vec![], fns: vec![(7, chooser(None))], main: adder() };
    let d = d.optimize(10, &fpu).ok().unwrap();
    assert_eq!(d.fns[0].0, 7);
    let e = d.codegen().unwrap();
    assert_eq!(e.main.args, 1);
    assert!(e.data.iter().any(|c| matches!(c, Const::Int(5))));
}

fn sample() -> Elysia {
    Elysia {
        main: Callable {
            args: 1,
            registers: 3,
            bytecodes: vec![
                Bytecode::Load(0, 0),
                Bytecode::Load(1, 1),
                Bytecode::Binary(2, 0, BinOp::Add, 1),
                Bytecode::List(0, vec![2, 1]),
                Bytecode::Return(0),
            ],
        },
        text: vec![Callable { args: 0, registers: 1, bytecodes: vec![Bytecode::Jump(0)] }],
        data: vec![Const::Int(2), Const::Str("three".to_string()), Const::Float(1.5f32.to_bits()), Const::Bool(true)],
        groups: vec![Group { indices: vec![(0, 0), (1, 1)], methods: vec![(2, 0)] }],
    }
}

#[test]
fn dump_then_load_gives_the_program_back() {
    let e = sample();
    let mut buf = Vec::new();
    e.dump(&mut buf);
    let mut src = Source::new(buf);
    let back: III = III::load(&mut src).ok().unwrap();
    assert_eq!(src.remaining(), 0);
    assert_eq!(format!("{:?}", back.main), format!("{:?}", e.main));
    assert_eq!(format!("{:?}", back.text), format!("{:?}", e.text));
    assert_eq!(format!("{:?}", back.data), format!("{:?}", e.data));
    assert_eq!(format!("{:?}", back.groups), format!("{:?}", e.groups));
}

#[test]
fn load_refuses_a_truncated_program() {
    let e = sample();
    let mut buf = Vec::new();
    e.dump(&mut buf);
    buf.truncate(buf.len() - 1);
    let mut src = Source::new(buf);
    assert!(III::load(&mut src).is_err());
}

#[test]
fn sweep_drops_an_unused_load() {
    let entry = frag(
        vec![Instruction::Load(0, Const::Int(1)), Instruction::Load(1, Const::Int(2))],
        Terminator::Jump(Label::Exit),
        vec![],
    );
    let exit = frag(vec![], Terminator::Return(1), vec![Label::Entry]);
    let mut f = Function { args: 0, vars: 2, blocks: vec![Some(entry), Some(exit)] };
    assert!(f.sweep());
    let entry = f.get(Label::Entry).unwrap();
    assert_eq!(entry.instructions.len(), 1);
    assert!(matches!(entry.instructions[0], Instruction::Load(1, Const::Int(2))));
    assert!(!f.sweep());
}

#[test]
fn rename_removes_a_phi_whose_inputs_agree() {
    let entry = frag(vec![Instruction::Arg(0, 0), Instruction::Load(1, Const::Int(7))], Terminator::Branch(0, Label::Id(0), Label::Id(1)), vec![]);
    let yes = frag(vec![], Terminator::Jump(Label::Exit), vec![Label::Entry]);
    let no = frag(vec![], Terminator::Jump(Label::Exit), vec![Label::Entry]);
    let mut exit = frag(vec![], Terminator::Return(2), vec![Label::Id(0), Label::Id(1)]);
    exit.phis.push(Phi { var: 2, inputs: vec![(Label::Id(0), 1), (Label::Id(1), 1)] });
    let mut f = Function { args: 1, vars: 3, blocks: vec![Some(entry), Some(exit), Some(yes), Some(no)] };
    assert!(f.rename());
    let exit = f.get(Label::Exit).unwrap();
    assert!(exit.phis.is_empty());
    assert!(matches!(exit.terminator, Some(Terminator::Return(1))));
    assert!(!f.rename());
}

#[test]
fn compact_merges_a_fragment_that_only_jumps() {
    let entry = frag(vec![Instruction::Load(0, Const::Int(3))], Terminator::Jump(Label::Id(0)), vec![]);
    let hop = frag(vec![], Terminator::Jump(Label::Exit), vec![Label::Entry]);
    let exit = frag(vec![], Terminator::Return(0), vec![Label::Id(0)]);
    let mut f = Function { args: 0, vars: 1, blocks: vec![Some(entry), Some(exit), Some(hop)] };
    assert!(f.compact());
    assert!(!f.contains(Label::Id(0)));
    let entry = f.get(Label::Entry).unwrap();
    assert!(matches!(entry.terminator, Some(Terminator::Jump(Label::Exit))));
    let exit = f.get(Label::Exit).unwrap();
    assert_eq!(exit.predecessors, vec![Label::Entry]);
    assert!(!f.compact());
}

#[test]
fn optimizing_twice_changes_nothing_more() {
    let mut f = chooser(Some(false));
    f.optimize(10, &fpu).ok().unwrap();
    let once = format!("{:?}", f);
    f.optimize(10, &fpu).ok().unwrap();
    assert_eq!(format!("{:?}", f), once);
    assert!(!f.contains(Label::Id(0)));
}

#[test]
fn analysis_of_a_constant_branch_reaches_one_side() {
    let f = chooser(Some(false));
    let meta = f.analyze(&fpu).ok().unwrap();
    assert!(!meta.visits(Label::Id(0)));
    assert!(meta.visits(Label::Id(1)));
    assert!(matches!(meta.get(5), Lattice::Const(Const::Int(2))));
}

#[test]
fn meet_laws_on_examples() {
    let vals = vec![Lattice::Top, Lattice::Bottom, Lattice::Const(Const::Int(1)), Lattice::Const(Const::Int(2)), Lattice::Const(Const::Bool(true))];
    for a in vals.iter() {
        assert!(a.meet(a).same(a));
        assert!(a.meet(&Lattice::Top).same(a));
        assert!(matches!(a.meet(&Lattice::Bottom), Lattice::Bottom));
        for b in vals.iter() {
            assert!(a.meet(b).same(&b.meet(a)));
            for c in vals.iter() {
                assert!(a.meet(b).meet(c).same(&a.meet(&b.meet(c))));
            }
        }
    }
}

#[test]
fn a_branch_on_an_integer_constant_is_refused() {
    let entry = frag(vec![Instruction::Load(0, Const::Int(1))], Terminator::Branch(0, Label::Exit, Label::Exit), vec![]);
    let exit = frag(vec![], Terminator::Return(0), vec![Label::Entry, Label::Entry]);
    let f = Function { args: 0, vars: 1, blocks: vec![Some(entry), Some(exit)] };
    assert!(f.analyze(&fpu).is_err());
}

#[test]
fn an_unreachable_exit_is_refused() {
    let entry = frag(vec![Instruction::Load(0, Const::Bool(true))], Terminator::Branch(0, Label::Id(0), Label::Exit), vec![Label::Id(0)]);
    let spin = frag(vec![], Terminator::Jump(Label::Entry), vec![Label::Entry]);
    let exit = frag(vec![], Terminator::Return(0), vec![Label::Entry]);
    let f = Function { args: 0, vars: 1, blocks: vec![Some(entry), Some(exit), Some(spin)] };
    assert!(matches!(f.analyze(&fpu), Err(felys::eval::Fault::ExitBlockUnreachable)));
}

/// f(n): i = 0; while i < n { t = i + n }; return i
fn counting_loop() -> Function {
    let entry = frag(
        vec![Instruction::Arg(0, 0), Instruction::Load(1, Const::Int(0))],
        Terminator::Jump(Label::Id(0)),
        vec![],
    );
    let head = frag(
        vec![Instruction::Binary(2, 1, BinOp::Lt, 0)],
        Terminator::Branch(2, Label::Id(1), Label::Exit),
        vec![Label::Entry, Label::Id(1)],
    );
    let body = frag(vec![Instruction::Binary(3, 1, BinOp::Add, 0)], Terminator::Jump(Label::Id(0)), vec![Label::Id(0)]);
    let exit = frag(vec![], Terminator::Return(1), vec![Label::Id(0)]);
    Function { args: 1, vars: 4, blocks: vec![Some(entry), Some(exit), Some(head), Some(body)] }
}

#[test]
fn precompute_separates_reads_from_writes() {
    let f = counting_loop();
    let body = f.get(Label::Id(1)).unwrap();
    let (uses, defs) = body.precompute(&vec![felys::copies::Copy(1, 3)], 4);
    assert_eq!(uses, vec![true, true, false, false]);
    assert_eq!(defs, vec![false, true, false, true]);
    let (uses, defs) = body.precompute(&vec![], 4);
    assert_eq!(uses, vec![true, true, false, false]);
    assert_eq!(defs, vec![false, false, false, true]);
}

#[test]
fn liveness_follows_the_loop() {
    let f = counting_loop();
    let (ins, outs) = f.liveness(&vec![vec![], vec![], vec![], vec![]]);
    assert_eq!(ins[0], vec![false, false, false, false]);
    assert_eq!(ins[1], vec![false, true, false, false]);
    assert_eq!(ins[2], vec![true, true, false, false]);
    assert_eq!(ins[3], vec![true, true, false, false]);
    assert_eq!(outs[0], vec![true, true, false, false]);
    assert_eq!(outs[1], vec![false, false, false, false]);
    assert_eq!(outs[2], vec![true, true, false, false]);
    assert_eq!(outs[3], vec![true, true, false, false]);
}

#[test]
fn liveness_stops_at_a_copy() {
    let f = counting_loop();
    let (ins, outs) = f.liveness(&vec![vec![], vec![], vec![], vec![felys::copies::Copy(1, 3)]]);
    assert_eq!(ins[3], vec![true, true, false, false]);
    assert_eq!(outs[3], vec![true, true, false, false]);
    assert_eq!(ins[0], vec![false, false, false, false]);
}

#[test]
fn prune_drops_a_phi_left_without_inputs() {
    // entry branches on `true`, so Id(0) is never reached; the exit's phi v2
    // only reads v1 from Id(0)
    let entry = frag(vec![Instruction::Load(0, Const::Bool(true))], Terminator::Branch(0, Label::Exit, Label::Id(0)), vec![]);
    let side = frag(vec![Instruction::Load(1, Const::Int(5))], Terminator::Jump(Label::Exit), vec![Label::Entry]);
    let mut exit = frag(vec![], Terminator::Return(0), vec![Label::Entry, Label::Id(0)]);
    exit.phis.push(Phi { var: 2, inputs: vec![(Label::Id(0), 1)] });
    let mut f = Function { args: 0, vars: 3, blocks: vec![Some(entry), Some(exit), Some(side)] };
    let meta = f.analyze(&fpu).ok().unwrap();
    assert!(f.prune(&meta));
    assert!(!f.contains(Label::Id(0)));
    let exit = f.get(Label::Exit).unwrap();
    assert!(exit.phis.is_empty());
    assert_eq!(exit.predecessors, vec![Label::Entry]);
}

#[test]
fn prune_without_unreached_fragments_changes_nothing() {
    let mut f = adder();
    let before = format!("{:?}", f);
    let meta = f.analyze(&fpu).ok().unwrap();
    assert!(!f.prune(&meta));
    assert_eq!(format!("{:?}", f), before);
}

#[test]
fn rename_drops_a_phi_that_copies_one_variable() {
    // the exit phi v3 reads v1 from both sides: it only copies v1
    let entry = frag(vec![Instruction::Arg(0, 0), Instruction::Load(1, Const::Int(7))], Terminator::Branch(0, Label::Id(0), Label::Id(1)), vec![]);
    let yes = frag(vec![], Terminator::Jump(Label::Exit), vec![Label::Entry]);
    let no = frag(vec![], Terminator::Jump(Label::Exit), vec![Label::Entry]);
    let mut exit = frag(vec![], Terminator::Return(3), vec![Label::Id(0), Label::Id(1)]);
    exit.phis.push(Phi { var: 3, inputs: vec![(Label::Id(0), 1), (Label::Id(1), 1)] });
    let mut f = Function { args: 1, vars: 4, blocks: vec![Some(entry), Some(exit), Some(yes), Some(no)] };
    assert!(f.rename());
    let exit = f.get(Label::Exit).unwrap();
    assert!(exit.phis.is_empty());
    assert!(matches!(exit.terminator, Some(Terminator::Return(1))));
    assert!(!f.rename());
}

#[test]
fn codegen_numbers_what_main_points_to() {
    let entry = frag(
        vec![
            Instruction::Pointer(0, felys::ir::Pointer::Group, 3),
            Instruction::Pointer(1, felys::ir::Pointer::Function, 9),
        ],
        Terminator::Jump(Label::Exit),
        vec![],
    );
    let exit = frag(vec![], Terminator::Return(1), vec![Label::Entry]);
    let main = Function { args: 0, vars: 2, blocks: vec![Some(entry), Some(exit)] };
    let group = Group { indices: vec![], methods: vec![(0, 7)] };
    let d = Demiurge { groups: vec![(3, group)], fns: vec![(7, adder()), (9, adder())], main };
    let e = d.codegen().unwrap();
    assert_eq!(e.groups.len(), 1);
    assert_eq!(e.text.len(), 2);
    assert!(e.main.bytecodes.iter().any(|b| matches!(b, Bytecode::Pointer(_, felys::ir::Pointer::Group, 0))));
    assert!(e.main.bytecodes.iter().any(|b| matches!(b, Bytecode::Pointer(_, felys::ir::Pointer::Function, 0))));
    assert_eq!(e.groups[0].methods[0].1, 1);
}

#[test]
fn codegen_refuses_a_pointer_to_a_missing_function() {
    let entry = frag(vec![Instruction::Pointer(0, felys::ir::Pointer::Function, 4)], Terminator::Jump(Label::Exit), vec![]);
    let exit = frag(vec![], Terminator::Return(0), vec![Label::Entry]);
    let main = Function { args: 0, vars: 1, blocks: vec![Some(entry), Some(exit)] };
    let d = Demiurge { groups: vec![], fns: vec![(7, adder())], main };
    assert!(d.codegen().is_none());
}

#[test]
fn rpo_puts_each_fragment_before_those_it_leads_to() {
    let f = chooser(None);
    let rpo = f.rpo();
    let at = |l: Label| rpo.iter().position(|x| *x == l).unwrap();
    assert!(at(Label::Entry) < at(Label::Id(0)));
    assert!(at(Label::Entry) < at(Label::Id(1)));
    assert!(at(Label::Id(0)) < at(Label::Exit));
    assert!(at(Label::Id(1)) < at(Label::Exit));
}

#[test]
fn an_unknown_bytecode_tag_takes_only_its_byte() {
    let mut src = Source::new(vec![0x10, 0, 0]);
    let r = Bytecode::load(&mut src);
    assert!(matches!(r, Err(felys::format::LoadError::InvalidData)));
    assert_eq!(src.remaining(), 2);
}

#[test]
fn an_unknown_constant_tag_takes_only_its_byte() {
    let mut src = Source::new(vec![0x9, 1, 2, 3]);
    let r = Const::load(&mut src);
    assert!(matches!(r, Err(felys::format::LoadError::InvalidData)));
    assert_eq!(src.remaining(), 3);
}
