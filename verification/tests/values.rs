use felys::context::{Context, Lattice, Renamer};
use felys::ir::{BinOp, Const, UnaOp};
use felys::optim::Random;

fn no_float(_op: BinOp, _x: u32, _y: u32) -> Const {
    Const::Int(0)
}

#[test]
fn integer_addition_folds() {
    let r = Const::Int(2).binary(&BinOp::Add, &Const::Int(3), &no_float).unwrap();
    assert!(matches!(r, Const::Int(5)));
}

#[test]
fn integer_overflow_is_refused() {
    let r = Const::Int(i32::MAX).binary(&BinOp::Add, &Const::Int(1), &no_float);
    assert!(r.is_err());
}

#[test]
fn boolean_negation() {
    let r = Const::Bool(true).unary(&UnaOp::Not).unwrap();
    assert!(matches!(r, Const::Bool(false)));
}

#[test]
fn meet_of_two_constants() {
    let a = Lattice::Const(Const::Int(1));
    let b = Lattice::Const(Const::Int(2));
    assert!(matches!(a.meet(&b), Lattice::Bottom));
    assert!(matches!(a.meet(&Lattice::Top), Lattice::Const(Const::Int(1))));
    assert!(matches!(Lattice::Top.meet(&Lattice::Top), Lattice::Top));
}

#[test]
fn renamer_follows_chains() {
    let mut r = Renamer::new();
    r.insert(1, 2);
    r.insert(2, 3);
    assert_eq!(r.get(1), 3);
    assert_eq!(r.get(4), 4);
}

#[test]
fn context_update_queues_changes() {
    let mut c = Context::new(3);
    assert!(matches!(c.get(1), Lattice::Top));
    assert!(matches!(c.get(7), Lattice::Top));
    c.update(1, Lattice::Bottom);
    assert!(matches!(c.get(1), Lattice::Bottom));
    assert_eq!(c.ssa.len(), 1);
    c.update(1, Lattice::Bottom);
    assert_eq!(c.ssa.len(), 1);
}

#[test]
fn random_follows_the_congruence() {
    let mut r = Random::new(0);
    assert_eq!(r.advance(), 1013904223);
    assert_eq!(r.advance(), (1664525u64 * 1013904223 + 1013904223) % (1u64 << 32));
}

#[test]
fn renamer_stops_where_a_cycle_closes() {
    let mut r = Renamer::new();
    r.insert(1, 2);
    r.insert(2, 3);
    r.insert(3, 2);
    assert_eq!(r.get(1), 3);
}
