use vstd::prelude::*;
use std::collections::VecDeque;
use crate::context::{below, height, meet_descends, meet_spec, Lattice, LatticeV};
use crate::eval::{binary_agrees, eval_binary, eval_unary, kind_name, unary_agrees, want_bool, Fault, Kind, Outcome};
use crate::ir::{label_at, label_of, slot, slot_of, BinOp, Const, ConstV, Fragment, Function, Instruction, Label, Phi, Terminator, UnaOp, Var};

verus! {

/// Which statement of a fragment reads a variable.
#[derive(Debug, Clone, Copy, PartialEq, Eq, Structural)]
pub enum Id {
    Phi(usize),
    Ins(usize),
    Term,
}

/// Sum of the heights of lattice elements.
pub open spec fn pot(s: Seq<Lattice>) -> nat
    decreases s.len(),
{
    if s.len() == 0 {
        0
    } else {
        pot(s.drop_last()) + height(s.last()@)
    }
}

proof fn lemma_pot_update(s: Seq<Lattice>, i: int, x: Lattice)
    requires
        0 <= i < s.len(),
    ensures
        pot(s.update(i, x)) + height(s[i]@) == pot(s) + height(x@),
    decreases s.len(),
{
    let t = s.update(i, x);
    if i == s.len() - 1 {
        assert(t.drop_last() =~= s.drop_last());
    } else {
        lemma_pot_update(s.drop_last(), i, x);
        assert(t.drop_last() =~= s.drop_last().update(i, x));
    }
}

/// Number of `false` entries.
pub open spec fn falses(s: Seq<bool>) -> nat
    decreases s.len(),
{
    if s.len() == 0 {
        0
    } else {
        falses(s.drop_last()) + if s.last() {
            0nat
        } else {
            1nat
        }
    }
}

pub proof fn lemma_falses_set(s: Seq<bool>, i: int)
    requires
        0 <= i < s.len(),
        !s[i],
    ensures
        falses(s.update(i, true)) + 1 == falses(s),
    decreases s.len(),
{
    let t = s.update(i, true);
    if i == s.len() - 1 {
        assert(t.drop_last() =~= s.drop_last());
    } else {
        lemma_falses_set(s.drop_last(), i);
        assert(t.drop_last() =~= s.drop_last().update(i, true));
    }
}

/// The targets of the terminator of the fragment a label names.
pub open spec fn succs(f: Function, p: Label) -> Seq<Label> {
    if f.has(p) && f.frag(p)->0.terminator is Some {
        f.frag(p)->0.terminator->0.targets()
    } else {
        seq![]
    }
}

/// Whether a pair may be queued as a control-flow edge: the start of the
/// function, or a label and one of its targets.
pub open spec fn edge_ok(f: Function, e: (Label, Label)) -> bool {
    (e.0 == Label::Entry && e.1 == Label::Entry) || (f.has(e.0) && succs(f, e.0).contains(e.1))
}

/// The state of the sparse conditional constant propagation: the value of
/// each variable, the fragments reached, the control-flow edges taken, and
/// the two worklists.
pub struct Meta {
    visited: Vec<bool>,
    values: Vec<Lattice>,
    started: bool,
    first: Vec<bool>,
    second: Vec<bool>,
    flow: VecDeque<(Label, Label)>,
    ssa: VecDeque<Var>,
}

impl Meta {
    /// The value of a variable; variables the analysis does not know are `Top`.
    pub closed spec fn value(self, v: Var) -> LatticeV {
        if v < self.values@.len() {
            self.values@[v as int]@
        } else {
            LatticeV::Top
        }
    }

    /// Whether the fragment a label names was reached.
    pub closed spec fn seen(self, l: Label) -> bool {
        let s = slot_of(l);
        0 <= s < self.visited@.len() && self.visited@[s]
    }

    /// Whether control was found to flow from `p` to `t`.
    pub closed spec fn executed(self, f: Function, p: Label, t: Label) -> bool {
        let s = slot_of(p);
        ||| p == Label::Entry && t == Label::Entry && self.started
        ||| 0 <= s < self.first@.len() && succs(f, p).len() > 0 && succs(f, p)[0] == t && self.first@[s]
        ||| 0 <= s < self.second@.len() && succs(f, p).len() > 1 && succs(f, p)[1] == t
            && self.second@[s]
    }

    /// Edges not taken yet, as a measure for termination.
    pub closed spec fn unset(self) -> nat {
        (if self.started {
            0nat
        } else {
            1nat
        }) + falses(self.first@) + falses(self.second@)
    }

    /// How far the values can still descend, plus the pending variables.
    pub closed spec fn weight(self) -> nat {
        pot(self.values@) + self.ssa@.len()
    }

    /// The invariant of the analysis of `f`.
    pub closed spec fn ok(self, f: Function) -> bool {
        &&& self.values@.len() == f.vars
        &&& self.visited@.len() == f.blocks@.len()
        &&& self.first@.len() == f.blocks@.len()
        &&& self.second@.len() == f.blocks@.len()
        &&& forall|i: int| 0 <= i < self.flow@.len() ==> edge_ok(f, #[trigger] self.flow@[i])
        &&& forall|i: int| 0 <= i < self.ssa@.len() ==> #[trigger] self.ssa@[i] < f.vars
        &&& forall|s: int| 0 <= s < self.visited@.len() && #[trigger] self.visited@[s] ==> f.blocks@[s] is Some
    }

    /// The number of pending control-flow edges.
    pub closed spec fn pending(self) -> nat {
        self.flow@.len()
    }

    /// The number of pending variables.
    pub closed spec fn waiting(self) -> nat {
        self.ssa@.len()
    }

    /// Whether nothing changed but pending control-flow edges were added.
    pub closed spec fn same_but_flow(self, other: Meta) -> bool {
        &&& self.values == other.values
        &&& self.visited == other.visited
        &&& self.started == other.started
        &&& self.first == other.first
        &&& self.second == other.second
        &&& self.ssa == other.ssa
    }

    /// The state before anything is known, for `vars` variables and `slots`
    /// fragment slots.
    fn new(vars: usize, slots: usize) -> (m: Self)
        ensures
            m.values@.len() == vars,
            forall|v: Var| v < vars ==> m.value(v) == LatticeV::Top,
            forall|l: Label| !m.seen(l),
            forall|s: int| 0 <= s < m.visited@.len() ==> !m.visited@[s],
            m.visited@.len() == slots,
            m.first@.len() == slots,
            m.second@.len() == slots,
            m.flow@.len() == 0,
            m.ssa@.len() == 0,
            !m.started,
            forall|s: int| 0 <= s < slots ==> !m.first@[s] && !m.second@[s],
    {
        let mut values: Vec<Lattice> = Vec::new();
        let mut i: usize = 0;
        while i < vars
            invariant
                i <= vars,
                values@.len() == i,
                forall|j: int| 0 <= j < i ==> values@[j]@ == LatticeV::Top,
            decreases vars - i,
        {
            values.push(Lattice::Top);
            i = i + 1;
        }
        let mut visited: Vec<bool> = Vec::new();
        let mut first: Vec<bool> = Vec::new();
        let mut second: Vec<bool> = Vec::new();
        let mut i: usize = 0;
        while i < slots
            invariant
                i <= slots,
                visited@.len() == i,
                first@.len() == i,
                second@.len() == i,
                forall|j: int| 0 <= j < i ==> !visited@[j] && !first@[j] && !second@[j],
            decreases slots - i,
        {
            visited.push(false);
            first.push(false);
            second.push(false);
            i = i + 1;
        }
        Meta { visited, values, started: false, first, second, flow: VecDeque::new(), ssa: VecDeque::new() }
    }

    /// The value of a variable.
    pub fn get(&self, var: Var) -> (r: Lattice)
        ensures
            r@ == self.value(var),
    {
        if var < self.values.len() {
            self.values[var].dup()
        } else {
            Lattice::Top
        }
    }

    /// Whether the fragment a label names was reached.
    pub fn visits(&self, label: Label) -> (b: bool)
        ensures
            b == self.seen(label),
    {
        let s = match label {
            Label::Entry => 0,
            Label::Exit => 1,
            Label::Id(i) => {
                if i >= self.visited.len() || i > usize::MAX - 2 {
                    return false;
                }
                i + 2
            },
        };
        s < self.visited.len() && self.visited[s]
    }

    /// Lowers the value of `var` to its meet with `new`; when it changes, the
    /// variable is queued so that its users are analysed again.
    fn update(&mut self, f: &Function, var: Var, new: Lattice)
        requires
            old(self).ok(*f),
            var < f.vars,
        ensures
            final(self).ok(*f),
            final(self).value(var) == meet_spec(old(self).value(var), new@),
            forall|v: Var| v != var ==> final(self).value(v) == old(self).value(v),
            final(self).visited == old(self).visited,
            final(self).started == old(self).started,
            final(self).first == old(self).first,
            final(self).second == old(self).second,
            final(self).flow == old(self).flow,
            final(self).weight() <= old(self).weight(),
            pot(final(self).values@) <= pot(old(self).values@),
            final(self).ssa@ == if final(self).value(var) == old(self).value(var) {
                old(self).ssa@
            } else {
                old(self).ssa@.push(var)
            },
    {
        let merged = self.values[var].meet(&new);
        proof {
            meet_descends(self.values@[var as int]@, new@);
        }
        if !merged.same(&self.values[var]) {
            proof {
                lemma_pot_update(self.values@, var as int, merged);
            }
            self.values.set(var, merged);
            self.ssa.push_back(var);
        }
    }

    /// Queues a control-flow edge.
    fn push(&mut self, f: &Function, from: Label, to: Label)
        requires
            old(self).ok(*f),
            f.has(from),
            succs(*f, from).contains(to),
        ensures
            final(self).ok(*f),
            final(self).same_but_flow(*old(self)),
            final(self).flow@ == old(self).flow@.push((from, to)),
    {
        self.flow.push_back((from, to));
        proof {
            assert forall|i: int| 0 <= i < self.flow@.len() implies edge_ok(*f, #[trigger] self.flow@[i]) by {
                if i < old(self).flow@.len() {
                    assert(self.flow@[i] == old(self).flow@[i]);
                }
            }
        }
    }

    /// Whether control was found to flow from `from` to `to`.
    fn taken(&self, f: &Function, from: Label, to: Label) -> (b: bool)
        requires
            self.ok(*f),
            f.wf(),
        ensures
            b == self.executed(*f, from, to),
    {
        if from == Label::Entry && to == Label::Entry && self.started {
            return true;
        }
        match f.get(from) {
            None => false,
            Some(fragment) => {
                let s = slot(from);
                match fragment.terminator {
                    Some(Terminator::Branch(_, yes, no)) => (yes == to && self.first[s]) || (no == to
                        && self.second[s]),
                    Some(Terminator::Jump(t)) => t == to && self.first[s],
                    _ => false,
                }
            },
        }
    }

    /// Records that control flows from `from` to `to`.
    fn mark(&mut self, f: &Function, from: Label, to: Label)
        requires
            old(self).ok(*f),
            f.wf(),
            edge_ok(*f, (from, to)),
            !old(self).executed(*f, from, to),
        ensures
            final(self).ok(*f),
            final(self).executed(*f, from, to),
            forall|p: Label, t: Label| #[trigger] final(self).executed(*f, p, t) ==> old(self).executed(*f, p, t) || (p == from && t == to),
            forall|p: Label, t: Label| old(self).executed(*f, p, t) ==> #[trigger] final(self).executed(*f, p, t),
            final(self).unset() < old(self).unset(),
            final(self).values == old(self).values,
            final(self).visited == old(self).visited,
            final(self).flow == old(self).flow,
            final(self).ssa == old(self).ssa,
    {
        if from == Label::Entry && to == Label::Entry {
            self.started = true;
            return;
        }
        let fragment = f.get(from).unwrap();
        let s = slot(from);
        match fragment.terminator {
            Some(Terminator::Branch(_, yes, no)) => {
                if yes == to {
                    proof {
                        lemma_falses_set(self.first@, s as int);
                    }
                    self.first.set(s, true);
                } else {
                    proof {
                        lemma_falses_set(self.second@, s as int);
                    }
                    self.second.set(s, true);
                }
            },
            _ => {
                proof {
                    lemma_falses_set(self.first@, s as int);
                }
                self.first.set(s, true);
            },
        }
    }

    /// Records that the fragment a label names was reached; tells whether it
    /// was not before.
    fn visit(&mut self, f: &Function, label: Label) -> (fresh: bool)
        requires
            old(self).ok(*f),
            f.wf(),
            f.has(label),
        ensures
            final(self).ok(*f),
            fresh == !old(self).seen(label),
            final(self).seen(label),
            final(self).visited@ == old(self).visited@.update(slot_of(label), true),
            forall|l: Label| l != label ==> final(self).seen(l) == old(self).seen(l),
            final(self).values == old(self).values,
            final(self).started == old(self).started,
            final(self).first == old(self).first,
            final(self).second == old(self).second,
            final(self).flow == old(self).flow,
            final(self).ssa == old(self).ssa,
    {
        let s = slot(label);
        if self.visited[s] {
            assert(self.visited@ =~= old(self).visited@.update(slot_of(label), true));
            false
        } else {
            self.visited.set(s, true);
            proof {
                assert forall|l: Label| l != label implies self.seen(l) == old(self).seen(l) by {
                    if slot_of(l) == slot_of(label) {
                        crate::ir::lemma_slot_label(l);
                        crate::ir::lemma_slot_label(label);
                    }
                }
            }
            true
        }
    }
}

impl Meta {
    /// An edge that the reachability found so far requires and that was not
    /// found executable: the start of the function when it was not taken,
    /// else one leaving a reached fragment. Fails like the analysis of a
    /// terminator when a reached fragment branches on a constant that is not
    /// a boolean.
    fn missing(&self, f: &Function) -> (r: Result<Option<(Label, Label)>, Fault>)
        requires
            self.ok(*f),
            f.wf(),
        ensures
            match r {
                Ok(None) => {
                    &&& self.executed(*f, Label::Entry, Label::Entry)
                    &&& forall|l: Label, k: int|
                        self.seen(l) && 0 <= k < needed(*f, *self, l).len() ==> #[trigger] self.executed(*f, l, needed(*f, *self, l)[k])
                },
                Ok(Some((p, t))) => {
                    &&& edge_ok(*f, (p, t))
                    &&& !self.executed(*f, p, t)
                    &&& (p == Label::Entry && t == Label::Entry) || (self.seen(p) && needed(*f, *self, p).contains(t))
                },
                Err(e) => exists|l: Label| self.seen(l) && f.has(l) && #[trigger] branch_refuses(f.frag(l)->0.terminator, *self, e),
            },
    {
        if !self.taken(f, Label::Entry, Label::Entry) {
            return Ok(Some((Label::Entry, Label::Entry)));
        }
        let n = f.blocks.len();
        let mut s: usize = 0;
        while s < n
            invariant
                n == f.blocks@.len(),
                s <= n,
                self.ok(*f),
                f.wf(),
                self.executed(*f, Label::Entry, Label::Entry),
                forall|l: Label, k: int|
                    self.seen(l) && slot_of(l) < s && 0 <= k < needed(*f, *self, l).len() ==> #[trigger] self.executed(*f, l, needed(*f, *self, l)[k]),
            decreases n - s,
        {
            let label = label_at(s);
            proof {
                crate::ir::lemma_label_slot(s as int);
            }
            if self.visited[s] {
                let fragment = f.get(label).unwrap();
                assert(f.frag_ok(*fragment)) by {
                    assert(f.blocks@[s as int] is Some);
                }
                match fragment.terminator {
                    Some(Terminator::Jump(t)) => {
                        assert(succs(*f, label)[0] == t);
                        if !self.taken(f, label, t) {
                            assert(needed(*f, *self, label)[0] == t);
                            return Ok(Some((label, t)));
                        }
                    },
                    Some(Terminator::Branch(c, y, no)) => {
                        assert(succs(*f, label)[0] == y && succs(*f, label)[1] == no);
                        match self.get(c) {
                            Lattice::Const(k) => {
                                let b = match k.bool() {
                                    Ok(b) => b,
                                    Err(e) => {
                                        assert(branch_refuses(f.frag(label)->0.terminator, *self, e));
                                        return Err(e);
                                    },
                                };
                                let t = if b { y } else { no };
                                if !self.taken(f, label, t) {
                                    assert(needed(*f, *self, label)[0] == t);
                                    return Ok(Some((label, t)));
                                }
                            },
                            Lattice::Bottom => {
                                if !self.taken(f, label, y) {
                                    assert(needed(*f, *self, label)[0] == y);
                                    return Ok(Some((label, y)));
                                }
                                if !self.taken(f, label, no) {
                                    assert(needed(*f, *self, label)[1] == no);
                                    return Ok(Some((label, no)));
                                }
                            },
                            Lattice::Top => {},
                        }
                    },
                    _ => {},
                }
            }
            proof {
                assert forall|l: Label, k: int|
                    self.seen(l) && slot_of(l) < s + 1 && 0 <= k < needed(*f, *self, l).len() implies #[trigger] self.executed(*f, l, needed(*f, *self, l)[k]) by {
                    crate::ir::lemma_slot_label(l);
                    if slot_of(l) == s {
                        assert(l == label);
                    }
                }
            }
            s = s + 1;
        }
        proof {
            assert forall|l: Label, k: int|
                self.seen(l) && 0 <= k < needed(*f, *self, l).len() implies #[trigger] self.executed(*f, l, needed(*f, *self, l)[k]) by {
                crate::ir::lemma_slot_label(l);
            }
        }
        Ok(None)
    }
}

/// `c` is a value that folding `a op b` can give, the floating-point unit
/// being `float`.
pub open spec fn folds<F: Fn(BinOp, u32, u32) -> Const>(op: BinOp, a: ConstV, b: ConstV, float: F, c: ConstV) -> bool {
    match eval_binary(op, a, b) {
        Outcome::Value(v) => c == v,
        Outcome::Float(x, y) => exists|k: Const| float.ensures((op, x, y), k) && k@ == c,
        _ => false,
    }
}

/// `v` is what the analysis can compute for the result of `ins` from the
/// values of its operands.
pub open spec fn transfer<F: Fn(BinOp, u32, u32) -> Const>(m: Meta, ins: Instruction, float: F, v: LatticeV) -> bool {
    match ins {
        Instruction::Load(_, k) => v == LatticeV::Const(k@),
        Instruction::Binary(_, l, op, r) => match (m.value(l), m.value(r)) {
            (LatticeV::Const(a), LatticeV::Const(b)) => match v {
                LatticeV::Const(c) => folds(op, a, b, float, c),
                _ => false,
            },
            (LatticeV::Bottom, _) => v == LatticeV::Bottom,
            (_, LatticeV::Bottom) => v == LatticeV::Bottom,
            _ => v == LatticeV::Top,
        },
        Instruction::Unary(_, op, x) => match m.value(x) {
            LatticeV::Const(a) => match eval_unary(op, a) {
                Outcome::Value(c) => v == LatticeV::Const(c),
                _ => false,
            },
            LatticeV::Bottom => v == LatticeV::Bottom,
            LatticeV::Top => v == LatticeV::Top,
        },
        _ => v == LatticeV::Bottom,
    }
}

/// The meet of the inputs of a phi of `l` along the edges found executable.
pub open spec fn phi_meet(m: Meta, f: Function, l: Label, inputs: Seq<(Label, Var)>) -> LatticeV
    decreases inputs.len(),
{
    if inputs.len() == 0 {
        LatticeV::Top
    } else {
        let rest = phi_meet(m, f, l, inputs.drop_last());
        if m.executed(f, inputs.last().0, l) {
            meet_spec(rest, m.value(inputs.last().1))
        } else {
            rest
        }
    }
}

/// The values are a fixed point over the reached fragments: the value of
/// each variable a phi or an instruction defines is at or below what its
/// inputs give.
pub open spec fn stable<F: Fn(BinOp, u32, u32) -> Const>(m: Meta, f: Function, float: F) -> bool {
    forall|l: Label| #[trigger] m.seen(l) && f.has(l) ==> {
        let fr = f.frag(l)->0;
        &&& forall|k: int| 0 <= k < fr.phis@.len() ==> below(m.value(#[trigger] fr.phis@[k].var), phi_meet(m, f, l, fr.phis@[k].inputs@))
        &&& forall|k: int| 0 <= k < fr.instructions@.len() ==> fits(m, #[trigger] fr.instructions@[k], float)
    }
}

/// The value of what `ins` defines is at or below something the analysis
/// can compute for it.
pub open spec fn fits<F: Fn(BinOp, u32, u32) -> Const>(m: Meta, ins: Instruction, float: F) -> bool {
    exists|v: LatticeV| #[trigger] transfer(m, ins, float, v) && below(m.value(ins.def()), v)
}

/// Folding the instruction fails on the values the analysis has for its
/// operands: both are constants that the operator does not apply to.
pub open spec fn refused(m: Meta, ins: Instruction) -> bool {
    match ins {
        Instruction::Binary(_, l, op, r) => match (m.value(l), m.value(r)) {
            (LatticeV::Const(a), LatticeV::Const(b)) => eval_binary(op, a, b) is Operation || eval_binary(op, a, b) is Type,
            _ => false,
        },
        Instruction::Unary(_, op, x) => match m.value(x) {
            LatticeV::Const(a) => !(eval_unary(op, a) is Value),
            _ => false,
        },
        _ => false,
    }
}

/// Folding the instruction fails with `e` on the values the analysis has
/// for its operands.
pub open spec fn refuses<F: Fn(BinOp, u32, u32) -> Const>(m: Meta, ins: Instruction, float: F, e: Fault) -> bool {
    &&& refused(m, ins)
    &&& match ins {
        Instruction::Binary(_, l, op, r) => match (m.value(l), m.value(r)) {
            (LatticeV::Const(a), LatticeV::Const(b)) => binary_agrees(Err(e), op, a, b, float),
            _ => false,
        },
        Instruction::Unary(_, op, x) => match m.value(x) {
            LatticeV::Const(a) => unary_agrees(Err(e), op, a),
            _ => false,
        },
        _ => false,
    }
}

/// The terminator branches on a variable that the analysis knows to be a
/// constant that is not a boolean, and `e` says so.
pub open spec fn branch_refuses(t: Option<Terminator>, m: Meta, e: Fault) -> bool {
    match t {
        Some(Terminator::Branch(c, _, _)) => match m.value(c) {
            LatticeV::Const(k) => want_bool(k) is None && (e matches Fault::ConstantType(x, s) && x@ == k
                && s@ == kind_name(Kind::Bool)@),
            _ => false,
        },
        _ => false,
    }
}

/// The edges the terminator of `l` queues, given what the analysis knows of
/// its condition; `None` when it branches on a constant that is not a
/// boolean.
pub open spec fn queued(t: Terminator, l: Label, m: Meta) -> Option<Seq<(Label, Label)>> {
    match t {
        Terminator::Branch(c, y, n) => match m.value(c) {
            LatticeV::Const(k) => match want_bool(k) {
                Some(b) => Some(seq![(l, if b { y } else { n })]),
                None => None,
            },
            LatticeV::Bottom => Some(seq![(l, y), (l, n)]),
            LatticeV::Top => Some(Seq::empty()),
        },
        Terminator::Jump(n) => Some(seq![(l, n)]),
        Terminator::Return(_) => Some(Seq::empty()),
    }
}

/// The fragment `l` of `f` holds an instruction whose folding fails with
/// `e`, or a branch on a constant that is not a boolean, under the values
/// of `m`.
pub open spec fn faults_at<F: Fn(BinOp, u32, u32) -> Const>(f: Function, l: Label, m: Meta, float: F, e: Fault) -> bool {
    &&& f.has(l)
    &&& (exists|k: int| 0 <= k < f.frag(l)->0.instructions@.len() && #[trigger] refuses(m, f.frag(l)->0.instructions@[k], float, e))
        || branch_refuses(f.frag(l)->0.terminator, m, e)
}

/// `e` is a fault that folding some instruction or branch of a reached
/// fragment of `f` gives, under a state the analysis comes to.
pub open spec fn fault_in<F: Fn(BinOp, u32, u32) -> Const>(f: Function, float: F, e: Fault) -> bool {
    exists|l: Label, m: Meta| derivable(f, float, m) && m.ok(f) && m.seen(l) && #[trigger] faults_at(f, l, m, float, e)
}

/// The state the analysis starts from: nothing known, nothing reached, no
/// edge found executable.
pub open spec fn fresh(m: Meta, f: Function) -> bool {
    &&& m.ok(f)
    &&& forall|v: Var| #[trigger] m.value(v) == LatticeV::Top
    &&& forall|l: Label| !#[trigger] m.seen(l)
    &&& forall|p: Label, t: Label| !#[trigger] m.executed(f, p, t)
}

/// Control was found to enter the fragment `l`: it was reached, or an edge
/// into it was found executable.
pub open spec fn entered(m: Meta, f: Function, l: Label) -> bool {
    m.seen(l) || exists|p: Label| #[trigger] m.executed(f, p, l)
}

/// `t` is what a phi or an instruction of the entered fragment `l`, which
/// defines `v`, computes under `m`.
pub open spec fn defines<F: Fn(BinOp, u32, u32) -> Const>(m: Meta, f: Function, float: F, l: Label, v: Var, t: LatticeV) -> bool {
    let fr = f.frag(l)->0;
    &&& f.has(l)
    &&& entered(m, f, l)
    &&& (exists|k: int| 0 <= k < fr.phis@.len() && #[trigger] fr.phis@[k].var == v && t == phi_meet(m, f, l, fr.phis@[k].inputs@))
        || (exists|k: int| 0 <= k < fr.instructions@.len() && fr.instructions@[k].def() == v && #[trigger] transfer(m, fr.instructions@[k], float, t))
}

/// The edge `(p, t)` is one the analysis may take in `m`: the start of the
/// function, or one the terminator of a reached fragment makes executable.
pub open spec fn takes(m: Meta, f: Function, p: Label, t: Label) -> bool {
    (p == Label::Entry && t == Label::Entry) || (m.seen(p) && needed(f, m, p).contains(t))
}

/// `a` and `b` know the same values, reached the same fragments and found
/// the same edges executable.
pub open spec fn same_state(a: Meta, b: Meta, f: Function) -> bool {
    &&& forall|v: Var| #[trigger] b.value(v) == a.value(v)
    &&& forall|l: Label| #[trigger] b.seen(l) == a.seen(l)
    &&& forall|p: Label, t: Label| #[trigger] b.executed(f, p, t) == a.executed(f, p, t)
}

/// `b` is `a` with the value of `v` lowered to its meet with `t`, what a
/// statement of the entered fragment `l` computes for it.
pub open spec fn lowered<F: Fn(BinOp, u32, u32) -> Const>(f: Function, float: F, a: Meta, b: Meta, v: Var, l: Label, t: LatticeV) -> bool {
    &&& defines(a, f, float, l, v, t)
    &&& b.value(v) == meet_spec(a.value(v), t)
    &&& forall|w: Var| w != v ==> #[trigger] b.value(w) == a.value(w)
    &&& forall|x: Label| #[trigger] b.seen(x) == a.seen(x)
    &&& forall|x: Label, y: Label| #[trigger] b.executed(f, x, y) == a.executed(f, x, y)
}

/// `b` is `a` with the edge `(p, t)`, one the analysis may take, found
/// executable.
pub open spec fn marked(f: Function, a: Meta, b: Meta, p: Label, t: Label) -> bool {
    &&& takes(a, f, p, t)
    &&& forall|x: Label, y: Label| #[trigger] b.executed(f, x, y) == (a.executed(f, x, y) || (x == p && y == t))
    &&& forall|w: Var| #[trigger] b.value(w) == a.value(w)
    &&& forall|x: Label| #[trigger] b.seen(x) == a.seen(x)
}

/// `b` is `a` with the entered fragment `l` reached.
pub open spec fn reached(f: Function, a: Meta, b: Meta, l: Label) -> bool {
    &&& f.has(l)
    &&& entered(a, f, l)
    &&& forall|x: Label| #[trigger] b.seen(x) == (a.seen(x) || x == l)
    &&& forall|w: Var| #[trigger] b.value(w) == a.value(w)
    &&& forall|x: Label, y: Label| #[trigger] b.executed(f, x, y) == a.executed(f, x, y)
}

/// One move of the analysis of `f` from `a` to `b`.
pub open spec fn step<F: Fn(BinOp, u32, u32) -> Const>(f: Function, float: F, a: Meta, b: Meta) -> bool {
    ||| same_state(a, b, f)
    ||| exists|v: Var, l: Label, t: LatticeV| #[trigger] lowered(f, float, a, b, v, l, t)
    ||| exists|p: Label, t: Label| #[trigger] marked(f, a, b, p, t)
    ||| exists|l: Label| #[trigger] reached(f, a, b, l)
}

/// `tr` is a run of the analysis of `f` from its fresh state.
pub open spec fn run<F: Fn(BinOp, u32, u32) -> Const>(f: Function, float: F, tr: Seq<Meta>) -> bool {
    &&& tr.len() >= 1
    &&& fresh(tr[0], f)
    &&& forall|i: int| 0 <= i < tr.len() - 1 ==> #[trigger] step(f, float, tr[i], tr[i + 1])
}

/// The analysis of `f` can come to the state `m`.
pub open spec fn derivable<F: Fn(BinOp, u32, u32) -> Const>(f: Function, float: F, m: Meta) -> bool {
    exists|tr: Seq<Meta>| #[trigger] run(f, float, tr) && tr.last() == m
}

/// A fresh state is derivable.
proof fn lemma_derivable_fresh<F: Fn(BinOp, u32, u32) -> Const>(f: Function, float: F, m: Meta)
    requires
        fresh(m, f),
    ensures
        derivable(f, float, m),
{
    let tr = seq![m];
    assert(run(f, float, tr));
}

/// A move from a derivable state comes to a derivable state.
proof fn lemma_derivable_step<F: Fn(BinOp, u32, u32) -> Const>(f: Function, float: F, a: Meta, b: Meta)
    requires
        derivable(f, float, a),
        step(f, float, a, b),
    ensures
        derivable(f, float, b),
{
    let tr = choose|tr: Seq<Meta>| #[trigger] run(f, float, tr) && tr.last() == a;
    let tr2 = tr.push(b);
    assert forall|i: int| 0 <= i < tr2.len() - 1 implies #[trigger] step(f, float, tr2[i], tr2[i + 1]) by {
        if i < tr.len() - 1 {
            assert(tr2[i] == tr[i] && tr2[i + 1] == tr[i + 1]);
        } else {
            assert(tr2[i] == a && tr2[i + 1] == b);
        }
    }
    assert(run(f, float, tr2));
}

/// Every edge waiting in the queue is one the analysis may take.
spec fn queue_ok(m: Meta, f: Function) -> bool {
    forall|i: int| 0 <= i < m.flow@.len() ==> #[trigger] takes(m, f, m.flow@[i].0, m.flow@[i].1)
}

/// Lowering values and reaching more fragments only adds edges the
/// analysis may take.
proof fn lemma_takes_grow(f: Function, a: Meta, b: Meta, p: Label, t: Label)
    requires
        takes(a, f, p, t),
        forall|x: Label| a.seen(x) ==> #[trigger] b.seen(x),
        forall|v: Var| below(#[trigger] b.value(v), a.value(v)),
    ensures
        takes(b, f, p, t),
{
    if !(p == Label::Entry && t == Label::Entry) {
        if f.has(p) {
            match f.frag(p)->0.terminator {
                Some(Terminator::Branch(c, y, n)) => {
                    let _ = b.value(c);
                },
                _ => {},
            }
        }
    }
}

/// The queue stays one of edges the analysis may take when values are
/// lowered and fragments reached.
proof fn lemma_queue_grow(f: Function, a: Meta, b: Meta)
    requires
        queue_ok(a, f),
        b.flow@ == a.flow@,
        forall|x: Label| a.seen(x) ==> #[trigger] b.seen(x),
        forall|v: Var| below(#[trigger] b.value(v), a.value(v)),
    ensures
        queue_ok(b, f),
{
    assert forall|i: int| 0 <= i < b.flow@.len() implies #[trigger] takes(b, f, b.flow@[i].0, b.flow@[i].1) by {
        lemma_takes_grow(f, a, b, a.flow@[i].0, a.flow@[i].1);
    }
}

/// The edges the terminator of a reached fragment queues are ones the
/// analysis may take.
proof fn lemma_queued_takes(f: Function, m: Meta, l: Label, t: Terminator, es: Seq<(Label, Label)>)
    requires
        f.has(l),
        f.frag(l)->0.terminator == Some(t),
        m.seen(l),
        queued(t, l, m) == Some(es),
    ensures
        forall|i: int| 0 <= i < es.len() ==> #[trigger] takes(m, f, es[i].0, es[i].1),
{
    assert forall|i: int| 0 <= i < es.len() implies #[trigger] takes(m, f, es[i].0, es[i].1) by {
        let nd = needed(f, m, l);
        match t {
            Terminator::Branch(c, y, n) => {
                match m.value(c) {
                    LatticeV::Const(k) => {
                        assert(nd[0] == es[i].1);
                    },
                    LatticeV::Bottom => {
                        if i == 0 {
                            assert(nd[0] == es[i].1);
                        } else {
                            assert(nd[1] == es[i].1);
                        }
                    },
                    LatticeV::Top => {},
                }
            },
            Terminator::Jump(n) => {
                assert(nd[0] == es[i].1);
            },
            Terminator::Return(_) => {},
        }
    }
}

/// Lowering one value by what a statement of an entered fragment computes
/// is a move of the analysis, and keeps the queue one of edges it may take.
proof fn lemma_lower_moves<F: Fn(BinOp, u32, u32) -> Const>(f: Function, float: F, a: Meta, b: Meta, v: Var, l: Label, t: LatticeV)
    requires
        derivable(f, float, a),
        queue_ok(a, f),
        defines(a, f, float, l, v, t),
        b.visited == a.visited,
        b.started == a.started,
        b.first == a.first,
        b.second == a.second,
        b.flow == a.flow,
        b.value(v) == meet_spec(a.value(v), t),
        forall|w: Var| w != v ==> #[trigger] b.value(w) == a.value(w),
    ensures
        derivable(f, float, b),
        queue_ok(b, f),
{
    assert(lowered(f, float, a, b, v, l, t));
    lemma_derivable_step(f, float, a, b);
    meet_descends(a.value(v), t);
    assert forall|w: Var| below(#[trigger] b.value(w), a.value(w)) by {
        if w != v {
            assert(b.value(w) == a.value(w));
        }
    }
    lemma_queue_grow(f, a, b);
}

/// Queueing the edges the terminator of a reached fragment gives keeps the
/// queue one of edges the analysis may take.
proof fn lemma_queue_push<F: Fn(BinOp, u32, u32) -> Const>(f: Function, float: F, a: Meta, b: Meta, l: Label, t: Terminator)
    requires
        derivable(f, float, a),
        queue_ok(a, f),
        b.same_but_flow(a),
        f.has(l),
        f.frag(l)->0.terminator == Some(t),
        a.seen(l),
        queued(t, l, a) matches Some(es) && b.flow@ == a.flow@ + es,
    ensures
        derivable(f, float, b),
        queue_ok(b, f),
{
    assert(same_state(a, b, f));
    lemma_derivable_step(f, float, a, b);
    let es = queued(t, l, a)->0;
    lemma_queued_takes(f, a, l, t, es);
    assert forall|i: int| 0 <= i < b.flow@.len() implies #[trigger] takes(b, f, b.flow@[i].0, b.flow@[i].1) by {
        if i < a.flow@.len() {
            assert(b.flow@[i] == a.flow@[i]);
            assert(takes(a, f, a.flow@[i].0, a.flow@[i].1));
            lemma_takes_grow(f, a, b, a.flow@[i].0, a.flow@[i].1);
        } else {
            assert(b.flow@[i] == es[i - a.flow@.len()]);
            assert(takes(a, f, es[i - a.flow@.len()].0, es[i - a.flow@.len()].1));
            lemma_takes_grow(f, a, b, es[i - a.flow@.len()].0, es[i - a.flow@.len()].1);
        }
    }
}

/// `float` gives one constant for each operation on two bit patterns.
pub open spec fn folds_uniquely<F: Fn(BinOp, u32, u32) -> Const>(float: F) -> bool {
    forall|o: BinOp, x: u32, y: u32, a: Const, b: Const|
        #![trigger float.ensures((o, x, y), a), float.ensures((o, x, y), b)]
        float.ensures((o, x, y), a) && float.ensures((o, x, y), b) ==> a@ == b@
}

/// The variable the phi `i` of the fragment `l` defines.
pub open spec fn phi_def(f: Function, l: Label, i: int) -> Var {
    f.frag(l)->0.phis@[i].var
}

/// The variable the instruction `i` of the fragment `l` defines.
pub open spec fn ins_def(f: Function, l: Label, i: int) -> Var {
    f.frag(l)->0.instructions@[i].def()
}

/// Every variable of `f` is defined by one phi or instruction at most.
pub open spec fn single_def(f: Function) -> bool {
    &&& forall|a: Label, b: Label, i: int, j: int|
        f.has(a) && f.has(b) && 0 <= i < f.frag(a)->0.phis@.len() && 0 <= j < f.frag(b)->0.phis@.len()
            && #[trigger] phi_def(f, a, i) == #[trigger] phi_def(f, b, j) ==> a == b && i == j
    &&& forall|a: Label, b: Label, i: int, j: int|
        f.has(a) && f.has(b) && 0 <= i < f.frag(a)->0.instructions@.len() && 0 <= j < f.frag(b)->0.instructions@.len()
            && #[trigger] ins_def(f, a, i) == #[trigger] ins_def(f, b, j) ==> a == b && i == j
    &&& forall|a: Label, b: Label, i: int, j: int|
        f.has(a) && f.has(b) && 0 <= i < f.frag(a)->0.phis@.len() && 0 <= j < f.frag(b)->0.instructions@.len()
            ==> #[trigger] phi_def(f, a, i) != #[trigger] ins_def(f, b, j)
}

/// Every value is at or above what each phi and instruction defining it
/// computes.
pub open spec fn above<F: Fn(BinOp, u32, u32) -> Const>(m: Meta, f: Function, float: F) -> bool {
    forall|l: Label| #[trigger] f.has(l) ==> {
        let fr = f.frag(l)->0;
        &&& forall|k: int|
            0 <= k < fr.phis@.len() ==> below(phi_meet(m, f, l, fr.phis@[k].inputs@), m.value(#[trigger] phi_def(f, l, k)))
        &&& forall|k: int, t: LatticeV|
            0 <= k < fr.instructions@.len() && #[trigger] transfer(m, fr.instructions@[k], float, t) ==> below(t, m.value(ins_def(f, l, k)))
    }
}

/// Every value of a reached fragment is what its phi or instruction
/// computes from the values it reads.
pub open spec fn exact<F: Fn(BinOp, u32, u32) -> Const>(m: Meta, f: Function, float: F) -> bool {
    forall|l: Label| #[trigger] m.seen(l) && f.has(l) ==> {
        let fr = f.frag(l)->0;
        &&& forall|k: int| 0 <= k < fr.phis@.len() ==> m.value(#[trigger] phi_def(f, l, k)) == phi_meet(m, f, l, fr.phis@[k].inputs@)
        &&& forall|k: int|
            0 <= k < fr.instructions@.len() ==> transfer(m, fr.instructions@[k], float, m.value(#[trigger] ins_def(f, l, k)))
    }
}

/// Every edge found executable is one the analysis may take, and every
/// reached fragment is entered by an edge found executable.
pub open spec fn supported(m: Meta, f: Function) -> bool {
    &&& forall|p: Label, t: Label| #[trigger] m.executed(f, p, t) ==> takes(m, f, p, t)
    &&& forall|l: Label| #[trigger] m.seen(l) ==> exists|p: Label| #[trigger] m.executed(f, p, l)
}

/// `b` holds values at or below those of `a`, and every edge `a` found
/// executable.
pub open spec fn descends(a: Meta, b: Meta, f: Function) -> bool {
    &&& forall|v: Var| below(#[trigger] b.value(v), a.value(v))
    &&& forall|p: Label, t: Label| #[trigger] a.executed(f, p, t) ==> b.executed(f, p, t)
}

/// What an instruction computes only descends as its operands do.
proof fn lemma_transfer_mono<F: Fn(BinOp, u32, u32) -> Const>(a: Meta, b: Meta, f: Function, ins: Instruction, float: F, ta: LatticeV, tb: LatticeV)
    requires
        descends(a, b, f),
        folds_uniquely(float),
        transfer(a, ins, float, ta),
        transfer(b, ins, float, tb),
    ensures
        below(tb, ta),
{
    match ins {
        Instruction::Binary(_, l, op, r) => {
            let _ = (b.value(l), b.value(r), a.value(l), a.value(r));
            match (a.value(l), a.value(r), b.value(l), b.value(r)) {
                (LatticeV::Const(x), LatticeV::Const(y), LatticeV::Const(x2), LatticeV::Const(y2)) => {
                    assert(x2 == x && y2 == y);
                    match eval_binary(op, x, y) {
                        Outcome::Float(p, q) => {
                            let ca = ta->Const_0;
                            let cb = tb->Const_0;
                            let ka = choose|k: Const| float.ensures((op, p, q), k) && k@ == ca;
                            let kb = choose|k: Const| float.ensures((op, p, q), k) && k@ == cb;
                            assert(ka@ == kb@);
                        },
                        _ => {},
                    }
                },
                _ => {},
            }
        },
        Instruction::Unary(_, op, x) => {
            let _ = (b.value(x), a.value(x));
        },
        _ => {},
    }
}

/// What a phi computes only descends as the values and the executable
/// edges do.
proof fn lemma_phi_meet_mono(a: Meta, b: Meta, f: Function, l: Label, inputs: Seq<(Label, Var)>)
    requires
        descends(a, b, f),
    ensures
        below(phi_meet(b, f, l, inputs), phi_meet(a, f, l, inputs)),
    decreases inputs.len(),
{
    if inputs.len() > 0 {
        lemma_phi_meet_mono(a, b, f, l, inputs.drop_last());
        let x = inputs.last();
        let _ = (a.executed(f, x.0, l), b.executed(f, x.0, l), a.value(x.1), b.value(x.1));
    }
}

/// Descending keeps every value above what defines it, when the values do
/// not change.
proof fn lemma_above_same_values<F: Fn(BinOp, u32, u32) -> Const>(a: Meta, b: Meta, f: Function, float: F)
    requires
        above(a, f, float),
        descends(a, b, f),
        folds_uniquely(float),
        forall|v: Var| #[trigger] b.value(v) == a.value(v),
    ensures
        above(b, f, float),
{
    assert forall|l: Label| #[trigger] f.has(l) implies {
        let fr = f.frag(l)->0;
        &&& forall|k: int|
            0 <= k < fr.phis@.len() ==> below(phi_meet(b, f, l, fr.phis@[k].inputs@), b.value(#[trigger] phi_def(f, l, k)))
        &&& forall|k: int, t: LatticeV|
            0 <= k < fr.instructions@.len() && #[trigger] transfer(b, fr.instructions@[k], float, t) ==> below(t, b.value(ins_def(f, l, k)))
    } by {
        let fr = f.frag(l)->0;
        assert forall|k: int| 0 <= k < fr.phis@.len() implies below(phi_meet(b, f, l, fr.phis@[k].inputs@), b.value(#[trigger] phi_def(f, l, k))) by {
            lemma_phi_meet_mono(a, b, f, l, fr.phis@[k].inputs@);
            assert(below(phi_meet(a, f, l, fr.phis@[k].inputs@), a.value(phi_def(f, l, k))));
        }
        assert forall|k: int, t: LatticeV|
            0 <= k < fr.instructions@.len() && #[trigger] transfer(b, fr.instructions@[k], float, t) implies below(t, b.value(ins_def(f, l, k))) by {
            let ins = fr.instructions@[k];
            if t != LatticeV::Bottom {
                lemma_transfer_exists(a, b, f, ins, float, t);
                let ta = choose|ta: LatticeV| transfer(a, ins, float, ta);
                lemma_transfer_mono(a, b, f, ins, float, ta, t);
                assert(below(ta, a.value(ins_def(f, l, k))));
            }
        }
    }
}

/// An instruction that computes something after descending computed
/// something before.
proof fn lemma_transfer_exists<F: Fn(BinOp, u32, u32) -> Const>(a: Meta, b: Meta, f: Function, ins: Instruction, float: F, tb: LatticeV)
    requires
        descends(a, b, f),
        transfer(b, ins, float, tb),
        tb != LatticeV::Bottom,
    ensures
        exists|ta: LatticeV| transfer(a, ins, float, ta),
{
    match ins {
        Instruction::Load(_, k) => {
            assert(transfer(a, ins, float, LatticeV::Const(k@)));
        },
        Instruction::Binary(_, l, op, r) => {
            let _ = (b.value(l), b.value(r));
            match (a.value(l), a.value(r)) {
                (LatticeV::Const(x), LatticeV::Const(y)) => {
                    assert(transfer(a, ins, float, tb));
                },
                (LatticeV::Bottom, _) => {
                    assert(transfer(a, ins, float, LatticeV::Bottom));
                },
                (_, LatticeV::Bottom) => {
                    assert(transfer(a, ins, float, LatticeV::Bottom));
                },
                _ => {
                    assert(transfer(a, ins, float, LatticeV::Top));
                },
            }
        },
        Instruction::Unary(_, op, x) => {
            let _ = b.value(x);
            match a.value(x) {
                LatticeV::Const(c) => {
                    assert(transfer(a, ins, float, tb));
                },
                LatticeV::Bottom => {
                    assert(transfer(a, ins, float, LatticeV::Bottom));
                },
                LatticeV::Top => {
                    assert(transfer(a, ins, float, LatticeV::Top));
                },
            }
        },
        _ => {
            assert(transfer(a, ins, float, LatticeV::Bottom));
        },
    }
}

/// The order of the lattice is transitive.
proof fn lemma_below_trans(x: LatticeV, y: LatticeV, z: LatticeV)
    requires
        below(x, y),
        below(y, z),
    ensures
        below(x, z),
{
}

/// Lowering a value by what its one definition computes keeps every value
/// above what defines it.
proof fn lemma_above_lower<F: Fn(BinOp, u32, u32) -> Const>(a: Meta, b: Meta, f: Function, float: F, v: Var, l: Label, t: LatticeV)
    requires
        above(a, f, float),
        single_def(f),
        folds_uniquely(float),
        lowered(f, float, a, b, v, l, t),
    ensures
        above(b, f, float),
{
    meet_descends(a.value(v), t);
    assert forall|w: Var| below(#[trigger] b.value(w), a.value(w)) by {
        if w != v {
            assert(b.value(w) == a.value(w));
        }
    }
    assert(descends(a, b, f));
    assert forall|x: Label| #[trigger] f.has(x) implies {
        let fr = f.frag(x)->0;
        &&& forall|k: int|
            0 <= k < fr.phis@.len() ==> below(phi_meet(b, f, x, fr.phis@[k].inputs@), b.value(#[trigger] phi_def(f, x, k)))
        &&& forall|k: int, t2: LatticeV|
            0 <= k < fr.instructions@.len() && #[trigger] transfer(b, fr.instructions@[k], float, t2) ==> below(t2, b.value(ins_def(f, x, k)))
    } by {
        let fr = f.frag(x)->0;
        let fl = f.frag(l)->0;
        assert forall|k: int| 0 <= k < fr.phis@.len() implies below(phi_meet(b, f, x, fr.phis@[k].inputs@), b.value(#[trigger] phi_def(f, x, k))) by {
            let w = phi_def(f, x, k);
            lemma_phi_meet_mono(a, b, f, x, fr.phis@[k].inputs@);
            assert(below(phi_meet(a, f, x, fr.phis@[k].inputs@), a.value(w)));
            if w == v {
                if exists|kk: int| 0 <= kk < fl.phis@.len() && #[trigger] fl.phis@[kk].var == v && t == phi_meet(a, f, l, fl.phis@[kk].inputs@) {
                    let kk = choose|kk: int| 0 <= kk < fl.phis@.len() && #[trigger] fl.phis@[kk].var == v && t == phi_meet(a, f, l, fl.phis@[kk].inputs@);
                    assert(phi_def(f, l, kk) == phi_def(f, x, k));
                } else {
                    let kk = choose|kk: int| 0 <= kk < fl.instructions@.len() && fl.instructions@[kk].def() == v && #[trigger] transfer(a, fl.instructions@[kk], float, t);
                    assert(phi_def(f, x, k) != ins_def(f, l, kk));
                }
            } else {
                lemma_below_trans(phi_meet(b, f, x, fr.phis@[k].inputs@), phi_meet(a, f, x, fr.phis@[k].inputs@), a.value(w));
            }
        }
        assert forall|k: int, t2: LatticeV|
            0 <= k < fr.instructions@.len() && #[trigger] transfer(b, fr.instructions@[k], float, t2) implies below(t2, b.value(ins_def(f, x, k))) by {
            let ins = fr.instructions@[k];
            let w = ins_def(f, x, k);
            if t2 != LatticeV::Bottom {
                lemma_transfer_exists(a, b, f, ins, float, t2);
                let ta = choose|ta: LatticeV| transfer(a, ins, float, ta);
                lemma_transfer_mono(a, b, f, ins, float, ta, t2);
                assert(below(ta, a.value(w)));
                if w == v {
                    if exists|kk: int| 0 <= kk < fl.phis@.len() && #[trigger] fl.phis@[kk].var == v && t == phi_meet(a, f, l, fl.phis@[kk].inputs@) {
                        let kk = choose|kk: int| 0 <= kk < fl.phis@.len() && #[trigger] fl.phis@[kk].var == v && t == phi_meet(a, f, l, fl.phis@[kk].inputs@);
                        assert(phi_def(f, l, kk) != ins_def(f, x, k));
                    } else {
                        let kk = choose|kk: int| 0 <= kk < fl.instructions@.len() && fl.instructions@[kk].def() == v && #[trigger] transfer(a, fl.instructions@[kk], float, t);
                        assert(ins_def(f, l, kk) == ins_def(f, x, k));
                        lemma_transfer_mono(a, b, f, ins, float, t, t2);
                    }
                } else {
                    lemma_below_trans(t2, ta, a.value(w));
                }
            }
        }
    }
}

/// Every state of a run supports its reach, and, for a function in SSA
/// form and a deterministic float unit, keeps every value above what
/// defines it.
proof fn lemma_run_facts<F: Fn(BinOp, u32, u32) -> Const>(f: Function, float: F, tr: Seq<Meta>, i: int)
    requires
        run(f, float, tr),
        0 <= i < tr.len(),
    ensures
        supported(tr[i], f),
        single_def(f) && folds_uniquely(float) ==> above(tr[i], f, float),
    decreases i,
{
    if i == 0 {
        let m = tr[0];
        assert forall|l: Label| #[trigger] f.has(l) implies {
            let fr = f.frag(l)->0;
            &&& forall|k: int|
                0 <= k < fr.phis@.len() ==> below(phi_meet(m, f, l, fr.phis@[k].inputs@), m.value(#[trigger] phi_def(f, l, k)))
            &&& forall|k: int, t: LatticeV|
                0 <= k < fr.instructions@.len() && #[trigger] transfer(m, fr.instructions@[k], float, t) ==> below(t, m.value(ins_def(f, l, k)))
        } by {
            let fr = f.frag(l)->0;
            assert forall|k: int| 0 <= k < fr.phis@.len() implies below(phi_meet(m, f, l, fr.phis@[k].inputs@), m.value(#[trigger] phi_def(f, l, k))) by {
                assert(m.value(phi_def(f, l, k)) == LatticeV::Top);
            }
            assert forall|k: int, t: LatticeV|
                0 <= k < fr.instructions@.len() && #[trigger] transfer(m, fr.instructions@[k], float, t) implies below(t, m.value(ins_def(f, l, k))) by {
                assert(m.value(ins_def(f, l, k)) == LatticeV::Top);
            }
        }
    } else {
        lemma_run_facts(f, float, tr, i - 1);
        let a = tr[i - 1];
        let b = tr[i];
        let j = i - 1;
        assert(step(f, float, tr[j], tr[j + 1]));
        assert(tr[j + 1] == b);
        if same_state(a, b, f) {
            assert forall|v: Var| below(#[trigger] b.value(v), a.value(v)) by {
                assert(b.value(v) == a.value(v));
            }
            assert forall|p: Label, t: Label| #[trigger] b.executed(f, p, t) implies takes(b, f, p, t) by {
                assert(a.executed(f, p, t));
                lemma_takes_grow(f, a, b, p, t);
            }
            assert forall|l: Label| #[trigger] b.seen(l) implies exists|p: Label| #[trigger] b.executed(f, p, l) by {
                assert(a.seen(l));
                let p = choose|p: Label| #[trigger] a.executed(f, p, l);
                assert(b.executed(f, p, l));
            }
            if single_def(f) && folds_uniquely(float) {
                lemma_above_same_values(a, b, f, float);
            }
        } else if exists|v: Var, l: Label, t: LatticeV| #[trigger] lowered(f, float, a, b, v, l, t) {
            let (v, l, t) = choose|v: Var, l: Label, t: LatticeV| #[trigger] lowered(f, float, a, b, v, l, t);
            meet_descends(a.value(v), t);
            assert forall|w: Var| below(#[trigger] b.value(w), a.value(w)) by {
                if w != v {
                    assert(b.value(w) == a.value(w));
                }
            }
            assert forall|p: Label, q: Label| #[trigger] b.executed(f, p, q) implies takes(b, f, p, q) by {
                assert(a.executed(f, p, q));
                lemma_takes_grow(f, a, b, p, q);
            }
            assert forall|x: Label| #[trigger] b.seen(x) implies exists|p: Label| #[trigger] b.executed(f, p, x) by {
                assert(a.seen(x));
                let p = choose|p: Label| #[trigger] a.executed(f, p, x);
                assert(b.executed(f, p, x));
            }
            if single_def(f) && folds_uniquely(float) {
                lemma_above_lower(a, b, f, float, v, l, t);
            }
        } else if exists|p: Label, t: Label| #[trigger] marked(f, a, b, p, t) {
            let (p, t) = choose|p: Label, t: Label| #[trigger] marked(f, a, b, p, t);
            assert forall|v: Var| below(#[trigger] b.value(v), a.value(v)) by {
                assert(b.value(v) == a.value(v));
            }
            assert forall|x: Label, y: Label| #[trigger] b.executed(f, x, y) implies takes(b, f, x, y) by {
                if !(x == p && y == t) {
                    assert(a.executed(f, x, y));
                    lemma_takes_grow(f, a, b, x, y);
                } else {
                    lemma_takes_grow(f, a, b, p, t);
                }
            }
            assert forall|x: Label| #[trigger] b.seen(x) implies exists|q: Label| #[trigger] b.executed(f, q, x) by {
                assert(a.seen(x));
                let q = choose|q: Label| #[trigger] a.executed(f, q, x);
                assert(b.executed(f, q, x));
            }
            if single_def(f) && folds_uniquely(float) {
                lemma_above_same_values(a, b, f, float);
            }
        } else {
            let l = choose|l: Label| #[trigger] reached(f, a, b, l);
            assert forall|v: Var| below(#[trigger] b.value(v), a.value(v)) by {
                assert(b.value(v) == a.value(v));
            }
            assert forall|x: Label, y: Label| #[trigger] b.executed(f, x, y) implies takes(b, f, x, y) by {
                assert(a.executed(f, x, y));
                lemma_takes_grow(f, a, b, x, y);
            }
            assert forall|x: Label| #[trigger] b.seen(x) implies exists|q: Label| #[trigger] b.executed(f, q, x) by {
                if a.seen(x) {
                    let q = choose|q: Label| #[trigger] a.executed(f, q, x);
                    assert(b.executed(f, q, x));
                } else {
                    assert(x == l);
                    assert(entered(a, f, l));
                    let q = choose|q: Label| #[trigger] a.executed(f, q, l);
                    assert(b.executed(f, q, l));
                }
            }
            if single_def(f) && folds_uniquely(float) {
                lemma_above_same_values(a, b, f, float);
            }
        }
    }
}

/// Every state the analysis comes to supports its reach: each edge found
/// executable is one the values make executable, or the start of the
/// function, and each reached fragment is entered by such an edge.
pub proof fn law_analysis_supported<F: Fn(BinOp, u32, u32) -> Const>(f: Function, float: F, m: Meta)
    requires
        derivable(f, float, m),
    ensures
        supported(m, f),
{
    let tr = choose|tr: Seq<Meta>| #[trigger] run(f, float, tr) && tr.last() == m;
    lemma_run_facts(f, float, tr, tr.len() - 1);
}

/// For a function in SSA form and a deterministic float unit, a fixed
/// point the analysis comes to is exact: every value of a reached fragment
/// is what its phi or instruction computes from the final values.
pub proof fn law_analysis_exact<F: Fn(BinOp, u32, u32) -> Const>(f: Function, float: F, m: Meta)
    requires
        derivable(f, float, m),
        stable(m, f, float),
        single_def(f),
        folds_uniquely(float),
    ensures
        exact(m, f, float),
{
    let tr = choose|tr: Seq<Meta>| #[trigger] run(f, float, tr) && tr.last() == m;
    lemma_run_facts(f, float, tr, tr.len() - 1);
    assert(above(m, f, float));
    assert forall|l: Label| #[trigger] m.seen(l) && f.has(l) implies {
        let fr = f.frag(l)->0;
        &&& forall|k: int| 0 <= k < fr.phis@.len() ==> m.value(#[trigger] phi_def(f, l, k)) == phi_meet(m, f, l, fr.phis@[k].inputs@)
        &&& forall|k: int|
            0 <= k < fr.instructions@.len() ==> transfer(m, fr.instructions@[k], float, m.value(#[trigger] ins_def(f, l, k)))
    } by {
        let fr = f.frag(l)->0;
        assert forall|k: int| 0 <= k < fr.phis@.len() implies m.value(#[trigger] phi_def(f, l, k)) == phi_meet(m, f, l, fr.phis@[k].inputs@) by {
            assert(below(m.value(fr.phis@[k].var), phi_meet(m, f, l, fr.phis@[k].inputs@)));
            assert(below(phi_meet(m, f, l, fr.phis@[k].inputs@), m.value(phi_def(f, l, k))));
        }
        assert forall|k: int| 0 <= k < fr.instructions@.len() implies transfer(m, fr.instructions@[k], float, m.value(#[trigger] ins_def(f, l, k))) by {
            assert(fits(m, fr.instructions@[k], float));
            let t = choose|t: LatticeV| #[trigger] transfer(m, fr.instructions@[k], float, t) && below(m.value(fr.instructions@[k].def()), t);
            assert(below(t, m.value(ins_def(f, l, k))));
        }
    }
}

/// The analysis of `f` fails with `e`: folding an instruction or a branch
/// of a reached fragment fails with it, or the reachability closes without
/// reaching the exit and `e` says so.
pub open spec fn analysis_fails<F: Fn(BinOp, u32, u32) -> Const>(f: Function, float: F, e: Fault) -> bool {
    ||| fault_in(f, float, e)
    ||| e is ExitBlockUnreachable && exists|m: Meta|
        derivable(f, float, m) && m.ok(f) && closed(m, f) && stable(m, f, float) && !#[trigger] m.seen(Label::Exit)
}

impl Meta {
    /// Lowers the value of `var` to its meet with `new`, without queueing
    /// it; tells whether the value changed.
    fn lower(&mut self, f: &Function, var: Var, new: Lattice) -> (changed: bool)
        requires
            old(self).ok(*f),
            var < f.vars,
        ensures
            final(self).ok(*f),
            final(self).value(var) == meet_spec(old(self).value(var), new@),
            forall|v: Var| v != var ==> final(self).value(v) == old(self).value(v),
            final(self).visited == old(self).visited,
            final(self).started == old(self).started,
            final(self).first == old(self).first,
            final(self).second == old(self).second,
            final(self).flow == old(self).flow,
            final(self).ssa == old(self).ssa,
            changed ==> pot(final(self).values@) < pot(old(self).values@),
            !changed ==> *final(self) == *old(self),
    {
        let merged = self.values[var].meet(&new);
        proof {
            meet_descends(self.values@[var as int]@, new@);
        }
        if !merged.same(&self.values[var]) {
            proof {
                lemma_pot_update(self.values@, var as int, merged);
            }
            self.values.set(var, merged);
            true
        } else {
            false
        }
    }
}

impl Instruction {
    /// What the analysis computes for the result of the instruction from
    /// the values of its operands; fails where folding constants fails.
    fn transfer<F: Fn(BinOp, u32, u32) -> Const>(&self, meta: &Meta, float: &F) -> (r: Result<Lattice, Fault>)
        requires
            forall|o: BinOp, x: u32, y: u32| float.requires((o, x, y)),
        ensures
            match r {
                Ok(v) => !refused(*meta, *self) && transfer(*meta, *self, *float, v@),
                Err(e) => refuses(*meta, *self, *float, e),
            },
    {
        match self {
            Instruction::Load(_, c) => Ok(Lattice::Const(c.dup())),
            Instruction::Binary(_, lhs, op, rhs) => {
                let l = meta.get(*lhs);
                let r = meta.get(*rhs);
                match (l, r) {
                    (Lattice::Const(a), Lattice::Const(b)) => {
                        let c = a.binary(op, &b, float)?;
                        Ok(Lattice::Const(c))
                    },
                    (Lattice::Bottom, _) | (_, Lattice::Bottom) => Ok(Lattice::Bottom),
                    _ => Ok(Lattice::Top),
                }
            },
            Instruction::Unary(_, op, src) => match meta.get(*src) {
                Lattice::Top => Ok(Lattice::Top),
                Lattice::Const(c) => Ok(Lattice::Const(c.unary(op)?)),
                Lattice::Bottom => Ok(Lattice::Bottom),
            },
            _ => Ok(Lattice::Bottom),
        }
    }
}

impl Phi {
    /// The meet of the inputs along the edges found executable.
    fn transfer(&self, label: Label, meta: &Meta, f: &Function) -> (r: Lattice)
        requires
            meta.ok(*f),
            f.wf(),
        ensures
            r@ == phi_meet(*meta, *f, label, self.inputs@),
    {
        let mut new = Lattice::Top;
        let mut i: usize = 0;
        while i < self.inputs.len()
            invariant
                meta.ok(*f),
                f.wf(),
                i <= self.inputs@.len(),
                new@ == phi_meet(*meta, *f, label, self.inputs@.take(i as int)),
            decreases self.inputs@.len() - i,
        {
            let (pred, var) = self.inputs[i];
            assert(self.inputs@.take(i + 1).drop_last() =~= self.inputs@.take(i as int));
            if meta.taken(f, pred, label) {
                new = new.meet(&meta.get(var));
            }
            i = i + 1;
        }
        assert(self.inputs@.take(i as int) =~= self.inputs@);
        new
    }
}

impl Meta {
    /// Checks that the values are a fixed point over the reached fragments,
    /// lowering those that are not; tells whether one was lowered.
    fn refine<F: Fn(BinOp, u32, u32) -> Const>(&mut self, f: &Function, float: &F) -> (r: Result<bool, Fault>)
        requires
            old(self).ok(*f),
            f.wf(),
            forall|o: BinOp, x: u32, y: u32| float.requires((o, x, y)),
            derivable(*f, *float, *old(self)),
            queue_ok(*old(self), *f),
        ensures
            derivable(*f, *float, *final(self)),
            queue_ok(*final(self), *f),
            final(self).ok(*f),
            final(self).visited == old(self).visited,
            final(self).started == old(self).started,
            final(self).first == old(self).first,
            final(self).second == old(self).second,
            final(self).flow == old(self).flow,
            final(self).ssa == old(self).ssa,
            pot(final(self).values@) <= pot(old(self).values@),
            r matches Ok(true) ==> pot(final(self).values@) < pot(old(self).values@),
            r matches Ok(false) ==> *final(self) == *old(self) && stable(*final(self), *f, *float),
            r matches Err(e) ==> exists|l: Label, k: int|
                final(self).seen(l) && f.has(l) && 0 <= k < f.frag(l)->0.instructions@.len()
                    && #[trigger] refuses(*final(self), f.frag(l)->0.instructions@[k], *float, e),
    {
        let n = f.blocks.len();
        let mut changed = false;
        let mut s: usize = 0;
        while s < n
            invariant
                n == f.blocks@.len(),
                s <= n,
                f.wf(),
                self.ok(*f),
                forall|o: BinOp, x: u32, y: u32| float.requires((o, x, y)),
                self.visited == old(self).visited,
                self.started == old(self).started,
                self.first == old(self).first,
                self.second == old(self).second,
                self.flow == old(self).flow,
                self.ssa == old(self).ssa,
                pot(self.values@) <= pot(old(self).values@),
                derivable(*f, *float, *self),
                queue_ok(*self, *f),
                changed ==> pot(self.values@) < pot(old(self).values@),
                !changed ==> *self == *old(self),
                !changed ==> forall|l: Label| #[trigger] self.seen(l) && f.has(l) && slot_of(l) < s ==> done_at(*self, *f, l, *float),
            decreases n - s,
        {
            let label = label_at(s);
            proof {
                crate::ir::lemma_label_slot(s as int);
            }
            let ghost head = *self;
            let ghost was = changed;
            if self.visited[s] {
                let fragment = f.get(label).unwrap();
                assert(f.frag_ok(*fragment)) by {
                    assert(f.blocks@[s as int] is Some);
                }
                assert(self.seen(label));
                let mut i: usize = 0;
                while i < fragment.phis.len()
                    invariant
                        f.wf(),
                        self.ok(*f),
                        f.frag(label) == Some(*fragment),
                        f.frag_ok(*fragment),
                        self.seen(label),
                        self.visited == old(self).visited,
                        self.started == old(self).started,
                        self.first == old(self).first,
                        self.second == old(self).second,
                        self.flow == old(self).flow,
                        self.ssa == old(self).ssa,
                        pot(self.values@) <= pot(old(self).values@),
                derivable(*f, *float, *self),
                queue_ok(*self, *f),
                        changed ==> pot(self.values@) < pot(old(self).values@),
                        !changed ==> *self == *old(self),
                        was ==> changed,
                        !changed ==> forall|k: int| 0 <= k < i ==> below(self.value(#[trigger] fragment.phis@[k].var), phi_meet(*self, *f, label, fragment.phis@[k].inputs@)),
                    decreases fragment.phis@.len() - i,
                {
                    let phi = &fragment.phis[i];
                    assert(phi.var < f.vars);
                    let new = phi.transfer(label, self, f);
                    let ghost before = *self;
                    let lowered_now = self.lower(f, phi.var, new);
                    proof {
                        assert(f.frag(label)->0.phis@[i as int].var == phi.var);
                        lemma_lower_moves(*f, *float, before, *self, phi.var, label, new@);
                    }
                    if lowered_now {
                        changed = true;
                    } else {
                        proof {
                            meet_descends(before.value(phi.var), new@);
                        }
                    }
                    i = i + 1;
                }
                let mut i: usize = 0;
                while i < fragment.instructions.len()
                    invariant
                        f.wf(),
                        self.ok(*f),
                        f.frag(label) == Some(*fragment),
                        f.frag_ok(*fragment),
                        self.seen(label),
                        forall|o: BinOp, x: u32, y: u32| float.requires((o, x, y)),
                        self.visited == old(self).visited,
                        self.started == old(self).started,
                        self.first == old(self).first,
                        self.second == old(self).second,
                        self.flow == old(self).flow,
                        self.ssa == old(self).ssa,
                        pot(self.values@) <= pot(old(self).values@),
                derivable(*f, *float, *self),
                queue_ok(*self, *f),
                        changed ==> pot(self.values@) < pot(old(self).values@),
                        !changed ==> *self == *old(self),
                        was ==> changed,
                        !changed ==> forall|k: int| 0 <= k < fragment.phis@.len() ==> below(self.value(#[trigger] fragment.phis@[k].var), phi_meet(*self, *f, label, fragment.phis@[k].inputs@)),
                        !changed ==> forall|k: int| 0 <= k < i ==> fits(*self, #[trigger] fragment.instructions@[k], *float),
                    decreases fragment.instructions@.len() - i,
                {
                    let ins = &fragment.instructions[i];
                    assert(ins.def() < f.vars);
                    let new = match ins.transfer(self, float) {
                        Ok(v) => v,
                        Err(e) => {
                            assert(self.seen(label));
                            assert(refuses(*self, f.frag(label)->0.instructions@[i as int], *float, e));
                            return Err(e);
                        },
                    };
                    let ghost before = *self;
                    let lowered_now = self.lower(f, ins.dst(), new);
                    proof {
                        assert(transfer(before, f.frag(label)->0.instructions@[i as int], *float, new@));
                        lemma_lower_moves(*f, *float, before, *self, ins.def(), label, new@);
                    }
                    if lowered_now {
                        changed = true;
                    } else {
                        proof {
                            meet_descends(before.value(ins.def()), new@);
                            assert(transfer(*self, *ins, *float, new@));
                        }
                    }
                    i = i + 1;
                }
                proof {
                    if !changed {
                        let fr = f.frag(label)->0;
                        assert(fr == *fragment);
                        assert(done_at(*self, *f, label, *float));
                    }
                }
            }
            proof {
                if !changed {
                    assert(*self == head);
                    assert forall|l: Label| #[trigger] self.seen(l) && f.has(l) && slot_of(l) < s + 1 implies done_at(*self, *f, l, *float) by {
                        crate::ir::lemma_slot_label(l);
                        if slot_of(l) == s {
                            assert(l == label);
                        } else {
                            assert(head.seen(l));
                        }
                    }
                }
            }
            s = s + 1;
        }
        proof {
            if !changed {
                assert forall|l: Label| #[trigger] self.seen(l) && f.has(l) implies {
                    let fr = f.frag(l)->0;
                    &&& forall|k: int| 0 <= k < fr.phis@.len() ==> below(self.value(#[trigger] fr.phis@[k].var), phi_meet(*self, *f, l, fr.phis@[k].inputs@))
                    &&& forall|k: int| 0 <= k < fr.instructions@.len() ==> fits(*self, #[trigger] fr.instructions@[k], *float)
                } by {
                    crate::ir::lemma_slot_label(l);
                    assert(done_at(*self, *f, l, *float));
                }
            }
        }
        Ok(changed)
    }
}

/// The phis and instructions of `l` sit at or below what their inputs give.
pub open spec fn done_at<F: Fn(BinOp, u32, u32) -> Const>(m: Meta, f: Function, l: Label, float: F) -> bool {
    let fr = f.frag(l)->0;
    &&& forall|k: int| 0 <= k < fr.phis@.len() ==> below(m.value(#[trigger] fr.phis@[k].var), phi_meet(m, f, l, fr.phis@[k].inputs@))
    &&& forall|k: int| 0 <= k < fr.instructions@.len() ==> fits(m, #[trigger] fr.instructions@[k], float)
}

/// The targets that the terminator of `l` makes executable, given what the
/// analysis knows of its condition: both sides of a branch on an unknown
/// value, the side a known boolean picks, none while the condition has no
/// value yet.
pub open spec fn needed(f: Function, m: Meta, l: Label) -> Seq<Label> {
    if f.has(l) {
        match f.frag(l)->0.terminator {
            Some(Terminator::Jump(n)) => seq![n],
            Some(Terminator::Branch(c, y, n)) => match m.value(c) {
                LatticeV::Const(ConstV::Bool(b)) => if b {
                    seq![y]
                } else {
                    seq![n]
                },
                LatticeV::Bottom => seq![y, n],
                _ => seq![],
            },
            _ => seq![],
        }
    } else {
        seq![]
    }
}

/// Every edge found executable leads to a fragment marked reached.
pub open spec fn arrived(m: Meta, f: Function) -> bool {
    forall|p: Label, t: Label| #[trigger] m.executed(f, p, t) ==> m.seen(t)
}

/// The reachability the analysis found is closed: control enters at the
/// entry, every executable edge leads to a reached fragment, and every edge
/// the terminator of a reached fragment makes executable was found so.
pub open spec fn closed(m: Meta, f: Function) -> bool {
    &&& m.executed(f, Label::Entry, Label::Entry)
    &&& arrived(m, f)
    &&& forall|l: Label, k: int|
        m.seen(l) && 0 <= k < needed(f, m, l).len() ==> #[trigger] m.executed(f, l, needed(f, m, l)[k])
}

/// Whether a user names an existing statement of `f`.
pub open spec fn user_ok(f: Function, u: (Label, Id)) -> bool {
    &&& f.has(u.0)
    &&& match u.1 {
        Id::Phi(i) => i < f.frag(u.0)->0.phis@.len(),
        Id::Ins(i) => i < f.frag(u.0)->0.instructions@.len(),
        Id::Term => true,
    }
}

/// Whether a table lists, for each variable of `f`, statements of `f`.
pub open spec fn usage_ok(f: Function, u: Seq<Vec<(Label, Id)>>) -> bool {
    &&& u.len() == f.vars
    &&& forall|v: int, j: int|
        0 <= v < u.len() && 0 <= j < u[v]@.len() ==> user_ok(f, #[trigger] u[v]@[j])
}

/// Whether an analysis step kept the invariant, took no edge, and let
/// nothing climb.
pub open spec fn steady(before: Meta, after: Meta, f: Function) -> bool {
    &&& after.ok(f)
    &&& after.unset() == before.unset()
    &&& after.weight() <= before.weight()
}

/// Records that statement `u` reads `var`.
fn add_user(usage: &mut Vec<Vec<(Label, Id)>>, f: &Function, var: Var, u: (Label, Id))
    requires
        usage_ok(*f, old(usage)@),
        var < f.vars,
        user_ok(*f, u),
    ensures
        usage_ok(*f, final(usage)@),
        final(usage)@.len() == old(usage)@.len(),
        final(usage)@[var as int]@ == old(usage)@[var as int]@.push(u),
        forall|v: int| 0 <= v < final(usage)@.len() && v != var ==> #[trigger] final(usage)@[v] == old(usage)@[v],
{
    let mut inner: Vec<(Label, Id)> = Vec::new();
    usage.set_and_swap(var, &mut inner);
    inner.push(u);
    usage.set_and_swap(var, &mut inner);
    proof {
        assert forall|v: int, j: int|
            0 <= v < usage@.len() && 0 <= j < usage@[v]@.len() implies user_ok(*f, #[trigger] usage@[v]@[j]) by {
            if v != var {
                assert(usage@[v] == old(usage)@[v]);
            } else if j < old(usage)@[v]@.len() {
                assert(usage@[v]@[j] == old(usage)@[v]@[j]);
            }
        }
    }
}

impl Function {
    /// For each variable, the statements that read it.
    fn usage(&self) -> (u: Vec<Vec<(Label, Id)>>)
        requires
            self.wf(),
        ensures
            usage_ok(*self, u@),
    {
        let mut usage: Vec<Vec<(Label, Id)>> = Vec::new();
        let mut v: usize = 0;
        while v < self.vars
            invariant
                v <= self.vars,
                usage@.len() == v,
                forall|x: int| 0 <= x < v ==> (#[trigger] usage@[x])@.len() == 0,
            decreases self.vars - v,
        {
            usage.push(Vec::new());
            v = v + 1;
        }
        let mut s: usize = 0;
        while s < self.blocks.len()
            invariant
                self.wf(),
                usage_ok(*self, usage@),
            decreases self.blocks@.len() - s,
        {
            let label = label_at(s);
            if let Some(fragment) = self.get(label) {
                assert(self.frag_ok(*fragment));
                let mut i: usize = 0;
                while i < fragment.phis.len()
                    invariant
                        self.wf(),
                        self.frag(label) == Some(*fragment),
                        self.frag_ok(*fragment),
                        usage_ok(*self, usage@),
                    decreases fragment.phis@.len() - i,
                {
                    let phi = &fragment.phis[i];
                    assert(phi == fragment.phis@[i as int]);
                    let mut j: usize = 0;
                    while j < phi.inputs.len()
                        invariant
                            self.wf(),
                            self.frag(label) == Some(*fragment),
                            self.frag_ok(*fragment),
                            i < fragment.phis@.len(),
                            phi == fragment.phis@[i as int],
                            usage_ok(*self, usage@),
                        decreases phi.inputs@.len() - j,
                    {
                        let (_, input) = phi.inputs[j];
                        assert(phi.inputs@[j as int].1 < self.vars);
                        add_user(&mut usage, self, input, (label, Id::Phi(i)));
                        j = j + 1;
                    }
                    i = i + 1;
                }
                let mut i: usize = 0;
                while i < fragment.instructions.len()
                    invariant
                        self.wf(),
                        self.frag(label) == Some(*fragment),
                        self.frag_ok(*fragment),
                        usage_ok(*self, usage@),
                    decreases fragment.instructions@.len() - i,
                {
                    let reads = fragment.instructions[i].operands();
                    let mut j: usize = 0;
                    while j < reads.len()
                        invariant
                            self.wf(),
                            self.frag(label) == Some(*fragment),
                            self.frag_ok(*fragment),
                            i < fragment.instructions@.len(),
                            reads@ == fragment.instructions@[i as int].reads(),
                            usage_ok(*self, usage@),
                        decreases reads@.len() - j,
                    {
                        assert(fragment.instructions@[i as int].reads()[j as int] < self.vars);
                        add_user(&mut usage, self, reads[j], (label, Id::Ins(i)));
                        j = j + 1;
                    }
                    i = i + 1;
                }
                if let Some(term) = fragment.terminator {
                    match term {
                        Terminator::Branch(x, _, _) | Terminator::Return(x) => {
                            assert(term.reads()[0] == x);
                            add_user(&mut usage, self, x, (label, Id::Term));
                        },
                        Terminator::Jump(_) => {},
                    }
                }
            }
            s = s + 1;
        }
        usage
    }
}

impl Instruction {
    /// The variables the instruction reads, in operand order.
    pub fn operands(&self) -> (v: Vec<Var>)
        ensures
            v@ == self.reads(),
    {
        let mut v: Vec<Var> = Vec::new();
        match self {
            Instruction::Field(_, s, _) | Instruction::Unpack(_, s, _) | Instruction::Unary(_, _, s) => {
                v.push(*s);
            },
            Instruction::Binary(_, a, _, b) | Instruction::Index(_, a, b) => {
                v.push(*a);
                v.push(*b);
            },
            Instruction::Call(_, s, args) | Instruction::Method(_, s, _, args) => {
                v.push(*s);
                let mut i: usize = 0;
                while i < args.len()
                    invariant
                        i <= args@.len(),
                        v@ == seq![*s] + args@.take(i as int),
                    decreases args@.len() - i,
                {
                    v.push(args[i]);
                    i = i + 1;
                    assert(v@ =~= seq![*s] + args@.take(i as int));
                }
                assert(args@.take(i as int) =~= args@);
            },
            Instruction::List(_, args) | Instruction::Tuple(_, args) => {
                let mut i: usize = 0;
                while i < args.len()
                    invariant
                        i <= args@.len(),
                        v@ == args@.take(i as int),
                    decreases args@.len() - i,
                {
                    v.push(args[i]);
                    i = i + 1;
                    assert(v@ =~= args@.take(i as int));
                }
                assert(args@.take(i as int) =~= args@);
            },
            _ => {},
        }
        proof {
            assert(v@ =~= self.reads());
        }
        v
    }

    /// Evaluates the instruction over the lattice and lowers the value of
    /// the variable it defines; fails, changing nothing, where folding the
    /// constants it reads fails.
    fn analyze<F: Fn(BinOp, u32, u32) -> Const>(&self, meta: &mut Meta, f: &Function, float: &F) -> (r:
        Result<(), Fault>)
        requires
            old(meta).ok(*f),
            self.def() < f.vars,
            forall|o: BinOp, x: u32, y: u32| float.requires((o, x, y)),
        ensures
            steady(*old(meta), *final(meta), *f),
            final(meta).visited == old(meta).visited,
            final(meta).flow == old(meta).flow,
            final(meta).started == old(meta).started,
            final(meta).first == old(meta).first,
            final(meta).second == old(meta).second,
            forall|v: Var| v != self.def() ==> final(meta).value(v) == old(meta).value(v),
            match r {
                Ok(_) => {
                    &&& !refused(*old(meta), *self)
                    &&& exists|v: LatticeV| #[trigger] transfer(*old(meta), *self, *float, v)
                        && final(meta).value(self.def()) == meet_spec(old(meta).value(self.def()), v)
                },
                Err(e) => refuses(*old(meta), *self, *float, e) && *final(meta) == *old(meta),
            },
    {
        let new = match self.transfer(meta, float) {
            Ok(v) => v,
            Err(e) => {
                return Err(e);
            },
        };
        let ghost before = *meta;
        meta.update(f, self.dst(), new);
        assert(transfer(before, *self, *float, new@));
        Ok(())
    }
}

impl Terminator {
    /// Queues the edges control may take, given what is known of the
    /// condition; fails, changing nothing, on a branch on a constant that is
    /// not a boolean.
    fn analyze(&self, label: Label, meta: &mut Meta, f: &Function) -> (r: Result<(), Fault>)
        requires
            old(meta).ok(*f),
            f.has(label),
            succs(*f, label) == self.targets(),
        ensures
            final(meta).ok(*f),
            final(meta).same_but_flow(*old(meta)),
            match r {
                Ok(_) => queued(*self, label, *old(meta)) matches Some(es) && final(meta).flow@ == old(meta).flow@ + es,
                Err(e) => {
                    &&& queued(*self, label, *old(meta)) is None
                    &&& branch_refuses(Some(*self), *old(meta), e)
                    &&& *final(meta) == *old(meta)
                },
            },
    {
        let ghost before = *meta;
        match self {
            Terminator::Branch(cond, yes, no) => {
                assert(self.targets()[0] == *yes && self.targets()[1] == *no);
                match meta.get(*cond) {
                    Lattice::Const(c) => {
                        let b = match c.bool() {
                            Ok(b) => b,
                            Err(e) => {
                                return Err(e);
                            },
                        };
                        if b {
                            meta.push(f, label, *yes);
                        } else {
                            meta.push(f, label, *no);
                        }
                    },
                    Lattice::Bottom => {
                        meta.push(f, label, *yes);
                        meta.push(f, label, *no);
                    },
                    Lattice::Top => {
                        assert(meta.flow@ =~= before.flow@ + Seq::<(Label, Label)>::empty());
                    },
                }
            },
            Terminator::Jump(next) => {
                assert(self.targets()[0] == *next);
                meta.push(f, label, *next);
            },
            Terminator::Return(_) => {
                assert(meta.flow@ =~= before.flow@ + Seq::<(Label, Label)>::empty());
            },
        }
        proof {
            let es = queued(*self, label, before)->0;
            assert(meta.flow@ =~= before.flow@ + es);
        }
        Ok(())
    }
}

impl Phi {
    /// Lowers the value of the phi to the meet of its inputs along the edges
    /// found taken.
    fn analyze(&self, label: Label, meta: &mut Meta, f: &Function) -> (r: Result<(), Fault>)
        requires
            old(meta).ok(*f),
            f.wf(),
            self.var < f.vars,
        ensures
            r is Ok,
            steady(*old(meta), *final(meta), *f),
            final(meta).visited == old(meta).visited,
            final(meta).flow == old(meta).flow,
            final(meta).started == old(meta).started,
            final(meta).first == old(meta).first,
            final(meta).second == old(meta).second,
            final(meta).value(self.var) == meet_spec(
                old(meta).value(self.var),
                phi_meet(*old(meta), *f, label, self.inputs@),
            ),
            forall|v: Var| v != self.var ==> final(meta).value(v) == old(meta).value(v),
    {
        let new = self.transfer(label, meta, f);
        meta.update(f, self.var, new);
        Ok(())
    }
}

impl Fragment {
    /// Analyses the phis, and the rest of the fragment the first time it is
    /// reached; fails where folding the constants of an instruction fails,
    /// or where the terminator branches on a constant that is not a boolean.
    fn analyze<F: Fn(BinOp, u32, u32) -> Const>(
        &self,
        label: Label,
        meta: &mut Meta,
        f: &Function,
        float: &F,
    ) -> (r: Result<(), Fault>)
        requires
            old(meta).ok(*f),
            f.wf(),
            f.frag(label) == Some(*self),
            forall|o: BinOp, x: u32, y: u32| float.requires((o, x, y)),
            derivable(*f, *float, *old(meta)),
            queue_ok(*old(meta), *f),
            entered(*old(meta), *f, label),
        ensures
            derivable(*f, *float, *final(meta)),
            queue_ok(*final(meta), *f),
            final(meta).ok(*f),
            final(meta).unset() == old(meta).unset(),
            final(meta).weight() <= old(meta).weight(),
            final(meta).seen(label),
            final(meta).visited@.len() == old(meta).visited@.len(),
            forall|s: int| 0 <= s < old(meta).visited@.len() && old(meta).visited@[s] ==> #[trigger] final(meta).visited@[s],
            final(meta).started == old(meta).started,
            final(meta).first == old(meta).first,
            final(meta).second == old(meta).second,
            match r {
                Ok(_) => final(meta).flow@ == old(meta).flow@ + if old(meta).seen(label) {
                    Seq::<(Label, Label)>::empty()
                } else {
                    queued(self.terminator->0, label, *final(meta))->0
                },
                Err(e) => {
                    &&& !old(meta).seen(label)
                    &&& (exists|k: int| 0 <= k < self.instructions@.len() && #[trigger] refuses(*final(meta), self.instructions@[k], *float, e))
                        || branch_refuses(self.terminator, *final(meta), e)
                },
            },
    {
        assert(f.frag_ok(*self)) by {
            assert(f.blocks@[slot_of(label)] is Some);
        }
        let mut i: usize = 0;
        while i < self.phis.len()
            invariant
                meta.ok(*f),
                f.wf(),
                f.frag_ok(*self),
                meta.unset() == old(meta).unset(),
                meta.weight() <= old(meta).weight(),
                meta.visited == old(meta).visited,
                meta.started == old(meta).started,
                meta.first == old(meta).first,
                meta.second == old(meta).second,
                meta.flow == old(meta).flow,
                f.frag(label) == Some(*self),
                forall|o: BinOp, x: u32, y: u32| float.requires((o, x, y)),
                derivable(*f, *float, *meta),
                queue_ok(*meta, *f),
                entered(*meta, *f, label),
            decreases self.phis@.len() - i,
        {
            assert(self.phis@[i as int].var < f.vars);
            let ghost m0 = *meta;
            let _ = self.phis[i].analyze(label, meta, f);
            proof {
                let phi = self.phis@[i as int];
                assert(f.frag(label)->0.phis@[i as int].var == phi.var);
                lemma_lower_moves(*f, *float, m0, *meta, phi.var, label, phi_meet(m0, *f, label, phi.inputs@));
                assert(meta.visited == m0.visited && meta.started == m0.started && meta.first == m0.first && meta.second == m0.second);
                if m0.seen(label) {
                    assert(meta.seen(label));
                } else {
                    let p = choose|p: Label| #[trigger] m0.executed(*f, p, label);
                    assert(meta.executed(*f, p, label));
                }
            }
            i = i + 1;
        }
        let ghost mv = *meta;
        let fresh = meta.visit(f, label);
        proof {
            assert(reached(*f, mv, *meta, label));
            lemma_derivable_step(*f, *float, mv, *meta);
            lemma_queue_grow(*f, mv, *meta);
        }
        if fresh {
            let ghost flow0 = meta.flow;
            let mut i: usize = 0;
            while i < self.instructions.len()
                invariant
                    meta.ok(*f),
                    f.wf(),
                    f.frag_ok(*self),
                    f.frag(label) == Some(*self),
                    meta.unset() == old(meta).unset(),
                    meta.weight() <= old(meta).weight(),
                    forall|o: BinOp, x: u32, y: u32| float.requires((o, x, y)),
                    meta.seen(label),
                    !old(meta).seen(label),
                    meta.flow == flow0,
                    flow0@ == old(meta).flow@,
                    meta.visited@.len() == old(meta).visited@.len(),
                    forall|s: int| 0 <= s < old(meta).visited@.len() && old(meta).visited@[s] ==> #[trigger] meta.visited@[s],
                    meta.started == old(meta).started,
                    meta.first == old(meta).first,
                    meta.second == old(meta).second,
                    derivable(*f, *float, *meta),
                    queue_ok(*meta, *f),
                decreases self.instructions@.len() - i,
            {
                assert(self.instructions@[i as int].def() < f.vars);
                let ghost m0 = *meta;
                match self.instructions[i].analyze(meta, f, float) {
                    Ok(_) => {
                        proof {
                            let ins = self.instructions@[i as int];
                            let t = choose|v: LatticeV| #[trigger] transfer(m0, ins, *float, v)
                                && meta.value(ins.def()) == meet_spec(m0.value(ins.def()), v);
                            assert(transfer(m0, f.frag(label)->0.instructions@[i as int], *float, t));
                            lemma_lower_moves(*f, *float, m0, *meta, ins.def(), label, t);
                        }
                    },
                    Err(e) => {
                        assert(refuses(*meta, self.instructions@[i as int], *float, e));
                        return Err(e);
                    },
                }
                i = i + 1;
            }
            let term = self.terminator.unwrap();
            let ghost before = *meta;
            match term.analyze(label, meta, f) {
                Ok(_) => {
                    assert(queued(term, label, *meta) == queued(term, label, before));
                    proof {
                        lemma_queue_push(*f, *float, before, *meta, label, term);
                    }
                },
                Err(e) => {
                    return Err(e);
                },
            }
        } else {
            assert(meta.flow@ =~= old(meta).flow@ + Seq::<(Label, Label)>::empty());
        }
        Ok(())
    }
}

impl Function {
    /// Sparse conditional constant propagation: finds the fragments control
    /// can reach and, for each variable, whether it holds one constant.
    /// `float` folds operations on two floats. On success the reached
    /// fragments are closed under the edges their terminators make
    /// executable, and the values are a fixed point of the transfer
    /// functions over them, exactly so for a function in SSA form and a
    /// deterministic float unit; every edge found executable is one the
    /// values make executable. Fails when folding a constant of a reached
    /// fragment fails in a state the analysis comes to, or when the exit
    /// cannot be reached.
    pub fn analyze<F: Fn(BinOp, u32, u32) -> Const>(&self, float: &F) -> (r: Result<Meta, Fault>)
        requires
            self.wf(),
            forall|o: BinOp, x: u32, y: u32| float.requires((o, x, y)),
        ensures
            r matches Ok(m) ==> derivable(*self, *float, m) && m.ok(*self) && closed(m, *self) && stable(m, *self, *float)
                && m.seen(Label::Entry) && m.seen(Label::Exit) && supported(m, *self),
            r matches Ok(m) ==> (single_def(*self) && folds_uniquely(*float) ==> exact(m, *self, *float)),
            r matches Err(e) ==> analysis_fails(*self, *float, e),
    {
        let usage = self.usage();
        let mut meta = Meta::new(self.vars, self.blocks.len());
        let ghost m_new = meta;
        meta.flow.push_back((Label::Entry, Label::Entry));
        assert(meta.ok(*self)) by {
            assert(forall|i: int| 0 <= i < meta.flow@.len() ==> meta.flow@[i] == (Label::Entry, Label::Entry));
        }
        assert(arrived(meta, *self));
        proof {
            assert(meta.values == m_new.values);
            assert forall|v: Var| #[trigger] meta.value(v) == LatticeV::Top by {
                assert(meta.value(v) == m_new.value(v));
                if v < self.vars {
                    assert(m_new.value(v) == LatticeV::Top);
                }
            }
            assert forall|p: Label, t: Label| !#[trigger] meta.executed(*self, p, t) by {
                let s = slot_of(p);
                if 0 <= s < meta.first@.len() {
                    assert(!meta.first@[s] && !meta.second@[s]);
                }
            }
            assert(fresh(meta, *self));
            lemma_derivable_fresh(*self, *float, meta);
            assert(queue_ok(meta, *self)) by {
                assert(forall|i: int| 0 <= i < meta.flow@.len() ==> meta.flow@[i] == (Label::Entry, Label::Entry));
            }
        }
        loop
            invariant
                self.wf(),
                meta.ok(*self),
                usage_ok(*self, usage@),
                forall|o: BinOp, x: u32, y: u32| float.requires((o, x, y)),
                arrived(meta, *self),
                derivable(*self, *float, meta),
                queue_ok(meta, *self),
            ensures
                meta.ok(*self),
                closed(meta, *self),
                stable(meta, *self, *float),
                derivable(*self, *float, meta),
            decreases meta.unset(), meta.weight(), meta.pending(),
        {
            if meta.flow.len() == 0 && meta.ssa.len() == 0 {
                let missing = match meta.missing(self) {
                    Ok(m) => m,
                    Err(e) => {
                        proof {
                            let l = choose|l: Label| meta.seen(l) && self.has(l) && #[trigger] branch_refuses(self.frag(l)->0.terminator, meta, e);
                            assert(faults_at(*self, l, meta, *float, e));
                        }
                        return Err(e);
                    },
                };
                match missing {
                    None => {
                        let ghost m0 = meta;
                        let lowered = match meta.refine(self, float) {
                            Ok(b) => b,
                            Err(e) => {
                                proof {
                                    let (l, k) = choose|l: Label, k: int|
                                        meta.seen(l) && self.has(l) && 0 <= k < self.frag(l)->0.instructions@.len()
                                            && #[trigger] refuses(meta, self.frag(l)->0.instructions@[k], *float, e);
                                    assert(faults_at(*self, l, meta, *float, e));
                                }
                                return Err(e);
                            },
                        };
                        if !lowered {
                            break;
                        }
                        proof {
                            lemma_arrived_same(*self, m0, meta);
                        }
                        continue;
                    },
                    Some((pred, label)) => {
                        let ghost m0 = meta;
                        meta.mark(self, pred, label);
                        proof {
                            assert(marked(*self, m0, meta, pred, label));
                            lemma_derivable_step(*self, *float, m0, meta);
                            lemma_queue_grow(*self, m0, meta);
                            assert(entered(meta, *self, label)) by {
                                assert(meta.executed(*self, pred, label));
                            }
                        }
                        assert(self.has(label)) by {
                            if !(pred == Label::Entry && label == Label::Entry) {
                                let k = choose|k: int| 0 <= k < succs(*self, pred).len() && succs(*self, pred)[k] == label;
                                assert(self.frag_ok(self.frag(pred)->0)) by {
                                    assert(self.blocks@[slot_of(pred)] is Some);
                                }
                                assert(self.frag(pred)->0.terminator->0.targets()[k] == label);
                            }
                        }
                        let ghost m1 = meta;
                        let fragment = self.get(label).unwrap();
                        match fragment.analyze(label, &mut meta, self, float) {
                            Ok(_) => {},
                            Err(e) => {
                                assert(faults_at(*self, label, meta, *float, e));
                                return Err(e);
                            },
                        }
                        proof {
                            lemma_arrived_step(*self, m0, m1, meta, pred, label);
                        }
                        continue;
                    },
                }
            }
            let ghost u0 = meta.unset();
            let ghost w0 = meta.weight();
            let ghost s0 = meta.waiting();
            let ghost p0 = meta.pending();
            loop
                invariant
                    self.wf(),
                    meta.ok(*self),
                    forall|o: BinOp, x: u32, y: u32| float.requires((o, x, y)),
                    meta.unset() <= u0,
                    meta.unset() == u0 ==> meta.weight() == w0 && meta.waiting() == s0,
                    arrived(meta, *self),
                    derivable(*self, *float, meta),
                    queue_ok(meta, *self),
                ensures
                    meta.ok(*self),
                    arrived(meta, *self),
                    derivable(*self, *float, meta),
                    queue_ok(meta, *self),
                    meta.pending() == 0,
                    meta.unset() <= u0,
                    meta.unset() == u0 ==> meta.weight() == w0 && meta.waiting() == s0,
                decreases meta.unset(), meta.pending(),
            {
                let ghost mp = meta;
                let popped = meta.flow.pop_front();
                proof {
                    lemma_arrived_same(*self, mp, meta);
                    assert(same_state(mp, meta, *self));
                    lemma_derivable_step(*self, *float, mp, meta);
                    assert forall|i: int| 0 <= i < meta.flow@.len() implies #[trigger] takes(meta, *self, meta.flow@[i].0, meta.flow@[i].1) by {
                        assert(meta.flow@[i] == mp.flow@[i + 1]);
                        assert(takes(mp, *self, mp.flow@[i + 1].0, mp.flow@[i + 1].1));
                    }
                    if popped is Some {
                        assert(takes(mp, *self, mp.flow@[0].0, mp.flow@[0].1));
                    }
                }
                match popped {
                    None => {
                        break;
                    },
                    Some((pred, label)) => {
                        assert(edge_ok(*self, (pred, label)));
                        if meta.taken(self, pred, label) {
                            continue;
                        }
                        let ghost m0 = meta;
                        meta.mark(self, pred, label);
                        proof {
                            assert(marked(*self, m0, meta, pred, label));
                            lemma_derivable_step(*self, *float, m0, meta);
                            lemma_queue_grow(*self, m0, meta);
                            assert(entered(meta, *self, label)) by {
                                assert(meta.executed(*self, pred, label));
                            }
                        }
                        assert(self.has(label)) by {
                            if !(pred == Label::Entry && label == Label::Entry) {
                                let k = choose|k: int| 0 <= k < succs(*self, pred).len() && succs(*self, pred)[k] == label;
                                assert(self.frag_ok(self.frag(pred)->0)) by {
                                    assert(self.blocks@[slot_of(pred)] is Some);
                                }
                                assert(self.frag(pred)->0.terminator->0.targets()[k] == label);
                            }
                        }
                        let ghost m1 = meta;
                        let fragment = self.get(label).unwrap();
                        match fragment.analyze(label, &mut meta, self, float) {
                            Ok(_) => {},
                            Err(e) => {
                                assert(faults_at(*self, label, meta, *float, e));
                                return Err(e);
                            },
                        }
                        proof {
                            lemma_arrived_step(*self, m0, m1, meta, pred, label);
                        }
                    },
                }
            }
            let ghost w1 = meta.weight();
            let ghost s1 = meta.waiting();
            let ghost f1 = meta.flow@;
            let ghost u1 = meta.unset();
            loop
                invariant
                    self.wf(),
                    meta.ok(*self),
                    usage_ok(*self, usage@),
                    forall|o: BinOp, x: u32, y: u32| float.requires((o, x, y)),
                    meta.unset() == u1,
                    meta.weight() <= w1,
                    meta.weight() < w1 || (meta.flow@ == f1 && meta.waiting() == s1),
                    arrived(meta, *self),
                    derivable(*self, *float, meta),
                    queue_ok(meta, *self),
                ensures
                    meta.ok(*self),
                    arrived(meta, *self),
                    derivable(*self, *float, meta),
                    queue_ok(meta, *self),
                    meta.waiting() == 0,
                    meta.unset() == u1,
                    meta.weight() < w1 || (meta.flow@ == f1 && s1 == 0),
                decreases meta.weight(),
            {
                let ghost wstart = meta.weight();
                let ghost mp = meta;
                let popped = meta.ssa.pop_front();
                proof {
                    lemma_arrived_same(*self, mp, meta);
                    assert(same_state(mp, meta, *self));
                    lemma_derivable_step(*self, *float, mp, meta);
                    lemma_queue_grow(*self, mp, meta);
                }
                match popped {
                    None => {
                        break;
                    },
                    Some(var) => {
                        assert(var < self.vars);
                        let users = &usage[var];
                        let mut j: usize = 0;
                        while j < users.len()
                            invariant
                                self.wf(),
                                meta.ok(*self),
                                usage_ok(*self, usage@),
                                var < self.vars,
                                users == usage@[var as int],
                                forall|o: BinOp, x: u32, y: u32| float.requires((o, x, y)),
                                meta.unset() == u1,
                                meta.weight() < wstart,
                                arrived(meta, *self),
                                derivable(*self, *float, meta),
                                queue_ok(meta, *self),
                            decreases users@.len() - j,
                        {
                            let (label, id) = users[j];
                            assert(user_ok(*self, users@[j as int]));
                            if meta.visits(label) {
                                let fragment = self.get(label).unwrap();
                                assert(self.frag_ok(*fragment)) by {
                                    assert(self.blocks@[slot_of(label)] is Some);
                                }
                                let ghost ma = meta;
                                match id {
                                    Id::Phi(index) => {
                                        assert(fragment.phis@[index as int].var < self.vars);
                                        let _ = fragment.phis[index].analyze(label, &mut meta, self);
                                        proof {
                                            let phi = fragment.phis@[index as int];
                                            assert(self.frag(label)->0.phis@[index as int].var == phi.var);
                                            lemma_lower_moves(*self, *float, ma, meta, phi.var, label, phi_meet(ma, *self, label, phi.inputs@));
                                        }
                                    },
                                    Id::Ins(index) => {
                                        assert(fragment.instructions@[index as int].def() < self.vars);
                                        match fragment.instructions[index].analyze(&mut meta, self, float) {
                                            Ok(_) => {
                                                proof {
                                                    let ins = fragment.instructions@[index as int];
                                                    let t = choose|v: LatticeV| #[trigger] transfer(ma, ins, *float, v)
                                                        && meta.value(ins.def()) == meet_spec(ma.value(ins.def()), v);
                                                    assert(transfer(ma, self.frag(label)->0.instructions@[index as int], *float, t));
                                                    lemma_lower_moves(*self, *float, ma, meta, ins.def(), label, t);
                                                }
                                            },
                                            Err(e) => {
                                                assert(refuses(meta, self.frag(label)->0.instructions@[index as int], *float, e));
                                                assert(faults_at(*self, label, meta, *float, e));
                                                return Err(e);
                                            },
                                        }
                                    },
                                    Id::Term => {
                                        let term = fragment.terminator.unwrap();
                                        match term.analyze(label, &mut meta, self) {
                                            Ok(_) => {
                                                proof {
                                                    lemma_queue_push(*self, *float, ma, meta, label, term);
                                                }
                                            },
                                            Err(e) => {
                                                assert(faults_at(*self, label, meta, *float, e));
                                                return Err(e);
                                            },
                                        }
                                    },
                                }
                                proof {
                                    lemma_arrived_same(*self, ma, meta);
                                }
                            }
                            j = j + 1;
                        }
                    },
                }
            }
        }
        if !meta.visits(Label::Exit) {
            assert(!meta.seen(Label::Exit));
            return Err(Fault::ExitBlockUnreachable);
        }
        proof {
            law_analysis_supported(*self, *float, meta);
            if single_def(*self) && folds_uniquely(*float) {
                law_analysis_exact(*self, *float, meta);
            }
        }
        Ok(meta)
    }
}

/// Taking the edge `(p, t)` and then analysing `t` keeps every executable
/// edge leading to a reached fragment.
proof fn lemma_arrived_step(f: Function, m0: Meta, m1: Meta, m2: Meta, p: Label, t: Label)
    requires
        arrived(m0, f),
        forall|a: Label, b: Label| #[trigger] m1.executed(f, a, b) ==> m0.executed(f, a, b) || (a == p && b == t),
        m1.visited == m0.visited,
        m2.seen(t),
        m2.visited@.len() == m1.visited@.len(),
        forall|s: int| 0 <= s < m1.visited@.len() && m1.visited@[s] ==> #[trigger] m2.visited@[s],
        m2.started == m1.started,
        m2.first == m1.first,
        m2.second == m1.second,
    ensures
        arrived(m2, f),
{
    assert forall|a: Label, b: Label| #[trigger] m2.executed(f, a, b) implies m2.seen(b) by {
        assert(m1.executed(f, a, b));
        if !(a == p && b == t) {
            assert(m0.executed(f, a, b));
            assert(m0.seen(b));
        }
    }
}

/// Leaving the executable edges and the reached fragments as they are keeps
/// every executable edge leading to a reached fragment.
proof fn lemma_arrived_same(f: Function, m0: Meta, m1: Meta)
    requires
        arrived(m0, f),
        m1.visited == m0.visited,
        m1.started == m0.started,
        m1.first == m0.first,
        m1.second == m0.second,
    ensures
        arrived(m1, f),
{
    assert forall|a: Label, b: Label| #[trigger] m1.executed(f, a, b) implies m1.seen(b) by {
        assert(m0.executed(f, a, b));
    }
}

} // verus!
