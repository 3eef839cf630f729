use vstd::prelude::*;
use crate::context::{lemma_settles_empty, lemma_settles_insert, lemma_step_bound, resolve, settles, step, ends, Renamer};
use crate::ir::{slot_of, Fragment, Function, Instruction, Label, Phi, Terminator, Var};

verus! {

/// `b` is `a` with its operands replaced: the same kind of instruction,
/// defining the same variable, with the same constants and indices.
pub open spec fn same_but_reads(a: Instruction, b: Instruction) -> bool {
    &&& b.def() == a.def()
    &&& b.reads().len() == a.reads().len()
    &&& match (a, b) {
        (Instruction::Arg(_, i), Instruction::Arg(_, j)) => i == j,
        (Instruction::Field(_, _, i), Instruction::Field(_, _, j)) => i == j,
        (Instruction::Unpack(_, _, i), Instruction::Unpack(_, _, j)) => i == j,
        (Instruction::Pointer(_, p, i), Instruction::Pointer(_, q, j)) => p == q && i == j,
        (Instruction::Load(_, c), Instruction::Load(_, d)) => c@ == d@,
        (Instruction::Binary(_, _, o, _), Instruction::Binary(_, _, p, _)) => o == p,
        (Instruction::Unary(_, o, _), Instruction::Unary(_, p, _)) => o == p,
        (Instruction::Call(_, _, _), Instruction::Call(_, _, _)) => true,
        (Instruction::List(_, _), Instruction::List(_, _)) => true,
        (Instruction::Tuple(_, _), Instruction::Tuple(_, _)) => true,
        (Instruction::Index(_, _, _), Instruction::Index(_, _, _)) => true,
        (Instruction::Method(_, _, i, _), Instruction::Method(_, _, j, _)) => i == j,
        _ => false,
    }
}

/// `b` is `a` with every operand `u` replaced by where `m` takes it.
pub open spec fn renamed_ins(a: Instruction, b: Instruction, m: Map<Var, Var>) -> bool {
    &&& same_but_reads(a, b)
    &&& forall|k: int| 0 <= k < a.reads().len() ==> #[trigger] b.reads()[k] == resolve(m, a.reads()[k])
}

/// The terminator with the variable it reads replaced.
pub open spec fn renamed_term(t: Terminator, m: Map<Var, Var>) -> Terminator {
    match t {
        Terminator::Branch(c, y, n) => Terminator::Branch(resolve(m, c), y, n),
        Terminator::Return(v) => Terminator::Return(resolve(m, v)),
        Terminator::Jump(l) => Terminator::Jump(l),
    }
}

/// `b` holds the inputs of `a` with their variables replaced.
pub open spec fn renamed_inputs(a: Seq<(Label, Var)>, b: Seq<(Label, Var)>, m: Map<Var, Var>) -> bool {
    &&& b.len() == a.len()
    &&& forall|k: int| 0 <= k < a.len() ==> (#[trigger] b[k]).0 == a[k].0 && b[k].1 == resolve(m, a[k].1)
}

/// Under `m`, every input of the phi other than itself comes down to `c`,
/// and at least one does: the phi only copies `c`.
pub open spec fn lone(p: Phi, m: Map<Var, Var>, c: Var) -> bool {
    &&& c != p.var
    &&& exists|j: int| 0 <= j < p.inputs@.len() && resolve(m, (#[trigger] p.inputs@[j]).1) == c
    &&& forall|j: int|
        0 <= j < p.inputs@.len() ==> resolve(m, (#[trigger] p.inputs@[j]).1) == c || resolve(
            m,
            p.inputs@[j].1,
        ) == p.var
}

/// A phi that only copies one other variable.
pub open spec fn trivial(p: Phi, m: Map<Var, Var>) -> bool {
    exists|c: Var| lone(p, m, c)
}

/// The substitution maps the variable of `p` to a variable that `p` only
/// copied under a part of the substitution: `p` was dropped for it.
pub open spec fn copied(p: Phi, m: Map<Var, Var>) -> bool {
    &&& m.dom().contains(p.var)
    &&& exists|m0: Map<Var, Var>| #[trigger] m0.submap_of(m) && settles(m0) && lone(p, m0, m[p.var])
}

/// No two phis of `ps` define the same variable.
pub open spec fn vars_apart(ps: Seq<Phi>) -> bool {
    forall|a: int, b: int| 0 <= a < ps.len() && 0 <= b < ps.len() && a != b ==> (#[trigger] ps[a]).var != (#[trigger] ps[b]).var
}

/// No two phis of `f`, in one fragment or in two, define the same
/// variable.
pub open spec fn phis_apart(f: Function) -> bool {
    forall|s1: int, s2: int, k1: int, k2: int|
        0 <= s1 < f.blocks@.len() && 0 <= s2 < f.blocks@.len() && f.blocks@[s1] is Some && f.blocks@[s2] is Some
            && 0 <= k1 < f.blocks@[s1]->0.phis@.len() && 0 <= k2 < f.blocks@[s2]->0.phis@.len()
            && (#[trigger] f.blocks@[s1]->0.phis@[k1]).var == (#[trigger] f.blocks@[s2]->0.phis@[k2]).var ==> s1 == s2 && k1
            == k2
}

/// Every variable the substitution maps to is below `bound`.
pub open spec fn maps_below(m: Map<Var, Var>, bound: int) -> bool {
    forall|x: Var| #[trigger] m.dom().contains(x) ==> m[x] < bound
}

proof fn lemma_resolve_bound(m: Map<Var, Var>, u: Var, bound: int)
    requires
        settles(m),
        maps_below(m, bound),
        u < bound,
    ensures
        resolve(m, u) < bound,
{
    assert(ends(m, u, resolve(m, u)));
    let n = choose|n: nat| #[trigger] step(m, u, n) == resolve(m, u) && !m.dom().contains(resolve(m, u));
    lemma_step_bound(m, u, n, bound);
}

/// The number of phis over all fragments.
pub open spec fn phis_in(b: Seq<Option<Fragment>>) -> nat
    decreases b.len(),
{
    if b.len() == 0 {
        0
    } else {
        phis_in(b.drop_last()) + match b.last() {
            Some(f) => f.phis@.len(),
            None => 0,
        }
    }
}

pub open spec fn phis_of(x: Option<Fragment>) -> nat {
    match x {
        Some(f) => f.phis@.len(),
        None => 0,
    }
}

proof fn lemma_phis_update(b: Seq<Option<Fragment>>, s: int, x: Option<Fragment>)
    requires
        0 <= s < b.len(),
    ensures
        phis_in(b.update(s, x)) + phis_of(b[s]) == phis_in(b) + phis_of(x),
    decreases b.len(),
{
    let c = b.update(s, x);
    if s == b.len() - 1 {
        assert(c.drop_last() =~= b.drop_last());
    } else {
        assert(c.drop_last() =~= b.drop_last().update(s, x));
        lemma_phis_update(b.drop_last(), s, x);
    }
}

/// Finds the one variable the phi copies, if it only copies one.
fn lone_source(p: &Phi, r: &Renamer) -> (o: Option<Var>)
    requires
        settles(r@),
    ensures
        match o {
            Some(c) => lone(*p, r@, c),
            None => !trivial(*p, r@),
        },
{
    let mut candidate: Option<Var> = None;
    let mut j: usize = 0;
    while j < p.inputs.len()
        invariant
            settles(r@),
            j <= p.inputs@.len(),
            match candidate {
                Some(c) => c != p.var && (exists|i: int| 0 <= i < j && resolve(r@, (#[trigger] p.inputs@[i]).1) == c)
                    && forall|i: int|
                    0 <= i < j ==> resolve(r@, (#[trigger] p.inputs@[i]).1) == c || resolve(
                        r@,
                        p.inputs@[i].1,
                    ) == p.var,
                None => forall|i: int| 0 <= i < j ==> resolve(r@, (#[trigger] p.inputs@[i]).1) == p.var,
            },
        decreases p.inputs@.len() - j,
    {
        let resolved = r.get(p.inputs[j].1);
        if resolved != p.var {
            match candidate {
                Some(c) => {
                    if c != resolved {
                        proof {
                            assert forall|x: Var| !lone(*p, r@, x) by {
                                if lone(*p, r@, x) {
                                    let i = choose|i: int| 0 <= i < j && resolve(r@, (#[trigger] p.inputs@[i]).1) == c;
                                    assert(resolve(r@, p.inputs@[i].1) == x || resolve(r@, p.inputs@[i].1) == p.var);
                                    assert(resolve(r@, p.inputs@[j as int].1) == x || resolve(r@, p.inputs@[j as int].1) == p.var);
                                }
                            }
                        }
                        return None;
                    }
                },
                None => {
                    candidate = Some(resolved);
                },
            }
        }
        j = j + 1;
    }
    proof {
        if candidate is None {
            assert forall|x: Var| !lone(*p, r@, x) by {
                if lone(*p, r@, x) {
                    let i = choose|i: int| 0 <= i < p.inputs@.len() && resolve(r@, (#[trigger] p.inputs@[i]).1) == x;
                }
            }
        }
    }
    candidate
}

fn rename_all(args: &mut Vec<Var>, r: &Renamer)
    requires
        settles(r@),
    ensures
        final(args)@.len() == old(args)@.len(),
        forall|k: int| 0 <= k < old(args)@.len() ==> #[trigger] final(args)@[k] == resolve(r@, old(args)@[k]),
{
    let mut k: usize = 0;
    while k < args.len()
        invariant
            settles(r@),
            k <= args@.len(),
            args@.len() == old(args)@.len(),
            forall|i: int| 0 <= i < k ==> #[trigger] args@[i] == resolve(r@, old(args)@[i]),
            forall|i: int| k <= i < args@.len() ==> #[trigger] args@[i] == old(args)@[i],
        decreases old(args)@.len() - k,
    {
        let v = r.get(args[k]);
        args[k] = v;
        k = k + 1;
    }
}

impl Instruction {
    /// Replaces every operand by where the substitution takes it.
    pub fn rename(&mut self, r: &Renamer)
        requires
            settles(r@),
        ensures
            renamed_ins(*old(self), *final(self), r@),
    {
        match self {
            Instruction::Field(_, src, _) => {
                *src = r.get(*src);
            },
            Instruction::Unpack(_, src, _) => {
                *src = r.get(*src);
            },
            Instruction::Unary(_, _, src) => {
                *src = r.get(*src);
            },
            Instruction::Binary(_, src, _, other) => {
                *src = r.get(*src);
                *other = r.get(*other);
            },
            Instruction::Index(_, src, other) => {
                *src = r.get(*src);
                *other = r.get(*other);
            },
            Instruction::List(_, args) => {
                rename_all(args, r);
            },
            Instruction::Tuple(_, args) => {
                rename_all(args, r);
            },
            Instruction::Call(_, src, args) => {
                *src = r.get(*src);
                rename_all(args, r);
            },
            Instruction::Method(_, src, _, args) => {
                *src = r.get(*src);
                rename_all(args, r);
            },
            Instruction::Arg(_, _) => {},
            Instruction::Pointer(_, _, _) => {},
            Instruction::Load(_, _) => {},
        }
        proof {
            let a = *old(self);
            let b = *self;
            assert forall|k: int| 0 <= k < a.reads().len() implies #[trigger] b.reads()[k] == resolve(
                r@,
                a.reads()[k],
            ) by {
                match (a, b) {
                    (Instruction::Call(_, _, x), Instruction::Call(_, _, y)) => {
                        if k > 0 {
                            assert(b.reads()[k] == y@[k - 1]);
                            assert(a.reads()[k] == x@[k - 1]);
                        }
                    },
                    (Instruction::Method(_, _, _, x), Instruction::Method(_, _, _, y)) => {
                        if k > 0 {
                            assert(b.reads()[k] == y@[k - 1]);
                            assert(a.reads()[k] == x@[k - 1]);
                        }
                    },
                    _ => {},
                }
            }
        }
    }
}

impl Terminator {
    /// Replaces the variable the terminator reads.
    pub fn rename(&mut self, r: &Renamer)
        requires
            settles(r@),
        ensures
            *final(self) == renamed_term(*old(self), r@),
    {
        match self {
            Terminator::Branch(var, _, _) => {
                *var = r.get(*var);
            },
            Terminator::Return(var) => {
                *var = r.get(*var);
            },
            Terminator::Jump(_) => {},
        }
    }
}

impl Phi {
    /// Replaces the variable of every input.
    pub fn rename(&mut self, r: &Renamer)
        requires
            settles(r@),
        ensures
            final(self).var == old(self).var,
            renamed_inputs(old(self).inputs@, final(self).inputs@, r@),
    {
        let mut k: usize = 0;
        while k < self.inputs.len()
            invariant
                settles(r@),
                k <= self.inputs@.len(),
                self.var == old(self).var,
                self.inputs@.len() == old(self).inputs@.len(),
                forall|i: int|
                    0 <= i < k ==> (#[trigger] self.inputs@[i]).0 == old(self).inputs@[i].0
                        && self.inputs@[i].1 == resolve(r@, old(self).inputs@[i].1),
                forall|i: int| k <= i < self.inputs@.len() ==> #[trigger] self.inputs@[i] == old(self).inputs@[i],
            decreases old(self).inputs@.len() - k,
        {
            let (label, var) = self.inputs[k];
            let v = r.get(var);
            self.inputs[k] = (label, v);
            k = k + 1;
        }
    }
}

/// `b` is `a` with every variable read replaced by where `m` takes it.
pub open spec fn renamed_fragment(a: Fragment, b: Fragment, m: Map<Var, Var>) -> bool {
    &&& b.predecessors == a.predecessors
    &&& b.phis@.len() == a.phis@.len()
    &&& forall|k: int|
        0 <= k < a.phis@.len() ==> (#[trigger] b.phis@[k]).var == a.phis@[k].var && renamed_inputs(
            a.phis@[k].inputs@,
            b.phis@[k].inputs@,
            m,
        )
    &&& b.instructions@.len() == a.instructions@.len()
    &&& forall|k: int|
        0 <= k < a.instructions@.len() ==> renamed_ins(
            #[trigger] a.instructions@[k],
            b.instructions@[k],
            m,
        )
    &&& a.terminator is Some ==> b.terminator == Some(renamed_term(a.terminator->0, m))
}

impl Fragment {
    /// Replaces every variable the fragment reads.
    pub fn rename(&mut self, r: &Renamer)
        requires
            settles(r@),
        ensures
            renamed_fragment(*old(self), *final(self), r@),
    {
        let mut k: usize = 0;
        while k < self.phis.len()
            invariant
                settles(r@),
                k <= self.phis@.len(),
                self.phis@.len() == old(self).phis@.len(),
                forall|i: int|
                    0 <= i < k ==> (#[trigger] self.phis@[i]).var == old(self).phis@[i].var && renamed_inputs(
                        old(self).phis@[i].inputs@,
                        self.phis@[i].inputs@,
                        r@,
                    ),
                forall|i: int| k <= i < self.phis@.len() ==> #[trigger] self.phis@[i] == old(self).phis@[i],
                self.instructions == old(self).instructions,
                self.terminator == old(self).terminator,
                self.predecessors == old(self).predecessors,
            decreases old(self).phis@.len() - k,
        {
            self.phis[k].rename(r);
            k = k + 1;
        }
        let mut k: usize = 0;
        while k < self.instructions.len()
            invariant
                settles(r@),
                k <= self.instructions@.len(),
                self.instructions@.len() == old(self).instructions@.len(),
                forall|i: int|
                    0 <= i < k ==> renamed_ins(
                        #[trigger] old(self).instructions@[i],
                        self.instructions@[i],
                        r@,
                    ),
                forall|i: int|
                    k <= i < self.instructions@.len() ==> #[trigger] self.instructions@[i]
                        == old(self).instructions@[i],
                self.phis@.len() == old(self).phis@.len(),
                forall|i: int|
                    0 <= i < self.phis@.len() ==> (#[trigger] self.phis@[i]).var == old(self).phis@[i].var
                        && renamed_inputs(old(self).phis@[i].inputs@, self.phis@[i].inputs@, r@),
                self.terminator == old(self).terminator,
                self.predecessors == old(self).predecessors,
            decreases old(self).instructions@.len() - k,
        {
            self.instructions[k].rename(r);
            k = k + 1;
        }
        if let Some(mut t) = self.terminator {
            t.rename(r);
            self.terminator = Some(t);
        }
    }

    /// Drops the phis that only copy one other variable, and records in the
    /// substitution that the phi's variable stands for that one.
    fn simplify(&mut self, r: &mut Renamer, bound: usize) -> (removed: bool)
        requires
            settles(old(r)@),
            maps_below(old(r)@, bound as int),
            forall|k: int, j: int|
                0 <= k < old(self).phis@.len() && 0 <= j < old(self).phis@[k].inputs@.len() ==> (
                #[trigger] old(self).phis@[k].inputs@[j]).1 < bound,
        ensures
            settles(final(r)@),
            maps_below(final(r)@, bound as int),
            forall|k: int| 0 <= k < final(self).phis@.len() ==> old(self).phis@.contains(#[trigger] final(self).phis@[k]),
            final(self).phis@.len() <= old(self).phis@.len(),
            removed ==> final(self).phis@.len() < old(self).phis@.len(),
            !removed ==> final(self).phis@ == old(self).phis@ && final(r)@ == old(r)@ && forall|k: int|
                0 <= k < old(self).phis@.len() ==> !trivial(#[trigger] old(self).phis@[k], old(r)@),
            removed ==> !final(r)@.dom().is_empty(),
            final(self).predecessors == old(self).predecessors,
            final(self).instructions == old(self).instructions,
            final(self).terminator == old(self).terminator,
            vars_apart(old(self).phis@) && (forall|k: int| 0 <= k < old(self).phis@.len() ==> !old(r)@.dom().contains(#[trigger] old(self).phis@[k].var)) ==> {
                &&& old(r)@.submap_of(final(r)@)
                &&& forall|k: int| 0 <= k < old(self).phis@.len() ==> final(self).phis@.contains(#[trigger] old(self).phis@[k]) || copied(old(self).phis@[k], final(r)@)
                &&& forall|v: Var| #[trigger] final(r)@.dom().contains(v) ==> old(r)@.dom().contains(v) || exists|k: int|
                    0 <= k < old(self).phis@.len() && old(self).phis@[k].var == v && !final(self).phis@.contains(#[trigger] old(self).phis@[k])
                &&& forall|k: int| 0 <= k < final(self).phis@.len() ==> !final(r)@.dom().contains(#[trigger] final(self).phis@[k].var)
                &&& vars_apart(final(self).phis@)
            },
    {
        let ghost apart = vars_apart(old(self).phis@) && (forall|k: int| 0 <= k < old(self).phis@.len() ==> !old(r)@.dom().contains(#[trigger] old(self).phis@[k].var));
        let mut phis: Vec<Phi> = Vec::new();
        std::mem::swap(&mut phis, &mut self.phis);
        let ghost orig = phis@;
        let ghost i: int = 0;
        let mut removed = false;
        while phis.len() > 0
            invariant
                orig == old(self).phis@,
                0 <= i <= orig.len(),
                phis@ == orig.skip(i),
                settles(r@),
                maps_below(r@, bound as int),
                forall|k: int, j: int|
                    0 <= k < orig.len() && 0 <= j < orig[k].inputs@.len() ==> (#[trigger] orig[k].inputs@[j]).1
                        < bound,
                forall|k: int| 0 <= k < self.phis@.len() ==> orig.contains(#[trigger] self.phis@[k]),
                self.phis@.len() + (if removed { 1int } else { 0int }) <= i,
                !removed ==> self.phis@ == orig.take(i) && r@ == old(r)@ && forall|k: int|
                    0 <= k < i ==> !trivial(#[trigger] orig[k], old(r)@),
                removed ==> !r@.dom().is_empty(),
                apart ==> old(r)@.submap_of(r@),
                apart ==> vars_apart(orig) && forall|k: int| 0 <= k < orig.len() ==> !old(r)@.dom().contains(#[trigger] orig[k].var),
                apart ==> forall|k: int| 0 <= k < i ==> self.phis@.contains(#[trigger] orig[k]) || copied(orig[k], r@),
                apart ==> forall|v: Var| #[trigger] r@.dom().contains(v) ==> old(r)@.dom().contains(v) || exists|k: int|
                    0 <= k < i && orig[k].var == v && !self.phis@.contains(#[trigger] orig[k]),
                apart ==> forall|k: int| 0 <= k < self.phis@.len() ==> exists|kk: int| 0 <= kk < i && #[trigger] self.phis@[k] == orig[kk],
                apart ==> forall|k: int| 0 <= k < self.phis@.len() ==> !r@.dom().contains(#[trigger] self.phis@[k].var),
                apart ==> vars_apart(self.phis@),
                self.predecessors == old(self).predecessors,
                self.instructions == old(self).instructions,
                self.terminator == old(self).terminator,
            decreases phis@.len(),
        {
            let p = phis.remove(0);
            assert(p == orig[i]);
            let ghost r_before = r@;
            let ghost kept_before = self.phis@;
            match lone_source(&p, r) {
                Some(c) => {
                    proof {
                        let j = choose|j: int| 0 <= j < p.inputs@.len() && resolve(r@, (#[trigger] p.inputs@[j]).1) == c;
                        assert(ends(r@, p.inputs@[j].1, resolve(r@, p.inputs@[j].1)));
                        let n = choose|n: nat| #[trigger] step(r@, p.inputs@[j].1, n) == c && !r@.dom().contains(c);
                        lemma_step_bound(r@, p.inputs@[j].1, n, bound as int);
                        lemma_settles_insert(r@, p.var, c);
                    }
                    r.insert(p.var, c);
                    assert(r@.dom().contains(p.var));
                    removed = true;
                    proof {
                        if apart {
                            assert(!r_before.dom().contains(p.var)) by {
                                if r_before.dom().contains(p.var) {
                                    if !old(r)@.dom().contains(p.var) {
                                        let k = choose|k: int| 0 <= k < i && orig[k].var == p.var && !kept_before.contains(#[trigger] orig[k]);
                                        assert(orig[k].var == orig[i].var);
                                    }
                                }
                            }
                            assert(r_before.submap_of(r@));
                            assert(old(r)@.submap_of(r@)) by {
                                assert forall|x: Var| #[trigger] old(r)@.dom().contains(x) implies r@.dom().contains(x) && r@[x] == old(r)@[x] by {
                                    assert(r_before.dom().contains(x));
                                }
                            }
                            assert(r_before.submap_of(r@) && settles(r_before) && lone(p, r_before, r@[p.var]));
                            assert(copied(orig[i], r@));
                            assert forall|k: int| 0 <= k < i + 1 implies self.phis@.contains(#[trigger] orig[k]) || copied(orig[k], r@) by {
                                if k < i && !self.phis@.contains(orig[k]) {
                                    assert(copied(orig[k], r_before));
                                    let m0 = choose|m0: Map<Var, Var>| #[trigger] m0.submap_of(r_before) && settles(m0) && lone(orig[k], m0, r_before[orig[k].var]);
                                    assert forall|x: Var| #[trigger] m0.dom().contains(x) implies r@.dom().contains(x) && r@[x] == m0[x] by {
                                        assert(r_before.dom().contains(x));
                                    }
                                    assert(m0.submap_of(r@));
                                    assert(r@[orig[k].var] == r_before[orig[k].var]);
                                }
                            }
                            assert forall|v: Var| #[trigger] r@.dom().contains(v) implies old(r)@.dom().contains(v) || exists|k: int|
                                0 <= k < i + 1 && orig[k].var == v && !self.phis@.contains(#[trigger] orig[k]) by {
                                if v == p.var {
                                    if self.phis@.contains(orig[i]) {
                                        let q = choose|q: int| 0 <= q < self.phis@.len() && self.phis@[q] == orig[i];
                                        let kk = choose|kk: int| 0 <= kk < i && #[trigger] self.phis@[q] == orig[kk];
                                        assert(orig[kk].var == orig[i].var);
                                    }
                                } else if !old(r)@.dom().contains(v) {
                                    assert(r_before.dom().contains(v));
                                }
                            }
                            assert forall|k: int| 0 <= k < self.phis@.len() implies !r@.dom().contains(#[trigger] self.phis@[k].var) by {
                                let kk = choose|kk: int| 0 <= kk < i && #[trigger] self.phis@[k] == orig[kk];
                                assert(orig[kk].var != orig[i].var);
                                assert(!r_before.dom().contains(self.phis@[k].var));
                            }
                        }
                    }
                },
                None => {
                    self.phis.push(p);
                    proof {
                        if apart {
                            assert(!r@.dom().contains(p.var)) by {
                                if r@.dom().contains(p.var) && !old(r)@.dom().contains(p.var) {
                                    let k = choose|k: int| 0 <= k < i && orig[k].var == p.var && !kept_before.contains(#[trigger] orig[k]);
                                    assert(orig[k].var == orig[i].var);
                                }
                            }
                            assert forall|k: int| 0 <= k < i + 1 implies self.phis@.contains(#[trigger] orig[k]) || copied(orig[k], r@) by {
                                if k == i {
                                    assert(self.phis@[self.phis@.len() - 1] == orig[i]);
                                } else if kept_before.contains(orig[k]) {
                                    let q = choose|q: int| 0 <= q < kept_before.len() && kept_before[q] == orig[k];
                                    assert(self.phis@[q] == orig[k]);
                                }
                            }
                            assert forall|v: Var| #[trigger] r@.dom().contains(v) implies old(r)@.dom().contains(v) || exists|k: int|
                                0 <= k < i + 1 && orig[k].var == v && !self.phis@.contains(#[trigger] orig[k]) by {
                                if !old(r)@.dom().contains(v) {
                                    let k = choose|k: int| 0 <= k < i && orig[k].var == v && !kept_before.contains(#[trigger] orig[k]);
                                    assert(orig[k] != orig[i]);
                                    assert(!self.phis@.contains(orig[k])) by {
                                        if self.phis@.contains(orig[k]) {
                                            let q = choose|q: int| 0 <= q < self.phis@.len() && self.phis@[q] == orig[k];
                                            if q < kept_before.len() {
                                                assert(kept_before[q] == orig[k]);
                                            }
                                        }
                                    }
                                }
                            }
                            assert forall|k: int| 0 <= k < self.phis@.len() implies exists|kk: int| 0 <= kk < i + 1 && #[trigger] self.phis@[k] == orig[kk] by {
                                if k < kept_before.len() {
                                    let kk = choose|kk: int| 0 <= kk < i && #[trigger] kept_before[k] == orig[kk];
                                    assert(self.phis@[k] == orig[kk]);
                                } else {
                                    assert(self.phis@[k] == orig[i]);
                                }
                            }
                            assert forall|a: int, c2: int| 0 <= a < self.phis@.len() && 0 <= c2 < self.phis@.len() && a != c2 implies (#[trigger] self.phis@[a]).var != (#[trigger] self.phis@[c2]).var by {
                                let ka = choose|kk: int| 0 <= kk < i + 1 && #[trigger] self.phis@[a] == orig[kk];
                                let kc = choose|kk: int| 0 <= kk < i + 1 && #[trigger] self.phis@[c2] == orig[kk];
                                if a < kept_before.len() && c2 < kept_before.len() {
                                    assert(kept_before[a] == self.phis@[a] && kept_before[c2] == self.phis@[c2]);
                                } else if ka == kc {
                                    if a < kept_before.len() {
                                        let k2 = choose|kk: int| 0 <= kk < i && #[trigger] kept_before[a] == orig[kk];
                                        assert(orig[k2].var != orig[i].var || k2 == i);
                                    } else {
                                        let k2 = choose|kk: int| 0 <= kk < i && #[trigger] kept_before[c2] == orig[kk];
                                        assert(orig[k2].var != orig[i].var || k2 == i);
                                    }
                                }
                            }
                        }
                    }
                },
            }
            proof {
                i = i + 1;
                assert(phis@ =~= orig.skip(i));
                if !removed {
                    assert(self.phis@ =~= orig.take(i));
                }
            }
        }
        proof {
            if !removed {
                assert(orig.take(i) =~= orig);
            }
        }
        removed
    }
}

/// While the trivial phis of `f0` are dropped into `blocks`: no two phis of
/// a fragment define one variable, no phi left defines a variable `r`
/// maps, each phi of `f0` is left or copied, and `r` maps only variables of
/// phis no longer left.
pub open spec fn tracking(f0: Function, blocks: Seq<Option<Fragment>>, r: Map<Var, Var>) -> bool {
    let n = f0.blocks@.len();
    &&& forall|t: int| 0 <= t < n && #[trigger] blocks[t] is Some ==> vars_apart(blocks[t]->0.phis@)
    &&& forall|t: int, k: int|
        0 <= t < n && #[trigger] blocks[t] is Some && 0 <= k < blocks[t]->0.phis@.len() ==> !r.dom().contains(
            #[trigger] blocks[t]->0.phis@[k].var,
        )
    &&& forall|t: int, k: int|
        0 <= t < n && #[trigger] f0.blocks@[t] is Some && 0 <= k < f0.blocks@[t]->0.phis@.len()
            ==> blocks[t]->0.phis@.contains(#[trigger] f0.blocks@[t]->0.phis@[k]) || copied(f0.blocks@[t]->0.phis@[k], r)
    &&& forall|v: Var| #[trigger] r.dom().contains(v) ==> exists|t: int, k: int|
        0 <= t < n && f0.blocks@[t] is Some && 0 <= k < f0.blocks@[t]->0.phis@.len() && f0.blocks@[t]->0.phis@[k].var == v
            && !blocks[t]->0.phis@.contains(#[trigger] f0.blocks@[t]->0.phis@[k])
}

/// The phis of `blocks` are phis of `f0`, in the same slots.
pub open spec fn from_phis(f0: Function, blocks: Seq<Option<Fragment>>) -> bool {
    &&& blocks.len() == f0.blocks@.len()
    &&& forall|t: int| 0 <= t < blocks.len() ==> (#[trigger] blocks[t] is Some <==> f0.blocks@[t] is Some)
    &&& forall|t: int, k: int|
        0 <= t < blocks.len() && blocks[t] is Some && 0 <= k < blocks[t]->0.phis@.len() ==> f0.blocks@[t]->0.phis@.contains(
            #[trigger] blocks[t]->0.phis@[k],
        )
}

/// A submap agrees with the map on each of its keys.
proof fn lemma_submap_at(a: Map<Var, Var>, b: Map<Var, Var>, x: Var)
    requires
        a.submap_of(b),
        a.dom().contains(x),
    ensures
        b.dom().contains(x),
        b[x] == a[x],
{
    assert(a.dom().contains(x) ==> b.dom().contains(x) && a[x] == b[x]);
}

/// Dropping the trivial phis of one fragment keeps the tracking.
proof fn lemma_simplify_keeps(
    f0: Function,
    before: Seq<Option<Fragment>>,
    after: Seq<Option<Fragment>>,
    s: int,
    pre: Fragment,
    frag: Fragment,
    r0: Map<Var, Var>,
    r1: Map<Var, Var>,
)
    requires
        phis_apart(f0),
        tracking(f0, before, r0),
        from_phis(f0, before),
        0 <= s < before.len(),
        before[s] == Some(pre),
        after == before.update(s, Some(frag)),
        forall|k: int| 0 <= k < frag.phis@.len() ==> pre.phis@.contains(#[trigger] frag.phis@[k]),
        r0.submap_of(r1),
        forall|k: int| 0 <= k < pre.phis@.len() ==> frag.phis@.contains(#[trigger] pre.phis@[k]) || copied(pre.phis@[k], r1),
        forall|v: Var| #[trigger] r1.dom().contains(v) ==> r0.dom().contains(v) || exists|k: int|
            0 <= k < pre.phis@.len() && pre.phis@[k].var == v && !frag.phis@.contains(#[trigger] pre.phis@[k]),
        forall|k: int| 0 <= k < frag.phis@.len() ==> !r1.dom().contains(#[trigger] frag.phis@[k].var),
        vars_apart(frag.phis@),
    ensures
        tracking(f0, after, r1),
        from_phis(f0, after),
{
    let n = f0.blocks@.len();
    assert forall|t: int, k: int|
        0 <= t < after.len() && after[t] is Some && 0 <= k < after[t]->0.phis@.len() implies f0.blocks@[t]->0.phis@.contains(
            #[trigger] after[t]->0.phis@[k],
        ) by {
        if t == s {
            let q = choose|q: int| 0 <= q < pre.phis@.len() && pre.phis@[q] == frag.phis@[k];
            assert(f0.blocks@[s]->0.phis@.contains(before[s]->0.phis@[q]));
        } else {
            assert(after[t] == before[t]);
        }
    }
    assert forall|t: int| 0 <= t < after.len() implies (#[trigger] after[t] is Some <==> f0.blocks@[t] is Some) by {
        if t != s {
            assert(after[t] == before[t]);
        }
    }
    assert forall|t: int, k: int|
        0 <= t < n && #[trigger] after[t] is Some && 0 <= k < after[t]->0.phis@.len() implies !r1.dom().contains(
            #[trigger] after[t]->0.phis@[k].var,
        ) by {
        if t != s {
            assert(after[t] == before[t]);
            let x = before[t]->0.phis@[k];
            assert(!r0.dom().contains(x.var));
            if r1.dom().contains(x.var) {
                let q = choose|q: int| 0 <= q < pre.phis@.len() && pre.phis@[q].var == x.var && !frag.phis@.contains(#[trigger] pre.phis@[q]);
                assert(f0.blocks@[s]->0.phis@.contains(before[s]->0.phis@[q]));
                let a = choose|a: int| 0 <= a < f0.blocks@[s]->0.phis@.len() && f0.blocks@[s]->0.phis@[a] == pre.phis@[q];
                assert(f0.blocks@[t]->0.phis@.contains(before[t]->0.phis@[k]));
                let b = choose|b: int| 0 <= b < f0.blocks@[t]->0.phis@.len() && f0.blocks@[t]->0.phis@[b] == x;
                assert(f0.blocks@[s]->0.phis@[a].var == f0.blocks@[t]->0.phis@[b].var);
            }
        }
    }
    assert forall|t: int, k: int|
        0 <= t < n && #[trigger] f0.blocks@[t] is Some && 0 <= k < f0.blocks@[t]->0.phis@.len() implies after[t]->0.phis@.contains(
            #[trigger] f0.blocks@[t]->0.phis@[k],
        ) || copied(f0.blocks@[t]->0.phis@[k], r1) by {
        let p = f0.blocks@[t]->0.phis@[k];
        if copied(p, r0) {
            lemma_submap_at(r0, r1, p.var);
            let m0 = choose|m0: Map<Var, Var>| #[trigger] m0.submap_of(r0) && settles(m0) && lone(p, m0, r0[p.var]);
            assert forall|x: Var| #[trigger] m0.dom().contains(x) implies r1.dom().contains(x) && r1[x] == m0[x] by {
                lemma_submap_at(m0, r0, x);
                lemma_submap_at(r0, r1, x);
            }
            assert(m0.submap_of(r1));
        } else {
            assert(before[t]->0.phis@.contains(p));
            if t == s {
                assert(before[s]->0.phis@.contains(p));
                let q = choose|q: int| 0 <= q < pre.phis@.len() && pre.phis@[q] == p;
                assert(frag.phis@.contains(pre.phis@[q]) || copied(pre.phis@[q], r1));
                assert(after[s] == Some(frag));
            } else {
                assert(after[t] == before[t]);
            }
        }
    }
    assert forall|v: Var| #[trigger] r1.dom().contains(v) implies exists|t: int, k: int|
        0 <= t < n && f0.blocks@[t] is Some && 0 <= k < f0.blocks@[t]->0.phis@.len() && f0.blocks@[t]->0.phis@[k].var == v
            && !after[t]->0.phis@.contains(#[trigger] f0.blocks@[t]->0.phis@[k]) by {
        if r0.dom().contains(v) {
            let (t, k) = choose|t: int, k: int|
                0 <= t < n && f0.blocks@[t] is Some && 0 <= k < f0.blocks@[t]->0.phis@.len() && f0.blocks@[t]->0.phis@[k].var == v
                    && !before[t]->0.phis@.contains(#[trigger] f0.blocks@[t]->0.phis@[k]);
            if t == s {
                if after[t]->0.phis@.contains(f0.blocks@[t]->0.phis@[k]) {
                    let q = choose|q: int| 0 <= q < frag.phis@.len() && frag.phis@[q] == f0.blocks@[t]->0.phis@[k];
                    assert(pre.phis@.contains(frag.phis@[q]));
                }
            } else {
                assert(after[t] == before[t]);
            }
            assert(!after[t]->0.phis@.contains(#[trigger] f0.blocks@[t]->0.phis@[k]));
        } else {
            let q = choose|q: int| 0 <= q < pre.phis@.len() && pre.phis@[q].var == v && !frag.phis@.contains(#[trigger] pre.phis@[q]);
            assert(f0.blocks@[s]->0.phis@.contains(before[s]->0.phis@[q]));
            let a = choose|a: int| 0 <= a < f0.blocks@[s]->0.phis@.len() && f0.blocks@[s]->0.phis@[a] == pre.phis@[q];
            assert(!after[s]->0.phis@.contains(f0.blocks@[s]->0.phis@[a]));
        }
    }
    assert forall|t: int| 0 <= t < n && #[trigger] after[t] is Some implies vars_apart(after[t]->0.phis@) by {
        if t != s {
            assert(after[t] == before[t]);
        }
    }
}

/// What the tracking leaves, once the variables are renamed, is what
/// `dropped_exactly` says.
proof fn lemma_dropped(f0: Function, blocks: Seq<Option<Fragment>>, f2: Function, m: Map<Var, Var>)
    requires
        phis_apart(f0),
        tracking(f0, blocks, m),
        from_phis(f0, blocks),
        f2.blocks@.len() == blocks.len(),
        forall|t: int| 0 <= t < blocks.len() ==> (#[trigger] f2.blocks@[t] is Some <==> blocks[t] is Some),
        forall|t: int|
            0 <= t < blocks.len() && #[trigger] f2.blocks@[t] is Some ==> f2.blocks@[t]->0.phis@.len() == blocks[t]->0.phis@.len()
                && forall|k: int| 0 <= k < blocks[t]->0.phis@.len() ==> (#[trigger] f2.blocks@[t]->0.phis@[k]).var == blocks[t]->0.phis@[k].var,
    ensures
        dropped_exactly(f0, f2, m),
{
    let n = f0.blocks@.len();
    assert forall|s: int, k: int|
        0 <= s < n && f0.blocks@[s] is Some && 0 <= k < f0.blocks@[s]->0.phis@.len() implies (exists|k2: int|
            0 <= k2 < f2.blocks@[s]->0.phis@.len() && #[trigger] f2.blocks@[s]->0.phis@[k2].var == f0.blocks@[s]->0.phis@[k].var)
            || copied(#[trigger] f0.blocks@[s]->0.phis@[k], m) by {
        let p = f0.blocks@[s]->0.phis@[k];
        if !copied(p, m) {
            assert(blocks[s]->0.phis@.contains(p));
            let k2 = choose|k2: int| 0 <= k2 < blocks[s]->0.phis@.len() && blocks[s]->0.phis@[k2] == p;
            assert(f2.blocks@[s] is Some);
            assert(f2.blocks@[s]->0.phis@[k2].var == p.var);
        }
    }
    assert forall|v: Var| #[trigger] m.dom().contains(v) implies exists|s: int, k: int|
        0 <= s < n && f0.blocks@[s] is Some && 0 <= k < f0.blocks@[s]->0.phis@.len() && (#[trigger] f0.blocks@[s]->0.phis@[k]).var
            == v && forall|k2: int| 0 <= k2 < f2.blocks@[s]->0.phis@.len() ==> f2.blocks@[s]->0.phis@[k2].var != v by {
        let (s, k) = choose|s: int, k: int|
            0 <= s < n && f0.blocks@[s] is Some && 0 <= k < f0.blocks@[s]->0.phis@.len() && f0.blocks@[s]->0.phis@[k].var == v
                && !blocks[s]->0.phis@.contains(#[trigger] f0.blocks@[s]->0.phis@[k]);
        assert forall|k2: int| 0 <= k2 < f2.blocks@[s]->0.phis@.len() implies f2.blocks@[s]->0.phis@[k2].var != v by {
            let x = blocks[s]->0.phis@[k2];
            assert(f2.blocks@[s]->0.phis@[k2].var == x.var);
            assert(f0.blocks@[s]->0.phis@.contains(x));
            let b = choose|b: int| 0 <= b < f0.blocks@[s]->0.phis@.len() && f0.blocks@[s]->0.phis@[b] == x;
            if x.var == v {
                assert(f0.blocks@[s]->0.phis@[b].var == f0.blocks@[s]->0.phis@[k].var);
                assert(blocks[s]->0.phis@[k2] == f0.blocks@[s]->0.phis@[k]);
            }
        }
    }
}

/// Each phi of `a` either stays in `b`, under its variable, or was dropped
/// for what the substitution maps its variable to; the substitution maps
/// only the variables of phis dropped from `b`.
pub open spec fn dropped_exactly(a: Function, b: Function, m: Map<Var, Var>) -> bool {
    &&& forall|s: int, k: int|
        0 <= s < a.blocks@.len() && a.blocks@[s] is Some && 0 <= k < a.blocks@[s]->0.phis@.len() ==> (exists|k2: int|
            0 <= k2 < b.blocks@[s]->0.phis@.len() && #[trigger] b.blocks@[s]->0.phis@[k2].var == a.blocks@[s]->0.phis@[k].var)
            || copied(#[trigger] a.blocks@[s]->0.phis@[k], m)
    &&& forall|v: Var| #[trigger] m.dom().contains(v) ==> exists|s: int, k: int|
        0 <= s < a.blocks@.len() && a.blocks@[s] is Some && 0 <= k < a.blocks@[s]->0.phis@.len() && (#[trigger] a.blocks@[s]->0.phis@[k]).var
            == v && forall|k2: int| 0 <= k2 < b.blocks@[s]->0.phis@.len() ==> b.blocks@[s]->0.phis@[k2].var != v
}

/// `q` is one of the phis of `a` that does not only copy another
/// variable, with its inputs renamed.
pub open spec fn comes_from(a: Seq<Phi>, q: Phi, m: Map<Var, Var>) -> bool {
    exists|i: int|
        0 <= i < a.len() && (#[trigger] a[i]).var == q.var && renamed_inputs(a[i].inputs@, q.inputs@, m)
            && !trivial(a[i], m)
}

/// What `rename` leaves of the fragment `a` under the substitution `m`:
/// the phis that do not only copy another variable, everything else, with
/// every variable read replaced.
pub open spec fn renamed_in(a: Fragment, b: Fragment, m: Map<Var, Var>) -> bool {
    &&& b.predecessors == a.predecessors
    &&& b.phis@.len() <= a.phis@.len()
    &&& forall|k: int| 0 <= k < b.phis@.len() ==> comes_from(a.phis@, #[trigger] b.phis@[k], m)
    &&& b.instructions@.len() == a.instructions@.len()
    &&& forall|k: int|
        0 <= k < a.instructions@.len() ==> renamed_ins(
            #[trigger] a.instructions@[k],
            b.instructions@[k],
            m,
        )
    &&& b.terminator == Some(renamed_term(a.terminator->0, m))
}


proof fn lemma_renamed_in(a: Fragment, b: Fragment, c: Fragment, m: Map<Var, Var>)
    requires
        a.terminator is Some,
        b.predecessors == a.predecessors,
        b.instructions == a.instructions,
        b.terminator == a.terminator,
        b.phis@.len() <= a.phis@.len(),
        forall|k: int| 0 <= k < b.phis@.len() ==> a.phis@.contains(#[trigger] b.phis@[k]),
        forall|k: int| 0 <= k < b.phis@.len() ==> !trivial(#[trigger] b.phis@[k], m),
        renamed_fragment(b, c, m),
    ensures
        renamed_in(a, c, m),
{
    assert forall|k: int| 0 <= k < c.phis@.len() implies comes_from(a.phis@, #[trigger] c.phis@[k], m) by {
        assert(a.phis@.contains(b.phis@[k]));
        let i = choose|i: int| 0 <= i < a.phis@.len() && a.phis@[i] == b.phis@[k];
        assert(!trivial(b.phis@[k], m));
        assert(a.phis@[i].var == c.phis@[k].var && renamed_inputs(a.phis@[i].inputs@, c.phis@[k].inputs@, m)
            && !trivial(a.phis@[i], m));
    }
}

impl Function {
    /// Removes the phis that only copy another variable, until none is
    /// left, and replaces every use of their variables by the one they
    /// copy. Tells whether any phi was removed.
    pub fn rename(&mut self) -> (changed: bool)
        requires
            old(self).wf(),
        ensures
            final(self).wf(),
            final(self).vars == old(self).vars,
            final(self).args == old(self).args,
            final(self).blocks@.len() == old(self).blocks@.len(),
            forall|s: int|
                0 <= s < old(self).blocks@.len() ==> (#[trigger] final(self).blocks@[s] is Some
                    <==> old(self).blocks@[s] is Some),
            exists|m: Map<Var, Var>|
                {
                    &&& settles(m)
                    &&& changed == !m.dom().is_empty()
                    &&& forall|s: int|
                        0 <= s < old(self).blocks@.len() && #[trigger] final(self).blocks@[s] is Some
                            ==> renamed_in(old(self).blocks@[s]->0, final(self).blocks@[s]->0, m)
                    &&& phis_apart(*old(self)) ==> dropped_exactly(*old(self), *final(self), m)
                },
    {
        let ghost f0 = *self;
        let n = self.blocks.len();
        let bound = self.vars;
        let mut r = Renamer::new();
        proof {
            lemma_settles_empty();
        }
        let mut again = true;
        while again
            invariant
                f0 == *old(self),
                f0.wf(),
                n == f0.blocks@.len(),
                bound == f0.vars,
                self.vars == f0.vars,
                self.args == f0.args,
                self.blocks@.len() == n,
                settles(r@),
                maps_below(r@, bound as int),
                forall|t: int| 0 <= t < n ==> (#[trigger] self.blocks@[t] is Some <==> f0.blocks@[t] is Some),
                forall|t: int|
                    0 <= t < n && #[trigger] self.blocks@[t] is Some ==> {
                        let a = f0.blocks@[t]->0;
                        let b = self.blocks@[t]->0;
                        &&& b.predecessors == a.predecessors
                        &&& b.instructions == a.instructions
                        &&& b.terminator == a.terminator
                        &&& b.phis@.len() <= a.phis@.len()
                        &&& forall|k: int| 0 <= k < b.phis@.len() ==> a.phis@.contains(#[trigger] b.phis@[k])
                    },
                phis_apart(f0) ==> tracking(f0, self.blocks@, r@),
                !again ==> forall|t: int, k: int|
                    0 <= t < n && #[trigger] self.blocks@[t] is Some && 0 <= k < self.blocks@[t]->0.phis@.len()
                        ==> !trivial(#[trigger] self.blocks@[t]->0.phis@[k], r@),
            decreases phis_in(self.blocks@) + (if again { 1int } else { 0int }),
        {
            again = false;
            let ghost count0 = phis_in(self.blocks@);
            let ghost r0 = r@;
            let mut s: usize = 0;
            while s < n
                invariant
                    f0 == *old(self),
                    f0.wf(),
                    n == f0.blocks@.len(),
                    bound == f0.vars,
                    s <= n,
                    self.vars == f0.vars,
                    self.args == f0.args,
                    self.blocks@.len() == n,
                    settles(r@),
                    maps_below(r@, bound as int),
                    forall|t: int| 0 <= t < n ==> (#[trigger] self.blocks@[t] is Some <==> f0.blocks@[t] is Some),
                    forall|t: int|
                        0 <= t < n && #[trigger] self.blocks@[t] is Some ==> {
                            let a = f0.blocks@[t]->0;
                            let b = self.blocks@[t]->0;
                            &&& b.predecessors == a.predecessors
                            &&& b.instructions == a.instructions
                            &&& b.terminator == a.terminator
                            &&& b.phis@.len() <= a.phis@.len()
                            &&& forall|k: int| 0 <= k < b.phis@.len() ==> a.phis@.contains(#[trigger] b.phis@[k])
                        },
                    phis_apart(f0) ==> tracking(f0, self.blocks@, r@),
                    phis_in(self.blocks@) <= count0,
                    again ==> phis_in(self.blocks@) < count0,
                    !again ==> r@ == r0 && forall|t: int, k: int|
                        0 <= t < s && #[trigger] self.blocks@[t] is Some && 0 <= k < self.blocks@[t]->0.phis@.len()
                            ==> !trivial(#[trigger] self.blocks@[t]->0.phis@[k], r@),
                decreases n - s,
            {
                let ghost before = self.blocks@;
                let mut slot_frag: Option<Fragment> = None;
                std::mem::swap(&mut slot_frag, &mut self.blocks[s]);
                proof {
                    lemma_phis_update(before, s as int, None);
                }
                if let Some(mut frag) = slot_frag {
                    let ghost a = f0.blocks@[s as int]->0;
                    let ghost pre = frag;
                    proof {
                        assert(f0.frag_ok(a));
                        assert forall|k: int, j: int|
                            0 <= k < pre.phis@.len() && 0 <= j < pre.phis@[k].inputs@.len() implies (
                            #[trigger] pre.phis@[k].inputs@[j]).1 < bound by {
                            assert(a.phis@.contains(pre.phis@[k]));
                            let i = choose|i: int| 0 <= i < a.phis@.len() && a.phis@[i] == pre.phis@[k];
                            assert(a.phis@[i].inputs@[j].1 < f0.vars);
                        }
                    }
                    let ghost r_old = r@;
                    proof {
                        if phis_apart(f0) {
                            assert(before[s as int] == Some(pre));
                            assert(vars_apart(pre.phis@));
                            assert forall|k: int| 0 <= k < pre.phis@.len() implies !r@.dom().contains(#[trigger] pre.phis@[k].var) by {
                                assert(before[s as int]->0.phis@[k] == pre.phis@[k]);
                            }
                        }
                    }
                    let removed = frag.simplify(&mut r, bound);
                    proof {
                        assert forall|k: int| 0 <= k < frag.phis@.len() implies a.phis@.contains(#[trigger] frag.phis@[k]) by {
                            assert(pre.phis@.contains(frag.phis@[k]));
                            let i = choose|i: int| 0 <= i < pre.phis@.len() && pre.phis@[i] == frag.phis@[k];
                            assert(a.phis@.contains(pre.phis@[i]));
                        }
                    }
                    self.blocks[s] = Some(frag);
                    proof {
                        lemma_phis_update(before.update(s as int, None), s as int, Some(frag));
                        assert(before.update(s as int, None).update(s as int, Some(frag)) =~= self.blocks@);
                        if phis_apart(f0) {
                            assert(self.blocks@ =~= before.update(s as int, Some(frag)));
                            assert(from_phis(f0, before)) by {
                                assert forall|t: int, k: int|
                                    0 <= t < before.len() && before[t] is Some && 0 <= k < before[t]->0.phis@.len() implies f0.blocks@[t]->0.phis@.contains(
                                    #[trigger] before[t]->0.phis@[k]) by {
                                    if t == s {
                                        assert(pre.phis@.contains(pre.phis@[k]));
                                    }
                                }
                            }
                            lemma_simplify_keeps(f0, before, self.blocks@, s as int, pre, frag, r_old, r@);
                        }
                    }
                    if removed {
                        again = true;
                    }
                } else {
                    proof {
                        assert(before.update(s as int, None) =~= before);
                    }
                }
                s = s + 1;
            }
        }
        let changed = !r.is_empty();
        let ghost f1 = *self;
        if changed {
            let mut s: usize = 0;
            while s < n
                invariant
                    n == f1.blocks@.len(),
                    s <= n,
                    self.vars == f1.vars,
                    self.args == f1.args,
                    self.blocks@.len() == n,
                    settles(r@),
                    forall|t: int| 0 <= t < n ==> (#[trigger] self.blocks@[t] is Some <==> f1.blocks@[t] is Some),
                    forall|t: int|
                        0 <= t < n && #[trigger] self.blocks@[t] is Some ==> if t < s {
                            renamed_fragment(f1.blocks@[t]->0, self.blocks@[t]->0, r@)
                        } else {
                            self.blocks@[t] == f1.blocks@[t]
                        },
                decreases n - s,
            {
                let mut slot_frag: Option<Fragment> = None;
                std::mem::swap(&mut slot_frag, &mut self.blocks[s]);
                if let Some(mut frag) = slot_frag {
                    frag.rename(&r);
                    self.blocks[s] = Some(frag);
                }
                s = s + 1;
            }
        }
        proof {
            let m = r@;
            let f2 = *self;
            assert forall|t: int| 0 <= t < n && #[trigger] f2.blocks@[t] is Some implies renamed_in(
                f0.blocks@[t]->0,
                f2.blocks@[t]->0,
                m,
            ) && f2.frag_ok(f2.blocks@[t]->0) by {
                let a = f0.blocks@[t]->0;
                let b = f1.blocks@[t]->0;
                let c = f2.blocks@[t]->0;
                assert(f0.frag_ok(a));
                if !changed {
                    assert(m.dom() =~= Set::<Var>::empty());
                    assert forall|u: Var| #[trigger] resolve(m, u) == u by {
                        assert(ends(m, u, resolve(m, u)));
                        assert(step(m, u, 0) == u);
                        assert(ends(m, u, u));
                        let n1 = choose|n1: nat| #[trigger] step(m, u, n1) == resolve(m, u) && !m.dom().contains(resolve(m, u));
                    }
                    assert(c == b);
                }
                assert(renamed_fragment(b, c, m)) by {
                    if !changed {
                        assert forall|k: int| 0 <= k < b.phis@.len() implies (#[trigger] c.phis@[k]).var == b.phis@[k].var && renamed_inputs(
                            b.phis@[k].inputs@,
                            c.phis@[k].inputs@,
                            m,
                        ) by {}
                        assert forall|k: int| 0 <= k < b.instructions@.len() implies renamed_ins(
                            #[trigger] b.instructions@[k],
                            c.instructions@[k],
                            m,
                        ) by {
                            let x = b.instructions@[k];
                            match x {
                                Instruction::Load(_, cst) => {},
                                _ => {},
                            }
                        }
                        match b.terminator->0 {
                            Terminator::Jump(_) => {},
                            _ => {},
                        }
                    }
                }
                lemma_renamed_in(a, b, c, m);
                assert forall|k: int| 0 <= k < c.phis@.len() implies {
                    &&& (#[trigger] c.phis@[k]).var < f2.vars
                    &&& forall|j: int| 0 <= j < c.phis@[k].inputs@.len() ==> (#[trigger] c.phis@[k].inputs@[j]).1 < f2.vars
                } by {
                    assert(a.phis@.contains(b.phis@[k]));
                    let i = choose|i: int| 0 <= i < a.phis@.len() && a.phis@[i] == b.phis@[k];
                    assert forall|j: int| 0 <= j < c.phis@[k].inputs@.len() implies (#[trigger] c.phis@[k].inputs@[j]).1 < f2.vars by {
                        assert(a.phis@[i].inputs@[j].1 < f0.vars);
                        lemma_resolve_bound(m, a.phis@[i].inputs@[j].1, f0.vars as int);
                    }
                }
                assert forall|k: int| 0 <= k < c.instructions@.len() implies {
                    &&& (#[trigger] c.instructions@[k]).def() < f2.vars
                    &&& forall|j: int| 0 <= j < c.instructions@[k].reads().len() ==> #[trigger] c.instructions@[k].reads()[j] < f2.vars
                } by {
                    assert(renamed_ins(b.instructions@[k], c.instructions@[k], m));
                    assert forall|j: int| 0 <= j < c.instructions@[k].reads().len() implies #[trigger] c.instructions@[k].reads()[j] < f2.vars by {
                        assert(a.instructions@[k].reads()[j] < f0.vars);
                        lemma_resolve_bound(m, a.instructions@[k].reads()[j], f0.vars as int);
                    }
                }
                let tt = c.terminator->0;
                assert forall|k: int| 0 <= k < tt.reads().len() implies #[trigger] tt.reads()[k] < f2.vars by {
                    assert(a.terminator->0.reads()[k] < f0.vars);
                    lemma_resolve_bound(m, a.terminator->0.reads()[k], f0.vars as int);
                }
                assert forall|k: int| 0 <= k < tt.targets().len() implies f2.has(#[trigger] tt.targets()[k]) by {
                    let l = tt.targets()[k];
                    assert(f0.has(a.terminator->0.targets()[k]));
                    let q = slot_of(l);
                    assert(f2.blocks@[q] is Some <==> f0.blocks@[q] is Some);
                }
                assert forall|k: int| 0 <= k < c.predecessors@.len() implies f2.has(#[trigger] c.predecessors@[k]) by {
                    let l = c.predecessors@[k];
                    assert(f0.has(a.predecessors@[k]));
                    let q = slot_of(l);
                    assert(f2.blocks@[q] is Some <==> f0.blocks@[q] is Some);
                }
            }
            assert(f2.blocks@[0] is Some);
            assert(f2.blocks@[1] is Some);
            assert(changed == !m.dom().is_empty());
            if phis_apart(f0) {
                assert(from_phis(f0, f1.blocks@));
                assert forall|t: int| 0 <= t < n && #[trigger] f2.blocks@[t] is Some implies f2.blocks@[t]->0.phis@.len() == f1.blocks@[t]->0.phis@.len()
                    && forall|k: int| 0 <= k < f1.blocks@[t]->0.phis@.len() ==> (#[trigger] f2.blocks@[t]->0.phis@[k]).var == f1.blocks@[t]->0.phis@[k].var by {
                    if changed {
                        assert(renamed_fragment(f1.blocks@[t]->0, f2.blocks@[t]->0, m));
                    }
                }
                lemma_dropped(f0, f1.blocks@, f2, m);
            }
        }
        changed
    }
}

} // verus!
