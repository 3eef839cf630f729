use vstd::prelude::*;
use crate::analyze::{falses, lemma_falses_set, Id};
use crate::ir::{Fragment, Function, Instruction, Label, Phi, Var};
use crate::rewrite::{lemma_filter_step, lemma_filter_sub};
use crate::ir::Terminator;

verus! {

/// The variable a statement defines and the variables it reads: a phi
/// reads its inputs, an instruction its operands.
pub open spec fn def_at(f: Function, s: int, id: Id) -> Option<(Var, Seq<Var>)> {
    if 0 <= s < f.blocks@.len() && f.blocks@[s] is Some {
        let x = f.blocks@[s]->0;
        match id {
            Id::Phi(i) => if i < x.phis@.len() {
                Some((x.phis@[i as int].var, x.phis@[i as int].inputs@.map_values(|p: (Label, Var)| p.1)))
            } else {
                None
            },
            Id::Ins(i) => if i < x.instructions@.len() {
                Some((x.instructions@[i as int].def(), x.instructions@[i as int].reads()))
            } else {
                None
            },
            Id::Term => None,
        }
    } else {
        None
    }
}

/// The variable a statement defines.
pub open spec fn def_var(o: Option<(Var, Seq<Var>)>) -> Var {
    match o {
        Some(d) => d.0,
        None => 0,
    }
}

/// The variables a statement reads.
pub open spec fn def_reads(o: Option<(Var, Seq<Var>)>) -> Seq<Var> {
    match o {
        Some(d) => d.1,
        None => Seq::empty(),
    }
}

/// A definition of `v` reads `u`.
pub open spec fn feeds(f: Function, v: Var, u: Var) -> bool {
    exists|s: int, id: Id|
        #[trigger] def_at(f, s, id) is Some && def_var(def_at(f, s, id)) == v && def_reads(def_at(f, s, id)).contains(u)
}

/// The fragment at slot `s` needs `v` whatever else is removed: its
/// terminator or one of its calls reads it.
pub open spec fn needs(f: Function, s: int, v: Var) -> bool {
    &&& 0 <= s < f.blocks@.len()
    &&& f.blocks@[s] is Some
    &&& {
        let x = f.blocks@[s]->0;
        ||| x.terminator matches Some(t) && t.reads().contains(v)
        ||| exists|i: int|
            0 <= i < x.instructions@.len() && !x.instructions@[i].is_functional()
                && (#[trigger] x.instructions@[i]).reads().contains(v)
    }
}

/// Whether `s` holds every variable some fragment needs, and everything
/// the definitions of its variables read.
pub open spec fn closed(f: Function, s: Set<Var>) -> bool {
    &&& forall|t: int, v: Var| #[trigger] needs(f, t, v) ==> s.contains(v)
    &&& forall|v: Var, u: Var| s.contains(v) && #[trigger] feeds(f, v, u) ==> s.contains(u)
}

/// Every closed set holds `u`.
pub open spec fn forced(f: Function, u: Var) -> bool {
    forall|s: Set<Var>| #[trigger] closed(f, s) ==> s.contains(u)
}

/// `live` is the least closed set: the variables the function needs.
pub open spec fn is_live(f: Function, live: Set<Var>) -> bool {
    &&& closed(f, live)
    &&& forall|s: Set<Var>| #[trigger] closed(f, s) ==> live.subset_of(s)
}

/// Phis whose variable is live.
pub open spec fn live_phi(live: Set<Var>) -> spec_fn(Phi) -> bool {
    |p: Phi| live.contains(p.var)
}

/// Calls, and instructions whose result is live.
pub open spec fn live_ins(live: Set<Var>) -> spec_fn(Instruction) -> bool {
    |i: Instruction| !i.is_functional() || live.contains(i.def())
}

/// `b` is `a` without its dead phis and instructions.
pub open spec fn swept(a: Fragment, b: Fragment, live: Set<Var>) -> bool {
    &&& b.phis@ == a.phis@.filter(live_phi(live))
    &&& b.instructions@ == a.instructions@.filter(live_ins(live))
    &&& b.predecessors == a.predecessors
    &&& b.terminator == a.terminator
}

proof fn lemma_forced_feeds(f: Function, v: Var, u: Var)
    requires
        forced(f, v),
        feeds(f, v, u),
    ensures
        forced(f, u),
{
    assert forall|s: Set<Var>| #[trigger] closed(f, s) implies s.contains(u) by {
        assert(s.contains(v));
    }
}

proof fn lemma_forced_needs(f: Function, t: int, u: Var)
    requires
        needs(f, t, u),
    ensures
        forced(f, u),
{
    assert forall|s: Set<Var>| #[trigger] closed(f, s) implies s.contains(u) by {
        assert(needs(f, t, u));
    }
}

/// The marking state: which variables are known live, and those whose
/// definitions are still to be visited.
pub open spec fn marks_ok(f: Function, active: Seq<bool>, work: Seq<Var>) -> bool {
    &&& active.len() == f.vars
    &&& forall|v: int| 0 <= v < active.len() && #[trigger] active[v] ==> forced(f, v as Var)
    &&& forall|k: int| 0 <= k < work.len() ==> #[trigger] work[k] < f.vars && active[work[k] as int]
}

/// Marks `u` live and queues it when it was not marked yet.
fn activate(f: &Function, active: &mut Vec<bool>, work: &mut Vec<Var>, u: Var)
    requires
        marks_ok(*f, old(active)@, old(work)@),
        u < f.vars,
        forced(*f, u),
    ensures
        marks_ok(*f, final(active)@, final(work)@),
        final(active)@ == old(active)@.update(u as int, true),
        if old(active)@[u as int] {
            final(work)@ == old(work)@ && final(active)@ == old(active)@
        } else {
            final(work)@ == old(work)@.push(u) && falses(final(active)@) + 1 == falses(old(active)@)
        },
{
    if !active[u] {
        proof {
            lemma_falses_set(active@, u as int);
        }
        active.set(u, true);
        work.push(u);
    } else {
        assert(active@.update(u as int, true) =~= active@);
    }
}

/// For each variable, the statements that define it.
pub open spec fn defs_ok(f: Function, defs: Seq<Vec<(usize, Id)>>) -> bool {
    &&& defs.len() == f.vars
    &&& forall|s: int, id: Id|
        #[trigger] def_at(f, s, id) is Some ==> defs[def_var(def_at(f, s, id)) as int]@.contains((s as usize, id))
}

fn add_def(defs: &mut Vec<Vec<(usize, Id)>>, v: Var, e: (usize, Id))
    requires
        v < old(defs)@.len(),
    ensures
        final(defs)@.len() == old(defs)@.len(),
        forall|x: int| 0 <= x < old(defs)@.len() && x != v ==> #[trigger] final(defs)@[x] == old(defs)@[x],
        final(defs)@[v as int]@ == old(defs)@[v as int]@.push(e),
{
    let mut inner: Vec<(usize, Id)> = Vec::new();
    defs.set_and_swap(v, &mut inner);
    inner.push(e);
    defs.set_and_swap(v, &mut inner);
}


/// Every definition of `f` in the slots before `s`, and in slot `s` the
/// phis before `pi` and the instructions before `ii`, is listed.
pub open spec fn defs_upto(f: Function, defs: Seq<Vec<(usize, Id)>>, s: int, pi: int, ii: int) -> bool {
    forall|t: int, id: Id|
        #[trigger] def_at(f, t, id) is Some && (t < s || (t == s && match id {
            Id::Phi(i) => i < pi,
            Id::Ins(i) => i < ii,
            Id::Term => false,
        })) ==> defs[def_var(def_at(f, t, id)) as int]@.contains((t as usize, id))
}

proof fn lemma_defs_push(
    f: Function,
    a: Seq<Vec<(usize, Id)>>,
    b: Seq<Vec<(usize, Id)>>,
    v: Var,
    e: (usize, Id),
    s: int,
    pi: int,
    ii: int,
)
    requires
        v < a.len(),
        b.len() == a.len(),
        forall|x: int| 0 <= x < a.len() && x != v ==> #[trigger] b[x] == a[x],
        b[v as int]@ == a[v as int]@.push(e),
        forall|t: int, id: Id| #[trigger] def_at(f, t, id) is Some ==> def_var(def_at(f, t, id)) < a.len(),
        defs_upto(f, a, s, pi, ii),
    ensures
        defs_upto(f, b, s, pi, ii),
{
    assert forall|t: int, id: Id|
        #[trigger] def_at(f, t, id) is Some && (t < s || (t == s && match id {
            Id::Phi(i) => i < pi,
            Id::Ins(i) => i < ii,
            Id::Term => false,
        })) implies b[def_var(def_at(f, t, id)) as int]@.contains((t as usize, id)) by {
        let w = def_var(def_at(f, t, id));
        assert(a[w as int]@.contains((t as usize, id)));
        if w == v {
            let k = choose|k: int| 0 <= k < a[w as int]@.len() && a[w as int]@[k] == (t as usize, id);
            assert(b[w as int]@[k] == (t as usize, id));
        }
    }
}

/// Whether every definition listed for `v` that does define `v` has all it
/// reads marked.
pub open spec fn visited(f: Function, defs: Seq<Vec<(usize, Id)>>, active: Seq<bool>, v: int) -> bool {
    forall|j: int|
        0 <= j < defs[v]@.len() ==> {
            let o = #[trigger] def_at(f, defs[v]@[j].0 as int, defs[v]@[j].1);
            o is Some && def_var(o) == v ==> forall|k: int| 0 <= k < def_reads(o).len() ==> active[def_reads(o)[k] as int]
        }
}

impl Function {
    /// For each variable, the statements that define it.
    fn definitions(&self) -> (defs: Vec<Vec<(usize, Id)>>)
        requires
            self.wf(),
        ensures
            defs_ok(*self, defs@),
    {
        let mut defs: Vec<Vec<(usize, Id)>> = Vec::new();
        let mut v: usize = 0;
        while v < self.vars
            invariant
                v <= self.vars,
                defs@.len() == v,
            decreases self.vars - v,
        {
            defs.push(Vec::new());
            v = v + 1;
        }
        proof {
            assert forall|t: int, id: Id| #[trigger] def_at(*self, t, id) is Some implies def_var(def_at(*self, t, id)) < defs@.len() by {
                assert(self.frag_ok(self.blocks@[t]->0));
            }
        }
        let n = self.blocks.len();
        let mut s: usize = 0;
        while s < n
            invariant
                self.wf(),
                n == self.blocks@.len(),
                s <= n,
                defs@.len() == self.vars,
                forall|t: int, id: Id| #[trigger] def_at(*self, t, id) is Some ==> def_var(def_at(*self, t, id)) < defs@.len(),
                defs_upto(*self, defs@, s as int, 0, 0),
            decreases n - s,
        {
            if let Some(x) = &self.blocks[s] {
                assert(self.frag_ok(*x));
                let mut i: usize = 0;
                while i < x.phis.len()
                    invariant
                        self.wf(),
                        n == self.blocks@.len(),
                        s < n,
                        self.blocks@[s as int] == Some(*x),
                        i <= x.phis@.len(),
                        defs@.len() == self.vars,
                        forall|t: int, id: Id| #[trigger] def_at(*self, t, id) is Some ==> def_var(def_at(*self, t, id)) < defs@.len(),
                        defs_upto(*self, defs@, s as int, i as int, 0),
                    decreases x.phis@.len() - i,
                {
                    let ghost a = defs@;
                    let v = x.phis[i].var;
                    assert(def_at(*self, s as int, Id::Phi(i)) is Some && def_var(def_at(*self, s as int, Id::Phi(i))) == v);
                    add_def(&mut defs, v, (s, Id::Phi(i)));
                    proof {
                        lemma_defs_push(*self, a, defs@, v, (s, Id::Phi(i)), s as int, i as int, 0);
                        assert forall|t: int, id: Id|
                            #[trigger] def_at(*self, t, id) is Some && (t < s || (t == s && match id {
                                Id::Phi(q) => q < i + 1,
                                Id::Ins(q) => q < 0,
                                Id::Term => false,
                            })) implies defs@[def_var(def_at(*self, t, id)) as int]@.contains((t as usize, id)) by {
                            if t == s && id == Id::Phi(i) {
                                assert(defs@[v as int]@[a[v as int]@.len() as int] == (s, Id::Phi(i)));
                            }
                        }
                    }
                    i = i + 1;
                }
                let mut i: usize = 0;
                while i < x.instructions.len()
                    invariant
                        self.wf(),
                        n == self.blocks@.len(),
                        s < n,
                        self.blocks@[s as int] == Some(*x),
                        i <= x.instructions@.len(),
                        defs@.len() == self.vars,
                        forall|t: int, id: Id| #[trigger] def_at(*self, t, id) is Some ==> def_var(def_at(*self, t, id)) < defs@.len(),
                        defs_upto(*self, defs@, s as int, x.phis@.len() as int, i as int),
                    decreases x.instructions@.len() - i,
                {
                    let ghost a = defs@;
                    let v = x.instructions[i].dst();
                    assert(def_at(*self, s as int, Id::Ins(i)) is Some && def_var(def_at(*self, s as int, Id::Ins(i))) == v);
                    add_def(&mut defs, v, (s, Id::Ins(i)));
                    proof {
                        lemma_defs_push(*self, a, defs@, v, (s, Id::Ins(i)), s as int, x.phis@.len() as int, i as int);
                        assert forall|t: int, id: Id|
                            #[trigger] def_at(*self, t, id) is Some && (t < s || (t == s && match id {
                                Id::Phi(q) => q < x.phis@.len(),
                                Id::Ins(q) => q < i + 1,
                                Id::Term => false,
                            })) implies defs@[def_var(def_at(*self, t, id)) as int]@.contains((t as usize, id)) by {
                            if t == s && id == Id::Ins(i) {
                                assert(defs@[v as int]@[a[v as int]@.len() as int] == (s, Id::Ins(i)));
                            }
                        }
                    }
                    i = i + 1;
                }
                proof {
                    assert forall|t: int, id: Id|
                        #[trigger] def_at(*self, t, id) is Some && (t < s + 1 || (t == s + 1 && match id {
                            Id::Phi(q) => q < 0,
                            Id::Ins(q) => q < 0,
                            Id::Term => false,
                        })) implies defs@[def_var(def_at(*self, t, id)) as int]@.contains((t as usize, id)) by {
                        if t == s {
                            match id {
                                Id::Phi(q) => assert(q < x.phis@.len()),
                                Id::Ins(q) => assert(q < x.instructions@.len()),
                                Id::Term => {},
                            }
                        }
                    }
                }
            } else {
                proof {
                    assert forall|t: int, id: Id|
                        #[trigger] def_at(*self, t, id) is Some && (t < s + 1 || (t == s + 1 && match id {
                            Id::Phi(q) => q < 0,
                            Id::Ins(q) => q < 0,
                            Id::Term => false,
                        })) implies defs@[def_var(def_at(*self, t, id)) as int]@.contains((t as usize, id)) by {
                    }
                }
            }
            s = s + 1;
        }
        proof {
            assert forall|t: int, id: Id| #[trigger] def_at(*self, t, id) is Some implies defs@[def_var(def_at(*self, t, id)) as int]@.contains(
                (t as usize, id),
            ) by {
                assert(t < n);
            }
        }
        defs
    }
}


/// Marks every variable of `vs` live; each must be forced.
fn activate_all(f: &Function, active: &mut Vec<bool>, work: &mut Vec<Var>, vs: &Vec<Var>)
    requires
        marks_ok(*f, old(active)@, old(work)@),
        forall|k: int| 0 <= k < vs@.len() ==> #[trigger] vs@[k] < f.vars && forced(*f, vs@[k]),
    ensures
        marks_ok(*f, final(active)@, final(work)@),
        forall|k: int| 0 <= k < vs@.len() ==> final(active)@[#[trigger] vs@[k] as int],
        forall|v: int| 0 <= v < old(active)@.len() && old(active)@[v] ==> #[trigger] final(active)@[v],
        falses(final(active)@) <= falses(old(active)@),
        falses(final(active)@) == falses(old(active)@) ==> final(work)@ == old(work)@,
        final(work)@.len() >= old(work)@.len(),
        forall|i: int| 0 <= i < old(work)@.len() ==> #[trigger] final(work)@[i] == old(work)@[i],
        forall|i: int| old(work)@.len() <= i < final(work)@.len() ==> !old(active)@[#[trigger] final(work)@[i] as int],
        forall|x: int| 0 <= x < final(active)@.len() && #[trigger] final(active)@[x] && !old(active)@[x] ==> final(work)@.contains(x as Var),
{
    let mut k: usize = 0;
    while k < vs.len()
        invariant
            k <= vs@.len(),
            marks_ok(*f, active@, work@),
            forall|i: int| 0 <= i < vs@.len() ==> #[trigger] vs@[i] < f.vars && forced(*f, vs@[i]),
            forall|i: int| 0 <= i < k ==> active@[#[trigger] vs@[i] as int],
            active@.len() == old(active)@.len(),
            forall|v: int| 0 <= v < old(active)@.len() && old(active)@[v] ==> #[trigger] active@[v],
            falses(active@) <= falses(old(active)@),
            falses(active@) == falses(old(active)@) ==> work@ == old(work)@,
            work@.len() >= old(work)@.len(),
            forall|i: int| 0 <= i < old(work)@.len() ==> #[trigger] work@[i] == old(work)@[i],
            forall|i: int| old(work)@.len() <= i < work@.len() ==> !old(active)@[#[trigger] work@[i] as int],
            forall|x: int| 0 <= x < active@.len() && #[trigger] active@[x] && !old(active)@[x] ==> work@.contains(x as Var),
        decreases vs@.len() - k,
    {
        let ghost a1 = active@;
        let ghost w1 = work@;
        activate(f, active, work, vs[k]);
        proof {
            assert forall|x: int| 0 <= x < active@.len() && #[trigger] active@[x] && !old(active)@[x] implies work@.contains(x as Var) by {
                if x == vs@[k as int] && !a1[x] {
                    assert(work@[w1.len() as int] == x as Var);
                } else {
                    assert(a1[x]);
                    let i = choose|i: int| 0 <= i < w1.len() && w1[i] == x as Var;
                    assert(work@[i] == w1[i]);
                }
            }
        }
        k = k + 1;
    }
}

fn sweep_phis(phis: &mut Vec<Phi>, active: &Vec<bool>, Ghost(live): Ghost<Set<Var>>)
    requires
        forall|k: int| 0 <= k < old(phis)@.len() ==> (#[trigger] old(phis)@[k]).var < active@.len(),
        forall|v: Var| v < active@.len() ==> (live.contains(v) == active@[v as int]),
    ensures
        final(phis)@ == old(phis)@.filter(live_phi(live)),
{
    let mut rest: Vec<Phi> = Vec::new();
    std::mem::swap(&mut rest, phis);
    let ghost orig = rest@;
    let ghost mut i: int = 0;
    while rest.len() > 0
        invariant
            orig == old(phis)@,
            0 <= i <= orig.len(),
            rest@ == orig.skip(i),
            phis@ == orig.take(i).filter(live_phi(live)),
            forall|k: int| 0 <= k < orig.len() ==> (#[trigger] orig[k]).var < active@.len(),
            forall|v: Var| v < active@.len() ==> (live.contains(v) == active@[v as int]),
        decreases rest@.len(),
    {
        proof {
            lemma_filter_step(orig, i, live_phi(live));
        }
        let p = rest.remove(0);
        assert(p == orig[i]);
        if active[p.var] {
            phis.push(p);
        }
        proof {
            i = i + 1;
            assert(rest@ =~= orig.skip(i));
        }
    }
    assert(orig.take(i) =~= orig);
}

fn sweep_instructions(ins: &mut Vec<Instruction>, active: &Vec<bool>, Ghost(live): Ghost<Set<Var>>)
    requires
        forall|k: int| 0 <= k < old(ins)@.len() ==> (#[trigger] old(ins)@[k]).def() < active@.len(),
        forall|v: Var| v < active@.len() ==> (live.contains(v) == active@[v as int]),
    ensures
        final(ins)@ == old(ins)@.filter(live_ins(live)),
{
    let mut rest: Vec<Instruction> = Vec::new();
    std::mem::swap(&mut rest, ins);
    let ghost orig = rest@;
    let ghost mut i: int = 0;
    while rest.len() > 0
        invariant
            orig == old(ins)@,
            0 <= i <= orig.len(),
            rest@ == orig.skip(i),
            ins@ == orig.take(i).filter(live_ins(live)),
            forall|k: int| 0 <= k < orig.len() ==> (#[trigger] orig[k]).def() < active@.len(),
            forall|v: Var| v < active@.len() ==> (live.contains(v) == active@[v as int]),
        decreases rest@.len(),
    {
        proof {
            lemma_filter_step(orig, i, live_ins(live));
        }
        let x = rest.remove(0);
        assert(x == orig[i]);
        if !x.functional() || active[x.dst()] {
            ins.push(x);
        }
        proof {
            i = i + 1;
            assert(rest@ =~= orig.skip(i));
        }
    }
    assert(orig.take(i) =~= orig);
}

impl Function {
    /// Dead code elimination: keeps the calls, the terminators, and the
    /// phis and instructions that define a variable they need, directly or
    /// not; removes every other phi and instruction.
    pub fn sweep(&mut self) -> (changed: bool)
        requires
            old(self).wf(),
        ensures
            final(self).wf(),
            final(self).vars == old(self).vars,
            final(self).args == old(self).args,
            final(self).blocks@.len() == old(self).blocks@.len(),
            forall|s: int|
                0 <= s < old(self).blocks@.len() ==> (#[trigger] final(self).blocks@[s] is Some
                    <==> old(self).blocks@[s] is Some),
            exists|live: Set<Var>|
                {
                    &&& is_live(*old(self), live)
                    &&& forall|s: int|
                        0 <= s < old(self).blocks@.len() && #[trigger] final(self).blocks@[s] is Some
                            ==> swept(old(self).blocks@[s]->0, final(self).blocks@[s]->0, live)
                },
            changed == exists|s: int|
                0 <= s < old(self).blocks@.len() && #[trigger] final(self).blocks@[s] is Some && (
                final(self).blocks@[s]->0.phis@.len() != old(self).blocks@[s]->0.phis@.len()
                    || final(self).blocks@[s]->0.instructions@.len() != old(self).blocks@[s]->0.instructions@.len()),
    {
        let defs = self.definitions();
        let ghost f = *self;
        let mut active: Vec<bool> = Vec::new();
        let mut v: usize = 0;
        while v < self.vars
            invariant
                v <= self.vars,
                active@.len() == v,
                forall|x: int| 0 <= x < v ==> !active@[x],
            decreases self.vars - v,
        {
            active.push(false);
            v = v + 1;
        }
        let mut work: Vec<Var> = Vec::new();
        let n = self.blocks.len();
        let mut s: usize = 0;
        while s < n
            invariant
                f == *self,
                f.wf(),
                n == f.blocks@.len(),
                s <= n,
                marks_ok(f, active@, work@),
                forall|t: int, v: Var| 0 <= t < s && #[trigger] needs(f, t, v) ==> v < f.vars && active@[v as int],
                forall|x: int| 0 <= x < active@.len() && #[trigger] active@[x] ==> work@.contains(x as Var),
            decreases n - s,
        {
            if let Some(x) = &self.blocks[s] {
                assert(f.frag_ok(*x));
                let mut i: usize = 0;
                while i < x.instructions.len()
                    invariant
                        f == *self,
                        f.wf(),
                        n == f.blocks@.len(),
                        s < n,
                        f.blocks@[s as int] == Some(*x),
                        f.frag_ok(*x),
                        i <= x.instructions@.len(),
                        marks_ok(f, active@, work@),
                        forall|t: int, v: Var| 0 <= t < s && #[trigger] needs(f, t, v) ==> v < f.vars && active@[v as int],
                        forall|x: int| 0 <= x < active@.len() && #[trigger] active@[x] ==> work@.contains(x as Var),
                        forall|k: int, j: int|
                            0 <= k < i && !x.instructions@[k].is_functional() && 0 <= j < x.instructions@[k].reads().len()
                                ==> active@[#[trigger] x.instructions@[k].reads()[j] as int],
                    decreases x.instructions@.len() - i,
                {
                    if !x.instructions[i].functional() {
                        let ops = x.instructions[i].operands();
                        proof {
                            assert forall|k: int| 0 <= k < ops@.len() implies #[trigger] ops@[k] < f.vars && forced(f, ops@[k]) by {
                                assert(x.instructions@[i as int].reads().contains(ops@[k]));
                                assert(needs(f, s as int, ops@[k]));
                                lemma_forced_needs(f, s as int, ops@[k]);
                            }
                        }
                        let ghost a1 = active@;
                        let ghost w1 = work@;
                        activate_all(self, &mut active, &mut work, &ops);
                        proof {
                            assert forall|x: int| 0 <= x < active@.len() && #[trigger] active@[x] implies work@.contains(x as Var) by {
                                if a1[x] {
                                    let q = choose|q: int| 0 <= q < w1.len() && w1[q] == x as Var;
                                    assert(work@[q] == w1[q]);
                                }
                            }
                        }
                    }
                    i = i + 1;
                }
                let t = x.terminator.unwrap();
                let mut tops: Vec<Var> = Vec::new();
                match t {
                    Terminator::Branch(c, _, _) => tops.push(c),
                    Terminator::Return(c) => tops.push(c),
                    Terminator::Jump(_) => {},
                }
                assert(tops@ =~= t.reads());
                proof {
                    assert forall|k: int| 0 <= k < tops@.len() implies #[trigger] tops@[k] < f.vars && forced(f, tops@[k]) by {
                        assert(t.reads().contains(tops@[k]));
                        assert(needs(f, s as int, tops@[k]));
                        lemma_forced_needs(f, s as int, tops@[k]);
                    }
                }
                let ghost a1 = active@;
                let ghost w1 = work@;
                activate_all(self, &mut active, &mut work, &tops);
                proof {
                    assert forall|x: int| 0 <= x < active@.len() && #[trigger] active@[x] implies work@.contains(x as Var) by {
                        if a1[x] {
                            let q = choose|q: int| 0 <= q < w1.len() && w1[q] == x as Var;
                            assert(work@[q] == w1[q]);
                        }
                    }
                    assert forall|t2: int, v: Var| 0 <= t2 < s + 1 && #[trigger] needs(f, t2, v) implies v < f.vars && active@[v as int] by {
                        if t2 == s {
                            if !(t.reads().contains(v)) {
                                let i = choose|i: int|
                                    0 <= i < x.instructions@.len() && !x.instructions@[i].is_functional()
                                        && (#[trigger] x.instructions@[i]).reads().contains(v);
                                let j = choose|j: int| 0 <= j < x.instructions@[i].reads().len() && x.instructions@[i].reads()[j] == v;
                                assert(active@[x.instructions@[i].reads()[j] as int]);
                                assert(x.instructions@[i].reads()[j] < f.vars);
                            } else {
                                let j = choose|j: int| 0 <= j < t.reads().len() && t.reads()[j] == v;
                                assert(active@[tops@[j] as int]);
                                assert(t.reads()[j] < f.vars);
                            }
                        }
                    }
                }
            }
            s = s + 1;
        }
        loop
            invariant
                f == *self,
                f.wf(),
                n == f.blocks@.len(),
                defs_ok(f, defs@),
                marks_ok(f, active@, work@),
                forall|t: int, v: Var| #[trigger] needs(f, t, v) ==> v < f.vars && active@[v as int],
                forall|v: int|
                    0 <= v < f.vars && #[trigger] active@[v] && !work@.contains(v as Var) ==> visited(f, defs@, active@, v),
            ensures
                work@.len() == 0,
            decreases falses(active@), work@.len(),
        {
            let ghost wfull = work@;
            let v = match work.pop() {
                Some(v) => v,
                None => {
                    break;
                },
            };
            let ghost w0 = work@;
            let ghost a0 = active@;
            assert(wfull == w0.push(v));
            let entries = &defs[v];
            let mut j: usize = 0;
            while j < entries.len()
                invariant
                    f == *self,
                    f.wf(),
                    n == f.blocks@.len(),
                    defs_ok(f, defs@),
                    v < f.vars,
                    active@[v as int],
                    entries == defs@[v as int],
                    j <= entries@.len(),
                    marks_ok(f, active@, work@),
                    forall|t: int, x: Var| #[trigger] needs(f, t, x) ==> x < f.vars && active@[x as int],
                    active@.len() == a0.len(),
                    forall|x: int| 0 <= x < a0.len() && a0[x] ==> #[trigger] active@[x],
                    falses(active@) <= falses(a0),
                    falses(active@) == falses(a0) ==> work@ == w0,
                    work@.len() >= w0.len(),
                    forall|i: int| 0 <= i < w0.len() ==> #[trigger] work@[i] == w0[i],
                    forall|x: int| 0 <= x < active@.len() && #[trigger] active@[x] && !a0[x] ==> work@.contains(x as Var),
                    forall|q: int|
                        0 <= q < j ==> {
                            let o = #[trigger] def_at(f, entries@[q].0 as int, entries@[q].1);
                            o is Some && def_var(o) == v ==> forall|k: int| 0 <= k < def_reads(o).len() ==> active@[def_reads(o)[k] as int]
                        },
                decreases entries@.len() - j,
            {
                let (s, id) = entries[j];
                let ghost o = def_at(f, s as int, id);
                let ghost ab = active@;
                let ghost wb = work@;
                let mut ops: Vec<Var> = Vec::new();
                if s < n {
                    if let Some(x) = &self.blocks[s] {
                        assert(f.frag_ok(*x));
                        match id {
                            Id::Phi(i) => {
                                if i < x.phis.len() && x.phis[i].var == v {
                                    let mut k: usize = 0;
                                    while k < x.phis[i].inputs.len()
                                        invariant
                                            i < x.phis@.len(),
                                            k <= x.phis@[i as int].inputs@.len(),
                                            ops@ == x.phis@[i as int].inputs@.map_values(|p: (Label, Var)| p.1).take(k as int),
                                        decreases x.phis@[i as int].inputs@.len() - k,
                                    {
                                        ops.push(x.phis[i].inputs[k].1);
                                        k = k + 1;
                                        assert(ops@ =~= x.phis@[i as int].inputs@.map_values(|p: (Label, Var)| p.1).take(k as int));
                                    }
                                    assert(ops@ =~= def_reads(o));
                                }
                            },
                            Id::Ins(i) => {
                                if i < x.instructions.len() && x.instructions[i].dst() == v {
                                    ops = x.instructions[i].operands();
                                    assert(ops@ =~= def_reads(o));
                                }
                            },
                            Id::Term => {},
                        }
                    }
                }
                proof {
                    if ops@.len() > 0 {
                        assert(o is Some && def_var(o) == v && ops@ == def_reads(o));
                        let x = f.blocks@[s as int]->0;
                        assert(f.frag_ok(x));
                        assert forall|k: int| 0 <= k < ops@.len() implies #[trigger] ops@[k] < f.vars && forced(f, ops@[k]) by {
                            assert(def_reads(o).contains(ops@[k]));
                            assert(feeds(f, v, ops@[k]));
                            lemma_forced_feeds(f, v, ops@[k]);
                            match id {
                                Id::Phi(i) => {
                                    assert(ops@[k] == x.phis@[i as int].inputs@[k].1);
                                },
                                Id::Ins(i) => {
                                    assert(ops@[k] == x.instructions@[i as int].reads()[k]);
                                },
                                Id::Term => {},
                            }
                        }
                    }
                }
                activate_all(self, &mut active, &mut work, &ops);
                proof {
                    if o is Some && def_var(o) == v {
                        assert(ops@ == def_reads(o)) by {
                            let x = f.blocks@[s as int]->0;
                            assert(s < n && f.blocks@[s as int] is Some);
                            match id {
                                Id::Phi(i) => {},
                                Id::Ins(i) => {},
                                Id::Term => {},
                            }
                        }
                    }
                    assert forall|x: int| 0 <= x < active@.len() && #[trigger] active@[x] && !a0[x] implies work@.contains(x as Var) by {
                        if ab[x] {
                            let i = choose|i: int| 0 <= i < wb.len() && wb[i] == x as Var;
                            assert(work@[i] == wb[i]);
                        }
                    }
                }
                j = j + 1;
            }
            proof {
                assert forall|x: int|
                    0 <= x < f.vars && #[trigger] active@[x] && !work@.contains(x as Var) implies visited(f, defs@, active@, x) by {
                    if x != v {
                        assert(a0[x]);
                        if w0.contains(x as Var) {
                            let i = choose|i: int| 0 <= i < w0.len() && w0[i] == x as Var;
                            assert(work@[i] == w0[i]);
                        }
                        assert(!wfull.contains(x as Var)) by {
                            if wfull.contains(x as Var) {
                                let i = choose|i: int| 0 <= i < wfull.len() && wfull[i] == x as Var;
                                if i < w0.len() {
                                    assert(w0[i] == x as Var);
                                }
                            }
                        }
                        assert(visited(f, defs@, a0, x));
                    }
                }
            }
        }
        let ghost live = Set::new(|x: Var| x < f.vars && active@[x as int]);
        proof {
            assert forall|t: int, x: Var| #[trigger] needs(f, t, x) implies live.contains(x) by {}
            assert forall|x: Var, u: Var| live.contains(x) && #[trigger] feeds(f, x, u) implies live.contains(u) by {
                let (t, id) = choose|t: int, id: Id|
                    #[trigger] def_at(f, t, id) is Some && def_var(def_at(f, t, id)) == x && def_reads(def_at(f, t, id)).contains(u);
                assert(defs@[x as int]@.contains((t as usize, id)));
                let q = choose|q: int| 0 <= q < defs@[x as int]@.len() && defs@[x as int]@[q] == (t as usize, id);
                assert(visited(f, defs@, active@, x as int));
                let o = def_at(f, defs@[x as int]@[q].0 as int, defs@[x as int]@[q].1);
                assert(o == def_at(f, t, id));
                let k = choose|k: int| 0 <= k < def_reads(o).len() && def_reads(o)[k] == u;
                let frag = f.blocks@[t]->0;
                assert(f.frag_ok(frag));
                match id {
                    Id::Phi(i) => {
                        assert(u == frag.phis@[i as int].inputs@[k].1);
                    },
                    Id::Ins(i) => {
                        assert(u == frag.instructions@[i as int].reads()[k]);
                    },
                    Id::Term => {},
                }
            }
            assert forall|st: Set<Var>| #[trigger] closed(f, st) implies live.subset_of(st) by {
                assert forall|x: Var| live.contains(x) implies st.contains(x) by {
                    assert(forced(f, x));
                }
            }
        }
        let mut changed = false;
        let mut s: usize = 0;
        while s < n
            invariant
                n == f.blocks@.len(),
                f.wf(),
                s <= n,
                self.vars == f.vars,
                self.args == f.args,
                self.blocks@.len() == n,
                active@.len() == f.vars,
                forall|v: Var| v < active@.len() ==> (live.contains(v) == active@[v as int]),
                forall|t: int| 0 <= t < n ==> (#[trigger] self.blocks@[t] is Some <==> f.blocks@[t] is Some),
                forall|t: int|
                    0 <= t < n && #[trigger] self.blocks@[t] is Some ==> if t < s {
                        swept(f.blocks@[t]->0, self.blocks@[t]->0, live)
                    } else {
                        self.blocks@[t] == f.blocks@[t]
                    },
                changed == exists|t: int|
                    0 <= t < s && #[trigger] self.blocks@[t] is Some && (self.blocks@[t]->0.phis@.len()
                        != f.blocks@[t]->0.phis@.len() || self.blocks@[t]->0.instructions@.len()
                        != f.blocks@[t]->0.instructions@.len()),
            decreases n - s,
        {
            let ghost before = self.blocks@;
            let mut slot_frag: Option<Fragment> = None;
            std::mem::swap(&mut slot_frag, &mut self.blocks[s]);
            if let Some(mut frag) = slot_frag {
                assert(f.frag_ok(frag));
                let np = frag.phis.len();
                let ni = frag.instructions.len();
                sweep_phis(&mut frag.phis, &active, Ghost(live));
                sweep_instructions(&mut frag.instructions, &active, Ghost(live));
                let c = frag.phis.len() != np || frag.instructions.len() != ni;
                self.blocks[s] = Some(frag);
                if c {
                    changed = true;
                }
            }
            proof {
                if exists|t: int|
                    0 <= t < s + 1 && #[trigger] self.blocks@[t] is Some && (self.blocks@[t]->0.phis@.len()
                        != f.blocks@[t]->0.phis@.len() || self.blocks@[t]->0.instructions@.len()
                        != f.blocks@[t]->0.instructions@.len()) {
                    let t = choose|t: int|
                        0 <= t < s + 1 && #[trigger] self.blocks@[t] is Some && (self.blocks@[t]->0.phis@.len()
                            != f.blocks@[t]->0.phis@.len() || self.blocks@[t]->0.instructions@.len()
                            != f.blocks@[t]->0.instructions@.len());
                    if t < s {
                        assert(self.blocks@[t] == before[t]);
                    }
                }
                if exists|t: int|
                    0 <= t < s && #[trigger] before[t] is Some && (before[t]->0.phis@.len()
                        != f.blocks@[t]->0.phis@.len() || before[t]->0.instructions@.len()
                        != f.blocks@[t]->0.instructions@.len()) {
                    let t = choose|t: int|
                        0 <= t < s && #[trigger] before[t] is Some && (before[t]->0.phis@.len()
                            != f.blocks@[t]->0.phis@.len() || before[t]->0.instructions@.len()
                            != f.blocks@[t]->0.instructions@.len());
                    assert(self.blocks@[t] == before[t]);
                }
            }
            s = s + 1;
        }
        proof {
            let g = *self;
            assert forall|t: int| 0 <= t < n && #[trigger] g.blocks@[t] is Some implies g.frag_ok(g.blocks@[t]->0) by {
                let a = f.blocks@[t]->0;
                let b = g.blocks@[t]->0;
                assert(f.frag_ok(a));
                lemma_filter_sub(a.phis@, live_phi(live));
                lemma_filter_sub(a.instructions@, live_ins(live));
                assert forall|k: int| 0 <= k < b.phis@.len() implies {
                    &&& (#[trigger] b.phis@[k]).var < g.vars
                    &&& forall|j: int| 0 <= j < b.phis@[k].inputs@.len() ==> (#[trigger] b.phis@[k].inputs@[j]).1 < g.vars
                } by {
                    assert(a.phis@.contains(b.phis@[k]));
                }
                assert forall|k: int| 0 <= k < b.instructions@.len() implies {
                    &&& (#[trigger] b.instructions@[k]).def() < g.vars
                    &&& forall|j: int| 0 <= j < b.instructions@[k].reads().len() ==> #[trigger] b.instructions@[k].reads()[j] < g.vars
                } by {
                    assert(a.instructions@.contains(b.instructions@[k]));
                }
                let tt = b.terminator->0;
                assert forall|k: int| 0 <= k < tt.targets().len() implies g.has(#[trigger] tt.targets()[k]) by {
                    let l = tt.targets()[k];
                    assert(f.has(l));
                    assert(g.blocks@[crate::ir::slot_of(l)] is Some <==> f.blocks@[crate::ir::slot_of(l)] is Some);
                }
                assert forall|k: int| 0 <= k < b.predecessors@.len() implies g.has(#[trigger] b.predecessors@[k]) by {
                    let l = b.predecessors@[k];
                    assert(f.has(l));
                    assert(g.blocks@[crate::ir::slot_of(l)] is Some <==> f.blocks@[crate::ir::slot_of(l)] is Some);
                }
            }
            assert(g.blocks@[0] is Some);
            assert(g.blocks@[1] is Some);
            assert(is_live(f, live));
        }
        changed
    }
}


/// `b` is `a` with the dead phis and instructions of each fragment removed,
/// for the live set `live`.
pub open spec fn swept_all(a: Function, b: Function, live: Set<Var>) -> bool {
    &&& b.blocks@.len() == a.blocks@.len()
    &&& forall|s: int| 0 <= s < a.blocks@.len() ==> (#[trigger] b.blocks@[s] is Some <==> a.blocks@[s] is Some)
    &&& forall|s: int| 0 <= s < a.blocks@.len() && #[trigger] b.blocks@[s] is Some ==> swept(a.blocks@[s]->0, b.blocks@[s]->0, live)
}

/// Sweeping keeps every variable live: what `a` needs, the function swept
/// from it needs too.
proof fn lemma_live_kept(a: Function, b: Function, la: Set<Var>, lb: Set<Var>)
    requires
        is_live(a, la),
        swept_all(a, b, la),
        is_live(b, lb),
    ensures
        la.subset_of(lb),
{
    broadcast use vstd::seq_lib::group_filter_ensures;
    let t = lb.intersect(la);
    assert forall|s: int, v: Var| #[trigger] needs(a, s, v) implies t.contains(v) by {
        assert(la.contains(v));
        let x = a.blocks@[s]->0;
        let y = b.blocks@[s]->0;
        assert(b.blocks@[s] is Some);
        assert(swept(x, y, la));
        if x.terminator matches Some(tt) && tt.reads().contains(v) {
            assert(needs(b, s, v));
        } else {
            let i = choose|i: int|
                0 <= i < x.instructions@.len() && !x.instructions@[i].is_functional() && (#[trigger] x.instructions@[i]).reads().contains(v);
            let q = x.instructions@[i];
            assert(live_ins(la)(q));
            assert(y.instructions@.contains(q));
            let k = choose|k: int| 0 <= k < y.instructions@.len() && y.instructions@[k] == q;
            assert(!y.instructions@[k].is_functional() && y.instructions@[k].reads().contains(v));
            assert(needs(b, s, v));
        }
    }
    assert forall|v: Var, u: Var| t.contains(v) && #[trigger] feeds(a, v, u) implies t.contains(u) by {
        assert(la.contains(u));
        let (s, id) = choose|s: int, id: Id|
            #[trigger] def_at(a, s, id) is Some && def_var(def_at(a, s, id)) == v && def_reads(def_at(a, s, id)).contains(u);
        let x = a.blocks@[s]->0;
        let y = b.blocks@[s]->0;
        assert(b.blocks@[s] is Some);
        assert(swept(x, y, la));
        match id {
            Id::Phi(i) => {
                let p = x.phis@[i as int];
                assert(live_phi(la)(p));
                assert(y.phis@.contains(p));
                let k = choose|k: int| 0 <= k < y.phis@.len() && y.phis@[k] == p;
                assert(y.phis@.len() == y.phis.len());
                assert(def_at(b, s, Id::Phi(k as usize)) == def_at(a, s, id));
                assert(feeds(b, v, u));
            },
            Id::Ins(i) => {
                let q = x.instructions@[i as int];
                assert(live_ins(la)(q));
                assert(y.instructions@.contains(q));
                let k = choose|k: int| 0 <= k < y.instructions@.len() && y.instructions@[k] == q;
                assert(y.instructions@.len() == y.instructions.len());
                assert(def_at(b, s, Id::Ins(k as usize)) == def_at(a, s, id));
                assert(feeds(b, v, u));
            },
            Id::Term => {},
        }
    }
    assert(closed(a, t));
    assert(la.subset_of(t));
}

/// Sweeping twice removes nothing the second time: when `b` is `a` swept
/// and `c` is `b` swept, each fragment of `c` has the phis and the
/// instructions of `b`.
pub proof fn law_sweep_settles(a: Function, b: Function, c: Function, la: Set<Var>, lb: Set<Var>)
    requires
        is_live(a, la),
        swept_all(a, b, la),
        is_live(b, lb),
        swept_all(b, c, lb),
    ensures
        forall|s: int|
            0 <= s < c.blocks@.len() && #[trigger] c.blocks@[s] is Some ==> c.blocks@[s]->0.phis@ == b.blocks@[s]->0.phis@
                && c.blocks@[s]->0.instructions@ == b.blocks@[s]->0.instructions@,
{
    broadcast use vstd::seq_lib::group_filter_ensures;
    lemma_live_kept(a, b, la, lb);
    assert forall|s: int|
        0 <= s < c.blocks@.len() && #[trigger] c.blocks@[s] is Some implies c.blocks@[s]->0.phis@ == b.blocks@[s]->0.phis@
            && c.blocks@[s]->0.instructions@ == b.blocks@[s]->0.instructions@ by {
        let x = a.blocks@[s]->0;
        let y = b.blocks@[s]->0;
        let z = c.blocks@[s]->0;
        assert(swept(x, y, la));
        assert(swept(y, z, lb));
        assert forall|k: int| 0 <= k < y.phis@.len() implies #[trigger] live_phi(lb)(y.phis@[k]) by {
            assert(x.phis@.filter(live_phi(la)).contains(y.phis@[k]));
        }
        crate::rewrite::lemma_filter_all(y.phis@, live_phi(lb), y.phis@.len() as int);
        assert(y.phis@.take(y.phis@.len() as int) =~= y.phis@);
        assert forall|k: int| 0 <= k < y.instructions@.len() implies #[trigger] live_ins(lb)(y.instructions@[k]) by {
            assert(x.instructions@.filter(live_ins(la)).contains(y.instructions@[k]));
        }
        crate::rewrite::lemma_filter_all(y.instructions@, live_ins(lb), y.instructions@.len() as int);
        assert(y.instructions@.take(y.instructions@.len() as int) =~= y.instructions@);
    }
}

} // verus!
