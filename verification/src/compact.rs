use vstd::prelude::*;
use crate::ir::{label_at, label_of, slot_of, Fragment, Function, Label, Phi, Terminator, Var};
use crate::rewrite::{lemma_filter_step, lemma_filter_sub, not_from, not_label};

verus! {

/// The fragment at slot `s` does nothing but jump elsewhere: it has no phi
/// and no instruction, and its terminator jumps to another label.
pub open spec fn redundant(f: Function, s: int) -> bool {
    &&& 2 <= s < f.blocks@.len()
    &&& f.blocks@[s] is Some
    &&& f.blocks@[s]->0.instructions@.len() == 0
    &&& f.blocks@[s]->0.phis@.len() == 0
    &&& f.blocks@[s]->0.terminator matches Some(Terminator::Jump(t)) && t != label_of(s)
}

/// `b` is `a` once the fragment at slot `s`, which only jumps to `to`, was
/// merged into `to`.
pub open spec fn merged_at(a: Function, b: Function, s: int, to: Label) -> bool {
    &&& redundant(a, s)
    &&& a.blocks@[s]->0.terminator == Some(Terminator::Jump(to))
    &&& b.wf()
    &&& b.vars == a.vars
    &&& b.args == a.args
    &&& b.blocks@.len() == a.blocks@.len()
    &&& b.blocks@[s] is None
    &&& forall|t: int| 0 <= t < a.blocks@.len() && t != s ==> (#[trigger] b.blocks@[t] is Some <==> a.blocks@[t] is Some)
    &&& forall|t: int|
        0 <= t < a.blocks@.len() && t != s && #[trigger] b.blocks@[t] is Some ==> merged_fragment(
            a.blocks@[t]->0,
            b.blocks@[t]->0,
            label_of(t),
            label_of(s),
            to,
            a.blocks@[s]->0.predecessors@,
        )
}

/// One fragment that only jumps on was merged away between `a` and `b`.
pub open spec fn merge_step(a: Function, b: Function) -> bool {
    exists|s: int, to: Label| #[trigger] merged_at(a, b, s, to)
}

/// The label `l`, or `to` when it is `from`.
pub open spec fn swap_label(l: Label, from: Label, to: Label) -> Label {
    if l == from {
        to
    } else {
        l
    }
}

/// The terminator with every jump to `from` sent to `to`.
pub open spec fn retarget(t: Terminator, from: Label, to: Label) -> Terminator {
    match t {
        Terminator::Jump(x) => Terminator::Jump(swap_label(x, from, to)),
        Terminator::Branch(c, y, n) => Terminator::Branch(c, swap_label(y, from, to), swap_label(n, from, to)),
        Terminator::Return(v) => Terminator::Return(v),
    }
}

/// The variable of the first input that comes from `l`.
pub open spec fn first_from(s: Seq<(Label, Var)>, l: Label) -> Option<Var>
    decreases s.len(),
{
    if s.len() == 0 {
        None
    } else if s[0].0 == l {
        Some(s[0].1)
    } else {
        first_from(s.drop_first(), l)
    }
}

/// The inputs of a phi of the target once the fragment `e` is gone: the
/// value it brought now comes from each of its predecessors.
pub open spec fn merged_inputs(s: Seq<(Label, Var)>, e: Label, preds: Seq<Label>) -> Seq<(Label, Var)> {
    match first_from(s, e) {
        Some(v) => s.filter(not_from(e)) + preds.map_values(|p: Label| (p, v)),
        None => s,
    }
}

/// `b` is fragment `a` of `f` after the fragment `e`, whose predecessors
/// are `ep`, was merged into its target `to`.
pub open spec fn merged_fragment(a: Fragment, b: Fragment, l: Label, e: Label, to: Label, ep: Seq<Label>) -> bool {
    &&& b.instructions == a.instructions
    &&& b.terminator == Some(retarget(a.terminator->0, e, to))
    &&& b.predecessors@ == if l == to {
        a.predecessors@.filter(not_label(e)) + ep.filter(not_label(e))
    } else {
        a.predecessors@.filter(not_label(e))
    }
    &&& b.phis@.len() == a.phis@.len()
    &&& forall|k: int|
        0 <= k < a.phis@.len() ==> (#[trigger] b.phis@[k]).var == a.phis@[k].var && b.phis@[k].inputs@ == if l
            == to {
            merged_inputs(a.phis@[k].inputs@, e, ep)
        } else {
            a.phis@[k].inputs@
        }
}

proof fn lemma_first_from(s: Seq<(Label, Var)>, l: Label, i: int)
    requires
        0 <= i <= s.len(),
        forall|j: int| 0 <= j < i ==> (#[trigger] s[j]).0 != l,
        i < s.len() ==> s[i].0 == l,
    ensures
        first_from(s, l) == if i < s.len() {
            Some(s[i].1)
        } else {
            None::<Var>
        },
    decreases s.len(),
{
    if s.len() > 0 && i > 0 {
        let t = s.drop_first();
        assert forall|j: int| 0 <= j < i - 1 implies (#[trigger] t[j]).0 != l by {
            assert(t[j] == s[j + 1]);
        }
        lemma_first_from(t, l, i - 1);
    }
}

proof fn lemma_first_from_in(s: Seq<(Label, Var)>, l: Label)
    requires
        first_from(s, l) is Some,
    ensures
        exists|j: int| 0 <= j < s.len() && s[j] == (l, first_from(s, l)->0),
    decreases s.len(),
{
    if s[0].0 != l {
        lemma_first_from_in(s.drop_first(), l);
        let j = choose|j: int| 0 <= j < s.drop_first().len() && s.drop_first()[j] == (l, first_from(s, l)->0);
        assert(s[j + 1] == (l, first_from(s, l)->0));
    } else {
        assert(s[0] == (l, first_from(s, l)->0));
    }
}

fn find_from(s: &Vec<(Label, Var)>, l: Label) -> (r: Option<Var>)
    ensures
        r == first_from(s@, l),
{
    let mut i: usize = 0;
    while i < s.len()
        invariant
            i <= s@.len(),
            forall|j: int| 0 <= j < i ==> (#[trigger] s@[j]).0 != l,
        decreases s@.len() - i,
    {
        if s[i].0 == l {
            proof {
                lemma_first_from(s@, l, i as int);
            }
            return Some(s[i].1);
        }
        i = i + 1;
    }
    proof {
        lemma_first_from(s@, l, i as int);
    }
    None
}

fn without_label(v: &Vec<Label>, l: Label) -> (r: Vec<Label>)
    ensures
        r@ == v@.filter(not_label(l)),
{
    let mut out: Vec<Label> = Vec::new();
    let mut i: usize = 0;
    while i < v.len()
        invariant
            i <= v@.len(),
            out@ == v@.take(i as int).filter(not_label(l)),
        decreases v@.len() - i,
    {
        proof {
            lemma_filter_step(v@, i as int, not_label(l));
        }
        if v[i] != l {
            out.push(v[i]);
        }
        i = i + 1;
    }
    assert(v@.take(v@.len() as int) =~= v@);
    out
}

fn without_input(v: &Vec<(Label, Var)>, l: Label) -> (r: Vec<(Label, Var)>)
    ensures
        r@ == v@.filter(not_from(l)),
{
    let mut out: Vec<(Label, Var)> = Vec::new();
    let mut i: usize = 0;
    while i < v.len()
        invariant
            i <= v@.len(),
            out@ == v@.take(i as int).filter(not_from(l)),
        decreases v@.len() - i,
    {
        proof {
            lemma_filter_step(v@, i as int, not_from(l));
        }
        if v[i].0 != l {
            out.push(v[i]);
        }
        i = i + 1;
    }
    assert(v@.take(v@.len() as int) =~= v@);
    out
}

impl Phi {
    /// Replaces the input that came from `e` by one from each of `preds`,
    /// with the same variable.
    fn merge(&mut self, e: Label, preds: &Vec<Label>)
        ensures
            final(self).var == old(self).var,
            final(self).inputs@ == merged_inputs(old(self).inputs@, e, preds@),
    {
        if let Some(var) = find_from(&self.inputs, e) {
            let mut inputs = without_input(&self.inputs, e);
            let ghost base = inputs@;
            let mut i: usize = 0;
            while i < preds.len()
                invariant
                    i <= preds@.len(),
                    inputs@ == base + preds@.take(i as int).map_values(|p: Label| (p, var)),
                decreases preds@.len() - i,
            {
                inputs.push((preds[i], var));
                i = i + 1;
                assert(inputs@ =~= base + preds@.take(i as int).map_values(|p: Label| (p, var)));
            }
            assert(preds@.take(preds@.len() as int) =~= preds@);
            self.inputs = inputs;
        }
    }
}

impl Terminator {
    /// Sends every jump to `from` to `to`.
    fn retarget(&mut self, from: Label, to: Label)
        ensures
            *final(self) == retarget(*old(self), from, to),
    {
        match self {
            Terminator::Jump(x) => {
                if *x == from {
                    *x = to;
                }
            },
            Terminator::Branch(_, y, n) => {
                if *y == from {
                    *y = to;
                }
                if *n == from {
                    *n = to;
                }
            },
            Terminator::Return(_) => {},
        }
    }
}


/// The number of fragments a function holds.
pub open spec fn present(b: Seq<Option<Fragment>>) -> nat
    decreases b.len(),
{
    if b.len() == 0 {
        0
    } else {
        present(b.drop_last()) + if b.last() is Some {
            1nat
        } else {
            0nat
        }
    }
}

proof fn lemma_present_remove(b: Seq<Option<Fragment>>, s: int)
    requires
        0 <= s < b.len(),
        b[s] is Some,
    ensures
        present(b.update(s, None)) + 1 == present(b),
    decreases b.len(),
{
    let c = b.update(s, None);
    if s == b.len() - 1 {
        assert(c.drop_last() =~= b.drop_last());
    } else {
        assert(c.drop_last() =~= b.drop_last().update(s, None));
        lemma_present_remove(b.drop_last(), s);
    }
}

proof fn lemma_present_same(b: Seq<Option<Fragment>>, c: Seq<Option<Fragment>>)
    requires
        b.len() == c.len(),
        forall|t: int| 0 <= t < b.len() ==> (#[trigger] b[t] is Some <==> c[t] is Some),
    ensures
        present(b) == present(c),
    decreases b.len(),
{
    if b.len() > 0 {
        lemma_present_same(b.drop_last(), c.drop_last());
    }
}

impl Function {
    /// A fragment that does nothing but jump elsewhere, and where it jumps.
    fn redundant(&self) -> (r: Option<(usize, Label)>)
        ensures
            match r {
                Some((s, t)) => redundant(*self, s as int) && self.blocks@[s as int]->0.terminator == Some(
                    Terminator::Jump(t),
                ),
                None => forall|s: int| !redundant(*self, s),
            },
    {
        let mut candidate: Option<(usize, Label)> = None;
        let mut s: usize = 2;
        while s < self.blocks.len()
            invariant
                2 <= s <= self.blocks@.len() + 2,
                match candidate {
                    Some((c, t)) => redundant(*self, c as int) && self.blocks@[c as int]->0.terminator == Some(
                        Terminator::Jump(t),
                    ),
                    None => forall|q: int| q < s ==> !redundant(*self, q),
                },
            decreases self.blocks@.len() - s,
        {
            if let Some(x) = &self.blocks[s] {
                if x.instructions.len() == 0 && x.phis.len() == 0 {
                    if let Some(Terminator::Jump(t)) = x.terminator {
                        if t != label_at(s) {
                            candidate = Some((s, t));
                        }
                    }
                }
            }
            s = s + 1;
        }
        candidate
    }

    /// Removes the fragment at slot `s`, which only jumps to `to`: every
    /// jump to it goes to `to` instead, `to` takes over its predecessors,
    /// and the phis of `to` take the value it brought from each of them.
    fn merge(&mut self, s: usize, to: Label)
        requires
            old(self).wf(),
            redundant(*old(self), s as int),
            old(self).blocks@[s as int]->0.terminator == Some(Terminator::Jump(to)),
        ensures
            final(self).wf(),
            final(self).vars == old(self).vars,
            final(self).args == old(self).args,
            final(self).blocks@.len() == old(self).blocks@.len(),
            final(self).blocks@[s as int] is None,
            forall|t: int|
                0 <= t < old(self).blocks@.len() && t != s ==> (#[trigger] final(self).blocks@[t] is Some
                    <==> old(self).blocks@[t] is Some),
            forall|t: int|
                0 <= t < old(self).blocks@.len() && t != s && #[trigger] final(self).blocks@[t] is Some
                    ==> merged_fragment(
                    old(self).blocks@[t]->0,
                    final(self).blocks@[t]->0,
                    label_of(t),
                    label_of(s as int),
                    to,
                    old(self).blocks@[s as int]->0.predecessors@,
                ),
            present(final(self).blocks@) + 1 == present(old(self).blocks@),
    {
        let ghost f0 = *self;
        let n = self.blocks.len();
        let e = label_at(s);
        let mut slot_frag: Option<Fragment> = None;
        std::mem::swap(&mut slot_frag, &mut self.blocks[s]);
        let efrag = slot_frag.unwrap();
        let ep = efrag.predecessors;
        let clean_ep = without_label(&ep, e);
        proof {
            lemma_present_remove(f0.blocks@, s as int);
            assert(f0.frag_ok(efrag));
            assert(efrag.terminator->0.targets()[0] == to);
            assert(f0.has(to));
        }
        let ghost f1 = *self;
        let mut t: usize = 0;
        while t < n
            invariant
                f0 == *old(self),
                f0.wf(),
                n == f0.blocks@.len(),
                s < n,
                e == label_of(s as int),
                ep@ == f0.blocks@[s as int]->0.predecessors@,
                clean_ep@ == ep@.filter(not_label(e)),
                t <= n,
                self.vars == f0.vars,
                self.args == f0.args,
                self.blocks@.len() == n,
                self.blocks@[s as int] is None,
                forall|q: int| 0 <= q < n && q != s ==> (#[trigger] self.blocks@[q] is Some <==> f0.blocks@[q] is Some),
                forall|q: int|
                    0 <= q < n && q != s && #[trigger] self.blocks@[q] is Some ==> if q < t {
                        merged_fragment(f0.blocks@[q]->0, self.blocks@[q]->0, label_of(q), e, to, ep@)
                    } else {
                        self.blocks@[q] == f0.blocks@[q]
                    },
            decreases n - t,
        {
            if t != s {
                let mut slot_frag: Option<Fragment> = None;
                std::mem::swap(&mut slot_frag, &mut self.blocks[t]);
                if let Some(mut x) = slot_frag {
                    let ghost a = x;
                    assert(f0.frag_ok(a));
                    let mut term = x.terminator.unwrap();
                    term.retarget(e, to);
                    x.terminator = Some(term);
                    let lt = label_at(t);
                    let mut preds = without_label(&x.predecessors, e);
                    if lt == to {
                        let mut k: usize = 0;
                        while k < x.phis.len()
                            invariant
                                k <= x.phis@.len(),
                                x.phis@.len() == a.phis@.len(),
                                forall|i: int|
                                    0 <= i < x.phis@.len() ==> (#[trigger] x.phis@[i]).var == a.phis@[i].var
                                        && x.phis@[i].inputs@ == if i < k {
                                        merged_inputs(a.phis@[i].inputs@, e, ep@)
                                    } else {
                                        a.phis@[i].inputs@
                                    },
                                x.instructions == a.instructions,
                                x.terminator == Some(retarget(a.terminator->0, e, to)),
                            decreases a.phis@.len() - k,
                        {
                            x.phis[k].merge(e, &ep);
                            k = k + 1;
                        }
                        let mut i: usize = 0;
                        let ghost base = preds@;
                        while i < clean_ep.len()
                            invariant
                                i <= clean_ep@.len(),
                                preds@ == base + clean_ep@.take(i as int),
                            decreases clean_ep@.len() - i,
                        {
                            preds.push(clean_ep[i]);
                            i = i + 1;
                            assert(preds@ =~= base + clean_ep@.take(i as int));
                        }
                        assert(clean_ep@.take(clean_ep@.len() as int) =~= clean_ep@);
                    }
                    x.predecessors = preds;
                    self.blocks[t] = Some(x);
                }
            }
            t = t + 1;
        }
        proof {
            let g = *self;
            lemma_present_same(g.blocks@, f1.blocks@);
            assert forall|q: int| 0 <= q < n && #[trigger] g.blocks@[q] is Some implies g.frag_ok(g.blocks@[q]->0) by {
                let a = f0.blocks@[q]->0;
                let b = g.blocks@[q]->0;
                let lq = label_of(q);
                assert(f0.frag_ok(a));
                assert(merged_fragment(a, b, lq, e, to, ep@));
                let tt = b.terminator->0;
                assert forall|k: int| 0 <= k < tt.targets().len() implies g.has(#[trigger] tt.targets()[k]) by {
                    let x = a.terminator->0.targets()[k];
                    assert(f0.has(x));
                    let y = tt.targets()[k];
                    assert(y == swap_label(x, e, to));
                    crate::ir::lemma_slot_label(y);
                    crate::ir::lemma_slot_label(e);
                    assert(f0.has(y));
                    assert(y != e);
                    assert(slot_of(y) != s);
                }
                assert forall|k: int| 0 <= k < tt.reads().len() implies #[trigger] tt.reads()[k] < g.vars by {
                    assert(a.terminator->0.reads()[k] < f0.vars);
                }
                assert forall|k: int| 0 <= k < b.predecessors@.len() implies g.has(#[trigger] b.predecessors@[k]) by {
                    let y = b.predecessors@[k];
                    lemma_filter_sub(a.predecessors@, not_label(e));
                    lemma_filter_sub(ep@, not_label(e));
                    if lq == to && k >= a.predecessors@.filter(not_label(e)).len() {
                        let k2 = k - a.predecessors@.filter(not_label(e)).len();
                        assert(y == ep@.filter(not_label(e))[k2]);
                        assert(ep@.contains(y));
                        let i = choose|i: int| 0 <= i < ep@.len() && ep@[i] == y;
                        assert(f0.has(ep@[i]));
                    } else {
                        assert(y == a.predecessors@.filter(not_label(e))[k]);
                        assert(a.predecessors@.contains(y));
                        let i = choose|i: int| 0 <= i < a.predecessors@.len() && a.predecessors@[i] == y;
                        assert(f0.has(a.predecessors@[i]));
                    }
                    assert(y != e);
                    crate::ir::lemma_slot_label(y);
                    crate::ir::lemma_slot_label(e);
                    assert(slot_of(y) != s);
                }
                assert forall|k: int| 0 <= k < b.phis@.len() implies {
                    &&& (#[trigger] b.phis@[k]).var < g.vars
                    &&& forall|j: int| 0 <= j < b.phis@[k].inputs@.len() ==> (#[trigger] b.phis@[k].inputs@[j]).1 < g.vars
                } by {
                    let ai = a.phis@[k].inputs@;
                    assert forall|j: int| 0 <= j < b.phis@[k].inputs@.len() implies (#[trigger] b.phis@[k].inputs@[j]).1 < g.vars by {
                        if lq == to && first_from(ai, e) is Some {
                            let v = first_from(ai, e)->0;
                            lemma_first_from_in(ai, e);
                            let w = choose|w: int| 0 <= w < ai.len() && ai[w] == (e, v);
                            assert(ai[w].1 < f0.vars);
                            lemma_filter_sub(ai, not_from(e));
                            let flen = ai.filter(not_from(e)).len();
                            if j < flen {
                                assert(ai.contains(ai.filter(not_from(e))[j]));
                                let i = choose|i: int| 0 <= i < ai.len() && ai[i] == ai.filter(not_from(e))[j];
                                assert(ai[i].1 < f0.vars);
                            } else {
                                assert(b.phis@[k].inputs@[j].1 == v);
                            }
                        } else {
                            assert(ai[j].1 < f0.vars);
                        }
                    }
                }
                assert forall|k: int| 0 <= k < b.instructions@.len() implies {
                    &&& (#[trigger] b.instructions@[k]).def() < g.vars
                    &&& forall|j: int| 0 <= j < b.instructions@[k].reads().len() ==> #[trigger] b.instructions@[k].reads()[j] < g.vars
                } by {
                    assert(b.instructions@[k] == a.instructions@[k]);
                }
            }
            assert(g.blocks@[0] is Some);
            assert(g.blocks@[1] is Some);
        }
    }

    /// Removes the fragments that do nothing but jump elsewhere, one at a
    /// time, until none is left.
    pub fn compact(&mut self) -> (changed: bool)
        requires
            old(self).wf(),
        ensures
            final(self).wf(),
            final(self).vars == old(self).vars,
            final(self).args == old(self).args,
            final(self).blocks@.len() == old(self).blocks@.len(),
            forall|s: int| 0 <= s < old(self).blocks@.len() && #[trigger] final(self).blocks@[s] is Some ==> old(self).blocks@[s] is Some,
            forall|s: int| !redundant(*final(self), s),
            changed == exists|s: int|
                0 <= s < old(self).blocks@.len() && #[trigger] old(self).blocks@[s] is Some && final(self).blocks@[s] is None,
            exists|trace: Seq<Function>|
                {
                    &&& trace.len() >= 1
                    &&& trace[0] == *old(self)
                    &&& trace.last() == *final(self)
                    &&& forall|i: int| 0 <= i < trace.len() - 1 ==> #[trigger] merge_step(trace[i], trace[i + 1])
                },
    {
        let ghost f0 = *self;
        let ghost mut trace: Seq<Function> = seq![*self];
        let mut changed = false;
        loop
            invariant
                trace.len() >= 1,
                trace[0] == f0,
                trace.last() == *self,
                forall|i: int| 0 <= i < trace.len() - 1 ==> #[trigger] merge_step(trace[i], trace[i + 1]),
                f0 == *old(self),
                self.wf(),
                self.vars == f0.vars,
                self.args == f0.args,
                self.blocks@.len() == f0.blocks@.len(),
                forall|s: int| 0 <= s < f0.blocks@.len() && #[trigger] self.blocks@[s] is Some ==> f0.blocks@[s] is Some,
                changed == exists|s: int| 0 <= s < f0.blocks@.len() && #[trigger] f0.blocks@[s] is Some && self.blocks@[s] is None,
            ensures
                forall|s: int| !redundant(*self, s),
                trace.len() >= 1,
                trace[0] == f0,
                trace.last() == *self,
                forall|i: int| 0 <= i < trace.len() - 1 ==> #[trigger] merge_step(trace[i], trace[i + 1]),
            decreases present(self.blocks@),
        {
            match self.redundant() {
                Some((s, to)) => {
                    let ghost before = self.blocks@;
                    let ghost fb = *self;
                    self.merge(s, to);
                    changed = true;
                    proof {
                        assert(merged_at(fb, *self, s as int, to));
                        assert(merge_step(fb, *self));
                        let t0 = trace;
                        trace = trace.push(*self);
                        assert forall|i: int| 0 <= i < trace.len() - 1 implies #[trigger] merge_step(trace[i], trace[i + 1]) by {
                            if i < t0.len() - 1 {
                                assert(trace[i] == t0[i] && trace[i + 1] == t0[i + 1]);
                            }
                        }
                        assert(f0.blocks@[s as int] is Some);
                        assert forall|q: int| 0 <= q < f0.blocks@.len() && #[trigger] self.blocks@[q] is Some implies f0.blocks@[q] is Some by {
                            if q != s {
                                assert(before[q] is Some);
                            }
                        }
                    }
                },
                None => {
                    break;
                },
            }
        }
        changed
    }
}

} // verus!
