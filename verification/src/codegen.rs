use vstd::prelude::*;
use crate::copies::{at_once, below, distinct, in_order, no_self, State};
use crate::analyze::{falses, lemma_falses_set};
use crate::ir::{label_at, label_of, slot_of, Fragment, Function, Label, Phi, Terminator, Var};

verus! {

/// A trampoline: a fragment with one predecessor that only jumps on.
pub open spec fn trampoline(f: Fragment) -> bool {
    &&& f.phis@.len() == 0
    &&& f.instructions@.len() == 0
    &&& f.predecessors@.len() == 1
    &&& f.terminator matches Some(Terminator::Jump(_))
}

/// No branch of `f` leads to a fragment with several predecessors: every
/// edge that leaves a branch enters a fragment that only it enters.
pub open spec fn no_critical_edge(f: Function) -> bool {
    forall|s: int|
        0 <= s < f.blocks@.len() && #[trigger] f.blocks@[s] is Some ==> (f.blocks@[s]->0.terminator matches Some(
            Terminator::Branch(_, y, n),
        ) ==> f.frag(y)->0.predecessors@.len() <= 1 && f.frag(n)->0.predecessors@.len() <= 1)
}

/// `b` is `a` with some of its edges from `from` coming through `t`
/// instead: the same instructions and terminator, and phis and predecessors
/// where a label `from` may have become `t`.
pub open spec fn relabeled(a: Fragment, b: Fragment, from: Label, t: Label) -> bool {
    &&& b.terminator == a.terminator
    &&& body_relabeled(a, b, from, t)
}

/// `b` is `a` with some of its edges from `from` coming through `t`
/// instead, whatever its terminator.
pub open spec fn body_relabeled(a: Fragment, b: Fragment, from: Label, t: Label) -> bool {
    &&& b.instructions == a.instructions
    &&& b.phis@.len() == a.phis@.len()
    &&& forall|i: int|
        0 <= i < a.phis@.len() ==> {
            &&& (#[trigger] b.phis@[i]).var == a.phis@[i].var
            &&& b.phis@[i].inputs@.len() == a.phis@[i].inputs@.len()
            &&& forall|j: int|
                0 <= j < a.phis@[i].inputs@.len() ==> #[trigger] b.phis@[i].inputs@[j] == a.phis@[i].inputs@[j] || (
                a.phis@[i].inputs@[j].0 == from && b.phis@[i].inputs@[j] == (t, a.phis@[i].inputs@[j].1))
        }
    &&& b.predecessors@.len() == a.predecessors@.len()
    &&& forall|j: int|
        0 <= j < a.predecessors@.len() ==> #[trigger] b.predecessors@[j] == a.predecessors@[j] || (a.predecessors@[j]
            == from && b.predecessors@[j] == t)
}

/// Replaces the first `from` of the list by `to`, if there is one.
fn replace_first(v: &mut Vec<Label>, from: Label, to: Label)
    ensures
        final(v)@.len() == old(v)@.len(),
        forall|k: int| 0 <= k < old(v)@.len() ==> #[trigger] final(v)@[k] == old(v)@[k] || (old(v)@[k] == from && final(v)@[k] == to),
        (forall|k: int| 0 <= k < old(v)@.len() ==> old(v)@[k] != from) ==> final(v)@ == old(v)@,
        (exists|k: int| 0 <= k < old(v)@.len() && old(v)@[k] == from) ==> exists|i: int|
            0 <= i < old(v)@.len() && old(v)@[i] == from && (forall|j: int| 0 <= j < i ==> old(v)@[j] != from)
                && final(v)@ == old(v)@.update(i, to),
{
    let mut i: usize = 0;
    while i < v.len()
        invariant
            v@ == old(v)@,
            i <= v@.len(),
            forall|k: int| 0 <= k < i ==> v@[k] != from,
        decreases v@.len() - i,
    {
        if v[i] == from {
            v.set(i, to);
            assert(v@ == old(v)@.update(i as int, to));
            return;
        }
        i = i + 1;
    }
}

/// Replaces the label of the first input from `from` by `to`.
fn relabel_first(v: &mut Vec<(Label, Var)>, from: Label, to: Label)
    ensures
        final(v)@.len() == old(v)@.len(),
        forall|k: int|
            0 <= k < old(v)@.len() ==> #[trigger] final(v)@[k] == old(v)@[k] || (old(v)@[k].0 == from && final(v)@[k] == (
                to,
                old(v)@[k].1,
            )),
        (forall|k: int| 0 <= k < old(v)@.len() ==> old(v)@[k].0 != from) ==> final(v)@ == old(v)@,
        (exists|k: int| 0 <= k < old(v)@.len() && old(v)@[k].0 == from) ==> exists|i: int|
            0 <= i < old(v)@.len() && old(v)@[i].0 == from && (forall|j: int| 0 <= j < i ==> old(v)@[j].0 != from)
                && final(v)@ == old(v)@.update(i, (to, old(v)@[i].1)),
{
    let mut i: usize = 0;
    while i < v.len()
        invariant
            v@ == old(v)@,
            i <= v@.len(),
            forall|k: int| 0 <= k < i ==> v@[k].0 != from,
        decreases v@.len() - i,
    {
        if v[i].0 == from {
            let x = v[i].1;
            v.set(i, (to, x));
            assert(v@ == old(v)@.update(i as int, (to, old(v)@[i as int].1)));
            return;
        }
        i = i + 1;
    }
}

impl Function {
    /// Whether the fragment `l` names has several predecessors.
    fn crowded(&self, l: Label) -> (b: bool)
        ensures
            b == (self.has(l) && self.frag(l)->0.predecessors@.len() > 1),
    {
        match self.get(l) {
            Some(x) => x.predecessors.len() > 1,
            None => false,
        }
    }

    /// Puts a trampoline on the edge from `from` to `target`: a new
    /// fragment that jumps to `target`, which sees it in place of `from`.
    fn detour(&mut self, from: Label, target: Label) -> (t: Label)
        requires
            old(self).wf(),
            old(self).has(from),
            old(self).has(target),
            old(self).blocks@.len() + 1 < usize::MAX,
        ensures
            final(self).wf(),
            final(self).vars == old(self).vars,
            final(self).args == old(self).args,
            t == label_of(old(self).blocks@.len() as int),
            final(self).blocks@.len() == old(self).blocks@.len() + 1,
            final(self).blocks@.last() matches Some(x) && trampoline(x) && x.terminator == Some(Terminator::Jump(target))
                && x.predecessors@ == seq![from],
            forall|s: int|
                0 <= s < old(self).blocks@.len() && s != slot_of(target) ==> #[trigger] final(self).blocks@[s] == old(self).blocks@[s],
            final(self).blocks@[slot_of(target)] matches Some(x) && relabeled(old(self).frag(target)->0, x, from, t),
    {
        let n = self.blocks.len();
        let t = label_at(n);
        let mut preds: Vec<Label> = Vec::new();
        preds.push(from);
        let tramp = Fragment { phis: Vec::new(), instructions: Vec::new(), terminator: Some(Terminator::Jump(target)), predecessors: preds };
        let ts = match target {
            Label::Entry => 0,
            Label::Exit => 1,
            Label::Id(i) => i + 2,
        };
        let mut slot_frag: Option<Fragment> = None;
        std::mem::swap(&mut slot_frag, &mut self.blocks[ts]);
        let mut x = slot_frag.unwrap();
        let ghost a = x;
        replace_first(&mut x.predecessors, from, t);
        let mut k: usize = 0;
        while k < x.phis.len()
            invariant
                k <= x.phis@.len(),
                x.phis@.len() == a.phis@.len(),
                forall|i: int|
                    0 <= i < k ==> {
                        &&& (#[trigger] x.phis@[i]).var == a.phis@[i].var
                        &&& x.phis@[i].inputs@.len() == a.phis@[i].inputs@.len()
                        &&& forall|j: int|
                            0 <= j < a.phis@[i].inputs@.len() ==> #[trigger] x.phis@[i].inputs@[j] == a.phis@[i].inputs@[j] || (
                            a.phis@[i].inputs@[j].0 == from && x.phis@[i].inputs@[j] == (t, a.phis@[i].inputs@[j].1))
                    },
                forall|i: int| k <= i < x.phis@.len() ==> #[trigger] x.phis@[i] == a.phis@[i],
                x.instructions == a.instructions,
                x.terminator == a.terminator,
                x.predecessors@.len() == a.predecessors@.len(),
                forall|j: int| 0 <= j < a.predecessors@.len() ==> #[trigger] x.predecessors@[j] == a.predecessors@[j] || (a.predecessors@[j] == from && x.predecessors@[j] == t),
            decreases a.phis@.len() - k,
        {
            let ghost before = x.phis@;
            relabel_first(&mut x.phis[k].inputs, from, t);
            proof {
                assert forall|i: int| 0 <= i < x.phis@.len() && i != k implies #[trigger] x.phis@[i] == before[i] by {}
            }
            k = k + 1;
        }
        assert(relabeled(a, x, from, t));
        self.blocks[ts] = Some(x);
        self.blocks.push(Some(tramp));
        proof {
            let f0 = *old(self);
            let g = *self;
            assert(f0.frag_ok(a));
            assert forall|s: int| 0 <= s < g.blocks@.len() && #[trigger] g.blocks@[s] is Some implies g.frag_ok(g.blocks@[s]->0) by {
                assert forall|l: Label| f0.has(l) implies #[trigger] g.has(l) by {
                    if slot_of(l) == ts {
                    } else {
                        assert(g.blocks@[slot_of(l)] == f0.blocks@[slot_of(l)]);
                    }
                }
                assert(g.has(t));
                let b = g.blocks@[s]->0;
                if s == n {
                    assert(b == tramp);
                    assert(b.terminator->0.targets()[0] == target);
                    assert(b.predecessors@[0] == from);
                } else if s == ts {
                    assert(b == x);
                    assert forall|k: int| 0 <= k < b.predecessors@.len() implies g.has(#[trigger] b.predecessors@[k]) by {
                        if b.predecessors@[k] != t {
                            assert(b.predecessors@[k] == a.predecessors@[k]);
                            assert(f0.has(a.predecessors@[k]));
                        }
                    }
                    assert forall|k: int| 0 <= k < b.phis@.len() implies {
                        &&& (#[trigger] b.phis@[k]).var < g.vars
                        &&& forall|j: int| 0 <= j < b.phis@[k].inputs@.len() ==> (#[trigger] b.phis@[k].inputs@[j]).1 < g.vars
                    } by {
                        assert forall|j: int| 0 <= j < b.phis@[k].inputs@.len() implies (#[trigger] b.phis@[k].inputs@[j]).1 < g.vars by {
                            assert(b.phis@[k].inputs@[j].1 == a.phis@[k].inputs@[j].1);
                        }
                    }
                    let tt = b.terminator->0;
                    assert forall|k: int| 0 <= k < tt.targets().len() implies g.has(#[trigger] tt.targets()[k]) by {
                        assert(f0.has(tt.targets()[k]));
                    }
                } else {
                    assert(b == f0.blocks@[s]->0);
                    assert(f0.frag_ok(b));
                    let tt = b.terminator->0;
                    assert forall|k: int| 0 <= k < tt.targets().len() implies g.has(#[trigger] tt.targets()[k]) by {
                        assert(f0.has(tt.targets()[k]));
                    }
                    assert forall|k: int| 0 <= k < b.predecessors@.len() implies g.has(#[trigger] b.predecessors@[k]) by {
                        assert(f0.has(b.predecessors@[k]));
                    }
                }
            }
        }
        t
    }

    /// Sets the terminator of the fragment at slot `s`.
    fn set_terminator(&mut self, s: usize, t: Terminator)
        requires
            s < old(self).blocks@.len(),
            old(self).blocks@[s as int] is Some,
        ensures
            final(self).vars == old(self).vars,
            final(self).args == old(self).args,
            final(self).blocks@.len() == old(self).blocks@.len(),
            forall|q: int| 0 <= q < old(self).blocks@.len() && q != s ==> #[trigger] final(self).blocks@[q] == old(self).blocks@[q],
            final(self).blocks@[s as int] matches Some(x) && x.terminator == Some(t) && x.phis == old(self).blocks@[s as int]->0.phis
                && x.instructions == old(self).blocks@[s as int]->0.instructions
                && x.predecessors == old(self).blocks@[s as int]->0.predecessors,
    {
        let mut slot_frag: Option<Fragment> = None;
        std::mem::swap(&mut slot_frag, &mut self.blocks[s]);
        let mut x = slot_frag.unwrap();
        x.terminator = Some(t);
        self.blocks[s] = Some(x);
    }

    /// Puts a trampoline on the edge from the branch at slot `s` to
    /// `target`, and sends that side of the branch to it.
    fn reroute(&mut self, s: usize, target: Label) -> (t: Label)
        requires
            old(self).wf(),
            s < old(self).blocks@.len(),
            old(self).blocks@[s as int] matches Some(x) && x.terminator matches Some(Terminator::Branch(_, y, z)) && (y == target
                || z == target),
            old(self).blocks@.len() + 1 < usize::MAX,
        ensures
            final(self).wf(),
            final(self).vars == old(self).vars,
            final(self).args == old(self).args,
            t == label_of(old(self).blocks@.len() as int),
            final(self).blocks@.len() == old(self).blocks@.len() + 1,
            final(self).blocks@.last() matches Some(x) && trampoline(x) && x.terminator == Some(Terminator::Jump(target))
                && x.predecessors@ == seq![label_of(s as int)],
            forall|q: int|
                0 <= q < old(self).blocks@.len() && q != s && q != slot_of(target) ==> #[trigger] final(self).blocks@[q]
                    == old(self).blocks@[q],
            forall|q: int|
                0 <= q < old(self).blocks@.len() && #[trigger] old(self).blocks@[q] is Some ==> (final(self).blocks@[q] matches Some(
                    b,
                ) && body_relabeled(old(self).blocks@[q]->0, b, label_of(s as int), t)),
            forall|q: int|
                0 <= q < old(self).blocks@.len() ==> (#[trigger] final(self).blocks@[q] is Some <==> old(self).blocks@[q] is Some),
            forall|q: int|
                0 <= q < old(self).blocks@.len() && #[trigger] final(self).blocks@[q] is Some ==> final(self).blocks@[q]->0.predecessors@.len()
                    == old(self).blocks@[q]->0.predecessors@.len() && (q != s ==> final(self).blocks@[q]->0.terminator
                    == old(self).blocks@[q]->0.terminator),
            old(self).blocks@[s as int]->0.terminator matches Some(Terminator::Branch(c, y, z)) && final(self).blocks@[s as int]->0.terminator
                == Some(if y == target { Terminator::Branch(c, t, z) } else { Terminator::Branch(c, y, t) }),
    {
        let ghost f0 = *self;
        let label = label_at(s);
        let (c, y, z) = match &self.blocks[s] {
            Some(x) => match x.terminator {
                Some(Terminator::Branch(c, y, z)) => (c, y, z),
                _ => (0, target, target),
            },
            None => (0, target, target),
        };
        proof {
            let x = f0.blocks@[s as int]->0;
            assert(f0.frag_ok(x));
            assert(x.terminator->0.targets()[0] == y && x.terminator->0.targets()[1] == z);
            assert(f0.frag(label) == f0.blocks@[s as int]);
        }
        let t = self.detour(label, target);
        let ghost f1 = *self;
        let nt = if y == target {
            Terminator::Branch(c, t, z)
        } else {
            Terminator::Branch(c, y, t)
        };
        self.set_terminator(s, nt);
        proof {
            let g = *self;
            crate::ir::lemma_slot_label(target);
            crate::ir::lemma_label_slot(f0.blocks@.len() as int);
            assert forall|l: Label| f1.has(l) implies #[trigger] g.has(l) by {
                assert(g.blocks@[slot_of(l)] is Some);
            }
            assert forall|q: int| 0 <= q < g.blocks@.len() && #[trigger] g.blocks@[q] is Some implies g.frag_ok(g.blocks@[q]->0) by {
                let b = g.blocks@[q]->0;
                if q == s {
                    let a = f1.blocks@[q]->0;
                    assert(f1.frag_ok(a));
                    assert(f0.frag_ok(f0.blocks@[q]->0));
                    assert(f1.has(t));
                    assert(f1.has(y) && f1.has(z)) by {
                        assert(f0.has(y) && f0.has(z));
                        assert(f1.blocks@[slot_of(y)] is Some);
                        assert(f1.blocks@[slot_of(z)] is Some);
                    }
                    let tt = b.terminator->0;
                    assert forall|k: int| 0 <= k < tt.targets().len() implies g.has(#[trigger] tt.targets()[k]) by {}
                    assert forall|k: int| 0 <= k < tt.reads().len() implies #[trigger] tt.reads()[k] < g.vars by {
                        assert(f0.blocks@[q]->0.terminator->0.reads()[0] == c);
                    }
                    assert forall|k: int| 0 <= k < b.predecessors@.len() implies g.has(#[trigger] b.predecessors@[k]) by {
                        assert(f1.has(a.predecessors@[k]));
                    }
                } else {
                    assert(b == f1.blocks@[q]->0);
                    assert(f1.frag_ok(b));
                    let tt = b.terminator->0;
                    assert forall|k: int| 0 <= k < tt.targets().len() implies g.has(#[trigger] tt.targets()[k]) by {
                        assert(f1.has(tt.targets()[k]));
                    }
                    assert forall|k: int| 0 <= k < b.predecessors@.len() implies g.has(#[trigger] b.predecessors@[k]) by {
                        assert(f1.has(b.predecessors@[k]));
                    }
                }
            }
        }
        t
    }

}

/// The label `b` stands for the target `a`: it is `a`, or a trampoline
/// added after the first `n` slots that jumps to `a`.
pub open spec fn hop(g: Function, n: int, b: Label, a: Label) -> bool {
    ||| b == a
    ||| slot_of(b) >= n && (g.frag(b) matches Some(x) && trampoline(x) && x.terminator == Some(Terminator::Jump(a)))
}

/// The label `b` stands for the predecessor `a`: it is `a`, or a trampoline
/// added after the first `n` slots that only `a` enters.
pub open spec fn back(g: Function, n: int, b: Label, a: Label) -> bool {
    ||| b == a
    ||| slot_of(b) >= n && (g.frag(b) matches Some(x) && trampoline(x) && x.predecessors@ == seq![a])
}

/// The phis, instructions and predecessors of `b` are those of `a`, with
/// trampolines of `g` standing for some predecessors.
pub open spec fn body_detoured(g: Function, n: int, a: Fragment, b: Fragment) -> bool {
    &&& b.instructions == a.instructions
    &&& b.phis@.len() == a.phis@.len()
    &&& forall|i: int|
        0 <= i < a.phis@.len() ==> {
            &&& (#[trigger] b.phis@[i]).var == a.phis@[i].var
            &&& b.phis@[i].inputs@.len() == a.phis@[i].inputs@.len()
            &&& forall|j: int|
                0 <= j < a.phis@[i].inputs@.len() ==> (#[trigger] b.phis@[i].inputs@[j]).1 == a.phis@[i].inputs@[j].1
                    && back(g, n, b.phis@[i].inputs@[j].0, a.phis@[i].inputs@[j].0)
        }
    &&& b.predecessors@.len() == a.predecessors@.len()
    &&& forall|j: int| 0 <= j < a.predecessors@.len() ==> back(g, n, #[trigger] b.predecessors@[j], a.predecessors@[j])
}

/// The terminator of `b` is that of `a`, with trampolines of `g` standing
/// for some targets of a branch.
pub open spec fn term_detoured(g: Function, n: int, a: Fragment, b: Fragment) -> bool {
    match a.terminator {
        Some(Terminator::Branch(c, y, z)) => (b.terminator matches Some(Terminator::Branch(c2, y2, z2)) && c2 == c && hop(
            g,
            n,
            y2,
            y,
        ) && hop(g, n, z2, z)),
        _ => b.terminator == a.terminator,
    }
}

/// `b` is the fragment `a` with trampolines of `g` put on some of its edges.
pub open spec fn detoured(g: Function, n: int, a: Fragment, b: Fragment) -> bool {
    body_detoured(g, n, a, b) && term_detoured(g, n, a, b)
}

/// `g1` keeps the slots of `g0` from `n` on.
pub open spec fn keeps_tail(g0: Function, g1: Function, n: int) -> bool {
    &&& g1.blocks@.len() >= g0.blocks@.len()
    &&& forall|q: int| n <= q < g0.blocks@.len() ==> #[trigger] g1.blocks@[q] == g0.blocks@[q]
}

proof fn lemma_hop_grow(g0: Function, g1: Function, n: int, b: Label, a: Label)
    requires
        keeps_tail(g0, g1, n),
        hop(g0, n, b, a),
    ensures
        hop(g1, n, b, a),
{
    if b != a {
        assert(g1.blocks@[slot_of(b)] == g0.blocks@[slot_of(b)]);
    }
}

proof fn lemma_back_grow(g0: Function, g1: Function, n: int, b: Label, a: Label)
    requires
        keeps_tail(g0, g1, n),
        back(g0, n, b, a),
    ensures
        back(g1, n, b, a),
{
    if b != a {
        assert(g1.blocks@[slot_of(b)] == g0.blocks@[slot_of(b)]);
    }
}

proof fn lemma_term_grow(g0: Function, g1: Function, n: int, a: Fragment, b: Fragment)
    requires
        keeps_tail(g0, g1, n),
        term_detoured(g0, n, a, b),
    ensures
        term_detoured(g1, n, a, b),
{
    if let Some(Terminator::Branch(c, y, z)) = a.terminator {
        if let Some(Terminator::Branch(c2, y2, z2)) = b.terminator {
            lemma_hop_grow(g0, g1, n, y2, y);
            lemma_hop_grow(g0, g1, n, z2, z);
        }
    }
}

/// Putting one more trampoline, from `from`, in front of `b` keeps what
/// `b` stands for.
proof fn lemma_body_step(g0: Function, g1: Function, n: int, a: Fragment, b0: Fragment, b1: Fragment, from: Label, t: Label)
    requires
        keeps_tail(g0, g1, n),
        body_detoured(g0, n, a, b0),
        body_relabeled(b0, b1, from, t),
        slot_of(from) < n,
        slot_of(t) >= n,
        g1.frag(t) matches Some(x) && trampoline(x) && x.predecessors@ == seq![from],
    ensures
        body_detoured(g1, n, a, b1),
{
    assert forall|j: int| 0 <= j < a.predecessors@.len() implies back(g1, n, #[trigger] b1.predecessors@[j], a.predecessors@[j]) by {
        assert(back(g0, n, b0.predecessors@[j], a.predecessors@[j]));
        lemma_back_grow(g0, g1, n, b0.predecessors@[j], a.predecessors@[j]);
    }
    assert forall|i: int| 0 <= i < a.phis@.len() implies {
        &&& (#[trigger] b1.phis@[i]).var == a.phis@[i].var
        &&& b1.phis@[i].inputs@.len() == a.phis@[i].inputs@.len()
        &&& forall|j: int|
            0 <= j < a.phis@[i].inputs@.len() ==> (#[trigger] b1.phis@[i].inputs@[j]).1 == a.phis@[i].inputs@[j].1
                && back(g1, n, b1.phis@[i].inputs@[j].0, a.phis@[i].inputs@[j].0)
    } by {
        assert(b0.phis@[i].var == a.phis@[i].var);
        assert forall|j: int| 0 <= j < a.phis@[i].inputs@.len() implies (#[trigger] b1.phis@[i].inputs@[j]).1 == a.phis@[i].inputs@[j].1
            && back(g1, n, b1.phis@[i].inputs@[j].0, a.phis@[i].inputs@[j].0) by {
            assert(b0.phis@[i].inputs@[j].1 == a.phis@[i].inputs@[j].1);
            assert(back(g0, n, b0.phis@[i].inputs@[j].0, a.phis@[i].inputs@[j].0));
            lemma_back_grow(g0, g1, n, b0.phis@[i].inputs@[j].0, a.phis@[i].inputs@[j].0);
        }
    }
}

impl Function {
    /// Splits the critical edges: an edge from a branch to a fragment with
    /// several predecessors gets a trampoline of its own, so that copies
    /// placed at the end of a predecessor only run on their edge.
    #[verifier::rlimit(40)]
    pub fn split(&mut self)
        requires
            old(self).wf(),
            3 * old(self).blocks@.len() < usize::MAX,
        ensures
            final(self).wf(),
            final(self).vars == old(self).vars,
            final(self).args == old(self).args,
            old(self).blocks@.len() <= final(self).blocks@.len() <= 3 * old(self).blocks@.len(),
            forall|s: int| 0 <= s < old(self).blocks@.len() ==> (#[trigger] final(self).blocks@[s] is Some <==> old(self).blocks@[s] is Some),
            forall|s: int|
                old(self).blocks@.len() <= s < final(self).blocks@.len() ==> (#[trigger] final(self).blocks@[s] matches Some(x)
                    && trampoline(x)),
            forall|s: int|
                0 <= s < old(self).blocks@.len() && #[trigger] old(self).blocks@[s] is Some ==> (final(self).blocks@[s] matches Some(
                    b,
                ) && detoured(*final(self), old(self).blocks@.len() as int, old(self).blocks@[s]->0, b)),
            no_critical_edge(*final(self)),
    {
        let n = self.blocks.len();
        let ghost f0 = *self;
        proof {
            assert forall|q: int| 0 <= q < n && #[trigger] f0.blocks@[q] is Some implies (self.blocks@[q] matches Some(b) && detoured(
                *self,
                n as int,
                f0.blocks@[q]->0,
                b,
            )) by {
                let a = f0.blocks@[q]->0;
                assert forall|i: int| 0 <= i < a.phis@.len() implies {
                    &&& (#[trigger] a.phis@[i]).var == a.phis@[i].var
                    &&& a.phis@[i].inputs@.len() == a.phis@[i].inputs@.len()
                    &&& forall|j: int|
                        0 <= j < a.phis@[i].inputs@.len() ==> (#[trigger] a.phis@[i].inputs@[j]).1 == a.phis@[i].inputs@[j].1
                            && back(*self, n as int, a.phis@[i].inputs@[j].0, a.phis@[i].inputs@[j].0)
                } by {}
            }
        }
        let mut s: usize = 0;
        while s < n
            invariant
                f0 == *old(self),
                n == f0.blocks@.len(),
                3 * n < usize::MAX,
                s <= n,
                self.wf(),
                self.vars == f0.vars,
                self.args == f0.args,
                n <= self.blocks@.len() <= n + 2 * s,
                forall|t: int| 0 <= t < n ==> (#[trigger] self.blocks@[t] is Some <==> f0.blocks@[t] is Some),
                forall|t: int| s <= t < n && #[trigger] self.blocks@[t] is Some ==> self.blocks@[t]->0.terminator == f0.blocks@[t]->0.terminator,
                forall|t: int| n <= t < self.blocks@.len() ==> (#[trigger] self.blocks@[t] matches Some(x) && trampoline(x)),
                forall|t: int|
                    0 <= t < s && #[trigger] self.blocks@[t] is Some ==> (self.blocks@[t]->0.terminator matches Some(
                        Terminator::Branch(_, y, z),
                    ) ==> self.frag(y)->0.predecessors@.len() <= 1 && self.frag(z)->0.predecessors@.len() <= 1),
                forall|q: int|
                    0 <= q < n && #[trigger] f0.blocks@[q] is Some ==> (self.blocks@[q] matches Some(b) && detoured(
                        *self,
                        n as int,
                        f0.blocks@[q]->0,
                        b,
                    )),
            decreases n - s,
        {
            let term = match &self.blocks[s] {
                Some(x) => x.terminator,
                None => None,
            };
            if let Some(Terminator::Branch(c, y, z)) = term {
                let ghost g0 = *self;
                proof {
                    assert(g0.frag_ok(g0.blocks@[s as int]->0));
                    assert(term->0.targets()[0] == y && term->0.targets()[1] == z);
                }
                let mut y2 = y;
                if self.crowded(y) {
                    y2 = self.reroute(s, y);
                    proof {
                        lemma_reroute_keeps(f0, g0, *self, n as int, s as int, y);
                        lemma_reroute_detours(f0, g0, *self, n as int, s as int, y, y2);
                    }
                }
                let ghost g1 = *self;
                proof {
                    assert(g1.has(z)) by {
                        assert(g0.has(z));
                        assert(g1.blocks@[slot_of(z)] is Some);
                    }
                }
                if self.crowded(z) {
                    let z2 = self.reroute(s, z);
                    proof {
                        lemma_reroute_keeps(f0, g1, *self, n as int, s as int, z);
                        lemma_reroute_detours(f0, g1, *self, n as int, s as int, z, z2);
                    }
                }
                proof {
                    let g = *self;
                    let b = g.blocks@[s as int]->0;
                    if let Some(Terminator::Branch(_, yy, zz)) = b.terminator {
                        crate::ir::lemma_slot_label(yy);
                        crate::ir::lemma_slot_label(zz);
                        assert(g.frag(yy)->0.predecessors@.len() <= 1);
                        assert(g.frag(zz)->0.predecessors@.len() <= 1);
                    }
                }
            }
            s = s + 1;
        }
    }
}

/// A reroute at slot `s` keeps every fragment standing for the original.
proof fn lemma_reroute_detours(f0: Function, g0: Function, g1: Function, n: int, s: int, target: Label, t: Label)
    requires
        n == f0.blocks@.len(),
        0 <= s < n,
        slot_of(target) < n,
        n <= g0.blocks@.len(),
        g0.blocks@.len() < usize::MAX,
        t == label_of(g0.blocks@.len() as int),
        g1.blocks@.len() == g0.blocks@.len() + 1,
        g0.blocks@[s]->0.terminator matches Some(Terminator::Branch(_, y, z)) && (y == target || z == target),
        g1.blocks@.last() matches Some(x) && trampoline(x) && x.terminator == Some(Terminator::Jump(target))
            && x.predecessors@ == seq![label_of(s)],
        forall|q: int| 0 <= q < g0.blocks@.len() && q != s && q != slot_of(target) ==> #[trigger] g1.blocks@[q] == g0.blocks@[q],
        forall|q: int|
            0 <= q < g0.blocks@.len() && #[trigger] g0.blocks@[q] is Some ==> (g1.blocks@[q] matches Some(b) && body_relabeled(
                g0.blocks@[q]->0,
                b,
                label_of(s),
                t,
            )),
        forall|q: int|
            0 <= q < g0.blocks@.len() && #[trigger] g1.blocks@[q] is Some ==> (q != s ==> g1.blocks@[q]->0.terminator
                == g0.blocks@[q]->0.terminator),
        g0.blocks@[s]->0.terminator matches Some(Terminator::Branch(c, y, z)) && g1.blocks@[s]->0.terminator == Some(
            if y == target {
                Terminator::Branch(c, t, z)
            } else {
                Terminator::Branch(c, y, t)
            },
        ),
        forall|q: int| 0 <= q < n ==> (#[trigger] g0.blocks@[q] is Some <==> f0.blocks@[q] is Some),
        forall|q: int|
            0 <= q < n && #[trigger] f0.blocks@[q] is Some ==> (g0.blocks@[q] matches Some(b) && detoured(g0, n, f0.blocks@[q]->0, b)),
    ensures
        forall|q: int|
            0 <= q < n && #[trigger] f0.blocks@[q] is Some ==> (g1.blocks@[q] matches Some(b) && detoured(g1, n, f0.blocks@[q]->0, b)),
{
    crate::ir::lemma_label_slot(g0.blocks@.len() as int);
    crate::ir::lemma_label_slot(s);
    assert(keeps_tail(g0, g1, n));
    assert(g1.frag(t) == g1.blocks@.last());
    assert forall|q: int|
        0 <= q < n && #[trigger] f0.blocks@[q] is Some implies (g1.blocks@[q] matches Some(b) && detoured(g1, n, f0.blocks@[q]->0, b)) by {
        let a = f0.blocks@[q]->0;
        let b0 = g0.blocks@[q]->0;
        let b1 = g1.blocks@[q]->0;
        assert(g0.blocks@[q] is Some);
        assert(body_relabeled(b0, b1, label_of(s), t));
        lemma_body_step(g0, g1, n, a, b0, b1, label_of(s), t);
        if q != s {
            lemma_term_grow(g0, g1, n, a, b0);
        } else {
            if let Some(Terminator::Branch(c, y, z)) = a.terminator {
                if let Some(Terminator::Branch(c0, y0, z0)) = b0.terminator {
                    lemma_hop_grow(g0, g1, n, y0, y);
                    lemma_hop_grow(g0, g1, n, z0, z);
                    if y0 == target {
                        assert(y0 == y);
                    } else {
                        assert(z0 == target);
                        assert(z0 == z);
                    }
                }
            }
        }
    }
}

/// What a reroute at slot `s` keeps of the invariant of `split`.
proof fn lemma_reroute_keeps(f0: Function, g0: Function, g1: Function, n: int, s: int, target: Label)
    requires
        0 <= s < n,
        n == f0.blocks@.len(),
        g0.wf(),
        g1.wf(),
        n <= g0.blocks@.len(),
        g1.blocks@.len() == g0.blocks@.len() + 1,
        slot_of(target) < n,
        g1.blocks@.last() matches Some(x) && trampoline(x),
        forall|q: int| 0 <= q < g0.blocks@.len() && q != s && q != slot_of(target) ==> #[trigger] g1.blocks@[q] == g0.blocks@[q],
        forall|q: int| 0 <= q < g0.blocks@.len() ==> (#[trigger] g1.blocks@[q] is Some <==> g0.blocks@[q] is Some),
        forall|q: int|
            0 <= q < g0.blocks@.len() && #[trigger] g1.blocks@[q] is Some ==> g1.blocks@[q]->0.predecessors@.len()
                == g0.blocks@[q]->0.predecessors@.len() && (q != s ==> g1.blocks@[q]->0.terminator == g0.blocks@[q]->0.terminator),
        forall|t: int| 0 <= t < n ==> (#[trigger] g0.blocks@[t] is Some <==> f0.blocks@[t] is Some),
        forall|t: int| s < t < n && #[trigger] g0.blocks@[t] is Some ==> g0.blocks@[t]->0.terminator == f0.blocks@[t]->0.terminator,
        forall|t: int| n <= t < g0.blocks@.len() ==> (#[trigger] g0.blocks@[t] matches Some(x) && trampoline(x)),
        forall|t: int|
            0 <= t < s && #[trigger] g0.blocks@[t] is Some ==> (g0.blocks@[t]->0.terminator matches Some(
                Terminator::Branch(_, y, z),
            ) ==> g0.frag(y)->0.predecessors@.len() <= 1 && g0.frag(z)->0.predecessors@.len() <= 1),
    ensures
        forall|t: int| 0 <= t < n ==> (#[trigger] g1.blocks@[t] is Some <==> f0.blocks@[t] is Some),
        forall|t: int| s < t < n && #[trigger] g1.blocks@[t] is Some ==> g1.blocks@[t]->0.terminator == f0.blocks@[t]->0.terminator,
        forall|t: int| n <= t < g1.blocks@.len() ==> (#[trigger] g1.blocks@[t] matches Some(x) && trampoline(x)),
        forall|t: int|
            0 <= t < s && #[trigger] g1.blocks@[t] is Some ==> (g1.blocks@[t]->0.terminator matches Some(
                Terminator::Branch(_, y, z),
            ) ==> g1.frag(y)->0.predecessors@.len() <= 1 && g1.frag(z)->0.predecessors@.len() <= 1),
        forall|l: Label| g0.has(l) ==> #[trigger] g1.has(l) && g1.frag(l)->0.predecessors@.len() == g0.frag(l)->0.predecessors@.len(),
{
    assert forall|l: Label| g0.has(l) implies #[trigger] g1.has(l) && g1.frag(l)->0.predecessors@.len() == g0.frag(l)->0.predecessors@.len() by {
        assert(g1.blocks@[slot_of(l)] is Some);
    }
    assert forall|t: int| n <= t < g1.blocks@.len() implies (#[trigger] g1.blocks@[t] matches Some(x) && trampoline(x)) by {
        if t < g0.blocks@.len() {
            assert(g1.blocks@[t] == g0.blocks@[t]);
        }
    }
    assert forall|t: int|
        0 <= t < s && #[trigger] g1.blocks@[t] is Some implies (g1.blocks@[t]->0.terminator matches Some(
            Terminator::Branch(_, y, z),
        ) ==> g1.frag(y)->0.predecessors@.len() <= 1 && g1.frag(z)->0.predecessors@.len() <= 1) by {
        assert(g1.blocks@[t]->0.terminator == g0.blocks@[t]->0.terminator);
        if let Some(Terminator::Branch(_, y, z)) = g0.blocks@[t]->0.terminator {
            assert(g0.frag_ok(g0.blocks@[t]->0));
            assert(g0.blocks@[t]->0.terminator->0.targets()[0] == y);
            assert(g0.blocks@[t]->0.terminator->0.targets()[1] == z);
            assert(g0.has(y) && g0.has(z));
        }
    }
}


/// `c` copies into the variable of a phi the input that comes from `l`.
pub open spec fn edge_copy(f: Function, l: Label, c: crate::copies::Copy) -> bool {
    exists|t: int, k: int, j: int|
        0 <= t < f.blocks@.len() && f.blocks@[t] is Some && 0 <= k < f.blocks@[t]->0.phis@.len() && 0 <= j
            < f.blocks@[t]->0.phis@[k].inputs@.len() && #[trigger] f.blocks@[t]->0.phis@[k].inputs@[j] == (l, c.1)
            && f.blocks@[t]->0.phis@[k].var == c.0
}

/// `cs` runs, on every variable below `bound`, like the parallel copy of
/// every phi input that comes from `l`.
pub open spec fn copies_for(f: Function, l: Label, cs: Seq<crate::copies::Copy>, bound: int) -> bool {
    exists|g: Seq<crate::copies::Copy>|
        {
            &&& distinct(g)
            &&& forall|i: int| 0 <= i < g.len() ==> edge_copy(f, l, #[trigger] g[i])
            &&& forall|t: int, k: int, j: int|
                0 <= t < f.blocks@.len() && f.blocks@[t] is Some && 0 <= k < f.blocks@[t]->0.phis@.len() && 0 <= j
                    < f.blocks@[t]->0.phis@[k].inputs@.len() && (#[trigger] f.blocks@[t]->0.phis@[k].inputs@[j]).0 == l
                    ==> g.contains(
                    crate::copies::Copy(f.blocks@[t]->0.phis@[k].var, f.blocks@[t]->0.phis@[k].inputs@[j].1),
                )
            &&& forall|st: State, x: Var| x < bound ==> #[trigger] in_order(cs, st, x) == at_once(g, st, x)
        }
}

/// Whether no two copies write the same variable, computed.
fn distinct_dsts(cs: &Vec<crate::copies::Copy>) -> (b: bool)
    ensures
        b == distinct(cs@),
{
    let mut i: usize = 0;
    while i < cs.len()
        invariant
            i <= cs@.len(),
            forall|a: int, c: int| 0 <= a < i && 0 <= c < cs@.len() && a != c ==> (#[trigger] cs@[a]).0 != (#[trigger] cs@[c]).0,
        decreases cs@.len() - i,
    {
        let mut j: usize = 0;
        while j < cs.len()
            invariant
                i < cs@.len(),
                j <= cs@.len(),
                forall|a: int, c: int| 0 <= a < i && 0 <= c < cs@.len() && a != c ==> (#[trigger] cs@[a]).0 != (#[trigger] cs@[c]).0,
                forall|c: int| 0 <= c < j && c != i ==> cs@[i as int].0 != (#[trigger] cs@[c]).0,
            decreases cs@.len() - j,
        {
            if j != i && cs[i].0 == cs[j].0 {
                return false;
            }
            j = j + 1;
        }
        i = i + 1;
    }
    true
}

/// The copies that the first `j` inputs of a phi defining `var` make on the
/// edges leaving `l`, in order.
pub open spec fn input_copies(var: Var, inputs: Seq<(Label, Var)>, l: Label, j: int) -> Seq<crate::copies::Copy>
    decreases j,
{
    if j <= 0 {
        Seq::empty()
    } else {
        input_copies(var, inputs, l, j - 1) + if inputs[j - 1].0 == l {
            seq![crate::copies::Copy(var, inputs[j - 1].1)]
        } else {
            Seq::empty()
        }
    }
}

/// The copies that the first `k` phis of a fragment make on the edges
/// leaving `l`, in order.
pub open spec fn phi_list_copies(phis: Seq<Phi>, l: Label, k: int) -> Seq<crate::copies::Copy>
    decreases k,
{
    if k <= 0 {
        Seq::empty()
    } else {
        phi_list_copies(phis, l, k - 1) + input_copies(phis[k - 1].var, phis[k - 1].inputs@, l, phis[k - 1].inputs@.len() as int)
    }
}

/// The copies that the phis of the fragments in the first `t` slots of `f`
/// make on the edges leaving `l`, in order.
pub open spec fn edge_copies(f: Function, l: Label, t: int) -> Seq<crate::copies::Copy>
    decreases t,
{
    if t <= 0 {
        Seq::empty()
    } else {
        edge_copies(f, l, t - 1) + match f.blocks@[t - 1] {
            Some(x) => phi_list_copies(x.phis@, l, x.phis@.len() as int),
            None => Seq::empty(),
        }
    }
}

/// `b` is `a` with its critical edges split and temporaries added for the
/// copies: every fragment of `a` stays in its slot with its edges detoured
/// through the trampolines added after them, and no critical edge is left.
pub open spec fn prepared(a: Function, b: Function) -> bool {
    &&& b.wf()
    &&& b.vars >= a.vars
    &&& b.args == a.args
    &&& a.blocks@.len() <= b.blocks@.len() <= 3 * a.blocks@.len()
    &&& forall|s: int| 0 <= s < a.blocks@.len() ==> (#[trigger] b.blocks@[s] is Some <==> a.blocks@[s] is Some)
    &&& forall|s: int| a.blocks@.len() <= s < b.blocks@.len() ==> (#[trigger] b.blocks@[s] matches Some(x) && trampoline(x))
    &&& forall|s: int|
        0 <= s < a.blocks@.len() && #[trigger] a.blocks@[s] is Some ==> (b.blocks@[s] matches Some(y) && detoured(
            b,
            a.blocks@.len() as int,
            a.blocks@[s]->0,
            y,
        ))
    &&& no_critical_edge(b)
}

/// The copies for the edges leaving the fragment in slot `p` write one
/// variable twice, or leave no variable for a temporary.
pub open spec fn copies_clash(f: Function, p: int) -> bool {
    let cs = edge_copies(f, label_of(p), f.blocks@.len() as int);
    !distinct(cs) || cs.len() + f.vars > usize::MAX
}

impl Function {
    /// The copies that resolve, on the edges leaving `l`, the phis they
    /// enter: one per phi input that comes from `l`.
    fn phi_copies(&self, l: Label) -> (cs: Vec<crate::copies::Copy>)
        requires
            self.wf(),
        ensures
            forall|i: int| 0 <= i < cs@.len() ==> edge_copy(*self, l, #[trigger] cs@[i]),
            forall|t: int, k: int, j: int|
                0 <= t < self.blocks@.len() && self.blocks@[t] is Some && 0 <= k < self.blocks@[t]->0.phis@.len() && 0 <= j
                    < self.blocks@[t]->0.phis@[k].inputs@.len() && (#[trigger] self.blocks@[t]->0.phis@[k].inputs@[j]).0 == l
                    ==> cs@.contains(
                    crate::copies::Copy(self.blocks@[t]->0.phis@[k].var, self.blocks@[t]->0.phis@[k].inputs@[j].1),
                ),
            below(cs@, self.vars as int),
            cs@ == edge_copies(*self, l, self.blocks@.len() as int),
    {
        let mut cs: Vec<crate::copies::Copy> = Vec::new();
        let n = self.blocks.len();
        let mut t: usize = 0;
        while t < n
            invariant
                self.wf(),
                n == self.blocks@.len(),
                t <= n,
                cs@ == edge_copies(*self, l, t as int),
                forall|i: int| 0 <= i < cs@.len() ==> edge_copy(*self, l, #[trigger] cs@[i]),
                below(cs@, self.vars as int),
                forall|t2: int, k: int, j: int|
                    0 <= t2 < t && self.blocks@[t2] is Some && 0 <= k < self.blocks@[t2]->0.phis@.len() && 0 <= j
                        < self.blocks@[t2]->0.phis@[k].inputs@.len() && (#[trigger] self.blocks@[t2]->0.phis@[k].inputs@[j]).0 == l
                        ==> cs@.contains(
                        crate::copies::Copy(self.blocks@[t2]->0.phis@[k].var, self.blocks@[t2]->0.phis@[k].inputs@[j].1),
                    ),
            decreases n - t,
        {
            if let Some(x) = &self.blocks[t] {
                assert(self.frag_ok(*x));
                let mut k: usize = 0;
                while k < x.phis.len()
                    invariant
                        self.wf(),
                        n == self.blocks@.len(),
                        t < n,
                        self.blocks@[t as int] == Some(*x),
                        self.frag_ok(*x),
                        k <= x.phis@.len(),
                        cs@ == edge_copies(*self, l, t as int) + phi_list_copies(x.phis@, l, k as int),
                        forall|i: int| 0 <= i < cs@.len() ==> edge_copy(*self, l, #[trigger] cs@[i]),
                        below(cs@, self.vars as int),
                        forall|t2: int, k2: int, j: int|
                            (0 <= t2 < t || (t2 == t && k2 < k)) && self.blocks@[t2] is Some && 0 <= k2 < self.blocks@[t2]->0.phis@.len() && 0 <= j
                                < self.blocks@[t2]->0.phis@[k2].inputs@.len() && (#[trigger] self.blocks@[t2]->0.phis@[k2].inputs@[j]).0 == l
                                ==> cs@.contains(
                                crate::copies::Copy(self.blocks@[t2]->0.phis@[k2].var, self.blocks@[t2]->0.phis@[k2].inputs@[j].1),
                            ),
                    decreases x.phis@.len() - k,
                {
                    let phi = &x.phis[k];
                    let mut j: usize = 0;
                    while j < phi.inputs.len()
                        invariant
                            self.wf(),
                            n == self.blocks@.len(),
                            t < n,
                            self.blocks@[t as int] == Some(*x),
                            self.frag_ok(*x),
                            k < x.phis@.len(),
                            *phi == x.phis@[k as int],
                            j <= phi.inputs@.len(),
                            cs@ == edge_copies(*self, l, t as int) + phi_list_copies(x.phis@, l, k as int) + input_copies(
                                phi.var,
                                phi.inputs@,
                                l,
                                j as int,
                            ),
                            forall|i: int| 0 <= i < cs@.len() ==> edge_copy(*self, l, #[trigger] cs@[i]),
                            below(cs@, self.vars as int),
                            forall|t2: int, k2: int, j2: int|
                                (0 <= t2 < t || (t2 == t && k2 < k) || (t2 == t && k2 == k && j2 < j)) && self.blocks@[t2] is Some && 0 <= k2 < self.blocks@[t2]->0.phis@.len() && 0 <= j2
                                    < self.blocks@[t2]->0.phis@[k2].inputs@.len() && (#[trigger] self.blocks@[t2]->0.phis@[k2].inputs@[j2]).0 == l
                                    ==> cs@.contains(
                                    crate::copies::Copy(self.blocks@[t2]->0.phis@[k2].var, self.blocks@[t2]->0.phis@[k2].inputs@[j2].1),
                                ),
                        decreases phi.inputs@.len() - j,
                    {
                        let (from, src) = phi.inputs[j];
                        if from == l {
                            let ghost c0 = cs@;
                            let c = crate::copies::Copy(phi.var, src);
                            proof {
                                assert(self.blocks@[t as int]->0.phis@[k as int].inputs@[j as int] == (l, c.1));
                                assert(edge_copy(*self, l, c));
                                assert(phi.inputs@[j as int].1 < self.vars);
                            }
                            cs.push(c);
                            proof {
                                assert forall|i: int| 0 <= i < cs@.len() implies edge_copy(*self, l, #[trigger] cs@[i]) by {
                                    if i < c0.len() {
                                        assert(cs@[i] == c0[i]);
                                    }
                                }
                                assert forall|i: int| 0 <= i < cs@.len() implies (#[trigger] cs@[i]).0 < self.vars && cs@[i].1 < self.vars by {
                                    if i < c0.len() {
                                        assert(cs@[i] == c0[i]);
                                    }
                                }
                                assert forall|t2: int, k2: int, j2: int|
                                    (0 <= t2 < t || (t2 == t && k2 < k) || (t2 == t && k2 == k && j2 < j + 1)) && self.blocks@[t2] is Some && 0 <= k2 < self.blocks@[t2]->0.phis@.len() && 0 <= j2
                                        < self.blocks@[t2]->0.phis@[k2].inputs@.len() && (#[trigger] self.blocks@[t2]->0.phis@[k2].inputs@[j2]).0 == l
                                    implies cs@.contains(
                                        crate::copies::Copy(self.blocks@[t2]->0.phis@[k2].var, self.blocks@[t2]->0.phis@[k2].inputs@[j2].1),
                                    ) by {
                                    if t2 == t && k2 == k && j2 == j {
                                        assert(cs@[c0.len() as int] == c);
                                    } else {
                                        let w = crate::copies::Copy(self.blocks@[t2]->0.phis@[k2].var, self.blocks@[t2]->0.phis@[k2].inputs@[j2].1);
                                        assert(c0.contains(w));
                                        let q = choose|q: int| 0 <= q < c0.len() && c0[q] == w;
                                        assert(cs@[q] == w);
                                    }
                                }
                            }
                        }
                        proof {
                            let head = edge_copies(*self, l, t as int) + phi_list_copies(x.phis@, l, k as int);
                            if from == l {
                                assert(cs@ =~= head + input_copies(phi.var, phi.inputs@, l, j + 1));
                            } else {
                                assert(cs@ =~= head + input_copies(phi.var, phi.inputs@, l, j + 1));
                            }
                        }
                        j = j + 1;
                    }
                    proof {
                        assert(phi.inputs@.len() == j);
                        assert(cs@ =~= edge_copies(*self, l, t as int) + phi_list_copies(x.phis@, l, k + 1));
                    }
                    k = k + 1;
                }
                proof {
                    assert(cs@ =~= edge_copies(*self, l, t + 1));
                }
            } else {
                proof {
                    assert(cs@ =~= edge_copies(*self, l, t + 1));
                }
            }
            t = t + 1;
        }
        cs
    }

    /// The copies that resolve the phis, for each slot: after splitting the
    /// critical edges, the phi inputs that come from a fragment become
    /// copies at its end, ordered so that they run one after the other with
    /// the effect of a parallel copy. Fails when two of those copies write
    /// the same variable, or when no variable is left for a temporary.
    pub fn copies(&mut self) -> (r: Option<Vec<Vec<crate::copies::Copy>>>)
        requires
            old(self).wf(),
            3 * old(self).blocks@.len() < usize::MAX,
        ensures
            prepared(*old(self), *final(self)),
            r is None ==> exists|p: int| 0 <= p < final(self).blocks@.len() && #[trigger] copies_clash(*final(self), p),
            r matches Some(cs) ==> {
                &&& cs@.len() == final(self).blocks@.len()
                &&& forall|p: int| 0 <= p < cs@.len() ==> no_self((#[trigger] cs@[p])@)
                &&& forall|p: int|
                    0 <= p < cs@.len() ==> below((#[trigger] cs@[p])@, final(self).vars as int) && copies_for(
                        *final(self),
                        label_of(p),
                        cs@[p]@,
                        old(self).vars as int,
                    )
            },
    {
        self.split();
        let ghost f1 = *self;
        let n = self.blocks.len();
        let v0 = self.vars;
        let mut all: Vec<Vec<crate::copies::Copy>> = Vec::new();
        let mut p: usize = 0;
        while p < n
            invariant
                self.wf(),
                n == self.blocks@.len(),
                self.blocks == f1.blocks,
                v0 == f1.vars,
                f1.vars == old(self).vars,
                old(self).blocks@.len() <= n <= 3 * old(self).blocks@.len(),
                forall|s: int| 0 <= s < old(self).blocks@.len() ==> (#[trigger] f1.blocks@[s] is Some <==> old(self).blocks@[s] is Some),
                forall|s: int| old(self).blocks@.len() <= s < n ==> (#[trigger] f1.blocks@[s] matches Some(x) && trampoline(x)),
                forall|s: int|
                    0 <= s < old(self).blocks@.len() && #[trigger] old(self).blocks@[s] is Some ==> (f1.blocks@[s] matches Some(b)
                        && detoured(f1, old(self).blocks@.len() as int, old(self).blocks@[s]->0, b)),
                no_critical_edge(f1),
                p <= n,
                v0 <= self.vars,
                self.args == old(self).args,
                all@.len() == p,
                forall|q: int| 0 <= q < p ==> no_self((#[trigger] all@[q])@),
                forall|q: int|
                    0 <= q < p ==> below((#[trigger] all@[q])@, self.vars as int) && copies_for(*self, label_of(q), all@[q]@, v0 as int),
            decreases n - p,
        {
            let l = label_at(p);
            let mut cs = self.phi_copies(l);
            let ghost g = cs@;
            if !distinct_dsts(&cs) || cs.len() > usize::MAX - self.vars {
                proof {
                    assert(copies_clash(*self, p as int));
                    lemma_detoured_blocks(*old(self), f1, *self);
                }
                return None;
            }
            let ghost before = *self;
            self.decycle(&mut cs);
            proof {
                assert(forall|q: int| 0 <= q < self.blocks@.len() ==> #[trigger] self.blocks@[q] == before.blocks@[q]);
                assert forall|q: int| 0 <= q < p implies below((#[trigger] all@[q])@, self.vars as int) && copies_for(*self, label_of(q), all@[q]@, v0 as int) by {
                    crate::copies::lemma_below_mono(all@[q]@, before.vars as int, self.vars as int);
                    lemma_copies_for_same(before, *self, label_of(q), all@[q]@, v0 as int);
                }
                assert(copies_for(*self, l, cs@, v0 as int)) by {
                    assert forall|st: State, x: Var| x < v0 implies #[trigger] in_order(cs@, st, x) == at_once(g, st, x) by {
                        assert(in_order(cs@, st, x) == at_once(g, st, x));
                    }
                    assert forall|i: int| 0 <= i < g.len() implies edge_copy(*self, l, #[trigger] g[i]) by {
                        lemma_edge_copy_same(before, *self, l, g[i]);
                    }
                }
            }
            let ghost a0 = all@;
            all.push(cs);
            proof {
                assert forall|q: int| 0 <= q < p + 1 implies no_self((#[trigger] all@[q])@) by {
                    if q < p {
                        assert(all@[q] == a0[q]);
                    }
                }
            }
            proof {
                assert forall|q: int| 0 <= q < p + 1 implies below((#[trigger] all@[q])@, self.vars as int) && copies_for(*self, label_of(q), all@[q]@, v0 as int) by {
                    if q == p {
                        assert(label_of(q) == l);
                    }
                }
            }
            p = p + 1;
        }
        proof {
            lemma_detoured_blocks(*old(self), f1, *self);
        }
        Some(all)
    }
}

/// Keeping the slots from `n` on keeps what every fragment stands for.
proof fn lemma_detoured_grow(g0: Function, g1: Function, n: int, a: Fragment, b: Fragment)
    requires
        keeps_tail(g0, g1, n),
        detoured(g0, n, a, b),
    ensures
        detoured(g1, n, a, b),
{
    lemma_term_grow(g0, g1, n, a, b);
    assert forall|j: int| 0 <= j < a.predecessors@.len() implies back(g1, n, #[trigger] b.predecessors@[j], a.predecessors@[j]) by {
        lemma_back_grow(g0, g1, n, b.predecessors@[j], a.predecessors@[j]);
    }
    assert forall|i: int| 0 <= i < a.phis@.len() implies {
        &&& (#[trigger] b.phis@[i]).var == a.phis@[i].var
        &&& b.phis@[i].inputs@.len() == a.phis@[i].inputs@.len()
        &&& forall|j: int|
            0 <= j < a.phis@[i].inputs@.len() ==> (#[trigger] b.phis@[i].inputs@[j]).1 == a.phis@[i].inputs@[j].1
                && back(g1, n, b.phis@[i].inputs@[j].0, a.phis@[i].inputs@[j].0)
    } by {
        assert forall|j: int| 0 <= j < a.phis@[i].inputs@.len() implies (#[trigger] b.phis@[i].inputs@[j]).1 == a.phis@[i].inputs@[j].1
            && back(g1, n, b.phis@[i].inputs@[j].0, a.phis@[i].inputs@[j].0) by {
            lemma_back_grow(g0, g1, n, b.phis@[i].inputs@[j].0, a.phis@[i].inputs@[j].0);
        }
    }
}

/// Functions with the same fragments stand for the same originals.
proof fn lemma_detoured_blocks(f0: Function, f1: Function, g: Function)
    requires
        f1.blocks == g.blocks,
        forall|s: int|
            0 <= s < f0.blocks@.len() && #[trigger] f0.blocks@[s] is Some ==> (f1.blocks@[s] matches Some(b) && detoured(
                f1,
                f0.blocks@.len() as int,
                f0.blocks@[s]->0,
                b,
            )),
    ensures
        forall|s: int|
            0 <= s < f0.blocks@.len() && #[trigger] f0.blocks@[s] is Some ==> (g.blocks@[s] matches Some(b) && detoured(
                g,
                f0.blocks@.len() as int,
                f0.blocks@[s]->0,
                b,
            )),
{
    assert forall|s: int| 0 <= s < f0.blocks@.len() && #[trigger] f0.blocks@[s] is Some implies (g.blocks@[s] matches Some(b)
        && detoured(g, f0.blocks@.len() as int, f0.blocks@[s]->0, b)) by {
        lemma_detoured_grow(f1, g, f0.blocks@.len() as int, f0.blocks@[s]->0, g.blocks@[s]->0);
    }
}

proof fn lemma_edge_copy_same(f: Function, g: Function, l: Label, c: crate::copies::Copy)
    requires
        f.blocks == g.blocks,
        edge_copy(f, l, c),
    ensures
        edge_copy(g, l, c),
{
}

proof fn lemma_copies_for_same(f: Function, g: Function, l: Label, cs: Seq<crate::copies::Copy>, bound: int)
    requires
        f.blocks == g.blocks,
        copies_for(f, l, cs, bound),
    ensures
        copies_for(g, l, cs, bound),
{
    let w = choose|w: Seq<crate::copies::Copy>|
        {
            &&& distinct(w)
            &&& forall|i: int| 0 <= i < w.len() ==> edge_copy(f, l, #[trigger] w[i])
            &&& forall|t: int, k: int, j: int|
                0 <= t < f.blocks@.len() && f.blocks@[t] is Some && 0 <= k < f.blocks@[t]->0.phis@.len() && 0 <= j
                    < f.blocks@[t]->0.phis@[k].inputs@.len() && (#[trigger] f.blocks@[t]->0.phis@[k].inputs@[j]).0 == l
                    ==> w.contains(
                    crate::copies::Copy(f.blocks@[t]->0.phis@[k].var, f.blocks@[t]->0.phis@[k].inputs@[j].1),
                )
            &&& forall|st: State, x: Var| x < bound ==> #[trigger] in_order(cs, st, x) == at_once(w, st, x)
        };
    assert forall|i: int| 0 <= i < w.len() implies edge_copy(g, l, #[trigger] w[i]) by {
        lemma_edge_copy_same(f, g, l, w[i]);
    }
}


/// Whether the search has reached the fragment `l` names.
pub open spec fn reached(v: Seq<bool>, l: Label) -> bool {
    0 <= slot_of(l) < v.len() && v[slot_of(l)]
}

/// The labels the terminator of the fragment `l` names may flow to.
pub open spec fn succs_of(f: Function, l: Label) -> Seq<Label> {
    f.frag(l)->0.terminator->0.targets()
}

/// `p` is a path of `f` from the entry: each label is one the one before
/// it may flow to.
pub open spec fn path_from_entry(f: Function, p: Seq<Label>) -> bool {
    &&& p.len() >= 1
    &&& p[0] == Label::Entry
    &&& forall|i: int| 0 <= i < p.len() - 1 ==> succs_of(f, p[i]).contains(#[trigger] p[i + 1])
}

/// Control can flow from the entry of `f` to `l`.
pub open spec fn from_entry(f: Function, l: Label) -> bool {
    exists|p: Seq<Label>| #[trigger] path_from_entry(f, p) && p.last() == l
}

/// A label `l` flows to is reached from the entry when `l` is.
proof fn lemma_from_entry_step(f: Function, l: Label, k: int)
    requires
        from_entry(f, l),
        0 <= k < succs_of(f, l).len(),
    ensures
        from_entry(f, succs_of(f, l)[k]),
{
    let p = choose|p: Seq<Label>| #[trigger] path_from_entry(f, p) && p.last() == l;
    let q = p.push(succs_of(f, l)[k]);
    assert forall|i: int| 0 <= i < q.len() - 1 implies succs_of(f, q[i]).contains(#[trigger] q[i + 1]) by {
        if i < p.len() - 1 {
            assert(q[i] == p[i] && q[i + 1] == p[i + 1]);
        } else {
            assert(q[i] == l);
        }
    }
    assert(path_from_entry(f, q));
}

/// `p` is a path of `f`: each label is one the one before it may flow to.
pub open spec fn path_in(f: Function, p: Seq<Label>) -> bool {
    &&& p.len() >= 1
    &&& forall|i: int| 0 <= i < p.len() - 1 ==> succs_of(f, p[i]).contains(#[trigger] p[i + 1])
}

/// Control can flow in `f` from `x` to `y`, in no steps or more.
pub open spec fn flows(f: Function, x: Label, y: Label) -> bool {
    exists|p: Seq<Label>| #[trigger] path_in(f, p) && p[0] == x && p.last() == y
}

/// `v` stands in `o` before the position `k`.
pub open spec fn earlier(o: Seq<Label>, k: int, v: Label) -> bool {
    exists|m: int| 0 <= m < k && o[m] == v
}

/// Each label of `o` stands after the labels it may flow to, but for a
/// label that flows back to it.
pub open spec fn postordered(f: Function, o: Seq<Label>) -> bool {
    forall|k: int, j: int|
        0 <= k < o.len() && 0 <= j < succs_of(f, o[k]).len() ==> earlier(o, k, #[trigger] succs_of(f, o[k])[j])
            || flows(f, succs_of(f, o[k])[j], o[k])
}

/// Every label the search has entered and not finished flows to `l`.
pub open spec fn open_to(f: Function, v: Seq<bool>, o: Seq<Label>, l: Label) -> bool {
    forall|g: Label| #[trigger] reached(v, g) && !o.contains(g) ==> flows(f, g, l)
}

proof fn lemma_flows_refl(f: Function, x: Label)
    ensures
        flows(f, x, x),
{
    let p = seq![x];
    assert(path_in(f, p));
}

proof fn lemma_flows_step(f: Function, x: Label, y: Label, k: int)
    requires
        flows(f, x, y),
        0 <= k < succs_of(f, y).len(),
    ensures
        flows(f, x, succs_of(f, y)[k]),
{
    let p = choose|p: Seq<Label>| #[trigger] path_in(f, p) && p[0] == x && p.last() == y;
    let q = p.push(succs_of(f, y)[k]);
    assert forall|i: int| 0 <= i < q.len() - 1 implies succs_of(f, q[i]).contains(#[trigger] q[i + 1]) by {
        if i < p.len() - 1 {
            assert(q[i] == p[i] && q[i + 1] == p[i + 1]);
        } else {
            assert(q[i] == y);
        }
    }
    assert(path_in(f, q) && q[0] == x);
}

proof fn lemma_open_step(f: Function, v: Seq<bool>, o: Seq<Label>, l: Label, k: int)
    requires
        open_to(f, v, o, l),
        0 <= k < succs_of(f, l).len(),
    ensures
        open_to(f, v, o, succs_of(f, l)[k]),
{
    assert forall|g: Label| #[trigger] reached(v, g) && !o.contains(g) implies flows(f, g, succs_of(f, l)[k]) by {
        lemma_flows_step(f, g, l, k);
    }
}

/// The state of the depth-first search: the finished labels are distinct
/// fragments of `f`, reached, whose successors are all reached.
pub open spec fn search_ok(f: Function, v: Seq<bool>, order: Seq<Label>) -> bool {
    &&& v.len() == f.blocks@.len()
    &&& order.no_duplicates()
    &&& forall|k: int| 0 <= k < order.len() ==> f.has(#[trigger] order[k]) && reached(v, order[k])
    &&& forall|k: int, j: int|
        0 <= k < order.len() && 0 <= j < succs_of(f, order[k]).len() ==> reached(v, #[trigger] succs_of(f, order[k])[j])
}

impl Function {
    /// Depth-first search from `l`: appends each fragment after the ones it
    /// leads to, the first time it is reached.
    fn dfs(&self, l: Label, visited: &mut Vec<bool>, order: &mut Vec<Label>)
        requires
            self.wf(),
            self.has(l),
            search_ok(*self, old(visited)@, old(order)@),
            from_entry(*self, l),
            forall|x: Label| #[trigger] reached(old(visited)@, x) ==> from_entry(*self, x),
            open_to(*self, old(visited)@, old(order)@, l),
            postordered(*self, old(order)@),
        ensures
            forall|x: Label| #[trigger] reached(final(visited)@, x) ==> from_entry(*self, x),
            search_ok(*self, final(visited)@, final(order)@),
            postordered(*self, final(order)@),
            reached(final(visited)@, l),
            forall|x: Label| reached(old(visited)@, x) ==> #[trigger] reached(final(visited)@, x),
            forall|x: Label|
                (#[trigger] reached(final(visited)@, x) && !final(order)@.contains(x)) == (reached(old(visited)@, x)
                    && !old(order)@.contains(x)),
            final(order)@.len() >= old(order)@.len(),
            final(order)@.take(old(order)@.len() as int) == old(order)@,
            !reached(old(visited)@, l) ==> final(order)@.last() == l,
            falses(final(visited)@) <= falses(old(visited)@),
        decreases falses(old(visited)@),
    {
        let s = match l {
            Label::Entry => 0,
            Label::Exit => 1,
            Label::Id(i) => i + 2,
        };
        if visited[s] {
            assert(order@.take(order@.len() as int) =~= order@);
            return;
        }
        proof {
            lemma_falses_set(visited@, s as int);
        }
        visited.set(s, true);
        proof {
            assert forall|x: Label| #[trigger] reached(visited@, x) implies from_entry(*self, x) by {
                if slot_of(x) == slot_of(l) {
                    crate::ir::lemma_slot_label(x);
                    crate::ir::lemma_slot_label(l);
                } else {
                    assert(reached(old(visited)@, x));
                }
            }
        }
        let ghost v1 = visited@;
        let ghost o1 = order@;
        proof {
            assert forall|k: int, j: int|
                0 <= k < o1.len() && 0 <= j < succs_of(*self, o1[k]).len() implies reached(v1, #[trigger] succs_of(*self, o1[k])[j]) by {
                assert(reached(old(visited)@, succs_of(*self, o1[k])[j]));
            }
            assert forall|k: int| 0 <= k < o1.len() implies self.has(#[trigger] o1[k]) && reached(v1, o1[k]) by {
                assert(reached(old(visited)@, o1[k]));
            }
            assert(!o1.contains(l)) by {
                if o1.contains(l) {
                    let k = choose|k: int| 0 <= k < o1.len() && o1[k] == l;
                    assert(reached(old(visited)@, o1[k]));
                }
            }
        }
        let x = self.get(l).unwrap();
        assert(self.frag_ok(*x)) by {
            assert(self.blocks@[slot_of(l)] is Some);
        }
        proof {
            assert forall|g: Label| #[trigger] reached(v1, g) && !o1.contains(g) implies flows(*self, g, l) by {
                if slot_of(g) == slot_of(l) {
                    crate::ir::lemma_slot_label(g);
                    crate::ir::lemma_slot_label(l);
                    lemma_flows_refl(*self, l);
                } else {
                    assert(reached(old(visited)@, g));
                }
            }
        }
        let term = x.terminator.unwrap();
        match term {
            Terminator::Branch(_, y, z) => {
                assert(term.targets()[0] == y && term.targets()[1] == z);
                proof {
                    assert(succs_of(*self, l) == term.targets());
                    lemma_from_entry_step(*self, l, 0);
                    lemma_from_entry_step(*self, l, 1);
                    lemma_open_step(*self, v1, o1, l, 0);
                }
                self.dfs(y, visited, order);
                proof {
                    assert(open_to(*self, visited@, order@, l)) by {
                        assert forall|g: Label| #[trigger] reached(visited@, g) && !order@.contains(g) implies flows(*self, g, l) by {
                            assert(reached(v1, g) && !o1.contains(g));
                        }
                    }
                    lemma_open_step(*self, visited@, order@, l, 1);
                }
                let ghost v_mid = visited@;
                let ghost o_mid = order@;
                self.dfs(z, visited, order);
                proof {
                    assert forall|g: Label| (#[trigger] reached(visited@, g) && !order@.contains(g)) == (reached(v1, g)
                        && !o1.contains(g)) by {
                        assert((reached(visited@, g) && !order@.contains(g)) == (reached(v_mid, g) && !o_mid.contains(g)));
                    }
                }
            },
            Terminator::Jump(t) => {
                assert(term.targets()[0] == t);
                proof {
                    assert(succs_of(*self, l) == term.targets());
                    lemma_from_entry_step(*self, l, 0);
                    lemma_open_step(*self, v1, o1, l, 0);
                }
                self.dfs(t, visited, order);
            },
            Terminator::Return(_) => {},
        }
        let ghost o2 = order@;
        let ghost v2 = visited@;
        proof {
            assert forall|g: Label| #[trigger] reached(v2, g) && !o2.contains(g) implies flows(*self, g, l) by {
                assert(reached(v1, g) && !o1.contains(g));
            }
        }
        proof {
            assert(reached(v2, l));
            assert(!o2.contains(l));
        }
        order.push(l);
        proof {
            let o3 = order@;
            assert(o3.drop_last() == o2);
            assert forall|k: int| 0 <= k < o3.len() implies self.has(#[trigger] o3[k]) && reached(v2, o3[k]) by {
                if k < o2.len() {
                    assert(o3[k] == o2[k]);
                }
            }
            assert forall|k: int, j: int|
                0 <= k < o3.len() && 0 <= j < succs_of(*self, o3[k]).len() implies reached(v2, #[trigger] succs_of(*self, o3[k])[j]) by {
                if k < o2.len() {
                    assert(o3[k] == o2[k]);
                } else {
                    assert(succs_of(*self, l) == term.targets());
                }
            }
            assert(o3.no_duplicates()) by {
                assert forall|a: int, b: int| 0 <= a < o3.len() && 0 <= b < o3.len() && a != b implies o3[a] != o3[b] by {
                    if a < o2.len() && b < o2.len() {
                        assert(o3[a] == o2[a] && o3[b] == o2[b]);
                    } else if a < o2.len() {
                        assert(o3[a] == o2[a]);
                        assert(o2.contains(o2[a]));
                    } else {
                        assert(o3[b] == o2[b]);
                        assert(o2.contains(o2[b]));
                    }
                }
            }
            assert forall|y: Label|
                (#[trigger] reached(v2, y) && !o3.contains(y)) == (reached(old(visited)@, y) && !old(order)@.contains(y)) by {
                if y == l {
                    assert(o3[o2.len() as int] == l);
                } else {
                    if o3.contains(y) {
                        let k = choose|k: int| 0 <= k < o3.len() && o3[k] == y;
                        assert(o2[k] == y);
                    }
                    if o2.contains(y) {
                        let k = choose|k: int| 0 <= k < o2.len() && o2[k] == y;
                        assert(o3[k] == y);
                    }
                    assert(reached(v1, y) == (reached(old(visited)@, y) || y == l)) by {
                        crate::ir::lemma_slot_label(y);
                        crate::ir::lemma_slot_label(l);
                    }
                    if old(order)@.contains(y) {
                        let k = choose|k: int| 0 <= k < old(order)@.len() && old(order)@[k] == y;
                        assert(o1[k] == y);
                    }
                    if o1.contains(y) {
                        let k = choose|k: int| 0 <= k < o1.len() && o1[k] == y;
                        assert(old(order)@[k] == y);
                    }
                }
            }
            assert(postordered(*self, o3)) by {
                assert forall|k: int, j: int|
                    0 <= k < o3.len() && 0 <= j < succs_of(*self, o3[k]).len() implies earlier(o3, k, #[trigger] succs_of(*self, o3[k])[j])
                        || flows(*self, succs_of(*self, o3[k])[j], o3[k]) by {
                    let w = succs_of(*self, o3[k])[j];
                    if k < o2.len() {
                        assert(o3[k] == o2[k]);
                        if earlier(o2, k, w) {
                            let m = choose|m: int| 0 <= m < k && o2[m] == w;
                            assert(o3[m] == w);
                        }
                    } else {
                        assert(o3[k] == l);
                        assert(succs_of(*self, l) == term.targets());
                        assert(reached(v2, w));
                        if o2.contains(w) {
                            let m = choose|m: int| 0 <= m < o2.len() && o2[m] == w;
                            assert(o3[m] == w);
                        }
                    }
                }
            }
            assert(o3.take(old(order)@.len() as int) =~= old(order)@) by {
                assert(o2.take(o1.len() as int) == o1);
                assert forall|k: int| 0 <= k < old(order)@.len() implies o3[k] == old(order)@[k] by {
                    assert(o3[k] == o2[k]);
                    assert(o2.take(o1.len() as int)[k] == o1[k]);
                }
            }
        }
    }

    /// The fragments reachable from the entry, in reverse postorder: the
    /// entry first, each fragment before those it leads to but for the
    /// edges that close a loop.
    pub fn rpo(&self) -> (r: Vec<Label>)
        requires
            self.wf(),
        ensures
            r@.len() > 0,
            r@[0] == Label::Entry,
            r@.no_duplicates(),
            forall|k: int| 0 <= k < r@.len() ==> self.has(#[trigger] r@[k]) && from_entry(*self, r@[k]),
            forall|k: int, j: int|
                0 <= k < r@.len() && 0 <= j < succs_of(*self, r@[k]).len() ==> r@.contains(#[trigger] succs_of(*self, r@[k])[j]),
            forall|k: int, j: int|
                0 <= k < r@.len() && 0 <= j < succs_of(*self, r@[k]).len() ==> (exists|b: int|
                    k < b < r@.len() && r@[b] == #[trigger] succs_of(*self, r@[k])[j]) || flows(
                    *self,
                    succs_of(*self, r@[k])[j],
                    r@[k],
                ),
    {
        let mut visited: Vec<bool> = Vec::new();
        let mut i: usize = 0;
        while i < self.blocks.len()
            invariant
                i <= self.blocks@.len(),
                visited@.len() == i,
                forall|k: int| 0 <= k < i ==> !visited@[k],
            decreases self.blocks@.len() - i,
        {
            visited.push(false);
            i = i + 1;
        }
        let mut order: Vec<Label> = Vec::new();
        assert(self.has(Label::Entry));
        proof {
            let p = seq![Label::Entry];
            assert(path_from_entry(*self, p));
        }
        self.dfs(Label::Entry, &mut visited, &mut order);
        proof {
            assert forall|x: Label| #[trigger] reached(visited@, x) implies order@.contains(x) by {}
        }
        let ghost o = order@;
        let mut r: Vec<Label> = Vec::new();
        let mut k: usize = order.len();
        while k > 0
            invariant
                order@ == o,
                k <= o.len(),
                r@.len() == o.len() - k,
                forall|j: int| 0 <= j < r@.len() ==> #[trigger] r@[j] == o[o.len() - 1 - j],
            decreases k,
        {
            k = k - 1;
            r.push(order[k]);
        }
        proof {
            assert forall|j: int| 0 <= j < r@.len() implies #[trigger] r@[j] == o[o.len() - 1 - j] by {}
            assert(r@[0] == o.last());
            assert(r@.no_duplicates()) by {
                assert forall|a: int, b: int| 0 <= a < r@.len() && 0 <= b < r@.len() && a != b implies r@[a] != r@[b] by {
                    assert(r@[a] == o[o.len() - 1 - a]);
                    assert(r@[b] == o[o.len() - 1 - b]);
                }
            }
            assert forall|x: Label| o.contains(x) implies r@.contains(x) by {
                let q = choose|q: int| 0 <= q < o.len() && o[q] == x;
                assert(r@[o.len() - 1 - q] == x);
            }
            assert forall|k: int| 0 <= k < r@.len() implies self.has(#[trigger] r@[k]) && from_entry(*self, r@[k]) by {
                assert(r@[k] == o[o.len() - 1 - k]);
                assert(reached(visited@, o[o.len() - 1 - k]));
            }
            assert forall|k: int, j: int|
                0 <= k < r@.len() && 0 <= j < succs_of(*self, r@[k]).len() implies r@.contains(#[trigger] succs_of(*self, r@[k])[j]) by {
                let q = o.len() - 1 - k;
                assert(r@[k] == o[q]);
                assert(reached(visited@, succs_of(*self, o[q])[j]));
            }
            assert forall|k: int, j: int|
                0 <= k < r@.len() && 0 <= j < succs_of(*self, r@[k]).len() implies (exists|b: int|
                    k < b < r@.len() && r@[b] == #[trigger] succs_of(*self, r@[k])[j]) || flows(
                    *self,
                    succs_of(*self, r@[k])[j],
                    r@[k],
                ) by {
                let q = o.len() - 1 - k;
                assert(r@[k] == o[q]);
                let w = succs_of(*self, o[q])[j];
                if earlier(o, q, w) {
                    let m = choose|m: int| 0 <= m < q && o[m] == w;
                    assert(r@[o.len() - 1 - m] == w);
                }
            }
        }
        r
    }
}

} // verus!
