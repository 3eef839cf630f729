use vstd::prelude::*;
use crate::analyze::Meta;
use crate::context::{Lattice, LatticeV};
use crate::eval::Fault;
use crate::ir::{label_at, label_of, slot_of, ConstV, Fragment, Function, Instruction, Label, Phi, Terminator, Var};

verus! {

/// The constant the analysis found for a variable, if any.
pub open spec fn known(meta: Meta, v: Var) -> Option<ConstV> {
    match meta.value(v) {
        LatticeV::Const(c) => Some(c),
        _ => None,
    }
}

/// The instruction with its result folded when the analysis found it
/// constant: a binary or unary operation becomes a load of the constant.
pub open spec fn folds_to(old: Instruction, new: Instruction, meta: Meta) -> bool {
    match old {
        Instruction::Binary(d, _, _, _) | Instruction::Unary(d, _, _) => match known(meta, d) {
            Some(c) => new matches Instruction::Load(d2, k) && d2 == d && k@ == c,
            None => new == old,
        },
        _ => new == old,
    }
}

/// The terminator after rewriting: a branch on a known boolean jumps to the
/// side taken, and a branch whose two sides agree jumps there.
pub open spec fn term_rewrite(t: Terminator, meta: Meta) -> Terminator {
    match t {
        Terminator::Branch(c, y, n) => match known(meta, c) {
            Some(ConstV::Bool(b)) => Terminator::Jump(if b { y } else { n }),
            _ => if y == n {
                Terminator::Jump(y)
            } else {
                t
            },
        },
        _ => t,
    }
}

/// A fragment the rewrite keeps: the entry, the exit, and those reached.
pub open spec fn kept(meta: Meta, l: Label) -> bool {
    l == Label::Entry || l == Label::Exit || meta.seen(l)
}

/// After the rewrite, every kept fragment only points to kept fragments:
/// the analysis decided every branch it reached.
pub open spec fn settled(f: Function, meta: Meta) -> bool {
    forall|s: int|
        0 <= s < f.blocks@.len() && #[trigger] f.blocks@[s] is Some && kept(meta, label_of(s))
            && f.blocks@[s]->0.terminator is Some ==> {
            let t = term_rewrite(f.blocks@[s]->0.terminator->0, meta);
            forall|k: int|
                0 <= k < t.targets().len() ==> kept(meta, #[trigger] t.targets()[k]) && f.has(
                    t.targets()[k],
                )
        }
}

/// What a rewritten branch asks of the predecessor lists of another
/// fragment.
#[derive(Debug, Clone, Copy, PartialEq, Eq, Structural)]
pub enum Writeback {
    All(Label),
    Once(Label),
    Nothing,
}

impl Instruction {
    /// Folds the instruction when the analysis found its result constant.
    pub fn rewrite(&mut self, meta: &Meta) -> (changed: bool)
        ensures
            folds_to(*old(self), *final(self), *meta),
            changed == (*final(self) != *old(self)),
            final(self).def() == old(self).def(),
            final(self).reads().len() <= old(self).reads().len(),
            forall|k: int| 0 <= k < final(self).reads().len() ==> final(self).reads()[k] == old(self).reads()[k],
    {
        let d = match &*self {
            Instruction::Binary(dst, _, _, _) => *dst,
            Instruction::Unary(dst, _, _) => *dst,
            _ => {
                return false;
            },
        };
        if let Lattice::Const(c) = meta.get(d) {
            *self = Instruction::Load(d, c);
            return true;
        }
        false
    }
}

impl Terminator {
    /// Turns a branch on a known boolean, or a branch whose sides agree,
    /// into a jump, and says which predecessor entry the abandoned side
    /// loses: all of them, or one when the jump still goes there.
    pub fn rewrite(&mut self, meta: &Meta, wb: &mut Writeback) -> (changed: bool)
        ensures
            *final(self) == term_rewrite(*old(self), *meta),
            changed == (*final(self) != *old(self)),
            match *old(self) {
                Terminator::Branch(c, y, n) => match known(*meta, c) {
                    Some(ConstV::Bool(b)) => {
                        let (target, dead) = if b { (y, n) } else { (n, y) };
                        *final(wb) == if target == dead {
                            Writeback::Once(dead)
                        } else {
                            Writeback::All(dead)
                        }
                    },
                    _ => if y == n {
                        *final(wb) == Writeback::Once(n)
                    } else {
                        *final(wb) == *old(wb)
                    },
                },
                _ => *final(wb) == *old(wb),
            },
    {
        if let Terminator::Branch(cond, yes, no) = *self {
            if let Lattice::Const(c) = meta.get(cond) {
                if let Ok(b) = c.bool() {
                    let (target, dead) = if b {
                        (yes, no)
                    } else {
                        (no, yes)
                    };
                    *wb = if target == dead {
                        Writeback::Once(dead)
                    } else {
                        Writeback::All(dead)
                    };
                    *self = Terminator::Jump(target);
                    return true;
                }
            }
            if yes == no {
                *wb = Writeback::Once(no);
                *self = Terminator::Jump(yes);
                return true;
            }
        }
        false
    }
}


/// Whether a phi node stays: the analysis did not find its value constant.
pub open spec fn stays(meta: Meta) -> spec_fn(Phi) -> bool {
    |p: Phi| known(meta, p.var) is None
}

/// Whether a phi node turns into a load of its constant.
pub open spec fn goes(meta: Meta) -> spec_fn(Phi) -> bool {
    |p: Phi| known(meta, p.var) is Some
}

/// `new` is the fragment `old` after rewriting: constant phis become loads
/// at the head of the instructions, constant operations become loads, and
/// the terminator is simplified.
pub open spec fn fragment_rewritten(old: Fragment, new: Fragment, meta: Meta) -> bool {
    let gone = old.phis@.filter(goes(meta));
    &&& new.phis@ == old.phis@.filter(stays(meta))
    &&& new.predecessors == old.predecessors
    &&& new.terminator == Some(term_rewrite(old.terminator->0, meta))
    &&& new.instructions@.len() == gone.len() + old.instructions@.len()
    &&& forall|k: int|
        0 <= k < gone.len() ==> (#[trigger] new.instructions@[k] matches Instruction::Load(d, c)
            && d == gone[k].var && known(meta, d) == Some(c@))
    &&& forall|k: int|
        0 <= k < old.instructions@.len() ==> folds_to(
            #[trigger] old.instructions@[k],
            new.instructions@[gone.len() + k],
            meta,
        )
}

/// Whether the rewrite of `old` into `new` changed anything.
pub open spec fn fragment_changes(old: Fragment, new: Fragment, meta: Meta) -> bool {
    let g = old.phis@.filter(goes(meta)).len();
    ||| g > 0
    ||| exists|k: int|
        0 <= k < old.instructions@.len() && #[trigger] old.instructions@[k] != new.instructions@[g
            + k]
    ||| new.terminator != old.terminator
}

pub proof fn lemma_filter_step<T>(s: Seq<T>, i: int, p: spec_fn(T) -> bool)
    requires
        0 <= i < s.len(),
    ensures
        s.take(i + 1).filter(p) == if p(s[i]) {
            s.take(i).filter(p).push(s[i])
        } else {
            s.take(i).filter(p)
        },
{
    reveal(Seq::filter);
    let t = s.take(i + 1);
    assert(t.drop_last() =~= s.take(i));
    assert(t.last() == s[i]);
    assert(t.len() > 0);
    assert(t.filter(p) == if p(t.last()) {
        t.drop_last().filter(p).push(t.last())
    } else {
        t.drop_last().filter(p)
    });
}

/// Filtering a sequence by a predicate that holds of all its elements
/// keeps it whole.
pub proof fn lemma_filter_all<T>(s: Seq<T>, p: spec_fn(T) -> bool, i: int)
    requires
        0 <= i <= s.len(),
        forall|k: int| 0 <= k < s.len() ==> #[trigger] p(s[k]),
    ensures
        s.take(i).filter(p) == s.take(i),
    decreases i,
{
    if i == 0 {
        reveal(Seq::filter);
        assert(s.take(0) =~= Seq::<T>::empty());
    } else {
        lemma_filter_all(s, p, i - 1);
        lemma_filter_step(s, i - 1, p);
        assert(p(s[i - 1]));
        assert(s.take(i - 1).push(s[i - 1]) =~= s.take(i));
    }
}

/// The first element for which `p` holds removed, if there is one.
pub open spec fn drop_first<T>(s: Seq<T>, p: spec_fn(T) -> bool) -> Seq<T>
    decreases s.len(),
{
    if s.len() == 0 {
        s
    } else if p(s[0]) {
        s.drop_first()
    } else {
        seq![s[0]] + drop_first(s.drop_first(), p)
    }
}

proof fn lemma_drop_first_at<T>(s: Seq<T>, p: spec_fn(T) -> bool, i: int)
    requires
        0 <= i <= s.len(),
        forall|j: int| 0 <= j < i ==> !p(#[trigger] s[j]),
        i < s.len() ==> p(s[i]),
    ensures
        drop_first(s, p) == if i < s.len() {
            s.remove(i)
        } else {
            s
        },
    decreases s.len(),
{
    if s.len() > 0 && i > 0 {
        let t = s.drop_first();
        assert forall|j: int| 0 <= j < i - 1 implies !p(#[trigger] t[j]) by {
            assert(t[j] == s[j + 1]);
        }
        lemma_drop_first_at(t, p, i - 1);
        if i < s.len() {
            assert(seq![s[0]] + t.remove(i - 1) =~= s.remove(i));
        } else {
            assert(seq![s[0]] + t =~= s);
        }
    }
}

/// Whether a predecessor entry names `l`.
pub open spec fn is_label(l: Label) -> spec_fn(Label) -> bool {
    |x: Label| x == l
}

/// Whether a predecessor entry names another label than `l`.
pub open spec fn not_label(l: Label) -> spec_fn(Label) -> bool {
    |x: Label| x != l
}

/// Whether a phi input comes from `l`.
pub open spec fn from_label(l: Label) -> spec_fn((Label, Var)) -> bool {
    |x: (Label, Var)| x.0 == l
}

/// Whether a phi input comes from another label than `l`.
pub open spec fn not_from(l: Label) -> spec_fn((Label, Var)) -> bool {
    |x: (Label, Var)| x.0 != l
}

fn drop_labels(v: &mut Vec<Label>, l: Label, once: bool)
    ensures
        final(v)@ == if once {
            drop_first(old(v)@, is_label(l))
        } else {
            old(v)@.filter(not_label(l))
        },
{
    let ghost s = v@;
    if once {
        let mut i: usize = 0;
        while i < v.len()
            invariant
                v@ == s,
                s == old(v)@,
                once,
                i <= s.len(),
                forall|j: int| 0 <= j < i ==> !is_label(l)(#[trigger] s[j]),
            decreases s.len() - i,
        {
            if v[i] == l {
                proof {
                    lemma_drop_first_at(s, is_label(l), i as int);
                }
                v.remove(i);
                assert(v@ == s.remove(i as int));
                return;
            }
            i = i + 1;
        }
        proof {
            lemma_drop_first_at(s, is_label(l), i as int);
        }
    } else {
        let mut out: Vec<Label> = Vec::new();
        let mut i: usize = 0;
        while i < v.len()
            invariant
                v@ == s,
                i <= s.len(),
                out@ == s.take(i as int).filter(not_label(l)),
            decreases s.len() - i,
        {
            proof {
                lemma_filter_step(s, i as int, not_label(l));
            }
            if v[i] != l {
                out.push(v[i]);
            }
            i = i + 1;
        }
        assert(s.take(s.len() as int) =~= s);
        *v = out;
    }
}

fn drop_inputs(v: &mut Vec<(Label, Var)>, l: Label, once: bool)
    ensures
        final(v)@ == if once {
            drop_first(old(v)@, from_label(l))
        } else {
            old(v)@.filter(not_from(l))
        },
{
    let ghost s = v@;
    if once {
        let mut i: usize = 0;
        while i < v.len()
            invariant
                v@ == s,
                s == old(v)@,
                once,
                i <= s.len(),
                forall|j: int| 0 <= j < i ==> !from_label(l)(#[trigger] s[j]),
            decreases s.len() - i,
        {
            if v[i].0 == l {
                proof {
                    lemma_drop_first_at(s, from_label(l), i as int);
                }
                v.remove(i);
                assert(v@ == s.remove(i as int));
                return;
            }
            i = i + 1;
        }
        proof {
            lemma_drop_first_at(s, from_label(l), i as int);
        }
    } else {
        let mut out: Vec<(Label, Var)> = Vec::new();
        let mut i: usize = 0;
        while i < v.len()
            invariant
                v@ == s,
                i <= s.len(),
                out@ == s.take(i as int).filter(not_from(l)),
            decreases s.len() - i,
        {
            proof {
                lemma_filter_step(s, i as int, not_from(l));
            }
            if v[i].0 != l {
                out.push(v[i]);
            }
            i = i + 1;
        }
        assert(s.take(s.len() as int) =~= s);
        *v = out;
    }
}


/// `b` is `a` with some predecessor entries and phi inputs dropped.
pub open spec fn thinned(a: Fragment, b: Fragment) -> bool {
    &&& b.instructions == a.instructions
    &&& b.terminator == a.terminator
    &&& b.phis@.len() == a.phis@.len()
    &&& forall|k: int|
        0 <= k < b.phis@.len() ==> {
            &&& (#[trigger] b.phis@[k]).var == a.phis@[k].var
            &&& forall|j: int|
                0 <= j < b.phis@[k].inputs@.len() ==> a.phis@[k].inputs@.contains(
                    #[trigger] b.phis@[k].inputs@[j],
                )
        }
    &&& forall|k: int|
        0 <= k < b.predecessors@.len() ==> a.predecessors@.contains(#[trigger] b.predecessors@[k])
}

proof fn lemma_thinned_trans(a: Fragment, b: Fragment, c: Fragment)
    requires
        thinned(a, b),
        thinned(b, c),
    ensures
        thinned(a, c),
{
    assert forall|k: int| 0 <= k < c.phis@.len() implies {
        &&& (#[trigger] c.phis@[k]).var == a.phis@[k].var
        &&& forall|j: int|
            0 <= j < c.phis@[k].inputs@.len() ==> a.phis@[k].inputs@.contains(
                #[trigger] c.phis@[k].inputs@[j],
            )
    } by {
        assert(c.phis@[k].var == b.phis@[k].var);
        assert forall|j: int| 0 <= j < c.phis@[k].inputs@.len() implies a.phis@[k].inputs@.contains(
            #[trigger] c.phis@[k].inputs@[j],
        ) by {
            assert(b.phis@[k].inputs@.contains(c.phis@[k].inputs@[j]));
            let i = choose|i: int| 0 <= i < b.phis@[k].inputs@.len() && b.phis@[k].inputs@[i] == c.phis@[k].inputs@[j];
            assert(a.phis@[k].inputs@.contains(b.phis@[k].inputs@[i]));
        }
    }
    assert forall|k: int| 0 <= k < c.predecessors@.len() implies a.predecessors@.contains(
        #[trigger] c.predecessors@[k],
    ) by {
        assert(b.predecessors@.contains(c.predecessors@[k]));
        let i = choose|i: int| 0 <= i < b.predecessors@.len() && b.predecessors@[i] == c.predecessors@[k];
        assert(a.predecessors@.contains(b.predecessors@[i]));
    }
}

proof fn lemma_drop_first_sub<T>(s: Seq<T>, p: spec_fn(T) -> bool)
    ensures
        forall|k: int| 0 <= k < drop_first(s, p).len() ==> s.contains(#[trigger] drop_first(s, p)[k]),
    decreases s.len(),
{
    if s.len() > 0 {
        let t = s.drop_first();
        lemma_drop_first_sub(t, p);
        if !p(s[0]) {
            let r = drop_first(s, p);
            assert forall|k: int| 0 <= k < r.len() implies s.contains(#[trigger] r[k]) by {
                if k == 0 {
                    assert(s[0] == r[0]);
                } else {
                    assert(r[k] == drop_first(t, p)[k - 1]);
                    let i = choose|i: int| 0 <= i < t.len() && t[i] == r[k];
                    assert(s[i + 1] == r[k]);
                }
            }
        } else {
            assert forall|k: int| 0 <= k < t.len() implies s.contains(#[trigger] t[k]) by {
                assert(s[k + 1] == t[k]);
            }
        }
    }
}

pub proof fn lemma_filter_sub<T>(s: Seq<T>, p: spec_fn(T) -> bool)
    ensures
        forall|k: int| 0 <= k < s.filter(p).len() ==> s.contains(#[trigger] s.filter(p)[k]) && p(
            s.filter(p)[k],
        ),
{
    broadcast use vstd::seq_lib::group_filter_ensures;
    assert forall|k: int| 0 <= k < s.filter(p).len() implies s.contains(#[trigger] s.filter(p)[k]) && p(
        s.filter(p)[k],
    ) by {
        s.lemma_filter_contains_rev(p, s.filter(p)[k]);
    }
}

impl Fragment {
    /// Drops the predecessor entries and phi inputs that come from `from`:
    /// every one of them, or only the first of each list when `once`.
    pub fn forget(&mut self, from: Label, once: bool)
        ensures
            final(self).predecessors@ == if once {
                drop_first(old(self).predecessors@, is_label(from))
            } else {
                old(self).predecessors@.filter(not_label(from))
            },
            final(self).phis@.len() == old(self).phis@.len(),
            forall|k: int|
                0 <= k < final(self).phis@.len() ==> (#[trigger] final(self).phis@[k]).var == old(
                    self,
                ).phis@[k].var && final(self).phis@[k].inputs@ == if once {
                    drop_first(old(self).phis@[k].inputs@, from_label(from))
                } else {
                    old(self).phis@[k].inputs@.filter(not_from(from))
                },
            final(self).instructions == old(self).instructions,
            final(self).terminator == old(self).terminator,
            thinned(*old(self), *final(self)),
    {
        drop_labels(&mut self.predecessors, from, once);
        let mut k: usize = 0;
        while k < self.phis.len()
            invariant
                k <= self.phis@.len(),
                self.phis@.len() == old(self).phis@.len(),
                self.predecessors@ == if once {
                    drop_first(old(self).predecessors@, is_label(from))
                } else {
                    old(self).predecessors@.filter(not_label(from))
                },
                forall|i: int|
                    0 <= i < self.phis@.len() ==> (#[trigger] self.phis@[i]).var == old(
                        self,
                    ).phis@[i].var && self.phis@[i].inputs@ == if i < k {
                        if once {
                            drop_first(old(self).phis@[i].inputs@, from_label(from))
                        } else {
                            old(self).phis@[i].inputs@.filter(not_from(from))
                        }
                    } else {
                        old(self).phis@[i].inputs@
                    },
                self.instructions == old(self).instructions,
                self.terminator == old(self).terminator,
            decreases old(self).phis@.len() - k,
        {
            drop_inputs(&mut self.phis[k].inputs, from, once);
            k = k + 1;
        }
        proof {
            let a = *old(self);
            let b = *self;
            if once {
                lemma_drop_first_sub(a.predecessors@, is_label(from));
            } else {
                lemma_filter_sub(a.predecessors@, not_label(from));
            }
            assert forall|i: int| 0 <= i < b.phis@.len() implies #[trigger] b.phis@[i].var == a.phis@[i].var && forall|j: int|
                0 <= j < b.phis@[i].inputs@.len() ==> a.phis@[i].inputs@.contains(
                    #[trigger] b.phis@[i].inputs@[j],
                ) by {
                if once {
                    lemma_drop_first_sub(a.phis@[i].inputs@, from_label(from));
                } else {
                    lemma_filter_sub(a.phis@[i].inputs@, not_from(from));
                }
            }
        }
    }

    /// Rewrites the fragment with what the analysis found: constant phis
    /// become loads at the head of the instructions, constant operations
    /// become loads and the terminator is simplified. `wb` receives what the
    /// abandoned branch target must forget.
    pub fn rewrite(&mut self, meta: &Meta, wb: &mut Writeback) -> (changed: bool)
        requires
            old(self).terminator is Some,
        ensures
            fragment_rewritten(*old(self), *final(self), *meta),
            changed == fragment_changes(*old(self), *final(self), *meta),
            match old(self).terminator->0 {
                Terminator::Branch(c, y, n) => match known(*meta, c) {
                    Some(ConstV::Bool(b)) => {
                        let (target, dead) = if b { (y, n) } else { (n, y) };
                        *final(wb) == if target == dead {
                            Writeback::Once(dead)
                        } else {
                            Writeback::All(dead)
                        }
                    },
                    _ => if y == n {
                        *final(wb) == Writeback::Once(n)
                    } else {
                        *final(wb) == *old(wb)
                    },
                },
                _ => *final(wb) == *old(wb),
            },
    {
        let mut phis: Vec<Phi> = Vec::new();
        std::mem::swap(&mut phis, &mut self.phis);
        let ghost orig = phis@;
        let mut kept: Vec<Phi> = Vec::new();
        let mut loads: Vec<Instruction> = Vec::new();
        let ghost mut i: int = 0;
        while phis.len() > 0
            invariant
                orig == old(self).phis@,
                0 <= i <= orig.len(),
                phis@ == orig.skip(i),
                kept@ == orig.take(i).filter(stays(*meta)),
                loads@.len() == orig.take(i).filter(goes(*meta)).len(),
                forall|k: int|
                    0 <= k < loads@.len() ==> (#[trigger] loads@[k] matches Instruction::Load(d, c)
                        && d == orig.take(i).filter(goes(*meta))[k].var && known(*meta, d) == Some(
                        c@,
                    )),
                self.instructions == old(self).instructions,
                self.terminator == old(self).terminator,
                self.predecessors == old(self).predecessors,
            decreases phis@.len(),
        {
            proof {
                lemma_filter_step(orig, i, stays(*meta));
                lemma_filter_step(orig, i, goes(*meta));
            }
            let p = phis.remove(0);
            assert(p == orig[i]);
            match meta.get(p.var) {
                Lattice::Const(c) => {
                    loads.push(Instruction::Load(p.var, c));
                },
                _ => {
                    kept.push(p);
                },
            }
            proof {
                i = i + 1;
                assert(phis@ =~= orig.skip(i));
            }
        }
        assert(orig.take(i) =~= orig);
        self.phis = kept;
        let ghost gone = orig.filter(goes(*meta));
        let g = loads.len();
        let n = self.instructions.len();
        let mut changed = g > 0;
        let mut j: usize = 0;
        while j < n
            invariant
                n == old(self).instructions@.len(),
                self.instructions@.len() == n,
                j <= n,
                forall|k: int| j <= k < n ==> self.instructions@[k] == old(self).instructions@[k],
                forall|k: int|
                    0 <= k < j ==> folds_to(
                        #[trigger] old(self).instructions@[k],
                        self.instructions@[k],
                        *meta,
                    ),
                changed == (g > 0 || exists|k: int|
                    0 <= k < j && #[trigger] old(self).instructions@[k] != self.instructions@[k]),
                self.phis@ == old(self).phis@.filter(stays(*meta)),
                self.terminator == old(self).terminator,
                self.predecessors == old(self).predecessors,
            decreases n - j,
        {
            if self.instructions[j].rewrite(meta) {
                changed = true;
            }
            j = j + 1;
        }
        let ghost folded = self.instructions@;
        loads.append(&mut self.instructions);
        self.instructions = loads;
        assert(self.instructions@ =~= loads@.subrange(0, g as int) + folded);
        let mut t = self.terminator.unwrap();
        if t.rewrite(meta, wb) {
            changed = true;
        }
        self.terminator = Some(t);
        proof {
            assert forall|k: int| 0 <= k < old(self).instructions@.len() implies folds_to(
                #[trigger] old(self).instructions@[k],
                self.instructions@[gone.len() + k],
                *meta,
            ) by {
                assert(self.instructions@[gone.len() + k] == folded[k]);
            }
            if exists|k: int| 0 <= k < n && #[trigger] old(self).instructions@[k] != folded[k] {
                let k = choose|k: int| 0 <= k < n && #[trigger] old(self).instructions@[k] != folded[k];
                assert(self.instructions@[gone.len() + k] == folded[k]);
            }
        }
        changed
    }
}


/// Whether the rewrite drops the fragment `l` names: a fragment other than
/// the entry and the exit that the analysis did not reach.
pub open spec fn pruned(f: Function, meta: Meta, l: Label) -> bool {
    l is Id && f.has(l) && !meta.seen(l)
}

/// Labels that do not name a pruned fragment.
pub open spec fn alive(f: Function, meta: Meta) -> spec_fn(Label) -> bool {
    |l: Label| !pruned(f, meta, l)
}

/// Phi inputs that do not come from a pruned fragment.
pub open spec fn alive_input(f: Function, meta: Meta) -> spec_fn((Label, Var)) -> bool {
    |x: (Label, Var)| !pruned(f, meta, x.0)
}

/// Labels other than those whose slot is marked in `g`.
pub open spec fn alive_by(g: Seq<bool>) -> spec_fn(Label) -> bool {
    |l: Label| !(l matches Label::Id(i) && i + 2 < g.len() && g[i + 2])
}

/// Phi inputs from labels other than those whose slot is marked in `g`.
pub open spec fn alive_input_by(g: Seq<bool>) -> spec_fn((Label, Var)) -> bool {
    |x: (Label, Var)| !(x.0 matches Label::Id(i) && i + 2 < g.len() && g[i + 2])
}

/// No predecessor entry or phi input of `b` names a pruned fragment.
pub open spec fn clean(b: Fragment, f: Function, meta: Meta) -> bool {
    &&& forall|k: int| 0 <= k < b.predecessors@.len() ==> !pruned(f, meta, #[trigger] b.predecessors@[k])
    &&& forall|k: int, j: int|
        0 <= k < b.phis@.len() && 0 <= j < b.phis@[k].inputs@.len() ==> !pruned(
            f,
            meta,
            (#[trigger] b.phis@[k].inputs@[j]).0,
        )
}

proof fn lemma_clean_thinned(a: Fragment, b: Fragment, f: Function, meta: Meta)
    requires
        thinned(a, b),
        clean(a, f, meta),
    ensures
        clean(b, f, meta),
{
    assert forall|k: int| 0 <= k < b.predecessors@.len() implies !pruned(f, meta, #[trigger] b.predecessors@[k]) by {
        assert(a.predecessors@.contains(b.predecessors@[k]));
    }
    assert forall|k: int, j: int|
        0 <= k < b.phis@.len() && 0 <= j < b.phis@[k].inputs@.len() implies !pruned(
            f,
            meta,
            (#[trigger] b.phis@[k].inputs@[j]).0,
        ) by {
        assert(a.phis@[k].inputs@.contains(b.phis@[k].inputs@[j]));
    }
}

fn is_gone(l: Label, g: &Vec<bool>) -> (b: bool)
    ensures
        b == !alive_by(g@)(l),
{
    match l {
        Label::Id(i) => i < g.len() && g.len() - i > 2 && g[i + 2],
        _ => false,
    }
}

fn sift_labels(v: &Vec<Label>, g: &Vec<bool>) -> (r: Vec<Label>)
    ensures
        r@ == v@.filter(alive_by(g@)),
{
    let mut out: Vec<Label> = Vec::new();
    let mut i: usize = 0;
    while i < v.len()
        invariant
            i <= v@.len(),
            out@ == v@.take(i as int).filter(alive_by(g@)),
        decreases v@.len() - i,
    {
        proof {
            lemma_filter_step(v@, i as int, alive_by(g@));
        }
        if !is_gone(v[i], g) {
            out.push(v[i]);
        }
        i = i + 1;
    }
    assert(v@.take(v@.len() as int) =~= v@);
    out
}

fn sift_inputs(v: &Vec<(Label, Var)>, g: &Vec<bool>) -> (r: Vec<(Label, Var)>)
    ensures
        r@ == v@.filter(alive_input_by(g@)),
{
    let mut out: Vec<(Label, Var)> = Vec::new();
    let mut i: usize = 0;
    while i < v.len()
        invariant
            i <= v@.len(),
            out@ == v@.take(i as int).filter(alive_input_by(g@)),
        decreases v@.len() - i,
    {
        proof {
            lemma_filter_step(v@, i as int, alive_input_by(g@));
        }
        if !is_gone(v[i].0, g) {
            out.push(v[i]);
        }
        i = i + 1;
    }
    assert(v@.take(v@.len() as int) =~= v@);
    out
}

impl Fragment {
    /// Drops the predecessor entries and phi inputs that come from a slot
    /// marked in `g`.
    fn purge(&mut self, g: &Vec<bool>)
        ensures
            final(self).predecessors@ == old(self).predecessors@.filter(alive_by(g@)),
            final(self).phis@.len() == old(self).phis@.len(),
            forall|k: int|
                0 <= k < final(self).phis@.len() ==> (#[trigger] final(self).phis@[k]).var == old(
                    self,
                ).phis@[k].var && final(self).phis@[k].inputs@ == old(self).phis@[k].inputs@.filter(
                    alive_input_by(g@),
                ),
            final(self).instructions == old(self).instructions,
            final(self).terminator == old(self).terminator,
    {
        self.predecessors = sift_labels(&self.predecessors, g);
        let mut k: usize = 0;
        while k < self.phis.len()
            invariant
                k <= self.phis@.len(),
                self.phis@.len() == old(self).phis@.len(),
                self.predecessors@ == old(self).predecessors@.filter(alive_by(g@)),
                forall|i: int|
                    0 <= i < self.phis@.len() ==> (#[trigger] self.phis@[i]).var == old(
                        self,
                    ).phis@[i].var && self.phis@[i].inputs@ == if i < k {
                        old(self).phis@[i].inputs@.filter(alive_input_by(g@))
                    } else {
                        old(self).phis@[i].inputs@
                    },
                self.instructions == old(self).instructions,
                self.terminator == old(self).terminator,
            decreases old(self).phis@.len() - k,
        {
            let sifted = sift_inputs(&self.phis[k].inputs, g);
            self.phis[k].inputs = sifted;
            k = k + 1;
        }
    }
}

impl Function {
    /// Removes the fragments the analysis did not reach, and the
    /// predecessor entries and phi inputs that came from them; a phi left
    /// without inputs stays, for the rewrite to settle.
    fn cut(&mut self, meta: &Meta) -> (changed: bool)
        ensures
            final(self).vars == old(self).vars,
            final(self).args == old(self).args,
            final(self).blocks@.len() == old(self).blocks@.len(),
            forall|s: int|
                0 <= s < old(self).blocks@.len() ==> (#[trigger] final(self).blocks@[s] is Some
                    <==> old(self).blocks@[s] is Some && !pruned(*old(self), *meta, label_of(s))),
            forall|s: int|
                0 <= s < old(self).blocks@.len() && #[trigger] final(self).blocks@[s] is Some ==> {
                    let a = old(self).blocks@[s]->0;
                    let b = final(self).blocks@[s]->0;
                    &&& b.predecessors@ == a.predecessors@.filter(alive(*old(self), *meta))
                    &&& b.phis@.len() == a.phis@.len()
                    &&& forall|k: int|
                        0 <= k < b.phis@.len() ==> (#[trigger] b.phis@[k]).var == a.phis@[k].var
                            && b.phis@[k].inputs@ == a.phis@[k].inputs@.filter(
                            alive_input(*old(self), *meta),
                        )
                    &&& b.instructions == a.instructions
                    &&& b.terminator == a.terminator
                },
            changed == exists|s: int|
                0 <= s < old(self).blocks@.len() && #[trigger] old(self).blocks@[s] is Some
                    && pruned(*old(self), *meta, label_of(s)),
    {
        let n = self.blocks.len();
        let ghost f0 = *self;
        let mut gone: Vec<bool> = Vec::new();
        let mut changed = false;
        let mut s: usize = 0;
        while s < n
            invariant
                f0 == *old(self),
                n == f0.blocks@.len(),
                s <= n,
                gone@.len() == s,
                self.blocks@.len() == n,
                self.vars == f0.vars,
                self.args == f0.args,
                forall|t: int| 0 <= t < s ==> #[trigger] gone@[t] == pruned(f0, *meta, label_of(t)),
                forall|t: int|
                    0 <= t < n ==> #[trigger] self.blocks@[t] == if t < s && gone@[t] {
                        None
                    } else {
                        f0.blocks@[t]
                    },
                changed == exists|t: int| 0 <= t < s && #[trigger] gone@[t],
            decreases n - s,
        {
            let l = label_at(s);
            proof {
                crate::ir::lemma_label_slot(s as int);
            }
            let drop = s >= 2 && self.blocks[s].is_some() && !meta.visits(l);
            if drop {
                self.blocks[s] = None;
                changed = true;
            }
            let ghost g0 = gone@;
            gone.push(drop);
            proof {
                assert(gone@[s as int] == drop);
                if exists|t: int| 0 <= t < s && #[trigger] g0[t] {
                    let t = choose|t: int| 0 <= t < s && #[trigger] g0[t];
                    assert(gone@[t]);
                }
                if exists|t: int| 0 <= t < s + 1 && #[trigger] gone@[t] {
                    let t = choose|t: int| 0 <= t < s + 1 && #[trigger] gone@[t];
                    if t < s {
                        assert(g0[t]);
                    }
                }
            }
            s = s + 1;
        }
        assert(alive_by(gone@) =~= alive(f0, *meta)) by {
            assert forall|l: Label| #[trigger] alive_by(gone@)(l) == alive(f0, *meta)(l) by {
                if let Label::Id(i) = l {
                    if i + 2 < n {
                        assert(gone@[i + 2] == pruned(f0, *meta, label_of(i + 2)));
                        assert(label_of(i + 2) == l);
                    }
                }
            }
        }
        assert(alive_input_by(gone@) =~= alive_input(f0, *meta)) by {
            assert forall|x: (Label, Var)| #[trigger] alive_input_by(gone@)(x) == alive_input(f0, *meta)(x) by {
                assert(alive_by(gone@)(x.0) == alive(f0, *meta)(x.0));
            }
        }
        let ghost f1 = *self;
        let mut s: usize = 0;
        while s < n
            invariant
                f0 == *old(self),
                n == f0.blocks@.len(),
                s <= n,
                gone@.len() == n,
                self.blocks@.len() == n,
                self.vars == f0.vars,
                self.args == f0.args,
                forall|t: int| 0 <= t < n ==> #[trigger] gone@[t] == pruned(f0, *meta, label_of(t)),
                forall|t: int| 0 <= t < n ==> (#[trigger] self.blocks@[t] is Some <==> f1.blocks@[t] is Some),
                forall|t: int|
                    0 <= t < n ==> (#[trigger] f1.blocks@[t] is Some <==> f0.blocks@[t] is Some && !gone@[t]),
                forall|t: int| s <= t < n ==> #[trigger] self.blocks@[t] == f1.blocks@[t],
                forall|t: int| 0 <= t < n && f1.blocks@[t] is Some ==> f1.blocks@[t] == f0.blocks@[t],
                forall|t: int|
                    0 <= t < s && #[trigger] self.blocks@[t] is Some ==> {
                        let a = f0.blocks@[t]->0;
                        let b = self.blocks@[t]->0;
                        &&& b.predecessors@ == a.predecessors@.filter(alive_by(gone@))
                        &&& b.phis@.len() == a.phis@.len()
                        &&& forall|k: int|
                            0 <= k < b.phis@.len() ==> (#[trigger] b.phis@[k]).var == a.phis@[k].var
                                && b.phis@[k].inputs@ == a.phis@[k].inputs@.filter(alive_input_by(gone@))
                        &&& b.instructions == a.instructions
                        &&& b.terminator == a.terminator
                    },
            decreases n - s,
        {
            let mut slot_frag: Option<Fragment> = None;
            std::mem::swap(&mut slot_frag, &mut self.blocks[s]);
            if let Some(mut frag) = slot_frag {
                frag.purge(&gone);
                self.blocks[s] = Some(frag);
            }
            s = s + 1;
        }
        proof {
            assert forall|s: int| 0 <= s < n implies (#[trigger] self.blocks@[s] is Some
                <==> f0.blocks@[s] is Some && !pruned(f0, *meta, label_of(s))) by {
                assert(gone@[s] == pruned(f0, *meta, label_of(s)));
            }
            if changed {
                let t = choose|t: int| 0 <= t < n && #[trigger] gone@[t];
                assert(f0.blocks@[t] is Some);
            }
            if exists|t: int| 0 <= t < n && #[trigger] f0.blocks@[t] is Some && pruned(f0, *meta, label_of(t)) {
                let t = choose|t: int| 0 <= t < n && #[trigger] f0.blocks@[t] is Some && pruned(f0, *meta, label_of(t));
                assert(gone@[t]);
            }
        }
        changed
    }
}



/// A phi as its variable and the inputs it keeps.
pub open spec fn phi_view(p: Phi) -> (Var, Seq<(Label, Var)>) {
    (p.var, p.inputs@)
}

/// A phi as its variable and the inputs that do not come from a pruned
/// fragment.
pub open spec fn thinned_view(f: Function, meta: Meta) -> spec_fn(Phi) -> (Var, Seq<(Label, Var)>) {
    |p: Phi| (p.var, p.inputs@.filter(alive_input(f, meta)))
}

/// A phi that still has an input.
pub open spec fn fed(x: (Var, Seq<(Label, Var)>)) -> bool {
    x.1.len() > 0
}

/// Drops the phis that have no input left.
fn drop_unfed(phis: Vec<Phi>) -> (r: Vec<Phi>)
    ensures
        r@.map_values(|p: Phi| phi_view(p)) == phis@.map_values(|p: Phi| phi_view(p)).filter(|x: (Var, Seq<(Label, Var)>)| fed(x)),
{
    let ghost src = phis@;
    let ghost vs = src.map_values(|p: Phi| phi_view(p));
    let mut out: Vec<Phi> = Vec::new();
    let mut rest = phis;
    let ghost mut i: int = 0;
    while rest.len() > 0
        invariant
            0 <= i <= src.len(),
            rest@ == src.skip(i),
            vs == src.map_values(|p: Phi| phi_view(p)),
            out@.map_values(|p: Phi| phi_view(p)) == vs.take(i).filter(|x: (Var, Seq<(Label, Var)>)| fed(x)),
        decreases rest@.len(),
    {
        let p = rest.remove(0);
        proof {
            assert(p == src[i]);
            assert(vs[i] == phi_view(p));
            lemma_filter_step(vs, i, |x: (Var, Seq<(Label, Var)>)| fed(x));
        }
        let ghost o0 = out@;
        if p.inputs.len() > 0 {
            out.push(p);
            proof {
                assert(out@.map_values(|p: Phi| phi_view(p)) =~= o0.map_values(|p: Phi| phi_view(p)).push(vs[i]));
            }
        }
        proof {
            i = i + 1;
            assert(rest@ =~= src.skip(i));
        }
    }
    assert(vs.take(i) =~= vs);
    out
}

impl Function {
    /// Removes the fragments the analysis did not reach; when one went, the
    /// predecessor entries and phi inputs that came from them go too, and
    /// so do the phis left without inputs.
    pub fn prune(&mut self, meta: &Meta) -> (changed: bool)
        ensures
            final(self).vars == old(self).vars,
            final(self).args == old(self).args,
            final(self).blocks@.len() == old(self).blocks@.len(),
            forall|s: int|
                0 <= s < old(self).blocks@.len() ==> (#[trigger] final(self).blocks@[s] is Some
                    <==> old(self).blocks@[s] is Some && !pruned(*old(self), *meta, label_of(s))),
            forall|s: int|
                0 <= s < old(self).blocks@.len() && #[trigger] final(self).blocks@[s] is Some ==> {
                    let a = old(self).blocks@[s]->0;
                    let b = final(self).blocks@[s]->0;
                    &&& b.predecessors@ == a.predecessors@.filter(alive(*old(self), *meta))
                    &&& b.phis@.map_values(|p: Phi| phi_view(p)) == if changed {
                        a.phis@.map_values(thinned_view(*old(self), *meta)).filter(|x: (Var, Seq<(Label, Var)>)| fed(x))
                    } else {
                        a.phis@.map_values(|p: Phi| phi_view(p))
                    }
                    &&& b.instructions == a.instructions
                    &&& b.terminator == a.terminator
                },
            changed == exists|s: int|
                0 <= s < old(self).blocks@.len() && #[trigger] old(self).blocks@[s] is Some
                    && pruned(*old(self), *meta, label_of(s)),
            !changed ==> *final(self) == *old(self),
    {
        let ghost f0 = *self;
        let n = self.blocks.len();
        let mut any = false;
        let mut s: usize = 0;
        while s < n
            invariant
                n == self.blocks@.len(),
                s <= n,
                any == exists|t: int| 0 <= t < s && #[trigger] self.blocks@[t] is Some && pruned(*self, *meta, label_of(t)),
            decreases n - s,
        {
            let l = label_at(s);
            proof {
                crate::ir::lemma_label_slot(s as int);
            }
            let ghost a0 = any;
            if s >= 2 && self.blocks[s].is_some() && !meta.visits(l) {
                any = true;
            }
            proof {
                if a0 {
                    let t = choose|t: int| 0 <= t < s && #[trigger] self.blocks@[t] is Some && pruned(*self, *meta, label_of(t));
                    assert(0 <= t < s + 1 && self.blocks@[t] is Some && pruned(*self, *meta, label_of(t)));
                }
                if self.blocks@[s as int] is Some && pruned(*self, *meta, label_of(s as int)) {
                    assert(s >= 2);
                }
            }
            s = s + 1;
        }
        if !any {
            proof {
                assert forall|s: int| 0 <= s < f0.blocks@.len() && #[trigger] self.blocks@[s] is Some implies
                    self.blocks@[s]->0.predecessors@ == self.blocks@[s]->0.predecessors@.filter(alive(f0, *meta)) by {
                    let ps = self.blocks@[s]->0.predecessors@;
                    assert forall|k: int| 0 <= k < ps.len() implies #[trigger] alive(f0, *meta)(ps[k]) by {
                        let l = ps[k];
                        if pruned(f0, *meta, l) {
                            crate::ir::lemma_slot_label(l);
                            assert(f0.blocks@[slot_of(l)] is Some && pruned(f0, *meta, label_of(slot_of(l))));
                        }
                    }
                    lemma_filter_all(ps, alive(f0, *meta), ps.len() as int);
                    assert(ps.take(ps.len() as int) =~= ps);
                }
            }
            return false;
        }
        let changed = self.cut(meta);
        let ghost f1 = *self;
        let n = self.blocks.len();
        let mut s: usize = 0;
        while s < n
            invariant
                n == f1.blocks@.len(),
                s <= n,
                self.blocks@.len() == n,
                self.vars == f1.vars,
                self.args == f1.args,
                forall|t: int| 0 <= t < n ==> (#[trigger] self.blocks@[t] is Some <==> f1.blocks@[t] is Some),
                forall|t: int| s <= t < n ==> #[trigger] self.blocks@[t] == f1.blocks@[t],
                forall|t: int|
                    0 <= t < s && #[trigger] self.blocks@[t] is Some ==> {
                        let a = f1.blocks@[t]->0;
                        let b = self.blocks@[t]->0;
                        &&& b.predecessors == a.predecessors
                        &&& b.phis@.map_values(|p: Phi| phi_view(p)) == a.phis@.map_values(|p: Phi| phi_view(p)).filter(
                            |x: (Var, Seq<(Label, Var)>)| fed(x),
                        )
                        &&& b.instructions == a.instructions
                        &&& b.terminator == a.terminator
                    },
            decreases n - s,
        {
            let mut slot_frag: Option<Fragment> = None;
            std::mem::swap(&mut slot_frag, &mut self.blocks[s]);
            if let Some(mut frag) = slot_frag {
                let mut phis: Vec<Phi> = Vec::new();
                std::mem::swap(&mut phis, &mut frag.phis);
                frag.phis = drop_unfed(phis);
                self.blocks[s] = Some(frag);
            }
            s = s + 1;
        }
        proof {
            assert forall|s: int| 0 <= s < f0.blocks@.len() && #[trigger] self.blocks@[s] is Some implies
                f1.blocks@[s]->0.phis@.map_values(|p: Phi| phi_view(p)) == f0.blocks@[s]->0.phis@.map_values(thinned_view(f0, *meta)) by {
                let a = f0.blocks@[s]->0;
                let c = f1.blocks@[s]->0;
                assert(c.phis@.map_values(|p: Phi| phi_view(p)) =~= a.phis@.map_values(thinned_view(f0, *meta)));
            }
        }
        true
    }
}

/// What the rewrite of a function leaves of its fragment `o`: the phis
/// that stay, each with some of its inputs, some of the predecessor
/// entries, none from a pruned fragment, and the instructions and the
/// terminator rewritten.
pub open spec fn rewritten_in(o: Fragment, n: Fragment, f: Function, meta: Meta) -> bool {
    let r = o.phis@.filter(stays(meta));
    let gone = o.phis@.filter(goes(meta));
    &&& n.phis@.len() == r.len()
    &&& forall|k: int|
        0 <= k < n.phis@.len() ==> {
            &&& (#[trigger] n.phis@[k]).var == r[k].var
            &&& forall|j: int|
                0 <= j < n.phis@[k].inputs@.len() ==> r[k].inputs@.contains(
                    #[trigger] n.phis@[k].inputs@[j],
                ) && !pruned(f, meta, n.phis@[k].inputs@[j].0)
        }
    &&& forall|k: int|
        0 <= k < n.predecessors@.len() ==> o.predecessors@.contains(#[trigger] n.predecessors@[k])
            && !pruned(f, meta, n.predecessors@[k])
    &&& n.terminator == Some(term_rewrite(o.terminator->0, meta))
    &&& n.instructions@.len() == gone.len() + o.instructions@.len()
    &&& forall|k: int|
        0 <= k < gone.len() ==> (#[trigger] n.instructions@[k] matches Instruction::Load(d, c)
            && d == gone[k].var && known(meta, d) == Some(c@))
    &&& forall|k: int|
        0 <= k < o.instructions@.len() ==> folds_to(
            #[trigger] o.instructions@[k],
            n.instructions@[gone.len() + k],
            meta,
        )
}

proof fn lemma_rewritten_in(o: Fragment, m: Fragment, n: Fragment, f: Function, meta: Meta)
    requires
        fragment_rewritten(o, m, meta),
        thinned(m, n),
        clean(n, f, meta),
    ensures
        rewritten_in(o, n, f, meta),
{
    let r = o.phis@.filter(stays(meta));
    assert forall|k: int| 0 <= k < n.phis@.len() implies {
        &&& (#[trigger] n.phis@[k]).var == r[k].var
        &&& forall|j: int|
            0 <= j < n.phis@[k].inputs@.len() ==> r[k].inputs@.contains(
                #[trigger] n.phis@[k].inputs@[j],
            ) && !pruned(f, meta, n.phis@[k].inputs@[j].0)
    } by {
        assert(m.phis@[k] == r[k]);
    }
    assert forall|k: int| 0 <= k < n.predecessors@.len() implies o.predecessors@.contains(
        #[trigger] n.predecessors@[k],
    ) && !pruned(f, meta, n.predecessors@[k]) by {
        assert(m.predecessors@.contains(n.predecessors@[k]));
    }
}

/// A fragment rewritten as above is well formed in the rewritten function.
proof fn lemma_rewritten_ok(o: Fragment, n: Fragment, f: Function, g: Function, meta: Meta)
    requires
        f.frag_ok(o),
        rewritten_in(o, n, f, meta),
        g.vars == f.vars,
        forall|l: Label| #[trigger] g.has(l) <== f.has(l) && kept(meta, l),
        forall|k: int|
            0 <= k < term_rewrite(o.terminator->0, meta).targets().len() ==> kept(
                meta,
                #[trigger] term_rewrite(o.terminator->0, meta).targets()[k],
            ) && f.has(term_rewrite(o.terminator->0, meta).targets()[k]),
    ensures
        g.frag_ok(n),
{
    let t = o.terminator->0;
    let nt = term_rewrite(t, meta);
    assert forall|k: int| 0 <= k < nt.reads().len() implies #[trigger] nt.reads()[k] < g.vars by {
        assert(nt.reads()[k] == t.reads()[k]);
    }
    assert forall|k: int| 0 <= k < n.predecessors@.len() implies g.has(#[trigger] n.predecessors@[k]) by {
        let l = n.predecessors@[k];
        assert(o.predecessors@.contains(l));
        let i = choose|i: int| 0 <= i < o.predecessors@.len() && o.predecessors@[i] == l;
        assert(f.has(o.predecessors@[i]));
    }
    let r = o.phis@.filter(stays(meta));
    broadcast use vstd::seq_lib::group_filter_ensures;
    assert forall|k: int| 0 <= k < n.phis@.len() implies {
        &&& (#[trigger] n.phis@[k]).var < g.vars
        &&& forall|j: int|
            0 <= j < n.phis@[k].inputs@.len() ==> (#[trigger] n.phis@[k].inputs@[j]).1 < g.vars
    } by {
        lemma_filter_sub(o.phis@, stays(meta));
        assert(o.phis@.contains(r[k]));
        let i = choose|i: int| 0 <= i < o.phis@.len() && o.phis@[i] == r[k];
        assert(o.phis@[i].var < f.vars);
        assert forall|j: int| 0 <= j < n.phis@[k].inputs@.len() implies (#[trigger] n.phis@[k].inputs@[j]).1 < g.vars by {
            assert(r[k].inputs@.contains(n.phis@[k].inputs@[j]));
            let q = choose|q: int| 0 <= q < r[k].inputs@.len() && r[k].inputs@[q] == n.phis@[k].inputs@[j];
            assert(o.phis@[i].inputs@[q].1 < f.vars);
        }
    }
    let gone = o.phis@.filter(goes(meta));
    assert forall|k: int| 0 <= k < n.instructions@.len() implies {
        &&& (#[trigger] n.instructions@[k]).def() < g.vars
        &&& forall|j: int|
            0 <= j < n.instructions@[k].reads().len() ==> #[trigger] n.instructions@[k].reads()[j]
                < g.vars
    } by {
        if k < gone.len() {
            lemma_filter_sub(o.phis@, goes(meta));
            assert(o.phis@.contains(gone[k]));
            let i = choose|i: int| 0 <= i < o.phis@.len() && o.phis@[i] == gone[k];
            assert(o.phis@[i].var < f.vars);
        } else {
            let q = k - gone.len();
            assert(folds_to(o.instructions@[q], n.instructions@[k], meta));
            assert(o.instructions@[q].def() < f.vars);
            assert forall|j: int| 0 <= j < n.instructions@[k].reads().len() implies #[trigger] n.instructions@[k].reads()[j]
                < g.vars by {
                if n.instructions@[k] != o.instructions@[q] {
                    assert(n.instructions@[k] is Load);
                } else {
                    assert(o.instructions@[q].reads()[j] < f.vars);
                }
            }
        }
    }
}

impl Function {
    /// Rewrites the function with what the analysis found: drops the
    /// fragments it did not reach, turns constant phis and operations into
    /// loads, simplifies the branches it decided, and makes the abandoned
    /// targets forget the branch. The analysis must have decided every
    /// branch that could lead out of the reached fragments.
    pub fn rewrite(&mut self, meta: &Meta) -> (changed: bool)
        requires
            old(self).wf(),
            settled(*old(self), *meta),
        ensures
            final(self).wf(),
            final(self).vars == old(self).vars,
            final(self).args == old(self).args,
            final(self).blocks@.len() == old(self).blocks@.len(),
            forall|s: int|
                0 <= s < old(self).blocks@.len() ==> (#[trigger] final(self).blocks@[s] is Some
                    <==> old(self).blocks@[s] is Some && kept(*meta, label_of(s))),
            forall|s: int|
                0 <= s < old(self).blocks@.len() && #[trigger] final(self).blocks@[s] is Some
                    ==> rewritten_in(
                    old(self).blocks@[s]->0,
                    final(self).blocks@[s]->0,
                    *old(self),
                    *meta,
                ),
            changed == exists|s: int|
                0 <= s < old(self).blocks@.len() && #[trigger] old(self).blocks@[s] is Some && (
                !kept(*meta, label_of(s)) || fragment_changes(
                    old(self).blocks@[s]->0,
                    final(self).blocks@[s]->0,
                    *meta,
                )),
    {
        let ghost f0 = *self;
        let n = self.blocks.len();
        let mut changed = false;
        let mut wbs: Vec<(Writeback, Label)> = Vec::new();
        let mut s: usize = 0;
        while s < n
            invariant
                f0 == *old(self),
                f0.wf(),
                n == f0.blocks@.len(),
                s <= n,
                self.blocks@.len() == n,
                self.vars == f0.vars,
                self.args == f0.args,
                forall|t: int| 0 <= t < n ==> (#[trigger] self.blocks@[t] is Some <==> f0.blocks@[t] is Some),
                forall|t: int|
                    0 <= t < n && #[trigger] self.blocks@[t] is Some ==> if t < s && kept(
                        *meta,
                        label_of(t),
                    ) {
                        fragment_rewritten(f0.blocks@[t]->0, self.blocks@[t]->0, *meta)
                    } else {
                        self.blocks@[t] == f0.blocks@[t]
                    },
                changed == exists|t: int|
                    0 <= t < s && #[trigger] f0.blocks@[t] is Some && kept(*meta, label_of(t))
                        && fragment_changes(f0.blocks@[t]->0, self.blocks@[t]->0, *meta),
            decreases n - s,
        {
            let l = label_at(s);
            let ghost before = self.blocks@;
            if (s < 2 || meta.visits(l)) && self.blocks[s].is_some() {
                let mut slot_frag: Option<Fragment> = None;
                std::mem::swap(&mut slot_frag, &mut self.blocks[s]);
                let mut frag = slot_frag.unwrap();
                assert(f0.frag_ok(frag));
                let mut wb = Writeback::Nothing;
                let c = frag.rewrite(meta, &mut wb);
                self.blocks[s] = Some(frag);
                wbs.push((wb, l));
                proof {
                    if c {
                        assert(f0.blocks@[s as int] is Some && kept(*meta, label_of(s as int)));
                    }
                }
                if c {
                    changed = true;
                }
            }
            proof {
                assert(kept(*meta, label_of(s as int)) == (s < 2 || meta.seen(l)));
                if exists|t: int|
                    0 <= t < s + 1 && #[trigger] f0.blocks@[t] is Some && kept(*meta, label_of(t))
                        && fragment_changes(f0.blocks@[t]->0, self.blocks@[t]->0, *meta) {
                    let t = choose|t: int|
                        0 <= t < s + 1 && #[trigger] f0.blocks@[t] is Some && kept(*meta, label_of(t))
                            && fragment_changes(f0.blocks@[t]->0, self.blocks@[t]->0, *meta);
                    if t < s {
                        assert(self.blocks@[t] == before[t]);
                    }
                }
                if exists|t: int|
                    0 <= t < s && #[trigger] f0.blocks@[t] is Some && kept(*meta, label_of(t))
                        && fragment_changes(f0.blocks@[t]->0, before[t]->0, *meta) {
                    let t = choose|t: int|
                        0 <= t < s && #[trigger] f0.blocks@[t] is Some && kept(*meta, label_of(t))
                            && fragment_changes(f0.blocks@[t]->0, before[t]->0, *meta);
                    assert(self.blocks@[t] == before[t]);
                }
            }
            s = s + 1;
        }
        let ghost f1 = *self;
        proof {
            assert forall|l: Label| #[trigger] f1.has(l) == f0.has(l) by {
                let t = slot_of(l);
                if 0 <= t < n {
                    assert(f1.blocks@[t] is Some <==> f0.blocks@[t] is Some);
                }
            }
            assert forall|l: Label| #[trigger] pruned(f1, *meta, l) == pruned(f0, *meta, l) by {
                assert(f1.has(l) == f0.has(l));
            }
        }
        let pruned_any = self.cut(meta);
        if pruned_any {
            changed = true;
        }
        let ghost f2 = *self;
        proof {
            assert forall|t: int| 0 <= t < n && #[trigger] f2.blocks@[t] is Some implies thinned(
                f1.blocks@[t]->0,
                f2.blocks@[t]->0,
            ) && clean(f2.blocks@[t]->0, f0, *meta) by {
                let a = f1.blocks@[t]->0;
                let b = f2.blocks@[t]->0;
                lemma_filter_sub(a.predecessors@, alive(f1, *meta));
                assert forall|k: int| 0 <= k < b.phis@.len() implies {
                    &&& (#[trigger] b.phis@[k]).var == a.phis@[k].var
                    &&& forall|j: int|
                        0 <= j < b.phis@[k].inputs@.len() ==> a.phis@[k].inputs@.contains(
                            #[trigger] b.phis@[k].inputs@[j],
                        )
                } by {
                    lemma_filter_sub(a.phis@[k].inputs@, alive_input(f1, *meta));
                }
                assert forall|k: int| 0 <= k < b.predecessors@.len() implies !pruned(
                    f0,
                    *meta,
                    #[trigger] b.predecessors@[k],
                ) by {
                    assert(alive(f1, *meta)(b.predecessors@[k]));
                    assert(pruned(f1, *meta, b.predecessors@[k]) == pruned(f0, *meta, b.predecessors@[k]));
                }
                assert forall|k: int, j: int|
                    0 <= k < b.phis@.len() && 0 <= j < b.phis@[k].inputs@.len() implies !pruned(
                        f0,
                        *meta,
                        (#[trigger] b.phis@[k].inputs@[j]).0,
                    ) by {
                    lemma_filter_sub(a.phis@[k].inputs@, alive_input(f1, *meta));
                    assert(alive_input(f1, *meta)(b.phis@[k].inputs@[j]));
                    assert(pruned(f1, *meta, b.phis@[k].inputs@[j].0) == pruned(
                        f0,
                        *meta,
                        b.phis@[k].inputs@[j].0,
                    ));
                }
            }
            assert forall|t: int| 0 <= t < n implies (#[trigger] f2.blocks@[t] is Some <==> f0.blocks@[t] is Some
                && kept(*meta, label_of(t))) by {
                crate::ir::lemma_label_slot(t);
                assert(f1.blocks@[t] is Some <==> f0.blocks@[t] is Some);
                assert(pruned(f1, *meta, label_of(t)) == pruned(f0, *meta, label_of(t)));
            }
        }
        let mut w: usize = 0;
        while w < wbs.len()
            invariant
                n == f0.blocks@.len(),
                self.blocks@.len() == n,
                self.vars == f0.vars,
                self.args == f0.args,
                forall|t: int| 0 <= t < n ==> (#[trigger] self.blocks@[t] is Some <==> f2.blocks@[t] is Some),
                forall|t: int|
                    0 <= t < n && #[trigger] self.blocks@[t] is Some ==> thinned(
                        f2.blocks@[t]->0,
                        self.blocks@[t]->0,
                    ),
            decreases wbs@.len() - w,
        {
            let (wb, delete) = wbs[w];
            let (from, once) = match wb {
                Writeback::All(from) => (Some(from), false),
                Writeback::Once(from) => (Some(from), true),
                Writeback::Nothing => (None, false),
            };
            if let Some(from) = from {
                let target: Option<usize> = match from {
                    Label::Entry => Some(0),
                    Label::Exit => Some(1),
                    Label::Id(i) => if i < n && n - i > 2 {
                        Some(i + 2)
                    } else {
                        None
                    },
                };
                if let Some(t) = target {
                    if t < n && self.blocks[t].is_some() {
                        let mut slot_frag: Option<Fragment> = None;
                        std::mem::swap(&mut slot_frag, &mut self.blocks[t]);
                        let mut frag = slot_frag.unwrap();
                        let ghost before = frag;
                        frag.forget(delete, once);
                        proof {
                            lemma_thinned_trans(f2.blocks@[t as int]->0, before, frag);
                        }
                        self.blocks[t] = Some(frag);
                    }
                }
            }
            w = w + 1;
        }
        proof {
            let f3 = *self;
            assert forall|t: int| 0 <= t < n && #[trigger] f3.blocks@[t] is Some implies rewritten_in(
                f0.blocks@[t]->0,
                f3.blocks@[t]->0,
                f0,
                *meta,
            ) && fragment_changes(f0.blocks@[t]->0, f3.blocks@[t]->0, *meta) == fragment_changes(
                f0.blocks@[t]->0,
                f1.blocks@[t]->0,
                *meta,
            ) by {
                assert(f2.blocks@[t] is Some);
                assert(f0.blocks@[t] is Some && kept(*meta, label_of(t)));
                lemma_thinned_trans(f1.blocks@[t]->0, f2.blocks@[t]->0, f3.blocks@[t]->0);
                lemma_clean_thinned(f2.blocks@[t]->0, f3.blocks@[t]->0, f0, *meta);
                lemma_rewritten_in(f0.blocks@[t]->0, f1.blocks@[t]->0, f3.blocks@[t]->0, f0, *meta);
            }
            assert forall|l: Label| f0.has(l) && kept(*meta, l) implies #[trigger] f3.has(l) by {
                crate::ir::lemma_slot_label(l);
                let t = slot_of(l);
                if 0 <= t < n {
                    assert(f2.blocks@[t] is Some <==> f0.blocks@[t] is Some && kept(*meta, label_of(t)));
                }
            }
            assert forall|t: int| 0 <= t < n && #[trigger] f3.blocks@[t] is Some implies f3.frag_ok(
                f3.blocks@[t]->0,
            ) by {
                assert(f0.frag_ok(f0.blocks@[t]->0));
                assert(f2.blocks@[t] is Some);
                assert(kept(*meta, label_of(t)));
                lemma_rewritten_ok(f0.blocks@[t]->0, f3.blocks@[t]->0, f0, f3, *meta);
            }
            assert(f3.blocks@[0] is Some) by {
                assert(f2.blocks@[0] is Some);
            }
            assert(f3.blocks@[1] is Some) by {
                assert(f2.blocks@[1] is Some);
            }
            if exists|t: int|
                0 <= t < n && #[trigger] f0.blocks@[t] is Some && (!kept(*meta, label_of(t))
                    || fragment_changes(f0.blocks@[t]->0, f3.blocks@[t]->0, *meta)) {
                let t = choose|t: int|
                    0 <= t < n && #[trigger] f0.blocks@[t] is Some && (!kept(*meta, label_of(t))
                        || fragment_changes(f0.blocks@[t]->0, f3.blocks@[t]->0, *meta));
                if !kept(*meta, label_of(t)) {
                    crate::ir::lemma_label_slot(t);
                    assert(f1.blocks@[t] is Some);
                    assert(pruned(f1, *meta, label_of(t)));
                } else {
                    assert(f2.blocks@[t] is Some);
                }
            }
            if changed {
                if exists|t: int|
                    0 <= t < n && #[trigger] f0.blocks@[t] is Some && kept(*meta, label_of(t))
                        && fragment_changes(f0.blocks@[t]->0, f1.blocks@[t]->0, *meta) {
                    let t = choose|t: int|
                        0 <= t < n && #[trigger] f0.blocks@[t] is Some && kept(*meta, label_of(t))
                            && fragment_changes(f0.blocks@[t]->0, f1.blocks@[t]->0, *meta);
                    assert(f2.blocks@[t] is Some);
                } else {
                    let t = choose|t: int|
                        0 <= t < n && #[trigger] f1.blocks@[t] is Some && pruned(f1, *meta, label_of(t));
                    assert(f0.blocks@[t] is Some);
                }
            }
        }
        changed
    }
}

} // verus!
