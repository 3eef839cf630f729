use vstd::prelude::*;
use crate::analyze::Meta;
use crate::bytecode::Group;
use crate::eval::Fault;
use crate::ir::{label_at, label_of, BinOp, Const, Function, Label, Terminator, Var};
use crate::rewrite::{fragment_changes, kept, rewritten_in, settled, term_rewrite, Writeback};
use crate::analyze::{analysis_fails, closed, derivable, stable};
use crate::context::settles;
use crate::rename::{dropped_exactly, phis_apart, renamed_in};
use crate::sweep::{is_live, swept};
use crate::compact::{merge_step, redundant};
use crate::codegen::no_critical_edge;

verus! {

/// `m` is what the analysis of `f` found: a state it comes to, with closed
/// reachability that enters at the entry and reaches the exit, and values
/// that are a fixed point.
pub open spec fn analysed<F: Fn(BinOp, u32, u32) -> Const>(f: Function, m: Meta, float: F) -> bool {
    &&& derivable(f, float, m)
    &&& m.ok(f)
    &&& closed(m, f)
    &&& stable(m, f, float)
    &&& m.seen(Label::Entry)
    &&& m.seen(Label::Exit)
}

/// The fragments of `a` and `b` sit in the same slots.
pub open spec fn same_slots(a: Function, b: Function) -> bool {
    &&& b.wf()
    &&& b.vars == a.vars
    &&& b.args == a.args
    &&& b.blocks@.len() == a.blocks@.len()
}

/// `b` is `a` rewritten with what `m` found; `changed` tells whether a
/// fragment was dropped or changed.
pub open spec fn rewrites(a: Function, b: Function, m: Meta, changed: bool) -> bool {
    &&& same_slots(a, b)
    &&& forall|s: int| 0 <= s < a.blocks@.len() ==> (#[trigger] b.blocks@[s] is Some <==> a.blocks@[s] is Some && kept(m, label_of(s)))
    &&& forall|s: int| 0 <= s < a.blocks@.len() && #[trigger] b.blocks@[s] is Some ==> rewritten_in(a.blocks@[s]->0, b.blocks@[s]->0, a, m)
    &&& changed == exists|s: int|
        0 <= s < a.blocks@.len() && #[trigger] a.blocks@[s] is Some && (!kept(m, label_of(s)) || fragment_changes(
            a.blocks@[s]->0,
            b.blocks@[s]->0,
            m,
        ))
}

/// `b` is `a` with its trivial phis replaced by their sources; when no two
/// phis of `a` define one variable, exactly the phis dropped are mapped, to
/// what they copied.
pub open spec fn renames(a: Function, b: Function, changed: bool) -> bool {
    &&& same_slots(a, b)
    &&& forall|s: int| 0 <= s < a.blocks@.len() ==> (#[trigger] b.blocks@[s] is Some <==> a.blocks@[s] is Some)
    &&& exists|m: Map<Var, Var>|
        {
            &&& settles(m)
            &&& changed == !m.dom().is_empty()
            &&& forall|s: int| 0 <= s < a.blocks@.len() && #[trigger] b.blocks@[s] is Some ==> renamed_in(a.blocks@[s]->0, b.blocks@[s]->0, m)
            &&& phis_apart(a) ==> dropped_exactly(a, b, m)
        }
}

/// `b` is `a` without the phis and functional instructions nothing needs.
pub open spec fn sweeps(a: Function, b: Function, changed: bool) -> bool {
    &&& same_slots(a, b)
    &&& forall|s: int| 0 <= s < a.blocks@.len() ==> (#[trigger] b.blocks@[s] is Some <==> a.blocks@[s] is Some)
    &&& exists|live: Set<Var>|
        {
            &&& is_live(a, live)
            &&& forall|s: int| 0 <= s < a.blocks@.len() && #[trigger] b.blocks@[s] is Some ==> swept(a.blocks@[s]->0, b.blocks@[s]->0, live)
        }
    &&& changed == exists|s: int|
        0 <= s < a.blocks@.len() && #[trigger] b.blocks@[s] is Some && (b.blocks@[s]->0.phis@.len() != a.blocks@[s]->0.phis@.len()
            || b.blocks@[s]->0.instructions@.len() != a.blocks@[s]->0.instructions@.len())
}

/// `b` is `a` with the fragments that only jump on merged away.
pub open spec fn compacts(a: Function, b: Function, changed: bool) -> bool {
    &&& same_slots(a, b)
    &&& forall|s: int| 0 <= s < a.blocks@.len() && #[trigger] b.blocks@[s] is Some ==> a.blocks@[s] is Some
    &&& forall|s: int| !redundant(b, s)
    &&& changed == exists|s: int| 0 <= s < a.blocks@.len() && #[trigger] a.blocks@[s] is Some && b.blocks@[s] is None
    &&& exists|trace: Seq<Function>|
        {
            &&& trace.len() >= 1
            &&& trace[0] == a
            &&& trace.last() == b
            &&& forall|i: int| 0 <= i < trace.len() - 1 ==> #[trigger] merge_step(trace[i], trace[i + 1])
        }
}

/// One round of the optimizer takes `a` to `b` through the functions in
/// between; `changed` tells whether one of its passes changed something.
pub open spec fn round_through<F: Fn(BinOp, u32, u32) -> Const>(
    a: Function,
    m: Meta,
    x: Function,
    y: Function,
    z: Function,
    b: Function,
    flags: (bool, bool, bool, bool),
    float: F,
) -> bool {
    &&& analysed(a, m, float)
    &&& settled(a, m)
    &&& rewrites(a, x, m, flags.0)
    &&& renames(x, y, flags.1)
    &&& sweeps(y, z, flags.2)
    &&& compacts(z, b, flags.3)
}

/// One round of the optimizer takes `a` to `b`.
pub open spec fn one_round<F: Fn(BinOp, u32, u32) -> Const>(a: Function, b: Function, changed: bool, float: F) -> bool {
    exists|m: Meta, x: Function, y: Function, z: Function, flags: (bool, bool, bool, bool)|
        #[trigger] round_through(a, m, x, y, z, b, flags, float) && changed == (flags.0 || flags.1 || flags.2 || flags.3)
}

/// `trace` runs rounds of the optimizer from its first function to its
/// last, each but the last one changing something, with `flags` telling
/// which round changed something; at most `limit` rounds, and fewer only
/// when the last round changed nothing.
pub open spec fn optimized<F: Fn(BinOp, u32, u32) -> Const>(trace: Seq<Function>, flags: Seq<bool>, limit: nat, float: F) -> bool {
    &&& trace.len() == flags.len() + 1
    &&& flags.len() <= limit
    &&& forall|i: int| 0 <= i < flags.len() ==> #[trigger] one_round(trace[i], trace[i + 1], flags[i], float)
    &&& forall|i: int| 0 <= i < flags.len() - 1 ==> #[trigger] flags[i]
    &&& flags.len() < limit ==> flags.len() > 0 && !flags.last()
}

/// One round of the optimizer without jump threading takes `a` to `b`.
pub open spec fn cleaned<F: Fn(BinOp, u32, u32) -> Const>(a: Function, b: Function, float: F) -> bool {
    exists|m: Meta, x: Function, y: Function, flags: (bool, bool, bool)|
        #![trigger analysed(a, m, float), rewrites(a, x, m, flags.0), renames(x, y, flags.1)]
        {
            &&& analysed(a, m, float)
            &&& settled(a, m)
            &&& rewrites(a, x, m, flags.0)
            &&& renames(x, y, flags.1)
            &&& sweeps(y, b, flags.2)
        }
}

/// `b` is what optimizing `a` gives: at most `limit` full rounds, or one
/// round without jump threading.
pub open spec fn improved<F: Fn(BinOp, u32, u32) -> Const>(a: Function, b: Function, limit: nat, float: F, full: bool) -> bool {
    if full {
        exists|trace: Seq<Function>, flags: Seq<bool>|
            #[trigger] optimized(trace, flags, limit, float) && trace[0] == a && trace.last() == b
    } else {
        cleaned(a, b, float)
    }
}

/// A round of the optimizer on `f` is refused with `e`: the analysis fails
/// with it, or it leaves a branch of a reached fragment undecided and `e`
/// says so.
pub open spec fn stuck<F: Fn(BinOp, u32, u32) -> Const>(f: Function, float: F, e: Fault) -> bool {
    ||| analysis_fails(f, float, e)
    ||| e is UndeterminedValue && exists|m: Meta| #[trigger] analysed(f, m, float) && !settled(f, m)
}

/// `trace` runs fewer than `limit` rounds of the optimizer from its first
/// function to its last, each changing something.
pub open spec fn changing<F: Fn(BinOp, u32, u32) -> Const>(trace: Seq<Function>, limit: nat, float: F) -> bool {
    &&& 1 <= trace.len() <= limit
    &&& forall|i: int| 0 <= i < trace.len() - 1 ==> #[trigger] one_round(trace[i], trace[i + 1], true, float)
}

/// Optimizing `f` is refused with `e`: at most `limit` full rounds, each but
/// the refused one changing something, or one round without jump threading.
pub open spec fn fails_on<F: Fn(BinOp, u32, u32) -> Const>(f: Function, limit: nat, float: F, full: bool, e: Fault) -> bool {
    if full {
        exists|trace: Seq<Function>| #[trigger] changing(trace, limit, float) && trace[0] == f && stuck(trace.last(), float, e)
    } else {
        stuck(f, float, e)
    }
}

impl Function {
    /// Whether a label names a fragment that the rewrite keeps.
    fn keeps(&self, meta: &Meta, l: Label) -> (b: bool)
        ensures
            b == (kept(*meta, l) && self.has(l)),
    {
        (l == Label::Entry || l == Label::Exit || meta.visits(l)) && self.contains(l)
    }

    /// Whether the analysis decided every branch that leads out of the
    /// fragments it reached, so that the rewrite keeps every target.
    pub fn decided(&self, meta: &Meta) -> (b: bool)
        ensures
            b == settled(*self, *meta),
    {
        let n = self.blocks.len();
        let mut s: usize = 0;
        while s < n
            invariant
                n == self.blocks@.len(),
                s <= n,
                forall|q: int|
                    0 <= q < s && #[trigger] self.blocks@[q] is Some && kept(*meta, label_of(q))
                        && self.blocks@[q]->0.terminator is Some ==> {
                        let t = term_rewrite(self.blocks@[q]->0.terminator->0, *meta);
                        forall|k: int|
                            0 <= k < t.targets().len() ==> kept(*meta, #[trigger] t.targets()[k]) && self.has(
                                t.targets()[k],
                            )
                    },
            decreases n - s,
        {
            let l = label_at(s);
            if let Some(x) = &self.blocks[s] {
                if let Some(term) = x.terminator {
                    if s < 2 || meta.visits(l) {
                        let mut t = term;
                        let mut wb = Writeback::Nothing;
                        t.rewrite(meta, &mut wb);
                        let ok = match t {
                            Terminator::Jump(y) => self.keeps(meta, y),
                            Terminator::Branch(_, y, z) => self.keeps(meta, y) && self.keeps(meta, z),
                            Terminator::Return(_) => true,
                        };
                        if !ok {
                            proof {
                                assert(kept(*meta, label_of(s as int)));
                                let tt = term_rewrite(term, *meta);
                                assert(t == tt);
                                match t {
                                    Terminator::Jump(y) => {
                                        assert(tt.targets()[0] == y);
                                    },
                                    Terminator::Branch(_, y, z) => {
                                        assert(tt.targets()[0] == y);
                                        assert(tt.targets()[1] == z);
                                    },
                                    Terminator::Return(_) => {},
                                }
                                assert(self.blocks@[s as int] is Some);
                            }
                            return false;
                        }
                    }
                }
            }
            s = s + 1;
        }
        true
    }

    /// Optimizes the function: at most `limit` rounds of constant
    /// propagation, rewriting, phi elimination, dead code elimination and
    /// jump threading, until a round changes nothing. `float` folds
    /// operations on two floats. Refused when the analysis leaves a branch
    /// undecided on a reached fragment.
    pub fn optimize<F: Fn(BinOp, u32, u32) -> Const>(&mut self, limit: usize, float: &F) -> (r: Result<(), Fault>)
        requires
            old(self).wf(),
            forall|o: BinOp, x: u32, y: u32| float.requires((o, x, y)),
        ensures
            final(self).wf(),
            final(self).vars == old(self).vars,
            final(self).args == old(self).args,
            final(self).blocks@.len() == old(self).blocks@.len(),
            r is Ok ==> exists|trace: Seq<Function>, flags: Seq<bool>|
                #[trigger] optimized(trace, flags, limit as nat, *float) && trace[0] == *old(self) && trace.last() == *final(self),
            r matches Err(e) ==> exists|trace: Seq<Function>|
                #[trigger] changing(trace, limit as nat, *float) && trace[0] == *old(self) && trace.last() == *final(self)
                    && stuck(*final(self), *float, e),
    {
        let mut round: usize = 0;
        let ghost mut trace: Seq<Function> = seq![*self];
        let ghost mut flags: Seq<bool> = Seq::empty();
        while round < limit
            invariant_except_break
                flags.len() == round,
                forall|i: int| 0 <= i < flags.len() ==> #[trigger] flags[i],
            invariant
                self.wf(),
                self.vars == old(self).vars,
                self.args == old(self).args,
                self.blocks@.len() == old(self).blocks@.len(),
                forall|o: BinOp, x: u32, y: u32| float.requires((o, x, y)),
                round <= limit,
                flags.len() <= limit,
                trace.len() == flags.len() + 1,
                trace[0] == *old(self),
                trace.last() == *self,
                forall|i: int| 0 <= i < flags.len() ==> #[trigger] one_round(trace[i], trace[i + 1], flags[i], *float),
            ensures
                self.wf(),
                self.vars == old(self).vars,
                self.args == old(self).args,
                self.blocks@.len() == old(self).blocks@.len(),
                optimized(trace, flags, limit as nat, *float),
                trace[0] == *old(self),
                trace.last() == *self,
            decreases limit - round,
        {
            let ghost f0 = *self;
            proof {
                assert forall|i: int| 0 <= i < trace.len() - 1 implies #[trigger] one_round(trace[i], trace[i + 1], true, *float) by {
                    assert(flags[i]);
                }
                assert(changing(trace, limit as nat, *float));
            }
            let meta = match self.analyze(float) {
                Ok(m) => m,
                Err(e) => {
                    return Err(e);
                },
            };
            if !self.decided(&meta) {
                assert(analysed(*self, meta, *float));
                return Err(Fault::UndeterminedValue);
            }
            let a = self.rewrite(&meta);
            let ghost f1 = *self;
            let b = self.rename();
            let ghost f2 = *self;
            let c = self.sweep();
            let ghost f3 = *self;
            let d = self.compact();
            proof {
                assert(round_through(f0, meta, f1, f2, f3, *self, (a, b, c, d), *float));
                assert(one_round(f0, *self, a || b || c || d, *float));
                trace = trace.push(*self);
                flags = flags.push(a || b || c || d);
            }
            if !(a || b || c || d) {
                break;
            }
            round = round + 1;
        }
        Ok(())
    }

    /// One round of the optimizer: constant propagation, rewriting, phi
    /// elimination and dead code elimination.
    fn dce<F: Fn(BinOp, u32, u32) -> Const>(&mut self, float: &F) -> (r: Result<(), Fault>)
        requires
            old(self).wf(),
            forall|o: BinOp, x: u32, y: u32| float.requires((o, x, y)),
        ensures
            final(self).wf(),
            final(self).vars == old(self).vars,
            final(self).args == old(self).args,
            final(self).blocks@.len() == old(self).blocks@.len(),
            r is Ok ==> cleaned(*old(self), *final(self), *float),
            r matches Err(e) ==> stuck(*old(self), *float, e) && *final(self) == *old(self),
    {
        let ghost f0 = *self;
        let meta = match self.analyze(float) {
            Ok(m) => m,
            Err(e) => {
                return Err(e);
            },
        };
        if !self.decided(&meta) {
            assert(analysed(*self, meta, *float));
            return Err(Fault::UndeterminedValue);
        }
        let a = self.rewrite(&meta);
        let ghost f1 = *self;
        let b = self.rename();
        let ghost f2 = *self;
        let c = self.sweep();
        proof {
            let fl = (a, b, c);
            assert(analysed(f0, meta, *float) && rewrites(f0, f1, meta, fl.0) && renames(f1, f2, fl.1) && sweeps(f2, *self, fl.2));
        }
        Ok(())
    }
}

/// A program in SSA form: its groups, its functions by key, and `main`.
pub struct Demiurge {
    pub groups: Vec<(usize, Group)>,
    pub fns: Vec<(usize, Function)>,
    pub main: Function,
}

impl Demiurge {
    /// Every function of the program is well formed.
    pub open spec fn wf(self) -> bool {
        &&& self.main.wf()
        &&& forall|i: int| 0 <= i < self.fns@.len() ==> (#[trigger] self.fns@[i]).1.wf()
    }

    /// The keys of the functions, in order.
    pub open spec fn keys(self) -> Seq<usize> {
        self.fns@.map_values(|e: (usize, Function)| e.0)
    }

    fn each<F: Fn(BinOp, u32, u32) -> Const>(&mut self, limit: usize, float: &F, full: bool) -> (r: Result<(), Fault>)
        requires
            old(self).wf(),
            forall|o: BinOp, x: u32, y: u32| float.requires((o, x, y)),
        ensures
            final(self).wf(),
            final(self).keys() == old(self).keys(),
            final(self).groups == old(self).groups,
            r is Ok ==> improved(old(self).main, final(self).main, limit as nat, *float, full),
            r is Ok ==> forall|k: int| 0 <= k < old(self).fns@.len() ==> improved(#[trigger] old(self).fns@[k].1, final(self).fns@[k].1, limit as nat, *float, full),
            r matches Err(e) ==> fails_on(old(self).main, limit as nat, *float, full, e) || exists|k: int|
                0 <= k < old(self).fns@.len() && #[trigger] fails_on(old(self).fns@[k].1, limit as nat, *float, full, e),
    {
        let n = self.fns.len();
        let mut i: usize = 0;
        while i < n
            invariant
                n == self.fns@.len(),
                i <= n,
                self.wf(),
                self.keys() == old(self).keys(),
                self.groups == old(self).groups,
                self.main == old(self).main,
                forall|o: BinOp, x: u32, y: u32| float.requires((o, x, y)),
                forall|k: int| i <= k < n ==> #[trigger] self.fns@[k] == old(self).fns@[k],
                forall|k: int| 0 <= k < i ==> improved(#[trigger] old(self).fns@[k].1, self.fns@[k].1, limit as nat, *float, full),
            decreases n - i,
        {
            let ghost before = self.fns@;
            let mut entry: (usize, Function) = (0, Function { args: 0, vars: 0, blocks: Vec::new() });
            std::mem::swap(&mut entry, &mut self.fns[i]);
            assert(entry.1.wf());
            assert(entry == old(self).fns@[i as int]);
            let res = if full {
                entry.1.optimize(limit, float)
            } else {
                entry.1.dce(float)
            };
            self.fns.set(i, entry);
            proof {
                assert(self.keys() =~= old(self).keys()) by {
                    assert forall|k: int| 0 <= k < n implies #[trigger] self.fns@[k].0 == before[k].0 by {}
                }
            }
            if let Err(e) = res {
                assert(fails_on(old(self).fns@[i as int].1, limit as nat, *float, full, e));
                return Err(e);
            }
            assert(improved(old(self).fns@[i as int].1, self.fns@[i as int].1, limit as nat, *float, full));
            i = i + 1;
        }
        let res = if full {
            self.main.optimize(limit, float)
        } else {
            self.main.dce(float)
        };
        match res {
            Ok(_) => Ok(()),
            Err(e) => {
                assert(fails_on(old(self).main, limit as nat, *float, full, e));
                Err(e)
            },
        }
    }

    /// Optimizes every function of the program, then `main`, each with at
    /// most `limit` rounds; stops at the first fault.
    pub fn optimize<F: Fn(BinOp, u32, u32) -> Const>(self, limit: usize, float: &F) -> (r: Result<Demiurge, Fault>)
        requires
            self.wf(),
            forall|o: BinOp, x: u32, y: u32| float.requires((o, x, y)),
        ensures
            r matches Ok(d) ==> d.wf() && d.keys() == self.keys() && d.groups == self.groups && improved(
                self.main,
                d.main,
                limit as nat,
                *float,
                true,
            ) && forall|k: int| 0 <= k < self.fns@.len() ==> improved(#[trigger] self.fns@[k].1, d.fns@[k].1, limit as nat, *float, true),
            r matches Err(e) ==> fails_on(self.main, limit as nat, *float, true, e) || exists|k: int|
                0 <= k < self.fns@.len() && #[trigger] fails_on(self.fns@[k].1, limit as nat, *float, true, e),
    {
        let mut d = self;
        match d.each(limit, float, true) {
            Ok(_) => Ok(d),
            Err(e) => Err(e),
        }
    }

    /// One round of constant propagation, rewriting, phi elimination and
    /// dead code elimination on every function, then on `main`.
    pub fn dce<F: Fn(BinOp, u32, u32) -> Const>(self, float: &F) -> (r: Result<Demiurge, Fault>)
        requires
            self.wf(),
            forall|o: BinOp, x: u32, y: u32| float.requires((o, x, y)),
        ensures
            r matches Ok(d) ==> d.wf() && d.keys() == self.keys() && d.groups == self.groups && cleaned(self.main, d.main, *float)
                && forall|k: int| 0 <= k < self.fns@.len() ==> cleaned(#[trigger] self.fns@[k].1, d.fns@[k].1, *float),
            r matches Err(e) ==> stuck(self.main, *float, e) || exists|k: int|
                0 <= k < self.fns@.len() && #[trigger] stuck(self.fns@[k].1, *float, e),
    {
        let mut d = self;
        match d.each(0, float, false) {
            Ok(_) => Ok(d),
            Err(e) => Err(e),
        }
    }
}

impl Demiurge {
    /// Splits the critical edges of every function, then of `main`.
    pub fn split(&mut self)
        requires
            old(self).wf(),
            3 * old(self).main.blocks@.len() < usize::MAX,
            forall|i: int| 0 <= i < old(self).fns@.len() ==> 3 * (#[trigger] old(self).fns@[i]).1.blocks@.len() < usize::MAX,
        ensures
            final(self).wf(),
            final(self).keys() == old(self).keys(),
            final(self).groups == old(self).groups,
            no_critical_edge(final(self).main),
            forall|i: int| 0 <= i < final(self).fns@.len() ==> no_critical_edge((#[trigger] final(self).fns@[i]).1),
    {
        let n = self.fns.len();
        let mut i: usize = 0;
        while i < n
            invariant
                n == self.fns@.len(),
                i <= n,
                self.wf(),
                self.keys() == old(self).keys(),
                self.groups == old(self).groups,
                self.main == old(self).main,
                forall|k: int| i <= k < n ==> #[trigger] self.fns@[k] == old(self).fns@[k],
                forall|k: int| 0 <= k < n ==> 3 * (#[trigger] old(self).fns@[k]).1.blocks@.len() < usize::MAX,
                forall|k: int| 0 <= k < i ==> no_critical_edge((#[trigger] self.fns@[k]).1),
            decreases n - i,
        {
            let ghost before = self.fns@;
            let mut entry: (usize, Function) = (0, Function { args: 0, vars: 0, blocks: Vec::new() });
            std::mem::swap(&mut entry, &mut self.fns[i]);
            assert(entry == old(self).fns@[i as int]);
            entry.1.split();
            self.fns.set(i, entry);
            proof {
                assert(self.keys() =~= old(self).keys()) by {
                    assert forall|k: int| 0 <= k < n implies #[trigger] self.fns@[k].0 == before[k].0 by {}
                }
            }
            i = i + 1;
        }
        self.main.split();
    }
}

} // verus!
