use vstd::prelude::*;
use crate::copies::below;
use crate::ir::{slot, slot_of, Fragment, Function, Label, Terminator, Var};

verus! {

/// The steps of a fragment, for liveness: its instructions, then the copies
/// placed at its end, then its terminator.
pub open spec fn steps(f: Fragment, cs: Seq<crate::copies::Copy>) -> int {
    (f.instructions@.len() + cs.len() + 1) as int
}

/// The variables step `k` reads.
pub open spec fn step_reads(f: Fragment, cs: Seq<crate::copies::Copy>, k: int) -> Seq<Var> {
    let n = f.instructions@.len() as int;
    if k < n {
        f.instructions@[k].reads()
    } else if k < n + cs.len() {
        seq![cs[k - n].1]
    } else {
        f.terminator->0.reads()
    }
}

/// The variable step `k` writes, if any.
pub open spec fn step_def(f: Fragment, cs: Seq<crate::copies::Copy>, k: int) -> Option<Var> {
    let n = f.instructions@.len() as int;
    if k < n {
        Some(f.instructions@[k].def())
    } else if k < n + cs.len() {
        Some(cs[k - n].0)
    } else {
        None
    }
}

/// Some step before `k` writes `v`.
pub open spec fn written_before(f: Fragment, cs: Seq<crate::copies::Copy>, k: int, v: Var) -> bool {
    exists|j: int| 0 <= j < k && #[trigger] step_def(f, cs, j) == Some(v)
}

/// Some step before `k` reads `v` while no earlier step has written it.
pub open spec fn used_before(f: Fragment, cs: Seq<crate::copies::Copy>, k: int, v: Var) -> bool {
    exists|j: int, i: int|
        0 <= j < k && 0 <= i < step_reads(f, cs, j).len() && #[trigger] step_reads(f, cs, j)[i] == v
            && !written_before(f, cs, j, v)
}

/// The fragment reads `v` before writing it: `v` must be live on entry.
pub open spec fn used(f: Fragment, cs: Seq<crate::copies::Copy>, v: Var) -> bool {
    used_before(f, cs, steps(f, cs), v)
}

/// The fragment writes `v`.
pub open spec fn written(f: Fragment, cs: Seq<crate::copies::Copy>, v: Var) -> bool {
    written_before(f, cs, steps(f, cs), v)
}

/// Every variable the fragment and its copies name is below `n`.
pub open spec fn names_below(f: Fragment, cs: Seq<crate::copies::Copy>, n: int) -> bool {
    &&& f.terminator is Some
    &&& below(cs, n)
    &&& forall|k: int| 0 <= k < f.terminator->0.reads().len() ==> #[trigger] f.terminator->0.reads()[k] < n
    &&& forall|k: int|
        0 <= k < f.instructions@.len() ==> {
            &&& (#[trigger] f.instructions@[k]).def() < n
            &&& forall|j: int|
                0 <= j < f.instructions@[k].reads().len() ==> #[trigger] f.instructions@[k].reads()[j] < n
        }
}

/// Marks as used each of `rs` that `defs` does not hold yet, then marks `d`
/// as written.
fn visit(uses: &mut Vec<bool>, defs: &mut Vec<bool>, rs: &Vec<Var>, d: Option<Var>)
    requires
        old(uses)@.len() == old(defs)@.len(),
        forall|i: int| 0 <= i < rs@.len() ==> #[trigger] rs@[i] < old(uses)@.len(),
        d matches Some(x) ==> x < old(uses)@.len(),
    ensures
        final(uses)@.len() == old(uses)@.len(),
        final(defs)@.len() == old(defs)@.len(),
        forall|v: Var|
            v < old(uses)@.len() ==> #[trigger] final(uses)@[v as int] == (old(uses)@[v as int] || (rs@.contains(
                v,
            ) && !old(defs)@[v as int])),
        forall|v: Var| v < old(defs)@.len() ==> #[trigger] final(defs)@[v as int] == (old(defs)@[v as int] || d == Some(v)),
{
    let ghost u0 = uses@;
    let mut i: usize = 0;
    while i < rs.len()
        invariant
            i <= rs@.len(),
            uses@.len() == u0.len(),
            defs@ == old(defs)@,
            u0.len() == defs@.len(),
            forall|k: int| 0 <= k < rs@.len() ==> #[trigger] rs@[k] < u0.len(),
            forall|v: Var|
                v < u0.len() ==> #[trigger] uses@[v as int] == (u0[v as int] || (rs@.take(i as int).contains(v)
                    && !defs@[v as int])),
        decreases rs@.len() - i,
    {
        let r = rs[i];
        if !defs[r] {
            uses.set(r, true);
        }
        i = i + 1;
        assert forall|v: Var| v < u0.len() implies #[trigger] uses@[v as int] == (u0[v as int] || (rs@.take(
            i as int,
        ).contains(v) && !defs@[v as int])) by {
            assert(rs@.take(i as int) =~= rs@.take(i - 1).push(r));
            if rs@.take(i - 1).contains(v) {
                let w = choose|w: int| 0 <= w < rs@.take(i - 1).len() && #[trigger] rs@.take(i - 1)[w] == v;
                assert(rs@.take(i as int)[w] == v);
            }
            if v == r {
                assert(rs@.take(i as int)[i - 1] == r);
            }
        }
    }
    assert(rs@.take(i as int) =~= rs@);
    if let Some(x) = d {
        defs.set(x, true);
    }
}

fn falses(n: usize) -> (v: Vec<bool>)
    ensures
        v@.len() == n,
        forall|i: int| 0 <= i < n ==> !(#[trigger] v@[i]),
{
    let mut v: Vec<bool> = Vec::new();
    while v.len() < n
        invariant
            v@.len() <= n,
            forall|i: int| 0 <= i < v@.len() ==> !(#[trigger] v@[i]),
        decreases n - v@.len(),
    {
        v.push(false);
    }
    v
}

/// What the running `uses` and `defs` hold after the first `k` steps.
pub open spec fn summed(f: Fragment, cs: Seq<crate::copies::Copy>, k: int, uses: Seq<bool>, defs: Seq<bool>, n: int) -> bool {
    &&& uses.len() == n
    &&& defs.len() == n
    &&& forall|v: Var| v < n ==> #[trigger] uses[v as int] == used_before(f, cs, k, v)
    &&& forall|v: Var| v < n ==> #[trigger] defs[v as int] == written_before(f, cs, k, v)
}

proof fn lemma_summed_step(
    f: Fragment,
    cs: Seq<crate::copies::Copy>,
    k: int,
    u0: Seq<bool>,
    d0: Seq<bool>,
    u1: Seq<bool>,
    d1: Seq<bool>,
    n: int,
)
    requires
        0 <= k,
        summed(f, cs, k, u0, d0, n),
        u1.len() == n,
        d1.len() == n,
        forall|v: Var| v < n ==> #[trigger] u1[v as int] == (u0[v as int] || (step_reads(f, cs, k).contains(v) && !d0[v as int])),
        forall|v: Var| v < n ==> #[trigger] d1[v as int] == (d0[v as int] || step_def(f, cs, k) == Some(v)),
    ensures
        summed(f, cs, k + 1, u1, d1, n),
{
    assert forall|v: Var| v < n implies #[trigger] d1[v as int] == written_before(f, cs, k + 1, v) by {
        if d1[v as int] {
            if d0[v as int] {
                let j = choose|j: int| 0 <= j < k && #[trigger] step_def(f, cs, j) == Some(v);
                assert(0 <= j < k + 1 && step_def(f, cs, j) == Some(v));
            } else {
                assert(step_def(f, cs, k) == Some(v));
            }
        }
        if written_before(f, cs, k + 1, v) {
            let j = choose|j: int| 0 <= j < k + 1 && #[trigger] step_def(f, cs, j) == Some(v);
            if j < k {
                assert(written_before(f, cs, k, v));
            }
        }
    }
    assert forall|v: Var| v < n implies #[trigger] u1[v as int] == used_before(f, cs, k + 1, v) by {
        if u1[v as int] {
            if u0[v as int] {
                let (j, i) = choose|j: int, i: int|
                    0 <= j < k && 0 <= i < step_reads(f, cs, j).len() && #[trigger] step_reads(f, cs, j)[i]
                        == v && !written_before(f, cs, j, v);
                assert(0 <= j < k + 1 && step_reads(f, cs, j)[i] == v);
            } else {
                let i = choose|i: int| 0 <= i < step_reads(f, cs, k).len() && step_reads(f, cs, k)[i] == v;
                assert(!written_before(f, cs, k, v));
                assert(step_reads(f, cs, k)[i] == v);
            }
        }
        if used_before(f, cs, k + 1, v) {
            let (j, i) = choose|j: int, i: int|
                0 <= j < k + 1 && 0 <= i < step_reads(f, cs, j).len() && #[trigger] step_reads(f, cs, j)[i]
                    == v && !written_before(f, cs, j, v);
            if j < k {
                assert(used_before(f, cs, k, v));
            } else {
                assert(step_reads(f, cs, k).contains(v));
            }
        }
    }
}

impl Fragment {
    /// The variables the fragment, followed by `copies`, reads before it
    /// writes them (first) and the variables it writes (second), as flags
    /// indexed by variable below `vars`.
    pub fn precompute(&self, copies: &Vec<crate::copies::Copy>, vars: usize) -> (r: (Vec<bool>, Vec<bool>))
        requires
            names_below(*self, copies@, vars as int),
        ensures
            r.0@.len() == vars,
            r.1@.len() == vars,
            forall|v: Var| v < vars ==> #[trigger] r.0@[v as int] == used(*self, copies@, v),
            forall|v: Var| v < vars ==> #[trigger] r.1@[v as int] == written(*self, copies@, v),
    {
        let ghost cs = copies@;
        let n = self.instructions.len();
        let mut uses = falses(vars);
        let mut defs = falses(vars);
        let mut k: usize = 0;
        while k < n
            invariant
                n == self.instructions@.len(),
                k <= n,
                names_below(*self, cs, vars as int),
                cs == copies@,
                summed(*self, cs, k as int, uses@, defs@, vars as int),
            decreases n - k,
        {
            let ins = &self.instructions[k];
            let rs = ins.operands();
            let d = ins.dst();
            let ghost u0 = uses@;
            let ghost d0 = defs@;
            assert forall|i: int| 0 <= i < rs@.len() implies #[trigger] rs@[i] < uses@.len() by {
                assert(self.instructions@[k as int].reads()[i] < vars);
            }
            visit(&mut uses, &mut defs, &rs, Some(d));
            proof {
                assert(step_reads(*self, cs, k as int) == rs@);
                lemma_summed_step(*self, cs, k as int, u0, d0, uses@, defs@, vars as int);
            }
            k = k + 1;
        }
        let mut c: usize = 0;
        while c < copies.len()
            invariant
                n == self.instructions@.len(),
                c <= copies@.len(),
                names_below(*self, cs, vars as int),
                cs == copies@,
                summed(*self, cs, n + c, uses@, defs@, vars as int),
            decreases copies@.len() - c,
        {
            let rs: Vec<Var> = vec![copies[c].1];
            let ghost u0 = uses@;
            let ghost d0 = defs@;
            assert(cs[c as int].1 < vars);
            assert(cs[c as int].0 < vars);
            visit(&mut uses, &mut defs, &rs, Some(copies[c].0));
            proof {
                assert(step_reads(*self, cs, n + c) == rs@);
                lemma_summed_step(*self, cs, n + c, u0, d0, uses@, defs@, vars as int);
            }
            c = c + 1;
        }
        let rs: Vec<Var> = match self.terminator {
            Some(Terminator::Branch(v, _, _)) => vec![v],
            Some(Terminator::Return(v)) => vec![v],
            _ => Vec::new(),
        };
        let ghost u0 = uses@;
        let ghost d0 = defs@;
        proof {
            assert(step_reads(*self, cs, n + c) =~= rs@);
            assert forall|i: int| 0 <= i < rs@.len() implies #[trigger] rs@[i] < uses@.len() by {
                assert(self.terminator->0.reads()[i] < vars);
            }
        }
        visit(&mut uses, &mut defs, &rs, None);
        proof {
            lemma_summed_step(*self, cs, n + c, u0, d0, uses@, defs@, vars as int);
        }
        (uses, defs)
    }
}

/// The rows of a table of flags.
pub open spec fn rows(m: Seq<Vec<bool>>) -> Seq<Seq<bool>> {
    Seq::new(m.len(), |i: int| m[i]@)
}

/// One of the first `k` labels of `t` has `v` live on entry.
pub open spec fn any_in(ins: Seq<Seq<bool>>, t: Seq<Label>, k: int, v: Var) -> bool {
    exists|j: int| 0 <= j < k && #[trigger] ins[slot_of(t[j])][v as int]
}

/// `v` is live on exit from slot `s` when `ins` says what is live on entry:
/// some target of its terminator has it live on entry.
pub open spec fn flows_out(f: Function, ins: Seq<Seq<bool>>, s: int, v: Var) -> bool {
    let t = f.blocks@[s]->0.terminator->0.targets();
    any_in(ins, t, t.len() as int, v)
}

/// `v` is live on entry to slot `s` when `outs` says what is live on exit:
/// the fragment reads it before writing it, or it is live on exit and the
/// fragment does not write it.
pub open spec fn flows_in(f: Function, cs: Seq<Vec<crate::copies::Copy>>, outs: Seq<Seq<bool>>, s: int, v: Var) -> bool {
    let x = f.blocks@[s]->0;
    used(x, cs[s]@, v) || (outs[s][v as int] && !written(x, cs[s]@, v))
}

/// A row of flags per slot of `f`, one flag per variable.
pub open spec fn shaped(f: Function, m: Seq<Seq<bool>>) -> bool {
    &&& m.len() == f.blocks@.len()
    &&& forall|s: int| 0 <= s < m.len() ==> (#[trigger] m[s]).len() == f.vars
}

/// Slots without a fragment have nothing live.
pub open spec fn empty_holes(f: Function, ins: Seq<Seq<bool>>, outs: Seq<Seq<bool>>) -> bool {
    forall|s: int, v: Var|
        #![trigger ins[s][v as int]]
        #![trigger outs[s][v as int]]
        0 <= s < f.blocks@.len() && f.blocks@[s] is None && v < f.vars ==> !ins[s][v as int] && !outs[s][v as int]
}

/// The liveness equations hold at the fragments of the first `k` slots.
pub open spec fn settled(f: Function, cs: Seq<Vec<crate::copies::Copy>>, ins: Seq<Seq<bool>>, outs: Seq<Seq<bool>>, k: int) -> bool {
    forall|s: int, v: Var|
        #![trigger ins[s][v as int]]
        #![trigger outs[s][v as int]]
        0 <= s < k && f.blocks@[s] is Some && v < f.vars ==> outs[s][v as int] == flows_out(f, ins, s, v)
            && ins[s][v as int] == flows_in(f, cs, outs, s, v)
}

/// `ins` and `outs` solve the liveness equations of `f` with the copies
/// `cs` placed at the ends of the fragments.
pub open spec fn solves(f: Function, cs: Seq<Vec<crate::copies::Copy>>, ins: Seq<Seq<bool>>, outs: Seq<Seq<bool>>) -> bool {
    &&& shaped(f, ins)
    &&& shaped(f, outs)
    &&& empty_holes(f, ins, outs)
    &&& settled(f, cs, ins, outs, f.blocks@.len() as int)
}

/// Every flag `a` sets, `b` sets too.
pub open spec fn within(a: Seq<Seq<bool>>, b: Seq<Seq<bool>>) -> bool {
    forall|s: int, v: int| 0 <= s < a.len() && 0 <= v < a[s].len() && #[trigger] a[s][v] ==> b[s][v]
}

/// Every flag set follows from the equations: the table lies below every
/// solution reached from it.
pub open spec fn justified(f: Function, cs: Seq<Vec<crate::copies::Copy>>, ins: Seq<Seq<bool>>, outs: Seq<Seq<bool>>) -> bool {
    forall|s: int, v: Var|
        #![trigger ins[s][v as int]]
        #![trigger outs[s][v as int]]
        0 <= s < f.blocks@.len() && f.blocks@[s] is Some && v < f.vars ==> (outs[s][v as int] ==> flows_out(
            f,
            ins,
            s,
            v,
        )) && (ins[s][v as int] ==> flows_in(f, cs, outs, s, v))
}

spec fn row_ones(r: Seq<bool>) -> nat
    decreases r.len(),
{
    if r.len() == 0 {
        0
    } else {
        row_ones(r.drop_last()) + if r.last() {
            1nat
        } else {
            0nat
        }
    }
}

spec fn ones(m: Seq<Seq<bool>>) -> nat
    decreases m.len(),
{
    if m.len() == 0 {
        0
    } else {
        ones(m.drop_last()) + row_ones(m.last())
    }
}

spec fn cap(m: Seq<Seq<bool>>) -> nat
    decreases m.len(),
{
    if m.len() == 0 {
        0
    } else {
        cap(m.drop_last()) + m.last().len()
    }
}

proof fn lemma_row_grow(a: Seq<bool>, b: Seq<bool>)
    requires
        a.len() == b.len(),
        forall|i: int| 0 <= i < a.len() && #[trigger] a[i] ==> b[i],
    ensures
        row_ones(a) <= row_ones(b),
        row_ones(b) <= b.len(),
        (exists|i: int| 0 <= i < a.len() && !a[i] && #[trigger] b[i]) ==> row_ones(a) < row_ones(b),
    decreases a.len(),
{
    if a.len() > 0 {
        let (a1, b1) = (a.drop_last(), b.drop_last());
        assert forall|i: int| 0 <= i < a1.len() && #[trigger] a1[i] implies b1[i] by {
            assert(a[i]);
        }
        lemma_row_grow(a1, b1);
        if exists|i: int| 0 <= i < a.len() && !a[i] && #[trigger] b[i] {
            let i = choose|i: int| 0 <= i < a.len() && !a[i] && #[trigger] b[i];
            if i < a.len() - 1 {
                assert(!a1[i] && b1[i]);
            }
        }
    }
}

proof fn lemma_ones_update(m: Seq<Seq<bool>>, s: int, r: Seq<bool>)
    requires
        0 <= s < m.len(),
    ensures
        ones(m.update(s, r)) + row_ones(m[s]) == ones(m) + row_ones(r),
        cap(m.update(s, r)) + m[s].len() == cap(m) + r.len(),
    decreases m.len(),
{
    if s == m.len() - 1 {
        assert(m.update(s, r).drop_last() =~= m.drop_last());
    } else {
        assert(m.update(s, r).drop_last() =~= m.drop_last().update(s, r));
        lemma_ones_update(m.drop_last(), s, r);
    }
}

proof fn lemma_ones_cap(m: Seq<Seq<bool>>)
    ensures
        ones(m) <= cap(m),
    decreases m.len(),
{
    if m.len() > 0 {
        lemma_ones_cap(m.drop_last());
        lemma_row_grow(m.last(), m.last());
    }
}

/// The targets of a terminator.
fn targets_of(t: &Terminator) -> (r: Vec<Label>)
    ensures
        r@ == t.targets(),
{
    match t {
        Terminator::Branch(_, y, n) => vec![*y, *n],
        Terminator::Jump(l) => vec![*l],
        Terminator::Return(_) => Vec::new(),
    }
}

/// The flags of the variables some label of `t` has live on entry.
fn gather(ins: &Vec<Vec<bool>>, t: &Vec<Label>, vars: usize) -> (o: Vec<bool>)
    requires
        ins@.len() < usize::MAX,
        forall|j: int| 0 <= j < t@.len() ==> 0 <= slot_of(#[trigger] t@[j]) < ins@.len(),
        forall|s: int| 0 <= s < ins@.len() ==> (#[trigger] ins@[s])@.len() == vars,
    ensures
        o@.len() == vars,
        forall|v: Var| v < vars ==> #[trigger] o@[v as int] == any_in(rows(ins@), t@, t@.len() as int, v),
{
    let mut o = falses(vars);
    let mut k: usize = 0;
    while k < t.len()
        invariant
            k <= t@.len(),
            ins@.len() < usize::MAX,
            forall|j: int| 0 <= j < t@.len() ==> 0 <= slot_of(#[trigger] t@[j]) < ins@.len(),
            forall|s: int| 0 <= s < ins@.len() ==> (#[trigger] ins@[s])@.len() == vars,
            o@.len() == vars,
            forall|v: Var| v < vars ==> #[trigger] o@[v as int] == any_in(rows(ins@), t@, k as int, v),
        decreases t@.len() - k,
    {
        assert(0 <= slot_of(t@[k as int]) < ins@.len());
        let ts = slot(t[k]);
        let ghost o0 = o@;
        let mut v: usize = 0;
        while v < vars
            invariant
                v <= vars,
                o@.len() == vars,
                ts < ins@.len(),
                ins@[ts as int]@.len() == vars,
                forall|w: int| 0 <= w < v ==> #[trigger] o@[w] == (o0[w] || ins@[ts as int]@[w]),
                forall|w: int| v <= w < vars ==> #[trigger] o@[w] == o0[w],
            decreases vars - v,
        {
            let b = o[v] || ins[ts][v];
            o.set(v, b);
            v = v + 1;
        }
        k = k + 1;
        assert forall|v: Var| v < vars implies #[trigger] o@[v as int] == any_in(rows(ins@), t@, k as int, v) by {
            assert(rows(ins@)[ts as int] == ins@[ts as int]@);
            if any_in(rows(ins@), t@, k as int, v) {
                let j = choose|j: int| 0 <= j < k && #[trigger] rows(ins@)[slot_of(t@[j])][v as int];
                if j < k - 1 {
                    assert(any_in(rows(ins@), t@, k - 1, v));
                }
            }
            if o0[v as int] {
                let j = choose|j: int| 0 <= j < k - 1 && #[trigger] rows(ins@)[slot_of(t@[j])][v as int];
                assert(0 <= j < k && rows(ins@)[slot_of(t@[j])][v as int]);
            }
            if ins@[ts as int]@[v as int] {
                assert(rows(ins@)[slot_of(t@[k - 1])][v as int]);
            }
        }
    }
    o
}

/// The flags `uses[v] || (o[v] && !defs[v])`.
fn merge(uses: &Vec<bool>, defs: &Vec<bool>, o: &Vec<bool>) -> (r: Vec<bool>)
    requires
        uses@.len() == o@.len(),
        defs@.len() == o@.len(),
    ensures
        r@.len() == o@.len(),
        forall|v: int| 0 <= v < o@.len() ==> #[trigger] r@[v] == (uses@[v] || (o@[v] && !defs@[v])),
{
    let mut r: Vec<bool> = Vec::new();
    let mut v: usize = 0;
    while v < o.len()
        invariant
            v <= o@.len(),
            uses@.len() == o@.len(),
            defs@.len() == o@.len(),
            r@.len() == v,
            forall|w: int| 0 <= w < v ==> #[trigger] r@[w] == (uses@[w] || (o@[w] && !defs@[w])),
        decreases o@.len() - v,
    {
        r.push(uses[v] || (o[v] && !defs[v]));
        v = v + 1;
    }
    r
}

/// Whether two rows of flags are equal.
fn same(a: &Vec<bool>, b: &Vec<bool>) -> (e: bool)
    ensures
        e == (a@ == b@),
{
    if a.len() != b.len() {
        return false;
    }
    let mut i: usize = 0;
    while i < a.len()
        invariant
            i <= a@.len(),
            a@.len() == b@.len(),
            forall|k: int| 0 <= k < i ==> a@[k] == b@[k],
        decreases a@.len() - i,
    {
        if a[i] != b[i] {
            return false;
        }
        i = i + 1;
    }
    assert(a@ =~= b@);
    true
}

proof fn lemma_flows_out_mono(f: Function, a: Seq<Seq<bool>>, b: Seq<Seq<bool>>, s: int, v: Var)
    requires
        f.wf(),
        0 <= s < f.blocks@.len(),
        f.blocks@[s] is Some,
        v < f.vars,
        shaped(f, a),
        shaped(f, b),
        within(a, b),
        flows_out(f, a, s, v),
    ensures
        flows_out(f, b, s, v),
{
    let t = f.blocks@[s]->0.terminator->0.targets();
    assert(f.frag_ok(f.blocks@[s]->0));
    let j = choose|j: int| 0 <= j < t.len() && #[trigger] a[slot_of(t[j])][v as int];
    assert(f.has(t[j]));
    assert(b[slot_of(t[j])][v as int]);
}

proof fn lemma_flows_in_mono(f: Function, cs: Seq<Vec<crate::copies::Copy>>, a: Seq<Seq<bool>>, b: Seq<Seq<bool>>, s: int, v: Var)
    requires
        0 <= s < f.blocks@.len(),
        v < f.vars,
        shaped(f, a),
        shaped(f, b),
        within(a, b),
        flows_in(f, cs, a, s, v),
    ensures
        flows_in(f, cs, b, s, v),
{
    if a[s][v as int] {
        assert(b[s][v as int]);
    }
}

/// Settling one slot: its exit row becomes what its targets have live on
/// entry, and its entry row follows. The table only grows, stays justified,
/// and stays below every solution it was below.
proof fn lemma_settle(
    f: Function,
    cs: Seq<Vec<crate::copies::Copy>>,
    ins: Seq<Seq<bool>>,
    outs: Seq<Seq<bool>>,
    s: int,
    orow: Seq<bool>,
    irow: Seq<bool>,
)
    requires
        f.wf(),
        cs.len() == f.blocks@.len(),
        0 <= s < f.blocks@.len(),
        f.blocks@[s] is Some,
        shaped(f, ins),
        shaped(f, outs),
        justified(f, cs, ins, outs),
        orow.len() == f.vars,
        irow.len() == f.vars,
        forall|v: Var| v < f.vars ==> #[trigger] orow[v as int] == flows_out(f, ins, s, v),
        forall|v: Var| v < f.vars ==> #[trigger] irow[v as int] == flows_in(f, cs, outs.update(s, orow), s, v),
    ensures
        shaped(f, ins.update(s, irow)),
        shaped(f, outs.update(s, orow)),
        within(ins, ins.update(s, irow)),
        within(outs, outs.update(s, orow)),
        justified(f, cs, ins.update(s, irow), outs.update(s, orow)),
        forall|i2: Seq<Seq<bool>>, o2: Seq<Seq<bool>>|
            solves(f, cs, i2, o2) && within(ins, i2) && within(outs, o2) ==> within(ins.update(s, irow), i2)
                && within(outs.update(s, orow), o2),
{
    let i1 = ins.update(s, irow);
    let o1 = outs.update(s, orow);
    assert forall|t: int| 0 <= t < o1.len() implies (#[trigger] o1[t]).len() == f.vars by {
        if t != s {
            assert(o1[t] == outs[t]);
        }
    }
    assert forall|t: int| 0 <= t < i1.len() implies (#[trigger] i1[t]).len() == f.vars by {
        if t != s {
            assert(i1[t] == ins[t]);
        }
    }
    assert(within(outs, o1)) by {
        assert forall|t: int, v: int| 0 <= t < outs.len() && 0 <= v < outs[t].len() && #[trigger] outs[t][v] implies o1[t][v] by {
            if t == s {
                assert(flows_out(f, ins, s, v as Var));
            }
        }
    }
    assert(within(ins, i1)) by {
        assert forall|t: int, v: int| 0 <= t < ins.len() && 0 <= v < ins[t].len() && #[trigger] ins[t][v] implies i1[t][v] by {
            if t == s {
                assert(flows_in(f, cs, outs, s, v as Var));
                lemma_flows_in_mono(f, cs, outs, o1, s, v as Var);
            }
        }
    }
    assert forall|t: int, v: Var|
        #![trigger i1[t][v as int]]
        #![trigger o1[t][v as int]]
        0 <= t < f.blocks@.len() && f.blocks@[t] is Some && v < f.vars implies (o1[t][v as int] ==> flows_out(
            f,
            i1,
            t,
            v,
        )) && (i1[t][v as int] ==> flows_in(f, cs, o1, t, v)) by {
        if o1[t][v as int] {
            if t != s {
                assert(outs[t][v as int]);
            }
            assert(flows_out(f, ins, t, v));
            lemma_flows_out_mono(f, ins, i1, t, v);
        }
        if i1[t][v as int] && t != s {
            assert(ins[t][v as int]);
            assert(flows_in(f, cs, outs, t, v));
            lemma_flows_in_mono(f, cs, outs, o1, t, v);
        }
    }
    assert forall|i2: Seq<Seq<bool>>, o2: Seq<Seq<bool>>|
        solves(f, cs, i2, o2) && within(ins, i2) && within(outs, o2) implies within(i1, i2) && within(o1, o2) by {
        assert forall|t: int, v: int| 0 <= t < o1.len() && 0 <= v < o1[t].len() && #[trigger] o1[t][v] implies o2[t][v] by {
            if t == s {
                let x = f.blocks@[s]->0;
                let tg = x.terminator->0.targets();
                assert(f.frag_ok(x));
                assert(flows_out(f, ins, s, v as Var));
                let j = choose|j: int| 0 <= j < tg.len() && #[trigger] ins[slot_of(tg[j])][v as Var as int];
                assert(f.has(tg[j]));
                assert(i2[slot_of(tg[j])][v]);
                assert(flows_out(f, i2, s, v as Var));
                assert(o2[s][v as Var as int] == flows_out(f, i2, s, v as Var));
            } else {
                assert(outs[t][v]);
            }
        }
        assert forall|t: int, v: int| 0 <= t < i1.len() && 0 <= v < i1[t].len() && #[trigger] i1[t][v] implies i2[t][v] by {
            if t == s {
                assert(within(o1, o2));
                assert(flows_in(f, cs, o1, s, v as Var));
                lemma_flows_in_mono(f, cs, o1, o2, s, v as Var);
                assert(i2[s][v as Var as int] == flows_in(f, cs, o2, s, v as Var));
            } else {
                assert(ins[t][v]);
            }
        }
    }
}

impl Function {
    /// What is live on entry to (first) and on exit from (second) each
    /// fragment, with `copies[s]` placed at the end of the fragment at slot
    /// `s`: the least solution of the liveness equations, as one row of flags
    /// per slot, indexed by variable.
    pub fn liveness(&self, copies: &Vec<Vec<crate::copies::Copy>>) -> (r: (Vec<Vec<bool>>, Vec<Vec<bool>>))
        requires
            self.wf(),
            copies@.len() == self.blocks@.len(),
            forall|s: int| 0 <= s < copies@.len() ==> below(#[trigger] copies@[s]@, self.vars as int),
        ensures
            solves(*self, copies@, rows(r.0@), rows(r.1@)),
            forall|i2: Seq<Seq<bool>>, o2: Seq<Seq<bool>>|
                #[trigger] solves(*self, copies@, i2, o2) ==> within(rows(r.0@), i2) && within(rows(r.1@), o2),
    {
        let n = self.blocks.len();
        let vars = self.vars;
        let ghost cs = copies@;
        let mut pre: Vec<(Vec<bool>, Vec<bool>)> = Vec::new();
        let mut ins: Vec<Vec<bool>> = Vec::new();
        let mut outs: Vec<Vec<bool>> = Vec::new();
        let mut s: usize = 0;
        while s < n
            invariant
                n == self.blocks@.len(),
                vars == self.vars,
                self.wf(),
                cs == copies@,
                cs.len() == n,
                forall|t: int| 0 <= t < cs.len() ==> below(#[trigger] cs[t]@, vars as int),
                s <= n,
                pre@.len() == s,
                ins@.len() == s,
                outs@.len() == s,
                forall|t: int| 0 <= t < s ==> (#[trigger] pre@[t]).0@.len() == vars && pre@[t].1@.len() == vars,
                forall|t: int, v: Var|
                    0 <= t < s && self.blocks@[t] is Some && v < vars ==> #[trigger] pre@[t].0@[v as int] == used(
                        self.blocks@[t]->0,
                        cs[t]@,
                        v,
                    ) && pre@[t].1@[v as int] == written(self.blocks@[t]->0, cs[t]@, v),
                forall|t: int| 0 <= t < s ==> (#[trigger] ins@[t])@.len() == vars && outs@[t]@.len() == vars,
                forall|t: int, v: int| 0 <= t < s && 0 <= v < vars ==> !(#[trigger] ins@[t]@[v]) && !outs@[t]@[v],
            decreases n - s,
        {
            let ghost p0 = pre@;
            match &self.blocks[s] {
                Some(x) => {
                    assert(self.frag_ok(*x));
                    pre.push(x.precompute(&copies[s], vars));
                },
                None => {
                    pre.push((falses(vars), falses(vars)));
                },
            }
            ins.push(falses(vars));
            outs.push(falses(vars));
            proof {
                assert forall|t: int, v: Var|
                    0 <= t < s + 1 && self.blocks@[t] is Some && v < vars implies #[trigger] pre@[t].0@[v as int] == used(
                        self.blocks@[t]->0,
                        cs[t]@,
                        v,
                    ) && pre@[t].1@[v as int] == written(self.blocks@[t]->0, cs[t]@, v) by {
                    if t < s {
                        assert(pre@[t] == p0[t]);
                    }
                }
            }
            s = s + 1;
        }
        let ghost c = cap(rows(outs@));
        proof {
            assert forall|t: int| 0 <= t < n implies #[trigger] rows(ins@)[t] =~= rows(outs@)[t] by {
            }
            assert(rows(ins@) =~= rows(outs@));
            assert forall|i2: Seq<Seq<bool>>, o2: Seq<Seq<bool>>|
                solves(*self, cs, i2, o2) implies within(rows(ins@), i2) && within(rows(outs@), o2) by {
            }
            lemma_ones_cap(rows(outs@));
        }
        let mut changed = true;
        while changed
            invariant
                n == self.blocks@.len(),
                vars == self.vars,
                self.wf(),
                cs == copies@,
                cs.len() == n,
                pre@.len() == n,
                forall|t: int| 0 <= t < n ==> (#[trigger] pre@[t]).0@.len() == vars && pre@[t].1@.len() == vars,
                forall|t: int, v: Var|
                    0 <= t < n && self.blocks@[t] is Some && v < vars ==> #[trigger] pre@[t].0@[v as int] == used(
                        self.blocks@[t]->0,
                        cs[t]@,
                        v,
                    ) && pre@[t].1@[v as int] == written(self.blocks@[t]->0, cs[t]@, v),
                ins@.len() == n,
                outs@.len() == n,
                shaped(*self, rows(ins@)),
                shaped(*self, rows(outs@)),
                cap(rows(ins@)) == c,
                cap(rows(outs@)) == c,
                ones(rows(ins@)) <= c,
                ones(rows(outs@)) <= c,
                empty_holes(*self, rows(ins@), rows(outs@)),
                justified(*self, cs, rows(ins@), rows(outs@)),
                forall|i2: Seq<Seq<bool>>, o2: Seq<Seq<bool>>|
                    solves(*self, cs, i2, o2) ==> within(rows(ins@), i2) && within(rows(outs@), o2),
                !changed ==> solves(*self, cs, rows(ins@), rows(outs@)),
            decreases 2 * (2 * c - ones(rows(ins@)) - ones(rows(outs@))) + if changed {
                1int
            } else {
                0int
            },
        {
            let ghost i0 = rows(ins@);
            let ghost o0 = rows(outs@);
            changed = false;
            let mut s: usize = 0;
            while s < n
                invariant
                    n == self.blocks@.len(),
                    vars == self.vars,
                    self.wf(),
                    cs == copies@,
                    cs.len() == n,
                    pre@.len() == n,
                    forall|t: int| 0 <= t < n ==> (#[trigger] pre@[t]).0@.len() == vars && pre@[t].1@.len() == vars,
                    forall|t: int, v: Var|
                        0 <= t < n && self.blocks@[t] is Some && v < vars ==> #[trigger] pre@[t].0@[v as int] == used(
                            self.blocks@[t]->0,
                            cs[t]@,
                            v,
                        ) && pre@[t].1@[v as int] == written(self.blocks@[t]->0, cs[t]@, v),
                    s <= n,
                    ins@.len() == n,
                    outs@.len() == n,
                    shaped(*self, rows(ins@)),
                    shaped(*self, rows(outs@)),
                    cap(rows(ins@)) == c,
                    cap(rows(outs@)) == c,
                    ones(rows(ins@)) <= c,
                    ones(rows(outs@)) <= c,
                    ones(rows(ins@)) >= ones(i0),
                    ones(rows(outs@)) >= ones(o0),
                    changed ==> ones(rows(ins@)) + ones(rows(outs@)) > ones(i0) + ones(o0),
                    !changed ==> rows(ins@) == i0 && rows(outs@) == o0,
                    !changed ==> settled(*self, cs, rows(ins@), rows(outs@), s as int),
                    empty_holes(*self, rows(ins@), rows(outs@)),
                    justified(*self, cs, rows(ins@), rows(outs@)),
                    forall|i2: Seq<Seq<bool>>, o2: Seq<Seq<bool>>|
                        solves(*self, cs, i2, o2) ==> within(rows(ins@), i2) && within(rows(outs@), o2),
                decreases n - s,
            {
                if let Some(x) = &self.blocks[s] {
                    let ghost ri = rows(ins@);
                    let ghost ro = rows(outs@);
                    proof {
                        assert(self.frag_ok(*x));
                        assert(x.terminator is Some);
                    }
                    let t = match &x.terminator {
                        Some(term) => targets_of(term),
                        None => Vec::new(),
                    };
                    proof {
                        assert forall|j: int| 0 <= j < t@.len() implies 0 <= slot_of(#[trigger] t@[j]) < ins@.len() by {
                            assert(self.has(x.terminator->0.targets()[j]));
                        }
                        assert forall|q: int| 0 <= q < ins@.len() implies (#[trigger] ins@[q])@.len() == vars by {
                            assert(ri[q].len() == vars);
                        }
                    }
                    let o = gather(&ins, &t, vars);
                    let irow = merge(&pre[s].0, &pre[s].1, &o);
                    let so = same(&o, &outs[s]);
                    let si = same(&irow, &ins[s]);
                    proof {
                        assert(rows(ins@) == ri);
                        assert forall|v: Var| v < vars implies #[trigger] o@[v as int] == flows_out(*self, ri, s as int, v) by {
                        }
                        assert forall|v: Var| v < vars implies #[trigger] irow@[v as int] == flows_in(
                            *self,
                            cs,
                            ro.update(s as int, o@),
                            s as int,
                            v,
                        ) by {
                            assert(ro.update(s as int, o@)[s as int] == o@);
                        }
                        lemma_settle(*self, cs, ri, ro, s as int, o@, irow@);
                        assert(within(ro, ro.update(s as int, o@)));
                        assert(within(ri, ri.update(s as int, irow@)));
                        assert forall|q: int| 0 <= q < o@.len() && #[trigger] ro[s as int][q] implies o@[q] by {
                            assert(ro.update(s as int, o@)[s as int][q]);
                        }
                        assert forall|q: int| 0 <= q < irow@.len() && #[trigger] ri[s as int][q] implies irow@[q] by {
                            assert(ri.update(s as int, irow@)[s as int][q]);
                        }
                        lemma_row_grow(ro[s as int], o@);
                        lemma_row_grow(ri[s as int], irow@);
                        lemma_ones_update(ro, s as int, o@);
                        lemma_ones_update(ri, s as int, irow@);
                        if !so {
                            assert(ro[s as int] == outs@[s as int]@);
                            assert(!(o@ =~= ro[s as int]));
                            let q = choose|q: int| 0 <= q < o@.len() && o@[q] != ro[s as int][q];
                            assert(!ro[s as int][q] && o@[q]);
                        }
                        if !si {
                            assert(ri[s as int] == ins@[s as int]@);
                            assert(!(irow@ =~= ri[s as int]));
                            let q = choose|q: int| 0 <= q < irow@.len() && irow@[q] != ri[s as int][q];
                            assert(!ri[s as int][q] && irow@[q]);
                        }
                    }
                    if !so || !si {
                        changed = true;
                    }
                    outs.set(s, o);
                    ins.set(s, irow);
                    proof {
                        let (ni, no) = (ri.update(s as int, irow@), ro.update(s as int, o@));
                        assert(rows(ins@) =~= ni);
                        assert(rows(outs@) =~= no);
                        lemma_ones_cap(ni);
                        lemma_ones_cap(no);
                        assert forall|q: Var| q < vars && 0 <= s < n && self.blocks@[s as int] is None implies !ni[s as int][q as int] by {
                        }
                        assert(empty_holes(*self, ni, no)) by {
                            assert forall|t: int, v: Var|
                                #![trigger ni[t][v as int]]
                                #![trigger no[t][v as int]]
                                0 <= t < self.blocks@.len() && self.blocks@[t] is None && v < self.vars implies !ni[t][v as int]
                                    && !no[t][v as int] by {
                                assert(t != s);
                                assert(!ri[t][v as int] && !ro[t][v as int]);
                            }
                        }
                        if !changed {
                            assert(ni =~= ri);
                            assert(no =~= ro);
                            assert forall|t: int, v: Var|
                                #![trigger ni[t][v as int]]
                                #![trigger no[t][v as int]]
                                0 <= t < s + 1 && self.blocks@[t] is Some && v < self.vars implies no[t][v as int] == flows_out(
                                    *self,
                                    ni,
                                    t,
                                    v,
                                ) && ni[t][v as int] == flows_in(*self, cs, no, t, v) by {
                                if t < s {
                                    assert(settled(*self, cs, ri, ro, s as int));
                                } else {
                                    assert(no[s as int][v as int] == o@[v as int]);
                                }
                            }
                        }
                    }
                } else {
                    proof {
                        if !changed {
                            assert forall|t: int, v: Var|
                                #![trigger rows(ins@)[t][v as int]]
                                #![trigger rows(outs@)[t][v as int]]
                                0 <= t < s + 1 && self.blocks@[t] is Some && v < self.vars implies rows(outs@)[t][v as int]
                                    == flows_out(*self, rows(ins@), t, v) && rows(ins@)[t][v as int] == flows_in(
                                    *self,
                                    cs,
                                    rows(outs@),
                                    t,
                                    v,
                                ) by {
                                assert(t < s);
                            }
                        }
                    }
                }
                s = s + 1;
            }
        }
        (ins, outs)
    }
}

} // verus!
