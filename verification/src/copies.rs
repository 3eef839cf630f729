use vstd::prelude::*;
use crate::ir::{Function, Var};

verus! {

/// A copy `dst <- src` that resolves phis at the end of a predecessor.
#[derive(Debug, Clone, PartialEq, Eq, Structural)]
pub struct Copy(pub Var, pub Var);

/// A machine state: the value of every variable.
pub type State = spec_fn(Var) -> int;

/// The state with `d` set to `v`.
pub open spec fn assign(st: State, d: Var, v: int) -> State {
    |x: Var| if x == d { v } else { st(x) }
}

/// The state after running the copies one after the other.
pub open spec fn sequential(cs: Seq<Copy>, st: State) -> State
    decreases cs.len(),
{
    if cs.len() == 0 {
        st
    } else {
        let s = sequential(cs.drop_last(), st);
        assign(s, cs.last().0, s(cs.last().1))
    }
}

/// The state after running the copies all at once: each destination takes
/// the value its source had before any copy.
pub open spec fn parallel(cs: Seq<Copy>, st: State) -> State
    decreases cs.len(),
{
    if cs.len() == 0 {
        st
    } else {
        assign(parallel(cs.drop_last(), st), cs.last().0, st(cs.last().1))
    }
}

/// The value of `x` after running the copies at once.
pub open spec fn at_once(cs: Seq<Copy>, st: State, x: Var) -> int {
    parallel(cs, st)(x)
}

/// No two copies write the same variable.
pub open spec fn distinct(cs: Seq<Copy>) -> bool {
    forall|i: int, j: int| 0 <= i < cs.len() && 0 <= j < cs.len() && i != j ==> (#[trigger] cs[i]).0 != (#[trigger] cs[j]).0
}

/// Every variable the copies name is below `bound`.
pub open spec fn below(cs: Seq<Copy>, bound: int) -> bool {
    forall|i: int| 0 <= i < cs.len() ==> (#[trigger] cs[i]).0 < bound && cs[i].1 < bound
}

proof fn lemma_parallel_hit(cs: Seq<Copy>, st: State, k: int)
    requires
        distinct(cs),
        0 <= k < cs.len(),
    ensures
        parallel(cs, st)(cs[k].0) == st(cs[k].1),
    decreases cs.len(),
{
    if k < cs.len() - 1 {
        let r = cs.drop_last();
        assert(r[k] == cs[k]);
        assert(cs.last() == cs[cs.len() - 1]);
        lemma_parallel_hit(r, st, k);
    }
}

proof fn lemma_parallel_miss(cs: Seq<Copy>, st: State, x: Var)
    requires
        forall|k: int| 0 <= k < cs.len() ==> (#[trigger] cs[k]).0 != x,
    ensures
        parallel(cs, st)(x) == st(x),
    decreases cs.len(),
{
    if cs.len() > 0 {
        let r = cs.drop_last();
        assert forall|k: int| 0 <= k < r.len() implies (#[trigger] r[k]).0 != x by {
            assert(r[k] == cs[k]);
        }
        assert(cs.last() == cs[cs.len() - 1]);
        lemma_parallel_miss(r, st, x);
    }
}

/// The count of copies whose source is below `bound`.
pub open spec fn old_sources(cs: Seq<Copy>, bound: int) -> nat
    decreases cs.len(),
{
    if cs.len() == 0 {
        0
    } else {
        old_sources(cs.drop_last(), bound) + if cs.last().1 < bound {
            1nat
        } else {
            0nat
        }
    }
}

/// The copies with every source `b` read from `t` instead.
pub open spec fn rewire(cs: Seq<Copy>, b: Var, t: Var) -> Seq<Copy> {
    cs.map_values(|c: Copy| if c.1 == b { Copy(c.0, t) } else { c })
}

proof fn lemma_rewire_sources(cs: Seq<Copy>, b: Var, t: Var, bound: int)
    requires
        t >= bound,
    ensures
        old_sources(rewire(cs, b, t), bound) <= old_sources(cs, bound),
        (exists|k: int| 0 <= k < cs.len() && (#[trigger] cs[k]).1 == b) && b < bound ==> old_sources(
            rewire(cs, b, t),
            bound,
        ) < old_sources(cs, bound),
    decreases cs.len(),
{
    if cs.len() > 0 {
        let r = cs.drop_last();
        assert(rewire(cs, b, t).drop_last() =~= rewire(r, b, t));
        lemma_rewire_sources(r, b, t, bound);
        if (exists|k: int| 0 <= k < cs.len() && (#[trigger] cs[k]).1 == b) && b < bound {
            let k = choose|k: int| 0 <= k < cs.len() && (#[trigger] cs[k]).1 == b;
            if k < cs.len() - 1 {
                assert(r[k] == cs[k]);
            }
        }
    }
}

proof fn lemma_sources_remove(cs: Seq<Copy>, i: int, bound: int)
    requires
        0 <= i < cs.len(),
    ensures
        old_sources(cs.update(i, cs.last()).drop_last(), bound) <= old_sources(cs, bound),
    decreases cs.len(),
{
    let r = cs.drop_last();
    if i == cs.len() - 1 {
        assert(cs.update(i, cs.last()).drop_last() =~= r);
        lemma_sources_le_push(r, cs.last(), bound);
    } else {
        let u = cs.update(i, cs.last()).drop_last();
        assert(u =~= r.update(i, cs.last()));
        lemma_sources_update(r, i, cs.last(), bound);
    }
}

proof fn lemma_sources_le_push(cs: Seq<Copy>, c: Copy, bound: int)
    ensures
        old_sources(cs, bound) <= old_sources(cs.push(c), bound),
{
    assert(cs.push(c).drop_last() =~= cs);
}

proof fn lemma_sources_update(cs: Seq<Copy>, i: int, c: Copy, bound: int)
    requires
        0 <= i < cs.len(),
    ensures
        old_sources(cs.update(i, c), bound) <= old_sources(cs, bound) + 1,
        c.1 >= bound ==> old_sources(cs.update(i, c), bound) <= old_sources(cs, bound),
        old_sources(cs.update(i, c), bound) + (if cs[i].1 < bound { 1int } else { 0int }) == old_sources(cs, bound) + (if c.1 < bound { 1int } else { 0int }),
    decreases cs.len(),
{
    let u = cs.update(i, c);
    if i == cs.len() - 1 {
        assert(u.drop_last() =~= cs.drop_last());
    } else {
        assert(u.drop_last() =~= cs.drop_last().update(i, c));
        lemma_sources_update(cs.drop_last(), i, c, bound);
    }
}

/// When no copy can go first, every source is the destination of a copy.
proof fn lemma_cycle_source(cs: Seq<Copy>)
    requires
        distinct(cs),
        cs.len() > 0,
        forall|i: int| 0 <= i < cs.len() ==> read_by_some(cs, (#[trigger] cs[i]).0),
    ensures
        exists|i: int| 0 <= i < cs.len() && (#[trigger] cs[i]).0 == cs[0].1,
{
    let d = cs.map_values(|c: Copy| c.0);
    let s = cs.map_values(|c: Copy| c.1);
    assert(d.no_duplicates()) by {
        assert forall|i: int, j: int| 0 <= i < d.len() && 0 <= j < d.len() && i != j implies d[i] != d[j] by {
            assert(cs[i].0 != cs[j].0);
        }
    }
    d.unique_seq_to_set();
    s.lemma_cardinality_of_set();
    assert(d.to_set().subset_of(s.to_set())) by {
        assert forall|x: Var| d.to_set().contains(x) implies s.to_set().contains(x) by {
            let i = choose|i: int| 0 <= i < d.len() && d[i] == x;
            assert(cs[i].0 == x);
            assert(read_by_some(cs, cs[i].0));
            let j = choose|j: int| 0 <= j < cs.len() && (#[trigger] cs[j]).1 == cs[i].0;
            assert(s[j] == x);
        }
    }
    broadcast use vstd::seq_lib::seq_to_set_is_finite;
    vstd::set_lib::lemma_len_subset(d.to_set(), s.to_set());
    vstd::set_lib::lemma_subset_equality(d.to_set(), s.to_set());
    assert(s.to_set().contains(s[0]));
    assert(d.to_set().contains(cs[0].1));
    let i = choose|i: int| 0 <= i < d.len() && d[i] == cs[0].1;
    assert(cs[i].0 == cs[0].1);
}


/// The value of `x` after running the copies in order.
pub open spec fn in_order(cs: Seq<Copy>, st: State, x: Var) -> int {
    sequential(cs, st)(x)
}

proof fn lemma_sources_len(cs: Seq<Copy>, bound: int)
    ensures
        old_sources(cs, bound) <= cs.len(),
    decreases cs.len(),
{
    if cs.len() > 0 {
        lemma_sources_len(cs.drop_last(), bound);
    }
}

/// Whether some copy reads `d`.
pub open spec fn read_by_some(cs: Seq<Copy>, d: Var) -> bool {
    exists|j: int| 0 <= j < cs.len() && (#[trigger] cs[j]).1 == d
}

/// Whether some copy reads `d`, computed.
fn is_source(cs: &Vec<Copy>, d: Var) -> (b: bool)
    ensures
        b == read_by_some(cs@, d),
{
    let mut j: usize = 0;
    while j < cs.len()
        invariant
            j <= cs@.len(),
            forall|k: int| 0 <= k < j ==> (#[trigger] cs@[k]).1 != d,
        decreases cs@.len() - j,
    {
        if cs[j].1 == d {
            return true;
        }
        j = j + 1;
    }
    false
}

/// A copy whose destination no copy reads: it can run first.
fn ready(cs: &Vec<Copy>) -> (r: Option<usize>)
    ensures
        match r {
            Some(i) => i < cs@.len() && forall|j: int| 0 <= j < cs@.len() ==> (#[trigger] cs@[j]).1 != cs@[i as int].0,
            None => forall|i: int| 0 <= i < cs@.len() ==> read_by_some(cs@, (#[trigger] cs@[i]).0),
        },
{
    let mut i: usize = 0;
    while i < cs.len()
        invariant
            i <= cs@.len(),
            forall|k: int| 0 <= k < i ==> read_by_some(cs@, (#[trigger] cs@[k]).0),
        decreases cs@.len() - i,
    {
        if !is_source(cs, cs[i].0) {
            return Some(i);
        }
        i = i + 1;
    }
    None
}

impl Function {
    /// Orders the parallel copies `pending` into copies that run one after
    /// another with the same effect: a copy goes first when no other copy
    /// reads what it writes, and a cycle is broken by saving one source in
    /// a fresh variable. Copies of a variable to itself are dropped.
    #[verifier::rlimit(50)]
    pub fn decycle(&mut self, pending: &mut Vec<Copy>)
        requires
            distinct(old(pending)@),
            below(old(pending)@, old(self).vars as int),
            old(self).vars + old(pending)@.len() <= usize::MAX,
        ensures
            forall|st: State, x: Var|
                x < old(self).vars ==> #[trigger] in_order(final(pending)@, st, x) == at_once(old(pending)@, st, x),
            old(self).vars <= final(self).vars <= old(self).vars + old(pending)@.len(),
            below(final(pending)@, final(self).vars as int),
            final(self).blocks == old(self).blocks,
            final(self).args == old(self).args,
            no_self(final(pending)@),
    {
        let v0 = self.vars;
        let ghost p0 = pending@;
        let mut rest: Vec<Copy> = Vec::new();
        let mut i: usize = 0;
        while i < pending.len()
            invariant
                pending@ == p0,
                distinct(p0),
                i <= p0.len(),
                distinct(rest@),
                forall|k: int| 0 <= k < rest@.len() ==> (#[trigger] rest@[k]).0 != rest@[k].1,
                forall|k: int| 0 <= k < rest@.len() ==> p0.take(i as int).contains(#[trigger] rest@[k]),
                forall|j: int| 0 <= j < i && (#[trigger] p0[j]).0 != p0[j].1 ==> rest@.contains(p0[j]),
            decreases p0.len() - i,
        {
            let d = pending[i].0;
            let src = pending[i].1;
            let ghost r_old = rest@;
            if d != src {
                rest.push(Copy(d, src));
            }
            proof {
                lemma_gather_step(p0, r_old, rest@, i as int);
            }
            i = i + 1;
        }
        proof {
            assert(p0.take(p0.len() as int) =~= p0);
            lemma_gathered(p0, rest@, v0 as int);
        }
        let mut done: Vec<Copy> = Vec::new();
        proof {
            reveal(no_self);
        }
        while rest.len() > 0
            invariant
                v0 == old(self).vars,
                v0 <= self.vars,
                self.blocks == old(self).blocks,
                self.args == old(self).args,
                distinct(rest@),
                below(rest@, self.vars as int),
                forall|k: int| 0 <= k < rest@.len() ==> (#[trigger] rest@[k]).0 < v0,
                below(done@, self.vars as int),
                self.vars + old_sources(rest@, v0 as int) <= v0 + p0.len(),
                v0 + p0.len() <= usize::MAX,
                forall|st: State, x: Var| x < v0 ==> #[trigger] at_once(rest@, sequential(done@, st), x) == at_once(p0, st, x),
                no_self(rest@),
                no_self(done@),
            decreases rest@.len(), old_sources(rest@, v0 as int),
        {
            match ready(&rest) {
                Some(i) => {
                    let ghost r0 = rest@;
                    let c = rest.swap_remove(i);
                    let ghost d0 = done@;
                    done.push(Copy(c.0, c.1));
                    proof {
                        assert(no_self(rest@) && no_self(done@)) by {
                            lemma_no_self_moves(r0, rest@, d0, done@, i as int);
                        }
                        lemma_sources_remove(r0, i as int, v0 as int);
                        lemma_ready_step(p0, r0, rest@, d0, done@, i as int, v0 as int, self.vars as int);
                    }
                },
                None => {
                    let ghost r0 = rest@;
                    let b = rest[0].1;
                    proof {
                        lemma_cycle_source(r0);
                        lemma_rewire_sources(r0, b, self.vars, v0 as int);
                        assert(r0[0].1 == b);
                    }
                    let t = self.var();
                    let ghost d0 = done@;
                    done.push(Copy(t, b));
                    let mut j: usize = 0;
                    while j < rest.len()
                        invariant
                            rest@.len() == r0.len(),
                            j <= r0.len(),
                            forall|k: int| 0 <= k < j ==> #[trigger] rest@[k] == rewire(r0, b, t)[k],
                            forall|k: int| j <= k < r0.len() ==> #[trigger] rest@[k] == r0[k],
                        decreases r0.len() - j,
                    {
                        if rest[j].1 == b {
                            let d = rest[j].0;
                            rest.set(j, Copy(d, t));
                        }
                        j = j + 1;
                    }
                    assert(rest@ =~= rewire(r0, b, t));
                    proof {
                        assert(no_self(rest@) && no_self(done@)) by {
                            lemma_no_self_rewire(r0, rest@, d0, done@, b, t, v0 as int);
                        }
                        lemma_break_step(p0, r0, d0, done@, b, t, v0 as int);
                    }
                },
            }
        }
        proof {
            assert forall|st: State, x: Var| x < v0 implies #[trigger] in_order(done@, st, x) == at_once(p0, st, x) by {
                assert(at_once(rest@, sequential(done@, st), x) == at_once(p0, st, x));
            }
        }
        *pending = done;
    }
}

/// No copy writes the variable it reads.
#[verifier::opaque]
pub open spec fn no_self(cs: Seq<Copy>) -> bool {
    forall|k: int| 0 <= k < cs.len() ==> (#[trigger] cs[k]).0 != cs[k].1
}

proof fn lemma_no_self_moves(r0: Seq<Copy>, r1: Seq<Copy>, d0: Seq<Copy>, d1: Seq<Copy>, i: int)
    requires
        no_self(r0),
        no_self(d0),
        0 <= i < r0.len(),
        r1 == r0.update(i, r0.last()).drop_last(),
        d1 == d0.push(Copy(r0[i].0, r0[i].1)),
    ensures
        no_self(r1),
        no_self(d1),
{
    reveal(no_self);
    assert forall|k: int| 0 <= k < r1.len() implies (#[trigger] r1[k]).0 != r1[k].1 by {
        if k == i {
            assert(r1[k] == r0[r0.len() - 1]);
        } else {
            assert(r1[k] == r0[k]);
        }
    }
    assert forall|k: int| 0 <= k < d1.len() implies (#[trigger] d1[k]).0 != d1[k].1 by {
        if k < d0.len() {
            assert(d1[k] == d0[k]);
        }
    }
}

proof fn lemma_no_self_rewire(r0: Seq<Copy>, r1: Seq<Copy>, d0: Seq<Copy>, d1: Seq<Copy>, b: Var, t: Var, v0: int)
    requires
        no_self(r0),
        no_self(d0),
        forall|k: int| 0 <= k < r0.len() ==> (#[trigger] r0[k]).0 < v0,
        t >= v0,
        t != b,
        r1 == rewire(r0, b, t),
        d1 == d0.push(Copy(t, b)),
    ensures
        no_self(r1),
        no_self(d1),
{
    reveal(no_self);
    assert forall|k: int| 0 <= k < r1.len() implies (#[trigger] r1[k]).0 != r1[k].1 by {
        assert(r0[k].0 < v0);
    }
    assert forall|k: int| 0 <= k < d1.len() implies (#[trigger] d1[k]).0 != d1[k].1 by {
        if k < d0.len() {
            assert(d1[k] == d0[k]);
        }
    }
}

proof fn lemma_sources_all_old(cs: Seq<Copy>, bound: int)
    requires
        below(cs, bound),
    ensures
        old_sources(cs, bound) == cs.len(),
    decreases cs.len(),
{
    if cs.len() > 0 {
        let r = cs.drop_last();
        assert forall|k: int| 0 <= k < r.len() implies (#[trigger] r[k]).0 < bound && r[k].1 < bound by {
            assert(r[k] == cs[k]);
        }
        lemma_sources_all_old(r, bound);
        assert(cs.last() == cs[cs.len() - 1]);
    }
}

proof fn lemma_sources_le_len(p: Seq<Copy>, r: Seq<Copy>, bound: int)
    requires
        distinct(r),
        forall|k: int| 0 <= k < r.len() ==> p.contains(#[trigger] r[k]),
    ensures
        r.len() <= p.len(),
{
    let rd = r.map_values(|c: Copy| c.0);
    let pd = p.map_values(|c: Copy| c.0);
    assert(rd.no_duplicates()) by {
        assert forall|i: int, j: int| 0 <= i < rd.len() && 0 <= j < rd.len() && i != j implies rd[i] != rd[j] by {
            assert(r[i].0 != r[j].0);
        }
    }
    rd.unique_seq_to_set();
    pd.lemma_cardinality_of_set();
    assert(rd.to_set().subset_of(pd.to_set())) by {
        assert forall|x: Var| rd.to_set().contains(x) implies pd.to_set().contains(x) by {
            let i = choose|i: int| 0 <= i < rd.len() && rd[i] == x;
            assert(p.contains(r[i]));
            let j = choose|j: int| 0 <= j < p.len() && p[j] == r[i];
            assert(pd[j] == x);
        }
    }
    broadcast use vstd::seq_lib::seq_to_set_is_finite;
    vstd::set_lib::lemma_len_subset(rd.to_set(), pd.to_set());
}


proof fn lemma_gather_step(p0: Seq<Copy>, r0: Seq<Copy>, r1: Seq<Copy>, i: int)
    requires
        distinct(p0),
        0 <= i < p0.len(),
        distinct(r0),
        forall|k: int| 0 <= k < r0.len() ==> (#[trigger] r0[k]).0 != r0[k].1,
        forall|k: int| 0 <= k < r0.len() ==> p0.take(i).contains(#[trigger] r0[k]),
        forall|j: int| 0 <= j < i && (#[trigger] p0[j]).0 != p0[j].1 ==> r0.contains(p0[j]),
        r1 == if p0[i].0 != p0[i].1 { r0.push(Copy(p0[i].0, p0[i].1)) } else { r0 },
    ensures
        distinct(r1),
        forall|k: int| 0 <= k < r1.len() ==> (#[trigger] r1[k]).0 != r1[k].1,
        forall|k: int| 0 <= k < r1.len() ==> p0.take(i + 1).contains(#[trigger] r1[k]),
        forall|j: int| 0 <= j < i + 1 && (#[trigger] p0[j]).0 != p0[j].1 ==> r1.contains(p0[j]),
{
    assert(p0[i] == Copy(p0[i].0, p0[i].1));
    assert forall|k: int| 0 <= k < r0.len() implies p0.take(i + 1).contains(#[trigger] r0[k]) && r0[k].0 != p0[i].0 by {
        assert(p0.take(i).contains(r0[k]));
        let j = choose|j: int| 0 <= j < i && p0.take(i)[j] == r0[k];
        assert(p0.take(i + 1)[j] == r0[k]);
        assert(p0[j] == r0[k]);
    }
    if p0[i].0 != p0[i].1 {
        assert forall|a: int, b: int| 0 <= a < r1.len() && 0 <= b < r1.len() && a != b implies (#[trigger] r1[a]).0 != (#[trigger] r1[b]).0 by {
            if a < r0.len() && b < r0.len() {
                assert(r1[a] == r0[a] && r1[b] == r0[b]);
            } else if a < r0.len() {
                assert(r1[a] == r0[a]);
            } else {
                assert(r1[b] == r0[b]);
            }
        }
        assert forall|k: int| 0 <= k < r1.len() implies p0.take(i + 1).contains(#[trigger] r1[k]) by {
            if k < r0.len() {
                assert(r1[k] == r0[k]);
            } else {
                assert(p0.take(i + 1)[i] == r1[k]);
            }
        }
        assert forall|k: int| 0 <= k < r1.len() implies (#[trigger] r1[k]).0 != r1[k].1 by {
            if k < r0.len() {
                assert(r1[k] == r0[k]);
            }
        }
        assert forall|j: int| 0 <= j < i + 1 && (#[trigger] p0[j]).0 != p0[j].1 implies r1.contains(p0[j]) by {
            if j == i {
                assert(r1[r0.len() as int] == p0[j]);
            } else {
                assert(r0.contains(p0[j]));
                let k = choose|k: int| 0 <= k < r0.len() && r0[k] == p0[j];
                assert(r1[k] == p0[j]);
            }
        }
    }
}

proof fn lemma_gathered(p0: Seq<Copy>, r: Seq<Copy>, v0: int)
    requires
        distinct(p0),
        below(p0, v0),
        distinct(r),
        forall|k: int| 0 <= k < r.len() ==> (#[trigger] r[k]).0 != r[k].1,
        forall|k: int| 0 <= k < r.len() ==> p0.contains(#[trigger] r[k]),
        forall|j: int| 0 <= j < p0.len() && (#[trigger] p0[j]).0 != p0[j].1 ==> r.contains(p0[j]),
    ensures
        forall|st: State, x: Var| x < v0 ==> #[trigger] at_once(r, st, x) == at_once(p0, st, x),
        below(r, v0),
        r.len() <= p0.len(),
        old_sources(r, v0) == r.len(),
{
    assert forall|st: State, x: Var| x < v0 implies #[trigger] at_once(r, st, x) == at_once(p0, st, x) by {
        if exists|j: int| 0 <= j < p0.len() && (#[trigger] p0[j]).0 == x {
            let j = choose|j: int| 0 <= j < p0.len() && (#[trigger] p0[j]).0 == x;
            lemma_parallel_hit(p0, st, j);
            if p0[j].1 == x {
                assert forall|k: int| 0 <= k < r.len() implies (#[trigger] r[k]).0 != x by {
                    assert(p0.contains(r[k]));
                    let q = choose|q: int| 0 <= q < p0.len() && p0[q] == r[k];
                    if r[k].0 == x {
                        assert(p0[q].0 == p0[j].0);
                    }
                }
                lemma_parallel_miss(r, st, x);
            } else {
                let k = choose|k: int| 0 <= k < r.len() && r[k] == p0[j];
                lemma_parallel_hit(r, st, k);
            }
        } else {
            assert forall|k: int| 0 <= k < r.len() implies (#[trigger] r[k]).0 != x by {
                assert(p0.contains(r[k]));
                let q = choose|q: int| 0 <= q < p0.len() && p0[q] == r[k];
                assert(p0[q].0 != x);
            }
            lemma_parallel_miss(r, st, x);
            lemma_parallel_miss(p0, st, x);
        }
    }
    assert forall|k: int| 0 <= k < r.len() implies (#[trigger] r[k]).0 < v0 && r[k].1 < v0 by {
        assert(p0.contains(r[k]));
        let q = choose|q: int| 0 <= q < p0.len() && p0[q] == r[k];
    }
    lemma_sources_le_len(p0, r, v0);
    lemma_sources_all_old(r, v0);
}

proof fn lemma_ready_step(
    p0: Seq<Copy>,
    r0: Seq<Copy>,
    r1: Seq<Copy>,
    d0: Seq<Copy>,
    d1: Seq<Copy>,
    i: int,
    v0: int,
    vars: int,
)
    requires
        0 <= i < r0.len(),
        r1 == r0.update(i, r0.last()).drop_last(),
        d1 == d0.push(Copy(r0[i].0, r0[i].1)),
        forall|j: int| 0 <= j < r0.len() ==> (#[trigger] r0[j]).1 != r0[i].0,
        distinct(r0),
        below(r0, vars),
        below(d0, vars),
        forall|k: int| 0 <= k < r0.len() ==> (#[trigger] r0[k]).0 < v0,
        forall|st: State, x: Var| x < v0 ==> #[trigger] at_once(r0, sequential(d0, st), x) == at_once(p0, st, x),
    ensures
        distinct(r1),
        below(r1, vars),
        below(d1, vars),
        forall|k: int| 0 <= k < r1.len() ==> (#[trigger] r1[k]).0 < v0,
        forall|st: State, x: Var| x < v0 ==> #[trigger] at_once(r1, sequential(d1, st), x) == at_once(p0, st, x),
{
    let c = r0[i];
    assert(c == Copy(c.0, c.1));
    assert forall|a: int| 0 <= a < r1.len() implies #[trigger] r1[a] == r0[if a == i { r0.len() - 1 } else { a }] by {}
    assert forall|a: int, b: int| 0 <= a < r1.len() && 0 <= b < r1.len() && a != b implies (#[trigger] r1[a]).0 != (#[trigger] r1[b]).0 by {
        let a0 = if a == i { r0.len() - 1 } else { a };
        let b0 = if b == i { r0.len() - 1 } else { b };
        assert(r1[a] == r0[a0]);
        assert(r1[b] == r0[b0]);
    }
    assert forall|k: int| 0 <= k < r1.len() implies (#[trigger] r1[k]).0 < vars && r1[k].1 < vars && r1[k].0 < v0 by {
        let a0 = if k == i { r0.len() - 1 } else { k };
        assert(r1[k] == r0[a0]);
    }
    assert forall|k: int| 0 <= k < d1.len() implies (#[trigger] d1[k]).0 < vars && d1[k].1 < vars by {
        if k < d0.len() {
            assert(d1[k] == d0[k]);
        }
    }
    assert forall|st: State, x: Var| x < v0 implies #[trigger] at_once(r1, sequential(d1, st), x) == at_once(p0, st, x) by {
        let sg = sequential(d0, st);
        assert(d1.drop_last() =~= d0);
        let sg2 = sequential(d1, st);
        assert(sg2 == assign(sg, c.0, sg(c.1)));
        assert(at_once(r0, sg, x) == at_once(p0, st, x));
        if x == c.0 {
            assert forall|k: int| 0 <= k < r1.len() implies (#[trigger] r1[k]).0 != x by {
                let a0 = if k == i { r0.len() - 1 } else { k };
                assert(r1[k] == r0[a0]);
            }
            lemma_parallel_miss(r1, sg2, x);
            lemma_parallel_hit(r0, sg, i);
        } else if exists|k: int| 0 <= k < r0.len() && (#[trigger] r0[k]).0 == x {
            let k = choose|k: int| 0 <= k < r0.len() && (#[trigger] r0[k]).0 == x;
            let k1 = if k == r0.len() - 1 { i } else { k };
            assert(r1[k1] == r0[k]);
            lemma_parallel_hit(r0, sg, k);
            lemma_parallel_hit(r1, sg2, k1);
            assert(r0[k].1 != c.0);
        } else {
            assert forall|k: int| 0 <= k < r1.len() implies (#[trigger] r1[k]).0 != x by {
                let a0 = if k == i { r0.len() - 1 } else { k };
                assert(r1[k] == r0[a0]);
            }
            lemma_parallel_miss(r1, sg2, x);
            lemma_parallel_miss(r0, sg, x);
        }
    }
}

proof fn lemma_break_step(p0: Seq<Copy>, r0: Seq<Copy>, d0: Seq<Copy>, d1: Seq<Copy>, b: Var, t: Var, v0: int)
    requires
        d1 == d0.push(Copy(t, b)),
        t >= v0,
        distinct(r0),
        below(r0, t as int),
        below(d0, t as int),
        b < t,
        forall|k: int| 0 <= k < r0.len() ==> (#[trigger] r0[k]).0 < v0,
        forall|st: State, x: Var| x < v0 ==> #[trigger] at_once(r0, sequential(d0, st), x) == at_once(p0, st, x),
    ensures
        distinct(rewire(r0, b, t)),
        below(rewire(r0, b, t), t + 1),
        below(d1, t + 1),
        forall|k: int| 0 <= k < rewire(r0, b, t).len() ==> (#[trigger] rewire(r0, b, t)[k]).0 < v0,
        forall|st: State, x: Var| x < v0 ==> #[trigger] at_once(rewire(r0, b, t), sequential(d1, st), x) == at_once(p0, st, x),
{
    let r1 = rewire(r0, b, t);
    assert forall|a: int, c: int| 0 <= a < r1.len() && 0 <= c < r1.len() && a != c implies (#[trigger] r1[a]).0 != (#[trigger] r1[c]).0 by {
        assert(r1[a].0 == r0[a].0);
        assert(r1[c].0 == r0[c].0);
    }
    assert forall|k: int| 0 <= k < r1.len() implies (#[trigger] r1[k]).0 < t + 1 && r1[k].1 < t + 1 && r1[k].0 < v0 by {}
    assert forall|k: int| 0 <= k < d1.len() implies (#[trigger] d1[k]).0 < t + 1 && d1[k].1 < t + 1 by {
        if k < d0.len() {
            assert(d1[k] == d0[k]);
        }
    }
    assert forall|st: State, x: Var| x < v0 implies #[trigger] at_once(r1, sequential(d1, st), x) == at_once(p0, st, x) by {
        let sg = sequential(d0, st);
        assert(d1.drop_last() =~= d0);
        let sg2 = sequential(d1, st);
        assert(sg2 == assign(sg, t, sg(b)));
        assert(at_once(r0, sg, x) == at_once(p0, st, x));
        if exists|k: int| 0 <= k < r0.len() && (#[trigger] r0[k]).0 == x {
            let k = choose|k: int| 0 <= k < r0.len() && (#[trigger] r0[k]).0 == x;
            lemma_parallel_hit(r0, sg, k);
            lemma_parallel_hit(r1, sg2, k);
        } else {
            assert forall|k: int| 0 <= k < r1.len() implies (#[trigger] r1[k]).0 != x by {
                assert(r1[k].0 == r0[k].0);
            }
            lemma_parallel_miss(r1, sg2, x);
            lemma_parallel_miss(r0, sg, x);
        }
    }
}


pub proof fn lemma_below_mono(cs: Seq<Copy>, a: int, b: int)
    requires
        below(cs, a),
        a <= b,
    ensures
        below(cs, b),
{
}

} // verus!
