use vstd::prelude::*;
use crate::analyze::{falses, lemma_falses_set};
use crate::bytecode::Reg;

verus! {

/// The live range of each variable over the linear code: where it is first
/// defined and where it is last used.
pub struct Intervals {
    pub defs: Vec<Option<usize>>,
    pub uses: Vec<Option<usize>>,
}

/// Whether `v` has a live range: it is used somewhere.
pub open spec fn ranged(iv: Intervals, v: int) -> bool {
    0 <= v < iv.uses@.len() && iv.uses@[v] is Some
}

/// Where the range of `v` starts: its definition, or the start of the code
/// when it has none.
pub open spec fn start(iv: Intervals, v: int) -> int {
    if 0 <= v < iv.defs@.len() && iv.defs@[v] is Some {
        iv.defs@[v]->0 as int
    } else {
        0
    }
}

/// Where the range of `v` ends: its last use.
pub open spec fn end(iv: Intervals, v: int) -> int {
    iv.uses@[v]->0 as int
}

/// Two variables that share a register never live at once: one range
/// ends where or before the other starts.
pub open spec fn apart(iv: Intervals, regs: Seq<Reg>) -> bool {
    forall|a: int, b: int|
        ranged(iv, a) && ranged(iv, b) && a != b && #[trigger] regs[a] == #[trigger] regs[b] ==> end(iv, a) <= start(iv, b)
            || end(iv, b) <= start(iv, a)
}

/// The range of `v` covers the point `p`: it starts at or before `p` and
/// ends after it, or starts right there.
pub open spec fn occupies(iv: Intervals, v: int, p: int) -> bool {
    &&& ranged(iv, v)
    &&& start(iv, v) <= p
    &&& (p < end(iv, v) || p == start(iv, v))
}

/// The distinct variables `vs`, 256 of them, all have ranges covering `p`.
pub open spec fn crowded(iv: Intervals, p: int, vs: Seq<int>) -> bool {
    &&& vs.len() == 256
    &&& vs.no_duplicates()
    &&& forall|i: int| 0 <= i < 256 ==> #[trigger] occupies(iv, vs[i], p)
}

/// Register `r` is free or held by an active range.
pub open spec fn held(active: Seq<(usize, Reg)>, free: Seq<Reg>, r: int) -> bool {
    free.contains(r as Reg) || exists|k: int| 0 <= k < active.len() && #[trigger] active[k].1 == r as Reg
}

/// Every register below `used` is free or held by an active range.
pub open spec fn accounted(used: int, active: Seq<(usize, Reg)>, free: Seq<Reg>) -> bool {
    forall|r: int| 1 <= r < used ==> #[trigger] held(active, free, r)
}

/// The state of the linear scan. `done` lists the variables given a
/// register so far, in order, and `cursor` is where the last one starts;
/// `holder[k]` is the position in `done` of the variable that holds the
/// register of the active range `k`.
pub open spec fn scan_ok(
    iv: Intervals,
    regs: Seq<Reg>,
    used: int,
    active: Seq<(usize, Reg)>,
    holder: Seq<int>,
    free: Seq<Reg>,
    done: Seq<int>,
    cursor: int,
) -> bool {
    &&& regs.len() == iv.uses@.len()
    &&& 1 <= used <= 256
    &&& forall|i: int| 0 <= i < done.len() ==> ranged(iv, #[trigger] done[i]) && 1 <= regs[done[i]] < used && start(iv, done[i]) <= cursor
    &&& done.no_duplicates()
    &&& forall|v: int| 0 <= v < regs.len() && !done.contains(v) ==> #[trigger] regs[v] == 0
    &&& forall|i: int, j: int|
        0 <= i < j < done.len() && #[trigger] regs[done[i]] == #[trigger] regs[done[j]] ==> end(iv, done[i]) <= start(iv, done[j])
    &&& free.no_duplicates()
    &&& forall|i: int| 0 <= i < free.len() ==> 1 <= #[trigger] free[i] < used
    &&& forall|i: int, k: int| 0 <= i < free.len() && 0 <= k < active.len() ==> #[trigger] free[i] != (#[trigger] active[k]).1
    &&& forall|i: int, j: int|
        0 <= i < free.len() && 0 <= j < done.len() && #[trigger] free[i] == #[trigger] regs[done[j]] ==> end(iv, done[j]) <= cursor
    &&& holder.len() == active.len()
    &&& forall|a: int, b: int| 0 <= a < active.len() && 0 <= b < active.len() && a != b ==> (#[trigger] active[a]).1 != (#[trigger] active[b]).1
    &&& forall|k: int|
        0 <= k < active.len() ==> 0 <= #[trigger] holder[k] < done.len() && regs[done[holder[k]]] == active[k].1 && end(
            iv,
            done[holder[k]],
        ) == active[k].0
    &&& forall|k: int, i: int|
        0 <= k < active.len() && holder[k] < i < done.len() ==> #[trigger] regs[done[i]] != (#[trigger] active[k]).1
}

/// Whether `v` is the next variable to take a register: not done yet, with
/// the earliest start, the smallest first among equals.
fn next_range(iv: &Intervals, processed: &Vec<bool>) -> (r: Option<usize>)
    requires
        processed@.len() == iv.uses@.len(),
    ensures
        match r {
            Some(v) => ranged(*iv, v as int) && !processed@[v as int] && forall|q: int|
                ranged(*iv, q) && !processed@[q] ==> start(*iv, v as int) <= #[trigger] start(*iv, q),
            None => forall|q: int| ranged(*iv, q) ==> #[trigger] processed@[q],
        },
{
    let mut best: Option<usize> = None;
    let mut best_start: usize = 0;
    let mut q: usize = 0;
    while q < iv.uses.len()
        invariant
            processed@.len() == iv.uses@.len(),
            q <= iv.uses@.len(),
            match best {
                Some(v) => v < q && ranged(*iv, v as int) && !processed@[v as int] && best_start == start(*iv, v as int)
                    && forall|p: int| 0 <= p < q && ranged(*iv, p) && !processed@[p] ==> best_start <= #[trigger] start(*iv, p),
                None => forall|p: int| 0 <= p < q && ranged(*iv, p) ==> #[trigger] processed@[p],
            },
        decreases iv.uses@.len() - q,
    {
        if iv.uses[q].is_some() && !processed[q] {
            let s = if q < iv.defs.len() {
                match iv.defs[q] {
                    Some(d) => d,
                    None => 0,
                }
            } else {
                0
            };
            let better = match best {
                Some(_) => s < best_start,
                None => true,
            };
            if better {
                best = Some(q);
                best_start = s;
            }
        }
        q = q + 1;
    }
    best
}

/// Linear-scan register allocation: the ranges are taken in the order they
/// start; a register comes back when the range holding it ends where or
/// before the next one starts. Registers are numbered from 1; a variable
/// without a range gets 0. Returns the register of each variable and the
/// number of registers, or `None` when more than 255 are needed at once.
pub fn allocate(iv: &Intervals) -> (r: Option<(Vec<Reg>, Reg)>)
    ensures
        r matches Some((regs, used)) ==> {
            &&& regs@.len() == iv.uses@.len()
            &&& forall|v: int| 0 <= v < regs@.len() ==> (#[trigger] ranged(*iv, v) ==> 1 <= regs@[v] <= used)
            &&& forall|v: int| 0 <= v < regs@.len() && !ranged(*iv, v) ==> #[trigger] regs@[v] == 0
            &&& apart(*iv, regs@)
            &&& used == 0 || exists|p: int, vs: Seq<int>| vs.len() == used && #[trigger] live_at(*iv, p, vs)
        },
        r is None ==> exists|p: int, vs: Seq<int>| #[trigger] crowded(*iv, p, vs),
{
    let n = iv.uses.len();
    let mut regs: Vec<Reg> = Vec::new();
    let mut processed: Vec<bool> = Vec::new();
    let mut i: usize = 0;
    while i < n
        invariant
            n == iv.uses@.len(),
            i <= n,
            regs@.len() == i,
            processed@.len() == i,
            forall|k: int| 0 <= k < i ==> regs@[k] == 0 && !processed@[k],
        decreases n - i,
    {
        regs.push(0);
        processed.push(false);
        i = i + 1;
    }
    let mut active: Vec<(usize, Reg)> = Vec::new();
    let mut free: Vec<Reg> = Vec::new();
    let mut used: u16 = 1;
    let ghost mut holder: Seq<int> = Seq::empty();
    let ghost mut done: Seq<int> = Seq::empty();
    let ghost mut cursor: int = 0;
    loop
        invariant
            n == iv.uses@.len(),
            processed@.len() == n,
            scan_ok(*iv, regs@, used as int, active@, holder, free@, done, cursor),
            forall|v: int| 0 <= v < n ==> (#[trigger] processed@[v] <==> done.contains(v)),
            forall|i: int, q: int| 0 <= i < done.len() && ranged(*iv, q) && !processed@[q] ==> start(*iv, #[trigger] done[i]) <= #[trigger] start(*iv, q),
            cursor >= 0,
            forall|q: int| ranged(*iv, q) && !processed@[q] ==> cursor <= #[trigger] start(*iv, q),
            accounted(used as int, active@, free@),
            used == 1 || exists|p: int, vs: Seq<int>| vs.len() == used - 1 && #[trigger] live_at(*iv, p, vs),
        ensures
            used == 1 || exists|p: int, vs: Seq<int>| vs.len() == used - 1 && #[trigger] live_at(*iv, p, vs),
            scan_ok(*iv, regs@, used as int, active@, holder, free@, done, cursor),
            forall|v: int| 0 <= v < n ==> (#[trigger] processed@[v] <==> done.contains(v)),
            forall|q: int| ranged(*iv, q) ==> #[trigger] processed@[q],
        decreases falses(processed@),
    {
        let v = match next_range(iv, &processed) {
            Some(v) => v,
            None => {
                break;
            },
        };
        let s: usize = if v < iv.defs.len() {
            match iv.defs[v] {
                Some(d) => d,
                None => 0,
            }
        } else {
            0
        };
        let e: usize = match iv.uses[v] {
            Some(u) => u,
            None => 0,
        };
        assert(s == start(*iv, v as int));
        assert(e == end(*iv, v as int));
        proof {
            lemma_cursor_up(*iv, regs@, used as int, active@, holder, free@, done, cursor, s as int);
            cursor = s as int;
        }
        loop
            invariant
                scan_ok(*iv, regs@, used as int, active@, holder, free@, done, cursor),
                cursor == s,
                accounted(used as int, active@, free@),
            ensures
                scan_ok(*iv, regs@, used as int, active@, holder, free@, done, cursor),
                cursor == s,
                accounted(used as int, active@, free@),
                forall|k: int| 0 <= k < active@.len() ==> s < (#[trigger] active@[k]).0,
            decreases active@.len(),
        {
            let mut m: Option<usize> = None;
            let mut k: usize = 0;
            while k < active.len()
                invariant
                    k <= active@.len(),
                    match m {
                        Some(x) => x < active@.len() && forall|j: int| 0 <= j < k ==> active@[x as int].0 <= (#[trigger] active@[j]).0,
                        None => k == 0,
                    },
                decreases active@.len() - k,
            {
                let better = match m {
                    Some(x) => active[k].0 < active[x].0 || (active[k].0 == active[x].0 && active[k].1 < active[x].1),
                    None => true,
                };
                if better {
                    m = Some(k);
                }
                k = k + 1;
            }
            match m {
                Some(x) => {
                    if active[x].0 <= s {
                        let ghost a0 = active@;
                        let ghost h0 = holder;
                        let ghost f0 = free@;
                        let (_, r) = active.swap_remove(x);
                        proof {
                            holder = h0.update(x as int, h0.last()).drop_last();
                        }
                        free.push(r);
                        proof {
                            lemma_expire(*iv, regs@, used as int, a0, h0, f0, done, cursor, x as int, active@, holder, free@);
                            assert forall|q: int| 1 <= q < used implies #[trigger] held(active@, free@, q) by {
                                assert(held(a0, f0, q));
                                {
                                    if f0.contains(q as Reg) {
                                        let i = choose|i: int| 0 <= i < f0.len() && f0[i] == q as Reg;
                                        assert(free@[i] == q as Reg);
                                    } else {
                                        let k = choose|k: int| 0 <= k < a0.len() && #[trigger] a0[k].1 == q as Reg;
                                        if k == x {
                                            assert(free@[f0.len() as int] == q as Reg);
                                        } else if k == a0.len() - 1 {
                                            assert(active@[x as int] == a0[k]);
                                        } else {
                                            assert(active@[k] == a0[k]);
                                        }
                                    }
                                }
                            }
                        }
                    } else {
                        break;
                    }
                },
                None => {
                    break;
                },
            }
        }
        let ghost f0 = free@;
        let ghost u0 = used as int;
        let r: Reg = match free.pop() {
            Some(r) => r,
            None => {
                proof {
                    assert(free@ =~= Seq::<Reg>::empty());
                    lemma_live(*iv, regs@, used as int, active@, holder, done, s as int, v as int);
                }
                if used == 256 {
                    proof {
                        let vs = choose|vs: Seq<int>| vs.len() == 256 && #[trigger] live_at(*iv, s as int, vs);
                        assert(crowded(*iv, s as int, vs));
                    }
                    return None;
                }
                let r = used as Reg;
                used = used + 1;
                r
            },
        };
        let ghost r0 = regs@;
        let ghost a0 = active@;
        let ghost p0 = processed@;
        let ghost d0 = done;
        proof {
            lemma_falses_set(processed@, v as int);
            assert(!done.contains(v as int));
        }
        regs.set(v, r);
        active.push((e, r));
        processed.set(v, true);
        proof {
            lemma_assign(*iv, r0, u0, used as int, a0, holder, f0, free@, d0, cursor, v as int, r, regs@, active@);
            assert forall|q: int| 1 <= q < used implies #[trigger] held(active@, free@, q) by {
                {
                    if q as Reg == r {
                        assert(active@[a0.len() as int].1 == r);
                    } else if q < u0 {
                        assert(held(a0, f0, q));
                        if f0.contains(q as Reg) {
                            let i = choose|i: int| 0 <= i < f0.len() && f0[i] == q as Reg;
                            assert(i != f0.len() - 1);
                            assert(free@[i] == q as Reg);
                        } else {
                            let k = choose|k: int| 0 <= k < a0.len() && #[trigger] a0[k].1 == q as Reg;
                            assert(active@[k] == a0[k]);
                        }
                    }
                }
            }
            holder = holder.push(d0.len() as int);
            done = d0.push(v as int);
            assert forall|w: int| 0 <= w < n implies (#[trigger] processed@[w] <==> done.contains(w)) by {
                if w == v {
                    assert(done[d0.len() as int] == w);
                } else {
                    assert(processed@[w] == p0[w]);
                    if d0.contains(w) {
                        let i = choose|i: int| 0 <= i < d0.len() && d0[i] == w;
                        assert(done[i] == w);
                    }
                    if done.contains(w) {
                        let i = choose|i: int| 0 <= i < done.len() && done[i] == w;
                        assert(d0[i] == w);
                    }
                }
            }
            assert forall|i: int, q: int| 0 <= i < done.len() && ranged(*iv, q) && !processed@[q] implies start(*iv, #[trigger] done[i]) <= #[trigger] start(*iv, q) by {
                assert(p0[q] == processed@[q] || q == v);
                if i < d0.len() {
                    assert(done[i] == d0[i]);
                }
            }
        }
    }
    proof {
        assert forall|v: int| 0 <= v < regs@.len() && #[trigger] ranged(*iv, v) implies 1 <= regs@[v] <= (used - 1) as Reg by {
            {
                assert(processed@[v]);
                let i = choose|i: int| 0 <= i < done.len() && done[i] == v;
                assert(ranged(*iv, done[i]) && 1 <= regs@[done[i]] < used);
            }
        }
        assert forall|v: int| 0 <= v < regs@.len() && !ranged(*iv, v) implies #[trigger] regs@[v] == 0 by {
            if done.contains(v) {
                let i = choose|i: int| 0 <= i < done.len() && done[i] == v;
                assert(ranged(*iv, done[i]));
            }
        }
        assert forall|a: int, b: int|
            ranged(*iv, a) && ranged(*iv, b) && a != b && #[trigger] regs@[a] == #[trigger] regs@[b] implies end(*iv, a) <= start(*iv, b)
                || end(*iv, b) <= start(*iv, a) by {
            assert(processed@[a] && processed@[b]);
            let i = choose|i: int| 0 <= i < done.len() && done[i] == a;
            let j = choose|j: int| 0 <= j < done.len() && done[j] == b;
            if i < j {
                assert(regs@[done[i]] == regs@[done[j]]);
            } else {
                assert(regs@[done[j]] == regs@[done[i]]);
            }
        }
    }
    Some((regs, (used - 1) as Reg))
}


proof fn lemma_cursor_up(
    iv: Intervals,
    regs: Seq<Reg>,
    used: int,
    active: Seq<(usize, Reg)>,
    holder: Seq<int>,
    free: Seq<Reg>,
    done: Seq<int>,
    cursor: int,
    c2: int,
)
    requires
        scan_ok(iv, regs, used, active, holder, free, done, cursor),
        cursor <= c2,
    ensures
        scan_ok(iv, regs, used, active, holder, free, done, c2),
{
}

proof fn lemma_expire(
    iv: Intervals,
    regs: Seq<Reg>,
    used: int,
    a0: Seq<(usize, Reg)>,
    h0: Seq<int>,
    f0: Seq<Reg>,
    done: Seq<int>,
    cursor: int,
    x: int,
    a1: Seq<(usize, Reg)>,
    h1: Seq<int>,
    f1: Seq<Reg>,
)
    requires
        scan_ok(iv, regs, used, a0, h0, f0, done, cursor),
        0 <= x < a0.len(),
        a0[x].0 <= cursor,
        a1 == a0.update(x, a0.last()).drop_last(),
        h1 == h0.update(x, h0.last()).drop_last(),
        f1 == f0.push(a0[x].1),
    ensures
        scan_ok(iv, regs, used, a1, h1, f1, done, cursor),
{
    let r = a0[x].1;
    let last = a0.len() - 1;
    assert forall|k: int| 0 <= k < a1.len() implies #[trigger] a1[k] == a0[if k == x { last } else { k }] && h1[k] == h0[if k == x { last } else { k }] by {}
    assert(f1.no_duplicates()) by {
        assert forall|i: int, j: int| 0 <= i < f1.len() && 0 <= j < f1.len() && i != j implies f1[i] != f1[j] by {
            if i < f0.len() && j < f0.len() {
                assert(f1[i] == f0[i] && f1[j] == f0[j]);
            } else if i < f0.len() {
                assert(f1[i] == f0[i]);
                assert(f0[i] != a0[x].1);
            } else {
                assert(f1[j] == f0[j]);
                assert(f0[j] != a0[x].1);
            }
        }
    }
    assert forall|i: int, k: int| 0 <= i < f1.len() && 0 <= k < a1.len() implies #[trigger] f1[i] != (#[trigger] a1[k]).1 by {
        let k0 = if k == x { last } else { k };
        assert(a1[k] == a0[k0]);
        if i < f0.len() {
            assert(f1[i] == f0[i]);
        } else {
            assert(k0 != x);
        }
    }
    assert forall|i: int, j: int|
        0 <= i < f1.len() && 0 <= j < done.len() && #[trigger] f1[i] == #[trigger] regs[done[j]] implies end(iv, done[j]) <= cursor by {
        if i < f0.len() {
            assert(f1[i] == f0[i]);
        } else {
            let hx = h0[x];
            if j == hx {
            } else if j < hx {
                assert(end(iv, done[j]) <= start(iv, done[hx]));
                assert(start(iv, done[hx]) <= cursor);
            } else {
                assert(regs[done[j]] != a0[x].1);
            }
        }
    }
    assert forall|a: int, b: int| 0 <= a < a1.len() && 0 <= b < a1.len() && a != b implies (#[trigger] a1[a]).1 != (#[trigger] a1[b]).1 by {
        let a_0 = if a == x { last } else { a };
        let b_0 = if b == x { last } else { b };
        assert(a1[a] == a0[a_0]);
        assert(a1[b] == a0[b_0]);
    }
    assert forall|k: int| 0 <= k < a1.len() implies 0 <= #[trigger] h1[k] < done.len() && regs[done[h1[k]]] == a1[k].1 && end(
        iv,
        done[h1[k]],
    ) == a1[k].0 by {
        let k0 = if k == x { last } else { k };
        assert(a1[k] == a0[k0] && h1[k] == h0[k0]);
    }
    assert forall|k: int, i: int| 0 <= k < a1.len() && h1[k] < i < done.len() implies #[trigger] regs[done[i]] != (#[trigger] a1[k]).1 by {
        let k0 = if k == x { last } else { k };
        assert(a1[k] == a0[k0] && h1[k] == h0[k0]);
    }
    assert forall|i: int| 0 <= i < f1.len() implies 1 <= #[trigger] f1[i] < used by {
        if i < f0.len() {
            assert(f1[i] == f0[i]);
        } else {
            assert(regs[done[h0[x]]] == a0[x].1);
        }
    }
}

proof fn lemma_assign(
    iv: Intervals,
    r0: Seq<Reg>,
    u0: int,
    u1: int,
    a0: Seq<(usize, Reg)>,
    h0: Seq<int>,
    f0: Seq<Reg>,
    f1: Seq<Reg>,
    d0: Seq<int>,
    cursor: int,
    v: int,
    r: Reg,
    r1: Seq<Reg>,
    a1: Seq<(usize, Reg)>,
)
    requires
        scan_ok(iv, r0, u0, a0, h0, f0, d0, cursor),
        ranged(iv, v),
        start(iv, v) == cursor,
        !d0.contains(v),
        (f0.len() > 0 && f1 == f0.drop_last() && r == f0.last() && u1 == u0) || (f0.len() == 0 && f1 == f0 && r == u0 && u1
            == u0 + 1 && u0 < 256),
        r1 == r0.update(v, r),
        a1 == a0.push((end(iv, v) as usize, r)),
        end(iv, v) >= 0,
    ensures
        scan_ok(iv, r1, u1, a1, h0.push(d0.len() as int), f1, d0.push(v), cursor),
{
    let d1 = d0.push(v);
    let h1 = h0.push(d0.len() as int);
    assert forall|i: int| 0 <= i < d0.len() implies #[trigger] r1[d0[i]] == r0[d0[i]] by {
        assert(d0[i] != v);
    }
    assert(r0[v] == 0);
    assert(f0.len() > 0 ==> forall|k: int| 0 <= k < a0.len() ==> (#[trigger] a0[k]).1 != r) by {
        if f0.len() > 0 {
            assert forall|k: int| 0 <= k < a0.len() implies (#[trigger] a0[k]).1 != r by {
                assert(f0[f0.len() - 1] != a0[k].1);
            }
        }
    }
    assert forall|i: int| 0 <= i < d1.len() implies ranged(iv, #[trigger] d1[i]) && 1 <= r1[d1[i]] < u1 && start(iv, d1[i]) <= cursor by {
        if i < d0.len() {
            assert(d1[i] == d0[i]);
        }
    }
    assert(d1.no_duplicates()) by {
        assert forall|i: int, j: int| 0 <= i < d1.len() && 0 <= j < d1.len() && i != j implies d1[i] != d1[j] by {
            if i < d0.len() && j < d0.len() {
                assert(d1[i] == d0[i] && d1[j] == d0[j]);
            } else if i < d0.len() {
                assert(d1[i] == d0[i]);
            } else {
                assert(d1[j] == d0[j]);
            }
        }
    }
    assert forall|w: int| 0 <= w < r1.len() && !d1.contains(w) implies #[trigger] r1[w] == 0 by {
        if w != v {
            if d0.contains(w) {
                let i = choose|i: int| 0 <= i < d0.len() && d0[i] == w;
                assert(d1[i] == w);
            }
        } else {
            assert(d1[d0.len() as int] == v);
        }
    }
    assert forall|i: int, j: int|
        0 <= i < j < d1.len() && #[trigger] r1[d1[i]] == #[trigger] r1[d1[j]] implies end(iv, d1[i]) <= start(iv, d1[j]) by {
        if j < d0.len() {
            assert(d1[i] == d0[i] && d1[j] == d0[j]);
        } else {
            assert(d1[j] == v);
            assert(d1[i] == d0[i]);
            if f0.len() > 0 {
                assert(f0[f0.len() - 1] == r);
                assert(end(iv, d0[i]) <= cursor);
            } else {
                assert(r0[d0[i]] < u0);
            }
        }
    }
    assert(f1.no_duplicates());
    assert forall|i: int| 0 <= i < f1.len() implies 1 <= #[trigger] f1[i] < u1 by {
        assert(f1[i] == f0[i]);
    }
    assert forall|i: int, k: int| 0 <= i < f1.len() && 0 <= k < a1.len() implies #[trigger] f1[i] != (#[trigger] a1[k]).1 by {
        assert(f1[i] == f0[i]);
        if k < a0.len() {
            assert(a1[k] == a0[k]);
        } else if f0.len() > 0 {
            assert(f0[i] != f0[f0.len() - 1]);
        }
    }
    assert forall|i: int, j: int|
        0 <= i < f1.len() && 0 <= j < d1.len() && #[trigger] f1[i] == #[trigger] r1[d1[j]] implies end(iv, d1[j]) <= cursor by {
        assert(f1[i] == f0[i]);
        if j < d0.len() {
            assert(d1[j] == d0[j]);
        } else if f0.len() > 0 {
            assert(f0[i] != f0[f0.len() - 1]);
        }
    }
    assert forall|a: int, b: int| 0 <= a < a1.len() && 0 <= b < a1.len() && a != b implies (#[trigger] a1[a]).1 != (#[trigger] a1[b]).1 by {
        if a < a0.len() && b < a0.len() {
            assert(a1[a] == a0[a] && a1[b] == a0[b]);
        } else if a < a0.len() {
            assert(a1[a] == a0[a]);
            assert(r0[d0[h0[a]]] == a0[a].1);
        } else {
            assert(a1[b] == a0[b]);
            assert(r0[d0[h0[b]]] == a0[b].1);
        }
    }
    assert forall|k: int| 0 <= k < a1.len() implies 0 <= #[trigger] h1[k] < d1.len() && r1[d1[h1[k]]] == a1[k].1 && end(
        iv,
        d1[h1[k]],
    ) == a1[k].0 by {
        if k < a0.len() {
            assert(a1[k] == a0[k] && h1[k] == h0[k]);
            assert(d1[h0[k]] == d0[h0[k]]);
        }
    }
    assert forall|k: int, i: int| 0 <= k < a1.len() && h1[k] < i < d1.len() implies #[trigger] r1[d1[i]] != (#[trigger] a1[k]).1 by {
        if k < a0.len() {
            assert(a1[k] == a0[k] && h1[k] == h0[k]);
            if i < d0.len() {
                assert(d1[i] == d0[i]);
            } else {
                assert(d1[i] == v);
            }
        }
    }
}

/// The distinct variables `vs` all have ranges covering `p`.
pub open spec fn live_at(iv: Intervals, p: int, vs: Seq<int>) -> bool {
    &&& vs.no_duplicates()
    &&& forall|i: int| 0 <= i < vs.len() ==> #[trigger] occupies(iv, vs[i], p)
}

/// With every register of 1 to `u - 1` held by an active range that covers
/// the start `p` of the range of `v`, which holds none, `u` ranges cover
/// `p`.
proof fn lemma_live(iv: Intervals, regs: Seq<Reg>, u: int, active: Seq<(usize, Reg)>, holder: Seq<int>, done: Seq<int>, p: int, v: int)
    requires
        scan_ok(iv, regs, u, active, holder, Seq::empty(), done, p),
        accounted(u, active, Seq::empty()),
        forall|k: int| 0 <= k < active.len() ==> p < (#[trigger] active[k]).0,
        ranged(iv, v),
        start(iv, v) == p,
        !done.contains(v),
    ensures
        exists|vs: Seq<int>| vs.len() == u && #[trigger] live_at(iv, p, vs),
{
    let slot = |r: int| choose|k: int| 0 <= k < active.len() && #[trigger] active[k].1 == r as Reg;
    let holders = Seq::new((u - 1) as nat, |i: int| done[holder[slot(i + 1)]]);
    let vs = holders.push(v);
    assert forall|r: int| 1 <= r < u implies 0 <= #[trigger] slot(r) < active.len() && active[slot(r)].1 == r as Reg by {
        assert(held(active, Seq::empty(), r));
        assert(!Seq::<Reg>::empty().contains(r as Reg));
    }
    assert forall|i: int| 0 <= i < u implies #[trigger] occupies(iv, vs[i], p) by {
        if i < u - 1 {
            let k = slot(i + 1);
            assert(0 <= k < active.len() && active[k].1 == (i + 1) as Reg);
            let h = holder[k];
            assert(0 <= h < done.len());
            assert(vs[i] == done[h]);
            assert(ranged(iv, done[h]) && start(iv, done[h]) <= p);
            assert(end(iv, done[h]) == active[k].0);
        }
    }
    assert forall|a: int, b: int| 0 <= a < b < u implies vs[a] != vs[b] by {
        if b == u - 1 {
            let k = slot(a + 1);
            assert(0 <= k < active.len() && active[k].1 == (a + 1) as Reg);
            assert(done.contains(done[holder[k]]));
        } else {
            let ka = slot(a + 1);
            let kb = slot(b + 1);
            assert(0 <= ka < active.len() && active[ka].1 == (a + 1) as Reg);
            assert(0 <= kb < active.len() && active[kb].1 == (b + 1) as Reg);
            assert(regs[done[holder[ka]]] == active[ka].1);
            assert(regs[done[holder[kb]]] == active[kb].1);
        }
    }
    assert(vs.no_duplicates());
    assert(live_at(iv, p, vs));
}

/// Two variables live across the same point never share a register: when
/// the definition of each is at or before `p` and its last use after `p`,
/// registers kept apart give them different registers.
pub proof fn law_apart_live(iv: Intervals, regs: Seq<Reg>, a: int, b: int, p: int)
    requires
        apart(iv, regs),
        a != b,
        0 <= a < iv.uses@.len() && (iv.uses@[a] matches Some(ua) && p < ua),
        0 <= b < iv.uses@.len() && (iv.uses@[b] matches Some(ub) && p < ub),
        0 <= a < iv.defs@.len() && (iv.defs@[a] matches Some(da) && da <= p),
        0 <= b < iv.defs@.len() && (iv.defs@[b] matches Some(db) && db <= p),
    ensures
        regs[a] != regs[b],
{
    if regs[a] == regs[b] {
        assert(ranged(iv, a) && ranged(iv, b));
    }
}

} // verus!
