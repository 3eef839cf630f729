use vstd::prelude::*;
use std::collections::{HashMap, HashSet, VecDeque};
use crate::ir::{Const, ConstV, Label, Var};

verus! {

broadcast use vstd::std_specs::hash::group_hash_axioms;

/// The constant-propagation lattice: `Top` (not known yet) above every
/// constant, and `Bottom` (not a constant) below.
#[derive(Debug, Clone)]
pub enum Lattice {
    Top,
    Const(Const),
    Bottom,
}

/// The mathematical value of a lattice element.
pub enum LatticeV {
    Top,
    Const(ConstV),
    Bottom,
}

impl View for Lattice {
    type V = LatticeV;

    open spec fn view(&self) -> LatticeV {
        match self {
            Lattice::Top => LatticeV::Top,
            Lattice::Const(c) => LatticeV::Const(c@),
            Lattice::Bottom => LatticeV::Bottom,
        }
    }
}

/// The greatest lower bound of two lattice elements.
pub open spec fn meet_spec(a: LatticeV, b: LatticeV) -> LatticeV {
    match (a, b) {
        (LatticeV::Top, x) => x,
        (x, LatticeV::Top) => x,
        (LatticeV::Const(l), LatticeV::Const(r)) => if l == r {
            LatticeV::Const(l)
        } else {
            LatticeV::Bottom
        },
        _ => LatticeV::Bottom,
    }
}

/// The order of the lattice: `a` is at or below `b`.
pub open spec fn below(a: LatticeV, b: LatticeV) -> bool {
    meet_spec(a, b) == a
}

/// Distance to `Bottom`: 2 for `Top`, 1 for a constant, 0 for `Bottom`.
pub open spec fn height(a: LatticeV) -> nat {
    match a {
        LatticeV::Top => 2,
        LatticeV::Const(_) => 1,
        LatticeV::Bottom => 0,
    }
}

/// Meeting is commutative.
pub proof fn meet_commutative(a: LatticeV, b: LatticeV)
    ensures
        meet_spec(a, b) == meet_spec(b, a),
{
}

/// Meeting is associative.
pub proof fn meet_associative(a: LatticeV, b: LatticeV, c: LatticeV)
    ensures
        meet_spec(meet_spec(a, b), c) == meet_spec(a, meet_spec(b, c)),
{
}

/// Meeting an element with itself gives it back.
pub proof fn meet_idempotent(a: LatticeV)
    ensures
        meet_spec(a, a) == a,
{
}

/// `Top` is the identity of meet and `Bottom` absorbs everything.
pub proof fn meet_top_bottom(a: LatticeV)
    ensures
        meet_spec(LatticeV::Top, a) == a,
        meet_spec(a, LatticeV::Bottom) == LatticeV::Bottom,
{
}

/// The meet is below both arguments, and strictly lower than `a` unless it
/// is `a` itself.
pub proof fn meet_descends(a: LatticeV, b: LatticeV)
    ensures
        below(meet_spec(a, b), a),
        below(meet_spec(a, b), b),
        height(meet_spec(a, b)) <= height(a),
        meet_spec(a, b) != a ==> height(meet_spec(a, b)) < height(a),
{
}

impl Lattice {
    /// The greatest lower bound of two elements.
    pub fn meet(&self, other: &Self) -> (r: Self)
        ensures
            r@ == meet_spec(self@, other@),
    {
        match (self, other) {
            (Lattice::Top, x) => x.dup(),
            (x, Lattice::Top) => x.dup(),
            (Lattice::Const(l), Lattice::Const(r)) => {
                if l.same(r) {
                    Lattice::Const(l.dup())
                } else {
                    Lattice::Bottom
                }
            },
            _ => Lattice::Bottom,
        }
    }

    /// A copy of the element.
    pub fn dup(&self) -> (r: Self)
        ensures
            r@ == self@,
    {
        match self {
            Lattice::Top => Lattice::Top,
            Lattice::Const(c) => Lattice::Const(c.dup()),
            Lattice::Bottom => Lattice::Bottom,
        }
    }

    /// Whether two elements are equal.
    pub fn same(&self, other: &Self) -> (b: bool)
        ensures
            b == (self@ == other@),
    {
        match (self, other) {
            (Lattice::Top, Lattice::Top) => true,
            (Lattice::Bottom, Lattice::Bottom) => true,
            (Lattice::Const(l), Lattice::Const(r)) => l.same(r),
            _ => false,
        }
    }
}

/// The variable reached from `v` after `n` steps along `m`, stopping at a
/// variable that `m` does not map.
pub open spec fn step(m: Map<Var, Var>, v: Var, n: nat) -> Var
    decreases n,
{
    if n == 0 || !m.dom().contains(v) {
        v
    } else {
        step(m, m[v], (n - 1) as nat)
    }
}

/// Following `m` from `v` ends at a variable that `m` does not map.
pub open spec fn ends(m: Map<Var, Var>, v: Var, e: Var) -> bool {
    exists|n: nat| #[trigger] step(m, v, n) == e && !m.dom().contains(e)
}

proof fn lemma_step_succ(m: Map<Var, Var>, v: Var, n: nat)
    requires
        m.dom().contains(step(m, v, n)),
    ensures
        step(m, v, n + 1) == m[step(m, v, n)],
    decreases n,
{
    if n == 0 {
        assert(step(m, v, 1) == step(m, m[v], 0));
    } else if m.dom().contains(v) {
        lemma_step_succ(m, m[v], (n - 1) as nat);
    }
}

proof fn lemma_step_stuck(m: Map<Var, Var>, v: Var, n: nat, k: nat)
    requires
        !m.dom().contains(step(m, v, n)),
        n <= k,
    ensures
        step(m, v, k) == step(m, v, n),
    decreases n,
{
    if n == 0 {
        if m.dom().contains(v) {
        } else {
            assert(step(m, v, k) == v);
        }
    } else if m.dom().contains(v) {
        lemma_step_stuck(m, m[v], (n - 1) as nat, (k - 1) as nat);
    }
}

/// The variable a chain of `m` from `v` ends at, when it ends.
pub open spec fn resolve(m: Map<Var, Var>, v: Var) -> Var {
    choose|e: Var| ends(m, v, e)
}

/// Every chain of `m` ends: following the substitution never loops.
pub open spec fn settles(m: Map<Var, Var>) -> bool {
    forall|v: Var| #[trigger] ends(m, v, resolve(m, v))
}

/// Every variable reached from one below `bound` is below `bound`, when
/// `m` maps only to such variables.
pub proof fn lemma_step_bound(m: Map<Var, Var>, v: Var, n: nat, bound: int)
    requires
        v < bound,
        forall|x: Var| #[trigger] m.dom().contains(x) ==> m[x] < bound,
    ensures
        step(m, v, n) < bound,
    decreases n,
{
    if n > 0 && m.dom().contains(v) {
        lemma_step_bound(m, m[v], (n - 1) as nat, bound);
    }
}

proof fn lemma_ends_insert(m: Map<Var, Var>, from: Var, to: Var, v: Var, n: nat)
    requires
        !m.dom().contains(step(m, v, n)),
        !m.dom().contains(to),
        from != to,
    ensures
        exists|e: Var| ends(m.insert(from, to), v, e),
    decreases n,
{
    let m2 = m.insert(from, to);
    if v == from {
        assert(step(m2, v, 1) == step(m2, to, 0));
        assert(ends(m2, v, to));
    } else if !m.dom().contains(v) {
        assert(step(m2, v, 0) == v);
        assert(ends(m2, v, v));
    } else {
        assert(n > 0);
        assert(step(m, v, n) == step(m, m[v], (n - 1) as nat));
        lemma_ends_insert(m, from, to, m[v], (n - 1) as nat);
        let e = choose|e: Var| ends(m2, m[v], e);
        let k = choose|k: nat| #[trigger] step(m2, m[v], k) == e && !m2.dom().contains(e);
        assert(step(m2, v, k + 1) == step(m2, m2[v], k));
        assert(ends(m2, v, e));
    }
}

/// Mapping a variable to one that is not mapped keeps every chain finite.
pub proof fn lemma_settles_insert(m: Map<Var, Var>, from: Var, to: Var)
    requires
        settles(m),
        !m.dom().contains(to),
        from != to,
    ensures
        settles(m.insert(from, to)),
{
    let m2 = m.insert(from, to);
    assert forall|v: Var| #[trigger] ends(m2, v, resolve(m2, v)) by {
        assert(ends(m, v, resolve(m, v)));
        let n = choose|n: nat| #[trigger] step(m, v, n) == resolve(m, v) && !m.dom().contains(resolve(m, v));
        lemma_ends_insert(m, from, to, v, n);
    }
}

/// The empty substitution maps nothing, so every chain ends at once.
pub proof fn lemma_settles_empty()
    ensures
        settles(Map::<Var, Var>::empty()),
{
    let m = Map::<Var, Var>::empty();
    assert forall|v: Var| #[trigger] ends(m, v, resolve(m, v)) by {
        assert(step(m, v, 0) == v);
        assert(ends(m, v, v));
    }
}

/// Following `m` from `v`, the variable reached after `n` steps is the last
/// before the chain comes back to one it passed: the first `n` variables
/// after `v` are all different, and the next one is one of them.
pub open spec fn returns_at(m: Map<Var, Var>, v: Var, n: nat) -> bool {
    &&& forall|i: nat, j: nat| 1 <= j < i <= n ==> #[trigger] step(m, v, i) != #[trigger] step(m, v, j)
    &&& exists|j: nat| 1 <= j <= n && #[trigger] step(m, v, j) == step(m, v, n + 1)
}

/// A substitution of variables, followed transitively.
pub struct Renamer {
    map: HashMap<Var, Var>,
}

impl View for Renamer {
    type V = Map<Var, Var>;

    closed spec fn view(&self) -> Map<Var, Var> {
        self.map@
    }
}

impl Renamer {
    /// The empty substitution.
    pub fn new() -> (r: Self)
        ensures
            r@ == Map::<Var, Var>::empty(),
    {
        Renamer { map: HashMap::new() }
    }

    /// Maps `from` to `to`.
    pub fn insert(&mut self, from: Var, to: Var)
        ensures
            final(self)@ == old(self)@.insert(from, to),
    {
        self.map.insert(from, to);
    }

    /// Whether the substitution maps nothing.
    pub fn is_empty(&self) -> (b: bool)
        ensures
            b == self@.dom().is_empty(),
    {
        self.map.is_empty()
    }

    /// Follows the substitution from `var` until a variable that is not
    /// mapped, or until the chain comes back to a variable it already
    /// passed. The result lies on the chain, and is its end when the chain
    /// has one.
    pub fn get(&self, var: Var) -> (r: Var)
        ensures
            exists|n: nat| step(self@, var, n) == r,
            forall|e: Var| ends(self@, var, e) ==> r == e,
            settles(self@) ==> r == resolve(self@, var) && !self@.dom().contains(r),
            self@.dom().contains(r) ==> exists|n: nat| #[trigger] step(self@, var, n) == r && returns_at(self@, var, n),
    {
        let mut current = var;
        let mut visited: HashSet<Var> = HashSet::new();
        let ghost mut k: nat = 0;
        loop
            invariant
                step(self@, var, k) == current,
                forall|x: Var|
                    visited@.contains(x) <==> exists|j: nat|
                        1 <= j <= k && #[trigger] step(self@, var, j) == x,
                visited@.finite(),
                visited@.len() == k,
                forall|j: nat| j < k ==> self@.dom().contains(#[trigger] step(self@, var, j)),
                forall|i: nat, j: nat| 1 <= j < i <= k ==> #[trigger] step(self@, var, i) != #[trigger] step(self@, var, j),
            ensures
                step(self@, var, k) == current,
                forall|e: Var| ends(self@, var, e) ==> current == e,
                self@.dom().contains(current) ==> returns_at(self@, var, k),
            decreases self@.dom().len() + 1 - visited@.len(),
        {
            match self.map.get(&current) {
                Some(next) => {
                    let next = *next;
                    proof {
                        lemma_step_succ(self@, var, k);
                        assert forall|x: Var| #[trigger] visited@.contains(x) implies self@.dom().contains(x) by {
                            let j = choose|j: nat| 1 <= j <= k && #[trigger] step(self@, var, j) == x;
                            if j < k {
                                assert(self@.dom().contains(step(self@, var, j)));
                            }
                        }
                        vstd::set_lib::lemma_len_subset(visited@, self@.dom());
                    }
                    let ghost vis0 = visited@;
                    if !visited.insert(next) {
                        proof {
                            let j = choose|j: nat| 1 <= j <= k && #[trigger] step(self@, var, j) == next;
                            assert(step(self@, var, k + 1) == next);
                            assert(returns_at(self@, var, k));
                            assert forall|n: nat| self@.dom().contains(#[trigger] step(self@, var, n)) by {
                                assert forall|i: nat| i < k + 1 implies self@.dom().contains(#[trigger] step(self@, var, i)) by {
                                    if i < k {
                                        assert(self@.dom().contains(step(self@, var, i)));
                                    }
                                }
                                lemma_cycle(self@, var, j, k + 1, n);
                            }
                            assert forall|e: Var| ends(self@, var, e) implies current == e by {
                                let n = choose|n: nat| #[trigger] step(self@, var, n) == e && !self@.dom().contains(e);
                                assert(self@.dom().contains(step(self@, var, n)));
                            }
                        }
                        break;
                    }
                    current = next;
                    proof {
                        assert forall|i: nat, j: nat| 1 <= j < i <= k + 1 implies #[trigger] step(self@, var, i) != #[trigger] step(self@, var, j) by {
                            if i == k + 1 {
                                assert(step(self@, var, k + 1) == next);
                                assert(!vis0.contains(next));
                                assert(vis0.contains(step(self@, var, j)));
                            }
                        }
                        k = k + 1;
                        assert forall|x: Var|
                            visited@.contains(x) <==> exists|j: nat|
                                1 <= j <= k && #[trigger] step(self@, var, j) == x by {
                            if x == next {
                                assert(step(self@, var, k) == x);
                            }
                        }
                    }
                },
                None => {
                    proof {
                        assert forall|e: Var| ends(self@, var, e) implies current == e by {
                            let n = choose|n: nat| #[trigger] step(self@, var, n) == e && !self@.dom().contains(e);
                            if n < k {
                                assert(self@.dom().contains(step(self@, var, n)));
                            } else {
                                lemma_step_stuck(self@, var, k, n);
                            }
                        }
                    }
                    break;
                },
            }
        }
        proof {
            if settles(self@) {
                assert(ends(self@, var, resolve(self@, var)));
            }
        }
        current
    }
}

/// Walking `a + b` steps is walking `a` steps, then `b` more.
proof fn lemma_step_add(m: Map<Var, Var>, v: Var, a: nat, b: nat)
    ensures
        step(m, v, a + b) == step(m, step(m, v, a), b),
    decreases a,
{
    if a == 0 {
    } else if !m.dom().contains(v) {
        assert(step(m, v, a + b) == v);
        assert(step(m, v, a) == v);
    } else {
        lemma_step_add(m, m[v], (a - 1) as nat, b);
        assert(step(m, v, a + b) == step(m, m[v], (a + b - 1) as nat));
    }
}

/// A chain that comes back to a variable it passed never ends.
proof fn lemma_cycle(m: Map<Var, Var>, v: Var, a: nat, b: nat, n: nat)
    requires
        a < b,
        step(m, v, a) == step(m, v, b),
        forall|i: nat| i < b ==> m.dom().contains(#[trigger] step(m, v, i)),
    ensures
        m.dom().contains(step(m, v, n)),
    decreases n,
{
    if n >= b {
        let t = (n - b) as nat;
        lemma_step_add(m, v, b, t);
        lemma_step_add(m, v, a, t);
        lemma_cycle(m, v, a, b, a + t);
    }
}

/// The state of a sparse constant propagation: a lattice value per
/// variable, the control-flow edges and blocks found executable, and the
/// work lists of edges and variables still to visit.
pub struct Context {
    values: Vec<Lattice>,
    pub edges: HashSet<(Label, Label)>,
    pub visited: HashSet<Label>,
    pub flow: VecDeque<(Label, Label)>,
    pub ssa: VecDeque<Var>,
}

impl Context {
    /// The lattice value of each variable, by number.
    pub closed spec fn values(self) -> Seq<LatticeV> {
        self.values@.map_values(|l: Lattice| l@)
    }

    /// The executable control-flow edges found so far.
    pub closed spec fn edge_set(self) -> Set<(Label, Label)> {
        self.edges@
    }

    /// The blocks found executable so far.
    pub closed spec fn visited_set(self) -> Set<Label> {
        self.visited@
    }

    /// The edges still to visit.
    pub closed spec fn flow_queue(self) -> Seq<(Label, Label)> {
        self.flow@
    }

    /// The variables still to visit.
    pub closed spec fn ssa_queue(self) -> Seq<Var> {
        self.ssa@
    }

    /// A context for `vars` variables, all at `Top`, with nothing visited
    /// and nothing to do.
    pub fn new(vars: usize) -> (c: Self)
        ensures
            c.values() == Seq::new(vars as nat, |i: int| LatticeV::Top),
            c.edge_set() == Set::<(Label, Label)>::empty(),
            c.visited_set() == Set::<Label>::empty(),
            c.flow_queue() == Seq::<(Label, Label)>::empty(),
            c.ssa_queue() == Seq::<Var>::empty(),
    {
        let mut values: Vec<Lattice> = Vec::new();
        let mut i: usize = 0;
        while i < vars
            invariant
                i <= vars,
                values@.len() == i,
                forall|k: int| 0 <= k < i ==> (#[trigger] values@[k])@ == LatticeV::Top,
            decreases vars - i,
        {
            values.push(Lattice::Top);
            i = i + 1;
        }
        let c = Context {
            values,
            edges: HashSet::new(),
            visited: HashSet::new(),
            flow: VecDeque::new(),
            ssa: VecDeque::new(),
        };
        assert(c.values() =~= Seq::new(vars as nat, |i: int| LatticeV::Top));
        c
    }

    /// The value of `var`; `Top` for a variable the context does not hold.
    pub fn get(&self, var: Var) -> (r: &Lattice)
        ensures
            r@ == (if var < self.values().len() {
                self.values()[var as int]
            } else {
                LatticeV::Top
            }),
    {
        if var < self.values.len() {
            &self.values[var]
        } else {
            &Lattice::Top
        }
    }

    /// Sets the value of `var`, and queues `var` when the value changed.
    pub fn update(&mut self, var: Var, new: Lattice)
        requires
            var < old(self).values().len(),
        ensures
            final(self).values() == old(self).values().update(var as int, new@),
            final(self).ssa_queue() == (if old(self).values()[var as int] == new@ {
                old(self).ssa_queue()
            } else {
                old(self).ssa_queue().push(var)
            }),
            final(self).edge_set() == old(self).edge_set(),
            final(self).visited_set() == old(self).visited_set(),
            final(self).flow_queue() == old(self).flow_queue(),
    {
        if !self.values[var].same(&new) {
            self.values.set(var, new);
            self.ssa.push_back(var);
        }
        assert(self.values() =~= old(self).values().update(var as int, new@));
    }
}

} // verus!
