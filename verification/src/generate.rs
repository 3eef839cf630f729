use vstd::prelude::*;
use crate::bytecode::{Bytecode, BytecodeV, Callable, Elysia, Group, Index, Reg};
use crate::ir::{slot_of, BinOp, Const, ConstV, Fragment, Function, Instruction, Label, Pointer, Terminator, Var};
use crate::register::{allocate, apart, crowded, Intervals};
use crate::codegen::{copies_clash, copies_for, prepared, succs_of};
use crate::copies::below;
use crate::ir::label_of;
use crate::optimize::Demiurge;

verus! {

/// The number of positions the fragment `rpo[k]` takes in the linear code:
/// its instructions, the copies at its end and its terminator.
pub open spec fn block_size(f: Function, rpo: Seq<Label>, cs: Seq<Vec<crate::copies::Copy>>, k: int) -> int {
    f.frag(rpo[k])->0.instructions@.len() + cs[slot_of(rpo[k])]@.len() + 1int
}

/// The position where the fragment `rpo[k]` starts in the linear code.
pub open spec fn anchor(f: Function, rpo: Seq<Label>, cs: Seq<Vec<crate::copies::Copy>>, k: int) -> int
    decreases k,
{
    if k <= 0 {
        0
    } else {
        anchor(f, rpo, cs, k - 1) + block_size(f, rpo, cs, k - 1)
    }
}

/// `v` is used at or after position `p`.
pub open spec fn covered(iv: Intervals, v: Var, p: int) -> bool {
    &&& v < iv.uses@.len()
    &&& iv.uses@[v as int] is Some
    &&& iv.uses@[v as int]->0 >= p
}

/// `v` is defined at or before position `p`.
pub open spec fn defined(iv: Intervals, v: Var, p: int) -> bool {
    &&& v < iv.defs@.len()
    &&& iv.defs@[v as int] is Some
    &&& iv.defs@[v as int]->0 <= p
}

/// The live ranges cover the code of the fragments up to `rpo[k]`, and the
/// instructions before `j` in it: every variable is defined at or before
/// where it is defined, and used at or after where it is read.
pub open spec fn ranges_cover(iv: Intervals, f: Function, rpo: Seq<Label>, cs: Seq<Vec<crate::copies::Copy>>, k: int) -> bool {
    forall|b: int| 0 <= b < k ==> #[trigger] block_covered(iv, f, rpo, cs, b)
}

/// The live ranges cover the code of the fragment `rpo[b]`.
pub open spec fn block_covered(iv: Intervals, f: Function, rpo: Seq<Label>, cs: Seq<Vec<crate::copies::Copy>>, b: int) -> bool {
    let x = f.frag(rpo[b])->0;
    let a = anchor(f, rpo, cs, b);
    let c = cs[slot_of(rpo[b])]@;
    &&& forall|j: int|
        0 <= j < x.instructions@.len() ==> defined(iv, (#[trigger] x.instructions@[j]).def(), a + j) && forall|r: int|
            0 <= r < x.instructions@[j].reads().len() ==> covered(iv, #[trigger] x.instructions@[j].reads()[r], a + j)
    &&& forall|j: int|
        0 <= j < c.len() ==> defined(iv, (#[trigger] c[j]).0, a + x.instructions@.len() + j) && covered(
            iv,
            c[j].1,
            a + x.instructions@.len() + j,
        )
    &&& forall|r: int|
        0 <= r < x.terminator->0.reads().len() ==> covered(
            iv,
            #[trigger] x.terminator->0.reads()[r],
            a + x.instructions@.len() + c.len(),
        )
}

/// Records a definition of `v` at `p`, unless one came before.
fn define(iv: &mut Intervals, v: Var, p: usize)
    requires
        v < old(iv).defs@.len(),
        forall|w: int| 0 <= w < old(iv).defs@.len() && #[trigger] old(iv).defs@[w] is Some ==> old(iv).defs@[w]->0 <= p,
    ensures
        final(iv).uses == old(iv).uses,
        final(iv).defs@.len() == old(iv).defs@.len(),
        defined(*final(iv), v, p as int),
        forall|w: Var, q: int| defined(*old(iv), w, q) ==> #[trigger] defined(*final(iv), w, q),
        forall|w: Var, q: int| covered(*old(iv), w, q) ==> #[trigger] covered(*final(iv), w, q),
        forall|w: int| 0 <= w < final(iv).defs@.len() && #[trigger] final(iv).defs@[w] is Some ==> final(iv).defs@[w]->0 <= p,
        grows(*old(iv), *final(iv)),
{
    if iv.defs[v].is_none() {
        iv.defs.set(v, Some(p));
    }
}

/// Records a use of `v` at `p`: its range reaches at least `p`.
fn using(iv: &mut Intervals, v: Var, p: usize)
    requires
        v < old(iv).uses@.len(),
    ensures
        final(iv).defs == old(iv).defs,
        final(iv).uses@.len() == old(iv).uses@.len(),
        covered(*final(iv), v, p as int),
        forall|w: Var, q: int| covered(*old(iv), w, q) ==> #[trigger] covered(*final(iv), w, q),
        forall|w: Var, q: int| defined(*old(iv), w, q) ==> #[trigger] defined(*final(iv), w, q),
        grows(*old(iv), *final(iv)),
{
    let last = match iv.uses[v] {
        Some(u) => if u > p {
            u
        } else {
            p
        },
        None => p,
    };
    iv.uses.set(v, Some(last));
}


/// Defined and covered only grow from `a` to `b`.
pub open spec fn grows(a: Intervals, b: Intervals) -> bool {
    &&& b.defs@.len() == a.defs@.len()
    &&& b.uses@.len() == a.uses@.len()
    &&& forall|w: Var, q: int| defined(a, w, q) ==> #[trigger] defined(b, w, q)
    &&& forall|w: Var, q: int| covered(a, w, q) ==> #[trigger] covered(b, w, q)
}

proof fn lemma_cover_mono(a: Intervals, b: Intervals, f: Function, rpo: Seq<Label>, cs: Seq<Vec<crate::copies::Copy>>, k: int)
    requires
        grows(a, b),
        ranges_cover(a, f, rpo, cs, k),
    ensures
        ranges_cover(b, f, rpo, cs, k),
{
    assert forall|x: int| 0 <= x < k implies #[trigger] block_covered(b, f, rpo, cs, x) by {
        assert(block_covered(a, f, rpo, cs, x));
        let fr = f.frag(rpo[x])->0;
        let an = anchor(f, rpo, cs, x);
        let c = cs[slot_of(rpo[x])]@;
        assert forall|j: int| 0 <= j < fr.instructions@.len() implies defined(b, (#[trigger] fr.instructions@[j]).def(), an + j) && forall|r: int|
            0 <= r < fr.instructions@[j].reads().len() ==> covered(b, #[trigger] fr.instructions@[j].reads()[r], an + j) by {
            assert forall|r: int| 0 <= r < fr.instructions@[j].reads().len() implies covered(b, #[trigger] fr.instructions@[j].reads()[r], an + j) by {
                assert(covered(a, fr.instructions@[j].reads()[r], an + j));
            }
        }
        assert forall|j: int| 0 <= j < c.len() implies defined(b, (#[trigger] c[j]).0, an + fr.instructions@.len() + j) && covered(
            b,
            c[j].1,
            an + fr.instructions@.len() + j,
        ) by {
            assert(covered(a, c[j].1, an + fr.instructions@.len() + j));
        }
        assert forall|r: int| 0 <= r < fr.terminator->0.reads().len() implies covered(
            b,
            #[trigger] fr.terminator->0.reads()[r],
            an + fr.instructions@.len() + c.len(),
        ) by {
            assert(covered(a, fr.terminator->0.reads()[r], an + fr.instructions@.len() + c.len()));
        }
    }
}

fn none_vec(n: usize) -> (v: Vec<Option<usize>>)
    ensures
        v@.len() == n,
        forall|i: int| 0 <= i < n ==> v@[i] is None,
{
    let mut v: Vec<Option<usize>> = Vec::new();
    let mut i: usize = 0;
    while i < n
        invariant
            i <= n,
            v@.len() == i,
            forall|k: int| 0 <= k < i ==> v@[k] is None,
        decreases n - i,
    {
        v.push(None);
        i = i + 1;
    }
    v
}

impl Function {
    /// The live range of every variable over the code laid out in the order
    /// `rpo`, each fragment followed by its copies and its terminator: where
    /// it is first defined and where it is last used. A range that reaches
    /// into a loop from before it lasts to the jump that closes the loop.
    /// Fails when the code has more positions than a `usize` counts.
    fn precompute(&self, rpo: &Vec<Label>, copies: &Vec<Vec<crate::copies::Copy>>) -> (r: Option<Intervals>)
        requires
            self.wf(),
            forall|k: int| 0 <= k < rpo@.len() ==> self.has(#[trigger] rpo@[k]),
            copies@.len() == self.blocks@.len(),
            forall|p: int| 0 <= p < copies@.len() ==> crate::copies::below((#[trigger] copies@[p])@, self.vars as int),
        ensures
            r matches Some(iv) ==> {
                &&& iv.defs@.len() == self.vars
                &&& iv.uses@.len() == self.vars
                &&& ranges_cover(iv, *self, rpo@, copies@, rpo@.len() as int)
            },
            r is None <==> anchor(*self, rpo@, copies@, rpo@.len() as int) > usize::MAX,
    {
        let ghost total = anchor(*self, rpo@, copies@, rpo@.len() as int);
        let mut iv = Intervals { defs: none_vec(self.vars), uses: none_vec(self.vars) };
        let mut anchors: Vec<Option<usize>> = none_vec(self.blocks.len());
        let mut loops: Vec<(usize, usize)> = Vec::new();
        let mut index: usize = 0;
        let mut k: usize = 0;
        while k < rpo.len()
            invariant
                self.wf(),
                forall|q: int| 0 <= q < rpo@.len() ==> self.has(#[trigger] rpo@[q]),
                copies@.len() == self.blocks@.len(),
                forall|p: int| 0 <= p < copies@.len() ==> crate::copies::below((#[trigger] copies@[p])@, self.vars as int),
                k <= rpo@.len(),
                anchors@.len() == self.blocks@.len(),
                iv.defs@.len() == self.vars,
                iv.uses@.len() == self.vars,
                index == anchor(*self, rpo@, copies@, k as int),
                total == anchor(*self, rpo@, copies@, rpo@.len() as int),
                forall|w: int| 0 <= w < iv.defs@.len() && #[trigger] iv.defs@[w] is Some ==> iv.defs@[w]->0 <= index,
                ranges_cover(iv, *self, rpo@, copies@, k as int),
            decreases rpo@.len() - k,
        {
            let label = rpo[k];
            let s = match label {
                Label::Entry => 0,
                Label::Exit => 1,
                Label::Id(i) => i + 2,
            };
            anchors.set(s, Some(index));
            let x = self.get(label).unwrap();
            assert(self.frag_ok(*x)) by {
                assert(self.blocks@[slot_of(label)] is Some);
            }
            let ghost iv0 = iv;
            let ghost a = index as int;
            proof {
                assert(self.frag(rpo@[k as int]) == Some(*x));
                lemma_anchor_mono(*self, rpo@, copies@, k as int + 1, rpo@.len() as int);
                assert(a + x.instructions@.len() + copies@[s as int]@.len() + 1 <= total);
            }
            let mut j: usize = 0;
            while j < x.instructions.len()
                invariant
                    self.frag_ok(*x),
                    0 <= s < copies@.len(),
                    total == anchor(*self, rpo@, copies@, rpo@.len() as int),
                    a + x.instructions@.len() + copies@[s as int]@.len() + 1 <= total,
                    j <= x.instructions@.len(),
                    index == a + j,
                    grows(iv0, iv),
                    iv.defs@.len() == self.vars,
                    iv.uses@.len() == self.vars,
                    forall|w: int| 0 <= w < iv.defs@.len() && #[trigger] iv.defs@[w] is Some ==> iv.defs@[w]->0 <= index,
                    forall|q: int|
                        0 <= q < j ==> defined(iv, (#[trigger] x.instructions@[q]).def(), a + q) && forall|r: int|
                            0 <= r < x.instructions@[q].reads().len() ==> covered(iv, #[trigger] x.instructions@[q].reads()[r], a + q),
                decreases x.instructions@.len() - j,
            {
                let ins = &x.instructions[j];
                let ghost ivb = iv;
                define(&mut iv, ins.dst(), index);
                let ops = ins.operands();
                let mut o: usize = 0;
                while o < ops.len()
                    invariant
                        self.frag_ok(*x),
                        j < x.instructions@.len(),
                        *ins == x.instructions@[j as int],
                        ops@ == ins.reads(),
                        o <= ops@.len(),
                        grows(ivb, iv),
                        iv.defs@.len() == self.vars,
                        iv.uses@.len() == self.vars,
                        defined(iv, ins.def(), index as int),
                        forall|w: int| 0 <= w < iv.defs@.len() && #[trigger] iv.defs@[w] is Some ==> iv.defs@[w]->0 <= index,
                        forall|r: int| 0 <= r < o ==> covered(iv, #[trigger] ops@[r], index as int),
                    decreases ops@.len() - o,
                {
                    assert(ops@[o as int] < self.vars);
                    using(&mut iv, ops[o], index);
                    o = o + 1;
                }
                proof {
                    assert forall|q: int|
                        0 <= q < j + 1 implies defined(iv, (#[trigger] x.instructions@[q]).def(), a + q) && forall|r: int|
                            0 <= r < x.instructions@[q].reads().len() ==> covered(iv, #[trigger] x.instructions@[q].reads()[r], a + q) by {
                        if q == j {
                            assert forall|r: int| 0 <= r < x.instructions@[q].reads().len() implies covered(iv, #[trigger] x.instructions@[q].reads()[r], a + q) by {
                                assert(ops@[r] == x.instructions@[q].reads()[r]);
                            }
                        } else {
                            assert(defined(ivb, x.instructions@[q].def(), a + q));
                            assert forall|r: int| 0 <= r < x.instructions@[q].reads().len() implies covered(iv, #[trigger] x.instructions@[q].reads()[r], a + q) by {
                                assert(covered(ivb, x.instructions@[q].reads()[r], a + q));
                            }
                        }
                    }
                }
                index = match index.checked_add(1) {
                    Some(i) => i,
                    None => {
                        return None;
                    },
                };
                j = j + 1;
            }
            let cs = &copies[s];
            assert(crate::copies::below(cs@, self.vars as int));
            let ghost b2 = a + x.instructions@.len();
            let mut j: usize = 0;
            while j < cs.len()
                invariant
                    self.frag_ok(*x),
                    total == anchor(*self, rpo@, copies@, rpo@.len() as int),
                    b2 + cs@.len() + 1 <= total,
                    crate::copies::below(cs@, self.vars as int),
                    j <= cs@.len(),
                    index == b2 + j,
                    b2 == a + x.instructions@.len(),
                    grows(iv0, iv),
                    iv.defs@.len() == self.vars,
                    iv.uses@.len() == self.vars,
                    forall|w: int| 0 <= w < iv.defs@.len() && #[trigger] iv.defs@[w] is Some ==> iv.defs@[w]->0 <= index,
                    forall|q: int|
                        0 <= q < x.instructions@.len() ==> defined(iv, (#[trigger] x.instructions@[q]).def(), a + q) && forall|r: int|
                            0 <= r < x.instructions@[q].reads().len() ==> covered(iv, #[trigger] x.instructions@[q].reads()[r], a + q),
                    forall|q: int| 0 <= q < j ==> defined(iv, (#[trigger] cs@[q]).0, b2 + q) && covered(iv, cs@[q].1, b2 + q),
                decreases cs@.len() - j,
            {
                let ghost ivb = iv;
                define(&mut iv, cs[j].0, index);
                using(&mut iv, cs[j].1, index);
                proof {
                    assert forall|q: int|
                        0 <= q < x.instructions@.len() implies defined(iv, (#[trigger] x.instructions@[q]).def(), a + q) && forall|r: int|
                            0 <= r < x.instructions@[q].reads().len() ==> covered(iv, #[trigger] x.instructions@[q].reads()[r], a + q) by {
                        assert(defined(ivb, x.instructions@[q].def(), a + q));
                        assert forall|r: int| 0 <= r < x.instructions@[q].reads().len() implies covered(iv, #[trigger] x.instructions@[q].reads()[r], a + q) by {
                            assert(covered(ivb, x.instructions@[q].reads()[r], a + q));
                        }
                    }
                    assert forall|q: int| 0 <= q < j + 1 implies defined(iv, (#[trigger] cs@[q]).0, b2 + q) && covered(iv, cs@[q].1, b2 + q) by {
                        if q < j {
                            assert(defined(ivb, cs@[q].0, b2 + q));
                            assert(covered(ivb, cs@[q].1, b2 + q));
                        }
                    }
                }
                index = match index.checked_add(1) {
                    Some(i) => i,
                    None => {
                        return None;
                    },
                };
                j = j + 1;
            }
            let term = x.terminator.unwrap();
            let ghost ivb = iv;
            match term {
                Terminator::Branch(c, y, z) => {
                    assert(term.reads()[0] == c);
                    using(&mut iv, c, index);
                },
                Terminator::Return(c) => {
                    assert(term.reads()[0] == c);
                    using(&mut iv, c, index);
                },
                Terminator::Jump(_) => {},
            }
            let mut t: usize = 0;
            let targets: Vec<Label> = match term {
                Terminator::Branch(_, y, z) => {
                    let mut v: Vec<Label> = Vec::new();
                    v.push(y);
                    v.push(z);
                    v
                },
                Terminator::Jump(y) => {
                    let mut v: Vec<Label> = Vec::new();
                    v.push(y);
                    v
                },
                Terminator::Return(_) => Vec::new(),
            };
            while t < targets.len()
                invariant
                    anchors@.len() == self.blocks@.len(),
                    t <= targets@.len(),
                decreases targets@.len() - t,
            {
                let ts = match targets[t] {
                    Label::Entry => 0usize,
                    Label::Exit => 1usize,
                    Label::Id(i) => if i < anchors.len() && anchors.len() - i > 2 {
                        i + 2
                    } else {
                        anchors.len()
                    },
                };
                if ts < anchors.len() {
                    if let Some(start) = anchors[ts] {
                        loops.push((start, index));
                    }
                }
                t = t + 1;
            }
            proof {
                assert(block_covered(iv, *self, rpo@, copies@, k as int)) by {
                    assert(self.frag(rpo@[k as int]) == Some(*x));
                    assert(cs@ == copies@[slot_of(rpo@[k as int])]@);
                    assert forall|q: int|
                        0 <= q < x.instructions@.len() implies defined(iv, (#[trigger] x.instructions@[q]).def(), a + q) && forall|r: int|
                            0 <= r < x.instructions@[q].reads().len() ==> covered(iv, #[trigger] x.instructions@[q].reads()[r], a + q) by {
                        assert(defined(ivb, x.instructions@[q].def(), a + q));
                        assert forall|r: int| 0 <= r < x.instructions@[q].reads().len() implies covered(iv, #[trigger] x.instructions@[q].reads()[r], a + q) by {
                            assert(covered(ivb, x.instructions@[q].reads()[r], a + q));
                        }
                    }
                    assert forall|q: int| 0 <= q < cs@.len() implies defined(iv, (#[trigger] cs@[q]).0, b2 + q) && covered(iv, cs@[q].1, b2 + q) by {
                        assert(defined(ivb, cs@[q].0, b2 + q));
                        assert(covered(ivb, cs@[q].1, b2 + q));
                    }
                }
                lemma_cover_mono(iv0, iv, *self, rpo@, copies@, k as int);
                assert forall|b: int| 0 <= b < k + 1 implies #[trigger] block_covered(iv, *self, rpo@, copies@, b) by {
                    if b < k {
                        assert(ranges_cover(iv, *self, rpo@, copies@, k as int));
                    }
                }
            }
            index = match index.checked_add(1) {
                Some(i) => i,
                None => {
                    return None;
                },
            };
            k = k + 1;
        }
        assert(total <= usize::MAX);
        let mut l: usize = 0;
        while l < loops.len()
            invariant
                iv.defs@.len() == self.vars,
                iv.uses@.len() == self.vars,
                ranges_cover(iv, *self, rpo@, copies@, rpo@.len() as int),
                l <= loops@.len(),
            decreases loops@.len() - l,
        {
            let (start, end) = loops[l];
            let mut v: usize = 0;
            while v < iv.uses.len()
                invariant
                    iv.defs@.len() == self.vars,
                    iv.uses@.len() == self.vars,
                    ranges_cover(iv, *self, rpo@, copies@, rpo@.len() as int),
                    v <= iv.uses@.len(),
                decreases iv.uses@.len() - v,
            {
                if let (Some(d), Some(last)) = (iv.defs[v], iv.uses[v]) {
                    if d < start && last >= start && end > last {
                        let ghost ivb = iv;
                        iv.uses.set(v, Some(end));
                        proof {
                            assert(grows(ivb, iv));
                            lemma_cover_mono(ivb, iv, *self, rpo@, copies@, rpo@.len() as int);
                        }
                    }
                }
                v = v + 1;
            }
            l = l + 1;
        }
        Some(iv)
    }
}


/// The register of a variable.
pub open spec fn reg_of(regs: Seq<Reg>, v: Var) -> Reg {
    regs[v as int]
}

/// The registers of a list of variables.
pub open spec fn regs_of(regs: Seq<Reg>, vs: Seq<Var>) -> Seq<Reg> {
    vs.map_values(|v: Var| reg_of(regs, v))
}

/// `b` is the instruction `i` with its variables replaced by their
/// registers; the indices of constants, groups and functions are what
/// `index` gave for them.
pub open spec fn lowered(i: Instruction, regs: Seq<Reg>, b: BytecodeV) -> bool {
    match i {
        Instruction::Arg(d, x) => b == BytecodeV::Arg(reg_of(regs, d), x as Index),
        Instruction::Field(d, s, id) => b == BytecodeV::Field(reg_of(regs, d), reg_of(regs, s), id),
        Instruction::Unpack(d, s, x) => b == BytecodeV::Unpack(reg_of(regs, d), reg_of(regs, s), x as Index),
        Instruction::Pointer(d, p, _) => b matches BytecodeV::Pointer(r, q, _) && r == reg_of(regs, d) && q == p,
        Instruction::Load(d, _) => b matches BytecodeV::Load(r, _) && r == reg_of(regs, d),
        Instruction::Binary(d, l, o, r) => b == BytecodeV::Binary(reg_of(regs, d), reg_of(regs, l), o, reg_of(regs, r)),
        Instruction::Unary(d, o, s) => b == BytecodeV::Unary(reg_of(regs, d), o, reg_of(regs, s)),
        Instruction::Call(d, s, a) => b == BytecodeV::Call(reg_of(regs, d), reg_of(regs, s), regs_of(regs, a@)),
        Instruction::List(d, a) => b == BytecodeV::List(reg_of(regs, d), regs_of(regs, a@)),
        Instruction::Tuple(d, a) => b == BytecodeV::Tuple(reg_of(regs, d), regs_of(regs, a@)),
        Instruction::Index(d, s, x) => b == BytecodeV::Index(reg_of(regs, d), reg_of(regs, s), reg_of(regs, x)),
        Instruction::Method(d, s, id, a) => b == BytecodeV::Method(reg_of(regs, d), reg_of(regs, s), id, regs_of(regs, a@)),
    }
}

/// The pool of constants: each value once, at the index it was first asked.
pub struct Pooling {
    pub pool: Vec<Const>,
}

/// The index the pool gives a constant with the value `c`: that of the
/// first one with it, or the next one.
pub open spec fn pool_index(pool: Seq<Const>, c: ConstV) -> int {
    if exists|k: int| 0 <= k < pool.len() && #[trigger] pool[k]@ == c {
        choose|k: int| 0 <= k < pool.len() && pool[k]@ == c && forall|j: int| 0 <= j < k ==> #[trigger] pool[j]@ != c
    } else {
        pool.len() as int
    }
}

/// No two constants of the pool have the same value.
pub open spec fn pooled_once(pool: Seq<Const>) -> bool {
    forall|a: int, b: int| 0 <= a < pool.len() && 0 <= b < pool.len() && a != b ==> (#[trigger] pool[a])@ != (#[trigger] pool[b])@
}

impl Pooling {
    /// The index of a constant with the value of `key`, added at the end
    /// when the pool has none.
    pub fn index(&mut self, key: &Const) -> (i: usize)
        ensures
            i == pool_index(old(self).pool@, key@),
            final(self).pool@.len() == if i < old(self).pool@.len() {
                old(self).pool@.len()
            } else {
                old(self).pool@.len() + 1
            },
            pooled_once(old(self).pool@) ==> pooled_once(final(self).pool@),
            i < final(self).pool@.len(),
            final(self).pool@[i as int]@ == key@,
            final(self).pool@.len() <= old(self).pool@.len() + 1,
            final(self).pool@.len() >= old(self).pool@.len(),
            forall|k: int| 0 <= k < old(self).pool@.len() ==> #[trigger] final(self).pool@[k] == old(self).pool@[k],
            i < old(self).pool@.len() ==> forall|k: int| 0 <= k < i ==> (#[trigger] old(self).pool@[k])@ != key@,
            i == old(self).pool@.len() ==> forall|k: int| 0 <= k < old(self).pool@.len() ==> (#[trigger] old(self).pool@[k])@ != key@,
    {
        let mut k: usize = 0;
        while k < self.pool.len()
            invariant
                k <= self.pool@.len(),
                self.pool == old(self).pool,
                forall|j: int| 0 <= j < k ==> (#[trigger] self.pool@[j])@ != key@,
            decreases self.pool@.len() - k,
        {
            if self.pool[k].same(key) {
                proof {
                    let c = choose|c: int|
                        0 <= c < self.pool@.len() && self.pool@[c]@ == key@ && forall|j: int|
                            0 <= j < c ==> #[trigger] self.pool@[j]@ != key@;
                    assert(self.pool@[k as int]@ == key@);
                    if c < k {
                        assert(self.pool@[c]@ != key@);
                    } else if c > k {
                        assert(self.pool@[k as int]@ != key@);
                    }
                }
                return k;
            }
            k = k + 1;
        }
        self.pool.push(key.dup());
        k
    }
}

/// A table of items to compile on demand: each key gets an index the
/// first time it is asked, and its item is queued to be compiled.
pub struct Worker<T> {
    pub indices: Vec<(usize, usize)>,
    pub source: Vec<(usize, T)>,
    pub worklist: Vec<(usize, T)>,
}

/// `b` is `a` after some keys were given indices: items only move from
/// the source to the worklist.
pub open spec fn keeps<T>(a: Worker<T>, b: Worker<T>) -> bool {
    &&& b.indices@.len() >= a.indices@.len()
    &&& forall|k: int| 0 <= k < a.indices@.len() ==> #[trigger] b.indices@[k] == a.indices@[k]
    &&& b.source@.len() + b.worklist@.len() == a.source@.len() + a.worklist@.len()
    &&& forall|k: int| 0 <= k < b.source@.len() ==> a.source@.contains(#[trigger] b.source@[k])
    &&& forall|k: int|
        0 <= k < b.worklist@.len() ==> a.worklist@.contains(#[trigger] b.worklist@[k]) || exists|j: int|
            0 <= j < a.source@.len() && #[trigger] a.source@[j].1 == b.worklist@[k].1
}

/// Each key of `w` got the index of its place: the indices are handed out
/// in turn from zero.
pub open spec fn numbered<T>(w: Worker<T>) -> bool {
    forall|k: int| 0 <= k < w.indices@.len() ==> #[trigger] w.indices@[k].1 == k
}

/// Every queued item carries an index `w` has handed out.
pub open spec fn queued<T>(w: Worker<T>) -> bool {
    forall|k: int| 0 <= k < w.worklist@.len() ==> #[trigger] w.worklist@[k].0 < w.indices@.len()
}

/// An item with the index `q` waits in the worklist of `w`.
pub open spec fn queued_at<T>(w: Worker<T>, q: int) -> bool {
    exists|k: int| 0 <= k < w.worklist@.len() && #[trigger] w.worklist@[k].0 == q
}

/// No key of `w` got two indices.
pub open spec fn keys_apart<T>(w: Worker<T>) -> bool {
    forall|a: int, b: int| 0 <= a < b < w.indices@.len() ==> #[trigger] w.indices@[a].0 != #[trigger] w.indices@[b].0
}

/// From `a` to `b` the worklist only grew, each index handed out since
/// waits in it, each item queued since is the item `a` held for the key
/// of its index, and the numbering, the queueing and the distinct keys
/// were kept.
pub open spec fn hands_out<T>(a: Worker<T>, b: Worker<T>) -> bool {
    &&& numbered(a) ==> numbered(b)
    &&& queued(a) ==> queued(b)
    &&& keys_apart(a) ==> keys_apart(b)
    &&& b.worklist@.len() >= a.worklist@.len()
    &&& forall|k: int| 0 <= k < a.worklist@.len() ==> #[trigger] b.worklist@[k] == a.worklist@[k]
    &&& forall|q: int| a.indices@.len() <= q < b.indices@.len() ==> #[trigger] queued_at(b, q)
    &&& forall|k: int|
        a.worklist@.len() <= k < b.worklist@.len() ==> #[trigger] b.worklist@[k].0 < b.indices@.len()
            && a.source@.contains((b.indices@[b.worklist@[k].0 as int].0, b.worklist@[k].1))
}

proof fn lemma_hands_out_trans<T>(a: Worker<T>, b: Worker<T>, c: Worker<T>)
    requires
        keeps(a, b),
        keeps(b, c),
        hands_out(a, b),
        hands_out(b, c),
    ensures
        hands_out(a, c),
{
    assert forall|k: int| a.worklist@.len() <= k < c.worklist@.len() implies #[trigger] c.worklist@[k].0 < c.indices@.len()
        && a.source@.contains((c.indices@[c.worklist@[k].0 as int].0, c.worklist@[k].1)) by {
        if k < b.worklist@.len() {
            assert(c.worklist@[k] == b.worklist@[k]);
            assert(c.indices@[b.worklist@[k].0 as int] == b.indices@[b.worklist@[k].0 as int]);
        } else {
            let x = (c.indices@[c.worklist@[k].0 as int].0, c.worklist@[k].1);
            assert(b.source@.contains(x));
            let j = choose|j: int| 0 <= j < b.source@.len() && b.source@[j] == x;
            assert(a.source@.contains(b.source@[j]));
        }
    }
    assert forall|q: int| a.indices@.len() <= q < c.indices@.len() implies #[trigger] queued_at(c, q) by {
        if q < b.indices@.len() {
            assert(queued_at(b, q));
            let k = choose|k: int| 0 <= k < b.worklist@.len() && #[trigger] b.worklist@[k].0 == q;
            assert(c.worklist@[k] == b.worklist@[k]);
        }
    }
    assert forall|k: int| 0 <= k < a.worklist@.len() implies #[trigger] c.worklist@[k] == a.worklist@[k] by {
        assert(c.worklist@[k] == b.worklist@[k]);
    }
}

/// What compiling a function keeps of the state: the pool only grows, and
/// the workers only move items.
pub open spec fn progress(a: Generation, b: Generation) -> bool {
    &&& b.consts.pool@.len() >= a.consts.pool@.len()
    &&& forall|k: int| 0 <= k < a.consts.pool@.len() ==> #[trigger] b.consts.pool@[k] == a.consts.pool@[k]
    &&& keeps(a.groups, b.groups)
    &&& keeps(a.functions, b.functions)
    &&& hands_out(a.groups, b.groups)
    &&& hands_out(a.functions, b.functions)
}

proof fn lemma_keeps_refl<T>(a: Worker<T>)
    ensures
        keeps(a, a),
{
    assert forall|k: int| 0 <= k < a.source@.len() implies a.source@.contains(#[trigger] a.source@[k]) by {}
    assert forall|k: int| 0 <= k < a.worklist@.len() implies a.worklist@.contains(#[trigger] a.worklist@[k]) by {}
}

proof fn lemma_keeps_trans<T>(a: Worker<T>, b: Worker<T>, c: Worker<T>)
    requires
        keeps(a, b),
        keeps(b, c),
    ensures
        keeps(a, c),
{
    assert forall|k: int| 0 <= k < c.source@.len() implies a.source@.contains(#[trigger] c.source@[k]) by {
        assert(b.source@.contains(c.source@[k]));
        let j = choose|j: int| 0 <= j < b.source@.len() && b.source@[j] == c.source@[k];
        assert(a.source@.contains(b.source@[j]));
    }
    assert forall|k: int|
        0 <= k < c.worklist@.len() implies a.worklist@.contains(#[trigger] c.worklist@[k]) || exists|j: int|
            0 <= j < a.source@.len() && #[trigger] a.source@[j].1 == c.worklist@[k].1 by {
        if b.worklist@.contains(c.worklist@[k]) {
            let j = choose|j: int| 0 <= j < b.worklist@.len() && b.worklist@[j] == c.worklist@[k];
            assert(a.worklist@.contains(b.worklist@[j]) || exists|i: int|
                0 <= i < a.source@.len() && #[trigger] a.source@[i].1 == b.worklist@[j].1);
        } else {
            let j = choose|j: int| 0 <= j < b.source@.len() && #[trigger] b.source@[j].1 == c.worklist@[k].1;
            assert(a.source@.contains(b.source@[j]));
            let i = choose|i: int| 0 <= i < a.source@.len() && a.source@[i] == b.source@[j];
            assert(a.source@[i].1 == c.worklist@[k].1);
        }
    }
}

proof fn lemma_progress_refl(a: Generation)
    ensures
        progress(a, a),
{
    lemma_keeps_refl(a.groups);
    lemma_keeps_refl(a.functions);
}

proof fn lemma_progress_trans(a: Generation, b: Generation, c: Generation)
    requires
        progress(a, b),
        progress(b, c),
    ensures
        progress(a, c),
{
    lemma_keeps_trans(a.groups, b.groups, c.groups);
    lemma_keeps_trans(a.functions, b.functions, c.functions);
    lemma_hands_out_trans(a.groups, b.groups, c.groups);
    lemma_hands_out_trans(a.functions, b.functions, c.functions);
}

/// Whether `w` has an index for `key` or an item to give it one.
pub open spec fn knows<T>(w: Worker<T>, key: usize) -> bool {
    ||| exists|k: int| 0 <= k < w.indices@.len() && #[trigger] w.indices@[k].0 == key
    ||| exists|j: int| 0 <= j < w.source@.len() && #[trigger] w.source@[j].0 == key
}

/// The first place where `key` has an index in `w`.
pub open spec fn first_index<T>(w: Worker<T>, key: usize) -> int {
    choose|k: int|
        0 <= k < w.indices@.len() && w.indices@[k].0 == key && forall|j: int| 0 <= j < k ==> #[trigger] w.indices@[j].0 != key
}

/// Compiling `i` fails whatever was compiled before: an index it holds does
/// not fit an `Index`, or it points to a group or a function `ctx` does not
/// know.
pub open spec fn refused_ins(i: Instruction, ctx: Generation) -> bool {
    match i {
        Instruction::Arg(_, x) => x > u32::MAX,
        Instruction::Unpack(_, _, x) => x > u32::MAX,
        Instruction::Pointer(_, p, x) => match p {
            Pointer::Function => !knows(ctx.functions, x),
            Pointer::Group => !knows(ctx.groups, x),
            Pointer::Rust => x > u32::MAX,
        },
        _ => false,
    }
}

/// More constants, or a later group or function, than an `Index` counts.
pub open spec fn overflowed(ctx: Generation) -> bool {
    ||| ctx.consts.pool@.len() > u32::MAX + 1
    ||| exists|k: int| 0 <= k < ctx.functions.indices@.len() && #[trigger] ctx.functions.indices@[k].1 > u32::MAX
    ||| exists|k: int| 0 <= k < ctx.groups.indices@.len() && #[trigger] ctx.groups.indices@[k].1 > u32::MAX
}

/// The index `w` gives `key`: the one it got first, or the next one.
pub open spec fn index_for<T>(w: Worker<T>, key: usize) -> int {
    if exists|k: int| 0 <= k < w.indices@.len() && #[trigger] w.indices@[k].0 == key {
        w.indices@[first_index(w, key)].1 as int
    } else {
        w.indices@.len() as int
    }
}

impl<T> Worker<T> {
    /// The index of `key`: the one it got before, or the next one, with its
    /// item taken from the source and queued. `None`, changing nothing,
    /// when the source has no item for a new key.
    pub fn get(&mut self, key: usize) -> (r: Option<usize>)
        ensures
            r is Some <==> knows(*old(self), key),
            r matches Some(i) ==> i == index_for(*old(self), key),
            r is None ==> *final(self) == *old(self),
            forall|x: usize| #[trigger] knows(*final(self), x) == knows(*old(self), x),
            keeps(*old(self), *final(self)),
            hands_out(*old(self), *final(self)),
            final(self).indices@.len() >= old(self).indices@.len(),
            forall|k: int| 0 <= k < old(self).indices@.len() ==> #[trigger] final(self).indices@[k] == old(self).indices@[k],
            r matches Some(i) ==> final(self).indices@.contains((key, i)),
            final(self).indices@.len() > old(self).indices@.len() ==> r == Some(old(self).indices@.len() as usize)
                && final(self).indices@.len() == old(self).indices@.len() + 1,
    {
        proof {
            lemma_keeps_refl(*self);
        }
        let mut k: usize = 0;
        while k < self.indices.len()
            invariant
                k <= self.indices@.len(),
                forall|q: int| 0 <= q < k ==> #[trigger] self.indices@[q].0 != key,
                self.indices == old(self).indices,
                self.source == old(self).source,
                self.worklist == old(self).worklist,
                keeps(*old(self), *self),
            decreases self.indices@.len() - k,
        {
            if self.indices[k].0 == key {
                let i = self.indices[k].1;
                proof {
                    assert(self.indices@[k as int] == (key, i));
                    let c = first_index(*old(self), key);
                    assert(0 <= c < self.indices@.len() && self.indices@[c].0 == key);
                    if c < k {
                        assert(self.indices@[c].0 != key);
                    } else if c > k {
                        assert(self.indices@[k as int].0 != key);
                    }
                }
                return Some(i);
            }
            k = k + 1;
        }
        let mut j: usize = 0;
        while j < self.source.len()
            invariant
                j <= self.source@.len(),
                forall|q: int| 0 <= q < self.indices@.len() ==> #[trigger] self.indices@[q].0 != key,
                forall|q: int| 0 <= q < j ==> #[trigger] self.source@[q].0 != key,
                self.indices == old(self).indices,
                self.source == old(self).source,
                self.worklist == old(self).worklist,
                keeps(*old(self), *self),
            decreases self.source@.len() - j,
        {
            if self.source[j].0 == key {
                let index = self.indices.len();
                self.indices.push((key, index));
                let ghost s0 = self.source@;
                let ghost w0 = self.worklist@;
                let (_, item) = self.source.swap_remove(j);
                self.worklist.push((index, item));
                proof {
                    assert(self.worklist@[w0.len() as int].0 == index);
                    assert(queued_at(*self, index as int));
                    assert(numbered(*old(self)) ==> numbered(*self)) by {
                        assert forall|k: int| numbered(*old(self)) && 0 <= k < self.indices@.len() implies #[trigger] self.indices@[k].1 == k by {
                            if k < old(self).indices@.len() {
                                assert(self.indices@[k] == old(self).indices@[k]);
                            }
                        }
                    }
                    assert(queued(*old(self)) ==> queued(*self)) by {
                        assert forall|k: int| queued(*old(self)) && 0 <= k < self.worklist@.len() implies #[trigger] self.worklist@[k].0 < self.indices@.len() by {
                            if k < w0.len() {
                                assert(self.worklist@[k] == w0[k]);
                            }
                        }
                    }
                    assert(keys_apart(*old(self)) ==> keys_apart(*self)) by {
                        assert forall|a: int, b: int| keys_apart(*old(self)) && 0 <= a < b < self.indices@.len() implies #[trigger] self.indices@[a].0 != #[trigger] self.indices@[b].0 by {
                            if b < old(self).indices@.len() {
                                assert(self.indices@[a] == old(self).indices@[a]);
                                assert(self.indices@[b] == old(self).indices@[b]);
                            } else {
                                assert(self.indices@[a] == old(self).indices@[a]);
                            }
                        }
                    }
                    assert(old(self).source@[j as int] == (key, item));
                    assert(old(self).source@.contains((self.indices@[self.worklist@[w0.len() as int].0 as int].0, self.worklist@[w0.len() as int].1)));
                    assert(hands_out(*old(self), *self));
                    assert(self.indices@[index as int] == (key, index));
                    assert forall|k: int| 0 <= k < self.source@.len() implies s0.contains(#[trigger] self.source@[k]) by {
                        if k == j {
                            assert(self.source@[k] == s0[s0.len() - 1]);
                        } else {
                            assert(self.source@[k] == s0[k]);
                        }
                    }
                    assert forall|k: int|
                        0 <= k < self.worklist@.len() implies w0.contains(#[trigger] self.worklist@[k]) || exists|i: int|
                            0 <= i < s0.len() && #[trigger] s0[i].1 == self.worklist@[k].1 by {
                        if k < w0.len() {
                            assert(self.worklist@[k] == w0[k]);
                        } else {
                            assert(s0[j as int].1 == self.worklist@[k].1);
                        }
                    }
                    assert(old(self).source@[j as int].0 == key);
                    assert forall|x: usize| #[trigger] knows(*self, x) == knows(*old(self), x) by {
                        if knows(*old(self), x) {
                            if exists|q: int| 0 <= q < old(self).indices@.len() && #[trigger] old(self).indices@[q].0 == x {
                                let q = choose|q: int| 0 <= q < old(self).indices@.len() && #[trigger] old(self).indices@[q].0 == x;
                                assert(self.indices@[q] == old(self).indices@[q]);
                            } else {
                                let q = choose|q: int| 0 <= q < old(self).source@.len() && #[trigger] old(self).source@[q].0 == x;
                                if q == j {
                                    assert(self.indices@[index as int].0 == x);
                                } else if q == s0.len() - 1 {
                                    assert(self.source@[j as int] == s0[q]);
                                } else {
                                    assert(self.source@[q] == s0[q]);
                                }
                            }
                        }
                        if knows(*self, x) {
                            if exists|q: int| 0 <= q < self.indices@.len() && #[trigger] self.indices@[q].0 == x {
                                let q = choose|q: int| 0 <= q < self.indices@.len() && #[trigger] self.indices@[q].0 == x;
                                if q < old(self).indices@.len() {
                                    assert(old(self).indices@[q] == self.indices@[q]);
                                } else {
                                    assert(old(self).source@[j as int].0 == x);
                                }
                            } else {
                                let q = choose|q: int| 0 <= q < self.source@.len() && #[trigger] self.source@[q].0 == x;
                                assert(s0.contains(self.source@[q]));
                                let q2 = choose|q2: int| 0 <= q2 < s0.len() && s0[q2] == self.source@[q];
                                assert(old(self).source@[q2].0 == x);
                            }
                        }
                    }
                }
                return Some(index);
            }
            j = j + 1;
        }
        None
    }
}

/// What compiling a program keeps: its constants, and the groups and
/// functions met so far.
pub struct Generation {
    pub consts: Pooling,
    pub groups: Worker<Group>,
    pub functions: Worker<Function>,
}

fn to_index(x: usize) -> (r: Option<Index>)
    ensures
        r matches Some(i) ==> i == x,
        r is None <==> x > u32::MAX,
{
    if x <= 0xffff_ffff {
        Some(x as Index)
    } else {
        None
    }
}

fn reg_list(regs: &Vec<Reg>, vs: &Vec<Var>) -> (r: Vec<Reg>)
    requires
        forall|k: int| 0 <= k < vs@.len() ==> #[trigger] vs@[k] < regs@.len(),
    ensures
        r@ == regs_of(regs@, vs@),
{
    let mut out: Vec<Reg> = Vec::new();
    let mut k: usize = 0;
    while k < vs.len()
        invariant
            forall|q: int| 0 <= q < vs@.len() ==> #[trigger] vs@[q] < regs@.len(),
            k <= vs@.len(),
            out@ == regs_of(regs@, vs@.take(k as int)),
        decreases vs@.len() - k,
    {
        out.push(regs[vs[k]]);
        k = k + 1;
        assert(out@ =~= regs_of(regs@, vs@.take(k as int)));
    }
    assert(vs@.take(vs@.len() as int) =~= vs@);
    out
}

/// The index of what a pointer names: a function or a group gets the one
/// the program gives it as it first meets it, a host function keeps its
/// number. `None` when the program does not know the function or group, or
/// the index does not fit an `Index`.
fn pointer_index(p: Pointer, x: usize, ctx: &mut Generation) -> (r: Option<Index>)
    ensures
        r matches Some(i) ==> i == match p {
            Pointer::Function => index_for(old(ctx).functions, x),
            Pointer::Group => index_for(old(ctx).groups, x),
            Pointer::Rust => x as int,
        },
        r is None <==> match p {
            Pointer::Function => !knows(old(ctx).functions, x) || index_for(old(ctx).functions, x) > u32::MAX,
            Pointer::Group => !knows(old(ctx).groups, x) || index_for(old(ctx).groups, x) > u32::MAX,
            Pointer::Rust => x > u32::MAX,
        },
        r is None ==> overflowed(*final(ctx)) || match p {
            Pointer::Function => !knows(old(ctx).functions, x),
            Pointer::Group => !knows(old(ctx).groups, x),
            Pointer::Rust => x > u32::MAX,
        },
        final(ctx).consts == old(ctx).consts,
        forall|y: usize| #[trigger] knows(final(ctx).functions, y) == knows(old(ctx).functions, y),
        forall|y: usize| #[trigger] knows(final(ctx).groups, y) == knows(old(ctx).groups, y),
        progress(*old(ctx), *final(ctx)),
        numbered(old(ctx).functions) ==> (r matches Some(i) ==> (p is Function ==> i < final(ctx).functions.indices@.len())),
        numbered(old(ctx).groups) ==> (r matches Some(i) ==> (p is Group ==> i < final(ctx).groups.indices@.len())),
{
    let ghost c0 = *ctx;
    proof {
        lemma_keeps_refl(c0.groups);
        lemma_keeps_refl(c0.functions);
    }
    let k = match p {
        Pointer::Function => ctx.functions.get(x),
        Pointer::Group => ctx.groups.get(x),
        Pointer::Rust => Some(x),
    };
    match k {
        None => None,
        Some(k) => {
            let i = to_index(k);
            proof {
                if p is Function && numbered(c0.functions) {
                    let q = choose|q: int| 0 <= q < ctx.functions.indices@.len() && ctx.functions.indices@[q] == (x, k);
                    assert(ctx.functions.indices@[q].1 == q);
                }
                if p is Group && numbered(c0.groups) {
                    let q = choose|q: int| 0 <= q < ctx.groups.indices@.len() && ctx.groups.indices@[q] == (x, k);
                    assert(ctx.groups.indices@[q].1 == q);
                }
                if i is None && p is Function {
                    let q = choose|q: int| 0 <= q < ctx.functions.indices@.len() && ctx.functions.indices@[q] == (x, k);
                    assert(ctx.functions.indices@[q].1 > u32::MAX);
                }
                if i is None && p is Group {
                    let q = choose|q: int| 0 <= q < ctx.groups.indices@.len() && ctx.groups.indices@[q] == (x, k);
                    assert(ctx.groups.indices@[q].1 > u32::MAX);
                }
            }
            i
        },
    }
}

/// The index in the pool of a constant with the value of `c`, added when
/// the pool has none. `None` when it does not fit an `Index`.
fn load_index(c: &Const, ctx: &mut Generation) -> (r: Option<Index>)
    ensures
        r matches Some(i) ==> i == pool_index(old(ctx).consts.pool@, c@) && i < final(ctx).consts.pool@.len()
            && final(ctx).consts.pool@[i as int]@ == c@,
        r is None <==> pool_index(old(ctx).consts.pool@, c@) > u32::MAX,
        r is None ==> overflowed(*final(ctx)),
        final(ctx).consts.pool@.len() == if pool_index(old(ctx).consts.pool@, c@) < old(ctx).consts.pool@.len() {
            old(ctx).consts.pool@.len()
        } else {
            old(ctx).consts.pool@.len() + 1
        },
        final(ctx).consts.pool@[pool_index(old(ctx).consts.pool@, c@)]@ == c@,
        pooled_once(old(ctx).consts.pool@) ==> pooled_once(final(ctx).consts.pool@),
        final(ctx).functions == old(ctx).functions,
        final(ctx).groups == old(ctx).groups,
        progress(*old(ctx), *final(ctx)),
{
    proof {
        lemma_keeps_refl(ctx.groups);
        lemma_keeps_refl(ctx.functions);
    }
    let k = ctx.consts.index(c);
    to_index(k)
}

impl Instruction {
    /// The bytecode of the instruction: its variables become their
    /// registers, a constant its index in the pool, a group or a function
    /// its index in the program. `None` when an index does not fit, or a
    /// pointer names a group or a function the program does not have.
    #[verifier::rlimit(40)]
    pub fn codegen(&self, regs: &Vec<Reg>, ctx: &mut Generation) -> (r: Option<Bytecode>)
        requires
            self.def() < regs@.len(),
            forall|k: int| 0 <= k < self.reads().len() ==> #[trigger] self.reads()[k] < regs@.len(),
        ensures
            r matches Some(b) ==> lowered(*self, regs@, b@),
            match (r, *self) {
                (Some(b), Instruction::Load(_, c)) => b@ matches BytecodeV::Load(_, i) && i < final(ctx).consts.pool@.len()
                    && final(ctx).consts.pool@[i as int]@ == c@ && i == pool_index(old(ctx).consts.pool@, c@),
                (Some(b), Instruction::Pointer(_, p, x)) => b@ matches BytecodeV::Pointer(_, _, i) && i == match p {
                    Pointer::Function => index_for(old(ctx).functions, x),
                    Pointer::Group => index_for(old(ctx).groups, x),
                    Pointer::Rust => x as int,
                },
                _ => true,
            },
            r is None <==> match *self {
                Instruction::Arg(_, x) => x > u32::MAX,
                Instruction::Unpack(_, _, x) => x > u32::MAX,
                Instruction::Pointer(_, p, x) => match p {
                    Pointer::Function => !knows(old(ctx).functions, x) || index_for(old(ctx).functions, x) > u32::MAX,
                    Pointer::Group => !knows(old(ctx).groups, x) || index_for(old(ctx).groups, x) > u32::MAX,
                    Pointer::Rust => x > u32::MAX,
                },
                Instruction::Load(_, c) => pool_index(old(ctx).consts.pool@, c@) > u32::MAX,
                _ => false,
            },
            r is None ==> refused_ins(*self, *old(ctx)) || overflowed(*final(ctx)),
            forall|x: usize| #[trigger] knows(final(ctx).functions, x) == knows(old(ctx).functions, x),
            forall|x: usize| #[trigger] knows(final(ctx).groups, x) == knows(old(ctx).groups, x),
            progress(*old(ctx), *final(ctx)),
            match *self {
                Instruction::Load(_, c) => {
                    &&& final(ctx).consts.pool@.len() == if pool_index(old(ctx).consts.pool@, c@) < old(ctx).consts.pool@.len() {
                        old(ctx).consts.pool@.len()
                    } else {
                        old(ctx).consts.pool@.len() + 1
                    }
                    &&& final(ctx).consts.pool@[pool_index(old(ctx).consts.pool@, c@)]@ == c@
                },
                _ => final(ctx).consts.pool@ == old(ctx).consts.pool@,
            },
            pooled_once(old(ctx).consts.pool@) ==> pooled_once(final(ctx).consts.pool@),
            numbered(old(ctx).functions) && numbered(old(ctx).groups) ==> (r matches Some(b) ==> ptr_below(
                b@,
                final(ctx).functions.indices@.len() as int,
                final(ctx).groups.indices@.len() as int,
            )),
    {
        proof {
            lemma_progress_refl(*ctx);
        }
        assert(self.reads().len() > 0 ==> self.reads()[0] < regs@.len());
        match self {
            Instruction::Arg(d, x) => {
                let i = to_index(*x)?;
                Some(Bytecode::Arg(regs[*d], i))
            },
            Instruction::Field(d, s, id) => {
                assert(self.reads()[0] == *s);
                Some(Bytecode::Field(regs[*d], regs[*s], *id))
            },
            Instruction::Unpack(d, s, x) => {
                assert(self.reads()[0] == *s);
                let i = to_index(*x)?;
                Some(Bytecode::Unpack(regs[*d], regs[*s], i))
            },
            Instruction::Pointer(d, p, x) => {
                let i = pointer_index(*p, *x, ctx)?;
                Some(Bytecode::Pointer(regs[*d], *p, i))
            },
            Instruction::Load(d, c) => {
                let i = load_index(c, ctx)?;
                Some(Bytecode::Load(regs[*d], i))
            },
            Instruction::Binary(d, l, o, r) => {
                assert(self.reads()[0] == *l && self.reads()[1] == *r);
                Some(Bytecode::Binary(regs[*d], regs[*l], *o, regs[*r]))
            },
            Instruction::Unary(d, o, s) => {
                assert(self.reads()[0] == *s);
                Some(Bytecode::Unary(regs[*d], *o, regs[*s]))
            },
            Instruction::Call(d, s, a) => {
                assert(self.reads()[0] == *s);
                assert forall|k: int| 0 <= k < a@.len() implies #[trigger] a@[k] < regs@.len() by {
                    assert(self.reads()[k + 1] == a@[k]);
                }
                Some(Bytecode::Call(regs[*d], regs[*s], reg_list(regs, a)))
            },
            Instruction::List(d, a) => {
                assert forall|k: int| 0 <= k < a@.len() implies #[trigger] a@[k] < regs@.len() by {
                    assert(self.reads()[k] == a@[k]);
                }
                Some(Bytecode::List(regs[*d], reg_list(regs, a)))
            },
            Instruction::Tuple(d, a) => {
                assert forall|k: int| 0 <= k < a@.len() implies #[trigger] a@[k] < regs@.len() by {
                    assert(self.reads()[k] == a@[k]);
                }
                Some(Bytecode::Tuple(regs[*d], reg_list(regs, a)))
            },
            Instruction::Index(d, s, x) => {
                assert(self.reads()[0] == *s && self.reads()[1] == *x);
                Some(Bytecode::Index(regs[*d], regs[*s], regs[*x]))
            },
            Instruction::Method(d, s, id, a) => {
                assert(self.reads()[0] == *s);
                assert forall|k: int| 0 <= k < a@.len() implies #[trigger] a@[k] < regs@.len() by {
                    assert(self.reads()[k + 1] == a@[k]);
                }
                Some(Bytecode::Method(regs[*d], regs[*s], *id, reg_list(regs, a)))
            },
        }
    }
}


/// The position in `rpo` of the label `l`.
pub open spec fn position(rpo: Seq<Label>, l: Label) -> int {
    choose|k: int| 0 <= k < rpo.len() && rpo[k] == l
}

/// The bytecode of a terminator: its variable becomes its register, and a
/// target the position where the code of the target starts.
pub open spec fn lowered_term(t: Terminator, regs: Seq<Reg>, starts: Seq<Option<usize>>, b: BytecodeV) -> bool {
    match t {
        Terminator::Branch(c, y, n) => b == BytecodeV::Branch(
            reg_of(regs, c),
            starts[slot_of(y)]->0 as Index,
            starts[slot_of(n)]->0 as Index,
        ),
        Terminator::Jump(y) => b == BytecodeV::Jump(starts[slot_of(y)]->0 as Index),
        Terminator::Return(v) => b == BytecodeV::Return(reg_of(regs, v)),
    }
}

/// The code of the fragment `l` has a start in `starts`, and it fits an
/// `Index`.
pub open spec fn start_fits(starts: Seq<Option<usize>>, l: Label) -> bool {
    &&& 0 <= slot_of(l) < starts.len()
    &&& starts[slot_of(l)] matches Some(x) && x <= u32::MAX
}

fn start_of(starts: &Vec<Option<usize>>, l: Label) -> (r: Option<Index>)
    ensures
        r matches Some(i) ==> 0 <= slot_of(l) < starts@.len() && starts@[slot_of(l)] == Some(i as usize),
        r is Some <==> start_fits(starts@, l),
{
    let s = match l {
        Label::Entry => 0,
        Label::Exit => 1,
        Label::Id(i) => if i < starts.len() && starts.len() - i > 2 {
            i + 2
        } else {
            return None;
        },
    };
    if s < starts.len() {
        match starts[s] {
            Some(x) => to_index(x),
            None => None,
        }
    } else {
        None
    }
}

impl Terminator {
    /// The bytecode of the terminator. `None` when a target has no code,
    /// or its start does not fit an `Index`.
    pub fn codegen(&self, regs: &Vec<Reg>, starts: &Vec<Option<usize>>) -> (r: Option<Bytecode>)
        requires
            forall|k: int| 0 <= k < self.reads().len() ==> #[trigger] self.reads()[k] < regs@.len(),
        ensures
            r matches Some(b) ==> lowered_term(*self, regs@, starts@, b@),
            r is Some <==> match *self {
                Terminator::Branch(_, y, n) => start_fits(starts@, y) && start_fits(starts@, n),
                Terminator::Jump(y) => start_fits(starts@, y),
                Terminator::Return(_) => true,
            },
    {
        match self {
            Terminator::Branch(c, y, n) => {
                assert(self.reads()[0] == *c);
                let a = start_of(starts, *y)?;
                let b = start_of(starts, *n)?;
                Some(Bytecode::Branch(regs[*c], a, b))
            },
            Terminator::Jump(y) => {
                let a = start_of(starts, *y)?;
                Some(Bytecode::Jump(a))
            },
            Terminator::Return(v) => {
                assert(self.reads()[0] == *v);
                Some(Bytecode::Return(regs[*v]))
            },
        }
    }
}

impl crate::copies::Copy {
    /// The bytecode of the copy.
    pub fn codegen(&self, regs: &Vec<Reg>) -> (b: Bytecode)
        requires
            self.0 < regs@.len(),
            self.1 < regs@.len(),
        ensures
            b@ == BytecodeV::Copy(reg_of(regs@, self.0), reg_of(regs@, self.1)),
    {
        Bytecode::Copy(regs[self.0], regs[self.1])
    }
}

/// `bs` is the code of the fragments in the order `rpo`: for each, its
/// instructions, its copies and its terminator, each jump landing where
/// the code of its target starts.
pub open spec fn laid_out(
    f: Function,
    rpo: Seq<Label>,
    cs: Seq<Vec<crate::copies::Copy>>,
    regs: Seq<Reg>,
    starts: Seq<Option<usize>>,
    bs: Seq<BytecodeV>,
) -> bool {
    &&& bs.len() == anchor(f, rpo, cs, rpo.len() as int)
    &&& forall|k: int| 0 <= k < rpo.len() ==> starts[slot_of(#[trigger] rpo[k])] == Some(anchor(f, rpo, cs, k) as usize)
    &&& forall|k: int| 0 <= k < rpo.len() ==> #[trigger] block_laid(f, rpo, cs, regs, starts, bs, k)
}

/// The code of the fragment `rpo[k]` in `bs`.
pub open spec fn block_laid(
    f: Function,
    rpo: Seq<Label>,
    cs: Seq<Vec<crate::copies::Copy>>,
    regs: Seq<Reg>,
    starts: Seq<Option<usize>>,
    bs: Seq<BytecodeV>,
    k: int,
) -> bool {
    let x = f.frag(rpo[k])->0;
    let a = anchor(f, rpo, cs, k);
    let c = cs[slot_of(rpo[k])]@;
    &&& forall|j: int| 0 <= j < x.instructions@.len() ==> lowered(#[trigger] x.instructions@[j], regs, bs[a + j])
    &&& forall|j: int|
        0 <= j < c.len() ==> bs[a + x.instructions@.len() + j] == BytecodeV::Copy(
            reg_of(regs, (#[trigger] c[j]).0),
            reg_of(regs, c[j].1),
        )
    &&& lowered_term(x.terminator->0, regs, starts, bs[a + x.instructions@.len() + c.len()])
}


/// In laid-out code, the branch that ends a fragment sends the machine to
/// the start of the code of its `yes` fragment when the condition holds,
/// and of its `no` fragment when it does not.
#[verifier::rlimit(30)]
pub proof fn law_branch_lowered(
    f: Function,
    rpo: Seq<Label>,
    cs: Seq<Vec<crate::copies::Copy>>,
    regs: Seq<Reg>,
    starts: Seq<Option<usize>>,
    bs: Seq<BytecodeV>,
    k: int,
    c: Var,
    y: Label,
    n: Label,
    p: crate::bytecode::ProgramV,
    rt: crate::runtime::RuntimeV,
    b: bool,
)
    requires
        laid_out(f, rpo, cs, regs, starts, bs),
        bs.len() <= u32::MAX,
        0 <= k < rpo.len(),
        f.frag(rpo[k])->0.terminator == Some(Terminator::Branch(c, y, n)),
        rpo.contains(y),
        rpo.contains(n),
        crate::runtime::has_reg(rt, reg_of(regs, c)),
        crate::runtime::top(rt).registers[reg_of(regs, c) as int] == crate::runtime::ObjectV::Bool(b),
    ensures
        ({
            let x = f.frag(rpo[k])->0;
            let t = anchor(f, rpo, cs, k) + x.instructions@.len() + cs[slot_of(rpo[k])]@.len();
            crate::runtime::effect(p, rt, bs[t]) matches crate::runtime::Effect::Go(rt2, s) && s
                == crate::runtime::StepV::Next && {
                &&& b ==> exists|j: int|
                    0 <= j < rpo.len() && rpo[j] == y && crate::runtime::top(rt2).pc == anchor(f, rpo, cs, j)
                &&& !b ==> exists|j: int|
                    0 <= j < rpo.len() && rpo[j] == n && crate::runtime::top(rt2).pc == anchor(f, rpo, cs, j)
            }
        }),
{
    let x = f.frag(rpo[k])->0;
    let t = anchor(f, rpo, cs, k) + x.instructions@.len() + cs[slot_of(rpo[k])]@.len();
    assert(block_laid(f, rpo, cs, regs, starts, bs, k));
    let jy = choose|j: int| 0 <= j < rpo.len() && rpo[j] == y;
    let jn = choose|j: int| 0 <= j < rpo.len() && rpo[j] == n;
    assert(starts[slot_of(rpo[jy])] == Some(anchor(f, rpo, cs, jy) as usize));
    assert(starts[slot_of(rpo[jn])] == Some(anchor(f, rpo, cs, jn) as usize));
    lemma_anchor_mono(f, rpo, cs, 0, jy);
    lemma_anchor_mono(f, rpo, cs, jy, rpo.len() as int);
    lemma_anchor_mono(f, rpo, cs, 0, jn);
    lemma_anchor_mono(f, rpo, cs, jn, rpo.len() as int);
    let ay = anchor(f, rpo, cs, jy);
    let an = anchor(f, rpo, cs, jn);
    assert(0 <= ay <= u32::MAX && 0 <= an <= u32::MAX);
    assert(bs[t] == BytecodeV::Branch(reg_of(regs, c), ay as usize as Index, an as usize as Index));
    crate::runtime::law_branch(p, rt, reg_of(regs, c), ay as usize as Index, an as usize as Index, b);
}

/// In laid-out code, the jump that ends a fragment sends the machine to
/// the start of the code of its target, and the return that ends one in
/// `main` ends the program with the register of its variable.
pub proof fn law_jump_return_lowered(
    f: Function,
    rpo: Seq<Label>,
    cs: Seq<Vec<crate::copies::Copy>>,
    regs: Seq<Reg>,
    starts: Seq<Option<usize>>,
    bs: Seq<BytecodeV>,
    k: int,
    p: crate::bytecode::ProgramV,
    rt: crate::runtime::RuntimeV,
)
    requires
        laid_out(f, rpo, cs, regs, starts, bs),
        bs.len() <= u32::MAX,
        0 <= k < rpo.len(),
        f.frag(rpo[k])->0.terminator matches Some(t) && (t matches Terminator::Jump(y) ==> rpo.contains(y)),
    ensures
        ({
            let x = f.frag(rpo[k])->0;
            let t = anchor(f, rpo, cs, k) + x.instructions@.len() + cs[slot_of(rpo[k])]@.len();
            &&& x.terminator->0 matches Terminator::Jump(y) ==> (crate::runtime::effect(p, rt, bs[t]) matches crate::runtime::Effect::Go(
                rt2,
                s,
            ) && exists|j: int| 0 <= j < rpo.len() && rpo[j] == y && crate::runtime::top(rt2).pc == anchor(f, rpo, cs, j))
            &&& x.terminator->0 matches Terminator::Return(v) ==> (crate::runtime::has_reg(rt, reg_of(regs, v))
                && rt.stack.len() == 0 ==> crate::runtime::effect(p, rt, bs[t]) == crate::runtime::Effect::Go(
                rt,
                crate::runtime::StepV::Exit(crate::runtime::top(rt).registers[reg_of(regs, v) as int]),
            ))
        }),
{
    assert(block_laid(f, rpo, cs, regs, starts, bs, k));
    let x = f.frag(rpo[k])->0;
    match x.terminator->0 {
        Terminator::Jump(y) => {
            let jy = choose|j: int| 0 <= j < rpo.len() && rpo[j] == y;
            assert(starts[slot_of(rpo[jy])] == Some(anchor(f, rpo, cs, jy) as usize));
            lemma_anchor_mono(f, rpo, cs, 0, jy);
            lemma_anchor_mono(f, rpo, cs, jy, rpo.len() as int);
            let ay = anchor(f, rpo, cs, jy);
            crate::runtime::law_jump(p, rt, ay as usize as Index);
        },
        _ => {},
    }
}

/// A lowered binary instruction runs on the registers of its variables:
/// for `-` on two integers the register of `d` receives the register of
/// `l` minus that of `r`; for `<` whether the first is below the second.
pub proof fn law_binary_lowered(
    d: Var,
    l: Var,
    o: BinOp,
    r: Var,
    regs: Seq<Reg>,
    b: BytecodeV,
    p: crate::bytecode::ProgramV,
    rt: crate::runtime::RuntimeV,
    x: i32,
    y: i32,
)
    requires
        lowered(Instruction::Binary(d, l, o, r), regs, b),
        crate::runtime::has_reg(rt, reg_of(regs, d)),
        crate::runtime::has_reg(rt, reg_of(regs, l)),
        crate::runtime::has_reg(rt, reg_of(regs, r)),
        crate::runtime::top(rt).registers[reg_of(regs, l) as int] == crate::runtime::ObjectV::Int(x),
        crate::runtime::top(rt).registers[reg_of(regs, r) as int] == crate::runtime::ObjectV::Int(y),
    ensures
        o is Sub && i32::MIN <= x - y <= i32::MAX ==> (crate::runtime::effect(p, rt, b) matches crate::runtime::Effect::Go(rt2, s)
            && crate::runtime::top(rt2).registers[reg_of(regs, d) as int] == crate::runtime::ObjectV::Int((x - y) as i32)),
        o is Lt ==> (crate::runtime::effect(p, rt, b) matches crate::runtime::Effect::Go(rt2, s)
            && crate::runtime::top(rt2).registers[reg_of(regs, d) as int] == crate::runtime::ObjectV::Bool(x < y)),
{
    crate::runtime::law_binary_step(p, rt, reg_of(regs, d), reg_of(regs, l), o, reg_of(regs, r), x, y);
}

/// The copies laid out after the code of a fragment move, each, the
/// register of the copy's source into the register of its destination.
pub proof fn law_copies_lowered(
    f: Function,
    rpo: Seq<Label>,
    cs: Seq<Vec<crate::copies::Copy>>,
    regs: Seq<Reg>,
    starts: Seq<Option<usize>>,
    bs: Seq<BytecodeV>,
    k: int,
    j: int,
    p: crate::bytecode::ProgramV,
    rt: crate::runtime::RuntimeV,
)
    requires
        laid_out(f, rpo, cs, regs, starts, bs),
        0 <= k < rpo.len(),
        0 <= j < cs[slot_of(rpo[k])]@.len(),
        crate::runtime::has_reg(rt, reg_of(regs, cs[slot_of(rpo[k])]@[j].0)),
        crate::runtime::has_reg(rt, reg_of(regs, cs[slot_of(rpo[k])]@[j].1)),
    ensures
        ({
            let c = cs[slot_of(rpo[k])]@[j];
            let t = anchor(f, rpo, cs, k) + f.frag(rpo[k])->0.instructions@.len() + j;
            crate::runtime::effect(p, rt, bs[t]) matches crate::runtime::Effect::Go(rt2, s)
                && crate::runtime::top(rt2).registers[reg_of(regs, c.0) as int] == crate::runtime::top(
                rt,
            ).registers[reg_of(regs, c.1) as int]
        }),
{
    assert(block_laid(f, rpo, cs, regs, starts, bs, k));
    let c = cs[slot_of(rpo[k])]@[j];
    crate::runtime::law_copy(p, rt, reg_of(regs, c.0), reg_of(regs, c.1));
}

/// The values of a list of bytecodes.
pub open spec fn views(bs: Seq<Bytecode>) -> Seq<BytecodeV> {
    bs.map_values(|b: Bytecode| b@)
}

proof fn lemma_laid_prefix(
    f: Function,
    rpo: Seq<Label>,
    cs: Seq<Vec<crate::copies::Copy>>,
    regs: Seq<Reg>,
    starts: Seq<Option<usize>>,
    a: Seq<BytecodeV>,
    b: Seq<BytecodeV>,
    k: int,
)
    requires
        0 <= k < rpo.len(),
        anchor(f, rpo, cs, k) + block_size(f, rpo, cs, k) <= a.len(),
        a.len() <= b.len(),
        forall|i: int| 0 <= i < a.len() ==> #[trigger] b[i] == a[i],
        block_laid(f, rpo, cs, regs, starts, a, k),
    ensures
        block_laid(f, rpo, cs, regs, starts, b, k),
{
    let x = f.frag(rpo[k])->0;
    let an = anchor(f, rpo, cs, k);
    let c = cs[slot_of(rpo[k])]@;
    lemma_anchor_mono(f, rpo, cs, 0, k);
    assert forall|j: int| 0 <= j < x.instructions@.len() implies lowered(#[trigger] x.instructions@[j], regs, b[an + j]) by {
        assert(b[an + j] == a[an + j]);
    }
    assert forall|j: int| 0 <= j < c.len() implies b[an + x.instructions@.len() + j] == BytecodeV::Copy(
        reg_of(regs, (#[trigger] c[j]).0),
        reg_of(regs, c[j].1),
    ) by {
        assert(b[an + x.instructions@.len() + j] == a[an + x.instructions@.len() + j]);
    }
    assert(b[an + x.instructions@.len() + c.len()] == a[an + x.instructions@.len() + c.len()]);
}

proof fn lemma_anchor_mono(f: Function, rpo: Seq<Label>, cs: Seq<Vec<crate::copies::Copy>>, a: int, b: int)
    requires
        0 <= a <= b <= rpo.len(),
    ensures
        anchor(f, rpo, cs, a) <= anchor(f, rpo, cs, b),
    decreases b - a,
{
    if a < b {
        lemma_anchor_mono(f, rpo, cs, a, b - 1);
    }
}

/// The code of `t` starts at a position of the layout in the order `rpo`
/// that fits an `Index`.
pub open spec fn placed(f: Function, rpo: Seq<Label>, cs: Seq<Vec<crate::copies::Copy>>, t: Label) -> bool {
    exists|q: int| 0 <= q < rpo.len() && rpo[q] == t && #[trigger] anchor(f, rpo, cs, q) <= u32::MAX
}

/// Every target of the terminator `t` is placed.
pub open spec fn term_placed(f: Function, rpo: Seq<Label>, cs: Seq<Vec<crate::copies::Copy>>, t: Terminator) -> bool {
    match t {
        Terminator::Branch(_, y, n) => placed(f, rpo, cs, y) && placed(f, rpo, cs, n),
        Terminator::Jump(y) => placed(f, rpo, cs, y),
        Terminator::Return(_) => true,
    }
}

/// A placed target has a start that fits an `Index`.
proof fn lemma_placed_fits(f: Function, rpo: Seq<Label>, cs: Seq<Vec<crate::copies::Copy>>, starts: Seq<Option<usize>>, t: Label)
    requires
        placed(f, rpo, cs, t),
        starts.len() == f.blocks@.len(),
        forall|q: int| 0 <= q < rpo.len() ==> f.has(#[trigger] rpo[q]),
        forall|q: int| 0 <= q < rpo.len() ==> starts[slot_of(#[trigger] rpo[q])] == Some(anchor(f, rpo, cs, q) as usize),
    ensures
        start_fits(starts, t),
{
    let q = choose|q: int| 0 <= q < rpo.len() && rpo[q] == t && #[trigger] anchor(f, rpo, cs, q) <= u32::MAX;
    lemma_anchor_mono(f, rpo, cs, 0, q);
    assert(f.has(rpo[q]));
    assert(starts[slot_of(rpo[q])] == Some(anchor(f, rpo, cs, q) as usize));
}

impl Function {
    /// Where the code of each fragment of `rpo` starts, by slot. `None`
    /// when the code has more positions than a `usize` counts.
    #[verifier::rlimit(30)]
    fn starts_of(&self, rpo: &Vec<Label>, copies: &Vec<Vec<crate::copies::Copy>>) -> (r: Option<Vec<Option<usize>>>)
        requires
            self.wf(),
            forall|k: int| 0 <= k < rpo@.len() ==> self.has(#[trigger] rpo@[k]),
            rpo@.no_duplicates(),
            copies@.len() == self.blocks@.len(),
        ensures
            r matches Some(starts) ==> {
                &&& starts@.len() == self.blocks@.len()
                &&& anchor(*self, rpo@, copies@, rpo@.len() as int) <= usize::MAX
                &&& forall|q: int| 0 <= q < rpo@.len() ==> starts@[slot_of(#[trigger] rpo@[q])] == Some(anchor(*self, rpo@, copies@, q) as usize)
            },
            r is None <==> anchor(*self, rpo@, copies@, rpo@.len() as int) > usize::MAX,
    {
        let n = rpo.len();
        let mut starts = none_vec(self.blocks.len());
        let mut index: usize = 0;
        let mut k: usize = 0;
        while k < n
            invariant
                self.wf(),
                n == rpo@.len(),
                forall|q: int| 0 <= q < rpo@.len() ==> self.has(#[trigger] rpo@[q]),
                rpo@.no_duplicates(),
                copies@.len() == self.blocks@.len(),
                k <= n,
                starts@.len() == self.blocks@.len(),
                index == anchor(*self, rpo@, copies@, k as int),
                forall|q: int| 0 <= q < k ==> starts@[slot_of(#[trigger] rpo@[q])] == Some(anchor(*self, rpo@, copies@, q) as usize),
            decreases n - k,
        {
            let label = rpo[k];
            let s = match label {
                Label::Entry => 0,
                Label::Exit => 1,
                Label::Id(i) => i + 2,
            };
            let x = self.get(label).unwrap();
            assert(self.frag(rpo@[k as int]) == Some(*x));
            let cl = copies[s].len();
            proof {
                assert(x.instructions@.len() + cl + 1 == block_size(*self, rpo@, copies@, k as int));
                lemma_anchor_mono(*self, rpo@, copies@, k as int + 1, n as int);
            }
            let size = match x.instructions.len().checked_add(cl) {
                Some(a) => match a.checked_add(1) {
                    Some(b) => b,
                    None => {
                        return None;
                    },
                },
                None => {
                    return None;
                },
            };
            assert(size == block_size(*self, rpo@, copies@, k as int));
            let next = match index.checked_add(size) {
                Some(i) => i,
                None => {
                    return None;
                },
            };
            let ghost st0 = starts@;
            starts.set(s, Some(index));
            proof {
                assert forall|q: int| 0 <= q < k + 1 implies starts@[slot_of(#[trigger] rpo@[q])] == Some(anchor(*self, rpo@, copies@, q) as usize) by {
                    if q < k {
                        assert(rpo@[q] != rpo@[k as int]);
                        crate::ir::lemma_slot_label(rpo@[q]);
                        crate::ir::lemma_slot_label(rpo@[k as int]);
                        assert(slot_of(rpo@[q]) != s);
                        assert(starts@[slot_of(rpo@[q])] == st0[slot_of(rpo@[q])]);
                    }
                }
            }
            index = next;
            k = k + 1;
        }
        Some(starts)
    }

    /// Lays the code out: for each fragment in the order `rpo`, its
    /// instructions, its copies and its terminator, every jump going to
    /// where the code of its target starts. `None` when the code does not
    /// fit the indices of the machine, or an instruction fails to compile.
    #[verifier::rlimit(60)]
    pub fn lowering(
        &self,
        ctx: &mut Generation,
        regs: &Vec<Reg>,
        rpo: &Vec<Label>,
        copies: &Vec<Vec<crate::copies::Copy>>,
    ) -> (r: Option<Vec<Bytecode>>)
        requires
            self.wf(),
            forall|k: int| 0 <= k < rpo@.len() ==> self.has(#[trigger] rpo@[k]),
            rpo@.no_duplicates(),
            copies@.len() == self.blocks@.len(),
            forall|p: int| 0 <= p < copies@.len() ==> crate::copies::below((#[trigger] copies@[p])@, regs@.len() as int),
            self.vars <= regs@.len(),
        ensures
            r matches Some(bs) ==> exists|starts: Seq<Option<usize>>| laid_out(*self, rpo@, copies@, regs@, starts, views(bs@)),
            r is None ==> {
                ||| anchor(*self, rpo@, copies@, rpo@.len() as int) > usize::MAX
                ||| exists|k: int, j: int|
                    0 <= k < rpo@.len() && 0 <= j < self.frag(rpo@[k])->0.instructions@.len()
                        && #[trigger] refused_ins(self.frag(rpo@[k])->0.instructions@[j], *old(ctx))
                ||| exists|k: int|
                    0 <= k < rpo@.len() && !#[trigger] term_placed(*self, rpo@, copies@, self.frag(rpo@[k])->0.terminator->0)
                ||| overflowed(*final(ctx))
            },
            anchor(*self, rpo@, copies@, rpo@.len() as int) > usize::MAX ==> r is None,
            progress(*old(ctx), *final(ctx)),
            pooled_once(old(ctx).consts.pool@) ==> pooled_once(final(ctx).consts.pool@),
            r matches Some(bs) ==> loads_below(views(bs@), final(ctx).consts.pool@.len() as int),
            numbered(old(ctx).functions) && numbered(old(ctx).groups) ==> (r matches Some(bs) ==> pointers_below(
                views(bs@),
                final(ctx).functions.indices@.len() as int,
                final(ctx).groups.indices@.len() as int,
            )),
    {
        proof {
            lemma_progress_refl(*ctx);
        }
        let ghost nb = numbered(old(ctx).functions) && numbered(old(ctx).groups);
        let n = rpo.len();
        let starts = self.starts_of(rpo, copies)?;
        let mut bs: Vec<Bytecode> = Vec::new();
        let mut k: usize = 0;
        while k < n
            invariant
                self.wf(),
                n == rpo@.len(),
                forall|q: int| 0 <= q < rpo@.len() ==> self.has(#[trigger] rpo@[q]),
                copies@.len() == self.blocks@.len(),
                forall|p: int| 0 <= p < copies@.len() ==> crate::copies::below((#[trigger] copies@[p])@, regs@.len() as int),
                self.vars <= regs@.len(),
                k <= n,
                anchor(*self, rpo@, copies@, n as int) <= usize::MAX,
                starts@.len() == self.blocks@.len(),
                forall|q: int| 0 <= q < n ==> starts@[slot_of(#[trigger] rpo@[q])] == Some(anchor(*self, rpo@, copies@, q) as usize),
                bs@.len() == anchor(*self, rpo@, copies@, k as int),
                forall|q: int| 0 <= q < k ==> #[trigger] block_laid(*self, rpo@, copies@, regs@, starts@, views(bs@), q),
                progress(*old(ctx), *ctx),
                forall|y: usize| #[trigger] knows(ctx.functions, y) == knows(old(ctx).functions, y),
                forall|y: usize| #[trigger] knows(ctx.groups, y) == knows(old(ctx).groups, y),
                pooled_once(old(ctx).consts.pool@) ==> pooled_once(ctx.consts.pool@),
                loads_below(views(bs@), ctx.consts.pool@.len() as int),
                nb == (numbered(old(ctx).functions) && numbered(old(ctx).groups)),
                nb ==> pointers_below(views(bs@), ctx.functions.indices@.len() as int, ctx.groups.indices@.len() as int),
            decreases n - k,
        {
            let label = rpo[k];
            let s = match label {
                Label::Entry => 0,
                Label::Exit => 1,
                Label::Id(i) => i + 2,
            };
            let x = self.get(label).unwrap();
            assert(self.frag_ok(*x)) by {
                assert(self.blocks@[slot_of(label)] is Some);
            }
            assert(self.frag(rpo@[k as int]) == Some(*x));
            let ghost b0 = views(bs@);
            let ghost a = bs@.len() as int;
            let mut j: usize = 0;
            while j < x.instructions.len()
                invariant
                    self.frag_ok(*x),
                    self.vars <= regs@.len(),
                    j <= x.instructions@.len(),
                    0 <= a,
                    bs@.len() == a + j,
                    forall|i: int| 0 <= i < a ==> #[trigger] views(bs@)[i] == b0[i],
                    forall|q: int| 0 <= q < j ==> lowered(#[trigger] x.instructions@[q], regs@, views(bs@)[a + q]),
                    progress(*old(ctx), *ctx),
                    forall|y: usize| #[trigger] knows(ctx.functions, y) == knows(old(ctx).functions, y),
                    forall|y: usize| #[trigger] knows(ctx.groups, y) == knows(old(ctx).groups, y),
                    k < rpo@.len(),
                    self.frag(rpo@[k as int]) == Some(*x),
                    pooled_once(old(ctx).consts.pool@) ==> pooled_once(ctx.consts.pool@),
                    loads_below(views(bs@), ctx.consts.pool@.len() as int),
                    nb == (numbered(old(ctx).functions) && numbered(old(ctx).groups)),
                    nb ==> pointers_below(views(bs@), ctx.functions.indices@.len() as int, ctx.groups.indices@.len() as int),
                decreases x.instructions@.len() - j,
            {
                let ins = &x.instructions[j];
                assert(ins.def() < self.vars);
                assert forall|q: int| 0 <= q < ins.reads().len() implies #[trigger] ins.reads()[q] < regs@.len() by {
                    assert(x.instructions@[j as int].reads()[q] < self.vars);
                }
                let ghost cb = *ctx;
                let b = match ins.codegen(regs, ctx) {
                    Some(b) => b,
                    None => {
                        proof {
                            lemma_progress_trans(*old(ctx), cb, *ctx);
                            if refused_ins(*ins, cb) {
                                assert(refused_ins(self.frag(rpo@[k as int])->0.instructions@[j as int], *old(ctx)));
                            }
                        }
                        return None;
                    },
                };
                proof {
                    lemma_progress_trans(*old(ctx), cb, *ctx);
                }
                let ghost before = bs@;
                bs.push(b);
                proof {
                    assert(views(bs@) =~= views(before).push(b@));
                    assert forall|kk: int| 0 <= kk < views(bs@).len() implies (#[trigger] views(bs@)[kk] matches BytecodeV::Load(_, i) ==> i < ctx.consts.pool@.len()) by {
                        if kk < before.len() {
                            assert(views(bs@)[kk] == views(before)[kk]);
                            assert(views(before)[kk] matches BytecodeV::Load(_, i) ==> i < cb.consts.pool@.len());
                        }
                    }
                    if nb {
                        assert(numbered(cb.functions) && numbered(cb.groups));
                        assert forall|kk: int| 0 <= kk < views(bs@).len() implies ptr_below(#[trigger] views(bs@)[kk], ctx.functions.indices@.len() as int, ctx.groups.indices@.len() as int) by {
                            if kk < before.len() {
                                assert(views(bs@)[kk] == views(before)[kk]);
                                assert(ptr_below(views(before)[kk], cb.functions.indices@.len() as int, cb.groups.indices@.len() as int));
                            }
                        }
                    }
                    assert forall|i: int| 0 <= i < a implies #[trigger] views(bs@)[i] == b0[i] by {
                        assert(views(bs@)[i] == bs@[i]@ && bs@[i] == before[i] && views(before)[i] == before[i]@);
                    }
                    assert forall|q: int| 0 <= q < j + 1 implies lowered(#[trigger] x.instructions@[q], regs@, views(bs@)[a + q]) by {
                        assert(bs@.len() == before.len() + 1);
                        assert(before.len() == a + j);
                        assert(0 <= a + q < bs@.len());
                        assert(views(bs@)[a + q] == bs@[a + q]@);
                        if q < j {
                            assert(bs@[a + q] == before[a + q]);
                            assert(views(before)[a + q] == before[a + q]@);
                        } else {
                            assert(bs@[a + q] == b);
                        }
                    }
                }
                j = j + 1;
            }
            let cs = &copies[s];
            let ghost a2 = a + x.instructions@.len();
            let mut j: usize = 0;
            while j < cs.len()
                invariant
                    self.frag_ok(*x),
                    crate::copies::below(cs@, regs@.len() as int),
                    j <= cs@.len(),
                    a2 == a + x.instructions@.len(),
                    0 <= a,
                    bs@.len() == a2 + j,
                    forall|i: int| 0 <= i < a ==> #[trigger] views(bs@)[i] == b0[i],
                    forall|q: int| 0 <= q < x.instructions@.len() ==> lowered(#[trigger] x.instructions@[q], regs@, views(bs@)[a + q]),
                    forall|q: int|
                        0 <= q < j ==> views(bs@)[a2 + q] == BytecodeV::Copy(reg_of(regs@, (#[trigger] cs@[q]).0), reg_of(regs@, cs@[q].1)),
                    loads_below(views(bs@), ctx.consts.pool@.len() as int),
                    nb ==> pointers_below(views(bs@), ctx.functions.indices@.len() as int, ctx.groups.indices@.len() as int),
                decreases cs@.len() - j,
            {
                let b = cs[j].codegen(regs);
                let ghost before = bs@;
                bs.push(b);
                proof {
                    assert(views(bs@) =~= views(before).push(b@));
                    assert forall|kk: int| 0 <= kk < views(bs@).len() implies (#[trigger] views(bs@)[kk] matches BytecodeV::Load(_, i) ==> i < ctx.consts.pool@.len()) by {
                        if kk < before.len() {
                            assert(views(bs@)[kk] == views(before)[kk]);
                        }
                    }
                    assert forall|kk: int| nb && 0 <= kk < views(bs@).len() implies ptr_below(#[trigger] views(bs@)[kk], ctx.functions.indices@.len() as int, ctx.groups.indices@.len() as int) by {
                        if kk < before.len() {
                            assert(views(bs@)[kk] == views(before)[kk]);
                        }
                    }
                    assert forall|i: int| 0 <= i < a implies #[trigger] views(bs@)[i] == b0[i] by {
                        assert(views(bs@)[i] == bs@[i]@ && bs@[i] == before[i] && views(before)[i] == before[i]@);
                    }
                    assert forall|q: int| 0 <= q < x.instructions@.len() implies lowered(#[trigger] x.instructions@[q], regs@, views(bs@)[a + q]) by {
                        assert(views(bs@)[a + q] == bs@[a + q]@ && bs@[a + q] == before[a + q] && views(before)[a + q] == before[a + q]@);
                    }
                    assert forall|q: int|
                        0 <= q < j + 1 implies views(bs@)[a2 + q] == BytecodeV::Copy(reg_of(regs@, (#[trigger] cs@[q]).0), reg_of(regs@, cs@[q].1)) by {
                        if q < j {
                            assert(views(bs@)[a2 + q] == bs@[a2 + q]@ && bs@[a2 + q] == before[a2 + q] && views(before)[a2 + q] == before[a2 + q]@);
                        }
                    }
                }
                j = j + 1;
            }
            let t = x.terminator.unwrap();
            assert forall|q: int| 0 <= q < t.reads().len() implies #[trigger] t.reads()[q] < regs@.len() by {
                assert(t.reads()[q] < self.vars);
            }
            let b = match t.codegen(regs, &starts) {
                Some(b) => b,
                None => {
                    proof {
                        assert(self.frag(rpo@[k as int])->0.terminator->0 == t);
                        match t {
                            Terminator::Branch(_, y, z) => {
                                if placed(*self, rpo@, copies@, y) {
                                    lemma_placed_fits(*self, rpo@, copies@, starts@, y);
                                }
                                if placed(*self, rpo@, copies@, z) {
                                    lemma_placed_fits(*self, rpo@, copies@, starts@, z);
                                }
                            },
                            Terminator::Jump(y) => {
                                if placed(*self, rpo@, copies@, y) {
                                    lemma_placed_fits(*self, rpo@, copies@, starts@, y);
                                }
                            },
                            Terminator::Return(_) => {},
                        }
                        assert(!term_placed(*self, rpo@, copies@, self.frag(rpo@[k as int])->0.terminator->0));
                    }
                    return None;
                },
            };
            let ghost before = bs@;
            bs.push(b);
            proof {
                assert(views(bs@) =~= views(before).push(b@));
                assert forall|kk: int| 0 <= kk < views(bs@).len() implies (#[trigger] views(bs@)[kk] matches BytecodeV::Load(_, i) ==> i < ctx.consts.pool@.len()) by {
                    if kk < before.len() {
                        assert(views(bs@)[kk] == views(before)[kk]);
                    } else {
                        assert(views(bs@)[kk] == b@);
                        match t {
                            Terminator::Jump(_) => {},
                            _ => {},
                        }
                    }
                }
                assert forall|kk: int| nb && 0 <= kk < views(bs@).len() implies ptr_below(#[trigger] views(bs@)[kk], ctx.functions.indices@.len() as int, ctx.groups.indices@.len() as int) by {
                    if kk < before.len() {
                        assert(views(bs@)[kk] == views(before)[kk]);
                    } else {
                        assert(views(bs@)[kk] == b@);
                        match t {
                            Terminator::Jump(_) => {},
                            _ => {},
                        }
                    }
                }
                assert forall|q: int| 0 <= q < x.instructions@.len() implies lowered(#[trigger] x.instructions@[q], regs@, views(bs@)[a + q]) by {
                    assert(views(bs@)[a + q] == bs@[a + q]@ && bs@[a + q] == before[a + q] && views(before)[a + q] == before[a + q]@);
                }
                assert forall|q: int|
                    0 <= q < cs@.len() implies views(bs@)[a2 + q] == BytecodeV::Copy(reg_of(regs@, (#[trigger] cs@[q]).0), reg_of(regs@, cs@[q].1)) by {
                    assert(views(bs@)[a2 + q] == bs@[a2 + q]@ && bs@[a2 + q] == before[a2 + q] && views(before)[a2 + q] == before[a2 + q]@);
                }
                assert forall|i: int| 0 <= i < a implies #[trigger] views(bs@)[i] == b0[i] by {
                    assert(views(bs@)[i] == bs@[i]@ && bs@[i] == before[i] && views(before)[i] == before[i]@);
                }
                assert(cs@ == copies@[slot_of(rpo@[k as int])]@);
                assert(block_laid(*self, rpo@, copies@, regs@, starts@, views(bs@), k as int));
                lemma_anchor_mono(*self, rpo@, copies@, k as int + 1, n as int);
                assert forall|q: int| 0 <= q < k + 1 implies #[trigger] block_laid(*self, rpo@, copies@, regs@, starts@, views(bs@), q) by {
                    if q < k {
                        lemma_anchor_mono(*self, rpo@, copies@, q + 1, k as int);
                        lemma_laid_prefix(*self, rpo@, copies@, regs@, starts@, b0, views(bs@), q);
                    }
                }
            }
            k = k + 1;
        }
        proof {
            assert(laid_out(*self, rpo@, copies@, regs@, starts@, views(bs@)));
        }
        let r = Some(bs);
        assert(r matches Some(b2) ==> laid_out(*self, rpo@, copies@, regs@, starts@, views(b2@)));
        r
    }
}


/// A pointer `b` holds names a function below `nf` or a group below `ng`.
pub open spec fn ptr_below(b: BytecodeV, nf: int, ng: int) -> bool {
    match b {
        BytecodeV::Pointer(_, Pointer::Function, i) => i < nf,
        BytecodeV::Pointer(_, Pointer::Group, i) => i < ng,
        _ => true,
    }
}

/// Every pointer of `bs` names a function below `nf` or a group below `ng`.
pub open spec fn pointers_below(bs: Seq<BytecodeV>, nf: int, ng: int) -> bool {
    forall|k: int| 0 <= k < bs.len() ==> ptr_below(#[trigger] bs[k], nf, ng)
}

/// Every load of `bs` names a constant below `n`.
pub open spec fn loads_below(bs: Seq<BytecodeV>, n: int) -> bool {
    forall|k: int| 0 <= k < bs.len() ==> (#[trigger] bs[k] matches BytecodeV::Load(_, i) ==> i < n)
}

/// A function the code generator can take: well formed, and small enough
/// that splitting its edges cannot run out of labels.
pub open spec fn ready_fn(f: Function) -> bool {
    f.wf() && 3 * f.blocks@.len() < usize::MAX
}

/// Every function a worker holds is ready.
pub open spec fn all_ready(w: Worker<Function>) -> bool {
    &&& forall|k: int| 0 <= k < w.source@.len() ==> ready_fn(#[trigger] w.source@[k].1)
    &&& forall|k: int| 0 <= k < w.worklist@.len() ==> ready_fn(#[trigger] w.worklist@[k].1)
}

proof fn lemma_all_ready(a: Worker<Function>, b: Worker<Function>)
    requires
        keeps(a, b),
        all_ready(a),
    ensures
        all_ready(b),
{
    assert forall|k: int| 0 <= k < b.source@.len() implies ready_fn(#[trigger] b.source@[k].1) by {
        assert(a.source@.contains(b.source@[k]));
        let j = choose|j: int| 0 <= j < a.source@.len() && a.source@[j] == b.source@[k];
        assert(ready_fn(a.source@[j].1));
    }
    assert forall|k: int| 0 <= k < b.worklist@.len() implies ready_fn(#[trigger] b.worklist@[k].1) by {
        if a.worklist@.contains(b.worklist@[k]) {
            let j = choose|j: int| 0 <= j < a.worklist@.len() && a.worklist@[j] == b.worklist@[k];
            assert(ready_fn(a.worklist@[j].1));
        } else {
            let j = choose|j: int| 0 <= j < a.source@.len() && #[trigger] a.source@[j].1 == b.worklist@[k].1;
            assert(ready_fn(a.source@[j].1));
        }
    }
}

/// `rpo` orders fragments of `f` from the entry, each once, closed under
/// the edges leaving them.
pub open spec fn entry_order(f: Function, rpo: Seq<Label>) -> bool {
    &&& rpo.len() > 0 && rpo[0] == Label::Entry
    &&& rpo.no_duplicates()
    &&& forall|k: int| 0 <= k < rpo.len() ==> f.has(#[trigger] rpo[k])
    &&& forall|k: int, j: int|
        0 <= k < rpo.len() && 0 <= j < succs_of(f, rpo[k]).len() ==> rpo.contains(#[trigger] succs_of(f, rpo[k])[j])
}

/// `cs` holds, for each slot of `f`, copies that resolve the phis on the
/// edges leaving it, for the variables below `bound`.
pub open spec fn resolving(f: Function, cs: Seq<Vec<crate::copies::Copy>>, bound: int) -> bool {
    &&& cs.len() == f.blocks@.len()
    &&& forall|p: int| 0 <= p < cs.len() ==> below((#[trigger] cs[p])@, f.vars as int) && copies_for(f, label_of(p), cs[p]@, bound)
}

/// Laying out `f` in the order `rpo` with the copies `cs` is refused: the
/// code does not fit a `usize`, 256 variables are live at once under live
/// ranges that cover it, an instruction is refused before anything was
/// compiled (`ctx0`), a jump goes where no code starts within reach of an
/// `Index`, or the constants or indices of what was compiled (`ctx1`)
/// overflow.
pub open spec fn code_refused(
    f: Function,
    rpo: Seq<Label>,
    cs: Seq<Vec<crate::copies::Copy>>,
    ctx0: Generation,
    ctx1: Generation,
) -> bool {
    ||| anchor(f, rpo, cs, rpo.len() as int) > usize::MAX
    ||| exists|iv: Intervals, p: int, vs: Seq<int>|
        iv.defs@.len() == f.vars && iv.uses@.len() == f.vars && ranges_cover(iv, f, rpo, cs, rpo.len() as int)
            && #[trigger] crowded(iv, p, vs)
    ||| exists|k: int, j: int|
        0 <= k < rpo.len() && 0 <= j < f.frag(rpo[k])->0.instructions@.len()
            && #[trigger] refused_ins(f.frag(rpo[k])->0.instructions@[j], ctx0)
    ||| exists|k: int| 0 <= k < rpo.len() && !#[trigger] term_placed(f, rpo, cs, f.frag(rpo[k])->0.terminator->0)
    ||| overflowed(ctx1)
}

impl Function {
    /// Compiles the function: turns the phis into copies, orders the
    /// fragments from the entry, gives the variables registers that never
    /// clash and lays the code out. `None` when one of those steps fails.
    #[verifier::rlimit(40)]
    pub fn codegen(&mut self, ctx: &mut Generation) -> (r: Option<Callable>)
        requires
            old(self).wf(),
            3 * old(self).blocks@.len() < usize::MAX,
        ensures
            final(self).wf(),
            progress(*old(ctx), *final(ctx)),
            prepared(*old(self), *final(self)),
            pooled_once(old(ctx).consts.pool@) ==> pooled_once(final(ctx).consts.pool@),
            r matches Some(c) ==> loads_below(views(c.bytecodes@), final(ctx).consts.pool@.len() as int),
            numbered(old(ctx).functions) && numbered(old(ctx).groups) ==> (r matches Some(c) ==> pointers_below(
                views(c.bytecodes@),
                final(ctx).functions.indices@.len() as int,
                final(ctx).groups.indices@.len() as int,
            )),
            r matches Some(c) ==> c.args == old(self).args && exists|
                rpo: Seq<Label>,
                cs: Seq<Vec<crate::copies::Copy>>,
                iv: Intervals,
                regs: Seq<Reg>,
                starts: Seq<Option<usize>>,
            |
                {
                    &&& rpo.len() > 0 && rpo[0] == Label::Entry
                    &&& laid_out(*final(self), rpo, cs, regs, starts, views(c.bytecodes@))
                    &&& ranges_cover(iv, *final(self), rpo, cs, rpo.len() as int)
                    &&& apart(iv, regs)
                },
            r is None ==> (exists|p: int| 0 <= p < final(self).blocks@.len() && #[trigger] copies_clash(*final(self), p))
                || exists|rpo: Seq<Label>, cs: Seq<Vec<crate::copies::Copy>>|
                #![trigger code_refused(*final(self), rpo, cs, *old(ctx), *final(ctx))]
                entry_order(*final(self), rpo) && resolving(*final(self), cs, old(self).vars as int) && code_refused(
                    *final(self),
                    rpo,
                    cs,
                    *old(ctx),
                    *final(ctx),
                ),
    {
        proof {
            lemma_progress_refl(*ctx);
        }
        let copies = match self.copies() {
            Some(c) => c,
            None => {
                return None;
            },
        };
        let rpo = self.rpo();
        proof {
            assert(entry_order(*self, rpo@));
            assert(resolving(*self, copies@, old(self).vars as int));
        }
        let iv = match self.precompute(&rpo, &copies) {
            Some(iv) => iv,
            None => {
                assert(code_refused(*self, rpo@, copies@, *old(ctx), *ctx));
                return None;
            },
        };
        let (regs, used) = match allocate(&iv) {
            Some(x) => x,
            None => {
                proof {
                    let (p, vs) = choose|p: int, vs: Seq<int>| #[trigger] crowded(iv, p, vs);
                    assert(crowded(iv, p, vs));
                    assert(code_refused(*self, rpo@, copies@, *old(ctx), *ctx));
                }
                return None;
            },
        };
        let bytecodes = match self.lowering(ctx, &regs, &rpo, &copies) {
            Some(b) => b,
            None => {
                assert(code_refused(*self, rpo@, copies@, *old(ctx), *ctx));
                return None;
            },
        };
        let c = Callable { args: self.args, registers: used, bytecodes };
        proof {
            let starts = choose|starts: Seq<Option<usize>>| laid_out(*self, rpo@, copies@, regs@, starts, views(c.bytecodes@));
            assert(laid_out(*self, rpo@, copies@, regs@, starts, views(c.bytecodes@)));
            assert(ranges_cover(iv, *self, rpo@, copies@, rpo@.len() as int));
            assert(apart(iv, regs@));
            assert(rpo@.len() > 0 && rpo@[0] == Label::Entry);
            assert(c.args == old(self).args);
            assert(exists|
                rpo2: Seq<Label>,
                cs2: Seq<Vec<crate::copies::Copy>>,
                iv2: Intervals,
                regs2: Seq<Reg>,
                starts2: Seq<Option<usize>>,
            |
                {
                    &&& rpo2.len() > 0 && rpo2[0] == Label::Entry
                    &&& laid_out(*self, rpo2, cs2, regs2, starts2, views(c.bytecodes@))
                    &&& ranges_cover(iv2, *self, rpo2, cs2, rpo2.len() as int)
                    &&& apart(iv2, regs2)
                });
        }
        Some(c)
    }
}

fn store<T>(v: &mut Vec<Option<T>>, index: usize, item: T)
    ensures
        final(v)@.len() >= old(v)@.len(),
        final(v)@.len() > index,
        final(v)@[index as int] == Some(item),
        forall|k: int| 0 <= k < old(v)@.len() && k != index ==> #[trigger] final(v)@[k] == old(v)@[k],
        forall|k: int| old(v)@.len() <= k < final(v)@.len() && k != index ==> #[trigger] final(v)@[k] is None,
        final(v)@.len() == if index < old(v)@.len() { old(v)@.len() as int } else { index + 1 },
{
    while v.len() <= index
        invariant
            v@.len() >= old(v)@.len(),
            v@.len() == old(v)@.len() || v@.len() <= index + 1,
            forall|k: int| 0 <= k < old(v)@.len() ==> #[trigger] v@[k] == old(v)@[k],
            forall|k: int| old(v)@.len() <= k < v@.len() ==> #[trigger] v@[k] is None,
        decreases index + 1 - v@.len(),
    {
        v.push(None);
    }
    v.set(index, Some(item));
}

fn settle<T>(v: Vec<Option<T>>) -> (r: Option<Vec<T>>)
    ensures
        r matches Some(w) ==> w@.len() == v@.len() && forall|k: int| 0 <= k < v@.len() ==> v@[k] == Some(#[trigger] w@[k]),
        r is None <==> exists|k: int| 0 <= k < v@.len() && #[trigger] v@[k] is None,
{
    let ghost orig = v@;
    let mut rest = v;
    let mut out: Vec<T> = Vec::new();
    let ghost mut i: int = 0;
    while rest.len() > 0
        invariant
            orig == v@,
            0 <= i <= orig.len(),
            rest@ == orig.skip(i),
            out@.len() == i,
            forall|k: int| 0 <= k < i ==> orig[k] == Some(#[trigger] out@[k]),
        decreases rest@.len(),
    {
        let x = rest.remove(0);
        assert(x == orig[i]);
        match x {
            Some(y) => {
                out.push(y);
            },
            None => {
                assert(orig[i] is None);
                return None;
            },
        }
        proof {
            i = i + 1;
            assert(rest@ =~= orig.skip(i));
        }
    }
    assert(i == orig.len());
    assert(!exists|k: int| 0 <= k < orig.len() && #[trigger] orig[k] is None) by {
        if exists|k: int| 0 <= k < orig.len() && #[trigger] orig[k] is None {
            let k = choose|k: int| 0 <= k < orig.len() && #[trigger] orig[k] is None;
            assert(orig[k] == Some(out@[k]));
        }
    }
    Some(out)
}


/// `c` is the code of `f`: `f` with its critical edges split, laid out
/// from the entry, with registers whose live ranges never overlap.
pub open spec fn compiled_from(c: Callable, f: Function) -> bool {
    exists|g: Function, rpo: Seq<Label>, cs: Seq<Vec<crate::copies::Copy>>, iv: Intervals, regs: Seq<Reg>, starts: Seq<Option<usize>>|
        #![trigger prepared(f, g), laid_out(g, rpo, cs, regs, starts, views(c.bytecodes@)), apart(iv, regs)]
        {
            &&& prepared(f, g)
            &&& rpo.len() > 0 && rpo[0] == Label::Entry
            &&& laid_out(g, rpo, cs, regs, starts, views(c.bytecodes@))
            &&& ranges_cover(iv, g, rpo, cs, rpo.len() as int)
            &&& apart(iv, regs)
        }
}

/// Compiling `g`, prepared from `f`, gives the code of `f`.
proof fn lemma_compiled_from(f: Function, g: Function, c: Callable)
    requires
        prepared(f, g),
        exists|rpo: Seq<Label>, cs: Seq<Vec<crate::copies::Copy>>, iv: Intervals, regs: Seq<Reg>, starts: Seq<Option<usize>>|
            {
                &&& rpo.len() > 0 && rpo[0] == Label::Entry
                &&& laid_out(g, rpo, cs, regs, starts, views(c.bytecodes@))
                &&& ranges_cover(iv, g, rpo, cs, rpo.len() as int)
                &&& apart(iv, regs)
            },
    ensures
        compiled_from(c, f),
{
    let (rpo, cs, iv, regs, starts) = choose|rpo: Seq<Label>, cs: Seq<Vec<crate::copies::Copy>>, iv: Intervals, regs: Seq<Reg>, starts: Seq<Option<usize>>|
        {
            &&& rpo.len() > 0 && rpo[0] == Label::Entry
            &&& laid_out(g, rpo, cs, regs, starts, views(c.bytecodes@))
            &&& ranges_cover(iv, g, rpo, cs, rpo.len() as int)
            &&& apart(iv, regs)
        };
    assert(prepared(f, g) && laid_out(g, rpo, cs, regs, starts, views(c.bytecodes@)) && apart(iv, regs));
}

/// `f` is one of the functions of `fns`.
pub open spec fn in_fns(fns: Seq<(usize, Function)>, f: Function) -> bool {
    exists|j: int| 0 <= j < fns.len() && fns[j].1 == f
}

/// `c` is the code of one of the functions of `fns`.
pub open spec fn from_some(c: Callable, fns: Seq<(usize, Function)>) -> bool {
    exists|j: int| 0 <= j < fns.len() && #[trigger] compiled_from(c, fns[j].1)
}

/// Every function a worker holds is one of `fns`.
pub open spec fn all_from(w: Worker<Function>, fns: Seq<(usize, Function)>) -> bool {
    &&& forall|k: int| 0 <= k < w.source@.len() ==> in_fns(fns, (#[trigger] w.source@[k]).1)
    &&& forall|k: int| 0 <= k < w.worklist@.len() ==> in_fns(fns, (#[trigger] w.worklist@[k]).1)
}

proof fn lemma_all_from(a: Worker<Function>, b: Worker<Function>, fns: Seq<(usize, Function)>)
    requires
        keeps(a, b),
        all_from(a, fns),
    ensures
        all_from(b, fns),
{
    assert forall|k: int| 0 <= k < b.source@.len() implies in_fns(fns, (#[trigger] b.source@[k]).1) by {
        assert(a.source@.contains(b.source@[k]));
        let i = choose|i: int| 0 <= i < a.source@.len() && a.source@[i] == b.source@[k];
        assert(in_fns(fns, a.source@[i].1));
    }
    assert forall|k: int| 0 <= k < b.worklist@.len() implies in_fns(fns, (#[trigger] b.worklist@[k]).1) by {
        if a.worklist@.contains(b.worklist@[k]) {
            let i = choose|i: int| 0 <= i < a.worklist@.len() && a.worklist@[i] == b.worklist@[k];
            assert(in_fns(fns, a.worklist@[i].1));
        } else {
            let i = choose|i: int| 0 <= i < a.source@.len() && #[trigger] a.source@[i].1 == b.worklist@[k].1;
            assert(in_fns(fns, a.source@[i].1));
        }
    }
}

/// Every index `w` has handed out waits in its worklist or has its item
/// in `done`, and `done` holds nothing past the indices handed out.
pub open spec fn handled<T, U>(w: Worker<T>, done: Seq<Option<U>>) -> bool {
    &&& done.len() <= w.indices@.len()
    &&& forall|q: int| 0 <= q < w.indices@.len() ==> #[trigger] queued_at(w, q) || (q < done.len() && done[q] is Some)
}

/// Every method of `g` has the index of a function below `n`.
pub open spec fn methods_below(g: Group, n: int) -> bool {
    forall|j: int| 0 <= j < g.methods@.len() ==> (#[trigger] g.methods@[j]).1 < n
}

proof fn lemma_pointers_mono(bs: Seq<BytecodeV>, nf: int, ng: int, nf2: int, ng2: int)
    requires
        pointers_below(bs, nf, ng),
        nf <= nf2,
        ng <= ng2,
    ensures
        pointers_below(bs, nf2, ng2),
{
    assert forall|k: int| 0 <= k < bs.len() implies ptr_below(#[trigger] bs[k], nf2, ng2) by {
        assert(ptr_below(bs[k], nf, ng));
    }
}

proof fn lemma_handled_grow<T, U>(a: Worker<T>, b: Worker<T>, done: Seq<Option<U>>)
    requires
        handled(a, done),
        keeps(a, b),
        hands_out(a, b),
    ensures
        handled(b, done),
{
    assert forall|q: int| 0 <= q < b.indices@.len() implies #[trigger] queued_at(b, q) || (q < done.len() && done[q] is Some) by {
        if q < a.indices@.len() {
            if queued_at(a, q) {
                let k = choose|k: int| 0 <= k < a.worklist@.len() && #[trigger] a.worklist@[k].0 == q;
                assert(b.worklist@[k] == a.worklist@[k]);
            }
        }
    }
}

/// Taking the last item off the worklist of `a` leaves every other index
/// handed out covered.
proof fn lemma_pop_handled<T, U>(a: Worker<T>, b: Worker<T>, done: Seq<Option<U>>)
    requires
        handled(a, done),
        numbered(a),
        queued(a),
        a.worklist@.len() > 0,
        b.indices == a.indices,
        b.worklist@ == a.worklist@.drop_last(),
    ensures
        numbered(b),
        queued(b),
        a.worklist@.last().0 < a.indices@.len(),
        forall|q: int|
            0 <= q < b.indices@.len() && q != a.worklist@.last().0 ==> #[trigger] queued_at(b, q) || (q < done.len()
                && done[q] is Some),
{
    assert(a.worklist@[a.worklist@.len() - 1].0 < a.indices@.len());
    assert forall|k: int| 0 <= k < b.worklist@.len() implies #[trigger] b.worklist@[k].0 < b.indices@.len() by {
        assert(b.worklist@[k] == a.worklist@[k]);
    }
    assert forall|q: int|
        0 <= q < b.indices@.len() && q != a.worklist@.last().0 implies #[trigger] queued_at(b, q) || (q < done.len()
            && done[q] is Some) by {
        if queued_at(a, q) {
            let k = choose|k: int| 0 <= k < a.worklist@.len() && #[trigger] a.worklist@[k].0 == q;
            if k < b.worklist@.len() {
                assert(b.worklist@[k] == a.worklist@[k]);
            }
        }
    }
}

/// Storing the item of `index` in `done` covers again what a pop left.
proof fn lemma_store_handled<T, U>(
    a: Worker<T>,
    b: Worker<T>,
    done0: Seq<Option<U>>,
    done: Seq<Option<U>>,
    index: int,
)
    requires
        forall|q: int|
            0 <= q < a.indices@.len() && q != index ==> #[trigger] queued_at(a, q) || (q < done0.len() && done0[q] is Some),
        0 <= index < a.indices@.len(),
        done0.len() <= a.indices@.len(),
        keeps(a, b),
        hands_out(a, b),
        done.len() == if index < done0.len() { done0.len() as int } else { index + 1 },
        done[index] is Some,
        forall|k: int| 0 <= k < done0.len() && k != index ==> #[trigger] done[k] == done0[k],
    ensures
        handled(b, done),
{
    assert forall|q: int| 0 <= q < b.indices@.len() implies #[trigger] queued_at(b, q) || (q < done.len() && done[q] is Some) by {
        if q < a.indices@.len() && q != index {
            if queued_at(a, q) {
                let k = choose|k: int| 0 <= k < a.worklist@.len() && #[trigger] a.worklist@[k].0 == q;
                assert(b.worklist@[k] == a.worklist@[k]);
            } else {
                assert(done[q] == done0[q]);
            }
        }
    }
}

/// Every item `w` holds, in its source or queued under the key of its
/// index, is one of `orig`.
pub open spec fn drawn_from<T>(w: Worker<T>, orig: Seq<(usize, T)>) -> bool {
    &&& forall|k: int| 0 <= k < w.source@.len() ==> orig.contains(#[trigger] w.source@[k])
    &&& forall|k: int|
        0 <= k < w.worklist@.len() ==> orig.contains((w.indices@[(#[trigger] w.worklist@[k]).0 as int].0, w.worklist@[k].1))
}

/// Each callable of `text` is the code of the function of `fns` under the
/// key that got its index in `w`.
pub open spec fn coded(w: Worker<Function>, text: Seq<Option<Callable>>, fns: Seq<(usize, Function)>) -> bool {
    forall|q: int|
        0 <= q < text.len() && #[trigger] text[q] is Some ==> exists|j: int|
            0 <= j < fns.len() && fns[j].0 == w.indices@[q].0 && compiled_from(text[q]->0, fns[j].1)
}

/// `c` is the code of the function of `fns` under `key`.
pub open spec fn coded_by(c: Callable, fns: Seq<(usize, Function)>, key: usize) -> bool {
    exists|j: int| 0 <= j < fns.len() && fns[j].0 == key && #[trigger] compiled_from(c, fns[j].1)
}

/// Each callable of `text` is the code of a function of `fns`, and no two
/// of them come from functions under the same key: every function named is
/// compiled once.
pub open spec fn once_each(text: Seq<Callable>, fns: Seq<(usize, Function)>) -> bool {
    exists|keys: Seq<usize>|
        #![trigger keys.no_duplicates()]
        {
            &&& keys.len() == text.len()
            &&& keys.no_duplicates()
            &&& forall|k: int| 0 <= k < text.len() ==> #[trigger] coded_by(text[k], fns, keys[k])
        }
}

proof fn lemma_drawn_grow(
    a: Worker<Function>,
    b: Worker<Function>,
    orig: Seq<(usize, Function)>,
    text: Seq<Option<Callable>>,
)
    requires
        keeps(a, b),
        hands_out(a, b),
        queued(a),
        drawn_from(a, orig),
        text.len() <= a.indices@.len(),
        coded(a, text, orig),
    ensures
        drawn_from(b, orig),
        coded(b, text, orig),
{
    assert forall|k: int| 0 <= k < b.source@.len() implies orig.contains(#[trigger] b.source@[k]) by {
        assert(a.source@.contains(b.source@[k]));
        let j = choose|j: int| 0 <= j < a.source@.len() && a.source@[j] == b.source@[k];
        assert(orig.contains(a.source@[j]));
    }
    assert forall|k: int| 0 <= k < b.worklist@.len() implies orig.contains(
        (b.indices@[(#[trigger] b.worklist@[k]).0 as int].0, b.worklist@[k].1),
    ) by {
        if k < a.worklist@.len() {
            assert(b.worklist@[k] == a.worklist@[k]);
            assert(a.worklist@[k].0 < a.indices@.len());
            assert(b.indices@[a.worklist@[k].0 as int] == a.indices@[a.worklist@[k].0 as int]);
            assert(orig.contains((a.indices@[(a.worklist@[k]).0 as int].0, a.worklist@[k].1)));
        } else {
            let x = (b.indices@[b.worklist@[k].0 as int].0, b.worklist@[k].1);
            assert(a.source@.contains(x));
            let j = choose|j: int| 0 <= j < a.source@.len() && a.source@[j] == x;
            assert(orig.contains(a.source@[j]));
        }
    }
    assert forall|q: int| 0 <= q < text.len() && #[trigger] text[q] is Some implies exists|j: int|
        0 <= j < orig.len() && orig[j].0 == b.indices@[q].0 && compiled_from(text[q]->0, orig[j].1) by {
        assert(b.indices@[q] == a.indices@[q]);
    }
}

impl Demiurge {
    /// Compiles the program: `main` first, then each group and function as
    /// it is first named, numbered in that order; constants are pooled.
    /// `None` when a function fails to compile, or names a group or a
    /// function the program does not have.
    #[verifier::rlimit(80)]
    #[verifier::spinoff_prover]
    pub fn codegen(self) -> (r: Option<Elysia>)
        requires
            ready_fn(self.main),
            forall|i: int| 0 <= i < self.fns@.len() ==> ready_fn(#[trigger] self.fns@[i].1),
        ensures
            r matches Some(e) ==> {
                &&& e.main.args == self.main.args
                &&& compiled_from(e.main, self.main)
                &&& forall|k: int| 0 <= k < e.text@.len() ==> from_some(#[trigger] e.text@[k], self.fns@)
                &&& pooled_once(e.data@)
                &&& loads_below(views(e.main.bytecodes@), e.data@.len() as int)
                &&& forall|k: int| 0 <= k < e.text@.len() ==> loads_below(views((#[trigger] e.text@[k]).bytecodes@), e.data@.len() as int)
                &&& pointers_below(views(e.main.bytecodes@), e.text@.len() as int, e.groups@.len() as int)
                &&& forall|k: int|
                    0 <= k < e.text@.len() ==> pointers_below(
                        views((#[trigger] e.text@[k]).bytecodes@),
                        e.text@.len() as int,
                        e.groups@.len() as int,
                    )
                &&& forall|k: int| 0 <= k < e.groups@.len() ==> methods_below(#[trigger] e.groups@[k], e.text@.len() as int)
                &&& once_each(e.text@, self.fns@)
            },
    {
        let ghost fns0 = self.fns@;
        let ghost main0 = self.main;
        let Demiurge { groups, fns, main } = self;
        let mut main = main;
        let mut ctx = Generation {
            consts: Pooling { pool: Vec::new() },
            groups: Worker { indices: Vec::new(), source: groups, worklist: Vec::new() },
            functions: Worker { indices: Vec::new(), source: fns, worklist: Vec::new() },
        };
        let ghost c0 = ctx;
        proof {
            assert(pooled_once(ctx.consts.pool@));
            assert forall|k: int| 0 <= k < c0.functions.source@.len() implies in_fns(fns0, (#[trigger] c0.functions.source@[k]).1) by {
                assert(fns0[k].1 == c0.functions.source@[k].1);
            }
            assert(all_from(c0.functions, fns0));
            assert(numbered(c0.functions) && numbered(c0.groups) && queued(c0.functions) && queued(c0.groups));
            assert(keys_apart(c0.functions));
            assert forall|k: int| 0 <= k < c0.functions.source@.len() implies fns0.contains(#[trigger] c0.functions.source@[k]) by {
                assert(fns0[k] == c0.functions.source@[k]);
            }
            assert(drawn_from(c0.functions, fns0));
        }
        let m = main.codegen(&mut ctx)?;
        let mut text: Vec<Option<Callable>> = Vec::new();
        let mut gps: Vec<Option<Group>> = Vec::new();
        proof {
            lemma_all_ready(c0.functions, ctx.functions);
            lemma_all_from(c0.functions, ctx.functions, fns0);
            lemma_compiled_from(main0, main, m);
            lemma_drawn_grow(c0.functions, ctx.functions, fns0, text@);
            assert(handled(ctx.functions, text@)) by {
                assert forall|q: int| 0 <= q < ctx.functions.indices@.len() implies #[trigger] queued_at(ctx.functions, q)
                    || (q < text@.len() && text@[q] is Some) by {}
            }
            assert(handled(ctx.groups, gps@)) by {
                assert forall|q: int| 0 <= q < ctx.groups.indices@.len() implies #[trigger] queued_at(ctx.groups, q)
                    || (q < gps@.len() && gps@[q] is Some) by {}
            }
        }
        loop
            invariant
                all_ready(ctx.functions),
                all_from(ctx.functions, fns0),
                forall|k: int| 0 <= k < text@.len() && #[trigger] text@[k] is Some ==> from_some(text@[k]->0, fns0),
                pooled_once(ctx.consts.pool@),
                loads_below(views(m.bytecodes@), ctx.consts.pool@.len() as int),
                forall|k: int| 0 <= k < text@.len() && #[trigger] text@[k] is Some ==> loads_below(views(text@[k]->0.bytecodes@), ctx.consts.pool@.len() as int),
                compiled_from(m, main0),
                m.args == main0.args,
                numbered(ctx.functions),
                numbered(ctx.groups),
                queued(ctx.functions),
                queued(ctx.groups),
                handled(ctx.functions, text@),
                handled(ctx.groups, gps@),
                keys_apart(ctx.functions),
                drawn_from(ctx.functions, fns0),
                coded(ctx.functions, text@, fns0),
                pointers_below(views(m.bytecodes@), ctx.functions.indices@.len() as int, ctx.groups.indices@.len() as int),
                forall|k: int|
                    0 <= k < text@.len() && #[trigger] text@[k] is Some ==> pointers_below(
                        views(text@[k]->0.bytecodes@),
                        ctx.functions.indices@.len() as int,
                        ctx.groups.indices@.len() as int,
                    ),
                forall|k: int|
                    0 <= k < gps@.len() && #[trigger] gps@[k] is Some ==> methods_below(gps@[k]->0, ctx.functions.indices@.len() as int),
            ensures
                ctx.groups.worklist@.len() == 0,
                ctx.functions.worklist@.len() == 0,
            decreases ctx.groups.source@.len() + ctx.groups.worklist@.len() + ctx.functions.source@.len()
                + ctx.functions.worklist@.len(),
        {
            let ghost gpre = ctx.groups;
            match ctx.groups.worklist.pop() {
                Some((index, group)) => {
                    let mut group = group;
                    let ghost gw = ctx.groups;
                    let ghost f0 = ctx.functions;
                    proof {
                        lemma_pop_handled(gpre, gw, gps@);
                        lemma_keeps_refl(f0);
                    }
                    let ghost gsum = ctx.groups.source@.len() + ctx.groups.worklist@.len();
                    let ghost fsum = ctx.functions.source@.len() + ctx.functions.worklist@.len();
                    let ghost cg = ctx.consts;
                    let mut k: usize = 0;
                    while k < group.methods.len()
                        invariant
                            k <= group.methods@.len(),
                            all_ready(ctx.functions),
                            all_from(ctx.functions, fns0),
                            ctx.consts == cg,
                            ctx.groups == gw,
                            ctx.groups.source@.len() + ctx.groups.worklist@.len() == gsum,
                            ctx.functions.source@.len() + ctx.functions.worklist@.len() == fsum,
                            keeps(f0, ctx.functions),
                            hands_out(f0, ctx.functions),
                            numbered(f0),
                            numbered(ctx.functions),
                            forall|j: int| 0 <= j < k ==> (#[trigger] group.methods@[j]).1 < ctx.functions.indices@.len(),
                        decreases group.methods@.len() - k,
                    {
                        let (name, key) = group.methods[k];
                        let ghost w0 = ctx.functions;
                        let f = ctx.functions.get(key as usize)?;
                        proof {
                            lemma_all_ready(w0, ctx.functions);
                            lemma_all_from(w0, ctx.functions, fns0);
                            lemma_keeps_trans(f0, w0, ctx.functions);
                            lemma_hands_out_trans(f0, w0, ctx.functions);
                            let q = choose|q: int| 0 <= q < ctx.functions.indices@.len() && ctx.functions.indices@[q] == (key as usize, f);
                            assert(ctx.functions.indices@[q].1 == q);
                        }
                        let i = to_index(f)?;
                        let ghost ms = group.methods@;
                        group.methods.set(k, (name, i));
                        proof {
                            assert forall|j: int| 0 <= j < k + 1 implies (#[trigger] group.methods@[j]).1 < ctx.functions.indices@.len() by {
                                if j < k {
                                    assert(group.methods@[j] == ms[j]);
                                }
                            }
                        }
                        k = k + 1;
                    }
                    let ghost g0 = gps@;
                    store(&mut gps, index, group);
                    proof {
                        let fl = ctx.functions.indices@.len() as int;
                        let gl = ctx.groups.indices@.len() as int;
                        lemma_keeps_refl(gw);
                        lemma_store_handled(gw, gw, g0, gps@, index as int);
                        lemma_handled_grow(f0, ctx.functions, text@);
                        lemma_drawn_grow(f0, ctx.functions, fns0, text@);
                        lemma_pointers_mono(views(m.bytecodes@), f0.indices@.len() as int, gl, fl, gl);
                        assert forall|q: int|
                            0 <= q < text@.len() && #[trigger] text@[q] is Some implies pointers_below(
                                views(text@[q]->0.bytecodes@),
                                fl,
                                gl,
                            ) by {
                            lemma_pointers_mono(views(text@[q]->0.bytecodes@), f0.indices@.len() as int, gl, fl, gl);
                        }
                        assert forall|q: int| 0 <= q < gps@.len() && #[trigger] gps@[q] is Some implies methods_below(gps@[q]->0, fl) by {
                            if q != index {
                                assert(gps@[q] == g0[q]);
                                assert(methods_below(g0[q]->0, f0.indices@.len() as int));
                            }
                        }
                    }
                },
                None => {
                    proof {
                        assert(ctx.groups.worklist@ == gpre.worklist@);
                        assert(handled(ctx.groups, gps@)) by {
                            assert forall|q: int| 0 <= q < ctx.groups.indices@.len() implies #[trigger] queued_at(ctx.groups, q)
                                || (q < gps@.len() && gps@[q] is Some) by {
                                assert(queued_at(gpre, q) || (q < gps@.len() && gps@[q] is Some));
                            }
                        }
                    }
                    let ghost fpre = ctx.functions;
                    match ctx.functions.worklist.pop() {
                        Some((index, function)) => {
                            let mut function = function;
                            let ghost cb = ctx;
                            proof {
                                assert(ready_fn(function)) by {
                                    assert(cb.functions.worklist@.len() >= 0);
                                }
                                lemma_pop_handled(fpre, cb.functions, text@);
                                let last = fpre.worklist@.len() - 1;
                                assert(fpre.worklist@[last] == (index, function));
                                assert(fns0.contains((fpre.indices@[fpre.worklist@[last].0 as int].0, fpre.worklist@[last].1)));
                                assert(fns0.contains((cb.functions.indices@[index as int].0, function)));
                                assert forall|k: int| 0 <= k < cb.functions.worklist@.len() implies fns0.contains(
                                    (cb.functions.indices@[(#[trigger] cb.functions.worklist@[k]).0 as int].0, cb.functions.worklist@[k].1),
                                ) by {
                                    assert(cb.functions.worklist@[k] == fpre.worklist@[k]);
                                    assert(fns0.contains((fpre.indices@[(fpre.worklist@[k]).0 as int].0, fpre.worklist@[k].1)));
                                }
                                assert(drawn_from(cb.functions, fns0));
                                assert(coded(cb.functions, text@, fns0)) by {
                                    assert forall|q: int| 0 <= q < text@.len() && #[trigger] text@[q] is Some implies exists|j: int|
                                        0 <= j < fns0.len() && fns0[j].0 == cb.functions.indices@[q].0 && compiled_from(text@[q]->0, fns0[j].1) by {
                                        assert(cb.functions.indices@[q] == fpre.indices@[q]);
                                    }
                                }
                            }
                            let ghost f_orig = function;
                            let c = function.codegen(&mut ctx)?;
                            proof {
                                lemma_all_ready(cb.functions, ctx.functions);
                                lemma_all_from(cb.functions, ctx.functions, fns0);
                                lemma_compiled_from(f_orig, function, c);
                                lemma_handled_grow(cb.groups, ctx.groups, gps@);
                                lemma_drawn_grow(cb.functions, ctx.functions, fns0, text@);
                                assert(ctx.functions.indices@[index as int] == cb.functions.indices@[index as int]);
                            }
                            let ghost t0 = text@;
                            store(&mut text, index, c);
                            proof {
                                let fl = ctx.functions.indices@.len() as int;
                                let gl = ctx.groups.indices@.len() as int;
                                let fl0 = cb.functions.indices@.len() as int;
                                let gl0 = cb.groups.indices@.len() as int;
                                lemma_store_handled(cb.functions, ctx.functions, t0, text@, index as int);
                                assert forall|q: int| 0 <= q < text@.len() && #[trigger] text@[q] is Some implies exists|j: int|
                                    0 <= j < fns0.len() && fns0[j].0 == ctx.functions.indices@[q].0 && compiled_from(text@[q]->0, fns0[j].1) by {
                                    if q == index {
                                        let j = choose|j: int| 0 <= j < fns0.len() && fns0[j] == (cb.functions.indices@[index as int].0, f_orig);
                                        assert(compiled_from(text@[q]->0, fns0[j].1));
                                    } else {
                                        assert(text@[q] == t0[q]);
                                    }
                                }
                                lemma_pointers_mono(views(m.bytecodes@), fl0, gl0, fl, gl);
                                assert forall|k: int|
                                    0 <= k < text@.len() && #[trigger] text@[k] is Some implies pointers_below(
                                        views(text@[k]->0.bytecodes@),
                                        fl,
                                        gl,
                                    ) by {
                                    if k != index {
                                        assert(text@[k] == t0[k]);
                                        lemma_pointers_mono(views(t0[k]->0.bytecodes@), fl0, gl0, fl, gl);
                                    }
                                }
                                assert forall|q: int| 0 <= q < gps@.len() && #[trigger] gps@[q] is Some implies methods_below(gps@[q]->0, fl) by {
                                    assert(methods_below(gps@[q]->0, fl0));
                                }
                            }
                            assert forall|k: int| 0 <= k < text@.len() && #[trigger] text@[k] is Some implies from_some(text@[k]->0, fns0) by {
                                if k != index && k < t0.len() {
                                    assert(text@[k] == t0[k]);
                                } else if k == index {
                                    assert(in_fns(fns0, f_orig));
                                    let j = choose|j: int| 0 <= j < fns0.len() && fns0[j].1 == f_orig;
                                    assert(compiled_from(text@[k]->0, fns0[j].1));
                                }
                            }
                            assert forall|k: int| 0 <= k < text@.len() && #[trigger] text@[k] is Some implies loads_below(views(text@[k]->0.bytecodes@), ctx.consts.pool@.len() as int) by {
                                if k != index && k < t0.len() {
                                    assert(text@[k] == t0[k]);
                                    assert(loads_below(views(t0[k]->0.bytecodes@), cb.consts.pool@.len() as int));
                                }
                            }
                        },
                        None => {
                            proof {
                                assert(ctx.functions.worklist@ == fpre.worklist@);
                                assert(handled(ctx.functions, text@)) by {
                                    assert forall|q: int| 0 <= q < ctx.functions.indices@.len() implies #[trigger] queued_at(ctx.functions, q)
                                        || (q < text@.len() && text@[q] is Some) by {
                                        assert(queued_at(fpre, q) || (q < text@.len() && text@[q] is Some));
                                    }
                                }
                            }
                            break;
                        },
                    }
                },
            }
        }
        let ghost tv = text@;
        let ghost gv = gps@;
        proof {
            assert forall|q: int| 0 <= q < ctx.functions.indices@.len() implies q < tv.len() && tv[q] is Some by {
                assert(queued_at(ctx.functions, q) || (q < tv.len() && tv[q] is Some));
            }
            assert forall|q: int| 0 <= q < ctx.groups.indices@.len() implies q < gv.len() && gv[q] is Some by {
                assert(queued_at(ctx.groups, q) || (q < gv.len() && gv[q] is Some));
            }
            if tv.len() < ctx.functions.indices@.len() {
                let q = tv.len() as int;
                assert(queued_at(ctx.functions, q) || (q < tv.len() && tv[q] is Some));
            }
            if gv.len() < ctx.groups.indices@.len() {
                let q = gv.len() as int;
                assert(queued_at(ctx.groups, q) || (q < gv.len() && gv[q] is Some));
            }
        }
        let text = settle(text)?;
        assert forall|k: int| 0 <= k < text@.len() implies from_some(#[trigger] text@[k], fns0) by {
            assert(tv[k] == Some(text@[k]));
            assert(tv[k] is Some);
        }
        assert forall|k: int| 0 <= k < text@.len() implies loads_below(views((#[trigger] text@[k]).bytecodes@), ctx.consts.pool@.len() as int) by {
            assert(tv[k] == Some(text@[k]));
            assert(tv[k] is Some);
        }
        let groups = settle(gps)?;
        let ghost tx = text@;
        let ghost gx = groups@;
        let ghost fl = ctx.functions.indices@.len() as int;
        let ghost gl = ctx.groups.indices@.len() as int;
        proof {
            assert(tx.len() == fl);
            assert(gx.len() == gl);
            assert forall|k: int| 0 <= k < tx.len() implies pointers_below(views((#[trigger] tx[k]).bytecodes@), fl, gl) by {
                assert(tv[k] == Some(tx[k]));
            }
            assert forall|k: int| 0 <= k < gx.len() implies methods_below(#[trigger] gx[k], fl) by {
                assert(gv[k] == Some(gx[k]));
            }
        }
        proof {
            let keys = Seq::new(fl as nat, |q: int| ctx.functions.indices@[q].0);
            assert(keys.no_duplicates()) by {
                assert forall|a: int, b: int| 0 <= a < keys.len() && 0 <= b < keys.len() && a != b implies keys[a] != keys[b] by {
                    if a < b {
                        assert(ctx.functions.indices@[a].0 != ctx.functions.indices@[b].0);
                    } else {
                        assert(ctx.functions.indices@[b].0 != ctx.functions.indices@[a].0);
                    }
                }
            }
            assert forall|k: int| 0 <= k < tx.len() implies #[trigger] coded_by(tx[k], fns0, keys[k]) by {
                assert(tv[k] == Some(tx[k]));
                assert(tv[k] is Some);
                assert(coded(ctx.functions, tv, fns0));
                let j = choose|j: int| 0 <= j < fns0.len() && fns0[j].0 == ctx.functions.indices@[k].0 && compiled_from(tv[k]->0, fns0[j].1);
                assert(keys[k] == ctx.functions.indices@[k].0);
                assert(compiled_from(tx[k], fns0[j].1));
            }
            assert(keys.len() == tx.len());
            assert(once_each(tx, fns0));
        }
        let e = Elysia { main: m, text, data: ctx.consts.pool, groups };
        assert(e.text@ == tx);
        assert(e.groups@ == gx);
        assert(forall|k: int| 0 <= k < e.text@.len() ==> from_some(#[trigger] e.text@[k], fns0)) by {
            assert(e.text@ == tx);
        }
        assert(compiled_from(e.main, self.main));
        assert(e.main.args == main0.args);
        assert(compiled_from(e.main, main0));
        assert(pooled_once(e.data@));
        assert(loads_below(views(e.main.bytecodes@), e.data@.len() as int));
        assert(forall|k: int| 0 <= k < e.text@.len() ==> loads_below(views((#[trigger] e.text@[k]).bytecodes@), e.data@.len() as int));
        Some(e)
    }
}

} // verus!
