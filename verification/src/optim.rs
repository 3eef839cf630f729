use vstd::prelude::*;
use crate::matrix::{Matrix, MatrixError};

verus! {

/// Gradients collected by a backward pass: matrices by parameter key, a key
/// appearing once per contribution.
pub struct Gradients<T> {
    container: Vec<(usize, Matrix<T>)>,
}

impl<T: Copy> Gradients<T> {
    /// The contributions, in the order they were collected.
    pub closed spec fn entries(self) -> Seq<(usize, Matrix<T>)> {
        self.container@
    }

    /// One contribution.
    pub fn new(id: usize, grad: Matrix<T>) -> (g: Self)
        ensures
            g.entries() == seq![(id, grad)],
    {
        let mut container: Vec<(usize, Matrix<T>)> = Vec::new();
        container.push((id, grad));
        Gradients { container }
    }

    /// No contribution.
    pub fn empty() -> (g: Self)
        ensures
            g.entries() == Seq::<(usize, Matrix<T>)>::empty(),
    {
        Gradients { container: Vec::new() }
    }

    /// Appends the contributions of `other`.
    pub fn concat(&mut self, other: Self)
        ensures
            final(self).entries() == old(self).entries() + other.entries(),
    {
        let mut other = other;
        self.container.append(&mut other.container);
    }

    /// The gradient of each key: the contributions to a key summed cell by
    /// cell with `plus`, in the order they were collected, each key once.
    /// Refused at the first contribution whose shape differs from that of
    /// the first contribution to its key.
    pub fn make<F: Fn(T, T) -> T + Copy>(self, plus: F) -> (r: Result<Vec<(usize, Matrix<T>)>, MatrixError>)
        requires
            forall|k: int| 0 <= k < self.entries().len() ==> (#[trigger] self.entries()[k]).1.wf(),
            forall|x: T, y: T| plus.requires((x, y)),
        ensures
            match r {
                Ok(v) => {
                    &&& forall|a: int, b: int| !clash(self.entries(), a, b)
                    &&& forall|a: int, b: int| 0 <= a < b < v@.len() ==> (#[trigger] v@[a]).0 != (#[trigger] v@[b]).0
                    &&& forall|k: int| 0 <= k < self.entries().len() ==> keyed(v@, #[trigger] self.entries()[k].0)
                    &&& forall|a: int| 0 <= a < v@.len() ==> #[trigger] gathered(self.entries(), plus, v@[a])
                },
                Err(e) => exists|a: int, b: int| {
                    &&& #[trigger] clash(self.entries(), a, b)
                    &&& forall|q: int| 0 <= q < a ==> (#[trigger] self.entries()[q]).0 != self.entries()[a].0
                    &&& forall|x: int, y: int| y < b ==> !clash(self.entries(), x, y)
                    &&& e == MatrixError::Broadcast(
                        self.entries()[a].1.dims().0,
                        self.entries()[a].1.dims().1,
                        self.entries()[b].1.dims().0,
                        self.entries()[b].1.dims().1,
                    )
                },
            },
    {
        let ghost es = self.entries();
        let mut rest = self.container;
        let n = rest.len();
        let mut result: Vec<(usize, Matrix<T>)> = Vec::new();
        let mut i: usize = 0;
        while rest.len() > 0
            invariant
                0 <= i <= es.len(),
                es.len() <= usize::MAX,
                es == self.entries(),
                rest@ == es.skip(i as int),
                forall|k: int| 0 <= k < es.len() ==> (#[trigger] es[k]).1.wf(),
                forall|x: T, y: T| plus.requires((x, y)),
                forall|x: int, y: int| y < i ==> !clash(es, x, y),
                forall|a: int, b: int| 0 <= a < b < result@.len() ==> (#[trigger] result@[a]).0 != (#[trigger] result@[b]).0,
                forall|k: int| 0 <= k < i ==> keyed(result@, #[trigger] es[k].0),
                forall|a: int| 0 <= a < result@.len() ==> #[trigger] gathered(es.take(i as int), plus, result@[a]),
            decreases rest@.len(),
        {
            let (id, grad) = rest.remove(0);
            assert(es.skip(i as int)[0] == es[i as int]);
            assert(rest@ =~= es.skip(i + 1));
            proof {
                lemma_parts_step(es, i as int, id);
            }
            let mut found: Option<usize> = None;
            let mut a: usize = 0;
            while a < result.len() && found.is_none()
                invariant
                    a <= result@.len(),
                    found.is_none() ==> forall|q: int| 0 <= q < a ==> (#[trigger] result@[q]).0 != id,
                    found.is_some() ==> found.unwrap() < result@.len() && result@[found.unwrap() as int].0 == id,
                decreases result@.len() - a,
            {
                if result[a].0 == id {
                    found = Some(a);
                }
                a = a + 1;
            }
            let ghost before = result@;
            let ghost mut a_at: int = before.len() as int;
            match found {
                Some(a) => {
                    let (key, mut m) = result.remove(a);
                    assert(gathered(es.take(i as int), plus, before[a as int]));
                    let ghost first = choose|f: int| first_of(es.take(i as int), key, f);
                    match m.broadcast(&grad, plus) {
                        Ok(()) => {},
                        Err(e) => {
                            assert(es.take(i as int)[first] == es[first]);
                            assert(clash(es, first, i as int));
                            assert forall|q: int| 0 <= q < first implies (#[trigger] es[q]).0 != es[first].0 by {
                                assert(es.take(i as int)[q] == es[q]);
                            }
                            return Err(e);
                        },
                    }
                    proof {
                        lemma_gathered_add(es, plus, i as int, before[a as int], m);
                        assert forall|b: int| 0 <= b < before.len() && b != a implies #[trigger] gathered(es.take(i + 1), plus, before[b]) by {
                            assert(before[b].0 != before[a as int].0);
                            lemma_gathered_other(es, plus, i as int, before[b]);
                        }
                    }
                    result.insert(a, (key, m));
                    assert(result@ =~= before.update(a as int, (key, m)));
                    assert(result@[a as int].0 == es[i as int].0);
                    proof {
                        a_at = a as int;
                    }
                    assert forall|x: int| x < i + 1 implies !clash(es, x, i as int) by {
                        if 0 <= x < i && es[x].0 == id {
                            assert(es.take(i as int)[x] == es[x]);
                        }
                    }
                },
                None => {
                    proof {
                        assert forall|k: int| 0 <= k < i implies (#[trigger] es[k]).0 != id by {
                            let w = choose|w: int| 0 <= w < before.len() && (#[trigger] before[w]).0 == es[k].0;
                            assert(before[w].0 != id);
                        }
                        lemma_gathered_new(es, plus, i as int);
                        assert forall|b: int| 0 <= b < before.len() implies #[trigger] gathered(es.take(i + 1), plus, before[b]) by {
                            lemma_gathered_other(es, plus, i as int, before[b]);
                        }
                    }
                    result.push((id, grad));
                    assert(result@[before.len() as int].0 == es[i as int].0);
                },
            }
            assert forall|k: int| 0 <= k < i + 1 implies keyed(result@, #[trigger] es[k].0) by {
                if k < i {
                    let w = choose|w: int| 0 <= w < before.len() && (#[trigger] before[w]).0 == es[k].0;
                    assert(result@[w].0 == before[w].0);
                } else {
                    assert(result@[a_at].0 == es[k].0);
                }
            }
            i = i + 1;
        }
        assert(es.take(i as int) =~= es);
        assert(i == es.len());
        assert(forall|a: int, b: int| !clash(self.entries(), a, b));
        assert(forall|a: int| 0 <= a < result@.len() ==> #[trigger] gathered(self.entries(), plus, result@[a]));
        Ok(result)
    }
}

/// Contributions `a` and `b` go to one key and differ in shape.
pub open spec fn clash<T: Copy>(es: Seq<(usize, Matrix<T>)>, a: int, b: int) -> bool {
    &&& 0 <= a < b < es.len()
    &&& es[a].0 == es[b].0
    &&& es[a].1.dims() != es[b].1.dims()
}

/// The cells of the contributions to `key`, in order.
pub open spec fn parts<T: Copy>(es: Seq<(usize, Matrix<T>)>, key: usize) -> Seq<Seq<T>>
    decreases es.len(),
{
    if es.len() == 0 {
        Seq::empty()
    } else {
        let p = parts(es.drop_last(), key);
        if es.last().0 == key {
            p.push(es.last().1.cells())
        } else {
            p
        }
    }
}

/// `r` adds `b` to `a` cell by cell with `plus`.
pub open spec fn added<T, F: Fn(T, T) -> T>(plus: F, a: Seq<T>, b: Seq<T>, r: Seq<T>) -> bool {
    &&& a.len() == r.len()
    &&& forall|c: int| 0 <= c < r.len() ==> plus.ensures((a[c], b[c]), #[trigger] r[c])
}

/// `chain` holds the running sums of `parts`, from the first part on.
pub open spec fn running<T, F: Fn(T, T) -> T>(plus: F, parts: Seq<Seq<T>>, chain: Seq<Seq<T>>) -> bool {
    &&& parts.len() >= 1
    &&& chain.len() == parts.len()
    &&& chain[0] == parts[0]
    &&& forall|j: int| #![trigger chain[j]] 1 <= j < parts.len() ==> added(plus, chain[j - 1], parts[j], chain[j])
}

/// `total` sums `parts` cell by cell with `plus`, from the first to the last.
pub open spec fn summed<T, F: Fn(T, T) -> T>(plus: F, parts: Seq<Seq<T>>, total: Seq<T>) -> bool {
    exists|chain: Seq<Seq<T>>| #[trigger] running(plus, parts, chain) && chain.last() == total
}

/// `key` is the key of some gradient of `v`.
pub open spec fn keyed<T>(v: Seq<(usize, Matrix<T>)>, key: usize) -> bool {
    exists|a: int| 0 <= a < v.len() && (#[trigger] v[a]).0 == key
}

/// `f` is the first contribution to `key`.
pub open spec fn first_of<T: Copy>(es: Seq<(usize, Matrix<T>)>, key: usize, f: int) -> bool {
    &&& 0 <= f < es.len()
    &&& es[f].0 == key
    &&& forall|q: int| 0 <= q < f ==> (#[trigger] es[q]).0 != key
}

/// `g` is the gradient of its key over `es`: every contribution to the key
/// has its shape, and its cells sum theirs.
pub open spec fn gathered<T: Copy, F: Fn(T, T) -> T>(es: Seq<(usize, Matrix<T>)>, plus: F, g: (usize, Matrix<T>)) -> bool {
    &&& g.1.wf()
    &&& exists|f: int| first_of(es, g.0, f)
    &&& forall|k: int| 0 <= k < es.len() && (#[trigger] es[k]).0 == g.0 ==> es[k].1.dims() == g.1.dims()
    &&& summed(plus, parts(es, g.0), g.1.cells())
}

/// One more contribution adds its cells to those of its key.
proof fn lemma_parts_step<T: Copy>(es: Seq<(usize, Matrix<T>)>, i: int, key: usize)
    requires
        0 <= i < es.len(),
    ensures
        parts(es.take(i + 1), key) == (if es[i].0 == key {
            parts(es.take(i), key).push(es[i].1.cells())
        } else {
            parts(es.take(i), key)
        }),
{
    assert(es.take(i + 1).drop_last() =~= es.take(i));
}

/// A contribution to another key leaves a gradient as it is.
proof fn lemma_gathered_other<T: Copy, F: Fn(T, T) -> T>(es: Seq<(usize, Matrix<T>)>, plus: F, i: int, g: (usize, Matrix<T>))
    requires
        0 <= i < es.len(),
        gathered(es.take(i), plus, g),
        es[i].0 != g.0,
    ensures
        gathered(es.take(i + 1), plus, g),
{
    lemma_parts_step(es, i, g.0);
    let f = choose|f: int| first_of(es.take(i), g.0, f);
    assert(first_of(es.take(i + 1), g.0, f));
}

/// A contribution of the same shape to the key of `g` is added cell by cell.
proof fn lemma_gathered_add<T: Copy, F: Fn(T, T) -> T>(
    es: Seq<(usize, Matrix<T>)>,
    plus: F,
    i: int,
    g: (usize, Matrix<T>),
    m: Matrix<T>,
)
    requires
        0 <= i < es.len(),
        gathered(es.take(i), plus, g),
        es[i].0 == g.0,
        m.wf(),
        m.dims() == g.1.dims(),
        es[i].1.dims() == g.1.dims(),
        m.cells().len() == g.1.cells().len(),
        forall|c: int| 0 <= c < g.1.cells().len() ==> plus.ensures((g.1.cells()[c], es[i].1.cells()[c]), #[trigger] m.cells()[c]),
    ensures
        gathered(es.take(i + 1), plus, (g.0, m)),
{
    lemma_parts_step(es, i, g.0);
    let f = choose|f: int| first_of(es.take(i), g.0, f);
    assert(first_of(es.take(i + 1), g.0, f));
    let p = parts(es.take(i + 1), g.0);
    assert(p.drop_last() =~= parts(es.take(i), g.0));
    lemma_summed_push(plus, parts(es.take(i), g.0), es[i].1.cells(), g.1.cells(), m.cells());
    assert(p =~= parts(es.take(i), g.0).push(es[i].1.cells()));
    assert forall|k: int| 0 <= k < i + 1 && (#[trigger] es.take(i + 1)[k]).0 == g.0 implies es.take(i + 1)[k].1.dims() == m.dims() by {
        if k < i {
            assert(es.take(i + 1)[k] == es.take(i)[k]);
        }
    }
}

/// The first contribution to a key is its gradient.
proof fn lemma_gathered_new<T: Copy, F: Fn(T, T) -> T>(es: Seq<(usize, Matrix<T>)>, plus: F, i: int)
    requires
        0 <= i < es.len(),
        es[i].1.wf(),
        forall|q: int| 0 <= q < i ==> (#[trigger] es[q]).0 != es[i].0,
    ensures
        gathered(es.take(i + 1), plus, es[i]),
{
    lemma_parts_step(es, i, es[i].0);
    lemma_parts_absent(es.take(i), es[i].0);
    assert(first_of(es.take(i + 1), es[i].0, i));
    assert(parts(es.take(i + 1), es[i].0) =~= seq![es[i].1.cells()]);
    assert(running(plus, seq![es[i].1.cells()], seq![es[i].1.cells()]));
}

/// Adding one more part to a sum.
proof fn lemma_summed_push<T, F: Fn(T, T) -> T>(plus: F, parts: Seq<Seq<T>>, last: Seq<T>, prev: Seq<T>, total: Seq<T>)
    requires
        summed(plus, parts, prev),
        added(plus, prev, last, total),
    ensures
        summed(plus, parts.push(last), total),
{
    let chain = choose|chain: Seq<Seq<T>>| #[trigger] running(plus, parts, chain) && chain.last() == prev;
    let q = parts.push(last);
    let next = chain.push(total);
    assert forall|j: int| #![trigger next[j]] 1 <= j < q.len() implies added(plus, next[j - 1], q[j], next[j]) by {
        if j < parts.len() {
            assert(chain[j] == next[j]);
        }
    }
    assert(running(plus, q, next));
}

/// A key that nothing contributes to has no parts.
proof fn lemma_parts_absent<T: Copy>(es: Seq<(usize, Matrix<T>)>, key: usize)
    requires
        forall|q: int| 0 <= q < es.len() ==> (#[trigger] es[q]).0 != key,
    ensures
        parts(es, key).len() == 0,
    decreases es.len(),
{
    if es.len() > 0 {
        lemma_parts_absent(es.drop_last(), key);
    }
}

/// The generator of pseudo-random numbers: a linear congruence modulo
/// `2^32`.
pub struct Random {
    state: u64,
}

impl Random {
    /// The state.
    pub closed spec fn current(self) -> u64 {
        self.state
    }

    /// A generator seeded with `seed`.
    pub fn new(seed: u64) -> (r: Self)
        ensures
            r.current() == seed,
    {
        Random { state: seed }
    }

    /// Steps the generator and returns its new state, below `2^32`.
    pub fn advance(&mut self) -> (s: u64)
        ensures
            s == final(self).current(),
            s == 1664525u64.wrapping_mul(old(self).current()).wrapping_add(1013904223u64) % 4294967296u64,
            s < 4294967296u64,
    {
        self.state = 1664525u64.wrapping_mul(self.state).wrapping_add(1013904223u64) % 4294967296u64;
        self.state
    }
}

} // verus!
