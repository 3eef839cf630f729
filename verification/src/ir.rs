use vstd::prelude::*;

verus! {

/// A basic-block name inside a function.
#[derive(Clone, Copy, PartialEq, Eq, Structural, Debug, Hash)]
pub enum Label {
    Entry,
    Id(usize),
    Exit,
}

/// An SSA variable.
pub type Var = usize;

/// Binary operators of the language.
#[derive(Clone, Copy, PartialEq, Eq, Structural, Debug, Hash)]
pub enum BinOp {
    Or,
    And,
    Gt,
    Ge,
    Lt,
    Le,
    Eq,
    Ne,
    Add,
    Sub,
    Mul,
    Div,
    Mod,
    At,
}

/// Unary operators of the language.
#[derive(Clone, Copy, PartialEq, Eq, Structural, Debug, Hash)]
pub enum UnaOp {
    Not,
    Pos,
    Neg,
}

/// What a pointer object refers to.
#[derive(Clone, Copy, PartialEq, Eq, Structural, Debug, Hash)]
pub enum Pointer {
    Group,
    Function,
    Rust,
}

/// A compile-time constant. Floats are kept as their IEEE-754 bit pattern.
#[derive(Clone, Debug)]
pub enum Const {
    Int(i32),
    Float(u32),
    Bool(bool),
    Str(String),
}

/// The mathematical value of a constant.
pub enum ConstV {
    Int(i32),
    Float(u32),
    Bool(bool),
    Str(Seq<char>),
}

impl View for Const {
    type V = ConstV;

    open spec fn view(&self) -> ConstV {
        match self {
            Const::Int(x) => ConstV::Int(*x),
            Const::Float(x) => ConstV::Float(*x),
            Const::Bool(x) => ConstV::Bool(*x),
            Const::Str(s) => ConstV::Str(s@),
        }
    }
}

impl Const {
    /// A copy of the constant with the same value.
    pub fn dup(&self) -> (r: Const)
        ensures
            r@ == self@,
    {
        match self {
            Const::Int(x) => Const::Int(*x),
            Const::Float(x) => Const::Float(*x),
            Const::Bool(x) => Const::Bool(*x),
            Const::Str(s) => Const::Str(s.clone()),
        }
    }

    /// Whether two constants have the same value.
    pub fn same(&self, other: &Const) -> (b: bool)
        ensures
            b == (self@ == other@),
    {
        match (self, other) {
            (Const::Int(x), Const::Int(y)) => *x == *y,
            (Const::Float(x), Const::Float(y)) => *x == *y,
            (Const::Bool(x), Const::Bool(y)) => *x == *y,
            (Const::Str(x), Const::Str(y)) => x.eq(y),
            _ => false,
        }
    }
}

/// An instruction of the SSA intermediate representation; the first field is
/// always the variable it defines.
#[derive(Clone, Debug)]
pub enum Instruction {
    Arg(Var, usize),
    Field(Var, Var, u32),
    Unpack(Var, Var, usize),
    Pointer(Var, Pointer, usize),
    Load(Var, Const),
    Binary(Var, Var, BinOp, Var),
    Unary(Var, UnaOp, Var),
    Call(Var, Var, Vec<Var>),
    List(Var, Vec<Var>),
    Tuple(Var, Vec<Var>),
    Index(Var, Var, Var),
    Method(Var, Var, u32, Vec<Var>),
}

impl Instruction {
    /// The variable the instruction defines.
    pub open spec fn def(self) -> Var {
        match self {
            Instruction::Arg(d, _) => d,
            Instruction::Field(d, _, _) => d,
            Instruction::Unpack(d, _, _) => d,
            Instruction::Pointer(d, _, _) => d,
            Instruction::Load(d, _) => d,
            Instruction::Binary(d, _, _, _) => d,
            Instruction::Unary(d, _, _) => d,
            Instruction::Call(d, _, _) => d,
            Instruction::List(d, _) => d,
            Instruction::Tuple(d, _) => d,
            Instruction::Index(d, _, _) => d,
            Instruction::Method(d, _, _, _) => d,
        }
    }

    /// The variables the instruction reads, in operand order.
    pub open spec fn reads(self) -> Seq<Var> {
        match self {
            Instruction::Arg(_, _) => seq![],
            Instruction::Field(_, s, _) => seq![s],
            Instruction::Unpack(_, s, _) => seq![s],
            Instruction::Pointer(_, _, _) => seq![],
            Instruction::Load(_, _) => seq![],
            Instruction::Binary(_, l, _, r) => seq![l, r],
            Instruction::Unary(_, _, s) => seq![s],
            Instruction::Call(_, s, args) => seq![s] + args@,
            Instruction::List(_, args) => args@,
            Instruction::Tuple(_, args) => args@,
            Instruction::Index(_, s, i) => seq![s, i],
            Instruction::Method(_, s, _, args) => seq![s] + args@,
        }
    }

    /// Instructions without side effects: everything but calls.
    pub open spec fn is_functional(self) -> bool {
        !(self is Call || self is Method)
    }

    /// The variable the instruction defines.
    pub fn dst(&self) -> (d: Var)
        ensures
            d == self.def(),
    {
        match self {
            Instruction::Arg(d, _) => *d,
            Instruction::Field(d, _, _) => *d,
            Instruction::Unpack(d, _, _) => *d,
            Instruction::Pointer(d, _, _) => *d,
            Instruction::Load(d, _) => *d,
            Instruction::Binary(d, _, _, _) => *d,
            Instruction::Unary(d, _, _) => *d,
            Instruction::Call(d, _, _) => *d,
            Instruction::List(d, _) => *d,
            Instruction::Tuple(d, _) => *d,
            Instruction::Index(d, _, _) => *d,
            Instruction::Method(d, _, _, _) => *d,
        }
    }

    /// Whether the instruction may be removed when its result is unused.
    pub fn functional(&self) -> (b: bool)
        ensures
            b == self.is_functional(),
    {
        !matches!(self, Instruction::Call(..) | Instruction::Method(..))
    }
}

/// The last statement of a fragment.
#[derive(Clone, Copy, PartialEq, Eq, Structural, Debug)]
pub enum Terminator {
    Branch(Var, Label, Label),
    Jump(Label),
    Return(Var),
}

impl Terminator {
    /// The variables the terminator reads.
    pub open spec fn reads(self) -> Seq<Var> {
        match self {
            Terminator::Branch(c, _, _) => seq![c],
            Terminator::Jump(_) => seq![],
            Terminator::Return(v) => seq![v],
        }
    }

    /// The labels control may flow to.
    pub open spec fn targets(self) -> Seq<Label> {
        match self {
            Terminator::Branch(_, y, n) => seq![y, n],
            Terminator::Jump(t) => seq![t],
            Terminator::Return(_) => seq![],
        }
    }
}

/// A phi node: `var` takes the value of the input whose label is the
/// predecessor control came from.
#[derive(Clone, Debug)]
pub struct Phi {
    pub var: Var,
    pub inputs: Vec<(Label, Var)>,
}

/// A basic block.
#[derive(Clone, Debug)]
pub struct Fragment {
    pub phis: Vec<Phi>,
    pub instructions: Vec<Instruction>,
    pub terminator: Option<Terminator>,
    pub predecessors: Vec<Label>,
}

impl Fragment {
    /// A fragment with nothing in it.
    pub fn new() -> (f: Fragment)
        ensures
            f.phis@.len() == 0,
            f.instructions@.len() == 0,
            f.terminator is None,
            f.predecessors@.len() == 0,
    {
        Fragment { phis: Vec::new(), instructions: Vec::new(), terminator: None, predecessors: Vec::new() }
    }
}

/// Position of a label in the dense label numbering of a function:
/// `Entry` is 0, `Exit` is 1 and fragment `Id(i)` is `i + 2`.
pub open spec fn slot_of(label: Label) -> int {
    match label {
        Label::Entry => 0,
        Label::Exit => 1,
        Label::Id(i) => i + 2,
    }
}

/// The label stored at a slot.
pub open spec fn label_of(s: int) -> Label {
    if s == 0 {
        Label::Entry
    } else if s == 1 {
        Label::Exit
    } else {
        Label::Id((s - 2) as usize)
    }
}

pub proof fn lemma_slot_label(label: Label)
    ensures
        label_of(slot_of(label)) == label,
        slot_of(label) >= 0,
{
}

pub proof fn lemma_label_slot(s: int)
    requires
        0 <= s <= usize::MAX,
    ensures
        slot_of(label_of(s)) == s,
{
}

/// The slot of a label.
pub fn slot(label: Label) -> (s: usize)
    requires
        label matches Label::Id(i) ==> i + 2 <= usize::MAX,
    ensures
        s == slot_of(label),
{
    match label {
        Label::Entry => 0,
        Label::Exit => 1,
        Label::Id(i) => i + 2,
    }
}

/// The label stored at a slot.
pub fn label_at(s: usize) -> (l: Label)
    ensures
        slot_of(l) == s,
        l == label_of(s as int),
{
    if s == 0 {
        Label::Entry
    } else if s == 1 {
        Label::Exit
    } else {
        Label::Id(s - 2)
    }
}

/// A function in SSA form: its fragments are stored by slot, so that
/// `blocks[0]` is the entry, `blocks[1]` the exit and `blocks[i + 2]` the
/// fragment `Id(i)`; a removed fragment leaves `None` behind.
#[derive(Clone, Debug)]
pub struct Function {
    pub args: u8,
    pub vars: usize,
    pub blocks: Vec<Option<Fragment>>,
}

impl Function {
    /// The fragment a label names, if it exists.
    pub open spec fn frag(self, label: Label) -> Option<Fragment> {
        let s = slot_of(label);
        if 0 <= s < self.blocks@.len() {
            self.blocks@[s]
        } else {
            None
        }
    }

    /// Whether a label names a fragment of the function.
    pub open spec fn has(self, label: Label) -> bool {
        self.frag(label) is Some
    }

    /// Every variable a fragment mentions is below `vars`, its terminator is
    /// present, and the labels it points to exist.
    pub open spec fn frag_ok(self, f: Fragment) -> bool {
        &&& f.terminator is Some
        &&& forall|k: int|
            0 <= k < f.terminator->0.targets().len() ==> self.has(
                #[trigger] f.terminator->0.targets()[k],
            )
        &&& forall|k: int|
            0 <= k < f.terminator->0.reads().len() ==> #[trigger] f.terminator->0.reads()[k]
                < self.vars
        &&& forall|k: int| 0 <= k < f.predecessors@.len() ==> self.has(#[trigger] f.predecessors@[k])
        &&& forall|k: int|
            0 <= k < f.phis@.len() ==> {
                &&& (#[trigger] f.phis@[k]).var < self.vars
                &&& forall|j: int|
                    0 <= j < f.phis@[k].inputs@.len() ==> (#[trigger] f.phis@[k].inputs@[j]).1
                        < self.vars
            }
        &&& forall|k: int|
            0 <= k < f.instructions@.len() ==> {
                &&& (#[trigger] f.instructions@[k]).def() < self.vars
                &&& forall|j: int|
                    0 <= j < f.instructions@[k].reads().len() ==> #[trigger] f.instructions@[k].reads()[j]
                        < self.vars
            }
    }

    /// Well-formedness: the entry and exit exist, and every fragment is
    /// well-formed.
    pub open spec fn wf(self) -> bool {
        &&& self.blocks@.len() >= 2
        &&& self.blocks@.len() < usize::MAX
        &&& self.blocks@[0] is Some
        &&& self.blocks@[1] is Some
        &&& forall|s: int|
            0 <= s < self.blocks@.len() && #[trigger] self.blocks@[s] is Some ==> self.frag_ok(
                self.blocks@[s]->0,
            )
    }

    /// The fragment a label names.
    pub fn get(&self, label: Label) -> (r: Option<&Fragment>)
        ensures
            match r {
                Some(f) => self.frag(label) == Some(*f),
                None => self.frag(label) is None,
            },
    {
        let s = match label {
            Label::Entry => 0,
            Label::Exit => 1,
            Label::Id(i) => {
                if i >= self.blocks.len() || i > usize::MAX - 2 {
                    return None;
                }
                i + 2
            },
        };
        if s < self.blocks.len() {
            self.blocks[s].as_ref()
        } else {
            None
        }
    }

    /// Whether a label names a fragment of the function.
    pub fn contains(&self, label: Label) -> (b: bool)
        ensures
            b == self.has(label),
    {
        self.get(label).is_some()
    }

    /// A fresh variable.
    pub fn var(&mut self) -> (v: Var)
        requires
            old(self).vars < usize::MAX,
        ensures
            v == old(self).vars,
            final(self).vars == old(self).vars + 1,
            final(self).blocks == old(self).blocks,
            final(self).args == old(self).args,
    {
        let v = self.vars;
        self.vars = self.vars + 1;
        v
    }
}

/// The labels of the fragments `Id(i)` that `blocks` holds below slot `n`,
/// in increasing order.
pub open spec fn ids_upto(blocks: Seq<Option<Fragment>>, n: int) -> Seq<Label>
    decreases n,
{
    if n <= 2 {
        Seq::empty()
    } else {
        let p = ids_upto(blocks, n - 1);
        if blocks[n - 1] is Some {
            p.push(label_of(n - 1))
        } else {
            p
        }
    }
}

impl Function {
    /// The labels of the fragments `Id(i)`, in increasing order.
    pub open spec fn ids(self) -> Seq<Label> {
        ids_upto(self.blocks@, self.blocks@.len() as int)
    }

    /// The labels of the fragments the function holds: the entry, the
    /// fragments `Id(i)` in increasing order, then the exit.
    pub open spec fn listed(self) -> Seq<Label> {
        (if self.has(Label::Entry) { seq![Label::Entry] } else { Seq::empty() }) + self.ids() + (if self.has(
            Label::Exit,
        ) {
            seq![Label::Exit]
        } else {
            Seq::empty()
        })
    }

    /// The labels in layout order: the entry, the fragments by increasing
    /// number, then the exit.
    pub fn order(&self) -> (r: Vec<Label>)
        ensures
            r@ == seq![Label::Entry] + self.ids() + seq![Label::Exit],
    {
        let mut r: Vec<Label> = Vec::new();
        r.push(Label::Entry);
        let mut s: usize = 2;
        while s < self.blocks.len()
            invariant
                2 <= s,
                s <= self.blocks@.len() || self.blocks@.len() < 2,
                self.blocks@.len() < 2 ==> s == 2,
                r@ == seq![Label::Entry] + ids_upto(self.blocks@, s as int),
            decreases self.blocks@.len() - s,
        {
            if self.blocks[s].is_some() {
                r.push(label_at(s));
            }
            s = s + 1;
            assert(r@ =~= seq![Label::Entry] + ids_upto(self.blocks@, s as int));
        }
        proof {
            if self.blocks@.len() < 2 {
                assert(ids_upto(self.blocks@, self.blocks@.len() as int) == Seq::<Label>::empty());
            }
        }
        r.push(Label::Exit);
        assert(r@ =~= seq![Label::Entry] + self.ids() + seq![Label::Exit]);
        r
    }

    /// Each fragment the function holds with its label, in the order of
    /// `listed`.
    pub fn safe(&self) -> (r: Vec<(Label, &Fragment)>)
        ensures
            r@.len() == self.listed().len(),
            forall|k: int| 0 <= k < r@.len() ==> (#[trigger] r@[k]).0 == self.listed()[k] && self.frag(r@[k].0) == Some(*r@[k].1),
    {
        let mut r: Vec<(Label, &Fragment)> = Vec::new();
        if self.blocks.len() > 0 {
            if let Some(f) = &self.blocks[0] {
                r.push((Label::Entry, f));
            }
        }
        let ghost head = r@.len();
        let mut s: usize = 2;
        while s < self.blocks.len()
            invariant
                2 <= s,
                s <= self.blocks@.len() || self.blocks@.len() < 2,
                self.blocks@.len() < 2 ==> s == 2,
                head == (if self.has(Label::Entry) { 1int } else { 0int }),
                r@.len() == head + ids_upto(self.blocks@, s as int).len(),
                head == 1 ==> r@[0].0 == Label::Entry && self.frag(Label::Entry) == Some(*r@[0].1),
                forall|k: int| 0 <= k < ids_upto(self.blocks@, s as int).len() ==> (#[trigger] r@[head + k]).0 == ids_upto(self.blocks@, s as int)[k] && self.frag(r@[head + k].0) == Some(*r@[head + k].1),
            decreases self.blocks@.len() - s,
        {
            let ghost before = r@;
            if let Some(f) = &self.blocks[s] {
                r.push((label_at(s), f));
            }
            s = s + 1;
            assert forall|k: int| 0 <= k < ids_upto(self.blocks@, s as int).len() implies (#[trigger] r@[head + k]).0 == ids_upto(self.blocks@, s as int)[k] && self.frag(r@[head + k].0) == Some(*r@[head + k].1) by {
                if k < ids_upto(self.blocks@, s - 1).len() {
                    assert(r@[head + k] == before[head + k]);
                }
            }
        }
        proof {
            if self.blocks@.len() < 2 {
                assert(ids_upto(self.blocks@, self.blocks@.len() as int) == Seq::<Label>::empty());
            }
        }
        let ghost mid = r@;
        if self.blocks.len() > 1 {
            if let Some(f) = &self.blocks[1] {
                r.push((Label::Exit, f));
            }
        }
        let ghost pre: Seq<Label> = if self.has(Label::Entry) { seq![Label::Entry] } else { Seq::empty() };
        let ghost post: Seq<Label> = if self.has(Label::Exit) { seq![Label::Exit] } else { Seq::empty() };
        assert(ids_upto(self.blocks@, s as int) == self.ids());
        assert(self.listed() == pre + self.ids() + post);
        assert(r@.len() == self.listed().len());
        assert forall|k: int| 0 <= k < r@.len() implies (#[trigger] r@[k]).0 == self.listed()[k] && self.frag(r@[k].0) == Some(*r@[k].1) by {
            if k < head {
                assert(r@[k] == mid[k]);
            } else if k < mid.len() {
                assert(r@[k] == mid[k]);
                assert(mid[head + (k - head)] == mid[k]);
                assert(self.listed()[k] == self.ids()[k - head]);
            } else {
                assert(self.listed()[k] == Label::Exit);
            }
        }
        r
    }
}

/// For a well-formed function, `safe` lists its fragments in the order
/// `order` gives: the entry, the fragments by number, the exit.
pub proof fn lemma_listed_in_order(f: Function)
    requires
        f.wf(),
    ensures
        f.listed() == seq![Label::Entry] + f.ids() + seq![Label::Exit],
{
}

} // verus!
