use vstd::prelude::*;
use vstd::utf8::{decode_utf8, valid_utf8};
use crate::bytecode::{Bytecode, BytecodeV, Callable, CallableV, Group, GroupV, Id, Index, III, ProgramV, Reg};
use crate::format::{
    bin_of, dec_bytecode, dec_callable, dec_const, dec_counted, dec_group, dec_list, dec_pair,
    dec_program, ptr_of, una_of, word, LoadError,
};
use crate::ir::{BinOp, Const, ConstV, Pointer, UnaOp};

verus! {

/// A stream of bytes being read from the front.
pub struct Source {
    data: Vec<u8>,
    pos: usize,
}

impl View for Source {
    type V = Seq<u8>;

    /// The bytes not read yet.
    closed spec fn view(&self) -> Seq<u8> {
        self.data@.skip(self.pos as int)
    }
}

/// Whether a read agrees with what decoding the bytes before it gives, and
/// leaves the bytes after what it read.
pub open spec fn read_agrees<T: View>(
    r: Result<T, LoadError>,
    d: Result<(T::V, nat), LoadError>,
    before: Seq<u8>,
    after: Seq<u8>,
) -> bool {
    match d {
        Ok((v, k)) => r matches Ok(x) && x@ == v && k <= before.len() && after == before.skip(
            k as int,
        ),
        Err(e) => r matches Err(e2) && e2 == e,
    }
}

/// `after` is what is left of `before` once bytes were read from its front.
pub open spec fn rest_of(after: Seq<u8>, before: Seq<u8>) -> bool {
    after.len() <= before.len() && after =~= before.skip(before.len() - after.len())
}

/// `String::from_utf8` of std. Its contract claims what std documents: the
/// call succeeds exactly on bytes that are valid UTF-8, and the string then
/// holds the characters they encode.
#[verifier::external_body]
fn string_from_utf8(bytes: Vec<u8>) -> (r: Option<String>)
    ensures
        match r {
            Some(s) => valid_utf8(bytes@) && s@ == decode_utf8(bytes@),
            None => !valid_utf8(bytes@),
        },
{
    String::from_utf8(bytes).ok()
}

impl Source {
    #[verifier::type_invariant]
    spec fn inv(self) -> bool {
        self.pos <= self.data@.len()
    }

    /// `b` is this stream after reading on: the same bytes, no fewer of
    /// them read.
    pub closed spec fn reads_on(self, b: Source) -> bool {
        &&& b.data@ == self.data@
        &&& self.pos <= b.pos <= b.data@.len()
    }

    /// What is left after reading on is the end of what was left before.
    pub proof fn lemma_reads_on(a: Source, b: Source)
        requires
            a.reads_on(b),
        ensures
            rest_of(b@, a@),
    {
    }

    /// A stream that starts at the first byte.
    pub fn new(data: Vec<u8>) -> (s: Source)
        ensures
            s@ == data@,
    {
        let s = Source { data, pos: 0 };
        assert(s.data@.skip(0) =~= s.data@);
        s
    }

    /// How many bytes have not been read.
    pub fn remaining(&self) -> (n: usize)
        ensures
            n == self@.len(),
    {
        proof {
            use_type_invariant(self);
        }
        self.data.len() - self.pos
    }

    /// Reads one byte.
    pub fn u8(&mut self) -> (r: Result<u8, LoadError>)
        ensures
            old(self).reads_on(*final(self)),
            rest_of(final(self)@, old(self)@),
            old(self)@.len() >= 1 ==> r == Ok::<u8, LoadError>(old(self)@[0]) && final(self)@
                == old(self)@.skip(1),
            old(self)@.len() < 1 ==> r == Err::<u8, LoadError>(LoadError::UnexpectedEof),
    {
        proof {
            use_type_invariant(&*self);
        }
        if self.pos < self.data.len() {
            let b = self.data[self.pos];
            self.pos = self.pos + 1;
            assert(self.data@.skip(self.pos as int) =~= old(self)@.skip(1));
            Ok(b)
        } else {
            Err(LoadError::UnexpectedEof)
        }
    }

    /// Reads a big-endian `u32`.
    pub fn u32(&mut self) -> (r: Result<u32, LoadError>)
        ensures
            old(self).reads_on(*final(self)),
            rest_of(final(self)@, old(self)@),
            old(self)@.len() >= 4 ==> r == Ok::<u32, LoadError>(word(old(self)@, 0)) && final(self)@
                == old(self)@.skip(4),
            old(self)@.len() < 4 ==> r == Err::<u32, LoadError>(LoadError::UnexpectedEof),
    {
        proof {
            use_type_invariant(&*self);
        }
        if self.data.len() - self.pos >= 4 {
            let p = self.pos;
            let a = self.data[p];
            let b = self.data[p + 1];
            let c = self.data[p + 2];
            let d = self.data[p + 3];
            self.pos = p + 4;
            assert(self.data@.skip(self.pos as int) =~= old(self)@.skip(4));
            Ok(((a as u32) << 24u32) | ((b as u32) << 16u32) | ((c as u32) << 8u32) | (d as u32))
        } else {
            Err(LoadError::UnexpectedEof)
        }
    }

    /// Reads a big-endian `i32`.
    pub fn i32(&mut self) -> (r: Result<i32, LoadError>)
        ensures
            old(self).reads_on(*final(self)),
            rest_of(final(self)@, old(self)@),
            old(self)@.len() >= 4 ==> r == Ok::<i32, LoadError>(word(old(self)@, 0) as i32)
                && final(self)@ == old(self)@.skip(4),
            old(self)@.len() < 4 ==> r == Err::<i32, LoadError>(LoadError::UnexpectedEof),
    {
        let x = self.u32()?;
        Ok(x as i32)
    }

    /// Takes the next `n` bytes.
    fn take(&mut self, n: usize) -> (r: Result<Vec<u8>, LoadError>)
        ensures
            old(self).reads_on(*final(self)),
            rest_of(final(self)@, old(self)@),
            old(self)@.len() >= n ==> (r matches Ok(v) && v@ == old(self)@.take(n as int)
                && final(self)@ == old(self)@.skip(n as int)),
            old(self)@.len() < n ==> r == Err::<Vec<u8>, LoadError>(LoadError::UnexpectedEof),
    {
        proof {
            use_type_invariant(&*self);
        }
        if self.data.len() - self.pos < n {
            return Err(LoadError::UnexpectedEof);
        }
        let mut v: Vec<u8> = Vec::new();
        let mut i: usize = 0;
        while i < n
            invariant
                self.pos + n <= self.data@.len(),
                self.data@.len() <= usize::MAX,
                i <= n,
                v@ == self.data@.subrange(self.pos as int, self.pos + i),
                *self == *old(self),
            decreases n - i,
        {
            v.push(self.data[self.pos + i]);
            i = i + 1;
            assert(v@ =~= self.data@.subrange(self.pos as int, self.pos + i));
        }
        self.pos = self.pos + n;
        assert(v@ =~= old(self)@.take(n as int));
        assert(self.data@.skip(self.pos as int) =~= old(self)@.skip(n as int));
        Ok(v)
    }

    /// Reads bytes preceded by their `u32` count.
    pub fn str(&mut self) -> (r: Result<Vec<u8>, LoadError>)
        ensures
            old(self).reads_on(*final(self)),
            rest_of(final(self)@, old(self)@),
            old(self)@.len() >= 4 && old(self)@.len() >= 4 + word(old(self)@, 0) ==> (r matches Ok(v)
                && v@ == old(self)@.subrange(4, 4 + word(old(self)@, 0)) && final(self)@ == old(
                self,
            )@.skip(4 + word(old(self)@, 0))),
            !(old(self)@.len() >= 4 && old(self)@.len() >= 4 + word(old(self)@, 0)) ==> r == Err::<
                Vec<u8>,
                LoadError,
            >(LoadError::UnexpectedEof),
    {
        let ghost s = self@;
        let len = self.u32()?;
        let v = self.take(len as usize)?;
        assert(v@ =~= s.subrange(4, 4 + word(s, 0)));
        assert(self@ =~= s.skip(4 + word(s, 0)));
        Ok(v)
    }

    /// Reads bytes preceded by their one-byte count.
    pub fn vec(&mut self) -> (r: Result<Vec<u8>, LoadError>)
        ensures
            old(self).reads_on(*final(self)),
            rest_of(final(self)@, old(self)@),
            old(self)@.len() >= 1 && old(self)@.len() >= 1 + old(self)@[0] ==> (r matches Ok(v)
                && v@ == old(self)@.subrange(1, 1 + old(self)@[0]) && final(self)@ == old(
                self,
            )@.skip(1 + old(self)@[0])),
            !(old(self)@.len() >= 1 && old(self)@.len() >= 1 + old(self)@[0]) ==> r == Err::<
                Vec<u8>,
                LoadError,
            >(LoadError::UnexpectedEof),
    {
        let ghost s = self@;
        let len = self.u8()?;
        let v = self.take(len as usize)?;
        assert(v@ =~= s.subrange(1, 1 + s[0]));
        assert(self@ =~= s.skip(1 + s[0]));
        Ok(v)
    }
}

/// Once reading a list fails, reading a longer one fails the same way.
pub proof fn lemma_list_err<T>(
    s: Seq<u8>,
    m: nat,
    n: nat,
    f: spec_fn(Seq<u8>) -> Result<(T, nat), LoadError>,
)
    requires
        dec_list(s, m, f) is Err,
        m <= n,
    ensures
        dec_list(s, n, f) == dec_list(s, m, f),
    decreases n,
{
    if n > m {
        lemma_list_err(s, m, (n - 1) as nat, f);
    }
}

proof fn lemma_skip_more(s: Seq<u8>, a: int, b: int)
    requires
        0 <= a,
        0 <= b,
        a + b <= s.len(),
    ensures
        s.skip(a).skip(b) == s.skip(a + b),
{
    assert(s.skip(a).skip(b) =~= s.skip(a + b));
}

impl Pointer {
    /// Reads a pointer kind.
    pub fn load(src: &mut Source) -> (r: Result<Pointer, LoadError>)
        ensures
            old(src).reads_on(*final(src)),
            rest_of(final(src)@, old(src)@),
            old(src)@.len() < 1 ==> r == Err::<Pointer, LoadError>(LoadError::UnexpectedEof),
            old(src)@.len() >= 1 ==> match ptr_of(old(src)@[0]) {
                Some(p) => r == Ok::<Pointer, LoadError>(p) && final(src)@ == old(src)@.skip(1),
                None => r == Err::<Pointer, LoadError>(LoadError::InvalidData) && final(src)@ == old(src)@.skip(1),
            },
    {
        let x = src.u8()?;
        match x {
            0x0 => Ok(Pointer::Group),
            0x1 => Ok(Pointer::Function),
            0x2 => Ok(Pointer::Rust),
            _ => Err(LoadError::InvalidData),
        }
    }
}

impl BinOp {
    /// Reads a binary operator.
    pub fn load(src: &mut Source) -> (r: Result<BinOp, LoadError>)
        ensures
            old(src).reads_on(*final(src)),
            rest_of(final(src)@, old(src)@),
            old(src)@.len() < 1 ==> r == Err::<BinOp, LoadError>(LoadError::UnexpectedEof),
            old(src)@.len() >= 1 ==> match bin_of(old(src)@[0]) {
                Some(op) => r == Ok::<BinOp, LoadError>(op) && final(src)@ == old(src)@.skip(1),
                None => r == Err::<BinOp, LoadError>(LoadError::InvalidData) && final(src)@ == old(src)@.skip(1),
            },
    {
        let x = src.u8()?;
        let op = match x {
            0x0 => BinOp::Or,
            0x1 => BinOp::And,
            0x2 => BinOp::Gt,
            0x3 => BinOp::Ge,
            0x4 => BinOp::Lt,
            0x5 => BinOp::Le,
            0x6 => BinOp::Eq,
            0x7 => BinOp::Ne,
            0x8 => BinOp::Add,
            0x9 => BinOp::Sub,
            0xA => BinOp::Mul,
            0xB => BinOp::Div,
            0xC => BinOp::Mod,
            0xD => BinOp::At,
            _ => {
                return Err(LoadError::InvalidData);
            },
        };
        Ok(op)
    }
}

impl UnaOp {
    /// Reads a unary operator.
    pub fn load(src: &mut Source) -> (r: Result<UnaOp, LoadError>)
        ensures
            old(src).reads_on(*final(src)),
            rest_of(final(src)@, old(src)@),
            old(src)@.len() < 1 ==> r == Err::<UnaOp, LoadError>(LoadError::UnexpectedEof),
            old(src)@.len() >= 1 ==> match una_of(old(src)@[0]) {
                Some(op) => r == Ok::<UnaOp, LoadError>(op) && final(src)@ == old(src)@.skip(1),
                None => r == Err::<UnaOp, LoadError>(LoadError::InvalidData) && final(src)@ == old(src)@.skip(1),
            },
    {
        let x = src.u8()?;
        match x {
            0x0 => Ok(UnaOp::Not),
            0x1 => Ok(UnaOp::Pos),
            0x2 => Ok(UnaOp::Neg),
            _ => Err(LoadError::InvalidData),
        }
    }
}

impl Bytecode {
    /// Reads one bytecode: a tag byte, then its operands.
    #[verifier::rlimit(100)]
    #[verifier::spinoff_prover]
    pub fn load(src: &mut Source) -> (r: Result<Bytecode, LoadError>)
        ensures
            old(src).reads_on(*final(src)),
            rest_of(final(src)@, old(src)@),
            read_agrees(r, dec_bytecode(old(src)@), old(src)@, final(src)@),
            old(src)@.len() >= 1 && old(src)@[0] > 15 ==> final(src)@ == old(src)@.skip(1),
    {
        let ghost s = src@;
        let tag = src.u8()?;
        let bytecode = match tag {
            0x0 => {
                let d = src.u8()?;
                Bytecode::Arg(d, src.u32()?)
            },
            0x1 => {
                let d = src.u8()?;
                let x = src.u8()?;
                Bytecode::Field(d, x, src.u32()?)
            },
            0x2 => {
                let d = src.u8()?;
                let x = src.u8()?;
                Bytecode::Unpack(d, x, src.u32()?)
            },
            0x3 => {
                let d = src.u8()?;
                let p = Pointer::load(src)?;
                Bytecode::Pointer(d, p, src.u32()?)
            },
            0x4 => {
                let d = src.u8()?;
                Bytecode::Load(d, src.u32()?)
            },
            0x5 => {
                let d = src.u8()?;
                let l = src.u8()?;
                let op = BinOp::load(src)?;
                Bytecode::Binary(d, l, op, src.u8()?)
            },
            0x6 => {
                let d = src.u8()?;
                let op = UnaOp::load(src)?;
                Bytecode::Unary(d, op, src.u8()?)
            },
            0x7 => {
                let d = src.u8()?;
                let x = src.u8()?;
                let args = src.vec()?;
                assert(args@ =~= s.subrange(4, 4 + s[3]));
                Bytecode::Call(d, x, args)
            },
            0x8 => {
                let d = src.u8()?;
                let args = src.vec()?;
                assert(args@ =~= s.subrange(3, 3 + s[2]));
                Bytecode::List(d, args)
            },
            0x9 => {
                let d = src.u8()?;
                let args = src.vec()?;
                assert(args@ =~= s.subrange(3, 3 + s[2]));
                Bytecode::Tuple(d, args)
            },
            0xA => {
                let d = src.u8()?;
                let x = src.u8()?;
                Bytecode::Index(d, x, src.u8()?)
            },
            0xB => {
                let d = src.u8()?;
                let x = src.u8()?;
                let id = src.u32()?;
                let args = src.vec()?;
                assert(args@ =~= s.subrange(8, 8 + s[7]));
                Bytecode::Method(d, x, id, args)
            },
            0xC => {
                let c = src.u8()?;
                let y = src.u32()?;
                Bytecode::Branch(c, y, src.u32()?)
            },
            0xD => Bytecode::Jump(src.u32()?),
            0xE => Bytecode::Return(src.u8()?),
            0xF => {
                let d = src.u8()?;
                Bytecode::Copy(d, src.u8()?)
            },
            _ => {
                return Err(LoadError::InvalidData);
            },
        };
        proof {
            let k = dec_bytecode(s)->Ok_0.1;
            assert(src@ =~= s.skip(k as int));
        }
        Ok(bytecode)
    }
}

impl Const {
    /// Reads one constant: a tag byte, then the value.
    pub fn load(src: &mut Source) -> (r: Result<Const, LoadError>)
        ensures
            old(src).reads_on(*final(src)),
            rest_of(final(src)@, old(src)@),
            read_agrees(r, dec_const(old(src)@), old(src)@, final(src)@),
            old(src)@.len() >= 1 && old(src)@[0] > 3 ==> final(src)@ == old(src)@.skip(1),
    {
        let ghost s = src@;
        let tag = src.u8()?;
        let constant = match tag {
            0x0 => Const::Int(src.i32()?),
            0x1 => Const::Float(src.u32()?),
            0x2 => Const::Bool(src.u8()? != 0),
            0x3 => {
                let bytes = src.str()?;
                assert(word(s.skip(1), 0) == word(s, 1));
                assert(bytes@ =~= s.subrange(5, 5 + word(s, 1)));
                assert(src@ =~= s.skip(5 + word(s, 1)));
                match string_from_utf8(bytes) {
                    Some(text) => Const::Str(text),
                    None => {
                        return Err(LoadError::InvalidData);
                    },
                }
            },
            _ => {
                return Err(LoadError::InvalidData);
            },
        };
        proof {
            let k = dec_const(s)->Ok_0.1;
            assert(src@ =~= s.skip(k as int));
        }
        Ok(constant)
    }
}

impl Callable {
    /// Reads a callable: its number of arguments and of registers, then its
    /// code preceded by its length.
    pub fn load(src: &mut Source) -> (r: Result<Callable, LoadError>)
        ensures
            old(src).reads_on(*final(src)),
            rest_of(final(src)@, old(src)@),
            read_agrees(r, dec_callable(old(src)@), old(src)@, final(src)@),
    {
        let ghost s = src@;
        let args = src.u8()?;
        let registers = src.u8()?;
        let len = src.u32()?;
        let ghost t = src@;
        assert(t =~= s.skip(6));
        assert(len == word(s, 2));
        let mut bytecodes: Vec<Bytecode> = Vec::new();
        let ghost mut k: nat = 0;
        assert(t.skip(0) =~= t);
        assert(bytecodes@.map_values(|b: Bytecode| b@) =~= Seq::<BytecodeV>::empty());
        let mut i: u32 = 0;
        while i < len
            invariant
                old(src).reads_on(*src),
                i <= len,
                k <= t.len(),
                s.len() >= 6,
                s == old(src)@,
                t == s.skip(6),
                len == word(s, 2),
                src@ == t.skip(k as int),
                dec_list(t, i as nat, |t: Seq<u8>| dec_bytecode(t)) == Ok::<
                    (Seq<BytecodeV>, nat),
                    LoadError,
                >((bytecodes@.map_values(|b: Bytecode| b@), k)),
            decreases len - i,
        {
            let ghost before = src@;
            match Bytecode::load(src) {
                Ok(b) => {
                    proof {
                        let kk = dec_bytecode(before)->Ok_0.1;
                        lemma_skip_more(t, k as int, kk as int);
                        k = k + kk;
                    }
                    let ghost prev = bytecodes@;
                    let ghost bv = b@;
                    bytecodes.push(b);
                    assert(bytecodes@.map_values(|b: Bytecode| b@) =~= prev.map_values(
                        |b: Bytecode| b@,
                    ).push(bv));
                },
                Err(e) => {
                    proof {
                        assert(dec_list(t, (i + 1) as nat, |t: Seq<u8>| dec_bytecode(t)) == Err::<
                            (Seq<BytecodeV>, nat),
                            LoadError,
                        >(e));
                        lemma_list_err(t, (i + 1) as nat, len as nat, |t: Seq<u8>| dec_bytecode(t));
                        assert(dec_list(s.skip(6), word(s, 2) as nat, |t: Seq<u8>| dec_bytecode(t))
                            == Err::<(Seq<BytecodeV>, nat), LoadError>(e));
                        assert(s.len() >= 6);
                    }
                    return Err(e);
                },
            }
            i = i + 1;
        }
        proof {
            lemma_skip_more(s, 6, k as int);
        }
        Ok(Callable { args, registers, bytecodes })
    }
}


/// Reads a counted list of Callable (a `u32` count, then the items).
fn read_callables(src: &mut Source) -> (r: Result<Vec<Callable>, LoadError>)
    ensures
        old(src).reads_on(*final(src)),
        match dec_counted(old(src)@, |t: Seq<u8>| dec_callable(t)) {
            Ok((v, k)) => r matches Ok(x) && x@.map_values(|c: Callable| c@) == v && k <= old(src)@.len()
                && final(src)@ == old(src)@.skip(k as int),
            Err(e) => r matches Err(e2) && e2 == e,
        },
{
    let ghost s = src@;
    let len = src.u32()?;
    let ghost t = src@;
    assert(t =~= s.skip(4));
    let mut items: Vec<Callable> = Vec::new();
    let ghost mut k: nat = 0;
    assert(t.skip(0) =~= t);
    assert(items@.map_values(|c: Callable| c@) =~= Seq::<CallableV>::empty());
    let mut i: u32 = 0;
    while i < len
        invariant
            old(src).reads_on(*src),
            i <= len,
            k <= t.len(),
            s.len() >= 4,
            s == old(src)@,
            t == s.skip(4),
            len == word(s, 0),
            src@ == t.skip(k as int),
            dec_list(t, i as nat, |t: Seq<u8>| dec_callable(t)) == Ok::<(Seq<CallableV>, nat), LoadError>(
                (items@.map_values(|c: Callable| c@), k),
            ),
        decreases len - i,
    {
        let ghost before = src@;
        match Callable::load(src) {
            Ok(x) => {
                proof {
                    let kk = dec_callable(before)->Ok_0.1;
                    lemma_skip_more(t, k as int, kk as int);
                    k = k + kk;
                }
                let ghost prev = items@;
                let ghost xv = x@;
                items.push(x);
                assert(items@.map_values(|c: Callable| c@) =~= prev.map_values(|c: Callable| c@).push(xv));
            },
            Err(e) => {
                proof {
                    assert(dec_list(t, (i + 1) as nat, |t: Seq<u8>| dec_callable(t)) == Err::<
                        (Seq<CallableV>, nat),
                        LoadError,
                    >(e));
                    lemma_list_err(t, (i + 1) as nat, len as nat, |t: Seq<u8>| dec_callable(t));
                }
                return Err(e);
            },
        }
        i = i + 1;
    }
    proof {
        lemma_skip_more(s, 4, k as int);
    }
    Ok(items)
}

/// Reads a counted list of Const (a `u32` count, then the items).
fn read_consts(src: &mut Source) -> (r: Result<Vec<Const>, LoadError>)
    ensures
        old(src).reads_on(*final(src)),
        match dec_counted(old(src)@, |t: Seq<u8>| dec_const(t)) {
            Ok((v, k)) => r matches Ok(x) && x@.map_values(|c: Const| c@) == v && k <= old(src)@.len()
                && final(src)@ == old(src)@.skip(k as int),
            Err(e) => r matches Err(e2) && e2 == e,
        },
{
    let ghost s = src@;
    let len = src.u32()?;
    let ghost t = src@;
    assert(t =~= s.skip(4));
    let mut items: Vec<Const> = Vec::new();
    let ghost mut k: nat = 0;
    assert(t.skip(0) =~= t);
    assert(items@.map_values(|c: Const| c@) =~= Seq::<ConstV>::empty());
    let mut i: u32 = 0;
    while i < len
        invariant
            old(src).reads_on(*src),
            i <= len,
            k <= t.len(),
            s.len() >= 4,
            s == old(src)@,
            t == s.skip(4),
            len == word(s, 0),
            src@ == t.skip(k as int),
            dec_list(t, i as nat, |t: Seq<u8>| dec_const(t)) == Ok::<(Seq<ConstV>, nat), LoadError>(
                (items@.map_values(|c: Const| c@), k),
            ),
        decreases len - i,
    {
        let ghost before = src@;
        match Const::load(src) {
            Ok(x) => {
                proof {
                    let kk = dec_const(before)->Ok_0.1;
                    lemma_skip_more(t, k as int, kk as int);
                    k = k + kk;
                }
                let ghost prev = items@;
                let ghost xv = x@;
                items.push(x);
                assert(items@.map_values(|c: Const| c@) =~= prev.map_values(|c: Const| c@).push(xv));
            },
            Err(e) => {
                proof {
                    assert(dec_list(t, (i + 1) as nat, |t: Seq<u8>| dec_const(t)) == Err::<
                        (Seq<ConstV>, nat),
                        LoadError,
                    >(e));
                    lemma_list_err(t, (i + 1) as nat, len as nat, |t: Seq<u8>| dec_const(t));
                }
                return Err(e);
            },
        }
        i = i + 1;
    }
    proof {
        lemma_skip_more(s, 4, k as int);
    }
    Ok(items)
}

/// Reads a counted list of Group (a `u32` count, then the items).
fn read_groups(src: &mut Source) -> (r: Result<Vec<Group>, LoadError>)
    ensures
        old(src).reads_on(*final(src)),
        match dec_counted(old(src)@, |t: Seq<u8>| dec_group(t)) {
            Ok((v, k)) => r matches Ok(x) && x@.map_values(|c: Group| c@) == v && k <= old(src)@.len()
                && final(src)@ == old(src)@.skip(k as int),
            Err(e) => r matches Err(e2) && e2 == e,
        },
{
    let ghost s = src@;
    let len = src.u32()?;
    let ghost t = src@;
    assert(t =~= s.skip(4));
    let mut items: Vec<Group> = Vec::new();
    let ghost mut k: nat = 0;
    assert(t.skip(0) =~= t);
    assert(items@.map_values(|c: Group| c@) =~= Seq::<GroupV>::empty());
    let mut i: u32 = 0;
    while i < len
        invariant
            old(src).reads_on(*src),
            i <= len,
            k <= t.len(),
            s.len() >= 4,
            s == old(src)@,
            t == s.skip(4),
            len == word(s, 0),
            src@ == t.skip(k as int),
            dec_list(t, i as nat, |t: Seq<u8>| dec_group(t)) == Ok::<(Seq<GroupV>, nat), LoadError>(
                (items@.map_values(|c: Group| c@), k),
            ),
        decreases len - i,
    {
        let ghost before = src@;
        match Group::load(src) {
            Ok(x) => {
                proof {
                    let kk = dec_group(before)->Ok_0.1;
                    lemma_skip_more(t, k as int, kk as int);
                    k = k + kk;
                }
                let ghost prev = items@;
                let ghost xv = x@;
                items.push(x);
                assert(items@.map_values(|c: Group| c@) =~= prev.map_values(|c: Group| c@).push(xv));
            },
            Err(e) => {
                proof {
                    assert(dec_list(t, (i + 1) as nat, |t: Seq<u8>| dec_group(t)) == Err::<
                        (Seq<GroupV>, nat),
                        LoadError,
                    >(e));
                    lemma_list_err(t, (i + 1) as nat, len as nat, |t: Seq<u8>| dec_group(t));
                }
                return Err(e);
            },
        }
        i = i + 1;
    }
    proof {
        lemma_skip_more(s, 4, k as int);
    }
    Ok(items)
}

/// Reads `n` table entries.
fn read_pairs(src: &mut Source, n: u32) -> (r: Result<Vec<(Id, Index)>, LoadError>)
    ensures
        old(src).reads_on(*final(src)),
        match dec_list(old(src)@, n as nat, |t: Seq<u8>| dec_pair(t)) {
            Ok((v, k)) => r matches Ok(x) && x@ == v && k <= old(src)@.len() && final(src)@ == old(
                src,
            )@.skip(k as int),
            Err(e) => r matches Err(e2) && e2 == e,
        },
{
    proof {
        use_type_invariant(&*src);
    }
    let ghost t = src@;
    let mut items: Vec<(Id, Index)> = Vec::new();
    let ghost mut k: nat = 0;
    assert(t.skip(0) =~= t);
    let mut i: u32 = 0;
    while i < n
        invariant
            old(src).reads_on(*src),
            i <= n,
            k <= t.len(),
            t == old(src)@,
            src@ == t.skip(k as int),
            dec_list(t, i as nat, |t: Seq<u8>| dec_pair(t)) == Ok::<
                (Seq<(Id, Index)>, nat),
                LoadError,
            >((items@, k)),
        decreases n - i,
    {
        let ghost before = src@;
        if src.remaining() < 8 {
            proof {
                assert(dec_list(t, (i + 1) as nat, |t: Seq<u8>| dec_pair(t)) == Err::<
                    (Seq<(Id, Index)>, nat),
                    LoadError,
                >(LoadError::UnexpectedEof));
                lemma_list_err(t, (i + 1) as nat, n as nat, |t: Seq<u8>| dec_pair(t));
            }
            return Err(LoadError::UnexpectedEof);
        }
        let id = src.u32()?;
        let idx = src.u32()?;
        proof {
            assert(word(before.skip(4), 0) == word(before, 4));
            assert(before.skip(4).skip(4) =~= before.skip(8));
            lemma_skip_more(t, k as int, 8);
            k = k + 8;
        }
        items.push((id, idx));
        i = i + 1;
    }
    Ok(items)
}

impl Group {
    /// Reads a group: its field table, then its method table, each preceded
    /// by its length.
    pub fn load(src: &mut Source) -> (r: Result<Group, LoadError>)
        ensures
            old(src).reads_on(*final(src)),
            rest_of(final(src)@, old(src)@),
            read_agrees(r, dec_group(old(src)@), old(src)@, final(src)@),
    {
        let ghost s = src@;
        let n = src.u32()?;
        let indices = read_pairs(src, n)?;
        let ghost k = dec_list(s.skip(4), n as nat, |t: Seq<u8>| dec_pair(t))->Ok_0.1;
        proof {
            lemma_skip_more(s, 4, k as int);
        }
        let ghost u = src@;
        let m = src.u32()?;
        let methods = read_pairs(src, m)?;
        proof {
            let k2 = dec_list(u.skip(4), m as nat, |t: Seq<u8>| dec_pair(t))->Ok_0.1;
            lemma_skip_more(u, 4, k2 as int);
            lemma_skip_more(s, 4 + k as int, 4 + k2 as int);
        }
        Ok(Group { indices, methods })
    }
}

impl III {
    /// Reads a program: the main callable, then the callables, the constants
    /// and the groups, each list preceded by its length.
    pub fn load(src: &mut Source) -> (r: Result<III, LoadError>)
        ensures
            old(src).reads_on(*final(src)),
            rest_of(final(src)@, old(src)@),
            read_agrees(r, dec_program(old(src)@), old(src)@, final(src)@),
    {
        let ghost s = src@;
        let main = match Callable::load(src) {
            Ok(x) => x,
            Err(e) => {
                proof {
                    Source::lemma_reads_on(*old(src), *src);
                }
                return Err(e);
            },
        };
        let ghost k1 = dec_callable(s)->Ok_0.1;
        let text = match read_callables(src) {
            Ok(x) => x,
            Err(e) => {
                proof {
                    Source::lemma_reads_on(*old(src), *src);
                }
                return Err(e);
            },
        };
        let ghost k2 = dec_counted(s.skip(k1 as int), |t: Seq<u8>| dec_callable(t))->Ok_0.1;
        proof {
            lemma_skip_more(s, k1 as int, k2 as int);
        }
        let data = match read_consts(src) {
            Ok(x) => x,
            Err(e) => {
                proof {
                    Source::lemma_reads_on(*old(src), *src);
                }
                return Err(e);
            },
        };
        let ghost k3 = dec_counted(s.skip((k1 + k2) as int), |t: Seq<u8>| dec_const(t))->Ok_0.1;
        proof {
            lemma_skip_more(s, (k1 + k2) as int, k3 as int);
        }
        let groups = match read_groups(src) {
            Ok(x) => x,
            Err(e) => {
                proof {
                    Source::lemma_reads_on(*old(src), *src);
                }
                return Err(e);
            },
        };
        let ghost k4 = dec_counted(s.skip((k1 + k2 + k3) as int), |t: Seq<u8>| dec_group(t))->Ok_0.1;
        proof {
            lemma_skip_more(s, (k1 + k2 + k3) as int, k4 as int);
            Source::lemma_reads_on(*old(src), *src);
        }
        Ok(III { main, text, data, groups })
    }
}
} // verus!
