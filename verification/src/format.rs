use vstd::prelude::*;
use vstd::utf8::*;
use crate::bytecode::{BytecodeV, CallableV, GroupV, Id, Index, ProgramV};
use crate::ir::{BinOp, ConstV, Pointer, UnaOp};

verus! {

/// Why a binary program could not be read.
#[derive(Debug, Clone, Copy, PartialEq, Eq, Structural)]
pub enum LoadError {
    /// The bytes ended before the program did.
    UnexpectedEof,
    /// A byte does not encode what it should (a tag, an operator, a pointer
    /// kind, or text that is not UTF-8).
    InvalidData,
}

/// The four bytes of a `u32`, most significant first.
pub open spec fn be32(x: u32) -> Seq<u8> {
    seq![(x >> 24u32) as u8, (x >> 16u32) as u8, (x >> 8u32) as u8, x as u8]
}

/// The `u32` whose big-endian bytes are `a b c d`.
pub open spec fn read32(a: u8, b: u8, c: u8, d: u8) -> u32 {
    ((a as u32) << 24u32) | ((b as u32) << 16u32) | ((c as u32) << 8u32) | (d as u32)
}

/// Words are written big-endian: the four bytes of `x`, most significant
/// first, are its digits in base 256.
pub proof fn law_be32_big_endian(x: u32)
    ensures
        be32(x).len() == 4,
        x == be32(x)[0] * 16777216 + be32(x)[1] * 65536 + be32(x)[2] * 256 + be32(x)[3],
{
    assert(x == ((x >> 24u32) as u8) * 16777216 + ((x >> 16u32) as u8) * 65536 + ((x >> 8u32) as u8) * 256 + (x as u8))
        by (bit_vector);
}

/// Words are read big-endian: the word at `i` has the byte at `i` as its
/// most significant digit in base 256.
pub proof fn law_word_big_endian(s: Seq<u8>, i: int)
    ensures
        word(s, i) == s[i] * 16777216 + s[i + 1] * 65536 + s[i + 2] * 256 + s[i + 3],
{
    let a = s[i];
    let b = s[i + 1];
    let c = s[i + 2];
    let d = s[i + 3];
    assert(((a as u32) << 24u32) | ((b as u32) << 16u32) | ((c as u32) << 8u32) | (d as u32) == a * 16777216 + b * 65536
        + c * 256 + d) by (bit_vector);
}

pub proof fn lemma_be32(x: u32)
    ensures
        read32(be32(x)[0], be32(x)[1], be32(x)[2], be32(x)[3]) == x,
        be32(x).len() == 4,
{
    let a = (x >> 24u32) as u8;
    let b = (x >> 16u32) as u8;
    let c = (x >> 8u32) as u8;
    let d = x as u8;
    assert(((a as u32) << 24u32) | ((b as u32) << 16u32) | ((c as u32) << 8u32) | (d as u32) == x)
        by (bit_vector)
        requires
            a == (x >> 24u32) as u8,
            b == (x >> 16u32) as u8,
            c == (x >> 8u32) as u8,
            d == x as u8,
    ;
}

pub proof fn lemma_i32_bits(x: i32)
    ensures
        (x as u32) as i32 == x,
{
    assert((x as u32) as i32 == x) by (bit_vector);
}

/// The byte an operator is written as.
pub open spec fn bin_code(op: BinOp) -> u8 {
    match op {
        BinOp::Or => 0,
        BinOp::And => 1,
        BinOp::Gt => 2,
        BinOp::Ge => 3,
        BinOp::Lt => 4,
        BinOp::Le => 5,
        BinOp::Eq => 6,
        BinOp::Ne => 7,
        BinOp::Add => 8,
        BinOp::Sub => 9,
        BinOp::Mul => 10,
        BinOp::Div => 11,
        BinOp::Mod => 12,
        BinOp::At => 13,
    }
}

/// The operator a byte stands for.
pub open spec fn bin_of(b: u8) -> Option<BinOp> {
    if b == 0 {
        Some(BinOp::Or)
    } else if b == 1 {
        Some(BinOp::And)
    } else if b == 2 {
        Some(BinOp::Gt)
    } else if b == 3 {
        Some(BinOp::Ge)
    } else if b == 4 {
        Some(BinOp::Lt)
    } else if b == 5 {
        Some(BinOp::Le)
    } else if b == 6 {
        Some(BinOp::Eq)
    } else if b == 7 {
        Some(BinOp::Ne)
    } else if b == 8 {
        Some(BinOp::Add)
    } else if b == 9 {
        Some(BinOp::Sub)
    } else if b == 10 {
        Some(BinOp::Mul)
    } else if b == 11 {
        Some(BinOp::Div)
    } else if b == 12 {
        Some(BinOp::Mod)
    } else if b == 13 {
        Some(BinOp::At)
    } else {
        None
    }
}

/// The byte a unary operator is written as.
pub open spec fn una_code(op: UnaOp) -> u8 {
    match op {
        UnaOp::Not => 0,
        UnaOp::Pos => 1,
        UnaOp::Neg => 2,
    }
}

/// The unary operator a byte stands for.
pub open spec fn una_of(b: u8) -> Option<UnaOp> {
    if b == 0 {
        Some(UnaOp::Not)
    } else if b == 1 {
        Some(UnaOp::Pos)
    } else if b == 2 {
        Some(UnaOp::Neg)
    } else {
        None
    }
}

/// The byte a pointer kind is written as.
pub open spec fn ptr_code(p: Pointer) -> u8 {
    match p {
        Pointer::Group => 0,
        Pointer::Function => 1,
        Pointer::Rust => 2,
    }
}

/// The pointer kind a byte stands for.
pub open spec fn ptr_of(b: u8) -> Option<Pointer> {
    if b == 0 {
        Some(Pointer::Group)
    } else if b == 1 {
        Some(Pointer::Function)
    } else if b == 2 {
        Some(Pointer::Rust)
    } else {
        None
    }
}

/// The binary form of a bytecode: a tag byte, then its operands.
pub open spec fn enc_bytecode(b: BytecodeV) -> Seq<u8> {
    match b {
        BytecodeV::Arg(d, i) => seq![0u8, d] + be32(i),
        BytecodeV::Field(d, s, id) => seq![1u8, d, s] + be32(id),
        BytecodeV::Unpack(d, s, i) => seq![2u8, d, s] + be32(i),
        BytecodeV::Pointer(d, p, i) => seq![3u8, d, ptr_code(p)] + be32(i),
        BytecodeV::Load(d, i) => seq![4u8, d] + be32(i),
        BytecodeV::Binary(d, l, op, r) => seq![5u8, d, l, bin_code(op), r],
        BytecodeV::Unary(d, op, s) => seq![6u8, d, una_code(op), s],
        BytecodeV::Call(d, s, args) => seq![7u8, d, s, args.len() as u8] + args,
        BytecodeV::List(d, args) => seq![8u8, d, args.len() as u8] + args,
        BytecodeV::Tuple(d, args) => seq![9u8, d, args.len() as u8] + args,
        BytecodeV::Index(d, s, i) => seq![10u8, d, s, i],
        BytecodeV::Method(d, s, id, args) => seq![11u8, d, s] + be32(id) + seq![args.len() as u8]
            + args,
        BytecodeV::Branch(c, y, n) => seq![12u8, c] + be32(y) + be32(n),
        BytecodeV::Jump(t) => seq![13u8] + be32(t),
        BytecodeV::Return(s) => seq![14u8, s],
        BytecodeV::Copy(d, s) => seq![15u8, d, s],
    }
}

/// The `u32` at position `i` of `s`.
pub open spec fn word(s: Seq<u8>, i: int) -> u32 {
    read32(s[i], s[i + 1], s[i + 2], s[i + 3])
}

/// Reads one bytecode at the start of `s`; the bytes are read in order and
/// the first missing or invalid one decides the error.
pub open spec fn dec_bytecode(s: Seq<u8>) -> Result<(BytecodeV, nat), LoadError> {
    if s.len() < 1 {
        Err(LoadError::UnexpectedEof)
    } else {
        let tag = s[0];
        if tag == 0 {
            if s.len() < 6 {
                Err(LoadError::UnexpectedEof)
            } else {
                Ok((BytecodeV::Arg(s[1], word(s, 2)), 6))
            }
        } else if tag == 1 || tag == 2 {
            if s.len() < 7 {
                Err(LoadError::UnexpectedEof)
            } else if tag == 1 {
                Ok((BytecodeV::Field(s[1], s[2], word(s, 3)), 7))
            } else {
                Ok((BytecodeV::Unpack(s[1], s[2], word(s, 3)), 7))
            }
        } else if tag == 3 {
            if s.len() < 3 {
                Err(LoadError::UnexpectedEof)
            } else {
                match ptr_of(s[2]) {
                    None => Err(LoadError::InvalidData),
                    Some(p) => if s.len() < 7 {
                        Err(LoadError::UnexpectedEof)
                    } else {
                        Ok((BytecodeV::Pointer(s[1], p, word(s, 3)), 7))
                    },
                }
            }
        } else if tag == 4 {
            if s.len() < 6 {
                Err(LoadError::UnexpectedEof)
            } else {
                Ok((BytecodeV::Load(s[1], word(s, 2)), 6))
            }
        } else if tag == 5 {
            if s.len() < 4 {
                Err(LoadError::UnexpectedEof)
            } else {
                match bin_of(s[3]) {
                    None => Err(LoadError::InvalidData),
                    Some(op) => if s.len() < 5 {
                        Err(LoadError::UnexpectedEof)
                    } else {
                        Ok((BytecodeV::Binary(s[1], s[2], op, s[4]), 5))
                    },
                }
            }
        } else if tag == 6 {
            if s.len() < 3 {
                Err(LoadError::UnexpectedEof)
            } else {
                match una_of(s[2]) {
                    None => Err(LoadError::InvalidData),
                    Some(op) => if s.len() < 4 {
                        Err(LoadError::UnexpectedEof)
                    } else {
                        Ok((BytecodeV::Unary(s[1], op, s[3]), 4))
                    },
                }
            }
        } else if tag == 7 {
            if s.len() < 4 || s.len() < 4 + s[3] {
                Err(LoadError::UnexpectedEof)
            } else {
                Ok((BytecodeV::Call(s[1], s[2], s.subrange(4, 4 + s[3])), 4 + s[3] as nat))
            }
        } else if tag == 8 || tag == 9 {
            if s.len() < 3 || s.len() < 3 + s[2] {
                Err(LoadError::UnexpectedEof)
            } else if tag == 8 {
                Ok((BytecodeV::List(s[1], s.subrange(3, 3 + s[2])), 3 + s[2] as nat))
            } else {
                Ok((BytecodeV::Tuple(s[1], s.subrange(3, 3 + s[2])), 3 + s[2] as nat))
            }
        } else if tag == 10 {
            if s.len() < 4 {
                Err(LoadError::UnexpectedEof)
            } else {
                Ok((BytecodeV::Index(s[1], s[2], s[3]), 4))
            }
        } else if tag == 11 {
            if s.len() < 8 || s.len() < 8 + s[7] {
                Err(LoadError::UnexpectedEof)
            } else {
                Ok((BytecodeV::Method(s[1], s[2], word(s, 3), s.subrange(8, 8 + s[7])), 8 + s[7] as nat))
            }
        } else if tag == 12 {
            if s.len() < 10 {
                Err(LoadError::UnexpectedEof)
            } else {
                Ok((BytecodeV::Branch(s[1], word(s, 2), word(s, 6)), 10))
            }
        } else if tag == 13 {
            if s.len() < 5 {
                Err(LoadError::UnexpectedEof)
            } else {
                Ok((BytecodeV::Jump(word(s, 1)), 5))
            }
        } else if tag == 14 {
            if s.len() < 2 {
                Err(LoadError::UnexpectedEof)
            } else {
                Ok((BytecodeV::Return(s[1]), 2))
            }
        } else if tag == 15 {
            if s.len() < 3 {
                Err(LoadError::UnexpectedEof)
            } else {
                Ok((BytecodeV::Copy(s[1], s[2]), 3))
            }
        } else {
            Err(LoadError::InvalidData)
        }
    }
}

/// The binary form of a constant: a tag byte, then the value.
pub open spec fn enc_const(c: ConstV) -> Seq<u8> {
    match c {
        ConstV::Int(x) => seq![0u8] + be32(x as u32),
        ConstV::Float(x) => seq![1u8] + be32(x),
        ConstV::Bool(b) => seq![2u8, if b { 1u8 } else { 0u8 }],
        ConstV::Str(s) => seq![3u8] + be32(encode_utf8(s).len() as u32) + encode_utf8(s),
    }
}

/// Reads one constant at the start of `s`.
pub open spec fn dec_const(s: Seq<u8>) -> Result<(ConstV, nat), LoadError> {
    if s.len() < 1 {
        Err(LoadError::UnexpectedEof)
    } else if s[0] == 0 {
        if s.len() < 5 {
            Err(LoadError::UnexpectedEof)
        } else {
            Ok((ConstV::Int(word(s, 1) as i32), 5))
        }
    } else if s[0] == 1 {
        if s.len() < 5 {
            Err(LoadError::UnexpectedEof)
        } else {
            Ok((ConstV::Float(word(s, 1)), 5))
        }
    } else if s[0] == 2 {
        if s.len() < 2 {
            Err(LoadError::UnexpectedEof)
        } else {
            Ok((ConstV::Bool(s[1] != 0), 2))
        }
    } else if s[0] == 3 {
        if s.len() < 5 || s.len() < 5 + word(s, 1) {
            Err(LoadError::UnexpectedEof)
        } else {
            let bytes = s.subrange(5, 5 + word(s, 1));
            if valid_utf8(bytes) {
                Ok((ConstV::Str(decode_utf8(bytes)), 5 + word(s, 1) as nat))
            } else {
                Err(LoadError::InvalidData)
            }
        }
    } else {
        Err(LoadError::InvalidData)
    }
}

/// The binary form of a field or method table entry.
pub open spec fn enc_pair(p: (Id, Index)) -> Seq<u8> {
    be32(p.0) + be32(p.1)
}

/// Reads one table entry.
pub open spec fn dec_pair(s: Seq<u8>) -> Result<((Id, Index), nat), LoadError> {
    if s.len() < 8 {
        Err(LoadError::UnexpectedEof)
    } else {
        Ok(((word(s, 0), word(s, 4)), 8))
    }
}

/// The items of a list, one after the other.
pub open spec fn enc_list<T>(xs: Seq<T>, f: spec_fn(T) -> Seq<u8>) -> Seq<u8>
    decreases xs.len(),
{
    if xs.len() == 0 {
        seq![]
    } else {
        enc_list(xs.drop_last(), f) + f(xs.last())
    }
}

/// Reads `n` items one after the other, stopping at the first failure.
pub open spec fn dec_list<T>(
    s: Seq<u8>,
    n: nat,
    f: spec_fn(Seq<u8>) -> Result<(T, nat), LoadError>,
) -> Result<(Seq<T>, nat), LoadError>
    decreases n,
{
    if n == 0 {
        Ok((seq![], 0))
    } else {
        match dec_list(s, (n - 1) as nat, f) {
            Ok((xs, k)) => match f(s.skip(k as int)) {
                Ok((x, k2)) => Ok((xs.push(x), k + k2)),
                Err(e) => Err(e),
            },
            Err(e) => Err(e),
        }
    }
}

/// A count as written before a list.
pub open spec fn enc_len(n: nat) -> Seq<u8> {
    be32(n as u32)
}

/// The binary form of a callable.
pub open spec fn enc_callable(c: CallableV) -> Seq<u8> {
    seq![c.args, c.registers] + enc_len(c.bytecodes.len()) + enc_list(
        c.bytecodes,
        |b: BytecodeV| enc_bytecode(b),
    )
}

/// Reads a callable.
pub open spec fn dec_callable(s: Seq<u8>) -> Result<(CallableV, nat), LoadError> {
    if s.len() < 6 {
        Err(LoadError::UnexpectedEof)
    } else {
        match dec_list(s.skip(6), word(s, 2) as nat, |t: Seq<u8>| dec_bytecode(t)) {
            Ok((bs, k)) => Ok((CallableV { args: s[0], registers: s[1], bytecodes: bs }, 6 + k)),
            Err(e) => Err(e),
        }
    }
}

/// The binary form of a group: its field table, then its method table.
pub open spec fn enc_group(g: GroupV) -> Seq<u8> {
    enc_len(g.indices.len()) + enc_list(g.indices, |p: (Id, Index)| enc_pair(p)) + enc_len(
        g.methods.len(),
    ) + enc_list(g.methods, |p: (Id, Index)| enc_pair(p))
}

/// Reads a group.
pub open spec fn dec_group(s: Seq<u8>) -> Result<(GroupV, nat), LoadError> {
    if s.len() < 4 {
        Err(LoadError::UnexpectedEof)
    } else {
        match dec_list(s.skip(4), word(s, 0) as nat, |t: Seq<u8>| dec_pair(t)) {
            Err(e) => Err(e),
            Ok((indices, k)) => {
                let t = s.skip(4 + k as int);
                if t.len() < 4 {
                    Err(LoadError::UnexpectedEof)
                } else {
                    match dec_list(t.skip(4), word(t, 0) as nat, |u: Seq<u8>| dec_pair(u)) {
                        Err(e) => Err(e),
                        Ok((methods, k2)) => Ok(
                            (GroupV { indices, methods }, 4 + k + 4 + k2),
                        ),
                    }
                }
            },
        }
    }
}

/// The binary form of a program: the main callable, then the counted list
/// of callables, of constants and of groups.
pub open spec fn enc_program(p: ProgramV) -> Seq<u8> {
    enc_callable(p.main) + enc_len(p.text.len()) + enc_list(p.text, |c: CallableV| enc_callable(c))
        + enc_len(p.data.len()) + enc_list(p.data, |c: ConstV| enc_const(c)) + enc_len(
        p.groups.len(),
    ) + enc_list(p.groups, |g: GroupV| enc_group(g))
}

/// Reads a counted list: a `u32` count, then that many items.
pub open spec fn dec_counted<T>(s: Seq<u8>, f: spec_fn(Seq<u8>) -> Result<(T, nat), LoadError>) -> Result<
    (Seq<T>, nat),
    LoadError,
> {
    if s.len() < 4 {
        Err(LoadError::UnexpectedEof)
    } else {
        match dec_list(s.skip(4), word(s, 0) as nat, f) {
            Ok((xs, k)) => Ok((xs, 4 + k)),
            Err(e) => Err(e),
        }
    }
}

/// Reads a program.
pub open spec fn dec_program(s: Seq<u8>) -> Result<(ProgramV, nat), LoadError> {
    match dec_callable(s) {
        Err(e) => Err(e),
        Ok((main, k1)) => match dec_counted(s.skip(k1 as int), |t: Seq<u8>| dec_callable(t)) {
            Err(e) => Err(e),
            Ok((text, k2)) => match dec_counted(s.skip((k1 + k2) as int), |t: Seq<u8>| dec_const(t)) {
                Err(e) => Err(e),
                Ok((data, k3)) => match dec_counted(
                    s.skip((k1 + k2 + k3) as int),
                    |t: Seq<u8>| dec_group(t),
                ) {
                    Err(e) => Err(e),
                    Ok((groups, k4)) => Ok(
                        (ProgramV { main, text, data, groups }, k1 + k2 + k3 + k4),
                    ),
                },
            },
        },
    }
}

/// A bytecode can be written: its register lists are at most 255 long.
pub open spec fn bytecode_fits(b: BytecodeV) -> bool {
    match b {
        BytecodeV::Call(_, _, a) => a.len() <= 255,
        BytecodeV::List(_, a) => a.len() <= 255,
        BytecodeV::Tuple(_, a) => a.len() <= 255,
        BytecodeV::Method(_, _, _, a) => a.len() <= 255,
        _ => true,
    }
}

/// A callable can be written: its code fits a `u32` count.
pub open spec fn callable_fits(c: CallableV) -> bool {
    &&& c.bytecodes.len() <= u32::MAX
    &&& forall|i: int| 0 <= i < c.bytecodes.len() ==> bytecode_fits(#[trigger] c.bytecodes[i])
}

/// A constant can be written: its text fits a `u32` length.
pub open spec fn const_fits(c: ConstV) -> bool {
    match c {
        ConstV::Str(s) => encode_utf8(s).len() <= u32::MAX,
        _ => true,
    }
}

/// A group can be written.
pub open spec fn group_fits(g: GroupV) -> bool {
    g.indices.len() <= u32::MAX && g.methods.len() <= u32::MAX
}

/// A program can be written: every count fits in the format.
pub open spec fn program_fits(p: ProgramV) -> bool {
    &&& callable_fits(p.main)
    &&& p.text.len() <= u32::MAX
    &&& p.data.len() <= u32::MAX
    &&& p.groups.len() <= u32::MAX
    &&& forall|i: int| 0 <= i < p.text.len() ==> callable_fits(#[trigger] p.text[i])
    &&& forall|i: int| 0 <= i < p.data.len() ==> const_fits(#[trigger] p.data[i])
    &&& forall|i: int| 0 <= i < p.groups.len() ==> group_fits(#[trigger] p.groups[i])
}

/// Reading back the items of a list gives the list, when reading back each
/// item gives the item.
pub proof fn lemma_list_roundtrip<T>(
    xs: Seq<T>,
    rest: Seq<u8>,
    enc: spec_fn(T) -> Seq<u8>,
    dec: spec_fn(Seq<u8>) -> Result<(T, nat), LoadError>,
)
    requires
        forall|i: int, r: Seq<u8>|
            0 <= i < xs.len() ==> #[trigger] dec(enc(xs[i]) + r) == Ok::<(T, nat), LoadError>(
                (xs[i], enc(xs[i]).len()),
            ),
    ensures
        dec_list(enc_list(xs, enc) + rest, xs.len(), dec) == Ok::<(Seq<T>, nat), LoadError>(
            (xs, enc_list(xs, enc).len()),
        ),
    decreases xs.len(),
{
    if xs.len() > 0 {
        let ys = xs.drop_last();
        let x = xs.last();
        let tail = enc(x) + rest;
        assert forall|i: int, r: Seq<u8>|
            0 <= i < ys.len() implies #[trigger] dec(enc(ys[i]) + r) == Ok::<(T, nat), LoadError>(
                (ys[i], enc(ys[i]).len()),
            ) by {
            assert(ys[i] == xs[i]);
        }
        lemma_list_roundtrip(ys, tail, enc, dec);
        let whole = enc_list(xs, enc) + rest;
        assert(whole =~= enc_list(ys, enc) + tail);
        assert(whole.skip(enc_list(ys, enc).len() as int) =~= tail);
        assert(dec(enc(xs[xs.len() - 1]) + rest) == Ok::<(T, nat), LoadError>(
            (xs[xs.len() - 1], enc(xs[xs.len() - 1]).len()),
        ));
        assert(ys.push(x) =~= xs);
        assert(enc_list(xs, enc) == enc_list(ys, enc) + enc(x));
        let prev = dec_list(whole, ys.len(), dec);
        assert(prev == Ok::<(Seq<T>, nat), LoadError>((ys, enc_list(ys, enc).len())));
        assert(xs.len() as int - 1 == ys.len());
        assert(dec_list(whole, xs.len(), dec) == Ok::<(Seq<T>, nat), LoadError>(
            (ys.push(x), enc_list(ys, enc).len() + enc(x).len()),
        ));
    } else {
        assert(xs =~= Seq::<T>::empty());
    }
}

/// The items of a list take the sum of their lengths.
pub proof fn lemma_enc_list_len<T>(xs: Seq<T>, enc: spec_fn(T) -> Seq<u8>, bound: nat)
    requires
        forall|i: int| 0 <= i < xs.len() ==> #[trigger] enc(xs[i]).len() <= bound,
    ensures
        enc_list(xs, enc).len() <= xs.len() * bound,
    decreases xs.len(),
{
    if xs.len() > 0 {
        let ys = xs.drop_last();
        assert forall|i: int| 0 <= i < ys.len() implies #[trigger] enc(ys[i]).len() <= bound by {
            assert(ys[i] == xs[i]);
        }
        lemma_enc_list_len(ys, enc, bound);
        assert(enc(xs[xs.len() - 1]).len() <= bound);
        assert(xs.len() * bound == ys.len() * bound + bound) by (nonlinear_arith)
            requires
                xs.len() == ys.len() + 1,
        ;
    }
}

/// Reading back a bytecode gives the bytecode.
pub proof fn lemma_bytecode_roundtrip(b: BytecodeV, rest: Seq<u8>)
    requires
        bytecode_fits(b),
    ensures
        dec_bytecode(enc_bytecode(b) + rest) == Ok::<(BytecodeV, nat), LoadError>(
            (b, enc_bytecode(b).len()),
        ),
{
    let e = enc_bytecode(b);
    let s = e + rest;
    match b {
        BytecodeV::Arg(d, i) => {
            lemma_be32(i);
            assert(word(s, 2) == i);
        },
        BytecodeV::Field(d, x, id) => {
            lemma_be32(id);
            assert(word(s, 3) == id);
        },
        BytecodeV::Unpack(d, x, i) => {
            lemma_be32(i);
            assert(word(s, 3) == i);
        },
        BytecodeV::Pointer(d, p, i) => {
            lemma_be32(i);
            assert(word(s, 3) == i);
            assert(ptr_of(ptr_code(p)) == Some(p));
        },
        BytecodeV::Load(d, i) => {
            lemma_be32(i);
            assert(word(s, 2) == i);
        },
        BytecodeV::Binary(d, l, op, r) => {
            assert(bin_of(bin_code(op)) == Some(op));
        },
        BytecodeV::Unary(d, op, x) => {
            assert(una_of(una_code(op)) == Some(op));
        },
        BytecodeV::Call(d, x, args) => {
            assert(s[3] == args.len());
            assert(s.subrange(4, 4 + args.len() as int) =~= args);
        },
        BytecodeV::List(d, args) => {
            assert(s[2] == args.len());
            assert(s.subrange(3, 3 + args.len() as int) =~= args);
        },
        BytecodeV::Tuple(d, args) => {
            assert(s[2] == args.len());
            assert(s.subrange(3, 3 + args.len() as int) =~= args);
        },
        BytecodeV::Index(d, x, i) => {},
        BytecodeV::Method(d, x, id, args) => {
            lemma_be32(id);
            assert(word(s, 3) == id);
            assert(s[7] == args.len());
            assert(s.subrange(8, 8 + args.len() as int) =~= args);
        },
        BytecodeV::Branch(c, y, n) => {
            lemma_be32(y);
            lemma_be32(n);
            assert(word(s, 2) == y);
            assert(word(s, 6) == n);
        },
        BytecodeV::Jump(t) => {
            lemma_be32(t);
            assert(word(s, 1) == t);
        },
        BytecodeV::Return(x) => {},
        BytecodeV::Copy(d, x) => {},
    }
}

/// Reading back a constant gives the constant.
pub proof fn lemma_const_roundtrip(c: ConstV, rest: Seq<u8>)
    requires
        const_fits(c),
    ensures
        dec_const(enc_const(c) + rest) == Ok::<(ConstV, nat), LoadError>((c, enc_const(c).len())),
{
    let e = enc_const(c);
    let s = e + rest;
    match c {
        ConstV::Int(x) => {
            lemma_be32(x as u32);
            lemma_i32_bits(x);
            assert(word(s, 1) == x as u32);
        },
        ConstV::Float(x) => {
            lemma_be32(x);
            assert(word(s, 1) == x);
        },
        ConstV::Bool(b) => {},
        ConstV::Str(t) => {
            let bytes = encode_utf8(t);
            lemma_be32(bytes.len() as u32);
            assert(word(s, 1) == bytes.len());
            assert(s.subrange(5, 5 + bytes.len() as int) =~= bytes);
            encode_utf8_valid_utf8(t);
            encode_utf8_decode_utf8(t);
        },
    }
}

/// Reading back a table entry gives the entry.
pub proof fn lemma_pair_roundtrip(p: (Id, Index), rest: Seq<u8>)
    ensures
        dec_pair(enc_pair(p) + rest) == Ok::<((Id, Index), nat), LoadError>((p, enc_pair(p).len())),
{
    let s = enc_pair(p) + rest;
    lemma_be32(p.0);
    lemma_be32(p.1);
    assert(word(s, 0) == p.0);
    assert(word(s, 4) == p.1);
}

/// Reading back a counted list gives the list.
pub proof fn lemma_counted_roundtrip<T>(
    xs: Seq<T>,
    rest: Seq<u8>,
    enc: spec_fn(T) -> Seq<u8>,
    dec: spec_fn(Seq<u8>) -> Result<(T, nat), LoadError>,
)
    requires
        xs.len() <= u32::MAX,
        forall|i: int, r: Seq<u8>|
            0 <= i < xs.len() ==> #[trigger] dec(enc(xs[i]) + r) == Ok::<(T, nat), LoadError>(
                (xs[i], enc(xs[i]).len()),
            ),
    ensures
        dec_counted(enc_len(xs.len()) + enc_list(xs, enc) + rest, dec) == Ok::<
            (Seq<T>, nat),
            LoadError,
        >((xs, enc_len(xs.len()).len() + enc_list(xs, enc).len())),
{
    let s = enc_len(xs.len()) + enc_list(xs, enc) + rest;
    lemma_be32(xs.len() as u32);
    assert(word(s, 0) == xs.len());
    assert(s.skip(4) =~= enc_list(xs, enc) + rest);
    lemma_list_roundtrip(xs, rest, enc, dec);
}

/// Reading back a callable gives the callable.
pub proof fn lemma_callable_roundtrip(c: CallableV, rest: Seq<u8>)
    requires
        callable_fits(c),
    ensures
        dec_callable(enc_callable(c) + rest) == Ok::<(CallableV, nat), LoadError>(
            (c, enc_callable(c).len()),
        ),
{
    let enc = |b: BytecodeV| enc_bytecode(b);
    let dec = |t: Seq<u8>| dec_bytecode(t);
    let s = enc_callable(c) + rest;
    lemma_be32(c.bytecodes.len() as u32);
    assert(word(s, 2) == c.bytecodes.len());
    assert(s.skip(6) =~= enc_list(c.bytecodes, enc) + rest);
    assert forall|i: int, r: Seq<u8>|
        0 <= i < c.bytecodes.len() implies #[trigger] dec(enc(c.bytecodes[i]) + r) == Ok::<
            (BytecodeV, nat),
            LoadError,
        >((c.bytecodes[i], enc(c.bytecodes[i]).len())) by {
        lemma_bytecode_roundtrip(c.bytecodes[i], r);
    }
    lemma_list_roundtrip(c.bytecodes, rest, enc, dec);
}

/// Reading back a group gives the group.
pub proof fn lemma_group_roundtrip(g: GroupV, rest: Seq<u8>)
    requires
        group_fits(g),
    ensures
        dec_group(enc_group(g) + rest) == Ok::<(GroupV, nat), LoadError>((g, enc_group(g).len())),
{
    let enc = |p: (Id, Index)| enc_pair(p);
    let dec = |t: Seq<u8>| dec_pair(t);
    let first = enc_list(g.indices, enc);
    let second = enc_len(g.methods.len()) + enc_list(g.methods, enc);
    let s = enc_group(g) + rest;
    assert forall|i: int, r: Seq<u8>|
        0 <= i < g.indices.len() implies #[trigger] dec(enc(g.indices[i]) + r) == Ok::<
            ((Id, Index), nat),
            LoadError,
        >((g.indices[i], enc(g.indices[i]).len())) by {
        lemma_pair_roundtrip(g.indices[i], r);
    }
    assert forall|i: int, r: Seq<u8>|
        0 <= i < g.methods.len() implies #[trigger] dec(enc(g.methods[i]) + r) == Ok::<
            ((Id, Index), nat),
            LoadError,
        >((g.methods[i], enc(g.methods[i]).len())) by {
        lemma_pair_roundtrip(g.methods[i], r);
    }
    lemma_be32(g.indices.len() as u32);
    assert(word(s, 0) == g.indices.len());
    assert(s.skip(4) =~= first + (second + rest));
    lemma_list_roundtrip(g.indices, second + rest, enc, dec);
    let t = s.skip(4 + first.len() as int);
    assert(t =~= second + rest);
    lemma_be32(g.methods.len() as u32);
    assert(word(t, 0) == g.methods.len());
    assert(t.skip(4) =~= enc_list(g.methods, enc) + rest);
    lemma_list_roundtrip(g.methods, rest, enc, dec);
}

proof fn lemma_text_roundtrip(xs: Seq<CallableV>, rest: Seq<u8>)
    requires
        xs.len() <= u32::MAX,
        forall|i: int| 0 <= i < xs.len() ==> callable_fits(#[trigger] xs[i]),
    ensures
        dec_counted(
            enc_len(xs.len()) + enc_list(xs, |c: CallableV| enc_callable(c)) + rest,
            |t: Seq<u8>| dec_callable(t),
        ) == Ok::<(Seq<CallableV>, nat), LoadError>(
            (xs, enc_len(xs.len()).len() + enc_list(xs, |c: CallableV| enc_callable(c)).len()),
        ),
{
    let ec = |c: CallableV| enc_callable(c);
    let dc = |t: Seq<u8>| dec_callable(t);
    assert forall|i: int, r: Seq<u8>|
        0 <= i < xs.len() implies #[trigger] dc(ec(xs[i]) + r) == Ok::<(CallableV, nat), LoadError>(
            (xs[i], ec(xs[i]).len()),
        ) by {
        lemma_callable_roundtrip(xs[i], r);
    }
    lemma_counted_roundtrip(xs, rest, ec, dc);
}

proof fn lemma_data_roundtrip(xs: Seq<ConstV>, rest: Seq<u8>)
    requires
        xs.len() <= u32::MAX,
        forall|i: int| 0 <= i < xs.len() ==> const_fits(#[trigger] xs[i]),
    ensures
        dec_counted(
            enc_len(xs.len()) + enc_list(xs, |c: ConstV| enc_const(c)) + rest,
            |t: Seq<u8>| dec_const(t),
        ) == Ok::<(Seq<ConstV>, nat), LoadError>(
            (xs, enc_len(xs.len()).len() + enc_list(xs, |c: ConstV| enc_const(c)).len()),
        ),
{
    let ec = |c: ConstV| enc_const(c);
    let dc = |t: Seq<u8>| dec_const(t);
    assert forall|i: int, r: Seq<u8>|
        0 <= i < xs.len() implies #[trigger] dc(ec(xs[i]) + r) == Ok::<(ConstV, nat), LoadError>(
            (xs[i], ec(xs[i]).len()),
        ) by {
        lemma_const_roundtrip(xs[i], r);
    }
    lemma_counted_roundtrip(xs, rest, ec, dc);
}

proof fn lemma_groups_roundtrip(xs: Seq<GroupV>, rest: Seq<u8>)
    requires
        xs.len() <= u32::MAX,
        forall|i: int| 0 <= i < xs.len() ==> group_fits(#[trigger] xs[i]),
    ensures
        dec_counted(
            enc_len(xs.len()) + enc_list(xs, |g: GroupV| enc_group(g)) + rest,
            |t: Seq<u8>| dec_group(t),
        ) == Ok::<(Seq<GroupV>, nat), LoadError>(
            (xs, enc_len(xs.len()).len() + enc_list(xs, |g: GroupV| enc_group(g)).len()),
        ),
{
    let ec = |g: GroupV| enc_group(g);
    let dc = |t: Seq<u8>| dec_group(t);
    assert forall|i: int, r: Seq<u8>|
        0 <= i < xs.len() implies #[trigger] dc(ec(xs[i]) + r) == Ok::<(GroupV, nat), LoadError>(
            (xs[i], ec(xs[i]).len()),
        ) by {
        lemma_group_roundtrip(xs[i], r);
    }
    lemma_counted_roundtrip(xs, rest, ec, dc);
}

proof fn lemma_dec_program_parts(
    s: Seq<u8>,
    main: CallableV,
    k1: nat,
    text: Seq<CallableV>,
    k2: nat,
    data: Seq<ConstV>,
    k3: nat,
    groups: Seq<GroupV>,
    k4: nat,
)
    requires
        dec_callable(s) == Ok::<(CallableV, nat), LoadError>((main, k1)),
        dec_counted(s.skip(k1 as int), |t: Seq<u8>| dec_callable(t)) == Ok::<
            (Seq<CallableV>, nat),
            LoadError,
        >((text, k2)),
        dec_counted(s.skip((k1 + k2) as int), |t: Seq<u8>| dec_const(t)) == Ok::<
            (Seq<ConstV>, nat),
            LoadError,
        >((data, k3)),
        dec_counted(s.skip((k1 + k2 + k3) as int), |t: Seq<u8>| dec_group(t)) == Ok::<
            (Seq<GroupV>, nat),
            LoadError,
        >((groups, k4)),
    ensures
        dec_program(s) == Ok::<(ProgramV, nat), LoadError>(
            (ProgramV { main, text, data, groups }, k1 + k2 + k3 + k4),
        ),
{
}

proof fn lemma_skip_prefix(x: Seq<u8>, y: Seq<u8>)
    ensures
        (x + y).skip(x.len() as int) == y,
{
    assert((x + y).skip(x.len() as int) =~= y);
}

proof fn lemma_skip_skip(x: Seq<u8>, i: int, j: int)
    requires
        0 <= i,
        0 <= j,
        i + j <= x.len(),
    ensures
        x.skip(i).skip(j) == x.skip(i + j),
{
    assert(x.skip(i).skip(j) =~= x.skip(i + j));
}

proof fn lemma_assoc(x: Seq<u8>, y: Seq<u8>, z: Seq<u8>)
    ensures
        (x + y) + z == x + (y + z),
{
    assert((x + y) + z =~= x + (y + z));
}

/// Reading back a program that was written gives the program back, and
/// stops right where its bytes end.
pub proof fn law_program_roundtrip(p: ProgramV, rest: Seq<u8>)
    requires
        program_fits(p),
    ensures
        dec_program(enc_program(p) + rest) == Ok::<(ProgramV, nat), LoadError>(
            (p, enc_program(p).len()),
        ),
{
    let a = enc_callable(p.main);
    let l1 = enc_len(p.text.len());
    let e1 = enc_list(p.text, |c: CallableV| enc_callable(c));
    let l2 = enc_len(p.data.len());
    let e2 = enc_list(p.data, |c: ConstV| enc_const(c));
    let l3 = enc_len(p.groups.len());
    let e3 = enc_list(p.groups, |g: GroupV| enc_group(g));
    let b = l1 + e1;
    let c = l2 + e2;
    let d = l3 + e3;
    let t3 = d + rest;
    let t2 = c + t3;
    let t1 = b + t2;
    let s = enc_program(p) + rest;
    assert(s =~= a + t1);
    lemma_callable_roundtrip(p.main, t1);
    lemma_skip_prefix(a, t1);
    lemma_assoc(l1, e1, t2);
    lemma_text_roundtrip(p.text, t2);
    lemma_skip_prefix(b, t2);
    lemma_skip_skip(s, a.len() as int, b.len() as int);
    lemma_assoc(l2, e2, t3);
    lemma_data_roundtrip(p.data, t3);
    lemma_skip_prefix(c, t3);
    lemma_skip_skip(s, (a.len() + b.len()) as int, c.len() as int);
    lemma_assoc(l3, e3, rest);
    lemma_groups_roundtrip(p.groups, rest);
    lemma_skip_prefix(d, rest);
    lemma_skip_skip(s, (a.len() + b.len() + c.len()) as int, d.len() as int);
    lemma_dec_program_parts(s, p.main, a.len(), p.text, b.len(), p.data, c.len(), p.groups, d.len());
    assert(enc_program(p).len() == a.len() + b.len() + c.len() + d.len());
}

} // verus!
