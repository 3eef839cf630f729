use vstd::prelude::*;
use crate::bytecode::{Bytecode, Callable, Elysia, Group, Id, Index, Reg};
use crate::format::{
    be32, bin_code, bytecode_fits, callable_fits, const_fits, enc_bytecode, enc_callable,
    enc_const, enc_group, enc_len, enc_list, enc_pair, enc_program, group_fits, program_fits,
    ptr_code, una_code,
};
use crate::ir::{BinOp, Const, ConstV, Pointer, UnaOp};
use crate::bytecode::{BytecodeV, CallableV, GroupV};
use vstd::string::*;

verus! {

/// Appends the big-endian bytes of `x`.
fn write_u32(buf: &mut Vec<u8>, x: u32)
    ensures
        final(buf)@ == old(buf)@ + be32(x),
{
    buf.push((x >> 24u32) as u8);
    buf.push((x >> 16u32) as u8);
    buf.push((x >> 8u32) as u8);
    buf.push(x as u8);
    assert(final(buf)@ =~= old(buf)@ + be32(x));
}

/// Appends bytes one by one.
fn write_all(buf: &mut Vec<u8>, bytes: &[u8])
    ensures
        final(buf)@ == old(buf)@ + bytes@,
{
    let ghost start = buf@;
    let mut i: usize = 0;
    while i < bytes.len()
        invariant
            i <= bytes@.len(),
            buf@ == start + bytes@.take(i as int),
        decreases bytes@.len() - i,
    {
        buf.push(bytes[i]);
        i = i + 1;
        assert(buf@ =~= start + bytes@.take(i as int));
    }
    assert(bytes@.take(i as int) =~= bytes@);
}

impl BinOp {
    /// The byte the operator is written as.
    pub fn code(&self) -> (b: u8)
        ensures
            b == bin_code(*self),
    {
        match self {
            BinOp::Or => 0x0,
            BinOp::And => 0x1,
            BinOp::Gt => 0x2,
            BinOp::Ge => 0x3,
            BinOp::Lt => 0x4,
            BinOp::Le => 0x5,
            BinOp::Eq => 0x6,
            BinOp::Ne => 0x7,
            BinOp::Add => 0x8,
            BinOp::Sub => 0x9,
            BinOp::Mul => 0xA,
            BinOp::Div => 0xB,
            BinOp::Mod => 0xC,
            BinOp::At => 0xD,
        }
    }
}

impl UnaOp {
    /// The byte the operator is written as.
    pub fn code(&self) -> (b: u8)
        ensures
            b == una_code(*self),
    {
        match self {
            UnaOp::Not => 0x0,
            UnaOp::Pos => 0x1,
            UnaOp::Neg => 0x2,
        }
    }
}

impl Pointer {
    /// The byte the pointer kind is written as.
    pub fn code(&self) -> (b: u8)
        ensures
            b == ptr_code(*self),
    {
        match self {
            Pointer::Group => 0x0,
            Pointer::Function => 0x1,
            Pointer::Rust => 0x2,
        }
    }
}

impl Elysia {
    /// Appends the binary form of the program: the main callable, then the
    /// other callables, the constants and the groups, each list preceded by
    /// its length.
    pub fn dump(&self, buf: &mut Vec<u8>)
        requires
            program_fits(self@),
        ensures
            final(buf)@ == old(buf)@ + enc_program(self@),
    {
        let ghost start = buf@;
        self.main.dump(buf);
        let ghost after_main = buf@;

        write_u32(buf, self.text.len() as u32);
        let ghost base = buf@;
        let ghost xs = self@.text;
        let mut i: usize = 0;
        while i < self.text.len()
            invariant
                i <= self.text@.len(),
                xs == self@.text,
                program_fits(self@),
                buf@ == base + enc_list(xs.take(i as int), |c: CallableV| enc_callable(c)),
            decreases self.text@.len() - i,
        {
            assert(callable_fits(xs[i as int]));
            self.text[i].dump(buf);
            proof {
                assert(xs.take(i + 1).drop_last() =~= xs.take(i as int));
                assert(xs.take(i + 1).last() == self.text@[i as int]@);
            }
            i = i + 1;
        }
        assert(xs.take(i as int) =~= xs);
        let ghost after_text = buf@;

        write_u32(buf, self.data.len() as u32);
        let ghost base = buf@;
        let ghost ds = self@.data;
        let mut i: usize = 0;
        while i < self.data.len()
            invariant
                i <= self.data@.len(),
                ds == self@.data,
                program_fits(self@),
                buf@ == base + enc_list(ds.take(i as int), |c: ConstV| enc_const(c)),
            decreases self.data@.len() - i,
        {
            assert(const_fits(ds[i as int]));
            self.data[i].dump(buf);
            proof {
                assert(ds.take(i + 1).drop_last() =~= ds.take(i as int));
                assert(ds.take(i + 1).last() == self.data@[i as int]@);
            }
            i = i + 1;
        }
        assert(ds.take(i as int) =~= ds);
        let ghost after_data = buf@;

        write_u32(buf, self.groups.len() as u32);
        let ghost base = buf@;
        let ghost gs = self@.groups;
        let mut i: usize = 0;
        while i < self.groups.len()
            invariant
                i <= self.groups@.len(),
                gs == self@.groups,
                program_fits(self@),
                buf@ == base + enc_list(gs.take(i as int), |g: GroupV| enc_group(g)),
            decreases self.groups@.len() - i,
        {
            assert(group_fits(gs[i as int]));
            self.groups[i].dump(buf);
            proof {
                assert(gs.take(i + 1).drop_last() =~= gs.take(i as int));
                assert(gs.take(i + 1).last() == self.groups@[i as int]@);
            }
            i = i + 1;
        }
        assert(gs.take(i as int) =~= gs);
        assert(buf@ =~= start + enc_program(self@));
    }
}

impl Group {
    /// Appends the field table, then the method table, each preceded by its
    /// length.
    pub fn dump(&self, buf: &mut Vec<u8>)
        requires
            group_fits(self@),
        ensures
            final(buf)@ == old(buf)@ + enc_group(self@),
    {
        let ghost start = buf@;
        write_u32(buf, self.indices.len() as u32);
        let ghost mid = buf@;
        write_pairs(buf, &self.indices);
        let ghost mid2 = buf@;
        write_u32(buf, self.methods.len() as u32);
        write_pairs(buf, &self.methods);
        assert(buf@ =~= start + enc_group(self@));
    }
}

/// Appends each table entry.
fn write_pairs(buf: &mut Vec<u8>, pairs: &Vec<(Id, Index)>)
    ensures
        final(buf)@ == old(buf)@ + enc_list(pairs@, |p: (Id, Index)| enc_pair(p)),
{
    let ghost base = buf@;
    let mut i: usize = 0;
    while i < pairs.len()
        invariant
            i <= pairs@.len(),
            buf@ == base + enc_list(pairs@.take(i as int), |p: (Id, Index)| enc_pair(p)),
        decreases pairs@.len() - i,
    {
        let (id, idx) = pairs[i];
        write_u32(buf, id);
        write_u32(buf, idx);
        proof {
            assert(pairs@.take(i + 1).drop_last() =~= pairs@.take(i as int));
            assert(pairs@.take(i + 1).last() == pairs@[i as int]);
        }
        i = i + 1;
        assert(buf@ =~= base + enc_list(pairs@.take(i as int), |p: (Id, Index)| enc_pair(p)));
    }
    assert(pairs@.take(i as int) =~= pairs@);
}

impl Const {
    /// Appends a tag byte, then the value: integers and floats as four
    /// big-endian bytes, booleans as one byte, strings as their UTF-8 length
    /// and bytes.
    pub fn dump(&self, buf: &mut Vec<u8>)
        requires
            const_fits(self@),
        ensures
            final(buf)@ == old(buf)@ + enc_const(self@),
    {
        let ghost start = buf@;
        match self {
            Const::Int(x) => {
                buf.push(0x0);
                write_u32(buf, *x as u32);
            },
            Const::Float(x) => {
                buf.push(0x1);
                write_u32(buf, *x);
            },
            Const::Bool(x) => {
                buf.push(0x2);
                buf.push(if *x { 1u8 } else { 0u8 });
            },
            Const::Str(x) => {
                buf.push(0x3);
                let bytes = x.as_str().as_bytes();
                write_u32(buf, bytes.len() as u32);
                write_all(buf, bytes);
            },
        }
        assert(buf@ =~= start + enc_const(self@));
    }
}

impl Callable {
    /// Appends the number of arguments and of registers, then the code
    /// preceded by its length.
    pub fn dump(&self, buf: &mut Vec<u8>)
        requires
            callable_fits(self@),
        ensures
            final(buf)@ == old(buf)@ + enc_callable(self@),
    {
        let ghost start = buf@;
        buf.push(self.args);
        buf.push(self.registers);
        write_u32(buf, self.bytecodes.len() as u32);
        let ghost base = buf@;
        let ghost bs = self@.bytecodes;
        let mut i: usize = 0;
        while i < self.bytecodes.len()
            invariant
                i <= self.bytecodes@.len(),
                bs == self@.bytecodes,
                callable_fits(self@),
                buf@ == base + enc_list(bs.take(i as int), |b: BytecodeV| enc_bytecode(b)),
            decreases self.bytecodes@.len() - i,
        {
            assert(bytecode_fits(bs[i as int]));
            self.bytecodes[i].dump(buf);
            proof {
                assert(bs.take(i + 1).drop_last() =~= bs.take(i as int));
                assert(bs.take(i + 1).last() == self.bytecodes@[i as int]@);
            }
            i = i + 1;
        }
        assert(bs.take(i as int) =~= bs);
        assert(buf@ =~= start + enc_callable(self@));
    }
}

/// Appends a register list preceded by its length.
fn write_regs(buf: &mut Vec<u8>, args: &Vec<Reg>)
    requires
        args@.len() <= 255,
    ensures
        final(buf)@ == old(buf)@ + seq![args@.len() as u8] + args@,
{
    buf.push(args.len() as u8);
    write_all(buf, args.as_slice());
}

impl Bytecode {
    /// Appends a tag byte, then the operands.
    pub fn dump(&self, buf: &mut Vec<u8>)
        requires
            bytecode_fits(self@),
        ensures
            final(buf)@ == old(buf)@ + enc_bytecode(self@),
    {
        let ghost start = buf@;
        match self {
            Bytecode::Arg(dst, idx) => {
                buf.push(0x0);
                buf.push(*dst);
                write_u32(buf, *idx);
            },
            Bytecode::Field(dst, src, id) => {
                buf.push(0x1);
                buf.push(*dst);
                buf.push(*src);
                write_u32(buf, *id);
            },
            Bytecode::Unpack(dst, src, idx) => {
                buf.push(0x2);
                buf.push(*dst);
                buf.push(*src);
                write_u32(buf, *idx);
            },
            Bytecode::Pointer(dst, pt, ptr) => {
                buf.push(0x3);
                buf.push(*dst);
                buf.push(pt.code());
                write_u32(buf, *ptr);
            },
            Bytecode::Load(dst, idx) => {
                buf.push(0x4);
                buf.push(*dst);
                write_u32(buf, *idx);
            },
            Bytecode::Binary(dst, lhs, op, rhs) => {
                buf.push(0x5);
                buf.push(*dst);
                buf.push(*lhs);
                buf.push(op.code());
                buf.push(*rhs);
            },
            Bytecode::Unary(dst, op, src) => {
                buf.push(0x6);
                buf.push(*dst);
                buf.push(op.code());
                buf.push(*src);
            },
            Bytecode::Call(dst, src, args) => {
                buf.push(0x7);
                buf.push(*dst);
                buf.push(*src);
                write_regs(buf, args);
            },
            Bytecode::List(dst, args) => {
                buf.push(0x8);
                buf.push(*dst);
                write_regs(buf, args);
            },
            Bytecode::Tuple(dst, args) => {
                buf.push(0x9);
                buf.push(*dst);
                write_regs(buf, args);
            },
            Bytecode::Index(dst, src, index) => {
                buf.push(0xA);
                buf.push(*dst);
                buf.push(*src);
                buf.push(*index);
            },
            Bytecode::Method(dst, src, id, args) => {
                buf.push(0xB);
                buf.push(*dst);
                buf.push(*src);
                write_u32(buf, *id);
                write_regs(buf, args);
            },
            Bytecode::Branch(cond, yes, no) => {
                buf.push(0xC);
                buf.push(*cond);
                write_u32(buf, *yes);
                write_u32(buf, *no);
            },
            Bytecode::Jump(target) => {
                buf.push(0xD);
                write_u32(buf, *target);
            },
            Bytecode::Return(src) => {
                buf.push(0xE);
                buf.push(*src);
            },
            Bytecode::Copy(dst, src) => {
                buf.push(0xF);
                buf.push(*dst);
                buf.push(*src);
            },
        }
        assert(buf@ =~= start + enc_bytecode(self@));
    }
}

} // verus!
