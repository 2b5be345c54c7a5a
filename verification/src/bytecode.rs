use vstd::prelude::*;

use crate::error::Error;
use crate::instruction::{Instruction, LinkedInstructions, UnlinkedInstructions};

verus! {

/// The byte a cell amount is stored as: its value modulo 256.
pub open spec fn byte_of_cell(a: i8) -> u8 {
    if a >= 0 {
        a as u8
    } else {
        (a + 256) as u8
    }
}

/// The cell amount a stored byte stands for: two's complement.
pub open spec fn cell_of_byte(b: u8) -> i8 {
    if b < 128 {
        b as i8
    } else {
        (b - 256) as i8
    }
}

/// The eight bytes of `n`, most significant first.
pub open spec fn be_bytes_u64(n: u64) -> Seq<u8> {
    seq![
        ((n >> 56) & 0xff) as u8,
        ((n >> 48) & 0xff) as u8,
        ((n >> 40) & 0xff) as u8,
        ((n >> 32) & 0xff) as u8,
        ((n >> 24) & 0xff) as u8,
        ((n >> 16) & 0xff) as u8,
        ((n >> 8) & 0xff) as u8,
        (n & 0xff) as u8,
    ]
}

/// The value eight big-endian bytes stand for.
pub open spec fn u64_of_be(b: Seq<u8>) -> u64
    recommends
        b.len() == 8,
{
    ((b[0] as u64) << 56) | ((b[1] as u64) << 48) | ((b[2] as u64) << 40) | ((b[3] as u64) << 32)
        | ((b[4] as u64) << 24) | ((b[5] as u64) << 16) | ((b[6] as u64) << 8) | (b[7] as u64)
}

/// The bytecode of one instruction: a one-byte opcode followed by its
/// big-endian payload.
pub open spec fn encode_inst(i: Instruction) -> Seq<u8> {
    match i {
        Instruction::IncrDp { amount } => seq![0u8] + be_bytes_u64(amount as u64),
        Instruction::Incr { amount, offset } => seq![1u8, byte_of_cell(amount)] + be_bytes_u64(
            offset as u64,
        ),
        Instruction::BranchIfZero { destination } => seq![2u8] + be_bytes_u64(destination),
        Instruction::BranchIfNotZero { destination } => seq![3u8] + be_bytes_u64(destination),
        Instruction::Read => seq![4u8],
        Instruction::Write => seq![5u8],
        Instruction::SetCell { amount, offset } => seq![6u8, byte_of_cell(amount)] + be_bytes_u64(
            offset as u64,
        ),
        Instruction::Mul { amount, offset } => seq![7u8, byte_of_cell(amount)] + be_bytes_u64(
            offset as u64,
        ),
    }
}

/// The bytecode of an instruction sequence: the instructions' encodings,
/// concatenated with no header or footer.
pub open spec fn encode_spec(s: Seq<Instruction>) -> Seq<u8>
    decreases s.len(),
{
    if s.len() == 0 {
        Seq::empty()
    } else {
        encode_inst(s[0]) + encode_spec(s.skip(1))
    }
}

/// What decoding a byte stream yields: the instruction sequence, or an error
/// for an unknown opcode or a stream that ends inside a payload.
pub open spec fn decode_spec(b: Seq<u8>) -> Result<Seq<Instruction>, Error>
    decreases b.len(),
{
    if b.len() == 0 {
        Ok(Seq::empty())
    } else {
        let op = b[0];
        if op == 4 {
            match decode_spec(b.skip(1)) {
                Ok(r) => Ok(seq![Instruction::Read] + r),
                Err(e) => Err(e),
            }
        } else if op == 5 {
            match decode_spec(b.skip(1)) {
                Ok(r) => Ok(seq![Instruction::Write] + r),
                Err(e) => Err(e),
            }
        } else if op == 0 || op == 2 || op == 3 {
            if b.len() < 9 {
                Err(Error::TruncatedBytecode)
            } else {
                let payload = u64_of_be(b.subrange(1, 9));
                let inst = if op == 0 {
                    Instruction::IncrDp { amount: payload as i64 }
                } else if op == 2 {
                    Instruction::BranchIfZero { destination: payload }
                } else {
                    Instruction::BranchIfNotZero { destination: payload }
                };
                match decode_spec(b.skip(9)) {
                    Ok(r) => Ok(seq![inst] + r),
                    Err(e) => Err(e),
                }
            }
        } else if op == 1 || op == 6 || op == 7 {
            if b.len() < 10 {
                Err(Error::TruncatedBytecode)
            } else {
                let amount = cell_of_byte(b[1]);
                let offset = u64_of_be(b.subrange(2, 10)) as i64;
                let inst = if op == 1 {
                    Instruction::Incr { amount, offset }
                } else if op == 6 {
                    Instruction::SetCell { amount, offset }
                } else {
                    Instruction::Mul { amount, offset }
                };
                match decode_spec(b.skip(10)) {
                    Ok(r) => Ok(seq![inst] + r),
                    Err(e) => Err(e),
                }
            }
        } else {
            Err(Error::UnknownBytecodeOpcode)
        }
    }
}

/// Reassembling the eight big-endian bytes of a value gives it back.
proof fn lemma_be_round_trip(n: u64)
    ensures
        u64_of_be(be_bytes_u64(n)) == n,
{
    assert(((((((n >> 56) & 0xff) as u8) as u64) << 56) | ((((n >> 48) & 0xff) as u8) as u64)
        << 48 | ((((n >> 40) & 0xff) as u8) as u64) << 40 | ((((n >> 32) & 0xff) as u8) as u64)
        << 32 | ((((n >> 24) & 0xff) as u8) as u64) << 24 | ((((n >> 16) & 0xff) as u8) as u64)
        << 16 | ((((n >> 8) & 0xff) as u8) as u64) << 8 | (((n & 0xff) as u8) as u64)) == n)
        by (bit_vector);
}

/// Casting a signed 64-bit value through its unsigned bit pattern gives it
/// back.
proof fn lemma_i64_cast_round_trip(x: i64)
    ensures
        ((x as u64) as i64) == x,
{
    assert(((x as u64) as i64) == x) by (bit_vector);
}

/// Storing a cell amount as a byte and reading it back gives it back.
proof fn lemma_cell_round_trip(a: i8)
    ensures
        cell_of_byte(byte_of_cell(a)) == a,
{
}

/// Decoding a stream that starts with one encoded instruction yields that
/// instruction followed by whatever the rest decodes to.
proof fn lemma_decode_one(i: Instruction, rest: Seq<u8>)
    ensures
        decode_spec(encode_inst(i) + rest) == match decode_spec(rest) {
            Ok(r) => Ok::<Seq<Instruction>, Error>(seq![i] + r),
            Err(e) => Err::<Seq<Instruction>, Error>(e),
        },
{
    let b = encode_inst(i) + rest;
    match i {
        Instruction::IncrDp { amount } => {
            assert(b[0] == 0u8);
            assert(b.len() >= 9);
            assert(b.subrange(1, 9) =~= be_bytes_u64(amount as u64));
            lemma_be_round_trip(amount as u64);
            lemma_i64_cast_round_trip(amount);
            assert(b.skip(9) =~= rest);
        },
        Instruction::Incr { amount, offset } => {
            assert(b[0] == 1u8);
            assert(b.len() >= 10);
            assert(b[1] == byte_of_cell(amount));
            lemma_cell_round_trip(amount);
            assert(b.subrange(2, 10) =~= be_bytes_u64(offset as u64));
            lemma_be_round_trip(offset as u64);
            lemma_i64_cast_round_trip(offset);
            assert(b.skip(10) =~= rest);
        },
        Instruction::BranchIfZero { destination } => {
            assert(b[0] == 2u8);
            assert(b.len() >= 9);
            assert(b.subrange(1, 9) =~= be_bytes_u64(destination));
            lemma_be_round_trip(destination);
            assert(b.skip(9) =~= rest);
        },
        Instruction::BranchIfNotZero { destination } => {
            assert(b[0] == 3u8);
            assert(b.len() >= 9);
            assert(b.subrange(1, 9) =~= be_bytes_u64(destination));
            lemma_be_round_trip(destination);
            assert(b.skip(9) =~= rest);
        },
        Instruction::Read => {
            assert(b[0] == 4u8);
            assert(b.skip(1) =~= rest);
        },
        Instruction::Write => {
            assert(b[0] == 5u8);
            assert(b.skip(1) =~= rest);
        },
        Instruction::SetCell { amount, offset } => {
            assert(b[0] == 6u8);
            assert(b.len() >= 10);
            assert(b[1] == byte_of_cell(amount));
            lemma_cell_round_trip(amount);
            assert(b.subrange(2, 10) =~= be_bytes_u64(offset as u64));
            lemma_be_round_trip(offset as u64);
            lemma_i64_cast_round_trip(offset);
            assert(b.skip(10) =~= rest);
        },
        Instruction::Mul { amount, offset } => {
            assert(b[0] == 7u8);
            assert(b.len() >= 10);
            assert(b[1] == byte_of_cell(amount));
            lemma_cell_round_trip(amount);
            assert(b.subrange(2, 10) =~= be_bytes_u64(offset as u64));
            lemma_be_round_trip(offset as u64);
            lemma_i64_cast_round_trip(offset);
            assert(b.skip(10) =~= rest);
        },
    }
}

/// Decoding the bytecode of any instruction sequence gives the sequence
/// back: the codec round-trips.
pub proof fn lemma_bytecode_round_trip(s: Seq<Instruction>)
    ensures
        decode_spec(encode_spec(s)) == Ok::<Seq<Instruction>, Error>(s),
    decreases s.len(),
{
    if s.len() == 0 {
        assert(encode_spec(s) =~= Seq::<u8>::empty());
        assert(s =~= Seq::<Instruction>::empty());
    } else {
        lemma_bytecode_round_trip(s.skip(1));
        lemma_decode_one(s[0], encode_spec(s.skip(1)));
        assert(encode_spec(s) == encode_inst(s[0]) + encode_spec(s.skip(1)));
        assert(seq![s[0]] + s.skip(1) =~= s);
    }
}

/// Appending one instruction to a sequence appends its encoding to the
/// bytecode.
proof fn lemma_encode_snoc(s: Seq<Instruction>, x: Instruction)
    ensures
        encode_spec(s.push(x)) == encode_spec(s) + encode_inst(x),
    decreases s.len(),
{
    if s.len() == 0 {
        assert(s.push(x)[0] == x);
        assert(s.push(x).skip(1) =~= Seq::<Instruction>::empty());
        assert(encode_spec(s.push(x)) == encode_inst(x) + encode_spec(Seq::<Instruction>::empty()));
        assert(encode_spec(Seq::<Instruction>::empty()) == Seq::<u8>::empty());
        assert(encode_inst(x) + Seq::<u8>::empty() =~= encode_inst(x));
        assert(encode_spec(s) + encode_inst(x) =~= encode_inst(x));
    } else {
        assert(s.push(x).skip(1) =~= s.skip(1).push(x));
        lemma_encode_snoc(s.skip(1), x);
        assert(encode_spec(s.push(x)) == encode_inst(s[0]) + (encode_spec(s.skip(1))
            + encode_inst(x)));
        assert(encode_inst(s[0]) + (encode_spec(s.skip(1)) + encode_inst(x)) =~= (encode_inst(
            s[0],
        ) + encode_spec(s.skip(1))) + encode_inst(x));
    }
}

/// Append the eight big-endian bytes of `n` to `out`.
fn push_be_u64(out: &mut Vec<u8>, n: u64)
    ensures
        final(out)@ == old(out)@ + be_bytes_u64(n),
{
    proof {
        assert((n >> 56) & 0xff < 256 && (n >> 48) & 0xff < 256 && (n >> 40) & 0xff < 256 && (n
            >> 32) & 0xff < 256 && (n >> 24) & 0xff < 256 && (n >> 16) & 0xff < 256 && (n >> 8)
            & 0xff < 256 && n & 0xff < 256) by (bit_vector);
    }
    out.push(((n >> 56) & 0xff) as u8);
    out.push(((n >> 48) & 0xff) as u8);
    out.push(((n >> 40) & 0xff) as u8);
    out.push(((n >> 32) & 0xff) as u8);
    out.push(((n >> 24) & 0xff) as u8);
    out.push(((n >> 16) & 0xff) as u8);
    out.push(((n >> 8) & 0xff) as u8);
    out.push((n & 0xff) as u8);
    proof {
        assert(out@ =~= old(out)@ + be_bytes_u64(n));
    }
}

/// The byte a cell amount is stored as.
fn cell_to_byte(a: i8) -> (r: u8)
    ensures
        r == byte_of_cell(a),
{
    if a >= 0 {
        a as u8
    } else {
        ((a as i16) + 256) as u8
    }
}

/// The cell amount a stored byte stands for.
fn byte_to_cell(b: u8) -> (r: i8)
    ensures
        r == cell_of_byte(b),
{
    if b < 128 {
        b as i8
    } else {
        ((b as i16) - 256) as i8
    }
}

impl Instruction {
    /// Encode the instruction as bytecode.
    pub fn to_bytecode(&self) -> (r: Vec<u8>)
        ensures
            r@ == encode_inst(*self),
    {
        let mut inst_bytes: Vec<u8> = Vec::new();
        match *self {
            Instruction::IncrDp { amount } => {
                inst_bytes.push(0);
                push_be_u64(&mut inst_bytes, #[verifier::truncate] (amount as u64));
            },
            Instruction::Incr { amount, offset } => {
                inst_bytes.push(1);
                inst_bytes.push(cell_to_byte(amount));
                push_be_u64(&mut inst_bytes, #[verifier::truncate] (offset as u64));
            },
            Instruction::BranchIfZero { destination } => {
                inst_bytes.push(2);
                push_be_u64(&mut inst_bytes, destination);
            },
            Instruction::BranchIfNotZero { destination } => {
                inst_bytes.push(3);
                push_be_u64(&mut inst_bytes, destination);
            },
            Instruction::Read => {
                inst_bytes.push(4);
            },
            Instruction::Write => {
                inst_bytes.push(5);
            },
            Instruction::SetCell { amount, offset } => {
                inst_bytes.push(6);
                inst_bytes.push(cell_to_byte(amount));
                push_be_u64(&mut inst_bytes, #[verifier::truncate] (offset as u64));
            },
            Instruction::Mul { amount, offset } => {
                inst_bytes.push(7);
                inst_bytes.push(cell_to_byte(amount));
                push_be_u64(&mut inst_bytes, #[verifier::truncate] (offset as u64));
            },
        }
        proof {
            assert(inst_bytes@ =~= encode_inst(*self));
        }
        inst_bytes
    }
}

/// Encode a whole instruction sequence as bytecode.
fn encode_all(insts: &Vec<Instruction>) -> (r: Vec<u8>)
    ensures
        r@ == encode_spec(insts@),
{
    let mut bytes: Vec<u8> = Vec::new();
    let n = insts.len();
    let mut i: usize = 0;
    while i < n
        invariant
            n == insts.len(),
            0 <= i <= n,
            bytes@ == encode_spec(insts@.take(i as int)),
        decreases n - i,
    {
        let mut inst_bytes = insts[i].to_bytecode();
        bytes.append(&mut inst_bytes);
        proof {
            lemma_encode_snoc(insts@.take(i as int), insts@[i as int]);
            assert(insts@.take(i + 1) =~= insts@.take(i as int).push(insts@[i as int]));
        }
        i += 1;
    }
    proof {
        assert(insts@.take(n as int) =~= insts@);
    }
    bytes
}

/// Read the eight big-endian bytes at `pos`.
fn read_be_u64(bytes: &[u8], pos: usize) -> (r: u64)
    requires
        pos + 8 <= bytes@.len(),
    ensures
        r == u64_of_be(bytes@.subrange(pos as int, pos + 8)),
{
    let r = ((bytes[pos] as u64) << 56) | ((bytes[pos + 1] as u64) << 48) | ((bytes[pos + 2]
        as u64) << 40) | ((bytes[pos + 3] as u64) << 32) | ((bytes[pos + 4] as u64) << 24) | ((
    bytes[pos + 5] as u64) << 16) | ((bytes[pos + 6] as u64) << 8) | (bytes[pos + 7] as u64);
    proof {
        let b = bytes@.subrange(pos as int, pos + 8);
        assert(b[0] == bytes@[pos as int] && b[1] == bytes@[pos + 1] && b[2] == bytes@[pos + 2]
            && b[3] == bytes@[pos + 3] && b[4] == bytes@[pos + 4] && b[5] == bytes@[pos + 5]
            && b[6] == bytes@[pos + 6] && b[7] == bytes@[pos + 7]);
    }
    r
}

/// Decode a bytecode stream into instructions, or fail on an unknown opcode
/// or a stream that ends inside an instruction.
fn decode_all(bytes: &[u8]) -> (r: Result<Vec<Instruction>, Error>)
    ensures
        match r {
            Ok(insts) => decode_spec(bytes@) == Ok::<Seq<Instruction>, Error>(insts@),
            Err(e) => decode_spec(bytes@) == Err::<Seq<Instruction>, Error>(e),
        },
{
    let mut out: Vec<Instruction> = Vec::new();
    let n = bytes.len();
    let mut pos: usize = 0;
    proof {
        assert(bytes@.skip(0) =~= bytes@);
        let d = decode_spec(bytes@);
        if d is Ok {
            assert(out@ + d->Ok_0 =~= d->Ok_0);
        }
    }
    while pos < n
        invariant
            n == bytes@.len(),
            0 <= pos <= n,
            decode_spec(bytes@) == match decode_spec(bytes@.skip(pos as int)) {
                Ok(t) => Ok::<Seq<Instruction>, Error>(out@ + t),
                Err(e) => Err::<Seq<Instruction>, Error>(e),
            },
        decreases n - pos,
    {
        let ghost pre = bytes@.skip(pos as int);
        let op = bytes[pos];
        let inst: Instruction = match op {
            0 | 2 | 3 => {
                if n - pos < 9 {
                    proof {
                        assert(pre[0] == op);
                        assert(pre.len() < 9);
                    }
                    return Err(Error::TruncatedBytecode);
                }
                let payload = read_be_u64(bytes, pos + 1);
                proof {
                    assert(pre.subrange(1, 9) =~= bytes@.subrange(pos + 1, pos + 9));
                }
                let inst = if op == 0 {
                    Instruction::IncrDp { amount: #[verifier::truncate] (payload as i64) }
                } else if op == 2 {
                    Instruction::BranchIfZero { destination: payload }
                } else {
                    Instruction::BranchIfNotZero { destination: payload }
                };
                proof {
                    if op == 0 {
                        assert((payload as i64) as u64 == payload) by (bit_vector);
                    }
                    assert(bytes@.skip(pos + 9) =~= pre.skip(9));
                }
                pos += 9;
                inst
            },
            1 | 6 | 7 => {
                if n - pos < 10 {
                    proof {
                        assert(pre[0] == op);
                        assert(pre.len() < 10);
                    }
                    return Err(Error::TruncatedBytecode);
                }
                let amount = byte_to_cell(bytes[pos + 1]);
                let offset_u = read_be_u64(bytes, pos + 2);
                let offset: i64 = #[verifier::truncate] (offset_u as i64);
                proof {
                    assert(pre[1] == bytes@[pos + 1]);
                    assert(pre.subrange(2, 10) =~= bytes@.subrange(pos + 2, pos + 10));
                    assert((offset_u as i64) as u64 == offset_u) by (bit_vector);
                    assert(bytes@.skip(pos + 10) =~= pre.skip(10));
                }
                let inst = if op == 1 {
                    Instruction::Incr { amount, offset }
                } else if op == 6 {
                    Instruction::SetCell { amount, offset }
                } else {
                    Instruction::Mul { amount, offset }
                };
                pos += 10;
                inst
            },
            4 => {
                proof {
                    assert(bytes@.skip(pos + 1) =~= pre.skip(1));
                }
                pos += 1;
                Instruction::Read
            },
            5 => {
                proof {
                    assert(bytes@.skip(pos + 1) =~= pre.skip(1));
                }
                pos += 1;
                Instruction::Write
            },
            _ => {
                proof {
                    assert(pre[0] == op);
                }
                return Err(Error::UnknownBytecodeOpcode);
            },
        };
        let ghost prev_out = out@;
        out.push(inst);
        proof {
            let t = decode_spec(bytes@.skip(pos as int));
            assert(decode_spec(pre) == match t {
                Ok(r) => Ok::<Seq<Instruction>, Error>(seq![inst] + r),
                Err(e) => Err::<Seq<Instruction>, Error>(e),
            });
            if t is Ok {
                assert(prev_out + (seq![inst] + t->Ok_0) =~= out@ + t->Ok_0);
            }
        }
    }
    proof {
        assert(bytes@.skip(n as int) =~= Seq::<u8>::empty());
    }
    Ok(out)
}

impl LinkedInstructions {
    /// Convert the instructions into a stream of bytecode.
    pub fn to_bytecode(&self) -> (r: Vec<u8>)
        ensures
            r@ == encode_spec(self@),
    {
        encode_all(&self.0)
    }

    /// Read bytecode back into a series of instructions.
    pub fn from_bytecode(bytes: &[u8]) -> (r: Result<LinkedInstructions, Error>)
        ensures
            match r {
                Ok(insts) => decode_spec(bytes@) == Ok::<Seq<Instruction>, Error>(insts@),
                Err(e) => decode_spec(bytes@) == Err::<Seq<Instruction>, Error>(e),
            },
    {
        match decode_all(bytes) {
            Ok(insts) => Ok(LinkedInstructions(insts)),
            Err(e) => Err(e),
        }
    }
}

/// Read bytecode into a series of instructions whose jump targets are still
/// to be linked.
pub fn read_bytecode(bytes: &[u8]) -> (r: Result<UnlinkedInstructions, Error>)
    ensures
        match r {
            Ok(insts) => decode_spec(bytes@) == Ok::<Seq<Instruction>, Error>(insts@),
            Err(e) => decode_spec(bytes@) == Err::<Seq<Instruction>, Error>(e),
        },
{
    match decode_all(bytes) {
        Ok(insts) => Ok(UnlinkedInstructions(insts)),
        Err(e) => Err(e),
    }
}

} // verus!

