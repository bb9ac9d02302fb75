//! A stream obfuscation cipher: a list of byte operations, some of which
//! depend on the byte's position in the stream.
use vstd::prelude::*;

verus! {

/// One operation of a cipher.
#[derive(Debug, Clone, Copy, PartialEq, Eq, Structural)]
pub enum Op {
    ReverseBits,
    Xor(u8),
    XorPos,
    Add(u8),
    AddPos,
}

/// Why a cipher could not be built or applied.
#[derive(Debug, Clone, Copy, PartialEq, Eq, Structural)]
pub enum CipherError {
    /// The specification holds fewer than two bytes.
    TooShort,
    /// The specification does not end with the byte 0.
    NoTerminator,
    /// The specification holds this unknown operation code.
    UnknownOp(u8),
    /// The cipher leaves the input as it was.
    Unchanged,
}

/// The bits of `b` in the opposite order.
pub open spec fn rev8(b: u8) -> u8 {
    ((b & 1) << 7u8) | ((b & 2) << 5u8) | ((b & 4) << 3u8) | ((b & 8) << 1u8) | ((b & 16) >> 1u8)
        | ((b & 32) >> 3u8) | ((b & 64) >> 5u8) | ((b & 128) >> 7u8)
}

/// Reversing the bits twice gives the byte back.
pub proof fn lemma_rev8_involution(b: u8)
    ensures
        rev8(rev8(b)) == b,
{
    assert(rev8(rev8(b)) == b) by (bit_vector);
}

fn reverse_bits(b: u8) -> (r: u8)
    ensures
        r == rev8(b),
{
    ((b & 1) << 7u8) | ((b & 2) << 5u8) | ((b & 4) << 3u8) | ((b & 8) << 1u8) | ((b & 16) >> 1u8)
        | ((b & 32) >> 3u8) | ((b & 64) >> 5u8) | ((b & 128) >> 7u8)
}

/// The operations that a specification lists from index `i` on, up to its
/// final byte; `Err(c)` for the first unknown operation code `c`.
pub open spec fn ops_from(b: Seq<u8>, i: int) -> Result<Seq<Op>, u8>
    decreases b.len() - i,
{
    if i < 0 || i >= b.len() - 1 {
        Ok(Seq::empty())
    } else {
        let c = b[i];
        let (op, next) = if c == 1 {
            (Op::ReverseBits, i + 1)
        } else if c == 2 {
            (Op::Xor(b[i + 1]), i + 2)
        } else if c == 3 {
            (Op::XorPos, i + 1)
        } else if c == 4 {
            (Op::Add(b[i + 1]), i + 2)
        } else {
            (Op::AddPos, i + 1)
        };
        if 1 <= c <= 5 {
            match ops_from(b, next) {
                Ok(rest) => Ok(seq![op] + rest),
                Err(e) => Err(e),
            }
        } else {
            Err(c)
        }
    }
}

/// The cipher that a specification describes.
pub open spec fn cipher_of(b: Seq<u8>) -> Result<Seq<Op>, CipherError> {
    if b.len() <= 1 {
        Err(CipherError::TooShort)
    } else if b.last() != 0 {
        Err(CipherError::NoTerminator)
    } else {
        match ops_from(b, 0) {
            Ok(ops) => Ok(ops),
            Err(c) => Err(CipherError::UnknownOp(c)),
        }
    }
}

/// One operation applied to the byte `b` at stream position `pos`.
pub open spec fn apply_op(op: Op, pos: nat, b: u8) -> u8 {
    match op {
        Op::ReverseBits => rev8(b),
        Op::Xor(n) => b ^ n,
        Op::XorPos => b ^ ((pos % 256) as u8),
        Op::Add(n) => ((b + n) % 256) as u8,
        Op::AddPos => ((b + pos) % 256) as u8,
    }
}

/// One operation undone on the byte `b` at stream position `pos`.
pub open spec fn unapply_op(op: Op, pos: nat, b: u8) -> u8 {
    match op {
        Op::ReverseBits => rev8(b),
        Op::Xor(n) => b ^ n,
        Op::XorPos => b ^ ((pos % 256) as u8),
        Op::Add(n) => ((b - n) % 256) as u8,
        Op::AddPos => ((b - pos) % 256) as u8,
    }
}

/// The operations applied in order to the byte `b` at position `pos`.
pub open spec fn encode_byte(ops: Seq<Op>, pos: nat, b: u8) -> u8
    decreases ops.len(),
{
    if ops.len() == 0 {
        b
    } else {
        apply_op(ops.last(), pos, encode_byte(ops.drop_last(), pos, b))
    }
}

/// The operations undone in reverse order on the byte `b` at position `pos`.
pub open spec fn decode_byte(ops: Seq<Op>, pos: nat, b: u8) -> u8
    decreases ops.len(),
{
    if ops.len() == 0 {
        b
    } else {
        decode_byte(ops.drop_last(), pos, unapply_op(ops.last(), pos, b))
    }
}

/// The bytes `d`, the first at position `start`, each encoded.
pub open spec fn encode_seq(ops: Seq<Op>, start: nat, d: Seq<u8>) -> Seq<u8> {
    Seq::new(d.len(), |i: int| encode_byte(ops, start + i as nat, d[i]))
}

/// The bytes `d`, the first at position `start`, each decoded.
pub open spec fn decode_seq(ops: Seq<Op>, start: nat, d: Seq<u8>) -> Seq<u8> {
    Seq::new(d.len(), |i: int| decode_byte(ops, start + i as nat, d[i]))
}

proof fn lemma_unapply_apply(op: Op, pos: nat, b: u8)
    ensures
        unapply_op(op, pos, apply_op(op, pos, b)) == b,
{
    match op {
        Op::ReverseBits => lemma_rev8_involution(b),
        Op::Xor(n) => {
            assert((b ^ n) ^ n == b) by (bit_vector);
        },
        Op::XorPos => {
            let k = (pos % 256) as u8;
            assert((b ^ k) ^ k == b) by (bit_vector);
        },
        Op::Add(n) => {},
        Op::AddPos => {
            let x = (b + pos) % 256;
            assert((x - pos) % 256 == b) by {
                vstd::arithmetic::div_mod::lemma_sub_mod_noop(b + pos, pos as int, 256);
                vstd::arithmetic::div_mod::lemma_small_mod(b as nat, 256);
                vstd::arithmetic::div_mod::lemma_mod_twice(b + pos, 256);
            }
        },
    }
}

/// Decoding undoes encoding, byte by byte.
pub proof fn lemma_decode_encode_byte(ops: Seq<Op>, pos: nat, b: u8)
    ensures
        decode_byte(ops, pos, encode_byte(ops, pos, b)) == b,
    decreases ops.len(),
{
    if ops.len() > 0 {
        lemma_unapply_apply(ops.last(), pos, encode_byte(ops.drop_last(), pos, b));
        lemma_decode_encode_byte(ops.drop_last(), pos, b);
    }
}

/// Decoding undoes encoding, on a whole run of bytes.
pub proof fn lemma_decode_encode(ops: Seq<Op>, start: nat, d: Seq<u8>)
    ensures
        decode_seq(ops, start, encode_seq(ops, start, d)) == d,
{
    assert forall|i: int| 0 <= i < d.len() implies decode_seq(
        ops,
        start,
        encode_seq(ops, start, d),
    )[i] == d[i] by {
        lemma_decode_encode_byte(ops, start + i as nat, d[i]);
    }
    assert(decode_seq(ops, start, encode_seq(ops, start, d)) =~= d);
}

/// A cipher: its operations, applied in order to each byte.
#[derive(Debug, Clone)]
pub struct Cipher {
    ops: Vec<Op>,
}

impl View for Cipher {
    type V = Seq<Op>;

    closed spec fn view(&self) -> Seq<Op> {
        self.ops@
    }
}

/// `pre` followed by the operations that `r` may hold.
pub open spec fn then_ops(pre: Seq<Op>, r: Result<Seq<Op>, u8>) -> Result<Seq<Op>, u8> {
    match r {
        Ok(rest) => Ok(pre + rest),
        Err(c) => Err(c),
    }
}

fn apply_one(op: Op, pos: usize, b: u8) -> (r: u8)
    ensures
        r == apply_op(op, pos as nat, b),
{
    match op {
        Op::ReverseBits => reverse_bits(b),
        Op::Xor(n) => b ^ n,
        Op::XorPos => b ^ ((pos % 256) as u8),
        Op::Add(n) => ((b as u16 + n as u16) % 256) as u8,
        Op::AddPos => {
            let r = ((b as usize + pos % 256) % 256) as u8;
            assert(r == ((b + pos) % 256) as u8) by {
                vstd::arithmetic::div_mod::lemma_add_mod_noop(b as int, pos as int, 256);
                vstd::arithmetic::div_mod::lemma_mod_twice(pos as int, 256);
                vstd::arithmetic::div_mod::lemma_add_mod_noop(b as int, (pos % 256) as int, 256);
                vstd::arithmetic::div_mod::lemma_small_mod(b as nat, 256);
            }
            r
        },
    }
}

fn unapply_one(op: Op, pos: usize, b: u8) -> (r: u8)
    ensures
        r == unapply_op(op, pos as nat, b),
{
    match op {
        Op::ReverseBits => reverse_bits(b),
        Op::Xor(n) => b ^ n,
        Op::XorPos => b ^ ((pos % 256) as u8),
        Op::Add(n) => {
            let r = ((b as u16 + 256 - n as u16) % 256) as u8;
            assert(r == ((b - n) % 256) as u8) by {
                vstd::arithmetic::div_mod::lemma_mod_add_multiples_vanish(b - n, 256);
            }
            r
        },
        Op::AddPos => {
            let p = (pos % 256) as u16;
            let r = ((b as u16 + 256 - p) % 256) as u8;
            assert(r == ((b - pos) % 256) as u8) by {
                vstd::arithmetic::div_mod::lemma_mod_add_multiples_vanish(b - p, 256);
                vstd::arithmetic::div_mod::lemma_sub_mod_noop(b as int, pos as int, 256);
                vstd::arithmetic::div_mod::lemma_sub_mod_noop(b as int, p as int, 256);
                vstd::arithmetic::div_mod::lemma_mod_twice(pos as int, 256);
            }
            r
        },
    }
}

/// Whether two byte runs are equal.
fn same_bytes(a: &[u8], b: &Vec<u8>) -> (r: bool)
    ensures
        r == (a@ == b@),
{
    if a.len() != b.len() {
        return false;
    }
    let mut i: usize = 0;
    while i < a.len()
        invariant
            a@.len() == b@.len(),
            i <= a@.len(),
            forall|j: int| 0 <= j < i ==> a@[j] == b@[j],
        decreases a@.len() - i,
    {
        if a[i] != b[i] {
            return false;
        }
        i += 1;
    }
    assert(a@ =~= b@);
    true
}

impl Cipher {
    /// Reads a cipher specification: operation codes, the codes 2 and 4 each
    /// followed by their operand, ending with the byte 0.
    pub fn new(bytes: &[u8]) -> (r: Result<Cipher, CipherError>)
        ensures
            match r {
                Ok(c) => cipher_of(bytes@) == Ok::<Seq<Op>, CipherError>(c@),
                Err(e) => cipher_of(bytes@) == Err::<Seq<Op>, CipherError>(e),
            },
    {
        if bytes.len() <= 1 {
            return Err(CipherError::TooShort);
        }
        if bytes[bytes.len() - 1] != 0 {
            return Err(CipherError::NoTerminator);
        }
        let n = bytes.len() - 1;
        let mut ops: Vec<Op> = Vec::new();
        let mut i: usize = 0;
        assert(then_ops(ops@, ops_from(bytes@, 0)) == ops_from(bytes@, 0)) by {
            match ops_from(bytes@, 0) {
                Ok(rest) => assert(ops@ + rest =~= rest),
                Err(_) => {},
            }
        }
        while i < n
            invariant
                n == bytes@.len() - 1,
                bytes@.len() > 1,
                bytes@.last() == 0,
                i <= n + 1,
                then_ops(ops@, ops_from(bytes@, i as int)) == ops_from(bytes@, 0),
            decreases n + 1 - i,
        {
            let c = bytes[i];
            let op = if c == 1 {
                Op::ReverseBits
            } else if c == 2 {
                Op::Xor(bytes[i + 1])
            } else if c == 3 {
                Op::XorPos
            } else if c == 4 {
                Op::Add(bytes[i + 1])
            } else if c == 5 {
                Op::AddPos
            } else {
                assert(ops_from(bytes@, i as int) == Err::<Seq<Op>, u8>(c));
                return Err(CipherError::UnknownOp(c));
            };
            let next = if c == 2 || c == 4 {
                i + 2
            } else {
                i + 1
            };
            let ghost pre = ops@;
            ops.push(op);
            proof {
                match ops_from(bytes@, next as int) {
                    Ok(rest) => assert(pre + (seq![op] + rest) =~= ops@ + rest),
                    Err(_) => {},
                }
            }
            i = next;
        }
        proof {
            assert(ops_from(bytes@, i as int) == Ok::<Seq<Op>, u8>(Seq::empty()));
            assert(ops@ + Seq::<Op>::empty() =~= ops@);
        }
        Ok(Cipher { ops })
    }

    /// Encodes the byte `input` found at stream position `start_offset`.
    pub fn encode_one(&self, start_offset: usize, input: u8) -> (r: Result<u8, CipherError>)
        ensures
            r == Ok::<u8, CipherError>(encode_byte(self@, start_offset as nat, input)),
    {
        let mut b = input;
        let mut i: usize = 0;
        while i < self.ops.len()
            invariant
                i <= self@.len(),
                b == encode_byte(self@.subrange(0, i as int), start_offset as nat, input),
            decreases self@.len() - i,
        {
            let ghost pre = self@.subrange(0, i as int);
            b = apply_one(self.ops[i], start_offset, b);
            i += 1;
            assert(self@.subrange(0, i as int).drop_last() =~= pre);
        }
        assert(self@.subrange(0, i as int) =~= self@);
        Ok(b)
    }

    /// Decodes the byte `input` found at stream position `start_offset`.
    pub fn decode_one(&self, start_offset: usize, input: u8) -> (r: Result<u8, CipherError>)
        ensures
            r == Ok::<u8, CipherError>(decode_byte(self@, start_offset as nat, input)),
    {
        let mut b = input;
        let mut i: usize = self.ops.len();
        assert(self@.subrange(0, i as int) =~= self@);
        while i > 0
            invariant
                i <= self@.len(),
                decode_byte(self@, start_offset as nat, input) == decode_byte(
                    self@.subrange(0, i as int),
                    start_offset as nat,
                    b,
                ),
            decreases i,
        {
            let ghost pre = self@.subrange(0, i as int);
            i -= 1;
            b = unapply_one(self.ops[i], start_offset, b);
            assert(pre.drop_last() =~= self@.subrange(0, i as int));
        }
        assert(self@.subrange(0, 0) =~= Seq::<Op>::empty());
        Ok(b)
    }

    /// Encodes `input`, whose first byte stands at stream position
    /// `start_offset`; a cipher that leaves the input as it was is refused.
    pub fn encode(&self, start_offset: usize, input: &[u8]) -> (r: Result<Vec<u8>, CipherError>)
        requires
            start_offset + input@.len() <= usize::MAX,
        ensures
            match r {
                Ok(v) => v@ == encode_seq(self@, start_offset as nat, input@) && v@ != input@,
                Err(e) => e == CipherError::Unchanged && encode_seq(
                    self@,
                    start_offset as nat,
                    input@,
                ) == input@,
            },
    {
        let mut out: Vec<u8> = Vec::new();
        let mut i: usize = 0;
        while i < input.len()
            invariant
                i <= input@.len(),
                start_offset + input@.len() <= usize::MAX,
                out@ =~= encode_seq(self@, start_offset as nat, input@.subrange(0, i as int)),
            decreases input@.len() - i,
        {
            let b = self.encode_one(start_offset + i, input[i]);
            match b {
                Ok(b) => out.push(b),
                Err(e) => return Err(e),
            }
            i += 1;
        }
        assert(input@.subrange(0, i as int) =~= input@);
        if same_bytes(input, &out) {
            Err(CipherError::Unchanged)
        } else {
            Ok(out)
        }
    }

    /// Decodes `input`, whose first byte stands at stream position
    /// `start_offset`; a cipher that leaves the input as it was is refused.
    pub fn decode(&self, start_offset: usize, input: &[u8]) -> (r: Result<Vec<u8>, CipherError>)
        requires
            start_offset + input@.len() <= usize::MAX,
        ensures
            match r {
                Ok(v) => v@ == decode_seq(self@, start_offset as nat, input@) && v@ != input@,
                Err(e) => e == CipherError::Unchanged && decode_seq(
                    self@,
                    start_offset as nat,
                    input@,
                ) == input@,
            },
    {
        let mut out: Vec<u8> = Vec::new();
        let mut i: usize = 0;
        while i < input.len()
            invariant
                i <= input@.len(),
                start_offset + input@.len() <= usize::MAX,
                out@ =~= decode_seq(self@, start_offset as nat, input@.subrange(0, i as int)),
            decreases input@.len() - i,
        {
            let b = self.decode_one(start_offset + i, input[i]);
            match b {
                Ok(b) => out.push(b),
                Err(e) => return Err(e),
            }
            i += 1;
        }
        assert(input@.subrange(0, i as int) =~= input@);
        if same_bytes(input, &out) {
            Err(CipherError::Unchanged)
        } else {
            Ok(out)
        }
    }
}

/// What `encode` returns, `decode` turns back into the input.
pub proof fn lemma_cipher_round_trip(ops: Seq<Op>, start: nat, d: Seq<u8>)
    requires
        encode_seq(ops, start, d) != d,
    ensures
        decode_seq(ops, start, encode_seq(ops, start, d)) == d,
        decode_seq(ops, start, encode_seq(ops, start, d)) != encode_seq(ops, start, d),
{
    lemma_decode_encode(ops, start, d);
}

} // verus!
