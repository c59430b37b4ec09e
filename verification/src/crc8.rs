//! CRC-8 in the MAXIM variant: polynomial 0x31 reflected (0x8C), zero
//! initial value, no final xor. Guards each wire frame's payload.

use vstd::prelude::*;

verus! {

/// One shift of the reflected CRC register.
pub open spec fn crc8_round(c: u8) -> u8 {
    if c & 1 == 1 {
        (c >> 1) ^ 0x8C
    } else {
        c >> 1
    }
}

/// `n` successive shifts of the register.
pub open spec fn crc8_rounds(c: u8, n: nat) -> u8
    decreases n,
{
    if n == 0 {
        c
    } else {
        crc8_round(crc8_rounds(c, (n - 1) as nat))
    }
}

/// Folding one message byte into the register: xor it in, then shift
/// eight times.
pub open spec fn crc8_byte(c: u8, b: u8) -> u8 {
    crc8_rounds(c ^ b, 8)
}

/// Folding a whole message into the register, first byte first.
pub open spec fn crc8_fold(c: u8, s: Seq<u8>) -> u8
    decreases s.len(),
{
    if s.len() == 0 {
        c
    } else {
        crc8_fold(crc8_byte(c, s[0]), s.drop_first())
    }
}

/// The checksum of a message: fold it into a zero register.
pub open spec fn crc8(s: Seq<u8>) -> u8 {
    crc8_fold(0, s)
}

/// Folds one byte into a running checksum.
pub fn crc8_update(c: u8, b: u8) -> (r: u8)
    ensures
        r == crc8_byte(c, b),
{
    let mut x: u8 = c ^ b;
    let mut n: usize = 0;
    while n < 8
        invariant
            n <= 8,
            x == crc8_rounds(c ^ b, n as nat),
        decreases 8 - n,
    {
        if x & 1 == 1 {
            x = (x >> 1) ^ 0x8C;
        } else {
            x = x >> 1;
        }
        n = n + 1;
    }
    x
}

/// The checksum of `data[start..end]`.
pub fn crc8_range(data: &Vec<u8>, start: usize, end: usize) -> (r: u8)
    requires
        start <= end <= data@.len(),
    ensures
        r == crc8(data@.subrange(start as int, end as int)),
{
    let mut c: u8 = 0;
    let mut i: usize = start;
    proof {
        assert(data@.subrange(start as int, start as int) =~= Seq::<u8>::empty());
    }
    while i < end
        invariant
            start <= i <= end <= data@.len(),
            c == crc8(data@.subrange(start as int, i as int)),
        decreases end - i,
    {
        c = crc8_update(c, data[i]);
        proof {
            lemma_crc8_fold_snoc(0, data@.subrange(start as int, i as int), data@[i as int]);
            assert(data@.subrange(start as int, i as int).push(data@[i as int])
                =~= data@.subrange(start as int, i + 1 as int));
        }
        i = i + 1;
    }
    c
}

/// Pointwise xor of two equally long byte sequences.
pub open spec fn seq_xor(x: Seq<u8>, y: Seq<u8>) -> Seq<u8> {
    Seq::new(x.len(), |i: int| x[i] ^ y[i])
}

/// One register shift is linear over xor.
pub proof fn lemma_round_linear(a: u8, b: u8)
    ensures
        crc8_round(a ^ b) == crc8_round(a) ^ crc8_round(b),
{
    assert(crc8_round(a ^ b) == crc8_round(a) ^ crc8_round(b)) by (bit_vector);
}

/// A register shift never turns a nonzero register into zero: the shift
/// is invertible.
pub proof fn lemma_round_nonzero(c: u8)
    requires
        c != 0,
    ensures
        crc8_round(c) != 0,
{
    assert(c != 0 ==> crc8_round(c) != 0) by (bit_vector);
}

/// `n` register shifts are linear over xor.
pub proof fn lemma_rounds_linear(a: u8, b: u8, n: nat)
    ensures
        crc8_rounds(a ^ b, n) == crc8_rounds(a, n) ^ crc8_rounds(b, n),
    decreases n,
{
    if n > 0 {
        lemma_rounds_linear(a, b, (n - 1) as nat);
        lemma_round_linear(crc8_rounds(a, (n - 1) as nat), crc8_rounds(b, (n - 1) as nat));
    }
}

/// `n` register shifts keep a nonzero register nonzero.
pub proof fn lemma_rounds_nonzero(c: u8, n: nat)
    requires
        c != 0,
    ensures
        crc8_rounds(c, n) != 0,
    decreases n,
{
    if n > 0 {
        lemma_rounds_nonzero(c, (n - 1) as nat);
        lemma_round_nonzero(crc8_rounds(c, (n - 1) as nat));
    }
}

/// Folding one byte is linear over xor of register and byte together.
pub proof fn lemma_byte_linear(a: u8, b: u8, x: u8, y: u8)
    ensures
        crc8_byte(a ^ b, x ^ y) == crc8_byte(a, x) ^ crc8_byte(b, y),
{
    assert((a ^ b) ^ (x ^ y) == (a ^ x) ^ (b ^ y)) by (bit_vector);
    lemma_rounds_linear(a ^ x, b ^ y, 8);
}

/// Folding a whole message is linear over xor.
pub proof fn lemma_fold_linear(a: u8, b: u8, x: Seq<u8>, y: Seq<u8>)
    requires
        x.len() == y.len(),
    ensures
        crc8_fold(a ^ b, seq_xor(x, y)) == crc8_fold(a, x) ^ crc8_fold(b, y),
    decreases x.len(),
{
    if x.len() == 0 {
        assert(seq_xor(x, y).len() == 0);
    } else {
        assert(seq_xor(x, y)[0] == x[0] ^ y[0]);
        assert(seq_xor(x, y).drop_first() =~= seq_xor(x.drop_first(), y.drop_first()));
        lemma_byte_linear(a, b, x[0], y[0]);
        lemma_fold_linear(crc8_byte(a, x[0]), crc8_byte(b, y[0]), x.drop_first(), y.drop_first());
    }
}

/// Folding zero bytes into a nonzero register leaves it nonzero.
pub proof fn lemma_fold_zeros_nonzero(c: u8, s: Seq<u8>)
    requires
        c != 0,
        forall|j: int| 0 <= j < s.len() ==> s[j] == 0,
    ensures
        crc8_fold(c, s) != 0,
    decreases s.len(),
{
    if s.len() > 0 {
        assert(s[0] == 0);
        assert(c ^ 0 == c) by (bit_vector);
        lemma_rounds_nonzero(c, 8);
        lemma_fold_zeros_nonzero(crc8_byte(c, 0), s.drop_first());
    }
}

/// The checksum of a message that is zero except for one nonzero byte is
/// never zero.
pub proof fn lemma_crc8_single_nonzero(e: Seq<u8>, i: int)
    requires
        0 <= i < e.len(),
        e[i] != 0,
        forall|j: int| 0 <= j < e.len() && j != i ==> e[j] == 0,
    ensures
        crc8(e) != 0,
{
    lemma_fold_single_nonzero(0, e, i);
}

/// Helper for the above, folding from a zero register.
proof fn lemma_fold_single_nonzero(c: u8, e: Seq<u8>, i: int)
    requires
        c == 0,
        0 <= i < e.len(),
        e[i] != 0,
        forall|j: int| 0 <= j < e.len() && j != i ==> e[j] == 0,
    ensures
        crc8_fold(c, e) != 0,
    decreases e.len(),
{
    if i == 0 {
        let e0 = e[0];
        assert(0u8 ^ e0 == e0) by (bit_vector);
        lemma_rounds_nonzero(e[0], 8);
        assert(forall|j: int| 0 <= j < e.drop_first().len() ==> e.drop_first()[j] == 0);
        lemma_fold_zeros_nonzero(crc8_byte(0, e[0]), e.drop_first());
    } else {
        assert(e[0] == 0);
        assert(0u8 ^ 0u8 == 0u8) by (bit_vector);
        assert(crc8_rounds(0, 8) == 0) by {
            lemma_rounds_zero(8);
        }
        assert(e.drop_first()[i - 1] == e[i]);
        lemma_fold_single_nonzero(0, e.drop_first(), i - 1);
    }
}

/// `n` register shifts keep a zero register zero.
pub proof fn lemma_rounds_zero(n: nat)
    ensures
        crc8_rounds(0, n) == 0,
    decreases n,
{
    if n > 0 {
        lemma_rounds_zero((n - 1) as nat);
        assert(crc8_round(0) == 0) by (bit_vector);
    }
}

/// Folding `s` and then one more byte equals folding `s.push(b)`.
pub proof fn lemma_crc8_fold_snoc(c: u8, s: Seq<u8>, b: u8)
    ensures
        crc8_fold(c, s.push(b)) == crc8_byte(crc8_fold(c, s), b),
    decreases s.len(),
{
    if s.len() == 0 {
        assert(s.push(b)[0] == b);
        assert(s.push(b).drop_first() =~= Seq::<u8>::empty());
        assert(crc8_fold(c, s.push(b)) == crc8_fold(crc8_byte(c, b), Seq::<u8>::empty()));
        assert(crc8_fold(c, s) == c);
    } else {
        assert(s.push(b)[0] == s[0]);
        assert(s.push(b).drop_first() =~= s.drop_first().push(b));
        assert(crc8_fold(c, s.push(b)) == crc8_fold(crc8_byte(c, s[0]), s.drop_first().push(b)));
        lemma_crc8_fold_snoc(crc8_byte(c, s[0]), s.drop_first(), b);
        assert(crc8_fold(c, s) == crc8_fold(crc8_byte(c, s[0]), s.drop_first()));
    }
}

} // verus!
