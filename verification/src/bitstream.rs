//! The bit-level model shared by the LZX encoder and decoder: a stream of bits is
//! read and written most significant bit first, packed into 16-bit little-endian
//! words.
use vstd::prelude::*;

verus! {

/// 2 to the power `n`.
pub open spec fn p2(n: nat) -> nat
    decreases n,
{
    if n == 0 { 1 } else { 2 * p2((n - 1) as nat) }
}

/// The number whose binary digits, most significant first, are `s`.
pub open spec fn bits_value(s: Seq<bool>) -> nat
    decreases s.len(),
{
    if s.len() == 0 {
        0
    } else {
        bits_value(s.drop_last()) * 2 + (if s.last() { 1nat } else { 0nat })
    }
}

/// The low `n` binary digits of `v`, most significant first.
pub open spec fn to_bits(v: nat, n: nat) -> Seq<bool>
    decreases n,
{
    if n == 0 {
        seq![]
    } else {
        to_bits(v / 2, (n - 1) as nat).push(v % 2 == 1)
    }
}

/// The 16-bit little-endian word at byte `q` of `p`; zero where the word does not fit.
pub open spec fn word_at(p: Seq<u8>, q: int) -> nat {
    if 0 <= q && q + 1 < p.len() {
        (p[q] + 256 * p[q + 1]) as nat
    } else {
        0
    }
}

/// Bit `i` (from 0) of the stream of 16-bit words that starts at byte `pos` of `p`,
/// followed by zero bits once the bytes run out.
pub open spec fn stream_bit(p: Seq<u8>, pos: int, i: int) -> bool {
    to_bits(word_at(p, pos + 2 * (i / 16)), 16)[i % 16]
}

/// The bits that `bytes` holds as 16-bit little-endian words, most significant bit
/// of each word first (for an even number of bytes).
pub open spec fn unpack16(bytes: Seq<u8>) -> Seq<bool>
    decreases bytes.len(),
{
    if bytes.len() < 2 {
        seq![]
    } else {
        unpack16(bytes.subrange(0, bytes.len() - 2)) + to_bits(
            (bytes[bytes.len() - 2] + 256 * bytes[bytes.len() - 1]) as nat,
            16,
        )
    }
}

pub proof fn lemma_p2_pos(n: nat)
    ensures
        p2(n) >= 1,
    decreases n,
{
    if n > 0 {
        lemma_p2_pos((n - 1) as nat);
    }
}

pub proof fn lemma_p2_adds(a: nat, b: nat)
    ensures
        p2(a + b) == p2(a) * p2(b),
    decreases b,
{
    if b > 0 {
        let b1 = (b - 1) as nat;
        lemma_p2_adds(a, b1);
        assert(p2(a + b) == 2 * p2(a + b1));
        assert(p2(b) == 2 * p2(b1));
        let x = p2(a);
        let y = p2(b1);
        assert(x * (2 * y) == 2 * (x * y)) by (nonlinear_arith);
    } else {
        assert(p2(0) == 1);
        assert(a + b == a);
        let x = p2(a);
        assert(x * 1 == x);
    }
}

pub proof fn lemma_p2_values()
    ensures
        p2(1) == 2,
        p2(3) == 8,
        p2(4) == 16,
        p2(7) == 128,
        p2(8) == 256,
        p2(16) == 65536,
{
    reveal_with_fuel(p2, 17);
}

/// `p2` agrees with vstd's `pow2`.
pub proof fn lemma_p2_is_pow2(n: nat)
    ensures
        p2(n) == vstd::arithmetic::power2::pow2(n),
    decreases n,
{
    if n == 0 {
        reveal(vstd::arithmetic::power::pow);
        assert(vstd::arithmetic::power::pow(2, 0) == 1);
    } else {
        lemma_p2_is_pow2((n - 1) as nat);
        vstd::arithmetic::power2::lemma_pow2_unfold(n);
    }
}

/// `2^k` as a machine number.
pub fn pow2_u64(k: u32) -> (r: u64)
    requires
        k < 64,
    ensures
        r == p2(k as nat),
{
    proof {
        lemma_p2_is_pow2(k as nat);
        vstd::arithmetic::power2::lemma_pow2_pos(k as nat);
        vstd::bits::lemma_u64_pow2_no_overflow(k as nat);
        vstd::bits::lemma_u64_shl_is_mul(1u64, k as u64);
    }
    1u64 << (k as u64)
}

pub proof fn lemma_bits_value_bound(s: Seq<bool>)
    ensures
        bits_value(s) < p2(s.len()),
    decreases s.len(),
{
    if s.len() > 0 {
        lemma_bits_value_bound(s.drop_last());
    }
}

pub proof fn lemma_to_bits_len(v: nat, n: nat)
    ensures
        to_bits(v, n).len() == n,
    decreases n,
{
    if n > 0 {
        lemma_to_bits_len(v / 2, (n - 1) as nat);
    }
}

/// The value of the low `n` digits of `v` is `v` modulo `2^n`.
pub proof fn lemma_to_bits_value(v: nat, n: nat)
    ensures
        bits_value(to_bits(v, n)) == v % p2(n),
        to_bits(v, n).len() == n,
    decreases n,
{
    lemma_to_bits_len(v, n);
    if n > 0 {
        lemma_to_bits_value(v / 2, (n - 1) as nat);
        let s = to_bits(v, n);
        assert(s.drop_last() =~= to_bits(v / 2, (n - 1) as nat));
        let q = p2((n - 1) as nat);
        lemma_p2_pos((n - 1) as nat);
        // v % (2q) == (v/2 % q) * 2 + v % 2
        assert(v % (2 * q) == ((v / 2) % q) * 2 + v % 2) by (nonlinear_arith)
            requires q >= 1;
    }
}

/// Bits of a concatenation: the first part is shifted up past the second.
pub proof fn lemma_bits_value_append(s: Seq<bool>, t: Seq<bool>)
    ensures
        bits_value(s + t) == bits_value(s) * p2(t.len()) + bits_value(t),
    decreases t.len(),
{
    if t.len() == 0 {
        assert(s + t =~= s);
        assert(p2(0) == 1);
        assert(bits_value(t) == 0);
        let x = bits_value(s);
        assert(x * 1 == x);
    } else {
        lemma_bits_value_append(s, t.drop_last());
        assert((s + t).drop_last() =~= s + t.drop_last());
        assert((s + t).last() == t.last());
        let a = bits_value(s);
        let b = bits_value(t.drop_last());
        let q = p2((t.len() - 1) as nat);
        let l: nat = if t.last() { 1nat } else { 0nat };
        assert(bits_value(s + t) == bits_value(s + t.drop_last()) * 2 + l);
        assert(bits_value(t) == b * 2 + l);
        assert(p2(t.len()) == 2 * q);
        assert((a * q + b) * 2 == a * (2 * q) + b * 2) by (nonlinear_arith);
    }
}

/// A run of digits is determined by its value and length.
pub proof fn lemma_to_bits_of_value(s: Seq<bool>)
    ensures
        to_bits(bits_value(s), s.len()) == s,
    decreases s.len(),
{
    if s.len() > 0 {
        lemma_to_bits_of_value(s.drop_last());
        let v = bits_value(s);
        assert(v / 2 == bits_value(s.drop_last()));
        assert((v % 2 == 1) == s.last());
        assert(to_bits(v, s.len()) =~= s.drop_last().push(s.last()));
        assert(s.drop_last().push(s.last()) =~= s);
    }
}

/// Splitting the low `a + b` digits of `v`: the high `a` digits are those of `v / 2^b`.
pub proof fn lemma_to_bits_split(v: nat, a: nat, b: nat)
    ensures
        to_bits(v, a + b) == to_bits(v / p2(b), a) + to_bits(v, b),
    decreases b,
{
    if b == 0 {
        assert(to_bits(v, 0) =~= Seq::<bool>::empty());
        assert(to_bits(v, a) + to_bits(v, 0) =~= to_bits(v, a));
    } else {
        lemma_to_bits_split(v / 2, a, (b - 1) as nat);
        lemma_p2_pos((b - 1) as nat);
        assert(v / 2 / p2((b - 1) as nat) == v / p2(b)) by {
            vstd::arithmetic::div_mod::lemma_div_denominator(v as int, 2, p2((b - 1) as nat) as int);
        }
        assert(((a + b) - 1) as nat == a + (b - 1) as nat);
        assert(to_bits(v, a + b) =~= to_bits(v / 2, a + (b - 1) as nat).push(v % 2 == 1));
        assert(to_bits(v, a + b) =~= to_bits(v / p2(b), a) + to_bits(v, b));
    }
}

/// The low digits of a value below `2^n` are unchanged by adding higher multiples.
pub proof fn lemma_to_bits_mod(v: nat, n: nat)
    ensures
        to_bits(v % p2(n), n) == to_bits(v, n),
{
    lemma_to_bits_value(v, n);
    lemma_to_bits_of_value(to_bits(v, n));
    lemma_p2_pos(n);
    assert(bits_value(to_bits(v, n)) == v % p2(n));
}

/// The low digits of zero are all zero.
pub proof fn lemma_to_bits_zero(n: nat)
    ensures
        forall|i: int| 0 <= i < n ==> !#[trigger] to_bits(0, n)[i],
        to_bits(0, n).len() == n,
    decreases n,
{
    lemma_to_bits_len(0, n);
    if n > 0 {
        lemma_to_bits_zero((n - 1) as nat);
    }
}

/// Reading words from the start of an even run of bytes hands out exactly the bits
/// `unpack16` describes, then zeros.
pub proof fn lemma_stream_unpack(bytes: Seq<u8>, i: int)
    requires
        bytes.len() % 2 == 0,
        0 <= i,
    ensures
        stream_bit(bytes, 0, i) == (if i < 8 * bytes.len() { unpack16(bytes)[i] } else { false }),
    decreases bytes.len(),
{
    lemma_to_bits_zero(16);
    if bytes.len() == 0 {
        assert(word_at(bytes, 2 * (i / 16)) == 0);
    } else {
        let init = bytes.subrange(0, bytes.len() - 2);
        let w = (bytes[bytes.len() - 2] + 256 * bytes[bytes.len() - 1]) as nat;
        lemma_unpack16_len(init);
        lemma_to_bits_len(w, 16);
        if i < 8 * init.len() {
            lemma_stream_unpack(init, i);
            assert(word_at(bytes, 2 * (i / 16)) == word_at(init, 2 * (i / 16)));
            assert(unpack16(bytes)[i] == unpack16(init)[i]);
        } else if i < 8 * bytes.len() {
            assert(2 * (i / 16) == bytes.len() - 2);
            assert(unpack16(bytes)[i] == to_bits(w, 16)[i - 8 * init.len()]);
        } else {
            assert(word_at(bytes, 2 * (i / 16)) == 0);
        }
    }
}

/// `unpack16` yields 16 bits per word.
pub proof fn lemma_unpack16_len(bytes: Seq<u8>)
    requires
        bytes.len() % 2 == 0,
    ensures
        unpack16(bytes).len() == 8 * bytes.len(),
    decreases bytes.len(),
{
    if bytes.len() >= 2 {
        lemma_unpack16_len(bytes.subrange(0, bytes.len() - 2));
        lemma_to_bits_len((bytes[bytes.len() - 2] + 256 * bytes[bytes.len() - 1]) as nat, 16);
    }
}

} // verus!
