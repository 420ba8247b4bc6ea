//! Little-endian byte buffer helpers and the ITSS variable-length integer (ENCINT).
use vstd::prelude::*;
use vstd::string::StringSliceAdditionalSpecFns;

verus! {

/// The two little-endian bytes of `x`.
pub open spec fn u16_le(x: u16) -> Seq<u8> {
    seq![(x % 256) as u8, (x / 256) as u8]
}

/// The four little-endian bytes of `x`.
pub open spec fn u32_le(x: u32) -> Seq<u8> {
    seq![(x % 256) as u8, ((x / 256) % 256) as u8, ((x / 65536) % 256) as u8, (x / 16777216) as u8]
}

/// The eight little-endian bytes of `x`.
pub open spec fn u64_le(x: u64) -> Seq<u8> {
    u32_le((x % 0x1_0000_0000) as u32) + u32_le((x / 0x1_0000_0000) as u32)
}

/// The four little-endian bytes of the two's-complement form of `x`.
pub open spec fn i32_le(x: i32) -> Seq<u8> {
    u32_le(i32_bits(x))
}

/// The 32-bit two's-complement pattern of `x`, as an unsigned number.
pub open spec fn i32_bits(x: i32) -> u32 {
    if x >= 0 { x as u32 } else { (x + 0x1_0000_0000) as u32 }
}

/// The little-endian number held by the four bytes of `s` at `p`.
pub open spec fn le32_at(s: Seq<u8>, p: int) -> int {
    s[p] + 256 * s[p + 1] + 65536 * s[p + 2] + 16777216 * s[p + 3]
}

/// The ENCINT continuation groups of `y` (every byte has its high bit set),
/// most significant group first; empty for 0.
pub open spec fn encint_prefix(y: nat) -> Seq<u8>
    decreases y,
{
    if y == 0 {
        seq![]
    } else {
        encint_prefix(y / 128) + seq![(y % 128 + 128) as u8]
    }
}

/// The ENCINT form of `x`: 7 bits per byte, most significant group first, high bit
/// set on every byte but the last.
pub open spec fn encint_spec(x: nat) -> Seq<u8> {
    encint_prefix(x / 128) + seq![(x % 128) as u8]
}

/// The number a run of ENCINT groups stands for: each byte contributes its low 7 bits.
pub open spec fn groups_value(s: Seq<u8>) -> nat
    decreases s.len(),
{
    if s.len() == 0 {
        0
    } else {
        groups_value(s.drop_last()) * 128 + (s.last() % 128) as nat
    }
}

pub proof fn lemma_encint_prefix_facts(y: nat)
    ensures
        groups_value(encint_prefix(y)) == y,
        forall|i: int| 0 <= i < encint_prefix(y).len() ==> #[trigger] encint_prefix(y)[i] >= 128,
        y > 0 ==> encint_prefix(y).len() == 1 + encint_prefix(y / 128).len(),
        y < 128 ==> encint_prefix(y).len() <= 1,
    decreases y,
{
    if y > 0 {
        lemma_encint_prefix_facts(y / 128);
        let s = encint_prefix(y);
        assert(s.drop_last() =~= encint_prefix(y / 128));
        assert(y / 128 < 128 ==> encint_prefix(y / 128 / 128).len() == 0) by {
            if y / 128 < 128 {
                assert(y / 128 / 128 == 0);
            }
        }
    }
}

/// Decoding the ENCINT form of `x` gives `x` back; every byte but the last has its
/// high bit set, and the last has it clear.
pub proof fn lemma_encint_value(x: nat)
    ensures
        groups_value(encint_spec(x)) == x,
        encint_spec(x).len() >= 1,
        encint_spec(x).last() < 128,
        forall|i: int| 0 <= i < encint_spec(x).len() - 1 ==> #[trigger] encint_spec(x)[i] >= 128,
{
    lemma_encint_prefix_facts(x / 128);
    let s = encint_spec(x);
    assert(s.drop_last() =~= encint_prefix(x / 128));
    assert forall|i: int| 0 <= i < s.len() - 1 implies #[trigger] s[i] >= 128 by {
        assert(s[i] == encint_prefix(x / 128)[i]);
    }
}

/// Two ENCINTs that start equal sequences are the same number, and what follows
/// them is the same.
pub proof fn lemma_encint_split(a: nat, b: nat, x: Seq<u8>, y: Seq<u8>)
    requires
        encint_spec(a) + x == encint_spec(b) + y,
    ensures
        a == b,
        x == y,
{
    lemma_encint_value(a);
    lemma_encint_value(b);
    let ea = encint_spec(a);
    let eb = encint_spec(b);
    let s = ea + x;
    let t = eb + y;
    if ea.len() < eb.len() {
        let k = ea.len() - 1;
        assert(s[k] == ea[k]);
        assert(t[k] == eb[k]);
        assert(eb[k] >= 128);
        assert(false);
    } else if eb.len() < ea.len() {
        let k = eb.len() - 1;
        assert(s[k] == ea[k]);
        assert(t[k] == eb[k]);
        assert(ea[k] >= 128);
        assert(false);
    }
    assert(ea =~= s.subrange(0, ea.len() as int));
    assert(eb =~= t.subrange(0, eb.len() as int));
    assert(x =~= s.subrange(ea.len() as int, s.len() as int));
    assert(y =~= t.subrange(eb.len() as int, t.len() as int));
}

/// 128 to the power `k`.
pub open spec fn pow128(k: nat) -> nat
    decreases k,
{
    if k == 0 { 1 } else { 128 * pow128((k - 1) as nat) }
}

proof fn lemma_prefix_len_bound(y: nat, k: nat)
    requires
        y < pow128(k),
    ensures
        encint_prefix(y).len() <= k,
    decreases k,
{
    lemma_encint_prefix_facts(y);
    if y > 0 {
        assert(k > 0);
        assert(y / 128 < pow128((k - 1) as nat)) by (nonlinear_arith)
            requires y < 128 * pow128((k - 1) as nat);
        lemma_prefix_len_bound(y / 128, (k - 1) as nat);
    }
}

/// A 64-bit number takes at most ten ENCINT bytes.
pub proof fn lemma_encint_len_u64(x: nat)
    requires
        x < 0x1_0000_0000_0000_0000,
    ensures
        encint_spec(x).len() <= 10,
{
    reveal_with_fuel(pow128, 10);
    assert(pow128(9) == 0x8000_0000_0000_0000);
    lemma_prefix_len_bound(x / 128, 9);
}

/// A growable little-endian byte buffer.
pub struct Buf {
    pub v: Vec<u8>,
}

impl View for Buf {
    type V = Seq<u8>;

    open spec fn view(&self) -> Seq<u8> {
        self.v@
    }
}

impl Buf {
    /// An empty buffer.
    pub fn new() -> (b: Buf)
        ensures
            b@ == Seq::<u8>::empty(),
    {
        Buf { v: Vec::new() }
    }

    /// Appends one byte.
    pub fn u8(&mut self, x: u8)
        ensures
            final(self)@ == old(self)@.push(x),
    {
        self.v.push(x);
    }

    /// Appends `x` as two little-endian bytes.
    pub fn u16(&mut self, x: u16)
        ensures
            final(self)@ == old(self)@ + u16_le(x),
    {
        self.v.push((x % 256) as u8);
        self.v.push((x / 256) as u8);
        assert(self@ =~= old(self)@ + u16_le(x));
    }

    /// Appends `x` as four little-endian bytes.
    pub fn u32(&mut self, x: u32)
        ensures
            final(self)@ == old(self)@ + u32_le(x),
    {
        self.v.push((x % 256) as u8);
        self.v.push(((x / 256) % 256) as u8);
        self.v.push(((x / 65536) % 256) as u8);
        self.v.push((x / 16777216) as u8);
        assert(self@ =~= old(self)@ + u32_le(x));
    }

    /// Appends the two's-complement form of `x` as four little-endian bytes.
    pub fn i32(&mut self, x: i32)
        ensures
            final(self)@ == old(self)@ + i32_le(x),
    {
        let bits: u32 = if x >= 0 { x as u32 } else { (x as i64 + 0x1_0000_0000i64) as u32 };
        self.u32(bits);
    }

    /// Appends `x` as eight little-endian bytes.
    pub fn u64(&mut self, x: u64)
        ensures
            final(self)@ == old(self)@ + u64_le(x),
    {
        self.u32((x % 0x1_0000_0000) as u32);
        self.u32((x / 0x1_0000_0000) as u32);
        assert(self@ =~= old(self)@ + u64_le(x));
    }

    /// Appends the bytes of `b`.
    pub fn raw(&mut self, b: &[u8])
        ensures
            final(self)@ == old(self)@ + b@,
    {
        let mut i: usize = 0;
        while i < b.len()
            invariant
                i <= b.len(),
                self@ == old(self)@ + b@.subrange(0, i as int),
            decreases b.len() - i,
        {
            self.v.push(b[i]);
            i = i + 1;
            assert(self@ =~= old(self)@ + b@.subrange(0, i as int));
        }
        assert(b@.subrange(0, i as int) =~= b@);
    }

    /// Appends the UTF-8 bytes of `s`.
    pub fn str(&mut self, s: &str)
        ensures
            final(self)@ == old(self)@ + s.spec_bytes(),
    {
        self.raw(s.as_bytes());
    }

    /// Appends the UTF-8 bytes of `s` and a terminating zero byte.
    pub fn strz(&mut self, s: &str)
        ensures
            final(self)@ == old(self)@ + s.spec_bytes() + seq![0u8],
    {
        self.str(s);
        self.u8(0);
    }

    /// Appends `n` zero bytes.
    pub fn zeros(&mut self, n: usize)
        ensures
            final(self)@ == old(self)@ + Seq::new(n as nat, |_i: int| 0u8),
    {
        let mut i: usize = 0;
        while i < n
            invariant
                i <= n,
                self@ == old(self)@ + Seq::new(i as nat, |_i: int| 0u8),
            decreases n - i,
        {
            self.v.push(0);
            i = i + 1;
            assert(self@ =~= old(self)@ + Seq::new(i as nat, |_i: int| 0u8));
        }
    }

    /// Appends a GUID laid out as DWORD, WORD, WORD, BYTE[8].
    pub fn guid(&mut self, a: u32, b: u16, c: u16, d: &[u8; 8])
        ensures
            final(self)@ == old(self)@ + u32_le(a) + u16_le(b) + u16_le(c) + d@,
    {
        self.u32(a);
        self.u16(b);
        self.u16(c);
        self.raw(d);
        assert(self@ =~= old(self)@ + u32_le(a) + u16_le(b) + u16_le(c) + d@);
    }

    /// The number of bytes written.
    pub fn len(&self) -> (n: usize)
        ensures
            n == self@.len(),
    {
        self.v.len()
    }

    /// Whether nothing has been written.
    pub fn is_empty(&self) -> (b: bool)
        ensures
            b == (self@.len() == 0),
    {
        self.v.len() == 0
    }
}

fn push_encint_prefix(out: &mut Vec<u8>, y: u64)
    ensures
        final(out)@ == old(out)@ + encint_prefix(y as nat),
    decreases y,
{
    if y > 0 {
        push_encint_prefix(out, y / 128);
        out.push((y % 128 + 128) as u8);
        assert(out@ =~= old(out)@ + encint_prefix(y as nat));
    } else {
        assert(out@ =~= old(out)@ + encint_prefix(y as nat));
    }
}

/// Appends the ITSS variable-length integer form of `x`: 7 bits per byte, most
/// significant group first, high bit set on all but the last byte.
pub fn encint(out: &mut Vec<u8>, x: u64)
    ensures
        final(out)@ == old(out)@ + encint_spec(x as nat),
{
    push_encint_prefix(out, x / 128);
    out.push((x % 128) as u8);
    assert(out@ =~= old(out)@ + encint_spec(x as nat));
}

/// Length in bytes that `encint` would emit for `x`.
pub fn encint_len(x: u64) -> (n: usize)
    ensures
        n == encint_spec(x as nat).len(),
        1 <= n <= 10,
{
    let ghost x0 = x as nat;
    let mut n: usize = 1;
    let mut y: u64 = x / 128;
    proof {
        lemma_encint_prefix_facts(y as nat);
        lemma_encint_len_u64(x0);
    }
    while y != 0
        invariant
            n + encint_prefix(y as nat).len() == encint_spec(x0).len(),
            1 <= n,
            encint_spec(x0).len() <= 10,
        decreases y,
    {
        proof {
            lemma_encint_prefix_facts(y as nat);
        }
        n = n + 1;
        y = y / 128;
    }
    n
}

} // verus!
