//! LZX decompressor for CHM (the inverse of `lzx`): 16-bit little-endian bit
//! stream, verbatim/aligned/uncompressed blocks, pretree-coded Huffman trees.
use vstd::prelude::*;
use crate::bitstream::{
    bits_value, lemma_bits_value_append, lemma_bits_value_bound, lemma_p2_adds, lemma_p2_pos, lemma_p2_values, lemma_to_bits_len, lemma_to_bits_mod,
    lemma_to_bits_split, lemma_to_bits_value, lemma_to_bits_zero, p2, pow2_u64, stream_bit, to_bits, word_at,
};

verus! {

/// Reads bits, most significant first, from 16-bit little-endian words.
pub struct BitReader<'a> {
    pub p: &'a [u8],
    pub pos: usize,
    pub buf: u64,
    pub count: u32,
}

/// The bits a reader that holds `count` pending bits `buf` and stands at byte `pos`
/// of `p` will hand out next: bit `i`.
#[verifier::opaque]
pub open spec fn reader_bit(p: Seq<u8>, pos: int, buf: u64, count: u32, i: int) -> bool {
    if i < count {
        to_bits(buf as nat, count as nat)[i]
    } else {
        stream_bit(p, pos, i - count)
    }
}

impl<'a> BitReader<'a> {
    pub open spec fn wf(&self) -> bool {
        &&& self.count <= 48
        &&& self.buf < p2(self.count as nat)
        &&& self.pos <= self.p@.len()
    }

    /// Bit `i` of what this reader will hand out next.
    pub open spec fn bit(&self, i: int) -> bool {
        reader_bit(self.p@, self.pos as int, self.buf, self.count, i)
    }

    /// The next `n` bits this reader will hand out.
    pub open spec fn upcoming(&self, n: nat) -> Seq<bool> {
        Seq::new(n, |i: int| self.bit(i))
    }

    /// Whether `r` hands out what `self` hands out after its first `n` bits.
    pub open spec fn skipped(&self, r: &BitReader<'a>, n: int) -> bool {
        &&& r.p@ == self.p@
        &&& forall|i: int| 0 <= i ==> #[trigger] r.bit(i) == self.bit(i + n)
    }

    /// A reader at the start of `p`.
    pub fn new(p: &'a [u8]) -> (r: BitReader<'a>)
        ensures
            r.wf(),
            r.p@ == p@,
            r.pos == 0,
            r.count == 0,
            forall|i: int| 0 <= i ==> #[trigger] r.bit(i) == stream_bit(p@, 0, i),
    {
        reveal(reader_bit);
        proof {
            lemma_p2_values();
            reveal_with_fuel(p2, 1);
        }
        BitReader { p, pos: 0, buf: 0, count: 0 }
    }

    /// Loads 16-bit words until at least `bits` bits are pending.
    pub fn ensure(&mut self, bits: u32)
        requires
            old(self).wf(),
            bits <= 32,
        ensures
            final(self).wf(),
            final(self).count >= bits,
            old(self).skipped(&*final(self), 0),
            final(self).pos >= old(self).pos,
            final(self).count % 16 == old(self).count % 16,
    {
        reveal(reader_bit);
        while self.count < bits
            invariant
                self.wf(),
                bits <= 32,
                old(self).skipped(&*self, 0),
                self.pos >= old(self).pos,
                self.count % 16 == old(self).count % 16,
                self.count < bits + 16 || self.count == old(self).count,
            decreases bits + 16 - self.count,
        {
            let ghost o = *self;
            let w: u64 = if self.p.len() >= 2 && self.pos <= self.p.len() - 2 {
                let v = self.p[self.pos] as u64 + 256 * (self.p[self.pos + 1] as u64);
                self.pos = self.pos + 2;
                v
            } else {
                self.pos = self.p.len();
                0
            };
            proof {
                reveal(reader_bit);
                lemma_p2_values();
                lemma_p2_adds(o.count as nat, 16);
                assert(w == word_at(o.p@, o.pos as int));
                assert(w < 65536);
                assert(o.buf * 65536 + w < p2(o.count as nat) * 65536) by (nonlinear_arith)
                    requires o.buf < p2(o.count as nat), w < 65536;
                assert(p2(o.count as nat) <= p2(32)) by {
                    lemma_p2_adds(o.count as nat, (32 - o.count) as nat);
                    lemma_p2_pos((32 - o.count) as nat);
                    assert(p2(o.count as nat) * 1 <= p2(o.count as nat) * p2((32 - o.count) as nat)) by (nonlinear_arith)
                        requires p2((32 - o.count) as nat) >= 1;
                }
                lemma_p2_adds(32, 16);
                assert(p2(32) == 0x1_0000_0000) by {
                    lemma_p2_adds(16, 16);
                }
            }
            self.buf = self.buf * 65536 + w;
            self.count = self.count + 16;
            proof {
                reveal(reader_bit);
                let nb = self.buf as nat;
                lemma_to_bits_split(nb, o.count as nat, 16);
                assert(nb / p2(16) == o.buf) by {
                    vstd::arithmetic::div_mod::lemma_fundamental_div_mod_converse(nb as int, 65536, o.buf as int, w as int);
                }
                assert(nb % p2(16) == w) by {
                    vstd::arithmetic::div_mod::lemma_fundamental_div_mod_converse(nb as int, 65536, o.buf as int, w as int);
                }
                lemma_to_bits_mod(nb, 16);
                lemma_to_bits_len(o.buf as nat, o.count as nat);
                lemma_to_bits_len(w as nat, 16);
                assert(to_bits(nb, self.count as nat) == to_bits(o.buf as nat, o.count as nat) + to_bits(w as nat, 16));
                assert forall|i: int| 0 <= i implies #[trigger] self.bit(i) == o.bit(i) by {
                    if i < o.count {
                        assert(to_bits(nb, self.count as nat)[i] == to_bits(o.buf as nat, o.count as nat)[i]);
                    } else if i < self.count {
                        let j = i - o.count;
                        assert(to_bits(nb, self.count as nat)[i] == to_bits(w as nat, 16)[j]);
                        assert(j / 16 == 0);
                        assert(j % 16 == j);
                    } else {
                        let j = i - o.count;
                        let k = i - self.count;
                        assert(k == j - 16);
                        assert(k / 16 == j / 16 - 1);
                        assert(k % 16 == j % 16);
                        if o.pos + 1 >= o.p@.len() {
                            assert(word_at(o.p@, self.pos + 2 * (k / 16)) == 0);
                            assert(word_at(o.p@, o.pos + 2 * (j / 16)) == 0);
                        } else {
                            assert(self.pos + 2 * (k / 16) == o.pos + 2 * (j / 16));
                        }
                    }
                }
            }
        }
    }

    /// Reads the next `bits` bits as a number, first bit most significant.
    #[verifier::rlimit(80)]
    #[verifier::spinoff_prover]
    pub fn read(&mut self, bits: u32) -> (v: u32)
        requires
            old(self).wf(),
            bits <= 32,
        ensures
            final(self).wf(),
            v == bits_value(old(self).upcoming(bits as nat)),
            old(self).skipped(&*final(self), bits as int),
            final(self).pos >= old(self).pos,
            final(self).count % 16 == (old(self).count + 32 - bits) % 16,
    {
        if bits == 0 {
            proof {
                assert(old(self).upcoming(0) =~= Seq::<bool>::empty());
            }
            return 0;
        }
        self.ensure(bits);
        let ghost o = *self;
        let q = pow2_u64(self.count - bits);
        proof {
            lemma_p2_pos((self.count - bits) as nat);
        }
        let v = self.buf / q;
        let rest = self.buf % q;
        proof {
            lemma_take_high(o.buf, o.count, bits, q, v, rest);
        }
        self.buf = rest;
        self.count = self.count - bits;
        proof {
            reveal(reader_bit);
            assert forall|i: int| 0 <= i < bits implies #[trigger] old(self).upcoming(bits as nat)[i] == to_bits(v as nat, bits as nat)[i] by {
                assert(old(self).bit(i) == o.bit(i));
            }
            assert(old(self).upcoming(bits as nat) =~= to_bits(v as nat, bits as nat));
            assert forall|i: int| 0 <= i implies #[trigger] self.bit(i) == old(self).bit(i + bits) by {
                assert(old(self).bit(i + bits) == o.bit(i + bits));
            }
        }
        v as u32
    }

    /// The `j`-th byte `read_bytes` hands out when asked for `n` bytes.
    pub open spec fn byte_out(&self, n: nat, j: int) -> u8 {
        let k = if n < self.count / 8 { n } else { (self.count / 8) as nat };
        if j < k {
            bits_value(to_bits(self.buf as nat, self.count as nat).subrange(8 * j, 8 * j + 8)) as u8
        } else if self.pos + (j - k) < self.p@.len() {
            self.p@[self.pos + (j - k)]
        } else {
            0
        }
    }

    /// Appends the next `n` bytes: first whole bytes still pending, then bytes
    /// straight from the input, then zeros once it is used up.
    pub fn read_bytes(&mut self, dst: &mut Vec<u8>, n: usize)
        requires
            old(self).wf(),
        ensures
            final(self).wf(),
            final(dst)@ == old(dst)@ + Seq::new(n as nat, |j: int| old(self).byte_out(n as nat, j)),
            final(self).p@ == old(self).p@,
            ({
                let k = if n < old(self).count / 8 { n as nat } else { (old(self).count / 8) as nat };
                let m = if n - k < old(self).p@.len() - old(self).pos { (n - k) as nat } else { (old(self).p@.len() - old(self).pos) as nat };
                &&& final(self).count == old(self).count - 8 * k
                &&& final(self).pos == old(self).pos + m
                &&& to_bits(final(self).buf as nat, final(self).count as nat) == to_bits(old(self).buf as nat, old(self).count as nat).skip(8 * k as int)
            }),
    {
        let ghost o = *self;
        let ghost d0 = dst@;
        let ghost pend = to_bits(o.buf as nat, o.count as nat);
        proof {
            lemma_to_bits_len(o.buf as nat, o.count as nat);
        }
        let k: usize = if n < (self.count / 8) as usize { n } else { (self.count / 8) as usize };
        let mut i: usize = 0;
        while i < k
            invariant
                self.wf(),
                self.p@ == o.p@,
                self.pos == o.pos,
                k <= n,
                k == (if n < o.count / 8 { n as nat } else { (o.count / 8) as nat }),
                i <= k,
                self.count == o.count - 8 * i,
                pend.len() == o.count,
                pend == to_bits(o.buf as nat, o.count as nat),
                to_bits(self.buf as nat, self.count as nat) == pend.skip(8 * i),
                dst@ == d0 + Seq::new(i as nat, |j: int| o.byte_out(n as nat, j)),
            decreases k - i,
        {
            let ghost b0 = self.buf;
            let q = pow2_u64(self.count - 8);
            proof {
                lemma_p2_pos((self.count - 8) as nat);
            }
            let byte = self.buf / q;
            let rest = self.buf % q;
            proof {
                lemma_take_high(b0, self.count, 8, q, byte, rest);
                lemma_to_bits_len(rest as nat, (self.count - 8) as nat);
                lemma_p2_values();
                let cur = to_bits(b0 as nat, self.count as nat);
                assert(to_bits(byte as nat, 8) =~= pend.subrange(8 * i, 8 * i + 8)) by {
                    assert forall|t: int| 0 <= t < 8 implies #[trigger] to_bits(byte as nat, 8)[t] == pend.subrange(8 * i, 8 * i + 8)[t] by {
                        assert(cur[t] == pend.skip(8 * i)[t]);
                    }
                }
                assert(to_bits(rest as nat, (self.count - 8) as nat) =~= pend.skip(8 * (i + 1))) by {
                    assert forall|t: int| 0 <= t < self.count - 8 implies #[trigger] to_bits(rest as nat, (self.count - 8) as nat)[t] == pend.skip(8 * (i + 1))[t] by {
                        assert(cur[t + 8] == pend.skip(8 * i)[t + 8]);
                    }
                }
                assert(bits_value(pend.subrange(8 * i, 8 * i + 8)) == byte);
                assert(byte < 256);
                assert((i as int) < (if (n as nat) < o.count / 8 { n as nat } else { (o.count / 8) as nat }));
                assert(pend == to_bits(o.buf as nat, o.count as nat));
                assert(o.byte_out(n as nat, i as int) == bits_value(to_bits(o.buf as nat, o.count as nat).subrange(8 * i, 8 * i + 8)) as u8);
                assert(o.byte_out(n as nat, i as int) == byte as u8);
            }
            dst.push(byte as u8);
            self.buf = rest;
            self.count = self.count - 8;
            i = i + 1;
            proof {
                assert(dst@ =~= d0 + Seq::new(i as nat, |j: int| o.byte_out(n as nat, j)));
            }
        }
        let avail = self.p.len() - self.pos;
        let m: usize = if n - k < avail { n - k } else { avail };
        while i < k + m
            invariant
                self.wf(),
                self.p@ == o.p@,
                k <= i <= k + m,
                k + m <= n,
                m <= o.p@.len() - o.pos,
                k == (if n < o.count / 8 { n as nat } else { (o.count / 8) as nat }),
                self.pos == o.pos + (i - k),
                self.count == o.count - 8 * k,
                to_bits(self.buf as nat, self.count as nat) == pend.skip(8 * k as int),
                dst@ == d0 + Seq::new(i as nat, |j: int| o.byte_out(n as nat, j)),
            decreases k + m - i,
        {
            proof {
                assert(o.byte_out(n as nat, i as int) == o.p@[self.pos as int]);
            }
            dst.push(self.p[self.pos]);
            self.pos = self.pos + 1;
            i = i + 1;
            proof {
                assert(dst@ =~= d0 + Seq::new(i as nat, |j: int| o.byte_out(n as nat, j)));
            }
        }
        while i < n
            invariant
                self.wf(),
                self.p@ == o.p@,
                k + m <= i <= n,
                m == (if n - k < o.p@.len() - o.pos { (n - k) as nat } else { (o.p@.len() - o.pos) as nat }),
                k == (if n < o.count / 8 { n as nat } else { (o.count / 8) as nat }),
                self.pos == o.pos + m,
                self.count == o.count - 8 * k,
                to_bits(self.buf as nat, self.count as nat) == pend.skip(8 * k as int),
                dst@ == d0 + Seq::new(i as nat, |j: int| o.byte_out(n as nat, j)),
            decreases n - i,
        {
            proof {
                assert(o.byte_out(n as nat, i as int) == 0);
            }
            dst.push(0);
            i = i + 1;
            proof {
                assert(dst@ =~= d0 + Seq::new(i as nat, |j: int| o.byte_out(n as nat, j)));
            }
        }
    }

    /// Skips to the next 16-bit word boundary.
    pub fn align_to_word(&mut self)
        requires
            old(self).wf(),
        ensures
            final(self).wf(),
            final(self).count % 16 == 0,
            final(self).pos == old(self).pos,
            old(self).skipped(&*final(self), (old(self).count % 16) as int),
    {
        reveal(reader_bit);
        let ghost o = *self;
        let drop = self.count % 16;
        let keep = self.count - drop;
        let q = pow2_u64(keep);
        proof {
            lemma_to_bits_split(o.buf as nat, drop as nat, keep as nat);
            lemma_to_bits_mod(o.buf as nat, keep as nat);
            lemma_to_bits_len(o.buf as nat, o.count as nat);
            lemma_to_bits_len((o.buf / q) as nat, drop as nat);
            lemma_p2_pos(keep as nat);
        }
        self.buf = self.buf % q;
        self.count = keep;
        proof {
            assert forall|i: int| 0 <= i implies #[trigger] self.bit(i) == o.bit(i + drop) by {
                if i < keep {
                    assert(to_bits(o.buf as nat, o.count as nat)[i + drop] == (to_bits((o.buf / q) as nat, drop as nat) + to_bits(o.buf as nat, keep as nat))[i + drop]);
                }
            }
        }
    }
}


/// How many of the first `upto` code lengths in `lens` equal `l`.
pub open spec fn count_len(lens: Seq<u8>, upto: int, l: int) -> nat
    decreases upto,
{
    if upto <= 0 {
        0
    } else {
        count_len(lens, upto - 1, l) + (if lens[upto - 1] == l { 1nat } else { 0nat })
    }
}

/// How many of the first `upto` code lengths lie in `[a, b)`.
pub open spec fn count_range(lens: Seq<u8>, upto: int, a: int, b: int) -> nat
    decreases upto,
{
    if upto <= 0 {
        0
    } else {
        count_range(lens, upto - 1, a, b) + (if a <= lens[upto - 1] < b { 1nat } else { 0nat })
    }
}

/// The canonical first code of length `l` (lengths 1..=16) for the first `n` lengths.
pub open spec fn first_code_of(lens: Seq<u8>, n: int, l: int) -> nat
    decreases l,
{
    if l <= 1 {
        0
    } else {
        (first_code_of(lens, n, l - 1) + count_len(lens, n, l - 1)) * 2
    }
}

/// Where the symbols of code length `l` start in the canonical symbol order.
pub open spec fn first_index_of(lens: Seq<u8>, n: int, l: int) -> nat
    decreases l,
{
    if l <= 1 {
        0
    } else {
        first_index_of(lens, n, l - 1) + count_len(lens, n, l - 1)
    }
}

proof fn lemma_count_len_mono(lens: Seq<u8>, a: int, b: int, l: int)
    requires
        a <= b,
    ensures
        count_len(lens, a, l) <= count_len(lens, b, l),
    decreases b - a,
{
    if a < b {
        lemma_count_len_mono(lens, a, b - 1, l);
    }
}

proof fn lemma_count_range_split(lens: Seq<u8>, upto: int, a: int, b: int)
    requires
        a <= b,
    ensures
        count_range(lens, upto, a, b + 1) == count_range(lens, upto, a, b) + count_len(lens, upto, b),
        count_range(lens, upto, a, b) <= if upto < 0 { 0 } else { upto as nat },
    decreases upto,
{
    if upto > 0 {
        lemma_count_range_split(lens, upto - 1, a, b);
    }
}

proof fn lemma_first_index_range(lens: Seq<u8>, n: int, l: int)
    requires
        1 <= l,
    ensures
        first_index_of(lens, n, l) == count_range(lens, n, 1, l),
    decreases l,
{
    if l > 1 {
        lemma_first_index_range(lens, n, l - 1);
        lemma_count_range_split(lens, n, 1, l - 1);
    } else {
        assert(count_range(lens, n, 1, 1) == 0) by {
            lemma_count_range_zero(lens, n);
        }
    }
}

proof fn lemma_count_range_zero(lens: Seq<u8>, n: int)
    ensures
        count_range(lens, n, 1, 1) == 0,
    decreases n,
{
    if n > 0 {
        lemma_count_range_zero(lens, n - 1);
    }
}

proof fn lemma_first_index_mono(lens: Seq<u8>, n: int, a: int, b: int)
    requires
        1 <= a <= b,
    ensures
        first_index_of(lens, n, a) <= first_index_of(lens, n, b),
    decreases b - a,
{
    if a < b {
        lemma_first_index_mono(lens, n, a, b - 1);
    }
}

/// A canonical Huffman decoder: for each code length, the first code, the number of
/// codes, and where their symbols start in `syms`.
pub struct HuffDecoder {
    pub count: Vec<u32>,
    pub first_code: Vec<u32>,
    pub first_index: Vec<u32>,
    pub max_excl: Vec<u32>,
    pub syms: Vec<u16>,
}

impl HuffDecoder {
    /// The table shapes every use of the decoder relies on.
    pub open spec fn wf(&self) -> bool {
        &&& self.count@.len() == 18
        &&& self.first_code@.len() == 18
        &&& self.first_index@.len() == 18
        &&& self.max_excl@.len() == 18
        &&& forall|l: int| 1 <= l <= 16 ==> #[trigger] self.max_excl@[l] == self.first_code@[l] + self.count@[l]
        &&& forall|l: int| 1 <= l <= 16 ==> #[trigger] self.first_index@[l] + self.count@[l] <= self.syms@.len()
        &&& self.syms@.len() <= 65536
    }

    /// The decoder holds the canonical code of the first `n` lengths of `lens`.
    pub open spec fn built_from(&self, lens: Seq<u8>, n: int) -> bool {
        &&& self.wf()
        &&& forall|l: int| 1 <= l <= 16 ==> #[trigger] self.count@[l] == count_len(lens, n, l)
        &&& forall|l: int| 1 <= l <= 16 ==> #[trigger] self.first_code@[l] == first_code_of(lens, n, l)
        &&& forall|l: int| 1 <= l <= 16 ==> #[trigger] self.first_index@[l] == first_index_of(lens, n, l)
        &&& self.syms@.len() == first_index_of(lens, n, 17)
        &&& self.syms_below(n)
        &&& forall|s: int| 0 <= s < n && 1 <= lens[s] <= 16 ==>
            #[trigger] self.syms@[(first_index_of(lens, n, lens[s] as int) + count_len(lens, s, lens[s] as int)) as int] == s
    }

    /// Every symbol the decoder can hand out is below `n`.
    pub open spec fn syms_below(&self, n: int) -> bool {
        forall|j: int| 0 <= j < self.syms@.len() ==> #[trigger] self.syms@[j] < n
    }

    /// Whether the first `l` bits of `b` form a code of length `l`.
    pub open spec fn matches_at(&self, b: Seq<bool>, l: int) -> bool {
        &&& self.count@[l] != 0
        &&& self.first_code@[l] <= bits_value(b.take(l))
        &&& bits_value(b.take(l)) < self.max_excl@[l]
    }

    /// The shortest length from `l` up to 16 at which `b` starts with a code; 17 if none.
    pub open spec fn code_len(&self, b: Seq<bool>, l: int) -> int
        decreases 17 - l,
    {
        if l > 16 {
            17
        } else if self.matches_at(b, l) {
            l
        } else {
            self.code_len(b, l + 1)
        }
    }

    /// The symbol whose code of length `l` starts `b`.
    pub open spec fn symbol_at(&self, b: Seq<bool>, l: int) -> int {
        self.syms@[self.first_index@[l] + bits_value(b.take(l)) - self.first_code@[l]] as int
    }

    /// An empty decoder: it matches no code.
    pub fn new() -> (d: HuffDecoder)
        ensures
            d.wf(),
            d.syms@.len() == 0,
            forall|l: int| 1 <= l <= 16 ==> #[trigger] d.count@[l] == 0,
    {
        HuffDecoder {
            count: vec![0u32; 18],
            first_code: vec![0u32; 18],
            first_index: vec![0u32; 18],
            max_excl: vec![0u32; 18],
            syms: Vec::new(),
        }
    }

    /// Builds the canonical code of the first `n` lengths of `lens`.
    pub fn build(&mut self, lens: &[u8], n: usize)
        requires
            n <= lens@.len(),
            n <= 1024,
            forall|i: int| 0 <= i < n ==> #[trigger] lens@[i] <= 16,
        ensures
            final(self).built_from(lens@, n as int),
    {
        let ghost ls = lens@;
        let mut count: Vec<u32> = vec![0u32; 18];
        let mut i: usize = 0;
        while i < n
            invariant
                i <= n,
                n <= lens@.len(),
                ls == lens@,
                n <= 1024,
                forall|j: int| 0 <= j < n ==> #[trigger] lens@[j] <= 16,
                count@.len() == 18,
                forall|l: int| 0 <= l < 18 ==> #[trigger] count@[l] == count_len(ls, i as int, l),
                forall|l: int| 0 <= l < 18 ==> #[trigger] count@[l] <= i,
            decreases n - i,
        {
            let l = lens[i] as usize;
            count.set(l, count[l] + 1);
            i = i + 1;
        }
        let mut first_code: Vec<u32> = vec![0u32; 18];
        let mut first_index: Vec<u32> = vec![0u32; 18];
        let mut max_excl: Vec<u32> = vec![0u32; 18];
        let mut code: u32 = 0;
        let mut idx: u32 = 0;
        let mut l: usize = 1;
        while l <= 16
            invariant
                1 <= l <= 17,
                n <= 1024,
                count@.len() == 18,
                first_code@.len() == 18,
                first_index@.len() == 18,
                max_excl@.len() == 18,
                forall|k: int| 0 <= k < 18 ==> #[trigger] count@[k] == count_len(ls, n as int, k),
                code == first_code_of(ls, n as int, l as int),
                idx == first_index_of(ls, n as int, l as int),
                idx <= n,
                code <= p2((l - 1) as nat) * idx,
                forall|k: int| 1 <= k < l ==> #[trigger] first_code@[k] == first_code_of(ls, n as int, k),
                forall|k: int| 1 <= k < l ==> #[trigger] first_index@[k] == first_index_of(ls, n as int, k),
                forall|k: int| 1 <= k < l ==> #[trigger] max_excl@[k] == first_code@[k] + count@[k],
            decreases 17 - l,
        {
            proof {
                lemma_first_index_range(ls, n as int, (l + 1) as int);
                lemma_count_range_split(ls, n as int, 1, (l + 1) as int);
                lemma_p2_pos((l - 1) as nat);
                lemma_p2_adds((l - 1) as nat, 1);
                lemma_p2_values();
                reveal_with_fuel(p2, 2);
                assert(p2(15) * 1024 <= 0x1000_0000) by {
                    lemma_p2_adds(15, 1);
                    lemma_p2_adds(8, 8);
                    lemma_p2_adds(7, 8);
                }
                assert(p2((l - 1) as nat) <= p2(15)) by {
                    lemma_p2_adds((l - 1) as nat, (16 - l) as nat);
                    lemma_p2_pos((16 - l) as nat);
                    assert(p2((l - 1) as nat) * 1 <= p2((l - 1) as nat) * p2((16 - l) as nat)) by (nonlinear_arith)
                        requires p2((16 - l) as nat) >= 1;
                }
                let pl = p2((l - 1) as nat);
                let c = count@[l as int] as nat;
                assert(code + c <= pl * (idx + c)) by (nonlinear_arith)
                    requires code <= pl * idx, pl >= 1;
                assert(pl * (idx + c) <= p2(15) * 1024) by (nonlinear_arith)
                    requires pl <= p2(15), idx + c <= 1024;
                assert((code + c) * 2 <= p2(l as nat) * (idx + c)) by (nonlinear_arith)
                    requires code + c <= pl * (idx + c), p2(l as nat) == pl * 2;
            }
            first_code.set(l, code);
            first_index.set(l, idx);
            idx = idx + count[l];
            max_excl.set(l, code + count[l]);
            code = (code + count[l]) * 2;
            l = l + 1;
        }
        proof {
            lemma_first_index_range(ls, n as int, 17);
            lemma_count_range_split(ls, n as int, 1, 17);
        }
        let mut syms: Vec<u16> = vec![0u16; idx as usize];
        proof {
            if n == 0 {
                assert(count_range(ls, 0, 1, 17) == 0);
            }
            assert forall|j: int| 0 <= j < syms@.len() implies #[trigger] syms@[j] < n by {
                assert(syms@[j] == 0);
            }
        }
        let mut seen: Vec<u32> = vec![0u32; 18];
        let mut s: usize = 0;
        while s < n
            invariant
                s <= n,
                n <= 1024,
                n <= lens@.len(),
                ls == lens@,
                forall|j: int| 0 <= j < n ==> #[trigger] lens@[j] <= 16,
                syms@.len() == first_index_of(ls, n as int, 17),
                first_index_of(ls, n as int, 17) <= n,
                seen@.len() == 18,
                first_index@.len() == 18,
                forall|k: int| 1 <= k <= 16 ==> #[trigger] first_index@[k] == first_index_of(ls, n as int, k),
                forall|k: int| 1 <= k <= 16 ==> #[trigger] seen@[k] == count_len(ls, s as int, k),
                forall|t: int| 0 <= t < s && 1 <= ls[t] <= 16 ==>
                    #[trigger] syms@[(first_index_of(ls, n as int, ls[t] as int) + count_len(ls, t, ls[t] as int)) as int] == t,
                forall|j: int| 0 <= j < syms@.len() ==> #[trigger] syms@[j] < n,
            decreases n - s,
        {
            let ln = lens[s] as usize;
            if ln != 0 {
                let ghost old_syms = syms@;
                proof {
                    let lk = ln as int;
                    lemma_count_len_mono(ls, s as int + 1, n as int, lk);
                    lemma_first_index_mono(ls, n as int, lk + 1, 17);
                    assert(first_index_of(ls, n as int, lk) + count_len(ls, s as int, lk) < first_index_of(ls, n as int, lk + 1));
                }
                let pos = (first_index[ln] + seen[ln]) as usize;
                syms.set(pos, s as u16);
                seen.set(ln, seen[ln] + 1);
                proof {
                    let lk = ln as int;
                    assert forall|t: int| 0 <= t < s + 1 && 1 <= ls[t] <= 16 implies
                        #[trigger] syms@[(first_index_of(ls, n as int, ls[t] as int) + count_len(ls, t, ls[t] as int)) as int] == t by {
                        if t < s {
                            let lt = ls[t] as int;
                            let it = (first_index_of(ls, n as int, lt) + count_len(ls, t, lt)) as int;
                            assert(old_syms[it] == t);
                            lemma_count_len_mono(ls, t + 1, n as int, lt);
                            lemma_first_index_mono(ls, n as int, lt + 1, 17);
                            assert(it < syms@.len());
                            if lt == lk {
                                lemma_count_len_mono(ls, t + 1, s as int, lk);
                                assert(it < pos);
                            } else if lt < lk {
                                lemma_count_len_mono(ls, t + 1, n as int, lt);
                                lemma_first_index_mono(ls, n as int, lt + 1, lk);
                                assert(it < pos);
                            } else {
                                lemma_count_len_mono(ls, s as int + 1, n as int, lk);
                                lemma_first_index_mono(ls, n as int, lk + 1, lt);
                                assert(it > pos);
                            }
                            assert(syms@[it] == old_syms[it]);
                        }
                    }
                }
            }
            s = s + 1;
        }
        self.count = count;
        self.first_code = first_code;
        self.first_index = first_index;
        self.max_excl = max_excl;
        self.syms = syms;
        proof {
            assert forall|l: int| 1 <= l <= 16 implies #[trigger] self.first_index@[l] + self.count@[l] <= self.syms@.len() by {
                lemma_first_index_mono(ls, n as int, l + 1, 17);
            }
        }
    }

    /// Decodes one symbol: reads bits one at a time until they form a code; -1 when
    /// no code of up to 16 bits matches.
    #[verifier::rlimit(100)]
    #[verifier::spinoff_prover]
    pub fn decode(&self, br: &mut BitReader) -> (r: i32)
        requires
            self.wf(),
            old(br).wf(),
        ensures
            final(br).wf(),
            final(br).pos >= old(br).pos,
            final(br).p@ == old(br).p@,
            forall|m: int| #[trigger] self.syms_below(m) && r >= 0 ==> r < m,
            ({
                let b = old(br).upcoming(16);
                let l = self.code_len(b, 1);
                if l <= 16 {
                    &&& r == self.symbol_at(b, l)
                    &&& old(br).skipped(&*final(br), l)
                    &&& final(br).count % 16 == (old(br).count + 32 - l) % 16
                } else {
                    &&& r == -1
                    &&& old(br).skipped(&*final(br), 16)
                    &&& final(br).count % 16 == old(br).count % 16
                }
            }),
    {
        let ghost b = old(br).upcoming(16);
        let mut code: u32 = 0;
        let mut l: usize = 1;
        while l <= 16
            invariant
                self.wf(),
                1 <= l <= 17,
                br.wf(),
                br.pos >= old(br).pos,
                b == old(br).upcoming(16),
                old(br).skipped(&*br, (l - 1) as int),
                br.count % 16 == (old(br).count + 32 - (l - 1)) % 16,
                code == bits_value(b.take((l - 1) as int)),
                code < p2((l - 1) as nat),
                self.code_len(b, 1) == self.code_len(b, l as int),
            decreases 17 - l,
        {
            let ghost before = *br;
            let bit = br.read(1);
            proof {
                assert(before.upcoming(1)[0] == before.bit(0));
                assert(before.bit(0) == old(br).bit(l - 1));
                assert(b[l - 1] == old(br).bit(l - 1));
                lemma_code_step(b, l as int, code, bit, before.upcoming(1));
                lemma_skip_trans(*old(br), before, *br, l - 1, 1);
            }
            code = code * 2 + bit;
            if self.count[l] != 0 && code >= self.first_code[l] && code < self.max_excl[l] {
                proof {
                    assert(self.matches_at(b, l as int));
                }
                let k = (self.first_index[l] + (code - self.first_code[l])) as usize;
                return self.syms[k] as i32;
            }
            proof {
                assert(!self.matches_at(b, l as int));
            }
            l = l + 1;
        }
        -1
    }
}

proof fn lemma_code_step(b: Seq<bool>, l: int, code: u32, bit: u32, one: Seq<bool>)
    requires
        1 <= l <= 16,
        b.len() == 16,
        code == bits_value(b.take(l - 1)),
        code < p2((l - 1) as nat),
        one.len() == 1,
        one[0] == b[l - 1],
        bit == bits_value(one),
    ensures
        code * 2 + bit == bits_value(b.take(l)),
        code * 2 + bit < p2(l as nat),
        p2(l as nat) <= 65536,
{
    reveal_with_fuel(bits_value, 2);
    assert(one =~= seq![b[l - 1]]);
    assert(b.take(l) =~= b.take(l - 1) + seq![b[l - 1]]);
    lemma_bits_value_append(b.take(l - 1), seq![b[l - 1]]);
    lemma_p2_values();
    reveal_with_fuel(p2, 2);
    lemma_p2_adds((l - 1) as nat, 1);
    lemma_p2_adds(l as nat, (16 - l) as nat);
    lemma_p2_pos((16 - l) as nat);
    assert(p2(l as nat) * 1 <= p2(l as nat) * p2((16 - l) as nat)) by (nonlinear_arith)
        requires p2((16 - l) as nat) >= 1;
}

/// Number of symbols in the pretree that codes the tree lengths.
pub const PRETREE_SYMS: usize = 20;
/// Number of literal symbols of the main tree.
pub const NUM_CHARS: usize = 256;
/// Number of symbols of the aligned-offset tree.
pub const ALIGNED_SYMS: usize = 8;
/// Number of symbols of the length tree.
pub const LEN_SYMS: usize = 249;
/// Bytes between 16-bit realignments of the stream.
pub const FRAME: u64 = 0x8000;

/// Why an LZX stream could not be decoded.
#[derive(Debug, Clone, Copy, PartialEq, Eq, Structural)]
pub enum LzxError {
    UnsupportedWindow,
    CorruptTrees,
    BadBlockType,
    CorruptStream,
    CorruptLength,
    CorruptAligned,
    MatchOutOfRange,
}

/// Footer bits of each position slot.
pub fn extra_bits(slot: usize) -> (e: u32)
    requires
        slot < 51,
    ensures
        e <= 17,
        e == (if slot < 4 { 0 } else if slot < 36 { (slot - 2) / 2 } else { 17 }),
{
    if slot < 4 {
        0
    } else if slot < 36 {
        ((slot - 2) / 2) as u32
    } else {
        17
    }
}

/// First formatted offset of each position slot.
pub fn pos_base(slot: usize) -> (b: u32)
    requires
        slot < 51,
    ensures
        b <= 51 * 131072,
        b == pos_base_spec(slot as int),
{
    let mut b: u32 = 0;
    let mut i: usize = 0;
    while i < slot
        invariant
            i <= slot < 51,
            b == pos_base_spec(i as int),
            b <= i * 131072,
        decreases slot - i,
    {
        let e = extra_bits(i);
        proof {
            lemma_p2_le_17(e as nat);
        }
        let step = pow2_u64(e) as u32;
        b = b + step;
        i = i + 1;
    }
    b
}

/// First formatted offset of position slot `slot`: each slot spans `2^extra` offsets.
pub open spec fn pos_base_spec(slot: int) -> nat
    decreases slot,
{
    if slot <= 0 {
        0
    } else {
        pos_base_spec(slot - 1) + p2(slot_extra(slot - 1))
    }
}

/// Footer bits of position slot `slot`.
pub open spec fn slot_extra(slot: int) -> nat {
    if slot < 4 { 0 } else if slot < 36 { ((slot - 2) / 2) as nat } else { 17 }
}

proof fn lemma_p2_le_17(e: nat)
    requires
        e <= 17,
    ensures
        p2(e) <= 131072,
{
    lemma_p2_adds(e, (17 - e) as nat);
    lemma_p2_pos((17 - e) as nat);
    assert(p2(e) * 1 <= p2(e) * p2((17 - e) as nat)) by (nonlinear_arith)
        requires p2((17 - e) as nat) >= 1;
    lemma_p2_adds(16, 1);
    lemma_p2_values();
}

/// Number of position slots for an LZX window of `2^window_bits` bytes.
pub fn slots_for_window(window_bits: u32) -> (n: usize)
    requires
        15 <= window_bits <= 21,
    ensures
        n == (if window_bits == 20 { 42 } else if window_bits == 21 { 50 } else { 30 + 2 * (window_bits - 15) }),
        n <= 50,
{
    if window_bits == 20 {
        42
    } else if window_bits == 21 {
        50
    } else {
        (30 + 2 * (window_bits - 15)) as usize
    }
}

/// Every bit a reader will hand out is zero.
pub open spec fn all_zero(r: &BitReader) -> bool {
    forall|i: int| 0 <= i ==> !#[trigger] r.bit(i)
}

proof fn lemma_exhausted_zero(r: &BitReader)
    requires
        r.wf(),
        r.pos == r.p@.len(),
        r.count == 0,
    ensures
        all_zero(r),
{
        reveal(reader_bit);
    lemma_to_bits_zero(16);
    assert forall|i: int| 0 <= i implies !#[trigger] r.bit(i) by {
        assert(word_at(r.p@, r.pos + 2 * (i / 16)) == 0);
    }
}

proof fn lemma_zero_read(r: &BitReader, n: nat)
    requires
        all_zero(r),
    ensures
        bits_value(r.upcoming(n)) == 0,
    decreases n,
{
    if n > 0 {
        lemma_zero_read(r, (n - 1) as nat);
        assert(r.upcoming(n).drop_last() =~= r.upcoming((n - 1) as nat));
        assert(!r.upcoming(n).last());
    }
}

/// The decoder state that lives across blocks.
pub struct LzxTrees {
    pub main_len: Vec<u8>,
    pub len_len: Vec<u8>,
    pub align_len: Vec<u8>,
    pub main_tree: HuffDecoder,
    pub len_tree: HuffDecoder,
    pub align_tree: HuffDecoder,
    pub main_syms: usize,
}

impl LzxTrees {
    pub open spec fn wf(&self) -> bool {
        &&& NUM_CHARS <= self.main_syms <= NUM_CHARS + 8 * 50
        &&& self.main_len@.len() == self.main_syms
        &&& self.len_len@.len() == LEN_SYMS
        &&& self.align_len@.len() == ALIGNED_SYMS
        &&& forall|j: int| 0 <= j < self.main_len@.len() ==> #[trigger] self.main_len@[j] <= 16
        &&& forall|j: int| 0 <= j < self.len_len@.len() ==> #[trigger] self.len_len@[j] <= 16
        &&& forall|j: int| 0 <= j < self.align_len@.len() ==> #[trigger] self.align_len@[j] <= 16
        &&& self.main_tree.wf()
        &&& self.main_tree.syms_below(self.main_syms as int)
        &&& self.len_tree.wf()
        &&& self.len_tree.syms_below(LEN_SYMS as int)
        &&& self.align_tree.wf()
        &&& self.align_tree.syms_below(ALIGNED_SYMS as int)
    }

    fn new(main_syms: usize) -> (t: LzxTrees)
        requires
            NUM_CHARS <= main_syms <= NUM_CHARS + 8 * 50,
        ensures
            t.wf(),
            t.main_syms == main_syms,
    {
        let t = LzxTrees {
            main_len: vec![0u8; main_syms],
            len_len: vec![0u8; LEN_SYMS],
            align_len: vec![0u8; ALIGNED_SYMS],
            main_tree: HuffDecoder::new(),
            len_tree: HuffDecoder::new(),
            align_tree: HuffDecoder::new(),
            main_syms,
        };
        proof {
            assert forall|j: int| 0 <= j < t.main_len@.len() implies #[trigger] t.main_len@[j] <= 16 by {
                assert(t.main_len@[j] == 0);
            }
            assert forall|j: int| 0 <= j < t.len_len@.len() implies #[trigger] t.len_len@[j] <= 16 by {
                assert(t.len_len@[j] == 0);
            }
            assert forall|j: int| 0 <= j < t.align_len@.len() implies #[trigger] t.align_len@[j] <= 16 by {
                assert(t.align_len@[j] == 0);
            }
        }
        t
    }

    /// Forgets the previous lengths at a reset point.
    fn clear(&mut self)
        requires
            old(self).wf(),
        ensures
            final(self).wf(),
            final(self).main_syms == old(self).main_syms,
            forall|k: int| 0 <= k < final(self).main_len@.len() ==> #[trigger] final(self).main_len@[k] == 0,
            forall|k: int| 0 <= k < final(self).len_len@.len() ==> #[trigger] final(self).len_len@[k] == 0,
            final(self).align_len@ == old(self).align_len@,
            final(self).main_tree == old(self).main_tree,
            final(self).len_tree == old(self).len_tree,
            final(self).align_tree == old(self).align_tree,
    {
        let mut j: usize = 0;
        while j < self.main_syms
            invariant
                self.wf(),
                self.main_syms == old(self).main_syms,
                j <= self.main_syms,
                forall|k: int| 0 <= k < j ==> #[trigger] self.main_len@[k] == 0,
                self.len_len@ == old(self).len_len@,
                self.align_len@ == old(self).align_len@,
                self.main_tree == old(self).main_tree,
                self.len_tree == old(self).len_tree,
                self.align_tree == old(self).align_tree,
            decreases self.main_syms - j,
        {
            self.main_len.set(j, 0);
            j = j + 1;
        }
        let mut j: usize = 0;
        while j < LEN_SYMS
            invariant
                self.wf(),
                self.main_syms == old(self).main_syms,
                j <= LEN_SYMS,
                forall|k: int| 0 <= k < self.main_len@.len() ==> #[trigger] self.main_len@[k] == 0,
                forall|k: int| 0 <= k < j ==> #[trigger] self.len_len@[k] == 0,
                self.align_len@ == old(self).align_len@,
                self.main_tree == old(self).main_tree,
                self.len_tree == old(self).len_tree,
                self.align_tree == old(self).align_tree,
            decreases LEN_SYMS - j,
        {
            self.len_len.set(j, 0);
            j = j + 1;
        }
    }
}

/// Whether reading from `b` made progress over `a` in input bytes, or used up the
/// last pending bits of an exhausted input.
pub open spec fn progressed(a: &BitReader, b: &BitReader) -> bool {
    ||| b.pos > a.pos
    ||| (a.pos == a.p@.len() && b.pos == a.pos && b.count == 0 && !all_zero(a))
}

/// Reads a block header: type, length, and the trees (verbatim/aligned) or the
/// repeated offsets (uncompressed). Returns the type and the length.
fn read_block_header(br: &mut BitReader, t: &mut LzxTrees, r0: &mut i32, r1: &mut i32, r2: &mut i32)
    -> (res: Result<(u32, u64), LzxError>)
    requires
        old(br).wf(),
        old(t).wf(),
    ensures
        final(br).wf(),
        final(br).p@ == old(br).p@,
        final(br).pos >= old(br).pos,
        res is Ok ==> final(t).wf(),
        final(t).main_syms == old(t).main_syms,
        res matches Err(e) ==> e != LzxError::UnsupportedWindow,
        all_zero(&*old(br)) ==> res is Err,
        res matches Ok((bt, bl)) ==> 1 <= bt <= 3 && bl < 0x100_0000,
        res matches Ok((bt, bl)) ==> (bt == 3 ==> progressed(&*old(br), &*final(br))),
{
    let ghost b0 = *br;
    let block_type = br.read(3);
    let ghost b1 = *br;
    let block_len = br.read(24);
    proof {
        lemma_bits_value_bound(b0.upcoming(3));
        lemma_bits_value_bound(b1.upcoming(24));
        lemma_p2_values();
        lemma_p2_adds(16, 8);
        if all_zero(&b0) {
            lemma_zero_read(&b0, 3);
        }
    }
    if block_type == 1 || block_type == 2 {
        if block_type == 2 {
            let mut j: usize = 0;
            while j < ALIGNED_SYMS
                invariant
                    br.wf(),
                    br.p@ == old(br).p@,
                    br.pos >= old(br).pos,
                    t.wf(),
                    t.main_syms == old(t).main_syms,
                decreases ALIGNED_SYMS - j,
            {
                let ghost bj = *br;
                let v = br.read(3);
                proof {
                    lemma_bits_value_bound(bj.upcoming(3));
                    lemma_p2_values();
                }
                t.align_len.set(j, v as u8);
                j = j + 1;
            }
        }
        let ms = t.main_syms;
        if !read_lengths(br, &mut t.main_len, 0, NUM_CHARS) {
            return Err(LzxError::CorruptTrees);
        }
        if !read_lengths(br, &mut t.main_len, NUM_CHARS, ms - NUM_CHARS) {
            return Err(LzxError::CorruptTrees);
        }
        if !read_lengths(br, &mut t.len_len, 0, LEN_SYMS) {
            return Err(LzxError::CorruptTrees);
        }
        t.main_tree.build(t.main_len.as_slice(), ms);
        t.len_tree.build(t.len_len.as_slice(), LEN_SYMS);
        if block_type == 2 {
            t.align_tree.build(t.align_len.as_slice(), ALIGNED_SYMS);
        }
        Ok((block_type, block_len as u64))
    } else if block_type == 3 {
        let ghost b2 = *br;
        br.align_to_word();
        let ghost b3 = *br;
        let mut rv: Vec<u8> = Vec::new();
        br.read_bytes(&mut rv, 12);
        proof {
            assert(rv@.len() == 12);
            assert(b3.count % 16 == 0);
            assert(b3.count / 8 <= 6);
            assert(br.count == 0);
            assert(b3.pos >= b0.pos);
            if b3.pos < b3.p@.len() {
                assert(br.pos > b3.pos);
            }
            assert(!all_zero(&b0));
        }
        *r0 = le_i32(&rv, 0);
        *r1 = le_i32(&rv, 4);
        *r2 = le_i32(&rv, 8);
        Ok((block_type, block_len as u64))
    } else {
        Err(LzxError::BadBlockType)
    }
}

/// Decodes one main-tree symbol of a verbatim (`block_type` 1) or aligned (2) block
/// and appends the literal or the match it stands for; returns the bytes appended.
fn decode_symbol(
    br: &mut BitReader,
    t: &LzxTrees,
    block_type: u32,
    out: &mut Vec<u8>,
    r0: &mut i32,
    r1: &mut i32,
    r2: &mut i32,
) -> (res: Result<usize, LzxError>)
    requires
        old(br).wf(),
        t.wf(),
        1 <= block_type <= 2,
        old(out)@.len() + 300 <= usize::MAX,
    ensures
        final(br).wf(),
        final(br).p@ == old(br).p@,
        final(br).pos >= old(br).pos,
        res matches Ok(n) ==> 1 <= n <= 257 && final(out)@.len() == old(out)@.len() + n,
        res matches Err(e) ==> e != LzxError::UnsupportedWindow,
{
    let sym = t.main_tree.decode(br);
    if sym < 0 {
        return Err(LzxError::CorruptStream);
    }
    let symu = sym as usize;
    if symu < NUM_CHARS {
        out.push(symu as u8);
        return Ok(1);
    }
    let slot = (symu - NUM_CHARS) / 8;
    let len_header = (symu - NUM_CHARS) % 8;
    let mut match_len: usize = len_header + 2;
    if len_header == 7 {
        let extra = t.len_tree.decode(br);
        if extra < 0 {
            return Err(LzxError::CorruptLength);
        }
        match_len = extra as usize + 9;
    }
    let match_offset: i32;
    if slot == 0 {
        match_offset = *r0;
    } else if slot == 1 {
        match_offset = *r1;
        *r1 = *r0;
        *r0 = match_offset;
    } else if slot == 2 {
        match_offset = *r2;
        *r2 = *r0;
        *r0 = match_offset;
    } else {
        let eb = extra_bits(slot);
        let footer: u32;
        if block_type == 2 && eb >= 3 {
            let ghost b0 = *br;
            let verbatim = if eb > 3 { br.read(eb - 3) } else { 0 };
            proof {
                if eb > 3 {
                    lemma_bits_value_bound(b0.upcoming((eb - 3) as nat));
                    lemma_p2_le_17((eb - 3) as nat);
                    lemma_p2_adds((eb - 3) as nat, 3);
                    lemma_p2_values();
                }
            }
            let a = t.align_tree.decode(br);
            if a < 0 {
                return Err(LzxError::CorruptAligned);
            }
            footer = verbatim * 8 + a as u32;
        } else {
            let ghost b0 = *br;
            footer = br.read(eb);
            proof {
                lemma_bits_value_bound(b0.upcoming(eb as nat));
                lemma_p2_le_17(eb as nat);
            }
        }
        let base = pos_base(slot);
        match_offset = (base + footer) as i32 - 2;
        *r2 = *r1;
        *r1 = *r0;
        *r0 = match_offset;
    }
    if match_offset <= 0 || match_offset as usize > out.len() {
        return Err(LzxError::MatchOutOfRange);
    }
    let start = out.len();
    let src = out.len() - match_offset as usize;
    let mut k: usize = 0;
    while k < match_len
        invariant
            src < start,
            start == old(out)@.len(),
            out@.len() == start + k,
            k <= match_len,
            match_len <= 257,
            start + 300 <= usize::MAX,
        decreases match_len - k,
    {
        let b = out[src + k];
        out.push(b);
        k = k + 1;
    }
    Ok(match_len)
}

/// Decompresses an LZX stream of a CHM MSCompressed section: `uncompressed_size`
/// bytes, state reset every `reset_interval` bytes (0 stands for 0x10000), window of
/// `2^window_bits` bytes.
pub fn lzx_decompress(
    comp: &[u8],
    uncompressed_size: u64,
    reset_interval: u32,
    window_bits: u32,
) -> (r: Result<Vec<u8>, LzxError>)
    requires
        uncompressed_size + 1000 <= usize::MAX,
    ensures
        (r == Err::<Vec<u8>, LzxError>(LzxError::UnsupportedWindow)) <==> !(15 <= window_bits <= 21),
        r matches Ok(out) ==> out@.len() == uncompressed_size,
        15 <= window_bits <= 21 && uncompressed_size == 0 ==> (r matches Ok(out) && out@.len() == 0),
{
    if !(15 <= window_bits && window_bits <= 21) {
        return Err(LzxError::UnsupportedWindow);
    }
    let num_slots = slots_for_window(window_bits);
    let reset_interval: u32 = if reset_interval == 0 { 0x10000 } else { reset_interval };
    let size = uncompressed_size;

    let mut out: Vec<u8> = Vec::new();
    let mut br = BitReader::new(comp);
    let mut r0: i32 = 1;
    let mut r1: i32 = 1;
    let mut r2: i32 = 1;
    let mut t = LzxTrees::new(NUM_CHARS + 8 * num_slots);

    let mut produced: u64 = 0;
    let mut interval_remaining: u64 = 0;
    let mut since_frame: u64 = 0;
    let mut need_reset = true;
    let mut block_type: u32 = 0;

    while produced < size
        invariant
            br.wf(),
            br.p@ == comp@,
            15 <= window_bits <= 21,
            size == uncompressed_size,
            size + 1000 <= usize::MAX,
            out@.len() == produced,
            produced <= size + 300,
            since_frame < FRAME,
            reset_interval > 0,
            t.wf(),
            interval_remaining != 0 ==> 1 <= block_type <= 3,
        decreases size + 300 - produced, comp@.len() - br.pos, br.count,
    {
        let ghost top = br;
        let ghost produced0 = produced;
        let mut header = false;
        if need_reset {
            r0 = 1;
            r1 = 1;
            r2 = 1;
            t.clear();
            br.read(1);
            need_reset = false;
            interval_remaining = 0;
        }
        let ghost before_header = br;
        proof {
            if top.pos == comp@.len() && top.count == 0 {
                lemma_exhausted_zero(&top);
            }
        }
        if interval_remaining == 0 {
            header = true;
            match read_block_header(&mut br, &mut t, &mut r0, &mut r1, &mut r2) {
                Ok((bt, bl)) => {
                    block_type = bt;
                    interval_remaining = bl;
                }
                Err(e) => {
                    return Err(e);
                }
            }
        }
        let ghost after_header = br;
        if block_type == 3 {
            let a = interval_remaining;
            let b = FRAME - since_frame;
            let c = size - produced;
            let m1 = if a < b { a } else { b };
            let chunk = if m1 < c { m1 } else { c };
            br.read_bytes(&mut out, chunk as usize);
            produced = produced + chunk;
            interval_remaining = interval_remaining - chunk;
            since_frame = since_frame + chunk;
            proof {
                if chunk == 0 {
                    assert(header);
                    assert(progressed(&before_header, &after_header));
                    assert(br.pos == after_header.pos);
                    assert(br.count == after_header.count);
                }
            }
        } else {
            match decode_symbol(&mut br, &t, block_type, &mut out, &mut r0, &mut r1, &mut r2) {
                Ok(n) => {
                    produced = produced + n as u64;
                    interval_remaining = interval_remaining.wrapping_sub(n as u64);
                    since_frame = since_frame + n as u64;
                }
                Err(e) => {
                    return Err(e);
                }
            }
        }
        if since_frame >= FRAME {
            br.align_to_word();
            since_frame = 0;
            if produced % (reset_interval as u64) == 0 {
                need_reset = true;
            }
        }
    }
    out.truncate(size as usize);
    Ok(out)
}

/// The little-endian unsigned value of the four bytes at `p` of `s`.
pub open spec fn le_u32_at(s: Seq<u8>, p: int) -> int {
    s[p] + 256 * s[p + 1] + 65536 * s[p + 2] + 16777216 * s[p + 3]
}

/// The little-endian 32-bit signed number at `p` of `v`.
fn le_i32(v: &Vec<u8>, p: usize) -> (r: i32)
    requires
        p <= 8,
        v@.len() == 12,
    ensures
        r == (if le_u32_at(v@, p as int) < 0x8000_0000 {
            le_u32_at(v@, p as int)
        } else {
            le_u32_at(v@, p as int) - 0x1_0000_0000
        }),
{
    let u: u64 = v[p] as u64 + 256 * (v[p + 1] as u64) + 65536 * (v[p + 2] as u64) + 16777216 * (v[p + 3] as u64);
    if u < 0x8000_0000 {
        u as i32
    } else {
        (u as i64 - 0x1_0000_0000i64) as i32
    }
}

/// The `n` bits `r` hands out after its first `o`.
pub open spec fn bits_at(r: BitReader, o: int, n: nat) -> Seq<bool> {
    Seq::new(n, |i: int| r.bit(o + i))
}

/// The 20 pretree code lengths, 4 bits each, that `r` hands out first.
pub open spec fn pretree_lens(r: BitReader) -> Seq<u8> {
    Seq::new(20, |k: int| bits_value(bits_at(r, 4 * k, 4)) as u8)
}

/// `lens` with the `m` lengths from `a` on set to `v`.
pub open spec fn fill(lens: Seq<u8>, a: int, m: int, v: u8) -> Seq<u8> {
    Seq::new(lens.len(), |j: int| if a <= j < a + m { v } else { lens[j] })
}

/// A run of `want` lengths, cut to the `left` still to read.
pub open spec fn run_len(want: int, left: int) -> int {
    if want < left { want } else { left }
}

/// Reading lengths `i..size` (at `start`) with pretree `pre` from the bits of `r`
/// after its first `o`: each pretree symbol below 17 sets the next length to the
/// old one minus the symbol, mod 17; 17 and 18 give runs of zeros (4 + a 4-bit
/// count, 20 + a 5-bit count); 19 gives a run (4 + a 1-bit count) of one new length
/// coded by the next symbol. `None` where no code matches or a length would drop
/// below zero.
pub open spec fn lens_from(pre: HuffDecoder, r: BitReader, o: int, lens: Seq<u8>, start: int, i: int, size: int) -> Option<Seq<u8>>
    decreases size - i,
{
    if i >= size {
        Some(lens)
    } else {
        let b = bits_at(r, o, 16);
        let l = pre.code_len(b, 1);
        if l > 16 {
            None
        } else {
            let sym = pre.symbol_at(b, l);
            if sym == 17 {
                let m = run_len(bits_value(bits_at(r, o + l, 4)) + 4int, size - i);
                lens_from(pre, r, o + l + 4, fill(lens, start + i, m, 0), start, i + m, size)
            } else if sym == 18 {
                let m = run_len(bits_value(bits_at(r, o + l, 5)) + 20int, size - i);
                lens_from(pre, r, o + l + 5, fill(lens, start + i, m, 0), start, i + m, size)
            } else if sym == 19 {
                let m = run_len(bits_value(bits_at(r, o + l, 1)) + 4int, size - i);
                let b2 = bits_at(r, o + l + 1, 16);
                let l2 = pre.code_len(b2, 1);
                if l2 > 16 {
                    None
                } else {
                    let d = lens[start + i] - pre.symbol_at(b2, l2) + 17;
                    if d < 0 {
                        None
                    } else {
                        lens_from(pre, r, o + l + 1 + l2, fill(lens, start + i, m, (d % 17) as u8), start, i + m, size)
                    }
                }
            } else {
                lens_from(pre, r, o + l, lens.update(start + i, ((lens[start + i] - sym + 17) % 17) as u8), start, i + 1, size)
            }
        }
    }
}

proof fn lemma_code_len_ge(pre: HuffDecoder, b: Seq<bool>, l: int)
    requires
        l <= 17,
    ensures
        pre.code_len(b, l) >= l,
    decreases 17 - l,
{
    if l <= 16 && !pre.matches_at(b, l) {
        lemma_code_len_ge(pre, b, l + 1);
    }
}

proof fn lemma_ahead(r0: BitReader, b: BitReader, o: int, n: nat)
    requires
        o >= 0,
        r0.skipped(&b, o),
    ensures
        b.upcoming(n) == bits_at(r0, o, n),
{
    assert forall|i: int| 0 <= i < n implies #[trigger] b.upcoming(n)[i] == bits_at(r0, o, n)[i] by {
        assert(b.bit(i) == r0.bit(i + o));
    }
    assert(b.upcoming(n) =~= bits_at(r0, o, n));
}

proof fn lemma_skip_trans(r0: BitReader, a: BitReader, b: BitReader, o: int, k: int)
    requires
        o >= 0,
        k >= 0,
        r0.skipped(&a, o),
        a.skipped(&b, k),
    ensures
        r0.skipped(&b, o + k),
{
    assert forall|i: int| 0 <= i implies #[trigger] b.bit(i) == r0.bit(i + (o + k)) by {
        assert(b.bit(i) == a.bit(i + k));
        assert(a.bit(i + k) == r0.bit((i + k) + o));
    }
}

/// Reads `size` pretree-coded code lengths into `lens[start..start + size]`; each new
/// length is coded as a difference (mod 17) from the length already there, or as a
/// run. `false` on a stream no tree can be built from.
#[verifier::rlimit(100)]
#[verifier::spinoff_prover]
pub fn read_lengths(br: &mut BitReader, lens: &mut Vec<u8>, start: usize, size: usize) -> (ok: bool)
    requires
        old(br).wf(),
        start + size <= old(lens)@.len(),
        forall|j: int| start <= j < start + size ==> #[trigger] old(lens)@[j] <= 16,
    ensures
        final(br).wf(),
        final(br).p@ == old(br).p@,
        final(br).pos >= old(br).pos,
        final(lens)@.len() == old(lens)@.len(),
        forall|j: int| 0 <= j < final(lens)@.len() && !(start <= j < start + size) ==> #[trigger] final(lens)@[j] == old(lens)@[j],
        ok ==> forall|j: int| start <= j < start + size ==> #[trigger] final(lens)@[j] <= 16,
        exists|pre: HuffDecoder| #[trigger] pre.built_from(pretree_lens(*old(br)), 20) && {
            let res = lens_from(pre, *old(br), 80, old(lens)@, start as int, 0, size as int);
            &&& ok == res is Some
            &&& ok ==> final(lens)@ == res->0
        },
{
    let ghost r0 = *br;
    let mut pre_len: Vec<u8> = Vec::new();
    let mut k: usize = 0;
    while k < PRETREE_SYMS
        invariant
            br.wf(),
            br.p@ == old(br).p@,
            br.pos >= old(br).pos,
            r0 == *old(br),
            k <= PRETREE_SYMS,
            pre_len@.len() == k,
            forall|j: int| 0 <= j < k ==> #[trigger] pre_len@[j] <= 16,
            forall|j: int| 0 <= j < k ==> #[trigger] pre_len@[j] == bits_value(bits_at(r0, 4 * j, 4)) as u8,
            r0.skipped(&*br, 4 * k),
        decreases PRETREE_SYMS - k,
    {
        let ghost b0 = *br;
        let v = br.read(4);
        proof {
            lemma_small_read(b0.upcoming(4), 4);
            lemma_ahead(r0, b0, 4 * k, 4);
            lemma_skip_trans(r0, b0, *br, 4 * k, 4);
        }
        pre_len.push(v as u8);
        k = k + 1;
    }
    let mut pre = HuffDecoder::new();
    pre.build(pre_len.as_slice(), PRETREE_SYMS);
    proof {
        assert(pre_len@ =~= pretree_lens(r0));
    }
    let ghost pre_g = pre;
    let ghost target = lens_from(pre_g, r0, 80, old(lens)@, start as int, 0, size as int);
    let ghost o: int = 80;
    let total = lens.len();
    let mut i: usize = 0;
    while i < size
        invariant
            br.wf(),
            br.p@ == old(br).p@,
            br.pos >= old(br).pos,
            pre == pre_g,
            pre.built_from(pretree_lens(r0), 20),
            r0 == *old(br),
            o >= 0,
            r0.skipped(&*br, o),
            lens_from(pre_g, r0, o, lens@, start as int, i as int, size as int) == target,
            target == lens_from(pre_g, r0, 80, old(lens)@, start as int, 0, size as int),
            i <= size,
            start + size <= lens@.len(),
            total == lens@.len(),
            lens@.len() == old(lens)@.len(),
            forall|j: int| 0 <= j < lens@.len() && !(start <= j < start + size) ==> #[trigger] lens@[j] == old(lens)@[j],
            forall|j: int| start <= j < start + size ==> #[trigger] lens@[j] <= 16,
        decreases size - i,
    {
        let ghost bd = *br;
        let ghost l0 = lens@;
        let sym = pre.decode(br);
        proof {
            lemma_ahead(r0, bd, o, 16);
        }
        if sym < 0 {
            return false;
        }
        let ghost l = pre.code_len(bd.upcoming(16), 1);
        proof {
            lemma_code_len_ge(pre, bd.upcoming(16), 1);
            lemma_skip_trans(r0, bd, *br, o, l);
            o = o + l;
        }
        if sym == 17 {
            let ghost b0 = *br;
            let r4 = br.read(4);
            proof {
                lemma_small_read(b0.upcoming(4), 4);
                lemma_ahead(r0, b0, o, 4);
                lemma_skip_trans(r0, b0, *br, o, 4);
                o = o + 4;
            }
            let mut run = r4 + 4;
            let ghost i0 = i;
            let ghost run0 = run;
            while run > 0 && i < size
                invariant
                    i >= i0,
                    i0 < size,
                    run + (i - i0) == run0,
                    run0 > 0,
                    i <= size,
                    start + size <= lens@.len(),
                    total == lens@.len(),
                    lens@ == fill(l0, start + i0, i - i0, 0),
                    l0.len() == lens@.len(),
                decreases run,
            {
                lens.set(start + i, 0);
                i = i + 1;
                run = run - 1;
                proof {
                    assert(lens@ =~= fill(l0, start + i0, i - i0, 0));
                }
            }
            proof {
                assert(i - i0 == run_len(run0 as int, size - i0));
            }
        } else if sym == 18 {
            let ghost b0 = *br;
            let r5 = br.read(5);
            proof {
                lemma_small_read(b0.upcoming(5), 5);
                lemma_ahead(r0, b0, o, 5);
                lemma_skip_trans(r0, b0, *br, o, 5);
                o = o + 5;
            }
            let mut run = r5 + 20;
            let ghost i0 = i;
            let ghost run0 = run;
            while run > 0 && i < size
                invariant
                    i >= i0,
                    i0 < size,
                    run + (i - i0) == run0,
                    run0 > 0,
                    i <= size,
                    start + size <= lens@.len(),
                    total == lens@.len(),
                    lens@ == fill(l0, start + i0, i - i0, 0),
                    l0.len() == lens@.len(),
                decreases run,
            {
                lens.set(start + i, 0);
                i = i + 1;
                run = run - 1;
                proof {
                    assert(lens@ =~= fill(l0, start + i0, i - i0, 0));
                }
            }
            proof {
                assert(i - i0 == run_len(run0 as int, size - i0));
            }
        } else if sym == 19 {
            let ghost b0 = *br;
            let r1 = br.read(1);
            proof {
                lemma_small_read(b0.upcoming(1), 1);
                lemma_ahead(r0, b0, o, 1);
                lemma_skip_trans(r0, b0, *br, o, 1);
                o = o + 1;
            }
            let mut run = r1 + 4;
            let ghost bd2 = *br;
            let v = pre.decode(br);
            proof {
                lemma_ahead(r0, bd2, o, 16);
            }
            if v < 0 {
                return false;
            }
            proof {
                let l2 = pre.code_len(bd2.upcoming(16), 1);
                lemma_code_len_ge(pre, bd2.upcoming(16), 1);
                lemma_skip_trans(r0, bd2, *br, o, l2);
                o = o + l2;
            }
            let d = lens[start + i] as i32 - v + 17;
            if d < 0 {
                return false;
            }
            let new_len = (d % 17) as u8;
            let ghost i0 = i;
            let ghost run0 = run;
            while run > 0 && i < size
                invariant
                    i >= i0,
                    i0 < size,
                    run + (i - i0) == run0,
                    run0 > 0,
                    i <= size,
                    new_len <= 16,
                    start + size <= lens@.len(),
                    total == lens@.len(),
                    lens@ == fill(l0, start + i0, i - i0, new_len),
                    l0.len() == lens@.len(),
                decreases run,
            {
                lens.set(start + i, new_len);
                i = i + 1;
                run = run - 1;
                proof {
                    assert(lens@ =~= fill(l0, start + i0, i - i0, new_len));
                }
            }
            proof {
                assert(i - i0 == run_len(run0 as int, size - i0));
            }
        } else {
            let d = lens[start + i] as i32 - sym + 17;
            lens.set(start + i, (d % 17) as u8);
            i = i + 1;
        }
    }
    true
}

proof fn lemma_small_read(s: Seq<bool>, n: nat)
    requires
        s.len() == n,
        n <= 5,
    ensures
        bits_value(s) < p2(n),
        p2(1) == 2,
        p2(3) == 8,
        p2(4) == 16,
        p2(5) == 32,
{
    lemma_bits_value_bound(s);
    lemma_p2_values();
    reveal_with_fuel(p2, 6);
}

/// Splitting `c` pending bits into the first `b` (the number `v`) and the rest.
proof fn lemma_take_high(buf: u64, c: u32, b: u32, q: u64, v: u64, rest: u64)
    requires
        0 < b <= c,
        b <= 32,
        buf < p2(c as nat),
        q == p2((c - b) as nat),
        v == buf / q,
        rest == buf % q,
    ensures
        v < p2(b as nat),
        v <= u32::MAX,
        rest < q,
        bits_value(to_bits(v as nat, b as nat)) == v,
        to_bits(v as nat, b as nat).len() == b,
        forall|i: int| 0 <= i < b ==> #[trigger] to_bits(buf as nat, c as nat)[i] == to_bits(v as nat, b as nat)[i],
        forall|i: int| 0 <= i < c - b ==> #[trigger] to_bits(rest as nat, (c - b) as nat)[i] == to_bits(buf as nat, c as nat)[i + b],
{
    let cn = c as nat;
    let bn = b as nat;
    let r = (cn - bn) as nat;
    lemma_p2_adds(bn, r);
    lemma_p2_pos(r);
    lemma_p2_pos(bn);
    lemma_to_bits_split(buf as nat, bn, r);
    let x = buf as nat;
    let pb = p2(bn);
    let pr = p2(r);
    assert(x < pb * pr);
    assert(x / pr < pb) by (nonlinear_arith)
        requires x < pb * pr, pr >= 1;
    lemma_to_bits_value(v as nat, bn);
    vstd::arithmetic::div_mod::lemma_small_mod(v as nat, pb);
    lemma_to_bits_len(v as nat, bn);
    lemma_to_bits_len(buf as nat, cn);
    lemma_to_bits_mod(buf as nat, r);
    assert(to_bits(buf as nat, cn) == to_bits(v as nat, bn) + to_bits(buf as nat, r));
    assert(pb <= p2(32)) by {
        lemma_p2_adds(bn, (32 - bn) as nat);
        lemma_p2_pos((32 - bn) as nat);
        assert(pb * 1 <= pb * p2((32 - bn) as nat)) by (nonlinear_arith)
            requires p2((32 - bn) as nat) >= 1;
    }
    lemma_p2_adds(16, 16);
    lemma_p2_values();
}

} // verus!
