//! LZX encoder with CHM parameters (64K window, 64K reset interval): 16-bit
//! little-endian bit stream, bits placed most significant first; verbatim/aligned
//! blocks; pretree-delta-coded Huffman trees; full state reset each reset interval;
//! 16-bit realignment every 0x8000 output bytes.
use vstd::prelude::*;
use crate::bitstream::{
    bits_value, lemma_p2_adds, lemma_p2_pos, lemma_p2_values, lemma_to_bits_len, lemma_to_bits_mod,
    lemma_to_bits_split, lemma_to_bits_value, lemma_unpack16_len, p2, pow2_u64, to_bits, unpack16,
    lemma_stream_unpack, stream_bit,
};
use crate::lzxdecode::{count_len, first_code_of, pos_base_spec, slot_extra, BitReader};

verus! {

/// Bytes between 16-bit realignments.
pub const FRAME: usize = 0x8000;
/// Bytes between full state resets.
pub const INTERVAL: usize = 0x10000;
pub const NUM_CHARS: usize = 256;
/// Position slots of a 2^16 window.
pub const NUM_SLOTS: usize = 32;
pub const MAIN_SYMS: usize = 512;
pub const LEN_SYMS: usize = 249;
pub const PRETREE_SYMS: usize = 20;
pub const ALIGNED_SYMS: usize = 8;
pub const MIN_MATCH: usize = 2;
pub const MAX_MATCH: usize = 257;
pub const MAX_DIST: u32 = 0xFFFD;
pub const HASH_BITS: u32 = 15;
pub const MAX_CHAIN: i32 = 128;
pub const BLOCK_VERBATIM: u32 = 1;
pub const BLOCK_ALIGNED: u32 = 2;
pub const TOK_MATCH: u32 = 0x8000_0000;

/// The compressed bytes, the offset at which each 0x8000-byte frame of input starts
/// in them, and the input length rounded up to whole frames.
pub struct LzxResult {
    pub data: Vec<u8>,
    pub frame_starts: Vec<u64>,
    pub padded_size: u64,
}

/// Footer bits and first formatted offset of each position slot.
pub struct Slots {
    pub extra: Vec<u8>,
    pub base: Vec<u32>,
}

impl Slots {
    pub open spec fn wf(&self) -> bool {
        &&& self.extra@.len() == NUM_SLOTS + 1
        &&& self.base@.len() == NUM_SLOTS + 1
        &&& forall|i: int| 0 <= i <= NUM_SLOTS ==> #[trigger] self.extra@[i] == slot_extra(i)
        &&& forall|i: int| 0 <= i <= NUM_SLOTS ==> #[trigger] self.base@[i] == pos_base_spec(i)
    }
}

proof fn lemma_pos_base_mono(a: int, b: int)
    requires
        0 <= a <= b,
    ensures
        pos_base_spec(a) <= pos_base_spec(b),
        a < b ==> pos_base_spec(a) < pos_base_spec(b),
    decreases b - a,
{
    if a < b {
        lemma_pos_base_mono(a, b - 1);
        lemma_p2_pos(slot_extra(b - 1));
    }
}

proof fn lemma_pos_base_32()
    ensures
        pos_base_spec(32) == 65536,
        pos_base_spec(31) == 49152,
{
    lemma_p2_table();
    assert(pos_base_spec(0) == 0);
    assert(pos_base_spec(1) == 1);
    assert(pos_base_spec(2) == 2);
    assert(pos_base_spec(3) == 3);
    assert(pos_base_spec(4) == 4);
    assert(pos_base_spec(5) == 6);
    assert(pos_base_spec(6) == 8);
    assert(pos_base_spec(7) == 12);
    assert(pos_base_spec(8) == 16);
    assert(pos_base_spec(9) == 24);
    assert(pos_base_spec(10) == 32);
    assert(pos_base_spec(11) == 48);
    assert(pos_base_spec(12) == 64);
    assert(pos_base_spec(13) == 96);
    assert(pos_base_spec(14) == 128);
    assert(pos_base_spec(15) == 192);
    assert(pos_base_spec(16) == 256);
    assert(pos_base_spec(17) == 384);
    assert(pos_base_spec(18) == 512);
    assert(pos_base_spec(19) == 768);
    assert(pos_base_spec(20) == 1024);
    assert(pos_base_spec(21) == 1536);
    assert(pos_base_spec(22) == 2048);
    assert(pos_base_spec(23) == 3072);
    assert(pos_base_spec(24) == 4096);
    assert(pos_base_spec(25) == 6144);
    assert(pos_base_spec(26) == 8192);
    assert(pos_base_spec(27) == 12288);
    assert(pos_base_spec(28) == 16384);
    assert(pos_base_spec(29) == 24576);
    assert(pos_base_spec(30) == 32768);
    assert(pos_base_spec(31) == 49152);
    assert(pos_base_spec(32) == 65536);
}

proof fn lemma_p2_table()
    ensures
        p2(0) == 1,
        p2(1) == 2,
        p2(2) == 4,
        p2(3) == 8,
        p2(4) == 16,
        p2(5) == 32,
        p2(6) == 64,
        p2(7) == 128,
        p2(8) == 256,
        p2(9) == 512,
        p2(10) == 1024,
        p2(11) == 2048,
        p2(12) == 4096,
        p2(13) == 8192,
        p2(14) == 16384,
        p2(15) == 32768,
{
    reveal_with_fuel(p2, 17);
}

/// The slot tables of a 2^16 window.
pub fn slot_tables() -> (s: Slots)
    ensures
        s.wf(),
{
    let mut extra: Vec<u8> = Vec::new();
    let mut base: Vec<u32> = Vec::new();
    let mut b: u32 = 0;
    let mut i: usize = 0;
    proof {
        lemma_pos_base_32();
    }
    while i <= NUM_SLOTS
        invariant
            i <= NUM_SLOTS + 1,
            extra@.len() == i,
            base@.len() == i,
            b == pos_base_spec(i as int),
            forall|k: int| 0 <= k < i ==> #[trigger] extra@[k] == slot_extra(k),
            forall|k: int| 0 <= k < i ==> #[trigger] base@[k] == pos_base_spec(k),
            pos_base_spec(32) == 65536,
        decreases NUM_SLOTS + 1 - i,
    {
        let e: u8 = if i < 2 {
            0
        } else {
            let h = ((i - 2) / 2) as u8;
            if h < 17 { h } else { 17 }
        };
        extra.push(e);
        base.push(b);
        proof {
            lemma_pos_base_mono(i as int, 32);
            lemma_p2_le_16(e as nat);
        }
        let step = pow2_u64(e as u32) as u32;
        b = b + step;
        i = i + 1;
    }
    Slots { extra, base }
}

/// The slot whose range holds the formatted offset `formatted`: the last slot whose
/// base is at most `formatted`.
pub fn slot_for(st: &Slots, formatted: u32) -> (r: usize)
    requires
        st.wf(),
    ensures
        r < NUM_SLOTS,
        st.base@[r as int] <= formatted,
        r == NUM_SLOTS - 1 || formatted < st.base@[r + 1],
{
    let mut lo: usize = 0;
    let mut hi: usize = NUM_SLOTS - 1;
    while lo < hi
        invariant
            st.wf(),
            lo <= hi < NUM_SLOTS,
            st.base@[lo as int] <= formatted,
            hi == NUM_SLOTS - 1 || formatted < st.base@[hi + 1],
        decreases hi - lo,
    {
        let mid = (lo + hi + 1) / 2;
        if st.base[mid] <= formatted {
            lo = mid;
        } else {
            hi = mid - 1;
        }
    }
    lo
}

/// `a` is a prefix of `b`.
pub open spec fn starts_with(b: Seq<bool>, a: Seq<bool>) -> bool {
    a.len() <= b.len() && b.subrange(0, a.len() as int) == a
}

proof fn lemma_starts_with_append(b: Seq<bool>, a: Seq<bool>, c: Seq<bool>)
    requires
        starts_with(b, a),
    ensures
        starts_with(b + c, a),
{
    assert((b + c).subrange(0, a.len() as int) =~= b.subrange(0, a.len() as int));
}

/// Writes bits most significant first into 16-bit little-endian words.
pub struct BitWriter {
    pub out: Vec<u8>,
    pub acc: u64,
    pub n: u32,
}

impl BitWriter {
    pub open spec fn wf(&self) -> bool {
        &&& self.n < 16
        &&& self.acc < p2(self.n as nat)
        &&& self.out@.len() % 2 == 0
    }

    /// Every bit written so far: those packed into words, then those still pending.
    pub open spec fn bits(&self) -> Seq<bool> {
        unpack16(self.out@) + to_bits(self.acc as nat, self.n as nat)
    }

    /// A writer with nothing written.
    pub fn new() -> (w: BitWriter)
        ensures
            w.wf(),
            w.bits() == Seq::<bool>::empty(),
            w.out@ == Seq::<u8>::empty(),
    {
        let w = BitWriter { out: Vec::new(), acc: 0, n: 0 };
        proof {
            reveal_with_fuel(p2, 1);
            assert(unpack16(w.out@) =~= Seq::<bool>::empty());
            assert(w.bits() =~= Seq::<bool>::empty());
        }
        w
    }

    /// Appends the low `nbits` bits of `value`, most significant first.
    pub fn put(&mut self, nbits: u32, value: u32)
        requires
            old(self).wf(),
            nbits <= 24,
        ensures
            final(self).wf(),
            final(self).bits() == old(self).bits() + to_bits(value as nat, nbits as nat),
            final(self).out@.len() >= old(self).out@.len(),
            final(self).out@.subrange(0, old(self).out@.len() as int) == old(self).out@,
            forall|a: Seq<bool>| starts_with(old(self).bits(), a) ==> #[trigger] starts_with(final(self).bits(), a),
    {
        proof {
            assert forall|a: Seq<bool>| starts_with(old(self).bits(), a) implies
                #[trigger] starts_with(old(self).bits() + to_bits(value as nat, nbits as nat), a) by {
                lemma_starts_with_append(old(self).bits(), a, to_bits(value as nat, nbits as nat));
            }
        }
        if nbits == 0 {
            proof {
                assert(to_bits(value as nat, 0) =~= Seq::<bool>::empty());
                assert(self.bits() =~= old(self).bits() + to_bits(value as nat, nbits as nat));
                assert(self.out@.subrange(0, old(self).out@.len() as int) =~= old(self).out@);
            }
            return;
        }
        let ghost o = *self;
        let q = pow2_u64(nbits);
        proof {
            lemma_p2_pos(nbits as nat);
        }
        let v = (value as u64) % q;
        proof {
            lemma_p2_adds(o.n as nat, nbits as nat);
            lemma_p2_adds(16, 24);
            lemma_p2_adds(16, 8);
            lemma_p2_adds(24, 16);
            lemma_p2_values();
            assert(o.n + nbits <= 40);
            assert(p2((o.n + nbits) as nat) <= p2(40)) by {
                lemma_p2_adds((o.n + nbits) as nat, (40 - o.n - nbits) as nat);
                lemma_p2_pos((40 - o.n - nbits) as nat);
                let a = p2((o.n + nbits) as nat);
                let b = p2((40 - o.n - nbits) as nat);
                assert(a * 1 <= a * b) by (nonlinear_arith) requires b >= 1;
            }
            assert(p2(40) == 0x100_0000_0000) by {
                lemma_p2_adds(16, 16);
            }
            let pn = p2(o.n as nat);
            assert(o.acc * q + v < pn * q) by (nonlinear_arith)
                requires o.acc < pn, v < q;
        }
        self.acc = self.acc * q + v;
        self.n = self.n + nbits;
        proof {
            let na = self.acc as nat;
            lemma_to_bits_split(na, o.n as nat, nbits as nat);
            vstd::arithmetic::div_mod::lemma_fundamental_div_mod_converse(na as int, q as int, o.acc as int, v as int);
            lemma_to_bits_mod(na, nbits as nat);
            lemma_to_bits_mod(value as nat, nbits as nat);
            assert(to_bits(na, self.n as nat) == to_bits(o.acc as nat, o.n as nat) + to_bits(value as nat, nbits as nat));
        }
        while self.n >= 16
            invariant
                self.n < 40,
                self.acc < p2(self.n as nat),
                self.out@.len() % 2 == 0,
                self.bits() == o.bits() + to_bits(value as nat, nbits as nat),
                self.out@.len() >= o.out@.len(),
                self.out@.subrange(0, o.out@.len() as int) == o.out@,
            decreases self.n,
        {
            let ghost before = *self;
            let r = self.n - 16;
            let q2 = pow2_u64(r);
            proof {
                lemma_p2_pos(r as nat);
                lemma_p2_adds(16, r as nat);
                lemma_p2_values();
                let a = self.acc as nat;
                let pr = p2(r as nat);
                assert(a / pr < 65536) by (nonlinear_arith)
                    requires a < 65536 * pr, pr >= 1;
            }
            let w = self.acc / q2;
            let rest = self.acc % q2;
            proof {
                lemma_to_bits_split(before.acc as nat, 16, r as nat);
                lemma_to_bits_mod(before.acc as nat, r as nat);
                lemma_to_bits_len(w as nat, 16);
            }
            self.out.push((w % 256) as u8);
            self.out.push((w / 256) as u8);
            self.acc = rest;
            self.n = r;
            proof {
                let ob = before.out@;
                let nb = self.out@;
                assert(nb.subrange(0, nb.len() - 2) =~= ob);
                assert(nb[nb.len() - 2] + 256 * nb[nb.len() - 1] == w);
                assert(unpack16(nb) == unpack16(ob) + to_bits(w as nat, 16));
                assert(to_bits(before.acc as nat, before.n as nat) == to_bits(w as nat, 16) + to_bits(rest as nat, r as nat));
                assert(self.bits() =~= before.bits());
                assert(self.out@.subrange(0, o.out@.len() as int) =~= before.out@.subrange(0, o.out@.len() as int));
            }
        }
    }

    /// Pads with zero bits to the next 16-bit boundary.
    pub fn align16(&mut self)
        requires
            old(self).wf(),
        ensures
            final(self).wf(),
            final(self).n == 0,
            final(self).bits() == old(self).bits() + to_bits(0, ((16 - old(self).n) % 16) as nat),
            final(self).out@.len() >= old(self).out@.len(),
            final(self).out@.subrange(0, old(self).out@.len() as int) == old(self).out@,
            forall|a: Seq<bool>| starts_with(old(self).bits(), a) ==> #[trigger] starts_with(final(self).bits(), a),
    {
        if self.n != 0 {
            self.put(16 - self.n, 0);
        } else {
            proof {
                assert(to_bits(0, 0) =~= Seq::<bool>::empty());
                assert(self.bits() =~= old(self).bits() + to_bits(0, 0));
                assert(self.out@.subrange(0, old(self).out@.len() as int) =~= old(self).out@);
            }
        }
        proof {
            assert(self.n == 0) by {
                lemma_to_bits_len(self.acc as nat, self.n as nat);
                lemma_to_bits_len(0, ((16 - old(self).n) % 16) as nat);
                lemma_unpack16_len(self.out@);
                lemma_unpack16_len(old(self).out@);
                lemma_to_bits_len(old(self).acc as nat, old(self).n as nat);
                let o1 = old(self).out@.len();
                let o2 = self.out@.len();
                let n1 = old(self).n as int;
                let n2 = self.n as int;
                assert(self.bits().len() == unpack16(self.out@).len() + to_bits(self.acc as nat, self.n as nat).len());
                assert(old(self).bits().len() == unpack16(old(self).out@).len() + to_bits(old(self).acc as nat, old(self).n as nat).len());
                assert(self.bits().len() == old(self).bits().len() + to_bits(0, ((16 - old(self).n) % 16) as nat).len());
                assert(8 * o2 + n2 == 8 * o1 + n1 + (16 - n1) % 16);
                assert(o1 % 2 == 0 && o2 % 2 == 0);
                assert(n2 % 16 == 0);
            }
        }
    }
}


/// What the bit writer writes, the bit reader reads back: a reader started on the
/// words of an aligned writer hands out every bit the writer was given, in order,
/// and zeros after them.
pub proof fn lemma_writer_reader_agree(w: &BitWriter, r: &BitReader, i: int)
    requires
        w.wf(),
        w.n == 0,
        r.p@ == w.out@,
        r.wf(),
        r.pos == 0,
        r.count == 0,
        forall|k: int| 0 <= k ==> #[trigger] r.bit(k) == stream_bit(w.out@, 0, k),
        0 <= i,
    ensures
        r.bit(i) == (if i < w.bits().len() { w.bits()[i] } else { false }),
{
    lemma_stream_unpack(w.out@, i);
    lemma_unpack16_len(w.out@);
    lemma_to_bits_len(w.acc as nat, 0);
    assert(w.bits() =~= unpack16(w.out@));
}

/// The first canonical code of length `l` as the encoder numbers it: like the
/// decoder's, but counting the unused symbols (length 0) too.
pub open spec fn enc_first_code(len: Seq<u8>, n: int, l: int) -> nat
    decreases l,
{
    if l <= 0 {
        0
    } else {
        (enc_first_code(len, n, l - 1) + count_len(len, n, l - 1)) * 2
    }
}

/// The code `assign_codes` gives symbol `i`.
pub open spec fn enc_code(len: Seq<u8>, n: int, i: int) -> u16 {
    if len[i] != 0 {
        ((enc_first_code(len, n, len[i] as int) + count_len(len, i, len[i] as int)) % 65536) as u16
    } else {
        0
    }
}

/// The encoder's first codes exceed the decoder's by the unused symbols times `2^l`.
pub proof fn lemma_enc_first_code(len: Seq<u8>, n: int, l: int)
    requires
        1 <= l,
    ensures
        enc_first_code(len, n, l) == first_code_of(len, n, l) + count_len(len, n, 0) * p2(l as nat),
    decreases l,
{
    if l == 1 {
        reveal_with_fuel(p2, 2);
        assert(enc_first_code(len, n, 0) == 0);
    } else {
        lemma_enc_first_code(len, n, l - 1);
        lemma_p2_adds((l - 1) as nat, 1);
        lemma_p2_values();
        let c0 = count_len(len, n, 0);
        let pl = p2((l - 1) as nat);
        assert(c0 * (pl * 2) == (c0 * pl) * 2) by (nonlinear_arith);
    }
}

/// The bits the encoder writes for a symbol of length `l` (its code, masked to `l`
/// bits) are the decoder's canonical code of that symbol: so what `assign_codes`
/// codes, `HuffDecoder` built from the same lengths decodes.
pub proof fn lemma_codes_agree(len: Seq<u8>, n: int, i: int)
    requires
        0 <= i < n <= len.len(),
        1 <= len[i] <= 16,
    ensures
        to_bits(enc_code(len, n, i) as nat, len[i] as nat)
            == to_bits(first_code_of(len, n, len[i] as int) + count_len(len, i, len[i] as int), len[i] as nat),
{
    let l = len[i] as int;
    lemma_enc_first_code(len, n, l);
    let x = first_code_of(len, n, l) + count_len(len, i, l);
    let c0 = count_len(len, n, 0);
    let pl = p2(l as nat);
    let e = enc_first_code(len, n, l) + count_len(len, i, l);
    assert(e == x + c0 * pl);
    lemma_p2_pos(l as nat);
    lemma_p2_adds(l as nat, (16 - l) as nat);
    lemma_p2_values();
    let ph = p2((16 - l) as nat);
    lemma_p2_pos((16 - l) as nat);
    // e % 65536 and e agree modulo 2^l because 2^l divides 65536
    assert((e % (pl * ph)) % pl == e % pl) by {
        vstd::arithmetic::div_mod::lemma_mod_mod(e as int, pl as int, ph as int);
    }
    assert((x + c0 * pl) % pl == x % pl) by {
        vstd::arithmetic::div_mod::lemma_mod_multiples_vanish(c0 as int, x as int, pl as int);
    }
    lemma_to_bits_mod(e % 65536, l as nat);
    lemma_to_bits_mod(e, l as nat);
    lemma_to_bits_mod(x, l as nat);
}

/// Canonical code assignment: the codes of each length are consecutive, in symbol
/// order; unused symbols get 0.
pub fn assign_codes(len: &[u8], n: usize, code: &mut Vec<u16>)
    requires
        n <= len@.len(),
        n <= old(code)@.len(),
        n <= 1024,
        forall|i: int| 0 <= i < n ==> #[trigger] len@[i] <= 16,
    ensures
        final(code)@.len() == old(code)@.len(),
        forall|i: int| 0 <= i < n ==> #[trigger] final(code)@[i] == enc_code(len@, n as int, i),
        forall|i: int| n <= i < old(code)@.len() ==> #[trigger] final(code)@[i] == old(code)@[i],
{
    let ghost ls = len@;
    let mut count: Vec<u32> = vec![0u32; 17];
    let mut i: usize = 0;
    while i < n
        invariant
            i <= n,
            n <= len@.len(),
            n <= 1024,
            ls == len@,
            forall|j: int| 0 <= j < n ==> #[trigger] len@[j] <= 16,
            count@.len() == 17,
            forall|l: int| 0 <= l < 17 ==> #[trigger] count@[l] == count_len(ls, i as int, l),
            forall|l: int| 0 <= l < 17 ==> #[trigger] count@[l] <= i,
        decreases n - i,
    {
        let l = len[i] as usize;
        count.set(l, count[l] + 1);
        i = i + 1;
    }
    let mut next: Vec<u64> = vec![0u64; 17];
    let mut c: u64 = 0;
    let mut l: usize = 1;
    while l <= 16
        invariant
            1 <= l <= 17,
            n <= 1024,
            count@.len() == 17,
            next@.len() == 17,
            forall|k: int| 0 <= k < 17 ==> #[trigger] count@[k] == count_len(ls, n as int, k),
            forall|k: int| 0 <= k < 17 ==> #[trigger] count@[k] <= n,
            c == enc_first_code(ls, n as int, (l - 1) as int),
            c <= 0x1_0000_0000,
            forall|k: int| 1 <= k < l ==> #[trigger] next@[k] == enc_first_code(ls, n as int, k),
            forall|k: int| 1 <= k < l ==> #[trigger] next@[k] <= 0x1_0000_0000,
        decreases 17 - l,
    {
        proof {
            lemma_enc_first_bound(ls, n as int, l as int);
            lemma_enc_first_bound(ls, n as int, 16);
            if l < 16 {
                lemma_p2_mono((l + 1) as nat, 17);
            }
        }
        c = (c + count[l - 1] as u64) * 2;
        next.set(l, c);
        l = l + 1;
    }
    let mut seen: Vec<u64> = vec![0u64; 17];
    let mut i: usize = 0;
    while i < n
        invariant
            i <= n,
            n <= 1024,
            n <= len@.len(),
            n <= code@.len(),
            ls == len@,
            code@.len() == old(code)@.len(),
            forall|j: int| 0 <= j < n ==> #[trigger] len@[j] <= 16,
            next@.len() == 17,
            seen@.len() == 17,
            forall|k: int| 1 <= k <= 16 ==> #[trigger] next@[k] == enc_first_code(ls, n as int, k),
            forall|k: int| 1 <= k <= 16 ==> #[trigger] next@[k] <= 0x1_0000_0000,
            forall|k: int| 0 <= k <= 16 ==> #[trigger] seen@[k] == count_len(ls, i as int, k),
            forall|k: int| 0 <= k <= 16 ==> #[trigger] seen@[k] <= i,
            forall|j: int| 0 <= j < i ==> #[trigger] code@[j] == enc_code(ls, n as int, j),
            forall|j: int| n <= j < code@.len() ==> #[trigger] code@[j] == old(code)@[j],
        decreases n - i,
    {
        let li = len[i] as usize;
        if li != 0 {
            let v = next[li] + seen[li];
            code.set(i, (v % 65536) as u16);
        } else {
            code.set(i, 0);
        }
        seen.set(li, seen[li] + 1);
        i = i + 1;
    }
}

proof fn lemma_enc_first_bound(len: Seq<u8>, n: int, l: int)
    requires
        0 <= l <= 16,
        0 <= n <= 1024,
    ensures
        enc_first_code(len, n, l) + 2048 <= 1024 * p2((l + 1) as nat),
        p2(17) == 131072,
    decreases l,
{
    lemma_p2_adds(16, 1);
    lemma_p2_values();
    lemma_p2_adds((l + 1) as nat, 1);
    if l == 0 {
        assert(enc_first_code(len, n, 0) == 0);
        assert(p2(1) == 2);
    } else {
        lemma_count_le(len, n, l - 1);
        lemma_enc_first_bound(len, n, l - 1);
        let a = enc_first_code(len, n, l - 1);
        let c = count_len(len, n, l - 1);
        let pl = p2(l as nat);
        assert(p2((l + 1) as nat) == pl * 2);
        assert((a + c) * 2 + 2048 <= 1024 * (pl * 2)) by (nonlinear_arith)
            requires a + 2048 <= 1024 * pl, c <= 1024;
    }
}

proof fn lemma_p2_mono(a: nat, b: nat)
    requires
        a <= b,
    ensures
        p2(a) <= p2(b),
{
    lemma_p2_adds(a, (b - a) as nat);
    lemma_p2_pos((b - a) as nat);
    let x = p2(a);
    let y = p2((b - a) as nat);
    assert(x * 1 <= x * y) by (nonlinear_arith) requires y >= 1;
}

proof fn lemma_count_le(len: Seq<u8>, n: int, l: int)
    requires
        0 <= n,
    ensures
        count_len(len, n, l) <= n,
    decreases n,
{
    if n > 0 {
        lemma_count_le(len, n - 1, l);
    }
}

/// The length of the common prefix of `data[a..]` and `data[b..]`, up to `max_len`.
pub fn match_len(data: &[u8], a: usize, b: usize, max_len: usize) -> (r: usize)
    requires
        a + max_len <= data@.len(),
        b + max_len <= data@.len(),
    ensures
        r <= max_len,
        forall|k: int| 0 <= k < r ==> #[trigger] data@[a + k] == data@[b + k],
        r < max_len ==> data@[a + r] != data@[b + r],
{
    let dl = data.len();
    let mut i: usize = 0;
    while i < max_len && data[a + i] == data[b + i]
        invariant
            dl == data@.len(),
            i <= max_len,
            a + max_len <= data@.len(),
            b + max_len <= data@.len(),
            forall|k: int| 0 <= k < i ==> #[trigger] data@[a + k] == data@[b + k],
        decreases max_len - i,
    {
        i = i + 1;
    }
    i
}

/// A match token: flag bit, slot, footer and length less two in one word.
pub open spec fn match_token(slot: int, footer: int, len: int) -> int {
    0x8000_0000 + slot * 0x200_0000 + footer * 256 + (len - 2)
}

/// A literal byte, or a match token whose slot is below 32.
pub open spec fn tok_ok(t: u32) -> bool {
    t < 256 || (0x8000_0000 <= t < 0xC000_0000)
}

/// The main-tree symbol of a match of `len` bytes in `slot`.
pub open spec fn match_main_sym(slot: int, len: int) -> int {
    NUM_CHARS + slot * 8 + (if len - 2 < 7 { len - 2 } else { 7 })
}

/// Tokens of one reset interval and the symbol frequencies they need.
pub struct IntervalCoder {
    pub main_freq: Vec<u32>,
    pub len_freq: Vec<u32>,
    pub aligned_freq: Vec<u32>,
    pub tokens: Vec<u32>,
}

impl IntervalCoder {
    pub open spec fn wf(&self) -> bool {
        &&& self.main_freq@.len() == MAIN_SYMS
        &&& self.len_freq@.len() == LEN_SYMS
        &&& self.aligned_freq@.len() == ALIGNED_SYMS
        &&& self.tokens@.len() <= 0x1_0000
        &&& forall|i: int| 0 <= i < MAIN_SYMS ==> #[trigger] self.main_freq@[i] <= self.tokens@.len()
        &&& forall|i: int| 0 <= i < LEN_SYMS ==> #[trigger] self.len_freq@[i] <= self.tokens@.len()
        &&& forall|i: int| 0 <= i < ALIGNED_SYMS ==> #[trigger] self.aligned_freq@[i] <= self.tokens@.len()
        &&& forall|i: int| 0 <= i < self.tokens@.len() ==> #[trigger] tok_ok(self.tokens@[i])
    }

    /// No tokens, all frequencies zero.
    pub fn new() -> (c: IntervalCoder)
        ensures
            c.wf(),
            c.tokens@.len() == 0,
            forall|i: int| 0 <= i < MAIN_SYMS ==> #[trigger] c.main_freq@[i] == 0,
            forall|i: int| 0 <= i < LEN_SYMS ==> #[trigger] c.len_freq@[i] == 0,
            forall|i: int| 0 <= i < ALIGNED_SYMS ==> #[trigger] c.aligned_freq@[i] == 0,
    {
        IntervalCoder {
            main_freq: vec![0u32; MAIN_SYMS],
            len_freq: vec![0u32; LEN_SYMS],
            aligned_freq: vec![0u32; ALIGNED_SYMS],
            tokens: Vec::new(),
        }
    }

    /// Records a literal byte.
    pub fn add_literal(&mut self, c: u8)
        requires
            old(self).wf(),
            old(self).tokens@.len() < 0x1_0000,
        ensures
            final(self).wf(),
            final(self).tokens@ == old(self).tokens@.push(c as u32),
            final(self).main_freq@ == old(self).main_freq@.update(c as int, (old(self).main_freq@[c as int] + 1) as u32),
            final(self).len_freq@ == old(self).len_freq@,
            final(self).aligned_freq@ == old(self).aligned_freq@,
    {
        self.tokens.push(c as u32);
        let k = c as usize;
        self.main_freq.set(k, self.main_freq[k] + 1);
    }

    /// Records a match of `len` bytes in position slot `slot` with footer `footer`.
    pub fn add_match(&mut self, st: &Slots, slot: usize, footer: u32, len: usize)
        requires
            old(self).wf(),
            old(self).tokens@.len() < 0x1_0000,
            st.wf(),
            slot < NUM_SLOTS,
            footer < 0x2_0000,
            MIN_MATCH <= len <= MAX_MATCH,
        ensures
            final(self).wf(),
            final(self).tokens@ == old(self).tokens@.push(match_token(slot as int, footer as int, len as int) as u32),
            final(self).main_freq@ == old(self).main_freq@.update(
                match_main_sym(slot as int, len as int),
                (old(self).main_freq@[match_main_sym(slot as int, len as int)] + 1) as u32,
            ),
            final(self).len_freq@ == if len - 2 >= 7 {
                old(self).len_freq@.update(len - 9, (old(self).len_freq@[len - 9] + 1) as u32)
            } else {
                old(self).len_freq@
            },
            final(self).aligned_freq@ == if slot_extra(slot as int) >= 3 {
                old(self).aligned_freq@.update((footer % 8) as int, (old(self).aligned_freq@[(footer % 8) as int] + 1) as u32)
            } else {
                old(self).aligned_freq@
            },
    {
        let token: u32 = TOK_MATCH + (slot as u32) * 0x200_0000 + footer * 256 + (len - MIN_MATCH) as u32;
        self.tokens.push(token);
        let lm2 = len - MIN_MATCH;
        let len_header = if lm2 < 7 { lm2 } else { 7 };
        let ms = NUM_CHARS + slot * 8 + len_header;
        self.main_freq.set(ms, self.main_freq[ms] + 1);
        if len_header == 7 {
            let k = len - MIN_MATCH - 7;
            self.len_freq.set(k, self.len_freq[k] + 1);
        }
        if st.extra[slot] >= 3 {
            let k = (footer % 8) as usize;
            self.aligned_freq.set(k, self.aligned_freq[k] + 1);
        }
    }
}

/// The total weight of nodes `lo..hi`.
pub open spec fn wsum(f: Seq<u64>, lo: int, hi: int) -> int
    decreases hi - lo,
{
    if lo >= hi {
        0
    } else {
        f[lo] + wsum(f, lo + 1, hi)
    }
}

proof fn lemma_wsum_nonneg(f: Seq<u64>, lo: int, hi: int)
    ensures
        wsum(f, lo, hi) >= 0,
    decreases hi - lo,
{
    if lo < hi {
        lemma_wsum_nonneg(f, lo + 1, hi);
    }
}

proof fn lemma_wsum_push(f: Seq<u64>, lo: int, hi: int)
    requires
        lo <= hi,
    ensures
        wsum(f, lo, hi + 1) == wsum(f, lo, hi) + f[hi],
    decreases hi - lo,
{
    reveal_with_fuel(wsum, 2);
    if lo < hi {
        lemma_wsum_push(f, lo + 1, hi);
    }
}

proof fn lemma_wsum_update(f: Seq<u64>, lo: int, hi: int, k: int, v: u64)
    requires
        !(lo <= k < hi),
        0 <= k < f.len(),
        0 <= lo,
        hi <= f.len(),
    ensures
        wsum(f.update(k, v), lo, hi) == wsum(f, lo, hi),
    decreases hi - lo,
{
    if lo < hi {
        lemma_wsum_update(f, lo + 1, hi, k, v);
    }
}

proof fn lemma_wsum_front(f: Seq<u64>, lo: int, hi: int)
    requires
        lo < hi,
    ensures
        f[lo] <= wsum(f, lo, hi),
        wsum(f, lo + 1, hi) == wsum(f, lo, hi) - f[lo],
{
    lemma_wsum_nonneg(f, lo + 1, hi);
}

proof fn lemma_wsum_bound(f: Seq<u64>, lo: int, hi: int, b: int)
    requires
        0 <= lo <= hi <= f.len(),
        b >= 0,
        forall|k: int| lo <= k < hi ==> #[trigger] f[k] <= b,
    ensures
        wsum(f, lo, hi) <= (hi - lo) * b,
    decreases hi - lo,
{
    if lo < hi {
        lemma_wsum_bound(f, lo + 1, hi, b);
        assert((hi - lo - 1) * b + b == (hi - lo) * b) by (nonlinear_arith);
    }
}

/// Pairs the two lightest available nodes until one tree is left (leaves `0..m`
/// sorted by weight; new nodes `m..2m-1` form a queue of nondecreasing weight);
/// records each node's parent.
fn merge_nodes(f: &mut Vec<u64>, parent: &mut Vec<i32>, m: usize)
    requires
        2 <= m <= 1024,
        old(f)@.len() == 2 * m - 1,
        old(parent)@.len() == 2 * m - 1,
        forall|x: int| 0 <= x < 2 * m - 1 ==> #[trigger] old(parent)@[x] == -1,
        forall|x: int| 0 <= x < m ==> #[trigger] old(f)@[x] <= 0x1_0000_0000,
    ensures
        final(f)@.len() == 2 * m - 1,
        final(parent)@.len() == 2 * m - 1,
        forall|x: int| 0 <= x < 2 * m - 2 ==> x < #[trigger] final(parent)@[x] < 2 * m - 1,
        final(parent)@[2 * m - 2] == -1,
{
    let ghost t0 = wsum(f@, 0, m as int);
    proof {
        lemma_wsum_bound(f@, 0, m as int, 0x1_0000_0000);
        assert(m * 0x1_0000_0000 <= 1024 * 0x1_0000_0000) by (nonlinear_arith) requires m <= 1024;
    }
    let total = 2 * m - 1;
    let mut leaf: usize = 0;
    let mut inode: usize = m;
    let mut next: usize = m;
    while next < total
        invariant
            2 <= m <= 1024,
            total == 2 * m - 1,
            f@.len() == total,
            parent@.len() == total,
            leaf <= m <= inode <= next <= total,
            leaf + (inode - m) == 2 * (next - m),
            next > m ==> inode < next,
            t0 <= 1024 * 0x1_0000_0000,
            wsum(f@, leaf as int, m as int) + wsum(f@, inode as int, next as int) == t0,
            forall|x: int| 0 <= x < leaf ==> x < #[trigger] parent@[x] < next,
            forall|x: int| m <= x < inode ==> x < #[trigger] parent@[x] < next,
            forall|x: int| leaf <= x < m ==> #[trigger] parent@[x] == -1,
            forall|x: int| inode <= x < total ==> #[trigger] parent@[x] == -1,
        decreases total - next,
    {
        let ghost f0 = f@;
        let a: usize;
        if leaf < m && (inode >= next || f[leaf] <= f[inode]) {
            a = leaf;
            leaf = leaf + 1;
            proof { lemma_wsum_front(f0, a as int, m as int); }
        } else {
            a = inode;
            inode = inode + 1;
            proof { lemma_wsum_front(f0, a as int, next as int); }
        }
        proof {
            lemma_wsum_nonneg(f0, leaf as int, m as int);
            lemma_wsum_nonneg(f0, inode as int, next as int);
        }
        let b: usize;
        if leaf < m && (inode >= next || f[leaf] <= f[inode]) {
            b = leaf;
            leaf = leaf + 1;
            proof { lemma_wsum_front(f0, b as int, m as int); }
        } else {
            b = inode;
            inode = inode + 1;
            proof { lemma_wsum_front(f0, b as int, next as int); }
        }
        proof {
            lemma_wsum_nonneg(f0, leaf as int, m as int);
            lemma_wsum_nonneg(f0, inode as int, next as int);
            assert(f0[a as int] + f0[b as int] <= t0);
        }
        let w = f[a] + f[b];
        f.set(next, w);
        parent.set(a, next as i32);
        parent.set(b, next as i32);
        proof {
            lemma_wsum_update(f0, leaf as int, m as int, next as int, w);
            lemma_wsum_update(f0, inode as int, next as int, next as int, w);
            lemma_wsum_push(f@, inode as int, next as int);
        }
        next = next + 1;
    }
}

/// The number of ancestors of node `i`, following `parent` links (each to a later
/// node) until -1.
pub open spec fn depth(parent: Seq<i32>, i: int) -> nat
    decreases parent.len() - i,
{
    if 0 <= i < parent.len() && i < parent[i] < parent.len() {
        1 + depth(parent, parent[i] as int)
    } else {
        0
    }
}

/// The number of ancestors of node `i`.
fn depth_of(parent: &Vec<i32>, i: usize) -> (d: u32)
    requires
        i < parent@.len() <= 2048,
        forall|x: int| 0 <= x < parent@.len() ==> #[trigger] parent@[x] == -1 || x < parent@[x] < parent@.len(),
    ensures
        d == depth(parent@, i as int),
        d <= parent@.len(),
        (parent@[i as int] != -1) ==> d >= 1,
{
    let mut d: u32 = 0;
    let mut p: i32 = parent[i];
    while p >= 0
        invariant
            parent@.len() <= 2048,
            forall|x: int| 0 <= x < parent@.len() ==> #[trigger] parent@[x] == -1 || x < parent@[x] < parent@.len(),
            p == -1 || (i < p < parent@.len()),
            p >= 0 ==> d < p,
            d <= parent@.len(),
            (parent@[i as int] != -1) ==> (d >= 1 || p >= 0),
            p < 0 ==> p == -1,
            d + (if p >= 0 { 1 + depth(parent@, p as int) } else { 0 }) == depth(parent@, i as int),
        decreases parent@.len() - d,
    {
        d = d + 1;
        p = parent[p as usize];
    }
    d
}

/// Symbol `x` comes no later than `y` in order of (frequency, symbol).
pub open spec fn sym_le(freq: Seq<u32>, x: usize, y: usize) -> bool {
    freq[x as int] < freq[y as int] || (freq[x as int] == freq[y as int] && x <= y)
}

/// Puts the used symbols in order of (frequency, symbol).
fn sort_syms(syms: &mut Vec<usize>, freq: &Vec<u32>)
    requires
        forall|k: int| 0 <= k < old(syms)@.len() ==> #[trigger] old(syms)@[k] < freq@.len(),
    ensures
        forall|a: int, b: int| 0 <= a < b < final(syms)@.len() ==> sym_le(freq@, #[trigger] final(syms)@[a], #[trigger] final(syms)@[b]),
        final(syms)@.len() == old(syms)@.len(),
        forall|k: int| 0 <= k < final(syms)@.len() ==> #[trigger] final(syms)@[k] < freq@.len(),
        forall|v: usize| final(syms)@.contains(v) <==> old(syms)@.contains(v),
        forall|k: int| 0 <= k < final(syms)@.len() ==> #[trigger] old(syms)@.contains(final(syms)@[k]),
{
    let n = syms.len();
    let mut i: usize = 1;
    while i < n
        invariant
            n == syms@.len(),
            syms@.len() == old(syms)@.len(),
            forall|k: int| 0 <= k < syms@.len() ==> #[trigger] syms@[k] < freq@.len(),
            forall|v: usize| syms@.contains(v) <==> old(syms)@.contains(v),
            n > 0 ==> 1 <= i <= n,
            forall|a: int, b: int| 0 <= a < b < i ==> sym_le(freq@, #[trigger] syms@[a], #[trigger] syms@[b]),
        decreases n - i,
    {
        let mut j: usize = i;
        while j > 0 && (freq[syms[j - 1]] > freq[syms[j]] || (freq[syms[j - 1]] == freq[syms[j]] && syms[j - 1] > syms[j]))
            invariant
                n == syms@.len(),
                j <= i < n,
                syms@.len() == old(syms)@.len(),
                forall|k: int| 0 <= k < syms@.len() ==> #[trigger] syms@[k] < freq@.len(),
                forall|v: usize| syms@.contains(v) <==> old(syms)@.contains(v),
                forall|a: int, b: int| 0 <= a < b <= i && a != j && b != j ==> sym_le(freq@, #[trigger] syms@[a], #[trigger] syms@[b]),
                forall|k: int| j < k <= i ==> sym_le(freq@, syms@[j as int], #[trigger] syms@[k]),
            decreases j,
        {
            let ghost s0 = syms@;
            let x = syms[j - 1];
            let y = syms[j];
            syms.set(j - 1, y);
            syms.set(j, x);
            proof {
                assert forall|v: usize| syms@.contains(v) <==> s0.contains(v) by {
                    if s0.contains(v) {
                        let k = choose|k: int| 0 <= k < s0.len() && s0[k] == v;
                        if k == j - 1 {
                            assert(syms@[j as int] == v);
                        } else if k == j {
                            assert(syms@[j - 1] == v);
                        } else {
                            assert(syms@[k] == v);
                        }
                    }
                    if syms@.contains(v) {
                        let k = choose|k: int| 0 <= k < syms@.len() && syms@[k] == v;
                        if k == j - 1 {
                            assert(s0[j as int] == v);
                        } else if k == j {
                            assert(s0[j - 1] == v);
                        } else {
                            assert(s0[k] == v);
                        }
                    }
                }
            }
            j = j - 1;
        }
        proof {
            assert forall|a: int, b: int| 0 <= a < b < i + 1 implies sym_le(freq@, #[trigger] syms@[a], #[trigger] syms@[b]) by {
                if b == j && a < j {
                    assert(sym_le(freq@, syms@[a], syms@[j - 1]) || a == j - 1);
                }
            }
        }
        i = i + 1;
    }
    proof {
        assert forall|k: int| 0 <= k < syms@.len() implies #[trigger] old(syms)@.contains(syms@[k]) by {
            assert(syms@.contains(syms@[k]));
        }
    }
}

/// Huffman code lengths of the first `n` frequencies, at most `max_len` bits: an
/// unused symbol gets no code; one used symbol gets length 1 along with the lowest
/// other symbol; otherwise the frequencies are halved (never below 1) until the
/// Huffman tree is no deeper than `max_len`. The halving stops after 64 rounds,
/// keeping that tree with lengths capped at `max_len`; every frequency is 1 after
/// at most 33 rounds.
pub fn huff_lengths(freq_in: &[u32], n: usize, max_len: u32, out_len: &mut Vec<u8>)
    requires
        2 <= n <= 1024,
        n <= freq_in@.len(),
        n <= old(out_len)@.len(),
        1 <= max_len <= 16,
    ensures
        final(out_len)@.len() == old(out_len)@.len(),
        forall|i: int| n <= i < old(out_len)@.len() ==> #[trigger] final(out_len)@[i] == old(out_len)@[i],
        forall|i: int| 0 <= i < n ==> #[trigger] final(out_len)@[i] <= max_len,
        used_count(freq_in@, n as int) == 0 ==> forall|i: int| 0 <= i < n ==> #[trigger] final(out_len)@[i] == 0,
        used_count(freq_in@, n as int) == 1 ==> forall|i: int| 0 <= i < n ==>
            #[trigger] final(out_len)@[i] == (if freq_in@[i] != 0 || i == lowest_other(freq_in@, n as int) { 1u8 } else { 0u8 }),
        used_count(freq_in@, n as int) >= 2 ==> forall|i: int| 0 <= i < n ==>
            (#[trigger] final(out_len)@[i] != 0 <==> freq_in@[i] != 0),
{
    let ghost fi = freq_in@;
    let mut i: usize = 0;
    while i < n
        invariant
            i <= n,
            n <= out_len@.len(),
            out_len@.len() == old(out_len)@.len(),
            forall|k: int| 0 <= k < i ==> #[trigger] out_len@[k] == 0,
            forall|k: int| n <= k < out_len@.len() ==> #[trigger] out_len@[k] == old(out_len)@[k],
        decreases n - i,
    {
        out_len.set(i, 0);
        i = i + 1;
    }
    let mut freq: Vec<u32> = Vec::new();
    let mut syms: Vec<usize> = Vec::new();
    let mut i: usize = 0;
    while i < n
        invariant
            i <= n,
            n <= freq_in@.len(),
            fi == freq_in@,
            freq@.len() == i,
            forall|k: int| 0 <= k < i ==> #[trigger] freq@[k] == fi[k],
            forall|k: int| 0 <= k < syms@.len() ==> #[trigger] syms@[k] < i,
            forall|k: int| 0 <= k < syms@.len() ==> fi[#[trigger] syms@[k] as int] != 0,
            forall|k: int| 0 <= k < i && fi[k] != 0 ==> syms@.contains(k as usize),
            forall|a: int, b: int| 0 <= a < b < syms@.len() ==> #[trigger] syms@[a] < #[trigger] syms@[b],
            syms@.len() == used_count(fi, i as int),
        decreases n - i,
    {
        let ghost s0 = syms@;
        freq.push(freq_in[i]);
        if freq_in[i] != 0 {
            syms.push(i);
        }
        proof {
            assert forall|k: int| 0 <= k < i + 1 && fi[k] != 0 implies syms@.contains(k as usize) by {
                if k == i {
                    assert(syms@[syms@.len() - 1] == i);
                } else {
                    assert(s0.contains(k as usize));
                    let j = choose|j: int| 0 <= j < s0.len() && s0[j] == k as usize;
                    assert(syms@[j] == k as usize);
                }
            }
        }
        i = i + 1;
    }
    proof {
        lemma_used_count_le(fi, n as int);
    }
    if syms.len() == 0 {
        proof {
            assert forall|k: int| 0 <= k < n implies fi[k] == 0 by {
                if fi[k] != 0 {
                    assert(syms@.contains(k as usize));
                }
            }
        }
        return;
    }
    if syms.len() == 1 {
        let s0 = syms[0];
        out_len.set(s0, 1);
        let other = if s0 == 0 { 1 } else { 0 };
        out_len.set(other, 1);
        proof {
            assert forall|k: int| 0 <= k < n && fi[k] != 0 implies k == s0 by {
                assert(syms@.contains(k as usize));
            }
            assert(fi[0] != 0 <==> s0 == 0);
        }
        return;
    }
    let m = syms.len();
    let mut round: u32 = 0;
    loop
        invariant
            2 <= m <= n <= 1024,
            1 <= max_len <= 16,
            n <= freq_in@.len(),
            fi == freq_in@,
            n <= out_len@.len(),
            out_len@.len() == old(out_len)@.len(),
            forall|k: int| 0 <= k < n ==> #[trigger] out_len@[k] == 0,
            forall|k: int| n <= k < out_len@.len() ==> #[trigger] out_len@[k] == old(out_len)@[k],
            freq@.len() == n,
            syms@.len() == m,
            m == used_count(fi, n as int),
            forall|k: int| 0 <= k < m ==> #[trigger] syms@[k] < n,
            forall|k: int| 0 <= k < m ==> fi[#[trigger] syms@[k] as int] != 0,
            forall|k: int| 0 <= k < n && fi[k] != 0 ==> syms@.contains(k as usize),
            round < 64,
        decreases 64 - round,
    {
        let ghost s_before = syms@;
        sort_syms(&mut syms, &freq);
        proof {
            assert forall|k: int| 0 <= k < m implies fi[#[trigger] syms@[k] as int] != 0 by {
                assert(s_before.contains(syms@[k]));
                let j = choose|j: int| 0 <= j < s_before.len() && s_before[j] == syms@[k];
                assert(fi[s_before[j] as int] != 0);
            }
            assert forall|k: int| 0 <= k < n && fi[k] != 0 implies syms@.contains(k as usize) by {
                assert(s_before.contains(k as usize));
            }
        }
        let mut f: Vec<u64> = vec![0u64; 2 * m - 1];
        let mut parent: Vec<i32> = vec![-1i32; 2 * m - 1];
        let mut i: usize = 0;
        while i < m
            invariant
                i <= m,
                f@.len() == 2 * m - 1,
                syms@.len() == m,
                freq@.len() == n,
                forall|k: int| 0 <= k < m ==> #[trigger] syms@[k] < n,
                forall|k: int| 0 <= k < m ==> #[trigger] f@[k] <= 0x1_0000_0000,
            decreases m - i,
        {
            f.set(i, freq[syms[i]] as u64);
            i = i + 1;
        }
        merge_nodes(&mut f, &mut parent, m);
        let mut max_depth: u32 = 0;
        let mut i: usize = 0;
        while i < m
            invariant
                i <= m,
                2 <= m <= 1024,
                parent@.len() == 2 * m - 1,
                forall|x: int| 0 <= x < 2 * m - 2 ==> x < #[trigger] parent@[x] < 2 * m - 1,
                parent@[2 * m - 2] == -1,
            decreases m - i,
        {
            let d = depth_of(&parent, i);
            if d > max_depth {
                max_depth = d;
            }
            i = i + 1;
        }
        if max_depth <= max_len || round == 63 {
            let mut i: usize = 0;
            while i < m
                invariant
                    i <= m,
                    2 <= m <= n <= 1024,
                    1 <= max_len <= 16,
                    n <= out_len@.len(),
                    out_len@.len() == old(out_len)@.len(),
                    parent@.len() == 2 * m - 1,
                    forall|x: int| 0 <= x < 2 * m - 2 ==> x < #[trigger] parent@[x] < 2 * m - 1,
                    parent@[2 * m - 2] == -1,
                    syms@.len() == m,
                    forall|k: int| 0 <= k < m ==> #[trigger] syms@[k] < n,
                    forall|k: int| 0 <= k < m ==> fi[#[trigger] syms@[k] as int] != 0,
                    forall|k: int| 0 <= k < n ==> #[trigger] out_len@[k] <= max_len,
                    forall|k: int| 0 <= k < n && fi[k] == 0 ==> #[trigger] out_len@[k] == 0,
                    forall|k: int| 0 <= k < i ==> #[trigger] out_len@[syms@[k] as int] != 0,
                    forall|k: int| n <= k < out_len@.len() ==> #[trigger] out_len@[k] == old(out_len)@[k],
                decreases m - i,
            {
                let d = depth_of(&parent, i);
                let dl: u32 = if d < max_len { d } else { max_len };
                let ghost o = out_len@;
                out_len.set(syms[i], dl as u8);
                proof {
                    assert forall|k: int| 0 <= k < i + 1 implies #[trigger] out_len@[syms@[k] as int] != 0 by {
                        if syms@[k] != syms@[i as int] {
                            assert(out_len@[syms@[k] as int] == o[syms@[k] as int]);
                        }
                    }
                }
                i = i + 1;
            }
            proof {
                assert forall|k: int| 0 <= k < n && fi[k] != 0 implies #[trigger] out_len@[k] != 0 by {
                    assert(syms@.contains(k as usize));
                    let j = choose|j: int| 0 <= j < syms@.len() && syms@[j] == k as usize;
                    assert(out_len@[syms@[j] as int] != 0);
                }
            }
            return;
        }
        let mut k: usize = 0;
        while k < m
            invariant
                k <= m,
                freq@.len() == n,
                syms@.len() == m,
                forall|j: int| 0 <= j < m ==> #[trigger] syms@[j] < n,
            decreases m - k,
        {
            let sk = syms[k];
            let h = freq[sk] / 2;
            freq.set(sk, if h > 1 { h } else { 1 });
            k = k + 1;
        }
        round = round + 1;
    }
}

proof fn lemma_used_count_le(freq: Seq<u32>, n: int)
    requires
        0 <= n,
    ensures
        used_count(freq, n) <= n,
    decreases n,
{
    if n > 0 {
        lemma_used_count_le(freq, n - 1);
    }
}

/// How many of the first `n` frequencies are nonzero.
pub open spec fn used_count(freq: Seq<u32>, n: int) -> nat
    decreases n,
{
    if n <= 0 {
        0
    } else {
        used_count(freq, n - 1) + (if freq[n - 1] != 0 { 1nat } else { 0nat })
    }
}

/// The lowest symbol that is not the one used symbol (0, or 1 when 0 is used).
pub open spec fn lowest_other(freq: Seq<u32>, n: int) -> int {
    if freq[0] != 0 { 1 } else { 0 }
}

/// Bytes of input a token stands for.
pub open spec fn tok_bytes(t: u32) -> nat {
    if t >= TOK_MATCH { (t % 256 + 2) as nat } else { 1 }
}

/// Walks tokens through 0x8000-byte frames: whether no token crosses a frame end,
/// how many frames were completed, and how far into the current frame the walk is.
pub open spec fn frame_walk(ts: Seq<u32>) -> (bool, nat, nat)
    decreases ts.len(),
{
    if ts.len() == 0 {
        (true, 0, 0)
    } else {
        let (ok, c, f) = frame_walk(ts.drop_last());
        let f2 = f + tok_bytes(ts.last());
        if !ok || f2 > FRAME {
            (false, c, f2)
        } else if f2 == FRAME {
            (true, c + 1, 0)
        } else {
            (true, c, f2)
        }
    }
}

/// A candidate match: its length (0 for none), distance, and which repeated
/// offset it reuses (-1 for a new offset).
#[derive(Clone, Copy)]
pub struct Match {
    pub len: usize,
    pub dist: u32,
    pub rep: i32,
}

/// The three bytes at `p` as one big-endian number.
pub open spec fn three_bytes(data: Seq<u8>, p: int) -> nat {
    (data[p] * 65536 + data[p + 1] * 256 + data[p + 2]) as nat
}

/// Hash of the three bytes at `p`.
fn hash_at(data: &[u8], p: usize) -> (h: usize)
    requires
        p + 2 < data@.len(),
    ensures
        h == (three_bytes(data@, p as int) * 2654435761) % 0x1_0000_0000 / 131072,
        h < 0x8000,
{
    let x: u32 = (data[p] as u32) * 65536 + (data[p + 1] as u32) * 256 + data[p + 2] as u32;
    (x.wrapping_mul(2654435761) / 131072) as usize
}

/// The chained-hash tables hold only earlier positions of the interval.
/// Entries of `prev` past `pos`, or of positions never inserted (the last two of the
/// interval), may be left from an earlier interval: no chain reaches them.
pub open spec fn tables_ok(head: Seq<i32>, prev: Seq<i32>, start: int, end: int, pos: int) -> bool {
    &&& head.len() == 0x8000
    &&& prev.len() == INTERVAL
    &&& forall|h: int| 0 <= h < 0x8000 ==> #[trigger] head[h] == -1 || (start <= head[h] < pos && head[h] + 2 < end)
    &&& forall|k: int| 0 <= k < pos - start && start + k + 2 < end ==>
        #[trigger] prev[k] == -1 || (start <= prev[k] < start + k && prev[k] + 2 < end)
}

/// A match found at `p`: real (the bytes agree), inside the interval and frame.
pub open spec fn match_ok(data: Seq<u8>, start: int, end: int, p: int, m: Match, r0: u32, r1: u32, r2: u32) -> bool {
    &&& m.len == 0 || (MIN_MATCH <= m.len <= MAX_MATCH)
    &&& p + m.len <= end
    &&& p + m.len <= (p / (FRAME as int) + 1) * FRAME
    &&& -1 <= m.rep <= 2
    &&& m.len > 0 ==> {
        &&& 1 <= m.dist <= p - start
        &&& (m.rep == -1 ==> m.dist <= MAX_DIST)
        &&& (m.rep == 0 ==> m.dist == r0)
        &&& (m.rep == 1 ==> m.dist == r1)
        &&& (m.rep == 2 ==> m.dist == r2)
        &&& forall|k: int| 0 <= k < m.len ==> #[trigger] data[p - m.dist + k] == data[p + k]
    }
}

/// The `l` bytes at `p` repeat those `d` bytes back.
pub open spec fn agree(data: Seq<u8>, p: int, d: int, l: int) -> bool {
    forall|k: int| 0 <= k < l ==> #[trigger] data[p - d + k] == data[p + k]
}

/// The longest a match at `p` may be: up to 257 bytes, within the interval and the
/// frame.
pub open spec fn match_room(p: int, end: int) -> int {
    let a = if MAX_MATCH < end - p { MAX_MATCH as int } else { end - p };
    let f = (p / (FRAME as int) + 1) * (FRAME as int) - p;
    if a < f { a } else { f }
}

/// The longest match at `p` (repeated offsets first, then up to 128 hash-chain
/// candidates no farther than 0xFFFD back); far new offsets must be longer.
fn find_best(data: &[u8], start: usize, end: usize, p: usize, r0: u32, r1: u32, r2: u32, head: &Vec<i32>, prev: &Vec<i32>) -> (m: Match)
    requires
        start <= p < end <= data@.len(),
        end - start <= INTERVAL,
        end <= 0x7FFF_0000,
        start % FRAME == 0,
        tables_ok(head@, prev@, start as int, end as int, p as int),
        r0 >= 1 && r1 >= 1 && r2 >= 1,
    ensures
        match_ok(data@, start as int, end as int, p as int, m, r0, r1, r2),
        match_room(p as int, end as int) < MIN_MATCH ==> m.len == 0,
        forall|l: int| 2 <= l <= match_room(p as int, end as int) && r0 <= p - start && #[trigger] agree(data@, p as int, r0 as int, l)
            ==> m.len >= l,
        forall|l: int| 3 <= l <= match_room(p as int, end as int) && r1 <= p - start && #[trigger] agree(data@, p as int, r1 as int, l)
            ==> m.len >= l,
        forall|l: int| 3 <= l <= match_room(p as int, end as int) && r2 <= p - start && #[trigger] agree(data@, p as int, r2 as int, l)
            ==> m.len >= l,
{
    let mut m = Match { len: 0, dist: 0, rep: -1 };
    let frame_end = (p / FRAME + 1) * FRAME;
    let a = if MAX_MATCH < end - p { MAX_MATCH } else { end - p };
    let max_len = if a < frame_end - p { a } else { frame_end - p };
    if max_len < MIN_MATCH {
        return m;
    }
    let mut r: usize = 0;
    while r < 3
        invariant
            start <= p < end <= data@.len(),
            r0 >= 1 && r1 >= 1 && r2 >= 1,
            max_len <= MAX_MATCH,
            p + max_len <= end,
            p + max_len <= (p as int / (FRAME as int) + 1) * FRAME,
            MIN_MATCH <= max_len,
            m.len <= max_len,
            match_ok(data@, start as int, end as int, p as int, m, r0, r1, r2),
            max_len == match_room(p as int, end as int),
            r <= 3,
            r > 0 ==> forall|l: int| 2 <= l <= max_len && r0 <= p - start && #[trigger] agree(data@, p as int, r0 as int, l)
                ==> m.len >= l,
            r > 1 ==> forall|l: int| 3 <= l <= max_len && r1 <= p - start && #[trigger] agree(data@, p as int, r1 as int, l)
                ==> m.len >= l,
            r > 2 ==> forall|l: int| 3 <= l <= max_len && r2 <= p - start && #[trigger] agree(data@, p as int, r2 as int, l)
                ==> m.len >= l,
        decreases 3 - r,
    {
        let rep = if r == 0 { r0 } else if r == 1 { r1 } else { r2 };
        let need: usize = if r == 0 { 2 } else { 3 };
        let ghost m0 = m;
        if (rep as usize) <= p - start {
            let len = match_len(data, p - rep as usize, p, max_len);
            if len >= need && len > m.len {
                m = Match { len, dist: rep, rep: r as i32 };
            }
            proof {
                assert forall|l: int| need <= l <= max_len && #[trigger] agree(data@, p as int, rep as int, l) implies m.len >= l by {
                    if l > len {
                        assert(data@[p - rep + len] == data@[p + len]);
                        assert(data@[(p - rep) + len] != data@[p + len]);
                    }
                }
            }
        }
        r = r + 1;
    }
    let ghost lb = m.len;
    if p + 2 < end {
        let mut chain: i32 = MAX_CHAIN;
        let mut cand: i32 = head[hash_at(data, p)];
        while cand >= 0 && chain > 0
            invariant
                start <= p < end <= data@.len(),
                end - start <= INTERVAL,
                tables_ok(head@, prev@, start as int, end as int, p as int),
                cand == -1 || (start <= cand < p && cand + 2 < end),
                r0 >= 1 && r1 >= 1 && r2 >= 1,
                max_len <= MAX_MATCH,
                p + max_len <= end,
                p + max_len <= (p as int / (FRAME as int) + 1) * FRAME,
                MIN_MATCH <= max_len,
                m.len <= max_len,
                match_ok(data@, start as int, end as int, p as int, m, r0, r1, r2),
                m.len >= lb,
            decreases chain,
        {
            chain = chain - 1;
            let dist = (p - cand as usize) as u32;
            if dist > MAX_DIST {
                break;
            }
            let candu = cand as usize;
            if !(m.len > 0 && (m.len >= max_len || data[candu + m.len] != data[p + m.len])) {
                let len = match_len(data, candu, p, max_len);
                if len > m.len && len >= 3 {
                    let fmt = dist + 2;
                    if !((fmt >= 64 && len < 4) || (fmt >= 2048 && len < 5)) {
                        m = Match { len, dist, rep: -1 };
                    }
                }
            }
            cand = prev[candu - start];
        }
    }
    m
}

/// Records position `p` in the hash chains.
fn insert(data: &[u8], start: usize, end: usize, p: usize, head: &mut Vec<i32>, prev: &mut Vec<i32>)
    requires
        start <= p < end <= data@.len(),
        end - start <= INTERVAL,
        end <= 0x7FFF_0000,
        tables_ok(old(head)@, old(prev)@, start as int, end as int, p as int),
    ensures
        tables_ok(final(head)@, final(prev)@, start as int, end as int, p + 1),
{
    if p + 2 < end {
        let h = hash_at(data, p);
        prev.set(p - start, head[h]);
        head.set(h, p as i32);
    }
}

/// The fields of a match token can be read back.
pub proof fn lemma_match_token(slot: int, footer: int, len: int)
    requires
        0 <= slot < 32,
        0 <= footer < 0x2_0000,
        2 <= len <= 257,
    ensures
        0x8000_0000 <= match_token(slot, footer, len) < 0xC000_0000,
        match_token(slot, footer, len) % 256 == len - 2,
        (match_token(slot, footer, len) / 256) % 0x2_0000 == footer,
        (match_token(slot, footer, len) / 0x200_0000) % 64 == slot,
{
    let t = match_token(slot, footer, len);
    let hi = 0x80_0000 + slot * 0x2_0000 + footer;
    assert(t == hi * 256 + (len - 2));
    vstd::arithmetic::div_mod::lemma_fundamental_div_mod_converse(t, 256, hi, len - 2);
    vstd::arithmetic::div_mod::lemma_fundamental_div_mod_converse(hi, 0x2_0000, 0x40 + slot, footer);
    let q = 64 + slot;
    let r = footer * 256 + (len - 2);
    assert(t == q * 0x200_0000 + r);
    assert(r < 0x200_0000);
    vstd::arithmetic::div_mod::lemma_fundamental_div_mod_converse(t, 0x200_0000, q, r);
    vstd::arithmetic::div_mod::lemma_fundamental_div_mod_converse(q, 64, 1, slot);
}

proof fn lemma_walk_step(ts: Seq<u32>, t: u32, done: int)
    requires
        frame_walk(ts) == (true, (done / (FRAME as int)) as nat, (done % (FRAME as int)) as nat),
        done >= 0,
        (done % (FRAME as int)) + tok_bytes(t) <= FRAME,
    ensures
        frame_walk(ts.push(t)) == (true, ((done + tok_bytes(t)) / (FRAME as int)) as nat, ((done + tok_bytes(t)) % (FRAME as int)) as nat),
{
    assert(ts.push(t).drop_last() =~= ts);
    let l = tok_bytes(t) as int;
    let f = done % (FRAME as int);
    let q = done / (FRAME as int);
    if f + l == FRAME {
        vstd::arithmetic::div_mod::lemma_fundamental_div_mod_converse(done + l, FRAME as int, q + 1, 0);
    } else {
        vstd::arithmetic::div_mod::lemma_fundamental_div_mod_converse(done + l, FRAME as int, q, f + l);
    }
}

/// The distance of a match token and the repeated offsets after it, as a decoder
/// reads them: formatted offset 0 reuses R0; 1 and 2 reuse R1 and R2, which trade
/// places with R0; any other is a new distance, two less, that pushes the others back.
pub open spec fn tok_dist(t: u32, r: (u32, u32, u32)) -> (int, (u32, u32, u32)) {
    let slot = ((t / 0x200_0000) % 64) as int;
    let footer = ((t / 256) % 0x2_0000) as int;
    let fmt = pos_base_spec(slot) + footer;
    if fmt == 0 {
        (r.0 as int, r)
    } else if fmt == 1 {
        (r.1 as int, (r.1, r.0, r.2))
    } else if fmt == 2 {
        (r.2 as int, (r.2, r.1, r.0))
    } else {
        (fmt - 2, ((fmt - 2) as u32, r.0, r.1))
    }
}

/// `out` and `len` more bytes, each a copy of the byte `d` before it (so a copy may
/// repeat what it has just written).
pub open spec fn copy_back(out: Seq<u8>, d: int, len: nat) -> Seq<u8>
    decreases len,
{
    if len == 0 {
        out
    } else {
        let o = copy_back(out, d, (len - 1) as nat);
        o.push(o[o.len() - d])
    }
}

/// The output and repeated offsets after decoding token `t`: a literal appends its
/// byte, a match copies its length from its distance back.
pub open spec fn tok_step(t: u32, out: Seq<u8>, r: (u32, u32, u32)) -> (Seq<u8>, (u32, u32, u32)) {
    if t < 256 {
        (out.push(t as u8), r)
    } else {
        (copy_back(out, tok_dist(t, r).0, (t % 256 + 2) as nat), tok_dist(t, r).1)
    }
}

/// The output and repeated offsets after decoding `ts` as a reset interval starts:
/// nothing written yet and every repeated offset 1.
pub open spec fn expand(ts: Seq<u32>) -> (Seq<u8>, (u32, u32, u32))
    decreases ts.len(),
{
    if ts.len() == 0 {
        (Seq::empty(), (1u32, 1u32, 1u32))
    } else {
        tok_step(ts.last(), expand(ts.drop_last()).0, expand(ts.drop_last()).1)
    }
}

proof fn lemma_copy_back(data: Seq<u8>, start: int, pos: int, d: int, len: nat)
    requires
        0 <= start <= pos,
        pos + len <= data.len(),
        1 <= d <= pos - start,
        forall|k: int| 0 <= k < len ==> #[trigger] data[pos - d + k] == data[pos + k],
    ensures
        copy_back(data.subrange(start, pos), d, len) == data.subrange(start, pos + len),
    decreases len,
{
    if len > 0 {
        lemma_copy_back(data, start, pos, d, (len - 1) as nat);
        let o = data.subrange(start, pos + len - 1);
        assert(o[o.len() - d] == data[pos + len - 1 - d]);
        assert(data[pos - d + (len - 1)] == data[pos + (len - 1)]);
        assert(o.push(o[o.len() - d]) =~= data.subrange(start, pos + len));
    }
}

proof fn lemma_expand_literal(ts: Seq<u32>, data: Seq<u8>, start: int, pos: int, r: (u32, u32, u32))
    requires
        0 <= start <= pos < data.len(),
        expand(ts) == (data.subrange(start, pos), r),
    ensures
        expand(ts.push(data[pos] as u32)) == (data.subrange(start, pos + 1), r),
{
    assert(ts.push(data[pos] as u32).drop_last() =~= ts);
    assert(data.subrange(start, pos).push(data[pos]) =~= data.subrange(start, pos + 1));
}

proof fn lemma_expand_match(
    ts: Seq<u32>,
    t: u32,
    data: Seq<u8>,
    start: int,
    pos: int,
    d: int,
    len: int,
    r: (u32, u32, u32),
    r2: (u32, u32, u32),
)
    requires
        expand(ts) == (data.subrange(start, pos), r),
        t >= 256,
        t % 256 + 2 == len,
        tok_dist(t, r) == (d, r2),
        1 <= d <= pos - start,
        0 <= start <= pos,
        pos + len <= data.len(),
        forall|k: int| 0 <= k < len ==> #[trigger] data[pos - d + k] == data[pos + k],
    ensures
        expand(ts.push(t)) == (data.subrange(start, pos + len), r2),
{
    assert(ts.push(t).drop_last() =~= ts);
    lemma_copy_back(data, start, pos, d, len as nat);
}

/// LZ parse of one reset interval `[start, end)` with one-step lazy matching: the
/// tokens cover the interval exactly, and no token crosses a 0x8000-byte frame end.
pub fn parse_interval(
    st: &Slots,
    data: &[u8],
    start: usize,
    end: usize,
    coder: &mut IntervalCoder,
    head: &mut Vec<i32>,
    prev: &mut Vec<i32>,
)
    requires
        st.wf(),
        start < end <= data@.len(),
        end - start <= INTERVAL,
        end <= 0x7FFF_0000,
        start % FRAME == 0,
        old(coder).wf(),
        old(coder).tokens@.len() == 0,
        old(head)@.len() == 0x8000,
        old(prev)@.len() == INTERVAL,
    ensures
        final(coder).wf(),
        final(head)@.len() == 0x8000,
        final(prev)@.len() == INTERVAL,
        frame_walk(final(coder).tokens@) == (true, ((end - start) as int / (FRAME as int)) as nat, ((end - start) as int % (FRAME as int)) as nat),
        expand(final(coder).tokens@).0 == data@.subrange(start as int, end as int),
{
    let mut h: usize = 0;
    while h < 0x8000
        invariant
            head@.len() == 0x8000,
            forall|k: int| 0 <= k < h ==> #[trigger] head@[k] == -1,
        decreases 0x8000 - h,
    {
        head.set(h, -1);
        h = h + 1;
    }
    let mut r0: u32 = 1;
    let mut r1: u32 = 1;
    let mut r2: u32 = 1;
    let mut pos = start;
    proof {
        assert(coder.tokens@ =~= Seq::<u32>::empty());
        assert(frame_walk(coder.tokens@) == (true, 0nat, 0nat));
        assert(data@.subrange(start as int, start as int) =~= Seq::<u8>::empty());
    }
    while pos < end
        invariant
            st.wf(),
            start <= pos <= end <= data@.len(),
            end - start <= INTERVAL,
            end <= 0x7FFF_0000,
            start % FRAME == 0,
            tables_ok(head@, prev@, start as int, end as int, pos as int),
            coder.wf(),
            coder.tokens@.len() <= pos - start,
            frame_walk(coder.tokens@) == (true, ((pos - start) as int / (FRAME as int)) as nat, ((pos - start) as int % (FRAME as int)) as nat),
            1 <= r0 <= MAX_DIST,
            1 <= r1 <= MAX_DIST,
            1 <= r2 <= MAX_DIST,
            expand(coder.tokens@) == (data@.subrange(start as int, pos as int), (r0, r1, r2)),
        decreases end - pos,
    {
        let ghost t0 = coder.tokens@;
        let ghost rr = (r0, r1, r2);
        let m = find_best(data, start, end, pos, r0, r1, r2, head, prev);
        if m.len >= 2 {
            insert(data, start, end, pos, head, prev);
            if m.len < MAX_MATCH && pos + 1 < end {
                let m2 = find_best(data, start, end, pos + 1, r0, r1, r2, head, prev);
                if m2.len > m.len {
                    coder.add_literal(data[pos]);
                    proof {
                        lemma_walk_step(t0, data@[pos as int] as u32, pos - start);
                        lemma_expand_literal(t0, data@, start as int, pos as int, rr);
                    }
                    pos = pos + 1;
                    continue;
                }
            }
            if m.rep == 0 {
                coder.add_match(st, 0, 0, m.len);
                proof {
                    lemma_match_token(0, 0, m.len as int);
                    assert(pos_base_spec(0) == 0);
                    lemma_expand_match(t0, coder.tokens@.last(), data@, start as int, pos as int, m.dist as int, m.len as int, rr, (r0, r1, r2));
                }
            } else if m.rep == 1 {
                let t = r0;
                r0 = r1;
                r1 = t;
                coder.add_match(st, 1, 0, m.len);
                proof {
                    lemma_match_token(1, 0, m.len as int);
                    assert(pos_base_spec(1) == 1) by {
                        reveal_with_fuel(pos_base_spec, 2);
                    }
                    lemma_expand_match(t0, coder.tokens@.last(), data@, start as int, pos as int, m.dist as int, m.len as int, rr, (r0, r1, r2));
                }
            } else if m.rep == 2 {
                let t = r0;
                r0 = r2;
                r2 = t;
                coder.add_match(st, 2, 0, m.len);
                proof {
                    lemma_match_token(2, 0, m.len as int);
                    assert(pos_base_spec(2) == 2) by {
                        reveal_with_fuel(pos_base_spec, 3);
                    }
                    lemma_expand_match(t0, coder.tokens@.last(), data@, start as int, pos as int, m.dist as int, m.len as int, rr, (r0, r1, r2));
                }
            } else {
                r2 = r1;
                r1 = r0;
                r0 = m.dist;
                let fmt = m.dist + 2;
                let slot = slot_for(st, fmt);
                proof {
                    lemma_pos_base_32();
                    if slot < NUM_SLOTS - 1 {
                        assert(fmt - st.base@[slot as int] < p2(slot_extra(slot as int)));
                    }
                    lemma_p2_le_16(slot_extra(slot as int));
                    assert(slot_extra(slot as int) <= 15);
                }
                let footer = fmt - st.base[slot];
                proof {
                    assert(footer < 0x2_0000);
                }
                coder.add_match(st, slot, footer, m.len);
                proof {
                    lemma_match_token(slot as int, footer as int, m.len as int);
                    assert(pos_base_spec(slot as int) + footer == fmt);
                    lemma_expand_match(t0, coder.tokens@.last(), data@, start as int, pos as int, m.dist as int, m.len as int, rr, (r0, r1, r2));
                }
            }
            proof {
                let l = m.len as int;
                assert(tok_bytes(coder.tokens@.last()) == l);
                assert(coder.tokens@ == t0.push(coder.tokens@.last()));
                assert((pos as int) % (FRAME as int) + l <= FRAME as int) by {
                    vstd::arithmetic::div_mod::lemma_fundamental_div_mod(pos as int, FRAME as int);
                    vstd::arithmetic::div_mod::lemma_fundamental_div_mod(start as int, FRAME as int);
                }
                assert(((pos - start) as int) % (FRAME as int) == (pos as int) % (FRAME as int)) by {
                    vstd::arithmetic::div_mod::lemma_mod_sub_multiples_vanish(pos as int, FRAME as int);
                    lemma_mod_shift(pos as int, start as int, FRAME as int);
                }
                lemma_walk_step(t0, coder.tokens@.last(), pos - start);
            }
            let stop = pos + m.len;
            let mut p = pos + 1;
            while p < stop
                invariant
                    start <= pos < p,
                    pos + 1 <= p <= stop <= end <= data@.len(),
                    end - start <= INTERVAL,
                    end <= 0x7FFF_0000,
                    tables_ok(head@, prev@, start as int, end as int, p as int),
                decreases stop - p,
            {
                insert(data, start, end, p, head, prev);
                p = p + 1;
            }
            pos = stop;
        } else {
            coder.add_literal(data[pos]);
            proof {
                lemma_walk_step(t0, data@[pos as int] as u32, pos - start);
                lemma_expand_literal(t0, data@, start as int, pos as int, rr);
            }
            insert(data, start, end, pos, head, prev);
            pos = pos + 1;
        }
    }
}

proof fn lemma_mod_shift(pos: int, start: int, d: int)
    requires
        d > 0,
        start % d == 0,
        0 <= start <= pos,
    ensures
        (pos - start) % d == pos % d,
{
    let k = start / d;
    vstd::arithmetic::div_mod::lemma_fundamental_div_mod(start, d);
    assert(start == d * k);
    vstd::arithmetic::div_mod::lemma_mod_sub_multiples_vanish(pos, d);
    assert((pos - start) % d == (pos - d * k) % d);
    vstd::arithmetic::mul::lemma_mul_is_commutative(d, k);
    vstd::arithmetic::div_mod::lemma_mod_multiples_vanish(-k, pos, d);
    assert(pos - d * k == d * (-k) + pos) by (nonlinear_arith);
}

proof fn lemma_p2_le_16(e: nat)
    requires
        e <= 17,
    ensures
        p2(e) <= 131072,
{
    lemma_p2_adds(e, (17 - e) as nat);
    lemma_p2_pos((17 - e) as nat);
    assert(p2(e) * 1 <= p2(e) * p2((17 - e) as nat)) by (nonlinear_arith)
        requires p2((17 - e) as nat) >= 1;
    lemma_p2_adds(16, 1);
    lemma_p2_values();
}


/// One pretree symbol and the extra bits that follow it.
#[derive(Clone, Copy)]
pub struct TreeItem {
    pub sym: u8,
    pub excess_bits: u8,
    pub excess: u8,
}

/// A pretree symbol with as many extra bits as its kind carries.
pub open spec fn item_ok(it: TreeItem) -> bool {
    &&& it.sym < 20
    &&& it.excess_bits == (if it.sym == 18 { 5u8 } else if it.sym == 17 { 4u8 } else if it.sym == 19 { 1u8 } else { 0u8 })
    &&& it.excess < p2(it.excess_bits as nat)
}

/// `k` copies of `v`.
pub open spec fn run_of(k: nat, v: u8) -> Seq<u8> {
    Seq::new(k, |_i: int| v)
}

/// The code length a plain pretree symbol stands for, the previous length being 0.
pub open spec fn delta_value(sym: u8) -> u8 {
    ((17 - sym) % 17) as u8
}

/// The code lengths a list of pretree items stands for: 18 and 17 are runs of zeros,
/// 19 repeats the length of the plain symbol after it, a plain symbol is one length.
pub open spec fn expand_items(items: Seq<TreeItem>) -> Seq<u8>
    decreases items.len(),
{
    if items.len() == 0 {
        Seq::empty()
    } else {
        let it = items.last();
        let rest = items.drop_last();
        if it.sym == 18 {
            expand_items(rest) + run_of((20 + it.excess) as nat, 0)
        } else if it.sym == 17 {
            expand_items(rest) + run_of((4 + it.excess) as nat, 0)
        } else if it.sym == 19 {
            expand_items(rest)
        } else if rest.len() > 0 && rest.last().sym == 19 {
            expand_items(rest.drop_last()) + run_of((4 + rest.last().excess) as nat, delta_value(it.sym))
        } else {
            expand_items(rest) + seq![delta_value(it.sym)]
        }
    }
}

/// The first `k` pretree lengths, four bits each.
pub open spec fn header_bits(plen: Seq<u8>, k: int) -> Seq<bool>
    decreases k,
{
    if k <= 0 {
        Seq::empty()
    } else {
        header_bits(plen, k - 1) + to_bits(plen[k - 1] as nat, 4)
    }
}

/// An item as written: the canonical pretree code of its symbol, then its extra bits.
pub open spec fn item_bits(it: TreeItem, plen: Seq<u8>) -> Seq<bool> {
    to_bits(enc_code(plen, PRETREE_SYMS as int, it.sym as int) as nat, plen[it.sym as int] as nat)
        + to_bits(it.excess as nat, it.excess_bits as nat)
}

pub open spec fn items_bits(items: Seq<TreeItem>, plen: Seq<u8>) -> Seq<bool>
    decreases items.len(),
{
    if items.len() == 0 {
        Seq::empty()
    } else {
        items_bits(items.drop_last(), plen) + item_bits(items.last(), plen)
    }
}

/// `bits` pretree-code the lengths `lens` by the items `items` under pretree lengths `plen`.
pub open spec fn tree_coded(lens: Seq<u8>, items: Seq<TreeItem>, plen: Seq<u8>, bits: Seq<bool>) -> bool {
    &&& plen.len() == PRETREE_SYMS
    &&& forall|s: int| 0 <= s < PRETREE_SYMS ==> #[trigger] plen[s] <= 15
    &&& forall|k: int| 0 <= k < items.len() ==> #[trigger] item_ok(items[k])
    &&& expand_items(items) == lens
    &&& bits == header_bits(plen, PRETREE_SYMS as int) + items_bits(items, plen)
}

proof fn lemma_runs_join(a: nat, b: nat, v: u8)
    ensures
        run_of(a, v) + run_of(b, v) == run_of(a + b, v),
{
    assert(run_of(a, v) + run_of(b, v) =~= run_of(a + b, v));
}

proof fn lemma_expand_push(items: Seq<TreeItem>, it: TreeItem)
    requires
        it.sym <= 18,
        it.sym <= 16 ==> (items.len() == 0 || items.last().sym != 19),
    ensures
        expand_items(items.push(it)) == expand_items(items) + (if it.sym == 18 {
            run_of((20 + it.excess) as nat, 0)
        } else if it.sym == 17 {
            run_of((4 + it.excess) as nat, 0)
        } else {
            run_of(1, delta_value(it.sym))
        }),
{
    assert(items.push(it).drop_last() =~= items);
    assert(seq![delta_value(it.sym)] =~= run_of(1, delta_value(it.sym)));
}

proof fn lemma_expand_pair(items: Seq<TreeItem>, e: u8, d: u8)
    requires
        d <= 16,
    ensures
        expand_items(items.push(TreeItem { sym: 19, excess_bits: 1, excess: e }).push(TreeItem { sym: d, excess_bits: 0, excess: 0 }))
            == expand_items(items) + run_of((4 + e) as nat, delta_value(d)),
{
    let p = TreeItem { sym: 19, excess_bits: 1, excess: e };
    let q = TreeItem { sym: d, excess_bits: 0, excess: 0 };
    assert(items.push(p).push(q).drop_last() =~= items.push(p));
    assert(items.push(p).drop_last() =~= items);
}

/// Splits `lens[start..start + n]` into pretree items: runs of zeros become 18/17
/// items, runs of four or more equal lengths become 19 pairs, the rest single symbols.
fn tree_items(lens: &Vec<u8>, start: usize, n: usize) -> (items: Vec<TreeItem>)
    requires
        start + n <= lens@.len(),
        n <= 1024,
        forall|i: int| start <= i < start + n ==> #[trigger] lens@[i] <= 16,
    ensures
        items@.len() <= n,
        forall|k: int| 0 <= k < items@.len() ==> #[trigger] item_ok(items@[k]),
        expand_items(items@) == lens@.subrange(start as int, (start + n) as int),
{
    let mut items: Vec<TreeItem> = Vec::new();
    let ln = lens.len();
    let end = start + n;
    let mut i = start;
    proof {
        lemma_p2_table();
        assert(lens@.subrange(start as int, start as int) =~= Seq::<u8>::empty());
    }
    while i < end
        invariant
            start <= i <= end,
            end == start + n,
            end <= lens@.len(),
            n <= 1024,
            forall|q: int| start <= q < end ==> #[trigger] lens@[q] <= 16,
            items@.len() <= i - start,
            items@.len() == 0 || items@.last().sym != 19,
            forall|k: int| 0 <= k < items@.len() ==> #[trigger] item_ok(items@[k]),
            expand_items(items@) == lens@.subrange(start as int, i as int),
            p2(5) == 32 && p2(4) == 16 && p2(1) == 2 && p2(0) == 1,
        decreases end - i,
    {
        let v = lens[i];
        let mut j = i;
        while j < end && lens[j] == v
            invariant
                i <= j <= end,
                end <= lens@.len(),
                v == lens@[i as int],
                forall|q: int| i <= q < j ==> #[trigger] lens@[q] == v,
            decreases end - j,
        {
            j = j + 1;
        }
        let ghost pre = lens@.subrange(start as int, i as int);
        let total = j - i;
        let mut run: usize = total;
        if v == 0 {
            while run >= 20
                invariant
                    run <= total,
                    items@.len() <= i - start + (total - run),
                    items@.len() == 0 || items@.last().sym != 19,
                    forall|k: int| 0 <= k < items@.len() ==> #[trigger] item_ok(items@[k]),
                    expand_items(items@) == pre + run_of((total - run) as nat, 0),
                    p2(5) == 32,
                decreases run,
            {
                let e = if run - 20 < 31 { run - 20 } else { 31 };
                let it = TreeItem { sym: 18, excess_bits: 5, excess: e as u8 };
                proof {
                    lemma_expand_push(items@, it);
                    lemma_runs_join((total - run) as nat, (20 + e) as nat, 0);
                }
                items.push(it);
                run = run - 20 - e;
            }
            while run >= 4
                invariant
                    run <= total,
                    items@.len() <= i - start + (total - run),
                    items@.len() == 0 || items@.last().sym != 19,
                    forall|k: int| 0 <= k < items@.len() ==> #[trigger] item_ok(items@[k]),
                    expand_items(items@) == pre + run_of((total - run) as nat, 0),
                    p2(4) == 16,
                decreases run,
            {
                let e = if run - 4 < 15 { run - 4 } else { 15 };
                let it = TreeItem { sym: 17, excess_bits: 4, excess: e as u8 };
                proof {
                    lemma_expand_push(items@, it);
                    lemma_runs_join((total - run) as nat, (4 + e) as nat, 0);
                }
                items.push(it);
                run = run - 4 - e;
            }
            while run > 0
                invariant
                    run <= total,
                    items@.len() <= i - start + (total - run),
                    items@.len() == 0 || items@.last().sym != 19,
                    forall|k: int| 0 <= k < items@.len() ==> #[trigger] item_ok(items@[k]),
                    expand_items(items@) == pre + run_of((total - run) as nat, 0),
                    p2(0) == 1,
                decreases run,
            {
                let it = TreeItem { sym: 0, excess_bits: 0, excess: 0 };
                proof {
                    lemma_expand_push(items@, it);
                    assert(delta_value(0) == 0);
                    lemma_runs_join((total - run) as nat, 1, 0);
                }
                items.push(it);
                run = run - 1;
            }
        } else {
            let d: u8 = 17 - v;
            proof {
                assert(delta_value(d) == v);
            }
            while run >= 4
                invariant
                    run <= total,
                    1 <= d <= 16,
                    delta_value(d) == v,
                    items@.len() <= i - start + (total - run),
                    items@.len() == 0 || items@.last().sym != 19,
                    forall|k: int| 0 <= k < items@.len() ==> #[trigger] item_ok(items@[k]),
                    expand_items(items@) == pre + run_of((total - run) as nat, v),
                    p2(1) == 2 && p2(0) == 1,
                decreases run,
            {
                let e: u8 = if run >= 5 { 1 } else { 0 };
                proof {
                    lemma_expand_pair(items@, e, d);
                    lemma_runs_join((total - run) as nat, (4 + e) as nat, v);
                }
                items.push(TreeItem { sym: 19, excess_bits: 1, excess: e });
                items.push(TreeItem { sym: d, excess_bits: 0, excess: 0 });
                run = run - 4 - e as usize;
            }
            while run > 0
                invariant
                    run <= total,
                    1 <= d <= 16,
                    delta_value(d) == v,
                    items@.len() <= i - start + (total - run),
                    items@.len() == 0 || items@.last().sym != 19,
                    forall|k: int| 0 <= k < items@.len() ==> #[trigger] item_ok(items@[k]),
                    expand_items(items@) == pre + run_of((total - run) as nat, v),
                    p2(0) == 1,
                decreases run,
            {
                let it = TreeItem { sym: d, excess_bits: 0, excess: 0 };
                proof {
                    lemma_expand_push(items@, it);
                    lemma_runs_join((total - run) as nat, 1, v);
                }
                items.push(it);
                run = run - 1;
            }
        }
        proof {
            assert(pre + run_of(total as nat, v) =~= lens@.subrange(start as int, j as int));
        }
        i = j;
    }
    items
}

/// Pretree-codes the `n` code lengths at `lens[start..]` (the previous lengths being
/// all zero, one block per interval): twenty 4-bit pretree lengths, then each item's
/// pretree code and extra bits.
pub fn write_tree(bw: &mut BitWriter, lens: &Vec<u8>, start: usize, n: usize)
    requires
        old(bw).wf(),
        start + n <= lens@.len(),
        n <= 1024,
        forall|i: int| start <= i < start + n ==> #[trigger] lens@[i] <= 16,
    ensures
        final(bw).wf(),
        final(bw).out@.len() >= old(bw).out@.len(),
        final(bw).out@.subrange(0, old(bw).out@.len() as int) == old(bw).out@,
        exists|items: Seq<TreeItem>, plen: Seq<u8>|
            #[trigger] tree_coded(lens@.subrange(start as int, (start + n) as int), items, plen, tree_bits(items, plen))
                && final(bw).bits() == old(bw).bits() + tree_bits(items, plen),
{
    let items = tree_items(lens, start, n);
    let ni = items.len();
    let mut freq: Vec<u32> = vec![0u32; PRETREE_SYMS];
    let mut k: usize = 0;
    while k < ni
        invariant
            k <= ni,
            ni == items@.len(),
            ni <= 1024,
            freq@.len() == PRETREE_SYMS,
            forall|q: int| 0 <= q < items@.len() ==> #[trigger] item_ok(items@[q]),
            forall|s: int| 0 <= s < PRETREE_SYMS ==> #[trigger] freq@[s] <= k,
        decreases ni - k,
    {
        let s = items[k].sym as usize;
        proof {
            assert(item_ok(items@[k as int]));
        }
        freq.set(s, freq[s] + 1);
        k = k + 1;
    }
    let mut plen: Vec<u8> = vec![0u8; PRETREE_SYMS];
    huff_lengths(freq.as_slice(), PRETREE_SYMS, 15, &mut plen);
    let mut pcode: Vec<u16> = vec![0u16; PRETREE_SYMS];
    assign_codes(plen.as_slice(), PRETREE_SYMS, &mut pcode);
    let ghost b0 = bw.bits();
    let ghost o0 = bw.out@;
    let mut s: usize = 0;
    proof {
        assert(b0 + header_bits(plen@, 0) =~= b0);
    }
    while s < PRETREE_SYMS
        invariant
            s <= PRETREE_SYMS,
            bw.wf(),
            plen@.len() == PRETREE_SYMS,
            bw.bits() == b0 + header_bits(plen@, s as int),
            bw.out@.len() >= o0.len(),
            bw.out@.subrange(0, o0.len() as int) == o0,
        decreases PRETREE_SYMS - s,
    {
        let ghost ob = bw.out@;
        bw.put(4, plen[s] as u32);
        proof {
            assert(bw.out@.subrange(0, o0.len() as int) =~= ob.subrange(0, o0.len() as int));
        }
        s = s + 1;
    }
    let ghost hb = b0 + header_bits(plen@, PRETREE_SYMS as int);
    let mut k: usize = 0;
    proof {
        assert(items@.take(0) =~= Seq::<TreeItem>::empty());
        assert(hb + items_bits(items@.take(0), plen@) =~= hb);
    }
    while k < ni
        invariant
            k <= ni,
            ni == items@.len(),
            bw.wf(),
            plen@.len() == PRETREE_SYMS,
            pcode@.len() == PRETREE_SYMS,
            forall|q: int| 0 <= q < PRETREE_SYMS ==> #[trigger] plen@[q] <= 15,
            forall|q: int| 0 <= q < PRETREE_SYMS ==> #[trigger] pcode@[q] == enc_code(plen@, PRETREE_SYMS as int, q),
            forall|q: int| 0 <= q < items@.len() ==> #[trigger] item_ok(items@[q]),
            bw.bits() == hb + items_bits(items@.take(k as int), plen@),
            bw.out@.len() >= o0.len(),
            bw.out@.subrange(0, o0.len() as int) == o0,
        decreases ni - k,
    {
        let it = items[k];
        proof {
            assert(item_ok(items@[k as int]));
            lemma_p2_table();
        }
        let sym = it.sym as usize;
        let ghost ob = bw.out@;
        bw.put(plen[sym] as u32, pcode[sym] as u32);
        let ghost ob2 = bw.out@;
        bw.put(it.excess_bits as u32, it.excess as u32);
        proof {
            assert(items@.take(k + 1).drop_last() =~= items@.take(k as int));
            assert(items@.take(k + 1).last() == it);
            assert(bw.out@.subrange(0, o0.len() as int) =~= ob2.subrange(0, o0.len() as int));
            assert(ob2.subrange(0, o0.len() as int) =~= ob.subrange(0, o0.len() as int));
        }
        k = k + 1;
    }
    proof {
        assert(items@.take(ni as int) =~= items@);
        assert(tree_coded(lens@.subrange(start as int, (start + n) as int), items@, plen@, tree_bits(items@, plen@)));
    }
}

/// All a tree writes: the pretree lengths, then the items.
pub open spec fn tree_bits(items: Seq<TreeItem>, plen: Seq<u8>) -> Seq<bool> {
    header_bits(plen, PRETREE_SYMS as int) + items_bits(items, plen)
}


/// A compressed reset interval: its bytes and, for each 0x8000-byte frame of input,
/// the offset in them at which that frame's bits end (16-bit aligned).
pub struct IntervalOut {
    pub bytes: Vec<u8>,
    pub frame_ends: Vec<u64>,
}

/// The canonical code of symbol `i` of `n` with code lengths `lens`, as bits.
pub open spec fn code_bits(lens: Seq<u8>, n: int, i: int) -> Seq<bool> {
    to_bits(enc_code(lens, n, i) as nat, lens[i] as nat)
}

/// The footer of a match whose slot has `eb` footer bits: in an aligned block a
/// footer of three or more bits is its high bits verbatim and its low three bits as an
/// aligned code; otherwise it is all verbatim.
pub open spec fn footer_bits(bt: u32, eb: nat, footer: nat, al: Seq<u8>) -> Seq<bool> {
    if bt == BLOCK_ALIGNED && eb >= 3 {
        to_bits(footer / 8, (eb - 3) as nat) + code_bits(al, ALIGNED_SYMS as int, (footer % 8) as int)
    } else if eb > 0 {
        to_bits(footer, eb)
    } else {
        Seq::empty()
    }
}

/// The bits of token `t` in a block of type `bt` with main, length and aligned code
/// lengths `ml`, `ll`, `al`: a literal is its main code; a match is the main code of
/// its slot and length header, the length code when the header is 7, then its footer.
pub open spec fn tok_bits(t: u32, bt: u32, ml: Seq<u8>, ll: Seq<u8>, al: Seq<u8>) -> Seq<bool> {
    if t >= TOK_MATCH {
        let len_m2 = (t % 256) as int;
        let lh = if len_m2 < 7 { len_m2 } else { 7 };
        let slot = ((t / 0x200_0000) % 64) as int;
        code_bits(ml, MAIN_SYMS as int, NUM_CHARS + slot * 8 + lh) + (if lh == 7 {
            code_bits(ll, LEN_SYMS as int, len_m2 - 7)
        } else {
            Seq::empty()
        }) + footer_bits(bt, slot_extra(slot), ((t / 256) % 0x2_0000) as nat, al)
    } else {
        code_bits(ml, MAIN_SYMS as int, t as int)
    }
}

/// Zero bits up to the next 16-bit boundary after `len` bits.
pub open spec fn pad16(len: nat) -> Seq<bool> {
    to_bits(0, ((16 - len % 16) % 16) as nat)
}

/// `pre` followed by the bits of the tokens `ts`, the stream realigned to 16 bits at
/// the end of every 0x8000 bytes of input; `done` bytes of the current frame come
/// before the first token.
pub open spec fn toks_bits(pre: Seq<bool>, ts: Seq<u32>, done: int, bt: u32, ml: Seq<u8>, ll: Seq<u8>, al: Seq<u8>) -> Seq<bool>
    decreases ts.len(),
{
    if ts.len() == 0 {
        pre
    } else if done + tok_bytes(ts[0]) == FRAME {
        toks_bits(
            pre + tok_bits(ts[0], bt, ml, ll, al) + pad16((pre + tok_bits(ts[0], bt, ml, ll, al)).len()),
            ts.drop_first(),
            0,
            bt,
            ml,
            ll,
            al,
        )
    } else {
        toks_bits(pre + tok_bits(ts[0], bt, ml, ll, al), ts.drop_first(), done + tok_bytes(ts[0]), bt, ml, ll, al)
    }
}

/// The first `k` aligned code lengths, three bits each.
pub open spec fn lens3_bits(al: Seq<u8>, k: int) -> Seq<bool>
    decreases k,
{
    if k <= 0 {
        Seq::empty()
    } else {
        lens3_bits(al, k - 1) + to_bits(al[k - 1] as nat, 3)
    }
}

/// `bits` is a way the pretree codes the code lengths `lens`.
pub open spec fn tree_enc(lens: Seq<u8>, bits: Seq<bool>) -> bool {
    exists|items: Seq<TreeItem>, plen: Seq<u8>| #[trigger] tree_coded(lens, items, plen, bits) && bits == tree_bits(items, plen)
}

/// `bits` are an LZX block of type `bt` over `size` bytes: its header; in an aligned
/// block the eight aligned code lengths; the first 256 and the last 256 main code
/// lengths and the length code lengths, each coded by a pretree; then the tokens `ts`
/// with the canonical codes of `ml`, `ll` and `al`, realigned at each frame's end.
pub open spec fn block_coded(bits: Seq<bool>, bt: u32, size: nat, ml: Seq<u8>, ll: Seq<u8>, al: Seq<u8>, ts: Seq<u32>) -> bool {
    exists|t1: Seq<bool>, t2: Seq<bool>, t3: Seq<bool>|
        tree_enc(ml.subrange(0, NUM_CHARS as int), t1) && tree_enc(ml.subrange(NUM_CHARS as int, MAIN_SYMS as int), t2)
            && tree_enc(ll, t3) && toks_bits(#[trigger] block_pre(bt, size, al, t1, t2, t3), ts, 0, bt, ml, ll, al) == bits
}

/// What comes before a block's tokens: the header, the aligned code lengths of an
/// aligned block, and the three coded trees.
pub open spec fn block_pre(bt: u32, size: nat, al: Seq<u8>, t1: Seq<bool>, t2: Seq<bool>, t3: Seq<bool>) -> Seq<bool> {
    block_header(bt, size) + (if bt == BLOCK_ALIGNED { lens3_bits(al, ALIGNED_SYMS as int) } else { Seq::empty() }) + t1 + t2
        + t3
}

/// The block header: E8 call preprocessing off, the block type, the block's size in bytes.
pub open spec fn block_header(block_type: u32, size: nat) -> Seq<bool> {
    to_bits(0, 1) + to_bits(block_type as nat, 3) + to_bits(size, 24)
}

proof fn lemma_walk_prefix(s: Seq<u32>, k: int)
    requires
        frame_walk(s).0,
        0 <= k <= s.len(),
    ensures
        frame_walk(s.take(k)).0,
    decreases s.len() - k,
{
    if k < s.len() {
        assert(s.drop_last().take(k) =~= s.take(k));
        lemma_walk_prefix(s.drop_last(), k);
    } else {
        assert(s.take(k) =~= s);
    }
}

/// Offsets that never go down, each even and within `len`.
pub open spec fn ends_ok(fe: Seq<u64>, len: int) -> bool {
    &&& forall|a: int, b: int| 0 <= a <= b < fe.len() ==> fe[a] <= fe[b]
    &&& forall|a: int| 0 <= a < fe.len() ==> #[trigger] fe[a] <= len && fe[a] % 2 == 0
}

proof fn lemma_match_fields(t: u32)
    requires
        0x8000_0000 <= t < 0xC000_0000,
    ensures
        (t / 0x200_0000) % 64 < 32,
        (t / 256) % 0x2_0000 < 0x2_0000,
        t % 256 < 256,
{
    assert(64 <= t / 0x200_0000 < 96);
    assert((t / 0x200_0000) % 64 == t / 0x200_0000 - 64);
}

/// Compresses one reset interval `[start, end)` as a single block: the block header,
/// the aligned-offset tree when that block type is cheaper, the three pretrees, then
/// every token's codes, realigning to 16 bits at each 0x8000-byte frame of input.
pub fn compress_interval(
    st: &Slots,
    data: &[u8],
    start: usize,
    end: usize,
    head: &mut Vec<i32>,
    prev: &mut Vec<i32>,
) -> (io: IntervalOut)
    requires
        st.wf(),
        start < end <= data@.len(),
        end - start <= INTERVAL,
        end <= 0x7FFF_0000,
        start % FRAME == 0,
        (end - start) as int % (FRAME as int) == 0,
        old(head)@.len() == 0x8000,
        old(prev)@.len() == INTERVAL,
    ensures
        final(head)@.len() == 0x8000,
        final(prev)@.len() == INTERVAL,
        io.bytes@.len() % 2 == 0,
        io.frame_ends@.len() == (end - start) as int / (FRAME as int),
        ends_ok(io.frame_ends@, io.bytes@.len() as int),
        io.frame_ends@.last() == io.bytes@.len(),
        exists|bt: u32| (bt == BLOCK_VERBATIM || bt == BLOCK_ALIGNED)
            && #[trigger] starts_with(unpack16(io.bytes@), block_header(bt, (end - start) as nat)),
        exists|bt: u32, ml: Seq<u8>, ll: Seq<u8>, al: Seq<u8>, ts: Seq<u32>|
            #[trigger] block_coded(unpack16(io.bytes@), bt, (end - start) as nat, ml, ll, al, ts) && (bt == BLOCK_VERBATIM
                || bt == BLOCK_ALIGNED) && expand(ts).0 == data@.subrange(start as int, end as int),
{
    let mut coder = IntervalCoder::new();
    parse_interval(st, data, start, end, &mut coder, head, prev);
    let mut main_len: Vec<u8> = vec![0u8; MAIN_SYMS];
    let mut len_len: Vec<u8> = vec![0u8; LEN_SYMS];
    let mut aligned_len: Vec<u8> = vec![0u8; ALIGNED_SYMS];
    let mut main_code: Vec<u16> = vec![0u16; MAIN_SYMS];
    let mut len_code: Vec<u16> = vec![0u16; LEN_SYMS];
    let mut aligned_code: Vec<u16> = vec![0u16; ALIGNED_SYMS];
    huff_lengths(coder.main_freq.as_slice(), MAIN_SYMS, 16, &mut main_len);
    huff_lengths(coder.len_freq.as_slice(), LEN_SYMS, 16, &mut len_len);
    huff_lengths(coder.aligned_freq.as_slice(), ALIGNED_SYMS, 7, &mut aligned_len);
    assign_codes(main_len.as_slice(), MAIN_SYMS, &mut main_code);
    assign_codes(len_len.as_slice(), LEN_SYMS, &mut len_code);
    assign_codes(aligned_len.as_slice(), ALIGNED_SYMS, &mut aligned_code);

    let mut raw_bits: u64 = 0;
    let mut aligned_bits: u64 = 24;
    let mut s: usize = 0;
    while s < ALIGNED_SYMS
        invariant
            s <= ALIGNED_SYMS,
            coder.wf(),
            aligned_len@.len() == ALIGNED_SYMS,
            forall|q: int| 0 <= q < ALIGNED_SYMS ==> #[trigger] aligned_len@[q] <= 7,
            raw_bits <= 0x3_0000 * s,
            aligned_bits <= 24 + 0x7_0000 * s,
        decreases ALIGNED_SYMS - s,
    {
        let f = coder.aligned_freq[s] as u64;
        let l = aligned_len[s] as u64;
        proof {
            assert(coder.aligned_freq@[s as int] <= coder.tokens@.len());
            assert(f <= 0x1_0000);
            assert(l <= 7);
            assert(f * l <= 0x1_0000 * 7) by (nonlinear_arith)
                requires f <= 0x1_0000, l <= 7;
        }
        raw_bits = raw_bits + 3 * f;
        aligned_bits = aligned_bits + f * l;
        s = s + 1;
    }
    let block_type = if aligned_bits < raw_bits { BLOCK_ALIGNED } else { BLOCK_VERBATIM };

    let mut bw = BitWriter::new();
    bw.put(1, 0);
    bw.put(3, block_type);
    bw.put(24, (end - start) as u32);
    let ghost hdr = block_header(block_type, (end - start) as nat);
    proof {
        assert(bw.bits() =~= hdr);
        assert(starts_with(bw.bits(), hdr)) by {
            assert(bw.bits().subrange(0, hdr.len() as int) =~= hdr);
        }
    }
    if block_type == BLOCK_ALIGNED {
        let mut s: usize = 0;
        proof {
            assert(bw.bits() =~= hdr + lens3_bits(aligned_len@, 0));
        }
        while s < ALIGNED_SYMS
            invariant
                s <= ALIGNED_SYMS,
                bw.wf(),
                aligned_len@.len() == ALIGNED_SYMS,
                starts_with(bw.bits(), hdr),
                bw.bits() == hdr + lens3_bits(aligned_len@, s as int),
            decreases ALIGNED_SYMS - s,
        {
            let ghost b = bw.bits();
            bw.put(3, aligned_len[s] as u32);
            proof {
                lemma_starts_with_append(b, hdr, to_bits(aligned_len@[s as int] as nat, 3));
                assert(bw.bits() =~= hdr + lens3_bits(aligned_len@, s + 1));
            }
            s = s + 1;
        }
    } else {
        proof {
            assert(bw.bits() =~= hdr + Seq::<bool>::empty());
        }
    }
    let ghost b0 = bw.bits();
    proof {
        assert(b0 == hdr + (if block_type == BLOCK_ALIGNED { lens3_bits(aligned_len@, ALIGNED_SYMS as int) } else { Seq::empty() }));
    }
    let ghost b = bw.bits();
    write_tree(&mut bw, &main_len, 0, NUM_CHARS);
    let ghost t1 = bw.bits().subrange(b.len() as int, bw.bits().len() as int);
    proof {
        let items = choose|items: Seq<TreeItem>, plen: Seq<u8>|
            #[trigger] tree_coded(main_len@.subrange(0, NUM_CHARS as int), items, plen, tree_bits(items, plen))
                && bw.bits() == b + tree_bits(items, plen);
        lemma_starts_with_append(b, hdr, tree_bits(items.0, items.1));
        assert(t1 =~= tree_bits(items.0, items.1));
        assert(tree_enc(main_len@.subrange(0, NUM_CHARS as int), t1));
        assert(bw.bits() == b + t1);
    }
    let ghost b = bw.bits();
    write_tree(&mut bw, &main_len, NUM_CHARS, MAIN_SYMS - NUM_CHARS);
    let ghost t2 = bw.bits().subrange(b.len() as int, bw.bits().len() as int);
    proof {
        let items = choose|items: Seq<TreeItem>, plen: Seq<u8>|
            #[trigger] tree_coded(main_len@.subrange(NUM_CHARS as int, MAIN_SYMS as int), items, plen, tree_bits(items, plen))
                && bw.bits() == b + tree_bits(items, plen);
        lemma_starts_with_append(b, hdr, tree_bits(items.0, items.1));
        assert(t2 =~= tree_bits(items.0, items.1));
        assert(tree_enc(main_len@.subrange(NUM_CHARS as int, MAIN_SYMS as int), t2));
        assert(bw.bits() == b + t2);
    }
    let ghost b = bw.bits();
    write_tree(&mut bw, &len_len, 0, LEN_SYMS);
    let ghost t3 = bw.bits().subrange(b.len() as int, bw.bits().len() as int);
    proof {
        let items = choose|items: Seq<TreeItem>, plen: Seq<u8>|
            #[trigger] tree_coded(len_len@.subrange(0, LEN_SYMS as int), items, plen, tree_bits(items, plen))
                && bw.bits() == b + tree_bits(items, plen);
        lemma_starts_with_append(b, hdr, tree_bits(items.0, items.1));
        assert(t3 =~= tree_bits(items.0, items.1));
        assert(len_len@.subrange(0, LEN_SYMS as int) =~= len_len@);
        assert(tree_enc(len_len@, t3));
        assert(bw.bits() == b + t3);
    }
    let ghost pre = bw.bits();
    proof {
        assert(pre == block_pre(block_type, (end - start) as nat, aligned_len@, t1, t2, t3));
    }

    let ghost toks = coder.tokens@;
    proof {
        assert(forall|i: int| 0 <= i < toks.len() ==> #[trigger] tok_ok(toks[i]));
    }
    let frame_ends = write_tokens(&mut bw, st, &coder.tokens, (end - start) as usize, block_type, &main_len, &len_len, &aligned_len,
        &main_code, &len_code, &aligned_code);
    proof {
        lemma_unpack16_len(bw.out@);
        assert(to_bits(bw.acc as nat, 0) =~= Seq::<bool>::empty());
        assert(bw.bits() =~= unpack16(bw.out@));
        assert(toks_bits(block_pre(block_type, (end - start) as nat, aligned_len@, t1, t2, t3), toks, 0, block_type, main_len@,
            len_len@, aligned_len@) == unpack16(bw.out@));
        assert(block_coded(unpack16(bw.out@), block_type, (end - start) as nat, main_len@, len_len@, aligned_len@, toks));
    }
    let bytes = bw.out;
    let io = IntervalOut { bytes, frame_ends };
    proof {
        assert(starts_with(unpack16(io.bytes@), block_header(block_type, (end - start) as nat)));
        assert(block_coded(unpack16(io.bytes@), block_type, (end - start) as nat, main_len@, len_len@, aligned_len@, toks));
    }
    io
}

/// The code lengths are in range and the codes are the canonical codes of the lengths.
#[verifier::opaque]
pub open spec fn codes_ok(main_len: Seq<u8>, len_len: Seq<u8>, aligned_len: Seq<u8>, main_code: Seq<u16>, len_code: Seq<u16>, aligned_code: Seq<u16>) -> bool {
    &&& main_len.len() == MAIN_SYMS
    &&& len_len.len() == LEN_SYMS
    &&& aligned_len.len() == ALIGNED_SYMS
    &&& main_code.len() == MAIN_SYMS
    &&& len_code.len() == LEN_SYMS
    &&& aligned_code.len() == ALIGNED_SYMS
    &&& forall|q: int| 0 <= q < MAIN_SYMS ==> #[trigger] main_len[q] <= 16
    &&& forall|q: int| 0 <= q < LEN_SYMS ==> #[trigger] len_len[q] <= 16
    &&& forall|q: int| 0 <= q < ALIGNED_SYMS ==> #[trigger] aligned_len[q] <= 7
    &&& forall|q: int| 0 <= q < MAIN_SYMS ==> #[trigger] main_code[q] == enc_code(main_len, MAIN_SYMS as int, q)
    &&& forall|q: int| 0 <= q < LEN_SYMS ==> #[trigger] len_code[q] == enc_code(len_len, LEN_SYMS as int, q)
    &&& forall|q: int| 0 <= q < ALIGNED_SYMS ==> #[trigger] aligned_code[q] == enc_code(aligned_len, ALIGNED_SYMS as int, q)
}

/// Writes the bits of the tokens, realigning to 16 bits after each 0x8000 bytes of
/// input; gives, for each frame, the offset at which its bits end.
#[verifier::spinoff_prover]
fn write_tokens(
    bw: &mut BitWriter,
    st: &Slots,
    tokens: &Vec<u32>,
    size: usize,
    block_type: u32,
    main_len: &Vec<u8>,
    len_len: &Vec<u8>,
    aligned_len: &Vec<u8>,
    main_code: &Vec<u16>,
    len_code: &Vec<u16>,
    aligned_code: &Vec<u16>,
) -> (frame_ends: Vec<u64>)
    requires
        old(bw).wf(),
        st.wf(),
        forall|i: int| 0 <= i < tokens@.len() ==> #[trigger] tok_ok(tokens@[i]),
        size as int % (FRAME as int) == 0,
        size > 0,
        frame_walk(tokens@) == (true, (size as int / (FRAME as int)) as nat, (size as int % (FRAME as int)) as nat),
        main_len@.len() == MAIN_SYMS,
        len_len@.len() == LEN_SYMS,
        aligned_len@.len() == ALIGNED_SYMS,
        main_code@.len() == MAIN_SYMS,
        len_code@.len() == LEN_SYMS,
        aligned_code@.len() == ALIGNED_SYMS,
        forall|q: int| 0 <= q < MAIN_SYMS ==> #[trigger] main_len@[q] <= 16,
        forall|q: int| 0 <= q < LEN_SYMS ==> #[trigger] len_len@[q] <= 16,
        forall|q: int| 0 <= q < ALIGNED_SYMS ==> #[trigger] aligned_len@[q] <= 7,
        forall|q: int| 0 <= q < MAIN_SYMS ==> #[trigger] main_code@[q] == enc_code(main_len@, MAIN_SYMS as int, q),
        forall|q: int| 0 <= q < LEN_SYMS ==> #[trigger] len_code@[q] == enc_code(len_len@, LEN_SYMS as int, q),
        forall|q: int| 0 <= q < ALIGNED_SYMS ==> #[trigger] aligned_code@[q] == enc_code(aligned_len@, ALIGNED_SYMS as int, q),
    ensures
        final(bw).wf(),
        final(bw).n == 0,
        final(bw).bits() == toks_bits(old(bw).bits(), tokens@, 0, block_type, main_len@, len_len@, aligned_len@),
        forall|a: Seq<bool>| starts_with(old(bw).bits(), a) ==> #[trigger] starts_with(final(bw).bits(), a),
        frame_ends@.len() == size as int / (FRAME as int),
        ends_ok(frame_ends@, final(bw).out@.len() as int),
        frame_ends@.last() == final(bw).out@.len(),
{
    let ghost toks = tokens@;
    let ghost pre = bw.bits();
    proof {
        assert(toks.take(0) =~= Seq::<u32>::empty());
        assert(frame_walk(toks.take(0)) == (true, 0nat, 0nat));
        assert(toks.subrange(0, toks.len() as int) =~= toks);
    }
    assert(codes_ok(main_len@, len_len@, aligned_len@, main_code@, len_code@, aligned_code@)) by {
        reveal(codes_ok);
    }
    let mut frame_ends: Vec<u64> = Vec::new();
    let ntok = tokens.len();
    let mut in_frame: usize = 0;
    let mut k: usize = 0;
    while k < ntok
        invariant
            k <= ntok,
            ntok == toks.len(),
            toks == tokens@,
            forall|i: int| 0 <= i < toks.len() ==> #[trigger] tok_ok(toks[i]),
            st.wf(),
            frame_walk(toks) == (true, (size as int / (FRAME as int)) as nat, (size as int % (FRAME as int)) as nat),
            frame_walk(toks.take(k as int)) == (true, frame_ends@.len(), in_frame as nat),
            bw.wf(),
            forall|a: Seq<bool>| starts_with(pre, a) ==> #[trigger] starts_with(bw.bits(), a),
            ends_ok(frame_ends@, bw.out@.len() as int),
            in_frame == 0 && frame_ends@.len() > 0 ==> frame_ends@.last() == bw.out@.len() && bw.n == 0,
            codes_ok(main_len@, len_len@, aligned_len@, main_code@, len_code@, aligned_code@),
            toks_bits(bw.bits(), toks.subrange(k as int, ntok as int), in_frame as int, block_type, main_len@, len_len@, aligned_len@)
                == toks_bits(pre, toks, 0, block_type, main_len@, len_len@, aligned_len@),
            in_frame < FRAME,
        decreases ntok - k,
    {
        let ghost ob = bw.out@;
        let ghost bb = bw.bits();
        let ghost rest = toks.subrange(k as int, ntok as int);
        let tok = tokens[k];
        proof {
            lemma_walk_prefix(toks, k + 1);
            assert(toks.take(k + 1).drop_last() =~= toks.take(k as int));
            assert(toks.take(k + 1).last() == tok);
        }
        let tb = write_token(bw, st, tok, block_type, main_len, len_len, aligned_len, main_code, len_code, aligned_code);
        proof {
            assert(rest[0] == tok);
            assert(rest.drop_first() =~= toks.subrange(k + 1, ntok as int));
        }
        let ghost bt1 = bw.bits();
        in_frame = in_frame + tb;
        if in_frame == FRAME {
            proof {
                lemma_unpack16_len(bw.out@);
                lemma_to_bits_len(bw.acc as nat, bw.n as nat);
                assert(bt1.len() % 16 == bw.n as int);
            }
            bw.align16();
            proof {
                assert(bw.bits() == bt1 + pad16(bt1.len()));
            }
            frame_ends.push(bw.out.len() as u64);
            in_frame = 0;
        }
        k = k + 1;
    }
    proof {
        assert(toks.take(ntok as int) =~= toks);
        assert(frame_ends@.len() >= 1);
        assert(toks.subrange(ntok as int, ntok as int) =~= Seq::<u32>::empty());
    }
    frame_ends
}

/// Writes the bits of one token; gives the bytes of input it stands for.
#[verifier::rlimit(40)]
fn write_token(
    bw: &mut BitWriter,
    st: &Slots,
    tok: u32,
    block_type: u32,
    main_len: &Vec<u8>,
    len_len: &Vec<u8>,
    aligned_len: &Vec<u8>,
    main_code: &Vec<u16>,
    len_code: &Vec<u16>,
    aligned_code: &Vec<u16>,
) -> (tb: usize)
    requires
        old(bw).wf(),
        st.wf(),
        tok_ok(tok),
        codes_ok(main_len@, len_len@, aligned_len@, main_code@, len_code@, aligned_code@),
    ensures
        final(bw).wf(),
        final(bw).bits() == old(bw).bits() + tok_bits(tok, block_type, main_len@, len_len@, aligned_len@),
        final(bw).out@.len() >= old(bw).out@.len(),
        final(bw).out@.subrange(0, old(bw).out@.len() as int) == old(bw).out@,
        forall|a: Seq<bool>| starts_with(old(bw).bits(), a) ==> #[trigger] starts_with(final(bw).bits(), a),
        tb == tok_bytes(tok),
{
    reveal(codes_ok);
    let ghost b0 = bw.bits();
    let ghost o0 = bw.out@;
    let tb: usize;
    if tok >= TOK_MATCH {
        proof { lemma_match_fields(tok); }
        let len_m2 = (tok % 256) as usize;
        let footer = (tok / 256) % 0x2_0000;
        let slot = ((tok / 0x200_0000) % 64) as usize;
        let len_header = if len_m2 < 7 { len_m2 } else { 7 };
        let ms = NUM_CHARS + slot * 8 + len_header;
        bw.put(main_len[ms] as u32, main_code[ms] as u32);
        let ghost b1 = bw.bits();
        if len_header == 7 {
            let ls = len_m2 - 7;
            bw.put(len_len[ls] as u32, len_code[ls] as u32);
        }
        let ghost b2 = bw.bits();
        proof {
            if len_header == 7 {
                assert(b2 == b1 + code_bits(len_len@, LEN_SYMS as int, len_m2 - 7));
            } else {
                assert(b2 =~= b1 + Seq::<bool>::empty());
            }
        }
        let eb = st.extra[slot] as u32;
        proof {
            assert(st.extra@[slot as int] == slot_extra(slot as int));
            assert(slot_extra(slot as int) <= 17);
        }
        if block_type == BLOCK_ALIGNED && eb >= 3 {
            bw.put(eb - 3, footer / 8);
            let a = (footer % 8) as usize;
            bw.put(aligned_len[a] as u32, aligned_code[a] as u32);
            proof {
                assert(bw.bits() =~= b2 + footer_bits(block_type, slot_extra(slot as int), footer as nat, aligned_len@));
            }
        } else if eb > 0 {
            bw.put(eb, footer);
        } else {
            proof {
                assert(bw.bits() =~= b2 + footer_bits(block_type, slot_extra(slot as int), footer as nat, aligned_len@));
            }
        }
        tb = len_m2 + MIN_MATCH;
        proof {
            assert(bw.bits() =~= b0 + tok_bits(tok, block_type, main_len@, len_len@, aligned_len@));
        }
    } else {
        let t = tok as usize;
        bw.put(main_len[t] as u32, main_code[t] as u32);
        tb = 1;
    }
    proof {
        assert(bw.out@.subrange(0, o0.len() as int) =~= o0);
    }
    tb
}


proof fn lemma_frames_add(a: int, b: int)
    requires
        a >= 0,
        b >= 0,
        a % (FRAME as int) == 0,
        b % (FRAME as int) == 0,
    ensures
        (a + b) % (FRAME as int) == 0,
        (a + b) / (FRAME as int) == a / (FRAME as int) + b / (FRAME as int),
{
    let f = FRAME as int;
    vstd::arithmetic::div_mod::lemma_fundamental_div_mod(a, f);
    vstd::arithmetic::div_mod::lemma_fundamental_div_mod(b, f);
    let qa = a / f;
    let qb = b / f;
    assert(a + b == f * (qa + qb)) by (nonlinear_arith)
        requires a == f * qa + 0, b == f * qb + 0;
    vstd::arithmetic::div_mod::lemma_fundamental_div_mod_converse(a + b, f, qa + qb, 0);
}

/// The input length rounded up to whole 0x8000-byte frames.
pub open spec fn padded_len(n: int) -> int {
    (n + FRAME - 1) / (FRAME as int) * (FRAME as int)
}

/// `chunk` is one block whose tokens expand to `data`.
#[verifier::opaque]
pub open spec fn interval_coded(chunk: Seq<u8>, data: Seq<u8>) -> bool {
    exists|bt: u32, ml: Seq<u8>, ll: Seq<u8>, al: Seq<u8>, ts: Seq<u32>|
        #[trigger] block_coded(unpack16(chunk), bt, data.len(), ml, ll, al, ts) && (bt == BLOCK_VERBATIM
            || bt == BLOCK_ALIGNED) && expand(ts).0 == data
}

/// `input` followed by zero bytes up to length `n`.
pub open spec fn zero_padded(input: Seq<u8>, n: int) -> Seq<u8> {
    Seq::new(n as nat, |i: int| if i < input.len() { input[i] } else { 0u8 })
}

/// The chunks one after another.
pub open spec fn concat(chunks: Seq<Seq<u8>>) -> Seq<u8>
    decreases chunks.len(),
{
    if chunks.len() == 0 {
        Seq::empty()
    } else {
        concat(chunks.drop_last()) + chunks.last()
    }
}

/// Where the `k`-th reset interval of `n` bytes ends.
pub open spec fn interval_end(k: int, n: int) -> int {
    if (k + 1) * 0x10000 < n { (k + 1) * 0x10000 } else { n }
}

/// `data` is made of one block per reset interval of the zero-padded input, in order,
/// each coding exactly that interval.
pub open spec fn intervals_coded(data: Seq<u8>, input: Seq<u8>, n: int, chunks: Seq<Seq<u8>>) -> bool {
    &&& concat(chunks) == data
    &&& (chunks.len() - 1) * 0x10000 < n <= chunks.len() * 0x10000
    &&& forall|k: int| 0 <= k < chunks.len() ==> interval_coded(
        #[trigger] chunks[k],
        zero_padded(input, n).subrange(k * 0x10000, interval_end(k, n)),
    )
}

/// Each of `chunks` codes its reset interval of `padded_in`, `n` bytes in all.
#[verifier::opaque]
pub open spec fn chunks_ok(chunks: Seq<Seq<u8>>, padded_in: Seq<u8>, n: int) -> bool {
    forall|q: int| 0 <= q < chunks.len() ==> interval_coded(
        #[trigger] chunks[q],
        padded_in.subrange(q * 0x10000, interval_end(q, n)),
    )
}

proof fn lemma_interval_coded(chunk: Seq<u8>, data: Seq<u8>, size: nat)
    requires
        data.len() == size,
        exists|bt: u32, ml: Seq<u8>, ll: Seq<u8>, al: Seq<u8>, ts: Seq<u32>|
            #[trigger] block_coded(unpack16(chunk), bt, size, ml, ll, al, ts) && (bt == BLOCK_VERBATIM
                || bt == BLOCK_ALIGNED) && expand(ts).0 == data,
    ensures
        interval_coded(chunk, data),
{
    reveal(interval_coded);
    let (bt, ml, ll, al, ts) = choose|bt: u32, ml: Seq<u8>, ll: Seq<u8>, al: Seq<u8>, ts: Seq<u32>|
        #[trigger] block_coded(unpack16(chunk), bt, size, ml, ll, al, ts) && (bt == BLOCK_VERBATIM
            || bt == BLOCK_ALIGNED) && expand(ts).0 == data;
    assert(block_coded(unpack16(chunk), bt, data.len(), ml, ll, al, ts));
}

proof fn lemma_chunk_push(chunks: Seq<Seq<u8>>, chunk: Seq<u8>, padded_in: Seq<u8>, pos: int, e: int, n: int)
    requires
        chunks_ok(chunks, padded_in, n),
        pos == chunks.len() * 0x10000,
        e == interval_end(chunks.len() as int, n),
        interval_coded(chunk, padded_in.subrange(pos, e)),
    ensures
        chunks_ok(chunks.push(chunk), padded_in, n),
        concat(chunks.push(chunk)) == concat(chunks) + chunk,
{
    reveal(chunks_ok);
    assert(chunks.push(chunk).drop_last() =~= chunks);
    assert forall|q: int| 0 <= q < chunks.push(chunk).len() implies interval_coded(
        #[trigger] chunks.push(chunk)[q],
        padded_in.subrange(q * 0x10000, interval_end(q, n)),
    ) by {
        if q < chunks.len() {
            assert(chunks.push(chunk)[q] == chunks[q]);
        }
    }
}

/// Appends where each frame of an interval's block starts: the block starts at `base`
/// of the output, its frames end at `fe` within it, and the output is now `nl` bytes.
fn push_frame_starts(frame_starts: &mut Vec<u64>, fe: &Vec<u64>, base: usize, nl: usize)
    requires
        fe@.len() >= 1,
        base <= nl,
        nl % 2 == 0,
        base % 2 == 0,
        ends_ok(fe@, (nl - base) as int),
        ends_ok(old(frame_starts)@, base as int),
    ensures
        final(frame_starts)@.len() == old(frame_starts)@.len() + fe@.len(),
        forall|q: int| 0 <= q < old(frame_starts)@.len() ==> #[trigger] final(frame_starts)@[q] == old(frame_starts)@[q],
        final(frame_starts)@[old(frame_starts)@.len() as int] == base,
        ends_ok(final(frame_starts)@, nl as int),
{
    let ghost old_fs = frame_starts@;
    let nf = fe.len();
    let mut j: usize = 0;
    while j < nf
        invariant
            j <= nf,
            nf == fe@.len(),
            nf >= 1,
            base <= nl,
            nl % 2 == 0,
            base % 2 == 0,
            ends_ok(fe@, (nl - base) as int),
            frame_starts@.len() == old_fs.len() + j,
            forall|q: int| 0 <= q < old_fs.len() ==> #[trigger] frame_starts@[q] == old_fs[q],
            ends_ok(old_fs, base as int),
            forall|q: int| 0 <= q < j ==> #[trigger] frame_starts@[old_fs.len() + q]
                == base + (if q == 0 { 0 } else { fe@[q - 1] as int }),
        decreases nf - j,
    {
        let v: u64 = if j == 0 { base as u64 } else { base as u64 + fe[j - 1] };
        frame_starts.push(v);
        j = j + 1;
    }
    proof {
        assert forall|a: int, b: int| 0 <= a <= b < frame_starts@.len() implies frame_starts@[a] <= frame_starts@[b] by {
            if a >= old_fs.len() {
                let qa = a - old_fs.len();
                let qb = b - old_fs.len();
                assert(frame_starts@[old_fs.len() + qa] == base + (if qa == 0 { 0 } else { fe@[qa - 1] as int }));
                assert(frame_starts@[old_fs.len() + qb] == base + (if qb == 0 { 0 } else { fe@[qb - 1] as int }));
            } else if b >= old_fs.len() {
                let qb = b - old_fs.len();
                assert(frame_starts@[old_fs.len() + qb] == base + (if qb == 0 { 0 } else { fe@[qb - 1] as int }));
            }
        }
        assert forall|a: int| 0 <= a < frame_starts@.len() implies #[trigger] frame_starts@[a] <= nl && frame_starts@[a] % 2 == 0 by {
            if a >= old_fs.len() {
                let qa = a - old_fs.len();
                assert(frame_starts@[old_fs.len() + qa] == base + (if qa == 0 { 0 } else { fe@[qa - 1] as int }));
                if qa > 0 {
                    assert(fe@[qa - 1] <= nl - base && fe@[qa - 1] % 2 == 0);
                }
            }
        }
        assert(frame_starts@[old_fs.len() as int + 0] == base + 0);
    }
}

/// Compresses `input` for a CHM MSCompressed section: the input, zero-padded to
/// whole frames, is cut into 0x10000-byte reset intervals, each compressed on its
/// own; the result records where each frame's data starts. Empty input gives an
/// empty result.
#[verifier::rlimit(100)]
pub fn lzx_compress(input: &[u8]) -> (res: LzxResult)
    requires
        input@.len() <= 0x7FFF_0000 - FRAME,
    ensures
        input@.len() == 0 ==> res.data@.len() == 0 && res.frame_starts@.len() == 0 && res.padded_size == 0,
        input@.len() > 0 ==> {
            &&& res.padded_size == padded_len(input@.len() as int)
            &&& res.frame_starts@.len() == res.padded_size / (FRAME as u64)
            &&& res.frame_starts@[0] == 0
            &&& ends_ok(res.frame_starts@, res.data@.len() as int)
            &&& res.data@.len() % 2 == 0
            &&& exists|chunks: Seq<Seq<u8>>| #[trigger] intervals_coded(res.data@, input@, res.padded_size as int, chunks)
        },
{
    let mut out: Vec<u8> = Vec::new();
    let mut frame_starts: Vec<u64> = Vec::new();
    let len = input.len();
    if len == 0 {
        return LzxResult { data: out, frame_starts, padded_size: 0 };
    }
    let padded = (len + FRAME - 1) / FRAME * FRAME;
    proof {
        vstd::arithmetic::div_mod::lemma_fundamental_div_mod((len + FRAME - 1) as int, FRAME as int);
        vstd::arithmetic::div_mod::lemma_mod_multiples_basic((len + FRAME - 1) as int / (FRAME as int), FRAME as int);
        assert(padded >= len);
        assert(padded as int % (FRAME as int) == 0);
    }
    let mut data: Vec<u8> = vec![0u8; padded];
    let mut k: usize = 0;
    while k < len
        invariant
            k <= len,
            len == input@.len(),
            len <= padded,
            data@.len() == padded,
            forall|i: int| 0 <= i < k ==> #[trigger] data@[i] == input@[i],
            forall|i: int| k <= i < padded ==> #[trigger] data@[i] == 0,
        decreases len - k,
    {
        data.set(k, input[k]);
        k = k + 1;
    }
    proof {
        assert(data@ =~= zero_padded(input@, padded as int));
    }
    let ghost chunks: Seq<Seq<u8>> = Seq::empty();
    let ghost pin = data@;
    assert(chunks_ok(chunks, pin, padded as int)) by {
        reveal(chunks_ok);
    }
    let st = slot_tables();
    let mut head: Vec<i32> = vec![-1i32; 0x8000];
    let mut prev: Vec<i32> = vec![-1i32; INTERVAL];
    let mut pos: usize = 0;
    while pos < padded
        invariant
            st.wf(),
            pos <= padded,
            padded == data@.len(),
            padded <= 0x7FFF_0000,
            padded as int % (FRAME as int) == 0,
            pos as int % (FRAME as int) == 0,
            head@.len() == 0x8000,
            prev@.len() == INTERVAL,
            frame_starts@.len() == pos as int / (FRAME as int),
            pos > 0 ==> frame_starts@.len() >= 1 && frame_starts@[0] == 0,
            pos == 0 ==> out@.len() == 0,
            ends_ok(frame_starts@, out@.len() as int),
            out@.len() % 2 == 0,
            data@ == pin,
            concat(chunks) == out@,
            pos == (if chunks.len() * 0x10000 < padded { chunks.len() * 0x10000int } else { padded as int }),
            chunks.len() == 0 || (chunks.len() - 1) * 0x10000 < padded,
            chunks_ok(chunks, pin, padded as int),
        decreases padded - pos,
    {
        let e = if padded - pos < INTERVAL { padded } else { pos + INTERVAL };
        proof {
            if e == padded {
                assert((e - pos) as int % (FRAME as int) == 0) by {
                    lemma_mod_shift(padded as int, pos as int, FRAME as int);
                }
            } else {
                assert((e - pos) as int == 2 * (FRAME as int));
            }
        }
        let io = compress_interval(&st, data.as_slice(), pos, e, &mut head, &mut prev);
        proof {
            lemma_interval_coded(io.bytes@, data@.subrange(pos as int, e as int), (e - pos) as nat);
        }
        let fe = io.frame_ends;
        let mut bytes = io.bytes;
        let ghost old_fs = frame_starts@;
        let ghost old_chunks = chunks;
        let ghost old_out = out@;
        let ghost chunk = bytes@;
        proof {
            assert(pos == chunks.len() * 0x10000);
            assert(e == interval_end(chunks.len() as int, padded as int));
            lemma_chunk_push(chunks, chunk, data@, pos as int, e as int, padded as int);
            chunks = chunks.push(chunk);
        }
        let base = out.len();
        out.append(&mut bytes);
        let nl = out.len();
        proof {
            lemma_frames_add(pos as int, (e - pos) as int);
        }
        push_frame_starts(&mut frame_starts, &fe, base, nl);
        pos = e;
    }
    assert(pin =~= zero_padded(input@, padded as int));
    assert(intervals_coded(out@, input@, padded as int, chunks)) by {
        reveal(chunks_ok);
    }
    assert(padded == padded_len(input@.len() as int));
    let res = LzxResult { data: out, frame_starts, padded_size: padded as u64 };
    assert(intervals_coded(res.data@, input@, res.padded_size as int, chunks));
    res
}

} // verus!
