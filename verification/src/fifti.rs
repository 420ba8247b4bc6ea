//! Full-text search index ($FIftiMain) writer: the text of each topic is cut into
//! words, and every word's topics and positions are written as scale-root coded
//! bit runs under a B-tree of 4096-byte nodes.
use vstd::prelude::*;
use vstd::string::StringSliceAdditionalSpecFns;
use crate::bitstream::{lemma_p2_adds, lemma_p2_pos, lemma_p2_values, lemma_to_bits_len, p2, pow2_u64, to_bits};
use crate::bytebuf::{encint_len, u16_le, u32_le, Buf};
use crate::sitemap::{
    comment_at, comment_end, copy_range, copy_vec, find_quote, from_radix, lemma_comment_end, lemma_find_quote_bounds, parse_radix,
    same_bytes, skip_comment, starts_comment,
};
use crate::sitemap::lc_all;
use crate::textenc::lc;

verus! {

/// Bytes per B-tree node.
pub const NODE: usize = 4096;
/// Scale-root parameters of the topic, count and location codes.
pub const R_DOC: u32 = 2;
pub const R_CODE: u32 = 1;
pub const R_LOC: u32 = 5;

fn lower(c: u8) -> (r: u8)
    ensures
        r == lc(c),
{
    if 65 <= c && c <= 90 { c + 32 } else { c }
}

/// A run of text of a topic, and whether it is the topic's title.
pub struct TextRun {
    pub text: Vec<u8>,
    pub title: bool,
}

/// What an HTML entity (the text between `&` and `;`) stands for in indexed text:
/// the five named ones and `nbsp`, a numeric one for a code from 1 to 255; a space
/// for anything else.
pub open spec fn entity_text(ent: Seq<u8>) -> Seq<u8> {
    if ent == "amp".spec_bytes() {
        seq![0x26u8]
    } else if ent == "lt".spec_bytes() {
        seq![0x3Cu8]
    } else if ent == "gt".spec_bytes() {
        seq![0x3Eu8]
    } else if ent == "quot".spec_bytes() {
        seq![0x22u8]
    } else if ent == "apos".spec_bytes() {
        seq![0x27u8]
    } else if ent == "nbsp".spec_bytes() {
        seq![0x20u8]
    } else if ent.len() > 0 && ent[0] == 0x23 {
        let hex = ent.len() > 1 && (ent[1] == 0x78 || ent[1] == 0x58);
        let num = if hex { ent.subrange(2, ent.len() as int) } else { ent.subrange(1, ent.len() as int) };
        match from_radix(num, if hex { 16 } else { 10 }) {
            Some(code) => if 0 < code < 256 { seq![code as u8] } else { seq![0x20u8] },
            None => seq![0x20u8],
        }
    } else {
        seq![0x20u8]
    }
}

/// What the entity `s[a..b]` stands for.
pub fn decode_entity(s: &[u8], a: usize, b: usize) -> (r: Vec<u8>)
    requires
        a <= b <= s@.len(),
    ensures
        r@ == entity_text(s@.subrange(a as int, b as int)),
        r@.len() == 1,
{
    let ghost ent = s@.subrange(a as int, b as int);
    let e = copy_range(s, a, b);
    let mut out: Vec<u8> = Vec::new();
    if same_bytes(&e, "amp".as_bytes()) {
        out.push(0x26);
    } else if same_bytes(&e, "lt".as_bytes()) {
        out.push(0x3C);
    } else if same_bytes(&e, "gt".as_bytes()) {
        out.push(0x3E);
    } else if same_bytes(&e, "quot".as_bytes()) {
        out.push(0x22);
    } else if same_bytes(&e, "apos".as_bytes()) {
        out.push(0x27);
    } else if same_bytes(&e, "nbsp".as_bytes()) {
        out.push(0x20);
    } else if b > a && s[a] == 0x23 {
        let hex = b - a > 1 && (s[a + 1] == 0x78 || s[a + 1] == 0x58);
        let code = if hex { parse_radix(s, a + 2, b, 16) } else { parse_radix(s, a + 1, b, 10) };
        proof {
            if hex {
                assert(ent.subrange(2, ent.len() as int) =~= s@.subrange(a + 2, b as int));
            } else {
                assert(ent.subrange(1, ent.len() as int) =~= s@.subrange(a + 1, b as int));
            }
        }
        match code {
            Some(c) => {
                if 0 < c && c < 256 {
                    out.push(c as u8);
                } else {
                    out.push(0x20);
                }
            },
            None => {
                out.push(0x20);
            },
        }
    } else {
        out.push(0x20);
    }
    proof {
        assert(out@ =~= entity_text(ent));
    }
    out
}

/// Whether `b[i..]` starts with `m`.
fn starts_with_at(b: &[u8], i: usize, m: &[u8]) -> (r: bool)
    requires
        i <= b@.len(),
    ensures
        r == (i + m@.len() <= b@.len() && b@.subrange(i as int, i + m@.len()) == m@),
{
    let n = b.len();
    let ml = m.len();
    if n - i < ml {
        return false;
    }
    let mut k: usize = 0;
    while k < ml
        invariant
            k <= ml,
            ml == m@.len(),
            i + ml <= n,
            n == b@.len(),
            forall|q: int| 0 <= q < k ==> b@[i + q] == #[trigger] m@[q],
        decreases ml - k,
    {
        if b[i + k] != m[k] {
            proof {
                assert(b@.subrange(i as int, i + ml)[k as int] != m@[k as int]);
            }
            return false;
        }
        k = k + 1;
    }
    proof {
        assert(b@.subrange(i as int, i + ml) =~= m@);
    }
    true
}

/// The total length of the runs' texts.
pub open spec fn runs_len(rs: Seq<TextRun>) -> int
    decreases rs.len(),
{
    if rs.len() == 0 { 0 } else { runs_len(rs.drop_last()) + rs.last().text@.len() }
}

/// `t` starts with `p`.
pub open spec fn has_prefix(t: Seq<u8>, p: Seq<u8>) -> bool {
    p.len() <= t.len() && t.subrange(0, p.len() as int) == p
}

/// Where the text scan stands: inside the title, the body, a script, a style; the run
/// being gathered and whether it is title text; the runs done.
pub struct TextState {
    pub title: bool,
    pub body: bool,
    pub script: bool,
    pub style: bool,
    pub cur: Seq<u8>,
    pub cur_title: bool,
    pub runs: Seq<(Seq<u8>, bool)>,
}

/// The state before the first byte.
pub open spec fn text_start() -> TextState {
    TextState {
        title: false,
        body: false,
        script: false,
        style: false,
        cur: Seq::empty(),
        cur_title: false,
        runs: Seq::empty(),
    }
}

/// The run being gathered, when there is one, ends.
pub open spec fn flushed(st: TextState) -> TextState {
    if st.cur.len() > 0 {
        TextState {
            title: st.title,
            body: st.body,
            script: st.script,
            style: st.style,
            cur: Seq::empty(),
            cur_title: st.cur_title,
            runs: st.runs.push((st.cur, st.cur_title)),
        }
    } else {
        st
    }
}

/// Text is indexed in the title outside the body, and in the body outside scripts and
/// styles.
pub open spec fn kept(st: TextState) -> bool {
    (st.title && !st.body) || (st.body && !st.script && !st.style)
}

/// Byte `c` of indexed text joins the run.
pub open spec fn add_byte(st: TextState, c: u8) -> TextState {
    if kept(st) {
        TextState {
            title: st.title,
            body: st.body,
            script: st.script,
            style: st.style,
            cur: st.cur.push(c),
            cur_title: st.title && !st.body,
            runs: st.runs,
        }
    } else {
        st
    }
}

/// A tag, by its first eight bytes in lower case: inside the body `/body`, `script`,
/// `/script`, `style` and `/style` switch; outside it `title`, `/title` and `body` do.
pub open spec fn tag_flags(t: Seq<u8>, st: TextState) -> TextState {
    if st.body {
        if has_prefix(t, "/body".spec_bytes()) {
            TextState { body: false, ..st }
        } else if has_prefix(t, "script".spec_bytes()) {
            TextState { script: true, ..st }
        } else if has_prefix(t, "/script".spec_bytes()) {
            TextState { script: false, ..st }
        } else if has_prefix(t, "style".spec_bytes()) {
            TextState { style: true, ..st }
        } else if has_prefix(t, "/style".spec_bytes()) {
            TextState { style: false, ..st }
        } else {
            st
        }
    } else if has_prefix(t, "title".spec_bytes()) {
        TextState { title: true, ..st }
    } else if has_prefix(t, "/title".spec_bytes()) {
        TextState { title: false, ..st }
    } else if has_prefix(t, "body".spec_bytes()) {
        TextState { body: true, ..st }
    } else {
        st
    }
}

/// The runs of text from `i` on, the scan standing at `st`: a comment is passed
/// over; a tag (up to its `>`; with none, the scan ends) ends the run and may switch
/// what is indexed; an entity of at most ten bytes up to its `;` is one byte of text;
/// any other byte is itself.
pub open spec fn text_from(s: Seq<u8>, i: int, st: TextState) -> Seq<(Seq<u8>, bool)>
    decreases s.len() - i,
{
    if i < 0 || i >= s.len() {
        flushed(st).runs
    } else if s[i] == 0x3C {
        if comment_at(s, i) {
            proof {
                lemma_comment_end(s, i);
            }
            text_from(s, comment_end(s, i), st)
        } else {
            let close = find_quote(s, i, 0x3E);
            proof {
                lemma_find_quote_bounds(s, i, 0x3E);
            }
            if close >= s.len() {
                flushed(st).runs
            } else {
                let tag = lc_all(s.subrange(i + 1, if close < i + 9 { close } else { i + 9 }));
                text_from(s, close + 1, tag_flags(tag, flushed(st)))
            }
        }
    } else if s[i] == 0x26 && find_quote(s, i, 0x3B) < s.len() && find_quote(s, i, 0x3B) - i <= 10 {
        let semi = find_quote(s, i, 0x3B);
        proof {
            lemma_find_quote_bounds(s, i, 0x3B);
        }
        text_from(s, semi + 1, add_byte(st, entity_text(s.subrange(i + 1, semi))[0]))
    } else {
        text_from(s, i + 1, add_byte(st, s[i]))
    }
}

/// The runs by their contents.
pub open spec fn run_views(rs: Seq<TextRun>) -> Seq<(Seq<u8>, bool)> {
    Seq::new(rs.len(), |k: int| (rs[k].text@, rs[k].title))
}

/// The text of a topic that is indexed: its title, and its body outside scripts and
/// styles, cut into runs at every tag, entities decoded, comments skipped. Each run
/// is non-empty, and the runs together are no longer than the topic.
pub fn extract_text(html: &[u8]) -> (runs: Vec<TextRun>)
    ensures
        run_views(runs@) == text_from(html@, 0, text_start()),
        forall|k: int| 0 <= k < runs@.len() ==> (#[trigger] runs@[k]).text@.len() > 0,
        runs_len(runs@) <= html@.len(),
{
    let s = html;
    let n = s.len();
    let mut runs: Vec<TextRun> = Vec::new();
    let mut in_title = false;
    let mut in_body = false;
    let mut in_script = false;
    let mut in_style = false;
    let mut cur: Vec<u8> = Vec::new();
    let mut cur_title = false;
    let mut i: usize = 0;
    let ghost all = text_from(s@, 0, text_start());
    proof {
        assert(run_views(runs@) =~= Seq::<(Seq<u8>, bool)>::empty());
        assert(cur@ =~= Seq::<u8>::empty());
    }
    while i < n
        invariant
            i <= n,
            n == s@.len(),
            forall|k: int| 0 <= k < runs@.len() ==> (#[trigger] runs@[k]).text@.len() > 0,
            runs_len(runs@) + cur@.len() <= i,
            all == text_from(s@, 0, text_start()),
            text_from(
                s@,
                i as int,
                TextState {
                    title: in_title,
                    body: in_body,
                    script: in_script,
                    style: in_style,
                    cur: cur@,
                    cur_title: cur_title,
                    runs: run_views(runs@),
                },
            ) == all,
        decreases n - i,
    {
        let ghost st0 = TextState {
            title: in_title,
            body: in_body,
            script: in_script,
            style: in_style,
            cur: cur@,
            cur_title: cur_title,
            runs: run_views(runs@),
        };
        if s[i] == 0x3C {
            if starts_comment(s, i) {
                i = skip_comment(s, i);
                continue;
            }
            proof {
                lemma_find_quote_bounds(s@, i as int, 0x3E);
            }
            let mut close = i;
            while close < n && s[close] != 0x3E
                invariant
                    i <= close <= n,
                    n == s@.len(),
                    find_quote(s@, close as int, 0x3E) == find_quote(s@, i as int, 0x3E),
                decreases n - close,
            {
                close = close + 1;
            }
            if close == n {
                i = n;
                continue;
            }
            let mut tag: Vec<u8> = Vec::new();
            let mut k = i + 1;
            while k < close && tag.len() < 8
                invariant
                    i + 1 <= k <= close,
                    close < n,
                    n == s@.len(),
                    k - (i + 1) <= 8,
                    tag@ == lc_all(s@.subrange(i + 1, k as int)),
                decreases close - k,
            {
                tag.push(lower(s[k]));
                proof {
                    assert(tag@ =~= lc_all(s@.subrange(i + 1, k + 1)));
                }
                k = k + 1;
            }
            proof {
                assert(k as int == (if close < i + 9 { close as int } else { i + 9 }));
            }
            let ghost before = runs_len(runs@);
            if cur.len() > 0 {
                let text = cur;
                cur = Vec::new();
                proof {
                    assert(runs@.push(TextRun { text, title: cur_title }).drop_last() =~= runs@);
                }
                runs.push(TextRun { text, title: cur_title });
                proof {
                    assert(run_views(runs@) =~= st0.runs.push((st0.cur, st0.cur_title)));
                }
            }
            let t = tag.as_slice();
            if in_body {
                if starts_with_at(t, 0, "/body".as_bytes()) {
                    in_body = false;
                } else if starts_with_at(t, 0, "script".as_bytes()) {
                    in_script = true;
                } else if starts_with_at(t, 0, "/script".as_bytes()) {
                    in_script = false;
                } else if starts_with_at(t, 0, "style".as_bytes()) {
                    in_style = true;
                } else if starts_with_at(t, 0, "/style".as_bytes()) {
                    in_style = false;
                }
            } else if starts_with_at(t, 0, "title".as_bytes()) {
                in_title = true;
            } else if starts_with_at(t, 0, "/title".as_bytes()) {
                in_title = false;
            } else if starts_with_at(t, 0, "body".as_bytes()) {
                in_body = true;
            }
            i = close + 1;
            continue;
        }
        let c = s[i];
        let keep = (in_title && !in_body) || (in_body && !in_script && !in_style);
        if c == 0x26 {
            proof {
                lemma_find_quote_bounds(s@, i as int, 0x3B);
            }
            let mut semi = i;
            while semi < n && s[semi] != 0x3B
                invariant
                    i <= semi <= n,
                    n == s@.len(),
                    find_quote(s@, semi as int, 0x3B) == find_quote(s@, i as int, 0x3B),
                decreases n - semi,
            {
                semi = semi + 1;
            }
            if semi < n && semi - i <= 10 {
                if keep {
                    cur_title = in_title && !in_body;
                    let d = decode_entity(s, i + 1, semi);
                    cur.push(d[0]);
                }
                i = semi + 1;
                continue;
            }
        }
        if keep {
            cur_title = in_title && !in_body;
            cur.push(c);
        }
        i = i + 1;
    }
    if cur.len() > 0 {
        let text = cur;
        proof {
            assert(runs@.push(TextRun { text, title: cur_title }).drop_last() =~= runs@);
        }
        let ghost rv = run_views(runs@);
        runs.push(TextRun { text, title: cur_title });
        proof {
            assert(run_views(runs@) =~= rv.push((text@, cur_title)));
        }
    }
    runs
}

/// A character a word is made of: a lower-case ASCII letter or a digit.
pub open spec fn word_char(c: u8) -> bool {
    (0x61 <= c <= 0x7A) || (0x30 <= c <= 0x39)
}

/// Whether `c` is a lower-case ASCII letter or a digit.
pub fn is_word_char(c: u8) -> (r: bool)
    ensures
        r == word_char(c),
{
    (0x61 <= c && c <= 0x7A) || (0x30 <= c && c <= 0x39)
}

/// The bits of bytes, most significant bit of each byte first.
pub open spec fn unpack8(bytes: Seq<u8>) -> Seq<bool>
    decreases bytes.len(),
{
    if bytes.len() == 0 {
        Seq::empty()
    } else {
        unpack8(bytes.drop_last()) + to_bits(bytes.last() as nat, 8)
    }
}

/// Writes bits most significant first into bytes.
pub struct BitWriterMsb {
    pub out: Vec<u8>,
    pub buf: u8,
    pub used: u32,
}

impl BitWriterMsb {
    pub open spec fn wf(&self) -> bool {
        self.used < 8 && self.buf < p2(self.used as nat)
    }

    /// Every bit written: those in whole bytes, then the pending ones.
    pub open spec fn bits(&self) -> Seq<bool> {
        unpack8(self.out@) + to_bits(self.buf as nat, self.used as nat)
    }

    /// A writer with nothing written.
    pub fn new() -> (w: BitWriterMsb)
        ensures
            w.wf(),
            w.bits() == Seq::<bool>::empty(),
            w.out@.len() == 0,
    {
        let w = BitWriterMsb { out: Vec::new(), buf: 0, used: 0 };
        proof {
            reveal_with_fuel(p2, 1);
            assert(w.bits() =~= Seq::<bool>::empty());
        }
        w
    }

    /// Appends one bit.
    fn put_bit(&mut self, bit: u8)
        requires
            old(self).wf(),
            bit < 2,
        ensures
            final(self).wf(),
            final(self).bits() == old(self).bits().push(bit == 1),
    {
        let ghost o = *self;
        proof {
            lemma_p2_adds(self.used as nat, 1);
            lemma_p2_values();
            assert(p2(7) == 128) by {
                reveal_with_fuel(p2, 8);
            }
            assert(self.buf < 128) by {
                assert(p2(self.used as nat) <= 128) by {
                    lemma_p2_adds(self.used as nat, (7 - self.used) as nat);
                    lemma_p2_pos((7 - self.used) as nat);
                    let a = p2(self.used as nat);
                    let b = p2((7 - self.used) as nat);
                    assert(a * 1 <= a * b) by (nonlinear_arith) requires b >= 1;
                }
            }
        }
        self.buf = self.buf * 2 + bit;
        self.used = self.used + 1;
        proof {
            assert(to_bits(self.buf as nat, self.used as nat) =~= to_bits(o.buf as nat, o.used as nat).push(bit == 1));
            assert(self.bits() =~= o.bits().push(bit == 1));
        }
        if self.used == 8 {
            let ghost ob = self.out@;
            let full = self.buf;
            self.out.push(full);
            self.buf = 0;
            self.used = 0;
            proof {
                assert(self.out@.drop_last() =~= ob);
                assert(to_bits(0, 0) =~= Seq::<bool>::empty());
                assert(self.bits() =~= unpack8(ob) + to_bits(full as nat, 8));
                reveal_with_fuel(p2, 1);
            }
        }
    }

    /// Appends the low `nbits` bits of `value`, most significant first.
    pub fn put(&mut self, value: u32, nbits: u32)
        requires
            old(self).wf(),
            nbits <= 32,
        ensures
            final(self).wf(),
            final(self).bits() == old(self).bits() + to_bits(value as nat, nbits as nat),
    {
        let ghost o = self.bits();
        let mut b = nbits;
        proof {
            lemma_to_bits_len((value as nat) / p2(nbits as nat), 0);
            assert(to_bits((value as nat) / p2(nbits as nat), 0) =~= Seq::<bool>::empty());
            assert(o + Seq::<bool>::empty() =~= o);
        }
        while b > 0
            invariant
                b <= nbits <= 32,
                self.wf(),
                self.bits() == o + to_bits((value as nat) / p2(b as nat), (nbits - b) as nat),
            decreases b,
        {
            let q = pow2_u64(b - 1);
            proof {
                lemma_p2_pos((b - 1) as nat);
            }
            let bit = ((value as u64 / q) % 2) as u8;
            proof {
                lemma_p2_adds((b - 1) as nat, 1);
                reveal_with_fuel(p2, 2);
                let v = value as nat;
                let hi = v / p2(b as nat);
                let lo = v / p2((b - 1) as nat);
                assert(lo / 2 == hi) by {
                    vstd::arithmetic::div_mod::lemma_div_denominator(v as int, p2((b - 1) as nat) as int, 2);
                }
                assert(to_bits(lo, (nbits - b + 1) as nat) =~= to_bits(hi, (nbits - b) as nat).push(lo % 2 == 1));
            }
            self.put_bit(bit);
            b = b - 1;
        }
        proof {
            reveal_with_fuel(p2, 1);
            assert(p2(0) == 1);
            assert((value as nat) / 1 == value as nat) by (nonlinear_arith);
        }
    }

    /// Pads with zero bits to a whole byte.
    pub fn align_byte(&mut self)
        requires
            old(self).wf(),
        ensures
            final(self).wf(),
            final(self).used == 0,
            final(self).bits() == old(self).bits() + to_bits(0, ((8 - old(self).used) % 8) as nat),
    {
        if self.used != 0 {
            let ghost n0 = self.used;
            let ghost l0 = self.out@.len();
            self.put(0, 8 - self.used);
            proof {
                lemma_to_bits_len(self.buf as nat, self.used as nat);
                lemma_to_bits_len(0, (8 - n0) as nat);
                lemma_unpack8_len(self.out@);
                lemma_unpack8_len(old(self).out@);
                lemma_to_bits_len(old(self).buf as nat, n0 as nat);
                assert(self.bits().len() == old(self).bits().len() + (8 - n0));
                assert(self.bits().len() == 8 * self.out@.len() + self.used);
                assert(old(self).bits().len() == 8 * l0 + n0);
                assert(8 * self.out@.len() + self.used == 8 * l0 + 8);
            }
        } else {
            proof {
                assert(to_bits(0, 0) =~= Seq::<bool>::empty());
                assert(self.bits() =~= old(self).bits() + to_bits(0, 0));
            }
        }
    }
}

proof fn lemma_unpack8_len(bytes: Seq<u8>)
    ensures
        unpack8(bytes).len() == 8 * bytes.len(),
    decreases bytes.len(),
{
    if bytes.len() > 0 {
        lemma_unpack8_len(bytes.drop_last());
        lemma_to_bits_len(bytes.last() as nat, 8);
    }
}

/// The number of binary digits of `v`.
pub open spec fn nbits(v: nat) -> nat
    decreases v,
{
    if v == 0 { 0 } else { 1 + nbits(v / 2) }
}

/// The number of binary digits of `v` (0 for 0).
pub fn bitlen(v: u32) -> (r: u32)
    ensures
        r == nbits(v as nat),
        r <= 32,
        (v as nat) < p2(r as nat),
        r == 0 || p2((r - 1) as nat) <= v,
{
    let mut n: u32 = 0;
    let mut x: u32 = v;
    proof {
        reveal_with_fuel(p2, 1);
        lemma_p2_values();
        lemma_p2_adds(16, 16);
        assert(p2(0) == 1);
        assert((v as nat) / 1 == v as nat) by (nonlinear_arith);
    }
    while x != 0
        invariant
            n <= 32,
            x as nat == (v as nat) / p2(n as nat),
            n + nbits(x as nat) == nbits(v as nat),
            n == 0 || p2((n - 1) as nat) <= v,
            p2(32) == 0x1_0000_0000,
        decreases x,
    {
        proof {
            lemma_p2_pos(n as nat);
            lemma_p2_adds(n as nat, 1);
            reveal_with_fuel(p2, 2);
            vstd::arithmetic::div_mod::lemma_div_denominator(v as int, p2(n as nat) as int, 2);
            if n >= 32 {
                assert(x == 0) by {
                    vstd::arithmetic::div_mod::lemma_div_by_multiple_is_strongly_ordered(v as int, 0x1_0000_0000, 1, 0x1_0000_0000);
                    lemma_p2_mono_local(32, n as nat);
                    vstd::arithmetic::div_mod::lemma_div_is_ordered_by_denominator(v as int, 0x1_0000_0000, p2(n as nat) as int);
                }
            }
            assert(p2(n as nat) <= v) by {
                vstd::arithmetic::div_mod::lemma_fundamental_div_mod(v as int, p2(n as nat) as int);
                assert(v >= p2(n as nat) * x) by {
                    vstd::arithmetic::mul::lemma_mul_is_commutative(p2(n as nat) as int, x as int);
                }
                assert(p2(n as nat) * x >= p2(n as nat)) by (nonlinear_arith) requires x >= 1;
            }
        }
        n = n + 1;
        x = x / 2;
    }
    proof {
        lemma_p2_pos(n as nat);
        vstd::arithmetic::div_mod::lemma_fundamental_div_mod(v as int, p2(n as nat) as int);
    }
    n
}

proof fn lemma_p2_mono_local(a: nat, b: nat)
    requires
        a <= b,
    ensures
        p2(a) <= p2(b),
{
    lemma_p2_adds(a, (b - a) as nat);
    lemma_p2_pos((b - a) as nat);
    let x = p2(a);
    let y = p2((b - a) as nat);
    assert(x * 1 <= x * y) by (nonlinear_arith) requires y >= 1;
}


/// The scale-root code of `v` with root `root`: a 0 and `v` in `root` bits when it
/// fits; else one 1 for every digit beyond `root`, a 0, and `v` less its top digit.
pub open spec fn sr_code(v: u32, root: u32) -> Seq<bool> {
    let m = nbits(v as nat);
    if m <= root {
        to_bits(0, 1) + to_bits(v as nat, root as nat)
    } else {
        to_bits(0xFFFF_FFFF, (m - root) as nat) + to_bits(0, 1) + to_bits((v - p2((m - 1) as nat)) as nat, (m - 1) as nat)
    }
}

/// Appends the scale-root code of `v`.
pub fn sr_put(bw: &mut BitWriterMsb, v: u32, root: u32)
    requires
        old(bw).wf(),
        1 <= root <= 32,
    ensures
        final(bw).wf(),
        final(bw).bits() == old(bw).bits() + sr_code(v, root),
{
    let m = bitlen(v);
    if m <= root {
        bw.put(0, 1);
        bw.put(v, root);
        proof {
            assert(bw.bits() =~= old(bw).bits() + sr_code(v, root));
        }
    } else {
        bw.put(0xFFFF_FFFF, m - root);
        bw.put(0, 1);
        let top = pow2_u64(m - 1);
        proof {
            lemma_p2_adds(16, 15);
            lemma_p2_values();
            lemma_p2_mono_local((m - 1) as nat, 31);
        }
        let top32 = top as u32;
        bw.put(v - top32, m - 1);
        proof {
            assert(bw.bits() =~= old(bw).bits() + sr_code(v, root));
        }
    }
}


/// The little-endian ENCINT of `v`: 7 bits per byte, least significant group first,
/// the high bit set on every byte but the last.
pub open spec fn encint_le_spec(v: nat) -> Seq<u8>
    decreases v,
{
    if v < 128 {
        seq![v as u8]
    } else {
        seq![(v % 128 + 128) as u8] + encint_le_spec(v / 128)
    }
}

/// The number of 7-bit groups of `v`.
pub open spec fn groups7(v: nat) -> nat
    decreases v,
{
    if v < 128 { 1 } else { 1 + groups7(v / 128) }
}

proof fn lemma_encint_le_len(v: nat)
    ensures
        encint_le_spec(v).len() == groups7(v),
    decreases v,
{
    if v >= 128 {
        lemma_encint_le_len(v / 128);
    }
}

/// The two ENCINT forms of a number take the same number of bytes.
proof fn lemma_encint_groups(x: nat)
    ensures
        crate::bytebuf::encint_spec(x).len() == groups7(x),
    decreases x,
{
    crate::bytebuf::lemma_encint_prefix_facts(x / 128);
    if x >= 128 {
        lemma_encint_groups(x / 128);
        crate::bytebuf::lemma_encint_prefix_facts(x / 128 / 128);
        assert(crate::bytebuf::encint_spec(x / 128).len() == crate::bytebuf::encint_prefix(x / 128 / 128).len() + 1);
    }
}

/// Appends the little-endian ENCINT of `v`.
pub fn encint_le(out: &mut Vec<u8>, v: u32)
    ensures
        final(out)@ == old(out)@ + encint_le_spec(v as nat),
{
    let mut x = v;
    proof {
        assert(old(out)@ + encint_le_spec(v as nat) =~= out@ + encint_le_spec(x as nat));
    }
    while x >= 128
        invariant
            out@ + encint_le_spec(x as nat) == old(out)@ + encint_le_spec(v as nat),
        decreases x,
    {
        let ghost o = out@;
        out.push((x % 128 + 128) as u8);
        proof {
            assert(o + encint_le_spec(x as nat) =~= out@ + encint_le_spec((x / 128) as nat));
        }
        x = x / 128;
    }
    let ghost o = out@;
    out.push(x as u8);
    proof {
        assert(out@ =~= o + encint_le_spec(x as nat));
    }
}

/// The length of the common prefix of `a` and `b`.
pub fn common_prefix(a: &[u8], b: &[u8]) -> (r: usize)
    ensures
        r <= a@.len(),
        r <= b@.len(),
        a@.subrange(0, r as int) == b@.subrange(0, r as int),
        r == a@.len() || r == b@.len() || a@[r as int] != b@[r as int],
{
    let mut n: usize = 0;
    while n < a.len() && n < b.len() && a[n] == b[n]
        invariant
            n <= a@.len(),
            n <= b@.len(),
            a@.subrange(0, n as int) == b@.subrange(0, n as int),
        decreases a@.len() - n,
    {
        proof {
            assert(a@.subrange(0, n + 1) =~= a@.subrange(0, n as int).push(a@[n as int]));
            assert(b@.subrange(0, n + 1) =~= b@.subrange(0, n as int).push(b@[n as int]));
        }
        n = n + 1;
    }
    n
}

/// A B-tree node being filled: its entries' bytes and the last word added.
pub struct NodeBuf {
    pub content: Vec<u8>,
    pub last_word: Vec<u8>,
}

impl NodeBuf {
    /// An empty node.
    pub fn new() -> (n: NodeBuf)
        ensures
            n.content@.len() == 0,
            n.last_word@.len() == 0,
    {
        NodeBuf { content: Vec::new(), last_word: Vec::new() }
    }

    /// Whether the node holds an entry.
    pub fn used(&self) -> (r: bool)
        ensures
            r == (self.content@.len() > 0),
    {
        self.content.len() > 0
    }
}

/// The $FIftiMain file being written: the header area, word-location codes and
/// nodes so far; the leaf being filled; the index levels being filled; and what the
/// header needs.
pub struct FiftiWriter {
    pub file: Buf,
    pub leaf: NodeBuf,
    pub levels: Vec<NodeBuf>,
    pub leaf_count: u32,
    pub prev_leaf_start: u32,
    pub last_leaf_free: u32,
}

impl FiftiWriter {
    pub open spec fn wf(&self) -> bool {
        &&& self.file@.len() >= 0x400
        &&& self.leaf.content@.len() <= NODE - 8
        &&& self.leaf.last_word@.len() <= 99
        &&& forall|l: int| 0 <= l < self.levels@.len() ==> (#[trigger] self.levels@[l]).content@.len() <= NODE - 2
            && self.levels@[l].last_word@.len() <= 99
        &&& self.prev_leaf_start == 0xFFFF_FFFF || self.prev_leaf_start + 4 <= self.file@.len()
    }

    /// A writer with the 0x400-byte header area reserved.
    pub fn new() -> (w: FiftiWriter)
        ensures
            w.wf(),
            w.file@.len() == 0x400,
            w.leaf.content@.len() == 0,
            w.levels@.len() == 0,
            w.leaf_count == 0,
    {
        let mut file = Buf::new();
        file.zeros(0x400);
        FiftiWriter {
            file,
            leaf: NodeBuf::new(),
            levels: Vec::new(),
            leaf_count: 0,
            prev_leaf_start: 0xFFFF_FFFF,
            last_leaf_free: 0,
        }
    }

    /// Writes index level `t` as a node (free-space header, entries, zero padding)
    /// and empties it.
    fn write_index_node(&mut self, t: usize)
        requires
            old(self).wf(),
            t < old(self).levels@.len(),
        ensures
            final(self).wf(),
            final(self).file@.len() == old(self).file@.len() + NODE,
            final(self).file@.subrange(0, old(self).file@.len() as int) == old(self).file@,
            final(self).levels@.len() == old(self).levels@.len(),
            final(self).levels@[t as int].content@.len() == 0,
            final(self).levels@[t as int].last_word@.len() == 0,
            forall|l: int| 0 <= l < final(self).levels@.len() && l != t ==> #[trigger] final(self).levels@[l] == old(self).levels@[l],
            final(self).leaf == old(self).leaf,
            final(self).leaf_count == old(self).leaf_count,
            final(self).prev_leaf_start == old(self).prev_leaf_start,
            final(self).last_leaf_free == old(self).last_leaf_free,
    {
        let mut node = NodeBuf::new();
        let mut old_node = self.levels.remove(t);
        self.levels.insert(t, node);
        let ghost f0 = self.file@;
        let free = (NODE - 2 - old_node.content.len()) as u16;
        self.file.u16(free);
        self.file.raw(old_node.content.as_slice());
        self.file.zeros(free as usize);
        proof {
            assert(self.file@.subrange(0, f0.len() as int) =~= f0);
            assert forall|l: int| 0 <= l < self.levels@.len() && l != t implies #[trigger] self.levels@[l] == old(self).levels@[l] by {
            }
        }
    }

    /// Appends the index entry `(w, child)` to level `t`, sharing `prefix` bytes with
    /// the level's last word: lengths, the rest of the word, the child's offset, two
    /// zero bytes.
    fn push_index_entry(&mut self, t: usize, w: &Vec<u8>, prefix: usize, child: u32)
        requires
            old(self).wf(),
            t < old(self).levels@.len(),
            prefix <= w@.len() <= 99,
            old(self).levels@[t as int].content@.len() + 8 + w@.len() - prefix <= NODE - 2,
        ensures
            final(self).wf(),
            final(self).file@ == old(self).file@,
            final(self).levels@.len() == old(self).levels@.len(),
            final(self).levels@[t as int].content@.len() == old(self).levels@[t as int].content@.len() + 8 + w@.len() - prefix,
            final(self).levels@[t as int].last_word@ == w@,
            forall|l: int| 0 <= l < final(self).levels@.len() && l != t ==> #[trigger] final(self).levels@[l] == old(self).levels@[l],
            final(self).leaf == old(self).leaf,
            final(self).leaf_count == old(self).leaf_count,
            final(self).prev_leaf_start == old(self).prev_leaf_start,
            final(self).last_leaf_free == old(self).last_leaf_free,
    {
        let mut node = self.levels.remove(t);
        let ghost c0 = node.content@;
        node.content.push((w.len() - prefix + 1) as u8);
        node.content.push(prefix as u8);
        let mut k = prefix;
        let n = w.len();
        while k < n
            invariant
                prefix <= k <= n,
                n == w@.len(),
                node.content@.len() == c0.len() + 2 + (k - prefix),
            decreases n - k,
        {
            node.content.push(w[k]);
            k = k + 1;
        }
        node.content.push((child % 256) as u8);
        node.content.push(((child / 256) % 256) as u8);
        node.content.push(((child / 65536) % 256) as u8);
        node.content.push((child / 16777216) as u8);
        node.content.push(0);
        node.content.push(0);
        node.last_word = copy_vec(w);
        self.levels.insert(t, node);
        proof {
            assert forall|l: int| 0 <= l < self.levels@.len() && l != t implies #[trigger] self.levels@[l] == old(self).levels@[l] by {
            }
        }
    }

    /// Adds `(word, child_offset)` to index level `level`. A full level is first
    /// written out, its last word being added to the level above (where a full level
    /// is written out in turn); the nodes of such a run of full levels are written
    /// from the top level of the run down, and every level of the run takes the file
    /// length at the start as the offset of the node below it.
    pub fn add_index_entry(&mut self, level: usize, word: &[u8], child_offset: u32)
        requires
            old(self).wf(),
            word@.len() <= 99,
            level <= old(self).levels@.len(),
        ensures
            final(self).wf(),
            final(self).file@.len() >= old(self).file@.len(),
            final(self).file@.subrange(0, old(self).file@.len() as int) == old(self).file@,
            final(self).levels@.len() >= old(self).levels@.len(),
            final(self).levels@.len() <= old(self).levels@.len() + 1,
            level < final(self).levels@.len(),
            final(self).levels@[level as int].content@.len() > 0,
            final(self).levels@[level as int].last_word@ == word@,
            final(self).leaf == old(self).leaf,
            final(self).leaf_count == old(self).leaf_count,
            final(self).prev_leaf_start == old(self).prev_leaf_start,
            final(self).last_leaf_free == old(self).last_leaf_free,
    {
        let f0 = self.file.len() as u32;
        let wv: Vec<u8> = copy_vec_slice(word);
        let mut j = level;
        let mut w: Vec<u8> = copy_vec_slice(word);
        let mut chain: Vec<Vec<u8>> = Vec::new();
        let ghost fl0 = self.file@;
        let ghost nl0 = self.levels@.len();
        loop
            invariant_except_break
                self.wf(),
                level <= j <= nl0,
                j <= self.levels@.len(),
                self.levels@.len() == nl0,
                w@.len() <= 99,
                wv@ == word@,
                chain@.len() == j - level,
                j > level ==> w@ == chain@[j - level - 1]@,
                j == level ==> w@ == word@,
                forall|q: int| 0 <= q < chain@.len() ==> (#[trigger] chain@[q])@.len() <= 99,
                self.file@ == fl0,
                self.leaf == old(self).leaf,
                self.leaf_count == old(self).leaf_count,
                self.prev_leaf_start == old(self).prev_leaf_start,
                self.last_leaf_free == old(self).last_leaf_free,
            ensures
                self.wf(),
                level <= j < self.levels@.len(),
                nl0 <= self.levels@.len() <= nl0 + 1,
                wv@ == word@,
                chain@.len() == j - level,
                forall|q: int| 0 <= q < chain@.len() ==> (#[trigger] chain@[q])@.len() <= 99,
                self.levels@[j as int].content@.len() > 0,
                j == level ==> self.levels@[j as int].last_word@ == word@,
                self.file@ == fl0,
                self.leaf == old(self).leaf,
                self.leaf_count == old(self).leaf_count,
                self.prev_leaf_start == old(self).prev_leaf_start,
                self.last_leaf_free == old(self).last_leaf_free,
            decreases nl0 + 1 - j,
        {
            if j >= self.levels.len() {
                self.levels.push(NodeBuf::new());
            }
            let prefix = if self.levels[j].used() {
                common_prefix(w.as_slice(), self.levels[j].last_word.as_slice())
            } else {
                0
            };
            if 2 + self.levels[j].content.len() + (2 + w.len() - prefix + 6) > NODE {
                let lw = copy_vec(&self.levels[j].last_word);
                let lw2 = copy_vec(&lw);
                chain.push(lw);
                w = lw2;
                j = j + 1;
            } else {
                let child = if j == level { child_offset } else { f0 };
                self.push_index_entry(j, &w, prefix, child);
                break;
            }
        }
        let mut t = j;
        while t > level
            invariant
                self.wf(),
                level <= t < self.levels@.len(),
                nl0 <= self.levels@.len() <= nl0 + 1,
                wv@ == word@,
                word@.len() <= 99,
                chain@.len() >= t - level,
                forall|q: int| 0 <= q < chain@.len() ==> (#[trigger] chain@[q])@.len() <= 99,
                self.levels@[t as int].content@.len() > 0,
                t == level ==> self.levels@[t as int].last_word@ == word@,
                self.file@.len() >= fl0.len(),
                self.file@.subrange(0, fl0.len() as int) == fl0,
                self.leaf == old(self).leaf,
                self.leaf_count == old(self).leaf_count,
                self.prev_leaf_start == old(self).prev_leaf_start,
                self.last_leaf_free == old(self).last_leaf_free,
            decreases t - level,
        {
            t = t - 1;
            let ghost fb = self.file@;
            self.write_index_node(t);
            proof {
                assert(self.file@.subrange(0, fl0.len() as int) =~= fb.subrange(0, fl0.len() as int));
            }
            if t == level {
                self.push_index_entry(t, &wv, 0, child_offset);
            } else {
                self.push_index_entry(t, &chain[t - level - 1], 0, f0);
            }
        }
    }

    /// Writes index level `level` out (when it holds anything), first adding its last
    /// word to the level above when `register_in_parent`.
    pub fn flush_index_node(&mut self, level: usize, register_in_parent: bool)
        requires
            old(self).wf(),
            level < old(self).levels@.len(),
        ensures
            final(self).wf(),
            final(self).file@.len() >= old(self).file@.len(),
            final(self).file@.subrange(0, old(self).file@.len() as int) == old(self).file@,
            final(self).levels@.len() >= old(self).levels@.len(),
            final(self).levels@.len() <= old(self).levels@.len() + 1,
            final(self).leaf == old(self).leaf,
            final(self).leaf_count == old(self).leaf_count,
            final(self).prev_leaf_start == old(self).prev_leaf_start,
            final(self).last_leaf_free == old(self).last_leaf_free,
            old(self).levels@[level as int].content@.len() == 0 ==> *final(self) == *old(self),
            old(self).levels@[level as int].content@.len() > 0 ==> {
                &&& final(self).file@.len() >= old(self).file@.len() + NODE
                &&& final(self).levels@[level as int].content@.len() == 0
                &&& final(self).levels@[level as int].last_word@.len() == 0
                &&& register_in_parent ==> {
                    &&& level + 1 < final(self).levels@.len()
                    &&& final(self).levels@[level + 1].content@.len() > 0
                    &&& final(self).levels@[level + 1].last_word@ == old(self).levels@[level as int].last_word@
                }
                &&& !register_in_parent ==> {
                    &&& final(self).levels@.len() == old(self).levels@.len()
                    &&& forall|l: int| 0 <= l < final(self).levels@.len() && l != level ==> #[trigger] final(self).levels@[l]
                        == old(self).levels@[l]
                }
            },
    {
        if !self.levels[level].used() {
            return;
        }
        let nl = self.levels.len();
        let my_start = self.file.len() as u32;
        let last_word = copy_vec(&self.levels[level].last_word);
        let ghost f0 = self.file@;
        if register_in_parent {
            self.add_index_entry(level + 1, last_word.as_slice(), my_start);
        }
        let ghost f1 = self.file@;
        self.write_index_node(level);
        proof {
            assert(self.file@.subrange(0, f0.len() as int) =~= f1.subrange(0, f0.len() as int));
        }
    }

    /// Writes the leaf out: links the previous leaf to it, writes its header
    /// (next-leaf link, free space), entries and padding; registers its last word in
    /// the bottom index level when the tree has (or is to get) one.
    pub fn flush_leaf(&mut self, more: bool)
        requires
            old(self).wf(),
            old(self).leaf_count < 0xFFFF_FFFF,
        ensures
            final(self).wf(),
            final(self).file@.len() >= old(self).file@.len() + NODE,
            final(self).leaf.content@.len() == 0,
            final(self).leaf.last_word@.len() == 0,
            final(self).leaf_count == old(self).leaf_count + 1,
            final(self).last_leaf_free == NODE - 8 - old(self).leaf.content@.len(),
            final(self).levels@.len() >= old(self).levels@.len(),
            final(self).levels@.len() <= old(self).levels@.len() + 1,
    {
        let my_start = self.file.len() as u32;
        if self.prev_leaf_start != 0xFFFF_FFFF {
            let p = self.prev_leaf_start as usize;
            self.file.v.set(p, (my_start % 256) as u8);
            self.file.v.set(p + 1, ((my_start / 256) % 256) as u8);
            self.file.v.set(p + 2, ((my_start / 65536) % 256) as u8);
            self.file.v.set(p + 3, (my_start / 16777216) as u8);
        }
        self.prev_leaf_start = my_start;
        let free = (NODE - 8 - self.leaf.content.len()) as u32;
        self.last_leaf_free = free;
        let content = copy_vec(&self.leaf.content);
        let last_word = copy_vec(&self.leaf.last_word);
        self.file.u32(0);
        self.file.u16(0);
        self.file.u16(free as u16);
        self.file.raw(content.as_slice());
        self.file.zeros(free as usize);
        self.leaf_count = self.leaf_count + 1;
        self.leaf = NodeBuf::new();
        if more || self.levels.len() > 0 {
            self.add_index_entry(0, last_word.as_slice(), my_start);
        }
    }

    /// Adds a word (`context` 1 for title text): its topics and their word positions
    /// go to the file as a word-location code, and an entry (front-compressed word,
    /// context, topic count, code offset and length) to the leaf, the leaf being
    /// written out first when the entry would not fit.
    pub fn add_word(&mut self, word: &[u8], context: i32, docs: &Vec<(u32, Vec<u32>)>)
        requires
            old(self).wf(),
            1 <= word@.len() <= 99,
            docs_ok(docs@),
            docs_size(docs@) <= 0x400_0000,
            old(self).leaf_count < 0xFFFF_FFFF,
        ensures
            final(self).wf(),
            final(self).leaf.content@.len() > 0,
            final(self).leaf.last_word@ == word@,
            final(self).leaf_count <= old(self).leaf_count + 1,
            final(self).file@.len() >= old(self).file@.len(),
            final(self).levels@.len() <= old(self).levels@.len() + 1,
    {
        let mut wlc = BitWriterMsb::new();
        let mut last_doc: u32 = 0;
        let nd = docs.len();
        let mut di: usize = 0;
        proof {
            assert(docs@.take(0) =~= Seq::<(u32, Vec<u32>)>::empty());
            lemma_to_bits_len(wlc.buf as nat, wlc.used as nat);
        }
        while di < nd
            invariant
                di <= nd,
                nd == docs@.len(),
                docs_ok(docs@),
                docs_size(docs@) <= 0x400_0000,
                wlc.wf(),
                wlc.used == 0,
                8 * wlc.out@.len() <= 72 * docs_size(docs@.take(di as int)),
                di > 0 ==> last_doc == docs@[di - 1].0,
                di == 0 ==> last_doc == 0,
            decreases nd - di,
        {
            let doc = docs[di].0;
            proof {
                if di > 0 {
                    assert(docs@[di - 1].0 < docs@[di as int].0);
                }
                lemma_docs_size_take(docs@, di as int);
                lemma_sr_len((doc - last_doc) as u32, R_DOC);
                lemma_unpack8_len(wlc.out@);
                lemma_to_bits_len(wlc.buf as nat, wlc.used as nat);
            }
            let ghost b0 = wlc.bits().len();
            assert(b0 == 8 * wlc.out@.len());
            sr_put(&mut wlc, doc - last_doc, R_DOC);
            last_doc = doc;
            let locs = &docs[di].1;
            let nl = locs.len();
            proof {
                lemma_docs_size_take(docs@, di as int);
                lemma_sr_len(nl as u32, R_CODE);
                assert(nl < 0x1_0000_0000);
            }
            sr_put(&mut wlc, nl as u32, R_CODE);
            proof {
                lemma_unpack8_len(wlc.out@);
                lemma_to_bits_len(wlc.buf as nat, wlc.used as nat);
                assert(wlc.bits().len() == 8 * wlc.out@.len() + wlc.used);
                assert(wlc.bits().len() <= b0 + 130);
            }
            let mut last_loc: u32 = 0;
            let mut li: usize = 0;
            while li < nl
                invariant
                    li <= nl,
                    nl == locs@.len(),
                    locs@ == docs@[di as int].1@,
                    docs_ok(docs@),
                    di < nd,
                    nd == docs@.len(),
                    wlc.wf(),
                    8 * wlc.out@.len() + wlc.used <= b0 + 130 + 65 * li,
                    li > 0 ==> last_loc == locs@[li - 1],
                    li == 0 ==> last_loc == 0,
                decreases nl - li,
            {
                let loc = locs[li];
                proof {
                    if li > 0 {
                        assert(locs@[li - 1] < locs@[li as int]);
                    }
                    lemma_sr_len((loc - last_loc) as u32, R_LOC);
                    lemma_unpack8_len(wlc.out@);
                    lemma_to_bits_len(wlc.buf as nat, wlc.used as nat);
                    assert(wlc.bits().len() == 8 * wlc.out@.len() + wlc.used);
                }
                let ghost bb = wlc.bits().len();
                sr_put(&mut wlc, loc - last_loc, R_LOC);
                proof {
                    lemma_unpack8_len(wlc.out@);
                    lemma_to_bits_len(wlc.buf as nat, wlc.used as nat);
                    assert(wlc.bits().len() == 8 * wlc.out@.len() + wlc.used);
                    assert(wlc.bits().len() <= bb + 65);
                }
                last_loc = loc;
                li = li + 1;
            }
            let ghost ba = wlc.bits().len();
            let ghost u0 = wlc.used;
            proof {
                lemma_unpack8_len(wlc.out@);
                lemma_to_bits_len(wlc.buf as nat, wlc.used as nat);
                assert(ba == 8 * wlc.out@.len() + wlc.used);
            }
            wlc.align_byte();
            proof {
                lemma_unpack8_len(wlc.out@);
                lemma_to_bits_len(wlc.buf as nat, wlc.used as nat);
                lemma_to_bits_len(0, ((8 - u0) % 8) as nat);
                assert(docs@.take(di + 1).drop_last() =~= docs@.take(di as int));
                assert(docs_size(docs@.take(di + 1)) == docs_size(docs@.take(di as int)) + 2 + nl);
                assert(wlc.bits().len() == 8 * wlc.out@.len());
                assert(wlc.bits().len() <= ba + 7);
            }
            di = di + 1;
        }
        let wlc_bytes = wlc.out;
        proof {
            assert(docs@.take(nd as int) =~= docs@);
            assert(wlc_bytes@.len() < 0x8000_0000);
            assert(nd < 0x1000_0000) by {
                lemma_docs_size_len(docs@);
            }
            lemma_groups7_small(nd as nat);
            lemma_groups7_small(wlc_bytes@.len() as nat);
            lemma_encint_groups(nd as nat);
            lemma_encint_groups(wlc_bytes@.len() as nat);
        }
        let e1 = encint_len(nd as u64);
        let e2 = encint_len(wlc_bytes.len() as u64);
        let used = self.leaf.used();
        let mut prefix = if used { common_prefix(word, self.leaf.last_word.as_slice()) } else { 0 };
        if used && 8 + self.leaf.content.len() + (2 + (word.len() - prefix) + 1 + e1 + 6 + e2) > NODE {
            self.flush_leaf(true);
            prefix = 0;
        }
        let wlc_offset = self.file.len() as u32;
        self.file.raw(wlc_bytes.as_slice());
        let ghost c0 = self.leaf.content@.len();
        let mut c = copy_vec(&self.leaf.content);
        c.push((word.len() - prefix + 1) as u8);
        c.push(prefix as u8);
        let wl = word.len();
        let mut k = prefix;
        while k < wl
            invariant
                prefix <= k <= wl,
                wl == word@.len(),
                c@.len() == c0 + 2 + (k - prefix),
            decreases wl - k,
        {
            c.push(word[k]);
            k = k + 1;
        }
        c.push(context as u8);
        let ghost c1 = c@.len();
        encint_le(&mut c, nd as u32);
        c.push((wlc_offset % 256) as u8);
        c.push(((wlc_offset / 256) % 256) as u8);
        c.push(((wlc_offset / 65536) % 256) as u8);
        c.push((wlc_offset / 16777216) as u8);
        c.push(0);
        c.push(0);
        let ghost c2 = c@.len();
        encint_le(&mut c, wlc_bytes.len() as u32);
        proof {
            lemma_encint_le_len(nd as nat);
            lemma_encint_le_len(wlc_bytes@.len() as nat);
            assert(c@.len() == c0 + 2 + (wl - prefix) + 1 + e1 + 6 + e2);
        }
        self.leaf.content = c;
        self.leaf.last_word = copy_vec_slice(word);
        proof {
            assert(e1 <= 5 && e2 <= 5);
            assert(self.leaf.content@.len() <= NODE - 8);
            assert(self.file@.len() >= 0x400);
            assert(self.prev_leaf_start == 0xFFFF_FFFF || self.prev_leaf_start + 4 <= self.file@.len());
        }
    }

    /// Writes out the last leaf and then every index level, bottom up; gives the
    /// root node's offset, the leaf count, the tree depth and the last leaf's free
    /// space.
    pub fn finish(&mut self) -> (r: (u32, u32, u16, u32))
        requires
            old(self).wf(),
            old(self).leaf.content@.len() > 0,
            old(self).leaf_count < 0xFFFF_FFFF,
        ensures
            final(self).wf(),
            final(self).file@.len() >= 0x400 + NODE,
            r.0 == (final(self).file@.len() - NODE) as u32,
            r.1 == final(self).leaf_count,
            r.1 == old(self).leaf_count + 1,
            r.3 == NODE - 8 - old(self).leaf.content@.len(),
    {
        self.flush_leaf(false);
        let nlevels = self.levels.len();
        let mut lv: usize = 0;
        let ghost lc = self.leaf_count;
        let ghost lf = self.last_leaf_free;
        while lv < nlevels
            invariant
                self.wf(),
                lv <= nlevels,
                nlevels <= self.levels@.len(),
                self.file@.len() >= 0x400 + NODE,
                self.leaf_count == lc,
                self.last_leaf_free == lf,
            decreases nlevels - lv,
        {
            self.flush_index_node(lv, lv + 1 < nlevels);
            lv = lv + 1;
        }
        let root_offset = (self.file.len() - NODE) as u32;
        let depth = ((nlevels % 65536) as u32 + 1) % 65536;
        (root_offset, self.leaf_count, depth as u16, self.last_leaf_free)
    }
}

/// A copy of `s`.
fn copy_vec_slice(s: &[u8]) -> (r: Vec<u8>)
    ensures
        r@ == s@,
{
    copy_range(s, 0, s.len())
}


/// Topics in increasing order, each with its word positions in increasing order.
pub open spec fn docs_ok(docs: Seq<(u32, Vec<u32>)>) -> bool {
    &&& forall|a: int, b: int| 0 <= a < b < docs.len() ==> (#[trigger] docs[a]).0 < (#[trigger] docs[b]).0
    &&& forall|d: int| 0 <= d < docs.len() ==> (#[trigger] docs[d]).1@.len() >= 1
    &&& forall|d: int, a: int, b: int| 0 <= d < docs.len() && 0 <= a < b < docs[d].1@.len() ==> docs[d].1@[a] < docs[d].1@[b]
}

/// Two per topic plus one per position: a bound on the codes a word's topics take.
pub open spec fn docs_size(docs: Seq<(u32, Vec<u32>)>) -> int
    decreases docs.len(),
{
    if docs.len() == 0 {
        0
    } else {
        docs_size(docs.drop_last()) + 2 + docs.last().1@.len()
    }
}

proof fn lemma_docs_size_take(docs: Seq<(u32, Vec<u32>)>, k: int)
    requires
        0 <= k < docs.len(),
    ensures
        docs_size(docs.take(k)) + 2 + docs[k].1@.len() <= docs_size(docs),
        docs_size(docs.take(k)) >= 0,
    decreases docs.len() - k,
{
    lemma_docs_size_nonneg(docs.take(k));
    if k + 1 < docs.len() {
        lemma_docs_size_take(docs.drop_last(), k);
        assert(docs.drop_last().take(k) =~= docs.take(k));
        assert(docs.drop_last()[k] == docs[k]);
        lemma_docs_size_nonneg(docs.drop_last());
    } else {
        assert(docs.drop_last() =~= docs.take(k));
    }
}

proof fn lemma_docs_size_nonneg(docs: Seq<(u32, Vec<u32>)>)
    ensures
        docs_size(docs) >= 0,
    decreases docs.len(),
{
    if docs.len() > 0 {
        lemma_docs_size_nonneg(docs.drop_last());
    }
}

proof fn lemma_docs_size_len(docs: Seq<(u32, Vec<u32>)>)
    ensures
        docs_size(docs) >= 2 * docs.len(),
    decreases docs.len(),
{
    if docs.len() > 0 {
        lemma_docs_size_len(docs.drop_last());
    }
}

proof fn lemma_nbits_bound(v: nat, k: nat)
    requires
        v < p2(k),
    ensures
        nbits(v) <= k,
    decreases v,
{
    if v > 0 {
        assert(k > 0);
        lemma_p2_adds((k - 1) as nat, 1);
        reveal_with_fuel(p2, 2);
        lemma_nbits_bound(v / 2, (k - 1) as nat);
    }
}

proof fn lemma_sr_len(v: u32, root: u32)
    requires
        1 <= root <= 32,
    ensures
        sr_code(v, root).len() <= 65,
{
    lemma_p2_values();
    lemma_p2_adds(16, 16);
    lemma_nbits_bound(v as nat, 32);
    let m = nbits(v as nat);
    lemma_to_bits_len(0, 1);
    lemma_to_bits_len(v as nat, root as nat);
    if m > root {
        lemma_to_bits_len(0xFFFF_FFFF, (m - root) as nat);
        lemma_to_bits_len((v - p2((m - 1) as nat)) as nat, (m - 1) as nat);
    }
}

proof fn lemma_groups7_small(x: nat)
    requires
        x < 0x8_0000_0000,
    ensures
        groups7(x) <= 5,
{
    reveal_with_fuel(groups7, 6);
}


/// Byte-wise lexicographic order from index `i` on: the first differing byte
/// decides; otherwise the shorter is less.
pub open spec fn bytes_lt_from(a: Seq<u8>, b: Seq<u8>, i: int) -> bool
    decreases a.len() - i,
{
    if i < 0 || i >= a.len() || i >= b.len() {
        a.len() < b.len()
    } else if a[i] != b[i] {
        a[i] < b[i]
    } else {
        bytes_lt_from(a, b, i + 1)
    }
}

pub open spec fn bytes_lt(a: Seq<u8>, b: Seq<u8>) -> bool {
    bytes_lt_from(a, b, 0)
}

/// The order of the index's keys: by word, then by context.
pub open spec fn key_lt(w1: Seq<u8>, c1: i32, w2: Seq<u8>, c2: i32) -> bool {
    bytes_lt(w1, w2) || (w1 == w2 && c1 < c2)
}

pub proof fn lemma_bytes_lt_trans(a: Seq<u8>, b: Seq<u8>, c: Seq<u8>, i: int)
    requires
        0 <= i,
        bytes_lt_from(a, b, i),
        bytes_lt_from(b, c, i),
    ensures
        bytes_lt_from(a, c, i),
    decreases a.len() - i,
{
    if i < a.len() && i < b.len() && i < c.len() && a[i] == b[i] && b[i] == c[i] {
        lemma_bytes_lt_trans(a, b, c, i + 1);
    }
}

pub proof fn lemma_bytes_lt_irrefl(a: Seq<u8>, b: Seq<u8>, i: int)
    requires
        0 <= i,
        a == b,
    ensures
        !bytes_lt_from(a, b, i),
    decreases a.len() - i,
{
    if i < a.len() {
        lemma_bytes_lt_irrefl(a, b, i + 1);
    }
}

pub proof fn lemma_bytes_lt_asym(a: Seq<u8>, b: Seq<u8>, i: int)
    requires
        0 <= i,
        bytes_lt_from(a, b, i),
    ensures
        !bytes_lt_from(b, a, i),
    decreases a.len() - i,
{
    if i < a.len() && i < b.len() && a[i] == b[i] {
        lemma_bytes_lt_asym(a, b, i + 1);
    }
}

pub proof fn lemma_bytes_lt_total(a: Seq<u8>, b: Seq<u8>, i: int)
    requires
        0 <= i <= a.len(),
        i <= b.len(),
        a.subrange(0, i) == b.subrange(0, i),
        a != b,
    ensures
        bytes_lt_from(a, b, i) || bytes_lt_from(b, a, i),
    decreases a.len() - i,
{
    if i < a.len() && i < b.len() && a[i] == b[i] {
        assert(a.subrange(0, i + 1) =~= a.subrange(0, i).push(a[i]));
        assert(b.subrange(0, i + 1) =~= b.subrange(0, i).push(b[i]));
        lemma_bytes_lt_total(a, b, i + 1);
    } else if i >= a.len() && i >= b.len() {
        assert(a =~= a.subrange(0, i));
        assert(b =~= b.subrange(0, i));
    }
}

proof fn lemma_key_trans(w1: Seq<u8>, c1: i32, w2: Seq<u8>, c2: i32, w3: Seq<u8>, c3: i32)
    requires
        key_lt(w1, c1, w2, c2),
        key_lt(w2, c2, w3, c3),
    ensures
        key_lt(w1, c1, w3, c3),
{
    if bytes_lt(w1, w2) && bytes_lt(w2, w3) {
        lemma_bytes_lt_trans(w1, w2, w3, 0);
    }
}

proof fn lemma_key_total(w1: Seq<u8>, c1: i32, w2: Seq<u8>, c2: i32)
    requires
        !(w1 == w2 && c1 == c2),
    ensures
        key_lt(w1, c1, w2, c2) || key_lt(w2, c2, w1, c1),
{
    if w1 != w2 {
        assert(w1.subrange(0, 0) =~= w2.subrange(0, 0));
        lemma_bytes_lt_total(w1, w2, 0);
    }
}

/// Whether `a` sorts before `b` byte-wise.
pub fn bytes_less(a: &[u8], b: &[u8]) -> (r: bool)
    ensures
        r == bytes_lt(a@, b@),
{
    let n = if a.len() < b.len() { a.len() } else { b.len() };
    let mut i: usize = 0;
    while i < n
        invariant
            i <= n,
            n <= a@.len(),
            n <= b@.len(),
            n == a@.len() || n == b@.len(),
            bytes_lt(a@, b@) == bytes_lt_from(a@, b@, i as int),
        decreases n - i,
    {
        if a[i] != b[i] {
            return a[i] < b[i];
        }
        i = i + 1;
    }
    a.len() < b.len()
}

/// The word that starts at `i` of `t`, and where it ends: lower-cased word
/// characters; a number (its first character a digit) also takes `.`, and a `'`
/// inside a word is dropped. `acc` is the word so far.
pub open spec fn word_at(t: Seq<u8>, i: int, number: bool, acc: Seq<u8>) -> (Seq<u8>, int)
    decreases t.len() - i,
{
    if i < 0 || i >= t.len() {
        (acc, i)
    } else if word_char(lc(t[i])) {
        word_at(t, i + 1, number, acc.push(lc(t[i])))
    } else if number && lc(t[i]) == 0x2E && acc.len() > 0 {
        word_at(t, i + 1, number, acc.push(lc(t[i])))
    } else if lc(t[i]) == 0x27 && acc.len() > 0 {
        word_at(t, i + 1, number, acc)
    } else {
        (acc, i)
    }
}

pub proof fn lemma_word_at_end(t: Seq<u8>, i: int, number: bool, acc: Seq<u8>)
    requires
        0 <= i <= t.len(),
    ensures
        i <= word_at(t, i, number, acc).1 <= t.len(),
        i < t.len() && word_char(lc(t[i])) ==> word_at(t, i, number, acc).1 > i,
    decreases t.len() - i,
{
    if i < t.len() {
        lemma_word_at_end(t, i + 1, number, acc.push(lc(t[i])));
        lemma_word_at_end(t, i + 1, number, acc);
    }
}

/// The words of `t` from `i` on, in order.
pub open spec fn words_from(t: Seq<u8>, i: int) -> Seq<Seq<u8>>
    decreases t.len() - i,
{
    if i < 0 || i >= t.len() {
        Seq::empty()
    } else if !word_char(lc(t[i])) {
        words_from(t, i + 1)
    } else {
        let r = word_at(t, i, 0x30 <= lc(t[i]) <= 0x39, Seq::empty());
        proof {
            lemma_word_at_end(t, i, 0x30 <= lc(t[i]) <= 0x39, Seq::empty());
        }
        seq![r.0] + words_from(t, r.1)
    }
}

/// The words of the runs of a topic in order, each with its context: 1 in the title,
/// 0 elsewhere. A word's index is its position.
pub open spec fn topic_words(rv: Seq<(Seq<u8>, bool)>) -> Seq<(Seq<u8>, i32)>
    decreases rv.len(),
{
    if rv.len() == 0 {
        Seq::empty()
    } else {
        topic_words(rv.drop_last()) + words_from(rv.last().0, 0).map_values(
            |w: Seq<u8>| (w, if rv.last().1 { 1i32 } else { 0i32 }),
        )
    }
}

proof fn lemma_topic_words_prefix(rv: Seq<(Seq<u8>, bool)>, k: int)
    requires
        0 <= k <= rv.len(),
    ensures
        topic_words(rv.take(k)).is_prefix_of(topic_words(rv)),
    decreases rv.len() - k,
{
    if k < rv.len() {
        lemma_topic_words_prefix(rv.drop_last(), k);
        assert(rv.drop_last().take(k) =~= rv.take(k));
        let a = topic_words(rv.take(k));
        let b = topic_words(rv.drop_last());
        assert(topic_words(rv).subrange(0, a.len() as int) =~= b.subrange(0, a.len() as int));
    } else {
        assert(rv.take(k) =~= rv);
    }
}

/// Topic `t` is listed in `docs` with position `p`.
pub open spec fn doc_has(docs: Seq<(u32, Vec<u32>)>, t: u32, p: u32) -> bool {
    exists|d: int, k: int|
        0 <= d < docs.len() && 0 <= k < docs[d].1@.len() && docs[d].0 == t && #[trigger] docs[d].1@[k] == p
}

proof fn lemma_doc_extend(docs: Seq<(u32, Vec<u32>)>, docs2: Seq<(u32, Vec<u32>)>, t: u32, p: u32)
    requires
        docs.len() >= 1,
        ({
            let n = docs.len() as int;
            let last = docs[n - 1];
            ||| (last.0 == t && docs2 == docs.update(n - 1, (t, docs2[n - 1].1)) && docs2[n - 1].1@ == last.1@.push(p))
            ||| (docs2.drop_last() == docs && docs2.len() == n + 1 && docs2[n].0 == t && docs2[n].1@ == seq![p])
        }),
    ensures
        forall|t2: u32, p2: u32| doc_has(docs2, t2, p2) <==> (doc_has(docs, t2, p2) || (t2 == t && p2 == p)),
{
    let n = docs.len() as int;
    assert forall|t2: u32, p2: u32| doc_has(docs2, t2, p2) implies (doc_has(docs, t2, p2) || (t2 == t && p2 == p)) by {
        let (d, k) = choose|d: int, k: int|
            0 <= d < docs2.len() && 0 <= k < docs2[d].1@.len() && docs2[d].0 == t2 && #[trigger] docs2[d].1@[k] == p2;
        if d < n && !(d == n - 1 && docs2.len() == n && k == docs[n - 1].1@.len()) {
            if docs2.len() == n + 1 {
                assert(docs2[d] == docs2.drop_last()[d]);
            }
            assert(docs[d].1@[k] == p2);
        }
    }
    assert forall|t2: u32, p2: u32| (doc_has(docs, t2, p2) || (t2 == t && p2 == p)) implies doc_has(docs2, t2, p2) by {
        if doc_has(docs, t2, p2) {
            let (d, k) = choose|d: int, k: int|
                0 <= d < docs.len() && 0 <= k < docs[d].1@.len() && docs[d].0 == t2 && #[trigger] docs[d].1@[k] == p2;
            if docs2.len() == n + 1 {
                assert(docs2.drop_last()[d] == docs2[d]);
                assert(docs2[d].1@[k] == p2);
            } else {
                assert(docs2[d].1@[k] == p2);
            }
        } else {
            if docs2.len() == n + 1 {
                assert(docs2[n as int].1@[0] == p2);
            } else {
                assert(docs2[n - 1].1@[docs[n - 1].1@.len() as int] == p2);
            }
        }
    }
}

/// The index records word `w` (in context `c`) at position `p` of topic `t`.
pub open spec fn occurs(ws: Seq<WordDocs>, w: Seq<u8>, c: i32, t: u32, p: u32) -> bool {
    exists|a: int| 0 <= a < ws.len() && (#[trigger] ws[a]).word@ == w && ws[a].ctx == c && doc_has(ws[a].docs@, t, p)
}

/// `ws2` records what `ws` records and word `w0` (context `c0`) at position `p0` of
/// topic `t0`, and nothing else.
#[verifier::opaque]
pub open spec fn occ_added(ws: Seq<WordDocs>, ws2: Seq<WordDocs>, w0: Seq<u8>, c0: i32, t0: u32, p0: u32) -> bool {
    forall|w: Seq<u8>, c: i32, t: u32, p: u32| #[trigger] occurs(ws2, w, c, t, p) <==> (occurs(ws, w, c, t, p) || (w == w0 && c == c0
        && t == t0 && p == p0))
}

/// `ws` records what `ws0` records and, for topic `topic`, the words of `tw` before
/// position `n` that have at most 99 bytes, each at its position; nothing else.
#[verifier::opaque]
pub open spec fn occ_topic(ws0: Seq<WordDocs>, ws: Seq<WordDocs>, topic: u32, tw: Seq<(Seq<u8>, i32)>, n: int) -> bool {
    forall|w: Seq<u8>, c: i32, t: u32, p: u32| #[trigger] occurs(ws, w, c, t, p) <==> (occurs(ws0, w, c, t, p) || (t == topic && p
        < n && p < tw.len() && tw[p as int] == (w, c) && w.len() <= 99))
}

proof fn lemma_occ_topic_start(ws: Seq<WordDocs>, topic: u32, tw: Seq<(Seq<u8>, i32)>)
    ensures
        occ_topic(ws, ws, topic, tw, 0),
{
    reveal(occ_topic);
}

proof fn lemma_occ_topic_add(ws0: Seq<WordDocs>, ws: Seq<WordDocs>, ws2: Seq<WordDocs>, topic: u32, tw: Seq<(Seq<u8>, i32)>, n: int)
    requires
        occ_topic(ws0, ws, topic, tw, n),
        0 <= n < tw.len(),
        n <= 0xFFFF_FFFF,
        tw[n].0.len() <= 99,
        occ_added(ws, ws2, tw[n].0, tw[n].1, topic, n as u32),
    ensures
        occ_topic(ws0, ws2, topic, tw, n + 1),
{
    reveal(occ_topic);
    reveal(occ_added);
    assert forall|w: Seq<u8>, c: i32, t: u32, p: u32| #[trigger] occurs(ws2, w, c, t, p) <==> (occurs(ws0, w, c, t, p) || (t
        == topic && p < n + 1 && p < tw.len() && tw[p as int] == (w, c) && w.len() <= 99)) by {
        assert(occurs(ws2, w, c, t, p) <==> (occurs(ws, w, c, t, p) || (w == tw[n].0 && c == tw[n].1 && t == topic && p == n as u32)));
        assert(occurs(ws, w, c, t, p) <==> (occurs(ws0, w, c, t, p) || (t == topic && p < n && p < tw.len() && tw[p as int] == (w, c)
            && w.len() <= 99)));
    }
}

proof fn lemma_occ_topic_skip(ws0: Seq<WordDocs>, ws: Seq<WordDocs>, topic: u32, tw: Seq<(Seq<u8>, i32)>, n: int)
    requires
        occ_topic(ws0, ws, topic, tw, n),
        0 <= n < tw.len(),
        tw[n].0.len() > 99,
    ensures
        occ_topic(ws0, ws, topic, tw, n + 1),
{
    reveal(occ_topic);
    assert forall|w: Seq<u8>, c: i32, t: u32, p: u32| #[trigger] occurs(ws, w, c, t, p) <==> (occurs(ws0, w, c, t, p) || (t
        == topic && p < n + 1 && p < tw.len() && tw[p as int] == (w, c) && w.len() <= 99)) by {
        assert(occurs(ws, w, c, t, p) <==> (occurs(ws0, w, c, t, p) || (t == topic && p < n && p < tw.len() && tw[p as int] == (w, c)
            && w.len() <= 99)));
    }
}

proof fn lemma_occurs_update(ws: Seq<WordDocs>, ws2: Seq<WordDocs>, lo: int, t: u32, p: u32)
    requires
        0 <= lo < ws.len(),
        ws2.len() == ws.len(),
        forall|a: int| 0 <= a < ws.len() && a != lo ==> #[trigger] ws2[a] == ws[a],
        ws2[lo].word@ == ws[lo].word@,
        ws2[lo].ctx == ws[lo].ctx,
        forall|t2: u32, p2: u32| doc_has(ws2[lo].docs@, t2, p2) <==> (doc_has(ws[lo].docs@, t2, p2) || (t2 == t && p2 == p)),
    ensures
        occ_added(ws, ws2, ws[lo].word@, ws[lo].ctx, t, p),
{
    reveal(occ_added);
    assert forall|w: Seq<u8>, c: i32, t2: u32, p2: u32| occurs(ws2, w, c, t2, p2) implies (occurs(ws, w, c, t2, p2) || (
    w == ws[lo].word@ && c == ws[lo].ctx && t2 == t && p2 == p)) by {
        let a = choose|a: int| 0 <= a < ws2.len() && (#[trigger] ws2[a]).word@ == w && ws2[a].ctx == c && doc_has(ws2[a].docs@, t2, p2);
        if a != lo {
            assert(ws[a] == ws2[a]);
        }
    }
    assert forall|w: Seq<u8>, c: i32, t2: u32, p2: u32| (occurs(ws, w, c, t2, p2) || (w == ws[lo].word@ && c == ws[lo].ctx && t2 == t
        && p2 == p)) implies occurs(ws2, w, c, t2, p2) by {
        if occurs(ws, w, c, t2, p2) {
            let a = choose|a: int| 0 <= a < ws.len() && (#[trigger] ws[a]).word@ == w && ws[a].ctx == c && doc_has(ws[a].docs@, t2, p2);
            if a != lo {
                assert(ws2[a] == ws[a]);
            }
            assert(ws2[a].word@ == w);
        } else {
            assert(ws2[lo].word@ == w);
        }
    }
}

proof fn lemma_occurs_insert(ws: Seq<WordDocs>, lo: int, e: WordDocs, t: u32, p: u32)
    requires
        0 <= lo <= ws.len(),
        e.docs@.len() == 1,
        e.docs@[0].0 == t,
        e.docs@[0].1@ == seq![p],
    ensures
        occ_added(ws, ws.insert(lo, e), e.word@, e.ctx, t, p),
{
    reveal(occ_added);
    let ws2 = ws.insert(lo, e);
    assert forall|t2: u32, p2: u32| doc_has(e.docs@, t2, p2) <==> (t2 == t && p2 == p) by {
        if t2 == t && p2 == p {
            assert(e.docs@[0].1@[0] == p2);
        }
    }
    assert forall|w: Seq<u8>, c: i32, t2: u32, p2: u32| occurs(ws2, w, c, t2, p2) implies (occurs(ws, w, c, t2, p2) || (
    w == e.word@ && c == e.ctx && t2 == t && p2 == p)) by {
        let a = choose|a: int| 0 <= a < ws2.len() && (#[trigger] ws2[a]).word@ == w && ws2[a].ctx == c && doc_has(ws2[a].docs@, t2, p2);
        if a < lo {
            assert(ws[a] == ws2[a]);
        } else if a > lo {
            assert(ws[a - 1] == ws2[a]);
        }
    }
    assert forall|w: Seq<u8>, c: i32, t2: u32, p2: u32| (occurs(ws, w, c, t2, p2) || (w == e.word@ && c == e.ctx && t2 == t && p2
        == p)) implies occurs(ws2, w, c, t2, p2) by {
        if occurs(ws, w, c, t2, p2) {
            let a = choose|a: int| 0 <= a < ws.len() && (#[trigger] ws[a]).word@ == w && ws[a].ctx == c && doc_has(ws[a].docs@, t2, p2);
            if a < lo {
                assert(ws2[a] == ws[a]);
            } else {
                assert(ws2[a + 1] == ws[a]);
            }
        } else {
            assert(ws2[lo] == e);
        }
    }
}

/// A word and context of the index, with the topics and positions it occurs at.
pub struct WordDocs {
    pub word: Vec<u8>,
    pub ctx: i32,
    pub docs: Vec<(u32, Vec<u32>)>,
}

/// Builds the full-text search index from the topics' HTML.
pub struct FtsIndexer {
    pub words: Vec<WordDocs>,
    pub file_count: u32,
    pub total_words: u64,
    pub total_word_len: u64,
    pub longest_word: u32,
}

impl FtsIndexer {
    /// The words are sorted by key, each key once; every word is 1 to 99 bytes with
    /// context 0 or 1 and at least one topic; its codes are bounded by the words seen.
    pub open spec fn wf(&self) -> bool {
        &&& self.words@.len() <= self.total_words
        &&& forall|a: int, b: int| 0 <= a < b < self.words@.len() ==> key_lt(
            (#[trigger] self.words@[a]).word@,
            self.words@[a].ctx,
            (#[trigger] self.words@[b]).word@,
            self.words@[b].ctx,
        )
        &&& forall|a: int| 0 <= a < self.words@.len() ==> {
            let e = #[trigger] self.words@[a];
            &&& 1 <= e.word@.len() <= 99
            &&& (e.ctx == 0 || e.ctx == 1)
            &&& e.docs@.len() >= 1
            &&& docs_ok(e.docs@)
            &&& docs_size(e.docs@) <= 3 * self.total_words
        }
    }

    /// No word occurs in a topic numbered above `topic`.
    pub open spec fn topics_upto(&self, topic: u32) -> bool {
        forall|a: int, d: int| 0 <= a < self.words@.len() && 0 <= d < self.words@[a].docs@.len()
            ==> (#[trigger] self.words@[a].docs@[d]).0 <= topic
    }

    /// Positions in topic `topic` are all below `pos`.
    pub open spec fn positions_below(&self, topic: u32, pos: u32) -> bool {
        forall|a: int| 0 <= a < self.words@.len() && (#[trigger] self.words@[a]).docs@.last().0 == topic
            ==> self.words@[a].docs@.last().1@.last() < pos
    }

    /// An empty index.
    pub fn new() -> (x: FtsIndexer)
        ensures
            x.wf(),
            x.words@.len() == 0,
            x.file_count == 0,
            x.total_words == 0,
            x.total_word_len == 0,
            x.longest_word == 0,
    {
        FtsIndexer { words: Vec::new(), file_count: 0, total_words: 0, total_word_len: 0, longest_word: 0 }
    }

    /// Whether any topic added a word.
    pub fn has_data(&self) -> (r: bool)
        ensures
            r == (self.file_count > 0 && self.words@.len() > 0),
    {
        self.file_count > 0 && self.words.len() > 0
    }

    /// Records that `word` (in context `ctx`) occurs at position `pos` of topic `topic`.
    fn add_occurrence(&mut self, word: Vec<u8>, ctx: i32, topic: u32, pos: u32)
        requires
            old(self).wf(),
            old(self).topics_upto(topic),
            old(self).positions_below(topic, pos),
            1 <= word@.len() <= 99,
            ctx == 0 || ctx == 1,
            old(self).total_words < 0x4000_0000_0000_0000,
            old(self).total_word_len < 0x4000_0000_0000_0000,
        ensures
            final(self).wf(),
            final(self).topics_upto(topic),
            forall|a: int| 0 <= a < final(self).words@.len() && (#[trigger] final(self).words@[a]).docs@.last().0 == topic
                ==> final(self).words@[a].docs@.last().1@.last() <= pos,
            final(self).file_count == old(self).file_count,
            final(self).total_words == old(self).total_words + 1,
            final(self).total_word_len == old(self).total_word_len + word@.len(),
            final(self).longest_word == if word@.len() > old(self).longest_word { word@.len() as u32 } else { old(self).longest_word },
            exists|a: int| 0 <= a < final(self).words@.len() && (#[trigger] final(self).words@[a]).word@ == word@
                && final(self).words@[a].ctx == ctx,
            occ_added(old(self).words@, final(self).words@, word@, ctx, topic, pos),
    {
        let n = self.words.len();
        let mut lo: usize = 0;
        let mut hi: usize = n;
        while lo < hi
            invariant
                lo <= hi <= n,
                n == self.words@.len(),
                self.wf(),
                forall|k: int| 0 <= k < lo ==> key_lt((#[trigger] self.words@[k]).word@, self.words@[k].ctx, word@, ctx),
                forall|k: int| hi <= k < n ==> !key_lt((#[trigger] self.words@[k]).word@, self.words@[k].ctx, word@, ctx),
            decreases hi - lo,
        {
            let mid = lo + (hi - lo) / 2;
            let lt = bytes_less(self.words[mid].word.as_slice(), word.as_slice())
                || (same_bytes(&self.words[mid].word, word.as_slice()) && self.words[mid].ctx < ctx);
            proof {
                assert(lt == key_lt(self.words@[mid as int].word@, self.words@[mid as int].ctx, word@, ctx));
            }
            if lt {
                proof {
                    assert forall|k: int| 0 <= k < mid + 1 implies key_lt((#[trigger] self.words@[k]).word@, self.words@[k].ctx, word@, ctx) by {
                        if k < mid {
                            lemma_key_trans(self.words@[k].word@, self.words@[k].ctx, self.words@[mid as int].word@,
                                self.words@[mid as int].ctx, word@, ctx);
                        }
                    }
                }
                lo = mid + 1;
            } else {
                proof {
                    assert forall|k: int| mid <= k < n implies !key_lt((#[trigger] self.words@[k]).word@, self.words@[k].ctx, word@, ctx) by {
                        if k > mid && key_lt(self.words@[k].word@, self.words@[k].ctx, word@, ctx) {
                            lemma_key_trans(self.words@[mid as int].word@, self.words@[mid as int].ctx, self.words@[k].word@,
                                self.words@[k].ctx, word@, ctx);
                        }
                    }
                }
                hi = mid;
            }
        }
        let wl = word.len();
        let found = lo < n && same_bytes(&self.words[lo].word, word.as_slice()) && self.words[lo].ctx == ctx;
        let ghost ws = self.words@;
        proof {
            assert(ws == old(self).words@);
        }
        if found {
            let mut e = WordDocs { word: Vec::new(), ctx: 0, docs: Vec::new() };
            self.words.set_and_swap(lo, &mut e);
            let nd = e.docs.len();
            let ghost d0 = e.docs@;
            if e.docs[nd - 1].0 == topic {
                let mut d: (u32, Vec<u32>) = (0, Vec::new());
                e.docs.set_and_swap(nd - 1, &mut d);
                let ghost l0 = d.1@;
                d.1.push(pos);
                e.docs.set_and_swap(nd - 1, &mut d);
                proof {
                    assert(e.docs@[nd - 1].0 == topic);
                    assert(e.docs@ =~= d0.update(nd - 1, (topic, e.docs@[nd - 1].1)));
                    assert(e.docs@[nd - 1].1@ =~= d0[nd - 1].1@.push(pos));
                    assert(d0.drop_last() =~= e.docs@.drop_last());
                    assert(docs_size(e.docs@) == docs_size(d0) + 1);
                    assert forall|a: int, b: int| 0 <= a < b < e.docs@.len() implies (#[trigger] e.docs@[a]).0 < (#[trigger] e.docs@[b]).0 by {
                        assert(d0[a].0 < d0[b].0);
                    }
                    assert forall|dd: int, a: int, b: int| 0 <= dd < e.docs@.len() && 0 <= a < b < e.docs@[dd].1@.len()
                        implies e.docs@[dd].1@[a] < e.docs@[dd].1@[b] by {
                        if dd == nd - 1 {
                            if b == l0.len() {
                                assert(l0[a] <= l0.last());
                                if a < l0.len() - 1 {
                                    assert(l0[a] < l0[l0.len() - 1]);
                                }
                            } else {
                                assert(l0[a] < l0[b]);
                            }
                        } else {
                            assert(d0[dd].1@[a] < d0[dd].1@[b]);
                        }
                    }
                }
            } else {
                let mut locs: Vec<u32> = Vec::new();
                locs.push(pos);
                e.docs.push((topic, locs));
                proof {
                    assert(e.docs@.drop_last() =~= d0);
                    assert(e.docs@[nd as int].1@ =~= seq![pos]);
                    assert(docs_size(e.docs@) == docs_size(d0) + 3);
                    assert forall|a: int, b: int| 0 <= a < b < e.docs@.len() implies (#[trigger] e.docs@[a]).0 < (#[trigger] e.docs@[b]).0 by {
                        if b == nd {
                            assert(d0[a].0 <= topic);
                            if a == nd - 1 {
                            } else {
                                assert(d0[a].0 < d0[nd - 1].0);
                            }
                        } else {
                            assert(d0[a].0 < d0[b].0);
                        }
                    }
                }
            }
            proof {
                lemma_doc_extend(d0, e.docs@, topic, pos);
            }
            self.words.set_and_swap(lo, &mut e);
            proof {
                assert(self.words@ =~= ws.update(lo as int, self.words@[lo as int]));
                assert(self.words@[lo as int].word@ == ws[lo as int].word@);
                assert(self.words@[lo as int].ctx == ws[lo as int].ctx);
                lemma_occurs_update(ws, self.words@, lo as int, topic, pos);
                assert(docs_size(ws[lo as int].docs@) <= 3 * self.total_words);
                assert forall|a: int| 0 <= a < self.words@.len() implies docs_size((#[trigger] self.words@[a]).docs@) <= 3 * self.total_words + 3 by {
                    if a != lo {
                        assert(self.words@[a] == ws[a]);
                    }
                }
            }
        } else {
            let mut locs: Vec<u32> = Vec::new();
            locs.push(pos);
            let mut docs: Vec<(u32, Vec<u32>)> = Vec::new();
            docs.push((topic, locs));
            proof {
                assert(docs@.drop_last() =~= Seq::<(u32, Vec<u32>)>::empty());
                assert(docs_size(docs@.drop_last()) == 0);
                assert(docs_size(docs@) == 3);
                if lo < n {
                    lemma_key_total(ws[lo as int].word@, ws[lo as int].ctx, word@, ctx);
                }
            }
            let ghost e_new = WordDocs { word, ctx, docs };
            proof {
                lemma_occurs_insert(ws, lo as int, e_new, topic, pos);
            }
            self.words.insert(lo, WordDocs { word, ctx, docs });
            proof {
                assert(self.words@ == ws.insert(lo as int, e_new));
                assert forall|a: int, b: int| 0 <= a < b < self.words@.len() implies key_lt(
                    (#[trigger] self.words@[a]).word@, self.words@[a].ctx, (#[trigger] self.words@[b]).word@, self.words@[b].ctx) by {
                    if a < lo && b < lo {
                        assert(self.words@[a] == ws[a] && self.words@[b] == ws[b]);
                    } else if a < lo && b == lo {
                    } else if a < lo {
                        assert(self.words@[a] == ws[a]);
                        assert(self.words@[b] == ws[b - 1]);
                    } else if a == lo {
                        assert(self.words@[b] == ws[b - 1]);
                        if b - 1 > lo {
                            lemma_key_trans(self.words@[a].word@, self.words@[a].ctx, ws[lo as int].word@, ws[lo as int].ctx,
                                ws[b - 1].word@, ws[b - 1].ctx);
                        }
                    } else {
                        assert(self.words@[a] == ws[a - 1] && self.words@[b] == ws[b - 1]);
                    }
                }
                assert forall|a: int| 0 <= a < self.words@.len() implies docs_size((#[trigger] self.words@[a]).docs@) <= 3 * self.total_words + 3 by {
                    if a < lo {
                        assert(self.words@[a] == ws[a]);
                    } else if a > lo {
                        assert(self.words@[a] == ws[a - 1]);
                    }
                }
            }
        }
        let ghost tw0 = self.total_words;
        self.total_words = self.total_words + 1;
        self.total_word_len = self.total_word_len + wl as u64;
        if wl as u32 > self.longest_word {
            self.longest_word = wl as u32;
        }
        proof {
            assert(0 <= lo < self.words@.len());
            assert(self.words@[lo as int].word@ == word@ && self.words@[lo as int].ctx == ctx);
            assert forall|a: int| 0 <= a < self.words@.len() implies docs_size((#[trigger] self.words@[a]).docs@) <= 3 * self.total_words by {
            }
        }
    }

    /// Every topic a word occurs in is numbered below `topic`.
    pub open spec fn topics_below(&self, topic: u32) -> bool {
        forall|a: int, d: int| 0 <= a < self.words@.len() && 0 <= d < self.words@[a].docs@.len()
            ==> (#[trigger] self.words@[a].docs@[d]).0 < topic
    }

    /// Every word, in key order, added to a new B-tree writer; and the words' total length.
    fn write_words(&self) -> (r: (FiftiWriter, u64))
        requires
            self.wf(),
            self.total_words <= 0x100_0000,
            self.words@.len() >= 1,
        ensures
            r.0.wf(),
            r.0.leaf.content@.len() > 0,
            r.0.leaf_count <= self.words@.len(),
            r.0.leaf_count < 0xFFFF_FFFF,
            r.1 == word_len_sum(self.words@),
    {
        let mut w = FiftiWriter::new();
        let n = self.words.len();
        let mut k: usize = 0;
        let mut unique_len: u64 = 0;
        while k < n
            invariant
                k <= n,
                n == self.words@.len(),
                n >= 1,
                self.wf(),
                self.total_words <= 0x100_0000,
                w.wf(),
                n <= 0x100_0000,
                w.leaf_count <= k,
                k > 0 ==> w.leaf.content@.len() > 0,
                unique_len == word_len_sum(self.words@.take(k as int)),
                unique_len <= 99 * k,
            decreases n - k,
        {
            proof {
                assert(docs_size(self.words@[k as int].docs@) <= 3 * self.total_words);
            }
            w.add_word(self.words[k].word.as_slice(), self.words[k].ctx, &self.words[k].docs);
            unique_len = unique_len + self.words[k].word.len() as u64;
            proof {
                assert(self.words@.take(k + 1).drop_last() =~= self.words@.take(k as int));
            }
            k = k + 1;
        }
        proof {
            assert(self.words@.take(n as int) =~= self.words@);
        }
        (w, unique_len)
    }

    /// Indexes the text of topic `topic_index`: each run of word characters (lower
    /// case; a number may take `.`, a word drops `'`) is a word at the next position;
    /// words of at most 99 bytes are recorded, with context 1 in the title.
    pub fn index_file(&mut self, html: &[u8], topic_index: u32)
        requires
            old(self).wf(),
            old(self).topics_below(topic_index),
            old(self).file_count < 0xFFFF_FFFF,
            html@.len() < 0x1_0000_0000,
            old(self).total_words + html@.len() < 0x4000_0000_0000_0000,
            old(self).total_word_len + html@.len() < 0x4000_0000_0000_0000,
        ensures
            final(self).wf(),
            final(self).topics_upto(topic_index),
            final(self).file_count as int == old(self).file_count + (if text_from(html@, 0, text_start()).len() > 0 {
                1int
            } else {
                0int
            }),
            final(self).total_words <= old(self).total_words + html@.len(),
            final(self).total_word_len <= old(self).total_word_len + html@.len(),
            occ_topic(
                old(self).words@,
                final(self).words@,
                topic_index,
                topic_words(text_from(html@, 0, text_start())),
                topic_words(text_from(html@, 0, text_start())).len() as int,
            ),
    {
        let runs = extract_text(html);
        let ghost rv = run_views(runs@);
        let ghost tw = topic_words(rv);
        let ghost ws0 = self.words@;
        proof {
            lemma_occ_topic_start(ws0, topic_index, tw);
        }
        if runs.len() == 0 {
            proof {
                assert forall|a: int, d: int| 0 <= a < self.words@.len() && 0 <= d < self.words@[a].docs@.len()
                    implies (#[trigger] self.words@[a].docs@[d]).0 <= topic_index by {
                }
                assert(rv.len() == 0);
                assert(tw.len() == 0);
            }
            return;
        }
        self.file_count = self.file_count + 1;
        let ghost tw0 = self.total_words;
        let ghost tl0 = self.total_word_len;
        let mut pos: u32 = 0;
        let nr = runs.len();
        let mut r: usize = 0;
        proof {
            assert(runs@.take(0) =~= Seq::<TextRun>::empty());
            assert(rv.take(0) =~= Seq::<(Seq<u8>, bool)>::empty());
            assert forall|a: int, d: int| 0 <= a < self.words@.len() && 0 <= d < self.words@[a].docs@.len()
                implies (#[trigger] self.words@[a].docs@[d]).0 <= topic_index by {
            }
        }
        while r < nr
            invariant
                r <= nr,
                nr == runs@.len(),
                runs_len(runs@) <= html@.len(),
                html@.len() < 0x1_0000_0000,
                self.wf(),
                self.file_count == old(self).file_count + 1,
                self.topics_upto(topic_index),
                self.positions_below(topic_index, pos),
                pos <= runs_len(runs@.take(r as int)),
                self.total_words + pos <= tw0 + runs_len(runs@.take(r as int)) + pos,
                self.total_words <= tw0 + pos,
                self.total_word_len <= tl0 + runs_len(runs@.take(r as int)),
                tw0 + html@.len() < 0x4000_0000_0000_0000,
                tl0 + html@.len() < 0x4000_0000_0000_0000,
                rv == run_views(runs@),
                tw == topic_words(rv),
                ws0 == old(self).words@,
                pos as int == topic_words(rv.take(r as int)).len(),
                occ_topic(ws0, self.words@, topic_index, tw, pos as int),
            decreases nr - r,
        {
            proof {
                lemma_runs_len_take(runs@, r as int);
                lemma_topic_words_prefix(rv, r + 1);
                assert(rv.take(r + 1).drop_last() =~= rv.take(r as int));
                assert(rv.take(r + 1).last() == rv[r as int]);
            }
            let ghost base = runs_len(runs@.take(r as int));
            let ghost basew = pos as int;
            let ghost t = runs@[r as int].text@;
            let ghost ctx_r: i32 = if runs@[r as int].title { 1i32 } else { 0i32 };
            let ghost mut seen: Seq<Seq<u8>> = Seq::empty();
            let title = runs[r].title;
            let n = runs[r].text.len();
            let mut i: usize = 0;
            proof {
                assert(seen + words_from(t, 0) =~= words_from(t, 0));
            }
            while i < n
                invariant
                    i <= n,
                    n == runs@[r as int].text@.len(),
                    t == runs@[r as int].text@,
                    r < nr,
                    nr == runs@.len(),
                    base + n <= runs_len(runs@),
                    runs_len(runs@) <= html@.len(),
                    html@.len() < 0x1_0000_0000,
                    self.wf(),
                    self.file_count == old(self).file_count + 1,
                    self.topics_upto(topic_index),
                    self.positions_below(topic_index, pos),
                    pos <= base + i,
                    self.total_words <= tw0 + pos,
                    self.total_word_len <= tl0 + base + i,
                    tw0 + html@.len() < 0x4000_0000_0000_0000,
                    tl0 + html@.len() < 0x4000_0000_0000_0000,
                    title == runs@[r as int].title,
                    ctx_r == (if title { 1i32 } else { 0i32 }),
                    tw == topic_words(rv),
                    rv == run_views(runs@),
                    ws0 == old(self).words@,
                    topic_words(rv.take(r + 1)) == topic_words(rv.take(r as int)) + words_from(t, 0).map_values(
                        |w: Seq<u8>| (w, ctx_r),
                    ),
                    topic_words(rv.take(r + 1)).is_prefix_of(tw),
                    basew == topic_words(rv.take(r as int)).len(),
                    seen + words_from(t, i as int) == words_from(t, 0),
                    pos as int == basew + seen.len(),
                    occ_topic(ws0, self.words@, topic_index, tw, pos as int),
                decreases n - i,
            {
                let c0 = lower(runs[r].text[i]);
                if !is_word_char(c0) {
                    i = i + 1;
                    continue;
                }
                let number_word = 0x30 <= c0 && c0 <= 0x39;
                let i0 = i;
                let mut word: Vec<u8> = Vec::new();
                proof {
                    assert(word@ =~= Seq::<u8>::empty());
                }
                while i < n
                    invariant
                        i0 <= i <= n,
                        i0 < n,
                        n == runs@[r as int].text@.len(),
                        t == runs@[r as int].text@,
                        r < nr,
                        nr == runs@.len(),
                        c0 == lc(runs@[r as int].text@[i0 as int]),
                        word_char(c0),
                        number_word == (0x30 <= c0 <= 0x39),
                        i == i0 ==> word@.len() == 0,
                        i > i0 ==> word@.len() >= 1,
                        word@.len() <= i - i0,
                        forall|k: int| 0 <= k < word@.len() ==> word_char(#[trigger] word@[k]) || word@[k] == 0x2E,
                        word_at(t, i as int, number_word, word@) == word_at(t, i0 as int, number_word, Seq::empty()),
                    ensures
                        i0 < i <= n,
                        1 <= word@.len() <= i - i0,
                        word_at(t, i0 as int, number_word, Seq::empty()) == (word@, i as int),
                    decreases n - i,
                {
                    let c = lower(runs[r].text[i]);
                    if is_word_char(c) {
                        word.push(c);
                    } else if number_word && c == 0x2E && word.len() > 0 {
                        word.push(c);
                    } else if c == 0x27 && word.len() > 0 {
                    } else {
                        break;
                    }
                    i = i + 1;
                }
                proof {
                    let e = i as int;
                    assert(words_from(t, i0 as int) == seq![word@] + words_from(t, e));
                    let wf0 = words_from(t, 0);
                    assert(wf0 == seen + (seq![word@] + words_from(t, e)));
                    assert(wf0[seen.len() as int] == word@);
                    let tr = topic_words(rv.take(r + 1));
                    assert(tr[pos as int] == (word@, ctx_r));
                    assert(tw[pos as int] == tr[pos as int]);
                }
                let ghost ws_before = self.words@;
                if word.len() <= 99 {
                    let wl = word.len();
                    self.add_occurrence(word, if title { 1 } else { 0 }, topic_index, pos);
                    proof {
                        lemma_occ_topic_add(ws0, ws_before, self.words@, topic_index, tw, pos as int);
                    }
                } else {
                    proof {
                        lemma_occ_topic_skip(ws0, self.words@, topic_index, tw, pos as int);
                    }
                }
                proof {
                    let e = i as int;
                    assert((seen.push(word@)) + words_from(t, e) =~= seen + (seq![word@] + words_from(t, e)));
                    seen = seen.push(word@);
                }
                pos = pos + 1;
            }
            proof {
                assert(seen =~= words_from(t, 0)) by {
                    assert(words_from(t, i as int) =~= Seq::<Seq<u8>>::empty());
                }
                assert(runs@.take(r + 1).drop_last() =~= runs@.take(r as int));
            }
            r = r + 1;
        }
        proof {
            assert(runs@.take(nr as int) =~= runs@);
            assert(rv.take(nr as int) =~= rv);
        }
    }

    /// The $FIftiMain file: the B-tree of all words, in key order, then the header
    /// (counts, tree shape, scale-root parameters, codepage and locale) over the
    /// first bytes; empty when nothing was indexed.
    #[verifier::rlimit(80)]
    #[verifier::spinoff_prover]
    pub fn build(&self, lcid: u32, codepage: u32) -> (r: Vec<u8>)
        requires
            self.wf(),
            self.total_words <= 0x100_0000,
        ensures
            !(self.file_count > 0 && self.words@.len() > 0) ==> r@.len() == 0,
            (self.file_count > 0 && self.words@.len() > 0) ==> {
                &&& r@.len() >= 0x400 + NODE
                &&& exists|root: u32, leaves: u32, depth: u16, free: u32| #[trigger] fts_header(
                    self.file_count,
                    root,
                    leaves,
                    depth,
                    self.longest_word,
                    self.total_words as u32,
                    self.words@.len() as u32,
                    self.total_word_len as u32,
                    word_len_sum(self.words@) as u32,
                    free,
                    codepage,
                    lcid,
                ) == r@.subrange(0, 130) && root == (r@.len() - NODE) as u32
            },
    {
        if !self.has_data() {
            return Vec::new();
        }
        let n = self.words.len();
        let (mut w, unique_len) = self.write_words();
        let (root_offset, leaf_count, tree_depth, last_leaf_free) = w.finish();
        let h = fts_header_bytes(self.file_count, root_offset, leaf_count, tree_depth, self.longest_word,
            self.total_words as u32, n as u32, self.total_word_len as u32, unique_len as u32, last_leaf_free, codepage, lcid);
        let mut file = w.file.v;
        overwrite_prefix(&mut file, &h.v);
        proof {
            assert(fts_header(self.file_count, root_offset, leaf_count, tree_depth, self.longest_word, self.total_words as u32,
                self.words@.len() as u32, self.total_word_len as u32, word_len_sum(self.words@) as u32, last_leaf_free,
                codepage, lcid) == file@.subrange(0, 130));
        }
        file
    }
}


proof fn lemma_runs_len_take(rs: Seq<TextRun>, k: int)
    requires
        0 <= k < rs.len(),
    ensures
        runs_len(rs.take(k)) + rs[k].text@.len() <= runs_len(rs),
        runs_len(rs.take(k)) >= 0,
    decreases rs.len() - k,
{
    lemma_runs_len_nonneg(rs.take(k));
    if k + 1 < rs.len() {
        lemma_runs_len_take(rs.drop_last(), k);
        assert(rs.drop_last().take(k) =~= rs.take(k));
        assert(rs.drop_last()[k] == rs[k]);
        lemma_runs_len_nonneg(rs.drop_last());
    } else {
        assert(rs.drop_last() =~= rs.take(k));
    }
}

proof fn lemma_runs_len_nonneg(rs: Seq<TextRun>)
    ensures
        runs_len(rs) >= 0,
    decreases rs.len(),
{
    if rs.len() > 0 {
        lemma_runs_len_nonneg(rs.drop_last());
    }
}

/// The total length of the words.
pub open spec fn word_len_sum(ws: Seq<WordDocs>) -> int
    decreases ws.len(),
{
    if ws.len() == 0 { 0 } else { word_len_sum(ws.drop_last()) + ws.last().word@.len() }
}

/// The first 130 bytes of the $FIftiMain header.
pub open spec fn fts_header(
    file_count: u32,
    root: u32,
    leaves: u32,
    depth: u16,
    longest: u32,
    total_words: u32,
    unique_words: u32,
    total_len: u32,
    unique_len: u32,
    last_free: u32,
    codepage: u32,
    lcid: u32,
) -> Seq<u8> {
    seq![0u8, 0, 0x28, 0] + u32_le(file_count) + u32_le(root) + u32_le(0) + u32_le(leaves) + u32_le(root)
        + u16_le(depth) + u32_le(7) + seq![2u8, 2, 2, 1, 2, 5] + Seq::new(10, |_i: int| 0u8) + u32_le(0x1000)
        + u32_le(0) + u32_le(1) + u32_le(5) + u32_le(longest) + u32_le(total_words) + u32_le(unique_words)
        + u32_le(total_len) + u32_le(0) + u32_le(unique_len)
        + u32_le(last_free) + u32_le(0) + u32_le((file_count - 1) as u32) + Seq::new(24, |_i: int| 0u8)
        + u32_le(codepage) + u32_le(lcid)
}


/// The header's first 130 bytes.
#[verifier::rlimit(40)]
fn fts_header_bytes(
    file_count: u32,
    root: u32,
    leaves: u32,
    depth: u16,
    longest: u32,
    total_words: u32,
    unique_words: u32,
    total_len: u32,
    unique_len: u32,
    last_free: u32,
    codepage: u32,
    lcid: u32,
) -> (h: Buf)
    requires
        file_count >= 1,
    ensures
        h@ == fts_header(file_count, root, leaves, depth, longest, total_words, unique_words, total_len, unique_len,
            last_free, codepage, lcid),
        h@.len() == 130,
{
    let mut h = Buf::new();
    h.u8(0);
    h.u8(0);
    h.u8(0x28);
    h.u8(0);
    h.u32(file_count);
    h.u32(root);
    h.u32(0);
    h.u32(leaves);
    h.u32(root);
    h.u16(depth);
    h.u32(7);
    let ghost a = h@;
    h.u8(2);
    h.u8(R_DOC as u8);
    h.u8(2);
    h.u8(R_CODE as u8);
    h.u8(2);
    h.u8(R_LOC as u8);
    h.zeros(10);
    h.u32(NODE as u32);
    h.u32(0);
    h.u32(1);
    h.u32(5);
    let ghost b = h@;
    proof {
        assert(b =~= a + seq![2u8, 2, 2, 1, 2, 5] + Seq::new(10, |_i: int| 0u8) + u32_le(0x1000) + u32_le(0) + u32_le(1) + u32_le(5));
    }
    h.u32(longest);
    h.u32(total_words);
    h.u32(unique_words);
    h.u32(total_len);
    h.u32(0);
    h.u32(unique_len);
    h.u32(last_free);
    h.u32(0);
    h.u32(file_count - 1);
    h.zeros(24);
    h.u32(codepage);
    h.u32(lcid);
    proof {
        assert(h@ =~= fts_header(file_count, root, leaves, depth, longest, total_words, unique_words, total_len, unique_len,
            last_free, codepage, lcid));
    }
    h
}


/// Overwrites the first bytes of `file` with `h`.
fn overwrite_prefix(file: &mut Vec<u8>, h: &Vec<u8>)
    requires
        h@.len() <= old(file)@.len(),
    ensures
        final(file)@.len() == old(file)@.len(),
        final(file)@.subrange(0, h@.len() as int) == h@,
{
    let hl = h.len();
    let mut q: usize = 0;
    while q < hl
        invariant
            q <= hl,
            hl == h@.len(),
            hl <= file@.len(),
            file@.len() == old(file)@.len(),
            forall|t: int| 0 <= t < q ==> file@[t] == #[trigger] h@[t],
        decreases hl - q,
    {
        file.set(q, h[q]);
        q = q + 1;
    }
    proof {
        assert(file@.subrange(0, hl as int) =~= h@);
    }
}

/// Words are made of the ASCII letters (of either case, lower-cased) and the digits;
/// every other byte ends a word.
pub proof fn lemma_word_chars(c: u8)
    ensures
        word_char(lc(c)) <==> ((0x61 <= c <= 0x7A) || (0x41 <= c <= 0x5A) || (0x30 <= c <= 0x39)),
{
}

/// A text made only of ASCII letters and digits is one word: the whole text, lower-cased.
pub proof fn lemma_alnum_text_is_one_word(t: Seq<u8>)
    requires
        t.len() > 0,
        forall|k: int| 0 <= k < t.len() ==> (0x61 <= #[trigger] t[k] <= 0x7A) || (0x41 <= t[k] <= 0x5A) || (0x30 <= t[k] <= 0x39),
    ensures
        words_from(t, 0) == seq![Seq::new(t.len(), |k: int| if 0x41 <= t[k] <= 0x5A { (t[k] + 32) as u8 } else { t[k] })],
{
    let lower = Seq::new(t.len(), |k: int| if 0x41 <= t[k] <= 0x5A { (t[k] + 32) as u8 } else { t[k] });
    let number = 0x30 <= lc(t[0]) <= 0x39;
    lemma_alnum_word_at(t, 0, number, Seq::empty());
    assert(Seq::<u8>::empty() + lower.subrange(0, t.len() as int) =~= lower);
    assert(words_from(t, t.len() as int) =~= Seq::<Seq<u8>>::empty());
    assert(word_char(lc(t[0])));
}

proof fn lemma_alnum_word_at(t: Seq<u8>, i: int, number: bool, acc: Seq<u8>)
    requires
        0 <= i <= t.len(),
        forall|k: int| 0 <= k < t.len() ==> (0x61 <= #[trigger] t[k] <= 0x7A) || (0x41 <= t[k] <= 0x5A) || (0x30 <= t[k] <= 0x39),
    ensures
        word_at(t, i, number, acc) == (
            acc + Seq::new(t.len(), |k: int| if 0x41 <= t[k] <= 0x5A { (t[k] + 32) as u8 } else { t[k] }).subrange(i, t.len() as int),
            t.len() as int,
        ),
    decreases t.len() - i,
{
    let lower = Seq::new(t.len(), |k: int| if 0x41 <= t[k] <= 0x5A { (t[k] + 32) as u8 } else { t[k] });
    if i < t.len() {
        assert(word_char(lc(t[i])));
        lemma_alnum_word_at(t, i + 1, number, acc.push(lc(t[i])));
        assert(acc.push(lc(t[i])) + lower.subrange(i + 1, t.len() as int) =~= acc + lower.subrange(i, t.len() as int));
    } else {
        assert(acc + lower.subrange(i, t.len() as int) =~= acc);
    }
}

} // verus!
