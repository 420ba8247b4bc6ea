//! The string, URL and topic tables of a compiled help file (#STRINGS, #URLSTR,
//! #URLTBL, #TOPICS): each appends records to a byte buffer and remembers where
//! every string went, so that a string added twice is stored once.
use vstd::prelude::*;
use crate::bytebuf::{Buf, u16_le, u32_le};
use crate::strutil::{lower, occurs_at};
use crate::textenc::{lc_seq, encoded, auto_cps, tables_ok, CodepageTable, encode_codepage, decode_auto_bytes};

verus! {

/// The index of the first pair whose key is `k`; -1 when there is none.
pub open spec fn first_key<V>(m: Seq<(Vec<u8>, V)>, k: Seq<u8>) -> int
    decreases m.len(),
{
    if m.len() == 0 {
        -1
    } else {
        let f = first_key(m.drop_last(), k);
        if f >= 0 {
            f
        } else if m.last().0@ == k {
            m.len() - 1
        } else {
            -1
        }
    }
}

pub proof fn lemma_first_key_range<V>(m: Seq<(Vec<u8>, V)>, k: Seq<u8>)
    ensures
        -1 <= first_key(m, k) < m.len(),
        first_key(m, k) >= 0 ==> m[first_key(m, k)].0@ == k,
        first_key(m, k) == -1 ==> forall|j: int| 0 <= j < m.len() ==> m[j].0@ != k,
    decreases m.len(),
{
    if m.len() > 0 {
        let d = m.drop_last();
        lemma_first_key_range(d, k);
        assert forall|j: int| 0 <= j < d.len() implies d[j] == m[j] by {}
    }
}

proof fn lemma_first_key_at<V>(m: Seq<(Vec<u8>, V)>, k: Seq<u8>, i: int)
    requires
        0 <= i <= m.len(),
        forall|j: int| 0 <= j < i ==> m[j].0@ != k,
    ensures
        i == m.len() ==> first_key(m, k) == -1,
        i < m.len() && m[i].0@ == k ==> first_key(m, k) == i,
    decreases m.len(),
{
    if m.len() > 0 {
        let d = m.drop_last();
        assert forall|j: int| 0 <= j < d.len() implies d[j] == m[j] by {}
        if i < m.len() - 1 {
            lemma_first_key_at(d, k, i);
        } else {
            lemma_first_key_at(d, k, d.len() as int);
        }
    }
}

proof fn lemma_first_key_push<V>(m: Seq<(Vec<u8>, V)>, x: (Vec<u8>, V), k: Seq<u8>)
    ensures
        first_key(m.push(x), k) == if first_key(m, k) >= 0 {
            first_key(m, k)
        } else if x.0@ == k {
            m.len() as int
        } else {
            -1
        },
{
    assert(m.push(x).drop_last() =~= m);
}

proof fn lemma_first_key_prefix<V>(m: Seq<(Vec<u8>, V)>, m2: Seq<(Vec<u8>, V)>, k: Seq<u8>)
    requires
        m.len() <= m2.len(),
        forall|i: int| 0 <= i < m.len() ==> #[trigger] m2[i] == m[i],
        first_key(m, k) >= 0,
    ensures
        first_key(m2, k) == first_key(m, k),
    decreases m2.len(),
{
    if m2.len() == m.len() {
        assert(m2 =~= m);
    } else {
        let d = m2.drop_last();
        lemma_first_key_prefix(m, d, k);
    }
}

/// Looks `k` up among the pairs of `m`: the value of the first pair with that key.
pub fn lookup_key<V: Copy>(m: &Vec<(Vec<u8>, V)>, k: &[u8]) -> (r: Option<V>)
    ensures
        match r {
            Some(v) => first_key(m@, k@) >= 0 && v == m@[first_key(m@, k@)].1,
            None => first_key(m@, k@) == -1,
        },
{
    let n = m.len();
    let mut i: usize = 0;
    while i < n
        invariant
            i <= n,
            n == m@.len(),
            forall|j: int| 0 <= j < i ==> m@[j].0@ != k@,
        decreases n - i,
    {
        if crate::strutil::eq_bytes(&m[i].0, k) {
            proof {
                lemma_first_key_at(m@, k@, i as int);
            }
            return Some(m[i].1);
        }
        i = i + 1;
    }
    proof {
        lemma_first_key_at(m@, k@, n as int);
    }
    None
}

/// Text (UTF-8 bytes, or bytes of codepage `cp`) as stored in the byte-oriented
/// metadata files: decoded as `decode_auto` does, encoded for codepage `cp`.
pub open spec fn enc_text(s: Seq<u8>, cp: u32, ts: Seq<CodepageTable>) -> Seq<u8> {
    encoded(auto_cps(s, cp, ts), cp, ts)
}

/// Encodes text for the metadata files.
pub fn enc_cp(s: &[u8], cp: u32, tables: &[CodepageTable]) -> (r: Vec<u8>)
    requires
        tables_ok(tables@),
    ensures
        r@ == enc_text(s@, cp, tables@),
{
    let cps = decode_auto_bytes(s, cp, tables);
    encode_codepage(&cps, cp, tables)
}

/// `s` followed by a zero byte is stored in `b` at `o`.
pub open spec fn stored_at(b: Seq<u8>, o: int, s: Seq<u8>) -> bool {
    0 <= o && o + s.len() < b.len() && b.subrange(o, o + s.len()) == s && b[o + s.len()] == 0
}

proof fn lemma_stored_extend(b: Seq<u8>, t: Seq<u8>, o: int, s: Seq<u8>)
    requires
        stored_at(b, o, s),
    ensures
        stored_at(b + t, o, s),
{
    assert((b + t).subrange(o, o + s.len()) =~= b.subrange(o, o + s.len()));
}

/// A string the table holds stays held, at the same place, as the table grows.
pub proof fn lemma_grows_offset(a: &Strings, b: &Strings, s: Seq<u8>)
    requires
        a.grows_to(b),
        a.knows(s),
    ensures
        b.knows(s),
        b.offset_of(s) == a.offset_of(s),
{
    if s.len() > 0 {
        lemma_first_key_range(a.map@, s);
        lemma_first_key_prefix(a.map@, b.map@, s);
    }
}

pub proof fn lemma_grows_trans(a: &Strings, b: &Strings, c: &Strings)
    requires
        a.grows_to(b),
        b.grows_to(c),
    ensures
        a.grows_to(c),
{
    assert forall|i: int| 0 <= i < a.map@.len() implies #[trigger] c.map@[i] == a.map@[i] by {
        assert(b.map@[i] == a.map@[i]);
    }
    assert(c.buf@.subrange(0, a.buf@.len() as int) =~= b.buf@.subrange(0, a.buf@.len() as int));
}

/// `n` zero bytes.
pub open spec fn zeros(n: int) -> Seq<u8> {
    Seq::new(n as nat, |_i: int| 0u8)
}

/// The #STRINGS buffer: a zero byte first, then the strings, each ended by a zero.
pub open spec fn strings_base(b: Seq<u8>) -> Seq<u8> {
    if b.len() == 0 { seq![0u8] } else { b }
}

/// Where a new string of `n` bytes goes: at the end, or at the next 4096-byte block
/// when it would straddle one and fits in a block of its own.
pub open spec fn string_pos(b: Seq<u8>, n: int) -> int {
    let pos = b.len() as int;
    let next_block = pos - pos % 4096 + 4096;
    if pos + n + 1 > next_block && n + 1 <= 4096 { next_block } else { pos }
}

proof fn lemma_string_pos_block(b: Seq<u8>, n: int)
    requires
        0 < n < 4096,
    ensures
        string_pos(b, n) / 4096 == (string_pos(b, n) + n) / 4096,
        string_pos(b, n) >= b.len(),
{
    let pos = b.len() as int;
    let base = pos - pos % 4096;
    assert(base % 4096 == 0 && base <= pos < base + 4096) by {
        vstd::arithmetic::div_mod::lemma_fundamental_div_mod(pos, 4096);
    }
    let p = string_pos(b, n);
    if pos + n + 1 > base + 4096 {
        assert(p == base + 4096);
    } else {
        assert(p == pos);
    }
    assert(base <= p && p + n < base + 2 * 4096);
    if p == pos {
        assert(p / 4096 == base / 4096 && (p + n) / 4096 == base / 4096) by {
            vstd::arithmetic::div_mod::lemma_fundamental_div_mod(base, 4096);
            vstd::arithmetic::div_mod::lemma_div_is_ordered(base, p, 4096);
            vstd::arithmetic::div_mod::lemma_div_is_ordered(p + n, base + 4095, 4096);
            vstd::arithmetic::div_mod::lemma_div_is_ordered(base, p + n, 4096);
            vstd::arithmetic::div_mod::lemma_fundamental_div_mod(base + 4095, 4096);
        }
    } else {
        assert(p / 4096 == (p + n) / 4096) by {
            vstd::arithmetic::div_mod::lemma_fundamental_div_mod(p, 4096);
            vstd::arithmetic::div_mod::lemma_div_is_ordered(p, p + n, 4096);
            vstd::arithmetic::div_mod::lemma_div_is_ordered(p + n, p + 4095, 4096);
            vstd::arithmetic::div_mod::lemma_fundamental_div_mod(p + 4095, 4096);
        }
    }
}

/// The buffer once the new string `s` is placed.
pub open spec fn string_appended(b: Seq<u8>, s: Seq<u8>) -> Seq<u8> {
    b + zeros(string_pos(b, s.len() as int) - b.len()) + s + seq![0u8]
}

/// The #STRINGS table: its bytes and, for every string stored, where it went.
pub struct Strings {
    pub buf: Buf,
    pub map: Vec<(Vec<u8>, usize)>,
}

impl Strings {
    /// Every remembered string is non-empty and stored, with its zero, where it says:
    /// each once, at a nonzero offset, and (when it fits one) within a 4096-byte block.
    pub open spec fn wf(&self) -> bool {
        &&& (self.map@.len() > 0 ==> self.buf@.len() > 0)
        &&& forall|i: int|
            0 <= i < self.map@.len() ==> (#[trigger] self.map@[i]).0@.len() > 0 && stored_at(
                self.buf@,
                self.map@[i].1 as int,
                self.map@[i].0@,
            )
        &&& forall|i: int, j: int| 0 <= i < j < self.map@.len() ==> (#[trigger] self.map@[i]).0@ != (#[trigger] self.map@[j]).0@
        &&& forall|i: int| 0 <= i < self.map@.len() ==> (#[trigger] self.map@[i]).1 > 0
        &&& forall|i: int| 0 <= i < self.map@.len() && (#[trigger] self.map@[i]).0@.len() < 4096 ==> self.map@[i].1 / 4096
            == (self.map@[i].1 + self.map@[i].0@.len()) / 4096
    }

    /// Where the table holds `s`: 0 for the empty string or one it does not hold.
    pub open spec fn offset_of(&self, s: Seq<u8>) -> u32 {
        if s.len() > 0 && first_key(self.map@, s) >= 0 {
            self.map@[first_key(self.map@, s)].1 as u32
        } else {
            0
        }
    }

    /// The table holds `s` (the empty string always counts as held).
    pub open spec fn knows(&self, s: Seq<u8>) -> bool {
        s.len() == 0 || first_key(self.map@, s) >= 0
    }

    /// `other` has every string of `self`, where `self` put it.
    pub open spec fn grows_to(&self, other: &Strings) -> bool {
        &&& self.map@.len() <= other.map@.len()
        &&& forall|i: int| 0 <= i < self.map@.len() ==> #[trigger] other.map@[i] == self.map@[i]
        &&& self.buf@.is_prefix_of(other.buf@)
    }

    /// An empty table.
    pub fn new() -> (t: Strings)
        ensures
            t.wf(),
            t.buf@.len() == 0,
            t.map@.len() == 0,
    {
        Strings { buf: Buf::new(), map: Vec::new() }
    }

    /// Stores `s` (once) and gives its offset; the empty string is offset 0. The first
    /// call writes the leading zero byte.
    pub fn add(&mut self, s: &[u8]) -> (r: u32)
        requires
            old(self).wf(),
        ensures
            final(self).wf(),
            ({
                let b0 = strings_base(old(self).buf@);
                let f = first_key(old(self).map@, s@);
                if s@.len() == 0 {
                    &&& final(self).buf@ == b0
                    &&& final(self).map@ == old(self).map@
                    &&& r == 0
                } else if f >= 0 {
                    &&& final(self).buf@ == b0
                    &&& final(self).map@ == old(self).map@
                    &&& r == old(self).map@[f].1 as u32
                } else {
                    &&& final(self).buf@ == string_appended(b0, s@)
                    &&& final(self).map@.drop_last() == old(self).map@
                    &&& final(self).map@.len() == old(self).map@.len() + 1
                    &&& final(self).map@.last().0@ == s@
                    &&& final(self).map@.last().1 == string_pos(b0, s@.len() as int)
                    &&& r == string_pos(b0, s@.len() as int) as u32
                }
            }),
            s@.len() > 0 ==> {
                let g = first_key(final(self).map@, s@);
                &&& g >= 0
                &&& r == final(self).map@[g].1 as u32
                &&& stored_at(final(self).buf@, final(self).map@[g].1 as int, s@)
            },
            r == final(self).offset_of(s@),
            final(self).knows(s@),
            old(self).grows_to(&*final(self)),
            final(self).buf@.len() > 0,
    {
        if self.buf.is_empty() {
            self.buf.u8(0);
        }
        proof {
            assert(self.buf@ == strings_base(old(self).buf@));
            assert forall|i: int| 0 <= i < self.map@.len() implies stored_at(
                self.buf@,
                self.map@[i].1 as int,
                self.map@[i].0@,
            ) by {
                assert(stored_at(old(self).buf@, self.map@[i].1 as int, self.map@[i].0@));
            }
            lemma_first_key_range(self.map@, s@);
        }
        proof {
            assert(self.buf@.subrange(0, old(self).buf@.len() as int) =~= old(self).buf@);
        }
        if s.len() == 0 {
            return 0;
        }
        match lookup_key(&self.map, s) {
            Some(o) => {
                return o as u32;
            },
            None => {},
        }
        let ghost b0 = self.buf@;
        let pos0 = self.buf.len();
        let n = s.len();
        let p128 = pos0 as u128;
        let next_block: u128 = p128 - p128 % 4096 + 4096;
        let mut pos = pos0;
        if p128 + n as u128 + 1 > next_block && (n as u128) + 1 <= 4096 {
            let pad = (next_block - p128) as usize;
            self.buf.zeros(pad);
            pos = self.buf.len();
        }
        proof {
            assert(pos == string_pos(b0, n as int));
        }
        self.buf.raw(s);
        self.buf.u8(0);
        let ghost m0 = self.map@;
        self.map.push((vstd::slice::slice_to_vec(s), pos));
        proof {
            let pad = zeros(string_pos(b0, n as int) - b0.len());
            assert(self.buf@ =~= string_appended(b0, s@));
            assert(self.buf@ =~= b0 + (pad + s@ + seq![0u8]));
            assert forall|i: int| 0 <= i < self.map@.len() implies (#[trigger] self.map@[i]).0@.len()
                > 0 && stored_at(self.buf@, self.map@[i].1 as int, self.map@[i].0@) by {
                if i < m0.len() {
                    assert(self.map@[i] == m0[i]);
                    lemma_stored_extend(b0, pad + s@ + seq![0u8], m0[i].1 as int, m0[i].0@);
                } else {
                    assert(self.buf@.subrange(pos as int, pos + n) =~= s@);
                }
            }
            assert(self.map@.drop_last() =~= m0);
            lemma_first_key_push(m0, self.map@.last(), s@);
            lemma_first_key_range(m0, s@);
            assert forall|i: int, j: int| 0 <= i < j < self.map@.len() implies (#[trigger] self.map@[i]).0@
                != (#[trigger] self.map@[j]).0@ by {
                if j < m0.len() {
                    assert(self.map@[i] == m0[i] && self.map@[j] == m0[j]);
                } else {
                    assert(self.map@[i] == m0[i]);
                }
            }
            assert forall|i: int| 0 <= i < self.map@.len() && (#[trigger] self.map@[i]).0@.len() < 4096 implies
                self.map@[i].1 / 4096 == (self.map@[i].1 + self.map@[i].0@.len()) / 4096 by {
                if i < m0.len() {
                    assert(self.map@[i] == m0[i]);
                } else {
                    lemma_string_pos_block(b0, n as int);
                }
            }
            assert forall|i: int| 0 <= i < self.map@.len() implies (#[trigger] self.map@[i]).1 > 0 by {
                if i < m0.len() {
                    assert(self.map@[i] == m0[i]);
                }
            }
            assert(self.buf@.subrange(0, old(self).buf@.len() as int) =~= old(self).buf@);
        }
        pos as u32
    }
}

impl Strings {
    /// Stores text encoded for codepage `cp` and gives its offset.
    pub fn add_text(&mut self, s: &[u8], cp: u32, tables: &[CodepageTable]) -> (r: u32)
        requires
            old(self).wf(),
            tables_ok(tables@),
        ensures
            final(self).wf(),
            r == final(self).offset_of(enc_text(s@, cp, tables@)),
            final(self).knows(enc_text(s@, cp, tables@)),
            old(self).grows_to(&*final(self)),
    {
        let e = enc_cp(s, cp, tables);
        self.add(&e)
    }
}

/// The #URLSTR buffer once `url` is placed: a record never straddles a 16 KiB block
/// (the rest of the block is zero-filled first), a block starts with a zero byte, and
/// a record is two zero dwords, the URL and a zero byte.
pub open spec fn urlstr_prefix(b: Seq<u8>, n: int) -> Seq<u8> {
    let b1 = if 0x4000 - b.len() % 0x4000 < 9 + n { b + zeros(0x4000 - b.len() % 0x4000) } else { b };
    if b1.len() % 0x4000 == 0 { b1.push(0u8) } else { b1 }
}

pub open spec fn urlstr_appended(b: Seq<u8>, url: Seq<u8>) -> Seq<u8> {
    urlstr_prefix(b, url.len() as int) + zeros(8) + url + seq![0u8]
}

/// The #URLTBL buffer once a record is added: a dword of padding where a record would
/// reach the last dword of a 4 KiB block, then zero, the topic and the string offset.
pub open spec fn urltbl_prefix(b: Seq<u8>) -> Seq<u8> {
    if b.len() % 4096 == 0xFFC { b + u32_le(0) } else { b }
}

/// The #URLSTR and #URLTBL tables and where each URL string went.
pub struct Urls {
    pub urlstr: Buf,
    pub urltbl: Buf,
    pub strmap: Vec<(Vec<u8>, usize)>,
}

impl Urls {
    /// Every remembered URL is stored, with its zero, eight bytes after its offset.
    pub open spec fn wf(&self) -> bool {
        forall|i: int|
            0 <= i < self.strmap@.len() ==> stored_at(
                self.urlstr@,
                (#[trigger] self.strmap@[i]).1 + 8,
                self.strmap@[i].0@,
            )
    }

    /// Empty tables.
    pub fn new() -> (u: Urls)
        ensures
            u.wf(),
            u.urlstr@.len() == 0,
            u.urltbl@.len() == 0,
            u.strmap@.len() == 0,
    {
        Urls { urlstr: Buf::new(), urltbl: Buf::new(), strmap: Vec::new() }
    }

    /// Stores `url` (once) in #URLSTR and gives its offset.
    pub fn add_urlstr(&mut self, url: &[u8]) -> (r: u32)
        requires
            old(self).wf(),
        ensures
            final(self).wf(),
            final(self).urltbl == old(self).urltbl,
            ({
                let f = first_key(old(self).strmap@, url@);
                if f >= 0 {
                    &&& final(self).urlstr@ == old(self).urlstr@
                    &&& final(self).strmap@ == old(self).strmap@
                    &&& r == old(self).strmap@[f].1 as u32
                } else {
                    &&& final(self).urlstr@ == urlstr_appended(old(self).urlstr@, url@)
                    &&& final(self).strmap@ == old(self).strmap@.push(
                        final(self).strmap@.last(),
                    )
                    &&& final(self).strmap@.last().0@ == url@
                    &&& final(self).strmap@.last().1 == urlstr_prefix(
                        old(self).urlstr@,
                        url@.len() as int,
                    ).len()
                    &&& r == urlstr_prefix(old(self).urlstr@, url@.len() as int).len() as u32
                }
            }),
            ({
                let g = first_key(final(self).strmap@, url@);
                &&& g >= 0
                &&& r == final(self).strmap@[g].1 as u32
                &&& stored_at(final(self).urlstr@, final(self).strmap@[g].1 + 8, url@)
            }),
    {
        proof {
            lemma_first_key_range(self.strmap@, url@);
        }
        match lookup_key(&self.strmap, url) {
            Some(o) => {
                return o as u32;
            },
            None => {},
        }
        let ghost b0 = self.urlstr@;
        let n = url.len();
        let len0 = self.urlstr.len();
        let rem = 0x4000 - len0 % 0x4000;
        if (rem as u128) < 9 + n as u128 {
            self.urlstr.zeros(rem);
        }
        if self.urlstr.len() % 0x4000 == 0 {
            self.urlstr.u8(0);
        }
        proof {
            assert(self.urlstr@ =~= urlstr_prefix(b0, n as int));
        }
        let pos = self.urlstr.len();
        self.urlstr.u32(0);
        self.urlstr.u32(0);
        self.urlstr.raw(url);
        self.urlstr.u8(0);
        let ghost m0 = self.strmap@;
        self.strmap.push((vstd::slice::slice_to_vec(url), pos));
        proof {
            let p = urlstr_prefix(b0, n as int);
            assert(u32_le(0) + u32_le(0) =~= zeros(8));
            assert(self.urlstr@ =~= urlstr_appended(b0, url@));
            assert(self.urlstr@ =~= b0 + (p.subrange(b0.len() as int, p.len() as int) + zeros(8)
                + url@ + seq![0u8])) by {
                assert(p =~= b0 + p.subrange(b0.len() as int, p.len() as int));
            }
            assert forall|i: int| 0 <= i < self.strmap@.len() implies stored_at(
                self.urlstr@,
                (#[trigger] self.strmap@[i]).1 + 8,
                self.strmap@[i].0@,
            ) by {
                if i < m0.len() {
                    assert(self.strmap@[i] == m0[i]);
                    lemma_stored_extend(
                        b0,
                        p.subrange(b0.len() as int, p.len() as int) + zeros(8) + url@ + seq![0u8],
                        m0[i].1 + 8,
                        m0[i].0@,
                    );
                } else {
                    assert(self.urlstr@.subrange(pos + 8, pos + 8 + n) =~= url@);
                }
            }
            assert(self.strmap@ =~= m0.push(self.strmap@.last()));
            lemma_first_key_push(m0, self.strmap@.last(), url@);
        }
        pos as u32
    }

    /// Adds a #URLTBL record for `url` and `topic_index`; gives the record's offset.
    pub fn add_url(&mut self, url: &[u8], topic_index: u32) -> (r: u32)
        requires
            old(self).wf(),
        ensures
            final(self).wf(),
            first_key(final(self).strmap@, url@) >= 0,
            final(self).urltbl@ == urltbl_prefix(old(self).urltbl@) + u32_le(0) + u32_le(topic_index)
                + u32_le(final(self).strmap@[first_key(final(self).strmap@, url@)].1 as u32),
            r == urltbl_prefix(old(self).urltbl@).len() as u32,
            stored_at(
                final(self).urlstr@,
                final(self).strmap@[first_key(final(self).strmap@, url@)].1 + 8,
                url@,
            ),
            final(self).strmap@.len() >= old(self).strmap@.len(),
            forall|i: int|
                0 <= i < old(self).strmap@.len() ==> #[trigger] final(self).strmap@[i]
                    == old(self).strmap@[i],
            old(self).urlstr@.is_prefix_of(final(self).urlstr@),
    {
        let us = self.add_urlstr(url);
        let ghost t0 = self.urltbl@;
        if self.urltbl.len() % 4096 == 0xFFC {
            self.urltbl.u32(0);
        }
        let pos = self.urltbl.len();
        self.urltbl.u32(0);
        self.urltbl.u32(topic_index);
        self.urltbl.u32(us);
        proof {
            assert(self.urltbl@ =~= urltbl_prefix(t0) + u32_le(0) + u32_le(topic_index) + u32_le(us));
            lemma_first_key_range(old(self).strmap@, url@);
            if first_key(old(self).strmap@, url@) < 0 {
                assert(old(self).urlstr@.is_prefix_of(self.urlstr@)) by {
                    assert(self.urlstr@.subrange(0, old(self).urlstr@.len() as int)
                        =~= old(self).urlstr@);
                }
            }
        }
        pos as u32
    }
}

/// `url` without one leading slash.
pub open spec fn strip_slash(url: Seq<u8>) -> Seq<u8> {
    if url.len() > 0 && url[0] == 0x2F { url.subrange(1, url.len() as int) } else { url }
}

/// The #TOPICS flags word: a given code, else 0 for an anchor, 2 without a title,
/// 6 with one.
pub open spec fn topic_flags(url: Seq<u8>, title: Seq<u8>, code: i32) -> u16 {
    if code >= 0 {
        code as u16
    } else if exists|i: int| 0 <= i < url.len() && url[i] == 0x23 {
        0
    } else if title.len() == 0 {
        2
    } else {
        6
    }
}

/// A #TOPICS record: TOC offset (0 until patched), title string, URL record, flags.
pub open spec fn topic_record(str_off: u32, tbl_off: u32, flags: u16) -> Seq<u8> {
    u32_le(0) + u32_le(str_off) + u32_le(tbl_off) + u16_le(flags) + u16_le(0)
}

/// The #TOPICS table and, by lower-cased URL, the first topic of each URL.
pub struct Topics {
    pub buf: Buf,
    pub by_url: Vec<(Vec<u8>, u32)>,
}

impl Topics {
    /// Empty.
    pub fn new() -> (t: Topics)
        ensures
            t.buf@.len() == 0,
            t.by_url@.len() == 0,
    {
        Topics { buf: Buf::new(), by_url: Vec::new() }
    }

    /// The number of records.
    pub fn count(&self) -> (r: u32)
        ensures
            r == (self.buf@.len() / 16) as u32,
    {
        (self.buf.len() / 16) as u32
    }

    /// Adds a topic for `url` (one leading slash dropped) titled `title`; gives its
    /// index. The title goes to #STRINGS, the URL to #URLSTR/#URLTBL.
    pub fn add(&mut self, strings: &mut Strings, urls: &mut Urls, title: &[u8], url: &[u8], code: i32)
        -> (r: u32)
        requires
            old(strings).wf(),
            old(urls).wf(),
        ensures
            final(strings).wf(),
            final(urls).wf(),
            r == (old(self).buf@.len() / 16) as u32,
            final(self).buf@ == old(self).buf@ + topic_record(
                if title@.len() == 0 {
                    0xFFFF_FFFFu32
                } else {
                    final(strings).map@[first_key(final(strings).map@, title@)].1 as u32
                },
                urltbl_prefix(old(urls).urltbl@).len() as u32,
                topic_flags(strip_slash(url@), title@, code),
            ),
            title@.len() > 0 ==> first_key(final(strings).map@, title@) >= 0 && stored_at(
                final(strings).buf@,
                final(strings).map@[first_key(final(strings).map@, title@)].1 as int,
                title@,
            ),
            final(self).by_url@ == if first_key(old(self).by_url@, lc_seq(strip_slash(url@))) >= 0 {
                old(self).by_url@
            } else {
                old(self).by_url@.push(final(self).by_url@.last())
            },
            first_key(old(self).by_url@, lc_seq(strip_slash(url@))) < 0 ==> {
                &&& final(self).by_url@.last().0@ == lc_seq(strip_slash(url@))
                &&& final(self).by_url@.last().1 == r
            },
    {
        let u: &[u8] = if url.len() > 0 && url[0] == 0x2F {
            vstd::slice::slice_subrange(url, 1, url.len())
        } else {
            url
        };
        proof {
            assert(u@ == strip_slash(url@));
        }
        let topic_index = self.count();
        let str_off: u32 = if title.len() == 0 { 0xFFFF_FFFF } else { strings.add(title) };
        let tbl_off = urls.add_url(u, topic_index);
        let mut has_hash = false;
        let mut k: usize = 0;
        while k < u.len()
            invariant
                k <= u@.len(),
                has_hash == exists|i: int| 0 <= i < k && u@[i] == 0x23,
            decreases u@.len() - k,
        {
            if u[k] == 0x23 {
                has_hash = true;
            }
            k = k + 1;
        }
        let flags: u16 = if code >= 0 {
            code as u16
        } else if has_hash {
            0
        } else if title.len() == 0 {
            2
        } else {
            6
        };
        let ghost b0 = self.buf@;
        self.buf.u32(0);
        self.buf.u32(str_off);
        self.buf.u32(tbl_off);
        self.buf.u16(flags);
        self.buf.u16(0);
        proof {
            assert(self.buf@ =~= b0 + topic_record(str_off, tbl_off, flags));
        }
        let key = lower(u);
        match lookup_key(&self.by_url, &key) {
            Some(_) => {},
            None => {
                self.by_url.push((key, topic_index));
            },
        }
        topic_index
    }

    /// The first topic whose URL is `url` (one leading slash dropped, ASCII case
    /// ignored), as a signed number; -1 when there is none.
    pub fn find(&self, url: &[u8]) -> (r: i32)
        ensures
            ({
                let f = first_key(self.by_url@, lc_seq(strip_slash(url@)));
                if f >= 0 { r == self.by_url@[f].1 as i32 } else { r == -1 }
            }),
    {
        let u: &[u8] = if url.len() > 0 && url[0] == 0x2F {
            vstd::slice::slice_subrange(url, 1, url.len())
        } else {
            url
        };
        proof {
            assert(u@ == strip_slash(url@));
        }
        let key = lower(u);
        match lookup_key(&self.by_url, &key) {
            Some(v) => v as i32,
            None => -1,
        }
    }

    /// Writes `value` as the TOC offset (first dword) of record `topic`; a topic past
    /// the table leaves it unchanged.
    pub fn patch_toc_offset(&mut self, topic: u32, value: u32)
        ensures
            final(self).by_url == old(self).by_url,
            (topic as int) * 16 + 4 <= old(self).buf@.len() ==> final(self).buf@ == old(
                self,
            ).buf@.subrange(0, topic * 16) + u32_le(value) + old(self).buf@.subrange(
                topic * 16 + 4,
                old(self).buf@.len() as int,
            ),
            (topic as int) * 16 + 4 > old(self).buf@.len() ==> final(self).buf@ == old(self).buf@,
    {
        let off = topic as u64 * 16;
        let n = self.buf.len();
        if (n as u64) < 4 || off > n as u64 - 4 {
            return;
        }
        let o = off as usize;
        patch32(&mut self.buf.v, o, value);
    }
}

/// Overwrites the four bytes at `off` with `value`, little-endian.
pub fn patch32(v: &mut Vec<u8>, off: usize, value: u32)
    requires
        off + 4 <= old(v)@.len(),
    ensures
        final(v)@ == old(v)@.subrange(0, off as int) + u32_le(value) + old(v)@.subrange(
            off + 4,
            old(v)@.len() as int,
        ),
{
    let n = v.len();
    v.set(off, (value % 256) as u8);
    v.set(off + 1, ((value / 256) % 256) as u8);
    v.set(off + 2, ((value / 65536) % 256) as u8);
    v.set(off + 3, (value / 16777216) as u8);
    assert(v@ =~= old(v)@.subrange(0, off as int) + u32_le(value) + old(v)@.subrange(
        off + 4,
        old(v)@.len() as int,
    ));
}

} // verus!
