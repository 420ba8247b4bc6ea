//! Parser for HTML Help sitemap files (.hhc / .hhk) and for the keyword and ALink
//! `<object>` controls inside topics. Text is kept as the bytes of the UTF-8 string
//! it makes when every source byte is read as one Latin-1 character.
use vstd::prelude::*;
use vstd::string::StringSliceAdditionalSpecFns;
use crate::textenc::{lc, utf8_of};

verus! {

/// One sitemap entry: its parameters (lower-case names) and the entries under it.
pub struct SiteMapItem {
    pub params: Vec<(Vec<u8>, Vec<u8>)>,
    pub children: Vec<SiteMapItem>,
}

/// A parsed sitemap: its top-level entries and its `text/site properties`.
pub struct SiteMap {
    pub items: Vec<SiteMapItem>,
    pub properties: Vec<(Vec<u8>, Vec<u8>)>,
}

/// The keywords and ALink names of a topic's `<object>` controls.
pub struct LinkObjects {
    pub keywords: Vec<Vec<u8>>,
    pub alinks: Vec<Vec<u8>>,
}

/// A tag: its lower-case name (`/` first for a closing tag) and its attributes.
pub struct Tag {
    pub name: Vec<u8>,
    pub attrs: Vec<(Vec<u8>, Vec<u8>)>,
}

/// The value of the first pair named `name`, if any.
pub open spec fn lookup_from(ps: Seq<(Vec<u8>, Vec<u8>)>, name: Seq<u8>, i: int) -> Option<Seq<u8>>
    decreases ps.len() - i,
{
    if i < 0 || i >= ps.len() {
        None
    } else if ps[i].0@ == name {
        Some(ps[i].1@)
    } else {
        lookup_from(ps, name, i + 1)
    }
}

/// The value of the first pair named `name`; empty when there is none.
pub open spec fn lookup(ps: Seq<(Vec<u8>, Vec<u8>)>, name: Seq<u8>) -> Seq<u8> {
    match lookup_from(ps, name, 0) {
        Some(v) => v,
        None => Seq::empty(),
    }
}

pub(crate) fn same_bytes(a: &Vec<u8>, b: &[u8]) -> (r: bool)
    ensures
        r == (a@ == b@),
{
    if a.len() != b.len() {
        return false;
    }
    let n = a.len();
    let mut k: usize = 0;
    while k < n
        invariant
            k <= n,
            n == a@.len(),
            n == b@.len(),
            forall|i: int| 0 <= i < k ==> #[trigger] a@[i] == b@[i],
        decreases n - k,
    {
        if a[k] != b[k] {
            return false;
        }
        k = k + 1;
    }
    proof {
        assert(a@ =~= b@);
    }
    true
}

pub(crate) fn copy_vec(v: &Vec<u8>) -> (r: Vec<u8>)
    ensures
        r@ == v@,
{
    let mut r: Vec<u8> = Vec::new();
    let n = v.len();
    let mut k: usize = 0;
    while k < n
        invariant
            k <= n,
            n == v@.len(),
            r@ == v@.subrange(0, k as int),
        decreases n - k,
    {
        r.push(v[k]);
        proof {
            assert(v@.subrange(0, k + 1) =~= v@.subrange(0, k as int).push(v@[k as int]));
        }
        k = k + 1;
    }
    proof {
        assert(v@.subrange(0, n as int) =~= v@);
    }
    r
}

/// The value of the first pair named `name`, copied; empty when there is none.
pub(crate) fn lookup_pairs(ps: &Vec<(Vec<u8>, Vec<u8>)>, name: &[u8]) -> (r: Vec<u8>)
    ensures
        r@ == lookup(ps@, name@),
{
    let n = ps.len();
    let mut i: usize = 0;
    while i < n
        invariant
            i <= n,
            n == ps@.len(),
            lookup_from(ps@, name@, 0) == lookup_from(ps@, name@, i as int),
        decreases n - i,
    {
        if same_bytes(&ps[i].0, name) {
            return copy_vec(&ps[i].1);
        }
        i = i + 1;
    }
    Vec::new()
}

impl SiteMapItem {
    /// The value of the first parameter named `name`; empty when there is none.
    pub fn param(&self, name: &[u8]) -> (r: Vec<u8>)
        ensures
            r@ == lookup(self.params@, name@),
    {
        lookup_pairs(&self.params, name)
    }
}

/// The non-empty values of the parameters named `local`, in order.
pub open spec fn param_locals(ps: Seq<(Vec<u8>, Vec<u8>)>) -> Seq<Seq<u8>>
    decreases ps.len(),
{
    if ps.len() == 0 {
        Seq::empty()
    } else {
        param_locals(ps.drop_last()) + (if ps.last().0@ == "local".spec_bytes() && ps.last().1@.len() > 0 {
            seq![ps.last().1@]
        } else {
            Seq::empty()
        })
    }
}

/// The `local` values of an entry and then of the entries under it, depth first.
pub open spec fn item_locals(it: SiteMapItem) -> Seq<Seq<u8>>
    decreases it, 1int,
{
    param_locals(it.params@) + items_locals(it.children@, 0)
}

/// The `local` values of the entries `items[i..]`, depth first.
pub open spec fn items_locals(items: Seq<SiteMapItem>, i: int) -> Seq<Seq<u8>>
    decreases items, items.len() - i,
{
    if i < 0 || i >= items.len() {
        Seq::empty()
    } else {
        item_locals(items[i]) + items_locals(items, i + 1)
    }
}

fn push_locals(ps: &Vec<(Vec<u8>, Vec<u8>)>, out: &mut Vec<Vec<u8>>)
    ensures
        final(out)@.len() == old(out)@.len() + param_locals(ps@).len(),
        forall|k: int| 0 <= k < old(out)@.len() ==> #[trigger] final(out)@[k]@ == old(out)@[k]@,
        forall|k: int| 0 <= k < param_locals(ps@).len() ==> #[trigger] final(out)@[old(out)@.len() + k]@ == param_locals(ps@)[k],
{
    let n = ps.len();
    let mut i: usize = 0;
    let ghost o = out@;
    proof {
        assert(ps@.take(0) =~= Seq::<(Vec<u8>, Vec<u8>)>::empty());
    }
    while i < n
        invariant
            i <= n,
            n == ps@.len(),
            out@.len() == o.len() + param_locals(ps@.take(i as int)).len(),
            forall|k: int| 0 <= k < o.len() ==> #[trigger] out@[k]@ == o[k]@,
            forall|k: int| 0 <= k < param_locals(ps@.take(i as int)).len() ==> #[trigger] out@[o.len() + k]@ == param_locals(ps@.take(i as int))[k],
        decreases n - i,
    {
        proof {
            assert(ps@.take(i + 1).drop_last() =~= ps@.take(i as int));
        }
        if same_bytes(&ps[i].0, "local".as_bytes()) && ps[i].1.len() > 0 {
            out.push(copy_vec(&ps[i].1));
        }
        i = i + 1;
    }
    proof {
        assert(ps@.take(n as int) =~= ps@);
    }
}

fn walk_locals(items: &Vec<SiteMapItem>, out: &mut Vec<Vec<u8>>)
    ensures
        final(out)@.len() == old(out)@.len() + items_locals(items@, 0).len(),
        forall|k: int| 0 <= k < old(out)@.len() ==> #[trigger] final(out)@[k]@ == old(out)@[k]@,
        forall|k: int| 0 <= k < items_locals(items@, 0).len() ==> #[trigger] final(out)@[old(out)@.len() + k]@ == items_locals(items@, 0)[k],
    decreases items@,
{
    let n = items.len();
    let mut i: usize = 0;
    let ghost o = out@;
    let ghost tail = items_locals(items@, 0);
    while i < n
        invariant
            i <= n,
            n == items@.len(),
            tail == items_locals(items@, 0),
            items_locals(items@, 0) == items_locals(items@, 0).subrange(0, out@.len() - o.len()) + items_locals(items@, i as int),
            out@.len() >= o.len(),
            out@.len() - o.len() <= items_locals(items@, 0).len(),
            forall|k: int| 0 <= k < o.len() ==> #[trigger] out@[k]@ == o[k]@,
            forall|k: int| 0 <= k < out@.len() - o.len() ==> #[trigger] out@[o.len() + k]@ == items_locals(items@, 0)[k],
        decreases n - i,
    {
        let ghost before = out@;
        let ghost it = items@[i as int];
        push_locals(&items[i].params, out);
        let ghost mid = out@;
        proof {
            assert(decreases_to!(items@ => items@[i as int]));
        }
        walk_locals(&items[i].children, out);
        proof {
            let done = (before.len() - o.len()) as int;
            let a = param_locals(it.params@);
            let b = items_locals(it.children@, 0);
            assert(item_locals(it) == a + b);
            assert(items_locals(items@, i as int) == item_locals(it) + items_locals(items@, i + 1));
            assert forall|k: int| 0 <= k < out@.len() - o.len() implies #[trigger] out@[o.len() + k]@ == items_locals(items@, 0)[k] by {
                if k < done {
                    assert(out@[o.len() + k]@ == before[o.len() + k]@);
                } else if k < done + a.len() {
                    assert(out@[o.len() + k]@ == mid[before.len() + (k - done)]@);
                    assert(items_locals(items@, 0)[k] == items_locals(items@, i as int)[k - done]);
                } else {
                    let kk = k - done - a.len();
                    assert(out@[mid.len() + kk]@ == b[kk]);
                    assert(mid.len() + kk == o.len() + k);
                    assert(items_locals(items@, 0)[k] == items_locals(items@, i as int)[k - done]);
                }
            }
            assert(items_locals(items@, 0) =~= items_locals(items@, 0).subrange(0, out@.len() - o.len()) + items_locals(items@, i + 1));
        }
        i = i + 1;
    }
}

impl SiteMap {
    /// Appends every non-empty `local` parameter of the sitemap, depth first.
    pub fn collect_locals(&self, out: &mut Vec<Vec<u8>>)
        ensures
            final(out)@.len() == old(out)@.len() + items_locals(self.items@, 0).len(),
            forall|k: int| 0 <= k < old(out)@.len() ==> #[trigger] final(out)@[k]@ == old(out)@[k]@,
            forall|k: int| 0 <= k < items_locals(self.items@, 0).len() ==> #[trigger] final(out)@[old(out)@.len() + k]@
                == items_locals(self.items@, 0)[k],
    {
        walk_locals(&self.items, out);
    }
}


/// The first `;` at or after `i`; -1 when there is none.
pub open spec fn find_semi(b: Seq<u8>, i: int) -> int
    decreases b.len() - i,
{
    if i < 0 || i >= b.len() {
        -1
    } else if b[i] == 0x3B {
        i
    } else {
        find_semi(b, i + 1)
    }
}

/// The value of digit `c` in base `radix` (10 or 16); -1 when it is none.
pub open spec fn digit_val(c: u8, radix: int) -> int {
    if 0x30 <= c <= 0x39 {
        c - 0x30
    } else if radix == 16 && 0x61 <= c <= 0x66 {
        c - 0x57
    } else if radix == 16 && 0x41 <= c <= 0x46 {
        c - 0x37
    } else {
        -1
    }
}

/// The number the digits of `s` stand for in base `radix`; -1 when one is no digit.
pub open spec fn radix_val(s: Seq<u8>, radix: int) -> int
    decreases s.len(),
{
    if s.len() == 0 {
        0
    } else {
        let v = radix_val(s.drop_last(), radix);
        let d = digit_val(s.last(), radix);
        if v < 0 || d < 0 { -1 } else { v * radix + d }
    }
}

/// An unsigned 32-bit number in base `radix`, an optional `+` first.
pub open spec fn from_radix(s: Seq<u8>, radix: int) -> Option<u32> {
    let t = if s.len() > 0 && s[0] == 0x2B { s.subrange(1, s.len() as int) } else { s };
    if t.len() == 0 {
        None
    } else {
        let v = radix_val(t, radix);
        if v < 0 || v > 0xFFFF_FFFF { None } else { Some(v as u32) }
    }
}

/// What the entity `b[i..=semi]` stands for: the five named ones, a numeric one for
/// a code from 1 to 255 (nothing for any other number), any other kept as written.
pub open spec fn entity_bytes(b: Seq<u8>, i: int, semi: int) -> Seq<u8> {
    let ent = b.subrange(i + 1, semi);
    if ent == "amp".spec_bytes() {
        seq![0x26u8]
    } else if ent == "lt".spec_bytes() {
        seq![0x3Cu8]
    } else if ent == "gt".spec_bytes() {
        seq![0x3Eu8]
    } else if ent == "quot".spec_bytes() {
        seq![0x22u8]
    } else if ent == "apos".spec_bytes() {
        seq![0x27u8]
    } else if ent.len() > 0 && ent[0] == 0x23 {
        let hex = ent.len() > 1 && (ent[1] == 0x78 || ent[1] == 0x58);
        let num = if hex { ent.subrange(2, ent.len() as int) } else { ent.subrange(1, ent.len() as int) };
        match from_radix(num, if hex { 16 } else { 10 }) {
            Some(code) => if 0 < code < 256 { utf8_of(code) } else { Seq::empty() },
            None => Seq::empty(),
        }
    } else {
        b.subrange(i, semi + 1)
    }
}

/// `b[i..]` with its entities decoded; every other byte is taken as a Latin-1 character.
pub open spec fn decode_from(b: Seq<u8>, i: int) -> Seq<u8>
    decreases b.len() - i,
{
    if i < 0 || i >= b.len() {
        Seq::empty()
    } else if b[i] != 0x26 {
        utf8_of(b[i] as u32) + decode_from(b, i + 1)
    } else {
        let semi = find_semi(b, i);
        if semi > i && semi < b.len() && semi - i <= 10 {
            entity_bytes(b, i, semi) + decode_from(b, semi + 1)
        } else {
            seq![0x26u8] + decode_from(b, i + 1)
        }
    }
}

proof fn lemma_find_semi(b: Seq<u8>, i: int)
    requires
        0 <= i,
    ensures
        find_semi(b, i) == -1 || (i <= find_semi(b, i) < b.len() && b[find_semi(b, i)] == 0x3B),
    decreases b.len() - i,
{
    if i < b.len() && b[i] != 0x3B {
        lemma_find_semi(b, i + 1);
    }
}

fn push_latin1(out: &mut Vec<u8>, c: u8)
    ensures
        final(out)@ == old(out)@ + utf8_of(c as u32),
{
    if c < 0x80 {
        out.push(c);
    } else {
        out.push(0xC0 + c / 64);
        out.push(0x80 + c % 64);
    }
    assert(out@ =~= old(out)@ + utf8_of(c as u32));
}

pub(crate) fn copy_range(v: &[u8], a: usize, b: usize) -> (r: Vec<u8>)
    requires
        a <= b <= v@.len(),
    ensures
        r@ == v@.subrange(a as int, b as int),
{
    let mut r: Vec<u8> = Vec::new();
    let mut k = a;
    while k < b
        invariant
            a <= k <= b <= v@.len(),
            r@ == v@.subrange(a as int, k as int),
        decreases b - k,
    {
        r.push(v[k]);
        proof {
            assert(v@.subrange(a as int, k + 1) =~= v@.subrange(a as int, k as int).push(v@[k as int]));
        }
        k = k + 1;
    }
    r
}

/// The number in `s[a..b]` in base `radix`, an optional `+` first.
pub(crate) fn parse_radix(s: &[u8], a: usize, b: usize, radix: u64) -> (r: Option<u32>)
    requires
        a <= b <= s@.len(),
        radix == 10 || radix == 16,
    ensures
        r == from_radix(s@.subrange(a as int, b as int), radix as int),
{
    let ghost w = s@.subrange(a as int, b as int);
    let mut k = a;
    if k < b && s[k] == 0x2B {
        k = k + 1;
    }
    let ghost t = s@.subrange(k as int, b as int);
    proof {
        if a < b && s@[a as int] == 0x2B {
            assert(t =~= w.subrange(1, w.len() as int));
        } else {
            assert(t =~= w);
        }
    }
    if k == b {
        return None;
    }
    let start = k;
    let mut v: u64 = 0;
    let mut bad = false;
    while k < b
        invariant
            start <= k <= b <= s@.len(),
            t == s@.subrange(start as int, b as int),
            radix == 10 || radix == 16,
            !bad ==> v == (if radix_val(s@.subrange(start as int, k as int), radix as int) <= 0xFFFF_FFFF {
                radix_val(s@.subrange(start as int, k as int), radix as int)
            } else {
                0x1_0000_0000
            }),
            !bad ==> radix_val(s@.subrange(start as int, k as int), radix as int) >= 0,
            bad ==> radix_val(s@.subrange(start as int, k as int), radix as int) < 0,
        decreases b - k,
    {
        let c = s[k];
        let d: i64 = if 0x30 <= c && c <= 0x39 {
            (c - 0x30) as i64
        } else if radix == 16 && 0x61 <= c && c <= 0x66 {
            (c - 0x57) as i64
        } else if radix == 16 && 0x41 <= c && c <= 0x46 {
            (c - 0x37) as i64
        } else {
            -1
        };
        proof {
            assert(s@.subrange(start as int, k + 1).drop_last() =~= s@.subrange(start as int, k as int));
            assert(d == digit_val(c, radix as int));
        }
        if d < 0 {
            bad = true;
        } else if !bad {
            let w2 = v * radix + d as u64;
            v = if w2 <= 0xFFFF_FFFF { w2 } else { 0x1_0000_0000 };
        }
        k = k + 1;
    }
    if bad || v > 0xFFFF_FFFF {
        None
    } else {
        Some(v as u32)
    }
}

/// The entities of `s` decoded; every other byte is taken as a Latin-1 character.
pub fn decode_entities(s: &[u8]) -> (r: Vec<u8>)
    ensures
        r@ == decode_from(s@, 0),
{
    let n = s.len();
    let mut out: Vec<u8> = Vec::new();
    let mut i: usize = 0;
    while i < n
        invariant
            i <= n,
            n == s@.len(),
            out@ + decode_from(s@, i as int) == decode_from(s@, 0),
        decreases n - i,
    {
        let ghost o = out@;
        if s[i] != 0x26 {
            push_latin1(&mut out, s[i]);
            proof {
                assert(o + utf8_of(s@[i as int] as u32) + decode_from(s@, i + 1) =~= o + decode_from(s@, i as int));
            }
            i = i + 1;
            continue;
        }
        let mut semi = i;
        while semi < n && s[semi] != 0x3B
            invariant
                i <= semi <= n,
                n == s@.len(),
                find_semi(s@, i as int) == find_semi(s@, semi as int),
            decreases n - semi,
        {
            semi = semi + 1;
        }
        proof {
            lemma_find_semi(s@, i as int);
            assert(s@[i as int] == 0x26);
        }
        if semi < n && semi - i <= 10 {
            let ent_len = semi - i - 1;
            let ghost ent = s@.subrange(i + 1, semi as int);
            let e = copy_range(s, i + 1, semi);
            if same_bytes(&e, "amp".as_bytes()) {
                out.push(0x26);
            } else if same_bytes(&e, "lt".as_bytes()) {
                out.push(0x3C);
            } else if same_bytes(&e, "gt".as_bytes()) {
                out.push(0x3E);
            } else if same_bytes(&e, "quot".as_bytes()) {
                out.push(0x22);
            } else if same_bytes(&e, "apos".as_bytes()) {
                out.push(0x27);
            } else if ent_len > 0 && s[i + 1] == 0x23 {
                let hex = ent_len > 1 && (s[i + 2] == 0x78 || s[i + 2] == 0x58);
                let code = if hex { parse_radix(s, i + 3, semi, 16) } else { parse_radix(s, i + 2, semi, 10) };
                proof {
                    if hex {
                        assert(ent.subrange(2, ent.len() as int) =~= s@.subrange(i + 3, semi as int));
                    } else {
                        assert(ent.subrange(1, ent.len() as int) =~= s@.subrange(i + 2, semi as int));
                    }
                }
                match code {
                    Some(c) => {
                        if 0 < c && c < 256 {
                            push_latin1(&mut out, c as u8);
                        }
                    },
                    None => {},
                }
            } else {
                let mut k = i;
                while k <= semi
                    invariant
                        i <= k <= semi + 1,
                        semi < n,
                        n == s@.len(),
                        out@ == o + s@.subrange(i as int, k as int),
                    decreases semi + 1 - k,
                {
                    out.push(s[k]);
                    proof {
                        assert(o + s@.subrange(i as int, k + 1) =~= (o + s@.subrange(i as int, k as int)).push(s@[k as int]));
                    }
                    k = k + 1;
                }
            }
            proof {
                assert(out@ == o + entity_bytes(s@, i as int, semi as int));
                assert(decode_from(s@, i as int) == entity_bytes(s@, i as int, semi as int) + decode_from(s@, semi + 1));
                assert(out@ + decode_from(s@, semi + 1) =~= o + decode_from(s@, i as int));
            }
            i = semi + 1;
            continue;
        }
        out.push(0x26);
        proof {
            assert(out@ + decode_from(s@, i + 1) =~= o + decode_from(s@, i as int));
        }
        i = i + 1;
    }
    proof {
        assert(out@ + Seq::<u8>::empty() =~= out@);
    }
    out
}


/// ASCII whitespace: space, tab, line feed, form feed, carriage return.
pub open spec fn is_ws(b: u8) -> bool {
    b == 0x20 || b == 0x09 || b == 0x0A || b == 0x0C || b == 0x0D
}

/// Where a tag name starting at `p` ends: at whitespace, `>` or the end.
pub open spec fn name_end(s: Seq<u8>, p: int) -> int
    decreases s.len() - p,
{
    if p < 0 || p >= s.len() || is_ws(s[p]) || s[p] == 0x3E {
        p
    } else {
        name_end(s, p + 1)
    }
}

/// Every byte taken as a Latin-1 character, as UTF-8.
pub open spec fn latin1_utf8(s: Seq<u8>) -> Seq<u8>
    decreases s.len(),
{
    if s.len() == 0 {
        Seq::empty()
    } else {
        latin1_utf8(s.drop_last()) + utf8_of(s.last() as u32)
    }
}

pub open spec fn lc_all(s: Seq<u8>) -> Seq<u8> {
    Seq::new(s.len(), |i: int| lc(s[i]))
}

fn is_space(b: u8) -> (r: bool)
    ensures
        r == is_ws(b),
{
    b == 0x20 || b == 0x09 || b == 0x0A || b == 0x0C || b == 0x0D
}

fn lower_ascii(b: u8) -> (r: u8)
    ensures
        r == lc(b),
{
    if 65 <= b && b <= 90 { b + 32 } else { b }
}

/// The first position from `p` on that holds no whitespace (or the end).
pub open spec fn skip_sp(s: Seq<u8>, p: int) -> int
    decreases s.len() - p,
{
    if p < 0 || p >= s.len() || !is_ws(s[p]) {
        p
    } else {
        skip_sp(s, p + 1)
    }
}

/// Where an attribute name starting at `p` ends: at `=`, `>`, whitespace or the end.
pub open spec fn aname_end(s: Seq<u8>, p: int) -> int
    decreases s.len() - p,
{
    if p < 0 || p >= s.len() || is_ws(s[p]) || s[p] == 0x3E || s[p] == 0x3D {
        p
    } else {
        aname_end(s, p + 1)
    }
}

/// The first quote `q` from `p` on (or the end).
pub open spec fn find_quote(s: Seq<u8>, p: int, q: u8) -> int
    decreases s.len() - p,
{
    if p < 0 || p >= s.len() || s[p] == q {
        p
    } else {
        find_quote(s, p + 1, q)
    }
}

/// The value of an attribute whose name ends at `e`: where its bytes start and end,
/// and where the scan goes on. After `=` (whitespace around it allowed) comes a value
/// quoted with `"` or `'` (up to the closing quote, which is passed over) or a bare
/// one (up to whitespace or `>`); with no `=` the value is empty.
pub open spec fn attr_value(s: Seq<u8>, e: int) -> (int, int, int) {
    let q = skip_sp(s, e);
    if 0 <= q < s.len() && s[q] == 0x3D {
        let v = skip_sp(s, q + 1);
        if 0 <= v < s.len() && (s[v] == 0x22 || s[v] == 0x27) {
            let c = find_quote(s, v + 1, s[v]);
            (v + 1, c, if c < s.len() { c + 1 } else { c })
        } else {
            (v, name_end(s, v), name_end(s, v))
        }
    } else {
        (q, q, q)
    }
}

pub proof fn lemma_scan_bounds(s: Seq<u8>, p: int)
    requires
        0 <= p <= s.len(),
    ensures
        p <= skip_sp(s, p) <= s.len(),
        p <= aname_end(s, p) <= s.len(),
        p <= name_end(s, p) <= s.len(),
    decreases s.len() - p,
{
    if p < s.len() {
        lemma_scan_bounds(s, p + 1);
    }
}

pub proof fn lemma_find_quote_bounds(s: Seq<u8>, p: int, q: u8)
    requires
        0 <= p <= s.len(),
    ensures
        p <= find_quote(s, p, q) <= s.len(),
    decreases s.len() - p,
{
    if p < s.len() {
        lemma_find_quote_bounds(s, p + 1, q);
    }
}

/// One attribute step moves on: after the whitespace at `p`, an attribute (named or
/// not) ends past `p`.
pub proof fn lemma_attr_step(s: Seq<u8>, p: int)
    requires
        0 <= p < s.len(),
    ensures
        p <= skip_sp(s, p) <= s.len(),
        ({
            let a = skip_sp(s, p);
            a < s.len() && s[a] != 0x3E && s[a] != 0x2F ==> {
                &&& a <= aname_end(s, a) <= s.len()
                &&& attr_value(s, aname_end(s, a)).2 > p
            }
        }),
{
    lemma_scan_bounds(s, p);
    let a = skip_sp(s, p);
    if a < s.len() && s[a] != 0x3E && s[a] != 0x2F {
        lemma_scan_bounds(s, a);
        lemma_scan_bounds(s, a + 1);
        let e = aname_end(s, a);
        lemma_attr_value_bounds(s, e);
    }
}

pub proof fn lemma_attr_value_bounds(s: Seq<u8>, e: int)
    requires
        0 <= e <= s.len(),
    ensures
        e <= attr_value(s, e).0 <= attr_value(s, e).1 <= attr_value(s, e).2 <= s.len(),
        e < s.len() && s[e] == 0x3D ==> attr_value(s, e).2 > e,
{
    lemma_scan_bounds(s, e);
    let q = skip_sp(s, e);
    if 0 <= q < s.len() && s[q] == 0x3D {
        lemma_scan_bounds(s, q + 1);
        let v = skip_sp(s, q + 1);
        if 0 <= v < s.len() && (s[v] == 0x22 || s[v] == 0x27) {
            lemma_find_quote_bounds(s, v + 1, s[v]);
        } else {
            lemma_scan_bounds(s, v);
        }
    }
}

/// The attributes from `p` up to the tag's `>`, each with its name in lower case and
/// its value with entities decoded (both read as Latin-1 into UTF-8), and where the
/// `>` (or the end) is. A `/` between attributes is passed over, and an attribute
/// without a name is dropped.
pub open spec fn attrs_from(s: Seq<u8>, p: int) -> (Seq<(Seq<u8>, Seq<u8>)>, int)
    decreases s.len() - p,
{
    if p < 0 || p >= s.len() || s[p] == 0x3E {
        (Seq::empty(), p)
    } else {
        let a = skip_sp(s, p);
        proof {
            lemma_attr_step(s, p);
        }
        if a >= s.len() || s[a] == 0x3E {
            (Seq::empty(), a)
        } else if s[a] == 0x2F {
            attrs_from(s, a + 1)
        } else {
            let e = aname_end(s, a);
            let v = attr_value(s, e);
            proof {
                lemma_attr_value_bounds(s, e);
            }
            if e > a {
                (
                    seq![(latin1_utf8(lc_all(s.subrange(a, e))), decode_from(latin1_utf8(s.subrange(v.0, v.1)), 0))]
                        + attrs_from(s, v.2).0,
                    attrs_from(s, v.2).1,
                )
            } else {
                attrs_from(s, v.2)
            }
        }
    }
}

proof fn lemma_attrs_end(s: Seq<u8>, p: int)
    requires
        0 <= p <= s.len(),
    ensures
        p <= attrs_from(s, p).1 <= s.len(),
    decreases s.len() - p,
{
    if p < s.len() && s[p] != 0x3E {
        lemma_attr_step(s, p);
        let a = skip_sp(s, p);
        if a < s.len() && s[a] != 0x3E {
            if s[a] == 0x2F {
                lemma_attrs_end(s, a + 1);
            } else {
                let e = aname_end(s, a);
                lemma_attr_value_bounds(s, e);
                lemma_attrs_end(s, attr_value(s, e).2);
            }
        }
    }
}

/// Attribute pairs by their contents.
pub open spec fn attr_views(ps: Seq<(Vec<u8>, Vec<u8>)>) -> Seq<(Seq<u8>, Seq<u8>)> {
    Seq::new(ps.len(), |k: int| (ps[k].0@, ps[k].1@))
}

/// Where the scan goes on after the tag whose `<` is at `i`: past its `>`, or at the
/// end when it has none.
pub open spec fn tag_end(s: Seq<u8>, i: int) -> int {
    let e = attrs_from(s, name_end(s, i + 1)).1;
    if e < s.len() { e + 1 } else { e }
}

fn skip_sp_exec(s: &[u8], p: usize) -> (r: usize)
    requires
        p <= s@.len(),
    ensures
        r == skip_sp(s@, p as int),
{
    let mut k = p;
    while k < s.len() && is_space(s[k])
        invariant
            p <= k <= s@.len(),
            skip_sp(s@, k as int) == skip_sp(s@, p as int),
        decreases s@.len() - k,
    {
        k = k + 1;
    }
    k
}

fn aname_end_exec(s: &[u8], p: usize) -> (r: usize)
    requires
        p <= s@.len(),
    ensures
        r == aname_end(s@, p as int),
{
    let mut k = p;
    while k < s.len() && !is_space(s[k]) && s[k] != 0x3E && s[k] != 0x3D
        invariant
            p <= k <= s@.len(),
            aname_end(s@, k as int) == aname_end(s@, p as int),
        decreases s@.len() - k,
    {
        k = k + 1;
    }
    k
}

fn name_end_exec(s: &[u8], p: usize) -> (r: usize)
    requires
        p <= s@.len(),
    ensures
        r == name_end(s@, p as int),
{
    let mut k = p;
    while k < s.len() && !is_space(s[k]) && s[k] != 0x3E
        invariant
            p <= k <= s@.len(),
            name_end(s@, k as int) == name_end(s@, p as int),
        decreases s@.len() - k,
    {
        k = k + 1;
    }
    k
}

fn find_quote_exec(s: &[u8], p: usize, q: u8) -> (r: usize)
    requires
        p <= s@.len(),
    ensures
        r == find_quote(s@, p as int, q),
{
    let mut k = p;
    while k < s.len() && s[k] != q
        invariant
            p <= k <= s@.len(),
            find_quote(s@, k as int, q) == find_quote(s@, p as int, q),
        decreases s@.len() - k,
    {
        k = k + 1;
    }
    k
}

fn value_span(s: &[u8], e: usize) -> (r: (usize, usize, usize))
    requires
        e <= s@.len(),
    ensures
        (r.0 as int, r.1 as int, r.2 as int) == attr_value(s@, e as int),
{
    proof {
        lemma_scan_bounds(s@, e as int);
    }
    let q = skip_sp_exec(s, e);
    if q < s.len() && s[q] == 0x3D {
        proof {
            lemma_scan_bounds(s@, q + 1);
        }
        let v = skip_sp_exec(s, q + 1);
        if v < s.len() && (s[v] == 0x22 || s[v] == 0x27) {
            let c = find_quote_exec(s, v + 1, s[v]);
            (v + 1, c, if c < s.len() { c + 1 } else { c })
        } else {
            let b = name_end_exec(s, v);
            (v, b, b)
        }
    } else {
        (q, q, q)
    }
}

/// The bytes `s[a..b]` in lower case, each read as Latin-1, as UTF-8.
fn latin1_lower(s: &[u8], a: usize, b: usize) -> (r: Vec<u8>)
    requires
        a <= b <= s@.len(),
    ensures
        r@ == latin1_utf8(lc_all(s@.subrange(a as int, b as int))),
{
    let mut r: Vec<u8> = Vec::new();
    let mut k = a;
    proof {
        assert(lc_all(s@.subrange(a as int, a as int)) =~= Seq::<u8>::empty());
    }
    while k < b
        invariant
            a <= k <= b <= s@.len(),
            r@ == latin1_utf8(lc_all(s@.subrange(a as int, k as int))),
        decreases b - k,
    {
        push_latin1(&mut r, lower_ascii(s[k]));
        proof {
            let x = lc_all(s@.subrange(a as int, k + 1));
            assert(x.drop_last() =~= lc_all(s@.subrange(a as int, k as int)));
        }
        k = k + 1;
    }
    r
}

/// The bytes `s[a..b]`, each read as Latin-1, as UTF-8.
fn latin1_copy(s: &[u8], a: usize, b: usize) -> (r: Vec<u8>)
    requires
        a <= b <= s@.len(),
    ensures
        r@ == latin1_utf8(s@.subrange(a as int, b as int)),
{
    let mut r: Vec<u8> = Vec::new();
    let mut k = a;
    proof {
        assert(s@.subrange(a as int, a as int) =~= Seq::<u8>::empty());
    }
    while k < b
        invariant
            a <= k <= b <= s@.len(),
            r@ == latin1_utf8(s@.subrange(a as int, k as int)),
        decreases b - k,
    {
        push_latin1(&mut r, s[k]);
        proof {
            assert(s@.subrange(a as int, k + 1).drop_last() =~= s@.subrange(a as int, k as int));
        }
        k = k + 1;
    }
    r
}

/// The tag whose `<` is at `i`: its name (lower case) up to whitespace or `>`, then
/// its attributes (`name=value`, the value quoted or bare, its entities decoded);
/// gives the tag and the position after its `>`.
pub fn parse_tag(s: &[u8], i: usize) -> (r: (Tag, usize))
    requires
        i < s@.len(),
    ensures
        i < r.1 <= s@.len(),
        r.1 == tag_end(s@, i as int),
        r.0.name@ == latin1_utf8(lc_all(s@.subrange(i + 1, name_end(s@, i + 1)))),
        attr_views(r.0.attrs@) == attrs_from(s@, name_end(s@, i + 1)).0,
{
    let n = s.len();
    proof {
        lemma_scan_bounds(s@, i + 1);
    }
    let ne = name_end_exec(s, i + 1);
    let name = latin1_lower(s, i + 1, ne);
    let mut attrs: Vec<(Vec<u8>, Vec<u8>)> = Vec::new();
    let mut p = ne;
    proof {
        assert(attr_views(attrs@) =~= Seq::<(Seq<u8>, Seq<u8>)>::empty());
        assert(attr_views(attrs@) + attrs_from(s@, p as int).0 =~= attrs_from(s@, ne as int).0);
    }
    while p < n && s[p] != 0x3E
        invariant
            i + 1 <= ne <= p <= n,
            n == s@.len(),
            attr_views(attrs@) + attrs_from(s@, p as int).0 == attrs_from(s@, ne as int).0,
            attrs_from(s@, p as int).1 == attrs_from(s@, ne as int).1,
        decreases n - p,
    {
        proof {
            lemma_attr_step(s@, p as int);
        }
        let a = skip_sp_exec(s, p);
        if a >= n || s[a] == 0x3E {
            p = a;
        } else if s[a] == 0x2F {
            p = a + 1;
        } else {
            let e = aname_end_exec(s, a);
            proof {
                lemma_attr_value_bounds(s@, e as int);
            }
            let (v0, v1, next) = value_span(s, e);
            let ghost before = attr_views(attrs@);
            if e > a {
                let nm = latin1_lower(s, a, e);
                let raw = latin1_copy(s, v0, v1);
                let v = decode_entities(raw.as_slice());
                attrs.push((nm, v));
                proof {
                    assert(attr_views(attrs@) =~= before.push((nm@, v@)));
                    assert(attr_views(attrs@) + attrs_from(s@, next as int).0 =~= before + attrs_from(s@, p as int).0);
                }
            }
            p = next;
        }
    }
    proof {
        lemma_attrs_end(s@, ne as int);
    }
    let end = if p < n { p + 1 } else { p };
    (Tag { name, attrs }, end)
}

/// The value of the tag's first attribute named `name`; empty when there is none.
pub fn attr(t: &Tag, name: &[u8]) -> (r: Vec<u8>)
    ensures
        r@ == lookup(t.attrs@, name@),
{
    lookup_pairs(&t.attrs, name)
}

/// ASCII letters of `v` in lower case.
fn lower_vec(v: &Vec<u8>) -> (r: Vec<u8>)
    ensures
        r@ == lc_all(v@),
{
    let n = v.len();
    let mut r: Vec<u8> = Vec::new();
    let mut k: usize = 0;
    while k < n
        invariant
            k <= n,
            n == v@.len(),
            r@ == lc_all(v@.subrange(0, k as int)),
        decreases n - k,
    {
        r.push(lower_ascii(v[k]));
        proof {
            assert(r@ =~= lc_all(v@.subrange(0, k + 1)));
        }
        k = k + 1;
    }
    proof {
        assert(v@.subrange(0, n as int) =~= v@);
    }
    r
}

/// After the first `-->` from `k` on, or the end.
pub open spec fn comment_end(s: Seq<u8>, k: int) -> int
    decreases s.len() - k,
{
    if k < 0 || s.len() - k < 3 {
        s.len() as int
    } else if s[k] == 0x2D && s[k + 1] == 0x2D && s[k + 2] == 0x3E {
        k + 3
    } else {
        comment_end(s, k + 1)
    }
}

/// A comment `<!--` starts at `i`.
pub open spec fn comment_at(s: Seq<u8>, i: int) -> bool {
    &&& 0 <= i
    &&& i + 4 <= s.len()
    &&& s[i] == 0x3C
    &&& s[i + 1] == 0x21
    &&& s[i + 2] == 0x2D
    &&& s[i + 3] == 0x2D
}

pub proof fn lemma_comment_end(s: Seq<u8>, k: int)
    requires
        0 <= k < s.len(),
    ensures
        k < comment_end(s, k) <= s.len(),
    decreases s.len() - k,
{
    if s.len() - k >= 3 && !(s[k] == 0x2D && s[k + 1] == 0x2D && s[k + 2] == 0x3E) {
        lemma_comment_end(s, k + 1);
    }
}

/// Where a comment that starts at `i` ends: after the first `-->` from `i`, or the end.
pub(crate) fn skip_comment(s: &[u8], i: usize) -> (r: usize)
    requires
        i < s@.len(),
    ensures
        r == comment_end(s@, i as int),
        i < r <= s@.len(),
{
    proof {
        lemma_comment_end(s@, i as int);
    }
    let n = s.len();
    let mut k = i;
    while n - k >= 3
        invariant
            i <= k <= n,
            n == s@.len(),
            comment_end(s@, k as int) == comment_end(s@, i as int),
        decreases n - k,
    {
        if s[k] == 0x2D && s[k + 1] == 0x2D && s[k + 2] == 0x3E {
            return k + 3;
        }
        k = k + 1;
    }
    n
}

pub(crate) fn starts_comment(s: &[u8], i: usize) -> (r: bool)
    requires
        i < s@.len(),
    ensures
        r == comment_at(s@, i as int),
{
    s.len() - i >= 4 && s[i] == 0x3C && s[i + 1] == 0x21 && s[i + 2] == 0x2D && s[i + 3] == 0x2D
}

/// The name and attributes of the tag whose `<` is at `i`.
pub open spec fn tag_at(s: Seq<u8>, i: int) -> (Seq<u8>, Seq<(Seq<u8>, Seq<u8>)>) {
    (latin1_utf8(lc_all(s.subrange(i + 1, name_end(s, i + 1)))), attrs_from(s, name_end(s, i + 1)).0)
}

pub proof fn lemma_tag_end(s: Seq<u8>, i: int)
    requires
        0 <= i < s.len(),
    ensures
        i < tag_end(s, i) <= s.len(),
{
    lemma_scan_bounds(s, i + 1);
    lemma_attrs_end(s, name_end(s, i + 1));
}

/// The tags a scan from `i` meets, in order: text between tags is passed over, and so
/// is each comment.
pub open spec fn tags_from(s: Seq<u8>, i: int) -> Seq<(Seq<u8>, Seq<(Seq<u8>, Seq<u8>)>)>
    decreases s.len() - i,
{
    if i < 0 || i >= s.len() {
        Seq::empty()
    } else if s[i] != 0x3C {
        tags_from(s, i + 1)
    } else if comment_at(s, i) {
        proof {
            lemma_comment_end(s, i);
        }
        tags_from(s, comment_end(s, i))
    } else {
        proof {
            lemma_tag_end(s, i);
        }
        seq![tag_at(s, i)] + tags_from(s, tag_end(s, i))
    }
}

/// The value of the first pair named `name` from `i` on, if any.
pub open spec fn lookup_v_from(ps: Seq<(Seq<u8>, Seq<u8>)>, name: Seq<u8>, i: int) -> Option<Seq<u8>>
    decreases ps.len() - i,
{
    if i < 0 || i >= ps.len() {
        None
    } else if ps[i].0 == name {
        Some(ps[i].1)
    } else {
        lookup_v_from(ps, name, i + 1)
    }
}

/// The value of the first pair named `name`; empty when there is none.
pub open spec fn lookup_v(ps: Seq<(Seq<u8>, Seq<u8>)>, name: Seq<u8>) -> Seq<u8> {
    match lookup_v_from(ps, name, 0) {
        Some(v) => v,
        None => Seq::empty(),
    }
}

proof fn lemma_lookup_views(ps: Seq<(Vec<u8>, Vec<u8>)>, name: Seq<u8>, i: int)
    requires
        0 <= i,
    ensures
        lookup_from(ps, name, i) == lookup_v_from(attr_views(ps), name, i),
    decreases ps.len() - i,
{
    if i < ps.len() {
        lemma_lookup_views(ps, name, i + 1);
    }
}

/// What `attr` gives, by the attributes' contents.
proof fn lemma_attr_view(t: Tag, name: Seq<u8>)
    ensures
        lookup(t.attrs@, name) == lookup_v(attr_views(t.attrs@), name),
{
    lemma_lookup_views(t.attrs@, name, 0);
}

/// The keyword and ALink values of the `param` tags inside `<object>` ... `</object>`
/// among `ts` (empty values left out), in order; `inside` tells whether an object is
/// open before the first.
pub open spec fn link_values(ts: Seq<(Seq<u8>, Seq<(Seq<u8>, Seq<u8>)>)>, inside: bool) -> (Seq<Seq<u8>>, Seq<Seq<u8>>)
    decreases ts.len(),
{
    if ts.len() == 0 {
        (Seq::empty(), Seq::empty())
    } else {
        let name = ts[0].0;
        let attrs = ts[0].1;
        if name == "object".spec_bytes() {
            link_values(ts.drop_first(), true)
        } else if name == "/object".spec_bytes() {
            link_values(ts.drop_first(), false)
        } else if inside && name == "param".spec_bytes() {
            let pn = lc_all(lookup_v(attrs, "name".spec_bytes()));
            let v = lookup_v(attrs, "value".spec_bytes());
            let rest = link_values(ts.drop_first(), inside);
            if v.len() > 0 && pn == "keyword".spec_bytes() {
                (seq![v] + rest.0, rest.1)
            } else if v.len() > 0 && pn == "alink name".spec_bytes() {
                (rest.0, seq![v] + rest.1)
            } else {
                rest
            }
        } else {
            link_values(ts.drop_first(), inside)
        }
    }
}

/// The contents of each vector.
pub open spec fn views(v: Seq<Vec<u8>>) -> Seq<Seq<u8>> {
    Seq::new(v.len(), |k: int| v[k]@)
}

#[derive(PartialEq, Eq, Structural)]
enum ObjMode {
    NoObject,
    Sitemap,
    Properties,
}

fn new_item() -> (it: SiteMapItem)
    ensures
        it.params@.len() == 0,
        it.children@.len() == 0,
{
    SiteMapItem { params: Vec::new(), children: Vec::new() }
}

/// A sitemap entry by its contents: its parameters and the entries under it.
pub struct ItemView {
    pub params: Seq<(Seq<u8>, Seq<u8>)>,
    pub children: Seq<ItemView>,
}

/// The contents of an entry.
pub open spec fn item_view(it: SiteMapItem) -> ItemView
    decreases it,
{
    ItemView {
        params: attr_views(it.params@),
        children: Seq::new(
            it.children@.len(),
            |k: int|
                {
                    if 0 <= k < it.children@.len() {
                        item_view(it.children@[k])
                    } else {
                        ItemView { params: Seq::empty(), children: Seq::empty() }
                    }
                },
        ),
    }
}

/// The contents of a run of entries.
pub open spec fn items_view(v: Seq<SiteMapItem>) -> Seq<ItemView> {
    Seq::new(v.len(), |k: int| item_view(v[k]))
}

/// Where a sitemap parse stands: the open lists (innermost last), the kind of the
/// open object (0 none, 1 an entry, 2 site properties), the open entry's parameters,
/// and the site properties so far.
pub struct SiteState {
    pub stack: Seq<Seq<ItemView>>,
    pub mode: int,
    pub pending: Seq<(Seq<u8>, Seq<u8>)>,
    pub props: Seq<(Seq<u8>, Seq<u8>)>,
}

/// The state before the first tag: one empty list, no object open.
pub open spec fn site_start() -> SiteState {
    SiteState { stack: seq![Seq::empty()], mode: 0, pending: Seq::empty(), props: Seq::empty() }
}

/// One tag of a sitemap: `<ul>` opens a list; `</ul>` closes the innermost list (when
/// it is not the outermost) and makes it the children of the last entry of the list
/// around it, or, when that list is empty, adds its entries there; an `<object>` of
/// type `text/sitemap` opens an entry and one of type `text/site properties` opens the
/// properties; a named `<param>` adds to what is open; `</object>` closes it, an open
/// entry joining the innermost list.
pub open spec fn site_step(t: (Seq<u8>, Seq<(Seq<u8>, Seq<u8>)>), st: SiteState) -> SiteState {
    let name = t.0;
    let attrs = t.1;
    if name == "ul".spec_bytes() {
        SiteState { stack: st.stack.push(Seq::empty()), mode: st.mode, pending: st.pending, props: st.props }
    } else if name == "/ul".spec_bytes() {
        if st.stack.len() > 1 {
            let children = st.stack.last();
            let top = st.stack[st.stack.len() - 2];
            let joined = if top.len() > 0 {
                top.drop_last().push(ItemView { params: top.last().params, children: children })
            } else {
                top + children
            };
            SiteState {
                stack: st.stack.drop_last().drop_last().push(joined),
                mode: st.mode,
                pending: st.pending,
                props: st.props,
            }
        } else {
            st
        }
    } else if name == "object".spec_bytes() {
        let ty = lc_all(lookup_v(attrs, "type".spec_bytes()));
        if ty == "text/sitemap".spec_bytes() {
            SiteState { stack: st.stack, mode: 1, pending: Seq::empty(), props: st.props }
        } else if ty == "text/site properties".spec_bytes() {
            SiteState { stack: st.stack, mode: 2, pending: st.pending, props: st.props }
        } else {
            st
        }
    } else if name == "param".spec_bytes() {
        let pn = lc_all(lookup_v(attrs, "name".spec_bytes()));
        let v = lookup_v(attrs, "value".spec_bytes());
        if st.mode != 0 && pn.len() > 0 {
            if st.mode == 1 {
                SiteState { stack: st.stack, mode: st.mode, pending: st.pending.push((pn, v)), props: st.props }
            } else {
                SiteState { stack: st.stack, mode: st.mode, pending: st.pending, props: st.props.push((pn, v)) }
            }
        } else {
            st
        }
    } else if name == "/object".spec_bytes() {
        if st.mode == 1 {
            SiteState {
                stack: st.stack.update(
                    st.stack.len() - 1,
                    st.stack.last().push(ItemView { params: st.pending, children: Seq::empty() }),
                ),
                mode: 0,
                pending: Seq::empty(),
                props: st.props,
            }
        } else {
            SiteState { stack: st.stack, mode: 0, pending: st.pending, props: st.props }
        }
    } else {
        st
    }
}

/// The state after the tags `ts`, from `st`.
pub open spec fn site_run(ts: Seq<(Seq<u8>, Seq<(Seq<u8>, Seq<u8>)>)>, st: SiteState) -> SiteState
    decreases ts.len(),
{
    if ts.len() == 0 {
        st
    } else {
        site_run(ts.drop_first(), site_step(ts[0], st))
    }
}

spec fn mode_num(m: ObjMode) -> int {
    match m {
        ObjMode::NoObject => 0,
        ObjMode::Sitemap => 1,
        ObjMode::Properties => 2,
    }
}

spec fn stack_view(st: Seq<Vec<SiteMapItem>>) -> Seq<Seq<ItemView>> {
    Seq::new(st.len(), |k: int| items_view(st[k]@))
}

/// Parses a sitemap: `<ul>` opens a list under the last entry of the current list,
/// `</ul>` closes it (a list with no entry to hang under joins its parent list); an
/// `<object type="text/sitemap">` becomes an entry with its `<param>`s, an
/// `<object type="text/site properties">` gives site properties. Comments are skipped.
pub fn parse_sitemap(data: &[u8]) -> (sm: SiteMap)
    ensures
        items_view(sm.items@) == site_run(tags_from(data@, 0), site_start()).stack[0],
        attr_views(sm.properties@) == site_run(tags_from(data@, 0), site_start()).props,
        forall|k: int| 0 <= k < sm.properties@.len() ==> (#[trigger] sm.properties@[k]).0@.len() > 0,
{
    let s = data;
    let n = s.len();
    let mut properties: Vec<(Vec<u8>, Vec<u8>)> = Vec::new();
    let mut stack: Vec<Vec<SiteMapItem>> = Vec::new();
    stack.push(Vec::new());
    let mut mode = ObjMode::NoObject;
    let mut pending = new_item();
    let mut i: usize = 0;
    let ghost fin = site_run(tags_from(s@, 0), site_start());
    proof {
        assert(stack_view(stack@) =~= site_start().stack) by {
            assert(items_view(stack@[0]@) =~= Seq::<ItemView>::empty());
        }
        assert(attr_views(pending.params@) =~= Seq::<(Seq<u8>, Seq<u8>)>::empty());
        assert(attr_views(properties@) =~= Seq::<(Seq<u8>, Seq<u8>)>::empty());
    }
    while i < n
        invariant
            i <= n,
            n == s@.len(),
            stack@.len() >= 1,
            pending.children@.len() == 0,
            forall|k: int| 0 <= k < properties@.len() ==> (#[trigger] properties@[k]).0@.len() > 0,
            fin == site_run(tags_from(s@, 0), site_start()),
            site_run(
                tags_from(s@, i as int),
                SiteState {
                    stack: stack_view(stack@),
                    mode: mode_num(mode),
                    pending: attr_views(pending.params@),
                    props: attr_views(properties@),
                },
            ) == fin,
        decreases n - i,
    {
        if s[i] != 0x3C {
            i = i + 1;
            continue;
        }
        if starts_comment(s, i) {
            i = skip_comment(s, i);
            continue;
        }
        let ghost rest = tags_from(s@, tag_end(s@, i as int));
        let ghost ts = tags_from(s@, i as int);
        let ghost st0 = SiteState {
            stack: stack_view(stack@),
            mode: mode_num(mode),
            pending: attr_views(pending.params@),
            props: attr_views(properties@),
        };
        let (t, q) = parse_tag(s, i);
        proof {
            assert(ts == seq![tag_at(s@, i as int)] + rest);
            assert(ts[0] == tag_at(s@, i as int));
            assert(ts.drop_first() =~= rest);
            assert(site_run(ts, st0) == site_run(rest, site_step(ts[0], st0)));
            lemma_attr_view(t, "name".spec_bytes());
            lemma_attr_view(t, "value".spec_bytes());
            lemma_attr_view(t, "type".spec_bytes());
        }
        i = q;
        if same_bytes(&t.name, "ul".as_bytes()) {
            stack.push(Vec::new());
            proof {
                assert(stack_view(stack@) =~= st0.stack.push(Seq::empty())) by {
                    assert(items_view(stack@.last()@) =~= Seq::<ItemView>::empty());
                }
            }
        } else if same_bytes(&t.name, "/ul".as_bytes()) {
            if stack.len() > 1 {
                let ghost sv = stack@;
                let mut children = stack.pop().unwrap();
                let mut top = stack.pop().unwrap();
                let ghost cv = items_view(children@);
                let ghost tv = items_view(top@);
                proof {
                    assert(cv == st0.stack.last());
                    assert(tv == st0.stack[st0.stack.len() - 2]);
                }
                if top.len() > 0 {
                    let mut parent = top.pop().unwrap();
                    let ghost pv = item_view(parent);
                    parent.children = children;
                    proof {
                        assert(item_view(parent).children =~= cv);
                        assert(item_view(parent) == ItemView { params: pv.params, children: cv });
                    }
                    top.push(parent);
                    proof {
                        assert(items_view(top@) =~= tv.drop_last().push(ItemView { params: tv.last().params, children: cv }));
                    }
                } else {
                    top.append(&mut children);
                    proof {
                        assert(items_view(top@) =~= tv + cv);
                    }
                }
                stack.push(top);
                proof {
                    assert(stack_view(stack@) =~= st0.stack.drop_last().drop_last().push(items_view(stack@.last()@)));
                }
            }
        } else if same_bytes(&t.name, "object".as_bytes()) {
            let ty = lower_vec(&attr(&t, "type".as_bytes()));
            if same_bytes(&ty, "text/sitemap".as_bytes()) {
                mode = ObjMode::Sitemap;
                pending = new_item();
                proof {
                    assert(attr_views(pending.params@) =~= Seq::<(Seq<u8>, Seq<u8>)>::empty());
                }
            } else if same_bytes(&ty, "text/site properties".as_bytes()) {
                mode = ObjMode::Properties;
            }
        } else if same_bytes(&t.name, "param".as_bytes()) {
            if mode != ObjMode::NoObject {
                let pname = lower_vec(&attr(&t, "name".as_bytes()));
                let value = attr(&t, "value".as_bytes());
                if pname.len() > 0 {
                    if mode == ObjMode::Sitemap {
                        let ghost pp = attr_views(pending.params@);
                        pending.params.push((pname, value));
                        proof {
                            assert(attr_views(pending.params@) =~= pp.push((pname@, value@)));
                        }
                    } else {
                        let ghost pr = attr_views(properties@);
                        properties.push((pname, value));
                        proof {
                            assert(attr_views(properties@) =~= pr.push((pname@, value@)));
                        }
                    }
                }
            }
        } else if same_bytes(&t.name, "/object".as_bytes()) {
            if mode == ObjMode::Sitemap {
                let item = pending;
                pending = new_item();
                let ghost iv = item_view(item);
                proof {
                    assert(iv.children =~= Seq::<ItemView>::empty());
                    assert(iv == ItemView { params: st0.pending, children: Seq::empty() });
                    assert(attr_views(pending.params@) =~= Seq::<(Seq<u8>, Seq<u8>)>::empty());
                }
                let mut top = stack.pop().unwrap();
                let ghost tv = items_view(top@);
                top.push(item);
                proof {
                    assert(items_view(top@) =~= tv.push(iv));
                }
                stack.push(top);
                proof {
                    assert(stack_view(stack@) =~= st0.stack.update(st0.stack.len() - 1, tv.push(iv)));
                }
            }
            mode = ObjMode::NoObject;
        }
    }
    let ghost sv = stack@;
    proof {
        assert(tags_from(s@, i as int) =~= Seq::<(Seq<u8>, Seq<(Seq<u8>, Seq<u8>)>)>::empty());
        assert(stack_view(sv)[0] == items_view(sv[0]@));
    }
    let items = stack.remove(0);
    SiteMap { items, properties }
}

/// The keywords and ALink names of the `<param>`s inside `<object>` controls (those
/// with a non-empty value), in order.
pub fn scan_link_objects(data: &[u8]) -> (lo: LinkObjects)
    ensures
        views(lo.keywords@) == link_values(tags_from(data@, 0), false).0,
        views(lo.alinks@) == link_values(tags_from(data@, 0), false).1,
{
    let s = data;
    let n = s.len();
    let mut keywords: Vec<Vec<u8>> = Vec::new();
    let mut alinks: Vec<Vec<u8>> = Vec::new();
    let mut in_object = false;
    let mut i: usize = 0;
    let ghost all = link_values(tags_from(s@, 0), false);
    proof {
        assert(views(keywords@) =~= Seq::<Seq<u8>>::empty());
        assert(views(alinks@) =~= Seq::<Seq<u8>>::empty());
        assert(views(keywords@) + all.0 =~= all.0);
        assert(views(alinks@) + all.1 =~= all.1);
    }
    while i < n
        invariant
            i <= n,
            n == s@.len(),
            all == link_values(tags_from(s@, 0), false),
            views(keywords@) + link_values(tags_from(s@, i as int), in_object).0 == all.0,
            views(alinks@) + link_values(tags_from(s@, i as int), in_object).1 == all.1,
        decreases n - i,
    {
        if s[i] != 0x3C {
            i = i + 1;
            continue;
        }
        if starts_comment(s, i) {
            i = skip_comment(s, i);
            continue;
        }
        let ghost rest = tags_from(s@, tag_end(s@, i as int));
        let ghost ts = tags_from(s@, i as int);
        let ghost kw0 = views(keywords@);
        let ghost al0 = views(alinks@);
        let ghost in0 = in_object;
        let (t, q) = parse_tag(s, i);
        proof {
            assert(ts == seq![tag_at(s@, i as int)] + rest);
            assert(ts[0] == tag_at(s@, i as int));
            assert(ts.drop_first() =~= rest);
            lemma_attr_view(t, "name".spec_bytes());
            lemma_attr_view(t, "value".spec_bytes());
        }
        i = q;
        if same_bytes(&t.name, "object".as_bytes()) {
            in_object = true;
        } else if same_bytes(&t.name, "/object".as_bytes()) {
            in_object = false;
        } else if in_object && same_bytes(&t.name, "param".as_bytes()) {
            let pname = lower_vec(&attr(&t, "name".as_bytes()));
            let value = attr(&t, "value".as_bytes());
            if value.len() > 0 {
                if same_bytes(&pname, "keyword".as_bytes()) {
                    keywords.push(value);
                    proof {
                        assert(views(keywords@) =~= kw0.push(value@));
                        assert(views(keywords@) + link_values(rest, in_object).0 =~= kw0 + link_values(ts, in0).0);
                    }
                } else if same_bytes(&pname, "alink name".as_bytes()) {
                    alinks.push(value);
                    proof {
                        assert(views(alinks@) =~= al0.push(value@));
                        assert(views(alinks@) + link_values(rest, in_object).1 =~= al0 + link_values(ts, in0).1);
                    }
                }
            }
        }
    }
    proof {
        assert(views(keywords@) + Seq::<Seq<u8>>::empty() =~= views(keywords@));
        assert(views(alinks@) + Seq::<Seq<u8>>::empty() =~= views(alinks@));
    }
    LinkObjects { keywords, alinks }
}

/// The five named entities decode to their characters wherever they stand, and
/// decoding goes on right after them: `&amp;` is `&`, `&lt;` is `<`, `&gt;` is `>`,
/// `&quot;` is `"` and `&apos;` is `'`.
pub proof fn lemma_named_entities(b: Seq<u8>, i: int)
    requires
        0 <= i,
    ensures
        i + 4 <= b.len() && b[i] == 0x26 && b[i + 1] == 0x67 && b[i + 2] == 0x74 && b[i + 3] == 0x3B
            ==> decode_from(b, i) == seq![0x3Eu8] + decode_from(b, i + 4),
        i + 4 <= b.len() && b[i] == 0x26 && b[i + 1] == 0x6C && b[i + 2] == 0x74 && b[i + 3] == 0x3B
            ==> decode_from(b, i) == seq![0x3Cu8] + decode_from(b, i + 4),
        i + 5 <= b.len() && b[i] == 0x26 && b[i + 1] == 0x61 && b[i + 2] == 0x6D && b[i + 3] == 0x70 && b[i + 4] == 0x3B
            ==> decode_from(b, i) == seq![0x26u8] + decode_from(b, i + 5),
        i + 6 <= b.len() && b[i] == 0x26 && b[i + 1] == 0x71 && b[i + 2] == 0x75 && b[i + 3] == 0x6F && b[i + 4] == 0x74
            && b[i + 5] == 0x3B ==> decode_from(b, i) == seq![0x22u8] + decode_from(b, i + 6),
        i + 6 <= b.len() && b[i] == 0x26 && b[i + 1] == 0x61 && b[i + 2] == 0x70 && b[i + 3] == 0x6F && b[i + 4] == 0x73
            && b[i + 5] == 0x3B ==> decode_from(b, i) == seq![0x27u8] + decode_from(b, i + 6),
{
    assert("amp".spec_bytes() =~= seq![0x61u8, 0x6D, 0x70]) by {
        reveal_strlit("amp");
        vstd::string::is_ascii_spec_bytes("amp");
    }
    assert("lt".spec_bytes() =~= seq![0x6Cu8, 0x74]) by {
        reveal_strlit("lt");
        vstd::string::is_ascii_spec_bytes("lt");
    }
    assert("gt".spec_bytes() =~= seq![0x67u8, 0x74]) by {
        reveal_strlit("gt");
        vstd::string::is_ascii_spec_bytes("gt");
    }
    assert("quot".spec_bytes() =~= seq![0x71u8, 0x75, 0x6F, 0x74]) by {
        reveal_strlit("quot");
        vstd::string::is_ascii_spec_bytes("quot");
    }
    assert("apos".spec_bytes() =~= seq![0x61u8, 0x70, 0x6F, 0x73]) by {
        reveal_strlit("apos");
        vstd::string::is_ascii_spec_bytes("apos");
    }
    if i + 4 <= b.len() && b[i] == 0x26 && b[i + 1] == 0x67 && b[i + 2] == 0x74 && b[i + 3] == 0x3B {
        lemma_semi_at(b, i, 3);
        assert(b.subrange(i + 1, i + 3) =~= seq![0x67u8, 0x74]);
    }
    if i + 4 <= b.len() && b[i] == 0x26 && b[i + 1] == 0x6C && b[i + 2] == 0x74 && b[i + 3] == 0x3B {
        lemma_semi_at(b, i, 3);
        assert(b.subrange(i + 1, i + 3) =~= seq![0x6Cu8, 0x74]);
    }
    if i + 5 <= b.len() && b[i] == 0x26 && b[i + 1] == 0x61 && b[i + 2] == 0x6D && b[i + 3] == 0x70 && b[i + 4] == 0x3B {
        lemma_semi_at(b, i, 4);
        assert(b.subrange(i + 1, i + 4) =~= seq![0x61u8, 0x6D, 0x70]);
    }
    if i + 6 <= b.len() && b[i] == 0x26 && b[i + 1] == 0x71 && b[i + 2] == 0x75 && b[i + 3] == 0x6F && b[i + 4] == 0x74
        && b[i + 5] == 0x3B {
        lemma_semi_at(b, i, 5);
        assert(b.subrange(i + 1, i + 5) =~= seq![0x71u8, 0x75, 0x6F, 0x74]);
    }
    if i + 6 <= b.len() && b[i] == 0x26 && b[i + 1] == 0x61 && b[i + 2] == 0x70 && b[i + 3] == 0x6F && b[i + 4] == 0x73
        && b[i + 5] == 0x3B {
        lemma_semi_at(b, i, 5);
        assert(b.subrange(i + 1, i + 5) =~= seq![0x61u8, 0x70, 0x6F, 0x73]);
    }
}

/// The UTF-8 form of a character from 1 to 255.
pub open spec fn char_utf8(v: int) -> Seq<u8> {
    if v < 0x80 { seq![v as u8] } else { seq![(0xC0 + v / 64) as u8, (0x80 + v % 64) as u8] }
}

/// A byte that starts no entity is taken as the Latin-1 character it is.
pub proof fn lemma_plain_byte(b: Seq<u8>, i: int)
    requires
        0 <= i < b.len(),
        b[i] != 0x26,
    ensures
        decode_from(b, i) == char_utf8(b[i] as int) + decode_from(b, i + 1),
{
}

/// A three-digit decimal character reference `&#ddd;` for a code from 1 to 255
/// decodes to that character.
pub proof fn lemma_decimal_reference(b: Seq<u8>, i: int)
    requires
        0 <= i,
        i + 7 <= b.len(),
        b[i] == 0x26,
        b[i + 1] == 0x23,
        0x30 <= b[i + 2] <= 0x39,
        0x30 <= b[i + 3] <= 0x39,
        0x30 <= b[i + 4] <= 0x39,
        b[i + 5] == 0x3B,
        0 < (b[i + 2] - 0x30) * 100 + (b[i + 3] - 0x30) * 10 + (b[i + 4] - 0x30) < 256,
    ensures
        decode_from(b, i) == char_utf8((b[i + 2] - 0x30) * 100 + (b[i + 3] - 0x30) * 10 + (b[i + 4] - 0x30))
            + decode_from(b, i + 6),
{
    reveal_strlit("amp");
    reveal_strlit("lt");
    reveal_strlit("gt");
    reveal_strlit("quot");
    reveal_strlit("apos");
    lemma_semi_at(b, i, 5);
    let ent = b.subrange(i + 1, i + 5);
    let num = ent.subrange(1, 4);
    assert(num =~= seq![b[i + 2], b[i + 3], b[i + 4]]);
    assert(num.drop_last() =~= seq![b[i + 2], b[i + 3]]);
    assert(num.drop_last().drop_last() =~= seq![b[i + 2]]);
    assert(num.drop_last().drop_last().drop_last() =~= Seq::<u8>::empty());
    assert(ent.len() == 4 && ent[0] == 0x23 && ent[1] != 0x78 && ent[1] != 0x58);
    assert(ent != "amp".spec_bytes() && ent != "lt".spec_bytes() && ent != "gt".spec_bytes()) by {
        assert("amp"@.len() == 3);
        assert("lt"@.len() == 2);
        assert("gt"@.len() == 2);
        vstd::string::is_ascii_spec_bytes("amp");
        vstd::string::is_ascii_spec_bytes("lt");
        vstd::string::is_ascii_spec_bytes("gt");
    }
    assert(ent != "quot".spec_bytes() && ent != "apos".spec_bytes()) by {
        vstd::string::is_ascii_spec_bytes("quot");
        vstd::string::is_ascii_spec_bytes("apos");
        assert("quot".spec_bytes()[0] == 0x71);
        assert("apos".spec_bytes()[0] == 0x61);
    }
    let v = (b[i + 2] - 0x30) * 100 + (b[i + 3] - 0x30) * 10 + (b[i + 4] - 0x30);
    assert(radix_val(num.drop_last().drop_last().drop_last(), 10) == 0);
    assert(radix_val(num.drop_last().drop_last(), 10) == b[i + 2] - 0x30);
    assert(radix_val(num.drop_last(), 10) == (b[i + 2] - 0x30) * 10 + (b[i + 3] - 0x30));
    assert(radix_val(num, 10) == v);
    assert(utf8_of(v as u32) == char_utf8(v));
}

/// The value of hex digit `c` of either case.
pub open spec fn hex_digit_value(c: u8) -> int {
    if 0x30 <= c <= 0x39 { c - 0x30 } else if 0x61 <= c <= 0x66 { c - 0x61 + 10 } else { c - 0x41 + 10 }
}

/// An ASCII hex digit of either case.
pub open spec fn is_hex_digit(c: u8) -> bool {
    (0x30 <= c <= 0x39) || (0x61 <= c <= 0x66) || (0x41 <= c <= 0x46)
}

/// A two-digit hex character reference `&#xhh;` (`x` or `X`, digits of either case)
/// for a code from 1 to 255 decodes to that character.
pub proof fn lemma_hex_reference(b: Seq<u8>, i: int)
    requires
        0 <= i,
        i + 6 <= b.len(),
        b[i] == 0x26,
        b[i + 1] == 0x23,
        b[i + 2] == 0x78 || b[i + 2] == 0x58,
        is_hex_digit(b[i + 3]),
        is_hex_digit(b[i + 4]),
        b[i + 5] == 0x3B,
        0 < hex_digit_value(b[i + 3]) * 16 + hex_digit_value(b[i + 4]),
    ensures
        decode_from(b, i) == char_utf8(hex_digit_value(b[i + 3]) * 16 + hex_digit_value(b[i + 4])) + decode_from(b, i + 6),
{
    lemma_semi_at(b, i, 5);
    let ent = b.subrange(i + 1, i + 5);
    let num = ent.subrange(2, 4);
    assert(num =~= seq![b[i + 3], b[i + 4]]);
    assert(num.drop_last() =~= seq![b[i + 3]]);
    assert(num.drop_last().drop_last() =~= Seq::<u8>::empty());
    assert(ent != "amp".spec_bytes() && ent != "lt".spec_bytes() && ent != "gt".spec_bytes() && ent != "quot".spec_bytes()
        && ent != "apos".spec_bytes()) by {
        named_entity_bytes();
    }
    assert(radix_val(num.drop_last().drop_last(), 16) == 0);
    assert(radix_val(num.drop_last(), 16) == hex_digit_value(b[i + 3]));
    let v = hex_digit_value(b[i + 3]) * 16 + hex_digit_value(b[i + 4]);
    assert(radix_val(num, 16) == v);
    assert(utf8_of(v as u32) == char_utf8(v));
}

/// An entity whose name starts with a letter other than `a`, `g`, `l` or `q` (so is
/// none of the five named ones) is kept as written, its `;` included.
pub proof fn lemma_unknown_entity_kept(b: Seq<u8>, i: int, k: int)
    requires
        0 <= i,
        2 <= k <= 10,
        i + k < b.len(),
        b[i] == 0x26,
        b[i + k] == 0x3B,
        forall|j: int| i <= j < i + k ==> b[j] != 0x3B,
        (0x61 <= b[i + 1] <= 0x7A || 0x41 <= b[i + 1] <= 0x5A),
        b[i + 1] != 0x61 && b[i + 1] != 0x67 && b[i + 1] != 0x6C && b[i + 1] != 0x71,
    ensures
        decode_from(b, i) == b.subrange(i, i + k + 1) + decode_from(b, i + k + 1),
{
    lemma_semi_at(b, i, k);
    let ent = b.subrange(i + 1, i + k);
    assert(ent[0] == b[i + 1]);
    named_entity_bytes();
}

/// The bytes of the five entity names.
proof fn named_entity_bytes()
    ensures
        "amp".spec_bytes() == seq![0x61u8, 0x6D, 0x70],
        "lt".spec_bytes() == seq![0x6Cu8, 0x74],
        "gt".spec_bytes() == seq![0x67u8, 0x74],
        "quot".spec_bytes() == seq![0x71u8, 0x75, 0x6F, 0x74],
        "apos".spec_bytes() == seq![0x61u8, 0x70, 0x6F, 0x73],
{
    reveal_strlit("amp");
    reveal_strlit("lt");
    reveal_strlit("gt");
    reveal_strlit("quot");
    reveal_strlit("apos");
    vstd::string::is_ascii_spec_bytes("amp");
    vstd::string::is_ascii_spec_bytes("lt");
    vstd::string::is_ascii_spec_bytes("gt");
    vstd::string::is_ascii_spec_bytes("quot");
    vstd::string::is_ascii_spec_bytes("apos");
    assert("amp".spec_bytes() =~= seq![0x61u8, 0x6D, 0x70]);
    assert("lt".spec_bytes() =~= seq![0x6Cu8, 0x74]);
    assert("gt".spec_bytes() =~= seq![0x67u8, 0x74]);
    assert("quot".spec_bytes() =~= seq![0x71u8, 0x75, 0x6F, 0x74]);
    assert("apos".spec_bytes() =~= seq![0x61u8, 0x70, 0x6F, 0x73]);
}

/// The first `;` from `i` on is at `i + k` when the `k - 1` bytes before it are not `;`.
proof fn lemma_semi_at(b: Seq<u8>, i: int, k: int)
    requires
        0 <= i,
        1 <= k,
        i + k < b.len(),
        b[i + k] == 0x3B,
        forall|j: int| i <= j < i + k ==> b[j] != 0x3B,
    ensures
        find_semi(b, i) == i + k,
    decreases k,
{
    if k > 1 {
        lemma_semi_at(b, i + 1, k - 1);
    } else {
        assert(find_semi(b, i + 1) == i + 1);
    }
}

} // verus!
