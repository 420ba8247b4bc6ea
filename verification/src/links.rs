//! What the compiler reads from topic files: whether a file is a topic, its title,
//! and the files its `href` and `src` attributes refer to, resolved against the
//! topic's directory.
use vstd::prelude::*;
use vstd::string::StringSliceAdditionalSpecFns;
use crate::hhp::{find_byte, find_byte_exec};
use crate::sitemap::{copy_range, copy_vec};
use crate::strutil::{contains_bytes, contains_seq, find_bytes, find_from, lower, slashes, slashes_spec, trim, trimmed};
use crate::textenc::{decode_text, encode_codepage, encoded, lc_seq, tables_ok, text_cps, CodepageTable};

verus! {

/// A topic file: its name has `.ht` and is no contents or index file, ASCII case
/// ignored.
pub open spec fn html_name(name: Seq<u8>) -> bool {
    let l = lc_seq(name);
    contains_seq(l, ".ht".spec_bytes()) && !contains_seq(l, ".hhc".spec_bytes()) && !contains_seq(l, ".hhk".spec_bytes())
}

/// Whether `name` names a topic file.
pub fn is_html_name(name: &[u8]) -> (r: bool)
    ensures
        r == html_name(name@),
{
    let l = lower(name);
    contains_bytes(&l, ".ht".as_bytes()) && !contains_bytes(&l, ".hhc".as_bytes()) && !contains_bytes(
        &l,
        ".hhk".as_bytes(),
    )
}

/// A byte of a word: an ASCII letter or digit, `-` or `_`.
pub open spec fn word_byte(c: u8) -> bool {
    (0x30 <= c <= 0x39) || (0x41 <= c <= 0x5A) || (0x61 <= c <= 0x7A) || c == 0x2D || c == 0x5F
}

fn is_word_char_b(c: u8) -> (r: bool)
    ensures
        r == word_byte(c),
{
    (0x30 <= c && c <= 0x39) || (0x41 <= c && c <= 0x5A) || (0x61 <= c && c <= 0x7A) || c == 0x2D
        || c == 0x5F
}

/// ASCII whitespace as HTML attributes take it: space, tab, line feed, form feed,
/// carriage return.
pub open spec fn html_ws(c: u8) -> bool {
    c == 0x20 || c == 0x09 || c == 0x0A || c == 0x0C || c == 0x0D
}

/// The first index at or after `i` that is no whitespace.
pub open spec fn skip_html_ws(s: Seq<u8>, i: int) -> int
    decreases s.len() - i,
{
    if i < 0 || i >= s.len() || !html_ws(s[i]) {
        i
    } else {
        skip_html_ws(s, i + 1)
    }
}

/// The first index at or after `i` holding `q`, or the end.
pub open spec fn until_byte(s: Seq<u8>, q: u8, i: int) -> int {
    find_byte(s, q, i)
}

/// Where a bare attribute value starting at `i` ends: at `>`, whitespace or the end.
pub open spec fn bare_end(s: Seq<u8>, i: int) -> int
    decreases s.len() - i,
{
    if i < 0 || i >= s.len() || s[i] == 0x3E || html_ws(s[i]) {
        i
    } else {
        bare_end(s, i + 1)
    }
}

/// The value of an attribute whose name ends at `p`: `=` after optional whitespace,
/// then a quoted value (to the closing quote or the end) or a bare one.
pub open spec fn attr_value(s: Seq<u8>, p: int) -> Option<Seq<u8>> {
    let i = skip_html_ws(s, p);
    if i >= s.len() || s[i] != 0x3D {
        None
    } else {
        let j = skip_html_ws(s, i + 1);
        if j < s.len() && (s[j] == 0x22 || s[j] == 0x27) {
            Some(s.subrange(j + 1, until_byte(s, s[j], j + 1)))
        } else {
            Some(s.subrange(j, bare_end(s, j)))
        }
    }
}

/// The non-empty values of the attributes named `key` (matched in the lower-cased
/// text `lc`, not inside a longer word) from `pos` on, in order.
pub open spec fn refs_from(lc: Seq<u8>, s: Seq<u8>, key: Seq<u8>, pos: int) -> Seq<Seq<u8>>
    decreases s.len() + 1 - pos,
{
    match find_from(lc, key, pos) {
        None => Seq::empty(),
        Some(at) => {
            let next = at + key.len();
            let here = if at > 0 && word_byte(lc[at - 1]) {
                Seq::empty()
            } else {
                match attr_value(s, next) {
                    Some(v) => if v.len() > 0 { seq![v] } else { Seq::empty() },
                    None => Seq::empty(),
                }
            };
            if next <= pos || key.len() == 0 || next > s.len() + 1 {
                here
            } else {
                here + refs_from(lc, s, key, next)
            }
        },
    }
}

/// The files a topic refers to: its `href` values, then its `src` values.
pub open spec fn refs_of(html: Seq<u8>) -> Seq<Seq<u8>> {
    refs_from(lc_seq(html), html, "href".spec_bytes(), 0) + refs_from(lc_seq(html), html, "src".spec_bytes(), 0)
}

proof fn lemma_skip_html_ws(s: Seq<u8>, i: int)
    requires
        0 <= i <= s.len(),
    ensures
        i <= skip_html_ws(s, i) <= s.len(),
    decreases s.len() - i,
{
    if i < s.len() && html_ws(s[i]) {
        lemma_skip_html_ws(s, i + 1);
    }
}

proof fn lemma_bare_end(s: Seq<u8>, i: int)
    requires
        0 <= i <= s.len(),
    ensures
        i <= bare_end(s, i) <= s.len(),
    decreases s.len() - i,
{
    if i < s.len() && !(s[i] == 0x3E || html_ws(s[i])) {
        lemma_bare_end(s, i + 1);
    }
}

fn skip_ws_exec(s: &[u8], i: usize) -> (r: usize)
    requires
        i <= s@.len(),
    ensures
        r == skip_html_ws(s@, i as int),
        i <= r <= s@.len(),
{
    proof {
        lemma_skip_html_ws(s@, i as int);
    }
    let mut k = i;
    while k < s.len() && (s[k] == 0x20 || s[k] == 0x09 || s[k] == 0x0A || s[k] == 0x0C || s[k] == 0x0D)
        invariant
            i <= k <= s@.len(),
            skip_html_ws(s@, k as int) == skip_html_ws(s@, i as int),
        decreases s@.len() - k,
    {
        k = k + 1;
    }
    k
}

fn attr_value_exec(s: &[u8], p: usize) -> (r: Option<Vec<u8>>)
    requires
        p <= s@.len(),
    ensures
        match r {
            Some(v) => attr_value(s@, p as int) == Some(v@),
            None => attr_value(s@, p as int) is None,
        },
{
    let i = skip_ws_exec(s, p);
    if i >= s.len() || s[i] != 0x3D {
        return None;
    }
    let j = skip_ws_exec(s, i + 1);
    if j < s.len() && (s[j] == 0x22 || s[j] == 0x27) {
        let q = s[j];
        let e = find_byte_exec(s, q, j + 1);
        Some(copy_range(s, j + 1, e))
    } else {
        proof {
            lemma_bare_end(s@, j as int);
        }
        let mut e = j;
        while e < s.len() && !(s[e] == 0x3E || s[e] == 0x20 || s[e] == 0x09 || s[e] == 0x0A || s[e] == 0x0C
            || s[e] == 0x0D)
            invariant
                j <= e <= s@.len(),
                bare_end(s@, e as int) == bare_end(s@, j as int),
            decreases s@.len() - e,
        {
            e = e + 1;
        }
        Some(copy_range(s, j, e))
    }
}

/// Appends the values of attribute `key` to `out`.
fn scan_key(lc: &Vec<u8>, s: &[u8], key: &[u8], out: &mut Vec<Vec<u8>>)
    requires
        lc@ == lc_seq(s@),
        key@.len() > 0,
    ensures
        final(out)@.len() == old(out)@.len() + refs_from(lc@, s@, key@, 0).len(),
        forall|k: int| 0 <= k < old(out)@.len() ==> #[trigger] final(out)@[k] == old(out)@[k],
        forall|k: int| 0 <= k < refs_from(lc@, s@, key@, 0).len() ==> #[trigger] final(out)@[old(out)@.len() + k]@
            == refs_from(lc@, s@, key@, 0)[k],
{
    let ghost all = refs_from(lc@, s@, key@, 0);
    let ghost o = out@;
    let mut pos: usize = 0;
    loop
        invariant
            lc@ == lc_seq(s@),
            key@.len() > 0,
            all == refs_from(lc@, s@, key@, 0),
            o == old(out)@,
            pos <= s@.len() + 1,
            out@.len() >= o.len(),
            forall|k: int| 0 <= k < o.len() ==> #[trigger] out@[k] == o[k],
            all == Seq::new((out@.len() - o.len()) as nat, |k: int| out@[o.len() + k]@) + refs_from(lc@, s@, key@, pos as int),
        decreases s@.len() + 1 - pos,
    {
        let ghost cur = Seq::new((out@.len() - o.len()) as nat, |k: int| out@[o.len() + k]@);
        let f = if pos <= lc.len() { find_bytes(lc, key, pos) } else { None };
        proof {
            if pos > lc.len() {
                assert(find_from(lc@, key@, pos as int) is None);
            }
        }
        match f {
            None => {
                proof {
                    assert(refs_from(lc@, s@, key@, pos as int) =~= Seq::<Seq<u8>>::empty());
                    assert(all =~= cur);
                    assert(out@.len() == o.len() + all.len());
                    assert forall|k: int| 0 <= k < all.len() implies #[trigger] out@[o.len() + k]@ == all[k] by {
                        assert(all[k] == cur[k]);
                    }
                }
                return;
            },
            Some(at) => {
                proof {
                    crate::strutil::lemma_find_from_some_pub(lc@, key@, pos as int);
                }
                let next = at + key.len();
                let ghost here = if at > 0 && word_byte(lc@[at - 1]) {
                    Seq::<Seq<u8>>::empty()
                } else {
                    match attr_value(s@, next as int) {
                        Some(v) => if v.len() > 0 { seq![v] } else { Seq::<Seq<u8>>::empty() },
                        None => Seq::<Seq<u8>>::empty(),
                    }
                };
                if !(at > 0 && is_word_char_b(lc[at - 1])) {
                    match attr_value_exec(s, next) {
                        Some(v) => {
                            if v.len() > 0 {
                                out.push(v);
                            }
                        },
                        None => {},
                    }
                }
                proof {
                    let cur2 = Seq::new((out@.len() - o.len()) as nat, |k: int| out@[o.len() + k]@);
                    assert(cur2 =~= cur + here);
                    assert(refs_from(lc@, s@, key@, pos as int) == here + refs_from(lc@, s@, key@, next as int));
                }
                pos = next;
            },
        }
    }
}

/// The values of the `href` and `src` attributes of a topic, in that order.
pub fn extract_refs(html: &[u8]) -> (out: Vec<Vec<u8>>)
    ensures
        out@.len() == refs_of(html@).len(),
        forall|k: int| 0 <= k < out@.len() ==> (#[trigger] out@[k])@ == refs_of(html@)[k],
{
    let lc = lower(html);
    let mut out: Vec<Vec<u8>> = Vec::new();
    proof {
        reveal_strlit("href");
        reveal_strlit("src");
    }
    let kh = "href".as_bytes();
    let ks = "src".as_bytes();
    scan_key(&lc, html, kh, &mut out);
    let ghost a = out@;
    scan_key(&lc, html, ks, &mut out);
    proof {
        let r = refs_of(html@);
        let h = refs_from(lc@, html@, "href".spec_bytes(), 0);
        let sr = refs_from(lc@, html@, "src".spec_bytes(), 0);
        assert(kh@ == "href".spec_bytes());
        assert(ks@ == "src".spec_bytes());
        assert(r =~= h + sr);
        assert(a.len() == h.len());
        assert forall|k: int| 0 <= k < out@.len() implies (#[trigger] out@[k])@ == r[k] by {
            if k < h.len() {
                assert(out@[k] == a[k]);
                assert(a[0 + k]@ == h[k]);
            } else {
                assert(out@[a.len() + (k - h.len())]@ == refs_from(lc@, html@, "src".spec_bytes(), 0)[k - h.len()]);
            }
        }
    }
    out
}

/// An ASCII hex digit.
pub open spec fn hex_digit(c: u8) -> bool {
    (0x30 <= c <= 0x39) || (0x41 <= c <= 0x46) || (0x61 <= c <= 0x66)
}

/// The value of a hex digit.
pub open spec fn hex_val(c: u8) -> int {
    if 0x30 <= c <= 0x39 { c - 0x30 } else if 0x41 <= c <= 0x46 { c - 0x37 } else { c - 0x57 }
}

/// `s[i..]` with each `%` and two hex digits made the byte they stand for.
pub open spec fn percent_spec(s: Seq<u8>, i: int) -> Seq<u8>
    decreases s.len() - i,
{
    if i < 0 || i >= s.len() {
        Seq::empty()
    } else if s[i] == 0x25 && i + 2 < s.len() && hex_digit(s[i + 1]) && hex_digit(s[i + 2]) {
        seq![(hex_val(s[i + 1]) * 16 + hex_val(s[i + 2])) as u8] + percent_spec(s, i + 3)
    } else {
        seq![s[i]] + percent_spec(s, i + 1)
    }
}

fn hex_value(c: u8) -> (r: u8)
    requires
        hex_digit(c),
    ensures
        r == hex_val(c),
{
    if 0x30 <= c && c <= 0x39 { c - 0x30 } else if 0x41 <= c && c <= 0x46 { c - 0x37 } else { c - 0x57 }
}

fn is_hex(c: u8) -> (r: bool)
    ensures
        r == hex_digit(c),
{
    (0x30 <= c && c <= 0x39) || (0x41 <= c && c <= 0x46) || (0x61 <= c && c <= 0x66)
}

/// Decodes `%XX` escapes.
pub fn percent_decode(s: &[u8]) -> (r: Vec<u8>)
    ensures
        r@ == percent_spec(s@, 0),
{
    let n = s.len();
    let mut out: Vec<u8> = Vec::new();
    let mut i: usize = 0;
    while i < n
        invariant
            i <= n,
            n == s@.len(),
            out@ + percent_spec(s@, i as int) == percent_spec(s@, 0),
        decreases n - i,
    {
        if s[i] == 0x25 && n - i > 2 && is_hex(s[i + 1]) && is_hex(s[i + 2]) {
            let v = hex_value(s[i + 1]) * 16 + hex_value(s[i + 2]);
            let ghost o = out@;
            out.push(v);
            proof {
                assert(out@ + percent_spec(s@, i + 3) =~= o + percent_spec(s@, i as int));
            }
            i = i + 3;
        } else {
            let ghost o = out@;
            out.push(s[i]);
            proof {
                assert(out@ + percent_spec(s@, i + 1) =~= o + percent_spec(s@, i as int));
            }
            i = i + 1;
        }
    }
    proof {
        assert(out@ + percent_spec(s@, n as int) =~= out@);
    }
    out
}

/// The position after the last `/` of `s` (0 when there is none).
pub open spec fn after_last_slash(s: Seq<u8>) -> int
    decreases s.len(),
{
    if s.len() == 0 {
        0
    } else if s.last() == 0x2F {
        s.len() as int
    } else {
        after_last_slash(s.drop_last())
    }
}

pub proof fn lemma_after_last_slash_pub(s: Seq<u8>)
    ensures
        0 <= after_last_slash(s) <= s.len(),
{
    lemma_after_last_slash(s);
}

proof fn lemma_after_last_slash(s: Seq<u8>)
    ensures
        0 <= after_last_slash(s) <= s.len(),
    decreases s.len(),
{
    if s.len() > 0 && s.last() != 0x2F {
        lemma_after_last_slash(s.drop_last());
    }
}

/// The directory part of a path: up to and with its last `/`, or empty.
pub fn dir_of(rel: &[u8]) -> (r: Vec<u8>)
    ensures
        r@ == rel@.subrange(0, after_last_slash(rel@)),
{
    let mut j = rel.len();
    proof {
        lemma_after_last_slash(rel@);
        assert(rel@.subrange(0, j as int) =~= rel@);
    }
    while j > 0 && rel[j - 1] != 0x2F
        invariant
            j <= rel@.len(),
            after_last_slash(rel@.subrange(0, j as int)) == after_last_slash(rel@),
        decreases j,
    {
        proof {
            assert(rel@.subrange(0, j as int).drop_last() =~= rel@.subrange(0, j - 1));
        }
        j = j - 1;
    }
    proof {
        if j > 0 {
            assert(rel@.subrange(0, j as int).last() == 0x2F);
        }
    }
    copy_range(rel, 0, j)
}

/// A path segment applied to the segments so far: empty and `.` do nothing, `..`
/// drops the last (failing when there is none), anything else is added.
pub open spec fn seg_step(stack: Seq<Seq<u8>>, seg: Seq<u8>) -> Option<Seq<Seq<u8>>> {
    if seg.len() == 0 || seg == seq![0x2Eu8] {
        Some(stack)
    } else if seg == seq![0x2Eu8, 0x2E] {
        if stack.len() == 0 { None } else { Some(stack.drop_last()) }
    } else {
        Some(stack.push(seg))
    }
}

/// The segments of `s[i..]` applied to `stack`, `cur` being the segment under way.
pub open spec fn walk_segs(s: Seq<u8>, i: int, stack: Seq<Seq<u8>>, cur: Seq<u8>) -> Option<Seq<Seq<u8>>>
    decreases s.len() - i,
{
    if i < 0 || i >= s.len() {
        seg_step(stack, cur)
    } else if s[i] == 0x2F {
        match seg_step(stack, cur) {
            Some(st) => walk_segs(s, i + 1, st, Seq::empty()),
            None => None,
        }
    } else {
        walk_segs(s, i + 1, stack, cur.push(s[i]))
    }
}

/// The segments joined with `/`.
pub open spec fn join_segs(segs: Seq<Seq<u8>>) -> Seq<u8>
    decreases segs.len(),
{
    if segs.len() == 0 {
        Seq::empty()
    } else if segs.len() == 1 {
        segs[0]
    } else {
        join_segs(segs.drop_last()) + seq![0x2Fu8] + segs.last()
    }
}

/// The archive path a link of a topic in directory `base_dir` names: empty for an
/// anchor, an empty link, one with a scheme or drive, or one that climbs above the
/// root; else its part before `#` or `?`, unescaped, slashes forward, taken from the
/// root when it starts with `/` and from `base_dir` otherwise, with `.` and `..`
/// segments resolved.
pub open spec fn resolved(base_dir: Seq<u8>, link: Seq<u8>) -> Seq<u8> {
    let t = trimmed(link);
    let colon = find_byte(t, 0x3A, 0);
    let slash = find_byte(t, 0x2F, 0);
    let cut = cut_at(t, 0);
    let l = slashes_spec(percent_spec(t.subrange(0, cut), 0));
    let full = if l.len() > 0 && l[0] == 0x2F { l.subrange(1, l.len() as int) } else { base_dir + l };
    if t.len() == 0 || t[0] == 0x23 {
        Seq::empty()
    } else if colon < t.len() && (slash >= t.len() || slash > colon) {
        Seq::empty()
    } else if l.len() == 0 {
        Seq::empty()
    } else {
        match walk_segs(full, 0, Seq::empty(), Seq::empty()) {
            Some(segs) => join_segs(segs),
            None => Seq::empty(),
        }
    }
}

/// The first `#` or `?` at or after `i`, or the end.
pub open spec fn cut_at(t: Seq<u8>, i: int) -> int
    decreases t.len() - i,
{
    if i < 0 || i >= t.len() || t[i] == 0x23 || t[i] == 0x3F {
        i
    } else {
        cut_at(t, i + 1)
    }
}

proof fn lemma_cut_at(t: Seq<u8>, i: int)
    requires
        0 <= i <= t.len(),
    ensures
        i <= cut_at(t, i) <= t.len(),
    decreases t.len() - i,
{
    if i < t.len() && !(t[i] == 0x23 || t[i] == 0x3F) {
        lemma_cut_at(t, i + 1);
    }
}

fn seg_step_exec(stack: &mut Vec<Vec<u8>>, seg: Vec<u8>) -> (ok: bool)
    ensures
        ok == (seg_step(vviews(old(stack)@), seg@) is Some),
        ok ==> seg_step(vviews(old(stack)@), seg@) == Some(vviews(final(stack)@)),
{
    let ghost st = vviews(stack@);
    let n = seg.len();
    if n == 0 || (n == 1 && seg[0] == 0x2E) {
        proof {
            if n == 1 {
                assert(seg@ =~= seq![0x2Eu8]);
            }
        }
        return true;
    }
    if n == 2 && seg[0] == 0x2E && seg[1] == 0x2E {
        proof {
            assert(seg@ =~= seq![0x2Eu8, 0x2E]);
            assert(seg@ != seq![0x2Eu8]);
        }
        if stack.len() == 0 {
            return false;
        }
        stack.pop();
        proof {
            assert(vviews(stack@) =~= st.drop_last());
        }
        return true;
    }
    proof {
        if n == 1 {
            assert(seg@ != seq![0x2Eu8]) by {
                assert(seg@[0] != 0x2E);
            }
        }
        if n == 2 {
            assert(seg@ != seq![0x2Eu8, 0x2E]) by {
                assert(seg@[0] != 0x2E || seg@[1] != 0x2E);
            }
        }
    }
    let ghost sg = seg@;
    stack.push(seg);
    proof {
        assert(vviews(stack@) =~= st.push(sg));
    }
    true
}

/// The contents of each vector.
pub open spec fn vviews(vs: Seq<Vec<u8>>) -> Seq<Seq<u8>> {
    Seq::new(vs.len(), |i: int| vs[i]@)
}

fn join_exec(segs: &Vec<Vec<u8>>) -> (r: Vec<u8>)
    ensures
        r@ == join_segs(vviews(segs@)),
{
    let n = segs.len();
    let mut r: Vec<u8> = Vec::new();
    let mut k: usize = 0;
    proof {
        assert(vviews(segs@).subrange(0, 0) =~= Seq::<Seq<u8>>::empty());
    }
    while k < n
        invariant
            k <= n,
            n == segs@.len(),
            r@ == join_segs(vviews(segs@).subrange(0, k as int)),
        decreases n - k,
    {
        let ghost r0 = r@;
        if k > 0 {
            r.push(0x2F);
        }
        let s = &segs[k];
        let m = s.len();
        let mut j: usize = 0;
        let ghost r1 = r@;
        while j < m
            invariant
                j <= m,
                m == s@.len(),
                r@ == r1 + s@.subrange(0, j as int),
            decreases m - j,
        {
            r.push(s[j]);
            j = j + 1;
            assert(r@ =~= r1 + s@.subrange(0, j as int));
        }
        proof {
            let v = vviews(segs@);
            assert(s@.subrange(0, m as int) =~= s@);
            assert(v.subrange(0, k + 1).drop_last() =~= v.subrange(0, k as int));
            assert(v.subrange(0, k + 1).last() == s@);
            if k == 0 {
                assert(r@ =~= s@);
                assert(v.subrange(0, 1)[0] == s@);
            } else {
                assert(r@ =~= r0 + seq![0x2Fu8] + s@);
            }
        }
        k = k + 1;
    }
    proof {
        assert(vviews(segs@).subrange(0, n as int) =~= vviews(segs@));
    }
    r
}

/// Resolves a link found in a topic of directory `base_dir` to an archive path
/// (empty when it names no file of the archive).
pub fn resolve_ref(base_dir: &[u8], link: &[u8]) -> (r: Vec<u8>)
    ensures
        r@ == resolved(base_dir@, link@),
{
    let t = trim(link);
    let n = t.len();
    let colon = find_byte_exec(&t, 0x3A, 0);
    let slash = find_byte_exec(&t, 0x2F, 0);
    proof {
        lemma_cut_at(t@, 0);
    }
    let mut cut: usize = 0;
    while cut < n && !(t[cut] == 0x23 || t[cut] == 0x3F)
        invariant
            cut <= n,
            n == t@.len(),
            cut_at(t@, cut as int) == cut_at(t@, 0),
        decreases n - cut,
    {
        cut = cut + 1;
    }
    if n == 0 || t[0] == 0x23 {
        return Vec::new();
    }
    if colon < n && (slash >= n || slash > colon) {
        return Vec::new();
    }
    let l = slashes(&percent_decode(&copy_range(&t, 0, cut)));
    if l.len() == 0 {
        return Vec::new();
    }
    let full: Vec<u8> = if l[0] == 0x2F {
        copy_range(&l, 1, l.len())
    } else {
        let mut f = vstd::slice::slice_to_vec(base_dir);
        let m = l.len();
        let mut j: usize = 0;
        let ghost f0 = f@;
        while j < m
            invariant
                j <= m,
                m == l@.len(),
                f@ == f0 + l@.subrange(0, j as int),
            decreases m - j,
        {
            f.push(l[j]);
            j = j + 1;
            assert(f@ =~= f0 + l@.subrange(0, j as int));
        }
        assert(l@.subrange(0, m as int) =~= l@);
        f
    };
    let fl = full.len();
    let mut stack: Vec<Vec<u8>> = Vec::new();
    let mut cur: Vec<u8> = Vec::new();
    let mut i: usize = 0;
    let ghost target = walk_segs(full@, 0, Seq::empty(), Seq::empty());
    proof {
        assert(vviews(stack@) =~= Seq::<Seq<u8>>::empty());
    }
    assert(resolved(base_dir@, link@) == match target {
        Some(segs) => join_segs(segs),
        None => Seq::<u8>::empty(),
    });
    while i < fl
        invariant
            i <= fl,
            fl == full@.len(),
            walk_segs(full@, i as int, vviews(stack@), cur@) == target,
            resolved(base_dir@, link@) == match target {
                Some(segs) => join_segs(segs),
                None => Seq::<u8>::empty(),
            },
        decreases fl - i,
    {
        if full[i] == 0x2F {
            let seg = cur;
            cur = Vec::new();
            let ok = seg_step_exec(&mut stack, seg);
            if !ok {
                return Vec::new();
            }
        } else {
            cur.push(full[i]);
        }
        i = i + 1;
    }
    let ok = seg_step_exec(&mut stack, cur);
    if !ok {
        return Vec::new();
    }
    join_exec(&stack)
}

/// A code point with ASCII capitals folded to lower case.
pub open spec fn lc_cp(c: u32) -> u32 {
    if 65 <= c <= 90 { (c + 32) as u32 } else { c }
}

/// `pat` occurs in `cps` at `i`, ASCII case ignored.
pub open spec fn cp_match(cps: Seq<u32>, pat: Seq<u8>, i: int) -> bool {
    0 <= i && i + pat.len() <= cps.len() && forall|j: int| 0 <= j < pat.len() ==> lc_cp(#[trigger] cps[i + j]) == pat[j] as u32
}

/// The first place at or after `from` where `pat` occurs, ASCII case ignored.
pub open spec fn cp_find(cps: Seq<u32>, pat: Seq<u8>, from: int) -> Option<int>
    decreases cps.len() + 1 - from,
{
    if from < 0 || from + pat.len() > cps.len() {
        None
    } else if cp_match(cps, pat, from) {
        Some(from)
    } else {
        cp_find(cps, pat, from + 1)
    }
}

/// The first `>` at or after `i`, or the end.
pub open spec fn gt_from(cps: Seq<u32>, i: int) -> int
    decreases cps.len() - i,
{
    if i < 0 || i >= cps.len() || cps[i] == 0x3E {
        i
    } else {
        gt_from(cps, i + 1)
    }
}

/// Whitespace inside a title: space, tab, carriage return, line feed.
pub open spec fn title_ws(c: u32) -> bool {
    c == 0x20 || c == 0x09 || c == 0x0D || c == 0x0A
}

/// The text `s[i..]` appended to `title` with leading whitespace dropped, trailing
/// whitespace dropped and each inner run of whitespace made one space.
pub open spec fn collapse_from(s: Seq<u32>, i: int, title: Seq<u32>, ws: bool) -> Seq<u32>
    decreases s.len() - i,
{
    if i < 0 || i >= s.len() {
        title
    } else if title_ws(s[i]) {
        collapse_from(s, i + 1, title, title.len() > 0)
    } else {
        let t2 = if ws { title.push(0x20) } else { title };
        collapse_from(s, i + 1, t2.push(s[i]), false)
    }
}

pub open spec fn title_open() -> Seq<u8> {
    seq![0x3Cu8, 0x74, 0x69, 0x74, 0x6C, 0x65]
}

pub open spec fn title_close() -> Seq<u8> {
    seq![0x3Cu8, 0x2F, 0x74, 0x69, 0x74, 0x6C, 0x65]
}

/// The title of a topic's text: between the `>` that closes the first `<title` and
/// the next `</title`, whitespace collapsed; empty when either is missing.
pub open spec fn title_cps(cps: Seq<u32>) -> Seq<u32> {
    match cp_find(cps, title_open(), 0) {
        None => Seq::empty(),
        Some(x) => {
            let t = gt_from(cps, x);
            if t >= cps.len() {
                Seq::empty()
            } else {
                match cp_find(cps, title_close(), t + 1) {
                    None => Seq::empty(),
                    Some(end) => collapse_from(cps.subrange(t + 1, end), 0, Seq::empty(), false),
                }
            }
        },
    }
}

proof fn lemma_cp_find(cps: Seq<u32>, pat: Seq<u8>, from: int)
    requires
        0 <= from,
        cp_find(cps, pat, from) is Some,
    ensures
        from <= cp_find(cps, pat, from)->0,
        cp_find(cps, pat, from)->0 + pat.len() <= cps.len(),
    decreases cps.len() + 1 - from,
{
    if !cp_match(cps, pat, from) {
        lemma_cp_find(cps, pat, from + 1);
    }
}

fn cp_find_exec(cps: &Vec<u32>, pat: &[u8], from: usize) -> (r: Option<usize>)
    ensures
        match r {
            Some(i) => cp_find(cps@, pat@, from as int) == Some(i as int),
            None => cp_find(cps@, pat@, from as int) is None,
        },
{
    let n = cps.len();
    let m = pat.len();
    if m > n || from > n - m {
        return None;
    }
    let last = n - m;
    let mut i = from;
    loop
        invariant
            from <= i <= last,
            last + m == n,
            n == cps@.len(),
            m == pat@.len(),
            cp_find(cps@, pat@, from as int) == cp_find(cps@, pat@, i as int),
        decreases last - i,
    {
        let mut j: usize = 0;
        let mut ok = true;
        while j < m
            invariant
                j <= m,
                m == pat@.len(),
                i + m <= n,
                n == cps@.len(),
                ok == (forall|q: int| 0 <= q < j ==> lc_cp(#[trigger] cps@[i + q]) == pat@[q] as u32),
            decreases m - j,
        {
            let c = cps[i + j];
            let l = if 65 <= c && c <= 90 { c + 32 } else { c };
            if l != pat[j] as u32 {
                ok = false;
            }
            j = j + 1;
        }
        if ok {
            return Some(i);
        }
        proof {
            assert(!cp_match(cps@, pat@, i as int));
            assert(cp_find(cps@, pat@, i as int) == cp_find(cps@, pat@, i + 1));
        }
        if i == last {
            proof {
                assert(cp_find(cps@, pat@, i + 1) is None);
            }
            return None;
        }
        i = i + 1;
    }
}

/// The title of a topic, encoded for codepage `cp` as the metadata files store it.
pub fn extract_title_s(html: &[u8], cp: u32, tables: &[CodepageTable]) -> (r: Vec<u8>)
    requires
        tables_ok(tables@),
    ensures
        r@ == encoded(title_cps(text_cps(html@, cp, tables@)), cp, tables@),
{
    let cps = decode_text(html, cp, tables);
    let ghost c = cps@;
    let open_pat: [u8; 6] = [0x3C, 0x74, 0x69, 0x74, 0x6C, 0x65];
    let close_pat: [u8; 7] = [0x3C, 0x2F, 0x74, 0x69, 0x74, 0x6C, 0x65];
    proof {
        assert(open_pat@ =~= title_open());
        assert(close_pat@ =~= title_close());
    }
    let n = cps.len();
    let x = match cp_find_exec(&cps, &open_pat, 0) {
        Some(x) => x,
        None => {
            return encode_codepage(&Vec::new(), cp, tables);
        },
    };
    proof {
        lemma_cp_find(c, title_open(), 0);
    }
    let mut t = x;
    while t < n && cps[t] != 0x3E
        invariant
            x <= t <= n,
            n == c.len(),
            c == cps@,
            gt_from(c, t as int) == gt_from(c, x as int),
        decreases n - t,
    {
        t = t + 1;
    }
    if t >= n {
        return encode_codepage(&Vec::new(), cp, tables);
    }
    let end = match cp_find_exec(&cps, &close_pat, t + 1) {
        Some(e) => e,
        None => {
            return encode_codepage(&Vec::new(), cp, tables);
        },
    };
    proof {
        lemma_cp_find(c, title_close(), t + 1);
    }
    let ghost seg = c.subrange(t + 1, end as int);
    let mut title: Vec<u32> = Vec::new();
    let mut ws = false;
    let mut k = t + 1;
    while k < end
        invariant
            t + 1 <= k <= end,
            end <= n,
            n == c.len(),
            c == cps@,
            seg == c.subrange(t + 1, end as int),
            collapse_from(seg, k - (t + 1), title@, ws) == collapse_from(seg, 0, Seq::empty(), false),
        decreases end - k,
    {
        let ch = cps[k];
        proof {
            assert(seg[k - (t + 1)] == ch);
        }
        if ch == 0x20 || ch == 0x09 || ch == 0x0D || ch == 0x0A {
            ws = title.len() > 0;
        } else {
            if ws {
                title.push(0x20);
            }
            ws = false;
            title.push(ch);
        }
        k = k + 1;
    }
    encode_codepage(&title, cp, tables)
}

/// The hex digit for `d` (0 to 15): `0`-`9`, then `A`-`F`, or `a`-`f` when `lower`.
pub open spec fn hex_char(d: int, lower: bool) -> u8 {
    if d < 10 { (0x30 + d) as u8 } else if lower { (0x61 + d - 10) as u8 } else { (0x41 + d - 10) as u8 }
}

/// Percent-decoding gives back any byte written as `%` and its two hex digits, in
/// upper or lower case, and goes on right after them.
pub proof fn lemma_percent_escape(s: Seq<u8>, i: int, x: u8, lower: bool)
    requires
        0 <= i,
        i + 2 < s.len(),
        s[i] == 0x25,
        s[i + 1] == hex_char(x as int / 16, lower),
        s[i + 2] == hex_char(x as int % 16, lower),
    ensures
        percent_spec(s, i) == seq![x] + percent_spec(s, i + 3),
{
}

/// A byte other than `%` is kept as it is.
pub proof fn lemma_percent_plain(s: Seq<u8>, i: int)
    requires
        0 <= i < s.len(),
        s[i] != 0x25,
    ensures
        percent_spec(s, i) == seq![s[i]] + percent_spec(s, i + 1),
{
}

} // verus!
