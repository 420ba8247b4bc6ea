//! Byte-string helpers for project text held as UTF-8 bytes: path separators, ASCII
//! case folding, Unicode whitespace trimming and the number forms a project accepts.
use vstd::prelude::*;
use crate::sitemap::{from_radix, parse_radix};
use crate::textenc::{lc, lc_seq};

verus! {

/// Backslashes turned into forward slashes.
pub open spec fn slashes_spec(s: Seq<u8>) -> Seq<u8> {
    Seq::new(s.len(), |i: int| if s[i] == 0x5C { 0x2Fu8 } else { s[i] })
}

/// `s` with every backslash replaced by a slash.
pub fn slashes(s: &[u8]) -> (r: Vec<u8>)
    ensures
        r@ == slashes_spec(s@),
{
    let n = s.len();
    let mut r: Vec<u8> = Vec::new();
    let mut k: usize = 0;
    while k < n
        invariant
            k <= n,
            n == s@.len(),
            r@ == slashes_spec(s@.subrange(0, k as int)),
        decreases n - k,
    {
        let c = s[k];
        r.push(if c == 0x5C { 0x2F } else { c });
        k = k + 1;
        assert(r@ =~= slashes_spec(s@.subrange(0, k as int)));
    }
    assert(s@.subrange(0, n as int) =~= s@);
    r
}

/// `s` with ASCII capitals folded to lower case.
pub fn lower(s: &[u8]) -> (r: Vec<u8>)
    ensures
        r@ == lc_seq(s@),
{
    let n = s.len();
    let mut r: Vec<u8> = Vec::new();
    let mut k: usize = 0;
    while k < n
        invariant
            k <= n,
            n == s@.len(),
            r@ == lc_seq(s@.subrange(0, k as int)),
        decreases n - k,
    {
        let c = s[k];
        r.push(if 65 <= c && c <= 90 { c + 32 } else { c });
        k = k + 1;
        assert(r@ =~= lc_seq(s@.subrange(0, k as int)));
    }
    assert(s@.subrange(0, n as int) =~= s@);
    r
}

/// The two byte strings are equal.
pub fn eq_bytes(a: &[u8], b: &[u8]) -> (r: bool)
    ensures
        r == (a@ == b@),
{
    if a.len() != b.len() {
        return false;
    }
    let n = a.len();
    let mut k: usize = 0;
    while k < n
        invariant
            k <= n,
            n == a@.len(),
            n == b@.len(),
            forall|j: int| 0 <= j < k ==> a@[j] == b@[j],
        decreases n - k,
    {
        if a[k] != b[k] {
            return false;
        }
        k = k + 1;
    }
    assert(a@ =~= b@);
    true
}

/// The two byte strings are equal once ASCII case is ignored.
pub open spec fn eq_nocase(a: Seq<u8>, b: Seq<u8>) -> bool {
    lc_seq(a) == lc_seq(b)
}

/// Compares two byte strings ignoring ASCII case.
pub fn eq_ignore_case(a: &[u8], b: &[u8]) -> (r: bool)
    ensures
        r == eq_nocase(a@, b@),
{
    if a.len() != b.len() {
        proof {
            assert(lc_seq(a@).len() != lc_seq(b@).len());
        }
        return false;
    }
    let n = a.len();
    let mut k: usize = 0;
    while k < n
        invariant
            k <= n,
            n == a@.len(),
            n == b@.len(),
            forall|j: int| 0 <= j < k ==> lc(a@[j]) == lc(b@[j]),
        decreases n - k,
    {
        let x = if 65 <= a[k] && a[k] <= 90 { a[k] + 32 } else { a[k] };
        let y = if 65 <= b[k] && b[k] <= 90 { b[k] + 32 } else { b[k] };
        if x != y {
            proof {
                assert(lc_seq(a@)[k as int] != lc_seq(b@)[k as int]);
            }
            return false;
        }
        k = k + 1;
    }
    assert(lc_seq(a@) =~= lc_seq(b@));
    true
}

/// `pat` occurs in `s` at `i`.
pub open spec fn occurs_at(s: Seq<u8>, pat: Seq<u8>, i: int) -> bool {
    0 <= i && i + pat.len() <= s.len() && s.subrange(i, i + pat.len()) == pat
}

/// `pat` occurs somewhere in `s`.
pub open spec fn contains_seq(s: Seq<u8>, pat: Seq<u8>) -> bool {
    exists|i: int| #[trigger] occurs_at(s, pat, i)
}

/// Whether `pat` occurs in `s` at `i`.
pub fn at_pos(s: &[u8], pat: &[u8], i: usize) -> (r: bool)
    ensures
        r == occurs_at(s@, pat@, i as int),
{
    if i > s.len() || pat.len() > s.len() - i {
        return false;
    }
    let n = pat.len();
    let sl = s.len();
    let mut k: usize = 0;
    while k < n
        invariant
            k <= n,
            n == pat@.len(),
            sl == s@.len(),
            i + n <= sl,
            forall|j: int| 0 <= j < k ==> s@[i + j] == pat@[j],
        decreases n - k,
    {
        if s[i + k] != pat[k] {
            proof {
                assert(s@.subrange(i as int, i + n)[k as int] != pat@[k as int]);
            }
            return false;
        }
        k = k + 1;
    }
    assert(s@.subrange(i as int, i + n) =~= pat@);
    true
}

/// The first place at or after `from` where `pat` occurs in `s`, if any.
pub open spec fn find_from(s: Seq<u8>, pat: Seq<u8>, from: int) -> Option<int>
    decreases s.len() + 1 - from,
{
    if from < 0 || from + pat.len() > s.len() {
        None
    } else if occurs_at(s, pat, from) {
        Some(from)
    } else {
        find_from(s, pat, from + 1)
    }
}

proof fn lemma_find_from_none(s: Seq<u8>, pat: Seq<u8>, from: int)
    requires
        0 <= from,
        find_from(s, pat, from) is None,
    ensures
        forall|i: int| from <= i ==> !occurs_at(s, pat, i),
    decreases s.len() + 1 - from,
{
    if from + pat.len() <= s.len() {
        lemma_find_from_none(s, pat, from + 1);
    }
}

pub proof fn lemma_find_from_some_pub(s: Seq<u8>, pat: Seq<u8>, from: int)
    requires
        0 <= from,
        find_from(s, pat, from) is Some,
    ensures
        occurs_at(s, pat, find_from(s, pat, from)->0),
        from <= find_from(s, pat, from)->0,
        find_from(s, pat, from)->0 + pat.len() <= s.len(),
{
    lemma_find_from_some(s, pat, from);
}

proof fn lemma_find_from_some(s: Seq<u8>, pat: Seq<u8>, from: int)
    requires
        0 <= from,
        find_from(s, pat, from) is Some,
    ensures
        occurs_at(s, pat, find_from(s, pat, from)->0),
        from <= find_from(s, pat, from)->0,
        forall|i: int| from <= i < find_from(s, pat, from)->0 ==> !occurs_at(s, pat, i),
    decreases s.len() + 1 - from,
{
    if !occurs_at(s, pat, from) {
        lemma_find_from_some(s, pat, from + 1);
    }
}

/// The first place at or after `from` where `pat` occurs in `s`.
pub fn find_bytes(s: &[u8], pat: &[u8], from: usize) -> (r: Option<usize>)
    ensures
        match r {
            Some(i) => find_from(s@, pat@, from as int) == Some(i as int),
            None => find_from(s@, pat@, from as int) is None,
        },
{
    let mut i = from;
    if i > s.len() || pat.len() > s.len() - i {
        return None;
    }
    let last = s.len() - pat.len();
    loop
        invariant
            from <= i <= last,
            last + pat@.len() == s@.len(),
            find_from(s@, pat@, from as int) == find_from(s@, pat@, i as int),
        decreases last - i,
    {
        if at_pos(s, pat, i) {
            return Some(i);
        }
        proof {
            assert(find_from(s@, pat@, i as int) == find_from(s@, pat@, i + 1));
        }
        if i == last {
            proof {
                assert(find_from(s@, pat@, i + 1) is None);
            }
            return None;
        }
        i = i + 1;
    }
}

/// Whether `pat` occurs anywhere in `s`.
pub fn contains_bytes(s: &[u8], pat: &[u8]) -> (r: bool)
    ensures
        r == contains_seq(s@, pat@),
{
    let f = find_bytes(s, pat, 0);
    proof {
        match f {
            Some(i) => {
                lemma_find_from_some(s@, pat@, 0);
            },
            None => {
                lemma_find_from_none(s@, pat@, 0);
            },
        }
    }
    f.is_some()
}

/// The length of the Unicode whitespace character that starts at `i`, 0 if none
/// (the ASCII ones from tab to carriage return and space, and the others in UTF-8).
pub open spec fn ws_at(s: Seq<u8>, i: int) -> int {
    if i < 0 || i >= s.len() {
        0
    } else if (0x09 <= s[i] <= 0x0D) || s[i] == 0x20 {
        1
    } else if i + 1 < s.len() && s[i] == 0xC2 && (s[i + 1] == 0x85 || s[i + 1] == 0xA0) {
        2
    } else if i + 2 < s.len() && ws3(s[i], s[i + 1], s[i + 2]) {
        3
    } else {
        0
    }
}

/// The three-byte UTF-8 forms of Unicode whitespace.
pub open spec fn ws3(a: u8, b: u8, c: u8) -> bool {
    (a == 0xE1 && b == 0x9A && c == 0x80) || (a == 0xE2 && b == 0x80 && ((0x80 <= c <= 0x8A) || c
        == 0xA8 || c == 0xA9 || c == 0xAF)) || (a == 0xE2 && b == 0x81 && c == 0x9F) || (a == 0xE3
        && b == 0x80 && c == 0x80)
}

/// The length of the Unicode whitespace character that ends just before `j`, 0 if none.
pub open spec fn ws_before(s: Seq<u8>, j: int) -> int {
    if j < 1 || j > s.len() {
        0
    } else if (0x09 <= s[j - 1] <= 0x0D) || s[j - 1] == 0x20 {
        1
    } else if j >= 2 && s[j - 2] == 0xC2 && (s[j - 1] == 0x85 || s[j - 1] == 0xA0) {
        2
    } else if j >= 3 && ws3(s[j - 3], s[j - 2], s[j - 1]) {
        3
    } else {
        0
    }
}

fn ws_len_at(s: &[u8], i: usize) -> (r: usize)
    ensures
        r == ws_at(s@, i as int),
{
    let n = s.len();
    if i >= n {
        return 0;
    }
    let a = s[i];
    if (0x09 <= a && a <= 0x0D) || a == 0x20 {
        return 1;
    }
    if i + 1 < n && a == 0xC2 && (s[i + 1] == 0x85 || s[i + 1] == 0xA0) {
        return 2;
    }
    if n - i > 2 {
        let b = s[i + 1];
        let c = s[i + 2];
        if (a == 0xE1 && b == 0x9A && c == 0x80) || (a == 0xE2 && b == 0x80 && ((0x80 <= c && c
            <= 0x8A) || c == 0xA8 || c == 0xA9 || c == 0xAF)) || (a == 0xE2 && b == 0x81 && c
            == 0x9F) || (a == 0xE3 && b == 0x80 && c == 0x80) {
            return 3;
        }
    }
    0
}

fn ws_len_before(s: &[u8], j: usize) -> (r: usize)
    ensures
        r == ws_before(s@, j as int),
        r <= j,
{
    let n = s.len();
    if j < 1 || j > n {
        return 0;
    }
    let z = s[j - 1];
    if (0x09 <= z && z <= 0x0D) || z == 0x20 {
        return 1;
    }
    if j >= 2 && s[j - 2] == 0xC2 && (z == 0x85 || z == 0xA0) {
        return 2;
    }
    if j >= 3 {
        let a = s[j - 3];
        let b = s[j - 2];
        let c = z;
        if (a == 0xE1 && b == 0x9A && c == 0x80) || (a == 0xE2 && b == 0x80 && ((0x80 <= c && c
            <= 0x8A) || c == 0xA8 || c == 0xA9 || c == 0xAF)) || (a == 0xE2 && b == 0x81 && c
            == 0x9F) || (a == 0xE3 && b == 0x80 && c == 0x80) {
            return 3;
        }
    }
    0
}

/// Where the text from `i` on starts once leading whitespace is skipped.
pub open spec fn skip_ws(s: Seq<u8>, i: int) -> int
    decreases s.len() - i,
{
    if i < 0 || i >= s.len() || ws_at(s, i) == 0 {
        i
    } else {
        skip_ws(s, i + ws_at(s, i))
    }
}

/// Where the text `s[lo..j]` ends once trailing whitespace is dropped.
pub open spec fn trim_end_at(s: Seq<u8>, lo: int, j: int) -> int
    decreases j - lo,
{
    if j <= lo || ws_before(s, j) == 0 || j - ws_before(s, j) < lo {
        j
    } else {
        trim_end_at(s, lo, j - ws_before(s, j))
    }
}

proof fn lemma_skip_ws_bounds(s: Seq<u8>, i: int)
    requires
        0 <= i <= s.len(),
    ensures
        i <= skip_ws(s, i) <= s.len(),
    decreases s.len() - i,
{
    if i < s.len() && ws_at(s, i) != 0 {
        lemma_skip_ws_bounds(s, i + ws_at(s, i));
    }
}

proof fn lemma_trim_end_bounds(s: Seq<u8>, lo: int, j: int)
    requires
        lo <= j,
    ensures
        lo <= trim_end_at(s, lo, j) <= j,
    decreases j - lo,
{
    if !(j <= lo || ws_before(s, j) == 0 || j - ws_before(s, j) < lo) {
        lemma_trim_end_bounds(s, lo, j - ws_before(s, j));
    }
}

/// `s` without leading and trailing whitespace.
pub open spec fn trimmed(s: Seq<u8>) -> Seq<u8> {
    let a = skip_ws(s, 0);
    s.subrange(a, trim_end_at(s, a, s.len() as int))
}

/// The bounds of `s[a..b]` once surrounding whitespace is dropped.
pub fn trim_bounds(s: &[u8], a: usize, b: usize) -> (r: (usize, usize))
    requires
        a <= b <= s@.len(),
    ensures
        r.0 == skip_ws(s@.subrange(0, b as int), a as int),
        r.1 == trim_end_at(s@, r.0 as int, b as int),
        a <= r.0 <= r.1 <= b,
{
    let ghost t = s@.subrange(0, b as int);
    let mut i = a;
    proof {
        lemma_skip_ws_bounds(t, a as int);
    }
    while i < b
        invariant
            a <= i <= b <= s@.len(),
            t == s@.subrange(0, b as int),
            skip_ws(t, i as int) == skip_ws(t, a as int),
            i <= skip_ws(t, i as int) <= b,
        ensures
            a <= i <= b,
            skip_ws(t, i as int) == i,
        decreases b - i,
    {
        let w = ws_len_at(s, i);
        let ghost wt = ws_at(t, i as int);
        if w == 0 || w > b - i {
            proof {
                assert(wt == 0) by {
                    assert(t[i as int] == s@[i as int]);
                    if i + 1 < b {
                        assert(t[i + 1] == s@[i + 1]);
                    }
                    if i + 2 < b {
                        assert(t[i + 2] == s@[i + 2]);
                    }
                }
            }
            break;
        }
        proof {
            assert(wt == w as int) by {
                assert(t[i as int] == s@[i as int]);
                if i + 1 < b {
                    assert(t[i + 1] == s@[i + 1]);
                }
                if i + 2 < b {
                    assert(t[i + 2] == s@[i + 2]);
                }
            }
            lemma_skip_ws_bounds(t, i + w);
        }
        i = i + w;
    }
    let start = i;
    let mut j = b;
    proof {
        lemma_trim_end_bounds(s@, start as int, b as int);
    }
    while j > start
        invariant
            start <= j <= b <= s@.len(),
            trim_end_at(s@, start as int, j as int) == trim_end_at(s@, start as int, b as int),
        ensures
            start <= j <= b,
            trim_end_at(s@, start as int, j as int) == j,
        decreases j,
    {
        let w = ws_len_before(s, j);
        if w == 0 || j - w < start {
            break;
        }
        j = j - w;
    }
    (start, j)
}

/// `s` without leading and trailing whitespace.
pub fn trim(s: &[u8]) -> (r: Vec<u8>)
    ensures
        r@ == trimmed(s@),
{
    let (a, b) = trim_bounds(s, 0, s.len());
    proof {
        assert(s@.subrange(0, s@.len() as int) =~= s@);
    }
    crate::sitemap::copy_range(s, a, b)
}

/// A number written as `0x` (or `0X`) and hex digits, or in decimal; an optional `+`
/// sign is taken, and anything unreadable gives `None`.
pub open spec fn number_of(t: Seq<u8>) -> Option<u32> {
    if t.len() >= 2 && t[0] == 0x30 && (t[1] == 0x78 || t[1] == 0x58) {
        from_radix(t.subrange(2, t.len() as int), 16)
    } else {
        from_radix(t, 10)
    }
}

fn parse_number(t: &[u8], a: usize, b: usize) -> (r: Option<u32>)
    requires
        a <= b <= t@.len(),
    ensures
        r == number_of(t@.subrange(a as int, b as int)),
{
    let ghost w = t@.subrange(a as int, b as int);
    if b - a >= 2 && t[a] == 0x30 && (t[a + 1] == 0x78 || t[a + 1] == 0x58) {
        proof {
            assert(w.subrange(2, w.len() as int) =~= t@.subrange(a + 2, b as int));
        }
        parse_radix(t, a + 2, b, 16)
    } else {
        parse_radix(t, a, b, 10)
    }
}

/// The number in `s` once trimmed, 0 when it cannot be read.
pub open spec fn parse_int_spec(s: Seq<u8>) -> u32 {
    match number_of(trimmed(s)) {
        Some(v) => v,
        None => 0,
    }
}

/// Reads a project number: hex after `0x`, else decimal; 0 when unreadable.
pub fn parse_int(s: &[u8]) -> (r: u32)
    ensures
        r == parse_int_spec(s@),
{
    let t = trim(s);
    match parse_number(&t, 0, t.len()) {
        Some(v) => {
            proof {
                assert(t@.subrange(0, t@.len() as int) =~= t@);
            }
            v
        },
        None => {
            proof {
                assert(t@.subrange(0, t@.len() as int) =~= t@);
            }
            0
        },
    }
}

/// Where the run of non-whitespace starting at `i` ends.
pub open spec fn word_end(s: Seq<u8>, i: int) -> int
    decreases s.len() - i,
{
    if i < 0 || i >= s.len() || ws_at(s, i) != 0 {
        i
    } else {
        word_end(s, i + 1)
    }
}

/// The first whitespace-separated word of `s` (empty when there is none).
pub open spec fn first_word(s: Seq<u8>) -> Seq<u8> {
    let a = skip_ws(s, 0);
    s.subrange(a, word_end(s, a))
}

proof fn lemma_word_end_bounds(s: Seq<u8>, i: int)
    requires
        0 <= i <= s.len(),
    ensures
        i <= word_end(s, i) <= s.len(),
    decreases s.len() - i,
{
    if i < s.len() && ws_at(s, i) == 0 {
        lemma_word_end_bounds(s, i + 1);
    }
}

/// The language identifier of a project's `Language=` value: its first word in hex
/// (after `0x`) or decimal; 0x409 when that is missing, unreadable or zero.
pub open spec fn lcid_of(language: Seq<u8>) -> u32 {
    match number_of(first_word(language)) {
        Some(v) => if v != 0 { v } else { 0x409 },
        None => 0x409,
    }
}

/// Reads the language identifier from a `Language=` option.
pub fn parse_lcid(language: &[u8]) -> (r: u32)
    ensures
        r == lcid_of(language@),
{
    let (a, _) = trim_bounds(language, 0, language.len());
    proof {
        assert(language@.subrange(0, language@.len() as int) =~= language@);
        lemma_word_end_bounds(language@, a as int);
    }
    let mut e = a;
    while e < language.len() && ws_len_at(language, e) == 0
        invariant
            a <= e <= language@.len(),
            word_end(language@, e as int) == word_end(language@, a as int),
        decreases language@.len() - e,
    {
        e = e + 1;
    }
    match parse_number(language, a, e) {
        Some(v) => if v != 0 { v } else { 0x409 },
        None => 0x409,
    }
}

} // verus!
