//! Text encoding: source bytes (UTF-8, UTF-16 or a codepage) decoded to Unicode code
//! points, and metadata re-encoded as UTF-16LE or in a single-byte codepage.
use vstd::prelude::*;
use vstd::string::StringSliceAdditionalSpecFns;

verus! {

/// The upper half (bytes 0x80..0xFF) of a single-byte codepage.
pub struct CodepageTable {
    pub cp: u32,
    pub high: Vec<u16>,
}

/// Every table maps all 128 high bytes.
pub open spec fn tables_ok(ts: Seq<CodepageTable>) -> bool {
    forall|i: int| 0 <= i < ts.len() ==> (#[trigger] ts[i]).high@.len() == 128
}

/// The index of the first table for codepage `cp`, from `i` on; -1 when there is none.
pub open spec fn first_cp_from(ts: Seq<CodepageTable>, cp: u32, i: int) -> int
    decreases ts.len() - i,
{
    if i < 0 || i >= ts.len() {
        -1
    } else if ts[i].cp == cp {
        i
    } else {
        first_cp_from(ts, cp, i + 1)
    }
}

pub open spec fn table_index(ts: Seq<CodepageTable>, cp: u32) -> int {
    first_cp_from(ts, cp, 0)
}

/// The code point of byte `b`: ASCII as is, a high byte through the table when
/// there is one, else as Latin-1.
pub open spec fn byte_cp(b: u8, ts: Seq<CodepageTable>, cp: u32) -> u32 {
    if b < 0x80 {
        b as u32
    } else if table_index(ts, cp) >= 0 {
        ts[table_index(ts, cp)].high@[b - 0x80] as u32
    } else {
        b as u32
    }
}

/// Every byte decoded on its own in codepage `cp`.
pub open spec fn bytes_cp(d: Seq<u8>, ts: Seq<CodepageTable>, cp: u32) -> Seq<u32> {
    Seq::new(d.len(), |i: int| byte_cp(d[i], ts, cp))
}

/// The first table for codepage `cp`.
pub fn find_cp(tables: &[CodepageTable], cp: u32) -> (r: Option<usize>)
    ensures
        r matches Some(i) ==> i == table_index(tables@, cp) && i < tables@.len() && tables@[i as int].cp == cp,
        r is None ==> table_index(tables@, cp) == -1,
{
    let n = tables.len();
    let mut i: usize = 0;
    while i < n
        invariant
            i <= n,
            n == tables@.len(),
            table_index(tables@, cp) == first_cp_from(tables@, cp, i as int),
        decreases n - i,
    {
        if tables[i].cp == cp {
            return Some(i);
        }
        i = i + 1;
    }
    None
}

/// A byte decoded through an optional table.
pub fn decode_byte(b: u8, t: Option<&CodepageTable>) -> (r: u32)
    requires
        t matches Some(tt) ==> tt.high@.len() == 128,
    ensures
        r == (if b < 0x80 {
            b as u32
        } else {
            match t {
                Some(tt) => tt.high@[b - 0x80] as u32,
                None => b as u32,
            }
        }),
{
    if b < 0x80 {
        b as u32
    } else {
        match t {
            Some(tt) => tt.high[(b - 0x80) as usize] as u32,
            None => b as u32,
        }
    }
}

/// The length a UTF-8 lead byte announces (0 for a byte that cannot lead).
pub open spec fn utf8_len(b: u8) -> int {
    if b >= 0xF0 {
        4
    } else if b >= 0xE0 {
        3
    } else if b >= 0xC0 {
        2
    } else {
        0
    }
}

/// A UTF-8 sequence of the announced length starts at `p`: its lead byte, then
/// continuation bytes (0b10xxxxxx).
pub open spec fn utf8_seq_ok(d: Seq<u8>, p: int) -> bool {
    let len = utf8_len(d[p]);
    &&& 0 <= p < d.len()
    &&& len > 0
    &&& p + len <= d.len()
    &&& forall|k: int| 1 <= k < len ==> #[trigger] d[p + k] / 64 == 2
}

/// The payload bits of the first `k` bytes of the sequence at `p`.
pub open spec fn utf8_bits(d: Seq<u8>, p: int, len: int, k: int) -> int
    decreases k,
{
    if k <= 1 {
        (d[p] % (if len == 2 { 32u8 } else if len == 3 { 16u8 } else { 8u8 })) as int
    } else {
        utf8_bits(d, p, len, k - 1) * 64 + (d[p + k - 1] % 64) as int
    }
}

/// One step of UTF-8 decoding at `p`: the code point and where the next one starts.
/// A byte that does not start a whole sequence passes through as Latin-1.
pub open spec fn utf8_step(d: Seq<u8>, p: int) -> (u32, int) {
    if d[p] < 0x80 {
        (d[p] as u32, p + 1)
    } else if utf8_seq_ok(d, p) {
        (utf8_bits(d, p, utf8_len(d[p]), utf8_len(d[p])) as u32, p + utf8_len(d[p]))
    } else {
        (d[p] as u32, p + 1)
    }
}

/// All of `d` from `p` on, decoded as UTF-8.
pub open spec fn utf8_decode_from(d: Seq<u8>, p: int) -> Seq<u32>
    decreases d.len() - p,
{
    if p < 0 || p >= d.len() {
        Seq::empty()
    } else {
        let (c, q) = utf8_step(d, p);
        if q <= p {
            Seq::empty()
        } else {
            seq![c] + utf8_decode_from(d, q)
        }
    }
}

proof fn lemma_utf8_bits_bound(d: Seq<u8>, p: int, len: int, k: int)
    requires
        2 <= len <= 4,
        1 <= k <= len,
    ensures
        0 <= utf8_bits(d, p, len, k),
        utf8_bits(d, p, len, k) < 32 * pow64(k - 1),
    decreases k,
{
    if k > 1 {
        lemma_utf8_bits_bound(d, p, len, k - 1);
    }
}

pub open spec fn pow64(k: int) -> int
    decreases k,
{
    if k <= 0 { 1 } else { 64 * pow64(k - 1) }
}

/// Reads the UTF-8 sequence at `p`: its code point and where the next one starts.
/// Bytes that do not form a whole sequence pass through as Latin-1.
pub fn next_utf8(d: &[u8], p: usize) -> (r: (u32, usize))
    requires
        p < d@.len(),
    ensures
        r.0 == utf8_step(d@, p as int).0,
        r.1 == utf8_step(d@, p as int).1,
        p < r.1 <= d@.len(),
{
    let n = d.len();
    let b = d[p];
    if b < 0x80 {
        return (b as u32, p + 1);
    }
    let len: usize = if b >= 0xF0 {
        4
    } else if b >= 0xE0 {
        3
    } else if b >= 0xC0 {
        2
    } else {
        0
    };
    if len == 0 || len > n - p {
        return (b as u32, p + 1);
    }
    let mut i: usize = 1;
    while i < len
        invariant
            1 <= i <= len,
            len == utf8_len(b),
            p + len <= n,
            n == d@.len(),
            b == d@[p as int],
            forall|k: int| 1 <= k < i ==> #[trigger] d@[p + k] / 64 == 2,
        decreases len - i,
    {
        if d[p + i] / 64 != 2 {
            return (b as u32, p + 1);
        }
        i = i + 1;
    }
    let m: u8 = if len == 2 { 32 } else if len == 3 { 16 } else { 8 };
    let mut cp: u32 = (b % m) as u32;
    let mut i: usize = 1;
    while i < len
        invariant
            1 <= i <= len,
            2 <= len <= 4,
            len == utf8_len(b),
            p + len <= n,
            n == d@.len(),
            b == d@[p as int],
            cp == utf8_bits(d@, p as int, len as int, i as int),
        decreases len - i,
    {
        proof {
            lemma_utf8_bits_bound(d@, p as int, len as int, i as int);
            reveal_with_fuel(pow64, 4);
            assert(pow64(1) == 64);
            assert(pow64(2) == 4096);
            assert(pow64(3) == 262144);
        }
        cp = cp * 64 + (d[p + i] % 64) as u32;
        i = i + 1;
    }
    (cp, p + len)
}

/// Decodes all of `d` from `start` on as UTF-8.
fn decode_utf8_from(d: &[u8], start: usize) -> (out: Vec<u32>)
    requires
        start <= d@.len(),
    ensures
        out@ == utf8_decode_from(d@, start as int),
{
    let mut out: Vec<u32> = Vec::new();
    let mut p = start;
    while p < d.len()
        invariant
            start <= p <= d@.len(),
            out@ + utf8_decode_from(d@, p as int) == utf8_decode_from(d@, start as int),
        decreases d@.len() - p,
    {
        let (c, q) = next_utf8(d, p);
        proof {
            assert(utf8_decode_from(d@, p as int) == seq![c] + utf8_decode_from(d@, q as int));
            assert(out@.push(c) + utf8_decode_from(d@, q as int) =~= out@ + (seq![c] + utf8_decode_from(d@, q as int)));
        }
        out.push(c);
        p = q;
    }
    proof {
        assert(utf8_decode_from(d@, p as int) =~= Seq::<u32>::empty());
        assert(out@ + Seq::<u32>::empty() =~= out@);
    }
    out
}

/// Every byte of `d` decoded on its own in codepage `cp`.
fn decode_bytes(d: &[u8], tables: &[CodepageTable], cp: u32) -> (out: Vec<u32>)
    requires
        tables_ok(tables@),
    ensures
        out@ == bytes_cp(d@, tables@, cp),
{
    let t = find_cp(tables, cp);
    let n = d.len();
    let mut out: Vec<u32> = Vec::new();
    let mut i: usize = 0;
    while i < n
        invariant
            i <= n,
            n == d@.len(),
            tables_ok(tables@),
            t matches Some(k) ==> k == table_index(tables@, cp) && k < tables@.len(),
            t is None ==> table_index(tables@, cp) == -1,
            out@ == bytes_cp(d@, tables@, cp).subrange(0, i as int),
        decreases n - i,
    {
        let c = match t {
            Some(k) => decode_byte(d[i], Some(&tables[k])),
            None => decode_byte(d[i], None),
        };
        out.push(c);
        proof {
            assert(out@ =~= bytes_cp(d@, tables@, cp).subrange(0, i + 1));
        }
        i = i + 1;
    }
    proof {
        assert(out@ =~= bytes_cp(d@, tables@, cp));
    }
    out
}

/// The ANSI codepage of a Windows locale: by the full LCID first, then by its
/// primary language, 1252 otherwise.
pub open spec fn lcid_codepage(lcid: u32) -> u32 {
    if lcid == 0x0409 || lcid == 0x0809 || lcid == 0x0407 || lcid == 0x040C || lcid == 0x0410 || lcid == 0x040A
        || lcid == 0x0413 || lcid == 0x041D {
        1252
    } else if lcid == 0x0419 || lcid == 0x0422 || lcid == 0x0402 {
        1251
    } else if lcid == 0x041A || lcid == 0x0405 || lcid == 0x040E || lcid == 0x0415 || lcid == 0x0418 {
        1250
    } else if lcid == 0x0408 {
        1253
    } else if lcid == 0x041F {
        1254
    } else if lcid == 0x0427 || lcid == 0x0425 || lcid == 0x0426 {
        1257
    } else if lcid == 0x040D {
        1255
    } else if lcid == 0x0401 {
        1256
    } else if lcid == 0x041E {
        874
    } else if lcid == 0x0411 {
        932
    } else if lcid == 0x0804 {
        936
    } else if lcid == 0x0412 {
        949
    } else if lcid == 0x0404 {
        950
    } else if lcid == 0x042A {
        1258
    } else {
        let primary = lcid % 0x400;
        if primary == 0x19 || primary == 0x22 || primary == 0x02 {
            1251
        } else if primary == 0x1A || primary == 0x05 || primary == 0x0E || primary == 0x15 || primary == 0x18 {
            1250
        } else if primary == 0x08 {
            1253
        } else if primary == 0x1F {
            1254
        } else if primary == 0x27 || primary == 0x25 || primary == 0x26 {
            1257
        } else if primary == 0x0D {
            1255
        } else if primary == 0x01 {
            1256
        } else if primary == 0x1E {
            874
        } else if primary == 0x11 {
            932
        } else if primary == 0x12 {
            949
        } else if primary == 0x04 {
            936
        } else if primary == 0x2A {
            1258
        } else {
            1252
        }
    }
}

/// The ANSI codepage of a Windows locale.
pub fn codepage_for_lcid(lcid: u32) -> (r: u32)
    ensures
        r == lcid_codepage(lcid),
{
    if lcid == 0x0409 || lcid == 0x0809 || lcid == 0x0407 || lcid == 0x040C || lcid == 0x0410 || lcid == 0x040A
        || lcid == 0x0413 || lcid == 0x041D {
        return 1252;
    }
    if lcid == 0x0419 || lcid == 0x0422 || lcid == 0x0402 {
        return 1251;
    }
    if lcid == 0x041A || lcid == 0x0405 || lcid == 0x040E || lcid == 0x0415 || lcid == 0x0418 {
        return 1250;
    }
    if lcid == 0x0408 {
        return 1253;
    }
    if lcid == 0x041F {
        return 1254;
    }
    if lcid == 0x0427 || lcid == 0x0425 || lcid == 0x0426 {
        return 1257;
    }
    if lcid == 0x040D {
        return 1255;
    }
    if lcid == 0x0401 {
        return 1256;
    }
    if lcid == 0x041E {
        return 874;
    }
    if lcid == 0x0411 {
        return 932;
    }
    if lcid == 0x0804 {
        return 936;
    }
    if lcid == 0x0412 {
        return 949;
    }
    if lcid == 0x0404 {
        return 950;
    }
    if lcid == 0x042A {
        return 1258;
    }
    let primary = lcid % 0x400;
    if primary == 0x19 || primary == 0x22 || primary == 0x02 {
        1251
    } else if primary == 0x1A || primary == 0x05 || primary == 0x0E || primary == 0x15 || primary == 0x18 {
        1250
    } else if primary == 0x08 {
        1253
    } else if primary == 0x1F {
        1254
    } else if primary == 0x27 || primary == 0x25 || primary == 0x26 {
        1257
    } else if primary == 0x0D {
        1255
    } else if primary == 0x01 {
        1256
    } else if primary == 0x1E {
        874
    } else if primary == 0x11 {
        932
    } else if primary == 0x12 {
        949
    } else if primary == 0x04 {
        936
    } else if primary == 0x2A {
        1258
    } else {
        1252
    }
}

/// The double-byte (East Asian) codepages.
pub open spec fn dbcs_spec(cp: u32) -> bool {
    cp == 932 || cp == 936 || cp == 949 || cp == 950 || cp == 1361
}

/// Whether `cp` is a double-byte codepage.
pub fn is_dbcs_codepage(cp: u32) -> (r: bool)
    ensures
        r == dbcs_spec(cp),
{
    cp == 932 || cp == 936 || cp == 949 || cp == 950 || cp == 1361
}

/// Every byte of `s` decoded on its own in codepage `cp`.
pub fn decode_codepage(s: &str, cp: u32, tables: &[CodepageTable]) -> (r: Vec<u32>)
    requires
        tables_ok(tables@),
    ensures
        r@ == bytes_cp(s.spec_bytes(), tables@, cp),
{
    decode_bytes(s.as_bytes(), tables, cp)
}

/// From `i` on, `d` is a run of ASCII bytes and whole UTF-8 sequences.
pub open spec fn utf8_clean_from(d: Seq<u8>, i: int) -> bool
    decreases d.len() - i,
{
    if i < 0 || i >= d.len() {
        true
    } else if d[i] < 0x80 {
        utf8_clean_from(d, i + 1)
    } else if utf8_seq_ok(d, i) {
        utf8_clean_from(d, i + utf8_len(d[i]))
    } else {
        false
    }
}

/// Some byte of `d` is not ASCII.
pub open spec fn has_high(d: Seq<u8>) -> bool {
    exists|k: int| 0 <= k < d.len() && #[trigger] d[k] >= 0x80
}

/// Text that is well-formed UTF-8 with at least one multi-byte sequence is read as
/// UTF-8; anything else byte by byte in codepage `cp`.
pub fn decode_auto(s: &str, cp: u32, tables: &[CodepageTable]) -> (r: Vec<u32>)
    requires
        tables_ok(tables@),
    ensures
        r@ == auto_cps(s.spec_bytes(), cp, tables@),
{
    decode_auto_bytes(s.as_bytes(), cp, tables)
}

/// What `decode_auto` makes of the bytes of a string.
pub open spec fn auto_cps(d: Seq<u8>, cp: u32, ts: Seq<CodepageTable>) -> Seq<u32> {
    if utf8_clean_from(d, 0) && has_high(d) {
        utf8_decode_from(d, 0)
    } else {
        bytes_cp(d, ts, cp)
    }
}

/// `decode_auto` on the bytes of a string.
pub fn decode_auto_bytes(bytes: &[u8], cp: u32, tables: &[CodepageTable]) -> (r: Vec<u32>)
    requires
        tables_ok(tables@),
    ensures
        r@ == auto_cps(bytes@, cp, tables@),
{
    let n = bytes.len();
    let mut multibyte = false;
    let mut valid = true;
    let mut i: usize = 0;
    while i < n && valid
        invariant
            i <= n,
            n == bytes@.len(),
            valid ==> (utf8_clean_from(bytes@, 0) == utf8_clean_from(bytes@, i as int)),
            !valid ==> !utf8_clean_from(bytes@, 0),
            valid ==> (multibyte <==> exists|k: int| 0 <= k < i && #[trigger] bytes@[k] >= 0x80),
        decreases n - i + (if valid { 1int } else { 0int }),
    {
        let b = bytes[i];
        if b < 0x80 {
            proof {
                assert forall|k: int| 0 <= k < i + 1 && #[trigger] bytes@[k] >= 0x80 implies 0 <= k < i by {
                }
            }
            i = i + 1;
        } else {
            let len: usize = if b >= 0xF0 {
                4
            } else if b >= 0xE0 {
                3
            } else if b >= 0xC0 {
                2
            } else {
                0
            };
            if len == 0 || len > n - i {
                valid = false;
            } else {
                let mut k: usize = 1;
                let mut ok = true;
                while k < len
                    invariant
                        1 <= k <= len,
                        len == utf8_len(b),
                        i + len <= n,
                        n == bytes@.len(),
                        b == bytes@[i as int],
                        ok == (forall|q: int| 1 <= q < k ==> #[trigger] bytes@[i + q] / 64 == 2),
                    decreases len - k,
                {
                    if bytes[i + k] / 64 != 2 {
                        ok = false;
                    }
                    k = k + 1;
                }
                if ok {
                    proof {
                        assert(bytes@[i as int] >= 0x80);
                    }
                    multibyte = true;
                    i = i + len;
                } else {
                    valid = false;
                }
            }
        }
    }
    proof {
        if valid {
            assert(utf8_clean_from(bytes@, i as int));
        }
    }
    if valid && multibyte {
        decode_utf8_from(bytes, 0)
    } else {
        decode_bytes(bytes, tables, cp)
    }
}


/// ASCII upper case folded to lower case.
pub open spec fn lc(b: u8) -> u8 {
    if 65 <= b <= 90 { (b + 32) as u8 } else { b }
}

pub open spec fn lc_seq(s: Seq<u8>) -> Seq<u8> {
    Seq::new(s.len(), |i: int| lc(s[i]))
}

/// How far into the text the charset declaration is looked for.
pub open spec fn sniff_lim(d: Seq<u8>) -> int {
    if d.len() < 2048 { d.len() as int } else { 2048 }
}

pub open spec fn charset_word() -> Seq<u8> {
    seq![0x63u8, 0x68, 0x61, 0x72, 0x73, 0x65, 0x74]
}

/// The word `charset`, in any case, at `i`.
pub open spec fn charset_at(d: Seq<u8>, i: int) -> bool {
    &&& 0 <= i
    &&& i + 7 <= sniff_lim(d)
    &&& forall|k: int| 0 <= k < 7 ==> #[trigger] lc(d[i + k]) == charset_word()[k]
}

/// The first `charset` in the text.
pub open spec fn first_charset(d: Seq<u8>, i: int) -> bool {
    &&& charset_at(d, i)
    &&& forall|j: int| 0 <= j < i ==> !#[trigger] charset_at(d, j)
}

/// Separators between `charset` and the name: `=`, space, quotes, colon.
pub open spec fn is_sep(b: u8) -> bool {
    b == 0x3D || b == 0x20 || b == 0x22 || b == 0x27 || b == 0x3A
}

/// Characters of a charset name: ASCII letters, digits and `-`.
pub open spec fn is_name_char(b: u8) -> bool {
    (0x30 <= b <= 0x39) || (0x41 <= b <= 0x5A) || (0x61 <= b <= 0x7A) || b == 0x2D
}

/// `[a, b)` is the longest run of separators starting at `a`.
pub open spec fn sep_run(d: Seq<u8>, a: int, b: int) -> bool {
    &&& a <= b <= sniff_lim(d)
    &&& forall|k: int| a <= k < b ==> is_sep(#[trigger] d[k])
    &&& b < sniff_lim(d) ==> !is_sep(d[b])
}

/// `[a, b)` is the longest run of name characters starting at `a`.
pub open spec fn name_run(d: Seq<u8>, a: int, b: int) -> bool {
    &&& a <= b <= sniff_lim(d)
    &&& forall|k: int| a <= k < b ==> is_name_char(#[trigger] d[k])
    &&& b < sniff_lim(d) ==> !is_name_char(d[b])
}

pub open spec fn is_digit(b: u8) -> bool {
    0x30 <= b <= 0x39
}

/// The number a run of decimal digits stands for.
pub open spec fn digits_value(s: Seq<u8>) -> nat
    decreases s.len(),
{
    if s.len() == 0 {
        0
    } else {
        digits_value(s.drop_last()) * 10 + (s.last() - 0x30) as nat
    }
}

/// A decimal number that fits in 32 bits; 0 for anything else.
pub open spec fn parse_u32(s: Seq<u8>) -> u32 {
    if s.len() > 0 && (forall|i: int| 0 <= i < s.len() ==> is_digit(#[trigger] s[i])) && digits_value(s) <= 0xFFFF_FFFF {
        digits_value(s) as u32
    } else {
        0
    }
}

/// `windows-`.
pub open spec fn windows_prefix() -> Seq<u8> {
    seq![0x77u8, 0x69, 0x6E, 0x64, 0x6F, 0x77, 0x73, 0x2D]
}

/// The codepage a (lower-case) charset name stands for; 0 when unknown.
pub open spec fn charset_code(n: Seq<u8>) -> u32 {
    if n == "utf-8".spec_bytes() || n == "utf8".spec_bytes() {
        65001
    } else if n == "utf-16".spec_bytes() || n == "utf-16le".spec_bytes() || n == "unicode".spec_bytes() {
        1200
    } else if n == "iso-8859-1".spec_bytes() || n == "latin1".spec_bytes() {
        1252
    } else if n.len() >= 8 && n.subrange(0, 8) == windows_prefix() {
        parse_u32(n.subrange(8, n.len() as int))
    } else {
        0
    }
}

/// The codepage declared by the first `charset` in the first 2048 bytes; 0 when
/// there is none.
pub open spec fn sniffed(d: Seq<u8>) -> u32 {
    if exists|i: int| #[trigger] first_charset(d, i) {
        let i = choose|i: int| #[trigger] first_charset(d, i);
        let ns = choose|ns: int| #[trigger] sep_run(d, i + 7, ns);
        let ne = choose|ne: int| #[trigger] name_run(d, ns, ne);
        charset_code(lc_seq(d.subrange(ns, ne)))
    } else {
        0
    }
}

fn same_bytes(a: &Vec<u8>, b: &[u8]) -> (r: bool)
    ensures
        r == (a@ == b@),
{
    if a.len() != b.len() {
        return false;
    }
    let n = a.len();
    let mut k: usize = 0;
    while k < n
        invariant
            k <= n,
            n == a@.len(),
            n == b@.len(),
            forall|i: int| 0 <= i < k ==> #[trigger] a@[i] == b@[i],
        decreases n - k,
    {
        if a[k] != b[k] {
            return false;
        }
        k = k + 1;
    }
    proof {
        assert(a@ =~= b@);
    }
    true
}

fn lower_byte(b: u8) -> (r: u8)
    ensures
        r == lc(b),
{
    if 65 <= b && b <= 90 { b + 32 } else { b }
}

/// The decimal number in `s[from..]`, or 0 when it is not one or does not fit.
fn parse_digits(s: &Vec<u8>, from: usize) -> (r: u32)
    requires
        from <= s@.len(),
    ensures
        r == parse_u32(s@.subrange(from as int, s@.len() as int)),
{
    let n = s.len();
    if from == n {
        return 0;
    }
    let mut v: u64 = 0;
    let mut k = from;
    while k < n
        invariant
            from <= k <= n,
            n == s@.len(),
            forall|i: int| from <= i < k ==> is_digit(#[trigger] s@[i]),
            v == (if digits_value(s@.subrange(from as int, k as int)) < 0x1_0000_0000 {
                digits_value(s@.subrange(from as int, k as int))
            } else {
                0x1_0000_0000
            }),
        decreases n - k,
    {
        let b = s[k];
        if b < 0x30 || b > 0x39 {
            proof {
                let t = s@.subrange(from as int, n as int);
                assert(!is_digit(t[k - from]));
            }
            return 0;
        }
        proof {
            assert(s@.subrange(from as int, k + 1).drop_last() =~= s@.subrange(from as int, k as int));
        }
        let w = v * 10 + (b - 0x30) as u64;
        v = if w < 0x1_0000_0000 { w } else { 0x1_0000_0000 };
        k = k + 1;
    }
    proof {
        let t = s@.subrange(from as int, n as int);
        assert forall|i: int| 0 <= i < t.len() implies is_digit(#[trigger] t[i]) by {
            assert(t[i] == s@[from + i]);
        }
    }
    if v < 0x1_0000_0000 { v as u32 } else { 0 }
}

/// The codepage of a lower-case charset name.
fn code_of_name(n: &Vec<u8>) -> (r: u32)
    ensures
        r == charset_code(n@),
{
    if same_bytes(n, "utf-8".as_bytes()) || same_bytes(n, "utf8".as_bytes()) {
        65001
    } else if same_bytes(n, "utf-16".as_bytes()) || same_bytes(n, "utf-16le".as_bytes()) || same_bytes(n, "unicode".as_bytes()) {
        1200
    } else if same_bytes(n, "iso-8859-1".as_bytes()) || same_bytes(n, "latin1".as_bytes()) {
        1252
    } else {
        let w: [u8; 8] = [0x77, 0x69, 0x6E, 0x64, 0x6F, 0x77, 0x73, 0x2D];
        proof {
            assert(w@ =~= windows_prefix());
        }
        let wl: usize = 8;
        if n.len() < wl {
            return 0;
        }
        let mut k: usize = 0;
        while k < wl
            invariant
                k <= wl,
                wl == w@.len(),
                wl <= n@.len(),
                w@ == windows_prefix(),
                forall|i: int| 0 <= i < k ==> #[trigger] n@[i] == w@[i],
                charset_code(n@) == (if n@.len() >= 8 && n@.subrange(0, 8) == windows_prefix() {
                    parse_u32(n@.subrange(8, n@.len() as int))
                } else {
                    0
                }),
            decreases wl - k,
        {
            if n[k] != w[k] {
                proof {
                    assert(n@.subrange(0, wl as int)[k as int] != w@[k as int]);
                }
                return 0;
            }
            k = k + 1;
        }
        proof {
            assert(n@.subrange(0, 8) =~= w@);
        }
        parse_digits(n, 8)
    }
}

/// Whether the word `charset`, in any case, is at `i`.
fn charset_here(d: &[u8], i: usize, lim: usize) -> (r: bool)
    requires
        lim == sniff_lim(d@),
        i + 7 <= lim,
    ensures
        r == charset_at(d@, i as int),
{
    let w: [u8; 7] = [0x63, 0x68, 0x61, 0x72, 0x73, 0x65, 0x74];
    proof {
        assert(w@ =~= charset_word());
    }
    let mut k: usize = 0;
    while k < 7
        invariant
            k <= 7,
            i + 7 <= lim,
            lim <= d@.len(),
            w@ == charset_word(),
            forall|q: int| 0 <= q < k ==> #[trigger] lc(d@[i + q]) == charset_word()[q],
        decreases 7 - k,
    {
        if lower_byte(d[i + k]) != w[k] {
            return false;
        }
        k = k + 1;
    }
    true
}

/// The codepage the text declares with `charset=...` in its first 2048 bytes
/// (`utf-8`, `utf-16`, `iso-8859-1`, `windows-NNNN` and their aliases); 0 when it
/// declares none that is known.
pub fn sniff_charset(d: &[u8]) -> (r: u32)
    ensures
        r == sniffed(d@),
{
    let lim: usize = if d.len() < 2048 { d.len() } else { 2048 };
    let mut i: usize = 0;
    let mut found = false;
    while i + 7 <= lim && !found
        invariant
            lim == sniff_lim(d@),
            i <= lim,
            forall|j: int| 0 <= j < i ==> !#[trigger] charset_at(d@, j),
            found ==> charset_at(d@, i as int),
        decreases lim - i + (if found { 0int } else { 1int }),
    {
        if charset_here(d, i, lim) {
            found = true;
        } else {
            i = i + 1;
        }
    }
    if !found {
        proof {
            assert forall|j: int| #[trigger] first_charset(d@, j) implies false by {
                if j >= i {
                    assert(j + 7 <= sniff_lim(d@));
                }
            }
        }
        return 0;
    }
    let mut j = i + 7;
    while j < lim && (d[j] == 0x3D || d[j] == 0x20 || d[j] == 0x22 || d[j] == 0x27 || d[j] == 0x3A)
        invariant
            lim == sniff_lim(d@),
            i + 7 <= j <= lim,
            forall|k: int| i + 7 <= k < j ==> is_sep(#[trigger] d@[k]),
        decreases lim - j,
    {
        j = j + 1;
    }
    let ns = j;
    let mut name: Vec<u8> = Vec::new();
    while j < lim && ((0x30 <= d[j] && d[j] <= 0x39) || (0x41 <= d[j] && d[j] <= 0x5A) || (0x61 <= d[j] && d[j] <= 0x7A) || d[j] == 0x2D)
        invariant
            lim == sniff_lim(d@),
            ns <= j <= lim,
            forall|k: int| ns <= k < j ==> is_name_char(#[trigger] d@[k]),
            name@ == lc_seq(d@.subrange(ns as int, j as int)),
        decreases lim - j,
    {
        name.push(lower_byte(d[j]));
        proof {
            assert(name@ =~= lc_seq(d@.subrange(ns as int, j + 1)));
        }
        j = j + 1;
    }
    let r = code_of_name(&name);
    proof {
        assert(first_charset(d@, i as int));
        assert(sep_run(d@, i + 7, ns as int));
        assert(name_run(d@, ns as int, j as int));
        let ci = choose|ci: int| #[trigger] first_charset(d@, ci);
        if ci < i {
            assert(!charset_at(d@, ci));
        } else if ci > i {
            assert(!charset_at(d@, i as int));
        }
        assert(ci == i);
        let cns = choose|x: int| #[trigger] sep_run(d@, i + 7, x);
        if cns < ns {
            assert(is_sep(d@[cns]));
        } else if cns > ns {
            assert(is_sep(d@[ns as int]));
        }
        assert(cns == ns);
        let cne = choose|x: int| #[trigger] name_run(d@, ns as int, x);
        if cne < j {
            assert(is_name_char(d@[cne]));
        } else if cne > j {
            assert(is_name_char(d@[j as int]));
        }
        assert(cne == j);
    }
    r
}

/// Little-endian 16-bit units.
pub open spec fn utf16le_units(s: Seq<u8>) -> Seq<u32> {
    Seq::new(s.len() / 2, |i: int| (s[2 * i] + 256 * s[2 * i + 1]) as u32)
}

/// Big-endian 16-bit units.
pub open spec fn utf16be_units(s: Seq<u8>) -> Seq<u32> {
    Seq::new(s.len() / 2, |i: int| (256 * s[2 * i] + s[2 * i + 1]) as u32)
}

/// The code points of a source file: by its byte-order mark (UTF-8, UTF-16LE,
/// UTF-16BE, an odd last byte dropped), else by its declared charset, else in
/// `fallback_cp`; codepage 65001 is UTF-8.
pub open spec fn text_cps(d: Seq<u8>, fallback_cp: u32, ts: Seq<CodepageTable>) -> Seq<u32> {
    if d.len() >= 3 && d[0] == 0xEF && d[1] == 0xBB && d[2] == 0xBF {
        utf8_decode_from(d, 3)
    } else if d.len() >= 2 && d[0] == 0xFF && d[1] == 0xFE {
        utf16le_units(d.subrange(2, d.len() as int))
    } else if d.len() >= 2 && d[0] == 0xFE && d[1] == 0xFF {
        utf16be_units(d.subrange(2, d.len() as int))
    } else {
        let cp = if sniffed(d) == 0 { fallback_cp } else { sniffed(d) };
        if cp == 65001 {
            utf8_decode_from(d, 0)
        } else {
            bytes_cp(d, ts, cp)
        }
    }
}

fn units16(d: &[u8], little: bool) -> (out: Vec<u32>)
    requires
        d@.len() >= 2,
    ensures
        little ==> out@ == utf16le_units(d@.subrange(2, d@.len() as int)),
        !little ==> out@ == utf16be_units(d@.subrange(2, d@.len() as int)),
{
    let n = d.len();
    let m = (n - 2) / 2;
    let mut out: Vec<u32> = Vec::new();
    let mut k: usize = 0;
    let ghost s = d@.subrange(2, n as int);
    while k < m
        invariant
            k <= m,
            m == (n - 2) / 2,
            n == d@.len(),
            s == d@.subrange(2, n as int),
            out@.len() == k,
            little ==> forall|q: int| 0 <= q < k ==> #[trigger] out@[q] == (s[2 * q] + 256 * s[2 * q + 1]) as u32,
            !little ==> forall|q: int| 0 <= q < k ==> #[trigger] out@[q] == (256 * s[2 * q] + s[2 * q + 1]) as u32,
        decreases m - k,
    {
        let a = d[2 + 2 * k] as u32;
        let b = d[3 + 2 * k] as u32;
        if little {
            out.push(a + 256 * b);
        } else {
            out.push(256 * a + b);
        }
        k = k + 1;
    }
    proof {
        if little {
            assert(out@ =~= utf16le_units(s));
        } else {
            assert(out@ =~= utf16be_units(s));
        }
    }
    out
}

/// Decodes a source file to code points: a byte-order mark decides (UTF-8, UTF-16LE,
/// UTF-16BE); else the declared charset, else `fallback_cp`.
pub fn decode_text(data: &[u8], fallback_cp: u32, tables: &[CodepageTable]) -> (r: Vec<u32>)
    requires
        tables_ok(tables@),
    ensures
        r@ == text_cps(data@, fallback_cp, tables@),
{
    let n = data.len();
    if n >= 3 && data[0] == 0xEF && data[1] == 0xBB && data[2] == 0xBF {
        return decode_utf8_from(data, 3);
    }
    if n >= 2 && data[0] == 0xFF && data[1] == 0xFE {
        return units16(data, true);
    }
    if n >= 2 && data[0] == 0xFE && data[1] == 0xFF {
        return units16(data, false);
    }
    let mut cp = sniff_charset(data);
    if cp == 0 {
        cp = fallback_cp;
    }
    if cp == 65001 {
        return decode_utf8_from(data, 0);
    }
    decode_bytes(data, tables, cp)
}

/// The UTF-16LE bytes of one code point (a surrogate pair above 0xFFFF).
pub open spec fn utf16le_of(c: u32) -> Seq<u8> {
    if c <= 0xFFFF {
        seq![(c % 256) as u8, ((c / 256) % 256) as u8]
    } else {
        let v = c - 0x10000;
        let hi = 0xD800 + v / 1024;
        let lo = 0xDC00 + v % 1024;
        seq![(hi % 256) as u8, ((hi / 256) % 256) as u8, (lo % 256) as u8, ((lo / 256) % 256) as u8]
    }
}

pub open spec fn utf16le_bytes(cps: Seq<u32>) -> Seq<u8>
    decreases cps.len(),
{
    if cps.len() == 0 {
        Seq::empty()
    } else {
        utf16le_bytes(cps.drop_last()) + utf16le_of(cps.last())
    }
}

/// Appends the code points as UTF-16LE.
pub fn append_utf16le(out: &mut Vec<u8>, cps: &[u32])
    ensures
        final(out)@ == old(out)@ + utf16le_bytes(cps@),
{
    let n = cps.len();
    let mut k: usize = 0;
    proof {
        assert(cps@.take(0) =~= Seq::<u32>::empty());
        assert(out@ =~= old(out)@ + utf16le_bytes(cps@.take(0)));
    }
    while k < n
        invariant
            k <= n,
            n == cps@.len(),
            out@ == old(out)@ + utf16le_bytes(cps@.take(k as int)),
        decreases n - k,
    {
        let c = cps[k];
        let ghost o = out@;
        if c <= 0xFFFF {
            out.push((c % 256) as u8);
            out.push(((c / 256) % 256) as u8);
        } else {
            let v = c - 0x10000;
            let hi = 0xD800 + v / 1024;
            let lo = 0xDC00 + v % 1024;
            out.push((hi % 256) as u8);
            out.push(((hi / 256) % 256) as u8);
            out.push((lo % 256) as u8);
            out.push(((lo / 256) % 256) as u8);
        }
        proof {
            assert(cps@.take(k + 1).drop_last() =~= cps@.take(k as int));
            assert(out@ =~= o + utf16le_of(c));
        }
        k = k + 1;
    }
    proof {
        assert(cps@.take(n as int) =~= cps@);
    }
}

/// What `append_utf16le` writes, `decode_text` reads back after a little-endian
/// byte-order mark, for code points of the basic plane.
pub proof fn lemma_utf16_round_trip(cps: Seq<u32>, fallback_cp: u32, ts: Seq<CodepageTable>)
    requires
        forall|i: int| 0 <= i < cps.len() ==> #[trigger] cps[i] <= 0xFFFF,
    ensures
        text_cps(seq![0xFFu8, 0xFE] + utf16le_bytes(cps), fallback_cp, ts) == cps,
{
    lemma_units_of_bytes(cps);
    let d = seq![0xFFu8, 0xFE] + utf16le_bytes(cps);
    assert(d.subrange(2, d.len() as int) =~= utf16le_bytes(cps));
}

proof fn lemma_units_of_bytes(cps: Seq<u32>)
    requires
        forall|i: int| 0 <= i < cps.len() ==> #[trigger] cps[i] <= 0xFFFF,
    ensures
        utf16le_bytes(cps).len() == 2 * cps.len(),
        utf16le_units(utf16le_bytes(cps)) == cps,
    decreases cps.len(),
{
    if cps.len() > 0 {
        let p = cps.drop_last();
        assert forall|i: int| 0 <= i < p.len() implies #[trigger] p[i] <= 0xFFFF by {
            assert(p[i] == cps[i]);
        }
        lemma_units_of_bytes(p);
        let c = cps.last();
        assert(c <= 0xFFFF);
        let b = utf16le_bytes(cps);
        assert(b == utf16le_bytes(p) + utf16le_of(c));
        assert((c % 256) + 256 * ((c / 256) % 256) == c);
        assert forall|i: int| 0 <= i < cps.len() implies #[trigger] utf16le_units(b)[i] == cps[i] by {
            if i < p.len() {
                assert(b[2 * i] == utf16le_bytes(p)[2 * i]);
                assert(b[2 * i + 1] == utf16le_bytes(p)[2 * i + 1]);
                assert(utf16le_units(utf16le_bytes(p))[i] == p[i]);
            } else {
                assert(b[2 * i] == (c % 256) as u8);
                assert(b[2 * i + 1] == ((c / 256) % 256) as u8);
            }
        }
        assert(utf16le_units(b) =~= cps);
    }
}


/// A Unicode scalar value: at most 0x10FFFF and no surrogate.
pub open spec fn scalar_ok(c: u32) -> bool {
    c <= 0x10FFFF && !(0xD800 <= c <= 0xDFFF)
}

/// The UTF-8 bytes of a code point.
pub open spec fn utf8_of(c: u32) -> Seq<u8> {
    if c < 0x80 {
        seq![c as u8]
    } else if c < 0x800 {
        seq![(0xC0 + c / 64) as u8, (0x80 + c % 64) as u8]
    } else if c < 0x10000 {
        seq![(0xE0 + c / 4096) as u8, (0x80 + (c / 64) % 64) as u8, (0x80 + c % 64) as u8]
    } else {
        seq![(0xF0 + c / 262144) as u8, (0x80 + (c / 4096) % 64) as u8, (0x80 + (c / 64) % 64) as u8, (0x80 + c % 64) as u8]
    }
}

/// The UTF-8 bytes of the scalar values among `cps` (the others are dropped).
pub open spec fn utf8_bytes(cps: Seq<u32>) -> Seq<u8>
    decreases cps.len(),
{
    if cps.len() == 0 {
        Seq::empty()
    } else {
        utf8_bytes(cps.drop_last()) + (if scalar_ok(cps.last()) { utf8_of(cps.last()) } else { Seq::empty() })
    }
}

/// The first high byte of a table that maps to `c`, from `i` on; -1 when none does.
pub open spec fn first_high_from(h: Seq<u16>, c: u32, i: int) -> int
    decreases 128 - i,
{
    if i < 0 || i >= 128 || i >= h.len() {
        -1
    } else if h[i] as u32 == c {
        i
    } else {
        first_high_from(h, c, i + 1)
    }
}

/// A code point in a single-byte codepage: ASCII as is; else the first high byte of
/// the codepage's table that maps to it, or Latin-1 when there is no table; `?` when
/// it cannot be written.
pub open spec fn cp_byte(c: u32, ts: Seq<CodepageTable>, cp: u32) -> u8 {
    if c < 0x80 {
        c as u8
    } else if table_index(ts, cp) >= 0 {
        let k = first_high_from(ts[table_index(ts, cp)].high@, c, 0);
        if k >= 0 { (0x80 + k) as u8 } else { 0x3F }
    } else if c <= 0xFF {
        c as u8
    } else {
        0x3F
    }
}

/// What `encode_codepage` writes.
pub open spec fn encoded(cps: Seq<u32>, cp: u32, ts: Seq<CodepageTable>) -> Seq<u8> {
    if dbcs_spec(cp) || cp == 65001 {
        utf8_bytes(cps)
    } else {
        Seq::new(cps.len(), |i: int| cp_byte(cps[i], ts, cp))
    }
}

fn push_utf8(out: &mut Vec<u8>, c: u32)
    requires
        scalar_ok(c),
    ensures
        final(out)@ == old(out)@ + utf8_of(c),
{
    if c < 0x80 {
        out.push(c as u8);
    } else if c < 0x800 {
        out.push((0xC0 + c / 64) as u8);
        out.push((0x80 + c % 64) as u8);
    } else if c < 0x10000 {
        out.push((0xE0 + c / 4096) as u8);
        out.push((0x80 + (c / 64) % 64) as u8);
        out.push((0x80 + c % 64) as u8);
    } else {
        out.push((0xF0 + c / 262144) as u8);
        out.push((0x80 + (c / 4096) % 64) as u8);
        out.push((0x80 + (c / 64) % 64) as u8);
        out.push((0x80 + c % 64) as u8);
    }
    assert(out@ =~= old(out)@ + utf8_of(c));
}

/// The byte a code point takes in a single-byte codepage with table `t`.
fn map_high(c: u32, t: Option<&CodepageTable>) -> (r: u8)
    requires
        c >= 0x80,
        t matches Some(tt) ==> tt.high@.len() == 128,
    ensures
        r == (match t {
            Some(tt) => if first_high_from(tt.high@, c, 0) >= 0 { (0x80 + first_high_from(tt.high@, c, 0)) as u8 } else { 0x3Fu8 },
            None => if c <= 0xFF { c as u8 } else { 0x3Fu8 },
        }),
{
    match t {
        Some(tt) => {
            let mut i: usize = 0;
            while i < 128
                invariant
                    i <= 128,
                    t == Some(tt),
                    c >= 0x80,
                    tt.high@.len() == 128,
                    first_high_from(tt.high@, c, 0) == first_high_from(tt.high@, c, i as int),
                decreases 128 - i,
            {
                if tt.high[i] as u32 == c {
                    proof {
                        assert(first_high_from(tt.high@, c, i as int) == i);
                    }
                    return (0x80 + i) as u8;
                }
                i = i + 1;
            }
            0x3F
        },
        None => if c <= 0xFF { c as u8 } else { 0x3F },
    }
}

/// Encodes code points for metadata: in a double-byte or UTF-8 codepage as UTF-8
/// (values that are no Unicode scalar are dropped); else one byte each in the
/// single-byte codepage, `?` for what it cannot hold.
pub fn encode_codepage(cps: &[u32], cp: u32, tables: &[CodepageTable]) -> (r: Vec<u8>)
    requires
        tables_ok(tables@),
    ensures
        r@ == encoded(cps@, cp, tables@),
{
    let n = cps.len();
    let mut out: Vec<u8> = Vec::new();
    if is_dbcs_codepage(cp) || cp == 65001 {
        let mut k: usize = 0;
        proof {
            assert(cps@.take(0) =~= Seq::<u32>::empty());
        }
        while k < n
            invariant
                k <= n,
                n == cps@.len(),
                out@ == utf8_bytes(cps@.take(k as int)),
            decreases n - k,
        {
            let c = cps[k];
            let ghost o = out@;
            if c <= 0x10FFFF && !(0xD800 <= c && c <= 0xDFFF) {
                push_utf8(&mut out, c);
            }
            proof {
                assert(cps@.take(k + 1).drop_last() =~= cps@.take(k as int));
                if !scalar_ok(c) {
                    assert(out@ =~= o + Seq::<u8>::empty());
                }
            }
            k = k + 1;
        }
        proof {
            assert(cps@.take(n as int) =~= cps@);
        }
        return out;
    }
    let t = find_cp(tables, cp);
    let mut k: usize = 0;
    while k < n
        invariant
            k <= n,
            n == cps@.len(),
            tables_ok(tables@),
            !(dbcs_spec(cp) || cp == 65001),
            t matches Some(i) ==> i == table_index(tables@, cp) && i < tables@.len(),
            t is None ==> table_index(tables@, cp) == -1,
            out@ == encoded(cps@, cp, tables@).subrange(0, k as int),
        decreases n - k,
    {
        let c = cps[k];
        let b = if c < 0x80 {
            c as u8
        } else {
            match t {
                Some(i) => map_high(c, Some(&tables[i])),
                None => map_high(c, None),
            }
        };
        out.push(b);
        proof {
            assert(out@ =~= encoded(cps@, cp, tables@).subrange(0, k + 1));
        }
        k = k + 1;
    }
    proof {
        assert(out@ =~= encoded(cps@, cp, tables@));
    }
    out
}

/// What is written as UTF-8 reads back: decoding the UTF-8 bytes of a scalar value
/// gives the value and the sequence's length.
pub proof fn lemma_utf8_round_trip(c: u32)
    requires
        scalar_ok(c),
    ensures
        utf8_step(utf8_of(c), 0) == (c, utf8_of(c).len() as int),
{
    let s = utf8_of(c);
    if c < 0x80 {
    } else if c < 0x800 {
        assert(utf8_len(s[0]) == 2);
        assert(s[1] / 64 == 2);
        assert(utf8_seq_ok(s, 0));
        assert(utf8_bits(s, 0, 2, 1) == c / 64);
        assert(utf8_bits(s, 0, 2, 2) == (c / 64) * 64 + c % 64);
    } else if c < 0x10000 {
        assert(utf8_len(s[0]) == 3);
        assert(s[1] / 64 == 2);
        assert(s[2] / 64 == 2);
        assert(utf8_seq_ok(s, 0));
        assert(utf8_bits(s, 0, 3, 1) == c / 4096);
        assert(utf8_bits(s, 0, 3, 2) == (c / 4096) * 64 + (c / 64) % 64);
        assert(utf8_bits(s, 0, 3, 3) == ((c / 4096) * 64 + (c / 64) % 64) * 64 + c % 64);
        assert(((c / 4096) * 64 + (c / 64) % 64) * 64 + c % 64 == c) by (nonlinear_arith)
            requires c < 0x10000;
    } else {
        assert(utf8_len(s[0]) == 4);
        assert(s[1] / 64 == 2);
        assert(s[2] / 64 == 2);
        assert(s[3] / 64 == 2);
        assert(utf8_seq_ok(s, 0));
        assert(utf8_bits(s, 0, 4, 1) == c / 262144);
        assert(utf8_bits(s, 0, 4, 2) == (c / 262144) * 64 + (c / 4096) % 64);
        assert(utf8_bits(s, 0, 4, 3) == ((c / 262144) * 64 + (c / 4096) % 64) * 64 + (c / 64) % 64);
        assert(utf8_bits(s, 0, 4, 4) == (((c / 262144) * 64 + (c / 4096) % 64) * 64 + (c / 64) % 64) * 64 + c % 64);
        assert((((c / 262144) * 64 + (c / 4096) % 64) * 64 + (c / 64) % 64) * 64 + c % 64 == c) by (nonlinear_arith)
            requires c <= 0x10FFFF;
    }
}

/// A locale's ANSI codepage goes by its primary language (the low ten bits of the
/// locale ID), except that Traditional Chinese (0x404) uses 950 where the other
/// Chinese locales use 936: Cyrillic languages (Russian, Ukrainian, Bulgarian) use
/// 1251, Central European ones 1250, Greek 1253, Turkish 1254, Baltic 1257, Hebrew
/// 1255, Arabic 1256, Thai 874, Japanese 932, Korean 949, Vietnamese 1258, and every
/// other language 1252.
pub proof fn lemma_codepage_by_language(lcid: u32)
    ensures
        ({
            let p = lcid % 0x400;
            let cp = lcid_codepage(lcid);
            &&& (cp == 1251 <==> (p == 0x19 || p == 0x22 || p == 0x02))
            &&& (cp == 1250 <==> (p == 0x1A || p == 0x05 || p == 0x0E || p == 0x15 || p == 0x18))
            &&& (cp == 1253 <==> p == 0x08)
            &&& (cp == 1254 <==> p == 0x1F)
            &&& (cp == 1257 <==> (p == 0x27 || p == 0x25 || p == 0x26))
            &&& (cp == 1255 <==> p == 0x0D)
            &&& (cp == 1256 <==> p == 0x01)
            &&& (cp == 874 <==> p == 0x1E)
            &&& (cp == 932 <==> p == 0x11)
            &&& (cp == 949 <==> p == 0x12)
            &&& (cp == 950 <==> lcid == 0x0404)
            &&& (cp == 936 <==> (p == 0x04 && lcid != 0x0404))
            &&& (cp == 1258 <==> p == 0x2A)
            &&& (cp == 1252 <==> !(p == 0x19 || p == 0x22 || p == 0x02 || p == 0x1A || p == 0x05 || p == 0x0E || p == 0x15
                || p == 0x18 || p == 0x08 || p == 0x1F || p == 0x27 || p == 0x25 || p == 0x26 || p == 0x0D || p == 0x01
                || p == 0x1E || p == 0x11 || p == 0x12 || p == 0x04 || p == 0x2A))
        }),
{
}

/// Lower-casing turns each ASCII capital into its small letter (32 places on) and
/// keeps every other byte; lower-casing twice is lower-casing once.
pub proof fn lemma_lc_ascii(c: u8)
    ensures
        (0x41 <= c <= 0x5A) ==> lc(c) == c + 32 && 0x61 <= lc(c) <= 0x7A,
        !(0x41 <= c <= 0x5A) ==> lc(c) == c,
        lc(lc(c)) == lc(c),
{
}

} // verus!
