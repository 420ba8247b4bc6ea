//! CHM (ITSF) reader: the directory listing and the contents of its files.
use vstd::prelude::*;
use vstd::string::StringSliceAdditionalSpecFns;
use crate::bytebuf::{encint, encint_spec, groups_value, le32_at, lemma_encint_prefix_facts, lemma_encint_value};
use crate::lzxdecode::{lzx_decompress, LzxError};

verus! {

/// One file of the archive: its name (raw bytes), content section (0 stored, 1
/// LZX-compressed), and where its bytes lie in that section.
pub struct ChmEntry {
    pub name: Vec<u8>,
    pub section: u32,
    pub offset: u64,
    pub length: u64,
}

/// An opened archive: its bytes, its directory, where section 0 starts, and the
/// decompressed section 1 once it has been needed.
pub struct ChmFile {
    pub file: Vec<u8>,
    pub entries: Vec<ChmEntry>,
    pub content_offset: u64,
    pub section1: Option<Vec<u8>>,
}

/// Why an archive, or a file in it, could not be read.
#[derive(Debug, Clone, Copy, PartialEq, Eq, Structural)]
pub enum ChmError {
    NotItsf,
    BadItsp,
    CorruptDirectory,
    MissingContent,
    MissingControlData,
    MissingSpanInfo,
    NotLzx,
    CorruptSection,
    NoSuchEntry,
    OutOfRange,
    OutOfRangeInSection,
    Lzx(LzxError),
}

/// The little-endian 64-bit number at `p`.
pub open spec fn le64_at(s: Seq<u8>, p: int) -> int {
    le32_at(s, p) + le32_at(s, p + 4) * 0x1_0000_0000
}

/// The bytes of one directory entry: the name's length and the name, then section,
/// offset and length, each an ENCINT.
pub open spec fn entry_bytes(e: ChmEntry) -> Seq<u8> {
    encint_spec(e.name@.len()) + e.name@ + encint_spec(e.section as nat) + encint_spec(e.offset as nat)
        + encint_spec(e.length as nat)
}

/// The bytes of a run of directory entries, one after another.
pub open spec fn listing_bytes(es: Seq<ChmEntry>) -> Seq<u8>
    decreases es.len(),
{
    if es.len() == 0 {
        Seq::empty()
    } else {
        listing_bytes(es.drop_last()) + entry_bytes(es.last())
    }
}

pub open spec fn magic_at(s: Seq<u8>, p: int, m: Seq<u8>) -> bool {
    p + 4 <= s.len() && s.subrange(p, p + 4) == m
}

pub open spec fn itsf_magic() -> Seq<u8> {
    seq![0x49u8, 0x54, 0x53, 0x46]
}

pub open spec fn itsp_magic() -> Seq<u8> {
    seq![0x49u8, 0x54, 0x53, 0x50]
}

pub open spec fn pmgl_magic() -> Seq<u8> {
    seq![0x50u8, 0x4D, 0x47, 0x4C]
}

pub open spec fn lzxc_magic() -> Seq<u8> {
    seq![0x4Cu8, 0x5A, 0x58, 0x43]
}

/// The entry area of directory chunk `c`: from byte 0x14 of a listing (PMGL) chunk
/// that lies inside the file up to its free space; nothing for any other chunk.
pub open spec fn chunk_region(file: Seq<u8>, dir_base: int, cs: int, c: int) -> Seq<u8> {
    let base = dir_base + c * cs;
    if base + cs > file.len() || cs < 0x14 || !magic_at(file, base, pmgl_magic()) {
        Seq::empty()
    } else {
        file.subrange(base + 0x14, base + cs - le32_at(file, base + 4))
    }
}

/// The entry areas of the first `n` chunks, one after another.
pub open spec fn listing_of(file: Seq<u8>, dir_base: int, cs: int, n: int) -> Seq<u8>
    decreases n,
{
    if n <= 0 {
        Seq::empty()
    } else {
        listing_of(file, dir_base, cs, n - 1) + chunk_region(file, dir_base, cs, n - 1)
    }
}

/// Where the ITSP directory header starts.
pub open spec fn itsp_at(file: Seq<u8>) -> int {
    le64_at(file, 0x48)
}

/// The archive header is sound: an ITSF header pointing at an ITSP header.
pub open spec fn header_ok(file: Seq<u8>) -> bool {
    &&& file.len() >= 0x60
    &&& magic_at(file, 0, itsf_magic())
    &&& itsp_at(file) + 0x54 <= file.len()
    &&& magic_at(file, itsp_at(file), itsp_magic())
}

/// The little-endian 32-bit number at `p`.
pub fn rd32(v: &[u8], p: usize) -> (r: u32)
    requires
        p + 4 <= v@.len(),
    ensures
        r == le32_at(v@, p as int),
{
    let n = v.len();
    v[p] as u32 + v[p + 1] as u32 * 256 + v[p + 2] as u32 * 65536 + v[p + 3] as u32 * 16777216
}

/// The little-endian 64-bit number at `p`.
pub fn rd64(v: &[u8], p: usize) -> (r: u64)
    requires
        p + 8 <= v@.len(),
    ensures
        r == le64_at(v@, p as int),
{
    let n = v.len();
    rd32(v, p) as u64 + rd32(v, p + 4) as u64 * 0x1_0000_0000
}

/// The smallest `b` with `2^b >= bytes`.
pub fn window_bits_from_bytes(bytes: u32) -> (b: u32)
    requires
        bytes <= 0x8000_0000,
    ensures
        b <= 31,
        crate::bitstream::p2(b as nat) >= bytes,
        b == 0 || crate::bitstream::p2((b - 1) as nat) < bytes,
{
    let mut b: u32 = 0;
    let mut v: u64 = 1;
    proof {
        crate::bitstream::lemma_p2_values();
        crate::bitstream::lemma_p2_adds(16, 15);
    }
    while v < bytes as u64
        invariant
            b <= 31,
            v == crate::bitstream::p2(b as nat),
            b == 0 || crate::bitstream::p2((b - 1) as nat) < bytes,
            bytes <= 0x8000_0000,
            crate::bitstream::p2(31) == 0x8000_0000,
        decreases 31 - b,
    {
        proof {
            if b >= 31 {
                assert(v >= 0x8000_0000);
            }
            crate::bitstream::lemma_p2_adds(b as nat, 1);
            crate::bitstream::lemma_p2_values();
        }
        b = b + 1;
        v = v * 2;
    }
    b
}

/// Whether `s[p..p + 4]` is the magic `m`.
fn has_magic(s: &Vec<u8>, p: usize, m0: u8, m1: u8, m2: u8, m3: u8) -> (r: bool)
    requires
        p + 4 <= s@.len(),
    ensures
        r == (s@.subrange(p as int, p + 4) == seq![m0, m1, m2, m3]),
{
    let n = s.len();
    let r = s[p] == m0 && s[p + 1] == m1 && s[p + 2] == m2 && s[p + 3] == m3;
    proof {
        if r {
            assert(s@.subrange(p as int, p + 4) =~= seq![m0, m1, m2, m3]);
        } else {
            if s@.subrange(p as int, p + 4) == seq![m0, m1, m2, m3] {
                assert(s@.subrange(p as int, p + 4)[0] == m0);
                assert(s@.subrange(p as int, p + 4)[1] == m1);
                assert(s@.subrange(p as int, p + 4)[2] == m2);
                assert(s@.subrange(p as int, p + 4)[3] == m3);
            }
        }
    }
    r
}

/// `v[p..end]` starts with the ENCINT form of `x`.
pub open spec fn encint_at(v: Seq<u8>, p: int, end: int, x: nat) -> bool {
    &&& 0 <= p
    &&& p + encint_spec(x).len() <= end
    &&& end <= v.len()
    &&& v.subrange(p, p + encint_spec(x).len()) == encint_spec(x)
}

proof fn lemma_groups_mono(s: Seq<u8>, j: int, k: int)
    requires
        0 <= j <= k <= s.len(),
    ensures
        groups_value(s.take(j)) <= groups_value(s.take(k)),
    decreases k - j,
{
    if j < k {
        lemma_groups_mono(s, j, k - 1);
        assert(s.take(k).drop_last() =~= s.take(k - 1));
    }
}

/// The ENCINT at `p`, if it ends before `end` and is in its shortest form: the value
/// and where the next field starts.
fn read_encint(v: &Vec<u8>, p: usize, end: usize) -> (r: Option<(u64, usize)>)
    requires
        p <= end <= v@.len(),
    ensures
        r matches Some((x, q)) ==> p < q <= end && v@.subrange(p as int, q as int) == encint_spec(x as nat),
        forall|x: u64| #[trigger] encint_at(v@, p as int, end as int, x as nat) ==> r == Some(
            (x, (p + encint_spec(x as nat).len()) as usize),
        ),
{
    let ghost has = exists|x: u64| #[trigger] encint_at(v@, p as int, end as int, x as nat);
    let ghost x0: u64 = choose|x: u64| #[trigger] encint_at(v@, p as int, end as int, x as nat);
    let ghost e0 = encint_spec(x0 as nat);
    proof {
        lemma_encint_value(x0 as nat);
        lemma_encint_prefix_facts(x0 as nat / 128);
        assert(e0.drop_last() =~= crate::bytebuf::encint_prefix(x0 as nat / 128));
        assert(v@.subrange(p as int, p as int) =~= e0.take(0));
    }
    let mut x: u64 = 0;
    let mut q = p;
    let mut done = false;
    while q < end && !done
        invariant
            p <= q <= end <= v@.len(),
            has ==> encint_at(v@, p as int, end as int, x0 as nat),
            e0 == encint_spec(x0 as nat),
            e0.len() >= 1,
            groups_value(e0) == x0,
            groups_value(e0.drop_last()) == x0 as nat / 128,
            e0.last() < 128,
            forall|i: int| 0 <= i < e0.len() - 1 ==> #[trigger] e0[i] >= 128,
            has ==> q <= p + e0.len(),
            has && !done ==> q < p + e0.len(),
            has && done ==> q == p + e0.len(),
            has ==> x as nat == groups_value(e0.take(q - p)),
            has == exists|x1: u64| #[trigger] encint_at(v@, p as int, end as int, x1 as nat),
        decreases end - q,
    {
        let b = v[q];
        proof {
            if has {
                let j = q - p;
                assert(b == e0[j]) by {
                    assert(v@.subrange(p as int, p + e0.len())[j] == v@[q as int]);
                }
                lemma_groups_mono(e0, j, e0.len() - 1);
                assert(e0.take(e0.len() - 1) =~= e0.drop_last());
                assert(x < 0x200_0000_0000_0000);
                assert(e0.take(j + 1).drop_last() =~= e0.take(j));
            }
        }
        q = q + 1;
        x = (x % 0x200_0000_0000_0000) * 128 + (b % 128) as u64;
        if b < 128 {
            done = true;
        }
    }
    if !done {
        return None;
    }
    proof {
        if has {
            assert(e0.take(q - p) =~= e0);
        }
    }
    let mut enc: Vec<u8> = Vec::new();
    encint(&mut enc, x);
    let n = enc.len();
    if n != q - p {
        return None;
    }
    let mut k: usize = 0;
    while k < n
        invariant
            k <= n,
            n == enc@.len(),
            n == q - p,
            p + n == q,
            p <= q <= v@.len(),
            enc@ == encint_spec(x as nat),
            forall|i: int| 0 <= i < k ==> v@[p + i] == #[trigger] enc@[i],
            has ==> x == x0 && enc@ == e0 && v@.subrange(p as int, q as int) == e0,
            has == exists|x1: u64| #[trigger] encint_at(v@, p as int, end as int, x1 as nat),
        decreases n - k,
    {
        if v[p + k] != enc[k] {
            proof {
                if has {
                    assert(v@.subrange(p as int, q as int)[k as int] == v@[p + k]);
                    assert(enc@[k as int] == e0[k as int]);
                }
                assert(!has);
                assert forall|x1: u64| #[trigger] encint_at(v@, p as int, end as int, x1 as nat) implies false by {
                    assert(has);
                }
            }
            return None;
        }
        k = k + 1;
    }
    proof {
        assert(v@.subrange(p as int, q as int) =~= enc@);
        if has {
            assert forall|x1: u64| #[trigger] encint_at(v@, p as int, end as int, x1 as nat) implies x1 == x0 by {
                let e1 = encint_spec(x1 as nat);
                let w = v@.subrange(p as int, end as int);
                assert(w =~= e1 + v@.subrange(p + e1.len(), end as int));
                assert(w =~= e0 + v@.subrange(p + e0.len(), end as int));
                crate::bytebuf::lemma_encint_split(x1 as nat, x0 as nat, v@.subrange(p + e1.len(), end as int),
                    v@.subrange(p + e0.len(), end as int));
            }
        }
    }
    Some((x, q))
}

/// `v[p..end]` starts with the directory bytes of `e`.
pub open spec fn entry_at(v: Seq<u8>, p: int, end: int, e: ChmEntry) -> bool {
    &&& 0 <= p
    &&& p + entry_bytes(e).len() <= end
    &&& end <= v.len()
    &&& v.subrange(p, p + entry_bytes(e).len()) == entry_bytes(e)
}

/// Two entries with the same name bytes, section, offset and length.
pub open spec fn same_chm(a: ChmEntry, b: ChmEntry) -> bool {
    a.name@ == b.name@ && a.section == b.section && a.offset == b.offset && a.length == b.length
}

proof fn lemma_entry_fields(v: Seq<u8>, p: int, end: int, e: ChmEntry)
    requires
        entry_at(v, p, end, e),
    ensures
        ({
            let q1 = p + encint_spec(e.name@.len()).len();
            let q2 = q1 + e.name@.len();
            let q3 = q2 + encint_spec(e.section as nat).len();
            let q4 = q3 + encint_spec(e.offset as nat).len();
            &&& encint_at(v, p, end, e.name@.len())
            &&& v.subrange(q1, q2) == e.name@
            &&& encint_at(v, q2, end, e.section as nat)
            &&& encint_at(v, q3, end, e.offset as nat)
            &&& encint_at(v, q4, end, e.length as nat)
            &&& q4 + encint_spec(e.length as nat).len() == p + entry_bytes(e).len()
        }),
{
    let a = encint_spec(e.name@.len());
    let q1 = p + a.len();
    let q2 = q1 + e.name@.len();
    let q3 = q2 + encint_spec(e.section as nat).len();
    let q4 = q3 + encint_spec(e.offset as nat).len();
    let q5 = q4 + encint_spec(e.length as nat).len();
    let w = v.subrange(p, q5);
    assert(w == entry_bytes(e));
    assert(v.subrange(p, q1) =~= w.subrange(0, q1 - p));
    assert(w.subrange(0, q1 - p) =~= a);
    assert(v.subrange(q1, q2) =~= w.subrange(q1 - p, q2 - p));
    assert(w.subrange(q1 - p, q2 - p) =~= e.name@);
    assert(v.subrange(q2, q3) =~= w.subrange(q2 - p, q3 - p));
    assert(w.subrange(q2 - p, q3 - p) =~= encint_spec(e.section as nat));
    assert(v.subrange(q3, q4) =~= w.subrange(q3 - p, q4 - p));
    assert(w.subrange(q3 - p, q4 - p) =~= encint_spec(e.offset as nat));
    assert(v.subrange(q4, q5) =~= w.subrange(q4 - p, q5 - p));
    assert(w.subrange(q4 - p, q5 - p) =~= encint_spec(e.length as nat));
}

/// The directory entry at `p`, if it is whole before `end`: the entry and where the
/// next one starts.
fn parse_entry(v: &Vec<u8>, p: usize, end: usize) -> (r: Option<(ChmEntry, usize)>)
    requires
        p <= end <= v@.len(),
    ensures
        r matches Some((e, q)) ==> p < q <= end && v@.subrange(p as int, q as int) == entry_bytes(e),
        forall|e: ChmEntry| #[trigger] entry_at(v@, p as int, end as int, e) ==> (r matches Some((e2, q)) && same_chm(e2, e)
            && q == p + entry_bytes(e).len()),
{
    let ghost has = exists|e: ChmEntry| #[trigger] entry_at(v@, p as int, end as int, e);
    let ghost e0 = choose|e: ChmEntry| #[trigger] entry_at(v@, p as int, end as int, e);
    proof {
        if has {
            lemma_entry_fields(v@, p as int, end as int, e0);
            crate::bytebuf::lemma_encint_len_u64(e0.name@.len());
        }
    }
    let (nlen, q1) = match read_encint(v, p, end) {
        Some(t) => t,
        None => {
            proof {
                if has {
                    assert(encint_at(v@, p as int, end as int, e0.name@.len()));
                    assert(e0.name@.len() < 0x1_0000_0000_0000_0000);
                    assert(encint_at(v@, p as int, end as int, (e0.name@.len() as u64) as nat));
                }
                assert forall|e: ChmEntry| #[trigger] entry_at(v@, p as int, end as int, e) implies false by {
                    assert(has);
                }
            }
            return None;
        },
    };
    proof {
        if has {
            assert(encint_at(v@, p as int, end as int, (e0.name@.len() as u64) as nat));
            assert(nlen == e0.name@.len());
        }
    }
    if nlen > (end - q1) as u64 {
        proof {
            assert forall|e: ChmEntry| #[trigger] entry_at(v@, p as int, end as int, e) implies false by {
                assert(has);
            }
        }
        return None;
    }
    let q2 = q1 + nlen as usize;
    let mut name: Vec<u8> = Vec::new();
    let mut k = q1;
    while k < q2
        invariant
            q1 <= k <= q2 <= end <= v@.len(),
            name@ == v@.subrange(q1 as int, k as int),
        decreases q2 - k,
    {
        name.push(v[k]);
        proof {
            assert(v@.subrange(q1 as int, k + 1) =~= v@.subrange(q1 as int, k as int).push(v@[k as int]));
        }
        k = k + 1;
    }
    let (sec, q3) = match read_encint(v, q2, end) {
        Some(t) => t,
        None => {
            proof {
                assert forall|e: ChmEntry| #[trigger] entry_at(v@, p as int, end as int, e) implies false by {
                    assert(has);
                    assert(encint_at(v@, q2 as int, end as int, (e0.section as u64) as nat));
                }
            }
            return None;
        },
    };
    if sec > 0xFFFF_FFFF {
        proof {
            assert forall|e: ChmEntry| #[trigger] entry_at(v@, p as int, end as int, e) implies false by {
                assert(has);
                assert(encint_at(v@, q2 as int, end as int, (e0.section as u64) as nat));
            }
        }
        return None;
    }
    let (off, q4) = match read_encint(v, q3, end) {
        Some(t) => t,
        None => {
            proof {
                assert forall|e: ChmEntry| #[trigger] entry_at(v@, p as int, end as int, e) implies false by {
                    assert(has);
                    assert(encint_at(v@, q2 as int, end as int, (e0.section as u64) as nat));
                    assert(encint_at(v@, q3 as int, end as int, e0.offset as nat));
                }
            }
            return None;
        },
    };
    let (len, q5) = match read_encint(v, q4, end) {
        Some(t) => t,
        None => {
            proof {
                assert forall|e: ChmEntry| #[trigger] entry_at(v@, p as int, end as int, e) implies false by {
                    assert(has);
                    assert(encint_at(v@, q2 as int, end as int, (e0.section as u64) as nat));
                    assert(encint_at(v@, q3 as int, end as int, e0.offset as nat));
                    assert(encint_at(v@, q4 as int, end as int, e0.length as nat));
                }
            }
            return None;
        },
    };
    let e = ChmEntry { name, section: sec as u32, offset: off, length: len };
    proof {
        assert(v@.subrange(p as int, q5 as int) =~= v@.subrange(p as int, q1 as int) + v@.subrange(q1 as int, q2 as int)
            + v@.subrange(q2 as int, q3 as int) + v@.subrange(q3 as int, q4 as int) + v@.subrange(q4 as int, q5 as int));
        if has {
            assert(encint_at(v@, q2 as int, end as int, (e0.section as u64) as nat));
            assert(encint_at(v@, q3 as int, end as int, e0.offset as nat));
            assert(encint_at(v@, q4 as int, end as int, e0.length as nat));
            assert(same_chm(e, e0));
        }
        assert forall|e1: ChmEntry| #[trigger] entry_at(v@, p as int, end as int, e1) implies same_chm(e, e1) && q5 == p
            + entry_bytes(e1).len() by {
            assert(has);
            let x = v@.subrange(p as int, end as int);
            assert(x =~= entry_bytes(e1) + v@.subrange(p + entry_bytes(e1).len(), end as int));
            assert(x =~= entry_bytes(e0) + v@.subrange(p + entry_bytes(e0).len(), end as int));
            lemma_entries_split(e1, e0, v@.subrange(p + entry_bytes(e1).len(), end as int), v@.subrange(
                p + entry_bytes(e0).len(),
                end as int,
            ));
        }
    }
    Some((e, q5))
}

/// Two entries whose bytes start equal sequences are the same, and so is what follows.
pub proof fn lemma_entries_split(c: ChmEntry, d: ChmEntry, x: Seq<u8>, y: Seq<u8>)
    requires
        entry_bytes(c) + x == entry_bytes(d) + y,
    ensures
        same_chm(c, d),
        x == y,
{
    let cn = c.name@;
    let dn = d.name@;
    let x3 = encint_spec(c.length as nat) + x;
    let y3 = encint_spec(d.length as nat) + y;
    let x2 = encint_spec(c.offset as nat) + x3;
    let y2 = encint_spec(d.offset as nat) + y3;
    let x1 = encint_spec(c.section as nat) + x2;
    let y1 = encint_spec(d.section as nat) + y2;
    let xr = cn + x1;
    let yr = dn + y1;
    assert(entry_bytes(c) + x =~= encint_spec(cn.len()) + xr);
    assert(entry_bytes(d) + y =~= encint_spec(dn.len()) + yr);
    crate::bytebuf::lemma_encint_split(cn.len(), dn.len(), xr, yr);
    assert(cn =~= xr.subrange(0, cn.len() as int));
    assert(dn =~= yr.subrange(0, dn.len() as int));
    assert(x1 =~= xr.subrange(cn.len() as int, xr.len() as int));
    assert(y1 =~= yr.subrange(dn.len() as int, yr.len() as int));
    crate::bytebuf::lemma_encint_split(c.section as nat, d.section as nat, x2, y2);
    crate::bytebuf::lemma_encint_split(c.offset as nat, d.offset as nat, x3, y3);
    crate::bytebuf::lemma_encint_split(c.length as nat, d.length as nat, x, y);
}

proof fn lemma_listing_push(es: Seq<ChmEntry>, e: ChmEntry)
    ensures
        listing_bytes(es.push(e)) == listing_bytes(es) + entry_bytes(e),
{
    assert(es.push(e).drop_last() =~= es);
}

/// The bytes of a run of entries: the first entry, then the rest.
pub proof fn lemma_listing_front(es: Seq<ChmEntry>)
    requires
        es.len() > 0,
    ensures
        listing_bytes(es) == entry_bytes(es[0]) + listing_bytes(es.drop_first()),
    decreases es.len(),
{
    if es.len() == 1 {
        assert(es.drop_last() =~= Seq::<ChmEntry>::empty());
        assert(es.drop_first() =~= Seq::<ChmEntry>::empty());
        assert(listing_bytes(es) =~= entry_bytes(es[0]) + listing_bytes(es.drop_first()));
    } else {
        let p = es.drop_last();
        lemma_listing_front(p);
        assert(p.drop_first() =~= es.drop_first().drop_last());
        assert(es.drop_first().last() == es.last());
        assert(listing_bytes(es) =~= entry_bytes(es[0]) + listing_bytes(es.drop_first()));
    }
}

/// The first entry named `name`.
pub open spec fn first_named(es: Seq<ChmEntry>, name: Seq<u8>, i: int) -> bool {
    &&& 0 <= i < es.len()
    &&& es[i].name@ == name
    &&& forall|k: int| 0 <= k < i ==> #[trigger] es[k].name@ != name
}

fn bytes_eq(a: &Vec<u8>, b: &[u8]) -> (r: bool)
    ensures
        r == (a@ == b@),
{
    if a.len() != b.len() {
        return false;
    }
    let n = a.len();
    let mut k: usize = 0;
    while k < n
        invariant
            k <= n,
            n == a@.len(),
            n == b@.len(),
            forall|i: int| 0 <= i < k ==> #[trigger] a@[i] == b@[i],
        decreases n - k,
    {
        if a[k] != b[k] {
            return false;
        }
        k = k + 1;
    }
    proof {
        assert(a@ =~= b@);
    }
    true
}

/// The entry area of directory chunk `c` is a run of whole entries, and the chunk's
/// free space leaves room for its header (or it is no listing chunk inside the file).
pub open spec fn chunk_decodes(f: Seq<u8>, dir_base: int, cs: int, c: int) -> bool {
    let base = dir_base + c * cs;
    ||| base + cs > f.len()
    ||| cs < 0x14
    ||| !magic_at(f, base, pmgl_magic())
    ||| (le32_at(f, base + 4) <= cs - 0x14 && exists|es: Seq<ChmEntry>| #[trigger] listing_bytes(es) == chunk_region(f, dir_base, cs, c))
}

/// Every chunk of the directory that the ITSP header describes decodes.
pub open spec fn directory_decodes(f: Seq<u8>) -> bool {
    forall|c: int| 0 <= c < le32_at(f, itsp_at(f) + 0x2C) ==> #[trigger] chunk_decodes(
        f,
        itsp_at(f) + 0x54,
        le32_at(f, itsp_at(f) + 0x10),
        c,
    )
}

/// A user file's name: it starts with `/`, and the name under it does not start with
/// `#` or `$` (those are the archive's internal files).
pub open spec fn user_name(n: Seq<u8>) -> bool {
    &&& n.len() > 0
    &&& n[0] == 0x2F
    &&& !(n.len() > 1 && (n[1] == 0x23 || n[1] == 0x24))
}

/// The entries an extraction writes out: the user files that hold at least one byte,
/// in directory order.
pub open spec fn extractable(es: Seq<ChmEntry>) -> Seq<Seq<u8>>
    decreases es.len(),
{
    if es.len() == 0 {
        Seq::empty()
    } else if user_name(es.last().name@) && es.last().length > 0 {
        extractable(es.drop_last()).push(es.last().name@)
    } else {
        extractable(es.drop_last())
    }
}

/// The names of the entries an extraction writes out (see `extractable`).
pub fn extract_names(es: &[ChmEntry]) -> (r: Vec<Vec<u8>>)
    ensures
        r@.len() == extractable(es@).len(),
        forall|k: int| 0 <= k < r@.len() ==> (#[trigger] r@[k])@ == extractable(es@)[k],
{
    let mut r: Vec<Vec<u8>> = Vec::new();
    let n = es.len();
    let mut k: usize = 0;
    while k < n
        invariant
            k <= n,
            n == es@.len(),
            r@.len() == extractable(es@.subrange(0, k as int)).len(),
            forall|q: int| 0 <= q < r@.len() ==> (#[trigger] r@[q])@ == extractable(es@.subrange(0, k as int))[q],
        decreases n - k,
    {
        let ghost pre = es@.subrange(0, k as int);
        proof {
            assert(es@.subrange(0, k + 1).drop_last() =~= pre);
            assert(es@.subrange(0, k + 1).last() == es@[k as int]);
        }
        let nm = &es[k].name;
        let user = nm.len() > 0 && nm[0] == 0x2F && !(nm.len() > 1 && (nm[1] == 0x23 || nm[1] == 0x24));
        if user && es[k].length > 0 {
            r.push(es[k].name.clone());
            proof {
                assert(r@.last()@ == es@[k as int].name@);
            }
        }
        k = k + 1;
    }
    proof {
        assert(es@.subrange(0, n as int) =~= es@);
    }
    r
}

impl ChmFile {
    /// Opens an archive held in memory: checks the ITSF and ITSP headers, then reads
    /// the entries of every listing chunk of the directory, in order.
    pub fn from_bytes(file: Vec<u8>) -> (r: Result<ChmFile, ChmError>)
        ensures
            (r == Err::<ChmFile, ChmError>(ChmError::NotItsf)) <==> (file@.len() < 0x60 || !magic_at(file@, 0, itsf_magic())),
            (r == Err::<ChmFile, ChmError>(ChmError::BadItsp)) <==> (file@.len() >= 0x60 && magic_at(file@, 0, itsf_magic())
                && !header_ok(file@)),
            r matches Err(e) ==> (e == ChmError::NotItsf || e == ChmError::BadItsp || e == ChmError::CorruptDirectory),
            (r == Err::<ChmFile, ChmError>(ChmError::CorruptDirectory)) <==> (header_ok(file@) && !directory_decodes(file@)),
            r matches Ok(chm) ==> {
                &&& header_ok(file@)
                &&& chm.file@ == file@
                &&& chm.content_offset == le64_at(file@, 0x58)
                &&& chm.section1.is_none()
                &&& listing_bytes(chm.entries@) == listing_of(
                    file@,
                    itsp_at(file@) + 0x54,
                    le32_at(file@, itsp_at(file@) + 0x10),
                    le32_at(file@, itsp_at(file@) + 0x2C),
                )
            },
    {
        let flen = file.len();
        if flen < 0x60 || !has_magic(&file, 0, 0x49, 0x54, 0x53, 0x46) {
            return Err(ChmError::NotItsf);
        }
        let hs1_64 = rd64(file.as_slice(), 0x48);
        let content_offset = rd64(file.as_slice(), 0x58);
        if hs1_64 > (flen - 0x54) as u64 {
            return Err(ChmError::BadItsp);
        }
        let hs1 = hs1_64 as usize;
        if !has_magic(&file, hs1, 0x49, 0x54, 0x53, 0x50) {
            return Err(ChmError::BadItsp);
        }
        let chunk_size = rd32(file.as_slice(), hs1 + 0x10) as usize;
        let n_chunks = rd32(file.as_slice(), hs1 + 0x2C) as usize;
        let dir_base = hs1 + 0x54;
        let ghost fv = file@;
        proof {
            assert(header_ok(fv));
        }
        let mut entries: Vec<ChmEntry> = Vec::new();
        let mut c: usize = 0;
        proof {
            assert(listing_bytes(entries@) =~= listing_of(fv, dir_base as int, chunk_size as int, 0));
        }
        while c < n_chunks
            invariant
                c <= n_chunks,
                n_chunks < 0x1_0000_0000,
                chunk_size < 0x1_0000_0000,
                header_ok(fv),
                fv == file@,
                flen == file@.len(),
                dir_base <= flen,
                dir_base == itsp_at(fv) + 0x54,
                chunk_size == le32_at(fv, itsp_at(fv) + 0x10),
                n_chunks == le32_at(fv, itsp_at(fv) + 0x2C),
                listing_bytes(entries@) == listing_of(fv, dir_base as int, chunk_size as int, c as int),
                forall|k: int| 0 <= k < c ==> #[trigger] chunk_decodes(fv, dir_base as int, chunk_size as int, k),
            decreases n_chunks - c,
        {
            proof {
                assert(c as u128 * chunk_size as u128 <= 0xFFFF_FFFF * 0xFFFF_FFFFu128) by (nonlinear_arith)
                    requires c < 0x1_0000_0000, chunk_size < 0x1_0000_0000;
            }
            let base128: u128 = dir_base as u128 + c as u128 * chunk_size as u128;
            let ghost reg = chunk_region(fv, dir_base as int, chunk_size as int, c as int);
            let ghost dec = chunk_decodes(fv, dir_base as int, chunk_size as int, c as int);
            if base128 + chunk_size as u128 <= flen as u128 && chunk_size >= 0x14 {
                let base = base128 as usize;
                if has_magic(&file, base, 0x50, 0x4D, 0x47, 0x4C) {
                    let free = rd32(file.as_slice(), base + 4) as usize;
                    if free > chunk_size - 0x14 {
                        proof {
                            assert(!dec);
                            assert(!chunk_decodes(fv, dir_base as int, chunk_size as int, c as int));
                        }
                        return Err(ChmError::CorruptDirectory);
                    }
                    let end = base + chunk_size - free;
                    let mut p = base + 0x14;
                    let ghost before = entries@;
                    let ghost mut chunk_es: Seq<ChmEntry> = Seq::empty();
                    proof {
                        assert(fv.subrange((base + 0x14) as int, p as int) =~= Seq::<u8>::empty());
                        assert(listing_bytes(entries@) =~= listing_bytes(before) + fv.subrange((base + 0x14) as int, p as int));
                        assert(reg == fv.subrange(p as int, end as int));
                    }
                    while p < end
                        invariant
                            header_ok(fv),
                            base + 0x14 <= p <= end <= flen,
                            fv == file@,
                            flen == file@.len(),
                            listing_bytes(entries@) == listing_bytes(before) + fv.subrange((base + 0x14) as int, p as int),
                            listing_bytes(chunk_es) == fv.subrange((base + 0x14) as int, p as int),
                            dec ==> exists|es: Seq<ChmEntry>| #[trigger] listing_bytes(es) == fv.subrange(p as int, end as int),
                            dec == chunk_decodes(fv, dir_base as int, chunk_size as int, c as int),
                            dir_base == itsp_at(fv) + 0x54,
                            chunk_size == le32_at(fv, itsp_at(fv) + 0x10),
                            n_chunks == le32_at(fv, itsp_at(fv) + 0x2C),
                            c < n_chunks,
                        decreases end - p,
                    {
                        let ghost es = choose|es: Seq<ChmEntry>| #[trigger] listing_bytes(es) == fv.subrange(p as int, end as int);
                        proof {
                            if dec {
                                if es.len() == 0 {
                                    assert(fv.subrange(p as int, end as int).len() == 0);
                                }
                                lemma_listing_front(es);
                                let rest = listing_bytes(es.drop_first());
                                assert(fv.subrange(p as int, end as int) =~= entry_bytes(es[0]) + rest);
                                assert(fv.subrange(p as int, p + entry_bytes(es[0]).len()) =~= entry_bytes(es[0]));
                                assert(entry_at(fv, p as int, end as int, es[0]));
                            }
                        }
                        match parse_entry(&file, p, end) {
                            Some((e, q)) => {
                                proof {
                                    lemma_listing_push(entries@, e);
                                    lemma_listing_push(chunk_es, e);
                                    assert(fv.subrange((base + 0x14) as int, q as int) =~= fv.subrange((base + 0x14) as int, p as int)
                                        + fv.subrange(p as int, q as int));
                                    if dec {
                                        let rest = listing_bytes(es.drop_first());
                                        assert(q == p + entry_bytes(es[0]).len());
                                        assert(fv.subrange(q as int, end as int) =~= fv.subrange(p as int, end as int).subrange(
                                            q - p,
                                            end - p,
                                        ));
                                        assert(fv.subrange(q as int, end as int) =~= rest);
                                    }
                                    chunk_es = chunk_es.push(e);
                                }
                                entries.push(e);
                                p = q;
                            },
                            None => {
                                proof {
                                    assert(!dec);
                                    assert(!directory_decodes(fv));
                                }
                                return Err(ChmError::CorruptDirectory);
                            },
                        }
                    }
                    proof {
                        assert(reg == fv.subrange((base + 0x14) as int, end as int));
                        assert(listing_bytes(chunk_es) == reg);
                        assert(chunk_decodes(fv, dir_base as int, chunk_size as int, c as int));
                    }
                } else {
                    proof {
                        assert(reg =~= Seq::<u8>::empty());
                    }
                }
            } else {
                proof {
                    assert(reg =~= Seq::<u8>::empty());
                }
            }
            proof {
                assert(listing_of(fv, dir_base as int, chunk_size as int, c + 1)
                    == listing_of(fv, dir_base as int, chunk_size as int, c as int) + reg);
            }
            c = c + 1;
        }
        Ok(ChmFile { file, entries, content_offset, section1: None })
    }

    /// The directory, in the order the chunks list it.
    pub fn entries(&self) -> (r: &[ChmEntry])
        ensures
            r@ == self.entries@,
    {
        self.entries.as_slice()
    }

    /// The index of the first entry named `name`.
    fn find(&self, name: &[u8]) -> (r: Option<usize>)
        ensures
            r matches Some(i) ==> first_named(self.entries@, name@, i as int),
            r is None ==> forall|k: int| 0 <= k < self.entries@.len() ==> #[trigger] self.entries@[k].name@ != name@,
    {
        let n = self.entries.len();
        let mut i: usize = 0;
        while i < n
            invariant
                i <= n,
                n == self.entries@.len(),
                forall|k: int| 0 <= k < i ==> #[trigger] self.entries@[k].name@ != name@,
            decreases n - i,
        {
            if bytes_eq(&self.entries[i].name, name) {
                return Some(i);
            }
            i = i + 1;
        }
        None
    }
}


/// The name of the compressed section's content.
pub open spec fn content_name() -> Seq<u8> {
    "::DataSpace/Storage/MSCompressed/Content".spec_bytes()
}

/// The name of the compressed section's LZXC control data.
pub open spec fn control_name() -> Seq<u8> {
    "::DataSpace/Storage/MSCompressed/ControlData".spec_bytes()
}

/// The name of the compressed section's span information (its uncompressed size).
pub open spec fn span_name() -> Seq<u8> {
    "::DataSpace/Storage/MSCompressed/SpanInfo".spec_bytes()
}

/// The position of the first entry named `name` (meaningful when there is one).
pub open spec fn first_index(es: Seq<ChmEntry>, name: Seq<u8>) -> int {
    choose|i: int| first_named(es, name, i)
}

pub open spec fn has_name(es: Seq<ChmEntry>, name: Seq<u8>) -> bool {
    exists|k: int| 0 <= k < es.len() && #[trigger] es[k].name@ == name
}

/// A copy of `v[a..b]`.
fn copy_range(v: &Vec<u8>, a: usize, b: usize) -> (r: Vec<u8>)
    requires
        a <= b <= v@.len(),
    ensures
        r@ == v@.subrange(a as int, b as int),
{
    let mut r: Vec<u8> = Vec::new();
    let mut k = a;
    while k < b
        invariant
            a <= k <= b <= v@.len(),
            r@ == v@.subrange(a as int, k as int),
        decreases b - k,
    {
        r.push(v[k]);
        proof {
            assert(v@.subrange(a as int, k + 1) =~= v@.subrange(a as int, k as int).push(v@[k as int]));
        }
        k = k + 1;
    }
    r
}

impl ChmFile {
    /// The archive itself (bytes, directory, section 0 offset) is what reading never changes.
    pub open spec fn same_archive(&self, other: &ChmFile) -> bool {
        &&& self.file@ == other.file@
        &&& self.entries@ == other.entries@
        &&& self.content_offset == other.content_offset
    }

    fn find_entry(&self, name: &[u8], missing: ChmError) -> (r: Result<usize, ChmError>)
        ensures
            r matches Ok(i) ==> first_named(self.entries@, name@, i as int),
            r matches Err(e) ==> e == missing && !has_name(self.entries@, name@),
    {
        match self.find(name) {
            Some(i) => Ok(i),
            None => {
                proof {
                    assert forall|k: int| 0 <= k < self.entries@.len() implies #[trigger] self.entries@[k].name@ != name@ by {
                    }
                }
                Err(missing)
            },
        }
    }

    /// Decompresses section 1 on first need: locates its content, control data and
    /// span information, checks the LZXC control data (version 2 counts the reset
    /// interval and window in 0x8000-byte units) and decodes the content.
    pub fn ensure_section1(&mut self) -> (r: Result<(), ChmError>)
        ensures
            final(self).same_archive(old(self)),
            old(self).section1.is_some() ==> r is Ok && final(self).section1 == old(self).section1,
            old(self).section1.is_none() ==> {
                &&& (r == Err::<(), ChmError>(ChmError::MissingContent)) <==> !has_name(old(self).entries@, content_name())
                &&& (r == Err::<(), ChmError>(ChmError::MissingControlData)) <==> (has_name(old(self).entries@, content_name())
                    && !has_name(old(self).entries@, control_name()))
                &&& (r == Err::<(), ChmError>(ChmError::MissingSpanInfo)) <==> (has_name(old(self).entries@, content_name())
                    && has_name(old(self).entries@, control_name()) && !has_name(old(self).entries@, span_name()))
                &&& r is Ok ==> final(self).section1 is Some
                &&& r is Err ==> final(self).section1 is None
                &&& (has_name(old(self).entries@, content_name()) && has_name(old(self).entries@, control_name()) && has_name(
                    old(self).entries@,
                    span_name(),
                )) ==> {
                    let f = old(self).file@;
                    let ctl = old(self).content_offset + old(self).entries@[first_index(old(self).entries@, control_name())].offset;
                    let span = old(self).content_offset + old(self).entries@[first_index(old(self).entries@, span_name())].offset;
                    &&& ctl + 8 > f.len() ==> r == Err::<(), ChmError>(ChmError::CorruptSection)
                    &&& (r == Err::<(), ChmError>(ChmError::NotLzx)) <==> (ctl + 8 <= f.len() && f.subrange(ctl + 4, ctl + 8)
                        != lzxc_magic())
                    &&& r is Ok ==> {
                        &&& ctl + 20 <= f.len()
                        &&& f.subrange(ctl + 4, ctl + 8) == lzxc_magic()
                        &&& span + 8 <= f.len()
                        &&& final(self).section1 matches Some(v) && v@.len() == le64_at(f, span)
                    }
                }
            },
            r is Ok ==> final(self).section1 is Some,
            r matches Err(e) ==> e != ChmError::NoSuchEntry && e != ChmError::OutOfRange && e != ChmError::OutOfRangeInSection,
    {
        if self.section1.is_some() {
            return Ok(());
        }
        let ci = self.find_entry("::DataSpace/Storage/MSCompressed/Content".as_bytes(), ChmError::MissingContent)?;
        let ki = self.find_entry("::DataSpace/Storage/MSCompressed/ControlData".as_bytes(), ChmError::MissingControlData)?;
        let si = self.find_entry("::DataSpace/Storage/MSCompressed/SpanInfo".as_bytes(), ChmError::MissingSpanInfo)?;
        let c_off = self.entries[ci].offset;
        let c_len = self.entries[ci].length;
        let k_off = self.entries[ki].offset;
        let s_off = self.entries[si].offset;
        let flen = self.file.len();
        let co = self.content_offset;
        if k_off > u64::MAX - co || co + k_off > flen as u64 || (flen as u64) - (co + k_off) < 8 {
            return Err(ChmError::CorruptSection);
        }
        let ctl = (co + k_off) as usize;
        if !has_magic(&self.file, ctl + 4, 0x4C, 0x5A, 0x58, 0x43) {
            return Err(ChmError::NotLzx);
        }
        if flen - ctl < 20 {
            return Err(ChmError::CorruptSection);
        }
        let version = rd32(self.file.as_slice(), ctl + 8);
        let mut reset_iv = rd32(self.file.as_slice(), ctl + 12);
        let mut window = rd32(self.file.as_slice(), ctl + 16);
        if version == 2 {
            if reset_iv > 0x1_FFFF || window > 0x1_FFFF {
                return Err(ChmError::CorruptSection);
            }
            reset_iv = reset_iv * 0x8000;
            window = window * 0x8000;
        }
        if window > 0x8000_0000 {
            return Err(ChmError::CorruptSection);
        }
        if s_off > u64::MAX - co || co + s_off > flen as u64 || (flen as u64) - (co + s_off) < 8 {
            return Err(ChmError::CorruptSection);
        }
        let uncompressed = rd64(self.file.as_slice(), (co + s_off) as usize);
        if c_off > u64::MAX - co || co + c_off > flen as u64 || c_len > (flen as u64) - (co + c_off) {
            return Err(ChmError::CorruptSection);
        }
        if uncompressed > (usize::MAX - 1000) as u64 {
            return Err(ChmError::CorruptSection);
        }
        let cstart = (co + c_off) as usize;
        let cend = cstart + c_len as usize;
        let comp = copy_range(&self.file, cstart, cend);
        match lzx_decompress(comp.as_slice(), uncompressed, reset_iv, window_bits_from_bytes(window)) {
            Ok(data) => {
                self.section1 = Some(data);
                Ok(())
            },
            Err(e) => Err(ChmError::Lzx(e)),
        }
    }

    /// The bytes of the file named `name`: copied from section 0, or cut from the
    /// decompressed section 1.
    pub fn read(&mut self, name: &str) -> (r: Result<Vec<u8>, ChmError>)
        ensures
            final(self).same_archive(old(self)),
            (r == Err::<Vec<u8>, ChmError>(ChmError::NoSuchEntry)) <==> !has_name(old(self).entries@, name.spec_bytes()),
            forall|i: int| #[trigger] first_named(old(self).entries@, name.spec_bytes(), i) ==> {
                let e = old(self).entries@[i];
                let start = old(self).content_offset + e.offset;
                &&& e.section == 0 ==> {
                    &&& (r == Err::<Vec<u8>, ChmError>(ChmError::OutOfRange)) <==> start + e.length > old(self).file@.len()
                    &&& r matches Ok(data) ==> data@ == old(self).file@.subrange(start, start + e.length)
                    &&& r is Ok || r == Err::<Vec<u8>, ChmError>(ChmError::OutOfRange)
                }
                &&& e.section != 0 ==> {
                    &&& r matches Ok(data) ==> (final(self).section1 matches Some(s1)
                        && e.offset + e.length <= s1@.len()
                        && data@ == s1@.subrange(e.offset as int, e.offset + e.length))
                    &&& (r == Err::<Vec<u8>, ChmError>(ChmError::OutOfRangeInSection)) ==> (final(self).section1 matches Some(s1)
                        && e.offset + e.length > s1@.len())
                    &&& r != Err::<Vec<u8>, ChmError>(ChmError::OutOfRange)
                }
            },
    {
        let i = match self.find(name.as_bytes()) {
            Some(i) => i,
            None => {
                return Err(ChmError::NoSuchEntry);
            },
        };
        let ghost e = self.entries@[i as int];
        let section = self.entries[i].section;
        let offset = self.entries[i].offset;
        let length = self.entries[i].length;
        let flen = self.file.len();
        if section == 0 {
            let co = self.content_offset;
            if offset > u64::MAX - co || co + offset > flen as u64 || length > (flen as u64) - (co + offset) {
                return Err(ChmError::OutOfRange);
            }
            let start = (co + offset) as usize;
            return Ok(copy_range(&self.file, start, start + length as usize));
        }
        match self.ensure_section1() {
            Ok(()) => {},
            Err(err) => {
                proof {
                    assert(err != ChmError::NoSuchEntry);
                    assert(err != ChmError::OutOfRange);
                }
                return Err(err);
            },
        }
        match &self.section1 {
            Some(s1) => {
                let n1 = s1.len();
                if offset > n1 as u64 || length > (n1 as u64) - offset {
                    return Err(ChmError::OutOfRangeInSection);
                }
                Ok(copy_range(s1, offset as usize, (offset + length) as usize))
            },
            None => Err(ChmError::CorruptSection),
        }
    }
}

} // verus!
