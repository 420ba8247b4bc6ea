//! The fixed-layout internal files of a compiled help file: the ::DataSpace storage
//! descriptions, $OBJINST, #SYSTEM entries and the #SUBSETS placeholder.
use vstd::prelude::*;
use crate::bytebuf::{Buf, u16_le, u32_le, u64_le};
use crate::chmreader::lzxc_magic;
use crate::tables::{zeros, Strings, enc_text, lemma_grows_offset, lemma_grows_trans};
use crate::hhp::Project;
use crate::sitemap::lookup;
use crate::strutil::{slashes, slashes_spec, parse_int, parse_int_spec, lower, eq_bytes};
use crate::textenc::{lc_seq, tables_ok, CodepageTable};
use vstd::string::StringSliceAdditionalSpecFns;

verus! {

/// Each byte of `s` widened to a little-endian 16-bit unit.
pub open spec fn widen(s: Seq<u8>) -> Seq<u8>
    decreases s.len(),
{
    if s.len() == 0 {
        Seq::empty()
    } else {
        widen(s.drop_last()) + u16_le(s.last() as u16)
    }
}

/// Appends each byte of `s` as a 16-bit unit.
fn push_wide(b: &mut Buf, s: &[u8])
    ensures
        final(b)@ == old(b)@ + widen(s@),
{
    let n = s.len();
    let mut k: usize = 0;
    while k < n
        invariant
            k <= n,
            n == s@.len(),
            b@ == old(b)@ + widen(s@.subrange(0, k as int)),
        decreases n - k,
    {
        b.u16(s[k] as u16);
        proof {
            assert(s@.subrange(0, k + 1).drop_last() =~= s@.subrange(0, k as int));
            assert(b@ =~= old(b)@ + widen(s@.subrange(0, k + 1)));
        }
        k = k + 1;
    }
    assert(s@.subrange(0, n as int) =~= s@);
}

pub open spec fn uncompressed_name() -> Seq<u8> {
    seq![0x55u8, 0x6E, 0x63, 0x6F, 0x6D, 0x70, 0x72, 0x65, 0x73, 0x73, 0x65, 0x64]
}

pub open spec fn mscompressed_name() -> Seq<u8> {
    seq![0x4Du8, 0x53, 0x43, 0x6F, 0x6D, 0x70, 0x72, 0x65, 0x73, 0x73, 0x65, 0x64]
}

/// A name of ::DataSpace/NameList: its length, its 16-bit units, a zero unit.
pub open spec fn name_entry(s: Seq<u8>) -> Seq<u8> {
    u16_le(s.len() as u16) + widen(s) + u16_le(0)
}

/// ::DataSpace/NameList: its size in 16-bit words, the count 2, then the names
/// `Uncompressed` and `MSCompressed`.
pub open spec fn namelist_spec() -> Seq<u8> {
    u16_le(30) + u16_le(2) + name_entry(uncompressed_name()) + name_entry(mscompressed_name())
}

proof fn lemma_widen_len(s: Seq<u8>)
    ensures
        widen(s).len() == 2 * s.len(),
    decreases s.len(),
{
    if s.len() > 0 {
        lemma_widen_len(s.drop_last());
    }
}

/// Builds ::DataSpace/NameList.
pub fn build_namelist() -> (r: Vec<u8>)
    ensures
        r@ == namelist_spec(),
{
    let un: [u8; 12] = [0x55, 0x6E, 0x63, 0x6F, 0x6D, 0x70, 0x72, 0x65, 0x73, 0x73, 0x65, 0x64];
    let ms: [u8; 12] = [0x4D, 0x53, 0x43, 0x6F, 0x6D, 0x70, 0x72, 0x65, 0x73, 0x73, 0x65, 0x64];
    proof {
        assert(un@ =~= uncompressed_name());
        assert(ms@ =~= mscompressed_name());
        lemma_widen_len(uncompressed_name());
        lemma_widen_len(mscompressed_name());
    }
    let mut b = Buf::new();
    b.u16(0);
    b.u16(2);
    b.u16(12);
    push_wide(&mut b, &un);
    b.u16(0);
    b.u16(12);
    push_wide(&mut b, &ms);
    b.u16(0);
    let words = (b.len() / 2) as u16;
    let ghost before = b@;
    assert(before.len() == 60);
    b.v.set(0, (words % 256) as u8);
    b.v.set(1, (words / 256) as u8);
    proof {
        assert(b@ =~= namelist_spec());
    }
    b.v
}

/// ::DataSpace/Storage/MSCompressed/ControlData: LZX, version 2, reset interval 2,
/// window size 2 (64 KiB), cache size 1.
pub open spec fn control_data_spec() -> Seq<u8> {
    u32_le(6) + lzxc_magic() + u32_le(2) + u32_le(2) + u32_le(2) + u32_le(1) + u32_le(0) + u32_le(0)
}

/// Builds the LZX control data.
pub fn build_control_data() -> (r: Vec<u8>)
    ensures
        r@ == control_data_spec(),
{
    let mut b = Buf::new();
    b.u32(6);
    let magic: [u8; 4] = [0x4C, 0x5A, 0x58, 0x43];
    proof {
        assert(magic@ =~= lzxc_magic());
    }
    b.raw(&magic);
    b.u32(2);
    b.u32(2);
    b.u32(2);
    b.u32(1);
    b.u32(0);
    b.u32(0);
    b.v
}

/// The eight-byte little-endian forms of `s`, one after another.
pub open spec fn u64s(s: Seq<u64>) -> Seq<u8>
    decreases s.len(),
{
    if s.len() == 0 {
        Seq::empty()
    } else {
        u64s(s.drop_last()) + u64_le(s.last())
    }
}

/// The LZX reset table: version 2, the frame count, entry size 8, header size 0x28,
/// the uncompressed and compressed sizes, frame size 0x8000, then each frame's start
/// in the compressed stream.
pub open spec fn reset_table_spec(uncompressed: u64, compressed: u64, frame_starts: Seq<u64>) -> Seq<u8> {
    u32_le(2) + u32_le(frame_starts.len() as u32) + u32_le(8) + u32_le(0x28) + u64_le(uncompressed)
        + u64_le(compressed) + u64_le(0x8000) + u64s(frame_starts)
}

/// Builds the LZX reset table.
pub fn build_reset_table(uncompressed: u64, compressed: u64, frame_starts: &[u64]) -> (r: Vec<u8>)
    ensures
        r@ == reset_table_spec(uncompressed, compressed, frame_starts@),
{
    let mut b = Buf::new();
    b.u32(2);
    b.u32(frame_starts.len() as u32);
    b.u32(8);
    b.u32(0x28);
    b.u64(uncompressed);
    b.u64(compressed);
    b.u64(0x8000);
    let ghost hdr = b@;
    let n = frame_starts.len();
    let mut k: usize = 0;
    while k < n
        invariant
            k <= n,
            n == frame_starts@.len(),
            b@ == hdr + u64s(frame_starts@.subrange(0, k as int)),
        decreases n - k,
    {
        b.u64(frame_starts[k]);
        proof {
            assert(frame_starts@.subrange(0, k + 1).drop_last() =~= frame_starts@.subrange(0, k as int));
            assert(b@ =~= hdr + u64s(frame_starts@.subrange(0, k + 1)));
        }
        k = k + 1;
    }
    proof {
        assert(frame_starts@.subrange(0, n as int) =~= frame_starts@);
    }
    b.v
}

/// The text of the LZX transform's GUID.
pub open spec fn lzx_guid_text() -> Seq<u8> {
    seq![
        0x7Bu8, 0x37, 0x46, 0x43, 0x32, 0x38, 0x39, 0x34, 0x30, 0x2D, 0x39, 0x44, 0x33, 0x31, 0x2D,
        0x31, 0x31, 0x44, 0x30, 0x2D, 0x39, 0x42, 0x32, 0x37, 0x2D, 0x30, 0x30, 0x41, 0x30, 0x43,
        0x39, 0x31, 0x45, 0x39, 0x43, 0x37, 0x43, 0x7D,
    ]
}

/// ::DataSpace/Storage/MSCompressed/Transform/List: the first 19 characters of the
/// LZX GUID text as 16-bit units.
pub open spec fn transform_list_spec() -> Seq<u8> {
    widen(lzx_guid_text().subrange(0, 19))
}

/// Builds the transform list.
pub fn build_transform_list() -> (r: Vec<u8>)
    ensures
        r@ == transform_list_spec(),
{
    let g: [u8; 38] = [
        0x7B, 0x37, 0x46, 0x43, 0x32, 0x38, 0x39, 0x34, 0x30, 0x2D, 0x39, 0x44, 0x33, 0x31, 0x2D,
        0x31, 0x31, 0x44, 0x30, 0x2D, 0x39, 0x42, 0x32, 0x37, 0x2D, 0x30, 0x30, 0x41, 0x30, 0x43,
        0x39, 0x31, 0x45, 0x39, 0x43, 0x37, 0x43, 0x7D,
    ];
    proof {
        assert(g@ =~= lzx_guid_text());
    }
    let mut b = Buf::new();
    push_wide(&mut b, vstd::slice::slice_subrange(&g, 0, 19));
    b.v
}

/// #SUBSETS: nothing without subsets, else a zero word, the size of the records
/// (12 bytes a subset, kept to 16 bits) and that many zero bytes.
pub fn build_subsets(subsets: &[Vec<u8>]) -> (r: Vec<u8>)
    ensures
        r@ == if subsets@.len() == 0 {
            Seq::empty()
        } else {
            u16_le(0) + u16_le(((subsets@.len() * 12) % 65536) as u16) + zeros(subsets@.len() * 12 as int)
        },
{
    let n = subsets.len();
    if n == 0 {
        return Vec::new();
    }
    let mut b = Buf::new();
    b.u16(0);
    let size: u16 = ((n % 65536) * 12 % 65536) as u16;
    proof {
        vstd::arithmetic::div_mod::lemma_mul_mod_noop_left(n as int, 12, 65536);
    }
    b.u16(size);
    let ghost hdr = b@;
    let mut k: usize = 0;
    while k < n
        invariant
            k <= n,
            b@ == hdr + zeros(k * 12 as int),
        decreases n - k,
    {
        b.zeros(12);
        proof {
            assert(b@ =~= hdr + zeros((k + 1) * 12 as int));
        }
        k = k + 1;
    }
    b.v
}

/// Appends a #SYSTEM entry holding a number: code, length 4, value.
pub fn sys_entry(b: &mut Buf, code: u16, value: u32)
    ensures
        final(b)@ == old(b)@ + u16_le(code) + u16_le(4) + u32_le(value),
{
    b.u16(code);
    b.u16(4);
    b.u32(value);
    assert(b@ =~= old(b)@ + u16_le(code) + u16_le(4) + u32_le(value));
}

/// The 16-bit length field of a #SYSTEM text entry: the text's length plus its
/// zero byte, kept to 16 bits.
pub open spec fn sys_len(n: nat) -> u16 {
    let l = n as u16;
    if l == 0xFFFF { 0 } else { (l + 1) as u16 }
}

/// Appends a #SYSTEM entry holding text: code, length with the zero byte, the text
/// and a zero byte.
pub fn sys_entry_str(b: &mut Buf, code: u16, value: &[u8])
    ensures
        final(b)@ == old(b)@ + u16_le(code) + u16_le(sys_len(value@.len())) + value@ + seq![0u8],
{
    let l = value.len() as u16;
    let len: u16 = if l == 0xFFFF { 0 } else { l + 1 };
    b.u16(code);
    b.u16(len);
    b.raw(value);
    b.u8(0);
    assert(b@ =~= old(b)@ + u16_le(code) + u16_le(sys_len(value@.len())) + value@ + seq![0u8]);
}

/// The property file written when keywords exist but no ALinks do: one zero dword.
pub fn dummy_alink_property() -> (r: Vec<u8>)
    ensures
        r@ == u32_le(0),
{
    let mut b = Buf::new();
    b.u32(0);
    b.v
}

/// A GUID as its dword, two words and eight bytes.
pub open spec fn guid_spec(a: u32, b: u16, c: u16, d: Seq<u8>) -> Seq<u8> {
    u32_le(a) + u16_le(b) + u16_le(c) + d
}

pub open spec fn word_breaker_tail() -> Seq<u8> {
    seq![0x9Au8, 0x56, 0x00, 0xC0, 0x4F, 0xB6, 0x8B, 0xF7]
}

pub open spec fn stemmer_tail() -> Seq<u8> {
    seq![0x9Au8, 0x61, 0x00, 0xC0, 0x4F, 0xB6, 0x8B, 0xF7]
}

pub open spec fn system_sort_tail() -> Seq<u8> {
    seq![0x9Au8, 0x56, 0x00, 0xC0, 0x4F, 0xB6, 0x8B, 0x66]
}

/// $OBJINST: the word breaker's settings (its GUID, the codepage and language, the
/// character table), then the stemmer's and the system sort's, each with the codepage
/// and language.
pub open spec fn objinst_spec(cp: u32, lcid: u32, char_table: Seq<u8>) -> Seq<u8> {
    u32_le(0x04000000) + u32_le(2) + u32_le(24) + u32_le(2691) + u32_le(2715) + u32_le(36)
        + guid_spec(0x4662DAAF, 0xD393, 0x11D0, word_breaker_tail()) + u32_le(0x04000000)
        + u32_le(11) + u32_le(cp) + u32_le(lcid) + u32_le(0) + u32_le(0) + u32_le(0x00145555)
        + u32_le(0x00000A0F) + u16_le(0x0100) + u32_le(0x00030005) + zeros(24) + u16_le(0)
        + char_table + u32_le(0xE66561C6) + u32_le(0x73DF6561) + u32_le(0x656F8C73) + u16_le(
        0x6F9C,
    ) + seq![0x65u8] + guid_spec(0x8FA0D5A8, 0xDEDF, 0x11D0, stemmer_tail()) + u32_le(
        0x04000000,
    ) + u32_le(1) + u32_le(cp) + u32_le(lcid) + u32_le(0) + guid_spec(
        0x4662DAB0,
        0xD393,
        0x11D0,
        system_sort_tail(),
    ) + u32_le(666) + u32_le(cp) + u32_le(lcid) + u32_le(10031) + u32_le(0)
}

/// Builds $OBJINST; `char_table` is the word breaker's character table, row by row.
#[verifier::rlimit(40)]
pub fn build_objinst(cp: u32, lcid: u32, char_table: &[u8]) -> (r: Vec<u8>)
    ensures
        r@ == objinst_spec(cp, lcid, char_table@),
{
    let g_word_breaker: [u8; 8] = [0x9A, 0x56, 0x00, 0xC0, 0x4F, 0xB6, 0x8B, 0xF7];
    let g_stemmer: [u8; 8] = [0x9A, 0x61, 0x00, 0xC0, 0x4F, 0xB6, 0x8B, 0xF7];
    let g_system_sort: [u8; 8] = [0x9A, 0x56, 0x00, 0xC0, 0x4F, 0xB6, 0x8B, 0x66];
    proof {
        assert(g_word_breaker@ =~= word_breaker_tail());
        assert(g_stemmer@ =~= stemmer_tail());
        assert(g_system_sort@ =~= system_sort_tail());
    }
    let mut b = Buf::new();
    b.u32(0x04000000);
    b.u32(2);
    b.u32(24);
    b.u32(2691);
    b.u32(2715);
    b.u32(36);
    b.guid(0x4662DAAF, 0xD393, 0x11D0, &g_word_breaker);
    b.u32(0x04000000);
    b.u32(11);
    b.u32(cp);
    b.u32(lcid);
    b.u32(0);
    b.u32(0);
    b.u32(0x00145555);
    b.u32(0x00000A0F);
    b.u16(0x0100);
    b.u32(0x00030005);
    b.zeros(6 * 4);
    b.u16(0);
    b.raw(char_table);
    b.u32(0xE66561C6);
    b.u32(0x73DF6561);
    b.u32(0x656F8C73);
    b.u16(0x6F9C);
    b.u8(0x65);
    b.guid(0x8FA0D5A8, 0xDEDF, 0x11D0, &g_stemmer);
    b.u32(0x04000000);
    b.u32(1);
    b.u32(cp);
    b.u32(lcid);
    b.u32(0);
    b.guid(0x4662DAB0, 0xD393, 0x11D0, &g_system_sort);
    b.u32(666);
    b.u32(cp);
    b.u32(lcid);
    b.u32(10031);
    b.u32(0);
    proof {
        assert(b@ =~= objinst_spec(cp, lcid, char_table@));
    }
    b.v
}

/// A #SYSTEM text entry, left out when the text is empty.
pub open spec fn opt_text_entry(code: u16, v: Seq<u8>) -> Seq<u8> {
    if v.len() == 0 {
        Seq::empty()
    } else {
        u16_le(code) + u16_le(sys_len(v.len())) + v + seq![0u8]
    }
}

/// A #SYSTEM number entry.
pub open spec fn num_entry(code: u16, v: u32) -> Seq<u8> {
    u16_le(code) + u16_le(4) + u32_le(v)
}

/// The fixed start of #SYSTEM: version 3, the generator, the language and the
/// full-text search, keyword and ALink flags.
pub open spec fn system_head(generator: Seq<u8>, lcid: u32, fts: bool, has_klinks: bool, has_alinks: bool) -> Seq<u8> {
    u32_le(3) + u16_le(10) + u16_le(4) + u32_le(0) + u16_le(9) + u16_le(sys_len(generator.len()))
        + generator + seq![0u8] + u16_le(4) + u16_le(36) + u32_le(lcid) + u32_le(0) + u32_le(
        if fts { 1 } else { 0 },
    ) + u32_le(if has_klinks { 1 } else { 0 }) + u32_le(if has_alinks { 1 } else { 0 }) + u64_le(0)
        + u32_le(0) + u32_le(0)
}

/// #SYSTEM: the fixed start, then the default topic, title, default font, contents
/// file, index file and default window when set, the #IDXHDR and binary-TOC markers,
/// the information-type count, and a copy of #IDXHDR.
pub open spec fn system_spec(
    generator: Seq<u8>,
    options: Seq<(Vec<u8>, Vec<u8>)>,
    info_types: nat,
    lcid: u32,
    hhc: Seq<u8>,
    hhk: Seq<u8>,
    default_window: Seq<u8>,
    binary_toc: bool,
    has_klinks: bool,
    has_alinks: bool,
    idxhdr: Seq<u8>,
    fts: bool,
) -> Seq<u8> {
    system_head(generator, lcid, fts, has_klinks, has_alinks) + opt_text_entry(
        2,
        slashes_spec(lookup(options, "default topic".spec_bytes())),
    ) + opt_text_entry(3, lookup(options, "title".spec_bytes())) + opt_text_entry(
        16,
        lookup(options, "default font".spec_bytes()),
    ) + opt_text_entry(0, hhc) + opt_text_entry(1, hhk) + opt_text_entry(5, default_window)
        + system_markers_spec(binary_toc, info_types, idxhdr)
}

/// Builds #SYSTEM; `generator` names the compiler.
pub fn build_system(
    generator: &[u8],
    p: &Project,
    lcid: u32,
    hhc: &[u8],
    hhk: &[u8],
    default_window: &[u8],
    binary_toc: bool,
    has_klinks: bool,
    has_alinks: bool,
    idxhdr: &[u8],
    fts: bool,
) -> (r: Vec<u8>)
    ensures
        r@ == system_spec(
            generator@,
            p.options@,
            p.info_types@.len(),
            lcid,
            hhc@,
            hhk@,
            default_window@,
            binary_toc,
            has_klinks,
            has_alinks,
            idxhdr@,
            fts,
        ),
{
    let mut b = system_head_buf(generator, lcid, fts, has_klinks, has_alinks);
    let ghost head = b@;
    let def_topic = slashes(&p.opt("default topic".as_bytes()));
    opt_text(&mut b, 2, &def_topic);
    opt_text(&mut b, 3, &p.opt("title".as_bytes()));
    opt_text(&mut b, 16, &p.opt("default font".as_bytes()));
    opt_text(&mut b, 0, hhc);
    opt_text(&mut b, 1, hhk);
    opt_text(&mut b, 5, default_window);
    let ghost texts = b@;
    system_markers(&mut b, binary_toc, p.info_types.len(), idxhdr);
    proof {
        assert(b@ =~= system_spec(
            generator@,
            p.options@,
            p.info_types@.len(),
            lcid,
            hhc@,
            hhk@,
            default_window@,
            binary_toc,
            has_klinks,
            has_alinks,
            idxhdr@,
            fts,
        ));
    }
    b.v
}

/// Appends a section file: a directory entry for `name` at the buffer's end, then
/// the data.
pub fn add_sec(entries: &mut Vec<crate::chmwriter::DirEntry>, buf: &mut Buf, section: u32, name: &[u8], data: &[u8])
    ensures
        final(entries)@.len() == old(entries)@.len() + 1,
        final(entries)@.drop_last() == old(entries)@,
        forall|j: int| 0 <= j < old(entries)@.len() ==> #[trigger] final(entries)@[j] == old(entries)@[j],
        final(entries)@.last().name@ == name@,
        final(entries)@.last().section == section,
        final(entries)@.last().offset == old(buf)@.len(),
        final(entries)@.last().size == data@.len(),
        final(buf)@ == old(buf)@ + data@,
{
    let e = crate::chmwriter::DirEntry {
        name: vstd::slice::slice_to_vec(name),
        section,
        offset: buf.len() as u64,
        size: data.len() as u64,
    };
    entries.push(e);
    buf.raw(data);
    proof {
        assert(entries@.drop_last() =~= old(entries)@);
    }
}

fn system_head_buf(generator: &[u8], lcid: u32, fts: bool, has_klinks: bool, has_alinks: bool) -> (b: Buf)
    ensures
        b@ == system_head(generator@, lcid, fts, has_klinks, has_alinks),
{
    let mut b = Buf::new();
    b.u32(3);
    b.u16(10);
    b.u16(4);
    b.u32(0);
    sys_entry_str(&mut b, 9, generator);
    b.u16(4);
    b.u16(36);
    b.u32(lcid);
    b.u32(0);
    b.u32(if fts { 1 } else { 0 });
    b.u32(if has_klinks { 1 } else { 0 });
    b.u32(if has_alinks { 1 } else { 0 });
    b.u64(0);
    b.u32(0);
    b.u32(0);
    assert(b@ =~= system_head(generator@, lcid, fts, has_klinks, has_alinks));
    b
}

/// The #IDXHDR and binary-TOC markers, the information-type count, the #IDXHDR copy.
pub open spec fn system_markers_spec(binary_toc: bool, info_types: nat, idxhdr: Seq<u8>) -> Seq<u8> {
    (if idxhdr.len() > 0 {
        num_entry(7, 0)
    } else {
        Seq::empty()
    }) + (if binary_toc {
        num_entry(11, 0)
    } else {
        Seq::empty()
    }) + (if info_types > 0 {
        num_entry(12, info_types as u32)
    } else {
        Seq::empty()
    }) + (if idxhdr.len() > 0 {
        u16_le(13) + u16_le(idxhdr.len() as u16) + idxhdr
    } else {
        Seq::empty()
    })
}

fn system_markers(b: &mut Buf, binary_toc: bool, info_types: usize, idxhdr: &[u8])
    ensures
        final(b)@ == old(b)@ + system_markers_spec(binary_toc, info_types as nat, idxhdr@),
{
    let ghost b0 = b@;
    if idxhdr.len() > 0 {
        sys_entry(b, 7, 0);
    }
    if binary_toc {
        sys_entry(b, 11, 0);
    }
    if info_types > 0 {
        sys_entry(b, 12, info_types as u32);
    }
    if idxhdr.len() > 0 {
        b.u16(13);
        b.u16(idxhdr.len() as u16);
        b.raw(idxhdr);
    }
    assert(b@ =~= b0 + system_markers_spec(binary_toc, info_types as nat, idxhdr@));
}

fn opt_text(b: &mut Buf, code: u16, v: &[u8])
    ensures
        final(b)@ == old(b)@ + opt_text_entry(code, v@),
{
    if v.len() > 0 {
        sys_entry_str(b, code, v);
    } else {
        assert(b@ =~= old(b)@ + opt_text_entry(code, v@));
    }
}

/// A string field of #IDXHDR: `none` for an empty value, else where `st` holds the
/// encoded text.
pub open spec fn idx_str(st: Strings, v: Seq<u8>, none: u32, cp: u32, ts: Seq<CodepageTable>) -> u32 {
    if v.len() == 0 { none } else { st.offset_of(enc_text(v, cp, ts)) }
}

/// A colour field: 0xFFFFFFFF when not set, else the number.
pub open spec fn color_or_none(v: Seq<u8>) -> u32 {
    if v.len() == 0 { 0xFFFF_FFFF } else { parse_int_spec(v) }
}

/// Where `st` holds each merge file name, as dwords.
pub open spec fn merge_offsets(st: Strings, ms: Seq<Vec<u8>>) -> Seq<u8>
    decreases ms.len(),
{
    if ms.len() == 0 {
        Seq::empty()
    } else {
        merge_offsets(st, ms.drop_last()) + u32_le(st.offset_of(ms.last()@))
    }
}

pub open spec fn tsm_magic() -> Seq<u8> {
    seq![0x54u8, 0x23, 0x53, 0x4D]
}

/// The 80-byte start of #IDXHDR: `T#SM`, the topic count, the image list, folder
/// images, colours, font, frame and window names, and the merge-file count.
pub open spec fn idxhdr_head(count: u32, props: Seq<(Vec<u8>, Vec<u8>)>, m: nat, st: Strings, cp: u32, ts: Seq<CodepageTable>) -> Seq<u8> {
    tsm_magic() + u32_le(0) + u32_le(1) + u32_le(count) + u32_le(0) + u32_le(
        idx_str(st, lookup(props, "imagelist".spec_bytes()), 0xFFFF_FFFF, cp, ts),
    ) + u32_le(0) + u32_le(
        if lc_seq(lookup(props, "imagetype".spec_bytes())) == "folder".spec_bytes() { 1 } else { 0 },
    ) + u32_le(color_or_none(lookup(props, "background".spec_bytes()))) + u32_le(
        color_or_none(lookup(props, "foreground".spec_bytes())),
    ) + u32_le(idx_str(st, lookup(props, "font".spec_bytes()), 0xFFFF_FFFF, cp, ts)) + u32_le(
        0xFFFF_FFFF,
    ) + u32_le(0) + u32_le(0xFFFF_FFFF) + u32_le(
        idx_str(st, lookup(props, "framename".spec_bytes()), 0, cp, ts),
    ) + u32_le(idx_str(st, lookup(props, "windowname".spec_bytes()), 0xFFFF_FFFF, cp, ts)) + u32_le(
        0,
    ) + u32_le(1) + u32_le(m as u32) + u32_le(if m == 0 { 0 } else { 1 })
}

/// #IDXHDR: its head, each merge file's name offset, zero to 4096 bytes.
pub open spec fn idxhdr_spec(count: u32, props: Seq<(Vec<u8>, Vec<u8>)>, ms: Seq<Vec<u8>>, st: Strings, cp: u32, ts: Seq<CodepageTable>) -> Seq<u8> {
    idxhdr_head(count, props, ms.len(), st, cp, ts) + merge_offsets(st, ms) + zeros(4 * (1004 - ms.len()))
}

fn text_or(strings: &mut Strings, v: &Vec<u8>, none: u32, cp: u32, tables: &[CodepageTable]) -> (r: u32)
    requires
        old(strings).wf(),
        tables_ok(tables@),
    ensures
        final(strings).wf(),
        old(strings).grows_to(&*final(strings)),
        v@.len() > 0 ==> final(strings).knows(enc_text(v@, cp, tables@)),
        r == idx_str(*final(strings), v@, none, cp, tables@),
{
    if v.len() == 0 {
        proof {
            assert(strings.buf@.subrange(0, strings.buf@.len() as int) =~= strings.buf@);
        }
        none
    } else {
        strings.add_text(v, cp, tables)
    }
}

proof fn lemma_idx_str_stable(a: Strings, b: Strings, v: Seq<u8>, none: u32, cp: u32, ts: Seq<CodepageTable>)
    requires
        a.grows_to(&b),
        v.len() > 0 ==> a.knows(enc_text(v, cp, ts)),
    ensures
        idx_str(b, v, none, cp, ts) == idx_str(a, v, none, cp, ts),
        v.len() > 0 ==> b.knows(enc_text(v, cp, ts)),
{
    if v.len() > 0 {
        lemma_grows_offset(&a, &b, enc_text(v, cp, ts));
    }
}

proof fn lemma_merge_stable(ms: Seq<Vec<u8>>, a: Strings, b: Strings)
    requires
        a.grows_to(&b),
        forall|i: int| 0 <= i < ms.len() ==> a.knows(#[trigger] ms[i]@),
    ensures
        merge_offsets(b, ms) == merge_offsets(a, ms),
        forall|i: int| 0 <= i < ms.len() ==> b.knows(#[trigger] ms[i]@),
    decreases ms.len(),
{
    if ms.len() > 0 {
        let d = ms.drop_last();
        assert forall|i: int| 0 <= i < d.len() implies a.knows(#[trigger] d[i]@) by {
            assert(d[i] == ms[i]);
        }
        lemma_merge_stable(d, a, b);
        lemma_grows_offset(&a, &b, ms.last()@);
    }
    assert forall|i: int| 0 <= i < ms.len() implies b.knows(#[trigger] ms[i]@) by {
        lemma_grows_offset(&a, &b, ms[i]@);
    }
}

/// The properties whose text #IDXHDR stores are held by `st`.
pub open spec fn knows_props(st: Strings, props: Seq<(Vec<u8>, Vec<u8>)>, cp: u32, ts: Seq<CodepageTable>) -> bool {
    &&& (lookup(props, "imagelist".spec_bytes()).len() > 0 ==> st.knows(enc_text(lookup(props, "imagelist".spec_bytes()), cp, ts)))
    &&& (lookup(props, "font".spec_bytes()).len() > 0 ==> st.knows(enc_text(lookup(props, "font".spec_bytes()), cp, ts)))
    &&& (lookup(props, "framename".spec_bytes()).len() > 0 ==> st.knows(enc_text(lookup(props, "framename".spec_bytes()), cp, ts)))
    &&& (lookup(props, "windowname".spec_bytes()).len() > 0 ==> st.knows(enc_text(lookup(props, "windowname".spec_bytes()), cp, ts)))
}

proof fn lemma_head_stable(count: u32, props: Seq<(Vec<u8>, Vec<u8>)>, m: nat, a: Strings, b: Strings, cp: u32, ts: Seq<CodepageTable>)
    requires
        a.grows_to(&b),
        knows_props(a, props, cp, ts),
    ensures
        idxhdr_head(count, props, m, a, cp, ts) == idxhdr_head(count, props, m, b, cp, ts),
{
    lemma_idx_str_stable(a, b, lookup(props, "imagelist".spec_bytes()), 0xFFFF_FFFF, cp, ts);
    lemma_idx_str_stable(a, b, lookup(props, "font".spec_bytes()), 0xFFFF_FFFF, cp, ts);
    lemma_idx_str_stable(a, b, lookup(props, "framename".spec_bytes()), 0, cp, ts);
    lemma_idx_str_stable(a, b, lookup(props, "windowname".spec_bytes()), 0xFFFF_FFFF, cp, ts);
}

#[verifier::rlimit(40)]
fn idxhdr_head_buf(
    topic_count: u32,
    props: &Vec<(Vec<u8>, Vec<u8>)>,
    strings: &mut Strings,
    m: usize,
    cp: u32,
    tables: &[CodepageTable],
) -> (b: Buf)
    requires
        old(strings).wf(),
        tables_ok(tables@),
    ensures
        final(strings).wf(),
        old(strings).grows_to(&*final(strings)),
        knows_props(*final(strings), props@, cp, tables@),
        b@ == idxhdr_head(topic_count, props@, m as nat, *final(strings), cp, tables@),
{
    let imagelist = crate::sitemap::lookup_pairs(props, "imagelist".as_bytes());
    let imagetype = lower(&crate::sitemap::lookup_pairs(props, "imagetype".as_bytes()));
    let background = crate::sitemap::lookup_pairs(props, "background".as_bytes());
    let foreground = crate::sitemap::lookup_pairs(props, "foreground".as_bytes());
    let font = crate::sitemap::lookup_pairs(props, "font".as_bytes());
    let framename = crate::sitemap::lookup_pairs(props, "framename".as_bytes());
    let windowname = crate::sitemap::lookup_pairs(props, "windowname".as_bytes());
    let folder = eq_bytes(&imagetype, "folder".as_bytes());
    let ghost s0 = *strings;
    let o_image = text_or(strings, &imagelist, 0xFFFF_FFFF, cp, tables);
    let ghost s1 = *strings;
    let o_font = text_or(strings, &font, 0xFFFF_FFFF, cp, tables);
    let ghost s2 = *strings;
    let o_frame = text_or(strings, &framename, 0, cp, tables);
    let ghost s3 = *strings;
    let o_window = text_or(strings, &windowname, 0xFFFF_FFFF, cp, tables);
    proof {
        lemma_grows_trans(&s1, &s2, &s3);
        lemma_grows_trans(&s1, &s3, &*strings);
        lemma_grows_trans(&s2, &s3, &*strings);
        lemma_idx_str_stable(s1, *strings, imagelist@, 0xFFFF_FFFF, cp, tables@);
        lemma_idx_str_stable(s2, *strings, font@, 0xFFFF_FFFF, cp, tables@);
        lemma_idx_str_stable(s3, *strings, framename@, 0, cp, tables@);
        lemma_grows_trans(&s0, &s1, &s2);
        lemma_grows_trans(&s0, &s2, &s3);
        lemma_grows_trans(&s0, &s3, &*strings);
    }
    let color_bg: u32 = if background.len() == 0 { 0xFFFF_FFFF } else { parse_int(&background) };
    let color_fg: u32 = if foreground.len() == 0 { 0xFFFF_FFFF } else { parse_int(&foreground) };
    let mut b = Buf::new();
    let magic: [u8; 4] = [0x54, 0x23, 0x53, 0x4D];
    proof {
        assert(magic@ =~= tsm_magic());
    }
    b.raw(&magic);
    b.u32(0);
    b.u32(1);
    b.u32(topic_count);
    b.u32(0);
    b.u32(o_image);
    b.u32(0);
    b.u32(if folder { 1 } else { 0 });
    b.u32(color_bg);
    b.u32(color_fg);
    b.u32(o_font);
    b.u32(0xFFFF_FFFF);
    b.u32(0);
    b.u32(0xFFFF_FFFF);
    b.u32(o_frame);
    b.u32(o_window);
    b.u32(0);
    b.u32(1);
    b.u32(m as u32);
    b.u32(if m == 0 { 0 } else { 1 });
    proof {
        assert(b@ =~= idxhdr_head(topic_count, props@, m as nat, *strings, cp, tables@));
    }
    b
}

/// Builds #IDXHDR, storing its strings in `strings`; at most 1004 merge files fit.
pub fn build_idxhdr(
    topic_count: u32,
    props: &Vec<(Vec<u8>, Vec<u8>)>,
    strings: &mut Strings,
    merge_files: &[Vec<u8>],
    cp: u32,
    tables: &[CodepageTable],
) -> (r: Vec<u8>)
    requires
        old(strings).wf(),
        tables_ok(tables@),
        merge_files@.len() <= 1004,
    ensures
        final(strings).wf(),
        old(strings).grows_to(&*final(strings)),
        r@ == idxhdr_spec(topic_count, props@, merge_files@, *final(strings), cp, tables@),
        r@.len() == 4096,
{
    let m = merge_files.len();
    let mut b = idxhdr_head_buf(topic_count, props, strings, m, cp, tables);
    let ghost s4 = *strings;
    let ghost head = b@;
    let mut k: usize = 0;
    proof {
        assert(merge_files@.subrange(0, 0) =~= Seq::<Vec<u8>>::empty());
        assert(strings.buf@.subrange(0, strings.buf@.len() as int) =~= strings.buf@);
    }
    while k < m
        invariant
            k <= m,
            m == merge_files@.len(),
            m <= 1004,
            strings.wf(),
            s4.grows_to(&*strings),
            b@ == head + merge_offsets(*strings, merge_files@.subrange(0, k as int)),
            head.len() == 80,
            forall|i: int| 0 <= i < k ==> strings.knows(#[trigger] merge_files@[i]@),
        decreases m - k,
    {
        let ghost before = *strings;
        let o = strings.add(&merge_files[k]);
        b.u32(o);
        proof {
            let done = merge_files@.subrange(0, k as int);
            assert forall|i: int| 0 <= i < done.len() implies before.knows(#[trigger] done[i]@) by {
                assert(done[i] == merge_files@[i]);
            }
            lemma_merge_stable(done, before, *strings);
            let next = merge_files@.subrange(0, k + 1);
            assert(next.drop_last() =~= done);
            lemma_grows_trans(&s4, &before, &*strings);
            assert forall|i: int| 0 <= i < k + 1 implies strings.knows(#[trigger] merge_files@[i]@) by {
                if i < k {
                    assert(done[i] == merge_files@[i]);
                }
            }
        }
        k = k + 1;
    }
    proof {
        lemma_merge_len(*strings, merge_files@);
        assert(merge_files@.subrange(0, m as int) =~= merge_files@);
    }
    let ghost mid = b@;
    let mut z = m;
    while z < 1004
        invariant
            m <= z <= 1004,
            b@ == mid + zeros(4 * (z - m)),
        decreases 1004 - z,
    {
        b.u32(0);
        proof {
            assert(u32_le(0) =~= zeros(4));
            assert(b@ =~= mid + zeros(4 * (z + 1 - m)));
        }
        z = z + 1;
    }
    let fill = 4096 - b.len();
    b.zeros(fill);
    proof {
        lemma_head_stable(topic_count, props@, m as nat, s4, *strings, cp, tables@);
        assert(b@ =~= idxhdr_spec(topic_count, props@, merge_files@, *strings, cp, tables@));
    }
    b.v
}

proof fn lemma_merge_len(st: Strings, ms: Seq<Vec<u8>>)
    ensures
        merge_offsets(st, ms).len() == 4 * ms.len(),
    decreases ms.len(),
{
    if ms.len() > 0 {
        lemma_merge_len(st, ms.drop_last());
    }
}

/// The context-id table with `(id, f)` put in: an entry with that id gets the new
/// file, else it is inserted in id order.
pub open spec fn ctx_insert(s: Seq<(u32, Seq<u8>)>, id: u32, f: Seq<u8>) -> Seq<(u32, Seq<u8>)>
    decreases s.len(),
{
    if s.len() == 0 {
        seq![(id, f)]
    } else if s[0].0 == id {
        s.update(0, (id, f))
    } else if s[0].0 > id {
        seq![(id, f)] + s
    } else {
        seq![s[0]] + ctx_insert(s.drop_first(), id, f)
    }
}

/// The context ids of a project in id order, each with the file of the first alias
/// its [MAP] name has; a later definition of an id replaces an earlier one, and a
/// name without an alias is left out.
pub open spec fn ivb_ctx(defs: Seq<(Vec<u8>, u32)>, aliases: Seq<(Vec<u8>, Vec<u8>)>) -> Seq<(u32, Seq<u8>)>
    decreases defs.len(),
{
    if defs.len() == 0 {
        Seq::empty()
    } else {
        let c = ivb_ctx(defs.drop_last(), aliases);
        let d = defs.last();
        match crate::sitemap::lookup_from(aliases, d.0@, 0) {
            Some(f) => ctx_insert(c, d.1, f),
            None => c,
        }
    }
}

/// The #IVB records: each id and where `st` holds its file name.
pub open spec fn ivb_entries(st: Strings, ctx: Seq<(u32, Seq<u8>)>) -> Seq<u8>
    decreases ctx.len(),
{
    if ctx.len() == 0 {
        Seq::empty()
    } else {
        ivb_entries(st, ctx.drop_last()) + u32_le(ctx.last().0) + u32_le(st.offset_of(ctx.last().1))
    }
}

/// The ids are strictly increasing.
pub open spec fn ctx_sorted(s: Seq<(u32, Seq<u8>)>) -> bool {
    forall|i: int, j: int| 0 <= i < j < s.len() ==> s[i].0 < s[j].0
}

pub open spec fn ctx_view(v: Seq<(u32, Vec<u8>)>) -> Seq<(u32, Seq<u8>)> {
    Seq::new(v.len(), |i: int| (v[i].0, v[i].1@))
}

#[verifier::spinoff_prover]
#[verifier::rlimit(50)]
proof fn lemma_ctx_insert(s: Seq<(u32, Seq<u8>)>, id: u32, f: Seq<u8>, p: int)
    requires
        ctx_sorted(s),
        0 <= p <= s.len(),
        forall|i: int| 0 <= i < p ==> s[i].0 < id,
        p < s.len() ==> s[p].0 >= id,
    ensures
        ctx_insert(s, id, f) == if p < s.len() && s[p].0 == id {
            s.update(p, (id, f))
        } else {
            s.insert(p, (id, f))
        },
        ctx_sorted(ctx_insert(s, id, f)),
    decreases s.len(),
{
    if s.len() == 0 {
        assert(s.insert(p, (id, f)) =~= seq![(id, f)]);
    } else if p == 0 {
        if s[0].0 == id {
        } else {
            assert(s.insert(0, (id, f)) =~= seq![(id, f)] + s);
        }
    } else {
        let t = s.drop_first();
        assert forall|i: int, j: int| 0 <= i < j < t.len() implies t[i].0 < t[j].0 by {
            assert(t[i] == s[i + 1] && t[j] == s[j + 1]);
        }
        lemma_ctx_insert(t, id, f, p - 1);
        if p < s.len() && s[p].0 == id {
            assert(seq![s[0]] + t.update(p - 1, (id, f)) =~= s.update(p, (id, f)));
        } else {
            assert(seq![s[0]] + t.insert(p - 1, (id, f)) =~= s.insert(p, (id, f)));
        }
    }
    let r = ctx_insert(s, id, f);
    if p < s.len() && s[p].0 == id {
        assert forall|i: int, j: int| 0 <= i < j < r.len() implies r[i].0 < r[j].0 by {
            assert(r == s.update(p, (id, f)));
        }
    } else {
        assert forall|i: int, j: int| 0 <= i < j < r.len() implies r[i].0 < r[j].0 by {
            assert(r == s.insert(p, (id, f)));
            if j < p {
                assert(r[i] == s[i] && r[j] == s[j]);
            } else if i < p && j == p {
                assert(r[i] == s[i]);
            } else if i < p && j > p {
                assert(r[i] == s[i] && r[j] == s[j - 1]);
            } else if i == p {
                assert(r[j] == s[j - 1]);
            } else {
                assert(r[i] == s[i - 1] && r[j] == s[j - 1]);
            }
        }
    }
}

/// Finds the file of the first alias named `name`.
fn find_alias(aliases: &Vec<(Vec<u8>, Vec<u8>)>, name: &Vec<u8>) -> (r: Option<Vec<u8>>)
    ensures
        match r {
            Some(f) => crate::sitemap::lookup_from(aliases@, name@, 0) == Some(f@),
            None => crate::sitemap::lookup_from(aliases@, name@, 0) is None,
        },
{
    let n = aliases.len();
    let mut i: usize = 0;
    while i < n
        invariant
            i <= n,
            n == aliases@.len(),
            crate::sitemap::lookup_from(aliases@, name@, 0) == crate::sitemap::lookup_from(aliases@, name@, i as int),
        decreases n - i,
    {
        if eq_bytes(&aliases[i].0, name) {
            return Some(crate::sitemap::copy_vec(&aliases[i].1));
        }
        i = i + 1;
    }
    None
}

/// Puts `(id, f)` into the sorted table.
fn ctx_put(ctx: &mut Vec<(u32, Vec<u8>)>, id: u32, f: Vec<u8>)
    requires
        ctx_sorted(ctx_view(old(ctx)@)),
    ensures
        ctx_view(final(ctx)@) == ctx_insert(ctx_view(old(ctx)@), id, f@),
        ctx_sorted(ctx_view(final(ctx)@)),
{
    let ghost s = ctx_view(ctx@);
    let n = ctx.len();
    let mut p: usize = 0;
    while p < n && ctx[p].0 < id
        invariant
            p <= n,
            n == ctx@.len(),
            s == ctx_view(ctx@),
            forall|i: int| 0 <= i < p ==> s[i].0 < id,
        decreases n - p,
    {
        p = p + 1;
    }
    proof {
        lemma_ctx_insert(s, id, f@, p as int);
    }
    if p < n && ctx[p].0 == id {
        ctx.set(p, (id, f));
        proof {
            assert(ctx_view(ctx@) =~= s.update(p as int, (id, f@)));
        }
    } else {
        ctx.insert(p, (id, f));
        proof {
            assert(ctx_view(ctx@) =~= s.insert(p as int, (id, f@)));
        }
    }
}

/// The ids' files are held by `st`.
pub open spec fn knows_ctx(st: Strings, ctx: Seq<(u32, Seq<u8>)>) -> bool {
    forall|i: int| 0 <= i < ctx.len() ==> st.knows(#[trigger] ctx[i].1)
}

proof fn lemma_ivb_stable(ctx: Seq<(u32, Seq<u8>)>, a: Strings, b: Strings)
    requires
        a.grows_to(&b),
        knows_ctx(a, ctx),
    ensures
        ivb_entries(a, ctx) == ivb_entries(b, ctx),
        knows_ctx(b, ctx),
    decreases ctx.len(),
{
    if ctx.len() > 0 {
        let d = ctx.drop_last();
        assert forall|i: int| 0 <= i < d.len() implies a.knows(#[trigger] d[i].1) by {
            assert(d[i] == ctx[i]);
        }
        lemma_ivb_stable(d, a, b);
        lemma_grows_offset(&a, &b, ctx.last().1);
    }
    assert forall|i: int| 0 <= i < ctx.len() implies b.knows(#[trigger] ctx[i].1) by {
        lemma_grows_offset(&a, &b, ctx[i].1);
    }
}

/// Builds #IVB, the context-id table: nothing when no [MAP] name has an alias, else
/// the table's size in bytes, then each id with its file name's #STRINGS offset.
pub fn build_ivb(p: &Project, strings: &mut Strings) -> (r: Vec<u8>)
    requires
        old(strings).wf(),
    ensures
        final(strings).wf(),
        old(strings).grows_to(&*final(strings)),
        ({
            let ctx = ivb_ctx(p.map_defs@, p.aliases@);
            if ctx.len() == 0 {
                r@.len() == 0 && *final(strings) == *old(strings)
            } else {
                r@ == u32_le(((ctx.len() * 8) % 0x1_0000_0000) as u32) + ivb_entries(*final(strings), ctx)
            }
        }),
{
    let mut ctx: Vec<(u32, Vec<u8>)> = Vec::new();
    let nd = p.map_defs.len();
    let mut k: usize = 0;
    proof {
        assert(p.map_defs@.subrange(0, 0) =~= Seq::<(Vec<u8>, u32)>::empty());
        assert(ctx_view(ctx@) =~= Seq::<(u32, Seq<u8>)>::empty());
    }
    while k < nd
        invariant
            k <= nd,
            nd == p.map_defs@.len(),
            ctx_view(ctx@) == ivb_ctx(p.map_defs@.subrange(0, k as int), p.aliases@),
            ctx_sorted(ctx_view(ctx@)),
        decreases nd - k,
    {
        proof {
            assert(p.map_defs@.subrange(0, k + 1).drop_last() =~= p.map_defs@.subrange(0, k as int));
        }
        match find_alias(&p.aliases, &p.map_defs[k].0) {
            Some(f) => {
                ctx_put(&mut ctx, p.map_defs[k].1, f);
            },
            None => {},
        }
        k = k + 1;
    }
    proof {
        assert(p.map_defs@.subrange(0, nd as int) =~= p.map_defs@);
        assert(strings.buf@.subrange(0, strings.buf@.len() as int) =~= strings.buf@);
    }
    let n = ctx.len();
    if n == 0 {
        return Vec::new();
    }
    let ghost cv = ctx_view(ctx@);
    let mut b = Buf::new();
    let size: u32 = ((n as u64 % 0x1_0000_0000) * 8 % 0x1_0000_0000) as u32;
    proof {
        vstd::arithmetic::div_mod::lemma_mul_mod_noop_left(n as int, 8, 0x1_0000_0000);
    }
    b.u32(size);
    let ghost hdr = b@;
    let ghost s0 = *strings;
    let mut i: usize = 0;
    proof {
        assert(cv.subrange(0, 0) =~= Seq::<(u32, Seq<u8>)>::empty());
    }
    while i < n
        invariant
            i <= n,
            n == ctx@.len(),
            cv == ctx_view(ctx@),
            strings.wf(),
            s0.grows_to(&*strings),
            b@ == hdr + ivb_entries(*strings, cv.subrange(0, i as int)),
            knows_ctx(*strings, cv.subrange(0, i as int)),
        decreases n - i,
    {
        let ghost before = *strings;
        let o = strings.add(&ctx[i].1);
        b.u32(ctx[i].0);
        b.u32(o);
        proof {
            let done = cv.subrange(0, i as int);
            lemma_ivb_stable(done, before, *strings);
            lemma_grows_trans(&s0, &before, &*strings);
            let next = cv.subrange(0, i + 1);
            assert(next.drop_last() =~= done);
            assert(next.last() == cv[i as int]);
            assert forall|j: int| 0 <= j < next.len() implies strings.knows(#[trigger] next[j].1) by {
                if j < i {
                    assert(next[j] == done[j]);
                }
            }
        }
        i = i + 1;
    }
    proof {
        assert(cv.subrange(0, n as int) =~= cv);
        lemma_grows_trans(&*old(strings), &s0, &*strings);
    }
    b.v
}

} // verus!
