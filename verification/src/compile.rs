//! Assembling a compiled help file from a project and the files its walk read: the
//! content section with every file and internal table, LZX-compressed, then section 0
//! with #SYSTEM and the storage descriptions, and the archive image around them.
use vstd::prelude::*;
use vstd::string::StringSliceAdditionalSpecFns;
use crate::btree::BinIndexFiles;
use crate::builder::{CompileError, Loaded, Setup, Stats};
use crate::bytebuf::{Buf, u64_le};
use crate::chmreader::{header_ok, itsp_at, le64_at, listing_of};
use crate::chmwriter::{build_container, chunk_sane, dir_listing, names_ok, sorted_names, DirEntry, CHUNK};
use crate::fifti::FtsIndexer;
use crate::hhp::{is_yes, Project};
use crate::keywords::{build_tocidx, flat_sorted, has_topic, BTreeBuilder};
use crate::links::{extract_title_s, is_html_name};
use crate::lzx::{intervals_coded, lzx_compress, padded_len, FRAME};
use crate::metafiles::{
    add_sec, build_control_data, build_idxhdr, build_ivb, build_namelist, build_objinst,
    build_reset_table, build_subsets, build_system, build_transform_list, control_data_spec, dummy_alink_property,
    namelist_spec, reset_table_spec, system_spec, transform_list_spec,
};
use crate::sitemap::{copy_vec, lookup, scan_link_objects, SiteMap};
use crate::tables::{Strings, Topics, Urls};
use crate::textenc::{lc_seq, tables_ok, CodepageTable};
use crate::window::{build_windows, parse_window_line, Window};
use crate::bytebuf::le32_at;

verus! {

/// The sections of a compiled help file and its image.
pub struct Compiled {
    pub section1: Vec<u8>,
    pub section0: Vec<u8>,
    pub compressed: Vec<u8>,
    pub image: Vec<u8>,
    pub stats: Stats,
}

/// Entry `j` of `es` is named `name`, lies in section 1 and holds `data` in `buf`.
pub open spec fn file_at(es: Seq<DirEntry>, buf: Seq<u8>, j: int, name: Seq<u8>, data: Seq<u8>) -> bool {
    &&& 0 <= j < es.len()
    &&& es[j].name@ == name
    &&& es[j].section == 1
    &&& es[j].size == data.len()
    &&& es[j].offset + data.len() <= buf.len()
    &&& buf.subrange(es[j].offset as int, es[j].offset + data.len()) == data
}

/// Some entry of `es` holds `data` under `name`.
pub open spec fn holds(es: Seq<DirEntry>, buf: Seq<u8>, name: Seq<u8>, data: Seq<u8>) -> bool {
    exists|j: int| #[trigger] file_at(es, buf, j, name, data)
}

/// The archive name of a project file: `/` and its path.
pub open spec fn archive_name(rel: Seq<u8>) -> Seq<u8> {
    seq![0x2Fu8] + rel
}

proof fn lemma_holds_grow(e0: Seq<DirEntry>, b0: Seq<u8>, e1: Seq<DirEntry>, b1: Seq<u8>, name: Seq<u8>, data: Seq<u8>)
    requires
        holds(e0, b0, name, data),
        e0.len() <= e1.len(),
        forall|i: int| 0 <= i < e0.len() ==> #[trigger] e1[i] == e0[i],
        b0.is_prefix_of(b1),
    ensures
        holds(e1, b1, name, data),
{
    let j = choose|j: int| #[trigger] file_at(e0, b0, j, name, data);
    assert(e1[j] == e0[j]);
    assert(b1.subrange(e0[j].offset as int, e0[j].offset + data.len()) =~= b0.subrange(e0[j].offset as int, e0[j].offset + data.len()));
    assert(file_at(e1, b1, j, name, data));
}

/// Every project file is held under its archive name.
pub open spec fn holds_all(es: Seq<DirEntry>, buf: Seq<u8>, loaded: Seq<Loaded>, n: int) -> bool {
    forall|i: int| 0 <= i < n ==> holds(es, buf, archive_name((#[trigger] loaded[i]).rel@), loaded[i].data@)
}

/// Appends a section file and keeps what was held.
fn add_file(entries: &mut Vec<DirEntry>, buf: &mut Buf, name: &[u8], data: &[u8])
    ensures
        grown(old(entries)@, old(buf)@, final(entries)@, final(buf)@),
        holds(final(entries)@, final(buf)@, name@, data@),
        final(entries)@.len() == old(entries)@.len() + 1,
        final(entries)@.last().section == 1,
        final(entries)@.last().name@ == name@,
{
    add_sec(entries, buf, 1, name, data);
    proof {
        let j = entries@.len() - 1;
        assert(buf@.subrange(old(buf)@.len() as int, (old(buf)@.len() + data@.len()) as int) =~= data@);
        assert(file_at(entries@, buf@, j, name@, data@));
        assert forall|i: int| 0 <= i < old(entries)@.len() implies #[trigger] entries@[i] == old(entries)@[i] by {
            assert(entries@.drop_last()[i] == entries@[i]);
        }
        assert(old(buf)@.is_prefix_of(buf@)) by {
            assert(buf@.subrange(0, old(buf)@.len() as int) =~= old(buf)@);
        }
    }
}

/// The entries and buffer only grew.
pub open spec fn grown(e0: Seq<DirEntry>, b0: Seq<u8>, e1: Seq<DirEntry>, b1: Seq<u8>) -> bool {
    &&& e0.len() <= e1.len()
    &&& forall|i: int| 0 <= i < e0.len() ==> #[trigger] e1[i] == e0[i]
    &&& b0.is_prefix_of(b1)
}

proof fn lemma_grown_trans(e0: Seq<DirEntry>, b0: Seq<u8>, e1: Seq<DirEntry>, b1: Seq<u8>, e2: Seq<DirEntry>, b2: Seq<u8>)
    requires
        grown(e0, b0, e1, b1),
        grown(e1, b1, e2, b2),
    ensures
        grown(e0, b0, e2, b2),
{
    assert forall|i: int| 0 <= i < e0.len() implies #[trigger] e2[i] == e0[i] by {
        assert(e1[i] == e0[i]);
    }
    assert(b2.subrange(0, b0.len() as int) =~= b1.subrange(0, b0.len() as int));
}

proof fn lemma_holds_all_grow(e0: Seq<DirEntry>, b0: Seq<u8>, e1: Seq<DirEntry>, b1: Seq<u8>, loaded: Seq<Loaded>, n: int)
    requires
        holds_all(e0, b0, loaded, n),
        grown(e0, b0, e1, b1),
    ensures
        holds_all(e1, b1, loaded, n),
{
    assert forall|i: int| 0 <= i < n implies holds(e1, b1, archive_name((#[trigger] loaded[i]).rel@), loaded[i].data@) by {
        lemma_holds_grow(e0, b0, e1, b1, archive_name(loaded[i].rel@), loaded[i].data@);
    }
}

/// `/` and `rel`.
fn archive_name_exec(rel: &Vec<u8>) -> (r: Vec<u8>)
    ensures
        r@ == archive_name(rel@),
{
    let mut r: Vec<u8> = Vec::new();
    r.push(0x2F);
    let n = rel.len();
    let mut k: usize = 0;
    while k < n
        invariant
            k <= n,
            n == rel@.len(),
            r@ == seq![0x2Fu8] + rel@.subrange(0, k as int),
        decreases n - k,
    {
        r.push(rel[k]);
        k = k + 1;
        assert(r@ =~= seq![0x2Fu8] + rel@.subrange(0, k as int));
    }
    assert(rel@.subrange(0, n as int) =~= rel@);
    r
}

/// Appends a section file; the entries and buffer keep growing from `e0`, `b0`.
fn add_file_from(entries: &mut Vec<DirEntry>, buf: &mut Buf, name: &[u8], data: &[u8], Ghost(e0): Ghost<Seq<DirEntry>>, Ghost(b0): Ghost<Seq<u8>>)
    requires
        grown(e0, b0, old(entries)@, old(buf)@),
    ensures
        grown(e0, b0, final(entries)@, final(buf)@),
        grown(old(entries)@, old(buf)@, final(entries)@, final(buf)@),
        holds(final(entries)@, final(buf)@, name@, data@),
        final(entries)@.len() == old(entries)@.len() + 1,
{
    let ghost e1 = entries@;
    let ghost b1 = buf@;
    add_file(entries, buf, name, data);
    proof {
        lemma_grown_trans(e0, b0, e1, b1, entries@, buf@);
    }
}

/// The tables a compilation fills.
pub struct Tables {
    pub strings: Strings,
    pub urls: Urls,
    pub topics: Topics,
    pub fts: FtsIndexer,
    pub klinks: BTreeBuilder,
    pub alinks: BTreeBuilder,
}

/// The tables are whole.
pub open spec fn tables_wf(t: Tables) -> bool {
    &&& t.strings.wf()
    &&& t.urls.wf()
    &&& t.fts.wf()
    &&& flat_sorted(t.klinks.flat@)
    &&& flat_sorted(t.alinks.flat@)
}

proof fn lemma_upto_below(fts: FtsIndexer, t: u32)
    requires
        fts.topics_upto(t),
        t < 0xFFFF_FFFF,
    ensures
        fts.topics_below((t + 1) as u32),
{
}

/// Records each of `words` as leading to `topic`.
fn add_keywords(b: &mut BTreeBuilder, words: &Vec<Vec<u8>>, topic: u32)
    requires
        flat_sorted(old(b).flat@),
    ensures
        flat_sorted(final(b).flat@),
        final(b).cp == old(b).cp,
        final(b).entries == old(b).entries,
        forall|q: int| 0 <= q < words@.len() ==> has_topic(final(b).flat@, lc_seq((#[trigger] words@[q])@), topic),
        forall|key: Seq<u8>, t: u32| #[trigger] has_topic(old(b).flat@, key, t) ==> has_topic(final(b).flat@, key, t),
{
    let n = words.len();
    let mut q: usize = 0;
    while q < n
        invariant
            q <= n,
            n == words@.len(),
            flat_sorted(b.flat@),
            b.cp == old(b).cp,
            b.entries == old(b).entries,
            forall|r: int| 0 <= r < q ==> has_topic(b.flat@, lc_seq((#[trigger] words@[r])@), topic),
            forall|key: Seq<u8>, t: u32| #[trigger] has_topic(old(b).flat@, key, t) ==> has_topic(b.flat@, key, t),
        decreases n - q,
    {
        let ghost f0 = b.flat@;
        b.add_keyword(&words[q], topic);
        proof {
            assert forall|r: int| 0 <= r < q + 1 implies has_topic(b.flat@, lc_seq((#[trigger] words@[r])@), topic) by {
                if r < q {
                    assert(has_topic(f0, lc_seq(words@[r]@), topic));
                }
            }
            assert forall|key: Seq<u8>, t: u32| #[trigger] has_topic(old(b).flat@, key, t) implies has_topic(b.flat@, key, t) by {
                assert(has_topic(f0, key, t));
            }
        }
        q = q + 1;
    }
}

/// Stores every file read and takes in each topic: its title and URL as a topic,
/// its words for full-text search when asked for, its keyword and ALink controls.
fn take_in_files(
    loaded: &Vec<Loaded>,
    cp: u32,
    tables: &[CodepageTable],
    fts_option: bool,
    entries: &mut Vec<DirEntry>,
    section1: &mut Buf,
    t: &mut Tables,
)
    requires
        tables_ok(tables@),
        loaded@.len() < 0x1000_0000,
        forall|i: int| 0 <= i < loaded@.len() ==> (#[trigger] loaded@[i]).data@.len() < 0x1_0000_0000,
        tables_wf(*old(t)),
        old(t).topics.buf@.len() == 0,
        old(t).fts.words@.len() == 0,
        old(t).fts.file_count == 0,
        old(t).fts.total_words == 0,
        old(t).fts.total_word_len == 0,
    ensures
        tables_wf(*final(t)),
        grown(old(entries)@, old(section1)@, final(entries)@, final(section1)@),
        holds_all(final(entries)@, final(section1)@, loaded@, loaded@.len() as int),
        final(t).fts.total_words <= 0x4000_0000_0000_0000,
{
    let n = loaded.len();
    let mut k: usize = 0;
    let ghost e0 = entries@;
    let ghost b0 = section1@;
    proof {
        assert(grown(e0, b0, entries@, section1@)) by {
            assert(section1@.subrange(0, b0.len() as int) =~= b0);
        }
        assert(t.fts.topics_below(0));
    }
    while k < n
        invariant
            k <= n,
            n == loaded@.len(),
            n < 0x1000_0000,
            tables_ok(tables@),
            forall|i: int| 0 <= i < loaded@.len() ==> (#[trigger] loaded@[i]).data@.len() < 0x1_0000_0000,
            tables_wf(*t),
            t.topics.buf@.len() % 16 == 0,
            t.topics.buf@.len() <= 16 * k,
            t.fts.topics_below((t.topics.buf@.len() / 16) as u32),
            t.fts.file_count <= k,
            t.fts.total_words <= k * 0x1_0000_0000,
            t.fts.total_word_len <= k * 0x1_0000_0000,
            grown(e0, b0, entries@, section1@),
            holds_all(entries@, section1@, loaded@, k as int),
        decreases n - k,
    {
        let lf = &loaded[k];
        let name = archive_name_exec(&lf.rel);
        let ghost e1 = entries@;
        let ghost b1 = section1@;
        add_file(entries, section1, &name, &lf.data);
        proof {
            lemma_grown_trans(e0, b0, e1, b1, entries@, section1@);
        }
        if is_html_name(&lf.rel) {
            let title = extract_title_s(&lf.data, cp, tables);
            let ghost tb = t.topics.buf@.len();
            let topic_idx = t.topics.add(&mut t.strings, &mut t.urls, &title, &name, -1);
            if fts_option {
                t.fts.index_file(&lf.data, topic_idx);
                proof {
                    lemma_upto_below(t.fts, topic_idx);
                }
            } else {
                proof {
                    assert forall|a: int, d: int| 0 <= a < t.fts.words@.len() && 0 <= d < t.fts.words@[a].docs@.len()
                        implies (#[trigger] t.fts.words@[a].docs@[d]).0 < ((t.topics.buf@.len() / 16) as u32) by {
                        assert(t.fts.words@[a].docs@[d].0 < ((tb / 16) as u32));
                    }
                }
            }
            let lo = scan_link_objects(&lf.data);
            add_keywords(&mut t.klinks, &lo.keywords, topic_idx);
            add_keywords(&mut t.alinks, &lo.alinks, topic_idx);
        }
        proof {
            lemma_holds_all_grow(e1, b1, entries@, section1@, loaded@, k as int);
            assert(holds(entries@, section1@, archive_name(loaded@[k as int].rel@), loaded@[k as int].data@));
            assert forall|i: int| 0 <= i < k + 1 implies holds(entries@, section1@, archive_name((#[trigger] loaded@[i]).rel@), loaded@[i].data@) by {
            }
        }
        k = k + 1;
    }
}

/// What the later steps need to know of section 1.
pub struct Sec1Info {
    pub binary_toc: bool,
    pub have_klinks: bool,
    pub have_alinks: bool,
    pub idxhdr: Vec<u8>,
    pub default_window: Vec<u8>,
    pub fts: bool,
}

/// Adds the four files of a binary index under `dir` (`BTree`, `Data`, `Map`,
/// `Property`).
fn add_index_files(entries: &mut Vec<DirEntry>, section1: &mut Buf, f: &BinIndexFiles, keyword: bool)
    ensures
        grown(old(entries)@, old(section1)@, final(entries)@, final(section1)@),
        final(entries)@.len() == old(entries)@.len() + 4,
        holds(final(entries)@, final(section1)@, (if keyword { "/$WWKeywordLinks/BTree" } else { "/$WWAssociativeLinks/BTree" }).spec_bytes(), f.btree@),
        holds(final(entries)@, final(section1)@, (if keyword { "/$WWKeywordLinks/Data" } else { "/$WWAssociativeLinks/Data" }).spec_bytes(), f.data@),
        holds(final(entries)@, final(section1)@, (if keyword { "/$WWKeywordLinks/Map" } else { "/$WWAssociativeLinks/Map" }).spec_bytes(), f.map@),
        holds(final(entries)@, final(section1)@, (if keyword { "/$WWKeywordLinks/Property" } else { "/$WWAssociativeLinks/Property" }).spec_bytes(), f.property@),
{
    let ghost e0 = entries@;
    let ghost b0 = section1@;
    proof {
        assert(b0.subrange(0, b0.len() as int) =~= b0);
    }
    let n0 = if keyword { "/$WWKeywordLinks/BTree".as_bytes() } else { "/$WWAssociativeLinks/BTree".as_bytes() };
    let n1 = if keyword { "/$WWKeywordLinks/Data".as_bytes() } else { "/$WWAssociativeLinks/Data".as_bytes() };
    let n2 = if keyword { "/$WWKeywordLinks/Map".as_bytes() } else { "/$WWAssociativeLinks/Map".as_bytes() };
    let n3 = if keyword { "/$WWKeywordLinks/Property".as_bytes() } else { "/$WWAssociativeLinks/Property".as_bytes() };
    proof {
        assert(n0@ =~= (if keyword { "/$WWKeywordLinks/BTree" } else { "/$WWAssociativeLinks/BTree" }).spec_bytes());
        assert(n1@ =~= (if keyword { "/$WWKeywordLinks/Data" } else { "/$WWAssociativeLinks/Data" }).spec_bytes());
        assert(n2@ =~= (if keyword { "/$WWKeywordLinks/Map" } else { "/$WWAssociativeLinks/Map" }).spec_bytes());
        assert(n3@ =~= (if keyword { "/$WWKeywordLinks/Property" } else { "/$WWAssociativeLinks/Property" }).spec_bytes());
    }
    add_file_from(entries, section1, n0, &f.btree, Ghost(e0), Ghost(b0));
    let ghost e1 = entries@;
    let ghost b1 = section1@;
    add_file_from(entries, section1, n1, &f.data, Ghost(e0), Ghost(b0));
    let ghost e2 = entries@;
    let ghost b2 = section1@;
    add_file_from(entries, section1, n2, &f.map, Ghost(e0), Ghost(b0));
    let ghost e3 = entries@;
    let ghost b3 = section1@;
    add_file_from(entries, section1, n3, &f.property, Ghost(e0), Ghost(b0));
    proof {
        lemma_grown_trans(e1, b1, e2, b2, e3, b3);
        lemma_grown_trans(e1, b1, e3, b3, entries@, section1@);
        lemma_grown_trans(e2, b2, e3, b3, entries@, section1@);
        lemma_holds_grow(e1, b1, entries@, section1@, n0@, f.btree@);
        lemma_holds_grow(e2, b2, entries@, section1@, n1@, f.data@);
        lemma_holds_grow(e3, b3, entries@, section1@, n2@, f.map@);
    }
}

/// The four files of an index that has no entries: all empty.
fn empty_index() -> (f: BinIndexFiles)
    ensures
        f.btree@.len() == 0,
        f.data@.len() == 0,
        f.map@.len() == 0,
        f.property@.len() == 0,
{
    BinIndexFiles { btree: Vec::new(), data: Vec::new(), map: Vec::new(), property: Vec::new() }
}

/// Adds `data` under `name` unless it is empty.
fn add_nonempty(entries: &mut Vec<DirEntry>, section1: &mut Buf, name: &[u8], data: &[u8], Ghost(e0): Ghost<Seq<DirEntry>>, Ghost(b0): Ghost<Seq<u8>>)
    requires
        grown(e0, b0, old(entries)@, old(section1)@),
    ensures
        grown(e0, b0, final(entries)@, final(section1)@),
        added_if_nonempty(old(entries)@, old(section1)@, final(entries)@, final(section1)@, name@, data@),
{
    if data.len() > 0 {
        add_file_from(entries, section1, name, data, Ghost(e0), Ghost(b0));
    }
    proof {
        reveal(added_if_nonempty);
    }
}

/// `data`, unless empty, was added under `name`: one more entry, and what was there
/// stays; empty `data` changes nothing.
#[verifier::opaque]
pub open spec fn added_if_nonempty(e0: Seq<DirEntry>, b0: Seq<u8>, e1: Seq<DirEntry>, b1: Seq<u8>, name: Seq<u8>, data: Seq<u8>) -> bool {
    &&& data.len() > 0 ==> {
        &&& e1.len() == e0.len() + 1
        &&& grown(e0, b0, e1, b1)
        &&& holds(e1, b1, name, data)
    }
    &&& data.len() == 0 ==> e1 == e0 && b1 == b0
}

/// Builds and stores the internal tables of section 1 after the files: #TOPICS,
/// #URLSTR, #URLTBL, #TOCIDX, the keyword and ALink indexes, #WINDOWS, #SUBSETS,
/// #IDXHDR, #STRINGS and $FIftiMain.
#[verifier::rlimit(100)]
#[verifier::spinoff_prover]
fn finish_section1(
    p: &Project,
    s: &Setup,
    toc: &Option<SiteMap>,
    index: &Option<SiteMap>,
    tables: &[CodepageTable],
    fts_option: bool,
    entries: &mut Vec<DirEntry>,
    section1: &mut Buf,
    t: &mut Tables,
) -> (r: Result<Sec1Info, CompileError>)
    requires
        tables_ok(tables@),
        tables_wf(*old(t)),
        p.merge_files@.len() <= 1004,
    ensures
        grown(old(entries)@, old(section1)@, final(entries)@, final(section1)@),
        r matches Err(e) ==> e is TooLarge,
        final(t).fts == old(t).fts,
        fts_option && old(t).fts.file_count > 0 && old(t).fts.words@.len() > 0 && old(t).fts.total_words > 0x100_0000
            ==> r is Err,
        r matches Ok(info) ==> {
            &&& info.binary_toc == (is_yes(lookup(p.options@, "binary toc".spec_bytes())) && toc is Some)
            &&& info.fts ==> fts_option && old(t).fts.file_count > 0 && old(t).fts.words@.len() > 0
            &&& final(t).strings.buf@.len() > 0
            &&& holds(final(entries)@, final(section1)@, "/#STRINGS".spec_bytes(), final(t).strings.buf@)
        },
{
    let ghost e0 = entries@;
    let ghost b0 = section1@;
    proof {
        assert(b0.subrange(0, b0.len() as int) =~= b0);
    }
    let cp = s.cp;
    let empty: Vec<u8> = Vec::new();
    if s.hhc.len() > 0 {
        t.topics.add(&mut t.strings, &mut t.urls, &empty, &s.hhc, 2);
    }
    if s.hhk.len() > 0 {
        t.topics.add(&mut t.strings, &mut t.urls, &empty, &s.hhk, 2);
    }
    let binary_toc = p.opt_yes("binary toc".as_bytes()) && toc.is_some();
    let binary_index = p.opt_yes("binary index".as_bytes()) && index.is_some();
    let toc_idx: Vec<u8> = if binary_toc {
        match toc {
            Some(sm) => build_tocidx(sm, &mut t.strings, &mut t.urls, &mut t.topics, cp, tables),
            None => Vec::new(),
        }
    } else {
        Vec::new()
    };
    if binary_index {
        match index {
            Some(sm) => t.klinks.add_sitemap(sm, &mut t.strings, &mut t.urls, &mut t.topics, tables),
            None => {},
        }
    }
    let have_klinks = !t.klinks.empty();
    let have_alinks = !t.alinks.empty();
    if t.klinks.entries.len() >= 0x4000_0000 || t.klinks.flat.len() >= 0x4000_0000
        || t.alinks.entries.len() >= 0x4000_0000 || t.alinks.flat.len() >= 0x4000_0000 {
        return Err(CompileError::TooLarge);
    }
    let k_files = if have_klinks { t.klinks.assemble(s.lcid, tables) } else { empty_index() };
    let a_files = if have_alinks { t.alinks.assemble(s.lcid, tables) } else { empty_index() };
    let props: Vec<(Vec<u8>, Vec<u8>)> = match toc {
        Some(sm) => copy_pairs(&sm.properties),
        None => Vec::new(),
    };
    let idxhdr: Vec<u8> = if binary_index || p.merge_files.len() > 0 {
        let count = t.topics.count();
        build_idxhdr(count, &props, &mut t.strings, &p.merge_files, cp, tables)
    } else {
        Vec::new()
    };
    let topics_copy = copy_vec(&t.topics.buf.v);
    add_nonempty(entries, section1, "/#TOPICS".as_bytes(), &topics_copy, Ghost(e0), Ghost(b0));
    let urlstr_copy = copy_vec(&t.urls.urlstr.v);
    add_nonempty(entries, section1, "/#URLSTR".as_bytes(), &urlstr_copy, Ghost(e0), Ghost(b0));
    let urltbl_copy = copy_vec(&t.urls.urltbl.v);
    add_nonempty(entries, section1, "/#URLTBL".as_bytes(), &urltbl_copy, Ghost(e0), Ghost(b0));
    add_nonempty(entries, section1, "/#TOCIDX".as_bytes(), &toc_idx, Ghost(e0), Ghost(b0));
    if have_klinks {
        let ghost e1 = entries@;
        let ghost b1 = section1@;
        add_index_files(entries, section1, &k_files, true);
        proof {
            lemma_grown_trans(e0, b0, e1, b1, entries@, section1@);
        }
    }
    if have_alinks {
        let ghost e1 = entries@;
        let ghost b1 = section1@;
        add_index_files(entries, section1, &a_files, false);
        proof {
            lemma_grown_trans(e0, b0, e1, b1, entries@, section1@);
        }
    } else if have_klinks {
        let dummy = dummy_alink_property();
        add_file_from(entries, section1, "/$WWAssociativeLinks/Property".as_bytes(), &dummy, Ghost(e0), Ghost(b0));
    }
    let nw = p.window_lines.len();
    let mut windows: Vec<Window> = Vec::new();
    let mut k: usize = 0;
    while k < nw
        invariant
            k <= nw,
            nw == p.window_lines@.len(),
        decreases nw - k,
    {
        windows.push(parse_window_line(&p.window_lines[k]));
        k = k + 1;
    }
    let mut default_window = p.opt("default window".as_bytes());
    if default_window.len() == 0 && windows.len() > 0 {
        default_window = copy_vec(&windows[0].typ);
    }
    let windows_file = build_windows(&windows, &mut t.strings, cp, tables);
    add_nonempty(entries, section1, "/#WINDOWS".as_bytes(), &windows_file, Ghost(e0), Ghost(b0));
    let subsets_file = build_subsets(&p.subsets);
    add_nonempty(entries, section1, "/#SUBSETS".as_bytes(), &subsets_file, Ghost(e0), Ghost(b0));
    add_nonempty(entries, section1, "/#IDXHDR".as_bytes(), &idxhdr, Ghost(e0), Ghost(b0));
    if t.strings.buf.len() == 0 {
        t.strings.buf.u8(0);
    }
    let strings_copy = copy_vec(&t.strings.buf.v);
    add_file_from(entries, section1, "/#STRINGS".as_bytes(), &strings_copy, Ghost(e0), Ghost(b0));
    let ghost es = entries@;
    let ghost bs = section1@;
    let mut fts_written = false;
    if fts_option && t.fts.has_data() {
        if t.fts.total_words > 0x100_0000 {
            return Err(CompileError::TooLarge);
        }
        let fifti = t.fts.build(s.lcid, cp);
        if fifti.len() > 0 {
            add_file_from(entries, section1, "/$FIftiMain".as_bytes(), &fifti, Ghost(e0), Ghost(b0));
            fts_written = true;
            proof {
                lemma_holds_grow(es, bs, entries@, section1@, "/#STRINGS".spec_bytes(), t.strings.buf@);
            }
        }
    }
    Ok(Sec1Info { binary_toc, have_klinks, have_alinks, idxhdr, default_window, fts: fts_written })
}

fn copy_pairs(ps: &Vec<(Vec<u8>, Vec<u8>)>) -> (r: Vec<(Vec<u8>, Vec<u8>)>)
    ensures
        r@.len() == ps@.len(),
        forall|i: int| 0 <= i < r@.len() ==> (#[trigger] r@[i]).0@ == ps@[i].0@ && r@[i].1@ == ps@[i].1@,
{
    let n = ps.len();
    let mut r: Vec<(Vec<u8>, Vec<u8>)> = Vec::new();
    let mut k: usize = 0;
    while k < n
        invariant
            k <= n,
            n == ps@.len(),
            r@.len() == k,
            forall|i: int| 0 <= i < k ==> (#[trigger] r@[i]).0@ == ps@[i].0@ && r@[i].1@ == ps@[i].1@,
        decreases n - k,
    {
        r.push((copy_vec(&ps[k].0), copy_vec(&ps[k].1)));
        k = k + 1;
    }
    r
}

/// The #SYSTEM file of the project.
fn system_file(generator: &[u8], p: &Project, s: &Setup, info: &Sec1Info) -> (r: Vec<u8>)
    ensures
        r@ == system_spec(
            generator@,
            p.options@,
            p.info_types@.len(),
            s.lcid,
            s.hhc@,
            s.hhk@,
            info.default_window@,
            info.binary_toc,
            info.have_klinks,
            info.have_alinks,
            info.idxhdr@,
            info.fts,
        ),
{
    build_system(
        generator,
        p,
        s.lcid,
        &s.hhc,
        &s.hhk,
        &info.default_window,
        info.binary_toc,
        info.have_klinks,
        info.have_alinks,
        &info.idxhdr,
        info.fts,
    )
}

/// Appends section 0's entries and builds its bytes: #ITBITS, #SYSTEM, the
/// ::DataSpace name list, LZX control data, span, transform list and reset table,
/// then the entry of the compressed content that follows section 0.
/// Entry `j` of `es` holds `data` at its place in section 0, whose bytes are `buf`.
pub open spec fn sec0_at(es: Seq<DirEntry>, buf: Seq<u8>, j: int, name: Seq<u8>, data: Seq<u8>) -> bool {
    &&& 0 <= j < es.len()
    &&& es[j].name@ == name
    &&& es[j].section == 0
    &&& es[j].size == data.len()
    &&& es[j].offset + data.len() <= buf.len()
    &&& buf.subrange(es[j].offset as int, es[j].offset + data.len()) == data
}

/// The #SYSTEM file of the project, as `system_file` builds it.
pub open spec fn system_of(generator: Seq<u8>, p: Project, s: Setup, info: Sec1Info) -> Seq<u8> {
    system_spec(
        generator,
        p.options@,
        p.info_types@.len(),
        s.lcid,
        s.hhc@,
        s.hhk@,
        info.default_window@,
        info.binary_toc,
        info.have_klinks,
        info.have_alinks,
        info.idxhdr@,
        info.fts,
    )
}

/// Appends section 0's entries and builds its bytes: #ITBITS, #SYSTEM, the
/// ::DataSpace name list, LZX control data, span, transform list and reset table,
/// then the entry of the compressed content that follows section 0.
#[verifier::rlimit(80)]
fn append_section0(
    entries: &mut Vec<DirEntry>,
    generator: &[u8],
    p: &Project,
    s: &Setup,
    info: &Sec1Info,
    uncompressed: u64,
    lzx: &crate::lzx::LzxResult,
) -> (section0: Buf)
    ensures
        final(entries)@.len() == old(entries)@.len() + 8,
        forall|j: int| 0 <= j < old(entries)@.len() ==> #[trigger] final(entries)@[j] == old(entries)@[j],
        section0@ == system_of(generator@, *p, *s, *info) + namelist_spec() + control_data_spec() + u64_le(uncompressed)
            + transform_list_spec() + reset_table_spec(uncompressed, lzx.data@.len() as u64, lzx.frame_starts@),
        ({
            let n = old(entries)@.len() as int;
            let es = final(entries)@;
            &&& es[n].name@ == "/#ITBITS".spec_bytes() && es[n].section == 0 && es[n].offset == 0 && es[n].size == 0
            &&& sec0_at(es, section0@, n + 1, "/#SYSTEM".spec_bytes(), system_of(generator@, *p, *s, *info))
            &&& sec0_at(es, section0@, n + 2, "::DataSpace/NameList".spec_bytes(), namelist_spec())
            &&& sec0_at(es, section0@, n + 3, "::DataSpace/Storage/MSCompressed/ControlData".spec_bytes(), control_data_spec())
            &&& sec0_at(es, section0@, n + 4, "::DataSpace/Storage/MSCompressed/SpanInfo".spec_bytes(), u64_le(uncompressed))
            &&& sec0_at(es, section0@, n + 5, "::DataSpace/Storage/MSCompressed/Transform/List".spec_bytes(), transform_list_spec())
            &&& sec0_at(
                es,
                section0@,
                n + 6,
                "::DataSpace/Storage/MSCompressed/Transform/{7FC28940-9D31-11D0-9B27-00A0C91E9C7C}/InstanceData/ResetTable".spec_bytes(),
                reset_table_spec(uncompressed, lzx.data@.len() as u64, lzx.frame_starts@),
            )
            &&& es[n + 7].name@ == "::DataSpace/Storage/MSCompressed/Content".spec_bytes()
            &&& es[n + 7].section == 0
            &&& es[n + 7].offset == section0@.len()
            &&& es[n + 7].size == lzx.data@.len()
        }),
{
    let ghost sec1_entries = entries@;
    let ghost n = entries@.len() as int;
    let mut section0 = Buf::new();
    entries.push(DirEntry { name: vstd::slice::slice_to_vec("/#ITBITS".as_bytes()), section: 0, offset: 0, size: 0 });
    let ghost e0 = entries@;
    let system = system_file(generator, p, s, info);
    add_sec(entries, &mut section0, 0, "/#SYSTEM".as_bytes(), &system);
    let ghost e1 = entries@;
    let ghost b1 = section0@;
    let namelist = build_namelist();
    add_sec(entries, &mut section0, 0, "::DataSpace/NameList".as_bytes(), &namelist);
    let ghost e2 = entries@;
    let ghost b2 = section0@;
    let control = build_control_data();
    add_sec(entries, &mut section0, 0, "::DataSpace/Storage/MSCompressed/ControlData".as_bytes(), &control);
    let ghost e3 = entries@;
    let ghost b3 = section0@;
    let mut span = Buf::new();
    span.u64(uncompressed);
    add_sec(entries, &mut section0, 0, "::DataSpace/Storage/MSCompressed/SpanInfo".as_bytes(), &span.v);
    let ghost e4 = entries@;
    let ghost b4 = section0@;
    let translist = build_transform_list();
    add_sec(entries, &mut section0, 0, "::DataSpace/Storage/MSCompressed/Transform/List".as_bytes(), &translist);
    let ghost e5 = entries@;
    let ghost b5 = section0@;
    let reset = build_reset_table(uncompressed, lzx.data.len() as u64, &lzx.frame_starts);
    add_sec(
        entries,
        &mut section0,
        0,
        "::DataSpace/Storage/MSCompressed/Transform/{7FC28940-9D31-11D0-9B27-00A0C91E9C7C}/InstanceData/ResetTable".as_bytes(),
        &reset,
    );
    let ghost e6 = entries@;
    let ghost b6 = section0@;
    entries.push(DirEntry {
        name: vstd::slice::slice_to_vec("::DataSpace/Storage/MSCompressed/Content".as_bytes()),
        section: 0,
        offset: section0.len() as u64,
        size: lzx.data.len() as u64,
    });
    proof {
        let es = entries@;
        let b = section0@;
        assert(forall|j: int| 0 <= j < sec1_entries.len() ==> #[trigger] es[j] == sec1_entries[j]) by {
            assert(forall|j: int| 0 <= j < sec1_entries.len() ==> #[trigger] e0[j] == sec1_entries[j]);
            assert(forall|j: int| 0 <= j < sec1_entries.len() ==> #[trigger] e1[j] == sec1_entries[j]);
            assert(forall|j: int| 0 <= j < sec1_entries.len() ==> #[trigger] e2[j] == sec1_entries[j]);
            assert(forall|j: int| 0 <= j < sec1_entries.len() ==> #[trigger] e3[j] == sec1_entries[j]);
            assert(forall|j: int| 0 <= j < sec1_entries.len() ==> #[trigger] e4[j] == sec1_entries[j]);
            assert(forall|j: int| 0 <= j < sec1_entries.len() ==> #[trigger] e5[j] == sec1_entries[j]);
            assert(forall|j: int| 0 <= j < sec1_entries.len() ==> #[trigger] e6[j] == sec1_entries[j]);
        }
        assert(es[n] == e0[n]);
        assert(es[n] == e1[n] && es[n] == e2[n] && es[n] == e3[n] && es[n] == e4[n] && es[n] == e5[n] && es[n] == e6[n]);
        assert(es[n + 1] == e1[n + 1] && es[n + 1] == e2[n + 1] && es[n + 1] == e3[n + 1] && es[n + 1] == e4[n + 1]
            && es[n + 1] == e5[n + 1] && es[n + 1] == e6[n + 1]);
        assert(es[n + 2] == e2[n + 2] && es[n + 2] == e3[n + 2] && es[n + 2] == e4[n + 2] && es[n + 2] == e5[n + 2]
            && es[n + 2] == e6[n + 2]);
        assert(es[n + 3] == e3[n + 3] && es[n + 3] == e4[n + 3] && es[n + 3] == e5[n + 3] && es[n + 3] == e6[n + 3]);
        assert(es[n + 4] == e4[n + 4] && es[n + 4] == e5[n + 4] && es[n + 4] == e6[n + 4]);
        assert(es[n + 5] == e5[n + 5] && es[n + 5] == e6[n + 5]);
        assert(es[n + 6] == e6[n + 6]);
        assert(b.subrange(0, system@.len() as int) =~= system@);
        assert(b.subrange(b1.len() as int, (b1.len() + namelist@.len()) as int) =~= namelist@);
        assert(b.subrange(b2.len() as int, (b2.len() + control@.len()) as int) =~= control@);
        assert(b.subrange(b3.len() as int, (b3.len() + span@.len()) as int) =~= span@);
        assert(b.subrange(b4.len() as int, (b4.len() + translist@.len()) as int) =~= translist@);
        assert(b.subrange(b5.len() as int, (b5.len() + reset@.len()) as int) =~= reset@);
    }
    section0
}

/// Whether every name fits a directory entry.
fn names_fit(es: &Vec<DirEntry>) -> (r: bool)
    ensures
        r == names_ok(es@),
{
    let n = es.len();
    let mut k: usize = 0;
    while k < n
        invariant
            k <= n,
            n == es@.len(),
            forall|i: int| 0 <= i < k ==> #[trigger] es@[i].name@.len() <= 2000,
        decreases n - k,
    {
        if es[k].name.len() > 2000 {
            return false;
        }
        k = k + 1;
    }
    true
}

/// The facts a reader relies on in a compiled image: the headers, the directory (the
/// entries in name order) and the two sections at the end.
pub open spec fn image_ok(image: Seq<u8>, lang_id: u32, entries: Seq<DirEntry>, section0: Seq<u8>, compressed: Seq<u8>) -> bool {
    &&& header_ok(image)
    &&& itsp_at(image) == 0x78
    &&& le32_at(image, 0x88) == CHUNK
    &&& ({
        let total = le32_at(image, 0xA4);
        let co = 0xCC + total * CHUNK;
        &&& le64_at(image, 0x58) == co
        &&& image.len() == co + section0.len() + compressed.len()
        &&& image.subrange(co, co + section0.len()) == section0
        &&& image.subrange(co + section0.len(), image.len() as int) == compressed
        &&& exists|sorted: Seq<DirEntry>| sorted.to_multiset() == entries.to_multiset() && sorted_names(sorted)
            && #[trigger] dir_listing(sorted) == listing_of(image, 0xCC, CHUNK as int, total)
        &&& forall|k: int| 0 <= k < total ==> #[trigger] chunk_sane(image, k)
    })
}

/// `comp` is the LZX compression of `sec1`: empty for an empty section, else one
/// block per reset interval of the zero-padded section, each coding its interval.
pub open spec fn compressed_from(comp: Seq<u8>, sec1: Seq<u8>) -> bool {
    &&& sec1.len() == 0 ==> comp.len() == 0
    &&& sec1.len() > 0 ==> exists|chunks: Seq<Seq<u8>>| #[trigger] intervals_coded(comp, sec1, padded_len(sec1.len() as int), chunks)
}

/// Section 0 holds #SYSTEM (`sys`), the name list, the LZX control data, the span
/// (the uncompressed size), the transform list and the reset table, one after another.
pub open spec fn section0_shape(s0: Seq<u8>, sys: Seq<u8>, uncompressed: u64, compressed: u64, frame_starts: Seq<u64>) -> bool {
    s0 == sys + namelist_spec() + control_data_spec() + u64_le(uncompressed) + transform_list_spec() + reset_table_spec(
        uncompressed,
        compressed,
        frame_starts,
    )
}

/// `c` is the archive of `es`: every file read is held in section 1 under its archive
/// name, and the image lists `es` and ends with section 0 and the compressed section.
pub open spec fn compiled_from(c: Compiled, es: Seq<DirEntry>, loaded: Seq<Loaded>, lcid: u32) -> bool {
    &&& holds_all(es, c.section1@, loaded, loaded.len() as int)
    &&& image_ok(c.image@, lcid, es, c.section0@, c.compressed@)
}

/// Compiles a project from its settings and the files its walk read: section 1 holds
/// every file under `/` and its path, and the internal tables; it is LZX-compressed;
/// section 0 holds #SYSTEM and the storage descriptions. `generator` names the
/// compiler in #SYSTEM; `char_table` is the word breaker's character table.
pub fn compile_project(
    p: &Project,
    s: &Setup,
    loaded: &Vec<Loaded>,
    toc: Option<SiteMap>,
    index: Option<SiteMap>,
    generator: &[u8],
    tables: &[CodepageTable],
    char_table: &[u8],
) -> (r: Result<Compiled, CompileError>)
    requires
        tables_ok(tables@),
        p.merge_files@.len() <= 1004,
    ensures
        match r {
            Ok(c) => {
                &&& c.stats.file_count == loaded@.len()
                &&& c.stats.uncompressed == c.section1@.len()
                &&& c.stats.compressed == c.compressed@.len()
                &&& c.stats.output == c.image@.len()
                &&& exists|es: Seq<DirEntry>| #[trigger] compiled_from(c, es, loaded@, s.lcid)
                &&& compressed_from(c.compressed@, c.section1@)
                &&& exists|sys: Seq<u8>, fs: Seq<u64>| #[trigger] section0_shape(c.section0@, sys, c.stats.uncompressed, c.stats.compressed, fs)
            },
            Err(e) => e is TooLarge,
        },
        loaded@.len() >= 0x1000_0000 ==> r is Err,
        (exists|i: int| 0 <= i < loaded@.len() && (#[trigger] loaded@[i]).data@.len() >= 0x1_0000_0000) ==> r is Err,
{
    let n = loaded.len();
    if n >= 0x1000_0000 {
        return Err(CompileError::TooLarge);
    }
    let mut k: usize = 0;
    while k < n
        invariant
            k <= n,
            n == loaded@.len(),
            forall|i: int| 0 <= i < k ==> (#[trigger] loaded@[i]).data@.len() < 0x1_0000_0000,
        decreases n - k,
    {
        if loaded[k].data.len() as u64 >= 0x1_0000_0000 {
            return Err(CompileError::TooLarge);
        }
        k = k + 1;
    }
    let cp = s.cp;
    let lcid = s.lcid;
    let fts_option = p.opt_yes("full-text search".as_bytes()) || p.opt_yes("full text search".as_bytes());
    let mut t = Tables {
        strings: Strings::new(),
        urls: Urls::new(),
        topics: Topics::new(),
        fts: FtsIndexer::new(),
        klinks: BTreeBuilder::new(cp),
        alinks: BTreeBuilder::new(cp),
    };
    let mut entries: Vec<DirEntry> = Vec::new();
    let mut section1 = Buf::new();
    let ivb = build_ivb(p, &mut t.strings);
    if ivb.len() > 0 {
        add_file(&mut entries, &mut section1, "/#IVB".as_bytes(), &ivb);
    }
    if fts_option {
        let objinst = build_objinst(cp, lcid, char_table);
        add_file(&mut entries, &mut section1, "/$OBJINST".as_bytes(), &objinst);
    }
    take_in_files(loaded, cp, tables, fts_option, &mut entries, &mut section1, &mut t);
    let ghost e_files = entries@;
    let ghost b_files = section1@;
    let info = match finish_section1(p, s, &toc, &index, tables, fts_option, &mut entries, &mut section1, &mut t) {
        Ok(i) => i,
        Err(e) => {
            return Err(e);
        },
    };
    proof {
        lemma_holds_all_grow(e_files, b_files, entries@, section1@, loaded@, n as int);
    }
    let uncompressed = section1.len() as u64;
    if section1.len() > 0x7FFF_0000 - FRAME {
        return Err(CompileError::TooLarge);
    }
    let lzx = lzx_compress(&section1.v);
    let ghost sec1_entries = entries@;
    let section0 = append_section0(&mut entries, generator, p, s, &info, uncompressed, &lzx);
    proof {
        assert(section0_shape(section0@, system_of(generator@, *p, *s, info), uncompressed, lzx.data@.len() as u64, lzx.frame_starts@));
        assert(compressed_from(lzx.data@, section1@));
    }
    proof {
        assert forall|i: int| 0 <= i < n implies holds(entries@, section1@, archive_name((#[trigger] loaded@[i]).rel@), loaded@[i].data@) by {
            let j = choose|j: int| #[trigger] file_at(sec1_entries, section1@, j, archive_name(loaded@[i].rel@), loaded@[i].data@);
            assert(entries@[j] == sec1_entries[j]);
            assert(file_at(entries@, section1@, j, archive_name(loaded@[i].rel@), loaded@[i].data@));
        }
    }
    if entries.len() < 1 || entries.len() > 0x2000_0000 || !names_fit(&entries) {
        return Err(CompileError::TooLarge);
    }
    if section0.len() as u64 > 0x8000_0000_0000 || lzx.data.len() as u64 > 0x8000_0000_0000 {
        return Err(CompileError::TooLarge);
    }
    let ghost es = entries@;
    let image = build_container(lcid, entries, &section0.v, &lzx.data);
    let stats = Stats {
        file_count: n,
        uncompressed,
        compressed: lzx.data.len() as u64,
        output: image.len() as u64,
    };
    let c = Compiled { section1: section1.v, section0: section0.v, compressed: lzx.data, image, stats };
    proof {
        assert(compiled_from(c, es, loaded@, s.lcid));
    }
    Ok(c)
}

} // verus!
