use rustchm::builder::{setup, Gatherer, Loaded};
use rustchm::chmreader::{extract_names, ChmError, ChmFile};
use rustchm::chmwriter::{build_container, DirEntry};
use rustchm::compile::compile_project;
use rustchm::hhp::HhpParser;
use rustchm::lzx::{huff_lengths, lzx_compress};
use rustchm::lzxdecode::{lzx_decompress, LzxError};
use rustchm::sitemap::SiteMap;

fn pattern(n: usize) -> Vec<u8> {
    let mut v = Vec::with_capacity(n);
    let mut x: u32 = 12345;
    for i in 0..n {
        x = x.wrapping_mul(1103515245).wrapping_add(12345);
        let b = if i % 7 < 4 { b"the quick brown fox "[i % 20] } else { (x >> 16) as u8 };
        v.push(b);
    }
    v
}

#[test]
fn lzx_round_trip_small() {
    let input = b"hello hello hello hello, world".to_vec();
    let c = lzx_compress(&input);
    assert_eq!(c.padded_size, 0x8000);
    assert_eq!(c.frame_starts, vec![0]);
    let d = lzx_decompress(&c.data, input.len() as u64, 0x10000, 16).unwrap();
    assert_eq!(d, input);
}

#[test]
fn lzx_round_trip_several_intervals() {
    let input = pattern(0x2_3456);
    let c = lzx_compress(&input);
    assert_eq!(c.padded_size, 0x2_8000);
    assert_eq!(c.frame_starts.len(), 5);
    assert!(c.data.len() < input.len());
    let d = lzx_decompress(&c.data, input.len() as u64, 0x10000, 16).unwrap();
    assert_eq!(d, input);
}

#[test]
fn lzx_empty_input() {
    let c = lzx_compress(&[]);
    assert!(c.data.is_empty());
    assert!(c.frame_starts.is_empty());
    assert_eq!(c.padded_size, 0);
}

#[test]
fn lzx_rejects_window() {
    assert_eq!(lzx_decompress(&[0, 0], 4, 0x10000, 14), Err(LzxError::UnsupportedWindow));
    assert_eq!(lzx_decompress(&[0, 0], 4, 0x10000, 22), Err(LzxError::UnsupportedWindow));
}

#[test]
fn reader_rejects_garbage() {
    assert!(matches!(ChmFile::from_bytes(vec![0u8; 10]), Err(ChmError::NotItsf)));
    assert!(matches!(ChmFile::from_bytes(vec![0u8; 0x200]), Err(ChmError::NotItsf)));
    let mut bad = vec![0u8; 0x200];
    bad[0..4].copy_from_slice(b"ITSF");
    assert!(matches!(ChmFile::from_bytes(bad), Err(ChmError::BadItsp)));
}

#[test]
fn container_lists_and_reads_section0() {
    let entries = vec![
        DirEntry { name: b"/b.txt".to_vec(), section: 0, offset: 3, size: 2 },
        DirEntry { name: b"/a.txt".to_vec(), section: 0, offset: 0, size: 3 },
    ];
    let image = build_container(0x409, entries, b"abcde", &[]);
    let mut chm = match ChmFile::from_bytes(image) {
        Ok(c) => c,
        Err(e) => panic!("open failed: {e:?}"),
    };
    let names: Vec<Vec<u8>> = chm.entries().iter().map(|e| e.name.clone()).collect();
    assert_eq!(names, vec![b"/a.txt".to_vec(), b"/b.txt".to_vec()]);
    assert_eq!(chm.read("/a.txt").unwrap(), b"abc".to_vec());
    assert_eq!(chm.read("/b.txt").unwrap(), b"de".to_vec());
    assert_eq!(chm.read("/c.txt"), Err(ChmError::NoSuchEntry));
    assert_eq!(chm.read("::DataSpace/Storage/MSCompressed/Content"), Err(ChmError::NoSuchEntry));
}

#[test]
fn container_without_compressed_section() {
    let entries = vec![DirEntry { name: b"/x/file.bin".to_vec(), section: 1, offset: 0, size: 4 }];
    let image = build_container(0x409, entries, &[], &[]);
    let mut chm = match ChmFile::from_bytes(image) {
        Ok(c) => c,
        Err(e) => panic!("open failed: {e:?}"),
    };
    assert_eq!(chm.read("/x/file.bin"), Err(ChmError::MissingContent));
}

const TOC: &[u8] = b"<HTML><BODY><UL>\
<LI><OBJECT type=\"text/sitemap\"><param name=\"Name\" value=\"Home\"><param name=\"Local\" value=\"index.htm\"></OBJECT>\
<LI><OBJECT type=\"text/sitemap\"><param name=\"Name\" value=\"Extra\"><param name=\"Local\" value=\"extra/one.htm\"></OBJECT>\
</UL></BODY></HTML>";

fn source(rel: &[u8]) -> Option<Vec<u8>> {
    match rel {
        b"index.htm" => Some(
            b"<html><head><title>Home page</title></head><body>Welcome to the demo help. \
<a href=\"page2.htm\">next</a> <a href=\"missing.htm\">gone</a></body></html>"
                .to_vec(),
        ),
        b"page2.htm" => Some(
            b"<html><head><title>Second</title></head><body>The second page talks about compression \
and indexes.<object type=\"application/x-oleobject\"><param name=\"Keyword\" value=\"compression\"></object>\
<img src=\"img/pic.gif\"></body></html>"
                .to_vec(),
        ),
        b"img/pic.gif" => Some(vec![0x47, 0x49, 0x46, 0x38, 0x39, 0x61, 1, 2, 3]),
        b"toc.hhc" => Some(TOC.to_vec()),
        b"extra/one.htm" => Some(pattern(0x1_2000)),
        _ => None,
    }
}

fn gather(files: &Vec<Vec<u8>>, hhc: &Vec<u8>, hhk: &Vec<u8>) -> (Vec<Loaded>, Option<SiteMap>, Option<SiteMap>, Vec<Vec<u8>>) {
    let mut g = Gatherer::new(files, hhc, hhk);
    let mut skipped = Vec::new();
    while let Some((rel, explicit)) = g.next_request() {
        match source(&rel) {
            Some(data) => g.accept(rel, data),
            None => {
                assert!(!Gatherer::missing_is_fatal(explicit));
                skipped.push(rel);
            }
        }
    }
    let (loaded, toc, index) = g.finish();
    (loaded, toc, index, skipped)
}

#[test]
fn compiled_project_reads_back() {
    let mut h = HhpParser::new(Vec::new());
    for l in [
        "[OPTIONS]",
        "Contents file=toc.hhc",
        "Default topic=index.htm",
        "Title=Demo",
        "Full-text search=Yes",
        "Binary TOC=Yes",
        "[FILES]",
        "index.htm",
    ] {
        h.feed_line(l.as_bytes());
    }
    let p = h.project;
    let s = match setup(&p) {
        Ok(s) => s,
        Err(_) => panic!("setup failed"),
    };
    let (loaded, toc, index, skipped) = gather(&s.files, &s.hhc, &s.hhk);
    let rels: Vec<Vec<u8>> = loaded.iter().map(|l| l.rel.clone()).collect();
    assert_eq!(
        rels,
        vec![
            b"index.htm".to_vec(),
            b"toc.hhc".to_vec(),
            b"page2.htm".to_vec(),
            b"extra/one.htm".to_vec(),
            b"img/pic.gif".to_vec(),
        ]
    );
    assert_eq!(skipped, vec![b"missing.htm".to_vec()]);
    assert!(toc.is_some());
    assert!(index.is_none());

    let c = match compile_project(&p, &s, &loaded, toc, index, b"rustchm test", &[], &[]) {
        Ok(c) => c,
        Err(_) => panic!("compile failed"),
    };
    assert_eq!(c.stats.file_count, 5);
    assert_eq!(c.stats.uncompressed, c.section1.len() as u64);
    assert_eq!(c.stats.compressed, c.compressed.len() as u64);
    assert_eq!(c.stats.output, c.image.len() as u64);
    assert!(c.compressed.len() < c.section1.len());

    let mut chm = match ChmFile::from_bytes(c.image.clone()) {
        Ok(x) => x,
        Err(e) => panic!("open failed: {e:?}"),
    };
    for l in &loaded {
        let name = format!("/{}", String::from_utf8(l.rel.clone()).unwrap());
        assert_eq!(chm.read(&name).unwrap(), l.data, "{name}");
    }
    let names: Vec<Vec<u8>> = chm.entries().iter().map(|e| e.name.clone()).collect();
    for want in ["/#SYSTEM", "/#STRINGS", "/#TOPICS", "/#URLTBL", "/#URLSTR", "/$FIftiMain", "/#TOCIDX"] {
        assert!(names.contains(&want.as_bytes().to_vec()), "{want}");
    }
    let sys = chm.read("/#SYSTEM").unwrap();
    assert_eq!(&sys[0..4], &[3, 0, 0, 0]);
}

#[test]
fn compile_refuses_nothing_else() {
    let mut h = HhpParser::new(Vec::new());
    for l in ["[FILES]", "a.txt"] {
        h.feed_line(l.as_bytes());
    }
    let s = setup(&h.project).ok().unwrap();
    let loaded = vec![Loaded { rel: b"a.txt".to_vec(), data: b"plain".to_vec() }];
    let c = match compile_project(&h.project, &s, &loaded, None, None, b"g", &[], &[]) {
        Ok(c) => c,
        Err(_) => panic!("compile failed"),
    };
    let mut chm = ChmFile::from_bytes(c.image).ok().unwrap();
    assert_eq!(chm.read("/a.txt").unwrap(), b"plain".to_vec());
}

#[test]
fn extraction_skips_internal_and_empty_files() {
    let entries = vec![
        DirEntry { name: b"/a.htm".to_vec(), section: 0, offset: 0, size: 2 },
        DirEntry { name: b"/empty".to_vec(), section: 0, offset: 2, size: 0 },
        DirEntry { name: b"::DataSpace/x".to_vec(), section: 0, offset: 2, size: 1 },
        DirEntry { name: b"/#SYSTEM".to_vec(), section: 0, offset: 0, size: 1 },
        DirEntry { name: b"/$FIftiMain".to_vec(), section: 0, offset: 1, size: 1 },
        DirEntry { name: b"/b#c".to_vec(), section: 0, offset: 1, size: 1 },
    ];
    let image = build_container(0x409, entries, b"abc", &[]);
    let chm = ChmFile::from_bytes(image).ok().unwrap();
    assert_eq!(extract_names(chm.entries()), vec![b"/a.htm".to_vec(), b"/b#c".to_vec()]);
}

#[test]
fn huff_lengths_single_symbol_gives_two_codes_of_length_one() {
    let mut freq = vec![0u32; 8];
    freq[5] = 9;
    let mut out = vec![7u8; 8];
    huff_lengths(&freq, 8, 16, &mut out);
    assert_eq!(out, vec![1, 0, 0, 0, 0, 1, 0, 0]);
}

#[test]
fn assemble_btree_packs_two_large_entries_into_two_leaves() {
    let entries = vec![vec![0u8; 1018], vec![0u8; 1018]];
    let f = rustchm::btree::assemble_btree(&entries, 0x409, 1252);
    assert_eq!(f.btree.len(), 76 + 3 * 2048);
    let empty: Vec<Vec<u8>> = Vec::new();
    let g = rustchm::btree::assemble_btree(&empty, 0x409, 1252);
    assert_eq!(g.btree.len(), 76 + 2048);
}
