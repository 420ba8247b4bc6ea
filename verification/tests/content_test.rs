use rustchm::btree::assemble_btree;
use rustchm::fifti::{extract_text, FtsIndexer};
use rustchm::links::{dir_of, extract_refs, extract_title_s, is_html_name, percent_decode, resolve_ref};
use rustchm::metafiles::{build_control_data, build_namelist, build_reset_table, build_subsets, build_transform_list};
use rustchm::sitemap::{decode_entities, parse_sitemap, parse_tag, scan_link_objects};
use rustchm::tables::{Strings, Topics, Urls};

#[test]
fn resolve_relative_links() {
    assert_eq!(resolve_ref(b"dir/", b"../a.htm#x"), b"a.htm".to_vec());
    assert_eq!(resolve_ref(b"a/", b"b%20c.htm?q=1"), b"a/b c.htm".to_vec());
    assert_eq!(resolve_ref(b"d/", b"/top.htm"), b"top.htm".to_vec());
    assert_eq!(resolve_ref(b"d/", b"./x\\y.htm"), b"d/x/y.htm".to_vec());
}

#[test]
fn resolve_rejects_outside_links() {
    assert_eq!(resolve_ref(b"", b"http://example.com/a.htm"), Vec::<u8>::new());
    assert_eq!(resolve_ref(b"", b"c:/x.htm"), Vec::<u8>::new());
    assert_eq!(resolve_ref(b"", b"#anchor"), Vec::<u8>::new());
    assert_eq!(resolve_ref(b"", b"  "), Vec::<u8>::new());
    assert_eq!(resolve_ref(b"", b"../up.htm"), Vec::<u8>::new());
    assert_eq!(resolve_ref(b"", b"?q"), Vec::<u8>::new());
    assert_eq!(resolve_ref(b"", b"a/b:c.htm"), b"a/b:c.htm".to_vec());
}

#[test]
fn percent_and_dirs() {
    assert_eq!(percent_decode(b"a%41b%zz%4"), b"aAb%zz%4".to_vec());
    assert_eq!(dir_of(b"a/b/c.htm"), b"a/b/".to_vec());
    assert_eq!(dir_of(b"c.htm"), Vec::<u8>::new());
    assert!(is_html_name(b"X.HTML"));
    assert!(is_html_name(b"page.htm"));
    assert!(!is_html_name(b"toc.hhc"));
    assert!(!is_html_name(b"a.hhk.htm"));
    assert!(!is_html_name(b"pic.gif"));
}

#[test]
fn refs_in_html() {
    let html = b"<a href=\"x.htm\">X</a><img SRC=pic.gif><a data-href='no.htm'><a href = 'y.htm'>";
    assert_eq!(
        extract_refs(html),
        vec![b"x.htm".to_vec(), b"y.htm".to_vec(), b"pic.gif".to_vec()]
    );
    assert_eq!(extract_refs(b"<p>no links</p>"), Vec::<Vec<u8>>::new());
}

#[test]
fn titles() {
    let html = b"<html><head><TITLE class=a>  Hello \n  World </title></head>";
    assert_eq!(extract_title_s(html, 1252, &[]), b"Hello World".to_vec());
    assert_eq!(extract_title_s(b"<p>none</p>", 1252, &[]), Vec::<u8>::new());
    assert_eq!(extract_title_s(b"<title>open", 1252, &[]), Vec::<u8>::new());
}

#[test]
fn entities() {
    assert_eq!(decode_entities(b"a&amp;b&lt;&#65;&#x42;&zz;&"), b"a&b<AB&zz;&".to_vec());
}

#[test]
fn sitemap_tree_and_properties() {
    let data = b"<HTML><BODY>\
<OBJECT type=\"text/site properties\"><param name=\"Window Styles\" value=\"0x800025\"></OBJECT>\
<UL>\
<LI><OBJECT type=\"text/sitemap\"><param name=\"Name\" value=\"Home\"><param name=\"Local\" value=\"index.htm\"></OBJECT>\
<UL><LI><OBJECT type=\"text/sitemap\"><param name=\"Name\" value=\"Sub &amp; more\"><param name=\"Local\" value=\"sub/page.htm\"></OBJECT></UL>\
<LI><OBJECT type=\"text/sitemap\"><param name=\"Name\" value=\"Second\"><param name=\"Local\" value=\"two.htm\"></OBJECT>\
</UL>\
<!-- <OBJECT type=\"text/sitemap\"><param name=\"Local\" value=\"hidden.htm\"></OBJECT> -->\
</BODY></HTML>";
    let sm = parse_sitemap(data);
    assert_eq!(sm.properties, vec![(b"window styles".to_vec(), b"0x800025".to_vec())]);
    assert_eq!(sm.items.len(), 2);
    assert_eq!(sm.items[0].param(b"name"), b"Home".to_vec());
    assert_eq!(sm.items[0].children.len(), 1);
    assert_eq!(sm.items[0].children[0].param(b"name"), b"Sub & more".to_vec());
    assert_eq!(sm.items[1].param(b"local"), b"two.htm".to_vec());
    assert_eq!(sm.items[1].param(b"missing"), Vec::<u8>::new());
    let mut locals = Vec::new();
    sm.collect_locals(&mut locals);
    assert_eq!(locals, vec![b"index.htm".to_vec(), b"sub/page.htm".to_vec(), b"two.htm".to_vec()]);
}

#[test]
fn link_objects() {
    let lo = scan_link_objects(
        b"<object type=x><param name=\"Keyword\" value=\"alpha\"><param name=\"ALink Name\" value=\"beta\">\
<param name=\"keyword\" value=\"\"></object><param name=\"keyword\" value=\"out\">",
    );
    assert_eq!(lo.keywords, vec![b"alpha".to_vec()]);
    assert_eq!(lo.alinks, vec![b"beta".to_vec()]);
}

#[test]
fn strings_are_shared_and_offset() {
    let mut s = Strings::new();
    assert_eq!(s.add(b""), 0);
    assert_eq!(s.add(b"abc"), 1);
    assert_eq!(s.add(b"de"), 5);
    assert_eq!(s.add(b"abc"), 1);
    assert_eq!(s.buf.v, b"\0abc\0de\0".to_vec());
}

#[test]
fn strings_do_not_cross_blocks() {
    let mut s = Strings::new();
    let long = vec![b'x'; 4090];
    assert_eq!(s.add(&long), 1);
    assert_eq!(s.add(b"abcdefgh"), 0x1000);
    assert_eq!(s.buf.v.len(), 0x1000 + 9);
}

#[test]
fn urls_and_topics() {
    let mut strings = Strings::new();
    let mut urls = Urls::new();
    let mut topics = Topics::new();
    assert_eq!(urls.add_url(b"a.htm", 0), 0);
    assert_eq!(urls.add_url(b"b.htm", 1), 12);
    assert_eq!(urls.add_urlstr(b"a.htm"), 1);
    assert_eq!(urls.add_urlstr(b"c.htm"), 29);
    topics.add(&mut strings, &mut urls, b"Home", b"/Index.htm", -1);
    topics.add(&mut strings, &mut urls, b"", b"x.htm#part", -1);
    assert_eq!(topics.count(), 2);
    assert_eq!(topics.find(b"index.htm"), 0);
    assert_eq!(topics.find(b"/X.HTM#PART"), 1);
    assert_eq!(topics.find(b"nothing.htm"), -1);
    assert_eq!(&topics.buf.v[12..14], &[6, 0]);
    assert_eq!(&topics.buf.v[16 + 4..16 + 8], &[0xFF, 0xFF, 0xFF, 0xFF]);
    assert_eq!(&topics.buf.v[16 + 12..16 + 14], &[0, 0]);
    topics.patch_toc_offset(1, 0x1234);
    assert_eq!(&topics.buf.v[16..20], &[0x34, 0x12, 0, 0]);
    assert_eq!(topics.buf.v.len(), 32);
}

#[test]
fn storage_descriptions() {
    let nl = build_namelist();
    assert_eq!(nl.len(), 60);
    assert_eq!(&nl[0..2], &[30, 0]);
    assert_eq!(&nl[2..6], &[2, 0, 12, 0]);
    assert_eq!(
        build_control_data(),
        vec![6, 0, 0, 0, b'L', b'Z', b'X', b'C', 2, 0, 0, 0, 2, 0, 0, 0, 2, 0, 0, 0, 1, 0, 0, 0, 0, 0, 0, 0, 0, 0, 0, 0]
    );
    let tl = build_transform_list();
    assert_eq!(tl.len(), 38);
    assert_eq!(&tl[0..4], &[b'{', 0, b'7', 0]);
    let rt = build_reset_table(0x9000, 0x500, &[0, 0x300]);
    assert_eq!(rt.len(), 0x28 + 16);
    assert_eq!(&rt[0..8], &[2, 0, 0, 0, 2, 0, 0, 0]);
    assert_eq!(&rt[16..24], &[0, 0x90, 0, 0, 0, 0, 0, 0]);
    assert_eq!(&rt[48..56], &[0, 3, 0, 0, 0, 0, 0, 0]);
    assert_eq!(build_subsets(&[]), Vec::<u8>::new());
    assert_eq!(build_subsets(&[b"s".to_vec()]), {
        let mut v = vec![0, 0, 12, 0];
        v.extend(vec![0u8; 12]);
        v
    });
}

#[test]
fn binary_index_files() {
    let e1 = vec![1u8; 10];
    let e2 = vec![2u8; 12];
    let f = assemble_btree(&[e1, e2], 0x409, 1252);
    assert_eq!(f.data.len(), 26);
    assert_eq!(&f.data[0..13], &[0, 0, 0, 0, 5, 0, 0, 0, 0x80, 0, 0, 0, 0]);
    assert_eq!(f.property.len(), 32);
    assert_eq!(f.map, vec![0, 0, 0, 0, 0, 0, 0, 0, 0, 0]);
    assert_eq!(&f.btree[0..2], &[0x3B, 0x29]);
    assert_eq!(f.btree.len(), 76 + 2048);
    let empty = assemble_btree(&[], 0x409, 1252);
    assert_eq!(empty.data.len(), 0);
    assert_eq!(empty.property, vec![0, 0, 0, 0]);
}

#[test]
fn tag_attributes() {
    let s = b"<PARAM name=\"Local\" value='a b' X=y z/>tail";
    let (t, end) = parse_tag(s, 0);
    assert_eq!(t.name, b"param".to_vec());
    assert_eq!(
        t.attrs,
        vec![
            (b"name".to_vec(), b"Local".to_vec()),
            (b"value".to_vec(), b"a b".to_vec()),
            (b"x".to_vec(), b"y".to_vec()),
            (b"z/".to_vec(), Vec::new()),
        ]
    );
    assert_eq!(end, s.len() - 4);
    let (t2, end2) = parse_tag(b"<a href=&quot;x&amp;y", 0);
    assert_eq!(t2.attrs, vec![(b"href".to_vec(), b"\"x&y".to_vec())]);
    assert_eq!(end2, 21);
}

#[test]
fn indexed_text_runs() {
    let html = b"<html><head><title>My &amp; Title</title></head><body>Hello <b>World</b><script>x</script><!-- c -->End</body>after";
    let runs = extract_text(html);
    let got: Vec<(Vec<u8>, bool)> = runs.iter().map(|r| (r.text.clone(), r.title)).collect();
    assert_eq!(
        got,
        vec![
            (b"My & Title".to_vec(), true),
            (b"Hello ".to_vec(), false),
            (b"World".to_vec(), false),
            (b"End".to_vec(), false),
        ]
    );
}

#[test]
fn full_text_index() {
    let mut x = FtsIndexer::new();
    assert!(!x.has_data());
    x.index_file(b"<html><body>Hello hello, world 3.14 it's</body></html>", 0);
    assert!(x.has_data());
    assert_eq!(x.file_count, 1);
    let words: Vec<Vec<u8>> = x.words.iter().map(|w| w.word.clone()).collect();
    assert_eq!(words, vec![b"3.14".to_vec(), b"hello".to_vec(), b"its".to_vec(), b"world".to_vec()]);
    let hello = &x.words[1];
    assert_eq!(hello.docs.len(), 1);
    assert_eq!(hello.docs[0], (0, vec![0, 1]));
    assert_eq!(x.words[0].docs[0], (0, vec![3]));
    x.index_file(b"<p>no body</p>", 1);
    assert_eq!(x.file_count, 1);
    let f = x.build(0x409, 1252);
    assert!(f.len() >= 0x400 + 4096);
}
