use rustchm::builder::{member_paths, member_result, merge_name, output_path, plan_member, setup, CompileError, MemberStep, Stats};
use rustchm::hhp::{HhpParser, LineAction, Project};
use rustchm::window::parse_window_line;

fn feed_all(h: &mut HhpParser, lines: &[&str]) -> Vec<LineAction> {
    let mut acts = Vec::new();
    for l in lines {
        assert!(h.line_ok(l.as_bytes()));
        acts.push(h.feed_line(l.as_bytes()));
    }
    acts
}

fn demo_project() -> (Project, Vec<LineAction>) {
    let mut h = HhpParser::new(b"proj/".to_vec());
    let acts = feed_all(
        &mut h,
        &[
            "; a comment",
            "[OPTIONS]",
            "Compiled file=out.chm",
            "Contents file = toc.hhc",
            "Language=0x411 Japanese",
            "Title=First",
            "title=Demo",
            "[FILES]",
            "a.htm",
            "A.HTM",
            "sub\\b.htm",
            "",
            "[ALIAS]",
            "IDH_A=a.htm ; comment",
            "#include aliases.h",
            "[MAP]",
            "#define IDH_A 0x10",
            "#define IDH_B 7",
            "#include \"map.h\"",
            "[MERGE FILES]",
            "child\\x.chm",
            "[WINDOWS]",
            "main=\"Demo\"",
        ],
    );
    (h.project, acts)
}

#[test]
fn project_sections_are_read() {
    let (p, _) = demo_project();
    assert_eq!(p.dir, b"proj/".to_vec());
    assert_eq!(p.opt(b"compiled file"), b"out.chm".to_vec());
    assert_eq!(p.opt(b"contents file"), b"toc.hhc".to_vec());
    assert_eq!(p.opt(b"title"), b"Demo".to_vec());
    assert_eq!(p.opt(b"missing"), Vec::<u8>::new());
    assert_eq!(p.files, vec![b"a.htm".to_vec(), b"sub/b.htm".to_vec()]);
    assert_eq!(p.aliases, vec![(b"IDH_A".to_vec(), b"a.htm".to_vec())]);
    assert_eq!(p.map_defs, vec![(b"IDH_A".to_vec(), 16u32), (b"IDH_B".to_vec(), 7u32)]);
    assert_eq!(p.merge_files, vec![b"child/x.chm".to_vec()]);
    assert_eq!(p.window_lines, vec![b"main=\"Demo\"".to_vec()]);
}

#[test]
fn includes_are_handed_back() {
    let (_, acts) = demo_project();
    let mut alias_inc = Vec::new();
    let mut map_inc = Vec::new();
    for a in acts {
        match a {
            LineAction::IncludeAlias(p) => alias_inc.push(p),
            LineAction::IncludeMap(p) => map_inc.push(p),
            LineAction::Done => {}
        }
    }
    assert_eq!(alias_inc, vec![b"proj/aliases.h".to_vec()]);
    assert_eq!(map_inc, vec![b"proj/map.h".to_vec()]);
}

#[test]
fn included_lines_extend_the_project() {
    let mut h = HhpParser::new(Vec::new());
    assert!(matches!(h.feed_alias_line(b"  ; skipped"), LineAction::Done));
    assert!(matches!(h.feed_alias_line(b"IDH_C = c.htm"), LineAction::Done));
    assert!(HhpParser::map_line_accepted(b"#define IDH_C 0x20"));
    assert!(matches!(h.feed_map_line(b"#define IDH_C 0x20"), LineAction::Done));
    assert!(!HhpParser::map_line_accepted(b"#include \""));
    assert_eq!(h.project.aliases, vec![(b"IDH_C".to_vec(), b"c.htm".to_vec())]);
    assert_eq!(h.project.map_defs, vec![(b"IDH_C".to_vec(), 32u32)]);
}

#[test]
fn setup_adds_contents_file_and_codepage() {
    let (p, _) = demo_project();
    let s = match setup(&p) {
        Ok(s) => s,
        Err(_) => panic!("setup failed"),
    };
    assert_eq!(s.lcid, 0x411);
    assert_eq!(s.cp, 932);
    assert_eq!(s.hhc, b"toc.hhc".to_vec());
    assert_eq!(s.hhk, Vec::<u8>::new());
    assert_eq!(s.files, vec![b"a.htm".to_vec(), b"sub/b.htm".to_vec(), b"toc.hhc".to_vec()]);
}

#[test]
fn setup_without_files_fails() {
    let mut h = HhpParser::new(Vec::new());
    h.feed_line(b"[OPTIONS]");
    h.feed_line(b"Title=Nothing");
    assert!(matches!(setup(&h.project), Err(CompileError::NoFiles)));
}

#[test]
fn setup_charset_overrides_language() {
    let mut h = HhpParser::new(Vec::new());
    feed_all(&mut h, &["[OPTIONS]", "Language=0x419", "Charset=1250", "[FILES]", "x.htm"]);
    let s = match setup(&h.project) {
        Ok(s) => s,
        Err(_) => panic!("setup failed"),
    };
    assert_eq!(s.lcid, 0x419);
    assert_eq!(s.cp, 1250);
}

#[test]
fn output_path_choices() {
    let (p, _) = demo_project();
    assert_eq!(output_path(&p, b"proj/demo.hhp", b""), b"proj/out.chm".to_vec());
    assert_eq!(output_path(&p, b"proj/demo.hhp", b"x.chm"), b"x.chm".to_vec());
    let mut h = HhpParser::new(b"proj/".to_vec());
    feed_all(&mut h, &["[FILES]", "a.htm"]);
    assert_eq!(output_path(&h.project, b"proj/demo.hhp", b""), b"proj/demo.chm".to_vec());
}

#[test]
fn window_line_fields() {
    let w = parse_window_line(
        b"main=\"My Help\",\"toc.hhc\",\"index.hhk\",\"index.htm\",\"index.htm\",,,,,0x2520,240,0x387e,[10,20,600,500],,,,,,,0",
    );
    assert_eq!(w.typ, b"main".to_vec());
    assert_eq!(w.caption, b"My Help".to_vec());
    assert_eq!(w.toc, b"toc.hhc".to_vec());
    assert_eq!(w.index, b"index.hhk".to_vec());
    assert_eq!(w.default_file, b"index.htm".to_vec());
    assert_eq!(w.home, b"index.htm".to_vec());
    assert_eq!(w.jump1_file, Vec::<u8>::new());
    assert_eq!(w.nav_style, 0x2520);
    assert_eq!(w.nav_width, 240);
    assert_eq!(w.buttons, 0x387e);
    assert_eq!(w.rect, [10, 20, 600, 500]);
    assert_eq!(w.styles, 0);
    assert_eq!(w.notify_id, 0);
    assert_eq!(w.valid_flags, 0x0002 | 0x0020 | 0x0100 | 0x0010);
}

#[test]
fn window_line_short() {
    let w = parse_window_line(b"w2=\"Cap\",toc\\t.hhc");
    assert_eq!(w.typ, b"w2".to_vec());
    assert_eq!(w.caption, b"Cap".to_vec());
    assert_eq!(w.toc, b"toc/t.hhc".to_vec());
    assert_eq!(w.valid_flags, 0);
    assert_eq!(w.rect, [0, 0, 0, 0]);
}

#[test]
fn collection_member_names() {
    assert_eq!(merge_name(b"sub/child.chm"), b"child".to_vec());
    assert_eq!(merge_name(b"a.b.chm"), b"a.b".to_vec());
    assert_eq!(merge_name(b"noext"), b"noext".to_vec());
    assert_eq!(merge_name(b"x/.chm"), Vec::<u8>::new());
    let (chm, flat, nested) = member_paths(b"proj/", b"child");
    assert_eq!(chm, b"proj/child.chm".to_vec());
    assert_eq!(flat, b"proj/child.hhp".to_vec());
    assert_eq!(nested, b"proj/child/child.hhp".to_vec());
}

#[test]
fn plan_member_prefers_flat_then_nested_then_prebuilt() {
    match plan_member(b"d/", b"sub/Part.chm", true, true, true) {
        MemberStep::Compile { hhp, chm } => {
            assert_eq!(hhp, b"d/Part.hhp".to_vec());
            assert_eq!(chm, b"d/Part.chm".to_vec());
        }
        _ => panic!("expected compile"),
    }
    match plan_member(b"d/", b"Part.chm", false, true, false) {
        MemberStep::Compile { hhp, .. } => assert_eq!(hhp, b"d/Part/Part.hhp".to_vec()),
        _ => panic!("expected compile"),
    }
    match plan_member(b"d/", b"Part.chm", false, false, true) {
        MemberStep::Reuse { chm, ok, err } => {
            assert_eq!(chm, b"d/Part.chm".to_vec());
            assert!(ok);
            assert!(err.is_empty());
        }
        _ => panic!("expected reuse"),
    }
    match plan_member(b"d/", b"Part.chm", false, false, false) {
        MemberStep::Reuse { ok, err, .. } => {
            assert!(!ok);
            assert_eq!(err, b"no Part.hhp and no prebuilt Part.chm".to_vec());
        }
        _ => panic!("expected reuse"),
    }
}

#[test]
fn member_result_records_outcome() {
    let st = Stats { file_count: 2, uncompressed: 10, compressed: 5, output: 100 };
    let m = member_result("a.hhp".to_string(), "a.chm".to_string(), Ok(st));
    assert!(m.ok && !m.reused && !m.is_master);
    assert_eq!(m.stats.map(|s| s.file_count), Some(2));
    assert!(m.err.is_empty());
    let m = member_result("a.hhp".to_string(), "a.chm".to_string(), Err("boom".to_string()));
    assert!(!m.ok);
    assert!(m.stats.is_none());
    assert_eq!(m.err, "boom");
}
