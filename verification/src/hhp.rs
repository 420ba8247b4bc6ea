//! The HTML Help project (.hhp): its sections read line by line into a `Project`.
//! `#include` lines of [ALIAS] and [MAP] name other files; the parser hands their
//! path back, and the lines of such a file are fed in through the matching method.
use vstd::prelude::*;
use vstd::string::StringSliceAdditionalSpecFns;
use crate::sitemap::{lookup, lookup_pairs, copy_range, copy_vec};
use crate::strutil::{
    eq_bytes, lower, number_of, slashes, slashes_spec, trim, trim_bounds, trimmed, skip_ws,
    trim_end_at,
};
use crate::tables::{first_key, lookup_key, lemma_first_key_range};
use crate::textenc::lc_seq;

verus! {

/// What a project says, with text as UTF-8 bytes.
pub struct Project {
    /// The project's directory with a trailing slash, or empty.
    pub dir: Vec<u8>,
    /// [OPTIONS], by lower-cased name; a later line replaces an earlier one.
    pub options: Vec<(Vec<u8>, Vec<u8>)>,
    /// [FILES], slashes forward, each once (ASCII case ignored).
    pub files: Vec<Vec<u8>>,
    pub window_lines: Vec<Vec<u8>>,
    pub merge_files: Vec<Vec<u8>>,
    pub subsets: Vec<Vec<u8>>,
    pub info_types: Vec<Vec<u8>>,
    /// [ALIAS]: name and file.
    pub aliases: Vec<(Vec<u8>, Vec<u8>)>,
    /// [MAP]: name and context id.
    pub map_defs: Vec<(Vec<u8>, u32)>,
}

/// What the caller does after a line: nothing, or feed the lines of the named file
/// through `feed_alias_line` or `feed_map_line`.
pub enum LineAction {
    Done,
    IncludeAlias(Vec<u8>),
    IncludeMap(Vec<u8>),
}

/// The section names and directives a project uses.
pub open spec fn kw_options() -> Seq<u8> {
    seq![0x6Fu8, 0x70, 0x74, 0x69, 0x6F, 0x6E, 0x73]
}

pub open spec fn kw_files() -> Seq<u8> {
    seq![0x66u8, 0x69, 0x6C, 0x65, 0x73]
}

pub open spec fn kw_windows() -> Seq<u8> {
    seq![0x77u8, 0x69, 0x6E, 0x64, 0x6F, 0x77, 0x73]
}

pub open spec fn kw_alias() -> Seq<u8> {
    seq![0x61u8, 0x6C, 0x69, 0x61, 0x73]
}

pub open spec fn kw_map() -> Seq<u8> {
    seq![0x6Du8, 0x61, 0x70]
}

pub open spec fn kw_merge() -> Seq<u8> {
    seq![0x6Du8, 0x65, 0x72, 0x67, 0x65, 0x20, 0x66, 0x69, 0x6C, 0x65, 0x73]
}

pub open spec fn kw_subsets() -> Seq<u8> {
    seq![0x73u8, 0x75, 0x62, 0x73, 0x65, 0x74, 0x73]
}

pub open spec fn kw_infotypes() -> Seq<u8> {
    seq![0x69u8, 0x6E, 0x66, 0x6F, 0x74, 0x79, 0x70, 0x65, 0x73]
}

pub open spec fn kw_define() -> Seq<u8> {
    seq![0x23u8, 0x64, 0x65, 0x66, 0x69, 0x6E, 0x65]
}

pub open spec fn kw_include() -> Seq<u8> {
    seq![0x23u8, 0x69, 0x6E, 0x63, 0x6C, 0x75, 0x64, 0x65]
}

fn is_kw_options(s: &Vec<u8>) -> (r: bool)
    ensures
        r == (s@ == kw_options()),
{
    let kw: [u8; 7] = [0x6F, 0x70, 0x74, 0x69, 0x6F, 0x6E, 0x73];
    proof {
        assert(kw@ =~= kw_options());
    }
    eq_bytes(s, &kw)
}

fn is_kw_files(s: &Vec<u8>) -> (r: bool)
    ensures
        r == (s@ == kw_files()),
{
    let kw: [u8; 5] = [0x66, 0x69, 0x6C, 0x65, 0x73];
    proof {
        assert(kw@ =~= kw_files());
    }
    eq_bytes(s, &kw)
}

fn is_kw_windows(s: &Vec<u8>) -> (r: bool)
    ensures
        r == (s@ == kw_windows()),
{
    let kw: [u8; 7] = [0x77, 0x69, 0x6E, 0x64, 0x6F, 0x77, 0x73];
    proof {
        assert(kw@ =~= kw_windows());
    }
    eq_bytes(s, &kw)
}

fn is_kw_alias(s: &Vec<u8>) -> (r: bool)
    ensures
        r == (s@ == kw_alias()),
{
    let kw: [u8; 5] = [0x61, 0x6C, 0x69, 0x61, 0x73];
    proof {
        assert(kw@ =~= kw_alias());
    }
    eq_bytes(s, &kw)
}

fn is_kw_map(s: &Vec<u8>) -> (r: bool)
    ensures
        r == (s@ == kw_map()),
{
    let kw: [u8; 3] = [0x6D, 0x61, 0x70];
    proof {
        assert(kw@ =~= kw_map());
    }
    eq_bytes(s, &kw)
}

fn is_kw_merge(s: &Vec<u8>) -> (r: bool)
    ensures
        r == (s@ == kw_merge()),
{
    let kw: [u8; 11] = [0x6D, 0x65, 0x72, 0x67, 0x65, 0x20, 0x66, 0x69, 0x6C, 0x65, 0x73];
    proof {
        assert(kw@ =~= kw_merge());
    }
    eq_bytes(s, &kw)
}

fn is_kw_subsets(s: &Vec<u8>) -> (r: bool)
    ensures
        r == (s@ == kw_subsets()),
{
    let kw: [u8; 7] = [0x73, 0x75, 0x62, 0x73, 0x65, 0x74, 0x73];
    proof {
        assert(kw@ =~= kw_subsets());
    }
    eq_bytes(s, &kw)
}

fn is_kw_infotypes(s: &Vec<u8>) -> (r: bool)
    ensures
        r == (s@ == kw_infotypes()),
{
    let kw: [u8; 9] = [0x69, 0x6E, 0x66, 0x6F, 0x74, 0x79, 0x70, 0x65, 0x73];
    proof {
        assert(kw@ =~= kw_infotypes());
    }
    eq_bytes(s, &kw)
}

fn is_kw_define(s: &Vec<u8>) -> (r: bool)
    ensures
        r == (s@ == kw_define()),
{
    let kw: [u8; 7] = [0x23, 0x64, 0x65, 0x66, 0x69, 0x6E, 0x65];
    proof {
        assert(kw@ =~= kw_define());
    }
    eq_bytes(s, &kw)
}

fn is_kw_include(s: &Vec<u8>) -> (r: bool)
    ensures
        r == (s@ == kw_include()),
{
    let kw: [u8; 8] = [0x23, 0x69, 0x6E, 0x63, 0x6C, 0x75, 0x64, 0x65];
    proof {
        assert(kw@ =~= kw_include());
    }
    eq_bytes(s, &kw)
}

/// `yes`, `true` or `1`, ASCII case ignored.
pub open spec fn is_yes(v: Seq<u8>) -> bool {
    let l = lc_seq(v);
    l == "yes".spec_bytes() || l == "true".spec_bytes() || l == "1".spec_bytes()
}

impl Project {
    /// The value of option `k` (a lower-case name); empty when it is not set.
    pub fn opt(&self, k: &[u8]) -> (r: Vec<u8>)
        ensures
            r@ == lookup(self.options@, k@),
    {
        lookup_pairs(&self.options, k)
    }

    /// Whether option `k` is set to yes, true or 1.
    pub fn opt_yes(&self, k: &[u8]) -> (r: bool)
        ensures
            r == is_yes(lookup(self.options@, k@)),
    {
        let v = lower(&self.opt(k));
        eq_bytes(&v, "yes".as_bytes()) || eq_bytes(&v, "true".as_bytes()) || eq_bytes(
            &v,
            "1".as_bytes(),
        )
    }
}

/// The first index at or after `i` whose byte is `c`, or `s.len()`.
pub open spec fn find_byte(s: Seq<u8>, c: u8, i: int) -> int
    decreases s.len() - i,
{
    if i < 0 || i >= s.len() {
        s.len() as int
    } else if s[i] == c {
        i
    } else {
        find_byte(s, c, i + 1)
    }
}

/// The first index at or after `i` holding a space or a tab, or `s.len()`.
pub open spec fn find_blank(s: Seq<u8>, i: int) -> int
    decreases s.len() - i,
{
    if i < 0 || i >= s.len() {
        s.len() as int
    } else if s[i] == 0x20 || s[i] == 0x09 {
        i
    } else {
        find_blank(s, i + 1)
    }
}

pub proof fn lemma_find_byte_bounds(s: Seq<u8>, c: u8, i: int)
    requires
        0 <= i <= s.len(),
    ensures
        i <= find_byte(s, c, i) <= s.len(),
        find_byte(s, c, i) < s.len() ==> s[find_byte(s, c, i)] == c,
    decreases s.len() - i,
{
    if i < s.len() && s[i] != c {
        lemma_find_byte_bounds(s, c, i + 1);
    }
}

proof fn lemma_find_blank_bounds(s: Seq<u8>, i: int)
    requires
        0 <= i <= s.len(),
    ensures
        i <= find_blank(s, i) <= s.len(),
    decreases s.len() - i,
{
    if i < s.len() && !(s[i] == 0x20 || s[i] == 0x09) {
        lemma_find_blank_bounds(s, i + 1);
    }
}

/// The first index at or after `i` whose byte is `c`, or `s.len()`.
pub fn find_byte_exec(s: &[u8], c: u8, i: usize) -> (r: usize)
    requires
        i <= s@.len(),
    ensures
        r == find_byte(s@, c, i as int),
        i <= r <= s@.len(),
{
    proof {
        lemma_find_byte_bounds(s@, c, i as int);
    }
    let mut k = i;
    while k < s.len() && s[k] != c
        invariant
            i <= k <= s@.len(),
            find_byte(s@, c, k as int) == find_byte(s@, c, i as int),
        decreases s@.len() - k,
    {
        k = k + 1;
    }
    k
}

fn find_blank_exec(s: &[u8], i: usize) -> (r: usize)
    requires
        i <= s@.len(),
    ensures
        r == find_blank(s@, i as int),
        i <= r <= s@.len(),
{
    proof {
        lemma_find_blank_bounds(s@, i as int);
    }
    let mut k = i;
    while k < s.len() && !(s[k] == 0x20 || s[k] == 0x09)
        invariant
            i <= k <= s@.len(),
            find_blank(s@, k as int) == find_blank(s@, i as int),
        decreases s@.len() - k,
    {
        k = k + 1;
    }
    k
}

/// `s[a..b]` once surrounding whitespace is dropped.
pub open spec fn trimmed_range(s: Seq<u8>, a: int, b: int) -> Seq<u8> {
    trimmed(s.subrange(a, b))
}

/// Copies `s[a..b]` without surrounding whitespace.
fn trim_range(s: &[u8], a: usize, b: usize) -> (r: Vec<u8>)
    requires
        a <= b <= s@.len(),
    ensures
        r@ == trimmed_range(s@, a as int, b as int),
{
    let part = copy_range(s, a, b);
    trim(&part)
}

/// `s` without all its leading and trailing double quotes.
pub open spec fn strip_quotes(s: Seq<u8>) -> Seq<u8> {
    let a = skip_quotes(s, 0);
    s.subrange(a, quotes_end(s, a, s.len() as int))
}

pub open spec fn skip_quotes(s: Seq<u8>, i: int) -> int
    decreases s.len() - i,
{
    if i < 0 || i >= s.len() || s[i] != 0x22 {
        i
    } else {
        skip_quotes(s, i + 1)
    }
}

pub open spec fn quotes_end(s: Seq<u8>, lo: int, j: int) -> int
    decreases j - lo,
{
    if j <= lo || j > s.len() || s[j - 1] != 0x22 {
        j
    } else {
        quotes_end(s, lo, j - 1)
    }
}

fn strip_quotes_exec(s: &[u8]) -> (r: Vec<u8>)
    ensures
        r@ == strip_quotes(s@),
{
    let mut a: usize = 0;
    while a < s.len() && s[a] == 0x22
        invariant
            a <= s@.len(),
            skip_quotes(s@, a as int) == skip_quotes(s@, 0),
        decreases s@.len() - a,
    {
        a = a + 1;
    }
    let mut b: usize = s.len();
    while b > a && s[b - 1] == 0x22
        invariant
            a <= b <= s@.len(),
            quotes_end(s@, a as int, b as int) == quotes_end(s@, a as int, s@.len() as int),
        decreases b,
    {
        b = b - 1;
    }
    copy_range(s, a, b)
}

/// Where an [ALIAS] include names its file: the text after the first blank, trimmed
/// and with its quotes dropped when it starts with one.
pub open spec fn alias_include_name(t: Seq<u8>) -> Seq<u8> {
    let sp = find_blank(t, 0);
    let start = if sp < t.len() { sp + 1 } else { t.len() as int };
    let inc = trimmed(t.subrange(start, t.len() as int));
    if inc.len() > 0 && inc[0] == 0x22 { strip_quotes(inc) } else { inc }
}

/// The file of an [ALIAS] line `name = file ; comment`, slashes forward.
pub open spec fn alias_file(t: Seq<u8>, eq: int) -> Seq<u8> {
    let f = trimmed(t.subrange(eq + 1, t.len() as int));
    let semi = find_byte(f, 0x3B, 0);
    slashes_spec(if semi < f.len() { trimmed(f.subrange(0, semi)) } else { f })
}

/// An [ALIAS] line (trimmed) leaves the aliases so and asks for what `r` says.
pub open spec fn alias_step(dir: Seq<u8>, t: Seq<u8>, before: Seq<(Vec<u8>, Vec<u8>)>, after: Seq<
    (Vec<u8>, Vec<u8>),
>, r: LineAction) -> bool {
    if t.len() > 0 && t[0] == 0x23 {
        &&& after == before
        &&& r matches LineAction::IncludeAlias(p) && p@ == dir + slashes_spec(alias_include_name(t))
    } else if find_byte(t, 0x3D, 0) < t.len() {
        let eq = find_byte(t, 0x3D, 0);
        &&& after.len() == before.len() + 1
        &&& after.drop_last() == before
        &&& after.last().0@ == trimmed(t.subrange(0, eq))
        &&& after.last().1@ == alias_file(t, eq)
        &&& r is Done
    } else {
        after == before && r is Done
    }
}

/// The name and value of a `#define name value` [MAP] line, if it has both parts.
pub open spec fn define_parts(t: Seq<u8>) -> Option<(Seq<u8>, u32)> {
    let rest = trimmed(t.subrange(7, t.len() as int));
    let sp = find_blank(rest, 0);
    if sp < rest.len() {
        let v = trimmed(rest.subrange(sp, rest.len() as int));
        Some(
            (
                trimmed(rest.subrange(0, sp)),
                match number_of(v) {
                    Some(x) => x,
                    None => 0,
                },
            ),
        )
    } else {
        None
    }
}

/// The file a `#include` [MAP] line names, its quotes or angle brackets dropped.
pub open spec fn map_include_name(t: Seq<u8>) -> Seq<u8> {
    let inc = trimmed(t.subrange(8, t.len() as int));
    if inc.len() > 0 && (inc[0] == 0x22 || inc[0] == 0x3C) {
        inc.subrange(1, inc.len() - 1)
    } else {
        inc
    }
}

/// A `#include` [MAP] line whose name is a lone quote or bracket cannot be read.
pub open spec fn map_line_ok(t: Seq<u8>) -> bool {
    !(t.len() >= 8 && t.subrange(0, 8) == kw_include() && {
        let inc = trimmed(t.subrange(8, t.len() as int));
        inc.len() == 1 && (inc[0] == 0x22 || inc[0] == 0x3C)
    })
}

/// A [MAP] line (trimmed) leaves the definitions so and asks for what `r` says.
pub open spec fn map_step(dir: Seq<u8>, t: Seq<u8>, before: Seq<(Vec<u8>, u32)>, after: Seq<
    (Vec<u8>, u32),
>, r: LineAction) -> bool {
    if t.len() >= 7 && t.subrange(0, 7) == kw_define() {
        &&& r is Done
        &&& match define_parts(t) {
            Some((name, id)) => {
                &&& after.len() == before.len() + 1
                &&& after.drop_last() == before
                &&& after.last().0@ == name
                &&& after.last().1 == id
            },
            None => after == before,
        }
    } else if t.len() >= 8 && t.subrange(0, 8) == kw_include() {
        &&& after == before
        &&& r matches LineAction::IncludeMap(p) && p@ == dir + slashes_spec(map_include_name(t))
    } else {
        after == before && r is Done
    }
}

/// A line is a section header: `[` first and `]` last.
pub open spec fn is_header(t: Seq<u8>) -> bool {
    t.len() >= 2 && t[0] == 0x5B && t[t.len() - 1] == 0x5D
}

/// Reads a project line by line.
pub struct HhpParser {
    pub project: Project,
    /// The current section, lower case.
    pub section: Vec<u8>,
    /// The lower-cased [FILES] entries so far.
    pub seen: Vec<Vec<u8>>,
}

/// Some entry of `seen` is `k`.
pub open spec fn seen_has(seen: Seq<Vec<u8>>, k: Seq<u8>) -> bool {
    exists|i: int| 0 <= i < seen.len() && (#[trigger] seen[i])@ == k
}

/// `dir` and `name` one after the other.
fn join(dir: &Vec<u8>, name: &Vec<u8>) -> (r: Vec<u8>)
    ensures
        r@ == dir@ + name@,
{
    let mut r = copy_vec(dir);
    let n = name.len();
    let mut k: usize = 0;
    while k < n
        invariant
            k <= n,
            n == name@.len(),
            r@ == dir@ + name@.subrange(0, k as int),
        decreases n - k,
    {
        r.push(name[k]);
        k = k + 1;
        assert(r@ =~= dir@ + name@.subrange(0, k as int));
    }
    assert(name@.subrange(0, n as int) =~= name@);
    r
}

impl HhpParser {
    /// A parser for a project in directory `dir` (with its trailing slash, or empty).
    pub fn new(dir: Vec<u8>) -> (h: HhpParser)
        ensures
            h.project.dir@ == dir@,
            h.project.options@.len() == 0,
            h.project.files@.len() == 0,
            h.project.window_lines@.len() == 0,
            h.project.merge_files@.len() == 0,
            h.project.subsets@.len() == 0,
            h.project.info_types@.len() == 0,
            h.project.aliases@.len() == 0,
            h.project.map_defs@.len() == 0,
            h.section@.len() == 0,
            h.seen@.len() == 0,
    {
        HhpParser {
            project: Project {
                dir,
                options: Vec::new(),
                files: Vec::new(),
                window_lines: Vec::new(),
                merge_files: Vec::new(),
                subsets: Vec::new(),
                info_types: Vec::new(),
                aliases: Vec::new(),
                map_defs: Vec::new(),
            },
            section: Vec::new(),
            seen: Vec::new(),
        }
    }

    /// A line the parser can take: in [MAP], no `#include` of a lone quote or bracket.
    pub open spec fn accepts(&self, line: Seq<u8>) -> bool {
        self.section@ == kw_map() ==> map_line_ok(trimmed(line))
    }

    /// Whether the parser can take `line` (see `accepts`).
    pub fn line_ok(&self, line: &[u8]) -> (r: bool)
        ensures
            r == self.accepts(line@),
    {
        if !is_kw_map(&self.section) {
            return true;
        }
        let t = trim(line);
        map_ok(&t)
    }

    /// An [ALIAS] line (trimmed): `name=file`, or `#include file`.
    fn alias_line(&mut self, t: &Vec<u8>) -> (r: LineAction)
        ensures
            alias_step(
                old(self).project.dir@,
                t@,
                old(self).project.aliases@,
                final(self).project.aliases@,
                r,
            ),
            final(self).section == old(self).section,
            final(self).seen == old(self).seen,
            final(self).project.dir == old(self).project.dir,
            final(self).project.options == old(self).project.options,
            final(self).project.files == old(self).project.files,
            final(self).project.window_lines == old(self).project.window_lines,
            final(self).project.merge_files == old(self).project.merge_files,
            final(self).project.subsets == old(self).project.subsets,
            final(self).project.info_types == old(self).project.info_types,
            final(self).project.map_defs == old(self).project.map_defs,
    {
        let n = t.len();
        if n > 0 && t[0] == 0x23 {
            let sp = find_blank_exec(t, 0);
            let start = if sp < n { sp + 1 } else { n };
            let inc0 = trim_range(t, start, n);
            let inc = if inc0.len() > 0 && inc0[0] == 0x22 { strip_quotes_exec(&inc0) } else { inc0 };
            let path = join(&self.project.dir, &slashes(&inc));
            return LineAction::IncludeAlias(path);
        }
        let eq = find_byte_exec(t, 0x3D, 0);
        if eq < n {
            let f = trim_range(t, eq + 1, n);
            let semi = find_byte_exec(&f, 0x3B, 0);
            let file = if semi < f.len() { trim_range(&f, 0, semi) } else { f };
            proof {
                assert(f@.subrange(0, f@.len() as int) =~= f@);
            }
            let name = trim_range(t, 0, eq);
            self.project.aliases.push((name, slashes(&file)));
            proof {
                assert(self.project.aliases@.drop_last() =~= old(self).project.aliases@);
            }
        }
        LineAction::Done
    }

    /// A [MAP] line (trimmed): `#define name value`, or `#include file`.
    fn map_line(&mut self, t: &Vec<u8>) -> (r: LineAction)
        requires
            map_line_ok(t@),
        ensures
            map_step(
                old(self).project.dir@,
                t@,
                old(self).project.map_defs@,
                final(self).project.map_defs@,
                r,
            ),
            final(self).section == old(self).section,
            final(self).seen == old(self).seen,
            final(self).project.dir == old(self).project.dir,
            final(self).project.options == old(self).project.options,
            final(self).project.files == old(self).project.files,
            final(self).project.window_lines == old(self).project.window_lines,
            final(self).project.merge_files == old(self).project.merge_files,
            final(self).project.subsets == old(self).project.subsets,
            final(self).project.info_types == old(self).project.info_types,
            final(self).project.aliases == old(self).project.aliases,
    {
        let n = t.len();
        let kd: [u8; 7] = [0x23, 0x64, 0x65, 0x66, 0x69, 0x6E, 0x65];
        let ki: [u8; 8] = [0x23, 0x69, 0x6E, 0x63, 0x6C, 0x75, 0x64, 0x65];
        proof {
            assert(kd@ =~= kw_define());
            assert(ki@ =~= kw_include());
        }
        if crate::strutil::at_pos(t, &kd, 0) {
            let rest = trim_range(t, 7, n);
            let sp = find_blank_exec(&rest, 0);
            if sp < rest.len() {
                let name = trim_range(&rest, 0, sp);
                let v = trim_range(&rest, sp, rest.len());
                let id = match parse_whole_number(&v) {
                    Some(x) => x,
                    None => 0,
                };
                self.project.map_defs.push((name, id));
                proof {
                    assert(self.project.map_defs@.drop_last() =~= old(self).project.map_defs@);
                }
            }
            return LineAction::Done;
        }
        proof {
            if t@.len() >= 7 {
                assert(t@.subrange(0, 7) != kw_define());
            }
        }
        if crate::strutil::at_pos(t, &ki, 0) {
            let inc0 = trim_range(t, 8, n);
            let inc = if inc0.len() > 0 && (inc0[0] == 0x22 || inc0[0] == 0x3C) {
                copy_range(&inc0, 1, inc0.len() - 1)
            } else {
                inc0
            };
            let path = join(&self.project.dir, &slashes(&inc));
            return LineAction::IncludeMap(path);
        }
        LineAction::Done
    }

    /// Feeds one line of the project file.
    pub fn feed_line(&mut self, line: &[u8]) -> (r: LineAction)
        requires
            old(self).accepts(line@),
        ensures
            final(self).project.dir == old(self).project.dir,
            ({
                let t = trimmed(line@);
                let p0 = old(self).project;
                let p1 = final(self).project;
                let sec = old(self).section@;
                if t.len() == 0 || t[0] == 0x3B {
                    &&& *final(self) == *old(self)
                    &&& r is Done
                } else if is_header(t) {
                    &&& final(self).section@ == lc_seq(t.subrange(1, t.len() - 1))
                    &&& p1 == p0
                    &&& final(self).seen == old(self).seen
                    &&& r is Done
                } else {
                    &&& final(self).section == old(self).section
                    &&& (sec == kw_options() ==> option_step(t, p0.options@, p1.options@))
                    &&& (sec == kw_files() ==> files_step(
                        t,
                        old(self).seen@,
                        final(self).seen@,
                        p0.files@,
                        p1.files@,
                    ))
                    &&& (sec == kw_windows() ==> p1.window_lines@ == p0.window_lines@.push(
                        p1.window_lines@.last(),
                    ) && p1.window_lines@.last()@ == t)
                    &&& (sec == kw_alias() ==> alias_step(
                        p0.dir@,
                        t,
                        p0.aliases@,
                        p1.aliases@,
                        r,
                    ))
                    &&& (sec == kw_map() ==> map_step(
                        p0.dir@,
                        t,
                        p0.map_defs@,
                        p1.map_defs@,
                        r,
                    ))
                    &&& (sec == kw_merge() ==> p1.merge_files@ == p0.merge_files@.push(
                        p1.merge_files@.last(),
                    ) && p1.merge_files@.last()@ == slashes_spec(t))
                    &&& (sec == kw_subsets() ==> p1.subsets@ == p0.subsets@.push(
                        p1.subsets@.last(),
                    ) && p1.subsets@.last()@ == t)
                    &&& (sec == kw_infotypes() ==> p1.info_types@ == p0.info_types@.push(
                        p1.info_types@.last(),
                    ) && p1.info_types@.last()@ == t)
                    &&& (sec != kw_alias() && sec != kw_map() ==> r is Done)
                    &&& (sec != kw_options() ==> p1.options == p0.options)
                    &&& (sec != kw_files() ==> p1.files == p0.files && final(self).seen
                        == old(self).seen)
                    &&& (sec != kw_windows() ==> p1.window_lines == p0.window_lines)
                    &&& (sec != kw_alias() ==> p1.aliases == p0.aliases)
                    &&& (sec != kw_map() ==> p1.map_defs == p0.map_defs)
                    &&& (sec != kw_merge() ==> p1.merge_files == p0.merge_files)
                    &&& (sec != kw_subsets() ==> p1.subsets == p0.subsets)
                    &&& (sec != kw_infotypes() ==> p1.info_types == p0.info_types)
                }
            }),
    {
        let t = trim(line);
        let n = t.len();
        if n == 0 || t[0] == 0x3B {
            return LineAction::Done;
        }
        if n >= 2 && t[0] == 0x5B && t[n - 1] == 0x5D {
            self.section = lower(&copy_range(&t, 1, n - 1));
            return LineAction::Done;
        }
        if is_kw_options(&self.section) {
            let eq = find_byte_exec(&t, 0x3D, 0);
            if eq < n {
                let k = lower(&trim_range(&t, 0, eq));
                let v = trim_range(&t, eq + 1, n);
                set_option(&mut self.project.options, k, v);
            }
            LineAction::Done
        } else if is_kw_files(&self.section) {
            let f = slashes(&t);
            let key = lower(&f);
            if !has_entry(&self.seen, &key) {
                self.seen.push(key);
                self.project.files.push(f);
                proof {
                    assert(self.seen@.drop_last() =~= old(self).seen@);
                    assert(self.project.files@.drop_last() =~= old(self).project.files@);
                }
            }
            LineAction::Done
        } else if is_kw_windows(&self.section) {
            self.project.window_lines.push(t);
            LineAction::Done
        } else if is_kw_alias(&self.section) {
            self.alias_line(&t)
        } else if is_kw_map(&self.section) {
            self.map_line(&t)
        } else if is_kw_merge(&self.section) {
            self.project.merge_files.push(slashes(&t));
            LineAction::Done
        } else if is_kw_subsets(&self.section) {
            self.project.subsets.push(t);
            LineAction::Done
        } else if is_kw_infotypes(&self.section) {
            self.project.info_types.push(t);
            LineAction::Done
        } else {
            LineAction::Done
        }
    }

    /// Feeds one line of a file that an [ALIAS] `#include` named: blank lines and
    /// `;` comments are skipped, the rest read as [ALIAS] lines.
    pub fn feed_alias_line(&mut self, line: &[u8]) -> (r: LineAction)
        ensures
            ({
                let t = trimmed(line@);
                if t.len() == 0 || t[0] == 0x3B {
                    *final(self) == *old(self) && r is Done
                } else {
                    alias_step(
                        old(self).project.dir@,
                        t,
                        old(self).project.aliases@,
                        final(self).project.aliases@,
                        r,
                    )
                }
            }),
            final(self).section == old(self).section,
            final(self).seen == old(self).seen,
            final(self).project.dir == old(self).project.dir,
            final(self).project.options == old(self).project.options,
            final(self).project.files == old(self).project.files,
            final(self).project.map_defs == old(self).project.map_defs,
    {
        let t = trim(line);
        if t.len() == 0 || t[0] == 0x3B {
            return LineAction::Done;
        }
        self.alias_line(&t)
    }

    /// Feeds one line of a file that a [MAP] `#include` named: blank lines are
    /// skipped, the rest read as [MAP] lines.
    pub fn feed_map_line(&mut self, line: &[u8]) -> (r: LineAction)
        requires
            map_line_ok(trimmed(line@)),
        ensures
            ({
                let t = trimmed(line@);
                if t.len() == 0 {
                    *final(self) == *old(self) && r is Done
                } else {
                    map_step(
                        old(self).project.dir@,
                        t,
                        old(self).project.map_defs@,
                        final(self).project.map_defs@,
                        r,
                    )
                }
            }),
            final(self).section == old(self).section,
            final(self).seen == old(self).seen,
            final(self).project.dir == old(self).project.dir,
            final(self).project.options == old(self).project.options,
            final(self).project.files == old(self).project.files,
            final(self).project.aliases == old(self).project.aliases,
    {
        let t = trim(line);
        if t.len() == 0 {
            return LineAction::Done;
        }
        self.map_line(&t)
    }

    /// Whether `feed_map_line` can take `line`.
    pub fn map_line_accepted(line: &[u8]) -> (r: bool)
        ensures
            r == map_line_ok(trimmed(line@)),
    {
        let t = trim(line);
        map_ok(&t)
    }
}

fn map_ok(t: &Vec<u8>) -> (r: bool)
    ensures
        r == map_line_ok(t@),
{
    let ki: [u8; 8] = [0x23, 0x69, 0x6E, 0x63, 0x6C, 0x75, 0x64, 0x65];
    proof {
        assert(ki@ =~= kw_include());
    }
    if !crate::strutil::at_pos(t, &ki, 0) {
        return true;
    }
    let inc = trim_range(t, 8, t.len());
    !(inc.len() == 1 && (inc[0] == 0x22 || inc[0] == 0x3C))
}

/// The whole of `v` read as a number (hex after `0x`, else decimal).
fn parse_whole_number(v: &Vec<u8>) -> (r: Option<u32>)
    ensures
        r == number_of(v@),
{
    let n = v.len();
    proof {
        assert(v@.subrange(0, n as int) =~= v@);
    }
    if n >= 2 && v[0] == 0x30 && (v[1] == 0x78 || v[1] == 0x58) {
        crate::sitemap::parse_radix(v, 2, n, 16)
    } else {
        crate::sitemap::parse_radix(v, 0, n, 10)
    }
}

/// An [OPTIONS] line `name = value` sets the lower-cased name to the value.
pub open spec fn option_step(t: Seq<u8>, before: Seq<(Vec<u8>, Vec<u8>)>, after: Seq<
    (Vec<u8>, Vec<u8>),
>) -> bool {
    let eq = find_byte(t, 0x3D, 0);
    if eq < t.len() {
        let k = lc_seq(trimmed(t.subrange(0, eq)));
        let v = trimmed(t.subrange(eq + 1, t.len() as int));
        &&& lookup(after, k) == v
        &&& forall|k2: Seq<u8>| k2 != k ==> #[trigger] lookup(after, k2) == lookup(before, k2)
    } else {
        after == before
    }
}

/// A [FILES] line adds its path (slashes forward) unless it is there already, ASCII
/// case ignored.
pub open spec fn files_step(t: Seq<u8>, seen0: Seq<Vec<u8>>, seen1: Seq<Vec<u8>>, files0: Seq<
    Vec<u8>,
>, files1: Seq<Vec<u8>>) -> bool {
    let f = slashes_spec(t);
    let key = lc_seq(f);
    if seen_has(seen0, key) {
        seen1 == seen0 && files1 == files0
    } else {
        &&& seen1.len() == seen0.len() + 1
        &&& seen1.drop_last() == seen0
        &&& seen1.last()@ == key
        &&& files1.len() == files0.len() + 1
        &&& files1.drop_last() == files0
        &&& files1.last()@ == f
    }
}

fn has_entry(seen: &Vec<Vec<u8>>, key: &Vec<u8>) -> (r: bool)
    ensures
        r == seen_has(seen@, key@),
{
    let n = seen.len();
    let mut i: usize = 0;
    while i < n
        invariant
            i <= n,
            n == seen@.len(),
            forall|j: int| 0 <= j < i ==> seen@[j]@ != key@,
        decreases n - i,
    {
        if eq_bytes(&seen[i], key) {
            return true;
        }
        i = i + 1;
    }
    false
}

proof fn lemma_lookup_from_set(ps: Seq<(Vec<u8>, Vec<u8>)>, i: int, j: int, x: (Vec<u8>, Vec<u8>), k: Seq<u8>)
    requires
        0 <= i <= j < ps.len(),
        ps[j].0@ == x.0@,
        forall|q: int| i <= q < j ==> ps[q].0@ != x.0@,
    ensures
        crate::sitemap::lookup_from(ps.update(j, x), k, i) == if k == x.0@ {
            Some(x.1@)
        } else {
            crate::sitemap::lookup_from(ps, k, i)
        },
    decreases j - i,
{
    let ps2 = ps.update(j, x);
    if i < j {
        assert(ps2[i] == ps[i]);
        lemma_lookup_from_set(ps, i + 1, j, x, k);
    } else {
        lemma_lookup_from_update_after(ps, j, x, k, j + 1);
    }
}

proof fn lemma_lookup_from_update_after(ps: Seq<(Vec<u8>, Vec<u8>)>, j: int, x: (Vec<u8>, Vec<u8>), k: Seq<u8>, q: int)
    requires
        0 <= j < ps.len(),
        j < q,
    ensures
        crate::sitemap::lookup_from(ps.update(j, x), k, q) == crate::sitemap::lookup_from(ps, k, q),
    decreases ps.len() - q,
{
    if q < ps.len() {
        assert(ps.update(j, x)[q] == ps[q]);
        lemma_lookup_from_update_after(ps, j, x, k, q + 1);
    }
}

proof fn lemma_lookup_from_push(ps: Seq<(Vec<u8>, Vec<u8>)>, i: int, x: (Vec<u8>, Vec<u8>), k: Seq<u8>)
    requires
        0 <= i <= ps.len(),
        forall|q: int| i <= q < ps.len() ==> ps[q].0@ != x.0@,
    ensures
        crate::sitemap::lookup_from(ps.push(x), k, i) == if k == x.0@ && crate::sitemap::lookup_from(
            ps,
            k,
            i,
        ) is None {
            Some(x.1@)
        } else {
            crate::sitemap::lookup_from(ps, k, i)
        },
    decreases ps.len() - i,
{
    if i < ps.len() {
        assert(ps.push(x)[i] == ps[i]);
        lemma_lookup_from_push(ps, i + 1, x, k);
    } else {
        assert(ps.push(x)[i] == x);
        assert(crate::sitemap::lookup_from(ps.push(x), k, i + 1) is None);
    }
}

/// Sets option `k` to `v`: the pair named `k` gets the new value, or a pair is added.
fn set_option(opts: &mut Vec<(Vec<u8>, Vec<u8>)>, k: Vec<u8>, v: Vec<u8>)
    ensures
        lookup(final(opts)@, k@) == v@,
        forall|k2: Seq<u8>| k2 != k@ ==> #[trigger] lookup(final(opts)@, k2) == lookup(old(opts)@, k2),
{
    let n = opts.len();
    let mut i: usize = 0;
    while i < n
        invariant
            i <= n,
            n == opts@.len(),
            *opts == *old(opts),
            forall|q: int| 0 <= q < i ==> opts@[q].0@ != k@,
        decreases n - i,
    {
        if eq_bytes(&opts[i].0, &k) {
            let ghost o = opts@;
            let x = (k, v);
            let ghost xg = x;
            opts.set(i, x);
            proof {
                assert forall|k2: Seq<u8>| true implies #[trigger] lookup(opts@, k2) == if k2 == xg.0@ {
                    xg.1@
                } else {
                    lookup(o, k2)
                } by {
                    lemma_lookup_from_set(o, 0, i as int, xg, k2);
                }
            }
            return;
        }
        i = i + 1;
    }
    let ghost o = opts@;
    let x = (k, v);
    let ghost xg = x;
    opts.push(x);
    proof {
        assert forall|k2: Seq<u8>| true implies #[trigger] lookup(opts@, k2) == if k2 == xg.0@ {
            xg.1@
        } else {
            lookup(o, k2)
        } by {
            lemma_lookup_from_push(o, 0, xg, k2);
            if k2 == xg.0@ {
                assert(crate::sitemap::lookup_from(o, k2, 0) is None) by {
                    lemma_lookup_none(o, k2, 0);
                }
            }
        }
    }
}

proof fn lemma_lookup_none(ps: Seq<(Vec<u8>, Vec<u8>)>, k: Seq<u8>, i: int)
    requires
        0 <= i <= ps.len(),
        forall|q: int| i <= q < ps.len() ==> ps[q].0@ != k,
    ensures
        crate::sitemap::lookup_from(ps, k, i) is None,
    decreases ps.len() - i,
{
    if i < ps.len() {
        lemma_lookup_none(ps, k, i + 1);
    }
}

} // verus!
