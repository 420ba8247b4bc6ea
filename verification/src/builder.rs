//! Compiling a project: its settings, the walk that finds every file the project
//! reaches (the caller reads them), and the assembly of all internal files into the
//! sections and the archive image.
use vstd::prelude::*;
use vstd::string::StringSliceAdditionalSpecFns;
use crate::hhp::Project;
use crate::links::{dir_of, extract_refs, html_name, is_html_name, refs_of, resolve_ref, resolved};
use crate::sitemap::{
    attr_views, copy_vec, items_locals, items_view, lookup, parse_sitemap, site_run, site_start, tags_from, SiteMap,
};
use crate::strutil::{eq_bytes, eq_ignore_case, eq_nocase, lcid_of, lower, parse_int, parse_int_spec, parse_lcid, slashes, slashes_spec};
use crate::textenc::{codepage_for_lcid, lc_seq, lcid_codepage};

verus! {

/// What a compilation reports: files stored, section sizes and the archive's size.
pub struct Stats {
    pub file_count: usize,
    pub uncompressed: u64,
    pub compressed: u64,
    pub output: u64,
}

/// One project of a collection build and how it went.
pub struct CollectionMember {
    pub hhp: String,
    pub chm: String,
    pub is_master: bool,
    pub ok: bool,
    pub reused: bool,
    pub stats: Option<Stats>,
    pub err: String,
}

/// Why a compilation failed.
pub enum CompileError {
    /// The project lists no files.
    NoFiles,
    /// A file the project lists could not be read.
    MissingFile(Vec<u8>),
    /// The project exceeds what the archive format or this compiler can hold.
    TooLarge,
}

/// A project's language, codepage, contents and index files, and the files to start
/// from.
pub struct Setup {
    pub lcid: u32,
    pub cp: u32,
    pub hhc: Vec<u8>,
    pub hhk: Vec<u8>,
    pub files: Vec<Vec<u8>>,
}

/// The contents of each vector.
pub open spec fn vv(s: Seq<Vec<u8>>) -> Seq<Seq<u8>> {
    Seq::new(s.len(), |i: int| s[i]@)
}

/// Some entry of `files` is `f`, ASCII case ignored.
pub open spec fn has_nocase(files: Seq<Seq<u8>>, f: Seq<u8>) -> bool {
    exists|i: int| 0 <= i < files.len() && eq_nocase(#[trigger] files[i], f)
}

/// `files` with `f` added unless it is empty or there already.
pub open spec fn ensure_file(files: Seq<Seq<u8>>, f: Seq<u8>, after: Seq<Seq<u8>>) -> bool {
    if f.len() == 0 || has_nocase(files, f) {
        after == files
    } else {
        after == files.push(f)
    }
}

/// The codepage a project uses: its `Charset=` when set, else its language's.
pub open spec fn project_cp(options: Seq<(Vec<u8>, Vec<u8>)>) -> u32 {
    let cs = lookup(options, "charset".spec_bytes());
    if cs.len() == 0 {
        lcid_codepage(lcid_of(lookup(options, "language".spec_bytes())))
    } else {
        parse_int_spec(cs)
    }
}

fn has_file(files: &Vec<Vec<u8>>, f: &Vec<u8>) -> (r: bool)
    ensures
        r == has_nocase(vv(files@), f@),
{
    let n = files.len();
    let mut i: usize = 0;
    while i < n
        invariant
            i <= n,
            n == files@.len(),
            forall|j: int| 0 <= j < i ==> !eq_nocase(#[trigger] vv(files@)[j], f@),
        decreases n - i,
    {
        if eq_ignore_case(&files[i], f) {
            assert(vv(files@)[i as int] == files@[i as int]@);
            return true;
        }
        i = i + 1;
    }
    false
}

fn ensure_exec(files: &mut Vec<Vec<u8>>, f: &Vec<u8>)
    ensures
        ensure_file(vv(old(files)@), f@, vv(final(files)@)),
{
    if f.len() > 0 && !has_file(files, f) {
        files.push(copy_vec(f));
        proof {
            assert(vv(files@) =~= vv(old(files)@).push(f@));
        }
    } else {
        proof {
            assert(vv(files@) =~= vv(old(files)@));
        }
    }
}

/// Reads a project's settings: the language (0x409 by default), the codepage, the
/// contents and index files (slashes forward), and the files to start from — the
/// listed files, then the contents and index files unless listed; no files at all
/// is an error.
pub fn setup(p: &Project) -> (r: Result<Setup, CompileError>)
    ensures
        ({
            let hhc = slashes_spec(lookup(p.options@, "contents file".spec_bytes()));
            let hhk = slashes_spec(lookup(p.options@, "index file".spec_bytes()));
            match r {
                Ok(s) => {
                    &&& s.lcid == lcid_of(lookup(p.options@, "language".spec_bytes()))
                    &&& s.cp == project_cp(p.options@)
                    &&& s.hhc@ == hhc
                    &&& s.hhk@ == hhk
                    &&& s.files@.len() > 0
                    &&& exists|mid: Seq<Seq<u8>>| #[trigger] ensure_file(vv(p.files@), hhc, mid) && ensure_file(mid, hhk, vv(s.files@))
                },
                Err(e) => {
                    &&& e is NoFiles
                    &&& p.files@.len() == 0 && hhc.len() == 0 && hhk.len() == 0
                },
            }
        }),
{
    let lcid = parse_lcid(&p.opt("language".as_bytes()));
    let charset = p.opt("charset".as_bytes());
    let cp = if charset.len() == 0 { codepage_for_lcid(lcid) } else { parse_int(&charset) };
    let hhc = slashes(&p.opt("contents file".as_bytes()));
    let hhk = slashes(&p.opt("index file".as_bytes()));
    let mut files: Vec<Vec<u8>> = Vec::new();
    let n = p.files.len();
    let mut k: usize = 0;
    while k < n
        invariant
            k <= n,
            n == p.files@.len(),
            files@.len() == k,
            forall|j: int| 0 <= j < k ==> (#[trigger] files@[j])@ == p.files@[j]@,
        decreases n - k,
    {
        files.push(copy_vec(&p.files[k]));
        k = k + 1;
    }
    proof {
        assert(vv(files@) =~= vv(p.files@));
    }
    ensure_exec(&mut files, &hhc);
    let ghost mid = vv(files@);
    ensure_exec(&mut files, &hhk);
    if files.len() == 0 {
        proof {
            let fin = vv(files@);
            assert(fin.len() == 0);
            if hhk@.len() > 0 && !has_nocase(mid, hhk@) {
                assert(fin.len() == mid.len() + 1);
            }
            if hhk@.len() > 0 && has_nocase(mid, hhk@) {
                assert(mid.len() > 0);
            }
            assert(mid.len() == 0);
            if hhc@.len() > 0 && !has_nocase(vv(p.files@), hhc@) {
                assert(mid.len() == vv(p.files@).len() + 1);
            }
            if hhc@.len() > 0 && has_nocase(vv(p.files@), hhc@) {
                assert(vv(p.files@).len() > 0);
            }
            assert(vv(p.files@).len() == 0);
        }
        return Err(CompileError::NoFiles);
    }
    Ok(Setup { lcid, cp, hhc, hhk, files })
}

/// A file read for the archive: its path in the project and its bytes.
pub struct Loaded {
    pub rel: Vec<u8>,
    pub data: Vec<u8>,
}

/// The walk over the files a project reaches: the listed files first, then every
/// file a contents or index sitemap names or a topic links to, each path once (ASCII
/// case ignored).
pub struct Gatherer {
    pub queue: Vec<(Vec<u8>, bool)>,
    pub enqueued: Vec<Vec<u8>>,
    pub next: usize,
    pub loaded: Vec<Loaded>,
    pub toc: Option<SiteMap>,
    pub index: Option<SiteMap>,
    pub hhc: Vec<u8>,
    pub hhk: Vec<u8>,
}

/// Some path of `ps` is `f`, ASCII case ignored.
pub open spec fn has_lc(ps: Seq<Seq<u8>>, f: Seq<u8>) -> bool {
    exists|j: int| 0 <= j < ps.len() && lc_seq(#[trigger] ps[j]) == lc_seq(f)
}

/// The paths of `files` in order, each once (ASCII case ignored), empty ones left out.
pub open spec fn listed_queue(files: Seq<Seq<u8>>) -> Seq<Seq<u8>>
    decreases files.len(),
{
    if files.len() == 0 {
        Seq::empty()
    } else {
        let q = listed_queue(files.drop_last());
        let f = files.last();
        if f.len() == 0 || has_lc(q, f) { q } else { q.push(f) }
    }
}

/// The paths of a queue.
pub open spec fn queue_paths(q: Seq<(Vec<u8>, bool)>) -> Seq<Seq<u8>> {
    Seq::new(q.len(), |i: int| q[i].0@)
}

/// Some entry of `s` is `k`.
pub open spec fn seq_has(s: Seq<Vec<u8>>, k: Seq<u8>) -> bool {
    exists|i: int| 0 <= i < s.len() && (#[trigger] s[i])@ == k
}

/// The queue before and after `rel` is offered: an empty path or one already queued
/// (ASCII case ignored) changes nothing, any other is queued.
pub open spec fn offered(q0: Seq<(Vec<u8>, bool)>, e0: Seq<Vec<u8>>, q1: Seq<(Vec<u8>, bool)>, e1: Seq<Vec<u8>>, rel: Seq<u8>, explicit: bool) -> bool {
    if rel.len() == 0 || seq_has(e0, lc_seq(rel)) {
        q1 == q0 && e1 == e0
    } else {
        &&& q1.len() == q0.len() + 1
        &&& q1.drop_last() == q0
        &&& q1.last().0@ == rel
        &&& q1.last().1 == explicit
        &&& e1.len() == e0.len() + 1
        &&& e1.drop_last() == e0
        &&& e1.last()@ == lc_seq(rel)
    }
}

impl Gatherer {
    /// The queue and its record of queued paths agree, no path is queued twice, and
    /// the walk has not passed the queue's end.
    pub open spec fn wf(&self) -> bool {
        &&& self.queue@.len() == self.enqueued@.len()
        &&& self.next <= self.queue@.len()
        &&& forall|i: int| 0 <= i < self.queue@.len() ==> (#[trigger] self.enqueued@[i])@ == lc_seq(self.queue@[i].0@)
        &&& forall|i: int, j: int| 0 <= i < j < self.enqueued@.len() ==> (#[trigger] self.enqueued@[i])@ != (#[trigger] self.enqueued@[j])@
    }

    /// Queues `rel` unless it is empty or queued already.
    pub fn offer(&mut self, rel: Vec<u8>, explicit: bool)
        requires
            old(self).wf(),
        ensures
            final(self).wf(),
            offered(old(self).queue@, old(self).enqueued@, final(self).queue@, final(self).enqueued@, rel@, explicit),
            final(self).next == old(self).next,
            final(self).loaded == old(self).loaded,
            final(self).toc == old(self).toc,
            final(self).index == old(self).index,
            final(self).hhc == old(self).hhc,
            final(self).hhk == old(self).hhk,
    {
        if rel.len() == 0 {
            return;
        }
        let key = lower(&rel);
        let n = self.enqueued.len();
        let mut i: usize = 0;
        while i < n
            invariant
                i <= n,
                n == self.enqueued@.len(),
                *self == *old(self),
                self.wf(),
                key@ == lc_seq(rel@),
                forall|j: int| 0 <= j < i ==> (#[trigger] self.enqueued@[j])@ != key@,
            decreases n - i,
        {
            if eq_bytes(&self.enqueued[i], &key) {
                proof {
                    assert(seq_has(self.enqueued@, lc_seq(rel@)));
                }
                return;
            }
            i = i + 1;
        }
        let ghost q0 = self.queue@;
        let ghost e0 = self.enqueued@;
        self.enqueued.push(key);
        self.queue.push((rel, explicit));
        proof {
            assert(self.enqueued@.drop_last() =~= e0);
            assert(self.queue@.drop_last() =~= q0);
            assert forall|a: int, b: int| 0 <= a < b < self.enqueued@.len() implies (#[trigger] self.enqueued@[a])@ != (#[trigger] self.enqueued@[b])@ by {
                if b == e0.len() {
                    assert(self.enqueued@[a] == e0[a]);
                } else {
                    assert(self.enqueued@[a] == e0[a] && self.enqueued@[b] == e0[b]);
                }
            }
            assert forall|a: int| 0 <= a < self.queue@.len() implies (#[trigger] self.enqueued@[a])@ == lc_seq(self.queue@[a].0@) by {
                if a < q0.len() {
                    assert(self.enqueued@[a] == e0[a] && self.queue@[a] == q0[a]);
                }
            }
        }
    }

    /// A walk that starts from `files` (each queued as listed), with the contents
    /// file `hhc` and index file `hhk`.
    pub fn new(files: &Vec<Vec<u8>>, hhc: &Vec<u8>, hhk: &Vec<u8>) -> (g: Gatherer)
        ensures
            g.wf(),
            g.next == 0,
            g.loaded@.len() == 0,
            g.toc is None,
            g.index is None,
            g.hhc@ == hhc@,
            g.hhk@ == hhk@,
            forall|i: int| 0 <= i < files@.len() && files@[i]@.len() > 0 ==> seq_has(g.enqueued@, lc_seq(#[trigger] files@[i]@)),
            forall|i: int| 0 <= i < g.queue@.len() ==> (#[trigger] g.queue@[i]).1,
            queue_paths(g.queue@) == listed_queue(vv(files@)),
    {
        let mut g = Gatherer {
            queue: Vec::new(),
            enqueued: Vec::new(),
            next: 0,
            loaded: Vec::new(),
            toc: None,
            index: None,
            hhc: copy_vec(hhc),
            hhk: copy_vec(hhk),
        };
        let n = files.len();
        let mut k: usize = 0;
        while k < n
            invariant
                k <= n,
                n == files@.len(),
                g.wf(),
                g.next == 0,
                g.loaded@.len() == 0,
                g.toc is None,
                g.index is None,
                g.hhc@ == hhc@,
                g.hhk@ == hhk@,
                forall|i: int| 0 <= i < k && files@[i]@.len() > 0 ==> seq_has(g.enqueued@, lc_seq(#[trigger] files@[i]@)),
                forall|i: int| 0 <= i < g.queue@.len() ==> (#[trigger] g.queue@[i]).1,
                queue_paths(g.queue@) == listed_queue(vv(files@).take(k as int)),
            decreases n - k,
        {
            let ghost e0 = g.enqueued@;
            let ghost q0 = g.queue@;
            g.offer(copy_vec(&files[k]), true);
            proof {
                let f = files@[k as int]@;
                assert(vv(files@).take(k + 1).drop_last() =~= vv(files@).take(k as int));
                assert(vv(files@).take(k + 1).last() == f);
                assert(seq_has(e0, lc_seq(f)) == has_lc(queue_paths(q0), f)) by {
                    if seq_has(e0, lc_seq(f)) {
                        let w = choose|w: int| 0 <= w < e0.len() && (#[trigger] e0[w])@ == lc_seq(f);
                        assert(lc_seq(queue_paths(q0)[w]) == lc_seq(f));
                    }
                    if has_lc(queue_paths(q0), f) {
                        let w = choose|w: int| 0 <= w < queue_paths(q0).len() && lc_seq(#[trigger] queue_paths(q0)[w]) == lc_seq(f);
                        assert(e0[w]@ == lc_seq(f));
                    }
                }
                if !(f.len() == 0 || seq_has(e0, lc_seq(f))) {
                    assert(queue_paths(g.queue@) =~= queue_paths(q0).push(f));
                }
            }
            proof {
                assert forall|i: int| 0 <= i < g.queue@.len() implies (#[trigger] g.queue@[i]).1 by {
                    if i < q0.len() {
                        assert(g.queue@[i] == q0[i]);
                    }
                }
                assert forall|i: int| 0 <= i < k + 1 && files@[i]@.len() > 0 implies seq_has(g.enqueued@, lc_seq(#[trigger] files@[i]@)) by {
                    if i < k {
                        let w = choose|w: int| 0 <= w < e0.len() && (#[trigger] e0[w])@ == lc_seq(files@[i]@);
                        assert(g.enqueued@[w] == e0[w]);
                    } else if !seq_has(e0, lc_seq(files@[i]@)) {
                        assert(g.enqueued@[e0.len() as int]@ == lc_seq(files@[i]@));
                    } else {
                        let w = choose|w: int| 0 <= w < e0.len() && (#[trigger] e0[w])@ == lc_seq(files@[i]@);
                        assert(g.enqueued@[w] == e0[w]);
                    }
                }
            }
            k = k + 1;
        }
        proof {
            assert(vv(files@).take(n as int) =~= vv(files@));
        }
        g
    }

    /// The next file to read and whether the project listed it; `None` when every
    /// queued file has been handed out.
    pub fn next_request(&mut self) -> (r: Option<(Vec<u8>, bool)>)
        requires
            old(self).wf(),
        ensures
            final(self).wf(),
            final(self).queue == old(self).queue,
            final(self).enqueued == old(self).enqueued,
            final(self).loaded == old(self).loaded,
            final(self).toc == old(self).toc,
            final(self).index == old(self).index,
            final(self).hhc == old(self).hhc,
            final(self).hhk == old(self).hhk,
            match r {
                Some((rel, explicit)) => {
                    &&& old(self).next < old(self).queue@.len()
                    &&& rel@ == old(self).queue@[old(self).next as int].0@
                    &&& explicit == old(self).queue@[old(self).next as int].1
                    &&& final(self).next == old(self).next + 1
                },
                None => old(self).next == old(self).queue@.len() && final(self).next == old(self).next,
            },
    {
        if self.next >= self.queue.len() {
            return None;
        }
        let rel = copy_vec(&self.queue[self.next].0);
        let explicit = self.queue[self.next].1;
        self.next = self.next + 1;
        Some((rel, explicit))
    }

    /// Whether a file that cannot be read stops the compilation: it does when the
    /// project lists it; a file only linked to is skipped.
    pub fn missing_is_fatal(explicit: bool) -> (r: bool)
        ensures
            r == explicit,
    {
        explicit
    }
}

/// The queue only grows: what was queued stays, at its place.
pub open spec fn grows(e0: Seq<Vec<u8>>, e1: Seq<Vec<u8>>) -> bool {
    e0.len() <= e1.len() && forall|i: int| 0 <= i < e0.len() ==> #[trigger] e1[i] == e0[i]
}

impl Gatherer {
    /// Offers every path of `paths`, each resolved against `base`.
    fn offer_all(&mut self, base: &Vec<u8>, paths: &Vec<Vec<u8>>)
        requires
            old(self).wf(),
        ensures
            final(self).wf(),
            grows(old(self).enqueued@, final(self).enqueued@),
            forall|k: int| 0 <= k < paths@.len() && resolved(base@, #[trigger] paths@[k]@).len() > 0 ==> seq_has(
                final(self).enqueued@,
                lc_seq(resolved(base@, paths@[k]@)),
            ),
            final(self).next == old(self).next,
            final(self).loaded == old(self).loaded,
            final(self).toc == old(self).toc,
            final(self).index == old(self).index,
            final(self).hhc == old(self).hhc,
            final(self).hhk == old(self).hhk,
    {
        let n = paths.len();
        let mut k: usize = 0;
        proof {
            assert(grows(self.enqueued@, self.enqueued@));
        }
        while k < n
            invariant
                k <= n,
                n == paths@.len(),
                self.wf(),
                grows(old(self).enqueued@, self.enqueued@),
                forall|q: int| 0 <= q < k && resolved(base@, #[trigger] paths@[q]@).len() > 0 ==> seq_has(
                    self.enqueued@,
                    lc_seq(resolved(base@, paths@[q]@)),
                ),
                self.next == old(self).next,
                self.loaded == old(self).loaded,
                self.toc == old(self).toc,
                self.index == old(self).index,
                self.hhc == old(self).hhc,
                self.hhk == old(self).hhk,
            decreases n - k,
        {
            let ghost e0 = self.enqueued@;
            let target = resolve_ref(base, &paths[k]);
            self.offer(target, false);
            proof {
                assert(grows(e0, self.enqueued@));
                assert forall|q: int| 0 <= q < k + 1 && resolved(base@, #[trigger] paths@[q]@).len() > 0 implies seq_has(
                    self.enqueued@,
                    lc_seq(resolved(base@, paths@[q]@)),
                ) by {
                    if q < k {
                        let w = choose|w: int| 0 <= w < e0.len() && (#[trigger] e0[w])@ == lc_seq(resolved(base@, paths@[q]@));
                        assert(self.enqueued@[w] == e0[w]);
                    } else if seq_has(e0, lc_seq(resolved(base@, paths@[q]@))) {
                        let w = choose|w: int| 0 <= w < e0.len() && (#[trigger] e0[w])@ == lc_seq(resolved(base@, paths@[q]@));
                        assert(self.enqueued@[w] == e0[w]);
                    } else {
                        assert(self.enqueued@[e0.len() as int]@ == lc_seq(resolved(base@, paths@[q]@)));
                    }
                }
                assert forall|i: int| 0 <= i < old(self).enqueued@.len() implies #[trigger] self.enqueued@[i] == old(self).enqueued@[i] by {
                    assert(e0[i] == old(self).enqueued@[i]);
                }
            }
            k = k + 1;
        }
    }

    /// Takes in a file that was read: a contents or index sitemap queues the files
    /// its entries name; a topic queues the files it links to (resolved against its
    /// directory). The file is kept for the archive.
    pub fn accept(&mut self, rel: Vec<u8>, data: Vec<u8>)
        requires
            old(self).wf(),
        ensures
            final(self).wf(),
            grows(old(self).enqueued@, final(self).enqueued@),
            final(self).next == old(self).next,
            final(self).hhc == old(self).hhc,
            final(self).hhk == old(self).hhk,
            final(self).loaded@.len() == old(self).loaded@.len() + 1,
            forall|i: int| 0 <= i < old(self).loaded@.len() ==> #[trigger] final(self).loaded@[i] == old(self).loaded@[i],
            final(self).loaded@.last().rel@ == rel@,
            final(self).loaded@.last().data@ == data@,
            ({
                let is_hhc = lc_seq(rel@) == lc_seq(old(self).hhc@);
                let is_hhk = old(self).hhk@.len() > 0 && lc_seq(rel@) == lc_seq(old(self).hhk@);
                if is_hhc || is_hhk {
                    &&& (is_hhc ==> final(self).toc is Some && final(self).index == old(self).index)
                    &&& (!is_hhc ==> final(self).index is Some && final(self).toc == old(self).toc)
                    &&& ({
                        let sm = if is_hhc { final(self).toc->0 } else { final(self).index->0 };
                        &&& items_view(sm.items@) == site_run(tags_from(data@, 0), site_start()).stack[0]
                        &&& attr_views(sm.properties@) == site_run(tags_from(data@, 0), site_start()).props
                    })
                    &&& ({
                        let sm = if is_hhc { final(self).toc->0 } else { final(self).index->0 };
                        forall|k: int| 0 <= k < items_locals(sm.items@, 0).len() && resolved(Seq::empty(), #[trigger] items_locals(sm.items@, 0)[k]).len() > 0
                            ==> seq_has(final(self).enqueued@, lc_seq(resolved(Seq::empty(), items_locals(sm.items@, 0)[k])))
                    })
                } else {
                    &&& final(self).toc == old(self).toc
                    &&& final(self).index == old(self).index
                    &&& html_name(rel@) ==> forall|k: int| 0 <= k < refs_of(data@).len() && resolved(
                        rel@.subrange(0, crate::links::after_last_slash(rel@)),
                        #[trigger] refs_of(data@)[k],
                    ).len() > 0 ==> seq_has(
                        final(self).enqueued@,
                        lc_seq(resolved(rel@.subrange(0, crate::links::after_last_slash(rel@)), refs_of(data@)[k])),
                    )
                    &&& !html_name(rel@) ==> final(self).enqueued == old(self).enqueued
                }
            }),
    {
        let lrel = lower(&rel);
        let is_hhc = eq_bytes(&lrel, &lower(&self.hhc));
        let is_hhk = self.hhk.len() > 0 && eq_bytes(&lrel, &lower(&self.hhk));
        proof {
            assert(grows(self.enqueued@, self.enqueued@));
        }
        if is_hhc || is_hhk {
            let sm = parse_sitemap(&data);
            let mut locals: Vec<Vec<u8>> = Vec::new();
            sm.collect_locals(&mut locals);
            let empty: Vec<u8> = Vec::new();
            self.offer_all(&empty, &locals);
            proof {
                assert forall|k: int| 0 <= k < items_locals(sm.items@, 0).len() && resolved(Seq::empty(), #[trigger] items_locals(sm.items@, 0)[k]).len() > 0
                    implies seq_has(self.enqueued@, lc_seq(resolved(Seq::empty(), items_locals(sm.items@, 0)[k]))) by {
                    assert(locals@[0 + k]@ == items_locals(sm.items@, 0)[k]);
                    assert(empty@ =~= Seq::<u8>::empty());
                }
            }
            if is_hhc {
                self.toc = Some(sm);
            } else {
                self.index = Some(sm);
            }
        } else if is_html_name(&rel) {
            let refs = extract_refs(&data);
            let base = dir_of(&rel);
            self.offer_all(&base, &refs);
            proof {
                assert forall|k: int| 0 <= k < refs_of(data@).len() && resolved(
                    rel@.subrange(0, crate::links::after_last_slash(rel@)),
                    #[trigger] refs_of(data@)[k],
                ).len() > 0 implies seq_has(
                    self.enqueued@,
                    lc_seq(resolved(rel@.subrange(0, crate::links::after_last_slash(rel@)), refs_of(data@)[k])),
                ) by {
                    assert(refs@[k]@ == refs_of(data@)[k]);
                }
            }
        }
        let ghost l0 = self.loaded@;
        self.loaded.push(Loaded { rel, data });
        proof {
            assert forall|i: int| 0 <= i < old(self).loaded@.len() implies #[trigger] self.loaded@[i] == old(self).loaded@[i] by {
                assert(self.loaded@[i] == l0[i]);
            }
        }
    }

    /// The files read, in order, and the contents and index sitemaps.
    pub fn finish(self) -> (r: (Vec<Loaded>, Option<SiteMap>, Option<SiteMap>))
        ensures
            r.0 == self.loaded,
            r.1 == self.toc,
            r.2 == self.index,
    {
        (self.loaded, self.toc, self.index)
    }
}

/// The index just past the last `.` of `s`, 0 when there is none.
pub open spec fn after_last_dot(s: Seq<u8>) -> int
    decreases s.len(),
{
    if s.len() == 0 {
        0
    } else if s.last() == 0x2E {
        s.len() as int
    } else {
        after_last_dot(s.drop_last())
    }
}

proof fn lemma_after_last_dot(s: Seq<u8>)
    ensures
        0 <= after_last_dot(s) <= s.len(),
        after_last_dot(s) > 0 ==> s[after_last_dot(s) - 1] == 0x2E,
    decreases s.len(),
{
    if s.len() > 0 && s.last() != 0x2E {
        lemma_after_last_dot(s.drop_last());
    }
}

/// The file name of a path without its extension: the part after the last `/`, cut
/// before its last `.` unless that dot starts the name.
pub open spec fn stem_of(path: Seq<u8>) -> Seq<u8> {
    let name = path.subrange(crate::links::after_last_slash(path), path.len() as int);
    let d = after_last_dot(name);
    if d > 1 { name.subrange(0, d - 1) } else { name }
}

/// The name a merged file's archive and project go by: the part of `mf` after its
/// last `/`, cut before its last `.` when it has one.
pub open spec fn merge_stem(mf: Seq<u8>) -> Seq<u8> {
    let name = mf.subrange(crate::links::after_last_slash(mf), mf.len() as int);
    let d = after_last_dot(name);
    if d > 0 { name.subrange(0, d - 1) } else { name }
}

/// The name a merged file of a collection goes by (see `merge_stem`).
pub fn merge_name(mf: &[u8]) -> (r: Vec<u8>)
    ensures
        r@ == merge_stem(mf@),
{
    let mut j = mf.len();
    proof {
        crate::links::lemma_after_last_slash_pub(mf@);
        assert(mf@.subrange(0, j as int) =~= mf@);
    }
    while j > 0 && mf[j - 1] != 0x2F
        invariant
            j <= mf@.len(),
            crate::links::after_last_slash(mf@.subrange(0, j as int)) == crate::links::after_last_slash(mf@),
        decreases j,
    {
        proof {
            assert(mf@.subrange(0, j as int).drop_last() =~= mf@.subrange(0, j - 1));
        }
        j = j - 1;
    }
    proof {
        if j > 0 {
            assert(mf@.subrange(0, j as int).last() == 0x2F);
        }
    }
    let name = crate::sitemap::copy_range(mf, j, mf.len());
    let mut d = name.len();
    proof {
        lemma_after_last_dot(name@);
        assert(name@.subrange(0, d as int) =~= name@);
    }
    while d > 0 && name[d - 1] != 0x2E
        invariant
            d <= name@.len(),
            after_last_dot(name@.subrange(0, d as int)) == after_last_dot(name@),
        decreases d,
    {
        proof {
            assert(name@.subrange(0, d as int).drop_last() =~= name@.subrange(0, d - 1));
        }
        d = d - 1;
    }
    if d > 0 {
        crate::sitemap::copy_range(&name, 0, d - 1)
    } else {
        name
    }
}

/// Where a collection member is looked for: its archive `dir` `stem` `.chm`, its
/// project beside it `dir` `stem` `.hhp`, or in a directory of its own
/// `dir` `stem` `/` `stem` `.hhp`.
pub fn member_paths(dir: &[u8], stem: &[u8]) -> (r: (Vec<u8>, Vec<u8>, Vec<u8>))
    ensures
        r.0@ == dir@ + stem@ + seq![0x2Eu8, 0x63, 0x68, 0x6D],
        r.1@ == dir@ + stem@ + seq![0x2Eu8, 0x68, 0x68, 0x70],
        r.2@ == dir@ + stem@ + seq![0x2Fu8] + stem@ + seq![0x2Eu8, 0x68, 0x68, 0x70],
{
    let chm_ext: [u8; 4] = [0x2E, 0x63, 0x68, 0x6D];
    let hhp_ext: [u8; 4] = [0x2E, 0x68, 0x68, 0x70];
    let slash: [u8; 1] = [0x2F];
    let mut base = vstd::slice::slice_to_vec(dir);
    append(&mut base, stem);
    let mut chm = base.clone();
    append(&mut chm, &chm_ext);
    let mut flat = base.clone();
    append(&mut flat, &hhp_ext);
    let mut nested = base.clone();
    append(&mut nested, &slash);
    append(&mut nested, stem);
    append(&mut nested, &hhp_ext);
    proof {
        assert(chm_ext@ =~= seq![0x2Eu8, 0x63, 0x68, 0x6D]);
        assert(hhp_ext@ =~= seq![0x2Eu8, 0x68, 0x68, 0x70]);
        assert(slash@ =~= seq![0x2Fu8]);
    }
    (chm, flat, nested)
}

/// What a collection build does with one merged file.
pub enum MemberStep {
    /// Compile the project `hhp` into the archive `chm`.
    Compile { hhp: Vec<u8>, chm: Vec<u8> },
    /// No project found: use the prebuilt archive `chm` if there is one (`ok`), else
    /// report `err`.
    Reuse { chm: Vec<u8>, ok: bool, err: Vec<u8> },
}

/// `no <name>.hhp and no prebuilt <name>.chm`.
pub open spec fn missing_member_msg(name: Seq<u8>) -> Seq<u8> {
    seq![0x6Eu8, 0x6F, 0x20] + name + seq![
        0x2Eu8, 0x68, 0x68, 0x70, 0x20, 0x61, 0x6E, 0x64, 0x20, 0x6E, 0x6F, 0x20, 0x70, 0x72, 0x65, 0x62, 0x75, 0x69,
        0x6C, 0x74, 0x20,
    ] + name + seq![0x2Eu8, 0x63, 0x68, 0x6D]
}

/// Decides what to do with merged file `mf` of a collection whose master project is
/// in `dir`, given which of its flat project, nested project and prebuilt archive
/// exist: the flat project first, then the nested one, else the prebuilt archive.
pub fn plan_member(dir: &[u8], mf: &[u8], flat_exists: bool, nested_exists: bool, chm_exists: bool) -> (s: MemberStep)
    ensures
        ({
            let stem = merge_stem(mf@);
            let chm = dir@ + stem + seq![0x2Eu8, 0x63, 0x68, 0x6D];
            let flat = dir@ + stem + seq![0x2Eu8, 0x68, 0x68, 0x70];
            let nested = dir@ + stem + seq![0x2Fu8] + stem + seq![0x2Eu8, 0x68, 0x68, 0x70];
            &&& flat_exists ==> (s matches MemberStep::Compile { hhp, chm: c } && hhp@ == flat && c@ == chm)
            &&& !flat_exists && nested_exists ==> (s matches MemberStep::Compile { hhp, chm: c } && hhp@ == nested && c@ == chm)
            &&& !flat_exists && !nested_exists ==> (s matches MemberStep::Reuse { chm: c, ok, err } && c@ == chm && ok
                == chm_exists && err@ == (if chm_exists { Seq::<u8>::empty() } else { missing_member_msg(stem) }))
        }),
{
    let stem = merge_name(mf);
    let (chm, flat, nested) = member_paths(dir, &stem);
    if flat_exists {
        MemberStep::Compile { hhp: flat, chm }
    } else if nested_exists {
        MemberStep::Compile { hhp: nested, chm }
    } else {
        let mut err: Vec<u8> = Vec::new();
        if !chm_exists {
            let no: [u8; 3] = [0x6E, 0x6F, 0x20];
            let mid: [u8; 21] = [
                0x2E, 0x68, 0x68, 0x70, 0x20, 0x61, 0x6E, 0x64, 0x20, 0x6E, 0x6F, 0x20, 0x70, 0x72, 0x65, 0x62, 0x75,
                0x69, 0x6C, 0x74, 0x20,
            ];
            let ext: [u8; 4] = [0x2E, 0x63, 0x68, 0x6D];
            append(&mut err, &no);
            append(&mut err, &stem);
            append(&mut err, &mid);
            append(&mut err, &stem);
            append(&mut err, &ext);
            proof {
                assert(no@ =~= seq![0x6Eu8, 0x6F, 0x20]);
                assert(mid@ =~= seq![
                    0x2Eu8, 0x68, 0x68, 0x70, 0x20, 0x61, 0x6E, 0x64, 0x20, 0x6E, 0x6F, 0x20, 0x70, 0x72, 0x65, 0x62, 0x75,
                    0x69, 0x6C, 0x74, 0x20,
                ]);
                assert(ext@ =~= seq![0x2Eu8, 0x63, 0x68, 0x6D]);
                assert(err@ =~= missing_member_msg(stem@));
            }
        }
        MemberStep::Reuse { chm, ok: chm_exists, err }
    }
}

/// The record of a member that was compiled from `hhp` into `chm`, with the outcome
/// `r`: its statistics, or the error message.
pub fn member_result(hhp: String, chm: String, r: Result<Stats, String>) -> (m: CollectionMember)
    ensures
        m.hhp@ == hhp@,
        m.chm@ == chm@,
        !m.is_master,
        !m.reused,
        m.ok == r is Ok,
        r matches Ok(st) ==> m.stats == Some(st) && m.err@.len() == 0,
        r matches Err(e) ==> m.stats is None && m.err@ == e@,
{
    match r {
        Ok(st) => CollectionMember { hhp, chm, is_master: false, ok: true, reused: false, stats: Some(st), err: String::new() },
        Err(e) => CollectionMember { hhp, chm, is_master: false, ok: false, reused: false, stats: None, err: e },
    }
}

/// Where the archive is written: the path given on the command line, else the
/// project's `Compiled file` in its directory, else the project's name with `.chm`.
pub open spec fn output_path_spec(dir: Seq<u8>, compiled: Seq<u8>, hhp_path: Seq<u8>, out_override: Seq<u8>) -> Seq<u8> {
    if out_override.len() > 0 {
        out_override
    } else if slashes_spec(compiled).len() > 0 {
        dir + slashes_spec(compiled)
    } else {
        dir + stem_of(hhp_path) + seq![0x2Eu8, 0x63, 0x68, 0x6D]
    }
}

fn append(out: &mut Vec<u8>, s: &[u8])
    ensures
        final(out)@ == old(out)@ + s@,
{
    let n = s.len();
    let mut k: usize = 0;
    while k < n
        invariant
            k <= n,
            n == s@.len(),
            out@ == old(out)@ + s@.subrange(0, k as int),
        decreases n - k,
    {
        out.push(s[k]);
        k = k + 1;
        assert(out@ =~= old(out)@ + s@.subrange(0, k as int));
    }
    assert(s@.subrange(0, n as int) =~= s@);
}

/// The path the archive of project `p` (read from `hhp_path`) is written to.
pub fn output_path(p: &Project, hhp_path: &[u8], out_override: &[u8]) -> (r: Vec<u8>)
    ensures
        r@ == output_path_spec(p.dir@, lookup(p.options@, "compiled file".spec_bytes()), hhp_path@, out_override@),
{
    if out_override.len() > 0 {
        return vstd::slice::slice_to_vec(out_override);
    }
    let compiled = slashes(&p.opt("compiled file".as_bytes()));
    let mut r = copy_vec(&p.dir);
    if compiled.len() > 0 {
        append(&mut r, &compiled);
        return r;
    }
    let name_start = {
        let mut j = hhp_path.len();
        proof {
            crate::links::lemma_after_last_slash_pub(hhp_path@);
            assert(hhp_path@.subrange(0, j as int) =~= hhp_path@);
        }
        while j > 0 && hhp_path[j - 1] != 0x2F
            invariant
                j <= hhp_path@.len(),
                crate::links::after_last_slash(hhp_path@.subrange(0, j as int)) == crate::links::after_last_slash(hhp_path@),
            decreases j,
        {
            proof {
                assert(hhp_path@.subrange(0, j as int).drop_last() =~= hhp_path@.subrange(0, j - 1));
            }
            j = j - 1;
        }
        proof {
            if j > 0 {
                assert(hhp_path@.subrange(0, j as int).last() == 0x2F);
            }
        }
        j
    };
    let name = crate::sitemap::copy_range(hhp_path, name_start, hhp_path.len());
    let mut d = name.len();
    proof {
        lemma_after_last_dot(name@);
        assert(name@.subrange(0, d as int) =~= name@);
    }
    while d > 0 && name[d - 1] != 0x2E
        invariant
            d <= name@.len(),
            after_last_dot(name@.subrange(0, d as int)) == after_last_dot(name@),
        decreases d,
    {
        proof {
            assert(name@.subrange(0, d as int).drop_last() =~= name@.subrange(0, d - 1));
        }
        d = d - 1;
    }
    proof {
        if d > 0 {
            assert(name@.subrange(0, d as int).last() == 0x2E);
        }
    }
    if d > 1 {
        append(&mut r, vstd::slice::slice_subrange(name.as_slice(), 0, d - 1));
    } else {
        append(&mut r, &name);
    }
    let ext: [u8; 4] = [0x2E, 0x63, 0x68, 0x6D];
    append(&mut r, &ext);
    proof {
        assert(ext@ =~= seq![0x2Eu8, 0x63, 0x68, 0x6D]);
    }
    r
}

} // verus!
