//! ITSF/ITSP container writer: the sorted directory in PMGL listing chunks with a
//! PMGI index above them, the ITSF and ITSP headers, then the content sections.
use vstd::prelude::*;
use crate::bytebuf::{encint, encint_spec, le32_at, u16_le, u32_le, u64_le, i32_le, Buf};
use crate::chmreader::{chunk_region, header_ok, listing_bytes, ChmEntry, itsp_at, itsp_magic, itsf_magic, le64_at, listing_of, magic_at, pmgl_magic};

verus! {

/// One file of the archive being written: its name (bytes), content section (0
/// stored, 1 compressed), and offset and size in that section.
#[derive(Clone)]
pub struct DirEntry {
    pub name: Vec<u8>,
    pub section: u32,
    pub offset: u64,
    pub size: u64,
}

/// Bytes per directory chunk.
pub const CHUNK: usize = 0x1000;
/// Header bytes of a listing chunk.
pub const PMGL_HDR: usize = 0x14;
/// Header bytes of an index chunk.
pub const PMGI_HDR: usize = 0x08;
/// A quick-reference offset is kept for every fifth entry.
pub const QR_STRIDE: usize = 5;

/// ASCII upper case folded to lower case.
pub open spec fn lower_spec(c: u8) -> u8 {
    if 65 <= c <= 90 { (c + 32) as u8 } else { c }
}

fn lower(c: u8) -> (r: u8)
    ensures
        r == lower_spec(c),
{
    if 65 <= c && c <= 90 { c + 32 } else { c }
}

/// Case-insensitive (ASCII) lexicographic order, comparing from index `i` on: the
/// first differing folded byte decides; otherwise the shorter name is less.
pub open spec fn name_lt_from(a: Seq<u8>, b: Seq<u8>, i: int) -> bool
    decreases a.len() - i,
{
    if i < 0 || i >= a.len() || i >= b.len() {
        a.len() < b.len()
    } else if lower_spec(a[i]) != lower_spec(b[i]) {
        lower_spec(a[i]) < lower_spec(b[i])
    } else {
        name_lt_from(a, b, i + 1)
    }
}

/// The directory order of names.
pub open spec fn name_lt(a: Seq<u8>, b: Seq<u8>) -> bool {
    name_lt_from(a, b, 0)
}

/// Whether `a` sorts before `b` in the directory.
pub fn name_less(a: &[u8], b: &[u8]) -> (r: bool)
    ensures
        r == name_lt(a@, b@),
{
    let n = if a.len() < b.len() { a.len() } else { b.len() };
    let mut i: usize = 0;
    while i < n
        invariant
            i <= n,
            n <= a@.len(),
            n <= b@.len(),
            n == a@.len() || n == b@.len(),
            name_lt(a@, b@) == name_lt_from(a@, b@, i as int),
        decreases n - i,
    {
        let ca = lower(a[i]);
        let cb = lower(b[i]);
        if ca != cb {
            return ca < cb;
        }
        i = i + 1;
    }
    a.len() < b.len()
}

/// The order never holds both ways.
pub proof fn lemma_name_lt_asym(a: Seq<u8>, b: Seq<u8>, i: int)
    requires
        0 <= i,
        name_lt_from(a, b, i),
    ensures
        !name_lt_from(b, a, i),
    decreases a.len() - i,
{
    if i < a.len() && i < b.len() && lower_spec(a[i]) == lower_spec(b[i]) {
        lemma_name_lt_asym(a, b, i + 1);
    }
}

/// The order is transitive.
pub proof fn lemma_name_lt_trans(a: Seq<u8>, b: Seq<u8>, c: Seq<u8>, i: int)
    requires
        0 <= i,
        name_lt_from(a, b, i),
        name_lt_from(b, c, i),
    ensures
        name_lt_from(a, c, i),
    decreases a.len() - i,
{
    if i < a.len() && i < b.len() && i < c.len() && lower_spec(a[i]) == lower_spec(b[i])
        && lower_spec(b[i]) == lower_spec(c[i]) {
        lemma_name_lt_trans(a, b, c, i + 1);
    }
}

/// Names in directory order: none sorts before one that comes earlier.
pub open spec fn sorted_names(s: Seq<DirEntry>) -> bool {
    forall|x: int, y: int| 0 <= x < y < s.len() ==> !name_lt(#[trigger] s[y].name@, #[trigger] s[x].name@)
}

/// The entries in directory order, ties kept in their given order.
pub fn sort_entries(entries: Vec<DirEntry>) -> (out: Vec<DirEntry>)
    ensures
        out@.to_multiset() == entries@.to_multiset(),
        sorted_names(out@),
{
    let ghost all = entries@;
    let mut rest = entries;
    let mut out: Vec<DirEntry> = Vec::new();
    let n = rest.len();
    let mut k: usize = 0;
    proof {
        assert(all.take(0) =~= Seq::<DirEntry>::empty());
        assert(all.skip(0) =~= all);
    }
    while k < n
        invariant
            k <= n,
            n == all.len(),
            rest@ == all.skip(k as int),
            out@.to_multiset() == all.take(k as int).to_multiset(),
            sorted_names(out@),
        decreases n - k,
    {
        let x = rest.remove(0);
        proof {
            assert(x == all[k as int]);
            assert(rest@ =~= all.skip(k + 1));
        }
        let m = out.len();
        let mut p: usize = 0;
        while p < m && !name_less(x.name.as_slice(), out[p].name.as_slice())
            invariant
                p <= m,
                m == out@.len(),
                forall|j: int| 0 <= j < p ==> !name_lt(x.name@, #[trigger] out@[j].name@),
            decreases m - p,
        {
            p = p + 1;
        }
        let ghost o = out@;
        proof {
            assert forall|y: int| p <= y < m implies !name_lt(#[trigger] o[y].name@, x.name@) by {
                if name_lt(o[y].name@, x.name@) {
                    if y == p {
                        lemma_name_lt_asym(o[y].name@, x.name@, 0);
                    } else {
                        assert(!name_lt(o[y].name@, o[p as int].name@));
                        lemma_name_lt_trans(o[y].name@, x.name@, o[p as int].name@, 0);
                    }
                }
            }
        }
        out.insert(p, x);
        proof {
            vstd::seq_lib::to_multiset_insert(o, p as int, x);
            vstd::seq_lib::to_multiset_build(all.take(k as int), all[k as int]);
            assert(all.take(k + 1) =~= all.take(k as int).push(all[k as int]));
            assert forall|a: int, b: int| 0 <= a < b < out@.len() implies !name_lt(#[trigger] out@[b].name@, #[trigger] out@[a].name@) by {
                if a < p && b < p {
                    assert(out@[a] == o[a] && out@[b] == o[b]);
                } else if a < p && b == p {
                } else if a < p {
                    assert(out@[b] == o[b - 1]);
                } else if a == p {
                    assert(out@[b] == o[b - 1]);
                } else {
                    assert(out@[a] == o[a - 1] && out@[b] == o[b - 1]);
                }
            }
        }
        k = k + 1;
    }
    proof {
        assert(all.take(n as int) =~= all);
    }
    out
}


/// Bytes the quick-reference area of a chunk with `count` entries takes: the count,
/// and one offset for every fifth entry after the first.
pub open spec fn quickref_spec(count: int) -> int {
    if count == 0 { 2 } else { 2 + 2 * ((count - 1) / (QR_STRIDE as int)) }
}

/// A directory chunk being filled: its header size, the entries' bytes, where each
/// entry starts in them, and the first entry's name.
pub struct ChunkBuilder {
    pub header_size: usize,
    pub body: Vec<u8>,
    pub entry_offsets: Vec<u16>,
    pub first_name: Vec<u8>,
}

/// A chunk as written: `hdr` at the start, the body after it, zeros, then the
/// quick-reference area at the end (the entry count in the last two bytes and,
/// below it, the offset of every fifth entry).
pub open spec fn chunk_image(c: Seq<u8>, hdr: Seq<u8>, body: Seq<u8>, offs: Seq<u16>) -> bool {
    let hs = hdr.len() as int;
    let count = offs.len() as int;
    &&& c.len() == CHUNK
    &&& c.subrange(0, hs) == hdr
    &&& c.subrange(hs, hs + body.len()) == body
    &&& c[CHUNK - 2] == (count % 256) as u8
    &&& c[CHUNK - 1] == (count / 256) as u8
    &&& forall|j: int| 1 <= j && j * 5 < count ==> (#[trigger] c[CHUNK - 2 - 2 * j]) == (offs[j * 5] % 256) as u8
        && c[CHUNK - 1 - 2 * j] == (offs[j * 5] / 256) as u8
    &&& forall|i: int| hs + body.len() <= i < CHUNK - quickref_spec(count) ==> #[trigger] c[i] == 0
}

impl ChunkBuilder {
    pub open spec fn wf(&self) -> bool {
        &&& self.header_size == PMGL_HDR || self.header_size == PMGI_HDR
        &&& self.entry_offsets@.len() <= self.body@.len()
        &&& self.header_size + self.body@.len() + quickref_spec(self.entry_offsets@.len() as int) <= CHUNK
    }

    /// An empty chunk with a header of `hdr` bytes.
    pub fn new(hdr: usize) -> (c: ChunkBuilder)
        requires
            hdr == PMGL_HDR || hdr == PMGI_HDR,
        ensures
            c.wf(),
            c.header_size == hdr,
            c.body@.len() == 0,
            c.entry_offsets@.len() == 0,
            c.first_name@.len() == 0,
    {
        ChunkBuilder { header_size: hdr, body: Vec::new(), entry_offsets: Vec::new(), first_name: Vec::new() }
    }

    /// Bytes of the quick-reference area for `count` entries.
    pub fn quickref_bytes(count: usize) -> (r: usize)
        requires
            count <= CHUNK,
        ensures
            r == quickref_spec(count as int),
    {
        if count == 0 { 2 } else { 2 + 2 * ((count - 1) / QR_STRIDE) }
    }

    /// Whether an entry of `entry_size` bytes still fits, quick-reference area included.
    pub fn can_add(&self, entry_size: usize) -> (r: bool)
        requires
            self.wf(),
            entry_size <= CHUNK,
        ensures
            r == (self.header_size + self.body@.len() + entry_size
                + quickref_spec(self.entry_offsets@.len() as int + 1) <= CHUNK),
    {
        let count = self.entry_offsets.len();
        proof {
            assert(count <= CHUNK);
        }
        self.header_size + self.body.len() + entry_size + Self::quickref_bytes(count + 1) <= CHUNK
    }

    /// Appends an entry's bytes; the first entry's name becomes the chunk's name.
    pub fn add(&mut self, name: &Vec<u8>, entry: &Vec<u8>)
        requires
            old(self).wf(),
            entry@.len() >= 1,
            old(self).header_size + old(self).body@.len() + entry@.len()
                + quickref_spec(old(self).entry_offsets@.len() as int + 1) <= CHUNK,
        ensures
            final(self).wf(),
            final(self).header_size == old(self).header_size,
            final(self).body@ == old(self).body@ + entry@,
            final(self).entry_offsets@ == old(self).entry_offsets@.push(old(self).body@.len() as u16),
            final(self).first_name@ == if old(self).entry_offsets@.len() == 0 { name@ } else { old(self).first_name@ },
    {
        if self.entry_offsets.len() == 0 {
            self.first_name = copy_bytes(name);
        }
        let off = self.body.len() as u16;
        self.entry_offsets.push(off);
        let n = entry.len();
        let mut i: usize = 0;
        let ghost b0 = self.body@;
        let ghost eo = self.entry_offsets@;
        let ghost fnm = self.first_name@;
        while i < n
            invariant
                i <= n,
                n == entry@.len(),
                self.body@ == b0 + entry@.subrange(0, i as int),
                self.header_size == old(self).header_size,
                self.entry_offsets@ == eo,
                self.first_name@ == fnm,
            decreases n - i,
        {
            self.body.push(entry[i]);
            proof {
                assert(b0 + entry@.subrange(0, i + 1) =~= (b0 + entry@.subrange(0, i as int)).push(entry@[i as int]));
            }
            i = i + 1;
        }
        proof {
            assert(entry@.subrange(0, n as int) =~= entry@);
            let c0 = old(self).entry_offsets@.len() as int;
            assert(quickref_spec(c0) <= quickref_spec(c0 + 1));
        }
    }

    /// Bytes left free behind the entries (the quick-reference area counts as free).
    pub fn free_space(&self) -> (r: u32)
        requires
            self.wf(),
        ensures
            r == CHUNK - self.header_size - self.body@.len(),
    {
        (CHUNK - self.header_size - self.body.len()) as u32
    }

    /// Writes the entries and the quick-reference area into `chunk`, whose first
    /// `header_size` bytes already hold the chunk header.
    #[verifier::spinoff_prover]
    pub fn finalize(&self, chunk: &mut Vec<u8>)
        requires
            self.wf(),
            old(chunk)@.len() == CHUNK,
            forall|i: int| self.header_size <= i < CHUNK ==> #[trigger] old(chunk)@[i] == 0,
        ensures
            chunk_image(final(chunk)@, old(chunk)@.subrange(0, self.header_size as int), self.body@, self.entry_offsets@),
    {
        let hs = self.header_size;
        let bl = self.body.len();
        let ghost c0 = chunk@;
        let mut i: usize = 0;
        while i < bl
            invariant
                i <= bl,
                bl == self.body@.len(),
                hs + bl <= CHUNK,
                chunk@.len() == CHUNK,
                forall|k: int| 0 <= k < hs ==> #[trigger] chunk@[k] == c0[k],
                forall|k: int| 0 <= k < i ==> #[trigger] chunk@[hs + k] == self.body@[k],
                forall|k: int| hs + i <= k < CHUNK ==> #[trigger] chunk@[k] == 0,
                forall|k: int| hs <= k < CHUNK ==> #[trigger] c0[k] == 0,
            decreases bl - i,
        {
            chunk.set(hs + i, self.body[i]);
            i = i + 1;
        }
        let count = self.entry_offsets.len();
        let qrb = Self::quickref_bytes(count);
        let ghost c1 = chunk@;
        assert(forall|k: int| 0 <= k < bl ==> #[trigger] c1[hs + k] == self.body@[k]);
        assert(forall|k: int| hs + bl <= k < CHUNK ==> #[trigger] c1[k] == 0);
        assert(forall|k: int| 0 <= k < hs ==> #[trigger] c1[k] == c0[k]);
        chunk.set(CHUNK - 2, (count % 256) as u8);
        chunk.set(CHUNK - 1, (count / 256) as u8);
        let mut j: usize = 1;
        while j * QR_STRIDE < count
            invariant
                1 <= j <= count + 1,
                count == self.entry_offsets@.len(),
                count <= CHUNK,
                qrb == quickref_spec(count as int),
                hs + bl + qrb <= CHUNK,
                chunk@.len() == CHUNK,
                forall|k: int| 0 <= k < CHUNK - qrb ==> #[trigger] chunk@[k] == c1[k],
                chunk@[CHUNK - 2] == (count % 256) as u8,
                chunk@[CHUNK - 1] == (count / 256) as u8,
                forall|q: int| 1 <= q < j && q * 5 < count ==> (#[trigger] chunk@[CHUNK - 2 - 2 * q]) == (self.entry_offsets@[q * 5] % 256) as u8
                    && chunk@[CHUNK - 1 - 2 * q] == (self.entry_offsets@[q * 5] / 256) as u8,
            decreases count + 1 - j,
        {
            let off = self.entry_offsets[j * QR_STRIDE];
            chunk.set(CHUNK - 2 - 2 * j, (off % 256) as u8);
            chunk.set(CHUNK - 1 - 2 * j, (off / 256) as u8);
            j = j + 1;
        }
        proof {
            let c = chunk@;
            assert forall|k: int| 0 <= k < bl implies #[trigger] c.subrange(hs as int, hs + bl)[k] == self.body@[k] by {
                assert(c[hs + k] == c1[hs + k]);
            }
            assert forall|k: int| 0 <= k < hs implies #[trigger] c[k] == c0[k] by {
                assert(c[k] == c1[k]);
            }
            assert(c.subrange(0, hs as int) =~= c0.subrange(0, hs as int));
            assert(c.subrange(hs as int, hs + bl) =~= self.body@);
            assert forall|k: int| hs + bl <= k < CHUNK - quickref_spec(count as int) implies #[trigger] c[k] == 0 by {
                assert(c[k] == c1[k]);
            }
            assert(c[CHUNK - 2] == (count % 256) as u8);
            assert(c[CHUNK - 1] == (count / 256) as u8);
            assert forall|q: int| 1 <= q && q * 5 < count implies (#[trigger] c[CHUNK - 2 - 2 * q]) == (self.entry_offsets@[q * 5] % 256) as u8
                && c[CHUNK - 1 - 2 * q] == (self.entry_offsets@[q * 5] / 256) as u8 by {
                assert(q * 5 < j * 5);
                assert(q < j);
                assert(c[CHUNK - 2 - 2 * q] == (self.entry_offsets@[q * 5] % 256) as u8);
            }
        }
    }
}

/// A copy of `v`.
pub fn copy_bytes(v: &Vec<u8>) -> (r: Vec<u8>)
    ensures
        r@ == v@,
{
    let mut r: Vec<u8> = Vec::new();
    let n = v.len();
    let mut k: usize = 0;
    while k < n
        invariant
            k <= n,
            n == v@.len(),
            r@ == v@.subrange(0, k as int),
        decreases n - k,
    {
        r.push(v[k]);
        proof {
            assert(v@.subrange(0, k + 1) =~= v@.subrange(0, k as int).push(v@[k as int]));
        }
        k = k + 1;
    }
    proof {
        assert(v@.subrange(0, n as int) =~= v@);
    }
    r
}


/// The directory bytes of one entry: name length and name, section, offset, size.
pub open spec fn dir_entry_bytes(d: DirEntry) -> Seq<u8> {
    encint_spec(d.name@.len()) + d.name@ + encint_spec(d.section as nat) + encint_spec(d.offset as nat)
        + encint_spec(d.size as nat)
}

/// The directory bytes of a run of entries, one after another.
pub open spec fn dir_listing(ds: Seq<DirEntry>) -> Seq<u8>
    decreases ds.len(),
{
    if ds.len() == 0 {
        Seq::empty()
    } else {
        dir_listing(ds.drop_last()) + dir_entry_bytes(ds.last())
    }
}

/// The bodies of a run of chunks, one after another.
pub open spec fn bodies(cs: Seq<ChunkBuilder>) -> Seq<u8>
    decreases cs.len(),
{
    if cs.len() == 0 {
        Seq::empty()
    } else {
        bodies(cs.drop_last()) + cs.last().body@
    }
}

/// Names a directory can hold: short enough that two index entries share a chunk.
pub open spec fn names_ok(ds: Seq<DirEntry>) -> bool {
    forall|i: int| 0 <= i < ds.len() ==> #[trigger] ds[i].name@.len() <= 2000
}

/// The encoding of an entry for a listing chunk.
fn entry_encoding(e: &DirEntry) -> (enc: Vec<u8>)
    requires
        e.name@.len() <= 2000,
    ensures
        enc@ == dir_entry_bytes(*e),
        1 <= enc@.len() <= 2040,
{
    let mut enc: Vec<u8> = Vec::new();
    encint(&mut enc, e.name.len() as u64);
    let n = e.name.len();
    let mut k: usize = 0;
    let ghost e0 = enc@;
    while k < n
        invariant
            k <= n,
            n == e.name@.len(),
            enc@ == e0 + e.name@.subrange(0, k as int),
        decreases n - k,
    {
        enc.push(e.name[k]);
        proof {
            assert(e0 + e.name@.subrange(0, k + 1) =~= (e0 + e.name@.subrange(0, k as int)).push(e.name@[k as int]));
        }
        k = k + 1;
    }
    encint(&mut enc, e.section as u64);
    encint(&mut enc, e.offset);
    encint(&mut enc, e.size);
    proof {
        assert(e.name@.subrange(0, n as int) =~= e.name@);
        crate::bytebuf::lemma_encint_len_u64(n as nat);
        crate::bytebuf::lemma_encint_len_u64(e.section as nat);
        crate::bytebuf::lemma_encint_len_u64(e.offset as nat);
        crate::bytebuf::lemma_encint_len_u64(e.size as nat);
        lemma_encint_small(n as nat);
        assert(enc@ =~= dir_entry_bytes(*e));
    }
    enc
}

proof fn lemma_encint_small(x: nat)
    requires
        x < 16384,
    ensures
        encint_spec(x).len() <= 2,
{
    reveal_with_fuel(crate::bytebuf::encint_prefix, 3);
    assert(x / 128 < 128);
    assert(x / 128 / 128 == 0);
}

/// The entries laid out in listing chunks, in order, each chunk taking entries until
/// the next one would not fit.
fn listing_chunks(sorted: &Vec<DirEntry>) -> (chunks: Vec<ChunkBuilder>)
    requires
        1 <= sorted@.len(),
        names_ok(sorted@),
    ensures
        1 <= chunks@.len() <= sorted@.len(),
        forall|i: int| 0 <= i < chunks@.len() ==> (#[trigger] chunks@[i]).wf() && chunks@[i].header_size == PMGL_HDR
            && chunks@[i].entry_offsets@.len() >= 1 && chunks@[i].first_name@.len() <= 2000,
        bodies(chunks@) == dir_listing(sorted@),
        forall|i: int| 0 <= i < chunks@.len() ==> listing_body(#[trigger] chunks@[i].body@),
{
    let n = sorted.len();
    let mut chunks: Vec<ChunkBuilder> = Vec::new();
    let mut cur = ChunkBuilder::new(PMGL_HDR);
    let mut k: usize = 0;
    let ghost mut cur_g: Seq<DirEntry> = Seq::empty();
    proof {
        assert(dir_listing(cur_g) =~= cur.body@);
        assert(sorted@.take(0) =~= Seq::<DirEntry>::empty());
        assert(bodies(chunks@) + cur.body@ =~= dir_listing(sorted@.take(0)));
    }
    while k < n
        invariant
            k <= n,
            n == sorted@.len(),
            names_ok(sorted@),
            cur.wf(),
            cur.header_size == PMGL_HDR,
            cur.first_name@.len() <= 2000,
            k > 0 ==> cur.entry_offsets@.len() >= 1,
            chunks@.len() + (if cur.entry_offsets@.len() > 0 { 1int } else { 0int }) <= k,
            forall|i: int| 0 <= i < chunks@.len() ==> (#[trigger] chunks@[i]).wf() && chunks@[i].header_size == PMGL_HDR
                && chunks@[i].entry_offsets@.len() >= 1 && chunks@[i].first_name@.len() <= 2000,
            bodies(chunks@) + cur.body@ == dir_listing(sorted@.take(k as int)),
            forall|i: int| 0 <= i < chunks@.len() ==> listing_body(#[trigger] chunks@[i].body@),
            cur.body@ == dir_listing(cur_g),
        decreases n - k,
    {
        let enc = entry_encoding(&sorted[k]);
        if !cur.can_add(enc.len()) {
            let ghost cs = chunks@;
            proof {
                assert(listing_body(cur.body@));
            }
            chunks.push(cur);
            cur = ChunkBuilder::new(PMGL_HDR);
            proof {
                assert(chunks@.drop_last() =~= cs);
                assert(cur.body@ =~= Seq::<u8>::empty());
                assert(bodies(chunks@) + cur.body@ =~= bodies(cs) + chunks@.last().body@);
                assert forall|i: int| 0 <= i < chunks@.len() implies listing_body(#[trigger] chunks@[i].body@) by {
                    if i < cs.len() {
                        assert(chunks@[i] == cs[i]);
                    }
                }
                cur_g = Seq::empty();
                assert(dir_listing(cur_g) =~= cur.body@);
            }
        }
        let ghost b = bodies(chunks@);
        let ghost cb = cur.body@;
        cur.add(&sorted[k].name, &enc);
        proof {
            assert(sorted@.take(k + 1).drop_last() =~= sorted@.take(k as int));
            assert(b + cur.body@ =~= (b + cb) + enc@);
            assert(cur_g.push(sorted@[k as int]).drop_last() =~= cur_g);
            cur_g = cur_g.push(sorted@[k as int]);
        }
        k = k + 1;
    }
    let ghost cs = chunks@;
    proof {
        assert(listing_body(cur.body@));
    }
    chunks.push(cur);
    proof {
        assert(chunks@.drop_last() =~= cs);
        assert(sorted@.take(n as int) =~= sorted@);
        assert forall|i: int| 0 <= i < chunks@.len() implies listing_body(#[trigger] chunks@[i].body@) by {
            if i < cs.len() {
                assert(chunks@[i] == cs[i]);
            }
        }
    }
    chunks
}

/// A reference from an index level to a chunk: the chunk's first name and number.
pub struct IndexRef {
    pub name: Vec<u8>,
    pub chunk: u32,
}

/// The bytes of an index entry: the name's length and the name, then the chunk number.
fn ref_encoding(r: &IndexRef) -> (enc: Vec<u8>)
    requires
        r.name@.len() <= 2000,
    ensures
        1 <= enc@.len() <= 2015,
{
    let mut enc: Vec<u8> = Vec::new();
    encint(&mut enc, r.name.len() as u64);
    let n = r.name.len();
    let mut k: usize = 0;
    let ghost e0 = enc@;
    while k < n
        invariant
            k <= n,
            n == r.name@.len(),
            enc@.len() == e0.len() + k,
        decreases n - k,
    {
        enc.push(r.name[k]);
        k = k + 1;
    }
    encint(&mut enc, r.chunk as u64);
    proof {
        lemma_encint_small(n as nat);
        crate::bytebuf::lemma_encint_len_u64(r.chunk as nat);
    }
    enc
}

/// The PMGI index levels over `list`: each level lists the first name of every chunk
/// of the level below, until one chunk is left. Gives the index chunks, the tree depth
/// and the root chunk (-1 when there is a single listing chunk).
fn index_chunks(list: &Vec<ChunkBuilder>) -> (r: (Vec<ChunkBuilder>, u32, i32))
    requires
        1 <= list@.len() <= 0x2000_0000,
        forall|i: int| 0 <= i < list@.len() ==> (#[trigger] list@[i]).first_name@.len() <= 2000,
    ensures
        r.0@.len() <= 3 * list@.len(),
        forall|i: int| 0 <= i < r.0@.len() ==> (#[trigger] r.0@[i]).wf() && r.0@[i].header_size == PMGI_HDR,
        index_shape(list@.len() as int, r.0@.len() as int, r.1, r.2),
{
    let np = list.len();
    let mut level: Vec<IndexRef> = Vec::new();
    let mut i: usize = 0;
    while i < np
        invariant
            i <= np,
            np == list@.len(),
            np <= 0x2000_0000,
            level@.len() == i,
            forall|j: int| 0 <= j < list@.len() ==> (#[trigger] list@[j]).first_name@.len() <= 2000,
            forall|j: int| 0 <= j < level@.len() ==> (#[trigger] level@[j]).name@.len() <= 2000,
        decreases np - i,
    {
        level.push(IndexRef { name: copy_bytes(&list[i].first_name), chunk: i as u32 });
        i = i + 1;
    }
    let mut index: Vec<ChunkBuilder> = Vec::new();
    let mut next_idx: u32 = np as u32;
    let mut depth: u32 = 1;
    let mut root: i32 = -1;
    while level.len() > 1
        invariant
            np == list@.len(),
            1 <= np <= 0x2000_0000,
            1 <= level@.len(),
            index@.len() + 2 * level@.len() <= 3 * np,
            next_idx == np + index@.len(),
            depth + level@.len() <= np + 1,
            forall|j: int| 0 <= j < level@.len() ==> (#[trigger] level@[j]).name@.len() <= 2000,
            forall|j: int| 0 <= j < index@.len() ==> (#[trigger] index@[j]).wf() && index@[j].header_size == PMGI_HDR,
            index@.len() == 0 ==> depth == 1 && root == -1 && level@.len() == np,
            index@.len() > 0 ==> depth >= 2 && root == np + index@.len() - 1,
        decreases level@.len(),
    {
        depth = depth + 1;
        let nl = level.len();
        let mut next: Vec<IndexRef> = Vec::new();
        let mut ic = ChunkBuilder::new(PMGI_HDR);
        let mut j: usize = 0;
        let ghost idx0 = index@.len();
        while j < nl
            invariant
                j <= nl,
                nl == level@.len(),
                2 <= nl,
                idx0 + 2 * nl <= 3 * np,
                np <= 0x2000_0000,
                index@.len() == idx0 + next@.len(),
                next_idx == np + index@.len(),
                2 * next@.len() + ic.entry_offsets@.len() <= j,
                j > 0 ==> ic.entry_offsets@.len() >= 1,
                ic.wf(),
                ic.header_size == PMGI_HDR,
                ic.entry_offsets@.len() == 0 ==> ic.body@.len() == 0,
                ic.entry_offsets@.len() <= 1 ==> ic.body@.len() <= 2015,
                ic.first_name@.len() <= 2000,
                forall|q: int| 0 <= q < level@.len() ==> (#[trigger] level@[q]).name@.len() <= 2000,
                forall|q: int| 0 <= q < next@.len() ==> (#[trigger] next@[q]).name@.len() <= 2000,
                forall|q: int| 0 <= q < index@.len() ==> (#[trigger] index@[q]).wf() && index@[q].header_size == PMGI_HDR,
            decreases nl - j,
        {
            let enc = ref_encoding(&level[j]);
            if !ic.can_add(enc.len()) {
                next.push(IndexRef { name: copy_bytes(&ic.first_name), chunk: next_idx });
                next_idx = next_idx + 1;
                index.push(ic);
                ic = ChunkBuilder::new(PMGI_HDR);
            }
            ic.add(&level[j].name, &enc);
            j = j + 1;
        }
        next.push(IndexRef { name: copy_bytes(&ic.first_name), chunk: next_idx });
        next_idx = next_idx + 1;
        index.push(ic);
        root = (next_idx - 1) as i32;
        level = next;
    }
    proof {
        reveal(index_shape);
    }
    (index, depth, root)
}

/// The index levels over `np` listing chunks: none over a single one (depth 1, no
/// root); otherwise `ni` index chunks, at least one, a depth of 2 or more, and the
/// root is the last chunk, numbered after the listing chunks.
#[verifier::opaque]
pub open spec fn index_shape(np: int, ni: int, depth: u32, root: i32) -> bool {
    &&& np == 1 ==> ni == 0 && depth == 1 && root == -1
    &&& np > 1 ==> ni >= 1 && depth >= 2 && root == np + ni - 1
}


/// The header of a listing chunk: magic, free space, a zero, previous and next chunk.
pub open spec fn pmgl_header(free: u32, prev: i32, next: i32) -> Seq<u8> {
    seq![0x50u8, 0x4D, 0x47, 0x4C] + u32_le(free) + u32_le(0) + i32_le(prev) + i32_le(next)
}

/// The header of an index chunk: magic and free space.
pub open spec fn pmgi_header(free: u32) -> Seq<u8> {
    seq![0x50u8, 0x4D, 0x47, 0x49] + u32_le(free)
}

/// A GUID laid out as DWORD, WORD, WORD, BYTE[8].
pub open spec fn guid_bytes(a: u32, b: u16, c: u16, d: Seq<u8>) -> Seq<u8> {
    u32_le(a) + u16_le(b) + u16_le(c) + d
}

pub open spec fn g1d() -> Seq<u8> {
    seq![0x9Eu8, 0x0C, 0x00, 0xA0, 0xC9, 0x22, 0xE6, 0xEC]
}

pub open spec fn g3d() -> Seq<u8> {
    seq![0x9Du8, 0xF9, 0x00, 0xA0, 0xC9, 0x22, 0xE6, 0xEC]
}

/// The ITSF header and header section 0 (0x78 bytes): version 3, a zero timestamp,
/// the language, the two GUIDs, where the header sections and the content lie, and
/// the file size.
pub open spec fn itsf_header(lang: u32, hs1_len: u64, content_offset: u64, file_size: u64) -> Seq<u8> {
    seq![0x49u8, 0x54, 0x53, 0x46] + u32_le(3) + u32_le(0x60) + u32_le(1) + u32_le(0) + u32_le(lang)
        + guid_bytes(0x7C01FD10, 0x7BAA, 0x11D0, g1d()) + guid_bytes(0x7C01FD11, 0x7BAA, 0x11D0, g1d())
        + u64_le(0x60) + u64_le(0x18) + u64_le(0x78) + u64_le(hs1_len) + u64_le(content_offset)
        + u32_le(0x01FE) + u32_le(0) + u64_le(file_size) + u32_le(0) + u32_le(0)
}

/// The ITSP directory header (0x54 bytes): chunk size 0x1000, quick-reference
/// density 2, index depth and root, first and last listing chunk, chunk count,
/// language and GUID.
pub open spec fn itsp_header(depth: u32, root: i32, last_pmgl: u32, total: u32, lang: u32) -> Seq<u8> {
    seq![0x49u8, 0x54, 0x53, 0x50] + u32_le(1) + u32_le(0x54) + u32_le(0x0A) + u32_le(0x1000) + u32_le(2)
        + u32_le(depth) + i32_le(root) + u32_le(0) + u32_le(last_pmgl) + i32_le(-1i32) + u32_le(total) + u32_le(lang)
        + guid_bytes(0x5D02926A, 0x212E, 0x11D0, g3d()) + u32_le(0x54) + i32_le(-1i32) + i32_le(-1i32) + i32_le(-1i32)
}

/// A listing chunk as written.
fn pmgl_chunk(cb: &ChunkBuilder, prev: i32, next: i32) -> (c: Vec<u8>)
    requires
        cb.wf(),
        cb.header_size == PMGL_HDR,
    ensures
        chunk_image(c@, pmgl_header((CHUNK - PMGL_HDR - cb.body@.len()) as u32, prev, next), cb.body@, cb.entry_offsets@),
{
    let mut h = Buf::new();
    h.u8(0x50);
    h.u8(0x4D);
    h.u8(0x47);
    h.u8(0x4C);
    h.u32(cb.free_space());
    h.u32(0);
    h.i32(prev);
    h.i32(next);
    let ghost hv = h@;
    proof {
        assert(hv =~= pmgl_header((CHUNK - PMGL_HDR - cb.body@.len()) as u32, prev, next));
    }
    let mut chunk: Vec<u8> = vec![0u8; CHUNK];
    let mut k: usize = 0;
    while k < 0x14
        invariant
            k <= 0x14,
            h@ == hv,
            hv.len() == 0x14,
            chunk@.len() == CHUNK,
            forall|q: int| 0 <= q < k ==> #[trigger] chunk@[q] == hv[q],
            forall|q: int| 0x14 <= q < CHUNK ==> #[trigger] chunk@[q] == 0,
        decreases 0x14 - k,
    {
        chunk.set(k, h.v[k]);
        k = k + 1;
    }
    proof {
        assert(chunk@.subrange(0, 0x14) =~= hv);
    }
    cb.finalize(&mut chunk);
    chunk
}

/// An index chunk as written.
fn pmgi_chunk(cb: &ChunkBuilder) -> (c: Vec<u8>)
    requires
        cb.wf(),
        cb.header_size == PMGI_HDR,
    ensures
        chunk_image(c@, pmgi_header((CHUNK - PMGI_HDR - cb.body@.len()) as u32), cb.body@, cb.entry_offsets@),
{
    let mut h = Buf::new();
    h.u8(0x50);
    h.u8(0x4D);
    h.u8(0x47);
    h.u8(0x49);
    h.u32(cb.free_space());
    let ghost hv = h@;
    proof {
        assert(hv =~= pmgi_header((CHUNK - PMGI_HDR - cb.body@.len()) as u32));
    }
    let mut chunk: Vec<u8> = vec![0u8; CHUNK];
    let mut k: usize = 0;
    while k < 8
        invariant
            k <= 8,
            h@ == hv,
            hv.len() == 8,
            chunk@.len() == CHUNK,
            forall|q: int| 0 <= q < k ==> #[trigger] chunk@[q] == hv[q],
            forall|q: int| 8 <= q < CHUNK ==> #[trigger] chunk@[q] == 0,
        decreases 8 - k,
    {
        chunk.set(k, h.v[k]);
        k = k + 1;
    }
    proof {
        assert(chunk@.subrange(0, 8) =~= hv);
    }
    cb.finalize(&mut chunk);
    chunk
}

proof fn lemma_le32_of(x: u32)
    ensures
        le32_at(u32_le(x), 0) == x,
{
    let b0 = x % 256;
    let b1 = (x / 256) % 256;
    let b2 = (x / 65536) % 256;
    let b3 = x / 16777216;
    assert(b0 + 256 * b1 + 65536 * b2 + 16777216 * b3 == x) by (bit_vector)
        requires b0 == x % 256, b1 == (x / 256) % 256, b2 == (x / 65536) % 256, b3 == x / 16777216;
}

proof fn lemma_le32_in(s: Seq<u8>, p: int, x: u32)
    requires
        0 <= p,
        p + 4 <= s.len(),
        s.subrange(p, p + 4) == u32_le(x),
    ensures
        le32_at(s, p) == x,
{
    lemma_le32_of(x);
    assert(s[p] == u32_le(x)[0]);
    assert(s[p + 1] == u32_le(x)[1]);
    assert(s[p + 2] == u32_le(x)[2]);
    assert(s[p + 3] == u32_le(x)[3]);
}

proof fn lemma_le64_in(s: Seq<u8>, p: int, x: u64)
    requires
        0 <= p,
        p + 8 <= s.len(),
        s.subrange(p, p + 8) == u64_le(x),
    ensures
        le64_at(s, p) == x,
{
    let lo = (x % 0x1_0000_0000) as u32;
    let hi = (x / 0x1_0000_0000) as u32;
    assert(u64_le(x).subrange(0, 4) =~= u32_le(lo));
    assert(u64_le(x).subrange(4, 8) =~= u32_le(hi));
    assert(s.subrange(p, p + 4) =~= s.subrange(p, p + 8).subrange(0, 4));
    assert(s.subrange(p + 4, p + 8) =~= s.subrange(p, p + 8).subrange(4, 8));
    lemma_le32_in(s, p, lo);
    lemma_le32_in(s, p + 4, hi);
}

/// The directory bytes of some run of entries.
pub open spec fn listing_body(b: Seq<u8>) -> bool {
    exists|g: Seq<DirEntry>| #[trigger] dir_listing(g) == b
}

/// Chunk `c` of the directory is either no listing chunk or one whose free space
/// leaves room for its header and whose entry area is a run of whole entries.
pub open spec fn chunk_sane(f: Seq<u8>, c: int) -> bool {
    let base = 0xCC + c * CHUNK;
    !magic_at(f, base, pmgl_magic()) || (le32_at(f, base + 4) <= CHUNK - 0x14 && listing_body(
        chunk_region(f, 0xCC, CHUNK as int, c),
    ))
}

proof fn lemma_listing_extend(f: Seq<u8>, x: Seq<u8>, n: int)
    requires
        0 <= n,
        0xCC + n * CHUNK <= f.len(),
        forall|c: int| 0 <= c < n ==> #[trigger] chunk_sane(f, c),
    ensures
        listing_of(f + x, 0xCC, CHUNK as int, n) == listing_of(f, 0xCC, CHUNK as int, n),
        forall|c: int| 0 <= c < n ==> #[trigger] chunk_sane(f + x, c),
    decreases n,
{
    if n > 0 {
        lemma_listing_extend(f, x, n - 1);
        let c = n - 1;
        let base = 0xCC + c * CHUNK;
        let g = f + x;
        assert(chunk_sane(f, c));
        assert(g.subrange(base, base + 4) =~= f.subrange(base, base + 4));
        assert(le32_at(g, base + 4) == le32_at(f, base + 4));
        if magic_at(f, base, pmgl_magic()) {
            let free = le32_at(f, base + 4);
            assert(g.subrange(base + 0x14, base + CHUNK - free) =~= f.subrange(base + 0x14, base + CHUNK - free));
        }
        assert(chunk_region(g, 0xCC, CHUNK as int, c) == chunk_region(f, 0xCC, CHUNK as int, c));
        assert forall|k: int| 0 <= k < n implies #[trigger] chunk_sane(g, k) by {
            if k == n - 1 {
                assert(chunk_sane(f, k));
            }
        }
    }
}

proof fn lemma_bodies_push(cs: Seq<ChunkBuilder>, c: ChunkBuilder)
    ensures
        bodies(cs.push(c)) == bodies(cs) + c.body@,
{
    assert(cs.push(c).drop_last() =~= cs);
}


proof fn lemma_append_chunk(f: Seq<u8>, c: Seq<u8>, i: int, hdr: Seq<u8>, body: Seq<u8>, offs: Seq<u16>, listing: bool)
    requires
        0 <= i,
        f.len() == 0xCC + i * CHUNK,
        forall|k: int| 0 <= k < i ==> #[trigger] chunk_sane(f, k),
        chunk_image(c, hdr, body, offs),
        hdr.len() >= 8,
        hdr.len() + body.len() <= CHUNK,
        listing ==> hdr.subrange(0, 4) == pmgl_magic() && hdr.subrange(4, 8) == u32_le((CHUNK - 0x14 - body.len()) as u32)
            && hdr.len() == 0x14 && listing_body(body),
        !listing ==> hdr.subrange(0, 4) != pmgl_magic(),
    ensures
        listing_of(f + c, 0xCC, CHUNK as int, i + 1) == listing_of(f, 0xCC, CHUNK as int, i) + (if listing { body } else { Seq::empty() }),
        forall|k: int| 0 <= k <= i ==> #[trigger] chunk_sane(f + c, k),
        (f + c).len() == 0xCC + (i + 1) * CHUNK,
{
    lemma_listing_extend(f, c, i);
    let g = f + c;
    let base = 0xCC + i * CHUNK;
    assert(g.subrange(base, base + 4) =~= c.subrange(0, 4));
    assert(c.subrange(0, 4) =~= hdr.subrange(0, 4));
    if listing {
        let free = (CHUNK - 0x14 - body.len()) as u32;
        assert(c.subrange(4, 8) =~= hdr.subrange(4, 8));
        lemma_le32_in(c, 4, free);
        assert(le32_at(g, base + 4) == le32_at(c, 4));
        assert(g.subrange(base + 0x14, base + CHUNK - free) =~= c.subrange(0x14, 0x14 + body.len() as int));
        assert(chunk_region(g, 0xCC, CHUNK as int, i) == body);
    } else {
        assert(!magic_at(g, base, pmgl_magic()));
        assert(chunk_region(g, 0xCC, CHUNK as int, i) =~= Seq::<u8>::empty());
    }
    assert forall|k: int| 0 <= k <= i implies #[trigger] chunk_sane(g, k) by {
        if k == i {
            if listing {
                let free = (CHUNK - 0x14 - body.len()) as u32;
                assert(le32_at(g, base + 4) == free);
            }
        }
    }
}

/// Appends the ITSF header and header section 0.
#[verifier::rlimit(60)]
fn write_itsf(out: &mut Buf, lang_id: u32, hs1_len: u64, co: u64, file_size: u64)
    ensures
        final(out)@ == old(out)@ + itsf_header(lang_id, hs1_len, co, file_size),
{
    let g1: [u8; 8] = [0x9E, 0x0C, 0x00, 0xA0, 0xC9, 0x22, 0xE6, 0xEC];
    proof {
        assert(g1@ =~= g1d());
    }
    let ghost o = out@;
    out.u8(0x49);
    out.u8(0x54);
    out.u8(0x53);
    out.u8(0x46);
    out.u32(3);
    out.u32(0x60);
    out.u32(1);
    out.u32(0);
    out.u32(lang_id);
    let ghost a = out@;
    proof {
        assert(a =~= o + (seq![0x49u8, 0x54, 0x53, 0x46] + u32_le(3) + u32_le(0x60) + u32_le(1) + u32_le(0) + u32_le(lang_id)));
    }
    out.guid(0x7C01FD10, 0x7BAA, 0x11D0, &g1);
    out.guid(0x7C01FD11, 0x7BAA, 0x11D0, &g1);
    let ghost b = out@;
    proof {
        assert(b =~= a + (guid_bytes(0x7C01FD10, 0x7BAA, 0x11D0, g1d()) + guid_bytes(0x7C01FD11, 0x7BAA, 0x11D0, g1d())));
    }
    out.u64(0x60);
    out.u64(0x18);
    out.u64(0x78);
    out.u64(hs1_len);
    out.u64(co);
    let ghost c = out@;
    proof {
        assert(c =~= b + (u64_le(0x60) + u64_le(0x18) + u64_le(0x78) + u64_le(hs1_len) + u64_le(co)));
    }
    out.u32(0x01FE);
    out.u32(0);
    out.u64(file_size);
    out.u32(0);
    out.u32(0);
    proof {
        assert(out@ =~= c + (u32_le(0x01FE) + u32_le(0) + u64_le(file_size) + u32_le(0) + u32_le(0)));
        assert(out@ =~= o + itsf_header(lang_id, hs1_len, co, file_size));
    }
}

/// Appends the ITSP directory header.
#[verifier::rlimit(60)]
fn write_itsp(out: &mut Buf, depth: u32, root: i32, last_pmgl: u32, total: u32, lang_id: u32)
    ensures
        final(out)@ == old(out)@ + itsp_header(depth, root, last_pmgl, total, lang_id),
{
    let g3: [u8; 8] = [0x9D, 0xF9, 0x00, 0xA0, 0xC9, 0x22, 0xE6, 0xEC];
    proof {
        assert(g3@ =~= g3d());
    }
    let ghost o = out@;
    out.u8(0x49);
    out.u8(0x54);
    out.u8(0x53);
    out.u8(0x50);
    out.u32(1);
    out.u32(0x54);
    out.u32(0x0A);
    out.u32(0x1000);
    out.u32(2);
    let ghost a = out@;
    proof {
        assert(a =~= o + (seq![0x49u8, 0x54, 0x53, 0x50] + u32_le(1) + u32_le(0x54) + u32_le(0x0A) + u32_le(0x1000) + u32_le(2)));
    }
    out.u32(depth);
    out.i32(root);
    out.u32(0);
    out.u32(last_pmgl);
    out.i32(-1);
    out.u32(total);
    out.u32(lang_id);
    let ghost b = out@;
    proof {
        assert(b =~= a + (u32_le(depth) + i32_le(root) + u32_le(0) + u32_le(last_pmgl) + i32_le(-1i32) + u32_le(total) + u32_le(lang_id)));
    }
    out.guid(0x5D02926A, 0x212E, 0x11D0, &g3);
    out.u32(0x54);
    out.i32(-1);
    out.i32(-1);
    out.i32(-1);
    proof {
        assert(out@ =~= b + (guid_bytes(0x5D02926A, 0x212E, 0x11D0, g3d()) + u32_le(0x54) + i32_le(-1i32) + i32_le(-1i32) + i32_le(-1i32)));
        assert(out@ =~= o + itsp_header(depth, root, last_pmgl, total, lang_id));
    }
}

/// What a reader needs of the two headers: the ITSF magic, the directory header at
/// 0x78 with its magic, chunk size and chunk count, and the content offset.
#[verifier::rlimit(60)]
#[verifier::spinoff_prover]
proof fn lemma_header_fields(img: Seq<u8>, lang_id: u32, hs1_len: u64, co: u64, file_size: u64, depth: u32, root: i32, last_pmgl: u32, total: u32)
    requires
        img.len() >= 0xCC,
        img.subrange(0, 0x78) == itsf_header(lang_id, hs1_len, co, file_size),
        img.subrange(0x78, 0xCC) == itsp_header(depth, root, last_pmgl, total, lang_id),
    ensures
        header_ok(img),
        itsp_at(img) == 0x78,
        le64_at(img, 0x58) == co,
        le32_at(img, 0x88) == 0x1000,
        le32_at(img, 0xA4) == total,
{
    let h1 = itsf_header(lang_id, hs1_len, co, file_size);
    let h2 = itsp_header(depth, root, last_pmgl, total, lang_id);
    assert(h1.subrange(0x48, 0x50) =~= u64_le(0x78));
    assert(img.subrange(0x48, 0x50) =~= h1.subrange(0x48, 0x50));
    lemma_le64_in(img, 0x48, 0x78);
    assert(h1.subrange(0x58, 0x60) =~= u64_le(co));
    assert(img.subrange(0x58, 0x60) =~= h1.subrange(0x58, 0x60));
    lemma_le64_in(img, 0x58, co);
    assert(h2.subrange(0x10, 0x14) =~= u32_le(0x1000));
    assert(img.subrange(0x88, 0x8C) =~= h2.subrange(0x10, 0x14));
    lemma_le32_in(img, 0x88, 0x1000);
    assert(h2.subrange(0x2C, 0x30) =~= u32_le(total));
    assert(img.subrange(0xA4, 0xA8) =~= h2.subrange(0x2C, 0x30));
    lemma_le32_in(img, 0xA4, total);
    assert(h1.subrange(0, 4) =~= itsf_magic());
    assert(img.subrange(0, 4) =~= h1.subrange(0, 4));
    assert(h2.subrange(0, 4) =~= itsp_magic());
    assert(img.subrange(0x78, 0x7C) =~= h2.subrange(0, 4));
}

/// Appends the listing chunks, then the index chunks, after the headers.
fn append_directory(out: &mut Buf, list: &Vec<ChunkBuilder>, index: &Vec<ChunkBuilder>)
    requires
        old(out)@.len() == 0xCC,
        forall|k: int| 0 <= k < list@.len() ==> (#[trigger] list@[k]).wf() && list@[k].header_size == PMGL_HDR,
        forall|k: int| 0 <= k < list@.len() ==> listing_body(#[trigger] list@[k].body@),
        forall|k: int| 0 <= k < index@.len() ==> (#[trigger] index@[k]).wf() && index@[k].header_size == PMGI_HDR,
        list@.len() + index@.len() <= 0x8000_0000,
    ensures
        final(out)@.len() == 0xCC + (list@.len() + index@.len()) * CHUNK,
        final(out)@.subrange(0, 0xCC) == old(out)@,
        forall|k: int| 0 <= k < list@.len() + index@.len() ==> #[trigger] chunk_sane(final(out)@, k),
        listing_of(final(out)@, 0xCC, CHUNK as int, list@.len() + index@.len() as int) == bodies(list@),
{
    let np = list.len();
    let ni = index.len();
    let ghost hv = out@;
    proof {
        assert(listing_of(hv, 0xCC, CHUNK as int, 0) =~= bodies(list@.take(0)));
        assert(out@.subrange(0, 0xCC) =~= hv);
    }
    let mut i: usize = 0;
    while i < np
        invariant
            i <= np,
            np == list@.len(),
            forall|k: int| 0 <= k < list@.len() ==> (#[trigger] list@[k]).wf() && list@[k].header_size == PMGL_HDR,
            forall|k: int| 0 <= k < list@.len() ==> listing_body(#[trigger] list@[k].body@),
            out@.len() == 0xCC + i * CHUNK,
            out@.subrange(0, 0xCC) == hv,
            forall|k: int| 0 <= k < i ==> #[trigger] chunk_sane(out@, k),
            listing_of(out@, 0xCC, CHUNK as int, i as int) == bodies(list@.take(i as int)),
        decreases np - i,
    {
        let prev: i32 = if i == 0 { -1 } else { (i - 1) as i32 };
        let next: i32 = if i + 1 == np { -1 } else { (i + 1) as i32 };
        let c = pmgl_chunk(&list[i], prev, next);
        let ghost f = out@;
        let ghost body = list@[i as int].body@;
        proof {
            let hdr = pmgl_header((CHUNK - PMGL_HDR - body.len()) as u32, prev, next);
            assert(hdr.subrange(0, 4) =~= pmgl_magic());
            assert(hdr.subrange(4, 8) =~= u32_le((CHUNK - 0x14 - body.len()) as u32));
            lemma_append_chunk(f, c@, i as int, hdr, body, list@[i as int].entry_offsets@, true);
            lemma_bodies_push(list@.take(i as int), list@[i as int]);
            assert(list@.take(i + 1) =~= list@.take(i as int).push(list@[i as int]));
        }
        out.raw(c.as_slice());
        proof {
            assert(out@.subrange(0, 0xCC) =~= f.subrange(0, 0xCC));
        }
        i = i + 1;
    }
    proof {
        assert(list@.take(np as int) =~= list@);
    }
    let mut i: usize = 0;
    while i < ni
        invariant
            i <= ni,
            ni == index@.len(),
            np == list@.len(),
            forall|k: int| 0 <= k < index@.len() ==> (#[trigger] index@[k]).wf() && index@[k].header_size == PMGI_HDR,
            out@.len() == 0xCC + (np + i) * CHUNK,
            out@.subrange(0, 0xCC) == hv,
            forall|k: int| 0 <= k < np + i ==> #[trigger] chunk_sane(out@, k),
            listing_of(out@, 0xCC, CHUNK as int, (np + i) as int) == bodies(list@),
        decreases ni - i,
    {
        let c = pmgi_chunk(&index[i]);
        let ghost f = out@;
        proof {
            let body = index@[i as int].body@;
            let hdr = pmgi_header((CHUNK - PMGI_HDR - body.len()) as u32);
            assert(hdr.subrange(0, 4)[3] != pmgl_magic()[3]);
            lemma_append_chunk(f, c@, (np + i) as int, hdr, body, index@[i as int].entry_offsets@, false);
            assert(bodies(list@) + Seq::<u8>::empty() =~= bodies(list@));
        }
        out.raw(c.as_slice());
        proof {
            assert(out@.subrange(0, 0xCC) =~= f.subrange(0, 0xCC));
        }
        i = i + 1;
    }
}


proof fn lemma_image_facts(img: Seq<u8>, f: Seq<u8>, hv: Seq<u8>, s0: Seq<u8>, comp: Seq<u8>, lang_id: u32, hs1_len: u64,
    co: u64, file_size: u64, depth: u32, root: i32, last_pmgl: u32, total: u32)
    requires
        img == f + s0 + comp,
        hv == itsf_header(lang_id, hs1_len, co, file_size) + itsp_header(depth, root, last_pmgl, total, lang_id),
        f.len() == 0xCC + total * CHUNK,
        f.subrange(0, 0xCC) == hv,
        forall|k: int| 0 <= k < total ==> #[trigger] chunk_sane(f, k),
    ensures
        listing_of(img, 0xCC, CHUNK as int, total as int) == listing_of(f, 0xCC, CHUNK as int, total as int),
        header_ok(img),
        itsp_at(img) == 0x78,
        le64_at(img, 0x58) == co,
        le32_at(img, 0x88) == 0x1000,
        le32_at(img, 0xA4) == total,
        img.subrange(0, 0x78) == itsf_header(lang_id, hs1_len, co, file_size),
        img.subrange(0x78, 0xCC) == itsp_header(depth, root, last_pmgl, total, lang_id),
        img.subrange(f.len() as int, f.len() + s0.len() as int) == s0,
        img.subrange(f.len() + s0.len() as int, img.len() as int) == comp,
        forall|k: int| 0 <= k < total ==> #[trigger] chunk_sane(img, k),
{
    assert(img =~= f + (s0 + comp));
    lemma_listing_extend(f, s0 + comp, total as int);
    assert(img.subrange(0, 0x78) =~= hv.subrange(0, 0x78));
    assert(img.subrange(0x78, 0xCC) =~= hv.subrange(0x78, 0xCC));
    assert(hv.subrange(0, 0x78) =~= itsf_header(lang_id, hs1_len, co, file_size));
    assert(hv.subrange(0x78, 0xCC) =~= itsp_header(depth, root, last_pmgl, total, lang_id));
    lemma_header_fields(img, lang_id, hs1_len, co, file_size, depth, root, last_pmgl, total);
    assert(img.subrange(f.len() as int, f.len() + s0.len() as int) =~= s0);
    assert(img.subrange(f.len() + s0.len() as int, img.len() as int) =~= comp);
}


proof fn lemma_sorted_names_ok(ents: Seq<DirEntry>, sorted: Seq<DirEntry>)
    requires
        names_ok(ents),
        sorted.to_multiset() == ents.to_multiset(),
    ensures
        names_ok(sorted),
        sorted.len() == ents.len(),
{
    vstd::seq_lib::to_multiset_len(sorted);
    vstd::seq_lib::to_multiset_len(ents);
    assert forall|i: int| 0 <= i < sorted.len() implies #[trigger] sorted[i].name@.len() <= 2000 by {
        vstd::seq_lib::to_multiset_contains(sorted, sorted[i]);
        vstd::seq_lib::to_multiset_contains(ents, sorted[i]);
        assert(sorted.contains(sorted[i]));
        assert(ents.contains(sorted[i]));
        let j = choose|j: int| 0 <= j < ents.len() && ents[j] == sorted[i];
        assert(ents[j].name@.len() <= 2000);
    }
}

/// The image of a complete archive: the ITSF header, the ITSP directory header, the
/// directory chunks (listing chunks in name order, then the index chunks), section 0,
/// then the compressed section. The file's size is the image's length.
#[verifier::rlimit(100)]
#[verifier::spinoff_prover]
pub fn build_container(lang_id: u32, entries: Vec<DirEntry>, section0: &[u8], compressed: &[u8]) -> (image: Vec<u8>)
    requires
        1 <= entries@.len() <= 0x2000_0000,
        names_ok(entries@),
        section0@.len() + compressed@.len() <= 0x1_0000_0000_0000,
    ensures
        header_ok(image@),
        itsp_at(image@) == 0x78,
        le32_at(image@, 0x88) == CHUNK,
        ({
            let total = le32_at(image@, 0xA4);
            let co = 0xCC + total * CHUNK;
            &&& le64_at(image@, 0x58) == co
            &&& image@.len() == co + section0@.len() + compressed@.len()
            &&& image@.subrange(co, co + section0@.len()) == section0@
            &&& image@.subrange(co + section0@.len(), image@.len() as int) == compressed@
            &&& image@.subrange(0, 0x78) == itsf_header(lang_id, (0x54 + total * CHUNK) as u64, co as u64, image@.len() as u64)
            &&& exists|d: u32, r: i32, l: u32| #[trigger] itsp_header(d, r, l, total as u32, lang_id) == image@.subrange(0x78, 0xCC)
            &&& exists|sorted: Seq<DirEntry>| sorted.to_multiset() == entries@.to_multiset() && sorted_names(sorted)
                && #[trigger] dir_listing(sorted) == listing_of(image@, 0xCC, CHUNK as int, total)
            &&& forall|k: int| 0 <= k < total ==> #[trigger] chunk_sane(image@, k)
        }),
{
    let ghost ents = entries@;
    let sorted = sort_entries(entries);
    proof {
        lemma_sorted_names_ok(ents, sorted@);
    }
    let list = listing_chunks(&sorted);
    let (index, depth, root) = index_chunks(&list);
    let np = list.len();
    let ni = index.len();
    let total = np + ni;
    assert(total <= 4 * 0x2000_0000);
    let chunks_len: u64 = total as u64 * 0x1000;
    let hs1_len: u64 = 0x54 + chunks_len;
    let co: u64 = 0x78 + hs1_len;
    let file_size: u64 = co + section0.len() as u64 + compressed.len() as u64;
    let mut out = Buf::new();
    write_itsf(&mut out, lang_id, hs1_len, co, file_size);
    write_itsp(&mut out, depth, root, (np - 1) as u32, total as u32, lang_id);
    let ghost hv = out@;
    append_directory(&mut out, &list, &index);
    let ghost f = out@;
    out.raw(section0);
    out.raw(compressed);
    let ghost img = out@;
    proof {
        lemma_image_facts(img, f, hv, section0@, compressed@, lang_id, hs1_len, co, file_size, depth, root, (np - 1) as u32, total as u32);
        assert(dir_listing(sorted@) == listing_of(img, 0xCC, CHUNK as int, total as int));
    }
    out.v
}


} // verus!
