//! Keyword and ALink entries of the binary index: collected from topics' `<object>`
//! controls and from the index sitemap, sorted by lower-cased text, serialized and
//! packed into the index tree.
use vstd::prelude::*;
use vstd::string::StringSliceAdditionalSpecFns;
use crate::btree::{assemble_btree, btree_layout, data_records, property_spec, BinIndexFiles};
use crate::bytebuf::{Buf, u16_le, u32_le};
use crate::fifti::{bytes_less, bytes_lt, lemma_bytes_lt_asym, lemma_bytes_lt_irrefl, lemma_bytes_lt_total, lemma_bytes_lt_trans};
use crate::sitemap::{copy_vec, lookup, SiteMap, SiteMapItem};
use crate::strutil::{eq_bytes, lower, slashes};
use crate::tables::{enc_cp, patch32, Strings, Topics, Urls};
use crate::textenc::{append_utf16le, auto_cps, decode_auto_bytes, lc_seq, tables_ok, utf16le_bytes, CodepageTable};

verus! {

/// One index entry: its shown text (`a, b` for nested entries), sort key, depth,
/// where the last part starts, a see-also target or the topics it leads to.
pub struct KeywordEntry {
    pub display: Vec<u8>,
    pub sort_key: Vec<u8>,
    pub depth: u16,
    pub char_index: u32,
    pub see_also: bool,
    pub see_also_target: Vec<u8>,
    pub topic_ids: Vec<u32>,
}

/// The entries of a keyword or ALink index being built: those from the sitemap in
/// order, and the ones from topics' controls, one per lower-cased keyword, in key
/// order.
pub struct BTreeBuilder {
    pub cp: u32,
    pub entries: Vec<KeywordEntry>,
    pub flat: Vec<KeywordEntry>,
}

/// The keys of `flat` are strictly increasing.
pub open spec fn flat_sorted(flat: Seq<KeywordEntry>) -> bool {
    forall|i: int, j: int| 0 <= i < j < flat.len() ==> bytes_lt(#[trigger] flat[i].sort_key@, #[trigger] flat[j].sort_key@)
}

/// The little-endian dwords of `s`.
pub open spec fn u32s(s: Seq<u32>) -> Seq<u8>
    decreases s.len(),
{
    if s.len() == 0 {
        Seq::empty()
    } else {
        u32s(s.drop_last()) + u32_le(s.last())
    }
}

/// The serialized form of entry `e`, the `seq`-th of the index: its text in UTF-16LE
/// and a zero unit, the see-also flag, depth, where the last part starts, then the
/// see-also text or the topic list, and the entry's record number times 13.
pub open spec fn serialize_spec(e: KeywordEntry, seq: u32, cp: u32, ts: Seq<CodepageTable>) -> Seq<u8> {
    utf16le_bytes(auto_cps(e.display@, cp, ts)) + u16_le(0) + u16_le(if e.see_also { 2 } else { 0 })
        + u16_le(e.depth) + u32_le(e.char_index) + u32_le(0) + (if e.see_also {
        u32_le(1) + utf16le_bytes(auto_cps(e.see_also_target@, cp, ts)) + u16_le(0)
    } else {
        u32_le(e.topic_ids@.len() as u32) + u32s(e.topic_ids@)
    }) + u32_le(1) + u32_le(((seq * 13) % 0x1_0000_0000) as u32)
}

/// The number of entries an item and the items under it make.
pub open spec fn item_size(it: SiteMapItem) -> nat
    decreases it, 1int,
{
    1 + items_size(it.children@, 0)
}

pub open spec fn items_size(items: Seq<SiteMapItem>, i: int) -> nat
    decreases items, items.len() - i,
{
    if i < 0 || i >= items.len() {
        0
    } else {
        item_size(items[i]) + items_size(items, i + 1)
    }
}

fn copy_u32s(v: &Vec<u32>) -> (r: Vec<u32>)
    ensures
        r@ == v@,
{
    let mut r: Vec<u32> = Vec::new();
    let n = v.len();
    let mut k: usize = 0;
    while k < n
        invariant
            k <= n,
            n == v@.len(),
            r@ == v@.subrange(0, k as int),
        decreases n - k,
    {
        r.push(v[k]);
        k = k + 1;
        assert(r@ =~= v@.subrange(0, k as int));
    }
    assert(v@.subrange(0, n as int) =~= v@);
    r
}

/// A copy of the entry.
pub fn copy_entry(e: &KeywordEntry) -> (r: KeywordEntry)
    ensures
        r.display@ == e.display@,
        r.sort_key@ == e.sort_key@,
        r.depth == e.depth,
        r.char_index == e.char_index,
        r.see_also == e.see_also,
        r.see_also_target@ == e.see_also_target@,
        r.topic_ids@ == e.topic_ids@,
{
    KeywordEntry {
        display: copy_vec(&e.display),
        sort_key: copy_vec(&e.sort_key),
        depth: e.depth,
        char_index: e.char_index,
        see_also: e.see_also,
        see_also_target: copy_vec(&e.see_also_target),
        topic_ids: copy_u32s(&e.topic_ids),
    }
}

/// Where `key` is or would go among the increasing keys of `flat`.
fn find_key(flat: &Vec<KeywordEntry>, key: &[u8]) -> (p: usize)
    requires
        flat_sorted(flat@),
    ensures
        p <= flat@.len(),
        forall|i: int| 0 <= i < p ==> bytes_lt(#[trigger] flat@[i].sort_key@, key@),
        p < flat@.len() ==> !bytes_lt(flat@[p as int].sort_key@, key@),
{
    let n = flat.len();
    let mut p: usize = 0;
    while p < n && bytes_less(flat[p].sort_key.as_slice(), key)
        invariant
            p <= n,
            n == flat@.len(),
            forall|i: int| 0 <= i < p ==> bytes_lt(#[trigger] flat@[i].sort_key@, key@),
        decreases n - p,
    {
        p = p + 1;
    }
    p
}

/// Whether `v` holds `x`.
fn has_u32(v: &Vec<u32>, x: u32) -> (r: bool)
    ensures
        r == v@.contains(x),
{
    let n = v.len();
    let mut i: usize = 0;
    while i < n
        invariant
            i <= n,
            n == v@.len(),
            forall|j: int| 0 <= j < i ==> v@[j] != x,
        decreases n - i,
    {
        if v[i] == x {
            assert(v@[i as int] == x);
            return true;
        }
        i = i + 1;
    }
    false
}

impl BTreeBuilder {
    /// An empty builder for codepage `cp`.
    pub fn new(cp: u32) -> (b: BTreeBuilder)
        ensures
            b.cp == cp,
            b.entries@.len() == 0,
            b.flat@.len() == 0,
    {
        BTreeBuilder { cp, entries: Vec::new(), flat: Vec::new() }
    }

    /// Nothing has been added.
    pub fn empty(&self) -> (r: bool)
        ensures
            r == (self.entries@.len() == 0 && self.flat@.len() == 0),
    {
        self.entries.len() == 0 && self.flat.len() == 0
    }

    /// Records that `word` leads to topic `topic_id`: the entry of the lower-cased
    /// word (made on first sight, shown as first written) gets the topic once.
    pub fn add_keyword(&mut self, word: &[u8], topic_id: u32)
        requires
            flat_sorted(old(self).flat@),
        ensures
            flat_sorted(final(self).flat@),
            final(self).cp == old(self).cp,
            final(self).entries == old(self).entries,
            exists|i: int|
                0 <= i < final(self).flat@.len() && (#[trigger] final(self).flat@[i]).sort_key@ == lc_seq(word@)
                    && final(self).flat@[i].topic_ids@.contains(topic_id),
            final(self).flat@.len() == old(self).flat@.len() + (if exists|i: int|
                0 <= i < old(self).flat@.len() && (#[trigger] old(self).flat@[i]).sort_key@ == lc_seq(word@) {
                0int
            } else {
                1int
            }),
            has_topic(final(self).flat@, lc_seq(word@), topic_id),
            forall|key: Seq<u8>, t: u32| #[trigger] has_topic(old(self).flat@, key, t) ==> has_topic(final(self).flat@, key, t),
    {
        let key = lower(word);
        let p = find_key(&self.flat, &key);
        let n = self.flat.len();
        let ghost f0 = self.flat@;
        if p < n && eq_bytes(&self.flat[p].sort_key, &key) {
            let mut e = copy_entry(&self.flat[p]);
            if e.display.len() == 0 {
                e.display = vstd::slice::slice_to_vec(word);
                e.sort_key = copy_vec(&key);
            }
            if !has_u32(&e.topic_ids, topic_id) {
                e.topic_ids.push(topic_id);
            }
            proof {
                assert(e.topic_ids@.contains(topic_id)) by {
                    if !old(self).flat@[p as int].topic_ids@.contains(topic_id) {
                        assert(e.topic_ids@.last() == topic_id);
                    }
                }
            }
            self.flat.set(p, e);
            proof {
                assert forall|i: int, j: int| 0 <= i < j < self.flat@.len() implies bytes_lt(
                    #[trigger] self.flat@[i].sort_key@,
                    #[trigger] self.flat@[j].sort_key@,
                ) by {
                    assert(f0[i].sort_key@ == self.flat@[i].sort_key@);
                    assert(f0[j].sort_key@ == self.flat@[j].sort_key@);
                }
                assert(self.flat@[p as int].sort_key@ == lc_seq(word@));
                assert(has_topic(self.flat@, lc_seq(word@), topic_id)) by {
                    assert(self.flat@[p as int].topic_ids@.contains(topic_id));
                }
                assert forall|key: Seq<u8>, t: u32| #[trigger] has_topic(f0, key, t) implies has_topic(self.flat@, key, t) by {
                    let j = choose|j: int| 0 <= j < f0.len() && f0[j].sort_key@ == key && f0[j].topic_ids@.contains(t);
                    if j == p {
                        let k = choose|k: int| 0 <= k < f0[j].topic_ids@.len() && f0[j].topic_ids@[k] == t;
                        assert(self.flat@[j].topic_ids@[k] == t);
                    }
                    assert(self.flat@[j].topic_ids@.contains(t));
                }
            }
        } else {
            proof {
                assert forall|i: int| 0 <= i < f0.len() implies (#[trigger] f0[i]).sort_key@ != lc_seq(word@) by {
                    if i < p {
                        lemma_bytes_lt_irrefl(key@, key@, 0);
                    } else if p < n {
                        if f0[i].sort_key@ == key@ {
                            if i > p {
                                assert(bytes_lt(f0[p as int].sort_key@, f0[i].sort_key@));

                            }
                        }
                    }
                }
            }
            let e = KeywordEntry {
                display: vstd::slice::slice_to_vec(word),
                sort_key: copy_vec(&key),
                depth: 0,
                char_index: 0,
                see_also: false,
                see_also_target: Vec::new(),
                topic_ids: vec![topic_id],
            };
            proof {
                assert(e.topic_ids@[0] == topic_id);
                if p < n {
                    assert(f0[p as int].sort_key@ != key@);
                    assert(f0[p as int].sort_key@.subrange(0, 0) =~= key@.subrange(0, 0));
                    lemma_bytes_lt_total(f0[p as int].sort_key@, key@, 0);
                }
            }
            self.flat.insert(p, e);
            proof {
                let f = self.flat@;
                assert(f[p as int].sort_key@ == key@);
                assert forall|i: int, j: int| 0 <= i < j < f.len() implies bytes_lt(
                    #[trigger] f[i].sort_key@,
                    #[trigger] f[j].sort_key@,
                ) by {
                    if j < p {
                        assert(f[i] == f0[i] && f[j] == f0[j]);
                    } else if j == p {
                        assert(f[i] == f0[i]);
                    } else if i < p {
                        assert(f[i] == f0[i] && f[j] == f0[j - 1]);
                        assert(bytes_lt(f0[i].sort_key@, key@));
                        if j - 1 > p {
                            assert(bytes_lt(f0[p as int].sort_key@, f0[j - 1].sort_key@));
                            lemma_bytes_lt_trans(key@, f0[p as int].sort_key@, f0[j - 1].sort_key@, 0);
                        }
                        lemma_bytes_lt_trans(f0[i].sort_key@, key@, f0[j - 1].sort_key@, 0);
                    } else if i == p {
                        assert(f[j] == f0[j - 1]);
                        if j - 1 > p {
                            assert(bytes_lt(f0[p as int].sort_key@, f0[j - 1].sort_key@));
                            lemma_bytes_lt_trans(key@, f0[p as int].sort_key@, f0[j - 1].sort_key@, 0);
                        }
                    } else {
                        assert(f[i] == f0[i - 1] && f[j] == f0[j - 1]);
                    }
                }
                assert(f[p as int].topic_ids@.contains(topic_id)) by {
                    assert(f[p as int].topic_ids@[0] == topic_id);
                }
                assert(has_topic(f, lc_seq(word@), topic_id));
                assert forall|k: Seq<u8>, t: u32| #[trigger] has_topic(f0, k, t) implies has_topic(f, k, t) by {
                    let j = choose|j: int| 0 <= j < f0.len() && f0[j].sort_key@ == k && f0[j].topic_ids@.contains(t);
                    if j < p {
                        assert(f[j] == f0[j]);
                    } else {
                        assert(f[j + 1] == f0[j]);
                    }
                }
            }
        }
    }
}

/// The entry of key `key` in `flat` leads to topic `t`.
pub open spec fn has_topic(flat: Seq<KeywordEntry>, key: Seq<u8>, t: u32) -> bool {
    exists|j: int| 0 <= j < flat.len() && (#[trigger] flat[j]).sort_key@ == key && flat[j].topic_ids@.contains(t)
}

/// The keys never decrease.
pub open spec fn keys_sorted(s: Seq<KeywordEntry>) -> bool {
    forall|x: int, y: int| 0 <= x < y < s.len() ==> !bytes_lt(#[trigger] s[y].sort_key@, #[trigger] s[x].sort_key@)
}

/// The entries in key order, ties kept in their given order.
#[verifier::spinoff_prover]
pub fn sort_keywords(entries: Vec<KeywordEntry>) -> (out: Vec<KeywordEntry>)
    ensures
        out@.to_multiset() == entries@.to_multiset(),
        keys_sorted(out@),
{
    let ghost all = entries@;
    let mut rest = entries;
    let mut out: Vec<KeywordEntry> = Vec::new();
    let n = rest.len();
    let mut k: usize = 0;
    proof {
        assert(all.take(0) =~= Seq::<KeywordEntry>::empty());
        assert(all.skip(0) =~= all);
    }
    while k < n
        invariant
            k <= n,
            n == all.len(),
            rest@ == all.skip(k as int),
            out@.to_multiset() == all.take(k as int).to_multiset(),
            keys_sorted(out@),
        decreases n - k,
    {
        let x = rest.remove(0);
        proof {
            assert(x == all[k as int]);
            assert(rest@ =~= all.skip(k + 1));
        }
        let m = out.len();
        let mut p: usize = 0;
        while p < m && !bytes_less(x.sort_key.as_slice(), out[p].sort_key.as_slice())
            invariant
                p <= m,
                m == out@.len(),
                forall|j: int| 0 <= j < p ==> !bytes_lt(x.sort_key@, #[trigger] out@[j].sort_key@),
            decreases m - p,
        {
            p = p + 1;
        }
        let ghost o = out@;
        proof {
            assert forall|y: int| p <= y < m implies !bytes_lt(#[trigger] o[y].sort_key@, x.sort_key@) by {
                if bytes_lt(o[y].sort_key@, x.sort_key@) {
                    if y == p {
                        lemma_bytes_lt_asym(o[y].sort_key@, x.sort_key@, 0);
                    } else {
                        assert(!bytes_lt(o[y].sort_key@, o[p as int].sort_key@));
                        lemma_bytes_lt_trans(o[y].sort_key@, x.sort_key@, o[p as int].sort_key@, 0);
                    }
                }
            }
        }
        out.insert(p, x);
        proof {
            vstd::seq_lib::to_multiset_insert(o, p as int, x);
            vstd::seq_lib::to_multiset_build(all.take(k as int), all[k as int]);
            assert(all.take(k + 1) =~= all.take(k as int).push(all[k as int]));
            assert forall|a: int, b: int| 0 <= a < b < out@.len() implies !bytes_lt(#[trigger] out@[b].sort_key@, #[trigger] out@[a].sort_key@) by {
                if a < p && b < p {
                    assert(out@[a] == o[a] && out@[b] == o[b]);
                } else if a < p && b == p {
                    assert(out@[a] == o[a] && out@[b] == x);
                } else if a < p {
                    assert(out@[b] == o[b - 1]);
                } else if a == p {
                    assert(out@[b] == o[b - 1]);
                } else {
                    assert(out@[a] == o[a - 1] && out@[b] == o[b - 1]);
                }
            }
        }
        k = k + 1;
    }
    proof {
        assert(all.take(n as int) =~= all);
    }
    out
}

/// `r` is the index of `es`: `blobs` are their serialized forms in order, and the
/// tree packs them.
pub open spec fn serialized_index(r: BinIndexFiles, es: Seq<KeywordEntry>, cp: u32, ts: Seq<CodepageTable>, lcid: u32, blobs: Seq<Vec<u8>>) -> bool {
    &&& blobs.len() == es.len()
    &&& (forall|i: int| 0 <= i < blobs.len() ==> (#[trigger] blobs[i])@ == serialize_spec(es[i], i as u32, cp, ts))
    &&& exists|bodies: Seq<Seq<u8>>, counts: Seq<u32>, idx: Seq<u8>, nlev: nat|
        #[trigger] btree_layout(r, blobs, lcid, cp, bodies, counts, idx, nlev)
}

/// Serializes entry `e` as the `seq`-th of the index.
pub fn serialize(e: &KeywordEntry, seq: u32, cp: u32, tables: &[CodepageTable]) -> (r: Vec<u8>)
    requires
        tables_ok(tables@),
    ensures
        r@ == serialize_spec(*e, seq, cp, tables@),
{
    let mut b = Buf::new();
    let disp = decode_auto_bytes(&e.display, cp, tables);
    append_utf16le(&mut b.v, &disp);
    let ghost head = b@;
    b.u16(0);
    b.u16(if e.see_also { 2 } else { 0 });
    b.u16(e.depth);
    b.u32(e.char_index);
    b.u32(0);
    let ghost mid = b@;
    if e.see_also {
        b.u32(1);
        let tgt = decode_auto_bytes(&e.see_also_target, cp, tables);
        append_utf16le(&mut b.v, &tgt);
        b.u16(0);
    } else {
        b.u32(e.topic_ids.len() as u32);
        let n = e.topic_ids.len();
        let ghost t0 = b@;
        let mut k: usize = 0;
        while k < n
            invariant
                k <= n,
                n == e.topic_ids@.len(),
                b@ == t0 + u32s(e.topic_ids@.subrange(0, k as int)),
            decreases n - k,
        {
            b.u32(e.topic_ids[k]);
            proof {
                assert(e.topic_ids@.subrange(0, k + 1).drop_last() =~= e.topic_ids@.subrange(0, k as int));
            }
            k = k + 1;
        }
        proof {
            assert(e.topic_ids@.subrange(0, n as int) =~= e.topic_ids@);
        }
    }
    let ghost tail = b@;
    b.u32(1);
    b.u32(seq.wrapping_mul(13));
    proof {
        assert(b@ =~= serialize_spec(*e, seq, cp, tables@));
    }
    b.v
}

/// A serialized entry is at least 26 bytes.
proof fn lemma_serialize_len(e: KeywordEntry, seq: u32, cp: u32, ts: Seq<CodepageTable>)
    ensures
        serialize_spec(e, seq, cp, ts).len() >= 26,
{
}

impl BTreeBuilder {
    /// Builds the index files: the entries from the sitemap and then those from the
    /// controls, sorted by key (ties in that order), serialized in turn and packed.
    pub fn assemble(&mut self, lcid: u32, tables: &[CodepageTable]) -> (r: BinIndexFiles)
        requires
            tables_ok(tables@),
            old(self).entries@.len() + old(self).flat@.len() < 0x8000_0000,
        ensures
            final(self).cp == old(self).cp,
            final(self).flat@.len() == 0,
            final(self).entries@.to_multiset() == (old(self).entries@ + old(self).flat@).to_multiset(),
            keys_sorted(final(self).entries@),
            r.data@ == data_records(final(self).entries@.len()),
            r.property@ == property_spec(final(self).entries@.len() > 0),
            exists|blobs: Seq<Vec<u8>>|
                #[trigger] serialized_index(r, final(self).entries@, old(self).cp, tables@, lcid, blobs),
    {
        let mut all: Vec<KeywordEntry> = Vec::new();
        let mut moved = Vec::new();
        std::mem::swap(&mut moved, &mut self.entries);
        let mut flat = Vec::new();
        std::mem::swap(&mut flat, &mut self.flat);
        let ghost joined = moved@ + flat@;
        all.append(&mut moved);
        all.append(&mut flat);
        proof {
            assert(all@ =~= joined);
        }
        let sorted = sort_keywords(all);
        let n = sorted.len();
        proof {
            vstd::seq_lib::to_multiset_len(sorted@);
            vstd::seq_lib::to_multiset_len(joined);
        }
        let mut blobs: Vec<Vec<u8>> = Vec::new();
        let mut i: usize = 0;
        while i < n
            invariant
                i <= n,
                n == sorted@.len(),
                n < 0x8000_0000,
                tables_ok(tables@),
                blobs@.len() == i,
                forall|j: int| 0 <= j < i ==> (#[trigger] blobs@[j])@ == serialize_spec(sorted@[j], j as u32, self.cp, tables@),
            decreases n - i,
        {
            let blob = serialize(&sorted[i], i as u32, self.cp, tables);
            blobs.push(blob);
            i = i + 1;
        }
        proof {
            assert forall|j: int| 0 <= j < blobs@.len() implies (#[trigger] blobs@[j])@.len() >= 8 by {
                lemma_serialize_len(sorted@[j], j as u32, self.cp, tables@);
            }
        }
        let r = assemble_btree(&blobs, lcid, self.cp);
        self.entries = sorted;
        proof {
            assert(serialized_index(r, self.entries@, self.cp, tables@, lcid, blobs@));
        }
        r
    }
}

/// `path`, a comma and a space, then `name`.
fn join_path(path: &Vec<u8>, name: &Vec<u8>) -> (r: Vec<u8>)
    ensures
        r@ == path@ + seq![0x2Cu8, 0x20] + name@,
{
    let mut r = copy_vec(path);
    r.push(0x2C);
    r.push(0x20);
    let n = name.len();
    let ghost r0 = r@;
    let mut k: usize = 0;
    while k < n
        invariant
            k <= n,
            n == name@.len(),
            r@ == r0 + name@.subrange(0, k as int),
        decreases n - k,
    {
        r.push(name[k]);
        k = k + 1;
        assert(r@ =~= r0 + name@.subrange(0, k as int));
    }
    assert(name@.subrange(0, n as int) =~= name@);
    assert(r@ =~= path@ + seq![0x2Cu8, 0x20] + name@);
    r
}

/// The tables a sitemap walk keeps whole.
pub open spec fn tables_wf(strings: Strings, urls: Urls) -> bool {
    strings.wf() && urls.wf()
}

impl BTreeBuilder {
    /// Adds the entry of sitemap item `item` shown as `path`, then those of the
    /// items under it (each shown as `path, name`). A see-also item keeps its target;
    /// any other gets the topic of each `local` parameter, a new topic titled with the
    /// latest `name` when the URL has none yet.
    pub fn flatten(
        &mut self,
        item: &SiteMapItem,
        path: &Vec<u8>,
        char_index: u32,
        depth: u16,
        strings: &mut Strings,
        urls: &mut Urls,
        topics: &mut Topics,
        tables: &[CodepageTable],
    )
        requires
            old(strings).wf(),
            old(urls).wf(),
            tables_ok(tables@),
        ensures
            final(strings).wf(),
            final(urls).wf(),
            final(self).cp == old(self).cp,
            final(self).flat == old(self).flat,
            final(self).entries@.len() == old(self).entries@.len() + item_size(*item),
            forall|i: int| 0 <= i < old(self).entries@.len() ==> #[trigger] final(self).entries@[i] == old(self).entries@[i],
            ({
                let e = final(self).entries@[old(self).entries@.len() as int];
                &&& e.display@ == path@
                &&& e.sort_key@ == lc_seq(path@)
                &&& e.depth == depth
                &&& e.char_index == (if depth == 0 { 0 } else { char_index })
                &&& e.see_also == (lookup(item.params@, "see also".spec_bytes()).len() > 0)
                &&& e.see_also ==> e.see_also_target@ == lookup(item.params@, "see also".spec_bytes())
                &&& e.see_also ==> e.topic_ids@.len() == 0
            }),
        decreases *item,
    {
        let mut e = KeywordEntry {
            display: copy_vec(path),
            sort_key: lower(path),
            depth,
            char_index: if depth == 0 { 0 } else { char_index },
            see_also: false,
            see_also_target: Vec::new(),
            topic_ids: Vec::new(),
        };
        let see_also = item.param("see also".as_bytes());
        if see_also.len() > 0 {
            e.see_also = true;
            e.see_also_target = see_also;
        } else {
            let mut last_name = item.param("name".as_bytes());
            let mut first_name = true;
            let np = item.params.len();
            let mut k: usize = 0;
            while k < np
                invariant
                    k <= np,
                    np == item.params@.len(),
                    strings.wf(),
                    urls.wf(),
                    tables_ok(tables@),
                    !e.see_also,
                    e.display@ == path@,
                    e.sort_key@ == lc_seq(path@),
                    e.depth == depth,
                    e.char_index == (if depth == 0 { 0 } else { char_index }),
                decreases np - k,
            {
                let pn = &item.params[k].0;
                let pv = &item.params[k].1;
                if eq_bytes(pn, "name".as_bytes()) {
                    if !first_name {
                        last_name = copy_vec(pv);
                    }
                    first_name = false;
                } else if eq_bytes(pn, "local".as_bytes()) {
                    let local = slashes(pv);
                    let mut idx = topics.find(&local);
                    if idx < 0 {
                        let title = enc_cp(&last_name, self.cp, tables);
                        idx = topics.add(strings, urls, &title, &local, -1) as i32;
                    }
                    e.topic_ids.push(idx as u32);
                }
                k = k + 1;
            }
        }
        let ghost before = self.entries@;
        self.entries.push(e);
        let nc = item.children.len();
        let mut i: usize = 0;
        let ghost base = before.len();
        proof {
            assert(item_size(*item) == 1 + items_size(item.children@, 0));
        }
        while i < nc
            invariant
                i <= nc,
                nc == item.children@.len(),
                strings.wf(),
                urls.wf(),
                tables_ok(tables@),
                self.cp == old(self).cp,
                self.flat == old(self).flat,
                base == old(self).entries@.len(),
                self.entries@.len() > base,
                self.entries@.len() + items_size(item.children@, i as int) == base + item_size(*item),
                forall|q: int| 0 <= q <= base ==> #[trigger] self.entries@[q] == before.push(e)[q],
            decreases nc - i,
        {
            let child = &item.children[i];
            let cname = child.param("name".as_bytes());
            let cpath = join_path(path, &cname);
            let ci = (path.len() as u32).wrapping_add(2);
            let cd = depth.wrapping_add(1);
            proof {
                assert(decreases_to!(*item => item.children@[i as int]));
                assert(items_size(item.children@, i as int) == item_size(item.children@[i as int]) + items_size(item.children@, i + 1));
            }
            let ghost mid = self.entries@;
            self.flatten(child, &cpath, ci, cd, strings, urls, topics, tables);
            proof {
                assert forall|q: int| 0 <= q <= base implies #[trigger] self.entries@[q] == before.push(e)[q] by {
                    assert(self.entries@[q] == mid[q]);
                }
            }
            i = i + 1;
        }
        proof {
            assert(self.entries@[base as int] == before.push(e)[base as int]);
        }
    }
}

/// `order` lists each position of `keys` once, by key, ties in position order.
pub open spec fn key_order(keys: Seq<Seq<u8>>, order: Seq<usize>) -> bool {
    &&& order.len() == keys.len()
    &&& forall|j: int| 0 <= j < order.len() ==> (#[trigger] order[j]) < keys.len()
    &&& forall|a: int, b: int| 0 <= a < b < order.len() ==> (#[trigger] order[a]) != (#[trigger] order[b])
    &&& forall|x: int, y: int| 0 <= x < y < order.len() ==> !bytes_lt(keys[(#[trigger] order[y]) as int], keys[(#[trigger] order[x]) as int])
    &&& forall|x: int, y: int| 0 <= x < y < order.len() && keys[(#[trigger] order[y]) as int] == keys[(#[trigger] order[x]) as int]
        ==> order[x] < order[y]
}

/// The contents of the keys.
pub open spec fn key_views(keys: Seq<Vec<u8>>) -> Seq<Seq<u8>> {
    Seq::new(keys.len(), |i: int| keys[i]@)
}

/// The lower-cased names of the items.
pub open spec fn item_keys(items: Seq<SiteMapItem>) -> Seq<Seq<u8>> {
    Seq::new(items.len(), |i: int| lc_seq(lookup(items[i].params@, "name".spec_bytes())))
}

/// The number of entries the first `j` of the items make, taken in `order`.
pub open spec fn ordered_size(items: Seq<SiteMapItem>, order: Seq<usize>, j: int) -> int
    decreases j,
{
    if j <= 0 {
        0
    } else {
        ordered_size(items, order, j - 1) + item_size(items[order[j - 1] as int])
    }
}

proof fn lemma_ordered_size_nonneg(items: Seq<SiteMapItem>, order: Seq<usize>, j: int)
    ensures
        ordered_size(items, order, j) >= 0,
    decreases j,
{
    if j > 0 {
        lemma_ordered_size_nonneg(items, order, j - 1);
    }
}

/// `e` is the entry a top-level item of an index starts with: its name, in lower case
/// as its key, at depth 0.
pub open spec fn top_entry(e: KeywordEntry, it: SiteMapItem) -> bool {
    &&& e.display@ == lookup(it.params@, "name".spec_bytes())
    &&& e.sort_key@ == lc_seq(e.display@)
    &&& e.depth == 0
    &&& e.char_index == 0
}

/// The positions `0..keys.len()` ordered by key, ties in position order.
fn order_by_key(keys: &Vec<Vec<u8>>) -> (order: Vec<usize>)
    ensures
        order@.len() == keys@.len(),
        forall|j: int| 0 <= j < order@.len() ==> (#[trigger] order@[j]) < keys@.len(),
        forall|x: int, y: int| 0 <= x < y < order@.len() ==> !bytes_lt(keys@[order@[y] as int]@, keys@[order@[x] as int]@),
        key_order(key_views(keys@), order@),
{
    let n = keys.len();
    let mut order: Vec<usize> = Vec::new();
    let mut k: usize = 0;
    while k < n
        invariant
            k <= n,
            n == keys@.len(),
            order@.len() == k,
            forall|j: int| 0 <= j < order@.len() ==> (#[trigger] order@[j]) < k,
            forall|x: int, y: int| 0 <= x < y < order@.len() ==> !bytes_lt(keys@[order@[y] as int]@, keys@[order@[x] as int]@),
            forall|a: int, b: int| 0 <= a < b < order@.len() ==> (#[trigger] order@[a]) != (#[trigger] order@[b]),
            forall|x: int, y: int| 0 <= x < y < order@.len() && keys@[(#[trigger] order@[y]) as int]@ == keys@[(#[trigger] order@[x]) as int]@
                ==> order@[x] < order@[y],
        decreases n - k,
    {
        let m = order.len();
        let mut p: usize = 0;
        while p < m && !bytes_less(keys[k].as_slice(), keys[order[p]].as_slice())
            invariant
                p <= m,
                m == order@.len(),
                k < n,
                n == keys@.len(),
                forall|j: int| 0 <= j < order@.len() ==> (#[trigger] order@[j]) < k,
                forall|j: int| 0 <= j < p ==> !bytes_lt(keys@[k as int]@, keys@[order@[j] as int]@),
            decreases m - p,
        {
            p = p + 1;
        }
        let ghost o = order@;
        let ghost x = keys@[k as int]@;
        proof {
            assert forall|y: int| p <= y < m implies !bytes_lt(keys@[o[y] as int]@, x) by {
                if bytes_lt(keys@[o[y] as int]@, x) {
                    if y == p {
                        lemma_bytes_lt_asym(keys@[o[y] as int]@, x, 0);
                    } else {
                        assert(!bytes_lt(keys@[o[y] as int]@, keys@[o[p as int] as int]@));
                        lemma_bytes_lt_trans(keys@[o[y] as int]@, x, keys@[o[p as int] as int]@, 0);
                    }
                }
            }
        }
        order.insert(p, k);
        proof {
            assert forall|a: int, b: int| 0 <= a < b < order@.len() implies !bytes_lt(keys@[order@[b] as int]@, keys@[order@[a] as int]@) by {
                if a < p && b < p {
                    assert(order@[a] == o[a] && order@[b] == o[b]);
                } else if a < p && b == p {
                    assert(order@[a] == o[a]);
                } else if a < p {
                    assert(order@[a] == o[a] && order@[b] == o[b - 1]);
                } else if a == p {
                    assert(order@[b] == o[b - 1]);
                } else {
                    assert(order@[a] == o[a - 1] && order@[b] == o[b - 1]);
                }
            }
            assert forall|j: int| 0 <= j < order@.len() implies (#[trigger] order@[j]) < k + 1 by {
                if j < p {
                    assert(order@[j] == o[j]);
                } else if j > p {
                    assert(order@[j] == o[j - 1]);
                }
            }
            assert forall|a: int, b: int| 0 <= a < b < order@.len() implies (#[trigger] order@[a]) != (#[trigger] order@[b]) by {
                if a < p && b < p {
                    assert(order@[a] == o[a] && order@[b] == o[b]);
                } else if a < p && b == p {
                    assert(order@[a] == o[a]);
                    assert(o[a] < k);
                } else if a < p {
                    assert(order@[a] == o[a] && order@[b] == o[b - 1]);
                } else if a == p {
                    assert(order@[b] == o[b - 1]);
                    assert(o[b - 1] < k);
                } else {
                    assert(order@[a] == o[a - 1] && order@[b] == o[b - 1]);
                }
            }
            assert forall|a: int, b: int| 0 <= a < b < order@.len() && keys@[(#[trigger] order@[b]) as int]@ == keys@[(#[trigger] order@[a]) as int]@
                implies order@[a] < order@[b] by {
                if a < p && b < p {
                    assert(order@[a] == o[a] && order@[b] == o[b]);
                } else if a < p && b == p {
                    assert(order@[a] == o[a]);
                    assert(o[a] < k);
                } else if a < p {
                    assert(order@[a] == o[a] && order@[b] == o[b - 1]);
                } else if a == p {
                    assert(order@[b] == o[b - 1]);
                    assert(!bytes_lt(keys@[o[b - 1] as int]@, x));
                    if b - 1 == p {
                        assert(bytes_lt(x, keys@[o[p as int] as int]@));
                    } else {
                        assert(bytes_lt(x, keys@[o[p as int] as int]@));
                        assert(!bytes_lt(keys@[o[b - 1] as int]@, keys@[o[p as int] as int]@));
                    }
                    lemma_bytes_lt_irrefl(x, x, 0);
                    if b - 1 != p {
                        lemma_bytes_lt_trans(x, keys@[o[p as int] as int]@, keys@[o[b - 1] as int]@, 0);
                    }
                    assert(false);
                } else {
                    assert(order@[a] == o[a - 1] && order@[b] == o[b - 1]);
                }
            }
        }
        k = k + 1;
    }
    proof {
        assert forall|j: int| 0 <= j < order@.len() implies (#[trigger] order@[j]) < keys@.len() by {
        }
    }
    order
}

impl BTreeBuilder {
    /// Adds the entries of an index sitemap: its top-level items in order of their
    /// lower-cased names (ties as written), each with the items under it.
    pub fn add_sitemap(
        &mut self,
        sm: &SiteMap,
        strings: &mut Strings,
        urls: &mut Urls,
        topics: &mut Topics,
        tables: &[CodepageTable],
    )
        requires
            old(strings).wf(),
            old(urls).wf(),
            tables_ok(tables@),
        ensures
            final(strings).wf(),
            final(urls).wf(),
            final(self).cp == old(self).cp,
            final(self).flat == old(self).flat,
            forall|i: int| 0 <= i < old(self).entries@.len() ==> #[trigger] final(self).entries@[i] == old(self).entries@[i],
            exists|order: Seq<usize>| #[trigger] key_order(item_keys(sm.items@), order) && final(self).entries@.len()
                == old(self).entries@.len() + ordered_size(sm.items@, order, sm.items@.len() as int) && forall|j: int|
                0 <= j < sm.items@.len() ==> top_entry(
                final(self).entries@[old(self).entries@.len() + #[trigger] ordered_size(sm.items@, order, j)],
                sm.items@[order[j] as int],
            ),
    {
        let n = sm.items.len();
        let mut names: Vec<Vec<u8>> = Vec::new();
        let mut keys: Vec<Vec<u8>> = Vec::new();
        let mut k: usize = 0;
        while k < n
            invariant
                k <= n,
                n == sm.items@.len(),
                names@.len() == k,
                keys@.len() == k,
                forall|q: int| 0 <= q < k ==> (#[trigger] names@[q])@ == lookup(sm.items@[q].params@, "name".spec_bytes()),
                forall|q: int| 0 <= q < k ==> (#[trigger] keys@[q])@ == lc_seq(lookup(sm.items@[q].params@, "name".spec_bytes())),
            decreases n - k,
        {
            let nm = sm.items[k].param("name".as_bytes());
            keys.push(lower(&nm));
            names.push(nm);
            k = k + 1;
        }
        let order = order_by_key(&keys);
        proof {
            assert(key_views(keys@) =~= item_keys(sm.items@));
        }
        let mut j: usize = 0;
        let ghost base = self.entries@.len();
        while j < n
            invariant
                j <= n,
                n == sm.items@.len(),
                n == order@.len(),
                n == names@.len(),
                forall|q: int| 0 <= q < order@.len() ==> (#[trigger] order@[q]) < n,
                forall|q: int| 0 <= q < n ==> (#[trigger] names@[q])@ == lookup(sm.items@[q].params@, "name".spec_bytes()),
                strings.wf(),
                urls.wf(),
                tables_ok(tables@),
                self.cp == old(self).cp,
                self.flat == old(self).flat,
                base == old(self).entries@.len(),
                self.entries@.len() == base + ordered_size(sm.items@, order@, j as int),
                forall|i: int| 0 <= i < base ==> #[trigger] self.entries@[i] == old(self).entries@[i],
                forall|q: int| 0 <= q < j ==> top_entry(
                    self.entries@[base + #[trigger] ordered_size(sm.items@, order@, q)],
                    sm.items@[order@[q] as int],
                ),
                forall|q: int, r: int| 0 <= q < r <= j ==> #[trigger] ordered_size(sm.items@, order@, q) < #[trigger] ordered_size(
                    sm.items@,
                    order@,
                    r,
                ),
            decreases n - j,
        {
            let ix = order[j];
            let ghost mid = self.entries@;
            self.flatten(&sm.items[ix], &names[ix], 0, 0, strings, urls, topics, tables);
            proof {
                lemma_ordered_size_nonneg(sm.items@, order@, j as int);
                assert forall|i: int| 0 <= i < base implies #[trigger] self.entries@[i] == old(self).entries@[i] by {
                    assert(self.entries@[i] == mid[i]);
                }
                assert(ordered_size(sm.items@, order@, j + 1) == ordered_size(sm.items@, order@, j as int) + item_size(
                    sm.items@[ix as int],
                ));
                assert forall|q: int| 0 <= q < j + 1 implies top_entry(
                    self.entries@[base + #[trigger] ordered_size(sm.items@, order@, q)],
                    sm.items@[order@[q] as int],
                ) by {
                    if q < j {
                        lemma_ordered_size_nonneg(sm.items@, order@, q);
                        assert(ordered_size(sm.items@, order@, q) < ordered_size(sm.items@, order@, j as int));
                        assert(self.entries@[base + ordered_size(sm.items@, order@, q)] == mid[base + ordered_size(
                            sm.items@,
                            order@,
                            q,
                        )]);
                    }
                }
                assert forall|q: int, r: int| 0 <= q < r <= j + 1 implies #[trigger] ordered_size(sm.items@, order@, q)
                    < #[trigger] ordered_size(sm.items@, order@, r) by {
                    if r == j + 1 && q < j {
                        assert(ordered_size(sm.items@, order@, q) < ordered_size(sm.items@, order@, j as int));
                    }
                }
            }
            j = j + 1;
        }
        proof {
            assert(key_order(item_keys(sm.items@), order@));
        }
    }
}

/// The number of items in the groups of a level.
pub open spec fn level_count(level: Seq<(&Vec<SiteMapItem>, u32, bool)>) -> nat
    decreases level.len(),
{
    if level.len() == 0 { 0 } else { level_count(level.drop_last()) + level.last().0@.len() }
}

/// The number of entries the groups of a level and everything under them make.
pub open spec fn level_size(level: Seq<(&Vec<SiteMapItem>, u32, bool)>) -> nat
    decreases level.len(),
{
    if level.len() == 0 { 0 } else { level_size(level.drop_last()) + items_size(level.last().0@, 0) }
}

proof fn lemma_level_push(level: Seq<(&Vec<SiteMapItem>, u32, bool)>, g: (&Vec<SiteMapItem>, u32, bool))
    ensures
        level_size(level.push(g)) == level_size(level) + items_size(g.0@, 0),
        level_count(level.push(g)) == level_count(level) + g.0@.len(),
{
    assert(level.push(g).drop_last() =~= level);
}

proof fn lemma_items_size_step(items: Seq<SiteMapItem>, j: int)
    requires
        0 <= j < items.len(),
    ensures
        items_size(items, j) == 1 + items_size(items[j].children@, 0) + items_size(items, j + 1),
{
    assert(item_size(items[j]) == 1 + items_size(items[j].children@, 0));
}

/// The #TOCIDX header: its size, where the TOC entries and topic list start, and the
/// number of TOC items with a local file.
pub open spec fn tocidx_header(entries_offset: u32, local_seq: u32, topics_offset: u32) -> Seq<u8> {
    u32_le(4096) + u32_le(entries_offset) + u32_le(local_seq) + u32_le(topics_offset)
}

/// The little-endian dwords of `ts`, one after another.
pub open spec fn dwords(ts: Seq<u32>) -> Seq<u8>
    decreases ts.len(),
{
    if ts.len() == 0 { Seq::empty() } else { dwords(ts.drop_last()) + u32_le(ts.last()) }
}

/// The topics of TOC entries `te` (pairs of the entry's record offset and its topic).
pub open spec fn entry_topics(te: Seq<(u32, u32)>) -> Seq<u32> {
    Seq::new(te.len(), |i: int| te[i].1)
}

proof fn lemma_dwords_len(ts: Seq<u32>)
    ensures
        dwords(ts).len() == 4 * ts.len(),
    decreases ts.len(),
{
    if ts.len() > 0 {
        lemma_dwords_len(ts.drop_last());
    }
}

/// The TOC-entry records of `te`: for entry `i`, its record offset, 0x29A + `i`, where
/// its topic dword is (`to` + 4`i`) and its topic.
pub open spec fn toc_records(te: Seq<(u32, u32)>, to: u32) -> Seq<u8>
    decreases te.len(),
{
    if te.len() == 0 {
        Seq::empty()
    } else {
        let i = te.len() - 1;
        toc_records(te.drop_last(), to) + u32_le(te.last().0) + u32_le(0x29Au32.wrapping_add(i as u32)) + u32_le(
            to.wrapping_add((i as u32).wrapping_mul(4)),
        ) + u32_le(te.last().1)
    }
}

/// The layout of #TOCIDX with item records `info` and TOC entries `te`: the header
/// (entries offset, entry count, topics offset), zeros to 4096 bytes, the item
/// records, the entries' topics, then the TOC-entry records.
pub open spec fn tocidx_layout(r: Seq<u8>, info: Seq<u8>, te: Seq<(u32, u32)>) -> bool {
    let to = 4096u32.wrapping_add(info.len() as u32);
    let eo = to.wrapping_add((4 * te.len()) as u32);
    let ls = (te.len() % 0x1_0000_0000) as u32;
    r == tocidx_header(eo, ls, to) + Seq::new(4080, |_i: int| 0u8) + info + dwords(entry_topics(te)) + toc_records(te, to)
}

/// Builds the binary table of contents (#TOCIDX): the sitemap's items level by
/// level, each a record of its flags, the topic (added when its file has none yet) or
/// title string, its parent, next sibling and first child; then the topics of the
/// items with a file, and for each of those a TOC-entry record. Each such topic's
/// TOC offset is set to its record.
pub fn build_tocidx(
    toc: &SiteMap,
    strings: &mut Strings,
    urls: &mut Urls,
    topics: &mut Topics,
    cp: u32,
    tables: &[CodepageTable],
) -> (r: Vec<u8>)
    requires
        old(strings).wf(),
        old(urls).wf(),
        tables_ok(tables@),
    ensures
        final(strings).wf(),
        final(urls).wf(),
        r@.len() >= 4096,
        exists|eo: u32, ls: u32, to: u32| r@.subrange(0, 16) == #[trigger] tocidx_header(eo, ls, to),
        exists|info: Seq<u8>, te: Seq<(u32, u32)>| #[trigger] tocidx_layout(r@, info, te),
{
    let mut info = Buf::new();
    let mut topic_dwords = Buf::new();
    let mut toc_entries: Vec<(u32, u32)> = Vec::new();
    let mut local_seq: u32 = 0;
    let mut level: Vec<(&Vec<SiteMapItem>, u32, bool)> = vec![(&toc.items, 0u32, false)];
    loop
        invariant
            strings.wf(),
            urls.wf(),
            tables_ok(tables@),
            topic_dwords@ == dwords(entry_topics(toc_entries@)),
            local_seq == (toc_entries@.len() % 0x1_0000_0000) as u32,
        decreases level_size(level@) + level@.len(),
    {
        if level.len() == 0 {
            break;
        }
        let mut next: Vec<(&Vec<SiteMapItem>, u32, bool)> = Vec::new();
        let nl = level.len();
        let mut gi: usize = 0;
        proof {
            assert(level@.subrange(0, 0) =~= Seq::<(&Vec<SiteMapItem>, u32, bool)>::empty());
        }
        while gi < nl
            invariant
                gi <= nl,
                nl == level@.len(),
                strings.wf(),
                urls.wf(),
                tables_ok(tables@),
                level_size(level@.subrange(0, gi as int)) == level_size(next@) + level_count(level@.subrange(0, gi as int)),
                next@.len() <= level_count(level@.subrange(0, gi as int)),
                topic_dwords@ == dwords(entry_topics(toc_entries@)),
                local_seq == (toc_entries@.len() % 0x1_0000_0000) as u32,
            decreases nl - gi,
        {
            let (items, parent_pos, has_parent) = level[gi];
            let n = items.len();
            let mut j: usize = 0;
            let ghost next0 = next@;
            while j < n
                invariant
                    j <= n,
                    n == items@.len(),
                    strings.wf(),
                    urls.wf(),
                    tables_ok(tables@),
                    level_size(next@) + j + items_size(items@, j as int) == level_size(next0) + items_size(items@, 0),
                    next@.len() <= next0.len() + j,
                    topic_dwords@ == dwords(entry_topics(toc_entries@)),
                    local_seq == (toc_entries@.len() % 0x1_0000_0000) as u32,
                decreases n - j,
            {
                let item = &items[j];
                let local = slashes(&item.param("local".as_bytes()));
                let has_children = item.children.len() > 0;
                let props: u32 = (if has_children { 4u32 } else { 0 }) | (if local.len() == 0 { 0 } else { 8u32 });
                let pos = info.len() as u32;
                if j == 0 && has_parent {
                    let off = parent_pos as u64 + 0x14;
                    if off + 4 <= info.len() as u64 {
                        patch32(&mut info.v, off as usize, 4096u32.wrapping_add(pos));
                    }
                }
                let topics_or_strings: u32;
                if local.len() > 0 {
                    let mut t = topics.find(&local);
                    if t < 0 {
                        let title = enc_cp(&item.param("name".as_bytes()), cp, tables);
                        t = topics.add(strings, urls, &title, &local, 2) as i32;
                    }
                    topics.patch_toc_offset(t as u32, 4096u32.wrapping_add(pos));
                    topics_or_strings = t as u32;
                    let ghost te0 = toc_entries@;
                    topic_dwords.u32(t as u32);
                    toc_entries.push((4096u32.wrapping_add(pos), t as u32));
                    local_seq = local_seq.wrapping_add(1);
                    proof {
                        assert(entry_topics(toc_entries@).drop_last() =~= entry_topics(te0));
                        assert(local_seq == (toc_entries@.len() % 0x1_0000_0000) as u32);
                    }
                } else {
                    topics_or_strings = strings.add_text(&item.param("name".as_bytes()), cp, tables);
                }
                info.u16(0);
                info.u16(local_seq as u16);
                info.u32(props);
                info.u32(topics_or_strings);
                info.u32(if has_parent { 4096u32.wrapping_add(parent_pos) } else { 0 });
                let last_sibling = j + 1 == n;
                let step: u32 = if has_children { 28 } else { 20 };
                info.u32(if last_sibling { 0 } else { 4096u32.wrapping_add(pos).wrapping_add(step) });
                proof {
                    lemma_items_size_step(items@, j as int);
                }
                if has_children {
                    info.u32(0);
                    info.u32(0);
                    let ghost nx = next@;
                    next.push((&item.children, pos, true));
                    proof {
                        lemma_level_push(nx, (&item.children, pos, true));
                    }
                } else {
                    proof {
                        assert(items_size(item.children@, 0) == 0);
                    }
                }
                j = j + 1;
            }
            proof {
                let pre = level@.subrange(0, gi as int);
                let pre1 = level@.subrange(0, gi + 1);
                assert(pre1 =~= pre.push(level@[gi as int]));
                lemma_level_push(pre, level@[gi as int]);
            }
            gi = gi + 1;
        }
        proof {
            assert(level@.subrange(0, nl as int) =~= level@);
        }
        level = next;
    }
    let topics_offset = 4096u32.wrapping_add(info.len() as u32);
    let entries_offset = topics_offset.wrapping_add(topic_dwords.len() as u32);
    let mut out = Buf::new();
    out.u32(4096);
    out.u32(entries_offset);
    out.u32(local_seq);
    out.u32(topics_offset);
    let ghost hdr = out@;
    out.zeros(4096 - 16);
    out.raw(&info.v);
    out.raw(&topic_dwords.v);
    let ghost body = out@;
    let ne = toc_entries.len();
    let mut i: usize = 0;
    proof {
        assert(toc_entries@.take(0) =~= Seq::<(u32, u32)>::empty());
        assert(body =~= body + toc_records(toc_entries@.take(0), topics_offset));
    }
    while i < ne
        invariant
            i <= ne,
            ne == toc_entries@.len(),
            out@.len() >= 4096,
            out@.subrange(0, 16) == hdr,
            body.len() >= 4096,
            body.subrange(0, 16) == hdr,
            out@ == body + toc_records(toc_entries@.take(i as int), topics_offset),
        decreases ne - i,
    {
        let (page_book, topic) = toc_entries[i];
        let ghost o0 = out@;
        out.u32(page_book);
        out.u32(0x29Au32.wrapping_add(i as u32));
        out.u32(topics_offset.wrapping_add((i as u32).wrapping_mul(4)));
        out.u32(topic);
        proof {
            assert(out@.subrange(0, 16) =~= o0.subrange(0, 16));
            let t1 = toc_entries@.take(i + 1);
            assert(t1.drop_last() =~= toc_entries@.take(i as int));
            assert(t1.last() == toc_entries@[i as int]);
            assert(out@ =~= body + toc_records(t1, topics_offset));
        }
        i = i + 1;
    }
    proof {
        assert(hdr == tocidx_header(entries_offset, local_seq, topics_offset));
        assert(toc_entries@.take(ne as int) =~= toc_entries@);
        lemma_dwords_len(entry_topics(toc_entries@));
        assert(out@ =~= tocidx_header(entries_offset, local_seq, topics_offset) + Seq::new(4080, |_i: int| 0u8) + info@
            + dwords(entry_topics(toc_entries@)) + toc_records(toc_entries@, topics_offset));
        assert(tocidx_layout(out@, info@, toc_entries@));
    }
    out.v
}

} // verus!
