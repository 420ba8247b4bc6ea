//! The binary keyword index ($WWKeywordLinks, $WWAssociativeLinks): serialized
//! entries packed into 2 KiB leaf blocks, index levels above them, and the Data,
//! Map and Property files beside the tree.
use vstd::prelude::*;
use crate::bytebuf::{Buf, u16_le, u32_le, i32_le};
use crate::tables::{patch32, zeros};
use crate::sitemap::copy_vec;

verus! {

/// Bytes per tree block.
pub const BS: usize = 2048;

/// The entries that fit in a leaf block (at most 2036 bytes), in order.
pub open spec fn kept(es: Seq<Vec<u8>>) -> Seq<Seq<u8>>
    decreases es.len(),
{
    if es.len() == 0 {
        Seq::empty()
    } else if es.last()@.len() <= 2036 {
        kept(es.drop_last()).push(es.last()@)
    } else {
        kept(es.drop_last())
    }
}

/// The byte strings one after another.
pub open spec fn flat(ss: Seq<Seq<u8>>) -> Seq<u8>
    decreases ss.len(),
{
    if ss.len() == 0 {
        Seq::empty()
    } else {
        flat(ss.drop_last()) + ss.last()
    }
}

/// The contents of each vector.
pub open spec fn vviews(vs: Seq<Vec<u8>>) -> Seq<Seq<u8>> {
    Seq::new(vs.len(), |i: int| vs[i]@)
}

/// The sum of the counts.
pub open spec fn total(cs: Seq<u32>) -> int
    decreases cs.len(),
{
    if cs.len() == 0 { 0 } else { total(cs.drop_last()) + cs.last() }
}

/// The leaf blocks as the tree stores them: free space, entry count, previous and
/// next block (-1 at the ends), the entries, zero fill to 2048 bytes.
pub open spec fn leaf_block(body: Seq<u8>, count: u32, i: int, n: int) -> Seq<u8> {
    u16_le((2036 - body.len()) as u16) + u16_le(count as u16) + i32_le(if i == 0 { -1i32 } else { (i - 1) as i32 })
        + i32_le(if i + 1 == n { -1i32 } else { (i + 1) as i32 }) + body + zeros(2036 - body.len())
}

/// Leaf blocks `0..k` of `n`.
pub open spec fn leaves(bodies: Seq<Seq<u8>>, counts: Seq<u32>, k: int, n: int) -> Seq<u8>
    decreases k,
{
    if k <= 0 {
        Seq::empty()
    } else {
        leaves(bodies, counts, k - 1, n) + leaf_block(bodies[k - 1], counts[k - 1], k - 1, n)
    }
}

/// The Map file's records: for each leaf block the number of entries before it and
/// its number.
pub open spec fn map_records(counts: Seq<u32>) -> Seq<u8>
    decreases counts.len(),
{
    if counts.len() == 0 {
        Seq::empty()
    } else {
        map_records(counts.drop_last()) + u32_le(total(counts.drop_last()) as u32) + u32_le(
            (counts.len() - 1) as u32,
        )
    }
}

/// The tree header: signature, block size, the `X44` format, the last leaf, the
/// root, the block count, the level count, the entry count, codepage and language.
pub open spec fn btree_header(num_list: u32, total_blocks: u32, levels: u16, entries: u32, codepage: u32, lcid: u32) -> Seq<u8> {
    seq![0x3Bu8, 0x29] + u16_le(2) + u16_le(2048) + seq![
        0x58u8, 0x34, 0x34, 0x00, 0x00, 0x00, 0x00, 0x00, 0x00, 0x00, 0x00, 0x00, 0x00, 0x00, 0x00, 0x00,
    ] + u32_le(0) + u32_le(minus_one(num_list)) + u32_le(minus_one(total_blocks)) + i32_le(-1i32)
        + u32_le(total_blocks) + u16_le(levels) + u32_le(entries) + u32_le(codepage) + u32_le(lcid)
        + u32_le(1) + u32_le(10031) + u32_le(0) + u32_le(0) + u32_le(0)
}

/// `x - 1`, wrapping to 0xFFFFFFFF at 0.
pub open spec fn minus_one(x: u32) -> u32 {
    if x == 0 { 0xFFFF_FFFF } else { (x - 1) as u32 }
}

/// The Data file: a 13-byte record per entry.
pub open spec fn data_records(n: nat) -> Seq<u8>
    decreases n,
{
    if n == 0 {
        Seq::empty()
    } else {
        data_records((n - 1) as nat) + seq![0u8, 0, 0, 0, 5, 0, 0, 0, 0x80, 0, 0, 0, 0]
    }
}

/// The Property file: a zero dword, then a fixed record when there are entries.
pub open spec fn property_spec(has_entries: bool) -> Seq<u8> {
    u32_le(0) + if has_entries {
        u32_le(0) + u32_le(0) + u32_le(0xC) + u32_le(1) + u32_le(1) + u32_le(0) + u32_le(0)
    } else {
        Seq::empty()
    }
}

/// The four files of a binary index.
pub struct BinIndexFiles {
    pub btree: Vec<u8>,
    pub data: Vec<u8>,
    pub map: Vec<u8>,
    pub property: Vec<u8>,
}

/// The leaf blocks of the entries: their bodies, entry counts, the index form of each
/// block's first entry (its key part and the block number) and the entries before
/// each block.
pub struct Leaves {
    pub bodies: Vec<Vec<u8>>,
    pub counts: Vec<u32>,
    pub firsts: Vec<Vec<u8>>,
}

proof fn lemma_kept_len(es: Seq<Vec<u8>>)
    ensures
        kept(es).len() <= es.len(),
    decreases es.len(),
{
    if es.len() > 0 {
        lemma_kept_len(es.drop_last());
    }
}

proof fn lemma_total_push(cs: Seq<u32>, c: u32)
    ensures
        total(cs.push(c)) == total(cs) + c,
{
    assert(cs.push(c).drop_last() =~= cs);
}

proof fn lemma_flat_push(ss: Seq<Seq<u8>>, s: Seq<u8>)
    ensures
        flat(ss.push(s)) == flat(ss) + s,
{
    assert(ss.push(s).drop_last() =~= ss);
}

/// Packing `es` into leaf blocks, one entry at a time: the finished blocks and their
/// entry counts, and the block being filled with its count. An entry closes the block
/// being filled when 12 + that block + the entry reach 2048 bytes.
pub open spec fn pack(es: Seq<Seq<u8>>) -> (Seq<Seq<u8>>, Seq<u32>, Seq<u8>, u32)
    decreases es.len(),
{
    if es.len() == 0 {
        (Seq::empty(), Seq::empty(), Seq::empty(), 0)
    } else {
        let (b, c, cur, n) = pack(es.drop_last());
        let e = es.last();
        if 12 + cur.len() + e.len() >= 2048 {
            (b.push(cur), c.push(n), e, 1)
        } else {
            (b, c, cur + e, (n + 1) as u32)
        }
    }
}

/// The leaf blocks of `es`: the packed blocks, then the block being filled when it
/// holds anything or no block was finished.
pub open spec fn leaf_bodies(es: Seq<Seq<u8>>) -> Seq<Seq<u8>> {
    let (b, c, cur, n) = pack(es);
    if cur.len() > 0 || b.len() == 0 { b.push(cur) } else { b }
}

/// The entry counts of the leaf blocks of `es`.
pub open spec fn leaf_counts(es: Seq<Seq<u8>>) -> Seq<u32> {
    let (b, c, cur, n) = pack(es);
    if cur.len() > 0 || b.len() == 0 { c.push(n) } else { c }
}

/// Packs the entries into leaf blocks: each block takes entries while it stays under
/// 2048 bytes with its 12-byte header; entries over 2036 bytes are left out.
pub fn group_leaves(entries: &[Vec<u8>]) -> (lv: Leaves)
    requires
        forall|i: int| 0 <= i < entries@.len() ==> (#[trigger] entries@[i])@.len() >= 8,
        entries@.len() < 0x8000_0000,
    ensures
        lv.bodies@.len() >= 1,
        lv.counts@.len() == lv.bodies@.len(),
        flat(vviews(lv.bodies@)) == flat(kept(entries@)),
        total(lv.counts@) == kept(entries@).len(),
        lv.bodies@.len() <= entries@.len() + 1,
        forall|i: int| 0 <= i < lv.bodies@.len() ==> (#[trigger] lv.bodies@[i])@.len() <= 2036,
        forall|i: int| 0 <= i < lv.firsts@.len() ==> 4 <= (#[trigger] lv.firsts@[i])@.len() <= 2032,
        lv.firsts@.len() <= entries@.len(),
        vviews(lv.bodies@) == leaf_bodies(kept(entries@)),
        lv.counts@ == leaf_counts(kept(entries@)),
{
    let n = entries.len();
    let mut bodies: Vec<Vec<u8>> = Vec::new();
    let mut counts: Vec<u32> = Vec::new();
    let mut firsts: Vec<Vec<u8>> = Vec::new();
    let mut cur: Vec<u8> = Vec::new();
    let mut cur_count: u32 = 0;
    let mut k: usize = 0;
    proof {
        assert(entries@.subrange(0, 0) =~= Seq::<Vec<u8>>::empty());
        assert(vviews(bodies@) =~= Seq::<Seq<u8>>::empty());
    }
    while k < n
        invariant
            k <= n,
            n == entries@.len(),
            n < 0x8000_0000,
            forall|i: int| 0 <= i < entries@.len() ==> (#[trigger] entries@[i])@.len() >= 8,
            counts@.len() == bodies@.len(),
            flat(vviews(bodies@)) + cur@ == flat(kept(entries@.subrange(0, k as int))),
            total(counts@) + cur_count == kept(entries@.subrange(0, k as int)).len(),
            cur@.len() <= 2036,
            cur@.len() == 0 <==> cur_count == 0,
            bodies@.len() + (if cur_count > 0 { 1int } else { 0int }) <= k + 1,
            cur_count <= k,
            cur_count == 0 ==> bodies@.len() == 0,
            firsts@.len() <= kept(entries@.subrange(0, k as int)).len(),
            kept(entries@.subrange(0, k as int)).len() <= k,
            forall|i: int| 0 <= i < bodies@.len() ==> (#[trigger] bodies@[i])@.len() <= 2036,
            forall|i: int| 0 <= i < firsts@.len() ==> 4 <= (#[trigger] firsts@[i])@.len() <= 2032,
            pack(kept(entries@.subrange(0, k as int))) == (vviews(bodies@), counts@, cur@, cur_count),
        decreases n - k,
    {
        let ghost pre = entries@.subrange(0, k as int);
        proof {
            assert(entries@.subrange(0, k + 1).drop_last() =~= pre);
            assert(entries@.subrange(0, k + 1).last() == entries@[k as int]);
        }
        let e = &entries[k];
        let el = e.len();
        if el > 2036 {
            proof {
                assert(kept(entries@.subrange(0, k + 1)) == kept(pre));
            }
            k = k + 1;
            continue;
        }
        proof {
            assert(kept(entries@.subrange(0, k + 1)) == kept(pre).push(entries@[k as int]@));
            lemma_kept_len(pre);
            assert(kept(pre).push(e@).drop_last() =~= kept(pre));
        }
        let ghost closes = 12 + cur.len() + el >= 2048;
        if 12 + cur.len() + el >= 2048 {
            let ghost bv = vviews(bodies@);
            let ghost oc = counts@;
            let body = cur;
            bodies.push(body);
            counts.push(cur_count);
            proof {
                assert(vviews(bodies@) =~= bv.push(body@));
                lemma_flat_push(bv, body@);
                assert(counts@ =~= oc.push(cur_count));
                lemma_total_push(oc, cur_count);
            }
            cur = Vec::new();
            cur_count = 0;
        }
        if cur.len() == 0 {
            let mut idx = crate::sitemap::copy_range(e, 0, el - 8);
            let child = bodies.len() as u32;
            idx.push((child % 256) as u8);
            idx.push(((child / 256) % 256) as u8);
            idx.push(((child / 65536) % 256) as u8);
            idx.push((child / 16777216) as u8);
            firsts.push(idx);
        }
        let ghost c0 = cur@;
        let mut j: usize = 0;
        while j < el
            invariant
                j <= el,
                el == e@.len(),
                cur@ == c0 + e@.subrange(0, j as int),
            decreases el - j,
        {
            cur.push(e[j]);
            j = j + 1;
            assert(cur@ =~= c0 + e@.subrange(0, j as int));
        }
        proof {
            assert(e@.subrange(0, el as int) =~= e@);
            lemma_flat_push(kept(pre), e@);
            if closes {
                assert(cur@ =~= e@);
            }
        }
        cur_count = cur_count + 1;
        k = k + 1;
    }
    if cur.len() > 0 || bodies.len() == 0 {
        let ghost bv = vviews(bodies@);
        let ghost oc = counts@;
        let body = cur;
        bodies.push(body);
        counts.push(cur_count);
        proof {
            assert(vviews(bodies@) =~= bv.push(body@));
            lemma_flat_push(bv, body@);
            assert(counts@ =~= oc.push(cur_count));
            lemma_total_push(oc, cur_count);
        }
    }
    proof {
        assert(entries@.subrange(0, n as int) =~= entries@);
        lemma_kept_len(entries@);
    }
    Leaves { bodies, counts, firsts }
}

/// One index level: its blocks, their entry counts and each block's first child.
pub struct Level {
    pub blocks: Vec<Vec<u8>>,
    pub counts: Vec<u32>,
    pub first_child: Vec<u32>,
}

/// A level is well formed: one count and one first child per block, each block fits
/// with its 8-byte header.
pub open spec fn level_ok(l: Level) -> bool {
    &&& l.counts@.len() == l.blocks@.len()
    &&& l.first_child@.len() == l.blocks@.len()
    &&& forall|b: int| 0 <= b < l.blocks@.len() ==> (#[trigger] l.blocks@[b])@.len() <= 2040
}

/// Copies `e` with its last four bytes replaced by `v`.
fn with_tail(e: &Vec<u8>, v: u32) -> (r: Vec<u8>)
    requires
        e@.len() >= 4,
    ensures
        r@.len() == e@.len(),
{
    let mut r = copy_vec(e);
    let l = r.len();
    patch32(&mut r, l - 4, v);
    r
}

fn copy_forms(v: &Vec<Vec<u8>>) -> (r: Vec<Vec<u8>>)
    ensures
        r@.len() == v@.len(),
        forall|i: int| 0 <= i < r@.len() ==> (#[trigger] r@[i])@ == v@[i]@,
{
    let mut r: Vec<Vec<u8>> = Vec::new();
    let n = v.len();
    let mut i: usize = 0;
    while i < n
        invariant
            i <= n,
            n == v@.len(),
            r@.len() == i,
            forall|j: int| 0 <= j < i ==> (#[trigger] r@[j])@ == v@[j]@,
        decreases n - i,
    {
        r.push(copy_vec(&v[i]));
        i = i + 1;
    }
    r
}

/// Builds the index levels above `num_list` leaf blocks from the first entries'
/// index forms: each level packs the forms of the one below into blocks and hands
/// the first form of each block up, until one block is left. A level that would not
/// shrink ends the tree.
pub fn build_levels(firsts: &Vec<Vec<u8>>, num_list: u32) -> (levels: Vec<Level>)
    requires
        forall|i: int| 0 <= i < firsts@.len() ==> 4 <= (#[trigger] firsts@[i])@.len() <= 2032,
    ensures
        forall|i: int| 0 <= i < levels@.len() ==> level_ok(#[trigger] levels@[i]),
        forall|i: int| 0 <= i < levels@.len() ==> (#[trigger] levels@[i]).blocks@.len() <= firsts@.len(),
        levels@.len() <= firsts@.len() + 2,
        num_list <= 1 ==> levels@.len() == 0,
        num_list > 1 ==> levels_shape(levels@, firsts@.len() as int),
{
    let ghost nfirst = firsts@.len();
    let mut levels: Vec<Level> = Vec::new();
    if num_list <= 1 {
        return levels;
    }
    let mut cur_forms = copy_forms(firsts);
    let mut level_base: u32 = 0;
    loop
        invariant_except_break
            levels@.len() + cur_forms@.len() <= nfirst + 1,
            levels@.len() == 0 ==> cur_forms@.len() == nfirst,
            levels@.len() > 0 ==> cur_forms@.len() == levels@.last().blocks@.len(),
            levels@.len() > 0 ==> total(levels@[0].counts@) == nfirst,
            forall|k: int| 0 <= k < levels@.len() - 1 ==> total((#[trigger] levels@[k + 1]).counts@) == levels@[k].blocks@.len(),
        invariant
            forall|i: int| 0 <= i < cur_forms@.len() ==> 4 <= (#[trigger] cur_forms@[i])@.len() <= 2032,
            forall|i: int| 0 <= i < levels@.len() ==> level_ok(#[trigger] levels@[i]),
            forall|i: int| 0 <= i < levels@.len() ==> (#[trigger] levels@[i]).blocks@.len() <= nfirst,
            cur_forms@.len() <= nfirst,
            levels@.len() <= nfirst + 2,
        ensures
            forall|i: int| 0 <= i < levels@.len() ==> level_ok(#[trigger] levels@[i]),
            forall|i: int| 0 <= i < levels@.len() ==> (#[trigger] levels@[i]).blocks@.len() <= nfirst,
            levels@.len() <= nfirst + 2,
            levels_shape(levels@, nfirst as int),
        decreases cur_forms@.len(),
    {
        let mut blocks: Vec<Vec<u8>> = Vec::new();
        let mut counts: Vec<u32> = Vec::new();
        let mut first_child: Vec<u32> = Vec::new();
        let mut next_forms: Vec<Vec<u8>> = Vec::new();
        let mut blk: Vec<u8> = Vec::new();
        let mut cnt: u32 = 0;
        let nf = cur_forms.len();
        let this_level_base = level_base.wrapping_add(nf as u32);
        let mut i: usize = 0;
        while i < nf
            invariant
                i <= nf,
                nf == cur_forms@.len(),
                forall|q: int| 0 <= q < cur_forms@.len() ==> 4 <= (#[trigger] cur_forms@[q])@.len() <= 2032,
                counts@.len() == blocks@.len(),
                first_child@.len() == blocks@.len() + (if blk@.len() > 0 { 1int } else { 0int }),
                next_forms@.len() == first_child@.len(),
                next_forms@.len() <= i,
                blocks@.len() + (if blk@.len() > 0 { 1int } else { 0int }) <= i,
                i > 0 ==> blk@.len() > 0,
                blk@.len() <= 2040,
                4 * cnt <= blk@.len(),
                forall|b: int| 0 <= b < blocks@.len() ==> (#[trigger] blocks@[b])@.len() <= 2040,
                forall|q: int| 0 <= q < next_forms@.len() ==> 4 <= (#[trigger] next_forms@[q])@.len() <= 2032,
                total(counts@) + cnt == i,
            decreases nf - i,
        {
            let child = level_base.wrapping_add(i as u32);
            let e = with_tail(&cur_forms[i], child);
            if 8 + blk.len() + e.len() >= 2048 {
                blocks.push(blk);
                let ghost c0 = counts@;
                counts.push(cnt);
                proof {
                    assert(counts@.drop_last() =~= c0);
                }
                cnt = 0;
                blk = Vec::new();
            }
            if blk.len() == 0 {
                first_child.push(child);
                let my_nr = this_level_base.wrapping_add(blocks.len() as u32);
                let up = with_tail(&e, my_nr);
                next_forms.push(up);
            }
            let el = e.len();
            let mut j: usize = 0;
            let ghost b0 = blk@;
            while j < el
                invariant
                    j <= el,
                    el == e@.len(),
                    blk@ == b0 + e@.subrange(0, j as int),
                decreases el - j,
            {
                blk.push(e[j]);
                j = j + 1;
                assert(blk@ =~= b0 + e@.subrange(0, j as int));
            }
            cnt = cnt + 1;
            i = i + 1;
        }
        if blk.len() > 0 {
            blocks.push(blk);
            let ghost c0 = counts@;
            counts.push(cnt);
            proof {
                assert(counts@.drop_last() =~= c0);
            }
        }
        let ghost l0 = levels@;
        levels.push(Level { blocks, counts, first_child });
        proof {
            assert(total(levels@.last().counts@) == nf);
            assert(next_forms@.len() == levels@.last().blocks@.len());
            assert forall|k: int| 0 <= k < levels@.len() - 1 implies total((#[trigger] levels@[k + 1]).counts@) == levels@[k].blocks@.len() by {
                if k + 1 < l0.len() {
                    assert(levels@[k + 1] == l0[k + 1]);
                    assert(levels@[k] == l0[k]);
                } else {
                    assert(levels@[k] == l0[k]);
                }
            }
            assert(levels@[0].counts@ == (if l0.len() > 0 { l0[0].counts@ } else { levels@.last().counts@ }));
        }
        level_base = this_level_base;
        if next_forms.len() <= 1 || next_forms.len() >= nf {
            break;
        }
        cur_forms = next_forms;
    }
    levels
}

/// The index levels over `n` forms: the bottom level takes every form, each level
/// above takes one form per block of the level below, and the top level has one
/// block, or as many as the forms it took (a level that would not shrink).
pub open spec fn levels_shape(levels: Seq<Level>, n: int) -> bool {
    &&& levels.len() >= 1
    &&& total(levels[0].counts@) == n
    &&& forall|k: int| 0 <= k < levels.len() - 1 ==> total((#[trigger] levels[k + 1]).counts@) == levels[k].blocks@.len()
    &&& levels.last().blocks@.len() <= 1 || levels.last().blocks@.len() >= total(levels.last().counts@)
}

/// The number of blocks in the levels.
pub open spec fn level_blocks(ls: Seq<Level>) -> int
    decreases ls.len(),
{
    if ls.len() == 0 { 0 } else { level_blocks(ls.drop_last()) + ls.last().blocks@.len() }
}

/// Appends leaf block `i` of `n`.
fn push_leaf(bt: &mut Buf, body: &Vec<u8>, count: u32, i: usize, n: usize)
    requires
        body@.len() <= 2036,
        i < n <= 0x8000_0000,
    ensures
        final(bt)@ == old(bt)@ + leaf_block(body@, count, i as int, n as int),
{
    bt.u16((2036 - body.len()) as u16);
    bt.u16(count as u16);
    bt.i32(if i == 0 { -1 } else { i as i32 - 1 });
    bt.i32(if i + 1 == n { -1 } else { i as i32 + 1 });
    bt.raw(body);
    bt.zeros(2036 - body.len());
    assert(bt@ =~= old(bt)@ + leaf_block(body@, count, i as int, n as int));
}

/// The tree and map of `f` for `entries`: leaf blocks with bodies `bodies` and entry
/// counts `counts`, packed as `pack` describes (together every entry that fits a
/// block, in order), then the index blocks `idx` of `nlev` levels (none over a single
/// leaf); the map gives each leaf's first entry number.
pub open spec fn btree_layout(
    f: BinIndexFiles,
    entries: Seq<Vec<u8>>,
    lcid: u32,
    codepage: u32,
    bodies: Seq<Seq<u8>>,
    counts: Seq<u32>,
    idx: Seq<u8>,
    nlev: nat,
) -> bool {
    &&& 1 <= bodies.len()
    &&& bodies == leaf_bodies(kept(entries))
    &&& counts == leaf_counts(kept(entries))
    &&& bodies.len() == 1 ==> idx.len() == 0 && nlev == 0
    &&& counts.len() == bodies.len()
    &&& flat(bodies) == flat(kept(entries))
    &&& total(counts) == kept(entries).len()
    &&& idx.len() % 2048 == 0
    &&& f.btree@ == btree_header(
        bodies.len() as u32,
        (bodies.len() + idx.len() / 2048) as u32,
        ((1 + nlev) % 65536) as u16,
        entries.len() as u32,
        codepage,
        lcid,
    ) + leaves(bodies, counts, bodies.len() as int, bodies.len() as int) + idx
    &&& f.map@ == u16_le(0) + map_records(counts)
}

/// Builds the four files of a binary index from its serialized entries, in order.
/// The tree's leaf blocks hold, in order, every entry that fits a block.
#[verifier::spinoff_prover]
#[verifier::rlimit(80)]
pub fn assemble_btree(entries: &[Vec<u8>], lcid: u32, codepage: u32) -> (f: BinIndexFiles)
    requires
        forall|i: int| 0 <= i < entries@.len() ==> (#[trigger] entries@[i])@.len() >= 8,
        entries@.len() < 0x8000_0000,
    ensures
        f.data@ == data_records(entries@.len()),
        f.property@ == property_spec(entries@.len() > 0),
        exists|bodies: Seq<Seq<u8>>, counts: Seq<u32>, idx: Seq<u8>, nlev: nat|
            #[trigger] btree_layout(f, entries@, lcid, codepage, bodies, counts, idx, nlev),
{
    let lv = group_leaves(entries);
    let n = lv.bodies.len();
    let num_list = n as u32;
    let ghost bodies = vviews(lv.bodies@);
    let ghost counts = lv.counts@;
    let levels = build_levels(&lv.firsts, num_list);
    let nl = levels.len();
    proof {
        assert forall|i: int| 0 <= i < levels@.len() implies (#[trigger] levels@[i]).blocks@.len() <= 0x8000_0000 by {
            assert(levels@[i].blocks@.len() <= lv.firsts@.len());
        }
    }
    let tb64 = count_blocks(&levels, n);
    let total_blocks = tb64 as u32;
    let mut bt = header_buf(num_list, total_blocks, nl, entries.len(), codepage, lcid);
    let ghost hdr = bt@;
    write_leaves(&mut bt, &lv.bodies, &lv.counts);
    let ghost pre = bt@;
    write_levels(&mut bt, &levels);
    let ghost idx = bt@.subrange(pre.len() as int, bt@.len() as int);
    proof {
        lemma_level_blocks_nonneg(levels@);
        assert(bt@ =~= pre + idx);
        assert(idx.len() == 2048 * level_blocks(levels@));
        assert(idx.len() / 2048 == level_blocks(levels@));
    }
    proof {
        lemma_kept_len(entries@);
    }
    let d = data_file(entries.len());
    let m = map_file(&lv.counts, entries);
    let pr = property_file(entries.len() > 0);
    let f = BinIndexFiles { btree: bt.v, data: d, map: m, property: pr };
    proof {
        assert(btree_layout(f, entries@, lcid, codepage, bodies, counts, idx, nl as nat));
    }
    f
}

proof fn lemma_level_blocks_nonneg(ls: Seq<Level>)
    ensures
        level_blocks(ls) >= 0,
    decreases ls.len(),
{
    if ls.len() > 0 {
        lemma_level_blocks_nonneg(ls.drop_last());
    }
}

fn count_blocks(levels: &Vec<Level>, n: usize) -> (r: u64)
    requires
        levels@.len() <= 0x8000_0002,
        n <= 0x8000_0000,
        forall|i: int| 0 <= i < levels@.len() ==> (#[trigger] levels@[i]).blocks@.len() <= 0x8000_0000,
    ensures
        r == n + level_blocks(levels@),
{
    let mut tb64: u64 = n as u64;
    let nl = levels.len();
    let mut q: usize = 0;
    while q < nl
        invariant
            q <= nl,
            nl == levels@.len(),
            nl <= 0x8000_0002,
            n <= 0x8000_0000,
            forall|i: int| 0 <= i < levels@.len() ==> (#[trigger] levels@[i]).blocks@.len() <= 0x8000_0000,
            tb64 == n + level_blocks(levels@.subrange(0, q as int)),
            tb64 <= 0x8000_0000 * (q + 1),
        decreases nl - q,
    {
        proof {
            assert(levels@.subrange(0, q + 1).drop_last() =~= levels@.subrange(0, q as int));
        }
        tb64 = tb64 + levels[q].blocks.len() as u64;
        q = q + 1;
    }
    proof {
        assert(levels@.subrange(0, nl as int) =~= levels@);
    }
    tb64
}

fn header_buf(num_list: u32, total_blocks: u32, nl: usize, ne: usize, codepage: u32, lcid: u32) -> (bt: Buf)
    ensures
        bt@ == btree_header(num_list, total_blocks, ((1 + nl) % 65536) as u16, ne as u32, codepage, lcid),
{
    let mut bt = Buf::new();
    bt.u8(0x3B);
    bt.u8(0x29);
    bt.u16(2);
    bt.u16(2048);
    let fmt: [u8; 16] = [0x58, 0x34, 0x34, 0, 0, 0, 0, 0, 0, 0, 0, 0, 0, 0, 0, 0];
    bt.raw(&fmt);
    bt.u32(0);
    bt.u32(num_list.wrapping_sub(1));
    bt.u32(total_blocks.wrapping_sub(1));
    bt.i32(-1);
    bt.u32(total_blocks);
    let nlev: u16 = ((nl % 65536 + 1) % 65536) as u16;
    proof {
        vstd::arithmetic::div_mod::lemma_add_mod_noop(nl as int, 1, 65536);
    }
    bt.u16(nlev);
    bt.u32(ne as u32);
    bt.u32(codepage);
    bt.u32(lcid);
    bt.u32(1);
    bt.u32(10031);
    bt.u32(0);
    bt.u32(0);
    bt.u32(0);
    assert(bt@ =~= btree_header(num_list, total_blocks, ((1 + nl) % 65536) as u16, ne as u32, codepage, lcid));
    bt
}

fn write_leaves(bt: &mut Buf, lb: &Vec<Vec<u8>>, lc: &Vec<u32>)
    requires
        1 <= lb@.len() <= 0x8000_0000,
        lc@.len() == lb@.len(),
        forall|k: int| 0 <= k < lb@.len() ==> (#[trigger] lb@[k])@.len() <= 2036,
    ensures
        final(bt)@ == old(bt)@ + leaves(vviews(lb@), lc@, lb@.len() as int, lb@.len() as int),
{
    let n = lb.len();
    let ghost bodies = vviews(lb@);
    let mut i: usize = 0;
    while i < n
        invariant
            i <= n,
            n == lb@.len(),
            n == lc@.len(),
            1 <= n <= 0x8000_0000,
            bodies == vviews(lb@),
            forall|k: int| 0 <= k < lb@.len() ==> (#[trigger] lb@[k])@.len() <= 2036,
            bt@ == old(bt)@ + leaves(bodies, lc@, i as int, n as int),
        decreases n - i,
    {
        push_leaf(bt, &lb[i], lc[i], i, n);
        proof {
            assert(bodies[i as int] == lb@[i as int]@);
        }
        i = i + 1;
    }
}

fn write_levels(bt: &mut Buf, levels: &Vec<Level>)
    requires
        forall|k: int| 0 <= k < levels@.len() ==> level_ok(#[trigger] levels@[k]),
    ensures
        final(bt)@.len() == old(bt)@.len() + 2048 * level_blocks(levels@),
        final(bt)@.subrange(0, old(bt)@.len() as int) == old(bt)@,
{
    let ghost pre = bt@;
    let nl = levels.len();
    let mut li: usize = 0;
    proof {
        assert(bt@.subrange(0, pre.len() as int) =~= pre);
    }
    while li < nl
        invariant
            li <= nl,
            nl == levels@.len(),
            forall|k: int| 0 <= k < levels@.len() ==> level_ok(#[trigger] levels@[k]),
            bt@.len() == pre.len() + 2048 * level_blocks(levels@.subrange(0, li as int)),
            bt@.subrange(0, pre.len() as int) == pre,
        decreases nl - li,
    {
        proof {
            lemma_level_blocks_nonneg(levels@.subrange(0, li as int));
        }
        let lvl = &levels[li];
        let nb = lvl.blocks.len();
        let mut bi: usize = 0;
        let ghost at_start = bt@.len();
        while bi < nb
            invariant
                bi <= nb,
                level_ok(*lvl),
                nb == lvl.blocks@.len(),
                pre.len() <= at_start <= bt@.len(),
                bt@.subrange(0, pre.len() as int) == pre,
                bt@.len() == at_start + 2048 * bi,
            decreases nb - bi,
        {
            let blk = &lvl.blocks[bi];
            let ghost b0 = bt@;
            bt.u16((2040 - blk.len()) as u16);
            bt.u16(lvl.counts[bi] as u16);
            bt.u32(lvl.first_child[bi]);
            bt.raw(blk);
            bt.zeros(2040 - blk.len());
            proof {
                assert(bt@.subrange(0, pre.len() as int) =~= b0.subrange(0, pre.len() as int));
            }
            bi = bi + 1;
        }
        proof {
            assert(levels@.subrange(0, li + 1).drop_last() =~= levels@.subrange(0, li as int));
            assert(levels@.subrange(0, li + 1).last() == *lvl);
        }
        li = li + 1;
    }
    proof {
        assert(levels@.subrange(0, nl as int) =~= levels@);
    }
}

fn property_file(has_entries: bool) -> (r: Vec<u8>)
    ensures
        r@ == property_spec(has_entries),
{
    let mut pr = Buf::new();
    pr.u32(0);
    if has_entries {
        pr.u32(0);
        pr.u32(0);
        pr.u32(0xC);
        pr.u32(1);
        pr.u32(1);
        pr.u32(0);
        pr.u32(0);
    }
    assert(pr@ =~= property_spec(has_entries));
    pr.v
}

fn data_file(ne: usize) -> (r: Vec<u8>)
    ensures
        r@ == data_records(ne as nat),
{
    let mut d = Buf::new();
    let rec: [u8; 13] = [0, 0, 0, 0, 5, 0, 0, 0, 0x80, 0, 0, 0, 0];
    let mut k: usize = 0;
    while k < ne
        invariant
            k <= ne,
            d@ == data_records(k as nat),
            rec@ == seq![0u8, 0, 0, 0, 5, 0, 0, 0, 0x80, 0, 0, 0, 0],
        decreases ne - k,
    {
        d.raw(&rec);
        k = k + 1;
    }
    d.v
}

fn map_file(counts: &Vec<u32>, entries: &[Vec<u8>]) -> (r: Vec<u8>)
    requires
        total(counts@) == kept(entries@).len(),
        kept(entries@).len() <= entries@.len(),
        entries@.len() < 0x8000_0000,
    ensures
        r@ == u16_le(0) + map_records(counts@),
{
    let n = counts.len();
    let mut m = Buf::new();
    m.u16(0);
    let ghost mh = m@;
    let mut done: u32 = 0;
    let mut j: usize = 0;
    proof {
        assert(counts@.subrange(0, 0) =~= Seq::<u32>::empty());
    }
    while j < n
        invariant
            j <= n,
            n == counts@.len(),
            total(counts@) == kept(entries@).len(),
            kept(entries@).len() <= entries@.len(),
            entries@.len() < 0x8000_0000,
            done == total(counts@.subrange(0, j as int)),
            m@ == mh + map_records(counts@.subrange(0, j as int)),
        decreases n - j,
    {
        proof {
            assert(counts@.subrange(0, j + 1).drop_last() =~= counts@.subrange(0, j as int));
            lemma_total_prefix(counts@, j as int + 1);
        }
        m.u32(done);
        m.u32(j as u32);
        done = done + counts[j];
        j = j + 1;
    }
    proof {
        assert(counts@.subrange(0, n as int) =~= counts@);
    }
    m.v
}

proof fn lemma_total_prefix(cs: Seq<u32>, j: int)
    requires
        0 <= j <= cs.len(),
    ensures
        0 <= total(cs.subrange(0, j)) <= total(cs),
    decreases cs.len(),
{
    if cs.len() > 0 {
        if j == cs.len() {
            assert(cs.subrange(0, j) =~= cs);
            lemma_total_prefix(cs.drop_last(), j - 1);
            assert(cs.drop_last().subrange(0, j - 1) =~= cs.drop_last());
        } else {
            lemma_total_prefix(cs.drop_last(), j);
            assert(cs.drop_last().subrange(0, j) =~= cs.subrange(0, j));
        }
    }
}

} // verus!
