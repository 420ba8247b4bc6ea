//! What the reader gets back of what the writer and the compiler wrote: the
//! directory decodes to the entries laid out, one for one, and every file a
//! compilation read is listed with its bytes in the uncompressed section.
use vstd::prelude::*;
use crate::builder::Loaded;
use crate::bytebuf::{encint_spec, lemma_encint_split, lemma_encint_value, le32_at};
use crate::chmreader::{
    chunk_decodes, chunk_region, directory_decodes, entry_bytes, header_ok, itsp_at, lemma_listing_front, listing_bytes, listing_of,
    magic_at, pmgl_magic, ChmEntry,
};
use crate::chmwriter::{chunk_sane, dir_entry_bytes, dir_listing, sorted_names, DirEntry, CHUNK};
use crate::compile::{archive_name, compiled_from, file_at, Compiled};

verus! {

/// An entry read back and one written agree: name, section, offset and size.
pub open spec fn same_entry(c: ChmEntry, d: DirEntry) -> bool {
    &&& c.name@ == d.name@
    &&& c.section == d.section
    &&& c.offset == d.offset
    &&& c.length == d.size
}

/// An entry read and one written that start equal sequences agree, and what follows
/// them is the same.
proof fn lemma_entry_split(c: ChmEntry, d: DirEntry, x: Seq<u8>, y: Seq<u8>)
    requires
        entry_bytes(c) + x == dir_entry_bytes(d) + y,
    ensures
        same_entry(c, d),
        x == y,
{
    let cn = c.name@;
    let dn = d.name@;
    let x3 = encint_spec(c.length as nat) + x;
    let y3 = encint_spec(d.size as nat) + y;
    let x2 = encint_spec(c.offset as nat) + x3;
    let y2 = encint_spec(d.offset as nat) + y3;
    let x1 = encint_spec(c.section as nat) + x2;
    let y1 = encint_spec(d.section as nat) + y2;
    let xr = cn + x1;
    let yr = dn + y1;
    assert(entry_bytes(c) + x =~= encint_spec(cn.len()) + xr);
    assert(dir_entry_bytes(d) + y =~= encint_spec(dn.len()) + yr);
    lemma_encint_split(cn.len(), dn.len(), xr, yr);
    assert(cn =~= xr.subrange(0, cn.len() as int));
    assert(dn =~= yr.subrange(0, dn.len() as int));
    assert(x1 =~= xr.subrange(cn.len() as int, xr.len() as int));
    assert(y1 =~= yr.subrange(dn.len() as int, yr.len() as int));
    lemma_encint_split(c.section as nat, d.section as nat, x2, y2);
    lemma_encint_split(c.offset as nat, d.offset as nat, x3, y3);
    lemma_encint_split(c.length as nat, d.size as nat, x, y);
}

proof fn lemma_dir_listing_front(ds: Seq<DirEntry>)
    requires
        ds.len() > 0,
    ensures
        dir_listing(ds) == dir_entry_bytes(ds[0]) + dir_listing(ds.drop_first()),
    decreases ds.len(),
{
    if ds.len() == 1 {
        assert(ds.drop_last() =~= Seq::<DirEntry>::empty());
        assert(ds.drop_first() =~= Seq::<DirEntry>::empty());
        assert(dir_listing(ds) =~= dir_entry_bytes(ds[0]) + dir_listing(ds.drop_first()));
    } else {
        let p = ds.drop_last();
        lemma_dir_listing_front(p);
        assert(p.drop_first() =~= ds.drop_first().drop_last());
        assert(ds.drop_first().last() == ds.last());
        assert(dir_listing(ds) =~= dir_entry_bytes(ds[0]) + dir_listing(ds.drop_first()));
    }
}

/// The directory bytes decode one way only: entries whose listing is the listing of
/// `written` are `written`, entry for entry.
pub proof fn lemma_listing_decodes(read: Seq<ChmEntry>, written: Seq<DirEntry>)
    requires
        listing_bytes(read) == dir_listing(written),
    ensures
        read.len() == written.len(),
        forall|i: int| 0 <= i < read.len() ==> #[trigger] same_entry(read[i], written[i]),
    decreases read.len(),
{
    if read.len() == 0 {
        if written.len() > 0 {
            lemma_encint_value(written.last().name@.len());
            assert(dir_listing(written).len() > 0);
            assert(false);
        }
    } else {
        lemma_encint_value(read.last().name@.len());
        if written.len() == 0 {
            assert(listing_bytes(read).len() > 0);
            assert(false);
        }
        lemma_listing_front(read);
        lemma_dir_listing_front(written);
        lemma_entry_split(read[0], written[0], listing_bytes(read.drop_first()), dir_listing(written.drop_first()));
        lemma_listing_decodes(read.drop_first(), written.drop_first());
        assert forall|i: int| 0 <= i < read.len() implies #[trigger] same_entry(read[i], written[i]) by {
            if i > 0 {
                assert(read[i] == read.drop_first()[i - 1]);
                assert(written[i] == written.drop_first()[i - 1]);
                assert(same_entry(read.drop_first()[i - 1], written.drop_first()[i - 1]));
            }
        }
    }
}

/// The listing bytes the reader decodes from an archive whose directory sits where
/// the ITSP header says.
pub open spec fn read_listing(image: Seq<u8>) -> Seq<u8> {
    listing_of(image, itsp_at(image) + 0x54, le32_at(image, itsp_at(image) + 0x10), le32_at(image, itsp_at(image) + 0x2C))
}

/// What the writer lays out, the reader lists back: on an image whose listing chunks
/// the writer laid out for `written`, the directory the reader decodes is `written`,
/// entry for entry and in the same order.
pub proof fn lemma_directory_round_trip(image: Seq<u8>, written: Seq<DirEntry>, read: Seq<ChmEntry>)
    requires
        header_ok(image),
        itsp_at(image) == 0x78,
        le32_at(image, 0x88) == CHUNK,
        dir_listing(written) == listing_of(image, 0xCC, CHUNK as int, le32_at(image, 0xA4)),
        listing_bytes(read) == read_listing(image),
    ensures
        read.len() == written.len(),
        forall|i: int| 0 <= i < read.len() ==> #[trigger] same_entry(read[i], written[i]),
{
    lemma_listing_decodes(read, written);
}

/// The entries a reader makes of `g`: the same names, sections, offsets and sizes.
pub open spec fn as_read(g: Seq<DirEntry>) -> Seq<ChmEntry> {
    Seq::new(g.len(), |i: int| ChmEntry { name: g[i].name, section: g[i].section, offset: g[i].offset, length: g[i].size })
}

proof fn lemma_as_read_listing(g: Seq<DirEntry>)
    ensures
        listing_bytes(as_read(g)) == dir_listing(g),
    decreases g.len(),
{
    if g.len() > 0 {
        lemma_as_read_listing(g.drop_last());
        assert(as_read(g).drop_last() =~= as_read(g.drop_last()));
    }
}

/// The reader accepts every directory the writer lays out: on an image whose chunks
/// are all sane (no listing chunk overflows, each holds whole entries), every chunk
/// decodes.
pub proof fn lemma_sane_image_decodes(image: Seq<u8>)
    requires
        header_ok(image),
        itsp_at(image) == 0x78,
        le32_at(image, 0x88) == CHUNK,
        forall|c: int| 0 <= c < le32_at(image, 0xA4) ==> #[trigger] chunk_sane(image, c),
    ensures
        directory_decodes(image),
{
    assert forall|c: int| 0 <= c < le32_at(image, itsp_at(image) + 0x2C) implies #[trigger] chunk_decodes(
        image,
        itsp_at(image) + 0x54,
        le32_at(image, itsp_at(image) + 0x10),
        c,
    ) by {
        assert(chunk_sane(image, c));
        let base = 0xCC + c * CHUNK;
        if base + CHUNK <= image.len() && magic_at(image, base, pmgl_magic()) {
            let g = choose|g: Seq<DirEntry>| #[trigger] dir_listing(g) == chunk_region(image, 0xCC, CHUNK as int, c);
            lemma_as_read_listing(g);
            assert(listing_bytes(as_read(g)) == chunk_region(image, 0xCC, CHUNK as int, c));
        }
    }
}

/// Entry `k` of the directory read back names `name`, lies in the compressed section
/// and covers bytes of `buf` that are `data`.
pub open spec fn listed_at(read: Seq<ChmEntry>, buf: Seq<u8>, k: int, name: Seq<u8>, data: Seq<u8>) -> bool {
    &&& 0 <= k < read.len()
    &&& read[k].name@ == name
    &&& read[k].section == 1
    &&& read[k].length == data.len()
    &&& read[k].offset + data.len() <= buf.len()
    &&& buf.subrange(read[k].offset as int, read[k].offset + data.len()) == data
}

/// Some entry of the directory read back holds `data` under `name`.
pub open spec fn lists(read: Seq<ChmEntry>, buf: Seq<u8>, name: Seq<u8>, data: Seq<u8>) -> bool {
    exists|k: int| #[trigger] listed_at(read, buf, k, name, data)
}

/// A compiled archive opens: its headers are sound and every chunk of its directory
/// decodes, so the reader neither refuses it nor finds its directory corrupt.
pub proof fn lemma_compiled_image_opens(c: Compiled, es: Seq<DirEntry>, loaded: Seq<Loaded>, lcid: u32)
    requires
        compiled_from(c, es, loaded, lcid),
    ensures
        c.image@.len() >= 0x60,
        magic_at(c.image@, 0, crate::chmreader::itsf_magic()),
        header_ok(c.image@),
        directory_decodes(c.image@),
{
    lemma_sane_image_decodes(c.image@);
}

/// A compiled archive lists what it was compiled from: in the directory the reader
/// decodes from the image, every file the compilation read is listed under `/` and
/// its path, in the compressed section, at the place where the uncompressed section
/// holds its bytes.
pub proof fn lemma_compiled_files_listed(c: Compiled, es: Seq<DirEntry>, loaded: Seq<Loaded>, lcid: u32, read: Seq<ChmEntry>)
    requires
        compiled_from(c, es, loaded, lcid),
        listing_bytes(read) == read_listing(c.image@),
    ensures
        forall|i: int| 0 <= i < loaded.len() ==> lists(read, c.section1@, archive_name((#[trigger] loaded[i]).rel@), loaded[i].data@),
{
    let image = c.image@;
    let total = le32_at(image, 0xA4);
    lemma_sane_image_decodes(image);
    let sorted = choose|sorted: Seq<DirEntry>| sorted.to_multiset() == es.to_multiset() && sorted_names(sorted)
        && #[trigger] dir_listing(sorted) == listing_of(image, 0xCC, CHUNK as int, total);
    lemma_directory_round_trip(image, sorted, read);
    assert forall|i: int| 0 <= i < loaded.len() implies lists(read, c.section1@, archive_name((#[trigger] loaded[i]).rel@), loaded[i].data@) by {
        let name = archive_name(loaded[i].rel@);
        let data = loaded[i].data@;
        let j = choose|j: int| #[trigger] file_at(es, c.section1@, j, name, data);
        vstd::seq_lib::to_multiset_contains(es, es[j]);
        vstd::seq_lib::to_multiset_contains(sorted, es[j]);
        assert(es.contains(es[j]));
        assert(sorted.contains(es[j]));
        let k = choose|k: int| 0 <= k < sorted.len() && sorted[k] == es[j];
        assert(same_entry(read[k], sorted[k]));
        assert(listed_at(read, c.section1@, k, name, data));
    }
}

} // verus!
