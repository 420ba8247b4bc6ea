# rustchm

A CHM (Microsoft HTML Help) compiler and reader, written in Verus.

- `src/` is the library. Every function states in `requires`/`ensures` what it
  computes, and Verus checks the bodies against those contracts:
  - `hhp`, `builder`, `window`: project files, settings and the walk over the
    files a project reaches; `compile` assembles the archive from what was read.
  - `sitemap`, `links`, `fifti`, `keywords`, `tables`, `metafiles`, `btree`,
    `textenc`: the internal files (sitemaps, full-text index, keyword indexes,
    #STRINGS/#URLSTR/#TOPICS, #SYSTEM and friends, text encodings).
  - `lzx`, `lzxdecode`, `bitstream`: LZX compression and decompression.
  - `chmwriter`, `chmreader`, `bytebuf`, `roundtrip`: the ITSF/ITSP container,
    and the proofs that the reader accepts and lists what the writer wrote.
- `app/main.rs` is the command line: it reads and writes files and hands plain
  values to the library.
- `tests/` exercises the library on concrete inputs.
