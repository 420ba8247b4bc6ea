//! rustchm: a CHM (Microsoft HTML Help) compiler and reader library.
//!
//! It builds and reads ITSF/ITSP containers, ENCINT variable-length integers, LZX
//! compressed sections, the full-text search index, sitemaps and the project's
//! internal tables. Each function states in its contract what it computes.
pub mod bitstream;
pub mod builder;
pub mod btree;
pub mod bytebuf;
pub mod chmreader;
pub mod chmwriter;
pub mod compile;
pub mod roundtrip;
pub mod fifti;
pub mod hhp;
pub mod keywords;
pub mod lzx;
pub mod links;
pub mod lzxdecode;
pub mod metafiles;
pub mod sitemap;
pub mod strutil;
pub mod tables;
pub mod window;
pub mod textenc;
