//! An archive-aware virtual filesystem cache.
//!
//! A local file tree, including the contents of archive files and of archives
//! nested inside other archives, is exposed as a read-only hierarchy of
//! slash-separated paths.  The core is [`cache::ArchiveCache`]: a layered
//! resolver over two bounded caches (a size-capped byte cache for extracted
//! file contents and a count-capped cache of open archive readers) and an
//! in-memory directory index.  [`fsres`] holds the request-path checks and the
//! resolver decisions that an embedding server drives; all I/O stays with the
//! embedder, which hands byte values in and takes byte values out.
//!
//! Archive formats are recognized by extension (ZIP, CBZ, RAR, CBR, TAR, 7Z)
//! or by MIME sniffing, but only ZIP-family containers are decoded: the
//! library that decoded the other formats cannot be obtained here, so mounting
//! one reports a decode failure instead of its contents.

pub mod paths;
pub mod errors;
pub mod assoc;
pub mod bytecache;
pub mod ziparc;
pub mod sniff;
pub mod dirtree;
pub mod handles;
pub mod cache;
pub mod fsres;
