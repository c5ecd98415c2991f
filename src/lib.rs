//! Asset discovery for X-Ray game data: the LZH decoder used by archive
//! headers, the chunked archive container and the virtual filesystem that
//! joins on-disk directories with archive contents.
//!
//! The library computes; reading directories, mapping archives and
//! decompressing LZO1X payloads is left to its caller, which hands it the
//! bytes and names it needs.
pub mod archive;
pub mod bytes;
pub mod chunk;
pub mod codepage;
pub mod config;
pub mod filesystem;
pub mod fs_path;
pub mod lzhuf;
pub mod path;
pub mod text;

pub use archive::{Archive, VirtualFile};
pub use codepage::{decode_legacy, CodePage};
pub use chunk::{open_chunk, parse_file_table, ChunkError, FileEntry};
pub use config::{parse_fs_ltx, FsLtxEntry};
pub use filesystem::{
    archive_payload, ignore_name, ArchivePayload, Filesystem, FilesystemError,
    FilesystemFSPathError, ReadSource, ScanAction, FS_ROOT,
};
pub use fs_path::FSPath;
pub use lzhuf::{decompress, DecodeError, Decoder};
pub use text::StrExt;
