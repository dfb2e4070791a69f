//! A cache pair: a table of contents (`.toc`) and the cache (`.cache`)
//! whose data it describes.
//!
//! Reading a cache's bytes is left to the caller; the reader keeps the
//! table of contents, decides how a file's bytes are stored, and
//! decompresses them.

use vstd::prelude::*;

use crate::node::{Node, NodeKind, NodeRef, NodeView};
use crate::pre_ensmallening::{decompress_pre_ensmallening, pre_decode, PreEnsmalleningError};
use crate::toc::{
    build_view, is_absolute, lookup_kind, nodes_view, toc_data_readable, toc_load, Toc, TocError,
    TocFold, TocView,
};

verus! {

/// How the bytes of a file are stored in its cache.
#[derive(Debug, Clone, Copy, PartialEq, Eq, Structural)]
pub enum StorageMethod {
    /// Stored as is (the compressed and decompressed sizes agree).
    Stored,
    /// Compressed with the format used since the "Great Ensmallening".
    PostEnsmallening,
    /// Compressed with the block format used before it.
    PreEnsmallening,
}

/// Why a file's data could not be decompressed.
#[derive(Debug, Clone, Copy, PartialEq, Eq, Structural)]
pub enum CacheDataError {
    /// The data is in the post-ensmallening format, whose decompressor is
    /// not part of this crate.
    PostEnsmalleningUnsupported,
    /// The pre-ensmallening data is malformed.
    PreEnsmallening(PreEnsmalleningError),
}

/// How a file of `node`'s sizes is stored, given whether the cache is
/// post-ensmallening.
pub open spec fn spec_storage_method(node: NodeView, is_post_ensmallening: bool) -> StorageMethod {
    if node.comp_len == node.len {
        StorageMethod::Stored
    } else if is_post_ensmallening {
        StorageMethod::PostEnsmallening
    } else {
        StorageMethod::PreEnsmallening
    }
}

/// Whether the first eight bytes of a compressed file mark the
/// post-ensmallening format: `0x80` first, and 1 in the low nibble of the
/// eighth byte.
pub open spec fn spec_is_post_ensmallening_header(header: Seq<u8>) -> bool {
    header[0] == 0x80 && header[7] % 16 == 1
}

/// What a cache pair reader holds.
pub struct CachePairReaderView {
    pub is_post_ensmallening: bool,
    pub toc_path: Seq<char>,
    pub cache_path: Seq<char>,
    pub toc: TocView,
    pub cache_size: u64,
}

/// A cache pair reader.
pub struct CachePairReader {
    is_post_ensmallening: bool,
    toc_path: String,
    cache_path: String,
    toc: Toc,
    cache_size: u64,
}

impl View for CachePairReader {
    type V = CachePairReaderView;

    closed spec fn view(&self) -> CachePairReaderView {
        CachePairReaderView {
            is_post_ensmallening: self.is_post_ensmallening,
            toc_path: self.toc_path@,
            cache_path: self.cache_path@,
            toc: self.toc@,
            cache_size: self.cache_size,
        }
    }
}

/// Whether the first eight bytes of a compressed file mark the
/// post-ensmallening format.
pub fn is_post_ensmallening_header(header: &[u8]) -> (res: bool)
    requires
        header@.len() >= 8,
    ensures
        res == spec_is_post_ensmallening_header(header@),
{
    let last = header[7];
    assert(last & 0x0F == last % 16) by (bit_vector);
    header[0] == 0x80 && (last & 0x0F) == 0x1
}

impl CachePairReader {
    /// A reader for the `.toc` file at `toc_path` and the `.cache` file at
    /// `cache_path`, which has `cache_size` bytes; its table of contents is
    /// not read yet.
    pub fn new(toc_path: String, cache_path: String, is_post_ensmallening: bool, cache_size: u64) -> (res:
        Self)
        ensures
            res@.is_post_ensmallening == is_post_ensmallening,
            res@.toc_path == toc_path@,
            res@.cache_path == cache_path@,
            res@.cache_size == cache_size,
            res@.toc.toc_path == toc_path@,
            !res@.toc.is_loaded(),
            res@.toc.files.len() == 0,
            res@.toc.lookup == Map::<Seq<char>, NodeRef>::empty(),
    {
        let toc = Toc::new(toc_path.clone());
        CachePairReader { is_post_ensmallening, toc_path, cache_path, toc, cache_size }
    }

    /// Whether the cache holds post-ensmallening data.
    pub fn is_post_ensmallening(&self) -> (res: bool)
        ensures
            res == self@.is_post_ensmallening,
    {
        self.is_post_ensmallening
    }

    /// The path of the `.toc` file.
    pub fn toc_path(&self) -> (res: &str)
        ensures
            res@ == self@.toc_path,
    {
        self.toc_path.as_str()
    }

    /// The path of the `.cache` file.
    pub fn cache_path(&self) -> (res: &str)
        ensures
            res@ == self@.cache_path,
    {
        self.cache_path.as_str()
    }

    /// The size of the `.cache` file.
    pub fn cache_size(&self) -> (res: u64)
        ensures
            res == self@.cache_size,
    {
        self.cache_size
    }

    /// The table of contents.
    pub fn toc(&self) -> (res: &Toc)
        ensures
            res@ == self@.toc,
    {
        &self.toc
    }

    /// Reads the table of contents from the bytes of the `.toc` file (see
    /// [`Toc::read_toc`]).
    pub fn read_toc(&mut self, toc_data: &[u8], resurrect: bool) -> (res: Result<(), TocError>)
        requires
            !old(self)@.toc.is_loaded() ==> toc_data_readable(toc_data@, resurrect),
        ensures
            final(self)@.is_post_ensmallening == old(self)@.is_post_ensmallening,
            final(self)@.toc_path == old(self)@.toc_path,
            final(self)@.cache_path == old(self)@.cache_path,
            final(self)@.cache_size == old(self)@.cache_size,
            old(self)@.toc.is_loaded() ==> res is Ok && final(self)@.toc == old(self)@.toc,
            !old(self)@.toc.is_loaded() ==> match toc_load(toc_data@, resurrect) {
                TocFold::Done(b) => res is Ok && final(self)@.toc == build_view(
                    old(self)@.toc.toc_path,
                    b,
                ),
                TocFold::Failed(b, e) => res == Err::<(), TocError>(e) && final(self)@.toc
                    == build_view(old(self)@.toc.toc_path, b),
                TocFold::Panicked => false,
            },
    {
        self.toc.read_toc(toc_data, resurrect)
    }

    /// The first file whose data is compressed (its compressed and
    /// decompressed sizes differ): the file whose first bytes tell which
    /// compression format the cache uses.
    pub fn first_compressed_file(&self) -> (res: Option<&Node>)
        ensures
            match res {
                Some(n) => exists|i: int|
                    0 <= i < self@.toc.files.len() && self@.toc.files[i] == n@ && n@.comp_len
                        != n@.len && forall|j: int|
                        0 <= j < i ==> #[trigger] self@.toc.files[j].comp_len
                            == self@.toc.files[j].len,
                None => forall|j: int|
                    0 <= j < self@.toc.files.len() ==> #[trigger] self@.toc.files[j].comp_len
                        == self@.toc.files[j].len,
            },
    {
        let files = self.toc.files();
        let mut i: usize = 0;
        while i < files.len()
            invariant
                nodes_view(files@) == self@.toc.files,
                i <= files@.len(),
                forall|j: int|
                    0 <= j < i ==> #[trigger] self@.toc.files[j].comp_len == self@.toc.files[j].len,
            decreases files@.len() - i,
        {
            if files[i].comp_len() != files[i].len() {
                assert(self@.toc.files[i as int] == files@[i as int]@);
                return Some(&files[i]);
            }
            i += 1;
        }
        None
    }

    /// Records the compression format that the first eight bytes of the
    /// first compressed file show.
    pub fn detect_post_ensmallening(&mut self, header: &[u8])
        requires
            header@.len() >= 8,
        ensures
            final(self)@ == (CachePairReaderView {
                is_post_ensmallening: spec_is_post_ensmallening_header(header@),
                ..old(self)@
            }),
    {
        self.is_post_ensmallening = is_post_ensmallening_header(header);
    }

    /// Forgets the table of contents.
    pub fn unread_toc(&mut self)
        ensures
            final(self)@.is_post_ensmallening == old(self)@.is_post_ensmallening,
            final(self)@.toc_path == old(self)@.toc_path,
            final(self)@.cache_path == old(self)@.cache_path,
            final(self)@.cache_size == old(self)@.cache_size,
            final(self)@.toc.toc_path == old(self)@.toc.toc_path,
            !final(self)@.toc.is_loaded(),
            final(self)@.toc.files.len() == 0,
            final(self)@.toc.lookup == Map::<Seq<char>, NodeRef>::empty(),
    {
        self.toc.unread_toc()
    }

    /// Get the directory node for the given path.
    pub fn get_directory_node(&self, path: &str) -> (res: Option<Node>)
        requires
            self@.toc.is_loaded() ==> is_absolute(path@),
        ensures
            match res {
                Some(n) => lookup_kind(self@.toc, path@, NodeKind::Directory) == Some(n@),
                None => lookup_kind(self@.toc, path@, NodeKind::Directory) is None,
            },
    {
        self.toc.get_directory_node(path)
    }

    /// Get the file node for the given path.
    pub fn get_file_node(&self, path: &str) -> (res: Option<Node>)
        requires
            self@.toc.is_loaded() ==> is_absolute(path@),
        ensures
            match res {
                Some(n) => lookup_kind(self@.toc, path@, NodeKind::File) == Some(n@),
                None => lookup_kind(self@.toc, path@, NodeKind::File) is None,
            },
    {
        self.toc.get_file_node(path)
    }

    /// Get the directory nodes
    pub fn directories(&self) -> (res: &[Node])
        ensures
            nodes_view(res@) == self@.toc.dirs,
    {
        self.toc.directories()
    }

    /// Get the file nodes
    pub fn files(&self) -> (res: &[Node])
        ensures
            nodes_view(res@) == self@.toc.files,
    {
        self.toc.files()
    }

    /// How the data of `file_node` is stored in the cache.
    pub fn storage_method(&self, file_node: &Node) -> (res: StorageMethod)
        ensures
            res == spec_storage_method(file_node@, self@.is_post_ensmallening),
    {
        if file_node.comp_len() == file_node.len() {
            StorageMethod::Stored
        } else if self.is_post_ensmallening {
            StorageMethod::PostEnsmallening
        } else {
            StorageMethod::PreEnsmallening
        }
    }

    /// Decompresses the data of `file_node`, `data` being the bytes read
    /// from the cache at the node's offset (as many as its compressed
    /// size). Stored data comes back as is.
    pub fn decompress_data(&self, file_node: &Node, data: &[u8]) -> (res: Result<
        Vec<u8>,
        CacheDataError,
    >)
        ensures
            match spec_storage_method(file_node@, self@.is_post_ensmallening) {
                StorageMethod::Stored => res matches Ok(v) && v@ == data@,
                StorageMethod::PostEnsmallening => res == Err::<Vec<u8>, CacheDataError>(
                    CacheDataError::PostEnsmalleningUnsupported,
                ),
                StorageMethod::PreEnsmallening => match pre_decode(data@) {
                    Ok(v) => res matches Ok(r) && r@ == v,
                    Err(e) => res == Err::<Vec<u8>, CacheDataError>(
                        CacheDataError::PreEnsmallening(e),
                    ),
                },
            },
    {
        match self.storage_method(file_node) {
            StorageMethod::Stored => Ok(vstd::slice::slice_to_vec(data)),
            StorageMethod::PostEnsmallening => Err(CacheDataError::PostEnsmalleningUnsupported),
            StorageMethod::PreEnsmallening => {
                let decompressed_len = if file_node.len() < 0 {
                    0
                } else {
                    file_node.len() as usize
                };
                match decompress_pre_ensmallening(data, decompressed_len) {
                    Ok(v) => Ok(v),
                    Err(e) => Err(CacheDataError::PreEnsmallening(e)),
                }
            },
        }
    }
}

} // verus!
