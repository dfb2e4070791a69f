//! The table of contents (`.toc`) of a cache pair.
//!
//! A `.toc` file starts with an 8-byte header, followed by 96-byte entries
//! (integers little-endian): cache offset (`i64`, `-1` for a directory),
//! timestamp (`i64`, 0 for an entry that a newer one replaced), compressed
//! length (`i32`), length (`i32`), a reserved `i32`, the index of the parent
//! directory (`i32`) and a NUL-terminated name of up to 64 bytes.
//!
//! Directories are numbered in the order in which they appear, the root
//! being directory 0. Every node is also registered under its absolute
//! path, lowercased and with forward slashes, for lookups that ignore case
//! and separator style; the root keeps the path `/`, which an entry with an
//! empty name directly under the root would otherwise take.

use vstd::prelude::*;
use vstd::hash_map::StringHashMap;
use vstd::string::{StringExecFns, StrSliceExecFns};
use vstd::utf8::*;

use crate::le_bytes::{read_u32_le, read_u64_le, spec_u32_le, spec_u64_le};
use crate::node::{
    directory_view, file_view, root_view, with_child, Node, NodeKind, NodeRef, NodeView,
};
use crate::text::{
    ascii_lowercase, insert_deleted_marker, is_ascii_text, normalize_separators,
    replace_backslashes, str_equal, str_from_utf8, to_lowercase, lowercase, with_deleted_marker,
};

verus! {

/// The size in bytes of one entry of a `.toc` file.
pub const TOC_ENTRY_SIZE: usize = 96;

/// The size in bytes of the header of a `.toc` file.
pub const TOC_HEADER_SIZE: usize = 8;

/// Why a table of contents could not be read.
#[derive(Debug, Clone, Copy, PartialEq, Eq, Structural)]
pub enum TocError {
    /// An entry's name is not valid UTF-8.
    InvalidEntryName,
}

/// The fields of one `.toc` entry.
pub struct TocEntryView {
    pub cache_offset: i64,
    pub timestamp: i64,
    pub comp_len: i32,
    pub len: i32,
    pub reserved: i32,
    pub parent_dir_index: i32,
    pub name: Seq<u8>,
}

/// Decodes the 96 bytes of an entry.
pub open spec fn spec_toc_entry(b: Seq<u8>) -> TocEntryView {
    TocEntryView {
        cache_offset: spec_u64_le(b.subrange(0, 8)) as i64,
        timestamp: spec_u64_le(b.subrange(8, 16)) as i64,
        comp_len: spec_u32_le(b.subrange(16, 20)) as i32,
        len: spec_u32_le(b.subrange(20, 24)) as i32,
        reserved: spec_u32_le(b.subrange(24, 28)) as i32,
        parent_dir_index: spec_u32_le(b.subrange(28, 32)) as i32,
        name: b.subrange(32, 96),
    }
}

/// The number of whole entries in a `.toc` file of `len` bytes.
pub open spec fn entry_count(len: int) -> int {
    (len - 8) / 96
}

/// The entry at index `i` of the `.toc` file `data`.
pub open spec fn toc_entry_at(data: Seq<u8>, i: int) -> TocEntryView {
    spec_toc_entry(data.subrange(8 + 96 * i, 8 + 96 * i + 96))
}

/// One entry of a `.toc` file.
pub struct TocEntry<'a> {
    pub cache_offset: i64,
    pub timestamp: i64,
    pub comp_len: i32,
    pub len: i32,
    pub reserved: i32,
    pub parent_dir_index: i32,
    pub name: &'a [u8],
}

impl<'a> TocEntry<'a> {
    /// The entry's fields.
    pub open spec fn view(&self) -> TocEntryView {
        TocEntryView {
            cache_offset: self.cache_offset,
            timestamp: self.timestamp,
            comp_len: self.comp_len,
            len: self.len,
            reserved: self.reserved,
            parent_dir_index: self.parent_dir_index,
            name: self.name@,
        }
    }

    /// Decodes an entry from its 96 bytes.
    pub fn parse(b: &'a [u8]) -> (res: TocEntry<'a>)
        requires
            b@.len() == 96,
        ensures
            res.view() == spec_toc_entry(b@),
    {
        TocEntry {
            cache_offset: read_u64_le(vstd::slice::slice_subrange(b, 0, 8)) as i64,
            timestamp: read_u64_le(vstd::slice::slice_subrange(b, 8, 16)) as i64,
            comp_len: read_u32_le(vstd::slice::slice_subrange(b, 16, 20)) as i32,
            len: read_u32_le(vstd::slice::slice_subrange(b, 20, 24)) as i32,
            reserved: read_u32_le(vstd::slice::slice_subrange(b, 24, 28)) as i32,
            parent_dir_index: read_u32_le(vstd::slice::slice_subrange(b, 28, 32)) as i32,
            name: vstd::slice::slice_subrange(b, 32, 96),
        }
    }
}

/// The index of the first NUL byte of `name` at or after `i`, or the
/// length of `name` when there is none.
pub open spec fn nul_index_from(name: Seq<u8>, i: int) -> int
    decreases name.len() - i,
{
    if i < 0 || i >= name.len() {
        name.len() as int
    } else if name[i] == 0 {
        i
    } else {
        nul_index_from(name, i + 1)
    }
}

/// The bytes of a NUL-terminated name field.
pub open spec fn entry_name_bytes(name: Seq<u8>) -> Seq<u8> {
    name.subrange(0, nul_index_from(name, 0))
}

/// What a table of contents holds while its entries are read: the
/// directories, the files, the lookup from normalized path to node, and the
/// path of each directory as children's paths are built from it.
pub struct TocBuild {
    pub dirs: Seq<NodeView>,
    pub files: Seq<NodeView>,
    pub lookup: Map<Seq<char>, NodeRef>,
    pub dir_paths: Seq<Seq<char>>,
}

/// Where reading the entries of a table of contents ends.
pub enum TocFold {
    /// The entries read so far were all accepted.
    Done(TocBuild),
    /// An entry was rejected; the table holds what was read before it.
    Failed(TocBuild, TocError),
    /// An entry names a parent directory that does not exist (the
    /// reading panics there).
    Panicked,
}

/// The table before any entry is read: the root directory alone,
/// registered under `/`.
pub open spec fn initial_build() -> TocBuild {
    TocBuild {
        dirs: seq![root_view()],
        files: Seq::empty(),
        lookup: Map::empty().insert(seq!['/'], NodeRef::Directory(0)),
        dir_paths: seq![Seq::empty()],
    }
}

/// The path of the entry `name` in the directory whose path is `parent`
/// (the root's being empty): the two joined by a slash, so that every path
/// is absolute.
pub open spec fn join_path(parent: Seq<char>, name: Seq<char>) -> Seq<char> {
    parent + seq!['/'] + name
}

/// `lookup` with `r` registered under `key`, unless `key` is the root's
/// `/`, which stays with the root.
pub open spec fn register(lookup: Map<Seq<char>, NodeRef>, key: Seq<char>, r: NodeRef) -> Map<
    Seq<char>,
    NodeRef,
> {
    if key == seq!['/'] {
        lookup
    } else {
        lookup.insert(key, r)
    }
}

/// Reads one entry into the table `b`.
pub open spec fn toc_step(b: TocBuild, e: TocEntryView, resurrect: bool) -> TocFold {
    if e.timestamp == 0 && !resurrect {
        TocFold::Done(b)
    } else {
        let bytes = entry_name_bytes(e.name);
        if !valid_utf8(bytes) {
            TocFold::Failed(b, TocError::InvalidEntryName)
        } else {
            let decoded = decode_utf8(bytes);
            let name = if e.timestamp == 0 {
                with_deleted_marker(decoded)
            } else {
                decoded
            };
            let p = e.parent_dir_index as int;
            if p < 0 || p >= b.dirs.len() || p >= b.dir_paths.len() {
                TocFold::Panicked
            } else {
                let parent_path = b.dir_paths[p];
                let norm = normalize_separators(name);
                let path = join_path(parent_path, norm);
                let key = lowercase(path);
                if e.cache_offset == -1 {
                    let r = NodeRef::Directory(b.dirs.len() as usize);
                    TocFold::Done(
                        TocBuild {
                            dirs: b.dirs.update(p, with_child(b.dirs[p], r)).push(
                                directory_view(name, path),
                            ),
                            files: b.files,
                            lookup: register(b.lookup, key, r),
                            dir_paths: b.dir_paths.push(path),
                        },
                    )
                } else {
                    let r = NodeRef::File(b.files.len() as usize);
                    TocFold::Done(
                        TocBuild {
                            dirs: b.dirs.update(p, with_child(b.dirs[p], r)),
                            files: b.files.push(
                                file_view(
                                    name,
                                    path,
                                    e.cache_offset,
                                    e.timestamp,
                                    e.comp_len,
                                    e.len,
                                ),
                            ),
                            lookup: register(b.lookup, key, r),
                            dir_paths: b.dir_paths,
                        },
                    )
                }
            }
        }
    }
}

/// Reads the first `k` entries of the `.toc` file `data`.
pub open spec fn toc_fold(data: Seq<u8>, resurrect: bool, k: nat) -> TocFold
    decreases k,
{
    if k == 0 {
        TocFold::Done(initial_build())
    } else {
        match toc_fold(data, resurrect, (k - 1) as nat) {
            TocFold::Done(b) => toc_step(b, toc_entry_at(data, k - 1), resurrect),
            other => other,
        }
    }
}

/// Reads all entries of the `.toc` file `data`.
pub open spec fn toc_load(data: Seq<u8>, resurrect: bool) -> TocFold {
    toc_fold(data, resurrect, entry_count(data.len() as int) as nat)
}

/// Whether the `.toc` file `data` can be read without panicking: it has its
/// header and no accepted entry names a missing parent directory.
pub open spec fn toc_data_readable(data: Seq<u8>, resurrect: bool) -> bool {
    data.len() >= 8 && !(toc_load(data, resurrect) is Panicked)
}

/// Whether `r` refers to one of `n_dirs` directories or `n_files` files.
pub open spec fn ref_in_range(r: NodeRef, n_dirs: int, n_files: int) -> bool {
    match r {
        NodeRef::Directory(i) => i < n_dirs,
        NodeRef::File(i) => i < n_files,
    }
}

/// The invariant of a table: lookup entries refer to existing nodes,
/// directories are directory nodes and files are file nodes.
pub open spec fn nodes_wf(
    dirs: Seq<NodeView>,
    files: Seq<NodeView>,
    lookup: Map<Seq<char>, NodeRef>,
) -> bool {
    &&& forall|k: Seq<char>| #[trigger]
        lookup.contains_key(k) ==> ref_in_range(lookup[k], dirs.len() as int, files.len() as int)
    &&& forall|i: int| 0 <= i < dirs.len() ==> #[trigger] dirs[i].kind == NodeKind::Directory
    &&& forall|i: int| 0 <= i < files.len() ==> #[trigger] files[i].kind == NodeKind::File
}

/// Whether `n` is a root directory: a directory with an empty name at the
/// path `/`.
pub open spec fn is_root_node(n: NodeView) -> bool {
    n.kind == NodeKind::Directory && n.name.len() == 0 && n.path == seq!['/']
}

/// Directory 0 is the root, registered under `/`.
pub open spec fn root_wf(dirs: Seq<NodeView>, lookup: Map<Seq<char>, NodeRef>) -> bool {
    dirs.len() > 0 ==> is_root_node(dirs[0]) && lookup.contains_key(seq!['/']) && lookup[seq!['/']]
        == NodeRef::Directory(0)
}

/// The invariant of a table while its entries are read.
pub open spec fn build_wf(b: TocBuild) -> bool {
    &&& nodes_wf(b.dirs, b.files, b.lookup)
    &&& b.dirs.len() >= 1
    &&& b.dirs.len() == b.dir_paths.len()
    &&& root_wf(b.dirs, b.lookup)
}

proof fn lemma_step_wf(b: TocBuild, e: TocEntryView, resurrect: bool)
    requires
        build_wf(b),
    ensures
        toc_step(b, e, resurrect) matches TocFold::Done(nb) ==> build_wf(nb),
{
    if let TocFold::Done(nb) = toc_step(b, e, resurrect) {
        assert forall|k: Seq<char>| #[trigger] nb.lookup.contains_key(k) implies ref_in_range(
            nb.lookup[k],
            nb.dirs.len() as int,
            nb.files.len() as int,
        ) by {
            if b.lookup.contains_key(k) && nb.lookup[k] == b.lookup[k] {
            }
        }
        assert forall|i: int| 0 <= i < nb.dirs.len() implies #[trigger] nb.dirs[i].kind
            == NodeKind::Directory by {
            if i < b.dirs.len() {
                assert(b.dirs[i].kind == NodeKind::Directory);
            }
        }
        assert(nb.dirs[0].name == b.dirs[0].name && nb.dirs[0].path == b.dirs[0].path);
        assert(nb.lookup.contains_key(seq!['/']));
        assert(nb.lookup[seq!['/']] == NodeRef::Directory(0));
        assert forall|i: int| 0 <= i < nb.files.len() implies #[trigger] nb.files[i].kind
            == NodeKind::File by {
            if i < b.files.len() {
                assert(b.files[i].kind == NodeKind::File);
            }
        }
    }
}

proof fn lemma_fold_stops(data: Seq<u8>, resurrect: bool, k1: nat, k2: nat)
    requires
        k1 <= k2,
        !(toc_fold(data, resurrect, k1) is Done),
    ensures
        toc_fold(data, resurrect, k2) == toc_fold(data, resurrect, k1),
    decreases k2,
{
    if k2 > k1 {
        lemma_fold_stops(data, resurrect, k1, (k2 - 1) as nat);
    }
}

/// What a table of contents holds.
pub struct TocView {
    pub toc_path: Seq<char>,
    pub dirs: Seq<NodeView>,
    pub files: Seq<NodeView>,
    pub lookup: Map<Seq<char>, NodeRef>,
}

impl TocView {
    /// Whether the entries have been read (the root directory exists).
    pub open spec fn is_loaded(self) -> bool {
        self.dirs.len() > 0
    }

    /// The node that `r` refers to.
    pub open spec fn node(self, r: NodeRef) -> NodeView {
        match r {
            NodeRef::Directory(i) => self.dirs[i as int],
            NodeRef::File(i) => self.files[i as int],
        }
    }

    /// The node registered under the key `key`, once the entries are read.
    pub open spec fn lookup_key(self, key: Seq<char>) -> Option<NodeView> {
        if self.is_loaded() && self.lookup.contains_key(key) {
            Some(self.node(self.lookup[key]))
        } else {
            None
        }
    }

    /// The node registered under the path `path` (before normalization).
    pub open spec fn lookup_path(self, path: Seq<char>) -> Option<NodeView> {
        self.lookup_key(lowercase(normalize_separators(path)))
    }
}

/// The table that results from reading the entries into `b`.
pub open spec fn build_view(toc_path: Seq<char>, b: TocBuild) -> TocView {
    TocView { toc_path, dirs: b.dirs, files: b.files, lookup: b.lookup }
}

/// A table for the `.toc` file at `toc_path` whose entries are not read.
pub open spec fn unread_view(toc_path: Seq<char>) -> TocView {
    TocView { toc_path, dirs: Seq::empty(), files: Seq::empty(), lookup: Map::empty() }
}

/// The table that reading the `.toc` file `data` leaves in an unread
/// table for the file at `toc_path`.
pub open spec fn read_view(toc_path: Seq<char>, data: Seq<u8>, resurrect: bool) -> TocView {
    match toc_load(data, resurrect) {
        TocFold::Done(b) => build_view(toc_path, b),
        TocFold::Failed(b, _) => build_view(toc_path, b),
        TocFold::Panicked => unread_view(toc_path),
    }
}

/// The table of contents of a cache pair.
pub struct Toc {
    toc_path: String,
    directories: Vec<Node>,
    files: Vec<Node>,
    node_lookup: StringHashMap<NodeRef>,
}

/// The contents of a list of nodes.
pub open spec fn nodes_view(nodes: Seq<Node>) -> Seq<NodeView> {
    nodes.map_values(|n: Node| n@)
}

impl View for Toc {
    type V = TocView;

    closed spec fn view(&self) -> TocView {
        TocView {
            toc_path: self.toc_path@,
            dirs: nodes_view(self.directories@),
            files: nodes_view(self.files@),
            lookup: self.node_lookup@,
        }
    }
}

impl Toc {
    #[verifier::type_invariant]
    closed spec fn inv(self) -> bool {
        &&& nodes_wf(nodes_view(self.directories@), nodes_view(self.files@), self.node_lookup@)
        &&& root_wf(nodes_view(self.directories@), self.node_lookup@)
    }

    /// An unread table of contents for the `.toc` file at `toc_path`.
    pub fn new(toc_path: String) -> (res: Toc)
        ensures
            res@ == unread_view(toc_path@),
    {
        let res = Toc {
            toc_path,
            directories: Vec::new(),
            files: Vec::new(),
            node_lookup: StringHashMap::new(),
        };
        assert(nodes_view(res.directories@) =~= Seq::<NodeView>::empty());
        assert(nodes_view(res.files@) =~= Seq::<NodeView>::empty());
        assert(res.node_lookup@ =~= Map::<Seq<char>, NodeRef>::empty());
        res
    }

    /// The path of the `.toc` file.
    pub fn toc_path(&self) -> (res: &str)
        ensures
            res@ == self@.toc_path,
    {
        self.toc_path.as_str()
    }

    /// The directory nodes, the root first.
    pub fn directories(&self) -> (res: &[Node])
        ensures
            nodes_view(res@) == self@.dirs,
            forall|i: int| 0 <= i < self@.dirs.len() ==> #[trigger] self@.dirs[i].kind
                == NodeKind::Directory,
            self@.dirs.len() > 0 ==> is_root_node(self@.dirs[0]),
    {
        proof {
            use_type_invariant(self);
        }
        self.directories.as_slice()
    }

    /// The file nodes, in the order of their entries.
    pub fn files(&self) -> (res: &[Node])
        ensures
            nodes_view(res@) == self@.files,
            forall|i: int| 0 <= i < self@.files.len() ==> #[trigger] self@.files[i].kind
                == NodeKind::File,
    {
        proof {
            use_type_invariant(self);
        }
        self.files.as_slice()
    }

    /// Whether the entries have been read.
    pub fn is_loaded(&self) -> (res: bool)
        ensures
            res == self@.is_loaded(),
    {
        self.directories.len() != 0
    }

    /// Forgets the entries that were read.
    pub fn unread_toc(&mut self)
        ensures
            final(self)@ == unread_view(old(self)@.toc_path),
    {
        let toc_path = self.toc_path.clone();
        *self = Toc::new(toc_path);
    }
}

/// The bytes of a NUL-terminated name field, up to its first NUL byte.
fn name_field_bytes<'a>(name: &'a [u8]) -> (res: &'a [u8])
    ensures
        res@ == entry_name_bytes(name@),
{
    let mut nul: usize = 0;
    while nul < name.len() && name[nul] != 0
        invariant
            nul <= name@.len(),
            nul_index_from(name@, 0) == nul_index_from(name@, nul as int),
        decreases name@.len() - nul,
    {
        nul += 1;
    }
    vstd::slice::slice_subrange(name, 0, nul)
}

/// The nodes, lookup and directory paths of a table whose entries are
/// being read.
struct TocBuilder {
    directories: Vec<Node>,
    files: Vec<Node>,
    node_lookup: StringHashMap<NodeRef>,
    dir_paths: Vec<String>,
}

impl TocBuilder {
    spec fn build(&self) -> TocBuild {
        TocBuild {
            dirs: nodes_view(self.directories@),
            files: nodes_view(self.files@),
            lookup: self.node_lookup@,
            dir_paths: self.dir_paths@.map_values(|d: String| d@),
        }
    }

    /// The table with the root directory alone.
    fn new() -> (res: TocBuilder)
        ensures
            res.build() == initial_build(),
    {
        let mut directories: Vec<Node> = Vec::new();
        let mut node_lookup: StringHashMap<NodeRef> = StringHashMap::new();
        let mut dir_paths: Vec<String> = Vec::new();
        directories.push(Node::root());
        let root_key = String::from_str("/");
        proof {
            reveal_strlit("/");
        }
        assert(root_key@ =~= seq!['/']);
        node_lookup.insert(root_key, NodeRef::Directory(0));
        dir_paths.push(String::new());
        let res = TocBuilder { directories, files: Vec::new(), node_lookup, dir_paths };
        assert(nodes_view(res.directories@) =~= initial_build().dirs);
        assert(nodes_view(res.files@) =~= initial_build().files);
        assert(res.dir_paths@.map_values(|d: String| d@) =~= initial_build().dir_paths);
        assert(res.node_lookup@ =~= initial_build().lookup);
        res
    }

    /// Reads one entry.
    fn add_entry(&mut self, entry: &TocEntry, resurrect: bool) -> (res: Result<(), TocError>)
        requires
            build_wf(old(self).build()),
            !(toc_step(old(self).build(), entry.view(), resurrect) is Panicked),
        ensures
            match toc_step(old(self).build(), entry.view(), resurrect) {
                TocFold::Done(nb) => res is Ok && final(self).build() == nb,
                TocFold::Failed(_, err) => res == Err::<(), TocError>(err) && final(self).build()
                    == old(self).build(),
                TocFold::Panicked => false,
            },
    {
        let ghost b = self.build();
        let ghost e = entry.view();

        // A timestamp of 0 marks an entry replaced by a newer one.
        if entry.timestamp == 0 && !resurrect {
            return Ok(());
        }

        let name_bytes = name_field_bytes(entry.name);
        assert(name_bytes@ == entry_name_bytes(e.name));
        let entry_name = match str_from_utf8(name_bytes) {
            Some(n) => n,
            None => {
                return Err(TocError::InvalidEntryName);
            },
        };
        proof {
            encode_utf8_decode_utf8(entry_name@);
        }
        assert(entry_name@ == decode_utf8(entry_name_bytes(e.name)));

        let entry_name_owned: String = if entry.timestamp == 0 {
            insert_deleted_marker(entry_name)
        } else {
            String::from_str(entry_name)
        };

        let parent_index = entry.parent_dir_index;
        if parent_index < 0 || parent_index as usize >= self.directories.len() {
            // Excluded by the precondition: reading panics here.
            assert(false);
            return Ok(());
        }
        let pi = parent_index as usize;
        assert(self.dir_paths@[pi as int]@ == b.dir_paths[pi as int]);

        let entry_name_norm = replace_backslashes(entry_name_owned.as_str());
        let parent_path: &str = self.dir_paths[pi].as_str();
        let mut path = String::from_str(parent_path);
        path.append("/");
        path.append(entry_name_norm.as_str());
        proof {
            reveal_strlit("/");
        }
        assert(path@ =~= join_path(b.dir_paths[pi as int], normalize_separators(entry_name_owned@)));
        let norm_path = to_lowercase(path.as_str());

        if entry.cache_offset == -1 {
            let r = NodeRef::Directory(self.directories.len());
            let child_path = path.clone();
            let dir_node = Node::directory(entry_name_owned.as_str(), path);
            self.directories[pi].append(r);
            self.directories.push(dir_node);
            self.dir_paths.push(child_path);
            let ghost key = norm_path@;
            proof {
                reveal_strlit("/");
                assert("/"@ =~= seq!['/']);
            }
            if !str_equal(norm_path.as_str(), "/") {
                self.node_lookup.insert(norm_path, r);
            }
            assert(self.node_lookup@ =~= register(b.lookup, key, r));
            assert(nodes_view(self.directories@) =~= b.dirs.update(
                pi as int,
                with_child(b.dirs[pi as int], r),
            ).push(directory_view(entry_name_owned@, path@)));
            assert(self.dir_paths@.map_values(|d: String| d@) =~= b.dir_paths.push(
                join_path(b.dir_paths[pi as int], normalize_separators(entry_name_owned@)),
            ));
        } else {
            let r = NodeRef::File(self.files.len());
            let ghost path_view = path@;
            let file_node = Node::file(
                entry_name_owned.as_str(),
                path,
                entry.cache_offset,
                entry.timestamp,
                entry.comp_len,
                entry.len,
            );
            self.directories[pi].append(r);
            self.files.push(file_node);
            let ghost key = norm_path@;
            proof {
                reveal_strlit("/");
                assert("/"@ =~= seq!['/']);
            }
            if !str_equal(norm_path.as_str(), "/") {
                self.node_lookup.insert(norm_path, r);
            }
            assert(self.node_lookup@ =~= register(b.lookup, key, r));
            assert(nodes_view(self.directories@) =~= b.dirs.update(
                pi as int,
                with_child(b.dirs[pi as int], r),
            ));
            assert(nodes_view(self.files@) =~= b.files.push(
                file_view(
                    entry_name_owned@,
                    path_view,
                    e.cache_offset,
                    e.timestamp,
                    e.comp_len,
                    e.len,
                ),
            ));
            assert(self.dir_paths@.map_values(|d: String| d@) =~= b.dir_paths);
        }
        Ok(())
    }
}

impl Toc {
    /// Reads the entries of the `.toc` file whose bytes are `toc_data`,
    /// unless they were read already. Entries with timestamp 0 were
    /// replaced by newer ones and are skipped unless `resurrect` is set, in
    /// which case they are kept under a name marked `.deleted`.
    ///
    /// When an entry's name is not UTF-8 the error is returned and the
    /// table keeps the entries read before it.
    pub fn read_toc(&mut self, toc_data: &[u8], resurrect: bool) -> (res: Result<(), TocError>)
        requires
            !old(self)@.is_loaded() ==> toc_data_readable(toc_data@, resurrect),
        ensures
            old(self)@.is_loaded() ==> res is Ok && final(self)@ == old(self)@,
            !old(self)@.is_loaded() ==> final(self)@ == read_view(
                old(self)@.toc_path,
                toc_data@,
                resurrect,
            ),
            !old(self)@.is_loaded() ==> match toc_load(toc_data@, resurrect) {
                TocFold::Done(b) => res is Ok && final(self)@ == build_view(old(self)@.toc_path, b),
                TocFold::Failed(b, e) => res == Err::<(), TocError>(e) && final(self)@ == build_view(
                    old(self)@.toc_path,
                    b,
                ),
                TocFold::Panicked => false,
            },
    {
        if self.is_loaded() {
            return Ok(());
        }
        let ghost data = toc_data@;
        let toc_path = self.toc_path.clone();
        let n_entries: usize = (toc_data.len() - TOC_HEADER_SIZE) / TOC_ENTRY_SIZE;
        assert(8 + 96 * n_entries <= toc_data@.len()) by (nonlinear_arith)
            requires
                n_entries == (toc_data@.len() - 8) / 96,
                toc_data@.len() >= 8,
        ;

        let mut builder = TocBuilder::new();
        let mut i: usize = 0;
        let mut start: usize = TOC_HEADER_SIZE;
        while i < n_entries
            invariant
                data == toc_data@,
                !old(self)@.is_loaded(),
                toc_path@ == old(self)@.toc_path,
                n_entries == entry_count(data.len() as int),
                8 + 96 * n_entries <= toc_data.len(),
                i <= n_entries,
                start == 8 + 96 * i,
                toc_data_readable(data, resurrect),
                toc_fold(data, resurrect, i as nat) == TocFold::Done(builder.build()),
                build_wf(builder.build()),
            decreases n_entries - i,
        {
            let entry = TocEntry::parse(vstd::slice::slice_subrange(toc_data, start, start + TOC_ENTRY_SIZE));
            assert(entry.view() == toc_entry_at(data, i as int));
            let ghost b = builder.build();
            proof {
                lemma_step_wf(b, entry.view(), resurrect);
                if !(toc_fold(data, resurrect, (i + 1) as nat) is Done) {
                    lemma_fold_stops(data, resurrect, (i + 1) as nat, n_entries as nat);
                }
            }
            match builder.add_entry(&entry, resurrect) {
                Ok(()) => {},
                Err(e) => {
                    let TocBuilder { directories, files, node_lookup, dir_paths: _ } = builder;
                    *self = Toc { toc_path, directories, files, node_lookup };
                    return Err(e);
                },
            }
            i += 1;
            start += TOC_ENTRY_SIZE;
        }
        let TocBuilder { directories, files, node_lookup, dir_paths: _ } = builder;
        *self = Toc { toc_path, directories, files, node_lookup };
        Ok(())
    }
}

/// Whether reading the `.toc` file `toc_data` into an unread table
/// succeeds or stops with an error rather than panicking: the file has its
/// 8-byte header and every entry read before the first rejected one names
/// an existing parent directory.
pub fn toc_data_is_readable(toc_data: &[u8], resurrect: bool) -> (res: bool)
    ensures
        res == toc_data_readable(toc_data@, resurrect),
{
    if toc_data.len() < TOC_HEADER_SIZE {
        return false;
    }
    let ghost data = toc_data@;
    let n_entries: usize = (toc_data.len() - TOC_HEADER_SIZE) / TOC_ENTRY_SIZE;
    assert(8 + 96 * n_entries <= toc_data@.len()) by (nonlinear_arith)
        requires
            n_entries == (toc_data@.len() - 8) / 96,
            toc_data@.len() >= 8,
    ;
    let mut dirs: usize = 1;
    let mut i: usize = 0;
    let mut start: usize = TOC_HEADER_SIZE;
    while i < n_entries
        invariant
            data == toc_data@,
            n_entries == entry_count(data.len() as int),
            8 + 96 * n_entries <= toc_data.len(),
            i <= n_entries,
            start == 8 + 96 * i,
            1 <= dirs <= i + 1,
            toc_fold(data, resurrect, i as nat) is Done,
            build_wf(toc_fold(data, resurrect, i as nat)->Done_0),
            toc_fold(data, resurrect, i as nat)->Done_0.dirs.len() == dirs,
        decreases n_entries - i,
    {
        let entry = TocEntry::parse(vstd::slice::slice_subrange(toc_data, start, start + TOC_ENTRY_SIZE));
        assert(entry.view() == toc_entry_at(data, i as int));
        let ghost b = toc_fold(data, resurrect, i as nat)->Done_0;
        proof {
            lemma_step_wf(b, entry.view(), resurrect);
            if !(toc_fold(data, resurrect, (i + 1) as nat) is Done) {
                lemma_fold_stops(data, resurrect, (i + 1) as nat, n_entries as nat);
            }
        }
        if !(entry.timestamp == 0 && !resurrect) {
            let name_bytes = name_field_bytes(entry.name);
            if str_from_utf8(name_bytes).is_none() {
                return true;
            }
            let parent_index = entry.parent_dir_index;
            if parent_index < 0 || parent_index as usize >= dirs {
                return false;
            }
            if entry.cache_offset == -1 {
                dirs += 1;
            }
        }
        i += 1;
        start += TOC_ENTRY_SIZE;
    }
    true
}

/// Whether `path` is absolute (starts with a slash).
pub open spec fn is_absolute(path: Seq<char>) -> bool {
    path.len() > 0 && path[0] == '/'
}

/// The node found under `path` when it has the kind `kind`.
pub open spec fn lookup_kind(toc: TocView, path: Seq<char>, kind: NodeKind) -> Option<NodeView> {
    match toc.lookup_path(path) {
        Some(n) => if n.kind == kind {
            Some(n)
        } else {
            None
        },
        None => None,
    }
}

impl Toc {
    /// The node registered under `path`, compared without regard to case
    /// or to the kind of slash; `None` before the entries are read.
    fn get_node(&self, path: &str) -> (res: Option<Node>)
        requires
            self@.is_loaded() ==> is_absolute(path@),
        ensures
            match res {
                Some(n) => self@.lookup_path(path@) == Some(n@),
                None => self@.lookup_path(path@) is None,
            },
    {
        proof {
            use_type_invariant(self);
        }
        if !self.is_loaded() {
            return None;
        }
        let separators_normalized = replace_backslashes(path);
        let path_norm = to_lowercase(separators_normalized.as_str());
        match self.node_lookup.get(path_norm.as_str()) {
            Some(r) => {
                let ghost key = path_norm@;
                assert(self.node_lookup@.contains_key(key));
                match *r {
                    NodeRef::Directory(i) => Some(self.directories[i].clone()),
                    NodeRef::File(i) => Some(self.files[i].clone()),
                }
            },
            None => None,
        }
    }

    /// The directory node registered under the absolute path `path`,
    /// compared without regard to case or to the kind of slash.
    pub fn get_directory_node(&self, path: &str) -> (res: Option<Node>)
        requires
            self@.is_loaded() ==> is_absolute(path@),
        ensures
            match res {
                Some(n) => lookup_kind(self@, path@, NodeKind::Directory) == Some(n@),
                None => lookup_kind(self@, path@, NodeKind::Directory) is None,
            },
            self@.is_loaded() && path@ == seq!['/'] ==> (res matches Some(n) && n@ == self@.dirs[0]
                && is_root_node(n@)),
    {
        proof {
            use_type_invariant(self);
            if path@ == seq!['/'] {
                assert(normalize_separators(path@) =~= seq!['/']);
                assert(ascii_lowercase(seq!['/']) =~= seq!['/']);
            }
        }
        match self.get_node(path) {
            Some(node) => match node.kind() {
                NodeKind::Directory => Some(node),
                _ => None,
            },
            _ => None,
        }
    }

    /// The file node registered under the absolute path `path`, compared
    /// without regard to case or to the kind of slash.
    pub fn get_file_node(&self, path: &str) -> (res: Option<Node>)
        requires
            self@.is_loaded() ==> is_absolute(path@),
        ensures
            match res {
                Some(n) => lookup_kind(self@, path@, NodeKind::File) == Some(n@),
                None => lookup_kind(self@, path@, NodeKind::File) is None,
            },
    {
        match self.get_node(path) {
            Some(node) => match node.kind() {
                NodeKind::File => Some(node),
                _ => None,
            },
            _ => None,
        }
    }
}

proof fn lemma_normalize_idempotent(p: Seq<char>)
    ensures
        normalize_separators(normalize_separators(p)) == normalize_separators(p),
{
    assert(normalize_separators(normalize_separators(p)) =~= normalize_separators(p));
}

/// Law: lookups compare paths after normalization, so two paths that
/// lowercase to the same string once their backslashes are made forward
/// slashes find the same node; in particular a path and its form with
/// forward slashes do.
pub proof fn law_lookup_normalized_paths(toc: TocView, p1: Seq<char>, p2: Seq<char>)
    ensures
        lowercase(normalize_separators(p1)) == lowercase(normalize_separators(p2))
            ==> toc.lookup_path(p1) == toc.lookup_path(p2),
        toc.lookup_path(normalize_separators(p1)) == toc.lookup_path(p1),
{
    lemma_normalize_idempotent(p1);
}

/// The node of the table `b` that `r` refers to.
pub open spec fn build_node(b: TocBuild, r: NodeRef) -> NodeView {
    match r {
        NodeRef::Directory(i) => b.dirs[i as int],
        NodeRef::File(i) => b.files[i as int],
    }
}

/// Whether `p` uses forward slashes only.
pub open spec fn has_forward_slashes_only(p: Seq<char>) -> bool {
    normalize_separators(p) == p
}

/// The keys of the lookup are the lowercased paths of the nodes that they
/// find, but for the key `/` while it finds the root, and paths use forward
/// slashes only.
pub open spec fn keys_match_paths(b: TocBuild) -> bool {
    &&& forall|k: Seq<char>| #[trigger]
        b.lookup.contains_key(k) ==> (k == seq!['/'] && b.lookup[k] == NodeRef::Directory(0))
            || k == lowercase(build_node(b, b.lookup[k]).path)
    &&& forall|i: int| 0 <= i < b.dirs.len() ==> has_forward_slashes_only(#[trigger] b.dirs[i].path)
    &&& forall|i: int| 0 <= i < b.files.len() ==> has_forward_slashes_only(#[trigger] b.files[i].path)
    &&& forall|i: int| 0 <= i < b.dir_paths.len() ==> has_forward_slashes_only(#[trigger] b.dir_paths[i])
}

proof fn lemma_step_keys(b: TocBuild, e: TocEntryView, resurrect: bool)
    requires
        build_wf(b),
        keys_match_paths(b),
        b.dirs.len() < usize::MAX,
        b.files.len() < usize::MAX,
    ensures
        toc_step(b, e, resurrect) matches TocFold::Done(nb) ==> keys_match_paths(nb),
{
    lemma_step_wf(b, e, resurrect);
    if let TocFold::Done(nb) = toc_step(b, e, resurrect) {
        if !(e.timestamp == 0 && !resurrect) {
            let bytes = entry_name_bytes(e.name);
            let decoded = decode_utf8(bytes);
            let name = if e.timestamp == 0 { with_deleted_marker(decoded) } else { decoded };
            let p = e.parent_dir_index as int;
            let parent_path = b.dir_paths[p];
            let norm = normalize_separators(name);
            let path = join_path(parent_path, norm);
            lemma_normalize_idempotent(name);
            assert(has_forward_slashes_only(parent_path));
            assert(normalize_separators(parent_path + seq!['/'] + norm) =~= normalize_separators(
                parent_path,
            ) + seq!['/'] + normalize_separators(norm));
            assert(has_forward_slashes_only(path));
            assert(has_forward_slashes_only(parent_path + seq!['/'] + norm));
            let key = lowercase(path);
            assert forall|k: Seq<char>| #[trigger]
                nb.lookup.contains_key(k) implies (k == seq!['/'] && nb.lookup[k]
                == NodeRef::Directory(0)) || k == lowercase(build_node(nb, nb.lookup[k]).path) by {
                if k == key && key != seq!['/'] {
                    if e.cache_offset == -1 {
                        assert(nb.lookup[k] == NodeRef::Directory(b.dirs.len() as usize));
                        assert(nb.dirs[b.dirs.len() as int].path == path);
                    } else {
                        assert(nb.lookup[k] == NodeRef::File(b.files.len() as usize));
                        assert(nb.files[b.files.len() as int].path == path);
                    }
                } else {
                    assert(b.lookup.contains_key(k));
                    let r = b.lookup[k];
                    assert(ref_in_range(r, b.dirs.len() as int, b.files.len() as int));
                    match r {
                        NodeRef::Directory(i) => {
                            assert(nb.dirs[i as int].path == b.dirs[i as int].path);
                        },
                        NodeRef::File(i) => {
                            assert(nb.files[i as int].path == b.files[i as int].path);
                        },
                    }
                }
            }
            assert forall|i: int| 0 <= i < nb.dirs.len() implies has_forward_slashes_only(
                #[trigger] nb.dirs[i].path,
            ) by {
                if i < b.dirs.len() {
                    assert(nb.dirs[i].path == b.dirs[i].path);
                }
            }
            assert forall|i: int| 0 <= i < nb.files.len() implies has_forward_slashes_only(
                #[trigger] nb.files[i].path,
            ) by {
                if i < b.files.len() {
                    assert(nb.files[i].path == b.files[i].path);
                }
            }
            assert forall|i: int| 0 <= i < nb.dir_paths.len() implies has_forward_slashes_only(
                #[trigger] nb.dir_paths[i],
            ) by {
                if i < b.dir_paths.len() {
                    assert(nb.dir_paths[i] == b.dir_paths[i]);
                }
            }
        }
    }
}

proof fn lemma_fold_keys(data: Seq<u8>, resurrect: bool, k: nat)
    requires
        k < usize::MAX,
    ensures
        match toc_fold(data, resurrect, k) {
            TocFold::Done(b) => build_wf(b) && keys_match_paths(b) && b.dirs.len() + b.files.len()
                <= k + 1,
            TocFold::Failed(b, _) => build_wf(b) && keys_match_paths(b) && b.dirs.len()
                + b.files.len() <= k + 1,
            TocFold::Panicked => true,
        },
    decreases k,
{
    if k == 0 {
        let b = initial_build();
        assert(normalize_separators(seq!['/']) =~= seq!['/']);
        assert(normalize_separators(Seq::<char>::empty()) =~= Seq::<char>::empty());
        assert(b.dirs[0].path == seq!['/']);
    } else {
        lemma_fold_keys(data, resurrect, (k - 1) as nat);
        if let TocFold::Done(b) = toc_fold(data, resurrect, (k - 1) as nat) {
            lemma_step_wf(b, toc_entry_at(data, k - 1), resurrect);
            lemma_step_keys(b, toc_entry_at(data, k - 1), resurrect);
        }
    }
}

/// Law: after a table is read, a path finds a node only when the node's
/// own path normalizes to the same key (a path that normalizes to `/`
/// finds the root), and the paths of all nodes use forward slashes only.
pub proof fn law_loaded_lookup_matches_paths(data: Seq<u8>, resurrect: bool, path: Seq<char>)
    requires
        data.len() <= usize::MAX,
        toc_data_readable(data, resurrect),
    ensures
        ({
            let b = match toc_load(data, resurrect) {
                TocFold::Done(b) => b,
                TocFold::Failed(b, _) => b,
                TocFold::Panicked => initial_build(),
            };
            let toc = build_view(Seq::empty(), b);
            let key = lowercase(normalize_separators(path));
            &&& toc.lookup_path(path) matches Some(n) ==> key == seq!['/'] || key
                == lowercase(n.path)
            &&& forall|i: int| 0 <= i < toc.files.len() ==> has_forward_slashes_only(
                #[trigger] toc.files[i].path,
            )
            &&& forall|i: int| 0 <= i < toc.dirs.len() ==> has_forward_slashes_only(
                #[trigger] toc.dirs[i].path,
            )
        }),
{
    assert(entry_count(data.len() as int) < usize::MAX) by (nonlinear_arith)
        requires
            8 <= data.len() <= usize::MAX,
    ;
    lemma_fold_keys(data, resurrect, entry_count(data.len() as int) as nat);
}

/// Whether every file node of `b` has a non-zero timestamp.
pub open spec fn no_replaced_files(b: TocBuild) -> bool {
    forall|i: int| 0 <= i < b.files.len() ==> (#[trigger] b.files[i]).timestamp != 0
}

proof fn lemma_fold_no_replaced(data: Seq<u8>, k: nat)
    ensures
        match toc_fold(data, false, k) {
            TocFold::Done(b) => no_replaced_files(b),
            TocFold::Failed(b, _) => no_replaced_files(b),
            TocFold::Panicked => true,
        },
    decreases k,
{
    if k > 0 {
        lemma_fold_no_replaced(data, (k - 1) as nat);
        if let TocFold::Done(b) = toc_fold(data, false, (k - 1) as nat) {
            if let TocFold::Done(nb) = toc_step(b, toc_entry_at(data, k - 1), false) {
                assert forall|i: int| 0 <= i < nb.files.len() implies (#[trigger] nb.files[i]).timestamp
                    != 0 by {
                    if i < b.files.len() {
                        assert(nb.files[i] == b.files[i]);
                    }
                }
            }
        }
    }
}

/// Law: a timestamp of 0 marks an entry that a newer one replaced; unless
/// such entries are resurrected, no file of the table has timestamp 0.
pub proof fn law_replaced_entries_skipped(data: Seq<u8>)
    ensures
        match toc_load(data, false) {
            TocFold::Done(b) => no_replaced_files(b),
            TocFold::Failed(b, _) => no_replaced_files(b),
            TocFold::Panicked => true,
        },
{
    lemma_fold_no_replaced(data, entry_count(data.len() as int) as nat);
}

/// Every file, and every directory but the root, is registered under its
/// lowercased path, and the root's key `/` is registered.
pub open spec fn nodes_registered(b: TocBuild) -> bool {
    &&& b.lookup.contains_key(seq!['/'])
    &&& forall|i: int|
        0 <= i < b.files.len() ==> b.lookup.contains_key(
            lowercase(#[trigger] b.files[i].path),
        )
    &&& forall|i: int|
        1 <= i < b.dirs.len() ==> b.lookup.contains_key(
            lowercase(#[trigger] b.dirs[i].path),
        )
}

proof fn lemma_step_registered(b: TocBuild, e: TocEntryView, resurrect: bool)
    requires
        build_wf(b),
        nodes_registered(b),
    ensures
        toc_step(b, e, resurrect) matches TocFold::Done(nb) ==> nodes_registered(nb),
{
    if let TocFold::Done(nb) = toc_step(b, e, resurrect) {
        assert forall|i: int| 0 <= i < nb.files.len() implies nb.lookup.contains_key(
            lowercase(#[trigger] nb.files[i].path),
        ) by {
            if i < b.files.len() {
                assert(nb.files[i] == b.files[i]);
                assert(b.lookup.contains_key(lowercase(b.files[i].path)));
            }
        }
        assert forall|i: int| 1 <= i < nb.dirs.len() implies nb.lookup.contains_key(
            lowercase(#[trigger] nb.dirs[i].path),
        ) by {
            if i < b.dirs.len() {
                assert(nb.dirs[i].path == b.dirs[i].path);
                assert(b.lookup.contains_key(lowercase(b.dirs[i].path)));
            }
        }
    }
}

proof fn lemma_fold_registered(data: Seq<u8>, resurrect: bool, k: nat)
    ensures
        match toc_fold(data, resurrect, k) {
            TocFold::Done(b) => build_wf(b) && nodes_registered(b),
            TocFold::Failed(b, _) => build_wf(b) && nodes_registered(b),
            TocFold::Panicked => true,
        },
    decreases k,
{
    if k == 0 {
        assert(initial_build().lookup.contains_key(seq!['/']));
    } else {
        lemma_fold_registered(data, resurrect, (k - 1) as nat);
        if let TocFold::Done(b) = toc_fold(data, resurrect, (k - 1) as nat) {
            lemma_step_wf(b, toc_entry_at(data, k - 1), resurrect);
            lemma_step_registered(b, toc_entry_at(data, k - 1), resurrect);
        }
    }
}

/// Law: after a table is read, every file is found under its own path,
/// and what is found there has that path up to case (a later entry with
/// the same path up to case replaces an earlier one in the lookup).
pub proof fn law_loaded_files_found(data: Seq<u8>, resurrect: bool, i: int)
    requires
        data.len() <= usize::MAX,
        toc_data_readable(data, resurrect),
    ensures
        ({
            let b = match toc_load(data, resurrect) {
                TocFold::Done(b) => b,
                TocFold::Failed(b, _) => b,
                TocFold::Panicked => initial_build(),
            };
            let toc = build_view(Seq::empty(), b);
            0 <= i < toc.files.len() ==> (toc.lookup_path(toc.files[i].path) matches Some(n) && (
            lowercase(toc.files[i].path) == seq!['/'] || lowercase(n.path)
                == lowercase(toc.files[i].path)))
        }),
{
    let k = entry_count(data.len() as int);
    assert(k < usize::MAX) by (nonlinear_arith)
        requires
            8 <= data.len() <= usize::MAX,
            k == (data.len() - 8) / 96,
    ;
    lemma_fold_registered(data, resurrect, k as nat);
    lemma_fold_keys(data, resurrect, k as nat);
    let b = match toc_load(data, resurrect) {
        TocFold::Done(b) => b,
        TocFold::Failed(b, _) => b,
        TocFold::Panicked => initial_build(),
    };
    if 0 <= i < b.files.len() {
        let p = b.files[i].path;
        assert(has_forward_slashes_only(p));
        let key = lowercase(p);
        assert(b.lookup.contains_key(key));
    }
}

/// Law: before its entries are read (after `new` or `unread_toc`), a table
/// finds no node under any path, absolute or not.
pub proof fn law_unread_lookups_find_nothing(toc: TocView, path: Seq<char>)
    requires
        !toc.is_loaded(),
    ensures
        toc.lookup_path(path) is None,
        lookup_kind(toc, path, NodeKind::Directory) is None,
        lookup_kind(toc, path, NodeKind::File) is None,
{
}

/// Law: reading a `.toc` file, even one with an entry whose name is not
/// UTF-8, leaves the table loaded, with the root directory first and
/// registered under `/`, directory nodes among the directories and file
/// nodes among the files; and forgetting the entries and reading the same
/// file again rebuilds the same table.
pub proof fn law_read_loads_table(toc_path: Seq<char>, data: Seq<u8>, resurrect: bool)
    requires
        data.len() <= usize::MAX,
        toc_data_readable(data, resurrect),
    ensures
        ({
            let t = read_view(toc_path, data, resurrect);
            &&& t.is_loaded()
            &&& is_root_node(t.dirs[0])
            &&& t.lookup.contains_key(seq!['/'])
            &&& forall|i: int| 0 <= i < t.dirs.len() ==> #[trigger] t.dirs[i].kind == NodeKind::Directory
            &&& forall|i: int| 0 <= i < t.files.len() ==> #[trigger] t.files[i].kind == NodeKind::File
            &&& read_view(unread_view(t.toc_path).toc_path, data, resurrect) == t
        }),
{
    lemma_fold_registered(data, resurrect, entry_count(data.len() as int) as nat);
}

/// Whether the entry `e` is kept when the entries are read: its timestamp
/// is not 0, or replaced entries are resurrected.
pub open spec fn entry_kept(e: TocEntryView, resurrect: bool) -> bool {
    e.timestamp != 0 || resurrect
}

/// The number of kept entries among the first `k` entries of `data`.
pub open spec fn kept_entry_count(data: Seq<u8>, resurrect: bool, k: nat) -> nat
    decreases k,
{
    if k == 0 {
        0
    } else {
        kept_entry_count(data, resurrect, (k - 1) as nat) + if entry_kept(
            toc_entry_at(data, k - 1),
            resurrect,
        ) {
            1nat
        } else {
            0nat
        }
    }
}

proof fn lemma_fold_count(data: Seq<u8>, resurrect: bool, k: nat)
    ensures
        toc_fold(data, resurrect, k) matches TocFold::Done(b) ==> b.dirs.len() + b.files.len() == 1
            + kept_entry_count(data, resurrect, k),
    decreases k,
{
    if k > 0 {
        lemma_fold_count(data, resurrect, (k - 1) as nat);
    }
}

/// The number of entries with timestamp 0 among the first `k` entries of
/// `data`.
pub open spec fn replaced_entry_count(data: Seq<u8>, k: nat) -> nat
    decreases k,
{
    if k == 0 {
        0
    } else {
        replaced_entry_count(data, (k - 1) as nat) + if toc_entry_at(data, k - 1).timestamp == 0 {
            1nat
        } else {
            0nat
        }
    }
}

proof fn lemma_kept_and_replaced(data: Seq<u8>, k: nat)
    ensures
        kept_entry_count(data, false, k) + replaced_entry_count(data, k) == k,
        kept_entry_count(data, true, k) == k,
    decreases k,
{
    if k > 0 {
        lemma_kept_and_replaced(data, (k - 1) as nat);
    }
}

/// Law: a table whose entries were all read holds one node per kept entry
/// besides the root (an entry with timestamp 0 is kept only when replaced
/// entries are resurrected): of `N` entries, `z` of them with timestamp 0,
/// `1 + N - z` nodes unless resurrected, `1 + N` nodes when they are.
pub proof fn law_node_count(data: Seq<u8>, resurrect: bool)
    ensures
        toc_load(data, resurrect) matches TocFold::Done(b) ==> b.dirs.len() + b.files.len() == 1
            + kept_entry_count(data, resurrect, entry_count(data.len() as int) as nat),
        toc_load(data, resurrect) matches TocFold::Done(b) ==> b.dirs.len() + b.files.len() == 1
            + entry_count(data.len() as int) as nat - if resurrect {
            0
        } else {
            replaced_entry_count(data, entry_count(data.len() as int) as nat) as int
        },
{
    lemma_fold_count(data, resurrect, entry_count(data.len() as int) as nat);
    lemma_kept_and_replaced(data, entry_count(data.len() as int) as nat);
}

/// Law: after a table is read, every directory is found under its own
/// path, and what is found there has that path up to case (the root under
/// `/`, or an entry whose path is `/` up to case that replaced it).
pub proof fn law_loaded_directories_found(data: Seq<u8>, resurrect: bool, i: int)
    requires
        data.len() <= usize::MAX,
        toc_data_readable(data, resurrect),
    ensures
        ({
            let t = read_view(Seq::empty(), data, resurrect);
            0 < i < t.dirs.len() ==> (t.lookup_path(t.dirs[i].path) matches Some(n) && (
            lowercase(t.dirs[i].path) == seq!['/'] || lowercase(n.path)
                == lowercase(t.dirs[i].path)))
        }),
{
    let k = entry_count(data.len() as int);
    assert(k < usize::MAX) by (nonlinear_arith)
        requires
            8 <= data.len() <= usize::MAX,
            k == (data.len() - 8) / 96,
    ;
    lemma_fold_registered(data, resurrect, k as nat);
    lemma_fold_keys(data, resurrect, k as nat);
    let b = match toc_load(data, resurrect) {
        TocFold::Done(b) => b,
        TocFold::Failed(b, _) => b,
        TocFold::Panicked => initial_build(),
    };
    if 0 < i < b.dirs.len() {
        let p = b.dirs[i].path;
        assert(has_forward_slashes_only(p));
        let key = lowercase(p);
        assert(b.lookup.contains_key(key));
    }
}

/// Law: after a table is read, the path `/` finds the root directory, the
/// first of the directories; no entry takes its place.
pub proof fn law_root_found(toc_path: Seq<char>, data: Seq<u8>, resurrect: bool)
    requires
        data.len() <= usize::MAX,
        toc_data_readable(data, resurrect),
    ensures
        read_view(toc_path, data, resurrect).lookup_path(seq!['/']) == Some(
            read_view(toc_path, data, resurrect).dirs[0],
        ),
        is_root_node(read_view(toc_path, data, resurrect).dirs[0]),
{
    lemma_fold_registered(data, resurrect, entry_count(data.len() as int) as nat);
    let slash: Seq<char> = seq!['/'];
    assert(normalize_separators(slash) =~= slash);
    assert(is_ascii_text(slash));
    assert(ascii_lowercase(slash) =~= slash);
}

/// Law: after a table is read, a file whose lowercased path no other node
/// shares is found under its own path, and what is found is that file.
pub proof fn law_loaded_file_found_exactly(data: Seq<u8>, resurrect: bool, i: int)
    requires
        data.len() <= usize::MAX,
        toc_data_readable(data, resurrect),
    ensures
        ({
            let t = read_view(Seq::empty(), data, resurrect);
            let key = lowercase(t.files[i].path);
            (0 <= i < t.files.len() && key != seq!['/'] && (forall|j: int|
                0 <= j < t.files.len() && j != i ==> lowercase(#[trigger] t.files[j].path) != key)
                && (forall|j: int| 0 <= j < t.dirs.len() ==> lowercase(#[trigger] t.dirs[j].path)
                != key)) ==> t.lookup_path(t.files[i].path) == Some(t.files[i])
        }),
{
    let k = entry_count(data.len() as int);
    assert(k < usize::MAX) by (nonlinear_arith)
        requires
            8 <= data.len() <= usize::MAX,
            k == (data.len() - 8) / 96,
    ;
    lemma_fold_registered(data, resurrect, k as nat);
    lemma_fold_keys(data, resurrect, k as nat);
    let t = read_view(Seq::empty(), data, resurrect);
    let b = match toc_load(data, resurrect) {
        TocFold::Done(b) => b,
        TocFold::Failed(b, _) => b,
        TocFold::Panicked => initial_build(),
    };
    if 0 <= i < b.files.len() {
        let p = b.files[i].path;
        let key = lowercase(p);
        assert(has_forward_slashes_only(p));
        assert(b.lookup.contains_key(key));
        if key != seq!['/'] && (forall|j: int|
            0 <= j < t.files.len() && j != i ==> lowercase(#[trigger] t.files[j].path) != key)
            && (forall|j: int| 0 <= j < t.dirs.len() ==> lowercase(#[trigger] t.dirs[j].path)
            != key) {
            let r = b.lookup[key];
            assert(key == lowercase(build_node(b, r).path));
            assert(ref_in_range(r, b.dirs.len() as int, b.files.len() as int));
            match r {
                NodeRef::Directory(j) => {
                    assert(lowercase(t.dirs[j as int].path) == key);
                },
                NodeRef::File(j) => {
                    assert(lowercase(t.files[j as int].path) == key);
                },
            }
            assert(r == NodeRef::File(i as usize));
        }
    }
}

/// The prefix of the paths of the children of directory `i`: empty for the
/// root, whose children's paths start with a slash, and the directory's own
/// path for any other directory.
pub open spec fn child_path_prefix(dirs: Seq<NodeView>, i: int) -> Seq<char> {
    if i == 0 {
        Seq::empty()
    } else {
        dirs[i].path
    }
}

/// The directory tree of a table: every child that a directory lists is a
/// later directory, or a file, whose path is the directory's path joined
/// with the child's own name; every directory but the root, and every
/// file, is listed as a child of some directory.
pub open spec fn tree_wf(dirs: Seq<NodeView>, files: Seq<NodeView>) -> bool {
    &&& forall|i: int, c: int|
        0 <= i < dirs.len() && 0 <= c < dirs[i].children.len() ==> match #[trigger] dirs[i].children[c] {
            NodeRef::Directory(j) => i < j < dirs.len() && dirs[j as int].path == child_path_prefix(
                dirs,
                i,
            ) + seq!['/'] + normalize_separators(dirs[j as int].name),
            NodeRef::File(j) => j < files.len() && files[j as int].path == child_path_prefix(dirs, i)
                + seq!['/'] + normalize_separators(files[j as int].name),
        }
    &&& forall|j: int|
        0 < j < dirs.len() ==> exists|i: int, c: int|
            0 <= i < dirs.len() && 0 <= c < dirs[i].children.len() && #[trigger] dirs[i].children[c]
                == NodeRef::Directory(j as usize) && #[trigger] dirs[j].kind == NodeKind::Directory
    &&& forall|j: int|
        0 <= j < files.len() ==> exists|i: int, c: int|
            0 <= i < dirs.len() && 0 <= c < dirs[i].children.len() && #[trigger] dirs[i].children[c]
                == NodeRef::File(j as usize) && #[trigger] files[j].kind == NodeKind::File
}

/// The tree invariant while entries are read, with the path that children
/// of each directory are named under.
pub open spec fn build_tree_wf(b: TocBuild) -> bool {
    &&& tree_wf(b.dirs, b.files)
    &&& forall|i: int| 0 <= i < b.dir_paths.len() ==> #[trigger] b.dir_paths[i] == child_path_prefix(
        b.dirs,
        i,
    )
}

proof fn lemma_step_tree(b: TocBuild, e: TocEntryView, resurrect: bool)
    requires
        build_wf(b),
        build_tree_wf(b),
        b.dirs.len() < usize::MAX,
        b.files.len() < usize::MAX,
    ensures
        toc_step(b, e, resurrect) matches TocFold::Done(nb) ==> build_tree_wf(nb),
{
    lemma_step_wf(b, e, resurrect);
    if let TocFold::Done(nb) = toc_step(b, e, resurrect) {
        if !(e.timestamp == 0 && !resurrect) {
            let bytes = entry_name_bytes(e.name);
            let decoded = decode_utf8(bytes);
            let name = if e.timestamp == 0 { with_deleted_marker(decoded) } else { decoded };
            let p = e.parent_dir_index as int;
            let parent_path = b.dir_paths[p];
            let norm = normalize_separators(name);
            let path = join_path(parent_path, norm);
            let ld = b.dirs.len() as int;
            let lf = b.files.len() as int;
            assert(parent_path == child_path_prefix(b.dirs, p));
            assert forall|i: int| 0 <= i < b.dirs.len() implies child_path_prefix(nb.dirs, i)
                == child_path_prefix(b.dirs, i) && nb.dirs[i].name == b.dirs[i].name
                && nb.dirs[i].path == b.dirs[i].path && nb.dirs[i].kind == b.dirs[i].kind by {}
            assert forall|i: int| 0 <= i < b.files.len() implies nb.files[i] == b.files[i] by {}
            let r = if e.cache_offset == -1 {
                NodeRef::Directory(ld as usize)
            } else {
                NodeRef::File(lf as usize)
            };
            assert(nb.dirs[p].children == b.dirs[p].children.push(r));
            assert forall|i: int, c: int|
                0 <= i < nb.dirs.len() && 0 <= c < nb.dirs[i].children.len() implies match #[trigger] nb.dirs[i].children[c] {
                NodeRef::Directory(j) => i < j < nb.dirs.len() && nb.dirs[j as int].path
                    == child_path_prefix(nb.dirs, i) + seq!['/'] + normalize_separators(
                    nb.dirs[j as int].name,
                ),
                NodeRef::File(j) => j < nb.files.len() && nb.files[j as int].path == child_path_prefix(
                    nb.dirs,
                    i,
                ) + seq!['/'] + normalize_separators(nb.files[j as int].name),
            } by {
                if i == p && c == b.dirs[p].children.len() {
                    assert(nb.dirs[i].children[c] == r);
                    if e.cache_offset == -1 {
                        assert(nb.dirs[ld].path == path && nb.dirs[ld].name == name);
                    } else {
                        assert(nb.files[lf].path == path && nb.files[lf].name == name);
                    }
                } else if i < ld {
                    assert(nb.dirs[i].children[c] == b.dirs[i].children[c]);
                } else {
                    assert(nb.dirs[i].children.len() == 0);
                }
            }
            assert forall|j: int| 0 < j < nb.dirs.len() implies exists|i: int, c: int|
                0 <= i < nb.dirs.len() && 0 <= c < nb.dirs[i].children.len() && #[trigger] nb.dirs[i].children[c]
                    == NodeRef::Directory(j as usize) && #[trigger] nb.dirs[j].kind
                    == NodeKind::Directory by {
                if j < ld {
                    assert(b.dirs[j].kind == NodeKind::Directory);
                    let (i, c) = choose|i: int, c: int|
                        0 <= i < b.dirs.len() && 0 <= c < b.dirs[i].children.len() && #[trigger] b.dirs[i].children[c]
                            == NodeRef::Directory(j as usize) && #[trigger] b.dirs[j].kind
                            == NodeKind::Directory;
                    assert(nb.dirs[i].children[c] == b.dirs[i].children[c]);
                } else {
                    let c = b.dirs[p].children.len() as int;
                    assert(nb.dirs[p].children[c] == r);
                }
            }
            assert forall|j: int| 0 <= j < nb.files.len() implies exists|i: int, c: int|
                0 <= i < nb.dirs.len() && 0 <= c < nb.dirs[i].children.len() && #[trigger] nb.dirs[i].children[c]
                    == NodeRef::File(j as usize) && #[trigger] nb.files[j].kind == NodeKind::File by {
                if j < lf {
                    assert(b.files[j].kind == NodeKind::File);
                    let (i, c) = choose|i: int, c: int|
                        0 <= i < b.dirs.len() && 0 <= c < b.dirs[i].children.len() && #[trigger] b.dirs[i].children[c]
                            == NodeRef::File(j as usize) && #[trigger] b.files[j].kind
                            == NodeKind::File;
                    assert(nb.dirs[i].children[c] == b.dirs[i].children[c]);
                } else {
                    let c = b.dirs[p].children.len() as int;
                    assert(nb.dirs[p].children[c] == r);
                }
            }
            assert forall|i: int| 0 <= i < nb.dir_paths.len() implies #[trigger] nb.dir_paths[i]
                == child_path_prefix(nb.dirs, i) by {
                if i < b.dir_paths.len() {
                    assert(b.dir_paths[i] == child_path_prefix(b.dirs, i));
                }
            }
        }
    }
}

proof fn lemma_fold_tree(data: Seq<u8>, resurrect: bool, k: nat)
    requires
        k < usize::MAX,
    ensures
        match toc_fold(data, resurrect, k) {
            TocFold::Done(b) => build_tree_wf(b),
            TocFold::Failed(b, _) => build_tree_wf(b),
            TocFold::Panicked => true,
        },
    decreases k,
{
    if k == 0 {
        let b = initial_build();
        assert(b.dir_paths[0] == child_path_prefix(b.dirs, 0));
    } else {
        lemma_fold_tree(data, resurrect, (k - 1) as nat);
        lemma_fold_keys(data, resurrect, (k - 1) as nat);
        if let TocFold::Done(b) = toc_fold(data, resurrect, (k - 1) as nat) {
            lemma_step_tree(b, toc_entry_at(data, k - 1), resurrect);
        }
    }
}

/// Law: after a table is read, the directories form a tree. Every child
/// that a directory lists is a directory that comes after it, or a file,
/// whose path is the directory's path (nothing for the root) followed by a
/// slash and the child's own name with forward slashes; and every
/// directory but the root, and every file, is listed as a child of some
/// directory.
pub proof fn law_read_builds_tree(toc_path: Seq<char>, data: Seq<u8>, resurrect: bool)
    requires
        data.len() <= usize::MAX,
        toc_data_readable(data, resurrect),
    ensures
        ({
            let t = read_view(toc_path, data, resurrect);
            &&& forall|i: int, c: int|
                0 <= i < t.dirs.len() && 0 <= c < t.dirs[i].children.len() ==> match #[trigger] t.dirs[i].children[c] {
                    NodeRef::Directory(j) => i < j < t.dirs.len() && t.dirs[j as int].path == (if i
                        == 0 {
                        Seq::empty()
                    } else {
                        t.dirs[i].path
                    }) + seq!['/'] + normalize_separators(t.dirs[j as int].name),
                    NodeRef::File(j) => j < t.files.len() && t.files[j as int].path == (if i == 0 {
                        Seq::empty()
                    } else {
                        t.dirs[i].path
                    }) + seq!['/'] + normalize_separators(t.files[j as int].name),
                }
            &&& forall|j: int|
                0 < j < t.dirs.len() ==> exists|i: int, c: int|
                    0 <= i < t.dirs.len() && 0 <= c < t.dirs[i].children.len() && #[trigger] t.dirs[i].children[c]
                        == NodeRef::Directory(j as usize) && #[trigger] t.dirs[j].kind
                        == NodeKind::Directory
            &&& forall|j: int|
                0 <= j < t.files.len() ==> exists|i: int, c: int|
                    0 <= i < t.dirs.len() && 0 <= c < t.dirs[i].children.len() && #[trigger] t.dirs[i].children[c]
                        == NodeRef::File(j as usize) && #[trigger] t.files[j].kind == NodeKind::File
        }),
{
    let k = entry_count(data.len() as int);
    assert(k < usize::MAX) by (nonlinear_arith)
        requires
            8 <= data.len() <= usize::MAX,
            k == (data.len() - 8) / 96,
    ;
    lemma_fold_tree(data, resurrect, k as nat);
}

} // verus!
