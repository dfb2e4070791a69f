//! Directory and file nodes of a table of contents.

use vstd::prelude::*;
use vstd::string::StringExecFns;

verus! {

/// Whether a node is a directory or a file.
#[derive(Debug, Clone, Copy, PartialEq, Eq, Structural)]
pub enum NodeKind {
    Directory,
    File,
}

/// A reference to a node of a table of contents: its index among the
/// directories or among the files.
#[derive(Debug, Clone, Copy, PartialEq, Eq, Structural)]
pub enum NodeRef {
    Directory(usize),
    File(usize),
}

/// The contents of a node.
pub struct NodeView {
    pub kind: NodeKind,
    pub name: Seq<char>,
    pub path: Seq<char>,
    pub cache_offset: i64,
    pub timestamp: i64,
    pub comp_len: i32,
    pub len: i32,
    pub children: Seq<NodeRef>,
}

/// A directory or file entry of a table of contents.
pub struct Node {
    kind: NodeKind,
    name: String,
    path: String,
    cache_offset: i64,
    timestamp: i64,
    comp_len: i32,
    len: i32,
    children: Vec<NodeRef>,
}

impl View for Node {
    type V = NodeView;

    closed spec fn view(&self) -> NodeView {
        NodeView {
            kind: self.kind,
            name: self.name@,
            path: self.path@,
            cache_offset: self.cache_offset,
            timestamp: self.timestamp,
            comp_len: self.comp_len,
            len: self.len,
            children: self.children@,
        }
    }
}

/// A directory node named `name` at `path`, with no children.
pub open spec fn directory_view(name: Seq<char>, path: Seq<char>) -> NodeView {
    NodeView {
        kind: NodeKind::Directory,
        name,
        path,
        cache_offset: -1i64,
        timestamp: 0i64,
        comp_len: 0i32,
        len: 0i32,
        children: Seq::empty(),
    }
}

/// A file node.
pub open spec fn file_view(
    name: Seq<char>,
    path: Seq<char>,
    cache_offset: i64,
    timestamp: i64,
    comp_len: i32,
    len: i32,
) -> NodeView {
    NodeView {
        kind: NodeKind::File,
        name,
        path,
        cache_offset,
        timestamp,
        comp_len,
        len,
        children: Seq::empty(),
    }
}

/// The root directory: empty name, path `/`.
pub open spec fn root_view() -> NodeView {
    directory_view(Seq::empty(), seq!['/'])
}

/// `node` with `child` appended to its children.
pub open spec fn with_child(node: NodeView, child: NodeRef) -> NodeView {
    NodeView { children: node.children.push(child), ..node }
}

impl Clone for Node {
    fn clone(&self) -> (res: Self)
        ensures
            res@ == self@,
    {
        let mut children: Vec<NodeRef> = Vec::new();
        let mut i: usize = 0;
        while i < self.children.len()
            invariant
                i <= self.children@.len(),
                children@ == self.children@.subrange(0, i as int),
            decreases self.children@.len() - i,
        {
            children.push(self.children[i]);
            i += 1;
            assert(children@ =~= self.children@.subrange(0, i as int));
        }
        assert(self.children@.subrange(0, i as int) =~= self.children@);
        Node {
            kind: self.kind,
            name: self.name.clone(),
            path: self.path.clone(),
            cache_offset: self.cache_offset,
            timestamp: self.timestamp,
            comp_len: self.comp_len,
            len: self.len,
            children,
        }
    }
}

impl Node {
    /// The root directory node.
    pub fn root() -> (res: Node)
        ensures
            res@ == root_view(),
    {
        let path = String::from_str("/");
        proof {
            reveal_strlit("/");
        }
        assert(path@ =~= seq!['/']);
        Node {
            kind: NodeKind::Directory,
            name: String::new(),
            path,
            cache_offset: -1,
            timestamp: 0,
            comp_len: 0,
            len: 0,
            children: Vec::new(),
        }
    }

    /// A directory node named `name` at `path`.
    pub fn directory(name: &str, path: String) -> (res: Node)
        ensures
            res@ == directory_view(name@, path@),
    {
        Node {
            kind: NodeKind::Directory,
            name: String::from_str(name),
            path,
            cache_offset: -1,
            timestamp: 0,
            comp_len: 0,
            len: 0,
            children: Vec::new(),
        }
    }

    /// A file node named `name` at `path`, stored at `cache_offset` in its
    /// cache with `comp_len` bytes that decompress to `len` bytes.
    pub fn file(
        name: &str,
        path: String,
        cache_offset: i64,
        timestamp: i64,
        comp_len: i32,
        len: i32,
    ) -> (res: Node)
        ensures
            res@ == file_view(name@, path@, cache_offset, timestamp, comp_len, len),
    {
        Node {
            kind: NodeKind::File,
            name: String::from_str(name),
            path,
            cache_offset,
            timestamp,
            comp_len,
            len,
            children: Vec::new(),
        }
    }

    /// Appends `child` to this node's children.
    pub fn append(&mut self, child: NodeRef)
        ensures
            final(self)@ == with_child(old(self)@, child),
    {
        self.children.push(child);
    }

    /// Whether this node is a directory or a file.
    pub fn kind(&self) -> (res: NodeKind)
        ensures
            res == self@.kind,
    {
        self.kind
    }

    /// The node's name.
    pub fn name(&self) -> (res: &str)
        ensures
            res@ == self@.name,
    {
        self.name.as_str()
    }

    /// The node's full path.
    pub fn path(&self) -> (res: &str)
        ensures
            res@ == self@.path,
    {
        self.path.as_str()
    }

    /// The offset of the node's data in its cache.
    pub fn cache_offset(&self) -> (res: i64)
        ensures
            res == self@.cache_offset,
    {
        self.cache_offset
    }

    /// The node's timestamp (0 for a deleted or replaced entry).
    pub fn timestamp(&self) -> (res: i64)
        ensures
            res == self@.timestamp,
    {
        self.timestamp
    }

    /// The size of the node's data as stored in the cache.
    pub fn comp_len(&self) -> (res: i32)
        ensures
            res == self@.comp_len,
    {
        self.comp_len
    }

    /// The size of the node's data once decompressed.
    pub fn len(&self) -> (res: i32)
        ensures
            res == self@.len,
    {
        self.len
    }

    /// The node's children, in the order in which they were added.
    pub fn children(&self) -> (res: &[NodeRef])
        ensures
            res@ == self@.children,
    {
        self.children.as_slice()
    }
}

} // verus!
