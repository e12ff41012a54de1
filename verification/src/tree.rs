//! The node arena: every directory and file node of the virtual tree lives
//! in one vector, and directory entries refer to nodes by index.  Several
//! entries may refer to the same node (the deduplication property), and the
//! deduplication cache maps each host path to the one node that represents
//! it.  The identifier allocator is the `next_inode` counter: fresh,
//! process-unique, monotonically increasing inode numbers.

use vstd::prelude::*;

use crate::attrs::{attr_from_meta, spec_attr_from_meta, FileAttr, FileKind, HostMeta};
use crate::errors::NodeError;
use crate::host::{clone_path, path_eq, path_view, HostView, StatResult};

verus! {

/// A directory entry: the child node and whether a user mapping request
/// created it (`true`) or it was discovered from host directory contents.
#[derive(Clone, Copy, PartialEq, Eq, Structural, Debug)]
pub struct Dirent {
    pub node: usize,
    pub explicit_mapping: bool,
}

/// The mutable state of a directory node.
pub struct MutableDir {
    /// Inode reported for `..` in listings.
    pub parent: u64,
    /// Host path backing this directory; absent for a pure scaffold.
    pub underlying_path: Option<Vec<String>>,
    /// Cached attribute record.
    pub attr: FileAttr,
    /// Child table; names are unique.
    pub children: Vec<(String, Dirent)>,
}

/// A directory node.
pub struct Dir {
    pub inode: u64,
    pub writable: bool,
    pub state: MutableDir,
}

/// The mutable state of a file node.
pub struct MutableFile {
    /// Host path backing this file; absent once the file has been deleted.
    pub underlying_path: Option<Vec<String>>,
    /// Cached attribute record.
    pub attr: FileAttr,
}

/// A file node: any host object that is neither a directory nor a symbolic
/// link.
pub struct File {
    pub inode: u64,
    pub writable: bool,
    pub state: MutableFile,
}

/// A node of the virtual tree.
pub enum Node {
    Dir(Dir),
    File(File),
}

/// The whole node layer: the arena of nodes, the identifier allocator's
/// counter, and the deduplication cache from host path to node.
pub struct Fs {
    pub nodes: Vec<Node>,
    pub next_inode: u64,
    pub cache: Vec<(Vec<String>, usize)>,
}

/// View of an optional host path.
pub open spec fn opt_path_view(p: Option<Vec<String>>) -> Option<Seq<Seq<char>>> {
    match p {
        Some(v) => Some(path_view(v@)),
        None => None,
    }
}

/// First entry named `name` in a child table.
pub open spec fn child_lookup(children: Seq<(String, Dirent)>, name: Seq<char>) -> Option<Dirent>
    decreases children.len(),
{
    if children.len() == 0 {
        None
    } else if children[0].0@ == name {
        Some(children[0].1)
    } else {
        child_lookup(children.drop_first(), name)
    }
}

/// No two entries of a child table share a name.
pub open spec fn children_unique(children: Seq<(String, Dirent)>) -> bool {
    forall|i: int, j: int|
        0 <= i < j < children.len() ==> children[i].0@ != children[j].0@
}

/// First cache entry for path `p`.
pub open spec fn cache_lookup(entries: Seq<(Vec<String>, usize)>, p: Seq<Seq<char>>) -> Option<
    usize,
>
    decreases entries.len(),
{
    if entries.len() == 0 {
        None
    } else if path_view(entries[0].0@) == p {
        Some(entries[0].1)
    } else {
        cache_lookup(entries.drop_first(), p)
    }
}

impl Node {
    /// The node's immutable inode.
    pub open spec fn spec_inode(self) -> u64 {
        match self {
            Node::Dir(d) => d.inode,
            Node::File(f) => f.inode,
        }
    }

    /// The node's immutable writability flag.
    pub open spec fn spec_writable(self) -> bool {
        match self {
            Node::Dir(d) => d.writable,
            Node::File(f) => f.writable,
        }
    }

    /// The node's cached type: fixed for directories, last-observed for
    /// files.  Never consults the host.
    pub open spec fn spec_kind(self) -> FileKind {
        match self {
            Node::Dir(_) => FileKind::Directory,
            Node::File(f) => f.state.attr.kind,
        }
    }

    /// The node's host-backing path, if any.
    pub open spec fn spec_underlying(self) -> Option<Seq<Seq<char>>> {
        match self {
            Node::Dir(d) => opt_path_view(d.state.underlying_path),
            Node::File(f) => opt_path_view(f.state.underlying_path),
        }
    }

    /// The node's cached attribute record.
    pub open spec fn spec_attr(self) -> FileAttr {
        match self {
            Node::Dir(d) => d.state.attr,
            Node::File(f) => f.state.attr,
        }
    }

    /// The node's inode.
    pub fn inode(&self) -> (r: u64)
        ensures
            r == self.spec_inode(),
    {
        match self {
            Node::Dir(d) => d.inode,
            Node::File(f) => f.inode,
        }
    }

    /// The node's writability flag.
    pub fn writable(&self) -> (r: bool)
        ensures
            r == self.spec_writable(),
    {
        match self {
            Node::Dir(d) => d.writable,
            Node::File(f) => f.writable,
        }
    }

    /// The node's cached type, without touching the host filesystem.
    pub fn file_type_cached(&self) -> (r: FileKind)
        ensures
            r == self.spec_kind(),
    {
        match self {
            Node::Dir(_) => FileKind::Directory,
            Node::File(f) => f.state.attr.kind,
        }
    }
}

impl Fs {
    /// Is `n` the index of a live node?
    pub open spec fn valid(self, n: int) -> bool {
        0 <= n < self.nodes@.len()
    }

    /// Is node `n` a directory?
    pub open spec fn is_dir(self, n: int) -> bool {
        self.valid(n) && self.nodes@[n] is Dir
    }

    /// Is node `n` a file?
    pub open spec fn is_file(self, n: int) -> bool {
        self.valid(n) && self.nodes@[n] is File
    }

    /// Inode of node `n`.
    pub open spec fn inode_of(self, n: int) -> u64 {
        self.nodes@[n].spec_inode()
    }

    /// Writability flag of node `n`.
    pub open spec fn writable_of(self, n: int) -> bool {
        self.nodes@[n].spec_writable()
    }

    /// Cached type of node `n`.
    pub open spec fn kind_of(self, n: int) -> FileKind {
        self.nodes@[n].spec_kind()
    }

    /// Host-backing path of node `n`.
    pub open spec fn underlying_of(self, n: int) -> Option<Seq<Seq<char>>> {
        self.nodes@[n].spec_underlying()
    }

    /// Cached attribute record of node `n`.
    pub open spec fn attr_of(self, n: int) -> FileAttr {
        self.nodes@[n].spec_attr()
    }

    /// Child table of directory `n`.
    pub open spec fn children_of(self, n: int) -> Seq<(String, Dirent)> {
        match self.nodes@[n] {
            Node::Dir(d) => d.state.children@,
            Node::File(_) => Seq::empty(),
        }
    }

    /// Parent inode of directory `n`.
    pub open spec fn parent_of(self, n: int) -> u64 {
        match self.nodes@[n] {
            Node::Dir(d) => d.state.parent,
            Node::File(f) => f.inode,
        }
    }

    /// The child of directory `n` under `name`, if known.
    pub open spec fn child_of(self, n: int, name: Seq<char>) -> Option<Dirent> {
        child_lookup(self.children_of(n), name)
    }

    /// The node the deduplication cache holds for host path `p`.
    pub open spec fn cache_get(self, p: Seq<Seq<char>>) -> Option<usize> {
        cache_lookup(self.cache@, p)
    }

    /// Well-formedness of one node.
    pub open spec fn wf_node(self, n: int) -> bool {
        match self.nodes@[n] {
            Node::Dir(d) => {
                &&& d.state.attr.kind == FileKind::Directory
                &&& d.state.attr.ino == d.inode
                &&& children_unique(d.state.children@)
                &&& forall|k: int|
                    0 <= k < d.state.children@.len() ==> (
                    #[trigger] d.state.children@[k].1.node as int) < self.nodes@.len()
                &&& d.state.underlying_path is None ==> (!d.writable && d.state.attr.perm
                    == 0o555)
            },
            Node::File(f) => {
                &&& f.state.attr.ino == f.inode
                &&& f.state.attr.kind != FileKind::Directory
                &&& f.state.attr.kind != FileKind::Symlink
            },
        }
    }

    /// Well-formedness of the whole arena: every node is well formed, child
    /// references stay inside the arena, inodes are unique and below the
    /// allocator's counter, and the cache holds at most one entry per host
    /// path, each referring to a live node.
    pub open spec fn wf(self) -> bool {
        &&& forall|n: int| 0 <= n < self.nodes@.len() ==> self.wf_node(n)
        &&& forall|n: int|
            0 <= n < self.nodes@.len() ==> #[trigger] self.inode_of(n) < self.next_inode
        &&& forall|m: int, n: int|
            0 <= m < n < self.nodes@.len() ==> self.inode_of(m) != self.inode_of(n)
        &&& forall|k: int|
            0 <= k < self.cache@.len() ==> (#[trigger] self.cache@[k].1 as int)
                < self.nodes@.len()
        &&& forall|k: int, l: int|
            0 <= k < l < self.cache@.len() ==> path_view(self.cache@[k].0@) != path_view(
                self.cache@[l].0@,
            )
    }
}

/// How one node may evolve under any node operation: its identity (inode,
/// writability, variant) never changes; a directory keeps its parent link
/// and its backing path, never loses a child entry, never changes an
/// entry's explicit flag, and never rebinds an explicit entry; a file may
/// only lose its backing path (delete), never regain one.
pub open spec fn node_extends(x: Node, y: Node) -> bool {
    match (x, y) {
        (Node::Dir(dx), Node::Dir(dy)) => {
            &&& dy.inode == dx.inode
            &&& dy.writable == dx.writable
            &&& dy.state.parent == dx.state.parent
            &&& opt_path_view(dy.state.underlying_path) == opt_path_view(dx.state.underlying_path)
            &&& forall|name: Seq<char>|
                match #[trigger] child_lookup(dx.state.children@, name) {
                    Some(e) => match child_lookup(dy.state.children@, name) {
                        Some(e2) => e2.explicit_mapping == e.explicit_mapping && (
                        e.explicit_mapping ==> e2 == e),
                        None => false,
                    },
                    None => true,
                }
        },
        (Node::File(fx), Node::File(fy)) => {
            &&& fy.inode == fx.inode
            &&& fy.writable == fx.writable
            &&& (opt_path_view(fy.state.underlying_path) == opt_path_view(
                fx.state.underlying_path,
            ) || fy.state.underlying_path is None)
        },
        _ => false,
    }
}

/// How the arena may evolve under any node operation: nodes are only added,
/// every existing node evolves as `node_extends` allows, the allocator's
/// counter never decreases, and the deduplication cache never drops or
/// rebinds an entry.
pub open spec fn extends(a: Fs, b: Fs) -> bool {
    &&& a.nodes@.len() <= b.nodes@.len()
    &&& a.next_inode <= b.next_inode
    &&& forall|n: int|
        0 <= n < a.nodes@.len() ==> node_extends(#[trigger] a.nodes@[n], b.nodes@[n])
    &&& forall|p: Seq<Seq<char>>|
        (#[trigger] cache_lookup(a.cache@, p)) is Some ==> cache_lookup(b.cache@, p)
            == cache_lookup(a.cache@, p)
}

/// Stronger frame: in addition to `extends`, no directory entry is rebound
/// at all, implicit or explicit.  Mapping, resolution and attribute refresh
/// satisfy it; a listing may rebind implicit entries it re-discovers.
pub open spec fn edges_preserved(a: Fs, b: Fs) -> bool {
    forall|n: int, name: Seq<char>|
        0 <= n < a.nodes@.len() && (#[trigger] child_lookup(a.children_of(n), name)) is Some
            ==> child_lookup(b.children_of(n), name) == child_lookup(a.children_of(n), name)
}

/// Node `y` is node `x` untouched except that a directory's child table may
/// have gained entries at its end: same inode, writability, parent, backing
/// path and cached attribute record; a file wholly unchanged.
pub open spec fn node_grew(x: Node, y: Node) -> bool {
    match (x, y) {
        (Node::Dir(dx), Node::Dir(dy)) => {
            &&& dy.inode == dx.inode
            &&& dy.writable == dx.writable
            &&& dy.state.parent == dx.state.parent
            &&& opt_path_view(dy.state.underlying_path) == opt_path_view(dx.state.underlying_path)
            &&& dy.state.attr == dx.state.attr
            &&& dx.state.children@.len() <= dy.state.children@.len()
            &&& dy.state.children@.take(dx.state.children@.len() as int) == dx.state.children@
        },
        (Node::File(fx), Node::File(fy)) => fy == fx,
        _ => false,
    }
}

/// Upper frame of the mapping and listing operations: nodes may be added
/// and child tables may gain entries, but no existing node's attribute
/// record, backing path, parent link, identity or file state changes.
pub open spec fn grew_only(a: Fs, b: Fs) -> bool {
    &&& a.nodes@.len() <= b.nodes@.len()
    &&& forall|m: int| 0 <= m < a.nodes@.len() ==> node_grew(#[trigger] a.nodes@[m], b.nodes@[m])
}

/// `grew_only` holds when no node changed.
pub proof fn lemma_grew_only_same(a: Fs, b: Fs)
    requires
        a.nodes == b.nodes,
    ensures
        grew_only(a, b),
{
    assert forall|m: int| 0 <= m < a.nodes@.len() implies node_grew(
        #[trigger] a.nodes@[m],
        b.nodes@[m],
    ) by {
        match a.nodes@[m] {
            Node::Dir(d) => {
                assert(d.state.children@.take(d.state.children@.len() as int)
                    =~= d.state.children@);
            },
            Node::File(_) => {},
        }
    }
}

/// `grew_only` composes.
pub proof fn lemma_grew_only_trans(a: Fs, b: Fs, c: Fs)
    requires
        grew_only(a, b),
        grew_only(b, c),
    ensures
        grew_only(a, c),
{
    assert forall|m: int| 0 <= m < a.nodes@.len() implies node_grew(
        #[trigger] a.nodes@[m],
        c.nodes@[m],
    ) by {
        assert(node_grew(a.nodes@[m], b.nodes@[m]));
        assert(node_grew(b.nodes@[m], c.nodes@[m]));
        match (a.nodes@[m], b.nodes@[m], c.nodes@[m]) {
            (Node::Dir(da), Node::Dir(db), Node::Dir(dc)) => {
                assert(dc.state.children@.take(da.state.children@.len() as int)
                    =~= db.state.children@.take(da.state.children@.len() as int));
            },
            _ => {},
        }
    }
}

/// Every directory entry of `b` either already stood in `a` unchanged or is
/// an explicit mapping: host discovery added nothing, only mapping requests
/// did.
pub open spec fn only_explicit_added(a: Fs, b: Fs) -> bool {
    forall|d: int, nm: Seq<char>|
        0 <= d < b.nodes@.len() && (#[trigger] child_lookup(b.children_of(d), nm)) is Some ==> ((0
            <= d < a.nodes@.len() && child_lookup(a.children_of(d), nm) == child_lookup(
            b.children_of(d),
            nm,
        )) || (child_lookup(b.children_of(d), nm) matches Some(e) && e.explicit_mapping))
}

/// `only_explicit_added` holds when no child table changed.
pub proof fn lemma_only_explicit_added_same(a: Fs, b: Fs)
    requires
        a.nodes == b.nodes,
    ensures
        only_explicit_added(a, b),
{
    assert forall|d: int, nm: Seq<char>|
        0 <= d < b.nodes@.len() && (#[trigger] child_lookup(b.children_of(d), nm)) is Some implies (
    (0 <= d < a.nodes@.len() && child_lookup(a.children_of(d), nm) == child_lookup(
        b.children_of(d),
        nm,
    )) || (child_lookup(b.children_of(d), nm) matches Some(e) && e.explicit_mapping)) by {
        assert(a.children_of(d) == b.children_of(d));
    }
}

/// `only_explicit_added` composes.
pub proof fn lemma_only_explicit_added_trans(a: Fs, b: Fs, c: Fs)
    requires
        a.nodes@.len() <= b.nodes@.len(),
        only_explicit_added(a, b),
        only_explicit_added(b, c),
    ensures
        only_explicit_added(a, c),
{
    assert forall|d: int, nm: Seq<char>|
        0 <= d < c.nodes@.len() && (#[trigger] child_lookup(c.children_of(d), nm)) is Some implies (
    (0 <= d < a.nodes@.len() && child_lookup(a.children_of(d), nm) == child_lookup(
        c.children_of(d),
        nm,
    )) || (child_lookup(c.children_of(d), nm) matches Some(e) && e.explicit_mapping)) by {
        if 0 <= d < b.nodes@.len() && child_lookup(b.children_of(d), nm) == child_lookup(
            c.children_of(d),
            nm,
        ) {
            assert(child_lookup(b.children_of(d), nm) is Some);
        }
    }
}

/// Looking a name up after appending an entry: an earlier entry still wins;
/// otherwise the new entry is found under its own name.
pub proof fn lemma_child_lookup_push(s: Seq<(String, Dirent)>, p: (String, Dirent), name: Seq<char>)
    ensures
        child_lookup(s.push(p), name) == (if child_lookup(s, name) is Some {
            child_lookup(s, name)
        } else if p.0@ == name {
            Some(p.1)
        } else {
            None::<Dirent>
        }),
    decreases s.len(),
{
    reveal_with_fuel(child_lookup, 3);
    if s.len() == 0 {
        assert(s.push(p)[0] == p);
        assert(s.push(p).drop_first() =~= Seq::<(String, Dirent)>::empty());
        assert(child_lookup(s.push(p).drop_first(), name) == None::<Dirent>);
    } else {
        assert(s.push(p)[0] == s[0]);
        assert(s.push(p).drop_first() =~= s.drop_first().push(p));
        lemma_child_lookup_push(s.drop_first(), p, name);
    }
}

/// A found child entry really stands in the table.
pub proof fn lemma_child_lookup_is_entry(s: Seq<(String, Dirent)>, name: Seq<char>, e: Dirent)
    requires
        child_lookup(s, name) == Some(e),
    ensures
        exists|k: int| 0 <= k < s.len() && #[trigger] s[k].1 == e && s[k].0@ == name,
    decreases s.len(),
{
    if s.len() > 0 {
        if s[0].0@ == name {
            assert(s[0].1 == e && s[0].0@ == name);
        } else {
            lemma_child_lookup_is_entry(s.drop_first(), name, e);
            let k = choose|k: int|
                0 <= k < s.drop_first().len() && #[trigger] s.drop_first()[k].1 == e
                    && s.drop_first()[k].0@ == name;
            assert(s[k + 1] == s.drop_first()[k]);
            assert(s[k + 1].1 == e && s[k + 1].0@ == name);
        }
    }
}

/// A name that is not found names no entry at all.
pub proof fn lemma_child_lookup_none(s: Seq<(String, Dirent)>, name: Seq<char>)
    requires
        child_lookup(s, name) is None,
    ensures
        forall|k: int| 0 <= k < s.len() ==> s[k].0@ != name,
    decreases s.len(),
{
    if s.len() > 0 {
        lemma_child_lookup_none(s.drop_first(), name);
        assert forall|k: int| 0 <= k < s.len() implies s[k].0@ != name by {
            if k > 0 {
                assert(s.drop_first()[k - 1] == s[k]);
            }
        }
    }
}

/// Cache lookup after appending an entry, as for child tables.
pub proof fn lemma_cache_lookup_push(
    s: Seq<(Vec<String>, usize)>,
    p: (Vec<String>, usize),
    pv: Seq<Seq<char>>,
)
    ensures
        cache_lookup(s.push(p), pv) == (if cache_lookup(s, pv) is Some {
            cache_lookup(s, pv)
        } else if path_view(p.0@) == pv {
            Some(p.1)
        } else {
            None::<usize>
        }),
    decreases s.len(),
{
    reveal_with_fuel(cache_lookup, 3);
    if s.len() == 0 {
        assert(s.push(p)[0] == p);
        assert(s.push(p).drop_first() =~= Seq::<(Vec<String>, usize)>::empty());
        assert(cache_lookup(s.push(p).drop_first(), pv) == None::<usize>);
    } else {
        assert(s.push(p)[0] == s[0]);
        assert(s.push(p).drop_first() =~= s.drop_first().push(p));
        lemma_cache_lookup_push(s.drop_first(), p, pv);
    }
}

/// A found cache entry really stands in the cache.
pub proof fn lemma_cache_lookup_some(s: Seq<(Vec<String>, usize)>, pv: Seq<Seq<char>>, c: usize)
    requires
        cache_lookup(s, pv) == Some(c),
    ensures
        exists|k: int| 0 <= k < s.len() && #[trigger] s[k].1 == c && path_view(s[k].0@) == pv,
    decreases s.len(),
{
    if s.len() > 0 {
        if path_view(s[0].0@) == pv {
            assert(s[0].1 == c && path_view(s[0].0@) == pv);
        } else {
            lemma_cache_lookup_some(s.drop_first(), pv, c);
            let k = choose|k: int|
                0 <= k < s.drop_first().len() && #[trigger] s.drop_first()[k].1 == c && path_view(
                    s.drop_first()[k].0@,
                ) == pv;
            assert(s[k + 1] == s.drop_first()[k]);
            assert(s[k + 1].1 == c && path_view(s[k + 1].0@) == pv);
        }
    }
}

/// A path that is not in the cache matches no cache entry.
pub proof fn lemma_cache_lookup_none(s: Seq<(Vec<String>, usize)>, pv: Seq<Seq<char>>)
    requires
        cache_lookup(s, pv) is None,
    ensures
        forall|k: int| 0 <= k < s.len() ==> path_view(s[k].0@) != pv,
    decreases s.len(),
{
    if s.len() > 0 {
        lemma_cache_lookup_none(s.drop_first(), pv);
        assert forall|k: int| 0 <= k < s.len() implies path_view(s[k].0@) != pv by {
            if k > 0 {
                assert(s.drop_first()[k - 1] == s[k]);
            }
        }
    }
}

/// Every node evolves from itself.
pub proof fn lemma_node_extends_refl(x: Node)
    ensures
        node_extends(x, x),
{
}

/// `node_extends` composes.
pub proof fn lemma_node_extends_trans(x: Node, y: Node, z: Node)
    requires
        node_extends(x, y),
        node_extends(y, z),
    ensures
        node_extends(x, z),
{
    match (x, y, z) {
        (Node::Dir(dx), Node::Dir(dy), Node::Dir(dz)) => {
            assert forall|name: Seq<char>|
                match #[trigger] child_lookup(dx.state.children@, name) {
                    Some(e) => match child_lookup(dz.state.children@, name) {
                        Some(e2) => e2.explicit_mapping == e.explicit_mapping && (
                        e.explicit_mapping ==> e2 == e),
                        None => false,
                    },
                    None => true,
                } by {
                assert(match child_lookup(dx.state.children@, name) {
                    Some(e) => match child_lookup(dy.state.children@, name) {
                        Some(e2) => e2.explicit_mapping == e.explicit_mapping && (
                        e.explicit_mapping ==> e2 == e),
                        None => false,
                    },
                    None => true,
                });
                assert(match child_lookup(dy.state.children@, name) {
                    Some(e) => match child_lookup(dz.state.children@, name) {
                        Some(e2) => e2.explicit_mapping == e.explicit_mapping && (
                        e.explicit_mapping ==> e2 == e),
                        None => false,
                    },
                    None => true,
                });
            }
        },
        _ => {},
    }
}

/// `extends` is reflexive.
pub proof fn lemma_extends_refl(a: Fs)
    ensures
        extends(a, a),
        edges_preserved(a, a),
{
    assert forall|n: int| 0 <= n < a.nodes@.len() implies node_extends(
        #[trigger] a.nodes@[n],
        a.nodes@[n],
    ) by {
        lemma_node_extends_refl(a.nodes@[n]);
    }
}

/// `extends` composes: a sequence of node operations is itself one evolution.
pub proof fn lemma_extends_trans(a: Fs, b: Fs, c: Fs)
    requires
        extends(a, b),
        extends(b, c),
    ensures
        extends(a, c),
{
    assert forall|n: int| 0 <= n < a.nodes@.len() implies node_extends(
        #[trigger] a.nodes@[n],
        c.nodes@[n],
    ) by {
        assert(node_extends(a.nodes@[n], b.nodes@[n]));
        assert(node_extends(b.nodes@[n], c.nodes@[n]));
        lemma_node_extends_trans(a.nodes@[n], b.nodes@[n], c.nodes@[n]);
    }
    assert forall|p: Seq<Seq<char>>|
        (#[trigger] cache_lookup(a.cache@, p)) is Some implies cache_lookup(c.cache@, p)
        == cache_lookup(a.cache@, p) by {
        assert(cache_lookup(b.cache@, p) == cache_lookup(a.cache@, p));
    }
}

/// `edges_preserved` composes.
pub proof fn lemma_edges_preserved_trans(a: Fs, b: Fs, c: Fs)
    requires
        a.nodes@.len() <= b.nodes@.len(),
        edges_preserved(a, b),
        edges_preserved(b, c),
    ensures
        edges_preserved(a, c),
{
    assert forall|n: int, name: Seq<char>|
        0 <= n < a.nodes@.len() && (#[trigger] child_lookup(a.children_of(n), name)) is Some
        implies child_lookup(c.children_of(n), name) == child_lookup(
        a.children_of(n),
        name,
    ) by {
        assert(child_lookup(b.children_of(n), name) == child_lookup(a.children_of(n), name));
    }
}

/// Re-establishes well-formedness and the evolution frames after one
/// node's mutable state changed in place, its child table and identity
/// intact and every other node untouched.
pub proof fn lemma_single_node_update(pre: Fs, post: Fs, n: int)
    requires
        pre.wf(),
        0 <= n < pre.nodes@.len(),
        post.nodes@.len() == pre.nodes@.len(),
        post.cache == pre.cache,
        post.next_inode == pre.next_inode,
        forall|m: int| 0 <= m < pre.nodes@.len() && m != n ==> post.nodes@[m] == pre.nodes@[m],
        post.wf_node(n),
        node_extends(pre.nodes@[n], post.nodes@[n]),
        post.children_of(n) == pre.children_of(n),
    ensures
        post.wf(),
        extends(pre, post),
        edges_preserved(pre, post),
{
    assert forall|m: int| 0 <= m < post.nodes@.len() implies post.wf_node(m) by {
        assert(pre.wf_node(m));
        if m != n {
            assert(post.nodes@[m] == pre.nodes@[m]);
        }
    }
    assert forall|m: int| 0 <= m < post.nodes@.len() implies #[trigger] post.inode_of(m)
        < post.next_inode by {
        assert(pre.inode_of(m) < pre.next_inode);
    }
    assert forall|m: int, l: int| 0 <= m < l < post.nodes@.len() implies post.inode_of(m)
        != post.inode_of(l) by {
        assert(pre.inode_of(m) != pre.inode_of(l));
    }
    assert forall|k: int|
        0 <= k < post.cache@.len() implies (#[trigger] post.cache@[k].1 as int)
        < post.nodes@.len() by {
        assert((pre.cache@[k].1 as int) < pre.nodes@.len());
    }
    assert forall|m: int| 0 <= m < pre.nodes@.len() implies node_extends(
        #[trigger] pre.nodes@[m],
        post.nodes@[m],
    ) by {
        lemma_node_extends_refl(pre.nodes@[m]);
        if m != n {
            assert(post.nodes@[m] == pre.nodes@[m]);
        }
    }
    assert forall|m: int, nm: Seq<char>|
        0 <= m < pre.nodes@.len() && (#[trigger] child_lookup(pre.children_of(m), nm)) is Some
        implies child_lookup(post.children_of(m), nm) == child_lookup(
        pre.children_of(m),
        nm,
    ) by {
        if m != n {
            assert(post.children_of(m) == pre.children_of(m));
        }
    }
}

/// What `getattr` returns for node `n`: the cached record for an unbacked
/// node; for a backed node the freshly translated host metadata, an
/// I/O-class error if the host object changed to an incompatible type, and
/// the host's own error otherwise.
pub open spec fn spec_getattr(fs: Fs, n: int, host: HostView) -> Result<FileAttr, NodeError> {
    match fs.nodes@[n] {
        Node::Dir(d) => match d.state.underlying_path {
            None => Ok(d.state.attr),
            Some(p) => match host.stat_of(path_view(p@)) {
                StatResult::Failed(e) => Err(NodeError::Host(e)),
                StatResult::Found(m) => if m.kind != FileKind::Directory {
                    Err(NodeError::Inconsistent)
                } else {
                    Ok(spec_attr_from_meta(d.inode, m))
                },
            },
        },
        Node::File(f) => match f.state.underlying_path {
            None => Ok(f.state.attr),
            Some(p) => match host.stat_of(path_view(p@)) {
                StatResult::Failed(e) => Err(NodeError::Host(e)),
                StatResult::Found(m) => if m.kind == FileKind::Directory || m.kind
                    == FileKind::Symlink {
                    Err(NodeError::Inconsistent)
                } else {
                    Ok(spec_attr_from_meta(f.inode, m))
                },
            },
        },
    }
}

impl Fs {
    /// An empty node layer, with the identifier allocator starting at 1.
    pub fn new() -> (r: Fs)
        ensures
            r.wf(),
            r.nodes@.len() == 0,
            r.cache@.len() == 0,
            r.next_inode == 1,
    {
        Fs { nodes: Vec::new(), next_inode: 1, cache: Vec::new() }
    }

    /// Issues a fresh, unique inode: the identifier allocator.
    pub fn alloc_inode(&mut self) -> (r: u64)
        requires
            old(self).next_inode < u64::MAX,
        ensures
            r == old(self).next_inode,
            final(self).next_inode == old(self).next_inode + 1,
            final(self).nodes == old(self).nodes,
            final(self).cache == old(self).cache,
            old(self).wf() ==> final(self).wf(),
    {
        let ghost pre = *self;
        let r = self.next_inode;
        self.next_inode = self.next_inode + 1;
        proof {
            if pre.wf() {
                assert forall|n: int| 0 <= n < self.nodes@.len() implies self.wf_node(n) by {
                    assert(pre.wf_node(n));
                }
                assert forall|n: int|
                    0 <= n < self.nodes@.len() implies #[trigger] self.inode_of(n)
                    < self.next_inode by {
                    assert(pre.inode_of(n) < pre.next_inode);
                }
                assert forall|m: int, n: int|
                    0 <= m < n < self.nodes@.len() implies self.inode_of(m) != self.inode_of(
                    n,
                ) by {
                    assert(pre.inode_of(m) != pre.inode_of(n));
                }
                assert forall|k: int|
                    0 <= k < self.cache@.len() implies (#[trigger] self.cache@[k].1 as int)
                    < self.nodes@.len() by {
                    assert((pre.cache@[k].1 as int) < pre.nodes@.len());
                }
            }
        }
        r
    }

    /// Borrows node `n`.
    pub fn node(&self, n: usize) -> (r: &Node)
        requires
            self.valid(n as int),
        ensures
            r == self.nodes@[n as int],
    {
        &self.nodes[n]
    }

    /// Registers a freshly constructed node in the arena.  The node must
    /// carry an inode no other node has (as the allocator guarantees) and,
    /// for a directory, an empty child table.
    pub fn add_node(&mut self, node: Node) -> (r: usize)
        requires
            old(self).wf(),
            node.spec_inode() < old(self).next_inode,
            forall|m: int|
                0 <= m < old(self).nodes@.len() ==> #[trigger] old(self).inode_of(m)
                    != node.spec_inode(),
            match node {
                Node::Dir(d) => {
                    &&& d.state.attr.kind == FileKind::Directory
                    &&& d.state.attr.ino == d.inode
                    &&& d.state.children@.len() == 0
                    &&& d.state.underlying_path is None ==> (!d.writable && d.state.attr.perm
                        == 0o555)
                },
                Node::File(f) => {
                    &&& f.state.attr.ino == f.inode
                    &&& f.state.attr.kind != FileKind::Directory
                    &&& f.state.attr.kind != FileKind::Symlink
                },
            },
        ensures
            final(self).wf(),
            extends(*old(self), *final(self)),
            edges_preserved(*old(self), *final(self)),
            r == old(self).nodes@.len(),
            final(self).nodes@ == old(self).nodes@.push(node),
            final(self).cache == old(self).cache,
            final(self).next_inode == old(self).next_inode,
            only_explicit_added(*old(self), *final(self)),
            grew_only(*old(self), *final(self)),
    {
        let ghost pre = *self;
        let r = self.nodes.len();
        self.nodes.push(node);
        proof {
            assert forall|n: int| 0 <= n < self.nodes@.len() implies self.wf_node(n) by {
                if n < pre.nodes@.len() {
                    assert(self.nodes@[n] == pre.nodes@[n]);
                    assert(pre.wf_node(n));
                } else {
                    assert(self.nodes@[n] == node);
                }
            }
            assert forall|n: int| 0 <= n < self.nodes@.len() implies #[trigger] self.inode_of(n)
                < self.next_inode by {
                if n < pre.nodes@.len() {
                    assert(self.nodes@[n] == pre.nodes@[n]);
                    assert(pre.inode_of(n) < pre.next_inode);
                } else {
                    assert(self.nodes@[n] == node);
                }
            }
            assert forall|m: int, n: int| 0 <= m < n < self.nodes@.len() implies self.inode_of(m)
                != self.inode_of(n) by {
                if n < pre.nodes@.len() {
                    assert(self.nodes@[m] == pre.nodes@[m]);
                    assert(self.nodes@[n] == pre.nodes@[n]);
                    assert(pre.inode_of(m) != pre.inode_of(n));
                } else {
                    assert(self.nodes@[m] == pre.nodes@[m]);
                    assert(self.nodes@[n] == node);
                    assert(pre.inode_of(m) != node.spec_inode());
                }
            }
            assert forall|k: int| 0 <= k < self.cache@.len() implies (
            #[trigger] self.cache@[k].1 as int) < self.nodes@.len() by {
                assert((pre.cache@[k].1 as int) < pre.nodes@.len());
            }
            assert forall|n: int| 0 <= n < pre.nodes@.len() implies node_extends(
                #[trigger] pre.nodes@[n],
                self.nodes@[n],
            ) by {
                assert(self.nodes@[n] == pre.nodes@[n]);
                lemma_node_extends_refl(pre.nodes@[n]);
            }
            assert forall|n: int, name: Seq<char>|
                0 <= n < pre.nodes@.len() && (#[trigger] child_lookup(
                    pre.children_of(n),
                    name,
                )) is Some implies child_lookup(self.children_of(n), name) == child_lookup(
                pre.children_of(n),
                name,
            ) by {
                assert(self.nodes@[n] == pre.nodes@[n]);
            }
            assert forall|d: int, nm: Seq<char>|
                0 <= d < self.nodes@.len() && (#[trigger] child_lookup(
                    self.children_of(d),
                    nm,
                )) is Some implies ((0 <= d < pre.nodes@.len() && child_lookup(
                pre.children_of(d),
                nm,
            ) == child_lookup(self.children_of(d), nm)) || (child_lookup(
                self.children_of(d),
                nm,
            ) matches Some(e) && e.explicit_mapping)) by {
                if d < pre.nodes@.len() {
                    assert(self.nodes@[d] == pre.nodes@[d]);
                } else {
                    assert(self.children_of(d) =~= Seq::<(String, Dirent)>::empty());
                    assert(child_lookup(self.children_of(d), nm) is None);
                }
            }
            assert forall|m: int| 0 <= m < pre.nodes@.len() implies node_grew(
                #[trigger] pre.nodes@[m],
                self.nodes@[m],
            ) by {
                assert(self.nodes@[m] == pre.nodes@[m]);
                match pre.nodes@[m] {
                    Node::Dir(d) => {
                        assert(d.state.children@.take(d.state.children@.len() as int)
                            =~= d.state.children@);
                    },
                    Node::File(_) => {},
                }
            }
        }
        r
    }

    /// Looks host path `p` up in the deduplication cache.
    pub fn cache_find(&self, p: &Vec<String>) -> (r: Option<usize>)
        ensures
            r == self.cache_get(path_view(p@)),
    {
        let ghost pv = path_view(p@);
        let mut i: usize = 0;
        proof {
            assert(self.cache@.skip(0) =~= self.cache@);
        }
        while i < self.cache.len()
            invariant
                i <= self.cache@.len(),
                cache_lookup(self.cache@.skip(i as int), pv) == cache_lookup(self.cache@, pv),
                pv == path_view(p@),
            decreases self.cache@.len() - i,
        {
            proof {
                assert(self.cache@.skip(i as int)[0] == self.cache@[i as int]);
                assert(self.cache@.skip(i as int).drop_first() =~= self.cache@.skip(i as int + 1));
            }
            if path_eq(&self.cache[i].0, p) {
                return Some(self.cache[i].1);
            }
            i = i + 1;
        }
        proof {
            assert(self.cache@.skip(i as int) =~= Seq::<(Vec<String>, usize)>::empty());
        }
        None
    }
}

impl Fs {
    /// Inserts a child entry under a name the directory does not hold yet.
    pub fn push_child(&mut self, n: usize, name: String, de: Dirent)
        requires
            old(self).wf(),
            old(self).is_dir(n as int),
            old(self).child_of(n as int, name@) is None,
            (de.node as int) < old(self).nodes@.len(),
        ensures
            final(self).wf(),
            extends(*old(self), *final(self)),
            edges_preserved(*old(self), *final(self)),
            final(self).nodes@.len() == old(self).nodes@.len(),
            final(self).cache == old(self).cache,
            final(self).next_inode == old(self).next_inode,
            forall|m: int|
                0 <= m < old(self).nodes@.len() && m != n ==> final(self).nodes@[m] == old(
                    self,
                ).nodes@[m],
            final(self).is_dir(n as int),
            final(self).children_of(n as int) == old(self).children_of(n as int).push(
                (name, de),
            ),
            final(self).attr_of(n as int) == old(self).attr_of(n as int),
            final(self).underlying_of(n as int) == old(self).underlying_of(n as int),
            final(self).inode_of(n as int) == old(self).inode_of(n as int),
            final(self).writable_of(n as int) == old(self).writable_of(n as int),
            final(self).parent_of(n as int) == old(self).parent_of(n as int),
            final(self).child_of(n as int, name@) == Some(de),
            forall|nm: Seq<char>|
                nm != name@ ==> #[trigger] final(self).child_of(n as int, nm) == old(
                    self,
                ).child_of(n as int, nm),
            de.explicit_mapping ==> only_explicit_added(*old(self), *final(self)),
            grew_only(*old(self), *final(self)),
    {
        let ghost pre = *self;
        let ghost entry = (name, de);
        match &mut self.nodes[n] {
            Node::Dir(d) => {
                d.state.children.push((name, de));
            },
            Node::File(_) => {
                proof {
                    assert(false);
                }
            },
        }
        proof {
            assert(self.nodes@ =~= pre.nodes@.update(n as int, self.nodes@[n as int]));
            assert(self.children_of(n as int) =~= pre.children_of(n as int).push(entry));
            lemma_child_lookup_none(pre.children_of(n as int), entry.0@);
            assert forall|nm: Seq<char>| true implies #[trigger] child_lookup(
                self.children_of(n as int),
                nm,
            ) == (if child_lookup(pre.children_of(n as int), nm) is Some {
                child_lookup(pre.children_of(n as int), nm)
            } else if entry.0@ == nm {
                Some(entry.1)
            } else {
                None::<Dirent>
            }) by {
                lemma_child_lookup_push(pre.children_of(n as int), entry, nm);
            }
            assert forall|m: int| 0 <= m < self.nodes@.len() implies self.wf_node(m) by {
                assert(pre.wf_node(m));
                if m != n {
                    assert(self.nodes@[m] == pre.nodes@[m]);
                } else {
                    let oldc = pre.children_of(n as int);
                    assert forall|i: int, j: int|
                        0 <= i < j < self.children_of(n as int).len() implies self.children_of(
                        n as int,
                    )[i].0@ != self.children_of(n as int)[j].0@ by {
                        if j < oldc.len() {
                        } else {
                            assert(self.children_of(n as int)[j] == entry);
                            assert(oldc[i].0@ != entry.0@);
                        }
                    }
                }
            }
            assert forall|m: int| 0 <= m < self.nodes@.len() implies #[trigger] self.inode_of(m)
                < self.next_inode by {
                assert(pre.inode_of(m) < pre.next_inode);
                if m != n {
                    assert(self.nodes@[m] == pre.nodes@[m]);
                }
            }
            assert forall|m: int, l: int| 0 <= m < l < self.nodes@.len() implies self.inode_of(m)
                != self.inode_of(l) by {
                assert(pre.inode_of(m) != pre.inode_of(l));
            }
            assert forall|m: int| 0 <= m < pre.nodes@.len() implies node_extends(
                #[trigger] pre.nodes@[m],
                self.nodes@[m],
            ) by {
                if m != n {
                    assert(self.nodes@[m] == pre.nodes@[m]);
                    lemma_node_extends_refl(pre.nodes@[m]);
                }
            }
            assert forall|m: int, nm: Seq<char>|
                0 <= m < pre.nodes@.len() && (#[trigger] child_lookup(
                    pre.children_of(m),
                    nm,
                )) is Some implies child_lookup(self.children_of(m), nm) == child_lookup(
                pre.children_of(m),
                nm,
            ) by {
                if m != n {
                    assert(self.nodes@[m] == pre.nodes@[m]);
                }
            }
            assert forall|m: int| 0 <= m < pre.nodes@.len() implies node_grew(
                #[trigger] pre.nodes@[m],
                self.nodes@[m],
            ) by {
                if m != n {
                    assert(self.nodes@[m] == pre.nodes@[m]);
                }
                match pre.nodes@[m] {
                    Node::Dir(d) => {
                        if m != n {
                            assert(d.state.children@.take(d.state.children@.len() as int)
                                =~= d.state.children@);
                        } else {
                            assert(self.children_of(n as int).take(d.state.children@.len() as int)
                                =~= d.state.children@);
                        }
                    },
                    Node::File(_) => {},
                }
            }
            if de.explicit_mapping {
                assert forall|d: int, nm: Seq<char>|
                    0 <= d < self.nodes@.len() && (#[trigger] child_lookup(
                        self.children_of(d),
                        nm,
                    )) is Some implies ((0 <= d < pre.nodes@.len() && child_lookup(
                    pre.children_of(d),
                    nm,
                ) == child_lookup(self.children_of(d), nm)) || (child_lookup(
                    self.children_of(d),
                    nm,
                ) matches Some(e) && e.explicit_mapping)) by {
                    if d != n {
                        assert(self.nodes@[d] == pre.nodes@[d]);
                    } else {
                        if child_lookup(pre.children_of(d), nm) is None && nm != entry.0@ {
                            assert(child_lookup(self.children_of(d), nm) is None);
                        }
                    }
                }
            }
        }
    }

    /// The node's host-backing path, copied out: for callers outside the
    /// tree that assemble the host answers an operation will need.
    pub fn backing_of(&self, n: usize) -> (r: Option<Vec<String>>)
        requires
            self.valid(n as int),
        ensures
            match r {
                Some(p) => self.underlying_of(n as int) == Some(path_view(p@)),
                None => self.underlying_of(n as int) is None,
            },
    {
        match self.node(n) {
            Node::Dir(d) => match &d.state.underlying_path {
                Some(p) => Some(clone_path(p)),
                None => None,
            },
            Node::File(f) => match &f.state.underlying_path {
                Some(p) => Some(clone_path(p)),
                None => None,
            },
        }
    }

    /// The directory's known child under `name`, if any, without touching
    /// the host: the read-only half of `lookup`.
    pub fn child_node(&self, n: usize, name: &String) -> (r: Option<usize>)
        requires
            self.wf(),
            self.is_dir(n as int),
        ensures
            match r {
                Some(c) => self.child_of(n as int, name@) matches Some(e) && e.node == c
                    && self.valid(c as int),
                None => self.child_of(n as int, name@) is None,
            },
    {
        match self.node(n) {
            Node::Dir(d) => match find_child(&d.state.children, name) {
                Some(e) => {
                    proof {
                        assert(self.wf_node(n as int));
                        lemma_child_lookup_is_entry(self.children_of(n as int), name@, e);
                    }
                    Some(e.node)
                },
                None => None,
            },
            Node::File(_) => unreached(),
        }
    }

    /// The deduplication cache's contract: returns the node that already
    /// represents `underlying_path`, or constructs and registers a new one
    /// (directory or file, chosen by the metadata's kind).  At most one live
    /// node per host path.
    pub fn get_or_create(
        &mut self,
        underlying_path: &Vec<String>,
        meta: &HostMeta,
        writable: bool,
    ) -> (r: usize)
        requires
            old(self).wf(),
            meta.kind != FileKind::Symlink,
            old(self).next_inode < u64::MAX,
        ensures
            final(self).wf(),
            extends(*old(self), *final(self)),
            edges_preserved(*old(self), *final(self)),
            final(self).valid(r as int),
            final(self).cache_get(path_view(underlying_path@)) == Some(r),
            final(self).next_inode <= old(self).next_inode + 1,
            only_explicit_added(*old(self), *final(self)),
            grew_only(*old(self), *final(self)),
            match old(self).cache_get(path_view(underlying_path@)) {
                Some(c) => r == c && *final(self) == *old(self),
                None => {
                    &&& r == old(self).nodes@.len()
                    &&& final(self).nodes@.len() == old(self).nodes@.len() + 1
                    &&& forall|m: int|
                        0 <= m < old(self).nodes@.len() ==> final(self).nodes@[m] == old(
                            self,
                        ).nodes@[m]
                    &&& final(self).next_inode == old(self).next_inode + 1
                    &&& final(self).inode_of(r as int) == old(self).next_inode
                    &&& final(self).is_dir(r as int) == (meta.kind == FileKind::Directory)
                    &&& final(self).underlying_of(r as int) == Some(path_view(underlying_path@))
                    &&& final(self).writable_of(r as int) == writable
                    &&& final(self).attr_of(r as int) == spec_attr_from_meta(
                        old(self).next_inode,
                        *meta,
                    )
                    &&& final(self).kind_of(r as int) == meta.kind
                    &&& final(self).children_of(r as int) == Seq::<(String, Dirent)>::empty()
                },
            },
    {
        let ghost pv = path_view(underlying_path@);
        match self.cache_find(underlying_path) {
            Some(c) => {
                proof {
                    lemma_extends_refl(*self);
                    lemma_cache_lookup_some(self.cache@, pv, c);
                    lemma_only_explicit_added_same(*self, *self);
                    lemma_grew_only_same(*self, *self);
                }
                c
            },
            None => {
                let ino = self.alloc_inode();
                let ghost mid = *self;
                let node: Node = if matches!(meta.kind, FileKind::Directory) {
                    match Dir::new_mapped(ino, underlying_path, meta, writable) {
                        Ok(d) => Node::Dir(d),
                        Err(_) => unreached(),
                    }
                } else {
                    match File::new_mapped(ino, underlying_path, meta, writable) {
                        Ok(f) => Node::File(f),
                        Err(_) => unreached(),
                    }
                };
                proof {
                    assert forall|m: int|
                        0 <= m < self.nodes@.len() implies #[trigger] self.inode_of(m)
                        != node.spec_inode() by {
                        assert(self.nodes@[m] == old(self).nodes@[m]);
                        assert(old(self).inode_of(m) < old(self).next_inode);
                    }
                }
                let r = self.add_node(node);
                let ghost post_add = *self;
                self.cache.push((clone_path(underlying_path), r));
                proof {
                    assert(self.nodes == post_add.nodes);
                    assert forall|m: int| 0 <= m < self.nodes@.len() implies self.wf_node(m) by {
                        assert(post_add.wf_node(m));
                    }
                    assert forall|m: int|
                        0 <= m < self.nodes@.len() implies #[trigger] self.inode_of(m)
                        < self.next_inode by {
                        assert(post_add.inode_of(m) < post_add.next_inode);
                    }
                    assert forall|m: int, l: int|
                        0 <= m < l < self.nodes@.len() implies self.inode_of(m) != self.inode_of(
                        l,
                    ) by {
                        assert(post_add.inode_of(m) != post_add.inode_of(l));
                    }
                    assert(self.cache@.drop_last() =~= post_add.cache@);
                    lemma_cache_lookup_none(post_add.cache@, pv);
                    assert forall|k: int|
                        0 <= k < self.cache@.len() implies (#[trigger] self.cache@[k].1 as int)
                        < self.nodes@.len() by {
                        if k < post_add.cache@.len() {
                            assert(self.cache@[k] == post_add.cache@[k]);
                        } else {
                            assert(self.cache@[k].1 == r);
                        }
                    }
                    assert forall|k: int, l: int|
                        0 <= k < l < self.cache@.len() implies path_view(self.cache@[k].0@)
                        != path_view(self.cache@[l].0@) by {
                        if l < post_add.cache@.len() {
                            assert(self.cache@[k] == post_add.cache@[k]);
                            assert(self.cache@[l] == post_add.cache@[l]);
                        } else {
                            assert(self.cache@[k] == post_add.cache@[k]);
                            assert(path_view(self.cache@[l].0@) == pv);
                            assert(path_view(post_add.cache@[k].0@) != pv);
                        }
                    }
                    assert forall|p: Seq<Seq<char>>|
                        (#[trigger] cache_lookup(mid.cache@, p)) is Some implies cache_lookup(
                        self.cache@,
                        p,
                    ) == cache_lookup(mid.cache@, p) by {
                        assert(self.cache@ =~= post_add.cache@.push(self.cache@.last()));
                        lemma_cache_lookup_push(post_add.cache@, self.cache@.last(), p);
                    }
                    assert(self.cache@ =~= post_add.cache@.push(self.cache@.last()));
                    lemma_cache_lookup_push(post_add.cache@, self.cache@.last(), pv);
                    assert(self.cache_get(pv) == Some(r));
                    assert forall|m: int| 0 <= m < mid.nodes@.len() implies node_extends(
                        #[trigger] mid.nodes@[m],
                        self.nodes@[m],
                    ) by {
                        assert(node_extends(mid.nodes@[m], post_add.nodes@[m]));
                    }
                    lemma_only_explicit_added_same(*old(self), mid);
                    lemma_only_explicit_added_trans(*old(self), mid, post_add);
                    lemma_only_explicit_added_same(post_add, *self);
                    lemma_only_explicit_added_trans(*old(self), post_add, *self);
                    lemma_grew_only_same(*old(self), mid);
                    lemma_grew_only_trans(*old(self), mid, post_add);
                    lemma_grew_only_same(post_add, *self);
                    lemma_grew_only_trans(*old(self), post_add, *self);
                }
                r
            },
        }
    }

    /// Refreshes and returns the attribute record of node `n`: the cached
    /// record for an unbacked node (a scaffold directory or a deleted
    /// file); otherwise the freshly stat'd host metadata, or an I/O-class
    /// error if the host object is no longer of a compatible type.
    pub fn getattr(&mut self, n: usize, host: &HostView) -> (r: Result<FileAttr, NodeError>)
        requires
            old(self).wf(),
            old(self).valid(n as int),
        ensures
            final(self).wf(),
            extends(*old(self), *final(self)),
            edges_preserved(*old(self), *final(self)),
            r == spec_getattr(*old(self), n as int, *host),
            final(self).nodes@.len() == old(self).nodes@.len(),
            final(self).cache == old(self).cache,
            final(self).next_inode == old(self).next_inode,
            forall|m: int|
                0 <= m < old(self).nodes@.len() && m != n ==> final(self).nodes@[m] == old(
                    self,
                ).nodes@[m],
            final(self).children_of(n as int) == old(self).children_of(n as int),
            final(self).underlying_of(n as int) == old(self).underlying_of(n as int),
            final(self).attr_of(n as int) == (match r {
                Ok(a) => a,
                Err(_) => old(self).attr_of(n as int),
            }),
    {
        let ghost pre = *self;
        let step: Result<(FileAttr, bool), NodeError> = match &self.nodes[n] {
            Node::Dir(d) => {
                match &d.state.underlying_path {
                    None => Ok((d.state.attr, false)),
                    Some(p) => {
                        match host.stat(p) {
                            StatResult::Failed(e) => Err(NodeError::Host(e)),
                            StatResult::Found(m) => {
                                if !matches!(m.kind, FileKind::Directory) {
                                    Err(NodeError::Inconsistent)
                                } else {
                                    Ok((attr_from_meta(d.inode, &m), true))
                                }
                            },
                        }
                    },
                }
            },
            Node::File(f) => {
                match &f.state.underlying_path {
                    None => Ok((f.state.attr, false)),
                    Some(p) => {
                        match host.stat(p) {
                            StatResult::Failed(e) => Err(NodeError::Host(e)),
                            StatResult::Found(m) => {
                                if matches!(m.kind, FileKind::Directory) || matches!(
                                    m.kind,
                                    FileKind::Symlink,
                                ) {
                                    Err(NodeError::Inconsistent)
                                } else {
                                    Ok((attr_from_meta(f.inode, &m), true))
                                }
                            },
                        }
                    },
                }
            },
        };
        match step {
            Err(e) => {
                proof {
                    lemma_extends_refl(*self);
                }
                Err(e)
            },
            Ok((a, needs_write)) => {
                if needs_write {
                    match &mut self.nodes[n] {
                        Node::Dir(d) => {
                            d.state.attr = a;
                        },
                        Node::File(f) => {
                            f.state.attr = a;
                        },
                    }
                }
                proof {
                    if needs_write {
                        assert(self.nodes@ =~= pre.nodes@.update(n as int, self.nodes@[n as int]));
                        assert(pre.wf_node(n as int));
                        assert(self.wf_node(n as int));
                        assert(node_extends(pre.nodes@[n as int], self.nodes@[n as int]));
                        assert(self.children_of(n as int) == pre.children_of(n as int));
                        lemma_single_node_update(pre, *self, n as int);
                    } else {
                        lemma_extends_refl(*self);
                    }
                }
                Ok(a)
            },
        }
    }
}

/// Looks a name up in a child table.
pub fn find_child(children: &Vec<(String, Dirent)>, name: &String) -> (r: Option<Dirent>)
    ensures
        r == child_lookup(children@, name@),
{
    let mut i: usize = 0;
    proof {
        assert(children@.skip(0) =~= children@);
    }
    while i < children.len()
        invariant
            i <= children@.len(),
            child_lookup(children@.skip(i as int), name@) == child_lookup(children@, name@),
        decreases children@.len() - i,
    {
        proof {
            assert(children@.skip(i as int)[0] == children@[i as int]);
            assert(children@.skip(i as int).drop_first() =~= children@.skip(i as int + 1));
        }
        if children[i].0 == *name {
            return Some(children[i].1);
        }
        i = i + 1;
    }
    proof {
        assert(children@.skip(i as int) =~= Seq::<(String, Dirent)>::empty());
    }
    None
}

} // verus!

