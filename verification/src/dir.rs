//! Directory nodes: construction, the mapping algorithm, child resolution
//! and the merged directory listing.

use vstd::prelude::*;

use crate::attrs::{attr_from_meta, spec_attr_from_meta, FileAttr, FileKind, HostMeta, Timespec};
use crate::errors::NodeError;
use crate::host::{clone_path, path_join, path_view, HostView, StatResult};
use crate::tree::{
    child_lookup, extends, edges_preserved, find_child, grew_only, lemma_child_lookup_is_entry,
    lemma_extends_refl, lemma_extends_trans, lemma_edges_preserved_trans, lemma_grew_only_same,
    lemma_grew_only_trans, lemma_only_explicit_added_same, lemma_only_explicit_added_trans,
    node_extends, node_grew, only_explicit_added, opt_path_view, spec_getattr, Dir, Dirent, Fs,
    MutableDir, Node,
};

verus! {

/// Follows path components from node `n` through known child entries; the
/// node the path leads to, if every component is a known child of a
/// directory.
pub open spec fn resolve(fs: Fs, n: int, comps: Seq<Seq<char>>) -> Option<int>
    decreases comps.len(),
{
    if comps.len() == 0 {
        Some(n)
    } else if !fs.is_dir(n) {
        None
    } else {
        match fs.child_of(n, comps[0]) {
            Some(e) => resolve(fs, e.node as int, comps.drop_first()),
            None => None,
        }
    }
}

/// A plain path component, as the mapping interface guarantees them: not
/// empty, not a dot entry, and holding no separator.
pub open spec fn normal_component(s: Seq<char>) -> bool {
    s.len() > 0 && s != "."@ && s != ".."@ && !s.contains('/')
}

/// A freshly created scaffold directory: unbacked, never writable, carrying
/// the fixed read/execute-only scaffold attributes under its own inode.
pub open spec fn scaffold_node_spec(post: Fs, d: int, now: Timespec, uid: u32, gid: u32) -> bool {
    &&& post.is_dir(d)
    &&& post.underlying_of(d) is None
    &&& !post.writable_of(d)
    &&& post.attr_of(d) == spec_scaffold_attr(post.inode_of(d), now, uid, gid)
}

/// The scaffold-child rule of the mapping algorithm: under a backed parent
/// whose probe of `backing/name` finds a host directory, the child is a
/// directory mapped over that path, inheriting the parent's writability and
/// carrying the probe's translated metadata; under an unbacked parent, a
/// failed probe, or a probe that found anything else, the child is a
/// scaffold directory.
pub open spec fn scaffold_child_spec(
    post: Fs,
    host: HostView,
    parent: int,
    d: int,
    name: Seq<char>,
    now: Timespec,
    uid: u32,
    gid: u32,
) -> bool {
    &&& post.is_dir(d)
    &&& (match post.underlying_of(parent) {
        Some(bp) => match host.stat_of(bp.push(name)) {
            StatResult::Found(m) => if m.kind == FileKind::Directory {
                &&& post.underlying_of(d) == Some(bp.push(name))
                &&& post.writable_of(d) == post.writable_of(parent)
                &&& post.attr_of(d) == spec_attr_from_meta(post.inode_of(d), m)
            } else {
                scaffold_node_spec(post, d, now, uid, gid)
            },
            StatResult::Failed(_) => scaffold_node_spec(post, d, now, uid, gid),
        },
        None => scaffold_node_spec(post, d, now, uid, gid),
    })
}

/// The shape of the materialized path after a successful mapping from state
/// `base`: each component leads through a child entry; the final entry is
/// the explicitly mapped target `t`; and every intermediate entry either
/// already stood in `base` or is the directory the scaffold-child rule
/// prescribes for its parent's probe.
pub open spec fn map_chain(
    base: Fs,
    post: Fs,
    host: HostView,
    n: int,
    comps: Seq<Seq<char>>,
    t: int,
    now: Timespec,
    uid: u32,
    gid: u32,
) -> bool
    decreases comps.len(),
{
    if comps.len() == 0 {
        n == t
    } else {
        post.child_of(n, comps[0]) matches Some(e) && {
            &&& (comps.len() == 1 ==> e.node as int == t && e.explicit_mapping)
            &&& (comps.len() > 1 ==> {
                &&& ((base.valid(n) && base.child_of(n, comps[0]) == Some(e))
                    || scaffold_child_spec(post, host, n, e.node as int, comps[0], now, uid, gid))
                &&& map_chain(base, post, host, e.node as int, comps.drop_first(), t, now, uid, gid)
            })
        }
    }
}

/// Does an existing entry block mapping `comps` under node `n`?  A mapping
/// is blocked exactly when it reaches an entry that already occupies its
/// destination, or a non-directory where it must descend.
pub open spec fn obstructed(fs: Fs, n: int, comps: Seq<Seq<char>>) -> bool
    decreases comps.len(),
{
    if comps.len() == 0 {
        false
    } else {
        match fs.child_of(n, comps[0]) {
            Some(e) => comps.len() == 1 || !fs.is_dir(e.node as int) || obstructed(
                fs,
                e.node as int,
                comps.drop_first(),
            ),
            None => false,
        }
    }
}

/// The attribute record of a freshly created scaffold directory: fixed
/// read/execute-only permissions, two links, timestamps set to the creation
/// time, owned by the given user.
pub open spec fn spec_scaffold_attr(inode: u64, now: Timespec, uid: u32, gid: u32) -> FileAttr {
    FileAttr {
        ino: inode,
        kind: FileKind::Directory,
        nlink: 2,
        size: 2,
        blocks: 1,
        atime: now,
        mtime: now,
        ctime: now,
        crtime: now,
        perm: 0o555,
        uid,
        gid,
        rdev: 0,
        flags: 0,
    }
}

impl Dir {
    /// Creates a new scaffold directory: purely virtual, unbacked, never
    /// writable, read/execute-only.  `parent` is the inode reported for
    /// `..`; the root directory passes `None` and is its own parent.
    pub fn new_empty(inode: u64, parent: Option<u64>, now: Timespec, uid: u32, gid: u32) -> (r:
        Dir)
        ensures
            r.inode == inode,
            !r.writable,
            r.state.underlying_path is None,
            r.state.parent == (match parent {
                Some(p) => p,
                None => inode,
            }),
            r.state.attr == spec_scaffold_attr(inode, now, uid, gid),
            r.state.children@.len() == 0,
    {
        let attr = FileAttr {
            ino: inode,
            kind: FileKind::Directory,
            nlink: 2,
            size: 2,
            blocks: 1,
            atime: now,
            mtime: now,
            ctime: now,
            crtime: now,
            perm: 0o555,
            uid,
            gid,
            rdev: 0,
            flags: 0,
        };
        let parent_inode = match parent {
            Some(p) => p,
            None => inode,
        };
        Dir {
            inode,
            writable: false,
            state: MutableDir {
                parent: parent_inode,
                underlying_path: None,
                attr,
                children: Vec::new(),
            },
        }
    }

    /// Creates a directory node backed by the host directory at
    /// `underlying_path`, whose already-stat'd metadata is `meta`.
    /// Metadata of any other kind is a contract violation and is reported,
    /// not accepted.
    pub fn new_mapped(
        inode: u64,
        underlying_path: &Vec<String>,
        meta: &HostMeta,
        writable: bool,
    ) -> (r: Result<Dir, NodeError>)
        ensures
            match r {
                Ok(d) => {
                    &&& meta.kind == FileKind::Directory
                    &&& d.inode == inode
                    &&& d.writable == writable
                    &&& d.state.parent == inode
                    &&& opt_path_view(d.state.underlying_path) == Some(path_view(
                        underlying_path@,
                    ))
                    &&& d.state.attr == spec_attr_from_meta(inode, *meta)
                    &&& d.state.children@.len() == 0
                },
                Err(e) => meta.kind != FileKind::Directory && e == NodeError::InvalidOperation,
            },
    {
        if !matches!(meta.kind, FileKind::Directory) {
            return Err(NodeError::InvalidOperation);
        }
        let attr = attr_from_meta(inode, meta);
        Ok(
            Dir {
                inode,
                writable,
                state: MutableDir {
                    parent: inode,
                    underlying_path: Some(clone_path(underlying_path)),
                    attr,
                    children: Vec::new(),
                },
            },
        )
    }
}

impl Fs {
    /// Creates a child directory for an intermediate component of a mapping
    /// under directory `n`.  If `n` is backed and the host holds a directory
    /// under that name, the child is mapped over it, inheriting `n`'s
    /// writability; anything else on the host — a non-directory, a missing
    /// entry, a failed probe — is clobbered by a scaffold directory, never
    /// failing the mapping.  The child is not yet inserted into `n`'s table
    /// and, like the original intermediate directories, is not registered
    /// in the deduplication cache.
    pub fn new_scaffold_child(
        &mut self,
        n: usize,
        name: &String,
        now: Timespec,
        uid: u32,
        gid: u32,
        host: &HostView,
    ) -> (r: usize)
        requires
            old(self).wf(),
            old(self).is_dir(n as int),
            old(self).next_inode < u64::MAX,
        ensures
            final(self).wf(),
            extends(*old(self), *final(self)),
            edges_preserved(*old(self), *final(self)),
            only_explicit_added(*old(self), *final(self)),
            grew_only(*old(self), *final(self)),
            r == old(self).nodes@.len(),
            final(self).nodes@.len() == old(self).nodes@.len() + 1,
            forall|m: int|
                0 <= m < old(self).nodes@.len() ==> final(self).nodes@[m] == old(self).nodes@[m],
            final(self).cache == old(self).cache,
            final(self).next_inode == old(self).next_inode + 1,
            final(self).is_dir(r as int),
            final(self).children_of(r as int) == Seq::<(String, Dirent)>::empty(),
            final(self).inode_of(r as int) == old(self).next_inode,
            (match old(self).underlying_of(n as int) {
                Some(bp) => match host.stat_of(bp.push(name@)) {
                    StatResult::Found(m) => if m.kind == FileKind::Directory {
                        &&& final(self).underlying_of(r as int) == Some(bp.push(name@))
                        &&& final(self).writable_of(r as int) == old(self).writable_of(n as int)
                        &&& final(self).attr_of(r as int) == spec_attr_from_meta(
                            old(self).next_inode,
                            m,
                        )
                        &&& final(self).parent_of(r as int) == old(self).next_inode
                    } else {
                        scaffold_result(*old(self), *final(self), n as int, r as int, now, uid, gid)
                    },
                    StatResult::Failed(_) => scaffold_result(
                        *old(self),
                        *final(self),
                        n as int,
                        r as int,
                        now,
                        uid,
                        gid,
                    ),
                },
                None => scaffold_result(*old(self), *final(self), n as int, r as int, now, uid, gid),
            }),
    {
        let probe: Option<(Vec<String>, HostMeta)> = match self.node(n) {
            Node::Dir(d) => match &d.state.underlying_path {
                Some(bp) => {
                    let child_path = path_join(bp, name);
                    match host.stat(&child_path) {
                        StatResult::Found(m) => {
                            if matches!(m.kind, FileKind::Directory) {
                                Some((child_path, m))
                            } else {
                                None
                            }
                        },
                        StatResult::Failed(_) => None,
                    }
                },
                None => None,
            },
            Node::File(_) => unreached(),
        };
        let parent_inode = self.node(n).inode();
        let parent_writable = self.node(n).writable();
        let ino = self.alloc_inode();
        let ghost mid_alloc = *self;
        let node: Node = match probe {
            Some((cp, m)) => match Dir::new_mapped(ino, &cp, &m, parent_writable) {
                Ok(d) => Node::Dir(d),
                Err(_) => unreached(),
            },
            None => Node::Dir(Dir::new_empty(ino, Some(parent_inode), now, uid, gid)),
        };
        proof {
            assert forall|m: int|
                0 <= m < self.nodes@.len() implies #[trigger] self.inode_of(m)
                != node.spec_inode() by {
                assert(self.nodes@[m] == old(self).nodes@[m]);
                assert(old(self).inode_of(m) < old(self).next_inode);
            }
        }
        let r = self.add_node(node);
        proof {
            assert(self.children_of(r as int) =~= Seq::<(String, Dirent)>::empty());
            lemma_grew_only_same(*old(self), mid_alloc);
            lemma_grew_only_trans(*old(self), mid_alloc, *self);
        }
        r
    }

    /// The recursive body of `map`.  `base` is the state the walk started
    /// from: the chain clause of the postcondition promises the
    /// scaffold-child rule for every entry the whole walk created, and the
    /// recursion keeps `base` fixed while `old(self)` moves.  Below `base`'s
    /// node count the arena is required to be untouched; at or above it the
    /// current node is required to be freshly created and still empty —
    /// exactly the two states the walk passes through.
    fn map_at(
        &mut self,
        n: usize,
        components: &Vec<String>,
        i: usize,
        underlying_path: &Vec<String>,
        writable: bool,
        now: Timespec,
        uid: u32,
        gid: u32,
        host: &HostView,
        base: Ghost<Fs>,
    ) -> (r: Result<(), NodeError>)
        requires
            old(self).wf(),
            old(self).is_dir(n as int),
            i < components@.len(),
            old(self).next_inode + components@.len() - i <= u64::MAX,
            forall|j: int|
                i <= j < components@.len() ==> normal_component(#[trigger] components@[j]@),
            base@.wf(),
            base@.nodes@.len() <= old(self).nodes@.len(),
            (n as int) < base@.nodes@.len() ==> (forall|m: int|
                0 <= m < base@.nodes@.len() ==> old(self).nodes@[m] == base@.nodes@[m]),
            (n as int) >= base@.nodes@.len() ==> old(self).children_of(n as int).len() == 0,
        ensures
            final(self).wf(),
            extends(*old(self), *final(self)),
            edges_preserved(*old(self), *final(self)),
            only_explicit_added(*old(self), *final(self)),
            grew_only(*old(self), *final(self)),
            final(self).next_inode <= old(self).next_inode + components@.len() - i,
            r == Err::<(), NodeError>(NodeError::AlreadyMapped) ==> *final(self) == *old(self),
            (components@.len() - i == 1 && r is Err) ==> *final(self) == *old(self),
            (r is Ok) == (!obstructed(
                *old(self),
                n as int,
                path_view(components@).skip(i as int),
            ) && (host.stat_of(path_view(underlying_path@)) matches StatResult::Found(m)
                && m.kind != FileKind::Symlink)),
            r is Ok ==> ({
                let comps = path_view(components@).skip(i as int);
                let pv = path_view(underlying_path@);
                &&& final(self).cache_get(pv) matches Some(t) && {
                    &&& final(self).valid(t as int)
                    &&& resolve(*final(self), n as int, comps) == Some(t as int)
                    &&& map_chain(base@, *final(self), *host, n as int, comps, t as int, now, uid, gid)
                    &&& (match old(self).cache_get(pv) {
                        Some(c) => t == c,
                        None => host.stat_of(pv) matches StatResult::Found(m) && {
                            &&& final(self).is_dir(t as int) == (m.kind == FileKind::Directory)
                            &&& final(self).kind_of(t as int) == m.kind
                            &&& final(self).underlying_of(t as int) == Some(pv)
                            &&& final(self).writable_of(t as int) == writable
                        },
                    })
                }
            }),
            r matches Err(e) ==> ({
                let comps = path_view(components@).skip(i as int);
                let pv = path_view(underlying_path@);
                &&& (obstructed(*old(self), n as int, comps) ==> e == NodeError::AlreadyMapped)
                &&& (!obstructed(*old(self), n as int, comps) ==> (match host.stat_of(pv) {
                    StatResult::Failed(he) => e == NodeError::Host(he),
                    StatResult::Found(m) => m.kind == FileKind::Symlink && e
                        == NodeError::Unsupported,
                }))
            }),
        decreases components@.len() - i,
    {
        let ghost pre = *self;
        let ghost comps = path_view(components@).skip(i as int);
        let ghost pv = path_view(underlying_path@);
        let clen = components.len();
        let name = &components[i];
        proof {
            assert(comps[0] == components@[i as int]@);
            assert(comps.drop_first() =~= path_view(components@).skip(i as int + 1));
        }
        let existing = match self.node(n) {
            Node::Dir(d) => find_child(&d.state.children, name),
            Node::File(_) => unreached(),
        };
        match existing {
            Some(e) => {
                proof {
                    assert(pre.child_of(n as int, comps[0]) == Some(e));
                }
                if i + 1 == clen {
                    proof {
                        lemma_extends_refl(*self);
                        lemma_only_explicit_added_same(*self, *self);
                        lemma_grew_only_same(*self, *self);
                        assert(obstructed(pre, n as int, comps));
                    }
                    return Err(NodeError::AlreadyMapped);
                }
                proof {
                    assert(pre.wf_node(n as int));
                    lemma_child_lookup_is_entry(pre.children_of(n as int), comps[0], e);
                    assert((e.node as int) < pre.nodes@.len());
                }
                let kind = self.node(e.node).file_type_cached();
                if !matches!(kind, FileKind::Directory) {
                    proof {
                        lemma_extends_refl(*self);
                        lemma_only_explicit_added_same(*self, *self);
                        lemma_grew_only_same(*self, *self);
                        assert(!pre.is_dir(e.node as int));
                        assert(obstructed(pre, n as int, comps));
                    }
                    return Err(NodeError::AlreadyMapped);
                }
                proof {
                    assert(pre.wf_node(e.node as int));
                    assert(pre.is_dir(e.node as int));
                    assert(obstructed(pre, n as int, comps) == obstructed(
                        pre,
                        e.node as int,
                        comps.drop_first(),
                    ));
                    if (n as int) >= base@.nodes@.len() {
                        assert(pre.children_of(n as int) =~= Seq::<(String, Dirent)>::empty());
                        assert(false);
                    }
                    assert(pre.nodes@[n as int] == base@.nodes@[n as int]);
                    assert(base@.children_of(n as int) == pre.children_of(n as int));
                    assert(base@.child_of(n as int, comps[0]) == Some(e));
                    assert(base@.wf_node(n as int));
                    lemma_child_lookup_is_entry(base@.children_of(n as int), comps[0], e);
                    assert((e.node as int) < base@.nodes@.len());
                }
                let r = self.map_at(
                    e.node,
                    components,
                    i + 1,
                    underlying_path,
                    writable,
                    now,
                    uid,
                    gid,
                    host,
                    base,
                );
                proof {
                    if r is Ok {
                        assert(child_lookup(pre.children_of(n as int), comps[0]) == Some(e));
                        assert(child_lookup(self.children_of(n as int), comps[0]) == Some(e));
                        assert(self.is_dir(n as int));
                        assert(resolve(*self, n as int, comps) == resolve(
                            *self,
                            e.node as int,
                            comps.drop_first(),
                        ));
                        let t = self.cache_get(pv)->Some_0;
                        assert(map_chain(
                            base@,
                            *self,
                            *host,
                            e.node as int,
                            comps.drop_first(),
                            t as int,
                            now,
                            uid,
                            gid,
                        ));
                        assert(map_chain(base@, *self, *host, n as int, comps, t as int, now, uid, gid));
                    }
                }
                r
            },
            None => {
                proof {
                    assert(pre.child_of(n as int, comps[0]) is None);
                    assert(!obstructed(pre, n as int, comps));
                }
                if i + 1 == clen {
                    match host.stat(underlying_path) {
                        StatResult::Failed(he) => {
                            proof {
                                lemma_extends_refl(*self);
                                lemma_only_explicit_added_same(*self, *self);
                                lemma_grew_only_same(*self, *self);
                            }
                            Err(NodeError::Host(he))
                        },
                        StatResult::Found(m) => {
                            if matches!(m.kind, FileKind::Symlink) {
                                proof {
                                    lemma_extends_refl(*self);
                                    lemma_only_explicit_added_same(*self, *self);
                                    lemma_grew_only_same(*self, *self);
                                }
                                Err(NodeError::Unsupported)
                            } else {
                                let child = self.get_or_create(underlying_path, &m, writable);
                                let ghost mid = *self;
                                proof {
                                    assert(mid.children_of(n as int) == pre.children_of(n as int));
                                    assert(mid.child_of(n as int, comps[0]) is None);
                                    assert(mid.is_dir(n as int));
                                }
                                let de = Dirent { node: child, explicit_mapping: true };
                                self.push_child(n, name.clone(), de);
                                proof {
                                    lemma_extends_trans(pre, mid, *self);
                                    lemma_edges_preserved_trans(pre, mid, *self);
                                    lemma_only_explicit_added_trans(pre, mid, *self);
                                    lemma_grew_only_trans(pre, mid, *self);
                                    assert(self.cache == mid.cache);
                                    assert(self.cache_get(pv) == Some(child));
                                    assert(self.child_of(n as int, comps[0]) == Some(de));
                                    assert(comps.len() == 1);
                                    assert(comps.drop_first().len() == 0);
                                    assert(resolve(*self, child as int, comps.drop_first())
                                        == Some(child as int));
                                    assert(resolve(*self, n as int, comps) == Some(child as int));
                                    if pre.cache_get(pv) is None {
                                        assert(child != n);
                                        assert(self.nodes@[child as int] == mid.nodes@[
                                        child as int]);
                                    }
                                    assert(map_chain(
                                        base@,
                                        *self,
                                        *host,
                                        child as int,
                                        comps.drop_first(),
                                        child as int,
                                        now,
                                        uid,
                                        gid,
                                    ));
                                    assert(map_chain(
                                        base@,
                                        *self,
                                        *host,
                                        n as int,
                                        comps,
                                        child as int,
                                        now,
                                        uid,
                                        gid,
                                    ));
                                }
                                Ok(())
                            }
                        },
                    }
                } else {
                    let child = self.new_scaffold_child(n, name, now, uid, gid, host);
                    let ghost mid = *self;
                    proof {
                        assert(mid.children_of(n as int) == pre.children_of(n as int));
                        assert(mid.child_of(n as int, comps[0]) is None);
                        assert(mid.is_dir(n as int));
                    }
                    let de = Dirent { node: child, explicit_mapping: true };
                    self.push_child(n, name.clone(), de);
                    let ghost mid2 = *self;
                    proof {
                        assert(child != n);
                        assert(mid2.nodes@[child as int] == mid.nodes@[child as int]);
                        assert(mid2.is_dir(child as int));
                        assert(mid2.children_of(child as int) == Seq::<(String, Dirent)>::empty());
                    }
                    let r = self.map_at(
                        child,
                        components,
                        i + 1,
                        underlying_path,
                        writable,
                        now,
                        uid,
                        gid,
                        host,
                        base,
                    );
                    proof {
                        lemma_extends_trans(pre, mid, mid2);
                        lemma_extends_trans(pre, mid2, *self);
                        lemma_edges_preserved_trans(pre, mid, mid2);
                        lemma_edges_preserved_trans(pre, mid2, *self);
                        lemma_only_explicit_added_trans(pre, mid, mid2);
                        lemma_only_explicit_added_trans(pre, mid2, *self);
                        lemma_grew_only_trans(pre, mid, mid2);
                        lemma_grew_only_trans(pre, mid2, *self);
                        assert(child_lookup(mid2.children_of(child as int), comps.drop_first()[0])
                            is None);
                        assert(!obstructed(mid2, child as int, comps.drop_first()));
                        assert(mid2.cache == pre.cache);
                        assert(mid2.cache_get(pv) == pre.cache_get(pv));
                        match r {
                            Err(e2) => {
                                assert(e2 != NodeError::AlreadyMapped);
                            },
                            Ok(_) => {},
                        }
                        if r is Ok {
                            assert(child_lookup(mid2.children_of(n as int), comps[0]) == Some(de));
                            assert(child_lookup(self.children_of(n as int), comps[0]) == Some(de));
                            assert(self.is_dir(n as int));
                            assert(resolve(*self, n as int, comps) == resolve(
                                *self,
                                child as int,
                                comps.drop_first(),
                            ));
                            assert(node_extends(mid2.nodes@[child as int], self.nodes@[
                            child as int]));
                            assert(node_extends(pre.nodes@[n as int], self.nodes@[n as int]));
                            assert(self.underlying_of(n as int) == pre.underlying_of(n as int));
                            assert(self.writable_of(n as int) == pre.writable_of(n as int));
                            assert(node_grew(mid2.nodes@[child as int], self.nodes@[child as int]));
                            assert(self.attr_of(child as int) == mid.attr_of(child as int));
                            assert(self.underlying_of(child as int) == mid.underlying_of(
                                child as int,
                            ));
                            assert(self.writable_of(child as int) == mid.writable_of(child as int));
                            assert(self.inode_of(child as int) == pre.next_inode);
                            assert(scaffold_child_spec(
                                *self,
                                *host,
                                n as int,
                                child as int,
                                comps[0],
                                now,
                                uid,
                                gid,
                            ));
                            let t = self.cache_get(pv)->Some_0;
                            assert(map_chain(
                                base@,
                                *self,
                                *host,
                                child as int,
                                comps.drop_first(),
                                t as int,
                                now,
                                uid,
                                gid,
                            ));
                            assert(map_chain(
                                base@,
                                *self,
                                *host,
                                n as int,
                                comps,
                                t as int,
                                now,
                                uid,
                                gid,
                            ));
                        }
                    }
                    r
                }
            },
        }
    }

    /// Establishes an explicit mapping: materializes the path components
    /// from `i` on under directory `n`, creating intermediate directories as
    /// needed, and binds the final component, as an explicit entry, to a
    /// node representing `underlying_path`, obtained through the
    /// deduplication cache.  The call succeeds exactly when no existing
    /// entry blocks the path and the host path stats to a supported kind.
    /// Every entry it creates is explicit; every intermediate it creates
    /// follows the scaffold-child rule (`map_chain`); no existing node's
    /// binding, attribute record or backing path changes, succeed or fail;
    /// and a conflict, or any failure of a single-component mapping, leaves
    /// the tree exactly as it was.
    pub fn map(
        &mut self,
        n: usize,
        components: &Vec<String>,
        i: usize,
        underlying_path: &Vec<String>,
        writable: bool,
        now: Timespec,
        uid: u32,
        gid: u32,
        host: &HostView,
    ) -> (r: Result<(), NodeError>)
        requires
            old(self).wf(),
            old(self).is_dir(n as int),
            i < components@.len(),
            old(self).next_inode + components@.len() - i <= u64::MAX,
            forall|j: int|
                i <= j < components@.len() ==> normal_component(#[trigger] components@[j]@),
        ensures
            final(self).wf(),
            extends(*old(self), *final(self)),
            edges_preserved(*old(self), *final(self)),
            only_explicit_added(*old(self), *final(self)),
            grew_only(*old(self), *final(self)),
            final(self).next_inode <= old(self).next_inode + components@.len() - i,
            r == Err::<(), NodeError>(NodeError::AlreadyMapped) ==> *final(self) == *old(self),
            (components@.len() - i == 1 && r is Err) ==> *final(self) == *old(self),
            (r is Ok) == (!obstructed(
                *old(self),
                n as int,
                path_view(components@).skip(i as int),
            ) && (host.stat_of(path_view(underlying_path@)) matches StatResult::Found(m)
                && m.kind != FileKind::Symlink)),
            r is Ok ==> ({
                let comps = path_view(components@).skip(i as int);
                let pv = path_view(underlying_path@);
                &&& final(self).cache_get(pv) matches Some(t) && {
                    &&& final(self).valid(t as int)
                    &&& resolve(*final(self), n as int, comps) == Some(t as int)
                    &&& map_chain(
                        *old(self),
                        *final(self),
                        *host,
                        n as int,
                        comps,
                        t as int,
                        now,
                        uid,
                        gid,
                    )
                    &&& (match old(self).cache_get(pv) {
                        Some(c) => t == c,
                        None => host.stat_of(pv) matches StatResult::Found(m) && {
                            &&& final(self).is_dir(t as int) == (m.kind == FileKind::Directory)
                            &&& final(self).kind_of(t as int) == m.kind
                            &&& final(self).underlying_of(t as int) == Some(pv)
                            &&& final(self).writable_of(t as int) == writable
                        },
                    })
                }
            }),
            r matches Err(e) ==> ({
                let comps = path_view(components@).skip(i as int);
                let pv = path_view(underlying_path@);
                &&& (obstructed(*old(self), n as int, comps) ==> e == NodeError::AlreadyMapped)
                &&& (!obstructed(*old(self), n as int, comps) ==> (match host.stat_of(pv) {
                    StatResult::Failed(he) => e == NodeError::Host(he),
                    StatResult::Found(m) => m.kind == FileKind::Symlink && e
                        == NodeError::Unsupported,
                }))
            }),
    {
        let ghost base = *self;
        self.map_at(n, components, i, underlying_path, writable, now, uid, gid, host, Ghost(base))
    }
}

/// One entry of a directory listing reply: inode, listing position, type
/// and name, in the order the kernel-facing protocol expects them.
#[derive(Clone, PartialEq, Eq, Debug)]
pub struct DirEntry {
    pub ino: u64,
    pub pos: u64,
    pub kind: FileKind,
    pub name: String,
}

/// Is `nm` an explicitly mapped child of directory `n`?
pub open spec fn is_explicit_child(fs: Fs, n: int, nm: Seq<char>) -> bool {
    fs.child_of(n, nm) matches Some(e) && e.explicit_mapping
}

/// The explicit entries of a child table, in table order.
pub open spec fn explicit_seq(s: Seq<(String, Dirent)>) -> Seq<(String, Dirent)>
    decreases s.len(),
{
    if s.len() == 0 {
        Seq::empty()
    } else if s[0].1.explicit_mapping {
        seq![s[0]] + explicit_seq(s.drop_first())
    } else {
        explicit_seq(s.drop_first())
    }
}

/// The explicit entries of a table grown by one entry.
pub proof fn lemma_explicit_seq_push(s: Seq<(String, Dirent)>, x: (String, Dirent))
    ensures
        explicit_seq(s.push(x)) == (if x.1.explicit_mapping {
            explicit_seq(s).push(x)
        } else {
            explicit_seq(s)
        }),
    decreases s.len(),
{
    reveal_with_fuel(explicit_seq, 3);
    if s.len() == 0 {
        assert(s.push(x)[0] == x);
        assert(s.push(x).drop_first() =~= Seq::<(String, Dirent)>::empty());
        assert(explicit_seq(s.push(x).drop_first()) =~= Seq::<(String, Dirent)>::empty());
        if x.1.explicit_mapping {
            assert(explicit_seq(s.push(x)) =~= explicit_seq(s).push(x));
        }
    } else {
        assert(s.push(x)[0] == s[0]);
        assert(s.push(x).drop_first() =~= s.drop_first().push(x));
        lemma_explicit_seq_push(s.drop_first(), x);
        if x.1.explicit_mapping {
            if s[0].1.explicit_mapping {
                assert(explicit_seq(s.push(x)) =~= explicit_seq(s).push(x));
            } else {
                assert(explicit_seq(s.push(x)) =~= explicit_seq(s).push(x));
            }
        }
    }
}

/// Positions `2..2+exi.len()` of a listing reply carry exactly the entries
/// `exi`, each under its own name, with its node's inode and cached type.
pub open spec fn entries_match(
    out: Seq<DirEntry>,
    fs: Fs,
    n: int,
    exi: Seq<(String, Dirent)>,
) -> bool {
    forall|jj: int|
        0 <= jj < exi.len() && 2 + jj < out.len() ==> out[2 + jj].name@ == (
        #[trigger] exi[jj]).0@ && out[2 + jj].ino == fs.inode_of(exi[jj].1.node as int) && out[2
            + jj].kind == fs.kind_of(exi[jj].1.node as int)
}

/// Appending one reply entry that carries the appended table entry keeps a
/// reply and a table matched.
pub proof fn lemma_entries_match_push(
    out0: Seq<DirEntry>,
    e: DirEntry,
    fs: Fs,
    n: int,
    exi0: Seq<(String, Dirent)>,
    x: (String, Dirent),
)
    requires
        entries_match(out0, fs, n, exi0),
        out0.len() == 2 + exi0.len(),
        e.name@ == x.0@,
        e.ino == fs.inode_of(x.1.node as int),
        e.kind == fs.kind_of(x.1.node as int),
    ensures
        entries_match(out0.push(e), fs, n, exi0.push(x)),
{
    assert forall|jj: int|
        0 <= jj < exi0.push(x).len() && 2 + jj < out0.push(e).len() implies #[trigger] out0.push(
        e,
    )[2 + jj].name@ == exi0.push(x)[jj].0@ && out0.push(e)[2 + jj].ino == fs.inode_of(
        exi0.push(x)[jj].1.node as int,
    ) && out0.push(e)[2 + jj].kind == fs.kind_of(exi0.push(x)[jj].1.node as int) by {
        if jj < exi0.len() {
            assert(out0.push(e)[2 + jj] == out0[2 + jj]);
            assert(exi0.push(x)[jj] == exi0[jj]);
            assert(out0[2 + jj].name@ == exi0[jj].0@ && out0[2 + jj].ino == fs.inode_of(
                exi0[jj].1.node as int,
            ) && out0[2 + jj].kind == fs.kind_of(exi0[jj].1.node as int));
        } else {
            assert(out0.push(e)[2 + jj] == e);
            assert(exi0.push(x)[jj] == x);
        }
    }
}

/// The names of a host listing that no explicit entry of directory `n`
/// covers, in listing order: exactly the names the listing phase emits and
/// registers.
pub open spec fn discovered_names(fs: Fs, n: int, l: Seq<String>) -> Seq<String>
    decreases l.len(),
{
    if l.len() == 0 {
        Seq::empty()
    } else if is_explicit_child(fs, n, l[0]@) {
        discovered_names(fs, n, l.drop_first())
    } else {
        seq![l[0]] + discovered_names(fs, n, l.drop_first())
    }
}

/// The discovered names of a listing grown by one entry.
pub proof fn lemma_discovered_names_push(fs: Fs, n: int, l: Seq<String>, x: String)
    ensures
        discovered_names(fs, n, l.push(x)) == (if is_explicit_child(fs, n, x@) {
            discovered_names(fs, n, l)
        } else {
            discovered_names(fs, n, l).push(x)
        }),
    decreases l.len(),
{
    reveal_with_fuel(discovered_names, 3);
    if l.len() == 0 {
        assert(l.push(x)[0] == x);
        assert(l.push(x).drop_first() =~= Seq::<String>::empty());
        assert(discovered_names(fs, n, l.push(x).drop_first()) =~= Seq::<String>::empty());
        if !is_explicit_child(fs, n, x@) {
            assert(discovered_names(fs, n, l.push(x)) =~= discovered_names(fs, n, l).push(x));
        }
    } else {
        assert(l.push(x)[0] == l[0]);
        assert(l.push(x).drop_first() =~= l.drop_first().push(x));
        lemma_discovered_names_push(fs, n, l.drop_first(), x);
        if !is_explicit_child(fs, n, x@) {
            if is_explicit_child(fs, n, l[0]@) {
                assert(discovered_names(fs, n, l.push(x)) =~= discovered_names(fs, n, l).push(x));
            } else {
                assert(discovered_names(fs, n, l.push(x)) =~= discovered_names(fs, n, l).push(x));
            }
        }
    }
}

/// A host-discovered listing entry is truthful: its name resolves through
/// the deduplication cache to a live node whose inode it reports, and its
/// type is what the host reported for that name.
pub open spec fn discovered_entry(fs: Fs, host: HostView, bp: Seq<Seq<char>>, e: DirEntry) -> bool {
    &&& fs.cache_get(bp.push(e.name@)) matches Some(c) && fs.valid(c as int) && e.ino
        == fs.inode_of(c as int)
    &&& host.stat_of(bp.push(e.name@)) matches StatResult::Found(m) && e.kind == m.kind && m.kind
        != FileKind::Symlink
}

/// The first error that enumerating listing `l` (from index `j` on) against
/// directory `n` would hit, if any: an entry whose name is already an
/// explicit mapping is skipped; any other entry must stat successfully to a
/// supported kind.
pub open spec fn listing_outcome(
    fs: Fs,
    n: int,
    l: Seq<String>,
    bp: Seq<Seq<char>>,
    host: HostView,
    j: int,
) -> Option<NodeError>
    decreases l.len() - j,
{
    if j < 0 || j >= l.len() {
        None
    } else if is_explicit_child(fs, n, l[j]@) {
        listing_outcome(fs, n, l, bp, host, j + 1)
    } else {
        match host.stat_of(bp.push(l[j]@)) {
            StatResult::Failed(he) => Some(NodeError::Host(he)),
            StatResult::Found(m) => if m.kind == FileKind::Symlink {
                Some(NodeError::Unsupported)
            } else {
                listing_outcome(fs, n, l, bp, host, j + 1)
            },
        }
    }
}

impl Fs {
    /// Resolves `name` under directory `n`: a known child is returned with a
    /// freshly refreshed attribute record; an unknown name under a scaffold
    /// fails with "no such entry"; an unknown name under a backed directory
    /// is stat'd on the host, registered as an implicit entry and returned
    /// with a freshly computed attribute record; stat failures propagate.
    pub fn lookup(&mut self, n: usize, name: &String, host: &HostView) -> (r: Result<
        (usize, FileAttr),
        NodeError,
    >)
        requires
            old(self).wf(),
            old(self).is_dir(n as int),
            old(self).next_inode < u64::MAX,
        ensures
            final(self).wf(),
            extends(*old(self), *final(self)),
            edges_preserved(*old(self), *final(self)),
            final(self).next_inode <= old(self).next_inode + 1,
            r matches Ok(p) ==> final(self).valid(p.0 as int),
            (match old(self).child_of(n as int, name@) {
                Some(e) => {
                    &&& (match r {
                        Ok(p) => p.0 == e.node && spec_getattr(*old(self), e.node as int, *host)
                            == Ok::<FileAttr, NodeError>(p.1),
                        Err(er) => spec_getattr(*old(self), e.node as int, *host) == Err::<
                            FileAttr,
                            NodeError,
                        >(er),
                    })
                    &&& final(self).nodes@.len() == old(self).nodes@.len()
                    &&& final(self).cache == old(self).cache
                    &&& final(self).next_inode == old(self).next_inode
                    &&& (forall|m: int|
                        0 <= m < old(self).nodes@.len() && m != e.node ==> final(self).nodes@[m]
                            == old(self).nodes@[m])
                    &&& final(self).children_of(e.node as int) == old(self).children_of(
                        e.node as int,
                    )
                    &&& final(self).underlying_of(e.node as int) == old(self).underlying_of(
                        e.node as int,
                    )
                },
                None => (match old(self).underlying_of(n as int) {
                    None => r == Err::<(usize, FileAttr), NodeError>(NodeError::NotFound)
                        && *final(self) == *old(self),
                    Some(bp) => (match host.stat_of(bp.push(name@)) {
                        StatResult::Failed(he) => r == Err::<(usize, FileAttr), NodeError>(
                            NodeError::Host(he),
                        ) && *final(self) == *old(self),
                        StatResult::Found(m) => if m.kind == FileKind::Symlink {
                            r == Err::<(usize, FileAttr), NodeError>(NodeError::Unsupported)
                                && *final(self) == *old(self)
                        } else {
                            (match r {
                                Ok(p) => {
                                    &&& p.1 == spec_attr_from_meta(
                                        final(self).inode_of(p.0 as int),
                                        m,
                                    )
                                    &&& final(self).cache_get(bp.push(name@)) == Some(p.0)
                                    &&& final(self).child_of(n as int, name@) == Some(
                                        Dirent { node: p.0, explicit_mapping: false },
                                    )
                                    &&& grew_only(*old(self), *final(self))
                                    &&& final(self).nodes@.len() <= old(self).nodes@.len() + 1
                                    &&& (forall|m2: int|
                                        0 <= m2 < old(self).nodes@.len() && m2 != n
                                            ==> #[trigger] final(self).nodes@[m2] == old(
                                            self,
                                        ).nodes@[m2])
                                    &&& (match old(self).cache_get(bp.push(name@)) {
                                        Some(c) => p.0 == c,
                                        None => {
                                            &&& final(self).is_dir(p.0 as int) == (m.kind
                                                == FileKind::Directory)
                                            &&& final(self).kind_of(p.0 as int) == m.kind
                                            &&& final(self).underlying_of(p.0 as int) == Some(
                                                bp.push(name@),
                                            )
                                            &&& final(self).writable_of(p.0 as int) == old(
                                                self,
                                            ).writable_of(n as int)
                                        },
                                    })
                                },
                                Err(_) => false,
                            })
                        },
                    }),
                }),
            }),
    {
        let ghost pre = *self;
        let existing = match self.node(n) {
            Node::Dir(d) => find_child(&d.state.children, name),
            Node::File(_) => unreached(),
        };
        match existing {
            Some(e) => {
                proof {
                    assert(pre.wf_node(n as int));
                    lemma_child_lookup_is_entry(pre.children_of(n as int), name@, e);
                    assert((e.node as int) < pre.nodes@.len());
                }
                match self.getattr(e.node, host) {
                    Ok(a) => Ok((e.node, a)),
                    Err(er) => Err(er),
                }
            },
            None => {
                let parent_writable = self.node(n).writable();
                let child_path = match self.node(n) {
                    Node::Dir(d) => match &d.state.underlying_path {
                        None => {
                            proof {
                                lemma_extends_refl(*self);
                            }
                            return Err(NodeError::NotFound);
                        },
                        Some(bp) => path_join(bp, name),
                    },
                    Node::File(_) => unreached(),
                };
                match host.stat(&child_path) {
                    StatResult::Failed(he) => {
                        proof {
                            lemma_extends_refl(*self);
                        }
                        Err(NodeError::Host(he))
                    },
                    StatResult::Found(m) => {
                        if matches!(m.kind, FileKind::Symlink) {
                            proof {
                                lemma_extends_refl(*self);
                            }
                            Err(NodeError::Unsupported)
                        } else {
                            let c = self.get_or_create(&child_path, &m, parent_writable);
                            let ghost mid = *self;
                            proof {
                                assert(mid.children_of(n as int) == pre.children_of(n as int));
                                assert(mid.child_of(n as int, name@) is None);
                                assert(mid.is_dir(n as int));
                            }
                            let ino = self.node(c).inode();
                            let a = attr_from_meta(ino, &m);
                            let de = Dirent { node: c, explicit_mapping: false };
                            self.push_child(n, name.clone(), de);
                            proof {
                                lemma_extends_trans(pre, mid, *self);
                                lemma_edges_preserved_trans(pre, mid, *self);
                                lemma_grew_only_trans(pre, mid, *self);
                                assert(self.cache == mid.cache);
                                assert(self.cache_get(path_view(child_path@)) == Some(c));
                                assert(self.child_of(n as int, name@) == Some(de));
                                if pre.cache_get(path_view(child_path@)) is None {
                                    assert(c != n);
                                    assert(self.nodes@[c as int] == mid.nodes@[c as int]);
                                }
                                assert(self.inode_of(c as int) == mid.inode_of(c as int));
                                assert forall|m2: int|
                                    0 <= m2 < pre.nodes@.len() && m2 != n implies self.nodes@[m2]
                                    == pre.nodes@[m2] by {
                                    assert(mid.nodes@[m2] == pre.nodes@[m2]);
                                }
                            }
                            Ok((c, a))
                        }
                    },
                }
            },
        }
    }

    /// Lists directory `n`: `.` and `..` at positions 0 and 1, then every
    /// explicitly mapped child in table order, then — for a backed directory
    /// — the host directory's entries, skipping any name an explicit mapping
    /// already covers; positions are consecutive integers from 0 with no
    /// gaps.  Host entries are resolved through the deduplication cache and
    /// newly discovered names are registered as implicit entries.  A
    /// symbolic link among the host entries aborts the listing with
    /// `Unsupported`: the symbolic-link node variant is outside this layer,
    /// and the listing deliberately fails rather than silently skip or
    /// misrepresent such an entry.
    pub fn readdir(&mut self, n: usize, host: &HostView) -> (r: Result<Vec<DirEntry>, NodeError>)
        requires
            old(self).wf(),
            old(self).is_dir(n as int),
            (match old(self).underlying_of(n as int) {
                Some(bp) => match host.listing_of(bp) {
                    Some(l) => {
                        &&& old(self).next_inode + l.len() <= u64::MAX
                        &&& (forall|k1: int, k2: int| 0 <= k1 < k2 < l.len() ==> l[k1]@ != l[k2]@)
                        &&& (forall|k: int|
                            0 <= k < l.len() ==> (#[trigger] l[k]@) != "."@ && l[k]@ != ".."@)
                    },
                    None => true,
                },
                None => true,
            }),
        ensures
            final(self).wf(),
            extends(*old(self), *final(self)),
            edges_preserved(*old(self), *final(self)),
            grew_only(*old(self), *final(self)),
            old(self).underlying_of(n as int) is None ==> *final(self) == *old(self),
            forall|m: int|
                0 <= m < old(self).nodes@.len() && m != n ==> final(self).nodes@[m] == old(
                    self,
                ).nodes@[m],
            (match old(self).underlying_of(n as int) {
                None => r is Ok,
                Some(bp) => (match host.listing_of(bp) {
                    None => r == Err::<Vec<DirEntry>, NodeError>(NodeError::Host(
                        crate::errors::ENOENT,
                    )),
                    Some(l) => ((r is Ok) == (listing_outcome(
                        *old(self),
                        n as int,
                        l,
                        bp,
                        *host,
                        0,
                    ) is None)) && (r matches Err(e) ==> listing_outcome(
                        *old(self),
                        n as int,
                        l,
                        bp,
                        *host,
                        0,
                    ) == Some(e)),
                }),
            }),
            r matches Ok(v) ==> ({
                let ex = explicit_seq(old(self).children_of(n as int));
                &&& v@.len() >= 2
                &&& v@[0].ino == old(self).inode_of(n as int) && v@[0].kind == FileKind::Directory
                    && v@[0].name@ == "."@
                &&& v@[1].ino == old(self).parent_of(n as int) && v@[1].kind
                    == FileKind::Directory && v@[1].name@ == ".."@
                &&& (forall|k: int| 0 <= k < v@.len() ==> #[trigger] v@[k].pos == k)
                &&& v@.len() >= 2 + ex.len()
                &&& entries_match(v@, *old(self), n as int, ex)
                &&& (forall|k: int|
                    2 + ex.len() <= k < v@.len() ==> !is_explicit_child(
                        *old(self),
                        n as int,
                        #[trigger] v@[k].name@,
                    ))
                &&& (old(self).underlying_of(n as int) matches Some(bp) ==> forall|k: int|
                    2 + ex.len() <= k < v@.len() ==> discovered_entry(
                        *final(self),
                        *host,
                        bp,
                        #[trigger] v@[k],
                    ))
                &&& (old(self).underlying_of(n as int) is None ==> v@.len() == 2 + ex.len())
            }),
            r matches Ok(v) ==> (match old(self).underlying_of(n as int) {
                Some(bp) => match host.listing_of(bp) {
                    Some(l) => ({
                        let ex = explicit_seq(old(self).children_of(n as int));
                        let dn = discovered_names(*old(self), n as int, l);
                        &&& v@.len() == 2 + ex.len() + dn.len()
                        &&& (forall|jj: int|
                            0 <= jj < dn.len() ==> (#[trigger] v@[2 + ex.len() + jj]).name@
                                == dn[jj]@)
                        &&& (forall|jj: int|
                            0 <= jj < dn.len() ==> (final(self).child_of(
                                n as int,
                                (#[trigger] dn[jj])@,
                            ) matches Some(e) && !e.explicit_mapping))
                    }),
                    None => true,
                },
                None => true,
            }),
    {
        let ghost pre = *self;
        let ghost ex = explicit_seq(pre.children_of(n as int));
        let ino_self = self.node(n).inode();
        let parent = match self.node(n) {
            Node::Dir(d) => d.state.parent,
            Node::File(_) => unreached(),
        };
        let mut out: Vec<DirEntry> = Vec::new();
        out.push(DirEntry { ino: ino_self, pos: 0, kind: FileKind::Directory, name: ".".to_owned() });
        out.push(
            DirEntry { ino: parent, pos: 1, kind: FileKind::Directory, name: "..".to_owned() },
        );
        let n_children = match self.node(n) {
            Node::Dir(d) => d.state.children.len(),
            Node::File(_) => unreached(),
        };
        let mut ci: usize = 0;
        proof {
            assert(pre.children_of(n as int).take(0) =~= Seq::<(String, Dirent)>::empty());
        }
        while ci < n_children
            invariant
                *self == pre,
                pre.wf(),
                pre.is_dir(n as int),
                ci <= n_children,
                n_children == pre.children_of(n as int).len(),
                out@.len() == 2 + explicit_seq(pre.children_of(n as int).take(ci as int)).len(),
                out@[0].ino == pre.inode_of(n as int) && out@[0].kind == FileKind::Directory
                    && out@[0].name@ == "."@,
                out@[1].ino == pre.parent_of(n as int) && out@[1].kind == FileKind::Directory
                    && out@[1].name@ == ".."@,
                forall|k: int| 0 <= k < out@.len() ==> #[trigger] out@[k].pos == k,
                entries_match(
                    out@,
                    pre,
                    n as int,
                    explicit_seq(pre.children_of(n as int).take(ci as int)),
                ),
            decreases n_children - ci,
        {
            let (nm, de) = match self.node(n) {
                Node::Dir(d) => {
                    let entry = &d.state.children[ci];
                    (entry.0.clone(), entry.1)
                },
                Node::File(_) => unreached(),
            };
            proof {
                assert(pre.wf_node(n as int));
                assert(pre.children_of(n as int)[ci as int].1 == de);
                assert((de.node as int) < pre.nodes@.len());
                assert(pre.children_of(n as int).take(ci as int + 1) =~= pre.children_of(
                    n as int,
                ).take(ci as int).push(pre.children_of(n as int)[ci as int]));
                lemma_explicit_seq_push(
                    pre.children_of(n as int).take(ci as int),
                    pre.children_of(n as int)[ci as int],
                );
            }
            let ghost out_before = out@;
            let ghost exi_old = explicit_seq(pre.children_of(n as int).take(ci as int));
            let ghost exi_new = explicit_seq(pre.children_of(n as int).take(ci as int + 1));
            if de.explicit_mapping {
                let k = self.node(de.node).file_type_cached();
                let ino = self.node(de.node).inode();
                let pos = out.len() as u64;
                out.push(DirEntry { ino, pos, kind: k, name: nm });
            }
            proof {
                assert(entries_match(out_before, pre, n as int, exi_old));
                assert(out_before.len() == 2 + exi_old.len());
                if de.explicit_mapping {
                    assert(exi_new == exi_old.push(pre.children_of(n as int)[ci as int]));
                    assert(out@ == out_before.push(out@.last()));
                    assert(out@.last().name@ == pre.children_of(n as int)[ci as int].0@);
                    lemma_entries_match_push(
                        out_before,
                        out@.last(),
                        pre,
                        n as int,
                        exi_old,
                        pre.children_of(n as int)[ci as int],
                    );
                    assert(entries_match(out@, pre, n as int, exi_new));
                } else {
                    assert(exi_new == exi_old);
                }
            }
            ci = ci + 1;
        }
        proof {
            assert(pre.children_of(n as int).take(n_children as int) =~= pre.children_of(n as int));
            assert(out@.len() == 2 + ex.len());
        }
        let backing: Option<Vec<String>> = match self.node(n) {
            Node::Dir(d) => match &d.state.underlying_path {
                None => None,
                Some(bp) => Some(clone_path(bp)),
            },
            Node::File(_) => unreached(),
        };
        let bp = match backing {
            None => {
                proof {
                    lemma_extends_refl(*self);
                    lemma_grew_only_same(*self, *self);
                }
                return Ok(out);
            },
            Some(bp) => bp,
        };
        let ghost bpv = path_view(bp@);
        let names: &Vec<String> = match host.listing(&bp) {
            None => {
                proof {
                    lemma_extends_refl(*self);
                    lemma_grew_only_same(*self, *self);
                }
                return Err(NodeError::Host(crate::errors::ENOENT));
            },
            Some(l) => l,
        };
        let ghost lv = names@;
        let mut j: usize = 0;
        proof {
            lemma_extends_refl(*self);
            lemma_grew_only_same(*self, *self);
            assert(lv.take(0) =~= Seq::<String>::empty());
        }
        while j < names.len()
            invariant
                pre == *old(self),
                self.wf(),
                extends(pre, *self),
                edges_preserved(pre, *self),
                pre.wf(),
                pre.is_dir(n as int),
                ex == explicit_seq(pre.children_of(n as int)),
                self.is_dir(n as int),
                j <= lv.len(),
                lv == names@,
                bpv == path_view(bp@),
                pre.underlying_of(n as int) == Some(bpv),
                host.listing_of(bpv) == Some(lv),
                pre.next_inode + lv.len() <= u64::MAX,
                self.next_inode <= pre.next_inode + j,
                listing_outcome(pre, n as int, lv, bpv, *host, j as int) == listing_outcome(
                    pre,
                    n as int,
                    lv,
                    bpv,
                    *host,
                    0,
                ),
                forall|nm2: Seq<char>|
                    is_explicit_child(*self, n as int, nm2) == is_explicit_child(
                        pre,
                        n as int,
                        nm2,
                    ),
                out@.len() >= 2 + ex.len(),
                out@[0].ino == pre.inode_of(n as int) && out@[0].kind == FileKind::Directory
                    && out@[0].name@ == "."@,
                out@[1].ino == pre.parent_of(n as int) && out@[1].kind == FileKind::Directory
                    && out@[1].name@ == ".."@,
                forall|k: int| 0 <= k < out@.len() ==> #[trigger] out@[k].pos == k,
                entries_match(out@, pre, n as int, ex),
                forall|k: int|
                    2 + ex.len() <= k < out@.len() ==> !is_explicit_child(
                        pre,
                        n as int,
                        #[trigger] out@[k].name@,
                    ),
                forall|k: int|
                    2 + ex.len() <= k < out@.len() ==> discovered_entry(
                        *self,
                        *host,
                        bpv,
                        #[trigger] out@[k],
                    ),
                grew_only(pre, *self),
                forall|m: int|
                    0 <= m < pre.nodes@.len() && m != n ==> self.nodes@[m] == pre.nodes@[m],
                out@.len() == 2 + ex.len() + discovered_names(pre, n as int, lv.take(j as int)).len(),
                forall|jj: int|
                    0 <= jj < discovered_names(pre, n as int, lv.take(j as int)).len() ==> (
                    #[trigger] out@[2 + ex.len() + jj]).name@ == discovered_names(
                        pre,
                        n as int,
                        lv.take(j as int),
                    )[jj]@,
                forall|jj: int|
                    0 <= jj < discovered_names(pre, n as int, lv.take(j as int)).len() ==> (
                    self.child_of(
                        n as int,
                        (#[trigger] discovered_names(pre, n as int, lv.take(j as int))[jj])@,
                    ) matches Some(e) && !e.explicit_mapping),
            decreases lv.len() - j,
        {
            let ghost iter_pre = *self;
            let ghost out_pre = out@;
            let ghost dn_old = discovered_names(pre, n as int, lv.take(j as int));
            let ghost dn_new = discovered_names(pre, n as int, lv.take(j as int + 1));
            proof {
                assert(lv.take(j as int + 1) =~= lv.take(j as int).push(lv[j as int]));
                lemma_discovered_names_push(pre, n as int, lv.take(j as int), lv[j as int]);
            }
            let nm = &names[j];
            let existing = match self.node(n) {
                Node::Dir(d) => find_child(&d.state.children, nm),
                Node::File(_) => unreached(),
            };
            let skip = match existing {
                Some(e) => e.explicit_mapping,
                None => false,
            };
            if !skip {
                proof {
                    assert(!is_explicit_child(*self, n as int, nm@));
                    assert(!is_explicit_child(pre, n as int, nm@));
                }
                let child_path = path_join(&bp, nm);
                match host.stat(&child_path) {
                    StatResult::Failed(he) => {
                        proof {
                            assert(lv[j as int] == names@[j as int]);
                            assert(listing_outcome(pre, n as int, lv, bpv, *host, j as int)
                                == Some(NodeError::Host(he)));
                        }
                        return Err(NodeError::Host(he));
                    },
                    StatResult::Found(m) => {
                        if matches!(m.kind, FileKind::Symlink) {
                            proof {
                                assert(lv[j as int] == names@[j as int]);
                                assert(listing_outcome(pre, n as int, lv, bpv, *host, j as int)
                                    == Some(NodeError::Unsupported));
                            }
                            return Err(NodeError::Unsupported);
                        }
                        let parent_writable = self.node(n).writable();
                        let ghost before = *self;
                        let c = self.get_or_create(&child_path, &m, parent_writable);
                        let ghost mid = *self;
                        let ino = self.node(c).inode();
                        let pos = out.len() as u64;
                        out.push(DirEntry { ino, pos, kind: m.kind, name: nm.clone() });
                        match existing {
                            None => {
                                proof {
                                    assert(mid.children_of(n as int) == before.children_of(
                                        n as int,
                                    ));
                                    assert(mid.child_of(n as int, nm@) is None);
                                    assert(mid.is_dir(n as int));
                                }
                                let de = Dirent { node: c, explicit_mapping: false };
                                self.push_child(n, nm.clone(), de);
                                proof {
                                    lemma_extends_trans(before, mid, *self);
                                    lemma_edges_preserved_trans(before, mid, *self);
                                    lemma_extends_trans(pre, before, *self);
                                    lemma_edges_preserved_trans(pre, before, *self);
                                    assert forall|nm2: Seq<char>|
                                        is_explicit_child(*self, n as int, nm2)
                                            == is_explicit_child(pre, n as int, nm2) by {
                                        if nm2 == nm@ {
                                            assert(self.child_of(n as int, nm2) == Some(de));
                                        } else {
                                            assert(self.child_of(n as int, nm2) == mid.child_of(
                                                n as int,
                                                nm2,
                                            ));
                                        }
                                    }
                                }
                            },
                            Some(_) => {
                                proof {
                                    lemma_extends_trans(pre, before, *self);
                                    lemma_edges_preserved_trans(pre, before, *self);
                                    assert forall|nm2: Seq<char>|
                                        is_explicit_child(*self, n as int, nm2)
                                            == is_explicit_child(pre, n as int, nm2) by {
                                        assert(self.children_of(n as int) == before.children_of(
                                            n as int,
                                        ));
                                    }
                                }
                            },
                        }
                        proof {
                            assert(extends(iter_pre, *self));
                            assert(self.cache_get(bpv.push(nm@)) == Some(c));
                            assert(self.inode_of(c as int) == mid.inode_of(c as int));
                            assert forall|k: int|
                                2 + ex.len() <= k < out@.len() implies discovered_entry(
                                *self,
                                *host,
                                bpv,
                                #[trigger] out@[k],
                            ) by {
                                if k < out_pre.len() {
                                    assert(out@[k] == out_pre[k]);
                                    assert(discovered_entry(iter_pre, *host, bpv, out_pre[k]));
                                    let cprev = iter_pre.cache_get(
                                        bpv.push(out_pre[k].name@),
                                    )->Some_0;
                                    assert(iter_pre.cache_get(bpv.push(out_pre[k].name@)) == Some(
                                        cprev,
                                    ));
                                    assert(self.cache_get(bpv.push(out_pre[k].name@)) == Some(
                                        cprev,
                                    ));
                                    assert(node_extends(
                                        iter_pre.nodes@[cprev as int],
                                        self.nodes@[cprev as int],
                                    ));
                                } else {
                                    assert(out@[k] == out@.last());
                                    assert(out@[k].name@ == nm@);
                                }
                            }
                        }
                        proof {
                            assert(lv[j as int] == names@[j as int]);
                            assert(!is_explicit_child(pre, n as int, lv[j as int]@));
                            assert(dn_new == dn_old.push(lv[j as int]));
                            assert(mid.children_of(n as int) == iter_pre.children_of(n as int));
                            assert forall|jj: int|
                                0 <= jj < dn_new.len() implies (#[trigger] out@[2 + ex.len()
                                + jj]).name@ == dn_new[jj]@ by {
                                if jj < dn_old.len() {
                                    assert(out@[2 + ex.len() + jj] == out_pre[2 + ex.len() + jj]);
                                    assert(out_pre[2 + ex.len() + jj].name@ == dn_old[jj]@);
                                    assert(dn_new[jj] == dn_old[jj]);
                                } else {
                                    assert(out@[2 + ex.len() + jj] == out@.last());
                                    assert(out@.last().name@ == nm@);
                                    assert(dn_new[jj] == lv[j as int]);
                                }
                            }
                            assert forall|jj: int|
                                0 <= jj < dn_new.len() implies (self.child_of(
                                n as int,
                                (#[trigger] dn_new[jj])@,
                            ) matches Some(e) && !e.explicit_mapping) by {
                                if jj < dn_old.len() {
                                    assert(dn_new[jj] == dn_old[jj]);
                                    assert(iter_pre.child_of(n as int, dn_old[jj]@) matches Some(
                                        e,
                                    ) && !e.explicit_mapping);
                                    assert(child_lookup(
                                        mid.children_of(n as int),
                                        dn_old[jj]@,
                                    ) == child_lookup(iter_pre.children_of(n as int), dn_old[jj]@));
                                    match existing {
                                        None => {
                                            assert(child_lookup(
                                                self.children_of(n as int),
                                                dn_old[jj]@,
                                            ) == child_lookup(
                                                mid.children_of(n as int),
                                                dn_old[jj]@,
                                            ));
                                        },
                                        Some(_) => {
                                            assert(self.children_of(n as int) == mid.children_of(
                                                n as int,
                                            ));
                                        },
                                    }
                                } else {
                                    assert(dn_new[jj] == lv[j as int]);
                                    match existing {
                                        None => {
                                            assert(self.child_of(n as int, nm@) == Some(
                                                Dirent { node: c, explicit_mapping: false },
                                            ));
                                        },
                                        Some(e0) => {
                                            assert(!e0.explicit_mapping);
                                            assert(self.children_of(n as int) == iter_pre
                                                .children_of(n as int));
                                            assert(self.child_of(n as int, nm@) == Some(e0));
                                        },
                                    }
                                }
                            }
                            assert forall|m: int|
                                0 <= m < pre.nodes@.len() && m != n implies self.nodes@[m]
                                == pre.nodes@[m] by {
                                assert(iter_pre.nodes@[m] == pre.nodes@[m]);
                                assert(mid.nodes@[m] == iter_pre.nodes@[m]);
                            }
                            match existing {
                                None => {
                                    lemma_grew_only_trans(iter_pre, mid, *self);
                                    lemma_grew_only_trans(pre, iter_pre, *self);
                                },
                                Some(_) => {
                                    lemma_grew_only_trans(pre, iter_pre, *self);
                                },
                            }
                        }
                    },
                }
            }
            proof {
                assert(lv[j as int] == names@[j as int]);
                if skip {
                    assert(dn_new == dn_old);
                }
                if skip {
                    assert(is_explicit_child(*self, n as int, lv[j as int]@));
                    assert(is_explicit_child(pre, n as int, lv[j as int]@));
                }
                assert(listing_outcome(pre, n as int, lv, bpv, *host, j as int) == listing_outcome(
                    pre,
                    n as int,
                    lv,
                    bpv,
                    *host,
                    j as int + 1,
                ));
            }
            j = j + 1;
        }
        proof {
            assert(listing_outcome(pre, n as int, lv, bpv, *host, j as int) is None);
            assert(lv.take(j as int) =~= lv);
        }
        Ok(out)
    }
}

/// The outcome of scaffold-child creation when the host offers no directory
/// to map: a fresh scaffold directory owned by the given user, stamped with
/// the given time, child of `n`.
pub open spec fn scaffold_result(
    pre: Fs,
    post: Fs,
    n: int,
    r: int,
    now: Timespec,
    uid: u32,
    gid: u32,
) -> bool {
    &&& post.underlying_of(r) is None
    &&& !post.writable_of(r)
    &&& post.attr_of(r) == spec_scaffold_attr(pre.next_inode, now, uid, gid)
    &&& post.parent_of(r) == pre.inode_of(n)
}

} // verus!
