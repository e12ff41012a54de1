//! File nodes and handles.  A file node stands for any host object that is
//! neither a directory nor a symbolic link; it owns at most one host-backing
//! path and can be opened into a handle.  Deleting a file clears its backing
//! path, an irreversible one-way transition.

use vstd::prelude::*;

use crate::attrs::{
    apply_delta, attr_from_meta, spec_apply_delta, spec_attr_from_meta, AttrDelta, FileAttr,
    FileKind, HostMeta,
};
use crate::errors::{NodeError, EINVAL, EPERM};
use crate::host::{clone_path, path_view};
use crate::tree::{opt_path_view, File, Fs, MutableFile, Node};

verus! {

/// Can a file node represent a host object of kind `k`?
pub open spec fn file_kind_supported(k: FileKind) -> bool {
    k != FileKind::Directory && k != FileKind::Symlink
}

impl File {
    /// Returns whether a file node can represent the given host kind:
    /// everything but directories and symbolic links.
    pub fn supports_type(k: FileKind) -> (r: bool)
        ensures
            r == file_kind_supported(k),
    {
        !matches!(k, FileKind::Directory) && !matches!(k, FileKind::Symlink)
    }

    /// Creates a file node backed by the host object at `underlying_path`,
    /// whose already-stat'd metadata is `meta`.  Metadata of an unsupported
    /// kind is a contract violation and is reported, not accepted.
    pub fn new_mapped(
        inode: u64,
        underlying_path: &Vec<String>,
        meta: &HostMeta,
        writable: bool,
    ) -> (r: Result<File, NodeError>)
        ensures
            match r {
                Ok(f) => {
                    &&& file_kind_supported(meta.kind)
                    &&& f.inode == inode
                    &&& f.writable == writable
                    &&& opt_path_view(f.state.underlying_path) == Some(path_view(
                        underlying_path@,
                    ))
                    &&& f.state.attr == spec_attr_from_meta(inode, *meta)
                },
                Err(e) => !file_kind_supported(meta.kind) && e == NodeError::InvalidOperation,
            },
    {
        if !File::supports_type(meta.kind) {
            return Err(NodeError::InvalidOperation);
        }
        let attr = attr_from_meta(inode, meta);
        Ok(
            File {
                inode,
                writable,
                state: MutableFile {
                    underlying_path: Some(clone_path(underlying_path)),
                    attr,
                },
            },
        )
    }
}

/// Access-mode bits of host open flags.
pub const O_ACCMODE: u32 = 3;

/// Access mode: read only.
pub const O_RDONLY: u32 = 0;

/// Access mode: write only.
pub const O_WRONLY: u32 = 1;

/// Access mode: read and write.
pub const O_RDWR: u32 = 2;

/// What an `open` call asks the host to do: open this path, for reading
/// and/or writing.  The surrounding program performs the actual host open.
#[derive(Clone, PartialEq, Eq, Debug)]
pub struct OpenRequest {
    pub path: Vec<String>,
    pub read: bool,
    pub write: bool,
}

impl Fs {
    /// Opens file `n`: translates the open flags into host open semantics,
    /// respecting the node's writability flag, and fails — before any host
    /// work — if the file has been deleted.
    pub fn open(&self, n: usize, flags: u32) -> (r: Result<OpenRequest, NodeError>)
        requires
            self.wf(),
            self.is_file(n as int),
        ensures
            ({
                let acc = flags & O_ACCMODE;
                let wants_write = acc == O_WRONLY || acc == O_RDWR;
                if acc == O_ACCMODE {
                    r matches Err(e) && e == NodeError::Host(EINVAL)
                } else if wants_write && !self.writable_of(n as int) {
                    r matches Err(e) && e == NodeError::Host(EPERM)
                } else {
                    match self.underlying_of(n as int) {
                        None => r matches Err(e) && e == NodeError::InvalidOperation,
                        Some(p) => r matches Ok(q) && path_view(q.path@) == p && q.read == (acc
                            == O_RDONLY || acc == O_RDWR) && q.write == wants_write,
                    }
                }
            }),
    {
        let acc = flags & O_ACCMODE;
        if acc == O_ACCMODE {
            return Err(NodeError::Host(EINVAL));
        }
        let wants_write = acc == O_WRONLY || acc == O_RDWR;
        let writable = self.node(n).writable();
        if wants_write && !writable {
            return Err(NodeError::Host(EPERM));
        }
        match self.node(n) {
            Node::File(f) => match &f.state.underlying_path {
                None => Err(NodeError::InvalidOperation),
                Some(p) => Ok(
                    OpenRequest {
                        path: clone_path(p),
                        read: acc == O_RDONLY || acc == O_RDWR,
                        write: wants_write,
                    },
                ),
            },
            Node::Dir(_) => unreached(),
        }
    }

    /// Deletes file `n`: clears its host-backing path, an irreversible
    /// one-way transition.  Deleting twice, or deleting a node that never
    /// had a backing path, is a contract violation and is reported.
    pub fn delete(&mut self, n: usize) -> (r: Result<(), NodeError>)
        requires
            old(self).wf(),
            old(self).is_file(n as int),
        ensures
            final(self).wf(),
            crate::tree::extends(*old(self), *final(self)),
            crate::tree::edges_preserved(*old(self), *final(self)),
            final(self).nodes@.len() == old(self).nodes@.len(),
            final(self).cache == old(self).cache,
            final(self).next_inode == old(self).next_inode,
            forall|m: int|
                0 <= m < old(self).nodes@.len() && m != n ==> final(self).nodes@[m] == old(
                    self,
                ).nodes@[m],
            (match old(self).underlying_of(n as int) {
                Some(_) => r == Ok::<(), NodeError>(()) && final(self).underlying_of(n as int)
                    is None && final(self).attr_of(n as int) == old(self).attr_of(n as int),
                None => r == Err::<(), NodeError>(NodeError::InvalidOperation) && *final(self)
                    == *old(self),
            }),
    {
        let ghost pre = *self;
        let backed = match self.node(n) {
            Node::File(f) => f.state.underlying_path.is_some(),
            Node::Dir(_) => unreached(),
        };
        if !backed {
            proof {
                crate::tree::lemma_extends_refl(*self);
            }
            return Err(NodeError::InvalidOperation);
        }
        match &mut self.nodes[n] {
            Node::File(f) => {
                f.state.underlying_path = None;
            },
            Node::Dir(_) => {
                proof {
                    assert(false);
                }
            },
        }
        proof {
            assert(self.nodes@ =~= pre.nodes@.update(n as int, self.nodes@[n as int]));
            assert(pre.wf_node(n as int));
            assert(self.wf_node(n as int));
            assert(crate::tree::node_extends(pre.nodes@[n as int], self.nodes@[n as int]));
            assert(self.children_of(n as int) == pre.children_of(n as int));
            crate::tree::lemma_single_node_update(pre, *self, n as int);
        }
        Ok(())
    }

    /// Applies a partial attribute change to file `n`'s cached record and
    /// returns the merged record.  Deleting a file does not forbid attribute
    /// changes; the surrounding program applies the change to the host path
    /// first when the file is still backed.
    pub fn setattr(&mut self, n: usize, delta: &AttrDelta) -> (r: FileAttr)
        requires
            old(self).wf(),
            old(self).is_file(n as int),
        ensures
            final(self).wf(),
            crate::tree::extends(*old(self), *final(self)),
            crate::tree::edges_preserved(*old(self), *final(self)),
            final(self).nodes@.len() == old(self).nodes@.len(),
            final(self).cache == old(self).cache,
            final(self).next_inode == old(self).next_inode,
            forall|m: int|
                0 <= m < old(self).nodes@.len() && m != n ==> final(self).nodes@[m] == old(
                    self,
                ).nodes@[m],
            r == spec_apply_delta(old(self).attr_of(n as int), *delta),
            final(self).attr_of(n as int) == r,
            final(self).underlying_of(n as int) == old(self).underlying_of(n as int),
    {
        let ghost pre = *self;
        let merged = match self.node(n) {
            Node::File(f) => apply_delta(&f.state.attr, delta),
            Node::Dir(_) => unreached(),
        };
        match &mut self.nodes[n] {
            Node::File(f) => {
                f.state.attr = merged;
            },
            Node::Dir(_) => {
                proof {
                    assert(false);
                }
            },
        }
        proof {
            assert(self.nodes@ =~= pre.nodes@.update(n as int, self.nodes@[n as int]));
            assert(pre.wf_node(n as int));
            assert(self.wf_node(n as int));
            assert(crate::tree::node_extends(pre.nodes@[n as int], self.nodes@[n as int]));
            assert(self.children_of(n as int) == pre.children_of(n as int));
            crate::tree::lemma_single_node_update(pre, *self, n as int);
        }
        merged
    }
}

/// The largest byte count a write reply can carry.
pub const MAX_WRITE: usize = 4294967295;

/// Truncates a positioned-read buffer to the byte count the host actually
/// read: a short read at end-of-file yields a shorter buffer, never an
/// error.
pub fn read_result(buffer: Vec<u8>, nread: usize) -> (r: Vec<u8>)
    requires
        nread <= buffer@.len(),
    ensures
        r@ == buffer@.subrange(0, nread as int),
{
    let mut b = buffer;
    b.truncate(nread);
    b
}

/// Caps positioned-write input at the largest representable reply count:
/// oversized input is silently truncated to `MAX_WRITE` bytes, never
/// rejected.
pub fn clamp_write_data(data: &[u8]) -> (r: &[u8])
    ensures
        data@.len() <= MAX_WRITE ==> r@ == data@,
        data@.len() > MAX_WRITE ==> r@ == data@.subrange(0, MAX_WRITE as int),
        r@.len() <= MAX_WRITE,
{
    if data.len() > MAX_WRITE {
        vstd::slice::slice_subrange(data, 0, MAX_WRITE)
    } else {
        data
    }
}

/// Narrows a host write count to the reply's count type; sound because the
/// input was capped at `MAX_WRITE` beforehand.
pub fn write_result_count(nwritten: usize) -> (r: u32)
    requires
        nwritten <= MAX_WRITE,
    ensures
        r == nwritten,
{
    nwritten as u32
}

} // verus!
