//! Attribute records: the kernel-facing view of a node's metadata, the plain
//! form of a host `stat` answer, and the translation between the two.

use vstd::prelude::*;

verus! {

/// Kind of a filesystem object, as the host reports it and as the kernel
/// record carries it.
#[derive(Clone, Copy, PartialEq, Eq, Structural, Debug)]
pub enum FileKind {
    Directory,
    Regular,
    Symlink,
    BlockDevice,
    CharDevice,
    NamedPipe,
    Socket,
}

/// A point in time, seconds and nanoseconds.
#[derive(Clone, Copy, PartialEq, Eq, Structural, Debug)]
pub struct Timespec {
    pub sec: i64,
    pub nsec: i32,
}

/// The kernel-facing attribute record exposed by `getattr`/`setattr`,
/// mirroring the standard stat fields.
#[derive(Clone, Copy, PartialEq, Eq, Structural, Debug)]
pub struct FileAttr {
    pub ino: u64,
    pub kind: FileKind,
    pub nlink: u32,
    pub size: u64,
    pub blocks: u64,
    pub atime: Timespec,
    pub mtime: Timespec,
    pub ctime: Timespec,
    pub crtime: Timespec,
    pub perm: u16,
    pub uid: u32,
    pub gid: u32,
    pub rdev: u32,
    pub flags: u32,
}

/// Host filesystem metadata for one path, already reduced to plain values.
#[derive(Clone, Copy, PartialEq, Eq, Structural, Debug)]
pub struct HostMeta {
    pub kind: FileKind,
    pub nlink: u32,
    pub size: u64,
    pub blocks: u64,
    pub atime: Timespec,
    pub mtime: Timespec,
    pub ctime: Timespec,
    pub crtime: Timespec,
    pub perm: u16,
    pub uid: u32,
    pub gid: u32,
    pub rdev: u32,
}

/// What `attr_from_meta` returns: the host metadata copied field by field
/// into the kernel record, under the node's own inode.
pub open spec fn spec_attr_from_meta(ino: u64, meta: HostMeta) -> FileAttr {
    FileAttr {
        ino,
        kind: meta.kind,
        nlink: meta.nlink,
        size: meta.size,
        blocks: meta.blocks,
        atime: meta.atime,
        mtime: meta.mtime,
        ctime: meta.ctime,
        crtime: meta.crtime,
        perm: meta.perm,
        uid: meta.uid,
        gid: meta.gid,
        rdev: meta.rdev,
        flags: 0,
    }
}

/// Translates host metadata into the kernel-facing attribute record for the
/// node with inode `ino`.
pub fn attr_from_meta(ino: u64, meta: &HostMeta) -> (r: FileAttr)
    ensures
        r == spec_attr_from_meta(ino, *meta),
{
    FileAttr {
        ino,
        kind: meta.kind,
        nlink: meta.nlink,
        size: meta.size,
        blocks: meta.blocks,
        atime: meta.atime,
        mtime: meta.mtime,
        ctime: meta.ctime,
        crtime: meta.crtime,
        perm: meta.perm,
        uid: meta.uid,
        gid: meta.gid,
        rdev: meta.rdev,
        flags: 0,
    }
}

/// A partial attribute change: any subset of mode, owner, timestamps and
/// size may be given; absent fields keep their current value.
#[derive(Clone, Copy, PartialEq, Eq, Debug)]
pub struct AttrDelta {
    pub mode: Option<u16>,
    pub uid: Option<u32>,
    pub gid: Option<u32>,
    pub atime: Option<Timespec>,
    pub mtime: Option<Timespec>,
    pub size: Option<u64>,
}

/// The attribute record after a partial change: each field given in the
/// delta replaces the cached one, every other field is kept.
pub open spec fn spec_apply_delta(attr: FileAttr, d: AttrDelta) -> FileAttr {
    FileAttr {
        ino: attr.ino,
        kind: attr.kind,
        nlink: attr.nlink,
        size: match d.size {
            Some(s) => s,
            None => attr.size,
        },
        blocks: attr.blocks,
        atime: match d.atime {
            Some(t) => t,
            None => attr.atime,
        },
        mtime: match d.mtime {
            Some(t) => t,
            None => attr.mtime,
        },
        ctime: attr.ctime,
        crtime: attr.crtime,
        perm: match d.mode {
            Some(m) => m,
            None => attr.perm,
        },
        uid: match d.uid {
            Some(u) => u,
            None => attr.uid,
        },
        gid: match d.gid {
            Some(g) => g,
            None => attr.gid,
        },
        rdev: attr.rdev,
        flags: attr.flags,
    }
}

/// Merges a partial attribute change into a cached attribute record.
pub fn apply_delta(attr: &FileAttr, d: &AttrDelta) -> (r: FileAttr)
    ensures
        r == spec_apply_delta(*attr, *d),
{
    let mut r = *attr;
    match d.size {
        Some(s) => {
            r.size = s;
        },
        None => {},
    }
    match d.atime {
        Some(t) => {
            r.atime = t;
        },
        None => {},
    }
    match d.mtime {
        Some(t) => {
            r.mtime = t;
        },
        None => {},
    }
    match d.mode {
        Some(m) => {
            r.perm = m;
        },
        None => {},
    }
    match d.uid {
        Some(u) => {
            r.uid = u;
        },
        None => {},
    }
    match d.gid {
        Some(g) => {
            r.gid = g;
        },
        None => {},
    }
    r
}

} // verus!
