//! Scenario tests for the node layer: mapping, resolution, listing, file
//! lifecycle and the error taxonomy, with host answers supplied as values.

use sandboxfs::attrs::{AttrDelta, FileKind, HostMeta, Timespec};
use sandboxfs::tree::Dir;
use sandboxfs::errors::{NodeError, EINVAL, ENOENT, EPERM};
use sandboxfs::file::{clamp_write_data, read_result, write_result_count, O_RDONLY, O_RDWR};
use sandboxfs::host::{HostView, StatResult};
use sandboxfs::tree::{Fs, Node};

fn ts(sec: i64) -> Timespec {
    Timespec { sec, nsec: 0 }
}

fn meta(kind: FileKind) -> HostMeta {
    HostMeta {
        kind,
        nlink: 1,
        size: 42,
        blocks: 1,
        atime: ts(10),
        mtime: ts(20),
        ctime: ts(30),
        crtime: ts(5),
        perm: 0o644,
        uid: 1000,
        gid: 1000,
        rdev: 0,
    }
}

fn dir_meta() -> HostMeta {
    let mut m = meta(FileKind::Directory);
    m.perm = 0o755;
    m.nlink = 2;
    m
}

fn path(parts: &[&str]) -> Vec<String> {
    parts.iter().map(|s| s.to_string()).collect()
}

fn new_root(fs: &mut Fs) -> usize {
    let ino = fs.alloc_inode();
    let root = Dir::new_empty(ino, None, ts(1), 1000, 1000);
    fs.add_node(Node::Dir(root))
}

fn host_with(stats: Vec<(Vec<String>, StatResult)>) -> HostView {
    HostView { stats, listings: Vec::new() }
}

#[test]
fn map_binds_final_component_and_creates_scaffolds() {
    let mut fs = Fs::new();
    let root = new_root(&mut fs);
    let host = host_with(vec![(path(&["host", "d"]), StatResult::Found(dir_meta()))]);
    let r = fs.map(root, &path(&["a", "b"]), 0, &path(&["host", "d"]), true, ts(2), 1000, 1000, &host);
    assert!(r.is_ok());

    // The intermediate component is a scaffold directory.
    let (a, a_attr) = fs.lookup(root, &"a".to_string(), &host).unwrap();
    assert!(matches!(a_attr.kind, FileKind::Directory));
    assert_eq!(a_attr.perm, 0o555);
    assert!(!fs.node(a).writable());

    // The final component reflects the host directory's metadata.
    let (b, b_attr) = fs.lookup(a, &"b".to_string(), &host).unwrap();
    assert!(matches!(b_attr.kind, FileKind::Directory));
    assert_eq!(b_attr.perm, 0o755);
    assert!(fs.node(b).writable());
}

#[test]
fn scaffold_readdir_lists_dot_dotdot_and_children() {
    let mut fs = Fs::new();
    let root = new_root(&mut fs);
    let host = host_with(vec![(path(&["host", "d"]), StatResult::Found(dir_meta()))]);
    fs.map(root, &path(&["a", "b"]), 0, &path(&["host", "d"]), false, ts(2), 1000, 1000, &host)
        .unwrap();
    let (a, _) = fs.lookup(root, &"a".to_string(), &host).unwrap();

    let entries = fs.readdir(a, &host).unwrap();
    assert_eq!(entries.len(), 3);
    assert_eq!(entries[0].name, ".");
    assert_eq!(entries[1].name, "..");
    assert_eq!(entries[2].name, "b");
    for (k, e) in entries.iter().enumerate() {
        assert_eq!(e.pos, k as u64);
    }
    // `..` of the scaffold is the root's inode.
    assert_eq!(entries[1].ino, fs.node(root).inode());
}

#[test]
fn map_conflict_leaves_existing_binding_unchanged() {
    let mut fs = Fs::new();
    let root = new_root(&mut fs);
    let host = host_with(vec![
        (path(&["host", "f"]), StatResult::Found(meta(FileKind::Regular))),
        (path(&["host", "d"]), StatResult::Found(dir_meta())),
    ]);
    fs.map(root, &path(&["a"]), 0, &path(&["host", "f"]), false, ts(2), 1000, 1000, &host)
        .unwrap();
    let (a_before, _) = fs.lookup(root, &"a".to_string(), &host).unwrap();
    let ino_before = fs.node(a_before).inode();

    // Descending through the file must fail with a conflict...
    let r = fs.map(root, &path(&["a", "c"]), 0, &path(&["host", "d"]), false, ts(3), 1000, 1000, &host);
    assert_eq!(r, Err(NodeError::AlreadyMapped));

    // ...and the existing binding is untouched.
    let (a_after, _) = fs.lookup(root, &"a".to_string(), &host).unwrap();
    assert_eq!(a_after, a_before);
    assert_eq!(fs.node(a_after).inode(), ino_before);
}

#[test]
fn map_onto_occupied_destination_is_a_conflict() {
    let mut fs = Fs::new();
    let root = new_root(&mut fs);
    let host = host_with(vec![(path(&["host", "d"]), StatResult::Found(dir_meta()))]);
    fs.map(root, &path(&["a"]), 0, &path(&["host", "d"]), false, ts(2), 1000, 1000, &host)
        .unwrap();
    let r = fs.map(root, &path(&["a"]), 0, &path(&["host", "d"]), false, ts(3), 1000, 1000, &host);
    assert_eq!(r, Err(NodeError::AlreadyMapped));
}

#[test]
fn same_host_path_yields_same_inode() {
    let mut fs = Fs::new();
    let root = new_root(&mut fs);
    let host = host_with(vec![(path(&["host", "d"]), StatResult::Found(dir_meta()))]);
    fs.map(root, &path(&["x"]), 0, &path(&["host", "d"]), false, ts(2), 1000, 1000, &host)
        .unwrap();
    fs.map(root, &path(&["y"]), 0, &path(&["host", "d"]), false, ts(3), 1000, 1000, &host)
        .unwrap();
    let (x, _) = fs.lookup(root, &"x".to_string(), &host).unwrap();
    let (y, _) = fs.lookup(root, &"y".to_string(), &host).unwrap();
    assert_eq!(x, y);
    assert_eq!(fs.node(x).inode(), fs.node(y).inode());
}

#[test]
fn lookup_and_mapping_of_same_host_path_share_a_node() {
    let mut fs = Fs::new();
    let root = new_root(&mut fs);
    let host = HostView {
        stats: vec![
            (path(&["host"]), StatResult::Found(dir_meta())),
            (path(&["host", "e"]), StatResult::Found(meta(FileKind::Regular))),
        ],
        listings: Vec::new(),
    };
    // Map the root over the host directory, then map the same file twice
    // over: once via an explicit mapping, once via host discovery.
    fs.map(root, &path(&["m"]), 0, &path(&["host"]), false, ts(2), 1000, 1000, &host)
        .unwrap();
    let (m, _) = fs.lookup(root, &"m".to_string(), &host).unwrap();
    let (by_disk, _) = fs.lookup(m, &"e".to_string(), &host).unwrap();
    fs.map(root, &path(&["alias"]), 0, &path(&["host", "e"]), false, ts(3), 1000, 1000, &host)
        .unwrap();
    let (by_map, _) = fs.lookup(root, &"alias".to_string(), &host).unwrap();
    assert_eq!(fs.node(by_disk).inode(), fs.node(by_map).inode());
}

#[test]
fn readdir_explicit_mapping_wins_over_host_entry() {
    let mut fs = Fs::new();
    let root = new_root(&mut fs);
    let host = HostView {
        stats: vec![
            (path(&["host"]), StatResult::Found(dir_meta())),
            (path(&["other"]), StatResult::Found(dir_meta())),
            (path(&["host", "b"]), StatResult::Found(meta(FileKind::Regular))),
            (path(&["host", "c"]), StatResult::Found(meta(FileKind::Regular))),
        ],
        listings: vec![(path(&["host"]), path(&["b", "c"]))],
    };
    fs.map(root, &path(&["m"]), 0, &path(&["host"]), false, ts(2), 1000, 1000, &host)
        .unwrap();
    let (m, _) = fs.lookup(root, &"m".to_string(), &host).unwrap();
    // Bind the name "b" explicitly to another host directory.
    fs.map(m, &path(&["b"]), 0, &path(&["other"]), false, ts(3), 1000, 1000, &host)
        .unwrap();

    let entries = fs.readdir(m, &host).unwrap();
    let b_count = entries.iter().filter(|e| e.name == "b").count();
    assert_eq!(b_count, 1);
    // The one "b" is the explicit mapping: a directory, not the host file.
    let b_entry = entries.iter().find(|e| e.name == "b").unwrap();
    assert!(matches!(b_entry.kind, FileKind::Directory));
    // The host-only entry still appears.
    assert_eq!(entries.iter().filter(|e| e.name == "c").count(), 1);
    // Positions are 0 and 1 for `.`/`..`, then gapless increasing integers.
    for (k, e) in entries.iter().enumerate() {
        assert_eq!(e.pos, k as u64);
    }
    assert_eq!(entries[0].name, ".");
    assert_eq!(entries[1].name, "..");
}

#[test]
fn deleted_file_cannot_be_reopened() {
    let mut fs = Fs::new();
    let root = new_root(&mut fs);
    let host = host_with(vec![(path(&["host", "f"]), StatResult::Found(meta(FileKind::Regular)))]);
    fs.map(root, &path(&["f"]), 0, &path(&["host", "f"]), true, ts(2), 1000, 1000, &host)
        .unwrap();
    let (f, _) = fs.lookup(root, &"f".to_string(), &host).unwrap();

    assert!(fs.open(f, O_RDONLY).is_ok());
    assert_eq!(fs.delete(f), Ok(()));
    assert_eq!(fs.open(f, O_RDONLY), Err(NodeError::InvalidOperation));
    // Deleting twice is a reported contract violation, not an abort.
    assert_eq!(fs.delete(f), Err(NodeError::InvalidOperation));
}

#[test]
fn open_respects_writability_and_flags() {
    let mut fs = Fs::new();
    let root = new_root(&mut fs);
    let host = host_with(vec![(path(&["host", "f"]), StatResult::Found(meta(FileKind::Regular)))]);
    fs.map(root, &path(&["f"]), 0, &path(&["host", "f"]), false, ts(2), 1000, 1000, &host)
        .unwrap();
    let (f, _) = fs.lookup(root, &"f".to_string(), &host).unwrap();

    assert_eq!(fs.open(f, O_RDWR), Err(NodeError::Host(EPERM)));
    assert_eq!(fs.open(f, 3), Err(NodeError::Host(EINVAL)));
    let req = fs.open(f, O_RDONLY).unwrap();
    assert!(req.read);
    assert!(!req.write);
    assert_eq!(req.path, path(&["host", "f"]));
}

#[test]
fn write_clamp_and_read_truncation() {
    // Input within the representable count is kept whole.
    let data = vec![7u8; 1000];
    let clamped = clamp_write_data(&data);
    assert_eq!(clamped.len(), 1000);
    assert_eq!(write_result_count(clamped.len()), 1000);
    // A short read truncates the buffer to what was actually read.
    let buffer = vec![1u8, 2, 3, 4, 5];
    let short = read_result(buffer, 3);
    assert_eq!(short, vec![1u8, 2, 3]);
}

#[test]
fn lookup_errors_follow_the_taxonomy() {
    let mut fs = Fs::new();
    let root = new_root(&mut fs);
    let host = HostView {
        stats: vec![
            (path(&["host"]), StatResult::Found(dir_meta())),
            (path(&["host", "gone"]), StatResult::Failed(ENOENT)),
            (path(&["host", "lnk"]), StatResult::Found(meta(FileKind::Symlink))),
        ],
        listings: Vec::new(),
    };
    // A scaffold only ever holds what `map` put there.
    assert_eq!(
        fs.lookup(root, &"nope".to_string(), &host),
        Err(NodeError::NotFound)
    );
    fs.map(root, &path(&["m"]), 0, &path(&["host"]), false, ts(2), 1000, 1000, &host)
        .unwrap();
    let (m, _) = fs.lookup(root, &"m".to_string(), &host).unwrap();
    // A backed directory propagates the host's stat failure.
    assert_eq!(
        fs.lookup(m, &"gone".to_string(), &host),
        Err(NodeError::Host(ENOENT))
    );
    // The symbolic-link node variant is not part of this layer.
    assert_eq!(
        fs.lookup(m, &"lnk".to_string(), &host),
        Err(NodeError::Unsupported)
    );
}

#[test]
fn getattr_reports_host_type_change_as_io_error() {
    let mut fs = Fs::new();
    let root = new_root(&mut fs);
    let host = host_with(vec![(path(&["host", "d"]), StatResult::Found(dir_meta()))]);
    fs.map(root, &path(&["d"]), 0, &path(&["host", "d"]), false, ts(2), 1000, 1000, &host)
        .unwrap();
    let (d, _) = fs.lookup(root, &"d".to_string(), &host).unwrap();
    // The backing directory turns into a file underneath the sandbox.
    let changed = host_with(vec![(
        path(&["host", "d"]),
        StatResult::Found(meta(FileKind::Regular)),
    )]);
    assert_eq!(fs.getattr(d, &changed), Err(NodeError::Inconsistent));
}

#[test]
fn map_propagates_host_stat_failure() {
    let mut fs = Fs::new();
    let root = new_root(&mut fs);
    let host = host_with(vec![(path(&["host", "x"]), StatResult::Failed(13))]);
    let r = fs.map(root, &path(&["x"]), 0, &path(&["host", "x"]), false, ts(2), 1000, 1000, &host);
    assert_eq!(r, Err(NodeError::Host(13)));
    // An absent stat entry counts as not found on the host.
    let r2 = fs.map(root, &path(&["y"]), 0, &path(&["host", "y"]), false, ts(2), 1000, 1000, &host);
    assert_eq!(r2, Err(NodeError::Host(ENOENT)));
}

#[test]
fn setattr_merges_the_partial_change() {
    let mut fs = Fs::new();
    let root = new_root(&mut fs);
    let host = host_with(vec![(path(&["host", "f"]), StatResult::Found(meta(FileKind::Regular)))]);
    fs.map(root, &path(&["f"]), 0, &path(&["host", "f"]), true, ts(2), 1000, 1000, &host)
        .unwrap();
    let (f, before) = fs.lookup(root, &"f".to_string(), &host).unwrap();
    let delta = AttrDelta {
        mode: Some(0o600),
        uid: None,
        gid: None,
        atime: None,
        mtime: Some(ts(99)),
        size: Some(7),
    };
    let merged = fs.setattr(f, &delta);
    assert_eq!(merged.perm, 0o600);
    assert_eq!(merged.size, 7);
    assert_eq!(merged.mtime, ts(99));
    assert_eq!(merged.uid, before.uid);
    assert_eq!(merged.atime, before.atime);
    assert_eq!(merged.ino, before.ino);
}

#[test]
fn errno_values_follow_the_kernel_mapping() {
    assert_eq!(NodeError::NotFound.errno(), 2);
    assert_eq!(NodeError::Inconsistent.errno(), 5);
    assert_eq!(NodeError::AlreadyMapped.errno(), 17);
    assert_eq!(NodeError::InvalidOperation.errno(), 22);
    assert_eq!(NodeError::Host(13).errno(), 13);
    assert_eq!(NodeError::Unsupported.errno(), 38);
}

#[test]
fn readdir_discovery_and_lookup_agree_on_inodes() {
    let mut fs = Fs::new();
    let root = new_root(&mut fs);
    let host = HostView {
        stats: vec![
            (path(&["host"]), StatResult::Found(dir_meta())),
            (path(&["host", "e"]), StatResult::Found(meta(FileKind::Regular))),
        ],
        listings: vec![(path(&["host"]), path(&["e"]))],
    };
    fs.map(root, &path(&["m"]), 0, &path(&["host"]), false, ts(2), 1000, 1000, &host)
        .unwrap();
    let (m, _) = fs.lookup(root, &"m".to_string(), &host).unwrap();
    let entries = fs.readdir(m, &host).unwrap();
    let e_entry = entries.iter().find(|e| e.name == "e").unwrap();
    assert!(matches!(e_entry.kind, FileKind::Regular));
    let (e_node, _) = fs.lookup(m, &"e".to_string(), &host).unwrap();
    assert_eq!(fs.node(e_node).inode(), e_entry.ino);
}

#[test]
fn readdir_propagates_missing_listing() {
    let mut fs = Fs::new();
    let root = new_root(&mut fs);
    // The backing directory can be stat'd but not enumerated.
    let host = host_with(vec![(path(&["host"]), StatResult::Found(dir_meta()))]);
    fs.map(root, &path(&["m"]), 0, &path(&["host"]), false, ts(2), 1000, 1000, &host)
        .unwrap();
    let (m, _) = fs.lookup(root, &"m".to_string(), &host).unwrap();
    assert_eq!(fs.readdir(m, &host), Err(NodeError::Host(ENOENT)));
}

#[test]
fn mapped_intermediate_inherits_host_directory() {
    // An intermediate component whose name exists as a directory under the
    // backed parent becomes a mapped directory, not a scaffold.
    let mut fs = Fs::new();
    let root = new_root(&mut fs);
    let host = HostView {
        stats: vec![
            (path(&["host"]), StatResult::Found(dir_meta())),
            (path(&["host", "sub"]), StatResult::Found(dir_meta())),
            (path(&["tgt"]), StatResult::Found(meta(FileKind::Regular))),
        ],
        listings: Vec::new(),
    };
    fs.map(root, &path(&["m"]), 0, &path(&["host"]), true, ts(2), 1000, 1000, &host)
        .unwrap();
    let (m, _) = fs.lookup(root, &"m".to_string(), &host).unwrap();
    fs.map(m, &path(&["sub", "leaf"]), 0, &path(&["tgt"]), false, ts(3), 1000, 1000, &host)
        .unwrap();
    let (sub, sub_attr) = fs.lookup(m, &"sub".to_string(), &host).unwrap();
    // The mapped intermediate reflects the host directory and inherits the
    // parent's writability rather than the scaffold's fixed bits.
    assert_eq!(sub_attr.perm, 0o755);
    assert!(fs.node(sub).writable());
}
