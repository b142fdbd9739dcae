use gcsf::file::{directory_attr, File, FileAttr, FileId, FileType, NodeId, RemoteFile, Timespec};
use gcsf::manager::{FileError, FileManager};

fn regular_attr() -> FileAttr {
    let t = Timespec { sec: 0, nsec: 0 };
    FileAttr {
        size: 0,
        blocks: 1,
        atime: t,
        mtime: t,
        ctime: t,
        crtime: t,
        kind: FileType::RegularFile,
        perm: 0o644,
        nlink: 1,
        uid: 0,
        gid: 0,
        rdev: 0,
        flags: 0,
    }
}

fn remote(name: &str, id: Option<&str>, dir: bool) -> File {
    File {
        inode: 0,
        name: name.to_string(),
        attr: if dir { directory_attr() } else { regular_attr() },
        drive_file: Some(RemoteFile { id: id.map(|s| s.to_string()), mime_type: None }),
    }
}

fn local(inode: u64, name: &str) -> File {
    File { inode, name: name.to_string(), attr: regular_attr(), drive_file: None }
}

fn listing(id: &str) -> Vec<File> {
    match id {
        "root" => vec![remote("a.txt", Some("id-a"), false), remote("sub", Some("id-sub"), true)],
        "id-sub" => vec![remote("b.txt", Some("id-b"), false)],
        _ => vec![],
    }
}

fn populated() -> FileManager {
    let mut fm = FileManager::with_root("root".to_string());
    while let Some(parent) = fm.next_pending() {
        for f in listing(&parent) {
            fm.add_listed_file(&parent, f).unwrap();
        }
    }
    fm
}

fn names(files: Vec<&File>) -> Vec<String> {
    files.into_iter().map(|f| f.name.clone()).collect()
}

#[test]
fn population_mirrors_remote_tree() {
    let fm = populated();
    let root = names(fm.get_children(FileId::Inode(1)).unwrap());
    assert_eq!(root, vec!["a.txt".to_string(), "sub".to_string()]);
    let sub = fm
        .get_children(FileId::ParentAndName { parent: 1, name: "sub".to_string() })
        .unwrap();
    assert_eq!(names(sub), vec!["b.txt".to_string()]);
}

#[test]
fn population_assigns_inodes_in_order() {
    let fm = populated();
    assert_eq!(fm.get_inode(FileId::DriveId("id-a".to_string())), Some(2));
    assert_eq!(fm.get_inode(FileId::DriveId("id-sub".to_string())), Some(3));
    assert_eq!(fm.get_inode(FileId::DriveId("id-b".to_string())), Some(4));
    assert_eq!(fm.get_inode(FileId::DriveId("root".to_string())), Some(1));
}

#[test]
fn root_file_is_dot_directory() {
    let fm = FileManager::with_root("r".to_string());
    let root = fm.get_file(FileId::Inode(1)).unwrap();
    assert_eq!(root.name, ".");
    assert_eq!(root.kind(), FileType::Directory);
    assert_eq!(root.attr.perm, 0o755);
    assert_eq!(root.attr.nlink, 2);
    assert_eq!(root.drive_id(), Some("r".to_string()));
    assert_eq!(fm.get_children(FileId::Inode(1)).unwrap().len(), 0);
}

#[test]
fn create_file_registers_returned_remote_id() {
    let mut fm = populated();
    let file = File { inode: 5, name: "c.txt".to_string(), attr: regular_attr(), drive_file: None };
    assert_eq!(fm.create_file(file, Some(FileId::Inode(1)), "id-c".to_string()), Ok(()));
    let by_name = FileId::ParentAndName { parent: 1, name: "c.txt".to_string() };
    assert!(fm.contains(by_name.clone()));
    assert_eq!(fm.get_drive_id(by_name), Some("id-c".to_string()));
    assert_eq!(fm.get_inode(FileId::DriveId("id-c".to_string())), Some(5));
}

#[test]
fn create_file_keeps_descriptor_metadata() {
    let mut fm = FileManager::with_root("r".to_string());
    let file = File {
        inode: 2,
        name: "doc".to_string(),
        attr: regular_attr(),
        drive_file: Some(RemoteFile { id: None, mime_type: Some("text/plain".to_string()) }),
    };
    fm.create_file(file, Some(FileId::Inode(1)), "id-doc".to_string()).unwrap();
    let f = fm.get_file(FileId::Inode(2)).unwrap();
    let d = f.drive_file.as_ref().unwrap();
    assert_eq!(d.id, Some("id-doc".to_string()));
    assert_eq!(d.mime_type, Some("text/plain".to_string()));
}

#[test]
fn write_without_remote_fails() {
    let mut fm = FileManager::with_root("r".to_string());
    fm.add_file(local(2, "draft"), Some(FileId::Inode(1))).unwrap();
    assert_eq!(fm.write(FileId::Inode(2), 10, &[1, 2, 3]).unwrap_err(), FileError::NoRemote);
}

#[test]
fn write_unknown_target_fails() {
    let fm = FileManager::with_root("r".to_string());
    assert_eq!(fm.write(FileId::Inode(9), 0, &[1]).unwrap_err(), FileError::NotFound);
}

#[test]
fn write_forwards_request_verbatim() {
    let fm = populated();
    let w = fm.write(FileId::Inode(2), 10, &[7, 8, 9]).unwrap();
    assert_eq!(w.drive_id, "id-a");
    assert_eq!(w.offset, 10);
    assert_eq!(w.data, vec![7, 8, 9]);
}

#[test]
fn allocator_fills_first_gap() {
    let mut fm = FileManager::with_root("r".to_string());
    fm.add_file(local(2, "two"), Some(FileId::Inode(1))).unwrap();
    fm.add_file(local(4, "four"), Some(FileId::Inode(1))).unwrap();
    assert_eq!(fm.next_available_inode(), 3);
    fm.add_file(local(3, "three"), Some(FileId::Inode(1))).unwrap();
    assert_eq!(fm.next_available_inode(), 5);
}

#[test]
fn allocator_on_root_only() {
    let fm = FileManager::with_root("r".to_string());
    assert_eq!(fm.next_available_inode(), 2);
    let shared = fm.new_shared_with_me_file();
    assert_eq!(shared.inode, 2);
    assert_eq!(shared.name, "Shared with me");
    assert!(shared.drive_file.is_none());
}

#[test]
fn remote_round_trip() {
    let fm = populated();
    let i = fm.get_inode(FileId::DriveId("id-b".to_string())).unwrap();
    assert_eq!(fm.get_drive_id(FileId::Inode(i)), Some("id-b".to_string()));
    assert_eq!(fm.get_file(FileId::Inode(i)).unwrap().inode(), i);
}

#[test]
fn node_ids_resolve_back() {
    let fm = populated();
    for i in 1..=4u64 {
        let n = fm.get_node_id(FileId::Inode(i)).unwrap();
        assert_eq!(fm.get_inode(FileId::NodeId(n)), Some(i));
    }
    assert_eq!(fm.get_inode(FileId::NodeId(NodeId { index: 99 })), None);
    assert_eq!(fm.get_node_id(FileId::Inode(99)), None);
}

#[test]
fn unknown_identifiers_are_absent() {
    let fm = populated();
    assert!(!fm.contains(FileId::Inode(0)));
    assert!(!fm.contains(FileId::Inode(17)));
    assert!(!fm.contains(FileId::DriveId("nope".to_string())));
    assert!(!fm.contains(FileId::ParentAndName { parent: 1, name: "nope".to_string() }));
    assert!(!fm.contains(FileId::ParentAndName { parent: 42, name: "a.txt".to_string() }));
    assert!(fm.get_children(FileId::Inode(42)).is_none());
    assert!(fm.get_file(FileId::Inode(42)).is_none());
}

#[test]
fn first_sibling_wins_on_equal_names() {
    let mut fm = FileManager::with_root("r".to_string());
    fm.add_file(local(2, "same"), Some(FileId::Inode(1))).unwrap();
    fm.add_file(local(3, "same"), Some(FileId::Inode(1))).unwrap();
    let id = FileId::ParentAndName { parent: 1, name: "same".to_string() };
    assert_eq!(fm.get_inode(id), Some(2));
}

#[test]
fn add_file_errors_leave_state_unchanged() {
    let mut fm = populated();
    assert_eq!(fm.add_file(local(9, "x"), None), Err(FileError::RootExists));
    assert_eq!(fm.add_file(local(9, "x"), Some(FileId::Inode(77))), Err(FileError::NotFound));
    assert_eq!(fm.add_file(local(0, "x"), Some(FileId::Inode(1))), Err(FileError::InvalidInode));
    assert_eq!(fm.add_file(local(2, "x"), Some(FileId::Inode(1))), Err(FileError::InodeInUse));
    let dup = File { inode: 9, ..remote("x", Some("id-a"), false) };
    assert_eq!(fm.add_file(dup, Some(FileId::Inode(1))), Err(FileError::DriveIdInUse));
    assert!(!fm.contains(FileId::Inode(9)));
    assert_eq!(fm.get_children(FileId::Inode(1)).unwrap().len(), 2);
    assert_eq!(fm.next_available_inode(), 5);
}

#[test]
fn listing_under_unknown_parent_fails() {
    let mut fm = FileManager::with_root("r".to_string());
    let r = fm.add_listed_file(&"elsewhere".to_string(), remote("a", Some("id-a"), false));
    assert_eq!(r, Err(FileError::NotFound));
    assert!(!fm.contains(FileId::Inode(2)));
}

#[test]
fn directories_are_queued_once_listed() {
    let mut fm = FileManager::with_root("r".to_string());
    assert_eq!(fm.next_pending(), Some("r".to_string()));
    assert_eq!(fm.next_pending(), None);
    fm.add_listed_file(&"r".to_string(), remote("d", Some("id-d"), true)).unwrap();
    fm.add_listed_file(&"r".to_string(), remote("f", Some("id-f"), false)).unwrap();
    fm.add_listed_file(&"r".to_string(), remote("e", None, true)).unwrap();
    assert_eq!(fm.next_pending(), Some("id-d".to_string()));
    assert_eq!(fm.next_pending(), None);
}

#[test]
fn get_mut_file_updates_metadata() {
    let mut fm = populated();
    {
        let attr = fm.get_mut_file(FileId::DriveId("id-a".to_string())).unwrap();
        attr.size = 4096;
    }
    assert_eq!(fm.get_file(FileId::Inode(2)).unwrap().attr.size, 4096);
    assert_eq!(fm.get_file(FileId::Inode(2)).unwrap().name, "a.txt");
    assert!(fm.get_mut_file(FileId::Inode(50)).is_none());
}

#[test]
fn set_drive_id_creates_descriptor() {
    let mut f = local(3, "n");
    assert_eq!(f.drive_id(), None);
    f.set_drive_id("x".to_string());
    assert_eq!(f.drive_id(), Some("x".to_string()));
    assert_eq!(f.inode(), 3);
}

#[test]
fn tree_lines_depth_first() {
    let fm = populated();
    assert_eq!(fm.tree_lines(), vec![(0, 1), (1, 3), (2, 4), (1, 2)]);
}

#[test]
fn tree_lines_root_only() {
    let fm = FileManager::with_root("r".to_string());
    assert_eq!(fm.tree_lines(), vec![(0, 1)]);
}
