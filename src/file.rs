//! The file entity and the identifiers that name one.
use vstd::prelude::*;

verus! {

/// Inode number, the identity under which the kernel addresses a file.
pub type Inode = u64;

/// A point in time: whole seconds and nanoseconds.
#[derive(Clone, Copy, Debug, PartialEq, Eq, Structural)]
pub struct Timespec {
    pub sec: i64,
    pub nsec: i32,
}

/// The two kinds of object the remote store holds.
#[derive(Clone, Copy, Debug, PartialEq, Eq, Structural)]
pub enum FileType {
    RegularFile,
    Directory,
}

/// POSIX-style metadata of a file.
#[derive(Clone, Copy, Debug, PartialEq, Eq, Structural)]
pub struct FileAttr {
    pub size: u64,
    pub blocks: u64,
    pub atime: Timespec,
    pub mtime: Timespec,
    pub ctime: Timespec,
    pub crtime: Timespec,
    pub kind: FileType,
    pub perm: u16,
    pub nlink: u32,
    pub uid: u32,
    pub gid: u32,
    pub rdev: u32,
    pub flags: u32,
}

/// What the remote store knows of a file: its identifier, once it has one,
/// and its media type.
#[derive(Clone, Debug)]
pub struct RemoteFile {
    pub id: Option<String>,
    pub mime_type: Option<String>,
}

/// A file or directory: local identity, display name, metadata and the
/// optional remote descriptor.
#[derive(Clone, Debug)]
pub struct File {
    pub inode: Inode,
    pub name: String,
    pub attr: FileAttr,
    pub drive_file: Option<RemoteFile>,
}

/// Handle on a position in the directory tree.
#[derive(Clone, Copy, Debug, PartialEq, Eq, Structural)]
pub struct NodeId {
    pub index: usize,
}

/// The four ways of naming a file.
#[derive(Clone, Debug)]
pub enum FileId {
    Inode(Inode),
    DriveId(String),
    NodeId(NodeId),
    ParentAndName { parent: Inode, name: String },
}

/// The remote identifier of a file, if it has a descriptor carrying one.
pub open spec fn remote_id_of(f: File) -> Option<Seq<char>> {
    match f.drive_file {
        Some(d) => match d.id {
            Some(id) => Some(id@),
            None => None,
        },
        None => None,
    }
}

/// Zero time.
pub open spec fn zero_time() -> Timespec {
    Timespec { sec: 0, nsec: 0 }
}

/// Metadata of a directory that no remote content backs.
pub open spec fn directory_attr_spec() -> FileAttr {
    FileAttr {
        size: 0,
        blocks: 123,
        atime: zero_time(),
        mtime: zero_time(),
        ctime: zero_time(),
        crtime: zero_time(),
        kind: FileType::Directory,
        perm: 0o755,
        nlink: 2,
        uid: 0,
        gid: 0,
        rdev: 0,
        flags: 0,
    }
}

/// Metadata of a directory that no remote content backs.
pub fn directory_attr() -> (r: FileAttr)
    ensures
        r == directory_attr_spec(),
{
    let t = Timespec { sec: 0, nsec: 0 };
    FileAttr {
        size: 0,
        blocks: 123,
        atime: t,
        mtime: t,
        ctime: t,
        crtime: t,
        kind: FileType::Directory,
        perm: 0o755,
        nlink: 2,
        uid: 0,
        gid: 0,
        rdev: 0,
        flags: 0,
    }
}

impl File {
    /// The inode number of this file.
    pub fn inode(&self) -> (r: Inode)
        ensures
            r == self.inode,
    {
        self.inode
    }

    /// The kind of this file.
    pub fn kind(&self) -> (r: FileType)
        ensures
            r == self.attr.kind,
    {
        self.attr.kind
    }

    /// The remote identifier, if the file has one.
    pub fn drive_id(&self) -> (r: Option<String>)
        ensures
            match r {
                Some(s) => remote_id_of(*self) == Some(s@),
                None => remote_id_of(*self) is None,
            },
    {
        match &self.drive_file {
            Some(d) => match &d.id {
                Some(id) => Some(id.clone()),
                None => None,
            },
            None => None,
        }
    }

    /// Attaches a remote identifier, creating the descriptor if there is none.
    /// Everything else about the file is kept.
    pub fn set_drive_id(&mut self, id: String)
        ensures
            remote_id_of(*final(self)) == Some(id@),
            final(self).inode == old(self).inode,
            final(self).name == old(self).name,
            final(self).attr == old(self).attr,
    {
        match &mut self.drive_file {
            Some(d) => {
                d.id = Some(id);
            },
            None => {
                self.drive_file = Some(RemoteFile { id: Some(id), mime_type: None });
            },
        }
    }
}

} // verus!
