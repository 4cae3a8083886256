use vstd::prelude::*;

verus! {

/// A point in time, seconds and nanoseconds since the Unix epoch.
#[derive(Debug, Clone, Copy, PartialEq, Eq, Structural)]
pub struct Timespec {
    /// Whole seconds since the epoch.
    pub sec: u64,
    /// Nanoseconds past the second.
    pub nsec: u32,
}

/// The attributes of an object as a host filesystem presents them.
#[derive(Debug, Clone, Copy, PartialEq, Eq, Structural)]
pub struct FileAttr {
    /// Access time.
    pub atime: Timespec,
    /// Modification time.
    pub mtime: Timespec,
    /// Change time.
    pub ctime: Timespec,
    /// Creation time.
    pub crtime: Timespec,
    /// Number of blocks allocated.
    pub blocks: u64,
    /// Block size used for the block count.
    pub blksize: u32,
    /// Owner group ID.
    pub gid: u32,
    /// Owner user ID.
    pub uid: u32,
    /// Inode number.
    pub ino: u64,
    /// Number of hard links.
    pub nlink: u32,
    /// Permission bits.
    pub perm: u16,
    /// Device number, for device nodes.
    pub rdev: u32,
    /// Size in bytes.
    pub size: u64,
    /// The kind of the object.
    pub kind: InodeKind,
    /// Host-specific flags; always zero here.
    pub flags: u32,
}

/// Contains the attributes of the inode.
#[derive(Debug, Clone, Copy, PartialEq, Eq, Structural)]
pub struct InodeAttr {
    /// Access time.
    pub atime: Timespec,
    /// Modification time.
    pub mtime: Timespec,
    /// Creation time.
    pub ctime: Timespec,
    /// Permissions.
    pub perm: u32,
    /// Number of hard links.
    pub nlink: u32,
    /// Owner user ID.
    pub uid: u32,
    /// Owner group ID.
    pub gid: u32,
    /// Special file device ID.
    pub rdev: u64,
}

impl Default for InodeAttr {
    /// All times at the epoch, no owner, one link, no permissions.
    fn default() -> (r: Self)
        ensures
            r == InodeAttr::epoch_attrs(),
    {
        InodeAttr {
            atime: Timespec { sec: 0, nsec: 0 },
            mtime: Timespec { sec: 0, nsec: 0 },
            ctime: Timespec { sec: 0, nsec: 0 },
            perm: 0,
            nlink: 1,
            uid: 0,
            gid: 0,
            rdev: 0,
        }
    }
}

impl InodeAttr {
    /// The value `Default::default` returns.
    pub open spec fn epoch_attrs() -> InodeAttr {
        InodeAttr {
            atime: Timespec { sec: 0, nsec: 0 },
            mtime: Timespec { sec: 0, nsec: 0 },
            ctime: Timespec { sec: 0, nsec: 0 },
            perm: 0,
            nlink: 1,
            uid: 0,
            gid: 0,
            rdev: 0,
        }
    }
}

impl From<FileAttr> for InodeAttr {
    /// Keeps the times, owner and link count; widens the permission bits
    /// and the device number.
    fn from(v: FileAttr) -> (r: Self) {
        Self {
            atime: v.atime,
            mtime: v.mtime,
            ctime: v.ctime,
            perm: v.perm as u32,
            nlink: v.nlink,
            uid: v.uid,
            gid: v.gid,
            rdev: v.rdev as u64,
        }
    }
}

impl vstd::std_specs::convert::FromSpecImpl<FileAttr> for InodeAttr {
    open spec fn obeys_from_spec() -> bool {
        true
    }

    open spec fn from_spec(v: FileAttr) -> Self {
        InodeAttr {
            atime: v.atime,
            mtime: v.mtime,
            ctime: v.ctime,
            perm: v.perm as u32,
            nlink: v.nlink,
            uid: v.uid,
            gid: v.gid,
            rdev: v.rdev as u64,
        }
    }
}

/// The type of the inode.
#[derive(Debug, Clone, Copy, PartialEq, Eq, Structural)]
pub enum InodeKind {
    /// A directory.
    Directory,
    /// A regular file.
    RegularFile,
    /// A symlink.
    Symlink,
    /// A character device.
    CharDevice,
    /// A deleted inode.
    Whiteout,
}

/// One extended attribute: a raw byte-string name and a raw byte-string value.
#[derive(Debug, Clone)]
pub struct XattrEntry {
    /// The attribute's name.
    pub name: Vec<u8>,
    /// The attribute's value.
    pub value: Vec<u8>,
}

impl View for XattrEntry {
    type V = (Seq<u8>, Seq<u8>);

    open spec fn view(&self) -> (Seq<u8>, Seq<u8>) {
        (self.name@, self.value@)
    }
}

/// The element-wise view of a list of extended attributes.
pub open spec fn xattrs_deep(s: Seq<XattrEntry>) -> Seq<(Seq<u8>, Seq<u8>)> {
    Seq::new(s.len(), |i: int| s[i]@)
}

/// The element-wise view of a list of directory entries.
pub open spec fn dirents_deep(s: Seq<DirEntry>) -> Seq<DirEntryV> {
    Seq::new(s.len(), |i: int| s[i]@)
}

/// The mathematical content of an inode record.
#[verifier::ext_equal]
pub struct InodeV {
    /// The kind of the inode.
    pub kind: InodeKind,
    /// The inode ID of the parent directory.
    pub parent: u64,
    /// The inode's attributes.
    pub attrs: InodeAttr,
    /// The extended attributes, as name/value byte strings in order.
    pub xattrs: Seq<(Seq<u8>, Seq<u8>)>,
}

/// Holds the data for one object.
#[derive(Debug, Clone)]
pub struct Inode {
    /// The type of the inode.
    pub kind: InodeKind,
    /// The inode ID of the file's parent directory.
    pub parent: u64,
    /// The inode's attributes.
    pub attrs: InodeAttr,
    /// The inode's extended attributes, in order.
    pub xattrs: Vec<XattrEntry>,
}

impl View for Inode {
    type V = InodeV;

    open spec fn view(&self) -> InodeV {
        InodeV {
            kind: self.kind,
            parent: self.parent,
            attrs: self.attrs,
            xattrs: xattrs_deep(self.xattrs@),
        }
    }
}

/// Describes how to find the contents of the file in the data section.
#[derive(Debug, Clone, Copy, PartialEq, Eq, Structural)]
pub struct FileReference {
    /// The offset past the start of the data section at which the file starts.
    pub offset: u64,
    /// The length of the file.
    pub size: u64,
    /// The amount of space reserved for the file.
    pub capacity: u64,
}

/// One entry of a directory: a name bound to a child inode of a known kind.
#[derive(Debug, Clone)]
pub struct DirEntry {
    /// The entry's name.
    pub name: String,
    /// The child's inode ID; zero for whiteout entries.
    pub child: u64,
    /// A copy of the child's kind.
    pub kind: InodeKind,
}

/// The mathematical content of a directory entry.
#[verifier::ext_equal]
pub struct DirEntryV {
    /// The entry's name.
    pub name: Seq<char>,
    /// The child's inode ID; zero for whiteout entries.
    pub child: u64,
    /// A copy of the child's kind.
    pub kind: InodeKind,
}

impl View for DirEntry {
    type V = DirEntryV;

    open spec fn view(&self) -> DirEntryV {
        DirEntryV { name: self.name@, child: self.child, kind: self.kind }
    }
}

/// The mathematical content of an inode's content record.
#[verifier::ext_equal]
pub enum ContentV {
    /// A directory's entry list.
    Dir(Seq<DirEntryV>),
    /// A file's payload slot.
    File(FileReference),
    /// A symlink's target.
    Link(Seq<char>),
    /// A character device's device ID.
    Dev(u64),
    /// A whiteout placeholder.
    White,
}

/// Describes the contents of the object.
#[derive(Debug, Clone)]
pub enum InodeContent {
    /// A directory is an ordered list of named entries with distinct names.
    Directory(Vec<DirEntry>),
    /// A file is a pointer to an offset+length.
    RegularFile(FileReference),
    /// A symlink is a string describing the link target.
    Symlink(String),
    /// A character device is a device ID.
    Char(u64),
    /// A whiteout inode is a placeholder.
    Whiteout,
}

impl View for InodeContent {
    type V = ContentV;

    open spec fn view(&self) -> ContentV {
        match self {
            InodeContent::Directory(d) => ContentV::Dir(dirents_deep(d@)),
            InodeContent::RegularFile(f) => ContentV::File(*f),
            InodeContent::Symlink(s) => ContentV::Link(s@),
            InodeContent::Char(c) => ContentV::Dev(*c),
            InodeContent::Whiteout => ContentV::White,
        }
    }
}

} // verus!
