use vstd::prelude::*;

use crate::bytestore::ByteStore;
use crate::error::ParcelError;
use crate::inode::{ContentV, DirEntryV, FileAttr, InodeAttr, InodeKind, InodeV, XattrEntry};
use crate::metadata::{MetadataV, ParcelMetadata};
use crate::parcel::{
    dir_entries, expand_write_spec, find_term, getattr_spec, load_image, lookup_spec, magic_seq,
    read_spec, realloc_spec, untouched_by_queue, write_spec, FileAdd, Parcel, ParcelV,
};
use crate::table::tbl_contains;
use crate::PARCEL_VERSION;

verus! {

/// A parcel is an archive format holding a directory structure.  We use
/// a handle to hold both the parcel's data and the backing store.
pub struct ParcelHandle {
    parcel: Parcel,
    backing: Option<ByteStore>,
}

impl ParcelHandle {
    /// The container's mathematical content.
    pub closed spec fn pv(&self) -> ParcelV {
        self.parcel@
    }

    /// Whether a backing store has been attached.
    pub closed spec fn has_backing(&self) -> bool {
        self.backing is Some
    }

    /// The attached backing store's bytes; empty without one.
    pub closed spec fn bytes(&self) -> Seq<u8> {
        if self.backing is Some {
            self.backing.unwrap()@
        } else {
            Seq::<u8>::empty()
        }
    }

    /// Create a new empty parcel with no backing store.
    pub fn new() -> (r: Self)
        ensures
            r.pv().wf(),
            !r.has_backing(),
            r.pv().version == PARCEL_VERSION,
            r.pv().root_inode == 1,
            r.pv().inode_of(1) matches Some(nd) && nd.kind == InodeKind::Directory && nd.parent
                == 0,
            r.pv().content_of(1) == Some(ContentV::Dir(Seq::<DirEntryV>::empty())),
            r.pv().inodes.len() == 1,
            r.pv().content.len() == 1,
            r.pv().metadata.version == Seq::<char>::empty(),
            r.pv().metadata.depends == Seq::<Seq<char>>::empty(),
            r.pv().next_inode == 2,
            r.pv().next_offset == 0,
            r.pv().file_offset is None,
            r.pv().to_add == Seq::<(u64, Seq<u8>)>::empty(),
            !r.pv().on_disk,
    {
        let parcel = Parcel::new();
        proof {
            crate::table::lemma_tbl_find_at(parcel@.inodes, 1, 0);
            crate::table::lemma_tbl_find_at(parcel@.content, 1, 0);
        }
        ParcelHandle { parcel, backing: None }
    }

    /// Set the handle's backing store.
    pub fn set_file(&mut self, f: ByteStore)
        ensures
            final(self).pv() == old(self).pv(),
            final(self).has_backing(),
            final(self).bytes() == f@,
    {
        self.backing = Some(f);
    }

    /// Hand back the backing store's bytes, for writing out to a file.
    pub fn backing_bytes(&self) -> (r: Option<Vec<u8>>)
        ensures
            match r {
                Some(b) => self.has_backing() && b@ == self.bytes(),
                None => !self.has_backing(),
            },
    {
        match &self.backing {
            Some(s) => Some(s.to_vec()),
            None => None,
        }
    }

    /// Load a parcel from a backing store.  Unknown magic is a fatal
    /// condition: callers check the leading four bytes first.
    pub fn load(f: ByteStore) -> (r: Result<Self, ParcelError>)
        requires
            f@.len() >= 4 ==> f@.subrange(0, 4) == magic_seq(),
        ensures
            r matches Ok(h) ==> ({
                let data = f@;
                &&& h.has_backing()
                &&& h.bytes() == data
                &&& data.len() >= 9
                &&& data.subrange(0, 4) == magic_seq()
                &&& find_term(data, 4) is Some
                &&& h.pv().file_offset == Some((find_term(data, 4).unwrap() + 5) as u64)
                &&& crate::yaml::yaml_doc(data.subrange(4, find_term(data, 4).unwrap())) == Some(
                    crate::codec::yheader(
                        h.pv().version,
                        h.pv().root_inode,
                        h.pv().metadata,
                        h.pv().inodes,
                        h.pv().content,
                    ),
                )
                &&& h.pv().version == PARCEL_VERSION
                &&& h.pv().on_disk
                &&& h.pv().to_add == Seq::<(u64, Seq<u8>)>::empty()
                &&& h.pv().wf()
                &&& h.pv().next_inode >= 1
                &&& tbl_contains(h.pv().inodes, (h.pv().next_inode - 1) as u64)
            }),
            forall|ver: u32, root: u64, meta: MetadataV, ins: Seq<(u64, InodeV)>, cts: Seq<
                (u64, ContentV),
            >| #[trigger] load_image(f@, ver, root, meta, ins, cts) ==> r is Ok,
    {
        let mut f = f;
        match Parcel::load(&mut f) {
            Ok(p) => Ok(ParcelHandle { parcel: p, backing: Some(f) }),
            Err(e) => Err(e),
        }
    }

    /// Write the parcel out to the backing store.
    pub fn store(&mut self) -> (r: Result<(), ParcelError>)
        requires
            old(self).pv().wf(),
            old(self).has_backing(),
        ensures
            final(self).pv().wf(),
            final(self).has_backing(),
            r is Ok <==> crate::parcel::store_ok(old(self).pv(), old(self).bytes()),
            !crate::codec::meta_text_safe(old(self).pv().metadata) ==> r == Err::<
                (),
                ParcelError,
            >(ParcelError::StringConversion),
            crate::codec::meta_text_safe(old(self).pv().metadata) && !crate::yaml::yaml_emits(
                crate::parcel::header_value(old(self).pv()),
            ) ==> r == Err::<(), ParcelError>(ParcelError::Codec),
            crate::codec::meta_text_safe(old(self).pv().metadata) && crate::yaml::yaml_emits(
                crate::parcel::header_value(old(self).pv()),
            ) && !crate::parcel::store_ok(old(self).pv(), old(self).bytes()) ==> r == Err::<
                (),
                ParcelError,
            >(ParcelError::Io),
            r is Err ==> final(self).pv() == old(self).pv() && final(self).bytes() == old(
                self,
            ).bytes(),
            r is Ok ==> final(self).pv() == (ParcelV {
                file_offset: final(self).pv().file_offset,
                to_add: Seq::<(u64, Seq<u8>)>::empty(),
                on_disk: true,
                ..old(self).pv()
            }) && final(self).pv().file_offset is Some,
            r is Ok ==> ({
                let fo = final(self).pv().file_offset.unwrap() as int;
                let bytes = final(self).bytes();
                &&& fo == crate::parcel::store_target(old(self).pv())
                &&& fo >= 9
                &&& (match old(self).pv().file_offset {
                    Some(cur) => fo >= cur && (fo == cur || fo >= cur + (cur + 4) / 5),
                    None => true,
                })
                &&& bytes.len() == crate::parcel::store_len(old(self).pv(), old(self).bytes())
                &&& bytes.len() >= fo
                &&& bytes.subrange(
                    4,
                    4 + crate::yaml::yaml_emit(
                        crate::parcel::header_value(old(self).pv()),
                    ).len() as int,
                ) == crate::yaml::yaml_emit(crate::parcel::header_value(old(self).pv()))
                &&& (forall|p: int|
                    4 + crate::yaml::yaml_emit(
                        crate::parcel::header_value(old(self).pv()),
                    ).len() as int <= p < fo - 5 ==> #[trigger] bytes[p] == 32u8)
                &&& fo + old(self).pv().next_offset <= usize::MAX
                &&& bytes.subrange(0, 4) == magic_seq()
                &&& bytes.subrange(fo - 5, fo) == crate::yaml::terminator()
                &&& crate::yaml::yaml_doc(bytes.subrange(4, fo - 5)) == Some(
                    crate::codec::yheader(
                        old(self).pv().version,
                        old(self).pv().root_inode,
                        old(self).pv().metadata,
                        old(self).pv().inodes,
                        old(self).pv().content,
                    ),
                )
                &&& find_term(bytes, 4) == Some(fo - 5)
                &&& (forall|k: u64|
                    (#[trigger] old(self).pv().queued(k)) is Some ==> fo + old(self).pv().slot_of(
                        k,
                    ).unwrap().offset + old(self).pv().queued(k).unwrap().len() <= bytes.len()
                        && bytes.subrange(
                        fo + old(self).pv().slot_of(k).unwrap().offset,
                        fo + old(self).pv().slot_of(k).unwrap().offset + old(self).pv().queued(
                            k,
                        ).unwrap().len(),
                    ) == old(self).pv().queued(k).unwrap())
                &&& (match old(self).pv().file_offset {
                    Some(cur) => forall|i: int|
                        0 <= i && cur + i < old(self).bytes().len()
                            && #[trigger] untouched_by_queue(old(self).pv(), i) ==> fo + i
                            < bytes.len() && bytes[fo + i] == old(self).bytes()[cur + i],
                    None => true,
                })
            }),
    {
        match &mut self.backing {
            Some(b) => self.parcel.store(b),
            None => Err(ParcelError::Io),
        }
    }

    /// Add a file to the parcel.
    pub fn add_file(&mut self, from: FileAdd, attrs: InodeAttr, xattrs: Vec<XattrEntry>) -> (r:
        Result<u64, ParcelError>)
        requires
            old(self).pv().wf(),
            old(self).pv().next_inode < u64::MAX,
            old(self).pv().next_offset + from@.len() <= u64::MAX,
        ensures
            final(self).pv().wf(),
            final(self).has_backing() == old(self).has_backing(),
            final(self).bytes() == old(self).bytes(),
            r matches Ok(ino) && ino == old(self).pv().next_inode,
            final(self).pv() == (ParcelV {
                inodes: old(self).pv().inodes.push(
                    (
                        old(self).pv().next_inode,
                        (InodeV {
                            kind: InodeKind::RegularFile,
                            parent: 0,
                            attrs,
                            xattrs: crate::inode::xattrs_deep(xattrs@),
                        }),
                    ),
                ),
                content: old(self).pv().content.push(
                    (
                        old(self).pv().next_inode,
                        ContentV::File(
                            (crate::inode::FileReference {
                                offset: old(self).pv().next_offset,
                                size: from@.len() as u64,
                                capacity: from@.len() as u64,
                            }),
                        ),
                    ),
                ),
                to_add: if from@.len() > 0 {
                    old(self).pv().to_add.push((old(self).pv().next_inode, from@))
                } else {
                    old(self).pv().to_add
                },
                next_inode: (old(self).pv().next_inode + 1) as u64,
                next_offset: (old(self).pv().next_offset + from@.len()) as u64,
                on_disk: old(self).pv().on_disk && from@.len() == 0,
                ..old(self).pv()
            }),
    {
        self.parcel.add_file(from, attrs, xattrs)
    }

    /// Reallocate a file's reserved slot to allow it to grow.
    pub fn realloc_reserved(&mut self, ino: u64, capacity: u64) -> (r: Result<(), ParcelError>)
        requires
            old(self).pv().wf(),
            old(self).has_backing(),
            old(self).pv().file_offset is Some,
            !(old(self).pv().content_of(ino) matches Some(c) && !(c is File)),
            old(self).pv().queued(ino) is Some ==> capacity >= old(self).pv().slot_of(
                ino,
            ).unwrap().size,
            old(self).pv().file_offset.unwrap() + old(self).pv().next_offset + capacity
                <= usize::MAX,
        ensures
            final(self).pv().wf(),
            final(self).has_backing(),
            final(self).pv() == realloc_spec(old(self).pv(), old(self).bytes(), ino, capacity).0,
            final(self).bytes() == realloc_spec(old(self).pv(), old(self).bytes(), ino, capacity).1,
            (match r {
                Ok(_) => Ok::<(), ParcelError>(()),
                Err(e) => Err::<(), ParcelError>(e),
            }) == realloc_spec(old(self).pv(), old(self).bytes(), ino, capacity).2,
    {
        match &mut self.backing {
            Some(b) => self.parcel.realloc_reserved(b, ino, capacity),
            None => Err(ParcelError::Io),
        }
    }

    /// Add a directory to the parcel.
    pub fn add_directory(&mut self, attrs: InodeAttr, xattrs: Vec<XattrEntry>) -> (r: u64)
        requires
            old(self).pv().wf(),
            old(self).pv().next_inode < u64::MAX,
        ensures
            final(self).pv().wf(),
            final(self).has_backing() == old(self).has_backing(),
            final(self).bytes() == old(self).bytes(),
            r == old(self).pv().next_inode,
            final(self).pv() == (ParcelV {
                inodes: old(self).pv().inodes.push(
                    (
                        old(self).pv().next_inode,
                        (InodeV {
                            kind: InodeKind::Directory,
                            parent: 0,
                            attrs,
                            xattrs: crate::inode::xattrs_deep(xattrs@),
                        }),
                    ),
                ),
                content: old(self).pv().content.push(
                    (old(self).pv().next_inode, ContentV::Dir(Seq::<DirEntryV>::empty())),
                ),
                next_inode: (old(self).pv().next_inode + 1) as u64,
                ..old(self).pv()
            }),
    {
        self.parcel.add_directory(attrs, xattrs)
    }

    /// Add a symlink to the parcel.
    pub fn add_symlink(&mut self, target: String, attrs: InodeAttr, xattrs: Vec<XattrEntry>) -> (r:
        Result<u64, ParcelError>)
        requires
            old(self).pv().wf(),
            old(self).pv().next_inode < u64::MAX,
        ensures
            final(self).pv().wf(),
            final(self).has_backing() == old(self).has_backing(),
            final(self).bytes() == old(self).bytes(),
            r is Ok <==> crate::yaml::text_safe(target@),
            r is Err ==> final(self).pv() == old(self).pv() && r == Err::<u64, ParcelError>(
                ParcelError::StringConversion,
            ),
            r matches Ok(ino) ==> ino == old(self).pv().next_inode && final(self).pv() == (ParcelV {
                inodes: old(self).pv().inodes.push(
                    (
                        old(self).pv().next_inode,
                        (InodeV {
                            kind: InodeKind::Symlink,
                            parent: 0,
                            attrs,
                            xattrs: crate::inode::xattrs_deep(xattrs@),
                        }),
                    ),
                ),
                content: old(self).pv().content.push(
                    (old(self).pv().next_inode, ContentV::Link(target@)),
                ),
                next_inode: (old(self).pv().next_inode + 1) as u64,
                ..old(self).pv()
            }),
    {
        self.parcel.add_symlink(target, attrs, xattrs)
    }

    /// Add a hard link to an existing path in the parcel.
    pub fn add_hardlink(&mut self, target: &str) -> (r: Result<u64, ParcelError>)
        requires
            old(self).pv().wf(),
        ensures
            *final(self) == *old(self),
            r == (match Parcel::select_spec(old(self).pv(), target@) {
                Some(ino) => Ok::<u64, ParcelError>(ino),
                None => Err::<u64, ParcelError>(ParcelError::Enoent),
            }),
    {
        self.parcel.add_hardlink(target)
    }

    /// Add a character device to the parcel.
    pub fn add_char(&mut self, attrs: InodeAttr, xattrs: Vec<XattrEntry>) -> (r: u64)
        requires
            old(self).pv().wf(),
            old(self).pv().next_inode < u64::MAX,
        ensures
            final(self).pv().wf(),
            final(self).has_backing() == old(self).has_backing(),
            final(self).bytes() == old(self).bytes(),
            r == old(self).pv().next_inode,
            final(self).pv() == (ParcelV {
                inodes: old(self).pv().inodes.push(
                    (
                        old(self).pv().next_inode,
                        (InodeV {
                            kind: InodeKind::CharDevice,
                            parent: 0,
                            attrs,
                            xattrs: crate::inode::xattrs_deep(xattrs@),
                        }),
                    ),
                ),
                content: old(self).pv().content.push(
                    (old(self).pv().next_inode, ContentV::Dev(attrs.rdev)),
                ),
                next_inode: (old(self).pv().next_inode + 1) as u64,
                ..old(self).pv()
            }),
    {
        self.parcel.add_char(attrs, xattrs)
    }

    /// Delete an item from the parcel.
    pub fn delete(&mut self, ino: u64) -> (r: Result<(), ParcelError>)
        requires
            old(self).pv().wf(),
        ensures
            final(self).pv().wf(),
            final(self).has_backing() == old(self).has_backing(),
            final(self).bytes() == old(self).bytes(),
            r is Ok <==> old(self).pv().inode_of(ino) is Some,
            r is Ok ==> final(self).pv().inode_of(ino) is None && final(self).pv().content_of(ino)
                is None && final(self).pv().queued(ino) is None && (forall|k: u64|
                k != ino ==> final(self).pv().inode_of(k) == old(self).pv().inode_of(k)) && (
            forall|k: u64| k != ino ==> final(self).pv().content_of(k) == old(self).pv().content_of(
                k,
            )) && (forall|k: u64|
                k != ino ==> final(self).pv().queued(k) == old(self).pv().queued(k))
                && final(self).pv() == (ParcelV {
                inodes: final(self).pv().inodes,
                content: final(self).pv().content,
                to_add: final(self).pv().to_add,
                ..old(self).pv()
            }),
            r is Err ==> final(self).pv() == old(self).pv() && r == Err::<(), ParcelError>(
                ParcelError::Enoent,
            ),
    {
        self.parcel.delete(ino)
    }

    /// Get the inode number for a path.
    pub fn select(&self, path: &str) -> (r: Option<u64>)
        requires
            self.pv().wf(),
        ensures
            r == Parcel::select_spec(self.pv(), path@),
    {
        self.parcel.select(path)
    }

    /// Read the contents of a file.
    pub fn read(&mut self, ino: u64, offset: u64, size: Option<u64>) -> (r: Result<
        Vec<u8>,
        ParcelError,
    >)
        requires
            old(self).pv().wf(),
            old(self).pv().on_disk,
            old(self).has_backing(),
        ensures
            final(self).pv() == old(self).pv(),
            final(self).bytes() == old(self).bytes(),
            final(self).has_backing(),
            (match r {
                Ok(b) => Ok(b@),
                Err(e) => Err::<Seq<u8>, ParcelError>(e),
            }) == read_spec(old(self).pv(), old(self).bytes(), ino, offset, size),
    {
        match &mut self.backing {
            Some(b) => self.parcel.read(b, ino, offset, size),
            None => Err(ParcelError::Io),
        }
    }

    /// Write to a file.
    pub fn write(&mut self, ino: u64, offset: u64, buf: &[u8]) -> (r: Result<u64, ParcelError>)
        requires
            old(self).pv().wf(),
            old(self).pv().on_disk,
            old(self).has_backing(),
            offset + buf@.len() <= u64::MAX,
        ensures
            final(self).pv().wf(),
            final(self).has_backing(),
            final(self).pv() == write_spec(old(self).pv(), old(self).bytes(), ino, offset, buf@).0,
            final(self).bytes() == write_spec(
                old(self).pv(),
                old(self).bytes(),
                ino,
                offset,
                buf@,
            ).1,
            (match r {
                Ok(n) => Ok(n),
                Err(e) => Err::<u64, ParcelError>(e),
            }) == write_spec(old(self).pv(), old(self).bytes(), ino, offset, buf@).2,
    {
        match &mut self.backing {
            Some(b) => self.parcel.write(b, ino, offset, buf),
            None => Err(ParcelError::Io),
        }
    }

    /// Write to a file, expanding it if necessary.
    pub fn expand_write(&mut self, ino: u64, offset: u64, buf: &[u8]) -> (r: Result<
        u64,
        ParcelError,
    >)
        requires
            old(self).pv().wf(),
            old(self).pv().on_disk,
            old(self).has_backing(),
            offset + buf@.len() <= u64::MAX,
            old(self).pv().file_offset.unwrap() + old(self).pv().next_offset + (offset
                + buf@.len()) <= usize::MAX,
        ensures
            final(self).pv().wf(),
            final(self).has_backing(),
            final(self).pv() == expand_write_spec(
                old(self).pv(),
                old(self).bytes(),
                ino,
                offset,
                buf@,
            ).0,
            final(self).bytes() == expand_write_spec(
                old(self).pv(),
                old(self).bytes(),
                ino,
                offset,
                buf@,
            ).1,
            (match r {
                Ok(n) => Ok(n),
                Err(e) => Err::<u64, ParcelError>(e),
            }) == expand_write_spec(old(self).pv(), old(self).bytes(), ino, offset, buf@).2,
    {
        match &mut self.backing {
            Some(b) => self.parcel.expand_write(b, ino, offset, buf),
            None => Err(ParcelError::Io),
        }
    }

    /// Insert an entry to a directory mapping a filename to an inode.
    pub fn insert_dirent(&mut self, parent: u64, name: String, child: u64, kind: InodeKind) -> (r:
        Result<(), ParcelError>)
        requires
            old(self).pv().wf(),
            old(self).pv().content_of(parent) matches Some(c) && c is Dir,
            old(self).pv().inode_of(child) is Some,
        ensures
            final(self).pv().wf(),
            final(self).has_backing() == old(self).has_backing(),
            final(self).bytes() == old(self).bytes(),
            r is Ok <==> crate::yaml::text_safe(name@),
            r is Err ==> final(self).pv() == old(self).pv() && r == Err::<(), ParcelError>(
                ParcelError::StringConversion,
            ),
            r is Ok ==> final(self).pv().content_of(parent) == Some(
                ContentV::Dir(
                    crate::dir::dir_upsert(
                        dir_entries(old(self).pv(), parent),
                        (DirEntryV { name: name@, child, kind }),
                    ),
                ),
            ),
            r is Ok ==> (forall|k: u64|
                k != parent ==> final(self).pv().content_of(k) == old(self).pv().content_of(k)),
            r is Ok ==> final(self).pv().inode_of(child) == Some(
                (InodeV { parent, ..old(self).pv().inode_of(child).unwrap() }),
            ),
            r is Ok ==> (forall|k: u64|
                k != child ==> final(self).pv().inode_of(k) == old(self).pv().inode_of(k)),
            final(self).pv() == (ParcelV {
                inodes: final(self).pv().inodes,
                content: final(self).pv().content,
                ..old(self).pv()
            }),
    {
        self.parcel.insert_dirent(parent, name, child, kind)
    }

    /// Insert a whiteout entry for a filename in a directory.
    pub fn insert_whiteout(&mut self, parent: u64, name: String) -> (r: Result<(), ParcelError>)
        requires
            old(self).pv().wf(),
            old(self).pv().content_of(parent) matches Some(c) && c is Dir,
        ensures
            final(self).pv().wf(),
            final(self).has_backing() == old(self).has_backing(),
            final(self).bytes() == old(self).bytes(),
            r is Ok <==> crate::yaml::text_safe(name@),
            r is Err ==> final(self).pv() == old(self).pv() && r == Err::<(), ParcelError>(
                ParcelError::StringConversion,
            ),
            r is Ok ==> final(self).pv().content_of(parent) == Some(
                ContentV::Dir(
                    crate::dir::dir_upsert(
                        dir_entries(old(self).pv(), parent),
                        (DirEntryV { name: name@, child: 0, kind: InodeKind::Whiteout }),
                    ),
                ),
            ),
            r is Ok ==> (forall|k: u64|
                k != parent ==> final(self).pv().content_of(k) == old(self).pv().content_of(k)),
            final(self).pv() == (ParcelV { content: final(self).pv().content, ..old(self).pv() }),
    {
        self.parcel.insert_whiteout(parent, name)
    }

    /// Get the attributes of an inode.
    pub fn getattr(&self, ino: u64) -> (r: Option<FileAttr>)
        ensures
            r == getattr_spec(self.pv(), ino),
    {
        self.parcel.getattr(ino)
    }

    /// Replace the attributes of an inode; reports whether it exists.
    pub fn set_attrs(&mut self, ino: u64, attrs: InodeAttr) -> (r: bool)
        requires
            old(self).pv().wf(),
        ensures
            final(self).pv().wf(),
            final(self).has_backing() == old(self).has_backing(),
            final(self).bytes() == old(self).bytes(),
            r == (old(self).pv().inode_of(ino) is Some),
            r ==> final(self).pv().inode_of(ino) == Some(
                (InodeV { attrs, ..old(self).pv().inode_of(ino).unwrap() }),
            ),
            r ==> (forall|k: u64|
                k != ino ==> final(self).pv().inode_of(k) == old(self).pv().inode_of(k)),
            r ==> final(self).pv() == (ParcelV {
                inodes: final(self).pv().inodes,
                ..old(self).pv()
            }),
            !r ==> final(self).pv() == old(self).pv(),
    {
        self.parcel.set_attrs(ino, attrs)
    }

    /// Check if an inode exists.
    pub fn inode_exists(&self, ino: u64) -> (r: bool)
        ensures
            r == (self.pv().inode_of(ino) is Some),
    {
        self.parcel.inode_exists(ino)
    }

    /// Read the contents of a directory, whiteout entries included.
    pub fn readdir(&self, ino: u64) -> (r: Option<Vec<(u64, InodeKind, String)>>)
        ensures
            match r {
                Some(v) => self.pv().content_of(ino) matches Some(c) && c matches ContentV::Dir(d)
                    && v@.len() == d.len() && (forall|i: int|
                    0 <= i < d.len() ==> (#[trigger] v@[i]).0 == d[i].child && v@[i].1 == d[i].kind
                        && v@[i].2@ == d[i].name),
                None => !(self.pv().content_of(ino) matches Some(c) && c is Dir),
            },
    {
        self.parcel.readdir(ino)
    }

    /// Get the inode number of an object by name within a directory.
    pub fn lookup(&self, parent: u64, name: &str) -> (r: Option<u64>)
        requires
            self.pv().wf(),
        ensures
            r == lookup_spec(self.pv(), parent, name@),
    {
        self.parcel.lookup(parent, name)
    }

    /// The raw directory entry bound to `name`, whiteouts included.
    pub fn dirent_of(&self, parent: u64, name: &str) -> (r: Option<(u64, InodeKind)>)
        requires
            self.pv().wf(),
        ensures
            r == (match self.pv().content_of(parent) {
                Some(c) => match c {
                    ContentV::Dir(d) => match crate::dir::dir_find(d, name@) {
                        Some(e) => Some((e.child, e.kind)),
                        None => None,
                    },
                    _ => None,
                },
                _ => None,
            }),
    {
        self.parcel.dirent_of(parent, name)
    }

    /// Get the target of a symlink.
    pub fn readlink(&self, ino: u64) -> (r: Option<Vec<u8>>)
        requires
            self.pv().content_of(ino) is Some ==> self.pv().content_of(ino).unwrap() is Link,
        ensures
            match r {
                Some(b) => self.pv().content_of(ino) matches Some(c) && c matches ContentV::Link(t)
                    && b@ == vstd::utf8::encode_utf8(t),
                None => self.pv().content_of(ino) is None,
            },
    {
        self.parcel.readlink(ino)
    }

    /// Get the extended attributes of an inode.
    pub fn getxattrs(&self, ino: u64) -> (r: Option<Vec<XattrEntry>>)
        ensures
            match r {
                Some(v) => self.pv().inode_of(ino) matches Some(nd) && crate::inode::xattrs_deep(
                    v@,
                ) == nd.xattrs,
                None => self.pv().inode_of(ino) is None,
            },
    {
        self.parcel.getxattrs(ino)
    }

    /// Get a mutable reference to the parcel's metadata.
    pub fn metadata(&mut self) -> (r: &mut ParcelMetadata)
        ensures
            (*r)@ == old(self).pv().metadata,
            final(self).pv() == (ParcelV { metadata: final(r)@, ..old(self).pv() }),
            final(self).has_backing() == old(self).has_backing(),
            final(self).bytes() == old(self).bytes(),
            old(self).pv().wf() ==> final(self).pv().wf(),
    {
        self.parcel.metadata_mut()
    }
}

} // verus!
