use vstd::prelude::*;

use crate::bytestore::{write_result, ByteStore};
use crate::dir::{
    dir_find, dir_names_unique, dir_pos, dir_upsert, lemma_dir_find_at, lemma_dir_find_none,
    lemma_dir_upsert_at, lemma_dir_upsert_find, lemma_dir_upsert_none,
};
use crate::error::ParcelError;
use crate::inode::{
    dirents_deep, xattrs_deep, ContentV, DirEntry, DirEntryV, FileAttr, FileReference, Inode,
    InodeAttr, InodeContent, InodeKind, InodeV, XattrEntry,
};
use crate::metadata::{MetadataV, ParcelMetadata};
use crate::table::{
    lemma_tbl_find_at, lemma_tbl_find_none, lemma_tbl_find_none_of_unique,
    lemma_tbl_find_first_idx, lemma_tbl_find_some_idx, lemma_tbl_key_to_contains, lemma_tbl_push,
    lemma_tbl_remove, lemma_tbl_update, tbl_contains, tbl_find, tbl_pos, tbl_unique,
};
use crate::PARCEL_VERSION;
use vstd::string::StrSliceExecFns;

verus! {

/// Temporarily holds a file we want to add to the parcel.
#[derive(Debug)]
pub enum FileAdd {
    /// We want to add a file by its literal contents.
    Bytes(Vec<u8>),
    /// We're creating a new empty file.
    Empty,
}

impl View for FileAdd {
    type V = Seq<u8>;

    /// The payload bytes the queued addition will write.
    open spec fn view(&self) -> Seq<u8> {
        match self {
            FileAdd::Bytes(b) => b@,
            FileAdd::Empty => Seq::<u8>::empty(),
        }
    }
}

/// The element-wise view of the inode table.
pub open spec fn inodes_deep(s: Seq<(u64, Inode)>) -> Seq<(u64, InodeV)> {
    Seq::new(s.len(), |i: int| (s[i].0, s[i].1@))
}

/// The element-wise view of the content table.
pub open spec fn content_deep(s: Seq<(u64, InodeContent)>) -> Seq<(u64, ContentV)> {
    Seq::new(s.len(), |i: int| (s[i].0, s[i].1@))
}

/// The element-wise view of the queue of pending payloads.
pub open spec fn queue_deep(s: Seq<(u64, FileAdd)>) -> Seq<(u64, Seq<u8>)> {
    Seq::new(s.len(), |i: int| (s[i].0, s[i].1@))
}

/// The mathematical content of a parcel container.
#[verifier::ext_equal]
pub struct ParcelV {
    /// The format version the container carries.
    pub version: u32,
    /// The inode number of the root directory.
    pub root_inode: u64,
    /// The packaging metadata.
    pub metadata: MetadataV,
    /// The inode table.
    pub inodes: Seq<(u64, InodeV)>,
    /// The content table.
    pub content: Seq<(u64, ContentV)>,
    /// Where the payload region starts in the backing store, once stored.
    pub file_offset: Option<u64>,
    /// The lowest inode number never yet allocated.
    pub next_inode: u64,
    /// The first free byte past all reserved payload slots.
    pub next_offset: u64,
    /// Payloads queued for the next store, by inode number.
    pub to_add: Seq<(u64, Seq<u8>)>,
    /// Whether the in-memory state is consistent with the backing store.
    pub on_disk: bool,
}

impl ParcelV {
    /// The inode record of `k`, if allocated.
    pub open spec fn inode_of(self, k: u64) -> Option<InodeV> {
        tbl_find(self.inodes, k)
    }

    /// The content record of `k`, if allocated.
    pub open spec fn content_of(self, k: u64) -> Option<ContentV> {
        tbl_find(self.content, k)
    }

    /// The payload slot of `k`, when `k` is a regular file.
    pub open spec fn slot_of(self, k: u64) -> Option<FileReference> {
        match self.content_of(k) {
            Some(ContentV::File(f)) => Some(f),
            _ => None,
        }
    }

    /// The payload queued for `k`, if any.
    pub open spec fn queued(self, k: u64) -> Option<Seq<u8>> {
        tbl_find(self.to_add, k)
    }

    /// Every table key refers to an entry of the other table as well.
    pub open spec fn keys_paired(self) -> bool {
        (forall|i: int|
            0 <= i < self.inodes.len() ==> tbl_contains(
                self.content,
                (#[trigger] self.inodes[i]).0,
            )) && (forall|i: int|
            0 <= i < self.content.len() ==> tbl_contains(
                self.inodes,
                (#[trigger] self.content[i]).0,
            ))
    }

    /// Allocated inode numbers all lie below the allocator's watermark.
    pub open spec fn keys_bounded(self) -> bool {
        forall|i: int| 0 <= i < self.inodes.len() ==> (#[trigger] self.inodes[i]).0
            < self.next_inode
    }

    /// Payload slots are sized sanely and stay below the payload watermark.
    pub open spec fn slots_wf(self) -> bool {
        forall|i: int|
            0 <= i < self.content.len() ==> match (#[trigger] self.content[i]).1 {
                ContentV::File(f) => f.size <= f.capacity && f.offset + f.capacity
                    <= self.next_offset,
                _ => true,
            }
    }

    /// Payload slots with reserved space never overlap.
    pub open spec fn slots_disjoint(self) -> bool {
        forall|i: int, j: int|
            0 <= i < self.content.len() && 0 <= j < self.content.len() && i != j ==> match (
            (#[trigger] self.content[i]).1,
            (#[trigger] self.content[j]).1,
            ) {
                (ContentV::File(f), ContentV::File(g)) => f.capacity == 0 || g.capacity == 0
                    || f.offset + f.capacity <= g.offset || g.offset + g.capacity <= f.offset,
                _ => true,
            }
    }

    /// Directory entry lists never bind one name twice.
    pub open spec fn dirs_wf(self) -> bool {
        forall|i: int|
            0 <= i < self.content.len() ==> match (#[trigger] self.content[i]).1 {
                ContentV::Dir(d) => dir_names_unique(d),
                _ => true,
            }
    }

    /// Directory entry names and symlink targets are free of line
    /// breaks: the header codec's emitter demands it of every text
    /// scalar it writes.
    pub open spec fn strings_wf(self) -> bool {
        crate::codec::tables_text_safe(self.content)
    }

    /// Queued payloads are pending exactly for regular files whose slot
    /// size equals the payload length, and only while not on disk.
    pub open spec fn queue_wf(self) -> bool {
        tbl_unique(self.to_add) && (forall|i: int|
            0 <= i < self.to_add.len() ==> (#[trigger] self.to_add[i]).1.len() > 0 && match self
                .slot_of(self.to_add[i].0) {
                Some(f) => f.size == self.to_add[i].1.len(),
                None => false,
            }) && (self.to_add.len() > 0 ==> !self.on_disk)
    }

    /// The container's internal invariant.
    pub open spec fn wf(self) -> bool {
        &&& tbl_unique(self.inodes)
        &&& tbl_unique(self.content)
        &&& self.keys_paired()
        &&& self.keys_bounded()
        &&& self.slots_wf()
        &&& self.slots_disjoint()
        &&& self.dirs_wf()
        &&& self.strings_wf()
        &&& self.queue_wf()
        &&& (self.on_disk ==> self.file_offset is Some)
    }

    /// The serialised fields: what survives a store/load round trip.
    pub open spec fn logical(self) -> (u32, u64, MetadataV, Seq<(u64, InodeV)>, Seq<
        (u64, ContentV),
    >) {
        (self.version, self.root_inode, self.metadata, self.inodes, self.content)
    }
}

/// The kind that `getattr` reports for a content record.
pub open spec fn content_kind(c: ContentV) -> InodeKind {
    match c {
        ContentV::Dir(_) => InodeKind::Directory,
        ContentV::File(_) => InodeKind::RegularFile,
        ContentV::Link(_) => InodeKind::Symlink,
        ContentV::Dev(_) => InodeKind::CharDevice,
        ContentV::White => InodeKind::Whiteout,
    }
}

/// The size that `getattr` reports for a content record: a file's byte
/// count, a symlink's target length in bytes, zero otherwise.
pub open spec fn content_size(c: ContentV) -> int {
    match c {
        ContentV::File(f) => f.size as int,
        ContentV::Link(t) => (vstd::utf8::encode_utf8(t).len() as usize) as int,
        _ => 0,
    }
}

/// The number of 8192-byte blocks needed for `size` bytes.
pub open spec fn blocks_of(size: int) -> int {
    size / 8192 + if size % 8192 == 0 {
        0int
    } else {
        1int
    }
}

/// What `getattr` reports: `None` for absent inodes and whiteouts, else
/// the attributes joined with the content's kind and size.
pub open spec fn getattr_spec(pv: ParcelV, ino: u64) -> Option<FileAttr> {
    match (pv.inode_of(ino), pv.content_of(ino)) {
        (Some(nd), Some(c)) => match c {
            ContentV::White => None,
            _ => Some(
                (FileAttr {
                    atime: nd.attrs.atime,
                    ctime: nd.attrs.ctime,
                    mtime: nd.attrs.mtime,
                    crtime: nd.attrs.ctime,
                    blocks: blocks_of(content_size(c)) as u64,
                    blksize: 8192,
                    gid: nd.attrs.gid,
                    uid: nd.attrs.uid,
                    ino,
                    nlink: nd.attrs.nlink,
                    perm: nd.attrs.perm as u16,
                    rdev: nd.attrs.rdev as u32,
                    size: content_size(c) as u64,
                    kind: content_kind(c),
                    flags: 0,
                }),
            ),
        },
        _ => None,
    }
}

/// The entry list of `ino` when it is a directory, else the empty list.
pub open spec fn dir_entries(pv: ParcelV, ino: u64) -> Seq<DirEntryV> {
    match pv.content_of(ino) {
        Some(ContentV::Dir(d)) => d,
        _ => Seq::<DirEntryV>::empty(),
    }
}

/// What a directory lookup returns: the child of the entry named `name`,
/// unless that entry is a whiteout or the parent is not a directory.
pub open spec fn lookup_spec(pv: ParcelV, parent: u64, name: Seq<char>) -> Option<u64> {
    match pv.content_of(parent) {
        Some(ContentV::Dir(d)) => match dir_find(d, name) {
            Some(e) => if e.kind != InodeKind::Whiteout {
                Some(e.child)
            } else {
                None
            },
            None => None,
        },
        _ => None,
    }
}

/// In a well-formed container, the next inode number is bound nowhere.
proof fn lemma_fresh_key(pv: ParcelV)
    requires
        pv.wf(),
    ensures
        !tbl_contains(pv.inodes, pv.next_inode),
        !tbl_contains(pv.content, pv.next_inode),
        !tbl_contains(pv.to_add, pv.next_inode),
        forall|j: int| 0 <= j < pv.to_add.len() ==> (#[trigger] pv.to_add[j]).0 != pv.next_inode,
{
    let k = pv.next_inode;
    lemma_tbl_find_none(pv.inodes, k);
    assert forall|j: int| 0 <= j < pv.content.len() implies (#[trigger] pv.content[j]).0 != k by {
        assert(tbl_contains(pv.inodes, pv.content[j].0));
        lemma_tbl_find_some_idx(pv.inodes, pv.content[j].0);
    }
    lemma_tbl_find_none(pv.content, k);
    assert forall|j: int| 0 <= j < pv.to_add.len() implies (#[trigger] pv.to_add[j]).0 != k by {
        assert(pv.slot_of(pv.to_add[j].0) is Some);
        lemma_tbl_find_some_idx(pv.content, pv.to_add[j].0);
        let i = choose|i: int|
            0 <= i < pv.content.len() && (#[trigger] pv.content[i]).0 == pv.to_add[j].0
                && pv.content[i].1 == tbl_find(pv.content, pv.to_add[j].0).unwrap();
        assert(pv.content[i].0 != k);
    }
    lemma_tbl_find_none(pv.to_add, k);
}

/// Allocating a fresh non-file inode preserves the container invariant.
proof fn lemma_add_plain_wf(pre: ParcelV, post: ParcelV, nv: InodeV, cv: ContentV)
    requires
        pre.wf(),
        pre.next_inode < u64::MAX,
        match cv {
            ContentV::Dir(d) => dir_names_unique(d) && (forall|j: int|
                0 <= j < d.len() ==> crate::yaml::text_safe((#[trigger] d[j]).name)),
            ContentV::File(_) => false,
            ContentV::Link(t) => crate::yaml::text_safe(t),
            _ => true,
        },
        post == (ParcelV {
            inodes: pre.inodes.push((pre.next_inode, nv)),
            content: pre.content.push((pre.next_inode, cv)),
            next_inode: (pre.next_inode + 1) as u64,
            ..pre
        }),
    ensures
        post.wf(),
{
    let ino = pre.next_inode;
    lemma_fresh_key(pre);
    lemma_tbl_push(pre.inodes, ino, nv);
    lemma_tbl_push(pre.content, ino, cv);
    lemma_tbl_find_none_of_unique(pre.inodes, ino);
    lemma_tbl_find_none_of_unique(pre.content, ino);
    assert forall|i: int|
        0 <= i < post.inodes.len() implies tbl_contains(
        post.content,
        (#[trigger] post.inodes[i]).0,
    ) by {
        if i < pre.inodes.len() {
            assert(post.inodes[i] == pre.inodes[i]);
        } else {
            assert(post.inodes[i].0 == ino);
        }
    }
    assert forall|i: int|
        0 <= i < post.content.len() implies tbl_contains(
        post.inodes,
        (#[trigger] post.content[i]).0,
    ) by {
        if i < pre.content.len() {
            assert(post.content[i] == pre.content[i]);
        } else {
            assert(post.content[i].0 == ino);
        }
    }
    assert forall|i: int| 0 <= i < post.inodes.len() implies (#[trigger] post.inodes[i]).0
        < post.next_inode by {
        if i < pre.inodes.len() {
            assert(post.inodes[i] == pre.inodes[i]);
        }
    }
    assert(post.slots_wf()) by {
        assert forall|i: int|
            0 <= i < post.content.len() implies match (#[trigger] post.content[i]).1 {
            ContentV::File(f) => f.size <= f.capacity && f.offset + f.capacity
                <= post.next_offset,
            _ => true,
        } by {
            if i < pre.content.len() {
                assert(post.content[i] == pre.content[i]);
            }
        }
    }
    assert(post.slots_disjoint()) by {
        assert forall|i: int, j: int|
            0 <= i < post.content.len() && 0 <= j < post.content.len() && i != j implies match (
        (#[trigger] post.content[i]).1, (#[trigger] post.content[j]).1) {
            (ContentV::File(f), ContentV::File(g)) => f.capacity == 0 || g.capacity == 0
                || f.offset + f.capacity <= g.offset || g.offset + g.capacity <= f.offset,
            _ => true,
        } by {
            if i < pre.content.len() && j < pre.content.len() {
                assert(post.content[i] == pre.content[i]);
                assert(post.content[j] == pre.content[j]);
            } else if i < pre.content.len() {
                assert(post.content[i] == pre.content[i]);
            } else if j < pre.content.len() {
                assert(post.content[j] == pre.content[j]);
            }
        }
    }
    assert(post.dirs_wf()) by {
        assert forall|i: int|
            0 <= i < post.content.len() implies match (#[trigger] post.content[i]).1 {
            ContentV::Dir(d) => dir_names_unique(d),
            _ => true,
        } by {
            if i < pre.content.len() {
                assert(post.content[i] == pre.content[i]);
            }
        }
    }
    assert(post.strings_wf()) by {
        assert(crate::codec::tables_text_safe(pre.content));
        assert forall|i: int|
            0 <= i < post.content.len() implies match (#[trigger] post.content[i]).1 {
            ContentV::Dir(d) => forall|j: int| 0 <= j < d.len() ==> crate::yaml::text_safe(
                (#[trigger] d[j]).name,
            ),
            ContentV::Link(t) => crate::yaml::text_safe(t),
            _ => true,
        } by {
            if i < pre.content.len() {
                assert(post.content[i] == pre.content[i]);
                assert(match (#[trigger] pre.content[i]).1 {
                    ContentV::Dir(d) => forall|j: int|
                        0 <= j < d.len() ==> crate::yaml::text_safe((#[trigger] d[j]).name),
                    ContentV::Link(t) => crate::yaml::text_safe(t),
                    _ => true,
                });
            } else {
                assert(post.content == pre.content.push((pre.next_inode, cv)));
                assert(pre.content.push((pre.next_inode, cv))[i] == (pre.next_inode, cv));
                assert(post.content[i].1 == cv);
            }
        }
    }
    assert(post.queue_wf()) by {
        assert forall|i: int|
            0 <= i < post.to_add.len() implies (#[trigger] post.to_add[i]).1.len() > 0
            && match post.slot_of(post.to_add[i].0) {
            Some(f) => f.size == post.to_add[i].1.len(),
            None => false,
        } by {
            assert(post.to_add[i] == pre.to_add[i]);
            assert(pre.to_add[i].0 != ino);
            assert(post.content_of(pre.to_add[i].0) == pre.content_of(pre.to_add[i].0));
        }
    }
}

/// Allocating a fresh regular file preserves the container invariant.
proof fn lemma_add_file_wf(pre: ParcelV, post: ParcelV, nv: InodeV, payload: Seq<u8>)
    requires
        pre.wf(),
        pre.next_inode < u64::MAX,
        pre.next_offset + payload.len() <= u64::MAX,
        post == (ParcelV {
            inodes: pre.inodes.push((pre.next_inode, nv)),
            content: pre.content.push(
                (
                    pre.next_inode,
                    ContentV::File(
                        (FileReference {
                            offset: pre.next_offset,
                            size: payload.len() as u64,
                            capacity: payload.len() as u64,
                        }),
                    ),
                ),
            ),
            to_add: if payload.len() > 0 {
                pre.to_add.push((pre.next_inode, payload))
            } else {
                pre.to_add
            },
            next_inode: (pre.next_inode + 1) as u64,
            next_offset: (pre.next_offset + payload.len()) as u64,
            on_disk: pre.on_disk && payload.len() == 0,
            ..pre
        }),
    ensures
        post.wf(),
{
    let ino = pre.next_inode;
    let slot = FileReference {
        offset: pre.next_offset,
        size: payload.len() as u64,
        capacity: payload.len() as u64,
    };
    let cv = ContentV::File(slot);
    lemma_fresh_key(pre);
    lemma_tbl_push(pre.inodes, ino, nv);
    lemma_tbl_push(pre.content, ino, cv);
    lemma_tbl_find_none_of_unique(pre.inodes, ino);
    lemma_tbl_find_none_of_unique(pre.content, ino);
    if payload.len() > 0 {
        lemma_tbl_push(pre.to_add, ino, payload);
    }
    assert forall|i: int|
        0 <= i < post.inodes.len() implies tbl_contains(
        post.content,
        (#[trigger] post.inodes[i]).0,
    ) by {
        if i < pre.inodes.len() {
            assert(post.inodes[i] == pre.inodes[i]);
        } else {
            assert(post.inodes[i].0 == ino);
        }
    }
    assert forall|i: int|
        0 <= i < post.content.len() implies tbl_contains(
        post.inodes,
        (#[trigger] post.content[i]).0,
    ) by {
        if i < pre.content.len() {
            assert(post.content[i] == pre.content[i]);
        } else {
            assert(post.content[i].0 == ino);
        }
    }
    assert forall|i: int| 0 <= i < post.inodes.len() implies (#[trigger] post.inodes[i]).0
        < post.next_inode by {
        if i < pre.inodes.len() {
            assert(post.inodes[i] == pre.inodes[i]);
        }
    }
    assert(post.slots_wf()) by {
        assert forall|i: int|
            0 <= i < post.content.len() implies match (#[trigger] post.content[i]).1 {
            ContentV::File(f) => f.size <= f.capacity && f.offset + f.capacity
                <= post.next_offset,
            _ => true,
        } by {
            if i < pre.content.len() {
                assert(post.content[i] == pre.content[i]);
            }
        }
    }
    assert(post.slots_disjoint()) by {
        assert forall|i: int, j: int|
            0 <= i < post.content.len() && 0 <= j < post.content.len() && i != j implies match (
        (#[trigger] post.content[i]).1, (#[trigger] post.content[j]).1) {
            (ContentV::File(f), ContentV::File(g)) => f.capacity == 0 || g.capacity == 0
                || f.offset + f.capacity <= g.offset || g.offset + g.capacity <= f.offset,
            _ => true,
        } by {
            if i < pre.content.len() {
                assert(post.content[i] == pre.content[i]);
            }
            if j < pre.content.len() {
                assert(post.content[j] == pre.content[j]);
            }
        }
    }
    assert(post.dirs_wf()) by {
        assert forall|i: int|
            0 <= i < post.content.len() implies match (#[trigger] post.content[i]).1 {
            ContentV::Dir(d) => dir_names_unique(d),
            _ => true,
        } by {
            if i < pre.content.len() {
                assert(post.content[i] == pre.content[i]);
            }
        }
    }
    assert(post.strings_wf()) by {
        assert forall|i: int|
            0 <= i < post.content.len() implies match (#[trigger] post.content[i]).1 {
            ContentV::Dir(d) => forall|j: int| 0 <= j < d.len() ==> crate::yaml::text_safe(
                (#[trigger] d[j]).name,
            ),
            ContentV::Link(t) => crate::yaml::text_safe(t),
            _ => true,
        } by {
            if i < pre.content.len() {
                assert(post.content[i] == pre.content[i]);
            }
        }
    }
    assert(post.queue_wf()) by {
        assert forall|i: int|
            0 <= i < post.to_add.len() implies (#[trigger] post.to_add[i]).1.len() > 0
            && match post.slot_of(post.to_add[i].0) {
            Some(f) => f.size == post.to_add[i].1.len(),
            None => false,
        } by {
            if i < pre.to_add.len() {
                assert(post.to_add[i] == pre.to_add[i]);
                assert(pre.to_add[i].0 != ino);
                assert(post.content_of(pre.to_add[i].0) == pre.content_of(pre.to_add[i].0));
            } else {
                assert(post.to_add[i] == (ino, payload));
            }
        }
    }
}

/// Whether an in-place change of one content record keeps the container
/// invariant: only directory entry lists may change, and they must keep
/// their names unique.
pub open spec fn content_compatible(a: ContentV, b: ContentV) -> bool {
    match (a, b) {
        (ContentV::Dir(_), ContentV::Dir(d)) => dir_names_unique(d) && (forall|j: int|
            0 <= j < d.len() ==> crate::yaml::text_safe((#[trigger] d[j]).name)),
        _ => a == b,
    }
}

/// Changing inode records in place and directory entry lists in place
/// (keys, lengths and everything else untouched) preserves the invariant.
proof fn lemma_wf_preserved_by_update(pre: ParcelV, post: ParcelV)
    requires
        pre.wf(),
        post.next_inode == pre.next_inode,
        post.next_offset == pre.next_offset,
        post.to_add == pre.to_add,
        post.on_disk == pre.on_disk,
        post.file_offset == pre.file_offset,
        post.inodes.len() == pre.inodes.len(),
        post.content.len() == pre.content.len(),
        forall|i: int| 0 <= i < pre.inodes.len() ==> (#[trigger] post.inodes[i]).0
            == pre.inodes[i].0,
        forall|i: int| 0 <= i < pre.content.len() ==> (#[trigger] post.content[i]).0
            == pre.content[i].0,
        forall|i: int|
            0 <= i < pre.content.len() ==> content_compatible(
                pre.content[i].1,
                (#[trigger] post.content[i]).1,
            ),
    ensures
        post.wf(),
{
    assert forall|a: int, b: int| 0 <= a < b < post.inodes.len() implies #[trigger] post.inodes[a].0
        != #[trigger] post.inodes[b].0 by {
        assert(pre.inodes[a].0 != pre.inodes[b].0);
    }
    assert forall|a: int, b: int|
        0 <= a < b < post.content.len() implies #[trigger] post.content[a].0
        != #[trigger] post.content[b].0 by {
        assert(pre.content[a].0 != pre.content[b].0);
    }
    assert forall|i: int|
        0 <= i < post.inodes.len() implies tbl_contains(
        post.content,
        (#[trigger] post.inodes[i]).0,
    ) by {
        assert(tbl_contains(pre.content, pre.inodes[i].0));
        lemma_tbl_find_some_idx(pre.content, pre.inodes[i].0);
        let j = choose|j: int|
            0 <= j < pre.content.len() && (#[trigger] pre.content[j]).0 == pre.inodes[i].0
                && pre.content[j].1 == tbl_find(pre.content, pre.inodes[i].0).unwrap();
        lemma_tbl_key_to_contains(post.content, post.inodes[i].0, j);
    }
    assert forall|i: int|
        0 <= i < post.content.len() implies tbl_contains(
        post.inodes,
        (#[trigger] post.content[i]).0,
    ) by {
        assert(tbl_contains(pre.inodes, pre.content[i].0));
        lemma_tbl_find_some_idx(pre.inodes, pre.content[i].0);
        let j = choose|j: int|
            0 <= j < pre.inodes.len() && (#[trigger] pre.inodes[j]).0 == pre.content[i].0
                && pre.inodes[j].1 == tbl_find(pre.inodes, pre.content[i].0).unwrap();
        lemma_tbl_key_to_contains(post.inodes, post.content[i].0, j);
    }
    assert forall|i: int| 0 <= i < post.inodes.len() implies (#[trigger] post.inodes[i]).0
        < post.next_inode by {
        assert(pre.inodes[i].0 < pre.next_inode);
    }
    assert(post.slots_wf()) by {
        assert forall|i: int|
            0 <= i < post.content.len() implies match (#[trigger] post.content[i]).1 {
            ContentV::File(f) => f.size <= f.capacity && f.offset + f.capacity
                <= post.next_offset,
            _ => true,
        } by {
            assert(content_compatible(pre.content[i].1, post.content[i].1));
        }
    }
    assert(post.slots_disjoint()) by {
        assert forall|i: int, j: int|
            0 <= i < post.content.len() && 0 <= j < post.content.len() && i != j implies match (
        (#[trigger] post.content[i]).1, (#[trigger] post.content[j]).1) {
            (ContentV::File(f), ContentV::File(g)) => f.capacity == 0 || g.capacity == 0
                || f.offset + f.capacity <= g.offset || g.offset + g.capacity <= f.offset,
            _ => true,
        } by {
            assert(content_compatible(pre.content[i].1, post.content[i].1));
            assert(content_compatible(pre.content[j].1, post.content[j].1));
        }
    }
    assert(post.dirs_wf()) by {
        assert forall|i: int|
            0 <= i < post.content.len() implies match (#[trigger] post.content[i]).1 {
            ContentV::Dir(d) => dir_names_unique(d),
            _ => true,
        } by {
            assert(content_compatible(pre.content[i].1, post.content[i].1));
        }
    }
    assert(post.strings_wf()) by {
        assert forall|i: int|
            0 <= i < post.content.len() implies match (#[trigger] post.content[i]).1 {
            ContentV::Dir(d) => forall|j: int| 0 <= j < d.len() ==> crate::yaml::text_safe(
                (#[trigger] d[j]).name,
            ),
            ContentV::Link(t) => crate::yaml::text_safe(t),
            _ => true,
        } by {
            assert(content_compatible(pre.content[i].1, post.content[i].1));
        }
    }
    assert(post.queue_wf()) by {
        assert forall|i: int|
            0 <= i < post.to_add.len() implies (#[trigger] post.to_add[i]).1.len() > 0
            && match post.slot_of(post.to_add[i].0) {
            Some(f) => f.size == post.to_add[i].1.len(),
            None => false,
        } by {
            let k = pre.to_add[i].0;
            assert(pre.slot_of(k) is Some);
            lemma_tbl_find_first_idx(pre.content, k);
            let j = choose|j: int|
                0 <= j < pre.content.len() && (#[trigger] pre.content[j]).0 == k
                    && pre.content[j].1 == tbl_find(pre.content, k).unwrap() && (forall|a: int|
                    0 <= a < j ==> pre.content[a].0 != k);
            assert forall|a: int| 0 <= a < j implies post.content[a].0 != k by {
                assert(pre.content[a].0 != k);
            }
            lemma_tbl_find_at(post.content, k, j);
            assert(content_compatible(pre.content[j].1, post.content[j].1));
        }
    }
}

/// Removing one inode together with its content preserves the invariant,
/// as long as no payload is queued for it.
proof fn lemma_delete_wf(pre: ParcelV, post: ParcelV, ino: u64, ip: int, cp: int)
    requires
        pre.wf(),
        0 <= ip < pre.inodes.len(),
        pre.inodes[ip].0 == ino,
        0 <= cp < pre.content.len(),
        pre.content[cp].0 == ino,
        (pre.queued(ino) is None && post.to_add == pre.to_add) || (exists|q: int|
            0 <= q < pre.to_add.len() && (#[trigger] pre.to_add[q]).0 == ino && post.to_add
                == pre.to_add.remove(q)),
        post == (ParcelV {
            inodes: pre.inodes.remove(ip),
            content: pre.content.remove(cp),
            to_add: post.to_add,
            ..pre
        }),
    ensures
        post.wf(),
{
    lemma_tbl_remove(pre.inodes, ip);
    lemma_tbl_remove(pre.content, cp);
    if pre.queued(ino) is None && post.to_add == pre.to_add {
        lemma_tbl_find_none_of_unique(pre.to_add, ino);
        assert(forall|j: int| 0 <= j < post.to_add.len() ==> #[trigger] post.to_add[j]
            == pre.to_add[j]);
    } else {
        let q = choose|q: int|
            0 <= q < pre.to_add.len() && (#[trigger] pre.to_add[q]).0 == ino && post.to_add
                == pre.to_add.remove(q);
        lemma_tbl_remove(pre.to_add, q);
        assert forall|j: int| 0 <= j < post.to_add.len() implies (#[trigger] post.to_add[j]).0
            != ino && post.to_add[j] == (if j < q {
            pre.to_add[j]
        } else {
            pre.to_add[j + 1]
        }) by {
            if j < q {
                assert(post.to_add[j] == pre.to_add[j]);
                assert(pre.to_add[j].0 != pre.to_add[q].0);
            } else {
                assert(post.to_add[j] == pre.to_add[j + 1]);
                assert(pre.to_add[j + 1].0 != pre.to_add[q].0);
            }
        }
    }
    assert forall|i: int|
        0 <= i < post.inodes.len() implies tbl_contains(
        post.content,
        (#[trigger] post.inodes[i]).0,
    ) by {
        let si = if i < ip {
            i
        } else {
            i + 1
        };
        assert(post.inodes[i] == pre.inodes[si]);
        let k = pre.inodes[si].0;
        assert(k != ino);
        assert(tbl_contains(pre.content, k));
        assert(tbl_find(post.content, k) == tbl_find(pre.content, k));
    }
    assert forall|i: int|
        0 <= i < post.content.len() implies tbl_contains(
        post.inodes,
        (#[trigger] post.content[i]).0,
    ) by {
        let si = if i < cp {
            i
        } else {
            i + 1
        };
        assert(post.content[i] == pre.content[si]);
        let k = pre.content[si].0;
        assert(k != ino);
        assert(tbl_contains(pre.inodes, k));
        assert(tbl_find(post.inodes, k) == tbl_find(pre.inodes, k));
    }
    assert forall|i: int| 0 <= i < post.inodes.len() implies (#[trigger] post.inodes[i]).0
        < post.next_inode by {
        let si = if i < ip {
            i
        } else {
            i + 1
        };
        assert(post.inodes[i] == pre.inodes[si]);
    }
    assert(post.slots_wf()) by {
        assert forall|i: int|
            0 <= i < post.content.len() implies match (#[trigger] post.content[i]).1 {
            ContentV::File(f) => f.size <= f.capacity && f.offset + f.capacity
                <= post.next_offset,
            _ => true,
        } by {
            let si = if i < cp {
                i
            } else {
                i + 1
            };
            assert(post.content[i] == pre.content[si]);
        }
    }
    assert(post.slots_disjoint()) by {
        assert forall|i: int, j: int|
            0 <= i < post.content.len() && 0 <= j < post.content.len() && i != j implies match (
        (#[trigger] post.content[i]).1, (#[trigger] post.content[j]).1) {
            (ContentV::File(f), ContentV::File(g)) => f.capacity == 0 || g.capacity == 0
                || f.offset + f.capacity <= g.offset || g.offset + g.capacity <= f.offset,
            _ => true,
        } by {
            let si = if i < cp {
                i
            } else {
                i + 1
            };
            let sj = if j < cp {
                j
            } else {
                j + 1
            };
            assert(post.content[i] == pre.content[si]);
            assert(post.content[j] == pre.content[sj]);
        }
    }
    assert(post.dirs_wf()) by {
        assert forall|i: int|
            0 <= i < post.content.len() implies match (#[trigger] post.content[i]).1 {
            ContentV::Dir(d) => dir_names_unique(d),
            _ => true,
        } by {
            let si = if i < cp {
                i
            } else {
                i + 1
            };
            assert(post.content[i] == pre.content[si]);
        }
    }
    assert(post.strings_wf()) by {
        assert forall|i: int|
            0 <= i < post.content.len() implies match (#[trigger] post.content[i]).1 {
            ContentV::Dir(d) => forall|j: int| 0 <= j < d.len() ==> crate::yaml::text_safe(
                (#[trigger] d[j]).name,
            ),
            ContentV::Link(t) => crate::yaml::text_safe(t),
            _ => true,
        } by {
            let si = if i < cp {
                i
            } else {
                i + 1
            };
            assert(post.content[i] == pre.content[si]);
        }
    }
    assert(post.queue_wf()) by {
        assert forall|a: int, b: int|
            0 <= a < b < post.to_add.len() implies (#[trigger] post.to_add[a]).0
            != (#[trigger] post.to_add[b]).0 by {
            if post.to_add != pre.to_add {
                let q = choose|q: int|
                    0 <= q < pre.to_add.len() && (#[trigger] pre.to_add[q]).0 == ino
                        && post.to_add == pre.to_add.remove(q);
                let sa = if a < q {
                    a
                } else {
                    a + 1
                };
                let sb = if b < q {
                    b
                } else {
                    b + 1
                };
                assert(post.to_add[a] == pre.to_add[sa]);
                assert(post.to_add[b] == pre.to_add[sb]);
            }
        }
        assert forall|i: int|
            0 <= i < post.to_add.len() implies (#[trigger] post.to_add[i]).1.len() > 0
            && match post.slot_of(post.to_add[i].0) {
            Some(f) => f.size == post.to_add[i].1.len(),
            None => false,
        } by {
            let src = if post.to_add == pre.to_add {
                i
            } else {
                let q = choose|q: int|
                    0 <= q < pre.to_add.len() && (#[trigger] pre.to_add[q]).0 == ino
                        && post.to_add == pre.to_add.remove(q);
                if i < q {
                    i
                } else {
                    i + 1
                }
            };
            assert(post.to_add[i] == pre.to_add[src]);
            let k = pre.to_add[src].0;
            assert(k != ino);
            assert(tbl_find(post.content, k) == tbl_find(pre.content, k));
        }
    }
}

/// The content table after replacing the slot of file `ino` with `f2`.
pub open spec fn set_slot(pv: ParcelV, ino: u64, f2: FileReference) -> Seq<(u64, ContentV)> {
    Seq::new(
        pv.content.len(),
        |i: int|
            if pv.content[i].0 == ino {
                (ino, ContentV::File(f2))
            } else {
                pv.content[i]
            },
    )
}

/// A run of `n` ASCII space bytes: the slack written into reserved but
/// unused payload space.
pub open spec fn spaces(n: int) -> Seq<u8> {
    Seq::new(n as nat, |i: int| 32u8)
}

/// What `read` returns, given the container and the backing bytes:
/// the requested window of the file's payload slot, clamped to the
/// file's size, or the error naming what went wrong.
pub open spec fn read_spec(
    pv: ParcelV,
    data: Seq<u8>,
    ino: u64,
    offset: u64,
    size: Option<u64>,
) -> Result<Seq<u8>, ParcelError> {
    match pv.content_of(ino) {
        None => Err(ParcelError::Enoent),
        Some(c) => match c {
            ContentV::File(f) => {
                let off = if offset > f.size {
                    f.size
                } else {
                    offset
                };
                let n = match size {
                    Some(s) => if s <= f.size - off {
                        s as int
                    } else {
                        f.size - off
                    },
                    None => f.size - off,
                };
                let start = pv.file_offset.unwrap() + f.offset + off;
                if start + n <= data.len() {
                    Ok(data.subrange(start, start + n))
                } else {
                    Err(ParcelError::Io)
                }
            },
            _ => Err(ParcelError::NotFile),
        },
    }
}

/// What `write` does: rejects writes past the reserved capacity, else
/// overlays the buffer at the slot's position and extends the file size.
pub open spec fn write_spec(pv: ParcelV, data: Seq<u8>, ino: u64, offset: u64, buf: Seq<u8>) -> (
    ParcelV,
    Seq<u8>,
    Result<u64, ParcelError>,
) {
    match pv.content_of(ino) {
        None => (pv, data, Err(ParcelError::Enoent)),
        Some(c) => match c {
            ContentV::File(f) => {
                if offset + buf.len() > f.capacity {
                    (pv, data, Err(ParcelError::NeedExpansion))
                } else {
                    let start = pv.file_offset.unwrap() + f.offset + offset;
                    if start + buf.len() > usize::MAX {
                        (pv, data, Err(ParcelError::Io))
                    } else {
                        let ns = if f.size >= offset + buf.len() {
                            f.size
                        } else {
                            (offset + buf.len()) as u64
                        };
                        let f2 = FileReference { offset: f.offset, size: ns, capacity: f.capacity };
                        (
                            (ParcelV { content: set_slot(pv, ino, f2), ..pv }),
                            write_result(data, start, buf),
                            Ok(buf.len() as u64),
                        )
                    }
                }
            },
            _ => (pv, data, Err(ParcelError::NotFile)),
        },
    }
}

/// What `realloc_reserved` does.  Growing the slot at the top of the
/// payload region extends it in place with space bytes; growing any other
/// slot moves the file's live bytes to the top and pads the new slack;
/// shrinking only lowers the reserved capacity, clamping the size.
pub open spec fn realloc_spec(pv: ParcelV, data: Seq<u8>, ino: u64, capacity: u64) -> (
    ParcelV,
    Seq<u8>,
    Result<(), ParcelError>,
) {
    match pv.content_of(ino) {
        None => (pv, data, Err(ParcelError::Enoent)),
        Some(c) => match c {
            ContentV::File(f) => {
                let fo = pv.file_offset.unwrap() as int;
                if capacity == f.capacity {
                    (pv, data, Ok(()))
                } else if capacity > f.capacity {
                    if pv.next_offset == f.offset + f.capacity {
                        let f2 = FileReference { offset: f.offset, size: f.size, capacity };
                        (
                            (ParcelV {
                                content: set_slot(pv, ino, f2),
                                next_offset: (f.offset + capacity) as u64,
                                ..pv
                            }),
                            write_result(
                                data,
                                fo + pv.next_offset,
                                spaces(capacity - f.capacity),
                            ),
                            Ok(()),
                        )
                    } else {
                        if f.size > 0 && fo + f.offset + f.size > data.len() {
                            (pv, data, Err(ParcelError::Io))
                        } else {
                            let saved = if f.size == 0 {
                                Seq::<u8>::empty()
                            } else {
                                data.subrange(fo + f.offset, fo + f.offset + f.size)
                            };
                            let f2 = FileReference {
                                offset: pv.next_offset,
                                size: f.size,
                                capacity,
                            };
                            let moved = write_result(data, fo + pv.next_offset, saved);
                            (
                                (ParcelV {
                                    content: set_slot(pv, ino, f2),
                                    next_offset: (pv.next_offset + capacity) as u64,
                                    ..pv
                                }),
                                write_result(
                                    moved,
                                    fo + pv.next_offset + f.size,
                                    spaces(capacity - f.size),
                                ),
                                Ok(()),
                            )
                        }
                    }
                } else {
                    let ns = if f.size <= capacity {
                        f.size
                    } else {
                        capacity
                    };
                    let f2 = FileReference { offset: f.offset, size: ns, capacity };
                    ((ParcelV { content: set_slot(pv, ino, f2), ..pv }), data, Ok(()))
                }
            },
            _ => (pv, data, Err(ParcelError::NotFile)),
        },
    }
}

/// What `expand_write` does: grow the reserved slot first when the write
/// would run past the file's current size, then write.
pub open spec fn expand_write_spec(
    pv: ParcelV,
    data: Seq<u8>,
    ino: u64,
    offset: u64,
    buf: Seq<u8>,
) -> (ParcelV, Seq<u8>, Result<u64, ParcelError>) {
    match pv.content_of(ino) {
        None => (pv, data, Err(ParcelError::Enoent)),
        Some(c) => match c {
            ContentV::File(f) => {
                if offset + buf.len() > f.size {
                    let grown = realloc_spec(pv, data, ino, (offset + buf.len()) as u64);
                    match grown.2 {
                        Ok(_) => write_spec(grown.0, grown.1, ino, offset, buf),
                        Err(e) => (grown.0, grown.1, Err(e)),
                    }
                } else {
                    write_spec(pv, data, ino, offset, buf)
                }
            },
            _ => (pv, data, Err(ParcelError::NotFile)),
        },
    }
}

/// Replacing one file's slot preserves the invariant when the new slot
/// shrinks in place, grows in place at the top of the payload region, or
/// relocates to the old watermark, and keeps a queued file's size.
proof fn lemma_slot_update_wf(pre: ParcelV, post: ParcelV, ino: u64, f: FileReference, f2: FileReference)
    requires
        pre.wf(),
        pre.slot_of(ino) == Some(f),
        post.inodes == pre.inodes,
        post.to_add == pre.to_add,
        post.on_disk == pre.on_disk,
        post.file_offset == pre.file_offset,
        post.next_inode == pre.next_inode,
        post.content == set_slot(pre, ino, f2),
        post.next_offset >= pre.next_offset,
        f2.size <= f2.capacity,
        f2.offset + f2.capacity <= post.next_offset,
        (f2.offset == f.offset && f2.capacity <= f.capacity) || (f2.offset == f.offset && f.offset
            + f.capacity == pre.next_offset) || f2.offset >= pre.next_offset,
        pre.queued(ino) is Some ==> f2.size == f.size,
    ensures
        post.wf(),
{
    lemma_tbl_find_first_idx(pre.content, ino);
    let ci = choose|i: int|
        0 <= i < pre.content.len() && (#[trigger] pre.content[i]).0 == ino && pre.content[i].1
            == tbl_find(pre.content, ino).unwrap() && (forall|j: int|
            0 <= j < i ==> pre.content[j].0 != ino);
    assert forall|i: int|
        0 <= i < pre.content.len() implies (#[trigger] post.content[i]).0 == pre.content[i].0 by {}
    assert forall|a: int, b: int|
        0 <= a < b < post.content.len() implies #[trigger] post.content[a].0
        != #[trigger] post.content[b].0 by {
        assert(pre.content[a].0 != pre.content[b].0);
    }
    assert forall|i: int|
        0 <= i < post.inodes.len() implies tbl_contains(
        post.content,
        (#[trigger] post.inodes[i]).0,
    ) by {
        assert(tbl_contains(pre.content, pre.inodes[i].0));
        lemma_tbl_find_some_idx(pre.content, pre.inodes[i].0);
        let j = choose|j: int|
            0 <= j < pre.content.len() && (#[trigger] pre.content[j]).0 == pre.inodes[i].0
                && pre.content[j].1 == tbl_find(pre.content, pre.inodes[i].0).unwrap();
        lemma_tbl_key_to_contains(post.content, post.inodes[i].0, j);
    }
    assert forall|i: int|
        0 <= i < post.content.len() implies tbl_contains(
        post.inodes,
        (#[trigger] post.content[i]).0,
    ) by {
        assert(tbl_contains(pre.inodes, pre.content[i].0));
    }
    // every entry keyed `ino` in a unique table is the entry at `ci`
    assert forall|i: int|
        0 <= i < pre.content.len() && pre.content[i].0 == ino implies i == ci by {
        if i != ci {
            assert(pre.content[i].0 != pre.content[ci].0);
        }
    }
    assert(pre.content[ci].1 == ContentV::File(f));
    assert(post.slots_wf()) by {
        assert forall|i: int|
            0 <= i < post.content.len() implies match (#[trigger] post.content[i]).1 {
            ContentV::File(g) => g.size <= g.capacity && g.offset + g.capacity
                <= post.next_offset,
            _ => true,
        } by {
            if pre.content[i].0 != ino {
                assert(post.content[i] == pre.content[i]);
            }
        }
    }
    assert(post.slots_disjoint()) by {
        assert forall|i: int, j: int|
            0 <= i < post.content.len() && 0 <= j < post.content.len() && i != j implies match (
        (#[trigger] post.content[i]).1, (#[trigger] post.content[j]).1) {
            (ContentV::File(a), ContentV::File(b)) => a.capacity == 0 || b.capacity == 0
                || a.offset + a.capacity <= b.offset || b.offset + b.capacity <= a.offset,
            _ => true,
        } by {
            if pre.content[i].0 != ino && pre.content[j].0 != ino {
                assert(post.content[i] == pre.content[i]);
                assert(post.content[j] == pre.content[j]);
            } else if pre.content[i].0 == ino && pre.content[j].0 != ino {
                assert(i == ci);
                assert(post.content[j] == pre.content[j]);
                if f2.capacity > 0 {
                    match pre.content[j].1 {
                        ContentV::File(g) => {
                            if g.capacity > 0 && f.capacity > 0 {
                                assert(f.offset + f.capacity <= g.offset || g.offset + g.capacity
                                    <= f.offset);
                            }
                            if g.capacity > 0 && f.capacity == 0 {
                                assert(g.offset + g.capacity <= pre.next_offset);
                            }
                        },
                        _ => {},
                    }
                }
            } else if pre.content[j].0 == ino && pre.content[i].0 != ino {
                assert(j == ci);
                assert(post.content[i] == pre.content[i]);
                if f2.capacity > 0 {
                    match pre.content[i].1 {
                        ContentV::File(g) => {
                            if g.capacity > 0 && f.capacity > 0 {
                                assert(f.offset + f.capacity <= g.offset || g.offset + g.capacity
                                    <= f.offset);
                            }
                            if g.capacity > 0 && f.capacity == 0 {
                                assert(g.offset + g.capacity <= pre.next_offset);
                            }
                        },
                        _ => {},
                    }
                }
            }
        }
    }
    assert(post.dirs_wf()) by {
        assert forall|i: int|
            0 <= i < post.content.len() implies match (#[trigger] post.content[i]).1 {
            ContentV::Dir(d) => dir_names_unique(d),
            _ => true,
        } by {
            if pre.content[i].0 != ino {
                assert(post.content[i] == pre.content[i]);
            }
        }
    }
    assert(post.strings_wf()) by {
        assert forall|i: int|
            0 <= i < post.content.len() implies match (#[trigger] post.content[i]).1 {
            ContentV::Dir(d) => forall|j: int| 0 <= j < d.len() ==> crate::yaml::text_safe(
                (#[trigger] d[j]).name,
            ),
            ContentV::Link(t) => crate::yaml::text_safe(t),
            _ => true,
        } by {
            if pre.content[i].0 != ino {
                assert(post.content[i] == pre.content[i]);
            }
        }
    }
    assert(post.queue_wf()) by {
        assert forall|i: int|
            0 <= i < post.to_add.len() implies (#[trigger] post.to_add[i]).1.len() > 0
            && match post.slot_of(post.to_add[i].0) {
            Some(g) => g.size == post.to_add[i].1.len(),
            None => false,
        } by {
            let k = pre.to_add[i].0;
            assert(pre.slot_of(k) is Some);
            lemma_tbl_find_first_idx(pre.content, k);
            let j = choose|j: int|
                0 <= j < pre.content.len() && (#[trigger] pre.content[j]).0 == k
                    && pre.content[j].1 == tbl_find(pre.content, k).unwrap() && (forall|a: int|
                    0 <= a < j ==> pre.content[a].0 != k);
            assert forall|a: int| 0 <= a < j implies post.content[a].0 != k by {
                assert(pre.content[a].0 != k);
            }
            lemma_tbl_find_at(post.content, k, j);
            if k == ino {
                assert(j == ci);
                assert(pre.queued(ino) is Some) by {
                    lemma_tbl_key_to_contains(pre.to_add, k, i);
                }
            }
        }
    }
}

/// The four magic bytes opening every parcel file: `413` and a newline.
pub open spec fn magic_seq() -> Seq<u8> {
    seq![52u8, 49u8, 51u8, 10u8]
}

/// The position of the first document terminator at or past `i`.
pub open spec fn find_term(data: Seq<u8>, i: int) -> Option<int>
    decreases data.len() - i,
{
    if i < 0 || i + 5 > data.len() {
        None
    } else if data.subrange(i, i + 5) == crate::yaml::terminator() {
        Some(i)
    } else {
        find_term(data, i + 1)
    }
}

/// When every window before `t` differs and the window at `t` matches,
/// the scan finds `t`.
pub proof fn lemma_find_term_at(data: Seq<u8>, start: int, t: int)
    requires
        0 <= start <= t,
        t + 5 <= data.len(),
        data.subrange(t, t + 5) == crate::yaml::terminator(),
        forall|i: int| start <= i < t ==> #[trigger] data.subrange(i, i + 5)
            != crate::yaml::terminator(),
    ensures
        find_term(data, start) == Some(t),
    decreases t - start,
{
    if start < t {
        lemma_find_term_at(data, start + 1, t);
    }
}

/// When no window at or past `start` matches, the scan finds nothing.
pub proof fn lemma_find_term_none(data: Seq<u8>, start: int)
    requires
        0 <= start,
        forall|i: int| start <= i && i + 5 <= data.len() ==> #[trigger] data.subrange(i, i + 5)
            != crate::yaml::terminator(),
    ensures
        find_term(data, start) is None,
    decreases data.len() - start,
{
    if start + 5 <= data.len() {
        lemma_find_term_none(data, start + 1);
    }
}

/// In a framed store — magic, header bytes, space padding, terminator —
/// the first terminator at or past the magic is the framing one.
pub proof fn lemma_find_term_framed(data: Seq<u8>, hb: Seq<u8>, fo: int)
    requires
        9 <= fo <= data.len(),
        4 + hb.len() as int <= fo - 5,
        data.subrange(4, 4 + hb.len() as int) == hb,
        forall|p: int| 4 + hb.len() as int <= p < fo - 5 ==> #[trigger] data[p] == 32u8,
        hb.len() > 0,
        hb[hb.len() - 1] == 10u8,
        crate::yaml::no_terminator(hb),
        data.subrange(fo - 5, fo) == crate::yaml::terminator(),
    ensures
        find_term(data, 4) == Some(fo - 5),
{
    let term = crate::yaml::terminator();
    assert(term[0] == 10u8 && term[1] == 46u8 && term[2] == 46u8 && term[3] == 46u8 && term[4]
        == 10u8);
    assert forall|i: int| 4 <= i < fo - 5 implies #[trigger] data.subrange(i, i + 5) != term by {
        let hend = 4 + hb.len() as int;
        if i + 5 <= hend {
            // the window lies inside the header bytes
            let j = i - 4;
            assert(hb.subrange(j, j + 5) =~= data.subrange(i, i + 5));
            assert(hb.subrange(j, j + 5) != term);
        } else if i + 5 <= fo - 5 {
            // the window reaches into the padding: it holds a space
            let p = if i >= hend {
                i
            } else {
                hend
            };
            assert(data[p] == 32u8);
            if data.subrange(i, i + 5) == term {
                assert(data.subrange(i, i + 5)[p - i] == term[p - i]);
                assert(term[p - i] != 32u8);
            }
        } else {
            // the window overlaps the terminator's start
            if data.subrange(i, i + 5) == term {
                // position fo - 5 itself holds a newline, but the
                // matching pattern byte there would have to be a dot,
                // except when the window starts at fo - 9: then the
                // byte just before the terminator must be a dot, yet it
                // is a space or the header's final newline
                if i >= fo - 9 {
                    if i == fo - 9 {
                        let q = fo - 6;
                        assert(data.subrange(i, i + 5)[q - i] == term[q - i]);
                        assert(term[3] == 46u8);
                        if q >= hend {
                            assert(data[q] == 32u8);
                        } else {
                            assert(q == hend - 1);
                            assert(hb.subrange(0, hb.len() as int) =~= hb);
                            assert(data[q] == hb[hb.len() - 1]);
                        }
                    } else {
                        let q = fo - 5;
                        assert(data.subrange(i, i + 5)[q - i] == term[q - i]);
                        assert(data[q] == term[0]);
                        assert(term[q - i] == 46u8);
                    }
                }
            }
        }
    }
    lemma_find_term_at(data, 4, fo - 5);
}

/// The header's document value: what `store` serialises.
pub open spec fn header_value(pv: ParcelV) -> crate::yaml::Yv {
    crate::codec::yheader(pv.version, pv.root_inode, pv.metadata, pv.inodes, pv.content)
}

/// The bytes the whole header region needs unpadded: magic, emitted
/// document and terminator.
pub open spec fn store_needed(pv: ParcelV) -> int {
    crate::yaml::yaml_emit(header_value(pv)).len() as int + 9
}

/// The header region end `store` settles on: grown geometrically when
/// the document outgrew the region, the old end otherwise.
pub open spec fn store_target(pv: ParcelV) -> int {
    match pv.file_offset {
        None => store_needed(pv),
        Some(cur) => if store_needed(pv) > cur {
            vstd::math::max(store_needed(pv), cur + (cur + 4) / 5)
        } else {
            cur as int
        },
    }
}

/// The backing store's length once the payload region sits at its new
/// place, before the queued payloads are written.
pub open spec fn moved_len(pv: ParcelV, data: Seq<u8>) -> int {
    match pv.file_offset {
        Some(cur) => if store_target(pv) > cur {
            let saved = if data.len() > cur {
                data.len() - cur
            } else {
                0
            };
            if saved == 0 {
                data.len() as int
            } else {
                vstd::math::max(data.len() as int, store_target(pv) + saved)
            }
        } else {
            data.len() as int
        },
        None => data.len() as int,
    }
}

/// The highest end among the queued payload slots from index `j` on,
/// at header end `fo`; zero when none remain.
pub open spec fn queue_extent(pv: ParcelV, fo: int, j: int) -> int
    decreases pv.to_add.len() - j,
{
    if j < 0 || j >= pv.to_add.len() {
        0
    } else {
        let e = match pv.slot_of(pv.to_add[j].0) {
            Some(f) => fo + f.offset + pv.to_add[j].1.len(),
            None => 0,
        };
        vstd::math::max(e, queue_extent(pv, fo, j + 1))
    }
}

/// The backing store's exact length after a successful store.
pub open spec fn store_len(pv: ParcelV, data: Seq<u8>) -> int {
    vstd::math::max(
        vstd::math::max(moved_len(pv, data), store_target(pv)),
        queue_extent(pv, store_target(pv), 0),
    )
}

/// When `store` succeeds: the metadata's strings must be break-free,
/// the header document must serialise, and the chosen header region and
/// every write must fit the machine's limits.
pub open spec fn store_ok(pv: ParcelV, data: Seq<u8>) -> bool {
    &&& crate::codec::meta_text_safe(pv.metadata)
    &&& crate::yaml::yaml_emits(header_value(pv))
    &&& crate::yaml::yaml_emit(header_value(pv)).len() <= usize::MAX - 9
    &&& (match pv.file_offset {
        Some(cur) => store_needed(pv) <= cur || cur + (cur + 4) / 5 <= u64::MAX,
        None => true,
    })
    &&& store_target(pv) <= usize::MAX
    &&& pv.next_offset <= usize::MAX - store_target(pv)
    &&& (match pv.file_offset {
        Some(cur) => store_target(pv) <= cur || (if data.len() > cur {
            data.len() - cur
        } else {
            0
        }) <= usize::MAX - store_target(pv),
        None => true,
    })
}

proof fn lemma_queue_extent_unfold(pv: ParcelV, fo: int, j: int)
    requires
        0 <= j < pv.to_add.len(),
    ensures
        queue_extent(pv, fo, j) == vstd::math::max(
            match pv.slot_of(pv.to_add[j].0) {
                Some(f) => fo + f.offset + pv.to_add[j].1.len(),
                None => 0,
            },
            queue_extent(pv, fo, j + 1),
        ),
{
}

/// The growth bump `store` computes is the ceiling of a fifth.
proof fn lemma_ceil_fifth(cur: u64)
    ensures
        (cur + 4) / 5 == cur / 5 + if cur % 5 != 0 {
            1int
        } else {
            0int
        },
{
    vstd::arithmetic::div_mod::lemma_fundamental_div_mod(cur as int, 5);
    let q = cur as int / 5;
    let rr = cur as int % 5;
    if rr == 0 {
        vstd::arithmetic::div_mod::lemma_fundamental_div_mod_converse(cur as int + 4, 5, q, 4);
    } else {
        vstd::arithmetic::div_mod::lemma_fundamental_div_mod_converse(
            cur as int + 4,
            5,
            q + 1,
            rr - 1,
        );
    }
}

/// Whether payload-region position `i` lies outside every queued slot.
pub open spec fn untouched_by_queue(pv: ParcelV, i: int) -> bool {
    forall|k: u64|
        #[trigger] pv.queued(k) matches Some(b) ==> !((pv.slot_of(k).unwrap().offset as int) <= i
            < pv.slot_of(k).unwrap().offset + b.len())
}

/// Whether absolute store position `i` lies outside the slots of the
/// first `upto` queued payloads.
spec fn payload_pos_untouched(pv: ParcelV, fo: int, i: int, upto: int) -> bool {
    forall|j: int|
        0 <= j < upto ==> !({
            let f = pv.slot_of((#[trigger] pv.to_add[j]).0).unwrap();
            fo + f.offset <= i < fo + f.offset + pv.to_add[j].1.len()
        })
}

/// Two distinct queued payloads occupy disjoint slot ranges.
proof fn lemma_queued_slots_disjoint(pv: ParcelV, a: int, b: int)
    requires
        pv.wf(),
        0 <= a < pv.to_add.len(),
        0 <= b < pv.to_add.len(),
        a != b,
    ensures
        ({
            let f = pv.slot_of(pv.to_add[a].0).unwrap();
            let g = pv.slot_of(pv.to_add[b].0).unwrap();
            f.offset + pv.to_add[a].1.len() <= g.offset || g.offset + pv.to_add[b].1.len()
                <= f.offset
        }),
{
    let ka = pv.to_add[a].0;
    let kb = pv.to_add[b].0;
    assert(ka != kb);
    assert(pv.slot_of(ka) is Some && pv.slot_of(kb) is Some);
    lemma_tbl_find_first_idx(pv.content, ka);
    lemma_tbl_find_first_idx(pv.content, kb);
    let ia = choose|i: int|
        0 <= i < pv.content.len() && (#[trigger] pv.content[i]).0 == ka && pv.content[i].1
            == tbl_find(pv.content, ka).unwrap() && (forall|j: int|
            0 <= j < i ==> pv.content[j].0 != ka);
    let ib = choose|i: int|
        0 <= i < pv.content.len() && (#[trigger] pv.content[i]).0 == kb && pv.content[i].1
            == tbl_find(pv.content, kb).unwrap() && (forall|j: int|
            0 <= j < i ==> pv.content[j].0 != kb);
    assert(ia != ib);
    let f = pv.slot_of(ka).unwrap();
    let g = pv.slot_of(kb).unwrap();
    assert(pv.content[ia].1 == ContentV::File(f));
    assert(pv.content[ib].1 == ContentV::File(g));
    assert(pv.to_add[a].1.len() == f.size && f.size <= f.capacity);
    assert(pv.to_add[b].1.len() == g.size && g.size <= g.capacity);
    assert(f.capacity > 0 && g.capacity > 0);
}

/// One payload write during `store` keeps the header region, everything
/// written so far, and every untouched payload position intact, and puts
/// the payload into its slot.
proof fn lemma_store_payload_step(
    pv: ParcelV,
    fo: int,
    dhdr: Seq<u8>,
    dprev: Seq<u8>,
    dnew: Seq<u8>,
    qi: int,
    f: FileReference,
    b: Seq<u8>,
)
    requires
        pv.wf(),
        0 <= qi < pv.to_add.len(),
        pv.slot_of(pv.to_add[qi].0) == Some(f),
        b == pv.to_add[qi].1,
        b.len() == f.size,
        f.size <= f.capacity,
        f.offset + f.capacity <= pv.next_offset,
        9 <= fo,
        fo + pv.next_offset <= usize::MAX,
        dhdr.len() >= fo,
        dprev.len() >= fo,
        dprev.len() >= dhdr.len(),
        dprev.subrange(0, 4) == dhdr.subrange(0, 4),
        dprev.subrange(4, fo - 5) == dhdr.subrange(4, fo - 5),
        dprev.subrange(fo - 5, fo) == dhdr.subrange(fo - 5, fo),
        forall|j: int|
            0 <= j < qi ==> ({
                let k = (#[trigger] pv.to_add[j]).0;
                let bj = pv.to_add[j].1;
                let fj = pv.slot_of(k).unwrap();
                fo + fj.offset + bj.len() <= dprev.len() && dprev.subrange(
                    fo + fj.offset,
                    fo + fj.offset + bj.len(),
                ) == bj
            }),
        forall|i: int|
            fo <= i < dhdr.len() && payload_pos_untouched(pv, fo, i, qi) ==> i < dprev.len()
                && #[trigger] dprev[i] == dhdr[i],
        dnew == write_result(dprev, fo + f.offset, b),
    ensures
        dnew.len() >= dprev.len(),
        dnew.len() >= fo,
        dnew.len() >= dhdr.len(),
        dnew.subrange(0, 4) == dhdr.subrange(0, 4),
        dnew.subrange(4, fo - 5) == dhdr.subrange(4, fo - 5),
        dnew.subrange(fo - 5, fo) == dhdr.subrange(fo - 5, fo),
        forall|j: int|
            0 <= j < qi + 1 ==> ({
                let k = (#[trigger] pv.to_add[j]).0;
                let bj = pv.to_add[j].1;
                let fj = pv.slot_of(k).unwrap();
                fo + fj.offset + bj.len() <= dnew.len() && dnew.subrange(
                    fo + fj.offset,
                    fo + fj.offset + bj.len(),
                ) == bj
            }),
        forall|i: int|
            fo <= i < dhdr.len() && payload_pos_untouched(pv, fo, i, qi + 1) ==> i < dnew.len()
                && #[trigger] dnew[i] == dhdr[i],
{
    let wstart = fo + f.offset;
    let wend = wstart + b.len();
    assert(wend <= fo + pv.next_offset);
    if b.len() == 0 {
        assert(dnew == dprev);
        assert forall|j: int|
            0 <= j < qi + 1 implies ({
            let k = (#[trigger] pv.to_add[j]).0;
            let bj = pv.to_add[j].1;
            let fj = pv.slot_of(k).unwrap();
            fo + fj.offset + bj.len() <= dnew.len() && dnew.subrange(
                fo + fj.offset,
                fo + fj.offset + bj.len(),
            ) == bj
        }) by {
            if j == qi {
                assert(dnew.subrange(wstart, wstart) =~= b);
            }
        }
        assert forall|i: int|
            fo <= i < dhdr.len() && payload_pos_untouched(pv, fo, i, qi + 1) implies i
            < dnew.len() && #[trigger] dnew[i] == dhdr[i] by {
            assert(payload_pos_untouched(pv, fo, i, qi));
        }
    } else {
        assert(dnew.len() == if dprev.len() >= wend {
            dprev.len() as int
        } else {
            wend
        });
        assert(dnew.subrange(0, 4) =~= dhdr.subrange(0, 4));
        assert(dnew.subrange(4, fo - 5) =~= dhdr.subrange(4, fo - 5));
        assert(dnew.subrange(fo - 5, fo) =~= dhdr.subrange(fo - 5, fo));
        assert forall|j: int|
            0 <= j < qi + 1 implies ({
            let k = (#[trigger] pv.to_add[j]).0;
            let bj = pv.to_add[j].1;
            let fj = pv.slot_of(k).unwrap();
            fo + fj.offset + bj.len() <= dnew.len() && dnew.subrange(
                fo + fj.offset,
                fo + fj.offset + bj.len(),
            ) == bj
        }) by {
            let k = pv.to_add[j].0;
            let bj = pv.to_add[j].1;
            let fj = pv.slot_of(k).unwrap();
            if j == qi {
                assert(dnew.subrange(wstart, wend) =~= b);
            } else {
                lemma_queued_slots_disjoint(pv, j, qi);
                assert(dnew.subrange(fo + fj.offset, fo + fj.offset + bj.len()) =~= dprev.subrange(
                    fo + fj.offset,
                    fo + fj.offset + bj.len(),
                ));
            }
        }
        assert forall|i: int|
            fo <= i < dhdr.len() && payload_pos_untouched(pv, fo, i, qi + 1) implies i
            < dnew.len() && #[trigger] dnew[i] == dhdr[i] by {
            assert(payload_pos_untouched(pv, fo, i, qi));
            assert(!(wstart <= i < wend));
        }
    }
}

/// What a loaded pair of tables must satisfy so that the recomputation
/// of the allocator watermarks and the integrity checks go through.
pub open spec fn loadable(ins: Seq<(u64, InodeV)>, cts: Seq<(u64, ContentV)>) -> bool {
    &&& ins.len() > 0
    &&& (forall|i: int| 0 <= i < ins.len() ==> (#[trigger] ins[i]).0 < u64::MAX)
    &&& (forall|i: int| 0 <= i < ins.len() ==> tbl_contains(cts, (#[trigger] ins[i]).0))
    &&& (forall|i: int| 0 <= i < cts.len() ==> tbl_contains(ins, (#[trigger] cts[i]).0))
    &&& (forall|i: int|
        0 <= i < cts.len() ==> match (#[trigger] cts[i]).1 {
            ContentV::File(f) => f.size <= f.capacity && f.offset + f.capacity <= u64::MAX,
            _ => true,
        })
    &&& (forall|i: int|
        0 <= i < cts.len() ==> match (#[trigger] cts[i]).1 {
            ContentV::Dir(d) => dir_names_unique(d),
            _ => true,
        })
    &&& crate::codec::tables_text_safe(cts)
    &&& (forall|i: int, j: int|
        0 <= i < cts.len() && 0 <= j < cts.len() && i != j ==> match (
        (#[trigger] cts[i]).1, (#[trigger] cts[j]).1) {
            (ContentV::File(f), ContentV::File(g)) => f.capacity == 0 || g.capacity == 0
                || f.offset + f.capacity <= g.offset || g.offset + g.capacity <= f.offset,
            _ => true,
        })
}

/// Whether the bytes are a well-framed parcel of the current version
/// holding exactly these logical fields.
pub open spec fn load_image(
    data: Seq<u8>,
    ver: u32,
    root: u64,
    meta: MetadataV,
    ins: Seq<(u64, InodeV)>,
    cts: Seq<(u64, ContentV)>,
) -> bool {
    &&& data.len() >= 9
    &&& data.subrange(0, 4) == magic_seq()
    &&& find_term(data, 4) is Some
    &&& crate::yaml::yaml_doc(data.subrange(4, find_term(data, 4).unwrap())) == Some(
        crate::codec::yheader(ver, root, meta, ins, cts),
    )
    &&& ver == PARCEL_VERSION
    &&& tbl_unique(ins)
    &&& tbl_unique(cts)
    &&& loadable(ins, cts)
}

/// The highest inode number plus one; fails on an empty table or when
/// the highest number cannot be exceeded.
fn compute_next_inode(inodes: &Vec<(u64, Inode)>) -> (r: Result<u64, ParcelError>)
    ensures
        r matches Ok(n) ==> inodes@.len() > 0 && n >= 1 && (forall|i: int|
            0 <= i < inodes@.len() ==> (#[trigger] inodes_deep(inodes@)[i]).0 < n) && (exists|
            i: int,
        | 0 <= i < inodes@.len() && (#[trigger] inodes_deep(inodes@)[i]).0 == n - 1),
        r is Err ==> inodes@.len() == 0 || (exists|i: int|
            0 <= i < inodes@.len() && (#[trigger] inodes_deep(inodes@)[i]).0 == u64::MAX),
{
    if inodes.len() == 0 {
        return Err(ParcelError::Codec);
    }
    let mut best: u64 = inodes[0].0;
    let ghost mut bidx: int = 0;
    let mut i: usize = 1;
    while i < inodes.len()
        invariant
            1 <= i <= inodes@.len(),
            0 <= bidx < i,
            inodes@[bidx].0 == best,
            forall|j: int| 0 <= j < i ==> (#[trigger] inodes@[j]).0 <= best,
        decreases inodes@.len() - i,
    {
        if inodes[i].0 > best {
            best = inodes[i].0;
            proof {
                bidx = i as int;
            }
        }
        i += 1;
    }
    if best == u64::MAX {
        proof {
            assert(inodes_deep(inodes@)[bidx].0 == u64::MAX);
        }
        return Err(ParcelError::Codec);
    }
    proof {
        assert(inodes_deep(inodes@)[bidx].0 == best);
        assert(forall|j: int| 0 <= j < inodes@.len() ==> (#[trigger] inodes_deep(inodes@)[j]).0
            <= best);
    }
    Ok(best + 1)
}

/// The payload watermark: the highest slot end, with slot sanity checked.
fn compute_next_offset(content: &Vec<(u64, InodeContent)>) -> (r: Result<u64, ParcelError>)
    ensures
        r matches Ok(w) ==> (forall|i: int|
            0 <= i < content@.len() ==> match (#[trigger] content_deep(content@)[i]).1 {
                ContentV::File(f) => f.size <= f.capacity && f.offset + f.capacity <= w,
                _ => true,
            }) && (w == 0 || exists|i: int|
            0 <= i < content@.len() && match (#[trigger] content_deep(content@)[i]).1 {
                ContentV::File(f) => f.offset + f.capacity == w,
                _ => false,
            }),
        r is Err ==> exists|i: int|
            0 <= i < content@.len() && match (#[trigger] content_deep(content@)[i]).1 {
                ContentV::File(f) => f.size > f.capacity || f.offset + f.capacity > u64::MAX,
                _ => false,
            },
{
    let mut w: u64 = 0;
    let ghost mut widx: int = -1;
    let mut i: usize = 0;
    while i < content.len()
        invariant
            0 <= i <= content@.len(),
            w == 0 || (0 <= widx < i && match content_deep(content@)[widx].1 {
                ContentV::File(f) => f.offset + f.capacity == w,
                _ => false,
            }),
            forall|j: int|
                0 <= j < i ==> match (#[trigger] content_deep(content@)[j]).1 {
                    ContentV::File(f) => f.size <= f.capacity && f.offset + f.capacity <= w,
                    _ => true,
                },
        decreases content@.len() - i,
    {
        match &content[i].1 {
            InodeContent::RegularFile(f) => {
                if f.size > f.capacity {
                    proof {
                        assert(match content_deep(content@)[i as int].1 {
                            ContentV::File(g) => g.size > g.capacity,
                            _ => false,
                        });
                    }
                    return Err(ParcelError::Codec);
                }
                let end = match f.offset.checked_add(f.capacity) {
                    Some(e) => e,
                    None => {
                        proof {
                            assert(match content_deep(content@)[i as int].1 {
                                ContentV::File(g) => g.offset + g.capacity > u64::MAX,
                                _ => false,
                            });
                        }
                        return Err(ParcelError::Codec);
                    },
                };
                if end > w {
                    w = end;
                    proof {
                        widx = i as int;
                    }
                }
            },
            _ => {},
        }
        i += 1;
    }
    Ok(w)
}

/// Whether every inode has content and every content record an inode.
fn check_paired(inodes: &Vec<(u64, Inode)>, content: &Vec<(u64, InodeContent)>) -> (r: bool)
    ensures
        r == ((forall|i: int|
            0 <= i < inodes@.len() ==> tbl_contains(
                content_deep(content@),
                (#[trigger] inodes_deep(inodes@)[i]).0,
            )) && (forall|i: int|
            0 <= i < content@.len() ==> tbl_contains(
                inodes_deep(inodes@),
                (#[trigger] content_deep(content@)[i]).0,
            ))),
{
    let mut i: usize = 0;
    while i < inodes.len()
        invariant
            i <= inodes@.len(),
            forall|j: int|
                0 <= j < i ==> tbl_contains(
                    content_deep(content@),
                    (#[trigger] inodes_deep(inodes@)[j]).0,
                ),
        decreases inodes@.len() - i,
    {
        match tbl_pos(content, inodes[i].0) {
            Some(p) => {
                proof {
                    lemma_tbl_key_to_contains(content_deep(content@), inodes@[i as int].0, p as int);
                }
            },
            None => {
                proof {
                    lemma_tbl_find_none(content_deep(content@), inodes@[i as int].0);
                    assert(!tbl_contains(
                        content_deep(content@),
                        inodes_deep(inodes@)[i as int].0,
                    ));
                }
                return false;
            },
        }
        i += 1;
    }
    let mut i: usize = 0;
    while i < content.len()
        invariant
            i <= content@.len(),
            forall|j: int|
                0 <= j < inodes@.len() ==> tbl_contains(
                    content_deep(content@),
                    (#[trigger] inodes_deep(inodes@)[j]).0,
                ),
            forall|j: int|
                0 <= j < i ==> tbl_contains(
                    inodes_deep(inodes@),
                    (#[trigger] content_deep(content@)[j]).0,
                ),
        decreases content@.len() - i,
    {
        match tbl_pos(inodes, content[i].0) {
            Some(p) => {
                proof {
                    lemma_tbl_key_to_contains(inodes_deep(inodes@), content@[i as int].0, p as int);
                }
            },
            None => {
                proof {
                    lemma_tbl_find_none(inodes_deep(inodes@), content@[i as int].0);
                    assert(!tbl_contains(
                        inodes_deep(inodes@),
                        content_deep(content@)[i as int].0,
                    ));
                }
                return false;
            },
        }
        i += 1;
    }
    true
}

/// Whether every directory's entry names are pairwise distinct.
fn check_dirs(content: &Vec<(u64, InodeContent)>) -> (r: bool)
    ensures
        r == (forall|i: int|
            0 <= i < content@.len() ==> match (#[trigger] content_deep(content@)[i]).1 {
                ContentV::Dir(d) => dir_names_unique(d),
                _ => true,
            }),
{
    let mut i: usize = 0;
    while i < content.len()
        invariant
            i <= content@.len(),
            forall|j: int|
                0 <= j < i ==> match (#[trigger] content_deep(content@)[j]).1 {
                    ContentV::Dir(d) => dir_names_unique(d),
                    _ => true,
                },
        decreases content@.len() - i,
    {
        match &content[i].1 {
            InodeContent::Directory(d) => {
                let ghost dv = dirents_deep(d@);
                proof {
                    assert(content_deep(content@)[i as int].1 == ContentV::Dir(dv));
                }
                let mut a: usize = 0;
                while a < d.len()
                    invariant
                        i < content@.len(),
                        content_deep(content@)[i as int].1 == ContentV::Dir(dv),
                        a <= d@.len(),
                        dv == dirents_deep(d@),
                        forall|x: int, y: int| 0 <= x < y < d@.len() && x < a ==> dv[x].name
                            != dv[y].name,
                    decreases d@.len() - a,
                {
                    let mut b: usize = a + 1;
                    while b < d.len()
                        invariant
                            i < content@.len(),
                            content_deep(content@)[i as int].1 == ContentV::Dir(dv),
                            a < b || b == a + 1,
                            a < d@.len(),
                            a + 1 <= b <= d@.len(),
                            dv == dirents_deep(d@),
                            forall|y: int| a < y < b ==> dv[a as int].name != dv[y].name,
                        decreases d@.len() - b,
                    {
                        if d[a].name == d[b].name {
                            proof {
                                assert(!dir_names_unique(dv)) by {
                                    assert(dv[a as int].name == dv[b as int].name);
                                }
                                assert(match content_deep(content@)[i as int].1 {
                                    ContentV::Dir(dd) => !dir_names_unique(dd),
                                    _ => false,
                                });
                            }
                            return false;
                        }
                        b += 1;
                    }
                    a += 1;
                }
                proof {
                    assert(match content_deep(content@)[i as int].1 {
                        ContentV::Dir(dd) => dir_names_unique(dd),
                        _ => true,
                    });
                }
            },
            _ => {},
        }
        i += 1;
    }
    true
}

/// Whether every directory entry name and symlink target is free of
/// line breaks.
fn check_text(content: &Vec<(u64, InodeContent)>) -> (r: bool)
    ensures
        r == crate::codec::tables_text_safe(content_deep(content@)),
{
    let mut i: usize = 0;
    while i < content.len()
        invariant
            i <= content@.len(),
            forall|j: int|
                0 <= j < i ==> match (#[trigger] content_deep(content@)[j]).1 {
                    ContentV::Dir(d) => forall|q: int| 0 <= q < d.len() ==> crate::yaml::text_safe(
                        (#[trigger] d[q]).name,
                    ),
                    ContentV::Link(t) => crate::yaml::text_safe(t),
                    _ => true,
                },
        decreases content@.len() - i,
    {
        match &content[i].1 {
            InodeContent::Directory(d) => {
                let ghost dv = dirents_deep(d@);
                proof {
                    assert(content_deep(content@)[i as int].1 == ContentV::Dir(dv));
                }
                let mut a: usize = 0;
                while a < d.len()
                    invariant
                        i < content@.len(),
                        content_deep(content@)[i as int].1 == ContentV::Dir(dv),
                        a <= d@.len(),
                        dv == dirents_deep(d@),
                        forall|q: int| 0 <= q < a ==> crate::yaml::text_safe(
                            (#[trigger] dv[q]).name,
                        ),
                    decreases d@.len() - a,
                {
                    if !str_text_safe(d[a].name.as_str()) {
                        proof {
                            assert(!crate::yaml::text_safe(dv[a as int].name));
                            assert(!(match content_deep(content@)[i as int].1 {
                                ContentV::Dir(dd) => forall|q: int|
                                    0 <= q < dd.len() ==> crate::yaml::text_safe(
                                        (#[trigger] dd[q]).name,
                                    ),
                                ContentV::Link(t) => crate::yaml::text_safe(t),
                                _ => true,
                            }));
                        }
                        return false;
                    }
                    a += 1;
                }
            },
            InodeContent::Symlink(t) => {
                proof {
                    assert(content_deep(content@)[i as int].1 == ContentV::Link(t@));
                }
                if !str_text_safe(t.as_str()) {
                    proof {
                        assert(!(match content_deep(content@)[i as int].1 {
                            ContentV::Dir(dd) => forall|q: int|
                                0 <= q < dd.len() ==> crate::yaml::text_safe(
                                    (#[trigger] dd[q]).name,
                                ),
                            ContentV::Link(t2) => crate::yaml::text_safe(t2),
                            _ => true,
                        }));
                    }
                    return false;
                }
            },
            _ => {},
        }
        i += 1;
    }
    true
}

/// Whether reserved payload slots are pairwise disjoint.
fn check_disjoint(content: &Vec<(u64, InodeContent)>) -> (r: bool)
    ensures
        r == (forall|i: int, j: int|
            0 <= i < content@.len() && 0 <= j < content@.len() && i != j ==> match (
            (#[trigger] content_deep(content@)[i]).1,
            (#[trigger] content_deep(content@)[j]).1,
            ) {
                (ContentV::File(f), ContentV::File(g)) => f.capacity == 0 || g.capacity == 0
                    || f.offset + f.capacity <= g.offset || g.offset + g.capacity <= f.offset,
                _ => true,
            }),
{
    let mut i: usize = 0;
    while i < content.len()
        invariant
            i <= content@.len(),
            forall|x: int, y: int|
                0 <= x < content@.len() && 0 <= y < content@.len() && x != y && (x < i && y < i)
                    ==> match ((#[trigger] content_deep(content@)[x]).1, (#[trigger] content_deep(
                    content@,
                )[y]).1) {
                    (ContentV::File(f), ContentV::File(g)) => f.capacity == 0 || g.capacity == 0
                        || f.offset + f.capacity <= g.offset || g.offset + g.capacity <= f.offset,
                    _ => true,
                },
        decreases content@.len() - i,
    {
        let fi = match &content[i].1 {
            InodeContent::RegularFile(f) => Some(*f),
            _ => None,
        };
        match fi {
            Some(f) => {
                let mut j: usize = 0;
                while j < i
                    invariant
                        j <= i < content@.len(),
                        content_deep(content@)[i as int].1 == ContentV::File(f),
                        f.size <= u64::MAX,
                        forall|y: int|
                            0 <= y < j ==> match (#[trigger] content_deep(content@)[y]).1 {
                                ContentV::File(g) => f.capacity == 0 || g.capacity == 0 || (
                                f.offset + f.capacity <= g.offset || g.offset + g.capacity
                                    <= f.offset),
                                _ => true,
                            },
                    decreases i - j,
                {
                    match &content[j].1 {
                        InodeContent::RegularFile(g) => {
                            let fe = match f.offset.checked_add(f.capacity) {
                                Some(e) => Some(e),
                                None => None,
                            };
                            let ge = match g.offset.checked_add(g.capacity) {
                                Some(e) => Some(e),
                                None => None,
                            };
                            let ok = f.capacity == 0 || g.capacity == 0 || (match (fe, ge) {
                                (Some(fe), Some(ge)) => fe <= g.offset || ge <= f.offset,
                                (Some(fe), None) => fe <= g.offset,
                                (None, Some(ge)) => ge <= f.offset,
                                (None, None) => false,
                            });
                            if !ok {
                                proof {
                                    assert(content_deep(content@)[j as int].1 == ContentV::File(
                                        *g,
                                    ));
                                    assert(match (
                                        content_deep(content@)[i as int].1,
                                        content_deep(content@)[j as int].1,
                                    ) {
                                        (ContentV::File(a2), ContentV::File(b2)) => !(a2.capacity
                                            == 0 || b2.capacity == 0 || a2.offset + a2.capacity
                                            <= b2.offset || b2.offset + b2.capacity <= a2.offset),
                                        _ => false,
                                    });
                                }
                                return false;
                            }
                        },
                        _ => {},
                    }
                    j += 1;
                }
            },
            None => {},
        }
        i += 1;
    }
    true
}

/// When the parsed header value has a known image, any image the same
/// bytes could carry holds exactly the decoded fields.
proof fn lemma_load_image_transfer(
    data: Seq<u8>,
    dver: u32,
    droot: u64,
    dmeta: MetadataV,
    gins: Seq<(u64, InodeV)>,
    gcts: Seq<(u64, ContentV)>,
    m: crate::yaml::Yv,
)
    requires
        find_term(data, 4) is Some ==> crate::yaml::yaml_doc(
            data.subrange(4, find_term(data, 4).unwrap()),
        ) == Some(m),
        m == crate::codec::yheader(dver, droot, dmeta, gins, gcts),
    ensures
        forall|ver2: u32, root: u64, meta: MetadataV, ins: Seq<(u64, InodeV)>, cts: Seq<
            (u64, ContentV),
        >|
            #[trigger] load_image(data, ver2, root, meta, ins, cts) ==> ver2 == dver && root
                == droot && meta == dmeta && ins == gins && cts == gcts,
{
    assert forall|ver2: u32, root: u64, meta: MetadataV, ins: Seq<(u64, InodeV)>, cts: Seq<
        (u64, ContentV),
    >|
        #[trigger] load_image(data, ver2, root, meta, ins, cts) implies ver2 == dver && root
        == droot && meta == dmeta && ins == gins && cts == gcts by {
        assert(crate::codec::yheader(ver2, root, meta, ins, cts) == crate::codec::yheader(
            dver,
            droot,
            dmeta,
            gins,
            gcts,
        ));
        crate::codec::lemma_yheader_inj(ver2, root, meta, ins, cts, dver, droot, dmeta, gins, gcts);
    }
}

/// Replacing a file's slot rebinds that inode's content and no other.
pub proof fn lemma_set_slot_find(pv: ParcelV, ino: u64, f2: FileReference)
    requires
        tbl_unique(pv.content),
        pv.slot_of(ino) is Some,
    ensures
        forall|k: u64|
            tbl_find(#[trigger] set_slot(pv, ino, f2), k) == if k == ino {
                Some(ContentV::File(f2))
            } else {
                tbl_find(pv.content, k)
            },
{
    lemma_tbl_find_first_idx(pv.content, ino);
    let ci = choose|i: int|
        0 <= i < pv.content.len() && (#[trigger] pv.content[i]).0 == ino && pv.content[i].1
            == tbl_find(pv.content, ino).unwrap() && (forall|j: int|
            0 <= j < i ==> pv.content[j].0 != ino);
    assert forall|i: int|
        0 <= i < pv.content.len() && pv.content[i].0 == ino implies i == ci by {
        if i != ci {
            assert(pv.content[i].0 != pv.content[ci].0);
        }
    }
    assert(set_slot(pv, ino, f2) =~~= pv.content.update(ci, (ino, ContentV::File(f2))));
    lemma_tbl_update(pv.content, ci, ContentV::File(f2));
}

/// Whether a string is free of the line-break characters the header
/// codec refuses.
fn str_text_safe(s: &str) -> (r: bool)
    ensures
        r == crate::yaml::text_safe(s@),
{
    let n = s.unicode_len();
    let mut i: usize = 0;
    while i < n
        invariant
            i <= n,
            n == s@.len(),
            forall|k: int|
                0 <= k < i ==> #[trigger] s@[k] != '\n' && s@[k] != '\r' && s@[k] != '\u{85}'
                    && s@[k] != '\u{2028}' && s@[k] != '\u{2029}',
        decreases n - i,
    {
        let c = s.get_char(i);
        if c == '\n' || c == '\r' || c == '\u{85}' || c == '\u{2028}' || c == '\u{2029}' {
            return false;
        }
        i += 1;
    }
    true
}

/// A parcel is an archive format holding a directory structure.
pub struct Parcel {
    pub(crate) version: u32,
    pub(crate) root_inode: u64,
    pub(crate) metadata: ParcelMetadata,
    pub(crate) inodes: Vec<(u64, Inode)>,
    pub(crate) content: Vec<(u64, InodeContent)>,
    pub(crate) file_offset: Option<u64>,
    pub(crate) next_inode: u64,
    pub(crate) next_offset: u64,
    pub(crate) to_add: Vec<(u64, FileAdd)>,
    pub(crate) on_disk: bool,
}

impl View for Parcel {
    type V = ParcelV;

    closed spec fn view(&self) -> ParcelV {
        ParcelV {
            version: self.version,
            root_inode: self.root_inode,
            metadata: self.metadata@,
            inodes: inodes_deep(self.inodes@),
            content: content_deep(self.content@),
            file_offset: self.file_offset,
            next_inode: self.next_inode,
            next_offset: self.next_offset,
            to_add: queue_deep(self.to_add@),
            on_disk: self.on_disk,
        }
    }
}

impl Parcel {
    /// A fresh, empty parcel: the current version, no metadata, and one
    /// root directory inode numbered 1 with mode 0o755.
    pub fn new() -> (r: Parcel)
        ensures
            r@.wf(),
            r@.version == PARCEL_VERSION,
            r@.root_inode == 1,
            r@.metadata.version == Seq::<char>::empty(),
            r@.metadata.depends == Seq::<Seq<char>>::empty(),
            r@.inodes == seq![
                (
                    1u64,
                    (InodeV {
                        kind: InodeKind::Directory,
                        parent: 0,
                        attrs: crate::root_attrs_spec(),
                        xattrs: Seq::<(Seq<u8>, Seq<u8>)>::empty(),
                    }),
                ),
            ],
            r@.content == seq![(1u64, ContentV::Dir(Seq::<DirEntryV>::empty()))],
            r@.file_offset is None,
            r@.next_inode == 2,
            r@.next_offset == 0,
            r@.to_add == Seq::<(u64, Seq<u8>)>::empty(),
            !r@.on_disk,
    {
        let mut inodes: Vec<(u64, Inode)> = Vec::new();
        inodes.push(
            (
                1,
                Inode {
                    kind: InodeKind::Directory,
                    parent: 0,
                    attrs: crate::root_attrs(),
                    xattrs: Vec::new(),
                },
            ),
        );
        let mut content: Vec<(u64, InodeContent)> = Vec::new();
        content.push((1, InodeContent::Directory(Vec::new())));
        let r = Parcel {
            version: PARCEL_VERSION,
            root_inode: 1,
            metadata: ParcelMetadata::new(),
            inodes,
            content,
            file_offset: None,
            next_inode: 2,
            next_offset: 0,
            to_add: Vec::new(),
            on_disk: false,
        };
        proof {
            assert(r@.inodes =~~= seq![
                (
                    1u64,
                    (InodeV {
                        kind: InodeKind::Directory,
                        parent: 0,
                        attrs: crate::root_attrs_spec(),
                        xattrs: Seq::<(Seq<u8>, Seq<u8>)>::empty(),
                    }),
                ),
            ]);
            assert(r@.content =~~= seq![(1u64, ContentV::Dir(Seq::<DirEntryV>::empty()))]);
            assert(r@.to_add =~= Seq::<(u64, Seq<u8>)>::empty());
            assert(r@.content[0].1 matches ContentV::Dir(d) && d =~= Seq::<DirEntryV>::empty());
            assert(tbl_find(r@.content, 1) == Some(r@.content[0].1)) by {
                lemma_tbl_find_at(r@.content, 1, 0);
            }
            assert(tbl_find(r@.inodes, 1) == Some(r@.inodes[0].1)) by {
                lemma_tbl_find_at(r@.inodes, 1, 0);
            }
        }
        r
    }

    /// Add a regular file to the parcel.  The payload is queued and
    /// written out by the next `store`; the new inode has no directory
    /// entry yet.
    pub fn add_file(&mut self, from: FileAdd, attrs: InodeAttr, xattrs: Vec<XattrEntry>) -> (r:
        Result<u64, ParcelError>)
        requires
            old(self)@.wf(),
            old(self)@.next_inode < u64::MAX,
            old(self)@.next_offset + from@.len() <= u64::MAX,
        ensures
            final(self)@.wf(),
            r matches Ok(ino) && ino == old(self)@.next_inode,
            final(self)@ == (ParcelV {
                inodes: old(self)@.inodes.push(
                    (
                        old(self)@.next_inode,
                        (InodeV {
                            kind: InodeKind::RegularFile,
                            parent: 0,
                            attrs,
                            xattrs: xattrs_deep(xattrs@),
                        }),
                    ),
                ),
                content: old(self)@.content.push(
                    (
                        old(self)@.next_inode,
                        ContentV::File(
                            (FileReference {
                                offset: old(self)@.next_offset,
                                size: from@.len() as u64,
                                capacity: from@.len() as u64,
                            }),
                        ),
                    ),
                ),
                to_add: if from@.len() > 0 {
                    old(self)@.to_add.push((old(self)@.next_inode, from@))
                } else {
                    old(self)@.to_add
                },
                next_inode: (old(self)@.next_inode + 1) as u64,
                next_offset: (old(self)@.next_offset + from@.len()) as u64,
                on_disk: old(self)@.on_disk && from@.len() == 0,
                ..old(self)@
            }),
    {
        let ghost pre = self@;
        let ino = self.next_inode;
        let filesize: u64 = match &from {
            FileAdd::Bytes(b) => b.len() as u64,
            FileAdd::Empty => 0,
        };
        let ghost nv = InodeV {
            kind: InodeKind::RegularFile,
            parent: 0,
            attrs,
            xattrs: xattrs_deep(xattrs@),
        };
        self.inodes.push(
            (ino, Inode { kind: InodeKind::RegularFile, parent: 0, attrs, xattrs }),
        );
        self.content.push(
            (
                ino,
                InodeContent::RegularFile(
                    FileReference { offset: self.next_offset, size: filesize, capacity: filesize },
                ),
            ),
        );
        if filesize > 0 {
            self.to_add.push((ino, from));
            self.on_disk = false;
        }
        self.next_offset = self.next_offset + filesize;
        self.next_inode = ino + 1;
        proof {
            assert(self@.inodes =~~= pre.inodes.push((ino, nv)));
            assert(self@.content =~~= pre.content.push(
                (
                    ino,
                    ContentV::File(
                        (FileReference {
                            offset: pre.next_offset,
                            size: filesize,
                            capacity: filesize,
                        }),
                    ),
                ),
            ));
            if filesize > 0 {
                assert(self@.to_add =~~= pre.to_add.push((ino, from@)));
            } else {
                assert(self@.to_add =~~= pre.to_add);
            }
            lemma_add_file_wf(pre, self@, nv, from@);
        }
        Ok(ino)
    }

    /// Add a directory to the parcel, initially empty.
    pub fn add_directory(&mut self, attrs: InodeAttr, xattrs: Vec<XattrEntry>) -> (r: u64)
        requires
            old(self)@.wf(),
            old(self)@.next_inode < u64::MAX,
        ensures
            final(self)@.wf(),
            r == old(self)@.next_inode,
            final(self)@ == (ParcelV {
                inodes: old(self)@.inodes.push(
                    (
                        old(self)@.next_inode,
                        (InodeV {
                            kind: InodeKind::Directory,
                            parent: 0,
                            attrs,
                            xattrs: xattrs_deep(xattrs@),
                        }),
                    ),
                ),
                content: old(self)@.content.push(
                    (old(self)@.next_inode, ContentV::Dir(Seq::<DirEntryV>::empty())),
                ),
                next_inode: (old(self)@.next_inode + 1) as u64,
                ..old(self)@
            }),
    {
        let ghost pre = self@;
        let ino = self.next_inode;
        let ghost nv = InodeV {
            kind: InodeKind::Directory,
            parent: 0,
            attrs,
            xattrs: xattrs_deep(xattrs@),
        };
        self.inodes.push((ino, Inode { kind: InodeKind::Directory, parent: 0, attrs, xattrs }));
        self.content.push((ino, InodeContent::Directory(Vec::new())));
        self.next_inode = ino + 1;
        proof {
            assert(self@.inodes =~~= pre.inodes.push((ino, nv)));
            assert(self@.content =~~= pre.content.push(
                (ino, ContentV::Dir(Seq::<DirEntryV>::empty())),
            ));
            assert(self@.to_add =~~= pre.to_add);
            lemma_add_plain_wf(pre, self@, nv, ContentV::Dir(Seq::<DirEntryV>::empty()));
        }
        ino
    }

    /// Add a symlink to the parcel.
    pub fn add_symlink(&mut self, target: String, attrs: InodeAttr, xattrs: Vec<XattrEntry>) -> (r:
        Result<u64, ParcelError>)
        requires
            old(self)@.wf(),
            old(self)@.next_inode < u64::MAX,
        ensures
            final(self)@.wf(),
            r is Ok <==> crate::yaml::text_safe(target@),
            r is Err ==> *final(self) == *old(self) && r == Err::<u64, ParcelError>(
                ParcelError::StringConversion,
            ),
            r matches Ok(ino) ==> ino == old(self)@.next_inode && final(self)@ == (ParcelV {
                inodes: old(self)@.inodes.push(
                    (
                        old(self)@.next_inode,
                        (InodeV {
                            kind: InodeKind::Symlink,
                            parent: 0,
                            attrs,
                            xattrs: xattrs_deep(xattrs@),
                        }),
                    ),
                ),
                content: old(self)@.content.push(
                    (old(self)@.next_inode, ContentV::Link(target@)),
                ),
                next_inode: (old(self)@.next_inode + 1) as u64,
                ..old(self)@
            }),
    {
        if !str_text_safe(target.as_str()) {
            return Err(ParcelError::StringConversion);
        }
        let ghost pre = self@;
        let ino = self.next_inode;
        let ghost nv = InodeV {
            kind: InodeKind::Symlink,
            parent: 0,
            attrs,
            xattrs: xattrs_deep(xattrs@),
        };
        let ghost tv = target@;
        self.inodes.push((ino, Inode { kind: InodeKind::Symlink, parent: 0, attrs, xattrs }));
        self.content.push((ino, InodeContent::Symlink(target)));
        self.next_inode = ino + 1;
        proof {
            assert(self@.inodes =~~= pre.inodes.push((ino, nv)));
            assert(self@.content =~~= pre.content.push((ino, ContentV::Link(tv))));
            assert(self@.to_add =~~= pre.to_add);
            lemma_add_plain_wf(pre, self@, nv, ContentV::Link(tv));
        }
        Ok(ino)
    }

    /// Add a character device to the parcel; the device number is taken
    /// from the attributes.
    pub fn add_char(&mut self, attrs: InodeAttr, xattrs: Vec<XattrEntry>) -> (r: u64)
        requires
            old(self)@.wf(),
            old(self)@.next_inode < u64::MAX,
        ensures
            final(self)@.wf(),
            r == old(self)@.next_inode,
            final(self)@ == (ParcelV {
                inodes: old(self)@.inodes.push(
                    (
                        old(self)@.next_inode,
                        (InodeV {
                            kind: InodeKind::CharDevice,
                            parent: 0,
                            attrs,
                            xattrs: xattrs_deep(xattrs@),
                        }),
                    ),
                ),
                content: old(self)@.content.push(
                    (old(self)@.next_inode, ContentV::Dev(attrs.rdev)),
                ),
                next_inode: (old(self)@.next_inode + 1) as u64,
                ..old(self)@
            }),
    {
        let ghost pre = self@;
        let ino = self.next_inode;
        let ghost nv = InodeV {
            kind: InodeKind::CharDevice,
            parent: 0,
            attrs,
            xattrs: xattrs_deep(xattrs@),
        };
        let rdev = attrs.rdev;
        self.inodes.push((ino, Inode { kind: InodeKind::CharDevice, parent: 0, attrs, xattrs }));
        self.content.push((ino, InodeContent::Char(rdev)));
        self.next_inode = ino + 1;
        proof {
            assert(self@.inodes =~~= pre.inodes.push((ino, nv)));
            assert(self@.content =~~= pre.content.push((ino, ContentV::Dev(rdev))));
            assert(self@.to_add =~~= pre.to_add);
            lemma_add_plain_wf(pre, self@, nv, ContentV::Dev(rdev));
        }
        ino
    }

    /// Insert an entry into a directory, binding `name` to `child` and
    /// recording `parent` in the child's inode.  An entry already using
    /// the name is replaced.
    pub fn insert_dirent(&mut self, parent: u64, name: String, child: u64, kind: InodeKind) -> (r:
        Result<(), ParcelError>)
        requires
            old(self)@.wf(),
            old(self)@.content_of(parent) matches Some(c) && c is Dir,
            old(self)@.inode_of(child) is Some,
        ensures
            final(self)@.wf(),
            r is Ok <==> crate::yaml::text_safe(name@),
            r is Err ==> *final(self) == *old(self) && r == Err::<(), ParcelError>(
                ParcelError::StringConversion,
            ),
            r is Ok ==> final(self)@.content.len() == old(self)@.content.len(),
            r is Ok ==> (forall|i: int|
                0 <= i < old(self)@.content.len() ==> (#[trigger] final(self)@.content[i]) == (
                if old(self)@.content[i].0 == parent {
                    (
                        parent,
                        ContentV::Dir(
                            dir_upsert(
                                dir_entries(old(self)@, parent),
                                (DirEntryV { name: name@, child, kind }),
                            ),
                        ),
                    )
                } else {
                    old(self)@.content[i]
                })),
            r is Ok ==> final(self)@.inodes.len() == old(self)@.inodes.len(),
            r is Ok ==> (forall|i: int|
                0 <= i < old(self)@.inodes.len() ==> (#[trigger] final(self)@.inodes[i]) == (
                if old(self)@.inodes[i].0 == child {
                    (
                        child,
                        (InodeV {
                            parent,
                            ..old(self)@.inode_of(child).unwrap()
                        }),
                    )
                } else {
                    old(self)@.inodes[i]
                })),
            r is Ok ==> final(self)@.content_of(parent) == Some(
                ContentV::Dir(
                    dir_upsert(
                        dir_entries(old(self)@, parent),
                        (DirEntryV { name: name@, child, kind }),
                    ),
                ),
            ),
            r is Ok ==> (forall|k: u64|
                k != parent ==> final(self)@.content_of(k) == old(self)@.content_of(k)),
            r is Ok ==> final(self)@.inode_of(child) == Some(
                (InodeV { parent, ..old(self)@.inode_of(child).unwrap() }),
            ),
            r is Ok ==> (forall|k: u64|
                k != child ==> final(self)@.inode_of(k) == old(self)@.inode_of(k)),
            final(self)@ == (ParcelV {
                inodes: final(self)@.inodes,
                content: final(self)@.content,
                ..old(self)@
            }),
    {
        if !str_text_safe(name.as_str()) {
            return Err(ParcelError::StringConversion);
        }
        let ghost pre = self@;
        let ghost e = DirEntryV { name: name@, child, kind };
        let ghost d0 = dir_entries(pre, parent);
        let pp = match tbl_pos(&self.content, parent) {
            Some(i) => i,
            None => {
                proof {
                    lemma_tbl_find_some_idx(pre.content, parent);
                }
                return Err(ParcelError::Enoent);
            },
        };
        proof {
            lemma_tbl_find_at(pre.content, parent, pp as int);
            assert(pre.content[pp as int].1 == ContentV::Dir(d0));
            assert forall|jj: int| 0 <= jj < d0.len() implies crate::yaml::text_safe(
                (#[trigger] d0[jj]).name,
            ) by {
                assert(match (#[trigger] pre.content[pp as int]).1 {
                    ContentV::Dir(dd) => forall|q: int|
                        0 <= q < dd.len() ==> crate::yaml::text_safe((#[trigger] dd[q]).name),
                    ContentV::Link(t) => crate::yaml::text_safe(t),
                    _ => true,
                });
            }
        }
        let (pk, pc) = self.content.remove(pp);
        let newc = match pc {
            InodeContent::Directory(mut d) => {
                let jpos = dir_pos(&d, &name);
                let ent = DirEntry { name, child, kind };
                let ghost dv = dirents_deep(d@);
                match jpos {
                    Some(j) => {
                        d.set(j, ent);
                        proof {
                            lemma_dir_upsert_at(dv, e, j as int);
                            assert(dirents_deep(d@) =~~= dir_upsert(dv, e));
                            assert forall|jj: int|
                                0 <= jj < dirents_deep(d@).len() implies crate::yaml::text_safe(
                                (#[trigger] dirents_deep(d@)[jj]).name,
                            ) by {
                                assert(dirents_deep(d@) == dv.update(j as int, e));
                                if jj != j as int {
                                    assert(dirents_deep(d@)[jj] == dv[jj]);
                                }
                            }
                        }
                    },
                    None => {
                        d.push(ent);
                        proof {
                            lemma_dir_upsert_none(dv, e);
                            assert(dirents_deep(d@) =~~= dir_upsert(dv, e));
                            assert forall|jj: int|
                                0 <= jj < dirents_deep(d@).len() implies crate::yaml::text_safe(
                                (#[trigger] dirents_deep(d@)[jj]).name,
                            ) by {
                                assert(dirents_deep(d@) == dv.push(e));
                                if jj < dv.len() {
                                    assert(dirents_deep(d@)[jj] == dv[jj]);
                                } else {
                                    assert(dirents_deep(d@)[jj] == e);
                                }
                            }
                        }
                    },
                }
                InodeContent::Directory(d)
            },
            _ => {
                self.content.insert(pp, (pk, pc));
                return Err(ParcelError::NotFile);
            },
        };
        self.content.insert(pp, (pk, newc));
        proof {
            assert(self@.content =~~= pre.content.update(pp as int, (parent, ContentV::Dir(
                dir_upsert(d0, e),
            ))));
        }
        let ghost mid = self@;
        let ip = match tbl_pos(&self.inodes, child) {
            Some(i) => i,
            None => {
                proof {
                    lemma_tbl_find_some_idx(pre.inodes, child);
                }
                return Err(ParcelError::Enoent);
            },
        };
        proof {
            lemma_tbl_find_at(pre.inodes, child, ip as int);
        }
        let (ck, nd) = self.inodes.remove(ip);
        self.inodes.push((0, Inode { parent, ..nd }));
        let moved = self.inodes.pop().unwrap();
        self.inodes.insert(ip, (ck, moved.1));
        proof {
            assert(self@.inodes =~~= pre.inodes.update(ip as int, (child, (InodeV {
                parent,
                ..pre.inode_of(child).unwrap()
            }))));
            assert(self@.content =~~= mid.content);
            lemma_tbl_update(pre.content, pp as int, ContentV::Dir(dir_upsert(d0, e)));
            lemma_tbl_update(pre.inodes, ip as int, (InodeV {
                parent,
                ..pre.inode_of(child).unwrap()
            }));
            lemma_dir_upsert_find(d0, e);
            lemma_wf_preserved_by_update(pre, self@);
        }
        Ok(())
    }

    /// Insert a whiteout entry for a name in a directory, masking the
    /// same name in lower overlay layers.
    pub fn insert_whiteout(&mut self, parent: u64, name: String) -> (r: Result<(), ParcelError>)
        requires
            old(self)@.wf(),
            old(self)@.content_of(parent) matches Some(c) && c is Dir,
        ensures
            final(self)@.wf(),
            r is Ok <==> crate::yaml::text_safe(name@),
            r is Err ==> *final(self) == *old(self) && r == Err::<(), ParcelError>(
                ParcelError::StringConversion,
            ),
            r is Ok ==> final(self)@.content.len() == old(self)@.content.len(),
            r is Ok ==> (forall|i: int|
                0 <= i < old(self)@.content.len() ==> (#[trigger] final(self)@.content[i]) == (
                if old(self)@.content[i].0 == parent {
                    (
                        parent,
                        ContentV::Dir(
                            dir_upsert(
                                dir_entries(old(self)@, parent),
                                (DirEntryV { name: name@, child: 0, kind: InodeKind::Whiteout }),
                            ),
                        ),
                    )
                } else {
                    old(self)@.content[i]
                })),
            r is Ok ==> final(self)@.content_of(parent) == Some(
                ContentV::Dir(
                    dir_upsert(
                        dir_entries(old(self)@, parent),
                        (DirEntryV { name: name@, child: 0, kind: InodeKind::Whiteout }),
                    ),
                ),
            ),
            r is Ok ==> (forall|k: u64|
                k != parent ==> final(self)@.content_of(k) == old(self)@.content_of(k)),
            final(self)@ == (ParcelV { content: final(self)@.content, ..old(self)@ }),
    {
        if !str_text_safe(name.as_str()) {
            return Err(ParcelError::StringConversion);
        }
        let ghost pre = self@;
        let ghost e = DirEntryV { name: name@, child: 0, kind: InodeKind::Whiteout };
        let ghost d0 = dir_entries(pre, parent);
        let pp = match tbl_pos(&self.content, parent) {
            Some(i) => i,
            None => {
                proof {
                    lemma_tbl_find_some_idx(pre.content, parent);
                }
                return Err(ParcelError::Enoent);
            },
        };
        proof {
            lemma_tbl_find_at(pre.content, parent, pp as int);
            assert(pre.content[pp as int].1 == ContentV::Dir(d0));
            assert forall|jj: int| 0 <= jj < d0.len() implies crate::yaml::text_safe(
                (#[trigger] d0[jj]).name,
            ) by {
                assert(match (#[trigger] pre.content[pp as int]).1 {
                    ContentV::Dir(dd) => forall|q: int|
                        0 <= q < dd.len() ==> crate::yaml::text_safe((#[trigger] dd[q]).name),
                    ContentV::Link(t) => crate::yaml::text_safe(t),
                    _ => true,
                });
            }
        }
        let (pk, pc) = self.content.remove(pp);
        let newc = match pc {
            InodeContent::Directory(mut d) => {
                let jpos = dir_pos(&d, &name);
                let ent = DirEntry { name, child: 0, kind: InodeKind::Whiteout };
                let ghost dv = dirents_deep(d@);
                match jpos {
                    Some(j) => {
                        d.set(j, ent);
                        proof {
                            lemma_dir_upsert_at(dv, e, j as int);
                            assert(dirents_deep(d@) =~~= dir_upsert(dv, e));
                            assert forall|jj: int|
                                0 <= jj < dirents_deep(d@).len() implies crate::yaml::text_safe(
                                (#[trigger] dirents_deep(d@)[jj]).name,
                            ) by {
                                assert(dirents_deep(d@) == dv.update(j as int, e));
                                if jj != j as int {
                                    assert(dirents_deep(d@)[jj] == dv[jj]);
                                }
                            }
                        }
                    },
                    None => {
                        d.push(ent);
                        proof {
                            lemma_dir_upsert_none(dv, e);
                            assert(dirents_deep(d@) =~~= dir_upsert(dv, e));
                            assert forall|jj: int|
                                0 <= jj < dirents_deep(d@).len() implies crate::yaml::text_safe(
                                (#[trigger] dirents_deep(d@)[jj]).name,
                            ) by {
                                assert(dirents_deep(d@) == dv.push(e));
                                if jj < dv.len() {
                                    assert(dirents_deep(d@)[jj] == dv[jj]);
                                } else {
                                    assert(dirents_deep(d@)[jj] == e);
                                }
                            }
                        }
                    },
                }
                InodeContent::Directory(d)
            },
            _ => {
                self.content.insert(pp, (pk, pc));
                return Err(ParcelError::NotFile);
            },
        };
        self.content.insert(pp, (pk, newc));
        proof {
            assert(self@.content =~~= pre.content.update(pp as int, (parent, ContentV::Dir(
                dir_upsert(d0, e),
            ))));
            assert(self@.inodes =~~= pre.inodes);
            lemma_tbl_update(pre.content, pp as int, ContentV::Dir(dir_upsert(d0, e)));
            lemma_dir_upsert_find(d0, e);
            lemma_wf_preserved_by_update(pre, self@);
        }
        Ok(())
    }

    /// The inode number bound to `name` in a directory, ignoring whiteout
    /// entries.
    pub fn lookup(&self, parent: u64, name: &str) -> (r: Option<u64>)
        requires
            self@.wf(),
        ensures
            r == lookup_spec(self@, parent, name@),
    {
        let p = match tbl_pos(&self.content, parent) {
            Some(i) => i,
            None => {
                proof {
                    lemma_tbl_find_none(self@.content, parent);
                }
                return None;
            },
        };
        proof {
            lemma_tbl_find_at(self@.content, parent, p as int);
        }
        match &self.content[p].1 {
            InodeContent::Directory(d) => {
                let owned = name.to_owned();
                let jpos = dir_pos(d, &owned);
                let ghost dv = dirents_deep(d@);
                match jpos {
                    Some(j) => {
                        proof {
                            lemma_dir_find_at(dv, name@, j as int);
                        }
                        if d[j].kind != InodeKind::Whiteout {
                            Some(d[j].child)
                        } else {
                            None
                        }
                    },
                    None => {
                        proof {
                            lemma_dir_find_none(dv, name@);
                        }
                        None
                    },
                }
            },
            _ => None,
        }
    }

    /// The raw entry list of a directory, whiteouts included, as
    /// (child inode, kind, name) triples in stored order.
    pub fn readdir(&self, ino: u64) -> (r: Option<Vec<(u64, InodeKind, String)>>)
        ensures
            match r {
                Some(v) => self@.content_of(ino) matches Some(c) && c matches ContentV::Dir(d)
                    && v@.len() == d.len() && (forall|i: int|
                    0 <= i < d.len() ==> (#[trigger] v@[i]).0 == d[i].child && v@[i].1 == d[i].kind
                        && v@[i].2@ == d[i].name),
                None => !(self@.content_of(ino) matches Some(c) && c is Dir),
            },
    {
        let p = match tbl_pos(&self.content, ino) {
            Some(i) => i,
            None => {
                proof {
                    lemma_tbl_find_none(self@.content, ino);
                }
                return None;
            },
        };
        proof {
            lemma_tbl_find_at(self@.content, ino, p as int);
        }
        match &self.content[p].1 {
            InodeContent::Directory(d) => {
                let ghost dv = dirents_deep(d@);
                let mut res: Vec<(u64, InodeKind, String)> = Vec::new();
                let mut i: usize = 0;
                while i < d.len()
                    invariant
                        i <= d@.len(),
                        dv == dirents_deep(d@),
                        res@.len() == i,
                        forall|j: int|
                            0 <= j < i ==> (#[trigger] res@[j]).0 == dv[j].child && res@[j].1
                                == dv[j].kind && res@[j].2@ == dv[j].name,
                    decreases d@.len() - i,
                {
                    res.push((d[i].child, d[i].kind, d[i].name.clone()));
                    i += 1;
                }
                Some(res)
            },
            _ => None,
        }
    }

    /// The attributes of an inode, joined with its content's kind and
    /// size; whiteouts and absent inodes have none.
    pub fn getattr(&self, ino: u64) -> (r: Option<FileAttr>)
        ensures
            r == getattr_spec(self@, ino),
    {
        let ip = match tbl_pos(&self.inodes, ino) {
            Some(i) => i,
            None => {
                proof {
                    lemma_tbl_find_none(self@.inodes, ino);
                }
                return None;
            },
        };
        let cp = match tbl_pos(&self.content, ino) {
            Some(i) => i,
            None => {
                proof {
                    lemma_tbl_find_none(self@.content, ino);
                }
                return None;
            },
        };
        proof {
            lemma_tbl_find_at(self@.inodes, ino, ip as int);
            lemma_tbl_find_at(self@.content, ino, cp as int);
        }
        let attrs = self.inodes[ip].1.attrs;
        let size: u64 = match &self.content[cp].1 {
            InodeContent::RegularFile(f) => f.size,
            InodeContent::Directory(_) => 0,
            InodeContent::Symlink(s) => s.as_str().len() as u64,
            InodeContent::Char(_) => 0,
            InodeContent::Whiteout => {
                return None;
            },
        };
        let kind = match &self.content[cp].1 {
            InodeContent::RegularFile(_) => InodeKind::RegularFile,
            InodeContent::Directory(_) => InodeKind::Directory,
            InodeContent::Symlink(_) => InodeKind::Symlink,
            InodeContent::Char(_) => InodeKind::CharDevice,
            InodeContent::Whiteout => {
                return None;
            },
        };
        proof {
            assert(size / 8192 <= size) by (nonlinear_arith);
        }
        let blocks = size / 8192 + if size % 8192 == 0 {
            0
        } else {
            1
        };
        Some(
            FileAttr {
                atime: attrs.atime,
                ctime: attrs.ctime,
                mtime: attrs.mtime,
                crtime: attrs.ctime,
                blocks,
                blksize: 8192,
                gid: attrs.gid,
                uid: attrs.uid,
                ino,
                nlink: attrs.nlink,
                perm: #[verifier::truncate] (attrs.perm as u16),
                rdev: #[verifier::truncate] (attrs.rdev as u32),
                size,
                kind,
                flags: 0,
            },
        )
    }

    /// Replace the attributes of an inode; reports whether it exists.
    pub fn set_attrs(&mut self, ino: u64, attrs: InodeAttr) -> (r: bool)
        requires
            old(self)@.wf(),
        ensures
            final(self)@.wf(),
            r == (old(self)@.inode_of(ino) is Some),
            r ==> final(self)@.inode_of(ino) == Some(
                (InodeV { attrs, ..old(self)@.inode_of(ino).unwrap() }),
            ),
            r ==> (forall|k: u64| k != ino ==> final(self)@.inode_of(k) == old(self)@.inode_of(k)),
            r ==> final(self)@ == (ParcelV { inodes: final(self)@.inodes, ..old(self)@ }),
            r ==> final(self)@.inodes.len() == old(self)@.inodes.len(),
            !r ==> *final(self) == *old(self),
    {
        let ghost pre = self@;
        let ip = match tbl_pos(&self.inodes, ino) {
            Some(i) => i,
            None => {
                proof {
                    lemma_tbl_find_none(pre.inodes, ino);
                }
                return false;
            },
        };
        proof {
            lemma_tbl_find_at(pre.inodes, ino, ip as int);
        }
        let (ck, nd) = self.inodes.remove(ip);
        self.inodes.insert(ip, (ck, Inode { attrs, ..nd }));
        proof {
            assert(self@.inodes =~~= pre.inodes.update(ip as int, (ino, (InodeV {
                attrs,
                ..pre.inode_of(ino).unwrap()
            }))));
            assert(self@.content =~~= pre.content);
            lemma_tbl_update(pre.inodes, ip as int, (InodeV {
                attrs,
                ..pre.inode_of(ino).unwrap()
            }));
            lemma_wf_preserved_by_update(pre, self@);
        }
        true
    }

    /// The extended attributes of an inode, copied out.
    pub fn getxattrs(&self, ino: u64) -> (r: Option<Vec<XattrEntry>>)
        ensures
            match r {
                Some(v) => self@.inode_of(ino) matches Some(nd) && xattrs_deep(v@) == nd.xattrs,
                None => self@.inode_of(ino) is None,
            },
    {
        let ip = match tbl_pos(&self.inodes, ino) {
            Some(i) => i,
            None => {
                proof {
                    lemma_tbl_find_none(self@.inodes, ino);
                }
                return None;
            },
        };
        proof {
            lemma_tbl_find_at(self@.inodes, ino, ip as int);
        }
        let xs = &self.inodes[ip].1.xattrs;
        let mut res: Vec<XattrEntry> = Vec::new();
        let mut i: usize = 0;
        while i < xs.len()
            invariant
                i <= xs@.len(),
                res@.len() == i,
                forall|j: int| 0 <= j < i ==> (#[trigger] res@[j])@ == xs@[j]@,
            decreases xs@.len() - i,
        {
            res.push(
                XattrEntry {
                    name: vstd::slice::slice_to_vec(xs[i].name.as_slice()),
                    value: vstd::slice::slice_to_vec(xs[i].value.as_slice()),
                },
            );
            i += 1;
        }
        proof {
            assert(xattrs_deep(res@) =~~= self@.inode_of(ino).unwrap().xattrs);
        }
        Some(res)
    }

    /// The target of a symlink, as bytes.
    pub fn readlink(&self, ino: u64) -> (r: Option<Vec<u8>>)
        requires
            self@.content_of(ino) is Some ==> self@.content_of(ino).unwrap() is Link,
        ensures
            match r {
                Some(b) => self@.content_of(ino) matches Some(c) && c matches ContentV::Link(t)
                    && b@ == vstd::utf8::encode_utf8(t),
                None => self@.content_of(ino) is None,
            },
    {
        let cp = match tbl_pos(&self.content, ino) {
            Some(i) => i,
            None => {
                proof {
                    lemma_tbl_find_none(self@.content, ino);
                }
                return None;
            },
        };
        proof {
            lemma_tbl_find_at(self@.content, ino, cp as int);
        }
        match &self.content[cp].1 {
            InodeContent::Symlink(s) => Some(s.as_str().as_bytes_vec()),
            _ => None,
        }
    }

    /// Remove an inode and its content.  Directory entries that point at
    /// it are not touched; callers are responsible for them.
    pub fn delete(&mut self, ino: u64) -> (r: Result<(), ParcelError>)
        requires
            old(self)@.wf(),
        ensures
            final(self)@.wf(),
            r is Ok <==> old(self)@.inode_of(ino) is Some,
            r is Ok ==> {
                &&& final(self)@.inode_of(ino) is None
                &&& final(self)@.content_of(ino) is None
                &&& final(self)@.queued(ino) is None
                &&& (forall|k: u64| k != ino ==> final(self)@.inode_of(k) == old(
                    self,
                )@.inode_of(k))
                &&& (forall|k: u64| k != ino ==> final(self)@.content_of(k) == old(
                    self,
                )@.content_of(k))
                &&& (forall|k: u64| k != ino ==> final(self)@.queued(k) == old(self)@.queued(k))
                &&& final(self)@.inodes.len() == old(self)@.inodes.len() - 1
                &&& final(self)@.content.len() == old(self)@.content.len() - 1
                &&& final(self)@ == (ParcelV {
                    inodes: final(self)@.inodes,
                    content: final(self)@.content,
                    to_add: final(self)@.to_add,
                    ..old(self)@
                })
            },
            r is Err ==> *final(self) == *old(self) && r == Err::<(), ParcelError>(
                ParcelError::Enoent,
            ),
    {
        let ghost pre = self@;
        let ip = match tbl_pos(&self.inodes, ino) {
            Some(i) => i,
            None => {
                proof {
                    lemma_tbl_find_none(pre.inodes, ino);
                }
                return Err(ParcelError::Enoent);
            },
        };
        let cp = match tbl_pos(&self.content, ino) {
            Some(i) => i,
            None => {
                proof {
                    lemma_tbl_find_none(pre.content, ino);
                    lemma_tbl_find_at(pre.inodes, ino, ip as int);
                    lemma_tbl_key_to_contains(pre.inodes, ino, ip as int);
                    assert(tbl_contains(pre.content, pre.inodes[ip as int].0));
                }
                return Err(ParcelError::Enoent);
            },
        };
        proof {
            lemma_tbl_find_at(pre.inodes, ino, ip as int);
            lemma_tbl_find_at(pre.content, ino, cp as int);
        }
        let _ = self.inodes.remove(ip);
        let _ = self.content.remove(cp);
        match tbl_pos(&self.to_add, ino) {
            Some(qp) => {
                let _ = self.to_add.remove(qp);
                proof {
                    assert(self@.to_add =~~= pre.to_add.remove(qp as int));
                    lemma_tbl_remove(pre.to_add, qp as int);
                }
            },
            None => {
                proof {
                    lemma_tbl_find_none(pre.to_add, ino);
                    assert(self@.to_add =~~= pre.to_add);
                }
            },
        }
        proof {
            assert(self@.inodes =~~= pre.inodes.remove(ip as int));
            assert(self@.content =~~= pre.content.remove(cp as int));
            lemma_tbl_remove(pre.inodes, ip as int);
            lemma_tbl_remove(pre.content, cp as int);
            lemma_delete_wf(pre, self@, ino, ip as int, cp as int);
        }
        Ok(())
    }

    /// Read a window of a file's payload from the backing store.  The
    /// offset is clamped to the file's size; with no explicit size the
    /// rest of the file is read.
    pub fn read(&self, store: &mut ByteStore, ino: u64, offset: u64, size: Option<u64>) -> (r:
        Result<Vec<u8>, ParcelError>)
        requires
            self@.wf(),
            self@.on_disk,
        ensures
            final(store)@ == old(store)@,
            (match r {
                Ok(b) => Ok(b@),
                Err(e) => Err::<Seq<u8>, ParcelError>(e),
            }) == read_spec(self@, old(store)@, ino, offset, size),
    {
        let store_len = store.len();
        let cp = match tbl_pos(&self.content, ino) {
            Some(i) => i,
            None => {
                proof {
                    lemma_tbl_find_none(self@.content, ino);
                }
                return Err(ParcelError::Enoent);
            },
        };
        proof {
            lemma_tbl_find_at(self@.content, ino, cp as int);
        }
        let f = match &self.content[cp].1 {
            InodeContent::RegularFile(f) => *f,
            _ => {
                return Err(ParcelError::NotFile);
            },
        };
        let fo = match self.file_offset {
            Some(v) => v,
            None => {
                return Err(ParcelError::Io);
            },
        };
        let off = if offset > f.size {
            f.size
        } else {
            offset
        };
        let n = match size {
            Some(s) => if s <= f.size - off {
                s
            } else {
                f.size - off
            },
            None => f.size - off,
        };
        let start = match fo.checked_add(f.offset) {
            Some(v) => match v.checked_add(off) {
                Some(w) => w,
                None => {
                    return Err(ParcelError::Io);
                },
            },
            None => {
                return Err(ParcelError::Io);
            },
        };
        let end = match start.checked_add(n) {
            Some(v) => v,
            None => {
                return Err(ParcelError::Io);
            },
        };
        if end > store_len {
            return Err(ParcelError::Io);
        }
        store.seek(start);
        match store.read_exact(n) {
            Ok(b) => {
                proof {
                    assert(b@ =~= old(store)@.subrange(start as int, start + n));
                }
                Ok(b)
            },
            Err(_) => Err(ParcelError::Io),
        }
    }

    /// Write a buffer into a file's payload slot.  The write must fit in
    /// the reserved capacity; the file's size grows to cover it.
    pub fn write(&mut self, store: &mut ByteStore, ino: u64, offset: u64, buf: &[u8]) -> (r: Result<
        u64,
        ParcelError,
    >)
        requires
            old(self)@.wf(),
            old(self)@.on_disk,
            offset + buf@.len() <= u64::MAX,
        ensures
            final(self)@.wf(),
            final(self)@ == write_spec(old(self)@, old(store)@, ino, offset, buf@).0,
            final(store)@ == write_spec(old(self)@, old(store)@, ino, offset, buf@).1,
            (match r {
                Ok(n) => Ok(n),
                Err(e) => Err::<u64, ParcelError>(e),
            }) == write_spec(old(self)@, old(store)@, ino, offset, buf@).2,
    {
        let ghost pre = self@;
        let cp = match tbl_pos(&self.content, ino) {
            Some(i) => i,
            None => {
                proof {
                    lemma_tbl_find_none(pre.content, ino);
                }
                return Err(ParcelError::Enoent);
            },
        };
        proof {
            lemma_tbl_find_at(pre.content, ino, cp as int);
        }
        let f = match &self.content[cp].1 {
            InodeContent::RegularFile(f) => *f,
            _ => {
                return Err(ParcelError::NotFile);
            },
        };
        let blen = buf.len() as u64;
        if offset + blen > f.capacity {
            return Err(ParcelError::NeedExpansion);
        }
        let fo = match self.file_offset {
            Some(v) => v,
            None => {
                return Err(ParcelError::Io);
            },
        };
        let start = match fo.checked_add(f.offset) {
            Some(v) => match v.checked_add(offset) {
                Some(w) => w,
                None => {
                    return Err(ParcelError::Io);
                },
            },
            None => {
                return Err(ParcelError::Io);
            },
        };
        match start.checked_add(blen) {
            Some(e) => if e > (usize::MAX as u64) {
                return Err(ParcelError::Io);
            },
            None => {
                return Err(ParcelError::Io);
            },
        };
        store.seek(start);
        store.write_all(buf);
        let ns = if f.size >= offset + blen {
            f.size
        } else {
            offset + blen
        };
        let f2 = FileReference { offset: f.offset, size: ns, capacity: f.capacity };
        let (ck, _) = self.content.remove(cp);
        self.content.insert(cp, (ck, InodeContent::RegularFile(f2)));
        proof {
            assert forall|i: int|
                0 <= i < pre.content.len() && pre.content[i].0 == ino implies i == cp as int by {
                if i != cp as int {
                    assert(pre.content[i].0 != pre.content[cp as int].0);
                }
            }
            assert(self@.content =~~= set_slot(pre, ino, f2));
            assert(self@ == (ParcelV { content: set_slot(pre, ino, f2), ..pre }));
            if pre.queued(ino) is Some {
                lemma_tbl_find_some_idx(pre.to_add, ino);
            }
            lemma_slot_update_wf(pre, self@, ino, f, f2);
        }
        Ok(blen)
    }

    /// Change the reserved capacity of a file's payload slot: grow in
    /// place at the top of the payload region, relocate otherwise, or
    /// shrink in place.
    pub fn realloc_reserved(&mut self, store: &mut ByteStore, ino: u64, capacity: u64) -> (r:
        Result<(), ParcelError>)
        requires
            old(self)@.wf(),
            old(self)@.file_offset is Some,
            !(old(self)@.content_of(ino) matches Some(c) && !(c is File)),
            old(self)@.queued(ino) is Some ==> capacity >= old(self)@.slot_of(ino).unwrap().size,
            old(self)@.file_offset.unwrap() + old(self)@.next_offset + capacity <= usize::MAX,
        ensures
            final(self)@.wf(),
            final(self)@ == realloc_spec(old(self)@, old(store)@, ino, capacity).0,
            final(store)@ == realloc_spec(old(self)@, old(store)@, ino, capacity).1,
            (match r {
                Ok(_) => Ok(()),
                Err(e) => Err::<(), ParcelError>(e),
            }) == realloc_spec(old(self)@, old(store)@, ino, capacity).2,
    {
        let ghost pre = self@;
        let cp = match tbl_pos(&self.content, ino) {
            Some(i) => i,
            None => {
                proof {
                    lemma_tbl_find_none(pre.content, ino);
                }
                return Err(ParcelError::Enoent);
            },
        };
        proof {
            lemma_tbl_find_at(pre.content, ino, cp as int);
        }
        let f = match &self.content[cp].1 {
            InodeContent::RegularFile(f) => *f,
            _ => {
                return Err(ParcelError::NotFile);
            },
        };
        let fo = match self.file_offset {
            Some(v) => v,
            None => {
                return Err(ParcelError::Io);
            },
        };
        proof {
            assert(f.offset + f.capacity <= pre.next_offset);
            if pre.queued(ino) is Some {
                lemma_tbl_find_some_idx(pre.to_add, ino);
            }
            assert forall|i: int|
                0 <= i < pre.content.len() && pre.content[i].0 == ino implies i == cp as int by {
                if i != cp as int {
                    assert(pre.content[i].0 != pre.content[cp as int].0);
                }
            }
        }
        if capacity == f.capacity {
            return Ok(());
        }
        if capacity > f.capacity {
            if self.next_offset == f.offset + f.capacity {
                let wstart = fo + self.next_offset;
                store.seek(wstart);
                store.write_spaces(capacity - f.capacity);
                let f2 = FileReference { offset: f.offset, size: f.size, capacity };
                let (ck, _) = self.content.remove(cp);
                self.content.insert(cp, (ck, InodeContent::RegularFile(f2)));
                self.next_offset = f.offset + capacity;
                proof {
                    assert(self@.content =~~= set_slot(pre, ino, f2));
                    assert(final(store)@ =~~= write_result(
                        old(store)@,
                        fo + pre.next_offset,
                        spaces(capacity - f.capacity),
                    ));
                    assert(self@ == realloc_spec(pre, old(store)@, ino, capacity).0);
                    lemma_slot_update_wf(pre, self@, ino, f, f2);
                }
                Ok(())
            } else {
                let rstart = fo + f.offset;
                store.seek(rstart);
                let saved = match store.read_exact(f.size) {
                    Ok(b) => b,
                    Err(_) => {
                        return Err(ParcelError::Io);
                    },
                };
                let f2 = FileReference { offset: self.next_offset, size: f.size, capacity };
                let (ck, _) = self.content.remove(cp);
                self.content.insert(cp, (ck, InodeContent::RegularFile(f2)));
                let wstart = fo + f2.offset;
                store.seek(wstart);
                store.write_all(saved.as_slice());
                store.write_spaces(capacity - f.size);
                self.next_offset = f2.offset + capacity;
                proof {
                    assert(self@.content =~~= set_slot(pre, ino, f2));
                    let ghost sv = if f.size == 0 {
                        Seq::<u8>::empty()
                    } else {
                        old(store)@.subrange(
                            fo + f.offset,
                            fo + f.offset + f.size,
                        )
                    };
                    assert(saved@ =~~= sv);
                    let ghost moved = write_result(old(store)@, fo + pre.next_offset, sv);
                    assert(final(store)@ =~~= write_result(
                        moved,
                        fo + pre.next_offset + f.size,
                        spaces(capacity - f.size),
                    ));
                    assert(self@ == realloc_spec(pre, old(store)@, ino, capacity).0);
                    lemma_slot_update_wf(pre, self@, ino, f, f2);
                }
                Ok(())
            }
        } else {
            let ns = if f.size <= capacity {
                f.size
            } else {
                capacity
            };
            let f2 = FileReference { offset: f.offset, size: ns, capacity };
            let (ck, _) = self.content.remove(cp);
            self.content.insert(cp, (ck, InodeContent::RegularFile(f2)));
            proof {
                assert(self@.content =~~= set_slot(pre, ino, f2));
                assert(self@ == realloc_spec(pre, old(store)@, ino, capacity).0);
                lemma_slot_update_wf(pre, self@, ino, f, f2);
            }
            Ok(())
        }
    }

    /// Write a buffer into a file, growing the reserved slot first when
    /// the write would run past the file's current size.
    pub fn expand_write(&mut self, store: &mut ByteStore, ino: u64, offset: u64, buf: &[u8]) -> (r:
        Result<u64, ParcelError>)
        requires
            old(self)@.wf(),
            old(self)@.on_disk,
            offset + buf@.len() <= u64::MAX,
            old(self)@.file_offset.unwrap() + old(self)@.next_offset + (offset + buf@.len())
                <= usize::MAX,
        ensures
            final(self)@.wf(),
            final(self)@ == expand_write_spec(old(self)@, old(store)@, ino, offset, buf@).0,
            final(store)@ == expand_write_spec(old(self)@, old(store)@, ino, offset, buf@).1,
            (match r {
                Ok(n) => Ok(n),
                Err(e) => Err::<u64, ParcelError>(e),
            }) == expand_write_spec(old(self)@, old(store)@, ino, offset, buf@).2,
    {
        let ghost pre = self@;
        let cp = match tbl_pos(&self.content, ino) {
            Some(i) => i,
            None => {
                proof {
                    lemma_tbl_find_none(pre.content, ino);
                }
                return Err(ParcelError::Enoent);
            },
        };
        proof {
            lemma_tbl_find_at(pre.content, ino, cp as int);
        }
        let f = match &self.content[cp].1 {
            InodeContent::RegularFile(f) => *f,
            _ => {
                return Err(ParcelError::NotFile);
            },
        };
        let blen = buf.len() as u64;
        if offset + blen > f.size {
            proof {
                if pre.queued(ino) is Some {
                    assert(pre.to_add.len() > 0);
                    lemma_tbl_find_some_idx(pre.to_add, ino);
                }
            }
            match self.realloc_reserved(store, ino, offset + blen) {
                Ok(_) => {},
                Err(e) => {
                    return Err(e);
                },
            }
        }
        self.write(store, ino, offset, buf)
    }

    /// Write the container out: serialise the header, pad or grow the
    /// header region (relocating the payload region when it must grow),
    /// rewrite magic, header and terminator in place, then write every
    /// queued payload into its slot.
    #[verifier::rlimit(100)]
    pub fn store(&mut self, out: &mut ByteStore) -> (r: Result<(), ParcelError>)
        requires
            old(self)@.wf(),
        ensures
            final(self)@.wf(),
            r is Ok <==> store_ok(old(self)@, old(out)@),
            !crate::codec::meta_text_safe(old(self)@.metadata) ==> r == Err::<(), ParcelError>(
                ParcelError::StringConversion,
            ),
            crate::codec::meta_text_safe(old(self)@.metadata) && !crate::yaml::yaml_emits(
                header_value(old(self)@),
            ) ==> r == Err::<(), ParcelError>(ParcelError::Codec),
            crate::codec::meta_text_safe(old(self)@.metadata) && crate::yaml::yaml_emits(
                header_value(old(self)@),
            ) && !store_ok(old(self)@, old(out)@) ==> r == Err::<(), ParcelError>(ParcelError::Io),
            r is Err ==> *final(self) == *old(self) && final(out)@ == old(out)@,
            r is Ok ==> final(self)@ == (ParcelV {
                file_offset: final(self)@.file_offset,
                to_add: Seq::<(u64, Seq<u8>)>::empty(),
                on_disk: true,
                ..old(self)@
            }) && final(self)@.file_offset is Some,
            r is Ok ==> ({
                let fo = final(self)@.file_offset.unwrap() as int;
                let bytes = final(out)@;
                &&& fo == store_target(old(self)@)
                &&& fo >= 9
                &&& (match old(self)@.file_offset {
                    Some(cur) => fo >= cur && (fo == cur || fo >= cur + (cur + 4) / 5),
                    None => true,
                })
                &&& bytes.len() == store_len(old(self)@, old(out)@)
                &&& bytes.len() >= fo
                &&& bytes.subrange(
                    4,
                    4 + crate::yaml::yaml_emit(header_value(old(self)@)).len() as int,
                ) == crate::yaml::yaml_emit(header_value(old(self)@))
                &&& (forall|p: int|
                    4 + crate::yaml::yaml_emit(header_value(old(self)@)).len() as int <= p < fo
                        - 5 ==> #[trigger] bytes[p] == 32u8)
                &&& fo + old(self)@.next_offset <= usize::MAX
                &&& bytes.subrange(0, 4) == magic_seq()
                &&& bytes.subrange(fo - 5, fo) == crate::yaml::terminator()
                &&& crate::yaml::yaml_doc(bytes.subrange(4, fo - 5)) == Some(
                    crate::codec::yheader(
                        old(self)@.version,
                        old(self)@.root_inode,
                        old(self)@.metadata,
                        old(self)@.inodes,
                        old(self)@.content,
                    ),
                )
                &&& find_term(bytes, 4) == Some(fo - 5)
                &&& (forall|k: u64|
                    (#[trigger] old(self)@.queued(k)) matches Some(b) ==> fo + old(
                        self,
                    )@.slot_of(k).unwrap().offset + b.len() <= bytes.len() && bytes.subrange(
                        fo + old(self)@.slot_of(k).unwrap().offset,
                        fo + old(self)@.slot_of(k).unwrap().offset + b.len(),
                    ) == b)
                &&& (match old(self)@.file_offset {
                    Some(cur) => forall|i: int|
                        0 <= i && cur + i < old(out)@.len() && #[trigger] untouched_by_queue(
                            old(self)@,
                            i,
                        ) ==> fo + i < bytes.len() && bytes[fo + i] == old(out)@[cur + i],
                    None => true,
                })
            }),
    {
        let ghost pre = self@;
        let ghost data0 = out@;
        // the emitter refuses break characters, so the metadata's
        // strings are vetted before anything is serialised or written
        if !str_text_safe(self.metadata.version.as_str()) {
            return Err(ParcelError::StringConversion);
        }
        let mut mi: usize = 0;
        while mi < self.metadata.depends.len()
            invariant
                *self == *old(self),
                pre == self@,
                pre.wf(),
                mi <= self.metadata.depends@.len(),
                crate::yaml::text_safe(pre.metadata.version),
                forall|k: int| 0 <= k < mi ==> crate::yaml::text_safe(
                    #[trigger] pre.metadata.depends[k],
                ),
            decreases self.metadata.depends@.len() - mi,
        {
            if !str_text_safe(self.metadata.depends[mi].as_str()) {
                proof {
                    assert(pre.metadata.depends[mi as int] == self.metadata.depends@[mi as int]@);
                }
                return Err(ParcelError::StringConversion);
            }
            proof {
                assert(pre.metadata.depends[mi as int] == self.metadata.depends@[mi as int]@);
            }
            mi += 1;
        }
        proof {
            assert(crate::codec::meta_text_safe(pre.metadata));
        }
        let ghost model = crate::codec::yheader(
            pre.version,
            pre.root_inode,
            pre.metadata,
            pre.inodes,
            pre.content,
        );
        proof {
            assert(model == header_value(pre));
        }
        let hb = match crate::codec::encode_header(
            self.version,
            self.root_inode,
            &self.metadata,
            &self.inodes,
            &self.content,
        ) {
            Ok(b) => b,
            Err(e) => {
                return Err(e);
            },
        };
        let ghost hb0 = hb@;
        proof {
            assert(hb0 == crate::yaml::yaml_emit(model));
        }
        if hb.len() > usize::MAX - 9 {
            return Err(ParcelError::Io);
        }
        let needed: u64 = (hb.len() + 9) as u64;
        let prev = self.file_offset;
        let fo: u64 = match prev {
            None => needed,
            Some(cur) => {
                if needed > cur {
                    proof {
                        lemma_ceil_fifth(cur);
                    }
                    let bump = cur / 5 + if cur % 5 != 0 {
                        1u64
                    } else {
                        0u64
                    };
                    let grown = match cur.checked_add(bump) {
                        Some(g) => g,
                        None => {
                            return Err(ParcelError::Io);
                        },
                    };
                    if needed > grown {
                        needed
                    } else {
                        grown
                    }
                } else {
                    cur
                }
            },
        };
        proof {
            assert(needed == store_needed(pre));
            if prev is Some {
                lemma_ceil_fifth(prev.unwrap());
            }
            assert(fo == store_target(pre));
        }
        if fo > usize::MAX as u64 {
            return Err(ParcelError::Io);
        }
        if self.next_offset > usize::MAX as u64 - fo {
            return Err(ParcelError::Io);
        }
        // relocate the payload region when the header region must grow
        let ghost mut dmoved: Seq<u8> = data0;
        let grew = match prev {
            Some(cur) => fo > cur,
            None => false,
        };
        if grew {
            let cur = match prev {
                Some(c) => c,
                None => 0,
            };
            out.seek(cur);
            let saved = out.read_to_end();
            if saved.len() as u64 > usize::MAX as u64 - fo {
                return Err(ParcelError::Io);
            }
            out.seek(fo);
            out.write_all(saved.as_slice());
            proof {
                dmoved = out@;
                assert forall|i: int|
                    0 <= i && cur + i < data0.len() implies fo + i < dmoved.len()
                    && #[trigger] dmoved[fo + i] == data0[cur + i] by {
                    assert(saved@.len() == data0.len() - cur);
                    assert(saved@[i] == data0[cur + i]);
                }
                assert(dmoved.len() as int == moved_len(pre, data0));
            }
        } else {
            proof {
                dmoved = out@;
                if prev is Some {
                    let cur = prev.unwrap() as int;
                    assert(fo == cur);
                    assert forall|i: int|
                        0 <= i && cur + i < data0.len() implies fo + i < dmoved.len()
                        && #[trigger] dmoved[fo + i] == data0[cur + i] by {}
                }
                assert(dmoved.len() as int == moved_len(pre, data0));
            }
        }
        let ghost reloc_ok = match prev {
            Some(cur) => forall|i: int|
                0 <= i && cur + i < data0.len() ==> fo + i < dmoved.len() && #[trigger] dmoved[fo
                    + i] == data0[cur + i],
            None => true,
        };
        proof {
            assert(reloc_ok);
        }
        // pad the header to fill the region exactly
        let mut padded = hb;
        let target = (fo - 9) as usize;
        while padded.len() < target
            invariant
                hb0.len() <= padded@.len() <= target,
                padded@ == hb0 + spaces((padded@.len() - hb0.len()) as int),
            decreases target - padded@.len(),
        {
            padded.push(32u8);
            proof {
                assert(padded@ =~= hb0 + spaces((padded@.len() - hb0.len()) as int));
            }
        }
        proof {
            assert(padded@.len() == target);
        }
        let magic = vec![52u8, 49u8, 51u8, 10u8];
        let term = vec![10u8, 46u8, 46u8, 46u8, 10u8];
        out.seek(0);
        out.write_all(magic.as_slice());
        out.write_all(padded.as_slice());
        out.write_all(term.as_slice());
        let ghost dhdr = out@;
        proof {
            assert(magic@ =~= magic_seq());
            assert(term@ =~= crate::yaml::terminator());
            let d2 = write_result(dmoved, 0, magic@);
            let d3 = write_result(d2, 4, padded@);
            assert(dhdr == write_result(d3, 4 + padded@.len() as int, term@));
            assert(4 + padded@.len() == fo - 5);
            assert(dhdr.len() >= fo);
            assert(dhdr.subrange(0, 4) =~= magic_seq());
            assert(dhdr.subrange(4, fo - 5) =~= padded@);
            assert(dhdr.subrange(fo - 5, fo as int) =~= crate::yaml::terminator());
            assert forall|i: int| fo <= i < dmoved.len() implies #[trigger] dhdr[i]
                == dmoved[i] by {
                assert(d2[i] == dmoved[i]);
                assert(d3[i] == d2[i]);
            }
            assert(dhdr.len() >= dmoved.len());
            assert(dhdr.len() as int == vstd::math::max(dmoved.len() as int, fo as int)) by {
                assert(d2.len() as int == vstd::math::max(dmoved.len() as int, 4));
                assert(d3.len() as int == vstd::math::max(d2.len() as int, fo - 5));
                assert(dhdr.len() as int == vstd::math::max(d3.len() as int, fo as int));
            }
        }
        // write every queued payload into its slot
        let mut qi: usize = 0;
        while qi < self.to_add.len()
            invariant
                pre == self@,
                pre.wf(),
                qi <= pre.to_add.len(),
                9 <= fo,
                fo + pre.next_offset <= usize::MAX,
                out@.len() >= fo,
                out@.subrange(0, 4) == dhdr.subrange(0, 4),
                out@.subrange(4, fo - 5) == dhdr.subrange(4, fo - 5),
                out@.subrange(fo - 5, fo as int) == dhdr.subrange(fo - 5, fo as int),
                dhdr.len() >= fo,
                forall|j: int|
                    0 <= j < qi ==> ({
                        let k = (#[trigger] pre.to_add[j]).0;
                        let b = pre.to_add[j].1;
                        let f = pre.slot_of(k).unwrap();
                        fo + f.offset + b.len() <= out@.len() && out@.subrange(
                            fo + f.offset,
                            fo + f.offset + b.len(),
                        ) == b
                    }),
                forall|i: int|
                    fo <= i < dhdr.len() && payload_pos_untouched(pre, fo as int, i, qi as int)
                        ==> i < out@.len() && #[trigger] out@[i] == dhdr[i],
                out@.len() >= dhdr.len(),
                vstd::math::max(out@.len() as int, queue_extent(pre, fo as int, qi as int))
                    == vstd::math::max(
                    dhdr.len() as int,
                    queue_extent(pre, fo as int, 0),
                ),
            decreases pre.to_add.len() - qi,
        {
            let ghost dprev = out@;
            let ino = self.to_add[qi].0;
            let cp = match tbl_pos(&self.content, ino) {
                Some(i) => i,
                None => {
                    proof {
                        assert(pre.slot_of(pre.to_add[qi as int].0) is Some);
                        lemma_tbl_find_some_idx(pre.content, ino);
                    }
                    return Err(ParcelError::Enoent);
                },
            };
            proof {
                lemma_tbl_find_at(pre.content, ino, cp as int);
            }
            let f = match &self.content[cp].1 {
                InodeContent::RegularFile(f) => *f,
                _ => {
                    return Err(ParcelError::NotFile);
                },
            };
            proof {
                assert(pre.slot_of(ino) == Some(f));
                assert(f.offset + f.capacity <= pre.next_offset);
                assert(pre.to_add[qi as int].1.len() == f.size);
            }
            match &self.to_add[qi].1 {
                FileAdd::Bytes(b) => {
                    out.seek(fo + f.offset);
                    out.write_all(b.as_slice());
                },
                FileAdd::Empty => {
                },
            }
            proof {
                let k = pre.to_add[qi as int].0;
                let b = pre.to_add[qi as int].1;
                assert(b.len() > 0);
                assert(out@ == write_result(dprev, fo + f.offset, b));
                lemma_store_payload_step(pre, fo as int, dhdr, dprev, out@, qi as int, f, b);
                lemma_queue_extent_unfold(pre, fo as int, qi as int);
                assert(out@.len() as int == vstd::math::max(
                    dprev.len() as int,
                    fo + f.offset + b.len(),
                ));
            }
            qi += 1;
        }
        self.to_add = Vec::new();
        self.on_disk = true;
        self.file_offset = Some(fo);
        out.flush();
        proof {
            assert(self@ == (ParcelV {
                file_offset: Some(fo),
                to_add: Seq::<(u64, Seq<u8>)>::empty(),
                on_disk: true,
                ..pre
            })) by {
                assert(self@.to_add =~= Seq::<(u64, Seq<u8>)>::empty());
                assert(self@ =~~= (ParcelV {
                    file_offset: Some(fo),
                    to_add: Seq::<(u64, Seq<u8>)>::empty(),
                    on_disk: true,
                    ..pre
                }));
            }
            assert(self@.wf()) by {
                assert forall|i: int|
                    0 <= i < self@.inodes.len() implies tbl_contains(
                    self@.content,
                    (#[trigger] self@.inodes[i]).0,
                ) by {
                    assert(self@.inodes == pre.inodes && self@.content == pre.content);
                }
            }
            // the header region holds the padded document
            assert(out@.subrange(4, fo - 5) =~= padded@);
            assert(crate::yaml::all_spaces(padded@.subrange(hb0.len() as int, padded@.len() as int)));
            assert(padded@ =~= hb0 + padded@.subrange(hb0.len() as int, padded@.len() as int));
            assert(crate::yaml::yaml_doc(out@.subrange(4, fo - 5)) == Some(model));
            // the first terminator is the framing one
            assert forall|p: int| 4 + hb0.len() as int <= p < fo - 5 implies #[trigger] out@[p]
                == 32u8 by {
                assert(out@.subrange(4, fo - 5)[p - 4] == padded@[p - 4]);
            }
            assert(out@.subrange(4, 4 + hb0.len() as int) =~= hb0) by {
                assert forall|i: int| 0 <= i < hb0.len() implies out@.subrange(
                    4,
                    4 + hb0.len() as int,
                )[i] == hb0[i] by {
                    assert(out@.subrange(4, fo - 5)[i] == padded@[i]);
                    assert(padded@[i] == hb0[i]);
                    assert(out@.subrange(4, 4 + hb0.len() as int)[i] == out@[4 + i]);
                    assert(out@.subrange(4, fo - 5)[i] == out@[4 + i]);
                }
            }
            lemma_find_term_framed(out@, hb0, fo as int);
            assert(store_ok(pre, data0));
            assert(out@.len() as int == store_len(pre, data0)) by {
                assert(queue_extent(pre, fo as int, pre.to_add.len() as int) == 0);
            }
            // queued payloads sit in their slots
            assert forall|k: u64|
                (#[trigger] pre.queued(k)) is Some implies fo + pre.slot_of(k).unwrap().offset
                + pre.queued(k).unwrap().len() <= out@.len() && out@.subrange(
                fo + pre.slot_of(k).unwrap().offset,
                fo + pre.slot_of(k).unwrap().offset + pre.queued(k).unwrap().len(),
            ) == pre.queued(k).unwrap() by {
                lemma_tbl_find_first_idx(pre.to_add, k);
                let j = choose|j: int|
                    0 <= j < pre.to_add.len() && (#[trigger] pre.to_add[j]).0 == k
                        && pre.to_add[j].1 == tbl_find(pre.to_add, k).unwrap() && (forall|a: int|
                        0 <= a < j ==> pre.to_add[a].0 != k);
                assert(fo + pre.slot_of(pre.to_add[j].0).unwrap().offset + pre.to_add[j].1.len()
                    <= out@.len());
            }
            // the old payload region survives at its new place, outside
            // the slots just written
            if pre.file_offset is Some {
                let cur = pre.file_offset.unwrap() as int;
                assert forall|i: int|
                    0 <= i && cur + i < data0.len() && #[trigger] untouched_by_queue(pre, i)
                        implies fo + i < out@.len() && out@[fo + i] == data0[cur + i] by {
                    assert(fo + i < dmoved.len() && dmoved[fo + i] == data0[cur + i]);
                    assert(dhdr[fo + i] == dmoved[fo + i]);
                    assert(payload_pos_untouched(pre, fo as int, fo + i, pre.to_add.len() as int))
                        by {
                        assert forall|j: int| 0 <= j < pre.to_add.len() implies !({
                            let fj = pre.slot_of((#[trigger] pre.to_add[j]).0).unwrap();
                            fo + fj.offset <= fo + i < fo + fj.offset + pre.to_add[j].1.len()
                        }) by {
                            let k = pre.to_add[j].0;
                            lemma_tbl_find_at(pre.to_add, k, j);
                            assert(pre.queued(k) == Some(pre.to_add[j].1));
                        }
                    }
                    assert(out@[fo + i] == dhdr[fo + i]);
                }
            }
        }
        Ok(())
    }

    /// Read a parcel from the backing store: check the magic, find the
    /// header's terminator line, check the format version, decode the
    /// header, and recompute the allocator watermarks.
    #[verifier::rlimit(100)]
    pub fn load(store: &mut ByteStore) -> (r: Result<Parcel, ParcelError>)
        requires
            old(store)@.len() >= 4 ==> old(store)@.subrange(0, 4) == magic_seq(),
        ensures
            final(store)@ == old(store)@,
            old(store)@.len() < 9 || find_term(old(store)@, 4) is None ==> r == Err::<
                Parcel,
                ParcelError,
            >(ParcelError::Codec),
            find_term(old(store)@, 4) matches Some(t) ==> (crate::yaml::yaml_doc(
                old(store)@.subrange(4, t),
            ) is None ==> r == Err::<Parcel, ParcelError>(ParcelError::Codec)),
            find_term(old(store)@, 4) matches Some(t) ==> (crate::yaml::yaml_doc(
                old(store)@.subrange(4, t),
            ) matches Some(m) ==> (match crate::codec::probe_spec(m) {
                Err(e) => r == Err::<Parcel, ParcelError>(e),
                Ok(w) => w != PARCEL_VERSION ==> r == Err::<Parcel, ParcelError>(
                    ParcelError::VersionMismatch { expected: PARCEL_VERSION, found: w },
                ),
            })),
            r matches Ok(p) ==> ({
                let data = old(store)@;
                &&& data.len() >= 9
                &&& data.subrange(0, 4) == magic_seq()
                &&& find_term(data, 4) is Some
                &&& p@.file_offset == Some((find_term(data, 4).unwrap() + 5) as u64)
                &&& crate::yaml::yaml_doc(data.subrange(4, find_term(data, 4).unwrap())) == Some(
                    crate::codec::yheader(
                        p@.version,
                        p@.root_inode,
                        p@.metadata,
                        p@.inodes,
                        p@.content,
                    ),
                )
                &&& p@.version == PARCEL_VERSION
                &&& p@.on_disk
                &&& p@.to_add == Seq::<(u64, Seq<u8>)>::empty()
                &&& p@.wf()
                &&& p@.next_inode >= 1
                &&& tbl_contains(p@.inodes, (p@.next_inode - 1) as u64)
                &&& (p@.next_offset == 0 || exists|i: int|
                    0 <= i < p@.content.len() && match (#[trigger] p@.content[i]).1 {
                        ContentV::File(f) => f.offset + f.capacity == p@.next_offset,
                        _ => false,
                    })
            }),
            forall|ver: u32, root: u64, meta: MetadataV, ins: Seq<(u64, InodeV)>, cts: Seq<
                (u64, ContentV),
            >| #[trigger] load_image(old(store)@, ver, root, meta, ins, cts) ==> r is Ok,
    {
        store.seek(0);
        let all = store.read_to_end();
        let ghost data = old(store)@;
        proof {
            assert(all@ =~= data);
        }
        if all.len() < 9 {
            proof {
                assert forall|
                    ver: u32,
                    root: u64,
                    meta: MetadataV,
                    ins: Seq<(u64, InodeV)>,
                    cts: Seq<(u64, ContentV)>,
                | !#[trigger] load_image(data, ver, root, meta, ins, cts) by {}
            }
            return Err(ParcelError::Codec);
        }
        if !(all[0] == 52 && all[1] == 49 && all[2] == 51 && all[3] == 10) {
            proof {
                assert forall|
                    ver: u32,
                    root: u64,
                    meta: MetadataV,
                    ins: Seq<(u64, InodeV)>,
                    cts: Seq<(u64, ContentV)>,
                | !#[trigger] load_image(data, ver, root, meta, ins, cts) by {
                    if load_image(data, ver, root, meta, ins, cts) {
                        assert(data.subrange(0, 4)[0] == data[0]);
                        assert(data.subrange(0, 4)[1] == data[1]);
                        assert(data.subrange(0, 4)[2] == data[2]);
                        assert(data.subrange(0, 4)[3] == data[3]);
                    }
                }
            }
            return Err(ParcelError::Codec);
        }
        // scan for the first terminator line
        let mut j: usize = 4;
        let mut found = false;
        while !found && j <= all.len() - 5
            invariant
                4 <= j,
                j + 5 <= all@.len() + 5,
                all@ == data,
                data.len() >= 9,
                !found ==> forall|i: int| 4 <= i < j ==> #[trigger] data.subrange(i, i + 5)
                    != crate::yaml::terminator(),
                found ==> j + 5 <= all@.len() && data.subrange(j as int, j + 5)
                    == crate::yaml::terminator() && (forall|i: int|
                    4 <= i < j ==> #[trigger] data.subrange(i, i + 5)
                        != crate::yaml::terminator()),
            decreases all@.len() - j + (if found {
                0int
            } else {
                1int
            }),
        {
            if all[j] == 10 && all[j + 1] == 46 && all[j + 2] == 46 && all[j + 3] == 46 && all[j
                + 4] == 10 {
                proof {
                    assert(data.subrange(j as int, j + 5) =~= crate::yaml::terminator());
                }
                found = true;
            } else {
                proof {
                    assert(data.subrange(j as int, j + 5) != crate::yaml::terminator()) by {
                        let w = data.subrange(j as int, j + 5);
                        assert(w[0] == data[j as int] && w[1] == data[j + 1] && w[2] == data[j + 2]
                            && w[3] == data[j + 3] && w[4] == data[j + 4]);
                        assert(crate::yaml::terminator()[0] == 10u8 && crate::yaml::terminator()[1]
                            == 46u8 && crate::yaml::terminator()[2] == 46u8
                            && crate::yaml::terminator()[3] == 46u8 && crate::yaml::terminator()[4]
                            == 10u8);
                    }
                }
                j += 1;
            }
        }
        if !found {
            proof {
                lemma_find_term_none(data, 4);
                assert forall|
                    ver: u32,
                    root: u64,
                    meta: MetadataV,
                    ins: Seq<(u64, InodeV)>,
                    cts: Seq<(u64, ContentV)>,
                | !#[trigger] load_image(data, ver, root, meta, ins, cts) by {}
            }
            return Err(ParcelError::Codec);
        }
        proof {
            lemma_find_term_at(data, 4, j as int);
        }
        // the header bytes run from the magic to the terminator
        let mut hb: Vec<u8> = Vec::new();
        let mut i: usize = 4;
        while i < j
            invariant
                4 <= i <= j,
                j + 5 <= all@.len(),
                all@ == data,
                hb@ == data.subrange(4, i as int),
            decreases j - i,
        {
            hb.push(all[i]);
            proof {
                assert(hb@ =~= data.subrange(4, i + 1));
            }
            i += 1;
        }
        let ghost hdr_model_opt = crate::yaml::yaml_doc(data.subrange(4, j as int));
        let value = match crate::yaml::yaml_from_bytes(hb.as_slice()) {
            Some(v) => v,
            None => {
                proof {
                    assert forall|
                        ver: u32,
                        root: u64,
                        meta: MetadataV,
                        ins: Seq<(u64, InodeV)>,
                        cts: Seq<(u64, ContentV)>,
                    | !#[trigger] load_image(data, ver, root, meta, ins, cts) by {}
                }
                return Err(ParcelError::Codec);
            },
        };
        let ver = match crate::codec::probe_version(&value) {
            Ok(w) => w,
            Err(e) => {
                proof {
                    assert forall|
                        ver: u32,
                        root: u64,
                        meta: MetadataV,
                        ins: Seq<(u64, InodeV)>,
                        cts: Seq<(u64, ContentV)>,
                    | !#[trigger] load_image(data, ver, root, meta, ins, cts) by {
                        if load_image(data, ver, root, meta, ins, cts) {
                            let m = crate::codec::yheader(ver, root, meta, ins, cts);
                            assert(crate::yaml::yvalue_of(value) == m);
                            crate::codec::lemma_probe_of_header(ver, root, meta, ins, cts);
                        }
                    }
                }
                return Err(e);
            },
        };
        if ver != PARCEL_VERSION {
            proof {
                assert forall|
                    ver2: u32,
                    root: u64,
                    meta: MetadataV,
                    ins: Seq<(u64, InodeV)>,
                    cts: Seq<(u64, ContentV)>,
                | !#[trigger] load_image(data, ver2, root, meta, ins, cts) by {
                    if load_image(data, ver2, root, meta, ins, cts) {
                        let m = crate::codec::yheader(ver2, root, meta, ins, cts);
                        assert(crate::yaml::yvalue_of(value) == m);
                        crate::codec::lemma_probe_of_header(ver2, root, meta, ins, cts);
                    }
                }
            }
            return Err(
                ParcelError::VersionMismatch { expected: PARCEL_VERSION, found: ver },
            );
        }
        let decoded = match crate::codec::decode_header(&value) {
            Some(h) => h,
            None => {
                proof {
                    assert forall|
                        ver2: u32,
                        root: u64,
                        meta: MetadataV,
                        ins: Seq<(u64, InodeV)>,
                        cts: Seq<(u64, ContentV)>,
                    | !#[trigger] load_image(data, ver2, root, meta, ins, cts) by {
                        if load_image(data, ver2, root, meta, ins, cts) {
                            assert(crate::codec::is_header_image(
                                crate::yaml::yvalue_of(value),
                                ver2,
                                root,
                                meta,
                                ins,
                                cts,
                            ));
                        }
                    }
                }
                return Err(ParcelError::Codec);
            },
        };
        let (dver, droot, dmeta, dinodes, dcontent) = decoded;
        let ghost gins = inodes_deep(dinodes@);
        let ghost gcts = content_deep(dcontent@);
        let next_inode = match compute_next_inode(&dinodes) {
            Ok(n) => n,
            Err(e) => {
                proof {
                    lemma_load_image_transfer(data, dver, droot, dmeta@, gins, gcts, crate::yaml::yvalue_of(value));
                }
                return Err(e);
            },
        };
        let next_offset = match compute_next_offset(&dcontent) {
            Ok(w) => w,
            Err(e) => {
                proof {
                    lemma_load_image_transfer(data, dver, droot, dmeta@, gins, gcts, crate::yaml::yvalue_of(value));
                }
                return Err(e);
            },
        };
        if !check_paired(&dinodes, &dcontent) {
            proof {
                lemma_load_image_transfer(data, dver, droot, dmeta@, gins, gcts, crate::yaml::yvalue_of(value));
            }
            return Err(ParcelError::Codec);
        }
        if !check_dirs(&dcontent) {
            proof {
                lemma_load_image_transfer(data, dver, droot, dmeta@, gins, gcts, crate::yaml::yvalue_of(value));
            }
            return Err(ParcelError::Codec);
        }
        if !check_text(&dcontent) {
            proof {
                lemma_load_image_transfer(data, dver, droot, dmeta@, gins, gcts, crate::yaml::yvalue_of(value));
            }
            return Err(ParcelError::Codec);
        }
        if !check_disjoint(&dcontent) {
            proof {
                lemma_load_image_transfer(data, dver, droot, dmeta@, gins, gcts, crate::yaml::yvalue_of(value));
            }
            return Err(ParcelError::Codec);
        }
        let p = Parcel {
            version: dver,
            root_inode: droot,
            metadata: dmeta,
            inodes: dinodes,
            content: dcontent,
            file_offset: Some((j + 5) as u64),
            next_inode,
            next_offset,
            to_add: Vec::new(),
            on_disk: true,
        };
        proof {
            assert(p@.inodes == gins && p@.content == gcts);
            assert(p@.to_add =~= Seq::<(u64, Seq<u8>)>::empty());
            assert(p@.wf()) by {
                assert(p@.queue_wf()) by {
                    assert(p@.to_add.len() == 0);
                }
            }
            assert(tbl_contains(p@.inodes, (next_inode - 1) as u64)) by {
                let wi = choose|i: int|
                    0 <= i < dinodes@.len() && (#[trigger] inodes_deep(dinodes@)[i]).0
                        == next_inode - 1;
                lemma_tbl_key_to_contains(p@.inodes, (next_inode - 1) as u64, wi);
            }
        }
        Ok(p)
    }

    /// Resolve cleaned path components against the directory tree,
    /// starting at `ino`: each component selects the raw entry of that
    /// name, whiteouts included.
    pub open spec fn walk_spec(pv: ParcelV, ino: u64, comps: Seq<Seq<char>>, i: int) -> Option<
        u64,
    >
        decreases comps.len() - i,
    {
        if i < 0 || i >= comps.len() {
            Some(ino)
        } else {
            match pv.content_of(ino) {
                Some(c) => match c {
                    ContentV::Dir(d) => match dir_find(d, comps[i]) {
                        Some(e) => Self::walk_spec(pv, e.child, comps, i + 1),
                        None => None,
                    },
                    _ => None,
                },
                _ => None,
            }
        }
    }

    /// What `select` returns for a path: the walk of its lexically
    /// cleaned components from the root.
    pub open spec fn select_spec(pv: ParcelV, p: Seq<char>) -> Option<u64> {
        Self::walk_spec(pv, pv.root_inode, crate::paths::clean_components(p), 0)
    }

    /// The inode number a path resolves to, after lexical cleaning.
    pub fn select(&self, path: &str) -> (r: Option<u64>)
        requires
            self@.wf(),
        ensures
            r == Self::select_spec(self@, path@),
    {
        let comps = crate::paths::components_of(path);
        let ghost cs = crate::metadata::strs_deep(comps@);
        let mut ino: u64 = self.root_inode;
        let mut i: usize = 0;
        while i < comps.len()
            invariant
                self@.wf(),
                i <= comps@.len(),
                cs == crate::metadata::strs_deep(comps@),
                Self::walk_spec(self@, ino, cs, i as int) == Self::select_spec(self@, path@),
            decreases comps@.len() - i,
        {
            let cp = match tbl_pos(&self.content, ino) {
                Some(c) => c,
                None => {
                    proof {
                        lemma_tbl_find_none(self@.content, ino);
                    }
                    return None;
                },
            };
            proof {
                lemma_tbl_find_at(self@.content, ino, cp as int);
            }
            match &self.content[cp].1 {
                InodeContent::Directory(d) => {
                    let jpos = dir_pos(d, &comps[i]);
                    let ghost dv = dirents_deep(d@);
                    match jpos {
                        Some(j) => {
                            proof {
                                lemma_dir_find_at(dv, cs[i as int], j as int);
                            }
                            ino = d[j].child;
                        },
                        None => {
                            proof {
                                lemma_dir_find_none(dv, cs[i as int]);
                            }
                            return None;
                        },
                    }
                },
                _ => {
                    return None;
                },
            }
            i += 1;
        }
        Some(ino)
    }

    /// The inode number an existing path resolves to, for linking it in
    /// under another name as well.
    pub fn add_hardlink(&mut self, target: &str) -> (r: Result<u64, ParcelError>)
        requires
            old(self)@.wf(),
        ensures
            *final(self) == *old(self),
            r == (match Self::select_spec(old(self)@, target@) {
                Some(ino) => Ok::<u64, ParcelError>(ino),
                None => Err::<u64, ParcelError>(ParcelError::Enoent),
            }),
    {
        match self.select(target) {
            Some(ino) => Ok(ino),
            None => Err(ParcelError::Enoent),
        }
    }

    /// A mutable reference to the parcel's packaging metadata.
    pub fn metadata_mut(&mut self) -> (r: &mut ParcelMetadata)
        ensures
            (*r)@ == old(self)@.metadata,
            final(self)@ == (ParcelV { metadata: final(r)@, ..old(self)@ }),
            old(self)@.wf() ==> final(self)@.wf(),
    {
        &mut self.metadata
    }

    /// The raw directory entry bound to `name`, whiteouts included.
    pub fn dirent_of(&self, parent: u64, name: &str) -> (r: Option<(u64, InodeKind)>)
        requires
            self@.wf(),
        ensures
            r == (match self@.content_of(parent) {
                Some(c) => match c {
                    ContentV::Dir(d) => match dir_find(d, name@) {
                        Some(e) => Some((e.child, e.kind)),
                        None => None,
                    },
                    _ => None,
                },
                _ => None,
            }),
    {
        let cp = match tbl_pos(&self.content, parent) {
            Some(i) => i,
            None => {
                proof {
                    lemma_tbl_find_none(self@.content, parent);
                }
                return None;
            },
        };
        proof {
            lemma_tbl_find_at(self@.content, parent, cp as int);
        }
        match &self.content[cp].1 {
            InodeContent::Directory(d) => {
                let owned = name.to_owned();
                let jpos = dir_pos(d, &owned);
                let ghost dv = dirents_deep(d@);
                match jpos {
                    Some(j) => {
                        proof {
                            lemma_dir_find_at(dv, name@, j as int);
                        }
                        Some((d[j].child, d[j].kind))
                    },
                    None => {
                        proof {
                            lemma_dir_find_none(dv, name@);
                        }
                        None
                    },
                }
            },
            _ => None,
        }
    }

    /// Whether an inode with this number exists.
    pub fn inode_exists(&self, ino: u64) -> (r: bool)
        ensures
            r == (self@.inode_of(ino) is Some),
    {
        let p = tbl_pos(&self.inodes, ino);
        proof {
            match p {
                Some(i) => {
                    lemma_tbl_find_at(self@.inodes, ino, i as int);
                },
                None => {
                    lemma_tbl_find_none(self@.inodes, ino);
                },
            }
        }
        p.is_some()
    }
}

} // verus!
