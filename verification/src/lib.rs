//! Parcel file format for managing pyxis packages.
//!
//! A parcel is a random-access archive holding one directory tree: regular
//! files, directories, symlinks, character devices and whiteout markers,
//! each with POSIX attributes and extended attributes.  The container can be
//! loaded, mutated and flushed back in place; several parcels can be stacked
//! into one overlay view.

use vstd::prelude::*;

/// The in-memory random-access byte store backing a parcel.
mod bytestore;
/// The header codec: the container's fields as one structured-text value.
mod codec;
/// Directory entry lists and their lookup rules.
mod dir;
/// Error codes.
mod error;
/// The handle pairing one container with one backing store.
mod handle;
/// Inodes and utilities for representing items within a parcel.
mod inode;
/// The laws the container obeys, stated and proved once for all callers.
mod laws;
/// Parcel metadata for the package manager.
mod metadata;
/// The overlay engine stacking several parcels into one tree.
mod overlay;
/// The parcel container.
mod parcel;
/// Lexical path cleaning.
mod paths;
/// Association tables keyed by inode number.
mod table;
/// The trusted boundary to the structured-text codec.
mod yaml;

pub use bytestore::{ByteStore, write_result};
pub use codec::{
    ybytes, yconttbl, ydirent, yheader, yinode, yinotbl, ykind, ymeta, ytexts, yxattrs, yattrs,
    ycontent,
};
pub use dir::{dir_find, dir_names_unique, dir_upsert};
pub use error::ParcelError;
pub use handle::ParcelHandle;
pub use inode::{
    dirents_deep, xattrs_deep, ContentV, DirEntry, DirEntryV, FileAttr, FileReference, Inode,
    InodeAttr, InodeContent, InodeKind, InodeV, Timespec, XattrEntry,
};
pub use metadata::{strs_deep, MetadataV, ParcelMetadata};
pub use parcel::{
    blocks_of, content_deep, content_kind, content_size, dir_entries, find_term, getattr_spec,
    header_value, inodes_deep, load_image, loadable, lookup_spec, magic_seq, moved_len,
    queue_deep, queue_extent, read_spec, store_len, store_needed, store_ok, store_target,
    realloc_spec, set_slot, spaces, untouched_by_queue, write_spec, expand_write_spec, FileAdd,
    Parcel, ParcelV,
};
pub use laws::{
    lemma_amortised_growth, lemma_expand_write_read, lemma_growth_compound, lemma_read_after_store,
    lemma_realloc_keeps_content, lemma_store_load_round_trip, lemma_store_output_loads,
    lemma_write_read_after_realloc, slot_after_grow, slot_after_write,
};
pub use overlay::{
    collect_hits, first_hit, fwd_deep, is_opaque, layers_deep, merge_from, opaque_name, pair_find,
    Overlay,
};
pub use paths::{
    canonical, clean_components, components_of, lemma_clean_components_canonical,
    lemma_clean_components_idempotent, lemma_select_of_cleaned, lexically_clean, render,
    render_tail,
};
pub use table::{tbl_contains, tbl_find, tbl_unique};
pub use yaml::{
    all_spaces, depth_limit, no_terminator, terminator, text_safe, yaml_doc, yaml_emit,
    yaml_emits, ymap_entries, yv_ok, yvalue_of, Yv,
};

verus! {

/// The format version this implementation reads and writes.
pub const PARCEL_VERSION: u32 = 1;

/// The attributes given to the root directory of a fresh parcel.
pub fn root_attrs() -> (r: InodeAttr)
    ensures
        r == root_attrs_spec(),
{
    InodeAttr {
        atime: Timespec { sec: 0, nsec: 0 },
        mtime: Timespec { sec: 0, nsec: 0 },
        ctime: Timespec { sec: 0, nsec: 0 },
        perm: 0o755,
        nlink: 1,
        uid: 0,
        gid: 0,
        rdev: 0,
    }
}

/// The attributes of a fresh root directory: epoch times, mode 0o755.
pub open spec fn root_attrs_spec() -> InodeAttr {
    InodeAttr {
        atime: Timespec { sec: 0, nsec: 0 },
        mtime: Timespec { sec: 0, nsec: 0 },
        ctime: Timespec { sec: 0, nsec: 0 },
        perm: 0o755,
        nlink: 1,
        uid: 0,
        gid: 0,
        rdev: 0,
    }
}

} // verus!
