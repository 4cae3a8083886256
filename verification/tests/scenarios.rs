use pyxis_parcel::{
    ByteStore, FileAdd, InodeAttr, InodeKind, ParcelError, ParcelHandle, Timespec, XattrEntry,
};

fn reload(parcel: &ParcelHandle) -> ParcelHandle {
    let bytes = parcel.backing_bytes().expect("no backing store");
    ParcelHandle::load(ByteStore::from_vec(bytes)).expect("reload failed")
}

#[test]
fn reload_then_append() {
    let mut parcel = ParcelHandle::new();
    parcel.set_file(ByteStore::new());
    parcel
        .add_file(FileAdd::Bytes(b"foo".to_vec()), Default::default(), Vec::new())
        .unwrap();
    parcel.store().unwrap();

    let mut parcel = reload(&parcel);
    assert_eq!(parcel.read(2, 0, None).unwrap(), b"foo");
    parcel
        .add_file(FileAdd::Bytes(b"bar".to_vec()), Default::default(), Vec::new())
        .unwrap();
    parcel.store().unwrap();

    let mut loaded = reload(&parcel);
    assert_eq!(loaded.read(2, 0, None).unwrap(), b"foo");
    assert_eq!(loaded.read(3, 0, None).unwrap(), b"bar");
    // the next inode handed out after the reload is 4
    let mut third = reload(&parcel);
    let next = third
        .add_file(FileAdd::Bytes(b"x".to_vec()), Default::default(), Vec::new())
        .unwrap();
    assert_eq!(next, 4);
}

#[test]
fn metadata_round_trip() {
    let mut parcel = ParcelHandle::new();
    parcel.set_file(ByteStore::new());
    {
        let meta = parcel.metadata();
        meta.version = "1.2.3".to_owned();
        meta.depends.push("base".to_owned());
        meta.depends.push("extra".to_owned());
    }
    parcel.store().unwrap();
    let mut loaded = reload(&parcel);
    let meta = loaded.metadata();
    assert_eq!(meta.version, "1.2.3");
    assert_eq!(meta.depends, vec!["base".to_owned(), "extra".to_owned()]);
}

#[test]
fn attrs_and_xattrs_round_trip() {
    let mut parcel = ParcelHandle::new();
    parcel.set_file(ByteStore::new());
    let attrs = InodeAttr {
        atime: Timespec { sec: 11, nsec: 12 },
        mtime: Timespec { sec: 13, nsec: 14 },
        ctime: Timespec { sec: 15, nsec: 16 },
        perm: 0o640,
        nlink: 2,
        uid: 1000,
        gid: 100,
        rdev: 0,
    };
    let xattrs = vec![
        XattrEntry { name: b"user.first".to_vec(), value: vec![0, 159, 146, 150] },
        XattrEntry { name: b"user.second".to_vec(), value: b"plain".to_vec() },
    ];
    let ino = parcel
        .add_file(FileAdd::Bytes(b"abc".to_vec()), attrs, xattrs)
        .unwrap();
    parcel.store().unwrap();
    let loaded = reload(&parcel);
    let got = loaded.getattr(ino).unwrap();
    assert_eq!(got.atime, Timespec { sec: 11, nsec: 12 });
    assert_eq!(got.mtime, Timespec { sec: 13, nsec: 14 });
    assert_eq!(got.ctime, Timespec { sec: 15, nsec: 16 });
    assert_eq!(got.crtime, Timespec { sec: 15, nsec: 16 });
    assert_eq!(got.perm, 0o640);
    assert_eq!(got.nlink, 2);
    assert_eq!(got.uid, 1000);
    assert_eq!(got.gid, 100);
    assert_eq!(got.size, 3);
    assert_eq!(got.blksize, 8192);
    assert_eq!(got.blocks, 1);
    assert_eq!(got.kind, InodeKind::RegularFile);
    let back = loaded.getxattrs(ino).unwrap();
    assert_eq!(back.len(), 2);
    assert_eq!(back[0].name, b"user.first");
    assert_eq!(back[0].value, vec![0, 159, 146, 150]);
    assert_eq!(back[1].name, b"user.second");
    assert_eq!(back[1].value, b"plain");
}

#[test]
fn getattr_block_counts() {
    let mut parcel = ParcelHandle::new();
    parcel.set_file(ByteStore::new());
    let empty = parcel
        .add_file(FileAdd::Empty, Default::default(), Vec::new())
        .unwrap();
    let big = parcel
        .add_file(
            FileAdd::Bytes(vec![7u8; 8193]),
            Default::default(),
            Vec::new(),
        )
        .unwrap();
    parcel.store().unwrap();
    assert_eq!(parcel.getattr(empty).unwrap().blocks, 0);
    assert_eq!(parcel.getattr(big).unwrap().blocks, 2);
}

#[test]
fn error_enoent() {
    let mut parcel = ParcelHandle::new();
    parcel.set_file(ByteStore::new());
    parcel.store().unwrap();
    assert_eq!(parcel.delete(9), Err(ParcelError::Enoent));
    assert_eq!(parcel.read(9, 0, None), Err(ParcelError::Enoent));
    assert_eq!(parcel.write(9, 0, b"x"), Err(ParcelError::Enoent));
    assert_eq!(parcel.add_hardlink("/nothing"), Err(ParcelError::Enoent));
}

#[test]
fn error_not_file() {
    let mut parcel = ParcelHandle::new();
    parcel.set_file(ByteStore::new());
    parcel.store().unwrap();
    assert_eq!(parcel.read(1, 0, None), Err(ParcelError::NotFile));
    assert_eq!(parcel.write(1, 0, b"x"), Err(ParcelError::NotFile));
}

#[test]
fn error_version_mismatch() {
    let mut data = b"413\n".to_vec();
    data.extend_from_slice(b"version: 2\n");
    data.extend_from_slice(b"...\n");
    let r = ParcelHandle::load(ByteStore::from_vec(data));
    match r {
        Err(ParcelError::VersionMismatch { expected, found }) => {
            assert_eq!(expected, 1);
            assert_eq!(found, 2);
        },
        other => panic!("unexpected result: {:?}", other.map(|_| ())),
    }
}

#[test]
fn error_no_version() {
    let mut data = b"413\n".to_vec();
    data.extend_from_slice(b"flavour: 2\n");
    data.extend_from_slice(b"...\n");
    assert!(matches!(
        ParcelHandle::load(ByteStore::from_vec(data)),
        Err(ParcelError::NoVersion)
    ));
}

#[test]
fn error_version_type() {
    let mut data = b"413\n".to_vec();
    data.extend_from_slice(b"version: nine\n");
    data.extend_from_slice(b"...\n");
    assert!(matches!(
        ParcelHandle::load(ByteStore::from_vec(data)),
        Err(ParcelError::VersionType)
    ));
}

#[test]
fn error_truncated() {
    let data = b"413\nvers".to_vec();
    assert!(matches!(
        ParcelHandle::load(ByteStore::from_vec(data)),
        Err(ParcelError::Codec)
    ));
}

#[test]
fn set_attrs_updates() {
    let mut parcel = ParcelHandle::new();
    parcel.set_file(ByteStore::new());
    let ino = parcel
        .add_file(FileAdd::Bytes(b"x".to_vec()), Default::default(), Vec::new())
        .unwrap();
    let mut attrs = InodeAttr::default();
    attrs.uid = 42;
    assert!(parcel.set_attrs(ino, attrs));
    parcel.store().unwrap();
    assert_eq!(parcel.getattr(ino).unwrap().uid, 42);
    assert!(!parcel.set_attrs(77, attrs));
}

#[test]
fn whiteout_hidden_from_lookup() {
    let mut parcel = ParcelHandle::new();
    parcel.set_file(ByteStore::new());
    let f = parcel
        .add_file(FileAdd::Bytes(b"x".to_vec()), Default::default(), Vec::new())
        .unwrap();
    parcel
        .insert_dirent(1, "kept".to_owned(), f, InodeKind::RegularFile)
        .unwrap();
    parcel.insert_whiteout(1, "gone".to_owned()).unwrap();
    parcel.store().unwrap();
    // the single-parcel lookup skips whiteout entries
    assert_eq!(parcel.lookup(1, "kept"), Some(f));
    assert_eq!(parcel.lookup(1, "gone"), None);
    // readdir still surfaces them for the overlay to consume
    let entries = parcel.readdir(1).unwrap();
    assert!(entries.contains(&(0, InodeKind::Whiteout, "gone".to_owned())));
    // a reload keeps the whiteout entry
    let loaded = reload(&parcel);
    assert_eq!(loaded.lookup(1, "gone"), None);
    assert!(loaded
        .readdir(1)
        .unwrap()
        .contains(&(0, InodeKind::Whiteout, "gone".to_owned())));
}

#[test]
fn root_has_standard_permissions() {
    let mut parcel = ParcelHandle::new();
    parcel.set_file(ByteStore::new());
    parcel.store().unwrap();
    let loaded = reload(&parcel);
    let root = loaded.getattr(1).unwrap();
    assert_eq!(root.perm, 0o755);
    assert_eq!(root.kind, InodeKind::Directory);
    assert_eq!(root.nlink, 1);
}

#[test]
fn break_characters_rejected_in_names() {
    let mut parcel = ParcelHandle::new();
    parcel.set_file(ByteStore::new());
    let f = parcel
        .add_file(FileAdd::Bytes(b"x".to_vec()), Default::default(), Vec::new())
        .unwrap();
    assert_eq!(
        parcel.insert_dirent(1, "a\nb".to_owned(), f, InodeKind::RegularFile),
        Err(ParcelError::StringConversion)
    );
    assert_eq!(
        parcel.insert_whiteout(1, "a\rb".to_owned()),
        Err(ParcelError::StringConversion)
    );
    assert_eq!(
        parcel
            .add_symlink("over\nthere".to_owned(), Default::default(), Vec::new())
            .map(|_| ()),
        Err(ParcelError::StringConversion)
    );
    // plain names still work, and the parcel still stores
    parcel
        .insert_dirent(1, "ok".to_owned(), f, InodeKind::RegularFile)
        .unwrap();
    parcel.store().unwrap();
    assert_eq!(parcel.read(f, 0, None).unwrap(), b"x");
}

#[test]
fn break_characters_rejected_in_metadata() {
    let mut parcel = ParcelHandle::new();
    parcel.set_file(ByteStore::new());
    parcel.metadata().version = "one\ntwo".to_owned();
    assert_eq!(parcel.store(), Err(ParcelError::StringConversion));
    parcel.metadata().version = "one-two".to_owned();
    parcel.metadata().depends.push("bad\rdep".to_owned());
    assert_eq!(parcel.store(), Err(ParcelError::StringConversion));
    parcel.metadata().depends.clear();
    parcel.metadata().depends.push("good-dep".to_owned());
    parcel.store().unwrap();
}

#[test]
fn delete_drops_queued_payload() {
    let mut parcel = ParcelHandle::new();
    parcel.set_file(ByteStore::new());
    let keep = parcel
        .add_file(FileAdd::Bytes(b"keep".to_vec()), Default::default(), Vec::new())
        .unwrap();
    let gone = parcel
        .add_file(FileAdd::Bytes(b"gone".to_vec()), Default::default(), Vec::new())
        .unwrap();
    // deleting before the store also forgets the queued payload
    parcel.delete(gone).unwrap();
    parcel.store().unwrap();
    assert_eq!(parcel.read(keep, 0, None).unwrap(), b"keep");
    assert!(!parcel.inode_exists(gone));
    let loaded = reload(&parcel);
    assert!(!loaded.inode_exists(gone));
}
