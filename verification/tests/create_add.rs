use pyxis_parcel::{ByteStore, FileAdd, InodeAttr, InodeKind, ParcelHandle};

fn reload(parcel: &ParcelHandle) -> ParcelHandle {
    let bytes = parcel.backing_bytes().expect("no backing store");
    ParcelHandle::load(ByteStore::from_vec(bytes)).expect("reload failed")
}

#[test]
fn empty_serialize() {
    let mut parcel = ParcelHandle::new();
    parcel.set_file(ByteStore::new());
    parcel.store().unwrap();
    // loading the stored bytes yields one root directory inode
    let loaded = reload(&parcel);
    let attr = loaded.getattr(1).unwrap();
    assert_eq!(attr.kind, InodeKind::Directory);
    assert_eq!(attr.ino, 1);
    assert!(loaded.readdir(1).unwrap().is_empty());
    assert!(!loaded.inode_exists(2));
}

#[test]
fn add_file_string() {
    let mut parcel = ParcelHandle::new();
    parcel.set_file(ByteStore::new());
    let ino = parcel
        .add_file(FileAdd::Bytes(b"foo".to_vec()), Default::default(), Vec::new())
        .unwrap();
    assert_eq!(ino, 2);
    parcel.store().unwrap();
    assert_eq!(parcel.read(2, 0, None).unwrap(), b"foo");
    // the payload region holds exactly `foo` at its slot
    let bytes = parcel.backing_bytes().unwrap();
    assert_eq!(&bytes[bytes.len() - 3..], b"foo");
}

#[test]
fn insert_file_dirent() {
    let mut parcel = ParcelHandle::new();
    parcel.set_file(ByteStore::new());
    let add = parcel
        .add_file(FileAdd::Bytes(b"foo".to_vec()), Default::default(), Vec::new())
        .unwrap();
    parcel
        .insert_dirent(1, "foo".to_owned(), add, InodeKind::RegularFile)
        .unwrap();
    parcel.store().unwrap();
    assert_eq!(parcel.lookup(1, "foo"), Some(add));
    assert_eq!(parcel.select("/foo"), Some(add));
    let loaded = reload(&parcel);
    assert_eq!(loaded.lookup(1, "foo"), Some(add));
}

#[test]
fn add_dir() {
    let mut parcel = ParcelHandle::new();
    parcel.set_file(ByteStore::new());
    let ino = parcel.add_directory(Default::default(), Vec::new());
    assert_eq!(ino, 2);
    parcel.store().unwrap();
    let loaded = reload(&parcel);
    assert_eq!(loaded.getattr(2).unwrap().kind, InodeKind::Directory);
}

#[test]
fn add_char() {
    let mut parcel = ParcelHandle::new();
    parcel.set_file(ByteStore::new());
    let mut attrs = InodeAttr::default();
    attrs.rdev = 0x0107;
    let ino = parcel.add_char(attrs, Vec::new());
    parcel.store().unwrap();
    let loaded = reload(&parcel);
    let got = loaded.getattr(ino).unwrap();
    assert_eq!(got.kind, InodeKind::CharDevice);
    assert_eq!(got.rdev, 0x0107);
}

#[test]
fn add_symlink() {
    let mut parcel = ParcelHandle::new();
    parcel.set_file(ByteStore::new());
    let ino = parcel
        .add_symlink("foo".to_owned(), Default::default(), Vec::new())
        .unwrap();
    parcel.store().unwrap();
    let loaded = reload(&parcel);
    assert_eq!(loaded.readlink(ino).unwrap(), b"foo");
    assert_eq!(loaded.getattr(ino).unwrap().kind, InodeKind::Symlink);
    assert_eq!(loaded.getattr(ino).unwrap().size, 3);
}

#[test]
fn add_hardlink() {
    let mut parcel = ParcelHandle::new();
    parcel.set_file(ByteStore::new());
    let add = parcel
        .add_file(FileAdd::Bytes(b"foo".to_vec()), Default::default(), Vec::new())
        .unwrap();
    parcel
        .insert_dirent(1, "foo".to_owned(), add, InodeKind::RegularFile)
        .unwrap();
    let link = parcel.add_hardlink("/foo").unwrap();
    assert_eq!(add, link);
    parcel.store().unwrap();
}

#[test]
fn insert_dir_dirent() {
    let mut parcel = ParcelHandle::new();
    parcel.set_file(ByteStore::new());
    let add = parcel.add_directory(Default::default(), Vec::new());
    parcel
        .insert_dirent(1, "foo".to_owned(), add, InodeKind::Directory)
        .unwrap();
    parcel.store().unwrap();
    let loaded = reload(&parcel);
    assert_eq!(loaded.select("/foo"), Some(add));
    let entries = loaded.readdir(1).unwrap();
    assert_eq!(entries.len(), 1);
    assert_eq!(entries[0], (add, InodeKind::Directory, "foo".to_owned()));
}

#[test]
fn add_multiple_files() {
    let mut parcel = ParcelHandle::new();
    parcel.set_file(ByteStore::new());
    let a = parcel
        .add_file(FileAdd::Bytes(b"foo".to_vec()), Default::default(), Vec::new())
        .unwrap();
    let b = parcel
        .add_file(FileAdd::Bytes(b"bar".to_vec()), Default::default(), Vec::new())
        .unwrap();
    let c = parcel
        .add_file(FileAdd::Bytes(b"baz".to_vec()), Default::default(), Vec::new())
        .unwrap();
    assert_eq!((a, b, c), (2, 3, 4));
    parcel.store().unwrap();
    assert_eq!(parcel.read(2, 0, None).unwrap(), b"foo");
    assert_eq!(parcel.read(3, 0, None).unwrap(), b"bar");
    assert_eq!(parcel.read(4, 0, None).unwrap(), b"baz");
}

#[test]
fn add_reload_add() {
    let mut parcel = ParcelHandle::new();
    parcel.set_file(ByteStore::new());
    parcel
        .add_file(FileAdd::Bytes(b"foo".to_vec()), Default::default(), Vec::new())
        .unwrap();
    parcel.store().unwrap();

    let mut parcel = reload(&parcel);
    assert_eq!(parcel.read(2, 0, None).unwrap(), b"foo");
    parcel
        .add_file(FileAdd::Bytes(b"bar".to_vec()), Default::default(), Vec::new())
        .unwrap();
    parcel.store().unwrap();

    let mut parcel = reload(&parcel);
    assert_eq!(parcel.read(2, 0, None).unwrap(), b"foo");
    assert_eq!(parcel.read(3, 0, None).unwrap(), b"bar");
}

#[test]
fn add_reload_delete() {
    let mut parcel = ParcelHandle::new();
    parcel.set_file(ByteStore::new());
    let add = parcel
        .add_file(FileAdd::Bytes(b"foo".to_vec()), Default::default(), Vec::new())
        .unwrap();
    parcel.store().unwrap();

    let mut parcel = reload(&parcel);
    assert_eq!(parcel.read(2, 0, None).unwrap(), b"foo");
    parcel.delete(add).unwrap();
    parcel.store().unwrap();

    let loaded = reload(&parcel);
    assert!(!loaded.inode_exists(add));
    assert!(loaded.inode_exists(1));
}

#[test]
fn add_empty_file() {
    let mut parcel = ParcelHandle::new();
    parcel.set_file(ByteStore::new());
    let ino = parcel
        .add_file(FileAdd::Empty, Default::default(), Vec::new())
        .unwrap();
    parcel.store().unwrap();
    assert_eq!(parcel.read(ino, 0, None).unwrap(), b"");
    let loaded = reload(&parcel);
    assert_eq!(loaded.getattr(ino).unwrap().size, 0);
}
