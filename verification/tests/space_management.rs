use pyxis_parcel::{ByteStore, FileAdd, ParcelHandle};

fn reload(parcel: &ParcelHandle) -> ParcelHandle {
    let bytes = parcel.backing_bytes().expect("no backing store");
    ParcelHandle::load(ByteStore::from_vec(bytes)).expect("reload failed")
}

#[test]
fn realloc_last() {
    let mut parcel = ParcelHandle::new();
    parcel.set_file(ByteStore::new());
    parcel.store().unwrap();
    let ino = parcel
        .add_file(FileAdd::Bytes(b"foo".to_vec()), Default::default(), Vec::new())
        .unwrap();
    parcel.store().unwrap();
    // the slot sits at the top of the payload region: it grows in place
    parcel.realloc_reserved(ino, 6).unwrap();
    parcel.store().unwrap();
    assert_eq!(parcel.read(ino, 0, None).unwrap(), b"foo");
    let mut loaded = reload(&parcel);
    assert_eq!(loaded.read(ino, 0, None).unwrap(), b"foo");
}

#[test]
fn realloc_first() {
    let mut parcel = ParcelHandle::new();
    parcel.set_file(ByteStore::new());
    parcel.store().unwrap();
    let ino = parcel
        .add_file(FileAdd::Bytes(b"foo".to_vec()), Default::default(), Vec::new())
        .unwrap();
    parcel
        .add_file(FileAdd::Bytes(b"bar".to_vec()), Default::default(), Vec::new())
        .unwrap();
    parcel.store().unwrap();
    // another slot sits above: the file relocates to the watermark
    parcel.realloc_reserved(ino, 6).unwrap();
    parcel.store().unwrap();
    assert_eq!(parcel.read(ino, 0, None).unwrap(), b"foo");
    assert_eq!(parcel.read(ino + 1, 0, None).unwrap(), b"bar");
}

#[test]
fn realloc_middle() {
    let mut parcel = ParcelHandle::new();
    parcel.set_file(ByteStore::new());
    parcel.store().unwrap();
    parcel
        .add_file(FileAdd::Bytes(b"foo".to_vec()), Default::default(), Vec::new())
        .unwrap();
    let ino = parcel
        .add_file(FileAdd::Bytes(b"bar".to_vec()), Default::default(), Vec::new())
        .unwrap();
    parcel
        .add_file(FileAdd::Bytes(b"baz".to_vec()), Default::default(), Vec::new())
        .unwrap();
    parcel.store().unwrap();
    parcel.realloc_reserved(ino, 6).unwrap();
    parcel.store().unwrap();
    assert_eq!(parcel.read(ino - 1, 0, None).unwrap(), b"foo");
    assert_eq!(parcel.read(ino, 0, None).unwrap(), b"bar");
    assert_eq!(parcel.read(ino + 1, 0, None).unwrap(), b"baz");
}

#[test]
fn realloc_create() {
    let mut parcel = ParcelHandle::new();
    parcel.set_file(ByteStore::new());
    parcel.store().unwrap();
    let ino = parcel
        .add_file(FileAdd::Bytes(b"foo".to_vec()), Default::default(), Vec::new())
        .unwrap();
    parcel.store().unwrap();
    parcel.realloc_reserved(ino, 6).unwrap();
    // a file added after the realloc lands above the grown slot
    let other = parcel
        .add_file(FileAdd::Bytes(b"bar".to_vec()), Default::default(), Vec::new())
        .unwrap();
    parcel.store().unwrap();
    assert_eq!(parcel.read(ino, 0, None).unwrap(), b"foo");
    assert_eq!(parcel.read(other, 0, None).unwrap(), b"bar");
}

#[test]
fn realloc_grow_write_read() {
    // grow a stored file, then fill the reserved space
    let mut parcel = ParcelHandle::new();
    parcel.set_file(ByteStore::new());
    let ino = parcel
        .add_file(FileAdd::Bytes(b"foo".to_vec()), Default::default(), Vec::new())
        .unwrap();
    parcel.store().unwrap();
    parcel.realloc_reserved(ino, 6).unwrap();
    parcel.store().unwrap();
    assert_eq!(parcel.read(ino, 0, None).unwrap(), b"foo");
    parcel.write(ino, 3, b"bar").unwrap();
    assert_eq!(parcel.read(ino, 0, None).unwrap(), b"foobar");
}

#[test]
fn realloc_shrink_clamps_size() {
    let mut parcel = ParcelHandle::new();
    parcel.set_file(ByteStore::new());
    let ino = parcel
        .add_file(
            FileAdd::Bytes(b"abcdef".to_vec()),
            Default::default(),
            Vec::new(),
        )
        .unwrap();
    parcel.store().unwrap();
    parcel.realloc_reserved(ino, 2).unwrap();
    assert_eq!(parcel.read(ino, 0, None).unwrap(), b"ab");
    assert_eq!(parcel.getattr(ino).unwrap().size, 2);
}

#[test]
fn store_grows_header_geometrically() {
    // repeated stores that grow the header relocate the payload region
    // only a logarithmic number of times
    let mut parcel = ParcelHandle::new();
    parcel.set_file(ByteStore::new());
    parcel.store().unwrap();
    let mut sizes: Vec<usize> = vec![parcel.backing_bytes().unwrap().len()];
    for i in 0..40u64 {
        let name = format!("file-{}", i);
        let ino = parcel
            .add_file(FileAdd::Bytes(b"x".to_vec()), Default::default(), Vec::new())
            .unwrap();
        parcel
            .insert_dirent(1, name, ino, pyxis_parcel::InodeKind::RegularFile)
            .unwrap();
        parcel.store().unwrap();
        sizes.push(parcel.backing_bytes().unwrap().len());
        assert_eq!(parcel.read(ino, 0, None).unwrap(), b"x");
    }
    // every payload added before any relocation is still readable
    for i in 0..40u64 {
        assert_eq!(parcel.read(2 + i, 0, None).unwrap(), b"x");
    }
}
