use pyxis_parcel::{ByteStore, FileAdd, ParcelHandle};

fn reload(parcel: &ParcelHandle) -> ParcelHandle {
    let bytes = parcel.backing_bytes().expect("no backing store");
    ParcelHandle::load(ByteStore::from_vec(bytes)).expect("reload failed")
}

#[test]
fn add_read_flush() {
    let mut parcel = ParcelHandle::new();
    parcel.set_file(ByteStore::new());
    parcel.store().unwrap();
    let ino = parcel
        .add_file(FileAdd::Bytes(b"foo".to_vec()), Default::default(), Vec::new())
        .unwrap();
    parcel.store().unwrap();
    assert_eq!(parcel.read(ino, 0, None).unwrap(), b"foo");
}

#[test]
fn read_after_resize() {
    let mut parcel = ParcelHandle::new();
    parcel.set_file(ByteStore::new());
    parcel.store().unwrap();
    let ino = parcel
        .add_file(FileAdd::Bytes(b"foo".to_vec()), Default::default(), Vec::new())
        .unwrap();
    parcel.store().unwrap();
    assert_eq!(parcel.read(ino, 0, None).unwrap(), b"foo");

    let mut parcel = reload(&parcel);
    parcel
        .add_file(FileAdd::Bytes(b"bar".to_vec()), Default::default(), Vec::new())
        .unwrap();
    parcel.store().unwrap();
    assert_eq!(parcel.read(ino, 0, None).unwrap(), b"foo");
}

#[test]
fn write() {
    let mut parcel = ParcelHandle::new();
    parcel.set_file(ByteStore::new());
    parcel.store().unwrap();
    let ino = parcel
        .add_file(FileAdd::Bytes(b"foo".to_vec()), Default::default(), Vec::new())
        .unwrap();
    parcel.store().unwrap();
    parcel.write(ino, 0, b"bar").unwrap();
    assert_eq!(parcel.read(ino, 0, None).unwrap(), b"bar");
}

#[test]
fn read_windows() {
    let mut parcel = ParcelHandle::new();
    parcel.set_file(ByteStore::new());
    let ino = parcel
        .add_file(
            FileAdd::Bytes(b"abcdef".to_vec()),
            Default::default(),
            Vec::new(),
        )
        .unwrap();
    parcel.store().unwrap();
    assert_eq!(parcel.read(ino, 2, Some(3)).unwrap(), b"cde");
    assert_eq!(parcel.read(ino, 2, None).unwrap(), b"cdef");
    // a window reaching past the end is clamped to the file's size
    assert_eq!(parcel.read(ino, 4, Some(10)).unwrap(), b"ef");
    // an offset past the end clamps to the end: a valid zero-byte read
    assert_eq!(parcel.read(ino, 9, Some(2)).unwrap(), b"");
}

#[test]
fn write_past_capacity_refused() {
    let mut parcel = ParcelHandle::new();
    parcel.set_file(ByteStore::new());
    let ino = parcel
        .add_file(FileAdd::Bytes(b"foo".to_vec()), Default::default(), Vec::new())
        .unwrap();
    parcel.store().unwrap();
    assert_eq!(
        parcel.write(ino, 1, b"long"),
        Err(pyxis_parcel::ParcelError::NeedExpansion)
    );
    // the refused write left the payload alone
    assert_eq!(parcel.read(ino, 0, None).unwrap(), b"foo");
}

#[test]
fn expand_write_grows_file() {
    let mut parcel = ParcelHandle::new();
    parcel.set_file(ByteStore::new());
    let ino = parcel
        .add_file(FileAdd::Bytes(b"foo".to_vec()), Default::default(), Vec::new())
        .unwrap();
    parcel.store().unwrap();
    parcel.expand_write(ino, 3, b"bar").unwrap();
    assert_eq!(parcel.read(ino, 0, None).unwrap(), b"foobar");
    assert_eq!(parcel.read(ino, 3, Some(3)).unwrap(), b"bar");
    // the other direction of the same slot write, at a gap-free offset
    parcel.expand_write(ino, 6, b"!").unwrap();
    assert_eq!(parcel.read(ino, 0, None).unwrap(), b"foobar!");
}
