use pyxis_parcel::{
    ByteStore, FileAdd, InodeKind, Overlay, ParcelHandle, XattrEntry,
};

fn reload(parcel: &ParcelHandle) -> ParcelHandle {
    let bytes = parcel.backing_bytes().expect("no backing store");
    ParcelHandle::load(ByteStore::from_vec(bytes)).expect("reload failed")
}

fn layer_with(names: &[(&str, &[u8])], dir_xattrs: Vec<XattrEntry>) -> ParcelHandle {
    // a parcel holding /a with the given files under it
    let mut p = ParcelHandle::new();
    p.set_file(ByteStore::new());
    let a = p.add_directory(Default::default(), dir_xattrs);
    p.insert_dirent(1, "a".to_owned(), a, InodeKind::Directory)
        .unwrap();
    for (name, contents) in names {
        let f = p
            .add_file(
                FileAdd::Bytes(contents.to_vec()),
                Default::default(),
                Vec::new(),
            )
            .unwrap();
        p.insert_dirent(a, (*name).to_owned(), f, InodeKind::RegularFile)
            .unwrap();
    }
    p.store().unwrap();
    reload(&p)
}

#[test]
fn overlay_precedence_with_opaque() {
    let opaque = vec![XattrEntry {
        name: b"trusted.overlay.opaque".to_vec(),
        value: b"y".to_vec(),
    }];
    let l0 = layer_with(&[("b", b"from-l0")], opaque);
    let l1 = layer_with(&[("b", b"from-l1"), ("c", b"only-l1")], Vec::new());
    let mut ov = Overlay::new(vec![l0, l1]);

    // list the root first, as a filesystem host would: this records the
    // parent of each entry it hands out
    let root = ov.readdir(1).unwrap();
    assert!(root.iter().any(|e| e.2 == "a"));

    // the name resolves through the top layer
    let a_attr = ov.lookup(1, "a").unwrap();
    assert_eq!(a_attr.kind, InodeKind::Directory);
    let va = a_attr.ino;

    // the opaque directory masks everything below: only L0's entries
    let entries = ov.readdir(va).unwrap();
    let names: Vec<String> = entries.iter().map(|e| e.2.clone()).collect();
    assert_eq!(names, vec![".".to_owned(), "..".to_owned(), "b".to_owned()]);

    // the child maps to L0's file: its bytes come from L0
    let b_attr = ov.lookup(va, "b").unwrap();
    assert_eq!(b_attr.kind, InodeKind::RegularFile);
    assert_eq!(b_attr.size, 7);
    assert_eq!(ov.read(b_attr.ino, 0, None).unwrap(), b"from-l0");
    // the merged listing hid "c"; a direct lookup still walks every
    // layer, as the merge's opaque cut applies to enumeration only
    assert!(!names.contains(&"c".to_owned()));
}

#[test]
fn overlay_merges_lower_layers_without_opaque() {
    let l0 = layer_with(&[("b", b"top")], Vec::new());
    let l1 = layer_with(&[("b", b"low"), ("c", b"low-only")], Vec::new());
    let mut ov = Overlay::new(vec![l0, l1]);
    ov.readdir(1).unwrap();
    let va = ov.lookup(1, "a").unwrap().ino;
    let entries = ov.readdir(va).unwrap();
    let names: Vec<String> = entries.iter().map(|e| e.2.clone()).collect();
    assert_eq!(
        names,
        vec![".".to_owned(), "..".to_owned(), "b".to_owned(), "c".to_owned()]
    );
    // earlier layers win on a shared name
    let b_attr = ov.lookup(va, "b").unwrap();
    assert_eq!(ov.read(b_attr.ino, 0, None).unwrap(), b"top");
    let c_attr = ov.lookup(va, "c").unwrap();
    assert_eq!(ov.read(c_attr.ino, 0, None).unwrap(), b"low-only");
    // ".." points back at the parent
    assert_eq!(entries[1].0, 1);
    assert_eq!(ov.get_parent(va), Some(1));
}

#[test]
fn overlay_whiteout_masks_lower_layer() {
    // the top layer whites out a name the lower layer carries
    let mut top = ParcelHandle::new();
    top.set_file(ByteStore::new());
    top.insert_whiteout(1, "w".to_owned()).unwrap();
    top.store().unwrap();
    let top = reload(&top);

    let mut low = ParcelHandle::new();
    low.set_file(ByteStore::new());
    let f = low
        .add_file(FileAdd::Bytes(b"hidden".to_vec()), Default::default(), Vec::new())
        .unwrap();
    low.insert_dirent(1, "w".to_owned(), f, InodeKind::RegularFile)
        .unwrap();
    low.store().unwrap();
    let low = reload(&low);

    let mut ov = Overlay::new(vec![top, low]);
    // the topmost hit is a whiteout: the name does not exist
    assert!(ov.lookup(1, "w").is_none());
    // and the merged listing omits it
    let entries = ov.readdir(1).unwrap();
    let names: Vec<String> = entries.iter().map(|e| e.2.clone()).collect();
    assert_eq!(names, vec![".".to_owned()]);
}

#[test]
fn overlay_xattrs() {
    let l0 = layer_with(&[], vec![
        XattrEntry { name: b"user.one".to_vec(), value: b"1".to_vec() },
        XattrEntry { name: b"user.two".to_vec(), value: b"2".to_vec() },
    ]);
    let mut ov = Overlay::new(vec![l0]);
    let va = ov.lookup(1, "a").unwrap().ino;
    assert_eq!(ov.getxattr(va, b"user.one").unwrap(), b"1");
    assert_eq!(ov.getxattr(va, b"user.two").unwrap(), b"2");
    assert!(ov.getxattr(va, b"user.three").is_none());
    let listed = ov.listxattr(va).unwrap();
    assert_eq!(listed, b"user.one\0user.two\0".to_vec());
}

#[test]
fn overlay_readlink() {
    let mut p = ParcelHandle::new();
    p.set_file(ByteStore::new());
    let l = p
        .add_symlink("target/elsewhere".to_owned(), Default::default(), Vec::new())
        .unwrap();
    p.insert_dirent(1, "link".to_owned(), l, InodeKind::Symlink)
        .unwrap();
    p.store().unwrap();
    let mut ov = Overlay::new(vec![reload(&p)]);
    let vl = ov.lookup(1, "link").unwrap().ino;
    assert_eq!(ov.readlink(vl).unwrap(), b"target/elsewhere");
}

#[test]
fn lexically_clean_paths() {
    assert_eq!(pyxis_parcel::lexically_clean(""), "/");
    assert_eq!(pyxis_parcel::lexically_clean("/"), "/");
    assert_eq!(pyxis_parcel::lexically_clean("/a/b"), "/a/b");
    assert_eq!(pyxis_parcel::lexically_clean("a/b"), "/a/b");
    assert_eq!(pyxis_parcel::lexically_clean("/a/./b"), "/a/b");
    assert_eq!(pyxis_parcel::lexically_clean("/a//b/"), "/a/b");
    assert_eq!(pyxis_parcel::lexically_clean("/a/b/../c"), "/a/c");
    assert_eq!(pyxis_parcel::lexically_clean("/../a"), "/a");
    assert_eq!(pyxis_parcel::lexically_clean("/a/b/.."), "/a");
}

#[test]
fn select_agrees_with_cleaned_path() {
    let mut p = ParcelHandle::new();
    p.set_file(ByteStore::new());
    let a = p.add_directory(Default::default(), Vec::new());
    p.insert_dirent(1, "a".to_owned(), a, InodeKind::Directory)
        .unwrap();
    let f = p
        .add_file(FileAdd::Bytes(b"x".to_vec()), Default::default(), Vec::new())
        .unwrap();
    p.insert_dirent(a, "f".to_owned(), f, InodeKind::RegularFile)
        .unwrap();
    p.store().unwrap();
    for raw in ["/a/f", "a/f", "/a/./f", "//a//f", "/a/b/../f", "/./a/f/."] {
        let cleaned = pyxis_parcel::lexically_clean(raw);
        assert_eq!(p.select(raw), p.select(cleaned.as_str()), "path {}", raw);
    }
    assert_eq!(p.select("/a/f"), Some(f));
    assert_eq!(p.select("/a"), Some(a));
    assert_eq!(p.select("/"), Some(1));
    assert_eq!(p.select("/missing"), None);
    assert_eq!(p.select("/a/f/deeper"), None);
}
