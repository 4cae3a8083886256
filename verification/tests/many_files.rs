use pyxis_parcel::{ByteStore, FileAdd, InodeKind, ParcelHandle};

fn reload(parcel: &ParcelHandle) -> ParcelHandle {
    let bytes = parcel.backing_bytes().expect("no backing store");
    ParcelHandle::load(ByteStore::from_vec(bytes)).expect("reload failed")
}

// A small deterministic generator, so the round trip covers files of
// many lengths and contents without depending on anything outside.
struct Gen(u64);

impl Gen {
    fn next(&mut self) -> u64 {
        self.0 = self.0.wrapping_mul(6364136223846793005).wrapping_add(1442695040888963407);
        self.0 >> 33
    }

    fn bytes(&mut self, n: usize) -> Vec<u8> {
        let mut out = Vec::new();
        for _ in 0..n {
            out.push((self.next() % 256) as u8);
        }
        out
    }
}

#[test]
fn many_file_roundtrip() {
    let mut parcel = ParcelHandle::new();
    parcel.set_file(ByteStore::new());

    let mut gen = Gen(0);
    for i in 0..100u64 {
        let length = (gen.next() % 100) as usize;
        let contents = gen.bytes(length);
        let ino = parcel
            .add_file(FileAdd::Bytes(contents), Default::default(), Vec::new())
            .unwrap();
        assert_eq!(ino, i + 2);
    }

    parcel.store().unwrap();

    let mut parcel = reload(&parcel);
    let mut gen = Gen(0);
    for i in 0..100u64 {
        let length = (gen.next() % 100) as usize;
        let contents = gen.bytes(length);
        let res = parcel.read(i + 2, 0, None).unwrap();
        assert_eq!(contents, res);
    }
}

#[test]
fn tree() {
    let mut parcel = ParcelHandle::new();
    parcel.set_file(ByteStore::new());

    let mut gen = Gen(2);
    let mut to_insert = vec![(1u64, 0u64)];
    let mut count = 0u64;

    while let Some((ino, depth)) = to_insert.pop() {
        let n_children = gen.next() % (8 - depth);
        for _ in 0..n_children {
            let next = parcel.add_directory(Default::default(), Vec::new());
            let name = format!("dir-{}", count);
            count += 1;
            parcel
                .insert_dirent(ino, name, next, InodeKind::Directory)
                .unwrap();
            if depth < 6 {
                to_insert.push((next, depth + 1));
            }
        }
    }

    parcel.store().unwrap();
    let loaded = reload(&parcel);
    // every directory allocated survives the round trip
    for ino in 1..=count {
        assert!(loaded.inode_exists(ino));
    }
}
