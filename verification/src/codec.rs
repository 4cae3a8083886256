use vstd::prelude::*;

use crate::error::ParcelError;
use crate::inode::{
    xattrs_deep, ContentV, DirEntry, DirEntryV, FileReference, Inode, InodeAttr, InodeContent,
    InodeKind, InodeV, XattrEntry,
};
use crate::metadata::{MetadataV, ParcelMetadata};
use crate::parcel::{content_deep, inodes_deep};
use crate::table::{tbl_unique};
use crate::yaml::{
    depth_limit, text_safe, yaml_emit, yaml_emits, yaml_to_bytes, ymap_entries, ymap_insert,
    ymap_new, yv_as_map_entries, yv_as_seq, yv_as_str, yv_as_u64, yv_map, yv_ok, yv_seq, yv_str,
    yv_u64, yvalue_of, Yv,
};

verus! {

/// A byte string, as a list of numbers.
pub open spec fn ybytes(b: Seq<u8>) -> Yv {
    Yv::Arr(Seq::new(b.len(), |i: int| Yv::Num(b[i] as u64)))
}

/// A list of text scalars.
pub open spec fn ytexts(ss: Seq<Seq<char>>) -> Seq<Yv> {
    Seq::new(ss.len(), |i: int| Yv::Text(ss[i]))
}

/// An attribute record: the three times, then permissions, link count,
/// owner and device number, as a fixed list of eleven numbers.
pub open spec fn yattrs(a: InodeAttr) -> Yv {
    Yv::Arr(
        seq![
            Yv::Num(a.atime.sec),
            Yv::Num(a.atime.nsec as u64),
            Yv::Num(a.mtime.sec),
            Yv::Num(a.mtime.nsec as u64),
            Yv::Num(a.ctime.sec),
            Yv::Num(a.ctime.nsec as u64),
            Yv::Num(a.perm as u64),
            Yv::Num(a.nlink as u64),
            Yv::Num(a.uid as u64),
            Yv::Num(a.gid as u64),
            Yv::Num(a.rdev),
        ],
    )
}

/// Extended attributes: a list of name/value byte-string pairs.
pub open spec fn yxattrs(xs: Seq<(Seq<u8>, Seq<u8>)>) -> Yv {
    Yv::Arr(Seq::new(xs.len(), |i: int| Yv::Arr(seq![ybytes(xs[i].0), ybytes(xs[i].1)])))
}

/// An inode kind, by name.
pub open spec fn ykind(k: InodeKind) -> Yv {
    match k {
        InodeKind::Directory => Yv::Text("Directory"@),
        InodeKind::RegularFile => Yv::Text("RegularFile"@),
        InodeKind::Symlink => Yv::Text("Symlink"@),
        InodeKind::CharDevice => Yv::Text("CharDevice"@),
        InodeKind::Whiteout => Yv::Text("Whiteout"@),
    }
}

/// An inode record: kind, parent, attributes, extended attributes.
pub open spec fn yinode(nd: InodeV) -> Yv {
    Yv::Arr(seq![ykind(nd.kind), Yv::Num(nd.parent), yattrs(nd.attrs), yxattrs(nd.xattrs)])
}

/// A directory entry: name, child inode, child kind.
pub open spec fn ydirent(e: DirEntryV) -> Yv {
    Yv::Arr(seq![Yv::Text(e.name), Yv::Num(e.child), ykind(e.kind)])
}

/// A content record: its tag followed by the tag's payload.
pub open spec fn ycontent(c: ContentV) -> Yv {
    match c {
        ContentV::Dir(d) => Yv::Arr(
            seq![
                Yv::Text("Directory"@),
                Yv::Arr(Seq::new(d.len(), |i: int| ydirent(d[i]))),
            ],
        ),
        ContentV::File(f) => Yv::Arr(
            seq![
                Yv::Text("RegularFile"@),
                Yv::Arr(seq![Yv::Num(f.offset), Yv::Num(f.size), Yv::Num(f.capacity)]),
            ],
        ),
        ContentV::Link(t) => Yv::Arr(seq![Yv::Text("Symlink"@), Yv::Text(t)]),
        ContentV::Dev(x) => Yv::Arr(seq![Yv::Text("Char"@), Yv::Num(x)]),
        ContentV::White => Yv::Arr(seq![Yv::Text("Whiteout"@)]),
    }
}

/// The packaging metadata: its version string and dependency list.
pub open spec fn ymeta(m: MetadataV) -> Yv {
    Yv::Tab(
        seq![
            (Yv::Text("version"@), Yv::Text(m.version)),
            (Yv::Text("depends"@), Yv::Arr(ytexts(m.depends))),
        ],
    )
}

/// The inode table: a map from inode number to inode record.
pub open spec fn yinotbl(s: Seq<(u64, InodeV)>) -> Yv {
    Yv::Tab(Seq::new(s.len(), |i: int| (Yv::Num(s[i].0), yinode(s[i].1))))
}

/// The content table: a map from inode number to content record.
pub open spec fn yconttbl(s: Seq<(u64, ContentV)>) -> Yv {
    Yv::Tab(Seq::new(s.len(), |i: int| (Yv::Num(s[i].0), ycontent(s[i].1))))
}

/// The whole header: the five top-level fields in fixed order.
pub open spec fn yheader(
    version: u32,
    root_inode: u64,
    meta: MetadataV,
    inodes: Seq<(u64, InodeV)>,
    content: Seq<(u64, ContentV)>,
) -> Yv {
    Yv::Tab(
        seq![
            (Yv::Text("version"@), Yv::Num(version as u64)),
            (Yv::Text("root_inode"@), Yv::Num(root_inode)),
            (Yv::Text("metadata"@), ymeta(meta)),
            (Yv::Text("inodes"@), yinotbl(inodes)),
            (Yv::Text("content"@), yconttbl(content)),
        ],
    )
}

fn enc_bytes(b: &Vec<u8>) -> (r: serde_yaml::Value)
    ensures
        yvalue_of(r) == ybytes(b@),
{
    let mut items: Vec<serde_yaml::Value> = Vec::new();
    let mut i: usize = 0;
    while i < b.len()
        invariant
            i <= b@.len(),
            items@.len() == i,
            forall|j: int| 0 <= j < i ==> yvalue_of(#[trigger] items@[j]) == Yv::Num(b@[j] as u64),
        decreases b@.len() - i,
    {
        items.push(yv_u64(b[i] as u64));
        i += 1;
    }
    let r = yv_seq(items);
    proof {
        assert(yvalue_of(r) matches Yv::Arr(s) && s =~= ybytes(b@)->Arr_0);
        assert(yvalue_of(r) =~~= ybytes(b@));
    }
    r
}

fn enc_texts(ss: &Vec<String>) -> (r: serde_yaml::Value)
    ensures
        yvalue_of(r) == Yv::Arr(ytexts(crate::metadata::strs_deep(ss@))),
{
    let mut items: Vec<serde_yaml::Value> = Vec::new();
    let mut i: usize = 0;
    while i < ss.len()
        invariant
            i <= ss@.len(),
            items@.len() == i,
            forall|j: int| 0 <= j < i ==> yvalue_of(#[trigger] items@[j]) == Yv::Text(ss@[j]@),
        decreases ss@.len() - i,
    {
        items.push(yv_str(ss[i].as_str()));
        i += 1;
    }
    let r = yv_seq(items);
    proof {
        assert(yvalue_of(r) matches Yv::Arr(s) && s =~= ytexts(crate::metadata::strs_deep(ss@)));
        assert(yvalue_of(r) =~~= Yv::Arr(ytexts(crate::metadata::strs_deep(ss@))));
    }
    r
}

fn enc_attrs(a: &InodeAttr) -> (r: serde_yaml::Value)
    ensures
        yvalue_of(r) == yattrs(*a),
{
    let mut items: Vec<serde_yaml::Value> = Vec::new();
    items.push(yv_u64(a.atime.sec));
    items.push(yv_u64(a.atime.nsec as u64));
    items.push(yv_u64(a.mtime.sec));
    items.push(yv_u64(a.mtime.nsec as u64));
    items.push(yv_u64(a.ctime.sec));
    items.push(yv_u64(a.ctime.nsec as u64));
    items.push(yv_u64(a.perm as u64));
    items.push(yv_u64(a.nlink as u64));
    items.push(yv_u64(a.uid as u64));
    items.push(yv_u64(a.gid as u64));
    items.push(yv_u64(a.rdev));
    let r = yv_seq(items);
    proof {
        assert(yvalue_of(r) matches Yv::Arr(s) && s =~= yattrs(*a)->Arr_0);
        assert(yvalue_of(r) =~~= yattrs(*a));
    }
    r
}

fn enc_xattrs(xs: &Vec<XattrEntry>) -> (r: serde_yaml::Value)
    ensures
        yvalue_of(r) == yxattrs(xattrs_deep(xs@)),
{
    let mut items: Vec<serde_yaml::Value> = Vec::new();
    let mut i: usize = 0;
    while i < xs.len()
        invariant
            i <= xs@.len(),
            items@.len() == i,
            forall|j: int|
                0 <= j < i ==> yvalue_of(#[trigger] items@[j]) == Yv::Arr(
                    seq![ybytes(xs@[j]@.0), ybytes(xs@[j]@.1)],
                ),
        decreases xs@.len() - i,
    {
        let mut pair: Vec<serde_yaml::Value> = Vec::new();
        pair.push(enc_bytes(&xs[i].name));
        pair.push(enc_bytes(&xs[i].value));
        let pv = yv_seq(pair);
        proof {
            assert(yvalue_of(pv) matches Yv::Arr(s) && s =~= seq![
                ybytes(xs@[i as int]@.0),
                ybytes(xs@[i as int]@.1),
            ]);
        }
        items.push(pv);
        i += 1;
    }
    let r = yv_seq(items);
    proof {
        assert(yvalue_of(r) matches Yv::Arr(s) && s =~= yxattrs(xattrs_deep(xs@))->Arr_0);
        assert(yvalue_of(r) =~~= yxattrs(xattrs_deep(xs@)));
    }
    r
}

fn enc_kind(k: InodeKind) -> (r: serde_yaml::Value)
    ensures
        yvalue_of(r) == ykind(k),
{
    match k {
        InodeKind::Directory => yv_str("Directory"),
        InodeKind::RegularFile => yv_str("RegularFile"),
        InodeKind::Symlink => yv_str("Symlink"),
        InodeKind::CharDevice => yv_str("CharDevice"),
        InodeKind::Whiteout => yv_str("Whiteout"),
    }
}

fn enc_inode(nd: &Inode) -> (r: serde_yaml::Value)
    ensures
        yvalue_of(r) == yinode(nd@),
{
    let mut items: Vec<serde_yaml::Value> = Vec::new();
    items.push(enc_kind(nd.kind));
    items.push(yv_u64(nd.parent));
    items.push(enc_attrs(&nd.attrs));
    items.push(enc_xattrs(&nd.xattrs));
    let r = yv_seq(items);
    proof {
        assert(yvalue_of(r) matches Yv::Arr(s) && s =~= yinode(nd@)->Arr_0);
        assert(yvalue_of(r) =~~= yinode(nd@));
    }
    r
}

fn enc_dirent(e: &DirEntry) -> (r: serde_yaml::Value)
    ensures
        yvalue_of(r) == ydirent(e@),
{
    let mut items: Vec<serde_yaml::Value> = Vec::new();
    items.push(yv_str(e.name.as_str()));
    items.push(yv_u64(e.child));
    items.push(enc_kind(e.kind));
    let r = yv_seq(items);
    proof {
        assert(yvalue_of(r) matches Yv::Arr(s) && s =~= ydirent(e@)->Arr_0);
        assert(yvalue_of(r) =~~= ydirent(e@));
    }
    r
}

fn enc_content(c: &InodeContent) -> (r: serde_yaml::Value)
    ensures
        yvalue_of(r) == ycontent(c@),
{
    match c {
        InodeContent::Directory(d) => {
            let mut ents: Vec<serde_yaml::Value> = Vec::new();
            let mut i: usize = 0;
            while i < d.len()
                invariant
                    i <= d@.len(),
                    ents@.len() == i,
                    forall|j: int| 0 <= j < i ==> yvalue_of(#[trigger] ents@[j]) == ydirent(
                        d@[j]@,
                    ),
                decreases d@.len() - i,
            {
                ents.push(enc_dirent(&d[i]));
                i += 1;
            }
            let body = yv_seq(ents);
            let mut items: Vec<serde_yaml::Value> = Vec::new();
            items.push(yv_str("Directory"));
            items.push(body);
            let r = yv_seq(items);
            proof {
                assert(yvalue_of(body) matches Yv::Arr(s) && s =~= Seq::new(
                    crate::inode::dirents_deep(d@).len(),
                    |i: int| ydirent(crate::inode::dirents_deep(d@)[i]),
                ));
                assert(yvalue_of(r) matches Yv::Arr(s) && s =~= ycontent(c@)->Arr_0);
                assert(yvalue_of(r) =~~= ycontent(c@));
            }
            r
        },
        InodeContent::RegularFile(f) => {
            let mut nums: Vec<serde_yaml::Value> = Vec::new();
            nums.push(yv_u64(f.offset));
            nums.push(yv_u64(f.size));
            nums.push(yv_u64(f.capacity));
            let body = yv_seq(nums);
            let mut items: Vec<serde_yaml::Value> = Vec::new();
            items.push(yv_str("RegularFile"));
            items.push(body);
            let r = yv_seq(items);
            proof {
                assert(yvalue_of(body) matches Yv::Arr(s) && s =~= seq![
                    Yv::Num(f.offset),
                    Yv::Num(f.size),
                    Yv::Num(f.capacity),
                ]);
                assert(yvalue_of(r) matches Yv::Arr(s) && s =~= ycontent(c@)->Arr_0);
                assert(yvalue_of(r) =~~= ycontent(c@));
            }
            r
        },
        InodeContent::Symlink(t) => {
            let mut items: Vec<serde_yaml::Value> = Vec::new();
            items.push(yv_str("Symlink"));
            items.push(yv_str(t.as_str()));
            let r = yv_seq(items);
            proof {
                assert(yvalue_of(r) matches Yv::Arr(s) && s =~= ycontent(c@)->Arr_0);
                assert(yvalue_of(r) =~~= ycontent(c@));
            }
            r
        },
        InodeContent::Char(x) => {
            let mut items: Vec<serde_yaml::Value> = Vec::new();
            items.push(yv_str("Char"));
            items.push(yv_u64(*x));
            let r = yv_seq(items);
            proof {
                assert(yvalue_of(r) matches Yv::Arr(s) && s =~= ycontent(c@)->Arr_0);
                assert(yvalue_of(r) =~~= ycontent(c@));
            }
            r
        },
        InodeContent::Whiteout => {
            let mut items: Vec<serde_yaml::Value> = Vec::new();
            items.push(yv_str("Whiteout"));
            let r = yv_seq(items);
            proof {
                assert(yvalue_of(r) matches Yv::Arr(s) && s =~= ycontent(c@)->Arr_0);
                assert(yvalue_of(r) =~~= ycontent(c@));
            }
            r
        },
    }
}

fn enc_meta(m: &ParcelMetadata) -> (r: serde_yaml::Value)
    ensures
        yvalue_of(r) == ymeta(m@),
{
    proof {
        reveal_strlit("version");
        reveal_strlit("depends");
        assert("version"@[0] == 'v');
        assert("depends"@[0] == 'd');
    }
    let mut map = ymap_new();
    ymap_insert(&mut map, yv_str("version"), yv_str(m.version.as_str()));
    ymap_insert(&mut map, yv_str("depends"), enc_texts(&m.depends));
    let r = yv_map(map);
    proof {
        assert(yvalue_of(r) matches Yv::Tab(s) && s =~= ymeta(m@)->Tab_0);
        assert(yvalue_of(r) =~~= ymeta(m@));
    }
    r
}

fn enc_inodes(tbl: &Vec<(u64, Inode)>) -> (r: serde_yaml::Value)
    requires
        tbl_unique(inodes_deep(tbl@)),
    ensures
        yvalue_of(r) == yinotbl(inodes_deep(tbl@)),
{
    let ghost dv = inodes_deep(tbl@);
    let mut map = ymap_new();
    let mut i: usize = 0;
    while i < tbl.len()
        invariant
            i <= tbl@.len(),
            dv == inodes_deep(tbl@),
            tbl_unique(dv),
            ymap_entries(map) =~= Seq::new(i as nat, |j: int| (Yv::Num(dv[j].0), yinode(dv[j].1))),
        decreases tbl@.len() - i,
    {
        let kv = yv_u64(tbl[i].0);
        proof {
            assert forall|j: int|
                0 <= j < ymap_entries(map).len() implies ymap_entries(map)[j].0 != yvalue_of(
                kv,
            ) by {
                assert(dv[j].0 != dv[i as int].0);
            }
        }
        ymap_insert(&mut map, kv, enc_inode(&tbl[i].1));
        proof {
            assert(ymap_entries(map) =~= Seq::new(
                (i + 1) as nat,
                |j: int| (Yv::Num(dv[j].0), yinode(dv[j].1)),
            ));
        }
        i += 1;
    }
    let r = yv_map(map);
    proof {
        assert(yvalue_of(r) matches Yv::Tab(s) && s =~= yinotbl(dv)->Tab_0);
        assert(yvalue_of(r) =~~= yinotbl(dv));
    }
    r
}

fn enc_contents(tbl: &Vec<(u64, InodeContent)>) -> (r: serde_yaml::Value)
    requires
        tbl_unique(content_deep(tbl@)),
    ensures
        yvalue_of(r) == yconttbl(content_deep(tbl@)),
{
    let ghost dv = content_deep(tbl@);
    let mut map = ymap_new();
    let mut i: usize = 0;
    while i < tbl.len()
        invariant
            i <= tbl@.len(),
            dv == content_deep(tbl@),
            tbl_unique(dv),
            ymap_entries(map) =~= Seq::new(
                i as nat,
                |j: int| (Yv::Num(dv[j].0), ycontent(dv[j].1)),
            ),
        decreases tbl@.len() - i,
    {
        let kv = yv_u64(tbl[i].0);
        proof {
            assert forall|j: int|
                0 <= j < ymap_entries(map).len() implies ymap_entries(map)[j].0 != yvalue_of(
                kv,
            ) by {
                assert(dv[j].0 != dv[i as int].0);
            }
        }
        ymap_insert(&mut map, kv, enc_content(&tbl[i].1));
        proof {
            assert(ymap_entries(map) =~= Seq::new(
                (i + 1) as nat,
                |j: int| (Yv::Num(dv[j].0), ycontent(dv[j].1)),
            ));
        }
        i += 1;
    }
    let r = yv_map(map);
    proof {
        assert(yvalue_of(r) matches Yv::Tab(s) && s =~= yconttbl(dv)->Tab_0);
        assert(yvalue_of(r) =~~= yconttbl(dv));
    }
    r
}

fn dec_bytes(v: &serde_yaml::Value) -> (r: Option<Vec<u8>>)
    ensures
        match r {
            Some(b) => yvalue_of(*v) == ybytes(b@),
            None => forall|b: Seq<u8>| yvalue_of(*v) != #[trigger] ybytes(b),
        },
{
    let items = match yv_as_seq(v) {
        Some(it) => it,
        None => {
            return None;
        },
    };
    let ghost s = Seq::new(items@.len(), |i: int| yvalue_of(items@[i]));
    let mut out: Vec<u8> = Vec::new();
    let mut i: usize = 0;
    while i < items.len()
        invariant
            i <= items@.len(),
            out@.len() == i,
            s == Seq::new(items@.len(), |k: int| yvalue_of(items@[k])),
            yvalue_of(*v) == Yv::Arr(s),
            forall|j: int| 0 <= j < i ==> s[j] == Yv::Num(out@[j] as u64),
        decreases items@.len() - i,
    {
        let x = match yv_as_u64(&items[i]) {
            Some(x) => Some(x),
            None => None,
        };
        match x {
            Some(x) => if x <= 255 {
                out.push(x as u8);
            } else {
                proof {
                    assert forall|b: Seq<u8>| yvalue_of(*v) != #[trigger] ybytes(b) by {
                        if yvalue_of(*v) == ybytes(b) {
                            assert(s == ybytes(b)->Arr_0);
                            assert(ybytes(b)->Arr_0[i as int] == Yv::Num(b[i as int] as u64));
                            assert(b[i as int] as u64 <= 255);
                        }
                    }
                }
                return None;
            },
            None => {
                proof {
                    assert forall|b: Seq<u8>| yvalue_of(*v) != #[trigger] ybytes(b) by {
                        if yvalue_of(*v) == ybytes(b) {
                            assert(s == ybytes(b)->Arr_0);
                            assert(ybytes(b)->Arr_0[i as int] == Yv::Num(b[i as int] as u64));
                        }
                    }
                }
                return None;
            },
        }
        i += 1;
    }
    proof {
        assert(ybytes(out@)->Arr_0 =~= s);
        assert(yvalue_of(*v) == ybytes(out@));
    }
    Some(out)
}

fn dec_texts(v: &serde_yaml::Value) -> (r: Option<Vec<String>>)
    ensures
        match r {
            Some(ss) => yvalue_of(*v) == Yv::Arr(ytexts(crate::metadata::strs_deep(ss@))),
            None => forall|t: Seq<Seq<char>>| yvalue_of(*v) != Yv::Arr(#[trigger] ytexts(t)),
        },
{
    let items = match yv_as_seq(v) {
        Some(it) => it,
        None => {
            return None;
        },
    };
    let ghost s = Seq::new(items@.len(), |i: int| yvalue_of(items@[i]));
    let mut out: Vec<String> = Vec::new();
    let mut i: usize = 0;
    while i < items.len()
        invariant
            i <= items@.len(),
            out@.len() == i,
            s == Seq::new(items@.len(), |k: int| yvalue_of(items@[k])),
            yvalue_of(*v) == Yv::Arr(s),
            forall|j: int| 0 <= j < i ==> s[j] == Yv::Text(out@[j]@),
        decreases items@.len() - i,
    {
        let t = match yv_as_str(&items[i]) {
            Some(t) => t,
            None => {
                proof {
                    assert forall|t2: Seq<Seq<char>>|
                        yvalue_of(*v) != Yv::Arr(#[trigger] ytexts(t2)) by {
                        if yvalue_of(*v) == Yv::Arr(ytexts(t2)) {
                            assert(s == ytexts(t2));
                            assert(ytexts(t2)[i as int] == Yv::Text(t2[i as int]));
                        }
                    }
                }
                return None;
            },
        };
        out.push(t);
        i += 1;
    }
    proof {
        assert(ytexts(crate::metadata::strs_deep(out@)) =~= s);
        assert(yvalue_of(*v) == Yv::Arr(ytexts(crate::metadata::strs_deep(out@))));
    }
    Some(out)
}

fn dec_kind(v: &serde_yaml::Value) -> (r: Option<InodeKind>)
    ensures
        match r {
            Some(k) => yvalue_of(*v) == ykind(k),
            None => forall|k: InodeKind| yvalue_of(*v) != #[trigger] ykind(k),
        },
{
    let s = match yv_as_str(v) {
        Some(s) => s,
        None => {
            return None;
        },
    };
    if s == "Directory".to_owned() {
        Some(InodeKind::Directory)
    } else if s == "RegularFile".to_owned() {
        Some(InodeKind::RegularFile)
    } else if s == "Symlink".to_owned() {
        Some(InodeKind::Symlink)
    } else if s == "CharDevice".to_owned() {
        Some(InodeKind::CharDevice)
    } else if s == "Whiteout".to_owned() {
        Some(InodeKind::Whiteout)
    } else {
        None
    }
}

fn dec_u32(v: &serde_yaml::Value) -> (r: Option<u32>)
    ensures
        match r {
            Some(x) => yvalue_of(*v) == Yv::Num(x as u64),
            None => forall|x: u32| yvalue_of(*v) != Yv::Num(#[trigger] (x as u64)),
        },
{
    match yv_as_u64(v) {
        Some(x) => if x <= u32::MAX as u64 {
            Some(x as u32)
        } else {
            None
        },
        None => None,
    }
}

fn dec_attrs(v: &serde_yaml::Value) -> (r: Option<InodeAttr>)
    ensures
        match r {
            Some(a) => yvalue_of(*v) == yattrs(a),
            None => forall|a: InodeAttr| yvalue_of(*v) != #[trigger] yattrs(a),
        },
{
    let items = match yv_as_seq(v) {
        Some(it) => it,
        None => {
            return None;
        },
    };
    let ghost s = Seq::new(items@.len(), |i: int| yvalue_of(items@[i]));
    if items.len() != 11 {
        proof {
            assert forall|a: InodeAttr| yvalue_of(*v) != #[trigger] yattrs(a) by {
                if yvalue_of(*v) == yattrs(a) {
                    assert(s == yattrs(a)->Arr_0);
                }
            }
        }
        return None;
    }
    let n0 = yv_as_u64(&items[0]);
    let g1 = dec_u32(&items[1]);
    let n2 = yv_as_u64(&items[2]);
    let g3 = dec_u32(&items[3]);
    let n4 = yv_as_u64(&items[4]);
    let g5 = dec_u32(&items[5]);
    let g6 = dec_u32(&items[6]);
    let g7 = dec_u32(&items[7]);
    let g8 = dec_u32(&items[8]);
    let g9 = dec_u32(&items[9]);
    let n10 = yv_as_u64(&items[10]);
    match (n0, g1, n2, g3, n4, g5, g6, g7, g8, g9, n10) {
        (
            Some(atime_sec),
            Some(atime_nsec),
            Some(mtime_sec),
            Some(mtime_nsec),
            Some(ctime_sec),
            Some(ctime_nsec),
            Some(perm),
            Some(nlink),
            Some(uid),
            Some(gid),
            Some(rdev),
        ) => {
            let a = InodeAttr {
                atime: crate::inode::Timespec { sec: atime_sec, nsec: atime_nsec },
                mtime: crate::inode::Timespec { sec: mtime_sec, nsec: mtime_nsec },
                ctime: crate::inode::Timespec { sec: ctime_sec, nsec: ctime_nsec },
                perm,
                nlink,
                uid,
                gid,
                rdev,
            };
            proof {
                assert(yattrs(a)->Arr_0 =~= s);
                assert(yvalue_of(*v) == yattrs(a));
            }
            Some(a)
        },
        _ => {
            proof {
                assert forall|a: InodeAttr| yvalue_of(*v) != #[trigger] yattrs(a) by {
                    if yvalue_of(*v) == yattrs(a) {
                        assert(s == yattrs(a)->Arr_0);
                        assert(s[0] == Yv::Num(a.atime.sec));
                        assert(s[1] == Yv::Num(a.atime.nsec as u64));
                        assert(s[2] == Yv::Num(a.mtime.sec));
                        assert(s[3] == Yv::Num(a.mtime.nsec as u64));
                        assert(s[4] == Yv::Num(a.ctime.sec));
                        assert(s[5] == Yv::Num(a.ctime.nsec as u64));
                        assert(s[6] == Yv::Num(a.perm as u64));
                        assert(s[7] == Yv::Num(a.nlink as u64));
                        assert(s[8] == Yv::Num(a.uid as u64));
                        assert(s[9] == Yv::Num(a.gid as u64));
                        assert(s[10] == Yv::Num(a.rdev));
                    }
                }
            }
            None
        },
    }
}

fn dec_xattrs(v: &serde_yaml::Value) -> (r: Option<Vec<XattrEntry>>)
    ensures
        match r {
            Some(xs) => yvalue_of(*v) == yxattrs(xattrs_deep(xs@)),
            None => forall|x: Seq<(Seq<u8>, Seq<u8>)>| yvalue_of(*v) != #[trigger] yxattrs(x),
        },
{
    let items = match yv_as_seq(v) {
        Some(it) => it,
        None => {
            return None;
        },
    };
    let ghost s = Seq::new(items@.len(), |i: int| yvalue_of(items@[i]));
    let mut out: Vec<XattrEntry> = Vec::new();
    let mut i: usize = 0;
    while i < items.len()
        invariant
            i <= items@.len(),
            out@.len() == i,
            s == Seq::new(items@.len(), |k: int| yvalue_of(items@[k])),
            yvalue_of(*v) == Yv::Arr(s),
            forall|j: int|
                0 <= j < i ==> s[j] == Yv::Arr(seq![ybytes(out@[j]@.0), ybytes(out@[j]@.1)]),
        decreases items@.len() - i,
    {
        let pair = match yv_as_seq(&items[i]) {
            Some(p) => p,
            None => {
                proof {
                    assert forall|x: Seq<(Seq<u8>, Seq<u8>)>|
                        yvalue_of(*v) != #[trigger] yxattrs(x) by {
                        if yvalue_of(*v) == yxattrs(x) {
                            assert(s == yxattrs(x)->Arr_0);
                            assert(s.len() == items@.len());
                            assert(yxattrs(x)->Arr_0.len() == x.len());
                            assert(s[i as int] == yvalue_of(items@[i as int]));
                            assert(yxattrs(x)->Arr_0[i as int] == Yv::Arr(
                                seq![ybytes(x[i as int].0), ybytes(x[i as int].1)],
                            ));
                        }
                    }
                }
                return None;
            },
        };
        let ghost ps = Seq::new(pair@.len(), |k: int| yvalue_of(pair@[k]));
        if pair.len() != 2 {
            proof {
                assert forall|x: Seq<(Seq<u8>, Seq<u8>)>|
                    yvalue_of(*v) != #[trigger] yxattrs(x) by {
                    if yvalue_of(*v) == yxattrs(x) {
                        assert(s == yxattrs(x)->Arr_0);
                        assert(s[i as int] == yvalue_of(items@[i as int]));
                        assert(yxattrs(x)->Arr_0[i as int] == Yv::Arr(
                            seq![ybytes(x[i as int].0), ybytes(x[i as int].1)],
                        ));
                        assert(ps == seq![ybytes(x[i as int].0), ybytes(x[i as int].1)]);
                    }
                }
            }
            return None;
        }
        let name = dec_bytes(&pair[0]);
        let value = dec_bytes(&pair[1]);
        match (name, value) {
            (Some(name), Some(value)) => {
                proof {
                    assert(ps[0] == ybytes(name@));
                    assert(ps[1] == ybytes(value@));
                    assert(ps =~= seq![ybytes(name@), ybytes(value@)]);
                    assert(s[i as int] == yvalue_of(items@[i as int]));
                }
                out.push(XattrEntry { name, value });
            },
            _ => {
                proof {
                    assert forall|x: Seq<(Seq<u8>, Seq<u8>)>|
                        yvalue_of(*v) != #[trigger] yxattrs(x) by {
                        if yvalue_of(*v) == yxattrs(x) {
                            assert(s == yxattrs(x)->Arr_0);
                            assert(s[i as int] == yvalue_of(items@[i as int]));
                            assert(yxattrs(x)->Arr_0[i as int] == Yv::Arr(
                                seq![ybytes(x[i as int].0), ybytes(x[i as int].1)],
                            ));
                            assert(ps == seq![ybytes(x[i as int].0), ybytes(x[i as int].1)]);
                            assert(ps[0] == ybytes(x[i as int].0));
                            assert(ps[1] == ybytes(x[i as int].1));
                        }
                    }
                }
                return None;
            },
        }
        i += 1;
    }
    proof {
        assert(yxattrs(xattrs_deep(out@))->Arr_0 =~= s);
        assert(yvalue_of(*v) == yxattrs(xattrs_deep(out@)));
    }
    Some(out)
}

fn dec_dirent(v: &serde_yaml::Value) -> (r: Option<DirEntry>)
    ensures
        match r {
            Some(e) => yvalue_of(*v) == ydirent(e@),
            None => forall|e: DirEntryV| yvalue_of(*v) != #[trigger] ydirent(e),
        },
{
    let items = match yv_as_seq(v) {
        Some(it) => it,
        None => {
            return None;
        },
    };
    let ghost s = Seq::new(items@.len(), |i: int| yvalue_of(items@[i]));
    if items.len() != 3 {
        proof {
            assert forall|e: DirEntryV| yvalue_of(*v) != #[trigger] ydirent(e) by {
                if yvalue_of(*v) == ydirent(e) {
                    assert(s == ydirent(e)->Arr_0);
                }
            }
        }
        return None;
    }
    let name = yv_as_str(&items[0]);
    let child = yv_as_u64(&items[1]);
    let kind = dec_kind(&items[2]);
    match (name, child, kind) {
        (Some(name), Some(child), Some(kind)) => {
            let e = DirEntry { name, child, kind };
            proof {
                assert(ydirent(e@)->Arr_0 =~= s);
                assert(yvalue_of(*v) == ydirent(e@));
            }
            Some(e)
        },
        _ => {
            proof {
                assert forall|e: DirEntryV| yvalue_of(*v) != #[trigger] ydirent(e) by {
                    if yvalue_of(*v) == ydirent(e) {
                        assert(s == ydirent(e)->Arr_0);
                        assert(s[0] == Yv::Text(e.name));
                        assert(s[1] == Yv::Num(e.child));
                        assert(s[2] == ykind(e.kind));
                    }
                }
            }
            None
        },
    }
}

fn dec_content(v: &serde_yaml::Value) -> (r: Option<InodeContent>)
    ensures
        match r {
            Some(c) => yvalue_of(*v) == ycontent(c@),
            None => forall|c: ContentV| yvalue_of(*v) != #[trigger] ycontent(c),
        },
{
    let items = match yv_as_seq(v) {
        Some(it) => it,
        None => {
            return None;
        },
    };
    let ghost s = Seq::new(items@.len(), |i: int| yvalue_of(items@[i]));
    if items.len() == 0 {
        proof {
            assert forall|c: ContentV| yvalue_of(*v) != #[trigger] ycontent(c) by {
                if yvalue_of(*v) == ycontent(c) {
                    assert(s == ycontent(c)->Arr_0);
                }
            }
        }
        return None;
    }
    let tag = match yv_as_str(&items[0]) {
        Some(t) => t,
        None => {
            proof {
                assert forall|c: ContentV| yvalue_of(*v) != #[trigger] ycontent(c) by {
                    if yvalue_of(*v) == ycontent(c) {
                        assert(s == ycontent(c)->Arr_0);
                        assert(s[0] is Text);
                    }
                }
            }
            return None;
        },
    };
    proof {
        reveal_strlit("Directory");
        reveal_strlit("RegularFile");
        reveal_strlit("Symlink");
        reveal_strlit("Char");
        reveal_strlit("Whiteout");
        assert("Directory"@.len() == 9);
        assert("RegularFile"@.len() == 11);
        assert("Symlink"@.len() == 7);
        assert("Char"@.len() == 4);
        assert("Whiteout"@.len() == 8);
        assert(s[0] == yvalue_of(items@[0]));
    }
    if tag == "Directory".to_owned() {
        if items.len() != 2 {
            proof {
                assert forall|c: ContentV| yvalue_of(*v) != #[trigger] ycontent(c) by {
                    if yvalue_of(*v) == ycontent(c) {
                        assert(s == ycontent(c)->Arr_0);
                        match c {
                            ContentV::Dir(_) => {
                                assert(s[0] == Yv::Text("Directory"@));
                            },
                            ContentV::File(_) => {
                                assert(s[0] == Yv::Text("RegularFile"@));
                            },
                            ContentV::Link(_) => {
                                assert(s[0] == Yv::Text("Symlink"@));
                            },
                            ContentV::Dev(_) => {
                                assert(s[0] == Yv::Text("Char"@));
                            },
                            ContentV::White => {
                                assert(s[0] == Yv::Text("Whiteout"@));
                            },
                        }
                    }
                }
            }
            return None;
        }
        let ents = match yv_as_seq(&items[1]) {
            Some(b) => b,
            None => {
                proof {
                    assert forall|c: ContentV| yvalue_of(*v) != #[trigger] ycontent(c) by {
                        if yvalue_of(*v) == ycontent(c) {
                            assert(s == ycontent(c)->Arr_0);
                            match c {
                                ContentV::Dir(_) => {
                                    assert(s[0] == Yv::Text("Directory"@));
                                },
                                ContentV::File(_) => {
                                    assert(s[0] == Yv::Text("RegularFile"@));
                                },
                                ContentV::Link(_) => {
                                    assert(s[0] == Yv::Text("Symlink"@));
                                },
                                ContentV::Dev(_) => {
                                    assert(s[0] == Yv::Text("Char"@));
                                },
                                ContentV::White => {
                                    assert(s[0] == Yv::Text("Whiteout"@));
                                },
                            }
                        }
                    }
                }
                return None;
            },
        };
        let ghost es = Seq::new(ents@.len(), |k: int| yvalue_of(ents@[k]));
        proof {
            assert(s[0] == yvalue_of(items@[0]));
            assert(s[0] == Yv::Text("Directory"@));
        }
        let mut out: Vec<DirEntry> = Vec::new();
        let mut i: usize = 0;
        while i < ents.len()
            invariant
                i <= ents@.len(),
                out@.len() == i,
                es == Seq::new(ents@.len(), |k: int| yvalue_of(ents@[k])),
                items@.len() == 2,
                s == Seq::new(items@.len(), |k: int| yvalue_of(items@[k])),
                yvalue_of(*v) == Yv::Arr(s),
                yvalue_of(items@[1]) == Yv::Arr(es),
                s[0] == Yv::Text("Directory"@),
                forall|j: int| 0 <= j < i ==> es[j] == ydirent(out@[j]@),
            decreases ents@.len() - i,
        {
            match dec_dirent(&ents[i]) {
                Some(e) => {
                    out.push(e);
                },
                None => {
                    proof {
                        reveal_strlit("Directory");
                        reveal_strlit("RegularFile");
                        reveal_strlit("Symlink");
                        reveal_strlit("Char");
                        reveal_strlit("Whiteout");
                        assert("Directory"@.len() == 9);
                        assert("RegularFile"@.len() == 11);
                        assert("Symlink"@.len() == 7);
                        assert("Char"@.len() == 4);
                        assert("Whiteout"@.len() == 8);
                        assert forall|c: ContentV| yvalue_of(*v) != #[trigger] ycontent(c) by {
                            if yvalue_of(*v) == ycontent(c) {
                                assert(s == ycontent(c)->Arr_0);
                                assert(es[i as int] == yvalue_of(ents@[i as int]));
                                match c {
                                    ContentV::Dir(d) => {
                                        assert(s[1] == yvalue_of(items@[1]));
                                        assert(s[1] == Yv::Arr(
                                            Seq::new(d.len(), |k: int| ydirent(d[k])),
                                        ));
                                        assert(es == Seq::new(d.len(), |k: int| ydirent(d[k])));
                                        assert(es.len() == ents@.len());
                                        assert(es.len() == d.len());
                                        assert(es[i as int] == ydirent(d[i as int]));
                                    },
                                    _ => {
                                        assert(s[0] == Yv::Text("Directory"@));
                                        match c {
                                            ContentV::File(_) => {
                                                assert(s[0] == Yv::Text("RegularFile"@));
                                            },
                                            ContentV::Link(_) => {
                                                assert(s[0] == Yv::Text("Symlink"@));
                                            },
                                            ContentV::Dev(_) => {
                                                assert(s[0] == Yv::Text("Char"@));
                                            },
                                            ContentV::White => {
                                                assert(s[0] == Yv::Text("Whiteout"@));
                                            },
                                            _ => {},
                                        }
                                    },
                                }
                            }
                        }
                    }
                    return None;
                },
            }
            i += 1;
        }
        let c = InodeContent::Directory(out);
        proof {
            assert(es =~= Seq::new(
                crate::inode::dirents_deep(out@).len(),
                |k: int| ydirent(crate::inode::dirents_deep(out@)[k]),
            ));
            assert(ycontent(c@)->Arr_0 =~= s);
            assert(yvalue_of(*v) == ycontent(c@));
        }
        return Some(c);
    }
    if tag == "RegularFile".to_owned() {
        if items.len() != 2 {
            proof {
                assert forall|c: ContentV| yvalue_of(*v) != #[trigger] ycontent(c) by {
                    if yvalue_of(*v) == ycontent(c) {
                        assert(s == ycontent(c)->Arr_0);
                        match c {
                            ContentV::Dir(_) => {
                                assert(s[0] == Yv::Text("Directory"@));
                            },
                            ContentV::File(_) => {
                                assert(s[0] == Yv::Text("RegularFile"@));
                            },
                            ContentV::Link(_) => {
                                assert(s[0] == Yv::Text("Symlink"@));
                            },
                            ContentV::Dev(_) => {
                                assert(s[0] == Yv::Text("Char"@));
                            },
                            ContentV::White => {
                                assert(s[0] == Yv::Text("Whiteout"@));
                            },
                        }
                    }
                }
            }
            return None;
        }
        let nums = match yv_as_seq(&items[1]) {
            Some(b) => b,
            None => {
                proof {
                    assert forall|c: ContentV| yvalue_of(*v) != #[trigger] ycontent(c) by {
                        if yvalue_of(*v) == ycontent(c) {
                            assert(s == ycontent(c)->Arr_0);
                            match c {
                                ContentV::Dir(_) => {
                                    assert(s[0] == Yv::Text("Directory"@));
                                },
                                ContentV::File(_) => {
                                    assert(s[0] == Yv::Text("RegularFile"@));
                                },
                                ContentV::Link(_) => {
                                    assert(s[0] == Yv::Text("Symlink"@));
                                },
                                ContentV::Dev(_) => {
                                    assert(s[0] == Yv::Text("Char"@));
                                },
                                ContentV::White => {
                                    assert(s[0] == Yv::Text("Whiteout"@));
                                },
                            }
                        }
                    }
                }
                return None;
            },
        };
        let ghost ns = Seq::new(nums@.len(), |k: int| yvalue_of(nums@[k]));
        if nums.len() != 3 {
            proof {
                assert forall|c: ContentV| yvalue_of(*v) != #[trigger] ycontent(c) by {
                    if yvalue_of(*v) == ycontent(c) {
                        assert(s == ycontent(c)->Arr_0);
                        match c {
                            ContentV::File(f) => {
                                assert(ns == seq![
                                    Yv::Num(f.offset),
                                    Yv::Num(f.size),
                                    Yv::Num(f.capacity),
                                ]);
                            },
                            _ => {},
                        }
                    }
                }
            }
            return None;
        }
        let o = yv_as_u64(&nums[0]);
        let z = yv_as_u64(&nums[1]);
        let cap = yv_as_u64(&nums[2]);
        match (o, z, cap) {
            (Some(offset), Some(size), Some(capacity)) => {
                let c = InodeContent::RegularFile(FileReference { offset, size, capacity });
                proof {
                    assert(ns =~= seq![Yv::Num(offset), Yv::Num(size), Yv::Num(capacity)]);
                    assert(ycontent(c@)->Arr_0 =~= s);
                    assert(yvalue_of(*v) == ycontent(c@));
                }
                return Some(c);
            },
            _ => {
                proof {
                    assert forall|c: ContentV| yvalue_of(*v) != #[trigger] ycontent(c) by {
                        if yvalue_of(*v) == ycontent(c) {
                            assert(s == ycontent(c)->Arr_0);
                            match c {
                                ContentV::File(f) => {
                                    assert(ns == seq![
                                        Yv::Num(f.offset),
                                        Yv::Num(f.size),
                                        Yv::Num(f.capacity),
                                    ]);
                                    assert(ns[0] == Yv::Num(f.offset));
                                    assert(ns[1] == Yv::Num(f.size));
                                    assert(ns[2] == Yv::Num(f.capacity));
                                },
                                _ => {},
                            }
                        }
                    }
                }
                return None;
            },
        }
    }
    if tag == "Symlink".to_owned() {
        if items.len() != 2 {
            proof {
                assert forall|c: ContentV| yvalue_of(*v) != #[trigger] ycontent(c) by {
                    if yvalue_of(*v) == ycontent(c) {
                        assert(s == ycontent(c)->Arr_0);
                        match c {
                            ContentV::Dir(_) => {
                                assert(s[0] == Yv::Text("Directory"@));
                            },
                            ContentV::File(_) => {
                                assert(s[0] == Yv::Text("RegularFile"@));
                            },
                            ContentV::Link(_) => {
                                assert(s[0] == Yv::Text("Symlink"@));
                            },
                            ContentV::Dev(_) => {
                                assert(s[0] == Yv::Text("Char"@));
                            },
                            ContentV::White => {
                                assert(s[0] == Yv::Text("Whiteout"@));
                            },
                        }
                    }
                }
            }
            return None;
        }
        match yv_as_str(&items[1]) {
            Some(t) => {
                let c = InodeContent::Symlink(t);
                proof {
                    assert(ycontent(c@)->Arr_0 =~= s);
                    assert(yvalue_of(*v) == ycontent(c@));
                }
                return Some(c);
            },
            None => {
                proof {
                    assert forall|c: ContentV| yvalue_of(*v) != #[trigger] ycontent(c) by {
                        if yvalue_of(*v) == ycontent(c) {
                            assert(s == ycontent(c)->Arr_0);
                            match c {
                                ContentV::Dir(_) => {
                                    assert(s[0] == Yv::Text("Directory"@));
                                },
                                ContentV::File(_) => {
                                    assert(s[0] == Yv::Text("RegularFile"@));
                                },
                                ContentV::Link(_) => {
                                    assert(s[0] == Yv::Text("Symlink"@));
                                },
                                ContentV::Dev(_) => {
                                    assert(s[0] == Yv::Text("Char"@));
                                },
                                ContentV::White => {
                                    assert(s[0] == Yv::Text("Whiteout"@));
                                },
                            }
                        }
                    }
                }
                return None;
            },
        }
    }
    if tag == "Char".to_owned() {
        if items.len() != 2 {
            proof {
                assert forall|c: ContentV| yvalue_of(*v) != #[trigger] ycontent(c) by {
                    if yvalue_of(*v) == ycontent(c) {
                        assert(s == ycontent(c)->Arr_0);
                        match c {
                            ContentV::Dir(_) => {
                                assert(s[0] == Yv::Text("Directory"@));
                            },
                            ContentV::File(_) => {
                                assert(s[0] == Yv::Text("RegularFile"@));
                            },
                            ContentV::Link(_) => {
                                assert(s[0] == Yv::Text("Symlink"@));
                            },
                            ContentV::Dev(_) => {
                                assert(s[0] == Yv::Text("Char"@));
                            },
                            ContentV::White => {
                                assert(s[0] == Yv::Text("Whiteout"@));
                            },
                        }
                    }
                }
            }
            return None;
        }
        match yv_as_u64(&items[1]) {
            Some(x) => {
                let c = InodeContent::Char(x);
                proof {
                    assert(ycontent(c@)->Arr_0 =~= s);
                    assert(yvalue_of(*v) == ycontent(c@));
                }
                return Some(c);
            },
            None => {
                proof {
                    assert forall|c: ContentV| yvalue_of(*v) != #[trigger] ycontent(c) by {
                        if yvalue_of(*v) == ycontent(c) {
                            assert(s == ycontent(c)->Arr_0);
                            match c {
                                ContentV::Dir(_) => {
                                    assert(s[0] == Yv::Text("Directory"@));
                                },
                                ContentV::File(_) => {
                                    assert(s[0] == Yv::Text("RegularFile"@));
                                },
                                ContentV::Link(_) => {
                                    assert(s[0] == Yv::Text("Symlink"@));
                                },
                                ContentV::Dev(_) => {
                                    assert(s[0] == Yv::Text("Char"@));
                                },
                                ContentV::White => {
                                    assert(s[0] == Yv::Text("Whiteout"@));
                                },
                            }
                        }
                    }
                }
                return None;
            },
        }
    }
    if tag == "Whiteout".to_owned() {
        if items.len() != 1 {
            proof {
                assert forall|c: ContentV| yvalue_of(*v) != #[trigger] ycontent(c) by {
                    if yvalue_of(*v) == ycontent(c) {
                        assert(s == ycontent(c)->Arr_0);
                        match c {
                            ContentV::Dir(_) => {
                                assert(s[0] == Yv::Text("Directory"@));
                            },
                            ContentV::File(_) => {
                                assert(s[0] == Yv::Text("RegularFile"@));
                            },
                            ContentV::Link(_) => {
                                assert(s[0] == Yv::Text("Symlink"@));
                            },
                            ContentV::Dev(_) => {
                                assert(s[0] == Yv::Text("Char"@));
                            },
                            ContentV::White => {
                                assert(s[0] == Yv::Text("Whiteout"@));
                            },
                        }
                    }
                }
            }
            return None;
        }
        let c = InodeContent::Whiteout;
        proof {
            assert(ycontent(c@)->Arr_0 =~= s);
            assert(yvalue_of(*v) == ycontent(c@));
        }
        return Some(c);
    }
    proof {
        assert forall|c: ContentV| yvalue_of(*v) != #[trigger] ycontent(c) by {
            if yvalue_of(*v) == ycontent(c) {
                assert(s == ycontent(c)->Arr_0);
            }
        }
    }
    None
}

fn dec_meta(v: &serde_yaml::Value) -> (r: Option<ParcelMetadata>)
    ensures
        match r {
            Some(m) => yvalue_of(*v) == ymeta(m@),
            None => forall|mv: MetadataV| yvalue_of(*v) != #[trigger] ymeta(mv),
        },
{
    let entries = match yv_as_map_entries(v) {
        Some(es) => es,
        None => {
            return None;
        },
    };
    let ghost es = Seq::new(
        entries@.len(),
        |i: int| (yvalue_of(entries@[i].0), yvalue_of(entries@[i].1)),
    );
    if entries.len() != 2 {
        proof {
            assert forall|mv: MetadataV| yvalue_of(*v) != #[trigger] ymeta(mv) by {
                if yvalue_of(*v) == ymeta(mv) {
                    assert(es == ymeta(mv)->Tab_0);
                }
            }
        }
        return None;
    }
    let k0 = yv_as_str(&entries[0].0);
    let w0 = yv_as_str(&entries[0].1);
    let k1 = yv_as_str(&entries[1].0);
    let w1 = dec_texts(&entries[1].1);
    match (k0, w0, k1, w1) {
        (Some(k0), Some(version), Some(k1), Some(depends)) => {
            if k0 == "version".to_owned() && k1 == "depends".to_owned() {
                let m = ParcelMetadata { version, depends };
                proof {
                    assert(ymeta(m@)->Tab_0 =~= es);
                    assert(yvalue_of(*v) == ymeta(m@));
                }
                Some(m)
            } else {
                proof {
                    assert forall|mv: MetadataV| yvalue_of(*v) != #[trigger] ymeta(mv) by {
                        if yvalue_of(*v) == ymeta(mv) {
                            assert(es == ymeta(mv)->Tab_0);
                            assert(es[0].0 == Yv::Text("version"@));
                            assert(es[1].0 == Yv::Text("depends"@));
                        }
                    }
                }
                None
            }
        },
        _ => {
            proof {
                assert forall|mv: MetadataV| yvalue_of(*v) != #[trigger] ymeta(mv) by {
                    if yvalue_of(*v) == ymeta(mv) {
                        assert(es == ymeta(mv)->Tab_0);
                        assert(es[0].0 == Yv::Text("version"@));
                        assert(es[0].1 == Yv::Text(mv.version));
                        assert(es[1].0 == Yv::Text("depends"@));
                        assert(es[1].1 == Yv::Arr(ytexts(mv.depends)));
                    }
                }
            }
            None
        },
    }
}

fn dec_inode(v: &serde_yaml::Value) -> (r: Option<Inode>)
    ensures
        match r {
            Some(nd) => yvalue_of(*v) == yinode(nd@),
            None => forall|nd: InodeV| yvalue_of(*v) != #[trigger] yinode(nd),
        },
{
    let items = match yv_as_seq(v) {
        Some(it) => it,
        None => {
            return None;
        },
    };
    let ghost s = Seq::new(items@.len(), |i: int| yvalue_of(items@[i]));
    if items.len() != 4 {
        proof {
            assert forall|nd: InodeV| yvalue_of(*v) != #[trigger] yinode(nd) by {
                if yvalue_of(*v) == yinode(nd) {
                    assert(s == yinode(nd)->Arr_0);
                }
            }
        }
        return None;
    }
    let kind = dec_kind(&items[0]);
    let parent = yv_as_u64(&items[1]);
    let attrs = dec_attrs(&items[2]);
    let xattrs = dec_xattrs(&items[3]);
    match (kind, parent, attrs, xattrs) {
        (Some(kind), Some(parent), Some(attrs), Some(xattrs)) => {
            let nd = Inode { kind, parent, attrs, xattrs };
            proof {
                assert(yinode(nd@)->Arr_0 =~= s);
                assert(yvalue_of(*v) == yinode(nd@));
            }
            Some(nd)
        },
        _ => {
            proof {
                assert forall|nd: InodeV| yvalue_of(*v) != #[trigger] yinode(nd) by {
                    if yvalue_of(*v) == yinode(nd) {
                        assert(s == yinode(nd)->Arr_0);
                        assert(s[0] == ykind(nd.kind));
                        assert(s[1] == Yv::Num(nd.parent));
                        assert(s[2] == yattrs(nd.attrs));
                        assert(s[3] == yxattrs(nd.xattrs));
                    }
                }
            }
            None
        },
    }
}

fn dec_inotbl(v: &serde_yaml::Value) -> (r: Option<Vec<(u64, Inode)>>)
    ensures
        match r {
            Some(t) => yvalue_of(*v) == yinotbl(inodes_deep(t@)) && tbl_unique(inodes_deep(t@)),
            None => forall|s2: Seq<(u64, InodeV)>|
                tbl_unique(s2) ==> yvalue_of(*v) != #[trigger] yinotbl(s2),
        },
{
    let entries = match yv_as_map_entries(v) {
        Some(es) => es,
        None => {
            return None;
        },
    };
    let ghost es = Seq::new(
        entries@.len(),
        |i: int| (yvalue_of(entries@[i].0), yvalue_of(entries@[i].1)),
    );
    let mut out: Vec<(u64, Inode)> = Vec::new();
    let mut i: usize = 0;
    while i < entries.len()
        invariant
            i <= entries@.len(),
            out@.len() == i,
            es == Seq::new(
                entries@.len(),
                |k: int| (yvalue_of(entries@[k].0), yvalue_of(entries@[k].1)),
            ),
            yvalue_of(*v) == Yv::Tab(es),
            forall|j: int|
                0 <= j < i ==> #[trigger] es[j] == (
                    Yv::Num(inodes_deep(out@)[j].0),
                    yinode(inodes_deep(out@)[j].1),
                ),
            tbl_unique(inodes_deep(out@)),
        decreases entries@.len() - i,
    {
        let key = yv_as_u64(&entries[i].0);
        let val = dec_inode(&entries[i].1);
        match (key, val) {
            (Some(key), Some(nd)) => {
                match crate::table::tbl_pos(&out, key) {
                    Some(dup_pos) => {
                        proof {
                            assert forall|s2: Seq<(u64, InodeV)>|
                                tbl_unique(s2) implies yvalue_of(*v) != #[trigger] yinotbl(
                                s2,
                            ) by {
                                if yvalue_of(*v) == yinotbl(s2) {
                                    assert(es == yinotbl(s2)->Tab_0);
                                    assert(es.len() == entries@.len());
                                    assert(yinotbl(s2)->Tab_0.len() == s2.len());
                                    assert forall|j: int|
                                        0 <= j <= i implies (#[trigger] s2[j]).0 == (
                                        if j < i {
                                            inodes_deep(out@)[j].0
                                        } else {
                                            key
                                        }) by {
                                        assert(yinotbl(s2)->Tab_0[j] == (
                                            Yv::Num(s2[j].0),
                                            yinode(s2[j].1),
                                        ));
                                        assert(es[j] == (Yv::Num(s2[j].0), yinode(s2[j].1)));
                                    }
                                    let dup = dup_pos as int;
                                    assert(inodes_deep(out@)[dup].0 == key);
                                    assert(s2[dup].0 == key);
                                    assert(s2[i as int].0 == key);
                                }
                            }
                        }
                        return None;
                    },
                    None => {
                        proof {
                            assert forall|a: int, b: int|
                                0 <= a < b < out@.len() + 1 implies (#[trigger] inodes_deep(
                                out@.push((key, nd)),
                            )[a]).0 != (#[trigger] inodes_deep(out@.push((key, nd)))[b]).0 by {
                                if b < out@.len() {
                                    assert(inodes_deep(out@.push((key, nd)))[a]
                                        == inodes_deep(out@)[a]);
                                    assert(inodes_deep(out@.push((key, nd)))[b]
                                        == inodes_deep(out@)[b]);
                                } else {
                                    assert(inodes_deep(out@.push((key, nd)))[a]
                                        == inodes_deep(out@)[a]);
                                    assert(inodes_deep(out@.push((key, nd)))[b].0 == key);
                                }
                            }
                        }
                        out.push((key, nd));
                    },
                }
            },
            _ => {
                proof {
                    assert forall|s2: Seq<(u64, InodeV)>|
                        tbl_unique(s2) implies yvalue_of(*v) != #[trigger] yinotbl(s2) by {
                        if yvalue_of(*v) == yinotbl(s2) {
                            assert(es == yinotbl(s2)->Tab_0);
                            assert(es.len() == entries@.len());
                            assert(yinotbl(s2)->Tab_0.len() == s2.len());
                            assert(yinotbl(s2)->Tab_0[i as int] == (
                                Yv::Num(s2[i as int].0),
                                yinode(s2[i as int].1),
                            ));
                            assert(es[i as int] == (
                                Yv::Num(s2[i as int].0),
                                yinode(s2[i as int].1),
                            ));
                        }
                    }
                }
                return None;
            },
        }
        i += 1;
    }
    proof {
        assert(yinotbl(inodes_deep(out@))->Tab_0 =~= es);
        assert(yvalue_of(*v) == yinotbl(inodes_deep(out@)));
    }
    Some(out)
}

fn dec_conttbl(v: &serde_yaml::Value) -> (r: Option<Vec<(u64, InodeContent)>>)
    ensures
        match r {
            Some(t) => yvalue_of(*v) == yconttbl(content_deep(t@)) && tbl_unique(
                content_deep(t@),
            ),
            None => forall|s2: Seq<(u64, ContentV)>|
                tbl_unique(s2) ==> yvalue_of(*v) != #[trigger] yconttbl(s2),
        },
{
    let entries = match yv_as_map_entries(v) {
        Some(es) => es,
        None => {
            return None;
        },
    };
    let ghost es = Seq::new(
        entries@.len(),
        |i: int| (yvalue_of(entries@[i].0), yvalue_of(entries@[i].1)),
    );
    let mut out: Vec<(u64, InodeContent)> = Vec::new();
    let mut i: usize = 0;
    while i < entries.len()
        invariant
            i <= entries@.len(),
            out@.len() == i,
            es == Seq::new(
                entries@.len(),
                |k: int| (yvalue_of(entries@[k].0), yvalue_of(entries@[k].1)),
            ),
            yvalue_of(*v) == Yv::Tab(es),
            forall|j: int|
                0 <= j < i ==> #[trigger] es[j] == (
                    Yv::Num(content_deep(out@)[j].0),
                    ycontent(content_deep(out@)[j].1),
                ),
            tbl_unique(content_deep(out@)),
        decreases entries@.len() - i,
    {
        let key = yv_as_u64(&entries[i].0);
        let val = dec_content(&entries[i].1);
        match (key, val) {
            (Some(key), Some(c)) => {
                match crate::table::tbl_pos(&out, key) {
                    Some(dup_pos) => {
                        proof {
                            assert forall|s2: Seq<(u64, ContentV)>|
                                tbl_unique(s2) implies yvalue_of(*v) != #[trigger] yconttbl(
                                s2,
                            ) by {
                                if yvalue_of(*v) == yconttbl(s2) {
                                    assert(es == yconttbl(s2)->Tab_0);
                                    assert(es.len() == entries@.len());
                                    assert(yconttbl(s2)->Tab_0.len() == s2.len());
                                    assert forall|j: int|
                                        0 <= j <= i implies (#[trigger] s2[j]).0 == (
                                        if j < i {
                                            content_deep(out@)[j].0
                                        } else {
                                            key
                                        }) by {
                                        assert(yconttbl(s2)->Tab_0[j] == (
                                            Yv::Num(s2[j].0),
                                            ycontent(s2[j].1),
                                        ));
                                        assert(es[j] == (Yv::Num(s2[j].0), ycontent(s2[j].1)));
                                    }
                                    let dup = dup_pos as int;
                                    assert(content_deep(out@)[dup].0 == key);
                                    assert(s2[dup].0 == key);
                                    assert(s2[i as int].0 == key);
                                }
                            }
                        }
                        return None;
                    },
                    None => {
                        proof {
                            assert forall|a: int, b: int|
                                0 <= a < b < out@.len() + 1 implies (#[trigger] content_deep(
                                out@.push((key, c)),
                            )[a]).0 != (#[trigger] content_deep(out@.push((key, c)))[b]).0 by {
                                if b < out@.len() {
                                    assert(content_deep(out@.push((key, c)))[a]
                                        == content_deep(out@)[a]);
                                    assert(content_deep(out@.push((key, c)))[b]
                                        == content_deep(out@)[b]);
                                } else {
                                    assert(content_deep(out@.push((key, c)))[a]
                                        == content_deep(out@)[a]);
                                    assert(content_deep(out@.push((key, c)))[b].0 == key);
                                }
                            }
                        }
                        out.push((key, c));
                    },
                }
            },
            _ => {
                proof {
                    assert forall|s2: Seq<(u64, ContentV)>|
                        tbl_unique(s2) implies yvalue_of(*v) != #[trigger] yconttbl(s2) by {
                        if yvalue_of(*v) == yconttbl(s2) {
                            assert(es == yconttbl(s2)->Tab_0);
                            assert(es.len() == entries@.len());
                            assert(yconttbl(s2)->Tab_0.len() == s2.len());
                            assert(yconttbl(s2)->Tab_0[i as int] == (
                                Yv::Num(s2[i as int].0),
                                ycontent(s2[i as int].1),
                            ));
                            assert(es[i as int] == (
                                Yv::Num(s2[i as int].0),
                                ycontent(s2[i as int].1),
                            ));
                        }
                    }
                }
                return None;
            },
        }
        i += 1;
    }
    proof {
        assert(yconttbl(content_deep(out@))->Tab_0 =~= es);
        assert(yvalue_of(*v) == yconttbl(content_deep(out@)));
    }
    Some(out)
}

/// Whether a value could be the image of a well-formed header with
/// distinct table keys.
pub open spec fn is_header_image(
    v: Yv,
    ver: u32,
    root: u64,
    meta: MetadataV,
    ins: Seq<(u64, InodeV)>,
    cts: Seq<(u64, ContentV)>,
) -> bool {
    v == yheader(ver, root, meta, ins, cts) && tbl_unique(ins) && tbl_unique(cts)
}

/// Parse a whole header value back into the container's logical fields.
pub(crate) fn decode_header(v: &serde_yaml::Value) -> (r: Option<
    (u32, u64, ParcelMetadata, Vec<(u64, Inode)>, Vec<(u64, InodeContent)>),
>)
    ensures
        match r {
            Some(h) => yvalue_of(*v) == yheader(
                h.0,
                h.1,
                h.2@,
                inodes_deep(h.3@),
                content_deep(h.4@),
            ) && tbl_unique(inodes_deep(h.3@)) && tbl_unique(content_deep(h.4@)),
            None => forall|ver: u32, root: u64, meta: MetadataV, ins: Seq<(u64, InodeV)>, cts: Seq<
                (u64, ContentV),
            >| !#[trigger] is_header_image(yvalue_of(*v), ver, root, meta, ins, cts),
        },
{
    proof {
        reveal_strlit("version");
        reveal_strlit("root_inode");
        reveal_strlit("metadata");
        reveal_strlit("inodes");
        reveal_strlit("content");
    }
    let entries = match yv_as_map_entries(v) {
        Some(es) => es,
        None => {
            return None;
        },
    };
    let ghost es = Seq::new(
        entries@.len(),
        |i: int| (yvalue_of(entries@[i].0), yvalue_of(entries@[i].1)),
    );
    if entries.len() != 5 {
        proof {
            assert forall|ver: u32, root: u64, meta: MetadataV, ins: Seq<(u64, InodeV)>, cts: Seq<
                (u64, ContentV),
            >| !#[trigger] is_header_image(yvalue_of(*v), ver, root, meta, ins, cts) by {
                if yvalue_of(*v) == yheader(ver, root, meta, ins, cts) {
                    assert(es == yheader(ver, root, meta, ins, cts)->Tab_0);
                }
            }
        }
        return None;
    }
    let k0 = yv_as_str(&entries[0].0);
    let k1 = yv_as_str(&entries[1].0);
    let k2 = yv_as_str(&entries[2].0);
    let k3 = yv_as_str(&entries[3].0);
    let k4 = yv_as_str(&entries[4].0);
    let keys_ok = match (&k0, &k1, &k2, &k3, &k4) {
        (Some(k0), Some(k1), Some(k2), Some(k3), Some(k4)) => *k0 == "version".to_owned() && *k1
            == "root_inode".to_owned() && *k2 == "metadata".to_owned() && *k3
            == "inodes".to_owned() && *k4 == "content".to_owned(),
        _ => false,
    };
    if !keys_ok {
        proof {
            assert forall|ver: u32, root: u64, meta: MetadataV, ins: Seq<(u64, InodeV)>, cts: Seq<
                (u64, ContentV),
            >| !#[trigger] is_header_image(yvalue_of(*v), ver, root, meta, ins, cts) by {
                if yvalue_of(*v) == yheader(ver, root, meta, ins, cts) {
                    assert(es == yheader(ver, root, meta, ins, cts)->Tab_0);
                    assert(es[0].0 == Yv::Text("version"@));
                    assert(es[1].0 == Yv::Text("root_inode"@));
                    assert(es[2].0 == Yv::Text("metadata"@));
                    assert(es[3].0 == Yv::Text("inodes"@));
                    assert(es[4].0 == Yv::Text("content"@));
                }
            }
        }
        return None;
    }
    let wv = yv_as_u64(&entries[0].1);
    let root = yv_as_u64(&entries[1].1);
    let meta = dec_meta(&entries[2].1);
    let ins = dec_inotbl(&entries[3].1);
    let cts = dec_conttbl(&entries[4].1);
    match (wv, root, meta, ins, cts) {
        (Some(wv), Some(root), Some(meta), Some(ins), Some(cts)) => {
            if wv > u32::MAX as u64 {
                proof {
                    assert forall|
                        ver: u32,
                        root2: u64,
                        meta2: MetadataV,
                        ins2: Seq<(u64, InodeV)>,
                        cts2: Seq<(u64, ContentV)>,
                    | !#[trigger] is_header_image(yvalue_of(*v), ver, root2, meta2, ins2, cts2) by {
                        if yvalue_of(*v) == yheader(ver, root2, meta2, ins2, cts2) {
                            assert(es == yheader(ver, root2, meta2, ins2, cts2)->Tab_0);
                            assert(es[0].1 == Yv::Num(ver as u64));
                        }
                    }
                }
                return None;
            }
            proof {
                assert(yheader(
                    wv as u32,
                    root,
                    meta@,
                    inodes_deep(ins@),
                    content_deep(cts@),
                )->Tab_0 =~= es);
                assert(yvalue_of(*v) == yheader(
                    wv as u32,
                    root,
                    meta@,
                    inodes_deep(ins@),
                    content_deep(cts@),
                ));
            }
            Some((wv as u32, root, meta, ins, cts))
        },
        _ => {
            proof {
                assert forall|
                    ver: u32,
                    root2: u64,
                    meta2: MetadataV,
                    ins2: Seq<(u64, InodeV)>,
                    cts2: Seq<(u64, ContentV)>,
                | !#[trigger] is_header_image(yvalue_of(*v), ver, root2, meta2, ins2, cts2) by {
                    if yvalue_of(*v) == yheader(ver, root2, meta2, ins2, cts2) {
                        assert(es == yheader(ver, root2, meta2, ins2, cts2)->Tab_0);
                        assert(es[0].1 == Yv::Num(ver as u64));
                        assert(es[1].1 == Yv::Num(root2));
                        assert(es[2].1 == ymeta(meta2));
                        assert(es[3].1 == yinotbl(ins2));
                        assert(es[4].1 == yconttbl(cts2));
                    }
                }
            }
            None
        },
    }
}

/// Two kinds with the same name are the same kind.
pub proof fn lemma_ykind_inj(a: InodeKind, b: InodeKind)
    requires
        ykind(a) == ykind(b),
    ensures
        a == b,
{
    reveal_strlit("Directory");
    reveal_strlit("RegularFile");
    reveal_strlit("Symlink");
    reveal_strlit("CharDevice");
    reveal_strlit("Whiteout");
    assert("Directory"@.len() == 9);
    assert("RegularFile"@.len() == 11);
    assert("Symlink"@.len() == 7);
    assert("CharDevice"@.len() == 10);
    assert("Whiteout"@.len() == 8);
}

/// Two byte strings with the same image are equal.
pub proof fn lemma_ybytes_inj(x: Seq<u8>, y: Seq<u8>)
    requires
        ybytes(x) == ybytes(y),
    ensures
        x == y,
{
    assert(ybytes(x)->Arr_0 == ybytes(y)->Arr_0);
    assert(ybytes(x)->Arr_0.len() == x.len());
    assert(ybytes(y)->Arr_0.len() == y.len());
    assert(x.len() == y.len());
    assert forall|i: int| 0 <= i < x.len() implies x[i] == y[i] by {
        assert(ybytes(x)->Arr_0[i] == Yv::Num(x[i] as u64));
        assert(ybytes(y)->Arr_0[i] == Yv::Num(y[i] as u64));
    }
    assert(x =~= y);
}

/// Two attribute records with the same image are equal.
pub proof fn lemma_yattrs_inj(a: InodeAttr, b: InodeAttr)
    requires
        yattrs(a) == yattrs(b),
    ensures
        a == b,
{
    let sa = yattrs(a)->Arr_0;
    let sb = yattrs(b)->Arr_0;
    assert(sa == sb);
    assert(sa[0] == sb[0] && sa[1] == sb[1] && sa[2] == sb[2] && sa[3] == sb[3] && sa[4] == sb[4]
        && sa[5] == sb[5] && sa[6] == sb[6] && sa[7] == sb[7] && sa[8] == sb[8] && sa[9] == sb[9]
        && sa[10] == sb[10]);
}

/// Two extended-attribute lists with the same image are equal.
pub proof fn lemma_yxattrs_inj(x: Seq<(Seq<u8>, Seq<u8>)>, y: Seq<(Seq<u8>, Seq<u8>)>)
    requires
        yxattrs(x) == yxattrs(y),
    ensures
        x == y,
{
    assert(yxattrs(x)->Arr_0 == yxattrs(y)->Arr_0);
    assert(yxattrs(x)->Arr_0.len() == x.len());
    assert(yxattrs(y)->Arr_0.len() == y.len());
    assert(x.len() == y.len());
    assert forall|i: int| 0 <= i < x.len() implies x[i] == y[i] by {
        assert(yxattrs(x)->Arr_0[i] == Yv::Arr(seq![ybytes(x[i].0), ybytes(x[i].1)]));
        assert(yxattrs(y)->Arr_0[i] == Yv::Arr(seq![ybytes(y[i].0), ybytes(y[i].1)]));
        assert(seq![ybytes(x[i].0), ybytes(x[i].1)] == seq![ybytes(y[i].0), ybytes(y[i].1)]);
        assert(seq![ybytes(x[i].0), ybytes(x[i].1)][0] == seq![ybytes(y[i].0), ybytes(y[i].1)][0]);
        assert(seq![ybytes(x[i].0), ybytes(x[i].1)][1] == seq![ybytes(y[i].0), ybytes(y[i].1)][1]);
        lemma_ybytes_inj(x[i].0, y[i].0);
        lemma_ybytes_inj(x[i].1, y[i].1);
        assert(x[i] =~= y[i]);
    }
    assert(x =~= y);
}

/// Two inode records with the same image are equal.
pub proof fn lemma_yinode_inj(a: InodeV, b: InodeV)
    requires
        yinode(a) == yinode(b),
    ensures
        a.kind == b.kind && a.parent == b.parent && a.attrs == b.attrs && a.xattrs == b.xattrs,
{
    let sa = yinode(a)->Arr_0;
    let sb = yinode(b)->Arr_0;
    assert(sa == sb);
    assert(sa[0] == sb[0] && sa[1] == sb[1] && sa[2] == sb[2] && sa[3] == sb[3]);
    lemma_ykind_inj(a.kind, b.kind);
    lemma_yattrs_inj(a.attrs, b.attrs);
    lemma_yxattrs_inj(a.xattrs, b.xattrs);
}

/// Two directory entries with the same image are equal.
pub proof fn lemma_ydirent_inj(a: DirEntryV, b: DirEntryV)
    requires
        ydirent(a) == ydirent(b),
    ensures
        a.name == b.name && a.child == b.child && a.kind == b.kind,
{
    let sa = ydirent(a)->Arr_0;
    let sb = ydirent(b)->Arr_0;
    assert(sa == sb);
    assert(sa[0] == sb[0] && sa[1] == sb[1] && sa[2] == sb[2]);
    lemma_ykind_inj(a.kind, b.kind);
}

/// Two content records with the same image are equal.
pub proof fn lemma_ycontent_inj(a: ContentV, b: ContentV)
    requires
        ycontent(a) == ycontent(b),
    ensures
        a == b,
{
    reveal_strlit("Directory");
    reveal_strlit("RegularFile");
    reveal_strlit("Symlink");
    reveal_strlit("Char");
    reveal_strlit("Whiteout");
    assert("Directory"@.len() == 9);
    assert("RegularFile"@.len() == 11);
    assert("Symlink"@.len() == 7);
    assert("Char"@.len() == 4);
    assert("Whiteout"@.len() == 8);
    let sa = ycontent(a)->Arr_0;
    let sb = ycontent(b)->Arr_0;
    assert(sa == sb);
    assert(sa[0] == sb[0]);
    match (a, b) {
        (ContentV::Dir(d1), ContentV::Dir(d2)) => {
            assert(sa[1] == sb[1]);
            assert(sa[1]->Arr_0 == sb[1]->Arr_0);
            assert(sa[1]->Arr_0.len() == d1.len());
            assert(sb[1]->Arr_0.len() == d2.len());
            assert(d1.len() == d2.len());
            assert forall|i: int| 0 <= i < d1.len() implies d1[i] == d2[i] by {
                assert(Seq::new(d1.len(), |k: int| ydirent(d1[k]))[i] == ydirent(d1[i]));
                assert(Seq::new(d2.len(), |k: int| ydirent(d2[k]))[i] == ydirent(d2[i]));
                lemma_ydirent_inj(d1[i], d2[i]);
                assert(d1[i] =~= d2[i]);
            }
            assert(d1 =~= d2);
            assert(a =~~= b);
        },
        (ContentV::File(f1), ContentV::File(f2)) => {
            assert(sa[1] == sb[1]);
            assert(seq![Yv::Num(f1.offset), Yv::Num(f1.size), Yv::Num(f1.capacity)] == seq![
                Yv::Num(f2.offset),
                Yv::Num(f2.size),
                Yv::Num(f2.capacity),
            ]);
            assert(seq![Yv::Num(f1.offset), Yv::Num(f1.size), Yv::Num(f1.capacity)][0] == seq![
                Yv::Num(f2.offset),
                Yv::Num(f2.size),
                Yv::Num(f2.capacity),
            ][0]);
            assert(seq![Yv::Num(f1.offset), Yv::Num(f1.size), Yv::Num(f1.capacity)][1] == seq![
                Yv::Num(f2.offset),
                Yv::Num(f2.size),
                Yv::Num(f2.capacity),
            ][1]);
            assert(seq![Yv::Num(f1.offset), Yv::Num(f1.size), Yv::Num(f1.capacity)][2] == seq![
                Yv::Num(f2.offset),
                Yv::Num(f2.size),
                Yv::Num(f2.capacity),
            ][2]);
        },
        (ContentV::Link(t1), ContentV::Link(t2)) => {
            assert(sa[1] == sb[1]);
        },
        (ContentV::Dev(x1), ContentV::Dev(x2)) => {
            assert(sa[1] == sb[1]);
        },
        (ContentV::White, ContentV::White) => {},
        _ => {},
    }
}

/// Two metadata records with the same image are equal.
pub proof fn lemma_ymeta_inj(a: MetadataV, b: MetadataV)
    requires
        ymeta(a) == ymeta(b),
    ensures
        a == b,
{
    let sa = ymeta(a)->Tab_0;
    let sb = ymeta(b)->Tab_0;
    assert(sa == sb);
    assert(sa[0] == sb[0] && sa[1] == sb[1]);
    assert(Yv::Arr(ytexts(a.depends)) == Yv::Arr(ytexts(b.depends)));
    assert(ytexts(a.depends) == ytexts(b.depends));
    assert(ytexts(a.depends).len() == a.depends.len());
    assert(ytexts(b.depends).len() == b.depends.len());
    assert(a.depends.len() == b.depends.len());
    assert forall|i: int| 0 <= i < a.depends.len() implies a.depends[i] == b.depends[i] by {
        assert(ytexts(a.depends)[i] == Yv::Text(a.depends[i]));
        assert(ytexts(b.depends)[i] == Yv::Text(b.depends[i]));
    }
    assert(a.depends =~= b.depends);
    assert(a =~~= b);
}

/// Two inode tables with the same image are equal.
pub proof fn lemma_yinotbl_inj(x: Seq<(u64, InodeV)>, y: Seq<(u64, InodeV)>)
    requires
        yinotbl(x) == yinotbl(y),
    ensures
        x == y,
{
    assert(yinotbl(x)->Tab_0 == yinotbl(y)->Tab_0);
    assert(yinotbl(x)->Tab_0.len() == x.len());
    assert(yinotbl(y)->Tab_0.len() == y.len());
    assert(x.len() == y.len());
    assert forall|i: int| 0 <= i < x.len() implies x[i] == y[i] by {
        assert(yinotbl(x)->Tab_0[i] == (Yv::Num(x[i].0), yinode(x[i].1)));
        assert(yinotbl(y)->Tab_0[i] == (Yv::Num(y[i].0), yinode(y[i].1)));
        lemma_yinode_inj(x[i].1, y[i].1);
        assert(x[i].1 =~~= y[i].1);
        assert(x[i] =~~= y[i]);
    }
    assert(x =~~= y);
}

/// Two content tables with the same image are equal.
pub proof fn lemma_yconttbl_inj(x: Seq<(u64, ContentV)>, y: Seq<(u64, ContentV)>)
    requires
        yconttbl(x) == yconttbl(y),
    ensures
        x == y,
{
    assert(yconttbl(x)->Tab_0 == yconttbl(y)->Tab_0);
    assert(yconttbl(x)->Tab_0.len() == x.len());
    assert(yconttbl(y)->Tab_0.len() == y.len());
    assert(x.len() == y.len());
    assert forall|i: int| 0 <= i < x.len() implies x[i] == y[i] by {
        assert(yconttbl(x)->Tab_0[i] == (Yv::Num(x[i].0), ycontent(x[i].1)));
        assert(yconttbl(y)->Tab_0[i] == (Yv::Num(y[i].0), ycontent(y[i].1)));
        lemma_ycontent_inj(x[i].1, y[i].1);
        assert(x[i] =~~= y[i]);
    }
    assert(x =~~= y);
}

/// Two headers with the same image carry the same logical fields: the
/// encoding loses nothing.
pub proof fn lemma_yheader_inj(
    ver1: u32,
    root1: u64,
    meta1: MetadataV,
    ins1: Seq<(u64, InodeV)>,
    cts1: Seq<(u64, ContentV)>,
    ver2: u32,
    root2: u64,
    meta2: MetadataV,
    ins2: Seq<(u64, InodeV)>,
    cts2: Seq<(u64, ContentV)>,
)
    requires
        yheader(ver1, root1, meta1, ins1, cts1) == yheader(ver2, root2, meta2, ins2, cts2),
    ensures
        ver1 == ver2,
        root1 == root2,
        meta1 == meta2,
        ins1 == ins2,
        cts1 == cts2,
{
    let sa = yheader(ver1, root1, meta1, ins1, cts1)->Tab_0;
    let sb = yheader(ver2, root2, meta2, ins2, cts2)->Tab_0;
    assert(sa == sb);
    assert(sa[0] == sb[0] && sa[1] == sb[1] && sa[2] == sb[2] && sa[3] == sb[3] && sa[4] == sb[4]);
    lemma_ymeta_inj(meta1, meta2);
    lemma_yinotbl_inj(ins1, ins2);
    lemma_yconttbl_inj(cts1, cts2);
}

/// The value bound to a text key in a table's pairs, first match first.
pub open spec fn ytab_find(s: Seq<(Yv, Yv)>, key: Seq<char>) -> Option<Yv>
    decreases s.len(),
{
    if s.len() == 0 {
        None
    } else if s[0].0 == Yv::Text(key) {
        Some(s[0].1)
    } else {
        ytab_find(s.drop_first(), key)
    }
}

proof fn lemma_ytab_find_at(s: Seq<(Yv, Yv)>, key: Seq<char>, i: int)
    requires
        0 <= i < s.len(),
        s[i].0 == Yv::Text(key),
        forall|j: int| 0 <= j < i ==> s[j].0 != Yv::Text(key),
    ensures
        ytab_find(s, key) == Some(s[i].1),
    decreases s.len(),
{
    if i > 0 {
        assert(s.drop_first()[i - 1] == s[i]);
        assert(forall|j: int| 0 <= j < i - 1 ==> s.drop_first()[j] == s[j + 1]);
        lemma_ytab_find_at(s.drop_first(), key, i - 1);
    }
}

proof fn lemma_ytab_find_none(s: Seq<(Yv, Yv)>, key: Seq<char>)
    requires
        forall|j: int| 0 <= j < s.len() ==> (#[trigger] s[j]).0 != Yv::Text(key),
    ensures
        ytab_find(s, key) is None,
    decreases s.len(),
{
    if s.len() > 0 {
        assert(forall|j: int| 0 <= j < s.len() - 1 ==> s.drop_first()[j] == s[j + 1]);
        lemma_ytab_find_none(s.drop_first(), key);
    }
}

/// What probing the header's version yields: the `version` key's number,
/// or the error describing how the probe failed.
pub open spec fn probe_spec(m: Yv) -> Result<u32, ParcelError> {
    match m {
        Yv::Tab(es) => match ytab_find(es, "version"@) {
            None => Err(ParcelError::NoVersion),
            Some(w) => match w {
                Yv::Num(x) => if x <= u32::MAX {
                    Ok(x as u32)
                } else {
                    Err(ParcelError::VersionType)
                },
                _ => Err(ParcelError::VersionType),
            },
        },
        _ => Err(ParcelError::Codec),
    }
}

/// Probing the version of a well-formed header image yields its version.
pub proof fn lemma_probe_of_header(
    ver: u32,
    root: u64,
    meta: MetadataV,
    ins: Seq<(u64, InodeV)>,
    cts: Seq<(u64, ContentV)>,
)
    ensures
        probe_spec(yheader(ver, root, meta, ins, cts)) == Ok::<u32, ParcelError>(ver),
{
    let es = yheader(ver, root, meta, ins, cts)->Tab_0;
    assert(es[0].0 == Yv::Text("version"@));
    assert(es[0].1 == Yv::Num(ver as u64));
    lemma_ytab_find_at(es, "version"@, 0);
    assert(ver as u64 <= u32::MAX);
    assert((ver as u64) as u32 == ver);
}

/// Extract the format version from a parsed header, before anything else
/// of the structure is trusted.
pub(crate) fn probe_version(v: &serde_yaml::Value) -> (r: Result<u32, ParcelError>)
    ensures
        r == probe_spec(yvalue_of(*v)),
{
    let entries = match yv_as_map_entries(v) {
        Some(es) => es,
        None => {
            return Err(ParcelError::Codec);
        },
    };
    let ghost es = Seq::new(
        entries@.len(),
        |i: int| (yvalue_of(entries@[i].0), yvalue_of(entries@[i].1)),
    );
    let needle = "version".to_owned();
    let mut i: usize = 0;
    while i < entries.len()
        invariant
            i <= entries@.len(),
            needle@ == "version"@,
            es == Seq::new(
                entries@.len(),
                |k: int| (yvalue_of(entries@[k].0), yvalue_of(entries@[k].1)),
            ),
            yvalue_of(*v) == Yv::Tab(es),
            forall|j: int| 0 <= j < i ==> (#[trigger] es[j]).0 != Yv::Text("version"@),
        decreases entries@.len() - i,
    {
        let hit = match yv_as_str(&entries[i].0) {
            Some(k) => k == needle,
            None => false,
        };
        if hit {
            proof {
                lemma_ytab_find_at(es, "version"@, i as int);
            }
            return match yv_as_u64(&entries[i].1) {
                Some(x) => if x <= u32::MAX as u64 {
                    Ok(x as u32)
                } else {
                    Err(ParcelError::VersionType)
                },
                None => Err(ParcelError::VersionType),
            };
        }
        i += 1;
    }
    proof {
        lemma_ytab_find_none(es, "version"@);
    }
    Err(ParcelError::NoVersion)
}

/// Whether every directory entry name and symlink target in a content
/// table is free of line breaks: what the emitter's shape condition
/// demands of the strings the header carries.
pub open spec fn tables_text_safe(cts: Seq<(u64, ContentV)>) -> bool {
    forall|i: int|
        0 <= i < cts.len() ==> match (#[trigger] cts[i]).1 {
            ContentV::Dir(d) => forall|j: int| 0 <= j < d.len() ==> text_safe(
                (#[trigger] d[j]).name,
            ),
            ContentV::Link(t) => text_safe(t),
            _ => true,
        }
}

/// Whether the packaging metadata's strings are free of line breaks.
pub open spec fn meta_text_safe(m: MetadataV) -> bool {
    text_safe(m.version) && (forall|i: int| 0 <= i < m.depends.len() ==> text_safe(
        #[trigger] m.depends[i],
    ))
}

/// The names used by the header format are break-free.
proof fn lemma_literals_safe()
    ensures
        text_safe("Directory"@),
        text_safe("RegularFile"@),
        text_safe("Symlink"@),
        text_safe("CharDevice"@),
        text_safe("Whiteout"@),
        text_safe("Char"@),
        text_safe("version"@),
        text_safe("root_inode"@),
        text_safe("metadata"@),
        text_safe("inodes"@),
        text_safe("content"@),
        text_safe("depends"@),
{
    reveal_strlit("Directory");
    reveal_strlit("RegularFile");
    reveal_strlit("Symlink");
    reveal_strlit("CharDevice");
    reveal_strlit("Whiteout");
    reveal_strlit("Char");
    reveal_strlit("version");
    reveal_strlit("root_inode");
    reveal_strlit("metadata");
    reveal_strlit("inodes");
    reveal_strlit("content");
    reveal_strlit("depends");
}

proof fn lemma_ybytes_ok(b: Seq<u8>, d: int)
    requires
        d >= 2,
    ensures
        yv_ok(ybytes(b), d),
{
    assert forall|i: int| 0 <= i < ybytes(b)->Arr_0.len() implies yv_ok(
        #[trigger] ybytes(b)->Arr_0[i],
        d - 1,
    ) by {
        assert(ybytes(b)->Arr_0[i] == Yv::Num(b[i] as u64));
    }
}

proof fn lemma_yattrs_ok(a: InodeAttr, d: int)
    requires
        d >= 2,
    ensures
        yv_ok(yattrs(a), d),
{
    assert forall|i: int| 0 <= i < yattrs(a)->Arr_0.len() implies yv_ok(
        #[trigger] yattrs(a)->Arr_0[i],
        d - 1,
    ) by {}
}

proof fn lemma_yxattrs_ok(xs: Seq<(Seq<u8>, Seq<u8>)>, d: int)
    requires
        d >= 4,
    ensures
        yv_ok(yxattrs(xs), d),
{
    assert forall|i: int| 0 <= i < yxattrs(xs)->Arr_0.len() implies yv_ok(
        #[trigger] yxattrs(xs)->Arr_0[i],
        d - 1,
    ) by {
        assert(yxattrs(xs)->Arr_0[i] == Yv::Arr(seq![ybytes(xs[i].0), ybytes(xs[i].1)]));
        lemma_ybytes_ok(xs[i].0, d - 2);
        lemma_ybytes_ok(xs[i].1, d - 2);
        let pair = seq![ybytes(xs[i].0), ybytes(xs[i].1)];
        assert forall|j: int| 0 <= j < 2 implies yv_ok(#[trigger] pair[j], d - 2) by {
            if j == 0 {
                assert(pair[0] == ybytes(xs[i].0));
            } else {
                assert(pair[1] == ybytes(xs[i].1));
            }
        }
    }
}

proof fn lemma_ykind_ok(k: InodeKind, d: int)
    requires
        d >= 1,
    ensures
        yv_ok(ykind(k), d),
{
    lemma_literals_safe();
}

proof fn lemma_yinode_ok(nd: InodeV, d: int)
    requires
        d >= 5,
    ensures
        yv_ok(yinode(nd), d),
{
    let xs = yinode(nd)->Arr_0;
    lemma_ykind_ok(nd.kind, d - 1);
    lemma_yattrs_ok(nd.attrs, d - 1);
    lemma_yxattrs_ok(nd.xattrs, d - 1);
    assert forall|i: int| 0 <= i < xs.len() implies yv_ok(#[trigger] xs[i], d - 1) by {
        assert(xs[0] == ykind(nd.kind) && xs[1] == Yv::Num(nd.parent) && xs[2] == yattrs(nd.attrs)
            && xs[3] == yxattrs(nd.xattrs));
    }
}

proof fn lemma_ydirent_ok(e: DirEntryV, d: int)
    requires
        d >= 2,
        text_safe(e.name),
    ensures
        yv_ok(ydirent(e), d),
{
    let xs = ydirent(e)->Arr_0;
    lemma_ykind_ok(e.kind, d - 1);
    assert forall|i: int| 0 <= i < xs.len() implies yv_ok(#[trigger] xs[i], d - 1) by {
        assert(xs[0] == Yv::Text(e.name) && xs[1] == Yv::Num(e.child) && xs[2] == ykind(e.kind));
    }
}

proof fn lemma_ycontent_ok(c: ContentV, d: int)
    requires
        d >= 4,
        match c {
            ContentV::Dir(dd) => forall|j: int| 0 <= j < dd.len() ==> text_safe(
                (#[trigger] dd[j]).name,
            ),
            ContentV::Link(t) => text_safe(t),
            _ => true,
        },
    ensures
        yv_ok(ycontent(c), d),
{
    lemma_literals_safe();
    let xs = ycontent(c)->Arr_0;
    match c {
        ContentV::Dir(dd) => {
            let ents = Seq::new(dd.len(), |i: int| ydirent(dd[i]));
            assert forall|j: int| 0 <= j < ents.len() implies yv_ok(#[trigger] ents[j], d - 2) by {
                lemma_ydirent_ok(dd[j], d - 2);
            }
            assert forall|i: int| 0 <= i < xs.len() implies yv_ok(#[trigger] xs[i], d - 1) by {
                assert(xs[0] == Yv::Text("Directory"@) && xs[1] == Yv::Arr(ents));
            }
        },
        ContentV::File(f) => {
            let nums = seq![Yv::Num(f.offset), Yv::Num(f.size), Yv::Num(f.capacity)];
            assert forall|j: int| 0 <= j < nums.len() implies yv_ok(#[trigger] nums[j], d - 2) by {
                assert(nums[0] == Yv::Num(f.offset) && nums[1] == Yv::Num(f.size) && nums[2]
                    == Yv::Num(f.capacity));
            }
            assert forall|i: int| 0 <= i < xs.len() implies yv_ok(#[trigger] xs[i], d - 1) by {
                assert(xs[0] == Yv::Text("RegularFile"@) && xs[1] == Yv::Arr(nums));
            }
        },
        ContentV::Link(t) => {
            assert forall|i: int| 0 <= i < xs.len() implies yv_ok(#[trigger] xs[i], d - 1) by {
                assert(xs[0] == Yv::Text("Symlink"@) && xs[1] == Yv::Text(t));
            }
        },
        ContentV::Dev(x) => {
            assert forall|i: int| 0 <= i < xs.len() implies yv_ok(#[trigger] xs[i], d - 1) by {
                assert(xs[0] == Yv::Text("Char"@) && xs[1] == Yv::Num(x));
            }
        },
        ContentV::White => {
            assert forall|i: int| 0 <= i < xs.len() implies yv_ok(#[trigger] xs[i], d - 1) by {
                assert(xs[0] == Yv::Text("Whiteout"@));
            }
        },
    }
}

proof fn lemma_ymeta_ok(m: MetadataV, d: int)
    requires
        d >= 3,
        meta_text_safe(m),
    ensures
        yv_ok(ymeta(m), d),
{
    lemma_literals_safe();
    let es = ymeta(m)->Tab_0;
    assert forall|j: int| 0 <= j < ytexts(m.depends).len() implies yv_ok(
        #[trigger] ytexts(m.depends)[j],
        d - 2,
    ) by {
        assert(ytexts(m.depends)[j] == Yv::Text(m.depends[j]));
    }
    assert forall|i: int|
        0 <= i < es.len() implies yv_ok((#[trigger] es[i]).0, d - 1) && yv_ok(es[i].1, d - 1) by {
        assert(es[0] == (Yv::Text("version"@), Yv::Text(m.version)));
        assert(es[1] == (Yv::Text("depends"@), Yv::Arr(ytexts(m.depends))));
    }
}

/// The whole header's value stays within the emitter's shape condition,
/// as long as its strings are break-free.
pub proof fn lemma_yheader_ok(
    ver: u32,
    root: u64,
    meta: MetadataV,
    ins: Seq<(u64, InodeV)>,
    cts: Seq<(u64, ContentV)>,
)
    requires
        meta_text_safe(meta),
        tables_text_safe(cts),
    ensures
        yv_ok(yheader(ver, root, meta, ins, cts), depth_limit()),
{
    lemma_literals_safe();
    let d = depth_limit();
    let es = yheader(ver, root, meta, ins, cts)->Tab_0;
    lemma_ymeta_ok(meta, d - 1);
    assert forall|j: int| 0 <= j < yinotbl(ins)->Tab_0.len() implies yv_ok(
        (#[trigger] yinotbl(ins)->Tab_0[j]).0,
        d - 2,
    ) && yv_ok(yinotbl(ins)->Tab_0[j].1, d - 2) by {
        assert(yinotbl(ins)->Tab_0[j] == (Yv::Num(ins[j].0), yinode(ins[j].1)));
        lemma_yinode_ok(ins[j].1, d - 2);
    }
    assert forall|j: int| 0 <= j < yconttbl(cts)->Tab_0.len() implies yv_ok(
        (#[trigger] yconttbl(cts)->Tab_0[j]).0,
        d - 2,
    ) && yv_ok(yconttbl(cts)->Tab_0[j].1, d - 2) by {
        assert(yconttbl(cts)->Tab_0[j] == (Yv::Num(cts[j].0), ycontent(cts[j].1)));
        lemma_ycontent_ok(cts[j].1, d - 2);
    }
    assert forall|i: int|
        0 <= i < es.len() implies yv_ok((#[trigger] es[i]).0, d - 1) && yv_ok(es[i].1, d - 1) by {
        assert(es[0] == (Yv::Text("version"@), Yv::Num(ver as u64)));
        assert(es[1] == (Yv::Text("root_inode"@), Yv::Num(root)));
        assert(es[2] == (Yv::Text("metadata"@), ymeta(meta)));
        assert(es[3] == (Yv::Text("inodes"@), yinotbl(ins)));
        assert(es[4] == (Yv::Text("content"@), yconttbl(cts)));
    }
}

/// Serialise the container's five logical fields as one header document.
pub(crate) fn encode_header(
    version: u32,
    root_inode: u64,
    meta: &ParcelMetadata,
    inodes: &Vec<(u64, Inode)>,
    content: &Vec<(u64, InodeContent)>,
) -> (r: Result<Vec<u8>, ParcelError>)
    requires
        tbl_unique(inodes_deep(inodes@)),
        tbl_unique(content_deep(content@)),
        meta_text_safe(meta@),
        tables_text_safe(content_deep(content@)),
    ensures
        (match r {
            Ok(_) => yaml_emits(
                yheader(version, root_inode, meta@, inodes_deep(inodes@), content_deep(content@)),
            ),
            Err(e) => !yaml_emits(
                yheader(version, root_inode, meta@, inodes_deep(inodes@), content_deep(content@)),
            ) && e == ParcelError::Codec,
        }),
        r matches Ok(b) ==> {
            let m = yheader(version, root_inode, meta@, inodes_deep(inodes@), content_deep(
                content@,
            ));
            &&& b@ == yaml_emit(m)
            &&& crate::yaml::yaml_doc(b@) == Some(m)
            &&& (forall|p: Seq<u8>|
                crate::yaml::all_spaces(p) ==> crate::yaml::yaml_doc(b@ + p) == Some(m))
            &&& crate::yaml::no_terminator(b@)
            &&& b@.len() > 0
            &&& b@[b@.len() - 1] == 10u8
        },
{
    proof {
        reveal_strlit("version");
        reveal_strlit("root_inode");
        reveal_strlit("metadata");
        reveal_strlit("inodes");
        reveal_strlit("content");
        assert("version"@.len() == 7);
        assert("root_inode"@.len() == 10);
        assert("metadata"@.len() == 8);
        assert("inodes"@.len() == 6);
        assert("content"@.len() == 7);
        assert("version"@[0] == 'v');
        assert("content"@[0] == 'c');
    }
    let mut map = ymap_new();
    ymap_insert(&mut map, yv_str("version"), yv_u64(version as u64));
    ymap_insert(&mut map, yv_str("root_inode"), yv_u64(root_inode));
    ymap_insert(&mut map, yv_str("metadata"), enc_meta(meta));
    ymap_insert(&mut map, yv_str("inodes"), enc_inodes(inodes));
    ymap_insert(&mut map, yv_str("content"), enc_contents(content));
    let top = yv_map(map);
    proof {
        assert(yvalue_of(top) matches Yv::Tab(s) && s =~= yheader(
            version,
            root_inode,
            meta@,
            inodes_deep(inodes@),
            content_deep(content@),
        )->Tab_0);
        assert(yvalue_of(top) =~~= yheader(
            version,
            root_inode,
            meta@,
            inodes_deep(inodes@),
            content_deep(content@),
        ));
    }
    proof {
        lemma_yheader_ok(
            version,
            root_inode,
            meta@,
            inodes_deep(inodes@),
            content_deep(content@),
        );
    }
    yaml_to_bytes(&top)
}

} // verus!
