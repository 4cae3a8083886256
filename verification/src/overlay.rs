use vstd::prelude::*;

use crate::dir::dir_find;
use crate::error::ParcelError;
use crate::handle::ParcelHandle;
use crate::inode::{ContentV, FileAttr, InodeKind};
use crate::parcel::{dir_entries, getattr_spec, lookup_spec, read_spec, ParcelV};
use crate::table::{
    lemma_tbl_find_at, lemma_tbl_find_none, lemma_tbl_push, lemma_tbl_update, tbl_contains,
    tbl_find, tbl_pos, tbl_unique,
};

verus! {

/// The first value bound to a (layer, physical inode) pair.
pub open spec fn pair_find(s: Seq<((u32, u32), u64)>, k: (u32, u32)) -> Option<u64>
    decreases s.len(),
{
    if s.len() == 0 {
        None
    } else if s[0].0 == k {
        Some(s[0].1)
    } else {
        pair_find(s.drop_first(), k)
    }
}

proof fn lemma_pair_find_at(s: Seq<((u32, u32), u64)>, k: (u32, u32), i: int)
    requires
        0 <= i < s.len(),
        s[i].0 == k,
        forall|j: int| 0 <= j < i ==> s[j].0 != k,
    ensures
        pair_find(s, k) == Some(s[i].1),
    decreases s.len(),
{
    if i > 0 {
        assert(s.drop_first()[i - 1] == s[i]);
        assert(forall|j: int| 0 <= j < i - 1 ==> s.drop_first()[j] == s[j + 1]);
        lemma_pair_find_at(s.drop_first(), k, i - 1);
    }
}

proof fn lemma_pair_find_none(s: Seq<((u32, u32), u64)>, k: (u32, u32))
    requires
        forall|j: int| 0 <= j < s.len() ==> (#[trigger] s[j]).0 != k,
    ensures
        pair_find(s, k) is None,
    decreases s.len(),
{
    if s.len() > 0 {
        assert(forall|j: int| 0 <= j < s.len() - 1 ==> s.drop_first()[j] == s[j + 1]);
        lemma_pair_find_none(s.drop_first(), k);
    }
}

proof fn lemma_pair_push(s: Seq<((u32, u32), u64)>, k: (u32, u32), v: u64, k2: (u32, u32))
    requires
        forall|j: int| 0 <= j < s.len() ==> (#[trigger] s[j]).0 != k,
    ensures
        pair_find(s.push((k, v)), k2) == if k2 == k {
            Some(v)
        } else {
            pair_find(s, k2)
        },
    decreases s.len(),
{
    let t = s.push((k, v));
    if s.len() == 0 {
        assert(t[0] == (k, v));
        assert(t.drop_first() =~= Seq::<((u32, u32), u64)>::empty());
        if k2 != k {
            lemma_pair_find_none(t.drop_first(), k2);
        }
    } else {
        assert(t[0] == s[0]);
        assert(t.drop_first() =~= s.drop_first().push((k, v)));
        assert(forall|j: int| 0 <= j < s.len() - 1 ==> s.drop_first()[j] == s[j + 1]);
        lemma_pair_push(s.drop_first(), k, v, k2);
    }
}

/// The position of the first entry with this pair key.
fn pair_pos(s: &Vec<((u32, u32), u64)>, k: (u32, u32)) -> (r: Option<usize>)
    ensures
        match r {
            Some(i) => 0 <= i < s@.len() && s@[i as int].0 == k && (forall|j: int|
                0 <= j < i ==> s@[j].0 != k),
            None => forall|j: int| 0 <= j < s@.len() ==> s@[j].0 != k,
        },
{
    let mut i: usize = 0;
    while i < s.len()
        invariant
            i <= s@.len(),
            forall|j: int| 0 <= j < i ==> s@[j].0 != k,
        decreases s@.len() - i,
    {
        if s[i].0 .0 == k.0 && s[i].0 .1 == k.1 {
            proof {
                assert(s@[i as int].0 == k);
            }
            return Some(i);
        }
        i += 1;
    }
    None
}

/// The element-wise view of the forward table: each virtual inode's list
/// of (layer, physical inode) pairs.
pub open spec fn fwd_deep(s: Seq<(u64, Vec<(u32, u32)>)>) -> Seq<(u64, Seq<(u32, u32)>)> {
    Seq::new(s.len(), |i: int| (s[i].0, s[i].1@))
}

/// The layers' mathematical contents, in stack order.
pub open spec fn layers_deep(s: Seq<ParcelHandle>) -> Seq<ParcelV> {
    Seq::new(s.len(), |i: int| s[i].pv())
}

/// The layer hits for a name: for each source pair whose layer resolves
/// the name (ignoring whiteouts), the pair of that layer and the resolved
/// child, in stack order.
pub open spec fn collect_hits(layers: Seq<ParcelV>, srcs: Seq<(u32, u32)>, name: Seq<char>) -> Seq<
    (u32, u32),
>
    decreases srcs.len(),
{
    if srcs.len() == 0 {
        Seq::<(u32, u32)>::empty()
    } else {
        let rest = collect_hits(layers, srcs.drop_first(), name);
        let p = srcs[0].0;
        if p < layers.len() {
            match lookup_spec(layers[p as int], srcs[0].1 as u64, name) {
                Some(c) => seq![(p, c as u32)] + rest,
                None => rest,
            }
        } else {
            rest
        }
    }
}

/// The topmost raw hit for a name across a virtual inode's layers: the
/// first source pair whose layer's directory carries an entry of that
/// name, whiteout entries included.
pub open spec fn first_hit(layers: Seq<ParcelV>, srcs: Seq<(u32, u32)>, name: Seq<char>) -> Option<
    (u32, u64, InodeKind),
>
    decreases srcs.len(),
{
    if srcs.len() == 0 {
        None
    } else {
        let p = srcs[0].0;
        if p < layers.len() {
            match dir_find(dir_entries(layers[p as int], srcs[0].1 as u64), name) {
                Some(e) => Some((p, e.child, e.kind)),
                None => first_hit(layers, srcs.drop_first(), name),
            }
        } else {
            first_hit(layers, srcs.drop_first(), name)
        }
    }
}

/// Whether an inode carries the xattr that makes a directory opaque to
/// lower overlay layers.
pub open spec fn is_opaque(pv: ParcelV, ino: u64) -> bool {
    match pv.inode_of(ino) {
        Some(nd) => exists|i: int| 0 <= i < nd.xattrs.len() && (#[trigger] nd.xattrs[i]).0
            == opaque_name(),
        None => false,
    }
}

/// The bytes of the xattr name `trusted.overlay.opaque`.
pub open spec fn opaque_name() -> Seq<u8> {
    seq![
        116u8, 114u8, 117u8, 115u8, 116u8, 101u8, 100u8, 46u8, 111u8, 118u8, 101u8, 114u8,
        108u8, 97u8, 121u8, 46u8, 111u8, 112u8, 97u8, 113u8, 117u8, 101u8,
    ]
}

/// The merged entry list of a stack of directories: walking the source
/// pairs top layer first, each name is taken at its first occurrence
/// only; whiteout entries consume their name without being emitted; and
/// an opaque directory stops the walk before any lower layer.
pub open spec fn merge_from(
    layers: Seq<ParcelV>,
    srcs: Seq<(u32, u32)>,
    k: int,
    e: int,
    seen: Seq<Seq<char>>,
) -> Seq<(Seq<char>, InodeKind)>
    decreases srcs.len() - k,
        (if 0 <= k < srcs.len() && srcs[k].0 < layers.len() {
            dir_entries(layers[srcs[k].0 as int], srcs[k].1 as u64).len() as int
        } else {
            0
        }) - e,
{
    if k < 0 || k >= srcs.len() || e < 0 {
        Seq::<(Seq<char>, InodeKind)>::empty()
    } else {
        let p = srcs[k].0;
        let d = if p < layers.len() {
            dir_entries(layers[p as int], srcs[k].1 as u64)
        } else {
            Seq::empty()
        };
        if e >= d.len() {
            if p < layers.len() && is_opaque(layers[p as int], srcs[k].1 as u64) {
                Seq::<(Seq<char>, InodeKind)>::empty()
            } else {
                merge_from(layers, srcs, k + 1, 0, seen)
            }
        } else {
            let ent = d[e];
            if seen.contains(ent.name) {
                merge_from(layers, srcs, k, e + 1, seen)
            } else if ent.kind == InodeKind::Whiteout {
                merge_from(layers, srcs, k, e + 1, seen.push(ent.name))
            } else {
                seq![(ent.name, ent.kind)] + merge_from(layers, srcs, k, e + 1, seen.push(ent.name))
            }
        }
    }
}

/// Presents multiple parcels as one read-only tree, with precedence to
/// earlier layers in the stack.  Virtual inode 1 is the root; fresh
/// virtual inodes are handed out as names are first looked up.
pub struct Overlay {
    layers: Vec<ParcelHandle>,
    inomap: Vec<(u64, Vec<(u32, u32)>)>,
    inomaprev: Vec<((u32, u32), u64)>,
    parents: Vec<(u64, u64)>,
    next_virtual: u64,
}

impl Overlay {
    /// The layers' contents, in stack order.
    pub closed spec fn lv(&self) -> Seq<ParcelV> {
        layers_deep(self.layers@)
    }

    /// The forward table: virtual inode to (layer, physical) pairs.
    pub closed spec fn fwd(&self) -> Seq<(u64, Seq<(u32, u32)>)> {
        fwd_deep(self.inomap@)
    }

    /// The reverse table: (layer, physical) pair to virtual inode.
    pub closed spec fn rev(&self) -> Seq<((u32, u32), u64)> {
        self.inomaprev@
    }

    /// The recorded virtual parent of each virtual inode.
    pub closed spec fn folks(&self) -> Seq<(u64, u64)> {
        self.parents@
    }

    /// The next virtual inode number to hand out.
    pub closed spec fn next_v(&self) -> u64 {
        self.next_virtual
    }

    /// Whether every layer is a loaded, readable, well-formed parcel.
    pub closed spec fn layers_ok(&self) -> bool {
        forall|i: int|
            0 <= i < self.layers@.len() ==> (#[trigger] self.layers@[i]).pv().wf()
                && self.layers@[i].pv().on_disk && self.layers@[i].has_backing()
    }

    /// The overlay's internal invariant: unique table keys, fresh
    /// virtual numbers above every key, and layer indices in range.
    pub open spec fn wf(&self) -> bool {
        &&& self.layers_ok()
        &&& tbl_unique(self.fwd())
        &&& tbl_unique(self.folks())
        &&& (forall|a: int, b: int|
            0 <= a < b < self.rev().len() ==> (#[trigger] self.rev()[a]).0
                != (#[trigger] self.rev()[b]).0)
        &&& (forall|i: int| 0 <= i < self.fwd().len() ==> (#[trigger] self.fwd()[i]).0
            < self.next_v())
        &&& (forall|i: int, j: int|
            0 <= i < self.fwd().len() && 0 <= j < self.fwd()[i].1.len() ==> (
            #[trigger] self.fwd()[i].1[j]).0 < self.lv().len())
        &&& self.lv().len() <= u32::MAX
    }

    /// Stack the given loaded parcels into one overlay: virtual inode 1
    /// maps to every layer's root inode, and numbering starts at 2.
    pub fn new(layers: Vec<ParcelHandle>) -> (r: Overlay)
        requires
            layers@.len() <= u32::MAX,
            forall|i: int|
                0 <= i < layers@.len() ==> (#[trigger] layers@[i]).pv().wf()
                    && layers@[i].pv().on_disk && layers@[i].has_backing(),
        ensures
            r.wf(),
            r.lv() == layers_deep(layers@),
            r.fwd().len() == 1,
            tbl_find(r.fwd(), 1) matches Some(l) && l.len() == layers@.len() && (forall|j: int|
                0 <= j < l.len() ==> #[trigger] l[j] == (j as u32, 1u32)),
            r.next_v() == 2,
            r.folks() == Seq::<(u64, u64)>::empty(),
    {
        let n = layers.len();
        let mut roots: Vec<(u32, u32)> = Vec::new();
        let mut rev: Vec<((u32, u32), u64)> = Vec::new();
        let mut i: usize = 0;
        while i < n
            invariant
                i <= n,
                n == layers@.len() <= u32::MAX,
                roots@.len() == i,
                rev@.len() == i,
                forall|j: int| 0 <= j < i ==> #[trigger] roots@[j] == (j as u32, 1u32),
                forall|j: int| 0 <= j < i ==> #[trigger] rev@[j] == ((j as u32, 1u32), 1u64),
            decreases n - i,
        {
            roots.push((i as u32, 1));
            rev.push(((i as u32, 1), 1));
            i += 1;
        }
        let mut inomap: Vec<(u64, Vec<(u32, u32)>)> = Vec::new();
        inomap.push((1, roots));
        let r = Overlay { layers, inomap, inomaprev: rev, parents: Vec::new(), next_virtual: 2 };
        proof {
            assert(r.fwd() =~~= seq![(1u64, r.fwd()[0].1)]);
            lemma_tbl_find_at(r.fwd(), 1, 0);
            assert forall|a: int, b: int|
                0 <= a < b < r.rev().len() implies (#[trigger] r.rev()[a]).0
                != (#[trigger] r.rev()[b]).0 by {}
        }
        r
    }

    /// The recorded virtual parent of a virtual inode.
    pub fn get_parent(&self, ino: u64) -> (r: Option<u64>)
        ensures
            r == tbl_find(self.folks(), ino),
    {
        let p = tbl_pos(&self.parents, ino);
        proof {
            match p {
                Some(i) => {
                    lemma_tbl_find_at(self.folks(), ino, i as int);
                },
                None => {
                    lemma_tbl_find_none(self.folks(), ino);
                },
            }
        }
        match p {
            Some(i) => Some(self.parents[i].1),
            None => None,
        }
    }

    /// Record the virtual parent of a virtual inode, replacing any
    /// earlier record.
    pub fn insert_parent(&mut self, ino: u64, parent: u64)
        requires
            old(self).wf(),
        ensures
            final(self).wf(),
            final(self).lv() == old(self).lv(),
            final(self).fwd() == old(self).fwd(),
            final(self).rev() == old(self).rev(),
            final(self).next_v() == old(self).next_v(),
            forall|k: u64|
                tbl_find(final(self).folks(), k) == if k == ino {
                    Some(parent)
                } else {
                    tbl_find(old(self).folks(), k)
                },
    {
        let ghost pre = self.folks();
        match tbl_pos(&self.parents, ino) {
            Some(i) => {
                let _ = self.parents.remove(i);
                self.parents.insert(i, (ino, parent));
                proof {
                    assert(self.folks() =~= pre.update(i as int, (ino, parent)));
                    lemma_tbl_update(pre, i as int, parent);
                }
            },
            None => {
                self.parents.push((ino, parent));
                proof {
                    lemma_tbl_find_none(pre, ino);
                    lemma_tbl_push(pre, ino, parent);
                }
            },
        }
        proof {
            assert(self.rev() == old(self).rev());
            assert(self.fwd() =~~= old(self).fwd());
            assert(self.lv() =~~= old(self).lv());
            assert forall|i: int|
                0 <= i < self.layers@.len() implies (#[trigger] self.layers@[i]).pv().wf()
                && self.layers@[i].pv().on_disk && self.layers@[i].has_backing() by {
                assert(self.layers@[i] == old(self).layers@[i]);
            }
        }
    }

    /// Map one layer's physical inode, reached as `name` under the
    /// virtual `parent`, to a virtual inode: the one already recorded
    /// for that pair, or a fresh number bound to every layer's hit for
    /// the name so that all of them appear as one object.
    pub fn remap_inode(&mut self, pid: u32, ino: u32, name: &str, parent: u64) -> (r: u64)
        requires
            old(self).wf(),
            old(self).next_v() < u64::MAX,
            tbl_contains(old(self).fwd(), parent),
        ensures
            final(self).wf(),
            final(self).lv() == old(self).lv(),
            final(self).folks() == old(self).folks(),
            pair_find(final(self).rev(), (pid, ino)) is Some ==> pair_find(
                final(self).rev(),
                (pid, ino),
            ) == Some(r),
            pair_find(old(self).rev(), (pid, ino)) matches Some(v) ==> r == v && *final(self)
                == *old(self),
            pair_find(old(self).rev(), (pid, ino)) is None ==> ({
                let srcs = tbl_find(old(self).fwd(), parent).unwrap();
                &&& r == old(self).next_v()
                &&& final(self).next_v() == old(self).next_v() + 1
                &&& tbl_find(final(self).fwd(), r) == Some(
                    collect_hits(old(self).lv(), srcs, name@),
                )
                &&& (forall|k: u64|
                    k != r ==> tbl_find(final(self).fwd(), k) == tbl_find(old(self).fwd(), k))
                &&& (forall|j: int|
                    0 <= j < srcs.len() ==> match lookup_spec(
                        old(self).lv()[(#[trigger] srcs[j]).0 as int],
                        srcs[j].1 as u64,
                        name@,
                    ) {
                        Some(c) => pair_find(final(self).rev(), (srcs[j].0, c as u32)) == Some(r),
                        None => true,
                    })
            }),
    {
        let ghost pre = *self;
        match pair_pos(&self.inomaprev, (pid, ino)) {
            Some(i) => {
                proof {
                    lemma_pair_find_at(self.rev(), (pid, ino), i as int);
                }
                return self.inomaprev[i].1;
            },
            None => {
                proof {
                    lemma_pair_find_none(self.rev(), (pid, ino));
                }
            },
        }
        let fp = match tbl_pos(&self.inomap, parent) {
            Some(i) => i,
            None => {
                proof {
                    crate::table::lemma_tbl_find_some_idx(pre.fwd(), parent);
                }
                return 0;
            },
        };
        proof {
            lemma_tbl_find_at(pre.fwd(), parent, fp as int);
        }
        let nv = self.next_virtual;
        let ghost srcs = pre.fwd()[fp as int].1;
        let mut hits: Vec<(u32, u32)> = Vec::new();
        let srcs_len = self.inomap[fp].1.len();
        let mut j: usize = 0;
        proof {
            assert(srcs.subrange(0, srcs.len() as int) =~= srcs);
        }
        while j < srcs_len
            invariant
                *self == pre,
                pre.wf(),
                fp < pre.fwd().len(),
                srcs == pre.fwd()[fp as int].1,
                srcs_len == srcs.len(),
                j <= srcs_len,
                hits@ + collect_hits(pre.lv(), srcs.subrange(j as int, srcs.len() as int), name@)
                    == collect_hits(pre.lv(), srcs, name@),
            decreases srcs_len - j,
        {
            let ghost pre_hits = hits@;
            let (p, iid) = self.inomap[fp].1[j];
            proof {
                assert(pre.fwd()[fp as int].1[j as int] == (p, iid));
                assert(p < pre.lv().len());
            }
            let child = self.layers[p as usize].lookup(iid as u64, name);
            proof {
                lemma_collect_hits_step(pre.lv(), srcs, j as int, name@);
            }
            match child {
                Some(c) => {
                    hits.push((p, #[verifier::truncate] (c as u32)));
                    proof {
                        assert(hits@ =~= pre_hits.push((p, (c as u32))));
                        assert(hits@ + collect_hits(
                            pre.lv(),
                            srcs.subrange(j + 1, srcs.len() as int),
                            name@,
                        ) =~= collect_hits(pre.lv(), srcs, name@));
                    }
                },
                None => {
                    proof {
                        assert(hits@ + collect_hits(
                            pre.lv(),
                            srcs.subrange(j + 1, srcs.len() as int),
                            name@,
                        ) =~= collect_hits(pre.lv(), srcs, name@));
                    }
                },
            }
            j += 1;
        }
        proof {
            assert(srcs.subrange(srcs.len() as int, srcs.len() as int)
                =~= Seq::<(u32, u32)>::empty());
            assert(hits@ =~= collect_hits(pre.lv(), srcs, name@));
        }
        // bind every hit to the fresh virtual inode
        let ghost hits_v = hits@;
        let mut h: usize = 0;
        while h < hits.len()
            invariant
                self.layers@ == pre.layers@,
                self.inomap@ == pre.inomap@,
                self.parents@ == pre.parents@,
                self.next_virtual == pre.next_virtual,
                nv == pre.next_v(),
                pre.wf(),
                h <= hits@.len(),
                hits@ == hits_v,
                forall|a: int, b: int|
                    0 <= a < b < self.rev().len() ==> (#[trigger] self.rev()[a]).0
                        != (#[trigger] self.rev()[b]).0,
                forall|j2: int|
                    0 <= j2 < h ==> pair_find(self.rev(), #[trigger] hits_v[j2]) == Some(
                        pre.next_v(),
                    ),
                forall|k2: (u32, u32)|
                    pair_find(self.rev(), k2) is Some ==> pair_find(pre.rev(), k2) == pair_find(
                        self.rev(),
                        k2,
                    ) || pair_find(self.rev(), k2) == Some(pre.next_v()),
            decreases hits@.len() - h,
        {
            let key = hits[h];
            let ghost prerev = self.rev();
            match pair_pos(&self.inomaprev, key) {
                Some(i) => {
                    let _ = self.inomaprev.remove(i);
                    self.inomaprev.insert(i, (key, nv));
                    proof {
                        assert(self.rev() =~= prerev.update(i as int, (key, nv)));
                        lemma_pair_update(prerev, i as int, nv, key);
                    }
                },
                None => {
                    self.inomaprev.push((key, nv));
                    proof {
                        assert forall|k2: (u32, u32)|
                            pair_find(self.rev(), k2) == (if k2 == key {
                                Some(nv)
                            } else {
                                pair_find(prerev, k2)
                            }) by {
                            lemma_pair_push(prerev, key, nv, k2);
                        }
                    }
                },
            }
            h += 1;
        }
        self.inomap.push((nv, hits));
        self.next_virtual = nv + 1;
        proof {
            assert(self.fwd() =~~= pre.fwd().push((nv, hits_v)));
            assert(!tbl_contains(pre.fwd(), nv)) by {
                crate::table::lemma_tbl_find_none(pre.fwd(), nv);
            }
            lemma_tbl_push(pre.fwd(), nv, hits_v);
            assert forall|i: int, j2: int|
                0 <= i < self.fwd().len() && 0 <= j2 < self.fwd()[i].1.len() implies (
            #[trigger] self.fwd()[i].1[j2]).0 < self.lv().len() by {
                if i < pre.fwd().len() {
                    assert(self.fwd()[i] == pre.fwd()[i]);
                } else {
                    assert(self.fwd()[i].1 == hits_v);
                    lemma_collect_hits_pids(pre.lv(), srcs, name@);
                }
            }
            assert forall|j2: int|
                0 <= j2 < srcs.len() implies match lookup_spec(
                pre.lv()[(#[trigger] srcs[j2]).0 as int],
                srcs[j2].1 as u64,
                name@,
            ) {
                Some(c) => pair_find(self.rev(), (srcs[j2].0, c as u32)) == Some(nv),
                None => true,
            } by {
                assert(pre.fwd()[fp as int].1[j2].0 < pre.lv().len());
                if lookup_spec(pre.lv()[srcs[j2].0 as int], srcs[j2].1 as u64, name@) is Some {
                    lemma_collect_hits_member(pre.lv(), srcs, name@, j2);
                    let hit = (
                        srcs[j2].0,
                        lookup_spec(
                            pre.lv()[srcs[j2].0 as int],
                            srcs[j2].1 as u64,
                            name@,
                        ).unwrap() as u32,
                    );
                    let w = choose|w: int| 0 <= w < hits_v.len() && hits_v[w] == hit;
                    assert(pair_find(self.rev(), hits_v[w]) == Some(nv));
                }
            }
        }
        nv
    }
}

/// The first extended attribute carrying `n`, by name.
pub open spec fn xattr_find(xs: Seq<(Seq<u8>, Seq<u8>)>, n: Seq<u8>) -> Option<Seq<u8>>
    decreases xs.len(),
{
    if xs.len() == 0 {
        None
    } else if xs[0].0 == n {
        Some(xs[0].1)
    } else {
        xattr_find(xs.drop_first(), n)
    }
}

/// Every extended attribute name in order, each followed by one zero
/// byte: the list format `listxattr` hands to its callers.
pub open spec fn xattr_names(xs: Seq<(Seq<u8>, Seq<u8>)>) -> Seq<u8>
    decreases xs.len(),
{
    if xs.len() == 0 {
        Seq::<u8>::empty()
    } else {
        xs[0].0 + seq![0u8] + xattr_names(xs.drop_first())
    }
}

/// Whether two byte strings hold the same bytes.
fn bytes_eq(a: &[u8], b: &[u8]) -> (r: bool)
    ensures
        r == (a@ == b@),
{
    if a.len() != b.len() {
        return false;
    }
    let mut i: usize = 0;
    while i < a.len()
        invariant
            i <= a@.len(),
            a@.len() == b@.len(),
            forall|j: int| 0 <= j < i ==> a@[j] == b@[j],
        decreases a@.len() - i,
    {
        if a[i] != b[i] {
            return false;
        }
        i += 1;
    }
    proof {
        assert(a@ =~= b@);
    }
    true
}

/// The bytes of the opaque-marker xattr name.
fn opaque_name_vec() -> (r: Vec<u8>)
    ensures
        r@ == opaque_name(),
{
    let r: Vec<u8> = vec![
        116u8, 114u8, 117u8, 115u8, 116u8, 101u8, 100u8, 46u8, 111u8, 118u8, 101u8, 114u8,
        108u8, 97u8, 121u8, 46u8, 111u8, 112u8, 97u8, 113u8, 117u8, 101u8,
    ];
    proof {
        assert(r@ =~= opaque_name());
    }
    r
}

/// Whether a layer marks this directory opaque.
fn layer_opaque(h: &ParcelHandle, ino: u64) -> (r: bool)
    ensures
        r == is_opaque(h.pv(), ino),
{
    let needle = opaque_name_vec();
    match h.getxattrs(ino) {
        Some(xs) => {
            let mut i: usize = 0;
            while i < xs.len()
                invariant
                    i <= xs@.len(),
                    needle@ == opaque_name(),
                    h.pv().inode_of(ino) matches Some(nd) && crate::inode::xattrs_deep(xs@)
                        == nd.xattrs,
                    forall|j: int|
                        0 <= j < i ==> (#[trigger] crate::inode::xattrs_deep(xs@)[j]).0
                            != opaque_name(),
                decreases xs@.len() - i,
            {
                if bytes_eq(xs[i].name.as_slice(), needle.as_slice()) {
                    proof {
                        assert((crate::inode::xattrs_deep(xs@)[i as int]).0 == opaque_name());
                    }
                    return true;
                }
                i += 1;
            }
            false
        },
        None => false,
    }
}

/// Whether a name is among the strings collected so far.
fn contains_str(v: &Vec<String>, s: &String) -> (r: bool)
    ensures
        r == crate::metadata::strs_deep(v@).contains(s@),
{
    let mut i: usize = 0;
    while i < v.len()
        invariant
            i <= v@.len(),
            forall|j: int| 0 <= j < i ==> crate::metadata::strs_deep(v@)[j] != s@,
        decreases v@.len() - i,
    {
        if v[i] == *s {
            proof {
                assert(crate::metadata::strs_deep(v@)[i as int] == s@);
            }
            return true;
        }
        i += 1;
    }
    proof {
        if crate::metadata::strs_deep(v@).contains(s@) {
            let w = choose|w: int|
                0 <= w < crate::metadata::strs_deep(v@).len() && crate::metadata::strs_deep(
                    v@,
                )[w] == s@;
        }
    }
    false
}

impl Overlay {
    /// A copy of a virtual inode's source pairs.
    fn sources(&self, v: u64) -> (r: Option<Vec<(u32, u32)>>)
        ensures
            match r {
                Some(l) => tbl_find(self.fwd(), v) == Some(l@),
                None => tbl_find(self.fwd(), v) is None,
            },
    {
        let fp = match tbl_pos(&self.inomap, v) {
            Some(i) => i,
            None => {
                proof {
                    lemma_tbl_find_none(self.fwd(), v);
                }
                return None;
            },
        };
        proof {
            lemma_tbl_find_at(self.fwd(), v, fp as int);
        }
        let src = &self.inomap[fp].1;
        let mut out: Vec<(u32, u32)> = Vec::new();
        let mut i: usize = 0;
        while i < src.len()
            invariant
                i <= src@.len(),
                out@ == src@.subrange(0, i as int),
            decreases src@.len() - i,
        {
            out.push(src[i]);
            proof {
                assert(out@ =~= src@.subrange(0, i + 1));
            }
            i += 1;
        }
        proof {
            assert(out@ =~= src@);
        }
        Some(out)
    }

    /// Resolve a name under a virtual directory: the topmost layer that
    /// carries an entry of that name decides; a whiteout there masks the
    /// name entirely, anything else is remapped to its virtual inode and
    /// returned with that layer's attributes.
    pub fn lookup(&mut self, parent: u64, name: &str) -> (r: Option<FileAttr>)
        requires
            old(self).wf(),
            old(self).next_v() < u64::MAX,
            tbl_contains(old(self).fwd(), parent),
        ensures
            final(self).wf(),
            final(self).lv() == old(self).lv(),
            ({
                let hit = first_hit(
                    old(self).lv(),
                    tbl_find(old(self).fwd(), parent).unwrap(),
                    name@,
                );
                match hit {
                    Some((p, child, kind)) => if kind != InodeKind::Whiteout {
                        match getattr_spec(old(self).lv()[p as int], child) {
                            Some(a) => r matches Some(ra) && ra == (FileAttr {
                                ino: ra.ino,
                                ..a
                            }) && pair_find(final(self).rev(), (p, child as u32)) == Some(ra.ino),
                            None => r is None,
                        }
                    } else {
                        r is None
                    },
                    None => r is None,
                }
            }),
    {
        let ghost pre = *self;
        let srcs = match self.sources(parent) {
            Some(l) => l,
            None => {
                return None;
            },
        };
        let ghost srcs_v = srcs@;
        let mut k: usize = 0;
        proof {
            assert(srcs_v.subrange(0, srcs_v.len() as int) =~= srcs_v);
            crate::table::lemma_tbl_find_some_idx(pre.fwd(), parent);
            let w = choose|w: int|
                0 <= w < pre.fwd().len() && (#[trigger] pre.fwd()[w]).0 == parent
                    && pre.fwd()[w].1 == tbl_find(pre.fwd(), parent).unwrap();
            assert forall|j: int| 0 <= j < srcs_v.len() implies (#[trigger] srcs_v[j]).0
                < pre.lv().len() by {
                assert(pre.fwd()[w].1[j].0 < pre.lv().len());
            }
        }
        while k < srcs.len()
            invariant
                pre == *old(self),
                *self == pre,
                pre.wf(),
                pre.next_v() < u64::MAX,
                tbl_contains(pre.fwd(), parent),
                tbl_find(pre.fwd(), parent) == Some(srcs_v),
                srcs@ == srcs_v,
                k <= srcs_v.len(),
                first_hit(pre.lv(), srcs_v.subrange(k as int, srcs_v.len() as int), name@)
                    == first_hit(pre.lv(), srcs_v, name@),
                forall|j: int| 0 <= j < srcs_v.len() ==> (#[trigger] srcs_v[j]).0
                    < pre.lv().len(),
            decreases srcs_v.len() - k,
        {
            let (p, iid) = srcs[k];
            proof {
                lemma_first_hit_step(pre.lv(), srcs_v, k as int, name@);
            }
            match self.layers[p as usize].dirent_of(iid as u64, name) {
                Some((child, kind)) => {
                    if kind == InodeKind::Whiteout {
                        return None;
                    }
                    let attr = match self.layers[p as usize].getattr(child) {
                        Some(a) => a,
                        None => {
                            return None;
                        },
                    };
                    proof {
                        assert(lookup_spec(pre.lv()[p as int], iid as u64, name@) == Some(child));
                    }
                    let vino = self.remap_inode(p, #[verifier::truncate] (child as u32), name, parent);
                    return Some(FileAttr { ino: vino, ..attr });
                },
                None => {},
            }
            k += 1;
        }
        proof {
            assert(srcs_v.subrange(srcs_v.len() as int, srcs_v.len() as int)
                =~= Seq::<(u32, u32)>::empty());
        }
        None
    }

    /// The attributes of a virtual inode: its first layer's attributes,
    /// carrying the virtual number.
    pub fn getattr(&self, v: u64) -> (r: Option<FileAttr>)
        requires
            self.wf(),
        ensures
            r == (match tbl_find(self.fwd(), v) {
                Some(l) => if l.len() > 0 {
                    match getattr_spec(self.lv()[l[0].0 as int], l[0].1 as u64) {
                        Some(a) => Some((FileAttr { ino: v, ..a })),
                        None => None,
                    }
                } else {
                    None
                },
                None => None,
            }),
    {
        let fp = match tbl_pos(&self.inomap, v) {
            Some(i) => i,
            None => {
                proof {
                    lemma_tbl_find_none(self.fwd(), v);
                }
                return None;
            },
        };
        proof {
            lemma_tbl_find_at(self.fwd(), v, fp as int);
        }
        if self.inomap[fp].1.len() == 0 {
            return None;
        }
        let (p, iid) = self.inomap[fp].1[0];
        match self.layers[p as usize].getattr(iid as u64) {
            Some(a) => Some(FileAttr { ino: v, ..a }),
            None => None,
        }
    }

    /// Read from the file behind a virtual inode, out of its first layer.
    pub fn read(&mut self, v: u64, offset: u64, size: Option<u64>) -> (r: Result<
        Vec<u8>,
        ParcelError,
    >)
        requires
            old(self).wf(),
        ensures
            final(self).wf(),
            final(self).lv() == old(self).lv(),
            final(self).fwd() == old(self).fwd(),
            final(self).rev() == old(self).rev(),
            final(self).folks() == old(self).folks(),
            final(self).next_v() == old(self).next_v(),
            (match tbl_find(old(self).fwd(), v) {
                Some(l) => if l.len() > 0 {
                    (match r {
                        Ok(b) => Ok(b@),
                        Err(e) => Err::<Seq<u8>, ParcelError>(e),
                    }) == read_spec(
                        old(self).lv()[l[0].0 as int],
                        old(self).lbytes(l[0].0 as int),
                        l[0].1 as u64,
                        offset,
                        size,
                    )
                } else {
                    r == Err::<Vec<u8>, ParcelError>(ParcelError::Enoent)
                },
                None => r == Err::<Vec<u8>, ParcelError>(ParcelError::Enoent),
            }),
    {
        let ghost pre = *self;
        let fp = match tbl_pos(&self.inomap, v) {
            Some(i) => i,
            None => {
                proof {
                    lemma_tbl_find_none(self.fwd(), v);
                }
                return Err(ParcelError::Enoent);
            },
        };
        proof {
            lemma_tbl_find_at(self.fwd(), v, fp as int);
        }
        if self.inomap[fp].1.len() == 0 {
            return Err(ParcelError::Enoent);
        }
        let (p, iid) = self.inomap[fp].1[0];
        let mut layer = self.layers.remove(p as usize);
        let r = layer.read(iid as u64, offset, size);
        self.layers.insert(p as usize, layer);
        proof {
            assert(self.layers@ =~= pre.layers@.remove(p as int).insert(p as int, layer));
            assert forall|i: int|
                0 <= i < self.layers@.len() && i != p as int implies self.layers@[i]
                == pre.layers@[i] by {
                if i < p as int {
                    assert(pre.layers@.remove(p as int)[i] == pre.layers@[i]);
                } else {
                    assert(pre.layers@.remove(p as int)[i - 1] == pre.layers@[i]);
                }
            }
            assert(self.layers@[p as int] == layer);
            assert(layer.pv() == pre.layers@[p as int].pv() && layer.bytes() == pre.layers@[
                p as int
            ].bytes() && layer.has_backing());
            assert(self.layers@.len() == pre.layers@.len());
            assert(self.lv() =~~= pre.lv());
            assert(self.rev() == pre.rev());
            assert(self.folks() == pre.folks());
            assert(self.next_v() == pre.next_v());
            assert(self.fwd() =~~= pre.fwd());
            assert forall|i: int|
                0 <= i < self.layers@.len() implies (#[trigger] self.layers@[i]).pv().wf()
                && self.layers@[i].pv().on_disk && self.layers@[i].has_backing() by {
                if i != p as int {
                    assert(self.layers@[i] == pre.layers@[i]);
                }
            }
        }
        r
    }

    /// The bytes of one layer's backing store.
    pub closed spec fn lbytes(&self, i: int) -> Seq<u8> {
        self.layers@[i].bytes()
    }

    /// The target of the symlink behind a virtual inode.
    pub fn readlink(&self, v: u64) -> (r: Option<Vec<u8>>)
        requires
            self.wf(),
            (match tbl_find(self.fwd(), v) {
                Some(l) => l.len() > 0 && (self.lv()[l[0].0 as int].content_of(l[0].1 as u64)
                    is Some ==> self.lv()[l[0].0 as int].content_of(l[0].1 as u64).unwrap()
                    is Link),
                None => true,
            }),
        ensures
            (match tbl_find(self.fwd(), v) {
                Some(l) => if l.len() > 0 {
                    match self.lv()[l[0].0 as int].content_of(l[0].1 as u64) {
                        Some(c) => match c {
                            ContentV::Link(_) => r is Some,
                            _ => r is None,
                        },
                        None => r is None,
                    }
                } else {
                    r is None
                },
                None => r is None,
            }),
            r matches Some(b) ==> (match tbl_find(self.fwd(), v) {
                Some(l) => l.len() > 0 && (self.lv()[l[0].0 as int].content_of(l[0].1 as u64)
                    matches Some(c) && c matches ContentV::Link(t) && b@
                    == vstd::utf8::encode_utf8(t)),
                None => false,
            }),
    {
        let fp = match tbl_pos(&self.inomap, v) {
            Some(i) => i,
            None => {
                proof {
                    lemma_tbl_find_none(self.fwd(), v);
                }
                return None;
            },
        };
        proof {
            lemma_tbl_find_at(self.fwd(), v, fp as int);
        }
        if self.inomap[fp].1.len() == 0 {
            return None;
        }
        let (p, iid) = self.inomap[fp].1[0];
        self.layers[p as usize].readlink(iid as u64)
    }

    /// One extended attribute of the object behind a virtual inode, read
    /// from its first layer.
    pub fn getxattr(&self, v: u64, name: &[u8]) -> (r: Option<Vec<u8>>)
        requires
            self.wf(),
        ensures
            (match tbl_find(self.fwd(), v) {
                Some(l) => if l.len() > 0 {
                    match self.lv()[l[0].0 as int].inode_of(l[0].1 as u64) {
                        Some(nd) => (match r {
                            Some(b) => Some(b@),
                            None => None,
                        }) == xattr_find(nd.xattrs, name@),
                        None => r is None,
                    }
                } else {
                    r is None
                },
                None => r is None,
            }),
    {
        let fp = match tbl_pos(&self.inomap, v) {
            Some(i) => i,
            None => {
                proof {
                    lemma_tbl_find_none(self.fwd(), v);
                }
                return None;
            },
        };
        proof {
            lemma_tbl_find_at(self.fwd(), v, fp as int);
        }
        if self.inomap[fp].1.len() == 0 {
            return None;
        }
        let (p, iid) = self.inomap[fp].1[0];
        proof {
            assert(self.lv()[p as int] == self.layers@[p as int].pv());
            assert(tbl_find(self.fwd(), v).unwrap()[0] == (p, iid));
        }
        let xs = match self.layers[p as usize].getxattrs(iid as u64) {
            Some(xs) => xs,
            None => {
                return None;
            },
        };
        let ghost xv = crate::inode::xattrs_deep(xs@);
        let ghost nd0 = self.lv()[p as int].inode_of(iid as u64).unwrap();
        proof {
            assert(nd0.xattrs == xv);
        }
        let mut i: usize = 0;
        while i < xs.len()
            invariant
                i <= xs@.len(),
                xv == crate::inode::xattrs_deep(xs@),
                nd0.xattrs == xv,
                tbl_find(self.fwd(), v) matches Some(l) && l.len() > 0 && l[0] == (p, iid),
                self.lv()[p as int].inode_of(iid as u64) == Some(nd0),
                forall|j: int| 0 <= j < i ==> (#[trigger] xv[j]).0 != name@,
            decreases xs@.len() - i,
        {
            if bytes_eq(xs[i].name.as_slice(), name) {
                proof {
                    assert(xv[i as int].0 == name@);
                    lemma_xattr_find_at(xv, name@, i as int);
                    assert(xv[i as int].1 == xs@[i as int].value@);
                }
                return Some(vstd::slice::slice_to_vec(xs[i].value.as_slice()));
            }
            i += 1;
        }
        proof {
            lemma_xattr_find_none(xv, name@);
        }
        None
    }

    /// Every extended attribute name of the object behind a virtual
    /// inode, each name followed by a zero byte.
    pub fn listxattr(&self, v: u64) -> (r: Option<Vec<u8>>)
        requires
            self.wf(),
        ensures
            (match tbl_find(self.fwd(), v) {
                Some(l) => if l.len() > 0 {
                    match self.lv()[l[0].0 as int].inode_of(l[0].1 as u64) {
                        Some(nd) => r matches Some(b) && b@ == xattr_names(nd.xattrs),
                        None => r is None,
                    }
                } else {
                    r is None
                },
                None => r is None,
            }),
    {
        let fp = match tbl_pos(&self.inomap, v) {
            Some(i) => i,
            None => {
                proof {
                    lemma_tbl_find_none(self.fwd(), v);
                }
                return None;
            },
        };
        proof {
            lemma_tbl_find_at(self.fwd(), v, fp as int);
        }
        if self.inomap[fp].1.len() == 0 {
            return None;
        }
        let (p, iid) = self.inomap[fp].1[0];
        let xs = match self.layers[p as usize].getxattrs(iid as u64) {
            Some(xs) => xs,
            None => {
                return None;
            },
        };
        let ghost xv = crate::inode::xattrs_deep(xs@);
        let mut out: Vec<u8> = Vec::new();
        let mut i: usize = 0;
        proof {
            assert(xv.subrange(0, xv.len() as int) =~= xv);
        }
        while i < xs.len()
            invariant
                i <= xs@.len(),
                xv == crate::inode::xattrs_deep(xs@),
                out@ + xattr_names(xv.subrange(i as int, xv.len() as int)) == xattr_names(xv),
            decreases xs@.len() - i,
        {
            let ghost pre_out = out@;
            let mut b: usize = 0;
            let nm = &xs[i].name;
            while b < nm.len()
                invariant
                    b <= nm@.len(),
                    out@ == pre_out + nm@.subrange(0, b as int),
                decreases nm@.len() - b,
            {
                out.push(nm[b]);
                proof {
                    assert(out@ =~= pre_out + nm@.subrange(0, b + 1));
                }
                b += 1;
            }
            out.push(0);
            proof {
                assert(nm@.subrange(0, nm@.len() as int) =~= nm@);
                lemma_xattr_names_step(xv, i as int);
                assert(out@ + xattr_names(xv.subrange(i + 1, xv.len() as int)) =~= xattr_names(
                    xv,
                ));
            }
            i += 1;
        }
        proof {
            assert(xv.subrange(xv.len() as int, xv.len() as int)
                =~= Seq::<(Seq<u8>, Seq<u8>)>::empty());
            assert(out@ =~= xattr_names(xv));
        }
        Some(out)
    }
}

/// The (name, kind) pairs of the entries emitted so far, past the `.`
/// and `..` entries.
spec fn emitted_pairs(out: Seq<(u64, InodeKind, String)>, dots: int) -> Seq<
    (Seq<char>, InodeKind),
> {
    Seq::new((out.len() - dots) as nat, |j: int| (out[dots + j].2@, out[dots + j].1))
}

proof fn lemma_merge_unfold(
    layers: Seq<ParcelV>,
    srcs: Seq<(u32, u32)>,
    k: int,
    e: int,
    seen: Seq<Seq<char>>,
)
    requires
        0 <= k < srcs.len(),
        0 <= e,
    ensures
        merge_from(layers, srcs, k, e, seen) == ({
            let p = srcs[k].0;
            let d = if p < layers.len() {
                dir_entries(layers[p as int], srcs[k].1 as u64)
            } else {
                Seq::empty()
            };
            if e >= d.len() {
                if p < layers.len() && is_opaque(layers[p as int], srcs[k].1 as u64) {
                    Seq::<(Seq<char>, InodeKind)>::empty()
                } else {
                    merge_from(layers, srcs, k + 1, 0, seen)
                }
            } else {
                let ent = d[e];
                if seen.contains(ent.name) {
                    merge_from(layers, srcs, k, e + 1, seen)
                } else if ent.kind == InodeKind::Whiteout {
                    merge_from(layers, srcs, k, e + 1, seen.push(ent.name))
                } else {
                    seq![(ent.name, ent.kind)] + merge_from(
                        layers,
                        srcs,
                        k,
                        e + 1,
                        seen.push(ent.name),
                    )
                }
            }
        }),
{
}

impl Overlay {
    /// The merged entry list of a virtual directory: `.`, then `..` when
    /// the parent is known, then the stacked layers' entries with
    /// earlier layers winning on a name, whiteouts consuming their name,
    /// and an opaque layer masking everything below it.  Each emitted
    /// entry's child is remapped to its virtual inode and has its parent
    /// recorded.
    pub fn readdir(&mut self, v: u64) -> (r: Option<Vec<(u64, InodeKind, String)>>)
        requires
            old(self).wf(),
            match tbl_find(old(self).fwd(), v) {
                Some(l) => old(self).next_v() + merge_from(
                    old(self).lv(),
                    l,
                    0,
                    0,
                    Seq::<Seq<char>>::empty(),
                ).len() < u64::MAX,
                None => true,
            },
        ensures
            final(self).wf(),
            final(self).lv() == old(self).lv(),
            r is Some <==> tbl_find(old(self).fwd(), v) is Some,
            r matches Some(out) ==> ({
                let l = tbl_find(old(self).fwd(), v).unwrap();
                let merged = merge_from(old(self).lv(), l, 0, 0, Seq::<Seq<char>>::empty());
                let dots: int = if tbl_find(old(self).folks(), v) is Some {
                    2
                } else {
                    1
                };
                &&& out@.len() == dots + merged.len()
                &&& out@[0].0 == v && out@[0].1 == InodeKind::Directory && out@[0].2@ == "."@
                &&& (tbl_find(old(self).folks(), v) matches Some(par) ==> out@[1].0 == par
                    && out@[1].1 == InodeKind::Directory && out@[1].2@ == ".."@)
                &&& (forall|j: int|
                    0 <= j < merged.len() ==> (#[trigger] out@[dots + j]).1 == merged[j].1 && out@[
                        dots + j
                    ].2@ == merged[j].0)
            }),
    {
        let ghost pre = *self;
        let srcs = match self.sources(v) {
            Some(l) => l,
            None => {
                return None;
            },
        };
        let ghost srcs_v = srcs@;
        let ghost merged = merge_from(pre.lv(), srcs_v, 0, 0, Seq::<Seq<char>>::empty());
        proof {
            crate::table::lemma_tbl_find_some_idx(pre.fwd(), v);
            let w = choose|w: int|
                0 <= w < pre.fwd().len() && (#[trigger] pre.fwd()[w]).0 == v && pre.fwd()[w].1
                    == tbl_find(pre.fwd(), v).unwrap();
            assert forall|j: int| 0 <= j < srcs_v.len() implies (#[trigger] srcs_v[j]).0
                < pre.lv().len() by {
                assert(pre.fwd()[w].1[j].0 < pre.lv().len());
            }
            assert(v < pre.next_v());
        }
        let parent = self.get_parent(v);
        let mut out: Vec<(u64, InodeKind, String)> = Vec::new();
        out.push((v, InodeKind::Directory, ".".to_owned()));
        match parent {
            Some(p) => {
                out.push((p, InodeKind::Directory, "..".to_owned()));
            },
            None => {},
        }
        let dots = out.len();
        let mut seen: Vec<String> = Vec::new();
        let mut k: usize = 0;
        proof {
            assert(crate::metadata::strs_deep(seen@) =~= Seq::<Seq<char>>::empty());
            assert(emitted_pairs(out@, dots as int) =~= Seq::<(Seq<char>, InodeKind)>::empty());
        }
        while k < srcs.len()
            invariant
                pre == *old(self),
                pre.wf(),
                self.wf(),
                self.lv() == pre.lv(),
                tbl_find(self.fwd(), v) == tbl_find(pre.fwd(), v),
                tbl_find(pre.fwd(), v) == Some(srcs_v),
                srcs@ == srcs_v,
                k <= srcs_v.len(),
                forall|j: int| 0 <= j < srcs_v.len() ==> (#[trigger] srcs_v[j]).0
                    < pre.lv().len(),
                dots <= out@.len(),
                dots == 1 || dots == 2,
                out@[0].0 == v && out@[0].1 == InodeKind::Directory && out@[0].2@ == "."@,
                tbl_find(pre.folks(), v) matches Some(par) ==> dots == 2 && out@[1].0 == par
                    && out@[1].1 == InodeKind::Directory && out@[1].2@ == ".."@,
                tbl_find(pre.folks(), v) is None ==> dots == 1,
                merged == merge_from(pre.lv(), srcs_v, 0, 0, Seq::<Seq<char>>::empty()),
                merged == emitted_pairs(out@, dots as int) + merge_from(
                    pre.lv(),
                    srcs_v,
                    k as int,
                    0,
                    crate::metadata::strs_deep(seen@),
                ),
                self.next_v() <= pre.next_v() + emitted_pairs(out@, dots as int).len(),
                pre.next_v() + merged.len() < u64::MAX,
                v < self.next_v(),
            decreases srcs_v.len() - k,
        {
            let (p, iid) = srcs[k];
            let ghost d = dir_entries(pre.lv()[p as int], iid as u64);
            let entries = match self.layers[p as usize].readdir(iid as u64) {
                Some(es) => es,
                None => {
                    proof {
                        assert(d =~= Seq::<crate::inode::DirEntryV>::empty());
                    }
                    Vec::new()
                },
            };
            proof {
                assert(entries@.len() == d.len());
                assert(forall|i: int|
                    0 <= i < d.len() ==> (#[trigger] entries@[i]).0 == d[i].child && entries@[i].1
                        == d[i].kind && entries@[i].2@ == d[i].name);
            }
            let mut e: usize = 0;
            while e < entries.len()
                invariant
                    pre == *old(self),
                    pre.wf(),
                    self.wf(),
                    self.lv() == pre.lv(),
                    tbl_find(self.fwd(), v) == tbl_find(pre.fwd(), v),
                    tbl_find(pre.fwd(), v) == Some(srcs_v),
                    k < srcs_v.len(),
                    (p, iid) == srcs_v[k as int],
                    p < pre.lv().len(),
                    d == dir_entries(pre.lv()[p as int], iid as u64),
                    entries@.len() == d.len(),
                    forall|i: int|
                        0 <= i < d.len() ==> (#[trigger] entries@[i]).0 == d[i].child
                            && entries@[i].1 == d[i].kind && entries@[i].2@ == d[i].name,
                    e <= d.len(),
                    dots <= out@.len(),
                    dots == 1 || dots == 2,
                    out@[0].0 == v && out@[0].1 == InodeKind::Directory && out@[0].2@ == "."@,
                    tbl_find(pre.folks(), v) matches Some(par) ==> dots == 2 && out@[1].0 == par
                        && out@[1].1 == InodeKind::Directory && out@[1].2@ == ".."@,
                    tbl_find(pre.folks(), v) is None ==> dots == 1,
                    merged == merge_from(pre.lv(), srcs_v, 0, 0, Seq::<Seq<char>>::empty()),
                    merged == emitted_pairs(out@, dots as int) + merge_from(
                        pre.lv(),
                        srcs_v,
                        k as int,
                        e as int,
                        crate::metadata::strs_deep(seen@),
                    ),
                    self.next_v() <= pre.next_v() + emitted_pairs(out@, dots as int).len(),
                    pre.next_v() + merged.len() < u64::MAX,
                    v < self.next_v(),
                decreases d.len() - e,
            {
                let name = entries[e].2.clone();
                let child = entries[e].0;
                let kind = entries[e].1;
                proof {
                    lemma_merge_unfold(
                        pre.lv(),
                        srcs_v,
                        k as int,
                        e as int,
                        crate::metadata::strs_deep(seen@),
                    );
                }
                if contains_str(&seen, &name) {
                } else if kind == InodeKind::Whiteout {
                    let ghost seen0 = crate::metadata::strs_deep(seen@);
                    seen.push(name);
                    proof {
                        assert(crate::metadata::strs_deep(seen@) =~~= seen0.push(
                            d[e as int].name,
                        ));
                    }
                } else {
                    let ghost seen0 = crate::metadata::strs_deep(seen@);
                    let ghost out0 = out@;
                    proof {
                        assert(merge_from(
                            pre.lv(),
                            srcs_v,
                            k as int,
                            e as int,
                            seen0,
                        ).len() >= 1);
                        assert(emitted_pairs(out@, dots as int).len() + merge_from(
                            pre.lv(),
                            srcs_v,
                            k as int,
                            e as int,
                            seen0,
                        ).len() == merged.len());
                        assert(self.next_v() < u64::MAX);
                    }
                    seen.push(name.clone());
                    let vchild = self.remap_inode(
                        p,
                        #[verifier::truncate] (child as u32),
                        name.as_str(),
                        v,
                    );
                    self.insert_parent(vchild, v);
                    out.push((vchild, kind, name));
                    proof {
                        assert(crate::metadata::strs_deep(seen@) =~~= seen0.push(
                            d[e as int].name,
                        ));
                        assert(emitted_pairs(out@, dots as int) =~~= emitted_pairs(
                            out0,
                            dots as int,
                        ).push((d[e as int].name, d[e as int].kind)));
                        assert(merged =~~= emitted_pairs(out@, dots as int) + merge_from(
                            pre.lv(),
                            srcs_v,
                            k as int,
                            e + 1,
                            crate::metadata::strs_deep(seen@),
                        ));
                    }
                }
                e += 1;
            }
            proof {
                lemma_merge_unfold(
                    pre.lv(),
                    srcs_v,
                    k as int,
                    e as int,
                    crate::metadata::strs_deep(seen@),
                );
            }
            if layer_opaque(&self.layers[p as usize], iid as u64) {
                proof {
                    assert(is_opaque(pre.lv()[p as int], iid as u64));
                    assert(merged =~~= emitted_pairs(out@, dots as int));
                    assert forall|j: int|
                        0 <= j < merged.len() implies (#[trigger] out@[dots + j]).1 == merged[j].1
                        && out@[dots + j].2@ == merged[j].0 by {
                        assert(emitted_pairs(out@, dots as int)[j] == (
                            out@[dots + j].2@,
                            out@[dots + j].1,
                        ));
                    }
                }
                return Some(out);
            }
        k += 1;
        }
        proof {
            assert(merge_from(
                pre.lv(),
                srcs_v,
                k as int,
                0,
                crate::metadata::strs_deep(seen@),
            ) =~= Seq::<(Seq<char>, InodeKind)>::empty());
            assert(merged =~~= emitted_pairs(out@, dots as int));
            assert forall|j: int|
                0 <= j < merged.len() implies (#[trigger] out@[dots + j]).1 == merged[j].1 && out@[
                dots + j
            ].2@ == merged[j].0 by {
                assert(emitted_pairs(out@, dots as int)[j] == (out@[dots + j].2@, out@[dots + j].1));
            }
        }
        Some(out)
    }
}

proof fn lemma_xattr_find_at(xs: Seq<(Seq<u8>, Seq<u8>)>, n: Seq<u8>, i: int)
    requires
        0 <= i < xs.len(),
        xs[i].0 == n,
        forall|j: int| 0 <= j < i ==> xs[j].0 != n,
    ensures
        xattr_find(xs, n) == Some(xs[i].1),
    decreases xs.len(),
{
    if i > 0 {
        assert(xs.drop_first()[i - 1] == xs[i]);
        assert(forall|j: int| 0 <= j < i - 1 ==> xs.drop_first()[j] == xs[j + 1]);
        lemma_xattr_find_at(xs.drop_first(), n, i - 1);
    }
}

proof fn lemma_xattr_find_none(xs: Seq<(Seq<u8>, Seq<u8>)>, n: Seq<u8>)
    requires
        forall|j: int| 0 <= j < xs.len() ==> (#[trigger] xs[j]).0 != n,
    ensures
        xattr_find(xs, n) is None,
    decreases xs.len(),
{
    if xs.len() > 0 {
        assert(forall|j: int| 0 <= j < xs.len() - 1 ==> xs.drop_first()[j] == xs[j + 1]);
        lemma_xattr_find_none(xs.drop_first(), n);
    }
}

proof fn lemma_xattr_names_step(xs: Seq<(Seq<u8>, Seq<u8>)>, i: int)
    requires
        0 <= i < xs.len(),
    ensures
        xattr_names(xs.subrange(i, xs.len() as int)) == xs[i].0 + seq![0u8] + xattr_names(
            xs.subrange(i + 1, xs.len() as int),
        ),
{
    let tail = xs.subrange(i, xs.len() as int);
    assert(tail[0] == xs[i]);
    assert(tail.drop_first() =~= xs.subrange(i + 1, xs.len() as int));
}

/// Unfolding `first_hit` one source at a time.
proof fn lemma_first_hit_step(layers: Seq<ParcelV>, srcs: Seq<(u32, u32)>, k: int, name: Seq<char>)
    requires
        0 <= k < srcs.len(),
    ensures
        first_hit(layers, srcs.subrange(k, srcs.len() as int), name) == (if srcs[k].0
            < layers.len() {
            match dir_find(dir_entries(layers[srcs[k].0 as int], srcs[k].1 as u64), name) {
                Some(e) => Some((srcs[k].0, e.child, e.kind)),
                None => first_hit(layers, srcs.subrange(k + 1, srcs.len() as int), name),
            }
        } else {
            first_hit(layers, srcs.subrange(k + 1, srcs.len() as int), name)
        }),
{
    let tail = srcs.subrange(k, srcs.len() as int);
    assert(tail[0] == srcs[k]);
    assert(tail.drop_first() =~= srcs.subrange(k + 1, srcs.len() as int));
}

/// Unfolding `collect_hits` one source at a time: the hits of the tail
/// follow the head's hit, if any.
proof fn lemma_collect_hits_step(layers: Seq<ParcelV>, srcs: Seq<(u32, u32)>, j: int, name: Seq<char>)
    requires
        0 <= j < srcs.len(),
    ensures
        collect_hits(layers, srcs.subrange(j, srcs.len() as int), name) == (if srcs[j].0
            < layers.len() {
            match lookup_spec(layers[srcs[j].0 as int], srcs[j].1 as u64, name) {
                Some(c) => seq![(srcs[j].0, c as u32)] + collect_hits(
                    layers,
                    srcs.subrange(j + 1, srcs.len() as int),
                    name,
                ),
                None => collect_hits(layers, srcs.subrange(j + 1, srcs.len() as int), name),
            }
        } else {
            collect_hits(layers, srcs.subrange(j + 1, srcs.len() as int), name)
        }),
{
    let tail = srcs.subrange(j, srcs.len() as int);
    assert(tail[0] == srcs[j]);
    assert(tail.drop_first() =~= srcs.subrange(j + 1, srcs.len() as int));
}

/// Every hit's layer index is a real layer.
proof fn lemma_collect_hits_pids(layers: Seq<ParcelV>, srcs: Seq<(u32, u32)>, name: Seq<char>)
    ensures
        forall|i: int|
            0 <= i < collect_hits(layers, srcs, name).len() ==> (#[trigger] collect_hits(
                layers,
                srcs,
                name,
            )[i]).0 < layers.len(),
    decreases srcs.len(),
{
    if srcs.len() > 0 {
        lemma_collect_hits_pids(layers, srcs.drop_first(), name);
        let full = collect_hits(layers, srcs, name);
        let rest = collect_hits(layers, srcs.drop_first(), name);
        assert forall|i: int| 0 <= i < full.len() implies (#[trigger] full[i]).0
            < layers.len() by {
            if srcs[0].0 < layers.len() {
                match lookup_spec(layers[srcs[0].0 as int], srcs[0].1 as u64, name) {
                    Some(_) => {
                        if i > 0 {
                            assert(full[i] == rest[i - 1]);
                        }
                    },
                    None => {
                        assert(full[i] == rest[i]);
                    },
                }
            } else {
                assert(full[i] == rest[i]);
            }
        }
    }
}

/// Each source whose layer resolves the name contributes its hit to the
/// collected list.
proof fn lemma_collect_hits_member(
    layers: Seq<ParcelV>,
    srcs: Seq<(u32, u32)>,
    name: Seq<char>,
    j: int,
)
    requires
        0 <= j < srcs.len(),
        srcs[j].0 < layers.len(),
        lookup_spec(layers[srcs[j].0 as int], srcs[j].1 as u64, name) is Some,
    ensures
        collect_hits(layers, srcs, name).contains(
            (
                srcs[j].0,
                lookup_spec(layers[srcs[j].0 as int], srcs[j].1 as u64, name).unwrap() as u32,
            ),
        ),
    decreases srcs.len(),
{
    let hit = (srcs[j].0, lookup_spec(layers[srcs[j].0 as int], srcs[j].1 as u64, name).unwrap()
        as u32);
    if j == 0 {
        assert(collect_hits(layers, srcs, name)[0] == hit);
    } else {
        assert(srcs.drop_first()[j - 1] == srcs[j]);
        lemma_collect_hits_member(layers, srcs.drop_first(), name, j - 1);
        let rest = collect_hits(layers, srcs.drop_first(), name);
        let w = choose|w: int| 0 <= w < rest.len() && rest[w] == hit;
        let full = collect_hits(layers, srcs, name);
        if srcs[0].0 < layers.len() {
            match lookup_spec(layers[srcs[0].0 as int], srcs[0].1 as u64, name) {
                Some(_) => {
                    assert(full[w + 1] == hit);
                },
                None => {
                    assert(full[w] == hit);
                },
            }
        } else {
            assert(full[w] == hit);
        }
    }
}

proof fn lemma_pair_update(s: Seq<((u32, u32), u64)>, i: int, v: u64, k: (u32, u32))
    requires
        0 <= i < s.len(),
        s[i].0 == k,
        forall|a: int, b: int| 0 <= a < b < s.len() ==> (#[trigger] s[a]).0 != (#[trigger] s[b]).0,
    ensures
        forall|k2: (u32, u32)|
            pair_find(#[trigger] s.update(i, (k, v)), k2) == if k2 == k {
                Some(v)
            } else {
                pair_find(s, k2)
            },
        forall|a: int, b: int|
            0 <= a < b < s.update(i, (k, v)).len() ==> (#[trigger] s.update(i, (k, v))[a]).0 != (
            #[trigger] s.update(i, (k, v))[b]).0,
    decreases s.len(),
{
    let t = s.update(i, (k, v));
    assert forall|k2: (u32, u32)|
        pair_find(t, k2) == (if k2 == k {
            Some(v)
        } else {
            pair_find(s, k2)
        }) by {
        lemma_pair_update_one(s, i, v, k, k2);
    }
    assert forall|a: int, b: int| 0 <= a < b < t.len() implies (#[trigger] t[a]).0
        != (#[trigger] t[b]).0 by {
        assert(t[a].0 == s[a].0 && t[b].0 == s[b].0);
    }
}

proof fn lemma_pair_update_one(s: Seq<((u32, u32), u64)>, i: int, v: u64, k: (u32, u32), k2: (
    u32,
    u32,
))
    requires
        0 <= i < s.len(),
        s[i].0 == k,
        forall|a: int, b: int| 0 <= a < b < s.len() ==> (#[trigger] s[a]).0 != (#[trigger] s[b]).0,
    ensures
        pair_find(s.update(i, (k, v)), k2) == if k2 == k {
            Some(v)
        } else {
            pair_find(s, k2)
        },
    decreases s.len(),
{
    let t = s.update(i, (k, v));
    if i == 0 {
        assert(t[0] == (k, v));
        assert(t.drop_first() =~= s.drop_first());
        if k2 == k {
        } else {
            assert(s[0].0 == k);
        }
    } else {
        assert(t[0] == s[0]);
        assert(t.drop_first() =~= s.drop_first().update(i - 1, (k, v)));
        assert(s.drop_first()[i - 1] == s[i]);
        assert forall|a: int, b: int|
            0 <= a < b < s.drop_first().len() implies (#[trigger] s.drop_first()[a]).0
            != (#[trigger] s.drop_first()[b]).0 by {
            assert(s.drop_first()[a] == s[a + 1]);
            assert(s.drop_first()[b] == s[b + 1]);
        }
        assert(s[0].0 != s[i].0);
        lemma_pair_update_one(s.drop_first(), i - 1, v, k, k2);
    }
}

} // verus!
