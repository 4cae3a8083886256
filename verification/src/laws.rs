use vstd::prelude::*;

use crate::codec::{lemma_yheader_inj, yheader};
use crate::error::ParcelError;
use crate::inode::ContentV;
use crate::parcel::{
    expand_write_spec, find_term, load_image, magic_seq, read_spec, realloc_spec, write_spec,
    ParcelV,
};
use crate::table::{lemma_tbl_find_first_idx, lemma_tbl_find_some_idx, tbl_find};
use crate::PARCEL_VERSION;

verus! {

/// Storing and loading round-trips the container's logical content: when
/// one byte string carries the header image of a stored container and a
/// loaded one, the two containers agree on version, root inode, metadata,
/// inode table and content table.  Together with `store`'s promise that
/// the bytes it writes carry the stored container's image and `load`'s
/// promise that it returns a container whose image the bytes carry, this
/// is the round trip for every sequence of mutations: whatever state they
/// reach, storing it and loading the result yields that state back.
pub proof fn lemma_store_load_round_trip(pre: ParcelV, bytes: Seq<u8>, post: ParcelV)
    requires
        find_term(bytes, 4) is Some,
        crate::yaml::yaml_doc(bytes.subrange(4, find_term(bytes, 4).unwrap())) == Some(
            yheader(pre.version, pre.root_inode, pre.metadata, pre.inodes, pre.content),
        ),
        crate::yaml::yaml_doc(bytes.subrange(4, find_term(bytes, 4).unwrap())) == Some(
            yheader(post.version, post.root_inode, post.metadata, post.inodes, post.content),
        ),
    ensures
        post.logical() == pre.logical(),
{
    lemma_yheader_inj(
        pre.version,
        pre.root_inode,
        pre.metadata,
        pre.inodes,
        pre.content,
        post.version,
        post.root_inode,
        post.metadata,
        post.inodes,
        post.content,
    );
}

/// The bytes `store` writes for a well-formed container are loadable:
/// they satisfy everything `load` demands in order to succeed, so a
/// store followed by a load cannot fail.
pub proof fn lemma_store_output_loads(pv: ParcelV, bytes: Seq<u8>)
    requires
        pv.wf(),
        pv.inodes.len() > 0,
        pv.version == PARCEL_VERSION,
        bytes.len() >= 9,
        bytes.subrange(0, 4) == magic_seq(),
        find_term(bytes, 4) is Some,
        crate::yaml::yaml_doc(bytes.subrange(4, find_term(bytes, 4).unwrap())) == Some(
            yheader(pv.version, pv.root_inode, pv.metadata, pv.inodes, pv.content),
        ),
    ensures
        load_image(bytes, pv.version, pv.root_inode, pv.metadata, pv.inodes, pv.content),
{
    assert forall|i: int| 0 <= i < pv.inodes.len() implies (#[trigger] pv.inodes[i]).0
        < u64::MAX by {
        assert(pv.inodes[i].0 < pv.next_inode);
    }
}

/// After a store, reading a freshly queued file from its start with no
/// size bound returns exactly the payload that was queued.
pub proof fn lemma_read_after_store(
    pre: ParcelV,
    post: ParcelV,
    bytes: Seq<u8>,
    ino: u64,
    b: Seq<u8>,
)
    requires
        pre.wf(),
        pre.queued(ino) == Some(b),
        post == (ParcelV {
            file_offset: post.file_offset,
            to_add: Seq::<(u64, Seq<u8>)>::empty(),
            on_disk: true,
            ..pre
        }),
        post.file_offset is Some,
        ({
            let fo = post.file_offset.unwrap() as int;
            let f = pre.slot_of(ino).unwrap();
            fo + f.offset + b.len() <= bytes.len() && bytes.subrange(
                fo + f.offset,
                fo + f.offset + b.len(),
            ) == b
        }),
    ensures
        read_spec(post, bytes, ino, 0, None) == Ok::<Seq<u8>, ParcelError>(b),
{
    lemma_tbl_find_first_idx(pre.to_add, ino);
    let j = choose|j: int|
        0 <= j < pre.to_add.len() && (#[trigger] pre.to_add[j]).0 == ino && pre.to_add[j].1
            == tbl_find(pre.to_add, ino).unwrap() && (forall|a: int|
            0 <= a < j ==> pre.to_add[a].0 != ino);
    assert(pre.slot_of(ino) is Some);
    let f = pre.slot_of(ino).unwrap();
    assert(f.size == b.len());
    assert(post.content_of(ino) == pre.content_of(ino));
}

/// Reallocating a file's reserved capacity upward leaves its readable
/// content untouched: a full read before and after the realloc returns
/// the same bytes, as long as the file was readable to begin with.
pub proof fn lemma_realloc_keeps_content(pv: ParcelV, data: Seq<u8>, ino: u64, c: u64)
    requires
        pv.wf(),
        pv.on_disk,
        pv.slot_of(ino) is Some,
        c >= pv.slot_of(ino).unwrap().capacity,
        read_spec(pv, data, ino, 0, None) is Ok,
        realloc_spec(pv, data, ino, c).2 is Ok,
    ensures
        ({
            let grown = realloc_spec(pv, data, ino, c);
            read_spec(grown.0, grown.1, ino, 0, None) == read_spec(pv, data, ino, 0, None)
        }),
{
    let f = pv.slot_of(ino).unwrap();
    let fo = pv.file_offset.unwrap() as int;
    let grown = realloc_spec(pv, data, ino, c);
    let pv2 = grown.0;
    let d2 = grown.1;
    lemma_tbl_find_some_idx(pv.content, ino);
    assert(f.offset + f.capacity <= pv.next_offset);
    assert(fo + f.offset + f.size <= data.len());
    if c == f.capacity {
    } else {
        assert(c > f.capacity);
        let f2 = slot_after_grow(pv, ino, c);
        crate::parcel::lemma_set_slot_find(pv, ino, f2);
        assert(pv2.content_of(ino) == Some(ContentV::File(f2)));
        if pv.next_offset == f.offset + f.capacity {
            assert(read_spec(pv2, d2, ino, 0, None) == read_spec(pv, data, ino, 0, None)) by {
                assert(d2.subrange(fo + f.offset, fo + f.offset + f.size) =~= data.subrange(
                    fo + f.offset,
                    fo + f.offset + f.size,
                ));
            }
        } else {
            let saved = if f.size == 0 {
                Seq::<u8>::empty()
            } else {
                data.subrange(fo + f.offset, fo + f.offset + f.size)
            };
            assert(read_spec(pv2, d2, ino, 0, None) == read_spec(pv, data, ino, 0, None)) by {
                assert(d2.subrange(fo + f2.offset, fo + f2.offset + f.size) =~= saved);
                assert(data.subrange(fo + f.offset, fo + f.offset + f.size) =~= saved);
            }
        }
    }
}

/// After reallocating a file's slot to capacity `c`, a write of at most
/// `c` bytes at the start succeeds, and reading that many bytes back
/// returns exactly what was written.
pub proof fn lemma_write_read_after_realloc(
    pv: ParcelV,
    data: Seq<u8>,
    ino: u64,
    c: u64,
    buf: Seq<u8>,
)
    requires
        pv.wf(),
        pv.on_disk,
        pv.slot_of(ino) is Some,
        c >= pv.slot_of(ino).unwrap().capacity,
        buf.len() <= c,
        read_spec(pv, data, ino, 0, None) is Ok,
        realloc_spec(pv, data, ino, c).2 is Ok,
        pv.file_offset.unwrap() + pv.next_offset + c <= usize::MAX,
    ensures
        ({
            let grown = realloc_spec(pv, data, ino, c);
            let written = write_spec(grown.0, grown.1, ino, 0, buf);
            &&& written.2 == Ok::<u64, ParcelError>(buf.len() as u64)
            &&& read_spec(written.0, written.1, ino, 0, Some(buf.len() as u64)) == Ok::<
                Seq<u8>,
                ParcelError,
            >(buf)
        }),
{
    let f = pv.slot_of(ino).unwrap();
    let fo = pv.file_offset.unwrap() as int;
    let grown = realloc_spec(pv, data, ino, c);
    let pv2 = grown.0;
    let d2 = grown.1;
    lemma_tbl_find_some_idx(pv.content, ino);
    assert(f.offset + f.capacity <= pv.next_offset);
    assert(fo + f.offset + f.size <= data.len());
    if c == f.capacity {
        assert(pv2 == pv && d2 == data);
    } else {
        let fg = slot_after_grow(pv, ino, c);
        crate::parcel::lemma_set_slot_find(pv, ino, fg);
        assert(pv2.slot_of(ino) == Some(fg));
    }
    let f2 = pv2.slot_of(ino).unwrap();
    assert(f2.capacity == c && f2.size == f.size && f2.offset + f2.capacity <= pv2.next_offset);
    assert(d2.len() >= fo + f2.offset + f2.size);
    let written = write_spec(pv2, d2, ino, 0, buf);
    let pv3 = written.0;
    let d3 = written.1;
    assert(written.2 == Ok::<u64, ParcelError>(buf.len() as u64));
    let f3 = slot_after_write(pv2, ino, buf.len() as u64);
    crate::parcel::lemma_set_slot_find(pv2, ino, f3);
    assert(pv3.slot_of(ino) == Some(f3));
    assert(read_spec(pv3, d3, ino, 0, Some(buf.len() as u64)) == Ok::<Seq<u8>, ParcelError>(buf))
        by {
        if buf.len() > 0 {
            assert(d3.subrange(fo + f3.offset, fo + f3.offset + buf.len()) =~= buf);
        } else {
            assert(d3.subrange(fo + f3.offset, fo + f3.offset) =~= buf);
        }
    }
}

/// The slot realloc leaves behind for a file growing to capacity `c`.
pub open spec fn slot_after_grow(pv: ParcelV, ino: u64, c: u64) -> crate::inode::FileReference {
    let f = pv.slot_of(ino).unwrap();
    if pv.next_offset == f.offset + f.capacity {
        crate::inode::FileReference { offset: f.offset, size: f.size, capacity: c }
    } else {
        crate::inode::FileReference { offset: pv.next_offset, size: f.size, capacity: c }
    }
}

/// The slot a write reaching byte `n` leaves behind.
pub open spec fn slot_after_write(pv: ParcelV, ino: u64, n: u64) -> crate::inode::FileReference {
    let f = pv.slot_of(ino).unwrap();
    crate::inode::FileReference {
        offset: f.offset,
        size: if f.size >= n {
            f.size
        } else {
            n
        },
        capacity: f.capacity,
    }
}

/// Writing through `expand_write` always succeeds on a regular file that
/// is readable, and reading the written window back returns the buffer.
pub proof fn lemma_expand_write_read(pv: ParcelV, data: Seq<u8>, ino: u64, offset: u64, buf: Seq<u8>)
    requires
        pv.wf(),
        pv.on_disk,
        pv.slot_of(ino) is Some,
        buf.len() > 0,
        offset + buf.len() <= u64::MAX,
        pv.file_offset.unwrap() + pv.slot_of(ino).unwrap().offset + pv.slot_of(ino).unwrap().size
            <= data.len(),
        pv.file_offset.unwrap() + pv.next_offset + (offset + buf.len()) <= usize::MAX,
    ensures
        ({
            let done = expand_write_spec(pv, data, ino, offset, buf);
            &&& done.2 == Ok::<u64, ParcelError>(buf.len() as u64)
            &&& read_spec(done.0, done.1, ino, offset, Some(buf.len() as u64)) == Ok::<
                Seq<u8>,
                ParcelError,
            >(buf)
        }),
{
    let f = pv.slot_of(ino).unwrap();
    let fo = pv.file_offset.unwrap() as int;
    lemma_tbl_find_some_idx(pv.content, ino);
    assert(f.offset + f.capacity <= pv.next_offset);
    if offset + buf.len() > f.size {
        let c = (offset + buf.len()) as u64;
        let grown = realloc_spec(pv, data, ino, c);
        assert(grown.2 is Ok);
        let pv2 = grown.0;
        let d2 = grown.1;
        if c == f.capacity {
            assert(pv2.slot_of(ino) == Some(f));
        } else if c > f.capacity {
            let fg = slot_after_grow(pv, ino, c);
            crate::parcel::lemma_set_slot_find(pv, ino, fg);
            assert(pv2.slot_of(ino) == Some(fg));
        } else {
            let fg = crate::inode::FileReference {
                offset: f.offset,
                size: if f.size <= c {
                    f.size
                } else {
                    c
                },
                capacity: c,
            };
            crate::parcel::lemma_set_slot_find(pv, ino, fg);
            assert(pv2.slot_of(ino) == Some(fg));
        }
        let f2 = pv2.slot_of(ino).unwrap();
        assert(offset + buf.len() <= f2.capacity);
        assert(f2.offset == f.offset || f2.offset == pv.next_offset);
        let written = write_spec(pv2, d2, ino, offset, buf);
        assert(written.2 == Ok::<u64, ParcelError>(buf.len() as u64));
        let f3 = slot_after_write(pv2, ino, (offset + buf.len()) as u64);
        crate::parcel::lemma_set_slot_find(pv2, ino, f3);
        assert(written.0.slot_of(ino) == Some(f3));
        assert(f3.size == offset + buf.len());
        assert(read_spec(written.0, written.1, ino, offset, Some(buf.len() as u64)) == Ok::<
            Seq<u8>,
            ParcelError,
        >(buf)) by {
            assert(written.1.subrange(
                fo + f3.offset + offset,
                fo + f3.offset + offset + buf.len(),
            ) =~= buf);
        }
    } else {
        let written = write_spec(pv, data, ino, offset, buf);
        assert(written.2 == Ok::<u64, ParcelError>(buf.len() as u64));
        let f3 = slot_after_write(pv, ino, (offset + buf.len()) as u64);
        crate::parcel::lemma_set_slot_find(pv, ino, f3);
        assert(written.0.slot_of(ino) == Some(f3));
        assert(f3.size == f.size);
        assert(read_spec(written.0, written.1, ino, offset, Some(buf.len() as u64)) == Ok::<
            Seq<u8>,
            ParcelError,
        >(buf)) by {
            assert(written.1.subrange(
                fo + f3.offset + offset,
                fo + f3.offset + offset + buf.len(),
            ) =~= buf);
        }
    }
}

/// Each header-region relocation grows it by at least a fifth: the
/// region's size is multiplied by at least six fifths, so the number of
/// relocations a growing parcel performs is logarithmic in its final
/// size, and `store` rewrites the payload region O(log k) times over k
/// stores that each grow the header by a constant.
pub proof fn lemma_amortised_growth(cur: u64, fo: int)
    requires
        fo >= cur + (cur + 4) / 5,
    ensures
        5 * fo >= 6 * cur,
{
    assert(5 * ((cur + 4) / 5) >= cur) by {
        assert((cur + 4) == 5 * ((cur + 4) / 5) + ((cur + 4) % 5)) by {
            vstd::arithmetic::div_mod::lemma_fundamental_div_mod((cur + 4) as int, 5);
        }
    }
}

/// Compounding the growth over a run of relocations: after `n`
/// relocating stores the header region is at least `(6/5)^n` times its
/// starting size, so a parcel that ends up with a header region of size
/// `S` has relocated it only `O(log S)` times, and `k` stores that each
/// grow the header by a constant rewrite the payload region `O(log k)`
/// times.
pub proof fn lemma_growth_compound(offs: Seq<int>)
    requires
        offs.len() >= 1,
        offs[0] >= 0,
        forall|i: int| 0 <= i < offs.len() - 1 ==> #[trigger] offs[i + 1] >= offs[i] + (offs[i] + 4) / 5,
    ensures
        vstd::arithmetic::power::pow(5, (offs.len() - 1) as nat) * offs.last()
            >= vstd::arithmetic::power::pow(6, (offs.len() - 1) as nat) * offs[0],
    decreases offs.len(),
{
    let n = offs.len() as int;
    if n == 1 {
        assert(vstd::arithmetic::power::pow(5, 0) == 1) by {
            vstd::arithmetic::power::lemma_pow0(5);
        }
        assert(vstd::arithmetic::power::pow(6, 0) == 1) by {
            vstd::arithmetic::power::lemma_pow0(6);
        }
    } else {
        let head = offs.drop_last();
        assert forall|i: int|
            0 <= i < head.len() - 1 implies #[trigger] head[i + 1] >= head[i] + (head[i] + 4)
            / 5 by {
            assert(head[i + 1] == offs[i + 1] && head[i] == offs[i]);
        }
        lemma_growth_compound(head);
        let p5 = vstd::arithmetic::power::pow(5, (n - 2) as nat);
        let p6 = vstd::arithmetic::power::pow(6, (n - 2) as nat);
        let prev = offs[n - 2];
        let lastv = offs.last();
        assert(head.last() == prev && head[0] == offs[0]);
        assert(p5 * prev >= p6 * offs[0]);
        lemma_offsets_nonneg(offs, n - 2);
        let j = n - 2;
        assert(offs[j + 1] >= offs[j] + (offs[j] + 4) / 5);
        assert(offs[j + 1] == lastv && offs[j] == prev);
        // one relocation multiplies the size by at least six fifths
        assert(5 * lastv >= 6 * prev) by {
            lemma_amortised_growth_int(prev, lastv);
        }
        assert(p5 >= 0 && p6 >= 0) by {
            vstd::arithmetic::power::lemma_pow_positive(5, (n - 2) as nat);
            vstd::arithmetic::power::lemma_pow_positive(6, (n - 2) as nat);
        }
        assert(vstd::arithmetic::power::pow(5, (n - 1) as nat) == 5 * p5) by {
            vstd::arithmetic::power::lemma_pow1(5);
            vstd::arithmetic::power::lemma_pow_adds(5, 1, (n - 2) as nat);
        }
        assert(vstd::arithmetic::power::pow(6, (n - 1) as nat) == 6 * p6) by {
            vstd::arithmetic::power::lemma_pow1(6);
            vstd::arithmetic::power::lemma_pow_adds(6, 1, (n - 2) as nat);
        }
        assert((5 * p5) * lastv >= (6 * p6) * offs[0]) by (nonlinear_arith)
            requires
                p5 * prev >= p6 * offs[0],
                5 * lastv >= 6 * prev,
                p5 >= 0,
                p6 >= 0,
                offs[0] >= 0,
                prev >= 0,
        {
        }
    }
}

proof fn lemma_offsets_nonneg(offs: Seq<int>, i: int)
    requires
        offs.len() >= 1,
        offs[0] >= 0,
        forall|j: int| 0 <= j < offs.len() - 1 ==> #[trigger] offs[j + 1] >= offs[j] + (offs[j]
            + 4) / 5,
        0 <= i < offs.len(),
    ensures
        offs[i] >= 0,
    decreases i,
{
    if i > 0 {
        lemma_offsets_nonneg(offs, i - 1);
        let j = i - 1;
        assert(offs[j + 1] >= offs[j] + (offs[j] + 4) / 5);
        assert((offs[j] + 4) / 5 >= 0) by {
            vstd::arithmetic::div_mod::lemma_fundamental_div_mod(offs[j] + 4, 5);
        }
    }
}

/// One growing relocation multiplies the header region by at least six
/// fifths.
proof fn lemma_amortised_growth_int(cur: int, fo: int)
    requires
        cur >= 0,
        fo >= cur + (cur + 4) / 5,
    ensures
        5 * fo >= 6 * cur,
{
    assert(5 * ((cur + 4) / 5) >= cur) by {
        vstd::arithmetic::div_mod::lemma_fundamental_div_mod(cur + 4, 5);
    }
}

} // verus!
