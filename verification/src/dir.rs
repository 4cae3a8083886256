use vstd::prelude::*;

use crate::inode::{DirEntry, DirEntryV};

verus! {

/// The first entry carrying `name`, if any.
pub open spec fn dir_find(s: Seq<DirEntryV>, name: Seq<char>) -> Option<DirEntryV>
    decreases s.len(),
{
    if s.len() == 0 {
        None
    } else if s[0].name == name {
        Some(s[0])
    } else {
        dir_find(s.drop_first(), name)
    }
}

/// No two entries share a name.
pub open spec fn dir_names_unique(s: Seq<DirEntryV>) -> bool {
    forall|i: int, j: int| 0 <= i < j < s.len() ==> s[i].name != s[j].name
}

/// The list after binding `e.name` to `e`: the first entry of that name is
/// replaced in place, or `e` is appended when the name is new.
pub open spec fn dir_upsert(s: Seq<DirEntryV>, e: DirEntryV) -> Seq<DirEntryV>
    decreases s.len(),
{
    if s.len() == 0 {
        seq![e]
    } else if s[0].name == e.name {
        seq![e] + s.drop_first()
    } else {
        seq![s[0]] + dir_upsert(s.drop_first(), e)
    }
}

proof fn lemma_dir_find_unfold(s: Seq<DirEntryV>, name: Seq<char>)
    requires
        s.len() > 0,
    ensures
        dir_find(s, name) == if s[0].name == name {
            Some(s[0])
        } else {
            dir_find(s.drop_first(), name)
        },
{
}

/// When no entry has the name, the find returns nothing.
pub proof fn lemma_dir_find_none(s: Seq<DirEntryV>, name: Seq<char>)
    requires
        forall|j: int| 0 <= j < s.len() ==> (#[trigger] s[j]).name != name,
    ensures
        dir_find(s, name) is None,
    decreases s.len(),
{
    if s.len() > 0 {
        assert(forall|j: int| 0 <= j < s.len() - 1 ==> s.drop_first()[j] == s[j + 1]);
        lemma_dir_find_none(s.drop_first(), name);
    }
}

/// When `i` is the first position carrying the name, the find returns it.
pub proof fn lemma_dir_find_at(s: Seq<DirEntryV>, name: Seq<char>, i: int)
    requires
        0 <= i < s.len(),
        s[i].name == name,
        forall|j: int| 0 <= j < i ==> s[j].name != name,
    ensures
        dir_find(s, name) == Some(s[i]),
    decreases s.len(),
{
    if i > 0 {
        assert(s.drop_first()[i - 1] == s[i]);
        assert(forall|j: int| 0 <= j < i - 1 ==> s.drop_first()[j] == s[j + 1]);
        lemma_dir_find_at(s.drop_first(), name, i - 1);
    }
}

proof fn lemma_dir_upsert_find_one(s: Seq<DirEntryV>, e: DirEntryV, n: Seq<char>)
    ensures
        dir_find(dir_upsert(s, e), n) == if n == e.name {
            Some(e)
        } else {
            dir_find(s, n)
        },
    decreases s.len(),
{
    let t = dir_upsert(s, e);
    if s.len() == 0 {
        assert(t == seq![e]);
        assert(t[0] == e);
        assert(t.drop_first() =~= Seq::<DirEntryV>::empty());
        lemma_dir_find_unfold(t, n);
    } else if s[0].name == e.name {
        assert(t == seq![e] + s.drop_first());
        assert(t[0] == e);
        assert(t.drop_first() =~= s.drop_first());
        lemma_dir_find_unfold(t, n);
        lemma_dir_find_unfold(s, n);
    } else {
        assert(t == seq![s[0]] + dir_upsert(s.drop_first(), e));
        assert(t.len() > 0);
        assert(t[0] == s[0]);
        assert(t.drop_first() =~= dir_upsert(s.drop_first(), e));
        lemma_dir_find_unfold(t, n);
        lemma_dir_find_unfold(s, n);
        lemma_dir_upsert_find_one(s.drop_first(), e, n);
    }
}

/// Binding a name finds that entry afterwards and disturbs no other name;
/// name uniqueness is preserved.
pub proof fn lemma_dir_upsert_find(s: Seq<DirEntryV>, e: DirEntryV)
    ensures
        forall|n: Seq<char>|
            dir_find(#[trigger] dir_upsert(s, e), n) == if n == e.name {
                Some(e)
            } else {
                dir_find(s, n)
            },
        dir_names_unique(s) ==> dir_names_unique(dir_upsert(s, e)),
    decreases s.len(),
{
    assert forall|n: Seq<char>|
        dir_find(#[trigger] dir_upsert(s, e), n) == if n == e.name {
            Some(e)
        } else {
            dir_find(s, n)
        } by {
        lemma_dir_upsert_find_one(s, e, n);
    }
    let t = dir_upsert(s, e);
    if dir_names_unique(s) {
        if s.len() == 0 {
        } else if s[0].name == e.name {
            assert forall|i: int, j: int| 0 <= i < j < t.len() implies #[trigger] t[i].name
                != #[trigger] t[j].name by {
                assert(t[j] == s[j]);
                if i > 0 {
                    assert(t[i] == s[i]);
                }
            }
        } else {
            lemma_dir_upsert_find(s.drop_first(), e);
            let u = dir_upsert(s.drop_first(), e);
            assert forall|i: int, j: int| 0 <= i < j < t.len() implies #[trigger] t[i].name
                != #[trigger] t[j].name by {
                assert(t[0] == s[0]);
                assert(forall|a: int| 0 <= a < u.len() ==> t[a + 1] == #[trigger] u[a]);
                if i == 0 {
                    // the head's name differs from every name in u
                    lemma_dir_upsert_find_one(s.drop_first(), e, t[j].name);
                    if t[j].name == e.name {
                    } else {
                        lemma_dir_find_idx(u, t[j].name, j - 1);
                        if dir_find(s.drop_first(), t[j].name) is Some {
                            lemma_dir_find_has_idx(s.drop_first(), t[j].name);
                        }
                    }
                }
            }
        }
    }
}

/// An entry at a position makes the find succeed for its name.
proof fn lemma_dir_find_idx(s: Seq<DirEntryV>, name: Seq<char>, i: int)
    requires
        0 <= i < s.len(),
        s[i].name == name,
    ensures
        dir_find(s, name) is Some,
    decreases s.len(),
{
    if s.len() > 0 && s[0].name != name {
        assert(s.drop_first()[i - 1] == s[i]);
        lemma_dir_find_idx(s.drop_first(), name, i - 1);
    }
}

/// A successful find is witnessed by some position.
proof fn lemma_dir_find_has_idx(s: Seq<DirEntryV>, name: Seq<char>)
    requires
        dir_find(s, name) is Some,
    ensures
        exists|i: int|
            0 <= i < s.len() && (#[trigger] s[i]).name == name && s[i] == dir_find(
                s,
                name,
            ).unwrap(),
    decreases s.len(),
{
    if s.len() > 0 {
        if s[0].name == name {
            assert(s[0].name == name);
        } else {
            lemma_dir_find_has_idx(s.drop_first(), name);
            let i = choose|i: int|
                0 <= i < s.drop_first().len() && (#[trigger] s.drop_first()[i]).name == name
                    && s.drop_first()[i] == dir_find(s.drop_first(), name).unwrap();
            assert(s[i + 1] == s.drop_first()[i]);
        }
    }
}

/// When position `j` is the first holding `e.name`, the upsert is an
/// in-place update there.
pub proof fn lemma_dir_upsert_at(s: Seq<DirEntryV>, e: DirEntryV, j: int)
    requires
        0 <= j < s.len(),
        s[j].name == e.name,
        forall|a: int| 0 <= a < j ==> s[a].name != e.name,
    ensures
        dir_upsert(s, e) == s.update(j, e),
    decreases s.len(),
{
    if j == 0 {
        assert(dir_upsert(s, e) =~= s.update(0, e));
    } else {
        assert(s.drop_first()[j - 1] == s[j]);
        assert(forall|a: int| 0 <= a < j - 1 ==> s.drop_first()[a] == s[a + 1]);
        lemma_dir_upsert_at(s.drop_first(), e, j - 1);
        assert(dir_upsert(s, e) =~= s.update(j, e));
    }
}

/// When no entry holds `e.name`, the upsert is an append.
pub proof fn lemma_dir_upsert_none(s: Seq<DirEntryV>, e: DirEntryV)
    requires
        forall|a: int| 0 <= a < s.len() ==> (#[trigger] s[a]).name != e.name,
    ensures
        dir_upsert(s, e) == s.push(e),
    decreases s.len(),
{
    if s.len() == 0 {
        assert(dir_upsert(s, e) =~= s.push(e));
    } else {
        assert(forall|a: int| 0 <= a < s.len() - 1 ==> s.drop_first()[a] == s[a + 1]);
        lemma_dir_upsert_none(s.drop_first(), e);
        assert(dir_upsert(s, e) =~= s.push(e));
    }
}

/// The position of the first entry named `name`, scanning front to back.
pub fn dir_pos(d: &Vec<DirEntry>, name: &String) -> (r: Option<usize>)
    ensures
        match r {
            Some(i) => 0 <= i < d@.len() && d@[i as int]@.name == name@ && (forall|j: int|
                0 <= j < i ==> d@[j]@.name != name@),
            None => forall|j: int| 0 <= j < d@.len() ==> d@[j]@.name != name@,
        },
{
    let mut i: usize = 0;
    while i < d.len()
        invariant
            i <= d@.len(),
            forall|j: int| 0 <= j < i ==> d@[j]@.name != name@,
        decreases d@.len() - i,
    {
        if d[i].name == *name {
            return Some(i);
        }
        i += 1;
    }
    None
}

} // verus!
