use vstd::prelude::*;

verus! {

/// The first value bound to key `k` in an association list, if any.
pub open spec fn tbl_find<T>(s: Seq<(u64, T)>, k: u64) -> Option<T>
    decreases s.len(),
{
    if s.len() == 0 {
        None
    } else if s[0].0 == k {
        Some(s[0].1)
    } else {
        tbl_find(s.drop_first(), k)
    }
}

/// Whether some entry binds key `k`.
pub open spec fn tbl_contains<T>(s: Seq<(u64, T)>, k: u64) -> bool {
    tbl_find(s, k) is Some
}

/// No key occurs twice.
pub open spec fn tbl_unique<T>(s: Seq<(u64, T)>) -> bool {
    forall|i: int, j: int| 0 <= i < j < s.len() ==> s[i].0 != s[j].0
}

/// When `i` is the first position whose key is `k`, the find returns that
/// position's value.
pub proof fn lemma_tbl_find_at<T>(s: Seq<(u64, T)>, k: u64, i: int)
    requires
        0 <= i < s.len(),
        s[i].0 == k,
        forall|j: int| 0 <= j < i ==> s[j].0 != k,
    ensures
        tbl_find(s, k) == Some(s[i].1),
    decreases s.len(),
{
    if i > 0 {
        assert(s.drop_first()[i - 1] == s[i]);
        assert(forall|j: int| 0 <= j < i - 1 ==> s.drop_first()[j] == s[j + 1]);
        lemma_tbl_find_at(s.drop_first(), k, i - 1);
    }
}

/// When no entry has key `k`, the find returns nothing.
pub proof fn lemma_tbl_find_none<T>(s: Seq<(u64, T)>, k: u64)
    requires
        forall|j: int| 0 <= j < s.len() ==> s[j].0 != k,
    ensures
        tbl_find(s, k) is None,
    decreases s.len(),
{
    if s.len() > 0 {
        assert(forall|j: int| 0 <= j < s.len() - 1 ==> s.drop_first()[j] == s[j + 1]);
        lemma_tbl_find_none(s.drop_first(), k);
    }
}

proof fn lemma_tbl_find_unfold<T>(s: Seq<(u64, T)>, k: u64)
    requires
        s.len() > 0,
    ensures
        tbl_find(s, k) == if s[0].0 == k {
            Some(s[0].1)
        } else {
            tbl_find(s.drop_first(), k)
        },
{
}

proof fn lemma_tbl_push_one<T>(s: Seq<(u64, T)>, k: u64, v: T, k2: u64)
    requires
        !tbl_contains(s, k),
    ensures
        tbl_find(s.push((k, v)), k2) == if k2 == k {
            Some(v)
        } else {
            tbl_find(s, k2)
        },
    decreases s.len(),
{
    let t = s.push((k, v));
    lemma_tbl_find_unfold(t, k2);
    if s.len() == 0 {
        assert(t[0] == (k, v));
        assert(t.drop_first() =~= Seq::<(u64, T)>::empty());
        if k2 != k {
            lemma_tbl_find_none(t.drop_first(), k2);
        }
    } else {
        assert(t[0] == s[0]);
        assert(t.drop_first() =~= s.drop_first().push((k, v)));
        lemma_tbl_find_unfold(s, k2);
        lemma_tbl_find_unfold(s, k);
        lemma_tbl_push_one(s.drop_first(), k, v, k2);
    }
}

/// Appending a fresh key binds it and disturbs no other key.
pub proof fn lemma_tbl_push<T>(s: Seq<(u64, T)>, k: u64, v: T)
    requires
        !tbl_contains(s, k),
    ensures
        forall|k2: u64|
            tbl_find(#[trigger] s.push((k, v)), k2) == if k2 == k {
                Some(v)
            } else {
                tbl_find(s, k2)
            },
        tbl_unique(s) ==> tbl_unique(s.push((k, v))),
{
    assert forall|k2: u64|
        tbl_find(#[trigger] s.push((k, v)), k2) == if k2 == k {
            Some(v)
        } else {
            tbl_find(s, k2)
        } by {
        lemma_tbl_push_one(s, k, v, k2);
    }
    if tbl_unique(s) {
        lemma_tbl_find_none_of_unique(s, k);
        let t = s.push((k, v));
        assert forall|i: int, j: int| 0 <= i < j < t.len() implies #[trigger] t[i].0
            != #[trigger] t[j].0 by {
            if j == s.len() as int {
                assert(t[i] == s[i]);
                assert(t[j].0 == k);
            } else {
                assert(t[i] == s[i]);
                assert(t[j] == s[j]);
            }
        }
    }
}

/// An absent key means no entry carries it.
pub proof fn lemma_tbl_find_none_of_unique<T>(s: Seq<(u64, T)>, k: u64)
    requires
        !tbl_contains(s, k),
    ensures
        forall|j: int| 0 <= j < s.len() ==> (#[trigger] s[j]).0 != k,
    decreases s.len(),
{
    if s.len() > 0 {
        lemma_tbl_find_unfold(s, k);
        lemma_tbl_find_none_of_unique(s.drop_first(), k);
        assert forall|j: int| 0 <= j < s.len() implies (#[trigger] s[j]).0 != k by {
            if j > 0 {
                assert(s.drop_first()[j - 1] == s[j]);
            }
        }
    }
}

proof fn lemma_tbl_update_one<T>(s: Seq<(u64, T)>, i: int, v: T, k2: u64)
    requires
        tbl_unique(s),
        0 <= i < s.len(),
    ensures
        tbl_find(s.update(i, (s[i].0, v)), k2) == if k2 == s[i].0 {
            Some(v)
        } else {
            tbl_find(s, k2)
        },
    decreases s.len(),
{
    let t = s.update(i, (s[i].0, v));
    lemma_tbl_find_unfold(t, k2);
    lemma_tbl_find_unfold(s, k2);
    if i == 0 {
        assert(t[0] == (s[0].0, v));
        assert(t.drop_first() =~= s.drop_first());
    } else {
        assert(t[0] == s[0]);
        assert(t.drop_first() =~= s.drop_first().update(i - 1, (s[i].0, v)));
        assert(s.drop_first()[i - 1] == s[i]);
        assert(s[0].0 != s[i].0);
        assert forall|a: int, b: int|
            0 <= a < b < s.drop_first().len() implies #[trigger] s.drop_first()[a].0
            != #[trigger] s.drop_first()[b].0 by {
            assert(s.drop_first()[a] == s[a + 1]);
            assert(s.drop_first()[b] == s[b + 1]);
        }
        lemma_tbl_update_one(s.drop_first(), i - 1, v, k2);
    }
}

/// Replacing the value at position `i` rebinds that entry's key and no other.
pub proof fn lemma_tbl_update<T>(s: Seq<(u64, T)>, i: int, v: T)
    requires
        tbl_unique(s),
        0 <= i < s.len(),
    ensures
        forall|k2: u64|
            tbl_find(#[trigger] s.update(i, (s[i].0, v)), k2) == if k2 == s[i].0 {
                Some(v)
            } else {
                tbl_find(s, k2)
            },
        tbl_unique(s.update(i, (s[i].0, v))),
{
    assert forall|k2: u64|
        tbl_find(#[trigger] s.update(i, (s[i].0, v)), k2) == if k2 == s[i].0 {
            Some(v)
        } else {
            tbl_find(s, k2)
        } by {
        lemma_tbl_update_one(s, i, v, k2);
    }
    let t = s.update(i, (s[i].0, v));
    assert forall|a: int, b: int| 0 <= a < b < t.len() implies #[trigger] t[a].0
        != #[trigger] t[b].0 by {
        assert(t[a].0 == s[a].0);
        assert(t[b].0 == s[b].0);
    }
}

proof fn lemma_tbl_remove_one<T>(s: Seq<(u64, T)>, i: int, k2: u64)
    requires
        tbl_unique(s),
        0 <= i < s.len(),
    ensures
        tbl_find(s.remove(i), k2) == if k2 == s[i].0 {
            None::<T>
        } else {
            tbl_find(s, k2)
        },
    decreases s.len(),
{
    let t = s.remove(i);
    lemma_tbl_find_unfold(s, k2);
    if i == 0 {
        assert(t =~= s.drop_first());
        if k2 == s[0].0 {
            assert forall|j: int| 0 <= j < t.len() implies (#[trigger] t[j]).0 != k2 by {
                assert(t[j] == s[j + 1]);
            }
            lemma_tbl_find_none(t, k2);
        }
    } else {
        assert(t.len() > 0);
        lemma_tbl_find_unfold(t, k2);
        assert(t[0] == s[0]);
        assert(t.drop_first() =~= s.drop_first().remove(i - 1));
        assert(s.drop_first()[i - 1] == s[i]);
        assert(s[0].0 != s[i].0);
        assert forall|a: int, b: int|
            0 <= a < b < s.drop_first().len() implies #[trigger] s.drop_first()[a].0
            != #[trigger] s.drop_first()[b].0 by {
            assert(s.drop_first()[a] == s[a + 1]);
            assert(s.drop_first()[b] == s[b + 1]);
        }
        lemma_tbl_remove_one(s.drop_first(), i - 1, k2);
    }
}

/// Removing the entry at position `i` unbinds that entry's key and no other.
pub proof fn lemma_tbl_remove<T>(s: Seq<(u64, T)>, i: int)
    requires
        tbl_unique(s),
        0 <= i < s.len(),
    ensures
        forall|k2: u64|
            tbl_find(#[trigger] s.remove(i), k2) == if k2 == s[i].0 {
                None::<T>
            } else {
                tbl_find(s, k2)
            },
        tbl_unique(s.remove(i)),
{
    assert forall|k2: u64|
        tbl_find(#[trigger] s.remove(i), k2) == if k2 == s[i].0 {
            None::<T>
        } else {
            tbl_find(s, k2)
        } by {
        lemma_tbl_remove_one(s, i, k2);
    }
    let t = s.remove(i);
    assert forall|a: int, b: int| 0 <= a < b < t.len() implies #[trigger] t[a].0
        != #[trigger] t[b].0 by {
        let sa = if a < i {
            a
        } else {
            a + 1
        };
        let sb = if b < i {
            b
        } else {
            b + 1
        };
        assert(t[a] == s[sa]);
        assert(t[b] == s[sb]);
    }
}

/// A successful find is witnessed by some position.
pub proof fn lemma_tbl_find_some_idx<T>(s: Seq<(u64, T)>, k: u64)
    requires
        tbl_find(s, k) is Some,
    ensures
        exists|i: int|
            0 <= i < s.len() && (#[trigger] s[i]).0 == k && s[i].1 == tbl_find(s, k).unwrap(),
    decreases s.len(),
{
    if s.len() > 0 {
        if s[0].0 == k {
            assert(s[0].0 == k);
        } else {
            lemma_tbl_find_some_idx(s.drop_first(), k);
            let i = choose|i: int|
                0 <= i < s.drop_first().len() && (#[trigger] s.drop_first()[i]).0 == k
                    && s.drop_first()[i].1 == tbl_find(s.drop_first(), k).unwrap();
            assert(s[i + 1] == s.drop_first()[i]);
        }
    }
}

/// An entry at a position makes the find succeed for its key.
pub proof fn lemma_tbl_key_to_contains<T>(s: Seq<(u64, T)>, k: u64, i: int)
    requires
        0 <= i < s.len(),
        s[i].0 == k,
    ensures
        tbl_contains(s, k),
    decreases s.len(),
{
    if s[0].0 != k {
        assert(s.drop_first()[i - 1] == s[i]);
        lemma_tbl_key_to_contains(s.drop_first(), k, i - 1);
    }
}

/// A successful find is witnessed by the first position with its key.
pub proof fn lemma_tbl_find_first_idx<T>(s: Seq<(u64, T)>, k: u64)
    requires
        tbl_find(s, k) is Some,
    ensures
        exists|i: int|
            0 <= i < s.len() && (#[trigger] s[i]).0 == k && s[i].1 == tbl_find(s, k).unwrap() && (
            forall|j: int| 0 <= j < i ==> s[j].0 != k),
    decreases s.len(),
{
    if s.len() > 0 {
        if s[0].0 == k {
            assert(0 <= 0 < s.len() && s[0].0 == k && s[0].1 == tbl_find(s, k).unwrap() && (
            forall|j: int| 0 <= j < 0 ==> s[j].0 != k));
        } else {
            lemma_tbl_find_first_idx(s.drop_first(), k);
            let i = choose|i: int|
                0 <= i < s.drop_first().len() && (#[trigger] s.drop_first()[i]).0 == k
                    && s.drop_first()[i].1 == tbl_find(s.drop_first(), k).unwrap() && (forall|
                    j: int,
                |
                    0 <= j < i ==> s.drop_first()[j].0 != k);
            assert(s[i + 1] == s.drop_first()[i]);
            assert forall|j: int| 0 <= j < i + 1 implies s[j].0 != k by {
                if j > 0 {
                    assert(s.drop_first()[j - 1] == s[j]);
                }
            }
        }
    }
}

/// The position of the first entry with key `k`, scanning front to back.
pub fn tbl_pos<T>(s: &Vec<(u64, T)>, k: u64) -> (r: Option<usize>)
    ensures
        match r {
            Some(i) => 0 <= i < s@.len() && s@[i as int].0 == k && (forall|j: int|
                0 <= j < i ==> s@[j].0 != k),
            None => forall|j: int| 0 <= j < s@.len() ==> s@[j].0 != k,
        },
{
    let mut i: usize = 0;
    while i < s.len()
        invariant
            i <= s@.len(),
            forall|j: int| 0 <= j < i ==> s@[j].0 != k,
        decreases s@.len() - i,
    {
        if s[i].0 == k {
            return Some(i);
        }
        i += 1;
    }
    None
}

} // verus!
