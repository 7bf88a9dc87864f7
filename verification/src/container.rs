//! Generic id-keyed collection.
//!
//! A [`UidContainer`] keeps its elements in insertion order and addresses them
//! by a numeric identifier that each element carries itself.  `push` allocates
//! the smallest identifier that is not currently in use; `insert` appends an
//! element whose identifier is already set (used when a saved graph is
//! rebuilt).  Identifiers may be sparse after deletions.

use vstd::prelude::*;

verus! {

/// An element of a [`UidContainer`]: it carries a numeric identifier that the
/// container may read and reassign.
pub trait HasId: Sized {
    /// The element's identifier, as specifications see it.
    spec fn spec_id(&self) -> u32;

    /// What it means for `r` to be `self` renumbered to `id`: the identifier
    /// is replaced, every descendant's denormalized parent-id field follows,
    /// and all other data is kept.
    spec fn is_renumbered(&self, r: Self, id: u32) -> bool;

    fn get_id(&self) -> (r: u32)
        ensures
            r == self.spec_id(),
    ;

    fn set_id(&mut self, id: u32)
        ensures
            old(self).is_renumbered(*final(self), id),
            final(self).spec_id() == id,
    ;
}

/// Some element of `s` carries the identifier `id`.
pub open spec fn has_id<T: HasId>(s: Seq<T>, id: u32) -> bool {
    exists|i: int| 0 <= i < s.len() && (#[trigger] s[i].spec_id()) == id
}

/// No two elements of `s` share an identifier.
pub open spec fn unique_ids<T: HasId>(s: Seq<T>) -> bool {
    forall|i: int, j: int|
        0 <= i < j < s.len() ==> (#[trigger] s[i].spec_id()) != (#[trigger] s[j].spec_id())
}

/// Index of the first element of `s` with identifier `id`, or -1.
pub open spec fn idx_of<T: HasId>(s: Seq<T>, id: u32) -> int
    decreases s.len(),
{
    if s.len() == 0 {
        -1
    } else if s[0].spec_id() == id {
        0
    } else if idx_of(s.skip(1), id) < 0 {
        -1
    } else {
        idx_of(s.skip(1), id) + 1
    }
}

/// The first element of `s` with identifier `id`, if any.
pub open spec fn find_id<T: HasId>(s: Seq<T>, id: u32) -> Option<T> {
    if idx_of(s, id) >= 0 {
        Some(s[idx_of(s, id)])
    } else {
        None
    }
}

/// `s` with every element of identifier `id` taken out, order kept.
pub open spec fn remove_id<T: HasId>(s: Seq<T>, id: u32) -> Seq<T>
    decreases s.len(),
{
    if s.len() == 0 {
        Seq::empty()
    } else if s[0].spec_id() == id {
        remove_id(s.skip(1), id)
    } else {
        seq![s[0]] + remove_id(s.skip(1), id)
    }
}

/// `id` is the smallest identifier that no element of `s` carries.
pub open spec fn is_fresh_id<T: HasId>(s: Seq<T>, id: u32) -> bool {
    &&& !has_id(s, id)
    &&& forall|k: u32| k < id ==> has_id(s, k)
}

/// The smallest identifier that no element of `s` carries.
pub open spec fn fresh_id<T: HasId>(s: Seq<T>) -> u32 {
    choose|id: u32| is_fresh_id(s, id)
}

/// `idx_of` finds exactly the first index carrying `id`.
pub proof fn lemma_idx_of_props<T: HasId>(s: Seq<T>, id: u32)
    ensures
        idx_of(s, id) >= 0 <==> has_id(s, id),
        idx_of(s, id) >= 0 ==> idx_of(s, id) < s.len() && s[idx_of(s, id)].spec_id() == id,
        idx_of(s, id) >= 0 ==> forall|j: int|
            0 <= j < idx_of(s, id) ==> (#[trigger] s[j].spec_id()) != id,
        idx_of(s, id) == -1 ==> forall|j: int|
            0 <= j < s.len() ==> (#[trigger] s[j].spec_id()) != id,
        idx_of(s, id) >= -1,
    decreases s.len(),
{
    if s.len() == 0 {
    } else if s[0].spec_id() == id {
    } else {
        let tail = s.skip(1);
        lemma_idx_of_props(tail, id);
        if idx_of(tail, id) >= 0 {
            let k = idx_of(tail, id);
            assert(s[k + 1] == tail[k]);
            assert(s[k + 1].spec_id() == id);
            assert(has_id(s, id));
            assert forall|j: int| 0 <= j < idx_of(s, id) implies (#[trigger] s[j].spec_id())
                != id by {
                if j > 0 {
                    assert(s[j] == tail[j - 1]);
                    assert(tail[j - 1].spec_id() != id);
                }
            }
        } else {
            assert forall|j: int| 0 <= j < s.len() implies (#[trigger] s[j].spec_id()) != id by {
                if j > 0 {
                    assert(s[j] == tail[j - 1]);
                    assert(tail[j - 1].spec_id() != id);
                }
            }
            assert(!has_id(s, id));
        }
    }
}

/// If `i` is an index carrying `id` and no earlier index does, it is `idx_of`.
pub proof fn lemma_idx_of_first<T: HasId>(s: Seq<T>, id: u32, i: int)
    requires
        0 <= i < s.len(),
        s[i].spec_id() == id,
        forall|j: int| 0 <= j < i ==> (#[trigger] s[j].spec_id()) != id,
    ensures
        idx_of(s, id) == i,
    decreases s.len(),
{
    if i == 0 {
    } else {
        assert(forall|j: int| 0 <= j < s.len() - 1 ==> s.skip(1)[j] == s[j + 1]);
        lemma_idx_of_first(s.skip(1), id, i - 1);
    }
}

/// Replacing an element with one of the same identifier moves no index.
pub proof fn lemma_idx_of_update<T: HasId>(s: Seq<T>, i: int, t: T, qid: u32)
    requires
        0 <= i < s.len(),
        t.spec_id() == s[i].spec_id(),
    ensures
        idx_of(s.update(i, t), qid) == idx_of(s, qid),
    decreases s.len(),
{
    let s2 = s.update(i, t);
    assert(s2.len() == s.len());
    if i == 0 {
        assert(s2.skip(1) =~= s.skip(1));
        assert(s2[0].spec_id() == s[0].spec_id());
    } else {
        assert(s2[0] == s[0]);
        assert(s2.skip(1) =~= s.skip(1).update(i - 1, t));
        lemma_idx_of_update(s.skip(1), i - 1, t, qid);
    }
}

/// How `find_id` reads a sequence after a same-id element replacement.
pub proof fn lemma_find_id_update<T: HasId>(s: Seq<T>, i: int, t: T)
    requires
        0 <= i < s.len(),
        t.spec_id() == s[i].spec_id(),
        idx_of(s, s[i].spec_id()) == i,
    ensures
        forall|qid: u32| #[trigger] find_id(s.update(i, t), qid) == if qid == t.spec_id() {
            Some(t)
        } else {
            find_id(s, qid)
        },
{
    assert forall|qid: u32| #[trigger] find_id(s.update(i, t), qid) == if qid == t.spec_id() {
        Some(t)
    } else {
        find_id(s, qid)
    } by {
        lemma_idx_of_update(s, i, t, qid);
        lemma_idx_of_props(s, qid);
        if qid == t.spec_id() {
            assert(idx_of(s.update(i, t), qid) == i);
        } else {
            if idx_of(s, qid) >= 0 {
                assert(s[idx_of(s, qid)].spec_id() == qid);
                assert(idx_of(s, qid) != i);
            }
        }
    }
}

/// How `idx_of` reads a sequence after an append.
pub proof fn lemma_idx_of_push<T: HasId>(s: Seq<T>, t: T, qid: u32)
    ensures
        idx_of(s.push(t), qid) == if idx_of(s, qid) >= 0 {
            idx_of(s, qid)
        } else if t.spec_id() == qid {
            s.len() as int
        } else {
            -1
        },
    decreases s.len(),
{
    lemma_idx_of_props(s, qid);
    let s2 = s.push(t);
    if s.len() == 0 {
        assert(s2[0] == t);
        if t.spec_id() != qid {
            assert(s2.skip(1) =~= Seq::<T>::empty());
            assert(idx_of(Seq::<T>::empty(), qid) == -1);
            assert(idx_of(s2, qid) == -1);
        }
    } else {
        let tail = s.skip(1);
        assert(s2[0] == s[0]);
        assert(s2.skip(1) =~= tail.push(t));
        lemma_idx_of_push(tail, t, qid);
        lemma_idx_of_props(tail, qid);
        if s[0].spec_id() == qid {
            assert(idx_of(s2, qid) == 0);
            assert(idx_of(s, qid) == 0);
        } else {
            assert(idx_of(s2.skip(1), qid) == idx_of(tail.push(t), qid));
            assert(idx_of(s2, qid) == if idx_of(s2.skip(1), qid) < 0 {
                -1
            } else {
                idx_of(s2.skip(1), qid) + 1
            });
            assert(idx_of(s, qid) == if idx_of(tail, qid) < 0 {
                -1
            } else {
                idx_of(tail, qid) + 1
            });
        }
    }
}

/// How `find_id` reads a sequence after an append.
pub proof fn lemma_find_id_push<T: HasId>(s: Seq<T>, t: T)
    ensures
        forall|qid: u32| #[trigger] find_id(s.push(t), qid) == if has_id(s, qid) {
            find_id(s, qid)
        } else if t.spec_id() == qid {
            Some(t)
        } else {
            None
        },
        unique_ids(s) && !has_id(s, t.spec_id()) ==> unique_ids(s.push(t)),
{
    assert forall|qid: u32| #[trigger] find_id(s.push(t), qid) == if has_id(s, qid) {
        find_id(s, qid)
    } else if t.spec_id() == qid {
        Some(t)
    } else {
        None
    } by {
        lemma_idx_of_push(s, t, qid);
        lemma_idx_of_props(s, qid);
        lemma_idx_of_props(s.push(t), qid);
        if idx_of(s, qid) >= 0 {
            assert(s.push(t)[idx_of(s, qid)] == s[idx_of(s, qid)]);
        } else if t.spec_id() == qid {
            assert(s.push(t)[s.len() as int] == t);
        }
    }
    if unique_ids(s) && !has_id(s, t.spec_id()) {
        assert forall|i: int, j: int| 0 <= i < j < s.push(t).len() implies (
        #[trigger] s.push(t)[i].spec_id()) != (#[trigger] s.push(t)[j].spec_id()) by {
            if j == s.len() {
                assert(s.push(t)[i] == s[i]);
                if s[i].spec_id() == t.spec_id() {
                    assert(has_id(s, t.spec_id()));
                }
            } else {
                assert(s.push(t)[i] == s[i] && s.push(t)[j] == s[j]);
            }
        }
    }
}

/// How `find_id` and id uniqueness read a sequence with an id removed.
pub proof fn lemma_remove_id_props<T: HasId>(s: Seq<T>, id: u32)
    ensures
        remove_id(s, id).len() <= s.len(),
        !has_id(remove_id(s, id), id),
        forall|qid: u32| qid != id ==> #[trigger] find_id(remove_id(s, id), qid) == find_id(
            s,
            qid,
        ),
        unique_ids(s) ==> unique_ids(remove_id(s, id)),
        forall|j: int| 0 <= j < remove_id(s, id).len() ==> has_id(
            s,
            (#[trigger] remove_id(s, id)[j].spec_id()),
        ),
    decreases s.len(),
{
    let r = remove_id(s, id);
    if s.len() == 0 {
        assert(!has_id(r, id));
        assert forall|qid: u32| qid != id implies #[trigger] find_id(r, qid) == find_id(
            s,
            qid,
        ) by {
            lemma_idx_of_props(r, qid);
            lemma_idx_of_props(s, qid);
        }
    } else {
        let tail = s.skip(1);
        let rt = remove_id(tail, id);
        lemma_remove_id_props(tail, id);
        assert forall|i: int, j: int| 0 <= i < j < tail.len() && unique_ids(s) implies (
        #[trigger] tail[i].spec_id()) != (#[trigger] tail[j].spec_id()) by {
            assert(tail[i] == s[i + 1] && tail[j] == s[j + 1]);
        }
        assert forall|j: int| 0 <= j < rt.len() && s[0].spec_id() != id implies #[trigger] r[j
            + 1] == rt[j] by {
            assert(r == seq![s[0]] + rt);
        }
        if s[0].spec_id() == id {
            assert(r == rt);
            assert forall|qid: u32| qid != id implies #[trigger] find_id(r, qid) == find_id(
                s,
                qid,
            ) by {
                lemma_idx_of_props(tail, qid);
                if idx_of(tail, qid) >= 0 {
                    let k = idx_of(tail, qid);
                    assert(s[k + 1] == tail[k]);
                    assert(idx_of(s, qid) == k + 1);
                    assert(find_id(s, qid) == Some(s[k + 1]));
                    assert(find_id(tail, qid) == Some(tail[k]));
                } else {
                    assert(idx_of(s, qid) == -1);
                }
            }
            assert forall|j: int| 0 <= j < r.len() implies has_id(
                s,
                (#[trigger] r[j].spec_id()),
            ) by {
                assert(has_id(tail, rt[j].spec_id()));
                let w = choose|w: int|
                    0 <= w < tail.len() && (#[trigger] tail[w].spec_id()) == rt[j].spec_id();
                assert(s[w + 1].spec_id() == rt[j].spec_id());
            }
        } else {
            assert(r == seq![s[0]] + rt);
            assert(r[0] == s[0]);
            assert(!has_id(r, id)) by {
                if has_id(r, id) {
                    let i = choose|i: int| 0 <= i < r.len() && (#[trigger] r[i].spec_id()) == id;
                    assert(i > 0);
                    assert(rt[i - 1].spec_id() == id);
                    assert(has_id(rt, id));
                }
            }
            assert forall|qid: u32| qid != id implies #[trigger] find_id(r, qid) == find_id(
                s,
                qid,
            ) by {
                lemma_idx_of_props(rt, qid);
                lemma_idx_of_props(tail, qid);
                if s[0].spec_id() == qid {
                    lemma_idx_of_first(r, qid, 0);
                    lemma_idx_of_first(s, qid, 0);
                } else {
                    if idx_of(rt, qid) >= 0 {
                        let k = idx_of(rt, qid);
                        let k2 = idx_of(tail, qid);
                        assert(find_id(rt, qid) == Some(rt[k]));
                        assert(find_id(tail, qid) == Some(tail[k2]));
                        assert(r[k + 1] == rt[k]);
                        assert(s[k2 + 1] == tail[k2]);
                        assert forall|j: int| 0 <= j < k + 1 implies (#[trigger] r[j].spec_id())
                            != qid by {
                            if j > 0 {
                                assert(r[j] == rt[j - 1]);
                                assert(rt[j - 1].spec_id() != qid);
                            }
                        }
                        lemma_idx_of_first(r, qid, k + 1);
                        assert forall|j: int| 0 <= j < k2 + 1 implies (#[trigger] s[j].spec_id())
                            != qid by {
                            if j > 0 {
                                assert(s[j] == tail[j - 1]);
                                assert(tail[j - 1].spec_id() != qid);
                            }
                        }
                        lemma_idx_of_first(s, qid, k2 + 1);
                        assert(find_id(r, qid) == Some(r[k + 1]));
                        assert(find_id(s, qid) == Some(s[k2 + 1]));
                    } else {
                        assert(find_id(tail, qid) is None);
                        assert(idx_of(tail, qid) == -1);
                        assert forall|j: int| 0 <= j < r.len() implies (#[trigger] r[j].spec_id())
                            != qid by {
                            if j > 0 {
                                assert(r[j] == rt[j - 1]);
                                assert(rt[j - 1].spec_id() != qid) by {
                                    lemma_idx_of_props(rt, qid);
                                }
                            }
                        }
                        assert(idx_of(r, qid) == -1) by {
                            lemma_idx_of_props(r, qid);
                        }
                        assert(idx_of(s, qid) == -1);
                    }
                }
            }
            assert(unique_ids(s) ==> unique_ids(r)) by {
                if unique_ids(s) {
                    assert forall|i: int, j: int| 0 <= i < j < r.len() implies (
                    #[trigger] r[i].spec_id()) != (#[trigger] r[j].spec_id()) by {
                        if i == 0 {
                            assert(r[j] == rt[j - 1]);
                            assert(has_id(tail, rt[j - 1].spec_id()));
                            let w = choose|w: int|
                                0 <= w < tail.len() && (#[trigger] tail[w].spec_id()) == rt[j
                                    - 1].spec_id();
                            assert(s[w + 1].spec_id() == rt[j - 1].spec_id());
                        } else {
                            assert(r[i] == rt[i - 1] && r[j] == rt[j - 1]);
                        }
                    }
                }
            }
            assert forall|j: int| 0 <= j < r.len() implies has_id(
                s,
                (#[trigger] r[j].spec_id()),
            ) by {
                if j == 0 {
                    assert(s[0].spec_id() == r[0].spec_id());
                } else {
                    assert(r[j] == rt[j - 1]);
                    assert(has_id(tail, rt[j - 1].spec_id()));
                    let w = choose|w: int|
                        0 <= w < tail.len() && (#[trigger] tail[w].spec_id()) == rt[j
                            - 1].spec_id();
                    assert(s[w + 1].spec_id() == rt[j - 1].spec_id());
                }
            }
        }
    }
}

/// With unique identifiers, `find_id` finds every element where it stands.
pub proof fn lemma_find_complete<T: HasId>(s: Seq<T>, i: int)
    requires
        unique_ids(s),
        0 <= i < s.len(),
    ensures
        idx_of(s, s[i].spec_id()) == i,
        find_id(s, s[i].spec_id()) == Some(s[i]),
{
    assert forall|j: int| 0 <= j < i implies (#[trigger] s[j].spec_id()) != s[i].spec_id() by {}
    lemma_idx_of_first(s, s[i].spec_id(), i);
}

/// Removing an id reads the same on two sequences that agree on ids
/// everywhere and on content wherever the id differs from the removed one.
pub proof fn lemma_remove_id_pointwise<T: HasId>(s1: Seq<T>, s2: Seq<T>, id: u32)
    requires
        s1.len() == s2.len(),
        forall|i: int| 0 <= i < s1.len() ==> (#[trigger] s1[i].spec_id()) == s2[i].spec_id(),
        forall|i: int|
            0 <= i < s1.len() && (#[trigger] s1[i].spec_id()) != id ==> s1[i] == s2[i],
    ensures
        remove_id(s1, id) == remove_id(s2, id),
    decreases s1.len(),
{
    if s1.len() == 0 {
    } else {
        assert(forall|i: int| 0 <= i < s1.len() - 1 ==> s1.skip(1)[i] == s1[i + 1]);
        assert(forall|i: int| 0 <= i < s2.len() - 1 ==> s2.skip(1)[i] == s2[i + 1]);
        lemma_remove_id_pointwise(s1.skip(1), s2.skip(1), id);
        if s1[0].spec_id() == id {
        } else {
            assert(s1[0] == s2[0]);
        }
    }
}

/// Removing an id that no element carries changes nothing.
pub proof fn lemma_remove_id_absent<T: HasId>(s: Seq<T>, id: u32)
    requires
        !has_id(s, id),
    ensures
        remove_id(s, id) == s,
    decreases s.len(),
{
    if s.len() == 0 {
        assert(remove_id(s, id) =~= s);
    } else {
        assert(forall|i: int| 0 <= i < s.len() - 1 ==> s.skip(1)[i] == s[i + 1]);
        assert(!has_id(s.skip(1), id)) by {
            if has_id(s.skip(1), id) {
                let i = choose|i: int|
                    0 <= i < s.skip(1).len() && (#[trigger] s.skip(1)[i].spec_id()) == id;
                assert(s[i + 1].spec_id() == id);
            }
        }
        lemma_remove_id_absent(s.skip(1), id);
        assert(s[0].spec_id() != id);
        assert(remove_id(s, id) == seq![s[0]] + s.skip(1));
        assert(remove_id(s, id) =~= s);
    }
}

/// `idx_of` depends only on the identifiers.
pub proof fn lemma_idx_of_same_ids<T: HasId>(s1: Seq<T>, s2: Seq<T>, id: u32)
    requires
        s1.len() == s2.len(),
        forall|i: int| 0 <= i < s1.len() ==> (#[trigger] s1[i].spec_id()) == s2[i].spec_id(),
    ensures
        idx_of(s1, id) == idx_of(s2, id),
    decreases s1.len(),
{
    if s1.len() == 0 {
    } else {
        assert(forall|i: int| 0 <= i < s1.len() - 1 ==> s1.skip(1)[i] == s1[i + 1]);
        assert(forall|i: int| 0 <= i < s2.len() - 1 ==> s2.skip(1)[i] == s2[i + 1]);
        lemma_idx_of_same_ids(s1.skip(1), s2.skip(1), id);
        assert(s1[0].spec_id() == s2[0].spec_id());
    }
}

/// Below any `lo`, at most `s.len()` identifiers are taken, so one of
/// `lo ..= lo + s.len()` is unused.
pub proof fn lemma_unused_id_from<T: HasId>(s: Seq<T>, lo: u32)
    requires
        lo + s.len() <= u32::MAX,
    ensures
        exists|k: u32| lo <= k <= lo + s.len() && !has_id(s, k),
    decreases s.len(),
{
    if !has_id(s, lo) {
        assert(lo <= lo <= lo + s.len() && !has_id(s, lo));
    } else {
        let i = choose|i: int| 0 <= i < s.len() && (#[trigger] s[i].spec_id()) == lo;
        let s2 = s.remove(i);
        assert(forall|j: int| 0 <= j < i ==> s2[j] == s[j]);
        assert(forall|j: int| i <= j < s2.len() ==> s2[j] == s[j + 1]);
        lemma_unused_id_from(s2, (lo + 1) as u32);
        let k = choose|k: u32| lo + 1 <= k <= lo + 1 + s2.len() && !has_id(s2, k);
        assert(!has_id(s, k)) by {
            if has_id(s, k) {
                let j = choose|j: int| 0 <= j < s.len() && (#[trigger] s[j].spec_id()) == k;
                assert(j != i);
                if j < i {
                    assert(s2[j].spec_id() == k);
                } else {
                    assert(s2[j - 1].spec_id() == k);
                }
                assert(has_id(s2, k));
            }
        }
        assert(lo <= k <= lo + s.len() && !has_id(s, k));
    }
}

/// The smallest unused identifier is unique: `is_fresh_id` pins one value.
pub proof fn lemma_fresh_id_unique<T: HasId>(s: Seq<T>, a: u32, b: u32)
    requires
        is_fresh_id(s, a),
        is_fresh_id(s, b),
    ensures
        a == b,
{
    if a < b {
        assert(has_id(s, a));
    }
    if b < a {
        assert(has_id(s, b));
    }
}

/// The identifiers that survive a first-occurrence-wins walk over `ss`,
/// reading each record's identifier with `sid`, in order of first occurrence.
pub open spec fn loaded_ids<S>(ss: Seq<S>, sid: spec_fn(S) -> u32) -> Seq<u32>
    decreases ss.len(),
{
    if ss.len() == 0 {
        Seq::empty()
    } else {
        let p = loaded_ids(ss.drop_last(), sid);
        if p.contains(sid(ss.last())) {
            p
        } else {
            p.push(sid(ss.last()))
        }
    }
}

/// `out` is the list that rebuilding the records `ss` produces: records whose
/// identifier was already taken are skipped, every other record `s` becomes an
/// element `t` with `rel(s, t)`, in order.
pub open spec fn is_loaded_list<S, T: HasId>(
    ss: Seq<S>,
    out: Seq<T>,
    sid: spec_fn(S) -> u32,
    rel: spec_fn(S, T) -> bool,
) -> bool
    decreases ss.len(),
{
    if ss.len() == 0 {
        out.len() == 0
    } else if loaded_ids(ss.drop_last(), sid).contains(sid(ss.last())) {
        is_loaded_list(ss.drop_last(), out, sid, rel)
    } else {
        &&& out.len() > 0
        &&& is_loaded_list(ss.drop_last(), out.drop_last(), sid, rel)
        &&& rel(ss.last(), out.last())
        &&& out.last().spec_id() == sid(ss.last())
    }
}

/// `loaded_ids` lists exactly the identifiers occurring in `ss`, once each.
pub proof fn lemma_loaded_ids_props<S>(ss: Seq<S>, sid: spec_fn(S) -> u32)
    ensures
        forall|k: u32| #[trigger] loaded_ids(ss, sid).contains(k) <==> exists|i: int|
            0 <= i < ss.len() && sid(#[trigger] ss[i]) == k,
        loaded_ids(ss, sid).no_duplicates(),
        loaded_ids(ss, sid).len() <= ss.len(),
    decreases ss.len(),
{
    if ss.len() == 0 {
    } else {
        let p = loaded_ids(ss.drop_last(), sid);
        lemma_loaded_ids_props(ss.drop_last(), sid);
        assert(forall|i: int| 0 <= i < ss.len() - 1 ==> ss.drop_last()[i] == ss[i]);
        assert forall|k: u32| #[trigger] loaded_ids(ss, sid).contains(k) implies exists|i: int|
            0 <= i < ss.len() && sid(#[trigger] ss[i]) == k by {
            if p.contains(k) {
                let i = choose|i: int| 0 <= i < ss.len() - 1 && sid(#[trigger] ss.drop_last()[i])
                    == k;
                assert(sid(ss[i]) == k);
            } else {
                assert(sid(ss[ss.len() - 1]) == k);
            }
        }
        assert forall|k: u32| (exists|i: int| 0 <= i < ss.len() && sid(#[trigger] ss[i]) == k)
            implies #[trigger] loaded_ids(ss, sid).contains(k) by {
            let i = choose|i: int| 0 <= i < ss.len() && sid(#[trigger] ss[i]) == k;
            if i < ss.len() - 1 {
                assert(sid(ss.drop_last()[i]) == k);
                assert(p.contains(k));
                if !p.contains(sid(ss.last())) {
                    assert(loaded_ids(ss, sid) == p.push(sid(ss.last())));
                    assert(loaded_ids(ss, sid)[p.index_of(k)] == k);
                }
            } else {
                if p.contains(sid(ss.last())) {
                } else {
                    assert(loaded_ids(ss, sid).last() == k);
                }
            }
        }
    }
}

/// What rebuilding guarantees of the rebuilt list: ids unique, and exactly
/// the ids of the records, in order of first occurrence.
pub proof fn lemma_loaded_list_ids<S, T: HasId>(
    ss: Seq<S>,
    out: Seq<T>,
    sid: spec_fn(S) -> u32,
    rel: spec_fn(S, T) -> bool,
)
    requires
        is_loaded_list(ss, out, sid, rel),
    ensures
        out.len() == loaded_ids(ss, sid).len(),
        forall|i: int| 0 <= i < out.len() ==> (#[trigger] out[i].spec_id()) == loaded_ids(
            ss,
            sid,
        )[i],
        unique_ids(out),
        forall|k: u32| has_id(out, k) <==> #[trigger] loaded_ids(ss, sid).contains(k),
    decreases ss.len(),
{
    lemma_loaded_ids_props(ss, sid);
    if ss.len() == 0 {
    } else {
        let p = loaded_ids(ss.drop_last(), sid);
        if p.contains(sid(ss.last())) {
            lemma_loaded_list_ids(ss.drop_last(), out, sid, rel);
        } else {
            lemma_loaded_list_ids(ss.drop_last(), out.drop_last(), sid, rel);
            assert(forall|i: int| 0 <= i < out.len() - 1 ==> out.drop_last()[i] == out[i]);
            assert(loaded_ids(ss, sid) == p.push(sid(ss.last())));
            assert forall|i: int| 0 <= i < out.len() implies (#[trigger] out[i].spec_id())
                == loaded_ids(ss, sid)[i] by {
                if i < out.len() - 1 {
                    assert(out.drop_last()[i].spec_id() == p[i]);
                }
            }
            assert(unique_ids(out)) by {
                assert forall|i: int, j: int| 0 <= i < j < out.len() implies (
                #[trigger] out[i].spec_id()) != (#[trigger] out[j].spec_id()) by {
                    assert(out[i].spec_id() == loaded_ids(ss, sid)[i]);
                    assert(out[j].spec_id() == loaded_ids(ss, sid)[j]);
                    assert(loaded_ids(ss, sid).no_duplicates());
                }
            }
            assert forall|k: u32| has_id(out, k) implies #[trigger] loaded_ids(ss, sid).contains(
                k,
            ) by {
                let i = choose|i: int| 0 <= i < out.len() && (#[trigger] out[i].spec_id()) == k;
                assert(loaded_ids(ss, sid)[i] == k);
            }
            assert forall|k: u32| #[trigger] loaded_ids(ss, sid).contains(k) implies has_id(
                out,
                k,
            ) by {
                let i = choose|i: int| 0 <= i < loaded_ids(ss, sid).len() && loaded_ids(ss, sid)[i]
                    == k;
                assert(out[i].spec_id() == k);
            }
        }
    }
}

/// When no two records share an identifier, rebuilding skips nothing: the
/// rebuilt list relates to the records one for one.
pub proof fn lemma_loaded_list_exact<S, T: HasId>(
    ss: Seq<S>,
    out: Seq<T>,
    sid: spec_fn(S) -> u32,
    rel: spec_fn(S, T) -> bool,
)
    requires
        is_loaded_list(ss, out, sid, rel),
        forall|i: int, j: int| 0 <= i < j < ss.len() ==> sid(#[trigger] ss[i]) != sid(
            #[trigger] ss[j],
        ),
    ensures
        out.len() == ss.len(),
        forall|i: int| 0 <= i < ss.len() ==> rel(#[trigger] ss[i], out[i]),
    decreases ss.len(),
{
    if ss.len() == 0 {
    } else {
        lemma_loaded_ids_props(ss.drop_last(), sid);
        assert(forall|i: int| 0 <= i < ss.len() - 1 ==> ss.drop_last()[i] == ss[i]);
        assert(!loaded_ids(ss.drop_last(), sid).contains(sid(ss.last()))) by {
            if loaded_ids(ss.drop_last(), sid).contains(sid(ss.last())) {
                let i = choose|i: int|
                    0 <= i < ss.len() - 1 && sid(#[trigger] ss.drop_last()[i]) == sid(ss.last());
                assert(sid(ss[i]) == sid(ss[ss.len() - 1]));
            }
        }
        lemma_loaded_list_exact(ss.drop_last(), out.drop_last(), sid, rel);
        assert(forall|i: int| 0 <= i < out.len() - 1 ==> out.drop_last()[i] == out[i]);
        assert forall|i: int| 0 <= i < ss.len() implies rel(#[trigger] ss[i], out[i]) by {
            if i < ss.len() - 1 {
                assert(rel(ss.drop_last()[i], out.drop_last()[i]));
            }
        }
    }
}

/// Everything the element relation forces holds of every rebuilt element.
pub proof fn lemma_loaded_list_all<S, T: HasId>(
    ss: Seq<S>,
    out: Seq<T>,
    sid: spec_fn(S) -> u32,
    rel: spec_fn(S, T) -> bool,
    p: spec_fn(T) -> bool,
)
    requires
        is_loaded_list(ss, out, sid, rel),
        forall|s: S, t: T| #[trigger] rel(s, t) ==> p(t),
    ensures
        forall|i: int| 0 <= i < out.len() ==> #[trigger] p(out[i]),
    decreases ss.len(),
{
    if ss.len() == 0 {
    } else if loaded_ids(ss.drop_last(), sid).contains(sid(ss.last())) {
        lemma_loaded_list_all(ss.drop_last(), out, sid, rel, p);
    } else {
        lemma_loaded_list_all(ss.drop_last(), out.drop_last(), sid, rel, p);
        assert forall|i: int| 0 <= i < out.len() implies #[trigger] p(out[i]) by {
            if i < out.len() - 1 {
                assert(p(out.drop_last()[i]));
                assert(out.drop_last()[i] == out[i]);
            } else {
                assert(rel(ss.last(), out.last()));
            }
        }
    }
}

/// One forward step of rebuilding: what `is_loaded_list` says of one more
/// record, as an exec loop walks the records front to back.
pub proof fn lemma_loaded_list_step<S, T: HasId>(
    ss: Seq<S>,
    i: int,
    out: Seq<T>,
    t: T,
    sid: spec_fn(S) -> u32,
    rel: spec_fn(S, T) -> bool,
)
    requires
        0 <= i < ss.len(),
        is_loaded_list(ss.take(i), out, sid, rel),
    ensures
        has_id(out, sid(ss[i])) ==> is_loaded_list(ss.take(i + 1), out, sid, rel),
        !has_id(out, sid(ss[i])) && rel(ss[i], t) && t.spec_id() == sid(ss[i])
            ==> is_loaded_list(ss.take(i + 1), out.push(t), sid, rel),
{
    assert(ss.take(i + 1).drop_last() =~= ss.take(i));
    assert(ss.take(i + 1).last() == ss[i]);
    lemma_loaded_list_ids(ss.take(i), out, sid, rel);
    if has_id(out, sid(ss[i])) {
        assert(loaded_ids(ss.take(i), sid).contains(sid(ss[i])));
    } else {
        assert(!loaded_ids(ss.take(i), sid).contains(sid(ss[i])));
        assert(out.push(t).drop_last() =~= out);
    }
}

/// Mutable access to one element of a vector.
pub fn elem_mut<T>(v: &mut Vec<T>, i: usize) -> (r: &mut T)
    requires
        i < old(v)@.len(),
    ensures
        *r == old(v)@[i as int],
        final(v)@ == old(v)@.update(i as int, *final(r)),
{
    &mut v[i]
}

/// First index of an element with identifier `id` in a vector.
pub fn find_index<T: HasId>(v: &Vec<T>, id: u32) -> (r: Option<usize>)
    ensures
        match r {
            Some(i) => i == idx_of(v@, id) && i < v@.len(),
            None => idx_of(v@, id) == -1,
        },
{
    let n = v.len();
    let mut i: usize = 0;
    while i < n
        invariant
            i <= n,
            n == v@.len(),
            forall|j: int| 0 <= j < i ==> (#[trigger] v@[j].spec_id()) != id,
        decreases n - i,
    {
        if v[i].get_id() == id {
            proof {
                lemma_idx_of_first(v@, id, i as int);
            }
            return Some(i);
        }
        i = i + 1;
    }
    proof {
        lemma_idx_of_props(v@, id);
        if idx_of(v@, id) >= 0 {
            assert(v@[idx_of(v@, id)].spec_id() == id);
        }
    }
    None
}

/// Id-keyed collection; iteration order is insertion order.
#[derive(Debug)]
pub struct UidContainer<T> {
    vec: Vec<T>,
}

impl<T> View for UidContainer<T> {
    type V = Seq<T>;

    closed spec fn view(&self) -> Seq<T> {
        self.vec@
    }
}

impl<T> Default for UidContainer<T> {
    fn default() -> (r: Self)
        ensures
            r@ == Seq::<T>::empty(),
    {
        UidContainer { vec: Vec::new() }
    }
}

impl<T> UidContainer<T> {
    pub fn new() -> (r: Self)
        ensures
            r@ == Seq::<T>::empty(),
    {
        UidContainer { vec: Vec::new() }
    }

    pub fn len(&self) -> (r: usize)
        ensures
            r == self@.len(),
    {
        self.vec.len()
    }

    /// The element at position `i` in insertion order.
    pub fn at(&self, i: usize) -> (r: &T)
        requires
            i < self@.len(),
        ensures
            *r == self@[i as int],
    {
        &self.vec[i]
    }

    /// Mutable access to the element at position `i`.
    pub fn at_mut(&mut self, i: usize) -> (r: &mut T)
        requires
            i < old(self)@.len(),
        ensures
            *r == old(self)@[i as int],
            final(self)@ == old(self)@.update(i as int, *final(r)),
    {
        &mut self.vec[i]
    }
}

impl<T: HasId> UidContainer<T> {
    /// Appends `t` without reassigning its identifier (graph reconstruction).
    pub fn insert(&mut self, t: T)
        ensures
            final(self)@ == old(self)@.push(t),
    {
        self.vec.push(t);
    }

    pub fn contains_id(&self, id: u32) -> (r: bool)
        ensures
            r == has_id(self@, id),
    {
        proof {
            lemma_idx_of_props(self@, id);
        }
        match find_index(&self.vec, id) {
            Some(_) => true,
            None => false,
        }
    }

    /// First position of the element with identifier `id`.
    pub fn index_of(&self, id: u32) -> (r: Option<usize>)
        ensures
            match r {
                Some(i) => i == idx_of(self@, id) && i < self@.len(),
                None => idx_of(self@, id) == -1,
            },
    {
        find_index(&self.vec, id)
    }

    /// The smallest identifier not in use.
    fn get_new_id(&self) -> (r: u32)
        requires
            self@.len() < u32::MAX,
        ensures
            is_fresh_id(self@, r),
            r == fresh_id(self@),
    {
        proof {
            lemma_unused_id_from(self@, 0);
        }
        let ghost unused: u32 = choose|k: u32| k <= self@.len() && !has_id(self@, k);
        let mut id: u32 = 0;
        loop
            invariant
                forall|k: u32| k < id ==> has_id(self@, k),
                id <= unused,
                unused <= self@.len() < u32::MAX,
                !has_id(self@, unused),
            decreases unused - id,
        {
            if !self.contains_id(id) {
                proof {
                    assert(is_fresh_id(self@, id));
                    lemma_fresh_id_unique(self@, id, fresh_id(self@));
                }
                return id;
            }
            proof {
                assert(id < unused);
            }
            id = id + 1;
        }
    }

    /// Previews the identifier the next `push` will assign.
    pub fn get_next_id(&self) -> (r: u32)
        requires
            self@.len() < u32::MAX,
        ensures
            is_fresh_id(self@, r),
            r == fresh_id(self@),
    {
        self.get_new_id()
    }

    /// Assigns the smallest unused identifier to `item` and appends it.
    pub fn push(&mut self, item: T)
        requires
            old(self)@.len() < u32::MAX,
        ensures
            is_fresh_id(old(self)@, fresh_id(old(self)@)),
            final(self)@.len() == old(self)@.len() + 1,
            final(self)@.subrange(0, old(self)@.len() as int) == old(self)@,
            item.is_renumbered(final(self)@.last(), fresh_id(old(self)@)),
            final(self)@.last().spec_id() == fresh_id(old(self)@),
    {
        let id = self.get_new_id();
        let mut item = item;
        item.set_id(id);
        self.vec.push(item);
        proof {
            assert(final(self)@.subrange(0, old(self)@.len() as int) =~= old(self)@);
        }
    }

    /// Deletes the element with identifier `id`; no-op if absent.
    pub fn remove(&mut self, id: u32)
        ensures
            final(self)@ == remove_id(old(self)@, id),
    {
        let mut kept: Vec<T> = Vec::new();
        let ghost orig = self.vec@;
        while self.vec.len() > 0
            invariant
                remove_id(orig, id) == kept@ + remove_id(self.vec@, id),
            decreases self.vec@.len(),
        {
            let ghost pre = self.vec@;
            let t = self.vec.remove(0);
            proof {
                assert(self.vec@ =~= pre.skip(1));
            }
            if t.get_id() != id {
                kept.push(t);
                proof {
                    assert(remove_id(pre, id) == seq![pre[0]] + remove_id(pre.skip(1), id));
                    assert(kept@ + remove_id(self.vec@, id) =~= remove_id(orig, id));
                }
            } else {
                proof {
                    assert(remove_id(pre, id) == remove_id(pre.skip(1), id));
                }
            }
        }
        proof {
            assert(remove_id(self.vec@, id) =~= Seq::<T>::empty());
            assert(kept@ + remove_id(self.vec@, id) =~= kept@);
        }
        self.vec = kept;
    }

    /// The element with identifier `id`, if any.
    pub fn get(&self, id: u32) -> (r: Option<&T>)
        ensures
            match r {
                Some(t) => find_id(self@, id) == Some(*t),
                None => find_id(self@, id) is None,
            },
    {
        match find_index(&self.vec, id) {
            Some(i) => Some(&self.vec[i]),
            None => None,
        }
    }

    /// Mutable access to the element with identifier `id`, if any.
    pub fn get_mut(&mut self, id: u32) -> (r: Option<&mut T>)
        ensures
            match r {
                Some(t) => {
                    &&& idx_of(old(self)@, id) >= 0
                    &&& *t == old(self)@[idx_of(old(self)@, id)]
                    &&& final(self)@ == old(self)@.update(idx_of(old(self)@, id), *final(t))
                },
                None => {
                    &&& idx_of(old(self)@, id) == -1
                    &&& final(self)@ == old(self)@
                },
            },
    {
        match find_index(&self.vec, id) {
            Some(i) => Some(&mut self.vec[i]),
            None => None,
        }
    }
}

} // verus!
