//! Properties that hold of every well-formed inventory and of its operations.

use vstd::prelude::*;
use crate::db::{child_named, walk, resolves_to, container_resolved};
use crate::model::ItemModel;
use crate::store::{
    Store, ancestor_at, contains_id, lemma_item_of, after_remove, orphan,
};
use crate::text::{segments, has_separator};

verus! {

/// No two items of one container, nor two root items, carry the same name.
pub proof fn lemma_unique_siblings(st: Store)
    requires
        st.wf(),
    ensures
        forall|i: int, j: int|
            0 <= i < st@.len() && 0 <= j < st@.len() && i != j && st@[i].container_id == st@[j].container_id
                ==> st@[i].name != st@[j].name,
{
    assert(crate::store::unique_names(st@));
}

/// Following container links from an item never comes back to it, and after
/// finitely many steps leaves the table (the walk passes a root item).
pub proof fn lemma_acyclic(st: Store, x: i64)
    requires
        st.wf(),
    ensures
        forall|k: nat| k >= 1 ==> #[trigger] ancestor_at(st@, x, k) != Some(x),
        exists|k: nat| #[trigger] ancestor_at(st@, x, k) is None,
{
    assert forall|k: nat| k >= 1 implies #[trigger] ancestor_at(st@, x, k) != Some(x) by {
        if ancestor_at(st@, x, k) == Some(x) {
            st.lemma_rank_along(x, k);
        }
    }
    let k = st.rank(x) + 1;
    if ancestor_at(st@, x, k) is Some {
        st.lemma_rank_along(x, k);
    }
    assert(ancestor_at(st@, x, k) is None);
}

/// Walking segments down from `parent` to `x` spells the path of `x` below the path of `parent`.
pub proof fn lemma_walk_path(st: Store, segs: Seq<Seq<char>>, parent: Option<i64>, x: i64)
    requires
        st.wf(),
        walk(st@, segs, parent) == Some(x),
        parent matches Some(p) ==> contains_id(st@, p),
    ensures
        st.path_of(x) == st.path_of_opt(parent) + segs,
    decreases segs.len(),
{
    let s = st@;
    if segs.len() == 0 {
        assert(st.path_of_opt(parent) + segs =~= st.path_of_opt(parent));
    } else {
        let c = child_named(s, parent, segs[0])->0;
        let j = choose|j: int| 0 <= j < s.len() && #[trigger] s[j].name == segs[0] && s[j].container_id == parent;
        lemma_item_of(s, st.next_free(), j);
        assert(s[j].id == c);
        assert(st.path_of(c) == st.path_of_opt(parent).push(segs[0]));
        lemma_walk_path(st, segs.drop_first(), Some(c), x);
        assert(st.path_of_opt(parent).push(segs[0]) + segs.drop_first() =~= st.path_of_opt(parent) + segs);
    }
}

/// The item that a slash-separated reference resolves to has exactly the
/// reference's segments as its path.
pub proof fn lemma_path_round_trip(st: Store, r: Seq<char>, x: i64)
    requires
        st.wf(),
        has_separator(r),
        resolves_to(st@, r) == Some(x),
    ensures
        st.path_of(x) == segments(r),
{
    lemma_walk_path(st, segments(r), None, x);
    assert(st.path_of_opt(None) + segments(r) =~= segments(r));
}

/// A container found or created for a slash-separated reference is what the
/// reference now resolves to, and its path is the reference's segments.
pub proof fn lemma_created_path_round_trip(old: Store, st: Store, r: Seq<char>, now: Seq<char>, c: i64)
    requires
        old.wf(),
        st.wf(),
        has_separator(r),
        container_resolved(old, r, now, st@, c),
    ensures
        resolves_to(st@, r) == Some(c),
        st.path_of(c) == segments(r),
{
    lemma_path_round_trip(st, r, c);
}

/// Removing the item at position `i` drops its record, sends exactly its direct
/// children to the root level, and leaves every other link, name and
/// description as it was; removing an item without contents changes nothing else.
pub proof fn lemma_orphan_on_remove(s: Seq<ItemModel>, i: int, now: Seq<char>)
    requires
        0 <= i < s.len(),
    ensures
        after_remove(s, i, now).len() == s.len() - 1,
        forall|j: int|
            0 <= j < s.len() - 1 ==> {
                let o = s[if j < i {
                    j
                } else {
                    j + 1
                }];
                let t = #[trigger] after_remove(s, i, now)[j];
                &&& t.id == o.id
                &&& t.name == o.name
                &&& t.description == o.description
                &&& t.container_id == if o.container_id == Some(s[i].id) {
                    None
                } else {
                    o.container_id
                }
            },
        (forall|j: int| 0 <= j < s.len() ==> #[trigger] s[j].container_id != Some(s[i].id)) ==> after_remove(
            s,
            i,
            now,
        ) == s.remove(i),
{
    let t = after_remove(s, i, now);
    assert forall|j: int| 0 <= j < s.len() - 1 implies #[trigger] t[j] == orphan(s[if j < i { j } else { j + 1 }], s[i].id, now) by {}
    if forall|j: int| 0 <= j < s.len() ==> #[trigger] s[j].container_id != Some(s[i].id) {
        assert forall|j: int| 0 <= j < s.len() - 1 implies t[j] == s.remove(i)[j] by {
            let sj = if j < i { j } else { j + 1 };
            assert(s[sj].container_id != Some(s[i].id));
        }
        assert(t =~= s.remove(i));
    }
}

} // verus!
