//! Entity Store operations and reference resolution over a `Store`.

use vstd::prelude::*;
use crate::error::{InvError, is_ambiguous, is_duplicate, is_store_failure, is_not_found};
use crate::model::{Item, ItemModel};
use crate::store::{
    Store, items_view, contains_id, index_of_id, item_of, ancestor_at, name_taken, table_wf,
    lemma_item_of, lemma_ancestor_step, lemma_ancestor_none_after, name_free_except, new_model,
    opt_str_view, after_remove,
};
use crate::text::{
    segments, has_separator, lemma_segments_bare, join_slash, views, split_segments, join_path, contains_separator,
    folded, occurs_in, folded_codes, occurs,
};

verus! {

pub open spec fn in_container(c: Option<i64>) -> spec_fn(ItemModel) -> bool {
    |m: ItemModel| m.container_id == c
}

pub open spec fn with_name(n: Seq<char>) -> spec_fn(ItemModel) -> bool {
    |m: ItemModel| m.name == n
}

/// The items directly inside container `c` (`None`: the root items), in storage order.
pub open spec fn children_of(s: Seq<ItemModel>, c: Option<i64>) -> Seq<ItemModel> {
    s.filter(in_container(c))
}

/// The items that carry exactly the name, wherever they are.
pub open spec fn named(s: Seq<ItemModel>, n: Seq<char>) -> Seq<ItemModel> {
    s.filter(with_name(n))
}

/// The item named `n` directly inside `parent`, if there is one.
pub open spec fn child_named(s: Seq<ItemModel>, parent: Option<i64>, n: Seq<char>) -> Option<i64> {
    if name_taken(s, n, parent) {
        Some(s[choose|j: int| 0 <= j < s.len() && #[trigger] s[j].name == n && s[j].container_id == parent].id)
    } else {
        None
    }
}

/// Descends from `parent` through one child per segment.
pub open spec fn walk(s: Seq<ItemModel>, segs: Seq<Seq<char>>, parent: Option<i64>) -> Option<i64>
    decreases segs.len(),
{
    if segs.len() == 0 {
        parent
    } else {
        match child_named(s, parent, segs[0]) {
            Some(c) => walk(s, segs.drop_first(), Some(c)),
            None => None,
        }
    }
}

/// The item that a path reference names; none for a reference without segments.
pub open spec fn lookup_path(s: Seq<ItemModel>, r: Seq<char>) -> Option<i64> {
    if segments(r).len() == 0 {
        None
    } else {
        walk(s, segments(r), None)
    }
}

/// A bare name that several items carry.
pub open spec fn is_ambiguous_ref(s: Seq<ItemModel>, r: Seq<char>) -> bool {
    !has_separator(r) && named(s, r).len() > 1
}

/// The one item that a reference names, if there is exactly one.
pub open spec fn resolves_to(s: Seq<ItemModel>, r: Seq<char>) -> Option<i64> {
    if has_separator(r) {
        lookup_path(s, r)
    } else if named(s, r).len() == 1 {
        Some(named(s, r)[0].id)
    } else {
        None
    }
}

/// The slash-joined path of every item that carries the name.
pub open spec fn candidate_paths(st: Store, n: Seq<char>) -> Seq<Seq<char>> {
    named(st@, n).map_values(|m: ItemModel| join_slash(st.path_of(m.id)))
}

/// The item's name or its description holds the folded query `q`.
pub open spec fn matches_query(q: Seq<u32>) -> spec_fn(ItemModel) -> bool {
    |m: ItemModel|
        occurs_in(q, folded(m.name)) || match m.description {
            Some(d) => occurs_in(q, folded(d)),
            None => false,
        }
}

/// The container is absent (the root level) or present in the table.
pub open spec fn container_ok(s: Seq<ItemModel>, c: Option<i64>) -> bool {
    match c {
        Some(d) => contains_id(s, d),
        None => true,
    }
}

/// Every direct child of `x` can go to the root level without a name clash.
pub open spec fn orphans_fit(s: Seq<ItemModel>, x: i64) -> bool {
    forall|j: int|
        0 <= j < s.len() && #[trigger] s[j].container_id == Some(x) ==> !name_taken(s, s[j].name, None)
}

/// The table after the missing part of a path has been created: each segment
/// not found under the current container becomes a new item there, without description.
pub open spec fn materialized(
    s: Seq<ItemModel>,
    segs: Seq<Seq<char>>,
    parent: Option<i64>,
    next_id: i64,
    now: Seq<char>,
) -> Seq<ItemModel>
    decreases segs.len(),
{
    if segs.len() == 0 {
        s
    } else {
        match child_named(s, parent, segs[0]) {
            Some(c) => materialized(s, segs.drop_first(), Some(c), next_id, now),
            None => materialized(
                s.push(new_model(next_id, segs[0], None, parent, now)),
                segs.drop_first(),
                Some(next_id),
                (next_id + 1) as i64,
                now,
            ),
        }
    }
}

/// The container that `resolve_or_create_container` hands out when it succeeds:
/// the item the reference names, table unchanged; or else the end of the freshly
/// created part of the path, an item with no contents yet.
pub open spec fn container_resolved(old: Store, r: Seq<char>, now: Seq<char>, s: Seq<ItemModel>, c: i64) -> bool {
    &&& contains_id(s, c)
    &&& match resolves_to(old@, r) {
        Some(x) => c == x && s == old@,
        None => {
            &&& !is_ambiguous_ref(old@, r)
            &&& segments(r).len() > 0
            &&& old.next_free() + segments(r).len() <= i64::MAX
            &&& s == materialized(old@, segments(r), None, old.next_free(), now)
            &&& walk(s, segments(r), None) == Some(c)
            &&& !contains_id(old@, c)
            &&& forall|j: int| 0 <= j < s.len() ==> #[trigger] s[j].container_id != Some(c)
        },
    }
}

/// Why `resolve_or_create_container` fails: an ambiguous bare name, a reference
/// without segments, or too few ids left for the missing part.
pub open spec fn container_failed(old: Store, r: Seq<char>, e: InvError) -> bool {
    &&& resolves_to(old@, r) is None
    &&& if is_ambiguous_ref(old@, r) {
        is_ambiguous(e, r, candidate_paths(old, r))
    } else if segments(r).len() == 0 {
        is_not_found(e, r)
    } else {
        old.next_free() + segments(r).len() > i64::MAX && is_store_failure(e)
    }
}

/// Creating the missing part of a path only appends records.
pub proof fn lemma_materialized_extends(
    s: Seq<ItemModel>,
    segs: Seq<Seq<char>>,
    parent: Option<i64>,
    next_id: i64,
    now: Seq<char>,
)
    ensures
        materialized(s, segs, parent, next_id, now).len() >= s.len(),
        forall|j: int| 0 <= j < s.len() ==> #[trigger] materialized(s, segs, parent, next_id, now)[j] == s[j],
    decreases segs.len(),
{
    if segs.len() > 0 {
        match child_named(s, parent, segs[0]) {
            Some(c) => lemma_materialized_extends(s, segs.drop_first(), Some(c), next_id, now),
            None => {
                let t = s.push(new_model(next_id, segs[0], None, parent, now));
                lemma_materialized_extends(t, segs.drop_first(), Some(next_id), (next_id + 1) as i64, now);
                assert forall|j: int| 0 <= j < s.len() implies #[trigger] materialized(s, segs, parent, next_id, now)[j] == s[j] by {
                    assert(t[j] == s[j]);
                }
            },
        }
    }
}

/// `chain[j]` is an item named `segs[j]` inside `chain[j - 1]` (the root level for the first).
pub open spec fn is_chain(s: Seq<ItemModel>, segs: Seq<Seq<char>>, chain: Seq<i64>, k: int) -> bool {
    forall|j: int| 0 <= j < k ==> #[trigger] chain_link(s, segs, chain, j)
}

pub open spec fn chain_link(s: Seq<ItemModel>, segs: Seq<Seq<char>>, chain: Seq<i64>, j: int) -> bool {
    contains_id(s, chain[j]) && item_of(s, chain[j]).name == segs[j] && item_of(s, chain[j]).container_id
        == (if j == 0 {
        None
    } else {
        Some(chain[j - 1])
    })
}

/// Walking a chain of items from position `j` on ends at its last item.
pub proof fn lemma_walk_chain(s: Seq<ItemModel>, next_id: i64, segs: Seq<Seq<char>>, chain: Seq<i64>, j: int)
    requires
        table_wf(s, next_id),
        chain.len() == segs.len(),
        0 <= j < segs.len(),
        is_chain(s, segs, chain, segs.len() as int),
    ensures
        walk(s, segs.skip(j), if j == 0 { None } else { Some(chain[j - 1]) }) == Some(chain.last()),
    decreases segs.len() - j,
{
    let parent = if j == 0 { None } else { Some(chain[j - 1]) };
    assert(chain_link(s, segs, chain, j));
    let idx = index_of_id(s, chain[j]);
    assert(s[idx].id == chain[j]);
    assert(s[idx].name == segs[j] && s[idx].container_id == parent);
    lemma_child_named(s, next_id, idx);
    assert(child_named(s, parent, segs[j]) == Some(chain[j]));
    let rest = segs.skip(j);
    assert(rest[0] == segs[j]);
    assert(rest.drop_first() =~= segs.skip(j + 1));
    assert(walk(s, rest, parent) == walk(s, rest.drop_first(), Some(chain[j])));
    if j + 1 < segs.len() {
        lemma_walk_chain(s, next_id, segs, chain, j + 1);
    } else {
        assert(segs.skip(j + 1).len() == 0);
    }
}

/// Appending a record keeps every chain of the table.
pub proof fn lemma_chain_push(
    before: Seq<ItemModel>,
    t: Seq<ItemModel>,
    next_id: i64,
    segs: Seq<Seq<char>>,
    chain: Seq<i64>,
    k: int,
)
    requires
        table_wf(t, next_id),
        t.len() == before.len() + 1,
        forall|i: int| 0 <= i < before.len() ==> t[i] == before[i],
        is_chain(before, segs, chain, k),
    ensures
        is_chain(t, segs, chain, k),
{
    assert forall|j: int| 0 <= j < k implies #[trigger] chain_link(t, segs, chain, j) by {
        assert(chain_link(before, segs, chain, j));
        let idx = index_of_id(before, chain[j]);
        assert(t[idx] == before[idx]);
        lemma_item_of(t, next_id, idx);
        assert(item_of(t, chain[j]) == item_of(before, chain[j]));
    }
}

pub proof fn lemma_filter_take(s: Seq<ItemModel>, p: spec_fn(ItemModel) -> bool, k: int)
    requires
        0 <= k < s.len(),
    ensures
        s.subrange(0, k + 1).filter(p) == if p(s[k]) {
            s.subrange(0, k).filter(p).push(s[k])
        } else {
            s.subrange(0, k).filter(p)
        },
{
    reveal_with_fuel(Seq::<ItemModel>::filter, 1);
    let t = s.subrange(0, k + 1);
    assert(t.drop_last() =~= s.subrange(0, k));
    assert(t.last() == s[k]);
    assert(t.len() > 0);
    assert(t.filter(p) == if p(t.last()) {
        t.drop_last().filter(p).push(t.last())
    } else {
        t.drop_last().filter(p)
    });
}

/// A record that a filter keeps is a record of the table.
pub proof fn lemma_filter_member(s: Seq<ItemModel>, next_id: i64, p: spec_fn(ItemModel) -> bool, k: int)
    requires
        table_wf(s, next_id),
        0 <= k < s.filter(p).len(),
    ensures
        contains_id(s, s.filter(p)[k].id),
        item_of(s, s.filter(p)[k].id) == s.filter(p)[k],
        p(s.filter(p)[k]),
{
    let e = s.filter(p)[k];
    assert(s.filter(p).contains(e));
    s.lemma_filter_contains_rev(p, e);
    let j = choose|j: int| 0 <= j < s.len() && s[j] == e;
    lemma_item_of(s, next_id, j);
    s.lemma_filter_pred(p, k);
}

/// A filter that no record passes keeps nothing.
pub proof fn lemma_filter_none(s: Seq<ItemModel>, p: spec_fn(ItemModel) -> bool)
    requires
        forall|j: int| 0 <= j < s.len() ==> !p(#[trigger] s[j]),
    ensures
        s.filter(p).len() == 0,
{
    if s.filter(p).len() > 0 {
        let e = s.filter(p)[0];
        s.lemma_filter_pred(p, 0);
        assert(s.filter(p).contains(e));
        s.lemma_filter_contains_rev(p, e);
    }
}

pub proof fn lemma_items_view_push(v: Seq<Item>, it: Item)
    ensures
        items_view(v.push(it)) == items_view(v).push(it@),
{
    assert(items_view(v.push(it)) =~= items_view(v).push(it@));
}

/// In a well-formed table the record at position `k` has an id above `k`.
pub proof fn lemma_id_at_least(s: Seq<ItemModel>, next_id: i64, k: int)
    requires
        table_wf(s, next_id),
        0 <= k < s.len(),
    ensures
        s[k].id >= k + 1,
    decreases k,
{
    if k > 0 {
        lemma_id_at_least(s, next_id, k - 1);
        assert(s[k - 1].id < s[k].id);
    }
}

/// A well-formed table has fewer records than `i64::MAX`.
pub proof fn lemma_len_bound(s: Seq<ItemModel>, next_id: i64)
    requires
        table_wf(s, next_id),
    ensures
        s.len() < i64::MAX,
{
    if s.len() > 0 {
        lemma_id_at_least(s, next_id, s.len() - 1);
    }
}

/// The name-and-container pair of a record picks out that record.
pub proof fn lemma_child_named(s: Seq<ItemModel>, next_id: i64, i: int)
    requires
        table_wf(s, next_id),
        0 <= i < s.len(),
    ensures
        child_named(s, s[i].container_id, s[i].name) == Some(s[i].id),
{
    assert(name_taken(s, s[i].name, s[i].container_id));
    let j = choose|j: int| 0 <= j < s.len() && #[trigger] s[j].name == s[i].name && s[j].container_id == s[i].container_id;
    assert(j == i);
}

pub fn same_container(a: Option<i64>, b: Option<i64>) -> (r: bool)
    ensures
        r == (a == b),
{
    match (a, b) {
        (Some(x), Some(y)) => x == y,
        (None, None) => true,
        _ => false,
    }
}

/// The position of the record with the id.
pub fn find_index(store: &Store, id: i64) -> (r: Option<usize>)
    requires
        store.wf(),
    ensures
        match r {
            Some(i) => i < store@.len() && store@[i as int].id == id && index_of_id(store@, id) == i,
            None => !contains_id(store@, id),
        },
{
    let n = store.len();
    let mut i: usize = 0;
    while i < n
        invariant
            n == store@.len(),
            i <= n,
            store.wf(),
            forall|k: int| 0 <= k < i ==> store@[k].id != id,
        decreases n - i,
    {
        if store.item_at(i).id == id {
            proof {
                lemma_item_of(store@, store.next_free(), i as int);
            }
            return Some(i);
        }
        i = i + 1;
    }
    None
}

/// The record with the id.
pub fn get_item_by_id(store: &Store, id: i64) -> (r: Option<Item>)
    requires
        store.wf(),
    ensures
        r is Some == contains_id(store@, id),
        r matches Some(it) ==> it@ == item_of(store@, id),
{
    match find_index(store, id) {
        Some(i) => Some(store.item_at(i).copied()),
        None => None,
    }
}

/// The items directly inside `c` (`None`: the root level), in storage order.
fn children(store: &Store, c: Option<i64>) -> (r: Vec<Item>)
    ensures
        items_view(r@) == children_of(store@, c),
{
    let n = store.len();
    let mut out: Vec<Item> = Vec::new();
    let mut i: usize = 0;
    while i < n
        invariant
            n == store@.len(),
            i <= n,
            items_view(out@) == children_of(store@.subrange(0, i as int), c),
        decreases n - i,
    {
        let it = store.item_at(i);
        proof {
            lemma_filter_take(store@, in_container(c), i as int);
        }
        if same_container(it.container_id, c) {
            let cp = it.copied();
            proof {
                lemma_items_view_push(out@, cp);
            }
            out.push(cp);
        }
        i = i + 1;
    }
    assert(store@.subrange(0, n as int) =~= store@);
    out
}

/// The items at the root level, in storage order.
pub fn list_root_items(store: &Store) -> (r: Vec<Item>)
    ensures
        items_view(r@) == children_of(store@, None),
{
    children(store, None)
}

/// The items directly inside the container, in storage order.
pub fn list_items_in_container(store: &Store, container_id: i64) -> (r: Vec<Item>)
    ensures
        items_view(r@) == children_of(store@, Some(container_id)),
{
    children(store, Some(container_id))
}

/// Every item, in storage order.
pub fn list_all_items(store: &Store) -> (r: Vec<Item>)
    ensures
        items_view(r@) == store@,
{
    let n = store.len();
    let mut out: Vec<Item> = Vec::new();
    let mut i: usize = 0;
    while i < n
        invariant
            n == store@.len(),
            i <= n,
            items_view(out@) =~= store@.subrange(0, i as int),
        decreases n - i,
    {
        let cp = store.item_at(i).copied();
        proof {
            lemma_items_view_push(out@, cp);
        }
        out.push(cp);
        i = i + 1;
        assert(items_view(out@) =~= store@.subrange(0, i as int));
    }
    out
}

/// How many items sit directly inside the item.
pub fn count_children(store: &Store, item_id: i64) -> (r: i64)
    requires
        store.wf(),
    ensures
        r == children_of(store@, Some(item_id)).len(),
{
    let v = children(store, Some(item_id));
    proof {
        lemma_len_bound(store@, store.next_free());
        store@.lemma_filter_len(in_container(Some(item_id)));
        assert(v@.len() == items_view(v@).len());
    }
    v.len() as i64
}

/// The items that carry exactly the name, in storage order.
pub fn find_items_by_exact_name(store: &Store, name: &str) -> (r: Vec<Item>)
    ensures
        items_view(r@) == named(store@, name@),
{
    let key = name.to_owned();
    let n = store.len();
    let mut out: Vec<Item> = Vec::new();
    let mut i: usize = 0;
    while i < n
        invariant
            n == store@.len(),
            i <= n,
            key@ == name@,
            items_view(out@) == named(store@.subrange(0, i as int), name@),
        decreases n - i,
    {
        let it = store.item_at(i);
        proof {
            lemma_filter_take(store@, with_name(name@), i as int);
        }
        if it.name == key {
            let cp = it.copied();
            proof {
                lemma_items_view_push(out@, cp);
            }
            out.push(cp);
        }
        i = i + 1;
    }
    assert(store@.subrange(0, n as int) =~= store@);
    out
}

/// The position of the item named `name` directly inside `parent`.
pub fn find_child(store: &Store, parent: Option<i64>, name: &String) -> (r: Option<usize>)
    requires
        store.wf(),
    ensures
        match r {
            Some(i) => i < store@.len() && store@[i as int].name == name@ && store@[i as int].container_id
                == parent && child_named(store@, parent, name@) == Some(store@[i as int].id),
            None => !name_taken(store@, name@, parent) && child_named(store@, parent, name@) is None,
        },
{
    let n = store.len();
    let mut i: usize = 0;
    while i < n
        invariant
            n == store@.len(),
            i <= n,
            store.wf(),
            forall|k: int| 0 <= k < i ==> !(#[trigger] store@[k].name == name@ && store@[k].container_id == parent),
        decreases n - i,
    {
        let it = store.item_at(i);
        if it.name == *name && same_container(it.container_id, parent) {
            proof {
                lemma_child_named(store@, store.next_free(), i as int);
            }
            return Some(i);
        }
        i = i + 1;
    }
    None
}

/// Whether an item of that name sits directly inside `container_id`.
pub fn name_exists_in_container(store: &Store, name: &str, container_id: Option<i64>) -> (r: bool)
    requires
        store.wf(),
    ensures
        r == name_taken(store@, name@, container_id),
{
    let key = name.to_owned();
    find_child(store, container_id, &key).is_some()
}

/// The item at the end of a slash-separated path walked from the root level.
pub fn get_item_by_path(store: &Store, path: &str) -> (r: Option<Item>)
    requires
        store.wf(),
    ensures
        match r {
            Some(it) => lookup_path(store@, path@) == Some(it.id) && it@ == item_of(store@, it.id)
                && contains_id(store@, it.id),
            None => lookup_path(store@, path@) is None,
        },
{
    let segs = split_segments(path);
    if segs.len() == 0 {
        return None;
    }
    let ghost gs = segments(path@);
    let mut cur: Option<usize> = None;
    let mut k: usize = 0;
    assert(gs.skip(0) =~= gs);
    while k < segs.len()
        invariant
            store.wf(),
            views(segs@) == gs,
            gs == segments(path@),
            gs.len() == segs@.len(),
            gs.len() > 0,
            k <= segs.len(),
            cur matches Some(i) ==> i < store@.len(),
            k == 0 <==> cur is None,
            walk(store@, gs, None) == walk(
                store@,
                gs.skip(k as int),
                match cur {
                    Some(i) => Some(store@[i as int].id),
                    None => None,
                },
            ),
        decreases segs.len() - k,
    {
        let parent = match cur {
            Some(i) => Some(store.item_at(i).id),
            None => None,
        };
        let ghost rest = gs.skip(k as int);
        assert(rest[0] == segs@[k as int]@);
        assert(rest.drop_first() =~= gs.skip(k + 1));
        match find_child(store, parent, &segs[k]) {
            Some(i) => {
                cur = Some(i);
            },
            None => {
                assert(walk(store@, rest, parent) is None);
                return None;
            },
        }
        k = k + 1;
    }
    assert(gs.skip(k as int).len() == 0);
    match cur {
        Some(i) => {
            proof {
                lemma_item_of(store@, store.next_free(), i as int);
            }
            Some(store.item_at(i).copied())
        },
        None => None,
    }
}

/// The names from the root down to the item; empty for an unknown id.
pub fn get_item_path(store: &Store, item_id: i64) -> (r: Vec<String>)
    requires
        store.wf(),
    ensures
        views(r@) == store.path_of(item_id),
{
    let mut acc: Vec<String> = Vec::new();
    let mut cur: Option<i64> = Some(item_id);
    while cur.is_some()
        invariant
            store.wf(),
            store.path_of(item_id) == store.path_of_opt(cur) + views(acc@),
        decreases match cur {
            Some(c) => store.rank(c) + 1,
            None => 0,
        },
    {
        let c = cur.unwrap();
        match find_index(store, c) {
            Some(i) => {
                let it = store.item_at(i);
                proof {
                    lemma_item_of(store@, store.next_free(), i as int);
                    assert(item_of(store@, c) == store@[i as int]);
                }
                let ghost before = acc@;
                acc.insert(0, it.name.clone());
                assert(views(acc@) =~= seq![it.name@] + views(before));
                cur = it.container_id;
                proof {
                    match it.container_id {
                        Some(p) => {
                            assert(store.rank(p) < store.rank(c));
                            assert(store.path_of(c) == store.path_of(p).push(it.name@));
                        },
                        None => {},
                    }
                }
            },
            None => {
                cur = None;
            },
        }
    }
    acc
}

/// Whether `potential_ancestor_id` lies on the walk up from `item_id`, the item itself included.
pub fn is_ancestor(store: &Store, potential_ancestor_id: i64, item_id: i64) -> (r: bool)
    requires
        store.wf(),
    ensures
        r == crate::store::is_ancestor(store@, potential_ancestor_id, item_id),
{
    let ghost s = store@;
    let ghost a = potential_ancestor_id;
    let mut cur: Option<i64> = Some(item_id);
    let ghost mut k: nat = 0;
    while cur.is_some()
        invariant
            store.wf(),
            s == store@,
            a == potential_ancestor_id,
            cur == ancestor_at(s, item_id, k),
            forall|j: nat| j < k ==> ancestor_at(s, item_id, j) != Some(a),
        decreases match cur {
            Some(c) => store.rank(c) + 1,
            None => 0,
        },
    {
        let c = cur.unwrap();
        if c == potential_ancestor_id {
            return true;
        }
        proof {
            assert(ancestor_at(s, item_id, k) != Some(a));
            lemma_ancestor_step(s, item_id, k);
        }
        match find_index(store, c) {
            Some(i) => {
                proof {
                    lemma_item_of(s, store.next_free(), i as int);
                }
                let next = store.item_at(i).container_id;
                proof {
                    if let Some(p) = next {
                        assert(store.rank(p) < store.rank(c));
                    }
                }
                cur = next;
            },
            None => {
                cur = None;
            },
        }
        proof {
            k = k + 1;
        }
    }
    proof {
        assert forall|j: nat| ancestor_at(s, item_id, j) != Some(a) by {
            if j >= k {
                lemma_ancestor_none_after(s, item_id, k, j);
            }
        }
    }
    false
}

/// The item that carries exactly the name; an error when several do.
pub fn get_item_by_name(store: &Store, name: &str) -> (r: Result<Option<Item>, InvError>)
    requires
        store.wf(),
    ensures
        match r {
            Ok(Some(it)) => named(store@, name@).len() == 1 && it@ == named(store@, name@)[0] && it@
                == item_of(store@, it.id) && contains_id(store@, it.id),
            Ok(None) => named(store@, name@).len() == 0,
            Err(e) => named(store@, name@).len() > 1 && is_ambiguous(
                e,
                name@,
                candidate_paths(*store, name@),
            ),
        },
{
    let items = find_items_by_exact_name(store, name);
    let ghost found = named(store@, name@);
    assert(items@.len() == found.len());
    if items.len() == 0 {
        Ok(None)
    } else if items.len() == 1 {
        proof {
            assert(items@[0]@ == found[0]);
            lemma_filter_member(store@, store.next_free(), with_name(name@), 0);
        }
        Ok(Some(items[0].copied()))
    } else {
        let mut paths: Vec<String> = Vec::new();
        let mut k: usize = 0;
        while k < items.len()
            invariant
                store.wf(),
                items_view(items@) == found,
                found == named(store@, name@),
                k <= items@.len(),
                paths@.len() == k,
                forall|j: int| 0 <= j < k ==> #[trigger] paths@[j]@ == join_slash(store.path_of(found[j].id)),
            decreases items.len() - k,
        {
            let p = get_item_path(store, items[k].id);
            assert(items@[k as int]@ == found[k as int]);
            let joined = join_path(&p);
            paths.push(joined);
            k = k + 1;
        }
        assert(views(paths@) =~= candidate_paths(*store, name@));
        Err(InvError::Ambiguous { name: name.to_owned(), paths })
    }
}

/// The item that a reference names: a path when it holds a slash, a bare name otherwise.
pub fn resolve_item(store: &Store, reference: &str) -> (r: Result<Option<Item>, InvError>)
    requires
        store.wf(),
    ensures
        match r {
            Ok(Some(it)) => resolves_to(store@, reference@) == Some(it.id) && it@ == item_of(store@, it.id)
                && contains_id(store@, it.id),
            Ok(None) => resolves_to(store@, reference@) is None && !is_ambiguous_ref(store@, reference@),
            Err(e) => is_ambiguous_ref(store@, reference@) && is_ambiguous(
                e,
                reference@,
                candidate_paths(*store, reference@),
            ),
        },
{
    if contains_separator(reference) {
        Ok(get_item_by_path(store, reference))
    } else {
        get_item_by_name(store, reference)
    }
}

/// The items whose name or description holds the query, letter case aside, in storage order.
pub fn search_items(store: &Store, query: &str) -> (r: Vec<Item>)
    ensures
        items_view(r@) == store@.filter(matches_query(folded(query@))),
{
    let q = folded_codes(query);
    let ghost p = matches_query(folded(query@));
    let n = store.len();
    let mut out: Vec<Item> = Vec::new();
    let mut i: usize = 0;
    while i < n
        invariant
            n == store@.len(),
            i <= n,
            q@ == folded(query@),
            p == matches_query(folded(query@)),
            items_view(out@) == store@.subrange(0, i as int).filter(p),
        decreases n - i,
    {
        let it = store.item_at(i);
        proof {
            lemma_filter_take(store@, p, i as int);
        }
        let in_name = occurs(&q, &folded_codes(it.name.as_str()));
        let hit = in_name || match &it.description {
            Some(d) => occurs(&q, &folded_codes(d.as_str())),
            None => false,
        };
        if hit {
            let cp = it.copied();
            proof {
                lemma_items_view_push(out@, cp);
            }
            out.push(cp);
        }
        i = i + 1;
    }
    assert(store@.subrange(0, n as int) =~= store@);
    out
}

/// Adds a record under the next id. The table refuses a missing container, a
/// name already taken in the container, and an exhausted id range.
pub fn insert_item(
    store: &mut Store,
    name: &str,
    description: Option<&str>,
    container_id: Option<i64>,
    now: &str,
) -> (r: Result<Item, InvError>)
    requires
        old(store).wf(),
        name@.len() > 0,
    ensures
        final(store).wf(),
        match r {
            Ok(it) => container_ok(old(store)@, container_id) && !name_taken(
                old(store)@,
                name@,
                container_id,
            ) && old(store).next_free() < i64::MAX && it@ == new_model(
                old(store).next_free(),
                name@,
                opt_str_view(description),
                container_id,
                now@,
            ) && final(store)@ == old(store)@.push(it@) && final(store).next_free() == old(
                store,
            ).next_free() + 1,
            Err(e) => final(store)@ == old(store)@ && final(store).next_free() == old(store).next_free()
                && if !container_ok(old(store)@, container_id) {
                is_store_failure(e)
            } else if name_taken(old(store)@, name@, container_id) {
                is_duplicate(e, name@, container_id)
            } else {
                old(store).next_free() == i64::MAX && is_store_failure(e)
            },
        },
{
    if let Some(c) = container_id {
        if find_index(store, c).is_none() {
            return Err(InvError::StoreFailure { message: "container does not exist".to_owned() });
        }
    }
    if name_exists_in_container(store, name, container_id) {
        return Err(InvError::DuplicateName { name: name.to_owned(), container_id });
    }
    if store.next_id() == i64::MAX {
        return Err(InvError::StoreFailure { message: "no item id left".to_owned() });
    }
    store.push_item(name, description, container_id, now);
    let i = store.len() - 1;
    let it = store.item_at(i).copied();
    Ok(it)
}

/// Renames the item; the name must be free in its container. An unknown id changes nothing.
pub fn update_item_name(store: &mut Store, item_id: i64, new_name: &str, now: &str) -> (r: Result<(), InvError>)
    requires
        old(store).wf(),
        new_name@.len() > 0,
    ensures
        final(store).wf(),
        final(store).next_free() == old(store).next_free(),
        match r {
            Ok(()) => if contains_id(old(store)@, item_id) {
                let i = index_of_id(old(store)@, item_id);
                name_free_except(old(store)@, new_name@, old(store)@[i].container_id, i)
                    && final(store)@ == old(store)@.update(
                    i,
                    ItemModel { name: new_name@, updated_at: now@, ..old(store)@[i] },
                )
            } else {
                final(store)@ == old(store)@
            },
            Err(e) => {
                let i = index_of_id(old(store)@, item_id);
                &&& contains_id(old(store)@, item_id)
                &&& !name_free_except(old(store)@, new_name@, old(store)@[i].container_id, i)
                &&& is_duplicate(e, new_name@, old(store)@[i].container_id)
                &&& final(store)@ == old(store)@
            },
        },
{
    let i = match find_index(store, item_id) {
        Some(i) => i,
        None => {
            return Ok(());
        },
    };
    let c = store.item_at(i).container_id;
    let key = new_name.to_owned();
    match find_child(store, c, &key) {
        Some(j) => {
            if j != i {
                return Err(InvError::DuplicateName { name: key, container_id: c });
            }
        },
        None => {},
    }
    store.set_name(i, new_name, now);
    Ok(())
}

/// Sets or clears the item's description. An unknown id changes nothing.
pub fn update_item_description(store: &mut Store, item_id: i64, new_description: Option<&str>, now: &str)
    requires
        old(store).wf(),
    ensures
        final(store).wf(),
        final(store).next_free() == old(store).next_free(),
        if contains_id(old(store)@, item_id) {
            let i = index_of_id(old(store)@, item_id);
            final(store)@ == old(store)@.update(
                i,
                ItemModel {
                    description: opt_str_view(new_description),
                    updated_at: now@,
                    ..old(store)@[i]
                },
            )
        } else {
            final(store)@ == old(store)@
        },
{
    match find_index(store, item_id) {
        Some(i) => store.set_description(i, new_description, now),
        None => {},
    }
}

/// Puts the item into another container (`None`: the root level). The caller has
/// ruled out a cycle; the table refuses a missing container and a name clash.
/// An unknown id changes nothing.
pub fn move_item(store: &mut Store, item_id: i64, new_container_id: Option<i64>, now: &str) -> (r: Result<(), InvError>)
    requires
        old(store).wf(),
        new_container_id matches Some(d) ==> !crate::store::is_ancestor(old(store)@, item_id, d),
    ensures
        final(store).wf(),
        final(store).next_free() == old(store).next_free(),
        match r {
            Ok(()) => if contains_id(old(store)@, item_id) {
                let i = index_of_id(old(store)@, item_id);
                container_ok(old(store)@, new_container_id) && name_free_except(
                    old(store)@,
                    old(store)@[i].name,
                    new_container_id,
                    i,
                ) && final(store)@ == old(store)@.update(
                    i,
                    ItemModel { container_id: new_container_id, updated_at: now@, ..old(store)@[i] },
                )
            } else {
                final(store)@ == old(store)@
            },
            Err(e) => {
                let i = index_of_id(old(store)@, item_id);
                &&& contains_id(old(store)@, item_id)
                &&& final(store)@ == old(store)@
                &&& if !container_ok(old(store)@, new_container_id) {
                    is_store_failure(e)
                } else {
                    !name_free_except(old(store)@, old(store)@[i].name, new_container_id, i)
                        && is_duplicate(e, old(store)@[i].name, new_container_id)
                }
            },
        },
{
    let i = match find_index(store, item_id) {
        Some(i) => i,
        None => {
            return Ok(());
        },
    };
    if let Some(d) = new_container_id {
        if find_index(store, d).is_none() {
            return Err(InvError::StoreFailure { message: "container does not exist".to_owned() });
        }
    }
    let name = store.item_at(i).name.clone();
    match find_child(store, new_container_id, &name) {
        Some(j) => {
            if j != i {
                return Err(InvError::DuplicateName { name, container_id: new_container_id });
            }
        },
        None => {},
    }
    store.set_container(i, new_container_id, now);
    Ok(())
}

/// Deletes the item; its direct children go to the root level. The table refuses
/// the deletion when a child's name is already taken there. An unknown id changes nothing.
pub fn delete_item(store: &mut Store, item_id: i64, now: &str) -> (r: Result<(), InvError>)
    requires
        old(store).wf(),
    ensures
        final(store).wf(),
        final(store).next_free() == old(store).next_free(),
        match r {
            Ok(()) => if contains_id(old(store)@, item_id) {
                orphans_fit(old(store)@, item_id) && final(store)@ == after_remove(
                    old(store)@,
                    index_of_id(old(store)@, item_id),
                    now@,
                )
            } else {
                final(store)@ == old(store)@
            },
            Err(e) => {
                &&& contains_id(old(store)@, item_id)
                &&& final(store)@ == old(store)@
                &&& exists|j: int|
                    0 <= j < old(store)@.len() && #[trigger] old(store)@[j].container_id == Some(item_id)
                        && name_taken(old(store)@, old(store)@[j].name, None) && is_duplicate(
                        e,
                        old(store)@[j].name,
                        None,
                    )
            },
        },
{
    let i = match find_index(store, item_id) {
        Some(i) => i,
        None => {
            return Ok(());
        },
    };
    let n = store.len();
    let mut k: usize = 0;
    while k < n
        invariant
            store.wf(),
            n == store@.len(),
            k <= n,
            forall|j: int|
                0 <= j < k && #[trigger] store@[j].container_id == Some(item_id) ==> !name_taken(
                    store@,
                    store@[j].name,
                    None,
                ),
        decreases n - k,
    {
        let it = store.item_at(k);
        if same_container(it.container_id, Some(item_id)) {
            if find_child(store, None, &it.name).is_some() {
                return Err(InvError::DuplicateName { name: it.name.clone(), container_id: None });
            }
        }
        k = k + 1;
    }
    store.remove_at(i, now);
    Ok(())
}

/// The item that a reference names; `NotFound` when none does.
pub fn resolve(store: &Store, reference: &str) -> (r: Result<Item, InvError>)
    requires
        store.wf(),
    ensures
        match r {
            Ok(it) => resolves_to(store@, reference@) == Some(it.id) && it@ == item_of(store@, it.id)
                && contains_id(store@, it.id),
            Err(e) => resolves_to(store@, reference@) is None && if is_ambiguous_ref(store@, reference@) {
                is_ambiguous(e, reference@, candidate_paths(*store, reference@))
            } else {
                is_not_found(e, reference@)
            },
        },
{
    match resolve_item(store, reference) {
        Ok(Some(it)) => Ok(it),
        Ok(None) => Err(InvError::NotFound { reference: reference.to_owned() }),
        Err(e) => Err(e),
    }
}

/// The container that a reference names, created with any missing part of its
/// path when nothing matches. An ambiguous bare name is an error, never a new item.
pub fn resolve_or_create_container(store: &mut Store, reference: &str, now: &str) -> (r: Result<Item, InvError>)
    requires
        old(store).wf(),
    ensures
        final(store).wf(),
        match r {
            Ok(it) => it@ == item_of(final(store)@, it.id) && container_resolved(
                *old(store),
                reference@,
                now@,
                final(store)@,
                it.id,
            ) && (final(store)@ == old(store)@ ==> final(store).next_free() == old(store).next_free()),
            Err(e) => final(store)@ == old(store)@ && final(store).next_free() == old(store).next_free()
                && container_failed(*old(store), reference@, e),
        },
{
    match resolve_item(store, reference) {
        Ok(Some(it)) => {
            return Ok(it);
        },
        Ok(None) => {},
        Err(e) => {
            return Err(e);
        },
    }
    let segs = split_segments(reference);
    let ghost gs = segments(reference@);
    assert(gs.len() == segs@.len());
    if segs.len() == 0 {
        return Err(InvError::NotFound { reference: reference.to_owned() });
    }
    let budget = i64::MAX - store.next_id();
    if (budget as u64) < (segs.len() as u64) {
        return Err(InvError::StoreFailure { message: "no item id left".to_owned() });
    }
    let ghost s0 = store@;
    let ghost n0 = store.next_free();
    let ghost mut chain: Seq<i64> = Seq::empty();
    let ghost mut created = false;
    let mut cur: Option<i64> = None;
    let mut k: usize = 0;
    assert(gs.skip(0) =~= gs);
    while k < segs.len()
        invariant
            store.wf(),
            views(segs@) == gs,
            gs == segments(reference@),
            gs.len() == segs@.len(),
            k <= segs.len(),
            materialized(s0, gs, None, n0, now@) == materialized(
                store@,
                gs.skip(k as int),
                cur,
                store.next_free(),
                now@,
            ),
            store.next_free() + (gs.len() - k) <= i64::MAX,
            chain.len() == k,
            is_chain(store@, gs, chain, k as int),
            k == 0 ==> cur is None,
            k > 0 ==> cur == Some(chain[k - 1]),
            cur matches Some(c) ==> contains_id(store@, c),
            table_wf(s0, n0),
            s0 == old(store)@,
            n0 == old(store).next_free(),
            resolves_to(s0, reference@) is None,
            !is_ambiguous_ref(s0, reference@),
            !created ==> store@ == s0 && store.next_free() == n0 && walk(s0, gs, None) == walk(
                s0,
                gs.skip(k as int),
                cur,
            ),
            created ==> cur is Some && cur->0 >= n0 && forall|j: int|
                0 <= j < store@.len() ==> #[trigger] store@[j].container_id != cur,
            store.next_free() >= n0,
        decreases segs.len() - k,
    {
        let ghost rest = gs.skip(k as int);
        assert(rest[0] == segs@[k as int]@);
        assert(rest.drop_first() =~= gs.skip(k + 1));
        proof {
            assert(segs@[k as int]@ == gs[k as int]);
            assert(gs[k as int].len() > 0) by {
                crate::text::lemma_segments_nonempty(reference@, k as int);
            }
        }
        let ghost before = store@;
        let ghost before_next = store.next_free();
        let next = match find_child(store, cur, &segs[k]) {
            Some(i) => {
                proof {
                    lemma_item_of(store@, store.next_free(), i as int);
                    if created {
                        assert(store@[i as int].container_id != cur);
                    }
                    assert(materialized(store@, rest, cur, store.next_free(), now@) == materialized(
                        store@,
                        rest.drop_first(),
                        Some(store@[i as int].id),
                        store.next_free(),
                        now@,
                    ));
                }
                store.item_at(i).id
            },
            None => {
                let id = store.push_item(segs[k].as_str(), None, cur, now);
                proof {
                    let t = store@;
                    assert(materialized(before, rest, cur, before_next, now@) == materialized(
                        t,
                        rest.drop_first(),
                        Some(id),
                        store.next_free(),
                        now@,
                    ));
                    lemma_item_of(t, store.next_free(), before.len() as int);
                    lemma_chain_push(before, t, store.next_free(), gs, chain, k as int);
                    assert forall|j: int| 0 <= j < t.len() implies #[trigger] t[j].container_id != Some(id) by {
                        if j < before.len() {
                            assert(t[j] == before[j]);
                            if let Some(p) = before[j].container_id {
                                assert(crate::store::link_ok(before, before[j]));
                                let q = choose|q: int| 0 <= q < before.len() && #[trigger] before[q].id == p;
                                assert(before[q].id < before_next);
                            }
                        } else {
                            if let Some(p) = cur {
                                let q = choose|q: int| 0 <= q < before.len() && #[trigger] before[q].id == p;
                                assert(before[q].id < before_next);
                            }
                        }
                    }
                    created = true;
                }
                id
            },
        };
        proof {
            let c2 = chain.push(next);
            assert(contains_id(store@, next));
            assert forall|j: int| 0 <= j < k + 1 implies #[trigger] chain_link(store@, gs, c2, j) by {
                if j < k {
                    assert(chain_link(store@, gs, chain, j));
                    assert(c2[j] == chain[j]);
                    if j > 0 {
                        assert(c2[j - 1] == chain[j - 1]);
                    }
                } else {
                    assert(c2[j] == next);
                }
            }
            chain = c2;
        }
        cur = Some(next);
        k = k + 1;
    }
    assert(gs.skip(k as int).len() == 0);
    proof {
        lemma_walk_chain(store@, store.next_free(), gs, chain, 0);
        if !created {
            assert(walk(s0, gs, None) == cur);
            if !has_separator(reference@) {
                assert(reference@.len() > 0) by {
                    if reference@.len() == 0 {
                        assert(segments(reference@).len() == 0);
                    }
                }
                lemma_segments_bare(reference@);
                assert(child_named(s0, None, reference@) is Some);
                let j = choose|j: int| 0 <= j < s0.len() && #[trigger] s0[j].name == reference@ && s0[j].container_id == None::<i64>;
                s0.lemma_filter_contains(with_name(reference@), j);
            }
        }
        let c = cur->0;
        assert(!contains_id(s0, c)) by {
            if contains_id(s0, c) {
                let q = choose|q: int| 0 <= q < s0.len() && #[trigger] s0[q].id == c;
            }
        }
    }
    let c = cur.unwrap();
    let i = find_index(store, c).unwrap();
    proof {
        lemma_item_of(store@, store.next_free(), i as int);
    }
    Ok(store.item_at(i).copied())
}

/// The item that `name`, read as a path from the root level, leads to; created
/// at the root level under exactly that name when nothing matches.
pub fn get_or_create_container(store: &mut Store, name: &str, now: &str) -> (r: Result<Item, InvError>)
    requires
        old(store).wf(),
        name@.len() > 0,
    ensures
        final(store).wf(),
        match lookup_path(old(store)@, name@) {
            Some(x) => final(store)@ == old(store)@ && match r {
                Ok(it) => it.id == x && it@ == item_of(old(store)@, x),
                Err(_) => false,
            },
            None => match r {
                Ok(it) => !name_taken(old(store)@, name@, None) && it@ == new_model(
                    old(store).next_free(),
                    name@,
                    None,
                    None,
                    now@,
                ) && final(store)@ == old(store)@.push(it@),
                Err(e) => final(store)@ == old(store)@ && if name_taken(old(store)@, name@, None) {
                    is_duplicate(e, name@, None)
                } else {
                    old(store).next_free() == i64::MAX && is_store_failure(e)
                },
            },
        },
{
    match get_item_by_path(store, name) {
        Some(it) => Ok(it),
        None => insert_item(store, name, None, None, now),
    }
}

} // verus!
