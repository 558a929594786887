//! Projection of the flat table into ordered trees for recursive listings.

use vstd::prelude::*;
use crate::model::{ItemModel, ListItem, TreeItem, opt_view, copy_opt};
use crate::store::{Store, contains_id, item_of, lemma_item_of};
use crate::text::{
    folded, lex_lt, folded_codes, lex_compare, lemma_lex_irreflexive, lemma_lex_transitive,
    lemma_lex_total,
};

verus! {

/// Sibling order: names compared without regard to ASCII case, ties broken by id.
pub open spec fn key_lt(a: ItemModel, b: ItemModel) -> bool {
    lex_lt(folded(a.name), folded(b.name)) || (folded(a.name) == folded(b.name) && a.id < b.id)
}

pub proof fn lemma_key_transitive(a: ItemModel, b: ItemModel, c: ItemModel)
    requires
        key_lt(a, b),
        key_lt(b, c),
    ensures
        key_lt(a, c),
{
    let (fa, fb, fc) = (folded(a.name), folded(b.name), folded(c.name));
    if lex_lt(fa, fb) && lex_lt(fb, fc) {
        lemma_lex_transitive(fa, fb, fc);
    }
}

pub proof fn lemma_key_total(a: ItemModel, b: ItemModel)
    requires
        a.id != b.id,
    ensures
        key_lt(a, b) || key_lt(b, a),
{
    if folded(a.name) != folded(b.name) {
        lemma_lex_total(folded(a.name), folded(b.name));
    }
}

/// `ids` are exactly the items directly inside `parent`, in sibling order.
pub open spec fn group_ok(s: Seq<ItemModel>, ids: Seq<i64>, parent: Option<i64>) -> bool {
    &&& forall|q: int|
        0 <= q < ids.len() ==> contains_id(s, #[trigger] ids[q]) && item_of(s, ids[q]).container_id == parent
    &&& forall|j: int|
        0 <= j < s.len() && #[trigger] s[j].container_id == parent ==> exists|q: int|
            0 <= q < ids.len() && ids[q] == s[j].id
    &&& forall|a: int, b: int| 0 <= a < b < ids.len() ==> key_lt(item_of(s, ids[a]), item_of(s, ids[b]))
}

pub open spec fn tree_ids(ts: Seq<TreeItem>) -> Seq<i64> {
    ts.map_values(|t: TreeItem| t.id)
}

/// `t` is the projection of its item: its fields, its direct child count, and
/// the projections of its children in sibling order.
pub open spec fn tree_ok(st: Store, t: TreeItem) -> bool
    decreases t,
{
    &&& contains_id(st@, t.id)
    &&& t.name@ == item_of(st@, t.id).name
    &&& opt_view(t.description) == item_of(st@, t.id).description
    &&& t.child_count == t.children@.len()
    &&& group_ok(st@, tree_ids(t.children@), Some(t.id))
    &&& forall|i: int| 0 <= i < t.children@.len() ==> tree_ok(st, #[trigger] t.children@[i])
}

/// `ts` are the projections of the items directly inside `parent`, in sibling order.
pub open spec fn forest_ok(st: Store, ts: Seq<TreeItem>, parent: Option<i64>) -> bool {
    group_ok(st@, tree_ids(ts), parent) && forall|i: int| 0 <= i < ts.len() ==> tree_ok(st, #[trigger] ts[i])
}

/// Whether the record at `a` comes before the record at `b` among siblings.
fn key_less(store: &Store, a: usize, b: usize) -> (r: bool)
    requires
        a < store@.len(),
        b < store@.len(),
    ensures
        r == key_lt(store@[a as int], store@[b as int]),
{
    let ia = store.item_at(a);
    let ib = store.item_at(b);
    let fa = folded_codes(ia.name.as_str());
    let fb = folded_codes(ib.name.as_str());
    let c = lex_compare(&fa, &fb);
    if c < 0 {
        true
    } else if c > 0 {
        proof {
            lemma_lex_irreflexive(fa@);
            if lex_lt(fa@, fb@) {
                lemma_lex_transitive(fa@, fb@, fa@);
            }
        }
        false
    } else {
        proof {
            lemma_lex_irreflexive(fa@);
        }
        ia.id < ib.id
    }
}

pub open spec fn ids_of(s: Seq<ItemModel>, order: Seq<usize>) -> Seq<i64> {
    order.map_values(|i: usize| s[i as int].id)
}

/// The positions of the items directly inside `parent`, in sibling order.
fn sorted_group(store: &Store, parent: Option<i64>) -> (r: Vec<usize>)
    requires
        store.wf(),
    ensures
        r@.len() <= store@.len(),
        forall|q: int| 0 <= q < r@.len() ==> #[trigger] r@[q] < store@.len(),
        group_ok(store@, ids_of(store@, r@), parent),
{
    let ghost s = store@;
    let n = store.len();
    let mut out: Vec<usize> = Vec::new();
    let mut k: usize = 0;
    while k < n
        invariant
            store.wf(),
            s == store@,
            n == s.len(),
            k <= n,
            out@.len() <= k,
            forall|q: int| 0 <= q < out@.len() ==> #[trigger] out@[q] < k,
            forall|q: int| 0 <= q < out@.len() ==> s[#[trigger] out@[q] as int].container_id == parent,
            forall|j: int|
                0 <= j < k && #[trigger] s[j].container_id == parent ==> exists|q: int|
                    0 <= q < out@.len() && out@[q] == j,
            forall|a: int, b: int| 0 <= a < b < out@.len() ==> key_lt(s[out@[a] as int], s[out@[b] as int]),
        decreases n - k,
    {
        if crate::db::same_container(store.item_at(k).container_id, parent) {
            let mut p: usize = 0;
            while p < out.len() && !key_less(store, k, out[p])
                invariant
                    store.wf(),
                    s == store@,
                    k < n,
                    n == s.len(),
                    p <= out@.len(),
                    forall|q: int| 0 <= q < out@.len() ==> #[trigger] out@[q] < k,
                    forall|q: int| 0 <= q < p ==> !key_lt(s[k as int], s[#[trigger] out@[q] as int]),
                decreases out@.len() - p,
            {
                p = p + 1;
            }
            let ghost before = out@;
            out.insert(p, k);
            proof {
                assert forall|q: int| 0 <= q < out@.len() implies #[trigger] out@[q] == (if q < p {
                    before[q]
                } else if q == p {
                    k
                } else {
                    before[q - 1]
                }) by {}
                assert forall|q: int| 0 <= q < p implies key_lt(s[#[trigger] before[q] as int], s[k as int]) by {
                    assert(s[before[q] as int].id < s[k as int].id);
                    lemma_key_total(s[before[q] as int], s[k as int]);
                }
                assert forall|a: int, b: int| 0 <= a < b < out@.len() implies key_lt(
                    s[out@[a] as int],
                    s[out@[b] as int],
                ) by {
                    if b < p {
                    } else if b == p {
                        assert(key_lt(s[before[a] as int], s[k as int]));
                    } else if a < p {
                        assert(p < before.len());
                        assert(key_lt(s[k as int], s[before[p as int] as int]));
                        assert(key_lt(s[before[a] as int], s[k as int]));
                        if b - 1 > p {
                            assert(key_lt(s[before[p as int] as int], s[before[b - 1] as int]));
                            lemma_key_transitive(s[k as int], s[before[p as int] as int], s[before[b - 1] as int]);
                        }
                        lemma_key_transitive(s[before[a] as int], s[k as int], s[before[b - 1] as int]);
                    } else if a == p {
                        assert(key_lt(s[k as int], s[before[p as int] as int]));
                        if b - 1 > p {
                            assert(key_lt(s[before[p as int] as int], s[before[b - 1] as int]));
                            lemma_key_transitive(s[k as int], s[before[p as int] as int], s[before[b - 1] as int]);
                        }
                    } else {
                        assert(key_lt(s[before[a - 1] as int], s[before[b - 1] as int]));
                    }
                }
                assert forall|j: int| 0 <= j < k + 1 && #[trigger] s[j].container_id == parent implies exists|q: int|
                    0 <= q < out@.len() && out@[q] == j by {
                    if j == k {
                        assert(out@[p as int] == k);
                    } else {
                        let q = choose|q: int| 0 <= q < before.len() && before[q] == j;
                        if q < p {
                            assert(out@[q] == j);
                        } else {
                            assert(out@[q + 1] == j);
                        }
                    }
                }
            }
        }
        k = k + 1;
    }
    proof {
        let ids = ids_of(s, out@);
        assert forall|q: int| 0 <= q < ids.len() implies contains_id(s, #[trigger] ids[q]) && item_of(s, ids[q]).container_id == parent by {
            lemma_item_of(s, store.next_free(), out@[q] as int);
        }
        assert forall|j: int| 0 <= j < s.len() && #[trigger] s[j].container_id == parent implies exists|q: int|
            0 <= q < ids.len() && ids[q] == s[j].id by {
            let q = choose|q: int| 0 <= q < out@.len() && out@[q] == j;
            assert(ids[q] == s[j].id);
        }
        assert forall|a: int, b: int| 0 <= a < b < ids.len() implies key_lt(item_of(s, ids[a]), item_of(s, ids[b])) by {
            lemma_item_of(s, store.next_free(), out@[a] as int);
            lemma_item_of(s, store.next_free(), out@[b] as int);
        }
    }
    out
}

/// The projections of the items directly inside `parent`, in sibling order.
fn build_children(store: &Store, parent: Option<i64>) -> (r: Vec<TreeItem>)
    requires
        store.wf(),
        parent matches Some(p) ==> contains_id(store@, p),
    ensures
        forest_ok(*store, r@, parent),
        r@.len() <= store@.len(),
    decreases match parent {
        Some(p) => store.rank_bound() - store.rank(p),
        None => store.rank_bound() + 1int,
    },
{
    let ghost s = store@;
    let order = sorted_group(store, parent);
    let ghost ids = ids_of(s, order@);
    let mut out: Vec<TreeItem> = Vec::new();
    let mut q: usize = 0;
    while q < order.len()
        invariant
            store.wf(),
            s == store@,
            parent matches Some(p) ==> contains_id(s, p),
            ids == ids_of(s, order@),
            order@.len() <= s.len(),
            forall|j: int| 0 <= j < order@.len() ==> #[trigger] order@[j] < s.len(),
            group_ok(s, ids, parent),
            q <= order@.len(),
            out@.len() == q,
            forall|j: int| 0 <= j < q ==> (#[trigger] out@[j]).id == ids[j] && tree_ok(*store, out@[j]),
        decreases order@.len() - q,
    {
        let i = order[q];
        let it = store.item_at(i);
        proof {
            lemma_item_of(s, store.next_free(), i as int);
            assert(ids[q as int] == s[i as int].id);
            assert(item_of(s, ids[q as int]).container_id == parent);
            assert(store.rank(s[i as int].id) < store.rank_bound());
            if let Some(p) = parent {
                assert(store.rank(p) < store.rank(s[i as int].id));
            }
        }
        let kids = build_children(store, Some(it.id));
        proof {
            crate::db::lemma_len_bound(s, store.next_free());
        }
        let count = kids.len() as i64;
        let node = TreeItem {
            id: it.id,
            name: it.name.clone(),
            description: copy_opt(&it.description),
            child_count: count,
            children: kids,
        };
        assert(tree_ok(*store, node));
        out.push(node);
        q = q + 1;
    }
    assert(tree_ids(out@) =~= ids);
    out
}

/// The whole inventory as trees: the root items in sibling order, each with its
/// contents below it in the same order.
pub fn build_tree(store: &Store) -> (r: Vec<TreeItem>)
    requires
        store.wf(),
    ensures
        forest_ok(*store, r@, None),
{
    build_children(store, None)
}

/// A node as a row of a flat listing: id, name, description and child count.
pub open spec fn row_of(t: TreeItem) -> (i64, Seq<char>, Option<Seq<char>>, i64) {
    (t.id, t.name@, opt_view(t.description), t.child_count)
}

pub open spec fn rows(v: Seq<ListItem>) -> Seq<(i64, Seq<char>, Option<Seq<char>>, i64)> {
    v.map_values(|l: ListItem| (l.id, l.name@, opt_view(l.description), l.child_count))
}

/// The nodes of a forest in pre-order: each node, then the nodes below it, siblings in order.
pub open spec fn preorder(ts: Seq<TreeItem>) -> Seq<(i64, Seq<char>, Option<Seq<char>>, i64)>
    decreases ts,
{
    if ts.len() == 0 {
        Seq::empty()
    } else {
        proof {
            vstd::seq::axiom_seq_subrange_decreases(ts, 0, ts.len() - 1);
            vstd::seq::axiom_seq_index_decreases(ts, ts.len() - 1);
            vstd::std_specs::vec::axiom_vec_decreases_to_view(ts.last().children);
        }
        preorder(ts.drop_last()) + seq![row_of(ts.last())] + preorder(ts.last().children@)
    }
}

/// The forest as flat rows in pre-order, for listings without nesting.
pub fn flatten_tree(items: &Vec<TreeItem>) -> (r: Vec<ListItem>)
    ensures
        rows(r@) == preorder(items@),
    decreases items@,
{
    let mut out: Vec<ListItem> = Vec::new();
    let mut i: usize = 0;
    assert(items@.subrange(0, 0) =~= Seq::<TreeItem>::empty());
    while i < items.len()
        invariant
            i <= items@.len(),
            rows(out@) == preorder(items@.subrange(0, i as int)),
        decreases items.len() - i,
    {
        let t = &items[i];
        let ghost before = out@;
        out.push(ListItem { id: t.id, name: t.name.clone(), description: copy_opt(&t.description), child_count: t.child_count });
        proof {
            vstd::seq::axiom_seq_index_decreases(items@, i as int);
            vstd::std_specs::vec::axiom_vec_decreases_to_view(t.children);
        }
        let mut sub = flatten_tree(&t.children);
        let ghost mid = out@;
        out.append(&mut sub);
        proof {
            let next = items@.subrange(0, i + 1);
            assert(next.drop_last() =~= items@.subrange(0, i as int));
            assert(next.last() == *t);
            assert(rows(mid) =~= rows(before) + seq![row_of(*t)]);
            assert(rows(out@) =~= rows(mid) + preorder(t.children@));
        }
        i = i + 1;
    }
    assert(items@.subrange(0, items.len() as int) =~= items@);
    out
}

} // verus!
