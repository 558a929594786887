//! Searching items by name or description.

use vstd::prelude::*;
use crate::commands::shows;
use crate::db::{search_items, get_item_path, matches_query};
use crate::model::ItemWithPath;
use crate::store::{Store, items_view};
use crate::text::folded;

verus! {

/// The items whose name or description holds the query, letter case aside, each with its path.
pub fn run(store: &Store, query: &str) -> (r: Vec<ItemWithPath>)
    requires
        store.wf(),
    ensures
        r@.len() == store@.filter(matches_query(folded(query@))).len(),
        forall|j: int|
            0 <= j < r@.len() ==> shows(
                #[trigger] r@[j],
                store@.filter(matches_query(folded(query@)))[j],
                store.path_of(store@.filter(matches_query(folded(query@)))[j].id),
                None,
            ),
{
    let items = search_items(store, query);
    let ghost hits = store@.filter(matches_query(folded(query@)));
    let mut out: Vec<ItemWithPath> = Vec::new();
    let mut k: usize = 0;
    let n = items.len();
    while k < n
        invariant
            store.wf(),
            items_view(items@) == hits,
            hits == store@.filter(matches_query(folded(query@))),
            n == items@.len(),
            k <= n,
            out@.len() == k,
            forall|j: int| 0 <= j < k ==> shows(#[trigger] out@[j], hits[j], store.path_of(hits[j].id), None),
        decreases n - k,
    {
        let it = items[k].copied();
        assert(it@ == hits[k as int]);
        let path = get_item_path(store, it.id);
        out.push(it.with_path(path, None));
        k = k + 1;
    }
    out
}

} // verus!
