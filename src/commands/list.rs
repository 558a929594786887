//! Listing the contents of the root level or of a container.

use vstd::prelude::*;
use crate::commands::resolve_failed;
use crate::db::{resolve, list_root_items, list_items_in_container, count_children, resolves_to, children_of};
use crate::error::InvError;
use crate::model::{Item, ItemModel, ListItem, opt_view};
use crate::store::{Store, items_view};

verus! {

/// `v` lists the records `kids` in order, each with its number of direct children in `s`.
pub open spec fn lists(s: Seq<ItemModel>, v: Seq<ListItem>, kids: Seq<ItemModel>) -> bool {
    &&& v.len() == kids.len()
    &&& forall|j: int|
        0 <= j < v.len() ==> {
            &&& (#[trigger] v[j]).id == kids[j].id
            &&& v[j].name@ == kids[j].name
            &&& opt_view(v[j].description) == kids[j].description
            &&& v[j].child_count == children_of(s, Some(kids[j].id)).len()
        }
}

/// The rows of a listing of `items`, with their child counts.
pub fn list_rows(store: &Store, items: Vec<Item>) -> (r: Vec<ListItem>)
    requires
        store.wf(),
    ensures
        lists(store@, r@, items_view(items@)),
{
    let ghost kids = items_view(items@);
    let mut out: Vec<ListItem> = Vec::new();
    let mut rest = items;
    let mut k: usize = 0;
    let n = rest.len();
    while k < n
        invariant
            store.wf(),
            n == kids.len(),
            k <= n,
            rest@.len() == n,
            forall|j: int| k <= j < n ==> (#[trigger] rest@[j])@ == kids[j],
            out@.len() == k,
            lists(store@, out@, kids.subrange(0, k as int)),
        decreases n - k,
    {
        let it = rest[k].copied();
        let count = count_children(store, it.id);
        let row = it.into_list_item(count);
        out.push(row);
        k = k + 1;
        assert(lists(store@, out@, kids.subrange(0, k as int))) by {
            assert forall|j: int| 0 <= j < out@.len() implies {
                &&& (#[trigger] out@[j]).id == kids.subrange(0, k as int)[j].id
                &&& out@[j].name@ == kids.subrange(0, k as int)[j].name
                &&& opt_view(out@[j].description) == kids.subrange(0, k as int)[j].description
                &&& out@[j].child_count == children_of(store@, Some(kids.subrange(0, k as int)[j].id)).len()
            } by {
                if j < k - 1 {
                    assert(kids.subrange(0, k - 1)[j] == kids.subrange(0, k as int)[j]);
                }
            }
        }
    }
    assert(kids.subrange(0, n as int) =~= kids);
    out
}

/// The direct contents of the referenced container, or of the root level, with their child counts.
pub fn run(store: &Store, container: Option<&str>) -> (r: Result<Vec<ListItem>, InvError>)
    requires
        store.wf(),
    ensures
        match r {
            Ok(v) => match container {
                None => lists(store@, v@, children_of(store@, None)),
                Some(c) => resolves_to(store@, c@) is Some && lists(
                    store@,
                    v@,
                    children_of(store@, resolves_to(store@, c@)),
                ),
            },
            Err(e) => match container {
                Some(c) => resolve_failed(*store, c@, e),
                None => false,
            },
        },
{
    let items = match container {
        Some(c) => match resolve(store, c) {
            Ok(it) => list_items_in_container(store, it.id),
            Err(e) => {
                return Err(e);
            },
        },
        None => list_root_items(store),
    };
    Ok(list_rows(store, items))
}

} // verus!
