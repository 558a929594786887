//! Removing an item; its contents move to the root level.

use vstd::prelude::*;
use crate::commands::resolve_failed;
use crate::db::{resolve, list_items_in_container, delete_item, resolves_to, children_of, orphans_fit};
use crate::error::{InvError, is_duplicate};
use crate::model::ItemModel;
use crate::store::{Store, item_of, index_of_id, after_remove, name_taken, items_view};
use crate::text::views;

verus! {

/// What a removal did: the name of the removed item and the names of its former contents.
#[derive(Debug, Clone)]
pub struct Removed {
    pub name: String,
    pub orphaned: Vec<String>,
}

pub open spec fn model_names(s: Seq<ItemModel>) -> Seq<Seq<char>> {
    s.map_values(|m: ItemModel| m.name)
}

/// Removes the referenced item and reports the direct children that went to the root level.
pub fn run(store: &mut Store, item_ref: &str, now: &str) -> (r: Result<Removed, InvError>)
    requires
        old(store).wf(),
    ensures
        final(store).wf(),
        match r {
            Ok(rm) => {
                let x = resolves_to(old(store)@, item_ref@)->0;
                &&& resolves_to(old(store)@, item_ref@) is Some
                &&& rm.name@ == item_of(old(store)@, x).name
                &&& views(rm.orphaned@) == model_names(children_of(old(store)@, Some(x)))
                &&& orphans_fit(old(store)@, x)
                &&& final(store)@ == after_remove(old(store)@, index_of_id(old(store)@, x), now@)
            },
            Err(e) => final(store)@ == old(store)@ && match resolves_to(old(store)@, item_ref@) {
                None => resolve_failed(*old(store), item_ref@, e),
                Some(x) => !orphans_fit(old(store)@, x) && exists|j: int|
                    0 <= j < old(store)@.len() && #[trigger] old(store)@[j].container_id == Some(x)
                        && name_taken(old(store)@, old(store)@[j].name, None) && is_duplicate(
                        e,
                        old(store)@[j].name,
                        None,
                    ),
            },
        },
{
    let item = match resolve(store, item_ref) {
        Ok(it) => it,
        Err(e) => {
            return Err(e);
        },
    };
    let children = list_items_in_container(store, item.id);
    let ghost kids = children_of(store@, Some(item.id));
    let mut names: Vec<String> = Vec::new();
    let mut k: usize = 0;
    while k < children.len()
        invariant
            items_view(children@) == kids,
            k <= children@.len(),
            names@.len() == k,
            forall|j: int| 0 <= j < k ==> #[trigger] names@[j]@ == kids[j].name,
        decreases children.len() - k,
    {
        assert(children@[k as int]@ == kids[k as int]);
        names.push(children[k].name.clone());
        k = k + 1;
    }
    assert(views(names@) =~= model_names(kids));
    match delete_item(store, item.id, now) {
        Ok(()) => Ok(Removed { name: item.name, orphaned: names }),
        Err(e) => Err(e),
    }
}

} // verus!
