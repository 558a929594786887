//! Showing one item with its path and contents count.

use vstd::prelude::*;
use crate::commands::{shows, resolve_failed};
use crate::db::{resolve, get_item_path, count_children, resolves_to, children_of};
use crate::error::InvError;
use crate::model::ItemWithPath;
use crate::store::{Store, item_of};

verus! {

/// The referenced item, its path from the root and its number of direct children.
pub fn run(store: &Store, item_ref: &str) -> (r: Result<ItemWithPath, InvError>)
    requires
        store.wf(),
    ensures
        match r {
            Ok(iw) => resolves_to(store@, item_ref@) == Some(iw.id) && shows(
                iw,
                item_of(store@, iw.id),
                store.path_of(iw.id),
                Some(children_of(store@, Some(iw.id)).len() as i64),
            ),
            Err(e) => resolve_failed(*store, item_ref@, e),
        },
{
    let item = match resolve(store, item_ref) {
        Ok(it) => it,
        Err(e) => {
            return Err(e);
        },
    };
    let path = get_item_path(store, item.id);
    let count = count_children(store, item.id);
    Ok(item.with_path(path, Some(count)))
}

} // verus!
