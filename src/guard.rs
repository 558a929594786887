//! Checks that keep the container graph a forest with unique names per container.

use vstd::prelude::*;
use crate::db::{find_child, is_ancestor};
use crate::error::{InvError, is_cycle, is_duplicate};
use crate::model::Item;
use crate::store::Store;

verus! {

/// Some item other than `exclude_id` carries the name in container `c`.
pub open spec fn name_occupied(s: Seq<crate::model::ItemModel>, name: Seq<char>, c: Option<i64>, exclude_id: Option<i64>) -> bool {
    exists|j: int|
        0 <= j < s.len() && #[trigger] s[j].name == name && s[j].container_id == c && exclude_id != Some(
            s[j].id,
        )
}

/// Refuses to put `moving` into `destination_id` when that is the item itself or
/// lies below it.
pub fn assert_no_cycle(store: &Store, moving: &Item, destination_id: i64) -> (r: Result<(), InvError>)
    requires
        store.wf(),
    ensures
        match r {
            Ok(()) => !crate::store::is_ancestor(store@, moving.id, destination_id),
            Err(e) => crate::store::is_ancestor(store@, moving.id, destination_id) && is_cycle(e, moving.name@),
        },
{
    if destination_id == moving.id || is_ancestor(store, moving.id, destination_id) {
        proof {
            assert(crate::store::ancestor_at(store@, destination_id, 0) == Some(destination_id));
        }
        Err(InvError::CycleViolation { name: moving.name.clone() })
    } else {
        Ok(())
    }
}

/// Refuses a name that another item (not `exclude_id`) already carries in `container_id`.
pub fn assert_name_available(store: &Store, name: &str, container_id: Option<i64>, exclude_id: Option<i64>) -> (r: Result<(), InvError>)
    requires
        store.wf(),
    ensures
        match r {
            Ok(()) => !name_occupied(store@, name@, container_id, exclude_id),
            Err(e) => name_occupied(store@, name@, container_id, exclude_id) && is_duplicate(e, name@, container_id),
        },
{
    let key = name.to_owned();
    match find_child(store, container_id, &key) {
        Some(i) => {
            let id = store.item_at(i).id;
            let excluded = match exclude_id {
                Some(x) => x == id,
                None => false,
            };
            if excluded {
                proof {
                    assert forall|j: int| 0 <= j < store@.len() && #[trigger] store@[j].name == name@
                        && store@[j].container_id == container_id implies exclude_id == Some(store@[j].id) by {
                        if j != i {
                            assert(crate::store::unique_names(store@));
                        }
                    }
                }
                Ok(())
            } else {
                Err(InvError::DuplicateName { name: key, container_id })
            }
        },
        None => Ok(()),
    }
}

} // verus!
