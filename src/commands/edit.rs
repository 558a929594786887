//! Renaming an item or changing its description.

use vstd::prelude::*;
use crate::commands::{shows, resolve_failed};
use crate::db::{resolve, get_item_by_id, get_item_path, update_item_name, update_item_description, resolves_to};
use crate::error::{InvError, is_duplicate};
use crate::model::{ItemModel, ItemWithPath, opt_view};
use crate::store::{Store, index_of_id, name_free_except};

verus! {

/// What an edit did: the item as it is now, and its name and description before.
#[derive(Debug, Clone)]
pub struct Edited {
    pub item: ItemWithPath,
    pub old_name: String,
    pub old_description: Option<String>,
}

/// The description that an edit asks for: an empty text clears it.
pub open spec fn described(d: &str) -> Option<Seq<char>> {
    if d@.len() == 0 {
        None
    } else {
        Some(d@)
    }
}

/// The record after an edit with the given new name and new description, either of them absent.
pub open spec fn edited_record(m: ItemModel, new_name: Option<&str>, new_description: Option<&str>, now: Seq<char>) -> ItemModel {
    ItemModel {
        name: match new_name {
            Some(n) => n@,
            None => m.name,
        },
        description: match new_description {
            Some(d) => described(d),
            None => m.description,
        },
        updated_at: now,
        ..m
    }
}

/// Renames the referenced item and/or sets its description (`""` clears it).
pub fn run(
    store: &mut Store,
    item_ref: &str,
    new_name: Option<&str>,
    new_description: Option<&str>,
    now: &str,
) -> (r: Result<Edited, InvError>)
    requires
        old(store).wf(),
        new_name matches Some(n) ==> n@.len() > 0,
    ensures
        final(store).wf(),
        match r {
            Ok(ed) => {
                let x = ed.item.id;
                let i = index_of_id(old(store)@, x);
                &&& new_name is Some || new_description is Some
                &&& resolves_to(old(store)@, item_ref@) == Some(x)
                &&& match new_name {
                    Some(n) => name_free_except(old(store)@, n@, old(store)@[i].container_id, i),
                    None => true,
                }
                &&& final(store)@ == old(store)@.update(
                    i,
                    edited_record(old(store)@[i], new_name, new_description, now@),
                )
                &&& shows(ed.item, final(store)@[i], final(store).path_of(x), None)
                &&& ed.old_name@ == old(store)@[i].name
                &&& opt_view(ed.old_description) == old(store)@[i].description
            },
            Err(e) => final(store)@ == old(store)@ && if new_name is None && new_description is None {
                e is NoChangesRequested
            } else {
                match resolves_to(old(store)@, item_ref@) {
                    None => resolve_failed(*old(store), item_ref@, e),
                    Some(x) => {
                        let i = index_of_id(old(store)@, x);
                        match new_name {
                            Some(n) => !name_free_except(old(store)@, n@, old(store)@[i].container_id, i)
                                && is_duplicate(e, n@, old(store)@[i].container_id),
                            None => false,
                        }
                    },
                }
            },
        },
{
    if new_name.is_none() && new_description.is_none() {
        return Err(InvError::NoChangesRequested);
    }
    let item = match resolve(store, item_ref) {
        Ok(it) => it,
        Err(e) => {
            return Err(e);
        },
    };
    let ghost s0 = store@;
    let ghost i = index_of_id(s0, item.id);
    let ghost m0 = s0[i];
    if let Some(n) = new_name {
        match update_item_name(store, item.id, n, now) {
            Ok(()) => {},
            Err(e) => {
                return Err(e);
            },
        }
    }
    let ghost s1 = store@;
    if let Some(d) = new_description {
        let v = if d.is_empty() {
            None
        } else {
            Some(d)
        };
        update_item_description(store, item.id, v, now);
    }
    proof {
        assert(store@[i] == edited_record(m0, new_name, new_description, now@));
        assert(store@ =~= s0.update(i, edited_record(m0, new_name, new_description, now@)));
        crate::store::lemma_item_of(store@, store.next_free(), i);
    }
    let updated = get_item_by_id(store, item.id).unwrap();
    let path = get_item_path(store, item.id);
    Ok(Edited { item: updated.with_path(path, None), old_name: item.name, old_description: item.description })
}

} // verus!
