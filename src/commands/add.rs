//! Adding an item, at the root level or inside a container that is created on demand.

use vstd::prelude::*;
use crate::commands::shows;
use crate::db::{
    resolve_or_create_container, insert_item, get_item_path, count_children, container_resolved,
    container_failed, in_container, lemma_filter_none,
};
use crate::error::{InvError, is_duplicate, is_store_failure};
use crate::model::ItemWithPath;
use crate::store::{Store, new_model, opt_str_view, name_taken, link_ok};

verus! {

/// Adds an item named `name`, inside the container that `container` names
/// (created with its missing path if nothing matches), or at the root level.
pub fn run(
    store: &mut Store,
    name: &str,
    description: Option<&str>,
    container: Option<&str>,
    now: &str,
) -> (r: Result<ItemWithPath, InvError>)
    requires
        old(store).wf(),
        name@.len() > 0,
    ensures
        final(store).wf(),
        match r {
            Ok(iw) => {
                let m = final(store)@.last();
                &&& final(store)@.len() > 0
                &&& m == new_model(iw.id, name@, opt_str_view(description), m.container_id, now@)
                &&& match container {
                    None => m.container_id is None && final(store)@ == old(store)@.push(m),
                    Some(c) => m.container_id is Some && container_resolved(
                        *old(store),
                        c@,
                        now@,
                        final(store)@.drop_last(),
                        m.container_id->0,
                    ),
                }
                &&& !name_taken(final(store)@.drop_last(), name@, m.container_id)
                &&& shows(iw, m, final(store).path_of(iw.id), Some(0))
            },
            Err(e) => match container {
                None => final(store)@ == old(store)@ && if name_taken(old(store)@, name@, None) {
                    is_duplicate(e, name@, None)
                } else {
                    old(store).next_free() == i64::MAX && is_store_failure(e)
                },
                Some(c) => (final(store)@ == old(store)@ && container_failed(*old(store), c@, e)) || exists|
                    d: i64,
                |
                    #[trigger] container_resolved(*old(store), c@, now@, final(store)@, d) && if name_taken(
                        final(store)@,
                        name@,
                        Some(d),
                    ) {
                        is_duplicate(e, name@, Some(d)) && final(store)@ == old(store)@
                    } else {
                        final(store).next_free() == i64::MAX && is_store_failure(e)
                    },
            },
        },
{
    let cid: Option<i64> = match container {
        None => None,
        Some(c) => match resolve_or_create_container(store, c, now) {
            Ok(it) => Some(it.id),
            Err(e) => {
                return Err(e);
            },
        },
    };
    let ghost mid = store@;
    proof {
        if let Some(c) = container {
            let d = cid->0;
            if name_taken(mid, name@, Some(d)) {
                let j = choose|j: int| 0 <= j < mid.len() && #[trigger] mid[j].name == name@ && mid[j].container_id == Some(d);
                assert(mid[j].container_id == Some(d));
            }
        }
    }
    match insert_item(store, name, description, cid, now) {
        Ok(it) => {
            proof {
                let t = store@;
                assert(t.drop_last() =~= mid);
                assert forall|j: int| 0 <= j < t.len() implies !in_container(Some(it.id))(#[trigger] t[j]) by {
                    if j < mid.len() {
                        assert(t[j] == mid[j]);
                        assert(mid[j].id < it.id);
                        if let Some(p) = mid[j].container_id {
                            assert(link_ok(mid, mid[j]));
                            let q = choose|q: int| 0 <= q < mid.len() && #[trigger] mid[q].id == p;
                            assert(mid[q].id < it.id);
                        }
                    } else {
                        if let Some(p) = cid {
                            let q = choose|q: int| 0 <= q < mid.len() && #[trigger] mid[q].id == p;
                            assert(mid[q].id < it.id);
                        }
                    }
                }
                lemma_filter_none(t, in_container(Some(it.id)));
                crate::store::lemma_item_of(t, store.next_free(), mid.len() as int);
            }
            let path = get_item_path(store, it.id);
            let count = count_children(store, it.id);
            Ok(it.with_path(path, Some(count)))
        },
        Err(e) => Err(e),
    }
}

} // verus!
