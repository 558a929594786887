//! Moving an item into another container or to the root level.

use vstd::prelude::*;
use crate::commands::{shows, resolve_failed};
use crate::db::{
    resolve, get_item_path, get_item_by_id, move_item, resolve_or_create_container, resolves_to,
    container_resolved, container_failed, same_container, lemma_materialized_extends,
};
use crate::error::{InvError, is_cycle, is_duplicate};
use crate::guard::{assert_no_cycle, assert_name_available};
use crate::model::{ItemModel, ItemWithPath};
use crate::store::{Store, index_of_id, item_of, contains_id, is_ancestor, name_taken};
use crate::text::views;
use vstd::string::StrSliceExecFns;

verus! {

/// What a move did: the item where it is now, and its path before.
#[derive(Debug, Clone)]
pub struct Moved {
    pub item: ItemWithPath,
    pub old_path: Vec<String>,
}

/// A destination that means the root level: `/` or `root`.
pub open spec fn is_root_token(d: Seq<char>) -> bool {
    d == seq!['/'] || d == seq!['r', 'o', 'o', 't']
}

/// `target` is where the destination leads, with `s` the table after any container was created.
pub open spec fn destination_reached(old: Store, dest: Seq<char>, now: Seq<char>, s: Seq<ItemModel>, target: Option<i64>) -> bool {
    if is_root_token(dest) {
        s == old@ && target is None
    } else {
        target is Some && container_resolved(old, dest, now, s, target->0)
    }
}

/// The move is refused: it would close a cycle, or the name is taken at the target.
pub open spec fn move_refused(s: Seq<ItemModel>, m: ItemModel, target: Option<i64>, e: InvError) -> bool {
    match target {
        Some(d) if is_ancestor(s, m.id, d) => is_cycle(e, m.name),
        _ => target != m.container_id && name_taken(s, m.name, target) && is_duplicate(e, m.name, target),
    }
}

/// Whether the destination is a root-level token.
pub fn root_token(d: &str) -> (r: bool)
    ensures
        r == is_root_token(d@),
{
    let n = d.unicode_len();
    if n == 1 {
        let c = d.get_char(0);
        if c == '/' {
            assert(d@ =~= seq!['/']);
            return true;
        }
        false
    } else if n == 4 {
        let a = d.get_char(0);
        let b = d.get_char(1);
        let c = d.get_char(2);
        let e = d.get_char(3);
        if a == 'r' && b == 'o' && c == 'o' && e == 't' {
            assert(d@ =~= seq!['r', 'o', 'o', 't']);
            return true;
        }
        assert(d@ != seq!['r', 'o', 'o', 't'] && d@ != seq!['/']) by {
            if d@ == seq!['r', 'o', 'o', 't'] {
                assert(d@[0] == 'r' && d@[1] == 'o' && d@[2] == 'o' && d@[3] == 't');
            }
        }
        false
    } else {
        false
    }
}

/// Moves the referenced item to the destination: `/` or `root` for the root
/// level, otherwise a container reference (created with its missing path if
/// nothing matches). Moving an item into itself or below itself is refused.
pub fn run(store: &mut Store, item_ref: &str, destination: &str, now: &str) -> (r: Result<Moved, InvError>)
    requires
        old(store).wf(),
    ensures
        final(store).wf(),
        match r {
            Ok(mv) => {
                let x = mv.item.id;
                let i = index_of_id(old(store)@, x);
                let m = old(store)@[i];
                let target = final(store)@[i].container_id;
                let mid = final(store)@.update(i, m);
                &&& resolves_to(old(store)@, item_ref@) == Some(x)
                &&& contains_id(old(store)@, x)
                &&& i < final(store)@.len()
                &&& destination_reached(*old(store), destination@, now@, mid, target)
                &&& match target {
                    Some(d) => !is_ancestor(mid, x, d),
                    None => true,
                }
                &&& target != m.container_id ==> !name_taken(mid, m.name, target)
                &&& final(store)@[i] == ItemModel { container_id: target, updated_at: now@, ..m }
                &&& views(mv.old_path@) == old(store).path_of(x)
                &&& shows(mv.item, final(store)@[i], final(store).path_of(x), None)
            },
            Err(e) => match resolves_to(old(store)@, item_ref@) {
                None => final(store)@ == old(store)@ && resolve_failed(*old(store), item_ref@, e),
                Some(x) => (final(store)@ == old(store)@ && !is_root_token(destination@)
                    && container_failed(*old(store), destination@, e)) || exists|t: Option<i64>|
                    #[trigger] destination_reached(*old(store), destination@, now@, final(store)@, t)
                        && move_refused(final(store)@, item_of(old(store)@, x), t, e),
            },
        },
{
    let item = match resolve(store, item_ref) {
        Ok(it) => it,
        Err(e) => {
            return Err(e);
        },
    };
    let ghost s0 = store@;
    let ghost i = index_of_id(s0, item.id);
    proof {
        crate::store::lemma_item_of(s0, store.next_free(), i);
    }
    let old_path = get_item_path(store, item.id);
    let target: Option<i64> = if root_token(destination) {
        None
    } else {
        let c = match resolve_or_create_container(store, destination, now) {
            Ok(c) => c,
            Err(e) => {
                return Err(e);
            },
        };
        proof {
            if resolves_to(s0, destination@) is None {
                lemma_materialized_extends(s0, crate::text::segments(destination@), None, old(store).next_free(), now@);
            }
            assert(store@[i] == s0[i]);
            crate::store::lemma_item_of(store@, store.next_free(), i);
        }
        match assert_no_cycle(store, &item, c.id) {
            Ok(()) => {},
            Err(e) => {
                assert(destination_reached(*old(store), destination@, now@, store@, Some(c.id)));
                return Err(e);
            },
        }
        Some(c.id)
    };
    let ghost mid = store@;
    assert(mid[i] == s0[i]);
    assert(destination_reached(*old(store), destination@, now@, mid, target));
    if !same_container(item.container_id, target) {
        match assert_name_available(store, item.name.as_str(), target, None) {
            Ok(()) => {},
            Err(e) => {
                return Err(e);
            },
        }
    }
    proof {
        if item.container_id == target {
            assert forall|j: int| 0 <= j < mid.len() && j != i implies !(#[trigger] mid[j].name == item.name@
                && mid[j].container_id == target) by {
                assert(crate::store::unique_names(mid));
            }
        }
    }
    match move_item(store, item.id, target, now) {
        Ok(()) => {},
        Err(e) => {
            return Err(e);
        },
    }
    proof {
        crate::store::lemma_item_of(store@, store.next_free(), i);
        assert(store@.update(i, s0[i]) =~= mid);
    }
    let updated = get_item_by_id(store, item.id).unwrap();
    let path = get_item_path(store, item.id);
    Ok(Moved { item: updated.with_path(path, None), old_path })
}

} // verus!
