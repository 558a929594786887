//! The operations offered to the command line, each over an explicit `Store`.

pub mod add;
pub mod edit;
pub mod find;
pub mod list;
pub mod mv;
pub mod rm;
pub mod show;

use vstd::prelude::*;
use crate::db::{resolves_to, is_ambiguous_ref, candidate_paths};
use crate::error::{InvError, is_ambiguous, is_not_found};
use crate::model::{ItemModel, ItemWithPath, opt_view};
use crate::store::Store;
use crate::text::views;

verus! {

/// `iw` shows record `m` at `path`, with `count` as its child count.
pub open spec fn shows(iw: ItemWithPath, m: ItemModel, path: Seq<Seq<char>>, count: Option<i64>) -> bool {
    &&& iw.id == m.id
    &&& iw.name@ == m.name
    &&& opt_view(iw.description) == m.description
    &&& views(iw.path@) == path
    &&& iw.child_count == count
    &&& iw.created_at@ == m.created_at
    &&& iw.updated_at@ == m.updated_at
}

/// Why a reference names no single item: an ambiguous bare name, or nothing at all.
pub open spec fn resolve_failed(st: Store, r: Seq<char>, e: InvError) -> bool {
    &&& resolves_to(st@, r) is None
    &&& if is_ambiguous_ref(st@, r) {
        is_ambiguous(e, r, candidate_paths(st, r))
    } else {
        is_not_found(e, r)
    }
}

} // verus!
