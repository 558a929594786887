//! Failure kinds of the inventory engine.

use vstd::prelude::*;
use vstd::string::StringExecFns;
use crate::text::{join_strings, join_with};

verus! {

/// Why an operation of the engine did not take place.
#[derive(Debug, Clone)]
pub enum InvError {
    /// The reference resolves to no item.
    NotFound { reference: String },
    /// A bare name matches several items; `paths` holds the slash-joined path of each.
    Ambiguous { name: String, paths: Vec<String> },
    /// The container already holds an item of that name (`None`: the root level).
    DuplicateName { name: String, container_id: Option<i64> },
    /// The move would put the item inside itself or one of its descendants.
    CycleViolation { name: String },
    /// An edit was asked for with neither a new name nor a new description.
    NoChangesRequested,
    /// The table cannot hold the request, or the records handed in are inconsistent.
    StoreFailure { message: String },
}

} // verus!

verus! {

pub open spec fn is_not_found(e: InvError, reference: Seq<char>) -> bool {
    match e {
        InvError::NotFound { reference: r } => r@ == reference,
        _ => false,
    }
}

pub open spec fn is_ambiguous(e: InvError, name: Seq<char>, paths: Seq<Seq<char>>) -> bool {
    match e {
        InvError::Ambiguous { name: n, paths: p } => n@ == name && p@.map_values(|x: String| x@) == paths,
        _ => false,
    }
}

pub open spec fn is_duplicate(e: InvError, name: Seq<char>, container_id: Option<i64>) -> bool {
    match e {
        InvError::DuplicateName { name: n, container_id: c } => n@ == name && c == container_id,
        _ => false,
    }
}

pub open spec fn is_cycle(e: InvError, name: Seq<char>) -> bool {
    match e {
        InvError::CycleViolation { name: n } => n@ == name,
        _ => false,
    }
}

pub open spec fn is_store_failure(e: InvError) -> bool {
    e is StoreFailure
}

impl InvError {
    /// The text shown to the user for this failure.
    pub fn message(&self) -> (r: String)
        ensures
            match self {
                InvError::NotFound { reference } => r@ == "item '"@ + reference@ + "' not found"@,
                InvError::Ambiguous { name, paths } => r@ == "'"@ + name@ + "' is ambiguous. Use full path: "@
                    + join_with(paths@.map_values(|p: String| p@), ", "@),
                InvError::DuplicateName { name, container_id } => r@ == "item '"@ + name@ + "' already exists in "@
                    + if container_id is Some {
                    "container"@
                } else {
                    "(root)"@
                },
                InvError::CycleViolation { name } => r@ == "cannot move '"@ + name@
                    + "' into itself or its descendants"@,
                InvError::NoChangesRequested => r@ == "no changes specified. Use --name or --desc"@,
                InvError::StoreFailure { message } => r@ == message@,
            },
    {
        match self {
            InvError::NotFound { reference } => {
                let mut s = String::from_str("item '");
                s.append(reference.as_str());
                s.append("' not found");
                s
            },
            InvError::Ambiguous { name, paths } => {
                let mut s = String::from_str("'");
                s.append(name.as_str());
                s.append("' is ambiguous. Use full path: ");
                let joined = join_strings(paths, ", ");
                s.append(joined.as_str());
                s
            },
            InvError::DuplicateName { name, container_id } => {
                let mut s = String::from_str("item '");
                s.append(name.as_str());
                s.append("' already exists in ");
                match container_id {
                    Some(_) => s.append("container"),
                    None => s.append("(root)"),
                }
                s
            },
            InvError::CycleViolation { name } => {
                let mut s = String::from_str("cannot move '");
                s.append(name.as_str());
                s.append("' into itself or its descendants");
                s
            },
            InvError::NoChangesRequested => String::from_str("no changes specified. Use --name or --desc"),
            InvError::StoreFailure { message } => message.clone(),
        }
    }
}

} // verus!
