//! Records of the inventory and the shapes in which they are handed out.

use vstd::prelude::*;

verus! {

/// An item of the inventory. A container is an item that other items point to.
#[derive(Debug, Clone)]
pub struct Item {
    pub id: i64,
    pub name: String,
    pub description: Option<String>,
    pub container_id: Option<i64>,
    pub created_at: String,
    pub updated_at: String,
}

/// The mathematical value of an `Item`.
pub struct ItemModel {
    pub id: i64,
    pub name: Seq<char>,
    pub description: Option<Seq<char>>,
    pub container_id: Option<i64>,
    pub created_at: Seq<char>,
    pub updated_at: Seq<char>,
}

pub open spec fn opt_view(o: Option<String>) -> Option<Seq<char>> {
    match o {
        Some(s) => Some(s@),
        None => None,
    }
}

impl View for Item {
    type V = ItemModel;

    open spec fn view(&self) -> ItemModel {
        ItemModel {
            id: self.id,
            name: self.name@,
            description: opt_view(self.description),
            container_id: self.container_id,
            created_at: self.created_at@,
            updated_at: self.updated_at@,
        }
    }
}

/// Copies an optional text, keeping its value.
pub fn copy_opt(o: &Option<String>) -> (r: Option<String>)
    ensures
        opt_view(r) == opt_view(*o),
{
    match o {
        Some(s) => Some(s.clone()),
        None => None,
    }
}

impl Item {
    /// A copy of the record with the same value.
    pub fn copied(&self) -> (r: Item)
        ensures
            r@ == self@,
    {
        Item {
            id: self.id,
            name: self.name.clone(),
            description: copy_opt(&self.description),
            container_id: self.container_id,
            created_at: self.created_at.clone(),
            updated_at: self.updated_at.clone(),
        }
    }
}

/// An item with its path from the root and, where asked for, its number of direct children.
#[derive(Debug, Clone)]
pub struct ItemWithPath {
    pub id: i64,
    pub name: String,
    pub description: Option<String>,
    pub path: Vec<String>,
    pub child_count: Option<i64>,
    pub created_at: String,
    pub updated_at: String,
}

impl Item {
    /// The item with the given path and child count.
    pub fn with_path(self, path: Vec<String>, child_count: Option<i64>) -> (r: ItemWithPath)
        ensures
            r.id == self.id,
            r.name@ == self.name@,
            opt_view(r.description) == opt_view(self.description),
            r.path@ == path@,
            r.child_count == child_count,
            r.created_at@ == self.created_at@,
            r.updated_at@ == self.updated_at@,
    {
        ItemWithPath {
            id: self.id,
            name: self.name,
            description: self.description,
            path,
            child_count,
            created_at: self.created_at,
            updated_at: self.updated_at,
        }
    }

    /// The item as a row of a listing.
    pub fn into_list_item(self, child_count: i64) -> (r: ListItem)
        ensures
            r.id == self.id,
            r.name@ == self.name@,
            opt_view(r.description) == opt_view(self.description),
            r.child_count == child_count,
    {
        ListItem { id: self.id, name: self.name, description: self.description, child_count }
    }
}

/// A row of a listing: an item and its number of direct children.
#[derive(Debug, Clone)]
pub struct ListItem {
    pub id: i64,
    pub name: String,
    pub description: Option<String>,
    pub child_count: i64,
}

/// A node of the projected tree: an item, its number of direct children, and those children in order.
#[derive(Debug)]
pub struct TreeItem {
    pub id: i64,
    pub name: String,
    pub description: Option<String>,
    pub child_count: i64,
    pub children: Vec<TreeItem>,
}

/// How results are rendered for the user.
#[derive(Debug, Clone, Copy, PartialEq, Eq, Structural)]
pub enum Format {
    Human,
    Json,
    Csv,
}

impl Format {
    /// JSON wins over CSV; neither flag means text for people.
    pub fn from_flags(json: bool, csv: bool) -> (r: Format)
        ensures
            r == if json {
                Format::Json
            } else if csv {
                Format::Csv
            } else {
                Format::Human
            },
    {
        if json {
            Format::Json
        } else if csv {
            Format::Csv
        } else {
            Format::Human
        }
    }
}

} // verus!
