//! The project description that parsing produces.
use vstd::prelude::*;
use std::collections::HashMap;

verus! {

broadcast use vstd::std_specs::vec::axiom_vec_decreases_to_view, vstd::seq::axiom_seq_index_decreases,
    vstd::seq::axiom_seq_subrange_decreases;

/// Whether an item is laid out as a directory or as a file.
#[derive(Debug, Clone, Copy, PartialEq, Eq, Structural)]
pub enum ItemType {
    Directory,
    File,
}

/// One node of a parsed diagram.
#[derive(Debug)]
pub struct StructureItem {
    /// The name, without tree glyphs and without a trailing `/`.
    pub name: String,
    /// The item's own path segment; parsing sets it to the name.
    pub path: String,
    pub item_type: ItemType,
    /// The template that gives the file's content, if any.
    pub template: Option<String>,
    /// Literal content of a file; it wins over `template`.
    pub content: Option<String>,
    /// Nested items, in the order of the diagram.
    pub children: Vec<StructureItem>,
}

/// A parsed diagram: the root directory, its items and the template variables.
#[derive(Debug)]
pub struct ProjectStructure {
    pub root: String,
    pub items: Vec<StructureItem>,
    pub variables: HashMap<String, String>,
}

/// The mathematical value of a `StructureItem`.
pub struct ItemModel {
    pub name: Seq<char>,
    pub path: Seq<char>,
    pub kind: ItemType,
    pub template: Option<Seq<char>>,
    pub content: Option<Seq<char>>,
    pub children: Seq<ItemModel>,
}

pub open spec fn opt_view(o: Option<String>) -> Option<Seq<char>> {
    match o {
        Some(s) => Some(s@),
        None => None,
    }
}

impl StructureItem {
    pub open spec fn model(self) -> ItemModel
        decreases self,
    {
        ItemModel {
            name: self.name@,
            path: self.path@,
            kind: self.item_type,
            template: opt_view(self.template),
            content: opt_view(self.content),
            children: models(self.children@),
        }
    }
}

/// The models of a sequence of items, in order.
pub open spec fn models(items: Seq<StructureItem>) -> Seq<ItemModel>
    decreases items,
{
    if items.len() == 0 {
        seq![]
    } else {
        seq![items[0].model()] + models(items.subrange(1, items.len() as int))
    }
}

/// Every item with children, at any depth, is a directory.
pub open spec fn dirs_hold_children(items: Seq<ItemModel>) -> bool
    decreases items,
{
    if items.len() == 0 {
        true
    } else {
        (items[0].children.len() > 0 ==> items[0].kind == ItemType::Directory)
            && dirs_hold_children(items[0].children)
            && dirs_hold_children(items.subrange(1, items.len() as int))
    }
}

/// The number of items at every depth.
pub open spec fn count_items(items: Seq<ItemModel>) -> nat
    decreases items,
{
    if items.len() == 0 {
        0
    } else {
        1 + count_items(items[0].children) + count_items(items.subrange(1, items.len() as int))
    }
}

} // verus!
