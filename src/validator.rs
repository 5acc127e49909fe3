//! Predicates that a required item must satisfy.
use vstd::prelude::*;

use crate::graph::Node;
use crate::item::FileType;
use crate::item::Item;
use crate::item::ItemKey;
use crate::item::PathItem;

verus! {

/// What a requirement asks of the item found under its key.
#[derive(Debug)]
pub enum Validator {
    /// Any item is acceptable.
    Exists,
    /// Nothing may be there: met where the key was never provided, or where
    /// the last item under it is a removal.
    DoesNotExist,
    /// The item must be a path entry of this type.
    FileType(FileType),
    /// The item must be a layer whose resolved graph holds, under `key`, what
    /// `validator` accepts.
    ItemInLayer { key: ItemKey, validator: Box<Validator> },
}

impl Validator {
    pub open spec fn spec_satisfies(&self, item: Item) -> bool
        decreases self,
    {
        match self {
            Validator::Exists => true,
            Validator::DoesNotExist => item.spec_is_undo(),
            Validator::FileType(t) => match item {
                Item::Path(PathItem::Entry(e)) => e.file_type == *t,
                _ => false,
            },
            Validator::ItemInLayer { key, validator } => match item {
                Item::Layer(l) => match l.graph.spec_node_for(key.id()) {
                    Some(Node::Item(found)) => validator.spec_satisfies(found),
                    _ => validator.spec_is_absence(),
                },
                _ => false,
            },
        }
    }

    pub open spec fn spec_is_absence(&self) -> bool {
        self is DoesNotExist
    }

    /// Whether `item` meets this predicate.
    pub fn satisfies(&self, item: &Item) -> (r: bool)
        ensures
            r == self.spec_satisfies(*item),
        decreases self,
    {
        match self {
            Validator::Exists => true,
            Validator::DoesNotExist => item.is_undo(),
            Validator::FileType(t) => match item {
                Item::Path(PathItem::Entry(e)) => e.file_type == *t,
                _ => false,
            },
            Validator::ItemInLayer { key, validator } => match item {
                Item::Layer(l) => match l.graph.node_for(key) {
                    Some(Node::Item(found)) => validator.satisfies(found),
                    _ => validator.is_absence(),
                },
                _ => false,
            },
        }
    }

    /// Whether this predicate demands absence.
    pub fn is_absence(&self) -> (r: bool)
        ensures
            r == self.spec_is_absence(),
    {
        match self {
            Validator::DoesNotExist => true,
            _ => false,
        }
    }

    /// A copy equal to this validator.
    pub fn duplicate(&self) -> (r: Validator)
        ensures
            r == *self,
        decreases self,
    {
        match self {
            Validator::Exists => Validator::Exists,
            Validator::DoesNotExist => Validator::DoesNotExist,
            Validator::FileType(t) => Validator::FileType(*t),
            Validator::ItemInLayer { key, validator } => Validator::ItemInLayer {
                key: key.duplicate(),
                validator: Box::new(validator.duplicate()),
            },
        }
    }
}

impl Clone for Validator {
    fn clone(&self) -> (r: Validator)
        ensures
            r == *self,
    {
        self.duplicate()
    }
}

} // verus!
