//! The things that features provide and require: filesystem entries, users,
//! groups and other layers, together with the key that identifies each one.
use vstd::prelude::*;

use crate::graph::Graph;

verus! {

/// The type of a filesystem entry.
#[derive(Debug, Clone, Copy, PartialEq, Eq, Structural)]
pub enum FileType {
    File,
    Directory,
    Symlink,
    BlockDevice,
    CharDevice,
    Fifo,
    Socket,
}

/// A filesystem entry with a known type and permission bits.
#[derive(Debug, Clone)]
pub struct FsEntry {
    pub path: String,
    pub file_type: FileType,
    pub mode: u32,
}

/// A path item: either an entry that exists, or the removal of whatever was
/// at that path before.
#[derive(Debug, Clone)]
pub enum PathItem {
    Entry(FsEntry),
    Removed(String),
}

#[derive(Debug, Clone)]
pub struct User {
    pub name: String,
}

#[derive(Debug, Clone)]
pub struct Group {
    pub name: String,
}

/// Another, already resolved, layer that features of this layer may look
/// into.
#[derive(Debug)]
pub struct Layer {
    pub label: String,
    pub graph: Graph,
}

/// A concrete piece of system state provided by a feature.
#[derive(Debug)]
pub enum Item {
    Path(PathItem),
    User(User),
    Group(Group),
    Layer(Layer),
}

/// The identity of an [Item]: two items with equal keys describe the same
/// thing.
#[derive(Debug, Clone)]
pub enum ItemKey {
    Path(String),
    User(String),
    Group(String),
    Layer(String),
}

/// What identifies a key: its kind and its text.
pub type KeyId = (int, Seq<char>);

impl ItemKey {
    pub open spec fn id(&self) -> KeyId {
        match self {
            ItemKey::Path(p) => (0, p@),
            ItemKey::User(n) => (1, n@),
            ItemKey::Group(n) => (2, n@),
            ItemKey::Layer(l) => (3, l@),
        }
    }

    /// Whether two keys identify the same item.
    pub fn same(&self, other: &ItemKey) -> (r: bool)
        ensures
            r == (self.id() == other.id()),
    {
        match self {
            ItemKey::Path(a) => match other {
                ItemKey::Path(b) => *a == *b,
                _ => false,
            },
            ItemKey::User(a) => match other {
                ItemKey::User(b) => *a == *b,
                _ => false,
            },
            ItemKey::Group(a) => match other {
                ItemKey::Group(b) => *a == *b,
                _ => false,
            },
            ItemKey::Layer(a) => match other {
                ItemKey::Layer(b) => *a == *b,
                _ => false,
            },
        }
    }

    /// A copy equal to this key.
    pub fn duplicate(&self) -> (r: ItemKey)
        ensures
            r == *self,
    {
        match self {
            ItemKey::Path(p) => ItemKey::Path(p.clone()),
            ItemKey::User(n) => ItemKey::User(n.clone()),
            ItemKey::Group(n) => ItemKey::Group(n.clone()),
            ItemKey::Layer(l) => ItemKey::Layer(l.clone()),
        }
    }
}

impl Item {
    pub open spec fn spec_key(&self) -> ItemKey {
        match self {
            Item::Path(PathItem::Entry(e)) => ItemKey::Path(e.path),
            Item::Path(PathItem::Removed(p)) => ItemKey::Path(*p),
            Item::User(u) => ItemKey::User(u.name),
            Item::Group(g) => ItemKey::Group(g.name),
            Item::Layer(l) => ItemKey::Layer(l.label),
        }
    }

    /// The key that identifies this item.
    pub fn key(&self) -> (r: ItemKey)
        ensures
            r == self.spec_key(),
    {
        match self {
            Item::Path(PathItem::Entry(e)) => ItemKey::Path(e.path.clone()),
            Item::Path(PathItem::Removed(p)) => ItemKey::Path(p.clone()),
            Item::User(u) => ItemKey::User(u.name.clone()),
            Item::Group(g) => ItemKey::Group(g.name.clone()),
            Item::Layer(l) => ItemKey::Layer(l.label.clone()),
        }
    }

    pub open spec fn spec_is_undo(&self) -> bool {
        self is Path && self->Path_0 is Removed
    }

    /// Whether this item undoes whatever was provided before under its key.
    pub fn is_undo(&self) -> (r: bool)
        ensures
            r == self.spec_is_undo(),
    {
        match self {
            Item::Path(PathItem::Removed(_)) => true,
            _ => false,
        }
    }
}

} // verus!
