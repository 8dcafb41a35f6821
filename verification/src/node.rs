//! What stands under one component of a store: a value, or a nested store.

use vstd::prelude::*;
use vstd::std_specs::cmp::PartialEqSpecImpl;
use crate::component::{Component, Textual};
use crate::database::{db_view, Database};
use crate::model::NodeView;

verus! {

/// A node of a store: exactly one of a nested store and a value.
#[derive(Debug)]
pub enum NodeType<K: Component, V: Textual> {
    /// A nested store.
    Parent(Database<K, V>),
    /// A stored value.
    Value(V),
}

/// The model of a node.
pub open spec fn node_view<K: Component, V: Textual>(n: NodeType<K, V>) -> NodeView<K::V, V::V>
    decreases n,
{
    match n {
        NodeType::Value(v) => NodeView::Value(v@),
        NodeType::Parent(db) => NodeView::Subtree(db_view(db)),
    }
}

impl<K: Component, V: Textual> View for NodeType<K, V> {
    type V = NodeView<K::V, V::V>;

    open spec fn view(&self) -> NodeView<K::V, V::V> {
        node_view(*self)
    }
}

impl<K: Component, V: Textual> NodeType<K, V> {
    /// The nested store, if the node is one.
    pub fn get_parent(self) -> (r: Option<Database<K, V>>)
        ensures
            r == match self {
                NodeType::Parent(parent) => Some(parent),
                NodeType::Value(_) => None,
            },
    {
        match self {
            NodeType::Parent(parent) => Some(parent),
            NodeType::Value(_) => None,
        }
    }

    /// The nested store, if the node is one.
    pub fn get_parent_ref(&self) -> (r: Option<&Database<K, V>>)
        ensures
            r == match self {
                NodeType::Parent(parent) => Some(parent),
                NodeType::Value(_) => None,
            },
    {
        match self {
            NodeType::Parent(parent) => Some(parent),
            NodeType::Value(_) => None,
        }
    }

    /// Whether the node is a nested store.
    pub fn is_parent(&self) -> (r: bool)
        ensures
            r == (self is Parent),
    {
        match self {
            NodeType::Parent(_) => true,
            NodeType::Value(_) => false,
        }
    }

    /// The value, if the node is one.
    pub fn get_value_ref(&self) -> (r: Option<&V>)
        ensures
            r == match self {
                NodeType::Parent(_) => None,
                NodeType::Value(value) => Some(value),
            },
    {
        match self {
            NodeType::Parent(_) => None,
            NodeType::Value(value) => Some(value),
        }
    }

    /// The value, if the node is one.
    pub fn get_value(self) -> (r: Option<V>)
        ensures
            r == match self {
                NodeType::Parent(_) => None,
                NodeType::Value(value) => Some(value),
            },
    {
        match self {
            NodeType::Parent(_) => None,
            NodeType::Value(value) => Some(value),
        }
    }

    /// Whether the node is a value.
    pub fn is_value(&self) -> (r: bool)
        ensures
            r == (self is Value),
    {
        match self {
            NodeType::Parent(_) => false,
            NodeType::Value(_) => true,
        }
    }
}

/// Nodes are equal where they are of the same kind, whatever they hold.
impl<K: Component, V: Textual> PartialEq for NodeType<K, V> {
    fn eq(&self, other: &NodeType<K, V>) -> (r: bool) {
        match self {
            NodeType::Parent(_) => matches!(other, NodeType::Parent(_)),
            NodeType::Value(_) => matches!(other, NodeType::Value(_)),
        }
    }
}

impl<K: Component, V: Textual> PartialEqSpecImpl for NodeType<K, V> {
    open spec fn obeys_eq_spec() -> bool {
        true
    }

    open spec fn eq_spec(&self, other: &NodeType<K, V>) -> bool {
        (self is Parent) == (other is Parent)
    }
}

} // verus!
