//! The elements of the displayed network graph.

use vstd::prelude::*;

verus! {

#[verifier::external_type_specification]
#[verifier::external_body]
pub struct ExUuid(uuid::Uuid);

/// Relies on `uuid::Uuid::new_v4`: a randomly generated identifier. Nothing
/// can be promised of its value.
#[verifier::external_body]
fn fresh_uuid() -> uuid::Uuid {
    uuid::Uuid::new_v4()
}

/// Relies on `Clone for uuid::Uuid`: a `Uuid` is a plain 16-byte value and
/// its clone is a copy of it.
pub assume_specification[ <uuid::Uuid as Clone>::clone ](u: &uuid::Uuid) -> (r: uuid::Uuid)
    ensures
        r == *u,
;

/// One node of the displayed network graph: a stable identifier, a display
/// name, and the flags the editor toggles on it.
#[derive(Clone, Debug)]
pub struct Node {
    id: uuid::Uuid,
    name: String,
    deleted: bool,
    selected: bool,
}

impl Node {
    /// The node's stable identifier.
    pub closed spec fn spec_id(self) -> uuid::Uuid {
        self.id
    }

    /// The node's display name.
    pub closed spec fn spec_name(self) -> Seq<char> {
        self.name@
    }

    /// Whether the node is hidden from the display.
    pub closed spec fn spec_deleted(self) -> bool {
        self.deleted
    }

    /// Whether the node is part of the current selection.
    pub closed spec fn spec_selected(self) -> bool {
        self.selected
    }

    fn build(id: uuid::Uuid, name: String) -> (n: Node)
        ensures
            n.spec_id() == id,
            n.spec_name() == name@,
            !n.spec_deleted(),
            !n.spec_selected(),
    {
        Node { id, name, deleted: false, selected: false }
    }

    /// A fresh node with a newly drawn identifier, neither deleted nor
    /// selected.
    pub fn new(name: String) -> (n: Node)
        ensures
            n.spec_name() == name@,
            !n.spec_deleted(),
            !n.spec_selected(),
    {
        Node::build(fresh_uuid(), name)
    }

    /// A node carrying the given identifier, neither deleted nor selected.
    pub fn new_with_id(id: uuid::Uuid, name: String) -> (n: Node)
        ensures
            n.spec_id() == id,
            n.spec_name() == name@,
            !n.spec_deleted(),
            !n.spec_selected(),
    {
        Node::build(id, name)
    }

    /// The display name.
    pub fn name(&self) -> (r: &String)
        ensures
            r@ == self.spec_name(),
    {
        &self.name
    }

    /// Renames the node; identifier and flags stay as they are.
    pub fn set_name(&mut self, new_name: String)
        ensures
            final(self).spec_name() == new_name@,
            final(self).spec_id() == old(self).spec_id(),
            final(self).spec_deleted() == old(self).spec_deleted(),
            final(self).spec_selected() == old(self).spec_selected(),
    {
        self.name = new_name;
    }

    /// The stable identifier.
    pub fn id(&self) -> (r: &uuid::Uuid)
        ensures
            *r == self.spec_id(),
    {
        &self.id
    }

    /// Whether the node is hidden.
    pub fn deleted(&self) -> (r: bool)
        ensures
            r == self.spec_deleted(),
    {
        self.deleted
    }

    /// Hides the node; everything else stays as it is.
    pub fn delete(&mut self)
        ensures
            final(self).spec_deleted(),
            final(self).spec_id() == old(self).spec_id(),
            final(self).spec_name() == old(self).spec_name(),
            final(self).spec_selected() == old(self).spec_selected(),
    {
        self.deleted = true;
    }

    /// Shows the node again; everything else stays as it is.
    pub fn restore(&mut self)
        ensures
            !final(self).spec_deleted(),
            final(self).spec_id() == old(self).spec_id(),
            final(self).spec_name() == old(self).spec_name(),
            final(self).spec_selected() == old(self).spec_selected(),
    {
        self.deleted = false;
    }

    /// Adds the node to the selection; everything else stays as it is.
    pub fn select(&mut self)
        ensures
            final(self).spec_selected(),
            final(self).spec_id() == old(self).spec_id(),
            final(self).spec_name() == old(self).spec_name(),
            final(self).spec_deleted() == old(self).spec_deleted(),
    {
        self.selected = true;
    }

    /// Removes the node from the selection; everything else stays as it is.
    pub fn deselect(&mut self)
        ensures
            !final(self).spec_selected(),
            final(self).spec_id() == old(self).spec_id(),
            final(self).spec_name() == old(self).spec_name(),
            final(self).spec_deleted() == old(self).spec_deleted(),
    {
        self.selected = false;
    }

    /// Whether the node is part of the current selection.
    pub fn selected(&self) -> (r: bool)
        ensures
            r == self.spec_selected(),
    {
        self.selected
    }
}

} // verus!
