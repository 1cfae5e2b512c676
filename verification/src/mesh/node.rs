use vstd::prelude::*;

verus! {

/// One corner of one triangle.
///
/// `relative` is the next corner of the same triangle, `sibling` the next
/// corner that sits on the same vertex. `position` and `normal` index the
/// attribute arrays of the mesh that owns the node.
#[derive(Debug, Copy, Clone, PartialEq, Eq, Structural)]
pub struct Node {
    pub sibling: u32,
    pub relative: u32,
    pub position: u32,
    pub normal: u32,
    pub is_removed: bool,
}

impl Node {
    /// A live corner at `position`, linked to `sibling` and `relative`, with
    /// normal slot 0.
    pub fn from_layout(position: u32, sibling: u32, relative: u32) -> (r: Self)
        ensures
            r == (Node { sibling, relative, position, normal: 0, is_removed: false }),
    {
        Node { position, sibling, relative, normal: 0, is_removed: false }
    }

    /// Flags the corner as removed. Its links are left as they are.
    pub fn mark_removed(&mut self)
        ensures
            *final(self) == (Node { is_removed: true, ..*old(self) }),
    {
        self.is_removed = true;
    }
}

impl Default for Node {
    fn default() -> (r: Self)
        ensures
            r == (Node { sibling: 0, relative: 0, position: 0, normal: 0, is_removed: false }),
    {
        Node { position: 0, sibling: 0, relative: 0, normal: 0, is_removed: false }
    }
}

} // verus!
