use vstd::prelude::*;

verus! {

/// One neighbour slot of a node: empty, or the id of the node linked there.
///
/// The id `u32::MAX` is the empty marker, so it cannot be stored.
#[derive(Copy, Clone, Debug)]
pub struct Neighbor(u32);

/// What a slot holds after `id` was put into it.
pub open spec fn stored(id: u32) -> Option<u32> {
    if id == u32::MAX {
        None
    } else {
        Some(id)
    }
}

impl View for Neighbor {
    type V = Option<u32>;

    closed spec fn view(&self) -> Option<u32> {
        stored(self.0)
    }
}

impl Default for Neighbor {
    /// The empty slot.
    fn default() -> (n: Neighbor)
        ensures
            n@ is None,
    {
        Neighbor::empty()
    }
}

impl Neighbor {
    /// The empty slot.
    pub fn empty() -> (n: Neighbor)
        ensures
            n@ is None,
        no_unwind
    {
        Neighbor(u32::MAX)
    }

    /// Stores `id` in the slot, replacing what was there.
    pub fn put(&mut self, id: u32)
        ensures
            final(self)@ == stored(id),
    {
        self.0 = id;
    }

    /// The id in the slot, if there is one.
    pub fn get(&self) -> (r: Option<u32>)
        ensures
            r == self@,
    {
        if self.0 == u32::MAX {
            None
        } else {
            Some(self.0)
        }
    }

    /// Empties the slot.
    pub fn clear(&mut self)
        ensures
            final(self)@ is None,
    {
        self.0 = u32::MAX;
    }

    /// A slot never holds the empty marker as an id, and two slots with the
    /// same content are the same slot.
    pub proof fn lemma_view(self, other: Neighbor)
        ensures
            self@ != Some(u32::MAX),
            self@ == other@ ==> self == other,
    {
    }
}

} // verus!
