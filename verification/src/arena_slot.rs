//! One physical competition area during one timeslot of one day.

use vstd::prelude::*;
use crate::container::HasId;
use crate::group::GroupId;

verus! {

/// Hierarchical key of an arena slot: day, timeslot and slot number.
#[derive(Clone, Copy, Debug, PartialEq, Eq, Structural)]
pub struct ArenaSlotId {
    pub day_id: u32,
    pub timeslot_id: u32,
    pub arena_slot_id: u32,
}

/// An arena slot; holds the id of the group assigned into it, if any.
#[derive(Debug)]
pub struct ArenaSlot {
    pub id: ArenaSlotId,
    pub group: Option<GroupId>,
}

/// Saveable form of an arena slot: the assigned group is kept as an id.
#[derive(Debug)]
pub struct ArenaSlotSaveable {
    pub id: ArenaSlotId,
    pub group: Option<GroupId>,
}

/// Wire-facing detail of an arena slot, as `get_day_data` reports it.
#[derive(Debug)]
pub struct ArenaData {
    pub id: ArenaSlotId,
    pub group: Option<GroupId>,
}

impl ArenaSlot {
    /// `self` with the assigned group replaced.
    pub open spec fn with_group(self, g: Option<GroupId>) -> ArenaSlot {
        ArenaSlot { id: self.id, group: g }
    }

    /// `self` with the parent day and timeslot numbers replaced.
    pub open spec fn with_parents(self, day_id: u32, timeslot_id: u32) -> ArenaSlot {
        ArenaSlot {
            id: ArenaSlotId { day_id, timeslot_id, arena_slot_id: self.id.arena_slot_id },
            group: self.group,
        }
    }

    pub fn new(id: ArenaSlotId) -> (r: Self)
        ensures
            r == (ArenaSlot { id, group: None }),
    {
        ArenaSlot { id, group: None }
    }

    pub fn id(&self) -> (r: ArenaSlotId)
        ensures
            r == self.id,
    {
        self.id
    }

    /// The id of the group assigned into this slot, if any.
    pub fn get_group(&self) -> (r: Option<GroupId>)
        ensures
            r == self.group,
    {
        match &self.group {
            Some(g) => Some(g.clone()),
            None => None,
        }
    }

    pub fn set_group(&mut self, g: Option<GroupId>)
        ensures
            *final(self) == old(self).with_group(g),
    {
        self.group = g;
    }

    /// Rewrites the denormalized parent ids (day renumbering, invariant 5).
    pub fn set_parent_ids(&mut self, day_id: u32, timeslot_id: u32)
        ensures
            *final(self) == old(self).with_parents(day_id, timeslot_id),
    {
        self.id.day_id = day_id;
        self.id.timeslot_id = timeslot_id;
    }

    pub fn to_saveable(&self) -> (r: ArenaSlotSaveable)
        ensures
            r.id == self.id,
            r.group == self.group,
    {
        ArenaSlotSaveable { id: self.id, group: self.get_group() }
    }

    /// Build phase of reconstruction: the recorded group id is carried over
    /// as it stands; the resolve phase checks it against the live graph.
    pub fn from_arena_slot_saveable(s: &ArenaSlotSaveable) -> (r: Self)
        ensures
            r == spec_load_arena(*s),
    {
        let group = match &s.group {
            Some(g) => Some(g.clone()),
            None => None,
        };
        ArenaSlot { id: s.id, group }
    }

    pub fn to_data(&self) -> (r: ArenaData)
        ensures
            r.id == self.id,
            r.group == self.group,
    {
        ArenaData { id: self.id, group: self.get_group() }
    }
}

/// The arena slot a saveable record rebuilds into.
pub open spec fn spec_load_arena(s: ArenaSlotSaveable) -> ArenaSlot {
    ArenaSlot { id: s.id, group: s.group }
}

impl HasId for ArenaSlot {
    open spec fn spec_id(&self) -> u32 {
        self.id.arena_slot_id
    }

    open spec fn is_renumbered(&self, r: Self, id: u32) -> bool {
        r == (ArenaSlot {
            id: ArenaSlotId {
                day_id: self.id.day_id,
                timeslot_id: self.id.timeslot_id,
                arena_slot_id: id,
            },
            group: self.group,
        })
    }

    fn get_id(&self) -> (r: u32)
        ensures
            r == self.spec_id(),
    {
        self.id.arena_slot_id
    }

    fn set_id(&mut self, id: u32)
        ensures
            old(self).is_renumbered(*final(self), id),
            final(self).spec_id() == id,
    {
        self.id.arena_slot_id = id;
    }
}

} // verus!
