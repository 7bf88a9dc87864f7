//! A pool of fencers within one round of an event.

use vstd::prelude::*;
use crate::arena_slot::ArenaSlotId;
use crate::container::HasId;

verus! {

/// Full hierarchical key of a group: event (with denormalized name), round
/// and group number.
#[derive(Debug, PartialEq, Eq)]
pub struct GroupId {
    pub bewerb_name: String,
    pub bewerb_id: u32,
    pub round_id: u32,
    pub group_id: u32,
}

impl Clone for GroupId {
    fn clone(&self) -> (r: Self)
        ensures
            r == *self,
    {
        GroupId {
            bewerb_name: self.bewerb_name.clone(),
            bewerb_id: self.bewerb_id,
            round_id: self.round_id,
            group_id: self.group_id,
        }
    }
}

impl GroupId {
    /// Same numeric position: event, round and group numbers agree.
    pub open spec fn key_eq(self, o: GroupId) -> bool {
        self.bewerb_id == o.bewerb_id && self.round_id == o.round_id && self.group_id
            == o.group_id
    }

    /// Same position, and the denormalized event names read the same.
    pub open spec fn agrees(self, o: GroupId) -> bool {
        self.key_eq(o) && self.bewerb_name@ == o.bewerb_name@
    }

    /// `self` with the event number replaced.
    pub open spec fn with_bewerb(self, b: u32) -> GroupId {
        GroupId {
            bewerb_name: self.bewerb_name,
            bewerb_id: b,
            round_id: self.round_id,
            group_id: self.group_id,
        }
    }

    /// `self` with the round number replaced.
    pub open spec fn with_round(self, r: u32) -> GroupId {
        GroupId {
            bewerb_name: self.bewerb_name,
            bewerb_id: self.bewerb_id,
            round_id: r,
            group_id: self.group_id,
        }
    }

    /// `self` with the group number replaced.
    pub open spec fn with_group(self, g: u32) -> GroupId {
        GroupId {
            bewerb_name: self.bewerb_name,
            bewerb_id: self.bewerb_id,
            round_id: self.round_id,
            group_id: g,
        }
    }

    /// Tests numeric equality of two keys.
    pub fn same_key(&self, o: &GroupId) -> (r: bool)
        ensures
            r == self.key_eq(*o),
    {
        self.bewerb_id == o.bewerb_id && self.round_id == o.round_id && self.group_id
            == o.group_id
    }
}

/// A group; holds the id of the arena slot it is assigned to, if any, and the
/// ids of its member fencers.
#[derive(Debug)]
pub struct Group {
    pub id: GroupId,
    pub arena_slot: Option<ArenaSlotId>,
    pub fencers: Vec<u32>,
}

/// Saveable form of a group: its key and the assigned arena slot id.  The
/// member list is not saved; it is rebuilt from the fencer records.
#[derive(Debug)]
pub struct GroupSaveable {
    pub id: GroupId,
    pub arena_slot: Option<ArenaSlotId>,
}

impl Clone for GroupSaveable {
    fn clone(&self) -> (r: Self)
        ensures
            r == *self,
    {
        GroupSaveable { id: self.id.clone(), arena_slot: self.arena_slot }
    }
}

/// `s` with every occurrence of `v` taken out, order kept.
pub open spec fn seq_without(s: Seq<u32>, v: u32) -> Seq<u32>
    decreases s.len(),
{
    if s.len() == 0 {
        Seq::empty()
    } else if s[0] == v {
        seq_without(s.skip(1), v)
    } else {
        seq![s[0]] + seq_without(s.skip(1), v)
    }
}

/// Striking an absent value changes nothing.
pub proof fn lemma_seq_without_absent(s: Seq<u32>, v: u32)
    requires
        forall|i: int| 0 <= i < s.len() ==> s[i] != v,
    ensures
        seq_without(s, v) == s,
    decreases s.len(),
{
    if s.len() == 0 {
        assert(seq_without(s, v) =~= s);
    } else {
        assert(forall|i: int| 0 <= i < s.len() - 1 ==> s.skip(1)[i] == s[i + 1]);
        lemma_seq_without_absent(s.skip(1), v);
        assert(seq_without(s, v) =~= s);
    }
}

/// Striking a value removes a trailing occurrence of it.
pub proof fn lemma_seq_without_push_same(s: Seq<u32>, v: u32)
    ensures
        seq_without(s.push(v), v) == seq_without(s, v),
    decreases s.len(),
{
    if s.len() == 0 {
        assert(s.push(v)[0] == v);
        assert(s.push(v).skip(1) =~= Seq::<u32>::empty());
        assert(seq_without(Seq::<u32>::empty(), v) == Seq::<u32>::empty());
        assert(seq_without(s, v) =~= Seq::<u32>::empty());
        assert(seq_without(s.push(v), v) =~= seq_without(s, v));
    } else {
        assert(s.push(v)[0] == s[0]);
        assert(s.push(v).skip(1) =~= s.skip(1).push(v));
        lemma_seq_without_push_same(s.skip(1), v);
    }
}

impl Group {
    /// `self` with the arena assignment replaced.
    pub open spec fn with_arena(self, a: Option<ArenaSlotId>) -> Group {
        Group { id: self.id, arena_slot: a, fencers: self.fencers }
    }

    /// `self` renumbered into event `b` (denormalized field, invariant 5).
    pub open spec fn with_bewerb(self, b: u32) -> Group {
        Group { id: self.id.with_bewerb(b), arena_slot: self.arena_slot, fencers: self.fencers }
    }

    /// `self` renumbered into round `r` (denormalized field, invariant 5).
    pub open spec fn with_round(self, r: u32) -> Group {
        Group { id: self.id.with_round(r), arena_slot: self.arena_slot, fencers: self.fencers }
    }

    pub fn new(id: GroupId) -> (r: Self)
        ensures
            r.id == id,
            r.arena_slot is None,
            r.fencers@ == Seq::<u32>::empty(),
    {
        Group { id, arena_slot: None, fencers: Vec::new() }
    }

    /// Build phase of reconstruction: the recorded arena id is carried over
    /// as it stands; the resolve phase checks it against the live graph.
    pub fn from_saveable(s: &GroupSaveable) -> (r: Self)
        ensures
            r.id == s.id,
            r.arena_slot == s.arena_slot,
            r.fencers@ == Seq::<u32>::empty(),
    {
        Group { id: s.id.clone(), arena_slot: s.arena_slot, fencers: Vec::new() }
    }

    pub fn to_saveable(&self) -> (r: GroupSaveable)
        ensures
            r.id == self.id,
            r.arena_slot == self.arena_slot,
    {
        GroupSaveable { id: self.id.clone(), arena_slot: self.arena_slot }
    }

    pub fn id(&self) -> (r: GroupId)
        ensures
            r == self.id,
    {
        self.id.clone()
    }

    /// The id of the arena slot this group is assigned to, if any.
    pub fn get_arena(&self) -> (r: Option<ArenaSlotId>)
        ensures
            r == self.arena_slot,
    {
        self.arena_slot
    }

    pub fn set_arena(&mut self, slot: Option<ArenaSlotId>)
        ensures
            *final(self) == old(self).with_arena(slot),
    {
        self.arena_slot = slot;
    }

    /// Binds this group and `arena` to each other.  Freeing whatever either
    /// side held before is the assignment engine's business.
    pub fn add_to_arenaslot(&mut self, arena: &mut crate::arena_slot::ArenaSlot)
        ensures
            *final(self) == old(self).with_arena(Some(old(arena).id)),
            *final(arena) == old(arena).with_group(Some(old(self).id)),
    {
        arena.set_group(Some(self.id.clone()));
        self.arena_slot = Some(arena.id);
    }

    /// Records a fencer in the member list.
    pub fn add_fencer(&mut self, fencer_id: u32)
        ensures
            final(self).fencers@ == old(self).fencers@.push(fencer_id),
            final(self).id == old(self).id,
            final(self).arena_slot == old(self).arena_slot,
    {
        self.fencers.push(fencer_id);
    }

    /// Strikes a fencer from the member list.
    pub fn remove_fencer(&mut self, fencer_id: u32)
        ensures
            final(self).fencers@ == seq_without(old(self).fencers@, fencer_id),
            final(self).id == old(self).id,
            final(self).arena_slot == old(self).arena_slot,
    {
        let mut kept: Vec<u32> = Vec::new();
        let ghost orig = self.fencers@;
        while self.fencers.len() > 0
            invariant
                seq_without(orig, fencer_id) == kept@ + seq_without(self.fencers@, fencer_id),
                self.id == old(self).id,
                self.arena_slot == old(self).arena_slot,
            decreases self.fencers@.len(),
        {
            let ghost pre = self.fencers@;
            let t = self.fencers.remove(0);
            proof {
                assert(self.fencers@ =~= pre.skip(1));
            }
            if t != fencer_id {
                kept.push(t);
                proof {
                    assert(seq_without(pre, fencer_id) == seq![pre[0]] + seq_without(
                        pre.skip(1),
                        fencer_id,
                    ));
                    assert(kept@ + seq_without(self.fencers@, fencer_id) =~= seq_without(
                        orig,
                        fencer_id,
                    ));
                }
            } else {
                proof {
                    assert(seq_without(pre, fencer_id) == seq_without(pre.skip(1), fencer_id));
                }
            }
        }
        proof {
            assert(seq_without(self.fencers@, fencer_id) =~= Seq::<u32>::empty());
            assert(kept@ + seq_without(self.fencers@, fencer_id) =~= kept@);
        }
        self.fencers = kept;
    }

    /// Rewrites the denormalized event number (invariant 5).
    pub fn set_bewerb_id(&mut self, id: u32)
        ensures
            *final(self) == old(self).with_bewerb(id),
    {
        self.id.bewerb_id = id;
    }

    /// Rewrites the denormalized round number (invariant 5).
    pub fn set_round_id(&mut self, id: u32)
        ensures
            *final(self) == old(self).with_round(id),
    {
        self.id.round_id = id;
    }
}

impl HasId for Group {
    open spec fn spec_id(&self) -> u32 {
        self.id.group_id
    }

    open spec fn is_renumbered(&self, r: Self, id: u32) -> bool {
        r == (Group {
            id: self.id.with_group(id),
            arena_slot: self.arena_slot,
            fencers: self.fencers,
        })
    }

    fn get_id(&self) -> (r: u32)
        ensures
            r == self.spec_id(),
    {
        self.id.group_id
    }

    fn set_id(&mut self, id: u32)
        ensures
            old(self).is_renumbered(*final(self), id),
            final(self).spec_id() == id,
    {
        self.id.group_id = id;
    }
}

} // verus!
