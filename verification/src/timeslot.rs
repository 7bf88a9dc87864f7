//! A time window within a day, owning one arena slot per physical arena.

use vstd::prelude::*;
use crate::arena_slot::{spec_load_arena, ArenaData, ArenaSlot, ArenaSlotId, ArenaSlotSaveable};
use crate::container::{
    find_index, has_id, is_loaded_list, lemma_idx_of_props, lemma_loaded_list_all,
    lemma_loaded_list_ids, lemma_loaded_list_step, unique_ids, HasId,
};

verus! {

/// Key of a timeslot: day and slot number.
#[derive(Clone, Copy, Debug, PartialEq, Eq, Structural)]
pub struct TimeslotId {
    pub day_id: u32,
    pub timeslot_id: u32,
}

/// A timeslot and the arena slots available during it.
#[derive(Debug)]
pub struct Timeslot {
    pub id: TimeslotId,
    pub arenas: Vec<ArenaSlot>,
}

/// Saveable form of a timeslot.
#[derive(Debug)]
pub struct TimeslotSaveable {
    pub id: TimeslotId,
    pub arenas: Vec<ArenaSlotSaveable>,
}

/// Wire-facing detail of a timeslot, as `get_day_data` reports it.
#[derive(Debug)]
pub struct TimeslotData {
    pub arenas: Vec<ArenaData>,
}

/// The saveable record an arena slot writes.
pub open spec fn spec_save_arena(a: ArenaSlot) -> ArenaSlotSaveable {
    ArenaSlotSaveable { id: a.id, group: a.group }
}

/// The identifier an arena record claims.
pub open spec fn arena_sid() -> spec_fn(ArenaSlotSaveable) -> u32 {
    |s: ArenaSlotSaveable| s.id.arena_slot_id
}

/// How an arena record rebuilds under the given parent ids.
pub open spec fn arena_load_rel(day_id: u32, timeslot_id: u32) -> spec_fn(
    ArenaSlotSaveable,
    ArenaSlot,
) -> bool {
    |s: ArenaSlotSaveable, a: ArenaSlot| a == spec_load_arena(s).with_parents(
        day_id,
        timeslot_id,
    )
}

/// `out` is the arena list rebuilt from the records `ss` under a timeslot of
/// the given parent ids: duplicates skipped, parent ids normalized.
pub open spec fn is_loaded_arenas(
    ss: Seq<ArenaSlotSaveable>,
    out: Seq<ArenaSlot>,
    day_id: u32,
    timeslot_id: u32,
) -> bool {
    is_loaded_list(ss, out, arena_sid(), arena_load_rel(day_id, timeslot_id))
}

impl Timeslot {
    /// Hierarchical id consistency: every arena slot carries this timeslot's
    /// day and slot number, and no two arena slots share a number.
    pub open spec fn wf(&self) -> bool {
        &&& unique_ids(self.arenas@)
        &&& forall|k: int|
            0 <= k < self.arenas@.len() ==> (#[trigger] self.arenas@[k]).id.day_id
                == self.id.day_id && self.arenas@[k].id.timeslot_id == self.id.timeslot_id
    }

    /// `r` is `self` with the parent day number rewritten to `d`.
    pub open spec fn renumbered_day(&self, r: Timeslot, d: u32) -> bool {
        &&& r.id == (TimeslotId { day_id: d, timeslot_id: self.id.timeslot_id })
        &&& r.arenas@.len() == self.arenas@.len()
        &&& forall|k: int|
            0 <= k < self.arenas@.len() ==> r.arenas@[k] == (
            #[trigger] self.arenas@[k]).with_parents(d, self.id.timeslot_id)
    }

    /// Builds the timeslot with `n_kp` arena slots numbered from zero.
    pub fn new(id: TimeslotId, n_kp: u32) -> (r: Self)
        ensures
            r.id == id,
            r.arenas@.len() == n_kp,
            forall|k: int|
                0 <= k < n_kp ==> r.arenas@[k] == (ArenaSlot {
                    id: ArenaSlotId {
                        day_id: id.day_id,
                        timeslot_id: id.timeslot_id,
                        arena_slot_id: k as u32,
                    },
                    group: None,
                }),
            r.wf(),
    {
        let mut arenas: Vec<ArenaSlot> = Vec::new();
        let mut i: u32 = 0;
        while i < n_kp
            invariant
                i <= n_kp,
                arenas@.len() == i,
                forall|k: int|
                    0 <= k < i ==> arenas@[k] == (ArenaSlot {
                        id: ArenaSlotId {
                            day_id: id.day_id,
                            timeslot_id: id.timeslot_id,
                            arena_slot_id: k as u32,
                        },
                        group: None,
                    }),
            decreases n_kp - i,
        {
            arenas.push(
                ArenaSlot::new(
                    ArenaSlotId {
                        day_id: id.day_id,
                        timeslot_id: id.timeslot_id,
                        arena_slot_id: i,
                    },
                ),
            );
            i = i + 1;
        }
        let r = Timeslot { id, arenas };
        proof {
            assert forall|i2: int, j2: int| 0 <= i2 < j2 < r.arenas@.len() implies (
            #[trigger] r.arenas@[i2].spec_id()) != (#[trigger] r.arenas@[j2].spec_id()) by {
                assert(r.arenas@[i2].id.arena_slot_id == i2 as u32);
                assert(r.arenas@[j2].id.arena_slot_id == j2 as u32);
            }
        }
        r
    }

    /// The arena slot `id` addresses, provided the whole three-part key —
    /// day, timeslot and slot number — matches the stored one.
    pub fn get_arena(&self, id: &ArenaSlotId) -> (r: Option<&ArenaSlot>)
        ensures
            match r {
                Some(a) => crate::container::find_id(self.arenas@, id.arena_slot_id) == Some(*a)
                    && a.id == *id,
                None => match crate::container::find_id(self.arenas@, id.arena_slot_id) {
                    Some(a) => a.id != *id,
                    None => true,
                },
            },
    {
        match find_index(&self.arenas, id.arena_slot_id) {
            Some(i) => {
                let a = &self.arenas[i];
                if a.id == *id {
                    Some(a)
                } else {
                    None
                }
            },
            None => None,
        }
    }

    /// The arena grid of this timeslot, for the transport layer.
    pub fn to_data(&self) -> (r: TimeslotData)
        ensures
            r.arenas@ == self.arenas@.map_values(
                |a: ArenaSlot| ArenaData { id: a.id, group: a.group },
            ),
    {
        let mut arenas: Vec<ArenaData> = Vec::new();
        let n = self.arenas.len();
        let mut i: usize = 0;
        while i < n
            invariant
                i <= n,
                n == self.arenas@.len(),
                arenas@ == self.arenas@.take(i as int).map_values(
                    |a: ArenaSlot| ArenaData { id: a.id, group: a.group },
                ),
            decreases n - i,
        {
            arenas.push(self.arenas[i].to_data());
            proof {
                assert(self.arenas@.take(i + 1).drop_last() =~= self.arenas@.take(i as int));
                assert(self.arenas@.take(i + 1).map_values(
                    |a: ArenaSlot| ArenaData { id: a.id, group: a.group },
                ) =~= self.arenas@.take(i as int).map_values(
                    |a: ArenaSlot| ArenaData { id: a.id, group: a.group },
                ).push(
                    ArenaData {
                        id: self.arenas@[i as int].id,
                        group: self.arenas@[i as int].group,
                    },
                ));
            }
            i = i + 1;
        }
        proof {
            assert(self.arenas@.take(n as int) =~= self.arenas@);
        }
        TimeslotData { arenas }
    }

    pub fn to_saveable(&self) -> (r: TimeslotSaveable)
        ensures
            r.id == self.id,
            r.arenas@ == self.arenas@.map_values(|a: ArenaSlot| spec_save_arena(a)),
    {
        let mut arenas: Vec<ArenaSlotSaveable> = Vec::new();
        let n = self.arenas.len();
        let mut i: usize = 0;
        while i < n
            invariant
                i <= n,
                n == self.arenas@.len(),
                arenas@ == self.arenas@.take(i as int).map_values(
                    |a: ArenaSlot| spec_save_arena(a),
                ),
            decreases n - i,
        {
            arenas.push(self.arenas[i].to_saveable());
            proof {
                assert(self.arenas@.take(i + 1).drop_last() =~= self.arenas@.take(i as int));
                assert(self.arenas@.take(i + 1).map_values(|a: ArenaSlot| spec_save_arena(a))
                    =~= self.arenas@.take(i as int).map_values(|a: ArenaSlot| spec_save_arena(a))
                    .push(spec_save_arena(self.arenas@[i as int])));
            }
            i = i + 1;
        }
        proof {
            assert(self.arenas@.take(n as int) =~= self.arenas@);
        }
        TimeslotSaveable { id: self.id, arenas }
    }

    /// Build phase of reconstruction: rebuilds the arena list, skipping
    /// records whose slot number is already taken and forcing the denormalized
    /// parent ids to this timeslot's key.
    pub fn from_timeslot_saveable(s: &TimeslotSaveable, day_id: u32) -> (r: Self)
        ensures
            r.id == (TimeslotId { day_id, timeslot_id: s.id.timeslot_id }),
            is_loaded_arenas(s.arenas@, r.arenas@, day_id, s.id.timeslot_id),
            r.wf(),
    {
        let mut arenas: Vec<ArenaSlot> = Vec::new();
        let n = s.arenas.len();
        let mut i: usize = 0;
        while i < n
            invariant
                i <= n,
                n == s.arenas@.len(),
                is_loaded_list(
                    s.arenas@.take(i as int),
                    arenas@,
                    arena_sid(),
                    arena_load_rel(day_id, s.id.timeslot_id),
                ),
            decreases n - i,
        {
            let rec = &s.arenas[i];
            let ghost pre = arenas@;
            let present = match find_index(&arenas, rec.id.arena_slot_id) {
                Some(_) => true,
                None => false,
            };
            proof {
                lemma_idx_of_props(pre, rec.id.arena_slot_id);
            }
            if !present {
                let mut a = ArenaSlot::from_arena_slot_saveable(rec);
                a.set_parent_ids(day_id, s.id.timeslot_id);
                arenas.push(a);
            }
            proof {
                let sid2 = arena_sid();
                let rel2 = arena_load_rel(day_id, s.id.timeslot_id);
                let srec = s.arenas@[i as int];
                assert(sid2(srec) == srec.id.arena_slot_id);
                if present {
                    assert(has_id(pre, srec.id.arena_slot_id));
                    lemma_loaded_list_step(s.arenas@, i as int, pre, pre[0], sid2, rel2);
                } else {
                    let a2 = arenas@.last();
                    assert(arenas@ =~= pre.push(a2));
                    assert(a2 == spec_load_arena(srec).with_parents(
                        day_id,
                        s.id.timeslot_id,
                    ));
                    assert(rel2(srec, a2));
                    assert(a2.spec_id() == sid2(srec));
                    assert(!has_id(pre, srec.id.arena_slot_id));
                    lemma_loaded_list_step(s.arenas@, i as int, pre, a2, sid2, rel2);
                }
            }
            i = i + 1;
        }
        proof {
            assert(s.arenas@.take(n as int) =~= s.arenas@);
        }
        let r = Timeslot { id: TimeslotId { day_id, timeslot_id: s.id.timeslot_id }, arenas };
        proof {
            let sid2 = arena_sid();
            let rel2 = arena_load_rel(day_id, s.id.timeslot_id);
            let p = |a: ArenaSlot| a.id.day_id == day_id && a.id.timeslot_id
                == s.id.timeslot_id;
            lemma_loaded_list_ids(s.arenas@, r.arenas@, sid2, rel2);
            assert forall|x: ArenaSlotSaveable, a: ArenaSlot| #[trigger] rel2(x, a) implies p(
                a,
            ) by {
                assert(a == spec_load_arena(x).with_parents(day_id, s.id.timeslot_id));
            }
            lemma_loaded_list_all(s.arenas@, r.arenas@, sid2, rel2, p);
            assert forall|k: int| 0 <= k < r.arenas@.len() implies (
            #[trigger] r.arenas@[k]).id.day_id == r.id.day_id && r.arenas@[k].id.timeslot_id
                == r.id.timeslot_id by {
                assert(p(r.arenas@[k]));
            }
        }
        r
    }

    /// Rewrites the denormalized day number here and in every arena slot
    /// (invariant 5).
    pub fn set_day_id(&mut self, d: u32)
        ensures
            old(self).renumbered_day(*final(self), d),
    {
        self.id.day_id = d;
        let ts = self.id.timeslot_id;
        let n = self.arenas.len();
        let mut i: usize = 0;
        while i < n
            invariant
                i <= n,
                n == self.arenas@.len(),
                self.id == (TimeslotId { day_id: d, timeslot_id: ts }),
                old(self).id.timeslot_id == ts,
                self.arenas@.len() == old(self).arenas@.len(),
                forall|k: int|
                    0 <= k < i ==> self.arenas@[k] == (#[trigger] old(self).arenas@[k])
                        .with_parents(d, ts),
                forall|k: int| i <= k < n ==> self.arenas@[k] == old(self).arenas@[k],
            decreases n - i,
        {
            let a = crate::container::elem_mut(&mut self.arenas, i);
            a.set_parent_ids(d, ts);
            i = i + 1;
        }
    }
}

impl HasId for Timeslot {
    open spec fn spec_id(&self) -> u32 {
        self.id.timeslot_id
    }

    open spec fn is_renumbered(&self, r: Self, id: u32) -> bool {
        &&& r.id == (TimeslotId { day_id: self.id.day_id, timeslot_id: id })
        &&& r.arenas@.len() == self.arenas@.len()
        &&& forall|k: int|
            0 <= k < self.arenas@.len() ==> r.arenas@[k] == (
            #[trigger] self.arenas@[k]).with_parents(self.id.day_id, id)
    }

    fn get_id(&self) -> (r: u32)
        ensures
            r == self.spec_id(),
    {
        self.id.timeslot_id
    }

    fn set_id(&mut self, id: u32)
        ensures
            old(self).is_renumbered(*final(self), id),
            final(self).spec_id() == id,
    {
        self.id.timeslot_id = id;
        let d = self.id.day_id;
        let n = self.arenas.len();
        let mut i: usize = 0;
        while i < n
            invariant
                i <= n,
                n == self.arenas@.len(),
                self.id == (TimeslotId { day_id: d, timeslot_id: id }),
                old(self).id.day_id == d,
                self.arenas@.len() == old(self).arenas@.len(),
                forall|k: int|
                    0 <= k < i ==> self.arenas@[k] == (#[trigger] old(self).arenas@[k])
                        .with_parents(d, id),
                forall|k: int| i <= k < n ==> self.arenas@[k] == old(self).arenas@[k],
            decreases n - i,
        {
            let a = crate::container::elem_mut(&mut self.arenas, i);
            a.set_parent_ids(d, id);
            i = i + 1;
        }
    }
}

} // verus!
