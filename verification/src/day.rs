//! A calendar day of the tournament, owning its timeslots.
//!
//! The date is held as a plain day number (days since the Unix epoch); the
//! transport layer converts it to and from its calendar form.

use vstd::prelude::*;
use crate::arena_slot::{ArenaData, ArenaSlot, ArenaSlotId, ArenaSlotSaveable};
use crate::container::{
    find_id, is_loaded_list, lemma_loaded_list_all, lemma_loaded_list_ids, lemma_loaded_list_step,
    lemma_idx_of_props, unique_ids, HasId,
};
use crate::timeslot::{
    is_loaded_arenas, spec_save_arena, Timeslot, TimeslotData, TimeslotId, TimeslotSaveable,
};

verus! {

/// A day: a fixed grid of timeslots and arenas.
#[derive(Debug)]
pub struct Day {
    pub id: u32,
    pub date: i64,
    pub n_ts: u32,
    pub n_kp: u32,
    pub timeslots: Vec<Timeslot>,
}

/// Saveable form of a day.
#[derive(Debug)]
pub struct DaySaveable {
    pub id: u32,
    pub date: i64,
    pub n_ts: u32,
    pub n_kp: u32,
    pub timeslots: Vec<TimeslotSaveable>,
}

/// Wire-facing summary of a day, as `get_simple_days` reports it.
#[derive(Clone, Copy, Debug, PartialEq, Eq, Structural)]
pub struct SimpleDay {
    pub id: u32,
    pub date: i64,
    pub number_time_slots: u32,
    pub number_arenas: u32,
}

/// Wire-facing detail of a day, as `get_day_data` reports it.
#[derive(Debug)]
pub struct DayData {
    pub timeslots: Vec<TimeslotData>,
}

/// The saveable record a timeslot writes.
pub open spec fn ts_saved(ts: Timeslot, s: TimeslotSaveable) -> bool {
    &&& s.id == ts.id
    &&& s.arenas@ == ts.arenas@.map_values(|a: ArenaSlot| spec_save_arena(a))
}

/// The identifier a timeslot record claims.
pub open spec fn ts_sid() -> spec_fn(TimeslotSaveable) -> u32 {
    |s: TimeslotSaveable| s.id.timeslot_id
}

/// How a timeslot record rebuilds under the given parent day number.
pub open spec fn ts_load_rel(day_id: u32) -> spec_fn(TimeslotSaveable, Timeslot) -> bool {
    |s: TimeslotSaveable, t: Timeslot|
        {
            &&& t.id == (TimeslotId { day_id, timeslot_id: s.id.timeslot_id })
            &&& is_loaded_arenas(s.arenas@, t.arenas@, day_id, s.id.timeslot_id)
            &&& t.wf()
        }
}

/// `out` is the timeslot list rebuilt from the records `ss`.
pub open spec fn is_loaded_timeslots(
    ss: Seq<TimeslotSaveable>,
    out: Seq<Timeslot>,
    day_id: u32,
) -> bool {
    is_loaded_list(ss, out, ts_sid(), ts_load_rel(day_id))
}

/// What a timeslot reports to the transport layer.
pub open spec fn ts_data_of(ts: Timeslot, td: TimeslotData) -> bool {
    td.arenas@ == ts.arenas@.map_values(
        |a: ArenaSlot| ArenaData { id: a.id, group: a.group },
    )
}

/// The saveable record a day writes.
pub open spec fn day_saved(d: Day, s: DaySaveable) -> bool {
    &&& s.id == d.id
    &&& s.date == d.date
    &&& s.n_ts == d.n_ts
    &&& s.n_kp == d.n_kp
    &&& s.timeslots@.len() == d.timeslots@.len()
    &&& forall|j: int| 0 <= j < d.timeslots@.len() ==> ts_saved(
        #[trigger] d.timeslots@[j],
        s.timeslots@[j],
    )
}

/// The identifier a day record claims.
pub open spec fn day_sid() -> spec_fn(DaySaveable) -> u32 {
    |s: DaySaveable| s.id
}

/// How a day record rebuilds.
pub open spec fn day_load_rel() -> spec_fn(DaySaveable, Day) -> bool {
    |s: DaySaveable, d: Day|
        {
            &&& d.id == s.id
            &&& d.date == s.date
            &&& d.n_ts == s.n_ts
            &&& d.n_kp == s.n_kp
            &&& is_loaded_timeslots(s.timeslots@, d.timeslots@, s.id)
            &&& d.wf()
        }
}

/// `out` is the day list rebuilt from the records `ss`.
pub open spec fn is_loaded_days(ss: Seq<DaySaveable>, out: Seq<Day>) -> bool {
    is_loaded_list(ss, out, day_sid(), day_load_rel())
}

impl Day {
    /// This day's wire-facing summary.
    pub open spec fn to_simple_spec(&self) -> SimpleDay {
        SimpleDay {
            id: self.id,
            date: self.date,
            number_time_slots: self.n_ts,
            number_arenas: self.n_kp,
        }
    }

    /// Hierarchical id consistency through timeslots and arena slots, and
    /// timeslot numbers unique.
    pub open spec fn wf(&self) -> bool {
        &&& unique_ids(self.timeslots@)
        &&& forall|j: int|
            0 <= j < self.timeslots@.len() ==> (#[trigger] self.timeslots@[j]).id.day_id
                == self.id && self.timeslots@[j].wf()
    }

    /// Lookup of an arena slot by timeslot then slot number.
    pub open spec fn spec_arena_of(&self, aid: ArenaSlotId) -> Option<ArenaSlot> {
        match find_id(self.timeslots@, aid.timeslot_id) {
            Some(ts) => find_id(ts.arenas@, aid.arena_slot_id),
            None => None,
        }
    }

    /// Builds the day: `n_ts` timeslots of `n_kp` arena slots each, numbered
    /// from zero, all unassigned.
    pub fn new(id: u32, date: i64, n_ts: u32, n_kp: u32) -> (r: Self)
        ensures
            r.id == id,
            r.date == date,
            r.n_ts == n_ts,
            r.n_kp == n_kp,
            r.timeslots@.len() == n_ts,
            forall|j: int|
                0 <= j < n_ts ==> ((#[trigger] r.timeslots@[j]).id == (TimeslotId {
                    day_id: id,
                    timeslot_id: j as u32,
                }) && r.timeslots@[j].arenas@.len() == n_kp),
            forall|j: int, k: int|
                0 <= j < n_ts && 0 <= k < n_kp ==> (#[trigger] r.timeslots@[j].arenas@[k]) == (
                ArenaSlot {
                    id: ArenaSlotId {
                        day_id: id,
                        timeslot_id: j as u32,
                        arena_slot_id: k as u32,
                    },
                    group: None,
                }),
            r.wf(),
    {
        let mut timeslots: Vec<Timeslot> = Vec::new();
        let mut i: u32 = 0;
        while i < n_ts
            invariant
                i <= n_ts,
                timeslots@.len() == i,
                forall|j: int|
                    0 <= j < i ==> ((#[trigger] timeslots@[j]).id == (TimeslotId {
                        day_id: id,
                        timeslot_id: j as u32,
                    }) && timeslots@[j].arenas@.len() == n_kp && timeslots@[j].wf()),
                forall|j: int, k: int|
                    0 <= j < i && 0 <= k < n_kp ==> (#[trigger] timeslots@[j].arenas@[k]) == (
                    ArenaSlot {
                        id: ArenaSlotId {
                            day_id: id,
                            timeslot_id: j as u32,
                            arena_slot_id: k as u32,
                        },
                        group: None,
                    }),
            decreases n_ts - i,
        {
            let ts = Timeslot::new(TimeslotId { day_id: id, timeslot_id: i }, n_kp);
            timeslots.push(ts);
            i = i + 1;
        }
        let r = Day { id, date, n_ts, n_kp, timeslots };
        proof {
            assert forall|i2: int, j2: int| 0 <= i2 < j2 < r.timeslots@.len() implies (
            #[trigger] r.timeslots@[i2].spec_id()) != (#[trigger] r.timeslots@[j2].spec_id()) by {
                assert(r.timeslots@[i2].id.timeslot_id == i2 as u32);
                assert(r.timeslots@[j2].id.timeslot_id == j2 as u32);
            }
        }
        r
    }

    /// Builds a day from its wire-facing summary.
    pub fn from(id: u32, sday: SimpleDay) -> (r: Self)
        ensures
            r.id == id,
            r.date == sday.date,
            r.n_ts == sday.number_time_slots,
            r.n_kp == sday.number_arenas,
            r.timeslots@.len() == sday.number_time_slots,
            r.wf(),
    {
        Day::new(id, sday.date, sday.number_time_slots, sday.number_arenas)
    }

    /// The arena slot `id` addresses, by timeslot then slot number; the
    /// stored key must match the query in full, its day component included.
    pub fn get_arena(&self, id: &ArenaSlotId) -> (r: Option<&ArenaSlot>)
        ensures
            match r {
                Some(a) => self.spec_arena_of(*id) == Some(*a) && a.id == *id,
                None => match self.spec_arena_of(*id) {
                    Some(a) => a.id != *id,
                    None => true,
                },
            },
    {
        match crate::container::find_index(&self.timeslots, id.timeslot_id) {
            Some(i) => self.timeslots[i].get_arena(id),
            None => None,
        }
    }

    /// The ids of every group assigned into one of this day's arena slots.
    pub fn assigned_groups(&self) -> (r: Vec<crate::group::GroupId>)
        ensures
            r@ == day_assigned(*self),
    {
        let mut out: Vec<crate::group::GroupId> = Vec::new();
        let n = self.timeslots.len();
        let mut j: usize = 0;
        while j < n
            invariant
                j <= n,
                n == self.timeslots@.len(),
                out@ == da_rec(self.timeslots@.take(j as int)),
            decreases n - j,
        {
            let ts = &self.timeslots[j];
            let m = ts.arenas.len();
            let mut k: usize = 0;
            while k < m
                invariant
                    k <= m,
                    m == ts.arenas@.len(),
                    ts == self.timeslots@[j as int],
                    j < n == self.timeslots@.len(),
                    out@ == da_rec(self.timeslots@.take(j as int)) + tsa_rec(
                        ts.arenas@.take(k as int),
                    ),
                decreases m - k,
            {
                proof {
                    assert(ts.arenas@.take(k + 1).drop_last() =~= ts.arenas@.take(k as int));
                    assert(ts.arenas@.take(k + 1).last() == ts.arenas@[k as int]);
                }
                match &ts.arenas[k].group {
                    Some(gid) => {
                        out.push(gid.clone());
                        proof {
                            assert(out@ =~= da_rec(self.timeslots@.take(j as int)) + tsa_rec(
                                ts.arenas@.take(k + 1),
                            ));
                        }
                    },
                    None => {},
                }
                k = k + 1;
            }
            proof {
                assert(ts.arenas@.take(m as int) =~= ts.arenas@);
                assert(self.timeslots@.take(j + 1).drop_last() =~= self.timeslots@.take(j as int));
                assert(self.timeslots@.take(j + 1).last() == self.timeslots@[j as int]);
            }
            j = j + 1;
        }
        proof {
            assert(self.timeslots@.take(n as int) =~= self.timeslots@);
        }
        out
    }

    /// The keys of all arena slots of this day's grid.
    pub fn slot_ids(&self) -> (r: Vec<ArenaSlotId>)
        ensures
            r@ == slots_of(self.timeslots@),
    {
        let mut out: Vec<ArenaSlotId> = Vec::new();
        let n = self.timeslots.len();
        let mut j: usize = 0;
        while j < n
            invariant
                j <= n,
                n == self.timeslots@.len(),
                out@ == slots_of(self.timeslots@.take(j as int)),
            decreases n - j,
        {
            let ts = &self.timeslots[j];
            let m = ts.arenas.len();
            let mut k: usize = 0;
            while k < m
                invariant
                    k <= m,
                    m == ts.arenas@.len(),
                    ts == self.timeslots@[j as int],
                    j < n == self.timeslots@.len(),
                    out@ == slots_of(self.timeslots@.take(j as int)) + ts.arenas@.take(
                        k as int,
                    ).map_values(|a: ArenaSlot| a.id),
                decreases m - k,
            {
                out.push(ts.arenas[k].id());
                proof {
                    assert(ts.arenas@.take(k + 1).drop_last() =~= ts.arenas@.take(k as int));
                    assert(ts.arenas@.take(k + 1).map_values(|a: ArenaSlot| a.id)
                        =~= ts.arenas@.take(k as int).map_values(|a: ArenaSlot| a.id).push(
                        ts.arenas@[k as int].id,
                    ));
                    assert(out@ =~= slots_of(self.timeslots@.take(j as int)) + ts.arenas@.take(
                        k + 1,
                    ).map_values(|a: ArenaSlot| a.id));
                }
                k = k + 1;
            }
            proof {
                assert(ts.arenas@.take(m as int) =~= ts.arenas@);
                assert(self.timeslots@.take(j + 1).drop_last() =~= self.timeslots@.take(j as int));
                assert(self.timeslots@.take(j + 1).last() == self.timeslots@[j as int]);
            }
            j = j + 1;
        }
        proof {
            assert(self.timeslots@.take(n as int) =~= self.timeslots@);
        }
        out
    }

    pub fn to_simple(&self) -> (r: SimpleDay)
        ensures
            r == self.to_simple_spec(),
    {
        SimpleDay {
            id: self.id,
            date: self.date,
            number_time_slots: self.n_ts,
            number_arenas: self.n_kp,
        }
    }

    /// The full grid of this day, for the transport layer.
    pub fn to_data(&self) -> (r: DayData)
        ensures
            r.timeslots@.len() == self.timeslots@.len(),
            forall|j: int| 0 <= j < self.timeslots@.len() ==> ts_data_of(
                #[trigger] self.timeslots@[j],
                r.timeslots@[j],
            ),
    {
        let mut timeslots: Vec<TimeslotData> = Vec::new();
        let n = self.timeslots.len();
        let mut i: usize = 0;
        while i < n
            invariant
                i <= n,
                n == self.timeslots@.len(),
                timeslots@.len() == i,
                forall|j: int| 0 <= j < i ==> ts_data_of(
                    #[trigger] self.timeslots@[j],
                    timeslots@[j],
                ),
            decreases n - i,
        {
            timeslots.push(self.timeslots[i].to_data());
            i = i + 1;
        }
        DayData { timeslots }
    }

    pub fn to_saveable(&self) -> (r: DaySaveable)
        ensures
            day_saved(*self, r),
            r.id == self.id,
            r.date == self.date,
            r.n_ts == self.n_ts,
            r.n_kp == self.n_kp,
            r.timeslots@.len() == self.timeslots@.len(),
            forall|j: int| 0 <= j < self.timeslots@.len() ==> ts_saved(
                #[trigger] self.timeslots@[j],
                r.timeslots@[j],
            ),
    {
        let mut timeslots: Vec<TimeslotSaveable> = Vec::new();
        let n = self.timeslots.len();
        let mut i: usize = 0;
        while i < n
            invariant
                i <= n,
                n == self.timeslots@.len(),
                timeslots@.len() == i,
                forall|j: int| 0 <= j < i ==> ts_saved(
                    #[trigger] self.timeslots@[j],
                    timeslots@[j],
                ),
            decreases n - i,
        {
            timeslots.push(self.timeslots[i].to_saveable());
            i = i + 1;
        }
        DaySaveable {
            id: self.id,
            date: self.date,
            n_ts: self.n_ts,
            n_kp: self.n_kp,
            timeslots,
        }
    }

    /// Build phase of reconstruction: rebuilds the timeslot grid, skipping
    /// records whose slot number is already taken and forcing the denormalized
    /// day number throughout.
    pub fn from_saveable(s: &DaySaveable) -> (r: Self)
        ensures
            r.id == s.id,
            r.date == s.date,
            r.n_ts == s.n_ts,
            r.n_kp == s.n_kp,
            is_loaded_timeslots(s.timeslots@, r.timeslots@, s.id),
            r.wf(),
    {
        let mut timeslots: Vec<Timeslot> = Vec::new();
        let n = s.timeslots.len();
        let mut i: usize = 0;
        while i < n
            invariant
                i <= n,
                n == s.timeslots@.len(),
                is_loaded_list(s.timeslots@.take(i as int), timeslots@, ts_sid(), ts_load_rel(s.id)),
            decreases n - i,
        {
            let rec = &s.timeslots[i];
            let ghost pre = timeslots@;
            let present = match crate::container::find_index(&timeslots, rec.id.timeslot_id) {
                Some(_) => true,
                None => false,
            };
            proof {
                lemma_idx_of_props(pre, rec.id.timeslot_id);
            }
            if !present {
                let ts = Timeslot::from_timeslot_saveable(rec, s.id);
                timeslots.push(ts);
            }
            proof {
                let sid2 = ts_sid();
                let rel2 = ts_load_rel(s.id);
                let srec = s.timeslots@[i as int];
                assert(sid2(srec) == srec.id.timeslot_id);
                if present {
                    lemma_loaded_list_step(s.timeslots@, i as int, pre, pre[0], sid2, rel2);
                } else {
                    let t2 = timeslots@.last();
                    assert(timeslots@ =~= pre.push(t2));
                    assert(rel2(srec, t2));
                    assert(t2.spec_id() == sid2(srec));
                    lemma_loaded_list_step(s.timeslots@, i as int, pre, t2, sid2, rel2);
                }
            }
            i = i + 1;
        }
        proof {
            assert(s.timeslots@.take(n as int) =~= s.timeslots@);
        }
        let r = Day { id: s.id, date: s.date, n_ts: s.n_ts, n_kp: s.n_kp, timeslots };
        proof {
            let sid2 = ts_sid();
            let rel2 = ts_load_rel(s.id);
            let p = |t: Timeslot| t.id.day_id == s.id && t.wf();
            lemma_loaded_list_ids(s.timeslots@, r.timeslots@, sid2, rel2);
            assert forall|x: TimeslotSaveable, t: Timeslot| #[trigger] rel2(x, t) implies p(t) by {}
            lemma_loaded_list_all(s.timeslots@, r.timeslots@, sid2, rel2, p);
            assert forall|j: int| 0 <= j < r.timeslots@.len() implies (
            #[trigger] r.timeslots@[j]).id.day_id == r.id && r.timeslots@[j].wf() by {
                assert(p(r.timeslots@[j]));
            }
        }
        r
    }
}

/// The group ids recorded in the arena slots `arenas`, in order.
pub open spec fn tsa_rec(arenas: Seq<ArenaSlot>) -> Seq<crate::group::GroupId>
    decreases arenas.len(),
{
    if arenas.len() == 0 {
        Seq::empty()
    } else {
        let p = tsa_rec(arenas.drop_last());
        match arenas.last().group {
            Some(gid) => p.push(gid),
            None => p,
        }
    }
}

/// The group ids recorded anywhere in the day `d`'s grid, in order.
pub open spec fn day_assigned(d: Day) -> Seq<crate::group::GroupId>
    decreases d.timeslots@.len(),
{
    da_rec(d.timeslots@)
}

/// The group ids recorded in the timeslots `tss`, in order.
pub open spec fn da_rec(tss: Seq<Timeslot>) -> Seq<crate::group::GroupId>
    decreases tss.len(),
{
    if tss.len() == 0 {
        Seq::empty()
    } else {
        da_rec(tss.drop_last()) + tsa_rec(tss.last().arenas@)
    }
}

/// Membership in `tsa_rec`: exactly the recorded group ids.
pub proof fn lemma_tsa_rec_contains(arenas: Seq<ArenaSlot>)
    ensures
        forall|gid: crate::group::GroupId| #[trigger] tsa_rec(arenas).contains(gid) <==> exists|
            k: int,
        | 0 <= k < arenas.len() && (#[trigger] arenas[k].group) == Some(gid),
    decreases arenas.len(),
{
    if arenas.len() == 0 {
    } else {
        lemma_tsa_rec_contains(arenas.drop_last());
        let p = tsa_rec(arenas.drop_last());
        assert(forall|k: int| 0 <= k < arenas.len() - 1 ==> arenas.drop_last()[k] == arenas[k]);
        assert forall|gid: crate::group::GroupId| #[trigger] tsa_rec(arenas).contains(gid)
            implies exists|k: int|
            0 <= k < arenas.len() && (#[trigger] arenas[k].group) == Some(gid) by {
            let i = choose|i: int| 0 <= i < tsa_rec(arenas).len() && tsa_rec(arenas)[i] == gid;
            if i < p.len() {
                assert(p.contains(gid));
                let k = choose|k: int|
                    0 <= k < arenas.len() - 1 && (#[trigger] arenas.drop_last()[k].group) == Some(
                        gid,
                    );
                assert(arenas[k].group == Some(gid));
            } else {
                assert(arenas[arenas.len() - 1].group == Some(gid));
            }
        }
        assert forall|gid: crate::group::GroupId|
            (exists|k: int| 0 <= k < arenas.len() && (#[trigger] arenas[k].group) == Some(gid))
            implies #[trigger] tsa_rec(arenas).contains(gid) by {
            let k = choose|k: int|
                0 <= k < arenas.len() && (#[trigger] arenas[k].group) == Some(gid);
            if k < arenas.len() - 1 {
                assert(arenas.drop_last()[k].group == Some(gid));
                assert(p.contains(gid));
                let i = choose|i: int| 0 <= i < p.len() && p[i] == gid;
                assert(tsa_rec(arenas)[i] == gid);
            } else {
                assert(tsa_rec(arenas).last() == gid);
            }
        }
    }
}

/// Membership in `day_assigned`: exactly the group ids recorded in the grid.
pub proof fn lemma_day_assigned_contains(d: Day)
    ensures
        forall|gid: crate::group::GroupId| #[trigger] day_assigned(d).contains(gid) <==> exists|
            j: int,
            k: int,
        |
            0 <= j < d.timeslots@.len() && 0 <= k < d.timeslots@[j].arenas@.len() && (
            #[trigger] d.timeslots@[j].arenas@[k].group) == Some(gid),
{
    lemma_da_rec_contains(d.timeslots@);
}

/// Membership in `da_rec`.
pub proof fn lemma_da_rec_contains(tss: Seq<Timeslot>)
    ensures
        forall|gid: crate::group::GroupId| #[trigger] da_rec(tss).contains(gid) <==> exists|
            j: int,
            k: int,
        |
            0 <= j < tss.len() && 0 <= k < tss[j].arenas@.len() && (
            #[trigger] tss[j].arenas@[k].group) == Some(gid),
    decreases tss.len(),
{
    if tss.len() == 0 {
    } else {
        lemma_da_rec_contains(tss.drop_last());
        lemma_tsa_rec_contains(tss.last().arenas@);
        let p = da_rec(tss.drop_last());
        let m = tsa_rec(tss.last().arenas@);
        assert(forall|j: int| 0 <= j < tss.len() - 1 ==> tss.drop_last()[j] == tss[j]);
        assert forall|gid: crate::group::GroupId| #[trigger] da_rec(tss).contains(gid)
            implies exists|j: int, k: int|
            0 <= j < tss.len() && 0 <= k < tss[j].arenas@.len() && (
            #[trigger] tss[j].arenas@[k].group) == Some(gid) by {
            let i = choose|i: int| 0 <= i < da_rec(tss).len() && da_rec(tss)[i] == gid;
            if i < p.len() {
                assert(p.contains(gid));
                let (j, k): (int, int) = choose|j: int, k: int|
                    0 <= j < tss.len() - 1 && 0 <= k < tss.drop_last()[j].arenas@.len() && (
                    #[trigger] tss.drop_last()[j].arenas@[k].group) == Some(gid);
                assert(tss[j].arenas@[k].group == Some(gid));
            } else {
                assert(m[i - p.len()] == gid);
                assert(m.contains(gid));
                let k = choose|k: int|
                    0 <= k < tss.last().arenas@.len() && (
                    #[trigger] tss.last().arenas@[k].group) == Some(gid);
                assert(tss[tss.len() - 1].arenas@[k].group == Some(gid));
            }
        }
        assert forall|gid: crate::group::GroupId|
            (exists|j: int, k: int|
                0 <= j < tss.len() && 0 <= k < tss[j].arenas@.len() && (
                #[trigger] tss[j].arenas@[k].group) == Some(gid)) implies #[trigger] da_rec(
            tss,
        ).contains(gid) by {
            let (j, k): (int, int) = choose|j: int, k: int|
                0 <= j < tss.len() && 0 <= k < tss[j].arenas@.len() && (
                #[trigger] tss[j].arenas@[k].group) == Some(gid);
            if j < tss.len() - 1 {
                assert(tss.drop_last()[j].arenas@[k].group == Some(gid));
                assert(p.contains(gid));
                let i = choose|i: int| 0 <= i < p.len() && p[i] == gid;
                assert(da_rec(tss)[i] == gid);
            } else {
                assert(m.contains(gid));
                let i = choose|i: int| 0 <= i < m.len() && m[i] == gid;
                assert(da_rec(tss)[p.len() + i] == gid);
            }
        }
    }
}

/// Round trip of one timeslot's arena list: saving a well-parented arena
/// list and rebuilding it under the same parent ids reproduces it exactly —
/// every slot, and every recorded group reference.
pub proof fn lemma_arenas_roundtrip(
    arenas: Seq<ArenaSlot>,
    recs: Seq<ArenaSlotSaveable>,
    out: Seq<ArenaSlot>,
    day_id: u32,
    timeslot_id: u32,
)
    requires
        unique_ids(arenas),
        forall|k: int|
            0 <= k < arenas.len() ==> (#[trigger] arenas[k]).id.day_id == day_id
                && arenas[k].id.timeslot_id == timeslot_id,
        recs == arenas.map_values(|a: ArenaSlot| spec_save_arena(a)),
        is_loaded_arenas(recs, out, day_id, timeslot_id),
    ensures
        out == arenas,
{
    let sid2 = crate::timeslot::arena_sid();
    let rel2 = crate::timeslot::arena_load_rel(day_id, timeslot_id);
    assert forall|i: int, j: int| 0 <= i < j < recs.len() implies sid2(#[trigger] recs[i]) != sid2(
        #[trigger] recs[j],
    ) by {
        assert(recs[i] == spec_save_arena(arenas[i]));
        assert(recs[j] == spec_save_arena(arenas[j]));
        assert(arenas[i].spec_id() != arenas[j].spec_id());
    }
    crate::container::lemma_loaded_list_exact(recs, out, sid2, rel2);
    assert forall|k: int| 0 <= k < arenas.len() implies out[k] == arenas[k] by {
        assert(rel2(recs[k], out[k]));
        assert(recs[k] == spec_save_arena(arenas[k]));
        assert(out[k] == crate::arena_slot::spec_load_arena(recs[k]).with_parents(
            day_id,
            timeslot_id,
        ));
    }
    assert(out =~= arenas);
}

/// Round trip of a day's timeslot grid: ids and every arena slot come back
/// as they were saved.
pub proof fn lemma_timeslots_roundtrip(
    tss: Seq<Timeslot>,
    recs: Seq<TimeslotSaveable>,
    out: Seq<Timeslot>,
    day_id: u32,
)
    requires
        unique_ids(tss),
        forall|j: int|
            0 <= j < tss.len() ==> (#[trigger] tss[j]).id.day_id == day_id && tss[j].wf(),
        recs.len() == tss.len(),
        forall|j: int| 0 <= j < tss.len() ==> ts_saved(#[trigger] tss[j], recs[j]),
        is_loaded_timeslots(recs, out, day_id),
    ensures
        out.len() == tss.len(),
        forall|j: int|
            0 <= j < tss.len() ==> ((#[trigger] out[j]).id == tss[j].id && out[j].arenas@
                == tss[j].arenas@),
{
    let sid2 = ts_sid();
    let rel2 = ts_load_rel(day_id);
    assert forall|i: int, j: int| 0 <= i < j < recs.len() implies sid2(#[trigger] recs[i]) != sid2(
        #[trigger] recs[j],
    ) by {
        assert(ts_saved(tss[i], recs[i]));
        assert(ts_saved(tss[j], recs[j]));
        assert(tss[i].spec_id() != tss[j].spec_id());
    }
    crate::container::lemma_loaded_list_exact(recs, out, sid2, rel2);
    assert forall|j: int| 0 <= j < tss.len() implies ((#[trigger] out[j]).id == tss[j].id
        && out[j].arenas@ == tss[j].arenas@) by {
        assert(rel2(recs[j], out[j]));
        assert(ts_saved(tss[j], recs[j]));
        assert(tss[j].wf());
        lemma_arenas_roundtrip(
            tss[j].arenas@,
            recs[j].arenas@,
            out[j].arenas@,
            day_id,
            tss[j].id.timeslot_id,
        );
    }
}

/// Round trip of the day list: every day comes back with its id, date,
/// shape and the whole grid, arena assignments included, exactly as saved.
pub proof fn lemma_days_roundtrip(days: Seq<Day>, recs: Seq<DaySaveable>, out: Seq<Day>)
    requires
        unique_ids(days),
        forall|i: int| 0 <= i < days.len() ==> (#[trigger] days[i]).wf(),
        recs.len() == days.len(),
        forall|i: int| 0 <= i < days.len() ==> day_saved(#[trigger] days[i], recs[i]),
        is_loaded_days(recs, out),
    ensures
        out.len() == days.len(),
        forall|i: int|
            0 <= i < days.len() ==> ((#[trigger] out[i]).id == days[i].id && out[i].date
                == days[i].date && out[i].n_ts == days[i].n_ts && out[i].n_kp == days[i].n_kp
                && out[i].timeslots@.len() == days[i].timeslots@.len()),
        forall|i: int, j: int|
            0 <= i < days.len() && 0 <= j < days[i].timeslots@.len() ==> ((
            #[trigger] out[i].timeslots@[j]).id == days[i].timeslots@[j].id
                && out[i].timeslots@[j].arenas@ == days[i].timeslots@[j].arenas@),
{
    let sid2 = day_sid();
    let rel2 = day_load_rel();
    assert forall|i: int, j: int| 0 <= i < j < recs.len() implies sid2(#[trigger] recs[i]) != sid2(
        #[trigger] recs[j],
    ) by {
        assert(day_saved(days[i], recs[i]));
        assert(day_saved(days[j], recs[j]));
        assert(days[i].spec_id() != days[j].spec_id());
    }
    crate::container::lemma_loaded_list_exact(recs, out, sid2, rel2);
    assert forall|i: int| 0 <= i < days.len() implies ((#[trigger] out[i]).id == days[i].id
        && out[i].date == days[i].date && out[i].n_ts == days[i].n_ts && out[i].n_kp
        == days[i].n_kp && out[i].timeslots@.len() == days[i].timeslots@.len()) by {
        assert(rel2(recs[i], out[i]));
        assert(day_saved(days[i], recs[i]));
        assert(days[i].wf());
        lemma_timeslots_roundtrip(
            days[i].timeslots@,
            recs[i].timeslots@,
            out[i].timeslots@,
            days[i].id,
        );
    }
    assert forall|i: int, j: int|
        0 <= i < days.len() && 0 <= j < days[i].timeslots@.len() implies ((
    #[trigger] out[i].timeslots@[j]).id == days[i].timeslots@[j].id && out[i].timeslots@[j].arenas@
        == days[i].timeslots@[j].arenas@) by {
        assert(rel2(recs[i], out[i]));
        assert(day_saved(days[i], recs[i]));
        lemma_timeslots_roundtrip(
            days[i].timeslots@,
            recs[i].timeslots@,
            out[i].timeslots@,
            days[i].id,
        );
    }
}

/// All arena slot keys of the timeslots `tss`, in order.
pub open spec fn slots_of(tss: Seq<Timeslot>) -> Seq<ArenaSlotId>
    decreases tss.len(),
{
    if tss.len() == 0 {
        Seq::empty()
    } else {
        slots_of(tss.drop_last()) + tss.last().arenas@.map_values(|a: ArenaSlot| a.id)
    }
}

/// Membership in `slots_of`: exactly the keys the arena slots carry.
pub proof fn lemma_slots_of_contains(tss: Seq<Timeslot>)
    ensures
        forall|x: ArenaSlotId| #[trigger] slots_of(tss).contains(x) <==> exists|j: int, k: int|
            0 <= j < tss.len() && 0 <= k < tss[j].arenas@.len() && (
            #[trigger] tss[j].arenas@[k].id) == x,
    decreases tss.len(),
{
    if tss.len() == 0 {
    } else {
        lemma_slots_of_contains(tss.drop_last());
        let p = slots_of(tss.drop_last());
        let m = tss.last().arenas@.map_values(|a: ArenaSlot| a.id);
        assert(forall|j: int| 0 <= j < tss.len() - 1 ==> tss.drop_last()[j] == tss[j]);
        assert forall|x: ArenaSlotId| #[trigger] slots_of(tss).contains(x) implies exists|
            j: int,
            k: int,
        |
            0 <= j < tss.len() && 0 <= k < tss[j].arenas@.len() && (
            #[trigger] tss[j].arenas@[k].id) == x by {
            let i = choose|i: int| 0 <= i < slots_of(tss).len() && slots_of(tss)[i] == x;
            if i < p.len() {
                assert(p.contains(x));
                let (j, k): (int, int) = choose|j: int, k: int|
                    0 <= j < tss.len() - 1 && 0 <= k < tss.drop_last()[j].arenas@.len() && (
                    #[trigger] tss.drop_last()[j].arenas@[k].id) == x;
                assert(tss[j].arenas@[k].id == x);
            } else {
                assert(m[i - p.len()] == x);
                assert(tss[tss.len() - 1].arenas@[i - p.len()].id == x);
            }
        }
        assert forall|x: ArenaSlotId|
            (exists|j: int, k: int|
                0 <= j < tss.len() && 0 <= k < tss[j].arenas@.len() && (
                #[trigger] tss[j].arenas@[k].id) == x) implies #[trigger] slots_of(tss).contains(
            x,
        ) by {
            let (j, k): (int, int) = choose|j: int, k: int|
                0 <= j < tss.len() && 0 <= k < tss[j].arenas@.len() && (
                #[trigger] tss[j].arenas@[k].id) == x;
            if j < tss.len() - 1 {
                assert(tss.drop_last()[j].arenas@[k].id == x);
                assert(p.contains(x));
                let i = choose|i: int| 0 <= i < p.len() && p[i] == x;
                assert(slots_of(tss)[i] == x);
            } else {
                assert(m[k] == x);
                assert(slots_of(tss)[p.len() + k] == x);
            }
        }
    }
}

/// Renumbering a well-formed day yields a well-formed day; the grid's shape
/// and every arena assignment are kept.
pub proof fn lemma_renumbered_wf(d: Day, r: Day, n: u32)
    requires
        d.wf(),
        d.is_renumbered(r, n),
    ensures
        r.wf(),
        r.timeslots@.len() == d.timeslots@.len(),
        forall|j: int|
            0 <= j < d.timeslots@.len() ==> (#[trigger] r.timeslots@[j]).arenas@.len()
                == d.timeslots@[j].arenas@.len(),
        forall|j: int, k: int|
            0 <= j < d.timeslots@.len() && 0 <= k < d.timeslots@[j].arenas@.len() ==> (
            #[trigger] r.timeslots@[j].arenas@[k]).group == d.timeslots@[j].arenas@[k].group,
{
    assert forall|j: int| 0 <= j < r.timeslots@.len() implies (
    #[trigger] r.timeslots@[j]).id.day_id == r.id && r.timeslots@[j].wf() by {
        let ts0 = d.timeslots@[j];
        let tsn = r.timeslots@[j];
        assert(ts0.renumbered_day(tsn, n));
        assert(ts0.wf());
        assert forall|k: int| 0 <= k < tsn.arenas@.len() implies (
        #[trigger] tsn.arenas@[k]).id.day_id == tsn.id.day_id && tsn.arenas@[k].id.timeslot_id
            == tsn.id.timeslot_id by {
            assert(tsn.arenas@[k] == ts0.arenas@[k].with_parents(n, ts0.id.timeslot_id));
        }
        assert forall|k1: int, k2: int| 0 <= k1 < k2 < tsn.arenas@.len() implies (
        #[trigger] tsn.arenas@[k1].spec_id()) != (#[trigger] tsn.arenas@[k2].spec_id()) by {
            assert(tsn.arenas@[k1] == ts0.arenas@[k1].with_parents(n, ts0.id.timeslot_id));
            assert(tsn.arenas@[k2] == ts0.arenas@[k2].with_parents(n, ts0.id.timeslot_id));
            assert(ts0.arenas@[k1].spec_id() != ts0.arenas@[k2].spec_id());
        }
    }
    assert forall|j1: int, j2: int| 0 <= j1 < j2 < r.timeslots@.len() implies (
    #[trigger] r.timeslots@[j1].spec_id()) != (#[trigger] r.timeslots@[j2].spec_id()) by {
        assert(d.timeslots@[j1].renumbered_day(r.timeslots@[j1], n));
        assert(d.timeslots@[j2].renumbered_day(r.timeslots@[j2], n));
        assert(d.timeslots@[j1].spec_id() != d.timeslots@[j2].spec_id());
    }
    assert forall|j: int, k: int|
        0 <= j < d.timeslots@.len() && 0 <= k < d.timeslots@[j].arenas@.len() implies (
    #[trigger] r.timeslots@[j].arenas@[k]).group == d.timeslots@[j].arenas@[k].group by {
        let ts0 = d.timeslots@[j];
        assert(ts0.renumbered_day(r.timeslots@[j], n));
        assert(r.timeslots@[j].arenas@[k] == ts0.arenas@[k].with_parents(
            n,
            ts0.id.timeslot_id,
        ));
    }
}

impl HasId for Day {
    open spec fn spec_id(&self) -> u32 {
        self.id
    }

    open spec fn is_renumbered(&self, r: Self, id: u32) -> bool {
        &&& r.id == id
        &&& r.date == self.date
        &&& r.n_ts == self.n_ts
        &&& r.n_kp == self.n_kp
        &&& r.timeslots@.len() == self.timeslots@.len()
        &&& forall|j: int| 0 <= j < self.timeslots@.len() ==> (
        #[trigger] self.timeslots@[j]).renumbered_day(r.timeslots@[j], id)
    }

    fn get_id(&self) -> (r: u32)
        ensures
            r == self.spec_id(),
    {
        self.id
    }

    fn set_id(&mut self, id: u32)
        ensures
            old(self).is_renumbered(*final(self), id),
            final(self).spec_id() == id,
    {
        self.id = id;
        let n = self.timeslots.len();
        let mut i: usize = 0;
        while i < n
            invariant
                i <= n,
                n == self.timeslots@.len(),
                self.id == id,
                self.date == old(self).date,
                self.n_ts == old(self).n_ts,
                self.n_kp == old(self).n_kp,
                self.timeslots@.len() == old(self).timeslots@.len(),
                forall|j: int| 0 <= j < i ==> (#[trigger] old(self).timeslots@[j]).renumbered_day(
                    self.timeslots@[j],
                    id,
                ),
                forall|j: int| i <= j < n ==> self.timeslots@[j] == old(self).timeslots@[j],
            decreases n - i,
        {
            let ts = crate::container::elem_mut(&mut self.timeslots, i);
            ts.set_day_id(id);
            i = i + 1;
        }
    }
}

} // verus!
