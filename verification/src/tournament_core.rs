//! The assignment engine: the aggregate root binding the scheduling graph,
//! the competition graph and the fencer roster together.
//!
//! All cross references are held as plain identifiers.  Every operation keeps
//! the graph's invariants: ids unique per container, hierarchical ids
//! consistent, and the group/arena binding symmetric — a group and an arena
//! slot reference each other or not at all, on both sides.

use vstd::prelude::*;
use crate::arena_slot::{ArenaSlot, ArenaSlotId};
use crate::bewerb::{all_group_ids, rounds_free_ids, Bewerb, BewerbId, SimpleBewerbData};
use crate::container::{
    find_id, find_index, fresh_id, has_id, idx_of, is_fresh_id, lemma_find_complete,
    lemma_find_id_push, lemma_find_id_update, lemma_idx_of_props, lemma_idx_of_same_ids,
    lemma_remove_id_pointwise, lemma_remove_id_props, remove_id, unique_ids, HasId, UidContainer,
};
use crate::day::{Day, DayData, SimpleDay};
use crate::error::{Error, Warning};
use crate::fencer::{BewerbGroup, Fencer, Fencers, SimpleFencer};
use crate::group::{Group, GroupId};
use crate::round::Round;
use crate::timeslot::Timeslot;

verus! {

/// Tournament-wide metadata.
#[derive(Debug)]
pub struct TournamentInternal {
    pub name: String,
}

/// One field edit on a group, as the engine's primitives apply it.
#[derive(Debug)]
enum GroupChange {
    SetArena(Option<ArenaSlotId>),
    AddFencer(u32),
    RemoveFencer(u32),
}

/// The ids of every arena-free group across the events `bs`, in order.
pub open spec fn all_free_ids(bs: Seq<Bewerb>) -> Seq<GroupId>
    decreases bs.len(),
{
    if bs.len() == 0 {
        Seq::empty()
    } else {
        all_free_ids(bs.drop_last()) + rounds_free_ids(bs.last().rounds@)
    }
}

/// Membership in `all_free_ids`: exactly the positions of arena-free groups.
#[verifier::rlimit(40)]
pub proof fn lemma_all_free_ids_contains(bs: Seq<Bewerb>)
    ensures
        forall|gid: GroupId| #[trigger] all_free_ids(bs).contains(gid) <==> exists|
            i: int,
            j: int,
            k: int,
        |
            0 <= i < bs.len() && 0 <= j < bs[i].rounds@.len() && 0 <= k
                < bs[i].rounds@[j].groups@.len() && (#[trigger] bs[i].rounds@[j].groups@[k].id)
                == gid && bs[i].rounds@[j].groups@[k].arena_slot is None,
    decreases bs.len(),
{
    if bs.len() == 0 {
    } else {
        lemma_all_free_ids_contains(bs.drop_last());
        crate::bewerb::lemma_rounds_free_ids_contains(bs.last().rounds@);
        let p = all_free_ids(bs.drop_last());
        let m = rounds_free_ids(bs.last().rounds@);
        assert(forall|i: int| 0 <= i < bs.len() - 1 ==> bs.drop_last()[i] == bs[i]);
        assert forall|gid: GroupId| #[trigger] all_free_ids(bs).contains(gid) implies exists|
            i: int,
            j: int,
            k: int,
        |
            0 <= i < bs.len() && 0 <= j < bs[i].rounds@.len() && 0 <= k
                < bs[i].rounds@[j].groups@.len() && (#[trigger] bs[i].rounds@[j].groups@[k].id)
                == gid && bs[i].rounds@[j].groups@[k].arena_slot is None by {
            let w = choose|w: int| 0 <= w < all_free_ids(bs).len() && all_free_ids(bs)[w] == gid;
            if w < p.len() {
                assert(p.contains(gid));
                let (i, j, k): (int, int, int) = choose|i: int, j: int, k: int|
                    0 <= i < bs.len() - 1 && 0 <= j < bs.drop_last()[i].rounds@.len() && 0 <= k
                        < bs.drop_last()[i].rounds@[j].groups@.len() && (
                    #[trigger] bs.drop_last()[i].rounds@[j].groups@[k].id) == gid
                        && bs.drop_last()[i].rounds@[j].groups@[k].arena_slot is None;
                assert(bs[i].rounds@[j].groups@[k].id == gid && bs[i].rounds@[j].groups@[k]
                    .arena_slot is None);
            } else {
                assert(m[w - p.len()] == gid);
                assert(m.contains(gid));
                let (j, k): (int, int) = choose|j: int, k: int|
                    0 <= j < bs.last().rounds@.len() && 0 <= k
                        < bs.last().rounds@[j].groups@.len() && (
                    #[trigger] bs.last().rounds@[j].groups@[k].id) == gid
                        && bs.last().rounds@[j].groups@[k].arena_slot is None;
                assert(bs[bs.len() - 1].rounds@[j].groups@[k].id == gid);
            }
        }
        assert forall|gid: GroupId|
            (exists|i: int, j: int, k: int|
                0 <= i < bs.len() && 0 <= j < bs[i].rounds@.len() && 0 <= k
                    < bs[i].rounds@[j].groups@.len() && (
                #[trigger] bs[i].rounds@[j].groups@[k].id) == gid && bs[i].rounds@[j].groups@[k]
                    .arena_slot is None) implies #[trigger] all_free_ids(bs).contains(gid) by {
            let (i, j, k): (int, int, int) = choose|i: int, j: int, k: int|
                0 <= i < bs.len() && 0 <= j < bs[i].rounds@.len() && 0 <= k
                    < bs[i].rounds@[j].groups@.len() && (
                #[trigger] bs[i].rounds@[j].groups@[k].id) == gid && bs[i].rounds@[j].groups@[k]
                    .arena_slot is None;
            if i < bs.len() - 1 {
                assert(bs.drop_last()[i].rounds@[j].groups@[k].id == gid && bs.drop_last()[i]
                    .rounds@[j].groups@[k].arena_slot is None);
                assert(p.contains(gid));
                let w = choose|w: int| 0 <= w < p.len() && p[w] == gid;
                assert(all_free_ids(bs)[w] == gid);
            } else {
                assert(bs[i] == bs.last());
                assert(bs.last().rounds@[j].groups@[k].id == gid && bs.last().rounds@[j]
                    .groups@[k].arena_slot is None);
                assert(m.contains(gid));
                let w = choose|w: int| 0 <= w < m.len() && m[w] == gid;
                assert(all_free_ids(bs)[p.len() + w] == gid);
            }
        }
    }
}

/// The whole graph in its acyclic, id-referencing saveable form.
#[derive(Debug)]
pub struct TournamentSnapshot {
    pub name: String,
    pub days: Vec<crate::day::DaySaveable>,
    pub bewerbs: Vec<crate::bewerb::BewerbSaveable>,
    pub fencers: Vec<crate::fencer::FencerSaveable>,
}

/// The ids of every group across the events `bs`, in order.
pub open spec fn graph_group_ids(bs: Seq<Bewerb>) -> Seq<GroupId>
    decreases bs.len(),
{
    if bs.len() == 0 {
        Seq::empty()
    } else {
        graph_group_ids(bs.drop_last()) + all_group_ids(bs.last().rounds@)
    }
}

/// Membership in `graph_group_ids`: exactly the ids the groups carry.
#[verifier::rlimit(40)]
pub proof fn lemma_graph_group_ids_contains(bs: Seq<Bewerb>)
    ensures
        forall|gid: GroupId| #[trigger] graph_group_ids(bs).contains(gid) <==> exists|
            i: int,
            j: int,
            k: int,
        |
            0 <= i < bs.len() && 0 <= j < bs[i].rounds@.len() && 0 <= k
                < bs[i].rounds@[j].groups@.len() && (#[trigger] bs[i].rounds@[j].groups@[k].id)
                == gid,
    decreases bs.len(),
{
    if bs.len() == 0 {
    } else {
        lemma_graph_group_ids_contains(bs.drop_last());
        crate::bewerb::lemma_all_group_ids_contains(bs.last().rounds@);
        let p = graph_group_ids(bs.drop_last());
        let m = all_group_ids(bs.last().rounds@);
        assert(forall|i: int| 0 <= i < bs.len() - 1 ==> bs.drop_last()[i] == bs[i]);
        assert forall|gid: GroupId| #[trigger] graph_group_ids(bs).contains(gid) implies exists|
            i: int,
            j: int,
            k: int,
        |
            0 <= i < bs.len() && 0 <= j < bs[i].rounds@.len() && 0 <= k
                < bs[i].rounds@[j].groups@.len() && (#[trigger] bs[i].rounds@[j].groups@[k].id)
                == gid by {
            let w = choose|w: int|
                0 <= w < graph_group_ids(bs).len() && graph_group_ids(bs)[w] == gid;
            if w < p.len() {
                assert(p.contains(gid));
                let (i, j, k): (int, int, int) = choose|i: int, j: int, k: int|
                    0 <= i < bs.len() - 1 && 0 <= j < bs.drop_last()[i].rounds@.len() && 0 <= k
                        < bs.drop_last()[i].rounds@[j].groups@.len() && (
                    #[trigger] bs.drop_last()[i].rounds@[j].groups@[k].id) == gid;
                assert(bs[i].rounds@[j].groups@[k].id == gid);
            } else {
                assert(m[w - p.len()] == gid);
                assert(m.contains(gid));
                let (j, k): (int, int) = choose|j: int, k: int|
                    0 <= j < bs.last().rounds@.len() && 0 <= k
                        < bs.last().rounds@[j].groups@.len() && (
                    #[trigger] bs.last().rounds@[j].groups@[k].id) == gid;
                assert(bs[bs.len() - 1].rounds@[j].groups@[k].id == gid);
            }
        }
        assert forall|gid: GroupId|
            (exists|i: int, j: int, k: int|
                0 <= i < bs.len() && 0 <= j < bs[i].rounds@.len() && 0 <= k
                    < bs[i].rounds@[j].groups@.len() && (
                #[trigger] bs[i].rounds@[j].groups@[k].id) == gid)
            implies #[trigger] graph_group_ids(bs).contains(gid) by {
            let (i, j, k): (int, int, int) = choose|i: int, j: int, k: int|
                0 <= i < bs.len() && 0 <= j < bs[i].rounds@.len() && 0 <= k
                    < bs[i].rounds@[j].groups@.len() && (
                #[trigger] bs[i].rounds@[j].groups@[k].id) == gid;
            if i < bs.len() - 1 {
                assert(bs.drop_last()[i].rounds@[j].groups@[k].id == gid);
                assert(p.contains(gid));
                let w = choose|w: int| 0 <= w < p.len() && p[w] == gid;
                assert(graph_group_ids(bs)[w] == gid);
            } else {
                assert(bs[i] == bs.last());
                assert(bs.last().rounds@[j].groups@[k].id == gid);
                assert(m.contains(gid));
                let w = choose|w: int| 0 <= w < m.len() && m[w] == gid;
                assert(graph_group_ids(bs)[p.len() + w] == gid);
            }
        }
    }
}

/// The keys of every arena slot across the days `ds`, in order.
pub open spec fn graph_slot_ids(ds: Seq<Day>) -> Seq<ArenaSlotId>
    decreases ds.len(),
{
    if ds.len() == 0 {
        Seq::empty()
    } else {
        graph_slot_ids(ds.drop_last()) + crate::day::slots_of(ds.last().timeslots@)
    }
}

/// Membership in `graph_slot_ids`: exactly the keys the arena slots carry.
pub proof fn lemma_graph_slot_ids_contains(ds: Seq<Day>)
    ensures
        forall|x: ArenaSlotId| #[trigger] graph_slot_ids(ds).contains(x) <==> exists|
            i: int,
            j: int,
            k: int,
        |
            0 <= i < ds.len() && 0 <= j < ds[i].timeslots@.len() && 0 <= k
                < ds[i].timeslots@[j].arenas@.len() && (
            #[trigger] ds[i].timeslots@[j].arenas@[k].id) == x,
    decreases ds.len(),
{
    if ds.len() == 0 {
    } else {
        lemma_graph_slot_ids_contains(ds.drop_last());
        crate::day::lemma_slots_of_contains(ds.last().timeslots@);
        let p = graph_slot_ids(ds.drop_last());
        let m = crate::day::slots_of(ds.last().timeslots@);
        assert(forall|i: int| 0 <= i < ds.len() - 1 ==> ds.drop_last()[i] == ds[i]);
        assert forall|x: ArenaSlotId| #[trigger] graph_slot_ids(ds).contains(x) implies exists|
            i: int,
            j: int,
            k: int,
        |
            0 <= i < ds.len() && 0 <= j < ds[i].timeslots@.len() && 0 <= k
                < ds[i].timeslots@[j].arenas@.len() && (
            #[trigger] ds[i].timeslots@[j].arenas@[k].id) == x by {
            let w = choose|w: int|
                0 <= w < graph_slot_ids(ds).len() && graph_slot_ids(ds)[w] == x;
            if w < p.len() {
                assert(p.contains(x));
                let (i, j, k): (int, int, int) = choose|i: int, j: int, k: int|
                    0 <= i < ds.len() - 1 && 0 <= j < ds.drop_last()[i].timeslots@.len() && 0 <= k
                        < ds.drop_last()[i].timeslots@[j].arenas@.len() && (
                    #[trigger] ds.drop_last()[i].timeslots@[j].arenas@[k].id) == x;
                assert(ds[i].timeslots@[j].arenas@[k].id == x);
            } else {
                assert(m[w - p.len()] == x);
                assert(m.contains(x));
                let (j, k): (int, int) = choose|j: int, k: int|
                    0 <= j < ds.last().timeslots@.len() && 0 <= k
                        < ds.last().timeslots@[j].arenas@.len() && (
                    #[trigger] ds.last().timeslots@[j].arenas@[k].id) == x;
                assert(ds[ds.len() - 1].timeslots@[j].arenas@[k].id == x);
            }
        }
        assert forall|x: ArenaSlotId|
            (exists|i: int, j: int, k: int|
                0 <= i < ds.len() && 0 <= j < ds[i].timeslots@.len() && 0 <= k
                    < ds[i].timeslots@[j].arenas@.len() && (
                #[trigger] ds[i].timeslots@[j].arenas@[k].id) == x)
            implies #[trigger] graph_slot_ids(ds).contains(x) by {
            let (i, j, k): (int, int, int) = choose|i: int, j: int, k: int|
                0 <= i < ds.len() && 0 <= j < ds[i].timeslots@.len() && 0 <= k
                    < ds[i].timeslots@[j].arenas@.len() && (
                #[trigger] ds[i].timeslots@[j].arenas@[k].id) == x;
            if i < ds.len() - 1 {
                assert(ds.drop_last()[i].timeslots@[j].arenas@[k].id == x);
                assert(p.contains(x));
                let w = choose|w: int| 0 <= w < p.len() && p[w] == x;
                assert(graph_slot_ids(ds)[w] == x);
            } else {
                assert(m.contains(x));
                let w = choose|w: int| 0 <= w < m.len() && m[w] == x;
                assert(graph_slot_ids(ds)[p.len() + w] == x);
            }
        }
    }
}

/// How one roster binding changes the member list of the group at key
/// `(b, r2, g2)`: the displaced group's list loses the fencer first, then
/// the target group's list gains it; every other list is untouched.
pub open spec fn member_list_update(
    base: Seq<u32>,
    b: u32,
    r2: u32,
    g2: u32,
    applies: bool,
    d: Option<GroupId>,
    gid: GroupId,
    fid: u32,
) -> Seq<u32> {
    let after_rm = if applies && (match d {
        Some(dg) => dg.bewerb_id == b && dg.round_id == r2 && dg.group_id == g2,
        None => false,
    }) {
        crate::group::seq_without(base, fid)
    } else {
        base
    };
    if applies && gid.bewerb_id == b && gid.round_id == r2 && gid.group_id == g2 {
        after_rm.push(fid)
    } else {
        after_rm
    }
}

/// One warning per record skipped for an already-taken id, in order.
pub open spec fn dup_warnings<S>(
    ss: Seq<S>,
    sid: spec_fn(S) -> u32,
    mk: spec_fn(u32) -> Warning,
) -> Seq<Warning>
    decreases ss.len(),
{
    if ss.len() == 0 {
        Seq::empty()
    } else {
        let p = dup_warnings(ss.drop_last(), sid, mk);
        if crate::container::loaded_ids(ss.drop_last(), sid).contains(sid(ss.last())) {
            p.push(mk(sid(ss.last())))
        } else {
            p
        }
    }
}

/// The warning a duplicate day record draws.
pub open spec fn day_dup() -> spec_fn(u32) -> Warning {
    |id: u32| Warning::DuplicateDay(id)
}

/// The warning a duplicate event record draws.
pub open spec fn bewerb_dup() -> spec_fn(u32) -> Warning {
    |id: u32| Warning::DuplicateBewerb(id)
}

/// One warning per group whose recorded arena reference the resolve phase
/// cleared, in the order the groups are walked.
pub open spec fn group_link_warnings(keys: Seq<GroupId>, t0: Tournament) -> Seq<Warning>
    decreases keys.len(),
{
    if keys.len() == 0 {
        Seq::empty()
    } else {
        let p = group_link_warnings(keys.drop_last(), t0);
        let q = keys.last();
        if !key_in(keys.drop_last(), q.bewerb_id, q.round_id, q.group_id) && (match t0.spec_group(
            q,
        ) {
            Some(g) => g.arena_slot is Some,
            None => false,
        }) && !t0.mutual_group(q.bewerb_id, q.round_id, q.group_id) {
            p.push(Warning::BrokenGroupLink(q))
        } else {
            p
        }
    }
}

/// One warning per arena slot whose recorded group reference the resolve
/// phase cleared, in the order the slots are walked.
pub open spec fn arena_link_warnings(xs: Seq<ArenaSlotId>, t0: Tournament) -> Seq<Warning>
    decreases xs.len(),
{
    if xs.len() == 0 {
        Seq::empty()
    } else {
        let p = arena_link_warnings(xs.drop_last(), t0);
        let x = xs.last();
        if !xs.drop_last().contains(x) && (match t0.spec_arena(x) {
            Some(a) => a.group is Some,
            None => false,
        }) && !t0.mutual_arena(x) {
            p.push(Warning::BrokenArenaLink(x))
        } else {
            p
        }
    }
}

/// The saveable projection `to_snapshot` writes: one record per entity,
/// every cross reference stored as an id.
pub open spec fn snapshot_saved(t: Tournament, s: TournamentSnapshot) -> bool {
    &&& s.name == t.inner.name
    &&& s.days@.len() == t.days@.len()
    &&& (forall|i: int| 0 <= i < t.days@.len() ==> crate::day::day_saved(
        #[trigger] t.days@[i],
        s.days@[i],
    ))
    &&& s.bewerbs@.len() == t.bewerbs@.len()
    &&& (forall|i: int| 0 <= i < t.bewerbs@.len() ==> crate::bewerb::bewerb_saved(
        #[trigger] t.bewerbs@[i],
        s.bewerbs@[i],
    ))
    &&& s.fencers@.len() == t.fencers.fencers@.len()
    &&& (forall|i: int| 0 <= i < t.fencers.fencers@.len() ==> crate::fencer::fencer_saved(
        #[trigger] t.fencers.fencers@[i],
        s.fencers@[i],
    ))
}

/// The phases of reconstruction: `tm` is the graph as built from the
/// records, `tv` the graph after the resolve phase confirmed every recorded
/// group/arena binding, and `fin` the result after the fencers were
/// installed and their recorded references re-established.
pub open spec fn snapshot_phases(
    s: TournamentSnapshot,
    tm: Tournament,
    tv: Tournament,
    fin: Tournament,
) -> bool {
    &&& crate::bewerb::is_loaded_bewerbs(s.bewerbs@, tm.bewerbs@)
    &&& crate::day::is_loaded_days(s.days@, tm.days@)
    &&& (forall|b: u32, r2: u32, g2: u32| #[trigger] tv.spec_group_n(b, r2, g2)
        == match tm.spec_group_n(b, r2, g2) {
        Some(g) => Some(
            if tm.mutual_group(b, r2, g2) {
                g
            } else {
                g.with_arena(None)
            },
        ),
        None => None,
    })
    &&& (forall|x: ArenaSlotId| #[trigger] tv.spec_arena(x) == match tm.spec_arena(x) {
        Some(a) => Some(
            if tm.mutual_arena(x) {
                a
            } else {
                a.with_group(None)
            },
        ),
        None => None,
    })
    &&& tv.fencers.fencers@.len() == 0
    &&& tv.days@.len() == tm.days@.len()
    &&& (forall|i: int|
        0 <= i < tm.days@.len() ==> ((#[trigger] tv.days@[i]).id == tm.days@[i].id
            && tv.days@[i].date == tm.days@[i].date && tv.days@[i].n_ts == tm.days@[i].n_ts
            && tv.days@[i].n_kp == tm.days@[i].n_kp))
    &&& tv.bewerbs@.len() == tm.bewerbs@.len()
    &&& (forall|i: int|
        0 <= i < tm.bewerbs@.len() ==> ((#[trigger] tv.bewerbs@[i]).id == tm.bewerbs@[i].id
            && tv.bewerbs@[i].n_rounds == tm.bewerbs@[i].n_rounds && tv.bewerbs@[i].n_groups
            == tm.bewerbs@[i].n_groups))
    &&& fin.days@ == tv.days@
    &&& fin.bewerbs@.len() == tv.bewerbs@.len()
    &&& (forall|i: int|
        0 <= i < tv.bewerbs@.len() ==> ((#[trigger] fin.bewerbs@[i]).id == tv.bewerbs@[i].id
            && fin.bewerbs@[i].n_rounds == tv.bewerbs@[i].n_rounds && fin.bewerbs@[i].n_groups
            == tv.bewerbs@[i].n_groups))
    &&& (forall|x: ArenaSlotId| #[trigger] fin.spec_arena(x) == tv.spec_arena(x))
    &&& (forall|b: u32, r2: u32, g2: u32|
        match #[trigger] tv.spec_group_n(b, r2, g2) {
            Some(g) => match fin.spec_group_n(b, r2, g2) {
                Some(gg) => gg.id == g.id && gg.arena_slot == g.arena_slot,
                None => false,
            },
            None => fin.spec_group_n(b, r2, g2) is None,
        })
    &&& (forall|b: u32, r2: u32, g2: u32|
        match #[trigger] fin.spec_group_n(b, r2, g2) {
            Some(gg) => gg.fencers@ == crate::fencer::members_of(
                fin.fencers.fencers@,
                b,
                r2,
                g2,
            ),
            None => true,
        })
    &&& crate::fencer::is_installed_fencers(s.fencers@, fin.fencers.fencers@, tv.bewerbs@)
}

/// Some reference in `refs` addresses the numeric key `(b, r, g)`.
pub open spec fn key_in(refs: Seq<GroupId>, b: u32, r: u32, g: u32) -> bool {
    exists|j: int|
        0 <= j < refs.len() && (#[trigger] refs[j]).bewerb_id == b && refs[j].round_id == r
            && refs[j].group_id == g
}

/// What each edit does to a group.
spec fn group_changed(g: Group, c: GroupChange, g2: Group) -> bool {
    match c {
        GroupChange::SetArena(v) => g2 == g.with_arena(v),
        GroupChange::AddFencer(f) => g2.id == g.id && g2.arena_slot == g.arena_slot
            && g2.fencers@ == g.fencers@.push(f),
        GroupChange::RemoveFencer(f) => g2.id == g.id && g2.arena_slot == g.arena_slot
            && g2.fencers@ == crate::group::seq_without(g.fencers@, f),
    }
}

/// The aggregate root: days, events and the fencer roster.
#[derive(Debug)]
pub struct Tournament {
    pub inner: TournamentInternal,
    pub bewerbs: UidContainer<Bewerb>,
    pub days: UidContainer<Day>,
    pub fencers: Fencers,
}

impl Tournament {
    /// Lookup of a day by id.
    pub open spec fn spec_day(&self, id: u32) -> Option<Day> {
        find_id(self.days@, id)
    }

    /// Lookup of an event by id.
    pub open spec fn spec_bewerb(&self, id: u32) -> Option<Bewerb> {
        find_id(self.bewerbs@, id)
    }

    /// Lookup of an arena slot along its hierarchical key.
    pub open spec fn spec_arena(&self, aid: ArenaSlotId) -> Option<ArenaSlot> {
        match find_id(self.days@, aid.day_id) {
            Some(d) => d.spec_arena_of(aid),
            None => None,
        }
    }

    /// Lookup of a group by its numeric key.
    pub open spec fn spec_group_n(&self, b: u32, r: u32, g: u32) -> Option<Group> {
        match find_id(self.bewerbs@, b) {
            Some(bw) => bw.spec_group_of(r, g),
            None => None,
        }
    }

    /// Lookup of a group by id (the denormalized name plays no part).
    pub open spec fn spec_group(&self, gid: GroupId) -> Option<Group> {
        self.spec_group_n(gid.bewerb_id, gid.round_id, gid.group_id)
    }

    /// Invariants 1 and 5: ids unique in every container, and every child's
    /// denormalized parent ids equal to its parent's actual ids.
    pub open spec fn hier_wf(&self) -> bool {
        &&& unique_ids(self.days@)
        &&& forall|i: int| 0 <= i < self.days@.len() ==> (#[trigger] self.days@[i]).wf()
        &&& unique_ids(self.bewerbs@)
        &&& forall|i: int| 0 <= i < self.bewerbs@.len() ==> (#[trigger] self.bewerbs@[i]).wf()
        &&& unique_ids(self.fencers.fencers@)
    }

    /// Invariant 2, symmetric assignment: a group's recorded arena slot and
    /// that slot's recorded group are both unset or point to each other, so
    /// no group or slot is claimed by more than one counterpart.
    pub open spec fn links_wf(&self) -> bool {
        &&& forall|aid: ArenaSlotId|
            match #[trigger] self.spec_arena(aid) {
                Some(a) => match a.group {
                    Some(gid) => match self.spec_group(gid) {
                        Some(grp) => grp.arena_slot == Some(aid),
                        None => false,
                    },
                    None => true,
                },
                None => true,
            }
        &&& forall|b: u32, r: u32, g: u32|
            match #[trigger] self.spec_group_n(b, r, g) {
                Some(grp) => match grp.arena_slot {
                    Some(aid) => match self.spec_arena(aid) {
                        Some(a) => match a.group {
                            Some(gid) => gid.bewerb_id == b && gid.round_id == r && gid.group_id
                                == g,
                            None => false,
                        },
                        None => false,
                    },
                    None => true,
                },
                None => true,
            }
    }

    /// Invariant 3 (scoping half): a roster slot holds only a group of its
    /// entry's event, for the round the slot stands for.
    pub open spec fn roster_wf(&self) -> bool {
        forall|i: int, j: int, k: int|
            0 <= i < self.fencers.fencers@.len() && 0 <= j
                < self.fencers.fencers@[i].bewerbs@.len() && 0 <= k
                < self.fencers.fencers@[i].bewerbs@[j].groups@.len()
                ==> match #[trigger] self.fencers.fencers@[i].bewerbs@[j].groups@[k] {
                Some(gid) => gid.bewerb_id
                    == self.fencers.fencers@[i].bewerbs@[j].bewerb_id.bewerb_id && gid.round_id
                    == k,
                None => true,
            }
    }

    /// What every assignment engine operation preserves.
    pub open spec fn wf(&self) -> bool {
        self.hier_wf() && self.links_wf() && self.roster_wf()
    }

    /// Lookups and invariants read only the three graph fields, never the
    /// metadata.
    pub proof fn lemma_same_graph(a: Tournament, b: Tournament)
        requires
            a.days@ == b.days@,
            a.bewerbs@ == b.bewerbs@,
            a.fencers.fencers@ == b.fencers.fencers@,
        ensures
            forall|aid: ArenaSlotId| #[trigger] a.spec_arena(aid) == b.spec_arena(aid),
            forall|bq: u32, r: u32, g: u32| #[trigger] a.spec_group_n(bq, r, g)
                == b.spec_group_n(bq, r, g),
            forall|id: u32| #[trigger] a.spec_day(id) == b.spec_day(id),
            forall|id: u32| #[trigger] a.spec_bewerb(id) == b.spec_bewerb(id),
            a.hier_wf() == b.hier_wf(),
            a.links_wf() == b.links_wf(),
            a.roster_wf() == b.roster_wf(),
            a.wf() == b.wf(),
    {
        assert forall|aid: ArenaSlotId| #[trigger] a.spec_arena(aid) == b.spec_arena(aid) by {}
        assert forall|bq: u32, r: u32, g: u32| #[trigger] a.spec_group_n(bq, r, g)
            == b.spec_group_n(bq, r, g) by {}
        assert(a.links_wf() ==> b.links_wf()) by {
            if a.links_wf() {
                assert forall|aid: ArenaSlotId|
                    match #[trigger] b.spec_arena(aid) {
                        Some(sl) => match sl.group {
                            Some(gid) => match b.spec_group(gid) {
                                Some(grp) => grp.arena_slot == Some(aid),
                                None => false,
                            },
                            None => true,
                        },
                        None => true,
                    } by {
                    assert(b.spec_arena(aid) == a.spec_arena(aid));
                    match a.spec_arena(aid) {
                        Some(sl) => match sl.group {
                            Some(gid) => {
                                assert(b.spec_group(gid) == a.spec_group(gid));
                            },
                            None => {},
                        },
                        None => {},
                    }
                }
                assert forall|bq: u32, r: u32, g: u32|
                    match #[trigger] b.spec_group_n(bq, r, g) {
                        Some(grp) => match grp.arena_slot {
                            Some(aid) => match b.spec_arena(aid) {
                                Some(sl) => match sl.group {
                                    Some(gid) => gid.bewerb_id == bq && gid.round_id == r
                                        && gid.group_id == g,
                                    None => false,
                                },
                                None => false,
                            },
                            None => true,
                        },
                        None => true,
                    } by {
                    assert(b.spec_group_n(bq, r, g) == a.spec_group_n(bq, r, g));
                    match a.spec_group_n(bq, r, g) {
                        Some(grp) => match grp.arena_slot {
                            Some(aid) => {
                                assert(b.spec_arena(aid) == a.spec_arena(aid));
                            },
                            None => {},
                        },
                        None => {},
                    }
                }
            }
        }
        assert(b.links_wf() ==> a.links_wf()) by {
            if b.links_wf() {
                assert forall|aid: ArenaSlotId|
                    match #[trigger] a.spec_arena(aid) {
                        Some(sl) => match sl.group {
                            Some(gid) => match a.spec_group(gid) {
                                Some(grp) => grp.arena_slot == Some(aid),
                                None => false,
                            },
                            None => true,
                        },
                        None => true,
                    } by {
                    assert(b.spec_arena(aid) == a.spec_arena(aid));
                    match a.spec_arena(aid) {
                        Some(sl) => match sl.group {
                            Some(gid) => {
                                assert(b.spec_group(gid) == a.spec_group(gid));
                            },
                            None => {},
                        },
                        None => {},
                    }
                }
                assert forall|bq: u32, r: u32, g: u32|
                    match #[trigger] a.spec_group_n(bq, r, g) {
                        Some(grp) => match grp.arena_slot {
                            Some(aid) => match a.spec_arena(aid) {
                                Some(sl) => match sl.group {
                                    Some(gid) => gid.bewerb_id == bq && gid.round_id == r
                                        && gid.group_id == g,
                                    None => false,
                                },
                                None => false,
                            },
                            None => true,
                        },
                        None => true,
                    } by {
                    assert(b.spec_group_n(bq, r, g) == a.spec_group_n(bq, r, g));
                    match a.spec_group_n(bq, r, g) {
                        Some(grp) => match grp.arena_slot {
                            Some(aid) => {
                                assert(b.spec_arena(aid) == a.spec_arena(aid));
                            },
                            None => {},
                        },
                        None => {},
                    }
                }
            }
        }
    }

    /// Arena lookups read only the days.
    pub proof fn lemma_same_days(a: Tournament, b: Tournament)
        requires
            a.days@ == b.days@,
        ensures
            forall|aid: ArenaSlotId| #[trigger] a.spec_arena(aid) == b.spec_arena(aid),
            forall|id: u32| #[trigger] a.spec_day(id) == b.spec_day(id),
    {
        assert forall|aid: ArenaSlotId| #[trigger] a.spec_arena(aid) == b.spec_arena(aid) by {}
        assert forall|id: u32| #[trigger] a.spec_day(id) == b.spec_day(id) by {}
    }

    /// Group lookups read only the events.
    pub proof fn lemma_same_bewerbs(a: Tournament, b: Tournament)
        requires
            a.bewerbs@ == b.bewerbs@,
        ensures
            forall|bq: u32, r: u32, g: u32| #[trigger] a.spec_group_n(bq, r, g)
                == b.spec_group_n(bq, r, g),
            forall|id: u32| #[trigger] a.spec_bewerb(id) == b.spec_bewerb(id),
    {
        assert forall|bq: u32, r: u32, g: u32| #[trigger] a.spec_group_n(bq, r, g)
            == b.spec_group_n(bq, r, g) by {}
        assert forall|id: u32| #[trigger] a.spec_bewerb(id) == b.spec_bewerb(id) by {}
    }

    /// Under hierarchical id consistency, a found arena slot carries exactly
    /// the key it was found under.
    pub proof fn lemma_spec_arena_id(&self, aid: ArenaSlotId)
        requires
            self.hier_wf(),
        ensures
            match self.spec_arena(aid) {
                Some(a) => a.id == aid,
                None => true,
            },
    {
        lemma_idx_of_props(self.days@, aid.day_id);
        match find_id(self.days@, aid.day_id) {
            Some(d) => {
                assert(d == self.days@[idx_of(self.days@, aid.day_id)]);
                assert(d.wf());
                lemma_idx_of_props(d.timeslots@, aid.timeslot_id);
                match find_id(d.timeslots@, aid.timeslot_id) {
                    Some(ts) => {
                        assert(ts == d.timeslots@[idx_of(d.timeslots@, aid.timeslot_id)]);
                        assert(ts.wf());
                        lemma_idx_of_props(ts.arenas@, aid.arena_slot_id);
                        match find_id(ts.arenas@, aid.arena_slot_id) {
                            Some(a) => {
                                assert(a == ts.arenas@[idx_of(ts.arenas@, aid.arena_slot_id)]);
                            },
                            None => {},
                        }
                    },
                    None => {},
                }
            },
            None => {},
        }
    }

    /// Under hierarchical id consistency, a found group carries exactly the
    /// numeric key it was found under.
    pub proof fn lemma_spec_group_ids(&self, b: u32, r: u32, g: u32)
        requires
            self.hier_wf(),
        ensures
            match self.spec_group_n(b, r, g) {
                Some(grp) => grp.id.bewerb_id == b && grp.id.round_id == r && grp.id.group_id
                    == g,
                None => true,
            },
    {
        lemma_idx_of_props(self.bewerbs@, b);
        match find_id(self.bewerbs@, b) {
            Some(bw) => {
                assert(bw == self.bewerbs@[idx_of(self.bewerbs@, b)]);
                assert(bw.wf());
                lemma_idx_of_props(bw.rounds@, r);
                match find_id(bw.rounds@, r) {
                    Some(rd) => {
                        assert(rd == bw.rounds@[idx_of(bw.rounds@, r)]);
                        assert(rd.wf());
                        lemma_idx_of_props(rd.groups@, g);
                        match find_id(rd.groups@, g) {
                            Some(grp) => {
                                assert(grp == rd.groups@[idx_of(rd.groups@, g)]);
                            },
                            None => {},
                        }
                    },
                    None => {},
                }
            },
            None => {},
        }
    }

    /// Under hierarchical id consistency, every group of the graph is found
    /// at its own key.
    pub proof fn lemma_group_complete(&self, i: int, j: int, k: int)
        requires
            self.hier_wf(),
            0 <= i < self.bewerbs@.len(),
            0 <= j < self.bewerbs@[i].rounds@.len(),
            0 <= k < self.bewerbs@[i].rounds@[j].groups@.len(),
        ensures
            ({
                let grp = self.bewerbs@[i].rounds@[j].groups@[k];
                self.spec_group_n(grp.id.bewerb_id, grp.id.round_id, grp.id.group_id) == Some(grp)
            }),
    {
        let bw = self.bewerbs@[i];
        let rd = bw.rounds@[j];
        let grp = rd.groups@[k];
        assert(bw.wf());
        assert(rd.wf());
        lemma_find_complete(self.bewerbs@, i);
        assert(grp.id.bewerb_id == bw.id.bewerb_id);
        assert(find_id(self.bewerbs@, grp.id.bewerb_id) == Some(bw));
        lemma_find_complete(bw.rounds@, j);
        assert(grp.id.round_id == rd.id.round_id);
        assert(find_id(bw.rounds@, grp.id.round_id) == Some(rd));
        lemma_find_complete(rd.groups@, k);
        assert(find_id(rd.groups@, grp.id.group_id) == Some(grp));
    }

    /// Under hierarchical id consistency, every arena slot of the graph is
    /// found at its own key.
    pub proof fn lemma_arena_complete(&self, i: int, j: int, k: int)
        requires
            self.hier_wf(),
            0 <= i < self.days@.len(),
            0 <= j < self.days@[i].timeslots@.len(),
            0 <= k < self.days@[i].timeslots@[j].arenas@.len(),
        ensures
            self.spec_arena(self.days@[i].timeslots@[j].arenas@[k].id) == Some(
                self.days@[i].timeslots@[j].arenas@[k],
            ),
    {
        let d = self.days@[i];
        let ts = d.timeslots@[j];
        let a = ts.arenas@[k];
        assert(d.wf());
        assert(ts.wf());
        lemma_find_complete(self.days@, i);
        assert(a.id.day_id == d.id);
        assert(find_id(self.days@, a.id.day_id) == Some(d));
        lemma_find_complete(d.timeslots@, j);
        assert(a.id.timeslot_id == ts.id.timeslot_id);
        assert(find_id(d.timeslots@, a.id.timeslot_id) == Some(ts));
        lemma_find_complete(ts.arenas@, k);
        assert(find_id(ts.arenas@, a.id.arena_slot_id) == Some(a));
    }

    /// The group side of a recorded binding is confirmed: if the group holds
    /// an arena id, that arena exists and records this very group.
    pub open spec fn mutual_group(&self, b: u32, r: u32, g: u32) -> bool {
        match self.spec_group_n(b, r, g) {
            Some(grp) => match grp.arena_slot {
                Some(x) => match self.spec_arena(x) {
                    Some(a) => match a.group {
                        Some(gx) => gx.bewerb_id == b && gx.round_id == r && gx.group_id == g,
                        None => false,
                    },
                    None => false,
                },
                None => true,
            },
            None => true,
        }
    }

    /// The arena side of a recorded binding is confirmed: if the slot holds a
    /// group id, that group exists and records this very slot.
    pub open spec fn mutual_arena(&self, x: ArenaSlotId) -> bool {
        match self.spec_arena(x) {
            Some(a) => match a.group {
                Some(gx) => match self.spec_group(gx) {
                    Some(grp) => grp.arena_slot == Some(x),
                    None => false,
                },
                None => true,
            },
            None => true,
        }
    }

    /// The ids of every group of the graph, in order.
    fn all_group_keys(&self) -> (r: Vec<GroupId>)
        ensures
            r@ == graph_group_ids(self.bewerbs@),
    {
        let mut r: Vec<GroupId> = Vec::new();
        let n = self.bewerbs.len();
        let mut i: usize = 0;
        while i < n
            invariant
                i <= n,
                n == self.bewerbs@.len(),
                r@ == graph_group_ids(self.bewerbs@.take(i as int)),
            decreases n - i,
        {
            let mut bw_groups = self.bewerbs.at(i).get_all_groups();
            proof {
                assert(self.bewerbs@.take(i + 1).drop_last() =~= self.bewerbs@.take(i as int));
                assert(self.bewerbs@.take(i + 1).last() == self.bewerbs@[i as int]);
            }
            r.append(&mut bw_groups);
            i = i + 1;
        }
        proof {
            assert(self.bewerbs@.take(n as int) =~= self.bewerbs@);
        }
        r
    }

    /// The keys of every arena slot of the schedule, in order.
    fn all_slot_keys(&self) -> (r: Vec<ArenaSlotId>)
        ensures
            r@ == graph_slot_ids(self.days@),
    {
        let mut r: Vec<ArenaSlotId> = Vec::new();
        let n = self.days.len();
        let mut i: usize = 0;
        while i < n
            invariant
                i <= n,
                n == self.days@.len(),
                r@ == graph_slot_ids(self.days@.take(i as int)),
            decreases n - i,
        {
            let mut day_slots = self.days.at(i).slot_ids();
            proof {
                assert(self.days@.take(i + 1).drop_last() =~= self.days@.take(i as int));
                assert(self.days@.take(i + 1).last() == self.days@[i as int]);
            }
            r.append(&mut day_slots);
            i = i + 1;
        }
        proof {
            assert(self.days@.take(n as int) =~= self.days@);
        }
        r
    }

    /// The resolve phase of reconstruction: confirms every recorded
    /// group/arena relationship against its counterpart and clears, with a
    /// warning, each side whose counterpart is missing or does not point
    /// back.  Afterwards the symmetric-assignment invariant holds.
    pub fn validate_links(&mut self) -> (w: Vec<Warning>)
        requires
            old(self).hier_wf(),
            old(self).roster_wf(),
        ensures
            final(self).wf(),
            final(self).fencers == old(self).fencers,
            final(self).inner == old(self).inner,
            final(self).days@.len() == old(self).days@.len(),
            final(self).bewerbs@.len() == old(self).bewerbs@.len(),
            forall|b: u32, r2: u32, g2: u32| #[trigger] final(self).spec_group_n(b, r2, g2)
                == match old(self).spec_group_n(b, r2, g2) {
                Some(g) => Some(
                    if old(self).mutual_group(b, r2, g2) {
                        g
                    } else {
                        g.with_arena(None)
                    },
                ),
                None => None,
            },
            forall|x: ArenaSlotId| #[trigger] final(self).spec_arena(x) == match old(self).spec_arena(x) {
                Some(a) => Some(
                    if old(self).mutual_arena(x) {
                        a
                    } else {
                        a.with_group(None)
                    },
                ),
                None => None,
            },
            forall|i: int|
                0 <= i < old(self).days@.len() ==> ((#[trigger] final(self).days@[i]).id
                    == old(self).days@[i].id && final(self).days@[i].date
                    == old(self).days@[i].date && final(self).days@[i].n_ts
                    == old(self).days@[i].n_ts && final(self).days@[i].n_kp
                    == old(self).days@[i].n_kp),
            forall|i: int|
                0 <= i < old(self).bewerbs@.len() ==> ((#[trigger] final(self).bewerbs@[i]).id
                    == old(self).bewerbs@[i].id && final(self).bewerbs@[i].n_rounds
                    == old(self).bewerbs@[i].n_rounds && final(self).bewerbs@[i].n_groups
                    == old(self).bewerbs@[i].n_groups),
            w@ == group_link_warnings(graph_group_ids(old(self).bewerbs@), *old(self))
                + arena_link_warnings(graph_slot_ids(old(self).days@), *old(self)),
    {
        let ghost t0 = *old(self);
        let mut warnings: Vec<Warning> = Vec::new();
        let gkeys = self.all_group_keys();
        proof {
            lemma_graph_group_ids_contains(t0.bewerbs@);
        }
        let n1 = gkeys.len();
        let mut p: usize = 0;
        while p < n1
            invariant
                p <= n1,
                n1 == gkeys@.len(),
                gkeys@ == graph_group_ids(t0.bewerbs@),
                t0 == *old(self),
                t0.hier_wf(),
                t0.roster_wf(),
                self.hier_wf(),
                self.days == old(self).days,
                self.fencers == old(self).fencers,
                self.inner == old(self).inner,
                self.bewerbs@.len() == t0.bewerbs@.len(),
                forall|i: int|
                    0 <= i < t0.bewerbs@.len() ==> ((#[trigger] self.bewerbs@[i]).id
                        == t0.bewerbs@[i].id && self.bewerbs@[i].n_rounds
                        == t0.bewerbs@[i].n_rounds && self.bewerbs@[i].n_groups
                        == t0.bewerbs@[i].n_groups),
                forall|b: u32, r2: u32, g2: u32| #[trigger] self.spec_group_n(b, r2, g2)
                    == match t0.spec_group_n(b, r2, g2) {
                    Some(g) => Some(
                        if key_in(gkeys@.take(p as int), b, r2, g2) && !t0.mutual_group(
                            b,
                            r2,
                            g2,
                        ) {
                            g.with_arena(None)
                        } else {
                            g
                        },
                    ),
                    None => None,
                },
                warnings@ == group_link_warnings(gkeys@.take(p as int), t0),
            decreases n1 - p,
        {
            let ghost tp = *self;
            let ghost wpre = warnings@;
            let q = &gkeys[p];
            let ghost kb = q.bewerb_id;
            let ghost kr = q.round_id;
            let ghost kg = q.group_id;
            proof {
                assert(gkeys@.take(p + 1).drop_last() =~= gkeys@.take(p as int));
                assert(gkeys@.take(p + 1).last() == gkeys@[p as int]);
                assert forall|b: u32, r2: u32, g2: u32| #[trigger] key_in(
                    gkeys@.take(p + 1),
                    b,
                    r2,
                    g2,
                ) == (key_in(gkeys@.take(p as int), b, r2, g2) || (b == kb && r2 == kr && g2
                    == kg)) by {
                    if key_in(gkeys@.take(p + 1), b, r2, g2) {
                        let j = choose|j: int|
                            0 <= j < gkeys@.take(p + 1).len() && (#[trigger] gkeys@.take(
                                p + 1,
                            )[j]).bewerb_id == b && gkeys@.take(p + 1)[j].round_id == r2
                                && gkeys@.take(p + 1)[j].group_id == g2;
                        if j < p {
                            assert(gkeys@.take(p as int)[j] == gkeys@.take(p + 1)[j]);
                        }
                    }
                    if key_in(gkeys@.take(p as int), b, r2, g2) {
                        let j = choose|j: int|
                            0 <= j < gkeys@.take(p as int).len() && (#[trigger] gkeys@.take(
                                p as int,
                            )[j]).bewerb_id == b && gkeys@.take(p as int)[j].round_id == r2
                                && gkeys@.take(p as int)[j].group_id == g2;
                        assert(gkeys@.take(p + 1)[j] == gkeys@.take(p as int)[j]);
                    }
                    if b == kb && r2 == kr && g2 == kg {
                        assert(gkeys@.take(p + 1)[p as int] == gkeys@[p as int]);
                    }
                }
                lemma_graph_group_ids_contains(t0.bewerbs@);
                assert(graph_group_ids(t0.bewerbs@).contains(gkeys@[p as int]));
                let (i2, j2, k2): (int, int, int) = choose|i2: int, j2: int, k2: int|
                    0 <= i2 < t0.bewerbs@.len() && 0 <= j2 < t0.bewerbs@[i2].rounds@.len() && 0
                        <= k2 < t0.bewerbs@[i2].rounds@[j2].groups@.len() && (
                    #[trigger] t0.bewerbs@[i2].rounds@[j2].groups@[k2].id) == gkeys@[p as int];
                t0.lemma_group_complete(i2, j2, k2);
                assert(t0.spec_group_n(kb, kr, kg) is Some);
            }
            let cur_arena = match self.get_group_by_id(q) {
                Some(g) => g.get_arena(),
                None => {
                    proof {
                        assert(false);
                    }
                    None
                },
            };
            match cur_arena {
                None => {
                    proof {
                        let g0 = t0.spec_group_n(kb, kr, kg).unwrap();
                        assert forall|b: u32, r2: u32, g2: u32| #[trigger] self.spec_group_n(
                            b,
                            r2,
                            g2,
                        ) == match t0.spec_group_n(b, r2, g2) {
                            Some(g) => Some(
                                if key_in(gkeys@.take(p + 1), b, r2, g2) && !t0.mutual_group(
                                    b,
                                    r2,
                                    g2,
                                ) {
                                    g.with_arena(None)
                                } else {
                                    g
                                },
                            ),
                            None => None,
                        } by {
                            if b == kb && r2 == kr && g2 == kg {
                                if !key_in(gkeys@.take(p as int), b, r2, g2) {
                                    assert(g0.arena_slot is None);
                                    assert(t0.mutual_group(b, r2, g2));
                                } else {
                                    if !t0.mutual_group(b, r2, g2) {
                                        assert(g0.with_arena(None).arena_slot is None);
                                    }
                                }
                            }
                        }
                        assert(warnings@ == group_link_warnings(gkeys@.take(p + 1), t0)) by {
                            if !key_in(gkeys@.take(p as int), kb, kr, kg) && (match t0.spec_group(
                                gkeys@[p as int],
                            ) {
                                Some(g) => g.arena_slot is Some,
                                None => false,
                            }) && !t0.mutual_group(kb, kr, kg) {
                                assert(g0.arena_slot is Some || !t0.mutual_group(kb, kr, kg));
                                assert(false);
                            }
                        }
                    }
                },
                Some(x) => {
                    let bad = match self.get_arena_by_id(&x) {
                        Some(a) => match a.get_group() {
                            Some(gx) => !(gx.bewerb_id == q.bewerb_id && gx.round_id
                                == q.round_id && gx.group_id == q.group_id),
                            None => true,
                        },
                        None => true,
                    };
                    proof {
                        Self::lemma_same_days(t0, tp);
                        tp.lemma_spec_arena_id(x);
                        let g0 = t0.spec_group_n(kb, kr, kg).unwrap();
                        assert(!(key_in(gkeys@.take(p as int), kb, kr, kg) && !t0.mutual_group(
                            kb,
                            kr,
                            kg,
                        )));
                        assert(g0.arena_slot == Some(x));
                        assert(bad == !t0.mutual_group(kb, kr, kg));
                    }
                    if bad {
                        let ok = self.edit_group(q, GroupChange::SetArena(None));
                        warnings.push(Warning::BrokenGroupLink(q.clone()));
                        proof {
                            assert(ok);
                            let tq = *self;
                            Self::lemma_same_days(tp, tq);
                            let g0 = t0.spec_group_n(kb, kr, kg).unwrap();
                            assert forall|b: u32, r2: u32, g2: u32| #[trigger] tq.spec_group_n(
                                b,
                                r2,
                                g2,
                            ) == match t0.spec_group_n(b, r2, g2) {
                                Some(g) => Some(
                                    if key_in(gkeys@.take(p + 1), b, r2, g2)
                                        && !t0.mutual_group(b, r2, g2) {
                                        g.with_arena(None)
                                    } else {
                                        g
                                    },
                                ),
                                None => None,
                            } by {
                                if b == kb && r2 == kr && g2 == kg {
                                    assert(group_changed(
                                        tp.spec_group_n(kb, kr, kg).unwrap(),
                                        GroupChange::SetArena(None),
                                        tq.spec_group_n(kb, kr, kg).unwrap(),
                                    ));
                                    assert(tq.spec_group_n(kb, kr, kg) == Some(
                                        g0.with_arena(None),
                                    ));
                                } else {
                                    assert(tq.spec_group_n(b, r2, g2) == tp.spec_group_n(
                                        b,
                                        r2,
                                        g2,
                                    ));
                                }
                            }
                            assert(warnings@ == group_link_warnings(
                                gkeys@.take(p + 1),
                                t0,
                            )) by {
                                assert(!key_in(gkeys@.take(p as int), kb, kr, kg));
                                assert(g0.arena_slot is Some);
                                assert(!t0.mutual_group(kb, kr, kg));
                                assert(warnings@ =~= wpre.push(Warning::BrokenGroupLink(
                                    gkeys@[p as int],
                                )));
                            }
                        }
                    } else {
                        proof {
                            assert forall|b: u32, r2: u32, g2: u32| #[trigger] self.spec_group_n(
                                b,
                                r2,
                                g2,
                            ) == match t0.spec_group_n(b, r2, g2) {
                                Some(g) => Some(
                                    if key_in(gkeys@.take(p + 1), b, r2, g2)
                                        && !t0.mutual_group(b, r2, g2) {
                                        g.with_arena(None)
                                    } else {
                                        g
                                    },
                                ),
                                None => None,
                            } by {}
                            assert(warnings@ == group_link_warnings(
                                gkeys@.take(p + 1),
                                t0,
                            )) by {
                                assert(t0.mutual_group(kb, kr, kg));
                            }
                        }
                    }
                },
            }
            p = p + 1;
        }
        let ghost t1 = *self;
        proof {
            assert(gkeys@.take(n1 as int) =~= gkeys@);
            assert forall|b: u32, r2: u32, g2: u32| #[trigger] t1.spec_group_n(b, r2, g2)
                == match t0.spec_group_n(b, r2, g2) {
                Some(g) => Some(
                    if t0.mutual_group(b, r2, g2) {
                        g
                    } else {
                        g.with_arena(None)
                    },
                ),
                None => None,
            } by {
                match t0.spec_group_n(b, r2, g2) {
                    Some(g) => {
                        if !t0.mutual_group(b, r2, g2) {
                            assert(key_in(gkeys@, b, r2, g2)) by {
                                lemma_graph_group_ids_contains(t0.bewerbs@);
                                t0.lemma_spec_group_ids(b, r2, g2);
                                lemma_idx_of_props(t0.bewerbs@, b);
                                let bw = find_id(t0.bewerbs@, b).unwrap();
                                let bi = idx_of(t0.bewerbs@, b);
                                lemma_idx_of_props(bw.rounds@, r2);
                                let rd = find_id(bw.rounds@, r2).unwrap();
                                let rj = idx_of(bw.rounds@, r2);
                                lemma_idx_of_props(rd.groups@, g2);
                                let gk = idx_of(rd.groups@, g2);
                                assert(t0.bewerbs@[bi].rounds@[rj].groups@[gk] == g);
                                assert(graph_group_ids(t0.bewerbs@).contains(g.id));
                                let j = gkeys@.index_of(g.id);
                                assert(gkeys@[j].bewerb_id == b && gkeys@[j].round_id == r2
                                    && gkeys@[j].group_id == g2);
                            }
                        } else {
                            if key_in(gkeys@, b, r2, g2) {
                            }
                        }
                    },
                    None => {},
                }
            }
        }
        let skeys = self.all_slot_keys();
        proof {
            Self::lemma_same_days(t0, t1);
            assert(skeys@ == graph_slot_ids(t0.days@));
            lemma_graph_slot_ids_contains(t0.days@);
            assert(gkeys@.take(n1 as int) =~= gkeys@);
            assert(warnings@ =~= group_link_warnings(graph_group_ids(t0.bewerbs@), t0)
                + arena_link_warnings(skeys@.take(0), t0));
        }
        let n2 = skeys.len();
        let mut p2: usize = 0;
        while p2 < n2
            invariant
                p2 <= n2,
                n2 == skeys@.len(),
                skeys@ == graph_slot_ids(t0.days@),
                t0 == *old(self),
                t0.hier_wf(),
                t0.roster_wf(),
                self.hier_wf(),
                self.bewerbs == t1.bewerbs,
                self.fencers == old(self).fencers,
                self.inner == old(self).inner,
                self.days@.len() == t0.days@.len(),
                forall|i: int|
                    0 <= i < t0.days@.len() ==> ((#[trigger] self.days@[i]).id
                        == t0.days@[i].id && self.days@[i].date == t0.days@[i].date
                        && self.days@[i].n_ts == t0.days@[i].n_ts && self.days@[i].n_kp
                        == t0.days@[i].n_kp),
                t1.days@ == t0.days@,
                t1.bewerbs@.len() == t0.bewerbs@.len(),
                forall|i: int|
                    0 <= i < t0.bewerbs@.len() ==> ((#[trigger] t1.bewerbs@[i]).id
                        == t0.bewerbs@[i].id && t1.bewerbs@[i].n_rounds
                        == t0.bewerbs@[i].n_rounds && t1.bewerbs@[i].n_groups
                        == t0.bewerbs@[i].n_groups),
                t1.fencers == old(self).fencers,
                forall|b: u32, r2: u32, g2: u32| #[trigger] t1.spec_group_n(b, r2, g2)
                    == match t0.spec_group_n(b, r2, g2) {
                    Some(g) => Some(
                        if t0.mutual_group(b, r2, g2) {
                            g
                        } else {
                            g.with_arena(None)
                        },
                    ),
                    None => None,
                },
                forall|x: ArenaSlotId| #[trigger] self.spec_arena(x) == match t0.spec_arena(x) {
                    Some(a) => Some(
                        if skeys@.take(p2 as int).contains(x) && !t0.mutual_arena(x) {
                            a.with_group(None)
                        } else {
                            a
                        },
                    ),
                    None => None,
                },
                warnings@ == group_link_warnings(graph_group_ids(t0.bewerbs@), t0)
                    + arena_link_warnings(skeys@.take(p2 as int), t0),
            decreases n2 - p2,
        {
            let ghost tp = *self;
            let ghost wpre = warnings@;
            let x = skeys[p2];
            proof {
                assert(skeys@.take(p2 + 1).drop_last() =~= skeys@.take(p2 as int));
                assert(skeys@.take(p2 + 1).last() == skeys@[p2 as int]);
                assert forall|y: ArenaSlotId| #[trigger] skeys@.take(p2 + 1).contains(y) == (
                skeys@.take(p2 as int).contains(y) || y == x) by {
                    if skeys@.take(p2 + 1).contains(y) {
                        let j = skeys@.take(p2 + 1).index_of(y);
                        if j < p2 {
                            assert(skeys@.take(p2 as int)[j] == y);
                        }
                    }
                    if skeys@.take(p2 as int).contains(y) {
                        let j = skeys@.take(p2 as int).index_of(y);
                        assert(skeys@.take(p2 + 1)[j] == y);
                    }
                    if y == x {
                        assert(skeys@.take(p2 + 1)[p2 as int] == y);
                    }
                }
                lemma_graph_slot_ids_contains(t0.days@);
                assert(graph_slot_ids(t0.days@).contains(x));
                let (i2, j2, k2): (int, int, int) = choose|i2: int, j2: int, k2: int|
                    0 <= i2 < t0.days@.len() && 0 <= j2 < t0.days@[i2].timeslots@.len() && 0 <= k2
                        < t0.days@[i2].timeslots@[j2].arenas@.len() && (
                    #[trigger] t0.days@[i2].timeslots@[j2].arenas@[k2].id) == x;
                t0.lemma_arena_complete(i2, j2, k2);
                assert(t0.spec_arena(x) is Some);
            }
            let gopt = match self.get_arena_by_id(&x) {
                Some(a) => a.get_group(),
                None => {
                    proof {
                        tp.lemma_spec_arena_id(x);
                        assert(false);
                    }
                    None
                },
            };
            match gopt {
                None => {
                    proof {
                        let a0 = t0.spec_arena(x).unwrap();
                        assert forall|y: ArenaSlotId| #[trigger] self.spec_arena(y) == match t0
                            .spec_arena(y) {
                            Some(a) => Some(
                                if skeys@.take(p2 + 1).contains(y) && !t0.mutual_arena(y) {
                                    a.with_group(None)
                                } else {
                                    a
                                },
                            ),
                            None => None,
                        } by {
                            if y == x {
                                if !skeys@.take(p2 as int).contains(x) {
                                    assert(a0.group is None);
                                    assert(t0.mutual_arena(x));
                                }
                            }
                        }
                        assert(warnings@ == group_link_warnings(graph_group_ids(t0.bewerbs@), t0)
                            + arena_link_warnings(skeys@.take(p2 + 1), t0)) by {
                            if !skeys@.take(p2 as int).contains(x) && (match t0.spec_arena(x) {
                                Some(a) => a.group is Some,
                                None => false,
                            }) && !t0.mutual_arena(x) {
                                assert(false);
                            }
                        }
                    }
                },
                Some(gx) => {
                    let bad = match self.get_group_by_id(&gx) {
                        Some(g) => match g.get_arena() {
                            Some(y) => !(y == x),
                            None => true,
                        },
                        None => true,
                    };
                    proof {
                        Self::lemma_same_bewerbs(t1, tp);
                        let a0 = t0.spec_arena(x).unwrap();
                        assert(self.spec_arena(x) == match t0.spec_arena(x) {
                            Some(a) => Some(
                                if skeys@.take(p2 as int).contains(x) && !t0.mutual_arena(x) {
                                    a.with_group(None)
                                } else {
                                    a
                                },
                            ),
                            None => None,
                        });
                        assert(!(skeys@.take(p2 as int).contains(x) && !t0.mutual_arena(x)));
                        assert(a0.group == Some(gx));
                        assert(bad == !t0.mutual_arena(x)) by {
                            assert(tp.spec_group_n(gx.bewerb_id, gx.round_id, gx.group_id)
                                == t1.spec_group_n(gx.bewerb_id, gx.round_id, gx.group_id));
                            match t0.spec_group(gx) {
                                Some(g) => {
                                    if t0.mutual_group(gx.bewerb_id, gx.round_id, gx.group_id) {
                                        assert(tp.spec_group(gx) == Some(g));
                                    } else {
                                        assert(tp.spec_group(gx) == Some(g.with_arena(None)));
                                        if g.arena_slot == Some(x) {
                                            assert(t0.mutual_group(
                                                gx.bewerb_id,
                                                gx.round_id,
                                                gx.group_id,
                                            ));
                                        }
                                    }
                                },
                                None => {
                                    assert(tp.spec_group(gx) is None);
                                },
                            }
                        }
                    }
                    if bad {
                        let _ok = self.set_arena_group(&x, None);
                        warnings.push(Warning::BrokenArenaLink(x));
                        proof {
                            assert(_ok);
                            let tq = *self;
                            Self::lemma_same_bewerbs(tp, tq);
                            let a0 = t0.spec_arena(x).unwrap();
                            assert forall|y: ArenaSlotId| #[trigger] tq.spec_arena(y) == match t0
                                .spec_arena(y) {
                                Some(a) => Some(
                                    if skeys@.take(p2 + 1).contains(y) && !t0.mutual_arena(y) {
                                        a.with_group(None)
                                    } else {
                                        a
                                    },
                                ),
                                None => None,
                            } by {
                                if y == x {
                                    assert(tq.spec_arena(x) == Some(
                                        tp.spec_arena(x).unwrap().with_group(None),
                                    ));
                                } else {
                                    assert(tq.spec_arena(y) == tp.spec_arena(y));
                                }
                            }
                            assert(warnings@ == group_link_warnings(
                                graph_group_ids(t0.bewerbs@),
                                t0,
                            ) + arena_link_warnings(skeys@.take(p2 + 1), t0)) by {
                                assert(!skeys@.take(p2 as int).contains(x));
                                assert(a0.group is Some);
                                assert(!t0.mutual_arena(x));
                                assert(warnings@ =~= wpre.push(Warning::BrokenArenaLink(x)));
                            }
                        }
                    } else {
                        proof {
                            assert forall|y: ArenaSlotId| #[trigger] self.spec_arena(y)
                                == match t0.spec_arena(y) {
                                Some(a) => Some(
                                    if skeys@.take(p2 + 1).contains(y) && !t0.mutual_arena(y) {
                                        a.with_group(None)
                                    } else {
                                        a
                                    },
                                ),
                                None => None,
                            } by {}
                            assert(warnings@ == group_link_warnings(
                                graph_group_ids(t0.bewerbs@),
                                t0,
                            ) + arena_link_warnings(skeys@.take(p2 + 1), t0)) by {
                                assert(t0.mutual_arena(x));
                            }
                        }
                    }
                },
            }
            p2 = p2 + 1;
        }
        proof {
            let t2 = *self;
            assert(skeys@.take(n2 as int) =~= skeys@);
            Self::lemma_same_bewerbs(t1, t2);
            assert forall|x: ArenaSlotId| #[trigger] t2.spec_arena(x) == match t0.spec_arena(x) {
                Some(a) => Some(
                    if t0.mutual_arena(x) {
                        a
                    } else {
                        a.with_group(None)
                    },
                ),
                None => None,
            } by {
                match t0.spec_arena(x) {
                    Some(a) => {
                        if !t0.mutual_arena(x) {
                            assert(skeys@.contains(x)) by {
                                lemma_graph_slot_ids_contains(t0.days@);
                                t0.lemma_spec_arena_id(x);
                                lemma_idx_of_props(t0.days@, x.day_id);
                                let d = find_id(t0.days@, x.day_id).unwrap();
                                let di = idx_of(t0.days@, x.day_id);
                                lemma_idx_of_props(d.timeslots@, x.timeslot_id);
                                let ts = find_id(d.timeslots@, x.timeslot_id).unwrap();
                                let tj = idx_of(d.timeslots@, x.timeslot_id);
                                lemma_idx_of_props(ts.arenas@, x.arena_slot_id);
                                let ak = idx_of(ts.arenas@, x.arena_slot_id);
                                assert(t0.days@[di].timeslots@[tj].arenas@[ak] == a);
                                assert(a.id == x);
                                assert(graph_slot_ids(t0.days@).contains(x));
                            }
                        }
                    },
                    None => {},
                }
            }
            assert(t2.links_wf()) by {
                assert forall|aid: ArenaSlotId|
                    match #[trigger] t2.spec_arena(aid) {
                        Some(a) => match a.group {
                            Some(gid) => match t2.spec_group(gid) {
                                Some(grp) => grp.arena_slot == Some(aid),
                                None => false,
                            },
                            None => true,
                        },
                        None => true,
                    } by {
                    match t2.spec_arena(aid) {
                        Some(a) => match a.group {
                            Some(gid) => {
                                assert(t0.spec_arena(aid) is Some);
                                let a0 = t0.spec_arena(aid).unwrap();
                                assert(t2.spec_arena(aid) == match t0.spec_arena(aid) {
                                    Some(a2) => Some(
                                        if t0.mutual_arena(aid) {
                                            a2
                                        } else {
                                            a2.with_group(None)
                                        },
                                    ),
                                    None => None,
                                });
                                assert(t0.mutual_arena(aid) && a == a0);
                                let g = t0.spec_group(gid).unwrap();
                                assert(g.arena_slot == Some(aid));
                                assert(t2.spec_group_n(gid.bewerb_id, gid.round_id, gid.group_id)
                                    == t1.spec_group_n(gid.bewerb_id, gid.round_id, gid.group_id));
                                assert(t0.mutual_group(gid.bewerb_id, gid.round_id, gid.group_id));
                                assert(t2.spec_group(gid) == Some(g));
                            },
                            None => {},
                        },
                        None => {},
                    }
                }
                assert forall|b: u32, r2: u32, g2: u32|
                    match #[trigger] t2.spec_group_n(b, r2, g2) {
                        Some(grp) => match grp.arena_slot {
                            Some(aid) => match t2.spec_arena(aid) {
                                Some(a) => match a.group {
                                    Some(gid) => gid.bewerb_id == b && gid.round_id == r2
                                        && gid.group_id == g2,
                                    None => false,
                                },
                                None => false,
                            },
                            None => true,
                        },
                        None => true,
                    } by {
                    match t2.spec_group_n(b, r2, g2) {
                        Some(grp) => match grp.arena_slot {
                            Some(aid) => {
                                assert(t2.spec_group_n(b, r2, g2) == t1.spec_group_n(b, r2, g2));
                                assert(t0.spec_group_n(b, r2, g2) is Some);
                                let g = t0.spec_group_n(b, r2, g2).unwrap();
                                assert(t0.mutual_group(b, r2, g2) && grp == g);
                                assert(g.arena_slot == Some(aid));
                                let a0 = t0.spec_arena(aid).unwrap();
                                assert(t0.mutual_arena(aid)) by {
                                    match a0.group {
                                        Some(gx) => {
                                            assert(gx.bewerb_id == b && gx.round_id == r2
                                                && gx.group_id == g2);
                                            assert(t0.spec_group(gx) == Some(g));
                                        },
                                        None => {
                                            assert(!t0.mutual_group(b, r2, g2));
                                        },
                                    }
                                }
                                assert(t2.spec_arena(aid) == Some(a0));
                            },
                            None => {},
                        },
                        None => {},
                    }
                }
            }
            assert(t2.roster_wf()) by {
                Self::lemma_same_fencers(t0, t2);
            }
            assert(t2.hier_wf());
            assert(t2.wf());
            assert forall|b: u32, r2: u32, g2: u32| #[trigger] t2.spec_group_n(b, r2, g2)
                == match t0.spec_group_n(b, r2, g2) {
                Some(g) => Some(
                    if t0.mutual_group(b, r2, g2) {
                        g
                    } else {
                        g.with_arena(None)
                    },
                ),
                None => None,
            } by {
                assert(t2.spec_group_n(b, r2, g2) == t1.spec_group_n(b, r2, g2));
            }
        }
        warnings
    }

    /// Frees, best effort, every group named in `refs`: each listed group
    /// that resolves loses its arena binding, on both sides; references that
    /// do not resolve are skipped, as cascade deletion requires.
    fn free_all(&mut self, refs: &Vec<GroupId>)
        requires
            old(self).wf(),
        ensures
            final(self).wf(),
            final(self).fencers == old(self).fencers,
            final(self).inner == old(self).inner,
            final(self).days@.len() == old(self).days@.len(),
            final(self).bewerbs@.len() == old(self).bewerbs@.len(),
            forall|i: int|
                0 <= i < old(self).days@.len() ==> ((#[trigger] final(self).days@[i]).id == old(self).days@[i].id && final(self).days@[i].date == old(self).days@[i].date && final(self).days@[i].n_ts == old(self).days@[i].n_ts && final(self).days@[i].n_kp == old(self).days@[i].n_kp),
            forall|i: int|
                0 <= i < old(self).bewerbs@.len() ==> ((#[trigger] final(self).bewerbs@[i]).id
                    == old(self).bewerbs@[i].id && final(self).bewerbs@[i].n_rounds == old(self).bewerbs@[i].n_rounds && final(self).bewerbs@[i].n_groups == old(self).bewerbs@[i].n_groups),
            forall|b: u32, r2: u32, g2: u32| #[trigger] final(self).spec_group_n(b, r2, g2)
                == match old(self).spec_group_n(b, r2, g2) {
                Some(g) => Some(
                    if key_in(refs@, b, r2, g2) {
                        g.with_arena(None)
                    } else {
                        g
                    },
                ),
                None => None,
            },
            forall|x: ArenaSlotId| #[trigger] final(self).spec_arena(x) == match old(self).spec_arena(x) {
                Some(a) => Some(
                    if (match a.group {
                        Some(gx) => key_in(refs@, gx.bewerb_id, gx.round_id, gx.group_id),
                        None => false,
                    }) {
                        a.with_group(None)
                    } else {
                        a
                    },
                ),
                None => None,
            },
            forall|i: int|
                0 <= i < old(self).days@.len() && (forall|j: int|
                    0 <= j < refs@.len() ==> match old(self).spec_group(#[trigger] refs@[j]) {
                        Some(g) => match g.arena_slot {
                            Some(x) => idx_of(old(self).days@, x.day_id) != i,
                            None => true,
                        },
                        None => true,
                    }) ==> final(self).days@[i] == old(self).days@[i],
            forall|i: int|
                0 <= i < old(self).bewerbs@.len() && (forall|j: int|
                    0 <= j < refs@.len() ==> idx_of(
                        old(self).bewerbs@,
                        (#[trigger] refs@[j]).bewerb_id,
                    ) != i) ==> final(self).bewerbs@[i] == old(self).bewerbs@[i],
    {
        let n = refs.len();
        let mut p: usize = 0;
        while p < n
            invariant
                p <= n,
                n == refs@.len(),
                old(self).wf(),
                self.wf(),
                self.fencers == old(self).fencers,
                self.inner == old(self).inner,
                self.days@.len() == old(self).days@.len(),
                self.bewerbs@.len() == old(self).bewerbs@.len(),
                forall|i: int|
                    0 <= i < old(self).days@.len() ==> ((#[trigger] self.days@[i]).id == old(self).days@[i].id && self.days@[i].date == old(self).days@[i].date
                        && self.days@[i].n_ts == old(self).days@[i].n_ts && self.days@[i].n_kp
                        == old(self).days@[i].n_kp),
                forall|i: int|
                    0 <= i < old(self).bewerbs@.len() ==> ((#[trigger] self.bewerbs@[i]).id == old(self).bewerbs@[i].id && self.bewerbs@[i].n_rounds == old(self).bewerbs@[i].n_rounds && self.bewerbs@[i].n_groups == old(self).bewerbs@[i].n_groups),
                forall|b: u32, r2: u32, g2: u32| #[trigger] self.spec_group_n(b, r2, g2)
                    == match old(self).spec_group_n(b, r2, g2) {
                    Some(g) => Some(
                        if key_in(refs@.take(p as int), b, r2, g2) {
                            g.with_arena(None)
                        } else {
                            g
                        },
                    ),
                    None => None,
                },
                forall|x: ArenaSlotId| #[trigger] self.spec_arena(x) == match old(self).spec_arena(x) {
                    Some(a) => Some(
                        if (match a.group {
                            Some(gx) => key_in(
                                refs@.take(p as int),
                                gx.bewerb_id,
                                gx.round_id,
                                gx.group_id,
                            ),
                            None => false,
                        }) {
                            a.with_group(None)
                        } else {
                            a
                        },
                    ),
                    None => None,
                },
                forall|i: int|
                    0 <= i < old(self).days@.len() && (forall|j: int|
                        0 <= j < p ==> match old(self).spec_group(#[trigger] refs@[j]) {
                            Some(g) => match g.arena_slot {
                                Some(x) => idx_of(old(self).days@, x.day_id) != i,
                                None => true,
                            },
                            None => true,
                        }) ==> self.days@[i] == old(self).days@[i],
                forall|i: int|
                    0 <= i < old(self).bewerbs@.len() && (forall|j: int|
                        0 <= j < p ==> idx_of(
                            old(self).bewerbs@,
                            (#[trigger] refs@[j]).bewerb_id,
                        ) != i) ==> self.bewerbs@[i] == old(self).bewerbs@[i],
            decreases n - p,
        {
            let ghost t0 = *old(self);
            let ghost tp = *self;
            let gid = &refs[p];
            let ghost kb = gid.bewerb_id;
            let ghost kr = gid.round_id;
            let ghost kg = gid.group_id;
            proof {
                assert(refs@.take(p + 1).drop_last() =~= refs@.take(p as int));
                assert(refs@.take(p + 1).last() == refs@[p as int]);
                assert forall|b: u32, r2: u32, g2: u32| #[trigger] key_in(
                    refs@.take(p + 1),
                    b,
                    r2,
                    g2,
                ) == (key_in(refs@.take(p as int), b, r2, g2) || (b == kb && r2 == kr && g2
                    == kg)) by {
                    if key_in(refs@.take(p + 1), b, r2, g2) {
                        let j = choose|j: int|
                            0 <= j < refs@.take(p + 1).len() && (#[trigger] refs@.take(
                                p + 1,
                            )[j]).bewerb_id == b && refs@.take(p + 1)[j].round_id == r2
                                && refs@.take(p + 1)[j].group_id == g2;
                        if j < p {
                            assert(refs@.take(p as int)[j] == refs@.take(p + 1)[j]);
                        }
                    }
                    if key_in(refs@.take(p as int), b, r2, g2) {
                        let j = choose|j: int|
                            0 <= j < refs@.take(p as int).len() && (#[trigger] refs@.take(
                                p as int,
                            )[j]).bewerb_id == b && refs@.take(p as int)[j].round_id == r2
                                && refs@.take(p as int)[j].group_id == g2;
                        assert(refs@.take(p + 1)[j] == refs@.take(p as int)[j]);
                    }
                    if b == kb && r2 == kr && g2 == kg {
                        assert(refs@.take(p + 1)[p as int] == refs@[p as int]);
                    }
                }
            }
            let r = self.freeup_group(gid);
            proof {
                let tq = *self;
                assert(tp.spec_group(*gid) == tp.spec_group_n(kb, kr, kg));
                match r {
                    Err(_) => {
                        assert(tq == tp);
                        assert(t0.spec_group_n(kb, kr, kg) is None);
                        assert forall|b: u32, r2: u32, g2: u32| #[trigger] tq.spec_group_n(
                            b,
                            r2,
                            g2,
                        ) == match t0.spec_group_n(b, r2, g2) {
                            Some(g) => Some(
                                if key_in(refs@.take(p + 1), b, r2, g2) {
                                    g.with_arena(None)
                                } else {
                                    g
                                },
                            ),
                            None => None,
                        } by {}
                        assert forall|x: ArenaSlotId| #[trigger] tq.spec_arena(x) == match t0
                            .spec_arena(x) {
                            Some(a) => Some(
                                if (match a.group {
                                    Some(gx) => key_in(
                                        refs@.take(p + 1),
                                        gx.bewerb_id,
                                        gx.round_id,
                                        gx.group_id,
                                    ),
                                    None => false,
                                }) {
                                    a.with_group(None)
                                } else {
                                    a
                                },
                            ),
                            None => None,
                        } by {
                            match t0.spec_arena(x) {
                                Some(a) => match a.group {
                                    Some(gx) => {
                                        if gx.bewerb_id == kb && gx.round_id == kr && gx.group_id
                                            == kg {
                                            assert(match t0.spec_arena(x) {
                                                Some(a2) => match a2.group {
                                                    Some(g3) => match t0.spec_group(g3) {
                                                        Some(grp) => grp.arena_slot == Some(x),
                                                        None => false,
                                                    },
                                                    None => true,
                                                },
                                                None => true,
                                            });
                                            assert(false);
                                        }
                                    },
                                    None => {},
                                },
                                None => {},
                            }
                        }
                    },
                    Ok(_) => {
                        let gq = tp.spec_group_n(kb, kr, kg).unwrap();
                        let g00 = t0.spec_group_n(kb, kr, kg).unwrap();
                        match gq.arena_slot {
                            None => {
                                assert(tq == tp);
                                assert(gq.with_arena(None) == gq);
                                assert forall|b: u32, r2: u32, g2: u32| #[trigger] tq.spec_group_n(
                                    b,
                                    r2,
                                    g2,
                                ) == match t0.spec_group_n(b, r2, g2) {
                                    Some(g) => Some(
                                        if key_in(refs@.take(p + 1), b, r2, g2) {
                                            g.with_arena(None)
                                        } else {
                                            g
                                        },
                                    ),
                                    None => None,
                                } by {
                                    if b == kb && r2 == kr && g2 == kg {
                                        if !key_in(refs@.take(p as int), b, r2, g2) {
                                            assert(gq == g00);
                                            assert(g00.with_arena(None) == g00);
                                        }
                                    }
                                }
                                assert forall|x: ArenaSlotId| #[trigger] tq.spec_arena(x)
                                    == match t0.spec_arena(x) {
                                    Some(a) => Some(
                                        if (match a.group {
                                            Some(gx) => key_in(
                                                refs@.take(p + 1),
                                                gx.bewerb_id,
                                                gx.round_id,
                                                gx.group_id,
                                            ),
                                            None => false,
                                        }) {
                                            a.with_group(None)
                                        } else {
                                            a
                                        },
                                    ),
                                    None => None,
                                } by {
                                    match t0.spec_arena(x) {
                                        Some(a) => match a.group {
                                            Some(gx) => {
                                                if gx.bewerb_id == kb && gx.round_id == kr
                                                    && gx.group_id == kg && !key_in(
                                                    refs@.take(p as int),
                                                    gx.bewerb_id,
                                                    gx.round_id,
                                                    gx.group_id,
                                                ) {
                                                    assert(tp.spec_arena(x) == Some(a));
                                                    assert(match tp.spec_arena(x) {
                                                        Some(a2) => match a2.group {
                                                            Some(g3) => match tp.spec_group(g3) {
                                                                Some(grp) => grp.arena_slot
                                                                    == Some(x),
                                                                None => false,
                                                            },
                                                            None => true,
                                                        },
                                                        None => true,
                                                    });
                                                    assert(gq.arena_slot == Some(x));
                                                    assert(false);
                                                }
                                            },
                                            None => {},
                                        },
                                        None => {},
                                    }
                                }
                            },
                            Some(x0) => {
                                assert(!key_in(refs@.take(p as int), kb, kr, kg)) by {
                                    if key_in(refs@.take(p as int), kb, kr, kg) {
                                        assert(gq == g00.with_arena(None));
                                    }
                                }
                                assert(gq == g00);
                                assert forall|b: u32, r2: u32, g2: u32| #[trigger] tq.spec_group_n(
                                    b,
                                    r2,
                                    g2,
                                ) == match t0.spec_group_n(b, r2, g2) {
                                    Some(g) => Some(
                                        if key_in(refs@.take(p + 1), b, r2, g2) {
                                            g.with_arena(None)
                                        } else {
                                            g
                                        },
                                    ),
                                    None => None,
                                } by {
                                    if b == kb && r2 == kr && g2 == kg {
                                        assert(tq.spec_group_n(b, r2, g2) == Some(
                                            gq.with_arena(None),
                                        ));
                                    } else {
                                        assert(tq.spec_group_n(b, r2, g2) == tp.spec_group_n(
                                            b,
                                            r2,
                                            g2,
                                        ));
                                    }
                                }
                                assert forall|x: ArenaSlotId| #[trigger] tq.spec_arena(x)
                                    == match t0.spec_arena(x) {
                                    Some(a) => Some(
                                        if (match a.group {
                                            Some(gx) => key_in(
                                                refs@.take(p + 1),
                                                gx.bewerb_id,
                                                gx.round_id,
                                                gx.group_id,
                                            ),
                                            None => false,
                                        }) {
                                            a.with_group(None)
                                        } else {
                                            a
                                        },
                                    ),
                                    None => None,
                                } by {
                                    if x == x0 {
                                        assert(tq.spec_arena(x0) == Some(
                                            tp.spec_arena(x0).unwrap().with_group(None),
                                        ));
                                        assert(match tp.spec_group_n(kb, kr, kg) {
                                            Some(grp) => match grp.arena_slot {
                                                Some(ax) => match tp.spec_arena(ax) {
                                                    Some(aa) => match aa.group {
                                                        Some(gx) => gx.bewerb_id == kb
                                                            && gx.round_id == kr && gx.group_id
                                                            == kg,
                                                        None => false,
                                                    },
                                                    None => false,
                                                },
                                                None => true,
                                            },
                                            None => true,
                                        });
                                        let aa = tp.spec_arena(x0).unwrap();
                                        let a00 = t0.spec_arena(x0).unwrap();
                                        assert(match a00.group {
                                            Some(gx) => gx.bewerb_id == kb && gx.round_id == kr
                                                && gx.group_id == kg,
                                            None => false,
                                        }) by {
                                            if (match a00.group {
                                                Some(gx) => key_in(
                                                    refs@.take(p as int),
                                                    gx.bewerb_id,
                                                    gx.round_id,
                                                    gx.group_id,
                                                ),
                                                None => false,
                                            }) {
                                                assert(aa == a00.with_group(None));
                                                assert(aa.group is None);
                                                assert(false);
                                            } else {
                                                assert(aa == a00);
                                            }
                                        }
                                    } else {
                                        assert(tq.spec_arena(x) == tp.spec_arena(x));
                                        match t0.spec_arena(x) {
                                            Some(a) => match a.group {
                                                Some(gx) => {
                                                    if gx.bewerb_id == kb && gx.round_id == kr
                                                        && gx.group_id == kg && !key_in(
                                                        refs@.take(p as int),
                                                        gx.bewerb_id,
                                                        gx.round_id,
                                                        gx.group_id,
                                                    ) {
                                                        assert(tp.spec_arena(x) == Some(a));
                                                        assert(match tp.spec_arena(x) {
                                                            Some(a2) => match a2.group {
                                                                Some(g3) => match tp.spec_group(
                                                                    g3,
                                                                ) {
                                                                    Some(grp) => grp.arena_slot
                                                                        == Some(x),
                                                                    None => false,
                                                                },
                                                                None => true,
                                                            },
                                                            None => true,
                                                        });
                                                        assert(gq.arena_slot == Some(x));
                                                        assert(x == x0);
                                                        assert(false);
                                                    }
                                                },
                                                None => {},
                                            },
                                            None => {},
                                        }
                                    }
                                }
                                assert forall|i: int|
                                    0 <= i < t0.days@.len() && i != idx_of(
                                        t0.days@,
                                        x0.day_id,
                                    ) implies #[trigger] tq.days@[i] == tp.days@[i] by {
                                    lemma_idx_of_same_ids(tp.days@, t0.days@, x0.day_id);
                                }
                                assert forall|i: int|
                                    0 <= i < t0.bewerbs@.len() && i != idx_of(
                                        t0.bewerbs@,
                                        kb,
                                    ) implies #[trigger] tq.bewerbs@[i] == tp.bewerbs@[i] by {
                                    lemma_idx_of_same_ids(tp.bewerbs@, t0.bewerbs@, kb);
                                }
                            },
                        }
                    },
                }
            }
            p = p + 1;
        }
        proof {
            assert(refs@.take(n as int) =~= refs@);
        }
    }

    /// Frees whatever is attached to the group `id`: both the group's side
    /// and the arena slot's side are cleared.  No-op if the group holds no
    /// arena; `InvalidInput` if the id does not resolve, with nothing
    /// changed.
    pub fn freeup_group(&mut self, id: &GroupId) -> (r: Result<(), Error>)
        requires
            old(self).wf(),
        ensures
            final(self).wf(),
            match r {
                Err(e) => e == Error::InvalidInput && old(self).spec_group(*id) is None
                    && *final(self) == *old(self),
                Ok(_) => {
                    &&& old(self).spec_group(*id) is Some
                    &&& ({
                        let g0 = old(self).spec_group(*id).unwrap();
                        match g0.arena_slot {
                            None => *final(self) == *old(self),
                            Some(aid) => {
                                &&& (forall|b: u32, r2: u32, g2: u32|
                                    #[trigger] final(self).spec_group_n(b, r2, g2) == if b
                                        == id.bewerb_id && r2 == id.round_id && g2
                                        == id.group_id {
                                        Some(g0.with_arena(None))
                                    } else {
                                        old(self).spec_group_n(b, r2, g2)
                                    })
                                &&& (forall|x: ArenaSlotId|
                                    #[trigger] final(self).spec_arena(x) == if x == aid {
                                        Some(old(self).spec_arena(aid).unwrap().with_group(None))
                                    } else {
                                        old(self).spec_arena(x)
                                    })
                                &&& final(self).fencers == old(self).fencers
                                &&& final(self).inner == old(self).inner
                                &&& final(self).days@.len() == old(self).days@.len()
                                &&& (forall|i: int|
                                    0 <= i < old(self).days@.len()
                                        ==> ((#[trigger] final(self).days@[i]).id
                                        == old(self).days@[i].id && final(self).days@[i].date
                                        == old(self).days@[i].date && final(self).days@[i].n_ts
                                        == old(self).days@[i].n_ts && final(self).days@[i].n_kp
                                        == old(self).days@[i].n_kp))
                                &&& (forall|i: int|
                                    0 <= i < old(self).days@.len() && i != idx_of(
                                        old(self).days@,
                                        aid.day_id,
                                    ) ==> final(self).days@[i] == old(self).days@[i])
                                &&& final(self).bewerbs@.len() == old(self).bewerbs@.len()
                                &&& (forall|i: int|
                                    0 <= i < old(self).bewerbs@.len() && i != idx_of(
                                        old(self).bewerbs@,
                                        id.bewerb_id,
                                    ) ==> final(self).bewerbs@[i] == old(self).bewerbs@[i])
                                &&& (forall|i: int|
                                    0 <= i < old(self).bewerbs@.len()
                                        ==> ((#[trigger] final(self).bewerbs@[i]).id
                                        == old(self).bewerbs@[i].id
                                        && final(self).bewerbs@[i].n_rounds
                                        == old(self).bewerbs@[i].n_rounds
                                        && final(self).bewerbs@[i].n_groups
                                        == old(self).bewerbs@[i].n_groups))
                            },
                        }
                    })
                },
            },
    {
        let aid_opt = match self.get_group_by_id(id) {
            Some(g) => g.get_arena(),
            None => {
                return Err(Error::InvalidInput);
            },
        };
        let aid = match aid_opt {
            Some(a) => a,
            None => {
                return Ok(());
            },
        };
        let ghost t0 = *self;
        let ghost g0 = t0.spec_group(*id).unwrap();
        proof {
            assert(t0.spec_group_n(id.bewerb_id, id.round_id, id.group_id) is Some);
            assert(g0.arena_slot == Some(aid));
            assert(match t0.spec_arena(aid) {
                Some(a) => match a.group {
                    Some(gid) => gid.bewerb_id == id.bewerb_id && gid.round_id == id.round_id
                        && gid.group_id == id.group_id,
                    None => false,
                },
                None => false,
            });
        }
        let ok1 = self.set_arena_group(&aid, None);
        let ghost t1 = *self;
        proof {
            assert(ok1);
            Self::lemma_same_bewerbs(t0, t1);
            assert(t1.spec_group_n(id.bewerb_id, id.round_id, id.group_id) == Some(g0));
        }
        let ok2 = self.edit_group(id, GroupChange::SetArena(None));
        proof {
            assert(ok2);
            let t2 = *self;
            Self::lemma_same_days(t1, t2);
            Self::lemma_same_fencers(t0, t2);
            let a0 = t0.spec_arena(aid).unwrap();
            assert forall|x: ArenaSlotId| #[trigger] t2.spec_arena(x) == if x == aid {
                Some(a0.with_group(None))
            } else {
                t0.spec_arena(x)
            } by {
                assert(t1.spec_arena(x) == if x == aid {
                    Some(a0.with_group(None))
                } else {
                    t0.spec_arena(x)
                });
            }
            assert forall|b: u32, r2: u32, g2: u32| #[trigger] t2.spec_group_n(b, r2, g2) == if b
                == id.bewerb_id && r2 == id.round_id && g2 == id.group_id {
                Some(g0.with_arena(None))
            } else {
                t0.spec_group_n(b, r2, g2)
            } by {
                assert(t1.spec_group_n(b, r2, g2) == t0.spec_group_n(b, r2, g2));
                if b == id.bewerb_id && r2 == id.round_id && g2 == id.group_id {
                    assert(group_changed(g0, GroupChange::SetArena(None), t2.spec_group_n(
                        b,
                        r2,
                        g2,
                    ).unwrap()));
                }
            }
            self.lemma_freed_wf(t0, *id, g0, aid);
        }
        Ok(())
    }

    /// The mirror of `freeup_group`: frees whatever is attached to the arena
    /// slot `id`.  No-op if the slot holds no group; `InvalidInput` if the id
    /// does not resolve, with nothing changed.
    pub fn freeup_arena(&mut self, id: &ArenaSlotId) -> (r: Result<(), Error>)
        requires
            old(self).wf(),
        ensures
            final(self).wf(),
            match r {
                Err(e) => e == Error::InvalidInput && old(self).spec_arena(*id) is None
                    && *final(self) == *old(self),
                Ok(_) => {
                    &&& old(self).spec_arena(*id) is Some
                    &&& ({
                        let a0 = old(self).spec_arena(*id).unwrap();
                        match a0.group {
                            None => *final(self) == *old(self),
                            Some(gid) => {
                                &&& (forall|b: u32, r2: u32, g2: u32|
                                    #[trigger] final(self).spec_group_n(b, r2, g2) == if b
                                        == gid.bewerb_id && r2 == gid.round_id && g2
                                        == gid.group_id {
                                        Some(
                                            old(self).spec_group(gid).unwrap().with_arena(None),
                                        )
                                    } else {
                                        old(self).spec_group_n(b, r2, g2)
                                    })
                                &&& (forall|x: ArenaSlotId|
                                    #[trigger] final(self).spec_arena(x) == if x == *id {
                                        Some(a0.with_group(None))
                                    } else {
                                        old(self).spec_arena(x)
                                    })
                                &&& final(self).fencers == old(self).fencers
                                &&& final(self).inner == old(self).inner
                                &&& final(self).days@.len() == old(self).days@.len()
                                &&& (forall|i: int|
                                    0 <= i < old(self).days@.len()
                                        ==> ((#[trigger] final(self).days@[i]).id
                                        == old(self).days@[i].id && final(self).days@[i].date
                                        == old(self).days@[i].date && final(self).days@[i].n_ts
                                        == old(self).days@[i].n_ts && final(self).days@[i].n_kp
                                        == old(self).days@[i].n_kp))
                                &&& (forall|i: int|
                                    0 <= i < old(self).days@.len() && i != idx_of(
                                        old(self).days@,
                                        id.day_id,
                                    ) ==> final(self).days@[i] == old(self).days@[i])
                                &&& final(self).bewerbs@.len() == old(self).bewerbs@.len()
                                &&& (forall|i: int|
                                    0 <= i < old(self).bewerbs@.len() && i != idx_of(
                                        old(self).bewerbs@,
                                        gid.bewerb_id,
                                    ) ==> final(self).bewerbs@[i] == old(self).bewerbs@[i])
                                &&& (forall|i: int|
                                    0 <= i < old(self).bewerbs@.len()
                                        ==> ((#[trigger] final(self).bewerbs@[i]).id
                                        == old(self).bewerbs@[i].id
                                        && final(self).bewerbs@[i].n_rounds
                                        == old(self).bewerbs@[i].n_rounds
                                        && final(self).bewerbs@[i].n_groups
                                        == old(self).bewerbs@[i].n_groups))
                            },
                        }
                    })
                },
            },
    {
        proof {
            self.lemma_spec_arena_id(*id);
        }
        let gid = match self.get_arena_by_id(id) {
            Some(a) => match a.get_group() {
                Some(g) => g,
                None => {
                    return Ok(());
                },
            },
            None => {
                return Err(Error::InvalidInput);
            },
        };
        let ghost t0 = *self;
        let ghost a0 = t0.spec_arena(*id).unwrap();
        let ghost g0 = t0.spec_group(gid).unwrap();
        proof {
            assert(match t0.spec_group(gid) {
                Some(grp) => grp.arena_slot == Some(*id),
                None => false,
            });
            assert(g0.arena_slot == Some(*id));
            assert(t0.spec_group_n(gid.bewerb_id, gid.round_id, gid.group_id) == Some(g0));
        }
        let ok1 = self.set_arena_group(id, None);
        let ghost t1 = *self;
        proof {
            assert(ok1);
            Self::lemma_same_bewerbs(t0, t1);
            assert(t1.spec_group_n(gid.bewerb_id, gid.round_id, gid.group_id) == Some(g0));
        }
        let ok2 = self.edit_group(&gid, GroupChange::SetArena(None));
        proof {
            assert(ok2);
            let t2 = *self;
            Self::lemma_same_days(t1, t2);
            Self::lemma_same_fencers(t0, t2);
            assert forall|x: ArenaSlotId| #[trigger] t2.spec_arena(x) == if x == *id {
                Some(a0.with_group(None))
            } else {
                t0.spec_arena(x)
            } by {
                assert(t1.spec_arena(x) == if x == *id {
                    Some(a0.with_group(None))
                } else {
                    t0.spec_arena(x)
                });
            }
            assert forall|b: u32, r2: u32, g2: u32| #[trigger] t2.spec_group_n(b, r2, g2) == if b
                == gid.bewerb_id && r2 == gid.round_id && g2 == gid.group_id {
                Some(g0.with_arena(None))
            } else {
                t0.spec_group_n(b, r2, g2)
            } by {
                assert(t1.spec_group_n(b, r2, g2) == t0.spec_group_n(b, r2, g2));
                if b == gid.bewerb_id && r2 == gid.round_id && g2 == gid.group_id {
                    assert(group_changed(g0, GroupChange::SetArena(None), t2.spec_group_n(
                        b,
                        r2,
                        g2,
                    ).unwrap()));
                }
            }
            self.lemma_freed_wf(t0, gid, g0, *id);
        }
        Ok(())
    }

    /// Well-formedness after both sides of one binding are cleared.
    proof fn lemma_freed_wf(&self, t0: Tournament, id: GroupId, g0: Group, aid: ArenaSlotId)
        requires
            t0.wf(),
            t0.spec_group(id) == Some(g0),
            g0.arena_slot == Some(aid),
            forall|b: u32, r2: u32, g2: u32| #[trigger] self.spec_group_n(b, r2, g2) == if b
                == id.bewerb_id && r2 == id.round_id && g2 == id.group_id {
                Some(g0.with_arena(None))
            } else {
                t0.spec_group_n(b, r2, g2)
            },
            forall|x: ArenaSlotId| #[trigger] self.spec_arena(x) == if x == aid {
                Some(t0.spec_arena(aid).unwrap().with_group(None))
            } else {
                t0.spec_arena(x)
            },
            self.hier_wf(),
            self.fencers.fencers@ == t0.fencers.fencers@,
        ensures
            self.wf(),
    {
        let a0 = t0.spec_arena(aid).unwrap();
        assert(t0.spec_arena(aid) is Some);
        assert forall|x: ArenaSlotId|
            match #[trigger] self.spec_arena(x) {
                Some(a) => match a.group {
                    Some(gid) => match self.spec_group(gid) {
                        Some(grp) => grp.arena_slot == Some(x),
                        None => false,
                    },
                    None => true,
                },
                None => true,
            } by {
            if x != aid {
                match t0.spec_arena(x) {
                    Some(a) => match a.group {
                        Some(gid) => {
                            assert(match t0.spec_group(gid) {
                                Some(grp) => grp.arena_slot == Some(x),
                                None => false,
                            });
                            let grp = t0.spec_group(gid).unwrap();
                            assert(grp.arena_slot == Some(x));
                            if gid.bewerb_id == id.bewerb_id && gid.round_id == id.round_id
                                && gid.group_id == id.group_id {
                                assert(grp == g0);
                                assert(false);
                            }
                            assert(self.spec_group(gid) == t0.spec_group(gid));
                        },
                        None => {},
                    },
                    None => {},
                }
            }
        }
        assert forall|b: u32, r2: u32, g2: u32|
            match #[trigger] self.spec_group_n(b, r2, g2) {
                Some(grp) => match grp.arena_slot {
                    Some(x) => match self.spec_arena(x) {
                        Some(a) => match a.group {
                            Some(gid) => gid.bewerb_id == b && gid.round_id == r2 && gid.group_id
                                == g2,
                            None => false,
                        },
                        None => false,
                    },
                    None => true,
                },
                None => true,
            } by {
            if !(b == id.bewerb_id && r2 == id.round_id && g2 == id.group_id) {
                match t0.spec_group_n(b, r2, g2) {
                    Some(grp) => match grp.arena_slot {
                        Some(x) => {
                            assert(match t0.spec_arena(x) {
                                Some(a) => match a.group {
                                    Some(gid) => gid.bewerb_id == b && gid.round_id == r2
                                        && gid.group_id == g2,
                                    None => false,
                                },
                                None => false,
                            });
                            if x == aid {
                                let ga = t0.spec_arena(aid).unwrap().group.unwrap();
                                assert(ga.bewerb_id == id.bewerb_id && ga.round_id == id.round_id
                                    && ga.group_id == id.group_id);
                                assert(false);
                            }
                            assert(self.spec_arena(x) == t0.spec_arena(x));
                        },
                        None => {},
                    },
                    None => {},
                }
            }
        }
        assert(self.roster_wf()) by {
            Self::lemma_same_fencers(t0, *self);
        }
    }

    /// Binds the group `gid` and the arena slot `aid` to each other.  Both
    /// ids are resolved first: if either is unknown, `InvalidInput` comes
    /// back and nothing has changed.  Otherwise whatever was attached to
    /// either side is freed, and the two are bound.
    pub fn add_group_to_arena(&mut self, gid: &GroupId, aid: &ArenaSlotId) -> (r: Result<
        (),
        Error,
    >)
        requires
            old(self).wf(),
        ensures
            final(self).wf(),
            match r {
                Err(e) => e == Error::InvalidInput && (old(self).spec_group(*gid) is None || old(self).spec_arena(*aid) is None) && *final(self) == *old(self),
                Ok(_) => {
                    &&& old(self).spec_group(*gid) is Some
                    &&& old(self).spec_arena(*aid) is Some
                    &&& ({
                        let g0 = old(self).spec_group(*gid).unwrap();
                        let a0 = old(self).spec_arena(*aid).unwrap();
                        &&& (forall|x: ArenaSlotId|
                            #[trigger] final(self).spec_arena(x) == if x == *aid {
                                Some(a0.with_group(Some(g0.id)))
                            } else if g0.arena_slot == Some(x) {
                                Some(old(self).spec_arena(x).unwrap().with_group(None))
                            } else {
                                old(self).spec_arena(x)
                            })
                        &&& (forall|b: u32, r2: u32, g2: u32|
                            #[trigger] final(self).spec_group_n(b, r2, g2) == if b
                                == gid.bewerb_id && r2 == gid.round_id && g2 == gid.group_id {
                                Some(g0.with_arena(Some(*aid)))
                            } else if (match a0.group {
                                Some(dgid) => b == dgid.bewerb_id && r2 == dgid.round_id && g2
                                    == dgid.group_id,
                                None => false,
                            }) {
                                Some(old(self).spec_group_n(b, r2, g2).unwrap().with_arena(None))
                            } else {
                                old(self).spec_group_n(b, r2, g2)
                            })
                        &&& final(self).fencers == old(self).fencers
                        &&& final(self).inner == old(self).inner
                    })
                },
            },
    {
        let gfull = match self.get_group_by_id(gid) {
            Some(g) => g.id(),
            None => {
                return Err(Error::InvalidInput);
            },
        };
        proof {
            self.lemma_spec_arena_id(*aid);
        }
        if self.get_arena_by_id(aid).is_none() {
            return Err(Error::InvalidInput);
        }
        let ghost t0 = *self;
        let ghost g0 = t0.spec_group(*gid).unwrap();
        let ghost a0 = t0.spec_arena(*aid).unwrap();
        proof {
            t0.lemma_spec_group_ids(gid.bewerb_id, gid.round_id, gid.group_id);
            assert(gfull == g0.id);
            assert(t0.spec_group_n(gid.bewerb_id, gid.round_id, gid.group_id) == Some(g0));
            if g0.arena_slot == Some(*aid) {
                assert(match t0.spec_arena(*aid) {
                    Some(a) => match a.group {
                        Some(gx) => gx.bewerb_id == gid.bewerb_id && gx.round_id == gid.round_id
                            && gx.group_id == gid.group_id,
                        None => false,
                    },
                    None => false,
                });
            }
        }
        let r1 = self.freeup_arena(aid);
        let ghost t1 = *self;
        let r2 = self.freeup_group(gid);
        let ghost t2 = *self;
        proof {
            assert(r1 is Ok);
            assert(t1.spec_group_n(gid.bewerb_id, gid.round_id, gid.group_id) is Some);
            assert(r2 is Ok);
            assert(t2.spec_arena(*aid) is Some);
            assert(t2.spec_group_n(gid.bewerb_id, gid.round_id, gid.group_id) is Some);
        }
        let ok3 = self.set_arena_group(aid, Some(gfull));
        let ghost t3 = *self;
        let ok4 = self.edit_group(gid, GroupChange::SetArena(Some(*aid)));
        proof {
            assert(ok3);
            Self::lemma_same_bewerbs(t2, t3);
            assert(ok4);
            let t4 = *self;
            Self::lemma_same_days(t3, t4);
            let g2 = t2.spec_group_n(gid.bewerb_id, gid.round_id, gid.group_id).unwrap();
            assert(g2 == g0.with_arena(None)) by {
                if g0.arena_slot is None {
                    assert(g0.with_arena(None) == g0);
                }
            }
            assert forall|x: ArenaSlotId| #[trigger] t4.spec_arena(x) == if x == *aid {
                Some(a0.with_group(Some(g0.id)))
            } else if g0.arena_slot == Some(x) {
                Some(t0.spec_arena(x).unwrap().with_group(None))
            } else {
                t0.spec_arena(x)
            } by {
                assert(t4.spec_arena(x) == t3.spec_arena(x));
                if x == *aid {
                    let a2 = t2.spec_arena(*aid).unwrap();
                    assert(a2.with_group(Some(g0.id)) == a0.with_group(Some(g0.id)));
                } else {
                    assert(t3.spec_arena(x) == t2.spec_arena(x));
                    if g0.arena_slot == Some(x) {
                        assert(t2.spec_arena(x) == Some(
                            t1.spec_arena(x).unwrap().with_group(None),
                        ));
                        assert(t1.spec_arena(x) == t0.spec_arena(x));
                    } else {
                        match a0.group {
                            Some(dgid) => {
                                assert(t1.spec_arena(x) == t0.spec_arena(x));
                                assert(t2.spec_arena(x) == t1.spec_arena(x));
                            },
                            None => {
                                assert(t1 == t0);
                                assert(t2.spec_arena(x) == t1.spec_arena(x));
                            },
                        }
                    }
                }
            }
            assert forall|b: u32, r2x: u32, g2x: u32| #[trigger] t4.spec_group_n(b, r2x, g2x)
                == if b == gid.bewerb_id && r2x == gid.round_id && g2x == gid.group_id {
                Some(g0.with_arena(Some(*aid)))
            } else if (match a0.group {
                Some(dgid) => b == dgid.bewerb_id && r2x == dgid.round_id && g2x
                    == dgid.group_id,
                None => false,
            }) {
                Some(t0.spec_group_n(b, r2x, g2x).unwrap().with_arena(None))
            } else {
                t0.spec_group_n(b, r2x, g2x)
            } by {
                if b == gid.bewerb_id && r2x == gid.round_id && g2x == gid.group_id {
                    assert(group_changed(g2, GroupChange::SetArena(Some(*aid)), t4.spec_group_n(
                        b,
                        r2x,
                        g2x,
                    ).unwrap()));
                    assert(g2.with_arena(Some(*aid)) == g0.with_arena(Some(*aid)));
                } else {
                    assert(t4.spec_group_n(b, r2x, g2x) == t3.spec_group_n(b, r2x, g2x));
                    assert(t3.spec_group_n(b, r2x, g2x) == t2.spec_group_n(b, r2x, g2x));
                    match a0.group {
                        Some(dgid) => {
                            if b == dgid.bewerb_id && r2x == dgid.round_id && g2x
                                == dgid.group_id {
                                assert(t1.spec_group_n(b, r2x, g2x) == Some(
                                    t0.spec_group_n(b, r2x, g2x).unwrap().with_arena(None),
                                ));
                                assert(t2.spec_group_n(b, r2x, g2x) == t1.spec_group_n(
                                    b,
                                    r2x,
                                    g2x,
                                ));
                            } else {
                                assert(t1.spec_group_n(b, r2x, g2x) == t0.spec_group_n(
                                    b,
                                    r2x,
                                    g2x,
                                ));
                                assert(t2.spec_group_n(b, r2x, g2x) == t1.spec_group_n(
                                    b,
                                    r2x,
                                    g2x,
                                ));
                            }
                        },
                        None => {
                            assert(t1 == t0);
                            assert(t2.spec_group_n(b, r2x, g2x) == t1.spec_group_n(b, r2x, g2x));
                        },
                    }
                }
            }
            self.lemma_bound_wf(t0, *gid, g0, *aid, a0);
        }
        Ok(())
    }

    /// Well-formedness after one binding is made and the former partners of
    /// both sides are freed.
    proof fn lemma_bound_wf(
        &self,
        t0: Tournament,
        gid: GroupId,
        g0: Group,
        aid: ArenaSlotId,
        a0: ArenaSlot,
    )
        requires
            t0.wf(),
            t0.spec_group(gid) == Some(g0),
            t0.spec_arena(aid) == Some(a0),
            g0.id.bewerb_id == gid.bewerb_id,
            g0.id.round_id == gid.round_id,
            g0.id.group_id == gid.group_id,
            forall|x: ArenaSlotId| #[trigger] self.spec_arena(x) == if x == aid {
                Some(a0.with_group(Some(g0.id)))
            } else if g0.arena_slot == Some(x) {
                Some(t0.spec_arena(x).unwrap().with_group(None))
            } else {
                t0.spec_arena(x)
            },
            forall|b: u32, r2: u32, g2: u32| #[trigger] self.spec_group_n(b, r2, g2) == if b
                == gid.bewerb_id && r2 == gid.round_id && g2 == gid.group_id {
                Some(g0.with_arena(Some(aid)))
            } else if (match a0.group {
                Some(dgid) => b == dgid.bewerb_id && r2 == dgid.round_id && g2
                    == dgid.group_id,
                None => false,
            }) {
                Some(t0.spec_group_n(b, r2, g2).unwrap().with_arena(None))
            } else {
                t0.spec_group_n(b, r2, g2)
            },
            self.hier_wf(),
            self.fencers.fencers@ == t0.fencers.fencers@,
        ensures
            self.wf(),
    {
        assert forall|x: ArenaSlotId|
            match #[trigger] self.spec_arena(x) {
                Some(a) => match a.group {
                    Some(gidx) => match self.spec_group(gidx) {
                        Some(grp) => grp.arena_slot == Some(x),
                        None => false,
                    },
                    None => true,
                },
                None => true,
            } by {
            if x == aid {
                assert(self.spec_group(g0.id) == Some(g0.with_arena(Some(aid))));
            } else if g0.arena_slot == Some(x) {
            } else {
                match t0.spec_arena(x) {
                    Some(a) => match a.group {
                        Some(gidx) => {
                            assert(match t0.spec_group(gidx) {
                                Some(grp) => grp.arena_slot == Some(x),
                                None => false,
                            });
                            let grp = t0.spec_group(gidx).unwrap();
                            if gidx.bewerb_id == gid.bewerb_id && gidx.round_id == gid.round_id
                                && gidx.group_id == gid.group_id {
                                assert(grp == g0);
                                assert(false);
                            }
                            match a0.group {
                                Some(dgid) => {
                                    if gidx.bewerb_id == dgid.bewerb_id && gidx.round_id
                                        == dgid.round_id && gidx.group_id == dgid.group_id {
                                        assert(match t0.spec_group(dgid) {
                                            Some(gd) => gd.arena_slot == Some(aid),
                                            None => false,
                                        });
                                        assert(grp.arena_slot == Some(aid));
                                        assert(false);
                                    }
                                },
                                None => {},
                            }
                            assert(self.spec_group(gidx) == t0.spec_group(gidx));
                        },
                        None => {},
                    },
                    None => {},
                }
            }
        }
        assert forall|b: u32, r2: u32, g2: u32|
            match #[trigger] self.spec_group_n(b, r2, g2) {
                Some(grp) => match grp.arena_slot {
                    Some(x) => match self.spec_arena(x) {
                        Some(a) => match a.group {
                            Some(gidx) => gidx.bewerb_id == b && gidx.round_id == r2
                                && gidx.group_id == g2,
                            None => false,
                        },
                        None => false,
                    },
                    None => true,
                },
                None => true,
            } by {
            if b == gid.bewerb_id && r2 == gid.round_id && g2 == gid.group_id {
                assert(self.spec_arena(aid) == Some(a0.with_group(Some(g0.id))));
            } else if (match a0.group {
                Some(dgid) => b == dgid.bewerb_id && r2 == dgid.round_id && g2 == dgid.group_id,
                None => false,
            }) {
            } else {
                match t0.spec_group_n(b, r2, g2) {
                    Some(grp) => match grp.arena_slot {
                        Some(y) => {
                            assert(match t0.spec_arena(y) {
                                Some(a) => match a.group {
                                    Some(gidx) => gidx.bewerb_id == b && gidx.round_id == r2
                                        && gidx.group_id == g2,
                                    None => false,
                                },
                                None => false,
                            });
                            if y == aid {
                                match a0.group {
                                    Some(dgid) => {
                                        assert(false);
                                    },
                                    None => {
                                        assert(false);
                                    },
                                }
                            }
                            if g0.arena_slot == Some(y) {
                                let gy = t0.spec_arena(y).unwrap().group.unwrap();
                                assert(match t0.spec_group_n(
                                    gid.bewerb_id,
                                    gid.round_id,
                                    gid.group_id,
                                ) {
                                    Some(gg) => match gg.arena_slot {
                                        Some(ax) => match t0.spec_arena(ax) {
                                            Some(aa) => match aa.group {
                                                Some(gx) => gx.bewerb_id == gid.bewerb_id
                                                    && gx.round_id == gid.round_id && gx.group_id
                                                    == gid.group_id,
                                                None => false,
                                            },
                                            None => false,
                                        },
                                        None => true,
                                    },
                                    None => true,
                                });
                                assert(gy.bewerb_id == gid.bewerb_id && gy.round_id
                                    == gid.round_id && gy.group_id == gid.group_id);
                                assert(false);
                            }
                            assert(self.spec_arena(y) == t0.spec_arena(y));
                        },
                        None => {},
                    },
                    None => {},
                }
            }
        }
        assert(self.roster_wf()) by {
            Self::lemma_same_fencers(t0, *self);
        }
    }

    /// The symmetric-assignment invariant reads only days and events.
    pub proof fn lemma_links_same(a: Tournament, b: Tournament)
        requires
            a.days@ == b.days@,
            a.bewerbs@ == b.bewerbs@,
        ensures
            a.links_wf() == b.links_wf(),
    {
        Self::lemma_same_days(a, b);
        Self::lemma_same_bewerbs(a, b);
        assert(a.links_wf() ==> b.links_wf()) by {
            if a.links_wf() {
                assert forall|aid: ArenaSlotId|
                    match #[trigger] b.spec_arena(aid) {
                        Some(sl) => match sl.group {
                            Some(gid) => match b.spec_group(gid) {
                                Some(grp) => grp.arena_slot == Some(aid),
                                None => false,
                            },
                            None => true,
                        },
                        None => true,
                    } by {
                    assert(b.spec_arena(aid) == a.spec_arena(aid));
                    match a.spec_arena(aid) {
                        Some(sl) => match sl.group {
                            Some(gid) => {
                                assert(b.spec_group(gid) == a.spec_group(gid));
                            },
                            None => {},
                        },
                        None => {},
                    }
                }
                assert forall|bq: u32, r: u32, g: u32|
                    match #[trigger] b.spec_group_n(bq, r, g) {
                        Some(grp) => match grp.arena_slot {
                            Some(aid) => match b.spec_arena(aid) {
                                Some(sl) => match sl.group {
                                    Some(gid) => gid.bewerb_id == bq && gid.round_id == r
                                        && gid.group_id == g,
                                    None => false,
                                },
                                None => false,
                            },
                            None => true,
                        },
                        None => true,
                    } by {
                    assert(b.spec_group_n(bq, r, g) == a.spec_group_n(bq, r, g));
                    match a.spec_group_n(bq, r, g) {
                        Some(grp) => match grp.arena_slot {
                            Some(aid) => {
                                assert(b.spec_arena(aid) == a.spec_arena(aid));
                            },
                            None => {},
                        },
                        None => {},
                    }
                }
            }
        }
        assert(b.links_wf() ==> a.links_wf()) by {
            if b.links_wf() {
                assert forall|aid: ArenaSlotId|
                    match #[trigger] a.spec_arena(aid) {
                        Some(sl) => match sl.group {
                            Some(gid) => match a.spec_group(gid) {
                                Some(grp) => grp.arena_slot == Some(aid),
                                None => false,
                            },
                            None => true,
                        },
                        None => true,
                    } by {
                    assert(b.spec_arena(aid) == a.spec_arena(aid));
                    match a.spec_arena(aid) {
                        Some(sl) => match sl.group {
                            Some(gid) => {
                                assert(b.spec_group(gid) == a.spec_group(gid));
                            },
                            None => {},
                        },
                        None => {},
                    }
                }
                assert forall|bq: u32, r: u32, g: u32|
                    match #[trigger] a.spec_group_n(bq, r, g) {
                        Some(grp) => match grp.arena_slot {
                            Some(aid) => match a.spec_arena(aid) {
                                Some(sl) => match sl.group {
                                    Some(gid) => gid.bewerb_id == bq && gid.round_id == r
                                        && gid.group_id == g,
                                    None => false,
                                },
                                None => false,
                            },
                            None => true,
                        },
                        None => true,
                    } by {
                    assert(b.spec_group_n(bq, r, g) == a.spec_group_n(bq, r, g));
                    match a.spec_group_n(bq, r, g) {
                        Some(grp) => match grp.arena_slot {
                            Some(aid) => {
                                assert(b.spec_arena(aid) == a.spec_arena(aid));
                            },
                            None => {},
                        },
                        None => {},
                    }
                }
            }
        }
    }

    /// The roster sync's upsert-by-identity merge: each incoming record
    /// updates the first fencer it matches by id and name, or, matching
    /// nobody, enters the registry as a new fencer under the smallest unused
    /// id.
    pub fn update_fencers(&mut self, fencers: Vec<SimpleFencer>)
        requires
            old(self).wf(),
            old(self).fencers.fencers@.len() + fencers@.len() < u32::MAX,
        ensures
            final(self).wf(),
            final(self).days == old(self).days,
            final(self).bewerbs == old(self).bewerbs,
            final(self).inner == old(self).inner,
            crate::fencer::upserts_to(
                old(self).fencers.fencers@,
                fencers@,
                old(self).bewerbs@,
                final(self).fencers.fencers@,
            ),
    {
        proof {
            crate::fencer::lemma_upserts_to_empty(
                old(self).fencers.fencers@,
                fencers@.take(0),
                old(self).bewerbs@,
            );
        }
        let n = fencers.len();
        let mut i: usize = 0;
        while i < n
            invariant
                i <= n,
                n == fencers@.len(),
                self.wf(),
                self.days == old(self).days,
                self.bewerbs == old(self).bewerbs,
                self.inner == old(self).inner,
                self.fencers.fencers@.len() <= old(self).fencers.fencers@.len() + i,
                old(self).fencers.fencers@.len() + fencers@.len() < u32::MAX,
                crate::fencer::upserts_to(
                    old(self).fencers.fencers@,
                    fencers@.take(i as int),
                    old(self).bewerbs@,
                    self.fencers.fencers@,
                ),
            decreases n - i,
        {
            let ghost tp = *self;
            let ghost cur = self.fencers.fencers@;
            let sf = &fencers[i];
            proof {
                assert(fencers@.take(i + 1).len() == i + 1);
                assert(fencers@.take(i + 1).drop_last() =~= fencers@.take(i as int));
                assert(fencers@.take(i + 1).last() == fencers@[i as int]);
            }
            match self.fencers.find_same(sf) {
                Some(j) => {
                    let f = self.fencers.fencers.at_mut(j);
                    f.update(sf, &self.bewerbs);
                    proof {
                        let newf = self.fencers.fencers@;
                        assert(newf == cur.update(j as int, newf[j as int]));
                        assert(crate::fencer::upsert_step(
                            cur,
                            fencers@[i as int],
                            self.bewerbs@,
                            newf,
                        ));
                        crate::fencer::lemma_upserts_to_step(
                            old(self).fencers.fencers@,
                            fencers@,
                            i as int,
                            old(self).bewerbs@,
                            cur,
                            newf,
                        );
                        assert(self.wf()) by {
                            Self::lemma_links_same(tp, *self);
                            assert forall|i1: int, i2: int| 0 <= i1 < i2 < newf.len() implies (
                            #[trigger] newf[i1].spec_id()) != (#[trigger] newf[i2].spec_id()) by {
                                assert(newf[i1].spec_id() == cur[i1].spec_id());
                                assert(newf[i2].spec_id() == cur[i2].spec_id());
                            }
                            crate::fencer::lemma_is_roster_empty(
                                sf.bewerbs@,
                                self.bewerbs@,
                                newf[j as int].bewerbs@,
                            );
                            assert forall|i2: int, j2: int, k2: int|
                                0 <= i2 < newf.len() && 0 <= j2 < newf[i2].bewerbs@.len() && 0
                                    <= k2 < newf[i2].bewerbs@[j2].groups@.len() implies match (
                            #[trigger] newf[i2].bewerbs@[j2].groups@[k2]) {
                                Some(gid) => gid.bewerb_id
                                    == newf[i2].bewerbs@[j2].bewerb_id.bewerb_id && gid.round_id
                                    == k2,
                                None => true,
                            } by {
                                if i2 != j {
                                    assert(newf[i2] == cur[i2]);
                                }
                            }
                        }
                    }
                },
                None => {
                    let sfc = sf.clone();
                    let nf = crate::fencer::Fencer::new(sfc.name, sfc.bewerbs, &self.bewerbs);
                    self.fencers.push(nf);
                    proof {
                        let newf = self.fencers.fencers@;
                        assert(newf.drop_last() =~= cur);
                        assert(crate::fencer::upsert_step(
                            cur,
                            fencers@[i as int],
                            self.bewerbs@,
                            newf,
                        )) by {
                            crate::fencer::lemma_same_idx_props(cur, fencers@[i as int]);
                        }
                        crate::fencer::lemma_upserts_to_step(
                            old(self).fencers.fencers@,
                            fencers@,
                            i as int,
                            old(self).bewerbs@,
                            cur,
                            newf,
                        );
                        assert(self.wf()) by {
                            Self::lemma_links_same(tp, *self);
                            assert forall|i1: int, i2: int| 0 <= i1 < i2 < newf.len() implies (
                            #[trigger] newf[i1].spec_id()) != (#[trigger] newf[i2].spec_id()) by {
                                if i2 == newf.len() - 1 {
                                    assert(newf[i1] == cur[i1]);
                                    assert(!has_id(cur, newf[i2].spec_id()));
                                } else {
                                    assert(newf[i1] == cur[i1] && newf[i2] == cur[i2]);
                                }
                            }
                            crate::fencer::lemma_is_roster_empty(
                                sf.bewerbs@,
                                self.bewerbs@,
                                newf.last().bewerbs@,
                            );
                            assert forall|i2: int, j2: int, k2: int|
                                0 <= i2 < newf.len() && 0 <= j2 < newf[i2].bewerbs@.len() && 0
                                    <= k2 < newf[i2].bewerbs@[j2].groups@.len() implies match (
                            #[trigger] newf[i2].bewerbs@[j2].groups@[k2]) {
                                Some(gid) => gid.bewerb_id
                                    == newf[i2].bewerbs@[j2].bewerb_id.bewerb_id && gid.round_id
                                    == k2,
                                None => true,
                            } by {
                                if i2 != newf.len() - 1 {
                                    assert(newf[i2] == cur[i2]);
                                }
                            }
                        }
                    }
                },
            }
            i = i + 1;
        }
        proof {
            assert(fencers@.take(n as int) =~= fencers@);
        }
    }

    /// Edits that touch only group member lists leave the symmetric
    /// assignment invariant standing.
    pub proof fn lemma_links_fencer_edit(pre: Tournament, post: Tournament)
        requires
            pre.links_wf(),
            pre.days@ == post.days@,
            forall|b: u32, r: u32, g: u32|
                match #[trigger] pre.spec_group_n(b, r, g) {
                    Some(gg) => match post.spec_group_n(b, r, g) {
                        Some(g2) => g2.id == gg.id && g2.arena_slot == gg.arena_slot,
                        None => false,
                    },
                    None => post.spec_group_n(b, r, g) is None,
                },
        ensures
            post.links_wf(),
    {
        Self::lemma_same_days(pre, post);
        assert forall|aid: ArenaSlotId|
            match #[trigger] post.spec_arena(aid) {
                Some(a) => match a.group {
                    Some(gid) => match post.spec_group(gid) {
                        Some(grp) => grp.arena_slot == Some(aid),
                        None => false,
                    },
                    None => true,
                },
                None => true,
            } by {
            assert(post.spec_arena(aid) == pre.spec_arena(aid));
            match pre.spec_arena(aid) {
                Some(a) => match a.group {
                    Some(gid) => {
                        assert(match pre.spec_group(gid) {
                            Some(grp) => grp.arena_slot == Some(aid),
                            None => false,
                        });
                        assert(match pre.spec_group_n(gid.bewerb_id, gid.round_id, gid.group_id) {
                            Some(gg) => match post.spec_group_n(
                                gid.bewerb_id,
                                gid.round_id,
                                gid.group_id,
                            ) {
                                Some(g2) => g2.id == gg.id && g2.arena_slot == gg.arena_slot,
                                None => false,
                            },
                            None => post.spec_group_n(gid.bewerb_id, gid.round_id, gid.group_id)
                                is None,
                        });
                    },
                    None => {},
                },
                None => {},
            }
        }
        assert forall|b: u32, r2: u32, g2: u32|
            match #[trigger] post.spec_group_n(b, r2, g2) {
                Some(grp) => match grp.arena_slot {
                    Some(aid) => match post.spec_arena(aid) {
                        Some(a) => match a.group {
                            Some(gid) => gid.bewerb_id == b && gid.round_id == r2 && gid.group_id
                                == g2,
                            None => false,
                        },
                        None => false,
                    },
                    None => true,
                },
                None => true,
            } by {
            match post.spec_group_n(b, r2, g2) {
                Some(grp) => {
                    assert(match pre.spec_group_n(b, r2, g2) {
                        Some(gg) => grp.id == gg.id && grp.arena_slot == gg.arena_slot,
                        None => false,
                    });
                    match grp.arena_slot {
                        Some(aid) => {
                            assert(post.spec_arena(aid) == pre.spec_arena(aid));
                        },
                        None => {},
                    }
                },
                None => {},
            }
        }
    }

    /// Build and resolve phases of reconstruction for the roster: each
    /// record whose id is free becomes a fencer rostered against the live
    /// events, and every resolvable recorded group reference is then
    /// re-established by the same mutation `add_group` performs — written
    /// into the fencer's round slot, with the member lists kept in step.
    /// References that do not resolve are skipped with a warning.
    pub fn install_fencers(&mut self, recs: &Vec<crate::fencer::FencerSaveable>) -> (w: Vec<
        Warning,
    >)
        requires
            old(self).wf(),
            old(self).fencers.fencers@.len() == 0,
            forall|b: u32, r2: u32, g2: u32|
                match #[trigger] old(self).spec_group_n(b, r2, g2) {
                    Some(g) => g.fencers@ == Seq::<u32>::empty(),
                    None => true,
                },
        ensures
            final(self).wf(),
            final(self).days == old(self).days,
            final(self).inner == old(self).inner,
            final(self).bewerbs@.len() == old(self).bewerbs@.len(),
            forall|i: int|
                0 <= i < old(self).bewerbs@.len() ==> ((#[trigger] final(self).bewerbs@[i]).id
                    == old(self).bewerbs@[i].id && final(self).bewerbs@[i].n_rounds
                    == old(self).bewerbs@[i].n_rounds && final(self).bewerbs@[i].n_groups
                    == old(self).bewerbs@[i].n_groups),
            forall|x: ArenaSlotId| #[trigger] final(self).spec_arena(x) == old(self).spec_arena(
                x,
            ),
            forall|b: u32, r2: u32, g2: u32|
                match #[trigger] old(self).spec_group_n(b, r2, g2) {
                    Some(g) => match final(self).spec_group_n(b, r2, g2) {
                        Some(gg) => gg.id == g.id && gg.arena_slot == g.arena_slot,
                        None => false,
                    },
                    None => final(self).spec_group_n(b, r2, g2) is None,
                },
            forall|b: u32, r2: u32, g2: u32|
                match #[trigger] final(self).spec_group_n(b, r2, g2) {
                    Some(gg) => gg.fencers@ == crate::fencer::members_of(
                        final(self).fencers.fencers@,
                        b,
                        r2,
                        g2,
                    ),
                    None => true,
                },
            crate::fencer::is_installed_fencers(
                recs@,
                final(self).fencers.fencers@,
                old(self).bewerbs@,
            ),
            w@ == crate::fencer::install_warnings(recs@, old(self).bewerbs@),
    {
        let ghost t0 = *old(self);
        let ghost bs0 = t0.bewerbs@;
        let ghost sid2 = crate::fencer::fencer_sid();
        let ghost rel2 = crate::fencer::fencer_installed_rel(bs0);
        proof {
            assert forall|b: u32, r2: u32, g2: u32|
                match #[trigger] self.spec_group_n(b, r2, g2) {
                    Some(gg) => gg.fencers@ == crate::fencer::members_of(
                        self.fencers.fencers@,
                        b,
                        r2,
                        g2,
                    ),
                    None => true,
                } by {
                assert(self.fencers.fencers@.len() == 0);
                assert(crate::fencer::members_of(self.fencers.fencers@, b, r2, g2) == Seq::<
                    u32,
                >::empty());
            }
        }
        let mut warnings: Vec<Warning> = Vec::new();
        let n = recs.len();
        let mut i: usize = 0;
        while i < n
            invariant
                i <= n,
                n == recs@.len(),
                t0 == *old(self),
                bs0 == t0.bewerbs@,
                sid2 == crate::fencer::fencer_sid(),
                rel2 == crate::fencer::fencer_installed_rel(bs0),
                t0.wf(),
                self.wf(),
                self.days == old(self).days,
                self.inner == old(self).inner,
                self.bewerbs@.len() == bs0.len(),
                forall|ii: int|
                    0 <= ii < bs0.len() ==> ((#[trigger] self.bewerbs@[ii]).id == bs0[ii].id
                        && self.bewerbs@[ii].n_rounds == bs0[ii].n_rounds
                        && self.bewerbs@[ii].n_groups == bs0[ii].n_groups),
                forall|x: ArenaSlotId| #[trigger] self.spec_arena(x) == t0.spec_arena(x),
                forall|b: u32, r2: u32, g2: u32|
                    match #[trigger] t0.spec_group_n(b, r2, g2) {
                        Some(g) => match self.spec_group_n(b, r2, g2) {
                            Some(gg) => gg.id == g.id && gg.arena_slot == g.arena_slot,
                            None => false,
                        },
                        None => self.spec_group_n(b, r2, g2) is None,
                    },
                forall|b: u32, r2: u32, g2: u32|
                    match #[trigger] self.spec_group_n(b, r2, g2) {
                        Some(gg) => gg.fencers@ == crate::fencer::members_of(
                            self.fencers.fencers@,
                            b,
                            r2,
                            g2,
                        ),
                        None => true,
                    },
                crate::container::is_loaded_list(
                    recs@.take(i as int),
                    self.fencers.fencers@,
                    sid2,
                    rel2,
                ),
                warnings@ == crate::fencer::install_warnings(recs@.take(i as int), bs0),
            decreases n - i,
        {
            let rec = &recs[i];
            let ghost pre = self.fencers.fencers@;
            let ghost w_rec = warnings@;
            proof {
                assert(recs@.take(i + 1).drop_last() =~= recs@.take(i as int));
                assert(recs@.take(i + 1).last() == recs@[i as int]);
                crate::container::lemma_loaded_list_ids(recs@.take(i as int), pre, sid2, rel2);
                assert(sid2(recs@[i as int]) == recs@[i as int].id);
            }
            if self.fencers.fencers.contains_id(rec.id) {
                warnings.push(Warning::DuplicateFencer(rec.id));
                proof {
                    crate::container::lemma_loaded_list_step(
                        recs@,
                        i as int,
                        pre,
                        pre[0],
                        sid2,
                        rel2,
                    );
                    assert(crate::container::loaded_ids(recs@.take(i as int), sid2).contains(
                        recs@[i as int].id,
                    ));
                    assert(warnings@ =~= w_rec.push(Warning::DuplicateFencer(
                        recs@[i as int].id,
                    )));
                    assert(warnings@ == crate::fencer::install_warnings(recs@.take(i + 1), bs0));
                }
            } else {
                let f = crate::fencer::Fencer::from_saveable(rec, &self.bewerbs);
                let ghost fb = f;
                let ghost ids = recs@[i as int].bewerbs@.map_values(
                    |bg: crate::fencer::BewerbGroupSaveable| bg.bewerb_id,
                );
                proof {
                    crate::fencer::lemma_is_roster_stable(ids, self.bewerbs@, bs0, fb.bewerbs@);
                }
                let ghost tbefore = *self;
                self.fencers.fencers.insert(f);
                proof {
                    let fs = self.fencers.fencers@;
                    assert(fs.drop_last() =~= pre);
                    assert(fs.last() == fb);
                    crate::fencer::lemma_is_roster_empty(ids, bs0, fb.bewerbs@);
                    assert(crate::fencer::slots_canonical(fs.last())) by {
                        assert forall|j: int, k: int|
                            0 <= j < fb.bewerbs@.len() && 0 <= k
                                < fb.bewerbs@[j].groups@.len() implies match (
                        #[trigger] fb.bewerbs@[j].groups@[k]) {
                            Some(gx) => j == idx_of(fb.bewerbs@, gx.bewerb_id) && k
                                == gx.round_id,
                            None => true,
                        } by {
                            assert(fb.bewerbs@[j].groups@[k] is None);
                        }
                    }
                    assert(fs =~= pre.push(fb));
                    assert forall|b: u32, r2: u32, g2: u32|
                        match #[trigger] self.spec_group_n(b, r2, g2) {
                            Some(gg) => gg.fencers@ == crate::fencer::members_of(
                                fs,
                                b,
                                r2,
                                g2,
                            ),
                            None => true,
                        } by {
                        assert(!crate::fencer::fencer_holds(fb, b, r2, g2)) by {
                            if crate::fencer::fencer_holds(fb, b, r2, g2) {
                                let (j, k): (int, int) = choose|j: int, k: int|
                                    0 <= j < fb.bewerbs@.len() && 0 <= k
                                        < fb.bewerbs@[j].groups@.len() && (match (
                                    #[trigger] fb.bewerbs@[j].groups@[k]) {
                                        Some(gx) => gx.bewerb_id == b && gx.round_id == r2
                                            && gx.group_id == g2,
                                        None => false,
                                    });
                                assert(fb.bewerbs@[j].groups@[k] is None);
                            }
                        }
                        assert(crate::fencer::members_of(fs, b, r2, g2)
                            == crate::fencer::members_of(pre, b, r2, g2));
                        assert(self.spec_group_n(b, r2, g2) == tbefore.spec_group_n(b, r2, g2));
                    }
                    assert(self.wf()) by {
                        Self::lemma_links_same(tbefore, *self);
                        assert forall|i1: int, i2: int| 0 <= i1 < i2 < fs.len() implies (
                        #[trigger] fs[i1].spec_id()) != (#[trigger] fs[i2].spec_id()) by {
                            if i2 == fs.len() - 1 {
                                assert(fs[i1] == pre[i1]);
                                assert(!has_id(pre, fs[i2].spec_id()));
                            } else {
                                assert(fs[i1] == pre[i1] && fs[i2] == pre[i2]);
                            }
                        }
                        crate::fencer::lemma_is_roster_empty(ids, bs0, fb.bewerbs@);
                        assert forall|i2: int, j2: int, k2: int|
                            0 <= i2 < fs.len() && 0 <= j2 < fs[i2].bewerbs@.len() && 0 <= k2
                                < fs[i2].bewerbs@[j2].groups@.len() implies match (
                        #[trigger] fs[i2].bewerbs@[j2].groups@[k2]) {
                            Some(gid) => gid.bewerb_id
                                == fs[i2].bewerbs@[j2].bewerb_id.bewerb_id && gid.round_id == k2,
                            None => true,
                        } by {
                            if i2 != fs.len() - 1 {
                                assert(fs[i2] == pre[i2]);
                            }
                        }
                    }
                }
                let fid = rec.id;
                let ghost mut done: Seq<GroupId> = Seq::empty();
                proof {
                    crate::fencer::lemma_slot_writes_empty(fb, done);
                    assert(crate::fencer::rec_res(
                        recs@[i as int].bewerbs@.take(0),
                        bs0,
                    ) =~= Seq::<GroupId>::empty());
                    assert(warnings@ =~= w_rec + crate::fencer::rw_rec(
                        recs@[i as int].bewerbs@.take(0),
                        recs@[i as int].bewerbs@,
                        bs0,
                    ));
                }
                let m = rec.bewerbs.len();
                let mut j: usize = 0;
                while j < m
                    invariant
                        j <= m,
                        i < n,
                        n == recs@.len(),
                        m == recs@[i as int].bewerbs@.len(),
                        rec == &recs@[i as int],
                        fid == recs@[i as int].id,
                        t0 == *old(self),
                        bs0 == t0.bewerbs@,
                        sid2 == crate::fencer::fencer_sid(),
                        rel2 == crate::fencer::fencer_installed_rel(bs0),
                        ids == recs@[i as int].bewerbs@.map_values(
                            |bg: crate::fencer::BewerbGroupSaveable| bg.bewerb_id,
                        ),
                        t0.wf(),
                        self.wf(),
                        self.days == old(self).days,
                        self.inner == old(self).inner,
                        self.bewerbs@.len() == bs0.len(),
                        forall|ii: int|
                            0 <= ii < bs0.len() ==> ((#[trigger] self.bewerbs@[ii]).id
                                == bs0[ii].id && self.bewerbs@[ii].n_rounds == bs0[ii].n_rounds
                                && self.bewerbs@[ii].n_groups == bs0[ii].n_groups),
                        forall|x: ArenaSlotId| #[trigger] self.spec_arena(x) == t0.spec_arena(x),
                        forall|b: u32, r2: u32, g2: u32|
                            match #[trigger] t0.spec_group_n(b, r2, g2) {
                                Some(g) => match self.spec_group_n(b, r2, g2) {
                                    Some(gg) => gg.id == g.id && gg.arena_slot == g.arena_slot,
                                    None => false,
                                },
                                None => self.spec_group_n(b, r2, g2) is None,
                            },
        forall|b: u32, r2: u32, g2: u32|
                    match #[trigger] self.spec_group_n(b, r2, g2) {
                        Some(gg) => gg.fencers@ == crate::fencer::members_of(
                            self.fencers.fencers@,
                            b,
                            r2,
                            g2,
                        ),
                        None => true,
                    },
                        crate::fencer::slots_canonical(self.fencers.fencers@.last()),
                        crate::container::is_loaded_list(
                            recs@.take(i as int),
                            self.fencers.fencers@.drop_last(),
                            sid2,
                            rel2,
                        ),
                        self.fencers.fencers@.len() == pre.len() + 1,
                        self.fencers.fencers@.drop_last() == pre,
                        !has_id(pre, fid),
                        crate::fencer::is_roster(ids, bs0, fb.bewerbs@),
                        fb.id == fid,
                        fb.name == recs@[i as int].name,
                        done == crate::fencer::rec_res(recs@[i as int].bewerbs@.take(j as int), bs0),
                        crate::fencer::slot_writes_to(fb, done, self.fencers.fencers@.last()),
                        warnings@ == w_rec + crate::fencer::rw_rec(
                            recs@[i as int].bewerbs@.take(j as int),
                            recs@[i as int].bewerbs@,
                            bs0,
                        ),
                    decreases m - j,
                {
                    let entry = &rec.bewerbs[j];
                    let ghost dpre = done;
                    proof {
                        assert(entry == &recs@[i as int].bewerbs@[j as int]);
                        assert(crate::fencer::entry_res(
                            recs@[i as int].bewerbs@[j as int].groups@.take(0),
                            bs0,
                        ) =~= Seq::<GroupId>::empty());
                        assert(crate::fencer::entry_warnings(
                            recs@[i as int].bewerbs@[j as int].groups@.take(0),
                            recs@[i as int].bewerbs@,
                            bs0,
                        ) =~= Seq::<Warning>::empty());
                        assert(warnings@ =~= w_rec + crate::fencer::rw_rec(
                            recs@[i as int].bewerbs@.take(j as int),
                            recs@[i as int].bewerbs@,
                            bs0,
                        ) + crate::fencer::entry_warnings(
                            recs@[i as int].bewerbs@[j as int].groups@.take(0),
                            recs@[i as int].bewerbs@,
                            bs0,
                        ));
                        assert(done =~= crate::fencer::rec_res(
                            recs@[i as int].bewerbs@.take(j as int),
                            bs0,
                        ) + crate::fencer::entry_res(
                            recs@[i as int].bewerbs@[j as int].groups@.take(0),
                            bs0,
                        ));
                    }
                    let mk = entry.groups.len();
                    let mut k: usize = 0;
                    while k < mk
                        invariant
                            k <= mk,
                            j < m,
                            i < n,
                            n == recs@.len(),
                            m == recs@[i as int].bewerbs@.len(),
                            mk == recs@[i as int].bewerbs@[j as int].groups@.len(),
                            entry == &recs@[i as int].bewerbs@[j as int],
                            rec == &recs@[i as int],
                            fid == recs@[i as int].id,
                            t0 == *old(self),
                            bs0 == t0.bewerbs@,
                            sid2 == crate::fencer::fencer_sid(),
                            rel2 == crate::fencer::fencer_installed_rel(bs0),
                            ids == recs@[i as int].bewerbs@.map_values(
                                |bg: crate::fencer::BewerbGroupSaveable| bg.bewerb_id,
                            ),
                            t0.wf(),
                            self.wf(),
                            self.days == old(self).days,
                            self.inner == old(self).inner,
                            self.bewerbs@.len() == bs0.len(),
                            forall|ii: int|
                                0 <= ii < bs0.len() ==> ((#[trigger] self.bewerbs@[ii]).id
                                    == bs0[ii].id && self.bewerbs@[ii].n_rounds
                                    == bs0[ii].n_rounds && self.bewerbs@[ii].n_groups
                                    == bs0[ii].n_groups),
                            forall|x: ArenaSlotId| #[trigger] self.spec_arena(x)
                                == t0.spec_arena(x),
                            forall|b: u32, r2: u32, g2: u32|
                                match #[trigger] t0.spec_group_n(b, r2, g2) {
                                    Some(g) => match self.spec_group_n(b, r2, g2) {
                                        Some(gg) => gg.id == g.id && gg.arena_slot
                                            == g.arena_slot,
                                        None => false,
                                    },
                                    None => self.spec_group_n(b, r2, g2) is None,
                                },
                            forall|b: u32, r2: u32, g2: u32|
                                match #[trigger] self.spec_group_n(b, r2, g2) {
                                    Some(gg) => gg.fencers@ == crate::fencer::members_of(
                                        self.fencers.fencers@,
                                        b,
                                        r2,
                                        g2,
                                    ),
                                    None => true,
                                },
                            crate::fencer::slots_canonical(self.fencers.fencers@.last()),
                            crate::container::is_loaded_list(
                                recs@.take(i as int),
                                self.fencers.fencers@.drop_last(),
                                sid2,
                                rel2,
                            ),
                            self.fencers.fencers@.len() == pre.len() + 1,
                            self.fencers.fencers@.drop_last() == pre,
                            !has_id(pre, fid),
                            crate::fencer::is_roster(ids, bs0, fb.bewerbs@),
                            fb.id == fid,
                            fb.name == recs@[i as int].name,
                            done == crate::fencer::rec_res(
                                recs@[i as int].bewerbs@.take(j as int),
                                bs0,
                            ) + crate::fencer::entry_res(
                                recs@[i as int].bewerbs@[j as int].groups@.take(k as int),
                                bs0,
                            ),
                            crate::fencer::slot_writes_to(fb, done, self.fencers.fencers@.last()),
                            warnings@ == w_rec + crate::fencer::rw_rec(
                                recs@[i as int].bewerbs@.take(j as int),
                                recs@[i as int].bewerbs@,
                                bs0,
                            ) + crate::fencer::entry_warnings(
                                recs@[i as int].bewerbs@[j as int].groups@.take(k as int),
                                recs@[i as int].bewerbs@,
                                bs0,
                            ),
                        decreases mk - k,
                    {
                        proof {
                            assert(recs@[i as int].bewerbs@[j as int].groups@.take(
                                k + 1,
                            ).drop_last() =~= recs@[i as int].bewerbs@[j as int].groups@.take(
                                k as int,
                            ));
                            assert(recs@[i as int].bewerbs@[j as int].groups@.take(k + 1).last()
                                == recs@[i as int].bewerbs@[j as int].groups@[k as int]);
                        }
                        let slot = match &entry.groups[k] {
                            Some(gid) => Some(gid.clone()),
                            None => None,
                        };
                        let ghost wk = warnings@;
                        let ghost egs = recs@[i as int].bewerbs@[j as int].groups@;
                        match slot {
                            None => {
                                proof {
                                    assert(crate::fencer::slot_warnings(
                                        egs[k as int],
                                        recs@[i as int].bewerbs@,
                                        bs0,
                                    ) =~= Seq::<Warning>::empty());
                                    assert(warnings@ =~= wk + crate::fencer::slot_warnings(
                                        egs[k as int],
                                        recs@[i as int].bewerbs@,
                                        bs0,
                                    ));
                                }
                            },
                            Some(gid) => {
                                let present = match self.get_group_by_id(&gid) {
                                    Some(_) => true,
                                    None => false,
                                };
                                proof {
                                    t0.lemma_key_resolves();
                                    assert(present == (self.spec_group(gid) is Some));
                                    assert(present == crate::fencer::key_resolves(bs0, gid));
                                }
                                if !present {
                                    warnings.push(Warning::GroupNotFound(gid));
                                    proof {
                                        assert(egs[k as int] == Some(gid));
                                        assert(crate::fencer::slot_warnings(
                                            egs[k as int],
                                            recs@[i as int].bewerbs@,
                                            bs0,
                                        ) =~= seq![Warning::GroupNotFound(gid)]);
                                        assert(warnings@ =~= wk + crate::fencer::slot_warnings(
                                            egs[k as int],
                                            recs@[i as int].bewerbs@,
                                            bs0,
                                        ));
                                    }
                                } else {
                                    let ghost tb = *self;
                                    let ghost curf = self.fencers.fencers@.last();
                                    self.bind_fencer_slot(fid, &gid, &mut warnings);
                                    proof {
                                        let fsb = tb.fencers.fencers@;
                                        let fsn = self.fencers.fencers@;
                                        lemma_idx_of_props(fsb, fid);
                                        crate::fencer::lemma_slot_writes_shape(fb, done, curf);
                                        assert(curf.id == fid);
                                        assert forall|i2: int| 0 <= i2 < pre.len() implies (
                                        #[trigger] fsb[i2].spec_id()) != fid by {
                                            assert(fsb[i2] == pre[i2]);
                                        }
                                        crate::container::lemma_idx_of_first(
                                            fsb,
                                            fid,
                                            pre.len() as int,
                                        );
                                        assert(idx_of(fsb, fid) == pre.len());
                                        assert(fsn.len() == fsb.len());
                                        assert(forall|i2: int|
                                            0 <= i2 < pre.len() ==> #[trigger] fsn[i2]
                                                == fsb[i2]);
                                        assert(fsn.drop_last() =~= pre);
                                        assert(crate::fencer::slot_write_step(
                                            curf,
                                            gid,
                                            fsn.last(),
                                        ));
                                        crate::fencer::lemma_slot_writes_snoc(
                                            fb,
                                            done,
                                            curf,
                                            gid,
                                            fsn.last(),
                                        );
                                        done = done.push(gid);
                                        assert(fsb =~= pre.push(curf));
                                        assert(fsn =~= pre.push(fsn.last()));
                                        assert(fsn.last().id == fid) by {
                                            if crate::fencer::slot_write_applies(curf, gid) {
                                            } else {
                                                assert(fsn.last() == curf);
                                            }
                                        }
                                        assert forall|b: u32, r2: u32, g2: u32|
                                            match #[trigger] self.spec_group_n(b, r2, g2) {
                                                Some(gg) => gg.fencers@
                                                    == crate::fencer::members_of(
                                                    fsn,
                                                    b,
                                                    r2,
                                                    g2,
                                                ),
                                                None => true,
                                            } by {
                                            match tb.spec_group_n(b, r2, g2) {
                                                Some(g) => {
                                                    assert(g.fencers@
                                                        == crate::fencer::members_of(
                                                        fsb,
                                                        b,
                                                        r2,
                                                        g2,
                                                    ));
                                                    Self::lemma_members_step(
                                                        pre,
                                                        curf,
                                                        fsn.last(),
                                                        gid,
                                                        b,
                                                        r2,
                                                        g2,
                                                        g.fencers@,
                                                    );
                                                },
                                                None => {},
                                            }
                                        }
                                        assert(crate::fencer::slots_canonical(fsn.last())) by {
                                            Self::lemma_members_step(
                                                pre,
                                                curf,
                                                fsn.last(),
                                                gid,
                                                0,
                                                0,
                                                0,
                                                crate::fencer::members_of(
                                                    pre.push(curf),
                                                    0,
                                                    0,
                                                    0,
                                                ),
                                            );
                                        }
                                        crate::fencer::lemma_bind_warning_matches(
                                            fb,
                                            curf,
                                            recs@[i as int].bewerbs@,
                                            bs0,
                                            gid,
                                        );
                                        assert(egs[k as int] == Some(gid));
                                        assert(warnings@ == wk + crate::fencer::slot_warnings(
                                            egs[k as int],
                                            recs@[i as int].bewerbs@,
                                            bs0,
                                        )) by {
                                            assert(idx_of(fsb, fid) >= 0);
                                            assert(fsb[idx_of(fsb, fid)] == curf);
                                        }
                                        assert forall|x: ArenaSlotId| #[trigger] self.spec_arena(
                                            x,
                                        ) == t0.spec_arena(x) by {
                                            assert(self.spec_arena(x) == tb.spec_arena(x));
                                        }
                                        assert forall|b: u32, r2: u32, g2: u32|
                                            match #[trigger] t0.spec_group_n(b, r2, g2) {
                                                Some(g) => match self.spec_group_n(b, r2, g2) {
                                                    Some(gg) => gg.id == g.id && gg.arena_slot
                                                        == g.arena_slot,
                                                    None => false,
                                                },
                                                None => self.spec_group_n(b, r2, g2) is None,
                                            } by {
                                            match t0.spec_group_n(b, r2, g2) {
                                                Some(g) => {
                                                    assert(match tb.spec_group_n(b, r2, g2) {
                                                        Some(gg) => gg.id == g.id
                                                            && gg.arena_slot == g.arena_slot,
                                                        None => false,
                                                    });
                                                },
                                                None => {
                                                    assert(tb.spec_group_n(b, r2, g2) is None);
                                                },
                                            }
                                        }
                                    }
                                }
                            },
                        }
                        proof {
                            assert(crate::fencer::entry_warnings(
                                egs.take(k + 1),
                                recs@[i as int].bewerbs@,
                                bs0,
                            ) == crate::fencer::entry_warnings(
                                egs.take(k as int),
                                recs@[i as int].bewerbs@,
                                bs0,
                            ) + crate::fencer::slot_warnings(
                                egs[k as int],
                                recs@[i as int].bewerbs@,
                                bs0,
                            )) by {
                                assert(egs.take(k + 1).drop_last() =~= egs.take(k as int));
                                assert(egs.take(k + 1).last() == egs[k as int]);
                            }
                        }
                        k = k + 1;
                    }
                    proof {
                        assert(recs@[i as int].bewerbs@[j as int].groups@.take(mk as int)
                            =~= recs@[i as int].bewerbs@[j as int].groups@);
                        assert(recs@[i as int].bewerbs@.take(j + 1).drop_last()
                            =~= recs@[i as int].bewerbs@.take(j as int));
                        assert(recs@[i as int].bewerbs@.take(j + 1).last()
                            == recs@[i as int].bewerbs@[j as int]);
                        assert(done == crate::fencer::rec_res(
                            recs@[i as int].bewerbs@.take(j + 1),
                            bs0,
                        ));
                        assert(warnings@ == w_rec + crate::fencer::rw_rec(
                            recs@[i as int].bewerbs@.take(j + 1),
                            recs@[i as int].bewerbs@,
                            bs0,
                        ));
                    }
                    j = j + 1;
                }
                proof {
                    let cur = self.fencers.fencers@.last();
                    assert(recs@[i as int].bewerbs@.take(m as int) =~= recs@[i as int].bewerbs@);
                    assert(done == crate::fencer::rec_res(recs@[i as int].bewerbs@, bs0));
                    crate::fencer::lemma_slot_writes_shape(fb, done, cur);
                    crate::fencer::lemma_is_roster_sized(ids, bs0, fb.bewerbs@);
                    crate::fencer::lemma_is_roster_sized_stable(
                        ids,
                        bs0,
                        fb.bewerbs@,
                        cur.bewerbs@,
                    );
                    assert((rel2)(recs@[i as int], cur)) by {
                        assert(crate::fencer::slot_writes_to(
                            fb,
                            crate::fencer::rec_res(recs@[i as int].bewerbs@, bs0),
                            cur,
                        ));
                    }
                    assert(cur.spec_id() == sid2(recs@[i as int]));
                    lemma_idx_of_props(pre, fid);
                    crate::container::lemma_loaded_list_step(
                        recs@,
                        i as int,
                        pre,
                        cur,
                        sid2,
                        rel2,
                    );
                    assert(self.fencers.fencers@ =~= pre.push(cur));
                    assert(warnings@ == crate::fencer::install_warnings(
                        recs@.take(i + 1),
                        bs0,
                    )) by {
                        assert(!crate::container::loaded_ids(recs@.take(i as int), sid2).contains(
                            recs@[i as int].id,
                        ));
                        assert(recs@[i as int].bewerbs@.take(m as int)
                            =~= recs@[i as int].bewerbs@);
                        assert(warnings@ == w_rec + crate::fencer::record_warnings(
                            recs@[i as int].bewerbs@,
                            bs0,
                        ));
                    }
                }
            }
            i = i + 1;
        }
        proof {
            assert(recs@.take(n as int) =~= recs@);
        }
        warnings
    }

    /// One resolve step of the roster: writes the group into the fencer's
    /// round slot and keeps the member lists in step, as `add_group` does at
    /// runtime — the displaced group's list loses the fencer before the
    /// target group's list gains it.
    fn bind_fencer_slot(&mut self, fid: u32, gid: &GroupId, warnings: &mut Vec<Warning>)
        requires
            old(self).wf(),
        ensures
            final(self).wf(),
            final(self).days == old(self).days,
            final(self).inner == old(self).inner,
            final(self).bewerbs@.len() == old(self).bewerbs@.len(),
            forall|i: int|
                0 <= i < old(self).bewerbs@.len() ==> ((#[trigger] final(self).bewerbs@[i]).id
                    == old(self).bewerbs@[i].id && final(self).bewerbs@[i].n_rounds
                    == old(self).bewerbs@[i].n_rounds && final(self).bewerbs@[i].n_groups
                    == old(self).bewerbs@[i].n_groups),
            forall|x: ArenaSlotId| #[trigger] final(self).spec_arena(x) == old(self).spec_arena(
                x,
            ),
            ({
                let fs0 = old(self).fencers.fencers@;
                let fi = idx_of(fs0, fid);
                let applies = fi >= 0 && crate::fencer::slot_write_applies(fs0[fi], *gid);
                let d = if fi >= 0 {
                    crate::fencer::displaced_slot(fs0[fi], *gid)
                } else {
                    None
                };
                forall|b: u32, r2: u32, g2: u32|
                    match #[trigger] old(self).spec_group_n(b, r2, g2) {
                        Some(g) => match final(self).spec_group_n(b, r2, g2) {
                            Some(gg) => gg.id == g.id && gg.arena_slot == g.arena_slot
                                && gg.fencers@ == member_list_update(
                                g.fencers@,
                                b,
                                r2,
                                g2,
                                applies,
                                d,
                                *gid,
                                fid,
                            ),
                            None => false,
                        },
                        None => final(self).spec_group_n(b, r2, g2) is None,
                    }
            }),
            ({
                let fs0 = old(self).fencers.fencers@;
                let fs1 = final(self).fencers.fencers@;
                let fi = idx_of(fs0, fid);
                &&& fs1.len() == fs0.len()
                &&& (forall|i: int| 0 <= i < fs0.len() && i != fi ==> fs1[i] == fs0[i])
                &&& (fi >= 0 ==> crate::fencer::slot_write_step(fs0[fi], *gid, fs1[fi]))
                &&& (fi < 0 ==> fs1 == fs0)
            }),
            final(self).fencers.fencers@.len() == old(self).fencers.fencers@.len(),
            forall|fi: int|
                0 <= fi < old(self).fencers.fencers@.len() ==> ((#[trigger] final(self).fencers.fencers@[fi]).id == old(self).fencers.fencers@[fi].id && final(self).fencers.fencers@[fi].name == old(self).fencers.fencers@[fi].name),
            final(warnings)@ == old(warnings)@ + ({
                let fs0 = old(self).fencers.fencers@;
                let fi = idx_of(fs0, fid);
                if fi < 0 {
                    seq![Warning::DuplicateFencer(fid)]
                } else if crate::fencer::slot_write_applies(fs0[fi], *gid) {
                    Seq::<Warning>::empty()
                } else if idx_of(fs0[fi].bewerbs@, gid.bewerb_id) < 0 {
                    seq![Warning::FencerNotInBewerb(gid.bewerb_id)]
                } else {
                    seq![Warning::RosterSlotMissing(gid.round_id)]
                }
            }),
    {
        let ghost t0 = *self;
        let ghost w0 = warnings@;
        let res = match self.fencers.fencers.get_mut(fid) {
            Some(f) => f.add_group(gid),
            None => Err(Warning::DuplicateFencer(fid)),
        };
        let ghost t1 = *self;
        let ghost fs0 = t0.fencers.fencers@;
        let ghost fs1 = t1.fencers.fencers@;
        let ghost fidx = idx_of(fs0, fid);
        let ghost applies = fidx >= 0 && crate::fencer::slot_write_applies(fs0[fidx], *gid);
        let ghost d: Option<GroupId> = if fidx >= 0 {
            crate::fencer::displaced_slot(fs0[fidx], *gid)
        } else {
            None
        };
        proof {
            Self::lemma_same_days(t0, t1);
            Self::lemma_same_bewerbs(t0, t1);
            lemma_idx_of_props(fs0, fid);
            if fidx >= 0 {
                assert(fs1 == fs0.update(fidx, fs1[fidx]));
                assert(crate::fencer::slot_write_step(fs0[fidx], *gid, fs1[fidx]));
                if applies {
                    assert(res == Result::<Option<GroupId>, Warning>::Ok(d));
                } else {
                    assert(res is Err && fs1[fidx] == fs0[fidx]);
                }
            } else {
                assert(fs1 == fs0);
                assert(res is Err);
            }
            assert forall|i2: int| 0 <= i2 < fs0.len() && i2 != fidx implies #[trigger] fs1[i2]
                == fs0[i2] by {}
            assert(fs1.len() == fs0.len() && (forall|i2: int|
                0 <= i2 < fs0.len() ==> ((#[trigger] fs1[i2]).id == fs0[i2].id && fs1[i2].name
                    == fs0[i2].name))) by {
                if fidx >= 0 {
                    assert(fs1[fidx].id == fs0[fidx].id && fs1[fidx].name == fs0[fidx].name);
                    assert forall|i2: int| 0 <= i2 < fs0.len() implies ((#[trigger] fs1[i2]).id
                        == fs0[i2].id && fs1[i2].name == fs0[i2].name) by {
                        if i2 != fidx {
                            assert(fs1[i2] == fs0[i2]);
                        }
                    }
                }
            }
            assert(t1.wf()) by {
                Self::lemma_links_same(t0, t1);
                assert forall|i1: int, i2: int| 0 <= i1 < i2 < fs1.len() implies (
                #[trigger] fs1[i1].spec_id()) != (#[trigger] fs1[i2].spec_id()) by {
                    assert(fs1[i1].id == fs0[i1].id);
                    assert(fs1[i2].id == fs0[i2].id);
                }
                assert forall|i2: int, j2: int, k2: int|
                    0 <= i2 < fs1.len() && 0 <= j2 < fs1[i2].bewerbs@.len() && 0 <= k2
                        < fs1[i2].bewerbs@[j2].groups@.len() implies match (
                #[trigger] fs1[i2].bewerbs@[j2].groups@[k2]) {
                    Some(gx) => gx.bewerb_id == fs1[i2].bewerbs@[j2].bewerb_id.bewerb_id
                        && gx.round_id == k2,
                    None => true,
                } by {
                    if fidx >= 0 && i2 == fidx {
                        let f0 = fs0[i2];
                        let fb = idx_of(f0.bewerbs@, gid.bewerb_id);
                        lemma_idx_of_props(f0.bewerbs@, gid.bewerb_id);
                        if fb >= 0 && j2 == fb && !(gid.round_id
                            >= f0.bewerbs@[fb].groups@.len()) {
                            if k2 == gid.round_id {
                                assert(f0.bewerbs@[fb].spec_id() == gid.bewerb_id);
                            } else {
                                assert(fs1[i2].bewerbs@[j2].groups@[k2]
                                    == f0.bewerbs@[j2].groups@[k2]);
                            }
                        } else {
                            assert(fs1[i2].bewerbs@[j2] == f0.bewerbs@[j2]);
                        }
                    } else {
                        assert(fs1[i2] == fs0[i2]);
                    }
                }
            }
        }
        match res {
            Ok(displaced) => {
                proof {
                    assert(applies);
                    assert(displaced == d);
                }
                match &displaced {
                    Some(old_gid) => {
                        let ok1 = self.edit_group(old_gid, GroupChange::RemoveFencer(fid));
                        proof {
                            let t2 = *self;
                            Self::lemma_same_days(t1, t2);
                            assert(t2.wf()) by {
                                if t1.spec_group(*old_gid) is Some {
                                    Self::lemma_links_fencer_edit(t1, t2);
                                    Self::lemma_same_fencers(t1, t2);
                                } else {
                                    assert(t2 == t1);
                                }
                            }
                        }
                    },
                    None => {},
                }
                let ghost t3 = *self;
                let ok2 = self.edit_group(gid, GroupChange::AddFencer(fid));
                proof {
                    let t4 = *self;
                    Self::lemma_same_days(t3, t4);
                    assert(t4.wf()) by {
                        if t3.spec_group(*gid) is Some {
                            Self::lemma_links_fencer_edit(t3, t4);
                            Self::lemma_same_fencers(t3, t4);
                        } else {
                            assert(t4 == t3);
                        }
                    }
                    assert(t4.fencers == t1.fencers);
                    assert forall|b: u32, r2: u32, g2: u32|
                        match #[trigger] t0.spec_group_n(b, r2, g2) {
                            Some(g) => match t4.spec_group_n(b, r2, g2) {
                                Some(gg) => gg.id == g.id && gg.arena_slot == g.arena_slot
                                    && gg.fencers@ == member_list_update(
                                    g.fencers@,
                                    b,
                                    r2,
                                    g2,
                                    applies,
                                    d,
                                    *gid,
                                    fid,
                                ),
                                None => false,
                            },
                            None => t4.spec_group_n(b, r2, g2) is None,
                        } by {
                        assert(t1.spec_group_n(b, r2, g2) == t0.spec_group_n(b, r2, g2));
                        let hit_rm = match d {
                            Some(dg) => dg.bewerb_id == b && dg.round_id == r2 && dg.group_id
                                == g2,
                            None => false,
                        };
                        let hit_add = gid.bewerb_id == b && gid.round_id == r2 && gid.group_id
                            == g2;
                        match t0.spec_group_n(b, r2, g2) {
                            Some(g) => {
                                if hit_rm {
                                    let dg = d.unwrap();
                                    assert(t1.spec_group(dg) == t1.spec_group_n(b, r2, g2));
                                    assert(t3.spec_group_n(b, r2, g2) is Some);
                                    let grm = t3.spec_group_n(b, r2, g2).unwrap();
                                    assert(group_changed(
                                        g,
                                        GroupChange::RemoveFencer(fid),
                                        grm,
                                    ));
                                } else {
                                    assert(t3.spec_group_n(b, r2, g2) == t1.spec_group_n(
                                        b,
                                        r2,
                                        g2,
                                    )) by {
                                        match &displaced {
                                            Some(old_gid) => {
                                                if t1.spec_group(*old_gid) is Some {
                                                    assert(!(b == old_gid.bewerb_id && r2
                                                        == old_gid.round_id && g2
                                                        == old_gid.group_id));
                                                }
                                            },
                                            None => {},
                                        }
                                    }
                                }
                                if hit_add {
                                    assert(t3.spec_group(*gid) == t3.spec_group_n(b, r2, g2));
                                    assert(t3.spec_group_n(b, r2, g2) is Some);
                                    let gadd = t3.spec_group_n(b, r2, g2).unwrap();
                                    assert(t4.spec_group_n(b, r2, g2) is Some);
                                    assert(group_changed(
                                        gadd,
                                        GroupChange::AddFencer(fid),
                                        t4.spec_group_n(b, r2, g2).unwrap(),
                                    ));
                                } else {
                                    assert(t4.spec_group_n(b, r2, g2) == t3.spec_group_n(
                                        b,
                                        r2,
                                        g2,
                                    )) by {
                                        if t3.spec_group(*gid) is Some {
                                            assert(!(b == gid.bewerb_id && r2 == gid.round_id
                                                && g2 == gid.group_id));
                                        }
                                    }
                                }
                            },
                            None => {
                                assert(t1.spec_group_n(b, r2, g2) is None);
                                assert(t3.spec_group_n(b, r2, g2) is None) by {
                                    match &displaced {
                                        Some(old_gid) => {
                                            if t1.spec_group(*old_gid) is Some {
                                                assert(t1.spec_group(*old_gid) is Some);
                                                assert(!(b == old_gid.bewerb_id && r2
                                                    == old_gid.round_id && g2
                                                    == old_gid.group_id));
                                            }
                                        },
                                        None => {},
                                    }
                                }
                                assert(t4.spec_group_n(b, r2, g2) is None) by {
                                    if t3.spec_group(*gid) is Some {
                                        assert(!(b == gid.bewerb_id && r2 == gid.round_id && g2
                                            == gid.group_id));
                                    }
                                }
                            },
                        }
                    }
                    assert(warnings@ =~= w0 + Seq::<Warning>::empty());
                }
            },
            Err(w) => {
                warnings.push(w);
                proof {
                    let t4 = *self;
                    assert(t4 == t1);
                    assert(!applies);
                    assert(warnings@ == w0 + (if fidx < 0 {
                        seq![Warning::DuplicateFencer(fid)]
                    } else if crate::fencer::slot_write_applies(fs0[fidx], *gid) {
                        Seq::<Warning>::empty()
                    } else if idx_of(fs0[fidx].bewerbs@, gid.bewerb_id) < 0 {
                        seq![Warning::FencerNotInBewerb(gid.bewerb_id)]
                    } else {
                        seq![Warning::RosterSlotMissing(gid.round_id)]
                    })) by {
                        if fidx < 0 {
                            assert(w == Warning::DuplicateFencer(fid));
                            assert(warnings@ =~= w0 + seq![Warning::DuplicateFencer(fid)]);
                        } else if idx_of(fs0[fidx].bewerbs@, gid.bewerb_id) < 0 {
                            assert(w == Warning::FencerNotInBewerb(gid.bewerb_id));
                            assert(warnings@ =~= w0 + seq![Warning::FencerNotInBewerb(
                                gid.bewerb_id,
                            )]);
                        } else {
                            assert(w == Warning::RosterSlotMissing(gid.round_id));
                            assert(warnings@ =~= w0 + seq![Warning::RosterSlotMissing(
                                gid.round_id,
                            )]);
                        }
                    }
                    assert forall|b: u32, r2: u32, g2: u32|
                        match #[trigger] t0.spec_group_n(b, r2, g2) {
                            Some(g) => match t4.spec_group_n(b, r2, g2) {
                                Some(gg) => gg.id == g.id && gg.arena_slot == g.arena_slot
                                    && gg.fencers@ == member_list_update(
                                    g.fencers@,
                                    b,
                                    r2,
                                    g2,
                                    applies,
                                    d,
                                    *gid,
                                    fid,
                                ),
                                None => false,
                            },
                            None => t4.spec_group_n(b, r2, g2) is None,
                        } by {
                        assert(t4.spec_group_n(b, r2, g2) == t0.spec_group_n(b, r2, g2));
                    }
                }
            },
        }
    }

    /// A group key resolves against the event list exactly when the group
    /// lookup finds it.
    pub proof fn lemma_key_resolves(&self)
        ensures
            forall|gid: GroupId| #[trigger] crate::fencer::key_resolves(self.bewerbs@, gid) == (
            self.spec_group(gid) is Some),
    {
        assert forall|gid: GroupId| #[trigger] crate::fencer::key_resolves(self.bewerbs@, gid)
            == (self.spec_group(gid) is Some) by {
            match find_id(self.bewerbs@, gid.bewerb_id) {
                Some(bw) => {
                    match find_id(bw.rounds@, gid.round_id) {
                        Some(rd) => {},
                        None => {},
                    }
                },
                None => {},
            }
        }
    }

    /// On a well-formed graph — no dangling cross references — every
    /// recorded binding is confirmed on both sides, so the resolve phase of
    /// reconstruction (`validate_links`) keeps each one untouched.
    pub proof fn lemma_wf_mutual(&self)
        requires
            self.wf(),
        ensures
            forall|b: u32, r: u32, g: u32| #[trigger] self.mutual_group(b, r, g),
            forall|x: ArenaSlotId| #[trigger] self.mutual_arena(x),
    {
        assert forall|b: u32, r: u32, g: u32| #[trigger] self.mutual_group(b, r, g) by {
            assert(match self.spec_group_n(b, r, g) {
                Some(grp) => match grp.arena_slot {
                    Some(aid) => match self.spec_arena(aid) {
                        Some(a) => match a.group {
                            Some(gid) => gid.bewerb_id == b && gid.round_id == r && gid.group_id
                                == g,
                            None => false,
                        },
                        None => false,
                    },
                    None => true,
                },
                None => true,
            });
        }
        assert forall|x: ArenaSlotId| #[trigger] self.mutual_arena(x) by {
            assert(match self.spec_arena(x) {
                Some(a) => match a.group {
                    Some(gid) => match self.spec_group(gid) {
                        Some(grp) => grp.arena_slot == Some(x),
                        None => false,
                    },
                    None => true,
                },
                None => true,
            });
        }
    }

    /// The reassignment law: binding `g1` to the arena slot `a` and then
    /// binding a different group `g2` to the same slot leaves `g1`
    /// unassigned and exactly `g2` and `a` bound to each other.  The two
    /// hypotheses are precisely what `add_group_to_arena` ensures of a
    /// successful call.
    pub proof fn lemma_reassignment(
        t0: Tournament,
        t1: Tournament,
        t2: Tournament,
        g1: GroupId,
        g2: GroupId,
        a: ArenaSlotId,
    )
        requires
            t0.wf(),
            t1.wf(),
            !(g1.bewerb_id == g2.bewerb_id && g1.round_id == g2.round_id && g1.group_id
                == g2.group_id),
            t0.spec_group(g1) is Some,
            t0.spec_arena(a) is Some,
            ({
                let ga = t0.spec_group(g1).unwrap();
                let a0 = t0.spec_arena(a).unwrap();
                &&& (forall|x: ArenaSlotId|
                    #[trigger] t1.spec_arena(x) == if x == a {
                        Some(a0.with_group(Some(ga.id)))
                    } else if ga.arena_slot == Some(x) {
                        Some(t0.spec_arena(x).unwrap().with_group(None))
                    } else {
                        t0.spec_arena(x)
                    })
                &&& (forall|b: u32, r2: u32, g2x: u32|
                    #[trigger] t1.spec_group_n(b, r2, g2x) == if b == g1.bewerb_id && r2
                        == g1.round_id && g2x == g1.group_id {
                        Some(ga.with_arena(Some(a)))
                    } else if (match a0.group {
                        Some(dgid) => b == dgid.bewerb_id && r2 == dgid.round_id && g2x
                            == dgid.group_id,
                        None => false,
                    }) {
                        Some(t0.spec_group_n(b, r2, g2x).unwrap().with_arena(None))
                    } else {
                        t0.spec_group_n(b, r2, g2x)
                    })
            }),
            t1.spec_group(g2) is Some,
            t1.spec_arena(a) is Some,
            ({
                let gb = t1.spec_group(g2).unwrap();
                let a1 = t1.spec_arena(a).unwrap();
                &&& (forall|x: ArenaSlotId|
                    #[trigger] t2.spec_arena(x) == if x == a {
                        Some(a1.with_group(Some(gb.id)))
                    } else if gb.arena_slot == Some(x) {
                        Some(t1.spec_arena(x).unwrap().with_group(None))
                    } else {
                        t1.spec_arena(x)
                    })
                &&& (forall|b: u32, r2: u32, g2x: u32|
                    #[trigger] t2.spec_group_n(b, r2, g2x) == if b == g2.bewerb_id && r2
                        == g2.round_id && g2x == g2.group_id {
                        Some(gb.with_arena(Some(a)))
                    } else if (match a1.group {
                        Some(dgid) => b == dgid.bewerb_id && r2 == dgid.round_id && g2x
                            == dgid.group_id,
                        None => false,
                    }) {
                        Some(t1.spec_group_n(b, r2, g2x).unwrap().with_arena(None))
                    } else {
                        t1.spec_group_n(b, r2, g2x)
                    })
            }),
        ensures
            ({
                let freed = t2.spec_group(g1);
                freed is Some && freed.unwrap().arena_slot is None
            }),
            t2.spec_group(g2) == Some(t1.spec_group(g2).unwrap().with_arena(Some(a))),
            ({
                let bound = t2.spec_arena(a);
                bound is Some && bound.unwrap().group == Some(t1.spec_group(g2).unwrap().id)
            }),
    {
        let ga = t0.spec_group(g1).unwrap();
        let a0 = t0.spec_arena(a).unwrap();
        let gb = t1.spec_group(g2).unwrap();
        let a1 = t1.spec_arena(a).unwrap();
        t0.lemma_spec_group_ids(g1.bewerb_id, g1.round_id, g1.group_id);
        assert(t1.spec_arena(a) == Some(a0.with_group(Some(ga.id))));
        assert(a1.group == Some(ga.id));
        assert(t1.spec_group_n(g1.bewerb_id, g1.round_id, g1.group_id) == Some(
            ga.with_arena(Some(a)),
        ));
        assert(t2.spec_group_n(g1.bewerb_id, g1.round_id, g1.group_id) == Some(
            ga.with_arena(Some(a)).with_arena(None),
        ));
    }

    /// Arena lookups agree on two graphs whose schedules have the same ids
    /// and the same arena slots.
    pub proof fn lemma_arena_lookup_content(u: Tournament, v: Tournament)
        requires
            u.days@.len() == v.days@.len(),
            forall|i: int|
                0 <= i < u.days@.len() ==> ((#[trigger] u.days@[i]).id == v.days@[i].id
                    && u.days@[i].timeslots@.len() == v.days@[i].timeslots@.len()),
            forall|i: int, j: int|
                0 <= i < u.days@.len() && 0 <= j < u.days@[i].timeslots@.len() ==> ((
                #[trigger] u.days@[i].timeslots@[j]).id == v.days@[i].timeslots@[j].id
                    && u.days@[i].timeslots@[j].arenas@ == v.days@[i].timeslots@[j].arenas@),
        ensures
            forall|x: ArenaSlotId| #[trigger] u.spec_arena(x) == v.spec_arena(x),
    {
        assert forall|x: ArenaSlotId| #[trigger] u.spec_arena(x) == v.spec_arena(x) by {
            lemma_idx_of_same_ids(u.days@, v.days@, x.day_id);
            lemma_idx_of_props(u.days@, x.day_id);
            lemma_idx_of_props(v.days@, x.day_id);
            if idx_of(u.days@, x.day_id) >= 0 {
                let di = idx_of(u.days@, x.day_id);
                let du = u.days@[di];
                let dv = v.days@[di];
                lemma_idx_of_same_ids(du.timeslots@, dv.timeslots@, x.timeslot_id);
                lemma_idx_of_props(du.timeslots@, x.timeslot_id);
                lemma_idx_of_props(dv.timeslots@, x.timeslot_id);
                if idx_of(du.timeslots@, x.timeslot_id) >= 0 {
                    let tj = idx_of(du.timeslots@, x.timeslot_id);
                    assert(du.timeslots@[tj].arenas@ == dv.timeslots@[tj].arenas@);
                }
            }
        }
    }

    /// Group lookups agree, up to member lists, on two graphs whose events
    /// have the same ids and the same group keys and arena references.
    pub proof fn lemma_group_lookup_content(u: Tournament, v: Tournament)
        requires
            u.bewerbs@.len() == v.bewerbs@.len(),
            forall|i: int|
                0 <= i < u.bewerbs@.len() ==> ((#[trigger] u.bewerbs@[i]).id.bewerb_id
                    == v.bewerbs@[i].id.bewerb_id && u.bewerbs@[i].rounds@.len()
                    == v.bewerbs@[i].rounds@.len()),
            forall|i: int, j: int|
                0 <= i < u.bewerbs@.len() && 0 <= j < u.bewerbs@[i].rounds@.len() ==> ((
                #[trigger] u.bewerbs@[i].rounds@[j]).id.round_id
                    == v.bewerbs@[i].rounds@[j].id.round_id
                    && u.bewerbs@[i].rounds@[j].groups@.len()
                    == v.bewerbs@[i].rounds@[j].groups@.len()),
            forall|i: int, j: int, k: int|
                0 <= i < u.bewerbs@.len() && 0 <= j < u.bewerbs@[i].rounds@.len() && 0 <= k
                    < u.bewerbs@[i].rounds@[j].groups@.len() ==> ((
                #[trigger] u.bewerbs@[i].rounds@[j].groups@[k]).id
                    == v.bewerbs@[i].rounds@[j].groups@[k].id
                    && u.bewerbs@[i].rounds@[j].groups@[k].arena_slot
                    == v.bewerbs@[i].rounds@[j].groups@[k].arena_slot),
        ensures
            forall|b: u32, r: u32, g: u32|
                match #[trigger] u.spec_group_n(b, r, g) {
                    Some(gg) => match v.spec_group_n(b, r, g) {
                        Some(g2) => g2.id == gg.id && g2.arena_slot == gg.arena_slot,
                        None => false,
                    },
                    None => v.spec_group_n(b, r, g) is None,
                },
    {
        assert forall|b: u32, r: u32, g: u32|
            match #[trigger] u.spec_group_n(b, r, g) {
                Some(gg) => match v.spec_group_n(b, r, g) {
                    Some(g2) => g2.id == gg.id && g2.arena_slot == gg.arena_slot,
                    None => false,
                },
                None => v.spec_group_n(b, r, g) is None,
            } by {
            lemma_idx_of_same_ids(u.bewerbs@, v.bewerbs@, b);
            lemma_idx_of_props(u.bewerbs@, b);
            lemma_idx_of_props(v.bewerbs@, b);
            if idx_of(u.bewerbs@, b) >= 0 {
                let bi = idx_of(u.bewerbs@, b);
                let bu = u.bewerbs@[bi];
                let bv = v.bewerbs@[bi];
                lemma_idx_of_same_ids(bu.rounds@, bv.rounds@, r);
                lemma_idx_of_props(bu.rounds@, r);
                lemma_idx_of_props(bv.rounds@, r);
                if idx_of(bu.rounds@, r) >= 0 {
                    let rj = idx_of(bu.rounds@, r);
                    let ru = bu.rounds@[rj];
                    let rv = bv.rounds@[rj];
                    assert forall|k2: int| 0 <= k2 < ru.groups@.len() implies (
                    #[trigger] ru.groups@[k2].spec_id()) == rv.groups@[k2].spec_id() by {
                        assert(u.bewerbs@[bi].rounds@[rj].groups@[k2].id
                            == v.bewerbs@[bi].rounds@[rj].groups@[k2].id);
                    }
                    lemma_idx_of_same_ids(ru.groups@, rv.groups@, g);
                    lemma_idx_of_props(ru.groups@, g);
                    lemma_idx_of_props(rv.groups@, g);
                    if idx_of(ru.groups@, g) >= 0 {
                        let gk = idx_of(ru.groups@, g);
                        assert(u.bewerbs@[bi].rounds@[rj].groups@[gk].id
                            == v.bewerbs@[bi].rounds@[rj].groups@[gk].id);
                        assert(u.bewerbs@[bi].rounds@[rj].groups@[gk].arena_slot
                            == v.bewerbs@[bi].rounds@[rj].groups@[gk].arena_slot);
                    }
                }
            }
        }
    }

    /// The round-trip law for the cross-linked graph: save a well-formed
    /// tournament, rebuild the events and the days from the records, and run
    /// the resolve phase — every entity returns under its id, and every
    /// group/arena binding is confirmed and kept, on both sides.  The
    /// hypotheses are exactly what `to_snapshot`, `load_bewerbs`, `load_days`
    /// and `validate_links` ensure; member lists and fencer slots are rebuilt
    /// from the fencer records afterwards (`install_fencers`).
    pub proof fn lemma_snapshot_roundtrip(
        t: Tournament,
        s: TournamentSnapshot,
        mid: Tournament,
        fin: Tournament,
    )
        requires
            t.wf(),
            s.days@.len() == t.days@.len(),
            forall|i: int| 0 <= i < t.days@.len() ==> crate::day::day_saved(
                #[trigger] t.days@[i],
                s.days@[i],
            ),
            s.bewerbs@.len() == t.bewerbs@.len(),
            forall|i: int| 0 <= i < t.bewerbs@.len() ==> crate::bewerb::bewerb_saved(
                #[trigger] t.bewerbs@[i],
                s.bewerbs@[i],
            ),
            crate::bewerb::is_loaded_bewerbs(s.bewerbs@, mid.bewerbs@),
            crate::day::is_loaded_days(s.days@, mid.days@),
            forall|b: u32, r2: u32, g2: u32| #[trigger] fin.spec_group_n(b, r2, g2)
                == match mid.spec_group_n(b, r2, g2) {
                Some(g) => Some(
                    if mid.mutual_group(b, r2, g2) {
                        g
                    } else {
                        g.with_arena(None)
                    },
                ),
                None => None,
            },
            forall|x: ArenaSlotId| #[trigger] fin.spec_arena(x) == match mid.spec_arena(x) {
                Some(a) => Some(
                    if mid.mutual_arena(x) {
                        a
                    } else {
                        a.with_group(None)
                    },
                ),
                None => None,
            },
            fin.days@.len() == mid.days@.len(),
            forall|i: int|
                0 <= i < mid.days@.len() ==> ((#[trigger] fin.days@[i]).id == mid.days@[i].id
                    && fin.days@[i].date == mid.days@[i].date && fin.days@[i].n_ts
                    == mid.days@[i].n_ts && fin.days@[i].n_kp == mid.days@[i].n_kp),
            fin.bewerbs@.len() == mid.bewerbs@.len(),
            forall|i: int|
                0 <= i < mid.bewerbs@.len() ==> ((#[trigger] fin.bewerbs@[i]).id
                    == mid.bewerbs@[i].id && fin.bewerbs@[i].n_rounds
                    == mid.bewerbs@[i].n_rounds && fin.bewerbs@[i].n_groups
                    == mid.bewerbs@[i].n_groups),
        ensures
            forall|x: ArenaSlotId| #[trigger] fin.spec_arena(x) == t.spec_arena(x),
            forall|b: u32, r2: u32, g2: u32|
                match #[trigger] t.spec_group_n(b, r2, g2) {
                    Some(g) => match fin.spec_group_n(b, r2, g2) {
                        Some(g2x) => g2x.id == g.id && g2x.arena_slot == g.arena_slot,
                        None => false,
                    },
                    None => fin.spec_group_n(b, r2, g2) is None,
                },
            fin.days@.len() == t.days@.len(),
            forall|i: int|
                0 <= i < t.days@.len() ==> ((#[trigger] fin.days@[i]).id == t.days@[i].id
                    && fin.days@[i].date == t.days@[i].date && fin.days@[i].n_ts
                    == t.days@[i].n_ts && fin.days@[i].n_kp == t.days@[i].n_kp),
            fin.bewerbs@.len() == t.bewerbs@.len(),
            forall|i: int|
                0 <= i < t.bewerbs@.len() ==> ((#[trigger] fin.bewerbs@[i]).id
                    == t.bewerbs@[i].id && fin.bewerbs@[i].n_rounds == t.bewerbs@[i].n_rounds
                    && fin.bewerbs@[i].n_groups == t.bewerbs@[i].n_groups),
    {
        crate::day::lemma_days_roundtrip(t.days@, s.days@, mid.days@);
        crate::bewerb::lemma_bewerbs_roundtrip(t.bewerbs@, s.bewerbs@, mid.bewerbs@);
        Self::lemma_arena_lookup_content(mid, t);
        Self::lemma_group_lookup_content(mid, t);
        t.lemma_wf_mutual();
        assert forall|x: ArenaSlotId| #[trigger] mid.mutual_arena(x) by {
            assert(mid.spec_arena(x) == t.spec_arena(x));
            match t.spec_arena(x) {
                Some(a) => match a.group {
                    Some(gid) => {
                        assert(t.mutual_arena(x));
                        let grp = t.spec_group(gid).unwrap();
                        assert(grp.arena_slot == Some(x));
                        assert(match mid.spec_group_n(gid.bewerb_id, gid.round_id, gid.group_id) {
                            Some(g2) => g2.id == grp.id && g2.arena_slot == grp.arena_slot,
                            None => mid.spec_group_n(gid.bewerb_id, gid.round_id, gid.group_id)
                                is None,
                        });
                        assert(t.spec_group_n(gid.bewerb_id, gid.round_id, gid.group_id) is Some);
                    },
                    None => {},
                },
                None => {},
            }
        }
        assert forall|b: u32, r2: u32, g2: u32| #[trigger] mid.mutual_group(b, r2, g2) by {
            match mid.spec_group_n(b, r2, g2) {
                Some(gg) => {
                    assert(match t.spec_group_n(b, r2, g2) {
                        Some(g2x) => gg.id == g2x.id && gg.arena_slot == g2x.arena_slot,
                        None => mid.spec_group_n(b, r2, g2) is None,
                    });
                    let gt = t.spec_group_n(b, r2, g2).unwrap();
                    assert(t.mutual_group(b, r2, g2));
                    match gg.arena_slot {
                        Some(x) => {
                            assert(mid.spec_arena(x) == t.spec_arena(x));
                        },
                        None => {},
                    }
                },
                None => {},
            }
        }
        assert forall|x: ArenaSlotId| #[trigger] fin.spec_arena(x) == t.spec_arena(x) by {
            assert(mid.spec_arena(x) == t.spec_arena(x));
            match mid.spec_arena(x) {
                Some(a) => {
                    assert(mid.mutual_arena(x));
                },
                None => {},
            }
        }
        assert forall|b: u32, r2: u32, g2: u32|
            match #[trigger] t.spec_group_n(b, r2, g2) {
                Some(g) => match fin.spec_group_n(b, r2, g2) {
                    Some(g2x) => g2x.id == g.id && g2x.arena_slot == g.arena_slot,
                    None => false,
                },
                None => fin.spec_group_n(b, r2, g2) is None,
            } by {
            assert(match mid.spec_group_n(b, r2, g2) {
                Some(g2x) => match t.spec_group_n(b, r2, g2) {
                    Some(g) => g2x.id == g.id && g2x.arena_slot == g.arena_slot,
                    None => false,
                },
                None => t.spec_group_n(b, r2, g2) is None,
            }) by {
                Self::lemma_group_lookup_content(mid, t);
            }
            match mid.spec_group_n(b, r2, g2) {
                Some(gg) => {
                    assert(mid.mutual_group(b, r2, g2));
                },
                None => {},
            }
        }
    }

    /// Groups rebuilt from records come with empty member lists; the resolve
    /// phase of the roster is what fills them.
    pub proof fn lemma_loaded_groups_empty(
        tm: Tournament,
        recs: Seq<crate::bewerb::BewerbSaveable>,
    )
        requires
            crate::bewerb::is_loaded_bewerbs(recs, tm.bewerbs@),
        ensures
            forall|b: u32, r2: u32, g2: u32|
                match #[trigger] tm.spec_group_n(b, r2, g2) {
                    Some(g) => g.fencers@ == Seq::<u32>::empty(),
                    None => true,
                },
    {
        let pb = |bw: Bewerb|
            forall|j: int, k: int|
                0 <= j < bw.rounds@.len() && 0 <= k < bw.rounds@[j].groups@.len() ==> (
                #[trigger] bw.rounds@[j].groups@[k]).fencers@ == Seq::<u32>::empty();
        assert forall|x: crate::bewerb::BewerbSaveable, bw: Bewerb| #[trigger] (
        crate::bewerb::bewerb_load_rel())(x, bw) implies pb(bw) by {
            let pr = |rd: Round|
                forall|k: int|
                    0 <= k < rd.groups@.len() ==> (#[trigger] rd.groups@[k]).fencers@ == Seq::<
                    u32,
                >::empty();
            assert forall|xr: crate::round::RoundSaveable, rd: Round| #[trigger] (
            crate::bewerb::round_load_rel(x.id.bewerb_id))(xr, rd) implies pr(rd) by {
                let pg = |g: Group| g.fencers@ == Seq::<u32>::empty();
                assert forall|xg: crate::group::GroupSaveable, g: Group| #[trigger] (
                crate::round::group_load_rel(x.id.bewerb_id, xr.id.round_id))(xg, g) implies pg(
                    g,
                ) by {}
                crate::container::lemma_loaded_list_all(
                    xr.groups@,
                    rd.groups@,
                    crate::round::group_sid(),
                    crate::round::group_load_rel(x.id.bewerb_id, xr.id.round_id),
                    pg,
                );
                assert forall|k: int| 0 <= k < rd.groups@.len() implies (
                #[trigger] rd.groups@[k]).fencers@ == Seq::<u32>::empty() by {
                    assert(pg(rd.groups@[k]));
                }
            }
            crate::container::lemma_loaded_list_all(
                x.rounds@,
                bw.rounds@,
                crate::bewerb::round_sid(),
                crate::bewerb::round_load_rel(x.id.bewerb_id),
                pr,
            );
            assert forall|j: int, k: int|
                0 <= j < bw.rounds@.len() && 0 <= k < bw.rounds@[j].groups@.len() implies (
            #[trigger] bw.rounds@[j].groups@[k]).fencers@ == Seq::<u32>::empty() by {
                assert(pr(bw.rounds@[j]));
            }
        }
        crate::container::lemma_loaded_list_all(
            recs,
            tm.bewerbs@,
            crate::bewerb::bewerb_sid(),
            crate::bewerb::bewerb_load_rel(),
            pb,
        );
        assert forall|b: u32, r2: u32, g2: u32|
            match #[trigger] tm.spec_group_n(b, r2, g2) {
                Some(g) => g.fencers@ == Seq::<u32>::empty(),
                None => true,
            } by {
            lemma_idx_of_props(tm.bewerbs@, b);
            match find_id(tm.bewerbs@, b) {
                Some(bw) => {
                    assert(bw == tm.bewerbs@[idx_of(tm.bewerbs@, b)]);
                    assert(pb(bw));
                    lemma_idx_of_props(bw.rounds@, r2);
                    match find_id(bw.rounds@, r2) {
                        Some(rd) => {
                            assert(rd == bw.rounds@[idx_of(bw.rounds@, r2)]);
                            lemma_idx_of_props(rd.groups@, g2);
                            match find_id(rd.groups@, g2) {
                                Some(g) => {
                                    assert(g == rd.groups@[idx_of(rd.groups@, g2)]);
                                },
                                None => {},
                            }
                        },
                        None => {},
                    }
                },
                None => {},
            }
        }
    }

    /// One slot write moves the membership the rosters define exactly as the
    /// engine moves the member lists: the displaced key loses the writing
    /// fencer, the written key gains it, and nothing else moves.
    proof fn lemma_members_step(
        pre: Seq<Fencer>,
        cur: Fencer,
        newf: Fencer,
        gid: GroupId,
        b: u32,
        r2: u32,
        g2: u32,
        base: Seq<u32>,
    )
        requires
            !has_id(pre, cur.id),
            newf.id == cur.id,
            crate::fencer::slot_write_step(cur, gid, newf),
            crate::fencer::slots_canonical(cur),
            base == crate::fencer::members_of(pre.push(cur), b, r2, g2),
        ensures
            member_list_update(
                base,
                b,
                r2,
                g2,
                crate::fencer::slot_write_applies(cur, gid),
                crate::fencer::displaced_slot(cur, gid),
                gid,
                cur.id,
            ) == crate::fencer::members_of(pre.push(newf), b, r2, g2),
            crate::fencer::slots_canonical(newf),
    {
        let fid = cur.id;
        let ms = crate::fencer::members_of(pre, b, r2, g2);
        assert(pre.push(cur).drop_last() =~= pre);
        assert(pre.push(newf).drop_last() =~= pre);
        assert(base == if crate::fencer::fencer_holds(cur, b, r2, g2) {
            ms.push(fid)
        } else {
            ms
        });
        crate::fencer::lemma_members_of_absent(pre, b, r2, g2, fid);
        if !crate::fencer::slot_write_applies(cur, gid) {
            assert(newf == cur);
            assert(member_list_update(
                base,
                b,
                r2,
                g2,
                false,
                crate::fencer::displaced_slot(cur, gid),
                gid,
                fid,
            ) == base);
        } else {
            let fb = idx_of(cur.bewerbs@, gid.bewerb_id);
            let round = gid.round_id as int;
            lemma_idx_of_props(cur.bewerbs@, gid.bewerb_id);
            let d = crate::fencer::displaced_slot(cur, gid);
            assert(d == cur.bewerbs@[fb].groups@[round]);
            assert(newf.bewerbs@[fb].groups@ == cur.bewerbs@[fb].groups@.update(
                round,
                Some(gid),
            ));
            assert(cur.bewerbs@[fb].spec_id() == gid.bewerb_id);
            assert forall|jj: int|
                0 <= jj < cur.bewerbs@.len() implies (#[trigger] newf.bewerbs@[jj]).spec_id()
                == cur.bewerbs@[jj].spec_id() by {
                if jj != fb {
                    assert(newf.bewerbs@[jj] == cur.bewerbs@[jj]);
                }
            }
            lemma_idx_of_same_ids(newf.bewerbs@, cur.bewerbs@, gid.bewerb_id);
            assert(idx_of(newf.bewerbs@, gid.bewerb_id) == fb);
            // The written slot is the one canonical home of every key that
            // shares the written event and round.
            assert(crate::fencer::slots_canonical(newf)) by {
                assert forall|j: int, k: int|
                    0 <= j < newf.bewerbs@.len() && 0 <= k < newf.bewerbs@[j].groups@.len()
                        implies match (#[trigger] newf.bewerbs@[j].groups@[k]) {
                    Some(gx) => j == idx_of(newf.bewerbs@, gx.bewerb_id) && k == gx.round_id,
                    None => true,
                } by {
                    match newf.bewerbs@[j].groups@[k] {
                        Some(gx) => {
                            if j == fb && k == round {
                                assert(gx == gid);
                            } else {
                                if j == fb {
                                    assert(newf.bewerbs@[j].groups@[k]
                                        == cur.bewerbs@[j].groups@[k]);
                                } else {
                                    assert(newf.bewerbs@[j] == cur.bewerbs@[j]);
                                }
                                assert(match cur.bewerbs@[j].groups@[k] {
                                    Some(gy) => j == idx_of(cur.bewerbs@, gy.bewerb_id) && k
                                        == gy.round_id,
                                    None => true,
                                });
                                lemma_idx_of_same_ids(newf.bewerbs@, cur.bewerbs@, gx.bewerb_id);
                            }
                        },
                        None => {},
                    }
                }
            }
            let hit_rm = match d {
                Some(dg) => dg.bewerb_id == b && dg.round_id == r2 && dg.group_id == g2,
                None => false,
            };
            let hit_add = gid.bewerb_id == b && gid.round_id == r2 && gid.group_id == g2;
            // The displaced occupant shares the written slot's event and
            // round with the written reference.
            assert(match d {
                Some(dg) => dg.bewerb_id == gid.bewerb_id && dg.round_id == gid.round_id,
                None => true,
            }) by {
                match d {
                    Some(dg) => {
                        assert(match cur.bewerbs@[fb].groups@[round] {
                            Some(gy) => fb == idx_of(cur.bewerbs@, gy.bewerb_id) && round
                                == gy.round_id,
                            None => true,
                        });
                        lemma_idx_of_props(cur.bewerbs@, dg.bewerb_id);
                    },
                    None => {},
                }
            }
            let upd = member_list_update(base, b, r2, g2, true, d, gid, fid);
            let goal = crate::fencer::members_of(pre.push(newf), b, r2, g2);
            assert(goal == if crate::fencer::fencer_holds(newf, b, r2, g2) {
                ms.push(fid)
            } else {
                ms
            });
            if hit_rm {
                let dg = d.unwrap();
                assert(crate::fencer::fencer_holds(cur, b, r2, g2)) by {
                    assert(cur.bewerbs@[fb].groups@[round] == Some(dg));
                }
                assert(base == ms.push(fid));
                crate::group::lemma_seq_without_push_same(ms, fid);
                crate::group::lemma_seq_without_absent(ms, fid);
                assert(crate::group::seq_without(base, fid) == ms);
                if hit_add {
                    assert(upd == ms.push(fid));
                    assert(crate::fencer::fencer_holds(newf, b, r2, g2)) by {
                        assert(newf.bewerbs@[fb].groups@[round] == Some(gid));
                    }
                } else {
                    assert(upd == ms);
                    assert(!crate::fencer::fencer_holds(newf, b, r2, g2)) by {
                        if crate::fencer::fencer_holds(newf, b, r2, g2) {
                            let (j, k): (int, int) = choose|j: int, k: int|
                                0 <= j < newf.bewerbs@.len() && 0 <= k
                                    < newf.bewerbs@[j].groups@.len() && (match (
                                #[trigger] newf.bewerbs@[j].groups@[k]) {
                                    Some(gx) => gx.bewerb_id == b && gx.round_id == r2
                                        && gx.group_id == g2,
                                    None => false,
                                });
                            let gx = newf.bewerbs@[j].groups@[k].unwrap();
                            assert(j == idx_of(newf.bewerbs@, gx.bewerb_id) && k
                                == gx.round_id);
                            assert(b == dg.bewerb_id == gid.bewerb_id);
                            assert(r2 == dg.round_id == gid.round_id);
                            assert(j == idx_of(newf.bewerbs@, gid.bewerb_id) && k == round);
                            assert(j == fb);
                            assert(newf.bewerbs@[fb].groups@[round] == Some(gid));
                            assert(false);
                        }
                    }
                }
            } else {
                if hit_add {
                    assert(!crate::fencer::fencer_holds(cur, b, r2, g2)) by {
                        if crate::fencer::fencer_holds(cur, b, r2, g2) {
                            let (j, k): (int, int) = choose|j: int, k: int|
                                0 <= j < cur.bewerbs@.len() && 0 <= k
                                    < cur.bewerbs@[j].groups@.len() && (match (
                                #[trigger] cur.bewerbs@[j].groups@[k]) {
                                    Some(gx) => gx.bewerb_id == b && gx.round_id == r2
                                        && gx.group_id == g2,
                                    None => false,
                                });
                            let gx = cur.bewerbs@[j].groups@[k].unwrap();
                            assert(j == idx_of(cur.bewerbs@, gx.bewerb_id) && k == gx.round_id);
                            assert(j == fb && k == round);
                            assert(d == Some(gx));
                            assert(false);
                        }
                    }
                    assert(base == ms);
                    assert(upd == ms.push(fid));
                    assert(crate::fencer::fencer_holds(newf, b, r2, g2)) by {
                        assert(newf.bewerbs@[fb].groups@[round] == Some(gid));
                    }
                } else {
                    assert(upd == base);
                    assert(crate::fencer::fencer_holds(newf, b, r2, g2)
                        == crate::fencer::fencer_holds(cur, b, r2, g2)) by {
                        if crate::fencer::fencer_holds(cur, b, r2, g2) {
                            let (j, k): (int, int) = choose|j: int, k: int|
                                0 <= j < cur.bewerbs@.len() && 0 <= k
                                    < cur.bewerbs@[j].groups@.len() && (match (
                                #[trigger] cur.bewerbs@[j].groups@[k]) {
                                    Some(gx) => gx.bewerb_id == b && gx.round_id == r2
                                        && gx.group_id == g2,
                                    None => false,
                                });
                            if j == fb && k == round {
                                assert(d == cur.bewerbs@[j].groups@[k]);
                                assert(false);
                            }
                            assert(newf.bewerbs@[j].groups@[k] == cur.bewerbs@[j].groups@[k])
                                by {
                                if j == fb {
                                    assert(newf.bewerbs@[j].groups@ == cur.bewerbs@[j].groups@
                                        .update(round, Some(gid)));
                                } else {
                                    assert(newf.bewerbs@[j] == cur.bewerbs@[j]);
                                }
                            }
                            assert(crate::fencer::fencer_holds(newf, b, r2, g2));
                        }
                        if crate::fencer::fencer_holds(newf, b, r2, g2) {
                            let (j, k): (int, int) = choose|j: int, k: int|
                                0 <= j < newf.bewerbs@.len() && 0 <= k
                                    < newf.bewerbs@[j].groups@.len() && (match (
                                #[trigger] newf.bewerbs@[j].groups@[k]) {
                                    Some(gx) => gx.bewerb_id == b && gx.round_id == r2
                                        && gx.group_id == g2,
                                    None => false,
                                });
                            if j == fb && k == round {
                                assert(newf.bewerbs@[j].groups@[k] == Some(gid));
                                assert(false);
                            }
                            assert(cur.bewerbs@[j].groups@[k] == newf.bewerbs@[j].groups@[k])
                                by {
                                if j == fb {
                                    assert(newf.bewerbs@[j].groups@ == cur.bewerbs@[j].groups@
                                        .update(round, Some(gid)));
                                } else {
                                    assert(newf.bewerbs@[j] == cur.bewerbs@[j]);
                                }
                            }
                            assert(crate::fencer::fencer_holds(cur, b, r2, g2));
                        }
                    }
                }
            }
            assert(upd == goal);
        }
    }

    /// The roster invariant reads only the fencers.
    pub proof fn lemma_same_fencers(a: Tournament, b: Tournament)
        requires
            a.fencers.fencers@ == b.fencers.fencers@,
        ensures
            a.roster_wf() == b.roster_wf(),
    {
    }

    /// An empty tournament.
    pub fn new() -> (r: Self)
        ensures
            r.inner.name@ == Seq::<char>::empty(),
            r.days@ == Seq::<Day>::empty(),
            r.bewerbs@ == Seq::<Bewerb>::empty(),
            r.fencers.fencers@ == Seq::<Fencer>::empty(),
            r.wf(),
    {
        Tournament {
            inner: TournamentInternal { name: String::new() },
            bewerbs: UidContainer::new(),
            days: UidContainer::new(),
            fencers: Fencers::new(),
        }
    }

    /// Renames the tournament; the graph is untouched.
    pub fn change_name(&mut self, name: String)
        ensures
            final(self).inner.name == name,
            final(self).days == old(self).days,
            final(self).bewerbs == old(self).bewerbs,
            final(self).fencers == old(self).fencers,
            old(self).wf() ==> final(self).wf(),
    {
        self.inner.name = name;
        proof {
            Self::lemma_same_graph(*old(self), *self);
        }
    }

    /// Adds a day: the smallest unused day id is assigned and written through
    /// the day's whole grid.  The day arrives with no arena assigned.
    pub fn add_day(&mut self, day: Day)
        requires
            old(self).wf(),
            day.wf(),
            forall|j: int, k: int|
                0 <= j < day.timeslots@.len() && 0 <= k < day.timeslots@[j].arenas@.len() ==> (
                #[trigger] day.timeslots@[j].arenas@[k]).group is None,
            old(self).days@.len() < u32::MAX,
        ensures
            final(self).wf(),
            final(self).days@.len() == old(self).days@.len() + 1,
            final(self).days@.subrange(0, old(self).days@.len() as int) == old(self).days@,
            is_fresh_id(old(self).days@, fresh_id(old(self).days@)),
            day.is_renumbered(final(self).days@.last(), fresh_id(old(self).days@)),
            final(self).bewerbs == old(self).bewerbs,
            final(self).fencers == old(self).fencers,
            final(self).inner == old(self).inner,
    {
        let ghost days0 = self.days@;
        let ghost t0 = *self;
        self.days.push(day);
        proof {
            let nid = fresh_id(days0);
            let dn = self.days@.last();
            assert(self.days@ == days0.push(dn));
            crate::day::lemma_renumbered_wf(day, dn, nid);
            lemma_find_id_push(days0, dn);
            lemma_idx_of_props(days0, nid);
            Self::lemma_same_bewerbs(t0, *self);
            Self::lemma_same_fencers(t0, *self);
            assert forall|i: int| 0 <= i < self.days@.len() implies (
            #[trigger] self.days@[i]).wf() by {
                if i < days0.len() {
                    assert(self.days@[i] == days0[i]);
                }
            }
            assert(!has_id(days0, nid));
            assert(unique_ids(self.days@));
            assert forall|x: ArenaSlotId| x.day_id != nid implies #[trigger] self.spec_arena(x)
                == t0.spec_arena(x) by {
                lemma_idx_of_props(days0, x.day_id);
                assert(find_id(self.days@, x.day_id) == find_id(days0, x.day_id));
            }
            assert forall|x: ArenaSlotId|
                match #[trigger] self.spec_arena(x) {
                    Some(a) => a.group is None || t0.spec_arena(x) == Some(a),
                    None => true,
                } by {
                if x.day_id == nid {
                    assert(find_id(self.days@, x.day_id) == Some(dn));
                    lemma_idx_of_props(dn.timeslots@, x.timeslot_id);
                    match find_id(dn.timeslots@, x.timeslot_id) {
                        Some(ts) => {
                            let j = idx_of(dn.timeslots@, x.timeslot_id);
                            assert(ts == dn.timeslots@[j]);
                            lemma_idx_of_props(ts.arenas@, x.arena_slot_id);
                            match find_id(ts.arenas@, x.arena_slot_id) {
                                Some(a) => {
                                    let k = idx_of(ts.arenas@, x.arena_slot_id);
                                    assert(a == dn.timeslots@[j].arenas@[k]);
                                    assert(a.group == day.timeslots@[j].arenas@[k].group);
                                },
                                None => {},
                            }
                        },
                        None => {},
                    }
                }
            }
            assert(self.links_wf()) by {
                assert forall|aid: ArenaSlotId|
                    match #[trigger] self.spec_arena(aid) {
                        Some(a) => match a.group {
                            Some(gid) => match self.spec_group(gid) {
                                Some(grp) => grp.arena_slot == Some(aid),
                                None => false,
                            },
                            None => true,
                        },
                        None => true,
                    } by {
                    match self.spec_arena(aid) {
                        Some(a) => match a.group {
                            Some(gid) => {
                                assert(t0.spec_arena(aid) == Some(a));
                                assert(self.spec_group(gid) == t0.spec_group(gid));
                            },
                            None => {},
                        },
                        None => {},
                    }
                }
                assert forall|b: u32, r: u32, g: u32|
                    match #[trigger] self.spec_group_n(b, r, g) {
                        Some(grp) => match grp.arena_slot {
                            Some(aid) => match self.spec_arena(aid) {
                                Some(a) => match a.group {
                                    Some(gid) => gid.bewerb_id == b && gid.round_id == r
                                        && gid.group_id == g,
                                    None => false,
                                },
                                None => false,
                            },
                            None => true,
                        },
                        None => true,
                    } by {
                    assert(self.spec_group_n(b, r, g) == t0.spec_group_n(b, r, g));
                    match t0.spec_group_n(b, r, g) {
                        Some(grp) => match grp.arena_slot {
                            Some(aid) => {
                                if aid.day_id == nid {
                                    assert(find_id(days0, aid.day_id) is None);
                                    assert(t0.spec_arena(aid) is None);
                                    assert(false);
                                }
                                assert(self.spec_arena(aid) == t0.spec_arena(aid));
                            },
                            None => {},
                        },
                        None => {},
                    }
                }
            }
        }
    }

    /// Deletes the day `id` and, first, frees every group assigned into one
    /// of its arena slots, so that no group is left pointing at a deleted
    /// slot (invariant 2).  No-op if the id is unknown.
    pub fn remove_day(&mut self, id: u32)
        requires
            old(self).wf(),
        ensures
            final(self).wf(),
            final(self).days@ == remove_id(old(self).days@, id),
            final(self).fencers == old(self).fencers,
            final(self).inner == old(self).inner,
            final(self).bewerbs@.len() == old(self).bewerbs@.len(),
            forall|i: int|
                0 <= i < old(self).bewerbs@.len() ==> ((#[trigger] final(self).bewerbs@[i]).id
                    == old(self).bewerbs@[i].id && final(self).bewerbs@[i].n_rounds
                    == old(self).bewerbs@[i].n_rounds && final(self).bewerbs@[i].n_groups
                    == old(self).bewerbs@[i].n_groups),
            forall|x: ArenaSlotId| #[trigger] final(self).spec_arena(x) == if x.day_id == id {
                None::<ArenaSlot>
            } else {
                old(self).spec_arena(x)
            },
            forall|b: u32, r2: u32, g2: u32| #[trigger] final(self).spec_group_n(b, r2, g2)
                == match old(self).spec_group_n(b, r2, g2) {
                Some(g) => Some(
                    if (match g.arena_slot {
                        Some(x) => x.day_id == id,
                        None => false,
                    }) {
                        g.with_arena(None)
                    } else {
                        g
                    },
                ),
                None => None,
            },
    {
        let refs = match self.days.get(id) {
            Some(d) => d.assigned_groups(),
            None => {
                proof {
                    lemma_idx_of_props(self.days@, id);
                    crate::container::lemma_remove_id_absent(self.days@, id);
                    assert forall|x: ArenaSlotId| x.day_id == id implies #[trigger] self.spec_arena(
                        x,
                    ) is None by {}
                }
                return ;
            },
        };
        let ghost t0 = *self;
        let ghost d0 = t0.spec_day(id).unwrap();
        self.free_all(&refs);
        let ghost t1 = *self;
        proof {
            assert forall|j: int| 0 <= j < refs@.len() implies match t0.spec_group(
                #[trigger] refs@[j],
            ) {
                Some(g) => match g.arena_slot {
                    Some(x) => x.day_id == id,
                    None => true,
                },
                None => true,
            } by {
                let gid = refs@[j];
                crate::day::lemma_day_assigned_contains(d0);
                assert(crate::day::day_assigned(d0).contains(gid));
                let (j2, k2): (int, int) = choose|j2: int, k2: int|
                    0 <= j2 < d0.timeslots@.len() && 0 <= k2 < d0.timeslots@[j2].arenas@.len()
                        && (#[trigger] d0.timeslots@[j2].arenas@[k2].group) == Some(gid);
                let a = d0.timeslots@[j2].arenas@[k2];
                lemma_idx_of_props(t0.days@, id);
                let di = idx_of(t0.days@, id);
                assert(t0.days@[di] == d0);
                t0.lemma_arena_complete(di, j2, k2);
                assert(t0.spec_arena(a.id) == Some(a));
                assert(d0.wf());
                assert(a.id.day_id == id);
                assert(match t0.spec_group(gid) {
                    Some(grp) => grp.arena_slot == Some(a.id),
                    None => false,
                });
            }
        }
        self.days.remove(id);
        proof {
            let t2 = *self;
            assert(t2.days@ == remove_id(t1.days@, id));
            lemma_remove_id_props(t1.days@, id);
            assert(t1.days@.len() == t0.days@.len());
            assert(t2.days@ == remove_id(t0.days@, id)) by {
                assert forall|i: int|
                    0 <= i < t1.days@.len() && (#[trigger] t1.days@[i].spec_id()) != id implies t1
                    .days@[i] == t0.days@[i] by {
                    assert forall|j: int| 0 <= j < refs@.len() implies match t0.spec_group(
                        #[trigger] refs@[j],
                    ) {
                        Some(g) => match g.arena_slot {
                            Some(x) => idx_of(t0.days@, x.day_id) != i,
                            None => true,
                        },
                        None => true,
                    } by {
                        match t0.spec_group(refs@[j]) {
                            Some(g) => match g.arena_slot {
                                Some(x) => {
                                    assert(x.day_id == id);
                                    lemma_idx_of_props(t0.days@, id);
                                    assert(t0.days@[i].spec_id() == t1.days@[i].spec_id());
                                },
                                None => {},
                            },
                            None => {},
                        }
                    }
                }
                lemma_remove_id_pointwise(t1.days@, t0.days@, id);
            }
            Self::lemma_same_bewerbs(t1, t2);
            Self::lemma_same_fencers(t0, t2);
            assert forall|x: ArenaSlotId| #[trigger] t2.spec_arena(x) == if x.day_id == id {
                None::<ArenaSlot>
            } else {
                t0.spec_arena(x)
            } by {
                lemma_idx_of_props(t2.days@, x.day_id);
                lemma_idx_of_props(t1.days@, x.day_id);
                assert(find_id(t2.days@, x.day_id) == if x.day_id == id {
                    None::<Day>
                } else {
                    find_id(t1.days@, x.day_id)
                });
                if x.day_id != id {
                    assert(t1.spec_arena(x) == if (match t0.spec_arena(x) {
                        Some(a) => match a.group {
                            Some(gx) => key_in(refs@, gx.bewerb_id, gx.round_id, gx.group_id),
                            None => false,
                        },
                        None => false,
                    }) {
                        Some(t0.spec_arena(x).unwrap().with_group(None))
                    } else {
                        t0.spec_arena(x)
                    });
                    match t0.spec_arena(x) {
                        Some(a) => match a.group {
                            Some(gx) => {
                                if key_in(refs@, gx.bewerb_id, gx.round_id, gx.group_id) {
                                    let j = choose|j: int|
                                        0 <= j < refs@.len() && (#[trigger] refs@[j]).bewerb_id
                                            == gx.bewerb_id && refs@[j].round_id == gx.round_id
                                            && refs@[j].group_id == gx.group_id;
                                    assert(match t0.spec_group(gx) {
                                        Some(grp) => grp.arena_slot == Some(x),
                                        None => false,
                                    });
                                    assert(t0.spec_group(refs@[j]) == t0.spec_group(gx));
                                    assert(x.day_id == id);
                                    assert(false);
                                }
                            },
                            None => {},
                        },
                        None => {},
                    }
                }
            }
            assert forall|b: u32, r2: u32, g2: u32| #[trigger] t2.spec_group_n(b, r2, g2)
                == match t0.spec_group_n(b, r2, g2) {
                Some(g) => Some(
                    if (match g.arena_slot {
                        Some(x) => x.day_id == id,
                        None => false,
                    }) {
                        g.with_arena(None)
                    } else {
                        g
                    },
                ),
                None => None,
            } by {
                assert(t2.spec_group_n(b, r2, g2) == t1.spec_group_n(b, r2, g2));
                match t0.spec_group_n(b, r2, g2) {
                    Some(g) => {
                        match g.arena_slot {
                            Some(x) => {
                                if x.day_id == id {
                                    assert(match t0.spec_arena(x) {
                                        Some(a) => match a.group {
                                            Some(gx) => gx.bewerb_id == b && gx.round_id == r2
                                                && gx.group_id == g2,
                                            None => false,
                                        },
                                        None => false,
                                    });
                                    let a = t0.spec_arena(x).unwrap();
                                    let gx = a.group.unwrap();
                                    t0.lemma_spec_arena_id(x);
                                    assert(a.id == x);
                                    lemma_idx_of_props(t0.days@, id);
                                    let di = idx_of(t0.days@, id);
                                    lemma_idx_of_props(d0.timeslots@, x.timeslot_id);
                                    let tj = idx_of(d0.timeslots@, x.timeslot_id);
                                    let ts = d0.timeslots@[tj];
                                    lemma_idx_of_props(ts.arenas@, x.arena_slot_id);
                                    let ak = idx_of(ts.arenas@, x.arena_slot_id);
                                    crate::day::lemma_day_assigned_contains(d0);
                                    assert(d0.timeslots@[tj].arenas@[ak].group == Some(gx));
                                    assert(crate::day::day_assigned(d0).contains(gx));
                                    assert(refs@.contains(gx));
                                    let jj = choose|jj: int|
                                        0 <= jj < refs@.len() && refs@[jj] == gx;
                                    assert(refs@[jj].bewerb_id == b && refs@[jj].round_id == r2
                                        && refs@[jj].group_id == g2);
                                    assert(key_in(refs@, b, r2, g2));
                                } else {
                                    if key_in(refs@, b, r2, g2) {
                                        let j = choose|j: int|
                                            0 <= j < refs@.len() && (#[trigger] refs@[j]).bewerb_id
                                                == b && refs@[j].round_id == r2
                                                && refs@[j].group_id == g2;
                                        assert(match t0.spec_group(refs@[j]) {
                                            Some(gg) => match gg.arena_slot {
                                                Some(xx) => xx.day_id == id,
                                                None => true,
                                            },
                                            None => true,
                                        });
                                        assert(false);
                                    }
                                }
                            },
                            None => {
                                if key_in(refs@, b, r2, g2) {
                                    let j = choose|j: int|
                                        0 <= j < refs@.len() && (#[trigger] refs@[j]).bewerb_id
                                            == b && refs@[j].round_id == r2 && refs@[j].group_id
                                            == g2;
                                    assert(match t0.spec_group(refs@[j]) {
                                        Some(gg) => match gg.arena_slot {
                                            Some(xx) => xx.day_id == id,
                                            None => true,
                                        },
                                        None => true,
                                    });
                                    assert(g.with_arena(None) == g);
                                }
                            },
                        }
                    },
                    None => {},
                }
            }
            assert(t2.hier_wf()) by {
                lemma_remove_id_props(t1.days@, id);
                assert forall|i: int| 0 <= i < t2.days@.len() implies (
                #[trigger] t2.days@[i]).wf() by {
                    assert(has_id(t1.days@, t2.days@[i].spec_id()));
                    let w = choose|w: int|
                        0 <= w < t1.days@.len() && (#[trigger] t1.days@[w].spec_id())
                            == t2.days@[i].spec_id();
                    assert(find_id(t2.days@, t2.days@[i].spec_id()) == find_id(
                        t1.days@,
                        t2.days@[i].spec_id(),
                    ));
                    lemma_find_complete(t2.days@, i);
                    lemma_idx_of_props(t1.days@, t2.days@[i].spec_id());
                    assert(t2.days@[i] == t1.days@[idx_of(t1.days@, t2.days@[i].spec_id())]);
                }
            }
            assert(t2.links_wf()) by {
                assert forall|aid: ArenaSlotId|
                    match #[trigger] t2.spec_arena(aid) {
                        Some(a) => match a.group {
                            Some(gid) => match t2.spec_group(gid) {
                                Some(grp) => grp.arena_slot == Some(aid),
                                None => false,
                            },
                            None => true,
                        },
                        None => true,
                    } by {
                    if aid.day_id != id {
                        match t1.spec_arena(aid) {
                            Some(a) => match a.group {
                                Some(gid) => {
                                    assert(match t1.spec_group(gid) {
                                        Some(grp) => grp.arena_slot == Some(aid),
                                        None => false,
                                    });
                                    assert(t2.spec_group(gid) == t1.spec_group(gid));
                                },
                                None => {},
                            },
                            None => {},
                        }
                    }
                }
                assert forall|b: u32, r2: u32, g2: u32|
                    match #[trigger] t2.spec_group_n(b, r2, g2) {
                        Some(grp) => match grp.arena_slot {
                            Some(aid) => match t2.spec_arena(aid) {
                                Some(a) => match a.group {
                                    Some(gid) => gid.bewerb_id == b && gid.round_id == r2
                                        && gid.group_id == g2,
                                    None => false,
                                },
                                None => false,
                            },
                            None => true,
                        },
                        None => true,
                    } by {
                    match t2.spec_group_n(b, r2, g2) {
                        Some(grp) => match grp.arena_slot {
                            Some(aid) => {
                                assert(match t0.spec_group_n(b, r2, g2) {
                                    Some(gg) => true,
                                    None => false,
                                });
                                let g = t0.spec_group_n(b, r2, g2).unwrap();
                                assert(g.arena_slot == Some(aid));
                                assert(!(match g.arena_slot {
                                    Some(x) => x.day_id == id,
                                    None => false,
                                }));
                                assert(aid.day_id != id);
                                assert(t2.spec_arena(aid) == t0.spec_arena(aid));
                                assert(match t0.spec_arena(aid) {
                                    Some(a) => match a.group {
                                        Some(gid) => gid.bewerb_id == b && gid.round_id == r2
                                            && gid.group_id == g2,
                                        None => false,
                                    },
                                    None => false,
                                });
                            },
                            None => {},
                        },
                        None => {},
                    }
                }
            }
            assert(t2.roster_wf()) by {
                Self::lemma_same_fencers(t0, t2);
            }
        }
    }

    /// Summaries of all days, in insertion order.
    pub fn get_simple_days(&self) -> (r: Vec<SimpleDay>)
        ensures
            r@ == self.days@.map_values(|d: Day| d.to_simple_spec()),
    {
        let mut out: Vec<SimpleDay> = Vec::new();
        let n = self.days.len();
        let mut i: usize = 0;
        while i < n
            invariant
                i <= n,
                n == self.days@.len(),
                out@ == self.days@.take(i as int).map_values(|d: Day| d.to_simple_spec()),
            decreases n - i,
        {
            out.push(self.days.at(i).to_simple());
            proof {
                assert(self.days@.take(i + 1).drop_last() =~= self.days@.take(i as int));
                assert(self.days@.take(i + 1).map_values(|d: Day| d.to_simple_spec())
                    =~= self.days@.take(i as int).map_values(|d: Day| d.to_simple_spec()).push(
                    self.days@[i as int].to_simple_spec(),
                ));
            }
            i = i + 1;
        }
        proof {
            assert(self.days@.take(n as int) =~= self.days@);
        }
        out
    }

    /// The full grid of the day `id`, or `InvalidInput` if there is no such
    /// day.
    pub fn get_day_data(&self, id: u32) -> (r: Result<DayData, Error>)
        ensures
            match r {
                Ok(dd) => match self.spec_day(id) {
                    Some(d) => dd.timeslots@.len() == d.timeslots@.len() && (forall|j: int|
                        0 <= j < d.timeslots@.len() ==> crate::day::ts_data_of(
                            #[trigger] d.timeslots@[j],
                            dd.timeslots@[j],
                        )),
                    None => false,
                },
                Err(e) => e == Error::InvalidInput && self.spec_day(id) is None,
            },
    {
        match self.days.get(id) {
            Some(d) => Ok(d.to_data()),
            None => Err(Error::InvalidInput),
        }
    }

    /// Adds an event under the smallest unused event id, with `n_rounds`
    /// rounds of `n_groups` groups each, all groups free.
    pub fn add_bewerb(&mut self, name: String, n_rounds: u32, n_groups: u32)
        requires
            old(self).wf(),
            old(self).bewerbs@.len() < u32::MAX,
        ensures
            final(self).wf(),
            final(self).bewerbs@.len() == old(self).bewerbs@.len() + 1,
            final(self).bewerbs@.subrange(0, old(self).bewerbs@.len() as int) == old(self).bewerbs@,
            is_fresh_id(old(self).bewerbs@, fresh_id(old(self).bewerbs@)),
            ({
                let nb = final(self).bewerbs@.last();
                let nid = fresh_id(old(self).bewerbs@);
                &&& nb.id == (BewerbId { bewerb_name: name, bewerb_id: nid })
                &&& nb.n_rounds == n_rounds
                &&& nb.n_groups == n_groups
                &&& nb.rounds@.len() == n_rounds
                &&& (forall|j: int|
                    0 <= j < n_rounds ==> ((#[trigger] nb.rounds@[j]).id
                        == (crate::round::RoundId {
                        bewerb_name: name,
                        bewerb_id: nid,
                        round_id: j as u32,
                    }) && nb.rounds@[j].groups@.len() == n_groups))
                &&& (forall|j: int, k: int|
                    0 <= j < n_rounds && 0 <= k < n_groups ==> ((
                    #[trigger] nb.rounds@[j].groups@[k]).id == (GroupId {
                        bewerb_name: name,
                        bewerb_id: nid,
                        round_id: j as u32,
                        group_id: k as u32,
                    }) && nb.rounds@[j].groups@[k].arena_slot is None
                        && nb.rounds@[j].groups@[k].fencers@ == Seq::<u32>::empty()))
            }),
            final(self).days == old(self).days,
            final(self).fencers == old(self).fencers,
            final(self).inner == old(self).inner,
    {
        let ghost bs0 = self.bewerbs@;
        let ghost t0 = *self;
        let id = self.bewerbs.get_next_id();
        let b = Bewerb::new(id, name, n_rounds, n_groups);
        self.bewerbs.insert(b);
        proof {
            let nb = self.bewerbs@.last();
            assert(self.bewerbs@ == bs0.push(nb));
            assert(self.bewerbs@.subrange(0, bs0.len() as int) =~= bs0);
            lemma_find_id_push(bs0, nb);
            lemma_idx_of_props(bs0, id);
            Self::lemma_same_days(t0, *self);
            Self::lemma_same_fencers(t0, *self);
            assert(!has_id(bs0, id));
            assert(unique_ids(self.bewerbs@));
            assert forall|i: int| 0 <= i < self.bewerbs@.len() implies (
            #[trigger] self.bewerbs@[i]).wf() by {
                if i < bs0.len() {
                    assert(self.bewerbs@[i] == bs0[i]);
                }
            }
            assert forall|bq: u32, r: u32, g: u32| bq != id implies #[trigger] self.spec_group_n(
                bq,
                r,
                g,
            ) == t0.spec_group_n(bq, r, g) by {
                lemma_idx_of_props(bs0, bq);
                assert(find_id(self.bewerbs@, bq) == find_id(bs0, bq));
            }
            assert forall|bq: u32, r: u32, g: u32|
                match #[trigger] self.spec_group_n(bq, r, g) {
                    Some(grp) => grp.arena_slot is None || t0.spec_group_n(bq, r, g) == Some(
                        grp,
                    ),
                    None => true,
                } by {
                if bq == id {
                    assert(find_id(self.bewerbs@, bq) == Some(nb));
                    lemma_idx_of_props(nb.rounds@, r);
                    match find_id(nb.rounds@, r) {
                        Some(rd) => {
                            let j = idx_of(nb.rounds@, r);
                            assert(rd == nb.rounds@[j]);
                            lemma_idx_of_props(rd.groups@, g);
                            match find_id(rd.groups@, g) {
                                Some(grp) => {
                                    let k = idx_of(rd.groups@, g);
                                    assert(grp == nb.rounds@[j].groups@[k]);
                                },
                                None => {},
                            }
                        },
                        None => {},
                    }
                }
            }
            assert(self.links_wf()) by {
                assert forall|aid: ArenaSlotId|
                    match #[trigger] self.spec_arena(aid) {
                        Some(a) => match a.group {
                            Some(gid) => match self.spec_group(gid) {
                                Some(grp) => grp.arena_slot == Some(aid),
                                None => false,
                            },
                            None => true,
                        },
                        None => true,
                    } by {
                    match self.spec_arena(aid) {
                        Some(a) => match a.group {
                            Some(gid) => {
                                assert(t0.spec_arena(aid) == Some(a));
                                if gid.bewerb_id == id {
                                    assert(find_id(bs0, id) is None);
                                    assert(t0.spec_group(gid) is None);
                                    assert(false);
                                }
                                assert(self.spec_group(gid) == t0.spec_group(gid));
                            },
                            None => {},
                        },
                        None => {},
                    }
                }
                assert forall|bq: u32, r: u32, g: u32|
                    match #[trigger] self.spec_group_n(bq, r, g) {
                        Some(grp) => match grp.arena_slot {
                            Some(aid) => match self.spec_arena(aid) {
                                Some(a) => match a.group {
                                    Some(gid) => gid.bewerb_id == bq && gid.round_id == r
                                        && gid.group_id == g,
                                    None => false,
                                },
                                None => false,
                            },
                            None => true,
                        },
                        None => true,
                    } by {
                    match self.spec_group_n(bq, r, g) {
                        Some(grp) => match grp.arena_slot {
                            Some(aid) => {
                                assert(t0.spec_group_n(bq, r, g) == Some(grp));
                                assert(self.spec_arena(aid) == t0.spec_arena(aid));
                            },
                            None => {},
                        },
                        None => {},
                    }
                }
            }
            assert(self.roster_wf()) by {
                Self::lemma_same_fencers(t0, *self);
            }
        }
    }

    /// Deletes the event `id` and, first, frees every arena slot any of its
    /// groups occupied (invariant 4).  No-op if the id is unknown.
    pub fn remove_bewerb(&mut self, id: u32)
        requires
            old(self).wf(),
        ensures
            final(self).wf(),
            final(self).bewerbs@ == remove_id(old(self).bewerbs@, id),
            final(self).fencers == old(self).fencers,
            final(self).inner == old(self).inner,
            final(self).days@.len() == old(self).days@.len(),
            forall|i: int|
                0 <= i < old(self).days@.len() ==> ((#[trigger] final(self).days@[i]).id == old(self).days@[i].id && final(self).days@[i].date == old(self).days@[i].date && final(self).days@[i].n_ts == old(self).days@[i].n_ts && final(self).days@[i].n_kp == old(self).days@[i].n_kp),
            forall|x: ArenaSlotId| #[trigger] final(self).spec_arena(x) == match old(self).spec_arena(x) {
                Some(a) => Some(
                    if (match a.group {
                        Some(gx) => gx.bewerb_id == id,
                        None => false,
                    }) {
                        a.with_group(None)
                    } else {
                        a
                    },
                ),
                None => None,
            },
            forall|b: u32, r2: u32, g2: u32| #[trigger] final(self).spec_group_n(b, r2, g2)
                == if b == id {
                None::<Group>
            } else {
                old(self).spec_group_n(b, r2, g2)
            },
            forall|i: int|
                0 <= i < old(self).days@.len() && (forall|j: int, k: int|
                    0 <= j < old(self).days@[i].timeslots@.len() && 0 <= k
                        < old(self).days@[i].timeslots@[j].arenas@.len()
                        ==> (match (#[trigger] old(self).days@[i].timeslots@[j].arenas@[k].group) {
                        Some(gx) => gx.bewerb_id != id,
                        None => true,
                    })) ==> #[trigger] final(self).days@[i] == old(self).days@[i],
    {
        let refs = match self.bewerbs.get(id) {
            Some(b) => b.get_all_groups(),
            None => {
                proof {
                    lemma_idx_of_props(self.bewerbs@, id);
                    crate::container::lemma_remove_id_absent(self.bewerbs@, id);
                    assert forall|x: ArenaSlotId|
                        match #[trigger] self.spec_arena(x) {
                            Some(a) => match a.group {
                                Some(gx) => gx.bewerb_id != id,
                                None => true,
                            },
                            None => true,
                        } by {
                        match self.spec_arena(x) {
                            Some(a) => match a.group {
                                Some(gx) => {
                                    assert(match self.spec_arena(x) {
                                        Some(a2) => match a2.group {
                                            Some(g3) => match self.spec_group(g3) {
                                                Some(grp) => grp.arena_slot == Some(x),
                                                None => false,
                                            },
                                            None => true,
                                        },
                                        None => true,
                                    });
                                    if gx.bewerb_id == id {
                                        assert(self.spec_group(gx) is None);
                                        assert(false);
                                    }
                                },
                                None => {},
                            },
                            None => {},
                        }
                    }
                }
                return ;
            },
        };
        let ghost t0 = *self;
        let ghost b0 = t0.spec_bewerb(id).unwrap();
        proof {
            crate::bewerb::lemma_all_group_ids_contains(b0.rounds@);
            lemma_idx_of_props(t0.bewerbs@, id);
            assert(b0.wf());
            assert forall|j: int| 0 <= j < refs@.len() implies (#[trigger] refs@[j]).bewerb_id
                == id by {
                assert(all_group_ids(b0.rounds@).contains(refs@[j]));
                let (j2, k2): (int, int) = choose|j2: int, k2: int|
                    0 <= j2 < b0.rounds@.len() && 0 <= k2 < b0.rounds@[j2].groups@.len() && (
                    #[trigger] b0.rounds@[j2].groups@[k2].id) == refs@[j];
                assert(b0.rounds@[j2].wf());
            }
        }
        self.free_all(&refs);
        let ghost t1 = *self;
        self.bewerbs.remove(id);
        proof {
            let t2 = *self;
            let bi = idx_of(t0.bewerbs@, id);
            assert(t2.bewerbs@ == remove_id(t1.bewerbs@, id));
            assert(t2.bewerbs@ == remove_id(t0.bewerbs@, id)) by {
                assert forall|i: int|
                    0 <= i < t1.bewerbs@.len() && (#[trigger] t1.bewerbs@[i].spec_id())
                        != id implies t1.bewerbs@[i] == t0.bewerbs@[i] by {
                    assert forall|j: int| 0 <= j < refs@.len() implies idx_of(
                        t0.bewerbs@,
                        (#[trigger] refs@[j]).bewerb_id,
                    ) != i by {
                        assert(refs@[j].bewerb_id == id);
                        assert(t1.bewerbs@[i].spec_id() == t0.bewerbs@[i].spec_id());
                        lemma_idx_of_props(t0.bewerbs@, id);
                    }
                }
                lemma_remove_id_pointwise(t1.bewerbs@, t0.bewerbs@, id);
            }
            lemma_remove_id_props(t1.bewerbs@, id);
            Self::lemma_same_days(t1, t2);
            Self::lemma_same_fencers(t0, t2);
            assert(t2.days@ == t1.days@);
            assert forall|i: int|
                0 <= i < t0.days@.len() && (forall|j: int, k: int|
                    0 <= j < t0.days@[i].timeslots@.len() && 0 <= k
                        < t0.days@[i].timeslots@[j].arenas@.len()
                        ==> (match (#[trigger] t0.days@[i].timeslots@[j].arenas@[k].group) {
                        Some(gx) => gx.bewerb_id != id,
                        None => true,
                    })) implies #[trigger] t2.days@[i] == t0.days@[i] by {
                assert forall|jr: int| 0 <= jr < refs@.len() implies match t0.spec_group(
                    #[trigger] refs@[jr],
                ) {
                    Some(g) => match g.arena_slot {
                        Some(x) => idx_of(t0.days@, x.day_id) != i,
                        None => true,
                    },
                    None => true,
                } by {
                    match t0.spec_group(refs@[jr]) {
                        Some(g) => match g.arena_slot {
                            Some(x) => {
                                if idx_of(t0.days@, x.day_id) == i {
                                    assert(refs@[jr].bewerb_id == id);
                                    assert(match t0.spec_group_n(
                                        refs@[jr].bewerb_id,
                                        refs@[jr].round_id,
                                        refs@[jr].group_id,
                                    ) {
                                        Some(gg) => match gg.arena_slot {
                                            Some(ax) => match t0.spec_arena(ax) {
                                                Some(aa) => match aa.group {
                                                    Some(gid) => gid.bewerb_id
                                                        == refs@[jr].bewerb_id && gid.round_id
                                                        == refs@[jr].round_id && gid.group_id
                                                        == refs@[jr].group_id,
                                                    None => false,
                                                },
                                                None => false,
                                            },
                                            None => true,
                                        },
                                        None => true,
                                    });
                                    let aa = t0.spec_arena(x).unwrap();
                                    lemma_idx_of_props(t0.days@, x.day_id);
                                    let d = t0.days@[i];
                                    assert(find_id(t0.days@, x.day_id) == Some(d));
                                    lemma_idx_of_props(d.timeslots@, x.timeslot_id);
                                    let tj = idx_of(d.timeslots@, x.timeslot_id);
                                    let ts = d.timeslots@[tj];
                                    lemma_idx_of_props(ts.arenas@, x.arena_slot_id);
                                    let ak = idx_of(ts.arenas@, x.arena_slot_id);
                                    assert(t0.days@[i].timeslots@[tj].arenas@[ak] == aa);
                                    assert(match t0.days@[i].timeslots@[tj].arenas@[ak].group {
                                        Some(gx) => gx.bewerb_id != id,
                                        None => true,
                                    });
                                    assert(false);
                                }
                            },
                            None => {},
                        },
                        None => {},
                    }
                }
                assert(t1.days@[i] == t0.days@[i]);
            }
            assert forall|b: u32, r2: u32, g2: u32| #[trigger] key_in(refs@, b, r2, g2) implies b
                == id by {
                let j = choose|j: int|
                    0 <= j < refs@.len() && (#[trigger] refs@[j]).bewerb_id == b
                        && refs@[j].round_id == r2 && refs@[j].group_id == g2;
            }
            assert forall|r2: u32, g2: u32|
                match #[trigger] t0.spec_group_n(id, r2, g2) {
                    Some(g) => key_in(refs@, id, r2, g2),
                    None => true,
                } by {
                match t0.spec_group_n(id, r2, g2) {
                    Some(g) => {
                        t0.lemma_spec_group_ids(id, r2, g2);
                        lemma_idx_of_props(b0.rounds@, r2);
                        match find_id(b0.rounds@, r2) {
                            Some(rd) => {
                                let rj = idx_of(b0.rounds@, r2);
                                lemma_idx_of_props(rd.groups@, g2);
                                match find_id(rd.groups@, g2) {
                                    Some(grp) => {
                                        let gk = idx_of(rd.groups@, g2);
                                        assert(b0.rounds@[rj].groups@[gk] == grp);
                                        assert(grp.id.bewerb_id == id && grp.id.round_id == r2
                                            && grp.id.group_id == g2);
                                        assert(all_group_ids(b0.rounds@).contains(grp.id));
                                        let jj = choose|jj: int|
                                            0 <= jj < refs@.len() && refs@[jj] == grp.id;
                                        assert(refs@[jj].bewerb_id == id && refs@[jj].round_id
                                            == r2 && refs@[jj].group_id == g2);
                                    },
                                    None => {
                                        assert(false);
                                    },
                                }
                            },
                            None => {
                                assert(false);
                            },
                        }
                    },
                    None => {},
                }
            }
            assert forall|x: ArenaSlotId| #[trigger] t2.spec_arena(x) == match t0.spec_arena(x) {
                Some(a) => Some(
                    if (match a.group {
                        Some(gx) => gx.bewerb_id == id,
                        None => false,
                    }) {
                        a.with_group(None)
                    } else {
                        a
                    },
                ),
                None => None,
            } by {
                assert(t2.spec_arena(x) == t1.spec_arena(x));
                match t0.spec_arena(x) {
                    Some(a) => match a.group {
                        Some(gx) => {
                            if gx.bewerb_id == id {
                                assert(match t0.spec_arena(x) {
                                    Some(a2) => match a2.group {
                                        Some(g3) => match t0.spec_group(g3) {
                                            Some(grp) => grp.arena_slot == Some(x),
                                            None => false,
                                        },
                                        None => true,
                                    },
                                    None => true,
                                });
                                assert(t0.spec_group_n(gx.bewerb_id, gx.round_id, gx.group_id)
                                    is Some);
                                assert(key_in(refs@, gx.bewerb_id, gx.round_id, gx.group_id));
                            } else {
                                if key_in(refs@, gx.bewerb_id, gx.round_id, gx.group_id) {
                                    assert(false);
                                }
                            }
                        },
                        None => {},
                    },
                    None => {},
                }
            }
            assert forall|b: u32, r2: u32, g2: u32| #[trigger] t2.spec_group_n(b, r2, g2) == if b
                == id {
                None::<Group>
            } else {
                t0.spec_group_n(b, r2, g2)
            } by {
                lemma_idx_of_props(t1.bewerbs@, b);
                lemma_idx_of_props(t2.bewerbs@, b);
                if b != id {
                    if key_in(refs@, b, r2, g2) {
                        assert(false);
                    }
                    assert(find_id(remove_id(t1.bewerbs@, id), b) == find_id(t1.bewerbs@, b));
                    assert(t1.spec_group_n(b, r2, g2) == t0.spec_group_n(b, r2, g2));
                    assert(t2.spec_group_n(b, r2, g2) == t1.spec_group_n(b, r2, g2));
                } else {
                    assert(!has_id(t2.bewerbs@, id));
                    assert(find_id(t2.bewerbs@, b) is None);
                }
            }
            assert(t2.hier_wf()) by {
                assert forall|i: int| 0 <= i < t2.bewerbs@.len() implies (
                #[trigger] t2.bewerbs@[i]).wf() by {
                    assert(has_id(t1.bewerbs@, t2.bewerbs@[i].spec_id()));
                    lemma_find_complete(t2.bewerbs@, i);
                    lemma_idx_of_props(t1.bewerbs@, t2.bewerbs@[i].spec_id());
                    assert(t2.bewerbs@[i] == t1.bewerbs@[idx_of(
                        t1.bewerbs@,
                        t2.bewerbs@[i].spec_id(),
                    )]);
                }
            }
            assert(t2.links_wf()) by {
                assert forall|aid: ArenaSlotId|
                    match #[trigger] t2.spec_arena(aid) {
                        Some(a) => match a.group {
                            Some(gid) => match t2.spec_group(gid) {
                                Some(grp) => grp.arena_slot == Some(aid),
                                None => false,
                            },
                            None => true,
                        },
                        None => true,
                    } by {
                    match t2.spec_arena(aid) {
                        Some(a) => match a.group {
                            Some(gid) => {
                                assert(match t0.spec_arena(aid) {
                                    Some(a0) => true,
                                    None => false,
                                });
                                let a0 = t0.spec_arena(aid).unwrap();
                                assert(a0.group == Some(gid) && gid.bewerb_id != id);
                                assert(match t0.spec_group(gid) {
                                    Some(grp) => grp.arena_slot == Some(aid),
                                    None => false,
                                });
                                assert(t2.spec_group(gid) == t0.spec_group(gid));
                            },
                            None => {},
                        },
                        None => {},
                    }
                }
                assert forall|b: u32, r2: u32, g2: u32|
                    match #[trigger] t2.spec_group_n(b, r2, g2) {
                        Some(grp) => match grp.arena_slot {
                            Some(aid) => match t2.spec_arena(aid) {
                                Some(a) => match a.group {
                                    Some(gid) => gid.bewerb_id == b && gid.round_id == r2
                                        && gid.group_id == g2,
                                    None => false,
                                },
                                None => false,
                            },
                            None => true,
                        },
                        None => true,
                    } by {
                    match t2.spec_group_n(b, r2, g2) {
                        Some(grp) => match grp.arena_slot {
                            Some(aid) => {
                                assert(b != id);
                                assert(t0.spec_group_n(b, r2, g2) == Some(grp));
                                assert(match t0.spec_group_n(b, r2, g2) {
                                    Some(gg) => match gg.arena_slot {
                                        Some(ax) => match t0.spec_arena(ax) {
                                            Some(aa) => match aa.group {
                                                Some(gx) => gx.bewerb_id == b && gx.round_id
                                                    == r2 && gx.group_id == g2,
                                                None => false,
                                            },
                                            None => false,
                                        },
                                        None => true,
                                    },
                                    None => true,
                                });
                            },
                            None => {},
                        },
                        None => {},
                    }
                }
            }
            assert(t2.roster_wf()) by {
                Self::lemma_same_fencers(t0, t2);
            }
        }
    }

    /// Summaries of all events, in insertion order.
    pub fn get_bewerbs(&self) -> (r: Vec<SimpleBewerbData>)
        ensures
            r@.len() == self.bewerbs@.len(),
            forall|i: int|
                0 <= i < self.bewerbs@.len() ==> ((#[trigger] r@[i]).id
                    == self.bewerbs@[i].id.bewerb_id && r@[i].name
                    == self.bewerbs@[i].id.bewerb_name && r@[i].n_rounds
                    == self.bewerbs@[i].n_rounds && r@[i].n_groups == self.bewerbs@[i].n_groups),
    {
        let mut out: Vec<SimpleBewerbData> = Vec::new();
        let n = self.bewerbs.len();
        let mut i: usize = 0;
        while i < n
            invariant
                i <= n,
                n == self.bewerbs@.len(),
                out@.len() == i,
                forall|j: int|
                    0 <= j < i ==> ((#[trigger] out@[j]).id == self.bewerbs@[j].id.bewerb_id
                        && out@[j].name == self.bewerbs@[j].id.bewerb_name && out@[j].n_rounds
                        == self.bewerbs@[j].n_rounds && out@[j].n_groups
                        == self.bewerbs@[j].n_groups),
            decreases n - i,
        {
            out.push(self.bewerbs.at(i).to_simple());
            i = i + 1;
        }
        out
    }

    /// The event with identifier `id`, if any.
    pub fn get_bewerb(&self, id: u32) -> (r: Option<&Bewerb>)
        ensures
            match r {
                Some(b) => self.spec_bewerb(id) == Some(*b),
                None => self.spec_bewerb(id) is None,
            },
    {
        self.bewerbs.get(id)
    }

    /// The roster in its wire-facing form.  Always succeeds.
    pub fn get_all_fencers(&self) -> (r: Result<Vec<SimpleFencer>, Error>)
        ensures
            match r {
                Ok(fs) => fs@.len() == self.fencers.fencers@.len() && (forall|j: int|
                    0 <= j < fs@.len() ==> ((#[trigger] fs@[j]).id == self.fencers.fencers@[j].id
                        && fs@[j].name == self.fencers.fencers@[j].name && fs@[j].bewerbs@
                        == self.fencers.fencers@[j].bewerbs@.map_values(
                        |bg: BewerbGroup| bg.bewerb_id,
                    ))),
                Err(_) => false,
            },
    {
        Ok(self.fencers.to_simple())
    }

    /// Writes `v` into the recorded-group field of the arena slot `aid`
    /// addresses; everything else in the graph is untouched.
    fn set_arena_group(&mut self, aid: &ArenaSlotId, v: Option<GroupId>) -> (ok: bool)
        ensures
            ok == (old(self).spec_arena(*aid) is Some),
            !ok ==> *final(self) == *old(self),
            ok ==> ({
                let a0 = old(self).spec_arena(*aid).unwrap();
                &&& final(self).spec_arena(*aid) == Some(a0.with_group(v))
                &&& (forall|x: ArenaSlotId|
                    x != *aid ==> #[trigger] final(self).spec_arena(x) == old(self).spec_arena(x))
                &&& final(self).bewerbs == old(self).bewerbs
                &&& final(self).fencers == old(self).fencers
                &&& final(self).inner == old(self).inner
                &&& final(self).days@.len() == old(self).days@.len()
                &&& (forall|i: int|
                    0 <= i < old(self).days@.len() ==> ((#[trigger] final(self).days@[i]).id
                        == old(self).days@[i].id && final(self).days@[i].date
                        == old(self).days@[i].date && final(self).days@[i].n_ts
                        == old(self).days@[i].n_ts && final(self).days@[i].n_kp
                        == old(self).days@[i].n_kp))
                &&& (forall|i: int|
                    0 <= i < old(self).days@.len() && i != idx_of(old(self).days@, aid.day_id)
                        ==> final(self).days@[i] == old(self).days@[i])
                &&& (old(self).hier_wf() ==> final(self).hier_wf())
            }),
    {
        let di = match self.days.index_of(aid.day_id) {
            Some(i) => i,
            None => {
                return false;
            },
        };
        let ti = match find_index(&self.days.at(di).timeslots, aid.timeslot_id) {
            Some(i) => i,
            None => {
                return false;
            },
        };
        let ai = match find_index(&self.days.at(di).timeslots[ti].arenas, aid.arena_slot_id) {
            Some(i) => i,
            None => {
                return false;
            },
        };
        let ghost days0 = self.days@;
        let ghost day0 = self.days@[di as int];
        let ghost ts0 = day0.timeslots@[ti as int];
        let ghost a0 = ts0.arenas@[ai as int];
        let day = self.days.at_mut(di);
        let ts = crate::container::elem_mut(&mut day.timeslots, ti);
        let a = crate::container::elem_mut(&mut ts.arenas, ai);
        a.group = v;
        proof {
            let daysn = self.days@;
            let dayn = daysn[di as int];
            let tsn = dayn.timeslots@[ti as int];
            let an = tsn.arenas@[ai as int];
            lemma_idx_of_props(days0, aid.day_id);
            lemma_idx_of_props(day0.timeslots@, aid.timeslot_id);
            lemma_idx_of_props(ts0.arenas@, aid.arena_slot_id);
            assert(daysn == days0.update(di as int, dayn));
            assert(dayn.timeslots@ == day0.timeslots@.update(ti as int, tsn));
            assert(tsn.arenas@ == ts0.arenas@.update(ai as int, an));
            assert(an == a0.with_group(v));
            assert(old(self).spec_arena(*aid) == Some(a0));
            lemma_find_id_update(days0, di as int, dayn);
            lemma_find_id_update(day0.timeslots@, ti as int, tsn);
            lemma_find_id_update(ts0.arenas@, ai as int, an);
            assert forall|x: ArenaSlotId| x != *aid implies #[trigger] self.spec_arena(x) == old(self).spec_arena(x) by {
                assert(find_id(daysn, x.day_id) == if x.day_id == day0.spec_id() {
                    Some(dayn)
                } else {
                    find_id(days0, x.day_id)
                });
                if x.day_id == aid.day_id {
                    assert(find_id(dayn.timeslots@, x.timeslot_id) == if x.timeslot_id
                        == ts0.spec_id() {
                        Some(tsn)
                    } else {
                        find_id(day0.timeslots@, x.timeslot_id)
                    });
                    if x.timeslot_id == aid.timeslot_id {
                        assert(find_id(tsn.arenas@, x.arena_slot_id) == if x.arena_slot_id
                            == a0.spec_id() {
                            Some(an)
                        } else {
                            find_id(ts0.arenas@, x.arena_slot_id)
                        });
                        assert(x.arena_slot_id != aid.arena_slot_id);
                    }
                }
            }
            assert(self.spec_arena(*aid) == Some(an));
            if old(self).hier_wf() {
                assert forall|i: int| 0 <= i < daysn.len() implies (
                #[trigger] daysn[i]).wf() by {
                    if i == di {
                        assert(day0.wf());
                        assert(ts0.wf());
                        assert forall|j: int| 0 <= j < dayn.timeslots@.len() implies (
                        #[trigger] dayn.timeslots@[j]).id.day_id == dayn.id
                            && dayn.timeslots@[j].wf() by {
                            if j == ti {
                                assert(tsn.id == ts0.id);
                                assert forall|k: int| 0 <= k < tsn.arenas@.len() implies (
                                #[trigger] tsn.arenas@[k]).id.day_id == tsn.id.day_id
                                    && tsn.arenas@[k].id.timeslot_id == tsn.id.timeslot_id by {
                                    if k != ai {
                                        assert(tsn.arenas@[k] == ts0.arenas@[k]);
                                    }
                                }
                                assert forall|k1: int, k2: int|
                                    0 <= k1 < k2 < tsn.arenas@.len() implies (
                                #[trigger] tsn.arenas@[k1].spec_id()) != (
                                #[trigger] tsn.arenas@[k2].spec_id()) by {
                                    assert(tsn.arenas@[k1].spec_id() == ts0.arenas@[k1].spec_id());
                                    assert(tsn.arenas@[k2].spec_id() == ts0.arenas@[k2].spec_id());
                                }
                            } else {
                                assert(dayn.timeslots@[j] == day0.timeslots@[j]);
                            }
                        }
                        assert forall|j1: int, j2: int|
                            0 <= j1 < j2 < dayn.timeslots@.len() implies (
                        #[trigger] dayn.timeslots@[j1].spec_id()) != (
                        #[trigger] dayn.timeslots@[j2].spec_id()) by {
                            assert(dayn.timeslots@[j1].spec_id()
                                == day0.timeslots@[j1].spec_id());
                            assert(dayn.timeslots@[j2].spec_id()
                                == day0.timeslots@[j2].spec_id());
                        }
                        assert(dayn.wf());
                    } else {
                        assert(daysn[i] == days0[i]);
                    }
                }
                assert forall|i1: int, i2: int| 0 <= i1 < i2 < daysn.len() implies (
                #[trigger] daysn[i1].spec_id()) != (#[trigger] daysn[i2].spec_id()) by {
                    assert(daysn[i1].spec_id() == days0[i1].spec_id());
                    assert(daysn[i2].spec_id() == days0[i2].spec_id());
                }
            }
        }
        true
    }

    /// Applies `c` to the group `gid` addresses; everything else in the graph
    /// is untouched.
    fn edit_group(&mut self, gid: &GroupId, c: GroupChange) -> (ok: bool)
        ensures
            ok == (old(self).spec_group(*gid) is Some),
            !ok ==> *final(self) == *old(self),
            ok ==> ({
                let g0 = old(self).spec_group(*gid).unwrap();
                &&& final(self).spec_group(*gid) is Some
                &&& group_changed(g0, c, final(self).spec_group(*gid).unwrap())
                &&& (forall|b: u32, r: u32, g: u32|
                    !(b == gid.bewerb_id && r == gid.round_id && g == gid.group_id)
                        ==> #[trigger] final(self).spec_group_n(b, r, g) == old(self).spec_group_n(b, r, g))
                &&& final(self).days == old(self).days
                &&& final(self).fencers == old(self).fencers
                &&& final(self).inner == old(self).inner
                &&& final(self).bewerbs@.len() == old(self).bewerbs@.len()
                &&& (forall|i: int|
                    0 <= i < old(self).bewerbs@.len() ==> ((#[trigger] final(self).bewerbs@[i]).id
                        == old(self).bewerbs@[i].id && final(self).bewerbs@[i].n_rounds
                        == old(self).bewerbs@[i].n_rounds && final(self).bewerbs@[i].n_groups
                        == old(self).bewerbs@[i].n_groups))
                &&& (forall|i: int|
                    0 <= i < old(self).bewerbs@.len() && i != idx_of(
                        old(self).bewerbs@,
                        gid.bewerb_id,
                    ) ==> final(self).bewerbs@[i] == old(self).bewerbs@[i])
                &&& (old(self).hier_wf() ==> final(self).hier_wf())
            }),
    {
        let bi = match self.bewerbs.index_of(gid.bewerb_id) {
            Some(i) => i,
            None => {
                return false;
            },
        };
        let ri = match self.bewerbs.at(bi).rounds.index_of(gid.round_id) {
            Some(i) => i,
            None => {
                return false;
            },
        };
        let gi = match find_index(&self.bewerbs.at(bi).rounds.at(ri).groups, gid.group_id) {
            Some(i) => i,
            None => {
                return false;
            },
        };
        let ghost bs0 = self.bewerbs@;
        let ghost b0 = self.bewerbs@[bi as int];
        let ghost r0 = b0.rounds@[ri as int];
        let ghost g0 = r0.groups@[gi as int];
        let bw = self.bewerbs.at_mut(bi);
        let rd = bw.rounds.at_mut(ri);
        let g = crate::container::elem_mut(&mut rd.groups, gi);
        match c {
            GroupChange::SetArena(v) => {
                g.set_arena(v);
            },
            GroupChange::AddFencer(f) => {
                g.add_fencer(f);
            },
            GroupChange::RemoveFencer(f) => {
                g.remove_fencer(f);
            },
        }
        proof {
            let bsn = self.bewerbs@;
            let bn = bsn[bi as int];
            let rn = bn.rounds@[ri as int];
            let gn = rn.groups@[gi as int];
            lemma_idx_of_props(bs0, gid.bewerb_id);
            lemma_idx_of_props(b0.rounds@, gid.round_id);
            lemma_idx_of_props(r0.groups@, gid.group_id);
            assert(bsn == bs0.update(bi as int, bn));
            assert(bn.rounds@ == b0.rounds@.update(ri as int, rn));
            assert(rn.groups@ == r0.groups@.update(gi as int, gn));
            assert(group_changed(g0, c, gn));
            assert(gn.id == g0.id);
            assert(old(self).spec_group(*gid) == Some(g0));
            lemma_find_id_update(bs0, bi as int, bn);
            lemma_find_id_update(b0.rounds@, ri as int, rn);
            lemma_find_id_update(r0.groups@, gi as int, gn);
            assert forall|b: u32, r: u32, g2: u32|
                !(b == gid.bewerb_id && r == gid.round_id && g2 == gid.group_id)
                    implies #[trigger] self.spec_group_n(b, r, g2) == old(self).spec_group_n(
                b,
                r,
                g2,
            ) by {
                assert(find_id(bsn, b) == if b == b0.spec_id() {
                    Some(bn)
                } else {
                    find_id(bs0, b)
                });
                if b == gid.bewerb_id {
                    assert(find_id(bn.rounds@, r) == if r == r0.spec_id() {
                        Some(rn)
                    } else {
                        find_id(b0.rounds@, r)
                    });
                    if r == gid.round_id {
                        assert(find_id(rn.groups@, g2) == if g2 == g0.spec_id() {
                            Some(gn)
                        } else {
                            find_id(r0.groups@, g2)
                        });
                        assert(g2 != gid.group_id);
                    }
                }
            }
            assert(self.spec_group(*gid) == Some(gn));
            if old(self).hier_wf() {
                assert forall|i: int| 0 <= i < bsn.len() implies (#[trigger] bsn[i]).wf() by {
                    if i == bi {
                        assert(b0.wf());
                        assert(r0.wf());
                        assert forall|j: int| 0 <= j < bn.rounds@.len() implies (
                        #[trigger] bn.rounds@[j]).id.bewerb_id == bn.id.bewerb_id
                            && bn.rounds@[j].wf() by {
                            if j == ri {
                                assert(rn.id == r0.id);
                                assert forall|k: int| 0 <= k < rn.groups@.len() implies (
                                #[trigger] rn.groups@[k]).id.bewerb_id == rn.id.bewerb_id
                                    && rn.groups@[k].id.round_id == rn.id.round_id by {
                                    if k != gi {
                                        assert(rn.groups@[k] == r0.groups@[k]);
                                    }
                                }
                                assert forall|k1: int, k2: int|
                                    0 <= k1 < k2 < rn.groups@.len() implies (
                                #[trigger] rn.groups@[k1].spec_id()) != (
                                #[trigger] rn.groups@[k2].spec_id()) by {
                                    assert(rn.groups@[k1].spec_id() == r0.groups@[k1].spec_id());
                                    assert(rn.groups@[k2].spec_id() == r0.groups@[k2].spec_id());
                                }
                            } else {
                                assert(bn.rounds@[j] == b0.rounds@[j]);
                            }
                        }
                        assert forall|j1: int, j2: int| 0 <= j1 < j2 < bn.rounds@.len() implies (
                        #[trigger] bn.rounds@[j1].spec_id()) != (
                        #[trigger] bn.rounds@[j2].spec_id()) by {
                            assert(bn.rounds@[j1].spec_id() == b0.rounds@[j1].spec_id());
                            assert(bn.rounds@[j2].spec_id() == b0.rounds@[j2].spec_id());
                        }
                        assert(bn.wf());
                    } else {
                        assert(bsn[i] == bs0[i]);
                    }
                }
                assert forall|i1: int, i2: int| 0 <= i1 < i2 < bsn.len() implies (
                #[trigger] bsn[i1].spec_id()) != (#[trigger] bsn[i2].spec_id()) by {
                    assert(bsn[i1].spec_id() == bs0[i1].spec_id());
                    assert(bsn[i2].spec_id() == bs0[i2].spec_id());
                }
            }
        }
        true
    }

    /// The ids of every group of any event that has no arena assignment, in
    /// event order.  Membership is characterized exactly by
    /// [`Tournament::lemma_free_groups_characterization`].
    pub fn get_all_free_groups(&self) -> (r: Vec<GroupId>)
        ensures
            r@ == all_free_ids(self.bewerbs@),
    {
        let mut r: Vec<GroupId> = Vec::new();
        let n = self.bewerbs.len();
        let mut i: usize = 0;
        while i < n
            invariant
                i <= n,
                n == self.bewerbs@.len(),
                r@ == all_free_ids(self.bewerbs@.take(i as int)),
            decreases n - i,
        {
            let mut bw_groups = self.bewerbs.at(i).get_free_groups();
            proof {
                assert(self.bewerbs@.take(i + 1).drop_last() =~= self.bewerbs@.take(i as int));
                assert(self.bewerbs@.take(i + 1).last() == self.bewerbs@[i as int]);
            }
            r.append(&mut bw_groups);
            i = i + 1;
        }
        proof {
            assert(self.bewerbs@.take(n as int) =~= self.bewerbs@);
        }
        r
    }

    /// A group id stands in the free list exactly when it addresses a live
    /// group that carries that very id and has no arena assignment.
    pub proof fn lemma_free_groups_characterization(&self)
        requires
            self.hier_wf(),
        ensures
            forall|gid: GroupId| #[trigger] all_free_ids(self.bewerbs@).contains(gid)
                <==> match self.spec_group(gid) {
                Some(g) => g.id == gid && g.arena_slot is None,
                None => false,
            },
    {
        let bs = self.bewerbs@;
        lemma_all_free_ids_contains(bs);
        assert forall|gid: GroupId| #[trigger] all_free_ids(bs).contains(gid) implies match self
            .spec_group(gid) {
            Some(g) => g.id == gid && g.arena_slot is None,
            None => false,
        } by {
            let (i, j, k): (int, int, int) = choose|i: int, j: int, k: int|
                0 <= i < bs.len() && 0 <= j < bs[i].rounds@.len() && 0 <= k
                    < bs[i].rounds@[j].groups@.len() && (#[trigger] bs[i].rounds@[j].groups@[k].id)
                    == gid && bs[i].rounds@[j].groups@[k].arena_slot is None;
            self.lemma_group_complete(i, j, k);
        }
        assert forall|gid: GroupId|
            (match self.spec_group(gid) {
                Some(g) => g.id == gid && g.arena_slot is None,
                None => false,
            }) implies #[trigger] all_free_ids(bs).contains(gid) by {
            let g = self.spec_group(gid).unwrap();
            lemma_idx_of_props(bs, gid.bewerb_id);
            let bi = idx_of(bs, gid.bewerb_id);
            let bw = bs[bi];
            lemma_idx_of_props(bw.rounds@, gid.round_id);
            let rj = idx_of(bw.rounds@, gid.round_id);
            let rd = bw.rounds@[rj];
            lemma_idx_of_props(rd.groups@, gid.group_id);
            let gk = idx_of(rd.groups@, gid.group_id);
            assert(bs[bi].rounds@[rj].groups@[gk] == g);
        }
    }

    /// The whole graph in its saveable form: one record list per subgraph,
    /// every cross reference stored as an id.
    pub fn to_snapshot(&self) -> (r: TournamentSnapshot)
        ensures
            snapshot_saved(*self, r),
            r.name == self.inner.name,
            r.days@.len() == self.days@.len(),
            forall|i: int| 0 <= i < self.days@.len() ==> crate::day::day_saved(
                #[trigger] self.days@[i],
                r.days@[i],
            ),
            r.bewerbs@.len() == self.bewerbs@.len(),
            forall|i: int| 0 <= i < self.bewerbs@.len() ==> crate::bewerb::bewerb_saved(
                #[trigger] self.bewerbs@[i],
                r.bewerbs@[i],
            ),
            r.fencers@.len() == self.fencers.fencers@.len(),
            forall|i: int| 0 <= i < self.fencers.fencers@.len() ==> crate::fencer::fencer_saved(
                #[trigger] self.fencers.fencers@[i],
                r.fencers@[i],
            ),
    {
        let mut days: Vec<crate::day::DaySaveable> = Vec::new();
        let nd = self.days.len();
        let mut i: usize = 0;
        while i < nd
            invariant
                i <= nd,
                nd == self.days@.len(),
                days@.len() == i,
                forall|j: int| 0 <= j < i ==> crate::day::day_saved(
                    #[trigger] self.days@[j],
                    days@[j],
                ),
            decreases nd - i,
        {
            days.push(self.days.at(i).to_saveable());
            i = i + 1;
        }
        let mut bewerbs: Vec<crate::bewerb::BewerbSaveable> = Vec::new();
        let nb = self.bewerbs.len();
        let mut i2: usize = 0;
        while i2 < nb
            invariant
                i2 <= nb,
                nb == self.bewerbs@.len(),
                bewerbs@.len() == i2,
                forall|j: int| 0 <= j < i2 ==> crate::bewerb::bewerb_saved(
                    #[trigger] self.bewerbs@[j],
                    bewerbs@[j],
                ),
            decreases nb - i2,
        {
            bewerbs.push(self.bewerbs.at(i2).to_saveable());
            i2 = i2 + 1;
        }
        let fencers = self.fencers.to_saveables();
        TournamentSnapshot { name: self.inner.name.clone(), days, bewerbs, fencers }
    }

    /// Build phase of reconstruction for the events: records whose id is
    /// already taken are skipped with a warning.
    pub fn load_bewerbs(recs: &Vec<crate::bewerb::BewerbSaveable>) -> (r: (
        UidContainer<Bewerb>,
        Vec<Warning>,
    ))
        ensures
            crate::bewerb::is_loaded_bewerbs(recs@, r.0@),
            r.1@ == dup_warnings(recs@, crate::bewerb::bewerb_sid(), bewerb_dup()),
    {
        let mut out: UidContainer<Bewerb> = UidContainer::new();
        let mut warnings: Vec<Warning> = Vec::new();
        let n = recs.len();
        let mut i: usize = 0;
        while i < n
            invariant
                i <= n,
                n == recs@.len(),
                crate::container::is_loaded_list(
                    recs@.take(i as int),
                    out@,
                    crate::bewerb::bewerb_sid(),
                    crate::bewerb::bewerb_load_rel(),
                ),
                warnings@ == dup_warnings(
                    recs@.take(i as int),
                    crate::bewerb::bewerb_sid(),
                    bewerb_dup(),
                ),
            decreases n - i,
        {
            let rec = &recs[i];
            let ghost pre = out@;
            let ghost wpre = warnings@;
            let present = out.contains_id(rec.id.bewerb_id);
            if !present {
                let b = Bewerb::from_saveable(rec);
                out.insert(b);
            } else {
                warnings.push(Warning::DuplicateBewerb(rec.id.bewerb_id));
            }
            proof {
                let sid2 = crate::bewerb::bewerb_sid();
                let rel2 = crate::bewerb::bewerb_load_rel();
                let srec = recs@[i as int];
                assert(sid2(srec) == srec.id.bewerb_id);
                assert(recs@.take(i + 1).drop_last() =~= recs@.take(i as int));
                assert(recs@.take(i + 1).last() == recs@[i as int]);
                crate::container::lemma_loaded_list_ids(recs@.take(i as int), pre, sid2, rel2);
                assert(present == crate::container::loaded_ids(
                    recs@.take(i as int),
                    sid2,
                ).contains(sid2(srec)));
                assert(warnings@ == dup_warnings(recs@.take(i + 1), sid2, bewerb_dup())) by {
                    if present {
                        assert((bewerb_dup())(srec.id.bewerb_id) == Warning::DuplicateBewerb(
                            srec.id.bewerb_id,
                        ));
                        assert(warnings@ =~= wpre.push(Warning::DuplicateBewerb(
                            srec.id.bewerb_id,
                        )));
                    }
                }
                if present {
                    crate::container::lemma_loaded_list_step(
                        recs@,
                        i as int,
                        pre,
                        pre[0],
                        sid2,
                        rel2,
                    );
                } else {
                    let b2 = out@.last();
                    assert(out@ =~= pre.push(b2));
                    assert(rel2(srec, b2));
                    assert(b2.spec_id() == sid2(srec));
                    crate::container::lemma_loaded_list_step(recs@, i as int, pre, b2, sid2, rel2);
                }
            }
            i = i + 1;
        }
        proof {
            assert(recs@.take(n as int) =~= recs@);
        }
        (out, warnings)
    }

    /// Build phase of reconstruction for the days: records whose id is
    /// already taken are skipped with a warning.
    pub fn load_days(recs: &Vec<crate::day::DaySaveable>) -> (r: (
        UidContainer<Day>,
        Vec<Warning>,
    ))
        ensures
            crate::day::is_loaded_days(recs@, r.0@),
            r.1@ == dup_warnings(recs@, crate::day::day_sid(), day_dup()),
    {
        let mut out: UidContainer<Day> = UidContainer::new();
        let mut warnings: Vec<Warning> = Vec::new();
        let n = recs.len();
        let mut i: usize = 0;
        while i < n
            invariant
                i <= n,
                n == recs@.len(),
                crate::container::is_loaded_list(
                    recs@.take(i as int),
                    out@,
                    crate::day::day_sid(),
                    crate::day::day_load_rel(),
                ),
                warnings@ == dup_warnings(recs@.take(i as int), crate::day::day_sid(), day_dup()),
            decreases n - i,
        {
            let rec = &recs[i];
            let ghost pre = out@;
            let ghost wpre = warnings@;
            let present = out.contains_id(rec.id);
            if !present {
                let d = Day::from_saveable(rec);
                out.insert(d);
            } else {
                warnings.push(Warning::DuplicateDay(rec.id));
            }
            proof {
                let sid2 = crate::day::day_sid();
                let rel2 = crate::day::day_load_rel();
                let srec = recs@[i as int];
                assert(sid2(srec) == srec.id);
                assert(recs@.take(i + 1).drop_last() =~= recs@.take(i as int));
                assert(recs@.take(i + 1).last() == recs@[i as int]);
                crate::container::lemma_loaded_list_ids(recs@.take(i as int), pre, sid2, rel2);
                assert(present == crate::container::loaded_ids(
                    recs@.take(i as int),
                    sid2,
                ).contains(sid2(srec)));
                assert(warnings@ == dup_warnings(recs@.take(i + 1), sid2, day_dup())) by {
                    if present {
                        assert((day_dup())(srec.id) == Warning::DuplicateDay(srec.id));
                        assert(warnings@ =~= wpre.push(Warning::DuplicateDay(srec.id)));
                    }
                }
                if present {
                    crate::container::lemma_loaded_list_step(
                        recs@,
                        i as int,
                        pre,
                        pre[0],
                        sid2,
                        rel2,
                    );
                } else {
                    let d2 = out@.last();
                    assert(out@ =~= pre.push(d2));
                    assert(rel2(srec, d2));
                    assert(d2.spec_id() == sid2(srec));
                    crate::container::lemma_loaded_list_step(recs@, i as int, pre, d2, sid2, rel2);
                }
            }
            i = i + 1;
        }
        proof {
            assert(recs@.take(n as int) =~= recs@);
        }
        (out, warnings)
    }

    /// Two-phase reconstruction of the whole graph from a snapshot: the owned
    /// hierarchies are rebuilt first, then every recorded cross reference is
    /// resolved — group/arena bindings confirmed on both sides, fencer slots
    /// re-established through the runtime mutation path.  What does not
    /// resolve is cleared with a warning, never silently kept; the result
    /// always satisfies the graph invariants.
    pub fn from_snapshot(s: &TournamentSnapshot) -> (r: (Tournament, Vec<Warning>))
        ensures
            r.0.wf(),
            r.0.inner.name == s.name,
            exists|tm: Tournament, tv: Tournament|
                #[trigger] snapshot_phases(*s, tm, tv, r.0) && r.1@ == dup_warnings(
                    s.bewerbs@,
                    crate::bewerb::bewerb_sid(),
                    bewerb_dup(),
                ) + dup_warnings(s.days@, crate::day::day_sid(), day_dup()) + group_link_warnings(
                    graph_group_ids(tm.bewerbs@),
                    tm,
                ) + arena_link_warnings(graph_slot_ids(tm.days@), tm)
                    + crate::fencer::install_warnings(s.fencers@, tv.bewerbs@),
            forall|t: Tournament|
                t.wf() && #[trigger] snapshot_saved(t, *s) ==> ((forall|x: ArenaSlotId|
                    #[trigger] r.0.spec_arena(x) == t.spec_arena(x)) && (forall|
                    b: u32,
                    r2: u32,
                    g2: u32,
                |
                    match #[trigger] t.spec_group_n(b, r2, g2) {
                        Some(g) => match r.0.spec_group_n(b, r2, g2) {
                            Some(gg) => gg.id == g.id && gg.arena_slot == g.arena_slot,
                            None => false,
                        },
                        None => r.0.spec_group_n(b, r2, g2) is None,
                    }) && r.0.days@.len() == t.days@.len() && (forall|i: int|
                    0 <= i < t.days@.len() ==> ((#[trigger] r.0.days@[i]).id == t.days@[i].id
                        && r.0.days@[i].date == t.days@[i].date && r.0.days@[i].n_ts
                        == t.days@[i].n_ts && r.0.days@[i].n_kp == t.days@[i].n_kp))
                    && r.0.bewerbs@.len() == t.bewerbs@.len() && (forall|i: int|
                    0 <= i < t.bewerbs@.len() ==> ((#[trigger] r.0.bewerbs@[i]).id
                        == t.bewerbs@[i].id && r.0.bewerbs@[i].n_rounds
                        == t.bewerbs@[i].n_rounds && r.0.bewerbs@[i].n_groups
                        == t.bewerbs@[i].n_groups))),
    {
        let (bewerbs, mut warnings) = Self::load_bewerbs(&s.bewerbs);
        let (days, mut w2) = Self::load_days(&s.days);
        warnings.append(&mut w2);
        let mut t = Tournament {
            inner: TournamentInternal { name: s.name.clone() },
            bewerbs,
            days,
            fencers: Fencers::new(),
        };
        proof {
            crate::container::lemma_loaded_list_ids(
                s.bewerbs@,
                t.bewerbs@,
                crate::bewerb::bewerb_sid(),
                crate::bewerb::bewerb_load_rel(),
            );
            let pb = |b: Bewerb| b.wf();
            assert forall|x: crate::bewerb::BewerbSaveable, b: Bewerb| #[trigger] (
            crate::bewerb::bewerb_load_rel())(x, b) implies pb(b) by {}
            crate::container::lemma_loaded_list_all(
                s.bewerbs@,
                t.bewerbs@,
                crate::bewerb::bewerb_sid(),
                crate::bewerb::bewerb_load_rel(),
                pb,
            );
            assert forall|i: int| 0 <= i < t.bewerbs@.len() implies (
            #[trigger] t.bewerbs@[i]).wf() by {
                assert(pb(t.bewerbs@[i]));
            }
            crate::container::lemma_loaded_list_ids(
                s.days@,
                t.days@,
                crate::day::day_sid(),
                crate::day::day_load_rel(),
            );
            let pd = |d: Day| d.wf();
            assert forall|x: crate::day::DaySaveable, d: Day| #[trigger] (
            crate::day::day_load_rel())(x, d) implies pd(d) by {}
            crate::container::lemma_loaded_list_all(
                s.days@,
                t.days@,
                crate::day::day_sid(),
                crate::day::day_load_rel(),
                pd,
            );
            assert forall|i: int| 0 <= i < t.days@.len() implies (#[trigger] t.days@[i]).wf() by {
                assert(pd(t.days@[i]));
            }
            assert(t.hier_wf());
            assert(t.roster_wf());
        }
        let ghost tm = t;
        let mut w3 = t.validate_links();
        warnings.append(&mut w3);
        let ghost tv = t;
        proof {
            Self::lemma_loaded_groups_empty(tm, s.bewerbs@);
            assert forall|b: u32, r2: u32, g2: u32|
                match #[trigger] t.spec_group_n(b, r2, g2) {
                    Some(g) => g.fencers@ == Seq::<u32>::empty(),
                    None => true,
                } by {
                assert(t.spec_group_n(b, r2, g2) == match tm.spec_group_n(b, r2, g2) {
                    Some(g) => Some(
                        if tm.mutual_group(b, r2, g2) {
                            g
                        } else {
                            g.with_arena(None)
                        },
                    ),
                    None => None,
                });
                match tm.spec_group_n(b, r2, g2) {
                    Some(g) => {
                        assert(g.fencers@ == Seq::<u32>::empty());
                    },
                    None => {},
                }
            }
        }
        let mut w4 = t.install_fencers(&s.fencers);
        warnings.append(&mut w4);
        proof {
            assert(snapshot_phases(*s, tm, tv, t) && warnings@ == dup_warnings(
                s.bewerbs@,
                crate::bewerb::bewerb_sid(),
                bewerb_dup(),
            ) + dup_warnings(s.days@, crate::day::day_sid(), day_dup()) + group_link_warnings(
                graph_group_ids(tm.bewerbs@),
                tm,
            ) + arena_link_warnings(graph_slot_ids(tm.days@), tm)
                + crate::fencer::install_warnings(s.fencers@, tv.bewerbs@)) by {
                assert forall|x: ArenaSlotId| #[trigger] t.spec_arena(x) == tv.spec_arena(x) by {}
                assert(warnings@ =~= dup_warnings(
                    s.bewerbs@,
                    crate::bewerb::bewerb_sid(),
                    bewerb_dup(),
                ) + dup_warnings(s.days@, crate::day::day_sid(), day_dup())
                    + group_link_warnings(graph_group_ids(tm.bewerbs@), tm)
                    + arena_link_warnings(graph_slot_ids(tm.days@), tm)
                    + crate::fencer::install_warnings(s.fencers@, tv.bewerbs@));
            }
            assert forall|tq: Tournament|
                tq.wf() && #[trigger] snapshot_saved(tq, *s) implies ((forall|x: ArenaSlotId|
                #[trigger] t.spec_arena(x) == tq.spec_arena(x)) && (forall|
                b: u32,
                r2: u32,
                g2: u32,
            |
                match #[trigger] tq.spec_group_n(b, r2, g2) {
                    Some(g) => match t.spec_group_n(b, r2, g2) {
                        Some(gg) => gg.id == g.id && gg.arena_slot == g.arena_slot,
                        None => false,
                    },
                    None => t.spec_group_n(b, r2, g2) is None,
                }) && t.days@.len() == tq.days@.len() && (forall|i: int|
                0 <= i < tq.days@.len() ==> ((#[trigger] t.days@[i]).id == tq.days@[i].id
                    && t.days@[i].date == tq.days@[i].date && t.days@[i].n_ts
                    == tq.days@[i].n_ts && t.days@[i].n_kp == tq.days@[i].n_kp))
                && t.bewerbs@.len() == tq.bewerbs@.len() && (forall|i: int|
                0 <= i < tq.bewerbs@.len() ==> ((#[trigger] t.bewerbs@[i]).id
                    == tq.bewerbs@[i].id && t.bewerbs@[i].n_rounds == tq.bewerbs@[i].n_rounds
                    && t.bewerbs@[i].n_groups == tq.bewerbs@[i].n_groups))) by {
                Self::lemma_snapshot_roundtrip(tq, *s, tm, tv);
                assert(t.days@ == tv.days@);
                assert forall|i: int| 0 <= i < tq.days@.len() implies ((
                #[trigger] t.days@[i]).id == tq.days@[i].id && t.days@[i].date
                    == tq.days@[i].date && t.days@[i].n_ts == tq.days@[i].n_ts
                    && t.days@[i].n_kp == tq.days@[i].n_kp) by {
                    assert(tv.days@[i].id == tq.days@[i].id && tv.days@[i].date
                        == tq.days@[i].date && tv.days@[i].n_ts == tq.days@[i].n_ts
                        && tv.days@[i].n_kp == tq.days@[i].n_kp);
                }
                assert forall|i: int| 0 <= i < tq.bewerbs@.len() implies ((
                #[trigger] t.bewerbs@[i]).id == tq.bewerbs@[i].id && t.bewerbs@[i].n_rounds
                    == tq.bewerbs@[i].n_rounds && t.bewerbs@[i].n_groups
                    == tq.bewerbs@[i].n_groups) by {
                    assert(tv.bewerbs@[i].id == tq.bewerbs@[i].id && tv.bewerbs@[i].n_rounds
                        == tq.bewerbs@[i].n_rounds && tv.bewerbs@[i].n_groups
                        == tq.bewerbs@[i].n_groups);
                    assert(t.bewerbs@[i].id == tv.bewerbs@[i].id && t.bewerbs@[i].n_rounds
                        == tv.bewerbs@[i].n_rounds && t.bewerbs@[i].n_groups
                        == tv.bewerbs@[i].n_groups);
                }
                assert forall|x: ArenaSlotId| #[trigger] t.spec_arena(x) == tq.spec_arena(
                    x,
                ) by {
                    assert(tv.spec_arena(x) == tq.spec_arena(x));
                }
                assert forall|b: u32, r2: u32, g2: u32|
                    match #[trigger] tq.spec_group_n(b, r2, g2) {
                        Some(g) => match t.spec_group_n(b, r2, g2) {
                            Some(gg) => gg.id == g.id && gg.arena_slot == g.arena_slot,
                            None => false,
                        },
                        None => t.spec_group_n(b, r2, g2) is None,
                    } by {
                    match tq.spec_group_n(b, r2, g2) {
                        Some(g) => {
                            assert(match tv.spec_group_n(b, r2, g2) {
                                Some(gg) => gg.id == g.id && gg.arena_slot == g.arena_slot,
                                None => false,
                            });
                            let gv = tv.spec_group_n(b, r2, g2).unwrap();
                            assert(match t.spec_group_n(b, r2, g2) {
                                Some(gg) => gg.id == gv.id && gg.arena_slot == gv.arena_slot,
                                None => false,
                            });
                        },
                        None => {
                            assert(tv.spec_group_n(b, r2, g2) is None);
                            assert(t.spec_group_n(b, r2, g2) is None);
                        },
                    }
                }
            }
        }
        (t, warnings)
    }

    /// The group `id` addresses (event, round and group number).
    pub fn get_group_by_id(&self, id: &GroupId) -> (r: Option<&Group>)
        ensures
            match r {
                Some(g) => self.spec_group(*id) == Some(*g),
                None => self.spec_group(*id) is None,
            },
    {
        match self.bewerbs.get(id.bewerb_id) {
            Some(b) => b.get_group_by_id(id),
            None => None,
        }
    }

    /// The arena slot `id` addresses (day, timeslot and slot number); the
    /// stored key must match the query in full.  Under the graph invariants
    /// a slot found along the route always carries its route's key, so the
    /// lookup succeeds exactly where `spec_arena` finds a slot (see
    /// [`Tournament::lemma_spec_arena_id`]).
    pub fn get_arena_by_id(&self, id: &ArenaSlotId) -> (r: Option<&ArenaSlot>)
        ensures
            match r {
                Some(a) => self.spec_arena(*id) == Some(*a) && a.id == *id,
                None => match self.spec_arena(*id) {
                    Some(a) => a.id != *id,
                    None => true,
                },
            },
    {
        match self.days.get(id.day_id) {
            Some(d) => d.get_arena(id),
            None => None,
        }
    }
}

} // verus!
