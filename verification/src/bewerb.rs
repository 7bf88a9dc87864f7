//! One competition (event) of the tournament, owning its rounds.

use vstd::prelude::*;
use crate::container::{
    find_index, find_id, has_id, is_loaded_list, lemma_idx_of_props, lemma_loaded_list_all,
    lemma_loaded_list_ids, lemma_loaded_list_step, unique_ids, HasId, UidContainer,
};
use crate::group::{Group, GroupId, GroupSaveable};
use crate::round::{
    free_ids, group_load_rel, is_loaded_groups, spec_save_group, Round, RoundId, RoundSaveable,
};

verus! {

/// Key of an event: its number and its denormalized name.
#[derive(Debug, PartialEq, Eq)]
pub struct BewerbId {
    pub bewerb_name: String,
    pub bewerb_id: u32,
}

impl Clone for BewerbId {
    fn clone(&self) -> (r: Self)
        ensures
            r == *self,
    {
        BewerbId { bewerb_name: self.bewerb_name.clone(), bewerb_id: self.bewerb_id }
    }
}

/// An event: a fixed shape of rounds and groups.
#[derive(Debug)]
pub struct Bewerb {
    pub id: BewerbId,
    pub n_rounds: u32,
    pub n_groups: u32,
    pub rounds: UidContainer<Round>,
}

/// Saveable form of an event.
#[derive(Debug)]
pub struct BewerbSaveable {
    pub id: BewerbId,
    pub n_rounds: u32,
    pub n_groups: u32,
    pub rounds: Vec<RoundSaveable>,
}

/// Wire-facing summary of an event, as `get_bewerbs` reports it.
#[derive(Debug)]
pub struct SimpleBewerbData {
    pub id: u32,
    pub name: String,
    pub n_rounds: u32,
    pub n_groups: u32,
}

/// The ids of all groups in the rounds `rs`, in order.
pub open spec fn all_group_ids(rs: Seq<Round>) -> Seq<GroupId>
    decreases rs.len(),
{
    if rs.len() == 0 {
        Seq::empty()
    } else {
        all_group_ids(rs.drop_last()) + rs.last().groups@.map_values(|g: Group| g.id)
    }
}

/// The ids of all arena-free groups in the rounds `rs`, in order.
pub open spec fn rounds_free_ids(rs: Seq<Round>) -> Seq<GroupId>
    decreases rs.len(),
{
    if rs.len() == 0 {
        Seq::empty()
    } else {
        rounds_free_ids(rs.drop_last()) + free_ids(rs.last().groups@)
    }
}

/// Membership in `all_group_ids`: exactly the ids of the groups of `rs`.
pub proof fn lemma_all_group_ids_contains(rs: Seq<Round>)
    ensures
        forall|gid: GroupId| #[trigger] all_group_ids(rs).contains(gid) <==> exists|j: int, k: int|
            0 <= j < rs.len() && 0 <= k < rs[j].groups@.len() && (
            #[trigger] rs[j].groups@[k].id) == gid,
    decreases rs.len(),
{
    if rs.len() == 0 {
    } else {
        lemma_all_group_ids_contains(rs.drop_last());
        let p = all_group_ids(rs.drop_last());
        let m = rs.last().groups@.map_values(|g: Group| g.id);
        assert(forall|j: int| 0 <= j < rs.len() - 1 ==> rs.drop_last()[j] == rs[j]);
        assert forall|gid: GroupId| #[trigger] all_group_ids(rs).contains(gid) implies exists|
            j: int,
            k: int,
        |
            0 <= j < rs.len() && 0 <= k < rs[j].groups@.len() && (
            #[trigger] rs[j].groups@[k].id) == gid by {
            let i = choose|i: int| 0 <= i < all_group_ids(rs).len() && all_group_ids(rs)[i] == gid;
            if i < p.len() {
                assert(p.contains(gid));
                let (j, k): (int, int) = choose|j: int, k: int|
                    0 <= j < rs.len() - 1 && 0 <= k < rs.drop_last()[j].groups@.len() && (
                    #[trigger] rs.drop_last()[j].groups@[k].id) == gid;
                assert(rs[j].groups@[k].id == gid);
            } else {
                let k = i - p.len();
                assert(m[k] == gid);
                assert(rs[rs.len() - 1].groups@[k].id == gid);
            }
        }
        assert forall|gid: GroupId|
            (exists|j: int, k: int|
                0 <= j < rs.len() && 0 <= k < rs[j].groups@.len() && (
                #[trigger] rs[j].groups@[k].id) == gid) implies #[trigger] all_group_ids(
            rs,
        ).contains(gid) by {
            let (j, k): (int, int) = choose|j: int, k: int|
                0 <= j < rs.len() && 0 <= k < rs[j].groups@.len() && (
                #[trigger] rs[j].groups@[k].id) == gid;
            if j < rs.len() - 1 {
                assert(rs.drop_last()[j].groups@[k].id == gid);
                assert(p.contains(gid));
                let i = choose|i: int| 0 <= i < p.len() && p[i] == gid;
                assert(all_group_ids(rs)[i] == gid);
            } else {
                assert(m[k] == gid);
                assert(all_group_ids(rs)[p.len() + k] == gid);
            }
        }
    }
}

/// Membership in `rounds_free_ids`: exactly the ids of arena-free groups.
pub proof fn lemma_rounds_free_ids_contains(rs: Seq<Round>)
    ensures
        forall|gid: GroupId| #[trigger] rounds_free_ids(rs).contains(gid) <==> exists|
            j: int,
            k: int,
        |
            0 <= j < rs.len() && 0 <= k < rs[j].groups@.len() && (
            #[trigger] rs[j].groups@[k].id) == gid && rs[j].groups@[k].arena_slot is None,
    decreases rs.len(),
{
    if rs.len() == 0 {
    } else {
        lemma_rounds_free_ids_contains(rs.drop_last());
        crate::round::lemma_free_ids_contains(rs.last().groups@);
        let p = rounds_free_ids(rs.drop_last());
        let m = free_ids(rs.last().groups@);
        assert(forall|j: int| 0 <= j < rs.len() - 1 ==> rs.drop_last()[j] == rs[j]);
        assert forall|gid: GroupId| #[trigger] rounds_free_ids(rs).contains(gid) implies exists|
            j: int,
            k: int,
        |
            0 <= j < rs.len() && 0 <= k < rs[j].groups@.len() && (
            #[trigger] rs[j].groups@[k].id) == gid && rs[j].groups@[k].arena_slot is None by {
            let i = choose|i: int|
                0 <= i < rounds_free_ids(rs).len() && rounds_free_ids(rs)[i] == gid;
            if i < p.len() {
                assert(p.contains(gid));
                let (j, k): (int, int) = choose|j: int, k: int|
                    0 <= j < rs.len() - 1 && 0 <= k < rs.drop_last()[j].groups@.len() && (
                    #[trigger] rs.drop_last()[j].groups@[k].id) == gid && rs.drop_last()[j]
                        .groups@[k].arena_slot is None;
                assert(rs[j].groups@[k].id == gid && rs[j].groups@[k].arena_slot is None);
            } else {
                assert(m[i - p.len()] == gid);
                assert(m.contains(gid));
                let k = choose|k: int|
                    0 <= k < rs.last().groups@.len() && (#[trigger] rs.last().groups@[k].id)
                        == gid && rs.last().groups@[k].arena_slot is None;
                assert(rs[rs.len() - 1].groups@[k].id == gid);
            }
        }
        assert forall|gid: GroupId|
            (exists|j: int, k: int|
                0 <= j < rs.len() && 0 <= k < rs[j].groups@.len() && (
                #[trigger] rs[j].groups@[k].id) == gid && rs[j].groups@[k].arena_slot is None)
            implies #[trigger] rounds_free_ids(rs).contains(gid) by {
            let (j, k): (int, int) = choose|j: int, k: int|
                0 <= j < rs.len() && 0 <= k < rs[j].groups@.len() && (
                #[trigger] rs[j].groups@[k].id) == gid && rs[j].groups@[k].arena_slot is None;
            if j < rs.len() - 1 {
                assert(rs.drop_last()[j].groups@[k].id == gid && rs.drop_last()[j].groups@[k]
                    .arena_slot is None);
                assert(p.contains(gid));
                let i = choose|i: int| 0 <= i < p.len() && p[i] == gid;
                assert(rounds_free_ids(rs)[i] == gid);
            } else {
                assert(m.contains(gid));
                let i = choose|i: int| 0 <= i < m.len() && m[i] == gid;
                assert(rounds_free_ids(rs)[p.len() + i] == gid);
            }
        }
    }
}

/// The saveable record a round writes.
pub open spec fn round_saved(rd: Round, rs: RoundSaveable) -> bool {
    &&& rs.id == rd.id
    &&& rs.groups@ == rd.groups@.map_values(|g: Group| spec_save_group(g))
}

/// The identifier a round record claims.
pub open spec fn round_sid() -> spec_fn(RoundSaveable) -> u32 {
    |s: RoundSaveable| s.id.round_id
}

/// How a round record rebuilds under the given parent event number.
pub open spec fn round_load_rel(bewerb_id: u32) -> spec_fn(RoundSaveable, Round) -> bool {
    |s: RoundSaveable, rd: Round|
        {
            &&& rd.id == (RoundId {
                bewerb_name: s.id.bewerb_name,
                bewerb_id,
                round_id: s.id.round_id,
            })
            &&& is_loaded_groups(s.groups@, rd.groups@, bewerb_id, s.id.round_id)
            &&& rd.wf()
        }
}

/// `out` is the round list rebuilt from the records `ss`.
pub open spec fn is_loaded_rounds(ss: Seq<RoundSaveable>, out: Seq<Round>, bewerb_id: u32) -> bool {
    is_loaded_list(ss, out, round_sid(), round_load_rel(bewerb_id))
}

/// The saveable record an event writes.
pub open spec fn bewerb_saved(b: Bewerb, s: BewerbSaveable) -> bool {
    &&& s.id == b.id
    &&& s.n_rounds == b.n_rounds
    &&& s.n_groups == b.n_groups
    &&& s.rounds@.len() == b.rounds@.len()
    &&& forall|j: int| 0 <= j < b.rounds@.len() ==> round_saved(#[trigger] b.rounds@[j], s.rounds@[j])
}

/// The identifier an event record claims.
pub open spec fn bewerb_sid() -> spec_fn(BewerbSaveable) -> u32 {
    |s: BewerbSaveable| s.id.bewerb_id
}

/// How an event record rebuilds.
pub open spec fn bewerb_load_rel() -> spec_fn(BewerbSaveable, Bewerb) -> bool {
    |s: BewerbSaveable, b: Bewerb|
        {
            &&& b.id == s.id
            &&& b.n_rounds == s.n_rounds
            &&& b.n_groups == s.n_groups
            &&& is_loaded_rounds(s.rounds@, b.rounds@, s.id.bewerb_id)
            &&& b.wf()
        }
}

/// `out` is the event list rebuilt from the records `ss`.
pub open spec fn is_loaded_bewerbs(ss: Seq<BewerbSaveable>, out: Seq<Bewerb>) -> bool {
    is_loaded_list(ss, out, bewerb_sid(), bewerb_load_rel())
}

/// Round trip of one event's round list: every round's id and every group's
/// id and recorded arena reference come back as saved.
pub proof fn lemma_rounds_roundtrip(
    rounds: Seq<Round>,
    recs: Seq<RoundSaveable>,
    out: Seq<Round>,
    bewerb_id: u32,
)
    requires
        unique_ids(rounds),
        forall|j: int|
            0 <= j < rounds.len() ==> (#[trigger] rounds[j]).id.bewerb_id == bewerb_id
                && rounds[j].wf(),
        recs.len() == rounds.len(),
        forall|j: int| 0 <= j < rounds.len() ==> round_saved(#[trigger] rounds[j], recs[j]),
        is_loaded_rounds(recs, out, bewerb_id),
    ensures
        out.len() == rounds.len(),
        forall|j: int| 0 <= j < rounds.len() ==> ((#[trigger] out[j]).id == rounds[j].id
            && out[j].groups@.len() == rounds[j].groups@.len()),
        forall|j: int, k: int|
            0 <= j < rounds.len() && 0 <= k < rounds[j].groups@.len() ==> ((
            #[trigger] out[j].groups@[k]).id == rounds[j].groups@[k].id && out[j].groups@[k]
                .arena_slot == rounds[j].groups@[k].arena_slot),
{
    let sid2 = round_sid();
    let rel2 = round_load_rel(bewerb_id);
    assert forall|i: int, j: int| 0 <= i < j < recs.len() implies sid2(#[trigger] recs[i]) != sid2(
        #[trigger] recs[j],
    ) by {
        assert(round_saved(rounds[i], recs[i]));
        assert(round_saved(rounds[j], recs[j]));
        assert(rounds[i].spec_id() != rounds[j].spec_id());
    }
    crate::container::lemma_loaded_list_exact(recs, out, sid2, rel2);
    assert forall|j: int| 0 <= j < rounds.len() implies ((#[trigger] out[j]).id == rounds[j].id
        && out[j].groups@.len() == rounds[j].groups@.len()) by {
        assert(rel2(recs[j], out[j]));
        assert(round_saved(rounds[j], recs[j]));
        assert(rounds[j].wf());
        crate::round::lemma_groups_roundtrip(
            rounds[j].groups@,
            recs[j].groups@,
            out[j].groups@,
            bewerb_id,
            rounds[j].id.round_id,
        );
    }
    assert forall|j: int, k: int|
        0 <= j < rounds.len() && 0 <= k < rounds[j].groups@.len() implies ((
    #[trigger] out[j].groups@[k]).id == rounds[j].groups@[k].id && out[j].groups@[k].arena_slot
        == rounds[j].groups@[k].arena_slot) by {
        assert(rel2(recs[j], out[j]));
        assert(round_saved(rounds[j], recs[j]));
        crate::round::lemma_groups_roundtrip(
            rounds[j].groups@,
            recs[j].groups@,
            out[j].groups@,
            bewerb_id,
            rounds[j].id.round_id,
        );
    }
}

/// Round trip of the event list: every event comes back with its id, name,
/// shape and every group's id and arena reference, exactly as saved.  Member
/// lists are rebuilt from the fencer records afterwards.
pub proof fn lemma_bewerbs_roundtrip(bs: Seq<Bewerb>, recs: Seq<BewerbSaveable>, out: Seq<Bewerb>)
    requires
        unique_ids(bs),
        forall|i: int| 0 <= i < bs.len() ==> (#[trigger] bs[i]).wf(),
        recs.len() == bs.len(),
        forall|i: int| 0 <= i < bs.len() ==> bewerb_saved(#[trigger] bs[i], recs[i]),
        is_loaded_bewerbs(recs, out),
    ensures
        out.len() == bs.len(),
        forall|i: int|
            0 <= i < bs.len() ==> ((#[trigger] out[i]).id == bs[i].id && out[i].n_rounds
                == bs[i].n_rounds && out[i].n_groups == bs[i].n_groups && out[i].rounds@.len()
                == bs[i].rounds@.len()),
        forall|i: int, j: int|
            0 <= i < bs.len() && 0 <= j < bs[i].rounds@.len() ==> ((
            #[trigger] out[i].rounds@[j]).id == bs[i].rounds@[j].id
                && out[i].rounds@[j].groups@.len() == bs[i].rounds@[j].groups@.len()),
        forall|i: int, j: int, k: int|
            0 <= i < bs.len() && 0 <= j < bs[i].rounds@.len() && 0 <= k
                < bs[i].rounds@[j].groups@.len() ==> ((
            #[trigger] out[i].rounds@[j].groups@[k]).id == bs[i].rounds@[j].groups@[k].id
                && out[i].rounds@[j].groups@[k].arena_slot
                == bs[i].rounds@[j].groups@[k].arena_slot),
{
    let sid2 = bewerb_sid();
    let rel2 = bewerb_load_rel();
    assert forall|i: int, j: int| 0 <= i < j < recs.len() implies sid2(#[trigger] recs[i]) != sid2(
        #[trigger] recs[j],
    ) by {
        assert(bewerb_saved(bs[i], recs[i]));
        assert(bewerb_saved(bs[j], recs[j]));
        assert(bs[i].spec_id() != bs[j].spec_id());
    }
    crate::container::lemma_loaded_list_exact(recs, out, sid2, rel2);
    assert forall|i: int| 0 <= i < bs.len() implies ((#[trigger] out[i]).id == bs[i].id
        && out[i].n_rounds == bs[i].n_rounds && out[i].n_groups == bs[i].n_groups
        && out[i].rounds@.len() == bs[i].rounds@.len()) by {
        assert(rel2(recs[i], out[i]));
        assert(bewerb_saved(bs[i], recs[i]));
        assert(bs[i].wf());
        lemma_rounds_roundtrip(bs[i].rounds@, recs[i].rounds@, out[i].rounds@, bs[i].id.bewerb_id);
    }
    assert forall|i: int, j: int|
        0 <= i < bs.len() && 0 <= j < bs[i].rounds@.len() implies ((
    #[trigger] out[i].rounds@[j]).id == bs[i].rounds@[j].id && out[i].rounds@[j].groups@.len()
        == bs[i].rounds@[j].groups@.len()) by {
        assert(rel2(recs[i], out[i]));
        assert(bewerb_saved(bs[i], recs[i]));
        lemma_rounds_roundtrip(bs[i].rounds@, recs[i].rounds@, out[i].rounds@, bs[i].id.bewerb_id);
    }
    assert forall|i: int, j: int, k: int|
        0 <= i < bs.len() && 0 <= j < bs[i].rounds@.len() && 0 <= k
            < bs[i].rounds@[j].groups@.len() implies ((
    #[trigger] out[i].rounds@[j].groups@[k]).id == bs[i].rounds@[j].groups@[k].id
        && out[i].rounds@[j].groups@[k].arena_slot == bs[i].rounds@[j].groups@[k].arena_slot) by {
        assert(rel2(recs[i], out[i]));
        assert(bewerb_saved(bs[i], recs[i]));
        lemma_rounds_roundtrip(bs[i].rounds@, recs[i].rounds@, out[i].rounds@, bs[i].id.bewerb_id);
    }
}

impl Bewerb {
    /// Hierarchical id consistency through rounds and groups, and round
    /// numbers unique.
    pub open spec fn wf(&self) -> bool {
        &&& unique_ids(self.rounds@)
        &&& forall|j: int|
            0 <= j < self.rounds@.len() ==> (#[trigger] self.rounds@[j]).id.bewerb_id
                == self.id.bewerb_id && self.rounds@[j].wf()
    }

    /// Lookup of a group by round and group number.
    pub open spec fn spec_group_of(&self, round_id: u32, group_id: u32) -> Option<Group> {
        match find_id(self.rounds@, round_id) {
            Some(rd) => find_id(rd.groups@, group_id),
            None => None,
        }
    }

    /// Builds the event with `n_rounds` rounds of `n_groups` groups each,
    /// numbered from zero, all groups free.
    pub fn new(bewerb_id: u32, name: String, n_rounds: u32, n_groups: u32) -> (r: Self)
        ensures
            r.id == (BewerbId { bewerb_name: name, bewerb_id }),
            r.n_rounds == n_rounds,
            r.n_groups == n_groups,
            r.rounds@.len() == n_rounds,
            forall|j: int|
                0 <= j < n_rounds ==> ((#[trigger] r.rounds@[j]).id == (RoundId {
                    bewerb_name: name,
                    bewerb_id,
                    round_id: j as u32,
                }) && r.rounds@[j].groups@.len() == n_groups),
            forall|j: int, k: int|
                0 <= j < n_rounds && 0 <= k < n_groups ==> ((
                #[trigger] r.rounds@[j].groups@[k]).id == (GroupId {
                    bewerb_name: name,
                    bewerb_id,
                    round_id: j as u32,
                    group_id: k as u32,
                }) && r.rounds@[j].groups@[k].arena_slot is None
                    && r.rounds@[j].groups@[k].fencers@ == Seq::<u32>::empty()),
            r.wf(),
    {
        let id = BewerbId { bewerb_name: name.clone(), bewerb_id };
        let mut rounds: UidContainer<Round> = UidContainer::new();
        let mut i: u32 = 0;
        while i < n_rounds
            invariant
                i <= n_rounds,
                rounds@.len() == i,
                id == (BewerbId { bewerb_name: name, bewerb_id }),
                forall|j: int|
                    0 <= j < i ==> ((#[trigger] rounds@[j]).id == (RoundId {
                        bewerb_name: name,
                        bewerb_id,
                        round_id: j as u32,
                    }) && rounds@[j].groups@.len() == n_groups),
                forall|j: int, k: int|
                    0 <= j < i && 0 <= k < n_groups ==> ((#[trigger] rounds@[j].groups@[k]).id
                        == (GroupId {
                        bewerb_name: name,
                        bewerb_id,
                        round_id: j as u32,
                        group_id: k as u32,
                    }) && rounds@[j].groups@[k].arena_slot is None && rounds@[j].groups@[k]
                        .fencers@ == Seq::<u32>::empty()),
            decreases n_rounds - i,
        {
            let round = Round::new(&id, n_groups, i);
            rounds.insert(round);
            i = i + 1;
        }
        let r = Bewerb { id, n_rounds, n_groups, rounds };
        proof {
            assert forall|i2: int, j2: int| 0 <= i2 < j2 < r.rounds@.len() implies (
            #[trigger] r.rounds@[i2].spec_id()) != (#[trigger] r.rounds@[j2].spec_id()) by {
                assert(r.rounds@[i2].id.round_id == i2 as u32);
                assert(r.rounds@[j2].id.round_id == j2 as u32);
            }
            assert forall|j: int| 0 <= j < r.rounds@.len() implies (
            #[trigger] r.rounds@[j]).id.bewerb_id == r.id.bewerb_id && r.rounds@[j].wf() by {
                assert forall|i2: int, j2: int|
                    0 <= i2 < j2 < r.rounds@[j].groups@.len() implies (
                #[trigger] r.rounds@[j].groups@[i2].spec_id()) != (
                #[trigger] r.rounds@[j].groups@[j2].spec_id()) by {
                    assert(r.rounds@[j].groups@[i2].id.group_id == i2 as u32);
                    assert(r.rounds@[j].groups@[j2].id.group_id == j2 as u32);
                }
                assert forall|k: int| 0 <= k < r.rounds@[j].groups@.len() implies (
                #[trigger] r.rounds@[j].groups@[k]).id.bewerb_id == r.rounds@[j].id.bewerb_id
                    && r.rounds@[j].groups@[k].id.round_id == r.rounds@[j].id.round_id by {}
            }
        }
        r
    }

    /// The ids of every group of this event, in round order.
    pub fn get_all_groups(&self) -> (r: Vec<GroupId>)
        ensures
            r@ == all_group_ids(self.rounds@),
    {
        let mut r: Vec<GroupId> = Vec::new();
        let n = self.rounds.len();
        let mut i: usize = 0;
        while i < n
            invariant
                i <= n,
                n == self.rounds@.len(),
                r@ == all_group_ids(self.rounds@.take(i as int)),
            decreases n - i,
        {
            let mut round_groups = self.rounds.at(i).get_all_groups();
            proof {
                assert(self.rounds@.take(i + 1).drop_last() =~= self.rounds@.take(i as int));
                assert(self.rounds@.take(i + 1).last() == self.rounds@[i as int]);
                assert(round_groups@ =~= self.rounds@[i as int].groups@.map_values(
                    |g: Group| g.id,
                ));
            }
            r.append(&mut round_groups);
            i = i + 1;
        }
        proof {
            assert(self.rounds@.take(n as int) =~= self.rounds@);
        }
        r
    }

    /// The ids of this event's groups that have no arena assignment.
    pub fn get_free_groups(&self) -> (r: Vec<GroupId>)
        ensures
            r@ == rounds_free_ids(self.rounds@),
    {
        let mut r: Vec<GroupId> = Vec::new();
        let n = self.rounds.len();
        let mut i: usize = 0;
        while i < n
            invariant
                i <= n,
                n == self.rounds@.len(),
                r@ == rounds_free_ids(self.rounds@.take(i as int)),
            decreases n - i,
        {
            let mut round_groups = self.rounds.at(i).get_free_groups();
            proof {
                assert(self.rounds@.take(i + 1).drop_last() =~= self.rounds@.take(i as int));
                assert(self.rounds@.take(i + 1).last() == self.rounds@[i as int]);
            }
            r.append(&mut round_groups);
            i = i + 1;
        }
        proof {
            assert(self.rounds@.take(n as int) =~= self.rounds@);
        }
        r
    }

    /// The group `id` addresses, by round then group number.
    pub fn get_group_by_id(&self, id: &GroupId) -> (r: Option<&Group>)
        ensures
            match r {
                Some(g) => self.spec_group_of(id.round_id, id.group_id) == Some(*g),
                None => self.spec_group_of(id.round_id, id.group_id) is None,
            },
    {
        match self.rounds.get(id.round_id) {
            Some(round) => round.get_group_by_id(id),
            None => None,
        }
    }

    pub fn to_simple(&self) -> (r: SimpleBewerbData)
        ensures
            r.id == self.id.bewerb_id,
            r.name == self.id.bewerb_name,
            r.n_rounds == self.n_rounds,
            r.n_groups == self.n_groups,
    {
        SimpleBewerbData {
            id: self.id.bewerb_id,
            name: self.id.bewerb_name.clone(),
            n_rounds: self.n_rounds,
            n_groups: self.n_groups,
        }
    }

    pub fn to_saveable(&self) -> (r: BewerbSaveable)
        ensures
            bewerb_saved(*self, r),
            r.id == self.id,
            r.n_rounds == self.n_rounds,
            r.n_groups == self.n_groups,
            r.rounds@.len() == self.rounds@.len(),
            forall|j: int| 0 <= j < self.rounds@.len() ==> round_saved(
                #[trigger] self.rounds@[j],
                r.rounds@[j],
            ),
    {
        let mut rounds: Vec<RoundSaveable> = Vec::new();
        let n = self.rounds.len();
        let mut i: usize = 0;
        while i < n
            invariant
                i <= n,
                n == self.rounds@.len(),
                rounds@.len() == i,
                forall|j: int| 0 <= j < i ==> round_saved(
                    #[trigger] self.rounds@[j],
                    rounds@[j],
                ),
            decreases n - i,
        {
            rounds.push(self.rounds.at(i).to_saveable());
            i = i + 1;
        }
        BewerbSaveable {
            id: self.id.clone(),
            n_rounds: self.n_rounds,
            n_groups: self.n_groups,
            rounds,
        }
    }

    /// Build phase of reconstruction: rebuilds the round list, skipping
    /// records whose round number is already taken and forcing the
    /// denormalized event number throughout.
    pub fn from_saveable(s: &BewerbSaveable) -> (r: Self)
        ensures
            r.id == s.id,
            r.n_rounds == s.n_rounds,
            r.n_groups == s.n_groups,
            is_loaded_rounds(s.rounds@, r.rounds@, s.id.bewerb_id),
            r.wf(),
    {
        let mut rounds: UidContainer<Round> = UidContainer::new();
        let n = s.rounds.len();
        let mut i: usize = 0;
        while i < n
            invariant
                i <= n,
                n == s.rounds@.len(),
                is_loaded_list(
                    s.rounds@.take(i as int),
                    rounds@,
                    round_sid(),
                    round_load_rel(s.id.bewerb_id),
                ),
            decreases n - i,
        {
            let rec = &s.rounds[i];
            let ghost pre = rounds@;
            let present = rounds.contains_id(rec.id.round_id);
            if !present {
                let round = Round::from_saveable(rec, s.id.bewerb_id);
                rounds.insert(round);
            }
            proof {
                let sid2 = round_sid();
                let rel2 = round_load_rel(s.id.bewerb_id);
                let srec = s.rounds@[i as int];
                assert(sid2(srec) == srec.id.round_id);
                if present {
                    lemma_loaded_list_step(s.rounds@, i as int, pre, pre[0], sid2, rel2);
                } else {
                    let r2 = rounds@.last();
                    assert(rounds@ =~= pre.push(r2));
                    assert(rel2(srec, r2));
                    assert(r2.spec_id() == sid2(srec));
                    lemma_loaded_list_step(s.rounds@, i as int, pre, r2, sid2, rel2);
                }
            }
            i = i + 1;
        }
        proof {
            assert(s.rounds@.take(n as int) =~= s.rounds@);
        }
        let r = Bewerb {
            id: s.id.clone(),
            n_rounds: s.n_rounds,
            n_groups: s.n_groups,
            rounds,
        };
        proof {
            let sid2 = round_sid();
            let rel2 = round_load_rel(s.id.bewerb_id);
            let p = |rd: Round| rd.id.bewerb_id == s.id.bewerb_id && rd.wf();
            lemma_loaded_list_ids(s.rounds@, r.rounds@, sid2, rel2);
            assert forall|x: RoundSaveable, rd: Round| #[trigger] rel2(x, rd) implies p(rd) by {}
            lemma_loaded_list_all(s.rounds@, r.rounds@, sid2, rel2, p);
            assert forall|j: int| 0 <= j < r.rounds@.len() implies (
            #[trigger] r.rounds@[j]).id.bewerb_id == r.id.bewerb_id && r.rounds@[j].wf() by {
                assert(p(r.rounds@[j]));
            }
        }
        r
    }
}

impl HasId for Bewerb {
    open spec fn spec_id(&self) -> u32 {
        self.id.bewerb_id
    }

    open spec fn is_renumbered(&self, r: Self, id: u32) -> bool {
        &&& r.id == (BewerbId { bewerb_name: self.id.bewerb_name, bewerb_id: id })
        &&& r.n_rounds == self.n_rounds
        &&& r.n_groups == self.n_groups
        &&& r.rounds@.len() == self.rounds@.len()
        &&& forall|j: int| 0 <= j < self.rounds@.len() ==> (
        #[trigger] self.rounds@[j]).renumbered_bewerb(r.rounds@[j], id)
    }

    fn get_id(&self) -> (r: u32)
        ensures
            r == self.spec_id(),
    {
        self.id.bewerb_id
    }

    fn set_id(&mut self, id: u32)
        ensures
            old(self).is_renumbered(*final(self), id),
            final(self).spec_id() == id,
    {
        self.id.bewerb_id = id;
        let n = self.rounds.len();
        let mut i: usize = 0;
        while i < n
            invariant
                i <= n,
                n == self.rounds@.len(),
                self.id == (BewerbId {
                    bewerb_name: old(self).id.bewerb_name,
                    bewerb_id: id,
                }),
                self.n_rounds == old(self).n_rounds,
                self.n_groups == old(self).n_groups,
                self.rounds@.len() == old(self).rounds@.len(),
                forall|j: int| 0 <= j < i ==> (#[trigger] old(self).rounds@[j]).renumbered_bewerb(
                    self.rounds@[j],
                    id,
                ),
                forall|j: int| i <= j < n ==> self.rounds@[j] == old(self).rounds@[j],
            decreases n - i,
        {
            let rd = self.rounds.at_mut(i);
            rd.set_bewerb_id(id);
            i = i + 1;
        }
    }
}

} // verus!
