//! One phase of an event, owning its groups.

use vstd::prelude::*;
use crate::bewerb::BewerbId;
use crate::container::{
    find_index, has_id, is_loaded_list, lemma_idx_of_props, lemma_loaded_list_all,
    lemma_loaded_list_ids, lemma_loaded_list_step, unique_ids, HasId,
};
use crate::group::{Group, GroupId, GroupSaveable};

verus! {

/// Key of a round: event (with denormalized name) and round number.
#[derive(Debug, PartialEq, Eq)]
pub struct RoundId {
    pub bewerb_name: String,
    pub bewerb_id: u32,
    pub round_id: u32,
}

impl Clone for RoundId {
    fn clone(&self) -> (r: Self)
        ensures
            r == *self,
    {
        RoundId {
            bewerb_name: self.bewerb_name.clone(),
            bewerb_id: self.bewerb_id,
            round_id: self.round_id,
        }
    }
}

/// A round and its groups.
#[derive(Debug)]
pub struct Round {
    pub id: RoundId,
    pub groups: Vec<Group>,
}

/// Saveable form of a round.
#[derive(Debug)]
pub struct RoundSaveable {
    pub id: RoundId,
    pub groups: Vec<GroupSaveable>,
}

/// The saveable record a group writes.
pub open spec fn spec_save_group(g: Group) -> GroupSaveable {
    GroupSaveable { id: g.id, arena_slot: g.arena_slot }
}

/// The identifier a group record claims.
pub open spec fn group_sid() -> spec_fn(GroupSaveable) -> u32 {
    |s: GroupSaveable| s.id.group_id
}

/// How a group record rebuilds under the given parent numbers: key normalized,
/// recorded arena id carried over, member list empty until the fencers are
/// loaded.
pub open spec fn group_load_rel(bewerb_id: u32, round_id: u32) -> spec_fn(
    GroupSaveable,
    Group,
) -> bool {
    |s: GroupSaveable, g: Group|
        {
            &&& g.id == (GroupId {
                bewerb_name: s.id.bewerb_name,
                bewerb_id,
                round_id,
                group_id: s.id.group_id,
            })
            &&& g.arena_slot == s.arena_slot
            &&& g.fencers@ == Seq::<u32>::empty()
        }
}

/// `out` is the group list rebuilt from the records `ss`.
pub open spec fn is_loaded_groups(
    ss: Seq<GroupSaveable>,
    out: Seq<Group>,
    bewerb_id: u32,
    round_id: u32,
) -> bool {
    is_loaded_list(ss, out, group_sid(), group_load_rel(bewerb_id, round_id))
}

/// The ids of the groups in `gs` that have no arena assignment, in order.
pub open spec fn free_ids(gs: Seq<Group>) -> Seq<GroupId>
    decreases gs.len(),
{
    if gs.len() == 0 {
        Seq::empty()
    } else {
        let p = free_ids(gs.drop_last());
        if gs.last().arena_slot is None {
            p.push(gs.last().id)
        } else {
            p
        }
    }
}

/// Membership in `free_ids`: exactly the ids of arena-free groups.
pub proof fn lemma_free_ids_contains(gs: Seq<Group>)
    ensures
        forall|gid: GroupId| #[trigger] free_ids(gs).contains(gid) <==> exists|i: int|
            0 <= i < gs.len() && (#[trigger] gs[i].id) == gid && gs[i].arena_slot is None,
    decreases gs.len(),
{
    if gs.len() == 0 {
    } else {
        lemma_free_ids_contains(gs.drop_last());
        let p = free_ids(gs.drop_last());
        assert(forall|i: int| 0 <= i < gs.len() - 1 ==> gs.drop_last()[i] == gs[i]);
        assert forall|gid: GroupId| #[trigger] free_ids(gs).contains(gid) implies exists|i: int|
            0 <= i < gs.len() && (#[trigger] gs[i].id) == gid && gs[i].arena_slot is None by {
            if p.contains(gid) {
                let i = choose|i: int|
                    0 <= i < gs.len() - 1 && (#[trigger] gs.drop_last()[i].id) == gid
                        && gs.drop_last()[i].arena_slot is None;
                assert(gs[i].id == gid && gs[i].arena_slot is None);
            } else {
                assert(gs.last().arena_slot is None && gs.last().id == gid);
                assert(gs[gs.len() - 1].id == gid);
            }
        }
        assert forall|gid: GroupId|
            (exists|i: int|
                0 <= i < gs.len() && (#[trigger] gs[i].id) == gid && gs[i].arena_slot is None)
            implies #[trigger] free_ids(gs).contains(gid) by {
            let i = choose|i: int|
                0 <= i < gs.len() && (#[trigger] gs[i].id) == gid && gs[i].arena_slot is None;
            if i < gs.len() - 1 {
                assert(gs.drop_last()[i].id == gid && gs.drop_last()[i].arena_slot is None);
                assert(p.contains(gid));
                if gs.last().arena_slot is None {
                    assert(free_ids(gs) == p.push(gs.last().id));
                    assert(free_ids(gs)[p.index_of(gid)] == gid);
                }
            } else {
                assert(free_ids(gs).last() == gid);
            }
        }
    }
}

/// Round trip of one round's group list: saving well-parented groups and
/// rebuilding them under the same parent numbers reproduces every group's id
/// and its recorded arena reference; only the member lists start empty, to be
/// rebuilt from the fencer records.
pub proof fn lemma_groups_roundtrip(
    groups: Seq<Group>,
    recs: Seq<GroupSaveable>,
    out: Seq<Group>,
    bewerb_id: u32,
    round_id: u32,
)
    requires
        crate::container::unique_ids(groups),
        forall|k: int|
            0 <= k < groups.len() ==> (#[trigger] groups[k]).id.bewerb_id == bewerb_id
                && groups[k].id.round_id == round_id,
        recs == groups.map_values(|g: Group| spec_save_group(g)),
        is_loaded_groups(recs, out, bewerb_id, round_id),
    ensures
        out.len() == groups.len(),
        forall|k: int|
            0 <= k < groups.len() ==> ((#[trigger] out[k]).id == groups[k].id && out[k].arena_slot
                == groups[k].arena_slot && out[k].fencers@ == Seq::<u32>::empty()),
{
    let sid2 = group_sid();
    let rel2 = group_load_rel(bewerb_id, round_id);
    assert forall|i: int, j: int| 0 <= i < j < recs.len() implies sid2(#[trigger] recs[i]) != sid2(
        #[trigger] recs[j],
    ) by {
        assert(recs[i] == spec_save_group(groups[i]));
        assert(recs[j] == spec_save_group(groups[j]));
        assert(groups[i].spec_id() != groups[j].spec_id());
    }
    crate::container::lemma_loaded_list_exact(recs, out, sid2, rel2);
    assert forall|k: int| 0 <= k < groups.len() implies ((#[trigger] out[k]).id == groups[k].id
        && out[k].arena_slot == groups[k].arena_slot && out[k].fencers@ == Seq::<
        u32,
    >::empty()) by {
        assert(rel2(recs[k], out[k]));
        assert(recs[k] == spec_save_group(groups[k]));
    }
}

impl Round {
    /// Hierarchical id consistency: every group carries this round's event and
    /// round numbers, and no two groups share a number.
    pub open spec fn wf(&self) -> bool {
        &&& unique_ids(self.groups@)
        &&& forall|k: int|
            0 <= k < self.groups@.len() ==> (#[trigger] self.groups@[k]).id.bewerb_id
                == self.id.bewerb_id && self.groups@[k].id.round_id == self.id.round_id
    }

    /// `r` is `self` with the denormalized event number rewritten to `b`.
    pub open spec fn renumbered_bewerb(&self, r: Round, b: u32) -> bool {
        &&& r.id == (RoundId {
            bewerb_name: self.id.bewerb_name,
            bewerb_id: b,
            round_id: self.id.round_id,
        })
        &&& r.groups@.len() == self.groups@.len()
        &&& forall|k: int|
            0 <= k < self.groups@.len() ==> r.groups@[k] == (
            #[trigger] self.groups@[k]).with_bewerb(b)
    }

    /// Builds the round with `n_groups` groups numbered from zero, all free.
    pub fn new(bewerb_id: &BewerbId, n_groups: u32, round_id: u32) -> (r: Self)
        ensures
            r.id == (RoundId {
                bewerb_name: bewerb_id.bewerb_name,
                bewerb_id: bewerb_id.bewerb_id,
                round_id,
            }),
            r.groups@.len() == n_groups,
            forall|k: int|
                0 <= k < n_groups ==> ((#[trigger] r.groups@[k]).id == (GroupId {
                    bewerb_name: bewerb_id.bewerb_name,
                    bewerb_id: bewerb_id.bewerb_id,
                    round_id,
                    group_id: k as u32,
                }) && r.groups@[k].arena_slot is None && r.groups@[k].fencers@ == Seq::<
                    u32,
                >::empty()),
            r.wf(),
    {
        let id = RoundId {
            bewerb_name: bewerb_id.bewerb_name.clone(),
            bewerb_id: bewerb_id.bewerb_id,
            round_id,
        };
        let mut groups: Vec<Group> = Vec::new();
        let mut i: u32 = 0;
        while i < n_groups
            invariant
                i <= n_groups,
                groups@.len() == i,
                forall|k: int|
                    0 <= k < i ==> ((#[trigger] groups@[k]).id == (GroupId {
                        bewerb_name: bewerb_id.bewerb_name,
                        bewerb_id: bewerb_id.bewerb_id,
                        round_id,
                        group_id: k as u32,
                    }) && groups@[k].arena_slot is None && groups@[k].fencers@ == Seq::<
                        u32,
                    >::empty()),
            decreases n_groups - i,
        {
            let gid = GroupId {
                bewerb_name: bewerb_id.bewerb_name.clone(),
                bewerb_id: bewerb_id.bewerb_id,
                round_id,
                group_id: i,
            };
            groups.push(Group::new(gid));
            i = i + 1;
        }
        let r = Round { id, groups };
        proof {
            assert forall|i2: int, j2: int| 0 <= i2 < j2 < r.groups@.len() implies (
            #[trigger] r.groups@[i2].spec_id()) != (#[trigger] r.groups@[j2].spec_id()) by {
                assert(r.groups@[i2].id.group_id == i2 as u32);
                assert(r.groups@[j2].id.group_id == j2 as u32);
            }
        }
        r
    }

    /// The ids of all groups of this round, in order.
    pub fn get_all_groups(&self) -> (r: Vec<GroupId>)
        ensures
            r@.len() == self.groups@.len(),
            forall|k: int| 0 <= k < r@.len() ==> r@[k] == (#[trigger] self.groups@[k]).id,
    {
        let mut r: Vec<GroupId> = Vec::new();
        let n = self.groups.len();
        let mut i: usize = 0;
        while i < n
            invariant
                i <= n,
                n == self.groups@.len(),
                r@.len() == i,
                forall|k: int| 0 <= k < i ==> r@[k] == (#[trigger] self.groups@[k]).id,
            decreases n - i,
        {
            r.push(self.groups[i].id());
            i = i + 1;
        }
        r
    }

    /// The ids of this round's groups that have no arena assignment.
    pub fn get_free_groups(&self) -> (r: Vec<GroupId>)
        ensures
            r@ == free_ids(self.groups@),
    {
        let mut r: Vec<GroupId> = Vec::new();
        let n = self.groups.len();
        let mut i: usize = 0;
        while i < n
            invariant
                i <= n,
                n == self.groups@.len(),
                r@ == free_ids(self.groups@.take(i as int)),
            decreases n - i,
        {
            let g = &self.groups[i];
            proof {
                assert(self.groups@.take(i + 1).drop_last() =~= self.groups@.take(i as int));
                assert(self.groups@.take(i + 1).last() == self.groups@[i as int]);
            }
            if g.get_arena().is_none() {
                r.push(g.id());
            }
            i = i + 1;
        }
        proof {
            assert(self.groups@.take(n as int) =~= self.groups@);
        }
        r
    }

    /// The group with `id`'s group number, if any.
    pub fn get_group_by_id(&self, id: &GroupId) -> (r: Option<&Group>)
        ensures
            match r {
                Some(g) => crate::container::find_id(self.groups@, id.group_id) == Some(*g),
                None => crate::container::find_id(self.groups@, id.group_id) is None,
            },
    {
        match find_index(&self.groups, id.group_id) {
            Some(i) => Some(&self.groups[i]),
            None => None,
        }
    }

    /// Rewrites the denormalized event number here and in every group
    /// (invariant 5).
    pub fn set_bewerb_id(&mut self, b: u32)
        ensures
            old(self).renumbered_bewerb(*final(self), b),
    {
        self.id.bewerb_id = b;
        let n = self.groups.len();
        let mut i: usize = 0;
        while i < n
            invariant
                i <= n,
                n == self.groups@.len(),
                self.id == (RoundId {
                    bewerb_name: old(self).id.bewerb_name,
                    bewerb_id: b,
                    round_id: old(self).id.round_id,
                }),
                self.groups@.len() == old(self).groups@.len(),
                forall|k: int|
                    0 <= k < i ==> self.groups@[k] == (#[trigger] old(self).groups@[k])
                        .with_bewerb(b),
                forall|k: int| i <= k < n ==> self.groups@[k] == old(self).groups@[k],
            decreases n - i,
        {
            let g = crate::container::elem_mut(&mut self.groups, i);
            g.set_bewerb_id(b);
            i = i + 1;
        }
    }

    pub fn to_saveable(&self) -> (r: RoundSaveable)
        ensures
            r.id == self.id,
            r.groups@ == self.groups@.map_values(|g: Group| spec_save_group(g)),
    {
        let mut groups: Vec<GroupSaveable> = Vec::new();
        let n = self.groups.len();
        let mut i: usize = 0;
        while i < n
            invariant
                i <= n,
                n == self.groups@.len(),
                groups@ == self.groups@.take(i as int).map_values(
                    |g: Group| spec_save_group(g),
                ),
            decreases n - i,
        {
            groups.push(self.groups[i].to_saveable());
            proof {
                assert(self.groups@.take(i + 1).drop_last() =~= self.groups@.take(i as int));
                assert(self.groups@.take(i + 1).map_values(|g: Group| spec_save_group(g))
                    =~= self.groups@.take(i as int).map_values(|g: Group| spec_save_group(g)).push(
                    spec_save_group(self.groups@[i as int]),
                ));
            }
            i = i + 1;
        }
        proof {
            assert(self.groups@.take(n as int) =~= self.groups@);
        }
        RoundSaveable { id: self.id.clone(), groups }
    }

    /// Build phase of reconstruction: rebuilds the group list, skipping
    /// records whose group number is already taken and forcing the
    /// denormalized parent numbers to this round's key.
    pub fn from_saveable(s: &RoundSaveable, bewerb_id: u32) -> (r: Self)
        ensures
            r.id == (RoundId {
                bewerb_name: s.id.bewerb_name,
                bewerb_id,
                round_id: s.id.round_id,
            }),
            is_loaded_groups(s.groups@, r.groups@, bewerb_id, s.id.round_id),
            r.wf(),
    {
        let mut groups: Vec<Group> = Vec::new();
        let n = s.groups.len();
        let mut i: usize = 0;
        while i < n
            invariant
                i <= n,
                n == s.groups@.len(),
                is_loaded_list(
                    s.groups@.take(i as int),
                    groups@,
                    group_sid(),
                    group_load_rel(bewerb_id, s.id.round_id),
                ),
            decreases n - i,
        {
            let rec = &s.groups[i];
            let ghost pre = groups@;
            let present = match find_index(&groups, rec.id.group_id) {
                Some(_) => true,
                None => false,
            };
            proof {
                lemma_idx_of_props(pre, rec.id.group_id);
            }
            if !present {
                let mut g = Group::from_saveable(rec);
                g.set_bewerb_id(bewerb_id);
                g.set_round_id(s.id.round_id);
                groups.push(g);
            }
            proof {
                let sid2 = group_sid();
                let rel2 = group_load_rel(bewerb_id, s.id.round_id);
                let srec = s.groups@[i as int];
                assert(sid2(srec) == srec.id.group_id);
                if present {
                    assert(has_id(pre, srec.id.group_id));
                    lemma_loaded_list_step(s.groups@, i as int, pre, pre[0], sid2, rel2);
                } else {
                    let g2 = groups@.last();
                    assert(groups@ =~= pre.push(g2));
                    assert(rel2(srec, g2));
                    assert(g2.spec_id() == sid2(srec));
                    assert(!has_id(pre, srec.id.group_id));
                    lemma_loaded_list_step(s.groups@, i as int, pre, g2, sid2, rel2);
                }
            }
            i = i + 1;
        }
        proof {
            assert(s.groups@.take(n as int) =~= s.groups@);
        }
        let r = Round {
            id: RoundId {
                bewerb_name: s.id.bewerb_name.clone(),
                bewerb_id,
                round_id: s.id.round_id,
            },
            groups,
        };
        proof {
            let sid2 = group_sid();
            let rel2 = group_load_rel(bewerb_id, s.id.round_id);
            let p = |g: Group| g.id.bewerb_id == bewerb_id && g.id.round_id == s.id.round_id;
            lemma_loaded_list_ids(s.groups@, r.groups@, sid2, rel2);
            assert forall|x: GroupSaveable, g: Group| #[trigger] rel2(x, g) implies p(g) by {}
            lemma_loaded_list_all(s.groups@, r.groups@, sid2, rel2, p);
            assert forall|k: int| 0 <= k < r.groups@.len() implies (
            #[trigger] r.groups@[k]).id.bewerb_id == r.id.bewerb_id && r.groups@[k].id.round_id
                == r.id.round_id by {
                assert(p(r.groups@[k]));
            }
        }
        r
    }
}

impl HasId for Round {
    open spec fn spec_id(&self) -> u32 {
        self.id.round_id
    }

    open spec fn is_renumbered(&self, r: Self, id: u32) -> bool {
        &&& r.id == (RoundId {
            bewerb_name: self.id.bewerb_name,
            bewerb_id: self.id.bewerb_id,
            round_id: id,
        })
        &&& r.groups@.len() == self.groups@.len()
        &&& forall|k: int|
            0 <= k < self.groups@.len() ==> r.groups@[k] == (
            #[trigger] self.groups@[k]).with_round(id)
    }

    fn get_id(&self) -> (r: u32)
        ensures
            r == self.spec_id(),
    {
        self.id.round_id
    }

    fn set_id(&mut self, id: u32)
        ensures
            old(self).is_renumbered(*final(self), id),
            final(self).spec_id() == id,
    {
        self.id.round_id = id;
        let n = self.groups.len();
        let mut i: usize = 0;
        while i < n
            invariant
                i <= n,
                n == self.groups@.len(),
                self.id == (RoundId {
                    bewerb_name: old(self).id.bewerb_name,
                    bewerb_id: old(self).id.bewerb_id,
                    round_id: id,
                }),
                self.groups@.len() == old(self).groups@.len(),
                forall|k: int|
                    0 <= k < i ==> self.groups@[k] == (#[trigger] old(self).groups@[k]).with_round(
                        id,
                    ),
                forall|k: int| i <= k < n ==> self.groups@[k] == old(self).groups@[k],
            decreases n - i,
        {
            let g = crate::container::elem_mut(&mut self.groups, i);
            g.set_round_id(id);
            i = i + 1;
        }
    }
}

} // verus!
