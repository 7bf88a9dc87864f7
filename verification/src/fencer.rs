//! The fencer roster: competitors and their per-event, per-round group slots.

use vstd::prelude::*;
use crate::bewerb::{Bewerb, BewerbId};
use crate::container::{find_id, find_index, idx_of, is_loaded_list, lemma_idx_of_props, HasId, UidContainer};
use crate::error::Warning;
use crate::group::GroupId;

verus! {

/// A fencer's assignment slots for one event: one slot per round, each
/// holding at most one group of that round.
#[derive(Debug)]
pub struct BewerbGroup {
    pub bewerb_id: BewerbId,
    pub groups: Vec<Option<GroupId>>,
}

/// Saveable form of a roster entry.
#[derive(Debug)]
pub struct BewerbGroupSaveable {
    pub bewerb_id: BewerbId,
    pub groups: Vec<Option<GroupId>>,
}

/// A competitor.
#[derive(Debug)]
pub struct Fencer {
    pub id: u32,
    pub name: String,
    pub bewerbs: Vec<BewerbGroup>,
}

/// Saveable form of a fencer: slots hold group ids only.
#[derive(Debug)]
pub struct FencerSaveable {
    pub id: u32,
    pub name: String,
    pub bewerbs: Vec<BewerbGroupSaveable>,
}

/// Wire-facing form of a fencer, as the roster sync exchanges it.
#[derive(Debug)]
pub struct SimpleFencer {
    pub id: u32,
    pub name: String,
    pub bewerbs: Vec<BewerbId>,
}

impl Clone for SimpleFencer {
    fn clone(&self) -> (r: Self)
        ensures
            r.id == self.id,
            r.name == self.name,
            r.bewerbs@ == self.bewerbs@,
    {
        let mut bewerbs: Vec<BewerbId> = Vec::new();
        let n = self.bewerbs.len();
        let mut i: usize = 0;
        while i < n
            invariant
                i <= n,
                n == self.bewerbs@.len(),
                bewerbs@ == self.bewerbs@.take(i as int),
            decreases n - i,
        {
            bewerbs.push(self.bewerbs[i].clone());
            proof {
                assert(bewerbs@ =~= self.bewerbs@.take(i + 1));
            }
            i = i + 1;
        }
        proof {
            assert(self.bewerbs@.take(n as int) =~= self.bewerbs@);
        }
        SimpleFencer { id: self.id, name: self.name.clone(), bewerbs }
    }
}

/// An empty roster entry for event `bid`, sized to `n` rounds (invariant 3).
pub open spec fn bg_empty(bid: BewerbId, n: u32, bg: BewerbGroup) -> bool {
    &&& bg.bewerb_id == bid
    &&& bg.groups@.len() == n
    &&& forall|k: int| 0 <= k < bg.groups@.len() ==> (#[trigger] bg.groups@[k]) is None
}

/// `out` is the roster built for the event list `ids` against the live events
/// `bs`: one empty entry per resolvable event, sized to its round count;
/// events that do not resolve are skipped.
pub open spec fn is_roster(ids: Seq<BewerbId>, bs: Seq<Bewerb>, out: Seq<BewerbGroup>) -> bool
    decreases ids.len(),
{
    if ids.len() == 0 {
        out.len() == 0
    } else {
        match find_id(bs, ids.last().bewerb_id) {
            Some(b) => out.len() > 0 && is_roster(ids.drop_last(), bs, out.drop_last())
                && bg_empty(ids.last(), b.n_rounds, out.last()),
            None => is_roster(ids.drop_last(), bs, out),
        }
    }
}

impl BewerbGroup {
    /// One empty slot per round of the event (invariant 3).
    pub fn new(id: &BewerbId, n_rounds: u32) -> (r: Self)
        ensures
            bg_empty(*id, n_rounds, r),
    {
        let mut groups: Vec<Option<GroupId>> = Vec::new();
        let mut i: u32 = 0;
        while i < n_rounds
            invariant
                i <= n_rounds,
                groups@.len() == i,
                forall|k: int| 0 <= k < i ==> (#[trigger] groups@[k]) is None,
            decreases n_rounds - i,
        {
            groups.push(None);
            i = i + 1;
        }
        BewerbGroup { bewerb_id: id.clone(), groups }
    }

    pub fn to_saveable(&self) -> (r: BewerbGroupSaveable)
        ensures
            r.bewerb_id == self.bewerb_id,
            r.groups@ == self.groups@,
    {
        let mut groups: Vec<Option<GroupId>> = Vec::new();
        let n = self.groups.len();
        let mut i: usize = 0;
        while i < n
            invariant
                i <= n,
                n == self.groups@.len(),
                groups@ == self.groups@.take(i as int),
            decreases n - i,
        {
            let g = match &self.groups[i] {
                Some(gid) => Some(gid.clone()),
                None => None,
            };
            groups.push(g);
            proof {
                assert(groups@ =~= self.groups@.take(i + 1));
            }
            i = i + 1;
        }
        proof {
            assert(self.groups@.take(n as int) =~= self.groups@);
        }
        BewerbGroupSaveable { bewerb_id: self.bewerb_id.clone(), groups }
    }
}

/// Builds the roster for `ids` against the live events (invariant 3): an
/// entry sized to the event's round count for each id that resolves.
pub fn roster_for(ids: &Vec<BewerbId>, live: &UidContainer<Bewerb>) -> (r: Vec<BewerbGroup>)
    ensures
        is_roster(ids@, live@, r@),
{
    let mut out: Vec<BewerbGroup> = Vec::new();
    let n = ids.len();
    let mut i: usize = 0;
    while i < n
        invariant
            i <= n,
            n == ids@.len(),
            is_roster(ids@.take(i as int), live@, out@),
        decreases n - i,
    {
        let bid = &ids[i];
        let ghost pre = out@;
        match live.get(bid.bewerb_id) {
            Some(b) => {
                out.push(BewerbGroup::new(bid, b.n_rounds));
            },
            None => {},
        }
        proof {
            assert(ids@.take(i + 1).drop_last() =~= ids@.take(i as int));
            assert(ids@.take(i + 1).last() == ids@[i as int]);
            match find_id(live@, ids@[i as int].bewerb_id) {
                Some(b) => {
                    assert(out@ =~= pre.push(out@.last()));
                    assert(out@.drop_last() =~= pre);
                },
                None => {},
            }
        }
        i = i + 1;
    }
    proof {
        assert(ids@.take(n as int) =~= ids@);
    }
    out
}

impl Fencer {
    /// A new, not yet numbered fencer, rostered for `bewerbs` (events that do
    /// not resolve are skipped).
    pub fn new(name: String, bewerbs: Vec<BewerbId>, live: &UidContainer<Bewerb>) -> (r: Self)
        ensures
            r.id == 0,
            r.name == name,
            is_roster(bewerbs@, live@, r.bewerbs@),
    {
        let roster = roster_for(&bewerbs, live);
        Fencer { id: 0, name, bewerbs: roster }
    }

    /// Overwrites the name and resets the assignment slots to empty, keyed to
    /// the supplied event list; existing bindings are discarded.
    pub fn update(&mut self, sf: &SimpleFencer, live: &UidContainer<Bewerb>)
        ensures
            final(self).id == old(self).id,
            final(self).name == sf.name,
            is_roster(sf.bewerbs@, live@, final(self).bewerbs@),
    {
        self.name = sf.name.clone();
        let roster = roster_for(&sf.bewerbs, live);
        self.bewerbs = roster;
    }

    /// Identity test for the roster sync's upsert: same id and same name.
    pub fn is_same(&self, sf: &SimpleFencer) -> (r: bool)
        ensures
            r == (self.id == sf.id && self.name@ == sf.name@),
    {
        self.id == sf.id && self.name == sf.name
    }

    /// Writes `gid` into this fencer's slot for its event and round.  Returns
    /// the group the slot held before, so the caller can strike this fencer
    /// from that group's member list; fails if the fencer is not rostered for
    /// the event or the roster has no slot for that round.
    pub fn add_group(&mut self, gid: &GroupId) -> (r: Result<Option<GroupId>, Warning>)
        ensures
            ({
                let i = idx_of(old(self).bewerbs@, gid.bewerb_id);
                if i < 0 {
                    r == Result::<Option<GroupId>, Warning>::Err(
                        Warning::FencerNotInBewerb(gid.bewerb_id),
                    ) && *final(self) == *old(self)
                } else if gid.round_id >= old(self).bewerbs@[i].groups@.len() {
                    r == Result::<Option<GroupId>, Warning>::Err(
                        Warning::RosterSlotMissing(gid.round_id),
                    ) && *final(self) == *old(self)
                } else {
                    let bg = old(self).bewerbs@[i];
                    &&& r == Result::<Option<GroupId>, Warning>::Ok(
                        bg.groups@[gid.round_id as int],
                    )
                    &&& final(self).id == old(self).id
                    &&& final(self).name == old(self).name
                    &&& final(self).bewerbs@.len() == old(self).bewerbs@.len()
                    &&& forall|j: int|
                        0 <= j < old(self).bewerbs@.len() && j != i ==> final(self).bewerbs@[j]
                            == old(self).bewerbs@[j]
                    &&& final(self).bewerbs@[i].bewerb_id == bg.bewerb_id
                    &&& final(self).bewerbs@[i].groups@ == bg.groups@.update(
                        gid.round_id as int,
                        Some(*gid),
                    )
                }
            }),
    {
        let fb = match find_index(&self.bewerbs, gid.bewerb_id) {
            Some(i) => i,
            None => {
                return Err(Warning::FencerNotInBewerb(gid.bewerb_id));
            },
        };
        let n = self.bewerbs[fb].groups.len();
        if gid.round_id as usize >= n {
            return Err(Warning::RosterSlotMissing(gid.round_id));
        }
        let bg = crate::container::elem_mut(&mut self.bewerbs, fb);
        let slot = crate::container::elem_mut(&mut bg.groups, gid.round_id as usize);
        let prev = match slot {
            Some(p) => Some(p.clone()),
            None => None,
        };
        *slot = Some(gid.clone());
        Ok(prev)
    }

    pub fn to_simple(&self) -> (r: SimpleFencer)
        ensures
            r.id == self.id,
            r.name == self.name,
            r.bewerbs@ == self.bewerbs@.map_values(|bg: BewerbGroup| bg.bewerb_id),
    {
        let mut bewerbs: Vec<BewerbId> = Vec::new();
        let n = self.bewerbs.len();
        let mut i: usize = 0;
        while i < n
            invariant
                i <= n,
                n == self.bewerbs@.len(),
                bewerbs@ == self.bewerbs@.take(i as int).map_values(
                    |bg: BewerbGroup| bg.bewerb_id,
                ),
            decreases n - i,
        {
            bewerbs.push(self.bewerbs[i].bewerb_id.clone());
            proof {
                assert(self.bewerbs@.take(i + 1).drop_last() =~= self.bewerbs@.take(i as int));
                assert(self.bewerbs@.take(i + 1).map_values(|bg: BewerbGroup| bg.bewerb_id)
                    =~= self.bewerbs@.take(i as int).map_values(
                    |bg: BewerbGroup| bg.bewerb_id,
                ).push(self.bewerbs@[i as int].bewerb_id));
            }
            i = i + 1;
        }
        proof {
            assert(self.bewerbs@.take(n as int) =~= self.bewerbs@);
        }
        SimpleFencer { id: self.id, name: self.name.clone(), bewerbs }
    }

    pub fn to_saveable(&self) -> (r: FencerSaveable)
        ensures
            r.id == self.id,
            r.name == self.name,
            r.bewerbs@.len() == self.bewerbs@.len(),
            forall|j: int|
                0 <= j < self.bewerbs@.len() ==> (#[trigger] r.bewerbs@[j]).bewerb_id
                    == self.bewerbs@[j].bewerb_id && r.bewerbs@[j].groups@
                    == self.bewerbs@[j].groups@,
    {
        let mut bewerbs: Vec<BewerbGroupSaveable> = Vec::new();
        let n = self.bewerbs.len();
        let mut i: usize = 0;
        while i < n
            invariant
                i <= n,
                n == self.bewerbs@.len(),
                bewerbs@.len() == i,
                forall|j: int|
                    0 <= j < i ==> (#[trigger] bewerbs@[j]).bewerb_id
                        == self.bewerbs@[j].bewerb_id && bewerbs@[j].groups@
                        == self.bewerbs@[j].groups@,
            decreases n - i,
        {
            bewerbs.push(self.bewerbs[i].to_saveable());
            i = i + 1;
        }
        FencerSaveable { id: self.id, name: self.name.clone(), bewerbs }
    }

    /// Build phase of reconstruction: the roster is rebuilt empty against the
    /// live events, sized to their round counts; recorded group references
    /// are resolved afterwards by the same mutation `add_group` performs.
    pub fn from_saveable(fs: &FencerSaveable, live: &UidContainer<Bewerb>) -> (r: Self)
        ensures
            r.id == fs.id,
            r.name == fs.name,
            is_roster(
                fs.bewerbs@.map_values(|bg: BewerbGroupSaveable| bg.bewerb_id),
                live@,
                r.bewerbs@,
            ),
    {
        let mut ids: Vec<BewerbId> = Vec::new();
        let n = fs.bewerbs.len();
        let mut i: usize = 0;
        while i < n
            invariant
                i <= n,
                n == fs.bewerbs@.len(),
                ids@ == fs.bewerbs@.take(i as int).map_values(
                    |bg: BewerbGroupSaveable| bg.bewerb_id,
                ),
            decreases n - i,
        {
            ids.push(fs.bewerbs[i].bewerb_id.clone());
            proof {
                assert(fs.bewerbs@.take(i + 1).drop_last() =~= fs.bewerbs@.take(i as int));
                assert(fs.bewerbs@.take(i + 1).map_values(
                    |bg: BewerbGroupSaveable| bg.bewerb_id,
                ) =~= fs.bewerbs@.take(i as int).map_values(
                    |bg: BewerbGroupSaveable| bg.bewerb_id,
                ).push(fs.bewerbs@[i as int].bewerb_id));
            }
            i = i + 1;
        }
        proof {
            assert(fs.bewerbs@.take(n as int) =~= fs.bewerbs@);
        }
        let roster = roster_for(&ids, live);
        Fencer { id: fs.id, name: fs.name.clone(), bewerbs: roster }
    }
}

impl HasId for Fencer {
    open spec fn spec_id(&self) -> u32 {
        self.id
    }

    open spec fn is_renumbered(&self, r: Self, id: u32) -> bool {
        r == (Fencer { id, name: self.name, bewerbs: self.bewerbs })
    }

    fn get_id(&self) -> (r: u32)
        ensures
            r == self.spec_id(),
    {
        self.id
    }

    fn set_id(&mut self, id: u32)
        ensures
            old(self).is_renumbered(*final(self), id),
            final(self).spec_id() == id,
    {
        self.id = id;
    }
}

impl HasId for BewerbGroup {
    open spec fn spec_id(&self) -> u32 {
        self.bewerb_id.bewerb_id
    }

    open spec fn is_renumbered(&self, r: Self, id: u32) -> bool {
        r == (BewerbGroup {
            bewerb_id: BewerbId { bewerb_name: self.bewerb_id.bewerb_name, bewerb_id: id },
            groups: self.groups,
        })
    }

    fn get_id(&self) -> (r: u32)
        ensures
            r == self.spec_id(),
    {
        self.bewerb_id.bewerb_id
    }

    fn set_id(&mut self, id: u32)
        ensures
            old(self).is_renumbered(*final(self), id),
            final(self).spec_id() == id,
    {
        self.bewerb_id.bewerb_id = id;
    }
}

/// The registry of fencers, id-keyed like the other containers.
#[derive(Debug)]
pub struct Fencers {
    pub fencers: UidContainer<Fencer>,
}

impl Fencers {
    pub fn new() -> (r: Self)
        ensures
            r.fencers@ == Seq::<Fencer>::empty(),
    {
        Fencers { fencers: UidContainer::new() }
    }

    /// Assigns the smallest unused id to `item` and appends it.
    pub fn push(&mut self, item: Fencer)
        requires
            old(self).fencers@.len() < u32::MAX,
        ensures
            final(self).fencers@.len() == old(self).fencers@.len() + 1,
            final(self).fencers@.subrange(0, old(self).fencers@.len() as int) == old(
                self,
            ).fencers@,
            final(self).fencers@.last() == (Fencer {
                id: crate::container::fresh_id(old(self).fencers@),
                name: item.name,
                bewerbs: item.bewerbs,
            }),
            crate::container::is_fresh_id(
                old(self).fencers@,
                crate::container::fresh_id(old(self).fencers@),
            ),
    {
        self.fencers.push(item);
    }

    /// Deletes the fencer with identifier `id`; no-op if absent.
    pub fn remove(&mut self, id: u32)
        ensures
            final(self).fencers@ == crate::container::remove_id(old(self).fencers@, id),
    {
        self.fencers.remove(id);
    }

    /// The fencer with identifier `id`, if any.
    pub fn get(&self, id: u32) -> (r: Option<&Fencer>)
        ensures
            match r {
                Some(f) => find_id(self.fencers@, id) == Some(*f),
                None => find_id(self.fencers@, id) is None,
            },
    {
        self.fencers.get(id)
    }

    pub fn len(&self) -> (r: usize)
        ensures
            r == self.fencers@.len(),
    {
        self.fencers.len()
    }

    pub fn at(&self, i: usize) -> (r: &Fencer)
        requires
            i < self.fencers@.len(),
        ensures
            *r == self.fencers@[i as int],
    {
        self.fencers.at(i)
    }

    /// Build phase of reconstruction: rebuilds the registry from the
    /// records, skipping records whose id is already taken; rosters are
    /// sized against the live events.  Recorded group references are
    /// resolved afterwards through the assignment engine.
    pub fn from(recs: &Vec<FencerSaveable>, live: &UidContainer<Bewerb>) -> (r: Fencers)
        ensures
            is_loaded_fencers(recs@, r.fencers@, live@),
    {
        let mut out: UidContainer<Fencer> = UidContainer::new();
        let n = recs.len();
        let mut i: usize = 0;
        while i < n
            invariant
                i <= n,
                n == recs@.len(),
                is_loaded_list(recs@.take(i as int), out@, fencer_sid(), fencer_load_rel(live@)),
            decreases n - i,
        {
            let rec = &recs[i];
            let ghost pre = out@;
            let present = out.contains_id(rec.id);
            if !present {
                let f = Fencer::from_saveable(rec, live);
                out.insert(f);
            }
            proof {
                let sid2 = fencer_sid();
                let rel2 = fencer_load_rel(live@);
                let srec = recs@[i as int];
                assert(sid2(srec) == srec.id);
                if present {
                    crate::container::lemma_loaded_list_step(
                        recs@,
                        i as int,
                        pre,
                        pre[0],
                        sid2,
                        rel2,
                    );
                } else {
                    let f2 = out@.last();
                    assert(out@ =~= pre.push(f2));
                    assert(rel2(srec, f2));
                    assert(f2.spec_id() == sid2(srec));
                    crate::container::lemma_loaded_list_step(recs@, i as int, pre, f2, sid2, rel2);
                }
            }
            i = i + 1;
        }
        proof {
            assert(recs@.take(n as int) =~= recs@);
        }
        Fencers { fencers: out }
    }

    /// The first fencer the record `sf` matches by identity, if any.
    pub fn find_same(&self, sf: &SimpleFencer) -> (r: Option<usize>)
        ensures
            match r {
                Some(j) => j == same_idx(self.fencers@, *sf) && j < self.fencers@.len(),
                None => same_idx(self.fencers@, *sf) == -1,
            },
    {
        let n = self.fencers.len();
        let mut j: usize = 0;
        while j < n
            invariant
                j <= n,
                n == self.fencers@.len(),
                forall|j2: int| 0 <= j2 < j ==> !spec_is_same(#[trigger] self.fencers@[j2], *sf),
            decreases n - j,
        {
            if self.fencers.at(j).is_same(sf) {
                proof {
                    lemma_same_idx_first(self.fencers@, *sf, j as int);
                }
                return Some(j);
            }
            j = j + 1;
        }
        proof {
            lemma_same_idx_props(self.fencers@, *sf);
        }
        None
    }

    /// The roster in its wire-facing form.
    pub fn to_simple(&self) -> (r: Vec<SimpleFencer>)
        ensures
            r@.len() == self.fencers@.len(),
            forall|j: int|
                0 <= j < self.fencers@.len() ==> ((#[trigger] r@[j]).id == self.fencers@[j].id
                    && r@[j].name == self.fencers@[j].name && r@[j].bewerbs@
                    == self.fencers@[j].bewerbs@.map_values(|bg: BewerbGroup| bg.bewerb_id)),
    {
        let mut out: Vec<SimpleFencer> = Vec::new();
        let n = self.fencers.len();
        let mut i: usize = 0;
        while i < n
            invariant
                i <= n,
                n == self.fencers@.len(),
                out@.len() == i,
                forall|j: int|
                    0 <= j < i ==> ((#[trigger] out@[j]).id == self.fencers@[j].id && out@[j].name
                        == self.fencers@[j].name && out@[j].bewerbs@
                        == self.fencers@[j].bewerbs@.map_values(|bg: BewerbGroup| bg.bewerb_id)),
            decreases n - i,
        {
            out.push(self.fencers.at(i).to_simple());
            i = i + 1;
        }
        out
    }

    /// The registry in its saveable form.
    pub fn to_saveables(&self) -> (r: Vec<FencerSaveable>)
        ensures
            r@.len() == self.fencers@.len(),
            forall|j: int| 0 <= j < self.fencers@.len() ==> fencer_saved(
                #[trigger] self.fencers@[j],
                r@[j],
            ),
    {
        let mut out: Vec<FencerSaveable> = Vec::new();
        let n = self.fencers.len();
        let mut i: usize = 0;
        while i < n
            invariant
                i <= n,
                n == self.fencers@.len(),
                out@.len() == i,
                forall|j: int| 0 <= j < i ==> fencer_saved(#[trigger] self.fencers@[j], out@[j]),
            decreases n - i,
        {
            out.push(self.fencers.at(i).to_saveable());
            i = i + 1;
        }
        out
    }
}

/// A freshly built roster holds no group reference at all.
pub proof fn lemma_is_roster_empty(ids: Seq<BewerbId>, bs: Seq<Bewerb>, out: Seq<BewerbGroup>)
    requires
        is_roster(ids, bs, out),
    ensures
        forall|j: int, k: int|
            0 <= j < out.len() && 0 <= k < out[j].groups@.len() ==> (
            #[trigger] out[j].groups@[k]) is None,
    decreases ids.len(),
{
    if ids.len() == 0 {
    } else {
        match find_id(bs, ids.last().bewerb_id) {
            Some(b) => {
                lemma_is_roster_empty(ids.drop_last(), bs, out.drop_last());
                assert forall|j: int, k: int|
                    0 <= j < out.len() && 0 <= k < out[j].groups@.len() implies (
                #[trigger] out[j].groups@[k]) is None by {
                    if j < out.len() - 1 {
                        assert(out.drop_last()[j] == out[j]);
                        assert(out.drop_last()[j].groups@[k] is None);
                    } else {
                        assert(bg_empty(ids.last(), b.n_rounds, out.last()));
                    }
                }
            },
            None => {
                lemma_is_roster_empty(ids.drop_last(), bs, out);
            },
        }
    }
}

/// The identifier a fencer record claims.
pub open spec fn fencer_sid() -> spec_fn(FencerSaveable) -> u32 {
    |s: FencerSaveable| s.id
}

/// How a fencer record rebuilds against the live events: the roster entries
/// come back empty and sized; recorded group references are resolved
/// afterwards by the same mutation `add_group` performs.
pub open spec fn fencer_load_rel(bs: Seq<Bewerb>) -> spec_fn(FencerSaveable, Fencer) -> bool {
    |s: FencerSaveable, f: Fencer|
        {
            &&& f.id == s.id
            &&& f.name == s.name
            &&& is_roster(
                s.bewerbs@.map_values(|bg: BewerbGroupSaveable| bg.bewerb_id),
                bs,
                f.bewerbs@,
            )
        }
}

/// `out` is the fencer list rebuilt from the records `ss`.
pub open spec fn is_loaded_fencers(
    ss: Seq<FencerSaveable>,
    out: Seq<Fencer>,
    bs: Seq<Bewerb>,
) -> bool {
    is_loaded_list(ss, out, fencer_sid(), fencer_load_rel(bs))
}

/// The slot write `add_group` performs, or nothing where the fencer has no
/// entry or no slot for the group's round.
pub open spec fn slot_write_applies(f0: Fencer, gid: GroupId) -> bool {
    let fb = idx_of(f0.bewerbs@, gid.bewerb_id);
    fb >= 0 && gid.round_id < f0.bewerbs@[fb].groups@.len()
}

/// The group the written slot held before, if the write applies.
pub open spec fn displaced_slot(f0: Fencer, gid: GroupId) -> Option<GroupId> {
    if slot_write_applies(f0, gid) {
        f0.bewerbs@[idx_of(f0.bewerbs@, gid.bewerb_id)].groups@[gid.round_id as int]
    } else {
        None
    }
}

/// Exactly what writing `gid` into `f0`'s slot does: the slot of the group's
/// round in the first entry of its event is overwritten, everything else is
/// kept; with no matching entry or slot, nothing changes.
pub open spec fn slot_write_step(f0: Fencer, gid: GroupId, f1: Fencer) -> bool {
    let fb = idx_of(f0.bewerbs@, gid.bewerb_id);
    if !slot_write_applies(f0, gid) {
        f1 == f0
    } else {
        &&& f1.id == f0.id
        &&& f1.name == f0.name
        &&& f1.bewerbs@.len() == f0.bewerbs@.len()
        &&& (forall|j: int| 0 <= j < f0.bewerbs@.len() && j != fb ==> f1.bewerbs@[j] == f0.bewerbs@[j])
        &&& f1.bewerbs@[fb].bewerb_id == f0.bewerbs@[fb].bewerb_id
        &&& f1.bewerbs@[fb].groups@ == f0.bewerbs@[fb].groups@.update(
            gid.round_id as int,
            Some(gid),
        )
    }
}

/// A chain of slot writes: one `slot_write_step` per group id, from `f0` to
/// `f1`.
pub open spec fn slot_chain_ok(f0: Fencer, gids: Seq<GroupId>, f1: Fencer, chain: Seq<Fencer>) -> bool {
    &&& chain.len() == gids.len() + 1
    &&& chain[0] == f0
    &&& chain.last() == f1
    &&& forall|j: int| 0 <= j < gids.len() ==> slot_write_step(chain[j], #[trigger] gids[j], chain[j + 1])
}

/// `f1` is `f0` after writing every listed group reference, in order.
pub open spec fn slot_writes_to(f0: Fencer, gids: Seq<GroupId>, f1: Fencer) -> bool {
    exists|chain: Seq<Fencer>| #[trigger] slot_chain_ok(f0, gids, f1, chain)
}

/// No writes: the fencer is unchanged.
pub proof fn lemma_slot_writes_empty(f0: Fencer, gids: Seq<GroupId>)
    requires
        gids.len() == 0,
    ensures
        slot_writes_to(f0, gids, f0),
{
    let chain = seq![f0];
    assert(slot_chain_ok(f0, gids, f0, chain));
}

/// One more write extends a chain of slot writes.
pub proof fn lemma_slot_writes_snoc(
    f0: Fencer,
    gids: Seq<GroupId>,
    mid: Fencer,
    gid: GroupId,
    f1: Fencer,
)
    requires
        slot_writes_to(f0, gids, mid),
        slot_write_step(mid, gid, f1),
    ensures
        slot_writes_to(f0, gids.push(gid), f1),
{
    let chain = choose|chain: Seq<Fencer>| #[trigger] slot_chain_ok(f0, gids, mid, chain);
    let chain2 = chain.push(f1);
    assert(slot_chain_ok(f0, gids.push(gid), f1, chain2)) by {
        assert(chain2[0] == chain[0]);
        assert forall|j: int| 0 <= j < gids.push(gid).len() implies slot_write_step(
            chain2[j],
            #[trigger] gids.push(gid)[j],
            chain2[j + 1],
        ) by {
            if j < gids.len() {
                assert(chain2[j] == chain[j] && chain2[j + 1] == chain[j + 1]);
                assert(slot_write_step(chain[j], gids[j], chain[j + 1]));
                assert(gids.push(gid)[j] == gids[j]);
            } else {
                assert(chain2[j] == chain.last());
                assert(chain.last() == mid);
                assert(gids.push(gid)[j] == gid);
                assert(chain2[j + 1] == f1);
            }
        }
    }
}

/// Slot writes never touch a fencer's id, name or roster shape.
pub proof fn lemma_slot_writes_shape(f0: Fencer, gids: Seq<GroupId>, f1: Fencer)
    requires
        slot_writes_to(f0, gids, f1),
    ensures
        f1.id == f0.id,
        f1.name == f0.name,
        f1.bewerbs@.len() == f0.bewerbs@.len(),
        forall|j: int|
            0 <= j < f0.bewerbs@.len() ==> ((#[trigger] f1.bewerbs@[j]).bewerb_id
                == f0.bewerbs@[j].bewerb_id && f1.bewerbs@[j].groups@.len()
                == f0.bewerbs@[j].groups@.len()),
    decreases gids.len(),
{
    let chain = choose|chain: Seq<Fencer>| #[trigger] slot_chain_ok(f0, gids, f1, chain);
    if gids.len() == 0 {
        assert(chain.last() == chain[0]);
    } else {
        let mid = chain[gids.len() as int - 1];
        assert(slot_chain_ok(f0, gids.drop_last(), mid, chain.drop_last())) by {
            assert(chain.drop_last().len() == gids.drop_last().len() + 1);
            assert(chain.drop_last()[0] == chain[0]);
            assert(chain.drop_last().last() == mid);
            assert forall|j: int| 0 <= j < gids.drop_last().len() implies slot_write_step(
                chain.drop_last()[j],
                #[trigger] gids.drop_last()[j],
                chain.drop_last()[j + 1],
            ) by {
                assert(chain.drop_last()[j] == chain[j]);
                assert(chain.drop_last()[j + 1] == chain[j + 1]);
                assert(gids.drop_last()[j] == gids[j]);
                assert(slot_write_step(chain[j], gids[j], chain[j + 1]));
            }
        }
        lemma_slot_writes_shape(f0, gids.drop_last(), mid);
        assert(slot_write_step(
            chain[gids.len() - 1],
            gids[gids.len() - 1],
            chain[gids.len() as int],
        ));
        assert(chain[gids.len() as int] == f1);
        let lb = idx_of(mid.bewerbs@, gids.last().bewerb_id);
        if slot_write_applies(mid, gids.last()) {
            assert forall|j: int| 0 <= j < f0.bewerbs@.len() implies ((
            #[trigger] f1.bewerbs@[j]).bewerb_id == f0.bewerbs@[j].bewerb_id
                && f1.bewerbs@[j].groups@.len() == f0.bewerbs@[j].groups@.len()) by {
                if j != lb {
                    assert(f1.bewerbs@[j] == mid.bewerbs@[j]);
                }
            }
        } else {
            assert(f1 == mid);
        }
    }
}

/// `is_roster` reads the event list only through ids and round counts.
pub proof fn lemma_is_roster_stable(
    ids: Seq<BewerbId>,
    bs1: Seq<Bewerb>,
    bs2: Seq<Bewerb>,
    out: Seq<BewerbGroup>,
)
    requires
        is_roster(ids, bs1, out),
        bs1.len() == bs2.len(),
        forall|i: int|
            0 <= i < bs1.len() ==> ((#[trigger] bs2[i]).id.bewerb_id == bs1[i].id.bewerb_id
                && bs2[i].n_rounds == bs1[i].n_rounds),
    ensures
        is_roster(ids, bs2, out),
    decreases ids.len(),
{
    if ids.len() == 0 {
    } else {
        crate::container::lemma_idx_of_same_ids(bs1, bs2, ids.last().bewerb_id);
        crate::container::lemma_idx_of_props(bs1, ids.last().bewerb_id);
        crate::container::lemma_idx_of_props(bs2, ids.last().bewerb_id);
        match find_id(bs1, ids.last().bewerb_id) {
            Some(b) => {
                let bi = idx_of(bs1, ids.last().bewerb_id);
                assert(find_id(bs2, ids.last().bewerb_id) == Some(bs2[bi]));
                assert(bs2[bi].n_rounds == b.n_rounds);
                lemma_is_roster_stable(ids.drop_last(), bs1, bs2, out.drop_last());
            },
            None => {
                assert(find_id(bs2, ids.last().bewerb_id) is None);
                lemma_is_roster_stable(ids.drop_last(), bs1, bs2, out);
            },
        }
    }
}

/// A roster entry for event `bid` sized to `n` rounds, slots arbitrary.
pub open spec fn bg_sized(bid: BewerbId, n: u32, bg: BewerbGroup) -> bool {
    &&& bg.bewerb_id == bid
    &&& bg.groups@.len() == n
}

/// The shape `is_roster` gives, kept under slot writes: one sized entry per
/// resolvable listed event, in order; slot contents free.
pub open spec fn is_roster_sized(ids: Seq<BewerbId>, bs: Seq<Bewerb>, out: Seq<BewerbGroup>) -> bool
    decreases ids.len(),
{
    if ids.len() == 0 {
        out.len() == 0
    } else {
        match find_id(bs, ids.last().bewerb_id) {
            Some(b) => out.len() > 0 && is_roster_sized(ids.drop_last(), bs, out.drop_last())
                && bg_sized(ids.last(), b.n_rounds, out.last()),
            None => is_roster_sized(ids.drop_last(), bs, out),
        }
    }
}

/// A freshly built roster has the sized shape.
pub proof fn lemma_is_roster_sized(ids: Seq<BewerbId>, bs: Seq<Bewerb>, out: Seq<BewerbGroup>)
    requires
        is_roster(ids, bs, out),
    ensures
        is_roster_sized(ids, bs, out),
    decreases ids.len(),
{
    if ids.len() == 0 {
    } else {
        match find_id(bs, ids.last().bewerb_id) {
            Some(b) => {
                lemma_is_roster_sized(ids.drop_last(), bs, out.drop_last());
            },
            None => {
                lemma_is_roster_sized(ids.drop_last(), bs, out);
            },
        }
    }
}

/// The sized shape survives any entry-preserving slot rewrite.
pub proof fn lemma_is_roster_sized_stable(
    ids: Seq<BewerbId>,
    bs: Seq<Bewerb>,
    out1: Seq<BewerbGroup>,
    out2: Seq<BewerbGroup>,
)
    requires
        is_roster_sized(ids, bs, out1),
        out2.len() == out1.len(),
        forall|j: int|
            0 <= j < out1.len() ==> ((#[trigger] out2[j]).bewerb_id == out1[j].bewerb_id
                && out2[j].groups@.len() == out1[j].groups@.len()),
    ensures
        is_roster_sized(ids, bs, out2),
    decreases ids.len(),
{
    if ids.len() == 0 {
    } else {
        match find_id(bs, ids.last().bewerb_id) {
            Some(b) => {
                assert(forall|j: int|
                    0 <= j < out1.len() - 1 ==> out1.drop_last()[j] == out1[j]
                        && out2.drop_last()[j] == out2[j]);
                lemma_is_roster_sized_stable(ids.drop_last(), bs, out1.drop_last(), out2.drop_last());
                assert(out2.last().bewerb_id == out1.last().bewerb_id);
            },
            None => {
                lemma_is_roster_sized_stable(ids.drop_last(), bs, out1, out2);
            },
        }
    }
}

/// A group key resolves against the event list: the addressed event, round
/// and group all exist.
pub open spec fn key_resolves(bs: Seq<Bewerb>, gid: GroupId) -> bool {
    match find_id(bs, gid.bewerb_id) {
        Some(b) => match find_id(b.rounds@, gid.round_id) {
            Some(r) => find_id(r.groups@, gid.group_id) is Some,
            None => false,
        },
        None => false,
    }
}

/// The resolvable group references recorded in one entry's slots, in order.
pub open spec fn entry_res(slots: Seq<Option<GroupId>>, bs: Seq<Bewerb>) -> Seq<GroupId>
    decreases slots.len(),
{
    if slots.len() == 0 {
        Seq::empty()
    } else {
        let p = entry_res(slots.drop_last(), bs);
        match slots.last() {
            Some(gid) => if key_resolves(bs, gid) {
                p.push(gid)
            } else {
                p
            },
            None => p,
        }
    }
}

/// The resolvable group references a fencer record carries, in entry order.
pub open spec fn rec_res(entries: Seq<BewerbGroupSaveable>, bs: Seq<Bewerb>) -> Seq<GroupId>
    decreases entries.len(),
{
    if entries.len() == 0 {
        Seq::empty()
    } else {
        rec_res(entries.drop_last(), bs) + entry_res(entries.last().groups@, bs)
    }
}

/// How one fencer record ends up installed: a fencer with the record's id
/// and name, whose roster was built sized against the live events and then
/// received one slot write per resolvable recorded group reference, in
/// order.
pub open spec fn fencer_installed_rel(bs: Seq<Bewerb>) -> spec_fn(FencerSaveable, Fencer) -> bool {
    |s: FencerSaveable, f: Fencer|
        {
            &&& f.id == s.id
            &&& f.name == s.name
            &&& is_roster_sized(
                s.bewerbs@.map_values(|bg: BewerbGroupSaveable| bg.bewerb_id),
                bs,
                f.bewerbs@,
            )
            &&& exists|fb: Fencer|
                {
                    &&& is_roster(
                        s.bewerbs@.map_values(|bg: BewerbGroupSaveable| bg.bewerb_id),
                        bs,
                        fb.bewerbs@,
                    )
                    &&& fb.id == s.id
                    &&& fb.name == s.name
                    &&& #[trigger] slot_writes_to(fb, rec_res(s.bewerbs@, bs), f)
                }
        }
}

/// `out` is the installed registry for the records `ss`: duplicates skipped,
/// every other record installed per `fencer_installed_rel`.
pub open spec fn is_installed_fencers(
    ss: Seq<FencerSaveable>,
    out: Seq<Fencer>,
    bs: Seq<Bewerb>,
) -> bool {
    is_loaded_list(ss, out, fencer_sid(), fencer_installed_rel(bs))
}

/// When every event in the list resolves, the built roster has exactly one
/// sized entry per listed event, in order.
pub proof fn lemma_is_roster_resolved(ids: Seq<BewerbId>, bs: Seq<Bewerb>, out: Seq<BewerbGroup>)
    requires
        is_roster(ids, bs, out),
        forall|k: int| 0 <= k < ids.len() ==> find_id(bs, (#[trigger] ids[k]).bewerb_id) is Some,
    ensures
        out.len() == ids.len(),
        forall|k: int| 0 <= k < ids.len() ==> bg_empty(
            #[trigger] ids[k],
            find_id(bs, ids[k].bewerb_id).unwrap().n_rounds,
            out[k],
        ),
    decreases ids.len(),
{
    if ids.len() == 0 {
    } else {
        assert(forall|k: int| 0 <= k < ids.len() - 1 ==> ids.drop_last()[k] == ids[k]);
        match find_id(bs, ids.last().bewerb_id) {
            Some(b) => {
                lemma_is_roster_resolved(ids.drop_last(), bs, out.drop_last());
                assert forall|k: int| 0 <= k < ids.len() implies bg_empty(
                    #[trigger] ids[k],
                    find_id(bs, ids[k].bewerb_id).unwrap().n_rounds,
                    out[k],
                ) by {
                    if k < ids.len() - 1 {
                        assert(out.drop_last()[k] == out[k]);
                        assert(bg_empty(
                            ids.drop_last()[k],
                            find_id(bs, ids.drop_last()[k].bewerb_id).unwrap().n_rounds,
                            out.drop_last()[k],
                        ));
                    } else {
                        assert(bg_empty(ids.last(), b.n_rounds, out.last()));
                    }
                }
            },
            None => {
                assert(find_id(bs, ids[ids.len() - 1].bewerb_id) is None);
            },
        }
    }
}

/// Round trip of the fencer registry's build phase: every fencer returns
/// under its id and name, with one empty roster entry per surviving event,
/// sized to that event's round count.  The recorded slot bindings are then
/// re-established through the assignment engine's own mutation path.
pub proof fn lemma_fencers_roundtrip(
    fs: Seq<Fencer>,
    recs: Seq<FencerSaveable>,
    out: Seq<Fencer>,
    bs: Seq<Bewerb>,
)
    requires
        crate::container::unique_ids(fs),
        recs.len() == fs.len(),
        forall|i: int| 0 <= i < fs.len() ==> fencer_saved(#[trigger] fs[i], recs[i]),
        forall|i: int, j: int|
            0 <= i < fs.len() && 0 <= j < fs[i].bewerbs@.len() ==> find_id(
                bs,
                (#[trigger] fs[i].bewerbs@[j]).bewerb_id.bewerb_id,
            ) is Some,
        is_loaded_fencers(recs, out, bs),
    ensures
        out.len() == fs.len(),
        forall|i: int|
            0 <= i < fs.len() ==> ((#[trigger] out[i]).id == fs[i].id && out[i].name
                == fs[i].name && out[i].bewerbs@.len() == fs[i].bewerbs@.len()),
        forall|i: int, j: int|
            0 <= i < fs.len() && 0 <= j < fs[i].bewerbs@.len() ==> bg_empty(
                (#[trigger] fs[i].bewerbs@[j]).bewerb_id,
                find_id(bs, fs[i].bewerbs@[j].bewerb_id.bewerb_id).unwrap().n_rounds,
                out[i].bewerbs@[j],
            ),
{
    let sid2 = fencer_sid();
    let rel2 = fencer_load_rel(bs);
    assert forall|i: int, j: int| 0 <= i < j < recs.len() implies sid2(#[trigger] recs[i]) != sid2(
        #[trigger] recs[j],
    ) by {
        assert(fencer_saved(fs[i], recs[i]));
        assert(fencer_saved(fs[j], recs[j]));
        assert(fs[i].spec_id() != fs[j].spec_id());
    }
    crate::container::lemma_loaded_list_exact(recs, out, sid2, rel2);
    assert forall|i: int| 0 <= i < fs.len() implies ((#[trigger] out[i]).id == fs[i].id
        && out[i].name == fs[i].name && out[i].bewerbs@.len() == fs[i].bewerbs@.len()) by {
        assert(rel2(recs[i], out[i]));
        assert(fencer_saved(fs[i], recs[i]));
        let ids = recs[i].bewerbs@.map_values(|bg: BewerbGroupSaveable| bg.bewerb_id);
        assert forall|k: int| 0 <= k < ids.len() implies find_id(
            bs,
            (#[trigger] ids[k]).bewerb_id,
        ) is Some by {
            assert(recs[i].bewerbs@[k].bewerb_id == fs[i].bewerbs@[k].bewerb_id);
        }
        lemma_is_roster_resolved(ids, bs, out[i].bewerbs@);
    }
    assert forall|i: int, j: int|
        0 <= i < fs.len() && 0 <= j < fs[i].bewerbs@.len() implies bg_empty(
        (#[trigger] fs[i].bewerbs@[j]).bewerb_id,
        find_id(bs, fs[i].bewerbs@[j].bewerb_id.bewerb_id).unwrap().n_rounds,
        out[i].bewerbs@[j],
    ) by {
        assert(rel2(recs[i], out[i]));
        assert(fencer_saved(fs[i], recs[i]));
        let ids = recs[i].bewerbs@.map_values(|bg: BewerbGroupSaveable| bg.bewerb_id);
        assert forall|k: int| 0 <= k < ids.len() implies find_id(
            bs,
            (#[trigger] ids[k]).bewerb_id,
        ) is Some by {
            assert(recs[i].bewerbs@[k].bewerb_id == fs[i].bewerbs@[k].bewerb_id);
        }
        lemma_is_roster_resolved(ids, bs, out[i].bewerbs@);
        assert(ids[j] == fs[i].bewerbs@[j].bewerb_id);
    }
}

/// The round count of the event `b` in the list `bs`.
pub open spec fn spec_n_rounds(bs: Seq<Bewerb>, b: u32) -> u32 {
    match find_id(bs, b) {
        Some(bw) => bw.n_rounds,
        None => 0,
    }
}

/// The record lists an entry for the event `b`, and that event resolves, so
/// the built roster has a slot array for it.
pub open spec fn roster_has_event(entries: Seq<BewerbGroupSaveable>, bs: Seq<Bewerb>, b: u32) -> bool {
    &&& find_id(bs, b) is Some
    &&& exists|j: int| 0 <= j < entries.len() && (#[trigger] entries[j]).bewerb_id.bewerb_id == b
}

/// The warnings one recorded slot draws during the resolve phase: an
/// unresolvable group reference, a reference to an event the fencer is not
/// rostered for, or a reference to a round the roster has no slot for.
pub open spec fn slot_warnings(
    og: Option<GroupId>,
    entries: Seq<BewerbGroupSaveable>,
    bs: Seq<Bewerb>,
) -> Seq<Warning> {
    match og {
        None => Seq::empty(),
        Some(gid) => if !key_resolves(bs, gid) {
            seq![Warning::GroupNotFound(gid)]
        } else if !roster_has_event(entries, bs, gid.bewerb_id) {
            seq![Warning::FencerNotInBewerb(gid.bewerb_id)]
        } else if gid.round_id >= spec_n_rounds(bs, gid.bewerb_id) {
            seq![Warning::RosterSlotMissing(gid.round_id)]
        } else {
            Seq::empty()
        },
    }
}

/// The warnings one roster entry's slots draw, in order.
pub open spec fn entry_warnings(
    slots: Seq<Option<GroupId>>,
    entries: Seq<BewerbGroupSaveable>,
    bs: Seq<Bewerb>,
) -> Seq<Warning>
    decreases slots.len(),
{
    if slots.len() == 0 {
        Seq::empty()
    } else {
        entry_warnings(slots.drop_last(), entries, bs) + slot_warnings(slots.last(), entries, bs)
    }
}

/// The warnings the entry prefix draws, checked against the full record.
pub open spec fn rw_rec(
    prefix: Seq<BewerbGroupSaveable>,
    full: Seq<BewerbGroupSaveable>,
    bs: Seq<Bewerb>,
) -> Seq<Warning>
    decreases prefix.len(),
{
    if prefix.len() == 0 {
        Seq::empty()
    } else {
        rw_rec(prefix.drop_last(), full, bs) + entry_warnings(prefix.last().groups@, full, bs)
    }
}

/// The warnings one fencer record draws, in entry order.
pub open spec fn record_warnings(entries: Seq<BewerbGroupSaveable>, bs: Seq<Bewerb>) -> Seq<Warning> {
    rw_rec(entries, entries, bs)
}

/// The warnings the whole roster install draws: one per duplicate record,
/// and the per-slot warnings of every installed record, in order.
pub open spec fn install_warnings(ss: Seq<FencerSaveable>, bs: Seq<Bewerb>) -> Seq<Warning>
    decreases ss.len(),
{
    if ss.len() == 0 {
        Seq::empty()
    } else {
        let p = install_warnings(ss.drop_last(), bs);
        if crate::container::loaded_ids(ss.drop_last(), fencer_sid()).contains(ss.last().id) {
            p.push(Warning::DuplicateFencer(ss.last().id))
        } else {
            p + record_warnings(ss.last().bewerbs@, bs)
        }
    }
}

/// Which slot arrays a built roster has, and their sizes: one for each
/// listed event that resolves, sized to its round count.
pub proof fn lemma_is_roster_events(ids: Seq<BewerbId>, bs: Seq<Bewerb>, out: Seq<BewerbGroup>)
    requires
        is_roster(ids, bs, out),
    ensures
        forall|b: u32| crate::container::has_id(out, b) <==> ((find_id(bs, b) is Some) && exists|
            j: int,
        | 0 <= j < ids.len() && (#[trigger] ids[j]).bewerb_id == b),
        forall|j: int|
            0 <= j < out.len() ==> (#[trigger] out[j].groups@.len()) == spec_n_rounds(
                bs,
                out[j].bewerb_id.bewerb_id,
            ) && find_id(bs, out[j].bewerb_id.bewerb_id) is Some,
    decreases ids.len(),
{
    if ids.len() == 0 {
    } else {
        assert(forall|j: int| 0 <= j < ids.len() - 1 ==> ids.drop_last()[j] == ids[j]);
        match find_id(bs, ids.last().bewerb_id) {
            Some(bw) => {
                lemma_is_roster_events(ids.drop_last(), bs, out.drop_last());
                assert(forall|j: int| 0 <= j < out.len() - 1 ==> out.drop_last()[j] == out[j]);
                assert forall|b: u32| crate::container::has_id(out, b) implies ((find_id(bs, b)
                    is Some) && exists|j: int|
                    0 <= j < ids.len() && (#[trigger] ids[j]).bewerb_id == b) by {
                    let w = choose|w: int|
                        0 <= w < out.len() && (#[trigger] out[w].spec_id()) == b;
                    if w < out.len() - 1 {
                        assert(out.drop_last()[w].spec_id() == b);
                        assert(crate::container::has_id(out.drop_last(), b));
                        let j = choose|j: int|
                            0 <= j < ids.drop_last().len() && (
                            #[trigger] ids.drop_last()[j]).bewerb_id == b;
                        assert(ids[j].bewerb_id == b);
                    } else {
                        assert(out.last().bewerb_id == ids.last());
                        assert(ids[ids.len() - 1].bewerb_id == b);
                    }
                }
                assert forall|b: u32|
                    ((find_id(bs, b) is Some) && exists|j: int|
                        0 <= j < ids.len() && (#[trigger] ids[j]).bewerb_id == b)
                    implies crate::container::has_id(out, b) by {
                    let j = choose|j: int|
                        0 <= j < ids.len() && (#[trigger] ids[j]).bewerb_id == b;
                    if j < ids.len() - 1 {
                        assert(ids.drop_last()[j].bewerb_id == b);
                        assert(crate::container::has_id(out.drop_last(), b));
                        let w = choose|w: int|
                            0 <= w < out.drop_last().len() && (
                            #[trigger] out.drop_last()[w].spec_id()) == b;
                        assert(out[w].spec_id() == b);
                    } else {
                        assert(out.last().spec_id() == b);
                        assert(out[out.len() - 1].spec_id() == b);
                    }
                }
                assert forall|j: int| 0 <= j < out.len() implies (
                #[trigger] out[j].groups@.len()) == spec_n_rounds(bs, out[j].bewerb_id.bewerb_id)
                    && find_id(bs, out[j].bewerb_id.bewerb_id) is Some by {
                    if j < out.len() - 1 {
                        assert(out.drop_last()[j] == out[j]);
                        assert(out.drop_last()[j].groups@.len() == spec_n_rounds(
                            bs,
                            out.drop_last()[j].bewerb_id.bewerb_id,
                        ));
                    } else {
                        assert(out.last().bewerb_id == ids.last());
                    }
                }
            },
            None => {
                lemma_is_roster_events(ids.drop_last(), bs, out);
                assert forall|b: u32| crate::container::has_id(out, b) implies ((find_id(bs, b)
                    is Some) && exists|j: int|
                    0 <= j < ids.len() && (#[trigger] ids[j]).bewerb_id == b) by {
                    let j = choose|j: int|
                        0 <= j < ids.drop_last().len() && (
                        #[trigger] ids.drop_last()[j]).bewerb_id == out[choose|w: int|
                            0 <= w < out.len() && (#[trigger] out[w].spec_id())
                                == b].bewerb_id.bewerb_id;
                    assert(crate::container::has_id(out, b));
                    let w2 = choose|w2: int|
                        0 <= w2 < out.len() && (#[trigger] out[w2].spec_id()) == b;
                    assert(crate::container::has_id(out, b) ==> (find_id(bs, b) is Some)
                        && exists|j2: int|
                        0 <= j2 < ids.drop_last().len() && (
                        #[trigger] ids.drop_last()[j2]).bewerb_id == b);
                    let j3 = choose|j3: int|
                        0 <= j3 < ids.drop_last().len() && (
                        #[trigger] ids.drop_last()[j3]).bewerb_id == b;
                    assert(ids[j3].bewerb_id == b);
                }
                assert forall|b: u32|
                    ((find_id(bs, b) is Some) && exists|j: int|
                        0 <= j < ids.len() && (#[trigger] ids[j]).bewerb_id == b)
                    implies crate::container::has_id(out, b) by {
                    let j = choose|j: int|
                        0 <= j < ids.len() && (#[trigger] ids[j]).bewerb_id == b;
                    if j < ids.len() - 1 {
                        assert(ids.drop_last()[j].bewerb_id == b);
                    } else {
                        assert(ids.last().bewerb_id == b);
                        assert(find_id(bs, ids.last().bewerb_id) is None);
                        assert(false);
                    }
                }
            },
        }
    }
}

/// What the runtime binding path reports for one resolvable slot equals the
/// slot's specified warnings: nothing where the write applies, else the
/// missing-entry or missing-round diagnostic.
pub proof fn lemma_bind_warning_matches(
    fb: Fencer,
    cur: Fencer,
    entries: Seq<BewerbGroupSaveable>,
    bs: Seq<Bewerb>,
    gid: GroupId,
)
    requires
        is_roster(entries.map_values(|bg: BewerbGroupSaveable| bg.bewerb_id), bs, fb.bewerbs@),
        cur.bewerbs@.len() == fb.bewerbs@.len(),
        forall|j: int|
            0 <= j < fb.bewerbs@.len() ==> ((#[trigger] cur.bewerbs@[j]).bewerb_id
                == fb.bewerbs@[j].bewerb_id && cur.bewerbs@[j].groups@.len()
                == fb.bewerbs@[j].groups@.len()),
        key_resolves(bs, gid),
    ensures
        (if slot_write_applies(cur, gid) {
            Seq::<Warning>::empty()
        } else if idx_of(cur.bewerbs@, gid.bewerb_id) < 0 {
            seq![Warning::FencerNotInBewerb(gid.bewerb_id)]
        } else {
            seq![Warning::RosterSlotMissing(gid.round_id)]
        }) == slot_warnings(Some(gid), entries, bs),
{
    let ids = entries.map_values(|bg: BewerbGroupSaveable| bg.bewerb_id);
    let b = gid.bewerb_id;
    lemma_is_roster_events(ids, bs, fb.bewerbs@);
    assert(find_id(bs, b) is Some);
    crate::container::lemma_idx_of_same_ids(cur.bewerbs@, fb.bewerbs@, b);
    crate::container::lemma_idx_of_props(cur.bewerbs@, b);
    crate::container::lemma_idx_of_props(fb.bewerbs@, b);
    assert(crate::container::has_id(cur.bewerbs@, b) == crate::container::has_id(
        fb.bewerbs@,
        b,
    )) by {
        if crate::container::has_id(cur.bewerbs@, b) {
            assert(idx_of(cur.bewerbs@, b) >= 0);
        }
        if crate::container::has_id(fb.bewerbs@, b) {
            assert(idx_of(fb.bewerbs@, b) >= 0);
        }
    }
    assert(roster_has_event(entries, bs, b) == crate::container::has_id(fb.bewerbs@, b)) by {
        if roster_has_event(entries, bs, b) {
            let j = choose|j: int|
                0 <= j < entries.len() && (#[trigger] entries[j]).bewerb_id.bewerb_id == b;
            assert(ids[j].bewerb_id == b);
            assert(crate::container::has_id(fb.bewerbs@, b));
        }
        if crate::container::has_id(fb.bewerbs@, b) {
            let j = choose|j: int| 0 <= j < ids.len() && (#[trigger] ids[j]).bewerb_id == b;
            assert(entries[j].bewerb_id.bewerb_id == b);
        }
    }
    if idx_of(cur.bewerbs@, b) >= 0 {
        let fbx = idx_of(cur.bewerbs@, b);
        assert(fb.bewerbs@[fbx].spec_id() == b);
        assert(fb.bewerbs@[fbx].groups@.len() == spec_n_rounds(bs, b));
        assert(cur.bewerbs@[fbx].groups@.len() == spec_n_rounds(bs, b));
    }
}

/// The fencer's roster holds the group key `(b, r2, g2)` in some slot.
pub open spec fn fencer_holds(f: Fencer, b: u32, r2: u32, g2: u32) -> bool {
    exists|j: int, k: int|
        0 <= j < f.bewerbs@.len() && 0 <= k < f.bewerbs@[j].groups@.len() && (match (
        #[trigger] f.bewerbs@[j].groups@[k]) {
            Some(gid) => gid.bewerb_id == b && gid.round_id == r2 && gid.group_id == g2,
            None => false,
        })
}

/// Occupied slots sit only where `add_group` writes them: in the first
/// entry of their event, at their round's position.
pub open spec fn slots_canonical(f: Fencer) -> bool {
    forall|j: int, k: int|
        0 <= j < f.bewerbs@.len() && 0 <= k < f.bewerbs@[j].groups@.len() ==> match (
        #[trigger] f.bewerbs@[j].groups@[k]) {
            Some(gid) => j == idx_of(f.bewerbs@, gid.bewerb_id) && k == gid.round_id,
            None => true,
        }
}

/// The ids of the fencers whose roster holds the group key, in registry
/// order — what the resolve phase leaves as the group's member list.
pub open spec fn members_of(fs: Seq<Fencer>, b: u32, r2: u32, g2: u32) -> Seq<u32>
    decreases fs.len(),
{
    if fs.len() == 0 {
        Seq::empty()
    } else {
        let p = members_of(fs.drop_last(), b, r2, g2);
        if fencer_holds(fs.last(), b, r2, g2) {
            p.push(fs.last().id)
        } else {
            p
        }
    }
}

/// Every member-list entry is the id of some rostered fencer.
pub proof fn lemma_members_of_absent(fs: Seq<Fencer>, b: u32, r2: u32, g2: u32, v: u32)
    requires
        !crate::container::has_id(fs, v),
    ensures
        forall|i: int| 0 <= i < members_of(fs, b, r2, g2).len() ==> (#[trigger] members_of(
            fs,
            b,
            r2,
            g2,
        )[i]) != v,
    decreases fs.len(),
{
    if fs.len() == 0 {
    } else {
        assert(forall|i: int| 0 <= i < fs.len() - 1 ==> fs.drop_last()[i] == fs[i]);
        assert(!crate::container::has_id(fs.drop_last(), v)) by {
            if crate::container::has_id(fs.drop_last(), v) {
                let i = choose|i: int|
                    0 <= i < fs.drop_last().len() && (#[trigger] fs.drop_last()[i].spec_id())
                        == v;
                assert(fs[i].spec_id() == v);
            }
        }
        lemma_members_of_absent(fs.drop_last(), b, r2, g2, v);
        let p = members_of(fs.drop_last(), b, r2, g2);
        if fencer_holds(fs.last(), b, r2, g2) {
            assert(fs[fs.len() - 1].spec_id() == fs.last().id);
            assert(fs.last().id != v);
            assert forall|i: int| 0 <= i < members_of(fs, b, r2, g2).len() implies (
            #[trigger] members_of(fs, b, r2, g2)[i]) != v by {
                if i < p.len() {
                    assert(members_of(fs, b, r2, g2)[i] == p[i]);
                }
            }
        }
    }
}

/// Some record carries this fencer's id and name.
pub open spec fn fencer_named_in(recs: Seq<FencerSaveable>, f: Fencer) -> bool {
    exists|j: int| 0 <= j < recs.len() && f.id == (#[trigger] recs[j]).id && f.name == recs[j].name
}

/// Renaming-free mutation keeps a fencer covered by the records.
pub proof fn lemma_named_same(recs: Seq<FencerSaveable>, f0: Fencer, f1: Fencer)
    requires
        fencer_named_in(recs, f0),
        f1.id == f0.id,
        f1.name == f0.name,
    ensures
        fencer_named_in(recs, f1),
{
    let j = choose|j: int|
        0 <= j < recs.len() && f0.id == (#[trigger] recs[j]).id && f0.name == recs[j].name;
    assert(f1.id == recs[j].id && f1.name == recs[j].name);
}

/// The identity test the roster sync's upsert uses: same id, same name.
pub open spec fn spec_is_same(f: Fencer, sf: SimpleFencer) -> bool {
    f.id == sf.id && f.name@ == sf.name@
}

/// Index of the first fencer in `s` that `sf` matches by identity, or -1.
pub open spec fn same_idx(s: Seq<Fencer>, sf: SimpleFencer) -> int
    decreases s.len(),
{
    if s.len() == 0 {
        -1
    } else if spec_is_same(s[0], sf) {
        0
    } else if same_idx(s.skip(1), sf) < 0 {
        -1
    } else {
        same_idx(s.skip(1), sf) + 1
    }
}

/// `same_idx` finds exactly the first matching fencer.
pub proof fn lemma_same_idx_props(s: Seq<Fencer>, sf: SimpleFencer)
    ensures
        same_idx(s, sf) >= 0 <==> exists|i: int|
            0 <= i < s.len() && spec_is_same(#[trigger] s[i], sf),
        same_idx(s, sf) >= 0 ==> same_idx(s, sf) < s.len() && spec_is_same(
            s[same_idx(s, sf)],
            sf,
        ),
        same_idx(s, sf) >= 0 ==> forall|j: int|
            0 <= j < same_idx(s, sf) ==> !spec_is_same(#[trigger] s[j], sf),
        same_idx(s, sf) >= -1,
    decreases s.len(),
{
    if s.len() == 0 {
    } else if spec_is_same(s[0], sf) {
    } else {
        let tail = s.skip(1);
        lemma_same_idx_props(tail, sf);
        if same_idx(tail, sf) >= 0 {
            let k = same_idx(tail, sf);
            assert(s[k + 1] == tail[k]);
            assert(spec_is_same(s[k + 1], sf));
            assert forall|j: int| 0 <= j < same_idx(s, sf) implies !spec_is_same(
                #[trigger] s[j],
                sf,
            ) by {
                if j > 0 {
                    assert(s[j] == tail[j - 1]);
                    assert(!spec_is_same(tail[j - 1], sf));
                }
            }
        } else {
            assert forall|j: int| 0 <= j < s.len() implies !spec_is_same(#[trigger] s[j], sf) by {
                if j > 0 {
                    assert(s[j] == tail[j - 1]);
                    assert(!spec_is_same(tail[j - 1], sf));
                }
            }
        }
    }
}

/// If `i` matches and nothing earlier does, `same_idx` is `i`.
pub proof fn lemma_same_idx_first(s: Seq<Fencer>, sf: SimpleFencer, i: int)
    requires
        0 <= i < s.len(),
        spec_is_same(s[i], sf),
        forall|j: int| 0 <= j < i ==> !spec_is_same(#[trigger] s[j], sf),
    ensures
        same_idx(s, sf) == i,
    decreases s.len(),
{
    if i == 0 {
    } else {
        assert(forall|j: int| 0 <= j < s.len() - 1 ==> s.skip(1)[j] == s[j + 1]);
        lemma_same_idx_first(s.skip(1), sf, i - 1);
    }
}

/// What one roster-sync record does to the registry: the first fencer that
/// matches by identity is updated in place; with no match, a new fencer with
/// the smallest unused id is appended.  Either way the touched fencer's
/// slots are reset empty, keyed to the record's event list (invariant 3).
pub open spec fn upsert_step(
    cur: Seq<Fencer>,
    sf: SimpleFencer,
    bs: Seq<Bewerb>,
    out: Seq<Fencer>,
) -> bool {
    let i = same_idx(cur, sf);
    if i >= 0 {
        &&& out.len() == cur.len()
        &&& (forall|j: int| 0 <= j < cur.len() && j != i ==> out[j] == cur[j])
        &&& out[i].id == cur[i].id
        &&& out[i].name == sf.name
        &&& is_roster(sf.bewerbs@, bs, out[i].bewerbs@)
    } else {
        &&& out.len() == cur.len() + 1
        &&& out.drop_last() == cur
        &&& out.last().id == crate::container::fresh_id(cur)
        &&& crate::container::is_fresh_id(cur, out.last().id)
        &&& out.last().name == sf.name
        &&& is_roster(sf.bewerbs@, bs, out.last().bewerbs@)
    }
}

/// A witness chain of registry states: one `upsert_step` per record, from
/// `cur` to `out`.
pub open spec fn upsert_chain_ok(
    cur: Seq<Fencer>,
    inc: Seq<SimpleFencer>,
    bs: Seq<Bewerb>,
    out: Seq<Fencer>,
    chain: Seq<Seq<Fencer>>,
) -> bool {
    &&& chain.len() == inc.len() + 1
    &&& chain[0] == cur
    &&& chain.last() == out
    &&& forall|j: int|
        0 <= j < inc.len() ==> upsert_step(chain[j], #[trigger] inc[j], bs, chain[j + 1])
}

/// What a whole roster-sync call does: its records are applied in order.
pub open spec fn upserts_to(
    cur: Seq<Fencer>,
    inc: Seq<SimpleFencer>,
    bs: Seq<Bewerb>,
    out: Seq<Fencer>,
) -> bool {
    exists|chain: Seq<Seq<Fencer>>| #[trigger] upsert_chain_ok(cur, inc, bs, out, chain)
}

/// No records: the registry is unchanged.
pub proof fn lemma_upserts_to_empty(cur: Seq<Fencer>, inc: Seq<SimpleFencer>, bs: Seq<Bewerb>)
    requires
        inc.len() == 0,
    ensures
        upserts_to(cur, inc, bs, cur),
{
    let chain = seq![cur];
    assert(upsert_chain_ok(cur, inc, bs, cur, chain));
}

/// One more record extends a chain of upserts.
pub proof fn lemma_upserts_to_step(
    cur0: Seq<Fencer>,
    inc: Seq<SimpleFencer>,
    i: int,
    bs: Seq<Bewerb>,
    mid: Seq<Fencer>,
    out: Seq<Fencer>,
)
    requires
        0 <= i < inc.len(),
        upserts_to(cur0, inc.take(i), bs, mid),
        upsert_step(mid, inc[i], bs, out),
    ensures
        upserts_to(cur0, inc.take(i + 1), bs, out),
{
    let chain = choose|chain: Seq<Seq<Fencer>>|
        #[trigger] upsert_chain_ok(cur0, inc.take(i), bs, mid, chain);
    let chain2 = chain.push(out);
    assert(upsert_chain_ok(cur0, inc.take(i + 1), bs, out, chain2)) by {
        assert(chain2.len() == inc.take(i + 1).len() + 1);
        assert(chain2[0] == chain[0]);
        assert forall|j: int| 0 <= j < inc.take(i + 1).len() implies upsert_step(
            chain2[j],
            #[trigger] inc.take(i + 1)[j],
            bs,
            chain2[j + 1],
        ) by {
            if j < i {
                assert(chain2[j] == chain[j] && chain2[j + 1] == chain[j + 1]);
                assert(upsert_step(chain[j], inc.take(i)[j], bs, chain[j + 1]));
                assert(inc.take(i)[j] == inc.take(i + 1)[j]);
            } else {
                assert(chain2[j] == chain.last());
                assert(chain.last() == mid);
                assert(inc.take(i + 1)[j] == inc[i]);
                assert(chain2[j + 1] == out);
            }
        }
    }
}

/// The roster upsert law: a record matching an existing fencer by id and name
/// leaves the registry size unchanged; a record matching nobody grows it by
/// one.
pub proof fn lemma_upsert_registry_size(
    cur: Seq<Fencer>,
    sf: SimpleFencer,
    bs: Seq<Bewerb>,
    out: Seq<Fencer>,
)
    requires
        upsert_step(cur, sf, bs, out),
    ensures
        (exists|i: int| 0 <= i < cur.len() && spec_is_same(#[trigger] cur[i], sf)) ==> out.len()
            == cur.len(),
        !(exists|i: int| 0 <= i < cur.len() && spec_is_same(#[trigger] cur[i], sf)) ==> out.len()
            == cur.len() + 1,
{
    lemma_same_idx_props(cur, sf);
}

/// The saveable record a fencer writes.
pub open spec fn fencer_saved(f: Fencer, s: FencerSaveable) -> bool {
    &&& s.id == f.id
    &&& s.name == f.name
    &&& s.bewerbs@.len() == f.bewerbs@.len()
    &&& forall|j: int|
        0 <= j < f.bewerbs@.len() ==> (#[trigger] s.bewerbs@[j]).bewerb_id
            == f.bewerbs@[j].bewerb_id && s.bewerbs@[j].groups@ == f.bewerbs@[j].groups@
}

} // verus!
