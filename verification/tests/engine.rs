//! Exercises the assignment engine: id allocation, binding, cascades and the
//! roster sync.

use tournament_core::arena_slot::ArenaSlotId;
use tournament_core::bewerb::BewerbId;
use tournament_core::container::UidContainer;
use tournament_core::day::Day;
use tournament_core::error::Error;
use tournament_core::fencer::SimpleFencer;
use tournament_core::group::GroupId;
use tournament_core::tournament_core::Tournament;

fn gid(name: &str, b: u32, r: u32, g: u32) -> GroupId {
    GroupId { bewerb_name: String::from(name), bewerb_id: b, round_id: r, group_id: g }
}

fn aid(d: u32, t: u32, a: u32) -> ArenaSlotId {
    ArenaSlotId { day_id: d, timeslot_id: t, arena_slot_id: a }
}

/// A tournament with one day (2 timeslots of 2 arenas) and one event
/// ("Epee", 2 rounds of 4 groups).
fn small_tournament() -> Tournament {
    let mut t = Tournament::new();
    t.add_day(Day::new(0, 19000, 2, 2));
    t.add_bewerb(String::from("Epee"), 2, 4);
    t
}

#[test]
fn push_assigns_smallest_unused_id() {
    let mut days: UidContainer<Day> = UidContainer::new();
    assert_eq!(days.get_next_id(), 0);
    days.push(Day::new(7, 1, 1, 1));
    assert_eq!(days.get_next_id(), 1);
    days.push(Day::new(7, 2, 1, 1));
    days.push(Day::new(7, 3, 1, 1));
    assert_eq!(days.get_next_id(), 3);
    days.remove(1);
    assert_eq!(days.get_next_id(), 1);
    days.push(Day::new(7, 4, 1, 1));
    assert_eq!(days.get_next_id(), 3);
    days.remove(0);
    assert_eq!(days.get_next_id(), 0);
    assert!(days.get(2).is_some());
    assert!(days.get(0).is_none());
}

#[test]
fn add_bewerb_builds_rounds_and_groups() {
    let mut t = Tournament::new();
    t.add_bewerb(String::from("Epee"), 2, 4);
    let bewerbs = t.get_bewerbs();
    assert_eq!(bewerbs.len(), 1);
    assert_eq!(bewerbs[0].id, 0);
    assert_eq!(bewerbs[0].name, "Epee");
    assert_eq!(bewerbs[0].n_rounds, 2);
    assert_eq!(bewerbs[0].n_groups, 4);
    let all = t.get_bewerb(0).unwrap().get_all_groups();
    assert_eq!(all.len(), 8);
    assert_eq!(all[0], gid("Epee", 0, 0, 0));
    assert_eq!(all[7], gid("Epee", 0, 1, 3));
}

#[test]
fn add_day_builds_timeslot_grid() {
    let mut t = Tournament::new();
    t.add_day(Day::new(0, 19000, 3, 2));
    let days = t.get_simple_days();
    assert_eq!(days.len(), 1);
    assert_eq!(days[0].id, 0);
    assert_eq!(days[0].date, 19000);
    assert_eq!(days[0].number_time_slots, 3);
    assert_eq!(days[0].number_arenas, 2);
    let data = t.get_day_data(0).unwrap();
    assert_eq!(data.timeslots.len(), 3);
    for ts in &data.timeslots {
        assert_eq!(ts.arenas.len(), 2);
        for a in &ts.arenas {
            assert!(a.group.is_none());
        }
    }
    assert!(matches!(t.get_day_data(9), Err(Error::InvalidInput)));
}

#[test]
fn arena_lookup_compares_the_whole_key() {
    let mut t = Tournament::new();
    t.add_day(Day::new(0, 19000, 2, 2));
    let day = t.days.get(0).unwrap();
    // The stored key must match the query in full: a query carrying a wrong
    // day component finds nothing, even though timeslot and slot numbers fit.
    assert!(day.get_arena(&aid(5, 0, 1)).is_none());
    assert!(day.get_arena(&aid(0, 0, 1)).is_some());
    assert!(t.get_arena_by_id(&aid(0, 1, 0)).is_some());
    assert!(t.get_arena_by_id(&aid(1, 1, 0)).is_none());
}

#[test]
fn assignment_is_symmetric() {
    let mut t = small_tournament();
    let g = gid("Epee", 0, 0, 0);
    let a = aid(0, 0, 1);
    t.add_group_to_arena(&g, &a).unwrap();
    let slot = t.get_arena_by_id(&a).unwrap();
    assert_eq!(slot.get_group(), Some(g.clone()));
    let grp = t.get_group_by_id(&g).unwrap();
    assert_eq!(grp.get_arena(), Some(a));

    t.freeup_group(&g).unwrap();
    assert!(t.get_arena_by_id(&a).unwrap().get_group().is_none());
    assert!(t.get_group_by_id(&g).unwrap().get_arena().is_none());

    t.add_group_to_arena(&g, &a).unwrap();
    t.freeup_arena(&a).unwrap();
    assert!(t.get_arena_by_id(&a).unwrap().get_group().is_none());
    assert!(t.get_group_by_id(&g).unwrap().get_arena().is_none());
}

#[test]
fn reassignment_frees_the_displaced_group() {
    let mut t = small_tournament();
    let g1 = gid("Epee", 0, 0, 0);
    let g2 = gid("Epee", 0, 0, 1);
    let a = aid(0, 0, 0);
    t.add_group_to_arena(&g1, &a).unwrap();
    t.add_group_to_arena(&g2, &a).unwrap();
    assert!(t.get_group_by_id(&g1).unwrap().get_arena().is_none());
    assert_eq!(t.get_group_by_id(&g2).unwrap().get_arena(), Some(a));
    assert_eq!(t.get_arena_by_id(&a).unwrap().get_group(), Some(g2.clone()));
}

#[test]
fn moving_a_group_frees_its_old_arena() {
    let mut t = small_tournament();
    let g = gid("Epee", 0, 0, 0);
    let a1 = aid(0, 0, 0);
    let a2 = aid(0, 1, 1);
    t.add_group_to_arena(&g, &a1).unwrap();
    t.add_group_to_arena(&g, &a2).unwrap();
    assert!(t.get_arena_by_id(&a1).unwrap().get_group().is_none());
    assert_eq!(t.get_arena_by_id(&a2).unwrap().get_group(), Some(g.clone()));
    assert_eq!(t.get_group_by_id(&g).unwrap().get_arena(), Some(a2));
}

#[test]
fn unresolved_ids_are_invalid_input() {
    let mut t = small_tournament();
    let bad_g = gid("Epee", 3, 0, 0);
    let good_a = aid(0, 0, 0);
    assert!(matches!(t.add_group_to_arena(&bad_g, &good_a), Err(Error::InvalidInput)));
    let good_g = gid("Epee", 0, 0, 0);
    let bad_a = aid(5, 0, 0);
    assert!(matches!(t.add_group_to_arena(&good_g, &bad_a), Err(Error::InvalidInput)));
    assert!(matches!(t.freeup_group(&bad_g), Err(Error::InvalidInput)));
    assert!(matches!(t.freeup_arena(&bad_a), Err(Error::InvalidInput)));
    // Failed resolution leaves no partial binding behind.
    assert!(t.get_arena_by_id(&good_a).unwrap().get_group().is_none());
    assert!(t.get_group_by_id(&good_g).unwrap().get_arena().is_none());
}

#[test]
fn remove_bewerb_frees_every_occupied_arena() {
    let mut t = small_tournament();
    let g1 = gid("Epee", 0, 0, 0);
    let g2 = gid("Epee", 0, 1, 2);
    let a1 = aid(0, 0, 0);
    let a2 = aid(0, 1, 1);
    t.add_group_to_arena(&g1, &a1).unwrap();
    t.add_group_to_arena(&g2, &a2).unwrap();
    t.remove_bewerb(0);
    assert_eq!(t.get_bewerbs().len(), 0);
    assert!(t.get_group_by_id(&g1).is_none());
    assert!(t.get_arena_by_id(&a1).unwrap().get_group().is_none());
    assert!(t.get_arena_by_id(&a2).unwrap().get_group().is_none());
}

#[test]
fn remove_day_frees_every_bound_group() {
    let mut t = small_tournament();
    let g = gid("Epee", 0, 0, 0);
    let a = aid(0, 0, 0);
    t.add_group_to_arena(&g, &a).unwrap();
    t.remove_day(0);
    assert_eq!(t.get_simple_days().len(), 0);
    assert!(t.get_group_by_id(&g).unwrap().get_arena().is_none());
}

#[test]
fn assigned_group_leaves_the_free_list() {
    let mut t = small_tournament();
    let g = gid("Epee", 0, 0, 0);
    let a = aid(0, 0, 1);
    let free_before = t.get_all_free_groups();
    assert_eq!(free_before.len(), 8);
    assert!(free_before.contains(&g));
    t.add_group_to_arena(&g, &a).unwrap();
    let free_after = t.get_all_free_groups();
    assert_eq!(free_after.len(), 7);
    assert!(!free_after.contains(&g));
    assert!(free_after.contains(&gid("Epee", 0, 0, 1)));
}

#[test]
fn update_fencers_upserts_by_identity() {
    let mut t = small_tournament();
    let rec = SimpleFencer {
        id: 0,
        name: String::from("Aurelia"),
        bewerbs: vec![BewerbId { bewerb_name: String::from("Epee"), bewerb_id: 0 }],
    };
    t.update_fencers(vec![rec]);
    let fencers = t.get_all_fencers().unwrap();
    assert_eq!(fencers.len(), 1);
    assert_eq!(fencers[0].id, 0);
    assert_eq!(fencers[0].name, "Aurelia");
    assert_eq!(fencers[0].bewerbs.len(), 1);

    // Matching by id and name: updated in place, registry size unchanged.
    let same = SimpleFencer { id: 0, name: String::from("Aurelia"), bewerbs: vec![] };
    t.update_fencers(vec![same]);
    let fencers = t.get_all_fencers().unwrap();
    assert_eq!(fencers.len(), 1);
    assert_eq!(fencers[0].bewerbs.len(), 0);

    // A record matching nobody enters as a new fencer under the next id.
    let other = SimpleFencer { id: 0, name: String::from("Benno"), bewerbs: vec![] };
    t.update_fencers(vec![other]);
    let fencers = t.get_all_fencers().unwrap();
    assert_eq!(fencers.len(), 2);
    assert_eq!(fencers[1].id, 1);
    assert_eq!(fencers[1].name, "Benno");
}

#[test]
fn change_name_touches_nothing_else() {
    let mut t = small_tournament();
    t.change_name(String::from("Club Cup"));
    assert_eq!(t.inner.name, "Club Cup");
    assert_eq!(t.get_bewerbs().len(), 1);
    assert_eq!(t.get_simple_days().len(), 1);
}
