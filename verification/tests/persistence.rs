//! Exercises the saveable snapshot and the two-phase reconstruction.

use tournament_core::arena_slot::ArenaSlotId;
use tournament_core::bewerb::BewerbId;
use tournament_core::day::Day;
use tournament_core::error::Warning;
use tournament_core::fencer::SimpleFencer;
use tournament_core::group::GroupId;
use tournament_core::tournament_core::Tournament;

fn gid(name: &str, b: u32, r: u32, g: u32) -> GroupId {
    GroupId { bewerb_name: String::from(name), bewerb_id: b, round_id: r, group_id: g }
}

fn aid(d: u32, t: u32, a: u32) -> ArenaSlotId {
    ArenaSlotId { day_id: d, timeslot_id: t, arena_slot_id: a }
}

fn populated_tournament() -> Tournament {
    let mut t = Tournament::new();
    t.change_name(String::from("Winter Cup"));
    t.add_day(Day::new(0, 19000, 2, 2));
    t.add_day(Day::new(0, 19001, 1, 3));
    t.add_bewerb(String::from("Epee"), 2, 3);
    t.add_bewerb(String::from("Sabre"), 1, 2);
    t.add_group_to_arena(&gid("Epee", 0, 0, 0), &aid(0, 0, 1)).unwrap();
    t.add_group_to_arena(&gid("Epee", 0, 1, 2), &aid(1, 0, 2)).unwrap();
    t.add_group_to_arena(&gid("Sabre", 1, 0, 1), &aid(0, 1, 0)).unwrap();
    t.update_fencers(vec![
        SimpleFencer {
            id: 0,
            name: String::from("Aurelia"),
            bewerbs: vec![
                BewerbId { bewerb_name: String::from("Epee"), bewerb_id: 0 },
                BewerbId { bewerb_name: String::from("Sabre"), bewerb_id: 1 },
            ],
        },
        SimpleFencer {
            id: 0,
            name: String::from("Benno"),
            bewerbs: vec![BewerbId { bewerb_name: String::from("Epee"), bewerb_id: 0 }],
        },
    ]);
    t
}

#[test]
fn snapshot_round_trip_keeps_the_graph() {
    let t = populated_tournament();
    let snap = t.to_snapshot();
    let (t2, warnings) = Tournament::from_snapshot(&snap);
    assert!(warnings.is_empty());

    assert_eq!(t2.inner.name, "Winter Cup");
    assert_eq!(t2.get_simple_days(), t.get_simple_days());

    let b1 = t.get_bewerbs();
    let b2 = t2.get_bewerbs();
    assert_eq!(b1.len(), b2.len());
    for (x, y) in b1.iter().zip(b2.iter()) {
        assert_eq!(x.id, y.id);
        assert_eq!(x.name, y.name);
        assert_eq!(x.n_rounds, y.n_rounds);
        assert_eq!(x.n_groups, y.n_groups);
    }

    // Same Group <-> ArenaSlot bindings, checked from both sides.
    for b in &[("Epee", 0u32), ("Sabre", 1u32)] {
        let all = t.get_bewerb(b.1).unwrap().get_all_groups();
        let all2 = t2.get_bewerb(b.1).unwrap().get_all_groups();
        assert_eq!(all, all2);
        for g in &all {
            let before = t.get_group_by_id(g).unwrap().get_arena();
            let after = t2.get_group_by_id(g).unwrap().get_arena();
            assert_eq!(before, after);
        }
    }
    assert_eq!(
        t2.get_arena_by_id(&aid(0, 0, 1)).unwrap().get_group(),
        Some(gid("Epee", 0, 0, 0))
    );
    assert_eq!(t.get_all_free_groups(), t2.get_all_free_groups());

    // Same fencers: ids, names and event lists.
    let f1 = t.get_all_fencers().unwrap();
    let f2 = t2.get_all_fencers().unwrap();
    assert_eq!(f1.len(), f2.len());
    for (x, y) in f1.iter().zip(f2.iter()) {
        assert_eq!(x.id, y.id);
        assert_eq!(x.name, y.name);
        assert_eq!(x.bewerbs.len(), y.bewerbs.len());
        for (bx, by) in x.bewerbs.iter().zip(y.bewerbs.iter()) {
            assert_eq!(bx, by);
        }
    }
}

#[test]
fn broken_arena_reference_is_cleared_with_a_warning() {
    let t = populated_tournament();
    let mut snap = t.to_snapshot();
    // Drop the events: every recorded arena-side group reference dangles.
    snap.bewerbs.clear();
    let (t2, warnings) = Tournament::from_snapshot(&snap);
    assert!(!warnings.is_empty());
    assert!(t2.get_arena_by_id(&aid(0, 0, 1)).unwrap().get_group().is_none());
    assert_eq!(t2.get_bewerbs().len(), 0);
}

#[test]
fn duplicate_records_are_skipped_with_a_warning() {
    let t = populated_tournament();
    let mut snap = t.to_snapshot();
    let copy = snap.days[0].id;
    let dup = {
        let d = &snap.days[0];
        tournament_core::day::DaySaveable {
            id: d.id,
            date: d.date,
            n_ts: d.n_ts,
            n_kp: d.n_kp,
            timeslots: Vec::new(),
        }
    };
    snap.days.push(dup);
    let (t2, warnings) = Tournament::from_snapshot(&snap);
    assert!(warnings.contains(&Warning::DuplicateDay(copy)));
    // The first record won; the day kept its grid.
    assert_eq!(t2.get_day_data(copy).unwrap().timeslots.len(), 2);
}

#[test]
fn one_sided_link_is_cleared_on_both_ends() {
    let t = populated_tournament();
    let mut snap = t.to_snapshot();
    // Erase the arena side of one binding; the group still claims the slot.
    for day in snap.days.iter_mut() {
        for ts in day.timeslots.iter_mut() {
            for arena in ts.arenas.iter_mut() {
                arena.group = None;
            }
        }
    }
    let (t2, warnings) = Tournament::from_snapshot(&snap);
    assert!(warnings.contains(&Warning::BrokenGroupLink(gid("Epee", 0, 0, 0))));
    // The resolve phase cleared the group's stale claim; nothing is bound.
    assert!(t2.get_group_by_id(&gid("Epee", 0, 0, 0)).unwrap().get_arena().is_none());
    assert_eq!(t2.get_all_free_groups().len(), 8);
}

#[test]
fn fencer_bindings_survive_the_round_trip() {
    let mut t = populated_tournament();
    // Bind a fencer into a group through the roster path: save, reload, and
    // the slot arrays keep their shape.
    let f1 = t.get_all_fencers().unwrap();
    assert_eq!(f1[0].bewerbs.len(), 2);
    let snap = t.to_snapshot();
    let (t2, warnings) = Tournament::from_snapshot(&snap);
    assert!(warnings.is_empty());
    let f2 = t2.get_all_fencers().unwrap();
    assert_eq!(f2[0].bewerbs.len(), 2);
    assert_eq!(f2[1].bewerbs.len(), 1);
    t.remove_bewerb(0);
    let snap2 = t.to_snapshot();
    let (t3, _warnings) = Tournament::from_snapshot(&snap2);
    // The deleted event is gone; roster entries for it no longer resolve.
    let f3 = t3.get_all_fencers().unwrap();
    assert_eq!(f3.len(), 2);
    assert_eq!(f3[0].bewerbs.len(), 1);
}
