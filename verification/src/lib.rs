//! Core engine of a multi-day fencing tournament.
//!
//! The library keeps the live entity graph of the tournament: scheduling
//! resources (days, timeslots, arena slots), competition structure (events,
//! rounds, groups) and the fencer roster.  Cross references between the two
//! hierarchies are held as plain identifiers, never as pointers, and every
//! operation of the assignment engine is verified to keep the graph's
//! invariants:
//!
//! 1. **Id uniqueness**: within any container no two elements share an id,
//!    and new ids are the smallest unused non-negative integer
//!    ([`container::UidContainer::push`]).
//! 2. **Symmetric assignment**: a group's recorded arena slot and that
//!    slot's recorded group are both unset or point to each other
//!    ([`tournament_core::Tournament::links_wf`]).
//! 3. **Roster bound**: a fencer's per-event slot array is sized to the
//!    event's round count, each slot scoped to its round
//!    ([`tournament_core::Tournament::roster_wf`]).
//! 4. **Cascading cleanup**: deleting an event (or a day) first frees every
//!    arena slot its groups occupied
//!    ([`tournament_core::Tournament::remove_bewerb`]).
//! 5. **Hierarchical id consistency**: a child's denormalized parent-id
//!    fields always equal its parent's actual ids
//!    ([`tournament_core::Tournament::hier_wf`]).
//!
//! The whole graph can be saved as an acyclic, id-referencing snapshot and
//! rebuilt in two phases; reconstruction confirms every recorded cross
//! reference on both sides and clears, with a warning, whatever does not
//! resolve ([`tournament_core::Tournament::from_snapshot`]).

pub mod arena_slot;
pub mod bewerb;
pub mod container;
pub mod day;
pub mod error;
pub mod fencer;
pub mod group;
pub mod round;
pub mod timeslot;
pub mod tournament_core;
