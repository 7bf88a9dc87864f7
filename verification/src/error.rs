//! Errors the assignment engine surfaces, and non-fatal integrity warnings.

use vstd::prelude::*;
use crate::arena_slot::ArenaSlotId;
use crate::group::GroupId;

verus! {

/// A client error: the operation was aborted with no partial mutation.
#[derive(Clone, Copy, Debug, PartialEq, Eq, Structural)]
pub enum Error {
    /// An id does not resolve to a live entity, or a required field is absent.
    InvalidInput,
}

/// A non-fatal integrity diagnostic.  A stored relationship whose target
/// cannot be found is cleared and reported alongside the successful result,
/// never silently dropped.
#[derive(Debug, PartialEq, Eq)]
pub enum Warning {
    /// A saved day record reused an id already loaded; the record was skipped.
    DuplicateDay(u32),
    /// A saved event record reused an id already loaded; the record was
    /// skipped.
    DuplicateBewerb(u32),
    /// A saved fencer record reused an id already loaded; the record was
    /// skipped.
    DuplicateFencer(u32),
    /// A fencer's roster names an event that does not exist; the entry was
    /// skipped.
    BewerbNotFound(u32),
    /// A recorded group reference does not resolve; it was cleared.
    GroupNotFound(GroupId),
    /// A fencer is recorded in a group of an event it is not rostered for.
    FencerNotInBewerb(u32),
    /// A recorded group reference names a round the roster has no slot for.
    RosterSlotMissing(u32),
    /// A group's recorded arena slot does not point back at it; the group's
    /// side was cleared.
    BrokenGroupLink(GroupId),
    /// An arena slot's recorded group does not point back at it; the slot's
    /// side was cleared.
    BrokenArenaLink(ArenaSlotId),
}

} // verus!
