use vstd::prelude::*;
use crate::game::GameState;

verus! {

/// Client-side single-slot mailbox for inbound snapshots. The transport
/// drains every pending datagram and each newly decoded snapshot
/// unconditionally overwrites the slot, so the renderer always reads the
/// most recent state and snapshots received but never read are discarded
/// ("last snapshot wins").
pub struct SnapshotSlot {
    pub latest: Option<GameState>,
}

impl SnapshotSlot {
    pub fn new() -> (r: SnapshotSlot)
        ensures
            r.latest is None,
    {
        SnapshotSlot { latest: None }
    }

    /// Overwrites whatever snapshot was stored before.
    pub fn store(&mut self, snapshot: GameState)
        ensures
            final(self).latest == Some(snapshot),
    {
        self.latest = Some(snapshot);
    }

    /// The most recently stored snapshot, if any has arrived yet.
    pub fn current(&self) -> (r: &Option<GameState>)
        ensures
            r == &self.latest,
    {
        &self.latest
    }
}

} // verus!
