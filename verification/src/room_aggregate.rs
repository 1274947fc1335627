//! A room together with all its extra paths.

use vstd::prelude::*;
use crate::room_sync::ExistingRoom;

verus! {

/// An extra path under which a room is reachable.
#[derive(Debug)]
pub struct RoomPath {
    /// The room's id.
    pub roomid: i64,
    /// The path.
    pub roompath: String,
    /// The hash of the path.
    pub roompath_hash: i64,
    /// The room name the path ends in.
    pub room_name: String,
    /// Where the path came from (`api_sync` or `manual`).
    pub source_type: String,
}

/// A room and its extra paths (its primary path not among them).
#[derive(Debug)]
pub struct RoomAggregate {
    /// The room.
    pub room: ExistingRoom,
    /// The extra paths.
    pub additional_paths: Vec<RoomPath>,
}

/// All paths of an aggregate: the primary one first, then the extra ones
/// in order.
pub open spec fn spec_all_roompaths(a: RoomAggregate) -> Seq<Seq<char>> {
    seq![a.room.primary_roompath@] + a.additional_paths@.map_values(|p: RoomPath| p.roompath@)
}

impl RoomAggregate {
    /// The aggregate of `room` and its extra paths.
    pub fn new(room: ExistingRoom, additional_paths: Vec<RoomPath>) -> (r: RoomAggregate)
        ensures
            r.room == room,
            r.additional_paths@ == additional_paths@,
    {
        RoomAggregate { room, additional_paths }
    }

    /// All paths of the room, the primary one first.
    pub fn all_roompaths(&self) -> (r: Vec<String>)
        ensures
            r@.map_values(|s: String| s@) == spec_all_roompaths(*self),
    {
        let mut paths: Vec<String> = Vec::new();
        paths.push(self.room.primary_roompath.clone());
        let mut i: usize = 0;
        while i < self.additional_paths.len()
            invariant
                i <= self.additional_paths@.len(),
                paths@.len() == i + 1,
                paths@[0]@ == self.room.primary_roompath@,
                forall|k: int| 0 <= k < i ==> (#[trigger] paths@[k + 1])@ == self.additional_paths@[k].roompath@,
            decreases self.additional_paths@.len() - i,
        {
            paths.push(self.additional_paths[i].roompath.clone());
            i = i + 1;
        }
        assert(paths@.map_values(|s: String| s@) =~= spec_all_roompaths(*self)) by {
            assert forall|k: int| 0 <= k < paths@.len() implies paths@.map_values(|s: String| s@)[k]
                == spec_all_roompaths(*self)[k] by {
                if k > 0 {
                    assert(paths@[(k - 1) + 1] == paths@[k]);
                }
            }
        }
        paths
    }

    /// The number of paths: the primary one and the extra ones.
    pub fn total_path_count(&self) -> (r: usize)
        requires
            self.additional_paths@.len() < usize::MAX,
        ensures
            r == 1 + self.additional_paths@.len(),
    {
        1 + self.additional_paths.len()
    }

    /// The room has extra paths.
    pub fn has_additional_paths(&self) -> (r: bool)
        ensures
            r == (self.additional_paths@.len() > 0),
    {
        !self.additional_paths.is_empty()
    }
}

} // verus!
