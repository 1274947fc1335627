//! The synchronisation's in-memory copy of the stored rooms and of their
//! extra paths, keyed by room id.

use vstd::prelude::*;
use std::collections::HashMap;
use crate::room_aggregate::RoomPath;
use crate::room_sync::ExistingRoom;

verus! {

/// The rooms of `rooms` by id; of two rooms with one id the later counts.
pub open spec fn rooms_by_id(rooms: Seq<ExistingRoom>) -> Map<i64, ExistingRoom>
    decreases rooms.len(),
{
    if rooms.len() == 0 {
        Map::empty()
    } else {
        rooms_by_id(rooms.drop_last()).insert(rooms.last().roomid, rooms.last())
    }
}

/// The paths of `paths` that belong to room `roomid`, in order.
pub open spec fn paths_for(paths: Seq<RoomPath>, roomid: i64) -> Seq<RoomPath>
    decreases paths.len(),
{
    if paths.len() == 0 {
        Seq::empty()
    } else if paths.last().roomid == roomid {
        paths_for(paths.drop_last(), roomid).push(paths.last())
    } else {
        paths_for(paths.drop_last(), roomid)
    }
}

/// `m` files the paths of `paths` under their rooms: a room is present
/// exactly when it has a path, with its paths in order.
pub open spec fn groups_paths(m: Map<i64, Vec<RoomPath>>, paths: Seq<RoomPath>) -> bool {
    forall|r: i64|
        #![trigger m.contains_key(r)]
        #![trigger paths_for(paths, r)]
        (m.contains_key(r) <==> paths_for(paths, r).len() > 0) && (m.contains_key(r) ==> m[r]@ == paths_for(
            paths,
            r,
        ))
}

fn copy_path(p: &RoomPath) -> (r: RoomPath)
    ensures
        r == *p,
{
    RoomPath {
        roomid: p.roomid,
        roompath: p.roompath.clone(),
        roompath_hash: p.roompath_hash,
        room_name: p.room_name.clone(),
        source_type: p.source_type.clone(),
    }
}

fn copy_paths(v: &Vec<RoomPath>) -> (r: Vec<RoomPath>)
    ensures
        r@ == v@,
{
    let mut r: Vec<RoomPath> = Vec::new();
    let mut i: usize = 0;
    while i < v.len()
        invariant
            i <= v@.len(),
            r@ == v@.take(i as int),
        decreases v@.len() - i,
    {
        r.push(copy_path(&v[i]));
        proof {
            assert(r@ =~= v@.take(i + 1));
        }
        i = i + 1;
    }
    proof {
        assert(v@.take(v@.len() as int) =~= v@);
    }
    r
}

fn copy_room(x: &ExistingRoom) -> (r: ExistingRoom)
    ensures
        r == *x,
{
    ExistingRoom {
        roomid: x.roomid,
        primary_roompath: x.primary_roompath.clone(),
        has_additional_paths: x.has_additional_paths,
    }
}

/// The cached rooms and extra paths.
pub struct RoomSyncCache {
    rooms: HashMap<i64, ExistingRoom>,
    paths: HashMap<i64, Vec<RoomPath>>,
}

impl RoomSyncCache {
    /// The cached rooms by id.
    pub closed spec fn rooms(&self) -> Map<i64, ExistingRoom> {
        self.rooms@
    }

    /// The cached extra paths by room id.
    pub closed spec fn paths(&self) -> Map<i64, Vec<RoomPath>> {
        self.paths@
    }

    /// No room is filed with an empty list of paths.
    pub open spec fn wf(&self) -> bool {
        forall|r: i64| #[trigger] self.paths().contains_key(r) ==> self.paths()[r]@.len() > 0
    }

    /// An empty cache.
    pub fn new() -> (c: RoomSyncCache)
        ensures
            c.wf(),
            c.rooms() == Map::<i64, ExistingRoom>::empty(),
            c.paths() == Map::<i64, Vec<RoomPath>>::empty(),
    {
        broadcast use vstd::std_specs::hash::group_hash_axioms;

        RoomSyncCache { rooms: HashMap::new(), paths: HashMap::new() }
    }

    /// Replaces the contents with the stored active rooms and extra paths.
    pub fn full_refresh(&mut self, all_rooms: Vec<ExistingRoom>, all_paths: Vec<RoomPath>)
        ensures
            final(self).wf(),
            final(self).rooms() == rooms_by_id(all_rooms@),
            groups_paths(final(self).paths(), all_paths@),
    {
        broadcast use vstd::std_specs::hash::group_hash_axioms;

        let ghost rs = all_rooms@;
        let mut rooms: HashMap<i64, ExistingRoom> = HashMap::new();
        let mut rest = all_rooms;
        let total = rest.len();
        let mut k: usize = 0;
        while rest.len() > 0
            invariant
                k + rest@.len() == rs.len(),
                rs.len() == total,
                rest@ == rs.subrange(k as int, rs.len() as int),
                rooms@ == rooms_by_id(rs.take(k as int)),
            decreases rest@.len(),
        {
            let room = rest.remove(0);
            proof {
                assert(room == rs[k as int]);
                assert(rs.take(k + 1).drop_last() =~= rs.take(k as int));
                assert(rest@ =~= rs.subrange(k + 1, rs.len() as int));
            }
            rooms.insert(room.roomid, room);
            k = k + 1;
        }
        proof {
            assert(rs.take(rs.len() as int) =~= rs);
        }
        let ghost ps = all_paths@;
        let mut paths: HashMap<i64, Vec<RoomPath>> = HashMap::new();
        let mut rest = all_paths;
        let total = rest.len();
        let mut k: usize = 0;
        proof {
            assert forall|r: i64| #![trigger paths_for(ps.take(0), r)] paths_for(ps.take(0), r).len() == 0 by {
                assert(ps.take(0).len() == 0);
            }
        }
        while rest.len() > 0
            invariant
                k + rest@.len() == ps.len(),
                ps.len() == total,
                rest@ == ps.subrange(k as int, ps.len() as int),
                groups_paths(paths@, ps.take(k as int)),
            decreases rest@.len(),
        {
            let p = rest.remove(0);
            let ghost pre = ps.take(k as int);
            let ghost post = ps.take(k + 1);
            proof {
                assert(p == ps[k as int]);
                assert(post.drop_last() =~= pre);
                assert(post.last() == p);
                assert(rest@ =~= ps.subrange(k + 1, ps.len() as int));
            }
            let roomid = p.roomid;
            let ghost m0 = paths@;
            let removed = paths.remove(&roomid);
            let mut list: Vec<RoomPath> = match removed {
                Some(v) => v,
                None => Vec::new(),
            };
            proof {
                if removed is None {
                    assert(!m0.contains_key(roomid));
                    assert(paths_for(pre, roomid).len() == 0);
                    assert(list@ =~= paths_for(pre, roomid));
                } else {
                    assert(m0.contains_key(roomid));
                }
            }
            list.push(p);
            paths.insert(roomid, list);
            proof {
                assert forall|r: i64|
                    #![trigger paths@.contains_key(r)]
                    #![trigger paths_for(post, r)]
                    (paths@.contains_key(r) <==> paths_for(post, r).len() > 0) && (paths@.contains_key(r)
                        ==> paths@[r]@ == paths_for(post, r)) by {
                    assert(paths_for(post, r) == (if post.last().roomid == r {
                        paths_for(pre, r).push(post.last())
                    } else {
                        paths_for(pre, r)
                    }));
                    if r != roomid {
                        assert(m0.contains_key(r) <==> paths_for(pre, r).len() > 0);
                    }
                }
            }
            k = k + 1;
        }
        proof {
            assert(ps.take(ps.len() as int) =~= ps);
            assert forall|r: i64| #[trigger] paths@.contains_key(r) implies paths@[r]@.len() > 0 by {
                assert(paths_for(ps, r).len() > 0);
            }
        }
        self.rooms = rooms;
        self.paths = paths;
    }

    /// Adds or replaces each of `new_rooms` in turn.
    pub fn add_rooms(&mut self, new_rooms: Vec<ExistingRoom>)
        requires
            old(self).wf(),
        ensures
            final(self).wf(),
            final(self).rooms() == old(self).rooms().union_prefer_right(rooms_by_id(new_rooms@)),
            final(self).paths() == old(self).paths(),
    {
        broadcast use vstd::std_specs::hash::group_hash_axioms;

        let ghost rs = new_rooms@;
        let ghost m0 = self.rooms@;
        let mut rest = new_rooms;
        let total = rest.len();
        let mut k: usize = 0;
        proof {
            assert(m0.union_prefer_right(rooms_by_id(rs.take(0))) =~= m0);
        }
        while rest.len() > 0
            invariant
                self.wf(),
                k + rest@.len() == rs.len(),
                rs.len() == total,
                rest@ == rs.subrange(k as int, rs.len() as int),
                self.rooms() == m0.union_prefer_right(rooms_by_id(rs.take(k as int))),
                self.paths() == old(self).paths(),
            decreases rest@.len(),
        {
            let room = rest.remove(0);
            proof {
                assert(room == rs[k as int]);
                assert(rs.take(k + 1).drop_last() =~= rs.take(k as int));
                assert(rest@ =~= rs.subrange(k + 1, rs.len() as int));
            }
            self.rooms.insert(room.roomid, room);
            proof {
                assert(self.rooms@ =~= m0.union_prefer_right(rooms_by_id(rs.take(k + 1))));
            }
            k = k + 1;
        }
        proof {
            assert(rs.take(rs.len() as int) =~= rs);
        }
    }

    /// Replaces each of `updated_rooms` in turn; the same as adding them.
    pub fn update_rooms(&mut self, updated_rooms: Vec<ExistingRoom>)
        requires
            old(self).wf(),
        ensures
            final(self).wf(),
            final(self).rooms() == old(self).rooms().union_prefer_right(rooms_by_id(updated_rooms@)),
            final(self).paths() == old(self).paths(),
    {
        self.add_rooms(updated_rooms)
    }

    /// Sets the extra paths of `roomid`; an empty list removes its entry.
    pub fn update_paths(&mut self, roomid: i64, paths: Vec<RoomPath>)
        requires
            old(self).wf(),
        ensures
            final(self).wf(),
            paths@.len() == 0 ==> final(self).paths() == old(self).paths().remove(roomid),
            paths@.len() > 0 ==> final(self).paths() == old(self).paths().insert(roomid, paths),
            final(self).rooms() == old(self).rooms(),
    {
        broadcast use vstd::std_specs::hash::group_hash_axioms;

        let ghost m0 = self.paths@;
        if paths.len() == 0 {
            self.paths.remove(&roomid);
        } else {
            self.paths.insert(roomid, paths);
        }
        proof {
            assert forall|r: i64| #[trigger] self.paths@.contains_key(r) implies self.paths@[r]@.len() > 0 by {
                if r != roomid {
                    assert(old(self).paths().contains_key(r));
                }
            }
        }
    }

    /// The cached room `roomid`, if any.
    pub fn get_room(&self, roomid: i64) -> (r: Option<ExistingRoom>)
        ensures
            r == (if self.rooms().contains_key(roomid) {
                Some(self.rooms()[roomid])
            } else {
                None::<ExistingRoom>
            }),
    {
        broadcast use vstd::std_specs::hash::group_hash_axioms;

        match self.rooms.get(&roomid) {
            Some(room) => Some(copy_room(room)),
            None => None,
        }
    }

    /// The extra paths of `roomid`; none when it has no entry.
    pub fn get_paths(&self, roomid: i64) -> (r: Vec<RoomPath>)
        ensures
            r@ == (if self.paths().contains_key(roomid) {
                self.paths()[roomid]@
            } else {
                Seq::<RoomPath>::empty()
            }),
    {
        broadcast use vstd::std_specs::hash::group_hash_axioms;

        match self.paths.get(&roomid) {
            Some(v) => copy_paths(v),
            None => Vec::new(),
        }
    }

    /// Forgets room `roomid` and its paths.
    pub fn remove_room(&mut self, roomid: i64)
        requires
            old(self).wf(),
        ensures
            final(self).wf(),
            final(self).rooms() == old(self).rooms().remove(roomid),
            final(self).paths() == old(self).paths().remove(roomid),
    {
        broadcast use vstd::std_specs::hash::group_hash_axioms;

        let ghost m0 = self.paths@;
        self.rooms.remove(&roomid);
        self.paths.remove(&roomid);
        proof {
            assert forall|r: i64| #[trigger] self.paths@.contains_key(r) implies self.paths@[r]@.len() > 0 by {
                assert(old(self).paths().contains_key(r));
            }
        }
    }

    /// The number of cached rooms and of rooms with extra paths.
    pub fn size(&self) -> (r: (usize, usize))
        ensures
            r.0 == self.rooms().len(),
            r.1 == self.paths().len(),
    {
        broadcast use vstd::std_specs::hash::group_hash_axioms;

        (self.rooms.len(), self.paths.len())
    }

    /// No room is cached.
    pub fn is_empty(&self) -> (r: bool)
        ensures
            r == (self.rooms().len() == 0),
    {
        broadcast use vstd::std_specs::hash::group_hash_axioms;

        self.rooms.len() == 0
    }
}

/// Setting a room's paths and reading them back gives the paths set; an
/// empty list reads back as none.
pub proof fn law_paths_read_back(m: Map<i64, Vec<RoomPath>>, roomid: i64, paths: Vec<RoomPath>)
    ensures
        ({
            let after = if paths@.len() == 0 {
                m.remove(roomid)
            } else {
                m.insert(roomid, paths)
            };
            (if after.contains_key(roomid) {
                after[roomid]@
            } else {
                Seq::<RoomPath>::empty()
            }) == paths@
        }),
{
}

} // verus!
