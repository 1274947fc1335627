//! The path tree endpoints: the level-by-level listing and the path hash.

use vstd::prelude::*;
use crate::path_tree::{path_level, spec_roompath_hash, spec_split, calculate_roompath_hash, PathChildNode};

verus! {

/// The parent whose children are listed; the root when empty.
#[derive(Debug)]
pub struct QueryPathRequest {
    pub parent: String,
}

/// A listed child.
#[derive(Debug)]
pub struct PathChild {
    pub name: String,
    pub is_leaf: bool,
    pub room_count: usize,
    /// The room's id; the tree's listing does not give it.
    pub roomid: Option<i32>,
}

/// The listing of a parent's children.
#[derive(Debug)]
pub struct PathChildrenResponse {
    pub children: Vec<PathChild>,
    /// The level of the children: 0 under the root.
    pub current_level: usize,
    pub total_count: usize,
}

/// A room looked up by its path.
#[derive(Debug)]
pub struct QueryByPathRequest {
    pub path: String,
}

/// A room looked up by the hash of its path, and the path.
#[derive(Debug)]
pub struct QueryByHashRequest {
    pub hash: i64,
    pub path: String,
}

/// A path whose hash is asked for.
#[derive(Debug)]
pub struct CalculateHashRequest {
    pub path: String,
}

/// A path and its hash.
#[derive(Debug)]
pub struct HashResponse {
    pub path: String,
    pub hash: i64,
}

/// The listing of the children of `parent`, in the order given, with
/// their level and number.
pub fn children_response(parent: &str, children: Vec<PathChildNode>) -> (r: PathChildrenResponse)
    ensures
        r.current_level == (if parent@.len() == 0 {
            0
        } else {
            spec_split(parent@).len()
        }),
        r.total_count == children@.len(),
        r.children@.len() == children@.len(),
        forall|i: int|
            0 <= i < children@.len() ==> {
                &&& (#[trigger] r.children@[i]).name == children@[i].name
                &&& r.children@[i].is_leaf == children@[i].is_leaf
                &&& r.children@[i].room_count == children@[i].room_count
                &&& r.children@[i].roomid is None
            },
{
    let current_level = path_level(parent);
    let total_count = children.len();
    let ghost all = children@;
    let mut rest = children;
    let mut out: Vec<PathChild> = Vec::new();
    let mut k: usize = 0;
    while rest.len() > 0
        invariant
            k + rest@.len() == all.len(),
            all.len() == total_count,
            rest@ == all.subrange(k as int, all.len() as int),
            out@.len() == k,
            forall|i: int|
                0 <= i < k ==> {
                    &&& (#[trigger] out@[i]).name == all[i].name
                    &&& out@[i].is_leaf == all[i].is_leaf
                    &&& out@[i].room_count == all[i].room_count
                    &&& out@[i].roomid is None
                },
        decreases rest@.len(),
    {
        let c = rest.remove(0);
        proof {
            assert(c == all[k as int]);
            assert(rest@ =~= all.subrange(k + 1, all.len() as int));
        }
        out.push(PathChild { name: c.name, is_leaf: c.is_leaf, room_count: c.room_count, roomid: None });
        k = k + 1;
    }
    PathChildrenResponse { children: out, current_level, total_count }
}

/// The hash of `path`, with the path.
pub fn hash_response(path: String) -> (r: HashResponse)
    ensures
        r.path@ == path@,
        r.hash == spec_roompath_hash(path@),
{
    let hash = calculate_roompath_hash(path.as_str());
    HashResponse { path, hash }
}

} // verus!
