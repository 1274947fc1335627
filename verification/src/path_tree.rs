//! The room path index: a trie over the `/`-separated parts of the rooms'
//! primary paths (campus / building / floor / room), queried level by level,
//! and a hash index from a path's hash to the rooms stored under it.
//!
//! The specification describes every node by the rooms the tree was built
//! from, in order: a node exists for each prefix of a room's parts; it is a
//! leaf when the first room that reached it ended there; a leaf holds the
//! ids of the rooms whose parts are exactly its path.

use vstd::prelude::*;
use std::collections::HashMap;
use crate::room_data::RoomData;
use crate::text::{char_seq_less, lemma_less_total, lemma_less_transitive, compare_strs, concat_str, str_chars, string_from_chars, strictly_sorted, string_views};

verus! {

/// Separator of the parts of a path.
pub const PATH_SEPARATOR: char = '/';

/// The parts of `s` separated by `/`, as `str::split('/')` yields them:
/// always at least one part, empty parts included.
pub open spec fn spec_split(s: Seq<char>) -> Seq<Seq<char>>
    decreases s.len(),
{
    if s.len() == 0 {
        seq![Seq::<char>::empty()]
    } else {
        let p = spec_split(s.drop_last());
        if s.last() == PATH_SEPARATOR {
            p.push(Seq::<char>::empty())
        } else {
            p.update(p.len() - 1, p.last().push(s.last()))
        }
    }
}

pub proof fn lemma_split_nonempty(s: Seq<char>)
    ensures
        spec_split(s).len() >= 1,
    decreases s.len(),
{
    if s.len() > 0 {
        lemma_split_nonempty(s.drop_last());
    }
}

/// Splits `path` at every `/`.
pub fn split_path(path: &str) -> (parts: Vec<String>)
    ensures
        string_views(parts@) == spec_split(path@),
{
    let cs = str_chars(path);
    let mut parts: Vec<String> = Vec::new();
    let mut cur: Vec<char> = Vec::new();
    let mut i: usize = 0;
    proof {
        assert(cs@.take(0) =~= Seq::<char>::empty());
        assert(string_views(parts@).push(cur@) =~= seq![Seq::<char>::empty()]);
    }
    while i < cs.len()
        invariant
            cs@ == path@,
            i <= cs.len(),
            string_views(parts@).push(cur@) == spec_split(cs@.take(i as int)),
        decreases cs.len() - i,
    {
        let c = cs[i];
        let ghost before = string_views(parts@);
        let ghost cur_before = cur@;
        proof {
            assert(cs@.take(i as int + 1).drop_last() =~= cs@.take(i as int));
            assert(cs@.take(i as int + 1).last() == c);
        }
        if c == PATH_SEPARATOR {
            let s = string_from_chars(cur.as_slice());
            parts.push(s);
            cur = Vec::new();
            proof {
                assert(string_views(parts@) =~= before.push(cur_before));
                assert(string_views(parts@).push(cur@) =~= before.push(cur_before).push(Seq::<char>::empty()));
            }
        } else {
            cur.push(c);
            proof {
                assert(string_views(parts@) =~= before);
                assert(string_views(parts@).push(cur@) =~= before.push(cur_before).update(
                    before.len() as int,
                    cur_before.push(c),
                ));
            }
        }
        i = i + 1;
    }
    let ghost before = string_views(parts@);
    let ghost cur_before = cur@;
    let s = string_from_chars(cur.as_slice());
    parts.push(s);
    proof {
        assert(cs@.take(cs@.len() as int) =~= cs@);
        assert(string_views(parts@) =~= before.push(cur_before));
    }
    parts
}

/// FNV-1a offset basis.
pub const FNV_OFFSET: u64 = 0xcbf2_9ce4_8422_2325;

/// FNV-1a prime.
pub const FNV_PRIME: u64 = 0x0000_0100_0000_01b3;

/// FNV-1a over the code points of `s`.
pub open spec fn spec_fnv(s: Seq<char>) -> u64
    decreases s.len(),
{
    if s.len() == 0 {
        FNV_OFFSET
    } else {
        (spec_fnv(s.drop_last()) ^ ((s.last() as u32) as u64)).wrapping_mul(FNV_PRIME)
    }
}

/// The hash of a room path, as stored beside a room to find it again.
pub open spec fn spec_roompath_hash(s: Seq<char>) -> i64 {
    spec_fnv(s) as i64
}

/// The hash of a room path: FNV-1a over its code points, as a signed
/// 64-bit value.
pub fn calculate_roompath_hash(path: &str) -> (h: i64)
    ensures
        h == spec_roompath_hash(path@),
{
    let cs = str_chars(path);
    let mut h: u64 = FNV_OFFSET;
    let mut i: usize = 0;
    proof {
        assert(cs@.take(0) =~= Seq::<char>::empty());
    }
    while i < cs.len()
        invariant
            cs@ == path@,
            i <= cs.len(),
            h == spec_fnv(cs@.take(i as int)),
        decreases cs.len() - i,
    {
        let c = cs[i];
        proof {
            assert(cs@.take(i as int + 1).drop_last() =~= cs@.take(i as int));
        }
        h = (h ^ ((c as u32) as u64)).wrapping_mul(FNV_PRIME);
        i = i + 1;
    }
    proof {
        assert(cs@.take(cs@.len() as int) =~= cs@);
    }
    h as i64
}

/// A node of the path tree.
#[derive(Debug)]
pub struct PathNode {
    /// The node's part of the path (such as a campus or building name).
    pub name: String,
    /// The child nodes, one per name.
    pub children: Vec<PathNode>,
    /// Whether the node stands for a room.
    pub is_leaf: bool,
    /// The ids of the rooms at a leaf (one path may hold several rooms).
    pub roomids: Vec<i64>,
}

/// The rooms under a node: a leaf counts its own rooms, another node the
/// rooms under its children.
pub open spec fn spec_count_rooms(n: PathNode) -> nat
    decreases n, 1int,
{
    if n.is_leaf {
        n.roomids@.len()
    } else {
        spec_count_list(n.children@)
    }
}

/// The rooms under the nodes of `s`, summed.
pub open spec fn spec_count_list(s: Seq<PathNode>) -> nat
    decreases s, 0int,
{
    if s.len() == 0 {
        0
    } else {
        spec_count_list(s.subrange(0, s.len() - 1)) + spec_count_rooms(s[s.len() - 1])
    }
}

/// The nodes of the tree under `n`, `n` included.
pub open spec fn spec_count_nodes(n: PathNode) -> nat
    decreases n, 1int,
{
    1 + spec_count_node_list(n.children@)
}

/// The nodes of the trees under the nodes of `s`, summed.
pub open spec fn spec_count_node_list(s: Seq<PathNode>) -> nat
    decreases s, 0int,
{
    if s.len() == 0 {
        0
    } else {
        spec_count_node_list(s.subrange(0, s.len() - 1)) + spec_count_nodes(s[s.len() - 1])
    }
}

/// A room as the tree sees it: its primary path and its id.
pub type RoomEntry = (Seq<char>, i64);

/// The rooms of `rooms` as the tree sees them.
pub open spec fn room_entries(rooms: Seq<RoomData>) -> Seq<RoomEntry> {
    rooms.map_values(|r: RoomData| (r.primary_roompath@, r.roomid))
}

/// `p` is a prefix of `parts`.
pub open spec fn has_prefix(parts: Seq<Seq<char>>, p: Seq<Seq<char>>) -> bool {
    p.len() <= parts.len() && forall|i: int| 0 <= i < p.len() ==> parts[i] == p[i]
}

/// Some room's parts start with `p`.
pub open spec fn path_exists(rooms: Seq<RoomEntry>, p: Seq<Seq<char>>) -> bool
    decreases rooms.len(),
{
    rooms.len() > 0 && (path_exists(rooms.drop_last(), p) || has_prefix(spec_split(rooms.last().0), p))
}

/// The node at `p` is a leaf: the first room whose parts start with `p`
/// ends at `p`.
pub open spec fn path_is_leaf(rooms: Seq<RoomEntry>, p: Seq<Seq<char>>) -> bool
    decreases rooms.len(),
{
    if rooms.len() == 0 {
        false
    } else if path_exists(rooms.drop_last(), p) {
        path_is_leaf(rooms.drop_last(), p)
    } else {
        has_prefix(spec_split(rooms.last().0), p) && p.len() == spec_split(rooms.last().0).len()
    }
}

/// The ids held at `p`: those of the rooms whose parts are exactly `p`, in
/// order, when the node at `p` is a leaf.
pub open spec fn path_roomids(rooms: Seq<RoomEntry>, p: Seq<Seq<char>>) -> Seq<i64>
    decreases rooms.len(),
{
    if rooms.len() == 0 {
        Seq::empty()
    } else {
        let prev = path_roomids(rooms.drop_last(), p);
        if spec_split(rooms.last().0) == p && path_is_leaf(rooms, p) {
            prev.push(rooms.last().1)
        } else {
            prev
        }
    }
}

/// The children of `node` have distinct names.
pub open spec fn names_unique(s: Seq<PathNode>) -> bool {
    forall|i: int, j: int| 0 <= i < j < s.len() ==> (#[trigger] s[i]).name@ != (#[trigger] s[j]).name@
}

/// `node` is the node at path `p` of the tree built from `rooms`, with its
/// whole subtree.
pub open spec fn represents(node: PathNode, rooms: Seq<RoomEntry>, p: Seq<Seq<char>>) -> bool
    decreases node,
{
    &&& (p.len() == 0 ==> !node.is_leaf)
    &&& (p.len() > 0 ==> path_exists(rooms, p) && node.name@ == p.last() && node.is_leaf == path_is_leaf(rooms, p))
    &&& node.roomids@ == path_roomids(rooms, p)
    &&& names_unique(node.children@)
    &&& forall|m: Seq<char>|
        #[trigger] path_exists(rooms, p.push(m)) <==> exists|i: int|
            0 <= i < node.children@.len() && node.children@[i].name@ == m
    &&& forall|i: int|
        0 <= i < node.children@.len() ==> represents(
            #[trigger] node.children@[i],
            rooms,
            p.push(node.children@[i].name@),
        )
}

proof fn lemma_prefix_trans(a: Seq<Seq<char>>, b: Seq<Seq<char>>, c: Seq<Seq<char>>)
    requires
        has_prefix(a, b),
        has_prefix(b, c),
    ensures
        has_prefix(a, c),
{
    assert forall|i: int| 0 <= i < c.len() implies a[i] == c[i] by {
        assert(b[i] == c[i]);
    }
}

/// The nodes of the tree are closed under prefixes.
proof fn lemma_exists_prefix_closed(rooms: Seq<RoomEntry>, q: Seq<Seq<char>>, p: Seq<Seq<char>>)
    requires
        path_exists(rooms, q),
        has_prefix(q, p),
    ensures
        path_exists(rooms, p),
    decreases rooms.len(),
{
    if path_exists(rooms.drop_last(), q) {
        lemma_exists_prefix_closed(rooms.drop_last(), q, p);
    } else {
        lemma_prefix_trans(spec_split(rooms.last().0), q, p);
    }
}

/// A path with no room under it is no leaf and holds no room.
proof fn lemma_absent_path(rooms: Seq<RoomEntry>, p: Seq<Seq<char>>)
    requires
        !path_exists(rooms, p),
    ensures
        !path_is_leaf(rooms, p),
        path_roomids(rooms, p) == Seq::<i64>::empty(),
    decreases rooms.len(),
{
    if rooms.len() > 0 {
        lemma_absent_path(rooms.drop_last(), p);
    }
}

/// A room whose parts do not start with `p` changes nothing at `p`.
proof fn lemma_push_elsewhere(rooms: Seq<RoomEntry>, x: RoomEntry, p: Seq<Seq<char>>)
    requires
        !has_prefix(spec_split(x.0), p),
    ensures
        path_exists(rooms.push(x), p) == path_exists(rooms, p),
        path_is_leaf(rooms.push(x), p) == path_is_leaf(rooms, p),
        path_roomids(rooms.push(x), p) == path_roomids(rooms, p),
{
    assert(rooms.push(x).drop_last() =~= rooms);
    if !path_exists(rooms, p) {
        lemma_absent_path(rooms, p);
    }
}

/// Adding a room whose parts do not start with `p` keeps a subtree at `p`
/// as it is.
proof fn lemma_represents_elsewhere(node: PathNode, rooms: Seq<RoomEntry>, x: RoomEntry, p: Seq<Seq<char>>)
    requires
        represents(node, rooms, p),
        !has_prefix(spec_split(x.0), p),
    ensures
        represents(node, rooms.push(x), p),
    decreases node,
{
    lemma_push_elsewhere(rooms, x, p);
    let xp = spec_split(x.0);
    assert forall|m: Seq<char>| !has_prefix(xp, #[trigger] p.push(m)) by {
        if has_prefix(xp, p.push(m)) {
            assert forall|i: int| 0 <= i < p.len() implies xp[i] == p[i] by {
                assert(p.push(m)[i] == p[i]);
            }
        }
    }
    assert forall|m: Seq<char>|
        #[trigger] path_exists(rooms.push(x), p.push(m)) == path_exists(rooms, p.push(m)) by {
        lemma_push_elsewhere(rooms, x, p.push(m));
    }
    assert forall|i: int| 0 <= i < node.children@.len() implies represents(
        #[trigger] node.children@[i],
        rooms.push(x),
        p.push(node.children@[i].name@),
    ) by {
        lemma_represents_elsewhere(node.children@[i], rooms, x, p.push(node.children@[i].name@));
    }
}


/// Position of the child named `name`.
fn find_child(children: &Vec<PathNode>, name: &str) -> (r: Option<usize>)
    ensures
        match r {
            Some(i) => i < children@.len() && children@[i as int].name@ == name@,
            None => forall|i: int| 0 <= i < children@.len() ==> (#[trigger] children@[i]).name@ != name@,
        },
{
    let mut i: usize = 0;
    while i < children.len()
        invariant
            i <= children@.len(),
            forall|j: int| 0 <= j < i ==> (#[trigger] children@[j]).name@ != name@,
        decreases children@.len() - i,
    {
        if compare_strs(children[i].name.as_str(), name) == 0 {
            return Some(i);
        }
        i = i + 1;
    }
    None
}

/// The chain of new nodes for the parts of a room from level `k` on, when
/// no earlier room reached level `k` of its path.
fn make_chain(parts: &Vec<String>, k: usize, roomid: i64, Ghost(rooms): Ghost<Seq<RoomEntry>>, Ghost(x): Ghost<RoomEntry>) -> (n: PathNode)
    requires
        1 <= k <= parts@.len(),
        string_views(parts@) == spec_split(x.0),
        x.1 == roomid,
        !path_exists(rooms, spec_split(x.0).take(k as int)),
    ensures
        represents(n, rooms.push(x), spec_split(x.0).take(k as int)),
    decreases parts@.len() - k,
{
    let ghost xp = spec_split(x.0);
    let ghost q = xp.take(k as int);
    let ghost r2 = rooms.push(x);
    proof {
        assert(r2.drop_last() =~= rooms);
        assert(has_prefix(xp, q));
        lemma_absent_path(rooms, q);
        assert(string_views(parts@)[k - 1] == parts@[k - 1]@);
        assert forall|m: Seq<char>| !path_exists(rooms, #[trigger] q.push(m)) by {
            if path_exists(rooms, q.push(m)) {
                assert(has_prefix(q.push(m), q));
                lemma_exists_prefix_closed(rooms, q.push(m), q);
            }
        }
    }
    let name = parts[k - 1].clone();
    if k == parts.len() {
        let mut ids: Vec<i64> = Vec::new();
        ids.push(roomid);
        let n = PathNode { name, children: Vec::new(), is_leaf: true, roomids: ids };
        proof {
            assert(xp =~= q);
            assert forall|m: Seq<char>| !has_prefix(xp, #[trigger] q.push(m)) by {}
            assert forall|m: Seq<char>| !path_exists(r2, #[trigger] q.push(m)) by {
                assert(!path_exists(rooms, q.push(m)));
            }
            assert(n.roomids@ =~= path_roomids(r2, q));
        }
        n
    } else {
        proof {
            assert(xp.take(k as int + 1) =~= q.push(xp[k as int]));
        }
        let child = make_chain(parts, k + 1, roomid, Ghost(rooms), Ghost(x));
        let mut cs: Vec<PathNode> = Vec::new();
        cs.push(child);
        let n = PathNode { name, children: cs, is_leaf: false, roomids: Vec::new() };
        proof {
            assert(n.children@[0].name@ == xp[k as int]);
            assert forall|m: Seq<char>|
                #[trigger] path_exists(r2, q.push(m)) <==> exists|i: int|
                    0 <= i < n.children@.len() && n.children@[i].name@ == m by {
                assert(!path_exists(rooms, q.push(m)));
                if has_prefix(xp, q.push(m)) {
                    assert(q.push(m)[k as int] == m);
                }
                if m == xp[k as int] {
                    assert(has_prefix(xp, q.push(m)));
                }
            }
            assert(n.roomids@ =~= path_roomids(r2, q));
        }
        n
    }
}

/// Adds the room `x`, whose path has the parts `parts`, below `node`, the
/// node at level `level` of that path.
fn insert_room(
    node: &mut PathNode,
    parts: &Vec<String>,
    level: usize,
    roomid: i64,
    Ghost(rooms): Ghost<Seq<RoomEntry>>,
    Ghost(x): Ghost<RoomEntry>,
)
    requires
        level <= parts@.len(),
        string_views(parts@) == spec_split(x.0),
        x.1 == roomid,
        represents(*old(node), rooms, spec_split(x.0).take(level as int)),
    ensures
        represents(*final(node), rooms.push(x), spec_split(x.0).take(level as int)),
    decreases parts@.len() - level,
{
    let ghost xp = spec_split(x.0);
    let ghost p = xp.take(level as int);
    let ghost r2 = rooms.push(x);
    let ghost old_node = *node;
    proof {
        lemma_split_nonempty(x.0);
        assert(r2.drop_last() =~= rooms);
        assert(has_prefix(xp, p));
    }
    if level == parts.len() {
        if node.is_leaf {
            node.roomids.push(roomid);
        }
        proof {
            assert(xp =~= p);
            assert forall|m: Seq<char>| !has_prefix(xp, #[trigger] p.push(m)) by {}
            assert forall|i: int| 0 <= i < node.children@.len() implies represents(
                #[trigger] node.children@[i],
                r2,
                p.push(node.children@[i].name@),
            ) by {
                lemma_represents_elsewhere(node.children@[i], rooms, x, p.push(node.children@[i].name@));
            }
            assert forall|m: Seq<char>| #[trigger] path_exists(r2, p.push(m)) == path_exists(rooms, p.push(m)) by {
                lemma_push_elsewhere(rooms, x, p.push(m));
            }
            assert(node.roomids@ =~= path_roomids(r2, p));
        }
    } else {
        let ghost nm = xp[level as int];
        proof {
            assert(string_views(parts@)[level as int] == parts@[level as int]@);
            assert(xp.take(level as int + 1) =~= p.push(nm));
            assert forall|m: Seq<char>| m != nm implies !has_prefix(xp, #[trigger] p.push(m)) by {
                if has_prefix(xp, p.push(m)) {
                    assert(p.push(m)[level as int] == m);
                }
            }
            assert(has_prefix(xp, p.push(nm)));
        }
        match find_child(&node.children, parts[level].as_str()) {
            Some(i) => {
                let mut child = PathNode::new(String::new(), false);
                std::mem::swap(&mut child, &mut node.children[i]);
                proof {
                    assert(child == old_node.children@[i as int]);
                    assert(child.name@ == nm);
                }
                insert_room(&mut child, parts, level + 1, roomid, Ghost(rooms), Ghost(x));
                node.children.set(i, child);
                proof {
                    assert forall|j: int| 0 <= j < node.children@.len() implies represents(
                        #[trigger] node.children@[j],
                        r2,
                        p.push(node.children@[j].name@),
                    ) by {
                        if j != i {
                            assert(node.children@[j] == old_node.children@[j]);
                            lemma_represents_elsewhere(node.children@[j], rooms, x, p.push(node.children@[j].name@));
                        }
                    }
                    assert forall|a: int, b: int| 0 <= a < b < node.children@.len() implies
                        (#[trigger] node.children@[a]).name@ != (#[trigger] node.children@[b]).name@ by {
                        assert(node.children@[a].name@ == old_node.children@[a].name@);
                        assert(node.children@[b].name@ == old_node.children@[b].name@);
                    }
                    assert forall|m: Seq<char>|
                        #[trigger] path_exists(r2, p.push(m)) <==> exists|j: int|
                            0 <= j < node.children@.len() && node.children@[j].name@ == m by {
                        if m != nm {
                            lemma_push_elsewhere(rooms, x, p.push(m));
                            if exists|j: int| 0 <= j < old_node.children@.len() && old_node.children@[j].name@ == m {
                                let j = choose|j: int| 0 <= j < old_node.children@.len() && old_node.children@[j].name@ == m;
                                assert(node.children@[j].name@ == m);
                            }
                            if exists|j: int| 0 <= j < node.children@.len() && node.children@[j].name@ == m {
                                let j = choose|j: int| 0 <= j < node.children@.len() && node.children@[j].name@ == m;
                                assert(old_node.children@[j].name@ == m);
                            }
                        } else {
                            assert(node.children@[i as int].name@ == m);
                        }
                    }
                }
            },
            None => {
                proof {
                    assert(!path_exists(rooms, p.push(nm)));
                }
                let child = make_chain(parts, level + 1, roomid, Ghost(rooms), Ghost(x));
                node.children.push(child);
                proof {
                    assert forall|j: int| 0 <= j < node.children@.len() implies represents(
                        #[trigger] node.children@[j],
                        r2,
                        p.push(node.children@[j].name@),
                    ) by {
                        if j < old_node.children@.len() {
                            assert(node.children@[j] == old_node.children@[j]);
                            lemma_represents_elsewhere(node.children@[j], rooms, x, p.push(node.children@[j].name@));
                        }
                    }
                    assert forall|a: int, b: int| 0 <= a < b < node.children@.len() implies
                        (#[trigger] node.children@[a]).name@ != (#[trigger] node.children@[b]).name@ by {
                        assert(node.children@[a] == old_node.children@[a]);
                        if b < old_node.children@.len() {
                            assert(node.children@[b] == old_node.children@[b]);
                        }
                    }
                    assert forall|m: Seq<char>|
                        #[trigger] path_exists(r2, p.push(m)) <==> exists|j: int|
                            0 <= j < node.children@.len() && node.children@[j].name@ == m by {
                        if m != nm {
                            lemma_push_elsewhere(rooms, x, p.push(m));
                            if exists|j: int| 0 <= j < old_node.children@.len() && old_node.children@[j].name@ == m {
                                let j = choose|j: int| 0 <= j < old_node.children@.len() && old_node.children@[j].name@ == m;
                                assert(node.children@[j].name@ == m);
                            }
                            if exists|j: int| 0 <= j < node.children@.len() && node.children@[j].name@ == m {
                                let j = choose|j: int| 0 <= j < node.children@.len() && node.children@[j].name@ == m;
                                assert(old_node.children@[j].name@ == m);
                            }
                        } else {
                            assert(node.children@[old_node.children@.len() as int].name@ == m);
                        }
                    }
                }
            },
        }
        proof {
            if level > 0 {
                assert(p.len() > 0);
            }
            assert(node.roomids@ =~= path_roomids(r2, p));
        }
    }
}


/// The rooms, in order, whose path has the hash `h`.
pub open spec fn entries_with_hash(rooms: Seq<RoomEntry>, h: i64) -> Seq<RoomEntry>
    decreases rooms.len(),
{
    if rooms.len() == 0 {
        Seq::empty()
    } else {
        let prev = entries_with_hash(rooms.drop_last(), h);
        if spec_roompath_hash(rooms.last().0) == h {
            prev.push(rooms.last())
        } else {
            prev
        }
    }
}

/// The id of the first room of `s` whose path is `path`.
pub open spec fn first_with_path(s: Seq<RoomEntry>, path: Seq<char>) -> Option<i64>
    decreases s.len(),
{
    if s.len() == 0 {
        None
    } else if s[0].0 == path {
        Some(s[0].1)
    } else {
        first_with_path(s.drop_first(), path)
    }
}

proof fn lemma_first_with_path_at(s: Seq<RoomEntry>, path: Seq<char>, j: int)
    requires
        0 <= j <= s.len(),
        forall|i: int| 0 <= i < j ==> (#[trigger] s[i]).0 != path,
    ensures
        j < s.len() && s[j].0 == path ==> first_with_path(s, path) == Some(s[j].1),
        j == s.len() ==> first_with_path(s, path) == None::<i64>,
    decreases j,
{
    if j > 0 {
        let t = s.drop_first();
        assert forall|i: int| 0 <= i < j - 1 implies (#[trigger] t[i]).0 != path by {
            assert(t[i] == s[i + 1]);
        }
        lemma_first_with_path_at(t, path, j - 1);
        if j < s.len() {
            assert(t[j - 1] == s[j]);
        }
    }
}

proof fn lemma_first_with_path_push(s: Seq<RoomEntry>, x: RoomEntry, path: Seq<char>)
    ensures
        first_with_path(s.push(x), path) == (match first_with_path(s, path) {
            Some(id) => Some(id),
            None => if x.0 == path {
                Some(x.1)
            } else {
                None
            },
        }),
    decreases s.len(),
{
    if s.len() > 0 {
        assert(s.push(x)[0] == s[0]);
        assert(s.push(x).drop_first() =~= s.drop_first().push(x));
        lemma_first_with_path_push(s.drop_first(), x, path);
    } else {
        assert(s.push(x)[0] == x);
        assert(s.push(x).drop_first() =~= Seq::<RoomEntry>::empty());
        assert(first_with_path(Seq::<RoomEntry>::empty(), path) == None::<i64>);
    }
}

/// The node reached from `n` by following the names of `q`.
pub open spec fn spec_node_at(n: PathNode, q: Seq<Seq<char>>) -> PathNode
    decreases q.len(),
{
    if q.len() == 0 {
        n
    } else {
        let parent = spec_node_at(n, q.drop_last());
        parent.children@[choose|i: int| 0 <= i < parent.children@.len() && parent.children@[i].name@ == q.last()]
    }
}

/// What the lookup by path finds: the first id held at the leaf `q`.
pub open spec fn spec_find_by_path(rooms: Seq<RoomEntry>, q: Seq<Seq<char>>) -> Option<i64> {
    if path_exists(rooms, q) && path_is_leaf(rooms, q) && path_roomids(rooms, q).len() > 0 {
        Some(path_roomids(rooms, q)[0])
    } else {
        None
    }
}

/// The parts of a parent path: none for the empty path (the root).
pub open spec fn spec_parent_parts(parent: Seq<char>) -> Seq<Seq<char>> {
    if parent.len() == 0 {
        Seq::empty()
    } else {
        spec_split(parent)
    }
}

/// A child of a queried node, as the query reports it.
#[derive(Debug)]
pub struct PathChildNode {
    /// The child's name.
    pub name: String,
    /// Whether the child is a room.
    pub is_leaf: bool,
    /// The number of rooms under the child.
    pub room_count: usize,
}

/// The names of a list of children.
pub open spec fn child_names(s: Seq<PathChildNode>) -> Seq<Seq<char>> {
    s.map_values(|c: PathChildNode| c.name@)
}

/// A count as a `usize` reports it: beyond `usize::MAX` it saturates.
pub open spec fn saturated(n: nat) -> nat {
    if n <= usize::MAX {
        n
    } else {
        usize::MAX as nat
    }
}

/// A path tree query that failed.
#[derive(Debug)]
pub enum PathTreeError {
    /// No node has the given path.
    PathNotFound(String),
}

impl PathTreeError {
    /// The error message: `路径不存在: <path>`.
    pub fn message(&self) -> (r: String)
        ensures
            match self {
                PathTreeError::PathNotFound(p) => r@ == "路径不存在: "@ + p@,
            },
    {
        match self {
            PathTreeError::PathNotFound(p) => concat_str("路径不存在: ", p.as_str()),
        }
    }
}

struct PathHashEntry {
    roompath: String,
    roomid: i64,
}

spec fn entry_views(s: Seq<PathHashEntry>) -> Seq<RoomEntry> {
    s.map_values(|e: PathHashEntry| (e.roompath@, e.roomid))
}

spec fn index_matches(m: Map<i64, Vec<PathHashEntry>>, rooms: Seq<RoomEntry>) -> bool {
    forall|h: i64|
        #![trigger entries_with_hash(rooms, h)]
        (m.contains_key(h) ==> entry_views(m[h]@) == entries_with_hash(rooms, h)) && (!m.contains_key(h)
            ==> entries_with_hash(rooms, h).len() == 0)
}

proof fn lemma_index_add(
    m0: Map<i64, Vec<PathHashEntry>>,
    r0: Seq<RoomEntry>,
    x: RoomEntry,
    h: i64,
    list: Vec<PathHashEntry>,
)
    requires
        index_matches(m0, r0),
        h == spec_roompath_hash(x.0),
        entry_views(list@) == (if m0.contains_key(h) {
            entry_views(m0[h]@)
        } else {
            Seq::<RoomEntry>::empty()
        }).push(x),
    ensures
        index_matches(m0.remove(h).insert(h, list), r0.push(x)),
{
    let r1 = r0.push(x);
    let m1 = m0.remove(h).insert(h, list);
    assert(r1.drop_last() =~= r0);
    assert forall|k: i64|
        #![trigger entries_with_hash(r1, k)]
        (m1.contains_key(k) ==> entry_views(m1[k]@) == entries_with_hash(r1, k)) && (!m1.contains_key(k)
            ==> entries_with_hash(r1, k).len() == 0) by {
        assert(entries_with_hash(r0, k) == entries_with_hash(r0, k));
        if k == h {
            if !m0.contains_key(h) {
                assert(entries_with_hash(r0, h) =~= Seq::<RoomEntry>::empty());
            }
        } else {
            assert(m1.contains_key(k) == m0.contains_key(k));
            if m0.contains_key(k) {
                assert(m1[k] == m0[k]);
            }
        }
    }
}

/// Files `entry`, the room `x`, under the hash `h` of its path.
fn index_add(
    index: &mut HashMap<i64, Vec<PathHashEntry>>,
    h: i64,
    entry: PathHashEntry,
    Ghost(r0): Ghost<Seq<RoomEntry>>,
    Ghost(x): Ghost<RoomEntry>,
)
    requires
        index_matches(old(index)@, r0),
        h == spec_roompath_hash(x.0),
        (entry.roompath@, entry.roomid) == x,
    ensures
        index_matches(final(index)@, r0.push(x)),
{
    broadcast use vstd::std_specs::hash::group_hash_axioms;

    let ghost m0 = index@;
    let removed = index.remove(&h);
    proof {
        if removed is Some {
            assert(m0.contains_key(h) && m0[h] == removed->0);
        } else {
            assert(!m0.contains_key(h));
        }
    }
    let mut list: Vec<PathHashEntry> = match removed {
        Some(v) => v,
        None => {
            let v: Vec<PathHashEntry> = Vec::new();
            proof {
                assert(entry_views(v@) =~= Seq::<RoomEntry>::empty());
            }
            v
        },
    };
    let ghost prev = entry_views(list@);
    list.push(entry);
    proof {
        assert(entry_views(list@) =~= prev.push(x));
        lemma_index_add(m0, r0, x, h, list);
    }
    index.insert(h, list);
}

/// The id of the first entry of `entries` whose path is `path`.
fn first_entry_with_path(entries: &Vec<PathHashEntry>, path: &str) -> (r: Option<i64>)
    ensures
        r == first_with_path(entry_views(entries@), path@),
{
    let ghost s = entry_views(entries@);
    let mut j: usize = 0;
    while j < entries.len()
        invariant
            s == entry_views(entries@),
            j <= entries@.len(),
            forall|i: int| 0 <= i < j ==> (#[trigger] s[i]).0 != path@,
        decreases entries@.len() - j,
    {
        proof {
            assert(s[j as int] == (entries@[j as int].roompath@, entries@[j as int].roomid));
        }
        if compare_strs(entries[j].roompath.as_str(), path) == 0 {
            proof {
                lemma_first_with_path_at(s, path@, j as int);
            }
            return Some(entries[j].roomid);
        }
        j = j + 1;
    }
    proof {
        lemma_first_with_path_at(s, path@, j as int);
    }
    None
}

/// What the query reports of the child `c`.
#[verifier::opaque]
pub open spec fn reports(out: PathChildNode, c: PathNode) -> bool {
    &&& out.name@ == c.name@
    &&& out.is_leaf == c.is_leaf
    &&& out.room_count == saturated(spec_count_rooms(c))
}

/// The report of each child of `node`, ascending by name, and for each
/// report the position of the child it reports.
fn report_children(node: &PathNode) -> (r: (Vec<PathChildNode>, Ghost<Seq<int>>))
    requires
        names_unique(node.children@),
    ensures
        r.0@.len() == node.children@.len(),
        r.1@.len() == r.0@.len(),
        strictly_sorted(child_names(r.0@)),
        forall|k: int|
            0 <= k < r.0@.len() ==> 0 <= #[trigger] r.1@[k] < node.children@.len() && reports(
                r.0@[k],
                node.children@[r.1@[k]],
            ),
        forall|j: int| 0 <= j < node.children@.len() ==> child_names(r.0@).contains(#[trigger] node.children@[j].name@),
{
    let mut res: Vec<PathChildNode> = Vec::new();
    let ghost mut src: Seq<int> = Seq::empty();
    let mut i: usize = 0;
    while i < node.children.len()
        invariant
            names_unique(node.children@),
            i <= node.children@.len(),
            res@.len() == i,
            src.len() == i,
            strictly_sorted(child_names(res@)),
            forall|k: int| 0 <= k < i ==> 0 <= #[trigger] src[k] < i && reports(res@[k], node.children@[src[k]]),
            forall|j: int| 0 <= j < i ==> child_names(res@).contains(#[trigger] node.children@[j].name@),
        decreases node.children@.len() - i,
    {
        let c = &node.children[i];
        let info = PathChildNode { name: c.name.clone(), is_leaf: c.is_leaf, room_count: c.count_rooms() };
        proof {
            reveal(reports);
            assert(reports(info, node.children@[i as int]));
            assert forall|k: int| 0 <= k < res@.len() implies (#[trigger] res@[k]).name@ != info.name@ by {
                assert(src[k] != i);
                assert(node.children@[src[k]].name@ != node.children@[i as int].name@);
            }
        }
        let ghost before = res@;
        let pos = insert_by_name(&mut res, info);
        proof {
            let old_src = src;
            src = src.insert(pos as int, i as int);
            assert forall|k: int| 0 <= k < i + 1 implies 0 <= #[trigger] src[k] < i + 1 && reports(
                res@[k],
                node.children@[src[k]],
            ) by {
                if k < pos {
                    assert(res@[k] == before[k] && src[k] == old_src[k]);
                } else if k > pos {
                    assert(res@[k] == before[k - 1] && src[k] == old_src[k - 1]);
                }
            }
            assert(child_names(res@) =~= child_names(before).insert(pos as int, info.name@));
            assert forall|j: int| 0 <= j < i + 1 implies child_names(res@).contains(#[trigger] node.children@[j].name@) by {
                let nb = child_names(before);
                let na = child_names(res@);
                if j < i {
                    let k = choose|k: int| 0 <= k < nb.len() && nb[k] == node.children@[j].name@;
                    if k < pos {
                        assert(na[k] == nb[k]);
                    } else {
                        assert(na[k + 1] == nb[k]);
                    }
                } else {
                    assert(na[pos as int] == info.name@);
                }
            }
        }
        i = i + 1;
    }
    (res, Ghost(src))
}

/// Every child of the node at `pp` is reported.
proof fn lemma_report_complete(node: PathNode, rooms: Seq<RoomEntry>, pp: Seq<Seq<char>>, out: Seq<PathChildNode>)
    requires
        represents(node, rooms, pp),
        forall|j: int| 0 <= j < node.children@.len() ==> child_names(out).contains(#[trigger] node.children@[j].name@),
    ensures
        forall|m: Seq<char>| path_exists(rooms, #[trigger] pp.push(m)) ==> child_names(out).contains(m),
{
    assert forall|m: Seq<char>| path_exists(rooms, #[trigger] pp.push(m)) implies child_names(out).contains(m) by {
        let j = choose|j: int| 0 <= j < node.children@.len() && node.children@[j].name@ == m;
        assert(child_names(out).contains(node.children@[j].name@));
    }
}

/// A report of a child of the node at `pp` describes the rooms at the
/// child's path.
proof fn lemma_report_sound(
    node: PathNode,
    rooms: Seq<RoomEntry>,
    pp: Seq<Seq<char>>,
    root: PathNode,
    c: PathChildNode,
    j: int,
)
    requires
        represents(node, rooms, pp),
        node == spec_node_at(root, pp),
        0 <= j < node.children@.len(),
        reports(c, node.children@[j]),
    ensures
        path_exists(rooms, pp.push(c.name@)),
        c.is_leaf == path_is_leaf(rooms, pp.push(c.name@)),
        c.room_count == saturated(spec_count_rooms(spec_node_at(root, pp.push(c.name@)))),
{
    reveal(reports);
    let child = node.children@[j];
    let q = pp.push(child.name@);
    assert(represents(child, rooms, q));
    assert(q.drop_last() =~= pp);
    let ci = choose|ci: int| 0 <= ci < node.children@.len() && node.children@[ci].name@ == q.last();
    assert(node.children@[ci].name@ == child.name@);
    assert(ci == j);
}

/// The room path index.
pub struct RoomPathTree {
    root: PathNode,
    hash_index: HashMap<i64, Vec<PathHashEntry>>,
    rooms: Ghost<Seq<RoomEntry>>,
}

/// Position of the first child of the ascending `v` whose name is not
/// smaller than `name`.
fn position_by_name(v: &Vec<PathChildNode>, name: &str) -> (i: usize)
    ensures
        i <= v@.len(),
        forall|j: int| 0 <= j < i ==> char_seq_less(#[trigger] v@[j].name@, name@),
        i < v@.len() ==> !char_seq_less(v@[i as int].name@, name@),
{
    let mut i: usize = 0;
    loop
        invariant
            i <= v@.len(),
            forall|j: int| 0 <= j < i ==> char_seq_less(#[trigger] v@[j].name@, name@),
        decreases v@.len() - i,
    {
        if i == v.len() {
            return i;
        }
        if compare_strs(v[i].name.as_str(), name) >= 0 {
            return i;
        }
        i = i + 1;
    }
}

/// Adds `c` to the list `v`, kept strictly ascending by name; returns
/// where it went.
fn insert_by_name(v: &mut Vec<PathChildNode>, c: PathChildNode) -> (pos: usize)
    requires
        strictly_sorted(child_names(old(v)@)),
        forall|k: int| 0 <= k < old(v)@.len() ==> (#[trigger] old(v)@[k]).name@ != c.name@,
    ensures
        strictly_sorted(child_names(final(v)@)),
        pos <= old(v)@.len(),
        final(v)@ == old(v)@.insert(pos as int, c),
{
    let ghost old_names = child_names(v@);
    let i = position_by_name(v, c.name.as_str());
    let ghost old_v = v@;
    let ghost cv = c;
    v.insert(i, c);
    proof {
        let nn = child_names(v@);
        assert(v@ =~= old_v.insert(i as int, cv));
        assert(nn =~= old_names.insert(i as int, cv.name@));
        if i < old_v.len() {
            assert(old_names[i as int] == old_v[i as int].name@);
            assert(old_names[i as int] != cv.name@);
            lemma_less_total(old_names[i as int], cv.name@);
        }
        assert forall|p: int, q: int| 0 <= p < q < nn.len() implies char_seq_less(
            #[trigger] nn[p],
            #[trigger] nn[q],
        ) by {
            if q < i {
                assert(nn[p] == old_names[p] && nn[q] == old_names[q]);
            } else if q == i {
                assert(nn[p] == old_names[p]);
                assert(old_v[p].name@ == old_names[p]);
            } else if p == i {
                assert(nn[q] == old_names[q - 1]);
                if q - 1 > i {
                    lemma_less_transitive(cv.name@, old_names[i as int], old_names[q - 1]);
                }
            } else if p < i {
                assert(nn[p] == old_names[p]);
                assert(nn[q] == old_names[q - 1]);
                assert(old_v[p].name@ == old_names[p]);
                lemma_less_transitive(old_names[p], cv.name@, old_names[i as int]);
                if q - 1 > i {
                    lemma_less_transitive(old_names[p], old_names[i as int], old_names[q - 1]);
                }
            } else {
                assert(nn[p] == old_names[p - 1]);
                assert(nn[q] == old_names[q - 1]);
            }
        }
    }
    i
}

impl PathNode {
    /// A node with no children and no rooms.
    pub fn new(name: String, is_leaf: bool) -> (r: PathNode)
        ensures
            r.name == name,
            r.is_leaf == is_leaf,
            r.children@.len() == 0,
            r.roomids@.len() == 0,
    {
        PathNode { name, children: Vec::new(), is_leaf, roomids: Vec::new() }
    }

    /// The number of rooms under the node; a count beyond `usize::MAX`
    /// reads as `usize::MAX`.
    pub fn count_rooms(&self) -> (r: usize)
        ensures
            r == (if spec_count_rooms(*self) <= usize::MAX {
                spec_count_rooms(*self)
            } else {
                usize::MAX as nat
            }),
        decreases *self,
    {
        if self.is_leaf {
            self.roomids.len()
        } else {
            let mut total: usize = 0;
            let mut i: usize = 0;
            while i < self.children.len()
                invariant
                    i <= self.children@.len(),
                    total == (if spec_count_list(self.children@.subrange(0, i as int)) <= usize::MAX {
                        spec_count_list(self.children@.subrange(0, i as int))
                    } else {
                        usize::MAX as nat
                    }),
                decreases self.children@.len() - i,
            {
                proof {
                    assert(self.children@.subrange(0, i as int + 1).subrange(0, i as int) =~= self.children@.subrange(
                        0,
                        i as int,
                    ));
                }
                let c = self.children[i].count_rooms();
                total = total.saturating_add(c);
                i = i + 1;
            }
            proof {
                assert(self.children@.subrange(0, self.children@.len() as int) =~= self.children@);
            }
            total
        }
    }
}

impl PathNode {
    /// The number of nodes of the tree under the node, itself included; a
    /// count beyond `usize::MAX` reads as `usize::MAX`.
    pub fn count_nodes(&self) -> (r: usize)
        ensures
            r == (if spec_count_nodes(*self) <= usize::MAX {
                spec_count_nodes(*self)
            } else {
                usize::MAX as nat
            }),
        decreases *self,
    {
        let mut total: usize = 0;
        let mut i: usize = 0;
        while i < self.children.len()
            invariant
                i <= self.children@.len(),
                total == (if spec_count_node_list(self.children@.subrange(0, i as int)) <= usize::MAX {
                    spec_count_node_list(self.children@.subrange(0, i as int))
                } else {
                    usize::MAX as nat
                }),
            decreases self.children@.len() - i,
        {
            proof {
                assert(self.children@.subrange(0, i as int + 1).subrange(0, i as int) =~= self.children@.subrange(
                    0,
                    i as int,
                ));
            }
            let c = self.children[i].count_nodes();
            total = total.saturating_add(c);
            i = i + 1;
        }
        proof {
            assert(self.children@.subrange(0, self.children@.len() as int) =~= self.children@);
        }
        total.saturating_add(1)
    }
}

impl RoomPathTree {
    /// The rooms the tree was built from, in order.
    pub closed spec fn rooms(&self) -> Seq<RoomEntry> {
        self.rooms@
    }

    /// The root node.
    pub closed spec fn root_node(&self) -> PathNode {
        self.root
    }

    /// The hash index holds, under each hash, the rooms whose path has it.
    pub closed spec fn index_ok(&self) -> bool {
        index_matches(self.hash_index@, self.rooms@)
    }

    /// The tree and the index are those of `rooms()`.
    pub open spec fn wf(&self) -> bool {
        represents(self.root_node(), self.rooms(), Seq::empty()) && self.index_ok()
    }

    /// An empty tree.
    pub fn new() -> (t: RoomPathTree)
        ensures
            t.wf(),
            t.rooms() == Seq::<RoomEntry>::empty(),
    {
        let t = RoomPathTree {
            root: PathNode::new(String::new(), false),
            hash_index: HashMap::new(),
            rooms: Ghost(Seq::empty()),
        };
        proof {
            assert forall|m: Seq<char>| !path_exists(Seq::<RoomEntry>::empty(), #[trigger] Seq::<Seq<char>>::empty().push(m)) by {}
            assert(t.root.roomids@ =~= path_roomids(Seq::<RoomEntry>::empty(), Seq::empty()));
        }
        t
    }

    /// Adds one room: its path's parts to the trie, its path and id to the
    /// hash index.
    fn add_room(&mut self, room: &RoomData)
        requires
            old(self).wf(),
        ensures
            final(self).wf(),
            final(self).rooms() == old(self).rooms().push((room.primary_roompath@, room.roomid)),
    {
        let ghost x: RoomEntry = (room.primary_roompath@, room.roomid);
        let ghost r0 = self.rooms@;
        let ghost m0 = self.hash_index@;
        let parts = split_path(room.primary_roompath.as_str());
        proof {
            assert(spec_split(x.0).take(0) =~= Seq::<Seq<char>>::empty());
        }
        insert_room(&mut self.root, &parts, 0, room.roomid, Ghost(r0), Ghost(x));
        let h = calculate_roompath_hash(room.primary_roompath.as_str());
        let entry = PathHashEntry { roompath: room.primary_roompath.clone(), roomid: room.roomid };
        index_add(&mut self.hash_index, h, entry, Ghost(r0), Ghost(x));
        self.rooms = Ghost(r0.push(x));
    }

    /// Builds the tree and the hash index of `rooms`, by their primary
    /// paths.
    pub fn build_from_rooms(rooms: &[RoomData]) -> (t: RoomPathTree)
        ensures
            t.wf(),
            t.rooms() == room_entries(rooms@),
    {
        let mut t = RoomPathTree::new();
        let mut k: usize = 0;
        proof {
            assert(room_entries(rooms@.take(0)) =~= Seq::<RoomEntry>::empty());
        }
        while k < rooms.len()
            invariant
                k <= rooms@.len(),
                t.wf(),
                t.rooms() == room_entries(rooms@.take(k as int)),
            decreases rooms@.len() - k,
        {
            t.add_room(&rooms[k]);
            proof {
                assert(room_entries(rooms@.take(k as int + 1)) =~= room_entries(rooms@.take(k as int)).push(
                    (rooms@[k as int].primary_roompath@, rooms@[k as int].roomid),
                ));
            }
            k = k + 1;
        }
        proof {
            assert(rooms@.take(rooms@.len() as int) =~= rooms@);
        }
        t
    }

    /// The node at the path whose parts are `parts`.
    fn find_node(&self, parts: &Vec<String>) -> (r: Option<&PathNode>)
        requires
            self.wf(),
        ensures
            match r {
                Some(n) => represents(*n, self.rooms(), string_views(parts@)) && *n == spec_node_at(
                    self.root_node(),
                    string_views(parts@),
                ),
                None => !path_exists(self.rooms(), string_views(parts@)),
            },
    {
        let ghost q = string_views(parts@);
        let ghost rooms = self.rooms();
        let mut current: &PathNode = &self.root;
        let mut k: usize = 0;
        proof {
            assert(q.take(0) =~= Seq::<Seq<char>>::empty());
        }
        while k < parts.len()
            invariant
                q == string_views(parts@),
                rooms == self.rooms(),
                k <= parts@.len(),
                represents(*current, rooms, q.take(k as int)),
                *current == spec_node_at(self.root_node(), q.take(k as int)),
            decreases parts@.len() - k,
        {
            let ghost qk = q.take(k as int);
            proof {
                assert(q.take(k as int + 1) =~= qk.push(q[k as int]));
                assert(q[k as int] == parts@[k as int]@);
            }
            match find_child(&current.children, parts[k].as_str()) {
                Some(i) => {
                    proof {
                        let j = choose|j: int|
                            0 <= j < current.children@.len() && current.children@[j].name@ == q[k as int];
                        assert(j == i);
                        assert(q.take(k as int + 1).drop_last() =~= qk);
                    }
                    current = &current.children[i];
                },
                None => {
                    proof {
                        assert(!path_exists(rooms, qk.push(q[k as int])));
                        if path_exists(rooms, q) {
                            assert(has_prefix(q, qk.push(q[k as int])));
                            lemma_exists_prefix_closed(rooms, q, qk.push(q[k as int]));
                        }
                    }
                    return None;
                },
            }
            k = k + 1;
        }
        proof {
            assert(q.take(parts@.len() as int) =~= q);
        }
        Some(current)
    }

    /// The room at the full path `path`: the first id held at that leaf.
    pub fn find_roomid_by_path(&self, path: &str) -> (r: Option<i64>)
        requires
            self.wf(),
        ensures
            r == spec_find_by_path(self.rooms(), spec_split(path@)),
    {
        let parts = split_path(path);
        proof {
            lemma_split_nonempty(path@);
        }
        match self.find_node(&parts) {
            Some(n) => {
                if n.is_leaf && n.roomids.len() > 0 {
                    Some(n.roomids[0])
                } else {
                    None
                }
            },
            None => None,
        }
    }

    /// The room stored under the hash `hash` whose path is `path`: the first
    /// one added, if any. The path is compared so that two paths with the
    /// same hash are told apart.
    pub fn find_roomid_by_hash(&self, hash: i64, path: &str) -> (r: Option<i64>)
        requires
            self.wf(),
        ensures
            r == first_with_path(entries_with_hash(self.rooms(), hash), path@),
    {
        let found = self.hash_index.get(&hash);
        proof {
            broadcast use vstd::std_specs::hash::group_hash_axioms;
            assert(index_matches(self.hash_index@, self.rooms()));
            assert(entries_with_hash(self.rooms(), hash) == entries_with_hash(self.rooms(), hash));
            if found is Some {
                assert(self.hash_index@.contains_key(hash) && self.hash_index@[hash] == *found->0);
            } else {
                assert(!self.hash_index@.contains_key(hash));
                assert(entries_with_hash(self.rooms(), hash) =~= Seq::<RoomEntry>::empty());
            }
        }
        match found {
            Some(entries) => first_entry_with_path(entries, path),
            None => None,
        }
    }

    /// The children of the node at `parent_path` (the root for the empty
    /// path), ascending by name, each with whether it is a room and the
    /// number of rooms under it. Fails when no node has that path.
    pub fn query_children(&self, parent_path: &str) -> (r: Result<Vec<PathChildNode>, PathTreeError>)
        requires
            self.wf(),
        ensures
            ({
                let pp = spec_parent_parts(parent_path@);
                match r {
                    Ok(children) => {
                        &&& (pp.len() == 0 || path_exists(self.rooms(), pp))
                        &&& strictly_sorted(child_names(children@))
                        &&& forall|m: Seq<char>|
                            path_exists(self.rooms(), #[trigger] pp.push(m)) ==> child_names(children@).contains(m)
                        &&& forall|k: int|
                            0 <= k < children@.len() ==> {
                                let c = #[trigger] children@[k];
                                let q = pp.push(c.name@);
                                &&& path_exists(self.rooms(), q)
                                &&& c.is_leaf == path_is_leaf(self.rooms(), q)
                                &&& c.room_count == saturated(spec_count_rooms(spec_node_at(self.root_node(), q)))
                            }
                    },
                    Err(e) => {
                        &&& pp.len() > 0
                        &&& !path_exists(self.rooms(), pp)
                        &&& e matches PathTreeError::PathNotFound(p) && p@ == parent_path@
                    },
                }
            }),
    {
        let pchars = str_chars(parent_path);
        let ghost pp = spec_parent_parts(parent_path@);
        proof {
            lemma_split_nonempty(parent_path@);
        }
        let node: &PathNode = if pchars.len() == 0 {
            proof {
                assert(spec_node_at(self.root_node(), Seq::<Seq<char>>::empty()) == self.root);
            }
            &self.root
        } else {
            let parts = split_path(parent_path);
            match self.find_node(&parts) {
                Some(n) => n,
                None => {
                    let p = parent_path.to_owned();
                    return Err(PathTreeError::PathNotFound(p));
                },
            }
        };
        let (out, Ghost(src)) = report_children(node);
        proof {
            lemma_report_complete(*node, self.rooms(), pp, out@);
            assert forall|k: int| 0 <= k < out@.len() implies {
                let c = #[trigger] out@[k];
                let q = pp.push(c.name@);
                &&& path_exists(self.rooms(), q)
                &&& c.is_leaf == path_is_leaf(self.rooms(), q)
                &&& c.room_count == saturated(spec_count_rooms(spec_node_at(self.root_node(), q)))
            } by {
                lemma_report_sound(*node, self.rooms(), pp, self.root_node(), out@[k], src[k]);
            }
        }
        Ok(out)
    }
}

/// The level of the children listed for `parent`: 0 for the root, else one
/// more than the number of separators in `parent`.
pub fn path_level(parent: &str) -> (r: usize)
    ensures
        r == (if parent@.len() == 0 {
            0
        } else {
            spec_split(parent@).len()
        }),
{
    let cs = str_chars(parent);
    if cs.len() == 0 {
        0
    } else {
        split_path(parent).len()
    }
}

/// The ids, in order, of the rooms whose parts are exactly `q`.
pub open spec fn ids_with_parts(rooms: Seq<RoomEntry>, q: Seq<Seq<char>>) -> Seq<i64>
    decreases rooms.len(),
{
    if rooms.len() == 0 {
        Seq::empty()
    } else {
        let prev = ids_with_parts(rooms.drop_last(), q);
        if spec_split(rooms.last().0) == q {
            prev.push(rooms.last().1)
        } else {
            prev
        }
    }
}

proof fn lemma_no_ids_when_absent(rooms: Seq<RoomEntry>, q: Seq<Seq<char>>)
    requires
        !path_exists(rooms, q),
    ensures
        ids_with_parts(rooms, q) == Seq::<i64>::empty(),
    decreases rooms.len(),
{
    if rooms.len() > 0 {
        lemma_no_ids_when_absent(rooms.drop_last(), q);
        if spec_split(rooms.last().0) == q {
            assert(has_prefix(spec_split(rooms.last().0), q));
        }
    }
}

/// A leaf holds the ids of all the rooms whose path has exactly its parts,
/// in the order the rooms were added.
pub proof fn law_leaf_holds_its_rooms(rooms: Seq<RoomEntry>, q: Seq<Seq<char>>)
    requires
        path_is_leaf(rooms, q),
    ensures
        path_exists(rooms, q),
        path_roomids(rooms, q) == ids_with_parts(rooms, q),
        ids_with_parts(rooms, q).len() > 0,
    decreases rooms.len(),
{
    let r0 = rooms.drop_last();
    let x = rooms.last();
    if path_exists(r0, q) {
        law_leaf_holds_its_rooms(r0, q);
    } else {
        lemma_absent_path(r0, q);
        lemma_no_ids_when_absent(r0, q);
        assert(spec_split(x.0) =~= q);
    }
}

/// Looking up a leaf's path finds the first room added with exactly that
/// path.
pub proof fn law_path_lookup_finds_first_room(rooms: Seq<RoomEntry>, q: Seq<Seq<char>>)
    requires
        path_is_leaf(rooms, q),
    ensures
        spec_find_by_path(rooms, q) == Some(ids_with_parts(rooms, q)[0]),
{
    law_leaf_holds_its_rooms(rooms, q);
}

/// Looking a path up under its own hash finds the first room added with
/// that path: entries with a colliding hash are told apart by the path.
pub proof fn law_hash_lookup_finds_first_room(rooms: Seq<RoomEntry>, path: Seq<char>)
    ensures
        first_with_path(entries_with_hash(rooms, spec_roompath_hash(path)), path) == first_with_path(rooms, path),
    decreases rooms.len(),
{
    if rooms.len() == 0 {
        assert(first_with_path(Seq::<RoomEntry>::empty(), path) == None::<i64>);
    } else {
        let r0 = rooms.drop_last();
        let x = rooms.last();
        law_hash_lookup_finds_first_room(r0, path);
        assert(rooms =~= r0.push(x));
        lemma_first_with_path_push(r0, x, path);
        let h = spec_roompath_hash(path);
        if spec_roompath_hash(x.0) == h {
            lemma_first_with_path_push(entries_with_hash(r0, h), x, path);
        } else {
            assert(x.0 != path);
        }
    }
}

/// A leaf counts exactly the rooms it holds.
pub proof fn law_leaf_count(node: PathNode, rooms: Seq<RoomEntry>, q: Seq<Seq<char>>)
    requires
        represents(node, rooms, q),
        q.len() > 0,
        path_is_leaf(rooms, q),
    ensures
        spec_count_rooms(node) == ids_with_parts(rooms, q).len(),
{
    law_leaf_holds_its_rooms(rooms, q);
}

} // verus!
