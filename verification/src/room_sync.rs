//! Synchronisation of the crawled rooms with the stored ones: which rooms
//! are new, changed or unchanged, what a new room and its extra paths look
//! like, which path changes an update makes, and the run's statistics.

use vstd::prelude::*;
use crate::room_data::RoomData;
use crate::path_tree::{calculate_roompath_hash, spec_roompath_hash};
use crate::text::{all_digits, compare_strs, concat_str, spec_split_on, split_on, string_views, lemma_split_on_nonempty};

verus! {

/// `s` is a UTC time in the RFC 3339 form `chrono` writes, with a
/// fraction of `f` characters (none, or a point and 3, 6 or 9 digits):
/// `<year>-MM-DDTHH:MM:SS<fraction>+00:00`, the year as four digits, or as
/// a sign and at least four digits outside 0 to 9999.
pub open spec fn utc_rfc3339_with_fraction(s: Seq<char>, f: int) -> bool {
    let n = s.len() as int;
    let t = n - 6 - f;
    &&& n >= 25 + f
    &&& s.subrange(n - 6, n) == "+00:00"@
    &&& f > 0 ==> s[t] == '.' && all_digits(s.subrange(t + 1, n - 6))
    &&& all_digits(s.subrange(t - 2, t)) && s[t - 3] == ':'
    &&& all_digits(s.subrange(t - 5, t - 3)) && s[t - 6] == ':'
    &&& all_digits(s.subrange(t - 8, t - 6)) && s[t - 9] == 'T'
    &&& all_digits(s.subrange(t - 11, t - 9)) && s[t - 12] == '-'
    &&& all_digits(s.subrange(t - 14, t - 12)) && s[t - 15] == '-'
    &&& ((t - 15 == 4 && all_digits(s.subrange(0, 4))) || (t - 15 >= 5 && (s[0] == '+' || s[0] == '-')
        && all_digits(s.subrange(1, t - 15))))
}

/// `s` is a UTC time in the RFC 3339 form `chrono` writes.
pub open spec fn is_utc_rfc3339(s: Seq<char>) -> bool {
    exists|f: int| (f == 0 || f == 4 || f == 7 || f == 10) && #[trigger] utc_rfc3339_with_fraction(s, f)
}

/// The current time as RFC 3339 text (`chrono::Utc::now().to_rfc3339()`):
/// the date, `T`, the time with the fraction of a second it has (to the
/// millisecond, microsecond or nanosecond), and the offset `+00:00`. Which
/// time it is depends on the clock and is not stated.
#[verifier::external_body]
fn now_rfc3339() -> (r: String)
    ensures
        is_utc_rfc3339(r@),
{
    chrono::Utc::now().to_rfc3339()
}

/// The statistics of a synchronisation run.
#[derive(Debug)]
pub struct SyncStats {
    /// Rooms created.
    pub new: usize,
    /// Rooms updated.
    pub updated: usize,
    /// Rooms whose creation or update failed.
    pub failed: usize,
    /// Rooms left as they were.
    pub skipped: usize,
    /// Rooms crawled.
    pub total: usize,
    /// When the run started (RFC 3339).
    pub started_at: String,
    /// When the run ended (RFC 3339).
    pub completed_at: Option<String>,
}

impl SyncStats {
    /// The statistics of a run starting now: all counts zero, the start
    /// time the current UTC time in RFC 3339 form, no end time.
    pub fn new() -> (r: SyncStats)
        ensures
            r.new == 0,
            r.updated == 0,
            r.failed == 0,
            r.skipped == 0,
            r.total == 0,
            is_utc_rfc3339(r.started_at@),
            r.completed_at is None,
    {
        SyncStats { new: 0, updated: 0, failed: 0, skipped: 0, total: 0, started_at: now_rfc3339(), completed_at: None }
    }

    /// Marks the run as ended now: the end time is the current UTC time in
    /// RFC 3339 form.
    pub fn complete(&mut self)
        ensures
            final(self).completed_at matches Some(t) && is_utc_rfc3339(t@),
            final(self).new == old(self).new,
            final(self).updated == old(self).updated,
            final(self).failed == old(self).failed,
            final(self).skipped == old(self).skipped,
            final(self).total == old(self).total,
            final(self).started_at == old(self).started_at,
    {
        self.completed_at = Some(now_rfc3339());
    }

    /// The summary line of the run.
    pub fn summary(&self) -> (r: (usize, usize, usize, usize, usize))
        ensures
            r == (self.total, self.new, self.updated, self.failed, self.skipped),
    {
        (self.total, self.new, self.updated, self.failed, self.skipped)
    }
}

/// The room name of a path: its last `/`-separated part.
pub open spec fn spec_room_name(path: Seq<char>) -> Seq<char> {
    spec_split_on(path, '/').last()
}

/// The room name of `path`: its last part.
pub fn room_name_of(path: &str) -> (r: String)
    ensures
        r@ == spec_room_name(path@),
{
    let parts = split_on(path, '/');
    proof {
        lemma_split_on_nonempty(path@, '/');
        assert(string_views(parts@)[parts@.len() - 1] == parts@[parts@.len() - 1]@);
    }
    parts[parts.len() - 1].clone()
}

/// A path to store for a room besides its primary one.
#[derive(Debug)]
pub struct NewRoomPath {
    pub roomid: i64,
    pub roompath: String,
    pub roompath_hash: i64,
    pub room_name: String,
    /// Where the path came from (`api_sync` for crawled paths).
    pub source_type: String,
}

/// `e` is the stored form of path `path` of room `roomid`.
pub open spec fn is_path_entry(e: NewRoomPath, roomid: i64, path: Seq<char>) -> bool {
    &&& e.roomid == roomid
    &&& e.roompath@ == path
    &&& e.roompath_hash == spec_roompath_hash(path)
    &&& e.room_name@ == spec_room_name(path)
    &&& e.source_type@ == "api_sync"@
}

impl NewRoomPath {
    /// A crawled path with the given hash and room name.
    pub fn new(roomid: i64, roompath: String, roompath_hash: i64, room_name: String) -> (r: NewRoomPath)
        ensures
            r.roomid == roomid,
            r.roompath == roompath,
            r.roompath_hash == roompath_hash,
            r.room_name == room_name,
            r.source_type@ == "api_sync"@,
    {
        NewRoomPath { roomid, roompath, roompath_hash, room_name, source_type: "api_sync".to_owned() }
    }
}

/// The stored form of path `path` of room `roomid`.
pub fn path_entry(roomid: i64, path: &str) -> (r: NewRoomPath)
    ensures
        is_path_entry(r, roomid, path@),
{
    let h = calculate_roompath_hash(path);
    let name = room_name_of(path);
    NewRoomPath::new(roomid, path.to_owned(), h, name)
}

/// A crawled room to create (its balance and threshold are set by the
/// caller).
#[derive(Debug)]
pub struct NewRoomPlan {
    pub roomid: i64,
    pub room_name: String,
    pub primary_roompath: String,
    pub primary_roompath_hash: i64,
    pub has_additional_paths: bool,
    pub is_active: bool,
    pub source_type: String,
}

/// The room to create for `room`: named after the last part of its primary
/// path, active, from the crawler.
pub fn plan_new_room(room: &RoomData) -> (r: NewRoomPlan)
    ensures
        r.roomid == room.roomid,
        r.room_name@ == spec_room_name(room.primary_roompath@),
        r.primary_roompath@ == room.primary_roompath@,
        r.primary_roompath_hash == spec_roompath_hash(room.primary_roompath@),
        r.has_additional_paths == (room.path_count > 1),
        r.is_active,
        r.source_type@ == "api_sync"@,
{
    NewRoomPlan {
        roomid: room.roomid,
        room_name: room_name_of(room.primary_roompath.as_str()),
        primary_roompath: room.primary_roompath.clone(),
        primary_roompath_hash: calculate_roompath_hash(room.primary_roompath.as_str()),
        has_additional_paths: room.path_count > 1,
        is_active: true,
        source_type: "api_sync".to_owned(),
    }
}

/// The extra paths to store for a new room: every path after the first,
/// when the room has more than one.
pub fn plan_additional_paths(room: &RoomData) -> (r: Vec<NewRoomPath>)
    ensures
        room.path_count > 1 && room.roompaths@.len() > 0 ==> r@.len() == room.roompaths@.len() - 1 && forall|k: int|
            0 <= k < r@.len() ==> is_path_entry(#[trigger] r@[k], room.roomid, room.roompaths@[k + 1]@),
        !(room.path_count > 1 && room.roompaths@.len() > 0) ==> r@.len() == 0,
{
    let mut out: Vec<NewRoomPath> = Vec::new();
    if room.path_count > 1 && room.roompaths.len() > 0 {
        let mut i: usize = 1;
        while i < room.roompaths.len()
            invariant
                1 <= i <= room.roompaths@.len(),
                out@.len() == i - 1,
                forall|k: int| 0 <= k < out@.len() ==> is_path_entry(#[trigger] out@[k], room.roomid, room.roompaths@[k + 1]@),
            decreases room.roompaths@.len() - i,
        {
            out.push(path_entry(room.roomid, room.roompaths[i].as_str()));
            i = i + 1;
        }
    }
    out
}

/// What is known of a stored room when comparing it with a crawled one.
#[derive(Debug)]
pub struct ExistingRoom {
    pub roomid: i64,
    pub primary_roompath: String,
    pub has_additional_paths: bool,
}

/// A crawled room needs an update when its primary path changed, when
/// whether it has extra paths changed, or whenever it has extra paths (their
/// contents are not compared).
pub open spec fn spec_needs_update(existing: ExistingRoom, new_data: RoomData) -> bool {
    existing.primary_roompath@ != new_data.primary_roompath@ || existing.has_additional_paths != (new_data.path_count
        > 1) || new_data.path_count > 1
}

/// Whether the stored room must be updated from the crawled one.
pub fn needs_update(existing: &ExistingRoom, new_data: &RoomData) -> (r: bool)
    ensures
        r == spec_needs_update(*existing, *new_data),
{
    if compare_strs(existing.primary_roompath.as_str(), new_data.primary_roompath.as_str()) != 0 {
        return true;
    }
    let new_has_additional = new_data.path_count > 1;
    if existing.has_additional_paths != new_has_additional {
        return true;
    }
    if new_has_additional {
        return true;
    }
    false
}

/// What a synchronisation does with a crawled room.
#[derive(Clone, Copy, PartialEq, Eq, Structural, Debug)]
pub enum SyncAction {
    Create,
    Update,
    Skip,
}

/// The index of the first stored room with id `roomid`.
pub open spec fn spec_find_existing(existing: Seq<ExistingRoom>, roomid: i64) -> Option<int>
    decreases existing.len(),
{
    if existing.len() == 0 {
        None
    } else if existing[0].roomid == roomid {
        Some(0)
    } else {
        match spec_find_existing(existing.drop_first(), roomid) {
            Some(i) => Some(i + 1),
            None => None,
        }
    }
}

/// The action for a crawled room: create it when no room has its id,
/// update the stored one when it needs it, else skip it.
pub open spec fn spec_sync_action(existing: Seq<ExistingRoom>, room: RoomData) -> SyncAction {
    match spec_find_existing(existing, room.roomid) {
        None => SyncAction::Create,
        Some(i) => if spec_needs_update(existing[i], room) {
            SyncAction::Update
        } else {
            SyncAction::Skip
        },
    }
}

proof fn lemma_find_existing_at(existing: Seq<ExistingRoom>, roomid: i64, j: int)
    requires
        0 <= j <= existing.len(),
        forall|i: int| 0 <= i < j ==> (#[trigger] existing[i]).roomid != roomid,
    ensures
        j < existing.len() && existing[j].roomid == roomid ==> spec_find_existing(existing, roomid) == Some(j),
        j == existing.len() ==> spec_find_existing(existing, roomid) == None::<int>,
    decreases j,
{
    if j > 0 {
        let t = existing.drop_first();
        assert forall|i: int| 0 <= i < j - 1 implies (#[trigger] t[i]).roomid != roomid by {
            assert(t[i] == existing[i + 1]);
        }
        lemma_find_existing_at(t, roomid, j - 1);
        if j < existing.len() {
            assert(t[j - 1] == existing[j]);
        }
    }
}

fn find_existing(existing: &[ExistingRoom], roomid: i64) -> (r: Option<usize>)
    ensures
        match r {
            Some(i) => spec_find_existing(existing@, roomid) == Some(i as int) && i < existing@.len(),
            None => spec_find_existing(existing@, roomid) is None,
        },
{
    let mut i: usize = 0;
    while i < existing.len()
        invariant
            i <= existing@.len(),
            forall|k: int| 0 <= k < i ==> (#[trigger] existing@[k]).roomid != roomid,
        decreases existing@.len() - i,
    {
        if existing[i].roomid == roomid {
            proof {
                lemma_find_existing_at(existing@, roomid, i as int);
            }
            return Some(i);
        }
        i = i + 1;
    }
    proof {
        lemma_find_existing_at(existing@, roomid, i as int);
    }
    None
}

/// The action for each crawled room, in order.
pub fn classify_rooms(latest: &[RoomData], existing: &[ExistingRoom]) -> (r: Vec<SyncAction>)
    ensures
        r@.len() == latest@.len(),
        forall|k: int| 0 <= k < r@.len() ==> #[trigger] r@[k] == spec_sync_action(existing@, latest@[k]),
{
    let mut out: Vec<SyncAction> = Vec::new();
    let mut i: usize = 0;
    while i < latest.len()
        invariant
            i <= latest@.len(),
            out@.len() == i,
            forall|k: int| 0 <= k < i ==> #[trigger] out@[k] == spec_sync_action(existing@, latest@[k]),
        decreases latest@.len() - i,
    {
        let room = &latest[i];
        let action = match find_existing(existing, room.roomid) {
            None => SyncAction::Create,
            Some(j) => {
                if needs_update(&existing[j], room) {
                    SyncAction::Update
                } else {
                    SyncAction::Skip
                }
            },
        };
        out.push(action);
        i = i + 1;
    }
    out
}

/// The number of rooms left as they were.
pub open spec fn spec_count_action(actions: Seq<SyncAction>, a: SyncAction) -> nat
    decreases actions.len(),
{
    if actions.len() == 0 {
        0
    } else {
        spec_count_action(actions.drop_last(), a) + if actions.last() == a {
            1nat
        } else {
            0nat
        }
    }
}

/// How many of `actions` are `a`.
pub fn count_action(actions: &[SyncAction], a: SyncAction) -> (n: usize)
    ensures
        n == spec_count_action(actions@, a),
{
    let mut n: usize = 0;
    let mut i: usize = 0;
    proof {
        assert(actions@.take(0) =~= Seq::<SyncAction>::empty());
    }
    while i < actions.len()
        invariant
            i <= actions@.len(),
            n == spec_count_action(actions@.take(i as int), a),
            n <= i,
        decreases actions@.len() - i,
    {
        proof {
            assert(actions@.take(i as int + 1).drop_last() =~= actions@.take(i as int));
        }
        if actions[i] == a {
            n = n + 1;
        }
        i = i + 1;
    }
    proof {
        assert(actions@.take(actions@.len() as int) =~= actions@);
    }
    n
}

/// The stored paths of a room and what to do to them.
#[derive(Debug)]
pub struct RoomUpdateOps {
    pub roomid: i64,
    /// The new primary path and its hash, when it changed.
    pub new_primary_path: Option<(String, i64)>,
    /// Paths to add.
    pub paths_to_add: Vec<NewRoomPath>,
    /// Paths to delete.
    pub paths_to_remove: Vec<String>,
    /// The new value of the room's extra-paths flag, when it changed.
    pub has_additional_paths: Option<bool>,
}

fn contains_path(v: &[String], p: &str) -> (r: bool)
    ensures
        r == string_views(v@).contains(p@),
{
    let mut i: usize = 0;
    while i < v.len()
        invariant
            i <= v@.len(),
            forall|k: int| 0 <= k < i ==> v@[k]@ != p@,
        decreases v@.len() - i,
    {
        if compare_strs(v[i].as_str(), p) == 0 {
            proof {
                assert(string_views(v@)[i as int] == p@);
            }
            return true;
        }
        i = i + 1;
    }
    proof {
        if string_views(v@).contains(p@) {
            let k = choose|k: int| 0 <= k < string_views(v@).len() && string_views(v@)[k] == p@;
            assert(v@[k]@ == p@);
        }
    }
    false
}

/// The paths of the stored room: its primary path and its extra ones.
pub open spec fn existing_paths(primary: Seq<char>, additional: Seq<Seq<char>>) -> Set<Seq<char>> {
    additional.to_set().insert(primary)
}

/// The paths of a list of path entries.
pub open spec fn added_paths(v: Seq<NewRoomPath>) -> Seq<Seq<char>> {
    v.map_values(|e: NewRoomPath| e.roompath@)
}

fn contains_added(v: &Vec<NewRoomPath>, p: &str) -> (r: bool)
    ensures
        r == added_paths(v@).contains(p@),
{
    let mut i: usize = 0;
    while i < v.len()
        invariant
            i <= v@.len(),
            forall|k: int| 0 <= k < i ==> v@[k].roompath@ != p@,
        decreases v@.len() - i,
    {
        if compare_strs(v[i].roompath.as_str(), p) == 0 {
            proof {
                assert(added_paths(v@)[i as int] == p@);
            }
            return true;
        }
        i = i + 1;
    }
    proof {
        if added_paths(v@).contains(p@) {
            let k = choose|k: int| 0 <= k < added_paths(v@).len() && added_paths(v@)[k] == p@;
            assert(v@[k].roompath@ == p@);
        }
    }
    false
}

proof fn lemma_add_step(
    before: Seq<Seq<char>>,
    after: Seq<Seq<char>>,
    seen: Seq<Seq<char>>,
    x: Seq<char>,
    existing: Set<Seq<char>>,
    primary: Seq<char>,
    pushed: bool,
)
    requires
        before.no_duplicates(),
        forall|q: Seq<char>|
            #[trigger] before.contains(q) <==> (seen.contains(q) && !existing.contains(q) && q != primary),
        pushed == (x != primary && !existing.contains(x) && !before.contains(x)),
        pushed ==> after == before.push(x),
        !pushed ==> after == before,
    ensures
        after.no_duplicates(),
        forall|q: Seq<char>|
            #[trigger] after.contains(q) <==> (seen.push(x).contains(q) && !existing.contains(q) && q != primary),
{
    assert forall|q: Seq<char>| #[trigger] after.contains(q) <==> (seen.push(x).contains(q) && !existing.contains(q) && q != primary) by {
        vstd::seq_lib::lemma_seq_contains_after_push(seen, x, q);
        vstd::seq_lib::lemma_seq_contains_after_push(before, x, q);
    }
    if pushed {
        assert forall|a: int, b: int| 0 <= a < after.len() && 0 <= b < after.len() && a != b implies after[a] != after[b] by {
            if a < before.len() && b < before.len() {
                assert(after[a] == before[a] && after[b] == before[b]);
            } else if a < before.len() {
                assert(after[a] == before[a]);
                assert(before.contains(before[a]));
            } else {
                assert(after[b] == before[b]);
                assert(before.contains(before[b]));
            }
        }
    }
}

/// The changes that turn the stored room (primary path, extra paths, flag)
/// into the crawled one: the crawled paths that are not stored, except the
/// new primary path, are added; the stored paths that were not crawled,
/// except the old primary path, are removed; the primary path and the
/// extra-paths flag are set when they changed.
pub fn prepare_room_update_ops(
    existing_primary: &str,
    existing_additional: &[String],
    existing_has_additional: bool,
    room: &RoomData,
) -> (ops: RoomUpdateOps)
    ensures
        ops.roomid == room.roomid,
        match ops.new_primary_path {
            Some((p, h)) => existing_primary@ != room.primary_roompath@ && p@ == room.primary_roompath@ && h
                == spec_roompath_hash(room.primary_roompath@),
            None => existing_primary@ == room.primary_roompath@,
        },
        added_paths(ops.paths_to_add@).no_duplicates(),
        forall|k: int|
            0 <= k < ops.paths_to_add@.len() ==> is_path_entry(
                #[trigger] ops.paths_to_add@[k],
                room.roomid,
                ops.paths_to_add@[k].roompath@,
            ),
        forall|p: Seq<char>|
            added_paths(ops.paths_to_add@).contains(p) <==> (string_views(room.roompaths@).contains(p)
                && !existing_paths(existing_primary@, string_views(existing_additional@)).contains(p) && p
                != room.primary_roompath@),
        string_views(ops.paths_to_remove@).no_duplicates(),
        forall|p: Seq<char>|
            string_views(ops.paths_to_remove@).contains(p) <==> (existing_paths(
                existing_primary@,
                string_views(existing_additional@),
            ).contains(p) && !string_views(room.roompaths@).contains(p) && p != existing_primary@),
        ops.has_additional_paths == (if (room.path_count > 1) != existing_has_additional {
            Some(room.path_count > 1)
        } else {
            None::<bool>
        }),
{
    let ghost existing = existing_paths(existing_primary@, string_views(existing_additional@));
    let ghost new_set = string_views(room.roompaths@).to_set();
    let mut to_add: Vec<NewRoomPath> = Vec::new();
    let mut i: usize = 0;
    proof {
        assert(added_paths(to_add@) =~= Seq::<Seq<char>>::empty());
    }
    while i < room.roompaths.len()
        invariant
            i <= room.roompaths@.len(),
            existing == existing_paths(existing_primary@, string_views(existing_additional@)),
            added_paths(to_add@).no_duplicates(),
            forall|k: int| 0 <= k < to_add@.len() ==> is_path_entry(#[trigger] to_add@[k], room.roomid, to_add@[k].roompath@),
            forall|q: Seq<char>|
                #[trigger] added_paths(to_add@).contains(q) <==> (string_views(room.roompaths@).take(i as int).contains(q)
                    && !existing.contains(q) && q != room.primary_roompath@),
        decreases room.roompaths@.len() - i,
    {
        let p = &room.roompaths[i];
        let is_new_primary = compare_strs(p.as_str(), room.primary_roompath.as_str()) == 0;
        let stored = compare_strs(p.as_str(), existing_primary) == 0 || contains_path(existing_additional, p.as_str());
        let already = contains_added(&to_add, p.as_str());
        let ghost before = to_add@;
        proof {
            assert(stored == existing.contains(p@)) by {
                if string_views(existing_additional@).contains(p@) {
                    assert(string_views(existing_additional@).to_set().contains(p@));
                }
                if existing.contains(p@) && p@ != existing_primary@ {
                    assert(string_views(existing_additional@).to_set().contains(p@));
                }
            }
            assert(string_views(room.roompaths@)[i as int] == p@);
            assert(string_views(room.roompaths@).take(i as int + 1) =~= string_views(room.roompaths@).take(i as int).push(p@));
        }
        let pushed = !is_new_primary && !stored && !already;
        if pushed {
            let e = path_entry(room.roomid, p.as_str());
            to_add.push(e);
            proof {
                assert(added_paths(to_add@) =~= added_paths(before).push(p@));
            }
        }
        proof {
            lemma_add_step(
                added_paths(before),
                added_paths(to_add@),
                string_views(room.roompaths@).take(i as int),
                p@,
                existing,
                room.primary_roompath@,
                pushed,
            );
        }
        i = i + 1;
    }
    proof {
        assert(string_views(room.roompaths@).take(room.roompaths@.len() as int) =~= string_views(room.roompaths@));
    }
    let mut to_remove: Vec<String> = Vec::new();
    let mut j: usize = 0;
    while j < existing_additional.len()
        invariant
            j <= existing_additional@.len(),
            string_views(to_remove@).no_duplicates(),
            forall|p: Seq<char>|
                string_views(to_remove@).contains(p) <==> (exists|k: int|
                    0 <= k < j && existing_additional@[k]@ == p) && !string_views(room.roompaths@).contains(p) && p
                    != existing_primary@,
        decreases existing_additional@.len() - j,
    {
        let p = &existing_additional[j];
        let crawled = contains_path(room.roompaths.as_slice(), p.as_str());
        let is_old_primary = compare_strs(p.as_str(), existing_primary) == 0;
        let already = contains_path(to_remove.as_slice(), p.as_str());
        let ghost before = string_views(to_remove@);
        if !crawled && !is_old_primary && !already {
            to_remove.push(p.clone());
        }
        proof {
            if !crawled && !is_old_primary && !already {
                assert(string_views(to_remove@) =~= before.push(p@));
            } else {
                assert(string_views(to_remove@) =~= before);
            }
            assert forall|q: Seq<char>|
                string_views(to_remove@).contains(q) <==> (exists|k: int|
                    0 <= k < j + 1 && existing_additional@[k]@ == q) && !string_views(room.roompaths@).contains(q) && q
                    != existing_primary@ by {
                vstd::seq_lib::lemma_seq_contains_after_push(before, p@, q);
                if exists|k: int| 0 <= k < j + 1 && existing_additional@[k]@ == q {
                    let k = choose|k: int| 0 <= k < j + 1 && existing_additional@[k]@ == q;
                    if k < j {
                        assert(exists|k3: int| 0 <= k3 < j && existing_additional@[k3]@ == q);
                    }
                }
                if before.contains(q) {
                    let k = choose|k: int| 0 <= k < j && existing_additional@[k]@ == q;
                    assert(0 <= k < j + 1 && existing_additional@[k]@ == q);
                }
            }
        }
        j = j + 1;
    }
    proof {
        assert forall|q: Seq<char>|
            (exists|k: int| 0 <= k < room.roompaths@.len() && room.roompaths@[k]@ == q) == string_views(room.roompaths@).contains(q) by {
            if exists|k: int| 0 <= k < room.roompaths@.len() && room.roompaths@[k]@ == q {
                let k = choose|k: int| 0 <= k < room.roompaths@.len() && room.roompaths@[k]@ == q;
                assert(string_views(room.roompaths@)[k] == q);
            }
            if string_views(room.roompaths@).contains(q) {
                let k = choose|k: int| 0 <= k < string_views(room.roompaths@).len() && string_views(room.roompaths@)[k] == q;
                assert(room.roompaths@[k]@ == q);
            }
        }
        assert forall|q: Seq<char>|
            string_views(to_remove@).contains(q) <==> (existing.contains(q) && !string_views(room.roompaths@).contains(q)
                && q != existing_primary@) by {
            if existing.contains(q) && q != existing_primary@ {
                assert(string_views(existing_additional@).to_set().contains(q));
                let k = choose|k: int| 0 <= k < string_views(existing_additional@).len() && string_views(existing_additional@)[k] == q;
                assert(existing_additional@[k]@ == q);
            }
            if exists|k: int| 0 <= k < existing_additional@.len() && existing_additional@[k]@ == q {
                let k = choose|k: int| 0 <= k < existing_additional@.len() && existing_additional@[k]@ == q;
                assert(string_views(existing_additional@)[k] == q);
                assert(string_views(existing_additional@).to_set().contains(q));
            }
        }
    }
    let new_primary_path = if compare_strs(existing_primary, room.primary_roompath.as_str()) != 0 {
        Some((room.primary_roompath.clone(), calculate_roompath_hash(room.primary_roompath.as_str())))
    } else {
        None
    };
    let has_additional = room.path_count > 1;
    let flag = if has_additional != existing_has_additional {
        Some(has_additional)
    } else {
        None
    };
    RoomUpdateOps {
        roomid: room.roomid,
        new_primary_path,
        paths_to_add: to_add,
        paths_to_remove: to_remove,
        has_additional_paths: flag,
    }
}

/// The outcome of updating rooms in one transaction: `(updated, failed)`.
/// Rooms whose changes could not be prepared fail; the prepared ones all
/// succeed or all fail with the transaction.
pub fn update_tally(prepare_failures: usize, batch_size: usize, transaction_ok: bool) -> (r: (usize, usize))
    requires
        prepare_failures + batch_size <= usize::MAX,
    ensures
        batch_size == 0 ==> r == (0usize, prepare_failures),
        batch_size > 0 && transaction_ok ==> r == (batch_size, prepare_failures),
        batch_size > 0 && !transaction_ok ==> r == (0usize, (prepare_failures + batch_size) as usize),
{
    if batch_size == 0 {
        (0, prepare_failures)
    } else if transaction_ok {
        (batch_size, prepare_failures)
    } else {
        (0, prepare_failures + batch_size)
    }
}

/// The message describing a synchronisation job's state: its error when it
/// failed, done when it completed, otherwise running since its start
/// (given as text).
pub open spec fn spec_sync_status_message(error: Option<Seq<char>>, completed: bool, started_at: Seq<char>) -> Seq<
    char,
> {
    match error {
        Some(e) => "任务失败: "@ + e,
        None => if completed {
            "任务已完成"@
        } else {
            "任务运行中（开始于: "@ + started_at + "）"@
        },
    }
}

/// The status message of a recorded job.
pub fn sync_status_message(error: Option<&str>, completed: bool, started_at: &str) -> (r: String)
    ensures
        r@ == spec_sync_status_message(
            match error {
                Some(e) => Some(e@),
                None => None,
            },
            completed,
            started_at@,
        ),
{
    match error {
        Some(e) => concat_str("任务失败: ", e),
        None => if completed {
            "任务已完成".to_owned()
        } else {
            let head = concat_str("任务运行中（开始于: ", started_at);
            concat_str(head.as_str(), "）")
        },
    }
}

/// The status and message of a job that has no record yet.
pub fn pending_sync_status() -> (r: (&'static str, &'static str))
    ensures
        r.0@ == "pending"@,
        r.1@ == "任务队列中，尚未开始执行"@,
{
    ("pending", "任务队列中，尚未开始执行")
}

/// The paths a room has once its update operations are applied: the
/// (possibly new) primary path, and the stored extra paths with the added
/// ones and without the removed ones.
pub open spec fn applied_paths(
    primary: Seq<char>,
    additional: Set<Seq<char>>,
    added: Set<Seq<char>>,
    removed: Set<Seq<char>>,
) -> Set<Seq<char>> {
    additional.union(added).difference(removed).insert(primary)
}

/// Applying the update operations of a room whose primary path did not
/// change leaves it with exactly the crawled paths. (When the primary path
/// changes, the old primary path is neither kept nor re-added as an extra
/// path, so a crawled path can be lost.)
pub proof fn law_update_ops_reproduce_paths(
    primary: Seq<char>,
    additional: Set<Seq<char>>,
    crawled: Set<Seq<char>>,
    added: Set<Seq<char>>,
    removed: Set<Seq<char>>,
)
    requires
        crawled.contains(primary),
        !additional.contains(primary),
        forall|p: Seq<char>|
            added.contains(p) <==> (crawled.contains(p) && !additional.insert(primary).contains(p) && p != primary),
        forall|p: Seq<char>|
            removed.contains(p) <==> (additional.insert(primary).contains(p) && !crawled.contains(p) && p != primary),
    ensures
        applied_paths(primary, additional, added, removed) == crawled,
{
    assert(applied_paths(primary, additional, added, removed) =~= crawled);
}

// ---------------------------------------------------------------------
// Laws of synchronisation.
// ---------------------------------------------------------------------

/// A crawled room with extra paths is always updated when a stored room has
/// its id: the contents of the extra paths are not compared, so they are
/// rewritten on every run.
pub proof fn law_room_with_extra_paths_is_updated(existing: Seq<ExistingRoom>, room: RoomData)
    requires
        room.path_count > 1,
        exists|i: int| 0 <= i < existing.len() && existing[i].roomid == room.roomid,
    ensures
        spec_sync_action(existing, room) == SyncAction::Update,
        forall|e: ExistingRoom| spec_needs_update(e, room),
{
    let i = choose|i: int| 0 <= i < existing.len() && existing[i].roomid == room.roomid;
    lemma_find_existing_some(existing, room.roomid, i);
}

/// A crawled room is skipped exactly when a stored room has its id, the
/// same primary path, no extra paths, and the crawled room has at most one
/// path; a room without a stored counterpart is created.
pub proof fn law_sync_action_cases(existing: Seq<ExistingRoom>, room: RoomData, i: int)
    requires
        0 <= i < existing.len(),
        existing[i].roomid == room.roomid,
        forall|j: int| 0 <= j < i ==> existing[j].roomid != room.roomid,
    ensures
        (spec_sync_action(existing, room) == SyncAction::Skip) <==> (existing[i].primary_roompath@
            == room.primary_roompath@ && !existing[i].has_additional_paths && room.path_count <= 1),
        spec_sync_action(existing, room) != SyncAction::Create,
{
    lemma_find_existing_first(existing, room.roomid, i);
}

/// A crawled room whose id no stored room has is created.
pub proof fn law_unknown_room_is_created(existing: Seq<ExistingRoom>, room: RoomData)
    requires
        forall|j: int| 0 <= j < existing.len() ==> existing[j].roomid != room.roomid,
    ensures
        spec_sync_action(existing, room) == SyncAction::Create,
{
    lemma_find_existing_none(existing, room.roomid);
}

proof fn lemma_find_existing_first(existing: Seq<ExistingRoom>, roomid: i64, i: int)
    requires
        0 <= i < existing.len(),
        existing[i].roomid == roomid,
        forall|j: int| 0 <= j < i ==> existing[j].roomid != roomid,
    ensures
        spec_find_existing(existing, roomid) == Some(i),
    decreases i,
{
    if i > 0 {
        assert forall|j: int| 0 <= j < i - 1 implies existing.drop_first()[j].roomid != roomid by {
            assert(existing.drop_first()[j] == existing[j + 1]);
        }
        assert(existing[0].roomid != roomid);
        lemma_find_existing_first(existing.drop_first(), roomid, i - 1);
    }
}

proof fn lemma_find_existing_some(existing: Seq<ExistingRoom>, roomid: i64, i: int)
    requires
        0 <= i < existing.len(),
        existing[i].roomid == roomid,
    ensures
        spec_find_existing(existing, roomid) is Some,
    decreases i,
{
    if i > 0 && existing[0].roomid != roomid {
        assert(existing.drop_first()[i - 1] == existing[i]);
        lemma_find_existing_some(existing.drop_first(), roomid, i - 1);
    }
}

proof fn lemma_find_existing_none(existing: Seq<ExistingRoom>, roomid: i64)
    requires
        forall|j: int| 0 <= j < existing.len() ==> existing[j].roomid != roomid,
    ensures
        spec_find_existing(existing, roomid) is None,
    decreases existing.len(),
{
    if existing.len() > 0 {
        assert(existing[0].roomid != roomid);
        assert forall|j: int| 0 <= j < existing.drop_first().len() implies existing.drop_first()[j].roomid != roomid by {
            assert(existing.drop_first()[j] == existing[j + 1]);
        }
        lemma_find_existing_none(existing.drop_first(), roomid);
    }
}

proof fn lemma_split_last_extends(s: Seq<char>, n: Seq<char>)
    requires
        forall|k: int| 0 <= k < n.len() ==> n[k] != '/',
    ensures
        spec_split_on(s + n, '/').len() >= 1,
        spec_split_on(s + n, '/').last() == spec_split_on(s, '/').last() + n,
    decreases n.len(),
{
    lemma_split_on_nonempty(s, '/');
    lemma_split_on_nonempty(s + n, '/');
    if n.len() == 0 {
        assert(s + n =~= s);
        assert(spec_split_on(s, '/').last() + n =~= spec_split_on(s, '/').last());
    } else {
        let m = n.drop_last();
        assert forall|k: int| 0 <= k < m.len() implies m[k] != '/' by {
            assert(m[k] == n[k]);
        }
        lemma_split_last_extends(s, m);
        assert((s + n).drop_last() =~= s + m);
        assert((s + n).last() == n.last());
        assert(n.last() == n[n.len() - 1]);
        assert(spec_split_on(s, '/').last() + m + seq![n.last()] =~= spec_split_on(s, '/').last() + n);
        assert((spec_split_on(s, '/').last() + m).push(n.last()) =~= spec_split_on(s, '/').last() + m + seq![n.last()]);
    }
}

/// The room name of a path is the part after its last `/`: for a path
/// `<p>/<n>` whose last part `n` holds no `/` it is `n`, and a path without
/// `/` is its own name.
pub proof fn law_room_name_is_last_part(p: Seq<char>, n: Seq<char>)
    requires
        forall|k: int| 0 <= k < n.len() ==> n[k] != '/',
    ensures
        spec_room_name(p + seq!['/'] + n) == n,
        spec_room_name(n) == n,
{
    let q = p + seq!['/'];
    lemma_split_on_nonempty(p, '/');
    assert(q.drop_last() =~= p);
    assert(q.last() == '/');
    assert(spec_split_on(q, '/').last() == Seq::<char>::empty());
    lemma_split_last_extends(q, n);
    assert(Seq::<char>::empty() + n =~= n);
    lemma_split_last_extends(Seq::<char>::empty(), n);
    assert(Seq::<char>::empty() + n =~= n);
}

} // verus!
