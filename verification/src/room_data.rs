//! Room records from the crawler and their merge by `roomid`: one room id may
//! be reachable under several paths of the campus tree (1:N).

use vstd::prelude::*;
use crate::text::{parse_i64, spec_parse_i64, lemma_insert_to_set, lemma_sorted_same_set_equal, concat_str, i64_to_decimal, int_decimal, sort_dedup_strings, strictly_sorted, string_views};

verus! {

/// One leaf of the crawled room tree, as the crawler reported it.
#[derive(Debug)]
pub struct RoomInfo {
    /// Full path `campus/building/.../room`.
    pub roompath: String,
    /// Room id as text, as the upstream API sends it.
    pub roomid: String,
}

/// A room with all the paths under which it appears.
#[derive(Debug)]
pub struct RoomData {
    /// Room id.
    pub roomid: i64,
    /// All paths, ascending and without repetitions.
    pub roompaths: Vec<String>,
    /// The first path of `roompaths`, or a placeholder when there is none.
    pub primary_roompath: String,
    /// Number of paths.
    pub path_count: usize,
}

/// The placeholder path of a room that has no path: `未知路径/<roomid>`.
pub open spec fn unknown_path(roomid: i64) -> Seq<char> {
    "未知路径/"@ + int_decimal(roomid as int)
}

/// What `RoomData::new(roomid, paths)` builds when `paths` holds the set
/// `paths` of character sequences.
pub open spec fn is_room_data_of(r: RoomData, roomid: i64, paths: Set<Seq<char>>) -> bool {
    &&& r.roomid == roomid
    &&& strictly_sorted(string_views(r.roompaths@))
    &&& string_views(r.roompaths@).to_set() == paths
    &&& r.path_count == r.roompaths@.len()
    &&& r.primary_roompath@ == (if r.roompaths@.len() > 0 {
        r.roompaths@[0]@
    } else {
        unknown_path(roomid)
    })
}

impl RoomData {
    /// Builds a room from its id and its paths: the paths are sorted and
    /// deduplicated, the first becomes the primary path.
    pub fn new(roomid: i64, roompaths: Vec<String>) -> (r: RoomData)
        ensures
            is_room_data_of(r, roomid, string_views(roompaths@).to_set()),
            r.roompaths@.len() <= roompaths@.len(),
    {
        let paths = sort_dedup_strings(roompaths);
        let primary_roompath = if paths.len() > 0 {
            paths[0].clone()
        } else {
            let digits = i64_to_decimal(roomid);
            concat_str("未知路径/", digits.as_str())
        };
        let path_count = paths.len();
        RoomData { roomid, roompaths: paths, primary_roompath, path_count }
    }

    /// Whether the room has more than one path.
    pub fn has_additional_paths(&self) -> (r: bool)
        ensures
            r == (self.path_count > 1),
    {
        self.path_count > 1
    }
}

/// Normalizing a room again changes nothing: a room built from the id and
/// the paths of a room that `RoomData::new` built has the same id, paths,
/// primary path and path count.
pub proof fn law_room_data_normal_form_is_stable(r: RoomData, r2: RoomData, roomid: i64, paths: Set<Seq<char>>)
    requires
        is_room_data_of(r, roomid, paths),
        is_room_data_of(r2, r.roomid, string_views(r.roompaths@).to_set()),
    ensures
        r2.roomid == r.roomid,
        string_views(r2.roompaths@) == string_views(r.roompaths@),
        r2.primary_roompath@ == r.primary_roompath@,
        r2.path_count == r.path_count,
{
    lemma_sorted_same_set_equal(string_views(r2.roompaths@), string_views(r.roompaths@));
    assert(r2.roompaths@.len() == string_views(r2.roompaths@).len());
    assert(r.roompaths@.len() == string_views(r.roompaths@).len());
    if r.roompaths@.len() > 0 {
        assert(string_views(r2.roompaths@)[0] == r2.roompaths@[0]@);
        assert(string_views(r.roompaths@)[0] == r.roompaths@[0]@);
    }
}

/// Number of rooms with more than one path.
pub open spec fn spec_multi_path_count(s: Seq<RoomData>) -> nat
    decreases s.len(),
{
    if s.len() == 0 {
        0
    } else {
        spec_multi_path_count(s.drop_last()) + (if s.last().path_count > 1 {
            1nat
        } else {
            0nat
        })
    }
}

/// The largest path count, 0 for no rooms.
pub open spec fn spec_max_paths(s: Seq<RoomData>) -> nat
    decreases s.len(),
{
    if s.len() == 0 {
        0
    } else {
        let m = spec_max_paths(s.drop_last());
        if s.last().path_count > m {
            s.last().path_count as nat
        } else {
            m
        }
    }
}

/// The sum of the path counts.
pub open spec fn spec_total_paths(s: Seq<RoomData>) -> nat
    decreases s.len(),
{
    if s.len() == 0 {
        0
    } else {
        spec_total_paths(s.drop_last()) + s.last().path_count as nat
    }
}

/// Statistics of one merge by room id.
#[derive(Debug)]
pub struct MergeStatistics {
    /// Records before the merge.
    pub raw_count: usize,
    /// Distinct room ids after the merge.
    pub unique_roomid_count: usize,
    /// Room ids with more than one path.
    pub multi_path_count: usize,
    /// Most paths of one room id.
    pub max_paths: usize,
    /// All paths of all merged rooms; the mean number of paths is
    /// `total_paths / unique_roomid_count`.
    pub total_paths: usize,
    /// Records whose room id is not an integer.
    pub parse_error_count: usize,
}

/// The statistics that `MergeStatistics::calculate` computes.
pub open spec fn spec_merge_statistics(
    raw_count: usize,
    merged: Seq<RoomData>,
    parse_error_count: usize,
) -> MergeStatistics {
    MergeStatistics {
        raw_count,
        unique_roomid_count: merged.len() as usize,
        multi_path_count: spec_multi_path_count(merged) as usize,
        max_paths: spec_max_paths(merged) as usize,
        total_paths: spec_total_paths(merged) as usize,
        parse_error_count,
    }
}

proof fn lemma_counts_bounded(s: Seq<RoomData>)
    ensures
        spec_multi_path_count(s) <= s.len(),
        spec_max_paths(s) <= spec_total_paths(s),
    decreases s.len(),
{
    if s.len() > 0 {
        lemma_counts_bounded(s.drop_last());
    }
}

proof fn lemma_total_prefix(s: Seq<RoomData>, k: int)
    requires
        0 <= k <= s.len(),
    ensures
        spec_total_paths(s.take(k)) <= spec_total_paths(s),
    decreases s.len(),
{
    if k < s.len() {
        assert(s.drop_last().take(k) =~= s.take(k));
        lemma_total_prefix(s.drop_last(), k);
    } else {
        assert(s.take(k) =~= s);
    }
}

impl MergeStatistics {
    /// Statistics of `merged`, which came from `raw_count` records of which
    /// `parse_error_count` had no integer room id.
    pub fn calculate(raw_count: usize, merged: &[RoomData], parse_error_count: usize) -> (r:
        MergeStatistics)
        requires
            spec_total_paths(merged@) <= usize::MAX,
        ensures
            r == spec_merge_statistics(raw_count, merged@, parse_error_count),
    {
        let mut multi: usize = 0;
        let mut max_paths: usize = 0;
        let mut total: usize = 0;
        let mut i: usize = 0;
        proof {
            lemma_counts_bounded(merged@);
        }
        while i < merged.len()
            invariant
                i <= merged@.len(),
                spec_total_paths(merged@) <= usize::MAX,
                multi == spec_multi_path_count(merged@.take(i as int)),
                max_paths == spec_max_paths(merged@.take(i as int)),
                total == spec_total_paths(merged@.take(i as int)),
            decreases merged.len() - i,
        {
            proof {
                assert(merged@.take(i as int + 1).drop_last() =~= merged@.take(i as int));
                lemma_counts_bounded(merged@.take(i as int + 1));
                lemma_total_prefix(merged@, i as int + 1);
            }
            let c = merged[i].path_count;
            if c > 1 {
                multi = multi + 1;
            }
            if c > max_paths {
                max_paths = c;
            }
            total = total + c;
            i = i + 1;
        }
        proof {
            assert(merged@.take(merged@.len() as int) =~= merged@);
        }
        MergeStatistics {
            raw_count,
            unique_roomid_count: merged.len(),
            multi_path_count: multi,
            max_paths,
            total_paths: total,
            parse_error_count,
        }
    }
}


/// The room id of a record, when its text is an integer.
pub open spec fn parsed_roomid(r: RoomInfo) -> Option<i64> {
    spec_parse_i64(r.roomid@)
}

/// The room ids that occur in `raw`.
pub open spec fn ids_of(raw: Seq<RoomInfo>) -> Set<i64> {
    Set::new(|id: i64| exists|j: int| 0 <= j < raw.len() && parsed_roomid(raw[j]) == Some(id))
}

/// The paths under which room `id` occurs in `raw`.
pub open spec fn paths_of(raw: Seq<RoomInfo>, id: i64) -> Set<Seq<char>> {
    Set::new(
        |p: Seq<char>|
            exists|j: int|
                0 <= j < raw.len() && parsed_roomid(raw[j]) == Some(id) && raw[j].roompath@ == p,
    )
}

/// Number of records in `raw` whose room id is not an integer.
pub open spec fn parse_error_total(raw: Seq<RoomInfo>) -> nat
    decreases raw.len(),
{
    if raw.len() == 0 {
        0
    } else {
        parse_error_total(raw.drop_last()) + (if parsed_roomid(raw.last()) is None {
            1nat
        } else {
            0nat
        })
    }
}

/// `merged` is `raw` grouped by room id: one room per id that occurs, in
/// ascending id order, each with all the paths of that id.
pub open spec fn is_merge_of(raw: Seq<RoomInfo>, merged: Seq<RoomData>) -> bool {
    &&& forall|i: int, j: int|
        0 <= i < j < merged.len() ==> (#[trigger] merged[i]).roomid < (#[trigger] merged[j]).roomid
    &&& forall|i: int|
        0 <= i < merged.len() ==> #[trigger] is_room_data_of(
            merged[i],
            merged[i].roomid,
            paths_of(raw, merged[i].roomid),
        )
    &&& forall|i: int| 0 <= i < merged.len() ==> ids_of(raw).contains(#[trigger] merged[i].roomid)
    &&& forall|id: i64|
        #[trigger] ids_of(raw).contains(id) ==> exists|i: int|
            0 <= i < merged.len() && merged[i].roomid == id
}

pub open spec fn group_total(g: Seq<(i64, Vec<String>)>) -> nat
    decreases g.len(),
{
    if g.len() == 0 {
        0
    } else {
        group_total(g.drop_last()) + g.last().1@.len()
    }
}

proof fn lemma_group_total_update(g: Seq<(i64, Vec<String>)>, k: int, x: (i64, Vec<String>))
    requires
        0 <= k < g.len(),
    ensures
        group_total(g.update(k, x)) + g[k].1@.len() == group_total(g) + x.1@.len(),
    decreases g.len(),
{
    if k < g.len() - 1 {
        assert(g.update(k, x).drop_last() =~= g.drop_last().update(k, x));
        lemma_group_total_update(g.drop_last(), k, x);
    } else {
        assert(g.update(k, x).drop_last() =~= g.drop_last());
    }
}

proof fn lemma_group_total_insert(g: Seq<(i64, Vec<String>)>, k: int, x: (i64, Vec<String>))
    requires
        0 <= k <= g.len(),
    ensures
        group_total(g.insert(k, x)) == group_total(g) + x.1@.len(),
    decreases g.len(),
{
    if k < g.len() {
        assert(g.insert(k, x).drop_last() =~= g.drop_last().insert(k, x));
        lemma_group_total_insert(g.drop_last(), k, x);
    } else {
        assert(g.insert(k, x).drop_last() =~= g);
    }
}

proof fn lemma_group_total_prefix(g: Seq<(i64, Vec<String>)>, k: int)
    requires
        0 <= k <= g.len(),
    ensures
        group_total(g.take(k)) <= group_total(g),
    decreases g.len(),
{
    if k < g.len() {
        assert(g.drop_last().take(k) =~= g.take(k));
        lemma_group_total_prefix(g.drop_last(), k);
    } else {
        assert(g.take(k) =~= g);
    }
}

proof fn lemma_step_sets(raw: Seq<RoomInfo>, j: int)
    requires
        0 <= j < raw.len(),
    ensures
        forall|id: i64|
            #[trigger] paths_of(raw.take(j + 1), id) == if parsed_roomid(raw[j]) == Some(id) {
                paths_of(raw.take(j), id).insert(raw[j].roompath@)
            } else {
                paths_of(raw.take(j), id)
            },
        ids_of(raw.take(j + 1)) == if parsed_roomid(raw[j]) is Some {
            ids_of(raw.take(j)).insert(parsed_roomid(raw[j])->0)
        } else {
            ids_of(raw.take(j))
        },
        parse_error_total(raw.take(j + 1)) == parse_error_total(raw.take(j)) + (if parsed_roomid(
            raw[j],
        ) is None {
            1nat
        } else {
            0nat
        }),
{
    let a = raw.take(j);
    let b = raw.take(j + 1);
    assert(b.drop_last() =~= a);
    assert forall|id: i64|
        #[trigger] paths_of(b, id) == if parsed_roomid(raw[j]) == Some(id) {
            paths_of(a, id).insert(raw[j].roompath@)
        } else {
            paths_of(a, id)
        } by {
        let rhs = if parsed_roomid(raw[j]) == Some(id) {
            paths_of(a, id).insert(raw[j].roompath@)
        } else {
            paths_of(a, id)
        };
        assert forall|p: Seq<char>| paths_of(b, id).contains(p) <==> rhs.contains(p) by {
            if paths_of(b, id).contains(p) {
                let w = choose|w: int|
                    0 <= w < b.len() && parsed_roomid(b[w]) == Some(id) && b[w].roompath@ == p;
                if w < j {
                    assert(a[w] == b[w]);
                }
            }
            if paths_of(a, id).contains(p) {
                let w = choose|w: int|
                    0 <= w < a.len() && parsed_roomid(a[w]) == Some(id) && a[w].roompath@ == p;
                assert(b[w] == a[w]);
            }
            if parsed_roomid(raw[j]) == Some(id) && p == raw[j].roompath@ {
                assert(b[j] == raw[j]);
            }
        }
        assert(paths_of(b, id) =~= rhs);
    }
    let rhs = if parsed_roomid(raw[j]) is Some {
        ids_of(a).insert(parsed_roomid(raw[j])->0)
    } else {
        ids_of(a)
    };
    assert forall|id: i64| ids_of(b).contains(id) <==> rhs.contains(id) by {
        if ids_of(b).contains(id) {
            let w = choose|w: int| 0 <= w < b.len() && parsed_roomid(b[w]) == Some(id);
            if w < j {
                assert(a[w] == b[w]);
            }
        }
        if ids_of(a).contains(id) {
            let w = choose|w: int| 0 <= w < a.len() && parsed_roomid(a[w]) == Some(id);
            assert(b[w] == a[w]);
        }
        if parsed_roomid(raw[j]) == Some(id) {
            assert(b[j] == raw[j]);
        }
    }
    assert(ids_of(b) =~= rhs);
}

/// Groups the crawled records by room id (the 1:N merge): records whose room
/// id is not an integer are counted and skipped, each other room id becomes
/// one `RoomData` with all its paths, and the rooms come in ascending id order.
pub fn group_by_roomid_from_info(raw: Vec<RoomInfo>) -> (r: Result<(Vec<RoomData>, MergeStatistics), ()>)
    ensures
        r is Ok,
        r matches Ok((merged, stats)) ==> {
            &&& is_merge_of(raw@, merged@)
            &&& stats == spec_merge_statistics(
                raw@.len() as usize,
                merged@,
                parse_error_total(raw@) as usize,
            )
        },
{
    let raw_count = raw.len();
    let mut groups: Vec<(i64, Vec<String>)> = Vec::new();
    let mut errors: usize = 0;
    let mut j: usize = 0;
    while j < raw.len()
        invariant
            j <= raw@.len(),
            raw_count == raw@.len(),
            forall|a: int, b: int|
                0 <= a < b < groups@.len() ==> (#[trigger] groups@[a]).0 < (#[trigger] groups@[b]).0,
            forall|a: int|
                0 <= a < groups@.len() ==> string_views((#[trigger] groups@[a]).1@).to_set()
                    == paths_of(raw@.take(j as int), groups@[a].0),
            forall|a: int| 0 <= a < groups@.len() ==> ids_of(raw@.take(j as int)).contains(#[trigger] groups@[a].0),
            forall|id: i64|
                #[trigger] ids_of(raw@.take(j as int)).contains(id) ==> exists|a: int|
                    0 <= a < groups@.len() && groups@[a].0 == id,
            group_total(groups@) + errors == j,
            errors == parse_error_total(raw@.take(j as int)),
        decreases raw@.len() - j,
    {
        proof {
            lemma_step_sets(raw@, j as int);
            assert(raw@.take(j as int + 1)[j as int] == raw@[j as int]);
        }
        let parsed = parse_i64(raw[j].roomid.as_str());
        match parsed {
            None => {
                errors = errors + 1;
            },
            Some(id) => {
                let path = raw[j].roompath.clone();
                let mut k: usize = 0;
                while k < groups.len() && groups[k].0 < id
                    invariant
                        k <= groups@.len(),
                        forall|a: int| 0 <= a < k ==> (#[trigger] groups@[a]).0 < id,
                    decreases groups@.len() - k,
                {
                    k = k + 1;
                }
                let ghost old_groups = groups@;
                if k < groups.len() && groups[k].0 == id {
                    let (gid, mut paths) = groups.remove(k);
                    let ghost old_paths = paths@;
                    paths.push(path);
                    proof {
                        assert(string_views(paths@) =~= string_views(old_paths).insert(
                            old_paths.len() as int,
                            raw@[j as int].roompath@,
                        ));
                        lemma_insert_to_set(
                            string_views(old_paths),
                            old_paths.len() as int,
                            raw@[j as int].roompath@,
                        );
                    }
                    groups.insert(k, (gid, paths));
                    proof {
                        assert(groups@ =~= old_groups.update(k as int, (gid, paths)));
                        lemma_group_total_update(old_groups, k as int, (gid, paths));
                        assert forall|a: int|
                            0 <= a < groups@.len() implies string_views(
                            (#[trigger] groups@[a]).1@,
                        ).to_set() == paths_of(raw@.take(j as int + 1), groups@[a].0) by {
                            if a != k {
                                assert(groups@[a] == old_groups[a]);
                            }
                        }
                        assert forall|id2: i64|
                            #[trigger] ids_of(raw@.take(j as int + 1)).contains(id2) implies exists|
                                a: int,
                            | 0 <= a < groups@.len() && groups@[a].0 == id2 by {
                            if id2 != id {
                                let a = choose|a: int|
                                    0 <= a < old_groups.len() && old_groups[a].0 == id2;
                                assert(groups@[a] == old_groups[a]);
                            } else {
                                assert(groups@[k as int].0 == id2);
                            }
                        }
                        assert forall|a: int| 0 <= a < groups@.len() implies ids_of(
                            raw@.take(j as int + 1),
                        ).contains(#[trigger] groups@[a].0) by {
                            if a != k {
                                assert(groups@[a] == old_groups[a]);
                            }
                        }
                    }
                } else {
                    let mut paths: Vec<String> = Vec::new();
                    paths.push(path);
                    proof {
                        assert(!ids_of(raw@.take(j as int)).contains(id)) by {
                            if ids_of(raw@.take(j as int)).contains(id) {
                                let a = choose|a: int|
                                    0 <= a < old_groups.len() && old_groups[a].0 == id;
                                if a >= k {
                                    if a > k {
                                        assert(old_groups[k as int].0 < old_groups[a].0);
                                    }
                                }
                            }
                        }
                        assert(paths_of(raw@.take(j as int), id) =~= Set::empty()) by {
                            if exists|p: Seq<char>| paths_of(raw@.take(j as int), id).contains(p) {
                                let p = choose|p: Seq<char>|
                                    paths_of(raw@.take(j as int), id).contains(p);
                                let w = choose|w: int|
                                    0 <= w < j && parsed_roomid(raw@.take(j as int)[w]) == Some(id)
                                        && raw@.take(j as int)[w].roompath@ == p;
                                assert(ids_of(raw@.take(j as int)).contains(id));
                            }
                        }
                        assert(string_views(paths@).to_set() =~= set![raw@[j as int].roompath@]) by {
                            assert(string_views(paths@)[0] == raw@[j as int].roompath@);
                            assert forall|p: Seq<char>|
                                string_views(paths@).to_set().contains(p) implies p
                                == raw@[j as int].roompath@ by {
                                let w = choose|w: int|
                                    0 <= w < string_views(paths@).len() && string_views(paths@)[w]
                                        == p;
                            }
                        }
                    }
                    groups.insert(k, (id, paths));
                    proof {
                        lemma_group_total_insert(old_groups, k as int, (id, paths));
                        assert forall|a: int, b: int|
                            0 <= a < b < groups@.len() implies (#[trigger] groups@[a]).0
                            < (#[trigger] groups@[b]).0 by {
                            if b < k {
                                assert(groups@[a] == old_groups[a] && groups@[b] == old_groups[b]);
                            } else if b == k {
                                assert(groups@[a] == old_groups[a]);
                            } else if a == k {
                                assert(groups@[b] == old_groups[b - 1]);
                                if b - 1 > k {
                                    assert(old_groups[k as int].0 < old_groups[b - 1].0);
                                }
                            } else if a < k {
                                assert(groups@[a] == old_groups[a]);
                                assert(groups@[b] == old_groups[b - 1]);
                                if b - 1 > k {
                                    assert(old_groups[k as int].0 < old_groups[b - 1].0);
                                }
                            } else {
                                assert(groups@[a] == old_groups[a - 1]);
                                assert(groups@[b] == old_groups[b - 1]);
                            }
                        }
                        assert forall|a: int|
                            0 <= a < groups@.len() implies string_views(
                            (#[trigger] groups@[a]).1@,
                        ).to_set() == paths_of(raw@.take(j as int + 1), groups@[a].0) by {
                            if a < k {
                                assert(groups@[a] == old_groups[a]);
                            } else if a > k {
                                assert(groups@[a] == old_groups[a - 1]);
                            }
                        }
                        assert forall|id2: i64|
                            #[trigger] ids_of(raw@.take(j as int + 1)).contains(id2) implies exists|
                                a: int,
                            | 0 <= a < groups@.len() && groups@[a].0 == id2 by {
                            if id2 != id {
                                let a = choose|a: int|
                                    0 <= a < old_groups.len() && old_groups[a].0 == id2;
                                if a < k {
                                    assert(groups@[a] == old_groups[a]);
                                } else {
                                    assert(groups@[a + 1] == old_groups[a]);
                                }
                            } else {
                                assert(groups@[k as int].0 == id2);
                            }
                        }
                        assert forall|a: int| 0 <= a < groups@.len() implies ids_of(
                            raw@.take(j as int + 1),
                        ).contains(#[trigger] groups@[a].0) by {
                            if a < k {
                                assert(groups@[a] == old_groups[a]);
                            } else if a > k {
                                assert(groups@[a] == old_groups[a - 1]);
                            }
                        }
                    }
                }
            },
        }
        j = j + 1;
    }
    proof {
        assert(raw@.take(raw@.len() as int) =~= raw@);
    }
    let ghost all_groups = groups@;
    let mut merged: Vec<RoomData> = Vec::new();
    let mut a: usize = 0;
    while a < groups.len()
        invariant
            a <= groups@.len(),
            groups@.len() == all_groups.len(),
            forall|b: int| a <= b < groups@.len() ==> #[trigger] groups@[b] == all_groups[b],
            merged@.len() == a,
            forall|b: int, c: int|
                0 <= b < c < all_groups.len() ==> (#[trigger] all_groups[b]).0 < (
                #[trigger] all_groups[c]).0,
            forall|b: int|
                0 <= b < all_groups.len() ==> string_views((#[trigger] all_groups[b]).1@).to_set()
                    == paths_of(raw@, all_groups[b].0),
            forall|b: int|
                0 <= b < a ==> #[trigger] is_room_data_of(
                    merged@[b],
                    all_groups[b].0,
                    paths_of(raw@, all_groups[b].0),
                ),
            forall|b: int| 0 <= b < all_groups.len() ==> ids_of(raw@).contains(#[trigger] all_groups[b].0),
            spec_total_paths(merged@) <= group_total(all_groups.take(a as int)),
            errors == parse_error_total(raw@),
            raw_count == raw@.len(),
            group_total(all_groups) + errors == raw@.len(),
        decreases all_groups.len() - a,
    {
        let mut paths: Vec<String> = Vec::new();
        std::mem::swap(&mut paths, &mut groups[a].1);
        let room = RoomData::new(groups[a].0, paths);
        let ghost old_merged = merged@;
        merged.push(room);
        proof {
            assert(merged@.drop_last() =~= old_merged);
            assert(all_groups.take(a as int + 1).drop_last() =~= all_groups.take(a as int));
            lemma_group_total_prefix(all_groups, a as int + 1);
        }
        a = a + 1;
    }
    proof {
        assert(all_groups.take(all_groups.len() as int) =~= all_groups);
        assert forall|id: i64| #[trigger] ids_of(raw@).contains(id) implies exists|i: int|
            0 <= i < merged@.len() && merged@[i].roomid == id by {
            let b = choose|b: int| 0 <= b < all_groups.len() && all_groups[b].0 == id;
            assert(is_room_data_of(merged@[b], all_groups[b].0, paths_of(raw@, all_groups[b].0)));
            assert(merged@[b].roomid == id);
        }
        assert forall|i: int| 0 <= i < merged@.len() implies #[trigger] is_room_data_of(
            merged@[i],
            merged@[i].roomid,
            paths_of(raw@, merged@[i].roomid),
        ) && ids_of(raw@).contains(merged@[i].roomid) by {
            assert(is_room_data_of(merged@[i], all_groups[i].0, paths_of(raw@, all_groups[i].0)));
        }
        assert forall|i: int| 0 <= i < merged@.len() implies ids_of(raw@).contains(
            #[trigger] merged@[i].roomid,
        ) by {
            assert(is_room_data_of(merged@[i], all_groups[i].0, paths_of(raw@, all_groups[i].0)));
            assert(ids_of(raw@).contains(all_groups[i].0));
        }
        assert forall|i: int, k: int| 0 <= i < k < merged@.len() implies (
        #[trigger] merged@[i]).roomid < (#[trigger] merged@[k]).roomid by {
            assert(is_room_data_of(merged@[i], all_groups[i].0, paths_of(raw@, all_groups[i].0)));
            assert(is_room_data_of(merged@[k], all_groups[k].0, paths_of(raw@, all_groups[k].0)));
            assert(all_groups[i].0 < all_groups[k].0);
        }
    }
    let stats = MergeStatistics::calculate(raw_count, merged.as_slice(), errors);
    Ok((merged, stats))
}

} // verus!
