//! The electricity fetch and insert services: the decisions of one fetch
//! run, the schedule of the periodic jobs, the batch configuration and
//! statistics of the queue consumer, and the reduction of a batch to the
//! latest reading of each room.

use vstd::prelude::*;
use crate::text::{concat_str, u64_to_decimal, nat_decimal};

verus! {

/// What one run of the fetch task reports.
#[derive(Debug)]
pub struct FetchStatistics {
    /// Rooms whose fee was fetched.
    pub success_count: usize,
    /// Rooms whose fetch failed.
    pub failure_count: usize,
    /// Rooms updated in the database.
    pub updated_count: usize,
    /// How long the run took, in milliseconds.
    pub duration_ms: u128,
}

impl FetchStatistics {
    /// Statistics made of the four counts as given.
    pub fn new(success_count: usize, failure_count: usize, updated_count: usize, duration_ms: u128) -> (r:
        FetchStatistics)
        ensures
            r.success_count == success_count,
            r.failure_count == failure_count,
            r.updated_count == updated_count,
            r.duration_ms == duration_ms,
    {
        FetchStatistics { success_count, failure_count, updated_count, duration_ms }
    }
}

/// What the fetch task does once it knows how many rooms it asked for and
/// how many answered.
#[derive(Debug)]
pub enum FetchStep {
    /// The run ends here with these statistics; nothing is written.
    Finish(FetchStatistics),
    /// The fetched fees are written to the cache and the database; the
    /// run then reports these two counts and the number of updated rooms.
    Store { success_count: usize, failure_count: usize },
}

/// The step after fetching: with no room to fetch the run ends with all
/// counts zero; when no room answered it ends counting every room as
/// failed; otherwise the fees are stored, and the rooms that did not
/// answer count as failures.
pub fn fetch_step(total_rooms: usize, fetched: usize, elapsed_ms: u128) -> (r: FetchStep)
    requires
        fetched <= total_rooms,
    ensures
        total_rooms == 0 ==> r == FetchStep::Finish(
            FetchStatistics { success_count: 0, failure_count: 0, updated_count: 0, duration_ms: elapsed_ms },
        ),
        total_rooms > 0 && fetched == 0 ==> r == FetchStep::Finish(
            FetchStatistics {
                success_count: 0,
                failure_count: total_rooms,
                updated_count: 0,
                duration_ms: elapsed_ms,
            },
        ),
        fetched > 0 ==> r == (FetchStep::Store {
            success_count: fetched,
            failure_count: (total_rooms - fetched) as usize,
        }),
{
    if total_rooms == 0 {
        FetchStep::Finish(FetchStatistics::new(0, 0, 0, elapsed_ms))
    } else if fetched == 0 {
        FetchStep::Finish(FetchStatistics::new(0, total_rooms, 0, elapsed_ms))
    } else {
        FetchStep::Store { success_count: fetched, failure_count: total_rooms - fetched }
    }
}

/// How many days of fee history the history task keeps.
pub const HISTORY_RETENTION_DAYS: u32 = 8;

/// The cron expression of the fetch job: second 0 of every `minutes`-th
/// minute.
pub open spec fn spec_fetch_cron(minutes: nat) -> Seq<char> {
    "0 */"@ + nat_decimal(minutes) + " * * * *"@
}

/// The cron expression of the history job: second 0 of minute 0 of every
/// `hours`-th hour.
pub open spec fn spec_history_cron(hours: nat) -> Seq<char> {
    "0 0 */"@ + nat_decimal(hours) + " * * *"@
}

/// The schedule of the fetch job, run every `minutes` minutes.
pub fn fetch_cron_expression(minutes: u64) -> (r: String)
    ensures
        r@ == spec_fetch_cron(minutes as nat),
{
    let n = u64_to_decimal(minutes);
    let head = concat_str("0 */", n.as_str());
    let r = concat_str(head.as_str(), " * * * *");
    proof {
        reveal_strlit("0 */");
        reveal_strlit(" * * * *");
    }
    r
}

/// The schedule of the history job, run every `hours` hours.
pub fn history_cron_expression(hours: u64) -> (r: String)
    ensures
        r@ == spec_history_cron(hours as nat),
{
    let n = u64_to_decimal(hours);
    let head = concat_str("0 0 */", n.as_str());
    let r = concat_str(head.as_str(), " * * *");
    proof {
        reveal_strlit("0 0 */");
        reveal_strlit(" * * *");
    }
    r
}

/// How the queue consumer batches its work.
#[derive(Debug)]
pub struct BatchConfig {
    /// The most records taken in one batch.
    pub batch_size: usize,
    /// The pause after each batch, in milliseconds.
    pub batch_wait_ms: u64,
    /// The pause when the queue is empty, in milliseconds.
    pub empty_queue_wait_ms: u64,
}

impl Default for BatchConfig {
    /// Batches of 100, a pause of 50 ms after each, one second when the
    /// queue is empty.
    fn default() -> (r: Self)
        ensures
            r.batch_size == 100,
            r.batch_wait_ms == 50,
            r.empty_queue_wait_ms == 1000,
    {
        BatchConfig { batch_size: 100, batch_wait_ms: 50, empty_queue_wait_ms: 1000 }
    }
}

/// What the queue consumer has done since it started.
#[derive(Debug)]
pub struct BatchStats {
    /// Batches processed.
    pub batch_count: u64,
    /// Records taken from the queue in processed batches.
    pub total_records: u64,
    /// Rooms the database reported updated.
    pub updated_records: u64,
    /// Batches whose update failed.
    pub failed_batches: u64,
}

impl BatchStats {
    /// All counts zero.
    pub fn new() -> (r: BatchStats)
        ensures
            r == (BatchStats { batch_count: 0, total_records: 0, updated_records: 0, failed_batches: 0 }),
    {
        BatchStats { batch_count: 0, total_records: 0, updated_records: 0, failed_batches: 0 }
    }

    /// Counts a batch of `batch_size` records of which `updated` rooms were
    /// updated.
    pub fn record_batch(&mut self, batch_size: u64, updated: u64)
        requires
            old(self).batch_count < u64::MAX,
            old(self).total_records + batch_size <= u64::MAX,
            old(self).updated_records + updated <= u64::MAX,
        ensures
            final(self).batch_count == old(self).batch_count + 1,
            final(self).total_records == old(self).total_records + batch_size,
            final(self).updated_records == old(self).updated_records + updated,
            final(self).failed_batches == old(self).failed_batches,
    {
        self.batch_count = self.batch_count + 1;
        self.total_records = self.total_records + batch_size;
        self.updated_records = self.updated_records + updated;
    }

    /// Counts a batch whose update failed.
    pub fn record_failure(&mut self)
        requires
            old(self).failed_batches < u64::MAX,
        ensures
            final(self).failed_batches == old(self).failed_batches + 1,
            final(self).batch_count == old(self).batch_count,
            final(self).total_records == old(self).total_records,
            final(self).updated_records == old(self).updated_records,
    {
        self.failed_batches = self.failed_batches + 1;
    }
}

/// `i` is the last position of `rooms` that holds `roomid`.
pub open spec fn is_last_position(rooms: Seq<i32>, roomid: i32, i: int) -> bool {
    &&& 0 <= i < rooms.len()
    &&& rooms[i] == roomid
    &&& forall|j: int| i < j < rooms.len() ==> rooms[j] != roomid
}

/// Some entry of `r` is for `roomid`.
pub open spec fn room_listed(r: Seq<(i32, usize)>, roomid: i32) -> bool {
    exists|p: int| 0 <= p < r.len() && #[trigger] r[p].0 == roomid
}

/// `r` names each room of `rooms` once, with the position of its last
/// reading.
pub open spec fn is_latest_per_room(rooms: Seq<i32>, r: Seq<(i32, usize)>) -> bool {
    &&& forall|p: int| 0 <= p < r.len() ==> #[trigger] is_last_position(rooms, r[p].0, r[p].1 as int)
    &&& forall|p: int, q: int| 0 <= p < q < r.len() ==> r[p].0 != r[q].0
    &&& forall|i: int| 0 <= i < rooms.len() ==> #[trigger] room_listed(r, rooms[i])
}

/// Reduces a batch to one reading per room: for each room of `rooms`, the
/// position of its latest reading, so that a later reading of a room
/// replaces an earlier one. The batch's readings stand at the same
/// positions as `rooms`.
pub fn latest_per_room(rooms: &Vec<i32>) -> (r: Vec<(i32, usize)>)
    ensures
        is_latest_per_room(rooms@, r@),
        r.len() <= rooms.len(),
{
    let mut r: Vec<(i32, usize)> = Vec::new();
    let mut i: usize = 0;
    while i < rooms.len()
        invariant
            i <= rooms.len(),
            r.len() <= i,
            forall|p: int| 0 <= p < r.len() ==> #[trigger] is_last_position(rooms@.take(i as int), r@[p].0, r@[p].1 as int),
            forall|p: int, q: int| 0 <= p < q < r.len() ==> r@[p].0 != r@[q].0,
            forall|k: int| 0 <= k < i ==> #[trigger] room_listed(r@, rooms@[k]),
        decreases rooms.len() - i,
    {
        let room = rooms[i];
        let mut p: usize = 0;
        while p < r.len() && r[p].0 != room
            invariant
                p <= r.len(),
                forall|q: int| 0 <= q < p ==> r@[q].0 != room,
            decreases r.len() - p,
        {
            p = p + 1;
        }
        let found = p < r.len();
        let ghost old_r = r@;
        let ghost prefix = rooms@.take(i as int);
        let ghost next = rooms@.take(i + 1);
        assert(next == prefix.push(room));
        if found {
            r.set(p, (room, i));
            assert forall|q: int| 0 <= q < r.len() implies #[trigger] r@[q].0 == old_r[q].0 by {}
            assert forall|q: int| 0 <= q < r.len() implies #[trigger] is_last_position(next, r@[q].0, r@[q].1 as int) by {
                if q != p {
                    assert(is_last_position(prefix, old_r[q].0, old_r[q].1 as int));
                    assert(old_r[q].0 != room);
                }
            }
            assert forall|k: int| 0 <= k < i + 1 implies #[trigger] room_listed(r@, rooms@[k]) by {
                if k < i {
                    assert(room_listed(old_r, rooms@[k]));
                    let q0 = choose|q: int| 0 <= q < old_r.len() && #[trigger] old_r[q].0 == rooms@[k];
                    assert(r@[q0].0 == rooms@[k]);
                } else {
                    assert(r@[p as int].0 == rooms@[k]);
                }
            }
        } else {
            r.push((room, i));
            assert forall|q: int| 0 <= q < r.len() implies #[trigger] is_last_position(next, r@[q].0, r@[q].1 as int) by {
                if q < old_r.len() {
                    assert(is_last_position(prefix, old_r[q].0, old_r[q].1 as int));
                    assert(old_r[q].0 != room);
                }
            }
            assert forall|k: int| 0 <= k < i + 1 implies #[trigger] room_listed(r@, rooms@[k]) by {
                if k < i {
                    assert(room_listed(old_r, rooms@[k]));
                    let q0 = choose|q: int| 0 <= q < old_r.len() && #[trigger] old_r[q].0 == rooms@[k];
                    assert(r@[q0].0 == rooms@[k]);
                } else {
                    assert(r@[old_r.len() as int].0 == rooms@[k]);
                }
            }
        }
        i = i + 1;
    }
    assert(rooms@.take(rooms.len() as int) == rooms@);
    r
}

/// The answer to a manual fetch request.
#[derive(Debug)]
pub struct TriggerFetchResponse {
    pub message: String,
    pub success_count: usize,
    pub failure_count: usize,
    pub updated_count: usize,
    pub duration_ms: u128,
    /// History rows written, when the history task ran too.
    pub history_inserted: Option<usize>,
    /// History rows deleted, when the history task ran too.
    pub history_deleted: Option<usize>,
}

/// The answer after a manual fetch: status 200, `电费获取完成`, the run's
/// statistics, and the history task's counts when it ran.
pub fn fetch_done_reply(stats: &FetchStatistics, history: Option<(usize, usize)>) -> (r: (u16, TriggerFetchResponse))
    ensures
        r.0 == 200,
        r.1.message@ == "电费获取完成"@,
        r.1.success_count == stats.success_count,
        r.1.failure_count == stats.failure_count,
        r.1.updated_count == stats.updated_count,
        r.1.duration_ms == stats.duration_ms,
        r.1.history_inserted == (match history {
            Some(h) => Some(h.0),
            None => None::<usize>,
        }),
        r.1.history_deleted == (match history {
            Some(h) => Some(h.1),
            None => None::<usize>,
        }),
{
    let (history_inserted, history_deleted) = match history {
        Some((inserted, deleted)) => (Some(inserted), Some(deleted)),
        None => (None, None),
    };
    (
        200,
        TriggerFetchResponse {
            message: "电费获取完成".to_owned(),
            success_count: stats.success_count,
            failure_count: stats.failure_count,
            updated_count: stats.updated_count,
            duration_ms: stats.duration_ms,
            history_inserted,
            history_deleted,
        },
    )
}

/// The answer when the fetch service is not running: status 503,
/// `电费获取服务未启用`, all counts zero.
pub fn fetch_unavailable_reply() -> (r: (u16, TriggerFetchResponse))
    ensures
        r.0 == 503,
        r.1.message@ == "电费获取服务未启用"@,
        r.1.success_count == 0,
        r.1.failure_count == 0,
        r.1.updated_count == 0,
        r.1.duration_ms == 0,
        r.1.history_inserted is None,
        r.1.history_deleted is None,
{
    (
        503,
        TriggerFetchResponse {
            message: "电费获取服务未启用".to_owned(),
            success_count: 0,
            failure_count: 0,
            updated_count: 0,
            duration_ms: 0,
            history_inserted: None,
            history_deleted: None,
        },
    )
}

/// A manual fetch request.
#[derive(Debug)]
pub struct TriggerFetchRequest {
    /// Run the history task too; `false` when the request names none.
    pub with_history: bool,
}

} // verus!
