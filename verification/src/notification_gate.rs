//! Per user and room gating of low-balance notifications with a debounce
//! period: a user is told about a room once; after the room's balance has
//! recovered and stayed recovered for the debounce period, the room may be
//! reported again.
//!
//! Times are milliseconds since the Unix epoch; the caller reads the clock
//! and hands the time in.

use vstd::prelude::*;
use vstd::seq_lib::lemma_seq_contains_after_push;

verus! {

/// Default debounce period: one hour.
pub const DEFAULT_DEBOUNCE_MS: u64 = 3_600_000;

/// When a user was last notified about a room.
#[derive(Clone, Copy, Debug)]
pub struct NotificationRecord {
    pub user_id: u128,
    pub roomid: i32,
    pub notified_at: i64,
}

/// When a room's balance was seen recovered.
#[derive(Clone, Copy, Debug)]
pub struct RecoveryRecord {
    pub roomid: i32,
    pub recovered_at: i64,
}

/// The notification history as a map from (user, room) to the time of the
/// last notification.
pub open spec fn history_map(s: Seq<NotificationRecord>) -> Map<(u128, i32), i64>
    decreases s.len(),
{
    if s.len() == 0 {
        Map::empty()
    } else {
        history_map(s.drop_last()).insert((s.last().user_id, s.last().roomid), s.last().notified_at)
    }
}

/// The recovery times as a map from room to time.
pub open spec fn recovery_map(s: Seq<RecoveryRecord>) -> Map<i32, i64>
    decreases s.len(),
{
    if s.len() == 0 {
        Map::empty()
    } else {
        recovery_map(s.drop_last()).insert(s.last().roomid, s.last().recovered_at)
    }
}

pub open spec fn history_unique(s: Seq<NotificationRecord>) -> bool {
    forall|i: int, j: int|
        0 <= i < j < s.len() ==> ((#[trigger] s[i]).user_id, s[i].roomid) != (
        (#[trigger] s[j]).user_id,
        s[j].roomid,
    )
}

pub open spec fn recovery_unique(s: Seq<RecoveryRecord>) -> bool {
    forall|i: int, j: int| 0 <= i < j < s.len() ==> (#[trigger] s[i]).roomid != (#[trigger] s[j]).roomid
}

proof fn lemma_history_map(s: Seq<NotificationRecord>)
    requires
        history_unique(s),
    ensures
        forall|k: (u128, i32)|
            #[trigger] history_map(s).contains_key(k) <==> exists|i: int|
                0 <= i < s.len() && (s[i].user_id, s[i].roomid) == k,
        forall|i: int|
            0 <= i < s.len() ==> #[trigger] history_map(s)[(s[i].user_id, s[i].roomid)]
                == s[i].notified_at,
        history_map(s).dom().finite(),
        history_map(s).len() == s.len(),
    decreases s.len(),
{
    if s.len() > 0 {
        let t = s.drop_last();
        assert(history_unique(t)) by {
            assert forall|i: int, j: int| 0 <= i < j < t.len() implies ((#[trigger] t[i]).user_id, t[i].roomid)
                != ((#[trigger] t[j]).user_id, t[j].roomid) by {
                assert(t[i] == s[i] && t[j] == s[j]);
            }
        }
        lemma_history_map(t);
        let k = (s.last().user_id, s.last().roomid);
        assert(!history_map(t).contains_key(k)) by {
            if history_map(t).contains_key(k) {
                let i = choose|i: int| 0 <= i < t.len() && (t[i].user_id, t[i].roomid) == k;
                assert(s[i] == t[i]);
            }
        }
        assert forall|q: (u128, i32)|
            #[trigger] history_map(s).contains_key(q) <==> exists|i: int|
                0 <= i < s.len() && (s[i].user_id, s[i].roomid) == q by {
            if history_map(t).contains_key(q) {
                let i = choose|i: int| 0 <= i < t.len() && (t[i].user_id, t[i].roomid) == q;
                assert(s[i] == t[i]);
            }
            if exists|i: int| 0 <= i < s.len() && (s[i].user_id, s[i].roomid) == q {
                let i = choose|i: int| 0 <= i < s.len() && (s[i].user_id, s[i].roomid) == q;
                if i < s.len() - 1 {
                    assert(t[i] == s[i]);
                }
            }
        }
        assert forall|i: int| 0 <= i < s.len() implies #[trigger] history_map(s)[(
            s[i].user_id,
            s[i].roomid,
        )] == s[i].notified_at by {
            if i < s.len() - 1 {
                assert(t[i] == s[i]);
            }
        }
    }
}

proof fn lemma_recovery_map(s: Seq<RecoveryRecord>)
    requires
        recovery_unique(s),
    ensures
        forall|k: i32|
            #[trigger] recovery_map(s).contains_key(k) <==> exists|i: int|
                0 <= i < s.len() && s[i].roomid == k,
        forall|i: int|
            0 <= i < s.len() ==> #[trigger] recovery_map(s)[s[i].roomid] == s[i].recovered_at,
        recovery_map(s).dom().finite(),
        recovery_map(s).len() == s.len(),
    decreases s.len(),
{
    if s.len() > 0 {
        let t = s.drop_last();
        assert(recovery_unique(t)) by {
            assert forall|i: int, j: int| 0 <= i < j < t.len() implies (#[trigger] t[i]).roomid
                != (#[trigger] t[j]).roomid by {
                assert(t[i] == s[i] && t[j] == s[j]);
            }
        }
        lemma_recovery_map(t);
        let k = s.last().roomid;
        assert(!recovery_map(t).contains_key(k)) by {
            if recovery_map(t).contains_key(k) {
                let i = choose|i: int| 0 <= i < t.len() && t[i].roomid == k;
                assert(s[i] == t[i]);
            }
        }
        assert forall|q: i32|
            #[trigger] recovery_map(s).contains_key(q) <==> exists|i: int|
                0 <= i < s.len() && s[i].roomid == q by {
            if recovery_map(t).contains_key(q) {
                let i = choose|i: int| 0 <= i < t.len() && t[i].roomid == q;
                assert(s[i] == t[i]);
            }
            if exists|i: int| 0 <= i < s.len() && s[i].roomid == q {
                let i = choose|i: int| 0 <= i < s.len() && s[i].roomid == q;
                if i < s.len() - 1 {
                    assert(t[i] == s[i]);
                }
            }
        }
        assert forall|i: int| 0 <= i < s.len() implies #[trigger] recovery_map(s)[s[i].roomid]
            == s[i].recovered_at by {
            if i < s.len() - 1 {
                assert(t[i] == s[i]);
            }
        }
    }
}

proof fn lemma_history_push(s: Seq<NotificationRecord>, rec: NotificationRecord)
    requires
        history_unique(s),
        !history_map(s).contains_key((rec.user_id, rec.roomid)),
    ensures
        history_unique(s.push(rec)),
        history_map(s.push(rec)) == history_map(s).insert((rec.user_id, rec.roomid), rec.notified_at),
{
    lemma_history_map(s);
    let t = s.push(rec);
    assert(t.drop_last() =~= s);
    assert forall|a: int, b: int| 0 <= a < b < t.len() implies ((#[trigger] t[a]).user_id, t[a].roomid)
        != ((#[trigger] t[b]).user_id, t[b].roomid) by {
        assert(t[a] == s[a]);
        if b < s.len() {
            assert(t[b] == s[b]);
        } else {
            assert(history_map(s).contains_key((s[a].user_id, s[a].roomid)));
        }
    }
}

proof fn lemma_history_prefix(s: Seq<NotificationRecord>, i: int)
    requires
        history_unique(s),
        0 <= i < s.len(),
    ensures
        history_unique(s.take(i)),
        !history_map(s.take(i)).contains_key((s[i].user_id, s[i].roomid)),
        s.take(i + 1) == s.take(i).push(s[i]),
{
    let t = s.take(i);
    assert forall|a: int, b: int| 0 <= a < b < t.len() implies ((#[trigger] t[a]).user_id, t[a].roomid)
        != ((#[trigger] t[b]).user_id, t[b].roomid) by {
        assert(t[a] == s[a] && t[b] == s[b]);
    }
    lemma_history_map(t);
    if history_map(t).contains_key((s[i].user_id, s[i].roomid)) {
        let j = choose|j: int| 0 <= j < t.len() && (t[j].user_id, t[j].roomid) == (s[i].user_id, s[i].roomid);
        assert(t[j] == s[j]);
    }
    assert(s.take(i + 1) =~= t.push(s[i]));
}

proof fn lemma_recovery_push(s: Seq<RecoveryRecord>, rec: RecoveryRecord)
    requires
        recovery_unique(s),
        !recovery_map(s).contains_key(rec.roomid),
    ensures
        recovery_unique(s.push(rec)),
        recovery_map(s.push(rec)) == recovery_map(s).insert(rec.roomid, rec.recovered_at),
{
    lemma_recovery_map(s);
    let t = s.push(rec);
    assert(t.drop_last() =~= s);
    assert forall|a: int, b: int| 0 <= a < b < t.len() implies (#[trigger] t[a]).roomid != (#[trigger] t[b]).roomid by {
        assert(t[a] == s[a]);
        if b < s.len() {
            assert(t[b] == s[b]);
        } else {
            assert(recovery_map(s).contains_key(s[a].roomid));
        }
    }
}

proof fn lemma_recovery_prefix(s: Seq<RecoveryRecord>, i: int)
    requires
        recovery_unique(s),
        0 <= i < s.len(),
    ensures
        recovery_unique(s.take(i)),
        !recovery_map(s.take(i)).contains_key(s[i].roomid),
        s.take(i + 1) == s.take(i).push(s[i]),
{
    let t = s.take(i);
    assert forall|a: int, b: int| 0 <= a < b < t.len() implies (#[trigger] t[a]).roomid != (#[trigger] t[b]).roomid by {
        assert(t[a] == s[a] && t[b] == s[b]);
    }
    lemma_recovery_map(t);
    if recovery_map(t).contains_key(s[i].roomid) {
        let j = choose|j: int| 0 <= j < t.len() && t[j].roomid == s[i].roomid;
        assert(t[j] == s[j]);
    }
    assert(s.take(i + 1) =~= t.push(s[i]));
}

proof fn lemma_history_set(s: Seq<NotificationRecord>, i: int, rec: NotificationRecord)
    requires
        history_unique(s),
        0 <= i < s.len(),
        s[i].user_id == rec.user_id,
        s[i].roomid == rec.roomid,
    ensures
        history_unique(s.update(i, rec)),
        history_map(s.update(i, rec)) == history_map(s).insert((rec.user_id, rec.roomid), rec.notified_at),
{
    let t = s.update(i, rec);
    assert forall|a: int, b: int| 0 <= a < b < t.len() implies ((#[trigger] t[a]).user_id, t[a].roomid)
        != ((#[trigger] t[b]).user_id, t[b].roomid) by {
        assert(s[a].user_id == t[a].user_id && s[a].roomid == t[a].roomid);
        assert(s[b].user_id == t[b].user_id && s[b].roomid == t[b].roomid);
    }
    lemma_history_map(s);
    lemma_history_map(t);
    let m1 = history_map(t);
    let m2 = history_map(s).insert((rec.user_id, rec.roomid), rec.notified_at);
    assert forall|k: (u128, i32)| m1.contains_key(k) <==> m2.contains_key(k) by {
        if exists|j: int| 0 <= j < t.len() && (t[j].user_id, t[j].roomid) == k {
            let j = choose|j: int| 0 <= j < t.len() && (t[j].user_id, t[j].roomid) == k;
            assert((s[j].user_id, s[j].roomid) == k);
        }
        if exists|j: int| 0 <= j < s.len() && (s[j].user_id, s[j].roomid) == k {
            let j = choose|j: int| 0 <= j < s.len() && (s[j].user_id, s[j].roomid) == k;
            assert((t[j].user_id, t[j].roomid) == k);
        }
    }
    assert forall|k: (u128, i32)| m1.contains_key(k) implies m1[k] == m2[k] by {
        let j = choose|j: int| 0 <= j < t.len() && (t[j].user_id, t[j].roomid) == k;
        assert(m1[(t[j].user_id, t[j].roomid)] == t[j].notified_at);
        if j != i {
            assert(s[j] == t[j]);
            assert(history_map(s)[(s[j].user_id, s[j].roomid)] == s[j].notified_at);
        }
    }
    assert(m1 =~= m2);
}

proof fn lemma_recovery_set(s: Seq<RecoveryRecord>, i: int, rec: RecoveryRecord)
    requires
        recovery_unique(s),
        0 <= i < s.len(),
        s[i].roomid == rec.roomid,
    ensures
        recovery_unique(s.update(i, rec)),
        recovery_map(s.update(i, rec)) == recovery_map(s).insert(rec.roomid, rec.recovered_at),
{
    let t = s.update(i, rec);
    assert forall|a: int, b: int| 0 <= a < b < t.len() implies (#[trigger] t[a]).roomid != (#[trigger] t[b]).roomid by {
        assert(s[a].roomid == t[a].roomid);
        assert(s[b].roomid == t[b].roomid);
    }
    lemma_recovery_map(s);
    lemma_recovery_map(t);
    let m1 = recovery_map(t);
    let m2 = recovery_map(s).insert(rec.roomid, rec.recovered_at);
    assert forall|k: i32| m1.contains_key(k) <==> m2.contains_key(k) by {
        if exists|j: int| 0 <= j < t.len() && t[j].roomid == k {
            let j = choose|j: int| 0 <= j < t.len() && t[j].roomid == k;
            assert(s[j].roomid == k);
        }
        if exists|j: int| 0 <= j < s.len() && s[j].roomid == k {
            let j = choose|j: int| 0 <= j < s.len() && s[j].roomid == k;
            assert(t[j].roomid == k);
        }
    }
    assert forall|k: i32| m1.contains_key(k) implies m1[k] == m2[k] by {
        let j = choose|j: int| 0 <= j < t.len() && t[j].roomid == k;
        assert(m1[t[j].roomid] == t[j].recovered_at);
        if j != i {
            assert(s[j] == t[j]);
            assert(recovery_map(s)[s[j].roomid] == s[j].recovered_at);
        }
    }
    assert(m1 =~= m2);
}

/// The debounce period that takes effect: periods beyond the range of a
/// signed millisecond count fall back to one hour.
pub open spec fn effective_debounce(debounce_ms: u64) -> int {
    if debounce_ms <= i64::MAX {
        debounce_ms as int
    } else {
        DEFAULT_DEBOUNCE_MS as int
    }
}

/// The room has recovered and stayed recovered for the debounce period.
pub open spec fn spec_recovery_reset(recovery: Map<i32, i64>, debounce_ms: u64, roomid: i32, now: i64) -> bool {
    recovery.contains_key(roomid) && (now as int) - (recovery[roomid] as int) >= effective_debounce(
        debounce_ms,
    )
}

/// A notification about `roomid` may go to `user_id`: never sent before, or
/// the room has recovered for the debounce period since.
pub open spec fn spec_should_notify(
    history: Map<(u128, i32), i64>,
    recovery: Map<i32, i64>,
    debounce_ms: u64,
    user_id: u128,
    roomid: i32,
    now: i64,
) -> bool {
    !history.contains_key((user_id, roomid)) || spec_recovery_reset(recovery, debounce_ms, roomid, now)
}

/// Recovery times after `rooms` are seen recovered at `now`: a room that is
/// already recovering keeps its first time.
pub open spec fn spec_after_recovery(recovery: Map<i32, i64>, rooms: Seq<i32>, now: i64) -> Map<i32, i64> {
    Map::new(
        |r: i32| recovery.contains_key(r) || rooms.contains(r),
        |r: i32| if recovery.contains_key(r) {
            recovery[r]
        } else {
            now
        },
    )
}

/// The notification history once the rooms whose debounce period has passed
/// are cleared.
pub open spec fn spec_history_after_cleanup(
    history: Map<(u128, i32), i64>,
    recovery: Map<i32, i64>,
    debounce_ms: u64,
    now: i64,
) -> Map<(u128, i32), i64> {
    Map::new(
        |k: (u128, i32)| history.contains_key(k) && !spec_recovery_reset(recovery, debounce_ms, k.1, now),
        |k: (u128, i32)| history[k],
    )
}

/// The recovery times once the rooms whose debounce period has passed are
/// cleared.
pub open spec fn spec_recovery_after_cleanup(recovery: Map<i32, i64>, debounce_ms: u64, now: i64) -> Map<
    i32,
    i64,
> {
    Map::new(
        |r: i32| recovery.contains_key(r) && !spec_recovery_reset(recovery, debounce_ms, r, now),
        |r: i32| recovery[r],
    )
}

/// `history` with the stored records applied in order, a later record
/// replacing an earlier time for the same user and room.
pub open spec fn spec_load_history(history: Map<(u128, i32), i64>, records: Seq<NotificationRecord>) -> Map<
    (u128, i32),
    i64,
>
    decreases records.len(),
{
    if records.len() == 0 {
        history
    } else {
        spec_load_history(history, records.drop_last()).insert(
            (records.last().user_id, records.last().roomid),
            records.last().notified_at,
        )
    }
}

/// `recovery` with the stored records applied in order, a later record
/// replacing an earlier time for the same room.
pub open spec fn spec_load_recovery(recovery: Map<i32, i64>, records: Seq<RecoveryRecord>) -> Map<i32, i64>
    decreases records.len(),
{
    if records.len() == 0 {
        recovery
    } else {
        spec_load_recovery(recovery, records.drop_last()).insert(records.last().roomid, records.last().recovered_at)
    }
}

/// Notification state of users and rooms.
#[derive(Debug)]
pub struct NotificationGate {
    notification_history: Vec<NotificationRecord>,
    room_recovery_time: Vec<RecoveryRecord>,
    debounce_period_ms: u64,
}

impl NotificationGate {
    /// (user, room) to the time of the last notification.
    pub closed spec fn history(&self) -> Map<(u128, i32), i64> {
        history_map(self.notification_history@)
    }

    /// Room to the time its recovery was first seen.
    pub closed spec fn recovery(&self) -> Map<i32, i64> {
        recovery_map(self.room_recovery_time@)
    }

    /// The configured debounce period in milliseconds.
    pub closed spec fn debounce_ms(&self) -> u64 {
        self.debounce_period_ms
    }

    /// The internal lists hold each key once.
    pub closed spec fn wf(&self) -> bool {
        history_unique(self.notification_history@) && recovery_unique(self.room_recovery_time@)
    }

    /// A gate with no history; `debounce_period_ms` defaults to one hour.
    pub fn new(debounce_period_ms: Option<u64>) -> (r: NotificationGate)
        ensures
            r.wf(),
            r.history() == Map::<(u128, i32), i64>::empty(),
            r.recovery() == Map::<i32, i64>::empty(),
            r.debounce_ms() == match debounce_period_ms {
                Some(d) => d,
                None => DEFAULT_DEBOUNCE_MS,
            },
    {
        let d = match debounce_period_ms {
            Some(d) => d,
            None => DEFAULT_DEBOUNCE_MS,
        };
        NotificationGate {
            notification_history: Vec::new(),
            room_recovery_time: Vec::new(),
            debounce_period_ms: d,
        }
    }

    fn find_history(&self, user_id: u128, roomid: i32) -> (r: Option<usize>)
        requires
            self.wf(),
        ensures
            match r {
                Some(i) => i < self.notification_history@.len() && self.notification_history@[i as int].user_id
                    == user_id && self.notification_history@[i as int].roomid == roomid,
                None => !self.history().contains_key((user_id, roomid)),
            },
    {
        proof {
            lemma_history_map(self.notification_history@);
        }
        let mut i: usize = 0;
        while i < self.notification_history.len()
            invariant
                i <= self.notification_history@.len(),
                forall|j: int|
                    0 <= j < i ==> ((#[trigger] self.notification_history@[j]).user_id,
                    self.notification_history@[j].roomid) != (user_id, roomid),
            decreases self.notification_history@.len() - i,
        {
            let rec = self.notification_history[i];
            if rec.user_id == user_id && rec.roomid == roomid {
                return Some(i);
            }
            i = i + 1;
        }
        None
    }

    fn find_recovery(&self, roomid: i32) -> (r: Option<usize>)
        requires
            self.wf(),
        ensures
            match r {
                Some(i) => i < self.room_recovery_time@.len() && self.room_recovery_time@[i as int].roomid
                    == roomid,
                None => !self.recovery().contains_key(roomid),
            },
    {
        proof {
            lemma_recovery_map(self.room_recovery_time@);
        }
        let mut i: usize = 0;
        while i < self.room_recovery_time.len()
            invariant
                i <= self.room_recovery_time@.len(),
                forall|j: int| 0 <= j < i ==> (#[trigger] self.room_recovery_time@[j]).roomid != roomid,
            decreases self.room_recovery_time@.len() - i,
        {
            if self.room_recovery_time[i].roomid == roomid {
                return Some(i);
            }
            i = i + 1;
        }
        None
    }

    fn debounce_elapsed(&self, since: i64, now: i64) -> (r: bool)
        ensures
            r == ((now as int) - (since as int) >= effective_debounce(self.debounce_period_ms)),
    {
        let d: i128 = if self.debounce_period_ms <= 9223372036854775807u64 {
            self.debounce_period_ms as i128
        } else {
            DEFAULT_DEBOUNCE_MS as i128
        };
        (now as i128) - (since as i128) >= d
    }

    /// The room has recovered and the debounce period has passed since.
    pub fn check_recovery_reset(&self, roomid: i32, now: i64) -> (r: bool)
        requires
            self.wf(),
        ensures
            r == spec_recovery_reset(self.recovery(), self.debounce_ms(), roomid, now),
    {
        proof {
            lemma_recovery_map(self.room_recovery_time@);
        }
        match self.find_recovery(roomid) {
            Some(i) => self.debounce_elapsed(self.room_recovery_time[i].recovered_at, now),
            None => false,
        }
    }

    /// Whether `user_id` may be notified about `roomid` at `now`.
    pub fn should_notify(&self, user_id: u128, roomid: i32, now: i64) -> (r: bool)
        requires
            self.wf(),
        ensures
            r == spec_should_notify(
                self.history(),
                self.recovery(),
                self.debounce_ms(),
                user_id,
                roomid,
                now,
            ),
    {
        proof {
            lemma_history_map(self.notification_history@);
        }
        match self.find_history(user_id, roomid) {
            None => true,
            Some(_) => self.check_recovery_reset(roomid, now),
        }
    }

    /// Records that `user_id` was notified about `roomid` at `now`.
    pub fn mark_notified(&mut self, user_id: u128, roomid: i32, now: i64)
        requires
            old(self).wf(),
        ensures
            final(self).wf(),
            final(self).history() == old(self).history().insert((user_id, roomid), now),
            final(self).recovery() == old(self).recovery(),
            final(self).debounce_ms() == old(self).debounce_ms(),
    {
        proof {
            lemma_history_map(self.notification_history@);
        }
        let rec = NotificationRecord { user_id, roomid, notified_at: now };
        match self.find_history(user_id, roomid) {
            Some(i) => {
                proof {
                    lemma_history_set(self.notification_history@, i as int, rec);
                }
                self.notification_history.set(i, rec);
            },
            None => {
                proof {
                    lemma_history_push(self.notification_history@, rec);
                }
                self.notification_history.push(rec);
            },
        }
    }

    /// Records that the rooms in `recovering_rooms` were seen recovered at
    /// `now`. A room that already has a recovery time keeps its first one.
    /// Returns the rooms whose recovery time this call recorded, each once.
    pub fn update_recovery_state(&mut self, recovering_rooms: &[i32], now: i64) -> (newly: Vec<i32>)
        requires
            old(self).wf(),
        ensures
            final(self).wf(),
            final(self).recovery() == spec_after_recovery(old(self).recovery(), recovering_rooms@, now),
            final(self).history() == old(self).history(),
            final(self).debounce_ms() == old(self).debounce_ms(),
            newly@.no_duplicates(),
            forall|r: i32|
                newly@.contains(r) <==> (recovering_rooms@.contains(r) && !old(self).recovery().contains_key(r)),
    {
        let ghost old_rec = self.recovery();
        let ghost old_hist = self.history();
        let ghost d = self.debounce_ms();
        let mut newly: Vec<i32> = Vec::new();
        let mut i: usize = 0;
        proof {
            assert(spec_after_recovery(old_rec, recovering_rooms@.take(0), now) =~= old_rec);
        }
        while i < recovering_rooms.len()
            invariant
                self.wf(),
                i <= recovering_rooms.len(),
                self.recovery() == spec_after_recovery(old_rec, recovering_rooms@.take(i as int), now),
                self.history() == old_hist,
                self.debounce_ms() == d,
                newly@.no_duplicates(),
                forall|r: i32|
                    newly@.contains(r) <==> (recovering_rooms@.take(i as int).contains(r) && !old_rec.contains_key(r)),
            decreases recovering_rooms.len() - i,
        {
            let r = recovering_rooms[i];
            let ghost before = self.recovery();
            let ghost pre = recovering_rooms@.take(i as int);
            let ghost post = recovering_rooms@.take(i as int + 1);
            proof {
                assert(post =~= pre.push(r));
                assert forall|x: i32| post.contains(x) == (pre.contains(x) || x == r) by {
                    lemma_seq_contains_after_push(pre, r, x);
                }
            }
            match self.find_recovery(r) {
                Some(idx) => {
                    proof {
                        lemma_recovery_map(self.room_recovery_time@);
                        assert(self.room_recovery_time@[idx as int].roomid == r);
                        assert(before.contains_key(r));
                        assert forall|x: i32|
                            newly@.contains(x) <==> (post.contains(x) && !old_rec.contains_key(x)) by {
                            if x == r && !old_rec.contains_key(r) {
                                assert(pre.contains(r));
                            }
                        }
                        assert(spec_after_recovery(old_rec, post, now) =~= before);
                    }
                },
                None => {
                    let rec = RecoveryRecord { roomid: r, recovered_at: now };
                    proof {
                        lemma_recovery_push(self.room_recovery_time@, rec);
                    }
                    self.room_recovery_time.push(rec);
                    let ghost nb = newly@;
                    proof {
                        assert(!nb.contains(r));
                    }
                    newly.push(r);
                    proof {
                        assert(spec_after_recovery(old_rec, post, now) =~= before.insert(r, now));
                        assert(newly@ == nb.push(r));
                        assert forall|x: i32| newly@.contains(x) == (nb.contains(x) || x == r) by {
                            lemma_seq_contains_after_push(nb, r, x);
                        }
                        assert forall|x: i32|
                            newly@.contains(x) <==> (post.contains(x) && !old_rec.contains_key(x)) by {
                            if x == r {
                                assert(!before.contains_key(r));
                                assert(!old_rec.contains_key(r));
                                assert(post.contains(r));
                                assert(newly@.contains(r));
                            } else {
                                assert(nb.contains(x) <==> (pre.contains(x) && !old_rec.contains_key(x)));
                                assert(post.contains(x) == pre.contains(x));
                                assert(newly@.contains(x) == nb.contains(x));
                            }
                        }
                    }
                },
            }
            i = i + 1;
        }
        proof {
            assert(recovering_rooms@.take(recovering_rooms@.len() as int) =~= recovering_rooms@);
        }
        newly
    }

    /// Clears the state of every room whose debounce period has passed at
    /// `now`: its notification history and its recovery time. Returns the
    /// cleared rooms, each once, and the number of notification records
    /// removed.
    fn cleanup(&mut self, now: i64) -> (res: (Vec<i32>, usize))
        requires
            old(self).wf(),
        ensures
            final(self).wf(),
            final(self).history() == spec_history_after_cleanup(
                old(self).history(),
                old(self).recovery(),
                old(self).debounce_ms(),
                now,
            ),
            final(self).recovery() == spec_recovery_after_cleanup(old(self).recovery(), old(self).debounce_ms(), now),
            final(self).debounce_ms() == old(self).debounce_ms(),
            res.0@.no_duplicates(),
            forall|r: i32|
                res.0@.contains(r) <==> spec_recovery_reset(old(self).recovery(), old(self).debounce_ms(), r, now),
            res.1 == old(self).history().len() - final(self).history().len(),
    {
        let ghost old_h = self.notification_history@;
        let ghost old_r = self.room_recovery_time@;
        let ghost rec_map = self.recovery();
        let ghost d = self.debounce_period_ms;
        proof {
            lemma_recovery_map(old_r);
            lemma_history_map(old_h);
            assert(old_r.take(0) =~= Seq::<RecoveryRecord>::empty());
            assert(recovery_map(Seq::<RecoveryRecord>::empty()) =~= Map::<i32, i64>::empty());
        }
        let mut expired: Vec<i32> = Vec::new();
        let mut kept: Vec<RecoveryRecord> = Vec::new();
        let mut i: usize = 0;
        while i < self.room_recovery_time.len()
            invariant
                self.wf(),
                self.room_recovery_time@ == old_r,
                self.notification_history@ == old_h,
                self.debounce_period_ms == d,
                rec_map == recovery_map(old_r),
                forall|j: int| 0 <= j < old_r.len() ==> #[trigger] rec_map[old_r[j].roomid] == old_r[j].recovered_at,
                i <= old_r.len(),
                recovery_unique(kept@),
                recovery_map(kept@) == Map::new(
                    |r: i32| recovery_map(old_r.take(i as int)).contains_key(r) && !spec_recovery_reset(rec_map, d, r, now),
                    |r: i32| recovery_map(old_r.take(i as int))[r],
                ),
                expired@.no_duplicates(),
                forall|r: i32|
                    #[trigger] expired@.contains(r) <==> (recovery_map(old_r.take(i as int)).contains_key(r)
                        && spec_recovery_reset(rec_map, d, r, now)),
            decreases old_r.len() - i,
        {
            let rec = self.room_recovery_time[i];
            let ghost pre = recovery_map(old_r.take(i as int));
            let ghost kept_before = recovery_map(kept@);
            proof {
                lemma_recovery_prefix(old_r, i as int);
                lemma_recovery_push(old_r.take(i as int), rec);
                lemma_recovery_map(old_r);
                assert(rec_map.contains_key(old_r[i as int].roomid));
                assert(rec_map[old_r[i as int].roomid] == old_r[i as int].recovered_at);
            }
            let ghost post = recovery_map(old_r.take(i as int + 1));
            if self.debounce_elapsed(rec.recovered_at, now) {
                let ghost eb = expired@;
                proof {
                    assert(!eb.contains(rec.roomid));
                }
                expired.push(rec.roomid);
                proof {
                    assert(expired@ == eb.push(rec.roomid));
                    assert forall|x: i32| expired@.contains(x) == (eb.contains(x) || x == rec.roomid) by {
                        lemma_seq_contains_after_push(eb, rec.roomid, x);
                    }
                    assert forall|x: i32|
                        expired@.contains(x) <==> (post.contains_key(x) && spec_recovery_reset(rec_map, d, x, now)) by {
                        if x != rec.roomid {
                            assert(post.contains_key(x) == pre.contains_key(x));
                            assert(eb.contains(x) <==> (pre.contains_key(x) && spec_recovery_reset(rec_map, d, x, now)));
                            assert(expired@.contains(x) == eb.contains(x));
                        } else {
                            assert(expired@.contains(x));
                            assert(post.contains_key(x));
                            assert(spec_recovery_reset(rec_map, d, x, now));
                        }
                    }
                    assert(recovery_map(kept@) =~= Map::new(
                        |r: i32| post.contains_key(r) && !spec_recovery_reset(rec_map, d, r, now),
                        |r: i32| post[r],
                    ));
                }
            } else {
                proof {
                    assert(!kept_before.contains_key(rec.roomid));
                    lemma_recovery_push(kept@, rec);
                }
                kept.push(rec);
                proof {
                    assert forall|x: i32|
                        expired@.contains(x) <==> (post.contains_key(x) && spec_recovery_reset(rec_map, d, x, now)) by {
                        if x != rec.roomid {
                            assert(post.contains_key(x) == pre.contains_key(x));
                        } else {
                            assert(!pre.contains_key(x));
                        }
                    }
                    assert(recovery_map(kept@) =~= Map::new(
                        |r: i32| post.contains_key(r) && !spec_recovery_reset(rec_map, d, r, now),
                        |r: i32| post[r],
                    ));
                }
            }
            i = i + 1;
        }
        proof {
            assert(old_r.take(old_r.len() as int) =~= old_r);
            assert(old_h.take(0) =~= Seq::<NotificationRecord>::empty());
            assert(history_map(Seq::<NotificationRecord>::empty()) =~= Map::<(u128, i32), i64>::empty());
        }
        let mut remaining: Vec<NotificationRecord> = Vec::new();
        let mut removed: usize = 0;
        let mut j: usize = 0;
        while j < self.notification_history.len()
            invariant
                self.wf(),
                self.room_recovery_time@ == old_r,
                self.notification_history@ == old_h,
                self.debounce_period_ms == d,
                rec_map == recovery_map(old_r),
                j <= old_h.len(),
                history_unique(remaining@),
                history_map(remaining@) == Map::new(
                    |k: (u128, i32)| history_map(old_h.take(j as int)).contains_key(k) && !spec_recovery_reset(rec_map, d, k.1, now),
                    |k: (u128, i32)| history_map(old_h.take(j as int))[k],
                ),
                removed + remaining@.len() == j,
            decreases old_h.len() - j,
        {
            let rec = self.notification_history[j];
            let ghost kept_before = history_map(remaining@);
            proof {
                lemma_history_prefix(old_h, j as int);
                lemma_history_push(old_h.take(j as int), rec);
            }
            let ghost post = history_map(old_h.take(j as int + 1));
            if self.check_recovery_reset(rec.roomid, now) {
                removed = removed + 1;
                proof {
                    assert(history_map(remaining@) =~= Map::new(
                        |k: (u128, i32)| post.contains_key(k) && !spec_recovery_reset(rec_map, d, k.1, now),
                        |k: (u128, i32)| post[k],
                    ));
                }
            } else {
                proof {
                    assert(!kept_before.contains_key((rec.user_id, rec.roomid)));
                    lemma_history_push(remaining@, rec);
                }
                remaining.push(rec);
                proof {
                    assert(history_map(remaining@) =~= Map::new(
                        |k: (u128, i32)| post.contains_key(k) && !spec_recovery_reset(rec_map, d, k.1, now),
                        |k: (u128, i32)| post[k],
                    ));
                }
            }
            j = j + 1;
        }
        proof {
            assert(old_h.take(old_h.len() as int) =~= old_h);
            lemma_history_map(remaining@);
        }
        self.notification_history = remaining;
        self.room_recovery_time = kept;
        proof {
            assert(self.history() =~= spec_history_after_cleanup(history_map(old_h), rec_map, d, now));
            assert(self.recovery() =~= spec_recovery_after_cleanup(rec_map, d, now));
        }
        (expired, removed)
    }

    /// Clears the state of every room whose debounce period has passed at
    /// `now`, so that a new round of notifications may start for it. Returns
    /// the number of notification records removed.
    pub fn cleanup_recovered(&mut self, now: i64) -> (removed: usize)
        requires
            old(self).wf(),
        ensures
            final(self).wf(),
            final(self).history() == spec_history_after_cleanup(
                old(self).history(),
                old(self).recovery(),
                old(self).debounce_ms(),
                now,
            ),
            final(self).recovery() == spec_recovery_after_cleanup(old(self).recovery(), old(self).debounce_ms(), now),
            final(self).debounce_ms() == old(self).debounce_ms(),
            removed == old(self).history().len() - final(self).history().len(),
    {
        let (_, removed) = self.cleanup(now);
        removed
    }

    /// As `cleanup_recovered`, returning the cleared rooms, each once, so that
    /// the caller can clear their stored state too.
    pub fn cleanup_recovered_rooms(&mut self, now: i64) -> (rooms: Vec<i32>)
        requires
            old(self).wf(),
        ensures
            final(self).wf(),
            final(self).history() == spec_history_after_cleanup(
                old(self).history(),
                old(self).recovery(),
                old(self).debounce_ms(),
                now,
            ),
            final(self).recovery() == spec_recovery_after_cleanup(old(self).recovery(), old(self).debounce_ms(), now),
            final(self).debounce_ms() == old(self).debounce_ms(),
            rooms@.no_duplicates(),
            forall|r: i32|
                rooms@.contains(r) <==> spec_recovery_reset(old(self).recovery(), old(self).debounce_ms(), r, now),
    {
        let (rooms, _) = self.cleanup(now);
        rooms
    }

    /// The number of notification records and of rooms with a recovery time.
    pub fn stats(&self) -> (r: (usize, usize))
        requires
            self.wf(),
        ensures
            r.0 == self.history().len(),
            r.1 == self.recovery().len(),
    {
        proof {
            lemma_history_map(self.notification_history@);
            lemma_recovery_map(self.room_recovery_time@);
        }
        (self.notification_history.len(), self.room_recovery_time.len())
    }

    /// Sets the recovery time of `roomid` to `at`.
    fn put_recovery(&mut self, roomid: i32, at: i64)
        requires
            old(self).wf(),
        ensures
            final(self).wf(),
            final(self).recovery() == old(self).recovery().insert(roomid, at),
            final(self).history() == old(self).history(),
            final(self).debounce_ms() == old(self).debounce_ms(),
    {
        let rec = RecoveryRecord { roomid, recovered_at: at };
        match self.find_recovery(roomid) {
            Some(i) => {
                proof {
                    lemma_recovery_set(self.room_recovery_time@, i as int, rec);
                }
                self.room_recovery_time.set(i, rec);
            },
            None => {
                proof {
                    lemma_recovery_push(self.room_recovery_time@, rec);
                }
                self.room_recovery_time.push(rec);
            },
        }
    }

    /// Loads stored state: the notification records and then the recovery
    /// records are applied in order, each replacing the time held for its
    /// key.
    pub fn load_state(&mut self, notifications: &[NotificationRecord], recoveries: &[RecoveryRecord])
        requires
            old(self).wf(),
        ensures
            final(self).wf(),
            final(self).history() == spec_load_history(old(self).history(), notifications@),
            final(self).recovery() == spec_load_recovery(old(self).recovery(), recoveries@),
            final(self).debounce_ms() == old(self).debounce_ms(),
    {
        let ghost h0 = self.history();
        let ghost r0 = self.recovery();
        let ghost d = self.debounce_ms();
        let mut i: usize = 0;
        proof {
            assert(notifications@.take(0) =~= Seq::<NotificationRecord>::empty());
        }
        while i < notifications.len()
            invariant
                self.wf(),
                i <= notifications.len(),
                self.history() == spec_load_history(h0, notifications@.take(i as int)),
                self.recovery() == r0,
                self.debounce_ms() == d,
            decreases notifications.len() - i,
        {
            let rec = notifications[i];
            proof {
                assert(notifications@.take(i as int + 1).drop_last() =~= notifications@.take(i as int));
            }
            self.mark_notified(rec.user_id, rec.roomid, rec.notified_at);
            i = i + 1;
        }
        proof {
            assert(notifications@.take(notifications@.len() as int) =~= notifications@);
            assert(recoveries@.take(0) =~= Seq::<RecoveryRecord>::empty());
        }
        let mut j: usize = 0;
        while j < recoveries.len()
            invariant
                self.wf(),
                j <= recoveries.len(),
                self.history() == spec_load_history(h0, notifications@),
                self.recovery() == spec_load_recovery(r0, recoveries@.take(j as int)),
                self.debounce_ms() == d,
            decreases recoveries.len() - j,
        {
            let rec = recoveries[j];
            proof {
                assert(recoveries@.take(j as int + 1).drop_last() =~= recoveries@.take(j as int));
            }
            self.put_recovery(rec.roomid, rec.recovered_at);
            j = j + 1;
        }
        proof {
            assert(recoveries@.take(recoveries@.len() as int) =~= recoveries@);
        }
    }
}

/// A gate that has notified nobody allows every notification.
pub proof fn law_first_notification_allowed(recovery: Map<i32, i64>, debounce_ms: u64, user_id: u128, roomid: i32, now: i64)
    ensures
        spec_should_notify(Map::empty(), recovery, debounce_ms, user_id, roomid, now),
{
}

/// Once a user has been notified about a room, a further notification is
/// allowed exactly when the room has recovered for the debounce period.
pub proof fn law_notified_blocked_until_reset(
    history: Map<(u128, i32), i64>,
    recovery: Map<i32, i64>,
    debounce_ms: u64,
    user_id: u128,
    roomid: i32,
    at: i64,
    now: i64,
)
    ensures
        spec_should_notify(history.insert((user_id, roomid), at), recovery, debounce_ms, user_id, roomid, now)
            == spec_recovery_reset(recovery, debounce_ms, roomid, now),
{
}

/// Notifying one user about one room leaves the decision for every other
/// user and room as it was.
pub proof fn law_other_pairs_unaffected(
    history: Map<(u128, i32), i64>,
    recovery: Map<i32, i64>,
    debounce_ms: u64,
    user_id: u128,
    roomid: i32,
    at: i64,
    other_user: u128,
    other_room: i32,
    now: i64,
)
    requires
        (other_user, other_room) != (user_id, roomid),
    ensures
        spec_should_notify(history.insert((user_id, roomid), at), recovery, debounce_ms, other_user, other_room, now)
            == spec_should_notify(history, recovery, debounce_ms, other_user, other_room, now),
{
}

/// A room first seen recovered at `at` allows a notified user to be told
/// again exactly when the debounce period has passed since `at`.
pub proof fn law_reset_after_debounce(
    history: Map<(u128, i32), i64>,
    recovery: Map<i32, i64>,
    debounce_ms: u64,
    recovering_rooms: Seq<i32>,
    at: i64,
    user_id: u128,
    roomid: i32,
    now: i64,
)
    requires
        recovering_rooms.contains(roomid),
        !recovery.contains_key(roomid),
        history.contains_key((user_id, roomid)),
    ensures
        spec_should_notify(
            history,
            spec_after_recovery(recovery, recovering_rooms, at),
            debounce_ms,
            user_id,
            roomid,
            now,
        ) == ((now as int) - (at as int) >= effective_debounce(debounce_ms)),
{
}

/// Seeing a recovering room again keeps the time of its first recovery.
pub proof fn law_recovery_keeps_first_time(recovery: Map<i32, i64>, recovering_rooms: Seq<i32>, at: i64, roomid: i32)
    requires
        recovery.contains_key(roomid),
    ensures
        spec_after_recovery(recovery, recovering_rooms, at)[roomid] == recovery[roomid],
{
}

/// Clearing expired rooms changes no decision taken at the same time.
pub proof fn law_cleanup_preserves_decisions(
    history: Map<(u128, i32), i64>,
    recovery: Map<i32, i64>,
    debounce_ms: u64,
    now: i64,
    user_id: u128,
    roomid: i32,
)
    ensures
        spec_should_notify(
            spec_history_after_cleanup(history, recovery, debounce_ms, now),
            spec_recovery_after_cleanup(recovery, debounce_ms, now),
            debounce_ms,
            user_id,
            roomid,
            now,
        ) == spec_should_notify(history, recovery, debounce_ms, user_id, roomid, now),
{
}

/// After a cleanup nothing is held of a room whose debounce period had
/// passed.
pub proof fn law_cleanup_clears_expired(
    history: Map<(u128, i32), i64>,
    recovery: Map<i32, i64>,
    debounce_ms: u64,
    now: i64,
    user_id: u128,
    roomid: i32,
)
    requires
        spec_recovery_reset(recovery, debounce_ms, roomid, now),
    ensures
        !spec_history_after_cleanup(history, recovery, debounce_ms, now).contains_key((user_id, roomid)),
        !spec_recovery_after_cleanup(recovery, debounce_ms, now).contains_key(roomid),
{
}

} // verus!
