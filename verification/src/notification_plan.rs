//! The decisions of a notification round: which bound users of a room with
//! a low balance get a message, what is recorded once the messages went
//! out, and the round's statistics. Sending the messages is left to the
//! caller, which reports back which sends succeeded.

use vstd::prelude::*;
use crate::auth::opt_string_view;
use crate::notification_gate::{NotificationGate, spec_should_notify};

verus! {

/// A binding of a user to a room with notifications switched on.
#[derive(Clone, Copy, Debug)]
pub struct NotifyBinding {
    pub user_id: u128,
    pub roomid: i32,
}

/// What a notification round reads of a user.
#[derive(Debug)]
pub struct NotifyUser {
    pub id: u128,
    pub qq_number: Option<String>,
    pub is_active: bool,
}

/// What is done for one binding.
#[derive(Debug)]
pub enum BindingDecision {
    /// The bound user was not found.
    UserMissing,
    /// The user is disabled.
    UserInactive,
    /// The alert was already sent and the room has not been reset since.
    Gated,
    /// Send the alert to the user's QQ number; a user without one cannot be
    /// reached, and the send counts as failed.
    Send { user_id: u128, qq_number: Option<String> },
}

/// The index of the last user with id `id`.
pub open spec fn spec_find_user(users: Seq<NotifyUser>, id: u128) -> Option<int>
    decreases users.len(),
{
    if users.len() == 0 {
        None
    } else if users.last().id == id {
        Some(users.len() - 1)
    } else {
        spec_find_user(users.drop_last(), id)
    }
}

proof fn lemma_find_user_in_range(users: Seq<NotifyUser>, id: u128)
    ensures
        spec_find_user(users, id) matches Some(i) ==> 0 <= i < users.len() && users[i].id == id,
    decreases users.len(),
{
    if users.len() > 0 && users.last().id != id {
        lemma_find_user_in_range(users.drop_last(), id);
    }
}

/// The decision for `binding` at `now`, given the users and the recorded
/// notifications and recoveries.
pub open spec fn spec_decide(
    history: Map<(u128, i32), i64>,
    recovery: Map<i32, i64>,
    debounce_ms: u64,
    binding: NotifyBinding,
    users: Seq<NotifyUser>,
    now: i64,
) -> BindingDecision {
    match spec_find_user(users, binding.user_id) {
        None => BindingDecision::UserMissing,
        Some(i) => {
            let u = users[i];
            if !u.is_active {
                BindingDecision::UserInactive
            } else if !spec_should_notify(history, recovery, debounce_ms, u.id, binding.roomid, now) {
                BindingDecision::Gated
            } else {
                BindingDecision::Send { user_id: u.id, qq_number: u.qq_number }
            }
        },
    }
}

/// The decision as plain values: kinds are compared by variant, a send by
/// user and number.
pub open spec fn decision_view(d: BindingDecision) -> (int, u128, Option<Seq<char>>) {
    match d {
        BindingDecision::UserMissing => (0, 0, None),
        BindingDecision::UserInactive => (1, 0, None),
        BindingDecision::Gated => (2, 0, None),
        BindingDecision::Send { user_id, qq_number } => (3, user_id, opt_string_view(qq_number)),
    }
}

/// Whether the decision's alert was delivered, given what its send
/// reported: only a send to an existing QQ number that reported success.
pub open spec fn delivered(d: BindingDecision, ok: bool) -> bool {
    d matches BindingDecision::Send { qq_number: Some(_), .. } && ok
}

fn find_user(users: &[NotifyUser], id: u128) -> (r: Option<usize>)
    ensures
        match r {
            Some(i) => spec_find_user(users@, id) == Some(i as int),
            None => spec_find_user(users@, id) is None,
        },
{
    let mut i: usize = users.len();
    proof {
        assert(users@.take(users@.len() as int) =~= users@);
    }
    while i > 0
        invariant
            i <= users@.len(),
            spec_find_user(users@, id) == spec_find_user(users@.take(i as int), id),
        decreases i,
    {
        proof {
            assert(users@.take(i as int).drop_last() =~= users@.take(i as int - 1));
        }
        if users[i - 1].id == id {
            return Some(i - 1);
        }
        i = i - 1;
    }
    None
}

/// What to do for `binding` at `now`: skip a missing, disabled or gated
/// user, else send to the user's QQ number (which may be missing).
pub fn decide_binding(gate: &NotificationGate, binding: NotifyBinding, users: &[NotifyUser], now: i64) -> (r:
    BindingDecision)
    requires
        gate.wf(),
    ensures
        decision_view(r) == decision_view(
            spec_decide(gate.history(), gate.recovery(), gate.debounce_ms(), binding, users@, now),
        ),
{
    proof {
        lemma_find_user_in_range(users@, binding.user_id);
    }
    match find_user(users, binding.user_id) {
        None => BindingDecision::UserMissing,
        Some(i) => {
            let u = &users[i];
            if !u.is_active {
                BindingDecision::UserInactive
            } else if !gate.should_notify(u.id, binding.roomid, now) {
                BindingDecision::Gated
            } else {
                let qq_number = match &u.qq_number {
                    None => None,
                    Some(q) => Some(q.clone()),
                };
                BindingDecision::Send { user_id: u.id, qq_number }
            }
        },
    }
}

/// The decisions for the bindings of one room, in order.
pub fn plan_room(gate: &NotificationGate, bindings: &[NotifyBinding], users: &[NotifyUser], now: i64) -> (r: Vec<
    BindingDecision,
>)
    requires
        gate.wf(),
    ensures
        r@.len() == bindings@.len(),
        forall|k: int|
            0 <= k < r@.len() ==> decision_view(#[trigger] r@[k]) == decision_view(
                spec_decide(gate.history(), gate.recovery(), gate.debounce_ms(), bindings@[k], users@, now),
            ),
{
    let mut out: Vec<BindingDecision> = Vec::new();
    let mut i: usize = 0;
    while i < bindings.len()
        invariant
            gate.wf(),
            i <= bindings@.len(),
            out@.len() == i,
            forall|k: int|
                0 <= k < i ==> decision_view(#[trigger] out@[k]) == decision_view(
                    spec_decide(gate.history(), gate.recovery(), gate.debounce_ms(), bindings@[k], users@, now),
                ),
        decreases bindings@.len() - i,
    {
        let d = decide_binding(gate, bindings[i], users, now);
        out.push(d);
        i = i + 1;
    }
    out
}

/// The notification history once the delivered alerts among `decisions`
/// are recorded at `now`.
pub open spec fn spec_after_sends(
    history: Map<(u128, i32), i64>,
    decisions: Seq<BindingDecision>,
    sent_ok: Seq<bool>,
    roomid: i32,
    now: i64,
) -> Map<(u128, i32), i64>
    decreases decisions.len(),
{
    if decisions.len() == 0 {
        history
    } else {
        let prev = spec_after_sends(history, decisions.drop_last(), sent_ok.drop_last(), roomid, now);
        match decisions.last() {
            BindingDecision::Send { user_id, .. } => if delivered(decisions.last(), sent_ok.last()) {
                prev.insert((user_id, roomid), now)
            } else {
                prev
            },
            _ => prev,
        }
    }
}

/// The sends whose alert was delivered (`ok` true) or not (`ok` false)
/// among the first `n` decisions.
pub open spec fn spec_send_count(decisions: Seq<BindingDecision>, sent_ok: Seq<bool>, n: int, ok: bool) -> nat
    decreases n,
{
    if n <= 0 {
        0
    } else {
        spec_send_count(decisions, sent_ok, n - 1, ok) + (if decisions[n - 1] is Send && delivered(decisions[n - 1], sent_ok[n - 1]) == ok {
            1nat
        } else {
            0nat
        })
    }
}

proof fn lemma_send_count_bounded(decisions: Seq<BindingDecision>, sent_ok: Seq<bool>, n: int)
    requires
        0 <= n,
    ensures
        spec_send_count(decisions, sent_ok, n, true) + spec_send_count(decisions, sent_ok, n, false) <= n,
    decreases n,
{
    if n > 0 {
        lemma_send_count_bounded(decisions, sent_ok, n - 1);
    }
}

/// What one room's alerts came to.
#[derive(Debug, Clone, Copy)]
pub struct RoomOutcome {
    /// Alerts sent.
    pub sent: usize,
    /// Alerts whose send failed.
    pub failed: usize,
}

/// Records the sends of one room: every user whose alert was delivered is
/// marked notified at `now`. Returns the number of alerts delivered and the
/// number of sends that failed (a send that reported failure, or one to a
/// user without a QQ number); skipped bindings count in neither.
pub fn record_room_results(
    gate: &mut NotificationGate,
    roomid: i32,
    decisions: &[BindingDecision],
    sent_ok: &[bool],
    now: i64,
) -> (r: RoomOutcome)
    requires
        old(gate).wf(),
        sent_ok@.len() == decisions@.len(),
    ensures
        final(gate).wf(),
        final(gate).history() == spec_after_sends(old(gate).history(), decisions@, sent_ok@, roomid, now),
        final(gate).recovery() == old(gate).recovery(),
        final(gate).debounce_ms() == old(gate).debounce_ms(),
        r.sent == spec_send_count(decisions@, sent_ok@, decisions@.len() as int, true),
        r.failed == spec_send_count(decisions@, sent_ok@, decisions@.len() as int, false),
{
    let ghost h0 = gate.history();
    let mut sent: usize = 0;
    let mut failed: usize = 0;
    let mut i: usize = 0;
    proof {
        assert(decisions@.take(0) =~= Seq::<BindingDecision>::empty());
    }
    while i < decisions.len()
        invariant
            gate.wf(),
            sent_ok@.len() == decisions@.len(),
            i <= decisions@.len(),
            gate.history() == spec_after_sends(h0, decisions@.take(i as int), sent_ok@.take(i as int), roomid, now),
            gate.recovery() == old(gate).recovery(),
            gate.debounce_ms() == old(gate).debounce_ms(),
            sent == spec_send_count(decisions@, sent_ok@, i as int, true),
            failed == spec_send_count(decisions@, sent_ok@, i as int, false),
        decreases decisions@.len() - i,
    {
        proof {
            assert(decisions@.take(i as int + 1).drop_last() =~= decisions@.take(i as int));
            assert(sent_ok@.take(i as int + 1).drop_last() =~= sent_ok@.take(i as int));
            lemma_send_count_bounded(decisions@, sent_ok@, i as int);
        }
        match &decisions[i] {
            BindingDecision::Send { user_id, qq_number } => {
                if sent_ok[i] && qq_number.is_some() {
                    gate.mark_notified(*user_id, roomid, now);
                    sent = sent + 1;
                } else {
                    failed = failed + 1;
                }
            },
            _ => {},
        }
        i = i + 1;
    }
    proof {
        assert(decisions@.take(decisions@.len() as int) =~= decisions@);
        assert(sent_ok@.take(sent_ok@.len() as int) =~= sent_ok@);
    }
    RoomOutcome { sent, failed }
}

/// The bindings of `s` to room `roomid`, in order.
pub open spec fn bindings_of_room(s: Seq<NotifyBinding>, roomid: i32) -> Seq<NotifyBinding>
    decreases s.len(),
{
    if s.len() == 0 {
        Seq::empty()
    } else {
        let prev = bindings_of_room(s.drop_last(), roomid);
        if s.last().roomid == roomid {
            prev.push(s.last())
        } else {
            prev
        }
    }
}

/// Some binding of `s` is to room `roomid`.
pub open spec fn has_room(s: Seq<NotifyBinding>, roomid: i32) -> bool {
    exists|i: int| 0 <= i < s.len() && s[i].roomid == roomid
}

proof fn lemma_no_bindings_of_absent_room(s: Seq<NotifyBinding>, roomid: i32)
    requires
        !has_room(s, roomid),
    ensures
        bindings_of_room(s, roomid) == Seq::<NotifyBinding>::empty(),
    decreases s.len(),
{
    if s.len() > 0 {
        assert(!has_room(s.drop_last(), roomid)) by {
            if has_room(s.drop_last(), roomid) {
                let i = choose|i: int| 0 <= i < s.drop_last().len() && s.drop_last()[i].roomid == roomid;
                assert(s[i].roomid == roomid);
            }
        }
        lemma_no_bindings_of_absent_room(s.drop_last(), roomid);
        assert(s.last() == s[s.len() - 1]);
    }
}

/// The bindings of one room.
#[derive(Debug)]
pub struct RoomBindings {
    pub roomid: i32,
    pub bindings: Vec<NotifyBinding>,
}

fn find_group(groups: &Vec<RoomBindings>, roomid: i32) -> (r: Option<usize>)
    ensures
        match r {
            Some(k) => k < groups@.len() && groups@[k as int].roomid == roomid,
            None => forall|j: int| 0 <= j < groups@.len() ==> (#[trigger] groups@[j]).roomid != roomid,
        },
{
    let mut k: usize = 0;
    while k < groups.len()
        invariant
            k <= groups@.len(),
            forall|j: int| 0 <= j < k ==> (#[trigger] groups@[j]).roomid != roomid,
        decreases groups@.len() - k,
    {
        if groups[k].roomid == roomid {
            return Some(k);
        }
        k = k + 1;
    }
    None
}

fn contains_id(ids: &Vec<u128>, u: u128) -> (r: bool)
    ensures
        r == ids@.contains(u),
{
    let mut k: usize = 0;
    while k < ids.len()
        invariant
            k <= ids@.len(),
            forall|j: int| 0 <= j < k ==> ids@[j] != u,
        decreases ids@.len() - k,
    {
        if ids[k] == u {
            return true;
        }
        k = k + 1;
    }
    false
}

/// The bindings grouped by room: one group per room, in the order the rooms
/// first appear, each holding its room's bindings in order.
pub fn group_bindings_by_room(bindings: &[NotifyBinding]) -> (groups: Vec<RoomBindings>)
    ensures
        forall|a: int, b: int| 0 <= a < b < groups@.len() ==> (#[trigger] groups@[a]).roomid != (#[trigger] groups@[b]).roomid,
        forall|k: int|
            0 <= k < groups@.len() ==> (#[trigger] groups@[k]).bindings@ == bindings_of_room(bindings@, groups@[k].roomid),
        forall|r: i32| has_room(bindings@, r) <==> exists|k: int| 0 <= k < groups@.len() && groups@[k].roomid == r,
{
    let mut groups: Vec<RoomBindings> = Vec::new();
    let mut i: usize = 0;
    while i < bindings.len()
        invariant
            i <= bindings@.len(),
            forall|a: int, b: int| 0 <= a < b < groups@.len() ==> (#[trigger] groups@[a]).roomid != (#[trigger] groups@[b]).roomid,
            forall|k: int|
                0 <= k < groups@.len() ==> (#[trigger] groups@[k]).bindings@ == bindings_of_room(
                    bindings@.take(i as int),
                    groups@[k].roomid,
                ),
            forall|r: i32|
                has_room(bindings@.take(i as int), r) <==> exists|k: int| 0 <= k < groups@.len() && groups@[k].roomid == r,
        decreases bindings@.len() - i,
    {
        let b = bindings[i];
        let ghost pre = bindings@.take(i as int);
        let ghost post = bindings@.take(i as int + 1);
        let ghost old_groups = groups@;
        proof {
            assert(post.drop_last() =~= pre);
            assert(post.last() == b);
            assert forall|r: i32| has_room(post, r) <==> (has_room(pre, r) || r == b.roomid) by {
                if has_room(post, r) {
                    let j = choose|j: int| 0 <= j < post.len() && post[j].roomid == r;
                    if j < pre.len() {
                        assert(pre[j] == post[j]);
                    }
                }
                if has_room(pre, r) {
                    let j = choose|j: int| 0 <= j < pre.len() && pre[j].roomid == r;
                    assert(post[j] == pre[j]);
                }
                if r == b.roomid {
                    assert(post[i as int].roomid == r);
                }
            }
        }
        let found = find_group(&groups, b.roomid);
        let k: usize = match found {
            Some(k) => k,
            None => groups.len(),
        };
        if k < groups.len() {
            let mut g = RoomBindings { roomid: 0, bindings: Vec::new() };
            std::mem::swap(&mut g, &mut groups[k]);
            g.bindings.push(b);
            groups.set(k, g);
            proof {
                assert forall|j: int|
                    0 <= j < groups@.len() implies (#[trigger] groups@[j]).bindings@ == bindings_of_room(
                    post,
                    groups@[j].roomid,
                ) by {
                    if j != k {
                        assert(groups@[j] == old_groups[j]);
                    }
                }
                assert forall|a: int, c: int| 0 <= a < c < groups@.len() implies (#[trigger] groups@[a]).roomid
                    != (#[trigger] groups@[c]).roomid by {
                    assert(groups@[a].roomid == old_groups[a].roomid);
                    assert(groups@[c].roomid == old_groups[c].roomid);
                }
                assert forall|r: i32| has_room(post, r) <==> exists|j: int| 0 <= j < groups@.len() && groups@[j].roomid == r by {
                    if exists|j: int| 0 <= j < old_groups.len() && old_groups[j].roomid == r {
                        let j = choose|j: int| 0 <= j < old_groups.len() && old_groups[j].roomid == r;
                        assert(groups@[j].roomid == r);
                    }
                    if exists|j: int| 0 <= j < groups@.len() && groups@[j].roomid == r {
                        let j = choose|j: int| 0 <= j < groups@.len() && groups@[j].roomid == r;
                        assert(old_groups[j].roomid == r);
                    }
                }
            }
        } else {
            proof {
                assert(!has_room(pre, b.roomid));
                lemma_no_bindings_of_absent_room(pre, b.roomid);
            }
            let mut v: Vec<NotifyBinding> = Vec::new();
            v.push(b);
            groups.push(RoomBindings { roomid: b.roomid, bindings: v });
            proof {
                assert forall|j: int|
                    0 <= j < groups@.len() implies (#[trigger] groups@[j]).bindings@ == bindings_of_room(
                    post,
                    groups@[j].roomid,
                ) by {
                    if j < old_groups.len() {
                        assert(groups@[j] == old_groups[j]);
                    } else {
                        assert(groups@[j].bindings@ =~= seq![b]);
                    }
                }
                assert forall|r: i32| has_room(post, r) <==> exists|j: int| 0 <= j < groups@.len() && groups@[j].roomid == r by {
                    if exists|j: int| 0 <= j < old_groups.len() && old_groups[j].roomid == r {
                        let j = choose|j: int| 0 <= j < old_groups.len() && old_groups[j].roomid == r;
                        assert(groups@[j].roomid == r);
                    }
                    if exists|j: int| 0 <= j < groups@.len() && groups@[j].roomid == r {
                        let j = choose|j: int| 0 <= j < groups@.len() && groups@[j].roomid == r;
                        if j < old_groups.len() {
                            assert(old_groups[j].roomid == r);
                        }
                    }
                    if r == b.roomid {
                        assert(groups@[old_groups.len() as int].roomid == r);
                    }
                }
            }
        }
        i = i + 1;
    }
    proof {
        assert(bindings@.take(bindings@.len() as int) =~= bindings@);
    }
    groups
}

/// The distinct user ids of the bindings, in the order they first appear.
pub fn distinct_user_ids(bindings: &[NotifyBinding]) -> (ids: Vec<u128>)
    ensures
        ids@.no_duplicates(),
        forall|u: u128| ids@.contains(u) <==> exists|i: int| 0 <= i < bindings@.len() && bindings@[i].user_id == u,
{
    let mut ids: Vec<u128> = Vec::new();
    let mut i: usize = 0;
    while i < bindings.len()
        invariant
            i <= bindings@.len(),
            ids@.no_duplicates(),
            forall|u: u128| ids@.contains(u) <==> exists|j: int| 0 <= j < i && bindings@[j].user_id == u,
        decreases bindings@.len() - i,
    {
        let u = bindings[i].user_id;
        let found = contains_id(&ids, u);
        let ghost before = ids@;
        if !found {
            ids.push(u);
            proof {
                assert forall|x: u128| ids@.contains(x) <==> (before.contains(x) || x == u) by {
                    vstd::seq_lib::lemma_seq_contains_after_push(before, u, x);
                }
            }
        }
        proof {
            assert forall|x: u128| ids@.contains(x) <==> exists|j: int| 0 <= j < i + 1 && bindings@[j].user_id == x by {
                if exists|j: int| 0 <= j < i + 1 && bindings@[j].user_id == x {
                    let j = choose|j: int| 0 <= j < i + 1 && bindings@[j].user_id == x;
                    if j < i {
                        assert(before.contains(x));
                    }
                }
                if before.contains(x) {
                    let j = choose|j: int| 0 <= j < i && bindings@[j].user_id == x;
                    assert(0 <= j < i + 1 && bindings@[j].user_id == x);
                }
            }
        }
        i = i + 1;
    }
    ids
}

/// The statistics of a notification round.
#[derive(Debug)]
pub struct NotificationStats {
    /// Rooms processed.
    pub total_rooms: usize,
    /// Bindings processed.
    pub total_bindings: usize,
    /// Alerts sent.
    pub total_sent: usize,
    /// Alerts whose send failed.
    pub total_failed: usize,
    /// Time taken, in milliseconds.
    pub duration_ms: u128,
}

impl NotificationStats {
    /// The statistics of a round with nothing to do.
    pub fn empty() -> (r: NotificationStats)
        ensures
            r.total_rooms == 0,
            r.total_bindings == 0,
            r.total_sent == 0,
            r.total_failed == 0,
            r.duration_ms == 0,
    {
        NotificationStats { total_rooms: 0, total_bindings: 0, total_sent: 0, total_failed: 0, duration_ms: 0 }
    }
}

/// The alerts sent in the rooms of a round.
pub open spec fn spec_total_sent(results: Seq<RoomOutcome>) -> nat
    decreases results.len(),
{
    if results.len() == 0 {
        0
    } else {
        spec_total_sent(results.drop_last()) + results.last().sent as nat
    }
}

/// The alerts whose send failed in the rooms of a round.
pub open spec fn spec_total_failed(results: Seq<RoomOutcome>) -> nat
    decreases results.len(),
{
    if results.len() == 0 {
        0
    } else {
        spec_total_failed(results.drop_last()) + results.last().failed as nat
    }
}

proof fn lemma_totals_prefix(results: Seq<RoomOutcome>, k: int)
    requires
        0 <= k <= results.len(),
    ensures
        spec_total_sent(results.take(k)) <= spec_total_sent(results),
        spec_total_failed(results.take(k)) <= spec_total_failed(results),
    decreases results.len() - k,
{
    if k < results.len() {
        lemma_totals_prefix(results.drop_last(), k);
        assert(results.drop_last().take(k) =~= results.take(k));
    } else {
        assert(results.take(k) =~= results);
    }
}

/// What a round does before sending anything: with no room it ends with
/// empty statistics; when the rooms have no binding it ends counting the
/// rooms and nothing else; otherwise (`None`) it goes on.
pub fn round_shortcut(total_rooms: usize, bindings: &[NotifyBinding], elapsed_ms: u128) -> (r: Option<
    NotificationStats,
>)
    ensures
        total_rooms == 0 ==> r == Some(
            NotificationStats { total_rooms: 0, total_bindings: 0, total_sent: 0, total_failed: 0, duration_ms: 0 },
        ),
        total_rooms > 0 && bindings@.len() == 0 ==> r == Some(
            NotificationStats {
                total_rooms,
                total_bindings: 0,
                total_sent: 0,
                total_failed: 0,
                duration_ms: elapsed_ms,
            },
        ),
        total_rooms > 0 && bindings@.len() > 0 ==> r is None,
{
    if total_rooms == 0 {
        Some(NotificationStats::empty())
    } else if bindings.len() == 0 {
        Some(NotificationStats { total_rooms, total_bindings: 0, total_sent: 0, total_failed: 0, duration_ms: elapsed_ms })
    } else {
        None
    }
}

/// The statistics of a round over `total_rooms` rooms and the `bindings`
/// it processed, given each room's outcome.
pub fn round_stats_for(
    total_rooms: usize,
    bindings: &[NotifyBinding],
    room_results: &[RoomOutcome],
    duration_ms: u128,
) -> (r: NotificationStats)
    requires
        spec_total_sent(room_results@) <= usize::MAX,
        spec_total_failed(room_results@) <= usize::MAX,
    ensures
        r.total_rooms == total_rooms,
        r.total_bindings == bindings@.len(),
        r.total_sent == spec_total_sent(room_results@),
        r.total_failed == spec_total_failed(room_results@),
        r.duration_ms == duration_ms,
{
    let mut sent: usize = 0;
    let mut failed: usize = 0;
    let mut i: usize = 0;
    proof {
        assert(room_results@.take(0) =~= Seq::<RoomOutcome>::empty());
    }
    while i < room_results.len()
        invariant
            i <= room_results@.len(),
            spec_total_sent(room_results@) <= usize::MAX,
            spec_total_failed(room_results@) <= usize::MAX,
            sent == spec_total_sent(room_results@.take(i as int)),
            failed == spec_total_failed(room_results@.take(i as int)),
        decreases room_results@.len() - i,
    {
        proof {
            assert(room_results@.take(i as int + 1).drop_last() =~= room_results@.take(i as int));
            lemma_totals_prefix(room_results@, i as int + 1);
        }
        sent = sent + room_results[i].sent;
        failed = failed + room_results[i].failed;
        i = i + 1;
    }
    proof {
        assert(room_results@.take(room_results@.len() as int) =~= room_results@);
    }
    NotificationStats { total_rooms, total_bindings: bindings.len(), total_sent: sent, total_failed: failed, duration_ms }
}

/// The decision's alert to user `uid` was delivered.
pub open spec fn delivered_to(d: BindingDecision, ok: bool, uid: u128) -> bool {
    d matches BindingDecision::Send { user_id, .. } && user_id == uid && delivered(d, ok)
}

/// Recording sends never forgets an earlier notification, and records
/// every delivered alert.
proof fn lemma_after_sends_records(
    history: Map<(u128, i32), i64>,
    decisions: Seq<BindingDecision>,
    sent_ok: Seq<bool>,
    roomid: i32,
    now: i64,
    key: (u128, i32),
)
    requires
        sent_ok.len() == decisions.len(),
    ensures
        history.contains_key(key) ==> spec_after_sends(history, decisions, sent_ok, roomid, now).contains_key(key),
        (key.1 == roomid && exists|k: int|
            0 <= k < decisions.len() && #[trigger] delivered_to(decisions[k], sent_ok[k], key.0)) ==> spec_after_sends(history, decisions, sent_ok, roomid, now).contains_key(
            key,
        ),
    decreases decisions.len(),
{
    if decisions.len() > 0 {
        lemma_after_sends_records(history, decisions.drop_last(), sent_ok.drop_last(), roomid, now, key);
        if key.1 == roomid && exists|k: int|
            0 <= k < decisions.len() && #[trigger] delivered_to(decisions[k], sent_ok[k], key.0) {
            let k = choose|k: int|
                0 <= k < decisions.len() && #[trigger] delivered_to(decisions[k], sent_ok[k], key.0);
            if k < decisions.len() - 1 {
                assert(decisions.drop_last()[k] == decisions[k]);
                assert(sent_ok.drop_last()[k] == sent_ok[k]);
            }
        }
    }
}

/// No alert is sent twice: once the alert of a binding was delivered and
/// recorded, the binding is not sent to again while its room has no
/// recorded recovery, at any later time.
pub proof fn law_sent_alert_not_repeated(
    history: Map<(u128, i32), i64>,
    recovery: Map<i32, i64>,
    debounce_ms: u64,
    decisions: Seq<BindingDecision>,
    sent_ok: Seq<bool>,
    roomid: i32,
    now: i64,
    k: int,
    users: Seq<NotifyUser>,
    later: i64,
)
    requires
        sent_ok.len() == decisions.len(),
        0 <= k < decisions.len(),
        delivered(decisions[k], sent_ok[k]),
        !recovery.contains_key(roomid),
    ensures
        !(spec_decide(
            spec_after_sends(history, decisions, sent_ok, roomid, now),
            recovery,
            debounce_ms,
            NotifyBinding { user_id: decisions[k]->Send_user_id, roomid },
            users,
            later,
        ) is Send),
{
    let uid = decisions[k]->Send_user_id;
    let key = (uid, roomid);
    assert(delivered_to(decisions[k], sent_ok[k], key.0));
    assert(key.1 == roomid && exists|j: int| 0 <= j < decisions.len() && #[trigger] delivered_to(decisions[j], sent_ok[j], key.0));
    lemma_after_sends_records(history, decisions, sent_ok, roomid, now, key);
    let h2 = spec_after_sends(history, decisions, sent_ok, roomid, now);
    assert(h2.contains_key((uid, roomid)));
    lemma_find_user_in_range(users, uid);
    match spec_find_user(users, uid) {
        Some(i) => {
            assert(users[i].id == uid);
            assert(!spec_should_notify(h2, recovery, debounce_ms, users[i].id, roomid, later));
        },
        None => {},
    }
}

} // verus!
