use hmac::Mac;
use electricity_monitor_backend::crawler::{parse_floor_rooms, parse_room_tree};
use electricity_monitor_backend::auth::issue_tokens;
use sonic_rs::JsonValueTrait;
use electricity_monitor_backend::auth::{
    build_clear_refresh_cookie_header, build_refresh_cookie_header, check_login_code, has_admin_override, parse_user_id, refresh_token_from_cookie, build_claims, token_times, TokenKind,
    LoginIdentity, LoginMode, User,
};
use electricity_monitor_backend::binding::{
    check_binding_access, constant_time_eq, delete_outcome, normalize_binding_proof, room_binding_proof,
    validate_binding_proof, BindingAction,
};
use electricity_monitor_backend::captcha::{captcha_check_result, captcha_verify_url, parse_captcha_type, CaptchaType, ThirdPartyResponse};
use electricity_monitor_backend::electricity::{
    fetch_cron_expression, fetch_done_reply, fetch_step, fetch_unavailable_reply, history_cron_expression,
    latest_per_room, BatchStats, FetchStatistics, FetchStep, HISTORY_RETENTION_DAYS,
};
use electricity_monitor_backend::errors::AppError;
use electricity_monitor_backend::notification_cache::{CacheStats, NotificationCache};
use electricity_monitor_backend::notification_gate::NotificationGate;
use electricity_monitor_backend::notification_plan::{
    distinct_user_ids, group_bindings_by_room, plan_room, record_room_results, round_shortcut, round_stats_for, BindingDecision, NotificationStats,
    RoomOutcome,
    NotifyBinding, NotifyUser,
};
use electricity_monitor_backend::path_tree::{calculate_roompath_hash, PathNode, RoomPathTree};
use electricity_monitor_backend::public_config::{PublicCaptchaConfig, PublicConfigResponse, PublicVerificationConfig};
use electricity_monitor_backend::rate_limit::{RateLimitConfig, RateLimitOperation, RateLimiter};
use electricity_monitor_backend::room_aggregate::RoomPath;
use electricity_monitor_backend::room_api::{validate_room_fields, PaginationQuery, RoomFieldError};
use electricity_monitor_backend::room_client::{after_failure, campus_level_params, retry_delay_secs, RetryStep};
use electricity_monitor_backend::room_data::RoomData;
use electricity_monitor_backend::room_sync::{
    classify_rooms, needs_update, pending_sync_status, prepare_room_update_ops, sync_status_message, update_tally, ExistingRoom,
    SyncAction, SyncStats,
};
use electricity_monitor_backend::room_sync_cache::RoomSyncCache;
use electricity_monitor_backend::roomid_cache::RoomIdCache;
use electricity_monitor_backend::verification_code::VerificationCodeService;

fn user(id: u128, role: &str) -> User {
    User {
        id,
        qq_number: Some("123456".to_string()),
        role: role.to_string(),
        is_active: true,
        login_provider: "qq".to_string(),
        email: None,
    }
}

fn path(roomid: i64, p: &str) -> RoomPath {
    RoomPath {
        roomid,
        roompath: p.to_string(),
        roompath_hash: calculate_roompath_hash(p),
        room_name: "r".to_string(),
        source_type: "api_sync".to_string(),
    }
}

fn room(roomid: i64, p: &str) -> ExistingRoom {
    ExistingRoom { roomid, primary_roompath: p.to_string(), has_additional_paths: false }
}

// --- notification gate -------------------------------------------------

#[test]
fn gate_blocks_until_recovery_and_debounce() {
    let mut gate = NotificationGate::new(Some(1000));
    gate.mark_notified(9, 5, 0);
    assert!(!gate.should_notify(9, 5, 10_000));
    gate.update_recovery_state(&[5], 100);
    assert!(!gate.should_notify(9, 5, 1099));
    assert!(gate.should_notify(9, 5, 1100));
}

#[test]
fn gate_keeps_first_recovery_time() {
    let mut gate = NotificationGate::new(Some(1000));
    gate.mark_notified(9, 5, 0);
    let first = gate.update_recovery_state(&[5], 100);
    assert_eq!(first, vec![5]);
    let again = gate.update_recovery_state(&[5], 900);
    assert!(again.is_empty());
    assert!(gate.should_notify(9, 5, 1100));
}

#[test]
fn gate_other_pairs_unaffected() {
    let mut gate = NotificationGate::new(None);
    gate.mark_notified(1, 5, 0);
    assert!(gate.should_notify(2, 5, 1));
    assert!(gate.should_notify(1, 6, 1));
}

#[test]
fn gate_cleanup_keeps_decisions_and_counts() {
    let mut gate = NotificationGate::new(Some(100));
    gate.mark_notified(1, 5, 0);
    gate.mark_notified(2, 6, 0);
    gate.update_recovery_state(&[5, 6], 10);
    assert_eq!(gate.stats(), (2, 2));
    let before = gate.should_notify(1, 5, 50);
    assert_eq!(gate.cleanup_recovered(50), 0);
    assert_eq!(gate.should_notify(1, 5, 50), before);
    let rooms = gate.cleanup_recovered_rooms(200);
    assert_eq!(rooms.len(), 2);
    assert_eq!(gate.stats(), (0, 0));
    assert!(gate.should_notify(1, 5, 201));
}

// --- path tree -----------------------------------------------------------

#[test]
fn path_tree_indexes_primary_paths_first_room_first() {
    let rooms = vec![
        RoomData::new(7, vec!["A/B/1".to_string()]),
        RoomData::new(8, vec!["A/B/1".to_string(), "A/C/2".to_string()]),
    ];
    let tree = RoomPathTree::build_from_rooms(&rooms);
    assert_eq!(tree.find_roomid_by_path("A/B/1"), Some(7));
    assert_eq!(tree.find_roomid_by_path("A/C/2"), None);
    assert_eq!(tree.find_roomid_by_hash(calculate_roompath_hash("A/B/1"), "A/B/1"), Some(7));
    assert_eq!(tree.find_roomid_by_hash(calculate_roompath_hash("A/C/2"), "A/C/2"), None);
    let kids = tree.query_children("A/B").unwrap();
    assert_eq!(kids.len(), 1);
    assert!(kids[0].is_leaf);
    assert_eq!(kids[0].room_count, 2);
    let err = tree.query_children("A/Z").unwrap_err();
    assert_eq!(err.message(), "路径不存在: A/Z");
}

#[test]
fn path_hash_is_fnv1a_over_code_points() {
    assert_eq!(calculate_roompath_hash(""), 0xcbf2_9ce4_8422_2325_u64 as i64);
    let mut h: u64 = 0xcbf2_9ce4_8422_2325;
    for c in "桂林/05".chars() {
        h ^= c as u64;
        h = h.wrapping_mul(0x0000_0100_0000_01b3);
    }
    assert_eq!(calculate_roompath_hash("桂林/05"), h as i64);
}

// --- rate limiter --------------------------------------------------------

#[test]
fn rate_limit_allows_up_to_the_limit() {
    let limiter = RateLimiter::new(RateLimitConfig { insert_per_second: 3, query_per_second: 1 });
    assert!(limiter.allows(RateLimitOperation::Insert, 3));
    assert!(!limiter.allows(RateLimitOperation::Insert, 4));
    assert!(limiter.allows(RateLimitOperation::Query, 1));
    assert!(!limiter.allows(RateLimitOperation::Query, 2));
    assert_eq!(limiter.remaining_quota(RateLimitOperation::Insert, Some(1)), 2);
    assert_eq!(limiter.remaining_quota(RateLimitOperation::Insert, None), 3);
    assert_eq!(limiter.remaining_quota(RateLimitOperation::Insert, Some(9)), 0);
    assert!(RateLimiter::needs_expiry(1));
    assert!(!RateLimiter::needs_expiry(2));
}

// --- notification cache --------------------------------------------------

#[test]
fn test_cache_creation() {
    let cache = NotificationCache::new(Some(100), Some(50), Some(60));
    assert_eq!(cache.get_cache_sizes(), (0, 0));
}

#[test]
fn test_cache_stats() {
    let mut cache = NotificationCache::new(Some(10), Some(10), Some(60));
    let stats = cache.get_stats();
    assert_eq!(stats.user_hits, 0);
    assert_eq!(stats.user_misses, 0);
    assert!(cache.get_user(77, 0).is_none());
    assert_eq!(cache.get_stats().user_misses, 1);
}

#[test]
fn cache_lookup_after_store_until_expiry() {
    let mut cache = NotificationCache::new(Some(10), Some(10), Some(60));
    cache.set_user(user(1, "admin"), 1_000);
    let found = cache.get_user(1, 61_000).unwrap();
    assert_eq!(found.role, "admin");
    assert!(cache.get_user(1, 61_001).is_none());
    assert_eq!(cache.get_cache_sizes(), (0, 0));
    let s = cache.get_stats();
    assert_eq!((s.user_hits, s.user_misses), (1, 1));
}

#[test]
fn cache_evicts_least_recently_used() {
    let mut cache = NotificationCache::new(Some(2), Some(2), None);
    cache.set_user(user(1, "user"), 0);
    cache.set_user(user(2, "user"), 0);
    assert!(cache.get_user(1, 0).is_some());
    cache.set_user(user(3, "user"), 0);
    assert!(cache.get_user(2, 0).is_none());
    assert!(cache.get_user(1, 0).is_some());
    assert!(cache.get_user(3, 0).is_some());
    assert_eq!(cache.get_cache_sizes().0, 2);
}

#[test]
fn cache_bindings_and_invalidation() {
    let mut cache = NotificationCache::new(None, None, None);
    let b = vec![NotifyBinding { user_id: 1, roomid: 5 }, NotifyBinding { user_id: 2, roomid: 5 }];
    cache.set_bindings(5, b, 0);
    let got = cache.get_bindings(5, 300_000).unwrap();
    assert_eq!(got.len(), 2);
    assert_eq!(got[1].user_id, 2);
    cache.invalidate_bindings(5);
    assert!(cache.get_bindings(5, 0).is_none());
    cache.set_bindings_batch(vec![(1, vec![]), (2, vec![NotifyBinding { user_id: 3, roomid: 2 }])], 0);
    assert_eq!(cache.get_cache_sizes().1, 2);
    cache.set_users(vec![user(4, "user"), user(5, "user")], 0);
    cache.invalidate_user(4);
    assert!(cache.get_user(4, 0).is_none());
    assert!(cache.get_user(5, 0).is_some());
    cache.clear_all();
    assert_eq!(cache.get_cache_sizes(), (0, 0));
    cache.reset_stats();
    let s: CacheStats = cache.get_stats();
    assert_eq!((s.user_hits, s.user_misses, s.binding_hits, s.binding_misses), (0, 0, 0, 0));
}

// --- room sync cache ------------------------------------------------------

#[test]
fn room_sync_cache_groups_paths_and_reads_back() {
    let mut c = RoomSyncCache::new();
    c.full_refresh(
        vec![room(1, "A/1"), room(2, "A/2"), room(1, "A/1b")],
        vec![path(1, "X/1"), path(2, "X/2"), path(1, "Y/1")],
    );
    assert_eq!(c.size(), (2, 2));
    assert_eq!(c.get_room(1).unwrap().primary_roompath, "A/1b");
    let p1 = c.get_paths(1);
    assert_eq!(p1.len(), 2);
    assert_eq!(p1[0].roompath, "X/1");
    assert_eq!(p1[1].roompath, "Y/1");
    c.update_paths(2, vec![]);
    assert!(c.get_paths(2).is_empty());
    assert_eq!(c.size(), (2, 1));
    c.update_paths(3, vec![path(3, "Z/3")]);
    assert_eq!(c.get_paths(3)[0].roompath, "Z/3");
    c.remove_room(1);
    assert!(c.get_room(1).is_none());
    assert!(c.get_paths(1).is_empty());
    c.add_rooms(vec![room(9, "B/9")]);
    c.update_rooms(vec![room(9, "B/9x")]);
    assert_eq!(c.get_room(9).unwrap().primary_roompath, "B/9x");
    assert!(!c.is_empty());
}

#[test]
fn roomid_cache_holds_loaded_ids() {
    let mut c = RoomIdCache::new(vec![1, 2]);
    assert_eq!(c.get_all(), vec![1, 2]);
    c.refresh(vec![]);
    assert!(c.is_empty());
    assert_eq!(c.len(), 0);
}

// --- electricity services ------------------------------------------------

#[test]
fn fetch_step_decisions() {
    match fetch_step(0, 0, 7) {
        FetchStep::Finish(s) => assert_eq!((s.success_count, s.failure_count, s.duration_ms), (0, 0, 7)),
        _ => panic!("expected finish"),
    }
    match fetch_step(5, 0, 7) {
        FetchStep::Finish(s) => assert_eq!((s.success_count, s.failure_count), (0, 5)),
        _ => panic!("expected finish"),
    }
    match fetch_step(5, 3, 7) {
        FetchStep::Store { success_count, failure_count } => assert_eq!((success_count, failure_count), (3, 2)),
        _ => panic!("expected store"),
    }
}

#[test]
fn schedules_and_retention() {
    assert_eq!(fetch_cron_expression(5), "0 */5 * * * *");
    assert_eq!(history_cron_expression(1), "0 0 */1 * * *");
    assert_eq!(HISTORY_RETENTION_DAYS, 8);
}

#[test]
fn batch_keeps_latest_reading_per_room() {
    let r = latest_per_room(&vec![101, 102, 101, 103, 102]);
    let mut pairs = r.clone();
    pairs.sort();
    assert_eq!(pairs, vec![(101, 2), (102, 4), (103, 3)]);
    assert!(latest_per_room(&vec![]).is_empty());
}

#[test]
fn batch_stats_count() {
    let mut s = BatchStats::new();
    s.record_batch(10, 7);
    s.record_failure();
    assert_eq!((s.batch_count, s.total_records, s.updated_records, s.failed_batches), (1, 10, 7, 1));
}

#[test]
fn fetch_replies() {
    let stats = FetchStatistics::new(3, 1, 2, 40);
    let (code, r) = fetch_done_reply(&stats, Some((5, 6)));
    assert_eq!(code, 200);
    assert_eq!(r.message, "电费获取完成");
    assert_eq!((r.history_inserted, r.history_deleted), (Some(5), Some(6)));
    let (code, r) = fetch_unavailable_reply();
    assert_eq!(code, 503);
    assert_eq!(r.message, "电费获取服务未启用");
}

#[test]
fn retry_policy() {
    assert_eq!(retry_delay_secs(64), 1u64 << 63);
    assert!(matches!(after_failure(1, 3), RetryStep::Wait(1)));
    assert!(matches!(after_failure(2, 3), RetryStep::Wait(2)));
    assert!(matches!(after_failure(3, 3), RetryStep::GiveUp));
    assert_eq!(campus_level_params(), "yzm=123&Id=000&level=1");
}

// --- room endpoints --------------------------------------------------------

#[test]
fn pagination_bounds() {
    let q = PaginationQuery::new();
    assert_eq!((q.limit, q.offset), (20, 0));
    assert!(q.validate().is_ok());
    match (PaginationQuery { limit: 0, offset: -1 }).validate() {
        Err(AppError::BadRequest(m)) => assert_eq!(m, "limit必须在1到100之间"),
        _ => panic!("expected limit error"),
    }
    match (PaginationQuery { limit: 100, offset: 10001 }).validate() {
        Err(AppError::BadRequest(m)) => assert_eq!(m, "offset必须在0到10000之间"),
        _ => panic!("expected offset error"),
    }
    assert!((PaginationQuery { limit: 1, offset: 10000 }).validate().is_ok());
}

#[test]
fn room_field_lengths() {
    assert!(validate_room_fields("宿舍", "A/1").is_ok());
    let e = validate_room_fields("", "A/1").unwrap_err();
    assert!(matches!(e, RoomFieldError::RoomName));
    assert_eq!(e.message(), "房间名称长度必须在1-64字符之间");
    let long_path = "路".repeat(256);
    let e = validate_room_fields(&"名".repeat(64), &long_path).unwrap_err();
    assert!(matches!(e, RoomFieldError::PrimaryRoompath));
}

// --- errors ----------------------------------------------------------------

#[test]
fn error_messages_and_statuses() {
    let cases: Vec<(AppError, &str, u16, &str)> = vec![
        (AppError::Database("x".into()), "数据库错误: x", 500, "数据库操作失败"),
        (AppError::Config("x".into()), "配置错误: x", 500, "配置错误"),
        (AppError::Unauthorized("x".into()), "认证失败: x", 401, "x"),
        (AppError::Forbidden, "权限不足", 403, "权限不足"),
        (AppError::NotFound, "资源未找到", 404, "资源未找到"),
        (AppError::UserNotFriend { qq_number: "1".into() }, "用户未添加机器人为好友: 1", 400, "USER_NOT_FRIEND"),
        (AppError::Internal("x".into()), "内部服务器错误: x", 500, "x"),
        (AppError::Crawler("x".into()), "爬虫错误: x", 500, "爬虫服务错误"),
        (AppError::Redis("x".into()), "Redis错误: x", 500, "缓存服务错误"),
        (AppError::BadRequest("x".into()), "请求错误: x", 400, "x"),
    ];
    for (e, msg, code, label) in cases {
        assert_eq!(e.message(), msg);
        assert_eq!(e.status_code(), code);
        assert_eq!(e.error_label(), label);
    }
}

// --- login ---------------------------------------------------------------

#[test]
fn login_identity_rules() {
    let id = LoginIdentity::from_parts(None, Some("  12345 "), None, None).unwrap();
    assert_eq!(id.identifier, "12345");
    assert!(matches!(id.mode, LoginMode::Qq));
    match LoginIdentity::from_parts(None, Some("1234"), None, None) {
        Err(AppError::Unauthorized(m)) => assert_eq!(m, "QQ号必须为5-20位数字"),
        _ => panic!("expected QQ error"),
    }
    match LoginIdentity::from_parts(Some(LoginMode::Email), None, None, None) {
        Err(AppError::Unauthorized(m)) => assert_eq!(m, "请输入有效邮箱地址"),
        _ => panic!("expected email error"),
    }
    let e = LoginIdentity::from_parts(Some(LoginMode::Email), None, None, Some(" Student@Example.COM ")).unwrap();
    assert_eq!(e.identifier, "student@example.com");
    assert_eq!(e.provider(), "email");
}

#[test]
fn login_code_and_admin_override() {
    assert!(check_login_code("123456", 6).is_ok());
    match check_login_code("12a456", 6) {
        Err(AppError::Unauthorized(m)) => assert_eq!(m, "验证码必须为6位数字"),
        _ => panic!("expected code error"),
    }
    assert!(has_admin_override(" 10001 ", "10001"));
    assert!(!has_admin_override("CHANGE-THIS-QQ", "CHANGE-THIS-QQ"));
    assert!(!has_admin_override("  ", ""));
}

#[test]
fn refresh_cookie_and_user_ids() {
    assert_eq!(refresh_token_from_cookie(Some("a=1; refresh_token=abc; b=2")), Some("abc".to_string()));
    assert_eq!(refresh_token_from_cookie(None), None);
    let id: u128 = 0x67e55044_10b1_426f_9247_bb680e5fe0c8;
    let times = token_times(100, 2, 24);
    assert_eq!((times.iat, times.access_exp, times.refresh_exp, times.expires_in), (100, 7300, 86500, 7200));
    let claims = build_claims(&user(id, "user"), TokenKind::Refresh, &times);
    assert_eq!(claims.sub, "qq:123456");
    assert_eq!(claims.exp, 86500);
    let text = claims.user_id;
    assert_eq!(text, "67e55044-10b1-426f-9247-bb680e5fe0c8");
    assert_eq!(parse_user_id(&text).ok(), Some(id));
    match parse_user_id("not-a-uuid") {
        Err(AppError::Internal(m)) => assert_eq!(m, "无效的用户ID格式"),
        _ => panic!("expected id error"),
    }
}

#[test]
fn verification_codes_are_digits() {
    let svc = VerificationCodeService::new(electricity_monitor_backend::verification_code::VerificationConfig {
        code_length: 12,
        expire_seconds: 1,
    });
    let code = svc.generate_code();
    assert_eq!(code.chars().count(), 12);
    assert!(code.chars().all(|c| c.is_ascii_digit()));
    assert!(VerificationCodeService::code_matches(Some("123".to_string()), "123"));
    assert!(!VerificationCodeService::code_matches(None, "123"));
}

// --- captcha ---------------------------------------------------------------

#[test]
fn captcha_type_names_any_case() {
    assert!(matches!(parse_captcha_type("MATH"), Some(CaptchaType::Math)));
    assert!(matches!(parse_captcha_type("String"), Some(CaptchaType::String)));
    assert!(parse_captcha_type("audio").is_none());
}

#[test]
fn captcha_url_is_percent_encoded() {
    let url = captcha_verify_url("a b", "答", CaptchaType::Math);
    assert_eq!(url, "https://v2.xxapi.cn/api/captcha?id=a%20b&key=%E7%AD%94&type=math");
}

#[test]
fn captcha_answers() {
    let ok = ThirdPartyResponse { code: 200, msg: "ok".into(), data: None };
    assert!(captcha_check_result(200, Some(ok)).is_ok());
    match captcha_check_result(502, None) {
        Err(AppError::Internal(m)) => assert_eq!(m, "验证码服务暂时不可用"),
        _ => panic!("expected unavailable"),
    }
    match captcha_check_result(200, None) {
        Err(AppError::Internal(m)) => assert_eq!(m, "验证码服务响应格式错误"),
        _ => panic!("expected format error"),
    }
    let bad = ThirdPartyResponse { code: 400, msg: "no".into(), data: None };
    match captcha_check_result(200, Some(bad)) {
        Err(AppError::Unauthorized(m)) => assert_eq!(m, "验证码错误或已过期"),
        _ => panic!("expected wrong answer"),
    }
}

// --- binding proofs --------------------------------------------------------

#[test]
fn binding_proof_is_hmac_prefix_in_hex() {
    let secret = b"server-secret";
    let mut mac = <hmac::Hmac<sha2::Sha256> as Mac>::new_from_slice(secret).unwrap();
    Mac::update(&mut mac, b"room-binding:v1:-42");
    let digest = mac.finalize().into_bytes();
    let expected: String = digest[..6].iter().map(|b| format!("{:02X}", b)).collect();
    let code = room_binding_proof(secret, -42).ok().unwrap();
    assert_eq!(code, expected);
    assert_eq!(code.len(), 12);
    let typed = format!(" {}-{} ", code[..6].to_lowercase(), &code[6..]);
    assert!(validate_binding_proof(secret, -42, Some(&typed)).is_ok());
    assert!(matches!(validate_binding_proof(secret, -41, Some(&typed)), Err(AppError::Forbidden)));
    assert!(matches!(validate_binding_proof(secret, -42, None), Err(AppError::Forbidden)));
    assert!(matches!(validate_binding_proof(secret, -42, Some(" - ")), Err(AppError::Forbidden)));
}

#[test]
fn binding_proof_normalization_and_comparison() {
    assert_eq!(normalize_binding_proof(" ab-c\td "), "ABCD");
    assert_eq!(normalize_binding_proof("ß"), "SS");
    assert!(constant_time_eq(b"abc", b"abc"));
    assert!(!constant_time_eq(b"abc", b"abd"));
    assert!(!constant_time_eq(b"abc", b"abcd"));
}

#[test]
fn binding_access_rules() {
    assert!(check_binding_access(true, None, "u1", BindingAction::Delete).is_ok());
    assert!(check_binding_access(false, Some("u1"), "u1", BindingAction::View).is_ok());
    match check_binding_access(false, Some("u2"), "u1", BindingAction::Update) {
        Err(AppError::Unauthorized(m)) => assert_eq!(m, "无权修改该绑定"),
        _ => panic!("expected refusal"),
    }
    match check_binding_access(false, None, "u1", BindingAction::View) {
        Err(AppError::Internal(m)) => assert_eq!(m, "用户ID缺失"),
        _ => panic!("expected missing id"),
    }
    assert!(delete_outcome(1).is_ok());
    assert!(matches!(delete_outcome(0), Err(AppError::NotFound)));
}

// --- sync bookkeeping and public configuration ------------------------------

#[test]
fn sync_status_messages() {
    assert_eq!(sync_status_message(Some("boom"), true, "t"), "任务失败: boom");
    assert_eq!(sync_status_message(None, true, "t"), "任务已完成");
    assert_eq!(sync_status_message(None, false, "2024-01-01 00:00:00"), "任务运行中（开始于: 2024-01-01 00:00:00）");
    assert_eq!(pending_sync_status(), ("pending", "任务队列中，尚未开始执行"));
    let stats = SyncStats::new();
    assert!(chrono::DateTime::parse_from_rfc3339(&stats.started_at).is_ok());
    assert!(stats.started_at.ends_with("+00:00"));
    assert_eq!(&stats.started_at[10..11], "T");
    let mut done = SyncStats::new();
    done.complete();
    let end = done.completed_at.unwrap();
    assert!(chrono::DateTime::parse_from_rfc3339(&end).is_ok());
    assert!(end.ends_with("+00:00"));
}

#[test]
fn public_config_trims_qq_numbers() {
    let r = PublicConfigResponse::new(
        " 10001\n",
        "\t20002 ",
        PublicCaptchaConfig {
            api_url: "u".into(),
            request_timeout_seconds: 5,
            token_expire_seconds: 60,
            captcha_type: "math".into(),
            width: 120,
            height: 40,
            options: 1,
        },
        PublicVerificationConfig { code_length: 6, expire_seconds: 300 },
    );
    assert_eq!(r.notification.qq_bot_public_qq_number, "10001");
    assert_eq!(r.notification.admin_qq_number, "20002");
    assert_eq!(r.verification.code_length, 6);
}

#[test]
fn refresh_cookie_round_trip() {
    let set_cookie = build_refresh_cookie_header(" Lax ", 2, true, "tok.en").unwrap();
    assert_eq!(set_cookie, "refresh_token=tok.en; HttpOnly; Path=/api/auth; SameSite=Lax; Max-Age=7200; Secure");
    let pair = set_cookie.split(';').next().unwrap();
    assert_eq!(refresh_token_from_cookie(Some(pair)), Some("tok.en".to_string()));
    assert!(matches!(build_refresh_cookie_header("sideways", 2, true, "t"), Err(AppError::Internal(_))));
    assert_eq!(
        build_clear_refresh_cookie_header("strict", false).unwrap(),
        "refresh_token=; HttpOnly; Path=/api/auth; SameSite=Strict; Max-Age=0"
    );
}

#[test]
fn notification_round_sends_once() {
    let mut gate = NotificationGate::new(None);
    let users = vec![
        NotifyUser { id: 1, qq_number: Some("10001".to_string()), is_active: true },
        NotifyUser { id: 2, qq_number: None, is_active: true },
        NotifyUser { id: 3, qq_number: Some("10003".to_string()), is_active: false },
    ];
    let bindings = vec![
        NotifyBinding { user_id: 1, roomid: 5 },
        NotifyBinding { user_id: 2, roomid: 5 },
        NotifyBinding { user_id: 3, roomid: 5 },
        NotifyBinding { user_id: 4, roomid: 5 },
    ];
    let d = plan_room(&gate, &bindings, &users, 0);
    match &d[0] {
        BindingDecision::Send { user_id, qq_number } => assert_eq!((*user_id, qq_number.as_deref()), (1, Some("10001"))),
        _ => panic!("expected a send"),
    }
    match &d[1] {
        BindingDecision::Send { user_id, qq_number } => assert_eq!((*user_id, qq_number.as_deref()), (2, None)),
        _ => panic!("expected a send to the user without a number"),
    }
    assert!(matches!(d[2], BindingDecision::UserInactive));
    assert!(matches!(d[3], BindingDecision::UserMissing));
    // The send to user 2 cannot go out, whatever it reported: it fails.
    let o = record_room_results(&mut gate, 5, &d, &[true, true, false, false], 0);
    assert_eq!((o.sent, o.failed), (1, 1));
    let again = plan_room(&gate, &bindings, &users, 10_000_000);
    assert!(matches!(again[0], BindingDecision::Gated));
    assert!(matches!(again[1], BindingDecision::Send { .. }));

    let mut other = NotificationGate::new(None);
    let o = record_room_results(&mut other, 5, &d, &[false, false, false, false], 0);
    assert_eq!((o.sent, o.failed), (0, 2));
    assert!(matches!(plan_room(&other, &bindings, &users, 1)[0], BindingDecision::Send { .. }));
}

#[test]
fn notification_grouping_and_stats() {
    let b = vec![
        NotifyBinding { user_id: 1, roomid: 7 },
        NotifyBinding { user_id: 2, roomid: 5 },
        NotifyBinding { user_id: 1, roomid: 5 },
    ];
    let groups = group_bindings_by_room(&b);
    assert_eq!(groups.len(), 2);
    let total: usize = groups.iter().map(|g| g.bindings.len()).sum();
    assert_eq!(total, 3);
    let mut ids = distinct_user_ids(&b);
    ids.sort();
    assert_eq!(ids, vec![1, 2]);
    let outcomes = [RoomOutcome { sent: 3, failed: 1 }, RoomOutcome { sent: 1, failed: 0 }];
    let stats: NotificationStats = round_stats_for(4, &b, &outcomes, 12);
    assert_eq!((stats.total_rooms, stats.total_bindings, stats.total_sent, stats.duration_ms), (4, 3, 4, 12));
    assert_eq!(stats.total_failed, 1);
    assert!(round_shortcut(0, &b, 5).is_some());
    let none = round_shortcut(2, &[], 5).unwrap();
    assert_eq!((none.total_rooms, none.total_bindings, none.total_sent, none.duration_ms), (2, 0, 0, 5));
    assert!(round_shortcut(2, &b, 5).is_none());
    let empty = NotificationStats::empty();
    assert_eq!((empty.total_rooms, empty.total_sent, empty.total_failed), (0, 0, 0));
}

fn apply_ops(primary: &str, additional: &[&str], room: &RoomData) -> std::collections::BTreeSet<String> {
    let extra: Vec<String> = additional.iter().map(|s| s.to_string()).collect();
    let ops = prepare_room_update_ops(primary, &extra, extra.len() > 0, room);
    let mut set: std::collections::BTreeSet<String> = extra.iter().cloned().collect();
    for p in &ops.paths_to_add {
        set.insert(p.roompath.clone());
    }
    for p in &ops.paths_to_remove {
        set.remove(p);
    }
    match &ops.new_primary_path {
        Some((p, h)) => {
            assert_eq!(*h, calculate_roompath_hash(p));
            set.insert(p.clone());
        },
        None => {
            set.insert(primary.to_string());
        },
    }
    set
}

#[test]
fn update_ops_reproduce_crawled_paths() {
    let room = RoomData::new(5, vec!["A/1".to_string(), "B/1".to_string(), "C/1".to_string()]);
    let got = apply_ops("A/1", &["B/1", "D/1"], &room);
    let want: std::collections::BTreeSet<String> = ["A/1", "B/1", "C/1"].iter().map(|s| s.to_string()).collect();
    assert_eq!(got, want);

    let moved = RoomData::new(5, vec!["A/0".to_string(), "A/1".to_string()]);
    let got = apply_ops("A/1", &[], &moved);
    assert!(!got.contains("A/1"));
    assert!(got.contains("A/0"));
}

#[test]
fn sync_classification() {
    let latest = vec![RoomData::new(1, vec!["A/1".to_string()]), RoomData::new(2, vec!["A/2".to_string()]), RoomData::new(3, vec!["A/3".to_string(), "B/3".to_string()])];
    let existing = vec![room(1, "A/1"), room(3, "A/3")];
    let actions = classify_rooms(&latest, &existing);
    assert_eq!(actions, vec![SyncAction::Skip, SyncAction::Create, SyncAction::Update]);
    assert!(!needs_update(&existing[0], &latest[0]));
    assert!(needs_update(&room(1, "Z/1"), &latest[0]));
    assert_eq!(update_tally(1, 4, true), (4, 1));
    assert_eq!(update_tally(1, 4, false), (0, 5));
}

#[test]
fn path_listing_response() {
    let rooms = vec![RoomData::new(1, vec!["A/B/1".to_string()]), RoomData::new(2, vec!["A/C/2".to_string()])];
    let tree = RoomPathTree::build_from_rooms(&rooms);
    let kids = tree.query_children("A").unwrap();
    let r = electricity_monitor_backend::path_api::children_response("A", kids);
    assert_eq!((r.current_level, r.total_count), (1, 2));
    assert_eq!(r.children[0].name, "B");
    assert!(r.children[1].roomid.is_none());
    let root = electricity_monitor_backend::path_api::children_response("", tree.query_children("").unwrap());
    assert_eq!(root.current_level, 0);
    let h = electricity_monitor_backend::path_api::hash_response("A/B/1".to_string());
    assert_eq!(h.hash, calculate_roompath_hash("A/B/1"));
    let req = electricity_monitor_backend::binding::CreateBindingRequest {
        roomid: 1,
        notification_enabled: false,
        binding_proof: None,
    };
    assert!(req.validate().is_ok());
}

#[test]
fn node_and_room_counts() {
    let mut root = PathNode::new(String::new(), false);
    let mut building = PathNode::new("B".to_string(), false);
    let mut leaf = PathNode::new("101".to_string(), true);
    leaf.roomids = vec![1, 2];
    building.children.push(leaf);
    building.children.push(PathNode::new("102".to_string(), true));
    root.children.push(building);
    assert_eq!(root.count_nodes(), 4);
    assert_eq!(root.count_rooms(), 2);
}

#[test]
fn error_response_bodies() {
    let (code, body) = AppError::UserNotFriend { qq_number: "12345".into() }.response();
    assert_eq!(code, 400);
    assert_eq!(body.error, "USER_NOT_FRIEND");
    assert_eq!(body.message, "请先添加当前通知机器人为好友后再发送验证码");
    assert_eq!(body.qq_number.as_deref(), Some("12345"));
    assert_eq!(body.qq_bot.as_deref(), Some("100000002"));
    let (code, body) = AppError::NotFound.response();
    assert_eq!((code, body.error.as_str(), body.message.as_str()), (404, "资源未找到", "资源未找到"));
    assert!(body.qq_number.is_none() && body.qq_bot.is_none());
}

#[test]
fn issued_proof_shape() {
    let code = room_binding_proof(b"k", 7).ok().unwrap();
    assert_eq!(code.len(), 12);
    assert!(code.chars().all(|c| c.is_ascii_digit() || ('A'..='F').contains(&c)));
    assert_eq!(normalize_binding_proof(&code), code);
    assert_eq!(normalize_binding_proof("ab-12 cd"), "AB12CD");
}

#[test]
fn room_tree_text_errors_and_padding() {
    assert_eq!(parse_room_tree("not json").unwrap_err(), "JSON解析失败");
    assert_eq!(parse_room_tree("{}").unwrap_err(), "根节点应该是数组");
    assert_eq!(parse_room_tree("[{\"Items\": []}]").unwrap_err(), "解析校区失败: 校区Name字段不存在或非字符串");
    let plain = parse_room_tree("[{\"Name\":\"C\",\"Items\":[{\"Name\":\"B\",\"Items\":[{\"Name\":\"F\",\"Items\":[{\"Name\":\"1\",\"Value\":\"9\"}]}]}]}]").unwrap();
    let padded = parse_room_tree("\u{FEFF}\u{FEFF} \n[{\"Name\":\"C\",\"Items\":[{\"Name\":\"B\",\"Items\":[{\"Name\":\"F\",\"Items\":[{\"Name\":\"1\",\"Value\":\"9\"}]}]}]}]\t ").unwrap();
    assert_eq!(plain, padded);
    assert_eq!(plain, vec![("C/B/F/1".to_string(), "9".to_string())]);
    let floor = electricity_monitor_backend::crawler::safe_parse("{\"Name\":\"F\",\"Items\":[{\"Name\":\"1\"}]}").unwrap();
    assert_eq!(parse_floor_rooms(&floor, "B").unwrap_err(), "房间Value字段不存在");
}

#[test]
fn double_encoded_answer_is_decoded_again() {
    let v = electricity_monitor_backend::crawler::safe_parse(r#""{\"key\": \"value\"}""#).unwrap();
    assert_eq!(v.get("key").and_then(|x| x.as_str()), Some("value"));
    // A string whose contents are not JSON stays that string.
    let s = electricity_monitor_backend::crawler::safe_parse(r#"  "hello" "#).unwrap();
    assert_eq!(s.as_str(), Some("hello"));
    let tree = "[{\"Name\":\"C\",\"Items\":[{\"Name\":\"B\",\"Items\":[{\"Name\":\"F\",\"Items\":[{\"Name\":\"1\",\"Value\":\"9\"}]}]}]}]";
    let encoded = sonic_rs::to_string(tree).unwrap();
    assert_eq!(parse_room_tree(&encoded).unwrap(), vec![("C/B/F/1".to_string(), "9".to_string())]);
}

#[test]
fn room_data_normalized_twice_is_unchanged() {
    let r = RoomData::new(7, vec!["b/2".to_string(), "a/1".to_string(), "b/2".to_string()]);
    let again = RoomData::new(r.roomid, r.roompaths.clone());
    assert_eq!(again.roompaths, r.roompaths);
    assert_eq!(again.primary_roompath, r.primary_roompath);
    assert_eq!(again.path_count, r.path_count);
    assert_eq!(r.roompaths, vec!["a/1".to_string(), "b/2".to_string()]);
    let empty = RoomData::new(9, Vec::new());
    let empty_again = RoomData::new(empty.roomid, empty.roompaths.clone());
    assert_eq!(empty_again.primary_roompath, "未知路径/9");
    assert_eq!(empty_again.path_count, 0);
}

#[test]
fn cache_user_hits_until_dropped_then_misses() {
    let mut cache = NotificationCache::new(Some(3), Some(3), Some(60));
    cache.set_user(user(1, "admin"), 0);
    cache.set_user(user(2, "user"), 0);
    assert!(cache.get_user(2, 10).is_some());
    cache.invalidate_user(2);
    cache.set_user(user(3, "user"), 5);
    assert_eq!(cache.get_user(1, 60_000).unwrap().role, "admin");
    let s = cache.get_stats();
    assert_eq!((s.user_hits, s.user_misses), (2, 0));
    cache.clear_all();
    assert!(cache.get_user(1, 60_000).is_none());
    assert!(cache.get_user(1, 0).is_none());
    let s = cache.get_stats();
    assert_eq!((s.user_hits, s.user_misses), (2, 2));
}

#[test]
fn issued_tokens_carry_the_claims() {
    let u = user(0x0123_4567_89ab_cdef_0123_4567_89ab_cdef, "admin");
    let times = token_times(1_700_000_000, 2, 24);
    let (access, refresh, expires_in) = issue_tokens(&u, &times, b"secret").unwrap();
    assert_eq!(expires_in, 7200);
    assert_eq!(access.split('.').count(), 3);
    let mut validation = jsonwebtoken::Validation::new(jsonwebtoken::Algorithm::HS256);
    validation.validate_exp = false;
    validation.required_spec_claims.clear();
    let key = jsonwebtoken::DecodingKey::from_secret(b"secret");
    let a = jsonwebtoken::decode::<serde_json::Value>(&access, &key, &validation).unwrap().claims;
    assert_eq!(a["sub"], "qq:123456");
    assert_eq!(a["user_id"], "01234567-89ab-cdef-0123-456789abcdef");
    assert_eq!(a["role"], "admin");
    assert_eq!(a["token_kind"], "access");
    assert_eq!(a["exp"], 1_700_007_200u64);
    assert_eq!(a["iat"], 1_700_000_000u64);
    let f = jsonwebtoken::decode::<serde_json::Value>(&refresh, &key, &validation).unwrap().claims;
    assert_eq!(f["token_kind"], "refresh");
    assert_eq!(f["exp"], 1_700_086_400u64);
    let wrong = jsonwebtoken::DecodingKey::from_secret(b"other");
    assert!(jsonwebtoken::decode::<serde_json::Value>(&access, &wrong, &validation).is_err());
}

#[test]
fn user_id_forms_the_parser_reads() {
    let id: u128 = 0x550e8400_e29b_41d4_a716_446655440000;
    assert_eq!(parse_user_id("550e8400-e29b-41d4-a716-446655440000").ok(), Some(id));
    assert_eq!(parse_user_id("550E8400E29B41D4A716446655440000").ok(), Some(id));
    assert_eq!(parse_user_id("{550e8400-e29b-41d4-a716-446655440000}").ok(), Some(id));
    assert_eq!(parse_user_id("URN:uuid:550e8400-e29b-41d4-a716-446655440000").ok(), Some(id));
    assert!(parse_user_id("550e8400-e29b-41d4-a716-44665544000g").is_err());
    assert!(parse_user_id("550e8400e29b-41d4-a716-4466554400000").is_err());
    assert!(parse_user_id("").is_err());
}

#[test]
fn normalizing_ascii_proof_twice_is_once() {
    for typed in ["ab-12 cd", " -x\tY\nz\r- ", "A1B2-C3D4-E5F6", "{weird}!"] {
        let once = normalize_binding_proof(typed);
        assert_eq!(normalize_binding_proof(&once), once);
    }
    assert_eq!(normalize_binding_proof(" -x\tY\nz\r- "), "XYZ");
}
