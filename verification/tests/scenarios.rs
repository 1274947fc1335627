use electricity_monitor_backend::auth::{default_true, default_user_role, NewUser, User};
use electricity_monitor_backend::binding::NewUserRoomBinding;
use electricity_monitor_backend::captcha::VerifyCaptchaRequest;
use electricity_monitor_backend::crawler::{parse_room_tree, safe_parse};
use electricity_monitor_backend::electricity::{BatchConfig, FetchStatistics};
use electricity_monitor_backend::notification_gate::NotificationGate;
use electricity_monitor_backend::path_tree::{calculate_roompath_hash, PathNode, RoomPathTree};
use electricity_monitor_backend::rate_limit::{RateLimitConfig, RateLimitOperation, RateLimiter};
use electricity_monitor_backend::room_aggregate::{RoomAggregate, RoomPath};
use electricity_monitor_backend::room_client::retry_delay_secs;
use electricity_monitor_backend::room_data::{group_by_roomid_from_info, MergeStatistics, RoomData, RoomInfo};
use electricity_monitor_backend::room_sync::{ExistingRoom, SyncStats};
use electricity_monitor_backend::verification_code::{VerificationCodeService, VerificationConfig};

fn info(path: &str, id: &str) -> RoomInfo {
    RoomInfo { roompath: path.to_string(), roomid: id.to_string() }
}

fn one_path_room(roomid: i64, path: &str) -> RoomData {
    RoomData::new(roomid, vec![path.to_string()])
}

fn mock_rooms() -> Vec<RoomData> {
    vec![
        one_path_room(101, "箭盘校区/北区12栋/三楼/B12313"),
        one_path_room(102, "箭盘校区/北区12栋/三楼/B12314"),
        one_path_room(103, "东环校区/南区5栋/二楼/A201"),
    ]
}

fn test_room() -> ExistingRoom {
    ExistingRoom { roomid: 123, primary_roompath: "桂林/雁山/05栋/0501".to_string(), has_additional_paths: false }
}

fn test_path(roomid: i64, roompath: &str) -> RoomPath {
    RoomPath {
        roomid,
        roompath: roompath.to_string(),
        roompath_hash: 67890,
        room_name: "测试房间".to_string(),
        source_type: "api_sync".to_string(),
    }
}

fn user(role: &str, provider: &str, qq: Option<&str>, email: Option<&str>) -> User {
    User {
        id: 7,
        qq_number: qq.map(|s| s.to_string()),
        role: role.to_string(),
        is_active: true,
        login_provider: provider.to_string(),
        email: email.map(|s| s.to_string()),
    }
}


#[test]
fn test_fetch_statistics() {
    let stats = FetchStatistics { success_count: 100, failure_count: 5, updated_count: 98, duration_ms: 5000 };

    assert_eq!(stats.success_count, 100);
    assert_eq!(stats.failure_count, 5);
    assert_eq!(stats.updated_count, 98);
    assert_eq!(stats.duration_ms, 5000);
}

#[test]
fn test_batch_config_default() {
    let config = BatchConfig::default();
    assert_eq!(config.batch_size, 100);
    assert_eq!(config.batch_wait_ms, 50);
    assert_eq!(config.empty_queue_wait_ms, 1000);
}

#[test]
fn test_rate_limit_config_validation() {
    let config = RateLimitConfig { insert_per_second: 10, query_per_second: 5 };

    assert!(config.insert_per_second > 0);
    assert!(config.query_per_second > 0);
    assert!(config.insert_per_second > config.query_per_second);
}

#[test]
fn test_rate_limit_key_generation() {
    let timestamp = 1234567890;

    let insert_key = RateLimiter::counter_key(RateLimitOperation::Insert, timestamp);
    let query_key = RateLimiter::counter_key(RateLimitOperation::Query, timestamp);

    assert!(insert_key.starts_with("ratelimit:insert:"));
    assert!(query_key.starts_with("ratelimit:query:"));
    assert_ne!(insert_key, query_key);
    assert_eq!(insert_key, format!("ratelimit:insert:{}", timestamp));
    assert_eq!(query_key, format!("ratelimit:query:{}", timestamp));
}

#[test]
fn test_path_node_creation() {
    let node = PathNode::new("测试节点".to_string(), false);
    assert_eq!(node.name, "测试节点");
    assert!(!node.is_leaf);
    assert_eq!(node.children.len(), 0);
    assert_eq!(node.roomids.len(), 0);
}

#[test]
fn test_path_node_room_count() {
    let mut root = PathNode::new("root".to_string(), false);
    let mut child = PathNode::new("child".to_string(), true);
    child.roomids = vec![101, 102];
    root.children.push(child);

    assert_eq!(root.count_rooms(), 2);
}

#[test]
fn test_build_from_rooms() {
    let rooms = mock_rooms();
    let tree = RoomPathTree::build_from_rooms(&rooms);

    let root_children = tree.query_children("").unwrap();
    assert_eq!(root_children.len(), 2);
    assert!(root_children.iter().any(|c| c.name == "箭盘校区"));
    assert!(root_children.iter().any(|c| c.name == "东环校区"));
}

#[test]
fn test_query_children_root() {
    let rooms = mock_rooms();
    let tree = RoomPathTree::build_from_rooms(&rooms);

    let children = tree.query_children("").unwrap();
    assert_eq!(children.len(), 2);
    assert_eq!(children[0].name, "东环校区");
    assert_eq!(children[1].name, "箭盘校区");
}

#[test]
fn test_query_children_nested() {
    let rooms = mock_rooms();
    let tree = RoomPathTree::build_from_rooms(&rooms);

    let buildings = tree.query_children("箭盘校区").unwrap();
    assert_eq!(buildings.len(), 1);
    assert_eq!(buildings[0].name, "北区12栋");
    assert_eq!(buildings[0].room_count, 2);
}

#[test]
fn test_find_roomid_by_path() {
    let rooms = mock_rooms();
    let tree = RoomPathTree::build_from_rooms(&rooms);

    let roomid = tree.find_roomid_by_path("箭盘校区/北区12栋/三楼/B12313");
    assert_eq!(roomid, Some(101));

    let not_found = tree.find_roomid_by_path("不存在/路径");
    assert_eq!(not_found, None);
}

#[test]
fn test_find_roomid_by_hash() {
    let rooms = mock_rooms();
    let tree = RoomPathTree::build_from_rooms(&rooms);

    let path = "箭盘校区/北区12栋/三楼/B12313";
    let hash = calculate_roompath_hash(path);

    let roomid = tree.find_roomid_by_hash(hash, path);
    assert_eq!(roomid, Some(101));

    let wrong_path = tree.find_roomid_by_hash(hash, "错误路径");
    assert_eq!(wrong_path, None);
}

#[test]
fn test_query_children_invalid_path() {
    let rooms = mock_rooms();
    let tree = RoomPathTree::build_from_rooms(&rooms);

    let result = tree.query_children("不存在的校区");
    assert!(result.is_err());
}

#[test]
fn test_retry_backoff_calculation() {
    let delay1 = std::time::Duration::from_secs(retry_delay_secs(1));
    let delay2 = std::time::Duration::from_secs(retry_delay_secs(2));
    let delay3 = std::time::Duration::from_secs(retry_delay_secs(3));

    assert_eq!(delay1.as_secs(), 1);
    assert_eq!(delay2.as_secs(), 2);
    assert_eq!(delay3.as_secs(), 4);
    assert_eq!(retry_delay_secs(1), 2_u64.pow(0));
    assert_eq!(retry_delay_secs(3), 2_u64.pow(2));
}

#[test]
fn test_room_data_new() {
    let paths = vec![
        "桂林/雁山/05栋/0501".to_string(),
        "广西/桂林/雁山/05栋/0501".to_string(),
        "桂林/雁山/05栋/0501".to_string(),
    ];

    let room = RoomData::new(101, paths);

    assert_eq!(room.roomid, 101);
    assert_eq!(room.path_count, 2);
    assert_eq!(room.roompaths.len(), 2);
    assert_eq!(room.primary_roompath, "广西/桂林/雁山/05栋/0501");
    assert!(room.has_additional_paths());
}

#[test]
fn test_room_data_single_path() {
    let paths = vec!["桂林/雁山/05栋/0501".to_string()];
    let room = RoomData::new(101, paths);

    assert_eq!(room.path_count, 1);
    assert!(!room.has_additional_paths());
}

#[test]
fn test_room_data_empty_paths() {
    let paths = vec![];
    let room = RoomData::new(101, paths);

    assert_eq!(room.path_count, 0);
    assert_eq!(room.primary_roompath, "未知路径/101");
}

#[test]
fn test_merge_statistics_calculate() {
    let merged = vec![
        RoomData::new(101, vec!["path1".to_string()]),
        RoomData::new(102, vec!["path2".to_string(), "path3".to_string()]),
        RoomData::new(103, vec!["path4".to_string()]),
    ];

    let stats = MergeStatistics::calculate(10, &merged, 2);

    assert_eq!(stats.raw_count, 10);
    assert_eq!(stats.unique_roomid_count, 3);
    assert_eq!(stats.multi_path_count, 1);
    assert_eq!(stats.max_paths, 2);
    assert_eq!(stats.parse_error_count, 2);
    let avg_paths = stats.total_paths as f64 / stats.unique_roomid_count as f64;
    assert!((avg_paths - 1.33).abs() < 0.01);
}

#[test]
fn test_group_by_roomid_normal() {
    let raw = vec![info("path1", "101"), info("path2", "102"), info("path3", "103")];

    let (merged, stats) = group_by_roomid_from_info(raw).unwrap();

    assert_eq!(merged.len(), 3);
    assert_eq!(stats.raw_count, 3);
    assert_eq!(stats.unique_roomid_count, 3);
    assert_eq!(stats.multi_path_count, 0);
    assert_eq!(stats.parse_error_count, 0);
}

#[test]
fn test_group_by_roomid_with_duplicates() {
    let raw = vec![info("path1", "101"), info("path2", "101"), info("path3", "102")];

    let (merged, stats) = group_by_roomid_from_info(raw).unwrap();

    assert_eq!(merged.len(), 2);
    assert_eq!(stats.multi_path_count, 1);

    let room_101 = merged.iter().find(|r| r.roomid == 101).unwrap();
    assert_eq!(room_101.path_count, 2);
}

#[test]
fn test_group_by_roomid_with_parse_errors() {
    let raw = vec![info("path1", "101"), info("path2", "invalid"), info("path3", "abc123")];

    let (merged, stats) = group_by_roomid_from_info(raw).unwrap();

    assert_eq!(merged.len(), 1);
    assert_eq!(stats.parse_error_count, 2);
}

#[test]
fn test_group_by_roomid_accepts_large_upay_room_id() {
    let raw = vec![info("文昌校区/北区4栋公寓/107", "982318536531644416")];

    let (merged, stats) = group_by_roomid_from_info(raw).unwrap();

    assert_eq!(merged.len(), 1);
    assert_eq!(merged[0].roomid.to_string(), "982318536531644416");
    assert_eq!(stats.parse_error_count, 0);
}

#[test]
fn test_group_by_roomid_deduplication() {
    let raw = vec![info("path1", "101"), info("path1", "101"), info("path2", "101")];

    let (merged, _stats) = group_by_roomid_from_info(raw).unwrap();

    assert_eq!(merged.len(), 1);

    let room_101 = &merged[0];
    assert_eq!(room_101.path_count, 2);
}

#[test]
fn test_safe_parse_normal() {
    let json = r#"{"key": "value"}"#;
    let result = safe_parse(json);
    assert!(result.is_some());
}

#[test]
fn test_safe_parse_with_bom() {
    let json = "\u{FEFF}{\"key\": \"value\"}";
    let result = safe_parse(json);
    assert!(result.is_some());
}

#[test]
fn test_safe_parse_double_encoded() {
    let json = r#""{\"key\": \"value\"}""#;
    let result = safe_parse(json);
    assert!(result.is_some());
}

#[test]
fn test_safe_parse_with_whitespace() {
    let json = "  \n\t{\"key\": \"value\"}  \n";
    let result = safe_parse(json);
    assert!(result.is_some());
}

#[test]
fn test_parse_room_tree() {
    let json = r#"[
            {
                "Name": "桂林",
                "Items": [
                    {
                        "Name": "05栋",
                        "Items": [
                            {
                                "Name": "5楼",
                                "Items": [
                                    {"Name": "0501", "Value": "101"},
                                    {"Name": "0502", "Value": "102"}
                                ]
                            }
                        ]
                    }
                ]
            }
        ]"#;

    let result = parse_room_tree(json);
    assert!(result.is_ok());

    let rooms = result.unwrap();
    assert_eq!(rooms.len(), 2);
    assert_eq!(rooms[0].0, "桂林/05栋/5楼/0501");
    assert_eq!(rooms[0].1, "101");
}

#[test]
fn test_sync_stats_new() {
    let stats = SyncStats::new();
    assert_eq!(stats.new, 0);
    assert_eq!(stats.updated, 0);
    assert_eq!(stats.failed, 0);
    assert_eq!(stats.total, 0);
    assert!(stats.completed_at.is_none());
}

#[test]
fn test_sync_stats_complete() {
    let mut stats = SyncStats::new();
    stats.complete();
    assert!(stats.completed_at.is_some());
}

#[test]
fn test_generate_code() {
    let config = VerificationConfig::default();
    let service = VerificationCodeService::new(config);

    let code = service.generate_code();
    assert_eq!(code.len(), 6);
    assert!(code.chars().all(|c| c.is_ascii_digit()));
}

#[test]
fn test_redis_key_generation() {
    let config = VerificationConfig::default();
    let key = config.redis_key("123456");
    assert_eq!(key, "verify:qq:123456");
    assert_eq!(config.redis_key_for("email", "student@example.com"), "verify:email:student@example.com");
}

#[test]
fn test_verify_request_validation() {
    let valid_request = VerifyCaptchaRequest {
        id: "test_id".to_string(),
        key: "123".to_string(),
        captcha_type: "math".to_string(),
    };

    assert!(valid_request.validate().is_ok());

    let invalid_request = VerifyCaptchaRequest {
        id: "".to_string(),
        key: "123".to_string(),
        captcha_type: "math".to_string(),
    };

    assert!(invalid_request.validate().is_err());
}

#[test]
fn test_is_admin() {
    let admin = user("admin", "qq", Some("123456"), None);

    assert!(admin.is_admin());
    assert!(!admin.is_user());
}

#[test]
fn test_is_user() {
    let u = user("user", "qq", Some("123456"), None);

    assert!(!u.is_admin());
    assert!(u.is_user());
}

#[test]
fn test_new_user_defaults() {
    let new_user = NewUser {
        qq_number: Some("123456".to_string()),
        role: default_user_role(),
        is_active: default_true(),
        login_provider: "qq".to_string(),
        email: None,
    };

    assert_eq!(new_user.role, "user");
    assert!(new_user.is_active);
}

#[test]
fn test_email_identifier_subject() {
    let u = user("user", "email", None, Some("student@example.com"));

    assert!(u.is_email_login());
    assert_eq!(u.identifier(), "student@example.com");
    assert_eq!(u.identity_subject(), "email:student@example.com");
}

#[test]
fn test_new_binding_defaults() {
    let binding = NewUserRoomBinding { user_id: 42, roomid: 101, notification_enabled: default_true() };

    assert!(binding.notification_enabled);
}

#[test]
fn test_binding_validation() {
    let binding = NewUserRoomBinding { user_id: 42, roomid: 101, notification_enabled: true };

    assert!(binding.validate().is_ok());
}

#[test]
fn test_aggregate_creation() {
    let room = test_room();
    let paths = vec![test_path(123, "桂林/雁山/05栋/05楼/0501")];

    let aggregate = RoomAggregate::new(room, paths);

    assert_eq!(aggregate.total_path_count(), 2);
    assert!(aggregate.has_additional_paths());
}

#[test]
fn test_all_roompaths() {
    let room = test_room();
    let paths = vec![test_path(123, "桂林/雁山/05栋/05楼/0501"), test_path(123, "广西/桂林/雁山/05栋/0501")];

    let aggregate = RoomAggregate::new(room, paths);
    let all_paths = aggregate.all_roompaths();

    assert_eq!(all_paths.len(), 3);
    assert_eq!(all_paths[0], "桂林/雁山/05栋/0501");
}

#[test]
fn test_no_additional_paths() {
    let room = test_room();
    let aggregate = RoomAggregate::new(room, vec![]);

    assert_eq!(aggregate.total_path_count(), 1);
    assert!(!aggregate.has_additional_paths());
}

#[test]
fn test_first_notification_allowed() {
    let gate = NotificationGate::new(None);
    let user_id = 1u128;

    assert!(gate.should_notify(user_id, 101, 0));
}

#[test]
fn test_duplicate_notification_blocked() {
    let mut gate = NotificationGate::new(None);
    let user_id = 1u128;

    assert!(gate.should_notify(user_id, 101, 0));
    gate.mark_notified(user_id, 101, 0);
    assert!(!gate.should_notify(user_id, 101, 10));
}

#[test]
fn test_notification_reset_after_recovery() {
    let mut gate = NotificationGate::new(Some(100));
    let user_id = 1u128;

    assert!(gate.should_notify(user_id, 101, 1000));
    gate.mark_notified(user_id, 101, 1000);

    assert!(!gate.should_notify(user_id, 101, 1001));

    gate.update_recovery_state(&[101], 1010);

    assert!(!gate.should_notify(user_id, 101, 1011));

    assert!(gate.should_notify(user_id, 101, 1160));
}

#[test]
fn test_cleanup_expired_rooms() {
    let mut gate = NotificationGate::new(Some(100));
    let user_id = 1u128;

    gate.mark_notified(user_id, 101, 1000);

    gate.update_recovery_state(&[101], 1000);

    let cleaned = gate.cleanup_recovered(1001);
    assert_eq!(cleaned, 0);

    let cleaned = gate.cleanup_recovered(1150);
    assert_eq!(cleaned, 1);

    let (history_count, recovery_count) = gate.stats();
    assert_eq!(history_count, 0);
    assert_eq!(recovery_count, 0);
}

#[test]
fn test_multiple_users_same_room() {
    let mut gate = NotificationGate::new(None);
    let user1 = 1u128;
    let user2 = 2u128;

    assert!(gate.should_notify(user1, 101, 0));
    gate.mark_notified(user1, 101, 0);

    assert!(!gate.should_notify(user1, 101, 1));

    assert!(gate.should_notify(user2, 101, 1));
}
