//! Verified core of the electricity monitor backend: room-tree merging,
//! the room path index, the notification gate and alert planning, the
//! notification caches, login identity handling, binding proofs, room
//! synchronisation plans and the small decision procedures of the services.

pub mod text;
pub mod room_data;
pub mod notification_gate;
pub mod path_tree;
pub mod errors;
pub mod auth;
pub mod notification_plan;
pub mod captcha;
pub mod rate_limit;
pub mod verification_code;
pub mod room_sync;
pub mod crawler;
pub mod binding;
pub mod electricity;
pub mod room_client;
pub mod room_api;
pub mod room_aggregate;
pub mod public_config;
pub mod notification_cache;
pub mod room_sync_cache;
pub mod roomid_cache;
pub mod path_api;
