//! The checks of the room endpoints: paging bounds and the lengths of a
//! new room's name and path.

use vstd::prelude::*;
use crate::errors::AppError;
use crate::text::char_count;
use crate::path_tree::{calculate_roompath_hash, spec_roompath_hash};
use crate::room_sync::NewRoomPlan;

verus! {

/// The smallest page.
pub const MIN_PAGE_LIMIT: i64 = 1;
/// The largest page.
pub const MAX_PAGE_LIMIT: i64 = 100;
/// The largest offset.
pub const MAX_PAGE_OFFSET: i64 = 10000;

/// Paging of a room listing.
#[derive(Debug)]
pub struct PaginationQuery {
    /// Rooms per page.
    pub limit: i64,
    /// Rooms skipped.
    pub offset: i64,
}

/// The page size when the query names none.
pub fn default_limit() -> (r: i64)
    ensures
        r == 20,
{
    20
}

impl PaginationQuery {
    /// The paging of a query that names neither bound: the default page
    /// size from the start.
    pub fn new() -> (r: PaginationQuery)
        ensures
            r.limit == 20,
            r.offset == 0,
    {
        PaginationQuery { limit: default_limit(), offset: 0 }
    }

    /// Accepts a limit of 1 to 100 and an offset of 0 to 10000; the limit
    /// is checked first.
    pub fn validate(&self) -> (r: Result<(), AppError>)
        ensures
            !(1 <= self.limit <= 100) ==> (r matches Err(AppError::BadRequest(m)) && m@ == "limit必须在1到100之间"@),
            1 <= self.limit <= 100 && !(0 <= self.offset <= 10000) ==> (r matches Err(AppError::BadRequest(m))
                && m@ == "offset必须在0到10000之间"@),
            1 <= self.limit <= 100 && 0 <= self.offset <= 10000 ==> r is Ok,
    {
        proof {
            reveal_strlit("limit必须在1到100之间");
            reveal_strlit("offset必须在0到10000之间");
        }
        if !(MIN_PAGE_LIMIT <= self.limit && self.limit <= MAX_PAGE_LIMIT) {
            return Err(AppError::BadRequest("limit必须在1到100之间".to_owned()));
        }
        if !(0 <= self.offset && self.offset <= MAX_PAGE_OFFSET) {
            return Err(AppError::BadRequest("offset必须在0到10000之间".to_owned()));
        }
        Ok(())
    }
}

/// A room name has 1 to 64 characters.
pub open spec fn room_name_valid(name: Seq<char>) -> bool {
    1 <= name.len() <= 64
}

/// A room path has 1 to 255 characters.
pub open spec fn roompath_valid(path: Seq<char>) -> bool {
    1 <= path.len() <= 255
}

/// What is wrong with a new room's text fields.
#[derive(Debug)]
pub enum RoomFieldError {
    /// The name is empty or longer than 64 characters.
    RoomName,
    /// The path is empty or longer than 255 characters.
    PrimaryRoompath,
}

impl RoomFieldError {
    /// The message the request's validation gives for the field.
    pub fn message(&self) -> (r: &'static str)
        ensures
            *self == RoomFieldError::RoomName ==> r@ == "房间名称长度必须在1-64字符之间"@,
            *self == RoomFieldError::PrimaryRoompath ==> r@ == "房间路径长度必须在1-255字符之间"@,
    {
        match self {
            RoomFieldError::RoomName => "房间名称长度必须在1-64字符之间",
            RoomFieldError::PrimaryRoompath => "房间路径长度必须在1-255字符之间",
        }
    }
}

/// Checks the lengths of a new room's name and primary path; the
/// threshold's sign is checked where it is read.
pub fn validate_room_fields(room_name: &str, primary_roompath: &str) -> (r: Result<(), RoomFieldError>)
    ensures
        !room_name_valid(room_name@) ==> r == Err::<(), RoomFieldError>(RoomFieldError::RoomName),
        room_name_valid(room_name@) && !roompath_valid(primary_roompath@) ==> r == Err::<(), RoomFieldError>(
            RoomFieldError::PrimaryRoompath,
        ),
        room_name_valid(room_name@) && roompath_valid(primary_roompath@) ==> r is Ok,
{
    let n = char_count(room_name);
    if !(1 <= n && n <= 64) {
        return Err(RoomFieldError::RoomName);
    }
    let p = char_count(primary_roompath);
    if !(1 <= p && p <= 255) {
        return Err(RoomFieldError::PrimaryRoompath);
    }
    Ok(())
}

/// The room a manual creation request stores (its balance and threshold
/// are set by the caller): its fields checked, the path hashed, active,
/// without extra paths, from a manual entry.
pub fn plan_manual_room(roomid: i64, room_name: String, primary_roompath: String) -> (r: Result<
    NewRoomPlan,
    RoomFieldError,
>)
    ensures
        match r {
            Ok(p) => room_name_valid(room_name@) && roompath_valid(primary_roompath@) && p.roomid == roomid
                && p.room_name@ == room_name@ && p.primary_roompath@ == primary_roompath@ && p.primary_roompath_hash
                == spec_roompath_hash(primary_roompath@) && !p.has_additional_paths && p.is_active
                && p.source_type@ == "manual"@,
            Err(e) => (!room_name_valid(room_name@) && e == RoomFieldError::RoomName) || (room_name_valid(
                room_name@,
            ) && !roompath_valid(primary_roompath@) && e == RoomFieldError::PrimaryRoompath),
        },
{
    match validate_room_fields(room_name.as_str(), primary_roompath.as_str()) {
        Err(e) => Err(e),
        Ok(()) => {
            let h = calculate_roompath_hash(primary_roompath.as_str());
            Ok(
                NewRoomPlan {
                    roomid,
                    room_name,
                    primary_roompath,
                    primary_roompath_hash: h,
                    has_additional_paths: false,
                    is_active: true,
                    source_type: "manual".to_owned(),
                },
            )
        },
    }
}

} // verus!
