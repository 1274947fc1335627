//! The application's error type, with the status code, label and message
//! that an HTTP response built from it carries.

use vstd::prelude::*;
use crate::text::concat_str;

verus! {

/// An error of the application.
#[derive(Debug)]
pub enum AppError {
    /// A database operation failed; the text describes it.
    Database(String),
    /// The configuration is invalid.
    Config(String),
    /// Authentication failed.
    Unauthorized(String),
    /// The caller may not do this.
    Forbidden,
    /// The resource does not exist.
    NotFound,
    /// The user has not added the notification bot as a friend.
    UserNotFriend { qq_number: String },
    /// An internal error.
    Internal(String),
    /// The room crawler failed.
    Crawler(String),
    /// The cache service failed.
    Redis(String),
    /// The request is malformed.
    BadRequest(String),
}

/// The text of an error (its `Display`).
pub open spec fn spec_error_message(e: AppError) -> Seq<char> {
    match e {
        AppError::Database(m) => "数据库错误: "@ + m@,
        AppError::Config(m) => "配置错误: "@ + m@,
        AppError::Unauthorized(m) => "认证失败: "@ + m@,
        AppError::Forbidden => "权限不足"@,
        AppError::NotFound => "资源未找到"@,
        AppError::UserNotFriend { qq_number } => "用户未添加机器人为好友: "@ + qq_number@,
        AppError::Internal(m) => "内部服务器错误: "@ + m@,
        AppError::Crawler(m) => "爬虫错误: "@ + m@,
        AppError::Redis(m) => "Redis错误: "@ + m@,
        AppError::BadRequest(m) => "请求错误: "@ + m@,
    }
}

/// The HTTP status of the response to an error.
pub open spec fn spec_status_code(e: AppError) -> u16 {
    match e {
        AppError::Unauthorized(_) => 401,
        AppError::Forbidden => 403,
        AppError::NotFound => 404,
        AppError::UserNotFriend { .. } => 400,
        AppError::BadRequest(_) => 400,
        _ => 500,
    }
}

/// The `error` field of the response to an error: a fixed label, or the
/// error's own text where the client may see it.
pub open spec fn spec_error_label(e: AppError) -> Seq<char> {
    match e {
        AppError::Database(_) => "数据库操作失败"@,
        AppError::Config(_) => "配置错误"@,
        AppError::Unauthorized(m) => m@,
        AppError::Forbidden => "权限不足"@,
        AppError::NotFound => "资源未找到"@,
        AppError::UserNotFriend { .. } => "USER_NOT_FRIEND"@,
        AppError::Internal(m) => m@,
        AppError::Crawler(_) => "爬虫服务错误"@,
        AppError::Redis(_) => "缓存服务错误"@,
        AppError::BadRequest(m) => m@,
    }
}

impl AppError {
    /// The text of the error.
    pub fn message(&self) -> (r: String)
        ensures
            r@ == spec_error_message(*self),
    {
        match self {
            AppError::Database(m) => concat_str("数据库错误: ", m.as_str()),
            AppError::Config(m) => concat_str("配置错误: ", m.as_str()),
            AppError::Unauthorized(m) => concat_str("认证失败: ", m.as_str()),
            AppError::Forbidden => "权限不足".to_owned(),
            AppError::NotFound => "资源未找到".to_owned(),
            AppError::UserNotFriend { qq_number } => concat_str("用户未添加机器人为好友: ", qq_number.as_str()),
            AppError::Internal(m) => concat_str("内部服务器错误: ", m.as_str()),
            AppError::Crawler(m) => concat_str("爬虫错误: ", m.as_str()),
            AppError::Redis(m) => concat_str("Redis错误: ", m.as_str()),
            AppError::BadRequest(m) => concat_str("请求错误: ", m.as_str()),
        }
    }

    /// The HTTP status of the response to the error.
    pub fn status_code(&self) -> (r: u16)
        ensures
            r == spec_status_code(*self),
    {
        match self {
            AppError::Unauthorized(_) => 401,
            AppError::Forbidden => 403,
            AppError::NotFound => 404,
            AppError::UserNotFriend { .. } => 400,
            AppError::BadRequest(_) => 400,
            _ => 500,
        }
    }

    /// The `error` field of the response to the error.
    pub fn error_label(&self) -> (r: String)
        ensures
            r@ == spec_error_label(*self),
    {
        match self {
            AppError::Database(_) => "数据库操作失败".to_owned(),
            AppError::Config(_) => "配置错误".to_owned(),
            AppError::Unauthorized(m) => m.clone(),
            AppError::Forbidden => "权限不足".to_owned(),
            AppError::NotFound => "资源未找到".to_owned(),
            AppError::UserNotFriend { .. } => "USER_NOT_FRIEND".to_owned(),
            AppError::Internal(m) => m.clone(),
            AppError::Crawler(_) => "爬虫服务错误".to_owned(),
            AppError::Redis(_) => "缓存服务错误".to_owned(),
            AppError::BadRequest(m) => m.clone(),
        }
    }
}

/// The JSON body of the response to an error.
#[derive(Debug)]
pub struct ErrorBody {
    pub error: String,
    pub message: String,
    /// The user's QQ number, for the not-a-friend error only.
    pub qq_number: Option<String>,
    /// The bot's QQ number to add, for the not-a-friend error only.
    pub qq_bot: Option<String>,
}

impl AppError {
    /// The status and body of the response to the error. The not-a-friend
    /// error asks the user to add the bot and names both QQ numbers; any
    /// other error gives its label and its text.
    pub fn response(&self) -> (r: (u16, ErrorBody))
        ensures
            r.0 == spec_status_code(*self),
            match self {
                AppError::UserNotFriend { qq_number } => r.1.error@ == "USER_NOT_FRIEND"@ && r.1.message@
                    == "请先添加当前通知机器人为好友后再发送验证码"@ && (r.1.qq_number matches Some(q) && q@ == qq_number@) && (
                r.1.qq_bot matches Some(b) && b@ == "100000002"@),
                _ => r.1.error@ == spec_error_label(*self) && r.1.message@ == spec_error_message(*self)
                    && r.1.qq_number is None && r.1.qq_bot is None,
            },
    {
        match self {
            AppError::UserNotFriend { qq_number } => (
                400,
                ErrorBody {
                    error: "USER_NOT_FRIEND".to_owned(),
                    message: "请先添加当前通知机器人为好友后再发送验证码".to_owned(),
                    qq_number: Some(qq_number.clone()),
                    qq_bot: Some("100000002".to_owned()),
                },
            ),
            _ => (
                self.status_code(),
                ErrorBody { error: self.error_label(), message: self.message(), qq_number: None, qq_bot: None },
            ),
        }
    }
}

/// An unauthorized error with the given text.
pub fn unauthorized(m: &str) -> (e: AppError)
    ensures
        e matches AppError::Unauthorized(t) && t@ == m@,
{
    AppError::Unauthorized(m.to_owned())
}

/// An internal error with the given text.
pub fn internal(m: &str) -> (e: AppError)
    ensures
        e matches AppError::Internal(t) && t@ == m@,
{
    AppError::Internal(m.to_owned())
}

} // verus!
