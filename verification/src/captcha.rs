//! Captcha checking through the third-party service: the request's checks,
//! the verification URL, the reading of the service's answer, the one-time
//! token's key and the reply to the client.

use vstd::prelude::*;
use vstd::utf8::encode_utf8;
use crate::errors::{AppError, internal, unauthorized};
use crate::text::{char_count, compare_strs, concat_str};

verus! {

/// The kind of captcha.
#[derive(Clone, Copy, PartialEq, Eq, Structural, Debug)]
pub enum CaptchaType {
    String,
    Math,
    Digit,
}

/// The name of a captcha type in the service's API.
pub open spec fn spec_captcha_type_name(t: CaptchaType) -> Seq<char> {
    match t {
        CaptchaType::String => "string"@,
        CaptchaType::Math => "math"@,
        CaptchaType::Digit => "digit"@,
    }
}

impl CaptchaType {
    /// `string`, `math` or `digit`.
    pub fn as_str(&self) -> (r: &'static str)
        ensures
            r@ == spec_captcha_type_name(*self),
    {
        match self {
            CaptchaType::String => "string",
            CaptchaType::Math => "math",
            CaptchaType::Digit => "digit",
        }
    }
}

/// What `str::to_lowercase` makes of a text (Unicode lower case).
pub uninterp spec fn unicode_lowercase(s: Seq<char>) -> Seq<char>;

/// `str::to_lowercase`.
#[verifier::external_body]
fn to_lowercase(s: &str) -> (r: String)
    ensures
        r@ == unicode_lowercase(s@),
{
    s.to_lowercase()
}

/// The captcha type named by a lower-case name.
pub open spec fn spec_captcha_type(lowered: Seq<char>) -> Option<CaptchaType> {
    if lowered == "math"@ {
        Some(CaptchaType::Math)
    } else if lowered == "string"@ {
        Some(CaptchaType::String)
    } else if lowered == "digit"@ {
        Some(CaptchaType::Digit)
    } else {
        None
    }
}

/// The type names round-trip: each type's name reads back as that type,
/// and a lower-case name that reads as a type is that type's name.
pub proof fn law_captcha_type_names_round_trip(t: CaptchaType, lowered: Seq<char>)
    ensures
        spec_captcha_type(spec_captcha_type_name(t)) == Some(t),
        spec_captcha_type(lowered) == Some(t) ==> lowered == spec_captcha_type_name(t),
{
    reveal_strlit("math");
    reveal_strlit("string");
    reveal_strlit("digit");
    assert("math"@.len() == 4 && "string"@.len() == 6 && "digit"@.len() == 5);
    assert("math"@ != "string"@ && "math"@ != "digit"@ && "string"@ != "digit"@);
}

/// The captcha type named by `lowered`, a name already in lower case.
pub fn captcha_type_from_lowercase(lowered: &str) -> (r: Option<CaptchaType>)
    ensures
        r == spec_captcha_type(lowered@),
{
    if compare_strs(lowered, "math") == 0 {
        Some(CaptchaType::Math)
    } else if compare_strs(lowered, "string") == 0 {
        Some(CaptchaType::String)
    } else if compare_strs(lowered, "digit") == 0 {
        Some(CaptchaType::Digit)
    } else {
        None
    }
}

/// The captcha type named by `name`, in any case.
pub fn parse_captcha_type(name: &str) -> (r: Option<CaptchaType>)
    ensures
        r == spec_captcha_type(unicode_lowercase(name@)),
{
    let lowered = to_lowercase(name);
    captcha_type_from_lowercase(lowered.as_str())
}

/// The client's request to check a captcha answer.
#[derive(Debug)]
pub struct VerifyCaptchaRequest {
    /// The captcha's id.
    pub id: String,
    /// The user's answer.
    pub key: String,
    /// The captcha type's name.
    pub captcha_type: String,
}

/// The text of the request's validation failure: one line per failing
/// field, the id first.
pub open spec fn spec_validation_text(id_ok: bool, key_ok: bool) -> Seq<char> {
    if !id_ok && !key_ok {
        "id: 验证码ID无效\nkey: 答案长度无效"@
    } else if !id_ok {
        "id: 验证码ID无效"@
    } else {
        "key: 答案长度无效"@
    }
}

/// The id has 1 to 100 characters.
pub open spec fn id_valid(id: Seq<char>) -> bool {
    1 <= id.len() <= 100
}

/// The answer has 1 to 50 characters.
pub open spec fn key_valid(key: Seq<char>) -> bool {
    1 <= key.len() <= 50
}

impl VerifyCaptchaRequest {
    /// Checks the lengths of the id (1 to 100 characters) and of the answer
    /// (1 to 50); on failure gives the text describing it.
    pub fn validate(&self) -> (r: Result<(), String>)
        ensures
            match r {
                Ok(_) => id_valid(self.id@) && key_valid(self.key@),
                Err(m) => !(id_valid(self.id@) && key_valid(self.key@)) && m@ == spec_validation_text(
                    id_valid(self.id@),
                    key_valid(self.key@),
                ),
            },
    {
        let n = char_count(self.id.as_str());
        let k = char_count(self.key.as_str());
        let id_ok = 1 <= n && n <= 100;
        let key_ok = 1 <= k && k <= 50;
        if id_ok && key_ok {
            Ok(())
        } else if !id_ok && !key_ok {
            Err("id: 验证码ID无效\nkey: 答案长度无效".to_owned())
        } else if !id_ok {
            Err("id: 验证码ID无效".to_owned())
        } else {
            Err("key: 答案长度无效".to_owned())
        }
    }

    /// The request's validation as the handler reports it: an internal
    /// error `请求验证失败: <text>`.
    pub fn check(&self) -> (r: Result<(), AppError>)
        ensures
            match r {
                Ok(_) => id_valid(self.id@) && key_valid(self.key@),
                Err(e) => !(id_valid(self.id@) && key_valid(self.key@)) && (e matches AppError::Internal(m) && m@
                    == "请求验证失败: "@ + spec_validation_text(id_valid(self.id@), key_valid(self.key@))),
            },
    {
        match self.validate() {
            Ok(()) => Ok(()),
            Err(m) => Err(AppError::Internal(concat_str("请求验证失败: ", m.as_str()))),
        }
    }
}

/// A byte that URL encoding leaves as it is: an ASCII letter or digit, or
/// one of `-`, `.`, `_`, `~`.
pub open spec fn is_unreserved(b: u8) -> bool {
    (48 <= b <= 57) || (65 <= b <= 90) || (97 <= b <= 122) || b == 45 || b == 46 || b == 95 || b == 126
}

/// The uppercase hexadecimal digit for `d` in `0..16`.
pub open spec fn hex_digit_upper(d: int) -> char {
    if d < 10 {
        (('0' as int) + d) as char
    } else {
        (('A' as int) + d - 10) as char
    }
}

/// Percent-encoding of bytes: an unreserved byte stays, any other becomes
/// `%` and two uppercase hexadecimal digits.
pub open spec fn spec_percent_encode(bytes: Seq<u8>) -> Seq<char>
    decreases bytes.len(),
{
    if bytes.len() == 0 {
        Seq::empty()
    } else {
        let b = bytes.last();
        spec_percent_encode(bytes.drop_last()) + if is_unreserved(b) {
            seq![b as char]
        } else {
            seq!['%', hex_digit_upper((b / 16) as int), hex_digit_upper((b % 16) as int)]
        }
    }
}

/// `urlencoding::encode`: the UTF-8 bytes of `s`, percent-encoded.
#[verifier::external_body]
fn url_encode(s: &str) -> (r: String)
    ensures
        r@ == spec_percent_encode(encode_utf8(s@)),
{
    urlencoding::encode(s).into_owned()
}

/// The URL that asks the service to check the answer `key` to captcha `id`.
pub fn captcha_verify_url(id: &str, key: &str, captcha_type: CaptchaType) -> (r: String)
    ensures
        r@ == "https://v2.xxapi.cn/api/captcha?id="@ + spec_percent_encode(encode_utf8(id@)) + "&key="@
            + spec_percent_encode(encode_utf8(key@)) + "&type="@ + spec_captcha_type_name(captcha_type),
{
    let eid = url_encode(id);
    let ekey = url_encode(key);
    let u = concat_str("https://v2.xxapi.cn/api/captcha?id=", eid.as_str());
    let u = concat_str(u.as_str(), "&key=");
    let u = concat_str(u.as_str(), ekey.as_str());
    let u = concat_str(u.as_str(), "&type=");
    concat_str(u.as_str(), captcha_type.as_str())
}

/// The service's answer.
#[derive(Debug)]
pub struct ThirdPartyResponse {
    pub code: i32,
    pub msg: String,
    pub data: Option<String>,
}

/// What the service's reply means: the HTTP status must be 200 and the body
/// must read as an answer (else the service is unavailable), and the
/// answer's code must be 200 (else the captcha was wrong or expired).
pub fn captcha_check_result(http_status: u16, answer: Option<ThirdPartyResponse>) -> (r: Result<(), AppError>)
    ensures
        match r {
            Ok(_) => http_status == 200 && answer is Some && answer->0.code == 200,
            Err(e) => if http_status != 200 {
                e matches AppError::Internal(m) && m@ == "验证码服务暂时不可用"@
            } else if answer is None {
                e matches AppError::Internal(m) && m@ == "验证码服务响应格式错误"@
            } else {
                answer->0.code != 200 && (e matches AppError::Unauthorized(m) && m@ == "验证码错误或已过期"@)
            },
        },
{
    if http_status != 200 {
        return Err(internal("验证码服务暂时不可用"));
    }
    match answer {
        None => Err(internal("验证码服务响应格式错误")),
        Some(a) => {
            if a.code != 200 {
                Err(unauthorized("验证码错误或已过期"))
            } else {
                Ok(())
            }
        },
    }
}

/// The cache key of a one-time captcha token.
pub fn captcha_token_key(token: &str) -> (r: String)
    ensures
        r@ == "captcha:token:"@ + token@,
{
    concat_str("captcha:token:", token)
}

/// How long a one-time captcha token stays valid, in seconds.
pub const CAPTCHA_TOKEN_TTL_SECONDS: u64 = 60;

/// A one-time token is valid when it was still stored when consumed.
pub fn token_consumed(stored: Option<String>) -> (r: bool)
    ensures
        r == stored is Some,
{
    stored.is_some()
}

/// The reply to a captcha check.
#[derive(Debug)]
pub struct VerifyCaptchaResponse {
    pub success: bool,
    pub message: String,
    pub code: String,
    /// The one-time token, on success.
    pub token: Option<String>,
}

/// The reply (HTTP status and body) to a check whose type name is unknown.
pub fn invalid_type_reply() -> (r: (u16, VerifyCaptchaResponse))
    ensures
        r.0 == 400,
        !r.1.success,
        r.1.message@ == "不支持的验证码类型"@,
        r.1.code@ == "INVALID_TYPE"@,
        r.1.token is None,
{
    (400, VerifyCaptchaResponse {
        success: false,
        message: "不支持的验证码类型".to_owned(),
        code: "INVALID_TYPE".to_owned(),
        token: None,
    })
}

/// The reply to a check that the service answered: the token on success;
/// a wrong answer is a client error; any other failure means the service
/// is unavailable.
pub fn captcha_reply(result: Result<String, AppError>) -> (r: (u16, VerifyCaptchaResponse))
    ensures
        match result {
            Ok(token) => r.0 == 200 && r.1.success && r.1.message@ == "验证通过"@ && r.1.code@ == "VERIFY_SUCCESS"@
                && r.1.token == Some(token),
            Err(AppError::Unauthorized(_)) => r.0 == 400 && !r.1.success && r.1.message@ == "验证码错误或已过期"@
                && r.1.code@ == "VERIFY_FAILED"@ && r.1.token is None,
            Err(_) => r.0 == 503 && !r.1.success && r.1.message@ == "验证服务暂时不可用"@ && r.1.code@
                == "SERVICE_UNAVAILABLE"@ && r.1.token is None,
        },
{
    match result {
        Ok(token) => (200, VerifyCaptchaResponse {
            success: true,
            message: "验证通过".to_owned(),
            code: "VERIFY_SUCCESS".to_owned(),
            token: Some(token),
        }),
        Err(AppError::Unauthorized(_)) => (400, VerifyCaptchaResponse {
            success: false,
            message: "验证码错误或已过期".to_owned(),
            code: "VERIFY_FAILED".to_owned(),
            token: None,
        }),
        Err(_) => (503, VerifyCaptchaResponse {
            success: false,
            message: "验证服务暂时不可用".to_owned(),
            code: "SERVICE_UNAVAILABLE".to_owned(),
            token: None,
        }),
    }
}

/// A check request in the form the captcha service's API describes.
#[derive(Debug)]
pub struct ThirdPartyVerifyRequest {
    pub id: String,
    pub key: String,
    /// The type's name (`type` on the wire).
    pub captcha_type: String,
}

} // verus!
