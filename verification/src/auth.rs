//! Login: the identity a request names (QQ number or e-mail address), the
//! checks on it and on the verification code, the role a login is given,
//! the refresh cookie, the token lifetimes and the user as the client sees
//! it.

use vstd::prelude::*;
use crate::errors::{AppError, unauthorized, internal};
use crate::text::{
    all_digits, char_count, compare_strs, concat_str, is_all_ascii_digits, is_prefix_of, lemma_split_on_nonempty,
    spec_ascii_lowercase, spec_split_on, spec_trim, split_on, str_chars, strip_prefix_str, string_views, trim_str,
    ascii_lowercase, u64_to_decimal, nat_decimal, is_whitespace, char_is_whitespace, spec_trim_start, spec_trim_end,
};

verus! {

/// How a user logs in.
#[derive(Clone, Copy, PartialEq, Eq, Structural, Debug)]
pub enum LoginMode {
    Qq,
    Email,
}

/// The provider name of a login mode.
pub open spec fn spec_provider(m: LoginMode) -> Seq<char> {
    match m {
        LoginMode::Qq => "qq"@,
        LoginMode::Email => "email"@,
    }
}

impl LoginMode {
    /// `qq` or `email`.
    pub fn as_provider(self) -> (r: &'static str)
        ensures
            r@ == spec_provider(self),
    {
        match self {
            LoginMode::Qq => "qq",
            LoginMode::Email => "email",
        }
    }
}

/// Who is logging in.
#[derive(Debug)]
pub struct LoginIdentity {
    pub mode: LoginMode,
    /// The QQ number or the normalized e-mail address.
    pub identifier: String,
    pub qq_number: Option<String>,
    pub email: Option<String>,
}

/// A QQ number: 5 to 20 ASCII digits.
pub open spec fn is_qq_number(s: Seq<char>) -> bool {
    5 <= s.len() <= 20 && all_digits(s)
}

/// `s` holds `c`.
pub open spec fn has_char(s: Seq<char>, c: char) -> bool {
    exists|i: int| 0 <= i < s.len() && s[i] == c
}

/// An e-mail address as login accepts it: no whitespace, one `@` with a
/// non-empty part before it and a part after it that holds a `.`.
pub open spec fn is_email_address(s: Seq<char>) -> bool {
    let parts = spec_split_on(s, '@');
    &&& parts.len() == 2
    &&& parts[0].len() > 0
    &&& has_char(parts[1], '.')
    &&& forall|i: int| 0 <= i < s.len() ==> !is_whitespace(#[trigger] s[i])
}

/// The normalized form of an e-mail address: trimmed and in lower case,
/// when it is an address at all.
pub open spec fn spec_normalize_email(s: Seq<char>) -> Option<Seq<char>> {
    let n = spec_ascii_lowercase(spec_trim(s));
    if is_email_address(n) {
        Some(n)
    } else {
        None
    }
}

fn has_char_exec(s: &str, c: char) -> (r: bool)
    ensures
        r == has_char(s@, c),
{
    let cs = str_chars(s);
    let mut i: usize = 0;
    while i < cs.len()
        invariant
            cs@ == s@,
            i <= cs@.len(),
            forall|j: int| 0 <= j < i ==> cs@[j] != c,
        decreases cs@.len() - i,
    {
        if cs[i] == c {
            return true;
        }
        i = i + 1;
    }
    false
}

fn has_whitespace(s: &str) -> (r: bool)
    ensures
        r == exists|i: int| 0 <= i < s@.len() && is_whitespace(#[trigger] s@[i]),
{
    let cs = str_chars(s);
    let mut i: usize = 0;
    while i < cs.len()
        invariant
            cs@ == s@,
            i <= cs@.len(),
            forall|j: int| 0 <= j < i ==> !is_whitespace(#[trigger] cs@[j]),
        decreases cs@.len() - i,
    {
        if char_is_whitespace(cs[i]) {
            return true;
        }
        i = i + 1;
    }
    false
}

/// The e-mail address `s`, trimmed and in lower case; `None` when it is
/// not an address.
pub fn normalize_email_address(s: &str) -> (r: Option<String>)
    ensures
        match r {
            Some(e) => spec_normalize_email(s@) == Some(e@),
            None => spec_normalize_email(s@).is_none(),
        },
{
    let t = trim_str(s);
    let n = ascii_lowercase(t.as_str());
    if has_whitespace(n.as_str()) {
        return None;
    }
    let parts = split_on(n.as_str(), '@');
    if parts.len() != 2 {
        return None;
    }
    if char_count(parts[0].as_str()) == 0 {
        return None;
    }
    proof {
        assert(string_views(parts@)[0] == parts@[0]@);
        assert(string_views(parts@)[1] == parts@[1]@);
    }
    if !has_char_exec(parts[1].as_str(), '.') {
        return None;
    }
    Some(n)
}

/// The first of two optional values that is present.
pub open spec fn first_of(a: Option<Seq<char>>, b: Option<Seq<char>>) -> Option<Seq<char>> {
    match a {
        Some(x) => Some(x),
        None => b,
    }
}

/// The view of an optional string.
pub open spec fn opt_view(o: Option<&str>) -> Option<Seq<char>> {
    match o {
        Some(s) => Some(s@),
        None => None,
    }
}

/// The view of an optional owned string.
pub open spec fn opt_string_view(o: Option<String>) -> Option<Seq<char>> {
    match o {
        Some(s) => Some(s@),
        None => None,
    }
}

/// An identity as plain values: mode, identifier, QQ number, e-mail.
pub open spec fn identity_view(i: LoginIdentity) -> (LoginMode, Seq<char>, Option<Seq<char>>, Option<Seq<char>>) {
    (i.mode, i.identifier@, opt_string_view(i.qq_number), opt_string_view(i.email))
}

/// The identity a login request names, or the message of the
/// `Unauthorized` error it is refused with.
pub open spec fn spec_identity(
    login_mode: Option<LoginMode>,
    identifier: Option<Seq<char>>,
    qq_number: Option<Seq<char>>,
    email: Option<Seq<char>>,
) -> Result<(LoginMode, Seq<char>, Option<Seq<char>>, Option<Seq<char>>), Seq<char>> {
    let mode = match login_mode {
        Some(m) => m,
        None => LoginMode::Qq,
    };
    match mode {
        LoginMode::Qq => match first_of(identifier, qq_number) {
            None => Err("请输入QQ号"@),
            Some(raw) => {
                let t = spec_trim(raw);
                if t.len() == 0 {
                    Err("请输入QQ号"@)
                } else if !is_qq_number(t) {
                    Err("QQ号必须为5-20位数字"@)
                } else {
                    Ok((LoginMode::Qq, t, Some(t), None))
                }
            },
        },
        LoginMode::Email => match first_of(identifier, email) {
            None => Err("请输入有效邮箱地址"@),
            Some(raw) => match spec_normalize_email(raw) {
                None => Err("请输入有效邮箱地址"@),
                Some(e) => Ok((LoginMode::Email, e, None, Some(e))),
            },
        },
    }
}

/// A QQ login reads its number from `identifier`, or else from the
/// `qq_number` field: with no `identifier`, the request means the same as
/// one that sends the `qq_number` value as its identifier; a number of 5
/// to 20 ASCII digits (once trimmed) is accepted as both the identifier
/// and the QQ number.
pub proof fn law_qq_number_field_is_used(
    login_mode: Option<LoginMode>,
    qq_number: Option<Seq<char>>,
    email: Option<Seq<char>>,
)
    requires
        login_mode is None || login_mode == Some(LoginMode::Qq),
    ensures
        spec_identity(login_mode, None, qq_number, email) == spec_identity(login_mode, qq_number, None, email),
        match qq_number {
            Some(q) => (5 <= spec_trim(q).len() <= 20 && forall|i: int|
                0 <= i < spec_trim(q).len() ==> '0' <= #[trigger] spec_trim(q)[i] && spec_trim(q)[i] <= '9') ==> spec_identity(
                login_mode,
                None,
                qq_number,
                email,
            ) == Ok::<_, Seq<char>>((LoginMode::Qq, spec_trim(q), Some(spec_trim(q)), None::<Seq<char>>)),
            None => true,
        },
        qq_number is None ==> spec_identity(login_mode, None, qq_number, email) is Err,
{
}

/// An e-mail login reads its address from `identifier`, or else from the
/// `email` field: with no `identifier`, the request means the same as one
/// that sends the `email` value as its identifier.
pub proof fn law_email_field_is_used(qq_number: Option<Seq<char>>, email: Option<Seq<char>>)
    ensures
        spec_identity(Some(LoginMode::Email), None, qq_number, email) == spec_identity(
            Some(LoginMode::Email),
            email,
            qq_number,
            None,
        ),
{
}

impl LoginIdentity {
    /// The provider name of the identity's mode.
    pub fn provider(&self) -> (r: &'static str)
        ensures
            r@ == spec_provider(self.mode),
    {
        self.mode.as_provider()
    }

    /// The identity named by a request: the mode (QQ when absent) and the
    /// identifier, taken from `identifier` or else from the mode's own
    /// field. A QQ number is trimmed and must be 5 to 20 digits; an e-mail
    /// address is normalized.
    pub fn from_parts(
        login_mode: Option<LoginMode>,
        identifier: Option<&str>,
        qq_number: Option<&str>,
        email: Option<&str>,
    ) -> (r: Result<LoginIdentity, AppError>)
        ensures
            match r {
                Ok(i) => spec_identity(login_mode, opt_view(identifier), opt_view(qq_number), opt_view(email))
                    == Ok::<_, Seq<char>>(identity_view(i)),
                Err(e) => e matches AppError::Unauthorized(m) && spec_identity(
                    login_mode,
                    opt_view(identifier),
                    opt_view(qq_number),
                    opt_view(email),
                ) == Err::<(LoginMode, Seq<char>, Option<Seq<char>>, Option<Seq<char>>), Seq<char>>(m@),
            },
    {
        let mode = match login_mode {
            Some(m) => m,
            None => LoginMode::Qq,
        };
        match mode {
            LoginMode::Qq => {
                let raw = match identifier {
                    Some(x) => Some(x),
                    None => qq_number,
                };
                let raw = match raw {
                    Some(x) => x,
                    None => {
                        return Err(unauthorized("请输入QQ号"));
                    },
                };
                let t = trim_str(raw);
                let n = char_count(t.as_str());
                if n == 0 {
                    return Err(unauthorized("请输入QQ号"));
                }
                if n < 5 || n > 20 || !is_all_ascii_digits(t.as_str()) {
                    return Err(unauthorized("QQ号必须为5-20位数字"));
                }
                let q = t.clone();
                Ok(LoginIdentity { mode: LoginMode::Qq, identifier: t, qq_number: Some(q), email: None })
            },
            LoginMode::Email => {
                let raw = match identifier {
                    Some(x) => Some(x),
                    None => email,
                };
                let raw = match raw {
                    Some(x) => x,
                    None => {
                        return Err(unauthorized("请输入有效邮箱地址"));
                    },
                };
                match normalize_email_address(raw) {
                    None => Err(unauthorized("请输入有效邮箱地址")),
                    Some(e) => {
                        let e2 = e.clone();
                        Ok(LoginIdentity { mode: LoginMode::Email, identifier: e, qq_number: None, email: Some(e2) })
                    },
                }
            },
        }
    }
}

/// The request to send a verification code.
#[derive(Debug)]
pub struct SendVerificationCodeRequest {
    pub login_mode: Option<LoginMode>,
    pub identifier: Option<String>,
    pub qq_number: Option<String>,
    pub email: Option<String>,
    pub captcha_token: Option<String>,
}

/// The request to log in with a verification code.
#[derive(Debug)]
pub struct VerifyAndLoginRequest {
    pub login_mode: Option<LoginMode>,
    pub identifier: Option<String>,
    pub qq_number: Option<String>,
    pub email: Option<String>,
    pub code: String,
}

fn opt_as_str(o: &Option<String>) -> (r: Option<&str>)
    ensures
        opt_view(r) == opt_string_view(*o),
{
    match o {
        Some(s) => Some(s.as_str()),
        None => None,
    }
}

impl SendVerificationCodeRequest {
    /// The identity the request names.
    pub fn identity(&self) -> (r: Result<LoginIdentity, AppError>)
        ensures
            match r {
                Ok(i) => spec_identity(
                    self.login_mode,
                    opt_string_view(self.identifier),
                    opt_string_view(self.qq_number),
                    opt_string_view(self.email),
                ) == Ok::<_, Seq<char>>(identity_view(i)),
                Err(e) => e matches AppError::Unauthorized(m) && spec_identity(
                    self.login_mode,
                    opt_string_view(self.identifier),
                    opt_string_view(self.qq_number),
                    opt_string_view(self.email),
                ) == Err::<(LoginMode, Seq<char>, Option<Seq<char>>, Option<Seq<char>>), Seq<char>>(m@),
            },
    {
        LoginIdentity::from_parts(
            self.login_mode,
            opt_as_str(&self.identifier),
            opt_as_str(&self.qq_number),
            opt_as_str(&self.email),
        )
    }

    /// The captcha token, trimmed; refused when absent or blank.
    pub fn captcha_token(&self) -> (r: Result<String, AppError>)
        ensures
            match r {
                Ok(t) => self.captcha_token is Some && t@ == spec_trim(self.captcha_token->0@) && t@.len() > 0,
                Err(e) => (self.captcha_token is None || spec_trim(self.captcha_token->0@).len() == 0) && (e matches AppError::Unauthorized(m)
                    && m@ == "验证码token缺失"@),
            },
    {
        match &self.captcha_token {
            Some(t) => {
                let trimmed = trim_str(t.as_str());
                if char_count(trimmed.as_str()) == 0 {
                    Err(unauthorized("验证码token缺失"))
                } else {
                    Ok(trimmed)
                }
            },
            None => Err(unauthorized("验证码token缺失")),
        }
    }
}

impl VerifyAndLoginRequest {
    /// The identity the request names.
    pub fn identity(&self) -> (r: Result<LoginIdentity, AppError>)
        ensures
            match r {
                Ok(i) => spec_identity(
                    self.login_mode,
                    opt_string_view(self.identifier),
                    opt_string_view(self.qq_number),
                    opt_string_view(self.email),
                ) == Ok::<_, Seq<char>>(identity_view(i)),
                Err(e) => e matches AppError::Unauthorized(m) && spec_identity(
                    self.login_mode,
                    opt_string_view(self.identifier),
                    opt_string_view(self.qq_number),
                    opt_string_view(self.email),
                ) == Err::<(LoginMode, Seq<char>, Option<Seq<char>>, Option<Seq<char>>), Seq<char>>(m@),
            },
    {
        LoginIdentity::from_parts(
            self.login_mode,
            opt_as_str(&self.identifier),
            opt_as_str(&self.qq_number),
            opt_as_str(&self.email),
        )
    }
}

/// The verification code has the configured number of ASCII digits;
/// otherwise the login is refused with `验证码必须为<n>位数字`.
pub fn check_login_code(code: &str, code_length: usize) -> (r: Result<(), AppError>)
    ensures
        match r {
            Ok(_) => all_digits(code@) && code@.len() == code_length,
            Err(e) => !(all_digits(code@) && code@.len() == code_length) && (e matches AppError::Unauthorized(m)
                && m@ == "验证码必须为"@ + nat_decimal(code_length as nat) + "位数字"@),
        },
{
    if char_count(code) != code_length || !is_all_ascii_digits(code) {
        let n = u64_to_decimal(code_length as u64);
        let head = concat_str("验证码必须为", n.as_str());
        let msg = concat_str(head.as_str(), "位数字");
        return Err(AppError::Unauthorized(msg));
    }
    Ok(())
}

/// The configured admin QQ number, trimmed, is set (not blank and not the
/// `CHANGE-THIS` placeholder) and equals `qq_number`.
pub open spec fn spec_admin_override(admin_qq: Seq<char>, qq_number: Seq<char>) -> bool {
    let a = spec_trim(admin_qq);
    a.len() > 0 && !is_prefix_of("CHANGE-THIS"@, a) && qq_number == a
}

/// Whether logging in with `qq_number` makes the user an admin.
pub fn has_admin_override(admin_qq: &str, qq_number: &str) -> (r: bool)
    ensures
        r == spec_admin_override(admin_qq@, qq_number@),
{
    let a = trim_str(admin_qq);
    if char_count(a.as_str()) == 0 {
        return false;
    }
    if strip_prefix_str(a.as_str(), "CHANGE-THIS").is_some() {
        return false;
    }
    compare_strs(qq_number, a.as_str()) == 0
}

/// The role a login is given: admin for the configured admin QQ number,
/// user otherwise (and always for an e-mail login).
pub fn desired_role(identity: &LoginIdentity, admin_qq: &str) -> (r: &'static str)
    ensures
        r@ == (if identity.mode == LoginMode::Qq && identity.qq_number is Some && spec_admin_override(
            admin_qq@,
            identity.qq_number->0@,
        ) {
            "admin"@
        } else {
            "user"@
        }),
{
    match identity.mode {
        LoginMode::Qq => match &identity.qq_number {
            Some(q) => {
                if has_admin_override(admin_qq, q.as_str()) {
                    "admin"
                } else {
                    "user"
                }
            },
            None => "user",
        },
        LoginMode::Email => "user",
    }
}

/// The `SameSite` attribute of the refresh cookie for the configured value
/// (trimmed, any case): `Lax`, `Strict` or `None`.
pub open spec fn spec_same_site(setting: Seq<char>) -> Option<Seq<char>> {
    let v = spec_ascii_lowercase(spec_trim(setting));
    if v == "lax"@ {
        Some("Lax"@)
    } else if v == "strict"@ {
        Some("Strict"@)
    } else if v == "none"@ {
        Some("None"@)
    } else {
        None
    }
}

/// The `SameSite` label for the configured value; an unknown value is a
/// configuration error.
pub fn cookie_same_site_label(setting: &str) -> (r: Result<&'static str, AppError>)
    ensures
        match r {
            Ok(l) => spec_same_site(setting@) == Some(l@),
            Err(e) => spec_same_site(setting@).is_none() && (e matches AppError::Internal(m) && m@
                == "refresh cookie SameSite 配置非法"@),
        },
{
    let t = trim_str(setting);
    let v = ascii_lowercase(t.as_str());
    if compare_strs(v.as_str(), "lax") == 0 {
        Ok("Lax")
    } else if compare_strs(v.as_str(), "strict") == 0 {
        Ok("Strict")
    } else if compare_strs(v.as_str(), "none") == 0 {
        Ok("None")
    } else {
        Err(internal("refresh cookie SameSite 配置非法"))
    }
}

/// The `Set-Cookie` value that stores a refresh token.
pub open spec fn spec_refresh_cookie(token: Seq<char>, same_site: Seq<char>, max_age: nat, secure: bool) -> Seq<char> {
    "refresh_token="@ + token + "; HttpOnly; Path=/api/auth; SameSite="@ + same_site + "; Max-Age="@ + nat_decimal(max_age)
        + (if secure {
        "; Secure"@
    } else {
        Seq::<char>::empty()
    })
}

/// The `Set-Cookie` value that stores `refresh_token` for the configured
/// lifetime (in hours), `SameSite` setting and `Secure` flag.
pub fn build_refresh_cookie_header(
    same_site_setting: &str,
    refresh_expiration_hours: u64,
    secure: bool,
    refresh_token: &str,
) -> (r: Result<String, AppError>)
    requires
        refresh_expiration_hours * 3600 <= u64::MAX,
    ensures
        match r {
            Ok(c) => spec_same_site(same_site_setting@) is Some && c@ == spec_refresh_cookie(
                refresh_token@,
                spec_same_site(same_site_setting@)->0,
                (refresh_expiration_hours * 3600) as nat,
                secure,
            ),
            Err(e) => spec_same_site(same_site_setting@).is_none() && e is Internal,
        },
{
    let label = cookie_same_site_label(same_site_setting)?;
    let age = u64_to_decimal(refresh_expiration_hours * 3600);
    let c = concat_str("refresh_token=", refresh_token);
    let c = concat_str(c.as_str(), "; HttpOnly; Path=/api/auth; SameSite=");
    let c = concat_str(c.as_str(), label);
    let c = concat_str(c.as_str(), "; Max-Age=");
    let c = concat_str(c.as_str(), age.as_str());
    if secure {
        Ok(concat_str(c.as_str(), "; Secure"))
    } else {
        proof {
            assert(c@ =~= c@ + Seq::<char>::empty());
        }
        Ok(c)
    }
}

/// The `Set-Cookie` value that clears the refresh cookie.
pub fn build_clear_refresh_cookie_header(same_site_setting: &str, secure: bool) -> (r: Result<String, AppError>)
    ensures
        match r {
            Ok(c) => spec_same_site(same_site_setting@) is Some && c@ == "refresh_token=; HttpOnly; Path=/api/auth; SameSite="@
                + spec_same_site(same_site_setting@)->0 + "; Max-Age=0"@ + (if secure {
                "; Secure"@
            } else {
                Seq::<char>::empty()
            }),
            Err(e) => spec_same_site(same_site_setting@).is_none() && e is Internal,
        },
{
    let label = cookie_same_site_label(same_site_setting)?;
    let c = concat_str("refresh_token=; HttpOnly; Path=/api/auth; SameSite=", label);
    let c = concat_str(c.as_str(), "; Max-Age=0");
    if secure {
        Ok(concat_str(c.as_str(), "; Secure"))
    } else {
        proof {
            assert(c@ =~= c@ + Seq::<char>::empty());
        }
        Ok(c)
    }
}

/// The value of the first `;`-separated segment (trimmed) of a `Cookie`
/// header that starts with `refresh_token=`.
pub open spec fn spec_find_refresh_cookie(segments: Seq<Seq<char>>) -> Option<Seq<char>>
    decreases segments.len(),
{
    if segments.len() == 0 {
        None
    } else {
        let t = spec_trim(segments[0]);
        if is_prefix_of("refresh_token="@, t) {
            Some(t.skip(("refresh_token="@).len() as int))
        } else {
            spec_find_refresh_cookie(segments.drop_first())
        }
    }
}

proof fn lemma_find_refresh_cookie_at(segments: Seq<Seq<char>>, j: int)
    requires
        0 <= j <= segments.len(),
        forall|i: int| 0 <= i < j ==> !is_prefix_of("refresh_token="@, spec_trim(#[trigger] segments[i])),
    ensures
        j < segments.len() && is_prefix_of("refresh_token="@, spec_trim(segments[j]))
            ==> spec_find_refresh_cookie(segments) == Some(spec_trim(segments[j]).skip(("refresh_token="@).len() as int)),
        j == segments.len() ==> spec_find_refresh_cookie(segments) == None::<Seq<char>>,
    decreases j,
{
    if j > 0 {
        let t = segments.drop_first();
        assert forall|i: int| 0 <= i < j - 1 implies !is_prefix_of("refresh_token="@, spec_trim(#[trigger] t[i])) by {
            assert(t[i] == segments[i + 1]);
        }
        lemma_find_refresh_cookie_at(t, j - 1);
        if j < segments.len() {
            assert(t[j - 1] == segments[j]);
        }
    }
}

/// A text without `sep` is split into itself alone.
proof fn lemma_split_without_sep(s: Seq<char>, sep: char)
    requires
        forall|i: int| 0 <= i < s.len() ==> s[i] != sep,
    ensures
        spec_split_on(s, sep) == seq![s],
    decreases s.len(),
{
    if s.len() > 0 {
        lemma_split_without_sep(s.drop_last(), sep);
        assert(s.drop_last().push(s.last()) =~= s);
        let p = spec_split_on(s.drop_last(), sep);
        assert(p.update(p.len() - 1, p.last().push(s.last())) =~= seq![s]);
    } else {
        assert(s =~= Seq::<char>::empty());
        assert(seq![Seq::<char>::empty()] =~= seq![s]);
    }
}

/// The cookie that the refresh `Set-Cookie` value stores comes back as the
/// token: the value starts with `refresh_token=<token>` up to its first
/// `;`, and a `Cookie` header carrying that pair yields the token again
/// (for a token without `;` that does not end in whitespace).
pub proof fn law_refresh_cookie_round_trip(token: Seq<char>, same_site: Seq<char>, max_age: nat, secure: bool)
    requires
        forall|i: int| 0 <= i < token.len() ==> token[i] != ';',
        token.len() == 0 || !is_whitespace(token.last()),
    ensures
        ({
            let pair = "refresh_token="@ + token;
            let set_cookie = spec_refresh_cookie(token, same_site, max_age, secure);
            &&& set_cookie.take(pair.len() as int) == pair
            &&& set_cookie[pair.len() as int] == ';'
            &&& spec_find_refresh_cookie(spec_split_on(pair, ';')) == Some(token)
        }),
{
    reveal_strlit("refresh_token=");
    reveal_strlit("; HttpOnly; Path=/api/auth; SameSite=");
    let name = "refresh_token="@;
    let pair = name + token;
    let set_cookie = spec_refresh_cookie(token, same_site, max_age, secure);
    assert(set_cookie.take(pair.len() as int) =~= pair);
    assert forall|i: int| 0 <= i < pair.len() implies pair[i] != ';' by {
        if i >= name.len() {
            assert(pair[i] == token[i - name.len()]);
        }
    }
    lemma_split_without_sep(pair, ';');
    assert(!is_whitespace(pair[0]));
    assert(spec_trim_start(pair) == pair);
    assert(!is_whitespace(pair.last()));
    assert(spec_trim_end(pair) == pair);
    assert(spec_trim(pair) == pair);
    assert(pair.take(name.len() as int) =~= name);
    assert(pair.skip(name.len() as int) =~= token);
}

/// The refresh token carried by a `Cookie` header, if any.
pub fn refresh_token_from_cookie(cookie_header: Option<&str>) -> (r: Option<String>)
    ensures
        match cookie_header {
            None => r is None,
            Some(h) => opt_string_view(r) == spec_find_refresh_cookie(spec_split_on(h@, ';')),
        },
{
    let h = match cookie_header {
        Some(h) => h,
        None => {
            return None;
        },
    };
    let segments = split_on(h, ';');
    let ghost segs = string_views(segments@);
    let mut i: usize = 0;
    while i < segments.len()
        invariant
            cookie_header == Some(h),
            segs == string_views(segments@),
            segs == spec_split_on(h@, ';'),
            i <= segments@.len(),
            forall|k: int| 0 <= k < i ==> !is_prefix_of("refresh_token="@, spec_trim(#[trigger] segs[k])),
        decreases segments@.len() - i,
    {
        let t = trim_str(segments[i].as_str());
        proof {
            assert(segs[i as int] == segments@[i as int]@);
        }
        match strip_prefix_str(t.as_str(), "refresh_token=") {
            Some(rest) => {
                proof {
                    lemma_find_refresh_cookie_at(segs, i as int);
                }
                return Some(rest);
            },
            None => {},
        }
        i = i + 1;
    }
    proof {
        lemma_find_refresh_cookie_at(segs, i as int);
    }
    None
}

/// The lowercase hexadecimal digit for `d` in `0..16`.
pub open spec fn hex_digit_lower(d: int) -> char {
    if d < 10 {
        (('0' as int) + d) as char
    } else {
        (('a' as int) + d - 10) as char
    }
}

/// The `k`-th hexadecimal digit of `id`, from the most significant.
pub open spec fn id_nibble(id: u128, k: int) -> int {
    ((id >> (((31 - k) * 4) as u128)) & 0xf) as int
}

/// The position among the 32 digits of the character at `i` of the
/// hyphenated form.
pub open spec fn digit_index(i: int) -> int {
    if i < 8 {
        i
    } else if i < 13 {
        i - 1
    } else if i < 18 {
        i - 2
    } else if i < 23 {
        i - 3
    } else {
        i - 4
    }
}

/// The hyphenated form of a 128-bit id: 32 lowercase hexadecimal digits in
/// groups of 8, 4, 4, 4 and 12 separated by `-`.
pub open spec fn spec_uuid_text(id: u128) -> Seq<char> {
    Seq::new(
        36,
        |i: int|
            if i == 8 || i == 13 || i == 18 || i == 23 {
                '-'
            } else {
                hex_digit_lower(id_nibble(id, digit_index(i)))
            },
    )
}

/// The value of an ASCII hexadecimal digit of either case.
pub open spec fn hex_value(c: char) -> Option<int> {
    if '0' <= c && c <= '9' {
        Some(c as int - '0' as int)
    } else if 'a' <= c && c <= 'f' {
        Some(c as int - 'a' as int + 10)
    } else if 'A' <= c && c <= 'F' {
        Some(c as int - 'A' as int + 10)
    } else {
        None
    }
}

/// The number the hexadecimal digits `h` denote, most significant first;
/// nothing when one of them is no hexadecimal digit.
pub open spec fn hex_number(h: Seq<char>) -> Option<int>
    decreases h.len(),
{
    if h.len() == 0 {
        Some(0)
    } else {
        match (hex_number(h.drop_last()), hex_value(h.last())) {
            (Some(n), Some(d)) => Some(n * 16 + d),
            _ => None,
        }
    }
}

/// The 32 digits of a hyphenated id (groups of 8, 4, 4, 4 and 12 with `-`
/// between them).
pub open spec fn hyphenated_digits(s: Seq<char>) -> Option<Seq<char>> {
    if s.len() == 36 && s[8] == '-' && s[13] == '-' && s[18] == '-' && s[23] == '-' {
        Some(s.subrange(0, 8) + s.subrange(9, 13) + s.subrange(14, 18) + s.subrange(19, 23) + s.subrange(24, 36))
    } else {
        None
    }
}

/// The digits of an id in one of the forms `uuid::Uuid::parse_str` reads:
/// 32 digits, the hyphenated form, the hyphenated form in braces, or the
/// hyphenated form after `urn:uuid:` (of any case).
pub open spec fn uuid_digits(s: Seq<char>) -> Option<Seq<char>> {
    if s.len() == 32 {
        Some(s)
    } else if s.len() == 36 {
        hyphenated_digits(s)
    } else if s.len() == 38 && s[0] == '{' && s[37] == '}' {
        hyphenated_digits(s.subrange(1, 37))
    } else if s.len() == 45 && spec_ascii_lowercase(s.subrange(0, 9)) == "urn:uuid:"@ {
        hyphenated_digits(s.subrange(9, 45))
    } else {
        None
    }
}

/// What `uuid::Uuid::parse_str` makes of a text: the id its digits denote,
/// or nothing.
pub open spec fn spec_uuid_parse(s: Seq<char>) -> Option<u128> {
    match uuid_digits(s) {
        Some(h) => match hex_number(h) {
            Some(n) => Some(n as u128),
            None => None,
        },
        None => None,
    }
}

/// The 32 lowercase digits of an id, most significant first.
pub open spec fn id_digits(id: u128) -> Seq<char> {
    Seq::new(32, |k: int| hex_digit_lower(id_nibble(id, k)))
}

proof fn lemma_nibble_step(x: u128, s: u128)
    by (bit_vector)
    requires
        s <= 124,
    ensures
        (x >> (s + 4)) * 16 + ((x >> s) & 0xf) == x >> s,
{
}

proof fn lemma_top_nibble(x: u128)
    by (bit_vector)
    ensures
        (x >> 124u128) & 0xf == x >> 124u128,
        x >> 0u128 == x,
{
}

proof fn lemma_nibble_range(x: u128, s: u128)
    by (bit_vector)
    ensures
        (x >> s) & 0xf < 16,
{
}

proof fn lemma_hex_digit_value(d: int)
    requires
        0 <= d < 16,
    ensures
        hex_value(hex_digit_lower(d)) == Some(d),
{
}

/// The digits of an id denote it, read from the first `k` on.
proof fn lemma_id_digits_prefix(id: u128, k: int)
    requires
        1 <= k <= 32,
    ensures
        hex_number(id_digits(id).take(k)) == Some((id >> (((32 - k) * 4) as u128)) as int),
    decreases k,
{
    let d = id_digits(id);
    let s = ((32 - k) * 4) as u128;
    let nib = id_nibble(id, k - 1);
    lemma_nibble_range(id, s);
    assert(nib == ((id >> s) & 0xf) as int);
    lemma_hex_digit_value(nib);
    assert(d.take(k).last() == hex_digit_lower(nib));
    assert(hex_value(d.take(k).last()) == Some(nib));
    if k == 1 {
        assert(d.take(1).drop_last() =~= Seq::<char>::empty());
        assert(hex_number(d.take(1).drop_last()) == Some(0int));
        lemma_top_nibble(id);
        assert(s == 124);
        assert(hex_number(d.take(1)) == Some(0 * 16 + nib));
    } else {
        lemma_id_digits_prefix(id, k - 1);
        assert(d.take(k).drop_last() =~= d.take(k - 1));
        assert(((32 - (k - 1)) * 4) as u128 == s + 4);
        lemma_nibble_step(id, s);
        assert(hex_number(d.take(k)) == Some(((id >> (s + 4)) as int) * 16 + nib));
    }
}

/// Reading the hyphenated text of an id gives the id back: the user id a
/// token states names its user.
pub proof fn law_uuid_text_parses_back(id: u128)
    ensures
        spec_uuid_parse(spec_uuid_text(id)) == Some(id),
{
    let t = spec_uuid_text(id);
    let d = id_digits(id);
    assert(hyphenated_digits(t) == Some(d)) by {
        let h = t.subrange(0, 8) + t.subrange(9, 13) + t.subrange(14, 18) + t.subrange(19, 23) + t.subrange(24, 36);
        assert(h =~= d);
    }
    lemma_id_digits_prefix(id, 32);
    assert(d.take(32) =~= d);
    lemma_top_nibble(id);
}

/// The hyphenated text of an id, as `uuid::Uuid`'s `Display` writes it:
/// lowercase hexadecimal in groups of 8-4-4-4-12.
#[verifier::external_body]
pub(crate) fn uuid_to_string(id: u128) -> (r: String)
    ensures
        r@ == spec_uuid_text(id),
{
    uuid::Uuid::from_u128(id).to_string()
}

/// `uuid::Uuid::parse_str`, giving the id as a number.
#[verifier::external_body]
fn uuid_parse_str(s: &str) -> (r: Option<u128>)
    ensures
        r == spec_uuid_parse(s@),
{
    match uuid::Uuid::parse_str(s) {
        Ok(u) => Some(u.as_u128()),
        Err(_) => None,
    }
}

/// The user id of a token; a text that is no id is an internal error.
pub fn parse_user_id(s: &str) -> (r: Result<u128, AppError>)
    ensures
        match r {
            Ok(id) => spec_uuid_parse(s@) == Some(id),
            Err(e) => spec_uuid_parse(s@).is_none() && (e matches AppError::Internal(m) && m@ == "无效的用户ID格式"@),
        },
{
    match uuid_parse_str(s) {
        Some(id) => Ok(id),
        None => Err(internal("无效的用户ID格式")),
    }
}

/// A user account.
#[derive(Debug)]
pub struct User {
    pub id: u128,
    /// The QQ number of a QQ account.
    pub qq_number: Option<String>,
    /// `admin` or `user`.
    pub role: String,
    pub is_active: bool,
    /// `qq` or `email`.
    pub login_provider: String,
    /// The address of an e-mail account.
    pub email: Option<String>,
}

/// The displayed identifier of a user: the e-mail address of an e-mail
/// account, the QQ number otherwise (empty when missing).
pub open spec fn spec_user_identifier(u: User) -> Seq<char> {
    if u.login_provider@ == "email"@ {
        match u.email {
            Some(e) => e@,
            None => Seq::empty(),
        }
    } else {
        match u.qq_number {
            Some(q) => q@,
            None => Seq::empty(),
        }
    }
}

fn string_or_empty(o: &Option<String>) -> (r: String)
    ensures
        r@ == (match o {
            Some(s) => s@,
            None => Seq::<char>::empty(),
        }),
{
    match o {
        Some(s) => s.clone(),
        None => String::new(),
    }
}

/// An account about to be created.
#[derive(Debug)]
pub struct NewUser {
    /// The QQ number of a QQ account.
    pub qq_number: Option<String>,
    /// `admin` or `user`; `user` when the request names none.
    pub role: String,
    /// Whether the account may log in; `true` when the request names none.
    pub is_active: bool,
    /// `qq` or `email`.
    pub login_provider: String,
    /// The address of an e-mail account.
    pub email: Option<String>,
}

/// The role of a new account that names none.
pub fn default_user_role() -> (r: String)
    ensures
        r@ == "user"@,
{
    "user".to_owned()
}

/// The value of a flag that the request leaves out.
pub fn default_true() -> (r: bool)
    ensures
        r,
{
    true
}

impl User {
    /// The account logs in with QQ.
    pub fn is_qq_login(&self) -> (r: bool)
        ensures
            r == (self.login_provider@ == "qq"@),
    {
        compare_strs(self.login_provider.as_str(), "qq") == 0
    }

    /// The account logs in with e-mail.
    pub fn is_email_login(&self) -> (r: bool)
        ensures
            r == (self.login_provider@ == "email"@),
    {
        compare_strs(self.login_provider.as_str(), "email") == 0
    }

    /// The displayed identifier.
    pub fn identifier(&self) -> (r: String)
        ensures
            r@ == spec_user_identifier(*self),
    {
        if self.is_email_login() {
            string_or_empty(&self.email)
        } else {
            string_or_empty(&self.qq_number)
        }
    }

    /// The subject of the user's tokens: `<provider>:<identifier>`.
    pub fn identity_subject(&self) -> (r: String)
        ensures
            r@ == self.login_provider@ + ":"@ + spec_user_identifier(*self),
    {
        let head = concat_str(self.login_provider.as_str(), ":");
        let id = self.identifier();
        concat_str(head.as_str(), id.as_str())
    }

    /// The user is an admin.
    pub fn is_admin(&self) -> (r: bool)
        ensures
            r == (self.role@ == "admin"@),
    {
        compare_strs(self.role.as_str(), "admin") == 0
    }

    /// The user is an ordinary user.
    pub fn is_user(&self) -> (r: bool)
        ensures
            r == (self.role@ == "user"@),
    {
        compare_strs(self.role.as_str(), "user") == 0
    }
}

/// The user as the client sees it.
#[derive(Debug)]
pub struct UserInfo {
    pub id: String,
    pub login_mode: String,
    pub identifier: String,
    pub qq_number: Option<String>,
    pub email: Option<String>,
    pub role: String,
    pub is_active: bool,
}

/// The reply to a successful login or token refresh.
#[derive(Debug)]
pub struct LoginResponse {
    pub access_token: String,
    pub token_type: String,
    pub expires_in: u64,
    pub user: UserInfo,
}

/// What the client is told about `user`.
pub open spec fn is_user_info_of(info: UserInfo, user: User) -> bool {
    &&& info.id@ == spec_uuid_text(user.id)
    &&& info.login_mode@ == user.login_provider@
    &&& info.identifier@ == spec_user_identifier(user)
    &&& opt_string_view(info.qq_number) == opt_string_view(user.qq_number)
    &&& opt_string_view(info.email) == opt_string_view(user.email)
    &&& info.role@ == user.role@
    &&& info.is_active == user.is_active
}

/// The client's view of `user`.
pub fn build_user_info(user: User) -> (r: UserInfo)
    ensures
        is_user_info_of(r, user),
{
    let identifier = user.identifier();
    let id = uuid_to_string(user.id);
    UserInfo {
        id,
        login_mode: user.login_provider,
        identifier,
        qq_number: user.qq_number,
        email: user.email,
        role: user.role,
        is_active: user.is_active,
    }
}

/// The reply to a login: the access token as a bearer token, its lifetime
/// in seconds and the user.
pub fn build_login_response(user: User, access_token: String, expires_in: u64) -> (r: LoginResponse)
    ensures
        r.access_token == access_token,
        r.token_type@ == "Bearer"@,
        r.expires_in == expires_in,
        is_user_info_of(r.user, user),
{
    LoginResponse { access_token, token_type: "Bearer".to_owned(), expires_in, user: build_user_info(user) }
}

/// The lifetimes of a pair of tokens issued at `iat` (seconds since the
/// epoch).
#[derive(Debug)]
pub struct TokenTimes {
    pub iat: u64,
    pub access_exp: u64,
    pub refresh_exp: u64,
    /// The access token's lifetime in seconds.
    pub expires_in: u64,
}

/// The times of the tokens issued at `now` with the configured lifetimes in
/// hours.
pub fn token_times(now: u64, access_hours: u64, refresh_hours: u64) -> (r: TokenTimes)
    requires
        now + access_hours * 3600 <= u64::MAX,
        now + refresh_hours * 3600 <= u64::MAX,
    ensures
        r.iat == now,
        r.expires_in == access_hours * 3600,
        r.access_exp == now + access_hours * 3600,
        r.refresh_exp == now + refresh_hours * 3600,
{
    let access = access_hours * 3600;
    let refresh = refresh_hours * 3600;
    TokenTimes { iat: now, access_exp: now + access, refresh_exp: now + refresh, expires_in: access }
}

/// The kind of a token.
#[derive(Clone, Copy, PartialEq, Eq, Structural, Debug)]
pub enum TokenKind {
    Access,
    Refresh,
}

/// What a token states.
#[derive(Debug)]
pub struct Claims {
    /// `<provider>:<identifier>` of the user.
    pub sub: String,
    pub user_id: String,
    pub role: String,
    pub token_kind: TokenKind,
    pub exp: u64,
    pub iat: u64,
}

/// The claims of a token of kind `kind` for `user`.
pub fn build_claims(user: &User, kind: TokenKind, times: &TokenTimes) -> (c: Claims)
    ensures
        c.sub@ == user.login_provider@ + ":"@ + spec_user_identifier(*user),
        c.user_id@ == spec_uuid_text(user.id),
        c.role@ == user.role@,
        c.token_kind == kind,
        c.exp == (match kind {
            TokenKind::Access => times.access_exp,
            TokenKind::Refresh => times.refresh_exp,
        }),
        c.iat == times.iat,
{
    let exp = match kind {
        TokenKind::Access => times.access_exp,
        TokenKind::Refresh => times.refresh_exp,
    };
    Claims {
        sub: user.identity_subject(),
        user_id: uuid_to_string(user.id),
        role: user.role.clone(),
        token_kind: kind,
        exp,
        iat: times.iat,
    }
}

/// The name of a token kind in signed claims.
pub open spec fn token_kind_text(k: TokenKind) -> Seq<char> {
    match k {
        TokenKind::Access => "access"@,
        TokenKind::Refresh => "refresh"@,
    }
}

fn token_kind_str(k: TokenKind) -> (r: &'static str)
    ensures
        r@ == token_kind_text(k),
{
    proof {
        reveal_strlit("access");
        reveal_strlit("refresh");
    }
    match k {
        TokenKind::Access => "access",
        TokenKind::Refresh => "refresh",
    }
}

/// The token `jsonwebtoken::encode` signs, with the default header (HS256)
/// and `secret` as the HMAC key, for the claims `sub`, `user_id`, `role`,
/// `token_kind`, `exp` and `iat`.
pub uninterp spec fn jwt_hs256(
    sub: Seq<char>,
    user_id: Seq<char>,
    role: Seq<char>,
    token_kind: Seq<char>,
    exp: u64,
    iat: u64,
    secret: Seq<u8>,
) -> Seq<char>;

/// `jsonwebtoken::encode` with the default header and an HMAC key made
/// from `secret`, on a JSON object of the claims. With that header and key
/// the crate cannot fail: the key's family is the header's, a map of
/// strings and numbers always serializes, and HMAC signing takes a key of
/// any length; the error is kept as text all the same.
#[verifier::external_body]
fn jwt_sign_hs256(sub: &str, user_id: &str, role: &str, kind: &str, exp: u64, iat: u64, secret: &[u8]) -> (r: Result<String, String>)
    ensures
        r is Ok,
        match r {
            Ok(t) => t@ == jwt_hs256(sub@, user_id@, role@, kind@, exp, iat, secret@),
            Err(_) => true,
        },
{
    let claims = std::collections::BTreeMap::from([
        ("sub", serde_json::Value::from(sub)),
        ("user_id", serde_json::Value::from(user_id)),
        ("role", serde_json::Value::from(role)),
        ("token_kind", serde_json::Value::from(kind)),
        ("exp", serde_json::Value::from(exp)),
        ("iat", serde_json::Value::from(iat)),
    ]);
    let key = jsonwebtoken::EncodingKey::from_secret(secret);
    jsonwebtoken::encode(&jsonwebtoken::Header::default(), &claims, &key).map_err(|e| e.to_string())
}

/// The signed token of `claims` under `secret`.
pub open spec fn spec_signed(claims: Claims, secret: Seq<u8>) -> Seq<char> {
    jwt_hs256(
        claims.sub@,
        claims.user_id@,
        claims.role@,
        token_kind_text(claims.token_kind),
        claims.exp,
        claims.iat,
        secret,
    )
}

/// What a signing attempt gives: the token, or an internal error
/// `Token生成失败: <reason>`.
pub fn signing_outcome(signed: Result<String, String>) -> (r: Result<String, AppError>)
    ensures
        match signed {
            Ok(t) => r matches Ok(u) && u@ == t@,
            Err(m) => r matches Err(AppError::Internal(e)) && e@ == "Token生成失败: "@ + m@,
        },
{
    match signed {
        Ok(t) => Ok(t),
        Err(m) => Err(AppError::Internal(concat_str("Token生成失败: ", m.as_str()))),
    }
}

/// The signed token of `claims` under `secret`.
pub fn issue_token(claims: &Claims, secret: &[u8]) -> (r: Result<String, AppError>)
    ensures
        r matches Ok(t) && t@ == spec_signed(*claims, secret@),
{
    let signed = jwt_sign_hs256(
        claims.sub.as_str(),
        claims.user_id.as_str(),
        claims.role.as_str(),
        token_kind_str(claims.token_kind),
        claims.exp,
        claims.iat,
        secret,
    );
    signing_outcome(signed)
}

/// The access token, the refresh token and the access token's lifetime
/// for `user`, issued at the times `times` and signed under `secret`.
pub fn issue_tokens(user: &User, times: &TokenTimes, secret: &[u8]) -> (r: Result<(String, String, u64), AppError>)
    ensures
        r matches Ok((a, f, e)) && a@ == jwt_hs256(
            user.login_provider@ + ":"@ + spec_user_identifier(*user),
            spec_uuid_text(user.id),
            user.role@,
            "access"@,
            times.access_exp,
            times.iat,
            secret@,
        ) && f@ == jwt_hs256(
            user.login_provider@ + ":"@ + spec_user_identifier(*user),
            spec_uuid_text(user.id),
            user.role@,
            "refresh"@,
            times.refresh_exp,
            times.iat,
            secret@,
        ) && e == times.expires_in,
{
    let access_claims = build_claims(user, TokenKind::Access, times);
    let refresh_claims = build_claims(user, TokenKind::Refresh, times);
    let access = match issue_token(&access_claims, secret) {
        Ok(t) => t,
        Err(e) => return Err(e),
    };
    let refresh = match issue_token(&refresh_claims, secret) {
        Ok(t) => t,
        Err(e) => return Err(e),
    };
    Ok((access, refresh, times.expires_in))
}

/// Where a verification code goes.
#[derive(Debug)]
pub enum SendTarget {
    Qq(String),
    Email(String),
}

/// The target of the code for `identity`: its QQ number or its address.
pub fn send_target(identity: &LoginIdentity) -> (r: Result<SendTarget, AppError>)
    ensures
        match r {
            Ok(SendTarget::Qq(q)) => identity.mode == LoginMode::Qq && identity.qq_number is Some && q@
                == identity.qq_number->0@,
            Ok(SendTarget::Email(e)) => identity.mode == LoginMode::Email && identity.email is Some && e@
                == identity.email->0@,
            Err(e) => e is Internal && ((identity.mode == LoginMode::Qq && identity.qq_number is None) || (
            identity.mode == LoginMode::Email && identity.email is None)),
        },
{
    match identity.mode {
        LoginMode::Qq => match &identity.qq_number {
            Some(q) => Ok(SendTarget::Qq(q.clone())),
            None => Err(internal("QQ 登录标识缺失")),
        },
        LoginMode::Email => match &identity.email {
            Some(e) => Ok(SendTarget::Email(e.clone())),
            None => Err(internal("邮箱登录标识缺失")),
        },
    }
}

/// A one-time captcha token was accepted; otherwise the request is
/// refused.
pub fn require_captcha_accepted(valid: bool) -> (r: Result<(), AppError>)
    ensures
        valid <==> r is Ok,
        r matches Err(e) ==> (e matches AppError::Unauthorized(m) && m@ == "验证码token无效或已过期"@),
{
    if valid {
        Ok(())
    } else {
        Err(unauthorized("验证码token无效或已过期"))
    }
}

/// E-mail login needs a configured mail sender.
pub fn require_email_sender(configured: bool) -> (r: Result<(), AppError>)
    ensures
        configured <==> r is Ok,
        r matches Err(e) ==> (e matches AppError::Config(m) && m@ == "邮件发送未配置，无法使用邮箱登录"@),
{
    if configured {
        Ok(())
    } else {
        Err(AppError::Config("邮件发送未配置，无法使用邮箱登录".to_owned()))
    }
}

/// The verification code was accepted; otherwise the login is refused.
pub fn require_code_verified(valid: bool) -> (r: Result<(), AppError>)
    ensures
        valid <==> r is Ok,
        r matches Err(e) ==> (e matches AppError::Unauthorized(m) && m@ == "验证码无效或已过期"@),
{
    if valid {
        Ok(())
    } else {
        Err(unauthorized("验证码无效或已过期"))
    }
}

/// A disabled user may not log in or refresh.
pub fn require_active_user(user: &User) -> (r: Result<(), AppError>)
    ensures
        user.is_active <==> r is Ok,
        r matches Err(e) ==> (e matches AppError::Unauthorized(m) && m@ == "用户已被停用"@),
{
    if user.is_active {
        Ok(())
    } else {
        Err(unauthorized("用户已被停用"))
    }
}

/// The refresh cookie must be present.
pub fn require_refresh_token(token: Option<String>) -> (r: Result<String, AppError>)
    ensures
        match r {
            Ok(t) => token == Some(t),
            Err(e) => token is None && (e matches AppError::Unauthorized(m) && m@ == "缺少 refresh cookie"@),
        },
{
    match token {
        Some(t) => Ok(t),
        None => Err(unauthorized("缺少 refresh cookie")),
    }
}

} // verus!
