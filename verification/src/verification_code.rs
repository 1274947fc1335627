//! Login verification codes: their settings, their cache keys, how a code
//! is generated and how a submitted code is judged against the stored one.

use vstd::prelude::*;
use crate::text::{all_digits, compare_strs, concat_str, is_digit_char, digit_char, string_from_chars};

verus! {

/// The verification code settings.
#[derive(Debug)]
pub struct VerificationConfig {
    /// Number of digits of a code.
    pub code_length: usize,
    /// How long a stored code stays valid, in seconds.
    pub expire_seconds: u64,
}

impl VerificationConfig {
    /// Six-digit codes, valid for five minutes.
    pub fn default() -> (r: VerificationConfig)
        ensures
            r.code_length == 6,
            r.expire_seconds == 300,
    {
        VerificationConfig { code_length: 6, expire_seconds: 300 }
    }

    /// The cache key of the code of a QQ login: `verify:qq:<id>`.
    pub fn redis_key(&self, identifier: &str) -> (r: String)
        ensures
            r@ == "verify:qq:"@ + identifier@,
    {
        let r = self.redis_key_for("qq", identifier);
        proof {
            reveal_strlit("verify:qq:");
            reveal_strlit("verify:");
            reveal_strlit("qq");
            reveal_strlit(":");
            assert("verify:qq:"@ =~= "verify:"@ + "qq"@ + ":"@);
        }
        r
    }

    /// The cache key of the code of a login by `provider`:
    /// `verify:<provider>:<id>`.
    pub fn redis_key_for(&self, provider: &str, identifier: &str) -> (r: String)
        ensures
            r@ == "verify:"@ + provider@ + ":"@ + identifier@,
    {
        let a = concat_str("verify:", provider);
        let b = concat_str(a.as_str(), ":");
        concat_str(b.as_str(), identifier)
    }
}

/// A random decimal digit (`rand::rng().random_range(0..10)`).
#[verifier::external_body]
fn random_digit() -> (d: u8)
    ensures
        d < 10,
{
    rand::Rng::random_range(&mut rand::rng(), 0..10u8)
}

/// The code service's rules; the codes live in the cache.
#[derive(Debug)]
pub struct VerificationCodeService {
    pub config: VerificationConfig,
}

impl VerificationCodeService {
    /// A service with the given settings.
    pub fn new(config: VerificationConfig) -> (r: VerificationCodeService)
        ensures
            r.config == config,
    {
        VerificationCodeService { config }
    }

    /// A fresh random code of the configured number of digits.
    pub fn generate_code(&self) -> (r: String)
        ensures
            r@.len() == self.config.code_length,
            all_digits(r@),
    {
        let mut cs: Vec<char> = Vec::new();
        let mut i: usize = 0;
        while i < self.config.code_length
            invariant
                i <= self.config.code_length,
                cs@.len() == i,
                all_digits(cs@),
            decreases self.config.code_length - i,
        {
            let d = random_digit();
            let c = (48u8 + d) as char;
            cs.push(c);
            i = i + 1;
        }
        string_from_chars(cs.as_slice())
    }

    /// A submitted code is right when a code was stored (and is now
    /// consumed) and equals it.
    pub fn code_matches(stored: Option<String>, code: &str) -> (r: bool)
        ensures
            r == (stored matches Some(s) && s@ == code@),
    {
        match stored {
            Some(s) => compare_strs(s.as_str(), code) == 0,
            None => false,
        }
    }
}

} // verus!
