//! The part of the configuration that the front end may read.

use vstd::prelude::*;
use crate::text::{spec_trim, trim_str};

verus! {

/// The QQ numbers the front end shows.
#[derive(Debug)]
pub struct PublicNotificationConfig {
    /// The bot's QQ number, to be added as a friend.
    pub qq_bot_public_qq_number: String,
    /// The administrator's QQ number.
    pub admin_qq_number: String,
}

/// The captcha settings the front end needs.
#[derive(Debug)]
pub struct PublicCaptchaConfig {
    pub api_url: String,
    pub request_timeout_seconds: u64,
    pub token_expire_seconds: u64,
    pub captcha_type: String,
    pub width: u16,
    pub height: u16,
    pub options: u8,
}

/// The verification code settings the front end needs.
#[derive(Debug)]
pub struct PublicVerificationConfig {
    pub code_length: usize,
    pub expire_seconds: u64,
}

/// The public configuration.
#[derive(Debug)]
pub struct PublicConfigResponse {
    pub notification: PublicNotificationConfig,
    pub captcha: PublicCaptchaConfig,
    pub verification: PublicVerificationConfig,
}

impl PublicConfigResponse {
    /// The public view of the configuration: the two QQ numbers trimmed of
    /// surrounding whitespace, the other settings as configured.
    pub fn new(
        qq_bot_public_qq_number: &str,
        admin_qq_number: &str,
        captcha: PublicCaptchaConfig,
        verification: PublicVerificationConfig,
    ) -> (r: PublicConfigResponse)
        ensures
            r.notification.qq_bot_public_qq_number@ == spec_trim(qq_bot_public_qq_number@),
            r.notification.admin_qq_number@ == spec_trim(admin_qq_number@),
            r.captcha == captcha,
            r.verification == verification,
    {
        PublicConfigResponse {
            notification: PublicNotificationConfig {
                qq_bot_public_qq_number: trim_str(qq_bot_public_qq_number),
                admin_qq_number: trim_str(admin_qq_number),
            },
            captcha,
            verification,
        }
    }
}

} // verus!
