//! How the service is set up.

use vstd::prelude::*;
use crate::text::{
    decimal, decimal_digits, joined, law_digits_give_number, law_only_digits_are_numbers, number_of,
    parse_number,
};
use crate::web::error::{JsonReply, JSON_TYPE};

verus! {

/// Where the service listens by default.
pub const DEFAULT_BIND: &'static str = "127.0.0.1:8080";

/// The upload limit by default, in MiB.
pub const DEFAULT_MAX_UPLOAD_MB: usize = 64;

/// The highest upload limit, in MiB.
pub const MAX_UPLOAD_MB_CAP: usize = 512;

/// The number of workers by default.
pub const DEFAULT_CONCURRENCY: usize = 2;

/// The highest number of workers.
pub const MAX_CONCURRENCY: usize = 16;

/// The number of characters that a password has at least.
pub const MIN_PASSWORD_LEN: usize = 12;

/// The number of bytes that a password has at most.
pub const MAX_PASSWORD_LEN: usize = 512;

/// How long a request waits for a worker, in seconds.
pub const QUEUE_WAIT_SECS: u64 = 30;

/// How long an upload may take, in seconds.
pub const UPLOAD_TIMEOUT_SECS: u64 = 120;

/// The number that the environment variable `value` sets, or `default` where it
/// sets none.
pub open spec fn env_usize_of(value: Option<Seq<char>>, default: usize) -> usize {
    match value {
        Some(text) => match number_of(text, usize::MAX as u64) {
            Some(n) => n as usize,
            None => default,
        },
        None => default,
    }
}

/// The text behind an `Option`.
pub open spec fn str_view(text: Option<&str>) -> Option<Seq<char>> {
    match text {
        Some(t) => Some(t@),
        None => None,
    }
}

/// The number that the environment variable `value` sets, or `default` where it
/// sets none.
pub fn env_usize(value: Option<&str>, default: usize) -> (n: usize)
    ensures
        n == env_usize_of(str_view(value), default),
{
    match value {
        Some(text) => match parse_number(text, usize::MAX as u64) {
            Some(n) => n as usize,
            None => default,
        },
        None => default,
    }
}

/// `n`, brought between `low` and `high`.
pub open spec fn clamped(n: usize, low: usize, high: usize) -> usize {
    if n < low {
        low
    } else if n > high {
        high
    } else {
        n
    }
}

/// `n`, brought between `low` and `high`.
fn clamp(n: usize, low: usize, high: usize) -> (r: usize)
    ensures
        r == clamped(n, low, high),
{
    if n < low {
        low
    } else if n > high {
        high
    } else {
        n
    }
}

/// How the service is set up.
#[derive(Debug)]
pub struct Settings {
    /// The upload limit, in MiB.
    pub max_upload_mb: usize,
    /// The upload limit, in bytes.
    pub max_upload_bytes: usize,
    /// The number of workers.
    pub concurrency: usize,
    /// The token that a POST request needs.
    pub token: Option<String>,
}

/// The settings that the environment variables make.
pub fn settings(upload_mb: Option<&str>, concurrency: Option<&str>, token: Option<String>) -> (s:
    Settings)
    ensures
        s.max_upload_mb == clamped(
            env_usize_of(str_view(upload_mb), DEFAULT_MAX_UPLOAD_MB),
            1,
            MAX_UPLOAD_MB_CAP,
        ),
        1 <= s.max_upload_mb <= 512,
        upload_mb is None ==> s.max_upload_mb == 64,
        s.max_upload_bytes == s.max_upload_mb * 1048576,
        s.max_upload_bytes == s.max_upload_mb * 1024 * 1024,
        s.concurrency == clamped(
            env_usize_of(str_view(concurrency), DEFAULT_CONCURRENCY),
            1,
            MAX_CONCURRENCY,
        ),
        1 <= s.concurrency <= 16,
        concurrency is None ==> s.concurrency == 2,
        match token {
            Some(t) => if t@.len() > 0 {
                s.token matches Some(kept) && kept@ == t@
            } else {
                s.token is None
            },
            None => s.token is None,
        },
{
    let max_upload_mb: usize = clamp(
        env_usize(upload_mb, DEFAULT_MAX_UPLOAD_MB),
        1,
        MAX_UPLOAD_MB_CAP,
    );
    let concurrency: usize = clamp(
        env_usize(concurrency, DEFAULT_CONCURRENCY),
        1,
        MAX_CONCURRENCY,
    );
    let token = match token {
        Some(t) => if t.as_str().is_empty() {
            None
        } else {
            Some(t)
        },
        None => None,
    };
    Settings { max_upload_mb, max_upload_bytes: max_upload_mb * 1024 * 1024, concurrency, token }
}

/// Where the service listens, if the environment variable is `value`.
pub fn bind_address(value: Option<String>) -> (address: String)
    ensures
        address@ == match value {
            Some(text) => text@,
            None => DEFAULT_BIND@,
        },
{
    match value {
        Some(text) => text,
        None => DEFAULT_BIND.to_owned(),
    }
}

/// What is shown when `address` is no address.
pub fn invalid_bind(address: &str) -> (text: String)
    ensures
        text@ == "Invalid ENCRYPT_WEB_BIND value: "@ + address@,
{
    joined("Invalid ENCRYPT_WEB_BIND value: ", address)
}

/// Whether the service refuses to run for the user `uid`, where the environment
/// variable that allows root is `allow`.
pub open spec fn refuses_root(uid: u32, allow: Option<Seq<char>>) -> bool {
    uid == 0 && allow != Some("1"@)
}

/// Refuses to run as root, unless that is allowed.
pub fn refuse_root(uid: u32, allow: Option<&str>) -> (r: Result<(), String>)
    ensures
        match r {
            Ok(()) => !refuses_root(uid, str_view(allow)),
            Err(text) => refuses_root(uid, str_view(allow)) && text@
                == "Refusing to run as root. Run as an unprivileged user, or set ENCRYPT_WEB_ALLOW_ROOT=1 if you fully understand the consequences."@,
        },
{
    let allowed = match allow {
        Some(text) => text.to_owned() == "1".to_owned(),
        None => false,
    };
    if uid == 0 && !allowed {
        return Err(
            "Refusing to run as root. Run as an unprivileged user, or set ENCRYPT_WEB_ALLOW_ROOT=1 if you fully understand the consequences.".to_owned(),
        );
    }
    Ok(())
}

/// The line that the service shows when it listens.
pub fn listening_line(address: &str, uid: u32, s: &Settings) -> (text: String)
    ensures
        text@ == "encrypt-web listening on http://"@ + address@ + " (uid "@ + decimal_digits(
            uid as nat,
        ) + ", max upload "@ + decimal_digits(s.max_upload_mb as nat) + " MiB, workers "@
            + decimal_digits(s.concurrency as nat) + ", token auth "@ + (if s.token is Some {
            "on"@
        } else {
            "off"@
        }) + ")"@,
{
    let mut text = joined("encrypt-web listening on http://", address);
    text.append(" (uid ");
    text.append(decimal(uid as u64).as_str());
    text.append(", max upload ");
    text.append(decimal(s.max_upload_mb as u64).as_str());
    text.append(" MiB, workers ");
    text.append(decimal(s.concurrency as u64).as_str());
    text.append(", token auth ");
    if s.token.is_some() {
        text.append("on");
    } else {
        text.append("off");
    }
    text.append(")");
    text
}

/// What the service tells a page about an upload limit of this many bytes.
pub open spec fn config_text(max_upload_bytes: nat) -> Seq<char> {
    "{\"max_upload_bytes\":"@ + decimal_digits(max_upload_bytes) + ",\"min_password_length\":"@
        + decimal_digits(MIN_PASSWORD_LEN as nat) + "}"@
}

/// What the service tells a page about its limits, in JSON.
pub fn config(max_upload_bytes: usize) -> (reply: JsonReply)
    ensures
        reply.content_type@ == JSON_TYPE@,
        reply.body@ == config_text(max_upload_bytes as nat),
        reply.body@ == "{\"max_upload_bytes\":"@ + decimal_digits(max_upload_bytes as nat)
            + ",\"min_password_length\":"@ + decimal_digits(MIN_PASSWORD_LEN as nat) + "}"@,
{
    let mut body = joined("{\"max_upload_bytes\":", decimal(max_upload_bytes as u64).as_str());
    body.append(",\"min_password_length\":");
    body.append(decimal(MIN_PASSWORD_LEN as u64).as_str());
    body.append("}");
    JsonReply { content_type: JSON_TYPE, body }
}

/// A number that is brought between two others stays as it is where it can, and
/// becomes the nearer of the two where it cannot.
pub proof fn law_clamped(n: usize, low: usize, high: usize)
    requires
        low <= high,
    ensures
        low <= clamped(n, low, high) <= high,
        low <= n <= high ==> clamped(n, low, high) == n,
        n < low ==> clamped(n, low, high) == low,
        n > high ==> clamped(n, low, high) == high,
{
}

/// A variable that holds the digits of a number sets that number. One that is not
/// there, is empty, or holds anything but digits behind a sign, sets none.
pub proof fn law_variable_sets_its_number(n: usize, text: Seq<char>, default: usize)
    ensures
        env_usize_of(Some(decimal_digits(n as nat)), default) == n,
        env_usize_of(None, default) == default,
        env_usize_of(Some(Seq::empty()), default) == default,
        forall|i: int|
            0 <= i < text.len() && !('0' <= #[trigger] text[i] <= '9') && !(i == 0 && text[i]
                == '+') ==> env_usize_of(Some(text), default) == default,
{
    law_digits_give_number(n as nat, usize::MAX as u64);
    law_only_digits_are_numbers(text, usize::MAX as u64);
    law_only_digits_are_numbers(Seq::empty(), usize::MAX as u64);
}

/// No user but root is refused, and root is refused unless the variable holds
/// nothing but a one.
pub proof fn law_only_root_is_refused(uid: u32, allow: Option<Seq<char>>)
    ensures
        uid != 0 ==> !refuses_root(uid, allow),
        uid == 0 ==> (refuses_root(uid, allow) <==> !(allow matches Some(text) && text.len() == 1
            && text[0] == '1')),
{
    reveal_strlit("1");
    if let Some(text) = allow {
        if text.len() == 1 && text[0] == '1' {
            assert(text =~= "1"@);
        }
    }
}

/// A page is told the whole limit, in digits, and that a password has 12 characters
/// at least.
pub proof fn law_config_tells_the_limits(n: nat)
    ensures
        config_text(n) == "{\"max_upload_bytes\":"@ + decimal_digits(n)
            + ",\"min_password_length\":12}"@,
{
    reveal_strlit(",\"min_password_length\":");
    reveal_strlit(",\"min_password_length\":12}");
    reveal_strlit("}");
    reveal_with_fuel(decimal_digits, 3);
    assert(decimal_digits(12) =~= seq!['1', '2']);
    assert(config_text(n) =~= "{\"max_upload_bytes\":"@ + decimal_digits(n)
        + ",\"min_password_length\":12}"@);
}

} // verus!
