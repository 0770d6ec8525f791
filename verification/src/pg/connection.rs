//! How a connection profile's SSL mode decides the way to connect.
use vstd::prelude::*;
use crate::pg::error::AppError;
use crate::text::{ascii_lower, to_ascii_lowercase, owned, push_str, string_of};

verus! {

/// What a successful connection reports.
#[derive(Clone, Debug)]
pub struct ConnectionInfo {
    pub server_version: String,
    pub database: String,
    pub user: String,
    pub elapsed_ms: u128,
}

/// The SSL modes that a profile may name.
#[derive(Clone, Copy, Debug, PartialEq, Eq, Structural)]
pub enum ProfileSslMode {
    Disable,
    Allow,
    Prefer,
    Require,
    VerifyCa,
    VerifyFull,
}

/// The SSL mode that a profile's `sslmode` names, ignoring ASCII case.
pub open spec fn ssl_mode_named(value: Seq<char>) -> Option<ProfileSslMode> {
    let v = ascii_lower(value);
    if v == "disable"@ {
        Some(ProfileSslMode::Disable)
    } else if v == "allow"@ {
        Some(ProfileSslMode::Allow)
    } else if v == "prefer"@ {
        Some(ProfileSslMode::Prefer)
    } else if v == "require"@ {
        Some(ProfileSslMode::Require)
    } else if v == "verify-ca"@ {
        Some(ProfileSslMode::VerifyCa)
    } else if v == "verify-full"@ {
        Some(ProfileSslMode::VerifyFull)
    } else {
        None
    }
}

/// The message for an SSL mode that is not known.
pub open spec fn unknown_ssl_mode_text(lowered: Seq<char>) -> Seq<char> {
    "不支持的 sslmode“"@ + lowered + "”；可选 disable、allow、prefer、require、verify-ca、verify-full"@
}

/// Reads the SSL mode of a profile.
pub fn ssl_mode(value: &str) -> (r: Result<ProfileSslMode, AppError>)
    ensures
        match ssl_mode_named(value@) {
            Some(m) => r matches Ok(x) && x == m,
            None => r matches Err(AppError::Config(t)) && t@ == unknown_ssl_mode_text(
                ascii_lower(value@),
            ),
        },
{
    let v = to_ascii_lowercase(value);
    if v == owned("disable") {
        Ok(ProfileSslMode::Disable)
    } else if v == owned("allow") {
        Ok(ProfileSslMode::Allow)
    } else if v == owned("prefer") {
        Ok(ProfileSslMode::Prefer)
    } else if v == owned("require") {
        Ok(ProfileSslMode::Require)
    } else if v == owned("verify-ca") {
        Ok(ProfileSslMode::VerifyCa)
    } else if v == owned("verify-full") {
        Ok(ProfileSslMode::VerifyFull)
    } else {
        let mut m: Vec<char> = Vec::new();
        push_str(&mut m, "不支持的 sslmode“");
        push_str(&mut m, v.as_str());
        push_str(&mut m, "”；可选 disable、allow、prefer、require、verify-ca、verify-full");
        Err(AppError::Config(string_of(m.as_slice())))
    }
}

/// Which certificate checks a TLS connection leaves out.
#[derive(Clone, Copy, Debug, PartialEq, Eq, Structural)]
pub struct TlsSettings {
    pub accept_invalid_certs: bool,
    pub accept_invalid_hostnames: bool,
}

/// The checks for `mode`: `allow`, `prefer` and `require` encrypt without checking the
/// certificate, `verify-ca` checks the certificate but not the host name, and the others
/// check both.
pub fn tls_settings(mode: ProfileSslMode) -> (r: TlsSettings)
    ensures
        r.accept_invalid_certs == (mode == ProfileSslMode::Allow || mode == ProfileSslMode::Prefer
            || mode == ProfileSslMode::Require),
        r.accept_invalid_hostnames == (mode == ProfileSslMode::Allow || mode == ProfileSslMode::Prefer
            || mode == ProfileSslMode::Require || mode == ProfileSslMode::VerifyCa),
{
    match mode {
        ProfileSslMode::Allow | ProfileSslMode::Prefer | ProfileSslMode::Require => TlsSettings {
            accept_invalid_certs: true,
            accept_invalid_hostnames: true,
        },
        ProfileSslMode::VerifyCa => TlsSettings {
            accept_invalid_certs: false,
            accept_invalid_hostnames: true,
        },
        ProfileSslMode::VerifyFull | ProfileSslMode::Disable => TlsSettings {
            accept_invalid_certs: false,
            accept_invalid_hostnames: false,
        },
    }
}

/// How to open a connection.
#[derive(Clone, Copy, Debug, PartialEq, Eq, Structural)]
pub enum ConnectPlan {
    /// Without TLS only.
    Plain,
    /// Without TLS, and with TLS where that fails.
    PlainThenTls,
    /// With TLS; `prefer` lets the server decline it.
    Tls { prefer: bool },
}

/// The way to connect for `mode`.
pub fn connect_plan(mode: ProfileSslMode) -> (r: ConnectPlan)
    ensures
        mode == ProfileSslMode::Disable ==> r == ConnectPlan::Plain,
        mode == ProfileSslMode::Allow ==> r == ConnectPlan::PlainThenTls,
        mode == ProfileSslMode::Prefer ==> r == (ConnectPlan::Tls { prefer: true }),
        mode == ProfileSslMode::Require || mode == ProfileSslMode::VerifyCa || mode
            == ProfileSslMode::VerifyFull ==> r == (ConnectPlan::Tls { prefer: false }),
{
    match mode {
        ProfileSslMode::Disable => ConnectPlan::Plain,
        ProfileSslMode::Allow => ConnectPlan::PlainThenTls,
        ProfileSslMode::Prefer => ConnectPlan::Tls { prefer: true },
        _ => ConnectPlan::Tls { prefer: false },
    }
}

/// The message when both the plain connection and the TLS retry of `allow` fail.
pub fn allow_retry_error(plain_error: &str, tls_error: &str) -> (r: AppError)
    ensures
        r matches AppError::Config(t) && t@ == "非 TLS 连接失败："@ + plain_error@ + "；TLS 重试失败："@
            + tls_error@,
{
    let mut m: Vec<char> = Vec::new();
    push_str(&mut m, "非 TLS 连接失败：");
    push_str(&mut m, plain_error);
    push_str(&mut m, "；TLS 重试失败：");
    push_str(&mut m, tls_error);
    AppError::Config(string_of(m.as_slice()))
}

} // verus!
