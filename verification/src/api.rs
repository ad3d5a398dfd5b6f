//! The Telegram Bot API: request addresses, error reports, and keeping the bot token out of them.
use vstd::prelude::*;

use crate::text::{
    chars_of, decimal_spec, push_decimal, push_str, replace_spec, replace_str,
    string_from_chars,
};

verus! {

/// The address of a Bot API method.
pub open spec fn api_endpoint_spec(token: Seq<char>, method: Seq<char>) -> Seq<char> {
    "https://api.telegram.org/bot"@ + token + "/"@ + method
}

/// The address of a Bot API method for the bot with `token`.
pub fn api_endpoint(token: &str, method: &str) -> (url: String)
    ensures
        url@ == api_endpoint_spec(token@, method@),
{
    let mut out: Vec<char> = Vec::new();
    push_str(&mut out, "https://api.telegram.org/bot");
    push_str(&mut out, token);
    push_str(&mut out, "/");
    push_str(&mut out, method);
    string_from_chars(&out)
}

/// The download address of a file that `getFile` reported.
pub open spec fn file_url_spec(token: Seq<char>, remote_path: Seq<char>) -> Seq<char> {
    "https://api.telegram.org/file/bot"@ + token + "/"@ + remote_path
}

/// The download address of a Telegram file.
pub fn file_url(token: &str, remote_path: &str) -> (url: String)
    ensures
        url@ == file_url_spec(token@, remote_path@),
{
    let mut out: Vec<char> = Vec::new();
    push_str(&mut out, "https://api.telegram.org/file/bot");
    push_str(&mut out, token);
    push_str(&mut out, "/");
    push_str(&mut out, remote_path);
    string_from_chars(&out)
}

/// A transport error text with every occurrence of the bot token replaced by `[REDACTED]`.
pub fn redact_transport_error(message: &str, token: &str) -> (out: String)
    ensures
        out@ == replace_spec(message@, token@, "[REDACTED]"@),
{
    replace_str(message, token, "[REDACTED]")
}

/// The report of a request that did not reach Telegram.
pub open spec fn transport_error_spec(method: Seq<char>, error: Seq<char>, token: Seq<char>) -> Seq<
    char,
> {
    "Telegram API request failed: "@ + method + ": "@ + replace_spec(error, token, "[REDACTED]"@)
}

/// The report of a request that did not reach Telegram, without the bot token.
pub fn transport_error(method: &str, error: &str, token: &str) -> (report: String)
    ensures
        report@ == transport_error_spec(method@, error@, token@),
{
    let redacted = redact_transport_error(error, token);
    let mut out: Vec<char> = Vec::new();
    push_str(&mut out, "Telegram API request failed: ");
    push_str(&mut out, method);
    push_str(&mut out, ": ");
    push_str(&mut out, redacted.as_str());
    string_from_chars(&out)
}

/// The report of a file download that did not reach Telegram.
pub fn download_error(error: &str, token: &str) -> (report: String)
    ensures
        report@ == "Telegram file download failed: "@ + replace_spec(error@, token@, "[REDACTED]"@),
{
    let redacted = redact_transport_error(error, token);
    let mut out: Vec<char> = Vec::new();
    push_str(&mut out, "Telegram file download failed: ");
    push_str(&mut out, redacted.as_str());
    string_from_chars(&out)
}

/// The report of a reply that Telegram marked as failed, or `None` for a success: the HTTP
/// status must be a success and the reply's `ok` true.
pub open spec fn api_error_spec(
    method: Seq<char>,
    status_success: bool,
    ok: bool,
    description: Option<Seq<char>>,
    error_code: Option<i64>,
    body: Seq<char>,
) -> Option<Seq<char>> {
    if !status_success || !ok {
        let code = match error_code {
            Some(c) => " ("@ + decimal_spec(c as int) + ")"@,
            None => Seq::<char>::empty(),
        };
        let text = match description {
            Some(d) => d,
            None => body,
        };
        Some("Telegram API "@ + method + " error"@ + code + ": "@ + text)
    } else {
        None
    }
}

/// Checks a decoded Bot API reply; `body` is the raw reply, reported when there is no
/// description.
pub fn api_error(
    method: &str,
    status_success: bool,
    ok: bool,
    description: Option<String>,
    error_code: Option<i64>,
    body: &str,
) -> (report: Option<String>)
    ensures
        match report {
            Some(r) => api_error_spec(
                method@,
                status_success,
                ok,
                match description {
                    Some(d) => Some(d@),
                    None => None,
                },
                error_code,
                body@,
            ) == Some(r@),
            None => api_error_spec(
                method@,
                status_success,
                ok,
                match description {
                    Some(d) => Some(d@),
                    None => None,
                },
                error_code,
                body@,
            ) is None,
        },
{
    if status_success && ok {
        return None;
    }
    let mut out: Vec<char> = Vec::new();
    push_str(&mut out, "Telegram API ");
    push_str(&mut out, method);
    push_str(&mut out, " error");
    match error_code {
        Some(c) => {
            push_str(&mut out, " (");
            push_decimal(&mut out, c);
            push_str(&mut out, ")");
        },
        None => {},
    }
    push_str(&mut out, ": ");
    match &description {
        Some(d) => push_str(&mut out, d.as_str()),
        None => push_str(&mut out, body),
    }
    Some(string_from_chars(&out))
}

/// The report of a successful reply without a result.
pub fn missing_result_error(method: &str) -> (report: String)
    ensures
        report@ == "Telegram API "@ + method@ + " returned no result"@,
{
    let mut out: Vec<char> = Vec::new();
    push_str(&mut out, "Telegram API ");
    push_str(&mut out, method);
    push_str(&mut out, " returned no result");
    string_from_chars(&out)
}

} // verus!
