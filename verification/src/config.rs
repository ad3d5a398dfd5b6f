//! Settings read at start-up and the retention of old files.
use vstd::prelude::*;

use crate::outside::{parse_timezone, timezone_by_name};
use crate::text::{
    chars_of, ends_with_spec, opt_i64, parse_i64, parse_i64_spec, push_all, push_str,
    string_from_chars, trim_end_chars, trim_end_spec, trim_spec, trim_str, TrimSet,
};

verus! {

/// A required setting: its value trimmed, or the report that it is empty.
pub open spec fn required_setting_spec(name: Seq<char>, raw: Option<Seq<char>>) -> Result<
    Seq<char>,
    Seq<char>,
> {
    let value = trim_spec(
        match raw {
            Some(r) => r,
            None => Seq::<char>::empty(),
        },
        TrimSet::Whitespace,
    );
    if value.len() == 0 {
        Err(name + " is empty"@)
    } else {
        Ok(value)
    }
}

/// Reads a required setting from its raw value (`None` when the variable is unset or not
/// Unicode).
pub fn required_setting(name: &str, raw: Option<String>) -> (r: Result<String, String>)
    ensures
        match r {
            Ok(v) => required_setting_spec(
                name@,
                match raw {
                    Some(s) => Some(s@),
                    None => None,
                },
            ) == Ok::<Seq<char>, Seq<char>>(v@),
            Err(e) => required_setting_spec(
                name@,
                match raw {
                    Some(s) => Some(s@),
                    None => None,
                },
            ) == Err::<Seq<char>, Seq<char>>(e@),
        },
{
    let value = match &raw {
        Some(s) => trim_str(s.as_str()),
        None => {
            let empty: Vec<char> = Vec::new();
            assert(trim_spec(empty@, TrimSet::Whitespace) == empty@);
            empty
        },
    };
    if value.len() == 0 {
        let mut out: Vec<char> = Vec::new();
        push_str(&mut out, name);
        push_str(&mut out, " is empty");
        Err(string_from_chars(&out))
    } else {
        Ok(string_from_chars(&value))
    }
}

/// The public API address without trailing slashes.
pub fn public_url(raw: &str) -> (url: String)
    ensures
        url@ == trim_end_spec(raw@, TrimSet::Slash),
{
    let v = chars_of(raw);
    let t = trim_end_chars(&v, TrimSet::Slash);
    string_from_chars(&t)
}

/// Seconds in a day.
pub const SECONDS_PER_DAY: i64 = 86_400;

/// Files last changed before the returned time are removed; `None` when retention is off.
pub open spec fn cleanup_cutoff_spec(now: i64, retention_days: i64) -> Option<int> {
    if retention_days <= 0 {
        None
    } else {
        Some(now - retention_days * SECONDS_PER_DAY)
    }
}

/// The time before which stored files are removed.
pub fn cleanup_cutoff(now: i64, retention_days: i64) -> (cutoff: Option<i64>)
    requires
        retention_days <= 0 || i64::MIN <= now - retention_days * SECONDS_PER_DAY,
        retention_days <= 0 || retention_days * SECONDS_PER_DAY <= i64::MAX,
    ensures
        crate::text::opt_i64(cutoff) == cleanup_cutoff_spec(now, retention_days),
{
    if retention_days <= 0 {
        None
    } else {
        Some(now - retention_days * SECONDS_PER_DAY)
    }
}

/// A regular file that is not a partial download and was last changed before the cutoff.
pub open spec fn should_remove_spec(name: Seq<char>, is_file: bool, modified: i64, cutoff: i64) -> bool {
    is_file && !ends_with_spec(name, ".part"@) && modified < cutoff
}

/// Whether the cleanup removes a directory entry.
pub fn should_remove(name: &str, is_file: bool, modified: i64, cutoff: i64) -> (b: bool)
    ensures
        b == should_remove_spec(name@, is_file, modified, cutoff),
{
    if !is_file {
        return false;
    }
    let v = chars_of(name);
    let part = chars_of(".part");
    !crate::text::ends_with(&v, &part) && modified < cutoff
}

/// An optional setting: its raw value, or `default` when it is unset.
pub open spec fn setting_or_spec(raw: Option<Seq<char>>, default: Seq<char>) -> Seq<char> {
    match raw {
        Some(v) => v,
        None => default,
    }
}

/// The optional view of an optional string.
pub open spec fn opt_string_view(o: Option<String>) -> Option<Seq<char>> {
    match o {
        Some(s) => Some(s@),
        None => None,
    }
}

/// The raw value of an optional setting, or `default` when it is unset.
pub fn setting_or(raw: Option<String>, default: &str) -> (v: String)
    ensures
        v@ == setting_or_spec(opt_string_view(raw), default@),
{
    match raw {
        Some(v) => v,
        None => {
            let d = chars_of(default);
            string_from_chars(&d)
        },
    }
}

/// The time zone named by `OBSIDIAN_TIMEZONE` (`Europe/Moscow` when unset), or the report that
/// the name is unknown.
pub open spec fn config_timezone_spec(raw: Option<Seq<char>>) -> Result<chrono_tz::Tz, Seq<char>> {
    let name = setting_or_spec(raw, "Europe/Moscow"@);
    match timezone_by_name(name) {
        Some(tz) => Ok(tz),
        None => Err("Unknown timezone: "@ + name),
    }
}

/// Reads the time zone setting.
pub fn config_timezone(raw: Option<String>) -> (r: Result<chrono_tz::Tz, String>)
    ensures
        match r {
            Ok(tz) => config_timezone_spec(opt_string_view(raw)) == Ok::<chrono_tz::Tz, Seq<char>>(tz),
            Err(e) => config_timezone_spec(opt_string_view(raw)) == Err::<chrono_tz::Tz, Seq<char>>(e@),
        },
{
    let name = setting_or(raw, "Europe/Moscow");
    match parse_timezone(name.as_str()) {
        Some(tz) => Ok(tz),
        None => {
            let mut out: Vec<char> = Vec::new();
            push_str(&mut out, "Unknown timezone: ");
            push_str(&mut out, name.as_str());
            Err(string_from_chars(&out))
        },
    }
}

/// `base` joined with the relative name `name` (`Path::join`): a `/` goes between them unless
/// `base` is empty or already ends with one.
pub open spec fn path_join_spec(base: Seq<char>, name: Seq<char>) -> Seq<char> {
    if base.len() == 0 || base.last() == '/' {
        base + name
    } else {
        base + "/"@ + name
    }
}

/// Joins a relative name onto a directory path.
pub fn path_join(base: &str, name: &str) -> (p: String)
    ensures
        p@ == path_join_spec(base@, name@),
{
    let b = chars_of(base);
    let mut out: Vec<char> = Vec::new();
    push_all(&mut out, &b);
    if !(b.len() == 0 || b[b.len() - 1] == '/') {
        out.push('/');
    }
    push_str(&mut out, name);
    proof {
        reveal_strlit("/");
    }
    string_from_chars(&out)
}

/// The directories and files of the server's data.
pub struct DataPaths {
    pub data_dir: String,
    pub vault_dir: String,
    pub events_dir: String,
    pub state_path: String,
}

/// The data directory from `SERVER_DATA_DIR` (`/var/lib/telegram-obsidian` when unset), and the
/// vault, event directory and state file in it.
pub fn data_paths(raw: Option<String>) -> (p: DataPaths)
    ensures
        p.data_dir@ == setting_or_spec(opt_string_view(raw), "/var/lib/telegram-obsidian"@),
        p.vault_dir@ == path_join_spec(p.data_dir@, "vault"@),
        p.events_dir@ == path_join_spec(p.data_dir@, "events"@),
        p.state_path@ == path_join_spec(p.data_dir@, "state.json"@),
{
    let data_dir = setting_or(raw, "/var/lib/telegram-obsidian");
    let vault_dir = path_join(data_dir.as_str(), "vault");
    let events_dir = path_join(data_dir.as_str(), "events");
    let state_path = path_join(data_dir.as_str(), "state.json");
    DataPaths { data_dir, vault_dir, events_dir, state_path }
}

/// The listen address from `SERVER_BIND`, `127.0.0.1:18765` when unset.
pub fn bind_setting(raw: Option<String>) -> (v: String)
    ensures
        v@ == setting_or_spec(opt_string_view(raw), "127.0.0.1:18765"@),
{
    setting_or(raw, "127.0.0.1:18765")
}

/// A required whole-number setting: `Err` with the report of `required_setting` when it is
/// empty, or `Invalid <name>` when its trimmed value is not an `i64`.
pub open spec fn number_setting_spec(name: Seq<char>, raw: Option<Seq<char>>) -> Result<int, Seq<char>> {
    match required_setting_spec(name, raw) {
        Err(e) => Err(e),
        Ok(v) => match parse_i64_spec(v) {
            Some(n) => Ok(n),
            None => Err("Invalid "@ + name),
        },
    }
}

/// Reads a required whole-number setting (`TELEGRAM_CHAT_ID`, `ADMIN_USER_ID`).
pub fn number_setting(name: &str, raw: Option<String>) -> (r: Result<i64, String>)
    ensures
        match r {
            Ok(n) => number_setting_spec(name@, opt_string_view(raw)) == Ok::<int, Seq<char>>(n as int),
            Err(e) => number_setting_spec(name@, opt_string_view(raw)) == Err::<int, Seq<char>>(e@),
        },
{
    match required_setting(name, raw) {
        Err(e) => Err(e),
        Ok(v) => match parse_i64(v.as_str()) {
            Some(n) => Ok(n),
            None => {
                let mut out: Vec<char> = Vec::new();
                push_str(&mut out, "Invalid ");
                push_str(&mut out, name);
                Err(string_from_chars(&out))
            },
        },
    }
}

/// The retention in days from `SERVER_RETENTION_DAYS` (30 when unset; the raw value, untrimmed),
/// or `Invalid SERVER_RETENTION_DAYS`.
pub open spec fn retention_days_spec(raw: Option<Seq<char>>) -> Result<int, Seq<char>> {
    match parse_i64_spec(setting_or_spec(raw, "30"@)) {
        Some(n) => Ok(n),
        None => Err("Invalid SERVER_RETENTION_DAYS"@),
    }
}

/// Reads the retention setting.
pub fn retention_days_setting(raw: Option<String>) -> (r: Result<i64, String>)
    ensures
        match r {
            Ok(n) => retention_days_spec(opt_string_view(raw)) == Ok::<int, Seq<char>>(n as int),
            Err(e) => retention_days_spec(opt_string_view(raw)) == Err::<int, Seq<char>>(e@),
        },
{
    let v = setting_or(raw, "30");
    match parse_i64(v.as_str()) {
        Some(n) => Ok(n),
        None => {
            let e = chars_of("Invalid SERVER_RETENTION_DAYS");
            Err(string_from_chars(&e))
        },
    }
}

/// The upload inbox from `DRIVE_INBOX`: its trimmed value, or none when unset or blank.
pub open spec fn drive_inbox_spec(raw: Option<Seq<char>>) -> Option<Seq<char>> {
    match raw {
        Some(v) => if trim_spec(v, TrimSet::Whitespace).len() > 0 {
            Some(trim_spec(v, TrimSet::Whitespace))
        } else {
            None
        },
        None => None,
    }
}

/// Reads the upload inbox setting.
pub fn drive_inbox_setting(raw: Option<String>) -> (r: Option<String>)
    ensures
        opt_string_view(r) == drive_inbox_spec(opt_string_view(raw)),
{
    match raw {
        Some(v) => {
            let t = trim_str(v.as_str());
            if t.len() > 0 {
                Some(string_from_chars(&t))
            } else {
                None
            }
        },
        None => None,
    }
}

} // verus!
