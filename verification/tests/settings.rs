use telegram_obsidian::api::{
    api_endpoint, api_error, download_error, file_url, missing_result_error, redact_transport_error,
    transport_error,
};
use telegram_obsidian::config::{
    bind_setting, cleanup_cutoff, config_timezone, data_paths, drive_inbox_setting, number_setting,
    path_join, public_url, required_setting, retention_days_setting, setting_or, should_remove,
};
use telegram_obsidian::poll::{after_update, poll_params, PollStep, UpdateOutcome};
use telegram_obsidian::text::{html_escape, parse_i64};

#[test]
fn tokens_are_redacted() {
    assert_eq!(
        redact_transport_error("error sending request for url (https://api.telegram.org/botT0K/getMe)", "T0K"),
        "error sending request for url (https://api.telegram.org/bot[REDACTED]/getMe)"
    );
    assert_eq!(redact_transport_error("T0K and T0K", "T0K"), "[REDACTED] and [REDACTED]");
    assert_eq!(redact_transport_error("nothing here", "T0K"), "nothing here");
}

#[test]
fn transport_errors_hide_the_token() {
    assert_eq!(
        transport_error("getUpdates", "timeout at botSECRET", "SECRET"),
        "Telegram API request failed: getUpdates: timeout at bot[REDACTED]"
    );
    assert_eq!(
        download_error("refused for SECRET", "SECRET"),
        "Telegram file download failed: refused for [REDACTED]"
    );
}

#[test]
fn api_urls() {
    assert_eq!(api_endpoint("123:abc", "getMe"), "https://api.telegram.org/bot123:abc/getMe");
    assert_eq!(file_url("123:abc", "photos/file_1.jpg"), "https://api.telegram.org/file/bot123:abc/photos/file_1.jpg");
}

#[test]
fn api_replies_are_checked() {
    assert!(api_error("getMe", true, true, None, None, "{}").is_none());
    assert_eq!(
        api_error("sendMessage", false, false, Some("Bad Request: chat not found".to_string()), Some(400), "{}").as_deref(),
        Some("Telegram API sendMessage error (400): Bad Request: chat not found")
    );
    assert_eq!(
        api_error("getFile", true, false, None, None, "raw body").as_deref(),
        Some("Telegram API getFile error: raw body")
    );
    assert_eq!(
        api_error("getFile", false, true, None, Some(-5), "b").as_deref(),
        Some("Telegram API getFile error (-5): b")
    );
    assert_eq!(missing_result_error("getMe"), "Telegram API getMe returned no result");
}

#[test]
fn required_settings() {
    assert_eq!(required_setting("BOT_TOKEN", Some("  abc \n".to_string())).ok().as_deref(), Some("abc"));
    assert_eq!(required_setting("BOT_TOKEN", Some("   ".to_string())).err().as_deref(), Some("BOT_TOKEN is empty"));
    assert_eq!(required_setting("ADMIN_USER_ID", None).err().as_deref(), Some("ADMIN_USER_ID is empty"));
}

#[test]
fn public_urls_lose_trailing_slashes() {
    assert_eq!(public_url("https://x.example//"), "https://x.example");
    assert_eq!(public_url("https://x.example"), "https://x.example");
    assert_eq!(public_url("///"), "");
}

#[test]
fn cleanup_cutoffs() {
    assert_eq!(cleanup_cutoff(1_000_000, 0), None);
    assert_eq!(cleanup_cutoff(1_000_000, -3), None);
    assert_eq!(cleanup_cutoff(1_000_000, 2), Some(1_000_000 - 172_800));
    assert!(should_remove("a.json", true, 5, 10));
    assert!(!should_remove("a.json", true, 10, 10));
    assert!(!should_remove("a.download.part", true, 5, 10));
    assert!(!should_remove("dir", false, 5, 10));
}

#[test]
fn html_is_escaped() {
    assert_eq!(html_escape("<a href=\"x\">Tom's & co</a>"), "&lt;a href=&quot;x&quot;&gt;Tom&#39;s &amp; co&lt;/a&gt;");
    assert_eq!(html_escape("&amp;"), "&amp;amp;");
    assert_eq!(html_escape("plain"), "plain");
}

#[test]
fn integers_parse_as_rust_does() {
    assert_eq!(parse_i64("123"), Some(123));
    assert_eq!(parse_i64("+7"), Some(7));
    assert_eq!(parse_i64("-100123"), Some(-100123));
    assert_eq!(parse_i64("9223372036854775807"), Some(i64::MAX));
    assert_eq!(parse_i64("-9223372036854775808"), Some(i64::MIN));
    assert_eq!(parse_i64("9223372036854775808"), None);
    assert_eq!(parse_i64(""), None);
    assert_eq!(parse_i64("-"), None);
    assert_eq!(parse_i64(" 1"), None);
    assert_eq!(parse_i64("1a"), None);
}

#[test]
fn time_zone_setting() {
    assert_eq!(config_timezone(None).ok(), Some(chrono_tz::Europe::Moscow));
    assert_eq!(config_timezone(Some("Asia/Tokyo".to_string())).ok(), Some(chrono_tz::Asia::Tokyo));
    assert_eq!(config_timezone(Some("Mars/Base".to_string())).err().as_deref(), Some("Unknown timezone: Mars/Base"));
}

#[test]
fn data_paths_and_defaults() {
    let p = data_paths(None);
    assert_eq!(p.data_dir, "/var/lib/telegram-obsidian");
    assert_eq!(p.vault_dir, "/var/lib/telegram-obsidian/vault");
    assert_eq!(p.events_dir, "/var/lib/telegram-obsidian/events");
    assert_eq!(p.state_path, "/var/lib/telegram-obsidian/state.json");
    let p = data_paths(Some("/srv/data/".to_string()));
    assert_eq!(p.vault_dir, "/srv/data/vault");
    assert_eq!(path_join("", "vault"), "vault");
    assert_eq!(bind_setting(None), "127.0.0.1:18765");
    assert_eq!(bind_setting(Some("0.0.0.0:80".to_string())), "0.0.0.0:80");
    assert_eq!(setting_or(None, "x"), "x");
}

#[test]
fn numeric_settings() {
    assert_eq!(number_setting("ADMIN_USER_ID", Some(" 42 ".to_string())).ok(), Some(42));
    assert_eq!(number_setting("ADMIN_USER_ID", Some("4x".to_string())).err().as_deref(), Some("Invalid ADMIN_USER_ID"));
    assert_eq!(number_setting("ADMIN_USER_ID", None).err().as_deref(), Some("ADMIN_USER_ID is empty"));
    assert_eq!(retention_days_setting(None).ok(), Some(30));
    assert_eq!(retention_days_setting(Some("7".to_string())).ok(), Some(7));
    assert_eq!(retention_days_setting(Some(" 7".to_string())).err().as_deref(), Some("Invalid SERVER_RETENTION_DAYS"));
    assert_eq!(drive_inbox_setting(Some("  /inbox ".to_string())).as_deref(), Some("/inbox"));
    assert_eq!(drive_inbox_setting(Some("   ".to_string())), None);
    assert_eq!(drive_inbox_setting(None), None);
}

#[test]
fn polling_decisions() {
    let p = poll_params(Some(12));
    assert_eq!(p.timeout, 25);
    assert_eq!(p.allowed_updates, vec!["message".to_string()]);
    assert_eq!(p.offset, Some(12));
    assert_eq!(poll_params(None).offset, None);
    assert!(matches!(after_update(41, UpdateOutcome::Handled), PollStep::SaveAndContinue { offset: 42 }));
    assert!(matches!(after_update(41, UpdateOutcome::Failed), PollStep::StopBatch));
}

#[test]
fn escaped_html_replaces_back() {
    for text in ["<a href=\"x\">Tom's & co</a>", "&lt; is literal", "&amp;amp;", "plain"] {
        let back = html_escape(text)
            .replace("&lt;", "<")
            .replace("&gt;", ">")
            .replace("&quot;", "\"")
            .replace("&#39;", "'")
            .replace("&amp;", "&");
        assert_eq!(back, text);
    }
}
