use telegram_obsidian::state::{
    advance_offset, check_asset_request, generate_pair_code, hex_of_bytes, pair_code_from, is_authorized, is_processed,
    issue_pair_code, mark_processed, pair_device, pair_panel_text, random_hex, ApiToken,
    AssetRejection, PairCode, PersistentState, MAX_PROCESSED, PAIR_CODE_TTL_SECONDS,
};

fn state_with_token(token: &str) -> PersistentState {
    let mut s = PersistentState::empty();
    s.api_tokens.push(ApiToken {
        token: token.to_string(),
        device_name: "phone".to_string(),
        created_at: 1,
    });
    s
}

#[test]
fn marking_records_each_key_once() {
    let mut s = PersistentState::empty();
    mark_processed(&mut s, "1:10".to_string());
    mark_processed(&mut s, "1:11".to_string());
    mark_processed(&mut s, "1:10".to_string());
    assert_eq!(s.processed, vec!["1:10".to_string(), "1:11".to_string()]);
    assert!(is_processed(&s, &"1:11".to_string()));
    assert!(!is_processed(&s, &"1:12".to_string()));
}

#[test]
fn marking_keeps_only_the_latest_keys() {
    let mut s = PersistentState::empty();
    for i in 0..(MAX_PROCESSED + 3) {
        mark_processed(&mut s, format!("k{i}"));
    }
    assert_eq!(s.processed.len(), MAX_PROCESSED);
    assert_eq!(s.processed[0], "k3");
    assert_eq!(s.processed[MAX_PROCESSED - 1], format!("k{}", MAX_PROCESSED + 2));
    assert!(!is_processed(&s, &"k0".to_string()));
}

#[test]
fn bearer_tokens_authorize() {
    let s = state_with_token("abc");
    assert!(is_authorized(Some("Bearer abc"), &s));
    assert!(!is_authorized(Some("Bearer abd"), &s));
    assert!(!is_authorized(Some("bearer abc"), &s));
    assert!(!is_authorized(Some("abc"), &s));
    assert!(!is_authorized(None, &s));
    assert!(!is_authorized(Some("Bearer abc"), &PersistentState::empty()));
}

#[test]
fn random_tokens_are_lowercase_hex() {
    let t = random_hex(32);
    assert_eq!(t.len(), 64);
    assert!(t.chars().all(|c| c.is_ascii_digit() || ('a'..='f').contains(&c)));
    assert_eq!(random_hex(0), "");
}

#[test]
fn pair_codes_are_six_digits() {
    for _ in 0..50 {
        let code = generate_pair_code();
        assert_eq!(code.len(), 6);
        assert!(code.chars().all(|c| c.is_ascii_digit()));
    }
}

#[test]
fn issued_code_expires_after_ten_minutes() {
    let mut s = PersistentState::empty();
    s.offset = Some(5);
    let code = issue_pair_code(&mut s, 1_000);
    let pair = s.pair_code.as_ref().unwrap();
    assert_eq!(pair.code, code);
    assert_eq!(pair.expires_at, 1_000 + PAIR_CODE_TTL_SECONDS);
    assert_eq!(s.offset, Some(5));
}

#[test]
fn pairing_uses_up_the_code() {
    let mut s = PersistentState::empty();
    s.pair_code = Some(PairCode { code: "123456".to_string(), expires_at: 2_000 });
    let token = pair_device(&mut s, " 123456 ", None, 1_500).unwrap();
    assert_eq!(token.len(), 64);
    assert!(s.pair_code.is_none());
    assert_eq!(s.api_tokens.len(), 1);
    assert_eq!(s.api_tokens[0].token, token);
    assert_eq!(s.api_tokens[0].device_name, "obsidian");
    assert_eq!(s.api_tokens[0].created_at, 1_500);
    assert!(is_authorized(Some(&format!("Bearer {token}")), &s));
    assert!(pair_device(&mut s, "123456", None, 1_500).is_none());
    assert_eq!(s.api_tokens.len(), 1);
}

#[test]
fn pairing_refuses_wrong_or_expired_codes() {
    let mut s = PersistentState::empty();
    s.pair_code = Some(PairCode { code: "123456".to_string(), expires_at: 2_000 });
    assert!(pair_device(&mut s, "654321", None, 1_000).is_none());
    assert!(pair_device(&mut s, "123456", None, 2_001).is_none());
    assert!(s.pair_code.is_some());
    assert!(s.api_tokens.is_empty());
    assert!(pair_device(&mut s, "123456", None, 2_000).is_some());
    let mut none = PersistentState::empty();
    assert!(pair_device(&mut none, "", None, 0).is_none());
}

#[test]
fn device_names_are_cut_to_eighty_characters() {
    let mut s = PersistentState::empty();
    s.pair_code = Some(PairCode { code: "000001".to_string(), expires_at: 10 });
    let long: String = std::iter::repeat('ж').take(100).collect();
    pair_device(&mut s, "000001", Some(long), 5).unwrap();
    assert_eq!(s.api_tokens[0].device_name.chars().count(), 80);
    let mut t = PersistentState::empty();
    t.pair_code = Some(PairCode { code: "000002".to_string(), expires_at: 10 });
    pair_device(&mut t, "000002", Some("laptop".to_string()), 5).unwrap();
    assert_eq!(t.api_tokens[0].device_name, "laptop");
}

#[test]
fn earlier_tokens_keep_working_after_pairing() {
    let mut s = state_with_token("old");
    s.pair_code = Some(PairCode { code: "111111".to_string(), expires_at: 100 });
    pair_device(&mut s, "111111", None, 50).unwrap();
    assert!(is_authorized(Some("Bearer old"), &s));
}

#[test]
fn pair_panel_message() {
    assert_eq!(
        pair_panel_text("https://x.example", "042042"),
        "Панель Telegram → Obsidian\n\nСтатус: сервер работает\nAPI: https://x.example\nКод привязки: 042042\nКод одноразовый и действует 10 минут. Введи его в настройках плагина Telegram Custom Emoji."
    );
}

#[test]
fn offsets_advance_past_the_update() {
    let mut s = PersistentState::empty();
    advance_offset(&mut s, 41);
    assert_eq!(s.offset, Some(42));
}

#[test]
fn asset_requests_are_checked() {
    let s = state_with_token("tok");
    assert_eq!(
        check_asset_request(Some("Bearer tok"), &s, "Универ/a.jpg").ok().as_deref(),
        Some("Универ/a.jpg")
    );
    assert!(matches!(
        check_asset_request(Some("Bearer tok"), &s, "../a.jpg"),
        Err(AssetRejection::InvalidPath)
    ));
    assert!(matches!(
        check_asset_request(None, &s, "../a.jpg"),
        Err(AssetRejection::Unauthorized)
    ));
    assert!(matches!(
        check_asset_request(Some("Bearer nope"), &s, "a.jpg"),
        Err(AssetRejection::Unauthorized)
    ));
}

#[test]
fn pair_codes_are_zero_padded() {
    assert_eq!(pair_code_from(0), "000000");
    assert_eq!(pair_code_from(42), "000042");
    assert_eq!(pair_code_from(999_999), "999999");
}

#[test]
fn bytes_become_hex() {
    assert_eq!(hex_of_bytes(&vec![0x00, 0x0f, 0xa5, 0xff]), "000fa5ff");
    assert_eq!(hex_of_bytes(&Vec::new()), "");
}

#[test]
fn random_tokens_differ() {
    assert_ne!(random_hex(32), random_hex(32));
}
