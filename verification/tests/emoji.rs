use std::io::Write;

use telegram_obsidian::emoji::{
    collect_custom_emoji_ids, custom_emoji_size, decode_tgs, emoji_dir, emoji_layout_ok,
    plan_emoji_sticker, render_custom_emoji, CustomEmojiAsset, CustomEmojiSticker, EmojiAssets,
    MessageEntity, TgsError,
};

fn custom(offset: usize, length: usize, id: &str) -> MessageEntity {
    MessageEntity {
        kind: "custom_emoji".to_string(),
        offset,
        length,
        custom_emoji_id: Some(id.to_string()),
    }
}

fn bold(offset: usize, length: usize) -> MessageEntity {
    MessageEntity { kind: "bold".to_string(), offset, length, custom_emoji_id: None }
}

fn asset(id: &str, repaint: bool) -> CustomEmojiAsset {
    CustomEmojiAsset {
        path: format!("/data/vault/Универ/Вложения/telegram-emoji/{id}.webp"),
        vault_path: format!("Универ/Вложения/telegram-emoji/{id}.webp"),
        needs_repainting: repaint,
    }
}

fn assets(ids: &[&str]) -> EmojiAssets {
    let mut m = EmojiAssets::new();
    for id in ids {
        m.insert(id.to_string(), asset(id, false));
    }
    m
}

#[test]
fn emoji_next_to_text_are_small() {
    let text = "hi 😀";
    let entities = vec![custom(3, 2, "e1")];
    assert_eq!(custom_emoji_size(text, &entities, &assets(&["e1"])), 22);
}

#[test]
fn a_single_emoji_alone_is_large() {
    let entities = vec![custom(0, 2, "e1")];
    assert_eq!(custom_emoji_size("😀", &entities, &assets(&["e1"])), 96);
    assert_eq!(custom_emoji_size(" 😀\n", &[custom(1, 2, "e1")], &assets(&["e1"])), 96);
}

#[test]
fn several_emoji_alone_shrink_with_their_number() {
    let two = vec![custom(0, 2, "a"), custom(3, 2, "b")];
    assert_eq!(custom_emoji_size("😀 😀", &two, &assets(&["a", "b"])), 79);
    let three = vec![custom(0, 2, "a"), custom(2, 2, "b"), custom(4, 2, "c")];
    assert_eq!(custom_emoji_size("😀😀😀", &three, &assets(&["a", "b", "c"])), 65);
    let text: String = std::iter::repeat("😀").take(8).collect();
    let eight: Vec<MessageEntity> = (0..8).map(|i| custom(2 * i, 2, "a")).collect();
    assert_eq!(custom_emoji_size(&text, &eight, &assets(&["a"])), 42);
}

#[test]
fn emoji_without_assets_count_as_nothing() {
    let entities = vec![custom(0, 2, "missing")];
    assert_eq!(custom_emoji_size("😀", &entities, &assets(&["e1"])), 22);
    assert_eq!(custom_emoji_size("plain", &[bold(0, 5)], &EmojiAssets::new()), 22);
}

#[test]
fn emoji_are_rendered_as_spans() {
    let text = "hi 😀";
    let entities = vec![custom(3, 2, "e1")];
    let out = render_custom_emoji(text, &entities, &assets(&["e1"]), 22);
    assert_eq!(
        out,
        "hi <span class=\"tg-custom-emoji\" data-tg-id=\"e1\" data-tg-src=\"Универ/Вложения/telegram-emoji/e1.webp\" data-tg-size=\"22\" data-tg-repaint=\"0\">😀</span>"
    );
}

#[test]
fn repainted_emoji_and_escaping() {
    let mut m = EmojiAssets::new();
    m.insert("x\"y".to_string(), asset("z", true));
    let entities = vec![custom(0, 1, "x\"y")];
    let out = render_custom_emoji("<", &entities, &m, 96);
    assert_eq!(
        out,
        "<span class=\"tg-custom-emoji\" data-tg-id=\"x&quot;y\" data-tg-src=\"Универ/Вложения/telegram-emoji/z.webp\" data-tg-size=\"96\" data-tg-repaint=\"1\">&lt;</span>"
    );
}

#[test]
fn text_without_custom_emoji_is_unchanged() {
    let out = render_custom_emoji("a <b> & c", &[bold(0, 1)], &assets(&["e1"]), 22);
    assert_eq!(out, "a <b> & c");
}

#[test]
fn emoji_without_asset_keep_their_text() {
    let entities = vec![custom(0, 2, "missing"), custom(3, 2, "e1")];
    let out = render_custom_emoji("😀 😀", &entities, &assets(&["e1"]), 79);
    assert!(out.starts_with("😀 <span"));
    assert!(out.ends_with(">😀</span>"));
}

#[test]
fn custom_emoji_ids_are_collected_once_in_order() {
    let entities = vec![custom(0, 2, "b"), bold(0, 1), custom(2, 2, "a"), custom(4, 2, "b")];
    assert_eq!(collect_custom_emoji_ids(&entities), vec!["b".to_string(), "a".to_string()]);
    assert!(collect_custom_emoji_ids(&[bold(0, 1)]).is_empty());
}

#[test]
fn emoji_assets_map() {
    let mut m = EmojiAssets::new();
    assert_eq!(m.len(), 0);
    m.insert("a".to_string(), asset("a", false));
    m.insert("b".to_string(), asset("b", false));
    m.insert("a".to_string(), asset("a2", true));
    assert_eq!(m.len(), 2);
    assert!(m.contains_key("a"));
    assert!(!m.contains_key("c"));
    assert_eq!(m.get("a").unwrap().vault_path, "Универ/Вложения/telegram-emoji/a2.webp");
    assert!(m.get("a").unwrap().needs_repainting);
    let mut paths = m.vault_paths();
    paths.sort();
    assert_eq!(
        paths,
        vec![
            "Универ/Вложения/telegram-emoji/a2.webp".to_string(),
            "Универ/Вложения/telegram-emoji/b.webp".to_string()
        ]
    );
}

#[test]
fn emoji_sticker_plans() {
    assert_eq!(emoji_dir(), "Универ/Вложения/telegram-emoji");
    let ids = vec!["asked0".to_string(), "asked1".to_string()];
    let animated = CustomEmojiSticker {
        file_id: "F".to_string(),
        is_animated: true,
        is_video: false,
        emoji: Some("😀".to_string()),
        custom_emoji_id: Some("own".to_string()),
        needs_repainting: Some(true),
    };
    let plan = plan_emoji_sticker(&animated, 0, &ids).unwrap();
    assert_eq!(plan.id, "own");
    assert_eq!(plan.file_id, "F");
    assert_eq!(plan.download_name, "own.tgs");
    assert_eq!(plan.json_name.as_deref(), Some("own.json"));
    assert!(plan.needs_repainting);
    let video = CustomEmojiSticker {
        file_id: "V".to_string(),
        is_animated: true,
        is_video: true,
        emoji: None,
        custom_emoji_id: None,
        needs_repainting: None,
    };
    let plan = plan_emoji_sticker(&video, 1, &ids).unwrap();
    assert_eq!(plan.id, "asked1");
    assert_eq!(plan.download_name, "asked1.webm");
    assert!(plan.json_name.is_none());
    assert!(!plan.needs_repainting);
    assert!(plan_emoji_sticker(&video, 2, &ids).is_none());
    let still = CustomEmojiSticker {
        file_id: "S".to_string(),
        is_animated: false,
        is_video: false,
        emoji: None,
        custom_emoji_id: Some("s".to_string()),
        needs_repainting: Some(false),
    };
    assert_eq!(plan_emoji_sticker(&still, 5, &ids).unwrap().download_name, "s.webp");
}

#[test]
fn emoji_layout_checks() {
    assert!(emoji_layout_ok("😀 😀", &[custom(0, 2, "a"), custom(3, 2, "b")], &assets(&["a", "b"])));
    assert!(!emoji_layout_ok("😀😀", &[custom(0, 4, "a"), custom(2, 2, "b")], &assets(&["a", "b"])));
    assert!(emoji_layout_ok("😀", &[custom(1, 2, "a")], &assets(&["a"])));
}

fn gzip(data: &[u8]) -> Vec<u8> {
    let mut encoder = flate2::write::GzEncoder::new(Vec::new(), flate2::Compression::default());
    encoder.write_all(data).unwrap();
    encoder.finish().unwrap()
}

#[test]
fn tgs_stickers_unpack_to_lottie_json() {
    let json = br#"{"v":"5.5.2","fr":60}"#;
    let packed = gzip(json);
    assert_ne!(packed.as_slice(), &json[..]);
    assert_eq!(decode_tgs(&packed).ok().unwrap(), json.to_vec());
}

#[test]
fn tgs_errors() {
    assert!(matches!(decode_tgs(b"not gzip at all"), Err(TgsError::NotGzip)));
    assert!(matches!(decode_tgs(&gzip(b"{broken")), Err(TgsError::NotJson)));
}

#[test]
fn text_with_only_assetless_emoji_is_unchanged() {
    let entities = vec![custom(0, 2, "x"), custom(3, 2, "y")];
    assert_eq!(render_custom_emoji("😀 😀<", &entities, &assets(&["e1"]), 22), "😀 😀<");
}

#[test]
fn rendering_keeps_text_between_emoji() {
    let entities = vec![custom(4, 1, "b"), custom(1, 1, "a")];
    let out = render_custom_emoji("x<y>&z", &entities, &assets(&["a", "b"]), 22);
    let span = |id: &str, inner: &str| {
        format!(
            "<span class=\"tg-custom-emoji\" data-tg-id=\"{id}\" data-tg-src=\"Универ/Вложения/telegram-emoji/{id}.webp\" data-tg-size=\"22\" data-tg-repaint=\"0\">{inner}</span>"
        )
    };
    assert_eq!(out, format!("x{}y>{}z", span("a", "&lt;"), span("b", "&amp;")));
}

#[test]
fn overlapping_emoji_after_the_first_stay_text() {
    let entities = vec![custom(0, 2, "a"), custom(1, 2, "b")];
    let out = render_custom_emoji("abc", &entities, &assets(&["a", "b"]), 22);
    assert!(out.ends_with(">ab</span>c"));
}
