use telegram_obsidian::emoji::{CustomEmojiAsset, EmojiAssets, MessageEntity};
use telegram_obsidian::event::{
    compact_text, event_file_cursor, event_markdown, lex_less, select_events, sorted_unique,
    wanted_event_file,
    EVENT_VERSION, MAX_EVENTS_PER_REQUEST,
};
use telegram_obsidian::media::{AttachmentKind, MediaFile};
use telegram_obsidian::message::{Chat, Message, User};
use telegram_obsidian::note::build_event;

#[test]
fn compact_text_puts_lines_together() {
    assert_eq!(compact_text("  one \n\n two\r\n three  "), "one / two / three");
    assert_eq!(compact_text(" \n \n"), "");
    assert_eq!(compact_text("single"), "single");
    assert!(!compact_text("a\nb\n\nc\n").contains('\n'));
}

#[test]
fn note_markdown_layout() {
    let lines = vec!["  ![[p.jpg]]".to_string()];
    let md = event_markdown("09:05", "hello", true, &Some("https://t.me/g/2".to_string()), &lines);
    assert_eq!(md, "- 09:05 · hello [↗](https://t.me/g/2)\n  ![[p.jpg]]");
    assert!(!md.contains("tg-event"));
}

#[test]
fn empty_messages_get_a_placeholder() {
    let md = event_markdown("10:00", "", false, &None, &Vec::new());
    assert_eq!(md, "- 10:00 · сообщение без текста или вложения");
    let md = event_markdown("10:00", "", true, &None, &Vec::new());
    assert_eq!(md, "- 10:00 · вложение");
}

#[test]
fn assets_are_sorted_without_duplicates() {
    let paths = vec!["b".to_string(), "a".to_string(), "b".to_string(), "Я".to_string(), "a/c".to_string()];
    assert_eq!(sorted_unique(&paths), vec!["a", "a/c", "b", "Я"]);
    assert!(sorted_unique(&Vec::new()).is_empty());
}

#[test]
fn text_order_is_by_character() {
    let a: Vec<char> = "ab".chars().collect();
    let b: Vec<char> = "b".chars().collect();
    let c: Vec<char> = "a".chars().collect();
    assert!(lex_less(&a, &b));
    assert!(!lex_less(&b, &a));
    assert!(lex_less(&c, &a));
    assert!(!lex_less(&a, &a));
}

#[test]
fn event_file_names_give_cursors() {
    assert_eq!(event_file_cursor("123.json"), Some(123));
    assert_eq!(event_file_cursor("-5.json"), Some(-5));
    assert_eq!(event_file_cursor("77"), Some(77));
    assert_eq!(event_file_cursor("12.json.part"), None);
    assert_eq!(event_file_cursor("abc.json"), None);
    assert_eq!(event_file_cursor(".json"), None);
    assert_eq!(event_file_cursor("99999999999999999999.json"), None);
}

#[test]
fn events_are_selected_in_cursor_order() {
    let cursors = vec![30, 10, 20, 10];
    let (picked, latest) = select_events(&cursors, 5, None);
    assert_eq!(picked, vec![1, 3, 2, 0]);
    assert_eq!(latest, 30);
    let (picked, latest) = select_events(&cursors, 5, Some(2));
    assert_eq!(picked, vec![1, 3]);
    assert_eq!(latest, 10);
    let (picked, latest) = select_events(&cursors, 5, Some(0));
    assert_eq!(picked, vec![1]);
    assert_eq!(latest, 10);
    let (picked, latest) = select_events(&Vec::new(), 5, None);
    assert!(picked.is_empty());
    assert_eq!(latest, 5);
}

#[test]
fn requests_get_at_most_the_maximum() {
    let cursors: Vec<i64> = (0..300).rev().collect();
    let (picked, latest) = select_events(&cursors, -1, Some(1_000));
    assert_eq!(picked.len(), MAX_EVENTS_PER_REQUEST);
    assert_eq!(latest, 199);
    let (picked, _) = select_events(&cursors, -1, None);
    assert_eq!(picked.len(), 100);
}

#[test]
fn imported_message_becomes_an_event() {
    let message = Message {
        message_id: 42,
        date: 0,
        chat: Chat { id: -1005, kind: "supergroup".to_string(), username: None },
        from: Some(User { id: 9, username: None, first_name: None }),
        text: Some("Привет\n😀".to_string()),
        entities: vec![MessageEntity {
            kind: "custom_emoji".to_string(),
            offset: 7,
            length: 2,
            custom_emoji_id: Some("e1".to_string()),
        }],
        caption: None,
        caption_entities: Vec::new(),
        photo: None,
        document: None,
        sticker: None,
    };
    let media = vec![MediaFile {
        path: "/v/Универ/Вложения/фото/telegram-u.jpg".to_string(),
        vault_path: "Универ/Вложения/фото/telegram-u.jpg".to_string(),
        kind: AttachmentKind::Photo,
        sticker_id: None,
    }];
    let mut emoji = EmojiAssets::new();
    emoji.insert(
        "e1".to_string(),
        CustomEmojiAsset {
            path: "/v/Универ/Вложения/telegram-emoji/e1.json".to_string(),
            vault_path: "Универ/Вложения/telegram-emoji/e1.json".to_string(),
            needs_repainting: false,
        },
    );
    let key = "-1005:42".to_string();
    let event = build_event(&key, &message, "2024-01-02".to_string(), "12:30", &media, &emoji, 1_000);
    assert_eq!(event.version, EVENT_VERSION);
    assert_eq!(event.cursor, 42);
    assert_eq!(event.id, key);
    assert_eq!(event.day, "2024-01-02");
    assert_eq!(event.message_id, 42);
    assert_eq!(event.created_at, 1_000);
    assert_eq!(
        event.assets,
        vec![
            "Универ/Вложения/telegram-emoji/e1.json".to_string(),
            "Универ/Вложения/фото/telegram-u.jpg".to_string()
        ]
    );
    assert_eq!(
        event.markdown,
        "- 12:30 · Привет / <span class=\"tg-custom-emoji\" data-tg-id=\"e1\" data-tg-src=\"Универ/Вложения/telegram-emoji/e1.json\" data-tg-size=\"22\" data-tg-repaint=\"0\">😀</span> [↗](https://t.me/c/5/42)\n  ![[Универ/Вложения/фото/telegram-u.jpg]]"
    );
}

#[test]
fn only_newer_event_files_are_read() {
    assert_eq!(wanted_event_file("12.json", true, 10), Some(12));
    assert_eq!(wanted_event_file("10.json", true, 10), None);
    assert_eq!(wanted_event_file("12.json", false, 10), None);
    assert_eq!(wanted_event_file("x.json", true, -100), None);
}

fn page(stored: &[i64], after: i64, limit: Option<usize>) -> (Vec<i64>, i64) {
    let newer: Vec<i64> = stored
        .iter()
        .filter_map(|c| wanted_event_file(&format!("{c}.json"), true, after))
        .collect();
    let (picked, latest) = select_events(&newer, after, limit);
    (picked.iter().map(|&i| newer[i]).collect(), latest)
}

#[test]
fn paging_by_the_latest_cursor_loses_nothing() {
    let stored = vec![50, 10, 90, 30, 70, 20];
    let (first, latest) = page(&stored, 15, Some(2));
    assert_eq!(first, vec![20, 30]);
    assert_eq!(latest, 30);
    let (second, latest) = page(&stored, latest, Some(2));
    assert_eq!(second, vec![50, 70]);
    let (third, latest) = page(&stored, latest, Some(2));
    assert_eq!(third, vec![90]);
    let (fourth, latest) = page(&stored, latest, Some(2));
    assert!(fourth.is_empty());
    assert_eq!(latest, 90);
}
