use telegram_obsidian::emoji::MessageEntity;
use telegram_obsidian::message::{
    classify_message, is_command, message_key, message_text_and_entities, telegram_link, Chat,
    Message, MessageAction, User,
};
use telegram_obsidian::state::{mark_processed, PersistentState};

fn chat(id: i64, kind: &str, username: Option<&str>) -> Chat {
    Chat { id, kind: kind.to_string(), username: username.map(|u| u.to_string()) }
}

fn message(chat: Chat, from: Option<i64>, text: Option<&str>) -> Message {
    Message {
        message_id: 77,
        date: 1_700_000_000,
        chat,
        from: from.map(|id| User { id, username: None, first_name: Some("A".to_string()) }),
        text: text.map(|t| t.to_string()),
        entities: Vec::new(),
        caption: None,
        caption_entities: Vec::new(),
        photo: None,
        document: None,
        sticker: None,
    }
}

#[test]
fn links_use_the_username() {
    let link = telegram_link(&chat(-1001, "supergroup", Some("mygroup")), 5);
    assert_eq!(link.as_deref(), Some("https://t.me/mygroup/5"));
}

#[test]
fn supergroup_links_use_the_internal_id() {
    let link = telegram_link(&chat(-1001234567890, "supergroup", None), 42);
    assert_eq!(link.as_deref(), Some("https://t.me/c/1234567890/42"));
}

#[test]
fn other_chats_have_no_link() {
    assert!(telegram_link(&chat(-1234, "group", None), 1).is_none());
    assert!(telegram_link(&chat(-1234, "supergroup", None), 1).is_none());
    assert!(telegram_link(&chat(99, "private", None), 1).is_none());
}

#[test]
fn commands_are_recognised() {
    assert!(is_command("/settings", "/settings"));
    assert!(is_command("/Settings now", "/settings"));
    assert!(is_command("/settings@my_bot", "/settings"));
    assert!(is_command("  /settings  ", "/settings"));
    assert!(!is_command("/settingsx", "/settings"));
    assert!(!is_command("please /settings", "/settings"));
    assert!(!is_command("", "/settings"));
}

#[test]
fn text_comes_before_caption() {
    let mut m = message(chat(1, "group", None), Some(1), Some("hello"));
    m.entities.push(MessageEntity { kind: "bold".to_string(), offset: 0, length: 1, custom_emoji_id: None });
    m.caption = Some("cap".to_string());
    let (text, entities) = message_text_and_entities(&m);
    assert_eq!(text, "hello");
    assert_eq!(entities.len(), 1);
    m.text = None;
    let (text, entities) = message_text_and_entities(&m);
    assert_eq!(text, "cap");
    assert_eq!(entities.len(), 0);
    m.caption = None;
    let (text, entities) = message_text_and_entities(&m);
    assert_eq!(text, "");
    assert!(entities.is_empty());
}

#[test]
fn message_keys() {
    let m = message(chat(-100500, "supergroup", None), None, None);
    assert_eq!(message_key(&m), "-100500:77");
}

#[test]
fn classification() {
    let group = -100200;
    let admin = 9;
    let s = PersistentState::empty();
    let m = message(chat(group, "supergroup", None), Some(admin), Some("note"));
    assert!(matches!(classify_message(&s, &m, group, admin), MessageAction::Import));
    let m = message(chat(group, "group", None), Some(admin), Some("note"));
    assert!(matches!(classify_message(&s, &m, group, admin), MessageAction::Import));
    let m = message(chat(group, "supergroup", None), Some(3), Some("note"));
    assert!(matches!(classify_message(&s, &m, group, admin), MessageAction::Skip));
    let m = message(chat(group + 1, "supergroup", None), Some(admin), Some("note"));
    assert!(matches!(classify_message(&s, &m, group, admin), MessageAction::Skip));
    let m = message(chat(admin, "private", None), Some(admin), Some("note"));
    assert!(matches!(classify_message(&s, &m, group, admin), MessageAction::Skip));
    let m = message(chat(admin, "private", None), Some(admin), Some(" /settings "));
    assert!(matches!(
        classify_message(&s, &m, group, admin),
        MessageAction::Settings { issue_code: true }
    ));
    let m = message(chat(5, "private", None), Some(5), Some("/settings"));
    assert!(matches!(
        classify_message(&s, &m, group, admin),
        MessageAction::Settings { issue_code: false }
    ));
}

#[test]
fn handled_messages_are_not_handled_again() {
    let group = -100200;
    let admin = 9;
    let mut s = PersistentState::empty();
    let m = message(chat(group, "supergroup", None), Some(admin), Some("note"));
    mark_processed(&mut s, message_key(&m));
    assert!(matches!(classify_message(&s, &m, group, admin), MessageAction::AlreadyHandled));
}
