use telegram_obsidian::media::{
    find_attachment, media_note_line, plan_media, AttachmentKind, DirEntryInfo, MediaFile,
};
use telegram_obsidian::message::{Chat, Document, Message, PhotoSize, Sticker};

fn bare_message() -> Message {
    Message {
        message_id: 15,
        date: 0,
        chat: Chat { id: -1, kind: "group".to_string(), username: None },
        from: None,
        text: None,
        entities: Vec::new(),
        caption: None,
        caption_entities: Vec::new(),
        photo: None,
        document: None,
        sticker: None,
    }
}

fn media(path: &str, kind: AttachmentKind, sticker_id: Option<&str>) -> MediaFile {
    MediaFile {
        path: format!("/v/{path}"),
        vault_path: path.to_string(),
        kind,
        sticker_id: sticker_id.map(|s| s.to_string()),
    }
}

#[test]
fn photos_are_embedded() {
    let line = media_note_line(&media("Универ/Вложения/фото/telegram-a.JPG", AttachmentKind::Photo, None));
    assert_eq!(line, "  ![[Универ/Вложения/фото/telegram-a.JPG]]");
}

#[test]
fn files_are_linked() {
    let line = media_note_line(&media("Универ/Вложения/2024-01-01/telegram-d.pdf", AttachmentKind::File, None));
    assert_eq!(line, "  [[Универ/Вложения/2024-01-01/telegram-d.pdf]]");
}

#[test]
fn still_stickers_are_embedded_small() {
    let line = media_note_line(&media("S/telegram-s.webp", AttachmentKind::Sticker, Some("s")));
    assert_eq!(line, "  ![[S/telegram-s.webp|180]]");
}

#[test]
fn animated_stickers_become_elements() {
    let line = media_note_line(&media("S/telegram-s.tgs", AttachmentKind::Sticker, Some("a&b")));
    assert_eq!(
        line,
        "  <span class=\"tg-sticker\" data-tg-id=\"a&amp;b\" data-tg-src=\"S/telegram-s.tgs\" data-tg-size=\"180\">🧩</span>"
    );
    let line = media_note_line(&media("S/v.webm", AttachmentKind::Sticker, None));
    assert_eq!(
        line,
        "  <span class=\"tg-sticker\" data-tg-id=\"telegram-sticker\" data-tg-src=\"S/v.webm\" data-tg-size=\"180\">🧩</span>"
    );
}

#[test]
fn photo_plan_reuses_by_unique_id() {
    let mut m = bare_message();
    m.photo = Some(vec![
        PhotoSize { file_id: "small".to_string(), file_unique_id: Some("s".to_string()) },
        PhotoSize { file_id: "large".to_string(), file_unique_id: Some("u/1".to_string()) },
    ]);
    let plans = plan_media(&m, "2024-01-01");
    assert_eq!(plans.len(), 1);
    assert_eq!(plans[0].directory, "Универ/Вложения/фото");
    assert_eq!(plans[0].search_id.as_deref(), Some("u/1"));
    assert_eq!(plans[0].default_name, "telegram-u_1.jpg");
    assert_eq!(plans[0].file_id, "large");
    assert!(plans[0].kind == AttachmentKind::Photo);
    let mut m = bare_message();
    m.photo = Some(vec![PhotoSize { file_id: "p".to_string(), file_unique_id: None }]);
    let plans = plan_media(&m, "2024-01-01");
    assert_eq!(plans[0].default_name, "telegram-message-15.jpg");
    assert!(plans[0].search_id.is_none());
    let mut m = bare_message();
    m.photo = Some(Vec::new());
    assert!(plan_media(&m, "2024-01-01").is_empty());
}

#[test]
fn document_plans() {
    let mut m = bare_message();
    m.document = Some(Document {
        file_id: "d".to_string(),
        file_unique_id: Some("U".to_string()),
        file_name: Some("Отчёт.PDF".to_string()),
    });
    let plans = plan_media(&m, "2024-03-04");
    assert_eq!(plans[0].directory, "Универ/Вложения/2024-03-04");
    assert_eq!(plans[0].default_name, "telegram-U.pdf");
    assert!(plans[0].kind == AttachmentKind::File);
    m.document = Some(Document {
        file_id: "d".to_string(),
        file_unique_id: Some("U".to_string()),
        file_name: Some("photo.HEIC".to_string()),
    });
    let plans = plan_media(&m, "2024-03-04");
    assert_eq!(plans[0].directory, "Универ/Вложения/фото");
    assert_eq!(plans[0].default_name, "telegram-U.heic");
    assert!(plans[0].kind == AttachmentKind::Photo);
    m.document = Some(Document {
        file_id: "d".to_string(),
        file_unique_id: None,
        file_name: Some("weird.ext-with-dash".to_string()),
    });
    let plans = plan_media(&m, "2024-03-04");
    assert_eq!(plans[0].default_name, "telegram-message-15-weird.ext-with-dash");
    m.document = Some(Document { file_id: "d".to_string(), file_unique_id: Some("U".to_string()), file_name: None });
    let plans = plan_media(&m, "2024-03-04");
    assert_eq!(plans[0].default_name, "telegram-U.bin");
}

#[test]
fn sticker_plans() {
    let mut m = bare_message();
    m.sticker = Some(Sticker {
        file_id: "st".to_string(),
        file_unique_id: None,
        is_animated: true,
        is_video: false,
    });
    let plans = plan_media(&m, "d");
    assert_eq!(plans[0].directory, "Универ/Вложения/стикеры");
    assert_eq!(plans[0].search_id.as_deref(), Some("message-15"));
    assert_eq!(plans[0].sticker_id.as_deref(), Some("message-15"));
    assert_eq!(plans[0].default_name, "telegram-message-15.tgs");
    assert!(plans[0].kind == AttachmentKind::Sticker);
}

#[test]
fn all_attachments_in_order() {
    let mut m = bare_message();
    m.photo = Some(vec![PhotoSize { file_id: "p".to_string(), file_unique_id: None }]);
    m.document = Some(Document { file_id: "d".to_string(), file_unique_id: None, file_name: None });
    m.sticker = Some(Sticker { file_id: "s".to_string(), file_unique_id: Some("q".to_string()), is_animated: false, is_video: true });
    let plans = plan_media(&m, "day");
    assert_eq!(plans.len(), 3);
    assert_eq!(plans[0].file_id, "p");
    assert_eq!(plans[1].file_id, "d");
    assert_eq!(plans[1].default_name, "telegram-message-15-документ");
    assert_eq!(plans[2].default_name, "telegram-q.webm");
}

#[test]
fn earlier_downloads_are_found() {
    let entries = vec![
        DirEntryInfo { name: "telegram-u.jpg.part".to_string(), is_file: false },
        DirEntryInfo { name: "telegram-x.jpg".to_string(), is_file: true },
        DirEntryInfo { name: "telegram-u.png".to_string(), is_file: true },
        DirEntryInfo { name: "telegram-u.jpg".to_string(), is_file: true },
    ];
    assert_eq!(find_attachment(&entries, "u"), Some(2));
    assert_eq!(find_attachment(&entries, "missing"), None);
    assert_eq!(find_attachment(&entries, "telegram"), None);
}
