use telegram_obsidian::media::{drive_destination, relative_to_vault};
use telegram_obsidian::path::{extension, mime_for_path, safe_filename, safe_relative_path};

#[test]
fn rejects_unsafe_asset_paths() {
    assert!(safe_relative_path("Универ/Вложения/фото/a.jpg").is_some());
    assert!(safe_relative_path("../etc/passwd").is_none());
    assert!(safe_relative_path("/etc/passwd").is_none());
    assert!(safe_relative_path("folder\\file").is_none());
}

#[test]
fn safe_relative_path_gives_normal_form() {
    assert_eq!(safe_relative_path("a//b/./c/").as_deref(), Some("a/b/c"));
    assert_eq!(safe_relative_path("a/b").as_deref(), Some("a/b"));
    assert!(safe_relative_path("").is_none());
    assert!(safe_relative_path("./a").is_none());
    assert!(safe_relative_path("a/../b").is_none());
    assert!(safe_relative_path("a\0b").is_none());
}

#[test]
fn normal_form_is_accepted_again_unchanged() {
    for request in ["a//b/./c/", "Универ/Вложения/фото/a.jpg", "x/y.tgs"] {
        let first = safe_relative_path(request).unwrap();
        let second = safe_relative_path(&first).unwrap();
        assert_eq!(first, second);
    }
}

#[test]
fn mime_types_follow_the_extension() {
    assert_eq!(mime_for_path("vault/a.JSON"), "application/json");
    assert_eq!(mime_for_path("vault/e.tgs"), "application/gzip");
    assert_eq!(mime_for_path("s.webm"), "video/webm");
    assert_eq!(mime_for_path("s.webp"), "image/webp");
    assert_eq!(mime_for_path("p.png"), "image/png");
    assert_eq!(mime_for_path("p.jpg"), "image/jpeg");
    assert_eq!(mime_for_path("p.JPEG"), "image/jpeg");
    assert_eq!(mime_for_path("p.gif"), "image/gif");
    assert_eq!(mime_for_path("p.heif"), "image/heic");
    assert_eq!(mime_for_path("d.pdf"), "application/pdf");
    assert_eq!(mime_for_path("noext"), "application/octet-stream");
    assert_eq!(mime_for_path(".hidden"), "application/octet-stream");
    assert_eq!(mime_for_path("a.tar.gz"), "application/octet-stream");
}

#[test]
fn extensions_as_path_gives_them() {
    assert_eq!(extension("a/b.txt").map(|e| e.into_iter().collect::<String>()), Some("txt".to_string()));
    assert_eq!(extension(".bashrc"), None);
    assert_eq!(extension("a/b"), None);
    assert_eq!(extension("a/b."), Some(Vec::new()));
    assert_eq!(extension("a/.."), None);
}

#[test]
fn safe_filename_replaces_and_trims() {
    assert_eq!(safe_filename("a<b>c:d\"e/f\\g|h?i*j"), "a_b_c_d_e_f_g_h_i_j");
    assert_eq!(safe_filename("  ..report.pdf.. "), "report.pdf");
    assert_eq!(safe_filename("tab\there"), "tab_here");
    assert_eq!(safe_filename(""), "файл");
    assert_eq!(safe_filename(" . . "), "файл");
    let long: String = std::iter::repeat('я').take(200).collect();
    let cut = safe_filename(&long);
    assert_eq!(cut.chars().count(), 120);
    assert!(cut.chars().all(|c| c == 'я'));
}

#[test]
fn safe_filename_output_is_always_safe() {
    for name in ["", "...", "a/b", "\u{7f}x", "ok name.txt", "<>:\"/\\|?*"] {
        let out = safe_filename(name);
        let n = out.chars().count();
        assert!(n >= 1 && n <= 120);
        assert!(!out.chars().any(|c| c.is_control() || "<>:\"/\\|?*".contains(c)));
    }
}

#[test]
fn vault_relative_paths() {
    assert_eq!(
        relative_to_vault("/data/vault", "/data/vault/Универ/Вложения/фото/telegram-x.jpg").as_deref(),
        Some("Универ/Вложения/фото/telegram-x.jpg")
    );
    assert_eq!(relative_to_vault("/data/vault", "/data/vault").as_deref(), Some(""));
    assert!(relative_to_vault("/data/vault", "/data/other/a.jpg").is_none());
    assert!(relative_to_vault("/data/vault", "data/vault/a.jpg").is_none());
    assert!(relative_to_vault("/data/vault/x", "/data/vault").is_none());
    assert_eq!(relative_to_vault("/v", "/v/a//b/").as_deref(), Some("a//b"));
    assert_eq!(relative_to_vault("/v", "/v/./a/./b").as_deref(), Some("a/./b"));
    assert_eq!(relative_to_vault("/v/", "//v//x\\y").as_deref(), Some("x/y"));
}

#[test]
fn drive_staging_destinations() {
    let photo = drive_destination("Универ/Вложения/фото/telegram-x.jpg", "telegram-x.jpg", 42).unwrap();
    assert_eq!(photo, vec!["users", "42", "фото", "telegram-x.jpg"]);
    let sticker = drive_destination("Универ/Вложения/стикеры/telegram-s.webp", "telegram-s.webp", 7).unwrap();
    assert_eq!(sticker, vec!["users", "7", "стикеры", "telegram-s.webp"]);
    let emoji = drive_destination("Универ/Вложения/telegram-emoji/1.json", "1.json", -5).unwrap();
    assert_eq!(emoji, vec!["users", "-5", "telegram-emoji", "1.json"]);
    let file = drive_destination("Универ/Вложения/2024-05-01/telegram-d.pdf", "telegram-d.pdf", 1).unwrap();
    assert_eq!(file, vec!["users", "1", "2024-05-01", "telegram-d.pdf"]);
    let short = drive_destination("a/b", "b", 1).unwrap();
    assert_eq!(short, vec!["users", "1", "файлы", "b"]);
    assert!(drive_destination("../x", "x", 1).is_none());
}

#[test]
fn safe_names_stay_as_they_are() {
    for name in ["  report.pdf ", "a/b", "", "файл", "..x.."] {
        let once = safe_filename(name);
        assert_eq!(safe_filename(&once), once);
    }
}
