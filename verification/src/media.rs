//! Attachments: where each one is stored in the vault, how a note shows it, and where it is
//! staged for upload.
use vstd::prelude::*;

use crate::message::{Document, Message, PhotoSize, Sticker};
use crate::path::{
    extension, extension_spec, is_dot, is_dot_exec, join_chars, join_spec, lower_extension,
    lower_extension_spec, path_components, path_components_spec, safe_filename, safe_filename_spec,
    safe_relative_path, safe_relative_path_spec, split_chars, split_spec, yields_component,
};
use crate::text::{
    ascii_lower, ascii_lower_spec, chars_equal, chars_of, contains, contains_spec, decimal_spec,
    html_escape_spec, push_all, push_decimal, push_html_escaped, push_str, replace_chars,
    replace_spec, starts_with, starts_with_spec, string_from_chars, subrange_chars,
};

verus! {

/// What kind of attachment a file is.
#[derive(PartialEq, Eq, Structural, Clone, Copy)]
pub enum AttachmentKind {
    Photo,
    Sticker,
    File,
}

/// An attachment stored in the vault.
pub struct MediaFile {
    pub path: String,
    pub vault_path: String,
    pub kind: AttachmentKind,
    pub sticker_id: Option<String>,
}

/// Where and how to store one attachment of a message.
pub struct MediaPlan {
    /// The vault-relative directory.
    pub directory: String,
    /// The unique file id whose earlier download in `directory` is reused, if any.
    pub search_id: Option<String>,
    /// The file name to download to when no earlier download is found.
    pub default_name: String,
    /// The Telegram file id to download.
    pub file_id: String,
    pub kind: AttachmentKind,
    pub sticker_id: Option<String>,
}

/// The optional view of an optional string.
pub open spec fn opt_view(o: Option<String>) -> Option<Seq<char>> {
    match o {
        Some(s) => Some(s@),
        None => None,
    }
}

/// The vault directory of photos.
pub open spec fn photo_dir_spec() -> Seq<char> {
    "Универ/Вложения/фото"@
}

/// The vault directory of stickers.
pub open spec fn sticker_dir_spec() -> Seq<char> {
    "Универ/Вложения/стикеры"@
}

/// The vault directory of other files sent on `day`.
pub open spec fn day_dir_spec(day: Seq<char>) -> Seq<char> {
    "Универ/Вложения/"@ + day
}

/// The plan `p` has these fields.
pub open spec fn plan_is(
    p: MediaPlan,
    directory: Seq<char>,
    search_id: Option<Seq<char>>,
    default_name: Seq<char>,
    file_id: Seq<char>,
    kind: AttachmentKind,
    sticker_id: Option<Seq<char>>,
) -> bool {
    &&& p.directory@ == directory
    &&& opt_view(p.search_id) == search_id
    &&& p.default_name@ == default_name
    &&& p.file_id@ == file_id
    &&& p.kind == kind
    &&& opt_view(p.sticker_id) == sticker_id
}

/// The plan for the largest size of a photo: reuse by unique id, else named by the message id.
pub open spec fn photo_plan_ok(p: MediaPlan, largest: PhotoSize, message_id: i64) -> bool {
    match largest.file_unique_id {
        Some(u) => plan_is(
            p,
            photo_dir_spec(),
            Some(u@),
            "telegram-"@ + safe_filename_spec(u@) + ".jpg"@,
            largest.file_id@,
            AttachmentKind::Photo,
            None,
        ),
        None => plan_is(
            p,
            photo_dir_spec(),
            None,
            "telegram-message-"@ + decimal_spec(message_id as int) + ".jpg"@,
            largest.file_id@,
            AttachmentKind::Photo,
            None,
        ),
    }
}

/// An ASCII letter or digit.
pub open spec fn is_ascii_alnum(c: char) -> bool {
    ('0' <= c <= '9') || ('a' <= c <= 'z') || ('A' <= c <= 'Z')
}

/// The stored name of a document: its safe file name, or `документ`.
pub open spec fn document_name_spec(d: Document) -> Seq<char> {
    match d.file_name {
        Some(n) => safe_filename_spec(n@),
        None => "документ"@,
    }
}

/// The extension a document is stored with: its own in lowercase when that is 1 to 12 ASCII
/// letters and digits, else `bin`.
pub open spec fn document_extension_spec(name: Seq<char>) -> Seq<char> {
    match extension_spec(name) {
        Some(e) => {
            let l = ascii_lower_spec(e);
            if 0 < l.len() <= 12 && forall|i: int| 0 <= i < l.len() ==> is_ascii_alnum(#[trigger] l[i]) {
                l
            } else {
                "bin"@
            }
        },
        None => "bin"@,
    }
}

/// Extensions stored as photos.
pub open spec fn is_photo_extension(e: Seq<char>) -> bool {
    e == "jpg"@ || e == "jpeg"@ || e == "png"@ || e == "gif"@ || e == "webp"@ || e == "heic"@ || e
        == "heif"@
}

/// The plan for a document: photos go with the photos, other files into the day's directory.
pub open spec fn document_plan_ok(p: MediaPlan, d: Document, message_id: i64, day: Seq<char>) -> bool {
    let name = document_name_spec(d);
    let ext = document_extension_spec(name);
    let photo = is_photo_extension(ext);
    let dir = if photo {
        photo_dir_spec()
    } else {
        day_dir_spec(day)
    };
    let kind = if photo {
        AttachmentKind::Photo
    } else {
        AttachmentKind::File
    };
    match d.file_unique_id {
        Some(u) => plan_is(
            p,
            dir,
            Some(u@),
            "telegram-"@ + safe_filename_spec(u@) + "."@ + ext,
            d.file_id@,
            kind,
            None,
        ),
        None => plan_is(
            p,
            dir,
            None,
            "telegram-message-"@ + decimal_spec(message_id as int) + "-"@ + name,
            d.file_id@,
            kind,
            None,
        ),
    }
}

/// The file extension of a sticker: `webm` for video, `tgs` for animated, else `webp`.
pub open spec fn sticker_extension_spec(s: Sticker) -> Seq<char> {
    if s.is_video {
        "webm"@
    } else if s.is_animated {
        "tgs"@
    } else {
        "webp"@
    }
}

/// The id a sticker is stored under: its unique id, or `message-<id>`.
pub open spec fn sticker_id_spec(s: Sticker, message_id: i64) -> Seq<char> {
    match s.file_unique_id {
        Some(u) => u@,
        None => "message-"@ + decimal_spec(message_id as int),
    }
}

/// The plan for a sticker.
pub open spec fn sticker_plan_ok(p: MediaPlan, s: Sticker, message_id: i64) -> bool {
    let id = sticker_id_spec(s, message_id);
    plan_is(
        p,
        sticker_dir_spec(),
        Some(id),
        "telegram-"@ + safe_filename_spec(id) + "."@ + sticker_extension_spec(s),
        s.file_id@,
        AttachmentKind::Sticker,
        Some(id),
    )
}

/// The message has a photo with at least one size.
pub open spec fn has_photo(m: Message) -> bool {
    m.photo matches Some(ps) && ps@.len() > 0
}

/// The plans for the attachments of a message: its photo, its document and its sticker, in that
/// order, each when present.
pub open spec fn plans_ok(plans: Seq<MediaPlan>, m: Message, day: Seq<char>) -> bool {
    let np: int = if has_photo(m) {
        1
    } else {
        0
    };
    let nd: int = if m.document is Some {
        1
    } else {
        0
    };
    let ns: int = if m.sticker is Some {
        1
    } else {
        0
    };
    &&& plans.len() == np + nd + ns
    &&& has_photo(m) ==> photo_plan_ok(plans[0], m.photo->0@.last(), m.message_id)
    &&& m.document is Some ==> document_plan_ok(plans[np], m.document->0, m.message_id, day)
    &&& m.sticker is Some ==> sticker_plan_ok(plans[np + nd], m.sticker->0, m.message_id)
}

fn lit(s: &str) -> (out: String)
    ensures
        out@ == s@,
{
    let v = chars_of(s);
    string_from_chars(&v)
}

fn telegram_name(id: &str, ext: &Vec<char>) -> (out: String)
    ensures
        out@ == "telegram-"@ + safe_filename_spec(id@) + "."@ + ext@,
{
    let mut out: Vec<char> = Vec::new();
    push_str(&mut out, "telegram-");
    let safe = safe_filename(id);
    push_str(&mut out, safe.as_str());
    push_str(&mut out, ".");
    push_all(&mut out, ext);
    string_from_chars(&out)
}

fn photo_plan(largest: &PhotoSize, message_id: i64) -> (p: MediaPlan)
    ensures
        photo_plan_ok(p, *largest, message_id),
{
    let directory = lit("Универ/Вложения/фото");
    match &largest.file_unique_id {
        Some(u) => {
            let jpg = chars_of("jpg");
            let name = telegram_name(u.as_str(), &jpg);
            proof {
                reveal_strlit("jpg");
                reveal_strlit(".jpg");
                reveal_strlit(".");
                assert("."@ + jpg@ =~= ".jpg"@);
                assert(name@ =~= "telegram-"@ + safe_filename_spec(u@) + ".jpg"@);
            }
            MediaPlan {
                directory,
                search_id: Some(u.clone()),
                default_name: name,
                file_id: largest.file_id.clone(),
                kind: AttachmentKind::Photo,
                sticker_id: None,
            }
        },
        None => {
            let mut out: Vec<char> = Vec::new();
            push_str(&mut out, "telegram-message-");
            push_decimal(&mut out, message_id);
            push_str(&mut out, ".jpg");
            MediaPlan {
                directory,
                search_id: None,
                default_name: string_from_chars(&out),
                file_id: largest.file_id.clone(),
                kind: AttachmentKind::Photo,
                sticker_id: None,
            }
        },
    }
}

/// The extension a document is stored with.
pub fn document_extension(name: &String) -> (ext: Vec<char>)
    ensures
        ext@ == document_extension_spec(name@),
{
    match extension(name.as_str()) {
        Some(e) => {
            let l = ascii_lower(&e);
            let n = l.len();
            let mut ok = n > 0 && n <= 12;
            if ok {
                for i in 0..n
                    invariant
                        n == l@.len(),
                        ok == forall|j: int| 0 <= j < i ==> is_ascii_alnum(#[trigger] l@[j]),
                {
                    let c = l[i];
                    let alnum = ('0' <= c && c <= '9') || ('a' <= c && c <= 'z') || ('A' <= c && c
                        <= 'Z');
                    if !alnum {
                        ok = false;
                    }
                }
            }
            if ok {
                l
            } else {
                chars_of("bin")
            }
        },
        None => chars_of("bin"),
    }
}

fn is_photo_ext(e: &Vec<char>) -> (b: bool)
    ensures
        b == is_photo_extension(e@),
{
    let cands = [
        chars_of("jpg"),
        chars_of("jpeg"),
        chars_of("png"),
        chars_of("gif"),
        chars_of("webp"),
        chars_of("heic"),
        chars_of("heif"),
    ];
    chars_equal(e, &cands[0]) || chars_equal(e, &cands[1]) || chars_equal(e, &cands[2])
        || chars_equal(e, &cands[3]) || chars_equal(e, &cands[4]) || chars_equal(e, &cands[5])
        || chars_equal(e, &cands[6])
}

fn document_plan(d: &Document, message_id: i64, day: &str) -> (p: MediaPlan)
    ensures
        document_plan_ok(p, *d, message_id, day@),
{
    let name = match &d.file_name {
        Some(n) => safe_filename(n.as_str()),
        None => lit("документ"),
    };
    let ext = document_extension(&name);
    let photo = is_photo_ext(&ext);
    let directory = if photo {
        lit("Универ/Вложения/фото")
    } else {
        let mut out: Vec<char> = Vec::new();
        push_str(&mut out, "Универ/Вложения/");
        push_str(&mut out, day);
        string_from_chars(&out)
    };
    let kind = if photo {
        AttachmentKind::Photo
    } else {
        AttachmentKind::File
    };
    match &d.file_unique_id {
        Some(u) => {
            let default_name = telegram_name(u.as_str(), &ext);
            MediaPlan {
                directory,
                search_id: Some(u.clone()),
                default_name,
                file_id: d.file_id.clone(),
                kind,
                sticker_id: None,
            }
        },
        None => {
            let mut out: Vec<char> = Vec::new();
            push_str(&mut out, "telegram-message-");
            push_decimal(&mut out, message_id);
            push_str(&mut out, "-");
            push_str(&mut out, name.as_str());
            MediaPlan {
                directory,
                search_id: None,
                default_name: string_from_chars(&out),
                file_id: d.file_id.clone(),
                kind,
                sticker_id: None,
            }
        },
    }
}

fn sticker_plan(s: &Sticker, message_id: i64) -> (p: MediaPlan)
    ensures
        sticker_plan_ok(p, *s, message_id),
{
    let ext = if s.is_video {
        chars_of("webm")
    } else if s.is_animated {
        chars_of("tgs")
    } else {
        chars_of("webp")
    };
    let id = match &s.file_unique_id {
        Some(u) => u.clone(),
        None => {
            let mut out: Vec<char> = Vec::new();
            push_str(&mut out, "message-");
            push_decimal(&mut out, message_id);
            string_from_chars(&out)
        },
    };
    let default_name = telegram_name(id.as_str(), &ext);
    MediaPlan {
        directory: lit("Универ/Вложения/стикеры"),
        search_id: Some(id.clone()),
        default_name,
        file_id: s.file_id.clone(),
        kind: AttachmentKind::Sticker,
        sticker_id: Some(id),
    }
}

/// Plans where each attachment of a message is stored; `day` names the directory of other
/// files.
pub fn plan_media(message: &Message, day: &str) -> (plans: Vec<MediaPlan>)
    ensures
        plans_ok(plans@, *message, day@),
{
    let mut plans: Vec<MediaPlan> = Vec::new();
    match &message.photo {
        Some(photos) => {
            if photos.len() > 0 {
                let largest = &photos[photos.len() - 1];
                plans.push(photo_plan(largest, message.message_id));
            }
        },
        None => {},
    }
    let ghost np = plans@.len();
    match &message.document {
        Some(d) => {
            plans.push(document_plan(d, message.message_id, day));
        },
        None => {},
    }
    let ghost nd = plans@.len() - np;
    match &message.sticker {
        Some(s) => {
            plans.push(sticker_plan(s, message.message_id));
        },
        None => {},
    }
    plans
}

/// The prefix of the names of earlier downloads of the file with `unique_id`.
pub open spec fn attachment_prefix_spec(unique_id: Seq<char>) -> Seq<char> {
    "telegram-"@ + safe_filename_spec(unique_id) + "."@
}

/// An entry of a directory listing.
pub struct DirEntryInfo {
    /// The entry's name (invalid UTF-8 replaced, as `to_string_lossy` does).
    pub name: String,
    pub is_file: bool,
}

/// The entry is an earlier download of the file with this unique id.
pub open spec fn is_earlier_download(e: DirEntryInfo, unique_id: Seq<char>) -> bool {
    e.is_file && starts_with_spec(e.name@, attachment_prefix_spec(unique_id))
}

/// The first entry, in listing order, that is an earlier download of the file with `unique_id`.
pub fn find_attachment(entries: &[DirEntryInfo], unique_id: &str) -> (found: Option<usize>)
    ensures
        match found {
            Some(i) => i < entries@.len() && is_earlier_download(entries@[i as int], unique_id@)
                && forall|j: int| 0 <= j < i ==> !is_earlier_download(entries@[j], unique_id@),
            None => forall|j: int|
                0 <= j < entries@.len() ==> !is_earlier_download(entries@[j], unique_id@),
        },
{
    let mut p: Vec<char> = Vec::new();
    push_str(&mut p, "telegram-");
    let safe = safe_filename(unique_id);
    push_str(&mut p, safe.as_str());
    push_str(&mut p, ".");
    let n = entries.len();
    for i in 0..n
        invariant
            n == entries@.len(),
            p@ == attachment_prefix_spec(unique_id@),
            forall|j: int| 0 <= j < i ==> !is_earlier_download(entries@[j], unique_id@),
    {
        let e = &entries[i];
        if e.is_file {
            let name = chars_of(e.name.as_str());
            if starts_with(&name, &p) {
                return Some(i);
            }
        }
    }
    None
}

/// The extensions that a note shows as an embedded picture.
pub open spec fn is_image_extension(e: Seq<char>) -> bool {
    e == "png"@ || e == "jpg"@ || e == "jpeg"@ || e == "gif"@ || e == "webp"@ || e == "heic"@ || e
        == "heif"@
}

/// The note line for an attachment: animated and video stickers as a sticker element, other
/// stickers as a 180-pixel embed, pictures embedded, other files linked.
pub open spec fn media_note_line_spec(m: MediaFile) -> Seq<char> {
    let ext = lower_extension_spec(m.path@);
    if m.kind == AttachmentKind::Sticker {
        if ext == "tgs"@ || ext == "webm"@ {
            "  <span class=\"tg-sticker\" data-tg-id=\""@ + html_escape_spec(
                match m.sticker_id {
                    Some(s) => s@,
                    None => "telegram-sticker"@,
                },
            ) + "\" data-tg-src=\""@ + html_escape_spec(m.vault_path@)
                + "\" data-tg-size=\"180\">🧩</span>"@
        } else {
            "  ![["@ + m.vault_path@ + "|180]]"@
        }
    } else if is_image_extension(ext) {
        "  ![["@ + m.vault_path@ + "]]"@
    } else {
        "  [["@ + m.vault_path@ + "]]"@
    }
}

/// The line that shows an attachment in a note.
pub fn media_note_line(media: &MediaFile) -> (line: String)
    ensures
        line@ == media_note_line_spec(*media),
{
    let ext = lower_extension(media.path.as_str());
    let mut out: Vec<char> = Vec::new();
    let tgs = chars_of("tgs");
    let webm = chars_of("webm");
    if media.kind == AttachmentKind::Sticker {
        if chars_equal(&ext, &tgs) || chars_equal(&ext, &webm) {
            push_str(&mut out, "  <span class=\"tg-sticker\" data-tg-id=\"");
            let id = match &media.sticker_id {
                Some(s) => chars_of(s.as_str()),
                None => chars_of("telegram-sticker"),
            };
            push_html_escaped(&mut out, &id);
            push_str(&mut out, "\" data-tg-src=\"");
            let vp = chars_of(media.vault_path.as_str());
            push_html_escaped(&mut out, &vp);
            push_str(&mut out, "\" data-tg-size=\"180\">🧩</span>");
        } else {
            push_str(&mut out, "  ![[");
            push_str(&mut out, media.vault_path.as_str());
            push_str(&mut out, "|180]]");
        }
    } else {
        let cands = [
            chars_of("png"),
            chars_of("jpg"),
            chars_of("jpeg"),
            chars_of("gif"),
            chars_of("webp"),
            chars_of("heic"),
            chars_of("heif"),
        ];
        let image = chars_equal(&ext, &cands[0]) || chars_equal(&ext, &cands[1]) || chars_equal(
            &ext,
            &cands[2],
        ) || chars_equal(&ext, &cands[3]) || chars_equal(&ext, &cands[4]) || chars_equal(
            &ext,
            &cands[5],
        ) || chars_equal(&ext, &cands[6]);
        if image {
            push_str(&mut out, "  ![[");
            push_str(&mut out, media.vault_path.as_str());
            push_str(&mut out, "]]");
        } else {
            push_str(&mut out, "  [[");
            push_str(&mut out, media.vault_path.as_str());
            push_str(&mut out, "]]");
        }
    }
    string_from_chars(&out)
}

/// The path starts at the root.
pub open spec fn is_rooted(s: Seq<char>) -> bool {
    s.len() > 0 && s[0] == '/'
}

/// The index of the segment after the one that gives the `m`-th component, counting from
/// segment `i`.
pub open spec fn after_components(segs: Seq<Seq<char>>, m: int, i: int) -> int
    decreases segs.len() - i,
{
    if m <= 0 || i < 0 || i >= segs.len() {
        i
    } else if yields_component(segs, i) {
        after_components(segs, m - 1, i + 1)
    } else {
        after_components(segs, m, i + 1)
    }
}

/// A segment that names nothing: empty (a repeated, leading or trailing separator) or `.`.
pub open spec fn is_filler(seg: Seq<char>) -> bool {
    seg.len() == 0 || is_dot(seg)
}

/// The segments without the fillers at their start.
pub open spec fn trim_front_segs(s: Seq<Seq<char>>) -> Seq<Seq<char>>
    decreases s.len(),
{
    if s.len() > 0 && is_filler(s[0]) {
        trim_front_segs(s.drop_first())
    } else {
        s
    }
}

/// The segments without the fillers at their end.
pub open spec fn trim_back_segs(s: Seq<Seq<char>>) -> Seq<Seq<char>>
    decreases s.len(),
{
    if s.len() > 0 && is_filler(s.last()) {
        trim_back_segs(s.drop_last())
    } else {
        s
    }
}

/// The text of a path after its first `m` components, as `Components::as_path` gives it: the
/// remaining segments as they are written (repeated separators and inner `.` kept), without
/// separators and `.` at the end, nor at the start once a component or the root has been passed.
pub open spec fn path_rest_spec(path: Seq<char>, m: int) -> Seq<char> {
    let segs = split_spec(path, '/');
    let rest = segs.skip(after_components(segs, m, 0));
    let front = if m > 0 || is_rooted(path) {
        trim_front_segs(rest)
    } else {
        rest
    };
    join_spec(trim_back_segs(front), "/"@)
}

/// The path of a file relative to the vault (`Path::strip_prefix`, then backslashes turned into
/// slashes); `None` when the path is not inside the vault: its components do not begin with
/// those of the vault, or one has a root and the other not.
pub open spec fn relative_to_vault_spec(vault_dir: Seq<char>, path: Seq<char>) -> Option<Seq<char>> {
    let vc = path_components_spec(vault_dir);
    let pc = path_components_spec(path);
    if is_rooted(vault_dir) == is_rooted(path) && vc.len() <= pc.len() && pc.take(vc.len() as int)
        == vc {
        Some(replace_spec(path_rest_spec(path, vc.len() as int), "\\"@, "/"@))
    } else {
        None
    }
}

/// The path of a stored file relative to the vault directory.
pub fn relative_to_vault(vault_dir: &str, path: &str) -> (rel: Option<String>)
    ensures
        match rel {
            Some(r) => relative_to_vault_spec(vault_dir@, path@) == Some(r@),
            None => relative_to_vault_spec(vault_dir@, path@) is None,
        },
{
    let vd = chars_of(vault_dir);
    let pd = chars_of(path);
    let v_root = vd.len() > 0 && vd[0] == '/';
    let p_root = pd.len() > 0 && pd[0] == '/';
    if v_root != p_root {
        return None;
    }
    let vc = path_components(vault_dir);
    let pc = path_components(path);
    let ghost vcs = vc@.map_values(|x: Vec<char>| x@);
    let ghost pcs = pc@.map_values(|x: Vec<char>| x@);
    let m = vc.len();
    if m > pc.len() {
        return None;
    }
    for i in 0..m
        invariant
            m == vc@.len() <= pc@.len(),
            vcs == vc@.map_values(|x: Vec<char>| x@),
            pcs == pc@.map_values(|x: Vec<char>| x@),
            vcs == path_components_spec(vault_dir@),
            pcs == path_components_spec(path@),
            forall|j: int| 0 <= j < i ==> pcs[j] == vcs[j],
            is_rooted(vault_dir@) == is_rooted(path@),
    {
        if !chars_equal(&vc[i], &pc[i]) {
            assert(pcs.take(m as int)[i as int] != vcs[i as int]);
            return None;
        }
    }
    assert(pcs.take(m as int) =~= vcs);
    let segs = split_chars(&pd, '/');
    let ghost sv = segs@.map_values(|x: Vec<char>| x@);
    let ns = segs.len();
    let mut i: usize = 0;
    let mut left: usize = m;
    while left > 0 && i < ns
        invariant
            ns == sv.len(),
            sv == segs@.map_values(|x: Vec<char>| x@),
            i <= ns,
            left <= m,
            after_components(sv, m as int, 0) == after_components(sv, left as int, i as int),
        decreases ns - i,
    {
        assert(sv[i as int] == segs@[i as int]@);
        if segs[i].len() > 0 && !(i > 0 && is_dot_exec(&segs[i])) {
            left = left - 1;
        }
        i = i + 1;
    }
    let j = i;
    assert(after_components(sv, m as int, 0) == j);
    let mut lo = j;
    if m > 0 || p_root {
        assert(sv.skip(j as int) == sv.skip(lo as int));
        while lo < ns && (segs[lo].len() == 0 || is_dot_exec(&segs[lo]))
            invariant
                ns == sv.len(),
                sv == segs@.map_values(|x: Vec<char>| x@),
                j <= lo <= ns,
                trim_front_segs(sv.skip(j as int)) == trim_front_segs(sv.skip(lo as int)),
            decreases ns - lo,
        {
            assert(sv[lo as int] == segs@[lo as int]@);
            assert(sv.skip(lo as int).drop_first() =~= sv.skip(lo + 1));
            lo = lo + 1;
        }
        proof {
            if lo < ns {
                assert(sv[lo as int] == segs@[lo as int]@);
                assert(sv.skip(lo as int)[0] == sv[lo as int]);
            }
        }
        assert(trim_front_segs(sv.skip(lo as int)) == sv.skip(lo as int));
    }
    let ghost front = sv.skip(lo as int);
    assert(front =~= sv.subrange(lo as int, ns as int));
    let mut hi = ns;
    while hi > lo && (segs[hi - 1].len() == 0 || is_dot_exec(&segs[hi - 1]))
        invariant
            ns == sv.len(),
            sv == segs@.map_values(|x: Vec<char>| x@),
            lo <= hi <= ns,
            trim_back_segs(sv.subrange(lo as int, ns as int)) == trim_back_segs(
                sv.subrange(lo as int, hi as int),
            ),
        decreases hi,
    {
        assert(sv[hi - 1] == segs@[hi - 1]@);
        assert(sv.subrange(lo as int, hi as int).drop_last() =~= sv.subrange(lo as int, hi - 1));
        hi = hi - 1;
    }
    proof {
        if hi > lo {
            assert(sv[hi - 1] == segs@[hi - 1]@);
            assert(sv.subrange(lo as int, hi as int).last() == sv[hi - 1]);
        }
    }
    assert(trim_back_segs(sv.subrange(lo as int, hi as int)) == sv.subrange(lo as int, hi as int));
    let mut rest: Vec<Vec<char>> = Vec::new();
    for k in lo..hi
        invariant
            lo <= hi <= ns,
            ns == sv.len(),
            sv == segs@.map_values(|x: Vec<char>| x@),
            rest@.map_values(|x: Vec<char>| x@) == sv.subrange(lo as int, k as int),
    {
        let copy = subrange_chars(&segs[k], 0, segs[k].len());
        assert(copy@ == sv[k as int]);
        let ghost before = rest@.map_values(|x: Vec<char>| x@);
        rest.push(copy);
        assert(rest@.map_values(|x: Vec<char>| x@) =~= before.push(sv[k as int]));
        assert(sv.subrange(lo as int, k + 1) =~= sv.subrange(lo as int, k as int).push(sv[k as int]));
    }
    let mut slash: Vec<char> = Vec::new();
    slash.push('/');
    let joined = join_chars(&rest, &slash);
    let mut bs: Vec<char> = Vec::new();
    bs.push('\\');
    let replaced = replace_chars(&joined, &bs, &slash);
    proof {
        reveal_strlit("/");
        reveal_strlit("\\");
        assert(slash@ =~= "/"@);
        assert(bs@ =~= "\\"@);
    }
    Some(string_from_chars(&replaced))
}

/// The upload folder for an attachment: its kind's folder, else the third name of its vault path
/// (the day of a file), else `файлы`.
pub open spec fn drive_category_spec(vault_path: Seq<char>, parts: Seq<Seq<char>>) -> Seq<char> {
    if contains_spec(vault_path, "/фото/"@) {
        "фото"@
    } else if contains_spec(vault_path, "/стикеры/"@) {
        "стикеры"@
    } else if contains_spec(vault_path, "/telegram-emoji/"@) {
        "telegram-emoji"@
    } else if parts.len() > 2 {
        parts[2]
    } else {
        "файлы"@
    }
}

/// Where an attachment is staged for upload, below the upload inbox:
/// `users/<user id>/<category>/<file name>`; `None` when the vault path is not safe.
pub open spec fn drive_destination_spec(vault_path: Seq<char>, file_name: Seq<char>, user_id: i64) -> Option<
    Seq<Seq<char>>,
> {
    match safe_relative_path_spec(vault_path) {
        Some(rel) => Some(
            seq![
                "users"@,
                decimal_spec(user_id as int),
                drive_category_spec(vault_path, path_components_spec(rel)),
                file_name,
            ],
        ),
        None => None,
    }
}

/// The names of the staging path of an attachment below the upload inbox.
pub fn drive_destination(vault_path: &str, file_name: &str, user_id: i64) -> (dest: Option<
    Vec<String>,
>)
    ensures
        match dest {
            Some(d) => drive_destination_spec(vault_path@, file_name@, user_id) == Some(
                d@.map_values(|s: String| s@),
            ),
            None => drive_destination_spec(vault_path@, file_name@, user_id) is None,
        },
{
    let rel = match safe_relative_path(vault_path) {
        Some(r) => r,
        None => return None,
    };
    let parts = path_components(rel.as_str());
    let v = chars_of(vault_path);
    let photo = chars_of("/фото/");
    let stickers = chars_of("/стикеры/");
    let emoji = chars_of("/telegram-emoji/");
    let category = if contains(&v, &photo) {
        lit("фото")
    } else if contains(&v, &stickers) {
        lit("стикеры")
    } else if contains(&v, &emoji) {
        lit("telegram-emoji")
    } else if parts.len() > 2 {
        assert(parts@.map_values(|x: Vec<char>| x@)[2] == parts@[2]@);
        string_from_chars(&parts[2])
    } else {
        lit("файлы")
    };
    let mut out: Vec<String> = Vec::new();
    out.push(lit("users"));
    let uid = crate::text::decimal(user_id);
    out.push(string_from_chars(&uid));
    out.push(category);
    out.push(lit(file_name));
    assert(out@.map_values(|s: String| s@) =~= drive_destination_spec(
        vault_path@,
        file_name@,
        user_id,
    )->0);
    Some(out)
}

/// A document is filed with the photos, as a photo, exactly when the extension it is stored with
/// is `jpg`, `jpeg`, `png`, `gif`, `webp`, `heic` or `heif`; any other document goes into the
/// directory of its day as a file.
pub proof fn lemma_document_photos_filed_as_photos(plans: Seq<MediaPlan>, m: Message, day: Seq<char>)
    requires
        plans_ok(plans, m, day),
        m.document is Some,
    ensures
        ({
            let i: int = if has_photo(m) {
                1
            } else {
                0
            };
            let e = document_extension_spec(document_name_spec(m.document->0));
            let photo = e == "jpg"@ || e == "jpeg"@ || e == "png"@ || e == "gif"@ || e == "webp"@
                || e == "heic"@ || e == "heif"@;
            &&& photo ==> plans[i].kind == AttachmentKind::Photo && plans[i].directory@
                == "Универ/Вложения/фото"@
            &&& !photo ==> plans[i].kind == AttachmentKind::File && plans[i].directory@
                == "Универ/Вложения/"@ + day
        }),
{
}

/// An attachment that is not a sticker is embedded (`![[...]]`) exactly when its extension,
/// lowercased, is `png`, `jpg`, `jpeg`, `gif`, `webp`, `heic` or `heif`, and linked (`[[...]]`)
/// otherwise.
pub proof fn lemma_pictures_are_embedded(m: MediaFile)
    requires
        m.kind != AttachmentKind::Sticker,
    ensures
        ({
            let e = lower_extension_spec(m.path@);
            let picture = e == "png"@ || e == "jpg"@ || e == "jpeg"@ || e == "gif"@ || e == "webp"@
                || e == "heic"@ || e == "heif"@;
            &&& picture ==> media_note_line_spec(m) == "  ![["@ + m.vault_path@ + "]]"@
            &&& !picture ==> media_note_line_spec(m) == "  [["@ + m.vault_path@ + "]]"@
        }),
{
}

} // verus!
