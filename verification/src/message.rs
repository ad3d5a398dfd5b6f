//! Telegram messages: links, commands, and what the server does with each message.
use vstd::prelude::*;

use crate::emoji::MessageEntity;
use crate::state::{
    is_processed, lemma_mark_processed_records, mark_processed_spec, PersistentState, MAX_PROCESSED,
};
use crate::text::{
    ascii_lower, ascii_lower_spec, chars_equal, chars_of, decimal, decimal_spec, is_whitespace,
    is_whitespace_spec, push_all, push_decimal, push_str, starts_with, starts_with_spec,
    str_views, string_from_chars, subrange_chars, trim_spec, trim_start_spec, trim_str, TrimSet,
};

verus! {

/// The chat a message was sent in.
pub struct Chat {
    pub id: i64,
    pub kind: String,
    pub username: Option<String>,
}

/// The sender of a message.
pub struct User {
    pub id: i64,
    pub username: Option<String>,
    pub first_name: Option<String>,
}

/// One size of a photo.
pub struct PhotoSize {
    pub file_id: String,
    pub file_unique_id: Option<String>,
}

/// A file attached to a message.
pub struct Document {
    pub file_id: String,
    pub file_unique_id: Option<String>,
    pub file_name: Option<String>,
}

/// A sticker sent as a message.
pub struct Sticker {
    pub file_id: String,
    pub file_unique_id: Option<String>,
    pub is_animated: bool,
    pub is_video: bool,
}

/// A Telegram message, with the fields the server reads.
pub struct Message {
    pub message_id: i64,
    pub date: i64,
    pub chat: Chat,
    pub from: Option<User>,
    pub text: Option<String>,
    pub entities: Vec<MessageEntity>,
    pub caption: Option<String>,
    pub caption_entities: Vec<MessageEntity>,
    pub photo: Option<Vec<PhotoSize>>,
    pub document: Option<Document>,
    pub sticker: Option<Sticker>,
}

/// The public link to a message: by the chat's user name, or for a supergroup by its internal id
/// (the chat id without its `-100` prefix).
pub open spec fn telegram_link_spec(chat: Chat, message_id: i64) -> Option<Seq<char>> {
    match chat.username {
        Some(u) => Some("https://t.me/"@ + u@ + "/"@ + decimal_spec(message_id as int)),
        None => if chat.kind@ == "supergroup"@ && starts_with_spec(
            decimal_spec(chat.id as int),
            "-100"@,
        ) {
            Some(
                "https://t.me/c/"@ + decimal_spec(chat.id as int).skip(4) + "/"@ + decimal_spec(
                    message_id as int,
                ),
            )
        } else {
            None
        },
    }
}

/// A link to a message, when the chat has one.
pub fn telegram_link(chat: &Chat, message_id: i64) -> (link: Option<String>)
    ensures
        match link {
            Some(l) => telegram_link_spec(*chat, message_id) == Some(l@),
            None => telegram_link_spec(*chat, message_id) is None,
        },
{
    match &chat.username {
        Some(u) => {
            let mut out: Vec<char> = Vec::new();
            push_str(&mut out, "https://t.me/");
            push_str(&mut out, u.as_str());
            push_str(&mut out, "/");
            push_decimal(&mut out, message_id);
            return Some(string_from_chars(&out));
        },
        None => {},
    }
    let kind = chars_of(chat.kind.as_str());
    let supergroup = chars_of("supergroup");
    if chars_equal(&kind, &supergroup) {
        let id = decimal(chat.id);
        let prefix = chars_of("-100");
        if starts_with(&id, &prefix) {
            proof {
                reveal_strlit("-100");
            }
            let internal = subrange_chars(&id, 4, id.len());
            let mut out: Vec<char> = Vec::new();
            push_str(&mut out, "https://t.me/c/");
            push_all(&mut out, &internal);
            push_str(&mut out, "/");
            push_decimal(&mut out, message_id);
            assert(internal@ == decimal_spec(chat.id as int).skip(4));
            return Some(string_from_chars(&out));
        }
    }
    None
}

/// The text of a message and its entities: the text when there is one, else the caption, else
/// nothing.
pub open spec fn text_and_entities_spec(m: Message) -> (Seq<char>, Seq<MessageEntity>) {
    match m.text {
        Some(t) => (t@, m.entities@),
        None => match m.caption {
            Some(c) => (c@, m.caption_entities@),
            None => (Seq::<char>::empty(), Seq::<MessageEntity>::empty()),
        },
    }
}

/// The text of a message (or its caption) with the entities that format it.
pub fn message_text_and_entities(message: &Message) -> (res: (&str, &[MessageEntity]))
    ensures
        (res.0@, res.1@) == text_and_entities_spec(*message),
{
    match &message.text {
        Some(t) => (t.as_str(), message.entities.as_slice()),
        None => match &message.caption {
            Some(c) => (c.as_str(), message.caption_entities.as_slice()),
            None => {
                let empty: &[MessageEntity] = &[];
                assert(empty@ =~= Seq::<MessageEntity>::empty());
                let text = "";
                proof {
                    reveal_strlit("");
                }
                assert(text@ =~= Seq::<char>::empty());
                (text, empty)
            },
        },
    }
}

/// The index of the first white-space character of `s` at or after `i`, or its length.
pub open spec fn first_ws_from(s: Seq<char>, i: int) -> int
    decreases s.len() - i,
{
    if i >= s.len() {
        s.len() as int
    } else if is_whitespace_spec(s[i]) {
        i
    } else {
        first_ws_from(s, i + 1)
    }
}

/// The first white-space separated word of `s` (`split_whitespace().next()`), or empty.
pub open spec fn first_word_spec(s: Seq<char>) -> Seq<char> {
    let t = trim_start_spec(s, TrimSet::Whitespace);
    t.take(first_ws_from(t, 0))
}

/// The first word, in ASCII lowercase, is `command` or `command@bot`.
pub open spec fn is_command_spec(text: Seq<char>, command: Seq<char>) -> bool {
    let first = ascii_lower_spec(first_word_spec(text));
    first == command || starts_with_spec(first, command + "@"@)
}

proof fn lemma_first_ws_from_bounds(s: Seq<char>, i: int)
    requires
        0 <= i <= s.len(),
    ensures
        i <= first_ws_from(s, i) <= s.len(),
    decreases s.len() - i,
{
    if i < s.len() && !is_whitespace_spec(s[i]) {
        lemma_first_ws_from_bounds(s, i + 1);
    }
}

/// Whether a message text is the bot command `command` (possibly addressed as `command@bot`).
pub fn is_command(text: &str, command: &str) -> (b: bool)
    ensures
        b == is_command_spec(text@, command@),
{
    let v = chars_of(text);
    let n = v.len();
    let mut lo: usize = 0;
    assert(v@.skip(0) == v@);
    while lo < n && is_whitespace(v[lo])
        invariant
            n == v@.len(),
            lo <= n,
            trim_start_spec(v@, TrimSet::Whitespace) == trim_start_spec(
                v@.skip(lo as int),
                TrimSet::Whitespace,
            ),
        decreases n - lo,
    {
        assert(v@.skip(lo as int).drop_first() == v@.skip(lo + 1));
        lo = lo + 1;
    }
    let t = subrange_chars(&v, lo, n);
    assert(t@ == trim_start_spec(v@, TrimSet::Whitespace));
    let m = t.len();
    let mut k: usize = 0;
    while k < m && !is_whitespace(t[k])
        invariant
            m == t@.len(),
            k <= m,
            first_ws_from(t@, 0) == first_ws_from(t@, k as int),
        decreases m - k,
    {
        k = k + 1;
    }
    let word = subrange_chars(&t, 0, k);
    assert(word@ == t@.take(k as int));
    let first = ascii_lower(&word);
    let cmd = chars_of(command);
    if chars_equal(&first, &cmd) {
        return true;
    }
    let mut with_at = subrange_chars(&cmd, 0, cmd.len());
    with_at.push('@');
    assert(with_at@ =~= command@ + "@"@) by {
        reveal_strlit("@");
    }
    starts_with(&first, &with_at)
}

/// The key that identifies a message: its chat id and message id.
pub open spec fn message_key_spec(chat_id: i64, message_id: i64) -> Seq<char> {
    decimal_spec(chat_id as int) + ":"@ + decimal_spec(message_id as int)
}

/// The key `chat_id:message_id` of a message.
pub fn message_key(message: &Message) -> (key: String)
    ensures
        key@ == message_key_spec(message.chat.id, message.message_id),
{
    let mut out: Vec<char> = Vec::new();
    push_decimal(&mut out, message.chat.id);
    push_str(&mut out, ":");
    push_decimal(&mut out, message.message_id);
    string_from_chars(&out)
}

/// What the server does with a message.
pub enum MessageAction {
    /// The message was handled before.
    AlreadyHandled,
    /// The `/settings` command: a pairing code is issued when the sender is the administrator.
    Settings { issue_code: bool },
    /// Recorded as handled without importing it.
    Skip,
    /// Imported into the notes.
    Import,
}

/// The sender is the administrator.
pub open spec fn from_admin(m: Message, admin_user_id: i64) -> bool {
    match m.from {
        Some(u) => u.id == admin_user_id,
        None => false,
    }
}

/// The decision for a message: handled messages are skipped; `/settings` issues a pairing code
/// for the administrator; only the administrator's messages in the configured group are imported.
pub open spec fn classify_spec(
    processed: Seq<Seq<char>>,
    m: Message,
    chat_id: i64,
    admin_user_id: i64,
) -> MessageAction {
    let key = message_key_spec(m.chat.id, m.message_id);
    let text = text_and_entities_spec(m).0;
    let admin = from_admin(m, admin_user_id);
    if processed.contains(key) {
        MessageAction::AlreadyHandled
    } else if is_command_spec(trim_spec(text, TrimSet::Whitespace), "/settings"@) {
        MessageAction::Settings { issue_code: admin }
    } else if !(m.chat.kind@ == "group"@ || m.chat.kind@ == "supergroup"@) || m.chat.id != chat_id
        || !admin {
        MessageAction::Skip
    } else {
        MessageAction::Import
    }
}

/// Decides what to do with a message.
pub fn classify_message(
    state: &PersistentState,
    message: &Message,
    chat_id: i64,
    admin_user_id: i64,
) -> (action: MessageAction)
    ensures
        action == classify_spec(str_views(state.processed@), *message, chat_id, admin_user_id),
{
    let key = message_key(message);
    if is_processed(state, &key) {
        return MessageAction::AlreadyHandled;
    }
    let (raw_text, _entities) = message_text_and_entities(message);
    let is_admin = match &message.from {
        Some(user) => user.id == admin_user_id,
        None => false,
    };
    let trimmed = trim_str(raw_text);
    let trimmed_text = string_from_chars(&trimmed);
    if is_command(trimmed_text.as_str(), "/settings") {
        return MessageAction::Settings { issue_code: is_admin };
    }
    let kind = chars_of(message.chat.kind.as_str());
    let group = chars_of("group");
    let supergroup = chars_of("supergroup");
    let is_group = chars_equal(&kind, &group) || chars_equal(&kind, &supergroup);
    if !is_group || message.chat.id != chat_id || !is_admin {
        MessageAction::Skip
    } else {
        MessageAction::Import
    }
}

/// Once a message is recorded as handled, it is never imported or answered again.
pub proof fn lemma_handled_message_skipped(
    processed: Seq<Seq<char>>,
    m: Message,
    chat_id: i64,
    admin_user_id: i64,
)
    requires
        processed.len() <= MAX_PROCESSED,
    ensures
        classify_spec(
            mark_processed_spec(processed, message_key_spec(m.chat.id, m.message_id)),
            m,
            chat_id,
            admin_user_id,
        ) == MessageAction::AlreadyHandled,
{
    lemma_mark_processed_records(processed, message_key_spec(m.chat.id, m.message_id));
}

/// Only the administrator's `/settings` command issues a pairing code.
pub proof fn lemma_settings_only_for_admin(
    processed: Seq<Seq<char>>,
    m: Message,
    chat_id: i64,
    admin_user_id: i64,
)
    ensures
        classify_spec(processed, m, chat_id, admin_user_id) == (MessageAction::Settings {
            issue_code: true,
        }) ==> from_admin(m, admin_user_id),
        classify_spec(processed, m, chat_id, admin_user_id) == MessageAction::Import ==> from_admin(
            m,
            admin_user_id,
        ) && m.chat.id == chat_id,
{
}

} // verus!
