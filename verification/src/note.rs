//! Turning an imported message into a note event.
use vstd::prelude::*;

use crate::emoji::{
    custom_emoji_size, custom_emoji_size_spec, emoji_layout_ok_spec, render_custom_emoji,
    render_custom_emoji_spec, vault_path_set, EmojiAssets,
};
use crate::event::{
    compact_text, compact_text_spec, event_markdown, event_markdown_spec, message_body_spec,
    sorted_unique, strictly_sorted, TelegramEvent, EVENT_VERSION,
};
use crate::media::{media_note_line, media_note_line_spec, MediaFile};
use crate::message::{
    message_text_and_entities, telegram_link, telegram_link_spec, text_and_entities_spec, Message,
};
use crate::outside::{
    is_date_text, is_time_text, local_day_and_time, local_day_and_time_now, local_time_text,
};
use crate::path::join_spec;
use crate::text::str_views;

verus! {

/// The day and time of day a message was sent, in the server's time zone; when chrono cannot
/// represent the message's timestamp, the current time is used instead.
pub fn message_local_time(date: i64, tz: &chrono_tz::Tz) -> (r: (String, String))
    ensures
        local_time_text(date, *tz) matches Some(p) ==> (r.0@, r.1@) == p,
        is_date_text(r.0@),
        is_time_text(r.1@),
        r.1@.len() == 5,
{
    match local_day_and_time(date, tz) {
        Some(p) => p,
        None => local_day_and_time_now(tz),
    }
}

/// The one-line text of a message, with its custom emoji rendered.
pub open spec fn message_line_text_spec(m: Message, assets: Map<Seq<char>, crate::emoji::CustomEmojiAsset>) -> Seq<char> {
    let te = text_and_entities_spec(m);
    let size = custom_emoji_size_spec(te.0, te.1, assets);
    compact_text_spec(render_custom_emoji_spec(te.0, te.1, assets, size))
}

/// The Markdown of the event for an imported message.
pub open spec fn note_markdown_spec(
    time: Seq<char>,
    m: Message,
    media: Seq<MediaFile>,
    assets: Map<Seq<char>, crate::emoji::CustomEmojiAsset>,
) -> Seq<char> {
    event_markdown_spec(
        time,
        message_body_spec(message_line_text_spec(m, assets), media.len() > 0),
        telegram_link_spec(m.chat, m.message_id),
        media.map_values(|f: MediaFile| media_note_line_spec(f)),
    )
}

/// The vault paths of the attachments.
pub open spec fn media_path_set(media: Seq<MediaFile>) -> Set<Seq<char>> {
    media.map_values(|f: MediaFile| f.vault_path@).to_set()
}

/// The event for an imported message: its Markdown note, and every file it uses listed once in
/// order.
pub fn build_event(
    key: &String,
    message: &Message,
    day: String,
    time: &str,
    media: &Vec<MediaFile>,
    emoji: &EmojiAssets,
    now: i64,
) -> (event: TelegramEvent)
    requires
        emoji_layout_ok_spec(
            text_and_entities_spec(*message).0,
            text_and_entities_spec(*message).1,
            emoji.view(),
        ),
    ensures
        event.version == EVENT_VERSION,
        event.cursor == message.message_id,
        event.id@ == key@,
        event.day@ == day@,
        event.markdown@ == note_markdown_spec(time@, *message, media@, emoji.view()),
        strictly_sorted(str_views(event.assets@)),
        str_views(event.assets@).to_set() == media_path_set(media@).union(
            vault_path_set(emoji.view()),
        ),
        event.message_id == message.message_id,
        event.created_at == now,
{
    let (text, entities) = message_text_and_entities(message);
    let size = custom_emoji_size(text, entities, emoji);
    let rendered = render_custom_emoji(text, entities, emoji, size);
    let compact = compact_text(rendered.as_str());
    let link = telegram_link(&message.chat, message.message_id);
    let n = media.len();
    let mut lines: Vec<String> = Vec::new();
    let mut paths: Vec<String> = Vec::new();
    for i in 0..n
        invariant
            n == media@.len(),
            str_views(lines@) == media@.take(i as int).map_values(
                |f: MediaFile| media_note_line_spec(f),
            ),
            str_views(paths@) == media@.take(i as int).map_values(|f: MediaFile| f.vault_path@),
    {
        let ghost lines_before = str_views(lines@);
        let ghost paths_before = str_views(paths@);
        let line = media_note_line(&media[i]);
        let ghost lv = line@;
        lines.push(line);
        let vp = media[i].vault_path.clone();
        let ghost pv = vp@;
        paths.push(vp);
        assert(str_views(lines@) =~= lines_before.push(lv));
        assert(str_views(paths@) =~= paths_before.push(pv));
        assert(media@.take(i + 1) =~= media@.take(i as int).push(media@[i as int]));
        assert(str_views(lines@) =~= media@.take(i + 1).map_values(
            |f: MediaFile| media_note_line_spec(f),
        ));
        assert(str_views(paths@) =~= media@.take(i + 1).map_values(|f: MediaFile| f.vault_path@));
    }
    assert(media@.take(n as int) =~= media@);
    let emoji_paths = emoji.vault_paths();
    let ghost media_views = str_views(paths@);
    let m = emoji_paths.len();
    for j in 0..m
        invariant
            m == emoji_paths@.len(),
            str_views(paths@) == media_views + str_views(emoji_paths@).take(j as int),
    {
        let ghost before = str_views(paths@);
        let p = emoji_paths[j].clone();
        let ghost pv = p@;
        paths.push(p);
        assert(str_views(paths@) =~= before.push(pv));
        assert(str_views(emoji_paths@).take(j + 1) =~= str_views(emoji_paths@).take(j as int).push(pv));
        assert(str_views(paths@) =~= media_views + str_views(emoji_paths@).take(j + 1));
    }
    proof {
        assert(str_views(emoji_paths@).take(m as int) =~= str_views(emoji_paths@));
        let all = media_views + str_views(emoji_paths@);
        assert(all.to_set() =~= media_views.to_set().union(str_views(emoji_paths@).to_set())) by {
            assert forall|t: Seq<char>| #[trigger] all.to_set().contains(t) == media_views.to_set().union(
                str_views(emoji_paths@).to_set(),
            ).contains(t) by {
                if all.contains(t) {
                    let k = choose|k: int| 0 <= k < all.len() && all[k] == t;
                    if k < media_views.len() {
                        assert(media_views[k] == t);
                    } else {
                        assert(str_views(emoji_paths@)[k - media_views.len()] == t);
                    }
                }
                if media_views.contains(t) {
                    let k = choose|k: int| 0 <= k < media_views.len() && media_views[k] == t;
                    assert(all[k] == t);
                }
                if str_views(emoji_paths@).contains(t) {
                    let k = choose|k: int|
                        0 <= k < str_views(emoji_paths@).len() && str_views(emoji_paths@)[k] == t;
                    assert(all[k + media_views.len()] == t);
                }
            }
        }
    }
    let markdown = event_markdown(time, compact.as_str(), n > 0, &link, &lines);
    let assets = sorted_unique(&paths);
    TelegramEvent {
        version: EVENT_VERSION,
        cursor: message.message_id,
        id: key.clone(),
        day,
        markdown,
        assets,
        message_id: message.message_id,
        created_at: now,
    }
}

/// A message whose text comes out empty is noted as `вложение` when it has at least one
/// attachment, and as `сообщение без текста или вложения` only when it has none; the note is that
/// line (with its time and link) followed by one line per attachment.
pub proof fn lemma_empty_message_placeholder(
    time: Seq<char>,
    m: Message,
    media: Seq<MediaFile>,
    assets: Map<Seq<char>, crate::emoji::CustomEmojiAsset>,
)
    requires
        message_line_text_spec(m, assets).len() == 0,
    ensures
        note_markdown_spec(time, m, media, assets) == join_spec(
            seq![
                "- "@ + time + " · "@ + (if media.len() > 0 {
                    "вложение"@
                } else {
                    "сообщение без текста или вложения"@
                }) + match telegram_link_spec(m.chat, m.message_id) {
                    Some(l) => " [↗]("@ + l + ")"@,
                    None => Seq::<char>::empty(),
                },
            ] + media.map_values(|f: MediaFile| media_note_line_spec(f)),
            "\n"@,
        ),
{
}

} // verus!
