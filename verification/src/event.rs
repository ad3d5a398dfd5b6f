//! Queued note events: their Markdown, their asset lists, and which of them a client receives.
use vstd::prelude::*;

use crate::order::{
    indexes_exactly, lemma_stable_order_sorted, sorted_by_key, stable_order, stable_order_by_key,
};
use crate::path::{
    join_chars, join_spec, lacks, last_dot_before, lemma_join_lacks, lemma_split_parts, split_chars,
    split_spec,
};
use crate::text::{
    chars_of, opt_i64, parse_i64, parse_i64_spec, push_all, push_str, str_views,
    string_from_chars, subrange_chars, trim_chars, trim_end_spec, trim_spec, trim_start_spec, TrimSet,
};

verus! {

/// The event format version.
pub const EVENT_VERSION: u8 = 1;

/// The most events one request returns.
pub const MAX_EVENTS_PER_REQUEST: usize = 200;

/// A note event queued for the clients.
pub struct TelegramEvent {
    pub version: u8,
    pub cursor: i64,
    pub id: String,
    pub day: String,
    pub markdown: String,
    pub assets: Vec<String>,
    pub message_id: i64,
    pub created_at: i64,
}

/// The trimmed non-empty segments among the first `n`.
pub open spec fn nonempty_trimmed(segs: Seq<Seq<char>>, n: int) -> Seq<Seq<char>>
    decreases n,
{
    if n <= 0 {
        Seq::<Seq<char>>::empty()
    } else {
        let r = nonempty_trimmed(segs, n - 1);
        let t = trim_spec(segs[n - 1], TrimSet::Whitespace);
        if t.len() > 0 {
            r.push(t)
        } else {
            r
        }
    }
}

/// A rendered message on one line: its lines trimmed, empty ones dropped, the rest joined with
/// ` / `. (Cutting at `\n` and trimming gives the same lines as `str::lines` and trimming, since
/// a `\r` at a line's end is white space.)
pub open spec fn compact_text_spec(s: Seq<char>) -> Seq<char> {
    let segs = split_spec(s, '\n');
    join_spec(nonempty_trimmed(segs, segs.len() as int), " / "@)
}

/// Puts a multi-line text on one line.
pub fn compact_text(text: &str) -> (out: String)
    ensures
        out@ == compact_text_spec(text@),
{
    let v = chars_of(text);
    let segs = split_chars(&v, '\n');
    let ghost sv = segs@.map_values(|x: Vec<char>| x@);
    let n = segs.len();
    let mut lines: Vec<Vec<char>> = Vec::new();
    for i in 0..n
        invariant
            n == segs@.len(),
            sv == segs@.map_values(|x: Vec<char>| x@),
            lines@.map_values(|x: Vec<char>| x@) == nonempty_trimmed(sv, i as int),
    {
        let t = trim_chars(&segs[i], TrimSet::Whitespace);
        assert(sv[i as int] == segs@[i as int]@);
        if t.len() > 0 {
            let ghost before = lines@.map_values(|x: Vec<char>| x@);
            lines.push(t);
            assert(lines@.map_values(|x: Vec<char>| x@) =~= before.push(t@));
        }
    }
    let sep = chars_of(" / ");
    let joined = join_chars(&lines, &sep);
    string_from_chars(&joined)
}

proof fn lemma_trim_keeps_lacks(s: Seq<char>, set: TrimSet, c: char)
    requires
        lacks(s, c),
    ensures
        lacks(trim_start_spec(s, set), c),
        lacks(trim_end_spec(s, set), c),
    decreases s.len(),
{
    if s.len() > 0 {
        lemma_trim_keeps_lacks(s.drop_first(), set, c);
        lemma_trim_keeps_lacks(s.drop_last(), set, c);
    }
}

proof fn lemma_nonempty_trimmed_lacks(segs: Seq<Seq<char>>, n: int, c: char)
    requires
        0 <= n <= segs.len(),
        forall|i: int| 0 <= i < segs.len() ==> lacks(#[trigger] segs[i], c),
    ensures
        forall|i: int|
            0 <= i < nonempty_trimmed(segs, n).len() ==> lacks(
                #[trigger] nonempty_trimmed(segs, n)[i],
                c,
            ),
    decreases n,
{
    if n > 0 {
        lemma_nonempty_trimmed_lacks(segs, n - 1, c);
        let t = trim_spec(segs[n - 1], TrimSet::Whitespace);
        lemma_trim_keeps_lacks(segs[n - 1], TrimSet::Whitespace, c);
        lemma_trim_keeps_lacks(
            trim_start_spec(segs[n - 1], TrimSet::Whitespace),
            TrimSet::Whitespace,
            c,
        );
        assert(lacks(t, c));
        let r = nonempty_trimmed(segs, n - 1);
        if t.len() > 0 {
            assert(nonempty_trimmed(segs, n) == r.push(t));
        } else {
            assert(nonempty_trimmed(segs, n) == r);
        }
    }
}

/// A compacted message is one line: it holds no line break.
pub proof fn lemma_compact_text_one_line(s: Seq<char>)
    ensures
        lacks(compact_text_spec(s), '\n'),
{
    let segs = split_spec(s, '\n');
    lemma_split_parts(s, '\n', '\n');
    lemma_nonempty_trimmed_lacks(segs, segs.len() as int, '\n');
    reveal_strlit(" / ");
    assert(lacks(" / "@, '\n'));
    lemma_join_lacks(nonempty_trimmed(segs, segs.len() as int), " / "@, '\n');
}

/// The text of a note line: the message text on one line, or a placeholder.
pub open spec fn message_body_spec(compact: Seq<char>, has_media: bool) -> Seq<char> {
    if compact.len() == 0 && !has_media {
        "сообщение без текста или вложения"@
    } else if compact.len() == 0 {
        "вложение"@
    } else {
        compact
    }
}

/// The Markdown of an event: the message line with its time and link, then one line per
/// attachment.
pub open spec fn event_markdown_spec(
    time: Seq<char>,
    body: Seq<char>,
    link: Option<Seq<char>>,
    media_lines: Seq<Seq<char>>,
) -> Seq<char> {
    let line = "- "@ + time + " · "@ + body + match link {
        Some(l) => " [↗]("@ + l + ")"@,
        None => Seq::<char>::empty(),
    };
    join_spec(seq![line] + media_lines, "\n"@)
}

/// The Markdown of a note event.
pub fn event_markdown(
    time: &str,
    compact: &str,
    has_media: bool,
    link: &Option<String>,
    media_lines: &Vec<String>,
) -> (md: String)
    ensures
        md@ == event_markdown_spec(
            time@,
            message_body_spec(compact@, has_media),
            match link {
                Some(l) => Some(l@),
                None => None,
            },
            str_views(media_lines@),
        ),
{
    let mut lines: Vec<Vec<char>> = Vec::new();
    let body = if compact.is_empty() && !has_media {
        chars_of("сообщение без текста или вложения")
    } else if compact.is_empty() {
        chars_of("вложение")
    } else {
        chars_of(compact)
    };
    let mut line: Vec<char> = Vec::new();
    push_str(&mut line, "- ");
    push_str(&mut line, time);
    push_str(&mut line, " · ");
    push_all(&mut line, &body);
    match link {
        Some(l) => {
            push_str(&mut line, " [↗](");
            push_str(&mut line, l.as_str());
            push_str(&mut line, ")");
        },
        None => {},
    }
    assert(line@ =~= "- "@ + time@ + " · "@ + message_body_spec(compact@, has_media) + match link {
        Some(l) => " [↗]("@ + l@ + ")"@,
        None => Seq::<char>::empty(),
    });
    lines.push(line);
    let n = media_lines.len();
    let ghost head = lines@.map_values(|x: Vec<char>| x@);
    for i in 0..n
        invariant
            n == media_lines@.len(),
            lines@.map_values(|x: Vec<char>| x@) == head + str_views(media_lines@).take(i as int),
    {
        let ghost before = lines@.map_values(|x: Vec<char>| x@);
        let l = chars_of(media_lines[i].as_str());
        lines.push(l);
        assert(lines@.map_values(|x: Vec<char>| x@) =~= before.push(media_lines@[i as int]@));
        assert(str_views(media_lines@).take(i + 1) =~= str_views(media_lines@).take(i as int).push(
            media_lines@[i as int]@,
        ));
    }
    let nl = chars_of("\n");
    let joined = join_chars(&lines, &nl);
    proof {
        assert(str_views(media_lines@).take(n as int) =~= str_views(media_lines@));
        assert(lines@.map_values(|x: Vec<char>| x@) =~= seq![line@] + str_views(media_lines@));
    }
    string_from_chars(&joined)
}

/// `a` comes before `b` in the order of `String`: lexicographic by character, which for UTF-8
/// text is the byte order that `Ord` for `String` uses.
pub open spec fn lex_lt(a: Seq<char>, b: Seq<char>) -> bool
    decreases a.len(),
{
    if a.len() == 0 {
        b.len() > 0
    } else if b.len() == 0 {
        false
    } else if a[0] != b[0] {
        (a[0] as u32) < (b[0] as u32)
    } else {
        lex_lt(a.drop_first(), b.drop_first())
    }
}

/// Two different texts are ordered one way or the other.
pub proof fn lemma_lex_total(a: Seq<char>, b: Seq<char>)
    requires
        a != b,
    ensures
        lex_lt(a, b) || lex_lt(b, a),
    decreases a.len(),
{
    if a.len() > 0 && b.len() > 0 && a[0] == b[0] {
        if a.drop_first() == b.drop_first() {
            assert(a =~= seq![a[0]] + a.drop_first());
            assert(b =~= seq![b[0]] + b.drop_first());
        }
        lemma_lex_total(a.drop_first(), b.drop_first());
    } else if a.len() == 0 && b.len() == 0 {
        assert(a =~= b);
    } else if a.len() > 0 && b.len() > 0 {
        vstd::utf8::char_u32_cast(a[0], a[0] as u32);
        vstd::utf8::char_u32_cast(b[0], b[0] as u32);
    }
}

/// The order is transitive.
pub proof fn lemma_lex_transitive(a: Seq<char>, b: Seq<char>, c: Seq<char>)
    requires
        lex_lt(a, b),
        lex_lt(b, c),
    ensures
        lex_lt(a, c),
    decreases a.len(),
{
    if a.len() > 0 && b.len() > 0 && c.len() > 0 && a[0] == b[0] && b[0] == c[0] {
        lemma_lex_transitive(a.drop_first(), b.drop_first(), c.drop_first());
    }
}

/// No text comes before itself.
pub proof fn lemma_lex_irreflexive(a: Seq<char>)
    ensures
        !lex_lt(a, a),
    decreases a.len(),
{
    if a.len() > 0 {
        lemma_lex_irreflexive(a.drop_first());
    }
}

/// Whether `a` comes before `b`.
pub fn lex_less(a: &Vec<char>, b: &Vec<char>) -> (res: bool)
    ensures
        res == lex_lt(a@, b@),
{
    let n = a.len();
    let m = b.len();
    let mut i: usize = 0;
    assert(a@.skip(0) == a@ && b@.skip(0) == b@);
    while i < n && i < m && a[i] == b[i]
        invariant
            n == a@.len(),
            m == b@.len(),
            i <= n && i <= m,
            lex_lt(a@, b@) == lex_lt(a@.skip(i as int), b@.skip(i as int)),
        decreases n - i,
    {
        assert(a@.skip(i as int).drop_first() == a@.skip(i + 1));
        assert(b@.skip(i as int).drop_first() == b@.skip(i + 1));
        i = i + 1;
    }
    if i == n {
        i < m
    } else if i == m {
        false
    } else {
        (a[i] as u32) < (b[i] as u32)
    }
}

proof fn lemma_push_to_set(s: Seq<Seq<char>>, x: Seq<char>)
    ensures
        s.push(x).to_set() == s.to_set().insert(x),
{
    assert forall|t: Seq<char>| #[trigger] s.push(x).to_set().contains(t) == s.to_set().insert(x).contains(t) by {
        if s.push(x).contains(t) {
            let k = choose|k: int| 0 <= k < s.push(x).len() && s.push(x)[k] == t;
            if k < s.len() {
                assert(s[k] == t);
            }
        }
        if s.contains(t) {
            let k = choose|k: int| 0 <= k < s.len() && s[k] == t;
            assert(s.push(x)[k] == t);
        }
        if t == x {
            assert(s.push(x)[s.len() as int] == x);
        }
    }
    assert(s.push(x).to_set() =~= s.to_set().insert(x));
}

/// Strictly increasing in the order of `String`.
pub open spec fn strictly_sorted(s: Seq<Seq<char>>) -> bool {
    forall|i: int, j: int| 0 <= i < j < s.len() ==> lex_lt(#[trigger] s[i], #[trigger] s[j])
}

/// The texts of `paths`, sorted and without repeats (`sort` then `dedup`).
pub fn sorted_unique(paths: &Vec<String>) -> (out: Vec<String>)
    ensures
        strictly_sorted(str_views(out@)),
        str_views(out@).to_set() == str_views(paths@).to_set(),
{
    let mut out: Vec<String> = Vec::new();
    let mut keys: Vec<Vec<char>> = Vec::new();
    let n = paths.len();
    for i in 0..n
        invariant
            n == paths@.len(),
            keys@.len() == out@.len(),
            forall|j: int| 0 <= j < keys@.len() ==> #[trigger] keys@[j]@ == out@[j]@,
            strictly_sorted(str_views(out@)),
            str_views(out@).to_set() == str_views(paths@.take(i as int)).to_set(),
    {
        let x = chars_of(paths[i].as_str());
        let len = keys.len();
        let mut p: usize = 0;
        while p < len && lex_less(&keys[p], &x)
            invariant
                len == keys@.len(),
                p <= len,
                forall|j: int| 0 <= j < p ==> lex_lt(keys@[j]@, x@),
            decreases len - p,
        {
            p = p + 1;
        }
        let ghost old_views = str_views(out@);
        let ghost xv = x@;
        assert(str_views(paths@.take(i + 1)) =~= str_views(paths@.take(i as int)).push(xv));
        proof {
            lemma_push_to_set(str_views(paths@.take(i as int)), xv);
        }
        let duplicate = p < len && crate::text::chars_equal(&keys[p], &x);
        if duplicate {
            assert(old_views[p as int] == xv);
            assert(old_views.to_set().contains(xv));
            assert(str_views(out@).to_set() =~= str_views(paths@.take(i + 1)).to_set());
        } else {
            proof {
                assert forall|j: int| 0 <= j < p implies lex_lt(old_views[j], xv) by {
                    assert(keys@[j]@ == out@[j]@);
                }
                if p < len {
                    assert(keys@[p as int]@ == out@[p as int]@);
                    assert(!lex_lt(old_views[p as int], xv));
                    assert(old_views[p as int] != xv);
                    lemma_lex_total(old_views[p as int], xv);
                    assert(lex_lt(xv, old_views[p as int]));
                }
            }
            out.insert(p, paths[i].clone());
            keys.insert(p, x);
            proof {
                let nv = str_views(out@);
                assert(nv =~= old_views.insert(p as int, xv));
                assert forall|a: int, b: int| 0 <= a < b < nv.len() implies lex_lt(
                    #[trigger] nv[a],
                    #[trigger] nv[b],
                ) by {
                    if b < p {
                    } else if a < p && b == p {
                        assert(nv[a] == old_views[a]);
                    } else if a < p {
                        assert(nv[a] == old_views[a]);
                        assert(nv[b] == old_views[b - 1]);
                        assert(lex_lt(old_views[a], old_views[b - 1]));
                    } else if a == p {
                        assert(nv[b] == old_views[b - 1]);
                        if b - 1 > p {
                            lemma_lex_transitive(xv, old_views[p as int], old_views[b - 1]);
                        }
                    } else {
                        assert(nv[a] == old_views[a - 1]);
                        assert(nv[b] == old_views[b - 1]);
                    }
                }
                assert(nv.to_set() =~= old_views.to_set().insert(xv)) by {
                    assert forall|t: Seq<char>| nv.to_set().contains(t) implies old_views.to_set().insert(
                        xv,
                    ).contains(t) by {
                        let k = choose|k: int| 0 <= k < nv.len() && nv[k] == t;
                        if k < p {
                            assert(old_views[k] == t);
                        } else if k > p {
                            assert(old_views[k - 1] == t);
                        }
                    }
                    assert forall|t: Seq<char>| old_views.to_set().insert(xv).contains(t) implies nv.to_set().contains(
                        t,
                    ) by {
                        if t == xv {
                            assert(nv[p as int] == xv);
                        } else {
                            let k = choose|k: int| 0 <= k < old_views.len() && old_views[k] == t;
                            if k < p {
                                assert(nv[k] == t);
                            } else {
                                assert(nv[k + 1] == t);
                            }
                        }
                    }
                }
                assert(str_views(paths@.take(i + 1)).to_set() =~= str_views(paths@.take(i as int)).to_set().insert(xv));
                assert forall|j: int| 0 <= j < keys@.len() implies #[trigger] keys@[j]@ == out@[j]@ by {
                    if j < p {
                    } else if j > p {
                    }
                }
            }
        }
    }
    assert(paths@.take(n as int) =~= paths@);
    out
}

/// The name of a file without its extension (`Path::file_stem` of a file name).
pub open spec fn name_stem_spec(name: Seq<char>) -> Seq<char> {
    let d = last_dot_before(name, name.len() as int);
    if d <= 0 {
        name
    } else {
        name.take(d)
    }
}

/// The cursor that an event file's name gives: its stem as an integer.
pub open spec fn event_file_cursor_spec(name: Seq<char>) -> Option<int> {
    parse_i64_spec(name_stem_spec(name))
}

/// The cursor of an event file, from its name.
pub fn event_file_cursor(name: &str) -> (cursor: Option<i64>)
    ensures
        opt_i64(cursor) == event_file_cursor_spec(name@),
{
    let v = chars_of(name);
    let n = v.len();
    let mut i = n;
    while i > 0 && v[i - 1] != '.'
        invariant
            n == v@.len(),
            i <= n,
            last_dot_before(v@, n as int) == last_dot_before(v@, i as int),
        decreases i,
    {
        i = i - 1;
    }
    let stem = if i <= 1 {
        subrange_chars(&v, 0, n)
    } else {
        subrange_chars(&v, 0, i - 1)
    };
    assert(v@.subrange(0, n as int) =~= v@);
    let s = string_from_chars(&stem);
    parse_i64(s.as_str())
}

/// The cursor of a directory entry that a request for the events after `after` reads: a regular
/// file whose name gives a cursor greater than `after`.
pub open spec fn wanted_event_spec(name: Seq<char>, is_file: bool, after: i64) -> Option<int> {
    if !is_file {
        None
    } else {
        match event_file_cursor_spec(name) {
            Some(c) => if c > after {
                Some(c)
            } else {
                None
            },
            None => None,
        }
    }
}

/// Whether an entry of the events directory is read for a request, and its cursor if so.
pub fn wanted_event_file(name: &str, is_file: bool, after: i64) -> (cursor: Option<i64>)
    ensures
        opt_i64(cursor) == wanted_event_spec(name@, is_file, after),
{
    if !is_file {
        return None;
    }
    match event_file_cursor(name) {
        Some(c) => if c > after {
            Some(c)
        } else {
            None
        },
        None => None,
    }
}

/// The number of events a request asks for: 100 by default, limited to `1..=200`.
pub open spec fn event_limit_spec(limit: Option<usize>) -> int {
    let l = match limit {
        Some(v) => v as int,
        None => 100,
    };
    if l < 1 {
        1
    } else if l > MAX_EVENTS_PER_REQUEST {
        MAX_EVENTS_PER_REQUEST as int
    } else {
        l
    }
}

/// The cursors as sort keys.
pub open spec fn cursor_keys(cursors: Seq<i64>) -> Seq<i128> {
    cursors.map_values(|c: i64| c as i128)
}

/// The events a request receives, as indices into the events read: in stable order of cursor,
/// at most the limit.
pub open spec fn selected_events_spec(cursors: Seq<i64>, limit: Option<usize>) -> Seq<usize> {
    let order = stable_order(cursor_keys(cursors));
    let l = event_limit_spec(limit);
    if order.len() > l {
        order.take(l)
    } else {
        order
    }
}

/// The cursor a client continues from: the last event's cursor, or the one it sent.
pub open spec fn latest_cursor_spec(cursors: Seq<i64>, selected: Seq<usize>, after: i64) -> i64 {
    if selected.len() == 0 {
        after
    } else {
        cursors[selected.last() as int]
    }
}

/// Orders the events read for a request by cursor and keeps the first `limit`; gives the indices
/// of the kept events and the cursor to continue from.
pub fn select_events(cursors: &Vec<i64>, after: i64, limit: Option<usize>) -> (res: (
    Vec<usize>,
    i64,
))
    ensures
        res.0@ == selected_events_spec(cursors@, limit),
        forall|i: int| 0 <= i < res.0@.len() ==> res.0@[i] < cursors@.len(),
        res.1 == latest_cursor_spec(cursors@, res.0@, after),
{
    let n = cursors.len();
    let mut keys: Vec<i128> = Vec::new();
    for i in 0..n
        invariant
            n == cursors@.len(),
            keys@ == cursor_keys(cursors@.take(i as int)),
    {
        keys.push(cursors[i] as i128);
        assert(cursor_keys(cursors@.take(i + 1)) =~= cursor_keys(cursors@.take(i as int)).push(
            cursors@[i as int] as i128,
        ));
    }
    assert(cursors@.take(n as int) =~= cursors@);
    let mut order = stable_order_by_key(&keys);
    let raw: usize = match limit {
        Some(v) => v,
        None => 100,
    };
    let l: usize = if raw < 1 {
        1
    } else if raw > MAX_EVENTS_PER_REQUEST {
        MAX_EVENTS_PER_REQUEST
    } else {
        raw
    };
    if order.len() > l {
        order.truncate(l);
    }
    let latest = if order.len() == 0 {
        after
    } else {
        cursors[order[order.len() - 1]]
    };
    (order, latest)
}

/// A client receives at most the limit of events, no event twice, in ascending cursor order, and
/// as many as there are up to the limit.
pub proof fn lemma_selected_events_ordered(cursors: Seq<i64>, limit: Option<usize>)
    requires
        cursors.len() <= usize::MAX,
    ensures
        ({
            let sel = selected_events_spec(cursors, limit);
            &&& sel.len() == if cursors.len() > event_limit_spec(limit) {
                event_limit_spec(limit)
            } else {
                cursors.len() as int
            }
            &&& forall|i: int| 0 <= i < sel.len() ==> (#[trigger] sel[i]) < cursors.len()
            &&& sel.no_duplicates()
            &&& forall|i: int, j: int|
                0 <= i < j < sel.len() ==> cursors[#[trigger] sel[i] as int] <= cursors[#[trigger] sel[j] as int]
        }),
{
    let keys = cursor_keys(cursors);
    lemma_stable_order_sorted(keys);
    let order = stable_order(keys);
    let sel = selected_events_spec(cursors, limit);
    assert forall|i: int, j: int| 0 <= i < j < sel.len() implies cursors[#[trigger] sel[i] as int]
        <= cursors[#[trigger] sel[j] as int] by {
        assert(sel[i] == order[i] && sel[j] == order[j]);
        assert(keys[order[i] as int] <= keys[order[j] as int]);
    }
    assert forall|i: int| 0 <= i < sel.len() implies (#[trigger] sel[i]) < cursors.len() by {
        assert(sel[i] == order[i]);
    }
    assert forall|i: int, j: int| 0 <= i < j < sel.len() implies sel[i] != sel[j] by {
        assert(sel[i] == order[i] && sel[j] == order[j]);
    }
}

/// The cursors among `cs` that a request for the events after `after` reads, in listing order.
pub open spec fn newer_cursors(cs: Seq<i64>, after: i64) -> Seq<i64>
    decreases cs.len(),
{
    if cs.len() == 0 {
        Seq::<i64>::empty()
    } else {
        let r = newer_cursors(cs.drop_last(), after);
        if cs.last() > after {
            r.push(cs.last())
        } else {
            r
        }
    }
}

/// The cursors of the events one request returns, when the stored events have the cursors `cs`
/// (each event file named by its event's cursor).
pub open spec fn page_spec(cs: Seq<i64>, after: i64, limit: Option<usize>) -> Seq<i64> {
    let n = newer_cursors(cs, after);
    selected_events_spec(n, limit).map_values(|i: usize| n[i as int])
}

/// The cursor that the same request answers with, to continue from.
pub open spec fn page_latest(cs: Seq<i64>, after: i64, limit: Option<usize>) -> i64 {
    let n = newer_cursors(cs, after);
    latest_cursor_spec(n, selected_events_spec(n, limit), after)
}

/// All cursors after `after`, in ascending order.
pub open spec fn sorted_newer(cs: Seq<i64>, after: i64) -> Seq<i64> {
    let n = newer_cursors(cs, after);
    stable_order(cursor_keys(n)).map_values(|i: usize| n[i as int])
}

/// Every element is smaller than every later one.
pub open spec fn strictly_increasing(s: Seq<i64>) -> bool {
    forall|i: int, j: int| 0 <= i < j < s.len() ==> s[i] < s[j]
}

proof fn lemma_newer_cursors(cs: Seq<i64>, after: i64)
    ensures
        newer_cursors(cs, after).len() <= cs.len(),
        forall|x: i64| #[trigger] newer_cursors(cs, after).contains(x) <==> (cs.contains(x) && x > after),
        cs.no_duplicates() ==> newer_cursors(cs, after).no_duplicates(),
    decreases cs.len(),
{
    if cs.len() > 0 {
        let d = cs.drop_last();
        lemma_newer_cursors(d, after);
        let r = newer_cursors(d, after);
        assert forall|x: i64| #[trigger] newer_cursors(cs, after).contains(x) <==> (cs.contains(x)
            && x > after) by {
            if cs.contains(x) {
                let k = choose|k: int| 0 <= k < cs.len() && cs[k] == x;
                if k < d.len() {
                    assert(d[k] == x);
                }
            }
            if d.contains(x) {
                let k = choose|k: int| 0 <= k < d.len() && d[k] == x;
                assert(cs[k] == x);
            }
            if cs.last() > after {
                assert(newer_cursors(cs, after) == r.push(cs.last()));
                if r.contains(x) {
                    let k = choose|k: int| 0 <= k < r.len() && r[k] == x;
                    assert(r.push(cs.last())[k] == x);
                }
                if x == cs.last() {
                    assert(r.push(cs.last())[r.len() as int] == x);
                }
                if r.push(cs.last()).contains(x) {
                    let k = choose|k: int| 0 <= k < r.len() + 1 && r.push(cs.last())[k] == x;
                    if k < r.len() {
                        assert(r[k] == x);
                    }
                }
            }
        }
        if cs.no_duplicates() {
            assert(d.no_duplicates()) by {
                assert forall|i: int, j: int| 0 <= i < j < d.len() implies d[i] != d[j] by {
                    assert(d[i] == cs[i] && d[j] == cs[j]);
                }
            }
            if cs.last() > after {
                assert(!r.contains(cs.last())) by {
                    if d.contains(cs.last()) {
                        let k = choose|k: int| 0 <= k < d.len() && d[k] == cs.last();
                        assert(cs[k] == cs[cs.len() - 1]);
                    }
                }
                let q = r.push(cs.last());
                assert forall|i: int, j: int| 0 <= i < j < q.len() implies q[i] != q[j] by {
                    if j == r.len() {
                        assert(q[i] == r[i]);
                    } else {
                        assert(q[i] == r[i] && q[j] == r[j]);
                    }
                }
            }
        }
    }
}

proof fn lemma_sorted_full(n: Seq<i64>)
    requires
        n.len() <= usize::MAX,
        n.no_duplicates(),
    ensures
        ({
            let f = stable_order(cursor_keys(n)).map_values(|i: usize| n[i as int]);
            &&& f.len() == n.len()
            &&& strictly_increasing(f)
            &&& forall|x: i64| #[trigger] f.contains(x) <==> n.contains(x)
        }),
{
    let keys = cursor_keys(n);
    lemma_stable_order_sorted(keys);
    let order = stable_order(keys);
    let f = order.map_values(|i: usize| n[i as int]);
    assert forall|i: int, j: int| 0 <= i < j < f.len() implies f[i] < f[j] by {
        assert(keys[order[i] as int] <= keys[order[j] as int]);
        assert(order[i] != order[j]);
        assert(n[order[i] as int] != n[order[j] as int]);
    }
    assert forall|x: i64| #[trigger] f.contains(x) <==> n.contains(x) by {
        if f.contains(x) {
            let k = choose|k: int| 0 <= k < f.len() && f[k] == x;
            assert(n[order[k] as int] == x);
        }
        if n.contains(x) {
            let i = choose|i: int| 0 <= i < n.len() && n[i] == x;
            assert(order.contains(i as usize));
            let k = choose|k: int| 0 <= k < order.len() && order[k] == i as usize;
            assert(f[k] == x);
        }
    }
}

proof fn lemma_increasing_unique(s: Seq<i64>, t: Seq<i64>)
    requires
        strictly_increasing(s),
        strictly_increasing(t),
        forall|x: i64| s.contains(x) <==> t.contains(x),
    ensures
        s == t,
    decreases s.len() + t.len(),
{
    if s.len() == 0 {
        if t.len() > 0 {
            assert(t.contains(t[0]));
        }
        assert(s =~= t);
    } else {
        assert(s.contains(s[0]));
        assert(t.len() > 0);
        assert(t.contains(t[0]));
        let k = choose|k: int| 0 <= k < t.len() && t[k] == s[0];
        let m = choose|m: int| 0 <= m < s.len() && s[m] == t[0];
        if k > 0 {
            assert(t[0] < t[k]);
        }
        if m > 0 {
            assert(s[0] < s[m]);
        }
        assert(s[0] == t[0]);
        let s1 = s.drop_first();
        let t1 = t.drop_first();
        assert forall|x: i64| s1.contains(x) <==> t1.contains(x) by {
            if s1.contains(x) {
                let i = choose|i: int| 0 <= i < s1.len() && s1[i] == x;
                assert(s[i + 1] == x && s[0] < s[i + 1]);
                assert(t.contains(x));
                let j = choose|j: int| 0 <= j < t.len() && t[j] == x;
                assert(j != 0);
                assert(t1[j - 1] == x);
            }
            if t1.contains(x) {
                let i = choose|i: int| 0 <= i < t1.len() && t1[i] == x;
                assert(t[i + 1] == x && t[0] < t[i + 1]);
                assert(s.contains(x));
                let j = choose|j: int| 0 <= j < s.len() && s[j] == x;
                assert(j != 0);
                assert(s1[j - 1] == x);
            }
        }
        lemma_increasing_unique(s1, t1);
        assert(s =~= seq![s[0]] + s1);
        assert(t =~= seq![t[0]] + t1);
    }
}

proof fn lemma_page_is_prefix(cs: Seq<i64>, after: i64, limit: Option<usize>)
    requires
        cs.len() <= usize::MAX,
    ensures
        ({
            let f = sorted_newer(cs, after);
            let l = event_limit_spec(limit);
            let p = if f.len() > l {
                l
            } else {
                f.len() as int
            };
            &&& page_spec(cs, after, limit) == f.take(p)
            &&& page_latest(cs, after, limit) == if p == 0 {
                after
            } else {
                f[p - 1]
            }
        }),
{
    let n = newer_cursors(cs, after);
    lemma_newer_cursors(cs, after);
    let keys = cursor_keys(n);
    lemma_stable_order_sorted(keys);
    let order = stable_order(keys);
    let f = sorted_newer(cs, after);
    let l = event_limit_spec(limit);
    let sel = selected_events_spec(n, limit);
    let p = if f.len() > l {
        l
    } else {
        f.len() as int
    };
    assert(sel =~= order.take(p));
    assert(page_spec(cs, after, limit) =~= f.take(p));
}

/// Paging is lossless: a client that asks for the events after `after` and then for the events
/// after the cursor it was answered with receives, over the two requests, the first events after
/// `after` in ascending cursor order, each once, as many as two pages hold. The stored events'
/// cursors `cs` are distinct and each event file is named by its event's cursor.
pub proof fn lemma_paging_lossless(cs: Seq<i64>, after: i64, limit: Option<usize>)
    requires
        cs.len() <= usize::MAX,
        cs.no_duplicates(),
    ensures
        ({
            let all = sorted_newer(cs, after);
            let l = event_limit_spec(limit);
            page_spec(cs, after, limit) + page_spec(cs, page_latest(cs, after, limit), limit)
                == all.take(
                if all.len() > 2 * l {
                    2 * l
                } else {
                    all.len() as int
                },
            )
        }),
{
    let n = newer_cursors(cs, after);
    lemma_newer_cursors(cs, after);
    lemma_sorted_full(n);
    let f = sorted_newer(cs, after);
    let l = event_limit_spec(limit);
    assert(l >= 1);
    lemma_page_is_prefix(cs, after, limit);
    let p = if f.len() > l {
        l
    } else {
        f.len() as int
    };
    let b = page_latest(cs, after, limit);
    lemma_page_is_prefix(cs, b, limit);
    let f2 = sorted_newer(cs, b);
    let n2 = newer_cursors(cs, b);
    lemma_newer_cursors(cs, b);
    lemma_sorted_full(n2);
    if p == 0 {
        assert(f.len() == 0);
        assert(b == after);
        assert(f.take(0) + f.take(0) =~= f.take(0));
    } else {
        assert(b == f[p - 1]);
        assert(f.contains(b));
        let rest = f.skip(p);
        assert(strictly_increasing(rest));
        assert forall|x: i64| f2.contains(x) <==> rest.contains(x) by {
            if f2.contains(x) {
                assert(n2.contains(x));
                assert(cs.contains(x) && x > b);
                assert(n.contains(b));
                assert(n.contains(x));
                assert(f.contains(x));
                let k = choose|k: int| 0 <= k < f.len() && f[k] == x;
                if k < p {
                    if k < p - 1 {
                        assert(f[k] < f[p - 1]);
                    }
                }
                assert(rest[k - p] == x);
            }
            if rest.contains(x) {
                let k = choose|k: int| 0 <= k < rest.len() && rest[k] == x;
                assert(f[k + p] == x);
                assert(f[p - 1] < f[k + p]);
                assert(f.contains(x));
                assert(n.contains(x));
                assert(cs.contains(x));
                assert(n2.contains(x));
            }
        }
        lemma_increasing_unique(f2, rest);
        let q = if f2.len() > l {
            l
        } else {
            f2.len() as int
        };
        assert(f.take(p) + rest.take(q) =~= f.take(p + q));
    }
}

} // verus!
