//! Unix path text: components as `Path::components` yields them, file names, extensions,
//! and the checks on paths and file names that the server applies.
use vstd::prelude::*;

use crate::text::{
    ascii_lower, ascii_lower_spec, chars_equal, chars_of, contains, contains_spec, is_control,
    in_trim_set, is_control_spec, occurs_at, trim_end_spec, trim_start_spec, push_all, string_from_chars, subrange_chars, trim_chars, trim_spec, TrimSet,
};

verus! {

/// `s` cut at every `sep`, as `str::split` with a character pattern cuts it.
pub open spec fn split_spec(s: Seq<char>, sep: char) -> Seq<Seq<char>>
    decreases s.len(),
{
    if s.len() == 0 {
        seq![Seq::<char>::empty()]
    } else {
        let p = split_spec(s.drop_last(), sep);
        if s.last() == sep {
            p.push(Seq::<char>::empty())
        } else {
            p.update(p.len() - 1, p.last().push(s.last()))
        }
    }
}

pub proof fn lemma_split_nonempty(s: Seq<char>, sep: char)
    ensures
        split_spec(s, sep).len() >= 1,
    decreases s.len(),
{
    if s.len() > 0 {
        lemma_split_nonempty(s.drop_last(), sep);
    }
}

/// `parts` joined with `sep` between neighbours.
pub open spec fn join_spec(parts: Seq<Seq<char>>, sep: Seq<char>) -> Seq<char>
    decreases parts.len(),
{
    if parts.len() == 0 {
        Seq::<char>::empty()
    } else if parts.len() == 1 {
        parts[0]
    } else {
        join_spec(parts.drop_last(), sep) + sep + parts.last()
    }
}

/// Splits `v` at every `sep`.
pub fn split_chars(v: &Vec<char>, sep: char) -> (out: Vec<Vec<char>>)
    ensures
        out@.map_values(|x: Vec<char>| x@) == split_spec(v@, sep),
        out@.len() >= 1,
{
    let n = v.len();
    let mut done: Vec<Vec<char>> = Vec::new();
    let mut cur: Vec<char> = Vec::new();
    for i in 0..n
        invariant
            n == v@.len(),
            done@.map_values(|x: Vec<char>| x@).push(cur@) == split_spec(v@.take(i as int), sep),
    {
        let c = v[i];
        proof {
            assert(v@.take(i + 1).drop_last() == v@.take(i as int));
            lemma_split_nonempty(v@.take(i as int), sep);
        }
        let ghost before = done@.map_values(|x: Vec<char>| x@);
        if c == sep {
            let piece = cur;
            done.push(piece);
            cur = Vec::new();
            assert(done@.map_values(|x: Vec<char>| x@) =~= before.push(piece@));
        } else {
            cur.push(c);
            assert(done@.map_values(|x: Vec<char>| x@).push(cur@) =~= before.push(cur@.drop_last()).update(
                before.len() as int,
                cur@,
            ));
        }
    }
    let ghost before = done@.map_values(|x: Vec<char>| x@);
    done.push(cur);
    proof {
        assert(done@.map_values(|x: Vec<char>| x@) =~= before.push(cur@));
        assert(v@.take(n as int) == v@);
    }
    done
}

/// Joins `parts` with `sep`.
pub fn join_chars(parts: &Vec<Vec<char>>, sep: &Vec<char>) -> (out: Vec<char>)
    ensures
        out@ == join_spec(parts@.map_values(|x: Vec<char>| x@), sep@),
{
    let n = parts.len();
    let mut out: Vec<char> = Vec::new();
    for i in 0..n
        invariant
            n == parts@.len(),
            out@ == join_spec(parts@.map_values(|x: Vec<char>| x@).take(i as int), sep@),
    {
        let ghost ps = parts@.map_values(|x: Vec<char>| x@).take(i + 1);
        proof {
            assert(ps.drop_last() == parts@.map_values(|x: Vec<char>| x@).take(i as int));
            assert(ps.last() == parts[i as int]@);
        }
        if i > 0 {
            push_all(&mut out, sep);
        }
        push_all(&mut out, &parts[i]);
        proof {
            if i == 0 {
                assert(ps.len() == 1);
                assert(out@ == ps[0]);
            }
        }
    }
    assert(parts@.map_values(|x: Vec<char>| x@).take(n as int) == parts@.map_values(|x: Vec<char>| x@));
    out
}

/// The segment is `.`.
pub open spec fn is_dot(seg: Seq<char>) -> bool {
    seg == seq!['.']
}

/// The segment is `..`.
pub open spec fn is_dot_dot(seg: Seq<char>) -> bool {
    seg == seq!['.', '.']
}

/// Segment `i` of a path gives a component: `Path::components` skips empty segments (repeated,
/// leading and trailing separators) and `.` anywhere but at the very start.
pub open spec fn yields_component(segs: Seq<Seq<char>>, i: int) -> bool {
    segs[i].len() > 0 && !(is_dot(segs[i]) && i > 0)
}

/// The segments among the first `n` that give components, in order.
pub open spec fn component_segments(segs: Seq<Seq<char>>, n: int) -> Seq<Seq<char>>
    decreases n,
{
    if n <= 0 {
        Seq::<Seq<char>>::empty()
    } else if yields_component(segs, n - 1) {
        component_segments(segs, n - 1).push(segs[n - 1])
    } else {
        component_segments(segs, n - 1)
    }
}

/// The texts of the components of a path other than the root: `.` stands for `CurDir`, `..` for
/// `ParentDir`, anything else for a `Normal` component.
pub open spec fn path_components_spec(s: Seq<char>) -> Seq<Seq<char>> {
    let segs = split_spec(s, '/');
    component_segments(segs, segs.len() as int)
}

/// The last component is a file name (`Path::file_name`): neither `.` nor `..`, and present.
pub open spec fn file_name_spec(s: Seq<char>) -> Option<Seq<char>> {
    let cs = path_components_spec(s);
    if cs.len() == 0 || is_dot(cs.last()) || is_dot_dot(cs.last()) {
        None
    } else {
        Some(cs.last())
    }
}

/// The index of the last `.` in `name` at or before `n - 1`, or `-1`.
pub open spec fn last_dot_before(name: Seq<char>, n: int) -> int
    decreases n,
{
    if n <= 0 {
        -1
    } else if name[n - 1] == '.' {
        n - 1
    } else {
        last_dot_before(name, n - 1)
    }
}

/// The extension of a file name (`Path::extension`): the text after the last `.`, unless there is
/// no `.` or the only one begins the name.
pub open spec fn name_extension_spec(name: Seq<char>) -> Option<Seq<char>> {
    let d = last_dot_before(name, name.len() as int);
    if d <= 0 {
        None
    } else {
        Some(name.skip(d + 1))
    }
}

/// The extension of the file name of a path.
pub open spec fn extension_spec(s: Seq<char>) -> Option<Seq<char>> {
    match file_name_spec(s) {
        Some(name) => name_extension_spec(name),
        None => None,
    }
}

/// The segments of `segs` that give components.
fn component_parts(segs: &Vec<Vec<char>>) -> (out: Vec<Vec<char>>)
    ensures
        out@.map_values(|x: Vec<char>| x@) == component_segments(segs@.map_values(|x: Vec<char>| x@), segs@.len() as int),
{
    let n = segs.len();
    let mut out: Vec<Vec<char>> = Vec::new();
    let mut dot: Vec<char> = Vec::new();
    dot.push('.');
    for i in 0..n
        invariant
            n == segs@.len(),
            dot@ == seq!['.'],
            out@.map_values(|x: Vec<char>| x@) == component_segments(segs@.map_values(|x: Vec<char>| x@), i as int),
    {
        let seg = &segs[i];
        let ghost sv = segs@.map_values(|x: Vec<char>| x@);
        assert(sv[i as int] == seg@);
        if seg.len() > 0 && !(i > 0 && chars_equal(seg, &dot)) {
            let ghost before = out@.map_values(|x: Vec<char>| x@);
            let copy = subrange_chars(seg, 0, seg.len());
            assert(copy@ == seg@);
            out.push(copy);
            assert(out@.map_values(|x: Vec<char>| x@) =~= before.push(seg@));
        }
    }
    out
}

/// The component texts of a path.
pub fn path_components(path: &str) -> (out: Vec<Vec<char>>)
    ensures
        out@.map_values(|x: Vec<char>| x@) == path_components_spec(path@),
{
    let v = chars_of(path);
    let segs = split_chars(&v, '/');
    component_parts(&segs)
}

pub(crate) fn is_dot_exec(v: &Vec<char>) -> (b: bool)
    ensures
        b == is_dot(v@),
{
    let mut dot: Vec<char> = Vec::new();
    dot.push('.');
    chars_equal(v, &dot)
}

fn is_dot_dot_exec(v: &Vec<char>) -> (b: bool)
    ensures
        b == is_dot_dot(v@),
{
    let mut dots: Vec<char> = Vec::new();
    dots.push('.');
    dots.push('.');
    assert(dots@ =~= seq!['.', '.']);
    chars_equal(v, &dots)
}

/// The file name of a path.
pub fn file_name(path: &str) -> (out: Option<Vec<char>>)
    ensures
        match out {
            Some(name) => file_name_spec(path@) == Some(name@),
            None => file_name_spec(path@) is None,
        },
{
    let cs = path_components(path);
    let n = cs.len();
    if n == 0 {
        return None;
    }
    let last = &cs[n - 1];
    assert(cs@.map_values(|x: Vec<char>| x@).last() == last@);
    if is_dot_exec(last) || is_dot_dot_exec(last) {
        return None;
    }
    Some(subrange_chars(last, 0, last.len()))
}

/// The extension of a file name.
pub fn name_extension(name: &Vec<char>) -> (out: Option<Vec<char>>)
    ensures
        match out {
            Some(e) => name_extension_spec(name@) == Some(e@),
            None => name_extension_spec(name@) is None,
        },
{
    let n = name.len();
    let mut i = n;
    while i > 0 && name[i - 1] != '.'
        invariant
            n == name@.len(),
            i <= n,
            last_dot_before(name@, n as int) == last_dot_before(name@, i as int),
        decreases i,
    {
        i = i - 1;
    }
    if i <= 1 {
        None
    } else {
        Some(subrange_chars(name, i, n))
    }
}

/// The extension of the file name of a path (`Path::extension`).
pub fn extension(path: &str) -> (out: Option<Vec<char>>)
    ensures
        match out {
            Some(e) => extension_spec(path@) == Some(e@),
            None => extension_spec(path@) is None,
        },
{
    match file_name(path) {
        Some(name) => name_extension(&name),
        None => None,
    }
}

/// The media type for the lower-case extension of a path.
pub open spec fn mime_for_extension(e: Seq<char>) -> Seq<char> {
    if e == "json"@ {
        "application/json"@
    } else if e == "tgs"@ {
        "application/gzip"@
    } else if e == "webm"@ {
        "video/webm"@
    } else if e == "webp"@ {
        "image/webp"@
    } else if e == "png"@ {
        "image/png"@
    } else if e == "jpg"@ || e == "jpeg"@ {
        "image/jpeg"@
    } else if e == "gif"@ {
        "image/gif"@
    } else if e == "heic"@ || e == "heif"@ {
        "image/heic"@
    } else if e == "pdf"@ {
        "application/pdf"@
    } else {
        "application/octet-stream"@
    }
}

/// The lower-case extension of a path, or the empty text when it has none.
pub open spec fn lower_extension_spec(s: Seq<char>) -> Seq<char> {
    match extension_spec(s) {
        Some(e) => ascii_lower_spec(e),
        None => Seq::<char>::empty(),
    }
}

/// The lower-case extension of a path, or the empty text.
pub fn lower_extension(path: &str) -> (out: Vec<char>)
    ensures
        out@ == lower_extension_spec(path@),
{
    match extension(path) {
        Some(e) => ascii_lower(&e),
        None => Vec::new(),
    }
}

fn is_literal(v: &Vec<char>, lit: &str) -> (b: bool)
    ensures
        b == (v@ == lit@),
{
    let l = chars_of(lit);
    chars_equal(v, &l)
}

/// The media type that the asset endpoint sends for a file, from its extension.
pub fn mime_for_path(path: &str) -> (mime: &'static str)
    ensures
        mime@ == mime_for_extension(lower_extension_spec(path@)),
{
    let e = lower_extension(path);
    if is_literal(&e, "json") {
        "application/json"
    } else if is_literal(&e, "tgs") {
        "application/gzip"
    } else if is_literal(&e, "webm") {
        "video/webm"
    } else if is_literal(&e, "webp") {
        "image/webp"
    } else if is_literal(&e, "png") {
        "image/png"
    } else if is_literal(&e, "jpg") || is_literal(&e, "jpeg") {
        "image/jpeg"
    } else if is_literal(&e, "gif") {
        "image/gif"
    } else if is_literal(&e, "heic") || is_literal(&e, "heif") {
        "image/heic"
    } else if is_literal(&e, "pdf") {
        "application/pdf"
    } else {
        "application/octet-stream"
    }
}

/// The relative path that an asset request may read: no root, no NUL or backslash, no `.` at
/// the start and no `..` anywhere, and at least one name; it is given with single `/` between
/// names.
pub open spec fn safe_relative_path_spec(v: Seq<char>) -> Option<Seq<char>> {
    let cs = path_components_spec(v);
    if (v.len() > 0 && v[0] == '/') || contains_spec(v, seq!['\0']) || contains_spec(v, seq!['\\'])
        || (exists|i: int| 0 <= i < cs.len() && (is_dot(cs[i]) || is_dot_dot(cs[i])))
        || cs.len() == 0 {
        None
    } else {
        Some(join_spec(cs, seq!['/']))
    }
}

/// Checks a vault-relative path from a client and gives it in normal form, or `None` when it
/// could leave the vault or names nothing.
pub fn safe_relative_path(value: &str) -> (out: Option<String>)
    ensures
        match out {
            Some(p) => safe_relative_path_spec(value@) == Some(p@),
            None => safe_relative_path_spec(value@) is None,
        },
{
    let v = chars_of(value);
    let mut nul: Vec<char> = Vec::new();
    nul.push('\0');
    let mut backslash: Vec<char> = Vec::new();
    backslash.push('\\');
    if (v.len() > 0 && v[0] == '/') || contains(&v, &nul) || contains(&v, &backslash) {
        return None;
    }
    let cs = path_components(value);
    let n = cs.len();
    for i in 0..n
        invariant
            n == cs@.len(),
            cs@.map_values(|x: Vec<char>| x@) == path_components_spec(value@),
            forall|j: int| 0 <= j < i ==> !(is_dot(#[trigger] cs@[j]@) || is_dot_dot(cs@[j]@)),
    {
        assert(cs@.map_values(|x: Vec<char>| x@)[i as int] == cs[i as int]@);
        if is_dot_exec(&cs[i]) || is_dot_dot_exec(&cs[i]) {
            proof {
                let pcs = path_components_spec(value@);
                assert(pcs[i as int] == cs@[i as int]@);
                assert(0 <= i < pcs.len() && (is_dot(pcs[i as int]) || is_dot_dot(pcs[i as int])));
                assert(exists|k: int| 0 <= k < pcs.len() && (is_dot(pcs[k]) || is_dot_dot(pcs[k])));
                assert(safe_relative_path_spec(value@) is None);
            }
            return None;
        }
    }
    assert(path_components_spec(value@).len() == n);
    if n == 0 {
        return None;
    }
    let mut slash: Vec<char> = Vec::new();
    slash.push('/');
    let joined = join_chars(&cs, &slash);
    Some(string_from_chars(&joined))
}

/// A character that a stored file name may not hold.
pub open spec fn unsafe_name_char(c: char) -> bool {
    is_control_spec(c) || c == '<' || c == '>' || c == ':' || c == '"' || c == '/' || c == '\\'
        || c == '|' || c == '?' || c == '*'
}

/// Each unsafe character replaced by `_`.
pub open spec fn clean_name_spec(s: Seq<char>) -> Seq<char> {
    s.map_values(|c: char| if unsafe_name_char(c) { '_' } else { c })
}

/// A file name safe to store: unsafe characters replaced by `_`, leading and trailing spaces
/// and dots removed, at most 120 characters, and `файл` when nothing is left.
pub open spec fn safe_filename_spec(name: Seq<char>) -> Seq<char> {
    let trimmed = trim_spec(clean_name_spec(name), TrimSet::SpaceOrDot);
    let cut = if trimmed.len() > 120 {
        trimmed.take(120)
    } else {
        trimmed
    };
    if cut.len() == 0 {
        "файл"@
    } else {
        cut
    }
}

/// Makes a Telegram file name safe to store in the vault.
pub fn safe_filename(name: &str) -> (out: String)
    ensures
        out@ == safe_filename_spec(name@),
{
    let v = chars_of(name);
    let n = v.len();
    let mut cleaned: Vec<char> = Vec::new();
    for i in 0..n
        invariant
            n == v@.len(),
            cleaned@ == clean_name_spec(v@.take(i as int)),
    {
        let c = v[i];
        let bad = is_control(c) || c == '<' || c == '>' || c == ':' || c == '"' || c == '/' || c
            == '\\' || c == '|' || c == '?' || c == '*';
        cleaned.push(if bad { '_' } else { c });
        assert(clean_name_spec(v@.take(i + 1)) =~= clean_name_spec(v@.take(i as int)).push(
            if unsafe_name_char(c) {
                '_'
            } else {
                c
            },
        ));
    }
    assert(v@.take(n as int) == v@);
    let trimmed = trim_chars(&cleaned, TrimSet::SpaceOrDot);
    let cut = if trimmed.len() > 120 {
        subrange_chars(&trimmed, 0, 120)
    } else {
        trimmed
    };
    if cut.len() == 0 {
        let fallback = chars_of("файл");
        string_from_chars(&fallback)
    } else {
        string_from_chars(&cut)
    }
}


/// No character of `s` is `c`.
pub open spec fn lacks(s: Seq<char>, c: char) -> bool {
    forall|k: int| 0 <= k < s.len() ==> s[k] != c
}

proof fn lemma_contains_char(s: Seq<char>, c: char)
    ensures
        contains_spec(s, seq![c]) <==> !lacks(s, c),
{
    if contains_spec(s, seq![c]) {
        let i = choose|i: int| occurs_at(s, seq![c], i);
        assert(s.subrange(i, i + 1)[0] == s[i]);
    }
    if !lacks(s, c) {
        let k = choose|k: int| 0 <= k < s.len() && s[k] == c;
        assert(s.subrange(k, k + 1) =~= seq![c]);
        assert(occurs_at(s, seq![c], k));
    }
}

/// No piece of a split holds the separator, nor a character that the text lacks.
pub proof fn lemma_split_parts(s: Seq<char>, sep: char, c: char)
    ensures
        forall|i: int| 0 <= i < split_spec(s, sep).len() ==> lacks(#[trigger] split_spec(s, sep)[i], sep),
        lacks(s, c) ==> forall|i: int|
            0 <= i < split_spec(s, sep).len() ==> lacks(#[trigger] split_spec(s, sep)[i], c),
    decreases s.len(),
{
    lemma_split_nonempty(s, sep);
    if s.len() > 0 {
        let t = s.drop_last();
        lemma_split_parts(t, sep, c);
        lemma_split_nonempty(t, sep);
        let p = split_spec(t, sep);
        if lacks(s, c) {
            assert(lacks(t, c));
        }
        if s.last() != sep {
            let q = p.last().push(s.last());
            assert(lacks(q, sep));
            if lacks(s, c) {
                assert(lacks(q, c));
            }
            assert(split_spec(s, sep) == p.update(p.len() - 1, q));
        } else {
            assert(split_spec(s, sep) == p.push(Seq::<char>::empty()));
        }
    }
}

proof fn lemma_components_from(segs: Seq<Seq<char>>, n: int, c: char)
    requires
        0 <= n <= segs.len(),
        forall|i: int| 0 <= i < segs.len() ==> lacks(#[trigger] segs[i], c),
    ensures
        forall|i: int|
            0 <= i < component_segments(segs, n).len() ==> lacks(
                #[trigger] component_segments(segs, n)[i],
                c,
            ) && component_segments(segs, n)[i].len() > 0,
    decreases n,
{
    if n > 0 {
        lemma_components_from(segs, n - 1, c);
        let prev = component_segments(segs, n - 1);
        if yields_component(segs, n - 1) {
            assert(component_segments(segs, n) == prev.push(segs[n - 1]));
            assert(lacks(segs[n - 1], c));
        } else {
            assert(component_segments(segs, n) == prev);
        }
    }
}

proof fn lemma_components_all(segs: Seq<Seq<char>>, n: int)
    requires
        0 <= n <= segs.len(),
        forall|i: int| 0 <= i < segs.len() ==> (#[trigger] segs[i]).len() > 0 && !is_dot(segs[i]),
    ensures
        component_segments(segs, n) == segs.take(n),
    decreases n,
{
    if n > 0 {
        lemma_components_all(segs, n - 1);
        assert(segs.take(n - 1).push(segs[n - 1]) =~= segs.take(n));
    } else {
        assert(segs.take(0) =~= Seq::<Seq<char>>::empty());
    }
}

/// Joining texts that lack `c` with a separator that lacks `c` gives a text that lacks `c`.
pub proof fn lemma_join_lacks(parts: Seq<Seq<char>>, sep: Seq<char>, c: char)
    requires
        lacks(sep, c),
        forall|i: int| 0 <= i < parts.len() ==> lacks(#[trigger] parts[i], c),
    ensures
        lacks(join_spec(parts, sep), c),
    decreases parts.len(),
{
    if parts.len() > 1 {
        let front = parts.drop_last();
        lemma_join_lacks(front, sep, c);
        let j = join_spec(front, sep);
        let last = parts.last();
        assert(lacks(last, c));
        let whole = j + sep + last;
        assert forall|k: int| 0 <= k < whole.len() implies whole[k] != c by {
            if k < j.len() {
                assert(whole[k] == j[k]);
            } else if k < j.len() + sep.len() {
                assert(whole[k] == sep[k - j.len()]);
            } else {
                assert(whole[k] == last[k - j.len() - sep.len()]);
            }
        }
    }
}

proof fn lemma_join_first(parts: Seq<Seq<char>>, sep: Seq<char>)
    requires
        parts.len() >= 1,
        parts[0].len() > 0,
    ensures
        join_spec(parts, sep).len() > 0,
        join_spec(parts, sep)[0] == parts[0][0],
    decreases parts.len(),
{
    if parts.len() > 1 {
        let front = parts.drop_last();
        lemma_join_first(front, sep);
        let j = join_spec(front, sep);
        assert((j + sep + parts.last())[0] == j[0]);
    }
}

proof fn lemma_split_append(x: Seq<char>, b: Seq<char>, sep: char)
    requires
        lacks(b, sep),
    ensures
        split_spec(x + seq![sep] + b, sep) == split_spec(x, sep).push(b),
    decreases b.len(),
{
    let s = x + seq![sep] + b;
    if b.len() == 0 {
        assert(s.drop_last() =~= x);
        assert(s.last() == sep);
        assert(b =~= Seq::<char>::empty());
        assert(split_spec(s, sep) == split_spec(x, sep).push(Seq::<char>::empty()));
    } else {
        let b2 = b.drop_last();
        lemma_split_append(x, b2, sep);
        assert(b[b.len() - 1] != sep);
        assert(s.drop_last() =~= x + seq![sep] + b2);
        assert(s.last() == b.last());
        let p = split_spec(x, sep).push(b2);
        assert(b2.push(b.last()) =~= b);
        assert(p.update(p.len() - 1, p.last().push(s.last())) =~= split_spec(x, sep).push(b));
    }
}

proof fn lemma_split_single(b: Seq<char>, sep: char)
    requires
        lacks(b, sep),
    ensures
        split_spec(b, sep) == seq![b],
    decreases b.len(),
{
    if b.len() == 0 {
        assert(b =~= Seq::<char>::empty());
    } else {
        let b2 = b.drop_last();
        lemma_split_single(b2, sep);
        assert(b2.push(b.last()) =~= b);
        assert(seq![b2].update(0, b2.push(b.last())) =~= seq![b]);
    }
}

proof fn lemma_split_join(parts: Seq<Seq<char>>, sep: char)
    requires
        parts.len() >= 1,
        forall|i: int| 0 <= i < parts.len() ==> lacks(#[trigger] parts[i], sep),
    ensures
        split_spec(join_spec(parts, seq![sep]), sep) == parts,
    decreases parts.len(),
{
    if parts.len() == 1 {
        lemma_split_single(parts[0], sep);
        assert(seq![parts[0]] =~= parts);
    } else {
        let front = parts.drop_last();
        lemma_split_join(front, sep);
        lemma_split_append(join_spec(front, seq![sep]), parts.last(), sep);
        assert(front.push(parts.last()) =~= parts);
    }
}

/// A path that the asset check accepts is in normal form: read as a path it has the same
/// components as the request, none of them `.` or `..`; it has no root, no NUL and no
/// backslash; and checking it again gives it back unchanged.
pub proof fn lemma_safe_relative_path_normal(v: Seq<char>)
    requires
        safe_relative_path_spec(v) is Some,
    ensures
        ({
            let r = safe_relative_path_spec(v)->0;
            &&& path_components_spec(r) == path_components_spec(v)
            &&& forall|i: int|
                0 <= i < path_components_spec(r).len() ==> !is_dot(
                    #[trigger] path_components_spec(r)[i],
                ) && !is_dot_dot(path_components_spec(r)[i])
            &&& r.len() > 0 && r[0] != '/'
            &&& !contains_spec(r, seq!['\0']) && !contains_spec(r, seq!['\\'])
            &&& safe_relative_path_spec(r) == Some(r)
        }),
{
    let segs = split_spec(v, '/');
    let cs = path_components_spec(v);
    let r = join_spec(cs, seq!['/']);
    lemma_contains_char(v, '\0');
    lemma_contains_char(v, '\\');
    lemma_split_parts(v, '/', '\0');
    lemma_split_parts(v, '/', '\\');
    lemma_components_from(segs, segs.len() as int, '/');
    lemma_components_from(segs, segs.len() as int, '\0');
    lemma_components_from(segs, segs.len() as int, '\\');
    assert forall|i: int| 0 <= i < cs.len() implies (#[trigger] cs[i]).len() > 0 && !is_dot(cs[i])
        && !is_dot_dot(cs[i]) by {
        if is_dot(cs[i]) || is_dot_dot(cs[i]) {
            assert(exists|k: int| 0 <= k < cs.len() && (is_dot(cs[k]) || is_dot_dot(cs[k])));
        }
    }
    lemma_split_join(cs, '/');
    lemma_components_all(cs, cs.len() as int);
    assert(cs.take(cs.len() as int) =~= cs);
    assert(path_components_spec(r) == cs);
    lemma_join_lacks(cs, seq!['/'], '\0');
    lemma_join_lacks(cs, seq!['/'], '\\');
    lemma_contains_char(r, '\0');
    lemma_contains_char(r, '\\');
    lemma_join_first(cs, seq!['/']);
    assert(lacks(cs[0], '/'));
    assert(r[0] != '/');
    assert(!(exists|k: int|
        0 <= k < path_components_spec(r).len() && (is_dot(path_components_spec(r)[k]) || is_dot_dot(
            path_components_spec(r)[k],
        ))));
}

/// Every character of `s` may stand in a stored file name.
pub open spec fn all_safe_chars(s: Seq<char>) -> bool {
    forall|k: int| 0 <= k < s.len() ==> !unsafe_name_char(#[trigger] s[k])
}

proof fn lemma_trim_keeps_safe(s: Seq<char>, set: TrimSet)
    requires
        all_safe_chars(s),
    ensures
        all_safe_chars(trim_start_spec(s, set)),
        all_safe_chars(trim_end_spec(s, set)),
    decreases s.len(),
{
    if s.len() > 0 {
        lemma_trim_keeps_safe(s.drop_first(), set);
        lemma_trim_keeps_safe(s.drop_last(), set);
    }
}

/// A stored file name is never empty, has at most 120 characters, and holds no character that
/// a file name may not hold.
pub proof fn lemma_safe_filename_is_safe(name: Seq<char>)
    ensures
        0 < safe_filename_spec(name).len() <= 120,
        all_safe_chars(safe_filename_spec(name)),
{
    let clean = clean_name_spec(name);
    assert(all_safe_chars(clean));
    lemma_trim_keeps_safe(clean, TrimSet::SpaceOrDot);
    lemma_trim_keeps_safe(trim_start_spec(clean, TrimSet::SpaceOrDot), TrimSet::SpaceOrDot);
    reveal_strlit("файл");
    let fallback = "файл"@;
    assert(fallback.len() == 4);
    assert(all_safe_chars(fallback));
}

proof fn lemma_trim_start_shape(s: Seq<char>, set: TrimSet)
    ensures
        trim_start_spec(s, set).len() <= s.len(),
        trim_start_spec(s, set).len() == 0 || !in_trim_set(set, trim_start_spec(s, set)[0]),
    decreases s.len(),
{
    if s.len() > 0 && in_trim_set(set, s[0]) {
        lemma_trim_start_shape(s.drop_first(), set);
    }
}

proof fn lemma_trim_end_shape(s: Seq<char>, set: TrimSet)
    ensures
        trim_end_spec(s, set) == s.take(trim_end_spec(s, set).len() as int),
        trim_end_spec(s, set).len() <= s.len(),
        trim_end_spec(s, set).len() == 0 || !in_trim_set(set, trim_end_spec(s, set).last()),
    decreases s.len(),
{
    if s.len() > 0 && in_trim_set(set, s.last()) {
        let d = s.drop_last();
        lemma_trim_end_shape(d, set);
        let t = trim_end_spec(d, set);
        assert(d.take(t.len() as int) =~= s.take(t.len() as int));
    } else {
        assert(s.take(s.len() as int) =~= s);
    }
}

/// Trimming a trimmed text changes nothing.
proof fn lemma_trim_twice(s: Seq<char>, set: TrimSet)
    ensures
        trim_spec(trim_spec(s, set), set) == trim_spec(s, set),
        trim_spec(s, set).len() <= s.len(),
{
    let a = trim_start_spec(s, set);
    lemma_trim_start_shape(s, set);
    let b = trim_end_spec(a, set);
    lemma_trim_end_shape(a, set);
    if b.len() > 0 {
        assert(b[0] == a[0]);
        assert(trim_start_spec(b, set) == b);
        assert(trim_end_spec(b, set) == b);
    } else {
        assert(trim_start_spec(b, set) == b);
        assert(trim_end_spec(b, set) == b);
    }
}

proof fn lemma_clean_safe_is_same(s: Seq<char>)
    requires
        all_safe_chars(s),
    ensures
        clean_name_spec(s) == s,
{
    assert(clean_name_spec(s) =~= s);
}

/// A stored file name of at most 120 characters is stored again unchanged: making a safe name
/// safe once more changes nothing. (Longer names are cut to 120 characters, and the cut may end
/// in a space or `.`, which a second pass removes.)
pub proof fn lemma_safe_filename_idempotent(name: Seq<char>)
    requires
        name.len() <= 120,
    ensures
        safe_filename_spec(safe_filename_spec(name)) == safe_filename_spec(name),
{
    let clean = clean_name_spec(name);
    let t = trim_spec(clean, TrimSet::SpaceOrDot);
    lemma_trim_twice(clean, TrimSet::SpaceOrDot);
    lemma_safe_filename_is_safe(name);
    let out = safe_filename_spec(name);
    if t.len() == 0 {
        reveal_strlit("файл");
        assert(out == "файл"@);
        lemma_clean_safe_is_same(out);
        assert(out.len() == 4);
        assert(trim_start_spec(out, TrimSet::SpaceOrDot) == out);
        assert(trim_end_spec(out, TrimSet::SpaceOrDot) == out);
    } else {
        assert(out == t);
        lemma_clean_safe_is_same(out);
    }
}

} // verus!
