//! Character-level text operations on `Seq<char>` models of strings.
use vstd::prelude::*;

verus! {

/// The characters of `s`, in order.
pub fn chars_of(s: &str) -> (out: Vec<char>)
    ensures
        out@ == s@,
{
    let mut out: Vec<char> = Vec::new();
    for c in it: s.chars()
        invariant
            out@ == it.seq().take(it.index() as int),
            it.seq() == s@,
    {
        out.push(c);
    }
    out
}

/// `String::push`: appends one character to the string.
#[verifier::external_body]
fn string_push(s: &mut String, c: char)
    ensures
        final(s)@ == old(s)@.push(c),
{
    s.push(c);
}

/// Builds a `String` from a sequence of characters.
pub(crate) fn string_from_chars(chars: &Vec<char>) -> (s: String)
    ensures
        s@ == chars@,
{
    let mut s = String::new();
    let n = chars.len();
    for i in 0..n
        invariant
            n == chars@.len(),
            s@ == chars@.take(i as int),
    {
        string_push(&mut s, chars[i]);
        assert(chars@.take(i + 1) == chars@.take(i as int).push(chars@[i as int]));
    }
    assert(chars@.take(n as int) == chars@);
    s
}

/// Appends all of `more` to `out`.
pub fn push_all(out: &mut Vec<char>, more: &Vec<char>)
    ensures
        final(out)@ == old(out)@ + more@,
{
    let n = more.len();
    for i in 0..n
        invariant
            n == more@.len(),
            out@ == old(out)@ + more@.take(i as int),
    {
        out.push(more[i]);
        assert(more@.take(i + 1) == more@.take(i as int).push(more@[i as int]));
    }
    assert(more@.take(n as int) == more@);
}

/// Appends the characters of a string slice to `out`.
pub fn push_str(out: &mut Vec<char>, more: &str)
    ensures
        final(out)@ == old(out)@ + more@,
{
    let chars = chars_of(more);
    push_all(out, &chars);
}

/// A copy of `v[lo..hi]`.
pub fn subrange_chars(v: &Vec<char>, lo: usize, hi: usize) -> (out: Vec<char>)
    requires
        lo <= hi <= v@.len(),
    ensures
        out@ == v@.subrange(lo as int, hi as int),
{
    let mut out: Vec<char> = Vec::new();
    let mut i = lo;
    while i < hi
        invariant
            lo <= i <= hi <= v@.len(),
            out@ == v@.subrange(lo as int, i as int),
        decreases hi - i,
    {
        out.push(v[i]);
        assert(v@.subrange(lo as int, i + 1) == v@.subrange(lo as int, i as int).push(v@[i as int]));
        i = i + 1;
    }
    out
}

/// Whether two character sequences are equal.
pub fn chars_equal(a: &Vec<char>, b: &Vec<char>) -> (res: bool)
    ensures
        res == (a@ == b@),
{
    if a.len() != b.len() {
        return false;
    }
    let n = a.len();
    for i in 0..n
        invariant
            n == a@.len() == b@.len(),
            forall|j: int| 0 <= j < i ==> a@[j] == b@[j],
    {
        if a[i] != b[i] {
            return false;
        }
    }
    assert(a@ =~= b@);
    true
}

/// Unicode `White_Space`, the property that `char::is_whitespace` tests.
pub open spec fn is_whitespace_spec(c: char) -> bool {
    let u = c as u32;
    ||| 0x9 <= u <= 0xD
    ||| u == 0x20
    ||| u == 0x85
    ||| u == 0xA0
    ||| u == 0x1680
    ||| 0x2000 <= u <= 0x200A
    ||| u == 0x2028
    ||| u == 0x2029
    ||| u == 0x202F
    ||| u == 0x205F
    ||| u == 0x3000
}

/// Whether `c` is Unicode white space.
pub fn is_whitespace(c: char) -> (b: bool)
    ensures
        b == is_whitespace_spec(c),
{
    let u = c as u32;
    (0x9 <= u && u <= 0xD) || u == 0x20 || u == 0x85 || u == 0xA0 || u == 0x1680 || (0x2000 <= u
        && u <= 0x200A) || u == 0x2028 || u == 0x2029 || u == 0x202F || u == 0x205F || u == 0x3000
}

/// General category `Cc`, the property that `char::is_control` tests.
pub open spec fn is_control_spec(c: char) -> bool {
    let u = c as u32;
    u <= 0x1F || (0x7F <= u <= 0x9F)
}

/// Whether `c` is a control character.
pub fn is_control(c: char) -> (b: bool)
    ensures
        b == is_control_spec(c),
{
    let u = c as u32;
    u <= 0x1F || (0x7F <= u && u <= 0x9F)
}

/// The characters that a trim removes.
pub enum TrimSet {
    /// Unicode white space (`str::trim`).
    Whitespace,
    /// The space and the full stop.
    SpaceOrDot,
    /// The slash.
    Slash,
}

pub open spec fn in_trim_set(set: TrimSet, c: char) -> bool {
    match set {
        TrimSet::Whitespace => is_whitespace_spec(c),
        TrimSet::SpaceOrDot => c == ' ' || c == '.',
        TrimSet::Slash => c == '/',
    }
}

fn in_set(set: &TrimSet, c: char) -> (b: bool)
    ensures
        b == in_trim_set(*set, c),
{
    match set {
        TrimSet::Whitespace => is_whitespace(c),
        TrimSet::SpaceOrDot => c == ' ' || c == '.',
        TrimSet::Slash => c == '/',
    }
}

/// `s` without the leading characters of `set`.
pub open spec fn trim_start_spec(s: Seq<char>, set: TrimSet) -> Seq<char>
    decreases s.len(),
{
    if s.len() > 0 && in_trim_set(set, s[0]) {
        trim_start_spec(s.drop_first(), set)
    } else {
        s
    }
}

/// `s` without the trailing characters of `set`.
pub open spec fn trim_end_spec(s: Seq<char>, set: TrimSet) -> Seq<char>
    decreases s.len(),
{
    if s.len() > 0 && in_trim_set(set, s.last()) {
        trim_end_spec(s.drop_last(), set)
    } else {
        s
    }
}

/// `s` without leading and trailing characters of `set`.
pub open spec fn trim_spec(s: Seq<char>, set: TrimSet) -> Seq<char> {
    trim_end_spec(trim_start_spec(s, set), set)
}

/// Removes leading and trailing characters of `set`.
pub fn trim_chars(v: &Vec<char>, set: TrimSet) -> (out: Vec<char>)
    ensures
        out@ == trim_spec(v@, set),
{
    let n = v.len();
    let mut lo: usize = 0;
    assert(v@.skip(0) == v@);
    while lo < n && in_set(&set, v[lo])
        invariant
            n == v@.len(),
            lo <= n,
            trim_start_spec(v@, set) == trim_start_spec(v@.skip(lo as int), set),
        decreases n - lo,
    {
        assert(v@.skip(lo as int).drop_first() == v@.skip(lo + 1));
        lo = lo + 1;
    }
    let ghost start = v@.skip(lo as int);
    assert(trim_start_spec(v@, set) == start);
    let mut hi: usize = n;
    while hi > lo && in_set(&set, v[hi - 1])
        invariant
            n == v@.len(),
            lo <= hi <= n,
            start == v@.skip(lo as int),
            trim_end_spec(start, set) == trim_end_spec(v@.subrange(lo as int, hi as int), set),
        decreases hi,
    {
        assert(v@.subrange(lo as int, hi as int).drop_last() == v@.subrange(lo as int, hi - 1));
        hi = hi - 1;
    }
    assert(start == v@.subrange(lo as int, n as int));
    subrange_chars(v, lo, hi)
}

/// Removes trailing characters of `set` (`str::trim_end_matches`).
pub fn trim_end_chars(v: &Vec<char>, set: TrimSet) -> (out: Vec<char>)
    ensures
        out@ == trim_end_spec(v@, set),
{
    let n = v.len();
    let mut hi: usize = n;
    assert(v@.subrange(0, n as int) =~= v@);
    while hi > 0 && in_set(&set, v[hi - 1])
        invariant
            n == v@.len(),
            hi <= n,
            trim_end_spec(v@, set) == trim_end_spec(v@.subrange(0, hi as int), set),
        decreases hi,
    {
        assert(v@.subrange(0, hi as int).drop_last() == v@.subrange(0, hi - 1));
        hi = hi - 1;
    }
    subrange_chars(v, 0, hi)
}

/// `str::trim` on a string slice.
pub fn trim_str(s: &str) -> (out: Vec<char>)
    ensures
        out@ == trim_spec(s@, TrimSet::Whitespace),
{
    let v = chars_of(s);
    trim_chars(&v, TrimSet::Whitespace)
}

/// ASCII lowercase of one character.
pub open spec fn ascii_lower_char(c: char) -> char {
    if 'A' <= c <= 'Z' {
        ((c as u32) + 32) as char
    } else {
        c
    }
}

/// `str::to_ascii_lowercase` on the character model.
pub open spec fn ascii_lower_spec(s: Seq<char>) -> Seq<char> {
    s.map_values(|c: char| ascii_lower_char(c))
}

pub fn ascii_lower(v: &Vec<char>) -> (out: Vec<char>)
    ensures
        out@ == ascii_lower_spec(v@),
{
    let mut out: Vec<char> = Vec::new();
    let n = v.len();
    for i in 0..n
        invariant
            n == v@.len(),
            out@ == ascii_lower_spec(v@.take(i as int)),
    {
        let c = v[i];
        let l = if 'A' <= c && c <= 'Z' {
            let u = (c as u32) + 32;
            assert(u <= 0x7F);
            char_from_ascii(u)
        } else {
            c
        };
        out.push(l);
        assert(ascii_lower_spec(v@.take(i + 1)) == ascii_lower_spec(v@.take(i as int)).push(
            ascii_lower_char(c),
        ));
    }
    assert(v@.take(n as int) == v@);
    out
}

fn char_from_ascii(u: u32) -> (c: char)
    requires
        u <= 0x7F,
    ensures
        c == u as char,
        c as u32 == u,
{
    proof {
        vstd::utf8::char_is_scalar(u as char);
    }
    u as u8 as char
}

/// `s` starts with `p`.
pub open spec fn starts_with_spec(s: Seq<char>, p: Seq<char>) -> bool {
    p.len() <= s.len() && s.take(p.len() as int) == p
}

/// `p` occurs in `s` at position `i`.
pub open spec fn occurs_at(s: Seq<char>, p: Seq<char>, i: int) -> bool {
    0 <= i && i + p.len() <= s.len() && s.subrange(i, i + p.len()) == p
}

/// `p` occurs somewhere in `s`.
pub open spec fn contains_spec(s: Seq<char>, p: Seq<char>) -> bool {
    exists|i: int| occurs_at(s, p, i)
}

/// Whether `p` occurs in `v` at position `i`.
pub fn matches_at(v: &Vec<char>, p: &Vec<char>, i: usize) -> (res: bool)
    ensures
        res == occurs_at(v@, p@, i as int),
{
    let n = v.len();
    if i > n || p.len() > n - i {
        return false;
    }
    let m = p.len();
    for j in 0..m
        invariant
            m == p@.len(),
            n == v@.len(),
            i + m <= n,
            forall|k: int| 0 <= k < j ==> v@[i + k] == p@[k],
    {
        if v[i + j] != p[j] {
            assert(v@.subrange(i as int, i + m)[j as int] != p@[j as int]);
            return false;
        }
    }
    assert(v@.subrange(i as int, i + m) =~= p@);
    true
}

/// `s` ends with `p`.
pub open spec fn ends_with_spec(s: Seq<char>, p: Seq<char>) -> bool {
    p.len() <= s.len() && s.skip(s.len() - p.len()) == p
}

/// Whether `v` ends with `p`.
pub fn ends_with(v: &Vec<char>, p: &Vec<char>) -> (res: bool)
    ensures
        res == ends_with_spec(v@, p@),
{
    if p.len() > v.len() {
        return false;
    }
    let start = v.len() - p.len();
    let r = matches_at(v, p, start);
    assert(v@.subrange(start as int, start + p@.len()) =~= v@.skip(start as int));
    r
}

/// Whether `v` starts with `p`.
pub fn starts_with(v: &Vec<char>, p: &Vec<char>) -> (res: bool)
    ensures
        res == starts_with_spec(v@, p@),
{
    let r = matches_at(v, p, 0);
    assert(r ==> v@.subrange(0, p@.len() as int) == v@.take(p@.len() as int));
    r
}

/// Whether `p` occurs in `v`.
pub fn contains(v: &Vec<char>, p: &Vec<char>) -> (res: bool)
    ensures
        res == contains_spec(v@, p@),
{
    if p.len() > v.len() {
        return false;
    }
    let last = v.len() - p.len();
    let mut i: usize = 0;
    loop
        invariant
            last == v@.len() - p@.len(),
            i <= last,
            forall|k: int| 0 <= k < i ==> !occurs_at(v@, p@, k),
        decreases last - i,
    {
        if matches_at(v, p, i) {
            return true;
        }
        if i == last {
            return false;
        }
        i = i + 1;
    }
}

/// `str::replace` with a non-empty pattern: leftmost non-overlapping occurrences of `p`
/// are replaced by `r`, scanning from the left.
pub open spec fn replace_nonempty_spec(s: Seq<char>, p: Seq<char>, r: Seq<char>) -> Seq<char>
    decreases s.len(),
{
    if p.len() == 0 || s.len() < p.len() {
        s
    } else if s.take(p.len() as int) == p {
        r + replace_nonempty_spec(s.skip(p.len() as int), p, r)
    } else {
        seq![s[0]] + replace_nonempty_spec(s.drop_first(), p, r)
    }
}

/// `str::replace` with the empty pattern: `r` before every character and at the end.
pub open spec fn replace_empty_spec(s: Seq<char>, r: Seq<char>) -> Seq<char>
    decreases s.len(),
{
    if s.len() == 0 {
        r
    } else {
        r + seq![s[0]] + replace_empty_spec(s.drop_first(), r)
    }
}

/// `str::replace` on the character model.
pub open spec fn replace_spec(s: Seq<char>, p: Seq<char>, r: Seq<char>) -> Seq<char> {
    if p.len() == 0 {
        replace_empty_spec(s, r)
    } else {
        replace_nonempty_spec(s, p, r)
    }
}

/// Replaces every non-overlapping occurrence of `p` in `v` by `r`.
pub fn replace_chars(v: &Vec<char>, p: &Vec<char>, r: &Vec<char>) -> (out: Vec<char>)
    ensures
        out@ == replace_spec(v@, p@, r@),
{
    let n = v.len();
    let mut out: Vec<char> = Vec::new();
    assert(v@.skip(0) == v@);
    if p.len() == 0 {
        for i in 0..n
            invariant
                n == v@.len(),
                p@.len() == 0,
                replace_empty_spec(v@, r@) == out@ + replace_empty_spec(v@.skip(i as int), r@),
        {
            assert(v@.skip(i as int).drop_first() == v@.skip(i + 1));
            push_all(&mut out, r);
            out.push(v[i]);
            assert(out@ + replace_empty_spec(v@.skip(i + 1), r@) == (out@.drop_last() + seq![
                v@[i as int],
            ]) + replace_empty_spec(v@.skip(i + 1), r@));
        }
        push_all(&mut out, r);
        assert(v@.skip(n as int).len() == 0);
        return out;
    }
    let m = p.len();
    let mut i: usize = 0;
    while i < n && m <= n - i
        invariant
            n == v@.len(),
            m == p@.len(),
            m > 0,
            i <= n,
            replace_nonempty_spec(v@, p@, r@) == out@ + replace_nonempty_spec(
                v@.skip(i as int),
                p@,
                r@,
            ),
        decreases n - i,
    {
        let ghost rest = v@.skip(i as int);
        if matches_at(v, p, i) {
            assert(rest.take(m as int) == v@.subrange(i as int, i + m));
            assert(rest.skip(m as int) == v@.skip(i + m));
            push_all(&mut out, r);
            i = i + m;
        } else {
            assert(rest.take(m as int) == v@.subrange(i as int, i + m));
            assert(rest.drop_first() == v@.skip(i + 1));
            out.push(v[i]);
            i = i + 1;
        }
    }
    let tail = subrange_chars(v, i, n);
    assert(tail@ == v@.skip(i as int));
    push_all(&mut out, &tail);
    out
}

/// `str::replace` on string slices.
pub fn replace_str(s: &str, p: &str, r: &str) -> (out: String)
    ensures
        out@ == replace_spec(s@, p@, r@),
{
    let v = chars_of(s);
    let pv = chars_of(p);
    let rv = chars_of(r);
    let out = replace_chars(&v, &pv, &rv);
    string_from_chars(&out)
}

/// The decimal digit character for `d < 10`.
pub open spec fn digit_char(d: nat) -> char {
    ((d + 48) as u32) as char
}

/// Decimal digits of a natural number, without leading zeros.
pub open spec fn digits_spec(n: nat) -> Seq<char>
    decreases n,
{
    if n < 10 {
        seq![digit_char(n)]
    } else {
        digits_spec(n / 10).push(digit_char(n % 10))
    }
}

/// Decimal form of an integer, as `Display` for the integer types writes it.
pub open spec fn decimal_spec(n: int) -> Seq<char> {
    if n < 0 {
        seq!['-'] + digits_spec((-n) as nat)
    } else {
        digits_spec(n as nat)
    }
}

fn digit(d: u64) -> (c: char)
    requires
        d < 10,
    ensures
        c == digit_char(d as nat),
{
    char_from_ascii((d + 48) as u32)
}

/// Appends the decimal digits of `n`.
pub fn push_digits(out: &mut Vec<char>, n: u64)
    ensures
        final(out)@ == old(out)@ + digits_spec(n as nat),
    decreases n,
{
    if n >= 10 {
        push_digits(out, n / 10);
    }
    out.push(digit(n % 10));
}

/// Appends the decimal form of `n`.
pub fn push_decimal(out: &mut Vec<char>, n: i64)
    ensures
        final(out)@ == old(out)@ + decimal_spec(n as int),
{
    if n < 0 {
        out.push('-');
        let m: u64 = ((-(n as i128)) as u64);
        push_digits(out, m);
    } else {
        push_digits(out, n as u64);
    }
}

/// The decimal form of `n` (`i64::to_string`).
pub fn decimal(n: i64) -> (out: Vec<char>)
    ensures
        out@ == decimal_spec(n as int),
{
    let mut out: Vec<char> = Vec::new();
    push_decimal(&mut out, n);
    out
}

/// The HTML escape of one character.
pub open spec fn escape_char_spec(c: char) -> Seq<char> {
    if c == '&' {
        seq!['&', 'a', 'm', 'p', ';']
    } else if c == '<' {
        seq!['&', 'l', 't', ';']
    } else if c == '>' {
        seq!['&', 'g', 't', ';']
    } else if c == '"' {
        seq!['&', 'q', 'u', 'o', 't', ';']
    } else if c == '\'' {
        seq!['&', '#', '3', '9', ';']
    } else {
        seq![c]
    }
}

/// HTML escape of a text: every `&`, `<`, `>`, `"` and `'` replaced by its entity (the same as
/// the chain of replacements in `lemma_html_escape_is_replace_chain`).
pub open spec fn html_escape_spec(s: Seq<char>) -> Seq<char>
    decreases s.len(),
{
    if s.len() == 0 {
        Seq::<char>::empty()
    } else {
        html_escape_spec(s.drop_last()) + escape_char_spec(s.last())
    }
}

fn push_escaped_char(out: &mut Vec<char>, c: char)
    ensures
        final(out)@ == old(out)@ + escape_char_spec(c),
{
    if c == '&' {
        out.push('&');
        out.push('a');
        out.push('m');
        out.push('p');
        out.push(';');
    } else if c == '<' {
        out.push('&');
        out.push('l');
        out.push('t');
        out.push(';');
    } else if c == '>' {
        out.push('&');
        out.push('g');
        out.push('t');
        out.push(';');
    } else if c == '"' {
        out.push('&');
        out.push('q');
        out.push('u');
        out.push('o');
        out.push('t');
        out.push(';');
    } else if c == '\'' {
        out.push('&');
        out.push('#');
        out.push('3');
        out.push('9');
        out.push(';');
    } else {
        out.push(c);
    }
    assert(out@ =~= old(out)@ + escape_char_spec(c));
}

/// Appends the HTML escape of `v` to `out`.
pub fn push_html_escaped(out: &mut Vec<char>, v: &Vec<char>)
    ensures
        final(out)@ == old(out)@ + html_escape_spec(v@),
{
    let n = v.len();
    for i in 0..n
        invariant
            n == v@.len(),
            out@ == old(out)@ + html_escape_spec(v@.take(i as int)),
    {
        let c = v[i];
        assert(v@.take(i + 1).drop_last() == v@.take(i as int));
        let ghost before = out@;
        push_escaped_char(out, c);
        assert(html_escape_spec(v@.take(i + 1)) == html_escape_spec(v@.take(i as int))
            + escape_char_spec(c));
        assert(out@ =~= old(out)@ + html_escape_spec(v@.take(i + 1)));
    }
    assert(v@.take(n as int) == v@);
}

/// HTML-escaped text holds no `<`, `>`, `"` or `'`, so it cannot open a tag or end an
/// attribute value.
pub proof fn lemma_html_escape_inert(s: Seq<char>)
    ensures
        forall|i: int|
            0 <= i < html_escape_spec(s).len() ==> {
                let c = #[trigger] html_escape_spec(s)[i];
                c != '<' && c != '>' && c != '"' && c != '\''
            },
    decreases s.len(),
{
    if s.len() > 0 {
        lemma_html_escape_inert(s.drop_last());
        let a = html_escape_spec(s.drop_last());
        let b = escape_char_spec(s.last());
        assert(html_escape_spec(s) == a + b);
        assert forall|i: int| 0 <= i < html_escape_spec(s).len() implies {
            let c = #[trigger] html_escape_spec(s)[i];
            c != '<' && c != '>' && c != '"' && c != '\''
        } by {
            if i < a.len() {
                assert(html_escape_spec(s)[i] == a[i]);
            } else {
                assert(html_escape_spec(s)[i] == b[i - a.len()]);
            }
        }
    }
}

/// Every occurrence of `c` in `s` replaced by `r`.
pub open spec fn subst_char(s: Seq<char>, c: char, r: Seq<char>) -> Seq<char>
    decreases s.len(),
{
    if s.len() == 0 {
        Seq::<char>::empty()
    } else {
        (if s[0] == c {
            r
        } else {
            seq![s[0]]
        }) + subst_char(s.drop_first(), c, r)
    }
}

proof fn lemma_replace_one_char(s: Seq<char>, c: char, r: Seq<char>)
    ensures
        replace_spec(s, seq![c], r) == subst_char(s, c, r),
    decreases s.len(),
{
    if s.len() > 0 {
        lemma_replace_one_char(s.drop_first(), c, r);
        if s[0] == c {
            assert(s.take(1) =~= seq![c]);
            assert(s.skip(1) =~= s.drop_first());
        } else {
            assert(s.take(1) != seq![c]) by {
                assert(s.take(1)[0] != seq![c][0]);
            }
        }
    }
}

proof fn lemma_subst_concat(a: Seq<char>, b: Seq<char>, c: char, r: Seq<char>)
    ensures
        subst_char(a + b, c, r) == subst_char(a, c, r) + subst_char(b, c, r),
    decreases a.len(),
{
    if a.len() == 0 {
        assert(a + b =~= b);
    } else {
        lemma_subst_concat(a.drop_first(), b, c, r);
        assert((a + b).drop_first() =~= a.drop_first() + b);
        assert((a + b)[0] == a[0]);
    }
}

proof fn lemma_subst_absent(s: Seq<char>, c: char, r: Seq<char>)
    requires
        forall|k: int| 0 <= k < s.len() ==> s[k] != c,
    ensures
        subst_char(s, c, r) == s,
    decreases s.len(),
{
    if s.len() > 0 {
        lemma_subst_absent(s.drop_first(), c, r);
        assert(seq![s[0]] + s.drop_first() =~= s);
    }
}

/// The five replacements of the HTML escape, applied in turn.
pub open spec fn escape_chain(s: Seq<char>) -> Seq<char> {
    subst_char(
        subst_char(
            subst_char(
                subst_char(
                    subst_char(s, '&', seq!['&', 'a', 'm', 'p', ';']),
                    '<',
                    seq!['&', 'l', 't', ';'],
                ),
                '>',
                seq!['&', 'g', 't', ';'],
            ),
            '"',
            seq!['&', 'q', 'u', 'o', 't', ';'],
        ),
        '\'',
        seq!['&', '#', '3', '9', ';'],
    )
}

proof fn lemma_escape_chain_concat(a: Seq<char>, b: Seq<char>)
    ensures
        escape_chain(a + b) == escape_chain(a) + escape_chain(b),
{
    let r1 = seq!['&', 'a', 'm', 'p', ';'];
    let r2 = seq!['&', 'l', 't', ';'];
    let r3 = seq!['&', 'g', 't', ';'];
    let r4 = seq!['&', 'q', 'u', 'o', 't', ';'];
    let r5 = seq!['&', '#', '3', '9', ';'];
    lemma_subst_concat(a, b, '&', r1);
    let a1 = subst_char(a, '&', r1);
    let b1 = subst_char(b, '&', r1);
    lemma_subst_concat(a1, b1, '<', r2);
    let a2 = subst_char(a1, '<', r2);
    let b2 = subst_char(b1, '<', r2);
    lemma_subst_concat(a2, b2, '>', r3);
    let a3 = subst_char(a2, '>', r3);
    let b3 = subst_char(b2, '>', r3);
    lemma_subst_concat(a3, b3, '"', r4);
    let a4 = subst_char(a3, '"', r4);
    let b4 = subst_char(b3, '"', r4);
    lemma_subst_concat(a4, b4, '\'', r5);
}

proof fn lemma_subst_single(x: char, c: char, r: Seq<char>)
    ensures
        subst_char(seq![x], c, r) == if x == c {
            r
        } else {
            seq![x]
        },
{
    assert(seq![x].drop_first() =~= Seq::<char>::empty());
    assert(subst_char(seq![x], c, r) == (if x == c {
        r
    } else {
        seq![x]
    }) + subst_char(Seq::<char>::empty(), c, r));
    if x == c {
        assert(r + Seq::<char>::empty() =~= r);
    } else {
        assert(seq![x] + Seq::<char>::empty() =~= seq![x]);
    }
}

proof fn lemma_escape_chain_char(x: char)
    ensures
        escape_chain(seq![x]) == escape_char_spec(x),
{
    let r1 = seq!['&', 'a', 'm', 'p', ';'];
    let r2 = seq!['&', 'l', 't', ';'];
    let r3 = seq!['&', 'g', 't', ';'];
    let r4 = seq!['&', 'q', 'u', 'o', 't', ';'];
    let r5 = seq!['&', '#', '3', '9', ';'];
    lemma_subst_single(x, '&', r1);
    if x == '&' {
        lemma_subst_absent(r1, '<', r2);
        lemma_subst_absent(r1, '>', r3);
        lemma_subst_absent(r1, '"', r4);
        lemma_subst_absent(r1, '\'', r5);
    } else {
        lemma_subst_single(x, '<', r2);
        if x == '<' {
            lemma_subst_absent(r2, '>', r3);
            lemma_subst_absent(r2, '"', r4);
            lemma_subst_absent(r2, '\'', r5);
        } else {
            lemma_subst_single(x, '>', r3);
            if x == '>' {
                lemma_subst_absent(r3, '"', r4);
                lemma_subst_absent(r3, '\'', r5);
            } else {
                lemma_subst_single(x, '"', r4);
                if x == '"' {
                    lemma_subst_absent(r4, '\'', r5);
                } else {
                    lemma_subst_single(x, '\'', r5);
                }
            }
        }
    }
}

proof fn lemma_escape_chain_is_escape(s: Seq<char>)
    ensures
        escape_chain(s) == html_escape_spec(s),
    decreases s.len(),
{
    if s.len() == 0 {
        assert(escape_chain(s) == Seq::<char>::empty());
    } else {
        let t = s.drop_last();
        lemma_escape_chain_is_escape(t);
        assert(t + seq![s.last()] =~= s);
        lemma_escape_chain_concat(t, seq![s.last()]);
        lemma_escape_chain_char(s.last());
    }
}

/// The HTML escape is the same as replacing, with `str::replace` and in this order, `&` by
/// `&amp;`, `<` by `&lt;`, `>` by `&gt;`, `"` by `&quot;` and `'` by `&#39;`.
pub proof fn lemma_html_escape_is_replace_chain(s: Seq<char>)
    ensures
        html_escape_spec(s) == replace_spec(
            replace_spec(
                replace_spec(
                    replace_spec(
                        replace_spec(s, seq!['&'], seq!['&', 'a', 'm', 'p', ';']),
                        seq!['<'],
                        seq!['&', 'l', 't', ';'],
                    ),
                    seq!['>'],
                    seq!['&', 'g', 't', ';'],
                ),
                seq!['"'],
                seq!['&', 'q', 'u', 'o', 't', ';'],
            ),
            seq!['\''],
            seq!['&', '#', '3', '9', ';'],
        ),
{
    let r1 = seq!['&', 'a', 'm', 'p', ';'];
    let r2 = seq!['&', 'l', 't', ';'];
    let r3 = seq!['&', 'g', 't', ';'];
    let r4 = seq!['&', 'q', 'u', 'o', 't', ';'];
    let r5 = seq!['&', '#', '3', '9', ';'];
    lemma_replace_one_char(s, '&', r1);
    let s1 = subst_char(s, '&', r1);
    lemma_replace_one_char(s1, '<', r2);
    let s2 = subst_char(s1, '<', r2);
    lemma_replace_one_char(s2, '>', r3);
    let s3 = subst_char(s2, '>', r3);
    lemma_replace_one_char(s3, '"', r4);
    let s4 = subst_char(s3, '"', r4);
    lemma_replace_one_char(s4, '\'', r5);
    lemma_escape_chain_is_escape(s);
}

/// The entity of `&`.
pub open spec fn amp_entity() -> Seq<char> {
    seq!['&', 'a', 'm', 'p', ';']
}

/// The entity of `<`.
pub open spec fn lt_entity() -> Seq<char> {
    seq!['&', 'l', 't', ';']
}

/// The entity of `>`.
pub open spec fn gt_entity() -> Seq<char> {
    seq!['&', 'g', 't', ';']
}

/// The entity of `"`.
pub open spec fn quot_entity() -> Seq<char> {
    seq!['&', 'q', 'u', 'o', 't', ';']
}

/// The entity of `'`.
pub open spec fn apos_entity() -> Seq<char> {
    seq!['&', '#', '3', '9', ';']
}

/// `t` begins with one of the five entities that the escape writes.
pub open spec fn starts_with_entity(t: Seq<char>) -> bool {
    ||| starts_with_spec(t, amp_entity())
    ||| starts_with_spec(t, lt_entity())
    ||| starts_with_spec(t, gt_entity())
    ||| starts_with_spec(t, quot_entity())
    ||| starts_with_spec(t, apos_entity())
}

/// Reading escaped text back, left to right: each of the five entities gives its character, and
/// every other character stands for itself.
pub open spec fn html_unescape_spec(t: Seq<char>) -> Seq<char>
    decreases t.len(),
{
    if t.len() == 0 {
        Seq::<char>::empty()
    } else if starts_with_spec(t, amp_entity()) {
        seq!['&'] + html_unescape_spec(t.skip(5))
    } else if starts_with_spec(t, lt_entity()) {
        seq!['<'] + html_unescape_spec(t.skip(4))
    } else if starts_with_spec(t, gt_entity()) {
        seq!['>'] + html_unescape_spec(t.skip(4))
    } else if starts_with_spec(t, quot_entity()) {
        seq!['"'] + html_unescape_spec(t.skip(6))
    } else if starts_with_spec(t, apos_entity()) {
        seq!['\''] + html_unescape_spec(t.skip(5))
    } else {
        seq![t[0]] + html_unescape_spec(t.drop_first())
    }
}

proof fn lemma_html_escape_concat(a: Seq<char>, b: Seq<char>)
    ensures
        html_escape_spec(a + b) == html_escape_spec(a) + html_escape_spec(b),
    decreases b.len(),
{
    if b.len() == 0 {
        assert(a + b =~= a);
        assert(html_escape_spec(a) + html_escape_spec(b) =~= html_escape_spec(a));
    } else {
        lemma_html_escape_concat(a, b.drop_last());
        assert((a + b).drop_last() =~= a + b.drop_last());
        assert((a + b).last() == b.last());
    }
}

proof fn lemma_unescape_char(c: char, rest: Seq<char>)
    ensures
        html_unescape_spec(escape_char_spec(c) + rest) == seq![c] + html_unescape_spec(rest),
{
    let t = escape_char_spec(c) + rest;
    if c == '&' {
        assert(t.take(5) =~= amp_entity());
        assert(t.skip(5) =~= rest);
    } else if c == '<' {
        assert(t[1] == 'l');
        assert(!starts_with_spec(t, amp_entity())) by {
            if starts_with_spec(t, amp_entity()) {
                assert(t.take(5)[1] == amp_entity()[1]);
            }
        }
        assert(t.take(4) =~= lt_entity());
        assert(t.skip(4) =~= rest);
    } else if c == '>' {
        assert(t[1] == 'g');
        assert(!starts_with_spec(t, amp_entity())) by {
            if starts_with_spec(t, amp_entity()) {
                assert(t.take(5)[1] == amp_entity()[1]);
            }
        }
        assert(!starts_with_spec(t, lt_entity())) by {
            if starts_with_spec(t, lt_entity()) {
                assert(t.take(4)[1] == lt_entity()[1]);
            }
        }
        assert(t.take(4) =~= gt_entity());
        assert(t.skip(4) =~= rest);
    } else if c == '"' {
        assert(t[1] == 'q');
        assert(!starts_with_spec(t, amp_entity())) by {
            if starts_with_spec(t, amp_entity()) {
                assert(t.take(5)[1] == amp_entity()[1]);
            }
        }
        assert(!starts_with_spec(t, lt_entity())) by {
            if starts_with_spec(t, lt_entity()) {
                assert(t.take(4)[1] == lt_entity()[1]);
            }
        }
        assert(!starts_with_spec(t, gt_entity())) by {
            if starts_with_spec(t, gt_entity()) {
                assert(t.take(4)[1] == gt_entity()[1]);
            }
        }
        assert(t.take(6) =~= quot_entity());
        assert(t.skip(6) =~= rest);
    } else if c == '\'' {
        assert(t[1] == '#');
        assert(!starts_with_spec(t, amp_entity())) by {
            if starts_with_spec(t, amp_entity()) {
                assert(t.take(5)[1] == amp_entity()[1]);
            }
        }
        assert(!starts_with_spec(t, lt_entity())) by {
            if starts_with_spec(t, lt_entity()) {
                assert(t.take(4)[1] == lt_entity()[1]);
            }
        }
        assert(!starts_with_spec(t, gt_entity())) by {
            if starts_with_spec(t, gt_entity()) {
                assert(t.take(4)[1] == gt_entity()[1]);
            }
        }
        assert(!starts_with_spec(t, quot_entity())) by {
            if starts_with_spec(t, quot_entity()) {
                assert(t.take(6)[1] == quot_entity()[1]);
            }
        }
        assert(t.take(5) =~= apos_entity());
        assert(t.skip(5) =~= rest);
    } else {
        assert(t[0] == c);
        assert(!starts_with_entity(t)) by {
            if starts_with_spec(t, amp_entity()) {
                assert(t.take(5)[0] == amp_entity()[0]);
            }
            if starts_with_spec(t, lt_entity()) {
                assert(t.take(4)[0] == lt_entity()[0]);
            }
            if starts_with_spec(t, gt_entity()) {
                assert(t.take(4)[0] == gt_entity()[0]);
            }
            if starts_with_spec(t, quot_entity()) {
                assert(t.take(6)[0] == quot_entity()[0]);
            }
            if starts_with_spec(t, apos_entity()) {
                assert(t.take(5)[0] == apos_entity()[0]);
            }
        }
        assert(t.drop_first() =~= rest);
    }
}

/// Reading HTML-escaped text back gives the text that was escaped.
pub proof fn lemma_html_escape_round_trip(s: Seq<char>)
    ensures
        html_unescape_spec(html_escape_spec(s)) == s,
    decreases s.len(),
{
    if s.len() > 0 {
        let rest = s.drop_first();
        lemma_html_escape_round_trip(rest);
        assert(seq![s[0]] + rest =~= s);
        lemma_html_escape_concat(seq![s[0]], rest);
        assert(seq![s[0]].drop_last() =~= Seq::<char>::empty());
        assert(seq![s[0]].last() == s[0]);
        assert(html_escape_spec(seq![s[0]]) == html_escape_spec(Seq::<char>::empty())
            + escape_char_spec(s[0]));
        assert(Seq::<char>::empty() + escape_char_spec(s[0]) =~= escape_char_spec(s[0]));
        lemma_unescape_char(s[0], html_escape_spec(rest));
        assert(seq![s[0]] + rest =~= s);
    }
}

/// Every `&` in HTML-escaped text begins one of the five entities.
pub proof fn lemma_html_escape_amp_entities(s: Seq<char>)
    ensures
        forall|i: int|
            0 <= i < html_escape_spec(s).len() && #[trigger] html_escape_spec(s)[i] == '&'
                ==> starts_with_entity(html_escape_spec(s).skip(i)),
    decreases s.len(),
{
    if s.len() > 0 {
        let a = html_escape_spec(s.drop_last());
        let b = escape_char_spec(s.last());
        lemma_html_escape_amp_entities(s.drop_last());
        let t = html_escape_spec(s);
        assert(t == a + b);
        assert forall|i: int| 0 <= i < t.len() && #[trigger] t[i] == '&' implies starts_with_entity(
            t.skip(i),
        ) by {
            if i < a.len() {
                assert(a[i] == '&');
                assert(starts_with_entity(a.skip(i)));
                assert(t.skip(i) =~= a.skip(i) + b);
                let u = a.skip(i);
                if starts_with_spec(u, amp_entity()) {
                    assert((u + b).take(5) =~= u.take(5));
                } else if starts_with_spec(u, lt_entity()) {
                    assert((u + b).take(4) =~= u.take(4));
                } else if starts_with_spec(u, gt_entity()) {
                    assert((u + b).take(4) =~= u.take(4));
                } else if starts_with_spec(u, quot_entity()) {
                    assert((u + b).take(6) =~= u.take(6));
                } else {
                    assert((u + b).take(5) =~= u.take(5));
                }
            } else {
                let c = s.last();
                assert(b[i - a.len()] == '&');
                assert(i == a.len()) by {
                    if i > a.len() {
                        assert(b[i - a.len()] != '&');
                    }
                }
                assert(t.skip(i) =~= b);
                if c == '&' {
                    assert(b.take(5) =~= amp_entity());
                } else if c == '<' {
                    assert(b.take(4) =~= lt_entity());
                } else if c == '>' {
                    assert(b.take(4) =~= gt_entity());
                } else if c == '"' {
                    assert(b.take(6) =~= quot_entity());
                } else if c == '\'' {
                    assert(b.take(5) =~= apos_entity());
                } else {
                    assert(b == seq![c]);
                }
            }
        }
    }
}

/// `s` with every character `c` replaced by the text `g(c)`.
pub open spec fn concat_map(s: Seq<char>, g: spec_fn(char) -> Seq<char>) -> Seq<char>
    decreases s.len(),
{
    if s.len() == 0 {
        Seq::<char>::empty()
    } else {
        g(s[0]) + concat_map(s.drop_first(), g)
    }
}

/// A piece of text that the scan for `p` passes over character by character: after its first
/// character it holds no `&` (the first character of `p`), and if it begins with `&`, it differs
/// from `p` in its second character.
pub open spec fn passes_over(t: Seq<char>, p: Seq<char>) -> bool {
    &&& forall|k: int| 1 <= k < t.len() ==> t[k] != '&'
    &&& (t.len() > 0 && t[0] == '&') ==> (t.len() >= 2 && p.len() >= 2 && t[1] != p[1])
}

proof fn lemma_replace_passes(t: Seq<char>, rest: Seq<char>, p: Seq<char>, r: Seq<char>)
    requires
        p.len() >= 2,
        p[0] == '&',
        passes_over(t, p),
    ensures
        replace_nonempty_spec(t + rest, p, r) == t + replace_nonempty_spec(rest, p, r),
    decreases t.len(),
{
    if t.len() == 0 {
        assert(t + rest =~= rest);
    } else {
        let u = t + rest;
        let t1 = t.drop_first();
        assert(passes_over(t1, p)) by {
            assert forall|k: int| 1 <= k < t1.len() implies t1[k] != '&' by {
                assert(t1[k] == t[k + 1]);
            }
            if t1.len() > 0 {
                assert(t1[0] == t[1]);
            }
        }
        lemma_replace_passes(t1, rest, p, r);
        assert(u.drop_first() =~= t1 + rest);
        if u.len() >= p.len() {
            assert(u.take(p.len() as int) != p) by {
                if t[0] == '&' {
                    assert(u.take(p.len() as int)[1] == t[1]);
                } else {
                    assert(u.take(p.len() as int)[0] == t[0]);
                }
            }
            assert(seq![u[0]] + (t1 + rest) =~= u);
        } else {
            assert(rest.len() < p.len());
            assert(replace_nonempty_spec(rest, p, r) == rest);
        }
        assert(seq![t[0]] + t1 =~= t);
        assert(seq![t[0]] + (t1 + replace_nonempty_spec(rest, p, r)) =~= t + replace_nonempty_spec(
            rest,
            p,
            r,
        ));
    }
}

proof fn lemma_replace_tokens(
    s: Seq<char>,
    g: spec_fn(char) -> Seq<char>,
    h: spec_fn(char) -> Seq<char>,
    p: Seq<char>,
    r: Seq<char>,
)
    requires
        p.len() >= 2,
        p[0] == '&',
        forall|c: char| #[trigger] g(c) == p || passes_over(g(c), p),
        forall|c: char|
            #[trigger] h(c) == if g(c) == p {
                r
            } else {
                g(c)
            },
    ensures
        replace_spec(concat_map(s, g), p, r) == concat_map(s, h),
    decreases s.len(),
{
    if s.len() > 0 {
        let rest = concat_map(s.drop_first(), g);
        lemma_replace_tokens(s.drop_first(), g, h, p, r);
        let t = g(s[0]);
        assert(h(s[0]) == if t == p {
            r
        } else {
            t
        });
        if t == p {
            let u = t + rest;
            assert(u.take(p.len() as int) =~= p);
            assert(u.skip(p.len() as int) =~= rest);
        } else {
            lemma_replace_passes(t, rest, p, r);
        }
    }
}

proof fn lemma_escape_is_concat_map(s: Seq<char>, g: spec_fn(char) -> Seq<char>)
    requires
        forall|c: char| #[trigger] g(c) == escape_char_spec(c),
    ensures
        html_escape_spec(s) == concat_map(s, g),
    decreases s.len(),
{
    if s.len() > 0 {
        let rest = s.drop_first();
        lemma_escape_is_concat_map(rest, g);
        assert(g(s[0]) == escape_char_spec(s[0]));
        assert(seq![s[0]] + rest =~= s);
        lemma_html_escape_concat(seq![s[0]], rest);
        assert(seq![s[0]].drop_last() =~= Seq::<char>::empty());
        assert(seq![s[0]].last() == s[0]);
        assert(html_escape_spec(seq![s[0]]) == html_escape_spec(Seq::<char>::empty())
            + escape_char_spec(s[0]));
        assert(Seq::<char>::empty() + escape_char_spec(s[0]) =~= escape_char_spec(s[0]));
    }
}

proof fn lemma_concat_map_id(s: Seq<char>, g: spec_fn(char) -> Seq<char>)
    requires
        forall|c: char| #[trigger] g(c) == seq![c],
    ensures
        concat_map(s, g) == s,
    decreases s.len(),
{
    if s.len() > 0 {
        lemma_concat_map_id(s.drop_first(), g);
        assert(g(s[0]) == seq![s[0]]);
        assert(seq![s[0]] + s.drop_first() =~= s);
    }
}

/// Undoing the escape with `str::replace`, in the order `&lt;`, `&gt;`, `&quot;`, `&#39;` and then
/// `&amp;`, gives back the text that was escaped.
pub proof fn lemma_html_escape_replace_back(s: Seq<char>)
    ensures
        replace_spec(
            replace_spec(
                replace_spec(
                    replace_spec(
                        replace_spec(html_escape_spec(s), lt_entity(), seq!['<']),
                        gt_entity(),
                        seq!['>'],
                    ),
                    quot_entity(),
                    seq!['"'],
                ),
                apos_entity(),
                seq!['\''],
            ),
            amp_entity(),
            seq!['&'],
        ) == s,
{
    let g0 = |c: char| escape_char_spec(c);
    let g1 = |c: char|
        if c == '<' {
            seq!['<']
        } else {
            escape_char_spec(c)
        };
    let g2 = |c: char|
        if c == '<' || c == '>' {
            seq![c]
        } else {
            escape_char_spec(c)
        };
    let g3 = |c: char|
        if c == '<' || c == '>' || c == '"' {
            seq![c]
        } else {
            escape_char_spec(c)
        };
    let g4 = |c: char|
        if c == '&' {
            amp_entity()
        } else {
            seq![c]
        };
    let g5 = |c: char| seq![c];
    lemma_escape_is_concat_map(s, g0);
    let e0 = html_escape_spec(s);
    assert(e0 == concat_map(s, g0));
    assert forall|c: char| #[trigger] g0(c) == lt_entity() || passes_over(g0(c), lt_entity()) by {
        if c == '&' || c == '<' || c == '>' || c == '"' || c == '\'' {
        }
    }
    lemma_replace_tokens(s, g0, g1, lt_entity(), seq!['<']);
    let e1 = replace_spec(e0, lt_entity(), seq!['<']);
    assert(e1 == concat_map(s, g1));
    assert forall|c: char| #[trigger] g1(c) == gt_entity() || passes_over(g1(c), gt_entity()) by {
        if c == '&' || c == '<' || c == '>' || c == '"' || c == '\'' {
        }
    }
    lemma_replace_tokens(s, g1, g2, gt_entity(), seq!['>']);
    let e2 = replace_spec(e1, gt_entity(), seq!['>']);
    assert(e2 == concat_map(s, g2));
    assert forall|c: char| #[trigger] g2(c) == quot_entity() || passes_over(g2(c), quot_entity()) by {
        if c == '&' || c == '<' || c == '>' || c == '"' || c == '\'' {
        }
    }
    lemma_replace_tokens(s, g2, g3, quot_entity(), seq!['"']);
    let e3 = replace_spec(e2, quot_entity(), seq!['"']);
    assert(e3 == concat_map(s, g3));
    assert forall|c: char| #[trigger] g3(c) == apos_entity() || passes_over(g3(c), apos_entity()) by {
        if c == '&' || c == '<' || c == '>' || c == '"' || c == '\'' {
        }
    }
    lemma_replace_tokens(s, g3, g4, apos_entity(), seq!['\'']);
    let e4 = replace_spec(e3, apos_entity(), seq!['\'']);
    assert(e4 == concat_map(s, g4));
    assert forall|c: char| #[trigger] g4(c) == amp_entity() || passes_over(g4(c), amp_entity()) by {
    }
    lemma_replace_tokens(s, g4, g5, amp_entity(), seq!['&']);
    let e5 = replace_spec(e4, amp_entity(), seq!['&']);
    assert(e5 == concat_map(s, g5));
    lemma_concat_map_id(s, g5);
}

/// Escapes `&`, `<`, `>`, `"` and `'` for use in HTML text and attribute values.
pub fn html_escape(value: &str) -> (out: String)
    ensures
        out@ == html_escape_spec(value@),
{
    let v = chars_of(value);
    let mut out: Vec<char> = Vec::new();
    push_html_escaped(&mut out, &v);
    string_from_chars(&out)
}

/// An ASCII decimal digit.
pub open spec fn is_digit_char(c: char) -> bool {
    '0' <= c <= '9'
}

/// The value of a run of decimal digits.
pub open spec fn digits_value(s: Seq<char>) -> int
    decreases s.len(),
{
    if s.len() == 0 {
        0
    } else {
        digits_value(s.drop_last()) * 10 + ((s.last() as u32) - 48)
    }
}

/// Every character is a decimal digit.
pub open spec fn all_digits(s: Seq<char>) -> bool {
    forall|i: int| 0 <= i < s.len() ==> is_digit_char(#[trigger] s[i])
}

/// `i64::from_str`: an optional `+` or `-`, then at least one decimal digit, and a value that
/// fits `i64`.
pub open spec fn parse_i64_spec(s: Seq<char>) -> Option<int> {
    let neg = s.len() > 0 && s[0] == '-';
    let body = if s.len() > 0 && (s[0] == '-' || s[0] == '+') {
        s.drop_first()
    } else {
        s
    };
    if body.len() == 0 || !all_digits(body) {
        None
    } else {
        let v = if neg {
            -digits_value(body)
        } else {
            digits_value(body)
        };
        if i64::MIN <= v <= i64::MAX {
            Some(v)
        } else {
            None
        }
    }
}

/// An optional `i64` as an optional integer.
pub open spec fn opt_i64(o: Option<i64>) -> Option<int> {
    match o {
        Some(v) => Some(v as int),
        None => None,
    }
}

/// Parses a decimal `i64` as `str::parse::<i64>` does.
pub fn parse_i64(s: &str) -> (res: Option<i64>)
    ensures
        opt_i64(res) == parse_i64_spec(s@),
{
    let v = chars_of(s);
    let n = v.len();
    let neg = n > 0 && v[0] == '-';
    let start: usize = if n > 0 && (v[0] == '-' || v[0] == '+') {
        1
    } else {
        0
    };
    let ghost body = if s@.len() > 0 && (s@[0] == '-' || s@[0] == '+') {
        s@.drop_first()
    } else {
        s@
    };
    assert(body == v@.skip(start as int));
    if start >= n {
        return None;
    }
    let bound: u128 = 0x8000_0000_0000_0000;
    let mut acc: u128 = 0;
    let mut over = false;
    let mut i = start;
    assert(v@.subrange(start as int, start as int).len() == 0);
    while i < n
        invariant
            start <= i <= n,
            n == v@.len(),
            v@ == s@,
            body == v@.skip(start as int),
            body == (if s@.len() > 0 && (s@[0] == '-' || s@[0] == '+') {
                s@.drop_first()
            } else {
                s@
            }),
            bound == 0x8000_0000_0000_0000u128,
            all_digits(v@.subrange(start as int, i as int)),
            !over ==> acc == digits_value(v@.subrange(start as int, i as int)) && acc <= bound,
            over ==> digits_value(v@.subrange(start as int, i as int)) > bound,
            digits_value(v@.subrange(start as int, i as int)) >= 0,
        decreases n - i,
    {
        let c = v[i];
        if !('0' <= c && c <= '9') {
            proof {
                assert(body[i - start] == c);
                assert(!is_digit_char(body[i - start]));
                assert(!all_digits(body));
                assert(parse_i64_spec(s@) is None);
            }
            return None;
        }
        let ghost pre = v@.subrange(start as int, i as int);
        let ghost next = v@.subrange(start as int, i + 1);
        assert(next.drop_last() == pre);
        assert(next.last() == c);
        let d = (c as u32 - 48) as u128;
        if !over {
            acc = acc * 10 + d;
            if acc > bound {
                over = true;
            }
        }
        assert(all_digits(next)) by {
            assert forall|k: int| 0 <= k < next.len() implies is_digit_char(#[trigger] next[k]) by {
                if k < pre.len() {
                    assert(next[k] == pre[k]);
                }
            }
        }
        i = i + 1;
    }
    assert(v@.subrange(start as int, n as int) == body);
    if over {
        return None;
    }
    if neg {
        if acc == bound {
            Some(i64::MIN)
        } else {
            Some(-(acc as i64))
        }
    } else {
        if acc >= bound {
            None
        } else {
            Some(acc as i64)
        }
    }
}

/// The character views of a sequence of strings.
pub open spec fn str_views(v: Seq<String>) -> Seq<Seq<char>> {
    v.map_values(|s: String| s@)
}

/// A lowercase hexadecimal digit.
pub open spec fn is_hex_lower(c: char) -> bool {
    ('0' <= c <= '9') || ('a' <= c <= 'f')
}

/// The lowercase hexadecimal digit of `d < 16`.
pub open spec fn hex_digit_char(d: nat) -> char {
    if d < 10 {
        digit_char(d)
    } else {
        ((d + 87) as u32) as char
    }
}

/// `format!("{:02x}", b)`: the byte as two lowercase hexadecimal digits.
pub open spec fn hex_byte_spec(b: u8) -> Seq<char> {
    seq![hex_digit_char((b / 16) as nat), hex_digit_char((b % 16) as nat)]
}

fn hex_digit(d: u8) -> (c: char)
    requires
        d < 16,
    ensures
        c == hex_digit_char(d as nat),
        is_hex_lower(c),
{
    if d < 10 {
        char_from_ascii((d + 48) as u32)
    } else {
        char_from_ascii((d + 87) as u32)
    }
}

/// Appends the two lowercase hexadecimal digits of `b`.
pub fn push_hex_byte(out: &mut Vec<char>, b: u8)
    ensures
        final(out)@ == old(out)@ + hex_byte_spec(b),
{
    out.push(hex_digit(b / 16));
    out.push(hex_digit(b % 16));
    assert(out@ =~= old(out)@ + hex_byte_spec(b));
}

} // verus!
