//! UTF-8 and UTF-16 lengths, and the conversion of Telegram's UTF-16 offsets into byte offsets.
use vstd::prelude::*;
use vstd::utf8::*;

use crate::text::chars_of;

verus! {

/// Bytes that `c` takes in UTF-8 (`char::len_utf8`).
pub open spec fn utf8_width(c: char) -> nat {
    let u = c as u32;
    if u <= 0x7F {
        1
    } else if u <= 0x7FF {
        2
    } else if u <= 0xFFFF {
        3
    } else {
        4
    }
}

/// Code units that `c` takes in UTF-16 (`char::len_utf16`).
pub open spec fn utf16_width(c: char) -> nat {
    if (c as u32) <= 0xFFFF {
        1
    } else {
        2
    }
}

/// UTF-8 length in bytes of a character sequence.
pub open spec fn utf8_len(s: Seq<char>) -> nat
    decreases s.len(),
{
    if s.len() == 0 {
        0
    } else {
        utf8_len(s.drop_last()) + utf8_width(s.last())
    }
}

/// UTF-16 length in code units of a character sequence.
pub open spec fn utf16_len(s: Seq<char>) -> nat
    decreases s.len(),
{
    if s.len() == 0 {
        0
    } else {
        utf16_len(s.drop_last()) + utf16_width(s.last())
    }
}

/// The character index at which the UTF-16 prefix length of `s` is `target`, if there is one.
pub open spec fn utf16_char_index(s: Seq<char>, target: int) -> Option<int> {
    if exists|k: int| 0 <= k <= s.len() && utf16_len(s.take(k)) == target {
        Some(choose|k: int| 0 <= k <= s.len() && utf16_len(s.take(k)) == target)
    } else {
        None
    }
}

/// The byte offset in the UTF-8 form of `s` of the UTF-16 boundary `target`, if `target` falls
/// on a character boundary within `s`.
pub open spec fn utf16_boundary_spec(s: Seq<char>, target: int) -> Option<int> {
    match utf16_char_index(s, target) {
        Some(k) => Some(utf8_len(s.take(k)) as int),
        None => None,
    }
}

/// An optional `usize` as an optional integer.
pub open spec fn opt_int(o: Option<usize>) -> Option<int> {
    match o {
        Some(v) => Some(v as int),
        None => None,
    }
}

pub proof fn lemma_encode_utf8_concat(a: Seq<char>, b: Seq<char>)
    ensures
        encode_utf8(a + b) == encode_utf8(a) + encode_utf8(b),
    decreases a.len(),
{
    if a.len() == 0 {
        assert(a + b == b);
    } else {
        lemma_encode_utf8_concat(a.drop_first(), b);
        assert((a + b).drop_first() == a.drop_first() + b);
        assert((a + b)[0] == a[0]);
    }
}

pub proof fn lemma_encode_scalar_len(c: char)
    ensures
        encode_scalar(c as u32).len() == utf8_width(c),
{
    char_is_scalar(c);
}

/// The UTF-8 model length agrees with the length of vstd's encoding.
pub proof fn lemma_utf8_len_encode(s: Seq<char>)
    ensures
        encode_utf8(s).len() == utf8_len(s),
    decreases s.len(),
{
    if s.len() > 0 {
        lemma_utf8_len_encode(s.drop_last());
        lemma_encode_utf8_concat(s.drop_last(), seq![s.last()]);
        assert(s.drop_last() + seq![s.last()] == s);
        lemma_encode_scalar_len(s.last());
        assert(seq![s.last()].drop_first() == Seq::<char>::empty());
        assert(encode_utf8(seq![s.last()]) == encode_scalar(s.last() as u32) + encode_utf8(
            Seq::<char>::empty(),
        ));
    }
}

pub proof fn lemma_take_last(s: Seq<char>, k: int)
    requires
        0 <= k < s.len(),
    ensures
        s.take(k + 1).drop_last() == s.take(k),
        s.take(k + 1).last() == s[k],
{
    assert(s.take(k + 1).drop_last() =~= s.take(k));
}

/// UTF-16 prefix lengths grow strictly with the prefix.
pub proof fn lemma_utf16_len_strict(s: Seq<char>, j: int, k: int)
    requires
        0 <= j < k <= s.len(),
    ensures
        utf16_len(s.take(j)) < utf16_len(s.take(k)),
    decreases k - j,
{
    lemma_take_last(s, k - 1);
    if j < k - 1 {
        lemma_utf16_len_strict(s, j, k - 1);
    }
}

/// UTF-8 prefix lengths grow strictly with the prefix.
pub proof fn lemma_utf8_len_strict(s: Seq<char>, j: int, k: int)
    requires
        0 <= j < k <= s.len(),
    ensures
        utf8_len(s.take(j)) < utf8_len(s.take(k)),
    decreases k - j,
{
    lemma_take_last(s, k - 1);
    if j < k - 1 {
        lemma_utf8_len_strict(s, j, k - 1);
    }
}

/// UTF-16 length never exceeds UTF-8 length.
pub proof fn lemma_utf16_le_utf8(s: Seq<char>)
    ensures
        utf16_len(s) <= utf8_len(s),
    decreases s.len(),
{
    if s.len() > 0 {
        lemma_utf16_le_utf8(s.drop_last());
    }
}

/// The character index of a UTF-16 boundary is unique.
pub proof fn lemma_utf16_char_index_unique(s: Seq<char>, k: int)
    requires
        0 <= k <= s.len(),
    ensures
        utf16_char_index(s, utf16_len(s.take(k)) as int) == Some(k),
{
    let t = utf16_len(s.take(k)) as int;
    assert(0 <= k <= s.len() && utf16_len(s.take(k)) == t);
    let c = choose|c: int| 0 <= c <= s.len() && utf16_len(s.take(c)) == t;
    if c < k {
        lemma_utf16_len_strict(s, c, k);
    } else if c > k {
        lemma_utf16_len_strict(s, k, c);
    }
}

/// Later UTF-16 boundaries fall at later characters.
pub proof fn lemma_utf16_char_index_monotone(s: Seq<char>, a: int, b: int)
    requires
        a <= b,
        utf16_char_index(s, a) is Some,
        utf16_char_index(s, b) is Some,
    ensures
        utf16_char_index(s, a)->0 <= utf16_char_index(s, b)->0,
{
    let i = utf16_char_index(s, a)->0;
    let j = utf16_char_index(s, b)->0;
    if j < i {
        lemma_utf16_len_strict(s, j, i);
    }
}

/// Converts a Telegram UTF-16 offset into a byte offset into `text`; `None` when the offset
/// falls inside a character or beyond the end of the text.
pub fn utf16_boundary_to_byte(text: &str, target: usize) -> (res: Option<usize>)
    ensures
        opt_int(res) == utf16_boundary_spec(text@, target as int),
{
    if target == 0 {
        proof {
            assert(text@.take(0).len() == 0);
            lemma_utf16_char_index_unique(text@, 0);
        }
        return Some(0);
    }
    let chars = chars_of(text);
    let n = chars.len();
    let ghost s = text@;
    let total = text.as_bytes().len();
    proof {
        lemma_utf8_len_encode(s);
        assert(total == utf8_len(s));
        lemma_utf16_le_utf8(s);
        assert(s.take(n as int) == s);
    }
    let mut units: usize = 0;
    let mut bytes: usize = 0;
    let mut i: usize = 0;
    while i < n
        invariant
            n == s.len(),
            chars@ == s,
            s == text@,
            i <= n,
            units == utf16_len(s.take(i as int)),
            bytes == utf8_len(s.take(i as int)),
            utf8_len(s) <= usize::MAX,
            utf16_len(s) <= utf8_len(s),
            s.take(n as int) == s,
            forall|j: int| 0 <= j < i ==> utf16_len(s.take(j)) != target,
        decreases n - i,
    {
        if units == target {
            proof {
                lemma_utf16_char_index_unique(s, i as int);
                assert(utf16_char_index(s, target as int) == Some(i as int));
                assert(utf16_boundary_spec(s, target as int) == Some(bytes as int));
            }
            return Some(bytes);
        }
        let c = chars[i];
        proof {
            lemma_take_last(s, i as int);
            if i + 1 < n {
                lemma_utf8_len_strict(s, i + 1, n as int);
                lemma_utf16_len_strict(s, i + 1, n as int);
            }
        }
        let u = c as u32;
        let w16: usize = if u <= 0xFFFF { 1 } else { 2 };
        let w8: usize = if u <= 0x7F { 1 } else if u <= 0x7FF { 2 } else if u <= 0xFFFF { 3 } else { 4 };
        units = units + w16;
        bytes = bytes + w8;
        i = i + 1;
    }
    if units == target {
        proof {
            lemma_utf16_char_index_unique(s, n as int);
        }
        Some(bytes)
    } else {
        proof {
            assert(!(exists|k: int| 0 <= k <= s.len() && utf16_len(s.take(k)) == target));
        }
        None
    }
}

/// The character index of the UTF-16 boundary `target` in `chars`, if there is one.
pub fn utf16_to_char_index(chars: &Vec<char>, target: usize) -> (res: Option<usize>)
    ensures
        opt_int(res) == utf16_char_index(chars@, target as int),
        res matches Some(k) ==> k <= chars@.len(),
{
    let ghost s = chars@;
    let n = chars.len();
    let mut units: u128 = 0;
    let mut i: usize = 0;
    proof {
        assert(s.take(0).len() == 0);
        assert(s.take(n as int) == s);
    }
    while i < n && units < target as u128
        invariant
            n == s.len(),
            chars@ == s,
            i <= n,
            units == utf16_len(s.take(i as int)),
            s.take(n as int) == s,
            forall|j: int| 0 <= j < i ==> utf16_len(s.take(j)) < target,
        decreases n - i,
    {
        let c = chars[i];
        proof {
            lemma_take_last(s, i as int);
        }
        let u = c as u32;
        let w16: u128 = if u <= 0xFFFF { 1 } else { 2 };
        units = units + w16;
        i = i + 1;
    }
    proof {
        lemma_utf16_char_index_unique(s, i as int);
    }
    if units == target as u128 {
        Some(i)
    } else {
        proof {
            assert forall|k: int| 0 <= k <= s.len() implies utf16_len(s.take(k)) != target by {
                if k > i {
                    lemma_utf16_len_strict(s, i as int, k);
                }
            }
        }
        None
    }
}

} // verus!
