//! Telegram custom emoji: the downloaded assets, the display size, and the HTML rendering.
use vstd::prelude::*;

use crate::order::{stable_order, stable_order_by_key};
use crate::outside::{gunzip, gunzip_result, is_json, json_valid};
use crate::text::{
    chars_equal, chars_of, decimal_spec, html_escape_spec, html_unescape_spec, is_whitespace,
    is_whitespace_spec,
    push_all, push_decimal, push_html_escaped, push_str, string_from_chars, subrange_chars,
};
use crate::unicode::{lemma_utf16_char_index_monotone, utf16_char_index, utf16_to_char_index};

verus! {

/// A formatting entity of a Telegram message, with offsets in UTF-16 code units.
pub struct MessageEntity {
    pub kind: String,
    pub offset: usize,
    pub length: usize,
    pub custom_emoji_id: Option<String>,
}

/// A custom emoji file stored in the vault.
pub struct CustomEmojiAsset {
    pub path: String,
    pub vault_path: String,
    pub needs_repainting: bool,
}

/// Custom emoji assets by emoji id.
pub struct EmojiAssets {
    ids: Vec<String>,
    items: Vec<CustomEmojiAsset>,
}

impl EmojiAssets {
    #[verifier::type_invariant]
    spec fn distinct_ids(self) -> bool {
        &&& self.ids@.len() == self.items@.len()
        &&& forall|i: int, j: int|
            0 <= i < self.ids@.len() && 0 <= j < self.ids@.len() && i != j ==> self.ids@[i]@
                != self.ids@[j]@
    }

    spec fn has_id(self, k: Seq<char>) -> bool {
        exists|i: int| 0 <= i < self.ids@.len() && self.ids@[i]@ == k
    }

    spec fn index_of_id(self, k: Seq<char>) -> int {
        choose|i: int| 0 <= i < self.ids@.len() && self.ids@[i]@ == k
    }

    /// The assets as a map from emoji id to asset.
    pub closed spec fn view(&self) -> Map<Seq<char>, CustomEmojiAsset> {
        Map::new(|k: Seq<char>| self.has_id(k), |k: Seq<char>| self.items@[self.index_of_id(k)])
    }

    proof fn lemma_view_is(self, m: Map<Seq<char>, CustomEmojiAsset>)
        requires
            forall|k: Seq<char>| #[trigger] self.has_id(k) == m.contains_key(k),
            forall|k: Seq<char>| #[trigger] self.has_id(k) ==> self.items@[self.index_of_id(k)] == m[k],
        ensures
            self.view() == m,
    {
        assert(self.view() =~= m);
    }

    /// No assets.
    pub fn new() -> (m: Self)
        ensures
            m.view() == Map::<Seq<char>, CustomEmojiAsset>::empty(),
    {
        let m = EmojiAssets { ids: Vec::new(), items: Vec::new() };
        assert(m.view() =~= Map::<Seq<char>, CustomEmojiAsset>::empty());
        m
    }

    fn find(&self, id: &str) -> (res: Option<usize>)
        ensures
            match res {
                Some(i) => i < self.ids@.len() && self.ids@[i as int]@ == id@,
                None => !self.has_id(id@),
            },
    {
        let key = chars_of(id);
        let n = self.ids.len();
        for i in 0..n
            invariant
                n == self.ids@.len(),
                key@ == id@,
                forall|j: int| 0 <= j < i ==> self.ids@[j]@ != id@,
        {
            let candidate = chars_of(self.ids[i].as_str());
            if chars_equal(&candidate, &key) {
                return Some(i);
            }
        }
        None
    }

    /// Whether there is an asset for `id`.
    pub fn contains_key(&self, id: &str) -> (b: bool)
        ensures
            b == self.view().contains_key(id@),
    {
        self.find(id).is_some()
    }

    /// The asset for `id`, if any.
    pub fn get(&self, id: &str) -> (res: Option<&CustomEmojiAsset>)
        ensures
            res is Some == self.view().contains_key(id@),
            res matches Some(a) ==> *a == self.view()[id@],
    {
        proof {
            use_type_invariant(self);
        }
        match self.find(id) {
            Some(i) => {
                proof {
                    let k = self.index_of_id(id@);
                    assert(self.has_id(id@));
                    assert(k == i);
                }
                Some(&self.items[i])
            },
            None => None,
        }
    }

    /// Stores `asset` under `id`, replacing an earlier asset with the same id.
    pub fn insert(&mut self, id: String, asset: CustomEmojiAsset)
        ensures
            final(self).view() == old(self).view().insert(id@, asset),
    {
        proof {
            use_type_invariant(&*self);
        }
        let ghost old_self = *self;
        match self.find(id.as_str()) {
            Some(i) => {
                let mut taken = EmojiAssets { ids: Vec::new(), items: Vec::new() };
                std::mem::swap(self, &mut taken);
                let EmojiAssets { ids, mut items } = taken;
                proof {
                    assert(ids@ == old_self.ids@ && items@ == old_self.items@);
                }
                items.set(i, asset);
                *self = EmojiAssets { ids, items };
                proof {
                    use_type_invariant(&*self);
                    let m = old_self.view().insert(id@, asset);
                    assert forall|k: Seq<char>| #[trigger] self.has_id(k) == m.contains_key(k) by {
                        if self.has_id(k) {
                            let c = self.index_of_id(k);
                            assert(old_self.ids@[c] == self.ids@[c]);
                            if k != id@ {
                                assert(old_self.has_id(k));
                            }
                        }
                        if k == id@ {
                            assert(self.ids@[i as int]@ == k);
                        } else if old_self.has_id(k) {
                            let c = old_self.index_of_id(k);
                            assert(self.ids@[c] == old_self.ids@[c]);
                        }
                    }
                    assert forall|k: Seq<char>| #[trigger] self.has_id(k) implies self.items@[self.index_of_id(k)] == m[k] by {
                        let c = self.index_of_id(k);
                        if k == id@ {
                            assert(self.ids@[i as int]@ == k);
                            assert(c == i);
                        } else {
                            assert(old_self.ids@[c] == self.ids@[c]);
                            assert(old_self.has_id(k));
                            assert(old_self.index_of_id(k) == c);
                            assert(c != i);
                        }
                    }
                    self.lemma_view_is(m);
                }
            },
            None => {
                let ghost key = id@;
                let mut taken = EmojiAssets { ids: Vec::new(), items: Vec::new() };
                std::mem::swap(self, &mut taken);
                let EmojiAssets { mut ids, mut items } = taken;
                proof {
                    assert(ids@ == old_self.ids@ && items@ == old_self.items@);
                    assert(forall|j: int| 0 <= j < ids@.len() ==> ids@[j]@ != key);
                }
                ids.push(id);
                items.push(asset);
                *self = EmojiAssets { ids, items };
                proof {
                    use_type_invariant(&*self);
                    let n = old_self.ids@.len() as int;
                    let m = old_self.view().insert(key, asset);
                    assert(self.ids@[n]@ == key);
                    assert forall|k: Seq<char>| #[trigger] self.has_id(k) == m.contains_key(k) by {
                        if self.has_id(k) {
                            let c = self.index_of_id(k);
                            if k != key {
                                assert(c != n);
                                assert(old_self.ids@[c] == self.ids@[c]);
                                assert(old_self.has_id(k));
                            }
                        }
                        if k == key {
                            assert(self.has_id(k));
                        } else if old_self.has_id(k) {
                            let c = old_self.index_of_id(k);
                            assert(self.ids@[c] == old_self.ids@[c]);
                        }
                    }
                    assert forall|k: Seq<char>| #[trigger] self.has_id(k) implies self.items@[self.index_of_id(k)] == m[k] by {
                        let c = self.index_of_id(k);
                        if k == key {
                            assert(c == n);
                        } else {
                            assert(c != n);
                            assert(old_self.ids@[c] == self.ids@[c]);
                            assert(old_self.has_id(k));
                            assert(old_self.index_of_id(k) == c);
                        }
                    }
                    self.lemma_view_is(m);
                }
            },
        }
    }

    /// The vault paths of all assets, one per emoji id.
    pub fn vault_paths(&self) -> (paths: Vec<String>)
        ensures
            paths@.map_values(|p: String| p@).to_set() == vault_path_set(self.view()),
    {
        proof {
            use_type_invariant(self);
        }
        let mut paths: Vec<String> = Vec::new();
        let n = self.items.len();
        for i in 0..n
            invariant
                n == self.items@.len() == self.ids@.len(),
                paths@.len() == i,
                forall|j: int| 0 <= j < i ==> paths@[j]@ == self.items@[j].vault_path@,
        {
            let p = self.items[i].vault_path.clone();
            paths.push(p);
        }
        proof {
            let ps = paths@.map_values(|p: String| p@);
            let target = vault_path_set(self.view());
            assert forall|p: Seq<char>| #[trigger] ps.to_set().contains(p) == target.contains(p) by {
                if ps.contains(p) {
                    let i = choose|i: int| 0 <= i < ps.len() && ps[i] == p;
                    let k = self.ids@[i]@;
                    assert(self.has_id(k));
                    let c = self.index_of_id(k);
                    assert(c == i);
                    assert(self.view().contains_key(k) && self.view()[k].vault_path@ == p);
                }
                if target.contains(p) {
                    let k = choose|k: Seq<char>| self.view().contains_key(k) && self.view()[k].vault_path@ == p;
                    let c = self.index_of_id(k);
                    assert(ps[c] == p);
                }
            }
            assert(ps.to_set() =~= target);
        }
        paths
    }

    /// The number of assets.
    pub fn len(&self) -> (n: usize)
        ensures
            n == self.view().len(),
    {
        proof {
            use_type_invariant(self);
            let ks = self.view().dom();
            let ids = self.ids@.map_values(|s: String| s@);
            assert forall|k: Seq<char>| #[trigger] ks.contains(k) == ids.to_set().contains(k) by {
                if self.has_id(k) {
                    let c = self.index_of_id(k);
                    assert(ids[c] == k);
                }
                if ids.contains(k) {
                    let c = choose|c: int| 0 <= c < ids.len() && ids[c] == k;
                    assert(self.ids@[c]@ == k);
                }
            }
            assert(ks =~= ids.to_set());
            assert(ids.no_duplicates());
            ids.unique_seq_to_set();
        }
        self.ids.len()
    }
}

/// The vault paths of the assets in `m`.
pub open spec fn vault_path_set(m: Map<Seq<char>, CustomEmojiAsset>) -> Set<Seq<char>> {
    Set::new(|p: Seq<char>| exists|k: Seq<char>| m.contains_key(k) && m[k].vault_path@ == p)
}

/// The entity is a custom emoji.
pub open spec fn is_custom_emoji(e: MessageEntity) -> bool {
    e.kind@ == "custom_emoji"@
}

/// The entity is a custom emoji whose asset is known.
pub open spec fn has_asset(e: MessageEntity, assets: Map<Seq<char>, CustomEmojiAsset>) -> bool {
    &&& is_custom_emoji(e)
    &&& e.custom_emoji_id is Some
    &&& assets.contains_key(e.custom_emoji_id->0@)
}

/// How many entities are custom emoji with a known asset.
pub open spec fn count_with_assets(
    es: Seq<MessageEntity>,
    assets: Map<Seq<char>, CustomEmojiAsset>,
) -> nat
    decreases es.len(),
{
    if es.len() == 0 {
        0
    } else {
        count_with_assets(es.drop_last(), assets) + if has_asset(es.last(), assets) {
            1nat
        } else {
            0nat
        }
    }
}

/// The character range that an entity covers, if both of its ends fall on character boundaries.
pub open spec fn entity_char_range(text: Seq<char>, e: MessageEntity) -> Option<(int, int)> {
    match (
        utf16_char_index(text, e.offset as int),
        utf16_char_index(text, e.offset + e.length),
    ) {
        (Some(s), Some(t)) => Some((s, t)),
        _ => None,
    }
}

/// The character ranges of the custom emoji with a known asset, in entity order.
pub open spec fn emoji_ranges(
    text: Seq<char>,
    es: Seq<MessageEntity>,
    assets: Map<Seq<char>, CustomEmojiAsset>,
) -> Seq<(int, int)>
    decreases es.len(),
{
    if es.len() == 0 {
        Seq::<(int, int)>::empty()
    } else {
        let r = emoji_ranges(text, es.drop_last(), assets);
        if has_asset(es.last(), assets) && entity_char_range(text, es.last()) is Some {
            r.push(entity_char_range(text, es.last())->0)
        } else {
            r
        }
    }
}

/// No two ranges overlap: taken in order of their start, each begins at or after the end of
/// the one before it.
pub open spec fn ranges_disjoint(rs: Seq<(int, int)>) -> bool {
    forall|a: int, b: int|
        0 <= a < rs.len() && 0 <= b < rs.len() && a != b ==> rs[b].0 >= rs[a].1 || rs[a].0
            >= rs[b].1
}

/// Character `j` lies inside one of the ranges.
pub open spec fn covered(rs: Seq<(int, int)>, j: int) -> bool {
    exists|a: int| 0 <= a < rs.len() && (#[trigger] rs[a]).0 <= j < rs[a].1
}

/// The text has a non-white-space character outside all ranges.
pub open spec fn has_text_outside(text: Seq<char>, rs: Seq<(int, int)>) -> bool {
    exists|j: int| 0 <= j < text.len() && !is_whitespace_spec(text[j]) && !covered(rs, j)
}

/// The custom emoji with a known asset whose start resolves have an end offset that fits `usize`.
pub open spec fn emoji_ends_fit(
    text: Seq<char>,
    es: Seq<MessageEntity>,
    assets: Map<Seq<char>, CustomEmojiAsset>,
) -> bool {
    forall|i: int|
        0 <= i < es.len() && has_asset(es[i], assets) && utf16_char_index(
            text,
            es[i].offset as int,
        ) is Some ==> es[i].offset + es[i].length <= usize::MAX
}

/// The smallest `k >= from` with `112 / sqrt(n) < k + 1/2`, that is `(2k + 1)^2 * n > 4 * 112^2`
/// (searched up to 300).
pub open spec fn rounded_from(n: int, from: int) -> int
    decreases 300 - from,
{
    if from >= 300 || 50176 < (2 * from + 1) * (2 * from + 1) * n {
        from
    } else {
        rounded_from(n, from + 1)
    }
}

/// `x` limited to `lo..=hi`.
pub open spec fn clamp_spec(x: int, lo: int, hi: int) -> int {
    if x < lo {
        lo
    } else if x > hi {
        hi
    } else {
        x
    }
}

/// The emoji size for a message made of `n >= 2` custom emoji and white space: `112 / sqrt(n)`
/// rounded to the nearest integer and limited to `42..=84`.
pub open spec fn emoji_only_size(n: int) -> int {
    clamp_spec(rounded_from(n, 0), 42, 84)
}

/// The pixel size of the custom emoji in a message: 22 next to text, 96 for a lone emoji, and
/// smaller as more emoji stand alone.
pub open spec fn custom_emoji_size_spec(
    text: Seq<char>,
    es: Seq<MessageEntity>,
    assets: Map<Seq<char>, CustomEmojiAsset>,
) -> int {
    let n = count_with_assets(es, assets);
    if n == 0 {
        22
    } else if has_text_outside(text, emoji_ranges(text, es, assets)) {
        22
    } else if n == 1 {
        96
    } else {
        emoji_only_size(n as int)
    }
}

fn odd_square_times(k: u64, m: u64) -> (r: u64)
    requires
        k < 300,
        m <= 50176,
    ensures
        r == (2 * k + 1) * (2 * k + 1) * m,
{
    assert((2 * k + 1) * (2 * k + 1) * m <= 601 * 601 * 50176) by (nonlinear_arith)
        requires
            k < 300,
            m <= 50176,
    ;
    assert((2 * k + 1) * (2 * k + 1) <= 601 * 601) by (nonlinear_arith)
        requires
            k < 300,
    ;
    (2 * k + 1) * (2 * k + 1) * m
}

fn emoji_only_size_exec(n: usize) -> (size: u32)
    requires
        n >= 2,
    ensures
        size == emoji_only_size(n as int),
{
    if n > 50176 {
        assert((2 * 0 + 1) * (2 * 0 + 1) * (n as int) == n as int);
        assert(rounded_from(n as int, 0) == 0);
        return 42;
    }
    let m = n as u64;
    let mut k: u64 = 0;
    while k < 300 && odd_square_times(k, m) <= 50176
        invariant
            k <= 300,
            2 <= m <= 50176,
            m == n,
            rounded_from(n as int, 0) == rounded_from(n as int, k as int),
        decreases 300 - k,
    {
        k = k + 1;
    }
    if k < 42 {
        42
    } else if k > 84 {
        84
    } else {
        k as u32
    }
}

/// Whether `text` holds the literal `custom_emoji`.
fn is_custom_kind(kind: &String) -> (b: bool)
    ensures
        b == (kind@ == "custom_emoji"@),
{
    let k = chars_of(kind.as_str());
    let lit = chars_of("custom_emoji");
    chars_equal(&k, &lit)
}

/// Whether character `j` lies in one of `ranges`.
fn is_covered(ranges: &Vec<(usize, usize)>, j: usize) -> (b: bool)
    ensures
        b == covered(ranges@.map_values(|r: (usize, usize)| (r.0 as int, r.1 as int)), j as int),
{
    let ghost rs = ranges@.map_values(|r: (usize, usize)| (r.0 as int, r.1 as int));
    let n = ranges.len();
    for a in 0..n
        invariant
            n == ranges@.len(),
            rs == ranges@.map_values(|r: (usize, usize)| (r.0 as int, r.1 as int)),
            forall|b: int| 0 <= b < a ==> !((#[trigger] rs[b]).0 <= j < rs[b].1),
    {
        let (s, t) = ranges[a];
        if s <= j && j < t {
            assert(rs[a as int].0 <= j < rs[a as int].1);
            return true;
        }
    }
    false
}

/// The pixel size at which the custom emoji of a message are shown.
pub fn custom_emoji_size(text: &str, entities: &[MessageEntity], assets: &EmojiAssets) -> (size: u32)
    requires
        emoji_ends_fit(text@, entities@, assets.view()),
        ranges_disjoint(emoji_ranges(text@, entities@, assets.view())),
    ensures
        size == custom_emoji_size_spec(text@, entities@, assets.view()),
{
    let chars = chars_of(text);
    let ghost m = assets.view();
    let ghost es = entities@;
    let n = entities.len();
    let mut count: usize = 0;
    let mut ranges: Vec<(usize, usize)> = Vec::new();
    for i in 0..n
        invariant
            n == es.len(),
            es == entities@,
            m == assets.view(),
            chars@ == text@,
            count == count_with_assets(es.take(i as int), m),
            count <= i,
            emoji_ends_fit(text@, es, m),
            ranges@.map_values(|r: (usize, usize)| (r.0 as int, r.1 as int)) == emoji_ranges(
                text@,
                es.take(i as int),
                m,
            ),
    {
        let e = &entities[i];
        proof {
            assert(es.take(i + 1).drop_last() == es.take(i as int));
            assert(es.take(i + 1).last() == es[i as int]);
        }
        let ghost before = ranges@;
        if is_custom_kind(&e.kind) {
            match &e.custom_emoji_id {
                Some(id) => {
                    if assets.contains_key(id.as_str()) {
                        count = count + 1;
                        match utf16_to_char_index(&chars, e.offset) {
                            Some(s) => {
                                assert(e.offset + e.length <= usize::MAX);
                                match utf16_to_char_index(&chars, e.offset + e.length) {
                                    Some(t) => {
                                        ranges.push((s, t));
                                        assert(ranges@.map_values(
                                            |r: (usize, usize)| (r.0 as int, r.1 as int),
                                        ) =~= before.map_values(
                                            |r: (usize, usize)| (r.0 as int, r.1 as int),
                                        ).push((s as int, t as int)));
                                    },
                                    None => {},
                                }
                            },
                            None => {},
                        }
                    }
                },
                None => {},
            }
        }
    }
    proof {
        assert(es.take(n as int) == es);
    }
    if count == 0 {
        return 22;
    }
    let ghost rs = emoji_ranges(text@, es, m);
    let len = chars.len();
    let mut has_text = false;
    for j in 0..len
        invariant
            len == chars@.len(),
            chars@ == text@,
            rs == ranges@.map_values(|r: (usize, usize)| (r.0 as int, r.1 as int)),
            has_text == exists|k: int|
                0 <= k < j && !is_whitespace_spec(text@[k]) && !covered(rs, k),
    {
        if !is_whitespace(chars[j]) && !is_covered(&ranges, j) {
            has_text = true;
        }
    }
    if has_text {
        22
    } else if count == 1 {
        96
    } else {
        emoji_only_size_exec(count)
    }
}

/// Indices of the custom emoji entities, in entity order.
pub open spec fn custom_indices(es: Seq<MessageEntity>) -> Seq<usize>
    decreases es.len(),
{
    if es.len() == 0 {
        Seq::<usize>::empty()
    } else {
        let r = custom_indices(es.drop_last());
        if is_custom_emoji(es.last()) {
            r.push((es.len() - 1) as usize)
        } else {
            r
        }
    }
}

/// The offsets of the entities at `idx`, as sort keys.
pub open spec fn offset_keys(es: Seq<MessageEntity>, idx: Seq<usize>) -> Seq<i128> {
    idx.map_values(|i: usize| es[i as int].offset as i128)
}

/// The custom emoji entities, stably sorted by offset.
pub open spec fn render_order(es: Seq<MessageEntity>) -> Seq<MessageEntity> {
    let idx = custom_indices(es);
    stable_order(offset_keys(es, idx)).map_values(|o: usize| es[idx[o as int] as int])
}

/// The HTML element that shows one custom emoji.
pub open spec fn emoji_span_spec(
    id: Seq<char>,
    asset: CustomEmojiAsset,
    size: int,
    inner: Seq<char>,
) -> Seq<char> {
    "<span class=\"tg-custom-emoji\" data-tg-id=\""@ + html_escape_spec(id)
        + "\" data-tg-src=\""@ + html_escape_spec(asset.vault_path@) + "\" data-tg-size=\""@
        + decimal_spec(size) + "\" data-tg-repaint=\""@ + (if asset.needs_repainting {
        "1"@
    } else {
        "0"@
    }) + "\">"@ + html_escape_spec(inner) + "</span>"@
}

/// One step of the rendering: the output so far and the character index up to which the text
/// has been copied, after entity `e`.
pub open spec fn render_step(
    text: Seq<char>,
    assets: Map<Seq<char>, CustomEmojiAsset>,
    size: int,
    acc: (Seq<char>, int),
    e: MessageEntity,
) -> (Seq<char>, int) {
    match entity_char_range(text, e) {
        None => acc,
        Some(range) => {
            let (start, end) = range;
            if start < acc.1 {
                acc
            } else {
                match e.custom_emoji_id {
                    None => acc,
                    Some(id) => if assets.contains_key(id@) {
                        (
                            acc.0 + text.subrange(acc.1, start) + emoji_span_spec(
                                id@,
                                assets[id@],
                                size,
                                text.subrange(start, end),
                            ),
                            end,
                        )
                    } else {
                        acc
                    },
                }
            }
        },
    }
}

/// The rendering state after the entities `es`, in order.
pub open spec fn render_fold(
    text: Seq<char>,
    es: Seq<MessageEntity>,
    assets: Map<Seq<char>, CustomEmojiAsset>,
    size: int,
) -> (Seq<char>, int)
    decreases es.len(),
{
    if es.len() == 0 {
        (Seq::<char>::empty(), 0)
    } else {
        render_step(text, assets, size, render_fold(text, es.drop_last(), assets, size), es.last())
    }
}

/// The text with each custom emoji that has an asset replaced by its HTML element; custom emoji
/// are taken in order of offset, and one that starts before the end of the previous replaced
/// one is left as text.
pub open spec fn render_custom_emoji_spec(
    text: Seq<char>,
    es: Seq<MessageEntity>,
    assets: Map<Seq<char>, CustomEmojiAsset>,
    size: int,
) -> Seq<char> {
    let acc = render_fold(text, render_order(es), assets, size);
    acc.0 + text.skip(acc.1)
}

/// The custom emoji whose start resolves have an end offset that fits `usize`.
pub open spec fn custom_ends_fit(text: Seq<char>, es: Seq<MessageEntity>) -> bool {
    forall|i: int|
        0 <= i < es.len() && is_custom_emoji(es[i]) && utf16_char_index(text, es[i].offset as int)
            is Some ==> es[i].offset + es[i].length <= usize::MAX
}

fn push_emoji_span(
    out: &mut Vec<char>,
    id: &String,
    asset: &CustomEmojiAsset,
    size: u32,
    inner: &Vec<char>,
)
    ensures
        final(out)@ == old(out)@ + emoji_span_spec(id@, *asset, size as int, inner@),
{
    push_str(out, "<span class=\"tg-custom-emoji\" data-tg-id=\"");
    let idc = chars_of(id.as_str());
    push_html_escaped(out, &idc);
    push_str(out, "\" data-tg-src=\"");
    let src = chars_of(asset.vault_path.as_str());
    push_html_escaped(out, &src);
    push_str(out, "\" data-tg-size=\"");
    push_decimal(out, size as i64);
    push_str(out, "\" data-tg-repaint=\"");
    if asset.needs_repainting {
        push_str(out, "1");
    } else {
        push_str(out, "0");
    }
    push_str(out, "\">");
    push_html_escaped(out, inner);
    push_str(out, "</span>");
    assert(out@ =~= old(out)@ + emoji_span_spec(id@, *asset, size as int, inner@));
}

/// Replaces the custom emoji of a message text by HTML elements that show their assets.
pub fn render_custom_emoji(
    text: &str,
    entities: &[MessageEntity],
    assets: &EmojiAssets,
    size: u32,
) -> (out: String)
    requires
        custom_ends_fit(text@, entities@),
    ensures
        out@ == render_custom_emoji_spec(text@, entities@, assets.view(), size as int),
{
    let chars = chars_of(text);
    let ghost es = entities@;
    let ghost m = assets.view();
    let n = entities.len();
    let mut idx: Vec<usize> = Vec::new();
    let mut keys: Vec<i128> = Vec::new();
    for i in 0..n
        invariant
            n == es.len(),
            es == entities@,
            idx@ == custom_indices(es.take(i as int)),
            keys@ == offset_keys(es, idx@),
            forall|j: int| 0 <= j < idx@.len() ==> idx@[j] < i,
    {
        proof {
            assert(es.take(i + 1).drop_last() == es.take(i as int));
            assert(es.take(i + 1).last() == es[i as int]);
        }
        if is_custom_kind(&entities[i].kind) {
            idx.push(i);
            keys.push(entities[i].offset as i128);
            assert(keys@ =~= offset_keys(es, idx@));
        }
    }
    proof {
        assert(es.take(n as int) == es);
    }
    let order = stable_order_by_key(&keys);
    let ghost ro = render_order(es);
    let mut out: Vec<char> = Vec::new();
    let mut cursor: usize = 0;
    let len = chars.len();
    let count = order.len();
    for k in 0..count
        invariant
            count == order@.len() == idx@.len(),
            es == entities@,
            m == assets.view(),
            chars@ == text@,
            len == chars@.len(),
            idx@ == custom_indices(es),
            order@ == stable_order(offset_keys(es, idx@)),
            forall|j: int| 0 <= j < order@.len() ==> order@[j] < idx@.len(),
            forall|j: int| 0 <= j < idx@.len() ==> idx@[j] < es.len(),
            ro == render_order(es),
            ro.len() == count,
            custom_ends_fit(text@, es),
            cursor <= len,
            (out@, cursor as int) == render_fold(text@, ro.take(k as int), m, size as int),
    {
        let j = idx[order[k]];
        let e = &entities[j];
        proof {
            assert(ro[k as int] == es[j as int]);
            assert(ro.take(k + 1).drop_last() == ro.take(k as int));
            assert(ro.take(k + 1).last() == es[j as int]);
            lemma_custom_index(es, idx@.len() as int, order@[k as int] as int);
        }
        match utf16_to_char_index(&chars, e.offset) {
            None => {},
            Some(start) => {
                assert(e.offset + e.length <= usize::MAX);
                match utf16_to_char_index(&chars, e.offset + e.length) {
                    None => {},
                    Some(end) => {
                        proof {
                            lemma_utf16_char_index_monotone(
                                text@,
                                e.offset as int,
                                e.offset + e.length,
                            );
                        }
                        if start >= cursor {
                            match &e.custom_emoji_id {
                                None => {},
                                Some(id) => {
                                    match assets.get(id.as_str()) {
                                        None => {},
                                        Some(asset) => {
                                            let before = subrange_chars(&chars, cursor, start);
                                            push_all(&mut out, &before);
                                            let inner = subrange_chars(&chars, start, end);
                                            push_emoji_span(&mut out, id, asset, size, &inner);
                                            cursor = end;
                                        },
                                    }
                                },
                            }
                        }
                    },
                }
            },
        }
    }
    proof {
        assert(ro.take(count as int) == ro);
    }
    let rest = subrange_chars(&chars, cursor, len);
    push_all(&mut out, &rest);
    string_from_chars(&out)
}

proof fn lemma_custom_index(es: Seq<MessageEntity>, n: int, o: int)
    requires
        n == custom_indices(es).len(),
        0 <= o < n,
        es.len() <= usize::MAX,
    ensures
        is_custom_emoji(es[custom_indices(es)[o] as int]),
        custom_indices(es)[o] < es.len(),
    decreases es.len(),
{
    if es.len() > 0 {
        let r = custom_indices(es.drop_last());
        if o < r.len() {
            lemma_custom_index(es.drop_last(), r.len() as int, o);
            assert(es.drop_last()[r[o] as int] == es[r[o] as int]);
            if is_custom_emoji(es.last()) {
                assert(custom_indices(es)[o] == r[o]);
            }
        } else {
            assert(is_custom_emoji(es.last()));
            assert(custom_indices(es)[o] == es.len() - 1);
        }
    }
}

/// The custom emoji ids of the entities, each once, in order of first appearance.
pub open spec fn custom_emoji_ids_spec(es: Seq<MessageEntity>) -> Seq<Seq<char>>
    decreases es.len(),
{
    if es.len() == 0 {
        Seq::<Seq<char>>::empty()
    } else {
        let r = custom_emoji_ids_spec(es.drop_last());
        let e = es.last();
        if is_custom_emoji(e) && e.custom_emoji_id is Some && !r.contains(e.custom_emoji_id->0@) {
            r.push(e.custom_emoji_id->0@)
        } else {
            r
        }
    }
}

/// The custom emoji ids that a message uses, without repeats.
pub fn collect_custom_emoji_ids(entities: &[MessageEntity]) -> (ids: Vec<String>)
    ensures
        ids@.map_values(|s: String| s@) == custom_emoji_ids_spec(entities@),
{
    let n = entities.len();
    let ghost es = entities@;
    let mut ids: Vec<String> = Vec::new();
    for i in 0..n
        invariant
            n == es.len(),
            es == entities@,
            ids@.map_values(|s: String| s@) == custom_emoji_ids_spec(es.take(i as int)),
    {
        proof {
            assert(es.take(i + 1).drop_last() == es.take(i as int));
            assert(es.take(i + 1).last() == es[i as int]);
        }
        let e = &entities[i];
        if is_custom_kind(&e.kind) {
            match &e.custom_emoji_id {
                Some(id) => {
                    let ghost views = ids@.map_values(|s: String| s@);
                    let m = ids.len();
                    let mut seen = false;
                    for j in 0..m
                        invariant
                            m == ids@.len(),
                            views == ids@.map_values(|s: String| s@),
                            seen == exists|k: int| 0 <= k < j && views[k] == id@,
                    {
                        assert(views[j as int] == ids@[j as int]@);
                        if ids[j] == *id {
                            seen = true;
                        }
                    }
                    if !seen {
                        ids.push(id.clone());
                        assert(ids@.map_values(|s: String| s@) =~= views.push(id@));
                    }
                },
                None => {},
            }
        }
    }
    proof {
        assert(es.take(n as int) == es);
    }
    ids
}

/// A custom emoji sticker as the Bot API describes it.
pub struct CustomEmojiSticker {
    pub file_id: String,
    pub is_animated: bool,
    pub is_video: bool,
    pub emoji: Option<String>,
    pub custom_emoji_id: Option<String>,
    pub needs_repainting: Option<bool>,
}

/// How one custom emoji sticker is stored in the emoji directory of the vault.
pub struct EmojiPlan {
    pub id: String,
    pub file_id: String,
    /// The file the sticker is downloaded to.
    pub download_name: String,
    /// For an animated sticker, the Lottie JSON file unpacked from it, which notes show.
    pub json_name: Option<String>,
    pub needs_repainting: bool,
}

/// The vault directory of custom emoji.
pub open spec fn emoji_dir_spec() -> Seq<char> {
    "Универ/Вложения/telegram-emoji"@
}

/// The vault directory of custom emoji.
pub fn emoji_dir() -> (dir: String)
    ensures
        dir@ == emoji_dir_spec(),
{
    let v = chars_of("Универ/Вложения/telegram-emoji");
    string_from_chars(&v)
}

/// The id a returned sticker is stored under: its own, else the id asked for at its position.
pub open spec fn sticker_emoji_id(s: CustomEmojiSticker, index: int, ids: Seq<Seq<char>>) -> Option<
    Seq<char>,
> {
    match s.custom_emoji_id {
        Some(id) => Some(id@),
        None => if 0 <= index < ids.len() {
            Some(ids[index])
        } else {
            None
        },
    }
}

/// The extension of a custom emoji file.
pub open spec fn emoji_extension_spec(s: CustomEmojiSticker) -> Seq<char> {
    if s.is_video {
        "webm"@
    } else if s.is_animated {
        "tgs"@
    } else {
        "webp"@
    }
}

/// The plan for the sticker at `index` of the reply, or `None` when it has no id.
pub open spec fn emoji_plan_ok(
    p: Option<EmojiPlan>,
    s: CustomEmojiSticker,
    index: int,
    ids: Seq<Seq<char>>,
) -> bool {
    match sticker_emoji_id(s, index, ids) {
        None => p is None,
        Some(id) => p matches Some(plan) && {
            &&& plan.id@ == id
            &&& plan.file_id@ == s.file_id@
            &&& plan.download_name@ == id + "."@ + emoji_extension_spec(s)
            &&& if s.is_animated && !s.is_video {
                plan.json_name matches Some(j) && j@ == id + ".json"@
            } else {
                plan.json_name is None
            }
            &&& plan.needs_repainting == match s.needs_repainting {
                Some(b) => b,
                None => false,
            }
        },
    }
}

/// Plans how the sticker at `index` of the Bot API reply is stored; `ids` are the ids that were
/// asked for.
pub fn plan_emoji_sticker(sticker: &CustomEmojiSticker, index: usize, ids: &Vec<String>) -> (plan:
    Option<EmojiPlan>)
    ensures
        emoji_plan_ok(plan, *sticker, index as int, ids@.map_values(|s: String| s@)),
{
    let id = match &sticker.custom_emoji_id {
        Some(id) => id.clone(),
        None => {
            if index < ids.len() {
                ids[index].clone()
            } else {
                return None;
            }
        },
    };
    let ext = if sticker.is_video {
        "webm"
    } else if sticker.is_animated {
        "tgs"
    } else {
        "webp"
    };
    let mut download: Vec<char> = Vec::new();
    push_str(&mut download, id.as_str());
    push_str(&mut download, ".");
    push_str(&mut download, ext);
    let json_name = if !sticker.is_video && sticker.is_animated {
        let mut j: Vec<char> = Vec::new();
        push_str(&mut j, id.as_str());
        push_str(&mut j, ".json");
        Some(string_from_chars(&j))
    } else {
        None
    };
    let needs_repainting = match sticker.needs_repainting {
        Some(b) => b,
        None => false,
    };
    Some(
        EmojiPlan {
            id,
            file_id: sticker.file_id.clone(),
            download_name: string_from_chars(&download),
            json_name,
            needs_repainting,
        },
    )
}

/// The inputs on which the size and the rendering of custom emoji are defined: no end offset
/// overflows, and the emoji with assets do not overlap.
pub open spec fn emoji_layout_ok_spec(
    text: Seq<char>,
    es: Seq<MessageEntity>,
    assets: Map<Seq<char>, CustomEmojiAsset>,
) -> bool {
    &&& custom_ends_fit(text, es)
    &&& emoji_ends_fit(text, es, assets)
    &&& ranges_disjoint(emoji_ranges(text, es, assets))
}

/// Whether the custom emoji of a message can be sized and rendered.
pub fn emoji_layout_ok(text: &str, entities: &[MessageEntity], assets: &EmojiAssets) -> (ok: bool)
    ensures
        ok == emoji_layout_ok_spec(text@, entities@, assets.view()),
{
    let chars = chars_of(text);
    let ghost m = assets.view();
    let ghost es = entities@;
    let n = entities.len();
    let mut ranges: Vec<(usize, usize)> = Vec::new();
    for i in 0..n
        invariant
            n == es.len(),
            es == entities@,
            m == assets.view(),
            chars@ == text@,
            forall|j: int|
                0 <= j < i && is_custom_emoji(es[j]) && utf16_char_index(text@, es[j].offset as int)
                    is Some ==> es[j].offset + es[j].length <= usize::MAX,
            ranges@.map_values(|r: (usize, usize)| (r.0 as int, r.1 as int)) == emoji_ranges(
                text@,
                es.take(i as int),
                m,
            ),
    {
        let e = &entities[i];
        proof {
            assert(es.take(i + 1).drop_last() == es.take(i as int));
            assert(es.take(i + 1).last() == es[i as int]);
        }
        let ghost before = ranges@;
        if is_custom_kind(&e.kind) {
            match utf16_to_char_index(&chars, e.offset) {
                Some(s) => {
                    if e.length > usize::MAX - e.offset {
                        proof {
                            assert(!custom_ends_fit(text@, es));
                        }
                        return false;
                    }
                    let has = match &e.custom_emoji_id {
                        Some(id) => assets.contains_key(id.as_str()),
                        None => false,
                    };
                    if has {
                        match utf16_to_char_index(&chars, e.offset + e.length) {
                            Some(t) => {
                                ranges.push((s, t));
                                assert(ranges@.map_values(
                                    |r: (usize, usize)| (r.0 as int, r.1 as int),
                                ) =~= before.map_values(
                                    |r: (usize, usize)| (r.0 as int, r.1 as int),
                                ).push((s as int, t as int)));
                            },
                            None => {},
                        }
                    }
                },
                None => {},
            }
        }
    }
    proof {
        assert(es.take(n as int) == es);
        assert(custom_ends_fit(text@, es));
        assert(emoji_ends_fit(text@, es, m));
    }
    let ghost rs = emoji_ranges(text@, es, m);
    let k = ranges.len();
    for a in 0..k
        invariant
            k == ranges@.len(),
            rs == ranges@.map_values(|r: (usize, usize)| (r.0 as int, r.1 as int)),
            rs == emoji_ranges(text@, entities@, assets.view()),
            es == entities@,
            m == assets.view(),
            custom_ends_fit(text@, es),
            emoji_ends_fit(text@, es, m),
            forall|x: int, y: int|
                0 <= x < a && 0 <= y < k && x != y ==> (#[trigger] rs[y]).0 >= (#[trigger] rs[x]).1
                    || rs[x].0 >= rs[y].1,
    {
        for b in 0..k
            invariant
                k == ranges@.len(),
                a < k,
                rs == ranges@.map_values(|r: (usize, usize)| (r.0 as int, r.1 as int)),
                rs == emoji_ranges(text@, entities@, assets.view()),
                forall|x: int, y: int|
                    0 <= x < a && 0 <= y < k && x != y ==> (#[trigger] rs[y]).0 >= (
                    #[trigger] rs[x]).1 || rs[x].0 >= rs[y].1,
                forall|y: int|
                    0 <= y < b && a != y ==> (#[trigger] rs[y]).0 >= rs[a as int].1 || rs[a as int].0
                        >= rs[y].1,
        {
            if a != b {
                let (s1, t1) = ranges[a];
                let (s2, t2) = ranges[b];
                if !(s2 >= t1 || s1 >= t2) {
                    assert(rs[a as int] == (s1 as int, t1 as int));
                    assert(rs[b as int] == (s2 as int, t2 as int));
                    assert(!(rs[b as int].0 >= rs[a as int].1 || rs[a as int].0 >= rs[b as int].1));
                    assert(!ranges_disjoint(rs));
                    return false;
                }
            }
        }
    }
    true
}

/// Why a `.tgs` sticker gave no Lottie JSON.
pub enum TgsError {
    /// The file is not valid gzip.
    NotGzip,
    /// The unpacked content is not JSON.
    NotJson,
}

/// The outcome of unpacking a `.tgs` file, given what the gzip decoder gave.
pub open spec fn lottie_outcome_spec(unzipped: Option<Seq<u8>>) -> Result<Seq<u8>, TgsError> {
    match unzipped {
        None => Err(TgsError::NotGzip),
        Some(v) => if json_valid(v) {
            Ok(v)
        } else {
            Err(TgsError::NotJson)
        },
    }
}

/// The result view of an unpacking.
pub open spec fn tgs_view(r: Result<Vec<u8>, TgsError>) -> Result<Seq<u8>, TgsError> {
    match r {
        Ok(v) => Ok(v@),
        Err(e) => Err(e),
    }
}

/// Accepts the bytes a gzip decoder gave for a `.tgs` file when they are JSON.
pub fn accept_lottie(unzipped: Option<Vec<u8>>) -> (r: Result<Vec<u8>, TgsError>)
    ensures
        tgs_view(r) == lottie_outcome_spec(
            match unzipped {
                Some(v) => Some(v@),
                None => None,
            },
        ),
{
    match unzipped {
        None => Err(TgsError::NotGzip),
        Some(v) => {
            if is_json(v.as_slice()) {
                Ok(v)
            } else {
                Err(TgsError::NotJson)
            }
        },
    }
}

/// Unpacks an animated sticker (`.tgs`, gzip-compressed Lottie JSON) into its JSON.
pub fn decode_tgs(compressed: &[u8]) -> (r: Result<Vec<u8>, TgsError>)
    ensures
        tgs_view(r) == lottie_outcome_spec(gunzip_result(compressed@)),
{
    let unzipped = gunzip(compressed);
    accept_lottie(unzipped)
}

/// Custom emoji are shown at 22 pixels next to text, 96 alone, and between 42 and 84 pixels in
/// a message made only of several custom emoji.
pub proof fn lemma_custom_emoji_size_range(
    text: Seq<char>,
    es: Seq<MessageEntity>,
    assets: Map<Seq<char>, CustomEmojiAsset>,
)
    ensures
        ({
            let size = custom_emoji_size_spec(text, es, assets);
            size == 22 || size == 96 || 42 <= size <= 84
        }),
{
}

proof fn lemma_custom_indices_props(es: Seq<MessageEntity>)
    requires
        es.len() <= usize::MAX,
    ensures
        custom_indices(es).len() <= es.len(),
        forall|k: int|
            0 <= k < custom_indices(es).len() ==> (#[trigger] custom_indices(es)[k]) < es.len()
                && is_custom_emoji(es[custom_indices(es)[k] as int]),
    decreases es.len(),
{
    if es.len() > 0 {
        let d = es.drop_last();
        lemma_custom_indices_props(d);
        let r = custom_indices(d);
        assert forall|k: int| 0 <= k < custom_indices(es).len() implies (#[trigger] custom_indices(
            es,
        )[k]) < es.len() && is_custom_emoji(es[custom_indices(es)[k] as int]) by {
            if k < r.len() {
                assert(custom_indices(es)[k] == r[k]);
                assert(d[r[k] as int] == es[r[k] as int]);
            } else {
                assert(custom_indices(es)[k] == (es.len() - 1) as usize);
            }
        }
    }
}

/// The entity's custom emoji id has an asset.
pub open spec fn id_has_asset(e: MessageEntity, assets: Map<Seq<char>, CustomEmojiAsset>) -> bool {
    e.custom_emoji_id matches Some(id) && assets.contains_key(id@)
}

proof fn lemma_fold_without_assets(
    text: Seq<char>,
    rs: Seq<MessageEntity>,
    assets: Map<Seq<char>, CustomEmojiAsset>,
    size: int,
)
    requires
        forall|k: int| 0 <= k < rs.len() ==> !id_has_asset(#[trigger] rs[k], assets),
    ensures
        render_fold(text, rs, assets, size) == (Seq::<char>::empty(), 0int),
    decreases rs.len(),
{
    if rs.len() > 0 {
        lemma_fold_without_assets(text, rs.drop_last(), assets, size);
        assert(!id_has_asset(rs[rs.len() - 1], assets));
    }
}

/// When no custom emoji entity has an asset (in particular when there is none), the text is
/// rendered unchanged and unescaped.
pub proof fn lemma_render_without_assets(
    text: Seq<char>,
    es: Seq<MessageEntity>,
    assets: Map<Seq<char>, CustomEmojiAsset>,
    size: int,
)
    requires
        es.len() <= usize::MAX,
        forall|i: int| 0 <= i < es.len() ==> !has_asset(#[trigger] es[i], assets),
    ensures
        render_custom_emoji_spec(text, es, assets, size) == text,
{
    let idx = custom_indices(es);
    lemma_custom_indices_props(es);
    let keys = offset_keys(es, idx);
    crate::order::lemma_stable_order_sorted(keys);
    let order = stable_order(keys);
    let rs = render_order(es);
    assert forall|k: int| 0 <= k < rs.len() implies !id_has_asset(#[trigger] rs[k], assets) by {
        let o = order[k];
        assert(o < idx.len());
        let j = idx[o as int];
        assert(rs[k] == es[j as int]);
        assert(!has_asset(es[j as int], assets));
        assert(is_custom_emoji(es[j as int]));
    }
    lemma_fold_without_assets(text, rs, assets, size);
    assert(text.skip(0) =~= text);
}

/// One step of collecting the replaced custom emoji: the character ranges and ids collected so
/// far and the index up to which the text is passed, after entity `e` (as `render_step`).
pub open spec fn span_step(
    text: Seq<char>,
    assets: Map<Seq<char>, CustomEmojiAsset>,
    acc: (Seq<(int, int, Seq<char>)>, int),
    e: MessageEntity,
) -> (Seq<(int, int, Seq<char>)>, int) {
    match entity_char_range(text, e) {
        None => acc,
        Some(range) => {
            let (start, end) = range;
            if start < acc.1 {
                acc
            } else {
                match e.custom_emoji_id {
                    None => acc,
                    Some(id) => if assets.contains_key(id@) {
                        (acc.0.push((start, end, id@)), end)
                    } else {
                        acc
                    },
                }
            }
        },
    }
}

/// The replaced custom emoji after the entities `es`, in order.
pub open spec fn span_fold(
    text: Seq<char>,
    es: Seq<MessageEntity>,
    assets: Map<Seq<char>, CustomEmojiAsset>,
) -> (Seq<(int, int, Seq<char>)>, int)
    decreases es.len(),
{
    if es.len() == 0 {
        (Seq::<(int, int, Seq<char>)>::empty(), 0)
    } else {
        span_step(text, assets, span_fold(text, es.drop_last(), assets), es.last())
    }
}

/// The custom emoji that the rendering replaces: character range and id of each, in order.
pub open spec fn rendered_spans(
    text: Seq<char>,
    es: Seq<MessageEntity>,
    assets: Map<Seq<char>, CustomEmojiAsset>,
) -> Seq<(int, int, Seq<char>)> {
    span_fold(text, render_order(es), assets).0
}

/// The end of the last range, or 0.
pub open spec fn spans_end(spans: Seq<(int, int, Seq<char>)>) -> int {
    if spans.len() == 0 {
        0
    } else {
        spans.last().1
    }
}

/// The ranges lie in the text, in order and without overlap, and each id has an asset.
pub open spec fn spans_ok(
    text: Seq<char>,
    spans: Seq<(int, int, Seq<char>)>,
    assets: Map<Seq<char>, CustomEmojiAsset>,
) -> bool {
    &&& forall|i: int|
        0 <= i < spans.len() ==> 0 <= (#[trigger] spans[i]).0 <= spans[i].1 <= text.len()
            && assets.contains_key(spans[i].2)
    &&& forall|i: int| 0 < i < spans.len() ==> spans[i - 1].1 <= (#[trigger] spans[i]).0
}

/// The text up to the end of the last range, with each range replaced by the element that shows
/// its custom emoji.
pub open spec fn layout(
    text: Seq<char>,
    spans: Seq<(int, int, Seq<char>)>,
    assets: Map<Seq<char>, CustomEmojiAsset>,
    size: int,
) -> Seq<char>
    decreases spans.len(),
{
    if spans.len() == 0 {
        Seq::<char>::empty()
    } else {
        let front = spans.drop_last();
        let sp = spans.last();
        layout(text, front, assets, size) + text.subrange(spans_end(front), sp.0) + emoji_span_spec(
            sp.2,
            assets[sp.2],
            size,
            text.subrange(sp.0, sp.1),
        )
    }
}

/// The same with every element unwrapped and its content unescaped.
pub open spec fn unwrapped_layout(text: Seq<char>, spans: Seq<(int, int, Seq<char>)>) -> Seq<char>
    decreases spans.len(),
{
    if spans.len() == 0 {
        Seq::<char>::empty()
    } else {
        let front = spans.drop_last();
        let sp = spans.last();
        unwrapped_layout(text, front) + text.subrange(spans_end(front), sp.0) + html_unescape_spec(
            html_escape_spec(text.subrange(sp.0, sp.1)),
        )
    }
}

proof fn lemma_range_in_text(text: Seq<char>, e: MessageEntity)
    requires
        entity_char_range(text, e) is Some,
    ensures
        ({
            let r = entity_char_range(text, e)->0;
            0 <= r.0 <= r.1 <= text.len()
        }),
{
    let a = e.offset as int;
    let b = e.offset + e.length;
    lemma_utf16_char_index_monotone(text, a, b);
}

proof fn lemma_fold_layout(
    text: Seq<char>,
    rs: Seq<MessageEntity>,
    assets: Map<Seq<char>, CustomEmojiAsset>,
    size: int,
)
    ensures
        ({
            let r = render_fold(text, rs, assets, size);
            let f = span_fold(text, rs, assets);
            &&& spans_ok(text, f.0, assets)
            &&& r.1 == f.1
            &&& f.1 == spans_end(f.0)
            &&& r.0 == layout(text, f.0, assets, size)
        }),
    decreases rs.len(),
{
    if rs.len() > 0 {
        let d = rs.drop_last();
        let e = rs.last();
        lemma_fold_layout(text, d, assets, size);
        let r = render_fold(text, d, assets, size);
        let f = span_fold(text, d, assets);
        if entity_char_range(text, e) is Some {
            lemma_range_in_text(text, e);
            let (start, end) = entity_char_range(text, e)->0;
            if start >= r.1 {
                if let Some(id) = e.custom_emoji_id {
                    if assets.contains_key(id@) {
                        let g = f.0.push((start, end, id@));
                        assert(g.drop_last() =~= f.0);
                        assert(span_fold(text, rs, assets) == (g, end));
                        assert(layout(text, g, assets, size) == layout(text, f.0, assets, size)
                            + text.subrange(spans_end(f.0), start) + emoji_span_spec(
                            id@,
                            assets[id@],
                            size,
                            text.subrange(start, end),
                        ));
                        assert forall|i: int| 0 < i < g.len() implies g[i - 1].1 <= (
                        #[trigger] g[i]).0 by {
                            if i < f.0.len() {
                                assert(g[i] == f.0[i] && g[i - 1] == f.0[i - 1]);
                            } else {
                                assert(g[i - 1] == f.0.last());
                            }
                        }
                        assert forall|i: int| 0 <= i < g.len() implies 0 <= (
                        #[trigger] g[i]).0 <= g[i].1 <= text.len() && assets.contains_key(g[i].2) by {
                            if i < f.0.len() {
                                assert(g[i] == f.0[i]);
                            }
                        }
                    }
                }
            }
        }
    }
}

proof fn lemma_unwrapped_is_text(text: Seq<char>, spans: Seq<(int, int, Seq<char>)>)
    requires
        forall|i: int|
            0 <= i < spans.len() ==> 0 <= (#[trigger] spans[i]).0 <= spans[i].1 <= text.len(),
        forall|i: int| 0 < i < spans.len() ==> spans[i - 1].1 <= (#[trigger] spans[i]).0,
    ensures
        unwrapped_layout(text, spans) == text.take(spans_end(spans)),
    decreases spans.len(),
{
    if spans.len() == 0 {
        assert(text.take(0) =~= Seq::<char>::empty());
    } else {
        let front = spans.drop_last();
        let sp = spans.last();
        assert forall|i: int| 0 < i < front.len() implies front[i - 1].1 <= (#[trigger] front[i]).0 by {
            assert(front[i] == spans[i] && front[i - 1] == spans[i - 1]);
        }
        assert forall|i: int| 0 <= i < front.len() implies 0 <= (#[trigger] front[i]).0 <= front[i].1
            <= text.len() by {
            assert(front[i] == spans[i]);
        }
        lemma_unwrapped_is_text(text, front);
        crate::text::lemma_html_escape_round_trip(text.subrange(sp.0, sp.1));
        if front.len() > 0 {
            assert(front.last() == spans[spans.len() - 2]);
        }
        assert(spans_end(front) <= sp.0);
        assert(text.take(spans_end(front)) + text.subrange(spans_end(front), sp.0) + text.subrange(
            sp.0,
            sp.1,
        ) =~= text.take(sp.1));
    }
}

#[verifier::spinoff_prover]
proof fn lemma_render_is_layout(
    text: Seq<char>,
    es: Seq<MessageEntity>,
    assets: Map<Seq<char>, CustomEmojiAsset>,
    size: int,
)
    ensures
        spans_ok(text, rendered_spans(text, es, assets), assets),
        render_custom_emoji_spec(text, es, assets, size) == layout(
            text,
            rendered_spans(text, es, assets),
            assets,
            size,
        ) + text.skip(spans_end(rendered_spans(text, es, assets))),
{
    lemma_fold_layout(text, render_order(es), assets, size);
}

#[verifier::spinoff_prover]
proof fn lemma_unwrapped_rest_is_text(
    text: Seq<char>,
    spans: Seq<(int, int, Seq<char>)>,
    assets: Map<Seq<char>, CustomEmojiAsset>,
)
    requires
        spans_ok(text, spans, assets),
    ensures
        unwrapped_layout(text, spans) + text.skip(spans_end(spans)) == text,
{
    lemma_unwrapped_is_text(text, spans);
    let k = spans_end(spans);
    if spans.len() > 0 {
        assert(spans[spans.len() - 1] == spans.last());
    }
    assert(0 <= k <= text.len());
    assert(text.take(k) + text.skip(k) =~= text);
}

/// Rendering is the text with the replaced custom emoji put in: the text before each replaced
/// emoji as it is, then the element that shows it, which wraps the emoji's own text
/// HTML-escaped; the rest of the text follows. The replaced ranges lie in the text in order and
/// do not overlap, each has an asset; and unwrapping every element and unescaping what it wraps
/// gives back the whole text.
#[verifier::spinoff_prover]
pub proof fn lemma_render_decomposition(
    text: Seq<char>,
    es: Seq<MessageEntity>,
    assets: Map<Seq<char>, CustomEmojiAsset>,
    size: int,
)
    ensures
        ({
            let spans = rendered_spans(text, es, assets);
            &&& spans_ok(text, spans, assets)
            &&& render_custom_emoji_spec(text, es, assets, size) == layout(text, spans, assets, size)
                + text.skip(spans_end(spans))
            &&& unwrapped_layout(text, spans) + text.skip(spans_end(spans)) == text
        }),
{
    let spans = rendered_spans(text, es, assets);
    lemma_render_is_layout(text, es, assets, size);
    lemma_unwrapped_rest_is_text(text, spans, assets);
}

/// The range and id of every custom emoji among `rs` (in their order) that has an asset and
/// whose ends fall on character boundaries, whether or not it overlaps another.
pub open spec fn asset_emoji_spans(
    text: Seq<char>,
    rs: Seq<MessageEntity>,
    assets: Map<Seq<char>, CustomEmojiAsset>,
) -> Seq<(int, int, Seq<char>)>
    decreases rs.len(),
{
    if rs.len() == 0 {
        Seq::<(int, int, Seq<char>)>::empty()
    } else {
        let front = asset_emoji_spans(text, rs.drop_last(), assets);
        let e = rs.last();
        if entity_char_range(text, e) is Some && id_has_asset(e, assets) {
            let r = entity_char_range(text, e)->0;
            front.push((r.0, r.1, e.custom_emoji_id->0@))
        } else {
            front
        }
    }
}

/// Each range ends at or before the start of the next.
pub open spec fn in_order_apart(spans: Seq<(int, int, Seq<char>)>) -> bool {
    forall|i: int| 0 < i < spans.len() ==> spans[i - 1].1 <= (#[trigger] spans[i]).0
}

proof fn lemma_span_fold_takes_all(
    text: Seq<char>,
    rs: Seq<MessageEntity>,
    assets: Map<Seq<char>, CustomEmojiAsset>,
)
    requires
        in_order_apart(asset_emoji_spans(text, rs, assets)),
    ensures
        span_fold(text, rs, assets).0 == asset_emoji_spans(text, rs, assets),
        span_fold(text, rs, assets).1 == spans_end(asset_emoji_spans(text, rs, assets)),
    decreases rs.len(),
{
    if rs.len() > 0 {
        let d = rs.drop_last();
        let e = rs.last();
        let c = asset_emoji_spans(text, rs, assets);
        let cd = asset_emoji_spans(text, d, assets);
        assert(in_order_apart(cd)) by {
            if entity_char_range(text, e) is Some && id_has_asset(e, assets) {
                assert forall|i: int| 0 < i < cd.len() implies cd[i - 1].1 <= (#[trigger] cd[i]).0 by {
                    assert(c[i] == cd[i] && c[i - 1] == cd[i - 1]);
                }
            }
        }
        lemma_span_fold_takes_all(text, d, assets);
        if entity_char_range(text, e) is Some && id_has_asset(e, assets) {
            let r = entity_char_range(text, e)->0;
            if cd.len() > 0 {
                assert(c[cd.len() as int - 1] == cd.last());
                assert(c[cd.len() as int].0 == r.0);
                assert(cd.last().1 <= r.0);
            } else {
                lemma_range_in_text(text, e);
            }
        }
    }
}

/// Taken in order of offset, every custom emoji with an asset is replaced when none of them
/// overlaps the one before: the rendering is then the text with each of these emoji, adjacent
/// ones included, put in as an element, and the rest of the text after the last one.
pub proof fn lemma_render_replaces_every_apart_emoji(
    text: Seq<char>,
    es: Seq<MessageEntity>,
    assets: Map<Seq<char>, CustomEmojiAsset>,
    size: int,
)
    requires
        in_order_apart(asset_emoji_spans(text, render_order(es), assets)),
    ensures
        ({
            let spans = asset_emoji_spans(text, render_order(es), assets);
            render_custom_emoji_spec(text, es, assets, size) == layout(text, spans, assets, size)
                + text.skip(spans_end(spans))
        }),
{
    lemma_span_fold_takes_all(text, render_order(es), assets);
    lemma_render_is_layout(text, es, assets, size);
}

/// The character range of an entity that is a custom emoji with an asset.
pub open spec fn asset_range(
    text: Seq<char>,
    e: MessageEntity,
    assets: Map<Seq<char>, CustomEmojiAsset>,
) -> Option<(int, int)> {
    if has_asset(e, assets) {
        entity_char_range(text, e)
    } else {
        None
    }
}

/// Character `k` lies in the range of an entity that is a custom emoji with an asset.
pub open spec fn in_asset_range(
    text: Seq<char>,
    e: MessageEntity,
    assets: Map<Seq<char>, CustomEmojiAsset>,
    k: int,
) -> bool {
    match asset_range(text, e, assets) {
        Some(r) => r.0 <= k < r.1,
        None => false,
    }
}

proof fn lemma_emoji_ranges_are_entities(
    text: Seq<char>,
    es: Seq<MessageEntity>,
    assets: Map<Seq<char>, CustomEmojiAsset>,
)
    ensures
        forall|a: int|
            #![trigger emoji_ranges(text, es, assets)[a]]
            0 <= a < emoji_ranges(text, es, assets).len() ==> exists|i: int|
                0 <= i < es.len() && asset_range(text, #[trigger] es[i], assets) == Some(
                    emoji_ranges(text, es, assets)[a],
                ),
        forall|i: int|
            0 <= i < es.len() && asset_range(text, #[trigger] es[i], assets) is Some ==> exists|a: int|
                0 <= a < emoji_ranges(text, es, assets).len() && emoji_ranges(text, es, assets)[a]
                    == asset_range(text, es[i], assets)->0,
    decreases es.len(),
{
    if es.len() > 0 {
        let d = es.drop_last();
        lemma_emoji_ranges_are_entities(text, d, assets);
        let r = emoji_ranges(text, d, assets);
        let rr = emoji_ranges(text, es, assets);
        let last = es.last();
        assert forall|a: int| #![trigger rr[a]] 0 <= a < rr.len() implies exists|i: int|
            0 <= i < es.len() && asset_range(text, #[trigger] es[i], assets) == Some(rr[a]) by {
            if a < r.len() {
                assert(rr[a] == r[a]);
                let i = choose|i: int|
                    0 <= i < d.len() && asset_range(text, #[trigger] d[i], assets) == Some(r[a]);
                assert(es[i] == d[i]);
            } else {
                assert(asset_range(text, es[es.len() - 1], assets) == Some(rr[a]));
            }
        }
        assert forall|i: int|
            0 <= i < es.len() && asset_range(text, #[trigger] es[i], assets) is Some implies exists|a: int|
            0 <= a < rr.len() && rr[a] == asset_range(text, es[i], assets)->0 by {
            if i < d.len() {
                assert(es[i] == d[i]);
                let a = choose|a: int| 0 <= a < r.len() && r[a] == asset_range(text, d[i], assets)->0;
                assert(rr[a] == r[a]);
            } else {
                assert(rr[r.len() as int] == asset_range(text, last, assets)->0);
            }
        }
    }
}

/// A character that is not white space and lies outside every custom emoji with an asset,
/// wherever it stands in the text (before, between or after them), makes the emoji small
/// (22 pixels).
pub proof fn lemma_text_beside_emoji_keeps_size_small(
    text: Seq<char>,
    es: Seq<MessageEntity>,
    assets: Map<Seq<char>, CustomEmojiAsset>,
    k: int,
)
    requires
        0 <= k < text.len(),
        !is_whitespace_spec(text[k]),
        forall|i: int| 0 <= i < es.len() ==> !in_asset_range(text, #[trigger] es[i], assets, k),
    ensures
        custom_emoji_size_spec(text, es, assets) == 22,
{
    let rs = emoji_ranges(text, es, assets);
    lemma_emoji_ranges_are_entities(text, es, assets);
    assert(!covered(rs, k)) by {
        if covered(rs, k) {
            let a = choose|a: int| 0 <= a < rs.len() && (#[trigger] rs[a]).0 <= k < rs[a].1;
            let i = choose|i: int|
                0 <= i < es.len() && asset_range(text, #[trigger] es[i], assets) == Some(rs[a]);
            assert(in_asset_range(text, es[i], assets, k));
        }
    }
    assert(has_text_outside(text, rs));
}

/// A message made only of custom emoji with assets and white space shows them large: 96 pixels
/// for one, and between 42 and 84 for several.
pub proof fn lemma_emoji_alone_are_large(
    text: Seq<char>,
    es: Seq<MessageEntity>,
    assets: Map<Seq<char>, CustomEmojiAsset>,
)
    requires
        count_with_assets(es, assets) >= 1,
        forall|k: int|
            0 <= k < text.len() && !is_whitespace_spec(#[trigger] text[k]) ==> exists|i: int|
                0 <= i < es.len() && in_asset_range(text, #[trigger] es[i], assets, k),
    ensures
        count_with_assets(es, assets) == 1 ==> custom_emoji_size_spec(text, es, assets) == 96,
        count_with_assets(es, assets) > 1 ==> 42 <= custom_emoji_size_spec(text, es, assets) <= 84,
{
    let rs = emoji_ranges(text, es, assets);
    lemma_emoji_ranges_are_entities(text, es, assets);
    assert(!has_text_outside(text, rs)) by {
        if has_text_outside(text, rs) {
            let j = choose|j: int| 0 <= j < text.len() && !is_whitespace_spec(text[j]) && !covered(rs, j);
            assert(!is_whitespace_spec(text[j]));
            let i = choose|i: int| 0 <= i < es.len() && in_asset_range(text, #[trigger] es[i], assets, j);
            let a = choose|a: int| 0 <= a < rs.len() && rs[a] == asset_range(text, es[i], assets)->0;
            assert(covered(rs, j));
        }
    }
}

} // verus!
