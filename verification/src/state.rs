//! The server's persistent state: processed message keys, device tokens and the pairing code.
use vstd::prelude::*;

use crate::outside::{random_below, random_byte, thread_rng};
use crate::text::{
    chars_equal, chars_of, digits_spec, hex_byte_spec, is_hex_lower, push_all, push_digits,
    push_hex_byte, push_str, starts_with, starts_with_spec, str_views, string_from_chars,
    subrange_chars, trim_spec, trim_str, TrimSet,
};

verus! {

/// How many processed message keys the state keeps.
pub const MAX_PROCESSED: usize = 5000;

/// How long a pairing code stays valid, in seconds.
pub const PAIR_CODE_TTL_SECONDS: i64 = 600;

/// A bearer token given to one paired device.
pub struct ApiToken {
    pub token: String,
    pub device_name: String,
    pub created_at: i64,
}

/// The current one-use pairing code.
pub struct PairCode {
    pub code: String,
    pub expires_at: i64,
}

/// What the server keeps between runs.
pub struct PersistentState {
    pub offset: Option<i64>,
    pub processed: Vec<String>,
    pub api_tokens: Vec<ApiToken>,
    pub pair_code: Option<PairCode>,
}

impl PersistentState {
    /// The state of a fresh server: nothing processed, no devices, no code.
    pub fn empty() -> (s: Self)
        ensures
            s.offset is None,
            s.processed@.len() == 0,
            s.api_tokens@.len() == 0,
            s.pair_code is None,
    {
        PersistentState {
            offset: None,
            processed: Vec::new(),
            api_tokens: Vec::new(),
            pair_code: None,
        }
    }
}

/// The processed keys after recording `key`: appended when new, then only the last
/// `MAX_PROCESSED` kept.
pub open spec fn mark_processed_spec(p: Seq<Seq<char>>, key: Seq<char>) -> Seq<Seq<char>> {
    let q = if p.contains(key) {
        p
    } else {
        p.push(key)
    };
    if q.len() > MAX_PROCESSED {
        q.skip(q.len() - MAX_PROCESSED)
    } else {
        q
    }
}

/// Whether `key` is among the processed keys.
pub fn is_processed(state: &PersistentState, key: &String) -> (b: bool)
    ensures
        b == str_views(state.processed@).contains(key@),
{
    let n = state.processed.len();
    for i in 0..n
        invariant
            n == state.processed@.len(),
            forall|j: int| 0 <= j < i ==> state.processed@[j]@ != key@,
    {
        if state.processed[i] == *key {
            assert(str_views(state.processed@)[i as int] == key@);
            return true;
        }
    }
    assert(!str_views(state.processed@).contains(key@)) by {
        if str_views(state.processed@).contains(key@) {
            let j = choose|j: int|
                0 <= j < str_views(state.processed@).len() && str_views(state.processed@)[j]
                    == key@;
            assert(state.processed@[j]@ == key@);
        }
    }
    false
}

/// Records that the message with `key` has been handled.
pub fn mark_processed(state: &mut PersistentState, key: String)
    ensures
        str_views(final(state).processed@) == mark_processed_spec(
            str_views(old(state).processed@),
            key@,
        ),
        final(state).offset == old(state).offset,
        final(state).api_tokens == old(state).api_tokens,
        final(state).pair_code == old(state).pair_code,
{
    let ghost p = str_views(state.processed@);
    let present = is_processed(state, &key);
    let ghost k = key@;
    if !present {
        state.processed.push(key);
    }
    let ghost q = if p.contains(k) {
        p
    } else {
        p.push(k)
    };
    assert(str_views(state.processed@) =~= q);
    let ghost total = q.len();
    assert(mark_processed_spec(str_views(old(state).processed@), key@) == (if total
        > MAX_PROCESSED {
        q.skip(total - MAX_PROCESSED)
    } else {
        q
    }));
    while state.processed.len() > MAX_PROCESSED
        invariant
            total == q.len(),
            mark_processed_spec(str_views(old(state).processed@), k) == (if total
                > MAX_PROCESSED {
                q.skip(total - MAX_PROCESSED)
            } else {
                q
            }),
            k == key@,
            state.processed@.len() <= total,
            total > MAX_PROCESSED ==> state.processed@.len() >= MAX_PROCESSED,
            total <= MAX_PROCESSED ==> state.processed@.len() == total,
            str_views(state.processed@) == q.skip(total - state.processed@.len()),
            state.offset == old(state).offset,
            state.api_tokens == old(state).api_tokens,
            state.pair_code == old(state).pair_code,
        decreases state.processed@.len(),
    {
        let ghost before = state.processed@;
        state.processed.remove(0);
        assert(state.processed@ =~= before.skip(1));
        assert(str_views(state.processed@) =~= str_views(before).skip(1));
        assert(str_views(state.processed@) =~= q.skip(total - state.processed@.len()));
    }
    proof {
        if total <= MAX_PROCESSED {
            assert(q.skip(0) =~= q);
        }
    }
}

/// With at most `MAX_PROCESSED` keys before, recording a key leaves it recorded and the list
/// within its limit.
pub proof fn lemma_mark_processed_records(p: Seq<Seq<char>>, key: Seq<char>)
    requires
        p.len() <= MAX_PROCESSED,
    ensures
        mark_processed_spec(p, key).contains(key),
        mark_processed_spec(p, key).len() <= MAX_PROCESSED,
{
    let q = if p.contains(key) {
        p
    } else {
        p.push(key)
    };
    if p.contains(key) {
    } else {
        assert(q[q.len() - 1] == key);
        if q.len() > MAX_PROCESSED {
            let r = q.skip(q.len() - MAX_PROCESSED);
            assert(r[r.len() - 1] == key);
        }
    }
}

/// Recording keeps the processed keys free of duplicates.
pub proof fn lemma_mark_processed_no_duplicates(p: Seq<Seq<char>>, key: Seq<char>)
    requires
        p.no_duplicates(),
    ensures
        mark_processed_spec(p, key).no_duplicates(),
{
    let q = if p.contains(key) {
        p
    } else {
        p.push(key)
    };
    assert(q.no_duplicates()) by {
        if !p.contains(key) {
            assert forall|i: int, j: int| 0 <= i < q.len() && 0 <= j < q.len() && i != j implies q[i]
                != q[j] by {
                if i < p.len() && j < p.len() {
                } else if i == p.len() {
                    assert(q[j] == p[j]);
                } else {
                    assert(q[i] == p[i]);
                }
            }
        }
    }
    if q.len() > MAX_PROCESSED {
        let d = q.len() - MAX_PROCESSED;
        let r = q.skip(d);
        assert forall|i: int, j: int| 0 <= i < r.len() && 0 <= j < r.len() && i != j implies r[i]
            != r[j] by {
            assert(r[i] == q[i + d] && r[j] == q[j + d]);
        }
    }
}

/// Recording the same key twice is the same as recording it once.
pub proof fn lemma_mark_processed_idempotent(p: Seq<Seq<char>>, key: Seq<char>)
    requires
        p.len() <= MAX_PROCESSED,
    ensures
        mark_processed_spec(mark_processed_spec(p, key), key) == mark_processed_spec(p, key),
{
    lemma_mark_processed_records(p, key);
    let r = mark_processed_spec(p, key);
    assert(r.skip(0) =~= r);
}

/// The header value authorizes a request: it is `Bearer ` followed by a known device token.
pub open spec fn is_authorized_spec(authorization: Option<Seq<char>>, tokens: Seq<ApiToken>) -> bool {
    match authorization {
        None => false,
        Some(v) => starts_with_spec(v, "Bearer "@) && exists|i: int|
            0 <= i < tokens.len() && (#[trigger] tokens[i]).token@ == v.skip("Bearer "@.len() as int),
    }
}

/// The optional view of an optional string slice.
pub open spec fn opt_str_view(o: Option<&str>) -> Option<Seq<char>> {
    match o {
        Some(s) => Some(s@),
        None => None,
    }
}

/// Whether a request with this `Authorization` header value may read events and assets; `None`
/// stands for a missing header or one that is not visible ASCII.
pub fn is_authorized(authorization: Option<&str>, state: &PersistentState) -> (b: bool)
    ensures
        b == is_authorized_spec(opt_str_view(authorization), state.api_tokens@),
{
    let value = match authorization {
        Some(v) => v,
        None => return false,
    };
    let v = chars_of(value);
    let prefix = chars_of("Bearer ");
    if !starts_with(&v, &prefix) {
        return false;
    }
    let rest = subrange_chars(&v, prefix.len(), v.len());
    assert(rest@ == value@.skip(prefix@.len() as int));
    let n = state.api_tokens.len();
    for i in 0..n
        invariant
            n == state.api_tokens@.len(),
            rest@ == value@.skip("Bearer "@.len() as int),
            prefix@ == "Bearer "@,
            starts_with_spec(value@, "Bearer "@),
            authorization == Some(value),
            forall|j: int| 0 <= j < i ==> (#[trigger] state.api_tokens@[j]).token@ != rest@,
    {
        let known = chars_of(state.api_tokens[i].token.as_str());
        if chars_equal(&known, &rest) {
            assert(state.api_tokens@[i as int].token@ == rest@);
            assert(prefix@ == "Bearer "@);
            assert(starts_with_spec(value@, "Bearer "@));
            assert(opt_str_view(authorization) == Some(value@));
            return true;
        }
    }
    false
}

/// The pairing code `code` is the current one (after trimming) and has not expired at `now`.
pub open spec fn pair_code_valid(pair: Option<PairCode>, code: Seq<char>, now: int) -> bool {
    match pair {
        Some(p) => p.code@ == trim_spec(code, TrimSet::Whitespace) && p.expires_at >= now,
        None => false,
    }
}

/// The device name stored for a token: the requested one, or `obsidian`, cut to 80 characters.
pub open spec fn device_label_spec(name: Option<Seq<char>>) -> Seq<char> {
    let n = match name {
        Some(s) => s,
        None => "obsidian"@,
    };
    if n.len() > 80 {
        n.take(80)
    } else {
        n
    }
}

/// A text of `2 * n` lowercase hexadecimal digits.
pub open spec fn is_hex_token(t: Seq<char>, n: nat) -> bool {
    t.len() == 2 * n && forall|i: int| 0 <= i < t.len() ==> is_hex_lower(#[trigger] t[i])
}

/// `after` is `before` once a device has paired at `now` and received `token`.
pub open spec fn paired(
    before: PersistentState,
    after: PersistentState,
    name: Option<Seq<char>>,
    now: int,
    token: Seq<char>,
) -> bool {
    &&& after.pair_code is None
    &&& after.offset == before.offset
    &&& after.processed == before.processed
    &&& after.api_tokens@.len() == before.api_tokens@.len() + 1
    &&& after.api_tokens@.take(before.api_tokens@.len() as int) == before.api_tokens@
    &&& after.api_tokens@.last().token@ == token
    &&& after.api_tokens@.last().device_name@ == device_label_spec(name)
    &&& after.api_tokens@.last().created_at == now
}

/// Bytes written as lowercase hexadecimal, two digits per byte (`format!("{:02x}", b)` for each).
pub open spec fn hex_spec(b: Seq<u8>) -> Seq<char>
    decreases b.len(),
{
    if b.len() == 0 {
        Seq::<char>::empty()
    } else {
        hex_spec(b.drop_last()) + hex_byte_spec(b.last())
    }
}

proof fn lemma_hex_spec_token(b: Seq<u8>)
    ensures
        is_hex_token(hex_spec(b), b.len()),
    decreases b.len(),
{
    if b.len() > 0 {
        lemma_hex_spec_token(b.drop_last());
        let a = hex_spec(b.drop_last());
        let h = hex_byte_spec(b.last());
        let x = b.last();
        assert(is_hex_lower(h[0]) && is_hex_lower(h[1])) by {
            assert(x / 16 < 16 && x % 16 < 16);
        }
        assert forall|k: int| 0 <= k < hex_spec(b).len() implies is_hex_lower(#[trigger] hex_spec(b)[k]) by {
            if k < a.len() {
                assert(hex_spec(b)[k] == a[k]);
            } else {
                assert(hex_spec(b)[k] == h[k - a.len()]);
            }
        }
    }
}

/// The bytes written as lowercase hexadecimal.
pub fn hex_of_bytes(b: &Vec<u8>) -> (s: String)
    ensures
        s@ == hex_spec(b@),
{
    let n = b.len();
    let mut out: Vec<char> = Vec::new();
    for i in 0..n
        invariant
            n == b@.len(),
            out@ == hex_spec(b@.take(i as int)),
    {
        push_hex_byte(&mut out, b[i]);
        assert(b@.take(i + 1).drop_last() == b@.take(i as int));
    }
    assert(b@.take(n as int) == b@);
    string_from_chars(&out)
}

/// `n` random bytes written as lowercase hexadecimal.
pub fn random_hex(n: usize) -> (s: String)
    requires
        n <= usize::MAX / 2,
    ensures
        exists|b: Seq<u8>| b.len() == n && s@ == hex_spec(b),
        is_hex_token(s@, n as nat),
{
    let mut rng = thread_rng();
    let mut bytes: Vec<u8> = Vec::new();
    for i in 0..n
        invariant
            bytes@.len() == i,
    {
        bytes.push(random_byte(&mut rng));
    }
    let s = hex_of_bytes(&bytes);
    proof {
        lemma_hex_spec_token(bytes@);
    }
    s
}

/// `seq` of `n` zeros.
pub open spec fn zeros(n: nat) -> Seq<char> {
    Seq::new(n, |i: int| '0')
}

/// `format!("{:06}", n)`: the decimal digits of `n`, zero-padded on the left to six.
pub open spec fn pad6_spec(n: nat) -> Seq<char> {
    let d = digits_spec(n);
    if d.len() >= 6 {
        d
    } else {
        zeros((6 - d.len()) as nat) + d
    }
}

spec fn pow10(k: nat) -> nat
    decreases k,
{
    if k == 0 {
        1
    } else {
        10 * pow10((k - 1) as nat)
    }
}

proof fn lemma_digits_bound(n: nat, k: nat)
    requires
        k >= 1,
        n < pow10(k),
    ensures
        digits_spec(n).len() <= k,
    decreases k,
{
    if n >= 10 {
        let p = pow10((k - 1) as nat);
        assert(k >= 2) by {
            if k == 1 {
                assert(pow10(1) == 10 * pow10(0));
            }
        }
        assert(n / 10 < p) by (nonlinear_arith)
            requires
                n < 10 * p,
        ;
        lemma_digits_bound(n / 10, (k - 1) as nat);
    }
}

proof fn lemma_digits_len(n: nat)
    ensures
        digits_spec(n).len() >= 1,
        n < 1_000_000 ==> digits_spec(n).len() <= 6,
        forall|i: int| 0 <= i < digits_spec(n).len() ==> '0' <= #[trigger] digits_spec(n)[i] <= '9',
    decreases n,
{
    if n < 1_000_000 {
        reveal_with_fuel(pow10, 7);
        lemma_digits_bound(n, 6);
    }
    if n >= 10 {
        lemma_digits_len(n / 10);
        let d = digits_spec(n / 10);
        assert forall|i: int| 0 <= i < digits_spec(n).len() implies '0' <= #[trigger] digits_spec(
            n,
        )[i] <= '9' by {
            if i < d.len() {
                assert(digits_spec(n)[i] == d[i]);
            }
        }
    }
}

/// A pairing code is six decimal digits.
pub proof fn lemma_pair_code_shape(n: nat)
    requires
        n < 1_000_000,
    ensures
        pad6_spec(n).len() == 6,
        forall|i: int| 0 <= i < 6 ==> '0' <= #[trigger] pad6_spec(n)[i] <= '9',
{
    lemma_digits_len(n);
    let d = digits_spec(n);
    if d.len() < 6 {
        let z = zeros((6 - d.len()) as nat);
        assert forall|i: int| 0 <= i < 6 implies '0' <= #[trigger] pad6_spec(n)[i] <= '9' by {
            if i < z.len() {
                assert(pad6_spec(n)[i] == z[i]);
            } else {
                assert(pad6_spec(n)[i] == d[i - z.len()]);
            }
        }
    }
}

/// The pairing code for `n`: its decimal digits, padded with zeros to six (`format!("{:06}", n)`).
pub fn pair_code_from(n: u32) -> (c: String)
    requires
        n < 1_000_000,
    ensures
        c@ == pad6_spec(n as nat),
{
    let mut digits: Vec<char> = Vec::new();
    push_digits(&mut digits, n as u64);
    let mut out: Vec<char> = Vec::new();
    let d = digits.len();
    if d < 6 {
        let pad = 6 - d;
        for i in 0..pad
            invariant
                out@ == zeros(i as nat),
        {
            out.push('0');
            assert(out@ =~= zeros((i + 1) as nat));
        }
    }
    push_all(&mut out, &digits);
    assert(out@ == pad6_spec(n as nat));
    string_from_chars(&out)
}

/// A new random six-digit pairing code.
pub fn generate_pair_code() -> (code: String)
    ensures
        exists|n: nat| n < 1_000_000 && code@ == pad6_spec(n),
{
    let mut rng = thread_rng();
    let n = random_below(&mut rng, 1_000_000);
    pair_code_from(n)
}

/// Issues a new one-use pairing code valid until `now + PAIR_CODE_TTL_SECONDS`, replacing any
/// earlier code.
pub fn issue_pair_code(state: &mut PersistentState, now: i64) -> (code: String)
    requires
        now <= i64::MAX - PAIR_CODE_TTL_SECONDS,
    ensures
        final(state).pair_code matches Some(p) && p.code@ == code@ && p.expires_at == now
            + PAIR_CODE_TTL_SECONDS,
        exists|n: nat| n < 1_000_000 && code@ == pad6_spec(n),
        final(state).offset == old(state).offset,
        final(state).processed == old(state).processed,
        final(state).api_tokens == old(state).api_tokens,
{
    let code = generate_pair_code();
    state.pair_code = Some(PairCode { code: code.clone(), expires_at: now + PAIR_CODE_TTL_SECONDS });
    code
}

/// Pairs a device with the current pairing code: when `code` (trimmed) is the code and it has
/// not expired at `now`, the code is used up and the device gets a new random 64-digit token;
/// otherwise nothing changes.
pub fn pair_device(
    state: &mut PersistentState,
    code: &str,
    device_name: Option<String>,
    now: i64,
) -> (token: Option<String>)
    ensures
        token is Some == pair_code_valid(old(state).pair_code, code@, now as int),
        token is None ==> *final(state) == *old(state),
        token matches Some(t) ==> paired(
            *old(state),
            *final(state),
            match device_name {
                Some(s) => Some(s@),
                None => None,
            },
            now as int,
            t@,
        ) && is_hex_token(t@, 32) && exists|b: Seq<u8>| b.len() == 32 && t@ == hex_spec(b),
{
    let requested = trim_str(code);
    let valid = match &state.pair_code {
        Some(pair) => {
            let current = chars_of(pair.code.as_str());
            chars_equal(&current, &requested) && pair.expires_at >= now
        },
        None => false,
    };
    if !valid {
        return None;
    }
    let ghost before = *state;
    state.pair_code = None;
    let token = random_hex(32);
    let name_chars = match &device_name {
        Some(s) => chars_of(s.as_str()),
        None => chars_of("obsidian"),
    };
    let cut = if name_chars.len() > 80 {
        subrange_chars(&name_chars, 0, 80)
    } else {
        subrange_chars(&name_chars, 0, name_chars.len())
    };
    let ghost nm = match device_name {
        Some(s) => Some(s@),
        None => None,
    };
    assert(cut@ == device_label_spec(nm)) by {
        if name_chars@.len() <= 80 {
            assert(name_chars@.subrange(0, name_chars@.len() as int) =~= name_chars@);
        } else {
            assert(name_chars@.subrange(0, 80) =~= name_chars@.take(80));
        }
    }
    let label = string_from_chars(&cut);
    state.api_tokens.push(ApiToken { token: token.clone(), device_name: label, created_at: now });
    assert(state.api_tokens@.take(before.api_tokens@.len() as int) =~= before.api_tokens@);
    assert(paired(before, *state, nm, now as int, token@));
    Some(token)
}

/// A device that paired with a code cannot pair again with any code until a new one is issued.
pub proof fn lemma_pair_code_single_use(
    before: PersistentState,
    after: PersistentState,
    name: Option<Seq<char>>,
    now: int,
    token: Seq<char>,
    code2: Seq<char>,
    now2: int,
)
    requires
        paired(before, after, name, now, token),
    ensures
        !pair_code_valid(after.pair_code, code2, now2),
{
}

/// A code issued at `issued` is accepted at `now` exactly when the attempt, trimmed, is the
/// code and at most `PAIR_CODE_TTL_SECONDS` have passed since it was issued.
pub proof fn lemma_pair_code_expiry(pair: PairCode, issued: int, attempt: Seq<char>, now: int)
    requires
        pair.expires_at == issued + PAIR_CODE_TTL_SECONDS,
    ensures
        pair_code_valid(Some(pair), attempt, now) <==> (pair.code@ == trim_spec(
            attempt,
            TrimSet::Whitespace,
        ) && now <= issued + PAIR_CODE_TTL_SECONDS),
{
}

/// After pairing, the new token authorizes requests that carry it as a bearer token.
pub proof fn lemma_paired_token_authorizes(
    before: PersistentState,
    after: PersistentState,
    name: Option<Seq<char>>,
    now: int,
    token: Seq<char>,
)
    requires
        paired(before, after, name, now, token),
    ensures
        is_authorized_spec(Some("Bearer "@ + token), after.api_tokens@),
{
    let v = "Bearer "@ + token;
    assert(v.take("Bearer "@.len() as int) =~= "Bearer "@);
    assert(v.skip("Bearer "@.len() as int) =~= token);
    let i = after.api_tokens@.len() - 1;
    assert(after.api_tokens@[i].token@ == token);
}

/// Tokens given out earlier keep authorizing after a pairing.
pub proof fn lemma_pairing_keeps_tokens(
    before: PersistentState,
    after: PersistentState,
    name: Option<Seq<char>>,
    now: int,
    token: Seq<char>,
    authorization: Option<Seq<char>>,
)
    requires
        paired(before, after, name, now, token),
        is_authorized_spec(authorization, before.api_tokens@),
    ensures
        is_authorized_spec(authorization, after.api_tokens@),
{
    let v = authorization->0;
    let i = choose|i: int|
        0 <= i < before.api_tokens@.len() && (#[trigger] before.api_tokens@[i]).token@ == v.skip(
            "Bearer "@.len() as int,
        );
    assert(after.api_tokens@[i] == after.api_tokens@.take(before.api_tokens@.len() as int)[i]);
}

/// The text sent to the administrator with a new pairing code.
pub open spec fn pair_panel_text_spec(public_url: Seq<char>, code: Seq<char>) -> Seq<char> {
    "Панель Telegram → Obsidian\n\nСтатус: сервер работает\nAPI: "@ + public_url
        + "\nКод привязки: "@ + code
        + "\nКод одноразовый и действует 10 минут. Введи его в настройках плагина Telegram Custom Emoji."@
}

/// The message that tells the administrator the API address and the new pairing code.
pub fn pair_panel_text(public_url: &str, code: &str) -> (text: String)
    ensures
        text@ == pair_panel_text_spec(public_url@, code@),
{
    let mut out: Vec<char> = Vec::new();
    push_str(&mut out, "Панель Telegram → Obsidian\n\nСтатус: сервер работает\nAPI: ");
    push_str(&mut out, public_url);
    push_str(&mut out, "\nКод привязки: ");
    push_str(&mut out, code);
    push_str(
        &mut out,
        "\nКод одноразовый и действует 10 минут. Введи его в настройках плагина Telegram Custom Emoji.",
    );
    string_from_chars(&out)
}

/// Records that updates up to `update_id` have been read: the next poll starts after it.
pub fn advance_offset(state: &mut PersistentState, update_id: i64)
    requires
        update_id < i64::MAX,
    ensures
        final(state).offset == Some((update_id + 1) as i64),
        final(state).processed == old(state).processed,
        final(state).api_tokens == old(state).api_tokens,
        final(state).pair_code == old(state).pair_code,
{
    state.offset = Some(update_id + 1);
}

/// Why an asset request is refused.
#[derive(PartialEq, Eq, Structural, Clone, Copy)]
pub enum AssetRejection {
    /// No valid bearer token: answered with 401.
    Unauthorized,
    /// The path could leave the vault: answered with 400.
    InvalidPath,
}

/// The answer to an asset request before the file is read: the vault-relative path to read, or
/// why the request is refused (an unauthorized request is refused before its path is looked at).
pub open spec fn asset_request_spec(
    authorization: Option<Seq<char>>,
    tokens: Seq<ApiToken>,
    path: Seq<char>,
) -> Result<Seq<char>, AssetRejection> {
    if !is_authorized_spec(authorization, tokens) {
        Err(AssetRejection::Unauthorized)
    } else {
        match crate::path::safe_relative_path_spec(path) {
            Some(p) => Ok(p),
            None => Err(AssetRejection::InvalidPath),
        }
    }
}

/// Checks an asset request: its bearer token, then its path.
pub fn check_asset_request(authorization: Option<&str>, state: &PersistentState, path: &str) -> (r:
    Result<String, AssetRejection>)
    ensures
        match r {
            Ok(p) => asset_request_spec(opt_str_view(authorization), state.api_tokens@, path@) == Ok::<
                Seq<char>,
                AssetRejection,
            >(p@),
            Err(e) => asset_request_spec(opt_str_view(authorization), state.api_tokens@, path@)
                == Err::<Seq<char>, AssetRejection>(e),
        },
{
    if !is_authorized(authorization, state) {
        return Err(AssetRejection::Unauthorized);
    }
    match crate::path::safe_relative_path(path) {
        Some(p) => Ok(p),
        None => Err(AssetRejection::InvalidPath),
    }
}

} // verus!
