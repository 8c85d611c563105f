//! The shift cipher that the bot applies to messages.
//!
//! Every ASCII character of a message is rotated within the printable band
//! that starts at the space character and is 95 characters wide; the amount
//! comes from the digits of a key, used in turn and from the start again when
//! they run out. Characters outside ASCII pass through unchanged and do not
//! consume a key digit.

use vstd::prelude::*;
use vstd::utf8::encode_utf8;
use crate::text::chars_of;

verus! {

/// First character of the band: the space character.
pub const BAND_START: u8 = 32;

/// Number of characters in the band (space up to `~`).
pub const BAND_WIDTH: u8 = 95;

/// A character that the cipher rotates.
pub open spec fn is_ascii_char(c: char) -> bool {
    (c as u32) < 128
}

/// A character that the cipher can take: anything outside ASCII, or an
/// ASCII character no lower than the space character.
pub open spec fn is_cipherable(c: char) -> bool {
    is_ascii_char(c) ==> (c as u32) >= 32
}

/// A character of the printable band.
pub open spec fn in_band(c: char) -> bool {
    32 <= (c as u32) && (c as u32) <= 126
}

/// Number of ASCII characters in `s`.
pub open spec fn ascii_count(s: Seq<char>) -> nat
    decreases s.len(),
{
    if s.len() == 0 {
        0
    } else {
        ascii_count(s.drop_last()) + if is_ascii_char(s.last()) { 1nat } else { 0nat }
    }
}

/// The shift amounts of a key: each byte of its UTF-8 encoding less the byte
/// of `'0'`, saturating at zero.
pub open spec fn key_shifts(key: Seq<char>) -> Seq<u8> {
    encode_utf8(key).map_values(|b: u8| if b >= 48 { (b - 48) as u8 } else { 0u8 })
}

/// The shift applied to the `k`-th ASCII character (counting from zero).
pub open spec fn shift_at(shifts: Seq<u8>, k: nat) -> int {
    (shifts[(k % shifts.len()) as int] % 95) as int
}

/// An ASCII character rotated forward by `shift` within the band.
pub open spec fn rotate_forward(c: char, shift: int) -> char {
    (((c as u32 - 32 + shift) % 95) + 32) as char
}

/// An ASCII character rotated backward by `shift` within the band.
pub open spec fn rotate_backward(c: char, shift: int) -> char {
    (((c as u32 - 32 + 95 - shift) % 95) + 32) as char
}

/// The encryption of `m` under the shift amounts `shifts`.
pub open spec fn encrypted(m: Seq<char>, shifts: Seq<u8>) -> Seq<char> {
    Seq::new(
        m.len(),
        |i: int|
            if is_ascii_char(m[i]) {
                rotate_forward(m[i], shift_at(shifts, ascii_count(m.take(i))))
            } else {
                m[i]
            },
    )
}

/// The decryption of `m` under the shift amounts `shifts`.
pub open spec fn decrypted(m: Seq<char>, shifts: Seq<u8>) -> Seq<char> {
    Seq::new(
        m.len(),
        |i: int|
            if is_ascii_char(m[i]) {
                rotate_backward(m[i], shift_at(shifts, ascii_count(m.take(i))))
            } else {
                m[i]
            },
    )
}

/// What `encrypt` and `decrypt` accept: every ASCII character is at least the
/// space character, and a key with no bytes is only used on text without ASCII.
pub open spec fn cipher_input_ok(m: Seq<char>, key: Seq<char>) -> bool {
    &&& forall|i: int| 0 <= i < m.len() ==> is_cipherable(#[trigger] m[i])
    &&& (key_shifts(key).len() > 0 || ascii_count(m) == 0)
}

proof fn lemma_ascii_count_step(s: Seq<char>, i: int)
    requires
        0 <= i < s.len(),
    ensures
        ascii_count(s.take(i + 1)) == ascii_count(s.take(i)) + if is_ascii_char(s[i]) {
            1nat
        } else {
            0nat
        },
{
    assert(s.take(i + 1).drop_last() == s.take(i));
}

/// The shift amounts of `key`, one per byte of its UTF-8 encoding.
pub fn shifts_of_key(key: &str) -> (out: Vec<u8>)
    ensures
        out@ == key_shifts(key@),
{
    let bytes = key.as_bytes();
    let mut out: Vec<u8> = Vec::new();
    let n = bytes.len();
    for i in 0..n
        invariant
            n == bytes@.len(),
            bytes@ == encode_utf8(key@),
            out@ == bytes@.take(i as int).map_values(
                |b: u8| if b >= 48 { (b - 48) as u8 } else { 0u8 },
            ),
    {
        out.push(bytes[i].saturating_sub(48));
        assert(bytes@.take(i + 1).map_values(
            |b: u8| if b >= 48 { (b - 48) as u8 } else { 0u8 },
        ) == bytes@.take(i as int).map_values(
            |b: u8| if b >= 48 { (b - 48) as u8 } else { 0u8 },
        ).push(if bytes@[i as int] >= 48 { (bytes@[i as int] - 48) as u8 } else { 0u8 }));
    }
    assert(bytes@.take(n as int) == bytes@);
    out
}

/// Rotates each ASCII character of `chars` forward (`forward`) or backward
/// by the shift amounts in turn.
fn rotate_all(chars: &Vec<char>, shifts: &Vec<u8>, forward: bool) -> (out: String)
    requires
        forall|i: int| 0 <= i < chars@.len() ==> is_cipherable(#[trigger] chars@[i]),
        shifts@.len() > 0 || ascii_count(chars@) == 0,
    ensures
        forward ==> out@ == encrypted(chars@, shifts@),
        !forward ==> out@ == decrypted(chars@, shifts@),
{
    let ghost target = if forward {
        encrypted(chars@, shifts@)
    } else {
        decrypted(chars@, shifts@)
    };
    let mut out = String::new();
    let n = chars.len();
    let len = shifts.len();
    let mut j: usize = 0;
    for i in 0..n
        invariant
            n == chars@.len(),
            len == shifts@.len(),
            forall|k: int| 0 <= k < chars@.len() ==> is_cipherable(#[trigger] chars@[k]),
            len > 0 || ascii_count(chars@) == 0,
            target == if forward {
                encrypted(chars@, shifts@)
            } else {
                decrypted(chars@, shifts@)
            },
            out@ == target.take(i as int),
            j <= len,
            len > 0 ==> j as nat % (len as nat) == ascii_count(chars@.take(i as int)) % (len as nat),
            len == 0 ==> j == 0 && ascii_count(chars@.take(i as int)) == 0,
    {
        proof {
            lemma_ascii_count_step(chars@, i as int);
            lemma_ascii_count_prefix(chars@, i + 1);
        }
        proof {
            if len > 0 && j == len {
                vstd::arithmetic::div_mod::lemma_mod_self_0(len as int);
                lemma_small_mod(0, len as nat);
            }
        }
        if j == len {
            j = 0;
        }
        proof {
            if len > 0 {
                lemma_small_mod(j as nat, len as nat);
            }
        }
        let ch = chars[i];
        let code: u32 = ch as u32;
        if code < 128 {
            let chb = code as u8;
            let shift = shifts[j] % BAND_WIDTH;
            let rotated: u8 = if forward {
                (chb - BAND_START + shift) % BAND_WIDTH + BAND_START
            } else {
                (chb - BAND_START + BAND_WIDTH - shift) % BAND_WIDTH + BAND_START
            };
            out.push(rotated as char);
            proof {
                lemma_mod_succ(j as nat, ascii_count(chars@.take(i as int)), len as nat);
            }
            j = j + 1;
        } else {
            out.push(ch);
        }
        assert(target.take(i + 1) == target.take(i as int).push(target[i as int]));
    }
    assert(target.take(n as int) == target);
    out
}

proof fn lemma_small_mod(a: nat, m: nat)
    requires
        a < m,
    ensures
        a % m == a,
{
    vstd::arithmetic::div_mod::lemma_small_mod(a, m);
}

proof fn lemma_mod_succ(a: nat, b: nat, m: nat)
    requires
        m > 0,
        a % m == b % m,
    ensures
        (a + 1) % m == (b + 1) % m,
{
    vstd::arithmetic::div_mod::lemma_add_mod_noop(a as int, 1, m as int);
    vstd::arithmetic::div_mod::lemma_add_mod_noop(b as int, 1, m as int);
}

proof fn lemma_ascii_count_prefix(s: Seq<char>, i: int)
    requires
        0 <= i <= s.len(),
    ensures
        ascii_count(s.take(i)) <= ascii_count(s),
    decreases s.len() - i,
{
    if i < s.len() {
        lemma_ascii_count_step(s, i);
        lemma_ascii_count_prefix(s, i + 1);
    } else {
        assert(s.take(i) == s);
    }
}

/// Encrypts `message` under `key`: the `k`-th ASCII character is rotated
/// forward within the band by the `k mod n`-th shift amount of the key
/// (reduced mod 95), where `n` is the number of key bytes.
pub fn encrypt(message: &str, key: &str) -> (out: String)
    requires
        cipher_input_ok(message@, key@),
    ensures
        out@ == encrypted(message@, key_shifts(key@)),
{
    let shifts = shifts_of_key(key);
    let chars = chars_of(message);
    rotate_all(&chars, &shifts, true)
}

/// Decrypts `ciphertext` under `key`: the `k`-th ASCII character is rotated
/// backward within the band by the `k mod n`-th shift amount of the key.
pub fn decrypt(ciphertext: &str, key: &str) -> (out: String)
    requires
        cipher_input_ok(ciphertext@, key@),
    ensures
        out@ == decrypted(ciphertext@, key_shifts(key@)),
{
    let shifts = shifts_of_key(key);
    let chars = chars_of(ciphertext);
    rotate_all(&chars, &shifts, false)
}

proof fn lemma_rotate_round_trip(c: char, shift: int)
    requires
        in_band(c),
        0 <= shift < 95,
    ensures
        is_ascii_char(rotate_forward(c, shift)),
        in_band(rotate_forward(c, shift)),
        rotate_backward(rotate_forward(c, shift), shift) == c,
{
    let x = c as u32 - 32;
    let y = (x + shift) % 95;
    if x + shift < 95 {
        vstd::arithmetic::div_mod::lemma_small_mod((x + shift) as nat, 95);
        assert(y == x + shift);
        vstd::arithmetic::div_mod::lemma_mod_add_multiples_vanish(x, 95);
        vstd::arithmetic::div_mod::lemma_small_mod(x as nat, 95);
        assert((y + 95 - shift) % 95 == x);
    } else {
        vstd::arithmetic::div_mod::lemma_mod_sub_multiples_vanish(x + shift, 95);
        vstd::arithmetic::div_mod::lemma_small_mod((x + shift - 95) as nat, 95);
        assert(y == x + shift - 95);
        vstd::arithmetic::div_mod::lemma_small_mod(x as nat, 95);
        assert((y + 95 - shift) % 95 == x);
    }
    let r = rotate_forward(c, shift);
    assert(r as u32 == y + 32);
}

proof fn lemma_rotate_forward_ascii(c: char, shift: int)
    requires
        is_cipherable(c),
        is_ascii_char(c),
        0 <= shift < 95,
    ensures
        in_band(rotate_forward(c, shift)),
{
    let y = (c as u32 - 32 + shift) % 95;
    assert(0 <= y < 95);
}

/// Encryption keeps each character's ASCII-ness, so both texts agree on the
/// number of ASCII characters before every position.
proof fn lemma_encrypted_ascii_count(m: Seq<char>, shifts: Seq<u8>, i: int)
    requires
        0 <= i <= m.len(),
        forall|k: int| 0 <= k < m.len() ==> is_cipherable(#[trigger] m[k]),
        shifts.len() > 0 || ascii_count(m) == 0,
    ensures
        ascii_count(encrypted(m, shifts).take(i)) == ascii_count(m.take(i)),
    decreases i,
{
    let e = encrypted(m, shifts);
    if i > 0 {
        lemma_encrypted_ascii_count(m, shifts, i - 1);
        lemma_ascii_count_step(m, i - 1);
        lemma_ascii_count_step(e, i - 1);
        if is_ascii_char(m[i - 1]) {
            lemma_ascii_count_prefix(m, i);
            lemma_ascii_count_prefix(m, i - 1);
            let k = ascii_count(m.take(i - 1));
            if shifts.len() > 0 {
                lemma_shift_bound(shifts, k);
            }
            lemma_rotate_forward_ascii(m[i - 1], shift_at(shifts, k));
        }
    } else {
        assert(e.take(0) == m.take(0));
    }
}

proof fn lemma_shift_bound(shifts: Seq<u8>, k: nat)
    requires
        shifts.len() > 0,
    ensures
        0 <= shift_at(shifts, k) < 95,
{
    vstd::arithmetic::div_mod::lemma_mod_bound(k as int, shifts.len() as int);
}

/// The key's shift amounts are used in turn and from the start again: the
/// shift for the `k`-th ASCII character is the one for the `(k + n)`-th, where
/// `n` is the number of shift amounts, and the first `n` ASCII characters take
/// the amounts in order (each reduced mod 95).
pub proof fn shifts_are_used_in_turn(shifts: Seq<u8>, k: nat)
    requires
        shifts.len() > 0,
    ensures
        shift_at(shifts, k + shifts.len()) == shift_at(shifts, k),
        k < shifts.len() ==> shift_at(shifts, k) == shifts[k as int] % 95,
{
    vstd::arithmetic::div_mod::lemma_mod_add_multiples_vanish(k as int, shifts.len() as int);
    if k < shifts.len() {
        lemma_small_mod(k, shifts.len());
    }
}

proof fn lemma_ascii_count_all_ascii(m: Seq<char>, i: int)
    requires
        0 <= i <= m.len(),
        forall|j: int| 0 <= j < m.len() ==> is_ascii_char(#[trigger] m[j]),
    ensures
        ascii_count(m.take(i)) == i,
    decreases i,
{
    if i > 0 {
        lemma_ascii_count_all_ascii(m, i - 1);
        lemma_ascii_count_step(m, i - 1);
    } else {
        assert(m.take(0) == Seq::<char>::empty());
    }
}

/// For a message of ASCII characters no lower than the space, character `i`
/// of the encryption under `key` is character `i` of the message moved
/// forward within the printable band (space to `~`, 95 characters) by shift
/// amount `i mod n` of the key, where the shift amounts are the key's UTF-8
/// bytes less the byte of `'0'` (at least zero) and `n` is their number.
pub proof fn ascii_encryption_by_position(m: Seq<char>, key: Seq<char>, i: int)
    requires
        encode_utf8(key).len() > 0,
        forall|j: int| 0 <= j < m.len() ==> 32 <= (#[trigger] m[j] as u32) < 128,
        0 <= i < m.len(),
    ensures
        ({
            let b = encode_utf8(key);
            let byte = b[i % (b.len() as int)];
            let shift: int = if byte >= 48 { byte - 48 } else { 0 };
            encrypted(m, key_shifts(key))[i] as u32 == (m[i] as u32 - 32 + shift % 95) % 95 + 32
        }),
{
    let b = encode_utf8(key);
    let s = key_shifts(key);
    assert(forall|j: int| 0 <= j < m.len() ==> is_ascii_char(#[trigger] m[j]));
    lemma_ascii_count_all_ascii(m, i);
    vstd::arithmetic::div_mod::lemma_mod_bound(i, b.len() as int);
    assert(s[i % (s.len() as int)] == (if b[i % (b.len() as int)] >= 48 { (b[i % (b.len() as int)] - 48) as u8 } else { 0u8 }));
    let v = (m[i] as u32 - 32 + shift_at(s, ascii_count(m.take(i)))) % 95 + 32;
    assert(0 <= v < 128);
}

/// Encryption keeps the length of a message and every character outside
/// ASCII, and turns every ASCII character into one of the printable band.
pub proof fn encryption_keeps_shape(m: Seq<char>, key: Seq<char>)
    requires
        cipher_input_ok(m, key),
    ensures
        encrypted(m, key_shifts(key)).len() == m.len(),
        forall|i: int|
            0 <= i < m.len() ==> (if is_ascii_char(#[trigger] m[i]) {
                in_band(encrypted(m, key_shifts(key))[i])
            } else {
                encrypted(m, key_shifts(key))[i] == m[i]
            }),
{
    let s = key_shifts(key);
    assert forall|i: int| 0 <= i < m.len() implies (if is_ascii_char(#[trigger] m[i]) {
        in_band(encrypted(m, s)[i])
    } else {
        encrypted(m, s)[i] == m[i]
    }) by {
        if is_ascii_char(m[i]) {
            lemma_ascii_count_prefix(m, i);
            if s.len() == 0 {
                lemma_ascii_count_step(m, i);
                lemma_ascii_count_prefix(m, i + 1);
            }
            lemma_shift_bound(s, ascii_count(m.take(i)));
            lemma_rotate_forward_ascii(m[i], shift_at(s, ascii_count(m.take(i))));
        }
    }
}

/// Decryption under a key undoes encryption under the same key, for every
/// message whose ASCII characters all lie in the printable band (space to
/// `~`); the ciphertext is always acceptable to `decrypt`.
pub proof fn decrypt_undoes_encrypt(m: Seq<char>, key: Seq<char>)
    requires
        forall|i: int| 0 <= i < m.len() && is_ascii_char(#[trigger] m[i]) ==> in_band(m[i]),
        key_shifts(key).len() > 0 || ascii_count(m) == 0,
    ensures
        cipher_input_ok(encrypted(m, key_shifts(key)), key),
        decrypted(encrypted(m, key_shifts(key)), key_shifts(key)) == m,
{
    let s = key_shifts(key);
    let e = encrypted(m, s);
    assert forall|k: int| 0 <= k < m.len() implies is_cipherable(#[trigger] m[k]) by {}
    assert forall|i: int| 0 <= i < e.len() implies is_cipherable(#[trigger] e[i])
        && is_ascii_char(e[i]) == is_ascii_char(m[i])
        && (is_ascii_char(m[i]) ==> rotate_backward(e[i], shift_at(s, ascii_count(e.take(i)))) == m[i])
    by {
        lemma_encrypted_ascii_count(m, s, i);
        if is_ascii_char(m[i]) {
            lemma_ascii_count_prefix(m, i);
            if s.len() == 0 {
                lemma_ascii_count_step(m, i);
                lemma_ascii_count_prefix(m, i + 1);
            }
            lemma_shift_bound(s, ascii_count(m.take(i)));
            lemma_rotate_round_trip(m[i], shift_at(s, ascii_count(m.take(i))));
        }
    }
    lemma_encrypted_ascii_count(m, s, m.len() as int);
    assert(e.take(m.len() as int) == e);
    assert(m.take(m.len() as int) == m);
    assert(decrypted(e, s) =~= m);
}

} // verus!
