//! Generation of the numeric keys that encrypted messages are sealed with.

use vstd::prelude::*;
use rand::Rng;
use crate::decimal::{all_digits, decimal, decimal_reads_back, decimal_string, is_digit};
use crate::cipher::key_shifts;
use vstd::utf8::*;
use crate::text::chars_of;
use crate::text::string_of;

verus! {

#[verifier::external_type_specification]
#[verifier::external_body]
pub struct ExThreadRng(rand::rngs::ThreadRng);

/// Calls `rand::rng()`, a handle to this thread's random generator. Nothing
/// is claimed of the handle.
#[verifier::external_body]
fn thread_rng() -> rand::rngs::ThreadRng {
    rand::rng()
}

/// Calls `Rng::random_range` with the inclusive range `low..=high`, which
/// returns a value drawn from that range; it panics on an empty range, so
/// `low <= high` is required. Which value comes out is left open.
#[verifier::external_body]
fn random_in(rng: &mut rand::rngs::ThreadRng, low: u64, high: u64) -> (r: u64)
    requires
        low <= high,
    ensures
        low <= r <= high,
{
    rng.random_range(low..=high)
}

/// The number that the key is made of, for a multiplier `index`, a base `key`
/// and a final digit `last`.
pub open spec fn protocol_value(index: nat, key: nat, last: nat) -> nat {
    (key * index + key / index + key * key) * 10 + last
}

/// The numbers that `generate_new_protocol` can give.
pub open spec fn is_protocol_number(n: nat) -> bool {
    exists|index: nat, key: nat, last: nat|
        2 <= index <= 9 && 9999 <= key <= 99999 && 1 <= last <= 9 && n == #[trigger] protocol_value(
            index,
            key,
            last,
        )
}

/// Computes `(key * index + key / index + key * key) * 10 + last`.
pub fn protocol_number(index: u64, key: u64, last: u64) -> (n: u64)
    requires
        index > 0,
        protocol_value(index as nat, key as nat, last as nat) <= u64::MAX,
    ensures
        n == protocol_value(index as nat, key as nat, last as nat),
{
    proof {
        assert(key * index >= 0 && key * key >= 0 && key / index >= 0) by (nonlinear_arith)
            requires
                index > 0,
        ;
    }
    (key * index + key / index + key * key) * 10 + last
}

proof fn lemma_protocol_fits(index: nat, key: nat, last: nat)
    requires
        2 <= index <= 9,
        9999 <= key <= 99999,
        1 <= last <= 9,
    ensures
        protocol_value(index, key, last) <= 100_009_898_999,
{
    assert(key * index <= 899991) by (nonlinear_arith)
        requires
            index <= 9,
            key <= 99999,
    ;
    assert(key * key <= 9999800001) by (nonlinear_arith)
        requires
            key <= 99999,
    ;
    assert(key / index <= 49999) by (nonlinear_arith)
        requires
            index >= 2,
            key <= 99999,
    ;
}

/// Draws a fresh key number: a multiplier in `2..=9`, a base in
/// `9999..=99999` and a final digit in `1..=9`, combined by `protocol_value`.
pub fn generate_new_protocol() -> (n: u64)
    ensures
        is_protocol_number(n as nat),
        n <= 100_009_898_999,
{
    let mut rng = thread_rng();
    let index = random_in(&mut rng, 2, 9);
    let key = random_in(&mut rng, 9999, 99999);
    let last = random_in(&mut rng, 1, 9);
    proof {
        lemma_protocol_fits(index as nat, key as nat, last as nat);
    }
    let n = protocol_number(index, key, last);
    assert(n == protocol_value(index as nat, key as nat, last as nat));
    n
}

/// The key text of a number: its decimal text, less its last digit when that
/// text is longer than ten characters.
pub open spec fn key_text(n: nat) -> Seq<char> {
    if decimal(n).len() > 10 {
        decimal(n).drop_last()
    } else {
        decimal(n)
    }
}

/// The key text of `n`, as the bot stores it.
pub fn protocol_key(n: u64) -> (key: String)
    ensures
        key@ == key_text(n as nat),
{
    let text = decimal_string(n);
    let mut digits = chars_of(text.as_str());
    if digits.len() > 10 {
        digits.pop();
    }
    string_of(digits.as_slice())
}

/// A freshly drawn key, in the form the bot stores it.
pub fn new_key() -> (key: String)
    ensures
        exists|n: nat| is_protocol_number(n) && key@ == key_text(n),
{
    let n = generate_new_protocol();
    protocol_key(n)
}

/// Ten to the power `k`.
pub open spec fn pow10(k: nat) -> nat
    decreases k,
{
    if k == 0 {
        1
    } else {
        10 * pow10((k - 1) as nat)
    }
}

proof fn lemma_decimal_len(n: nat, k: nat)
    ensures
        n >= pow10(k) ==> decimal(n).len() >= k + 1,
        n < pow10(k) ==> decimal(n).len() <= k || (k == 0 && decimal(n).len() == 1),
    decreases n,
{
    if n >= 10 {
        if k > 0 {
            lemma_decimal_len(n / 10, (k - 1) as nat);
            assert(n >= pow10(k) ==> n / 10 >= pow10((k - 1) as nat));
            assert(n < pow10(k) ==> n / 10 < pow10((k - 1) as nat));
        } else {
            lemma_decimal_len(n / 10, 0);
        }
    } else if k > 0 {
        assert(pow10(k) >= 10) by {
            lemma_pow10_positive((k - 1) as nat);
        }
    }
}

proof fn lemma_pow10_positive(k: nat)
    ensures
        pow10(k) >= 1,
    decreases k,
{
    if k > 0 {
        lemma_pow10_positive((k - 1) as nat);
    }
}

/// Every key that `new_key` can give is made of ten or eleven decimal
/// digits, so its shift amounts are as many values from 0 to 9 and there is
/// always at least one.
pub proof fn generated_keys_are_digits(n: nat)
    requires
        is_protocol_number(n),
    ensures
        10 <= key_text(n).len() <= 11,
        all_digits(key_text(n)),
        key_shifts(key_text(n)).len() == key_text(n).len(),
        forall|i: int| 0 <= i < key_text(n).len() ==> #[trigger] key_shifts(key_text(n))[i] <= 9,
{
    let (index, key, last) = choose|index: nat, key: nat, last: nat|
        2 <= index <= 9 && 9999 <= key <= 99999 && 1 <= last <= 9 && n == #[trigger] protocol_value(
            index,
            key,
            last,
        );
    lemma_protocol_fits(index, key, last);
    assert(key * key >= 99980001) by (nonlinear_arith)
        requires
            key >= 9999,
    ;
    assert(key * index >= 19998) by (nonlinear_arith)
        requires
            index >= 2,
            key >= 9999,
    ;
    assert(key / index >= 1111) by (nonlinear_arith)
        requires
            2 <= index <= 9,
            key >= 9999,
    ;
    assert(n >= 1000000000);
    reveal_with_fuel(pow10, 13);
    lemma_decimal_len(n, 9);
    lemma_decimal_len(n, 12);
    decimal_reads_back(n);
    let t = key_text(n);
    assert(all_digits(t)) by {
        assert forall|i: int| 0 <= i < t.len() implies is_digit(#[trigger] t[i]) by {
            assert(t[i] == decimal(n)[i]);
        }
    }
    assert(is_ascii_chars(t));
    is_ascii_chars_encode_utf8(t);
}

} // verus!
