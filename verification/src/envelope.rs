//! How an encrypted message travels: the reply that carries it, the split of
//! a referenced reply back into message id and ciphertext, and who may read it.

use vstd::prelude::*;
use vstd::utf8::*;
use crate::cipher::{
    ascii_count, cipher_input_ok, decrypt_undoes_encrypt, decrypted, encrypt, encrypted, in_band,
    is_ascii_char, key_shifts,
};
use crate::decimal::{
    all_digits, decimal, decimal_reads_back, is_digit, parse_chars, parse_reads_decimal, parsed_unsigned,
    push_decimal,
};
use crate::text::{chars_of, is_white_space, trim_chars, trim_end, trim_start, trimmed, trimming_is_idempotent};
use crate::text::push_str;

verus! {

broadcast use vstd::utf8::group_utf8_lib;

/// Data shared by all commands of the bot (it holds nothing).
pub struct Data {}

/// Number of bytes of the message id at the start of an encrypted reply.
pub const ID_BYTES: usize = 19;

/// The reply that carries an encrypted message: the decimal id of the
/// message, then the ciphertext.
pub open spec fn sealed_reply(message_id: nat, message: Seq<char>, key: Seq<char>) -> Seq<char> {
    decimal(message_id) + encrypted(message, key_shifts(key))
}

/// Encrypts `message` under `key` and puts the decimal `message_id` in front.
pub fn encrypted_reply(message_id: u64, message: &str, key: &str) -> (out: String)
    requires
        cipher_input_ok(message@, key@),
    ensures
        out@ == sealed_reply(message_id as nat, message@, key@),
{
    let mut out = String::new();
    push_decimal(&mut out, message_id);
    let body = encrypt(message, key);
    push_str(&mut out, body.as_str());
    out
}

/// The part of `text` whose UTF-8 encoding is the first `n` bytes of the
/// encoding of `text`, and the part after it.
pub open spec fn byte_split(text: Seq<char>, n: int) -> (Seq<char>, Seq<char>) {
    let bytes = encode_utf8(text);
    (decode_utf8(bytes.subrange(0, n)), decode_utf8(bytes.subrange(n, bytes.len() as int)))
}

/// Splits a referenced reply after its first `ID_BYTES` bytes into the
/// message id text and the ciphertext; `None` where `str::split_at` would
/// panic: the text is shorter than that, or the byte there is inside a
/// character.
pub fn split_reference(text: &str) -> (out: Option<(String, String)>)
    ensures
        out is Some <==> is_char_boundary(encode_utf8(text@), ID_BYTES as int),
        out matches Some((id, rest)) ==> {
            &&& (id@, rest@) == byte_split(text@, ID_BYTES as int)
            &&& id@ + rest@ == text@
            &&& encode_utf8(id@).len() == ID_BYTES
        },
{
    if !text.is_char_boundary(ID_BYTES) {
        return None;
    }
    let (a, b) = text.split_at(ID_BYTES);
    proof {
        let bytes = encode_utf8(text@);
        assert(a@ == decode_utf8(encode_utf8(a@)));
        assert(b@ == decode_utf8(encode_utf8(b@)));
        decode_utf8_split(bytes, ID_BYTES as int);
        assert(text@ == decode_utf8(bytes));
    }
    Some((a.to_owned(), b.to_owned()))
}

proof fn lemma_encode_concat(a: Seq<char>, b: Seq<char>)
    ensures
        encode_utf8(a + b) == encode_utf8(a) + encode_utf8(b),
    decreases a.len(),
{
    if a.len() > 0 {
        assert((a + b).drop_first() == a.drop_first() + b);
        lemma_encode_concat(a.drop_first(), b);
        assert(encode_utf8(a + b) =~= encode_utf8(a) + encode_utf8(b));
    } else {
        assert(a + b == b);
        assert(encode_utf8(a) + encode_utf8(b) =~= encode_utf8(b));
    }
}

proof fn lemma_boundary_after_prefix(a: Seq<char>, b: Seq<char>)
    ensures
        is_char_boundary(encode_utf8(a + b), encode_utf8(a).len() as int),
    decreases a.len(),
{
    let bytes = encode_utf8(a + b);
    if a.len() > 0 {
        encode_utf8_first_scalar(a + b);
        assert((a + b).drop_first() == a.drop_first() + b);
        assert(pop_first_scalar(bytes) =~= encode_utf8(a.drop_first() + b));
        assert(encode_utf8(a).len() == encode_scalar(a[0] as u32).len() + encode_utf8(
            a.drop_first(),
        ).len());
        assert((a + b)[0] == a[0]);
        lemma_boundary_after_prefix(a.drop_first(), b);
    }
}

proof fn lemma_decimal_ascii(n: nat)
    ensures
        encode_utf8(decimal(n)).len() == decimal(n).len(),
{
    decimal_reads_back(n);
    assert(is_ascii_chars(decimal(n)));
    is_ascii_chars_encode_utf8(decimal(n));
}

/// `text` cut at every `'\n'` (a text with `k` newlines gives `k + 1` pieces).
pub open spec fn newline_split(text: Seq<char>) -> Seq<Seq<char>>
    decreases text.len(),
{
    if text.len() == 0 {
        seq![Seq::<char>::empty()]
    } else {
        let p = newline_split(text.drop_last());
        if text.last() == '\n' {
            p.push(Seq::<char>::empty())
        } else {
            p.update(p.len() - 1, p.last().push(text.last()))
        }
    }
}

/// The numbers written on the given lines, in order: each line is trimmed
/// and read as a `u64`; lines that do not read as one are skipped.
pub open spec fn ids_of_lines(lines: Seq<Seq<char>>) -> Seq<u64>
    decreases lines.len(),
{
    if lines.len() == 0 {
        Seq::empty()
    } else {
        let r = ids_of_lines(lines.drop_last());
        match parsed_unsigned(trimmed(lines.last()), u64::MAX as nat) {
            Some(v) => r.push(v as u64),
            None => r,
        }
    }
}

/// The user ids listed in the permission file's text: one per line,
/// surrounded by any white space; other lines are ignored. (Cutting at
/// `'\n'` alone gives the same ids as `str::lines`, since a `'\r'` before the
/// cut is white space and an empty last piece is skipped.)
pub open spec fn permitted_ids_of(text: Seq<char>) -> Seq<u64> {
    ids_of_lines(newline_split(text))
}

fn read_id_line(ids: &mut Vec<u64>, line: &Vec<char>)
    ensures
        final(ids)@ == match parsed_unsigned(trimmed(line@), u64::MAX as nat) {
            Some(v) => old(ids)@.push(v as u64),
            None => old(ids)@,
        },
{
    let t = trim_chars(line);
    match parse_chars(&t, u64::MAX) {
        Some(v) => ids.push(v),
        None => {},
    }
}

/// Reads the user ids from the permission file's text: every line that,
/// trimmed, parses as a `u64`.
pub fn permitted_ids(text: &str) -> (ids: Vec<u64>)
    ensures
        ids@ == permitted_ids_of(text@),
{
    let chars = chars_of(text);
    let n = chars.len();
    let mut ids: Vec<u64> = Vec::new();
    let mut line: Vec<char> = Vec::new();
    assert(chars@.take(0) == Seq::<char>::empty());
    for i in 0..n
        invariant
            n == chars@.len(),
            chars@ == text@,
            newline_split(chars@.take(i as int)).len() >= 1,
            ids@ == ids_of_lines(newline_split(chars@.take(i as int)).drop_last()),
            line@ == newline_split(chars@.take(i as int)).last(),
    {
        let ghost prev = newline_split(chars@.take(i as int));
        assert(chars@.take(i + 1).drop_last() == chars@.take(i as int));
        assert(chars@.take(i + 1).last() == chars@[i as int]);
        if chars[i] == '\n' {
            assert(newline_split(chars@.take(i + 1)) == prev.push(Seq::<char>::empty()));
            assert(prev.push(Seq::<char>::empty()).drop_last() == prev);
            assert(prev.drop_last().push(prev.last()) == prev);
            read_id_line(&mut ids, &line);
            line = Vec::new();
        } else {
            line.push(chars[i]);
            let ghost next = prev.update(prev.len() - 1, prev.last().push(chars@[i as int]));
            assert(next.drop_last() == prev.drop_last());
        }
    }
    assert(chars@.take(n as int) == chars@);
    let ghost all = newline_split(chars@);
    assert(all.drop_last().push(all.last()) == all);
    read_id_line(&mut ids, &line);
    ids
}

/// A permission file that lists `ids`, each in decimal on a line of its own.
pub open spec fn id_lines(ids: Seq<u64>) -> Seq<char>
    decreases ids.len(),
{
    if ids.len() == 0 {
        Seq::empty()
    } else {
        id_lines(ids.drop_last()) + decimal(ids.last() as nat) + seq!['\n']
    }
}

proof fn lemma_split_extend(x: Seq<char>, d: Seq<char>)
    requires
        forall|i: int| 0 <= i < d.len() ==> #[trigger] d[i] != '\n',
    ensures
        newline_split(x + d) == newline_split(x).update(
            newline_split(x).len() - 1,
            newline_split(x).last() + d,
        ),
        newline_split(x).len() >= 1,
    decreases d.len(),
{
    lemma_split_len(x);
    if d.len() == 0 {
        assert(x + d == x);
        assert(newline_split(x).last() + d == newline_split(x).last());
        assert(newline_split(x).update(newline_split(x).len() - 1, newline_split(x).last())
            == newline_split(x));
    } else {
        let d0 = d.drop_last();
        lemma_split_extend(x, d0);
        assert((x + d).drop_last() == x + d0);
        assert((x + d).last() == d.last());
        lemma_split_len(x + d0);
        assert(d.last() != '\n');
        assert((newline_split(x).last() + d0).push(d.last()) == newline_split(x).last() + d);
        assert(newline_split(x + d) =~= newline_split(x).update(
            newline_split(x).len() - 1,
            newline_split(x).last() + d,
        ));
    }
}

proof fn lemma_split_len(x: Seq<char>)
    ensures
        newline_split(x).len() >= 1,
    decreases x.len(),
{
    if x.len() > 0 {
        lemma_split_len(x.drop_last());
    }
}

proof fn lemma_id_lines_split(ids: Seq<u64>)
    ensures
        newline_split(id_lines(ids)).len() >= 1,
        newline_split(id_lines(ids)).last() == Seq::<char>::empty(),
        ids_of_lines(newline_split(id_lines(ids))) == ids,
    decreases ids.len(),
{
    if ids.len() > 0 {
        let prev = ids.drop_last();
        let x = id_lines(prev);
        let v = ids.last();
        let d = decimal(v as nat);
        lemma_id_lines_split(prev);
        decimal_reads_back(v as nat);
        assert forall|i: int| 0 <= i < d.len() implies #[trigger] d[i] != '\n' by {
            assert(is_digit(d[i]));
        }
        lemma_split_extend(x, d);
        let p = newline_split(x);
        let pd = newline_split(x + d);
        assert(p.last() + d == d);
        assert(pd == p.update(p.len() - 1, d));
        let full = x + d + seq!['\n'];
        assert(full.drop_last() == x + d);
        assert(newline_split(full) == pd.push(Seq::<char>::empty()));
        assert(pd.push(Seq::<char>::empty()).drop_last() == pd);
        assert(pd.drop_last() == p.drop_last());
        assert(ids_of_lines(p) == ids_of_lines(p.drop_last())) by {
            assert(trimmed(p.last()) == Seq::<char>::empty());
        }
        assert(trimmed(Seq::<char>::empty()) == Seq::<char>::empty());
        lemma_digits_trim(d);
        parse_reads_decimal(v as nat, u64::MAX as nat);
        assert(pd.last() == d);
        assert(ids_of_lines(pd) == ids_of_lines(p.drop_last()).push(v));
        let e = Seq::<char>::empty();
        assert(ids_of_lines(pd.push(e)) == ids_of_lines(pd));
        assert(ids_of_lines(p.drop_last()) == prev);
        assert(prev.push(v) == ids);
        assert(id_lines(ids) == full);
        assert(ids_of_lines(newline_split(id_lines(ids))) == ids);
    } else {
        let e = Seq::<char>::empty();
        assert(id_lines(ids) == e);
        assert(newline_split(e) == seq![e]);
        assert(seq![e].drop_last() == Seq::<Seq<char>>::empty());
        assert(trimmed(e) == e);
        assert(seq![e].last() == e);
        assert(ids_of_lines(Seq::<Seq<char>>::empty()) == Seq::<u64>::empty());
        assert(parsed_unsigned(e, u64::MAX as nat) is None);
        assert(ids_of_lines(seq![e]) == Seq::<u64>::empty());
        assert(ids =~= Seq::<u64>::empty());
    }
}

proof fn lemma_digits_trim(d: Seq<char>)
    requires
        d.len() > 0,
        all_digits(d),
    ensures
        trimmed(d) == d,
{
    assert(is_digit(d[0]));
    assert(trim_start(d) == d);
    assert(is_digit(d.last()));
}

/// A permission file that lists ids one per line grants exactly those ids,
/// in order.
pub proof fn listed_ids_are_read_back(ids: Seq<u64>)
    ensures
        permitted_ids_of(id_lines(ids)) == ids,
{
    lemma_id_lines_split(ids);
}

/// Each line counts only through its trimmed text: trimming every line
/// first reads the same ids, so white space around an id (such as the `'\r'`
/// of a Windows line ending) never changes what is read.
pub proof fn lines_are_read_trimmed(lines: Seq<Seq<char>>)
    ensures
        ids_of_lines(lines) == ids_of_lines(lines.map_values(|l: Seq<char>| trimmed(l))),
    decreases lines.len(),
{
    if lines.len() > 0 {
        let m = lines.map_values(|l: Seq<char>| trimmed(l));
        lines_are_read_trimmed(lines.drop_last());
        assert(m.drop_last() == lines.drop_last().map_values(|l: Seq<char>| trimmed(l)));
        assert(m.last() == trimmed(lines.last()));
        trimming_is_idempotent(lines.last());
    } else {
        assert(lines.map_values(|l: Seq<char>| trimmed(l)) == Seq::<Seq<char>>::empty());
    }
}

/// A permission file that lists `ids`, each in decimal followed by a Windows
/// line ending (`"\r\n"`).
pub open spec fn id_lines_crlf(ids: Seq<u64>) -> Seq<char>
    decreases ids.len(),
{
    if ids.len() == 0 {
        Seq::empty()
    } else {
        id_lines_crlf(ids.drop_last()) + decimal(ids.last() as nat) + seq!['\r', '\n']
    }
}

proof fn lemma_crlf_split(ids: Seq<u64>)
    ensures
        newline_split(id_lines_crlf(ids)).len() >= 1,
        newline_split(id_lines_crlf(ids)).last() == Seq::<char>::empty(),
        ids_of_lines(newline_split(id_lines_crlf(ids))) == ids,
    decreases ids.len(),
{
    let e = Seq::<char>::empty();
    if ids.len() > 0 {
        let prev = ids.drop_last();
        let x = id_lines_crlf(prev);
        let v = ids.last();
        let d = decimal(v as nat) + seq!['\r'];
        lemma_crlf_split(prev);
        decimal_reads_back(v as nat);
        assert forall|i: int| 0 <= i < d.len() implies #[trigger] d[i] != '\n' by {
            if i < decimal(v as nat).len() {
                assert(is_digit(decimal(v as nat)[i]));
            }
        }
        lemma_split_extend(x, d);
        let p = newline_split(x);
        let pd = newline_split(x + d);
        assert(p.last() + d == d);
        let full = x + d + seq!['\n'];
        assert(id_lines_crlf(ids) == full);
        assert(full.drop_last() == x + d);
        assert(newline_split(full) == pd.push(e));
        assert(pd.push(e).drop_last() == pd);
        assert(pd.drop_last() == p.drop_last());
        assert(pd.last() == d);
        assert(ids_of_lines(p) == ids_of_lines(p.drop_last())) by {
            assert(trimmed(p.last()) == e);
        }
        assert(trimmed(d) == decimal(v as nat)) by {
            assert(d.last() == '\r');
            assert(is_white_space('\r'));
            assert(d.drop_last() == decimal(v as nat));
            lemma_digits_trim(decimal(v as nat));
            assert(d[0] == decimal(v as nat)[0]);
            assert(is_digit(d[0]));
            assert(trim_start(d) == d);
            assert(trim_end(d) == trim_end(decimal(v as nat)));
        }
        parse_reads_decimal(v as nat, u64::MAX as nat);
        assert(ids_of_lines(pd) == ids_of_lines(p.drop_last()).push(v));
        assert(trimmed(e) == e);
        assert(ids_of_lines(pd.push(e)) == ids_of_lines(pd));
        assert(ids_of_lines(p.drop_last()) == prev);
        assert(prev.push(v) == ids);
    } else {
        assert(id_lines_crlf(ids) == e);
        assert(newline_split(e) == seq![e]);
        assert(seq![e].drop_last() == Seq::<Seq<char>>::empty());
        assert(trimmed(e) == e);
        assert(seq![e].last() == e);
        assert(ids_of_lines(Seq::<Seq<char>>::empty()) == Seq::<u64>::empty());
        assert(parsed_unsigned(e, u64::MAX as nat) is None);
        assert(ids_of_lines(seq![e]) == Seq::<u64>::empty());
        assert(ids =~= Seq::<u64>::empty());
    }
}

/// A permission file with Windows line endings grants exactly the ids it
/// lists, in order.
pub proof fn crlf_listed_ids_are_read_back(ids: Seq<u64>)
    ensures
        permitted_ids_of(id_lines_crlf(ids)) == ids,
{
    lemma_crlf_split(ids);
}

/// Whether `author` is one of `ids`.
pub fn is_permitted(ids: &Vec<u64>, author: u64) -> (allowed: bool)
    ensures
        allowed == ids@.contains(author),
{
    let n = ids.len();
    for i in 0..n
        invariant
            n == ids@.len(),
            forall|k: int| 0 <= k < i ==> ids@[k] != author,
    {
        if ids[i] == author {
            return true;
        }
    }
    false
}

/// A reply that carries an encrypted message, with a message id of
/// `ID_BYTES` decimal digits, splits back into the id's text and the
/// ciphertext.
pub proof fn reference_splits_sealed_reply(message_id: nat, message: Seq<char>, key: Seq<char>)
    requires
        decimal(message_id).len() == ID_BYTES,
    ensures
        is_char_boundary(encode_utf8(sealed_reply(message_id, message, key)), ID_BYTES as int),
        byte_split(sealed_reply(message_id, message, key), ID_BYTES as int) == (
            decimal(message_id),
            encrypted(message, key_shifts(key)),
        ),
{
    let a = decimal(message_id);
    let b = encrypted(message, key_shifts(key));
    lemma_decimal_ascii(message_id);
    lemma_encode_concat(a, b);
    lemma_boundary_after_prefix(a, b);
    let bytes = encode_utf8(a + b);
    assert(bytes.subrange(0, ID_BYTES as int) =~= encode_utf8(a));
    assert(bytes.subrange(ID_BYTES as int, bytes.len() as int) =~= encode_utf8(b));
}

/// What the bot seals can be opened again: the referenced reply splits into
/// the message id's text and a ciphertext that `decrypt` accepts, and
/// decrypting that under the same key gives the message back. This holds for
/// message ids of `ID_BYTES` digits and messages whose ASCII characters are
/// all printable (space to `~`).
pub proof fn sealed_reply_opens(message_id: nat, message: Seq<char>, key: Seq<char>)
    requires
        decimal(message_id).len() == ID_BYTES,
        forall|i: int|
            0 <= i < message.len() && is_ascii_char(#[trigger] message[i]) ==> in_band(message[i]),
        key_shifts(key).len() > 0 || ascii_count(message) == 0,
    ensures
        ({
            let (id, ciphertext) = byte_split(sealed_reply(message_id, message, key), ID_BYTES as int);
            &&& id == decimal(message_id)
            &&& cipher_input_ok(ciphertext, key)
            &&& decrypted(ciphertext, key_shifts(key)) == message
        }),
{
    reference_splits_sealed_reply(message_id, message, key);
    decrypt_undoes_encrypt(message, key);
}

} // verus!
