//! Numbers and byte strings as they stand in a file: a number as eight
//! bytes, least significant first, and a byte string behind its length.

use vstd::bytes::{
    lemma_auto_spec_u64_to_from_le_bytes, spec_u64_from_le_bytes, spec_u64_to_le_bytes,
    u64_from_le_bytes, u64_to_le_bytes,
};
use vstd::prelude::*;
use vstd::slice::slice_subrange;
use vstd::utf8::{decode_utf8, encode_utf8, valid_utf8};

verus! {

/// The bytes of `payload` behind their number.
pub open spec fn framed(payload: Seq<u8>) -> Seq<u8> {
    spec_u64_to_le_bytes(payload.len() as u64) + payload
}

/// The number that stands at `at`, where eight bytes are left there.
pub open spec fn read_u64(bytes: Seq<u8>, at: int) -> Option<u64> {
    if 0 <= at && at + 8 <= bytes.len() {
        Some(spec_u64_from_le_bytes(bytes.subrange(at, at + 8)))
    } else {
        None
    }
}

/// The byte string that stands at `at` behind its length, and the place
/// behind it; `None` where the bytes end too early.
pub open spec fn read_framed(bytes: Seq<u8>, at: int) -> Option<(Seq<u8>, int)> {
    match read_u64(bytes, at) {
        Some(n) => if at + 8 + n <= bytes.len() {
            Some((bytes.subrange(at + 8, at + 8 + n), at + 8 + n))
        } else {
            None
        },
        None => None,
    }
}

/// A number written behind `prefix` is read back there.
pub proof fn lemma_read_u64_written(prefix: Seq<u8>, x: u64, rest: Seq<u8>)
    ensures
        read_u64(prefix + spec_u64_to_le_bytes(x) + rest, prefix.len() as int) == Some(x),
        spec_u64_to_le_bytes(x).len() == 8,
{
    lemma_auto_spec_u64_to_from_le_bytes();
    let all = prefix + spec_u64_to_le_bytes(x) + rest;
    let at = prefix.len() as int;
    assert(all.subrange(at, at + 8) =~= spec_u64_to_le_bytes(x));
}

/// A byte string written behind `prefix` with its length is read back
/// there, and the reading ends where the string ends.
pub proof fn lemma_read_framed_written(prefix: Seq<u8>, payload: Seq<u8>, rest: Seq<u8>)
    requires
        payload.len() <= u64::MAX,
    ensures
        read_framed(prefix + framed(payload) + rest, prefix.len() as int) == Some(
            (payload, (prefix.len() + 8 + payload.len()) as int),
        ),
        framed(payload).len() == 8 + payload.len(),
{
    lemma_auto_spec_u64_to_from_le_bytes();
    let n = payload.len() as u64;
    let all = prefix + framed(payload) + rest;
    assert(all =~= prefix + spec_u64_to_le_bytes(n) + (payload + rest));
    lemma_read_u64_written(prefix, n, payload + rest);
    let start = prefix.len() as int + 8;
    assert(all.subrange(start, start + payload.len()) =~= payload);
}

/// Appends `bytes` to `buf`.
pub fn put_bytes(buf: &mut Vec<u8>, bytes: &[u8])
    ensures
        final(buf)@ == old(buf)@ + bytes@,
{
    let mut i: usize = 0;
    while i < bytes.len()
        invariant
            i <= bytes.len(),
            buf@ == old(buf)@ + bytes@.subrange(0, i as int),
        decreases bytes.len() - i,
    {
        buf.push(bytes[i]);
        proof {
            assert(bytes@.subrange(0, i + 1) =~= bytes@.subrange(0, i as int).push(
                bytes@[i as int],
            ));
        }
        i = i + 1;
    }
    proof {
        assert(bytes@.subrange(0, i as int) =~= bytes@);
    }
}

/// Appends `x` to `buf` as eight bytes.
pub fn put_u64(buf: &mut Vec<u8>, x: u64)
    ensures
        final(buf)@ == old(buf)@ + spec_u64_to_le_bytes(x),
        final(buf)@.len() == old(buf)@.len() + 8,
{
    let mut image = u64_to_le_bytes(x);
    buf.append(&mut image);
}

/// Appends `payload` to `buf` behind its length.
pub fn put_framed(buf: &mut Vec<u8>, payload: &[u8])
    ensures
        final(buf)@ == old(buf)@ + framed(payload@),
        final(buf)@.len() == old(buf)@.len() + 8 + payload@.len(),
{
    put_u64(buf, payload.len() as u64);
    put_bytes(buf, payload);
    proof {
        assert(buf@ =~= old(buf)@ + framed(payload@));
    }
}

/// Reads the number at `at`.
pub fn get_u64(bytes: &[u8], at: usize) -> (r: Option<u64>)
    ensures
        r == read_u64(bytes@, at as int),
{
    if bytes.len() < 8 || at > bytes.len() - 8 {
        None
    } else {
        Some(u64_from_le_bytes(slice_subrange(bytes, at, at + 8)))
    }
}

/// Reads the byte string that stands at `at` behind its length, and gives
/// the place behind it.
pub fn get_framed(bytes: &[u8], at: usize) -> (r: Option<(&[u8], usize)>)
    ensures
        match r {
            Some((payload, next)) => read_framed(bytes@, at as int) == Some(
                (payload@, next as int),
            ),
            None => read_framed(bytes@, at as int) is None,
        },
{
    let len = bytes.len();
    match get_u64(bytes, at) {
        None => None,
        Some(n) => {
            let start = at + 8;
            if n > (len - start) as u64 {
                None
            } else {
                let end = start + n as usize;
                Some((slice_subrange(bytes, start, end), end))
            }
        },
    }
}

/// The text that `bytes` encode in UTF-8; `None` where they encode none.
pub open spec fn text_of(bytes: Seq<u8>) -> Option<Seq<char>> {
    if valid_utf8(bytes) {
        Some(decode_utf8(bytes))
    } else {
        None
    }
}

/// A text is read back from its UTF-8 encoding.
pub proof fn lemma_text_of_encoded(text: Seq<char>)
    ensures
        text_of(encode_utf8(text)) == Some(text),
{
    vstd::utf8::encode_utf8_valid_utf8(text);
    vstd::utf8::encode_utf8_decode_utf8(text);
}

/// `String::from_utf8` of std, on a copy of `bytes`: the string whose UTF-8
/// encoding is `bytes`, and `None` exactly where `bytes` are not valid
/// UTF-8.
#[verifier::external_body]
pub(crate) fn string_from_utf8(bytes: &[u8]) -> (r: Option<String>)
    ensures
        match r {
            Some(s) => valid_utf8(bytes@) && encode_utf8(s@) == bytes@,
            None => !valid_utf8(bytes@),
        },
{
    String::from_utf8(bytes.to_vec()).ok()
}

/// The text that `bytes` encode in UTF-8.
pub fn get_text(bytes: &[u8]) -> (r: Option<String>)
    ensures
        match r {
            Some(s) => text_of(bytes@) == Some(s@),
            None => text_of(bytes@) is None,
        },
{
    let r = string_from_utf8(bytes);
    proof {
        if r is Some {
            vstd::utf8::encode_utf8_decode_utf8(r->0@);
        }
    }
    r
}

/// The decimal digit that stands for `d`.
pub open spec fn digit_char(d: nat) -> char
    recommends
        d < 10,
{
    (d + 48) as char
}

/// The number that a decimal digit stands for.
pub open spec fn digit_value(c: char) -> Option<nat> {
    if 48 <= c as nat && c as nat <= 57 {
        Some((c as nat - 48) as nat)
    } else {
        None
    }
}

/// The number that `digits` write in decimal, where all of them are the
/// digits 0 to 9; no digits write 0.
pub open spec fn digits_value(digits: Seq<char>) -> Option<nat>
    decreases digits.len(),
{
    if digits.len() == 0 {
        Some(0)
    } else {
        match (digits_value(digits.drop_last()), digit_value(digits.last())) {
            (Some(n), Some(d)) => Some(10 * n + d),
            _ => None,
        }
    }
}

/// The number that `text` writes in decimal: `None` where `text` is empty
/// or holds anything but the digits 0 to 9.
pub open spec fn decimal_value(text: Seq<char>) -> Option<nat> {
    if text.len() == 0 {
        None
    } else {
        digits_value(text)
    }
}

/// `n` written in decimal, without leading zeros.
pub open spec fn decimal_text(n: nat) -> Seq<char>
    decreases n,
{
    if n < 10 {
        seq![digit_char(n)]
    } else {
        decimal_text(n / 10).push(digit_char(n % 10))
    }
}

/// A number is read back from its decimal text.
pub proof fn law_decimal_round_trip(n: nat)
    ensures
        decimal_value(decimal_text(n)) == Some(n),
        decimal_text(n).len() > 0,
    decreases n,
{
    if n < 10 {
        let t = decimal_text(n);
        assert(t.drop_last() =~= Seq::<char>::empty());
        assert(digits_value(t.drop_last()) == Some(0nat));
        assert(digit_value(t.last()) == Some(n));
    } else {
        law_decimal_round_trip(n / 10);
        let t = decimal_text(n);
        assert(t.drop_last() =~= decimal_text(n / 10));
        assert(digit_value(t.last()) == Some(n % 10));
    }
}

/// Digits that write a number begin with digits that write a number not
/// greater.
pub proof fn lemma_digits_prefix(digits: Seq<char>, i: int)
    requires
        0 <= i <= digits.len(),
        digits_value(digits) is Some,
    ensures
        digits_value(digits.take(i)) is Some,
        digits_value(digits.take(i))->0 <= digits_value(digits)->0,
    decreases digits.len(),
{
    if i == digits.len() {
        assert(digits.take(i) =~= digits);
    } else {
        assert(digits.drop_last().take(i) =~= digits.take(i));
        lemma_digits_prefix(digits.drop_last(), i);
    }
}

/// The number that `text` writes in decimal, where it fits an `i32`.
pub fn parse_decimal(text: &str) -> (r: Option<i32>)
    ensures
        r == match decimal_value(text@) {
            Some(n) => if n <= i32::MAX {
                Some(n as i32)
            } else {
                None
            },
            None => None,
        },
{
    let len = text.unicode_len();
    if len == 0 {
        return None;
    }
    let mut value: i32 = 0;
    let mut i: usize = 0;
    proof {
        assert(text@.take(0) =~= Seq::<char>::empty());
    }
    while i < len
        invariant
            i <= len,
            len == text@.len(),
            digits_value(text@.take(i as int)) == Some(value as nat),
            0 <= value,
        decreases len - i,
    {
        let c = text.get_char(i);
        proof {
            assert(text@.take(i + 1).drop_last() =~= text@.take(i as int));
            assert(text@.take(i + 1).last() == c);
        }
        if c < '0' || c > '9' {
            proof {
                if digits_value(text@) is Some {
                    lemma_digits_prefix(text@, i + 1);
                }
            }
            return None;
        }
        let d = (c as u32 - '0' as u32) as i32;
        if value > (i32::MAX - d) / 10 {
            proof {
                if digits_value(text@) is Some {
                    lemma_digits_prefix(text@, i + 1);
                }
            }
            return None;
        }
        value = value * 10 + d;
        i = i + 1;
    }
    proof {
        assert(text@.take(i as int) =~= text@);
    }
    Some(value)
}

/// The text of one decimal digit.
fn digit_text(d: u32) -> (r: &'static str)
    requires
        d < 10,
    ensures
        r@ == seq![digit_char(d as nat)],
{
    proof {
        reveal_strlit("0");
        reveal_strlit("1");
        reveal_strlit("2");
        reveal_strlit("3");
        reveal_strlit("4");
        reveal_strlit("5");
        reveal_strlit("6");
        reveal_strlit("7");
        reveal_strlit("8");
        reveal_strlit("9");
    }
    let r = if d == 0 {
        "0"
    } else if d == 1 {
        "1"
    } else if d == 2 {
        "2"
    } else if d == 3 {
        "3"
    } else if d == 4 {
        "4"
    } else if d == 5 {
        "5"
    } else if d == 6 {
        "6"
    } else if d == 7 {
        "7"
    } else if d == 8 {
        "8"
    } else {
        "9"
    };
    assert(r@ =~= seq![digit_char(d as nat)]);
    r
}

/// Appends `n` in decimal to `text`.
pub fn put_decimal(text: &mut String, n: u32)
    ensures
        final(text)@ == old(text)@ + decimal_text(n as nat),
    decreases n,
{
    if n >= 10 {
        put_decimal(text, n / 10);
    }
    text.append(digit_text(n % 10));
    proof {
        assert(text@ =~= old(text)@ + decimal_text(n as nat));
    }
}

/// Chunks written one after another are what stands before chunk `i`, then
/// chunk `i`, then what stands behind it.
pub proof fn lemma_flatten_split(chunks: Seq<Seq<u8>>, i: int)
    requires
        0 <= i < chunks.len(),
    ensures
        chunks.flatten() == chunks.take(i).flatten() + chunks[i] + chunks.skip(i + 1).flatten(),
        chunks.take(i + 1).flatten() == chunks.take(i).flatten() + chunks[i],
{
    assert(chunks.take(i + 1) =~= chunks.take(i).push(chunks[i]));
    chunks.take(i).lemma_flatten_push(chunks[i]);
    assert(chunks =~= chunks.take(i + 1) + chunks.skip(i + 1));
    vstd::seq_lib::lemma_flatten_concat(chunks.take(i + 1), chunks.skip(i + 1));
}

/// `n` written in decimal, behind a minus sign where it is negative.
pub open spec fn signed_decimal_text(n: int) -> Seq<char> {
    if n < 0 {
        seq!['-'] + decimal_text((-n) as nat)
    } else {
        decimal_text(n as nat)
    }
}

/// Appends `n` in decimal to `text`, behind a minus sign where it is
/// negative.
pub fn put_signed_decimal(text: &mut String, n: i32)
    ensures
        final(text)@ == old(text)@ + signed_decimal_text(n as int),
{
    if n < 0 {
        proof {
            reveal_strlit("-");
        }
        text.append("-");
        put_decimal(text, (-(n as i64)) as u32);
        proof {
            assert(text@ =~= old(text)@ + signed_decimal_text(n as int));
        }
    } else {
        put_decimal(text, n as u32);
    }
}

} // verus!
