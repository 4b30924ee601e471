//! Reading numbers and fixed words out of text.

use vstd::prelude::*;
use vstd::string::StringSliceAdditionalSpecFns;
use vstd::utf8::{encode_utf8_decode_utf8, is_ascii_chars, is_ascii_chars_encode_utf8};

verus! {

/// `c` is one of the ten decimal digits.
pub open spec fn is_digit(c: char) -> bool {
    '0' <= c <= '9'
}

/// The number that the digit `c` stands for.
pub open spec fn digit_value(c: char) -> nat {
    (c as u32 - '0' as u32) as nat
}

/// `text` is a decimal number: one digit or more, and nothing else.
pub open spec fn is_number(text: Seq<char>) -> bool {
    text.len() > 0 && forall|i: int| 0 <= i < text.len() ==> is_digit(#[trigger] text[i])
}

/// The value of a string of digits, read as a decimal number.
pub open spec fn number_value(text: Seq<char>) -> nat
    decreases text.len(),
{
    if text.len() == 0 {
        0
    } else {
        number_value(text.drop_last()) * 10 + digit_value(text.last())
    }
}

/// The number that `text` spells, if it is a decimal number and no greater
/// than `limit`.
pub open spec fn number_of(text: Seq<char>, limit: nat) -> Option<nat> {
    if is_number(text) && number_value(text) <= limit {
        Some(number_value(text))
    } else {
        None
    }
}

/// The index of the first `mark` in `text` at or after `from`; the length of
/// `text` if there is none.
pub open spec fn position_of(text: Seq<char>, mark: char, from: int) -> int
    decreases text.len() - from,
{
    if from < 0 || from >= text.len() {
        text.len() as int
    } else if text[from] == mark {
        from
    } else {
        position_of(text, mark, from + 1)
    }
}

/// `bytes` holds the characters of `text`, one byte each.
pub open spec fn spells(bytes: Seq<u8>, text: Seq<char>) -> bool {
    &&& bytes.len() == text.len()
    &&& forall|i: int| 0 <= i < text.len() ==> #[trigger] bytes[i] == text[i] as u8
    &&& is_ascii_chars(text)
}

/// A longer string of digits is worth no less than the part before its end.
pub proof fn lemma_number_value_grows(text: Seq<char>, k: int)
    requires
        0 <= k <= text.len(),
    ensures
        number_value(text.take(k)) <= number_value(text),
    decreases text.len() - k,
{
    if k < text.len() {
        lemma_number_value_grows(text.drop_last(), k);
        assert(text.drop_last().take(k) =~= text.take(k));
    } else {
        assert(text.take(k) =~= text);
    }
}

/// Tells whether two texts are the same, character by character.
pub fn same_text(a: &str, b: &str) -> (same: bool)
    ensures
        same == (a@ == b@),
{
    let x = a.as_bytes();
    let y = b.as_bytes();
    if x.len() != y.len() {
        return false;
    }
    let mut i: usize = 0;
    while i < x.len()
        invariant
            i <= x.len(),
            x.len() == y.len(),
            x@ == a.spec_bytes(),
            y@ == b.spec_bytes(),
            forall|j: int| 0 <= j < i ==> x@[j] == y@[j],
        decreases x.len() - i,
    {
        if x[i] != y[i] {
            return false;
        }
        i += 1;
    }
    proof {
        assert(x@ =~= y@);
        encode_utf8_decode_utf8(a@);
        encode_utf8_decode_utf8(b@);
    }
    true
}

/// Gives the bytes of a text that holds ASCII characters only, one byte for
/// each character, and nothing for any other text.
pub fn ascii_bytes(text: &str) -> (r: Option<&[u8]>)
    ensures
        r is Some <==> is_ascii_chars(text@),
        r matches Some(bytes) ==> spells(bytes@, text@),
{
    if text.is_ascii() {
        proof {
            is_ascii_chars_encode_utf8(text@);
        }
        Some(text.as_bytes())
    } else {
        None
    }
}

/// Finds the first `mark` in `bytes[from..]`.
pub(crate) fn find_byte(bytes: &[u8], mark: u8, from: usize, Ghost(text): Ghost<Seq<char>>) -> (at:
    usize)
    requires
        spells(bytes@, text),
        mark < 128,
    ensures
        at == position_of(text, mark as char, from as int),
        from <= text.len() ==> from <= at <= text.len(),
{
    let mut at = from;
    while at < bytes.len()
        invariant
            spells(bytes@, text),
            mark < 128,
            from <= at,
            from <= bytes.len() ==> at <= bytes.len(),
            position_of(text, mark as char, from as int) == position_of(
                text,
                mark as char,
                at as int,
            ),
        decreases bytes.len() - at,
    {
        assert(bytes[at as int] == text[at as int] as u8);
        assert('\0' <= text[at as int] <= '\u{7f}');
        if bytes[at] == mark {
            return at;
        }
        at += 1;
    }
    if from <= bytes.len() {
        at
    } else {
        bytes.len()
    }
}

/// Reads `bytes[from..to]` as a decimal number that is no greater than
/// `limit`.
pub(crate) fn read_number(
    bytes: &[u8],
    from: usize,
    to: usize,
    limit: u64,
    Ghost(text): Ghost<Seq<char>>,
) -> (r: Option<u64>)
    requires
        spells(bytes@, text),
        from <= to <= text.len(),
    ensures
        match number_of(text.subrange(from as int, to as int), limit as nat) {
            Some(value) => r == Some(value as u64),
            None => r is None,
        },
{
    let ghost field = text.subrange(from as int, to as int);
    if from == to {
        return None;
    }
    let mut value: u64 = 0;
    let mut i: usize = from;
    while i < to
        invariant
            spells(bytes@, text),
            from <= i <= to <= text.len(),
            field == text.subrange(from as int, to as int),
            forall|j: int| 0 <= j < i - from ==> is_digit(#[trigger] field[j]),
            value == number_value(field.take(i - from)),
            value <= limit,
        decreases to - i,
    {
        let b = bytes[i];
        assert(b == text[i as int] as u8);
        assert(field[i - from] == text[i as int]);
        if b < 48 || b > 57 {
            return None;
        }
        let digit = (b - 48) as u64;
        proof {
            assert(field.take(i - from + 1).drop_last() =~= field.take(i - from));
            assert(number_value(field.take(i - from + 1)) == value * 10 + digit);
            lemma_number_value_grows(field, i - from + 1);
        }
        if digit > limit || value > (limit - digit) / 10 {
            return None;
        }
        value = value * 10 + digit;
        i += 1;
    }
    proof {
        assert(field.take(to - from) =~= field);
    }
    Some(value)
}

/// Reads a whole text as a decimal number that is no greater than `limit`:
/// one digit or more, and nothing else.
pub fn parse_number(text: &str, limit: u64) -> (r: Option<u64>)
    ensures
        match number_of(text@, limit as nat) {
            Some(value) => r == Some(value as u64),
            None => r is None,
        },
{
    match ascii_bytes(text) {
        None => {
            proof {
                let i = choose|i: int|
                    0 <= i < text@.len() && !('\0' <= #[trigger] text@[i] <= '\u{7f}');
                assert(!is_digit(text@[i]));
            }
            None
        },
        Some(bytes) => {
            proof {
                assert(text@.subrange(0, text@.len() as int) =~= text@);
            }
            read_number(bytes, 0, bytes.len(), limit, Ghost(text@))
        },
    }
}

} // verus!
