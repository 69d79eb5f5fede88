//! 128-bit identifiers of scenes, bodies and workers, and their text.

use crate::text::digit_char;
use vstd::prelude::*;

verus! {

/// The character that stands for the hexadecimal digit `d`, in lower case.
pub open spec fn hex_digit(d: int) -> char {
    if d < 10 {
        digit_char(d)
    } else if d == 10 {
        'a'
    } else if d == 11 {
        'b'
    } else if d == 12 {
        'c'
    } else if d == 13 {
        'd'
    } else if d == 14 {
        'e'
    } else {
        'f'
    }
}

/// The `n` lowest hexadecimal digits of `value`, the highest of them first.
pub open spec fn hex_digits(value: int, n: nat) -> Seq<char>
    decreases n,
{
    if n == 0 {
        Seq::empty()
    } else {
        hex_digits(value / 16, (n - 1) as nat).push(hex_digit(value % 16))
    }
}

/// The text of an identifier: its 32 hexadecimal digits in lower case, the
/// highest first, in groups of 8, 4, 4, 4 and 12 that are joined by hyphens.
pub open spec fn uuid_hyphenated(id: u128) -> Seq<char> {
    let v = id as int;
    hex_digits(v / 0x1_0000_0000_0000_0000_0000_0000, 8) + seq!['-'] + hex_digits(
        v / 0x1_0000_0000_0000_0000_0000,
        4,
    ) + seq!['-'] + hex_digits(v / 0x1_0000_0000_0000_0000, 4) + seq!['-'] + hex_digits(
        v / 0x1_0000_0000_0000,
        4,
    ) + seq!['-'] + hex_digits(v, 12)
}

/// The bits that mark a random identifier: version 4, RFC 4122 variant.
pub open spec fn is_random_uuid(id: u128) -> bool {
    id & 0x0000_0000_0000_f000_c000_0000_0000_0000u128
        == 0x0000_0000_0000_4000_8000_0000_0000_0000u128
}

/// The number whose sixteen bytes are those of `v` in the opposite order.
pub open spec fn bytes_reversed(v: u128) -> u128 {
    vstd::bytes::spec_u128_from_le_bytes(vstd::bytes::spec_u128_to_le_bytes(v).reverse())
}

/// `uuid::Uuid::to_string`, on the identifier whose big-endian value is `id`:
/// the result is the hyphenated lower-case text of `id`.
#[verifier::external_body]
pub(crate) fn uuid_text(id: u128) -> (text: String)
    ensures
        text@ == uuid_hyphenated(id),
{
    uuid::Uuid::from_u128(id).to_string()
}

/// `uuid::Uuid::new_v4`: a fresh random identifier. Only its version and
/// variant bits are known beforehand.
#[verifier::external_body]
pub(crate) fn random_uuid() -> (id: u128)
    ensures
        is_random_uuid(id),
{
    uuid::Uuid::new_v4().as_u128()
}

/// `uuid::Uuid::from_u128_le`: the identifier whose bytes are the
/// little-endian bytes of `v`, so that its big-endian value is `v` with its
/// bytes reversed.
#[verifier::external_body]
pub(crate) fn uuid_from_u128_le(v: u128) -> (id: u128)
    ensures
        id == bytes_reversed(v),
{
    uuid::Uuid::from_u128_le(v).as_u128()
}

/// `uuid::Uuid::to_u128_le`: the little-endian reading of the identifier whose
/// big-endian value is `id`.
#[verifier::external_body]
pub(crate) fn uuid_to_u128_le(id: u128) -> (v: u128)
    ensures
        v == bytes_reversed(id),
{
    uuid::Uuid::from_u128(id).to_u128_le()
}

} // verus!
