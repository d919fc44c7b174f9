//! What numbers look like on the wire, digit by digit.
use super::decode::Decode;
use super::encode::Encode;
use super::num::{
    le_bytes, le_value, lemma_le_bytes_len, lemma_le_value_bound, lemma_radix_values, parse_var,
    radix, to_unsigned, var_bytes,
};
use super::{StrWithMaxLen, VarInt};
use vstd::arithmetic::div_mod::lemma_div_denominator;
use vstd::arithmetic::power::{lemma_pow0, lemma_pow1, lemma_pow_adds, lemma_pow_positive, pow};
use vstd::prelude::*;
use vstd::string::StringSliceAdditionalSpecFns;
use vstd::utf8::{decode_utf8_encode_utf8, encode_utf8, valid_utf8};

verus! {

/// Whether these are the `len` bytes of a number, the lowest first; negative numbers are counted
/// from the number of values that the bytes can have.
pub open spec fn is_little_endian(bytes: Seq<u8>, v: int, len: nat) -> bool {
    let n = if v < 0 {
        v + pow(256, len)
    } else {
        v
    };
    &&& bytes.len() == len
    &&& 0 <= n < pow(256, len)
    &&& forall|i: int|
        0 <= i < len ==> #[trigger] bytes[i] as int == (n / pow(256, i as nat)) % 256
}

/// Whether these bytes are a number in groups of seven bits, the lowest first, in as few bytes as
/// it needs, each byte but the last with its highest bit set; negative numbers are counted from
/// the number of values that `len` bytes can have.
pub open spec fn is_variable_length(bytes: Seq<u8>, v: int, len: nat) -> bool {
    let n = if v < 0 {
        v + pow(256, len)
    } else {
        v
    };
    &&& bytes.len() >= 1
    &&& n >= 0
    &&& forall|i: int| 0 <= i < bytes.len() - 1 ==> #[trigger] bytes[i] >= 128
    &&& bytes.last() < 128
    &&& bytes.len() > 1 ==> bytes.last() != 0
    &&& n < pow(128, bytes.len())
    &&& forall|i: int|
        0 <= i < bytes.len() ==> #[trigger] bytes[i] as int % 128 == (n / pow(128, i as nat)) % 128
}

/// The number that groups of seven bits make up, the lowest first.
pub open spec fn groups_value(bytes: Seq<u8>) -> int
    decreases bytes.len(),
{
    if bytes.len() == 0 {
        0
    } else {
        bytes[0] as int % 128 + 128 * groups_value(bytes.skip(1))
    }
}

/// Whether a number of at most `max` groups stands at the front of the input, and these many bytes
/// long: it ends at the first byte whose highest bit is not set.
pub open spec fn ends_after(input: Seq<u8>, max: nat, len: nat) -> bool {
    &&& 1 <= len <= max
    &&& len <= input.len()
    &&& input[len - 1] < 128
    &&& forall|i: int| 0 <= i < len - 1 ==> #[trigger] input[i] >= 128
}

proof fn lemma_digits(n: nat, base: int, i: nat)
    requires
        base > 0,
        i > 0,
    ensures
        (n as int / base) / pow(base, (i - 1) as nat) == n as int / pow(base, i),
{
    lemma_pow1(base);
    lemma_pow_adds(base, 1, (i - 1) as nat);
    lemma_pow_positive(base, (i - 1) as nat);
    lemma_div_denominator(n as int, base, pow(base, (i - 1) as nat));
}

proof fn lemma_radix_is_power(len: nat)
    ensures
        radix(len) == pow(256, len),
    decreases len,
{
    lemma_pow0(256);
    if len > 0 {
        lemma_radix_is_power((len - 1) as nat);
        lemma_pow1(256);
        lemma_pow_adds(256, 1, (len - 1) as nat);
    }
}

proof fn lemma_le_digits(n: nat, len: nat)
    ensures
        le_bytes(n, len).len() == len,
        forall|i: int|
            0 <= i < len ==> #[trigger] le_bytes(n, len)[i] as int == (n as int / pow(
                256,
                i as nat,
            )) % 256,
    decreases len,
{
    lemma_le_bytes_len(n, len);
    if len > 0 {
        let rest = le_bytes(n / 256, (len - 1) as nat);
        lemma_le_digits(n / 256, (len - 1) as nat);
        assert forall|i: int| 0 <= i < len implies #[trigger] le_bytes(n, len)[i] as int == (
        n as int / pow(256, i as nat)) % 256 by {
            lemma_pow0(256);
            if i > 0 {
                lemma_digits(n, 256, i as nat);
                assert(le_bytes(n, len)[i] == rest[i - 1]);
            }
        }
    }
}

proof fn lemma_le_bytes_of_value(bytes: Seq<u8>)
    ensures
        le_bytes(le_value(bytes), bytes.len()) == bytes,
    decreases bytes.len(),
{
    if bytes.len() > 0 {
        let rest = bytes.skip(1);
        lemma_le_bytes_of_value(rest);
        let n = le_value(bytes);
        assert(n % 256 == bytes[0] && n / 256 == le_value(rest));
        assert(seq![bytes[0]] + rest =~= bytes);
    } else {
        assert(le_bytes(0, 0) =~= bytes);
    }
}

proof fn lemma_var_digits(n: nat)
    ensures
        is_variable_length(var_bytes(n), n as int, 0),
    decreases n,
{
    let bytes = var_bytes(n);
    lemma_pow0(128);
    lemma_pow1(128);
    if n >= 128 {
        let rest = var_bytes(n / 128);
        lemma_var_digits(n / 128);
        lemma_pow_adds(128, 1, rest.len());
        assert(bytes.skip(1) =~= rest);
        assert forall|i: int| 0 <= i < bytes.len() implies #[trigger] bytes[i] as int % 128 == (
        n as int / pow(128, i as nat)) % 128 by {
            if i > 0 {
                lemma_digits(n, 128, i as nat);
                assert(bytes[i] == rest[i - 1]);
            }
        }
        assert forall|i: int| 0 <= i < bytes.len() - 1 implies #[trigger] bytes[i] >= 128 by {
            if i > 0 {
                assert(bytes[i] == rest[i - 1]);
            }
        }
        assert(bytes.last() == rest.last());
        if rest.len() == 1 {
            assert(rest[0] as int % 128 == (n as int / 128 / pow(128, 0)) % 128);
        }
    }
}

proof fn lemma_parse_var(input: Seq<u8>, max: nat)
    ensures
        parse_var(input, max).value matches Some(n) ==> ends_after(
            input,
            max,
            parse_var(input, max).used,
        ) && n == groups_value(input.take(parse_var(input, max).used as int)),
        forall|len: nat| #[trigger]
            ends_after(input, max, len) ==> parse_var(input, max).value is Some && parse_var(
                input,
                max,
            ).used == len,
    decreases max,
{
    if max > 0 && input.len() > 0 {
        if input[0] < 128 {
            let one = input.take(1);
            assert(one.skip(1) =~= Seq::empty());
            assert(groups_value(one.skip(1)) == 0);
        } else {
            let rest = input.skip(1);
            lemma_parse_var(rest, (max - 1) as nat);
            let used = parse_var(input, max).used;
            let tail = parse_var(rest, (max - 1) as nat);
            if tail.value is Some {
                assert(ends_after(rest, (max - 1) as nat, tail.used));
                assert(input[used - 1] == rest[tail.used - 1]);
                assert forall|i: int| 0 <= i < used - 1 implies #[trigger] input[i] >= 128 by {
                    if i > 0 {
                        assert(input[i] == rest[i - 1]);
                    }
                }
                assert(input.take(used as int).skip(1) =~= rest.take(tail.used as int));
            }
        }
        assert forall|len: nat| #[trigger] ends_after(input, max, len) implies parse_var(
            input,
            max,
        ).value is Some && parse_var(input, max).used == len by {
            if input[0] >= 128 {
                let rest = input.skip(1);
                assert(len > 1);
                assert forall|i: int| 0 <= i < len - 2 implies #[trigger] rest[i] >= 128 by {
                    assert(rest[i] == input[i + 1]);
                }
                assert(ends_after(rest, (max - 1) as nat, (len - 1) as nat));
            } else if len > 1 {
                assert(input[0] >= 128);
            }
        }
    }
}

/// A string that is read stands in the input as its UTF-8 form, behind its length, and is not
/// longer than it may be; and where such a string stands at the front, it is read.
pub proof fn law_text_is_read<'a, const MAX_LEN: usize>(input: Seq<u8>)
    requires
        MAX_LEN <= u32::MAX,
    ensures
        ({
            let head = VarInt::<u32>::parse(input);
            let text = StrWithMaxLen::<'a, MAX_LEN>::parse(input);
            let start = head.used as int;
            match head.value {
                None => text.value is None,
                Some(len) => {
                    let end = start + len.0;
                    &&& text.value is Some <==> len.0 <= MAX_LEN && end <= input.len()
                        && valid_utf8(input.subrange(start, end))
                    &&& text.value matches Some(t) ==> encode_utf8(t) == input.subrange(start, end)
                        && text.used == end
                },
            }
        }),
{
    let head = VarInt::<u32>::parse(input);
    if let Some(len) = head.value {
        let start = head.used as int;
        if start + len.0 <= input.len() {
            let bytes = input.subrange(start, start + len.0);
            if valid_utf8(bytes) {
                decode_utf8_encode_utf8(bytes);
            }
        }
    }
}

/// The form of a string is its length in bytes and then its UTF-8 form.
pub proof fn law_text_is_written<'a, const MAX_LEN: usize>(text: StrWithMaxLen<'a, MAX_LEN>)
    requires
        encode_utf8(text.0@).len() <= u32::MAX,
    ensures
        text.encodable() <==> encode_utf8(text.0@).len() <= MAX_LEN,
        text.encoding() == VarInt(encode_utf8(text.0@).len() as u32).encoding() + encode_utf8(
            text.0@,
        ),
{
}

/// A number of the type `u8` is written in one byte, and where there is a byte the number that it
/// is is read.
pub proof fn law_u8_bytes(v: u8, input: Seq<u8>)
    ensures
        v.encodable(),
        is_little_endian(v.encoding(), v as int, 1),
        u8::parse(input).value is Some <==> input.len() >= 1,
        u8::parse(input).value matches Some(r) ==> u8::parse(input).used == 1
            && is_little_endian(input.take(1), r as int, 1),
{
    lemma_radix_values();
    lemma_radix_is_power(1);
    lemma_le_digits(v as nat, 1);
    if input.len() >= 1 {
        let bytes = input.take(1);
        let n = le_value(bytes);
        lemma_le_value_bound(bytes);
        lemma_le_bytes_of_value(bytes);
        lemma_le_digits(n, 1);
    }
}

/// A number of the type `i8` is written in one byte, and where there is a byte the number that it
/// is is read.
pub proof fn law_i8_bytes(v: i8, input: Seq<u8>)
    ensures
        v.encodable(),
        is_little_endian(v.encoding(), v as int, 1),
        i8::parse(input).value is Some <==> input.len() >= 1,
        i8::parse(input).value matches Some(r) ==> i8::parse(input).used == 1
            && is_little_endian(input.take(1), r as int, 1),
{
    lemma_radix_values();
    lemma_radix_is_power(1);
    lemma_le_digits(to_unsigned(v as int, 1), 1);
    if input.len() >= 1 {
        let bytes = input.take(1);
        let n = le_value(bytes);
        lemma_le_value_bound(bytes);
        lemma_le_bytes_of_value(bytes);
        lemma_le_digits(n, 1);
    }
}

/// A number of the type `u16` is written in 2 bytes, the lowest first, and where there are that
/// many bytes the number that they are is read.
pub proof fn law_u16_bytes(v: u16, input: Seq<u8>)
    ensures
        v.encodable(),
        is_little_endian(v.encoding(), v as int, 2),
        u16::parse(input).value is Some <==> input.len() >= 2,
        u16::parse(input).value matches Some(r) ==> u16::parse(input).used == 2
            && is_little_endian(input.take(2), r as int, 2),
{
    lemma_radix_values();
    lemma_radix_is_power(2);
    lemma_le_digits(v as nat, 2);
    if input.len() >= 2 {
        let bytes = input.take(2);
        let n = le_value(bytes);
        lemma_le_value_bound(bytes);
        lemma_le_bytes_of_value(bytes);
        lemma_le_digits(n, 2);
    }
}

/// A number of the type `i16` is written in 2 bytes, the lowest first, and where there are that
/// many bytes the number that they are is read.
pub proof fn law_i16_bytes(v: i16, input: Seq<u8>)
    ensures
        v.encodable(),
        is_little_endian(v.encoding(), v as int, 2),
        i16::parse(input).value is Some <==> input.len() >= 2,
        i16::parse(input).value matches Some(r) ==> i16::parse(input).used == 2
            && is_little_endian(input.take(2), r as int, 2),
{
    lemma_radix_values();
    lemma_radix_is_power(2);
    lemma_le_digits(to_unsigned(v as int, 2), 2);
    if input.len() >= 2 {
        let bytes = input.take(2);
        let n = le_value(bytes);
        lemma_le_value_bound(bytes);
        lemma_le_bytes_of_value(bytes);
        lemma_le_digits(n, 2);
    }
}

/// A number of the type `u32` is written in 4 bytes, the lowest first, and where there are that
/// many bytes the number that they are is read.
pub proof fn law_u32_bytes(v: u32, input: Seq<u8>)
    ensures
        v.encodable(),
        is_little_endian(v.encoding(), v as int, 4),
        u32::parse(input).value is Some <==> input.len() >= 4,
        u32::parse(input).value matches Some(r) ==> u32::parse(input).used == 4
            && is_little_endian(input.take(4), r as int, 4),
{
    lemma_radix_values();
    lemma_radix_is_power(4);
    lemma_le_digits(v as nat, 4);
    if input.len() >= 4 {
        let bytes = input.take(4);
        let n = le_value(bytes);
        lemma_le_value_bound(bytes);
        lemma_le_bytes_of_value(bytes);
        lemma_le_digits(n, 4);
    }
}

/// A number of the type `i32` is written in 4 bytes, the lowest first, and where there are that
/// many bytes the number that they are is read.
pub proof fn law_i32_bytes(v: i32, input: Seq<u8>)
    ensures
        v.encodable(),
        is_little_endian(v.encoding(), v as int, 4),
        i32::parse(input).value is Some <==> input.len() >= 4,
        i32::parse(input).value matches Some(r) ==> i32::parse(input).used == 4
            && is_little_endian(input.take(4), r as int, 4),
{
    lemma_radix_values();
    lemma_radix_is_power(4);
    lemma_le_digits(to_unsigned(v as int, 4), 4);
    if input.len() >= 4 {
        let bytes = input.take(4);
        let n = le_value(bytes);
        lemma_le_value_bound(bytes);
        lemma_le_bytes_of_value(bytes);
        lemma_le_digits(n, 4);
    }
}

/// A number of the type `u64` is written in 8 bytes, the lowest first, and where there are that
/// many bytes the number that they are is read.
pub proof fn law_u64_bytes(v: u64, input: Seq<u8>)
    ensures
        v.encodable(),
        is_little_endian(v.encoding(), v as int, 8),
        u64::parse(input).value is Some <==> input.len() >= 8,
        u64::parse(input).value matches Some(r) ==> u64::parse(input).used == 8
            && is_little_endian(input.take(8), r as int, 8),
{
    lemma_radix_values();
    lemma_radix_is_power(8);
    lemma_le_digits(v as nat, 8);
    if input.len() >= 8 {
        let bytes = input.take(8);
        let n = le_value(bytes);
        lemma_le_value_bound(bytes);
        lemma_le_bytes_of_value(bytes);
        lemma_le_digits(n, 8);
    }
}

/// A number of the type `i64` is written in 8 bytes, the lowest first, and where there are that
/// many bytes the number that they are is read.
pub proof fn law_i64_bytes(v: i64, input: Seq<u8>)
    ensures
        v.encodable(),
        is_little_endian(v.encoding(), v as int, 8),
        i64::parse(input).value is Some <==> input.len() >= 8,
        i64::parse(input).value matches Some(r) ==> i64::parse(input).used == 8
            && is_little_endian(input.take(8), r as int, 8),
{
    lemma_radix_values();
    lemma_radix_is_power(8);
    lemma_le_digits(to_unsigned(v as int, 8), 8);
    if input.len() >= 8 {
        let bytes = input.take(8);
        let n = le_value(bytes);
        lemma_le_value_bound(bytes);
        lemma_le_bytes_of_value(bytes);
        lemma_le_digits(n, 8);
    }
}

/// A number of the type `u128` is written in 16 bytes, the lowest first, and where there are that
/// many bytes the number that they are is read.
pub proof fn law_u128_bytes(v: u128, input: Seq<u8>)
    ensures
        v.encodable(),
        is_little_endian(v.encoding(), v as int, 16),
        u128::parse(input).value is Some <==> input.len() >= 16,
        u128::parse(input).value matches Some(r) ==> u128::parse(input).used == 16
            && is_little_endian(input.take(16), r as int, 16),
{
    lemma_radix_values();
    lemma_radix_is_power(16);
    lemma_le_digits(v as nat, 16);
    if input.len() >= 16 {
        let bytes = input.take(16);
        let n = le_value(bytes);
        lemma_le_value_bound(bytes);
        lemma_le_bytes_of_value(bytes);
        lemma_le_digits(n, 16);
    }
}

/// A number of the type `i128` is written in 16 bytes, the lowest first, and where there are that
/// many bytes the number that they are is read.
pub proof fn law_i128_bytes(v: i128, input: Seq<u8>)
    ensures
        v.encodable(),
        is_little_endian(v.encoding(), v as int, 16),
        i128::parse(input).value is Some <==> input.len() >= 16,
        i128::parse(input).value matches Some(r) ==> i128::parse(input).used == 16
            && is_little_endian(input.take(16), r as int, 16),
{
    lemma_radix_values();
    lemma_radix_is_power(16);
    lemma_le_digits(to_unsigned(v as int, 16), 16);
    if input.len() >= 16 {
        let bytes = input.take(16);
        let n = le_value(bytes);
        lemma_le_value_bound(bytes);
        lemma_le_bytes_of_value(bytes);
        lemma_le_digits(n, 16);
    }
}

/// A number of the type `u16` in its variable-length form is written in groups of seven bits. It is
/// read where it ends within 3 bytes, and then it is what its groups make up, as far as that
/// fits.
pub proof fn law_var_u16_bytes(v: u16, input: Seq<u8>)
    ensures
        VarInt(v).encodable(),
        is_variable_length(VarInt(v).encoding(), v as int, 2),
        VarInt::<u16>::parse(input).value is Some ==> ends_after(
            input,
            3,
            VarInt::<u16>::parse(input).used,
        ),
        forall|len: nat| #[trigger]
            ends_after(input, 3, len) ==> VarInt::<u16>::parse(input).value is Some
                && VarInt::<u16>::parse(input).used == len,
        VarInt::<u16>::parse(input).value matches Some(r) ==> r.0 as int == groups_value(
            input.take(VarInt::<u16>::parse(input).used as int),
        ) % pow(256, 2),
{
    lemma_radix_values();
    lemma_radix_is_power(2);
    lemma_var_digits(v as nat);
    lemma_parse_var(input, 3);
}

/// A number of the type `i16` in its variable-length form is written in groups of seven bits. It is
/// read where it ends within 3 bytes, and then it is what its groups make up, as far as that
/// fits.
pub proof fn law_var_i16_bytes(v: i16, input: Seq<u8>)
    ensures
        VarInt(v).encodable(),
        is_variable_length(VarInt(v).encoding(), v as int, 2),
        VarInt::<i16>::parse(input).value is Some ==> ends_after(
            input,
            3,
            VarInt::<i16>::parse(input).used,
        ),
        forall|len: nat| #[trigger]
            ends_after(input, 3, len) ==> VarInt::<i16>::parse(input).value is Some
                && VarInt::<i16>::parse(input).used == len,
        VarInt::<i16>::parse(input).value matches Some(r) ==> (if r.0 < 0 {
            r.0 + pow(256, 2)
        } else {
            r.0 as int
        }) == groups_value(input.take(VarInt::<i16>::parse(input).used as int)) % pow(256, 2),
{
    lemma_radix_values();
    lemma_radix_is_power(2);
    lemma_var_digits(to_unsigned(v as int, 2));
    lemma_parse_var(input, 3);
}

/// A number of the type `u32` in its variable-length form is written in groups of seven bits. It is
/// read where it ends within 5 bytes, and then it is what its groups make up, as far as that
/// fits.
pub proof fn law_var_u32_bytes(v: u32, input: Seq<u8>)
    ensures
        VarInt(v).encodable(),
        is_variable_length(VarInt(v).encoding(), v as int, 4),
        VarInt::<u32>::parse(input).value is Some ==> ends_after(
            input,
            5,
            VarInt::<u32>::parse(input).used,
        ),
        forall|len: nat| #[trigger]
            ends_after(input, 5, len) ==> VarInt::<u32>::parse(input).value is Some
                && VarInt::<u32>::parse(input).used == len,
        VarInt::<u32>::parse(input).value matches Some(r) ==> r.0 as int == groups_value(
            input.take(VarInt::<u32>::parse(input).used as int),
        ) % pow(256, 4),
{
    lemma_radix_values();
    lemma_radix_is_power(4);
    lemma_var_digits(v as nat);
    lemma_parse_var(input, 5);
}

/// A number of the type `i32` in its variable-length form is written in groups of seven bits. It is
/// read where it ends within 5 bytes, and then it is what its groups make up, as far as that
/// fits.
pub proof fn law_var_i32_bytes(v: i32, input: Seq<u8>)
    ensures
        VarInt(v).encodable(),
        is_variable_length(VarInt(v).encoding(), v as int, 4),
        VarInt::<i32>::parse(input).value is Some ==> ends_after(
            input,
            5,
            VarInt::<i32>::parse(input).used,
        ),
        forall|len: nat| #[trigger]
            ends_after(input, 5, len) ==> VarInt::<i32>::parse(input).value is Some
                && VarInt::<i32>::parse(input).used == len,
        VarInt::<i32>::parse(input).value matches Some(r) ==> (if r.0 < 0 {
            r.0 + pow(256, 4)
        } else {
            r.0 as int
        }) == groups_value(input.take(VarInt::<i32>::parse(input).used as int)) % pow(256, 4),
{
    lemma_radix_values();
    lemma_radix_is_power(4);
    lemma_var_digits(to_unsigned(v as int, 4));
    lemma_parse_var(input, 5);
}

/// A number of the type `u64` in its variable-length form is written in groups of seven bits. It is
/// read where it ends within 10 bytes, and then it is what its groups make up, as far as that
/// fits.
pub proof fn law_var_u64_bytes(v: u64, input: Seq<u8>)
    ensures
        VarInt(v).encodable(),
        is_variable_length(VarInt(v).encoding(), v as int, 8),
        VarInt::<u64>::parse(input).value is Some ==> ends_after(
            input,
            10,
            VarInt::<u64>::parse(input).used,
        ),
        forall|len: nat| #[trigger]
            ends_after(input, 10, len) ==> VarInt::<u64>::parse(input).value is Some
                && VarInt::<u64>::parse(input).used == len,
        VarInt::<u64>::parse(input).value matches Some(r) ==> r.0 as int == groups_value(
            input.take(VarInt::<u64>::parse(input).used as int),
        ) % pow(256, 8),
{
    lemma_radix_values();
    lemma_radix_is_power(8);
    lemma_var_digits(v as nat);
    lemma_parse_var(input, 10);
}

/// A number of the type `i64` in its variable-length form is written in groups of seven bits. It is
/// read where it ends within 10 bytes, and then it is what its groups make up, as far as that
/// fits.
pub proof fn law_var_i64_bytes(v: i64, input: Seq<u8>)
    ensures
        VarInt(v).encodable(),
        is_variable_length(VarInt(v).encoding(), v as int, 8),
        VarInt::<i64>::parse(input).value is Some ==> ends_after(
            input,
            10,
            VarInt::<i64>::parse(input).used,
        ),
        forall|len: nat| #[trigger]
            ends_after(input, 10, len) ==> VarInt::<i64>::parse(input).value is Some
                && VarInt::<i64>::parse(input).used == len,
        VarInt::<i64>::parse(input).value matches Some(r) ==> (if r.0 < 0 {
            r.0 + pow(256, 8)
        } else {
            r.0 as int
        }) == groups_value(input.take(VarInt::<i64>::parse(input).used as int)) % pow(256, 8),
{
    lemma_radix_values();
    lemma_radix_is_power(8);
    lemma_var_digits(to_unsigned(v as int, 8));
    lemma_parse_var(input, 10);
}

/// A number of the type `u128` in its variable-length form is written in groups of seven bits. It is
/// read where it ends within 19 bytes, and then it is what its groups make up, as far as that
/// fits.
pub proof fn law_var_u128_bytes(v: u128, input: Seq<u8>)
    ensures
        VarInt(v).encodable(),
        is_variable_length(VarInt(v).encoding(), v as int, 16),
        VarInt::<u128>::parse(input).value is Some ==> ends_after(
            input,
            19,
            VarInt::<u128>::parse(input).used,
        ),
        forall|len: nat| #[trigger]
            ends_after(input, 19, len) ==> VarInt::<u128>::parse(input).value is Some
                && VarInt::<u128>::parse(input).used == len,
        VarInt::<u128>::parse(input).value matches Some(r) ==> r.0 as int == groups_value(
            input.take(VarInt::<u128>::parse(input).used as int),
        ) % pow(256, 16),
{
    lemma_radix_values();
    lemma_radix_is_power(16);
    lemma_var_digits(v as nat);
    lemma_parse_var(input, 19);
}

/// A number of the type `i128` in its variable-length form is written in groups of seven bits. It is
/// read where it ends within 19 bytes, and then it is what its groups make up, as far as that
/// fits.
pub proof fn law_var_i128_bytes(v: i128, input: Seq<u8>)
    ensures
        VarInt(v).encodable(),
        is_variable_length(VarInt(v).encoding(), v as int, 16),
        VarInt::<i128>::parse(input).value is Some ==> ends_after(
            input,
            19,
            VarInt::<i128>::parse(input).used,
        ),
        forall|len: nat| #[trigger]
            ends_after(input, 19, len) ==> VarInt::<i128>::parse(input).value is Some
                && VarInt::<i128>::parse(input).used == len,
        VarInt::<i128>::parse(input).value matches Some(r) ==> (if r.0 < 0 {
            r.0 + pow(256, 16)
        } else {
            r.0 as int
        }) == groups_value(input.take(VarInt::<i128>::parse(input).used as int)) % pow(256, 16),
{
    lemma_radix_values();
    lemma_radix_is_power(16);
    lemma_var_digits(to_unsigned(v as int, 16));
    lemma_parse_var(input, 19);
}

} // verus!
