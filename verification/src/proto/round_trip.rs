//! Whatever is written can be read back.
use super::decode::Decode;
use super::encode::Encode;
use super::num::{
    law_parse_le_bytes, law_parse_var_bytes, law_signed_round_trip, law_var_bytes_len,
    lemma_groups_radix_values, lemma_le_bytes_len, lemma_radix_values, to_unsigned, Parsed,
};
use super::{StrWithMaxLen, VarInt};
use vstd::prelude::*;
use vstd::string::StringSliceAdditionalSpecFns;
use vstd::utf8::{encode_utf8_decode_utf8, encode_utf8_valid_utf8};

verus! {

/// Values that can be written and read.
pub trait RoundTrip<'a>: Encode + Decode<'a> {
    /// The greatest number of bytes that a value takes.
    spec fn max_len() -> nat;

    /// Reading a value's form in bytes gives the value and uses up that form and nothing else,
    /// whatever follows it.
    proof fn law_round_trip(&self, rest: Seq<u8>)
        requires
            self.encodable(),
        ensures
            Self::parse(self.encoding() + rest) == (Parsed {
                value: Some(self@),
                used: self.encoding().len(),
            }),
            1 <= self.encoding().len() <= Self::max_len(),
    ;
}

impl<'a> RoundTrip<'a> for u8 {
    open spec fn max_len() -> nat {
        1
    }

    proof fn law_round_trip(&self, rest: Seq<u8>) {
        lemma_radix_values();
        lemma_le_bytes_len(*self as nat, 1);
        law_parse_le_bytes(*self as nat, 1, rest);
    }
}

impl<'a> RoundTrip<'a> for i8 {
    open spec fn max_len() -> nat {
        1
    }

    proof fn law_round_trip(&self, rest: Seq<u8>) {
        lemma_radix_values();
        law_signed_round_trip(*self as int, 1);
        lemma_le_bytes_len(to_unsigned(*self as int, 1), 1);
        law_parse_le_bytes(to_unsigned(*self as int, 1), 1, rest);
    }
}

impl<'a> RoundTrip<'a> for u16 {
    open spec fn max_len() -> nat {
        2
    }

    proof fn law_round_trip(&self, rest: Seq<u8>) {
        lemma_radix_values();
        lemma_le_bytes_len(*self as nat, 2);
        law_parse_le_bytes(*self as nat, 2, rest);
    }
}

impl<'a> RoundTrip<'a> for i16 {
    open spec fn max_len() -> nat {
        2
    }

    proof fn law_round_trip(&self, rest: Seq<u8>) {
        lemma_radix_values();
        law_signed_round_trip(*self as int, 2);
        lemma_le_bytes_len(to_unsigned(*self as int, 2), 2);
        law_parse_le_bytes(to_unsigned(*self as int, 2), 2, rest);
    }
}

impl<'a> RoundTrip<'a> for u32 {
    open spec fn max_len() -> nat {
        4
    }

    proof fn law_round_trip(&self, rest: Seq<u8>) {
        lemma_radix_values();
        lemma_le_bytes_len(*self as nat, 4);
        law_parse_le_bytes(*self as nat, 4, rest);
    }
}

impl<'a> RoundTrip<'a> for i32 {
    open spec fn max_len() -> nat {
        4
    }

    proof fn law_round_trip(&self, rest: Seq<u8>) {
        lemma_radix_values();
        law_signed_round_trip(*self as int, 4);
        lemma_le_bytes_len(to_unsigned(*self as int, 4), 4);
        law_parse_le_bytes(to_unsigned(*self as int, 4), 4, rest);
    }
}

impl<'a> RoundTrip<'a> for u64 {
    open spec fn max_len() -> nat {
        8
    }

    proof fn law_round_trip(&self, rest: Seq<u8>) {
        lemma_radix_values();
        lemma_le_bytes_len(*self as nat, 8);
        law_parse_le_bytes(*self as nat, 8, rest);
    }
}

impl<'a> RoundTrip<'a> for i64 {
    open spec fn max_len() -> nat {
        8
    }

    proof fn law_round_trip(&self, rest: Seq<u8>) {
        lemma_radix_values();
        law_signed_round_trip(*self as int, 8);
        lemma_le_bytes_len(to_unsigned(*self as int, 8), 8);
        law_parse_le_bytes(to_unsigned(*self as int, 8), 8, rest);
    }
}

impl<'a> RoundTrip<'a> for u128 {
    open spec fn max_len() -> nat {
        16
    }

    proof fn law_round_trip(&self, rest: Seq<u8>) {
        lemma_radix_values();
        lemma_le_bytes_len(*self as nat, 16);
        law_parse_le_bytes(*self as nat, 16, rest);
    }
}

impl<'a> RoundTrip<'a> for i128 {
    open spec fn max_len() -> nat {
        16
    }

    proof fn law_round_trip(&self, rest: Seq<u8>) {
        lemma_radix_values();
        law_signed_round_trip(*self as int, 16);
        lemma_le_bytes_len(to_unsigned(*self as int, 16), 16);
        law_parse_le_bytes(to_unsigned(*self as int, 16), 16, rest);
    }
}

impl<'a> RoundTrip<'a> for VarInt<u16> {
    open spec fn max_len() -> nat {
        3
    }

    proof fn law_round_trip(&self, rest: Seq<u8>) {
        lemma_radix_values();
        lemma_groups_radix_values();
        law_var_bytes_len(self.0 as nat, 3);
        law_parse_var_bytes(self.0 as nat, 3, rest);
    }
}

impl<'a> RoundTrip<'a> for VarInt<i16> {
    open spec fn max_len() -> nat {
        3
    }

    proof fn law_round_trip(&self, rest: Seq<u8>) {
        lemma_radix_values();
        lemma_groups_radix_values();
        law_signed_round_trip(self.0 as int, 2);
        law_var_bytes_len(to_unsigned(self.0 as int, 2), 3);
        law_parse_var_bytes(to_unsigned(self.0 as int, 2), 3, rest);
    }
}

impl<'a> RoundTrip<'a> for VarInt<u32> {
    open spec fn max_len() -> nat {
        5
    }

    proof fn law_round_trip(&self, rest: Seq<u8>) {
        lemma_radix_values();
        lemma_groups_radix_values();
        law_var_bytes_len(self.0 as nat, 5);
        law_parse_var_bytes(self.0 as nat, 5, rest);
    }
}

impl<'a> RoundTrip<'a> for VarInt<i32> {
    open spec fn max_len() -> nat {
        5
    }

    proof fn law_round_trip(&self, rest: Seq<u8>) {
        lemma_radix_values();
        lemma_groups_radix_values();
        law_signed_round_trip(self.0 as int, 4);
        law_var_bytes_len(to_unsigned(self.0 as int, 4), 5);
        law_parse_var_bytes(to_unsigned(self.0 as int, 4), 5, rest);
    }
}

impl<'a> RoundTrip<'a> for VarInt<u64> {
    open spec fn max_len() -> nat {
        10
    }

    proof fn law_round_trip(&self, rest: Seq<u8>) {
        lemma_radix_values();
        lemma_groups_radix_values();
        law_var_bytes_len(self.0 as nat, 10);
        law_parse_var_bytes(self.0 as nat, 10, rest);
    }
}

impl<'a> RoundTrip<'a> for VarInt<i64> {
    open spec fn max_len() -> nat {
        10
    }

    proof fn law_round_trip(&self, rest: Seq<u8>) {
        lemma_radix_values();
        lemma_groups_radix_values();
        law_signed_round_trip(self.0 as int, 8);
        law_var_bytes_len(to_unsigned(self.0 as int, 8), 10);
        law_parse_var_bytes(to_unsigned(self.0 as int, 8), 10, rest);
    }
}

impl<'a> RoundTrip<'a> for VarInt<u128> {
    open spec fn max_len() -> nat {
        19
    }

    proof fn law_round_trip(&self, rest: Seq<u8>) {
        lemma_radix_values();
        lemma_groups_radix_values();
        law_var_bytes_len(self.0 as nat, 19);
        law_parse_var_bytes(self.0 as nat, 19, rest);
    }
}

impl<'a> RoundTrip<'a> for VarInt<i128> {
    open spec fn max_len() -> nat {
        19
    }

    proof fn law_round_trip(&self, rest: Seq<u8>) {
        lemma_radix_values();
        lemma_groups_radix_values();
        law_signed_round_trip(self.0 as int, 16);
        law_var_bytes_len(to_unsigned(self.0 as int, 16), 19);
        law_parse_var_bytes(to_unsigned(self.0 as int, 16), 19, rest);
    }
}

/// Reading the form in bytes of a string that is not too long gives the string, whatever follows
/// it.
pub proof fn law_text_round_trip<'a, const MAX_LEN: usize>(
    text: StrWithMaxLen<'a, MAX_LEN>,
    rest: Seq<u8>,
)
    requires
        text.encodable(),
        MAX_LEN <= u32::MAX,
    ensures
        StrWithMaxLen::<'a, MAX_LEN>::parse(text.encoding() + rest) == (Parsed {
            value: Some(text@),
            used: text.encoding().len(),
        }),
        text.encoding().len() <= 5 + MAX_LEN,
{
    let head = VarInt(text.0.spec_bytes().len() as u32);
    let bytes = text.0.spec_bytes();
    head.law_round_trip(bytes + rest);
    encode_utf8_valid_utf8(text@);
    encode_utf8_decode_utf8(text@);
    let whole = text.encoding() + rest;
    assert(whole =~= head.encoding() + (bytes + rest));
    assert(whole.subrange(
        head.encoding().len() as int,
        (head.encoding().len() + bytes.len()) as int,
    ) =~= bytes);
}

} // verus!
