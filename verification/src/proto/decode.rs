//! Reading values from bytes.
use super::num::{
    groups_radix, le_value, lemma_groups_radix_values, lemma_le_value_bound, lemma_parse_var_used,
    lemma_radix_values, parse_le, parse_var, radix, signed_i128, signed_i16, signed_i32, signed_i64,
    signed_i8, to_signed, Parsed,
};
use super::{StrWithMaxLen, VarInt};
use vstd::arithmetic::div_mod::lemma_mod_mod;
use vstd::prelude::*;
use vstd::string::StringSliceAdditionalSpecFns;
use vstd::utf8::{decode_utf8, encode_utf8_decode_utf8, valid_utf8};

verus! {

/// Something that bytes can be taken from, front to back.
pub trait Decoder<'a> {
    /// The bytes that are still there.
    spec fn remaining(&self) -> Seq<u8>;

    /// Takes the next `len` bytes, or none at all if there are fewer.
    fn read(&mut self, len: usize) -> (r: Option<&'a [u8]>)
        ensures
            match r {
                Some(bytes) => {
                    &&& len <= old(self).remaining().len()
                    &&& bytes@ == old(self).remaining().take(len as int)
                    &&& final(self).remaining() == old(self).remaining().skip(len as int)
                },
                None => {
                    &&& len > old(self).remaining().len()
                    &&& final(self).remaining() == old(self).remaining()
                },
            },
    ;

    /// Takes the next byte.
    fn read_byte(&mut self) -> (r: Option<u8>)
        ensures
            match r {
                Some(byte) => {
                    &&& old(self).remaining().len() > 0
                    &&& byte == old(self).remaining()[0]
                    &&& final(self).remaining() == old(self).remaining().skip(1)
                },
                None => {
                    &&& old(self).remaining().len() == 0
                    &&& final(self).remaining() == old(self).remaining()
                },
            },
    {
        match self.read(1) {
            Some(bytes) => Some(bytes[0]),
            None => None,
        }
    }
}

impl<'a> Decoder<'a> for &'a [u8] {
    open spec fn remaining(&self) -> Seq<u8> {
        self@
    }

    fn read(&mut self, len: usize) -> (r: Option<&'a [u8]>) {
        if len <= self.len() {
            let (taken, rest) = self.split_at(len);
            *self = rest;
            Some(taken)
        } else {
            None
        }
    }

    fn read_byte(&mut self) -> (r: Option<u8>) {
        if self.len() == 0 {
            None
        } else {
            let byte = self[0];
            let (_, rest) = self.split_at(1);
            *self = rest;
            Some(byte)
        }
    }
}

/// A value that can be read from bytes.
pub trait Decode<'a>: View + Sized {
    /// What reading from the front of `input` comes to.
    spec fn parse(input: Seq<u8>) -> Parsed<Self::V>;

    /// A reading takes no more bytes than there are.
    proof fn lemma_parse_used(input: Seq<u8>)
        ensures
            Self::parse(input).used <= input.len(),
    ;

    /// Reads a value from the front of what remains.
    fn decode<D: Decoder<'a>>(decoder: &mut D) -> (r: Result<Self, ()>)
        ensures
            final(decoder).remaining() == old(decoder).remaining().skip(
                Self::parse(old(decoder).remaining()).used as int,
            ),
            match r {
                Ok(value) => Self::parse(old(decoder).remaining()).value == Some(value@),
                Err(_) => Self::parse(old(decoder).remaining()).value is None,
            },
    ;
}

/// The number whose bytes, lowest first, are `bytes`.
fn le_number(bytes: &[u8]) -> (n: u128)
    requires
        bytes@.len() <= 16,
    ensures
        n as nat == le_value(bytes@),
        n < radix(bytes@.len()),
{
    let mut n: u128 = 0;
    let mut i: usize = bytes.len();
    assert(bytes@.skip(i as int) =~= Seq::empty());
    while i > 0
        invariant
            i <= bytes@.len() <= 16,
            n as nat == le_value(bytes@.skip(i as int)),
        decreases i,
    {
        i -= 1;
        proof {
            assert(bytes@.skip(i as int).skip(1) =~= bytes@.skip(i + 1));
            lemma_le_value_bound(bytes@.skip(i as int));
            lemma_radix_monotonic((bytes@.len() - i) as nat, 16);
            lemma_radix_values();
        }
        n = n * 256 + bytes[i] as u128;
    }
    proof {
        assert(bytes@.skip(0) =~= bytes@);
        lemma_le_value_bound(bytes@);
    }
    n
}

proof fn lemma_radix_monotonic(a: nat, b: nat)
    requires
        a <= b,
    ensures
        1 <= radix(a) <= radix(b),
    decreases b,
{
    if b > 0 {
        if a < b {
            lemma_radix_monotonic(a, (b - 1) as nat);
        } else {
            lemma_radix_monotonic((b - 1) as nat, (b - 1) as nat);
        }
    }
}

/// Reads a fixed-width number of `len` bytes.
fn read_le<'a, D: Decoder<'a>>(decoder: &mut D, len: usize) -> (r: Result<u128, ()>)
    requires
        len <= 16,
    ensures
        final(decoder).remaining() == old(decoder).remaining().skip(
            parse_le(old(decoder).remaining(), len as nat).used as int,
        ),
        match r {
            Ok(n) => parse_le(old(decoder).remaining(), len as nat).value == Some(n as nat) && n
                < radix(len as nat),
            Err(_) => parse_le(old(decoder).remaining(), len as nat).value is None,
        },
{
    match decoder.read(len) {
        Some(bytes) => Ok(le_number(bytes)),
        None => {
            assert(old(decoder).remaining().skip(0) =~= old(decoder).remaining());
            Err(())
        },
    }
}

/// Reads a variable-length number of at most `max` groups, of which the low 128 bits are kept.
fn read_var<'a, D: Decoder<'a>>(decoder: &mut D, max: usize) -> (r: Result<u128, ()>)
    requires
        max <= 19,
    ensures
        final(decoder).remaining() == old(decoder).remaining().skip(
            parse_var(old(decoder).remaining(), max as nat).used as int,
        ),
        match r {
            Ok(n) => parse_var(old(decoder).remaining(), max as nat).value matches Some(v) && n
                as nat == v % radix(16),
            Err(_) => parse_var(old(decoder).remaining(), max as nat).value is None,
        },
{
    let ghost input = decoder.remaining();
    let ghost whole = parse_var(input, max as nat);
    let ghost mut low: nat = 0;
    let mut this: u128 = 0;
    let mut weight: u128 = 1;
    let mut i: usize = 0;
    proof {
        lemma_radix_values();
        lemma_groups_radix_values();
        assert(input.skip(0) =~= input);
    }
    while i < max
        invariant
            i <= max <= 19,
            input == old(decoder).remaining(),
            i <= input.len(),
            whole == parse_var(input, max as nat),
            decoder.remaining() == input.skip(i as int),
            whole.used == i + parse_var(input.skip(i as int), (max - i) as nat).used,
            match parse_var(input.skip(i as int), (max - i) as nat).value {
                Some(high) => whole.value == Some(low + groups_radix(i as nat) * high),
                None => whole.value is None,
            },
            low < groups_radix(i as nat),
            this as nat == low % radix(16),
            i <= 18 ==> weight as nat == groups_radix(i as nat),
            radix(16) == 0x1_0000_0000_0000_0000_0000_0000_0000_0000,
            groups_radix(18) == 0x4000_0000_0000_0000_0000_0000_0000_0000,
        decreases max - i,
    {
        let ghost rest = input.skip(i as int);
        let byte: u8 = match decoder.read_byte() {
            Some(byte) => byte,
            None => {
                assert(input.skip(whole.used as int) =~= input.skip(i as int));
                return Err(());
            },
        };
        let group: u128 = (byte % 128) as u128;
        proof {
            assert(rest.skip(1) =~= input.skip(i + 1));
            lemma_group_step(i as nat, low, byte, parse_var(rest.skip(1), (max - i - 1) as nat));
            lemma_groups_radix_monotonic(i as nat, 18);
            if i < 18 {
                lemma_groups_radix_monotonic((i + 1) as nat, 18);
                assert(weight * group <= 127 * weight) by (nonlinear_arith)
                    requires
                        group <= 127,
                ;
            }
            low = low + groups_radix(i as nat) * ((byte % 128) as nat);
        }
        if i < 18 {
            this = this + weight * group;
            weight = weight * 128;
        } else {
            assert(groups_radix(18) * (group as nat) == groups_radix(18) * (group as nat % 4)
                + radix(16) * (group as nat / 4)) by (nonlinear_arith)
                requires
                    radix(16) == 4 * groups_radix(18),
            ;
            assert(this + weight * (group % 4) < radix(16) && low % radix(16) == this + weight * (
            group % 4)) by (nonlinear_arith)
                requires
                    this < weight,
                    weight as nat == groups_radix(18),
                    radix(16) == 4 * groups_radix(18),
                    low == this + groups_radix(18) * (group as nat % 4) + radix(16) * (group as nat
                        / 4),
            ;
            this = this + weight * (group % 4);
        }
        i += 1;
        if byte < 128 {
            return Ok(this);
        }
    }
    assert(input.skip(whole.used as int) =~= input.skip(max as int));
    Err(())
}

/// One more group of a variable-length number: what is known of the whole after it.
proof fn lemma_group_step(i: nat, low: nat, byte: u8, rest: Parsed<nat>)
    requires
        low < groups_radix(i),
    ensures
        low + groups_radix(i) * ((byte % 128) as nat) < groups_radix(i + 1),
        byte < 128 ==> low + groups_radix(i) * (byte as nat) == low + groups_radix(i) * ((byte % 128) as nat),
        byte >= 128 ==> forall|high: nat| #[trigger]
            (groups_radix(i) * ((byte as nat + 128 * high - 128) as nat)) == groups_radix(i) * ((byte
                % 128) as nat) + groups_radix(i + 1) * high,
{
    let w = groups_radix(i);
    let g = ((byte % 128) as nat);
    assert(groups_radix(i + 1) == 128 * w);
    assert(low + w * g < 128 * w) by (nonlinear_arith)
        requires
            low < w,
            g <= 127,
    ;
    if byte >= 128 {
        assert forall|high: nat| #[trigger]
            (w * ((byte as nat + 128 * high - 128) as nat)) == w * g + groups_radix(i + 1) * high by {
            assert(byte as nat + 128 * high - 128 == g + 128 * high);
            assert(w * ((g + 128 * high) as nat) == w * g + (128 * w) * high) by (nonlinear_arith);
        }
    }
}

proof fn lemma_groups_radix_monotonic(a: nat, b: nat)
    requires
        a <= b,
    ensures
        1 <= groups_radix(a) <= groups_radix(b),
    decreases b,
{
    if b > 0 {
        if a < b {
            lemma_groups_radix_monotonic(a, (b - 1) as nat);
        } else {
            lemma_groups_radix_monotonic((b - 1) as nat, (b - 1) as nat);
        }
    }
}

impl<'a> Decode<'a> for u8 {
    open spec fn parse(input: Seq<u8>) -> Parsed<u8> {
        let read = parse_le(input, 1);
        Parsed {
            value: match read.value {
                Some(n) => Some(n as u8),
                None => None,
            },
            used: read.used,
        }
    }

    proof fn lemma_parse_used(input: Seq<u8>) {
    }

    fn decode<D: Decoder<'a>>(decoder: &mut D) -> (r: Result<u8, ()>) {
        proof {
            lemma_radix_values();
        }
        match read_le(decoder, 1) {
            Ok(n) => Ok(n as u8),
            Err(_) => Err(()),
        }
    }
}

impl<'a> Decode<'a> for i8 {
    open spec fn parse(input: Seq<u8>) -> Parsed<i8> {
        let read = parse_le(input, 1);
        Parsed {
            value: match read.value {
                Some(n) => Some(to_signed(n, 1) as i8),
                None => None,
            },
            used: read.used,
        }
    }

    proof fn lemma_parse_used(input: Seq<u8>) {
    }

    fn decode<D: Decoder<'a>>(decoder: &mut D) -> (r: Result<i8, ()>) {
        proof {
            lemma_radix_values();
        }
        match read_le(decoder, 1) {
            Ok(n) => Ok(signed_i8(n as u8)),
            Err(_) => Err(()),
        }
    }
}

impl<'a> Decode<'a> for u16 {
    open spec fn parse(input: Seq<u8>) -> Parsed<u16> {
        let read = parse_le(input, 2);
        Parsed {
            value: match read.value {
                Some(n) => Some(n as u16),
                None => None,
            },
            used: read.used,
        }
    }

    proof fn lemma_parse_used(input: Seq<u8>) {
    }

    fn decode<D: Decoder<'a>>(decoder: &mut D) -> (r: Result<u16, ()>) {
        proof {
            lemma_radix_values();
        }
        match read_le(decoder, 2) {
            Ok(n) => Ok(n as u16),
            Err(_) => Err(()),
        }
    }
}

impl<'a> Decode<'a> for i16 {
    open spec fn parse(input: Seq<u8>) -> Parsed<i16> {
        let read = parse_le(input, 2);
        Parsed {
            value: match read.value {
                Some(n) => Some(to_signed(n, 2) as i16),
                None => None,
            },
            used: read.used,
        }
    }

    proof fn lemma_parse_used(input: Seq<u8>) {
    }

    fn decode<D: Decoder<'a>>(decoder: &mut D) -> (r: Result<i16, ()>) {
        proof {
            lemma_radix_values();
        }
        match read_le(decoder, 2) {
            Ok(n) => Ok(signed_i16(n as u16)),
            Err(_) => Err(()),
        }
    }
}

impl<'a> Decode<'a> for u32 {
    open spec fn parse(input: Seq<u8>) -> Parsed<u32> {
        let read = parse_le(input, 4);
        Parsed {
            value: match read.value {
                Some(n) => Some(n as u32),
                None => None,
            },
            used: read.used,
        }
    }

    proof fn lemma_parse_used(input: Seq<u8>) {
    }

    fn decode<D: Decoder<'a>>(decoder: &mut D) -> (r: Result<u32, ()>) {
        proof {
            lemma_radix_values();
        }
        match read_le(decoder, 4) {
            Ok(n) => Ok(n as u32),
            Err(_) => Err(()),
        }
    }
}

impl<'a> Decode<'a> for i32 {
    open spec fn parse(input: Seq<u8>) -> Parsed<i32> {
        let read = parse_le(input, 4);
        Parsed {
            value: match read.value {
                Some(n) => Some(to_signed(n, 4) as i32),
                None => None,
            },
            used: read.used,
        }
    }

    proof fn lemma_parse_used(input: Seq<u8>) {
    }

    fn decode<D: Decoder<'a>>(decoder: &mut D) -> (r: Result<i32, ()>) {
        proof {
            lemma_radix_values();
        }
        match read_le(decoder, 4) {
            Ok(n) => Ok(signed_i32(n as u32)),
            Err(_) => Err(()),
        }
    }
}

impl<'a> Decode<'a> for u64 {
    open spec fn parse(input: Seq<u8>) -> Parsed<u64> {
        let read = parse_le(input, 8);
        Parsed {
            value: match read.value {
                Some(n) => Some(n as u64),
                None => None,
            },
            used: read.used,
        }
    }

    proof fn lemma_parse_used(input: Seq<u8>) {
    }

    fn decode<D: Decoder<'a>>(decoder: &mut D) -> (r: Result<u64, ()>) {
        proof {
            lemma_radix_values();
        }
        match read_le(decoder, 8) {
            Ok(n) => Ok(n as u64),
            Err(_) => Err(()),
        }
    }
}

impl<'a> Decode<'a> for i64 {
    open spec fn parse(input: Seq<u8>) -> Parsed<i64> {
        let read = parse_le(input, 8);
        Parsed {
            value: match read.value {
                Some(n) => Some(to_signed(n, 8) as i64),
                None => None,
            },
            used: read.used,
        }
    }

    proof fn lemma_parse_used(input: Seq<u8>) {
    }

    fn decode<D: Decoder<'a>>(decoder: &mut D) -> (r: Result<i64, ()>) {
        proof {
            lemma_radix_values();
        }
        match read_le(decoder, 8) {
            Ok(n) => Ok(signed_i64(n as u64)),
            Err(_) => Err(()),
        }
    }
}

impl<'a> Decode<'a> for u128 {
    open spec fn parse(input: Seq<u8>) -> Parsed<u128> {
        let read = parse_le(input, 16);
        Parsed {
            value: match read.value {
                Some(n) => Some(n as u128),
                None => None,
            },
            used: read.used,
        }
    }

    proof fn lemma_parse_used(input: Seq<u8>) {
    }

    fn decode<D: Decoder<'a>>(decoder: &mut D) -> (r: Result<u128, ()>) {
        proof {
            lemma_radix_values();
        }
        match read_le(decoder, 16) {
            Ok(n) => Ok(n),
            Err(_) => Err(()),
        }
    }
}

impl<'a> Decode<'a> for i128 {
    open spec fn parse(input: Seq<u8>) -> Parsed<i128> {
        let read = parse_le(input, 16);
        Parsed {
            value: match read.value {
                Some(n) => Some(to_signed(n, 16) as i128),
                None => None,
            },
            used: read.used,
        }
    }

    proof fn lemma_parse_used(input: Seq<u8>) {
    }

    fn decode<D: Decoder<'a>>(decoder: &mut D) -> (r: Result<i128, ()>) {
        proof {
            lemma_radix_values();
        }
        match read_le(decoder, 16) {
            Ok(n) => Ok(signed_i128(n)),
            Err(_) => Err(()),
        }
    }
}

impl<'a> Decode<'a> for VarInt<u16> {
    open spec fn parse(input: Seq<u8>) -> Parsed<VarInt<u16>> {
        let read = parse_var(input, 3);
        Parsed {
            value: match read.value {
                Some(n) => Some(VarInt((n % radix(2)) as u16)),
                None => None,
            },
            used: read.used,
        }
    }

    proof fn lemma_parse_used(input: Seq<u8>) {
        lemma_parse_var_used(input, 3);
    }

    fn decode<D: Decoder<'a>>(decoder: &mut D) -> (r: Result<VarInt<u16>, ()>) {
        proof {
            lemma_low_bits();
        }
        match read_var(decoder, 3) {
            Ok(n) => Ok(VarInt((n % 0x1_0000) as u16)),
            Err(_) => Err(()),
        }
    }
}

impl<'a> Decode<'a> for VarInt<i16> {
    open spec fn parse(input: Seq<u8>) -> Parsed<VarInt<i16>> {
        let read = parse_var(input, 3);
        Parsed {
            value: match read.value {
                Some(n) => Some(VarInt(to_signed(n % radix(2), 2) as i16)),
                None => None,
            },
            used: read.used,
        }
    }

    proof fn lemma_parse_used(input: Seq<u8>) {
        lemma_parse_var_used(input, 3);
    }

    fn decode<D: Decoder<'a>>(decoder: &mut D) -> (r: Result<VarInt<i16>, ()>) {
        proof {
            lemma_low_bits();
        }
        match read_var(decoder, 3) {
            Ok(n) => Ok(VarInt(signed_i16((n % 0x1_0000) as u16))),
            Err(_) => Err(()),
        }
    }
}

impl<'a> Decode<'a> for VarInt<u32> {
    open spec fn parse(input: Seq<u8>) -> Parsed<VarInt<u32>> {
        let read = parse_var(input, 5);
        Parsed {
            value: match read.value {
                Some(n) => Some(VarInt((n % radix(4)) as u32)),
                None => None,
            },
            used: read.used,
        }
    }

    proof fn lemma_parse_used(input: Seq<u8>) {
        lemma_parse_var_used(input, 5);
    }

    fn decode<D: Decoder<'a>>(decoder: &mut D) -> (r: Result<VarInt<u32>, ()>) {
        proof {
            lemma_low_bits();
        }
        match read_var(decoder, 5) {
            Ok(n) => Ok(VarInt((n % 0x1_0000_0000) as u32)),
            Err(_) => Err(()),
        }
    }
}

impl<'a> Decode<'a> for VarInt<i32> {
    open spec fn parse(input: Seq<u8>) -> Parsed<VarInt<i32>> {
        let read = parse_var(input, 5);
        Parsed {
            value: match read.value {
                Some(n) => Some(VarInt(to_signed(n % radix(4), 4) as i32)),
                None => None,
            },
            used: read.used,
        }
    }

    proof fn lemma_parse_used(input: Seq<u8>) {
        lemma_parse_var_used(input, 5);
    }

    fn decode<D: Decoder<'a>>(decoder: &mut D) -> (r: Result<VarInt<i32>, ()>) {
        proof {
            lemma_low_bits();
        }
        match read_var(decoder, 5) {
            Ok(n) => Ok(VarInt(signed_i32((n % 0x1_0000_0000) as u32))),
            Err(_) => Err(()),
        }
    }
}

impl<'a> Decode<'a> for VarInt<u64> {
    open spec fn parse(input: Seq<u8>) -> Parsed<VarInt<u64>> {
        let read = parse_var(input, 10);
        Parsed {
            value: match read.value {
                Some(n) => Some(VarInt((n % radix(8)) as u64)),
                None => None,
            },
            used: read.used,
        }
    }

    proof fn lemma_parse_used(input: Seq<u8>) {
        lemma_parse_var_used(input, 10);
    }

    fn decode<D: Decoder<'a>>(decoder: &mut D) -> (r: Result<VarInt<u64>, ()>) {
        proof {
            lemma_low_bits();
        }
        match read_var(decoder, 10) {
            Ok(n) => Ok(VarInt((n % 0x1_0000_0000_0000_0000) as u64)),
            Err(_) => Err(()),
        }
    }
}

impl<'a> Decode<'a> for VarInt<i64> {
    open spec fn parse(input: Seq<u8>) -> Parsed<VarInt<i64>> {
        let read = parse_var(input, 10);
        Parsed {
            value: match read.value {
                Some(n) => Some(VarInt(to_signed(n % radix(8), 8) as i64)),
                None => None,
            },
            used: read.used,
        }
    }

    proof fn lemma_parse_used(input: Seq<u8>) {
        lemma_parse_var_used(input, 10);
    }

    fn decode<D: Decoder<'a>>(decoder: &mut D) -> (r: Result<VarInt<i64>, ()>) {
        proof {
            lemma_low_bits();
        }
        match read_var(decoder, 10) {
            Ok(n) => Ok(VarInt(signed_i64((n % 0x1_0000_0000_0000_0000) as u64))),
            Err(_) => Err(()),
        }
    }
}

impl<'a> Decode<'a> for VarInt<u128> {
    open spec fn parse(input: Seq<u8>) -> Parsed<VarInt<u128>> {
        let read = parse_var(input, 19);
        Parsed {
            value: match read.value {
                Some(n) => Some(VarInt((n % radix(16)) as u128)),
                None => None,
            },
            used: read.used,
        }
    }

    proof fn lemma_parse_used(input: Seq<u8>) {
        lemma_parse_var_used(input, 19);
    }

    fn decode<D: Decoder<'a>>(decoder: &mut D) -> (r: Result<VarInt<u128>, ()>) {
        proof {
            lemma_low_bits();
        }
        match read_var(decoder, 19) {
            Ok(n) => Ok(VarInt(n)),
            Err(_) => Err(()),
        }
    }
}

impl<'a> Decode<'a> for VarInt<i128> {
    open spec fn parse(input: Seq<u8>) -> Parsed<VarInt<i128>> {
        let read = parse_var(input, 19);
        Parsed {
            value: match read.value {
                Some(n) => Some(VarInt(to_signed(n % radix(16), 16) as i128)),
                None => None,
            },
            used: read.used,
        }
    }

    proof fn lemma_parse_used(input: Seq<u8>) {
        lemma_parse_var_used(input, 19);
    }

    fn decode<D: Decoder<'a>>(decoder: &mut D) -> (r: Result<VarInt<i128>, ()>) {
        proof {
            lemma_low_bits();
        }
        match read_var(decoder, 19) {
            Ok(n) => Ok(VarInt(signed_i128(n))),
            Err(_) => Err(()),
        }
    }
}

/// Dropping the high bits in two steps is dropping them in one.
proof fn lemma_low_bits()
    ensures
        radix(2) == 0x1_0000,
        radix(4) == 0x1_0000_0000,
        radix(8) == 0x1_0000_0000_0000_0000,
        radix(16) == 0x1_0000_0000_0000_0000_0000_0000_0000_0000,
        forall|n: nat| #[trigger] (n % radix(16)) % 0x1_0000 == n % 0x1_0000,
        forall|n: nat| #[trigger] (n % radix(16)) % 0x1_0000_0000 == n % 0x1_0000_0000,
        forall|n: nat| #[trigger]
            (n % radix(16)) % 0x1_0000_0000_0000_0000 == n % 0x1_0000_0000_0000_0000,
{
    lemma_radix_values();
    assert forall|n: nat| #[trigger] (n % radix(16)) % 0x1_0000 == n % 0x1_0000 by {
        lemma_mod_mod(n as int, 0x1_0000, 0x1_0000_0000_0000_0000_0000_0000_0000);
    }
    assert forall|n: nat| #[trigger] (n % radix(16)) % 0x1_0000_0000 == n % 0x1_0000_0000 by {
        lemma_mod_mod(n as int, 0x1_0000_0000, 0x1_0000_0000_0000_0000_0000_0000);
    }
    assert forall|n: nat| #[trigger]
        (n % radix(16)) % 0x1_0000_0000_0000_0000 == n % 0x1_0000_0000_0000_0000 by {
        lemma_mod_mod(n as int, 0x1_0000_0000_0000_0000, 0x1_0000_0000_0000_0000);
    }
}

/// `core::str::from_utf8`: the string whose UTF-8 form is `bytes`, if `bytes` is valid UTF-8.
#[verifier::external_body]
fn str_from_utf8<'a>(bytes: &'a [u8]) -> (r: Option<&'a str>)
    ensures
        match r {
            Some(s) => valid_utf8(bytes@) && s.spec_bytes() == bytes@,
            None => !valid_utf8(bytes@),
        },
{
    core::str::from_utf8(bytes).ok()
}

impl<'a, const MAX_LEN: usize> Decode<'a> for StrWithMaxLen<'a, MAX_LEN> {
    open spec fn parse(input: Seq<u8>) -> Parsed<Seq<char>> {
        let head = VarInt::<u32>::parse(input);
        match head.value {
            Some(len) => if len.0 > MAX_LEN as u32 || head.used + len.0 > input.len() {
                Parsed { value: None, used: head.used }
            } else {
                let bytes = input.subrange(head.used as int, head.used + len.0);
                Parsed {
                    value: if valid_utf8(bytes) {
                        Some(decode_utf8(bytes))
                    } else {
                        None
                    },
                    used: head.used + len.0 as nat,
                }
            },
            None => Parsed { value: None, used: head.used },
        }
    }

    proof fn lemma_parse_used(input: Seq<u8>) {
        VarInt::<u32>::lemma_parse_used(input);
    }

    fn decode<D: Decoder<'a>>(decoder: &mut D) -> (r: Result<StrWithMaxLen<'a, MAX_LEN>, ()>) {
        let ghost input = decoder.remaining();
        let ghost head = VarInt::<u32>::parse(input);
        proof {
            VarInt::<u32>::lemma_parse_used(input);
        }
        let len: u32 = match VarInt::<u32>::decode(decoder) {
            Ok(len) => len.0,
            Err(_) => {
                return Err(());
            },
        };
        if len > MAX_LEN as u32 {
            return Err(());
        }
        match decoder.read(len as usize) {
            Some(bytes) => {
                assert(bytes@ =~= input.subrange(head.used as int, head.used + len));
                assert(decoder.remaining() =~= input.skip(head.used + len));
                match str_from_utf8(bytes) {
                    Some(s) => {
                        proof {
                            encode_utf8_decode_utf8(s@);
                        }
                        Ok(StrWithMaxLen(s))
                    },
                    None => Err(()),
                }
            },
            None => Err(()),
        }
    }
}

} // verus!
