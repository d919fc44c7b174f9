//! Writing values as bytes.
use super::num::{
    le_bytes, to_unsigned, unsigned_i128, unsigned_i16, unsigned_i32, unsigned_i64, unsigned_i8,
    var_bytes,
};
use super::{StrWithMaxLen, VarInt};
use vstd::prelude::*;
use vstd::string::StringSliceAdditionalSpecFns;

verus! {

/// Something that bytes can be appended to.
pub trait Encoder {
    /// The bytes written so far.
    spec fn written(&self) -> Seq<u8>;

    /// Whether this and every later write succeeds.
    spec fn unfailing(&self) -> bool;

    fn write(&mut self, bytes: &[u8]) -> (r: Result<(), ()>)
        ensures
            r is Ok ==> final(self).written() == old(self).written() + bytes@,
            old(self).unfailing() ==> r is Ok && final(self).unfailing(),
    ;
}

impl Encoder for Vec<u8> {
    open spec fn written(&self) -> Seq<u8> {
        self@
    }

    open spec fn unfailing(&self) -> bool {
        true
    }

    fn write(&mut self, bytes: &[u8]) -> (r: Result<(), ()>)
        ensures
            r is Ok,
            final(self)@ == old(self)@ + bytes@,
    {
        self.extend_from_slice(bytes);
        assert(self@ =~= old(self)@ + bytes@);
        Ok(())
    }
}

/// A value with a form in bytes.
pub trait Encode {
    /// Whether the value has a form in bytes at all.
    spec fn encodable(&self) -> bool;

    /// The value's form in bytes.
    spec fn encoding(&self) -> Seq<u8>;

    /// Appends the value's form in bytes. It fails if the value has none, and then nothing is
    /// written, or if the encoder fails.
    fn encode<E: Encoder>(&self, encoder: &mut E) -> (r: Result<(), ()>)
        ensures
            r is Ok ==> self.encodable() && final(encoder).written() == old(encoder).written()
                + self.encoding(),
            !self.encodable() ==> r is Err && final(encoder).written() == old(encoder).written(),
            old(encoder).unfailing() ==> final(encoder).unfailing() && (r is Ok
                <==> self.encodable()),
    ;
}

/// The `len` low bytes of `value`, lowest first.
fn le_vec(value: u128, len: usize) -> (out: Vec<u8>)
    ensures
        out@ == le_bytes(value as nat, len as nat),
{
    let mut out: Vec<u8> = Vec::new();
    let mut left: u128 = value;
    let mut i: usize = 0;
    while i < len
        invariant
            i <= len,
            out@ + le_bytes(left as nat, (len - i) as nat) =~= le_bytes(value as nat, len as nat),
        decreases len - i,
    {
        out.push((left % 256) as u8);
        left = left / 256;
        i += 1;
    }
    out
}

/// Writes the variable-length form of `value`.
fn write_var<E: Encoder>(value: u128, encoder: &mut E) -> (r: Result<(), ()>)
    ensures
        r is Ok ==> final(encoder).written() == old(encoder).written() + var_bytes(value as nat),
        old(encoder).unfailing() ==> r is Ok && final(encoder).unfailing(),
{
    let mut this: u128 = value;
    while this >= 128
        invariant
            encoder.written() + var_bytes(this as nat) =~= old(encoder).written() + var_bytes(
                value as nat,
            ),
            old(encoder).unfailing() ==> encoder.unfailing(),
        decreases this,
    {
        let group: [u8; 1] = [(this % 128) as u8 + 128];
        assert(group@ =~= seq![(this as nat % 128 + 128) as u8]);
        match encoder.write(&group) {
            Ok(_) => {},
            Err(_) => {
                return Err(());
            },
        }
        this = this / 128;
    }
    let group: [u8; 1] = [this as u8];
    assert(group@ =~= seq![this as nat as u8]);
    encoder.write(&group)
}

impl Encode for u8 {
    open spec fn encodable(&self) -> bool {
        true
    }

    open spec fn encoding(&self) -> Seq<u8> {
        le_bytes(*self as nat, 1)
    }

    fn encode<E: Encoder>(&self, encoder: &mut E) -> (r: Result<(), ()>) {
        let value: u128 = *self as u128;
        encoder.write(le_vec(value, 1).as_slice())
    }
}

impl Encode for i8 {
    open spec fn encodable(&self) -> bool {
        true
    }

    open spec fn encoding(&self) -> Seq<u8> {
        le_bytes(to_unsigned(*self as int, 1), 1)
    }

    fn encode<E: Encoder>(&self, encoder: &mut E) -> (r: Result<(), ()>) {
        let value: u128 = unsigned_i8(*self) as u128;
        encoder.write(le_vec(value, 1).as_slice())
    }
}

impl Encode for u16 {
    open spec fn encodable(&self) -> bool {
        true
    }

    open spec fn encoding(&self) -> Seq<u8> {
        le_bytes(*self as nat, 2)
    }

    fn encode<E: Encoder>(&self, encoder: &mut E) -> (r: Result<(), ()>) {
        let value: u128 = *self as u128;
        encoder.write(le_vec(value, 2).as_slice())
    }
}

impl Encode for i16 {
    open spec fn encodable(&self) -> bool {
        true
    }

    open spec fn encoding(&self) -> Seq<u8> {
        le_bytes(to_unsigned(*self as int, 2), 2)
    }

    fn encode<E: Encoder>(&self, encoder: &mut E) -> (r: Result<(), ()>) {
        let value: u128 = unsigned_i16(*self) as u128;
        encoder.write(le_vec(value, 2).as_slice())
    }
}

impl Encode for u32 {
    open spec fn encodable(&self) -> bool {
        true
    }

    open spec fn encoding(&self) -> Seq<u8> {
        le_bytes(*self as nat, 4)
    }

    fn encode<E: Encoder>(&self, encoder: &mut E) -> (r: Result<(), ()>) {
        let value: u128 = *self as u128;
        encoder.write(le_vec(value, 4).as_slice())
    }
}

impl Encode for i32 {
    open spec fn encodable(&self) -> bool {
        true
    }

    open spec fn encoding(&self) -> Seq<u8> {
        le_bytes(to_unsigned(*self as int, 4), 4)
    }

    fn encode<E: Encoder>(&self, encoder: &mut E) -> (r: Result<(), ()>) {
        let value: u128 = unsigned_i32(*self) as u128;
        encoder.write(le_vec(value, 4).as_slice())
    }
}

impl Encode for u64 {
    open spec fn encodable(&self) -> bool {
        true
    }

    open spec fn encoding(&self) -> Seq<u8> {
        le_bytes(*self as nat, 8)
    }

    fn encode<E: Encoder>(&self, encoder: &mut E) -> (r: Result<(), ()>) {
        let value: u128 = *self as u128;
        encoder.write(le_vec(value, 8).as_slice())
    }
}

impl Encode for i64 {
    open spec fn encodable(&self) -> bool {
        true
    }

    open spec fn encoding(&self) -> Seq<u8> {
        le_bytes(to_unsigned(*self as int, 8), 8)
    }

    fn encode<E: Encoder>(&self, encoder: &mut E) -> (r: Result<(), ()>) {
        let value: u128 = unsigned_i64(*self) as u128;
        encoder.write(le_vec(value, 8).as_slice())
    }
}

impl Encode for u128 {
    open spec fn encodable(&self) -> bool {
        true
    }

    open spec fn encoding(&self) -> Seq<u8> {
        le_bytes(*self as nat, 16)
    }

    fn encode<E: Encoder>(&self, encoder: &mut E) -> (r: Result<(), ()>) {
        let value: u128 = *self;
        encoder.write(le_vec(value, 16).as_slice())
    }
}

impl Encode for i128 {
    open spec fn encodable(&self) -> bool {
        true
    }

    open spec fn encoding(&self) -> Seq<u8> {
        le_bytes(to_unsigned(*self as int, 16), 16)
    }

    fn encode<E: Encoder>(&self, encoder: &mut E) -> (r: Result<(), ()>) {
        let value: u128 = unsigned_i128(*self);
        encoder.write(le_vec(value, 16).as_slice())
    }
}

impl Encode for VarInt<u16> {
    open spec fn encodable(&self) -> bool {
        true
    }

    open spec fn encoding(&self) -> Seq<u8> {
        var_bytes(self.0 as nat)
    }

    fn encode<E: Encoder>(&self, encoder: &mut E) -> (r: Result<(), ()>) {
        write_var(self.0 as u128, encoder)
    }
}

impl Encode for VarInt<i16> {
    open spec fn encodable(&self) -> bool {
        true
    }

    open spec fn encoding(&self) -> Seq<u8> {
        var_bytes(to_unsigned(self.0 as int, 2))
    }

    fn encode<E: Encoder>(&self, encoder: &mut E) -> (r: Result<(), ()>) {
        write_var(unsigned_i16(self.0) as u128, encoder)
    }
}

impl Encode for VarInt<u32> {
    open spec fn encodable(&self) -> bool {
        true
    }

    open spec fn encoding(&self) -> Seq<u8> {
        var_bytes(self.0 as nat)
    }

    fn encode<E: Encoder>(&self, encoder: &mut E) -> (r: Result<(), ()>) {
        write_var(self.0 as u128, encoder)
    }
}

impl Encode for VarInt<i32> {
    open spec fn encodable(&self) -> bool {
        true
    }

    open spec fn encoding(&self) -> Seq<u8> {
        var_bytes(to_unsigned(self.0 as int, 4))
    }

    fn encode<E: Encoder>(&self, encoder: &mut E) -> (r: Result<(), ()>) {
        write_var(unsigned_i32(self.0) as u128, encoder)
    }
}

impl Encode for VarInt<u64> {
    open spec fn encodable(&self) -> bool {
        true
    }

    open spec fn encoding(&self) -> Seq<u8> {
        var_bytes(self.0 as nat)
    }

    fn encode<E: Encoder>(&self, encoder: &mut E) -> (r: Result<(), ()>) {
        write_var(self.0 as u128, encoder)
    }
}

impl Encode for VarInt<i64> {
    open spec fn encodable(&self) -> bool {
        true
    }

    open spec fn encoding(&self) -> Seq<u8> {
        var_bytes(to_unsigned(self.0 as int, 8))
    }

    fn encode<E: Encoder>(&self, encoder: &mut E) -> (r: Result<(), ()>) {
        write_var(unsigned_i64(self.0) as u128, encoder)
    }
}

impl Encode for VarInt<u128> {
    open spec fn encodable(&self) -> bool {
        true
    }

    open spec fn encoding(&self) -> Seq<u8> {
        var_bytes(self.0 as nat)
    }

    fn encode<E: Encoder>(&self, encoder: &mut E) -> (r: Result<(), ()>) {
        write_var(self.0, encoder)
    }
}

impl Encode for VarInt<i128> {
    open spec fn encodable(&self) -> bool {
        true
    }

    open spec fn encoding(&self) -> Seq<u8> {
        var_bytes(to_unsigned(self.0 as int, 16))
    }

    fn encode<E: Encoder>(&self, encoder: &mut E) -> (r: Result<(), ()>) {
        write_var(unsigned_i128(self.0), encoder)
    }
}

impl<'a, const MAX_LEN: usize> Encode for StrWithMaxLen<'a, MAX_LEN> {
    open spec fn encodable(&self) -> bool {
        self.0.spec_bytes().len() <= MAX_LEN
    }

    open spec fn encoding(&self) -> Seq<u8> {
        var_bytes(self.0.spec_bytes().len() as u32 as nat) + self.0.spec_bytes()
    }

    fn encode<E: Encoder>(&self, encoder: &mut E) -> (r: Result<(), ()>) {
        let bytes = self.0.as_bytes();
        if bytes.len() > MAX_LEN {
            return Err(());
        }
        match VarInt(bytes.len() as u32).encode(encoder) {
            Ok(_) => {},
            Err(_) => {
                return Err(());
            },
        }
        let r = encoder.write(bytes);
        assert(r is Ok ==> encoder.written() =~= old(encoder).written() + self.encoding());
        r
    }
}

} // verus!
