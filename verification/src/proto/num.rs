//! Numbers as byte sequences: what the little-endian and the variable-length form of a number are.
use vstd::prelude::*;

verus! {

/// What decoding a byte sequence comes to: the value, if there is one, and how many bytes were
/// consumed in finding out.
pub struct Parsed<V> {
    pub value: Option<V>,
    pub used: nat,
}

/// The number of values that `len` bytes can hold.
pub open spec fn radix(len: nat) -> nat
    decreases len,
{
    if len == 0 {
        1
    } else {
        256 * radix((len - 1) as nat)
    }
}

/// The `len` low bytes of `n`, lowest first.
pub open spec fn le_bytes(n: nat, len: nat) -> Seq<u8>
    decreases len,
{
    if len == 0 {
        Seq::empty()
    } else {
        seq![(n % 256) as u8] + le_bytes(n / 256, (len - 1) as nat)
    }
}

/// The number whose bytes, lowest first, are `bytes`.
pub open spec fn le_value(bytes: Seq<u8>) -> nat
    decreases bytes.len(),
{
    if bytes.len() == 0 {
        0
    } else {
        bytes[0] as nat + 256 * le_value(bytes.skip(1))
    }
}

/// The unsigned number with the same `len` bytes as the signed number `v`.
pub open spec fn to_unsigned(v: int, len: nat) -> nat {
    if v < 0 {
        (v + radix(len)) as nat
    } else {
        v as nat
    }
}

/// The signed number with the same `len` bytes as the unsigned number `n`.
pub open spec fn to_signed(n: nat, len: nat) -> int {
    if 2 * n >= radix(len) {
        n - radix(len)
    } else {
        n as int
    }
}

/// Reads a fixed-width number: the first `len` bytes, or nothing at all if there are fewer.
pub open spec fn parse_le(input: Seq<u8>, len: nat) -> Parsed<nat> {
    if input.len() < len {
        Parsed { value: None, used: 0 }
    } else {
        Parsed { value: Some(le_value(input.take(len as int))), used: len }
    }
}

/// The variable-length form of `n`: groups of seven bits, lowest first, the high bit of each byte
/// saying whether another byte follows.
pub open spec fn var_bytes(n: nat) -> Seq<u8>
    decreases n,
{
    if n < 128 {
        seq![n as u8]
    } else {
        seq![(n % 128 + 128) as u8] + var_bytes(n / 128)
    }
}

/// Reads a variable-length number of at most `max` bytes.
pub open spec fn parse_var(input: Seq<u8>, max: nat) -> Parsed<nat>
    decreases max,
{
    if max == 0 || input.len() == 0 {
        Parsed { value: None, used: 0 }
    } else if input[0] < 128 {
        Parsed { value: Some(input[0] as nat), used: 1 }
    } else {
        let rest = parse_var(input.skip(1), (max - 1) as nat);
        Parsed {
            value: match rest.value {
                Some(high) => Some((input[0] as nat + 128 * high - 128) as nat),
                None => None,
            },
            used: rest.used + 1,
        }
    }
}

/// The number of values that `groups` groups of seven bits can hold.
pub open spec fn groups_radix(groups: nat) -> nat
    decreases groups,
{
    if groups == 0 {
        1
    } else {
        128 * groups_radix((groups - 1) as nat)
    }
}

pub proof fn lemma_radix_values()
    ensures
        radix(1) == 0x100,
        radix(2) == 0x1_0000,
        radix(4) == 0x1_0000_0000,
        radix(8) == 0x1_0000_0000_0000_0000,
        radix(16) == 0x1_0000_0000_0000_0000_0000_0000_0000_0000,
{
    reveal_with_fuel(radix, 17);
}

pub proof fn lemma_groups_radix_values()
    ensures
        groups_radix(3) == 0x20_0000,
        groups_radix(5) == 0x8_0000_0000,
        groups_radix(10) == 0x40_0000_0000_0000_0000,
        groups_radix(18) == 0x4000_0000_0000_0000_0000_0000_0000_0000,
        groups_radix(19) == 0x20_0000_0000_0000_0000_0000_0000_0000_0000,
{
    reveal_with_fuel(groups_radix, 20);
}

pub proof fn lemma_le_bytes_len(n: nat, len: nat)
    ensures
        le_bytes(n, len).len() == len,
    decreases len,
{
    if len > 0 {
        lemma_le_bytes_len(n / 256, (len - 1) as nat);
    }
}

/// Every number below the radix is given back by its little-endian bytes.
pub proof fn law_le_round_trip(n: nat, len: nat)
    requires
        n < radix(len),
    ensures
        le_bytes(n, len).len() == len,
        le_value(le_bytes(n, len)) == n,
    decreases len,
{
    if len > 0 {
        law_le_round_trip(n / 256, (len - 1) as nat);
        assert(le_bytes(n, len).skip(1) =~= le_bytes(n / 256, (len - 1) as nat));
    }
}

pub proof fn lemma_le_value_bound(bytes: Seq<u8>)
    ensures
        le_value(bytes) < radix(bytes.len()),
    decreases bytes.len(),
{
    if bytes.len() > 0 {
        lemma_le_value_bound(bytes.skip(1));
    }
}

/// Reading the little-endian bytes of a number gives the number, whatever follows them.
pub proof fn law_parse_le_bytes(n: nat, len: nat, rest: Seq<u8>)
    requires
        n < radix(len),
    ensures
        parse_le(le_bytes(n, len) + rest, len) == (Parsed { value: Some(n), used: len }),
{
    law_le_round_trip(n, len);
    assert((le_bytes(n, len) + rest).take(len as int) =~= le_bytes(n, len));
}

/// The two readings of the same bytes, signed and unsigned, determine each other.
pub proof fn law_signed_round_trip(v: int, len: nat)
    requires
        -(radix(len) as int) <= 2 * v < radix(len),
    ensures
        to_unsigned(v, len) < radix(len),
        to_signed(to_unsigned(v, len), len) == v,
{
}

pub proof fn lemma_parse_var_used(input: Seq<u8>, max: nat)
    ensures
        parse_var(input, max).used <= input.len(),
        parse_var(input, max).used <= max,
        parse_var(input, max).value is Some ==> parse_var(input, max).used >= 1,
    decreases max,
{
    if max > 0 && input.len() > 0 && input[0] >= 128 {
        lemma_parse_var_used(input.skip(1), (max - 1) as nat);
    }
}

/// A number that fits in `groups` groups is written in at least one and at most `groups` bytes.
pub proof fn law_var_bytes_len(n: nat, groups: nat)
    requires
        1 <= groups,
        n < groups_radix(groups),
    ensures
        1 <= var_bytes(n).len(),
        var_bytes(n).len() <= groups,
    decreases groups,
{
    if n >= 128 {
        reveal_with_fuel(groups_radix, 2);
        law_var_bytes_len(n / 128, (groups - 1) as nat);
    }
}

/// Reading the variable-length form of a number gives the number, whatever follows it.
pub proof fn law_parse_var_bytes(n: nat, max: nat, rest: Seq<u8>)
    requires
        1 <= max,
        n < groups_radix(max),
    ensures
        parse_var(var_bytes(n) + rest, max) == (Parsed {
            value: Some(n),
            used: var_bytes(n).len(),
        }),
    decreases max,
{
    if n >= 128 {
        reveal_with_fuel(groups_radix, 2);
        law_parse_var_bytes(n / 128, (max - 1) as nat, rest);
        assert((var_bytes(n) + rest).skip(1) =~= var_bytes(n / 128) + rest);
    } else {
        assert((var_bytes(n) + rest)[0] == n as u8);
    }
}

/// The unsigned number with the bits of `v`.
pub fn unsigned_i8(v: i8) -> (bits: u8)
    ensures
        bits as nat == to_unsigned(v as int, 1),
{
    let bits: u8 = v as u8;
    proof {
        lemma_radix_values();
        assert(bits == (if v < 0 {
            v + 0x100
        } else {
            v as int
        })) by (bit_vector)
            requires
                bits == v as u8,
        ;
    }
    bits
}

/// The signed number with the bits `bits`.
pub fn signed_i8(bits: u8) -> (v: i8)
    ensures
        v as int == to_signed(bits as nat, 1),
{
    let v: i8 = bits as i8;
    proof {
        lemma_radix_values();
        assert(v == (if bits >= 0x80 {
            bits - 0x100
        } else {
            bits as int
        })) by (bit_vector)
            requires
                v == bits as i8,
        ;
    }
    v
}

/// The unsigned number with the bits of `v`.
pub fn unsigned_i16(v: i16) -> (bits: u16)
    ensures
        bits as nat == to_unsigned(v as int, 2),
{
    let bits: u16 = v as u16;
    proof {
        lemma_radix_values();
        assert(bits == (if v < 0 {
            v + 0x1_0000
        } else {
            v as int
        })) by (bit_vector)
            requires
                bits == v as u16,
        ;
    }
    bits
}

/// The signed number with the bits `bits`.
pub fn signed_i16(bits: u16) -> (v: i16)
    ensures
        v as int == to_signed(bits as nat, 2),
{
    let v: i16 = bits as i16;
    proof {
        lemma_radix_values();
        assert(v == (if bits >= 0x8000 {
            bits - 0x1_0000
        } else {
            bits as int
        })) by (bit_vector)
            requires
                v == bits as i16,
        ;
    }
    v
}

/// The unsigned number with the bits of `v`.
pub fn unsigned_i32(v: i32) -> (bits: u32)
    ensures
        bits as nat == to_unsigned(v as int, 4),
{
    let bits: u32 = v as u32;
    proof {
        lemma_radix_values();
        assert(bits == (if v < 0 {
            v + 0x1_0000_0000
        } else {
            v as int
        })) by (bit_vector)
            requires
                bits == v as u32,
        ;
    }
    bits
}

/// The signed number with the bits `bits`.
pub fn signed_i32(bits: u32) -> (v: i32)
    ensures
        v as int == to_signed(bits as nat, 4),
{
    let v: i32 = bits as i32;
    proof {
        lemma_radix_values();
        assert(v == (if bits >= 0x8000_0000 {
            bits - 0x1_0000_0000
        } else {
            bits as int
        })) by (bit_vector)
            requires
                v == bits as i32,
        ;
    }
    v
}

/// The unsigned number with the bits of `v`.
pub fn unsigned_i64(v: i64) -> (bits: u64)
    ensures
        bits as nat == to_unsigned(v as int, 8),
{
    let bits: u64 = v as u64;
    proof {
        lemma_radix_values();
        assert(bits == (if v < 0 {
            v + 0x1_0000_0000_0000_0000
        } else {
            v as int
        })) by (bit_vector)
            requires
                bits == v as u64,
        ;
    }
    bits
}

/// The signed number with the bits `bits`.
pub fn signed_i64(bits: u64) -> (v: i64)
    ensures
        v as int == to_signed(bits as nat, 8),
{
    let v: i64 = bits as i64;
    proof {
        lemma_radix_values();
        assert(v == (if bits >= 0x8000_0000_0000_0000 {
            bits - 0x1_0000_0000_0000_0000
        } else {
            bits as int
        })) by (bit_vector)
            requires
                v == bits as i64,
        ;
    }
    v
}

/// The unsigned number with the bits of `v`.
pub fn unsigned_i128(v: i128) -> (bits: u128)
    ensures
        bits as nat == to_unsigned(v as int, 16),
{
    let bits: u128 = v as u128;
    proof {
        lemma_radix_values();
        assert(bits == (if v < 0 {
            v + 0x1_0000_0000_0000_0000_0000_0000_0000_0000
        } else {
            v as int
        })) by (bit_vector)
            requires
                bits == v as u128,
        ;
    }
    bits
}

/// The signed number with the bits `bits`.
pub fn signed_i128(bits: u128) -> (v: i128)
    ensures
        v as int == to_signed(bits as nat, 16),
{
    let v: i128 = bits as i128;
    proof {
        lemma_radix_values();
        assert(v == (if bits >= 0x8000_0000_0000_0000_0000_0000_0000_0000 {
            bits - 0x1_0000_0000_0000_0000_0000_0000_0000_0000
        } else {
            bits as int
        })) by (bit_vector)
            requires
                v == bits as i128,
        ;
    }
    v
}

} // verus!
