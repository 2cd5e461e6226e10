use vstd::prelude::*;

use crate::error::Error;

verus! {

// --- Little-endian packing convenience functions ---

/// The little-endian byte image of a 16-bit value.
pub open spec fn spec_p16l(x: u16) -> Seq<u8> {
    seq![(x & 0xff) as u8, ((x >> 8) & 0xff) as u8]
}

/// The little-endian byte image of a 32-bit value.
pub open spec fn spec_p32l(x: u32) -> Seq<u8> {
    seq![
        (x & 0xff) as u8,
        ((x >> 8) & 0xff) as u8,
        ((x >> 16) & 0xff) as u8,
        ((x >> 24) & 0xff) as u8,
    ]
}

/// The little-endian byte image of a 64-bit value.
pub open spec fn spec_p64l(x: u64) -> Seq<u8> {
    seq![
        (x & 0xff) as u8,
        ((x >> 8) & 0xff) as u8,
        ((x >> 16) & 0xff) as u8,
        ((x >> 24) & 0xff) as u8,
        ((x >> 32) & 0xff) as u8,
        ((x >> 40) & 0xff) as u8,
        ((x >> 48) & 0xff) as u8,
        ((x >> 56) & 0xff) as u8,
    ]
}

/// The 16-bit value read from two little-endian bytes.
pub open spec fn spec_u16l(s: Seq<u8>) -> u16
    recommends
        s.len() == 2,
{
    (s[0] as u16) | ((s[1] as u16) << 8)
}

/// The 32-bit value read from four little-endian bytes.
pub open spec fn spec_u32l(s: Seq<u8>) -> u32
    recommends
        s.len() == 4,
{
    (s[0] as u32) | ((s[1] as u32) << 8) | ((s[2] as u32) << 16) | ((s[3] as u32) << 24)
}

/// The 64-bit value read from eight little-endian bytes.
pub open spec fn spec_u64l(s: Seq<u8>) -> u64
    recommends
        s.len() == 8,
{
    (s[0] as u64) | ((s[1] as u64) << 8) | ((s[2] as u64) << 16) | ((s[3] as u64) << 24)
        | ((s[4] as u64) << 32) | ((s[5] as u64) << 40) | ((s[6] as u64) << 48)
        | ((s[7] as u64) << 56)
}

/// Packs an 8-bit value as one byte.
pub fn p8l(addr: u8) -> (r: [u8; 1])
    ensures
        r@ == seq![addr],
{
    [addr]
}

/// Reads an 8-bit value from one byte.
pub fn u8l(bytes: [u8; 1]) -> (r: u8)
    ensures
        r == bytes@[0],
{
    bytes[0]
}

/// Packs a 16-bit value as two bytes, least significant first.
pub fn p16l(addr: u16) -> (r: [u8; 2])
    ensures
        r@ == spec_p16l(addr),
{
    let r = [(addr & 0xff) as u8, ((addr >> 8) & 0xff) as u8];
    proof {
        assert(r@ =~= spec_p16l(addr));
    }
    r
}

/// Reads a 16-bit value from two little-endian bytes.
pub fn u16l(bytes: [u8; 2]) -> (r: u16)
    ensures
        r == spec_u16l(bytes@),
{
    (bytes[0] as u16) | ((bytes[1] as u16) << 8)
}

/// Packs a 32-bit value as four bytes, least significant first.
pub fn p32l(addr: u32) -> (r: [u8; 4])
    ensures
        r@ == spec_p32l(addr),
{
    let r = [
        (addr & 0xff) as u8,
        ((addr >> 8) & 0xff) as u8,
        ((addr >> 16) & 0xff) as u8,
        ((addr >> 24) & 0xff) as u8,
    ];
    proof {
        assert(r@ =~= spec_p32l(addr));
    }
    r
}

/// Reads a 32-bit value from four little-endian bytes.
pub fn u32l(bytes: [u8; 4]) -> (r: u32)
    ensures
        r == spec_u32l(bytes@),
{
    (bytes[0] as u32) | ((bytes[1] as u32) << 8) | ((bytes[2] as u32) << 16)
        | ((bytes[3] as u32) << 24)
}

/// Packs a 64-bit value as eight bytes, least significant first.
pub fn p64l(addr: u64) -> (r: [u8; 8])
    ensures
        r@ == spec_p64l(addr),
{
    let r = [
        (addr & 0xff) as u8,
        ((addr >> 8) & 0xff) as u8,
        ((addr >> 16) & 0xff) as u8,
        ((addr >> 24) & 0xff) as u8,
        ((addr >> 32) & 0xff) as u8,
        ((addr >> 40) & 0xff) as u8,
        ((addr >> 48) & 0xff) as u8,
        ((addr >> 56) & 0xff) as u8,
    ];
    proof {
        assert(r@ =~= spec_p64l(addr));
    }
    r
}

/// Reads a 64-bit value from eight little-endian bytes.
pub fn u64l(bytes: [u8; 8]) -> (r: u64)
    ensures
        r == spec_u64l(bytes@),
{
    (bytes[0] as u64) | ((bytes[1] as u64) << 8) | ((bytes[2] as u64) << 16)
        | ((bytes[3] as u64) << 24) | ((bytes[4] as u64) << 32) | ((bytes[5] as u64) << 40)
        | ((bytes[6] as u64) << 48) | ((bytes[7] as u64) << 56)
}

// --- Big-endian packing convenience functions ---

/// The big-endian byte image of a 16-bit value.
pub open spec fn spec_p16b(x: u16) -> Seq<u8> {
    spec_p16l(x).reverse()
}

/// The big-endian byte image of a 32-bit value.
pub open spec fn spec_p32b(x: u32) -> Seq<u8> {
    spec_p32l(x).reverse()
}

/// The big-endian byte image of a 64-bit value.
pub open spec fn spec_p64b(x: u64) -> Seq<u8> {
    spec_p64l(x).reverse()
}

/// Packs an 8-bit value as one byte.
pub fn p8b(addr: u8) -> (r: [u8; 1])
    ensures
        r@ == seq![addr],
{
    [addr]
}

/// Reads an 8-bit value from one byte.
pub fn u8b(bytes: [u8; 1]) -> (r: u8)
    ensures
        r == bytes@[0],
{
    bytes[0]
}

/// Packs a 16-bit value as two bytes, most significant first.
pub fn p16b(addr: u16) -> (r: [u8; 2])
    ensures
        r@ == spec_p16b(addr),
{
    let r = [((addr >> 8) & 0xff) as u8, (addr & 0xff) as u8];
    proof {
        assert(r@ =~= spec_p16b(addr));
    }
    r
}

/// Reads a 16-bit value from two big-endian bytes.
pub fn u16b(bytes: [u8; 2]) -> (r: u16)
    ensures
        r == spec_u16l(bytes@.reverse()),
{
    let r = (bytes[1] as u16) | ((bytes[0] as u16) << 8);
    proof {
        assert(bytes@.reverse() =~= seq![bytes@[1], bytes@[0]]);
    }
    r
}

/// Packs a 32-bit value as four bytes, most significant first.
pub fn p32b(addr: u32) -> (r: [u8; 4])
    ensures
        r@ == spec_p32b(addr),
{
    let r = [
        ((addr >> 24) & 0xff) as u8,
        ((addr >> 16) & 0xff) as u8,
        ((addr >> 8) & 0xff) as u8,
        (addr & 0xff) as u8,
    ];
    proof {
        assert(r@ =~= spec_p32b(addr));
    }
    r
}

/// Reads a 32-bit value from four big-endian bytes.
pub fn u32b(bytes: [u8; 4]) -> (r: u32)
    ensures
        r == spec_u32l(bytes@.reverse()),
{
    let r = (bytes[3] as u32) | ((bytes[2] as u32) << 8) | ((bytes[1] as u32) << 16)
        | ((bytes[0] as u32) << 24);
    proof {
        assert(bytes@.reverse() =~= seq![bytes@[3], bytes@[2], bytes@[1], bytes@[0]]);
    }
    r
}

/// Packs a 64-bit value as eight bytes, most significant first.
pub fn p64b(addr: u64) -> (r: [u8; 8])
    ensures
        r@ == spec_p64b(addr),
{
    let r = [
        ((addr >> 56) & 0xff) as u8,
        ((addr >> 48) & 0xff) as u8,
        ((addr >> 40) & 0xff) as u8,
        ((addr >> 32) & 0xff) as u8,
        ((addr >> 24) & 0xff) as u8,
        ((addr >> 16) & 0xff) as u8,
        ((addr >> 8) & 0xff) as u8,
        (addr & 0xff) as u8,
    ];
    proof {
        assert(r@ =~= spec_p64b(addr));
    }
    r
}

/// Reads a 64-bit value from eight big-endian bytes.
pub fn u64b(bytes: [u8; 8]) -> (r: u64)
    ensures
        r == spec_u64l(bytes@.reverse()),
{
    let r = (bytes[7] as u64) | ((bytes[6] as u64) << 8) | ((bytes[5] as u64) << 16)
        | ((bytes[4] as u64) << 24) | ((bytes[3] as u64) << 32) | ((bytes[2] as u64) << 40)
        | ((bytes[1] as u64) << 48) | ((bytes[0] as u64) << 56);
    proof {
        assert(bytes@.reverse() =~= seq![
            bytes@[7],
            bytes@[6],
            bytes@[5],
            bytes@[4],
            bytes@[3],
            bytes@[2],
            bytes@[1],
            bytes@[0],
        ]);
    }
    r
}

// --- Packing round trips ---

/// Unpacking the little-endian image of a value gives the value back,
/// at every width.
pub proof fn lemma_pack_unpack_le(x16: u16, x32: u32, x64: u64)
    ensures
        spec_u16l(spec_p16l(x16)) == x16,
        spec_u32l(spec_p32l(x32)) == x32,
        spec_u64l(spec_p64l(x64)) == x64,
{
    assert(((x16 & 0xff) as u8 as u16) | ((((x16 >> 8) & 0xff) as u8 as u16) << 8) == x16)
        by (bit_vector);
    assert(((x32 & 0xff) as u8 as u32) | ((((x32 >> 8) & 0xff) as u8 as u32) << 8)
        | ((((x32 >> 16) & 0xff) as u8 as u32) << 16) | ((((x32 >> 24) & 0xff) as u8 as u32)
        << 24) == x32) by (bit_vector);
    assert(((x64 & 0xff) as u8 as u64) | ((((x64 >> 8) & 0xff) as u8 as u64) << 8)
        | ((((x64 >> 16) & 0xff) as u8 as u64) << 16) | ((((x64 >> 24) & 0xff) as u8 as u64)
        << 24) | ((((x64 >> 32) & 0xff) as u8 as u64) << 32) | ((((x64 >> 40) & 0xff) as u8
        as u64) << 40) | ((((x64 >> 48) & 0xff) as u8 as u64) << 48) | ((((x64 >> 56) & 0xff)
        as u8 as u64) << 56) == x64) by (bit_vector);
}

/// Unpacking the big-endian image of a value gives the value back,
/// at every width.
pub proof fn lemma_pack_unpack_be(x16: u16, x32: u32, x64: u64)
    ensures
        spec_u16l(spec_p16b(x16).reverse()) == x16,
        spec_u32l(spec_p32b(x32).reverse()) == x32,
        spec_u64l(spec_p64b(x64).reverse()) == x64,
{
    assert(spec_p16b(x16).reverse() =~= spec_p16l(x16));
    assert(spec_p32b(x32).reverse() =~= spec_p32l(x32));
    assert(spec_p64b(x64).reverse() =~= spec_p64l(x64));
    lemma_pack_unpack_le(x16, x32, x64);
}

// --- Address/offset text parsing ---

/// Whether a byte is a digit of the given radix (10 or 16; hexadecimal
/// accepts both letter cases).
pub open spec fn is_digit(b: u8, radix: u64) -> bool {
    ||| 48 <= b <= 57 && (b - 48) < radix
    ||| radix == 16 && (97 <= b <= 102 || 65 <= b <= 70)
}

/// The numeric value of one digit byte.
pub open spec fn digit_val(b: u8, radix: u64) -> nat {
    if 48 <= b <= 57 {
        (b - 48) as nat
    } else if 97 <= b <= 102 {
        (b - 97 + 10) as nat
    } else {
        (b - 65 + 10) as nat
    }
}

/// The value of a digit string in the given radix, most significant first.
pub open spec fn radix_val(s: Seq<u8>, radix: u64) -> nat
    decreases s.len(),
{
    if s.len() == 0 {
        0
    } else {
        radix_val(s.drop_last(), radix) * (radix as nat) + digit_val(s.last(), radix)
    }
}

/// Whether a byte string is a well-formed, in-range numeral of the radix.
pub open spec fn valid_numeral(s: Seq<u8>, radix: u64) -> bool {
    &&& s.len() > 0
    &&& forall|i: int| 0 <= i < s.len() ==> is_digit(#[trigger] s[i], radix)
    &&& radix_val(s, radix) <= u64::MAX
}

/// A digit string's value only grows as more digits are appended.
proof fn lemma_radix_val_prefix_le(s: Seq<u8>, radix: u64, i: int)
    requires
        1 <= radix,
        0 <= i <= s.len(),
    ensures
        radix_val(s.take(i), radix) <= radix_val(s, radix),
    decreases s.len() - i,
{
    if i == s.len() {
        assert(s.take(i) =~= s);
    } else {
        assert(s.take(i + 1).drop_last() =~= s.take(i));
        assert(s.take(i + 1).last() == s[i]);
        let v = radix_val(s.take(i), radix);
        assert(v * (radix as nat) >= v * 1) by (nonlinear_arith)
            requires 1 <= radix, 0 <= v,
        ;
        assert(radix_val(s.take(i + 1), radix) >= radix_val(s.take(i), radix));
        lemma_radix_val_prefix_le(s, radix, i + 1);
    }
}

/// Parses a digit string of the given radix from raw bytes.
fn num_from_radix(buf: &[u8], radix: u64) -> (r: Result<u64, Error>)
    requires
        radix == 10 || radix == 16,
    ensures
        r is Ok <==> valid_numeral(buf@, radix),
        r matches Ok(v) ==> v == radix_val(buf@, radix),
        r matches Err(e) ==> e == Error::ParseFailure,
{
    if buf.len() == 0 {
        return Err(Error::ParseFailure);
    }
    let mut acc: u64 = 0;
    let mut i: usize = 0;
    while i < buf.len()
        invariant
            radix == 10 || radix == 16,
            0 <= i <= buf@.len(),
            forall|j: int| 0 <= j < i ==> is_digit(#[trigger] buf@[j], radix),
            acc == radix_val(buf@.take(i as int), radix),
        decreases buf@.len() - i,
    {
        let b = buf[i];
        let d: u64 = if 48 <= b && b <= 57 && ((b - 48) as u64) < radix {
            (b - 48) as u64
        } else if radix == 16 && 97 <= b && b <= 102 {
            (b - 97) as u64 + 10
        } else if radix == 16 && 65 <= b && b <= 70 {
            (b - 65) as u64 + 10
        } else {
            return Err(Error::ParseFailure);
        };
        proof {
            assert(buf@.take(i + 1).drop_last() =~= buf@.take(i as int));
            assert(buf@.take(i + 1).last() == buf@[i as int]);
        }
        let shifted = match acc.checked_mul(radix) {
            Some(s) => s,
            None => {
                proof {
                    lemma_radix_val_prefix_le(buf@, radix, i + 1);
                }
                return Err(Error::ParseFailure);
            },
        };
        acc = match shifted.checked_add(d) {
            Some(s) => s,
            None => {
                proof {
                    lemma_radix_val_prefix_le(buf@, radix, i + 1);
                }
                return Err(Error::ParseFailure);
            },
        };
        i = i + 1;
    }
    proof {
        assert(buf@.take(i as int) =~= buf@);
    }
    Ok(acc)
}

/// Parses a hexadecimal numeral (digits and letters of either case, no sign,
/// no prefix) from raw bytes. Returns the parse failure on an empty buffer,
/// any non-digit byte, or a value over the 64-bit range, and the exact value
/// otherwise.
pub fn num_from_hex(buf: &[u8]) -> (r: Result<u64, Error>)
    ensures
        r is Ok <==> valid_numeral(buf@, 16),
        r matches Ok(v) ==> v == radix_val(buf@, 16),
        r matches Err(e) ==> e == Error::ParseFailure,
{
    num_from_radix(buf, 16)
}

/// Parses a decimal numeral from raw bytes. Returns the parse failure on an
/// empty buffer, any non-digit byte, or a value over the 64-bit range, and
/// the exact value otherwise.
pub fn num_from_dec(buf: &[u8]) -> (r: Result<u64, Error>)
    ensures
        r is Ok <==> valid_numeral(buf@, 10),
        r matches Ok(v) ==> v == radix_val(buf@, 10),
        r matches Err(e) ==> e == Error::ParseFailure,
{
    num_from_radix(buf, 10)
}

} // verus!
