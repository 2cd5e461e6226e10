use ctftools::error::Error;
use ctftools::memory_base::MemoryBase;
use ctftools::util::{
    num_from_dec, num_from_hex, p16b, p16l, p32b, p32l, p64b, p64l, p8b, p8l, u16b, u16l,
    u32b, u32l, u64b, u64l, u8b, u8l,
};

#[test]
fn pack_little_endian_exact_bytes() {
    assert_eq!(p8l(0xab), [0xab]);
    assert_eq!(p16l(0x1234), [0x34, 0x12]);
    assert_eq!(p32l(0x12345678), [0x78, 0x56, 0x34, 0x12]);
    assert_eq!(
        p64l(0x0123456789abcdef),
        [0xef, 0xcd, 0xab, 0x89, 0x67, 0x45, 0x23, 0x01]
    );
}

#[test]
fn pack_big_endian_exact_bytes() {
    assert_eq!(p8b(0xab), [0xab]);
    assert_eq!(p16b(0x1234), [0x12, 0x34]);
    assert_eq!(p32b(0x12345678), [0x12, 0x34, 0x56, 0x78]);
    assert_eq!(
        p64b(0x0123456789abcdef),
        [0x01, 0x23, 0x45, 0x67, 0x89, 0xab, 0xcd, 0xef]
    );
}

#[test]
fn unpack_inverts_pack() {
    assert_eq!(u8l(p8l(0x5a)), 0x5a);
    assert_eq!(u16l(p16l(0xbeef)), 0xbeef);
    assert_eq!(u32l(p32l(0xdeadbeef)), 0xdeadbeef);
    assert_eq!(u64l(p64l(u64::MAX - 1)), u64::MAX - 1);
    assert_eq!(u8b(p8b(0x5a)), 0x5a);
    assert_eq!(u16b(p16b(0xbeef)), 0xbeef);
    assert_eq!(u32b(p32b(0xdeadbeef)), 0xdeadbeef);
    assert_eq!(u64b(p64b(u64::MAX - 1)), u64::MAX - 1);
}

#[test]
fn unpack_exact_values() {
    assert_eq!(u16l([0x34, 0x12]), 0x1234);
    assert_eq!(u16b([0x12, 0x34]), 0x1234);
    assert_eq!(u32l([0x78, 0x56, 0x34, 0x12]), 0x12345678);
    assert_eq!(u32b([0x12, 0x34, 0x56, 0x78]), 0x12345678);
    assert_eq!(u64l([1, 0, 0, 0, 0, 0, 0, 0]), 1);
    assert_eq!(u64b([1, 0, 0, 0, 0, 0, 0, 0]), 1 << 56);
}

#[test]
fn hex_parses_both_letter_cases() {
    assert_eq!(num_from_hex(b"ff"), Ok(255));
    assert_eq!(num_from_hex(b"FF"), Ok(255));
    assert_eq!(num_from_hex(b"0"), Ok(0));
    assert_eq!(num_from_hex(b"DeadBeef"), Ok(0xdeadbeef));
    assert_eq!(num_from_hex(b"ffffffffffffffff"), Ok(u64::MAX));
}

#[test]
fn hex_rejects_bad_input() {
    assert_eq!(num_from_hex(b""), Err(Error::ParseFailure));
    assert_eq!(num_from_hex(b"12g4"), Err(Error::ParseFailure));
    assert_eq!(num_from_hex(b" ff"), Err(Error::ParseFailure));
    assert_eq!(num_from_hex(b"g"), Err(Error::ParseFailure));
    assert_eq!(num_from_hex(b"G"), Err(Error::ParseFailure));
    assert_eq!(num_from_hex(b"10000000000000000"), Err(Error::ParseFailure));
}

#[test]
fn dec_parses_numerals() {
    assert_eq!(num_from_dec(b"0"), Ok(0));
    assert_eq!(num_from_dec(b"42"), Ok(42));
    assert_eq!(num_from_dec(b"0042"), Ok(42));
    assert_eq!(num_from_dec(b"18446744073709551615"), Ok(u64::MAX));
}

#[test]
fn dec_rejects_bad_input() {
    assert_eq!(num_from_dec(b""), Err(Error::ParseFailure));
    assert_eq!(num_from_dec(b"4a"), Err(Error::ParseFailure));
    assert_eq!(num_from_dec(b"-1"), Err(Error::ParseFailure));
    assert_eq!(num_from_dec(b"18446744073709551616"), Err(Error::ParseFailure));
}

#[test]
fn memory_base_translates_documented_address() {
    let base = MemoryBase::new(0x1000, 0x7f0001000);
    assert_eq!(base.documented_to_leaked(0x1100), 0x7f0001100);
    assert_eq!(base.leaked_to_documented(0x7f0001100), 0x1100);
}

#[test]
fn memory_base_round_trips_everywhere() {
    for (documented, leaked) in [
        (0x1000u64, 0x7f0001000u64),
        (5, 2),
        (u64::MAX, 0),
        (0, u64::MAX),
    ] {
        let base = MemoryBase::new(documented, leaked);
        for x in [0u64, 1, 0x1000, u64::MAX - 1, u64::MAX] {
            assert_eq!(base.leaked_to_documented(base.documented_to_leaked(x)), x);
            assert_eq!(base.documented_to_leaked(base.leaked_to_documented(x)), x);
        }
    }
}

#[test]
fn memory_base_wraps_at_address_limit() {
    // A leaked address numerically below the documented one still yields a
    // usable wrapping base.
    let base = MemoryBase::new(5, 2);
    assert_eq!(base.documented_to_leaked(5), 2);
    assert_eq!(base.documented_to_leaked(6), 3);
    assert_eq!(base.leaked_to_documented(0), 3);
    assert_eq!(base.documented_to_leaked(u64::MAX), u64::MAX - 3);
}
