use vstd::prelude::*;

use vstd::string::StringSliceAdditionalSpecFns;

use crate::debruijn::{debruijn, debruijn_spec, lookup as debruijn_lookup};
use crate::search::{
    first_occurrence, has_occurrence, lemma_first_occurrence, lemma_first_occurrence_is,
    no_occurrence_before, occurs_at,
};

verus! {

/// The character standing for a pattern symbol: `'A'` plus the symbol.
pub open spec fn symbol_char(s: u8) -> char
    recommends
        s < 26,
{
    ((s + 65) as u8) as char
}

/// The pattern symbols a needle string stands for: each character less `'A'`.
pub open spec fn needle_symbols(s: Seq<char>) -> Seq<u8> {
    Seq::new(s.len(), |i: int| ((s[i] as u8) - 65) as u8)
}

/// One period of the default generated sequence, doubled, as symbols: what
/// `lookup` searches in. The doubling catches windows that wrap the cyclic
/// boundary.
pub open spec fn cyclic_table() -> Seq<u8> {
    debruijn_spec(4, 26) + debruijn_spec(4, 26)
}

/// Relies on String::from_utf8: bytes below 128 are ASCII and decode to
/// exactly those characters, one each.
#[verifier::external_body]
fn ascii_to_string(bytes: &Vec<u8>) -> (r: String)
    requires
        forall|i: int| 0 <= i < bytes@.len() ==> bytes@[i] < 128,
    ensures
        r@ == bytes@.map_values(|b: u8| b as char),
{
    String::from_utf8(bytes.clone()).unwrap()
}

/// The cyclic marker pattern: the generated sequence for windows of four
/// symbols over a 26-letter alphabet, mapped onto `'A'..='Z'` and truncated
/// to `size` characters. Any four-character window locates its offset
/// uniquely within one period.
pub fn cyclic(size: usize) -> (r: String)
    ensures
        r@.len() == if size <= debruijn_spec(4, 26).len() {
            size as int
        } else {
            debruijn_spec(4, 26).len() as int
        },
        forall|i: int| 0 <= i < r@.len() ==> r@[i] == symbol_char(debruijn_spec(4, 26)[i]),
{
    let table = debruijn(4, 26);
    let mut bytes: Vec<u8> = Vec::new();
    let mut i: usize = 0;
    while i < table.len() && i < size
        invariant
            table@ == debruijn_spec(4, 26),
            forall|t: int| 0 <= t < table@.len() ==> table@[t] < 26,
            0 <= i <= table@.len(),
            i <= size,
            i == bytes@.len(),
            forall|t: int| 0 <= t < i ==> bytes@[t] == table@[t] + 65,
        decreases table@.len() - i,
    {
        let b = table[i];
        bytes.push(b + 65);
        i = i + 1;
    }
    let r = ascii_to_string(&bytes);
    proof {
        assert forall|t: int| 0 <= t < r@.len() implies r@[t] == symbol_char(
            debruijn_spec(4, 26)[t],
        ) by {
            assert(bytes@[t] == debruijn_spec(4, 26)[t] + 65);
            assert(r@[t] == bytes@.map_values(|b: u8| b as char)[t]);
        }
    }
    r
}

/// Finds the offset a captured needle sits at inside the cyclic pattern:
/// maps its characters back to symbols and returns the first index of that
/// window in one doubled period. The needle must be drawn from the pattern
/// (uppercase letters forming a window that occurs, as every four-character
/// window of the pattern does).
pub fn lookup(needle: &str) -> (r: usize)
    requires
        forall|i: int| 0 <= i < needle@.len() ==> 'A' <= #[trigger] needle@[i] <= 'Z',
        has_occurrence(cyclic_table(), needle_symbols(needle@)),
    ensures
        r == first_occurrence(cyclic_table(), needle_symbols(needle@)),
{
    proof {
        assert(vstd::string::is_ascii(needle)) by {
            assert forall|i: int|
                0 <= i < needle@.len() implies '\0' <= #[trigger] needle@[i]
                <= '\u{7f}' by {
                assert('A' <= needle@[i] <= 'Z');
            }
        }
        vstd::string::is_ascii_spec_bytes(needle);
    }
    let bytes = needle.as_bytes();
    let mut syms: Vec<u8> = Vec::new();
    let mut i: usize = 0;
    while i < bytes.len()
        invariant
            bytes@.len() == needle@.len(),
            forall|t: int| 0 <= t < needle@.len() ==> bytes@[t] == (#[trigger] needle@[t])
                as u8,
            forall|t: int| 0 <= t < needle@.len() ==> 'A' <= #[trigger] needle@[t] <= 'Z',
            0 <= i <= bytes@.len(),
            syms@.len() == i,
            forall|t: int| 0 <= t < i ==> syms@[t] == needle_symbols(needle@)[t],
        decreases bytes@.len() - i,
    {
        let b = bytes[i];
        proof {
            assert('A' <= needle@[i as int] <= 'Z');
            assert(bytes@[i as int] == needle@[i as int] as u8);
            assert(65 <= b <= 90);
        }
        syms.push(b - 65);
        i = i + 1;
    }
    proof {
        assert(syms@ =~= needle_symbols(needle@));
    }
    debruijn_lookup(4, 26, syms.as_slice())
}

/// A window cut anywhere from one period of the pattern is always found:
/// the lookup lands on a real occurrence of it, at the capture offset or at
/// an earlier place where the same window already appears.
pub proof fn lemma_lookup_window_bound(offset: int, len: int)
    requires
        0 <= offset,
        0 <= len,
        offset + len <= debruijn_spec(4, 26).len(),
    ensures
        ({
            let window = debruijn_spec(4, 26).subrange(offset, offset + len);
            let found = first_occurrence(cyclic_table(), window);
            &&& has_occurrence(cyclic_table(), window)
            &&& 0 <= found <= offset
            &&& occurs_at(cyclic_table(), window, found)
        }),
{
    let table = debruijn_spec(4, 26);
    let window = table.subrange(offset, offset + len);
    assert(cyclic_table().subrange(offset, offset + len) =~= window);
    assert(occurs_at(cyclic_table(), window, offset));
    lemma_first_occurrence(cyclic_table(), window);
    let found = first_occurrence(cyclic_table(), window);
    if found > offset {
        assert(!occurs_at(cyclic_table(), window, offset));
    }
}

/// Looking a needle up inverts taking it from the pattern: a window of the
/// pattern whose symbols do not recur earlier is located at exactly the
/// offset it was captured from.
pub proof fn lemma_lookup_inverts_capture(needle: Seq<char>, offset: int)
    requires
        occurs_at(cyclic_table(), needle_symbols(needle), offset),
        no_occurrence_before(cyclic_table(), needle_symbols(needle), offset),
    ensures
        first_occurrence(cyclic_table(), needle_symbols(needle)) == offset,
{
    lemma_first_occurrence_is(cyclic_table(), needle_symbols(needle), offset);
}

} // verus!
