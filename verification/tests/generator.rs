use ctftools::cyclic::{cyclic, lookup};
use ctftools::debruijn::{debruijn, lookup as debruijn_lookup, Lyndon};

#[test]
fn debruijn_small_binary() {
    let seq = debruijn(3, 2);
    assert_eq!(seq, vec![0, 0, 0, 1, 0, 1, 1, 1]);
}

#[test]
fn debruijn_period_length_small() {
    assert_eq!(debruijn(2, 2).len(), 4);
    assert_eq!(debruijn(2, 3).len(), 9);
    assert_eq!(debruijn(3, 2).len(), 8);
}

#[test]
fn debruijn_every_window_exactly_once_n2_k3() {
    // B(3, 2): the first 9 symbols contain each length-2 window over
    // {0, 1, 2} exactly once, read cyclically.
    let seq = debruijn(2, 3);
    assert_eq!(seq.len(), 9);
    let mut doubled = seq.clone();
    doubled.extend_from_slice(&seq);
    let mut seen = vec![0usize; 9];
    for i in 0..seq.len() {
        let a = doubled[i] as usize;
        let b = doubled[i + 1] as usize;
        assert!(a < 3 && b < 3);
        seen[a * 3 + b] += 1;
    }
    for count in seen {
        assert_eq!(count, 1);
    }
}

#[test]
fn debruijn_every_window_exactly_once_n3_k2() {
    let seq = debruijn(3, 2);
    assert_eq!(seq.len(), 8);
    let mut doubled = seq.clone();
    doubled.extend_from_slice(&seq);
    let mut seen = vec![0usize; 8];
    for i in 0..seq.len() {
        let w = (doubled[i] as usize) * 4 + (doubled[i + 1] as usize) * 2 + (doubled[i + 2]
            as usize);
        seen[w] += 1;
    }
    for count in seen {
        assert_eq!(count, 1);
    }
}

#[test]
fn lyndon_word_enumeration_n2_k2() {
    let mut cursor = Lyndon::new(2, 2);
    assert_eq!(cursor.next(), Some(vec![0]));
    assert_eq!(cursor.next(), Some(vec![0, 1]));
    assert_eq!(cursor.next(), Some(vec![1]));
    assert_eq!(cursor.next(), None);
    assert_eq!(cursor.next(), None);
}

#[test]
fn cyclic_prefix_matches_known_pattern() {
    assert_eq!(cyclic(10), "AAAABAAACA");
    assert_eq!(cyclic(20), "AAAABAAACAAADAAAEAAA");
}

#[test]
fn cyclic_zero_is_empty() {
    assert_eq!(cyclic(0), "");
}

#[test]
fn cyclic_full_period_length() {
    // One period of the 4-window, 26-symbol sequence has 26^4 characters.
    let full = cyclic(usize::MAX);
    assert_eq!(full.len(), 456976);
}

#[test]
fn lookup_first_windows() {
    assert_eq!(lookup("AAAA"), 0);
    assert_eq!(lookup("AAAB"), 1);
}

#[test]
fn lookup_ten_character_needle() {
    assert_eq!(lookup("FFAAFGAAFH"), 519);
}

#[test]
fn lookup_cyclic_round_trip() {
    // Any window captured from the pattern locates its own offset.
    let pattern = cyclic(200);
    for i in [0usize, 1, 37, 100, 150, 196] {
        let needle = &pattern[i..i + 4];
        assert_eq!(lookup(needle), i);
    }
}

#[test]
fn lookup_symbol_level() {
    let seq = debruijn(2, 3);
    // The window [0, 2] first occurs at index 3 of 0 0 1 0 2 1 1 2 2.
    assert_eq!(debruijn_lookup(2, 3, &[0, 2]), 3);
    // A window wrapping the cyclic boundary is found in the doubled table.
    let wrapped = [seq[seq.len() - 1], seq[0]];
    assert_eq!(debruijn_lookup(2, 3, &wrapped), seq.len() - 1);
}
