use vstd::prelude::*;

use vstd::arithmetic::mul::{lemma_mul_inequality, lemma_mul_is_distributive_add};
use vstd::arithmetic::power::{lemma_pow_positive, pow};

use crate::search::{first_occurrence, has_occurrence, lemma_first_occurrence,
    lemma_first_occurrence_is, no_occurrence_before, occurs_at};

verus! {

/// A well-formed generation word: nonempty, no longer than the window
/// length `n`, every symbol below the alphabet size `k`.
pub open spec fn wf_word(w: Seq<u8>, n: int, k: u8) -> bool {
    &&& 1 <= w.len() <= n
    &&& forall|i: int| 0 <= i < w.len() ==> w[i] < k
}

/// The word repeated cyclically out to length `m`.
pub open spec fn pad(w: Seq<u8>, m: int) -> Seq<u8>
    recommends
        1 <= w.len(),
        0 <= m,
{
    Seq::new(m as nat, |i: int| w[i % (w.len() as int)])
}

/// The word with its trailing run of the symbol `top` removed.
pub open spec fn strip(w: Seq<u8>, top: u8) -> Seq<u8>
    decreases w.len(),
{
    if w.len() == 0 {
        w
    } else if w.last() == top {
        strip(w.drop_last(), top)
    } else {
        w
    }
}

/// The classical Lyndon-word successor: repeat the word out to length `n`,
/// strip the trailing maximal symbols, then raise the last symbol by one.
/// The empty result marks the end of the enumeration.
pub open spec fn succ(w: Seq<u8>, n: int, k: u8) -> Seq<u8> {
    let s = strip(pad(w, n), (k - 1) as u8);
    if s.len() == 0 {
        s
    } else {
        s.update(s.len() - 1, (s.last() + 1) as u8)
    }
}

/// The value of a word read as a base-`k` numeral, most significant first.
pub open spec fn word_val(w: Seq<u8>, k: u8) -> nat
    decreases w.len(),
{
    if w.len() == 0 {
        0
    } else {
        word_val(w.drop_last(), k) * (k as nat) + w.last() as nat
    }
}

/// Every symbol of the padded word stays below `k`, the padding has length
/// `m`, and it starts with the word itself.
pub proof fn lemma_pad(w: Seq<u8>, n: int, k: u8, m: int)
    requires
        wf_word(w, n, k),
        0 <= m,
    ensures
        pad(w, m).len() == m,
        forall|i: int| 0 <= i < m ==> #[trigger] pad(w, m)[i] == w[i % (w.len() as int)],
        forall|i: int| 0 <= i < m ==> pad(w, m)[i] < k,
        forall|i: int| 0 <= i < w.len() && i < m ==> pad(w, m)[i] == w[i],
{
    assert forall|i: int| 0 <= i < m implies #[trigger] pad(w, m)[i] < k by {
        assert(0 <= i % (w.len() as int) < w.len()) by (nonlinear_arith)
            requires
                1 <= w.len(),
                0 <= i,
        ;
    }
    assert forall|i: int| 0 <= i < w.len() && i < m implies #[trigger] pad(w, m)[i] == w[i] by {
        assert(i % (w.len() as int) == i) by (nonlinear_arith)
            requires
                0 <= i < w.len(),
        ;
    }
}

/// The stripped word is the prefix left after a trailing run of `top`: all
/// dropped symbols equal `top` and the stripped word does not end in it.
pub proof fn lemma_strip(w: Seq<u8>, top: u8)
    ensures
        strip(w, top).len() <= w.len(),
        strip(w, top) == w.take(strip(w, top).len() as int),
        forall|i: int| strip(w, top).len() <= i < w.len() ==> w[i] == top,
        strip(w, top).len() > 0 ==> strip(w, top).last() != top,
    decreases w.len(),
{
    if w.len() == 0 {
        assert(strip(w, top) =~= w.take(0));
    } else if w.last() == top {
        lemma_strip(w.drop_last(), top);
        assert(w.drop_last().take(strip(w, top).len() as int) =~= w.take(
            strip(w, top).len() as int,
        ));
        assert forall|i: int| strip(w, top).len() <= i < w.len() implies w[i] == top by {
            if i < w.len() - 1 {
                assert(w.drop_last()[i] == top);
            }
        }
    } else {
        assert(strip(w, top) =~= w.take(w.len() as int));
    }
}

/// A nonempty successor is again a well-formed word.
pub proof fn lemma_succ_wf(w: Seq<u8>, n: int, k: u8)
    requires
        2 <= k,
        wf_word(w, n, k),
        succ(w, n, k).len() != 0,
    ensures
        wf_word(succ(w, n, k), n, k),
{
    let p = pad(w, n);
    let top = (k - 1) as u8;
    let s = strip(p, top);
    lemma_pad(w, n, k, n);
    lemma_strip(p, top);
    let w2 = succ(w, n, k);
    assert(s.len() == w2.len());
    assert(s.last() == p[s.len() - 1]);
    assert(s.last() < k);
    assert(s.last() != top);
    assert forall|i: int| 0 <= i < w2.len() implies w2[i] < k by {
        if i < w2.len() - 1 {
            assert(w2[i] == p[i]);
        }
    }
}

/// A word of symbols below `k` has value below `k^len`.
pub proof fn lemma_word_val_bound(w: Seq<u8>, k: u8)
    requires
        1 <= k,
        forall|i: int| 0 <= i < w.len() ==> w[i] < k,
    ensures
        word_val(w, k) < pow(k as int, w.len()),
    decreases w.len(),
{
    lemma_pow_positive(k as int, w.len());
    if w.len() == 0 {
    } else {
        let head = w.drop_last();
        lemma_word_val_bound(head, k);
        lemma_pow_positive(k as int, head.len());
        let ph = pow(k as int, head.len());
        assert(pow(k as int, w.len()) == ph * (k as int)) by {
            vstd::arithmetic::power::lemma_pow1(k as int);
            vstd::arithmetic::power::lemma_pow_adds(k as int, head.len(), 1);
        }
        assert(word_val(head, k) + 1 <= ph);
        lemma_mul_inequality(word_val(head, k) as int + 1, ph, k as int);
        assert((word_val(head, k) as int + 1) * (k as int) == word_val(head, k) * (k as nat) + (
        k as int)) by {
            lemma_mul_is_distributive_add(k as int, word_val(head, k) as int, 1);
        }
        assert(word_val(w, k) == word_val(head, k) * (k as nat) + w.last());
        assert(word_val(w, k) < word_val(head, k) * (k as nat) + k);
    }
}

/// Between equal-length words over the alphabet, being larger at the first
/// differing position makes the base-`k` value larger.
pub proof fn lemma_word_val_lex(a: Seq<u8>, b: Seq<u8>, k: u8, j: int)
    requires
        1 <= k,
        a.len() == b.len(),
        forall|i: int| 0 <= i < a.len() ==> a[i] < k,
        forall|i: int| 0 <= i < b.len() ==> b[i] < k,
        0 <= j < a.len(),
        forall|t: int| 0 <= t < j ==> a[t] == b[t],
        a[j] > b[j],
    ensures
        word_val(a, k) > word_val(b, k),
    decreases a.len(),
{
    if j == a.len() - 1 {
        assert(a.drop_last() =~= b.drop_last());
        assert(word_val(a, k) == word_val(a.drop_last(), k) * (k as nat) + a.last());
        assert(word_val(b, k) == word_val(a.drop_last(), k) * (k as nat) + b.last());
    } else {
        let ah = a.drop_last();
        let bh = b.drop_last();
        lemma_word_val_lex(ah, bh, k, j);
        assert(word_val(ah, k) >= word_val(bh, k) + 1);
        lemma_mul_inequality(word_val(bh, k) as int + 1, word_val(ah, k) as int, k as int);
        assert((word_val(bh, k) as int + 1) * (k as int) == word_val(bh, k) * (k as nat) + (
        k as int)) by {
            lemma_mul_is_distributive_add(k as int, word_val(bh, k) as int, 1);
        }
        assert(word_val(a, k) >= word_val(ah, k) * (k as nat));
        assert(word_val(b, k) == word_val(bh, k) * (k as nat) + b.last());
        assert(b.last() < k);
    }
}

/// Each successor's padding is strictly larger than its predecessor's, read
/// as a base-`k` numeral: the enumeration makes progress.
pub proof fn lemma_succ_val_increases(w: Seq<u8>, n: int, k: u8)
    requires
        2 <= k,
        wf_word(w, n, k),
        succ(w, n, k).len() != 0,
    ensures
        word_val(pad(succ(w, n, k), n), k) > word_val(pad(w, n), k),
{
    let p = pad(w, n);
    let top = (k - 1) as u8;
    let s = strip(p, top);
    let w2 = succ(w, n, k);
    lemma_pad(w, n, k, n);
    lemma_strip(p, top);
    lemma_succ_wf(w, n, k);
    let p2 = pad(w2, n);
    lemma_pad(w2, n, k, n);
    let j = s.len() - 1;
    assert forall|t: int| 0 <= t < j implies p2[t] == p[t] by {
        assert(p2[t] == w2[t]);
        assert(w2[t] == s[t]);
        assert(s[t] == p[t]);
    }
    assert(p2[j] == w2[j]);
    assert(w2[j] == s.last() + 1);
    assert(p[j] == s.last());
    lemma_word_val_lex(p2, p, k, j);
}

/// The symbols emitted from the enumeration state `w` on: the word itself
/// whenever its length divides the window length `n`, then everything the
/// successor chain emits. Concatenated from the first word `[0]`, this is
/// the full de Bruijn-style sequence.
pub open spec fn emit_from(w: Seq<u8>, n: int, k: u8) -> Seq<u8>
    decreases pow(k as int, n as nat) - word_val(pad(w, n), k),
    when 2 <= k && wf_word(w, n, k)
    via emit_from_decreases
{
    let here = if n % (w.len() as int) == 0 {
        w
    } else {
        Seq::<u8>::empty()
    };
    let next = succ(w, n, k);
    if next.len() == 0 {
        here
    } else {
        here + emit_from(next, n, k)
    }
}

#[via_fn]
proof fn emit_from_decreases(w: Seq<u8>, n: int, k: u8) {
    let next = succ(w, n, k);
    if next.len() != 0 {
        lemma_succ_wf(w, n, k);
        lemma_succ_val_increases(w, n, k);
        lemma_pad(next, n, k, n);
        lemma_word_val_bound(pad(next, n), k);
    }
}

/// The whole generated symbol sequence for window length `n` over alphabet
/// size `k`: every word of the Lyndon enumeration whose length divides `n`,
/// in order.
pub open spec fn debruijn_spec(n: int, k: u8) -> Seq<u8> {
    emit_from(seq![0u8], n, k)
}

/// Every emitted symbol stays below the alphabet size.
pub proof fn lemma_emit_from_range(w: Seq<u8>, n: int, k: u8)
    requires
        2 <= k,
        wf_word(w, n, k),
    ensures
        forall|i: int|
            0 <= i < emit_from(w, n, k).len() ==> #[trigger] emit_from(w, n, k)[i] < k,
    decreases pow(k as int, n as nat) - word_val(pad(w, n), k),
{
    let next = succ(w, n, k);
    if next.len() != 0 {
        lemma_succ_wf(w, n, k);
        lemma_succ_val_increases(w, n, k);
        lemma_pad(next, n, k, n);
        lemma_word_val_bound(pad(next, n), k);
        lemma_emit_from_range(next, n, k);
    }
    let here = if n % (w.len() as int) == 0 {
        w
    } else {
        Seq::<u8>::empty()
    };
    let e = emit_from(w, n, k);
    assert forall|i: int| 0 <= i < e.len() implies #[trigger] e[i] < k by {
        if next.len() == 0 {
            assert(e[i] == here[i]);
        } else if i < here.len() {
            assert(e[i] == here[i]);
        } else {
            assert(e[i] == emit_from(next, n, k)[i - here.len()]);
        }
    }
}

/// One period of the two-symbol-window, three-symbol sequence, computed by
/// stepping the enumeration: 0, 01, 02, 1, 12, 2 concatenated.
proof fn lemma_debruijn_small_value()
    ensures
        debruijn_spec(2, 3) == seq![0u8, 0, 1, 0, 2, 1, 1, 2, 2],
{
    let n: int = 2;
    let k: u8 = 3;
    let w0 = seq![0u8];
    let w1 = seq![0u8, 1];
    let w2 = seq![0u8, 2];
    let w3 = seq![1u8];
    let w4 = seq![1u8, 2];
    let w5 = seq![2u8];
    assert(wf_word(w0, n, k));
    assert(wf_word(w1, n, k));
    assert(wf_word(w2, n, k));
    assert(wf_word(w3, n, k));
    assert(wf_word(w4, n, k));
    assert(wf_word(w5, n, k));

    assert(pad(w0, 2) =~= seq![0u8, 0]);
    assert(strip(seq![0u8, 0], 2) == seq![0u8, 0]);
    assert(succ(w0, n, k) =~= w1);

    assert(pad(w1, 2) =~= w1);
    assert(strip(w1, 2) == w1);
    assert(succ(w1, n, k) =~= w2);

    assert(pad(w2, 2) =~= w2);
    assert(w2.drop_last() =~= w0);
    assert(strip(w2, 2) == strip(w0, 2));
    assert(strip(w0, 2) == w0);
    assert(succ(w2, n, k) =~= w3);

    assert(pad(w3, 2) =~= seq![1u8, 1]);
    assert(strip(seq![1u8, 1], 2) == seq![1u8, 1]);
    assert(succ(w3, n, k) =~= w4);

    assert(pad(w4, 2) =~= w4);
    assert(w4.drop_last() =~= w3);
    assert(strip(w4, 2) == strip(w3, 2));
    assert(strip(w3, 2) == w3);
    assert(succ(w4, n, k) =~= w5);

    assert(pad(w5, 2) =~= seq![2u8, 2]);
    assert(seq![2u8, 2].drop_last() =~= w5);
    assert(strip(seq![2u8, 2], 2) == strip(w5, 2));
    assert(w5.drop_last() =~= Seq::<u8>::empty());
    assert(strip(w5, 2) == strip(Seq::<u8>::empty(), 2));
    assert(strip(Seq::<u8>::empty(), 2) == Seq::<u8>::empty());
    assert(succ(w5, n, k).len() == 0);

    assert(emit_from(w5, n, k) == w5);
    assert(emit_from(w4, n, k) == w4 + emit_from(w5, n, k));
    assert(emit_from(w3, n, k) == w3 + emit_from(w4, n, k));
    assert(emit_from(w2, n, k) == w2 + emit_from(w3, n, k));
    assert(emit_from(w1, n, k) == w1 + emit_from(w2, n, k));
    assert(emit_from(w0, n, k) == w0 + emit_from(w1, n, k));
    assert(debruijn_spec(2, 3) =~= seq![0u8, 0, 1, 0, 2, 1, 1, 2, 2]);
}

/// The classic property, shown for the small instance of two-symbol windows
/// over a three-symbol alphabet: one period is the nine symbols 001021122,
/// every pair of symbols below three occurs as a window of the doubled
/// period, and no two of the nine cyclic windows agree — every length-two
/// window occurs exactly once.
pub proof fn lemma_debruijn_property_small()
    ensures
        debruijn_spec(2, 3) == seq![0u8, 0, 1, 0, 2, 1, 1, 2, 2],
        forall|a: u8, b: u8|
            a < 3 && b < 3 ==> has_occurrence(
                debruijn_spec(2, 3) + debruijn_spec(2, 3),
                seq![a, b],
            ),
        forall|i: int, j: int|
            #![trigger (debruijn_spec(2, 3) + debruijn_spec(2, 3))[i], (debruijn_spec(2, 3)
                + debruijn_spec(2, 3))[j]]
            0 <= i < j < 9 ==> {
                let dbl = debruijn_spec(2, 3) + debruijn_spec(2, 3);
                dbl[i] != dbl[j] || dbl[i + 1] != dbl[j + 1]
            },
{
    lemma_debruijn_small_value();
    let dbl = debruijn_spec(2, 3) + debruijn_spec(2, 3);
    assert(dbl =~= seq![0u8, 0, 1, 0, 2, 1, 1, 2, 2, 0, 0, 1, 0, 2, 1, 1, 2, 2]);
    assert(dbl.subrange(0, 2) =~= seq![0u8, 0]);
    assert(dbl.subrange(1, 3) =~= seq![0u8, 1]);
    assert(dbl.subrange(2, 4) =~= seq![1u8, 0]);
    assert(dbl.subrange(3, 5) =~= seq![0u8, 2]);
    assert(dbl.subrange(4, 6) =~= seq![2u8, 1]);
    assert(dbl.subrange(5, 7) =~= seq![1u8, 1]);
    assert(dbl.subrange(6, 8) =~= seq![1u8, 2]);
    assert(dbl.subrange(7, 9) =~= seq![2u8, 2]);
    assert(dbl.subrange(8, 10) =~= seq![2u8, 0]);
    assert forall|a: u8, b: u8| a < 3 && b < 3 implies has_occurrence(dbl, seq![a, b]) by {
        let w = seq![a, b];
        if a == 0 && b == 0 {
            assert(w =~= seq![0u8, 0]);
            assert(occurs_at(dbl, w, 0));
        } else if a == 0 && b == 1 {
            assert(w =~= seq![0u8, 1]);
            assert(occurs_at(dbl, w, 1));
        } else if a == 0 && b == 2 {
            assert(w =~= seq![0u8, 2]);
            assert(occurs_at(dbl, w, 3));
        } else if a == 1 && b == 0 {
            assert(w =~= seq![1u8, 0]);
            assert(occurs_at(dbl, w, 2));
        } else if a == 1 && b == 1 {
            assert(w =~= seq![1u8, 1]);
            assert(occurs_at(dbl, w, 5));
        } else if a == 1 && b == 2 {
            assert(w =~= seq![1u8, 2]);
            assert(occurs_at(dbl, w, 6));
        } else if a == 2 && b == 0 {
            assert(w =~= seq![2u8, 0]);
            assert(occurs_at(dbl, w, 8));
        } else if a == 2 && b == 1 {
            assert(w =~= seq![2u8, 1]);
            assert(occurs_at(dbl, w, 4));
        } else {
            assert(a == 2 && b == 2);
            assert(w =~= seq![2u8, 2]);
            assert(occurs_at(dbl, w, 7));
        }
    }
}

/// The mutable generation state: the current word of the Lyndon-word
/// enumeration for window length `n` over `k` symbols. Created blank; the
/// first advance produces the word `[0]`, later advances apply the
/// successor rule in place until the word shrinks to nothing.
pub struct Lyndon {
    n: usize,
    k: u8,
    buf: Option<Vec<u8>>,
}

impl Lyndon {
    /// The window length this cursor was created with.
    pub closed spec fn spec_n(&self) -> int {
        self.n as int
    }

    /// The alphabet size this cursor was created with.
    pub closed spec fn spec_k(&self) -> u8 {
        self.k
    }

    /// The current word, or nothing before the first advance.
    pub closed spec fn state(&self) -> Option<Seq<u8>> {
        match self.buf {
            None => None,
            Some(b) => Some(b@),
        }
    }

    /// The cursor's parameters are in range and its word, if any, is
    /// well-formed or already empty (the terminal state).
    pub closed spec fn wf(&self) -> bool {
        &&& 1 <= self.n
        &&& 2 <= self.k
        &&& match self.buf {
            None => true,
            Some(b) => b@.len() == 0 || wf_word(b@, self.n as int, self.k),
        }
    }

    /// A blank cursor.
    pub fn new(n: usize, k: u8) -> (r: Self)
        requires
            1 <= n,
            2 <= k,
        ensures
            r.wf(),
            r.spec_n() == n,
            r.spec_k() == k,
            r.state() is None,
    {
        Lyndon { n, k, buf: None }
    }

    /// Advances to the next Lyndon word and returns a copy of it, or nothing
    /// once the enumeration has ended.
    pub fn next(&mut self) -> (r: Option<Vec<u8>>)
        requires
            old(self).wf(),
        ensures
            final(self).wf(),
            final(self).spec_n() == old(self).spec_n(),
            final(self).spec_k() == old(self).spec_k(),
            match old(self).state() {
                None => {
                    &&& final(self).state() == Some(seq![0u8])
                    &&& r matches Some(v) && v@ == seq![0u8]
                },
                Some(w) => {
                    if w.len() == 0 {
                        &&& final(self).state() == Some(w)
                        &&& r is None
                    } else {
                        let w2 = succ(w, old(self).spec_n(), old(self).spec_k());
                        &&& final(self).state() == Some(w2)
                        &&& (if w2.len() == 0 {
                            r is None
                        } else {
                            r matches Some(v) && v@ == w2
                        })
                    }
                },
            },
    {
        let taken = self.buf.take();
        let mut b: Vec<u8> = match taken {
            None => {
                // First advance: the singleton word [0].
                let mut v: Vec<u8> = Vec::new();
                v.push(0);
                let mut out: Vec<u8> = Vec::new();
                out.push(0);
                proof {
                    assert(v@ =~= seq![0u8]);
                    assert(out@ =~= seq![0u8]);
                }
                self.buf = Some(v);
                return Some(out);
            },
            Some(b) => b,
        };
        if b.len() == 0 {
            self.buf = Some(b);
            return None;
        }
        let ghost w = b@;
        let ghost n_spec = self.n as int;
        let n = self.n;
        let k = self.k;
        proof {
            lemma_pad(w, n_spec, k, n_spec);
            lemma_strip(pad(w, n_spec), (k - 1) as u8);
        }
        // Repeat the word cyclically until it reaches the window length.
        let len0 = b.len();
        let mut i = len0;
        proof {
            assert(b@ =~= pad(w, len0 as int)) by {
                lemma_pad(w, n_spec, k, len0 as int);
            }
        }
        while i < n
            invariant
                w == old(self).state()->Some_0,
                wf_word(w, n_spec, k),
                n_spec == n,
                2 <= k,
                len0 == w.len(),
                len0 <= i <= n,
                b@ == pad(w, i as int),
            decreases n - i,
        {
            let x = b[i % len0];
            b.push(x);
            proof {
                lemma_pad(w, n_spec, k, i as int);
                lemma_pad(w, n_spec, k, i + 1);
                assert(b@ =~= pad(w, i + 1));
            }
            i = i + 1;
        }
        // Remove the trailing run of the greatest symbol.
        let ghost padded = pad(w, n_spec);
        let top = k - 1;
        while b.len() != 0 && b[b.len() - 1] == top
            invariant
                strip(padded, (k - 1) as u8) == strip(b@, (k - 1) as u8),
                top == (k - 1) as u8,
                b@.len() <= n,
            decreases b@.len(),
        {
            b.pop();
        }
        proof {
            assert(strip(b@, (k - 1) as u8) == b@);
            assert(b@ == strip(padded, (k - 1) as u8));
        }
        // Raise the last symbol of what is left by one.
        if b.len() == 0 {
            self.buf = Some(b);
            return None;
        }
        let last = b[b.len() - 1];
        proof {
            lemma_pad(w, n_spec, k, n_spec);
            lemma_strip(padded, (k - 1) as u8);
            assert(b@.last() == padded[b@.len() - 1]);
            assert(last < k);
            assert(last != k - 1);
        }
        b.pop();
        b.push(last + 1);
        proof {
            assert(b@ =~= strip(padded, (k - 1) as u8).update(
                strip(padded, (k - 1) as u8).len() - 1,
                (strip(padded, (k - 1) as u8).last() + 1) as u8,
            ));
            assert(b@ == succ(w, n_spec, k));
            lemma_succ_wf(w, n_spec, k);
        }
        let out = b.clone();
        proof {
            assert(out@ == b@);
        }
        self.buf = Some(b);
        Some(out)
    }
}

/// Every symbol of the generated sequence stays below the alphabet size.
pub proof fn lemma_debruijn_symbols(n: int, k: u8)
    requires
        1 <= n,
        2 <= k,
    ensures
        forall|i: int|
            0 <= i < debruijn_spec(n, k).len() ==> #[trigger] debruijn_spec(n, k)[i] < k,
{
    lemma_emit_from_range(seq![0u8], n, k);
}

/// What the enumeration still emits once the word `w` itself has been
/// handled: everything its successor chain emits.
pub open spec fn emit_rest(w: Seq<u8>, n: int, k: u8) -> Seq<u8> {
    if succ(w, n, k).len() == 0 {
        Seq::<u8>::empty()
    } else {
        emit_from(succ(w, n, k), n, k)
    }
}

/// One full period of the generated sequence: the concatenation, over the
/// Lyndon-word enumeration, of every word whose length divides `n`. Each
/// returned symbol is below `k`.
pub fn debruijn(n: usize, k: u8) -> (r: Vec<u8>)
    requires
        1 <= n,
        2 <= k,
    ensures
        r@ == debruijn_spec(n as int, k),
        forall|i: int| 0 <= i < r@.len() ==> r@[i] < k,
{
    let mut cursor = Lyndon::new(n, k);
    let mut out: Vec<u8> = Vec::new();
    loop
        invariant_except_break
            match cursor.state() {
                None => out@.len() == 0,
                Some(w) => {
                    &&& w.len() > 0
                    &&& wf_word(w, n as int, k)
                    &&& out@ + emit_rest(w, n as int, k) == debruijn_spec(n as int, k)
                },
            },
        invariant
            cursor.wf(),
            cursor.spec_n() == n,
            cursor.spec_k() == k,
            1 <= n,
            2 <= k,
        ensures
            out@ == debruijn_spec(n as int, k),
        decreases (match cursor.state() {
            None => pow(k as int, n as nat) + 1,
            Some(w) => pow(k as int, n as nat) - word_val(pad(w, n as int), k),
        }),
    {
        let ghost prior = cursor.state();
        let word = match cursor.next() {
            None => {
                // The enumeration ended: nothing further is emitted.
                proof {
                    let w = prior->Some_0;
                    assert(out@ + emit_rest(w, n as int, k) =~= out@);
                }
                break;
            },
            Some(word) => word,
        };
        let mut word = word;
        proof {
            let cur = cursor.state()->Some_0;
            match prior {
                None => {
                    assert(cur =~= seq![0u8]);
                    assert(wf_word(cur, n as int, k));
                    assert(pad(cur, n as int) =~= Seq::new(n as nat, |i: int| 0u8));
                    lemma_word_val_zero(n as int, k);
                    lemma_pow_positive(k as int, n as nat);
                },
                Some(w) => {
                    lemma_succ_wf(w, n as int, k);
                    lemma_succ_val_increases(w, n as int, k);
                    lemma_pad(cur, n as int, k, n as int);
                    lemma_word_val_bound(pad(cur, n as int), k);
                },
            }
        }
        let ghost wlen = word@.len() as int;
        if n % word.len() == 0 {
            let ghost old_out = out@;
            out.append(&mut word);
            proof {
                let cur = cursor.state()->Some_0;
                let nn = n as int;
                assert(wf_word(cur, nn, k));
                assert(nn % (cur.len() as int) == 0);
                if succ(cur, nn, k).len() == 0 {
                    assert(emit_from(cur, nn, k) == cur);
                } else {
                    lemma_succ_wf(cur, nn, k);
                    assert(emit_from(cur, nn, k) == cur + emit_from(succ(cur, nn, k), nn, k));
                }
                assert(out@ + emit_rest(cur, nn, k) =~= old_out + emit_from(cur, nn, k));
            }
        } else {
            proof {
                let cur = cursor.state()->Some_0;
                let nn = n as int;
                assert(wf_word(cur, nn, k));
                assert(nn % (cur.len() as int) != 0);
                if succ(cur, nn, k).len() == 0 {
                    assert(emit_from(cur, nn, k) =~= Seq::<u8>::empty() + Seq::<u8>::empty());
                } else {
                    lemma_succ_wf(cur, nn, k);
                    assert(emit_from(cur, nn, k) == Seq::<u8>::empty() + emit_from(
                        succ(cur, nn, k),
                        nn,
                        k,
                    ));
                }
                assert(out@ + emit_rest(cur, nn, k) =~= out@ + emit_from(cur, nn, k));
            }
        }
        proof {
            let cur = cursor.state()->Some_0;
            match prior {
                None => {
                    assert(emit_from(cur, n as int, k) == debruijn_spec(n as int, k));
                },
                Some(w) => {
                    assert(emit_from(cur, n as int, k) == emit_rest(w, n as int, k));
                },
            }
        }
    }
    proof {
        lemma_debruijn_symbols(n as int, k);
    }
    out
}

/// The all-zero padding has value zero.
proof fn lemma_word_val_zero(m: int, k: u8)
    requires
        0 <= m,
    ensures
        word_val(Seq::new(m as nat, |i: int| 0u8), k) == 0,
    decreases m,
{
    let s = Seq::new(m as nat, |i: int| 0u8);
    if m > 0 {
        assert(s.drop_last() =~= Seq::new((m - 1) as nat, |i: int| 0u8));
        lemma_word_val_zero(m - 1, k);
        assert(s.last() == 0);
        assert(word_val(s, k) == word_val(s.drop_last(), k) * (k as nat) + 0);
        assert(word_val(s.drop_last(), k) * (k as nat) == 0) by (nonlinear_arith)
            requires
                word_val(s.drop_last(), k) == 0,
        ;
    }
}

/// The index of the first occurrence of `needle` in `hay`, or nothing.
fn find_first(hay: &[u8], needle: &[u8]) -> (r: Option<usize>)
    ensures
        r is Some <==> has_occurrence(hay@, needle@),
        r matches Some(i) ==> i == first_occurrence(hay@, needle@),
{
    proof {
        lemma_first_occurrence(hay@, needle@);
    }
    if needle.len() > hay.len() {
        return None;
    }
    if needle.len() == 0 {
        proof {
            assert(hay@.subrange(0, 0) =~= needle@);
            assert(occurs_at(hay@, needle@, 0));
            lemma_first_occurrence_is(hay@, needle@, 0);
        }
        return Some(0);
    }
    let mut i: usize = 0;
    let hlen = hay.len();
    let nlen = needle.len();
    let bound = hlen - nlen;
    while i <= bound
        invariant
            hay@.len() == hlen,
            needle@.len() == nlen,
            1 <= nlen <= hlen,
            bound == hlen - nlen,
            0 <= i <= bound + 1,
            no_occurrence_before(hay@, needle@, i as int),
        decreases bound + 1 - i,
    {
        let mut j: usize = 0;
        let mut matches_here = true;
        while j < needle.len()
            invariant
                hay@.len() == hlen,
                needle@.len() == nlen,
                1 <= nlen <= hlen,
                0 <= i <= hlen - nlen,
                0 <= j <= needle@.len(),
                matches_here ==> forall|t: int| 0 <= t < j ==> hay@[i + t] == needle@[t],
                !matches_here ==> !occurs_at(hay@, needle@, i as int),
            ensures
                matches_here ==> forall|t: int|
                    0 <= t < needle@.len() ==> hay@[i + t] == needle@[t],
                !matches_here ==> !occurs_at(hay@, needle@, i as int),
            decreases needle@.len() - j,
        {
            if hay[i + j] != needle[j] {
                proof {
                    if occurs_at(hay@, needle@, i as int) {
                        assert(hay@.subrange(i as int, i + needle@.len() as int)[j as int]
                            == needle@[j as int]);
                    }
                }
                matches_here = false;
                break;
            }
            j = j + 1;
        }
        if matches_here {
            proof {
                assert(hay@.subrange(i as int, i + needle@.len() as int) =~= needle@);
                assert(occurs_at(hay@, needle@, i as int));
                lemma_first_occurrence_is(hay@, needle@, i as int);
            }
            return Some(i);
        }
        i = i + 1;
    }
    proof {
        assert forall|t: int| true implies !occurs_at(hay@, needle@, t) by {
            if t >= i {
                assert(t + needle@.len() > hay@.len());
            }
        }
    }
    None
}

/// Finds where `needle` sits in the generated sequence: generates one full
/// period, doubles it to catch windows that wrap the cyclic boundary, and
/// returns the first index whose window equals `needle`. The needle must
/// actually occur there; a needle of the window length `n` over symbols
/// below `k` taken from the sequence always does.
pub fn lookup(n: usize, k: u8, needle: &[u8]) -> (r: usize)
    requires
        1 <= n,
        2 <= k,
        has_occurrence(
            debruijn_spec(n as int, k) + debruijn_spec(n as int, k),
            needle@,
        ),
    ensures
        r == first_occurrence(
            debruijn_spec(n as int, k) + debruijn_spec(n as int, k),
            needle@,
        ),
{
    let table = debruijn(n, k);
    let mut doubled: Vec<u8> = Vec::new();
    doubled.extend_from_slice(table.as_slice());
    doubled.extend_from_slice(table.as_slice());
    proof {
        assert(doubled@ =~= debruijn_spec(n as int, k) + debruijn_spec(n as int, k));
    }
    match find_first(doubled.as_slice(), needle) {
        Some(i) => i,
        None => {
            // Unreachable: the caller guarantees an occurrence.
            proof {
                assert(false);
            }
            0
        },
    }
}

} // verus!
