use vstd::prelude::*;

verus! {

/// Whether `pat` occurs in `hay` as the contiguous substring starting at `i`.
pub open spec fn occurs_at(hay: Seq<u8>, pat: Seq<u8>, i: int) -> bool {
    &&& 0 <= i
    &&& i + pat.len() <= hay.len()
    &&& hay.subrange(i, i + pat.len() as int) == pat
}

/// Whether `pat` occurs nowhere in `hay` before index `j`.
pub open spec fn no_occurrence_before(hay: Seq<u8>, pat: Seq<u8>, j: int) -> bool {
    forall|i: int| 0 <= i < j ==> !occurs_at(hay, pat, i)
}

/// Whether `pat` occurs somewhere in `hay`.
pub open spec fn has_occurrence(hay: Seq<u8>, pat: Seq<u8>) -> bool {
    exists|i: int| occurs_at(hay, pat, i)
}

/// The index of the first occurrence of `pat` in `hay`, or -1 if none.
pub open spec fn first_occurrence(hay: Seq<u8>, pat: Seq<u8>) -> int
    decreases hay.len(),
{
    if pat.len() == 0 {
        0
    } else if pat.len() > hay.len() {
        -1
    } else if hay.subrange(0, pat.len() as int) == pat {
        0
    } else {
        let sub = first_occurrence(hay.subrange(1, hay.len() as int), pat);
        if sub == -1 {
            -1
        } else {
            1 + sub
        }
    }
}

/// Whether position `i` of `hay` could still begin an occurrence of `pat`:
/// every byte seen at or after `i` agrees with the pattern's start.
pub open spec fn viable(hay: Seq<u8>, pat: Seq<u8>, i: int) -> bool {
    &&& 0 <= i <= hay.len()
    &&& forall|t: int|
        0 <= t < pat.len() && i + t < hay.len() ==> hay[i + t] == #[trigger] pat[t]
}

/// A position ruled out by a mismatch stays ruled out as more bytes arrive.
pub proof fn lemma_unviable_persists(hay: Seq<u8>, ext: Seq<u8>, pat: Seq<u8>, i: int)
    requires
        0 <= i <= hay.len(),
        !viable(hay, pat, i),
    ensures
        !viable(hay + ext, pat, i),
{
    let t = choose|t: int|
        0 <= t < pat.len() && i + t < hay.len() && hay[i + t] != #[trigger] pat[t];
    assert((hay + ext)[i + t] == hay[i + t]);
}

/// An occurrence of the pattern makes its start position viable.
pub proof fn lemma_occurrence_is_viable(hay: Seq<u8>, pat: Seq<u8>, i: int)
    requires
        occurs_at(hay, pat, i),
    ensures
        viable(hay, pat, i),
{
    assert forall|t: int| 0 <= t < pat.len() && i + t < hay.len() implies hay[i + t]
        == #[trigger] pat[t] by {
        assert(pat[t] == hay.subrange(i, i + pat.len() as int)[t]);
    }
}

/// `first_occurrence` returns -1 exactly when the pattern never occurs, and
/// otherwise the least index at which it occurs.
pub proof fn lemma_first_occurrence(hay: Seq<u8>, pat: Seq<u8>)
    ensures
        first_occurrence(hay, pat) == -1 <==> !has_occurrence(hay, pat),
        first_occurrence(hay, pat) != -1 ==> {
            &&& occurs_at(hay, pat, first_occurrence(hay, pat))
            &&& no_occurrence_before(hay, pat, first_occurrence(hay, pat))
        },
    decreases hay.len(),
{
    let f = first_occurrence(hay, pat);
    if pat.len() == 0 {
        assert(hay.subrange(0, 0) =~= pat);
        assert(occurs_at(hay, pat, 0));
    } else if pat.len() > hay.len() {
        assert(forall|i: int| !occurs_at(hay, pat, i));
    } else if hay.subrange(0, pat.len() as int) == pat {
        assert(occurs_at(hay, pat, 0));
    } else {
        let tail = hay.subrange(1, hay.len() as int);
        lemma_first_occurrence(tail, pat);
        let sub = first_occurrence(tail, pat);
        assert forall|i: int| 1 <= i implies occurs_at(hay, pat, i) == occurs_at(
            tail,
            pat,
            i - 1,
        ) by {
            if 0 <= i - 1 && i - 1 + pat.len() <= tail.len() {
                assert(hay.subrange(i, i + pat.len() as int) =~= tail.subrange(
                    i - 1,
                    i - 1 + pat.len() as int,
                ));
            }
        }
        assert(!occurs_at(hay, pat, 0));
        if sub == -1 {
            assert(forall|i: int| 1 <= i ==> !occurs_at(hay, pat, i));
            assert(!has_occurrence(hay, pat));
        } else {
            assert(occurs_at(hay, pat, 1 + sub));
        }
    }
}

/// A pattern that occurs at `i` and nowhere earlier occurs first at `i`.
pub proof fn lemma_first_occurrence_is(hay: Seq<u8>, pat: Seq<u8>, i: int)
    requires
        occurs_at(hay, pat, i),
        no_occurrence_before(hay, pat, i),
    ensures
        first_occurrence(hay, pat) == i,
{
    lemma_first_occurrence(hay, pat);
    let f = first_occurrence(hay, pat);
    assert(f != -1);
    if f < i {
        assert(!occurs_at(hay, pat, f));
    }
    if i < f {
        assert(!occurs_at(hay, pat, i));
    }
}

/// Transient state of a search-until-pattern scan: the bytes ruled out so
/// far, and the held-back look-ahead bytes that still match a proper prefix
/// of the pattern. Bytes are fed in arbitrary slices, so a match that
/// straddles two buffer refills is found all the same.
pub struct Matcher {
    pattern: Vec<u8>,
    skipped: Vec<u8>,
    window: Vec<u8>,
    matched: bool,
}

impl Matcher {
    /// The pattern searched for.
    pub closed spec fn pat(&self) -> Seq<u8> {
        self.pattern@
    }

    /// Every byte fed so far, in order.
    pub closed spec fn consumed(&self) -> Seq<u8> {
        self.skipped@ + self.window@
    }

    /// The bytes ruled out: everything fed before the match began.
    pub closed spec fn out(&self) -> Seq<u8> {
        self.skipped@
    }

    /// Whether the full pattern has been seen.
    pub closed spec fn done(&self) -> bool {
        self.matched
    }

    /// The scan invariant: the held-back window is the prefix of the pattern
    /// matched by the bytes after the ruled-out ones, no occurrence of the
    /// pattern starts inside the ruled-out bytes, and a finished scan holds
    /// the whole pattern in its window.
    pub closed spec fn wf(&self) -> bool {
        &&& self.window@.len() <= self.pattern@.len()
        &&& self.window@ == self.pattern@.take(self.window@.len() as int)
        &&& (self.matched <==> self.window@.len() == self.pattern@.len())
        &&& forall|i: int|
            0 <= i < self.skipped@.len() ==> !viable(self.consumed(), self.pat(), i)
    }

    /// A finished scan has found the pattern right after the ruled-out
    /// bytes; an unfinished one has seen no occurrence at all.
    pub proof fn lemma_progress(&self)
        requires
            self.wf(),
        ensures
            no_occurrence_before(self.consumed(), self.pat(), self.out().len() as int),
            self.done() ==> occurs_at(self.consumed(), self.pat(), self.out().len() as int),
            self.done() ==> self.consumed() == self.out() + self.pat(),
            !self.done() ==> !has_occurrence(self.consumed(), self.pat()),
            self.done() <==> has_occurrence(self.consumed(), self.pat()),
    {
        let c = self.consumed();
        let p = self.pat();
        let j = self.skipped@.len() as int;
        assert forall|i: int| 0 <= i < j implies !occurs_at(c, p, i) by {
            if occurs_at(c, p, i) {
                lemma_occurrence_is_viable(c, p, i);
            }
        }
        if self.matched {
            assert(self.window@ =~= p);
            assert(c.subrange(j, j + p.len() as int) =~= self.window@);
            assert(occurs_at(c, p, j));
            assert(c =~= self.out() + p);
        } else {
            assert forall|i: int| true implies !occurs_at(c, p, i) by {
                if j <= i && i + p.len() <= c.len() {
                    assert(self.window@.len() < p.len());
                    assert(c.len() < j + p.len());
                }
            }
        }
    }

    /// Starts a scan for `pattern`. An empty pattern matches immediately.
    pub fn new(pattern: Vec<u8>) -> (r: Matcher)
        ensures
            r.wf(),
            r.pat() == pattern@,
            r.consumed() == Seq::<u8>::empty(),
            r.out() == Seq::<u8>::empty(),
            r.done() == (pattern@.len() == 0),
    {
        let matched = pattern.len() == 0;
        let r = Matcher { pattern, skipped: Vec::new(), window: Vec::new(), matched };
        proof {
            assert(r.consumed() =~= Seq::<u8>::empty());
            assert(r.window@ =~= r.pattern@.take(0));
        }
        r
    }

    /// Whether the full pattern has been seen.
    pub fn is_done(&self) -> (r: bool)
        ensures
            r == self.done(),
    {
        self.matched
    }

    /// The bytes ruled out so far: the stream prefix before the match.
    pub fn output(&self) -> (r: &Vec<u8>)
        ensures
            r@ == self.out(),
    {
        &self.skipped
    }

    /// Consumes the scan and hands back the ruled-out bytes.
    pub fn into_output(self) -> (r: Vec<u8>)
        ensures
            r@ == self.out(),
    {
        self.skipped
    }

    /// Whether `w` is a prefix of `p`.
    fn vec_is_prefix(w: &Vec<u8>, p: &Vec<u8>) -> (r: bool)
        ensures
            r == (w@.len() <= p@.len() && w@ == p@.take(w@.len() as int)),
    {
        if w.len() > p.len() {
            return false;
        }
        let mut i: usize = 0;
        while i < w.len()
            invariant
                w@.len() <= p@.len(),
                0 <= i <= w@.len(),
                forall|j: int| 0 <= j < i ==> w@[j] == p@[j],
            decreases w@.len() - i,
        {
            if w[i] != p[i] {
                assert(w@ != p@.take(w@.len() as int));
                return false;
            }
            i = i + 1;
        }
        proof {
            assert(w@ =~= p@.take(w@.len() as int));
        }
        true
    }

    /// Feeds one byte into the scan. The naive restart on a mismatch replays
    /// held-back bytes, so nothing already matched is ever lost; afterwards
    /// the scan is finished exactly when the pattern occurs somewhere in the
    /// bytes fed so far.
    pub fn push(&mut self, b: u8)
        requires
            old(self).wf(),
            !old(self).done(),
        ensures
            final(self).wf(),
            final(self).pat() == old(self).pat(),
            final(self).consumed() == old(self).consumed().push(b),
            final(self).done() <==> has_occurrence(final(self).consumed(), final(self).pat()),
    {
        proof {
            assert(old(self).window@.len() < old(self).pattern@.len());
        }
        self.window.push(b);
        let ghost full = self.skipped@ + self.window@;
        proof {
            assert(full =~= old(self).consumed().push(b));
            assert(full =~= old(self).consumed() + seq![b]);
            assert forall|i: int| 0 <= i < self.skipped@.len() implies !viable(
                full,
                self.pattern@,
                i,
            ) by {
                assert(!viable(old(self).consumed(), old(self).pat(), i));
                lemma_unviable_persists(old(self).consumed(), seq![b], self.pattern@, i);
            }
        }
        loop
            invariant_except_break
                !self.matched,
            invariant
                self.pattern@ == old(self).pattern@,
                1 <= self.pattern@.len(),
                self.window@.len() <= self.pattern@.len(),
                self.skipped@ + self.window@ == full,
                forall|i: int|
                    0 <= i < self.skipped@.len() ==> !viable(full, self.pattern@, i),
            ensures
                self.window@ == self.pattern@.take(self.window@.len() as int),
                self.matched <==> self.window@.len() == self.pattern@.len(),
            decreases self.window@.len(),
        {
            if Self::vec_is_prefix(&self.window, &self.pattern) {
                if self.window.len() == self.pattern.len() {
                    self.matched = true;
                }
                break;
            }
            // The window is not a prefix of the pattern, so no occurrence
            // can ever start where it begins; rule out its first byte and
            // replay the rest.
            proof {
                let j = self.skipped@.len() as int;
                let p = self.pattern@;
                let w = self.window@;
                assert(w.len() > 0) by {
                    if w.len() == 0 {
                        assert(w =~= p.take(0));
                    }
                }
                assert(!viable(full, p, j)) by {
                    if viable(full, p, j) {
                        assert forall|t: int| 0 <= t < w.len() implies w[t] == p[t] by {
                            assert(full[j + t] == w[t]);
                        }
                        assert(w =~= p.take(w.len() as int));
                    }
                }
            }
            let moved = self.window.remove(0);
            self.skipped.push(moved);
            proof {
                assert(self.skipped@ + self.window@ =~= full);
            }
        }
        proof {
            if self.window@.len() == self.pattern@.len() {
                assert(self.window@ =~= self.pattern@);
            }
            self.lemma_progress();
        }
    }

    /// Feeds a whole refill slice into the scan, stopping right after the
    /// byte that completes the pattern. Returns how many bytes were taken:
    /// the whole slice unless the scan finished inside it.
    pub fn feed(&mut self, chunk: &[u8]) -> (used: usize)
        requires
            old(self).wf(),
            !old(self).done(),
        ensures
            final(self).wf(),
            final(self).pat() == old(self).pat(),
            used <= chunk@.len(),
            final(self).consumed() == old(self).consumed() + chunk@.take(used as int),
            final(self).done() <==> has_occurrence(final(self).consumed(), final(self).pat()),
            !final(self).done() ==> used == chunk@.len(),
    {
        let mut i: usize = 0;
        proof {
            assert(self.consumed() =~= old(self).consumed() + chunk@.take(0));
            old(self).lemma_progress();
        }
        while i < chunk.len()
            invariant
                self.wf(),
                self.pat() == old(self).pat(),
                0 <= i <= chunk@.len(),
                self.consumed() == old(self).consumed() + chunk@.take(i as int),
                self.done() <==> has_occurrence(self.consumed(), self.pat()),
            decreases chunk@.len() - i,
        {
            if self.is_done() {
                return i;
            }
            let b = chunk[i];
            self.push(b);
            proof {
                assert(old(self).consumed() + chunk@.take(i + 1) =~= (old(self).consumed()
                    + chunk@.take(i as int)).push(chunk@[i as int]));
            }
            i = i + 1;
        }
        i
    }
}

} // verus!
