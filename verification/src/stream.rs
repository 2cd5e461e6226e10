use vstd::prelude::*;

use crate::error::Error;
use crate::search::{
    first_occurrence, has_occurrence, lemma_first_occurrence, lemma_first_occurrence_is,
    occurs_at, Matcher,
};
use vstd::string::StringSliceAdditionalSpecFns;

verus! {

/// The number of bytes up to and including the first `b` in `s`, or all of
/// `s` when `b` never occurs.
pub open spec fn take_through(s: Seq<u8>, b: u8) -> int
    decreases s.len(),
{
    if s.len() == 0 {
        0
    } else if s[0] == b {
        1
    } else {
        1 + take_through(s.skip(1), b)
    }
}

/// Whether the byte `b` occurs in `s`.
pub open spec fn contains_byte(s: Seq<u8>, b: u8) -> bool {
    exists|i: int| 0 <= i < s.len() && s[i] == b
}

/// The number of bytes spanned by the first `k` newline-delimited lines of
/// `s` (a line missing its newline at the end of `s` spans the rest).
pub open spec fn lines_span(s: Seq<u8>, k: nat) -> int
    decreases k,
{
    if k == 0 {
        0
    } else {
        let e = take_through(s, 10);
        e + lines_span(s.skip(e), (k - 1) as nat)
    }
}

/// Whether `s` begins with `k` complete newline-terminated lines.
pub open spec fn has_lines(s: Seq<u8>, k: nat) -> bool
    decreases k,
{
    if k == 0 {
        true
    } else {
        contains_byte(s, 10) && has_lines(s.skip(take_through(s, 10)), (k - 1) as nat)
    }
}

/// `take_through` spans at least one byte when the sought byte occurs, ends
/// on that byte's first occurrence, and never passes the end.
pub proof fn lemma_take_through_bounds(s: Seq<u8>, b: u8)
    ensures
        0 <= take_through(s, b) <= s.len(),
        contains_byte(s, b) ==> 1 <= take_through(s, b) && s[take_through(s, b) - 1] == b,
        !contains_byte(s, b) ==> take_through(s, b) == s.len(),
        forall|t: int| 0 <= t < take_through(s, b) - 1 ==> s[t] != b,
    decreases s.len(),
{
    if s.len() == 0 {
        assert(!contains_byte(s, b));
    } else if s[0] == b {
        assert(contains_byte(s, b));
    } else {
        let tail = s.skip(1);
        lemma_take_through_bounds(tail, b);
        if contains_byte(s, b) {
            let i = choose|i: int| 0 <= i < s.len() && s[i] == b;
            assert(tail[i - 1] == b);
            assert(contains_byte(tail, b));
        }
        if contains_byte(tail, b) {
            let i = choose|i: int| 0 <= i < tail.len() && tail[i] == b;
            assert(s[i + 1] == b);
            assert(contains_byte(s, b));
        }
        assert forall|t: int| 0 <= t < take_through(s, b) - 1 implies s[t] != b by {
            if 1 <= t {
                assert(s[t] == tail[t - 1]);
            }
        }
    }
}

/// The spanned prefix of `k` lines never passes the end of the bytes.
pub proof fn lemma_lines_span_bounds(s: Seq<u8>, k: nat)
    ensures
        0 <= lines_span(s, k) <= s.len(),
    decreases k,
{
    if k != 0 {
        let e = take_through(s, 10);
        lemma_take_through_bounds(s, 10);
        lemma_lines_span_bounds(s.skip(e), (k - 1) as nat);
    }
}

/// Unrolls the line span and line count at the last line: `k` lines are
/// `k - 1` lines followed by one more, and their spans add up.
pub proof fn lemma_lines_unroll(s: Seq<u8>, k: nat)
    requires
        1 <= k,
    ensures
        lines_span(s, k) == lines_span(s, (k - 1) as nat) + take_through(
            s.skip(lines_span(s, (k - 1) as nat)),
            10,
        ),
        has_lines(s, k) == (has_lines(s, (k - 1) as nat) && contains_byte(
            s.skip(lines_span(s, (k - 1) as nat)),
            10,
        )),
    decreases k,
{
    reveal_with_fuel(lines_span, 3);
    reveal_with_fuel(has_lines, 3);
    let e = take_through(s, 10);
    lemma_take_through_bounds(s, 10);
    if k == 1 {
        assert(s.skip(lines_span(s, 0)) =~= s);
    } else {
        let s1 = s.skip(e);
        lemma_lines_unroll(s1, (k - 1) as nat);
        lemma_lines_span_bounds(s1, (k - 2) as nat);
        assert(s.skip(e + lines_span(s1, (k - 2) as nat)) =~= s1.skip(
            lines_span(s1, (k - 2) as nat),
        ));
    }
}

/// A buffered byte source: the bytes already received from a transport but
/// not yet consumed by the caller. New refills are appended at the back;
/// reads consume from the front only.
pub struct ByteStream {
    data: Vec<u8>,
    pos: usize,
}

impl ByteStream {
    /// The internal cursor never passes the end of the received bytes.
    pub closed spec fn wf(&self) -> bool {
        self.pos <= self.data@.len()
    }

    /// The bytes received and not yet consumed, in arrival order.
    pub closed spec fn remaining(&self) -> Seq<u8> {
        self.data@.skip(self.pos as int)
    }

    /// A source primed with one batch of bytes.
    pub fn new(data: Vec<u8>) -> (r: ByteStream)
        ensures
            r.wf(),
            r.remaining() == data@,
    {
        let r = ByteStream { data, pos: 0 };
        proof {
            assert(r.remaining() =~= r.data@);
        }
        r
    }

    /// An empty source.
    pub fn empty() -> (r: ByteStream)
        ensures
            r.wf(),
            r.remaining() == Seq::<u8>::empty(),
    {
        ByteStream::new(Vec::new())
    }

    /// Appends one transport refill at the back, as a buffer refill would.
    pub fn push_chunk(&mut self, chunk: &[u8])
        requires
            old(self).wf(),
        ensures
            final(self).wf(),
            final(self).remaining() == old(self).remaining() + chunk@,
    {
        self.data.extend_from_slice(chunk);
        proof {
            assert(self.remaining() =~= old(self).remaining() + chunk@);
        }
    }

    /// How many bytes are available without another refill.
    pub fn available(&self) -> (r: usize)
        requires
            self.wf(),
        ensures
            r == self.remaining().len(),
    {
        self.data.len() - self.pos
    }

    /// Reads exactly `n` bytes. When fewer are available the source is
    /// drained and the read reports a short read.
    pub fn read_exact(&mut self, n: usize) -> (r: Result<Vec<u8>, Error>)
        requires
            old(self).wf(),
        ensures
            final(self).wf(),
            r is Ok <==> n <= old(self).remaining().len(),
            r matches Ok(v) ==> {
                &&& v@ == old(self).remaining().take(n as int)
                &&& final(self).remaining() == old(self).remaining().skip(n as int)
            },
            r matches Err(e) ==> {
                &&& e == Error::ShortRead
                &&& final(self).remaining() == Seq::<u8>::empty()
            },
    {
        if self.data.len() - self.pos < n {
            self.pos = self.data.len();
            proof {
                assert(self.remaining() =~= Seq::<u8>::empty());
            }
            return Err(Error::ShortRead);
        }
        let out = vstd::slice::slice_to_vec(
            vstd::slice::slice_subrange(self.data.as_slice(), self.pos, self.pos + n),
        );
        self.pos = self.pos + n;
        proof {
            assert(out@ =~= old(self).remaining().take(n as int));
            assert(self.remaining() =~= old(self).remaining().skip(n as int));
        }
        Ok(out)
    }

    /// Reads up to and including the first occurrence of `byte`, returning
    /// the bytes read and whether the byte was found; without a find the
    /// whole source is consumed.
    fn read_through(&mut self, byte: u8) -> (r: (Vec<u8>, bool))
        requires
            old(self).wf(),
        ensures
            final(self).wf(),
            r.1 == contains_byte(old(self).remaining(), byte),
            r.0@ == old(self).remaining().take(take_through(old(self).remaining(), byte)),
            final(self).remaining() == old(self).remaining().skip(
                take_through(old(self).remaining(), byte),
            ),
    {
        let ghost rem = old(self).remaining();
        let mut j: usize = self.pos;
        while j < self.data.len() && self.data[j] != byte
            invariant
                rem == old(self).remaining(),
                self.data@ == old(self).data@,
                self.pos == old(self).pos,
                self.wf(),
                old(self).pos <= j <= self.data@.len(),
                forall|t: int| old(self).pos <= t < j ==> self.data@[t] != byte,
            decreases self.data@.len() - j,
        {
            j = j + 1;
        }
        let found = j < self.data.len();
        proof {
            lemma_take_through_bounds(rem, byte);
            let i = j - old(self).pos;
            assert forall|t: int| 0 <= t < i implies rem[t] != byte by {
                assert(rem[t] == self.data@[old(self).pos + t]);
            }
            if found {
                assert(rem[i] == byte);
                assert(contains_byte(rem, byte));
                if take_through(rem, byte) - 1 < i {
                    assert(rem[take_through(rem, byte) - 1] == byte);
                }
                if i < take_through(rem, byte) - 1 {
                    assert(rem[i] != byte);
                }
                assert(take_through(rem, byte) == i + 1);
            } else {
                assert(!contains_byte(rem, byte));
                assert(take_through(rem, byte) == i);
            }
        }
        let end = if found {
            j + 1
        } else {
            j
        };
        let out = vstd::slice::slice_to_vec(
            vstd::slice::slice_subrange(self.data.as_slice(), self.pos, end),
        );
        self.pos = end;
        proof {
            let tt = take_through(rem, byte);
            assert(out@ =~= rem.take(tt));
            assert(self.remaining() =~= rem.skip(tt));
        }
        (out, found)
    }

    /// Performs `lines` sequential newline-delimited line reads and
    /// concatenates them. When the source closes before the last newline the
    /// source is drained and the read reports a short read.
    pub fn read_lines(&mut self, lines: usize) -> (r: Result<Vec<u8>, Error>)
        requires
            old(self).wf(),
        ensures
            final(self).wf(),
            r is Ok <==> has_lines(old(self).remaining(), lines as nat),
            r matches Ok(v) ==> {
                let e = lines_span(old(self).remaining(), lines as nat);
                &&& v@ == old(self).remaining().take(e)
                &&& final(self).remaining() == old(self).remaining().skip(e)
            },
            r matches Err(e) ==> {
                &&& e == Error::ShortRead
                &&& final(self).remaining() == Seq::<u8>::empty()
            },
    {
        let ghost rem = old(self).remaining();
        let mut out: Vec<u8> = Vec::new();
        let mut done: usize = 0;
        proof {
            assert(out@ =~= rem.take(0));
            assert(self.remaining() =~= rem.skip(0));
        }
        while done < lines
            invariant
                rem == old(self).remaining(),
                self.wf(),
                0 <= done <= lines,
                out@.len() == lines_span(rem, done as nat),
                out@ == rem.take(out@.len() as int),
                self.remaining() == rem.skip(out@.len() as int),
                out@.len() + self.remaining().len() == rem.len(),
                has_lines(rem, lines as nat) == has_lines(
                    self.remaining(),
                    (lines - done) as nat,
                ),
                lines_span(rem, lines as nat) == out@.len() + lines_span(
                    self.remaining(),
                    (lines - done) as nat,
                ),
            decreases lines - done,
        {
            let ghost u = out@.len() as int;
            let ghost before = self.remaining();
            proof {
                lemma_take_through_bounds(before, 10);
                // one line of the tail, unfolded
                assert(has_lines(before, (lines - done) as nat) == (contains_byte(before, 10)
                    && has_lines(
                    before.skip(take_through(before, 10)),
                    (lines - done - 1) as nat,
                )));
                assert(lines_span(before, (lines - done) as nat) == take_through(before, 10)
                    + lines_span(
                    before.skip(take_through(before, 10)),
                    (lines - done - 1) as nat,
                ));
            }
            let (mut part, found) = self.read_through(10);
            if !found {
                proof {
                    assert(self.remaining() =~= Seq::<u8>::empty());
                }
                return Err(Error::ShortRead);
            }
            let ghost tt = take_through(before, 10);
            out.append(&mut part);
            proof {
                lemma_lines_unroll(rem, (done + 1) as nat);
                assert(out@ =~= rem.take(u + tt));
                assert(self.remaining() =~= rem.skip(u + tt));
            }
            done = done + 1;
        }
        Ok(out)
    }

    /// Reads until the first occurrence of `byte`, which is consumed; when
    /// `inclusive` is false the byte is dropped from the returned bytes.
    /// When the byte never arrives the source is drained and the read
    /// reports a short read.
    pub fn read_until(&mut self, byte: u8, inclusive: bool) -> (r: Result<Vec<u8>, Error>)
        requires
            old(self).wf(),
        ensures
            final(self).wf(),
            r is Ok <==> contains_byte(old(self).remaining(), byte),
            r matches Ok(v) ==> {
                let e = take_through(old(self).remaining(), byte);
                &&& v@ == old(self).remaining().take(if inclusive { e } else { e - 1 })
                &&& final(self).remaining() == old(self).remaining().skip(e)
            },
            r matches Err(e) ==> {
                &&& e == Error::ShortRead
                &&& final(self).remaining() == Seq::<u8>::empty()
            },
    {
        let ghost rem = old(self).remaining();
        proof {
            lemma_take_through_bounds(rem, byte);
        }
        let (mut out, found) = self.read_through(byte);
        if !found {
            proof {
                assert(self.remaining() =~= Seq::<u8>::empty());
            }
            return Err(Error::ShortRead);
        }
        if !inclusive {
            out.pop();
            proof {
                let e = take_through(rem, byte);
                assert(rem.take(e).drop_last() =~= rem.take(e - 1));
            }
        }
        Ok(out)
    }

    /// Consumes and returns everything currently available.
    pub fn read_to_end(&mut self) -> (r: Vec<u8>)
        requires
            old(self).wf(),
        ensures
            final(self).wf(),
            r@ == old(self).remaining(),
            final(self).remaining() == Seq::<u8>::empty(),
    {
        let out = vstd::slice::slice_to_vec(
            vstd::slice::slice_subrange(self.data.as_slice(), self.pos, self.data.len()),
        );
        self.pos = self.data.len();
        proof {
            assert(out@ =~= old(self).remaining());
            assert(self.remaining() =~= Seq::<u8>::empty());
        }
        out
    }

    /// Scans for the first occurrence of `pattern`, across refill boundaries.
    /// The scanned-over prefix is returned; with `consume` the matched bytes
    /// are consumed and returned too, without it they stay available for the
    /// next read. When the source ends first it is drained and the scan
    /// reports that the pattern was not found.
    pub fn search(&mut self, pattern: &[u8], consume: bool) -> (r: Result<Vec<u8>, Error>)
        requires
            old(self).wf(),
        ensures
            final(self).wf(),
            r is Ok <==> has_occurrence(old(self).remaining(), pattern@),
            r matches Ok(v) ==> {
                let i = first_occurrence(old(self).remaining(), pattern@);
                let e = i + pattern@.len();
                &&& v@ == old(self).remaining().take(if consume { e } else { i })
                &&& final(self).remaining() == old(self).remaining().skip(
                    if consume { e } else { i },
                )
            },
            r matches Err(e) ==> {
                &&& e == Error::PatternNotFound
                &&& final(self).remaining() == Seq::<u8>::empty()
            },
    {
        let ghost rem = old(self).remaining();
        proof {
            lemma_first_occurrence(rem, pattern@);
        }
        let mut m = Matcher::new(vstd::slice::slice_to_vec(pattern));
        if m.is_done() {
            // The empty pattern matches at once, before any byte.
            let empty_out: Vec<u8> = Vec::new();
            proof {
                assert(rem.subrange(0, 0) =~= pattern@);
                assert(occurs_at(rem, pattern@, 0));
                lemma_first_occurrence_is(rem, pattern@, 0);
                assert(empty_out@ =~= rem.take(0));
                assert(self.remaining() =~= rem.skip(0));
            }
            return Ok(empty_out);
        }
        proof {
            assert(m.consumed() =~= rem.take(0));
        }
        loop
            invariant_except_break
                !m.done(),
            invariant
                rem == old(self).remaining(),
                self.wf(),
                m.wf(),
                m.pat() == pattern@,
                self.data@ == old(self).data@,
                old(self).pos <= self.pos <= self.data@.len(),
                m.consumed() == rem.take(self.pos - old(self).pos),
                m.done() <==> has_occurrence(m.consumed(), pattern@),
            ensures
                m.wf(),
                m.pat() == pattern@,
                m.done(),
                self.data@ == old(self).data@,
                old(self).pos <= self.pos <= self.data@.len(),
                m.consumed() == rem.take(self.pos - old(self).pos),
            decreases self.data@.len() - self.pos,
        {
            if self.pos == self.data.len() {
                proof {
                    assert(m.consumed() =~= rem);
                    m.lemma_progress();
                    assert(self.remaining() =~= Seq::<u8>::empty());
                }
                return Err(Error::PatternNotFound);
            }
            let b = self.data[self.pos];
            self.pos = self.pos + 1;
            proof {
                assert(rem.take(self.pos - old(self).pos) =~= rem.take(
                    self.pos - 1 - old(self).pos,
                ).push(b));
            }
            m.push(b);
            if m.is_done() {
                break;
            }
        }
        proof {
            m.lemma_progress();
            let j = m.out().len() as int;
            let p = pattern@;
            let c = self.pos - old(self).pos;
            assert(occurs_at(m.consumed(), p, j));
            assert(c == j + p.len());
            assert(rem.subrange(j, j + p.len() as int) =~= m.consumed().subrange(
                j,
                j + p.len() as int,
            ));
            assert(occurs_at(rem, p, j));
            assert forall|i: int| 0 <= i < j implies !occurs_at(rem, p, i) by {
                if occurs_at(rem, p, i) {
                    assert(m.consumed().subrange(i, i + p.len() as int) =~= rem.subrange(
                        i,
                        i + p.len() as int,
                    ));
                    assert(occurs_at(m.consumed(), p, i));
                }
            }
            lemma_first_occurrence_is(rem, p, j);
            assert(m.out() =~= rem.take(j));
        }
        let matched_len = pattern.len();
        let mut v = m.into_output();
        if consume {
            v.extend_from_slice(pattern);
            proof {
                let j = first_occurrence(rem, pattern@);
                assert(v@ =~= rem.take(j + pattern@.len()));
                assert(self.remaining() =~= rem.skip(j + pattern@.len()));
            }
            Ok(v)
        } else {
            self.pos = self.pos - matched_len;
            proof {
                let j = first_occurrence(rem, pattern@);
                assert(self.remaining() =~= rem.skip(j));
            }
            Ok(v)
        }
    }
}

/// A byte sink that records everything written to it, in order: the write
/// side of a transport, with byte-exact passthrough.
pub struct SinkBuffer {
    data: Vec<u8>,
}

impl SinkBuffer {
    /// Everything written so far, in order.
    pub closed spec fn contents(&self) -> Seq<u8> {
        self.data@
    }

    /// An empty sink.
    pub fn new() -> (r: SinkBuffer)
        ensures
            r.contents() == Seq::<u8>::empty(),
    {
        SinkBuffer { data: Vec::new() }
    }

    /// Appends raw bytes unchanged.
    pub fn write(&mut self, buf: &[u8])
        ensures
            final(self).contents() == old(self).contents() + buf@,
    {
        self.data.extend_from_slice(buf);
    }

    /// Appends a string's bytes unchanged.
    pub fn write_str(&mut self, s: &str)
        ensures
            final(self).contents() == old(self).contents() + s.spec_bytes(),
    {
        self.write(s.as_bytes());
    }

    /// Appends a string's bytes followed by a single newline terminator.
    pub fn write_line(&mut self, s: &str)
        ensures
            final(self).contents() == old(self).contents() + s.spec_bytes() + seq![10u8],
    {
        self.write(s.as_bytes());
        let nl: [u8; 1] = [10];
        self.write(&nl);
        proof {
            assert(nl@ =~= seq![10u8]);
        }
    }

    /// Hands the written bytes over and leaves the sink empty.
    pub fn take_contents(&mut self) -> (r: Vec<u8>)
        ensures
            r@ == old(self).contents(),
            final(self).contents() == Seq::<u8>::empty(),
    {
        let mut swapped: Vec<u8> = Vec::new();
        core::mem::swap(&mut self.data, &mut swapped);
        swapped
    }
}

} // verus!
