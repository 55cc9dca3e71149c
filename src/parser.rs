use vstd::prelude::*;
use vstd::slice::slice_subrange;
use crate::stats::{seq_sum, lemma_sum_push};
use crate::buffer::{
    Buffer,
    NEWLINE,
    nl_end,
    line_end,
    lines_skipped,
    content_skipped,
    lemma_nl_end_bounds,
    lemma_line_end_bounds,
    lemma_lines_skipped_bounds,
    lemma_content_skipped_bounds,
};

verus! {

pub const FASTA_MARK: u8 = 62u8;

pub const FASTQ_MARK: u8 = 64u8;

pub const SEPARATOR: u8 = 43u8;

/// Where the scanner stands in the record grammar.
#[derive(PartialEq, Eq, Structural, Clone, Copy, Debug)]
pub enum Phase {
    /// Between records: newlines are passed, anything else must open a header.
    Boundary,
    /// Inside a header line.
    Header,
    /// At the start of a sequence line.
    SeqStart,
    /// Inside a sequence line.
    SeqLine,
    /// Inside a FASTQ separator line.
    Sep,
    /// Inside a FASTQ quality block, with bases still to pass.
    Qual,
}

#[derive(PartialEq, Eq, Structural, Clone, Copy, Debug)]
pub enum StatError {
    /// A record does not start with a header at a record boundary.
    Format,
    /// A file ended inside a header, a separator line or a quality block.
    Truncated,
}

/// The scanner's state as a mathematical value.
pub struct Model {
    pub phase: Phase,
    /// Bases counted so far for the open record.
    pub len: int,
    /// Quality bytes still to pass.
    pub rem: int,
    /// Lengths of the accepted records, in the order they closed.
    pub lens: Seq<u64>,
    /// Sum of `lens`.
    pub total: int,
    /// The input was found not to be FASTA/FASTQ.
    pub failed: bool,
}

pub open spec fn is_mark(b: u8) -> bool {
    b == FASTA_MARK || b == FASTQ_MARK
}

/// Ends the open record: it is kept when longer than `min_len`.
pub open spec fn close(s: Model, min_len: int) -> Model {
    if s.len > min_len {
        Model { lens: s.lens.push(s.len as u64), total: s.total + s.len, len: 0, ..s }
    } else {
        Model { len: 0, ..s }
    }
}

/// The effect of one input byte.
pub open spec fn step(s: Model, b: u8, min_len: int) -> Model {
    if s.failed {
        s
    } else {
        match s.phase {
            Phase::Boundary => if b == NEWLINE {
                s
            } else if is_mark(b) {
                Model { phase: Phase::Header, ..s }
            } else {
                Model { failed: true, ..s }
            },
            Phase::Header => if b == NEWLINE {
                Model { phase: Phase::SeqStart, ..s }
            } else {
                s
            },
            Phase::SeqStart => if is_mark(b) {
                Model { phase: Phase::Header, ..close(s, min_len) }
            } else if b == SEPARATOR {
                Model { phase: Phase::Sep, rem: s.len, ..close(s, min_len) }
            } else if b == NEWLINE {
                s
            } else {
                Model { phase: Phase::SeqLine, len: s.len + 1, ..s }
            },
            Phase::SeqLine => if b == NEWLINE {
                Model { phase: Phase::SeqStart, ..s }
            } else {
                Model { len: s.len + 1, ..s }
            },
            Phase::Sep => if b == NEWLINE {
                if s.rem == 0 {
                    Model { phase: Phase::Boundary, ..s }
                } else {
                    Model { phase: Phase::Qual, ..s }
                }
            } else {
                s
            },
            Phase::Qual => if b == NEWLINE {
                s
            } else if s.rem <= 1 {
                Model { phase: Phase::Boundary, rem: 0, ..s }
            } else {
                Model { rem: s.rem - 1, ..s }
            },
        }
    }
}

/// The state after reading the bytes `d` one by one.
pub open spec fn run(s: Model, d: Seq<u8>, min_len: int) -> Model
    decreases d.len(),
{
    if d.len() == 0 {
        s
    } else {
        run(step(s, d[0], min_len), d.subrange(1, d.len() as int), min_len)
    }
}

/// The state after reading the bytes of `d` from position `p` on.
pub open spec fn run_from(s: Model, d: Seq<u8>, p: int, min_len: int) -> Model {
    run(s, d.subrange(p, d.len() as int), min_len)
}

/// The effect of the end of a file: an open record closes.
pub open spec fn finish(s: Model, min_len: int) -> Model {
    match s.phase {
        Phase::SeqStart | Phase::SeqLine => Model { phase: Phase::Boundary, ..close(s, min_len) },
        _ => s,
    }
}

pub open spec fn truncated(s: Model) -> bool {
    s.phase == Phase::Header || s.phase == Phase::Sep || s.phase == Phase::Qual
}

/// The state at the start of a file, with the records accepted so far.
pub open spec fn start_model() -> Model {
    Model { phase: Phase::Boundary, len: 0, rem: 0, lens: Seq::empty(), total: 0, failed: false }
}

/// The state after reading the chunks one after another.
pub open spec fn run_chunks(s: Model, chunks: Seq<Seq<u8>>, min_len: int) -> Model
    decreases chunks.len(),
{
    if chunks.len() == 0 {
        s
    } else {
        run_chunks(run(s, chunks[0], min_len), chunks.subrange(1, chunks.len() as int), min_len)
    }
}

pub proof fn lemma_run_concat(s: Model, a: Seq<u8>, b: Seq<u8>, min_len: int)
    ensures
        run(s, a + b, min_len) == run(run(s, a, min_len), b, min_len),
    decreases a.len(),
{
    if a.len() > 0 {
        assert((a + b).subrange(1, (a + b).len() as int) =~= a.subrange(1, a.len() as int) + b);
        assert((a + b)[0] == a[0]);
        lemma_run_concat(step(s, a[0], min_len), a.subrange(1, a.len() as int), b, min_len);
    } else {
        assert(a + b =~= b);
    }
}

/// Reading a file in chunks of any sizes gives the same state, hence the same
/// accepted lengths, as reading the whole file at once.
pub proof fn lemma_chunked_run(s: Model, chunks: Seq<Seq<u8>>, min_len: int)
    ensures
        run_chunks(s, chunks, min_len) == run(s, chunks.flatten(), min_len),
    decreases chunks.len(),
{
    if chunks.len() > 0 {
        let rest = chunks.subrange(1, chunks.len() as int);
        assert(chunks.drop_first() =~= rest);
        lemma_chunked_run(run(s, chunks[0], min_len), rest, min_len);
        lemma_run_concat(s, chunks[0], rest.flatten(), min_len);
    }
}

/// A record is kept exactly when it is longer than `min_len`: with
/// `min_len = 0` every non-empty record is kept, and one of length exactly
/// `min_len` never is. This holds whether the record closes at the next
/// header, at a separator or at the end of its file.
pub proof fn lemma_kept_iff_longer(s: Model, b: u8, min_len: int)
    requires
        s.phase == Phase::SeqStart,
        !s.failed,
        is_mark(b) || b == SEPARATOR,
    ensures
        step(s, b, min_len).lens == if s.len > min_len {
            s.lens.push(s.len as u64)
        } else {
            s.lens
        },
        finish(s, min_len).lens == if s.len > min_len {
            s.lens.push(s.len as u64)
        } else {
            s.lens
        },
        min_len == 0 && s.len > 0 ==> finish(s, min_len).lens.last() == s.len as u64,
        s.len == min_len ==> finish(s, min_len).lens == s.lens,
{
}

/// After a newline the scanner is between records, at the start of a
/// sequence line, or inside a quality block.
proof fn lemma_after_newline(s: Model, a: Seq<u8>, min_len: int)
    requires
        a.len() > 0,
        a[a.len() - 1] == NEWLINE,
    ensures
        run(s, a, min_len).failed || run(s, a, min_len).phase == Phase::Boundary || run(
            s,
            a,
            min_len,
        ).phase == Phase::SeqStart || run(s, a, min_len).phase == Phase::Qual,
{
    let pre = a.subrange(0, a.len() - 1);
    let last = a.subrange(a.len() - 1, a.len() as int);
    assert(a =~= pre + last);
    lemma_run_concat(s, pre, last, min_len);
    let t = run(s, pre, min_len);
    assert(last.subrange(1, 1).len() == 0);
    assert(run(t, last, min_len) == run(step(t, NEWLINE, min_len), last.subrange(1, 1), min_len));
}

/// Reading file `a` to its end and then file `b` gives the same state as
/// reading the single file `a` followed by `b`, when `a` ends with a newline
/// and does not stop inside a record's header or quality, and `b` starts
/// with a header: the records of `a` come first, then those of `b`.
pub proof fn lemma_files_in_sequence(s: Model, a: Seq<u8>, b: Seq<u8>, min_len: int)
    requires
        a.len() > 0,
        a[a.len() - 1] == NEWLINE,
        !run(s, a, min_len).failed,
        !truncated(run(s, a, min_len)),
        b.len() > 0,
        is_mark(b[0]),
    ensures
        run(finish(run(s, a, min_len), min_len), b, min_len) == run(s, a + b, min_len),
{
    lemma_after_newline(s, a, min_len);
    lemma_run_concat(s, a, b, min_len);
    let t = run(s, a, min_len);
    let rest = b.subrange(1, b.len() as int);
    assert(run(t, b, min_len) == run(step(t, b[0], min_len), rest, min_len));
    assert(run(finish(t, min_len), b, min_len) == run(step(finish(t, min_len), b[0], min_len), rest, min_len));
    assert(step(t, b[0], min_len) == step(finish(t, min_len), b[0], min_len));
}

pub proof fn lemma_failed_stays(s: Model, d: Seq<u8>, min_len: int)
    requires
        s.failed,
    ensures
        run(s, d, min_len) == s,
    decreases d.len(),
{
    if d.len() > 0 {
        lemma_failed_stays(s, d.subrange(1, d.len() as int), min_len);
    }
}

proof fn lemma_run_from_unfold(s: Model, d: Seq<u8>, p: int, min_len: int)
    requires
        0 <= p < d.len(),
    ensures
        run_from(s, d, p, min_len) == run_from(step(s, d[p], min_len), d, p + 1, min_len),
{
    let t = d.subrange(p, d.len() as int);
    assert(t.subrange(1, t.len() as int) =~= d.subrange(p + 1, d.len() as int));
    assert(t[0] == d[p]);
}

proof fn lemma_run_from_end(s: Model, d: Seq<u8>, min_len: int)
    ensures
        run_from(s, d, d.len() as int, min_len) == s,
{
    assert(d.subrange(d.len() as int, d.len() as int).len() == 0);
}

/// Newlines leave a state that ignores them as it is.
proof fn lemma_pass_newlines(s: Model, d: Seq<u8>, p: int, min_len: int)
    requires
        0 <= p <= d.len(),
        step(s, NEWLINE, min_len) == s,
    ensures
        run_from(s, d, p, min_len) == run_from(s, d, nl_end(d, p), min_len),
    decreases d.len() - p,
{
    if p < d.len() && d[p] == NEWLINE {
        lemma_run_from_unfold(s, d, p, min_len);
        lemma_pass_newlines(s, d, p + 1, min_len);
    }
}

/// Bytes other than newlines leave a state that ignores them as it is.
proof fn lemma_pass_line(s: Model, d: Seq<u8>, p: int, q: int, min_len: int)
    requires
        0 <= p <= q <= d.len(),
        forall|j: int| p <= j < q ==> d[j] != NEWLINE,
        forall|b: u8| b != NEWLINE ==> step(s, b, min_len) == s,
    ensures
        run_from(s, d, p, min_len) == run_from(s, d, q, min_len),
    decreases q - p,
{
    if p < q {
        lemma_run_from_unfold(s, d, p, min_len);
        lemma_pass_line(s, d, p + 1, q, min_len);
    }
}

/// Inside a sequence line each byte other than a newline is one base.
proof fn lemma_count_line(s: Model, d: Seq<u8>, p: int, q: int, min_len: int)
    requires
        0 <= p <= q <= d.len(),
        forall|j: int| p <= j < q ==> d[j] != NEWLINE,
        s.phase == Phase::SeqLine,
        !s.failed,
    ensures
        run_from(s, d, p, min_len) == run_from(
            Model { len: s.len + (q - p), ..s },
            d,
            q,
            min_len,
        ),
    decreases q - p,
{
    if p < q {
        lemma_run_from_unfold(s, d, p, min_len);
        lemma_count_line(Model { len: s.len + 1, ..s }, d, p + 1, q, min_len);
    } else {
        assert(Model { len: s.len + (q - p), ..s } == s);
    }
}

/// The state after passing `k` quality bytes out of `r`.
pub open spec fn after_quality(s: Model, r: int, k: int) -> Model {
    if k >= r {
        Model { phase: Phase::Boundary, rem: 0, ..s }
    } else {
        Model { phase: Phase::Qual, rem: r - k, ..s }
    }
}

proof fn lemma_pass_quality(s: Model, d: Seq<u8>, p: int, r: nat, min_len: int)
    requires
        0 <= p <= d.len(),
        r > 0,
        s.phase == Phase::Qual,
        s.rem == r,
        !s.failed,
    ensures
        run_from(s, d, p, min_len) == run_from(
            after_quality(s, r as int, content_skipped(d, p, r).1 as int),
            d,
            content_skipped(d, p, r).0,
            min_len,
        ),
    decreases d.len() - p,
{
    if p < d.len() {
        lemma_run_from_unfold(s, d, p, min_len);
        if d[p] == NEWLINE {
            lemma_pass_quality(s, d, p + 1, r, min_len);
        } else if r == 1 {
            let t = step(s, d[p], min_len);
            assert(content_skipped(d, p + 1, 0) == (p + 1, 0nat));
            assert(t == after_quality(s, 1, 1));
        } else {
            let t = Model { rem: r - 1, ..s };
            lemma_pass_quality(t, d, p + 1, (r - 1) as nat, min_len);
            let k = content_skipped(d, p + 1, (r - 1) as nat).1 as int;
            assert(after_quality(t, r - 1, k) =~= after_quality(s, r as int, k + 1));
        }
    } else {
        assert(after_quality(s, r as int, 0) == s);
    }
}

/// What a state must satisfy between bytes.
pub open spec fn model_ok(s: Model) -> bool {
    &&& s.len >= 0
    &&& s.rem >= 0
    &&& s.total == seq_sum(s.lens)
    &&& match s.phase {
        Phase::Boundary | Phase::Header => s.len == 0 && s.rem == 0,
        Phase::SeqStart | Phase::SeqLine => s.rem == 0,
        Phase::Sep => s.len == 0,
        Phase::Qual => s.len == 0 && s.rem > 0,
    }
}

pub open spec fn rank(p: Phase) -> int {
    match p {
        Phase::Boundary => 2,
        Phase::Header => 1,
        Phase::SeqStart => 3,
        Phase::SeqLine => 3,
        Phase::Sep => 1,
        Phase::Qual => 0,
    }
}

/// The scanner's state carried from one buffer to the next.
pub struct ParserState {
    pub phase: Phase,
    pub len: usize,
    pub rem: usize,
    /// Lengths of the accepted records, in the order they closed.
    pub lens: Vec<u64>,
    /// Sum of `lens`.
    pub total: usize,
}

impl View for ParserState {
    type V = Model;

    open spec fn view(&self) -> Model {
        Model {
            phase: self.phase,
            len: self.len as int,
            rem: self.rem as int,
            lens: self.lens@,
            total: self.total as int,
            failed: false,
        }
    }
}

impl ParserState {
    pub open spec fn wf(&self) -> bool {
        model_ok(self@)
    }

    pub fn new() -> (r: Self)
        ensures
            r.wf(),
            r@ == start_model(),
    {
        ParserState { phase: Phase::Boundary, len: 0, rem: 0, lens: Vec::new(), total: 0 }
    }

    /// Ends the open record, keeping its length when it is over `min_len`.
    fn close_record(&mut self, min_len: usize)
        requires
            old(self).total + old(self).len <= usize::MAX,
            old(self).total == seq_sum(old(self).lens@),
        ensures
            final(self)@ == close(old(self)@, min_len as int),
            final(self).total == seq_sum(final(self).lens@),
            final(self).phase == old(self).phase,
            final(self).rem == old(self).rem,
            final(self).total + final(self).len <= old(self).total + old(self).len,
    {
        if self.len > min_len {
            proof {
                lemma_sum_push(self.lens@, self.len as u64);
            }
            self.lens.push(self.len as u64);
            self.total = self.total + self.len;
        }
        self.len = 0;
    }

    /// Reads the unread bytes of `buf`. On success the state is that of the
    /// automaton after those bytes; `Format` comes exactly when they show the
    /// input is not FASTA/FASTQ.
    #[verifier::loop_isolation(false)]
    pub fn parse_buffer(&mut self, buf: &mut Buffer, min_len: usize) -> (r: Result<(), StatError>)
        requires
            old(self).wf(),
            old(buf).wf(),
            old(self).total + old(self).len + old(buf).rest().len() <= usize::MAX,
        ensures
            final(buf).wf(),
            final(buf).data() == old(buf).data(),
            final(buf).capacity() == old(buf).capacity(),
            r is Ok || r == Err::<(), StatError>(StatError::Format),
            r is Err <==> run(old(self)@, old(buf).rest(), min_len as int).failed,
            r is Ok ==> final(self).wf() && final(self)@ == run(
                old(self)@,
                old(buf).rest(),
                min_len as int,
            ),
            r is Ok ==> final(buf).cursor() == final(buf).data().len(),
            r is Ok ==> final(self).total + final(self).len <= old(self).total + old(self).len
                + old(buf).rest().len(),
    {
        let ghost d = buf.data();
        let ghost c0 = buf.cursor();
        let ghost ml = min_len as int;
        let ghost goal = run_from(self@, d, c0, ml);
        loop
            invariant
                self.wf(),
                buf.wf(),
                buf.data() == d,
                buf.capacity() == old(buf).capacity(),
                c0 <= buf.cursor() <= d.len(),
                d == old(buf).data(),
                c0 == old(buf).cursor(),
                goal == run(old(self)@, old(buf).rest(), ml),
                run_from(self@, d, buf.cursor(), ml) == goal,
                self.total + self.len + (d.len() - buf.cursor()) <= old(self).total + old(self).len
                    + (d.len() - c0),
            decreases (d.len() - buf.cursor()) * 4 + rank(self.phase),
        {
            let ghost p = buf.cursor();
            let ghost s = self@;
            proof {
                lemma_nl_end_bounds(d, p);
                lemma_line_end_bounds(d, p);
                lemma_lines_skipped_bounds(d, p, 1);
                lemma_content_skipped_bounds(d, p, self.rem as nat);
            }
            match self.phase {
                Phase::Boundary => {
                    proof {
                        lemma_pass_newlines(s, d, p, ml);
                    }
                    match buf.next_byte(true) {
                        None => {
                            proof {
                                lemma_run_from_end(s, d, ml);
                            }
                            return Ok(());
                        },
                        Some(b) => {
                            let ghost q = buf.cursor();
                            proof {
                                lemma_run_from_unfold(s, d, q, ml);
                            }
                            if b == FASTA_MARK || b == FASTQ_MARK {
                                self.phase = Phase::Header;
                                proof {
                                    lemma_run_from_unfold(self@, d, q, ml);
                                }
                            } else {
                                proof {
                                    lemma_failed_stays(
                                        step(s, b, ml),
                                        d.subrange(q + 1, d.len() as int),
                                        ml,
                                    );
                                }
                                return Err(StatError::Format);
                            }
                        },
                    }
                },
                Phase::Header => {
                    let k = buf.skip_lines(1);
                    proof {
                        lemma_pass_line(s, d, p, line_end(d, p), ml);
                    }
                    if k == 1 {
                        proof {
                            assert(lines_skipped(d, line_end(d, p) + 1, 0) == (line_end(d, p) + 1, 0nat));
                            lemma_run_from_unfold(s, d, line_end(d, p), ml);
                        }
                        self.phase = Phase::SeqStart;
                    } else {
                        proof {
                            lemma_run_from_end(s, d, ml);
                        }
                        return Ok(());
                    }
                },
                Phase::Sep => {
                    let k = buf.skip_lines(1);
                    proof {
                        lemma_pass_line(s, d, p, line_end(d, p), ml);
                    }
                    if k == 1 {
                        proof {
                            assert(lines_skipped(d, line_end(d, p) + 1, 0) == (line_end(d, p) + 1, 0nat));
                            lemma_run_from_unfold(s, d, line_end(d, p), ml);
                        }
                        if self.rem == 0 {
                            self.phase = Phase::Boundary;
                        } else {
                            self.phase = Phase::Qual;
                        }
                    } else {
                        proof {
                            lemma_run_from_end(s, d, ml);
                        }
                        return Ok(());
                    }
                },
                Phase::Qual => {
                    let k = buf.skip_bases(self.rem);
                    proof {
                        lemma_pass_quality(s, d, p, self.rem as nat, ml);
                    }
                    self.rem = self.rem - k;
                    if self.rem == 0 {
                        self.phase = Phase::Boundary;
                        proof {
                            let e = content_skipped(d, p, s.rem as nat).0;
                            lemma_nl_end_bounds(d, e);
                            lemma_pass_newlines(self@, d, e, ml);
                        }
                    } else {
                        proof {
                            lemma_run_from_end(self@, d, ml);
                        }
                        return Ok(());
                    }
                },
                Phase::SeqStart => {
                    match buf.next_byte(false) {
                        None => {
                            proof {
                                lemma_run_from_end(s, d, ml);
                            }
                            return Ok(());
                        },
                        Some(b) => {
                            proof {
                                lemma_run_from_unfold(s, d, p, ml);
                            }
                            if b == FASTA_MARK || b == FASTQ_MARK {
                                self.close_record(min_len);
                                self.phase = Phase::Boundary;
                                proof {
                                    lemma_run_from_unfold(self@, d, p, ml);
                                }
                            } else if b == SEPARATOR {
                                let l = self.len;
                                self.close_record(min_len);
                                self.rem = l;
                                self.phase = Phase::Sep;
                                proof {
                                    lemma_run_from_unfold(self@, d, p, ml);
                                }
                            } else {
                                self.scan_line(buf, min_len);
                            }
                        },
                    }
                },
                Phase::SeqLine => {
                    if buf.cursor_at_end() {
                        proof {
                            lemma_run_from_end(s, d, ml);
                        }
                        return Ok(());
                    }
                    self.scan_line(buf, min_len);
                },
            }
        }
    }

    /// Counts the bases of the rest of a sequence line.
    fn scan_line(&mut self, buf: &mut Buffer, min_len: usize)
        requires
            old(self).wf(),
            old(buf).wf(),
            old(buf).cursor() < old(buf).data().len(),
            old(self).phase == Phase::SeqLine || (old(self).phase == Phase::SeqStart
                && !is_mark(old(buf).data()[old(buf).cursor()]) && old(buf).data()[old(
            buf).cursor()] != SEPARATOR),
            old(self).total + old(self).len + (old(buf).data().len() - old(buf).cursor())
                <= usize::MAX,
        ensures
            final(self).wf(),
            final(buf).wf(),
            final(buf).data() == old(buf).data(),
            final(buf).capacity() == old(buf).capacity(),
            old(buf).cursor() < final(buf).cursor(),
            final(self).phase == Phase::SeqStart || final(self).phase == Phase::SeqLine,
            run_from(old(self)@, old(buf).data(), old(buf).cursor(), min_len as int) == run_from(
                final(self)@,
                final(buf).data(),
                final(buf).cursor(),
                min_len as int,
            ),
            final(self).total + final(self).len + (final(buf).data().len() - final(
            buf).cursor()) <= old(self).total + old(self).len + (old(buf).data().len() - old(
            buf).cursor()),
    {
        let ghost d = buf.data();
        let ghost p = buf.cursor();
        let ghost ml = min_len as int;
        let ghost s = self@;
        proof {
            lemma_line_end_bounds(d, p);
        }
        let ghost e = line_end(d, p);
        match buf.next_line_len() {
            Some((n, term)) => {
                proof {
                    if s.phase == Phase::SeqStart && d[p] != NEWLINE {
                        lemma_run_from_unfold(s, d, p, ml);
                        let t = Model { phase: Phase::SeqLine, len: s.len + 1, ..s };
                        lemma_count_line(t, d, p + 1, e, ml);
                        assert(Model { len: t.len + (e - (p + 1)), ..t } == Model {
                            phase: Phase::SeqLine,
                            len: s.len + (e - p),
                            ..s
                        });
                    } else if s.phase == Phase::SeqLine {
                        lemma_count_line(s, d, p, e, ml);
                        assert(Model { len: s.len + (e - p), ..s } == Model {
                            phase: Phase::SeqLine,
                            len: s.len + (e - p),
                            ..s
                        });
                    }
                    if e < d.len() {
                        lemma_run_from_unfold(
                            Model { phase: Phase::SeqLine, len: s.len + (e - p), ..s },
                            d,
                            e,
                            ml,
                        );
                    }
                }
                self.len = self.len + n;
                if term {
                    self.phase = Phase::SeqStart;
                } else {
                    self.phase = Phase::SeqLine;
                }
            },
            None => {},
        }
    }

    /// Handles one buffer of the reading pipeline: an empty buffer marks the
    /// end of a file, any other is scanned.
    pub fn take_buffer(&mut self, buf: &mut Buffer, min_len: usize) -> (r: Result<(), StatError>)
        requires
            old(self).wf(),
            old(buf).wf(),
            old(self).total + old(self).len + old(buf).rest().len() <= usize::MAX,
        ensures
            final(buf).wf(),
            final(buf).capacity() == old(buf).capacity(),
            old(buf).data().len() == 0 ==> {
                &&& r is Err <==> truncated(old(self)@)
                &&& r is Err ==> r == Err::<(), StatError>(StatError::Truncated)
                &&& r is Ok ==> final(self).wf() && final(self)@ == finish(
                    old(self)@,
                    min_len as int,
                )
            },
            old(buf).data().len() > 0 ==> {
                &&& r is Ok || r == Err::<(), StatError>(StatError::Format)
                &&& r is Err <==> run(old(self)@, old(buf).rest(), min_len as int).failed
                &&& r is Ok ==> final(self).wf() && final(self)@ == run(
                    old(self)@,
                    old(buf).rest(),
                    min_len as int,
                )
            },
    {
        if buf.is_empty() {
            self.end_file(min_len)
        } else {
            self.parse_buffer(buf, min_len)
        }
    }

    /// Reads one whole file from memory through a buffer of `capacity` bytes,
    /// then ends it. The outcome is that of reading the file in one piece,
    /// whatever the capacity.
    #[verifier::loop_isolation(false)]
    pub fn scan_file(&mut self, file: &[u8], capacity: usize, min_len: usize) -> (r: Result<(), StatError>)
        requires
            old(self).wf(),
            capacity >= 1,
            old(self).total + old(self).len + file@.len() <= usize::MAX,
        ensures
            ({
                let m = run(old(self)@, file@, min_len as int);
                &&& r == Err::<(), StatError>(StatError::Format) <==> m.failed
                &&& r == Err::<(), StatError>(StatError::Truncated) <==> !m.failed && truncated(m)
                &&& r is Ok ==> final(self).wf() && final(self)@ == finish(m, min_len as int)
            }),
    {
        let ghost ml = min_len as int;
        let ghost s0 = self@;
        let mut buf = Buffer::with_capacity(capacity);
        let mut off: usize = 0;
        proof {
            assert(file@.subrange(0, 0) =~= Seq::<u8>::empty());
        }
        while off < file.len()
            invariant
                self.wf(),
                buf.wf(),
                buf.capacity() == capacity,
                off <= file@.len(),
                s0 == old(self)@,
                self@ == run(s0, file@.subrange(0, off as int), ml),
                self.total + self.len + (file@.len() - off) <= usize::MAX,
            decreases file@.len() - off,
        {
            let chunk = slice_subrange(file, off, file.len());
            let n = buf.fill(chunk);
            let ghost piece = file@.subrange(off as int, off + n);
            proof {
                assert(buf.rest() =~= piece);
                assert(file@.subrange(0, off + n) =~= file@.subrange(0, off as int) + piece);
                lemma_run_concat(s0, file@.subrange(0, off as int), piece, ml);
            }
            let res = self.parse_buffer(&mut buf, min_len);
            if res.is_err() {
                proof {
                    let m = run(s0, file@.subrange(0, off + n), ml);
                    assert(file@ =~= file@.subrange(0, off + n) + file@.subrange(off + n, file@.len() as int));
                    lemma_run_concat(s0, file@.subrange(0, off + n), file@.subrange(off + n, file@.len() as int), ml);
                    lemma_failed_stays(m, file@.subrange(off + n, file@.len() as int), ml);
                }
                return Err(StatError::Format);
            }
            off = off + n;
        }
        proof {
            assert(file@.subrange(0, off as int) =~= file@);
        }
        self.end_file(min_len)
    }

    /// Ends a file: an open record closes, and `Truncated` comes exactly when
    /// the file stopped inside a header, a separator line or a quality block.
    pub fn end_file(&mut self, min_len: usize) -> (r: Result<(), StatError>)
        requires
            old(self).wf(),
            old(self).total + old(self).len <= usize::MAX,
        ensures
            r is Err <==> truncated(old(self)@),
            r is Err ==> r == Err::<(), StatError>(StatError::Truncated) && final(self)@ == old(self)@,
            r is Ok ==> final(self).wf() && final(self)@ == finish(old(self)@, min_len as int),
    {
        match self.phase {
            Phase::Header | Phase::Sep | Phase::Qual => Err(StatError::Truncated),
            Phase::SeqStart | Phase::SeqLine => {
                self.close_record(min_len);
                self.phase = Phase::Boundary;
                Ok(())
            },
            Phase::Boundary => Ok(()),
        }
    }
}

} // verus!
