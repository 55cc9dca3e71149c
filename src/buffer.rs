use vstd::prelude::*;
use vstd::slice::slice_subrange;

verus! {

pub const NEWLINE: u8 = 10u8;

pub const DEFAULT_CAPACITY: usize = 102400;

/// From this many bases on, a skip that fits in the buffer counts the
/// newlines of the whole stretch at once instead of stepping byte by byte.
pub const BULK_SKIP: usize = 10;

/// How many times `b` occurs in `s`.
pub open spec fn occurrences(s: Seq<u8>, b: u8) -> int
    decreases s.len(),
{
    if s.len() == 0 {
        0
    } else {
        (if s[0] == b {
            1int
        } else {
            0int
        }) + occurrences(s.subrange(1, s.len() as int), b)
    }
}

/// How many bytes from `p` up to `q` are not newlines.
pub open spec fn content_between(d: Seq<u8>, p: int, q: int) -> int
    decreases q - p,
{
    if p < q {
        (if d[p] != NEWLINE {
            1int
        } else {
            0int
        }) + content_between(d, p + 1, q)
    } else {
        0
    }
}

proof fn lemma_window_count(d: Seq<u8>, p: int, q: int)
    requires
        0 <= p <= q <= d.len(),
    ensures
        occurrences(d.subrange(p, q), NEWLINE) + content_between(d, p, q) == q - p,
        0 <= content_between(d, p, q) <= q - p,
        p < q && d[q - 1] != NEWLINE ==> content_between(d, p, q) >= 1,
        p < q && content_between(d, p, q) == q - p ==> d[q - 1] != NEWLINE,
    decreases q - p,
{
    if p < q {
        let w = d.subrange(p, q);
        assert(w[0] == d[p]);
        assert(w.subrange(1, w.len() as int) =~= d.subrange(p + 1, q));
        lemma_window_count(d, p + 1, q);
    } else {
        assert(d.subrange(p, q).len() == 0);
    }
}

/// Skipping across a stretch that holds fewer than `n` non-newline bytes, or
/// ends with the `n`-th of them, can be done in one move.
proof fn lemma_skip_window(d: Seq<u8>, p: int, q: int, n: nat)
    requires
        0 <= p <= q <= d.len(),
        content_between(d, p, q) <= n,
        n > 0 || p == q,
        content_between(d, p, q) < n || p == q || d[q - 1] != NEWLINE,
    ensures
        content_skipped(d, p, n) == ({
            let t = content_skipped(d, q, (n - content_between(d, p, q)) as nat);
            (t.0, (t.1 + content_between(d, p, q)) as nat)
        }),
    decreases q - p,
{
    lemma_window_count(d, p, q);
    if p < q {
        lemma_window_count(d, p + 1, q);
        if d[p] == NEWLINE {
            lemma_skip_window(d, p + 1, q, n);
        } else {
            lemma_skip_window(d, p + 1, q, (n - 1) as nat);
        }
    }
}

/// First position at or after `p` that does not hold a newline (or the end).
pub open spec fn nl_end(d: Seq<u8>, p: int) -> int
    decreases d.len() - p,
{
    if 0 <= p < d.len() && d[p] == NEWLINE {
        nl_end(d, p + 1)
    } else {
        p
    }
}

/// First position at or after `p` that holds a newline, or the end of `d`.
pub open spec fn line_end(d: Seq<u8>, p: int) -> int
    decreases d.len() - p,
{
    if p < 0 || p >= d.len() {
        d.len() as int
    } else if d[p] == NEWLINE {
        p
    } else {
        line_end(d, p + 1)
    }
}

/// Skips up to `n` whole lines from `p`: the position reached and the number of
/// newline-terminated lines passed. An unterminated last line is consumed too.
pub open spec fn lines_skipped(d: Seq<u8>, p: int, n: nat) -> (int, nat)
    decreases n,
{
    if n == 0 || p < 0 || p >= d.len() {
        (p, 0)
    } else if line_end(d, p) < d.len() {
        let r = lines_skipped(d, line_end(d, p) + 1, (n - 1) as nat);
        (r.0, r.1 + 1)
    } else {
        (d.len() as int, 0)
    }
}

/// Skips `n` non-newline bytes from `p` (newlines on the way are free): the
/// position reached and the number of non-newline bytes passed.
pub open spec fn content_skipped(d: Seq<u8>, p: int, n: nat) -> (int, nat)
    decreases d.len() - p,
{
    if n == 0 || p < 0 || p >= d.len() {
        (p, 0)
    } else if d[p] == NEWLINE {
        content_skipped(d, p + 1, n)
    } else {
        let r = content_skipped(d, p + 1, (n - 1) as nat);
        (r.0, r.1 + 1)
    }
}

pub proof fn lemma_nl_end_bounds(d: Seq<u8>, p: int)
    requires
        0 <= p <= d.len(),
    ensures
        p <= nl_end(d, p) <= d.len(),
        nl_end(d, p) < d.len() ==> d[nl_end(d, p)] != NEWLINE,
    decreases d.len() - p,
{
    if p < d.len() && d[p] == NEWLINE {
        lemma_nl_end_bounds(d, p + 1);
    }
}

pub proof fn lemma_line_end_bounds(d: Seq<u8>, p: int)
    requires
        0 <= p <= d.len(),
    ensures
        p <= line_end(d, p) <= d.len(),
        line_end(d, p) < d.len() ==> d[line_end(d, p)] == NEWLINE,
        forall|j: int| p <= j < line_end(d, p) ==> d[j] != NEWLINE,
    decreases d.len() - p,
{
    if p < d.len() && d[p] != NEWLINE {
        lemma_line_end_bounds(d, p + 1);
    }
}

/// A position at or before the line end, with no newline in between, has the same line end.
pub proof fn lemma_line_end_from(d: Seq<u8>, p: int, q: int)
    requires
        0 <= p <= q <= d.len(),
        forall|j: int| p <= j < q ==> d[j] != NEWLINE,
    ensures
        line_end(d, p) == line_end(d, q),
    decreases q - p,
{
    if p < q {
        lemma_line_end_from(d, p + 1, q);
    }
}

pub proof fn lemma_lines_skipped_bounds(d: Seq<u8>, p: int, n: nat)
    requires
        0 <= p <= d.len(),
    ensures
        p <= lines_skipped(d, p, n).0 <= d.len(),
        lines_skipped(d, p, n).1 <= n,
        p < d.len() && n > 0 ==> p < lines_skipped(d, p, n).0,
    decreases n,
{
    if n > 0 && p < d.len() {
        lemma_line_end_bounds(d, p);
        if line_end(d, p) < d.len() {
            lemma_lines_skipped_bounds(d, line_end(d, p) + 1, (n - 1) as nat);
        }
    }
}

pub proof fn lemma_content_skipped_bounds(d: Seq<u8>, p: int, n: nat)
    requires
        0 <= p <= d.len(),
    ensures
        p <= content_skipped(d, p, n).0 <= d.len(),
        content_skipped(d, p, n).1 <= n,
        content_skipped(d, p, n).1 < n ==> content_skipped(d, p, n).0 == d.len(),
        p < d.len() && n > 0 ==> p < content_skipped(d, p, n).0,
    decreases d.len() - p,
{
    if n > 0 && p < d.len() {
        if d[p] == NEWLINE {
            lemma_content_skipped_bounds(d, p + 1, n);
        } else {
            lemma_content_skipped_bounds(d, p + 1, (n - 1) as nat);
        }
    }
}

/// Relies on memchr::memchr: the index of the first occurrence of the byte, if any.
#[verifier::external_body]
pub(crate) fn find_byte(needle: u8, haystack: &[u8]) -> (r: Option<usize>)
    ensures
        match r {
            Some(i) => i < haystack@.len() && haystack@[i as int] == needle && forall|j: int|
                0 <= j < i ==> haystack@[j] != needle,
            None => forall|j: int| 0 <= j < haystack@.len() ==> haystack@[j] != needle,
        },
{
    memchr::memchr(needle, haystack)
}

/// Relies on memchr::memchr_iter: it yields every position of the byte in
/// the haystack once, so counting them counts the byte.
#[verifier::external_body]
fn count_byte(needle: u8, haystack: &[u8]) -> (r: usize)
    ensures
        r == occurrences(haystack@, needle),
{
    memchr::memchr_iter(needle, haystack).count()
}

/// A fixed-capacity byte buffer with a read cursor. It never resizes: each
/// fill overwrites what was there.
pub struct Buffer {
    buf: Vec<u8>,
    buf_len: usize,
    pos: usize,
}

impl Buffer {
    /// The valid bytes of the last fill.
    pub closed spec fn data(&self) -> Seq<u8> {
        self.buf@.subrange(0, self.buf_len as int)
    }

    /// The offset of the next unread byte.
    pub closed spec fn cursor(&self) -> int {
        self.pos as int
    }

    pub closed spec fn capacity(&self) -> int {
        self.buf@.len() as int
    }

    pub closed spec fn inv(&self) -> bool {
        self.buf_len <= self.buf@.len()
    }

    pub open spec fn wf(&self) -> bool {
        &&& self.inv()
        &&& 0 <= self.cursor() <= self.data().len() <= self.capacity()
        &&& self.capacity() >= 1
    }

    /// The bytes not read yet.
    pub open spec fn rest(&self) -> Seq<u8> {
        self.data().subrange(self.cursor(), self.data().len() as int)
    }

    pub fn new() -> (r: Self)
        ensures
            r.wf(),
            r.capacity() == DEFAULT_CAPACITY,
            r.data().len() == 0,
            r.cursor() == 0,
    {
        Self::with_capacity(DEFAULT_CAPACITY)
    }

    /// A buffer that holds at most `capacity` bytes per fill.
    pub fn with_capacity(capacity: usize) -> (r: Self)
        requires
            capacity >= 1,
        ensures
            r.wf(),
            r.capacity() == capacity,
            r.data().len() == 0,
            r.cursor() == 0,
    {
        Buffer { buf: vec![0u8; capacity], buf_len: 0, pos: 0 }
    }

    /// Overwrites the buffer with as much of `src` as fits and rewinds the
    /// cursor; returns how many bytes were taken.
    pub fn fill(&mut self, src: &[u8]) -> (r: usize)
        requires
            old(self).wf(),
        ensures
            final(self).wf(),
            final(self).capacity() == old(self).capacity(),
            r as int == if src@.len() < old(self).capacity() {
                src@.len() as int
            } else {
                old(self).capacity()
            },
            final(self).data() == src@.subrange(0, r as int),
            final(self).cursor() == 0,
    {
        let cap = self.buf.len();
        let n = if src.len() < cap {
            src.len()
        } else {
            cap
        };
        let mut i: usize = 0;
        while i < n
            invariant
                n <= cap == self.buf@.len(),
                n <= src@.len(),
                0 <= i <= n,
                forall|j: int| 0 <= j < i ==> self.buf@[j] == src@[j],
            decreases n - i,
        {
            self.buf.set(i, src[i]);
            i = i + 1;
        }
        self.buf_len = n;
        self.pos = 0;
        assert(self.data() =~= src@.subrange(0, n as int));
        n
    }

    pub fn is_empty(&self) -> (r: bool)
        requires
            self.wf(),
        ensures
            r == (self.data().len() == 0),
    {
        self.buf_len == 0
    }

    /// How many bytes the last fill left in the buffer.
    pub fn valid_len(&self) -> (r: usize)
        requires
            self.wf(),
        ensures
            r == self.data().len(),
    {
        self.buf_len
    }

    /// Whether every valid byte has been read.
    pub fn cursor_at_end(&self) -> (r: bool)
        requires
            self.wf(),
        ensures
            r == (self.cursor() == self.data().len()),
    {
        self.pos >= self.buf_len
    }

    /// Advances the cursor over consecutive newlines; returns how many were passed.
    pub fn skip_newlines(&mut self) -> (r: usize)
        requires
            old(self).wf(),
        ensures
            final(self).wf(),
            final(self).data() == old(self).data(),
            final(self).capacity() == old(self).capacity(),
            final(self).cursor() == nl_end(old(self).data(), old(self).cursor()),
            r == final(self).cursor() - old(self).cursor(),
    {
        let ghost d = self.data();
        let ghost c0 = self.cursor();
        let start = self.pos;
        while self.pos < self.buf_len && self.buf[self.pos] == NEWLINE
            invariant
                self.inv(),
                self.data() == d,
                self.buf@.len() == old(self).buf@.len(),
                c0 == start <= self.pos <= self.buf_len,
                nl_end(d, c0) == nl_end(d, self.pos as int),
            decreases self.buf_len - self.pos,
        {
            self.pos = self.pos + 1;
        }
        self.pos - start
    }

    /// The byte at the cursor, without consuming it, after passing newlines
    /// first when `ignore_newline` is set; `None` at the end of the data.
    pub fn next_byte(&mut self, ignore_newline: bool) -> (r: Option<u8>)
        requires
            old(self).wf(),
        ensures
            final(self).wf(),
            final(self).data() == old(self).data(),
            final(self).capacity() == old(self).capacity(),
            final(self).cursor() == if ignore_newline {
                nl_end(old(self).data(), old(self).cursor())
            } else {
                old(self).cursor()
            },
            r == if final(self).cursor() < final(self).data().len() {
                Some(final(self).data()[final(self).cursor()])
            } else {
                None::<u8>
            },
    {
        if ignore_newline {
            self.skip_newlines();
        }
        if self.pos < self.buf_len {
            Some(self.buf[self.pos])
        } else {
            None
        }
    }

    /// Consumes the rest of the current line and its newline. Returns the line's
    /// length without the newline and whether a newline ended it; `None` at the
    /// end of the data.
    pub fn next_line_len(&mut self) -> (r: Option<(usize, bool)>)
        requires
            old(self).wf(),
        ensures
            final(self).wf(),
            final(self).data() == old(self).data(),
            final(self).capacity() == old(self).capacity(),
            ({
                let d = old(self).data();
                let c = old(self).cursor();
                let e = line_end(d, c);
                if c == d.len() {
                    r == None::<(usize, bool)> && final(self).cursor() == c
                } else {
                    r == Some(((e - c) as usize, e < d.len())) && final(self).cursor() == if e
                        < d.len() {
                        e + 1
                    } else {
                        d.len() as int
                    }
                }
            }),
    {
        proof {
            lemma_line_end_bounds(self.data(), self.cursor());
        }
        if self.pos < self.buf_len {
            let rest = slice_subrange(self.buf.as_slice(), self.pos, self.buf_len);
            let found = find_byte(NEWLINE, rest);
            match found {
                Some(p) => {
                    proof {
                        let d = self.data();
                        assert forall|j: int| self.pos <= j < self.pos + p implies d[j]
                            != NEWLINE by {
                            assert(rest@[j - self.pos] == d[j]);
                        }
                        assert(rest@[p as int] == d[self.pos + p]);
                        lemma_line_end_from(d, self.pos as int, self.pos + p);
                    }
                    self.pos = self.pos + p + 1;
                    Some((p, true))
                },
                None => {
                    proof {
                        let d = self.data();
                        assert forall|j: int| self.pos <= j < d.len() implies d[j]
                            != NEWLINE by {
                            assert(rest@[j - self.pos] == d[j]);
                        }
                        lemma_line_end_from(d, self.pos as int, d.len() as int);
                    }
                    let p = self.buf_len - self.pos;
                    self.pos = self.buf_len;
                    Some((p, false))
                },
            }
        } else {
            None
        }
    }

    /// Discards up to `n` complete lines; returns how many newline-terminated
    /// lines were passed (fewer than `n` when the data runs out first).
    pub fn skip_lines(&mut self, n: usize) -> (r: usize)
        requires
            old(self).wf(),
        ensures
            final(self).wf(),
            final(self).data() == old(self).data(),
            final(self).capacity() == old(self).capacity(),
            final(self).cursor() == lines_skipped(old(self).data(), old(self).cursor(), n as nat).0,
            r == lines_skipped(old(self).data(), old(self).cursor(), n as nat).1,
    {
        let ghost d = self.data();
        let ghost c0 = self.cursor();
        let mut skipped: usize = 0;
        if n == 0 {
            return 0;
        }
        while skipped < n && self.pos < self.buf_len
            invariant
                self.wf(),
                self.data() == d,
                self.capacity() == old(self).capacity(),
                c0 <= self.cursor() <= d.len(),
                skipped <= n,
                lines_skipped(d, c0, n as nat) == ({
                    let t = lines_skipped(d, self.cursor(), (n - skipped) as nat);
                    (t.0, (t.1 + skipped) as nat)
                }),
            decreases d.len() - self.cursor(),
        {
            proof {
                lemma_line_end_bounds(d, self.cursor());
            }
            let r = self.next_line_len();
            if let Some((_p, true)) = r {
                skipped = skipped + 1;
            }
        }
        skipped
    }

    /// Discards exactly `n` non-newline bytes, passing the newlines among them
    /// for free, and then any newlines that follow. Returns how many
    /// non-newline bytes were passed (fewer than `n` when the data runs out).
    pub fn skip_bases(&mut self, n: usize) -> (r: usize)
        requires
            old(self).wf(),
        ensures
            final(self).wf(),
            final(self).data() == old(self).data(),
            final(self).capacity() == old(self).capacity(),
            final(self).cursor() == nl_end(
                old(self).data(),
                content_skipped(old(self).data(), old(self).cursor(), n as nat).0,
            ),
            r == content_skipped(old(self).data(), old(self).cursor(), n as nat).1,
    {
        let ghost d = self.data();
        let ghost c0 = self.cursor();
        let mut skip_len: usize = 0;
        if n >= BULK_SKIP && n <= self.buf_len - self.pos {
            let window = slice_subrange(self.buf.as_slice(), self.pos, self.pos + n);
            let seps = count_byte(NEWLINE, window);
            proof {
                assert(window@ =~= d.subrange(c0, c0 + n));
                lemma_window_count(d, c0, c0 + n);
                lemma_skip_window(d, c0, c0 + n, n as nat);
            }
            self.pos = self.pos + n;
            skip_len = n - seps;
        }
        while skip_len < n && self.pos < self.buf_len
            invariant
                self.inv(),
                self.data() == d,
                self.buf@.len() == old(self).buf@.len(),
                c0 <= self.pos <= self.buf_len,
                skip_len <= n,
                content_skipped(d, c0, n as nat) == ({
                    let t = content_skipped(d, self.pos as int, (n - skip_len) as nat);
                    (t.0, (t.1 + skip_len) as nat)
                }),
            decreases self.buf_len - self.pos,
        {
            if self.buf[self.pos] != NEWLINE {
                skip_len = skip_len + 1;
            }
            self.pos = self.pos + 1;
        }
        self.skip_newlines();
        skip_len
    }
}

} // verus!
