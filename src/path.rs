use vstd::prelude::*;
use crate::buffer::{NEWLINE, line_end, lemma_line_end_bounds, lemma_line_end_from, find_byte};
use crate::parser::is_mark;
use vstd::slice::slice_subrange;

verus! {

pub const GZIP_ID1: u8 = 31u8;

pub const GZIP_ID2: u8 = 139u8;

pub const COMMENT: u8 = 35u8;

/// Whether the first bytes of a stream are the gzip magic number.
pub fn is_gzip(head: &[u8]) -> (r: bool)
    ensures
        r == (head@.len() >= 2 && head@[0] == GZIP_ID1 && head@[1] == GZIP_ID2),
{
    head.len() >= 2 && head[0] == GZIP_ID1 && head[1] == GZIP_ID2
}

/// Whether a stream whose first byte is `first` holds FASTA/FASTQ records;
/// any other stream is read as a list of paths.
pub fn is_record_stream(first: u8) -> (r: bool)
    ensures
        r == is_mark(first),
{
    first == 62u8 || first == 64u8
}

/// ASCII whitespace.
pub open spec fn is_space(b: u8) -> bool {
    b == 32u8 || (9u8 <= b && b <= 13u8)
}

/// The UTF-8 encodings of U+0085 and U+00A0.
pub open spec fn is_space2(a: u8, b: u8) -> bool {
    a == 0xC2u8 && (b == 0x85u8 || b == 0xA0u8)
}

/// The UTF-8 encodings of U+1680, U+2000 to U+200A, U+2028, U+2029, U+202F,
/// U+205F and U+3000.
pub open spec fn is_space3(a: u8, b: u8, c: u8) -> bool {
    ||| (a == 0xE1u8 && b == 0x9Au8 && c == 0x80u8)
    ||| (a == 0xE2u8 && b == 0x80u8 && ((0x80u8 <= c && c <= 0x8Au8) || c == 0xA8u8 || c == 0xA9u8
        || c == 0xAFu8))
    ||| (a == 0xE2u8 && b == 0x81u8 && c == 0x9Fu8)
    ||| (a == 0xE3u8 && b == 0x80u8 && c == 0x80u8)
}

/// The byte length of the white space character (Unicode `White_Space`,
/// what `str::trim` removes) that starts at `i`, before `hi`; zero if none.
pub open spec fn space_width(d: Seq<u8>, i: int, hi: int) -> int {
    if 0 <= i < hi <= d.len() {
        if is_space(d[i]) {
            1
        } else if i + 1 < hi && is_space2(d[i], d[i + 1]) {
            2
        } else if i + 2 < hi && is_space3(d[i], d[i + 1], d[i + 2]) {
            3
        } else {
            0
        }
    } else {
        0
    }
}

/// The byte length of the white space character that ends at `j`, not
/// before `lo`; zero if none.
pub open spec fn space_width_before(d: Seq<u8>, lo: int, j: int) -> int {
    if 0 <= lo < j <= d.len() {
        if is_space(d[j - 1]) {
            1
        } else if lo <= j - 2 && is_space2(d[j - 2], d[j - 1]) {
            2
        } else if lo <= j - 3 && is_space3(d[j - 3], d[j - 2], d[j - 1]) {
            3
        } else {
            0
        }
    } else {
        0
    }
}

/// The first position at or after `i`, before `hi`, where no white space
/// character starts.
pub open spec fn skip_space(d: Seq<u8>, i: int, hi: int) -> int
    decreases hi - i,
{
    if space_width(d, i, hi) > 0 {
        skip_space(d, i + space_width(d, i, hi), hi)
    } else {
        i
    }
}

/// The position, not before `lo`, where the white space characters that end
/// at `j` begin.
pub open spec fn trim_back(d: Seq<u8>, lo: int, j: int) -> int
    decreases j - lo,
{
    if space_width_before(d, lo, j) > 0 {
        trim_back(d, lo, j - space_width_before(d, lo, j))
    } else {
        j
    }
}

fn space_width_at(text: &[u8], i: usize, hi: usize) -> (r: usize)
    requires
        i <= hi <= text@.len(),
    ensures
        r == space_width(text@, i as int, hi as int),
{
    if i >= hi {
        return 0;
    }
    let a = text[i];
    if a == 32u8 || (9u8 <= a && a <= 13u8) {
        1
    } else if hi - i > 1 && a == 0xC2u8 && (text[i + 1] == 0x85u8 || text[i + 1] == 0xA0u8) {
        2
    } else if hi - i > 2 && is_space3_at(text[i], text[i + 1], text[i + 2]) {
        3
    } else {
        0
    }
}

fn space_width_end(text: &[u8], lo: usize, j: usize) -> (r: usize)
    requires
        lo <= j <= text@.len(),
    ensures
        r == space_width_before(text@, lo as int, j as int),
{
    if lo >= j {
        return 0;
    }
    let c = text[j - 1];
    if c == 32u8 || (9u8 <= c && c <= 13u8) {
        1
    } else if j - lo >= 2 && text[j - 2] == 0xC2u8 && (c == 0x85u8 || c == 0xA0u8) {
        2
    } else if j - lo >= 3 && is_space3_at(text[j - 3], text[j - 2], c) {
        3
    } else {
        0
    }
}

fn is_space3_at(a: u8, b: u8, c: u8) -> (r: bool)
    ensures
        r == is_space3(a, b, c),
{
    (a == 0xE1u8 && b == 0x9Au8 && c == 0x80u8) || (a == 0xE2u8 && b == 0x80u8 && ((0x80u8 <= c
        && c <= 0x8Au8) || c == 0xA8u8 || c == 0xA9u8 || c == 0xAFu8)) || (a == 0xE2u8 && b
        == 0x81u8 && c == 0x9Fu8) || (a == 0xE3u8 && b == 0x80u8 && c == 0x80u8)
}

/// The entries of a list of paths from position `p` on, as spans of `d`:
/// each line with surrounding whitespace removed, leaving out empty lines
/// and lines that start with `#`.
pub open spec fn list_entries(d: Seq<u8>, p: int) -> Seq<(usize, usize)>
    decreases d.len() - p,
{
    if p < 0 || p >= d.len() {
        Seq::empty()
    } else {
        let e = line_end(d, p);
        let a = skip_space(d, p, e);
        let b = trim_back(d, a, e);
        (if a < b && d[a] != COMMENT {
            seq![(a as usize, b as usize)]
        } else {
            Seq::<(usize, usize)>::empty()
        }) + list_entries(d, if p <= e < d.len() { e + 1 } else { d.len() as int })
    }
}

/// The entries of a list of paths, as spans of `text`: one per line, with
/// surrounding whitespace removed, leaving out empty lines and comments.
pub fn list_entries_of(text: &[u8]) -> (r: Vec<(usize, usize)>)
    ensures
        r@ == list_entries(text@, 0),
{
    let ghost d = text@;
    let n = text.len();
    let mut out: Vec<(usize, usize)> = Vec::new();
    let mut p: usize = 0;
    while p < n
        invariant
            d == text@,
            n == d.len(),
            p <= n,
            out@ + list_entries(d, p as int) == list_entries(d, 0),
        decreases n - p,
    {
        proof {
            lemma_line_end_bounds(d, p as int);
        }
        let rest = slice_subrange(text, p, n);
        let e = match find_byte(NEWLINE, rest) {
            Some(i) => {
                proof {
                    assert forall|j: int| p <= j < p + i implies d[j] != NEWLINE by {
                        assert(rest@[j - p] == d[j]);
                    }
                    assert(rest@[i as int] == d[p + i]);
                    lemma_line_end_from(d, p as int, p + i);
                }
                p + i
            },
            None => {
                proof {
                    assert forall|j: int| p <= j < n implies d[j] != NEWLINE by {
                        assert(rest@[j - p] == d[j]);
                    }
                    lemma_line_end_from(d, p as int, n as int);
                }
                n
            },
        };
        let mut a = p;
        let mut w = space_width_at(text, a, e);
        while w > 0
            invariant
                d == text@,
                n == d.len(),
                p <= a <= e <= n,
                e == line_end(d, p as int),
                w == space_width(d, a as int, e as int),
                skip_space(d, p as int, e as int) == skip_space(d, a as int, e as int),
            decreases e - a,
        {
            a = a + w;
            w = space_width_at(text, a, e);
        }
        let mut b = e;
        let mut v = space_width_end(text, a, b);
        while v > 0
            invariant
                d == text@,
                n == d.len(),
                p <= a <= b <= e <= n,
                a == skip_space(d, p as int, e as int),
                v == space_width_before(d, a as int, b as int),
                trim_back(d, a as int, e as int) == trim_back(d, a as int, b as int),
            decreases b - a,
        {
            b = b - v;
            v = space_width_end(text, a, b);
        }
        proof {
            assert(skip_space(d, a as int, e as int) == a);
            assert(trim_back(d, a as int, b as int) == b);
            assert(list_entries(d, n as int) == Seq::<(usize, usize)>::empty());
            assert(list_entries(d, n + 1) == Seq::<(usize, usize)>::empty());
            let piece = if a < b && d[a as int] != COMMENT {
                seq![(a, b)]
            } else {
                Seq::<(usize, usize)>::empty()
            };
            assert(list_entries(d, p as int) == piece + list_entries(d, e + 1));
        }
        if a < b && text[a] != COMMENT {
            proof {
                assert(out@.push((a, b)) + list_entries(d, e + 1) =~= out@ + (seq![(a, b)]
                    + list_entries(d, e + 1)));
            }
            out.push((a, b));
        } else {
            proof {
                assert(out@ + (Seq::<(usize, usize)>::empty() + list_entries(d, e + 1)) =~= out@
                    + list_entries(d, e + 1));
            }
        }
        if e == n {
            proof {
                assert(list_entries(d, e + 1) == Seq::<(usize, usize)>::empty());
            }
            p = n;
        } else {
            p = e + 1;
        }
    }
    proof {
        assert(list_entries(d, p as int) == Seq::<(usize, usize)>::empty());
        assert(out@ + Seq::<(usize, usize)>::empty() =~= out@);
    }
    out
}

} // verus!
