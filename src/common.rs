use vstd::prelude::*;

verus! {

/// The most records counted over all inputs before the count stops.
pub const SAMPLE_CAP: usize = 1000;

/// The complement of an IUPAC nucleotide letter, case kept; `` ` `` maps to
/// `@`, and every other character to itself.
pub open spec fn complement_spec(b: char) -> char {
    match b {
        'A' => 'T',
        'B' => 'V',
        'C' => 'G',
        'D' => 'H',
        'G' => 'C',
        'H' => 'D',
        'K' => 'M',
        'M' => 'K',
        'R' => 'Y',
        'T' => 'A',
        'U' => 'A',
        'V' => 'B',
        'Y' => 'R',
        '`' => '@',
        'a' => 't',
        'b' => 'v',
        'c' => 'g',
        'd' => 'h',
        'g' => 'c',
        'h' => 'd',
        'k' => 'm',
        'm' => 'k',
        'r' => 'y',
        't' => 'a',
        'u' => 'a',
        'v' => 'b',
        'y' => 'r',
        _ => b,
    }
}

/// The complement of one base, by the table over the first 256 code points.
pub fn complement_base(b: char) -> (r: char)
    requires
        (b as u32) < 256,
    ensures
        r == complement_spec(b),
{
    match b {
        'A' => 'T',
        'B' => 'V',
        'C' => 'G',
        'D' => 'H',
        'G' => 'C',
        'H' => 'D',
        'K' => 'M',
        'M' => 'K',
        'R' => 'Y',
        'T' => 'A',
        'U' => 'A',
        'V' => 'B',
        'Y' => 'R',
        '`' => '@',
        'a' => 't',
        'b' => 'v',
        'c' => 'g',
        'd' => 'h',
        'g' => 'c',
        'h' => 'd',
        'k' => 'm',
        'm' => 'k',
        'r' => 'y',
        't' => 'a',
        'u' => 'a',
        'v' => 'b',
        'y' => 'r',
        _ => b,
    }
}

/// The reverse complement of a single base is its complement.
pub fn reverse_complement_base(b: char) -> (r: char)
    requires
        (b as u32) < 256,
    ensures
        r == complement_spec(b),
{
    complement_base(b)
}

/// The count after reading the records of inputs with `counts` records each,
/// starting from `n`: an input adds its records one by one until the count
/// reaches the cap, and then still its first record.
pub open spec fn capped_count(counts: Seq<usize>, n: int) -> int
    decreases counts.len(),
{
    if counts.len() == 0 {
        n
    } else {
        let next = if counts[0] == 0 {
            n
        } else if n >= SAMPLE_CAP {
            n + 1
        } else if n + counts[0] >= SAMPLE_CAP {
            SAMPLE_CAP as int
        } else {
            n + counts[0]
        };
        capped_count(counts.subrange(1, counts.len() as int), next)
    }
}

/// How many records a sample is drawn from, given the number of records of
/// each input: they are counted in order and the count stops growing
/// within an input once it reaches the cap.
pub fn min_count(counts: &[usize]) -> (r: usize)
    requires
        counts@.len() <= usize::MAX - SAMPLE_CAP,
    ensures
        r == capped_count(counts@, 0),
{
    let mut n: usize = 0;
    let mut i: usize = 0;
    proof {
        assert(counts@.subrange(0, counts@.len() as int) =~= counts@);
    }
    while i < counts.len()
        invariant
            i <= counts@.len(),
            counts@.len() <= usize::MAX - SAMPLE_CAP,
            n <= SAMPLE_CAP + i,
            capped_count(counts@, 0) == capped_count(counts@.subrange(i as int, counts@.len() as int), n as int),
        decreases counts@.len() - i,
    {
        let c = counts[i];
        proof {
            let t = counts@.subrange(i as int, counts@.len() as int);
            assert(t[0] == c);
            assert(t.subrange(1, t.len() as int) =~= counts@.subrange(i + 1, counts@.len() as int));
        }
        if c == 0 {
        } else if n >= SAMPLE_CAP {
            n = n + 1;
        } else if c >= SAMPLE_CAP - n {
            n = SAMPLE_CAP;
        } else {
            n = n + c;
        }
        i = i + 1;
    }
    proof {
        assert(counts@.subrange(i as int, counts@.len() as int).len() == 0);
    }
    n
}

} // verus!
