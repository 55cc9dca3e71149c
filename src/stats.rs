use vstd::prelude::*;
use rayon::slice::ParallelSliceMut;

verus! {

pub const DECILES: usize = 10;

pub const BIN_COUNT: usize = 30;

pub const UNIT_BIN: usize = 200;

/// Sum of a sequence of lengths.
pub open spec fn seq_sum(s: Seq<u64>) -> int
    decreases s.len(),
{
    if s.len() == 0 {
        0
    } else {
        s[0] + seq_sum(s.subrange(1, s.len() as int))
    }
}

pub open spec fn sorted(s: Seq<u64>) -> bool {
    forall|i: int, j: int| 0 <= i <= j < s.len() ==> s[i] <= s[j]
}

/// Sum of the `k` largest entries of an ascending sequence (its last `k`).
pub open spec fn top_sum(s: Seq<u64>, k: int) -> int {
    seq_sum(s.subrange(s.len() - k, s.len() as int))
}

/// Taking the `k` largest sequences reaches past `(i + 1) / 10` of `reference`.
pub open spec fn crosses(s: Seq<u64>, reference: int, i: int, k: int) -> bool {
    10 * top_sum(s, k) > (i + 1) * reference
}

/// The least `k' >= k` (at most the length of `s`) at which decile `i` is
/// crossed, or the length plus one when there is none.
pub open spec fn cross_at(s: Seq<u64>, reference: int, i: int, k: int) -> int
    decreases s.len() + 1 - k,
{
    if k > s.len() || k < 0 {
        s.len() + 1int
    } else if crosses(s, reference, i, k) {
        k
    } else {
        cross_at(s, reference, i, k + 1)
    }
}

pub open spec fn decile_crossed(s: Seq<u64>, reference: int, i: int) -> bool {
    cross_at(s, reference, i, 1) <= s.len()
}

/// The count of decile `i`: how many of the largest sequences it takes to
/// cross it. Past the last crossed decile the first slot holds the number of
/// sequences, and the later slots zero.
pub open spec fn nx_count(s: Seq<u64>, reference: int, i: int) -> int {
    if decile_crossed(s, reference, i) {
        cross_at(s, reference, i, 1)
    } else if i == 0 || decile_crossed(s, reference, i - 1) {
        s.len() as int
    } else {
        0
    }
}

/// The length of decile `i`: the sequence at which it is crossed, or zero.
pub open spec fn nx_len(s: Seq<u64>, reference: int, i: int) -> u64 {
    if decile_crossed(s, reference, i) {
        s[s.len() - cross_at(s, reference, i, 1)]
    } else {
        0
    }
}

pub proof fn lemma_sum_push(s: Seq<u64>, x: u64)
    ensures
        seq_sum(s.push(x)) == seq_sum(s) + x,
    decreases s.len(),
{
    if s.len() > 0 {
        assert(s.push(x).subrange(1, s.len() + 1int) =~= s.subrange(1, s.len() as int).push(x));
        assert(s.push(x)[0] == s[0]);
        lemma_sum_push(s.subrange(1, s.len() as int), x);
        assert(seq_sum(s.push(x)) == s.push(x)[0] + seq_sum(s.push(x).subrange(1, s.push(x).len() as int)));
    } else {
        assert(s.push(x).subrange(1, 1) =~= Seq::<u64>::empty());
        assert(s.push(x)[0] == x);
        assert(seq_sum(s.push(x).subrange(1, 1)) == 0);
    }
}

proof fn lemma_sum_remove(s: Seq<u64>, j: int)
    requires
        0 <= j < s.len(),
    ensures
        seq_sum(s) == s[j] + seq_sum(s.remove(j)),
    decreases j,
{
    if j == 0 {
        assert(s.remove(0) =~= s.subrange(1, s.len() as int));
    } else {
        let r = s.remove(j);
        let t = s.subrange(1, s.len() as int);
        assert(r.subrange(1, r.len() as int) =~= t.remove(j - 1));
        assert(r[0] == s[0]);
        lemma_sum_remove(t, j - 1);
    }
}

/// Sequences holding the same values have the same sum.
pub proof fn lemma_sum_permutation(s: Seq<u64>, t: Seq<u64>)
    requires
        s.to_multiset() == t.to_multiset(),
    ensures
        seq_sum(s) == seq_sum(t),
    decreases s.len(),
{
    broadcast use vstd::seq_lib::group_to_multiset_ensures;

    if s.len() == 0 {
        assert(s.to_multiset().len() == 0);
        assert(t.len() == t.to_multiset().len());
        assert(t.len() == 0);
    } else {
        let a = s[0];
        assert(s.contains(a));
        assert(t.to_multiset().count(a) > 0);
        assert(t.contains(a));
        let j = choose|j: int| 0 <= j < t.len() && t[j] == a;
        let s1 = s.remove(0);
        let t1 = t.remove(j);
        assert(s1.to_multiset() == t1.to_multiset());
        lemma_sum_permutation(s1, t1);
        lemma_sum_remove(s, 0);
        lemma_sum_remove(t, j);
    }
}

proof fn lemma_top_sum_step(s: Seq<u64>, k: int)
    requires
        0 <= k < s.len(),
    ensures
        top_sum(s, k + 1) == s[s.len() - 1 - k] + top_sum(s, k),
{
    let t = s.subrange(s.len() - 1 - k, s.len() as int);
    assert(t.subrange(1, t.len() as int) =~= s.subrange(s.len() - k, s.len() as int));
}

proof fn lemma_top_sum_mono(s: Seq<u64>, k1: int, k2: int)
    requires
        0 <= k1 <= k2 <= s.len(),
    ensures
        top_sum(s, k1) <= top_sum(s, k2),
    decreases k2 - k1,
{
    if k1 < k2 {
        lemma_top_sum_step(s, k2 - 1);
        lemma_top_sum_mono(s, k1, k2 - 1);
    }
}

proof fn lemma_top_sum_all(s: Seq<u64>)
    ensures
        top_sum(s, s.len() as int) == seq_sum(s),
{
    assert(s.subrange(0, s.len() as int) =~= s);
}

proof fn lemma_crosses_mono(s: Seq<u64>, reference: int, i: int, j: int, k1: int, k2: int)
    requires
        0 <= i <= j,
        0 <= k1 <= k2 <= s.len(),
        reference >= 0,
        crosses(s, reference, j, k1),
    ensures
        crosses(s, reference, i, k2),
{
    lemma_top_sum_mono(s, k1, k2);
    assert((i + 1) * reference <= (j + 1) * reference) by (nonlinear_arith)
        requires
            0 <= i <= j,
            reference >= 0,
    ;
}

proof fn lemma_cross_at_props(s: Seq<u64>, reference: int, i: int, k: int)
    requires
        0 <= k <= s.len() + 1,
    ensures
        k <= cross_at(s, reference, i, k) <= s.len() + 1,
        cross_at(s, reference, i, k) <= s.len() ==> crosses(
            s,
            reference,
            i,
            cross_at(s, reference, i, k),
        ),
        forall|m: int| k <= m < cross_at(s, reference, i, k) ==> !crosses(s, reference, i, m),
    decreases s.len() + 1 - k,
{
    if k <= s.len() && !crosses(s, reference, i, k) {
        lemma_cross_at_props(s, reference, i, k + 1);
    }
}

/// Fixes `cross_at` from a point at which the decile is crossed and before
/// which it is not.
proof fn lemma_cross_at_is(s: Seq<u64>, reference: int, i: int, k: int, m: int)
    requires
        0 <= k <= m <= s.len(),
        crosses(s, reference, i, m),
        forall|j: int| k <= j < m ==> !crosses(s, reference, i, j),
    ensures
        cross_at(s, reference, i, k) == m,
    decreases m - k,
{
    if k < m {
        lemma_cross_at_is(s, reference, i, k + 1, m);
    }
}

/// Relies on rayon's `par_sort_unstable`: the slice ends up in ascending
/// order, holding the same values.
#[verifier::external_body]
pub(crate) fn sort_lengths(v: &mut Vec<u64>)
    ensures
        sorted(final(v)@),
        final(v)@.to_multiset() == old(v)@.to_multiset(),
{
    v.par_sort_unstable();
}

/// Slot `j` of a table under construction, after `k` sequences, holds its final values.
pub open spec fn slot_ok(s: Seq<u64>, reference: int, j: int, c: int, l: u64, k: int) -> bool {
    &&& decile_crossed(s, reference, j)
    &&& c == cross_at(s, reference, j, 1)
    &&& cross_at(s, reference, j, 1) <= k
    &&& l == nx_len(s, reference, j)
}

/// Whether `acc` exceeds `(i + 1) / 10` of `reference`.
fn decile_reached(acc: u64, i: usize, reference: u64) -> (r: bool)
    requires
        i < DECILES,
    ensures
        r == (10 * acc > (i + 1) * reference),
{
    proof {
        assert((i as int + 1) * (reference as int) <= 10 * (reference as int)) by (nonlinear_arith)
            requires
                i < 10,
                reference >= 0,
        ;
    }
    (acc as u128) * 10 > (i as u128 + 1) * (reference as u128)
}

/// The Nx table: for each decile, how many of the longest sequences it takes
/// to cover it, and the length at which it is covered.
pub struct Nx {
    pub count: Vec<usize>,
    pub len: Vec<u64>,
}

impl Nx {
    pub open spec fn describes(&self, s: Seq<u64>, reference: int) -> bool {
        &&& self.count@.len() == DECILES
        &&& self.len@.len() == DECILES
        &&& forall|i: int|
            0 <= i < DECILES ==> self.count@[i] == nx_count(s, reference, i) && self.len@[i]
                == nx_len(s, reference, i)
    }

    /// Walks the ascending `lens` from the largest down, accumulating their
    /// sum, and records each decile of `reference` where the sum first
    /// exceeds it.
    #[verifier::rlimit(40)]
    pub fn fill(lens: &[u64], reference: u64) -> (r: Nx)
        requires
            sorted(lens@),
            seq_sum(lens@) <= u64::MAX,
        ensures
            r.describes(lens@, reference as int),
    {
        let ghost s = lens@;
        let ghost rf = reference as int;
        let n = lens.len();
        let mut count: Vec<usize> = vec![0usize; DECILES];
        let mut len: Vec<u64> = vec![0u64; DECILES];
        let mut i: usize = 0;
        let mut k: usize = 0;
        let mut acc: u64 = 0;
        proof {
            assert(s.subrange(n as int, n as int) =~= Seq::<u64>::empty());
            lemma_top_sum_all(s);
        }
        while k < n && i < DECILES
            invariant
                s == lens@,
                rf == reference as int,
                n == s.len(),
                k <= n,
                i <= DECILES,
                count@.len() == DECILES,
                len@.len() == DECILES,
                acc as int == top_sum(s, k as int),
                seq_sum(s) <= u64::MAX,
                top_sum(s, n as int) == seq_sum(s),
                forall|j: int| 0 <= j < i ==> slot_ok(s, rf, j, count@[j] as int, len@[j], k as int),
                i < DECILES ==> count@[i as int] == k && len@[i as int] == 0 && forall|m: int|
                    0 <= m <= k ==> !crosses(s, rf, i as int, m),
                forall|j: int| i < j < DECILES ==> count@[j] == 0 && len@[j] == 0,
            decreases n - k,
        {
            let v = lens[n - 1 - k];
            proof {
                lemma_top_sum_step(s, k as int);
                lemma_top_sum_mono(s, k + 1, n as int);
            }
            acc = acc + v;
            k = k + 1;
            let ghost old_count = count@;
            count.set(i, count[i] + 1);
            assert forall|j: int| 0 <= j < i implies slot_ok(s, rf, j, count@[j] as int, len@[j], k as int) by {
                assert(old_count[j] == count@[j]);
                assert(slot_ok(s, rf, j, old_count[j] as int, len@[j], k - 1));
            }
            while i < DECILES && decile_reached(acc, i, reference)
                invariant
                    s == lens@,
                    rf == reference as int,
                    n == s.len(),
                    1 <= k <= n,
                    i <= DECILES,
                    count@.len() == DECILES,
                    len@.len() == DECILES,
                    acc as int == top_sum(s, k as int),
                    v == s[n - k],
                    forall|j: int| 0 <= j < i ==> slot_ok(s, rf, j, count@[j] as int, len@[j], k as int),
                    i < DECILES ==> count@[i as int] == k && len@[i as int] == 0 && forall|m: int|
                        0 <= m < k ==> !crosses(s, rf, i as int, m),
                    forall|j: int| i < j < DECILES ==> count@[j] == 0 && len@[j] == 0,
                decreases DECILES - i,
            {
                proof {
                    assert(crosses(s, rf, i as int, k as int));
                    lemma_cross_at_is(s, rf, i as int, 1, k as int);
                }
                len.set(i, v);
                i = i + 1;
                if i < DECILES {
                    count.set(i, count[i - 1]);
                    proof {
                        assert forall|m: int| 0 <= m < k implies !crosses(s, rf, i as int, m) by {
                            if crosses(s, rf, i as int, m) {
                                lemma_crosses_mono(s, rf, (i - 1) as int, i as int, m, m);
                            }
                        }
                    }
                }
            }
        }
        proof {
            if i < DECILES {
                assert(k == n);
                assert forall|j: int| i <= j < DECILES implies !decile_crossed(s, rf, j) by {
                    lemma_cross_at_props(s, rf, j, 1);
                    if decile_crossed(s, rf, j) {
                        let m = cross_at(s, rf, j, 1);
                        lemma_crosses_mono(s, rf, i as int, j, m, n as int);
                    }
                }
            }
        }
        proof {
            assert forall|j: int| 0 <= j < DECILES implies count@[j] == nx_count(s, rf, j) && len@[j]
                == nx_len(s, rf, j) by {
                if j < i {
                    assert(slot_ok(s, rf, j, count@[j] as int, len@[j], k as int));
                } else if j == i {
                    assert(!decile_crossed(s, rf, j));
                    if j > 0 {
                        assert(slot_ok(s, rf, j - 1, count@[j - 1] as int, len@[j - 1], k as int));
                    }
                } else {
                    assert(!decile_crossed(s, rf, j));
                    assert(!decile_crossed(s, rf, j - 1));
                }
            }
        }
        Nx { count, len }
    }
}


/// The bucket width for lengths from `lo` to `hi`: the range over the inner
/// buckets, at least one.
pub open spec fn hist_step(lo: u64, hi: u64) -> int {
    if (hi - lo) / (BIN_COUNT - 2) < 1 {
        1
    } else {
        (hi - lo) / (BIN_COUNT - 2)
    }
}

/// The bucket of length `v`: the first bucket takes what lies below `start`,
/// the last what lies past the others.
pub open spec fn bucket(start: int, step: int, v: int) -> int {
    if v < start {
        0
    } else if (v - start) / step + 1 >= BIN_COUNT - 1 {
        BIN_COUNT - 1
    } else {
        (v - start) / step + 1
    }
}

/// How many entries of `s` fall in bucket `b`.
pub open spec fn bucket_count(s: Seq<u64>, start: int, step: int, b: int) -> int
    decreases s.len(),
{
    if s.len() == 0 {
        0
    } else {
        (if bucket(start, step, s[0] as int) == b {
            1int
        } else {
            0int
        }) + bucket_count(s.subrange(1, s.len() as int), start, step, b)
    }
}

/// How many entries of `s` are at least `m`.
pub open spec fn count_at_least(s: Seq<u64>, m: u64) -> int
    decreases s.len(),
{
    if s.len() == 0 {
        0
    } else {
        (if s[0] >= m {
            1int
        } else {
            0int
        }) + count_at_least(s.subrange(1, s.len() as int), m)
    }
}

/// The sum of the entries of `s` that are at least `m`.
pub open spec fn sum_at_least(s: Seq<u64>, m: u64) -> int
    decreases s.len(),
{
    if s.len() == 0 {
        0
    } else {
        (if s[0] >= m {
            s[0] as int
        } else {
            0int
        }) + sum_at_least(s.subrange(1, s.len() as int), m)
    }
}

proof fn lemma_suffix_step(s: Seq<u64>, i: int)
    requires
        0 <= i < s.len(),
    ensures
        s.subrange(i, s.len() as int)[0] == s[i],
        s.subrange(i, s.len() as int).subrange(1, s.len() - i) =~= s.subrange(
            i + 1,
            s.len() as int,
        ),
{
}

proof fn lemma_sum_at_least_bound(s: Seq<u64>, m: u64)
    ensures
        0 <= sum_at_least(s, m) <= seq_sum(s),
        0 <= count_at_least(s, m) <= s.len(),
    decreases s.len(),
{
    if s.len() > 0 {
        lemma_sum_at_least_bound(s.subrange(1, s.len() as int), m);
    }
}

/// The histogram of lengths: `BIN_COUNT` buckets of width `step` from
/// `start`, with the least and greatest length seen.
pub struct His {
    /// How many sequences one `*` of the chart stands for.
    pub unit: usize,
    pub step: u64,
    pub start: u64,
    pub min: u64,
    pub max: u64,
    pub count: Vec<usize>,
}

impl His {
    /// A histogram with no counts yet, for lengths from `lo` to `hi` among
    /// `c` sequences.
    pub fn new(lo: u64, hi: u64, c: usize) -> (r: His)
        requires
            lo <= hi,
        ensures
            r.step == hist_step(lo, hi),
            r.start == lo as int / hist_step(lo, hi) * hist_step(lo, hi),
            r.unit == if c / UNIT_BIN < 5 {
                5
            } else {
                c / UNIT_BIN
            },
            r.min == 0,
            r.max == u64::MAX,
            r.count@ == Seq::new(BIN_COUNT as nat, |b: int| 0usize),
    {
        let d = (hi - lo) / (BIN_COUNT as u64 - 2);
        let step = if d < 1 {
            1
        } else {
            d
        };
        let q = lo / step;
        proof {
            assert(q * step <= lo) by (nonlinear_arith)
                requires
                    q == lo / step,
                    step >= 1,
            ;
        }
        let start = q * step;
        let unit = if c / UNIT_BIN < 5 {
            5
        } else {
            c / UNIT_BIN
        };
        let count = vec![0usize; BIN_COUNT];
        proof {
            assert(count@ =~= Seq::new(BIN_COUNT as nat, |b: int| 0usize));
        }
        His { unit, step, start, min: 0, max: u64::MAX, count }
    }

    /// Counts each length of `lens` in its bucket and records the least and
    /// greatest of the ascending `lens`.
    pub fn fill(self, lens: &[u64]) -> (r: His)
        requires
            self.step >= 1,
            self.count@ == Seq::new(BIN_COUNT as nat, |b: int| 0usize),
        ensures
            r.step == self.step,
            r.start == self.start,
            r.unit == self.unit,
            r.count@.len() == BIN_COUNT,
            forall|b: int|
                0 <= b < BIN_COUNT ==> r.count@[b] == bucket_count(
                    lens@,
                    self.start as int,
                    self.step as int,
                    b,
                ),
            lens@.len() > 0 ==> r.min == lens@[0] && r.max == lens@[lens@.len() - 1],
            lens@.len() == 0 ==> r.min == self.min && r.max == self.max,
    {
        let mut h = self;
        let ghost s = lens@;
        let ghost st = h.start as int;
        let ghost sp = h.step as int;
        let n = lens.len();
        let mut i: usize = n;
        proof {
            assert(s.subrange(n as int, n as int) =~= Seq::<u64>::empty());
        }
        while i > 0
            invariant
                s == lens@,
                n == s.len(),
                i <= n,
                st == h.start,
                sp == h.step,
                sp >= 1,
                h.step == self.step,
                h.start == self.start,
                h.unit == self.unit,
                h.min == self.min,
                h.max == self.max,
                h.count@.len() == BIN_COUNT,
                forall|b: int|
                    0 <= b < BIN_COUNT ==> h.count@[b] == bucket_count(
                        s.subrange(i as int, n as int),
                        st,
                        sp,
                        b,
                    ),
                forall|b: int| 0 <= b < BIN_COUNT ==> h.count@[b] <= n - i,
            decreases i,
        {
            i = i - 1;
            let v = lens[i];
            let idx: usize = if v < h.start {
                0
            } else if (v - h.start) / h.step >= BIN_COUNT as u64 - 2 {
                BIN_COUNT - 1
            } else {
                ((v - h.start) / h.step + 1) as usize
            };
            proof {
                lemma_suffix_step(s, i as int);
                assert(idx == bucket(st, sp, v as int));
            }
            let c = h.count[idx];
            h.count.set(idx, c + 1);
        }
        proof {
            assert(s.subrange(0, n as int) =~= s);
        }
        if n > 0 {
            h.min = lens[0];
            h.max = lens[n - 1];
        }
        h
    }

    pub open spec fn describes(&self, s: Seq<u64>) -> bool {
        let n = s.len() as int;
        let dev = n / (UNIT_BIN as int) * 2;
        let lo = s[dev];
        let hi = s[n - if dev < 1 {
            1
        } else {
            dev
        }];
        &&& self.step == hist_step(lo, hi)
        &&& self.start == lo as int / hist_step(lo, hi) * hist_step(lo, hi)
        &&& self.unit == if n / (UNIT_BIN as int) < 5 {
            5
        } else {
            n / (UNIT_BIN as int)
        }
        &&& self.min == s[0]
        &&& self.max == s[n - 1]
        &&& self.count@.len() == BIN_COUNT
        &&& forall|b: int|
            0 <= b < BIN_COUNT ==> self.count@[b] == bucket_count(
                s,
                self.start as int,
                self.step as int,
                b,
            )
    }

    /// The histogram of the ascending `lens`: its range is taken from a
    /// small fixed share of the entries in from each end.
    pub fn of_lengths(lens: &[u64]) -> (r: His)
        requires
            lens@.len() >= 1,
            sorted(lens@),
        ensures
            r.describes(lens@),
    {
        let n = lens.len();
        let dev = n / UNIT_BIN * 2;
        let back = if dev < 1 {
            1
        } else {
            dev
        };
        proof {
            assert(dev <= n / 100) by (nonlinear_arith)
                requires
                    dev == n / 200 * 2,
            ;
        }
        let lo = lens[dev];
        let hi = lens[n - back];
        His::new(lo, hi, n).fill(lens)
    }
}

/// The count and the sum of the lengths that are at least `min`.
pub fn at_least(lens: &[u64], min: u64) -> (r: (usize, u64))
    requires
        seq_sum(lens@) <= u64::MAX,
    ensures
        r.0 == count_at_least(lens@, min),
        r.1 == sum_at_least(lens@, min),
{
    let ghost s = lens@;
    let n = lens.len();
    let mut i: usize = n;
    let mut count: usize = 0;
    let mut total: u64 = 0;
    proof {
        assert(s.subrange(n as int, n as int) =~= Seq::<u64>::empty());
    }
    while i > 0
        invariant
            s == lens@,
            n == s.len(),
            i <= n,
            seq_sum(s) <= u64::MAX,
            count == count_at_least(s.subrange(i as int, n as int), min),
            total == sum_at_least(s.subrange(i as int, n as int), min),
        decreases i,
    {
        i = i - 1;
        proof {
            lemma_suffix_step(s, i as int);
            lemma_sum_at_least_bound(s.subrange(i as int, n as int), min);
            lemma_sum_at_least_bound(s, min);
            lemma_sum_at_least_split(s, i as int, min);
        }
        if lens[i] >= min {
            count = count + 1;
            total = total + lens[i];
        }
    }
    proof {
        assert(s.subrange(0, n as int) =~= s);
    }
    (count, total)
}

proof fn lemma_sum_at_least_split(s: Seq<u64>, i: int, m: u64)
    requires
        0 <= i <= s.len(),
    ensures
        sum_at_least(s.subrange(i, s.len() as int), m) <= sum_at_least(s, m),
    decreases i,
{
    if i > 0 {
        let t = s.subrange(1, s.len() as int);
        assert(t.subrange(i - 1, t.len() as int) =~= s.subrange(i, s.len() as int));
        lemma_sum_at_least_split(t, i - 1, m);
        lemma_sum_at_least_bound(t, m);
    } else {
        assert(s.subrange(0, s.len() as int) =~= s);
    }
}

/// The reference size for the Nx table: the genome size when one is given,
/// otherwise the total of the lengths.
pub open spec fn reference_of(total: int, genome_len: u64) -> int {
    if genome_len > 0 {
        genome_len as int
    } else {
        total
    }
}

/// The length statistics of one run.
pub struct Report {
    /// The accepted lengths in ascending order.
    pub lens: Vec<u64>,
    pub total: u64,
    pub min: u64,
    pub max: u64,
    pub average: u64,
    pub nx: Nx,
    pub hist: His,
}

impl Report {
    pub open spec fn describes(&self, input: Seq<u64>, genome_len: u64) -> bool {
        let s = self.lens@;
        &&& sorted(s)
        &&& s.to_multiset() == input.to_multiset()
        &&& s.len() >= 1
        &&& self.total == seq_sum(input)
        &&& self.min == s[0]
        &&& self.max == s[s.len() - 1]
        &&& self.average == seq_sum(input) / (s.len() as int)
        &&& self.nx.describes(s, reference_of(seq_sum(input), genome_len))
        &&& self.hist.describes(s)
    }
}

/// Sorts the accepted lengths and computes their statistics; `None` when
/// there are none, since there is nothing to report then.
pub fn length_report(lens: Vec<u64>, genome_len: u64) -> (r: Option<Report>)
    requires
        seq_sum(lens@) <= u64::MAX,
    ensures
        r is None <==> lens@.len() == 0,
        r matches Some(rep) ==> rep.describes(lens@, genome_len),
{
    let ghost input = lens@;
    let mut v = lens;
    sort_lengths(&mut v);
    proof {
        lemma_sum_permutation(v@, input);
        broadcast use vstd::seq_lib::group_to_multiset_ensures;
        assert(v@.len() == v@.to_multiset().len());
        assert(input.len() == input.to_multiset().len());
    }
    let n = v.len();
    if n == 0 {
        return None;
    }
    let ghost s = v@;
    let mut total: u64 = 0;
    let mut k: usize = 0;
    proof {
        assert(s.subrange(n as int, n as int) =~= Seq::<u64>::empty());
        lemma_top_sum_all(s);
    }
    while k < n
        invariant
            s == v@,
            n == s.len(),
            k <= n,
            total == top_sum(s, k as int),
            top_sum(s, n as int) == seq_sum(s),
            seq_sum(s) <= u64::MAX,
        decreases n - k,
    {
        proof {
            lemma_top_sum_step(s, k as int);
            lemma_top_sum_mono(s, k + 1, n as int);
        }
        total = total + v[n - 1 - k];
        k = k + 1;
    }
    let reference = if genome_len > 0 {
        genome_len
    } else {
        total
    };
    let nx = Nx::fill(v.as_slice(), reference);
    let hist = His::of_lengths(v.as_slice());
    let min = v[0];
    let max = v[n - 1];
    let average = total / (n as u64);
    Some(Report { lens: v, total, min, max, average, nx, hist })
}

/// The statistics are a function of the sorted lengths alone: two tables or
/// histograms that both meet the contract on the same input are identical.
pub proof fn lemma_tables_determined(
    a: &Nx,
    b: &Nx,
    ha: &His,
    hb: &His,
    s: Seq<u64>,
    reference: int,
)
    requires
        a.describes(s, reference),
        b.describes(s, reference),
        s.len() >= 1,
        ha.describes(s),
        hb.describes(s),
    ensures
        a.count@ == b.count@,
        a.len@ == b.len@,
        ha.count@ == hb.count@,
        ha.step == hb.step,
        ha.start == hb.start,
        ha.unit == hb.unit,
        ha.min == hb.min,
        ha.max == hb.max,
{
    assert forall|i: int| 0 <= i < DECILES implies a.count@[i] == b.count@[i] && a.len@[i]
        == b.len@[i] by {
        assert(a.count@[i] == nx_count(s, reference, i) && a.len@[i] == nx_len(s, reference, i));
        assert(b.count@[i] == nx_count(s, reference, i) && b.len@[i] == nx_len(s, reference, i));
    }
    assert(a.count@ =~= b.count@);
    assert(a.len@ =~= b.len@);
    assert(ha.count@ =~= hb.count@);
}

/// When the lengths reach the reported deciles (their sum is over nine
/// tenths of the reference, as it always is when the reference is their own
/// non-zero total): the counts never decrease from one decile to the next,
/// and the longest `count[i]` sequences sum past `(i + 1) / 10` of the
/// reference.
pub proof fn lemma_nx_monotone(s: Seq<u64>, reference: int, i: int)
    requires
        0 <= i < DECILES - 1,
        reference >= 0,
        10 * seq_sum(s) > 9 * reference,
    ensures
        nx_count(s, reference, i) <= nx_count(s, reference, i + 1),
        crosses(s, reference, i, nx_count(s, reference, i)),
{
    let r = reference;
    let n = s.len() as int;
    if n == 0 {
        assert(seq_sum(s) == 0);
    }
    lemma_top_sum_all(s);
    assert(crosses(s, r, i, n)) by (nonlinear_arith)
        requires
            10 * top_sum(s, n) > 9 * r,
            r >= 0,
            0 <= i < 9,
    ;
    lemma_cross_at_props(s, r, i, 1);
    lemma_cross_at_props(s, r, i + 1, 1);
    assert(decile_crossed(s, r, i));
    if decile_crossed(s, r, i + 1) {
        let m = cross_at(s, r, i + 1, 1);
        lemma_crosses_mono(s, r, i, i + 1, m, m);
    }
}

} // verus!
