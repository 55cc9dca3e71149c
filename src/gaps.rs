use vstd::prelude::*;
use crate::stats::{seq_sum, sorted, lemma_sum_push, lemma_sum_permutation, reference_of, Nx, sort_lengths};

verus! {

pub open spec fn is_gap_base(b: u8) -> bool {
    b == 78u8 || b == 110u8
}

/// `v` lists, left to right and without overlap, exactly the maximal runs of
/// `N`/`n` in `d` that are at least `n` long.
pub open spec fn gap_runs(d: Seq<u8>, n: int, v: Seq<(usize, usize)>) -> bool {
    &&& forall|k: int|
        0 <= k < v.len() ==> v[k].0 < v[k].1 <= d.len() && v[k].1 - v[k].0 >= n
    &&& forall|k: int, j: int|
        #![trigger v[k], d[j]]
        0 <= k < v.len() && v[k].0 <= j < v[k].1 ==> is_gap_base(d[j])
    &&& forall|k: int|
        0 <= k < v.len() ==> (v[k].0 == 0 || !is_gap_base(d[v[k].0 - 1])) && (v[k].1 == d.len()
            || !is_gap_base(d[v[k].1 as int]))
    &&& forall|k: int, l: int| 0 <= k < l < v.len() ==> v[k].1 <= v[l].0
    &&& forall|p: int|
        0 <= p && p + n <= d.len() && #[trigger] all_gap(d, p, p + n) ==> covered(v, p, p + n)
}

/// Every byte of `d` from `p` up to `q` is `N` or `n`.
pub open spec fn all_gap(d: Seq<u8>, p: int, q: int) -> bool {
    forall|j: int| p <= j < q ==> is_gap_base(d[j])
}

/// Some span of `v` holds the stretch from `p` up to `q`.
pub open spec fn covered(v: Seq<(usize, usize)>, p: int, q: int) -> bool {
    exists|k: int| 0 <= k < v.len() && v[k].0 <= p && q <= v[k].1
}

/// Whether the case-insensitive pattern `N{n,}` compiles within regex's
/// size limits; it depends on `n` alone.
pub uninterp spec fn gap_pattern_compiles(n: usize) -> bool;

/// Relies on regex's `bytes::Regex` with the case-insensitive pattern
/// `N{n,}`: `find_iter` yields the leftmost-first, non-overlapping, greedy
/// matches, which for this pattern are the maximal runs of `N`/`n` at least
/// `n` long. `None` when the pattern cannot be compiled.
#[verifier::external_body]
fn find_gap_runs(seq: &[u8], n: usize) -> (r: Option<Vec<(usize, usize)>>)
    requires
        n >= 1,
    ensures
        r is Some <==> gap_pattern_compiles(n),
        r matches Some(v) ==> gap_runs(seq@, n as int, v@),
{
    match regex::bytes::Regex::new(&format!("(?i)N{{{},}}", n)) {
        Ok(re) => Some(re.find_iter(seq).map(|m| (m.start(), m.end())).collect()),
        Err(_) => None,
    }
}

/// Total length of a list of half-open spans.
pub open spec fn span_total(v: Seq<(usize, usize)>) -> int
    decreases v.len(),
{
    if v.len() == 0 {
        0
    } else {
        (v[0].1 - v[0].0) + span_total(v.subrange(1, v.len() as int))
    }
}

/// The non-empty spans between `last` and the gaps `v`, and after the last
/// gap up to `len`.
pub open spec fn between(v: Seq<(usize, usize)>, last: int, len: int) -> Seq<(usize, usize)>
    decreases v.len(),
{
    if v.len() == 0 {
        if len > last {
            seq![(last as usize, len as usize)]
        } else {
            Seq::empty()
        }
    } else {
        (if v[0].0 > last {
            seq![(last as usize, v[0].0)]
        } else {
            Seq::<(usize, usize)>::empty()
        }) + between(v.subrange(1, v.len() as int), v[0].1 as int, len)
    }
}

pub proof fn lemma_span_total_add(a: Seq<(usize, usize)>, b: Seq<(usize, usize)>)
    ensures
        span_total(a + b) == span_total(a) + span_total(b),
    decreases a.len(),
{
    if a.len() > 0 {
        assert((a + b).subrange(1, (a + b).len() as int) =~= a.subrange(1, a.len() as int) + b);
        assert((a + b)[0] == a[0]);
        lemma_span_total_add(a.subrange(1, a.len() as int), b);
    } else {
        assert(a + b =~= b);
    }
}

proof fn lemma_cover(v: Seq<(usize, usize)>, last: int, len: int)
    requires
        0 <= last <= len <= usize::MAX,
        forall|k: int| #![trigger v[k]] 0 <= k < v.len() ==> last <= v[k].0 < v[k].1 <= len,
        forall|k: int, l: int| 0 <= k < l < v.len() ==> v[k].1 <= v[l].0,
    ensures
        span_total(between(v, last, len)) + span_total(v) == len - last,
    decreases v.len(),
{
    if v.len() == 0 {
        if len > last {
            let t = seq![(last as usize, len as usize)];
            assert(t.subrange(1, 1) =~= Seq::<(usize, usize)>::empty());
            assert(span_total(Seq::<(usize, usize)>::empty()) == 0);
            assert(t[0] == (last as usize, len as usize));
            assert(span_total(t) == len - last);
        }
    } else {
        let rest = v.subrange(1, v.len() as int);
        let head = if v[0].0 > last {
            seq![(last as usize, v[0].0)]
        } else {
            Seq::<(usize, usize)>::empty()
        };
        assert forall|k: int| #![trigger rest[k]] 0 <= k < rest.len() implies v[0].1 <= rest[k].0 < rest[k].1 <= len by {
            assert(rest[k] == v[k + 1]);
        }
        assert forall|k: int, l: int| 0 <= k < l < rest.len() implies rest[k].1 <= rest[l].0 by {
            assert(rest[k] == v[k + 1] && rest[l] == v[l + 1]);
        }
        lemma_cover(rest, v[0].1 as int, len);
        lemma_span_total_add(head, between(rest, v[0].1 as int, len));
        if v[0].0 > last {
            assert(head.subrange(1, 1) =~= Seq::<(usize, usize)>::empty());
            assert(span_total(Seq::<(usize, usize)>::empty()) == 0);
            assert(head[0] == (last as usize, v[0].0));
            assert(span_total(head) == v[0].0 - last);
        } else {
            assert(span_total(head) == 0);
        }
        assert(between(v, last, len) == head + between(rest, v[0].1 as int, len));
        assert(span_total(v) == (v[0].1 - v[0].0) + span_total(rest));
    }
}

/// A record cut into contigs and the gaps between them.
pub struct GapSplit {
    pub contigs: Vec<(usize, usize)>,
    pub gaps: Vec<(usize, usize)>,
}

impl GapSplit {
    pub open spec fn describes(&self, d: Seq<u8>, n: int) -> bool {
        &&& gap_runs(d, n, self.gaps@)
        &&& self.contigs@ == between(self.gaps@, 0, d.len() as int)
    }
}

/// Cuts `seq` at every run of at least `n_len` `N`/`n`: the runs are the gaps,
/// the non-empty stretches around them the contigs. `None` when the search
/// pattern for such runs cannot be compiled.
pub fn split_gaps(seq: &[u8], n_len: usize) -> (r: Option<GapSplit>)
    requires
        n_len >= 1,
    ensures
        r is Some <==> gap_pattern_compiles(n_len),
        r matches Some(sp) ==> sp.describes(seq@, n_len as int),
{
    let found = find_gap_runs(seq, n_len);
    match found {
        None => None,
        Some(gaps) => {
            let ghost v = gaps@;
            let ghost len = seq@.len() as int;
            let m = gaps.len();
            let mut contigs: Vec<(usize, usize)> = Vec::new();
            let mut last: usize = 0;
            let mut k: usize = 0;
            proof {
                assert(v.subrange(0, m as int) =~= v);
            }
            while k < m
                invariant
                    v == gaps@,
                    m == v.len(),
                    len == seq@.len(),
                    k <= m,
                    gap_runs(seq@, n_len as int, v),
                    last <= len,
                    k > 0 ==> last == v[k - 1].1,
                    k == 0 ==> last == 0,
                    forall|j: int| k <= j < m ==> last <= v[j].0,
                    contigs@ + between(v.subrange(k as int, m as int), last as int, len) == between(
                        v,
                        0,
                        len,
                    ),
                decreases m - k,
            {
                let (s, e) = gaps[k];
                let ghost rest = v.subrange(k + 1, m as int);
                let ghost piece = if s > last {
                    seq![(last, s)]
                } else {
                    Seq::<(usize, usize)>::empty()
                };
                proof {
                    let cur = v.subrange(k as int, m as int);
                    assert(cur[0] == v[k as int]);
                    assert(cur.subrange(1, cur.len() as int) =~= rest);
                    assert(between(cur, last as int, len) == piece + between(rest, e as int, len));
                    assert forall|j: int| k + 1 <= j < m implies e <= v[j].0 by {
                        assert(v[k as int].1 <= v[j].0);
                    }
                }
                if s > last {
                    contigs.push((last, s));
                }
                proof {
                    assert(contigs@ + between(rest, e as int, len) =~= between(v, 0, len));
                }
                last = e;
                k = k + 1;
            }
            if seq.len() > last {
                contigs.push((last, seq.len()));
            }
            proof {
                assert(v.subrange(m as int, m as int) =~= Seq::<(usize, usize)>::empty());
                assert(contigs@ =~= between(v, 0, len));
            }
            Some(GapSplit { contigs, gaps })
        },
    }
}

/// In contig/gap mode, for every record, the contig lengths and the gap
/// lengths add up to the record's length.
pub proof fn lemma_split_covers_record(d: Seq<u8>, n: int, sp: &GapSplit)
    requires
        sp.describes(d, n),
        d.len() <= usize::MAX,
    ensures
        span_total(sp.contigs@) + span_total(sp.gaps@) == d.len(),
{
    let v = sp.gaps@;
    lemma_cover(v, 0, d.len() as int);
}

/// The lengths of a list of spans.
pub open spec fn span_lens(v: Seq<(usize, usize)>) -> Seq<u64> {
    v.map_values(|p: (usize, usize)| (p.1 - p.0) as u64)
}

/// Appends the length of each span to `lens`, adding them to `total`.
fn push_span_lengths(lens: &mut Vec<u64>, total: &mut u64, spans: &Vec<(usize, usize)>)
    requires
        forall|k: int| #![trigger spans@[k]] 0 <= k < spans@.len() ==> spans@[k].0 <= spans@[k].1,
        *old(total) == seq_sum(old(lens)@),
        *old(total) + span_total(spans@) <= u64::MAX,
    ensures
        final(lens)@ == old(lens)@ + span_lens(spans@),
        *final(total) == seq_sum(final(lens)@),
        *final(total) == *old(total) + span_total(spans@),
{
    let ghost l0 = lens@;
    let ghost t0 = *total as int;
    let ghost v = spans@;
    let m = spans.len();
    let mut k: usize = 0;
    proof {
        assert(span_lens(v.subrange(0, 0)) =~= Seq::<u64>::empty());
        assert(l0 + Seq::<u64>::empty() =~= l0);
        assert(v.subrange(0, m as int) =~= v);
        lemma_span_total_prefix(v, 0);
    }
    while k < m
        invariant
            v == spans@,
            m == v.len(),
            k <= m,
            forall|j: int| #![trigger v[j]] 0 <= j < v.len() ==> v[j].0 <= v[j].1,
            lens@ == l0 + span_lens(v.subrange(0, k as int)),
            *total == seq_sum(lens@),
            *total == t0 + span_total(v.subrange(0, k as int)),
            t0 + span_total(v) <= u64::MAX,
        decreases m - k,
    {
        let (a, b) = spans[k];
        proof {
            lemma_span_total_prefix(v, k as int);
            lemma_span_total_le(v, k + 1);
            lemma_sum_push(lens@, (b - a) as u64);
            assert(span_lens(v.subrange(0, k + 1)) =~= span_lens(v.subrange(0, k as int)).push(
                (b - a) as u64,
            ));
        }
        lens.push((b - a) as u64);
        *total = *total + (b - a) as u64;
        k = k + 1;
        proof {
            assert(lens@ =~= l0 + span_lens(v.subrange(0, k as int)));
        }
    }
    proof {
        assert(v.subrange(0, m as int) =~= v);
    }
}

proof fn lemma_span_total_prefix(v: Seq<(usize, usize)>, k: int)
    requires
        0 <= k < v.len() || k == 0,
    ensures
        k < v.len() ==> span_total(v.subrange(0, k + 1)) == span_total(v.subrange(0, k)) + (v[k].1
            - v[k].0),
        k == 0 ==> span_total(v.subrange(0, 0)) == 0,
    decreases k,
{
    if k == 0 {
        assert(v.subrange(0, 0).len() == 0);
        if v.len() > 0 {
            let t = v.subrange(0, 1);
            assert(t.subrange(1, 1) =~= Seq::<(usize, usize)>::empty());
            assert(span_total(Seq::<(usize, usize)>::empty()) == 0);
        }
    } else if k < v.len() {
        let w = v.subrange(1, v.len() as int);
        lemma_span_total_prefix(w, k - 1);
        assert(v.subrange(0, k + 1).subrange(1, k + 1) =~= w.subrange(0, k));
        assert(v.subrange(0, k).subrange(1, k) =~= w.subrange(0, k - 1));
        assert(w[k - 1] == v[k]);
    }
}

proof fn lemma_span_total_le(v: Seq<(usize, usize)>, k: int)
    requires
        0 <= k <= v.len(),
        forall|j: int| #![trigger v[j]] 0 <= j < v.len() ==> v[j].0 <= v[j].1,
    ensures
        span_total(v.subrange(0, k)) <= span_total(v),
        span_total(v.subrange(0, k)) >= 0,
    decreases v.len() - k,
{
    if k < v.len() {
        lemma_span_total_le(v, k + 1);
        lemma_span_total_prefix(v, k);
        let w = v.subrange(0, k);
        assert forall|j: int| #![trigger w[j]] 0 <= j < w.len() implies w[j].0 <= w[j].1 by {
            assert(w[j] == v[j]);
        }
        lemma_span_total_nonneg(w);
    } else {
        assert(v.subrange(0, k) =~= v);
        lemma_span_total_nonneg(v);
    }
}

proof fn lemma_span_total_nonneg(v: Seq<(usize, usize)>)
    requires
        forall|j: int| #![trigger v[j]] 0 <= j < v.len() ==> v[j].0 <= v[j].1,
    ensures
        span_total(v) >= 0,
    decreases v.len(),
{
    if v.len() > 0 {
        let w = v.subrange(1, v.len() as int);
        assert forall|j: int| #![trigger w[j]] 0 <= j < w.len() implies w[j].0 <= w[j].1 by {
            assert(w[j] == v[j + 1]);
        }
        lemma_span_total_nonneg(w);
    }
}

/// The lengths gathered in contig/gap mode: whole records (scaffolds), their
/// contigs and their gaps.
#[derive(Clone)]
pub struct GapStats {
    pub lens: Vec<u64>,
    pub total: u64,
    pub ctg_lens: Vec<u64>,
    pub ctg_total: u64,
    pub gap_lens: Vec<u64>,
    pub gap_total: u64,
}

impl GapStats {
    pub open spec fn wf(&self) -> bool {
        &&& self.total == seq_sum(self.lens@)
        &&& self.ctg_total == seq_sum(self.ctg_lens@)
        &&& self.gap_total == seq_sum(self.gap_lens@)
        &&& self.ctg_total + self.gap_total == self.total
    }

    pub fn new() -> (r: GapStats)
        ensures
            r.wf(),
            r.lens@.len() == 0,
            r.ctg_lens@.len() == 0,
            r.gap_lens@.len() == 0,
    {
        GapStats {
            lens: Vec::new(),
            total: 0,
            ctg_lens: Vec::new(),
            ctg_total: 0,
            gap_lens: Vec::new(),
            gap_total: 0,
        }
    }

    /// Takes one record: one no longer than `min_len` is passed over; otherwise
    /// its length, its contigs' lengths and its gaps' lengths are appended,
    /// and the split is returned. `None` also when the gap pattern cannot be
    /// compiled, and then nothing changes.
    pub fn add_record(&mut self, seq: &[u8], n_len: usize, min_len: usize) -> (r: Option<GapSplit>)
        requires
            old(self).wf(),
            n_len >= 1,
            old(self).total + seq@.len() <= u64::MAX,
        ensures
            final(self).wf(),
            seq@.len() <= min_len ==> r is None,
            seq@.len() > min_len && gap_pattern_compiles(n_len) ==> r is Some,
            r is None ==> final(self).lens@ == old(self).lens@ && final(self).ctg_lens@ == old(
                self,
            ).ctg_lens@ && final(self).gap_lens@ == old(self).gap_lens@,
            r matches Some(sp) ==> {
                &&& sp.describes(seq@, n_len as int)
                &&& final(self).lens@ == old(self).lens@.push(seq@.len() as u64)
                &&& final(self).ctg_lens@ == old(self).ctg_lens@ + span_lens(sp.contigs@)
                &&& final(self).gap_lens@ == old(self).gap_lens@ + span_lens(sp.gaps@)
            },
    {
        if seq.len() <= min_len {
            return None;
        }
        let split = split_gaps(seq, n_len);
        match split {
            None => None,
            Some(sp) => {
                proof {
                    lemma_split_covers_record(seq@, n_len as int, &sp);
                    lemma_between_ordered(sp.gaps@, 0, seq@.len() as int);
                    let g = sp.gaps@;
                    assert forall|j: int| #![trigger g[j]] 0 <= j < g.len() implies g[j].0 <= g[j].1 by {}
                    lemma_span_total_nonneg(g);
                    lemma_span_total_nonneg(sp.contigs@);
                    lemma_sum_push(self.lens@, seq.len() as u64);
                }
                self.lens.push(seq.len() as u64);
                self.total = self.total + seq.len() as u64;
                push_span_lengths(&mut self.ctg_lens, &mut self.ctg_total, &sp.contigs);
                push_span_lengths(&mut self.gap_lens, &mut self.gap_total, &sp.gaps);
                Some(sp)
            },
        }
    }
}

proof fn lemma_between_ordered(v: Seq<(usize, usize)>, last: int, len: int)
    requires
        0 <= last <= len <= usize::MAX,
        forall|k: int| #![trigger v[k]] 0 <= k < v.len() ==> last <= v[k].0 < v[k].1 <= len,
        forall|k: int, l: int| 0 <= k < l < v.len() ==> v[k].1 <= v[l].0,
    ensures
        forall|j: int| #![trigger between(v, last, len)[j]]
            0 <= j < between(v, last, len).len() ==> between(v, last, len)[j].0 <= between(
                v,
                last,
                len,
            )[j].1,
    decreases v.len(),
{
    if v.len() > 0 {
        let rest = v.subrange(1, v.len() as int);
        assert forall|k: int| #![trigger rest[k]] 0 <= k < rest.len() implies v[0].1 <= rest[k].0 < rest[k].1 <= len by {
            assert(rest[k] == v[k + 1]);
        }
        assert forall|k: int, l: int| 0 <= k < l < rest.len() implies rest[k].1 <= rest[l].0 by {
            assert(rest[k] == v[k + 1] && rest[l] == v[l + 1]);
        }
        lemma_between_ordered(rest, v[0].1 as int, len);
        let head = if v[0].0 > last {
            seq![(last as usize, v[0].0)]
        } else {
            Seq::<(usize, usize)>::empty()
        };
        let tail = between(rest, v[0].1 as int, len);
        let b = between(v, last, len);
        assert(b == head + tail);
        assert forall|j: int| #![trigger b[j]] 0 <= j < b.len() implies b[j].0 <= b[j].1 by {
            if j >= head.len() {
                assert(b[j] == tail[j - head.len()]);
            }
        }
    } else {
        let b = between(v, last, len);
        if len > last {
            assert(b[0] == (last as usize, len as usize));
        }
    }
}

/// The sorted lengths and Nx tables of contig/gap mode.
pub struct GapReport {
    pub lens: Vec<u64>,
    pub ctg_lens: Vec<u64>,
    pub gap_lens: Vec<u64>,
    pub total: u64,
    pub ctg_total: u64,
    pub gap_total: u64,
    pub nx: Nx,
    pub ctg_nx: Nx,
    pub gap_nx: Nx,
}

/// Sorts the three length lists and computes their Nx tables: scaffolds and
/// contigs against the genome size when one is given (else their own
/// totals), gaps against their own total.
pub fn gap_report(st: GapStats, genome_len: u64) -> (r: GapReport)
    requires
        st.wf(),
        st.total <= u64::MAX,
    ensures
        sorted(r.lens@) && r.lens@.to_multiset() == st.lens@.to_multiset(),
        sorted(r.ctg_lens@) && r.ctg_lens@.to_multiset() == st.ctg_lens@.to_multiset(),
        sorted(r.gap_lens@) && r.gap_lens@.to_multiset() == st.gap_lens@.to_multiset(),
        r.total == st.total && r.ctg_total == st.ctg_total && r.gap_total == st.gap_total,
        r.nx.describes(r.lens@, reference_of(st.total as int, genome_len)),
        r.ctg_nx.describes(r.ctg_lens@, reference_of(st.ctg_total as int, genome_len)),
        r.gap_nx.describes(r.gap_lens@, st.gap_total as int),
{
    let GapStats { lens, total, ctg_lens, ctg_total, gap_lens, gap_total } = st;
    let mut lens = lens;
    let mut ctg_lens = ctg_lens;
    let mut gap_lens = gap_lens;
    let ghost l0 = lens@;
    let ghost c0 = ctg_lens@;
    let ghost g0 = gap_lens@;
    sort_lengths(&mut lens);
    sort_lengths(&mut ctg_lens);
    sort_lengths(&mut gap_lens);
    proof {
        lemma_sum_permutation(lens@, l0);
        lemma_sum_permutation(ctg_lens@, c0);
        lemma_sum_permutation(gap_lens@, g0);
    }
    let reference = if genome_len > 0 {
        genome_len
    } else {
        total
    };
    let ctg_reference = if genome_len > 0 {
        genome_len
    } else {
        ctg_total
    };
    let nx = Nx::fill(lens.as_slice(), reference);
    let ctg_nx = Nx::fill(ctg_lens.as_slice(), ctg_reference);
    let gap_nx = Nx::fill(gap_lens.as_slice(), gap_total);
    GapReport { lens, ctg_lens, gap_lens, total, ctg_total, gap_total, nx, ctg_nx, gap_nx }
}

} // verus!
