use fxtools::common::{complement_base, min_count, reverse_complement_base};
use fxtools::gaps::{split_gaps, GapStats, gap_report};

#[test]
fn contig_gap_split_scenario() {
    let seq = b"ACGTNNNNNNNNNNACGT";
    let sp = split_gaps(seq, 5).unwrap();
    assert_eq!(sp.gaps, vec![(4, 14)]);
    assert_eq!(sp.contigs, vec![(0, 4), (14, 18)]);
    let mut st = GapStats::new();
    st.add_record(seq, 5, 0).unwrap();
    assert_eq!(st.lens, vec![18]);
    assert_eq!(st.gap_lens, vec![10]);
    assert_eq!(st.ctg_lens, vec![4, 4]);
    assert_eq!(st.ctg_total + st.gap_total, st.total);
}

#[test]
fn short_runs_are_not_gaps() {
    let sp = split_gaps(b"nnAnnnnnCNNNNNN", 5).unwrap();
    assert_eq!(sp.gaps, vec![(3, 8), (9, 15)]);
    assert_eq!(sp.contigs, vec![(0, 3), (8, 9)]);
    let sp = split_gaps(b"ACGT", 1).unwrap();
    assert!(sp.gaps.is_empty());
    assert_eq!(sp.contigs, vec![(0, 4)]);
    let sp = split_gaps(b"NNNN", 2).unwrap();
    assert_eq!(sp.gaps, vec![(0, 4)]);
    assert!(sp.contigs.is_empty());
    let sp = split_gaps(b"", 3).unwrap();
    assert!(sp.gaps.is_empty() && sp.contigs.is_empty());
}

#[test]
fn gap_lengths_add_up() {
    let records: Vec<&[u8]> = vec![b"NNNNNACGTNNNNN", b"ACNNNNNNG", b"AC", b"NNNNNNNN"];
    let mut st = GapStats::new();
    for r in &records {
        st.add_record(r, 3, 0).unwrap();
    }
    assert_eq!(st.total, 14 + 9 + 2 + 8);
    assert_eq!(st.ctg_total + st.gap_total, st.total);
    assert_eq!(st.gap_lens, vec![5, 5, 6, 8]);
    assert_eq!(st.ctg_lens, vec![4, 2, 1, 2]);
    let rep = gap_report(st, 0);
    assert_eq!(rep.lens, vec![2, 8, 9, 14]);
    assert_eq!(rep.gap_lens, vec![5, 5, 6, 8]);
    assert_eq!(rep.ctg_lens, vec![1, 2, 2, 4]);
    assert_eq!(rep.nx.len[0], 14);
    assert_eq!(rep.gap_nx.count[0], 1);
}

#[test]
fn short_records_are_passed_over_in_gap_mode() {
    let mut st = GapStats::new();
    assert!(st.add_record(b"ACG", 2, 4).is_none());
    assert!(st.add_record(b"ACGT", 2, 4).is_none());
    assert!(st.add_record(b"ACGTN", 2, 4).is_some());
    assert_eq!(st.lens, vec![5]);
    assert!(st.add_record(b"", 2, 0).is_none());
    assert!(st.add_record(b"A", 2, 0).is_some());
    assert_eq!(st.lens, vec![5, 1]);
}

#[test]
fn complements() {
    assert_eq!(complement_base('A'), 'T');
    assert_eq!(complement_base('c'), 'g');
    assert_eq!(complement_base('N'), 'N');
    assert_eq!(complement_base('R'), 'Y');
    assert_eq!(complement_base('`'), '@');
    assert_eq!(complement_base('-'), '-');
    assert_eq!(reverse_complement_base('G'), 'C');
    assert_eq!(reverse_complement_base('u'), 'a');
}

#[test]
fn sample_count_is_capped() {
    assert_eq!(min_count(&[3, 4]), 7);
    assert_eq!(min_count(&[]), 0);
    assert_eq!(min_count(&[1500]), 1000);
    assert_eq!(min_count(&[999, 5]), 1000);
    assert_eq!(min_count(&[1200, 0, 7, 9]), 1002);
}
