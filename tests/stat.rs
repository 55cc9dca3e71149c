use fxtools::buffer::Buffer;
use fxtools::parser::{ParserState, Phase, StatError};
use fxtools::stats::{at_least, length_report, His, Nx};

fn lengths(input: &[u8], capacity: usize, min_len: usize) -> Result<Vec<u64>, StatError> {
    let mut st = ParserState::new();
    st.scan_file(input, capacity, min_len)?;
    Ok(st.lens)
}

#[test]
fn fasta_two_records() {
    let input = b">a\nACGT\n>b\nAC\n";
    let lens = lengths(input, 1024, 0).unwrap();
    assert_eq!(lens, vec![4, 2]);
    let rep = length_report(lens, 0).unwrap();
    assert_eq!(rep.total, 6);
    assert_eq!(rep.min, 2);
    assert_eq!(rep.max, 4);
    assert_eq!(rep.average, 3);
    assert_eq!(rep.lens, vec![2, 4]);
}

#[test]
fn fastq_quality_is_skipped() {
    let lens = lengths(b"@a\nACGTN\n+\n!!!!!\n", 1024, 0).unwrap();
    assert_eq!(lens, vec![5]);
    // quality bytes that look like headers or separators are never read as such
    let lens = lengths(b"@a\nACGT\n+\n@>+@\n@b\nAC\n+\n>>\n", 1024, 0).unwrap();
    assert_eq!(lens, vec![4, 2]);
}

#[test]
fn every_buffer_capacity_gives_the_same_lengths() {
    let inputs: Vec<&[u8]> = vec![
        b">a desc\nACGT\nAC\n\n>b\nNNNNNNNNNN\nA\n>c\n",
        b"@r1\nACGTACGT\n+r1\nIIIIIIII\n@r2\nAC\n+\nII\n\n@r3\nA\n+\n@\n",
        b">x\nAAAA\nCCCC\nGG",
        b"@q\nACG\nTT\n+\nII\nIII\n@w\nA\n+\nI\n",
        b"@long\nACGTACGTACGTACGT\nACGT\n+\nIIIIIIIIII\nIIIIIIIIII\n\n@s\nACGTACGTACGT\n+\n@@@@@@@@@@@@\n",
    ];
    for input in inputs {
        let whole = lengths(input, input.len() + 1, 0).unwrap();
        for cap in 1..=input.len() + 2 {
            assert_eq!(lengths(input, cap, 0).unwrap(), whole, "capacity {}", cap);
        }
    }
}

#[test]
fn record_ending_at_buffer_boundary_counted_once() {
    let input = b">a\nACGT\n>b\nACG\n";
    // the first record's sequence line ends exactly at the end of the first fill
    let mut st = ParserState::new();
    let mut buf = Buffer::with_capacity(8);
    let n = buf.fill(input);
    assert_eq!(n, 8);
    st.parse_buffer(&mut buf, 0).unwrap();
    assert_eq!(st.phase, Phase::SeqStart);
    assert_eq!(st.len, 4);
    buf.fill(&input[8..]);
    st.parse_buffer(&mut buf, 0).unwrap();
    st.end_file(0).unwrap();
    assert_eq!(st.lens, vec![4, 3]);
    // without a trailing newline
    assert_eq!(lengths(b">a\nACGT", 7, 0).unwrap(), vec![4]);
    assert_eq!(lengths(b">a\nACGT", 4, 0).unwrap(), vec![4]);
}

#[test]
fn min_len_is_strict() {
    let input = b">a\nACGT\n>b\nAC\n>c\n\n";
    assert_eq!(lengths(input, 64, 0).unwrap(), vec![4, 2]);
    assert_eq!(lengths(input, 64, 2).unwrap(), vec![4]);
    assert_eq!(lengths(input, 64, 4).unwrap(), Vec::<u64>::new());
}

#[test]
fn not_fasta_is_rejected() {
    assert_eq!(lengths(b"ACGT\n", 64, 0), Err(StatError::Format));
    assert_eq!(lengths(b">a\nAC\n\nx\n", 64, 0), Ok(vec![3]));
    assert_eq!(lengths(b"@a\nAC\n+\nII\nxyz\n", 64, 0), Err(StatError::Format));
    assert_eq!(lengths(b"@a\nAC\n+\nII\nxyz\n", 3, 0), Err(StatError::Format));
}

#[test]
fn truncated_file_is_rejected() {
    assert_eq!(lengths(b"@a\nACGT\n+\nII", 64, 0), Err(StatError::Truncated));
    assert_eq!(lengths(b"@a\nACGT\n+", 64, 0), Err(StatError::Truncated));
    assert_eq!(lengths(b">a", 64, 0), Err(StatError::Truncated));
    assert_eq!(lengths(b"", 64, 0), Ok(vec![]));
}

#[test]
fn files_in_sequence_concatenate() {
    let first = b">a\nACGT\n";
    let second = b">b\nAC\n>c\nA\n";
    let mut st = ParserState::new();
    st.scan_file(first, 3, 0).unwrap();
    st.scan_file(second, 3, 0).unwrap();
    let mut joined = first.to_vec();
    joined.extend_from_slice(second);
    assert_eq!(st.lens, lengths(&joined, 5, 0).unwrap());
    assert_eq!(st.lens, vec![4, 2, 1]);
    assert_eq!(st.total, 7);
}

#[test]
fn file_end_closes_open_record() {
    // each file's last record closes at its end, even without a newline
    let mut st = ParserState::new();
    st.scan_file(b">a\nACG", 64, 0).unwrap();
    st.scan_file(b">b\nTT", 64, 0).unwrap();
    assert_eq!(st.lens, vec![3, 2]);
}

#[test]
fn buffer_line_and_skip_operations() {
    let mut buf = Buffer::with_capacity(16);
    assert!(buf.is_empty());
    buf.fill(b"\n\nab\ncd\nef");
    assert!(!buf.is_empty());
    assert_eq!(buf.next_byte(false), Some(b'\n'));
    assert_eq!(buf.next_byte(true), Some(b'a'));
    assert_eq!(buf.next_line_len(), Some((2, true)));
    assert_eq!(buf.skip_lines(5), 1);
    assert_eq!(buf.next_line_len(), None);
    buf.fill(b"AB\nCD\n\nE");
    assert_eq!(buf.skip_bases(3), 3);
    assert_eq!(buf.next_byte(false), Some(b'D'));
    assert_eq!(buf.skip_bases(10), 2);
    assert_eq!(buf.next_byte(false), None);
    buf.fill(b"\n\n\nX");
    assert_eq!(buf.skip_newlines(), 3);
    assert!(!buf.cursor_at_end());
    assert_eq!(Buffer::new().is_empty(), true);
}

#[test]
fn bulk_skip_counts_newlines_in_the_stretch() {
    let mut buf = Buffer::with_capacity(64);
    buf.fill(b"ACGTACGTAC\nGT\nX");
    assert_eq!(buf.skip_bases(12), 12);
    assert_eq!(buf.next_byte(false), Some(b'X'));
    buf.fill(b"AAAAAAAAAAAAB");
    assert_eq!(buf.skip_bases(10), 10);
    assert_eq!(buf.next_byte(false), Some(b'A'));
    buf.fill(b"AAAAAAAAAA\n\n\nB");
    assert_eq!(buf.skip_bases(10), 10);
    assert_eq!(buf.next_byte(false), Some(b'B'));
    buf.fill(b"A\nA\nA\nA\nA\nA\n");
    assert_eq!(buf.skip_bases(11), 6);
    assert!(buf.cursor_at_end());
}

#[test]
fn fastq_long_quality_scores() {
    let input = b"@r\nACGTACGTACGTACGTACGT\n+\nIIIIIIIIII\nIIIIIIIIII\n@t\nAC\n+\nII\n";
    assert_eq!(lengths(input, 1024, 0).unwrap(), vec![20, 2]);
    assert_eq!(lengths(input, 7, 0).unwrap(), vec![20, 2]);
}

#[test]
fn buffer_fill_takes_what_fits() {
    let mut buf = Buffer::with_capacity(4);
    assert_eq!(buf.fill(b"ABCDEFG"), 4);
    assert_eq!(buf.next_line_len(), Some((4, false)));
    assert_eq!(buf.fill(b"XY"), 2);
    assert_eq!(buf.next_byte(false), Some(b'X'));
}

#[test]
fn nx_table_values() {
    // lengths 1..=10, total 55
    let lens: Vec<u64> = (1..=10).collect();
    let nx = Nx::fill(&lens, 55);
    // running sums from the top: 10, 19, 27, 34, 40, 45, 49, 52, 54, 55
    assert_eq!(nx.count, vec![1, 2, 2, 3, 4, 4, 5, 6, 8, 10]);
    assert_eq!(nx.len, vec![10, 9, 9, 8, 7, 7, 6, 5, 3, 0]);
    for i in 0..8 {
        assert!(nx.count[i] <= nx.count[i + 1]);
    }
    // the same input twice gives the same table
    let again = Nx::fill(&lens, 55);
    assert_eq!(again.count, nx.count);
    assert_eq!(again.len, nx.len);
}

#[test]
fn nx_with_genome_larger_than_total() {
    let nx = Nx::fill(&[4], 100);
    assert_eq!(nx.count, vec![1, 0, 0, 0, 0, 0, 0, 0, 0, 0]);
    assert_eq!(nx.len, vec![0; 10]);
    let nx = Nx::fill(&[], 0);
    assert_eq!(nx.count, vec![0; 10]);
}

#[test]
fn nx_single_sequence_crosses_many_deciles() {
    let nx = Nx::fill(&[1, 100], 101);
    assert_eq!(nx.count, vec![1, 1, 1, 1, 1, 1, 1, 1, 1, 2]);
    assert_eq!(nx.len, vec![100, 100, 100, 100, 100, 100, 100, 100, 100, 0]);
}

#[test]
fn histogram_buckets() {
    let lens: Vec<u64> = vec![2, 4];
    let h = His::of_lengths(&lens);
    assert_eq!(h.step, 1);
    assert_eq!(h.start, 2);
    assert_eq!(h.unit, 5);
    assert_eq!(h.min, 2);
    assert_eq!(h.max, 4);
    assert_eq!(h.count.len(), 30);
    assert_eq!(h.count[1], 1);
    assert_eq!(h.count[3], 1);
    assert_eq!(h.count.iter().sum::<usize>(), 2);

    let lens: Vec<u64> = (0..300).map(|x| x * 10).collect();
    let h = His::of_lengths(&lens);
    // range taken from entries 2 and 298: (2980 - 20) / 28 = 105
    assert_eq!(h.step, 105);
    assert_eq!(h.start, 0);
    assert_eq!(h.unit, 5);
    assert_eq!(h.count[0], 0);
    assert_eq!(h.count[1], 11);
    assert_eq!(h.count[29], 300 - h.count[..29].iter().sum::<usize>());
    let again = His::of_lengths(&lens);
    assert_eq!(again.count, h.count);
}

#[test]
fn histogram_new_fields() {
    let h = His::new(100, 3000, 2000);
    assert_eq!(h.step, 103);
    assert_eq!(h.start, 0);
    assert_eq!(h.unit, 10);
    let h = His::new(5, 5, 1);
    assert_eq!(h.step, 1);
    assert_eq!(h.start, 5);
    let h = His::new(7, 7, 0).fill(&[]);
    assert_eq!(h.min, 0);
    assert_eq!(h.max, u64::MAX);
}

#[test]
fn report_of_nothing_is_none() {
    assert!(length_report(vec![], 0).is_none());
}

#[test]
fn report_uses_genome_size() {
    let rep = length_report(vec![4, 2], 100).unwrap();
    assert_eq!(rep.nx.count[0], 2);
    assert_eq!(rep.nx.len[0], 0);
    let rep = length_report(vec![2, 4], 0).unwrap();
    assert_eq!(rep.nx.count[0], 1);
    assert_eq!(rep.nx.len[0], 4);
    assert_eq!(rep.nx.len[5], 4);
    assert_eq!(rep.nx.len[6], 2);
}

#[test]
fn threshold_totals() {
    let lens = vec![5000u64, 10000, 150000, 2000000];
    assert_eq!(at_least(&lens, 10000), (3, 2160000));
    assert_eq!(at_least(&lens, 100000), (2, 2150000));
    assert_eq!(at_least(&lens, 1000000), (1, 2000000));
    assert_eq!(at_least(&[], 1), (0, 0));
}
