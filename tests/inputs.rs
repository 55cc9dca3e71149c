use flate2::read::MultiGzDecoder;
use flate2::write::GzEncoder;
use flate2::Compression;
use fxtools::parser::ParserState;
use fxtools::path::{is_gzip, is_record_stream, list_entries_of};
use fxtools::stats::length_report;
use std::io::{Read, Write};

fn gzip(data: &[u8]) -> Vec<u8> {
    let mut enc = GzEncoder::new(Vec::new(), Compression::default());
    enc.write_all(data).unwrap();
    enc.finish().unwrap()
}

fn lengths(input: &[u8]) -> Vec<u64> {
    let mut st = ParserState::new();
    st.scan_file(input, 5, 0).unwrap();
    st.lens
}

#[test]
fn gzip_input_gives_same_statistics() {
    let plain = b">a\nACGT\n>b\nAC\n";
    let packed = gzip(plain);
    assert!(is_gzip(&packed[..2]));
    assert!(!is_gzip(&plain[..2]));
    let mut unpacked = Vec::new();
    MultiGzDecoder::new(&packed[..]).read_to_end(&mut unpacked).unwrap();
    assert!(is_record_stream(unpacked[0]));
    let a = length_report(lengths(plain), 0).unwrap();
    let b = length_report(lengths(&unpacked), 0).unwrap();
    assert_eq!(a.lens, b.lens);
    assert_eq!(a.total, b.total);
    assert_eq!(a.nx.count, b.nx.count);
    assert_eq!(a.nx.len, b.nx.len);
    assert_eq!(a.hist.count, b.hist.count);
}

#[test]
fn multi_member_gzip_is_read_whole() {
    let mut packed = gzip(b">a\nACGT\n");
    packed.extend(gzip(b">b\nAC\n"));
    let mut unpacked = Vec::new();
    MultiGzDecoder::new(&packed[..]).read_to_end(&mut unpacked).unwrap();
    assert_eq!(lengths(&unpacked), vec![4, 2]);
}

#[test]
fn stream_kind_from_first_byte() {
    assert!(is_record_stream(b'>'));
    assert!(is_record_stream(b'@'));
    assert!(!is_record_stream(b'a'));
    assert!(!is_record_stream(b'#'));
    assert!(!is_gzip(&[0x1f]));
    assert!(is_gzip(&[0x1f, 0x8b, 0x08]));
}

#[test]
fn file_list_entries() {
    let text = b"one.fa\n# a comment\n\n  two.fq.gz \r\n\t\nsub/three.fa";
    let spans = list_entries_of(text);
    let names: Vec<&[u8]> = spans.iter().map(|&(a, b)| &text[a..b]).collect();
    assert_eq!(names, vec![&b"one.fa"[..], &b"two.fq.gz"[..], &b"sub/three.fa"[..]]);
    let text = "\u{a0}four.fa\u{3000}\n\u{2003}# note\u{85}\n\u{1680}\u{205f}\n five\u{2029}".as_bytes();
    let spans = list_entries_of(text);
    let names: Vec<&[u8]> = spans.iter().map(|&(a, b)| &text[a..b]).collect();
    assert_eq!(names, vec![&b"four.fa"[..], &b"five"[..]]);
    for line in ["\u{a0}x\u{202f}", "\t\u{2000}x\u{200a} ", "\u{2028}x"] {
        let spans = list_entries_of(line.as_bytes());
        assert_eq!(spans.len(), 1);
        assert_eq!(&line.as_bytes()[spans[0].0..spans[0].1], line.trim().as_bytes());
    }
    assert!(list_entries_of(b"").is_empty());
    assert!(list_entries_of(b"\n\n#x\n  \n").is_empty());
}

#[test]
fn file_list_concatenates_in_order() {
    let first: &[u8] = b">a\nACGT\n>b\nAC";
    let second: &[u8] = b"@c\nACG\n+\nIII\n";
    let list = b"first.fa\nsecond.fq\n";
    let files = [("first.fa", first), ("second.fq", second)];
    let mut st = ParserState::new();
    for (a, b) in list_entries_of(list) {
        let name = std::str::from_utf8(&list[a..b]).unwrap();
        let data = files.iter().find(|f| f.0 == name).unwrap().1;
        st.scan_file(data, 4, 0).unwrap();
    }
    assert_eq!(st.lens, vec![4, 2, 3]);
    let mut joined = first.to_vec();
    joined.push(b'\n');
    joined.extend_from_slice(second);
    assert_eq!(st.lens, lengths(&joined));
}
