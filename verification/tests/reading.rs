use nailpolish::bytes::ByteReader;
use nailpolish::preset::{get_barcode_regex, PresetBarcodeFormats};
use nailpolish::reader::FastQReader;

#[test]
fn byte_reader_walks_lines() {
    let mut r = ByteReader::new(b"ab\ncd".to_vec());
    assert_eq!(r.next_byte(), Some(b'a'));
    let mut buf: Vec<u8> = Vec::new();
    let n = r.read_until(b'\n', &mut buf);
    assert_eq!(n, 2);
    assert_eq!(buf, b"b\n".to_vec());
    let mut line: Vec<u8> = Vec::new();
    let (consumed, eof) = r.read_line_trim_newline(&mut line);
    assert_eq!((consumed, eof), (2, true));
    assert_eq!(line, b"cd".to_vec());
    assert_eq!(r.next_byte(), None);
}

#[test]
fn byte_reader_applies_chunks() {
    let mut r = ByteReader::new(b"abcdefghijklmnopqrstuvwxyz0123456789\nrest".to_vec());
    let mut chunks: Vec<Vec<u8>> = Vec::new();
    let consumed = r.apply_on_slice_until_byte(b'\n', |s: &[u8]| chunks.push(s.to_vec()));
    assert_eq!(consumed, 37);
    assert_eq!(chunks.len(), 3);
    assert_eq!(chunks[0].len(), 16);
    assert_eq!(chunks[2], b"6789".to_vec());

    let mut r2 = ByteReader::new(b"xyz;tail".to_vec());
    let mut seen: Vec<u8> = Vec::new();
    let n = r2.apply_until_byte(b';', |b| seen.push(b));
    assert_eq!(n, 4);
    assert_eq!(seen, b"xyz".to_vec());
}

#[test]
fn byte_reader_reads_text_line() {
    let mut r = ByteReader::new(b"hello\nworld".to_vec());
    let mut s = String::new();
    assert_eq!(r.read_line(&mut s), Some(6));
    assert_eq!(s, "hello\n");

    let mut bad = ByteReader::new(vec![0xff, 0xfe, b'\n']);
    let mut t = String::new();
    assert_eq!(bad.read_line(&mut t), None);
    assert_eq!(t, "");
}

#[test]
fn presets_and_reader_defaults() {
    let re = get_barcode_regex(&PresetBarcodeFormats::BcUmi);
    assert_eq!(re, "^([ATCG]{16})_([ATCG]{12})");
    assert_eq!(get_barcode_regex(&PresetBarcodeFormats::UmiTools), "_([ATCG]+)$");
    assert_eq!(get_barcode_regex(&PresetBarcodeFormats::Illumina), ":([ATCG]+)$");
    let r = FastQReader::new("sample.fastq".to_string());
    assert_eq!(r.options.bc, 16);
    assert_eq!(r.options.umi, 12);
    assert_eq!(r.filename, "sample.fastq");
}
