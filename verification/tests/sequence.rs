use nailpolish::dna;
use nailpolish::kmer::BinaryKmer;
use nailpolish::sequence::DnaSeq;

#[test]
fn dna_to_u32_test1() {
    let v = vec![
        b'A', b'T', b'C', b'G', b'A', b'T', b'C', b'G', b'A', b'T', b'C', b'G', b'A', b'T',
        b'C', b'G',
    ];
    let bit_encoding = 0b11011000110110001101100011011000;

    assert_eq!(dna::dna_to_u32(v.as_slice().try_into().unwrap()), bit_encoding)
}

#[test]
fn dna_to_u32_test2() {
    let mut v = [0u8; 16];
    v[0] = b'T';

    assert_eq!(dna::dna_to_u32(&v), 0b00000000000000000000000000000010);
}

#[test]
fn empty_equality() {
    let s1 = DnaSeq::with_capacity(100);
    let s2 = DnaSeq::with_capacity(2);
    assert_eq!(s1, s2)
}

#[test]
fn check_equal() {
    let s1 = DnaSeq::from_string("ATCGABC");
    let s2 = DnaSeq::from_string("ATCGABC");
    assert_eq!(s1, s2)
}

#[test]
fn check_notequal() {
    let s1 = DnaSeq::from_string("ATCAAGC");
    let s2 = DnaSeq::from_string("ATCGAGC");
    assert_ne!(s1, s2);
}

#[test]
fn push() {
    let s1 = DnaSeq::from_string("ATCG");
    let mut s2 = DnaSeq::new();
    s2.push(b'A');
    s2.push(b'T');
    s2.push(b'C');
    s2.push(b'G');

    assert_eq!(s1, s2)
}

#[test]
fn push_iter() {
    let s1 = DnaSeq::from_string("ATCGCTA");
    let mut s2 = DnaSeq::new();
    s2.push_iter("ATCGCTA".as_bytes());
    assert_eq!(s1, s2)
}

#[test]
fn format() {
    let orig_seq = "ATCGACTC".to_string();
    let s = DnaSeq::from_string(&orig_seq);
    assert_eq!(s.to_string(), orig_seq);
    assert_eq!(s.to_string(), orig_seq)
}

#[test]
fn test_bit_order() {
    let s1 = DnaSeq::from_string("ATCG");
    let s2 = DnaSeq::from_string("GCTA");
    assert_ne!(s1, s2);
}

#[test]
fn to_ascii() {
    let s1 = DnaSeq::from_string("ATcgACG");
    assert_eq!(s1.to_ascii(), vec![65u8, 84, 67, 71, 65, 67, 71]);
}

#[test]
fn push_chunk_matches_pushes() {
    let chunk: [u8; 16] = *b"ATCGATCGATCGATCG";
    let mut s1 = DnaSeq::new();
    s1.push_u32_chunk_of_n(&chunk, 16);
    let s2 = DnaSeq::from_string("ATCGATCGATCGATCG");
    assert_eq!(s1, s2);
    assert_eq!(s1.len(), 16);

    let mut partial = [0u8; 16];
    partial[..4].copy_from_slice(b"GGCA");
    let mut s3 = DnaSeq::new();
    s3.push_u32_chunk_of_n(&partial, 4);
    assert_eq!(s3, DnaSeq::from_string("GGCA"));
}

#[test]
fn codes_round_trip() {
    let codes = vec![0u8, 1, 2, 3, 2, 1];
    let letters = dna::toA(&codes);
    assert_eq!(letters, vec!['A', 'C', 'T', 'G', 'T', 'C']);
    let back = dna::toChar(&letters);
    assert_eq!(back, codes);
}

#[test]
fn kmer_values() {
    let bytes = [1u8, 0, 0, 0];
    let v: u32 = BinaryKmer::kmer_to_binary(&bytes);
    assert_eq!(v, 1);
    let bytes8 = [0u8, 1, 0, 0, 0, 0, 0, 0];
    let v8: u64 = BinaryKmer::kmer_to_binary(&bytes8);
    assert_eq!(v8, 256);
}
