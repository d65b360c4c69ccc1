use lib::sequence::suffix_array::SuffixArray;

#[test]
fn suffix_array_banana() {
    let s = b"banana";
    let sa = SuffixArray::from_slice(s);
    assert_eq!(sa.sa(), &[5, 3, 1, 0, 4, 2]);
    assert_eq!(sa.isa(), &[3, 2, 5, 1, 4, 0]);
    assert_eq!(sa.lcp(), &[1, 3, 0, 0, 2]);
    assert_eq!(sa.lcp_of(1, 3), 3);
    assert_eq!(sa.lcp_of(3, 1), 3);
    assert_eq!(sa.lcp_of(0, 0), 6);
    assert_eq!(sa.lcp_of(2, 4), 2);
    assert_eq!(sa.lcp_of(5, 0), 0);
    assert_eq!(sa.len(), 6);
    assert!(!sa.is_empty());
}

#[test]
fn suffix_array_repeated_and_empty() {
    let sa = SuffixArray::from_slice(&[7u32, 7, 7, 7]);
    assert_eq!(sa.sa(), &[3, 2, 1, 0]);
    assert_eq!(sa.lcp(), &[1, 2, 3]);
    assert_eq!(sa.lcp_of(0, 3), 1);
    let empty: [u8; 0] = [];
    let sa = SuffixArray::from_slice(&empty);
    assert!(sa.is_empty());
    assert!(sa.lcp().is_empty());
    let one = SuffixArray::from_slice(&[42i64]);
    assert_eq!(one.sa(), &[0]);
    assert!(one.lcp().is_empty());
}
