use phrasekit::encode_tokens;

#[test]
fn each_token_takes_eight_bytes() {
    let bytes = encode_tokens(&[0x0403_0201, 7], 4294967294);
    assert_eq!(
        bytes,
        vec![1, 2, 3, 4, 0xfe, 0xff, 0xff, 0xff, 7, 0, 0, 0, 0xfe, 0xff, 0xff, 0xff]
    );
    assert!(encode_tokens(&[], 9).is_empty());
}

#[test]
fn distinct_sequences_encode_differently() {
    let seqs: Vec<Vec<u32>> = vec![
        vec![],
        vec![0],
        vec![0, 0],
        vec![1, 2],
        vec![2, 1],
        vec![256],
        vec![1, 0],
        vec![u32::MAX],
    ];
    for a in &seqs {
        for b in &seqs {
            assert_eq!(a == b, encode_tokens(a, 4294967294) == encode_tokens(b, 4294967294));
        }
    }
}
