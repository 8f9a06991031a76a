use bpe::codec::{read_bpe, write_bpe, BpeError};
use bpe::decoder::decode;
use bpe::encoder::encode;
use bpe::BpeElem;

#[test]
fn serialized_layout_is_fixed() {
    let table = vec![BpeElem { pat: (97, 98), matches: 5 }];
    let file = vec![300u16];
    let out = write_bpe(&file, &table);
    assert_eq!(
        out,
        vec![200, 191, 111, 0, 1, 0, 0, 0, 97, 0, 98, 0, 44, 1]
    );
}

#[test]
fn binary_round_trip_zeroes_matches() {
    let table = vec![
        BpeElem { pat: (97, 98), matches: 4 },
        BpeElem { pat: (256, 99), matches: 2 },
    ];
    let file = vec![257u16, 100, 257];
    let bytes = write_bpe(&file, &table);
    let (file2, table2) = read_bpe(&bytes).unwrap();
    assert_eq!(file2, file);
    assert_eq!(table2.len(), table.len());
    for (restored, written) in table2.iter().zip(table.iter()) {
        assert_eq!(restored.pat, written.pat);
        assert_eq!(restored.matches, 0);
    }
}

#[test]
fn full_pipeline_through_bytes() {
    let original: Vec<u16> = b"tora tora tora".iter().map(|b| *b as u16).collect();
    let mut file = original.clone();
    let table = encode(&mut file);
    let bytes = write_bpe(&file, &table);
    let (mut file2, table2) = read_bpe(&bytes).unwrap();
    decode(&mut file2, &table2);
    assert_eq!(file2, original);
}

#[test]
fn corrupt_signature_is_reported() {
    let table = vec![BpeElem { pat: (97, 98), matches: 1 }];
    let mut bytes = write_bpe(&vec![256u16], &table);
    bytes[0] ^= 0xff;
    assert_eq!(read_bpe(&bytes), Err(BpeError::BadSignature));
    let garbage = vec![1u8, 2, 3, 4, 5, 6, 7, 8];
    assert_eq!(read_bpe(&garbage), Err(BpeError::BadSignature));
}

#[test]
fn truncated_streams_are_reported() {
    assert_eq!(read_bpe(&vec![]), Err(BpeError::Truncated));
    assert_eq!(read_bpe(&vec![200, 191]), Err(BpeError::Truncated));
    assert_eq!(read_bpe(&vec![200, 191, 111, 0]), Err(BpeError::Truncated));
    assert_eq!(
        read_bpe(&vec![200, 191, 111, 0, 2, 0]),
        Err(BpeError::Truncated)
    );
    // the header promises two rules but only one follows
    assert_eq!(
        read_bpe(&vec![200, 191, 111, 0, 2, 0, 0, 0, 97, 0, 98, 0]),
        Err(BpeError::Truncated)
    );
}

#[test]
fn empty_table_and_sequence_round_trip() {
    let bytes = write_bpe(&vec![], &vec![]);
    assert_eq!(bytes, vec![200, 191, 111, 0, 0, 0, 0, 0]);
    let (file, table) = read_bpe(&bytes).unwrap();
    assert!(file.is_empty());
    assert!(table.is_empty());
}

#[test]
fn trailing_odd_byte_is_dropped() {
    let table = vec![BpeElem { pat: (65, 66), matches: 3 }];
    let file = vec![256u16, 67];
    let mut bytes = write_bpe(&file, &table);
    bytes.push(0x99);
    let (file2, table2) = read_bpe(&bytes).unwrap();
    assert_eq!(file2, file);
    assert_eq!(table2[0].pat, (65, 66));
}
