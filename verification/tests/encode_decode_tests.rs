use bpe::decoder::decode;
use bpe::encoder::{encode, encode_with};
use bpe::table::is_well_formed;
use bpe::BpeElem;

fn widen(bytes: &[u8]) -> Vec<u16> {
    bytes.iter().map(|b| *b as u16).collect()
}

#[test]
fn round_trip_restores_input() {
    let original = widen(b"abracadabra abracadabra abracadabra, a cadaver ate arcadia");
    let mut file = original.clone();
    let table = encode(&mut file);
    assert!(!table.is_empty());
    assert!(file.len() < original.len());
    decode(&mut file, &table);
    assert_eq!(file, original);
}

#[test]
fn round_trip_binary_data() {
    let bytes: Vec<u8> = (0..=255u8).cycle().take(2000).collect();
    let original = widen(&bytes);
    let mut file = original.clone();
    let table = encode(&mut file);
    decode(&mut file, &table);
    assert_eq!(file, original);
}

#[test]
fn empty_input_is_untouched() {
    let mut file: Vec<u16> = vec![];
    let table = encode(&mut file);
    assert!(table.is_empty());
    assert!(file.is_empty());
    decode(&mut file, &table);
    assert!(file.is_empty());
}

#[test]
fn single_symbol_is_untouched() {
    let mut file = widen(b"x");
    let table = encode(&mut file);
    assert!(table.is_empty());
    assert_eq!(file, widen(b"x"));
}

#[test]
fn overlap_merges_rightmost_pair_first() {
    let mut file = widen(b"aaa");
    let table = encode(&mut file);
    assert_eq!(file, vec![97, 256]);
    assert_eq!(table.len(), 1);
    assert_eq!(table[0].pat, (97, 97));
    assert_eq!(table[0].matches, 1);
}

#[test]
fn repeated_pair_sequence_reduces_fully() {
    let mut file = widen(b"abababab");
    let table = encode(&mut file);
    assert_eq!(table.len(), 2);
    assert_eq!(table[0].pat, (97, 98));
    assert_eq!(table[0].matches, 4);
    assert_eq!(table[1].pat, (256, 256));
    assert_eq!(table[1].matches, 2);
    assert_eq!(file, vec![257, 257]);
    let original = widen(b"abababab");
    decode(&mut file, &table);
    assert_eq!(file, original);
}

#[test]
fn codes_reference_only_earlier_rules() {
    let mut file = widen(b"mississippi mississippi mississippi");
    let table = encode(&mut file);
    assert!(is_well_formed(&table));
    for (i, rule) in table.iter().enumerate() {
        assert!((rule.pat.0 as usize) < 256 + i);
        assert!((rule.pat.1 as usize) < 256 + i);
    }
}

#[test]
fn every_rule_performed_a_replacement() {
    let mut file = widen(b"the theme of the theatre is the thing");
    let table = encode(&mut file);
    for rule in &table {
        assert!(rule.matches >= 1);
    }
}

#[test]
fn iteration_cap_limits_the_table() {
    let mut file = widen(b"abababab");
    let table = encode_with(&mut file, 1, 2);
    assert_eq!(table.len(), 1);
    assert_eq!(table[0].pat, (97, 98));
    assert_eq!(file, vec![256, 256, 256, 256]);
}

#[test]
fn frequency_threshold_stops_encoding() {
    let mut file = widen(b"abababab");
    let table = encode_with(&mut file, 10000, 5);
    assert!(table.is_empty());
    assert_eq!(file, widen(b"abababab"));
}

#[test]
fn encoding_twice_adds_nothing() {
    let mut file = widen(b"banana bandana banana bandana");
    let table = encode(&mut file);
    assert!(!table.is_empty());
    let reduced = file.clone();
    let again = encode(&mut file);
    assert!(again.is_empty());
    assert_eq!(file, reduced);
}

#[test]
fn decode_expands_each_code_positionally() {
    let table = vec![
        BpeElem { pat: (104, 105), matches: 0 },
        BpeElem { pat: (256, 33), matches: 0 },
    ];
    let mut file = vec![256u16, 257];
    decode(&mut file, &table);
    assert_eq!(file, vec![104, 105, 104, 105, 33]);
}

#[test]
fn decode_with_arbitrary_table_inserts_patterns() {
    let table = vec![BpeElem { pat: (300, 301), matches: 7 }];
    let mut file = vec![256u16, 42];
    decode(&mut file, &table);
    assert_eq!(file, vec![300, 301, 42]);
}

#[test]
fn decode_ignores_absent_codes() {
    let table = vec![BpeElem { pat: (97, 98), matches: 0 }];
    let mut file = vec![1u16, 2, 3];
    decode(&mut file, &table);
    assert_eq!(file, vec![1, 2, 3]);
}

#[test]
fn well_formedness_rejects_forward_references() {
    let bad = vec![BpeElem { pat: (256, 0), matches: 0 }];
    assert!(!is_well_formed(&bad));
    let good = vec![
        BpeElem { pat: (0, 1), matches: 0 },
        BpeElem { pat: (256, 2), matches: 0 },
    ];
    assert!(is_well_formed(&good));
    let bad2 = vec![
        BpeElem { pat: (0, 1), matches: 0 },
        BpeElem { pat: (257, 2), matches: 0 },
    ];
    assert!(!is_well_formed(&bad2));
}
