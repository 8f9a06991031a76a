use bpe::dot::{double_quote, is_valid_utf8, write_dot};
use bpe::table::reconstruct_bpe_elem;
use bpe::BpeElem;

#[test]
fn reconstruct_expands_to_literals() {
    let table = vec![
        BpeElem { pat: (97, 98), matches: 0 },
        BpeElem { pat: (256, 99), matches: 0 },
    ];
    assert_eq!(reconstruct_bpe_elem(&table, 65), Some(vec![65]));
    assert_eq!(reconstruct_bpe_elem(&table, 256), Some(vec![97, 98]));
    assert_eq!(reconstruct_bpe_elem(&table, 257), Some(vec![97, 98, 99]));
    assert_eq!(reconstruct_bpe_elem(&table, 258), None);
    assert_eq!(reconstruct_bpe_elem(&table, 1000), None);
}

#[test]
fn double_quote_escapes_specials() {
    assert_eq!(double_quote(&b"plain".to_vec()), b"plain".to_vec());
    assert_eq!(double_quote(&b"a\\b".to_vec()), b"a\\\\b".to_vec());
    assert_eq!(double_quote(&b"say \"hi\"".to_vec()), b"say \\\"hi\\\"".to_vec());
    assert_eq!(double_quote(&b"line\nbreak".to_vec()), b"line\\nbreak".to_vec());
    assert_eq!(double_quote(&b"dos\r\nline".to_vec()), b"dos\\nline".to_vec());
    assert_eq!(double_quote(&b"bare\rreturn".to_vec()), b"bare\rreturn".to_vec());
    assert_eq!(double_quote(&b"\r\r\n".to_vec()), b"\r\\n".to_vec());
}

#[test]
fn dot_output_for_one_rule() {
    let table = vec![BpeElem { pat: (97, 98), matches: 2 }];
    let out = write_dot(&table, true);
    let text = String::from_utf8(out).unwrap();
    assert_eq!(
        text,
        "digraph {\nrankdir=LR\n256 [label=\"256 \\\"ab\\\"\"]\n256 -> 97\n256 -> 98\n}\n"
    );
}

#[test]
fn dot_output_without_rankdir() {
    let table = vec![BpeElem { pat: (120, 121), matches: 2 }];
    let out = write_dot(&table, false);
    let text = String::from_utf8(out).unwrap();
    assert_eq!(
        text,
        "digraph {\n256 [label=\"256 \\\"xy\\\"\"]\n256 -> 120\n256 -> 121\n}\n"
    );
}

#[test]
fn dot_skips_label_for_invalid_text() {
    let table = vec![BpeElem { pat: (200, 200), matches: 2 }];
    let out = write_dot(&table, false);
    let text = String::from_utf8(out).unwrap();
    assert_eq!(text, "digraph {\n256 -> 200\n256 -> 200\n}\n");
}

#[test]
fn dot_label_escapes_expansion() {
    let table = vec![BpeElem { pat: (10, 34), matches: 2 }];
    let out = write_dot(&table, false);
    let text = String::from_utf8(out).unwrap();
    // the expansion "\n\"" is escaped once for the quotation and once more
    // as a whole label, exactly as two rounds of double_quote produce it
    let expansion = b"\n\"".to_vec();
    let quoted = double_quote(&expansion);
    let mut inner = b"256 \"".to_vec();
    inner.extend_from_slice(&quoted);
    inner.push(b'"');
    let label = String::from_utf8(double_quote(&inner)).unwrap();
    let expected = format!("digraph {{\n256 [label=\"{label}\"]\n256 -> 10\n256 -> 34\n}}\n");
    assert_eq!(text, expected);
}

#[test]
fn nested_rules_label_uses_full_expansion() {
    let table = vec![
        BpeElem { pat: (104, 105), matches: 0 },
        BpeElem { pat: (256, 33), matches: 0 },
    ];
    let out = write_dot(&table, false);
    let text = String::from_utf8(out).unwrap();
    assert_eq!(
        text,
        "digraph {\n\
         256 [label=\"256 \\\"hi\\\"\"]\n256 -> 104\n256 -> 105\n\
         257 [label=\"257 \\\"hi!\\\"\"]\n257 -> 256\n257 -> 33\n}\n"
    );
}

#[test]
fn utf8_validity_matches_std() {
    let cases: Vec<Vec<u8>> = vec![
        vec![],
        b"ascii only".to_vec(),
        vec![0xc2, 0x80],
        vec![0xc1, 0x80],
        vec![0xc0, 0x80],
        vec![0xdf, 0xbf],
        vec![0xdf, 0xc0],
        vec![0xe0, 0xa0, 0x80],
        vec![0xe0, 0x80, 0x80],
        vec![0xe0, 0x9f, 0xbf],
        vec![0xed, 0x9f, 0xbf],
        vec![0xed, 0xa0, 0x80],
        vec![0xee, 0x80, 0x80],
        vec![0xef, 0xbf, 0xbf],
        vec![0xf0, 0x90, 0x80, 0x80],
        vec![0xf0, 0x80, 0x80, 0x80],
        vec![0xf0, 0x8f, 0xbf, 0xbf],
        vec![0xf4, 0x8f, 0xbf, 0xbf],
        vec![0xf4, 0x90, 0x80, 0x80],
        vec![0xf5, 0x80, 0x80, 0x80],
        vec![0xff],
        vec![0x80],
        vec![0xc2],
        vec![0xe0, 0xa0],
        vec![0xf0, 0x90, 0x80],
        vec![0x61, 0xc3, 0xa9, 0x62],
        vec![0x61, 0xc3],
        vec![0xe2, 0x82, 0xac],
        vec![0xe2, 0x82],
        vec![0xf0, 0x9f, 0x92, 0x96],
        vec![0x7f, 0x80, 0x7f],
    ];
    for case in cases {
        assert_eq!(
            is_valid_utf8(&case),
            std::str::from_utf8(&case).is_ok(),
            "disagreement on {case:?}"
        );
    }
}
