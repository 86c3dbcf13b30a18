use winnowing::algorithms::{binary_search, hash_kgrams, my_hash, winnow};
use winnowing::detector::{
    compare_fingerprints, filter_code, generate_fingerprint, get_copied_slices, DetectorError,
    DocumentFingerprint,
};
use winnowing::tokenize::{assign_context, contains_sub, tokenize_tree, Token, TokenKind, TreeItem};

fn text_item(ch: u8, pos: usize) -> TreeItem {
    TreeItem {
        kind: "word".to_string(),
        field: "None".to_string(),
        parent_kind: Some("block".to_string()),
        grandparent_kind: Some("module".to_string()),
        text: vec![ch],
        start_byte: pos,
        end_byte: pos + 1,
    }
}

fn ident_item(name: &str, parent: &str, field: &str, start: usize, end: usize) -> TreeItem {
    TreeItem {
        kind: "identifier".to_string(),
        field: field.to_string(),
        parent_kind: Some(parent.to_string()),
        grandparent_kind: Some("module".to_string()),
        text: name.as_bytes().to_vec(),
        start_byte: start,
        end_byte: end,
    }
}

fn text_stream(code: &[u8]) -> Vec<TreeItem> {
    code.iter().enumerate().map(|(i, &b)| text_item(b, i)).collect()
}

fn fingerprint_of_text(code: &[u8], t: usize, k: usize) -> DocumentFingerprint {
    generate_fingerprint(code.to_vec(), &text_stream(code), t, k).unwrap()
}

#[test]
fn hash_is_stable_and_content_sensitive() {
    assert_eq!(my_hash(b"abc"), my_hash(b"abc"));
    assert_ne!(my_hash(b"abc"), my_hash(b"abd"));
    assert_ne!(my_hash(b""), my_hash(b"a"));
}

#[test]
fn hash_kgrams_count_matches_contract() {
    let code = b"abcdefghij";
    let hashes = hash_kgrams(code, 3);
    assert_eq!(hashes.len(), 8);
    assert_eq!(hashes[0], my_hash(&code[0..3]));
    assert_eq!(hashes[7], my_hash(&code[7..10]));
}

#[test]
fn hash_kgrams_short_input_is_empty_not_underflow() {
    assert_eq!(hash_kgrams(b"ab", 3).len(), 0);
    assert_eq!(hash_kgrams(b"", 1).len(), 0);
}

#[test]
fn winnow_selects_rightmost_minimum_per_window() {
    // t = 5, k = 3 gives w = 3; windows [9,4,4], [4,4,7], [4,7,2]
    // pick index 2 (rightmost 4), index 2 again, index 4 (the 2).
    let hashes = vec![9u64, 4, 4, 7, 2];
    assert_eq!(winnow(&hashes, 3), vec![2usize, 4]);
}

#[test]
fn winnow_tie_prefers_rightmost() {
    let hashes = vec![5u64, 5, 5];
    assert_eq!(winnow(&hashes, 3), vec![2usize]);
}

#[test]
fn winnow_guarantee_holds_on_every_window() {
    let hashes: Vec<u64> = (0..40u64).map(|i| my_hash(&[i as u8, 7, i as u8 ^ 3])).collect();
    let w = 6usize;
    let selected = winnow(&hashes, w);
    for start in 0..=(hashes.len() - w) {
        assert!(
            selected.iter().any(|&j| start <= j && j < start + w),
            "window at {start} has no selected index"
        );
    }
}

#[test]
fn winnow_short_sequence_selects_nothing() {
    let hashes = vec![3u64, 1];
    assert_eq!(winnow(&hashes, 3), Vec::<usize>::new());
}

#[test]
fn span_merge_example() {
    // gap between 2 and 10 is 8 > k - 1 = 4: two clusters,
    // spans (0, 7) and (10, 16) with end = last index + k.
    let idx = vec![0usize, 1, 2, 10, 11];
    let (starts, ends) = get_copied_slices(&idx, 5);
    assert_eq!(starts, vec![0usize, 10]);
    assert_eq!(ends, vec![7usize, 16]);
}

#[test]
fn span_merge_single_cluster() {
    let idx = vec![4usize, 6, 8];
    let (starts, ends) = get_copied_slices(&idx, 3);
    assert_eq!(starts, vec![4usize]);
    assert_eq!(ends, vec![11usize]);
}

#[test]
fn binary_search_finds_lower_bound() {
    let table = vec![(0usize, 0usize), (2, 5), (4, 9)];
    assert_eq!(binary_search(&(0, 0), &table), 0);
    assert_eq!(binary_search(&(2, 5), &table), 1);
    assert_eq!(binary_search(&(3, 0), &table), 2);
    assert_eq!(binary_search(&(9, 9), &table), 3);
}

#[test]
fn substring_search_matches_std() {
    assert!(contains_sub("class_definition", "class"));
    assert!(contains_sub("method_invocation", "invocation"));
    assert!(!contains_sub("cls", "class"));
    assert!(contains_sub("anything", ""));
    assert!(!contains_sub("", "x"));
}

#[test]
fn classification_follows_context() {
    let t = assign_context(&ident_item("Foo", "class_definition", "name", 0, 3));
    assert_eq!(t.kind, TokenKind::NameClass);
    let t = assign_context(&ident_item("f", "function_definition", "name", 0, 1));
    assert_eq!(t.kind, TokenKind::NameFunction);
    let t = assign_context(&ident_item("x", "parameters", "None", 0, 1));
    assert_eq!(t.kind, TokenKind::Name);
    // the structural role alone can mark a call
    let t = assign_context(&ident_item("g", "arguments", "call_target", 0, 1));
    assert_eq!(t.kind, TokenKind::NameFunction);
    // non-identifier tokens stay verbatim
    let t = assign_context(&text_item(b'+', 4));
    assert_eq!(t.kind, TokenKind::Text);
    assert_eq!(t.text, vec![b'+']);
}

#[test]
fn classification_checks_grandparent() {
    let mut item = ident_item("Bar", "plain_node", "None", 0, 3);
    item.grandparent_kind = Some("struct_item".to_string());
    let t = assign_context(&item);
    assert_eq!(t.kind, TokenKind::NameClass);
    item.grandparent_kind = None;
    let t = assign_context(&item);
    assert_eq!(t.kind, TokenKind::Name);
    // the function keywords are also repeated at the grandparent
    item.grandparent_kind = Some("call_expression".to_string());
    let t = assign_context(&item);
    assert_eq!(t.kind, TokenKind::NameFunction);
    item.grandparent_kind = Some("plain_list".to_string());
    let t = assign_context(&item);
    assert_eq!(t.kind, TokenKind::Name);
}

#[test]
fn normalizer_collapses_identifiers_to_role_symbols() {
    let items = vec![
        ident_item("Shape", "class_definition", "name", 0, 5),
        text_item(b'{', 5),
        ident_item("area", "function_definition", "name", 6, 10),
        ident_item("w", "parameters", "None", 11, 12),
        text_item(b'}', 12),
    ];
    let tokens: Vec<Token> = tokenize_tree(&items);
    let (canonical, offsets) = filter_code(&tokens);
    assert_eq!(canonical, b"O{FV}".to_vec());
    assert_eq!(offsets, vec![(0, 0), (1, 5), (2, 6), (3, 10), (4, 12), (5, 13)]);
}

#[test]
fn fingerprinting_is_deterministic() {
    let code = b"abcdefghijklmnop";
    let fp1 = fingerprint_of_text(code, 6, 4);
    let fp2 = fingerprint_of_text(code, 6, 4);
    assert_eq!(fp1.filtered_code, fp2.filtered_code);
    assert_eq!(fp1.offsets, fp2.offsets);
    assert_eq!(fp1.hashes, fp2.hashes);
    assert_eq!(fp1.selected_indices, fp2.selected_indices);
}

#[test]
fn hash_count_law_and_degenerate_input() {
    let code = b"abcdefgh";
    let fp = fingerprint_of_text(code, 3, 3);
    assert_eq!(fp.hashes.len(), fp.filtered_code.len() - 3 + 1);
    assert!(fp.filtered_code.len() <= fp.code.len());

    let short = generate_fingerprint(b"ab".to_vec(), &text_stream(b"ab"), 3, 3);
    assert_eq!(short.unwrap_err(), DetectorError::DegenerateInput);
}

#[test]
fn self_similarity_is_one() {
    let code = b"the quick brown fox jumps over it";
    let fp = fingerprint_of_text(code, 8, 5);
    let (m1, s1, m2, s2) = compare_fingerprints(&fp, &fp).unwrap();
    assert!(s1.selected > 0);
    assert_eq!(s1.matched, s1.selected);
    assert_eq!(s2.matched, s2.selected);
    assert!(!m1.is_empty());
    assert_eq!(m1, m2);
}

#[test]
fn threshold_mismatch_is_rejected() {
    let code: Vec<u8> = (0..40u8).map(|i| b'a' + (i % 26)).collect();
    let fp1 = generate_fingerprint(code.clone(), &text_stream(&code), 25, 25).unwrap();
    let fp2 = generate_fingerprint(code.clone(), &text_stream(&code), 30, 30).unwrap();
    assert_eq!(
        compare_fingerprints(&fp1, &fp2).unwrap_err(),
        DetectorError::ThresholdMismatch
    );
}

#[test]
fn zero_coverage_is_degenerate_not_nan() {
    // canonical length 5 lies in [k, t): there is a k-gram but no full
    // guarantee window, so nothing is selected and scoring is undefined.
    let code = b"abcde";
    let fp = fingerprint_of_text(code, 10, 3);
    assert!(fp.selected_indices.is_empty());
    assert_eq!(
        compare_fingerprints(&fp, &fp).unwrap_err(),
        DetectorError::DegenerateInput
    );
}

#[test]
fn renaming_invariance() {
    let doc = |class_name: &str, fn_name: &str, var: &str| -> Vec<TreeItem> {
        let mut items = vec![
            ident_item(class_name, "class_definition", "name", 0, class_name.len()),
        ];
        let base = class_name.len();
        items.push(text_item(b':', base));
        items.push(ident_item(fn_name, "function_definition", "name", base + 1, base + 3));
        items.push(text_item(b'(', base + 3));
        items.push(ident_item(var, "parameters", "None", base + 4, base + 5));
        items.push(text_item(b')', base + 5));
        items.push(text_item(b'=', base + 6));
        items.push(ident_item(var, "expression", "None", base + 7, base + 8));
        items
    };
    let code1 = b"Shape:fn(w)=w".to_vec();
    let code2 = b"Box:fn(q)=q".to_vec();
    let fp1 = generate_fingerprint(code1, &doc("Shape", "area", "w"), 3, 2).unwrap();
    let fp2 = generate_fingerprint(code2, &doc("Box", "grow", "q"), 3, 2).unwrap();
    // identifier lengths differ, so every byte offset shifts, yet the
    // canonical texts coincide
    assert!(fp1.filtered_code.len() <= fp1.code.len());
    assert!(fp2.filtered_code.len() <= fp2.code.len());
    assert_eq!(fp1.filtered_code, fp2.filtered_code);
    assert_eq!(fp1.filtered_code, b"O:F(V)=V".to_vec());
    let (_, s1, _, s2) = compare_fingerprints(&fp1, &fp2).unwrap();
    assert_eq!(s1.matched, s1.selected);
    assert_eq!(s2.matched, s2.selected);
}

#[test]
fn partial_overlap_scores_exactly() {
    // canonical texts share only the prefix "abcd": k-grams abc, bcd.
    let a = b"abcdefgh";
    let b = b"abcdxyzw";
    let fpa = fingerprint_of_text(a, 3, 3); // w = 1: every index selected
    let fpb = fingerprint_of_text(b, 3, 3);
    let (ma, sa, mb, sb) = compare_fingerprints(&fpa, &fpb).unwrap();
    assert_eq!(sa.selected, 8);
    assert_eq!(sa.matched, 4); // one cluster [0, 1], span (0, 4)
    assert_eq!(sb.selected, 8);
    assert_eq!(sb.matched, 4);
    assert_eq!(ma, vec![(0, 4)]);
    assert_eq!(mb, vec![(0, 4)]);
}

#[test]
fn reported_ranges_stay_inside_the_original() {
    let a = b"pub fn alpha() { alpha(); beta(); }";
    let b = b"pub fn gamma() { gamma(); beta(); }";
    let fpa = fingerprint_of_text(a, 6, 4);
    let fpb = fingerprint_of_text(b, 6, 4);
    let (ma, _, mb, _) = compare_fingerprints(&fpa, &fpb).unwrap();
    assert!(!ma.is_empty());
    for &(s, e) in ma.iter() {
        assert!(s <= e && e <= a.len());
    }
    for &(s, e) in mb.iter() {
        assert!(s <= e && e <= b.len());
    }
}

#[test]
fn token_new_keeps_fields() {
    let t = Token::new(vec![b'x'], TokenKind::Name, 3, 4);
    assert_eq!(t.text, vec![b'x']);
    assert_eq!(t.kind, TokenKind::Name);
    assert_eq!(t.start_byte, 3);
    assert_eq!(t.end_byte, 4);
}
