use region_folding::fold::{folds_from_spans, get_vec_of_fold, Fold, FoldKind};
use region_folding::markers::find_markers;
use region_folding::pairing::{pair_regions, ByteRange};
use region_folding::report::{get_str_to_end_of_line, print_vec};

fn spans(pairs: &[(usize, usize)]) -> Vec<ByteRange> {
    pairs.iter().map(|&(start, end)| ByteRange { start, end }).collect()
}

#[test]
fn test_empty_code() {
    let code_text = "";
    let vec_of_fold = get_vec_of_fold(code_text);
    let output = print_vec(vec_of_fold, code_text);
    let result = "";
    assert_eq!(output, result);
}

#[test]
fn pairs_five_sequential_regions() {
    let r = pair_regions(&vec![0, 20, 40, 60, 80], &vec![10, 30, 50, 70, 90]);
    assert_eq!(r, spans(&[(0, 10), (20, 30), (40, 50), (60, 70), (80, 90)]));
}

#[test]
fn pairs_one_nested_region() {
    let r = pair_regions(&vec![0, 10], &vec![20, 30]);
    assert_eq!(r, spans(&[(0, 30), (10, 20)]));
}

#[test]
fn pairs_three_levels() {
    let r = pair_regions(&vec![0, 10, 20], &vec![30, 40, 50]);
    assert_eq!(r, spans(&[(0, 50), (10, 40), (20, 30)]));
}

#[test]
fn pairs_siblings_inside_a_region() {
    let r = pair_regions(&vec![0, 10, 20, 40], &vec![30, 50, 60, 70]);
    assert_eq!(r, spans(&[(0, 70), (10, 60), (20, 30), (40, 50)]));
}

#[test]
fn drops_starts_without_end() {
    let r = pair_regions(&vec![20, 60, 100, 140], &vec![180]);
    assert_eq!(r, spans(&[(140, 180)]));
}

#[test]
fn drops_trailing_start_only() {
    let r = pair_regions(&vec![0, 20, 100], &vec![10, 30]);
    assert_eq!(r, spans(&[(0, 10), (20, 30)]));
    assert_eq!(r, pair_regions(&vec![0, 20], &vec![10, 30]));
}

#[test]
fn skips_leading_ends() {
    let r = pair_regions(&vec![120], &vec![20, 60, 160]);
    assert_eq!(r, spans(&[(120, 160)]));
    assert_eq!(r, pair_regions(&vec![120], &vec![160]));
}

#[test]
fn skips_end_between_regions() {
    let r = pair_regions(&vec![0, 50], &vec![10, 20, 60]);
    assert_eq!(r, spans(&[(0, 10), (50, 60)]));
}

#[test]
fn end_at_start_offset_closes_nothing() {
    let r = pair_regions(&vec![5], &vec![5, 9]);
    assert_eq!(r, spans(&[(5, 9)]));
}

#[test]
fn empty_marker_lists_give_nothing() {
    assert!(pair_regions(&vec![], &vec![]).is_empty());
    assert!(pair_regions(&vec![], &vec![10, 20]).is_empty());
    assert!(pair_regions(&vec![10, 20], &vec![]).is_empty());
}

#[test]
fn balanced_markers_all_match() {
    let starts = vec![0, 10, 20, 35, 60];
    let ends = vec![25, 30, 40, 50, 70];
    let r = pair_regions(&starts, &ends);
    assert_eq!(r.len(), starts.len());
    assert_eq!(r, spans(&[(0, 50), (10, 30), (20, 25), (35, 40), (60, 70)]));
}

#[test]
fn spans_come_from_markers_and_nest() {
    let starts = vec![1, 4, 9, 12, 30, 31];
    let ends = vec![3, 5, 7, 20, 25, 40];
    let r = pair_regions(&starts, &ends);
    for (x, a) in r.iter().enumerate() {
        assert!(a.start < a.end);
        assert!(starts.contains(&a.start));
        assert!(ends.contains(&a.end));
        for (y, b) in r.iter().enumerate() {
            if x != y {
                let disjoint = a.end <= b.start || b.end <= a.start;
                let nested = (a.start < b.start && b.end < a.end) || (b.start < a.start && a.end < b.end);
                assert!(disjoint || nested);
            }
        }
    }
}

#[test]
fn pairing_twice_gives_the_same_spans() {
    let starts = vec![3, 8, 13, 50];
    let ends = vec![1, 10, 20, 30, 60];
    assert_eq!(pair_regions(&starts, &ends), pair_regions(&starts, &ends));
}

#[test]
fn folds_keep_spans_in_order() {
    let folds = folds_from_spans(&spans(&[(0, 30), (10, 20)]));
    assert_eq!(
        folds,
        vec![
            Fold { range: ByteRange { start: 0, end: 30 }, kind: FoldKind::Region },
            Fold { range: ByteRange { start: 10, end: 20 }, kind: FoldKind::Region },
        ]
    );
}

#[test]
fn finds_marker_offsets_in_bytes() {
    let (starts, ends) = find_markers("é\n  // region: a\n//#region: b\n// endregion\n//endregion\n");
    assert_eq!(starts, vec![3, 18]);
    assert_eq!(ends, vec![31, 44]);
}

#[test]
fn folds_of_text_with_nesting() {
    let code_text = "// region: a\n// region: b\n// endregion\n// endregion\n";
    let folds = get_vec_of_fold(code_text);
    assert_eq!(
        folds,
        vec![
            Fold { range: ByteRange { start: 0, end: 39 }, kind: FoldKind::Region },
            Fold { range: ByteRange { start: 13, end: 26 }, kind: FoldKind::Region },
        ]
    );
}

#[test]
fn line_preview_stops_at_line_feed() {
    assert_eq!(get_str_to_end_of_line("abc\ndef", 0), "abc");
    assert_eq!(get_str_to_end_of_line("abc\ndef", 4), "def");
    assert_eq!(get_str_to_end_of_line("abc\ndef", 3), "");
    assert_eq!(get_str_to_end_of_line("abc\ndef", 7), "");
    assert_eq!(get_str_to_end_of_line("ä ö\nx", 0), "ä ö");
    assert_eq!(get_str_to_end_of_line("ä ö\nx", 2), " ö");
}

#[test]
fn listing_pads_and_trims() {
    let code_text = "   // region: indented  \n// endregion\n";
    let folds = vec![Fold { range: ByteRange { start: 0, end: 25 }, kind: FoldKind::Region }];
    assert_eq!(
        print_vec(folds, code_text),
        "    0    25 :  // region: indented   // endregion        \n"
    );
}

#[test]
fn listing_widens_for_large_offsets() {
    let mut code_text = String::new();
    while code_text.len() < 123456 {
        code_text.push_str("x\n");
    }
    code_text.push_str("// region: far\n// endregion\n");
    let start = 123456;
    let end = start + 15;
    let folds = vec![Fold { range: ByteRange { start, end }, kind: FoldKind::Region }];
    assert_eq!(
        print_vec(folds, &code_text),
        "123456 123471 :  // region: far   // endregion        \n"
    );
}

#[test]
fn report_one_region() {
    let code_text = "fn a() {}\n// region: one\nlet x = 1;\n// endregion: one\n";
    let vec_of_fold = get_vec_of_fold(code_text);
    let output = print_vec(vec_of_fold, code_text);
    assert_eq!(output, "   10    36 :  // region: one   // endregion: one   \n");
}

#[test]
fn report_marker_spellings() {
    let code_text = "//region: a\n\t//#region: b\nx\n  // #endregion b\n// endregion a\nrest";
    let vec_of_fold = get_vec_of_fold(code_text);
    let output = print_vec(vec_of_fold, code_text);
    assert_eq!(output, "    0    46 :  //region: a      // endregion a      \n   12    28 :  //#region: b     // #endregion b     \n");
}

#[test]
fn report_offsets_count_bytes() {
    let code_text = "ä\n// region: ü\n// endregion\n";
    let vec_of_fold = get_vec_of_fold(code_text);
    let output = print_vec(vec_of_fold, code_text);
    assert_eq!(output, "    3    17 :  // region: ü     // endregion        \n");
}

#[test]
fn report_five_sequential_regions() {
    let code_text = "// region: 1\nx\n// endregion: 1\n// region: 2\nx\n// endregion: 2\n// region: 3\nx\n// endregion: 3\n// region: 4\nx\n// endregion: 4\n// region: 5\nx\n// endregion: 5\n";
    let vec_of_fold = get_vec_of_fold(code_text);
    let output = print_vec(vec_of_fold, code_text);
    assert_eq!(output, "    0    15 :  // region: 1     // endregion: 1     \n   31    46 :  // region: 2     // endregion: 2     \n   62    77 :  // region: 3     // endregion: 3     \n   93   108 :  // region: 4     // endregion: 4     \n  124   139 :  // region: 5     // endregion: 5     \n");
}

#[test]
fn report_start_without_end() {
    let code_text = "// region: 1\n// region: 2\n// region: 3\n// region: 4\nbody\n// endregion: 4\n";
    let vec_of_fold = get_vec_of_fold(code_text);
    let output = print_vec(vec_of_fold, code_text);
    assert_eq!(output, "   39    57 :  // region: 4     // endregion: 4     \n");
}

#[test]
fn report_end_without_start() {
    let code_text = "// endregion: 1\n// endregion: 2\n// region: 4\nbody\n// endregion: 4\n";
    let vec_of_fold = get_vec_of_fold(code_text);
    let output = print_vec(vec_of_fold, code_text);
    assert_eq!(output, "   32    50 :  // region: 4     // endregion: 4     \n");
}

#[test]
fn report_markers_not_at_line_start() {
    let code_text = "let a = 1; // region: no\n/* // region: no */\n// endregion\n";
    let vec_of_fold = get_vec_of_fold(code_text);
    let output = print_vec(vec_of_fold, code_text);
    assert_eq!(output, "");
}

#[test]
fn listing_trims_unicode_white_space() {
    let code_text = "\u{2003}abc\u{a0}\n\u{3000}xyz\t";
    let folds = vec![Fold { range: ByteRange { start: 0, end: 9 }, kind: FoldKind::Region }];
    assert_eq!(
        print_vec(folds, code_text),
        "    0     9 :  abc              xyz                 \n"
    );
}
