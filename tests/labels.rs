use ocr_labels::extract::{
    dedup_occurrences, extract_from_document_text, extract_from_ocr_lines, extract_occurrences,
    finalize, normalize_number, paragraph_text, Occurrence,
};
use ocr_labels::figures::find_figure_references;
use ocr_labels::labels::{
    clean_text, clean_token, formats_from_flags, is_valid_label, matches_any, matches_format,
    split_merged_label, LabelFormat,
};
use ocr_labels::normalize::normalize_text;
use ocr_labels::order::sort_labels;

fn five_formats() -> Vec<LabelFormat> {
    vec![
        LabelFormat::ThreeDigit,
        LabelFormat::TwoDigit,
        LabelFormat::ThreeDigitLetter,
        LabelFormat::TwoDigitLetter,
        LabelFormat::ThreeDigitDash,
    ]
}

fn occ(word: &str, label: &str) -> Occurrence {
    Occurrence { word: word.to_string(), label: label.to_string() }
}

fn strings(v: &[&str]) -> Vec<String> {
    v.iter().map(|s| s.to_string()).collect()
}

#[test]
fn test_label_formats() {
    let formats = vec![
        LabelFormat::ThreeDigit,
        LabelFormat::TwoDigit,
        LabelFormat::ThreeDigitLetter,
        LabelFormat::TwoDigitLetter,
        LabelFormat::ThreeDigitDash,
    ];

    assert!(is_valid_label("130", &formats).is_some());
    assert!(is_valid_label("13", &formats).is_some());
    assert!(is_valid_label("130a", &formats).is_some());
    assert!(is_valid_label("13a", &formats).is_some());
    assert!(is_valid_label("130-1", &formats).is_some());
    assert!(is_valid_label("FIG.6", &formats).is_some());
    assert!(is_valid_label("FIG. 1B", &formats).is_some());
    assert!(is_valid_label("130.", &formats).is_some());

    assert!(is_valid_label("W", &formats).is_none());
    assert!(is_valid_label("T", &formats).is_none());
    assert!(is_valid_label("15?", &formats).is_none());
    assert!(is_valid_label("1104", &formats).is_none());
    assert!(is_valid_label("130-1130-2", &formats).is_none());
}

#[test]
fn valid_label_returns_cleaned_text() {
    let formats = five_formats();
    assert_eq!(is_valid_label(" 130. ", &formats), Some("130".to_string()));
    assert_eq!(is_valid_label("13O", &formats), Some("130".to_string()));
    assert_eq!(is_valid_label("l3a", &formats), Some("13a".to_string()));
    assert_eq!(is_valid_label("FIG. 1B", &formats), Some("FIG. 1B".to_string()));
    assert_eq!(is_valid_label("   ", &formats), None);
    assert_eq!(is_valid_label("FIG.6", &[]), Some("FIG.6".to_string()));
    assert_eq!(is_valid_label("130", &[]), None);
}

#[test]
fn clean_text_cases() {
    assert_eq!(clean_text("  l3O.. "), "130");
    assert_eq!(clean_text("Fig. lO"), "Fig. lO");
    assert_eq!(clean_text(""), "");
}

#[test]
fn matches_format_shapes() {
    assert!(matches_format("130", LabelFormat::ThreeDigit));
    assert!(matches_format(" 13 ", LabelFormat::TwoDigit));
    assert!(!matches_format("13", LabelFormat::ThreeDigit));
    assert!(matches_format("130a", LabelFormat::ThreeDigitLetter));
    assert!(!matches_format("130A", LabelFormat::ThreeDigitLetter));
    assert!(matches_format("13b", LabelFormat::TwoDigitLetter));
    assert!(matches_format("130-12", LabelFormat::ThreeDigitDash));
    assert!(!matches_format("130-", LabelFormat::ThreeDigitDash));
    assert!(!matches_format("130-1-2", LabelFormat::ThreeDigitDash));
    assert!(matches_format("1104", LabelFormat::FourDigit));
    assert!(matches_format("1104c", LabelFormat::FourDigitLetter));
    assert!(matches_format("1104-3", LabelFormat::FourDigitDash));
    assert!(!matches_format("1104-23", LabelFormat::FourDigitDash));
    assert!(matches_format("130-23", LabelFormat::ThreeDigitDash));
    assert!(matches_format("see fig", LabelFormat::TwoDigit));
    assert!(!matches_format("", LabelFormat::TwoDigit));
}

#[test]
fn figure_references_match_without_formats() {
    assert!(matches_any("FIG.6", &[]));
    assert!(matches_any("figure 2", &[]));
    assert!(!matches_any("130", &[]));
    assert!(!matches_any("   ", &five_formats()));
}

#[test]
fn four_digits_match_none_of_the_five_formats() {
    assert!(!matches_any("1301", &five_formats()));
    assert!(is_valid_label("1301", &five_formats()).is_none());
    assert!(matches_any("1301", &[LabelFormat::FourDigit]));
}

#[test]
fn clean_then_match_is_idempotent() {
    let formats = five_formats();
    for token in [" 130 ", "FIG.6", "13a", "130-1", "\t13\n"] {
        assert!(matches_any(token, &formats));
        let once = clean_token(token);
        assert!(matches_any(&once, &formats));
        assert_eq!(clean_token(&once), once);
    }
    assert_eq!(clean_token(" 1.3,0-a!"), "130-a");
}

#[test]
fn split_takes_first_valid_split() {
    assert_eq!(split_merged_label("130131", &[LabelFormat::ThreeDigit]), strings(&["130", "131"]));
    assert!(split_merged_label("13013", &[LabelFormat::ThreeDigit]).is_empty());
    assert_eq!(
        split_merged_label("13013", &[LabelFormat::ThreeDigit, LabelFormat::TwoDigit]),
        strings(&["13", "013"])
    );
    assert_eq!(
        split_merged_label("130,131.", &[LabelFormat::ThreeDigit]),
        strings(&["130", "131"])
    );
    assert!(split_merged_label("", &[LabelFormat::ThreeDigit]).is_empty());
}

#[test]
fn normalize_stems_plurals() {
    assert_eq!(normalize_text("Brackets  and Boxes"), "bracket and box");
    assert_eq!(normalize_text("bodies classes gases is"), "body class gas is");
    assert_eq!(normalize_text("as ies glass"), "as i glass");
    assert_eq!(normalize_text(""), "");
}

#[test]
fn normalize_keeps_figure_references() {
    assert_eq!(normalize_text("see Figure 6 for details"), "FIG. 6");
    assert_eq!(normalize_text("as in fig.12a, the arm"), "FIG. 12a");
    assert_eq!(normalize_text("FIG. 3 B shows"), "FIG. 3B");
    assert_eq!(normalize_text("config 6"), "config 6");
}

#[test]
fn normalize_twice_changes_nothing() {
    for text in ["Brackets and Boxes 130", "FIG. 6a", "see Figure 6", "the arms 12"] {
        let once = normalize_text(text);
        assert_eq!(normalize_text(&once), once);
    }
}

#[test]
fn figure_references_in_order_without_repeats() {
    assert_eq!(
        find_figure_references("FIG. 1, fig 2B and Figure 1 then FIG.3"),
        strings(&["FIG. 1", "FIG. 2B", "FIG. 3"])
    );
    assert!(find_figure_references("configure 6").is_empty());
    assert!(find_figure_references("FIG. 6ab").is_empty());
}

#[test]
fn dedup_keeps_first_of_each_key() {
    let os = vec![occ("bracket", "130"), occ("bracket", "130"), occ("bracket", "131")];
    let unique = dedup_occurrences(&os);
    assert_eq!(unique.len(), 2);
    assert_eq!(unique[0].label, "130");
    assert_eq!(unique[1].label, "131");
    let result = finalize(&os);
    assert_eq!(result.occurrences, strings(&["bracket 130", "bracket 131"]));
    assert_eq!(result.labels, strings(&["130", "131"]));
}

#[test]
fn dedup_ignores_word_case() {
    let os = vec![occ("Bracket", "130"), occ("bracket", "130"), occ("arm", "130")];
    let result = finalize(&os);
    assert_eq!(result.occurrences, strings(&["arm 130", "Bracket 130"]));
    assert_eq!(result.labels, strings(&["130"]));
}

#[test]
fn labels_sort_numerically() {
    assert_eq!(sort_labels(&strings(&["130", "13", "4"])), strings(&["4", "13", "130"]));
    assert_eq!(
        sort_labels(&strings(&["FIG. 6", "130a", "13", "130", "FIG. 2"])),
        strings(&["13", "130", "130a", "FIG. 2", "FIG. 6"])
    );
    assert!(sort_labels(&Vec::new()).is_empty());
}

#[test]
fn conjunction_carries_the_last_word() {
    let formats = vec![LabelFormat::ThreeDigit];
    let os = extract_occurrences(&strings(&["bracket 130 and 131"]), &formats);
    let result = finalize(&os);
    assert_eq!(result.occurrences, strings(&["bracket 130", "bracket 131"]));
    let os = extract_occurrences(&strings(&["and 130"]), &formats);
    assert_eq!(finalize(&os).occurrences, strings(&["and 130"]));
}

#[test]
fn stop_words_head_no_occurrence() {
    for formats in [vec![], five_formats(), vec![LabelFormat::ThreeDigit]] {
        assert!(extract_occurrences(&strings(&["about 130"]), &formats).is_empty());
        assert!(extract_occurrences(&strings(&["of 130"]), &formats).is_empty());
    }
}

#[test]
fn document_extraction() {
    let paragraphs = strings(&[
        "  The bracket 130 holds arms 12a and 12b (FIG. 2). ",
        "",
        "See FIG. 1; the frame 130131 rests on legs 14.",
    ]);
    let r = extract_from_document_text(&paragraphs, true, true, false, true, false);
    assert_eq!(
        r.full_matches,
        strings(&[
            "arm 12a",
            "arm 12b",
            "bracket 130",
            "FIG. 1",
            "FIG. 2",
            "frame 130",
            "frame 131",
            "leg 14",
        ])
    );
    assert_eq!(r.numbers, strings(&["12a", "12b", "14", "130", "131", "FIG. 1", "FIG. 2"]));
    assert_eq!(
        r.paragraphs,
        strings(&[
            "The bracket 130 holds arms 12a and 12b (FIG. 2).",
            "See FIG. 1; the frame 130131 rests on legs 14.",
        ])
    );
}

#[test]
fn document_flags_gate_formats() {
    let paragraphs = strings(&["arm 1104 and lever 130-2"]);
    let none = extract_from_document_text(&paragraphs, false, true, false, true, false);
    assert!(none.full_matches.is_empty());
    let all = extract_from_document_text(&paragraphs, true, true, true, true, true);
    assert_eq!(all.full_matches, strings(&["arm 1104", "lever 130-2"]));
    assert_eq!(all.numbers, strings(&["130-2", "1104"]));
}

#[test]
fn formats_follow_flags() {
    assert_eq!(
        formats_from_flags(true, true, false, true, true),
        vec![
            LabelFormat::TwoDigit,
            LabelFormat::TwoDigitLetter,
            LabelFormat::ThreeDigit,
            LabelFormat::ThreeDigitLetter,
            LabelFormat::ThreeDigitDash,
        ]
    );
    assert!(formats_from_flags(false, false, false, true, true).is_empty());
}

#[test]
fn normalize_number_cases() {
    assert_eq!(normalize_number("130", true, true, true, true, true), "130");
    assert_eq!(normalize_number("130131 130 ,12.", true, true, false, false, false), "130 131 12");
    assert_eq!(normalize_number("FIG. 6", false, false, false, false, false), "FIG. 6");
    assert_eq!(normalize_number("xyz", true, true, true, true, true), "");
}

#[test]
fn ocr_lines() {
    let lines = strings(&["Brackets 130", "FIGURE 7b", "no numbers here"]);
    let r = extract_from_ocr_lines(&lines, &five_formats());
    assert_eq!(r.len(), 3);
    assert_eq!(r[0], ("bracket 130".to_string(), Some("130".to_string())));
    assert_eq!(r[1], ("FIG. 7b".to_string(), Some("FIG. 7b".to_string())));
    assert_eq!(r[2], ("no number here".to_string(), None));
}

#[test]
fn paragraph_text_joins_runs() {
    let runs = vec![
        vec!["The brack".to_string(), "et".to_string()],
        vec![],
        vec!["130".to_string()],
    ];
    assert_eq!(paragraph_text(&runs), "The bracket  130");
    assert_eq!(paragraph_text(&Vec::new()), "");
}

#[test]
fn unicode_text() {
    assert_eq!(clean_token("(é130)"), "é130");
    assert_eq!(clean_token("a\u{00A0}b"), "ab");
    assert_eq!(normalize_text("ÉCROUS"), "écrou");
    assert_eq!(normalize_text("arm\u{00A0}130"), "arm 130");
    let os = extract_occurrences(&strings(&["café 130"]), &[LabelFormat::ThreeDigit]);
    assert_eq!(finalize(&os).occurrences, strings(&["café 130"]));
}
