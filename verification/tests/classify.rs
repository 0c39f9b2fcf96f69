use fasta_fixa::generics::classify::{classify, contains_sex_scaff, scaffold_suffix};

#[test]
fn suffix_after_last_underscore_marks_sex_scaffold() {
    let (suffix, is_sex) = classify("scaffold_12_Wmt");
    assert_eq!(suffix, "Wmt");
    assert!(is_sex);
}

#[test]
fn identifier_without_underscore_has_suffix_na() {
    let (suffix, is_sex) = classify("scaffold12");
    assert_eq!(suffix, "NA");
    assert!(!is_sex);
}

#[test]
fn marker_anywhere_in_suffix_counts() {
    assert_eq!(classify("chr_6x"), ("6x".to_string(), true));
    assert_eq!(classify("chr_ZW12"), ("ZW12".to_string(), true));
    assert_eq!(classify("ctg_scaffoldX9"), ("scaffoldX9".to_string(), true));
}

#[test]
fn suffix_without_marker_is_not_sex() {
    assert_eq!(classify("asm_contig9"), ("contig9".to_string(), false));
    assert_eq!(classify("chr1_A"), ("A".to_string(), false));
}

#[test]
fn marker_before_last_underscore_does_not_count() {
    assert_eq!(classify("X_contig"), ("contig".to_string(), false));
    assert_eq!(classify("chrY_1"), ("1".to_string(), false));
}

#[test]
fn trailing_underscore_gives_empty_suffix() {
    assert_eq!(classify("chr_"), (String::new(), false));
    assert_eq!(classify("_"), (String::new(), false));
}

#[test]
fn empty_identifier_has_suffix_na() {
    assert_eq!(classify(""), ("NA".to_string(), false));
}

#[test]
fn suffix_of_identifier_with_wide_characters() {
    assert_eq!(scaffold_suffix("é_ñW"), "ñW");
    assert_eq!(classify("é_ñW"), ("ñW".to_string(), true));
    assert_eq!(classify("été"), ("NA".to_string(), false));
}

#[test]
fn each_marker_letter_is_found() {
    for text in ["X", "x", "Y", "y", "Z", "z", "W", "w"] {
        assert!(contains_sex_scaff(text), "{}", text);
        assert!(contains_sex_scaff(&format!("ab{}cd", text)));
    }
}

#[test]
fn other_letters_are_no_markers() {
    assert!(!contains_sex_scaff(""));
    assert!(!contains_sex_scaff("NA"));
    assert!(!contains_sex_scaff("ABCDEFGHIJKLMNOPQRSTUVabcdefghijklmnopqrstuv0123456789"));
}

#[test]
fn classification_is_repeatable() {
    for id in ["scaffold_12_Wmt", "scaffold12", "chr_6x", "a_b_c", ""] {
        assert_eq!(classify(id), classify(id));
    }
}
