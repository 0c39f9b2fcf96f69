use fasta_fixa::generics::log::{decimal_string, log_scaffolds};
use fasta_fixa::generics::scaffold::Scaffold;
use fasta_fixa::generics::sequence_map::SequenceMap;
use fasta_fixa::processors::writer::write_ordered_fasta;

fn scaffold(id: &str, suffix: &str, is_sex: bool, length: usize, from: usize, to: usize) -> Scaffold {
    Scaffold {
        id: id.to_string(),
        id_suffix: suffix.to_string(),
        is_sex,
        scaff_length: length,
        original_position: from,
        sorted_position: to,
    }
}

fn map(entries: &[(&str, &[u8])]) -> SequenceMap {
    let mut out = SequenceMap::new();
    for (id, seq) in entries {
        out.insert(id.to_string(), seq.to_vec());
    }
    out
}

fn lines(text: &[u8]) -> Vec<Vec<u8>> {
    let mut out = Vec::new();
    let mut line = Vec::new();
    for b in text {
        if *b == b'\n' {
            out.push(line);
            line = Vec::new();
        } else {
            line.push(*b);
        }
    }
    assert!(line.is_empty());
    out
}

#[test]
fn sequence_is_broken_into_lines_of_the_given_length() {
    let order = vec![scaffold("a_1", "1", false, 7, 0, 0)];
    let out = write_ordered_fasta(&order, &map(&[("a_1", b"ACGTACG")]), 3);
    assert_eq!(out.text, b">a_1\nACG\nTAC\nG\n");
    assert!(out.skipped.is_empty());
}

#[test]
fn sequence_of_a_whole_number_of_lines_has_no_short_line() {
    let order = vec![scaffold("a_1", "1", false, 6, 0, 0)];
    let out = write_ordered_fasta(&order, &map(&[("a_1", b"ACGTAC")]), 3);
    assert_eq!(out.text, b">a_1\nACG\nTAC\n");
    let out = write_ordered_fasta(&order, &map(&[("a_1", b"ACGTAC")]), 6);
    assert_eq!(out.text, b">a_1\nACGTAC\n");
}

#[test]
fn sequence_shorter_than_a_line_stands_on_one_line() {
    let order = vec![scaffold("a_1", "1", false, 4, 0, 0)];
    let out = write_ordered_fasta(&order, &map(&[("a_1", b"ACGT")]), 70);
    assert_eq!(out.text, b">a_1\nACGT\n");
    let out = write_ordered_fasta(&order, &map(&[("a_1", b"ACGT")]), usize::MAX);
    assert_eq!(out.text, b">a_1\nACGT\n");
}

#[test]
fn line_length_one_puts_each_byte_on_a_line() {
    let order = vec![scaffold("a_1", "1", false, 3, 0, 0)];
    let out = write_ordered_fasta(&order, &map(&[("a_1", b"ACG")]), 1);
    assert_eq!(out.text, b">a_1\nA\nC\nG\n");
}

#[test]
fn empty_sequence_has_a_header_and_no_line() {
    let order = vec![scaffold("a_1", "1", false, 0, 0, 0), scaffold("b_1", "1", false, 1, 1, 1)];
    let out = write_ordered_fasta(&order, &map(&[("a_1", b""), ("b_1", b"T")]), 5);
    assert_eq!(out.text, b">a_1\n>b_1\nT\n");
}

#[test]
fn records_follow_the_order_of_the_scaffolds() {
    let order = vec![
        scaffold("chr2_X", "X", true, 3, 1, 0),
        scaffold("chr1_A", "A", false, 5, 0, 1),
    ];
    let out = write_ordered_fasta(&order, &map(&[("chr1_A", b"AAAAA"), ("chr2_X", b"CCC")]), 4);
    assert_eq!(out.text, b">chr2_X\nCCC\n>chr1_A\nAAAA\nA\n");
}

#[test]
fn scaffold_without_sequence_is_skipped_and_reported() {
    let order = vec![
        scaffold("a_1", "1", false, 2, 0, 0),
        scaffold("gone_X", "X", true, 9, 1, 1),
        scaffold("b_1", "1", false, 2, 2, 2),
        scaffold("lost", "NA", false, 1, 3, 3),
    ];
    let out = write_ordered_fasta(&order, &map(&[("a_1", b"AC"), ("b_1", b"GT")]), 10);
    assert_eq!(out.text, b">a_1\nAC\n>b_1\nGT\n");
    assert_eq!(out.skipped, vec!["gone_X", "lost"]);
}

#[test]
fn sequence_bytes_come_from_the_map_not_from_the_index() {
    let order = vec![scaffold("a_1", "1", false, 100, 0, 0)];
    let out = write_ordered_fasta(&order, &map(&[("a_1", b"AC")]), 10);
    assert_eq!(out.text, b">a_1\nAC\n");
}

#[test]
fn identifier_is_written_in_utf8() {
    let order = vec![scaffold("gén_ñ", "ñ", false, 2, 0, 0)];
    let out = write_ordered_fasta(&order, &map(&[("gén_ñ", b"AC")]), 10);
    assert_eq!(out.text, ">gén_ñ\nAC\n".as_bytes());
}

#[test]
fn bytes_that_are_no_text_are_written_as_they_are() {
    let order = vec![scaffold("a_1", "1", false, 5, 0, 0)];
    let out = write_ordered_fasta(&order, &map(&[("a_1", b"\xff\xfe\x00AC")]), 2);
    assert_eq!(out.text, b">a_1\n\xff\xfe\n\x00A\nC\n");
}

#[test]
fn every_line_but_the_last_of_a_record_is_full() {
    let seq: Vec<u8> = (0..1003).map(|i| b"ACGT"[i % 4]).collect();
    for width in [1usize, 2, 7, 59, 60, 70, 1002, 1003, 1004] {
        let order = vec![scaffold("a_1", "1", false, seq.len(), 0, 0)];
        let out = write_ordered_fasta(&order, &map(&[("a_1", &seq)]), width);
        let all = lines(&out.text);
        assert_eq!(all[0], b">a_1");
        let body = &all[1..];
        assert_eq!(body.len(), (seq.len() + width - 1) / width);
        for line in &body[..body.len() - 1] {
            assert_eq!(line.len(), width);
        }
        let last = body[body.len() - 1].len();
        assert!(1 <= last && last <= width);
        assert_eq!(body.concat(), seq);
    }
}

#[test]
fn nothing_to_write_gives_empty_text() {
    let out = write_ordered_fasta(&Vec::new(), &SequenceMap::new(), 70);
    assert!(out.text.is_empty());
    assert!(out.skipped.is_empty());
}

#[test]
fn log_block_lists_the_fields_of_a_scaffold() {
    let s = scaffold("chr2_X", "X", true, 300, 1, 0);
    assert_eq!(
        s.describe(),
        "ID: chr2_X\n\t-SUFFIX: X\n\t-IS_SEX: true\n\t-SCAFFOLD_LENGTH: 300\n\t-ORIGINAL_POSITION: 1\n\t-SORTED_POSITION: 0\n"
    );
    let s = scaffold("scaffold12", "NA", false, 0, 12, 1234567);
    assert_eq!(
        s.describe(),
        "ID: scaffold12\n\t-SUFFIX: NA\n\t-IS_SEX: false\n\t-SCAFFOLD_LENGTH: 0\n\t-ORIGINAL_POSITION: 12\n\t-SORTED_POSITION: 1234567\n"
    );
}

#[test]
fn log_block_is_what_the_format_string_gives() {
    let s = scaffold("a_b_Wq", "Wq", true, 98765, 43, 21);
    let expected = format!(
        "ID: {}\n\t-SUFFIX: {}\n\t-IS_SEX: {}\n\t-SCAFFOLD_LENGTH: {}\n\t-ORIGINAL_POSITION: {}\n\t-SORTED_POSITION: {}\n",
        s.id, s.id_suffix, s.is_sex, s.scaff_length, s.original_position, s.sorted_position
    );
    assert_eq!(s.describe(), expected);
}

#[test]
fn log_holds_one_block_for_each_scaffold_in_order() {
    let order = vec![scaffold("b_X", "X", true, 3, 1, 0), scaffold("a_1", "1", false, 5, 0, 1)];
    assert_eq!(
        log_scaffolds(&order),
        "ID: b_X\n\t-SUFFIX: X\n\t-IS_SEX: true\n\t-SCAFFOLD_LENGTH: 3\n\t-ORIGINAL_POSITION: 1\n\t-SORTED_POSITION: 0\n\n\
         ID: a_1\n\t-SUFFIX: 1\n\t-IS_SEX: false\n\t-SCAFFOLD_LENGTH: 5\n\t-ORIGINAL_POSITION: 0\n\t-SORTED_POSITION: 1\n\n"
    );
    assert_eq!(log_scaffolds(&Vec::new()), "");
}

#[test]
fn decimal_string_writes_numbers_without_leading_zeros() {
    assert_eq!(decimal_string(0), "0");
    assert_eq!(decimal_string(7), "7");
    assert_eq!(decimal_string(9), "9");
    assert_eq!(decimal_string(10), "10");
    assert_eq!(decimal_string(99), "99");
    assert_eq!(decimal_string(100), "100");
    assert_eq!(decimal_string(1234567890), "1234567890");
    assert_eq!(decimal_string(usize::MAX), usize::MAX.to_string());
}
