use fasta_fixa::cli::{
    fasta_path, log_path, parse_direction, parse_sort_option, Commands, Direction, SortMode, CLI,
    DIRECTION, SORT_OPTIONS,
};
use fasta_fixa::error::FixaError;
use fasta_fixa::generics::reader::{parse_records, FastaRecord};
use fasta_fixa::processors::sort_fasta::{sort_fasta_main, sort_records};

const THREE: &[u8] = b">chr1_A\nAAAAA\n>chr2_X\nCCC\n>chr3_B\nGGGGGGG\n";

fn ids(out: &fasta_fixa::processors::sort_fasta::SortedFasta) -> Vec<String> {
    let mut v = Vec::new();
    for s in &out.order {
        v.push(s.id.clone());
    }
    v
}

#[test]
fn sort_options_are_read() {
    assert_eq!(parse_sort_option("SLT"), Ok(SortMode::SexLengthTop));
    assert_eq!(parse_sort_option("SLB"), Ok(SortMode::SexLengthBottom));
    assert_eq!(parse_sort_option("SL"), Ok(SortMode::ScaffoldLength));
}

#[test]
fn sort_option_sn_is_unsupported() {
    assert_eq!(parse_sort_option("SN"), Err(FixaError::UnsupportedSortOption));
}

#[test]
fn other_sort_options_are_unknown() {
    for text in ["", "slt", "SLTT", "S", "SLT ", "SEX_LENGTH_TOP", "sn"] {
        assert_eq!(parse_sort_option(text), Err(FixaError::UnknownSortOption), "{:?}", text);
    }
}

#[test]
fn directions_are_read() {
    assert_eq!(parse_direction("ASCENDING"), Ok(Direction::Ascending));
    assert_eq!(parse_direction("DESCENDING"), Ok(Direction::Descending));
}

#[test]
fn other_directions_are_unknown() {
    for text in ["", "ascending", "ASC", "DESCENDING ", "UP"] {
        assert_eq!(parse_direction(text), Err(FixaError::UnknownDirection), "{:?}", text);
    }
}

#[test]
fn every_declared_option_is_read_or_refused_as_unsupported() {
    for option in SORT_OPTIONS {
        assert_ne!(parse_sort_option(option), Err(FixaError::UnknownSortOption));
    }
    for word in DIRECTION {
        assert!(parse_direction(word).is_ok());
    }
}

#[test]
fn strategies_have_their_names() {
    assert_eq!(SortMode::SexLengthTop.name(), "SEX_LENGTH_TOP");
    assert_eq!(SortMode::SexLengthBottom.name(), "SEX_LENGTH_BOTTOM");
    assert_eq!(SortMode::ScaffoldLength.name(), "SCAFFOLD_LENGTH");
}

#[test]
fn output_paths_are_built_from_directory_and_prefix() {
    assert_eq!(log_path("./"), ".//scaffold_changes.log");
    assert_eq!(log_path("out"), "out/scaffold_changes.log");
    assert_eq!(fasta_path("sorted_fasta"), "sorted_fasta.fasta");
    assert_eq!(fasta_path(""), ".fasta");
}

#[test]
fn command_holds_the_parameters_of_a_run() {
    let cli = CLI {
        command: Some(Commands::Sort {
            fasta: "in.fa".to_string(),
            line_length: 70,
            sort_option: "SLT".to_string(),
            direction: "ASCENDING".to_string(),
            prefix: "sorted_fasta".to_string(),
            output: "./".to_string(),
        }),
    };
    match cli.command {
        Some(Commands::Sort { fasta, line_length, sort_option, direction, prefix, output }) => {
            assert_eq!(fasta, "in.fa");
            assert_eq!(line_length, 70);
            assert_eq!(parse_sort_option(&sort_option), Ok(SortMode::SexLengthTop));
            assert_eq!(parse_direction(&direction), Ok(Direction::Ascending));
            assert_eq!(fasta_path(&prefix), "sorted_fasta.fasta");
            assert_eq!(log_path(&output), ".//scaffold_changes.log");
        }
        None => panic!("a command was given"),
    }
    assert!(CLI { command: None }.command.is_none());
}

#[test]
fn run_by_scaffold_length_ascending() {
    let out = sort_fasta_main(THREE, 4, "SL", "ASCENDING").ok().unwrap();
    assert_eq!(ids(&out), vec!["chr2_X", "chr1_A", "chr3_B"]);
    assert_eq!(out.fasta, b">chr2_X\nCCC\n>chr1_A\nAAAA\nA\n>chr3_B\nGGGG\nGGG\n");
    assert_eq!(
        out.log,
        "ID: chr2_X\n\t-SUFFIX: X\n\t-IS_SEX: true\n\t-SCAFFOLD_LENGTH: 3\n\t-ORIGINAL_POSITION: 1\n\t-SORTED_POSITION: 0\n\n\
         ID: chr1_A\n\t-SUFFIX: A\n\t-IS_SEX: false\n\t-SCAFFOLD_LENGTH: 5\n\t-ORIGINAL_POSITION: 0\n\t-SORTED_POSITION: 1\n\n\
         ID: chr3_B\n\t-SUFFIX: B\n\t-IS_SEX: false\n\t-SCAFFOLD_LENGTH: 7\n\t-ORIGINAL_POSITION: 2\n\t-SORTED_POSITION: 2\n\n"
    );
}

#[test]
fn run_sex_length_top_descending() {
    let out = sort_fasta_main(THREE, 70, "SLT", "DESCENDING").ok().unwrap();
    assert_eq!(ids(&out), vec!["chr2_X", "chr3_B", "chr1_A"]);
    assert_eq!(out.fasta, b">chr2_X\nCCC\n>chr3_B\nGGGGGGG\n>chr1_A\nAAAAA\n");
}

#[test]
fn run_sex_length_bottom_ascending() {
    let out = sort_fasta_main(THREE, 70, "SLB", "ASCENDING").ok().unwrap();
    assert_eq!(ids(&out), vec!["chr1_A", "chr3_B", "chr2_X"]);
    assert_eq!(out.fasta, b">chr1_A\nAAAAA\n>chr3_B\nGGGGGGG\n>chr2_X\nCCC\n");
}

#[test]
fn run_refuses_sn_before_reading() {
    assert!(matches!(
        sort_fasta_main(THREE, 70, "SN", "ASCENDING"),
        Err(FixaError::UnsupportedSortOption)
    ));
    assert!(matches!(
        sort_fasta_main(b"not fasta", 70, "SN", "sideways"),
        Err(FixaError::UnsupportedSortOption)
    ));
}

#[test]
fn run_reports_the_first_thing_that_is_wrong() {
    assert!(matches!(
        sort_fasta_main(b"", 70, "XX", "sideways"),
        Err(FixaError::UnknownSortOption)
    ));
    assert!(matches!(
        sort_fasta_main(b"", 70, "SL", "sideways"),
        Err(FixaError::UnknownDirection)
    ));
    assert!(matches!(
        sort_fasta_main(b"", 70, "SL", "ASCENDING"),
        Err(FixaError::MalformedFasta)
    ));
    assert!(matches!(
        sort_fasta_main(b">a\nAC\n>b", 70, "SLT", "DESCENDING"),
        Err(FixaError::MalformedFasta)
    ));
}

#[test]
fn run_writes_every_record_once() {
    let text = b">a_X\nAC\n>b_1\nACGT\n>c_y\nA\n>d_2\nACGT\n>e\nACG\n";
    for option in ["SLT", "SLB", "SL"] {
        for direction in ["ASCENDING", "DESCENDING"] {
            let out = sort_fasta_main(text, 3, option, direction).ok().unwrap();
            let again = parse_records(&out.fasta).unwrap();
            let mut written: Vec<FastaRecord> = again.clone();
            let mut read = parse_records(text).unwrap();
            written.sort_by(|a, b| a.id.cmp(&b.id));
            read.sort_by(|a, b| a.id.cmp(&b.id));
            assert_eq!(written, read);
            let order: Vec<String> = again.into_iter().map(|r| r.id).collect();
            assert_eq!(order, ids(&out));
        }
    }
}

#[test]
fn run_with_a_repeated_identifier_writes_the_later_sequence_for_both() {
    let out = sort_fasta_main(b">a_1\nAAAA\n>b_1\nCC\n>a_1\nG\n", 70, "SL", "ASCENDING").ok().unwrap();
    assert_eq!(ids(&out), vec!["a_1", "b_1", "a_1"]);
    assert_eq!(out.fasta, b">a_1\nG\n>b_1\nCC\n>a_1\nG\n");
}

#[test]
fn sort_records_gives_order_log_and_text() {
    let records = vec![
        FastaRecord { id: "long_1".to_string(), seq: b"ACGTACGT".to_vec() },
        FastaRecord { id: "short_Z".to_string(), seq: b"TT".to_vec() },
    ];
    let out = sort_records(records, 5, SortMode::ScaffoldLength, Direction::Ascending);
    assert_eq!(ids(&out), vec!["short_Z", "long_1"]);
    assert_eq!(out.order[0].original_position, 1);
    assert_eq!(out.order[0].sorted_position, 0);
    assert_eq!(out.order[1].original_position, 0);
    assert_eq!(out.order[1].sorted_position, 1);
    assert_eq!(out.fasta, b">short_Z\nTT\n>long_1\nACGTA\nCGT\n");
    assert!(out.log.starts_with("ID: short_Z\n\t-SUFFIX: Z\n\t-IS_SEX: true\n"));
}
