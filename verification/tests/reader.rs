use fasta_fixa::error::FixaError;
use fasta_fixa::generics::reader::{
    first_word, index_records, map_records, parse_records, read_fasta, read_fasta_to_map,
    records_from_parsed, FastaRecord,
};
use fasta_fixa::generics::scaffold::Scaffold;
use fasta_fixa::generics::sequence_map::SequenceMap;

fn record(id: &str, seq: &[u8]) -> FastaRecord {
    FastaRecord { id: id.to_string(), seq: seq.to_vec() }
}

#[test]
fn read_fasta_indexes_records_in_file_order() {
    let index = read_fasta(b">chr1_A\nACGT\nAC\n>chr2_X\nGG\n>scaffold12\nTTT\n").unwrap();
    assert_eq!(
        index,
        vec![
            Scaffold {
                id: "chr1_A".to_string(),
                id_suffix: "A".to_string(),
                is_sex: false,
                scaff_length: 6,
                original_position: 0,
                sorted_position: 0,
            },
            Scaffold {
                id: "chr2_X".to_string(),
                id_suffix: "X".to_string(),
                is_sex: true,
                scaff_length: 2,
                original_position: 1,
                sorted_position: 0,
            },
            Scaffold {
                id: "scaffold12".to_string(),
                id_suffix: "NA".to_string(),
                is_sex: false,
                scaff_length: 3,
                original_position: 2,
                sorted_position: 0,
            },
        ]
    );
}

#[test]
fn identifier_is_the_header_up_to_the_first_whitespace() {
    let records = parse_records(b">chr1_X some text_A\nAC\n>chr2_B\tmore_W\nGT\n").unwrap();
    assert_eq!(records, vec![record("chr1_X", b"AC"), record("chr2_B", b"GT")]);
    let index = read_fasta(b">chr1_X some text_A\nAC\n>chr2_B\tmore_W\nGT\n").unwrap();
    assert_eq!(index[0].id_suffix, "X");
    assert!(index[0].is_sex);
    assert_eq!(index[1].id_suffix, "B");
    assert!(!index[1].is_sex);
}

#[test]
fn sequence_lines_are_joined_without_line_ends() {
    let records = parse_records(b">a\r\nAC\r\nGT\r\n>b\nAAA\nCC").unwrap();
    assert_eq!(records, vec![record("a", b"ACGT"), record("b", b"AAACC")]);
}

#[test]
fn record_without_sequence_has_length_zero() {
    let index = read_fasta(b">empty_1\n>full_2\nACGT\n").unwrap();
    assert_eq!(index.len(), 2);
    assert_eq!(index[0].scaff_length, 0);
    assert_eq!(index[1].scaff_length, 4);
}

#[test]
fn empty_text_is_malformed() {
    assert_eq!(read_fasta(b""), Err(FixaError::MalformedFasta));
    assert_eq!(parse_records(b"").unwrap_err(), FixaError::MalformedFasta);
    assert!(matches!(read_fasta_to_map(b""), Err(FixaError::MalformedFasta)));
}

#[test]
fn text_that_starts_with_no_header_is_malformed() {
    assert_eq!(read_fasta(b"ACGT\nACGT\n"), Err(FixaError::MalformedFasta));
}

#[test]
fn truncated_record_is_malformed() {
    assert_eq!(read_fasta(b">a\nAC\n>b"), Err(FixaError::MalformedFasta));
    assert_eq!(read_fasta(b">a"), Err(FixaError::MalformedFasta));
}

#[test]
fn invalid_utf8_in_identifier_is_replaced() {
    let records = parse_records(b">ab\xff_X\nAC\n").unwrap();
    assert_eq!(records[0].id, "ab\u{fffd}_X");
    let index = index_records(&records);
    assert_eq!(index[0].id_suffix, "X");
    assert!(index[0].is_sex);
}

#[test]
fn valid_utf8_in_identifier_is_decoded() {
    let records = parse_records(">gén_ñW\nAC\n".as_bytes()).unwrap();
    assert_eq!(records[0].id, "gén_ñW");
}

#[test]
fn first_word_stops_at_each_kind_of_blank() {
    assert_eq!(first_word(b"abc def"), b"abc");
    assert_eq!(first_word(b"abc\tdef"), b"abc");
    assert_eq!(first_word(b"abc\x0bdef"), b"abc");
    assert_eq!(first_word(b"abc\x0cdef"), b"abc");
    assert_eq!(first_word(b"abc\rdef"), b"abc");
    assert_eq!(first_word(b"abc\ndef"), b"abc");
    assert_eq!(first_word(b"abc"), b"abc");
    assert_eq!(first_word(b" abc"), b"");
    assert_eq!(first_word(b""), b"");
    assert_eq!(first_word(b"a\x08\x0e\x1f\x21b c"), b"a\x08\x0e\x1f\x21b");
}

#[test]
fn records_from_parsed_keeps_sequences_and_order() {
    let raw = vec![
        (b"one_X first".to_vec(), b"ACGT".to_vec()),
        (b"two".to_vec(), Vec::new()),
    ];
    assert_eq!(records_from_parsed(raw), vec![record("one_X", b"ACGT"), record("two", b"")]);
    assert!(records_from_parsed(Vec::new()).is_empty());
}

#[test]
fn index_records_counts_positions_from_zero() {
    let records = vec![record("a_1", b"AAAA"), record("b_w", b"C"), record("c", b"")];
    let index = index_records(&records);
    assert_eq!(index.len(), 3);
    for (i, s) in index.iter().enumerate() {
        assert_eq!(s.original_position, i);
        assert_eq!(s.sorted_position, 0);
        assert_eq!(s.id, records[i].id);
        assert_eq!(s.scaff_length, records[i].seq.len());
    }
    assert_eq!(index[1].id_suffix, "w");
    assert!(index[1].is_sex);
    assert_eq!(index[2].id_suffix, "NA");
}

#[test]
fn map_holds_the_sequence_of_each_identifier() {
    let map = read_fasta_to_map(b">a_1\nAC\nGT\n>b_2\nTT\n").unwrap();
    assert_eq!(map.get("a_1"), Some(&b"ACGT".to_vec()));
    assert_eq!(map.get("b_2"), Some(&b"TT".to_vec()));
    assert_eq!(map.get("c_3"), None);
    assert!(map.contains_key("a_1"));
    assert!(!map.contains_key("a"));
}

#[test]
fn later_record_replaces_earlier_one_in_the_map() {
    let map = map_records(vec![record("a", b"AAAA"), record("b", b"CC"), record("a", b"GG")]);
    assert_eq!(map.get("a"), Some(&b"GG".to_vec()));
    assert_eq!(map.get("b"), Some(&b"CC".to_vec()));
}

#[test]
fn sequence_map_starts_empty_and_takes_entries() {
    let mut map = SequenceMap::new();
    assert!(!map.contains_key("a"));
    assert_eq!(map.get("a"), None);
    map.insert("a".to_string(), b"AC".to_vec());
    assert_eq!(map.get("a"), Some(&b"AC".to_vec()));
    map.insert("a".to_string(), b"T".to_vec());
    assert_eq!(map.get("a"), Some(&b"T".to_vec()));
}

#[test]
fn any_small_text_is_read_or_refused() {
    let alphabet: &[u8] = b">@\n\r+ \tA_X\x1f\x8b\x42\x5a\xfd\x37\x28\xb5\xff";
    let mut state: u64 = 0x9e37_79b9_7f4a_7c15;
    let mut read = 0usize;
    let mut refused = 0usize;
    for _ in 0..20000 {
        state ^= state << 13;
        state ^= state >> 7;
        state ^= state << 17;
        let length = (state % 14) as usize;
        let mut text = Vec::new();
        let mut bits = state >> 8;
        for _ in 0..length {
            text.push(alphabet[(bits % alphabet.len() as u64) as usize]);
            bits = bits.wrapping_mul(0x5851_f42d_4c95_7f2d).wrapping_add(1) >> 3;
        }
        match read_fasta(&text) {
            Ok(index) => {
                read += 1;
                for (i, s) in index.iter().enumerate() {
                    assert_eq!(s.original_position, i);
                }
                let map = read_fasta_to_map(&text).ok().unwrap();
                for s in &index {
                    assert!(map.contains_key(&s.id));
                }
            }
            Err(e) => {
                refused += 1;
                assert_eq!(e, FixaError::MalformedFasta);
                assert!(read_fasta_to_map(&text).is_err());
            }
        }
    }
    assert!(read > 0 && refused > 0);
}

#[test]
fn reading_the_same_text_twice_gives_the_same_records() {
    let text = b">a_X one\nACGT\nAC\n>b\r\nGG\r\n>c_1\n";
    assert_eq!(parse_records(text), parse_records(text));
    assert_eq!(read_fasta(text), read_fasta(text));
}
