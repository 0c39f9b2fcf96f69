//! Reading FASTA text into records, and records into the scaffold index.

use crate::error::FixaError;
use crate::generics::classify::{classify, has_sex_marker, suffix_of};
use crate::generics::scaffold::{Scaffold, ScaffoldView};
use crate::generics::sequence_map::SequenceMap;
use vstd::prelude::*;
use vstd::slice::slice_subrange;

verus! {

/// The error of the FASTA parser.
#[verifier::external_type_specification]
#[verifier::external_body]
pub struct ExParseError(needletail::errors::ParseError);

/// The records that the FASTA parser finds in a text, each as its header line and
/// its sequence without line ends; `None` where the parser rejects the text.
pub uninterp spec fn fastx_records(data: Seq<u8>) -> Option<Seq<(Seq<u8>, Seq<u8>)>>;

/// What lossy UTF-8 decoding makes of a byte string.
pub uninterp spec fn utf8_lossy(bytes: Seq<u8>) -> Seq<char>;

/// Runs `needletail::parse_fastx_reader` over the text and its reader to the end,
/// taking of each record its `id()` and its `seq()`. The contract names the outcome
/// after the text alone: the parser reads nothing else. Nothing is claimed of which
/// texts it accepts, nor of what it makes of them.
#[verifier::external_body]
fn parse_fastx(data: &[u8]) -> (parsed: Result<
    Vec<(Vec<u8>, Vec<u8>)>,
    needletail::errors::ParseError,
>)
    ensures
        match parsed {
            Ok(records) => fastx_records(data@) == Some(records.deep_view()),
            Err(_) => fastx_records(data@) is None,
        },
{
    let mut reader = needletail::parse_fastx_reader(data)?;
    let mut records = Vec::new();
    while let Some(record) = reader.next() {
        let record = record?;
        records.push((record.id().to_vec(), record.seq().to_vec()));
    }
    Ok(records)
}

/// Calls `String::from_utf8_lossy`. The contract names the text that it gives, and
/// says that well-formed UTF-8 is decoded as it stands.
#[verifier::external_body]
fn lossy_string(bytes: &[u8]) -> (text: String)
    ensures
        text@ == utf8_lossy(bytes@),
        vstd::utf8::valid_utf8(bytes@) ==> text@ == vstd::utf8::decode_utf8(bytes@),
{
    String::from_utf8_lossy(bytes).into_owned()
}

/// One FASTA record: its identifier and its sequence.
#[derive(Debug, Clone, PartialEq, Eq)]
pub struct FastaRecord {
    /// The identifier: the first word of the header line.
    pub id: String,
    /// The bytes of the sequence, without line ends.
    pub seq: Vec<u8>,
}

/// The mathematical value of a [`FastaRecord`].
pub ghost struct FastaRecordView {
    pub id: Seq<char>,
    pub seq: Seq<u8>,
}

impl View for FastaRecord {
    type V = FastaRecordView;

    open spec fn view(&self) -> FastaRecordView {
        FastaRecordView { id: self.id@, seq: self.seq@ }
    }
}

impl DeepView for FastaRecord {
    type V = FastaRecordView;

    open spec fn deep_view(&self) -> FastaRecordView {
        self@
    }
}

/// The bytes that end the identifier within a header line: the space and the
/// control characters from tab to carriage return.
pub open spec fn is_blank(b: u8) -> bool {
    b == 0x20 || (0x09 <= b && b <= 0x0d)
}

/// The number of bytes of a header line before its first blank.
pub open spec fn token_length(header: Seq<u8>) -> int
    decreases header.len(),
{
    if header.len() == 0 {
        0
    } else {
        let before = token_length(header.drop_last());
        if before < header.len() - 1 || is_blank(header.last()) {
            before
        } else {
            header.len() as int
        }
    }
}

/// The first word of a header line: what stands before its first blank.
pub open spec fn header_token(header: Seq<u8>) -> Seq<u8> {
    header.take(token_length(header))
}

/// The first word ends at the first blank of the line, or with the line.
pub proof fn lemma_token_length(header: Seq<u8>)
    ensures
        0 <= token_length(header) <= header.len(),
        forall|i: int| 0 <= i < token_length(header) ==> !is_blank(#[trigger] header[i]),
        token_length(header) < header.len() ==> is_blank(header[token_length(header)]),
    decreases header.len(),
{
    if header.len() > 0 {
        lemma_token_length(header.drop_last());
        let before = token_length(header.drop_last());
        assert forall|i: int| 0 <= i < token_length(header) implies !is_blank(
            #[trigger] header[i],
        ) by {
            if i < header.len() - 1 {
                assert(header.drop_last()[i] == header[i]);
            }
        }
        if before < header.len() - 1 {
            assert(header.drop_last()[before] == header[before]);
        }
    }
}

/// Whether a byte ends the identifier within a header line.
fn ends_word(b: u8) -> (blank: bool)
    ensures
        blank == is_blank(b),
{
    b == 0x20 || (0x09 <= b && b <= 0x0d)
}

/// The first word of a header line.
pub fn first_word(header: &[u8]) -> (token: &[u8])
    ensures
        token@ == header_token(header@),
{
    let n = header.len();
    let mut i: usize = 0;
    while i < n && !ends_word(header[i])
        invariant
            i <= n,
            n == header@.len(),
            token_length(header@.take(i as int)) == i,
        decreases n - i,
    {
        assert(header@.take(i + 1).drop_last() =~= header@.take(i as int));
        i += 1;
    }
    proof {
        lemma_token_prefix(header@, i as int);
    }
    slice_subrange(header, 0, i)
}

/// A prefix without blanks that ends at a blank, or with the line, is the first word.
proof fn lemma_token_prefix(header: Seq<u8>, i: int)
    requires
        0 <= i <= header.len(),
        token_length(header.take(i)) == i,
        i < header.len() ==> is_blank(header[i]),
    ensures
        token_length(header) == i,
{
    if i < header.len() {
        lemma_token_prefix_step(header, i, header.len() as int);
    }
    assert(header.take(header.len() as int) =~= header);
}

/// The first word of a prefix that reaches beyond a blank ends at that blank.
proof fn lemma_token_prefix_step(header: Seq<u8>, i: int, k: int)
    requires
        0 <= i < k <= header.len(),
        token_length(header.take(i)) == i,
        is_blank(header[i]),
    ensures
        token_length(header.take(k)) == i,
    decreases k - i,
{
    assert(header.take(k).drop_last() =~= header.take(k - 1));
    if k - 1 > i {
        lemma_token_prefix_step(header, i, k - 1);
    }
}

/// The record that a parsed header line and sequence stand for.
pub open spec fn record_of(raw: (Seq<u8>, Seq<u8>)) -> FastaRecordView {
    FastaRecordView { id: utf8_lossy(header_token(raw.0)), seq: raw.1 }
}

/// The records that parsed header lines and sequences stand for.
pub open spec fn records_of(raw: Seq<(Seq<u8>, Seq<u8>)>) -> Seq<FastaRecordView> {
    Seq::new(raw.len(), |i: int| record_of(raw[i]))
}

/// Turns parsed header lines and sequences into records: the identifier is the
/// first word of the header line, decoded as UTF-8 with replacement.
pub fn records_from_parsed(raw: Vec<(Vec<u8>, Vec<u8>)>) -> (records: Vec<FastaRecord>)
    ensures
        records.deep_view() == records_of(raw.deep_view()),
{
    let ghost all = raw.deep_view();
    let mut records: Vec<FastaRecord> = Vec::new();
    for pair in it: raw
        invariant
            it.seq() == raw@,
            all == raw.deep_view(),
            records@.len() == it.index(),
            forall|k: int| 0 <= k < records@.len() ==> (#[trigger] records@[k])@ == record_of(all[k]),
    {
        let ghost k = it.index() as int;
        let (header, seq) = pair;
        proof {
            assert(all[k] == raw@[k].deep_view());
            assert(header.deep_view() =~= header@);
            assert(seq.deep_view() =~= seq@);
        }
        let id = lossy_string(first_word(header.as_slice()));
        records.push(FastaRecord { id, seq });
    }
    assert(records.deep_view() =~= records_of(all));
    records
}

/// Parses FASTA text into its records, in the order of the text.
pub fn parse_records(data: &[u8]) -> (parsed: Result<Vec<FastaRecord>, FixaError>)
    ensures
        match fastx_records(data@) {
            Some(raw) => parsed is Ok && parsed->Ok_0.deep_view() == records_of(raw),
            None => parsed == Err::<Vec<FastaRecord>, FixaError>(FixaError::MalformedFasta),
        },
{
    match parse_fastx(data) {
        Ok(raw) => Ok(records_from_parsed(raw)),
        Err(_) => Err(FixaError::MalformedFasta),
    }
}

/// The entry of the index for a record at a place of the input.
pub open spec fn scaffold_of(record: FastaRecordView, position: nat) -> ScaffoldView {
    ScaffoldView {
        id: record.id,
        id_suffix: suffix_of(record.id),
        is_sex: has_sex_marker(suffix_of(record.id)),
        scaff_length: record.seq.len(),
        original_position: position,
        sorted_position: 0,
    }
}

/// The index of a sequence of records: one entry for each, in their order.
pub open spec fn index_of(records: Seq<FastaRecordView>) -> Seq<ScaffoldView> {
    Seq::new(records.len(), |i: int| scaffold_of(records[i], i as nat))
}

/// Builds the scaffold index of the records.
pub fn index_records(records: &Vec<FastaRecord>) -> (index: Vec<Scaffold>)
    ensures
        index.deep_view() == index_of(records.deep_view()),
{
    let mut scaffolds: Vec<Scaffold> = Vec::new();
    let mut position: usize = 0;
    while position < records.len()
        invariant
            position <= records@.len(),
            scaffolds@.len() == position,
            forall|k: int|
                0 <= k < position ==> (#[trigger] scaffolds@[k])@ == scaffold_of(
                    records@[k]@,
                    k as nat,
                ),
        decreases records@.len() - position,
    {
        let record = &records[position];
        let (scaff_suffix, is_sex) = classify(record.id.as_str());
        scaffolds.push(
            Scaffold {
                id: record.id.clone(),
                id_suffix: scaff_suffix,
                is_sex,
                scaff_length: record.seq.len(),
                original_position: position,
                sorted_position: 0,
            },
        );
        position += 1;
    }
    assert(scaffolds.deep_view() =~= index_of(records.deep_view()));
    scaffolds
}

/// The sequences of the records by identifier; of two records with one identifier
/// the later one stays.
pub open spec fn sequences_of(records: Seq<FastaRecordView>) -> Map<Seq<char>, Seq<u8>>
    decreases records.len(),
{
    if records.len() == 0 {
        Map::empty()
    } else {
        sequences_of(records.drop_last()).insert(records.last().id, records.last().seq)
    }
}

/// The map holds a sequence for the identifier of every record.
pub proof fn lemma_sequences_hold(records: Seq<FastaRecordView>, i: int)
    requires
        0 <= i < records.len(),
    ensures
        sequences_of(records).contains_key(records[i].id),
    decreases records.len(),
{
    if i < records.len() - 1 {
        lemma_sequences_hold(records.drop_last(), i);
    }
}

/// The map holds an identifier exactly where a record has it.
pub proof fn lemma_sequences_keys(records: Seq<FastaRecordView>, id: Seq<char>)
    ensures
        sequences_of(records).contains_key(id) <==> exists|i: int|
            0 <= i < records.len() && (#[trigger] records[i]).id == id,
    decreases records.len(),
{
    if records.len() > 0 {
        let rest = records.drop_last();
        lemma_sequences_keys(rest, id);
        if sequences_of(records).contains_key(id) {
            if records.last().id == id {
                assert(records[records.len() - 1].id == id);
            } else {
                let i = choose|i: int| 0 <= i < rest.len() && (#[trigger] rest[i]).id == id;
                assert(records[i].id == id);
            }
        }
        if exists|i: int| 0 <= i < records.len() && (#[trigger] records[i]).id == id {
            let i = choose|i: int| 0 <= i < records.len() && (#[trigger] records[i]).id == id;
            if i < records.len() - 1 {
                assert(rest[i].id == id);
            }
        }
    }
}

/// Under an identifier the map holds the sequence of the last record that has it.
pub proof fn lemma_sequences_last(records: Seq<FastaRecordView>, i: int)
    requires
        0 <= i < records.len(),
        forall|j: int| i < j < records.len() ==> (#[trigger] records[j]).id != records[i].id,
    ensures
        sequences_of(records).contains_key(records[i].id),
        sequences_of(records)[records[i].id] == records[i].seq,
    decreases records.len(),
{
    if i < records.len() - 1 {
        let rest = records.drop_last();
        assert forall|j: int| i < j < rest.len() implies (#[trigger] rest[j]).id != rest[i].id by {
            assert(rest[j] == records[j]);
        }
        lemma_sequences_last(rest, i);
        assert(records[records.len() - 1].id != records[i].id);
    }
}

/// Builds the map from identifier to sequence.
pub fn map_records(records: Vec<FastaRecord>) -> (map: SequenceMap)
    ensures
        map@ == sequences_of(records.deep_view()),
{
    let ghost all = records.deep_view();
    let mut map = SequenceMap::new();
    for record in it: records
        invariant
            it.seq() == records@,
            all == records.deep_view(),
            map@ == sequences_of(all.take(it.index() as int)),
    {
        let ghost k = it.index() as int;
        proof {
            assert(all.take(k + 1).drop_last() =~= all.take(k));
            assert(all[k] == record@);
        }
        map.insert(record.id, record.seq);
    }
    assert(all.take(all.len() as int) =~= all);
    map
}

/// Reads FASTA text into the scaffold index: one entry for each record, in the
/// order of the text.
pub fn read_fasta(data: &[u8]) -> (index: Result<Vec<Scaffold>, FixaError>)
    ensures
        match fastx_records(data@) {
            Some(raw) => index is Ok && index->Ok_0.deep_view() == index_of(records_of(raw)),
            None => index == Err::<Vec<Scaffold>, FixaError>(FixaError::MalformedFasta),
        },
{
    match parse_records(data) {
        Ok(records) => Ok(index_records(&records)),
        Err(e) => Err(e),
    }
}

/// Reads FASTA text into the map from identifier to sequence.
pub fn read_fasta_to_map(data: &[u8]) -> (map: Result<SequenceMap, FixaError>)
    ensures
        match fastx_records(data@) {
            Some(raw) => map is Ok && map->Ok_0@ == sequences_of(records_of(raw)),
            None => map is Err && map->Err_0 == FixaError::MalformedFasta,
        },
{
    match parse_records(data) {
        Ok(records) => Ok(map_records(records)),
        Err(e) => Err(e),
    }
}

} // verus!
