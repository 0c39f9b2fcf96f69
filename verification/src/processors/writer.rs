//! Rendering of the reordered FASTA text.

use crate::generics::scaffold::{ids, models, Scaffold, ScaffoldView};
use crate::generics::sequence_map::SequenceMap;
use vstd::prelude::*;
use vstd::slice::slice_subrange;

verus! {

/// The byte `>` that opens a header line.
pub const HEADER_MARK: u8 = 0x3e;

/// The byte that ends a line.
pub const LINE_FEED: u8 = 0x0a;

/// The lines into which a sequence is broken: consecutive pieces of `line_length`
/// bytes, the last one with what is left. An empty sequence has no line.
pub open spec fn sequence_lines(seq: Seq<u8>, line_length: int) -> Seq<Seq<u8>>
    decreases seq.len(),
{
    if line_length <= 0 || seq.len() == 0 {
        Seq::empty()
    } else if seq.len() <= line_length {
        seq![seq]
    } else {
        seq![seq.take(line_length)] + sequence_lines(seq.skip(line_length), line_length)
    }
}

/// The text of some lines: each line followed by a line feed.
pub open spec fn lines_text(lines: Seq<Seq<u8>>) -> Seq<u8>
    decreases lines.len(),
{
    if lines.len() == 0 {
        Seq::empty()
    } else {
        lines.first().push(LINE_FEED) + lines_text(lines.drop_first())
    }
}

/// The text of one record: the header line and the lines of the sequence.
pub open spec fn record_text(id: Seq<char>, seq: Seq<u8>, line_length: int) -> Seq<u8> {
    seq![HEADER_MARK] + vstd::utf8::encode_utf8(id) + seq![LINE_FEED] + lines_text(
        sequence_lines(seq, line_length),
    )
}

/// The scaffolds whose sequence the map holds, in their order.
pub open spec fn written(
    scaffolds: Seq<ScaffoldView>,
    sequences: Map<Seq<char>, Seq<u8>>,
) -> Seq<ScaffoldView> {
    scaffolds.filter(|x: ScaffoldView| sequences.contains_key(x.id))
}

/// The scaffolds whose sequence the map lacks, in their order.
pub open spec fn skipped(
    scaffolds: Seq<ScaffoldView>,
    sequences: Map<Seq<char>, Seq<u8>>,
) -> Seq<ScaffoldView> {
    scaffolds.filter(|x: ScaffoldView| !sequences.contains_key(x.id))
}

/// The text of the records of some scaffolds, one after another.
pub open spec fn records_text(
    scaffolds: Seq<ScaffoldView>,
    sequences: Map<Seq<char>, Seq<u8>>,
    line_length: int,
) -> Seq<u8>
    decreases scaffolds.len(),
{
    if scaffolds.len() == 0 {
        Seq::empty()
    } else {
        records_text(scaffolds.drop_last(), sequences, line_length) + record_text(
            scaffolds.last().id,
            sequences[scaffolds.last().id],
            line_length,
        )
    }
}

/// The FASTA text of the scaffolds in their order: the records of those whose
/// sequence the map holds.
pub open spec fn fasta_text(
    scaffolds: Seq<ScaffoldView>,
    sequences: Map<Seq<char>, Seq<u8>>,
    line_length: int,
) -> Seq<u8> {
    records_text(written(scaffolds, sequences), sequences, line_length)
}

/// What is written for a sequence of scaffolds that ends in `x`.
pub proof fn lemma_written_push(
    scaffolds: Seq<ScaffoldView>,
    x: ScaffoldView,
    sequences: Map<Seq<char>, Seq<u8>>,
)
    ensures
        written(scaffolds.push(x), sequences) == if sequences.contains_key(x.id) {
            written(scaffolds, sequences).push(x)
        } else {
            written(scaffolds, sequences)
        },
        skipped(scaffolds.push(x), sequences) == if sequences.contains_key(x.id) {
            skipped(scaffolds, sequences)
        } else {
            skipped(scaffolds, sequences).push(x)
        },
{
    reveal_with_fuel(Seq::filter, 2);
    assert(scaffolds.push(x).drop_last() =~= scaffolds);
}

/// Appends bytes to a buffer.
fn append_bytes(out: &mut Vec<u8>, bytes: &[u8])
    ensures
        final(out)@ == old(out)@ + bytes@,
{
    out.extend_from_slice(bytes);
    assert(out@ =~= old(out)@ + bytes@);
}

/// Appends the lines of a sequence to a buffer.
fn append_sequence_lines(out: &mut Vec<u8>, seq: &[u8], line_length: usize)
    requires
        line_length >= 1,
    ensures
        final(out)@ == old(out)@ + lines_text(sequence_lines(seq@, line_length as int)),
{
    let n = seq.len();
    let mut start: usize = 0;
    assert(seq@.skip(0) =~= seq@);
    while n - start > line_length
        invariant
            start <= n,
            n == seq@.len(),
            line_length >= 1,
            out@ + lines_text(sequence_lines(seq@.skip(start as int), line_length as int)) == old(
                out,
            )@ + lines_text(sequence_lines(seq@, line_length as int)),
        decreases n - start,
    {
        let ghost rest = seq@.skip(start as int);
        let ghost before = out@;
        let end = start + line_length;
        append_bytes(out, slice_subrange(seq, start, end));
        out.push(LINE_FEED);
        proof {
            let l = line_length as int;
            let piece = rest.take(l);
            let tail = sequence_lines(rest.skip(l), l);
            assert(seq@.subrange(start as int, end as int) =~= piece);
            assert(rest.skip(l) =~= seq@.skip(end as int));
            assert((seq![piece] + tail).first() == piece);
            assert((seq![piece] + tail).drop_first() =~= tail);
            assert(out@ + lines_text(tail) =~= before + (piece.push(LINE_FEED) + lines_text(tail)));
        }
        start = end;
    }
    if start < n {
        let ghost rest = seq@.skip(start as int);
        let ghost before = out@;
        append_bytes(out, slice_subrange(seq, start, n));
        out.push(LINE_FEED);
        proof {
            assert(seq@.subrange(start as int, n as int) =~= rest);
            let one = seq![rest];
            assert(one.first() == rest);
            assert(lines_text(one.drop_first()) =~= Seq::<u8>::empty());
            assert(lines_text(one) =~= rest.push(LINE_FEED));
            assert(out@ =~= before + lines_text(seq![rest]));
        }
    } else {
        assert(out@ + Seq::<u8>::empty() =~= out@);
    }
}

/// The reordered FASTA text, and what could not be written.
pub struct WrittenFasta {
    /// The FASTA text.
    pub text: Vec<u8>,
    /// The identifiers of the scaffolds for which no sequence was found.
    pub skipped: Vec<String>,
}

/// Renders the FASTA text of the scaffolds in their order, each sequence broken
/// into lines of `line_length` bytes. A scaffold whose sequence the map lacks is
/// left out of the text and reported.
pub fn write_ordered_fasta(
    scaffolds: &Vec<Scaffold>,
    fasta_map: &SequenceMap,
    line_length: usize,
) -> (out: WrittenFasta)
    requires
        line_length >= 1,
    ensures
        out.text@ == fasta_text(scaffolds.deep_view(), fasta_map@, line_length as int),
        out.skipped.deep_view() == ids(skipped(scaffolds.deep_view(), fasta_map@)),
{
    let ghost all = models(scaffolds@);
    let ghost sequences = fasta_map@;
    let ghost l = line_length as int;
    let mut text: Vec<u8> = Vec::new();
    let mut missing: Vec<String> = Vec::new();
    let mut i: usize = 0;
    proof {
        reveal_with_fuel(Seq::filter, 1);
        assert(all.take(0) =~= Seq::<ScaffoldView>::empty());
        assert(missing.deep_view() =~= ids(skipped(all.take(0), sequences)));
    }
    while i < scaffolds.len()
        invariant
            i <= scaffolds@.len(),
            line_length >= 1,
            l == line_length as int,
            all == models(scaffolds@),
            sequences == fasta_map@,
            text@ == fasta_text(all.take(i as int), sequences, l),
            missing.deep_view() == ids(skipped(all.take(i as int), sequences)),
        decreases scaffolds@.len() - i,
    {
        let scaff = &scaffolds[i];
        let ghost before = text@;
        let ghost missing_before = missing.deep_view();
        proof {
            assert(all.take(i + 1) =~= all.take(i as int).push(scaff@));
            lemma_written_push(all.take(i as int), scaff@, sequences);
        }
        match fasta_map.get(scaff.id.as_str()) {
            Some(seq) => {
                text.push(HEADER_MARK);
                append_bytes(&mut text, scaff.id.as_str().as_bytes());
                text.push(LINE_FEED);
                append_sequence_lines(&mut text, seq.as_slice(), line_length);
                proof {
                    let w = written(all.take(i as int), sequences);
                    assert(w.push(scaff@).drop_last() =~= w);
                    assert(text@ =~= before + record_text(scaff@.id, sequences[scaff@.id], l));
                }
            },
            None => {
                missing.push(scaff.id.clone());
                assert(missing.deep_view() =~= missing_before.push(scaff@.id));
                assert(ids(skipped(all.take(i as int), sequences).push(scaff@)) =~= ids(
                    skipped(all.take(i as int), sequences),
                ).push(scaff@.id));
            },
        }
        i += 1;
    }
    proof {
        assert(all.take(all.len() as int) =~= all);
        assert(scaffolds.deep_view() =~= all);
    }
    WrittenFasta { text, skipped: missing }
}

} // verus!
