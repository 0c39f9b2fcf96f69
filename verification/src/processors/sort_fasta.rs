//! The sort engine: partition by class, order by length, recombine; and the run
//! that reads, sorts and renders.

use crate::cli::{direction_of, parse_direction, parse_sort_option, sort_mode_of, Direction, SortMode};
use crate::error::FixaError;
use crate::generics::log::{log_scaffolds, log_text};
use crate::generics::reader::{
    fastx_records, index_of, index_records, map_records, parse_records, records_of, sequences_of,
    FastaRecord, FastaRecordView,
};
use crate::generics::scaffold::{models, Scaffold, ScaffoldView};
use crate::processors::order_laws::{lemma_every_record_written, lemma_sorted_positions};
use crate::processors::stable_sort::{sort_by_length, sort_scaffolds_by_length};
use crate::processors::writer::{fasta_text, write_ordered_fasta};
use vstd::prelude::*;

verus! {

/// The sex scaffolds of `s`, in the order in which `s` holds them.
pub open spec fn sex_scaffolds(s: Seq<ScaffoldView>) -> Seq<ScaffoldView> {
    s.filter(|x: ScaffoldView| x.is_sex)
}

/// The scaffolds of `s` that are no sex scaffolds, in the order in which `s` holds them.
pub open spec fn other_scaffolds(s: Seq<ScaffoldView>) -> Seq<ScaffoldView> {
    s.filter(|x: ScaffoldView| !x.is_sex)
}

/// The order that a mode and a direction give to the scaffolds of `s`.
pub open spec fn arranged(s: Seq<ScaffoldView>, mode: SortMode, direction: Direction) -> Seq<
    ScaffoldView,
> {
    match mode {
        SortMode::SexLengthTop => sort_by_length(sex_scaffolds(s), direction) + sort_by_length(
            other_scaffolds(s),
            direction,
        ),
        SortMode::SexLengthBottom => sort_by_length(other_scaffolds(s), direction) + sort_by_length(
            sex_scaffolds(s),
            direction,
        ),
        SortMode::ScaffoldLength => sort_by_length(s, direction),
    }
}

/// `s` with each scaffold's sorted position set to its place in `s`.
pub open spec fn positioned(s: Seq<ScaffoldView>) -> Seq<ScaffoldView> {
    Seq::new(s.len(), |i: int| ScaffoldView { sorted_position: i as nat, ..s[i] })
}

/// The order of a run: the scaffolds arranged as the mode and the direction say,
/// each with its place in that order.
pub open spec fn final_order(s: Seq<ScaffoldView>, mode: SortMode, direction: Direction) -> Seq<
    ScaffoldView,
> {
    positioned(arranged(s, mode, direction))
}

/// The two parts of a sequence that ends in `x`.
pub proof fn lemma_parts_push(s: Seq<ScaffoldView>, x: ScaffoldView)
    ensures
        sex_scaffolds(s.push(x)) == if x.is_sex {
            sex_scaffolds(s).push(x)
        } else {
            sex_scaffolds(s)
        },
        other_scaffolds(s.push(x)) == if x.is_sex {
            other_scaffolds(s)
        } else {
            other_scaffolds(s).push(x)
        },
{
    reveal_with_fuel(Seq::filter, 2);
    assert(s.push(x).drop_last() =~= s);
}

/// Splits the scaffolds into the sex scaffolds and the others; each part keeps the
/// order of the input.
pub fn split_by_sex_scaff(scaffolds: Vec<Scaffold>) -> (parts: (Vec<Scaffold>, Vec<Scaffold>))
    ensures
        parts.0.deep_view() == sex_scaffolds(scaffolds.deep_view()),
        parts.1.deep_view() == other_scaffolds(scaffolds.deep_view()),
{
    let ghost all = models(scaffolds@);
    let mut sex: Vec<Scaffold> = Vec::new();
    let mut others: Vec<Scaffold> = Vec::new();
    proof {
        reveal_with_fuel(Seq::filter, 1);
        assert(all.take(0) =~= Seq::<ScaffoldView>::empty());
        assert(models(sex@) =~= sex_scaffolds(all.take(0)));
        assert(models(others@) =~= other_scaffolds(all.take(0)));
    }
    for scaff in it: scaffolds
        invariant
            it.seq() == scaffolds@,
            all == models(scaffolds@),
            models(sex@) == sex_scaffolds(all.take(it.index() as int)),
            models(others@) == other_scaffolds(all.take(it.index() as int)),
    {
        let ghost k = it.index() as int;
        let ghost sex_before = models(sex@);
        let ghost others_before = models(others@);
        proof {
            assert(scaff@ == all[k]);
            assert(all.take(k + 1) =~= all.take(k).push(scaff@));
            lemma_parts_push(all.take(k), scaff@);
        }
        if scaff.is_sex {
            sex.push(scaff);
            assert(models(sex@) =~= sex_before.push(scaff@));
        } else {
            others.push(scaff);
            assert(models(others@) =~= others_before.push(scaff@));
        }
    }
    proof {
        assert(all.take(all.len() as int) =~= all);
        assert(sex.deep_view() =~= models(sex@));
        assert(others.deep_view() =~= models(others@));
        assert(scaffolds.deep_view() =~= all);
    }
    (sex, others)
}

/// The two parts of the input, each ordered by length in the given direction:
/// first the sex scaffolds, then the others.
pub fn sex_based_sorting(scaffolds: Vec<Scaffold>, direction: Direction) -> (parts: (
    Vec<Scaffold>,
    Vec<Scaffold>,
))
    ensures
        parts.0.deep_view() == sort_by_length(sex_scaffolds(scaffolds.deep_view()), direction),
        parts.1.deep_view() == sort_by_length(other_scaffolds(scaffolds.deep_view()), direction),
{
    let (sex_scaffs, non_sex_scaffs) = split_by_sex_scaff(scaffolds);
    let sex_sorted = sort_scaffolds_by_length(sex_scaffs, direction);
    let non_sex_sorted = sort_scaffolds_by_length(non_sex_scaffs, direction);
    (sex_sorted, non_sex_sorted)
}

/// Records in each scaffold its place in the sequence.
pub fn assign_sorted_positions(scaffolds: &mut Vec<Scaffold>)
    ensures
        final(scaffolds).deep_view() == positioned(old(scaffolds).deep_view()),
{
    let n = scaffolds.len();
    let ghost before = scaffolds@;
    let mut i: usize = 0;
    while i < n
        invariant
            i <= n,
            scaffolds@.len() == n,
            before.len() == n,
            forall|k: int|
                0 <= k < i ==> (#[trigger] scaffolds@[k])@ == (ScaffoldView {
                    sorted_position: k as nat,
                    ..before[k]@
                }),
            forall|k: int| i <= k < n ==> #[trigger] scaffolds@[k] == before[k],
        decreases n - i,
    {
        scaffolds[i].sorted_position = i;
        i += 1;
    }
    assert(scaffolds.deep_view() =~= positioned(models(before)));
    assert(old(scaffolds).deep_view() =~= models(before));
}

/// Orders the scaffolds as the mode and the direction say, and records in each
/// its place in the result.
pub fn sort_scaffolds(scaffolds: Vec<Scaffold>, mode: SortMode, direction: Direction) -> (r: Vec<
    Scaffold,
>)
    ensures
        r.deep_view() == final_order(scaffolds.deep_view(), mode, direction),
        r@.len() == scaffolds@.len(),
        forall|i: int| 0 <= i < r@.len() ==> (#[trigger] r@[i]).sorted_position == i,
{
    let ghost input = scaffolds.deep_view();
    let mut resulting_order = match mode {
        SortMode::SexLengthTop => {
            let (mut sex, mut not_sex) = sex_based_sorting(scaffolds, direction);
            let ghost a = sex.deep_view();
            let ghost b = not_sex.deep_view();
            sex.append(&mut not_sex);
            assert(sex.deep_view() =~= a + b);
            sex
        },
        SortMode::SexLengthBottom => {
            let (mut sex, mut not_sex) = sex_based_sorting(scaffolds, direction);
            let ghost a = sex.deep_view();
            let ghost b = not_sex.deep_view();
            not_sex.append(&mut sex);
            assert(not_sex.deep_view() =~= b + a);
            not_sex
        },
        SortMode::ScaffoldLength => sort_scaffolds_by_length(scaffolds, direction),
    };
    assign_sorted_positions(&mut resulting_order);
    proof {
        lemma_sorted_positions(input, mode, direction);
        assert forall|i: int| 0 <= i < resulting_order@.len() implies (
        #[trigger] resulting_order@[i]).sorted_position == i by {
            assert(resulting_order.deep_view()[i] == resulting_order@[i]@);
        }
    }
    resulting_order
}

/// What a run gives: the order, the change log and the FASTA text.
pub struct SortedFasta {
    /// The scaffold index in its final order.
    pub order: Vec<Scaffold>,
    /// The text of the change log.
    pub log: String,
    /// The text of the reordered FASTA file.
    pub fasta: Vec<u8>,
}

/// Whether `out` is what a run on the records gives.
pub open spec fn is_sorted_fasta(
    out: SortedFasta,
    records: Seq<FastaRecordView>,
    line_length: int,
    mode: SortMode,
    direction: Direction,
) -> bool {
    &&& out.order.deep_view() == final_order(index_of(records), mode, direction)
    &&& out.log@ == log_text(out.order.deep_view())
    &&& out.fasta@ == fasta_text(out.order.deep_view(), sequences_of(records), line_length)
}

/// Sorts the records and renders the change log and the FASTA text.
pub fn sort_records(
    records: Vec<FastaRecord>,
    line_length: usize,
    mode: SortMode,
    direction: Direction,
) -> (out: SortedFasta)
    requires
        line_length >= 1,
    ensures
        is_sorted_fasta(out, records.deep_view(), line_length as int, mode, direction),
{
    let scaffolds = index_records(&records);
    let resulting_order = sort_scaffolds(scaffolds, mode, direction);
    let log = log_scaffolds(&resulting_order);
    let fasta_map = map_records(records);
    let rendered = write_ordered_fasta(&resulting_order, &fasta_map, line_length);
    proof {
        lemma_every_record_written(records.deep_view(), mode, direction);
        assert(rendered.skipped@.len() == 0) by {
            assert(rendered.skipped.deep_view().len() == 0);
        }
    }
    SortedFasta { order: resulting_order, log, fasta: rendered.text }
}

/// Runs the command on the text of a FASTA file: validates the sort option and
/// the direction, reads the records, sorts them and renders the outputs.
pub fn sort_fasta_main(fasta: &[u8], line_length: usize, sort_option: &str, direction: &str) -> (out:
    Result<SortedFasta, FixaError>)
    requires
        line_length >= 1,
    ensures
        match (sort_mode_of(sort_option@), direction_of(direction@), fastx_records(fasta@)) {
            (Err(e), _, _) => out is Err && out->Err_0 == e,
            (Ok(_), Err(e), _) => out is Err && out->Err_0 == e,
            (Ok(_), Ok(_), None) => out is Err && out->Err_0 == FixaError::MalformedFasta,
            (Ok(mode), Ok(way), Some(raw)) => out is Ok && is_sorted_fasta(
                out->Ok_0,
                records_of(raw),
                line_length as int,
                mode,
                way,
            ),
        },
{
    let mode = match parse_sort_option(sort_option) {
        Ok(mode) => mode,
        Err(e) => { return Err(e); },
    };
    let way = match parse_direction(direction) {
        Ok(way) => way,
        Err(e) => { return Err(e); },
    };
    match parse_records(fasta) {
        Ok(records) => Ok(sort_records(records, line_length, mode, way)),
        Err(e) => Err(e),
    }
}

} // verus!
