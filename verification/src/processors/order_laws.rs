//! What holds of the order of a run, whatever the input.

use crate::cli::{Direction, SortMode};
use crate::generics::reader::{index_of, lemma_sequences_hold, sequences_of, FastaRecordView};
use crate::generics::classify::{has_sex_marker, suffix_of};
use crate::generics::scaffold::{ids, original_positions, ScaffoldView};
use crate::processors::sort_fasta::{
    arranged, final_order, lemma_parts_push, other_scaffolds, sex_scaffolds,
};
use crate::processors::stable_sort::{
    in_original_order, is_stable_sort, lemma_sort_by_length_is_stable,
    lemma_sort_by_length_permutes, lemma_sort_keeps_original_order, sort_by_length,
};
use crate::processors::writer::{skipped, written};
use crate::processors::writer_laws::{
    lemma_all_written, lemma_ids_of_same_scaffolds, lemma_property_of_same_scaffolds,
    lemma_written_by_ids, lemma_written_of_same_scaffolds,
};
use vstd::prelude::*;

verus! {

/// The two parts hold between them each scaffold as often as the input does.
pub proof fn lemma_parts_cover(s: Seq<ScaffoldView>)
    ensures
        sex_scaffolds(s).to_multiset().add(other_scaffolds(s).to_multiset()) == s.to_multiset(),
    decreases s.len(),
{
    broadcast use {
        vstd::seq_lib::to_multiset_build,
        vstd::seq_lib::to_multiset_contains,
        vstd::multiset::group_multiset_axioms,
    };

    if s.len() == 0 {
        reveal_with_fuel(Seq::filter, 1);
        assert(sex_scaffolds(s) == s);
        assert(other_scaffolds(s) == s);
        assert forall|x: ScaffoldView| s.to_multiset().count(x) == 0 by {
            assert(!s.contains(x));
        }
        assert(sex_scaffolds(s).to_multiset().add(other_scaffolds(s).to_multiset())
            =~= s.to_multiset());
    } else {
        let rest = s.drop_last();
        let x = s.last();
        lemma_parts_cover(rest);
        lemma_parts_push(rest, x);
        assert(s =~= rest.push(x));
        assert(sex_scaffolds(s).to_multiset().add(other_scaffolds(s).to_multiset())
            =~= s.to_multiset());
    }
}

/// Every scaffold of the sex part is a sex scaffold, and no scaffold of the other
/// part is one.
pub proof fn lemma_parts_classes(s: Seq<ScaffoldView>)
    ensures
        forall|i: int| 0 <= i < sex_scaffolds(s).len() ==> (#[trigger] sex_scaffolds(s)[i]).is_sex,
        forall|i: int|
            0 <= i < other_scaffolds(s).len() ==> !(#[trigger] other_scaffolds(s)[i]).is_sex,
{
    assert forall|i: int| 0 <= i < sex_scaffolds(s).len() implies (#[trigger] sex_scaffolds(
        s,
    )[i]).is_sex by {
        s.lemma_filter_pred(|x: ScaffoldView| x.is_sex, i);
    }
    assert forall|i: int| 0 <= i < other_scaffolds(s).len() implies !(#[trigger] other_scaffolds(
        s,
    )[i]).is_sex by {
        s.lemma_filter_pred(|x: ScaffoldView| !x.is_sex, i);
    }
}

/// A scaffold of one of two sequences that hold the same scaffolds stands in the other.
proof fn lemma_same_members(a: Seq<ScaffoldView>, b: Seq<ScaffoldView>, i: int)
    requires
        a.to_multiset() == b.to_multiset(),
        0 <= i < a.len(),
    ensures
        exists|j: int| 0 <= j < b.len() && b[j] == a[i],
{
    broadcast use vstd::seq_lib::to_multiset_contains;

    assert(a.contains(a[i]));
    assert(a.to_multiset().count(a[i]) > 0);
    assert(b.contains(a[i]));
}

/// No record is made or lost by sorting: the order of a mode and a direction holds
/// each scaffold as often as the input does.
pub proof fn lemma_arranged_permutes(s: Seq<ScaffoldView>, mode: SortMode, direction: Direction)
    ensures
        arranged(s, mode, direction).to_multiset() == s.to_multiset(),
        arranged(s, mode, direction).len() == s.len(),
{
    broadcast use vstd::seq_lib::to_multiset_len;

    let a = sort_by_length(sex_scaffolds(s), direction);
    let b = sort_by_length(other_scaffolds(s), direction);
    lemma_sort_by_length_permutes(sex_scaffolds(s), direction);
    lemma_sort_by_length_permutes(other_scaffolds(s), direction);
    lemma_sort_by_length_permutes(s, direction);
    lemma_parts_cover(s);
    vstd::seq_lib::lemma_multiset_commutative(a, b);
    vstd::seq_lib::lemma_multiset_commutative(b, a);
    assert(a.to_multiset().add(b.to_multiset()) =~= b.to_multiset().add(a.to_multiset()));
    assert(arranged(s, mode, direction).to_multiset() =~= s.to_multiset());
    assert(arranged(s, mode, direction).to_multiset().len() == s.to_multiset().len());
}

/// After sorting, the sorted positions are the numbers from 0 to one less than the
/// number of records, each once: the scaffold at a place holds that place.
pub proof fn lemma_sorted_positions(s: Seq<ScaffoldView>, mode: SortMode, direction: Direction)
    ensures
        final_order(s, mode, direction).len() == s.len(),
        forall|i: int|
            0 <= i < s.len() ==> (#[trigger] final_order(s, mode, direction)[i]).sorted_position
                == i,
        forall|i: int, j: int|
            0 <= i < s.len() && 0 <= j < s.len() && (#[trigger] final_order(
                s,
                mode,
                direction,
            )[i]).sorted_position == (#[trigger] final_order(s, mode, direction)[j]).sorted_position
                ==> i == j,
{
    lemma_arranged_permutes(s, mode, direction);
}

/// A sequence of which every scaffold is a sex scaffold is its own sex part, and
/// has no other part; and the other way round.
proof fn lemma_parts_of_one_class(s: Seq<ScaffoldView>, is_sex: bool)
    requires
        forall|i: int| 0 <= i < s.len() ==> (#[trigger] s[i]).is_sex == is_sex,
    ensures
        sex_scaffolds(s) == if is_sex {
            s
        } else {
            Seq::empty()
        },
        other_scaffolds(s) == if is_sex {
            Seq::empty()
        } else {
            s
        },
    decreases s.len(),
{
    if s.len() == 0 {
        reveal_with_fuel(Seq::filter, 1);
        assert(sex_scaffolds(s) =~= s);
        assert(other_scaffolds(s) =~= s);
    } else {
        lemma_parts_of_one_class(s.drop_last(), is_sex);
        lemma_parts_push(s.drop_last(), s.last());
        assert(s =~= s.drop_last().push(s.last()));
    }
}

/// Whatever the mode, the sex scaffolds of the order are the sex scaffolds of the
/// input ordered by length, and so for the others.
pub proof fn lemma_parts_of_arranged(s: Seq<ScaffoldView>, mode: SortMode, direction: Direction)
    requires
        mode != SortMode::ScaffoldLength,
    ensures
        sex_scaffolds(arranged(s, mode, direction)) == sort_by_length(sex_scaffolds(s), direction),
        other_scaffolds(arranged(s, mode, direction)) == sort_by_length(
            other_scaffolds(s),
            direction,
        ),
{
    let a = sort_by_length(sex_scaffolds(s), direction);
    let b = sort_by_length(other_scaffolds(s), direction);
    lemma_parts_classes(s);
    lemma_sort_by_length_permutes(sex_scaffolds(s), direction);
    lemma_sort_by_length_permutes(other_scaffolds(s), direction);
    assert forall|i: int| 0 <= i < a.len() implies (#[trigger] a[i]).is_sex by {
        lemma_same_members(a, sex_scaffolds(s), i);
    }
    assert forall|i: int| 0 <= i < b.len() implies !(#[trigger] b[i]).is_sex by {
        lemma_same_members(b, other_scaffolds(s), i);
    }
    lemma_parts_of_one_class(a, true);
    lemma_parts_of_one_class(b, false);
    Seq::filter_distributes_over_add(a, b, |x: ScaffoldView| x.is_sex);
    Seq::filter_distributes_over_add(a, b, |x: ScaffoldView| !x.is_sex);
    Seq::filter_distributes_over_add(b, a, |x: ScaffoldView| x.is_sex);
    Seq::filter_distributes_over_add(b, a, |x: ScaffoldView| !x.is_sex);
    assert(a + Seq::<ScaffoldView>::empty() =~= a);
    assert(Seq::<ScaffoldView>::empty() + a =~= a);
    assert(b + Seq::<ScaffoldView>::empty() =~= b);
    assert(Seq::<ScaffoldView>::empty() + b =~= b);
}

/// The sex-length-top and the sex-length-bottom order are made of the same two
/// parts, each in the same order; they differ in which part comes first.
pub proof fn lemma_top_and_bottom(s: Seq<ScaffoldView>, direction: Direction)
    ensures
        arranged(s, SortMode::SexLengthTop, direction) == sort_by_length(
            sex_scaffolds(s),
            direction,
        ) + sort_by_length(other_scaffolds(s), direction),
        arranged(s, SortMode::SexLengthBottom, direction) == sort_by_length(
            other_scaffolds(s),
            direction,
        ) + sort_by_length(sex_scaffolds(s), direction),
        sex_scaffolds(arranged(s, SortMode::SexLengthTop, direction)) == sex_scaffolds(
            arranged(s, SortMode::SexLengthBottom, direction),
        ),
        other_scaffolds(arranged(s, SortMode::SexLengthTop, direction)) == other_scaffolds(
            arranged(s, SortMode::SexLengthBottom, direction),
        ),
{
    let top = arranged(s, SortMode::SexLengthTop, direction);
    let bottom = arranged(s, SortMode::SexLengthBottom, direction);
    assert(sex_scaffolds(top) == sex_scaffolds(bottom)) by {
        lemma_parts_of_arranged(s, SortMode::SexLengthTop, direction);
        lemma_parts_of_arranged(s, SortMode::SexLengthBottom, direction);
    }
    assert(other_scaffolds(top) == other_scaffolds(bottom)) by {
        lemma_parts_of_arranged(s, SortMode::SexLengthTop, direction);
        lemma_parts_of_arranged(s, SortMode::SexLengthBottom, direction);
    }
}

/// Stability: the order of a run is stable. Ordering all scaffolds by length
/// keeps, for each length, the scaffolds of that length in their order; the other
/// two modes keep them so within the sex scaffolds and within the others.
pub proof fn lemma_arranged_is_stable(s: Seq<ScaffoldView>, mode: SortMode, direction: Direction)
    ensures
        mode == SortMode::ScaffoldLength ==> is_stable_sort(
            arranged(s, mode, direction),
            s,
            direction,
        ),
        mode != SortMode::ScaffoldLength ==> is_stable_sort(
            sex_scaffolds(arranged(s, mode, direction)),
            sex_scaffolds(s),
            direction,
        ) && is_stable_sort(
            other_scaffolds(arranged(s, mode, direction)),
            other_scaffolds(s),
            direction,
        ),
{
    if mode == SortMode::ScaffoldLength {
        lemma_sort_by_length_is_stable(s, direction);
    } else {
        lemma_parts_of_arranged(s, mode, direction);
        lemma_sort_by_length_is_stable(sex_scaffolds(s), direction);
        lemma_sort_by_length_is_stable(other_scaffolds(s), direction);
    }
}

/// Each part of an input in original order is in original order.
pub proof fn lemma_parts_in_original_order(s: Seq<ScaffoldView>)
    requires
        in_original_order(s),
    ensures
        in_original_order(sex_scaffolds(s)),
        in_original_order(other_scaffolds(s)),
    decreases s.len(),
{
    if s.len() == 0 {
        reveal_with_fuel(Seq::filter, 1);
    } else {
        let rest = s.drop_last();
        let x = s.last();
        assert(in_original_order(rest)) by {
            assert forall|i: int, j: int| 0 <= i < j < rest.len() implies (
            #[trigger] rest[i]).original_position < (#[trigger] rest[j]).original_position by {
                assert(rest[i] == s[i] && rest[j] == s[j]);
            }
        }
        lemma_parts_in_original_order(rest);
        lemma_parts_push(rest, x);
        assert(s =~= rest.push(x));
        let a = sex_scaffolds(rest);
        let b = other_scaffolds(rest);
        assert forall|i: int| 0 <= i < a.len() implies (#[trigger] a[i]).original_position
            < x.original_position by {
            assert(a.contains(a[i]));
            rest.lemma_filter_contains_rev(|y: ScaffoldView| y.is_sex, a[i]);
            let k = choose|k: int| 0 <= k < rest.len() && rest[k] == a[i];
            assert(rest[k] == s[k]);
        }
        assert forall|i: int| 0 <= i < b.len() implies (#[trigger] b[i]).original_position
            < x.original_position by {
            assert(b.contains(b[i]));
            rest.lemma_filter_contains_rev(|y: ScaffoldView| !y.is_sex, b[i]);
            let k = choose|k: int| 0 <= k < rest.len() && rest[k] == b[i];
            assert(rest[k] == s[k]);
        }
    }
}

/// Stability, by positions: in the order of a run, of two scaffolds of equal length
/// the one that came first in the input stands first. Where the mode parts the
/// scaffolds by class, this holds of two scaffolds of one class.
pub proof fn lemma_equal_lengths_keep_order(
    s: Seq<ScaffoldView>,
    mode: SortMode,
    direction: Direction,
)
    requires
        in_original_order(s),
    ensures
        forall|i: int, j: int|
            0 <= i < j < s.len() && (#[trigger] final_order(s, mode, direction)[i]).scaff_length
                == (#[trigger] final_order(s, mode, direction)[j]).scaff_length && (mode
                == SortMode::ScaffoldLength || final_order(s, mode, direction)[i].is_sex
                == final_order(s, mode, direction)[j].is_sex) ==> final_order(
                s,
                mode,
                direction,
            )[i].original_position < final_order(s, mode, direction)[j].original_position,
{
    let arr = arranged(s, mode, direction);
    let r = final_order(s, mode, direction);
    lemma_arranged_permutes(s, mode, direction);
    if mode == SortMode::ScaffoldLength {
        lemma_sort_keeps_original_order(s, direction);
        assert forall|i: int, j: int|
            0 <= i < j < s.len() && (#[trigger] r[i]).scaff_length == (
            #[trigger] r[j]).scaff_length implies r[i].original_position
            < r[j].original_position by {
            assert(arr[i].scaff_length == arr[j].scaff_length);
        }
    } else {
        let a = sort_by_length(sex_scaffolds(s), direction);
        let b = sort_by_length(other_scaffolds(s), direction);
        lemma_parts_in_original_order(s);
        lemma_parts_classes(s);
        lemma_sort_keeps_original_order(sex_scaffolds(s), direction);
        lemma_sort_keeps_original_order(other_scaffolds(s), direction);
        lemma_sort_by_length_permutes(sex_scaffolds(s), direction);
        lemma_sort_by_length_permutes(other_scaffolds(s), direction);
        assert forall|i: int| 0 <= i < a.len() implies (#[trigger] a[i]).is_sex by {
            lemma_same_members(a, sex_scaffolds(s), i);
        }
        assert forall|i: int| 0 <= i < b.len() implies !(#[trigger] b[i]).is_sex by {
            lemma_same_members(b, other_scaffolds(s), i);
        }
        assert forall|i: int, j: int|
            0 <= i < j < s.len() && (#[trigger] r[i]).scaff_length == (
            #[trigger] r[j]).scaff_length && r[i].is_sex == r[j].is_sex implies r[i].original_position
            < r[j].original_position by {
            if mode == SortMode::SexLengthTop {
                if j < a.len() {
                    assert(arr[i] == a[i] && arr[j] == a[j]);
                } else if i >= a.len() {
                    assert(arr[i] == b[i - a.len()] && arr[j] == b[j - a.len()]);
                } else {
                    assert(arr[i] == a[i] && arr[j] == b[j - a.len()]);
                }
            } else {
                if j < b.len() {
                    assert(arr[i] == b[i] && arr[j] == b[j]);
                } else if i >= b.len() {
                    assert(arr[i] == a[i - b.len()] && arr[j] == a[j - b.len()]);
                } else {
                    assert(arr[i] == b[i] && arr[j] == a[j - b.len()]);
                }
            }
        }
    }
}

/// The index of some records is in original order: each original position is the
/// place of its record.
pub proof fn lemma_index_in_original_order(records: Seq<FastaRecordView>)
    ensures
        in_original_order(index_of(records)),
        forall|i: int|
            0 <= i < records.len() ==> (#[trigger] index_of(records)[i]).original_position == i,
{
}

/// No identifier is made or lost: the order of a run holds each identifier as often
/// as the input does, and so do what is written of it and what is skipped, whatever
/// the map of sequences.
pub proof fn lemma_order_keeps_ids(
    s: Seq<ScaffoldView>,
    mode: SortMode,
    direction: Direction,
    sequences: Map<Seq<char>, Seq<u8>>,
)
    ensures
        ids(final_order(s, mode, direction)).to_multiset() == ids(s).to_multiset(),
        ids(written(final_order(s, mode, direction), sequences)).to_multiset() == ids(
            written(s, sequences),
        ).to_multiset(),
        ids(skipped(final_order(s, mode, direction), sequences)).to_multiset() == ids(
            skipped(s, sequences),
        ).to_multiset(),
{
    let arr = arranged(s, mode, direction);
    let order = final_order(s, mode, direction);
    lemma_arranged_permutes(s, mode, direction);
    assert(ids(order) =~= ids(arr));
    lemma_ids_of_same_scaffolds(arr, s);
    lemma_written_by_ids(order, arr, sequences);
    lemma_written_of_same_scaffolds(arr, s, sequences);
    lemma_ids_of_same_scaffolds(written(arr, sequences), written(s, sequences));
    lemma_ids_of_same_scaffolds(skipped(arr, sequences), skipped(s, sequences));
}

/// In the order of a run on some records, every scaffold has its sequence in the
/// map of those records: each record is written, none is skipped.
pub proof fn lemma_every_record_written(
    records: Seq<FastaRecordView>,
    mode: SortMode,
    direction: Direction,
)
    ensures
        written(final_order(index_of(records), mode, direction), sequences_of(records))
            == final_order(index_of(records), mode, direction),
        skipped(final_order(index_of(records), mode, direction), sequences_of(records))
            == Seq::<ScaffoldView>::empty(),
{
    let index = index_of(records);
    let order = final_order(index, mode, direction);
    let arr = arranged(index, mode, direction);
    lemma_arranged_permutes(index, mode, direction);
    assert forall|i: int| 0 <= i < order.len() implies sequences_of(records).contains_key(
        #[trigger] order[i].id,
    ) by {
        lemma_same_members(arr, index, i);
        let j = choose|j: int| 0 <= j < index.len() && index[j] == arr[i];
        lemma_sequences_hold(records, j);
    }
    lemma_all_written(order, sequences_of(records));
}

/// Sorting leaves the original positions as they are: the order of a run holds
/// each original position as often as the input does. On the index of some
/// records these are the numbers from 0 to one less than the number of records.
pub proof fn lemma_order_keeps_original_positions(
    s: Seq<ScaffoldView>,
    mode: SortMode,
    direction: Direction,
)
    ensures
        original_positions(final_order(s, mode, direction)).to_multiset() == original_positions(
            s,
        ).to_multiset(),
{
    let arr = arranged(s, mode, direction);
    let order = final_order(s, mode, direction);
    lemma_arranged_permutes(s, mode, direction);
    lemma_property_of_same_scaffolds(arr, s, |x: ScaffoldView| x.original_position);
    assert(original_positions(order) =~= arr.map_values(|x: ScaffoldView| x.original_position));
    assert(original_positions(s) =~= s.map_values(|x: ScaffoldView| x.original_position));
}

/// Whether the suffix and the class of a scaffold are those of its identifier.
pub open spec fn is_classified(s: ScaffoldView) -> bool {
    s.id_suffix == suffix_of(s.id) && s.is_sex == has_sex_marker(s.id_suffix)
}

/// In the order of a run on some records, every scaffold has the suffix and the
/// class of its identifier.
pub proof fn lemma_order_is_classified(
    records: Seq<FastaRecordView>,
    mode: SortMode,
    direction: Direction,
)
    ensures
        forall|i: int|
            0 <= i < records.len() ==> is_classified(
                #[trigger] final_order(index_of(records), mode, direction)[i],
            ),
{
    let index = index_of(records);
    let arr = arranged(index, mode, direction);
    lemma_arranged_permutes(index, mode, direction);
    assert forall|i: int| 0 <= i < records.len() implies is_classified(
        #[trigger] final_order(index, mode, direction)[i],
    ) by {
        lemma_same_members(arr, index, i);
    }
}

} // verus!
