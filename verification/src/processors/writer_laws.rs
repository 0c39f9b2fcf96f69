//! What holds of the rendered FASTA text: the lines of a sequence, and which
//! identifiers are written.

use crate::generics::scaffold::{ids, ScaffoldView};
use crate::processors::writer::{lemma_written_push, sequence_lines, skipped, written};
use vstd::prelude::*;

verus! {

/// Line wrapping: the lines of a sequence, put end to end, are the sequence; every
/// line but the last holds exactly `line_length` bytes, and the last holds at
/// least one byte and at most `line_length`.
pub proof fn lemma_sequence_lines(seq: Seq<u8>, line_length: int)
    requires
        line_length >= 1,
    ensures
        sequence_lines(seq, line_length).flatten() == seq,
        forall|i: int|
            0 <= i < sequence_lines(seq, line_length).len() - 1 ==> (#[trigger] sequence_lines(
                seq,
                line_length,
            )[i]).len() == line_length,
        sequence_lines(seq, line_length).len() > 0 ==> 1 <= sequence_lines(
            seq,
            line_length,
        ).last().len() <= line_length,
        (sequence_lines(seq, line_length).len() == 0) == (seq.len() == 0),
        (sequence_lines(seq, line_length).len() - 1) * line_length < seq.len()
            <= sequence_lines(seq, line_length).len() * line_length,
    decreases seq.len(),
{
    let lines = sequence_lines(seq, line_length);
    if seq.len() == 0 {
        assert(lines.flatten() =~= seq);
    } else if seq.len() <= line_length {
        assert(lines.drop_first() =~= Seq::<Seq<u8>>::empty());
        assert(lines.drop_first().flatten() =~= Seq::<u8>::empty());
        assert(lines.flatten() =~= seq);
    } else {
        let head = seq.take(line_length);
        let rest = sequence_lines(seq.skip(line_length), line_length);
        lemma_sequence_lines(seq.skip(line_length), line_length);
        assert(lines.first() == head);
        assert(lines.drop_first() =~= rest);
        assert(lines.flatten() =~= seq);
        assert forall|i: int| 0 <= i < lines.len() - 1 implies (#[trigger] lines[i]).len()
            == line_length by {
            if i > 0 {
                assert(lines[i] == rest[i - 1]);
            }
        }
        assert(lines.last() == rest.last());
        assert((lines.len() - 1) * line_length == (rest.len() - 1) * line_length + line_length)
            by (nonlinear_arith)
            requires
                lines.len() == rest.len() + 1,
        ;
        assert(lines.len() * line_length == rest.len() * line_length + line_length)
            by (nonlinear_arith)
            requires
                lines.len() == rest.len() + 1,
        ;
    }
}

/// Where the map holds a sequence for every scaffold, all are written and none is
/// skipped.
pub proof fn lemma_all_written(scaffolds: Seq<ScaffoldView>, sequences: Map<Seq<char>, Seq<u8>>)
    requires
        forall|i: int| 0 <= i < scaffolds.len() ==> sequences.contains_key(#[trigger] scaffolds[i].id),
    ensures
        written(scaffolds, sequences) == scaffolds,
        skipped(scaffolds, sequences) == Seq::<ScaffoldView>::empty(),
    decreases scaffolds.len(),
{
    if scaffolds.len() == 0 {
        reveal_with_fuel(Seq::filter, 1);
        assert(skipped(scaffolds, sequences) =~= Seq::<ScaffoldView>::empty());
    } else {
        let rest = scaffolds.drop_last();
        assert forall|i: int| 0 <= i < rest.len() implies sequences.contains_key(
            #[trigger] rest[i].id,
        ) by {
            assert(rest[i] == scaffolds[i]);
        }
        lemma_all_written(rest, sequences);
        lemma_written_push(rest, scaffolds.last(), sequences);
        assert(scaffolds =~= rest.push(scaffolds.last()));
    }
}

/// Every identifier is written or skipped: what is written and what is skipped
/// hold between them each identifier as often as the scaffolds do.
pub proof fn lemma_written_or_skipped(
    scaffolds: Seq<ScaffoldView>,
    sequences: Map<Seq<char>, Seq<u8>>,
)
    ensures
        ids(written(scaffolds, sequences)).to_multiset().add(
            ids(skipped(scaffolds, sequences)).to_multiset(),
        ) == ids(scaffolds).to_multiset(),
    decreases scaffolds.len(),
{
    broadcast use {
        vstd::seq_lib::to_multiset_build,
        vstd::seq_lib::to_multiset_contains,
        vstd::multiset::group_multiset_axioms,
    };

    let w = written(scaffolds, sequences);
    let k = skipped(scaffolds, sequences);
    if scaffolds.len() == 0 {
        reveal_with_fuel(Seq::filter, 1);
        assert forall|id: Seq<char>| ids(scaffolds).to_multiset().count(id) == 0 by {
            assert(!ids(scaffolds).contains(id));
        }
        assert(ids(w).to_multiset().add(ids(k).to_multiset()) =~= ids(scaffolds).to_multiset());
    } else {
        let rest = scaffolds.drop_last();
        let x = scaffolds.last();
        lemma_written_or_skipped(rest, sequences);
        lemma_written_push(rest, x, sequences);
        assert(scaffolds =~= rest.push(x));
        assert(ids(scaffolds) =~= ids(rest).push(x.id));
        if sequences.contains_key(x.id) {
            assert(ids(w) =~= ids(written(rest, sequences)).push(x.id));
        } else {
            assert(ids(k) =~= ids(skipped(rest, sequences)).push(x.id));
        }
        assert(ids(w).to_multiset().add(ids(k).to_multiset()) =~= ids(scaffolds).to_multiset());
    }
}

/// What is written depends on the identifiers alone: two sequences with the same
/// identifiers at the same places have the same identifiers written and skipped.
pub proof fn lemma_written_by_ids(
    a: Seq<ScaffoldView>,
    b: Seq<ScaffoldView>,
    sequences: Map<Seq<char>, Seq<u8>>,
)
    requires
        ids(a) == ids(b),
    ensures
        ids(written(a, sequences)) == ids(written(b, sequences)),
        ids(skipped(a, sequences)) == ids(skipped(b, sequences)),
    decreases a.len(),
{
    assert(ids(a).len() == a.len());
    assert(ids(b).len() == b.len());
    if a.len() == 0 {
        reveal_with_fuel(Seq::filter, 1);
    } else {
        let x = a.last();
        let y = b.last();
        assert(x.id == y.id) by {
            assert(ids(a)[a.len() - 1] == ids(b)[a.len() - 1]);
        }
        assert(ids(a.drop_last()) =~= ids(b.drop_last())) by {
            assert forall|i: int| 0 <= i < a.len() - 1 implies ids(a.drop_last())[i] == ids(
                b.drop_last(),
            )[i] by {
                assert(ids(a)[i] == ids(b)[i]);
            }
        }
        lemma_written_by_ids(a.drop_last(), b.drop_last(), sequences);
        lemma_written_push(a.drop_last(), x, sequences);
        lemma_written_push(b.drop_last(), y, sequences);
        assert(a =~= a.drop_last().push(x));
        assert(b =~= b.drop_last().push(y));
        let wa = written(a.drop_last(), sequences);
        let wb = written(b.drop_last(), sequences);
        let ka = skipped(a.drop_last(), sequences);
        let kb = skipped(b.drop_last(), sequences);
        assert(ids(wa.push(x)) =~= ids(wa).push(x.id));
        assert(ids(wb.push(y)) =~= ids(wb).push(y.id));
        assert(ids(ka.push(x)) =~= ids(ka).push(x.id));
        assert(ids(kb.push(y)) =~= ids(kb).push(y.id));
    }
}

/// A filtered sequence holds what the filtered multiset of the sequence holds.
proof fn lemma_filter_multiset(s: Seq<ScaffoldView>, keep: spec_fn(ScaffoldView) -> bool)
    ensures
        s.filter(keep).to_multiset() == s.to_multiset().filter(keep),
    decreases s.len(),
{
    broadcast use {
        vstd::seq_lib::to_multiset_build,
        vstd::seq_lib::to_multiset_contains,
        vstd::multiset::group_multiset_axioms,
    };

    reveal_with_fuel(Seq::filter, 2);
    if s.len() == 0 {
        assert forall|x: ScaffoldView| s.to_multiset().count(x) == 0 by {
            assert(!s.contains(x));
        }
        assert(s.filter(keep).to_multiset() =~= s.to_multiset().filter(keep));
    } else {
        let rest = s.drop_last();
        lemma_filter_multiset(rest, keep);
        assert(s =~= rest.push(s.last()));
        assert(s.filter(keep).to_multiset() =~= s.to_multiset().filter(keep));
    }
}

/// What is written of two sequences that hold the same scaffolds is the same
/// scaffolds, and so for what is skipped.
pub proof fn lemma_written_of_same_scaffolds(
    a: Seq<ScaffoldView>,
    b: Seq<ScaffoldView>,
    sequences: Map<Seq<char>, Seq<u8>>,
)
    requires
        a.to_multiset() == b.to_multiset(),
    ensures
        written(a, sequences).to_multiset() == written(b, sequences).to_multiset(),
        skipped(a, sequences).to_multiset() == skipped(b, sequences).to_multiset(),
{
    lemma_filter_multiset(a, |x: ScaffoldView| sequences.contains_key(x.id));
    lemma_filter_multiset(b, |x: ScaffoldView| sequences.contains_key(x.id));
    lemma_filter_multiset(a, |x: ScaffoldView| !sequences.contains_key(x.id));
    lemma_filter_multiset(b, |x: ScaffoldView| !sequences.contains_key(x.id));
}

/// Two sequences that hold the same scaffolds hold the same values of any one
/// property of a scaffold.
pub proof fn lemma_property_of_same_scaffolds<T>(
    a: Seq<ScaffoldView>,
    b: Seq<ScaffoldView>,
    property: spec_fn(ScaffoldView) -> T,
)
    requires
        a.to_multiset() == b.to_multiset(),
    ensures
        a.map_values(property).to_multiset() == b.map_values(property).to_multiset(),
    decreases a.len(),
{
    broadcast use {
        vstd::seq_lib::to_multiset_build,
        vstd::seq_lib::to_multiset_contains,
        vstd::seq_lib::to_multiset_remove,
        vstd::seq_lib::to_multiset_insert,
        vstd::multiset::group_multiset_axioms,
    };

    a.to_multiset_ensures();
    b.to_multiset_ensures();
    assert(a.len() == b.len());
    if a.len() == 0 {
        assert(a.map_values(property) =~= b.map_values(property));
    } else {
        let x = a.last();
        let rest = a.drop_last();
        assert(a =~= rest.push(x));
        assert(a.contains(x));
        assert(b.to_multiset().count(x) > 0);
        assert(b.contains(x));
        let j = choose|j: int| 0 <= j < b.len() && b[j] == x;
        let others = b.remove(j);
        assert(rest.to_multiset() =~= a.to_multiset().remove(x));
        assert(others.to_multiset() =~= b.to_multiset().remove(x));
        lemma_property_of_same_scaffolds(rest, others, property);
        assert(a.map_values(property) =~= rest.map_values(property).push(property(x)));
        assert(b.map_values(property) =~= others.map_values(property).insert(j, property(x)));
        assert(a.map_values(property).to_multiset() =~= b.map_values(property).to_multiset());
    }
}

/// Two sequences that hold the same scaffolds hold the same identifiers.
pub proof fn lemma_ids_of_same_scaffolds(a: Seq<ScaffoldView>, b: Seq<ScaffoldView>)
    requires
        a.to_multiset() == b.to_multiset(),
    ensures
        ids(a).to_multiset() == ids(b).to_multiset(),
{
    lemma_property_of_same_scaffolds(a, b, |x: ScaffoldView| x.id);
    assert(ids(a) =~= a.map_values(|x: ScaffoldView| x.id));
    assert(ids(b) =~= b.map_values(|x: ScaffoldView| x.id));
}

} // verus!
