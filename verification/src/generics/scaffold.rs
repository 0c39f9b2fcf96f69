//! The scaffold record and its mathematical model.

use vstd::prelude::*;

verus! {

/// One entry of the scaffold index: what is known of one FASTA record.
#[derive(Debug, Clone, PartialEq, Eq)]
pub struct Scaffold {
    /// The identifier of the record.
    pub id: String,
    /// What follows the last `_` of the identifier, or `NA`.
    pub id_suffix: String,
    /// Whether the suffix marks a sex chromosome.
    pub is_sex: bool,
    /// The number of bytes of the record's sequence.
    pub scaff_length: usize,
    /// The zero-based place of the record in the input.
    pub original_position: usize,
    /// The zero-based place of the record in the output; 0 until the order is fixed.
    pub sorted_position: usize,
}

/// The mathematical value of a [`Scaffold`].
pub ghost struct ScaffoldView {
    pub id: Seq<char>,
    pub id_suffix: Seq<char>,
    pub is_sex: bool,
    pub scaff_length: nat,
    pub original_position: nat,
    pub sorted_position: nat,
}

impl View for Scaffold {
    type V = ScaffoldView;

    open spec fn view(&self) -> ScaffoldView {
        ScaffoldView {
            id: self.id@,
            id_suffix: self.id_suffix@,
            is_sex: self.is_sex,
            scaff_length: self.scaff_length as nat,
            original_position: self.original_position as nat,
            sorted_position: self.sorted_position as nat,
        }
    }
}

impl DeepView for Scaffold {
    type V = ScaffoldView;

    open spec fn deep_view(&self) -> ScaffoldView {
        self@
    }
}

/// The mathematical values of a sequence of scaffolds.
pub open spec fn models(s: Seq<Scaffold>) -> Seq<ScaffoldView> {
    Seq::new(s.len(), |i: int| s[i]@)
}

/// The identifiers of some scaffolds, in their order.
pub open spec fn ids(scaffolds: Seq<ScaffoldView>) -> Seq<Seq<char>> {
    Seq::new(scaffolds.len(), |i: int| scaffolds[i].id)
}

/// The original positions of some scaffolds, in their order.
pub open spec fn original_positions(scaffolds: Seq<ScaffoldView>) -> Seq<nat> {
    Seq::new(scaffolds.len(), |i: int| scaffolds[i].original_position)
}

} // verus!
