//! The change log: one block of text for each scaffold.

use crate::generics::scaffold::{models, Scaffold, ScaffoldView};
use vstd::prelude::*;

verus! {

/// The character of a decimal digit.
pub open spec fn digit_char(d: nat) -> char {
    if d == 0 {
        '0'
    } else if d == 1 {
        '1'
    } else if d == 2 {
        '2'
    } else if d == 3 {
        '3'
    } else if d == 4 {
        '4'
    } else if d == 5 {
        '5'
    } else if d == 6 {
        '6'
    } else if d == 7 {
        '7'
    } else if d == 8 {
        '8'
    } else {
        '9'
    }
}

/// A number in decimal notation, without leading zeros.
pub open spec fn decimal(n: nat) -> Seq<char>
    decreases n,
{
    if n < 10 {
        seq![digit_char(n)]
    } else {
        decimal(n / 10).push(digit_char(n % 10))
    }
}

/// A truth value as the word `true` or `false`.
pub open spec fn bool_text(b: bool) -> Seq<char> {
    if b {
        "true"@
    } else {
        "false"@
    }
}

/// The block of the change log for one scaffold.
pub open spec fn entry_text(s: ScaffoldView) -> Seq<char> {
    "ID: "@ + s.id + "\n\t-SUFFIX: "@ + s.id_suffix + "\n\t-IS_SEX: "@ + bool_text(s.is_sex)
        + "\n\t-SCAFFOLD_LENGTH: "@ + decimal(s.scaff_length) + "\n\t-ORIGINAL_POSITION: "@
        + decimal(s.original_position) + "\n\t-SORTED_POSITION: "@ + decimal(s.sorted_position)
        + "\n"@
}

/// The change log of some scaffolds: the block of each, followed by an empty line.
pub open spec fn log_text(scaffolds: Seq<ScaffoldView>) -> Seq<char>
    decreases scaffolds.len(),
{
    if scaffolds.len() == 0 {
        Seq::empty()
    } else {
        log_text(scaffolds.drop_last()) + entry_text(scaffolds.last()) + "\n"@
    }
}

/// The text of one decimal digit.
fn digit_text(d: usize) -> (text: &'static str)
    requires
        d < 10,
    ensures
        text@ == seq![digit_char(d as nat)],
{
    proof {
        reveal_strlit("0");
        reveal_strlit("1");
        reveal_strlit("2");
        reveal_strlit("3");
        reveal_strlit("4");
        reveal_strlit("5");
        reveal_strlit("6");
        reveal_strlit("7");
        reveal_strlit("8");
        reveal_strlit("9");
    }
    let text = if d == 0 {
        "0"
    } else if d == 1 {
        "1"
    } else if d == 2 {
        "2"
    } else if d == 3 {
        "3"
    } else if d == 4 {
        "4"
    } else if d == 5 {
        "5"
    } else if d == 6 {
        "6"
    } else if d == 7 {
        "7"
    } else if d == 8 {
        "8"
    } else {
        "9"
    };
    assert(text@ =~= seq![digit_char(d as nat)]);
    text
}

/// Writes a number in decimal notation.
pub fn decimal_string(n: usize) -> (text: String)
    ensures
        text@ == decimal(n as nat),
    decreases n,
{
    if n < 10 {
        digit_text(n).to_owned()
    } else {
        let mut text = decimal_string(n / 10);
        text.append(digit_text(n % 10));
        assert(text@ =~= decimal(n as nat));
        text
    }
}

impl Scaffold {
    /// The block of the change log for this scaffold.
    pub fn describe(&self) -> (text: String)
        ensures
            text@ == entry_text(self@),
    {
        let mut text = "ID: ".to_owned();
        text.append(self.id.as_str());
        text.append("\n\t-SUFFIX: ");
        text.append(self.id_suffix.as_str());
        text.append("\n\t-IS_SEX: ");
        if self.is_sex {
            text.append("true");
        } else {
            text.append("false");
        }
        text.append("\n\t-SCAFFOLD_LENGTH: ");
        text.append(decimal_string(self.scaff_length).as_str());
        text.append("\n\t-ORIGINAL_POSITION: ");
        text.append(decimal_string(self.original_position).as_str());
        text.append("\n\t-SORTED_POSITION: ");
        text.append(decimal_string(self.sorted_position).as_str());
        text.append("\n");
        text
    }
}

/// Renders the change log of the scaffolds, in their order.
pub fn log_scaffolds(scaffolds: &Vec<Scaffold>) -> (text: String)
    ensures
        text@ == log_text(scaffolds.deep_view()),
{
    let ghost all = models(scaffolds@);
    let mut text = String::new();
    let mut i: usize = 0;
    assert(all.take(0) =~= Seq::<ScaffoldView>::empty());
    while i < scaffolds.len()
        invariant
            i <= scaffolds@.len(),
            all == models(scaffolds@),
            text@ == log_text(all.take(i as int)),
        decreases scaffolds@.len() - i,
    {
        let ghost before = text@;
        let entry = scaffolds[i].describe();
        text.append(entry.as_str());
        text.append("\n");
        proof {
            assert(all.take(i + 1).drop_last() =~= all.take(i as int));
            assert(text@ =~= before + entry_text(all[i as int]) + "\n"@);
        }
        i += 1;
    }
    proof {
        assert(all.take(all.len() as int) =~= all);
        assert(scaffolds.deep_view() =~= all);
    }
    text
}

} // verus!
