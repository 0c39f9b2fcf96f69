//! Classification of a scaffold from its identifier.
//!
//! The class is a heuristic on the text of the identifier: a suffix that holds one
//! of the letters X, Y, Z or W, in either case, counts as a sex chromosome, also
//! where the letter stands there for another reason.

use vstd::prelude::*;

verus! {

/// The letters that mark a sex chromosome.
pub open spec fn is_sex_marker(c: char) -> bool {
    c == 'X' || c == 'x' || c == 'Y' || c == 'y' || c == 'Z' || c == 'z' || c == 'W' || c == 'w'
}

/// Whether a text holds a letter that marks a sex chromosome.
pub open spec fn has_sex_marker(s: Seq<char>) -> bool {
    exists|i: int| 0 <= i < s.len() && is_sex_marker(#[trigger] s[i])
}

/// The place of the last `_` in `id`, or -1 where it holds none.
pub open spec fn last_underscore(id: Seq<char>) -> int
    decreases id.len(),
{
    if id.len() == 0 {
        -1
    } else if id.last() == '_' {
        id.len() - 1
    } else {
        last_underscore(id.drop_last())
    }
}

/// The suffix given to an identifier without `_`.
pub open spec fn missing_suffix() -> Seq<char> {
    seq!['N', 'A']
}

/// What follows the last `_` of `id`; `NA` where `id` holds no `_`.
pub open spec fn suffix_of(id: Seq<char>) -> Seq<char> {
    let at = last_underscore(id);
    if at < 0 {
        missing_suffix()
    } else {
        id.skip(at + 1)
    }
}

/// Whether the text holds one of the letters X, Y, Z, W, in either case.
pub fn contains_sex_scaff(chromosome_id: &str) -> (found: bool)
    ensures
        found == has_sex_marker(chromosome_id@),
{
    let mut found = false;
    for c in it: chromosome_id.chars()
        invariant
            it.seq() == chromosome_id@,
            found == has_sex_marker(chromosome_id@.take(it.index() as int)),
    {
        let ghost k = it.index() as int;
        let hit = c == 'X' || c == 'x' || c == 'Y' || c == 'y' || c == 'Z' || c == 'z' || c == 'W'
            || c == 'w';
        proof {
            let before = chromosome_id@.take(k);
            let after = chromosome_id@.take(k + 1);
            assert(after =~= before.push(c));
            if has_sex_marker(before) {
                let i = choose|i: int| 0 <= i < before.len() && is_sex_marker(before[i]);
                assert(is_sex_marker(after[i]));
            }
            if hit {
                assert(is_sex_marker(after[k]));
            }
            if has_sex_marker(after) {
                let i = choose|i: int| 0 <= i < after.len() && is_sex_marker(after[i]);
                if i < k {
                    assert(is_sex_marker(before[i]));
                }
            }
        }
        found = found || hit;
    }
    assert(chromosome_id@.take(chromosome_id@.len() as int) =~= chromosome_id@);
    found
}

/// The last `_` of an identifier is a `_`, nothing behind it is, and it is missing
/// exactly where the identifier holds none.
pub proof fn lemma_last_underscore(id: Seq<char>)
    ensures
        -1 <= last_underscore(id) < id.len(),
        last_underscore(id) >= 0 ==> id[last_underscore(id)] == '_',
        forall|j: int| last_underscore(id) < j < id.len() ==> id[j] != '_',
        last_underscore(id) >= 0 <==> id.contains('_'),
    decreases id.len(),
{
    if id.len() > 0 {
        lemma_last_underscore(id.drop_last());
        if id.last() != '_' {
            assert forall|j: int| last_underscore(id) < j < id.len() implies id[j] != '_' by {
                if j < id.len() - 1 {
                    assert(id.drop_last()[j] == id[j]);
                }
            }
            if id.contains('_') {
                let j = choose|j: int| 0 <= j < id.len() && id[j] == '_';
                assert(id.drop_last()[j] == '_');
            }
            if id.drop_last().contains('_') {
                let j = choose|j: int| 0 <= j < id.drop_last().len() && id.drop_last()[j] == '_';
                assert(id[j] == '_');
            }
        } else {
            assert(id[id.len() - 1] == '_');
        }
    }
}

/// An identifier that holds `_` is what stands before its last `_`, that `_`, and
/// its suffix, which holds no `_`; any other identifier has the suffix `NA`.
pub proof fn lemma_suffix_of(id: Seq<char>)
    ensures
        !id.contains('_') ==> suffix_of(id) == missing_suffix(),
        id.contains('_') ==> id == id.take(last_underscore(id)) + seq!['_'] + suffix_of(id),
        id.contains('_') ==> !suffix_of(id).contains('_'),
{
    lemma_last_underscore(id);
    if id.contains('_') {
        let at = last_underscore(id);
        assert(id =~= id.take(at) + seq!['_'] + suffix_of(id));
        if suffix_of(id).contains('_') {
            let j = choose|j: int| 0 <= j < suffix_of(id).len() && suffix_of(id)[j] == '_';
            assert(id[at + 1 + j] == '_');
        }
    }
}

/// The suffix of an identifier: what follows its last `_`, or `NA`.
pub fn scaffold_suffix(id: &str) -> (suffix: String)
    ensures
        suffix@ == suffix_of(id@),
{
    let n = id.unicode_len();
    let mut at: Option<usize> = None;
    let mut seen: usize = 0;
    for c in it: id.chars()
        invariant
            it.seq() == id@,
            n == id@.len(),
            seen == it.index(),
            match at {
                Some(p) => p < seen && last_underscore(id@.take(seen as int)) == p,
                None => last_underscore(id@.take(seen as int)) == -1,
            },
    {
        proof {
            let k = seen as int;
            assert(id@.take(k + 1).drop_last() =~= id@.take(k));
        }
        if c == '_' {
            at = Some(seen);
        }
        seen += 1;
    }
    assert(id@.take(n as int) =~= id@);
    match at {
        Some(p) => id.substring_char(p + 1, n).to_owned(),
        None => {
            proof {
                reveal_strlit("NA");
                assert("NA"@ =~= missing_suffix());
            }
            "NA".to_owned()
        },
    }
}

/// The suffix and the class of an identifier.
pub fn classify(id: &str) -> (class: (String, bool))
    ensures
        class.0@ == suffix_of(id@),
        class.1 == has_sex_marker(suffix_of(id@)),
{
    let suffix = scaffold_suffix(id);
    let is_sex = contains_sex_scaff(suffix.as_str());
    (suffix, is_sex)
}

} // verus!
