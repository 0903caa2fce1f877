//! The target letter case of a rename and the case folding of a name.
//!
//! A rename turns the final component of a path into its fully uppercased or
//! fully lowercased form, extension included.  The Unicode case folding is
//! done by `str::to_uppercase` and `str::to_lowercase`; their results are
//! named by the uninterpreted functions [`upper_of`] and [`lower_of`], and on
//! ASCII input they are pinned down exactly, character by character.

use vstd::prelude::*;

verus! {

/// The two target cases a name can be converted to.
#[derive(Clone, Copy, PartialEq, Eq, Structural, Debug)]
pub enum LetterCase {
    UpperCase,
    LowerCase,
}

/// The sequence of characters that `str::to_uppercase` returns for `s`.
pub uninterp spec fn upper_of(s: Seq<char>) -> Seq<char>;

/// The sequence of characters that `str::to_lowercase` returns for `s`.
pub uninterp spec fn lower_of(s: Seq<char>) -> Seq<char>;

pub open spec fn is_ascii_char(c: char) -> bool {
    (c as int) < 128
}

pub open spec fn is_ascii_seq(s: Seq<char>) -> bool {
    forall|i: int| 0 <= i < s.len() ==> is_ascii_char(#[trigger] s[i])
}

/// The uppercase form of a single ASCII character; other characters unchanged.
pub open spec fn ascii_upper_char(c: char) -> char {
    if 'a' <= c && c <= 'z' {
        ((c as int) - 32) as char
    } else {
        c
    }
}

/// The lowercase form of a single ASCII character; other characters unchanged.
pub open spec fn ascii_lower_char(c: char) -> char {
    if 'A' <= c && c <= 'Z' {
        ((c as int) + 32) as char
    } else {
        c
    }
}

/// What either fold returns: `upper_of` or `lower_of`, by target case.
pub open spec fn case_fold(case: LetterCase, s: Seq<char>) -> Seq<char> {
    match case {
        LetterCase::UpperCase => upper_of(s),
        LetterCase::LowerCase => lower_of(s),
    }
}

/// The character-by-character ASCII fold; equals `case_fold` on ASCII input.
pub open spec fn ascii_fold(case: LetterCase, s: Seq<char>) -> Seq<char> {
    match case {
        LetterCase::UpperCase => s.map_values(|c: char| ascii_upper_char(c)),
        LetterCase::LowerCase => s.map_values(|c: char| ascii_lower_char(c)),
    }
}

/// Relies on `str::to_uppercase`: its result depends on the characters alone,
/// and, per the Unicode uppercase mapping that its documentation names, the
/// ASCII letters `a`-`z` are mapped to `A`-`Z` and other ASCII characters are
/// left unchanged.
#[verifier::external_body]
fn str_to_upper(s: &str) -> (r: String)
    ensures
        r@ == upper_of(s@),
        is_ascii_seq(s@) ==> r@ == s@.map_values(|c: char| ascii_upper_char(c)),
{
    s.to_uppercase()
}

/// Relies on `str::to_lowercase`: its result depends on the characters alone,
/// and, per the Unicode lowercase mapping that its documentation names, the
/// ASCII letters `A`-`Z` are mapped to `a`-`z` and other ASCII characters are
/// left unchanged.
#[verifier::external_body]
fn str_to_lower(s: &str) -> (r: String)
    ensures
        r@ == lower_of(s@),
        is_ascii_seq(s@) ==> r@ == s@.map_values(|c: char| ascii_lower_char(c)),
{
    s.to_lowercase()
}

/// Computes the case-converted form of a path's final component: the whole
/// name, extension included, folded to the requested case.
pub fn convert_name(name: &str, case: &LetterCase) -> (r: String)
    ensures
        r@ == case_fold(*case, name@),
        is_ascii_seq(name@) ==> r@ == ascii_fold(*case, name@),
{
    match case {
        LetterCase::UpperCase => str_to_upper(name),
        LetterCase::LowerCase => str_to_lower(name),
    }
}

/// Law: on ASCII names the fold to either case is insensitive to the original
/// casing — folding to one case after folding to the other (or after folding
/// to the same case twice) gives exactly what a single fold gives.  In
/// particular a name already in the target case is mapped to itself, so the
/// rename it describes is a no-op.  Non-ASCII input is excluded: Unicode case
/// folding does not promise this round trip for every character.
pub proof fn lemma_ascii_fold_round_trip(a: LetterCase, b: LetterCase, s: Seq<char>)
    requires
        is_ascii_seq(s),
    ensures
        ascii_fold(b, ascii_fold(a, s)) == ascii_fold(b, s),
{
    assert(ascii_fold(b, ascii_fold(a, s)) =~= ascii_fold(b, s)) by {
        assert forall|i: int| 0 <= i < s.len() implies ascii_fold(b, ascii_fold(a, s))[i]
            == ascii_fold(b, s)[i] by {
            let c = s[i];
            assert(is_ascii_char(c));
        }
    }
}

} // verus!
