//! Capitalization variants of a word.

use vstd::prelude::*;

verus! {

/// What str::to_lowercase gives for a string.
pub uninterp spec fn lower_of(s: Seq<char>) -> Seq<char>;

/// What str::to_uppercase gives for a string.
pub uninterp spec fn upper_of(s: Seq<char>) -> Seq<char>;

/// Relies on str::to_lowercase: the lower-case mapping of each character.
#[verifier::external_body]
fn lowercase(s: &str) -> (r: String)
    ensures
        r@ == lower_of(s@),
{
    s.to_lowercase()
}

/// Relies on str::to_uppercase: the upper-case mapping of each character.
#[verifier::external_body]
fn uppercase(s: &str) -> (r: String)
    ensures
        r@ == upper_of(s@),
{
    s.to_uppercase()
}

/// Why a word could not be expanded.
#[derive(Debug, Clone, Copy, PartialEq, Eq, Structural)]
pub enum MungeError {
    /// The word has no characters, so it has no first character to capitalize.
    EmptyInput,
}

/// The strings as mathematical values.
pub open spec fn strings_view(v: Seq<String>) -> Seq<Seq<char>> {
    v.map_values(|s: String| s@)
}

/// The word with its first character upper-cased and the rest as it is.
pub open spec fn capitalized(w: Seq<char>) -> Seq<char> {
    upper_of(w.take(1)) + w.skip(1)
}

/// The four case variants of a word: as given, lower case, upper case, and
/// with its first character upper-cased.
pub open spec fn case_variants(w: Seq<char>) -> Seq<Seq<char>> {
    seq![w, lower_of(w), upper_of(w), capitalized(w)]
}

/// Produces the case variants of a word.
pub struct Capitalization {}

impl Capitalization {
    pub fn new() -> (r: Self) {
        Capitalization {}
    }

    /// The four case variants of `word`, in the order of `case_variants`;
    /// an empty word is refused.
    pub fn munge(&self, word: &str) -> (r: Result<Vec<String>, MungeError>)
        ensures
            r is Err <==> word@.len() == 0,
            r is Err ==> r->Err_0 == MungeError::EmptyInput,
            r is Ok ==> strings_view(r->Ok_0@) == case_variants(word@),
    {
        let n = word.unicode_len();
        if n == 0 {
            return Err(MungeError::EmptyInput);
        }
        let first = word.substring_char(0, 1);
        let rest = word.substring_char(1, n);
        let cap = uppercase(first).concat(rest);
        let mut r: Vec<String> = Vec::new();
        r.push(word.to_owned());
        r.push(lowercase(word));
        r.push(uppercase(word));
        r.push(cap);
        assert(strings_view(r@) =~= case_variants(word@));
        Ok(r)
    }
}

} // verus!
