//! Language codes: which are safe in file names, and which denote the same language.
use crate::text::{alphanumeric, chars_of, is_alphanumeric};
use std::str::FromStr;
use vstd::prelude::*;

verus! {

/// The canonical spelling of a language identifier, where the text is one.
pub uninterp spec fn canonical_language(text: Seq<char>) -> Option<Seq<char>>;

/// `unic_langid::LanguageIdentifier::from_str` reads a language identifier, whose `Display` text
/// is its canonical spelling: two texts denote the same identifier exactly when their canonical
/// spellings are the same. The spelling is a function of the text and is referred to by name.
#[verifier::external_body]
fn read_language(text: &str) -> (spelling: Option<String>)
    ensures
        crate::text::optional_text(spelling) == canonical_language(text@),
{
    unic_langid::LanguageIdentifier::from_str(text).ok().map(|language| language.to_string())
}

/// Whether a character can stand in a language code.
pub open spec fn safe_char(c: char) -> bool {
    alphanumeric(c) || c == '-' || c == '_'
}

/// Whether a text can be used as a language code in a file name.
pub open spec fn safe_locale(locale: Seq<char>) -> bool {
    locale.len() > 0 && forall|i: int| 0 <= i < locale.len() ==> safe_char(#[trigger] locale[i])
}

/// A language code with hyphens in place of underscores.
pub open spec fn hyphenated(locale: Seq<char>) -> Seq<char> {
    locale.map_values(
        |c: char|
            if c == '_' {
                '-'
            } else {
                c
            },
    )
}

/// Why a text is not a language code.
#[derive(Debug, Clone, Copy, PartialEq, Eq, Structural)]
pub enum LocaleProblem {
    /// It holds characters that are not safe in a file name, or none.
    Unsafe,
    /// It is not a BCP-47 language identifier.
    Invalid,
}

/// The language that a code denotes.
pub open spec fn language_of(locale: Seq<char>) -> Result<Seq<char>, LocaleProblem> {
    if !safe_locale(locale) {
        Err(LocaleProblem::Unsafe)
    } else {
        match canonical_language(hyphenated(locale)) {
            Some(language) => Ok(language),
            None => Err(LocaleProblem::Invalid),
        }
    }
}

/// Whether a text can be used as a language code in a file name.
pub fn is_safe_locale(locale: &str) -> (safe: bool)
    ensures
        safe == safe_locale(locale@),
{
    let chars = chars_of(locale);
    for i in 0..chars.len()
        invariant
            chars@ == locale@,
            forall|j: int| 0 <= j < i ==> safe_char(#[trigger] locale@[j]),
    {
        let c = chars[i];
        if !(is_alphanumeric(c) || c == '-' || c == '_') {
            assert(!safe_char(locale@[i as int]));
            return false;
        }
    }
    chars.len() > 0
}

/// A language code with hyphens in place of underscores.
pub fn hyphenate(locale: &str) -> (result: String)
    ensures
        result@ == hyphenated(locale@),
{
    let chars = chars_of(locale);
    let mut result = String::new();
    for i in 0..chars.len()
        invariant
            chars@ == locale@,
            result@ == hyphenated(locale@.take(i as int)),
    {
        result.push(if chars[i] == '_' { '-' } else { chars[i] });
        assert(result@ =~= hyphenated(locale@.take(i + 1)));
    }
    assert(locale@.take(locale@.len() as int) =~= locale@);
    result
}

/// The canonical spelling of the language that a code denotes.
pub fn language(locale: &str) -> (outcome: Result<String, LocaleProblem>)
    ensures
        match language_of(locale@) {
            Ok(spelling) => outcome is Ok && outcome->Ok_0@ == spelling,
            Err(problem) => outcome == Err::<String, LocaleProblem>(problem),
        },
{
    if !is_safe_locale(locale) {
        return Err(LocaleProblem::Unsafe);
    }
    let text = hyphenate(locale);
    match read_language(text.as_str()) {
        Some(spelling) => Ok(spelling),
        None => Err(LocaleProblem::Invalid),
    }
}

} // verus!
