use vstd::prelude::*;

use crate::lexer::{matches_view, ordered_matches};

verus! {

#[verifier::external_type_specification]
#[verifier::external_body]
pub struct ExRegex(regex::Regex);

/// The pattern a lexer searches for: a run of word characters, or a newline.
pub open spec fn word_pattern() -> Seq<char> {
    seq!['[', '\\', 'w', ']', '+', '|', '\n']
}

/// The successive matches of the word pattern in a text, each as its start byte,
/// its end byte and the matched text.
pub uninterp spec fn word_matches(text: Seq<char>) -> Seq<(usize, usize, Seq<char>)>;

/// A compiled regex together with the pattern it was compiled from. Its fields
/// are private to this module, where only `compile_word_regex` builds one, so
/// every value holds the word pattern compiled.
pub struct WordRegex {
    regex: regex::Regex,
    pattern: String,
}

impl WordRegex {
    /// The pattern this regex was compiled from.
    pub closed spec fn pattern(&self) -> Seq<char> {
        self.pattern@
    }
}

/// Relies on regex::Regex::new, which compiles the word pattern without error,
/// so that the unwrap never panics.
#[verifier::external_body]
pub(crate) fn compile_word_regex(pattern: &str) -> (r: WordRegex)
    requires
        pattern@ == word_pattern(),
    ensures
        r.pattern() == pattern@,
{
    WordRegex { regex: regex::Regex::new(pattern).unwrap(), pattern: pattern.to_owned() }
}

/// Relies on regex::Regex::find_iter on the word regex: successive
/// non-overlapping matches, each with start <= end within the text; the word
/// pattern matches no empty string.
#[verifier::external_body]
pub(crate) fn find_word_matches(re: &WordRegex, text: &str) -> (r: Vec<(usize, usize, String)>)
    requires
        re.pattern() == word_pattern(),
    ensures
        matches_view(r@) == word_matches(text@),
        ordered_matches(matches_view(r@)),
{
    re.regex.find_iter(text).map(|m| (m.start(), m.end(), m.as_str().to_owned())).collect()
}

} // verus!
