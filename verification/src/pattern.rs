use vstd::prelude::*;

use crate::text::{chars_of, slice_chars, string_from};

verus! {

#[verifier::external_type_specification]
#[verifier::external_body]
pub struct ExRegex(regex::Regex);

/// Whether `regex::RegexBuilder`, set to match without regard to case,
/// accepts a pattern (valid syntax, within the default size limits).
pub uninterp spec fn regex_accepts(pattern: Seq<char>) -> bool;

/// Whether the regex compiled from `pattern`, matching without regard to
/// case, matches somewhere in `haystack` (`regex::Regex::is_match`).
pub uninterp spec fn regex_finds(pattern: Seq<char>, haystack: Seq<char>) -> bool;

/// The message of the error that `regex::RegexBuilder` (set to match
/// without regard to case) reports for a pattern it rejects: the
/// `Display` text of its `regex::Error`.
pub uninterp spec fn regex_error_message(pattern: Seq<char>) -> Seq<char>;

/// Compiles a pattern with `regex::RegexBuilder` (`case_insensitive`,
/// then `build`); the claim is that it succeeds exactly on the patterns
/// that `regex_accepts` names, and that a failure carries the message
/// that `regex_error_message` names.
#[verifier::external_body]
fn compile_regex(pattern: &str) -> (res: Result<regex::Regex, String>)
    ensures
        res is Ok <==> regex_accepts(pattern@),
        res matches Err(m) ==> m@ == regex_error_message(pattern@),
{
    match regex::RegexBuilder::new(pattern).case_insensitive(true).build() {
        Ok(re) => Ok(re),
        Err(e) => Err(e.to_string()),
    }
}

/// A rejected name pattern, with the regex engine's message.
#[derive(Debug)]
pub struct PatternError {
    pub message: String,
}

/// A compiled name pattern (`-P`): a regular expression, matched without
/// regard to case, kept with its source text.
pub struct NamePattern {
    source: String,
    re: regex::Regex,
}

impl NamePattern {
    /// The source text the pattern was compiled from.
    pub closed spec fn source(&self) -> Seq<char> {
        self.source@
    }

    /// Compiles a pattern; fails exactly where the regex engine rejects it.
    pub fn new(pattern: &str) -> (res: Result<NamePattern, PatternError>)
        ensures
            res is Ok <==> regex_accepts(pattern@),
            res matches Ok(p) ==> p.source() == pattern@,
            res matches Err(e) ==> e.message@ == regex_error_message(pattern@),
    {
        match compile_regex(pattern) {
            Ok(re) => {
                let v = chars_of(pattern);
                let source = string_from(&v);
                Ok(NamePattern { source, re })
            },
            Err(message) => Err(PatternError { message }),
        }
    }

    /// `regex::Regex::is_match` on the compiled pattern: the claim is that
    /// the answer is `regex_finds` of the source text the pattern was
    /// compiled from and the haystack.
    #[verifier::external_body]
    fn finds(&self, haystack: &str) -> (res: bool)
        ensures
            res == regex_finds(self.source(), haystack@),
    {
        self.re.is_match(haystack)
    }

    /// Whether an entry's name matches: with `match_dirs` only directories
    /// can match; the pattern must occur somewhere in the name, ignoring
    /// case.
    pub fn name_matches(&self, name: &str, is_dir: bool, match_dirs: bool) -> (res: bool)
        ensures
            res == ((!match_dirs || is_dir) && regex_finds(self.source(), name@)),
    {
        (!match_dirs || is_dir) && self.finds(name)
    }
}

/// The pattern text without its trailing slashes (a trailing `/` asks for
/// directories only and is not part of the pattern).
pub open spec fn without_trailing_slashes(p: Seq<char>) -> Seq<char>
    decreases p.len(),
{
    if p.len() > 0 && p.last() == '/' {
        without_trailing_slashes(p.drop_last())
    } else {
        p
    }
}

/// Whether the pattern asks for directories only (ends with `/`).
pub open spec fn asks_dirs_only(p: Seq<char>) -> bool {
    p.len() > 0 && p.last() == '/'
}

/// Strips the trailing slashes of a pattern (`str::trim_end_matches('/')`).
pub fn trim_pattern(p: &str) -> (res: String)
    ensures
        res@ == without_trailing_slashes(p@),
{
    let v = chars_of(p);
    let mut n = v.len();
    assert(v@.take(n as int) =~= v@);
    while n > 0 && v[n - 1] == '/'
        invariant
            n <= v@.len(),
            without_trailing_slashes(p@) == without_trailing_slashes(v@.take(n as int)),
            v@ == p@,
        decreases n,
    {
        assert(v@.take(n as int).drop_last() =~= v@.take(n - 1));
        n = n - 1;
    }
    let t = slice_chars(&v, 0, n);
    assert(t@ =~= v@.take(n as int));
    string_from(&t)
}

/// Whether a pattern ends with `/` (`str::ends_with('/')`).
pub fn ends_with_slash(p: &str) -> (res: bool)
    ensures
        res == asks_dirs_only(p@),
{
    let v = chars_of(p);
    v.len() > 0 && v[v.len() - 1] == '/'
}

} // verus!
