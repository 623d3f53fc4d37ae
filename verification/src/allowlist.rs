//! The allowlist: regular expressions matched against a file's base name.
//! A file whose name matches one of them is exempt from protection.

use crate::action::texts;
use vstd::prelude::*;

verus! {

/// `regex::Regex`, a compiled regular expression. Nothing is known of what
/// it holds but the text it was made from, see [`pattern_source`].
#[verifier::external_type_specification]
#[verifier::external_body]
pub struct ExRegex(regex::Regex);

/// `regex::Error`, the reason why a pattern did not compile. Nothing is
/// known of what it holds.
#[verifier::external_type_specification]
#[verifier::external_body]
pub struct ExRegexError(regex::Error);

/// Whether `regex::Regex::new` accepts `pattern`.
pub uninterp spec fn pattern_compiles(pattern: Seq<char>) -> bool;

/// The text that a compiled expression was made from, which
/// `regex::Regex::as_str` hands out.
pub uninterp spec fn pattern_source(compiled: regex::Regex) -> Seq<char>;

/// Whether the expression written as `pattern` matches anywhere in `text`, as
/// `regex::Regex::is_match` finds.
pub uninterp spec fn pattern_matches(pattern: Seq<char>, text: Seq<char>) -> bool;

/// An allowlist pattern that is no regular expression.
#[derive(Debug, Clone, Copy, PartialEq, Eq)]
pub struct PatternError {
    /// The place of the pattern in the allowlist.
    pub index: usize,
}

/// What the patterns from `from` on say of `name`, taken in order: the first
/// that is no regular expression fails the whole, the first that matches
/// exempts the name, and a name that none matches is not exempt.
pub open spec fn screen_from(patterns: Seq<Seq<char>>, name: Seq<char>, from: int) -> Result<
    bool,
    PatternError,
>
    decreases patterns.len() - from,
{
    if from < 0 || from >= patterns.len() {
        Ok(false)
    } else if !pattern_compiles(patterns[from]) {
        Err(PatternError { index: from as usize })
    } else if pattern_matches(patterns[from], name) {
        Ok(true)
    } else {
        screen_from(patterns, name, from + 1)
    }
}

/// What the allowlist `patterns` says of `name`.
pub open spec fn screen(patterns: Seq<Seq<char>>, name: Seq<char>) -> Result<bool, PatternError> {
    screen_from(patterns, name, 0)
}

/// Whether every pattern of `patterns` is a regular expression.
pub open spec fn all_compile(patterns: Seq<Seq<char>>) -> bool {
    forall|i: int| 0 <= i < patterns.len() ==> pattern_compiles(#[trigger] patterns[i])
}

/// Whether some pattern of `patterns` matches `name`.
pub open spec fn some_match(patterns: Seq<Seq<char>>, name: Seq<char>) -> bool {
    exists|i: int| 0 <= i < patterns.len() && pattern_matches(#[trigger] patterns[i], name)
}

/// Calls `regex::Regex::new`.
///
/// Trusted: whether compilation succeeds depends on the pattern alone, and a
/// compiled expression keeps the text it was made from.
#[verifier::external_body]
pub(crate) fn compile(pattern: &str) -> (compiled: Result<regex::Regex, regex::Error>)
    ensures
        compiled is Ok <==> pattern_compiles(pattern@),
        compiled matches Ok(expression) ==> pattern_source(expression) == pattern@,
{
    regex::Regex::new(pattern)
}

/// Calls `regex::Regex::is_match`.
///
/// Trusted: the answer depends on the expression's text and on `text` alone.
#[verifier::external_body]
pub(crate) fn is_match(compiled: &regex::Regex, text: &str) -> (found: bool)
    ensures
        found == pattern_matches(pattern_source(*compiled), text@),
{
    compiled.is_match(text)
}

/// Whether the allowlist `patterns` exempts the base name `name`.
pub fn is_exempt(patterns: &Vec<String>, name: &str) -> (verdict: Result<bool, PatternError>)
    ensures
        verdict == screen(texts(patterns@), name@),
{
    let mut i: usize = 0;
    while i < patterns.len()
        invariant
            i <= patterns@.len(),
            screen(texts(patterns@), name@) == screen_from(texts(patterns@), name@, i as int),
        decreases patterns@.len() - i,
    {
        assert(texts(patterns@)[i as int] == patterns@[i as int]@);
        match compile(patterns[i].as_str()) {
            Ok(expression) => {
                if is_match(&expression, name) {
                    return Ok(true);
                }
            },
            Err(_) => {
                return Err(PatternError { index: i });
            },
        }
        i += 1;
    }
    Ok(false)
}

/// Checks once that every pattern of an allowlist is a regular expression,
/// and names the first that is not.
pub fn check_patterns(patterns: &Vec<String>) -> (checked: Result<(), PatternError>)
    ensures
        checked is Ok <==> all_compile(texts(patterns@)),
        checked matches Err(error) ==> {
            &&& error.index < patterns@.len()
            &&& !pattern_compiles(patterns@[error.index as int]@)
            &&& forall|j: int| 0 <= j < error.index ==> pattern_compiles(#[trigger] patterns@[j]@)
        },
{
    let mut i: usize = 0;
    while i < patterns.len()
        invariant
            i <= patterns@.len(),
            forall|j: int| 0 <= j < i ==> pattern_compiles(#[trigger] patterns@[j]@),
        decreases patterns@.len() - i,
    {
        if compile(patterns[i].as_str()).is_err() {
            assert(texts(patterns@)[i as int] == patterns@[i as int]@);
            return Err(PatternError { index: i });
        }
        i += 1;
    }
    assert forall|j: int| 0 <= j < texts(patterns@).len() implies pattern_compiles(
        #[trigger] texts(patterns@)[j],
    ) by {
        assert(texts(patterns@)[j] == patterns@[j]@);
    }
    Ok(())
}

/// Where every pattern is a regular expression, the allowlist fails on no
/// name, and exempts a name exactly if some pattern matches it.
pub proof fn lemma_checked_allowlist(patterns: Seq<Seq<char>>, name: Seq<char>)
    requires
        all_compile(patterns),
    ensures
        screen(patterns, name) == Ok::<bool, PatternError>(some_match(patterns, name)),
{
    lemma_checked_allowlist_from(patterns, name, 0);
}

/// Where every pattern is a regular expression, the patterns from `from` on
/// exempt a name exactly if one of them matches it.
proof fn lemma_checked_allowlist_from(patterns: Seq<Seq<char>>, name: Seq<char>, from: int)
    requires
        all_compile(patterns),
        0 <= from <= patterns.len(),
    ensures
        screen_from(patterns, name, from) == Ok::<bool, PatternError>(
            exists|i: int|
                from <= i < patterns.len() && pattern_matches(#[trigger] patterns[i], name),
        ),
    decreases patterns.len() - from,
{
    if from < patterns.len() {
        lemma_checked_allowlist_from(patterns, name, from + 1);
        if !pattern_matches(patterns[from], name) {
            let behind = exists|i: int|
                from + 1 <= i < patterns.len() && pattern_matches(#[trigger] patterns[i], name);
            let here = exists|i: int|
                from <= i < patterns.len() && pattern_matches(#[trigger] patterns[i], name);
            if here {
                let i = choose|i: int|
                    from <= i < patterns.len() && pattern_matches(#[trigger] patterns[i], name);
                assert(from + 1 <= i);
            }
            assert(here == behind);
        }
    }
}

/// A name that some pattern matches is never found not exempt: it is exempt,
/// or a pattern before the match is no regular expression.
pub proof fn lemma_match_exempts(patterns: Seq<Seq<char>>, name: Seq<char>, i: int, from: int)
    requires
        0 <= from <= i < patterns.len(),
        pattern_matches(patterns[i], name),
    ensures
        screen_from(patterns, name, from) != Ok::<bool, PatternError>(false),
    decreases i - from,
{
    if from < i && pattern_compiles(patterns[from]) && !pattern_matches(patterns[from], name) {
        lemma_match_exempts(patterns, name, i, from + 1);
    }
}

} // verus!
