//! Whole-word patterns, compiled and matched by the `regex` crate.

use regex::{Regex, RegexBuilder};
use vstd::prelude::*;
use vstd::string::StringExecFns;

verus! {

#[verifier::external_type_specification]
#[verifier::external_body]
pub struct ExRegex(regex::Regex);

#[verifier::external_type_specification]
#[verifier::external_body]
pub struct ExRegexError(regex::Error);

/// Whether `regex::Regex::new` accepts `pattern`: its syntax is valid and
/// the compiled program stays within the default size limit.
pub uninterp spec fn regex_compiles(pattern: Seq<char>) -> bool;

/// Whether the regex compiled from `pattern` finds a match anywhere in
/// `text`, as `regex::Regex::is_match` reports it (the size limits that the
/// regex was compiled under do not change what it matches).
pub uninterp spec fn regex_finds(pattern: Seq<char>, text: Seq<char>) -> bool;

/// A compiled regex together with the pattern it was compiled from.
pub struct CompiledRegex {
    source: String,
    regex: Regex,
}

impl CompiledRegex {
    /// The pattern the regex was compiled from.
    pub closed spec fn source(self) -> Seq<char> {
        self.source@
    }
}

/// Relies on `regex::Regex::new`: compiles `pattern`, or returns the reason
/// it cannot be compiled.
#[verifier::external_body]
fn compile(pattern: &str) -> (r: Result<CompiledRegex, regex::Error>)
    ensures
        r is Ok <==> regex_compiles(pattern@),
        r matches Ok(c) ==> c.source() == pattern@,
{
    match Regex::new(pattern) {
        Ok(regex) => Ok(CompiledRegex { source: pattern.to_string(), regex }),
        Err(err) => Err(err),
    }
}

/// Relies on `regex::RegexBuilder` with the size and nesting limits lifted:
/// compiles `whole`, which is `expr` wrapped by `anchored`, where `expr`
/// itself compiles under the default limits. The wrapper then parses too:
/// `(?x)` and the newline close any x-mode comment that `expr` leaves open
/// at its end, the flag is scoped to the added group, and the only extra
/// cost is one group level and two anchors, which the lifted limits admit.
/// Since `expr` passed the default nesting limit, the nesting of `whole`
/// stays within one level of it.
#[verifier::external_body]
fn compile_whole(whole: &str, expr: &str) -> (r: Result<CompiledRegex, regex::Error>)
    requires
        whole@ == anchored(expr@),
        regex_compiles(expr@),
    ensures
        r is Ok,
        r matches Ok(c) ==> c.source() == whole@,
{
    let _ = expr;
    match RegexBuilder::new(whole).size_limit(usize::MAX).nest_limit(u32::MAX).build() {
        Ok(regex) => Ok(CompiledRegex { source: whole.to_string(), regex }),
        Err(err) => Err(err),
    }
}

/// Relies on `regex::Regex::is_match`: whether the regex finds a match
/// anywhere in `text`.
#[verifier::external_body]
fn finds(c: &CompiledRegex, text: &str) -> (r: bool)
    ensures
        r == regex_finds(c.source(), text@),
{
    c.regex.is_match(text)
}

/// `pattern` wrapped so that a match must span the whole text. The
/// `(?x)` and newline before the closing parenthesis end an x-mode comment
/// that `pattern` may leave open, and otherwise match nothing.
pub open spec fn anchored(pattern: Seq<char>) -> Seq<char> {
    "^(?:"@ + pattern + "(?x)\n)$"@
}

/// `word` matches `pattern` as a whole, not merely somewhere inside.
pub open spec fn whole_match(pattern: Seq<char>, word: Seq<char>) -> bool {
    regex_finds(anchored(pattern), word)
}

/// Whether `expr` is a pattern that `regex::Regex::new` accepts.
pub fn is_valid_regex(expr: &str) -> (r: bool)
    ensures
        r == regex_compiles(expr@),
{
    compile(expr).is_ok()
}

/// A pattern that a whole word must match.
pub struct WordPattern {
    pattern: String,
    whole: CompiledRegex,
}

impl View for WordPattern {
    type V = Seq<char>;

    closed spec fn view(&self) -> Seq<char> {
        self.pattern@
    }
}

impl WordPattern {
    #[verifier::type_invariant]
    spec fn inv(self) -> bool {
        self.whole.source() == anchored(self.pattern@)
    }

    /// Compiles `expr` as a whole-word pattern. Fails with the regex error
    /// exactly when `expr` is not a valid pattern.
    pub fn new(expr: &str) -> (r: Result<WordPattern, regex::Error>)
        ensures
            r is Ok <==> regex_compiles(expr@),
            r matches Ok(p) ==> p@ == expr@,
    {
        match compile(expr) {
            Ok(_) => {},
            Err(err) => {
                return Err(err);
            },
        }
        let mut text = String::from_str("^(?:");
        text.append(expr);
        text.append("(?x)\n)$");
        match compile_whole(text.as_str(), expr) {
            Ok(whole) => Ok(WordPattern { pattern: String::from_str(expr), whole }),
            // Does not happen: `expr` compiled above.
            Err(err) => Err(err),
        }
    }

    /// Whether `word` matches the pattern as a whole.
    pub fn matches(&self, word: &str) -> (r: bool)
        ensures
            r == whole_match(self@, word@),
    {
        proof {
            use_type_invariant(self);
        }
        finds(&self.whole, word)
    }
}

} // verus!
