//! Compiling a declared match strategy, and applying it to one file's bytes.
use vstd::prelude::*;
use vstd::slice::slice_to_vec;
use vstd::utf8::{decode_utf8, encode_utf8, encode_utf8_valid_utf8, valid_utf8};
use regex::Regex;
use crate::editor::{
    contains, lemma_first_from, lemma_literal_replace_idempotent, lemma_replace_all_keeps_utf8,
    find_from, first_from, inserted_from, insert_at_boundaries, replace_all, replace_all_bytes,
};

verus! {

#[verifier::external_type_specification]
#[verifier::external_body]
pub struct ExRegex(regex::Regex);

/// The regex crate accepts `pattern` as a regular expression.
pub uninterp spec fn regex_valid(pattern: Seq<char>) -> bool;

/// The message of the error with which the regex crate refuses `pattern`.
pub uninterp spec fn regex_error(pattern: Seq<char>) -> Seq<char>;

/// The regular expression `pattern` matches somewhere in `text`.
pub uninterp spec fn regex_finds(pattern: Seq<char>, text: Seq<char>) -> bool;

/// `text` with every non-overlapping match of `pattern` replaced by `rep`,
/// capture-group references in `rep` expanded.
pub uninterp spec fn regex_replaced(pattern: Seq<char>, text: Seq<char>, rep: Seq<char>) -> Seq<
    char,
>;

/// How a patch's pattern is to be read.
#[derive(Clone, Copy, Debug, PartialEq, Eq, Structural)]
pub enum MatchType {
    Literal,
    Regex,
}

/// A compiled regular expression together with the source it was compiled
/// from; only `compile_regex` builds one.
pub struct RegexMatcher {
    re: Regex,
    source: String,
}

impl RegexMatcher {
    /// The source of the regular expression.
    pub closed spec fn source_view(&self) -> Seq<char> {
        self.source@
    }
}

/// A matcher ready to be applied to file contents.
pub enum MatchPattern {
    Literal(String),
    Regex(RegexMatcher),
}

/// The strategy of a matcher, with its pattern text.
pub enum MatcherModel {
    Literal(Seq<char>),
    Regex(Seq<char>),
}

impl MatchPattern {
    pub open spec fn model(&self) -> MatcherModel {
        match self {
            MatchPattern::Literal(s) => MatcherModel::Literal(s@),
            MatchPattern::Regex(m) => MatcherModel::Regex(m.source_view()),
        }
    }
}

/// Whether one file matched, and its contents afterwards.
pub struct MatchOutcome {
    pub matched: bool,
    pub buffer: Vec<u8>,
}

/// The result of applying matcher `m` with replacement `rep` to `data`:
/// `None` where `data` is not UTF-8 text, else whether it matched and the
/// new contents. A literal pattern replaces every occurrence; an empty one
/// matches at every character boundary, the end included.
pub open spec fn outcome(data: Seq<u8>, m: MatcherModel, rep: Seq<char>) -> Option<(bool, Seq<u8>)> {
    if !valid_utf8(data) {
        None
    } else {
        match m {
            MatcherModel::Literal(p) => if encode_utf8(p).len() == 0 {
                Some((true, inserted_from(data, encode_utf8(rep), 0)))
            } else {
                Some(
                    (
                        first_from(data, encode_utf8(p), 0) is Some,
                        replace_all(data, encode_utf8(p), encode_utf8(rep)),
                    ),
                )
            },
            MatcherModel::Regex(src) => if regex_finds(src, decode_utf8(data)) {
                Some((true, encode_utf8(regex_replaced(src, decode_utf8(data), rep))))
            } else {
                Some((false, data))
            },
        }
    }
}

/// Relies on regex::Regex::new: it accepts or refuses a pattern on its text
/// alone; on refusal its error's message is kept.
#[verifier::external_body]
fn compile_regex_raw(pattern: &str) -> (r: Result<Regex, String>)
    ensures
        r is Ok <==> regex_valid(pattern@),
        r matches Err(m) ==> m@ == regex_error(pattern@),
{
    match Regex::new(pattern) {
        Ok(re) => Ok(re),
        Err(e) => Err(format!("{}", e)),
    }
}

/// Relies on regex::Regex::is_match: whether the expression matches `text`.
#[verifier::external_body]
fn regex_is_match(m: &RegexMatcher, text: &str) -> (r: bool)
    ensures
        r == regex_finds(m.source_view(), text@),
{
    m.re.is_match(text)
}

/// Relies on regex::Regex::replace_all: replaces every non-overlapping match,
/// expanding `$n` references.
#[verifier::external_body]
fn regex_replace_all(m: &RegexMatcher, text: &str, rep: &str) -> (r: String)
    ensures
        r@ == regex_replaced(m.source_view(), text@, rep@),
{
    m.re.replace_all(text, rep).into_owned()
}

/// Relies on std::str::from_utf8: succeeds exactly on valid UTF-8, which it
/// decodes.
#[verifier::external_body]
fn decode_text(b: &[u8]) -> (r: Option<&str>)
    ensures
        r is Some <==> valid_utf8(b@),
        r matches Some(t) ==> t@ == decode_utf8(b@),
{
    std::str::from_utf8(b).ok()
}

/// Compiles a regular expression; on refusal returns the diagnostic.
pub fn compile_regex(pattern: &str) -> (r: Result<RegexMatcher, String>)
    ensures
        r is Ok <==> regex_valid(pattern@),
        r matches Ok(m) ==> m.source_view() == pattern@,
        r matches Err(m) ==> m@ == regex_error(pattern@),
{
    match compile_regex_raw(pattern) {
        Ok(re) => Ok(RegexMatcher { re, source: pattern.to_owned() }),
        Err(msg) => Err(msg),
    }
}

/// Builds the matcher for a declared strategy. A literal pattern is always
/// accepted; a regular expression must compile.
pub fn get_match_pattern(match_type: MatchType, pattern: String) -> (r: Result<MatchPattern, String>)
    ensures
        r is Ok <==> (match_type == MatchType::Literal || regex_valid(pattern@)),
        r matches Ok(m) ==> m.model() == match match_type {
            MatchType::Literal => MatcherModel::Literal(pattern@),
            MatchType::Regex => MatcherModel::Regex(pattern@),
        },
        r matches Err(m) ==> m@ == regex_error(pattern@),
{
    match match_type {
        MatchType::Literal => Ok(MatchPattern::Literal(pattern)),
        MatchType::Regex => match compile_regex(pattern.as_str()) {
            Ok(m) => Ok(MatchPattern::Regex(m)),
            Err(msg) => Err(msg),
        },
    }
}

/// Applies a matcher and its replacement to one file's contents. Returns
/// `None` where the contents are not UTF-8 text.
pub fn patch_file(data: &[u8], match_pattern: &MatchPattern, replace: &str) -> (r: Option<MatchOutcome>)
    ensures
        match r {
            Some(o) => outcome(data@, match_pattern.model(), replace@) == Some((o.matched, o.buffer@)),
            None => outcome(data@, match_pattern.model(), replace@) is None,
        },
{
    let text = match decode_text(data) {
        Some(t) => t,
        None => return None,
    };
    match match_pattern {
        MatchPattern::Literal(p) => {
            let pb = p.as_str().as_bytes();
            let rb = replace.as_bytes();
            if pb.len() == 0 {
                return Some(MatchOutcome { matched: true, buffer: insert_at_boundaries(data, rb) });
            }
            let matched = find_from(data, pb, 0).is_some();
            let buffer = replace_all_bytes(data, pb, rb);
            Some(MatchOutcome { matched, buffer })
        },
        MatchPattern::Regex(m) => {
            if regex_is_match(m, text) {
                let s = regex_replace_all(m, text, replace);
                let buffer = slice_to_vec(s.as_str().as_bytes());
                Some(MatchOutcome { matched: true, buffer })
            } else {
                Some(MatchOutcome { matched: false, buffer: slice_to_vec(data) })
            }
        },
    }
}

/// A literal patch applied to its own output finds nothing and changes
/// nothing, where the replacement does not contain the pattern and the first
/// output holds no occurrence of it.
pub proof fn lemma_literal_patch_idempotent(data: Seq<u8>, p: Seq<char>, rep: Seq<char>)
    requires
        valid_utf8(data),
        encode_utf8(p).len() > 0,
        !contains(encode_utf8(rep), encode_utf8(p)),
        !contains(replace_all(data, encode_utf8(p), encode_utf8(rep)), encode_utf8(p)),
    ensures
        outcome(data, MatcherModel::Literal(p), rep) matches Some((_, once)) && outcome(
            once,
            MatcherModel::Literal(p),
            rep,
        ) == Some((false, once)),
{
    let ep = encode_utf8(p);
    let er = encode_utf8(rep);
    let once = replace_all(data, ep, er);
    encode_utf8_valid_utf8(p);
    encode_utf8_valid_utf8(rep);
    lemma_replace_all_keeps_utf8(data, ep, er);
    lemma_literal_replace_idempotent(data, ep, er);
    lemma_first_from(once, ep, 0);
}

} // verus!
