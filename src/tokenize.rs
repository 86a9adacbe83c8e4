//! Word tokenizers built on regular expressions: one keeps words, numbers and
//! punctuation marks as they are written, the other keeps only alphabetic
//! words, lower-cased.

use vstd::prelude::*;

use crate::corpus::symbols_of;
use crate::strings::{lower_of, lowercase};

verus! {

/// Words (runs of ASCII letters and apostrophes), numbers (runs of digits)
/// and single punctuation marks.
pub const TOKEN_PATTERN: &'static str = r#"[[:alpha:]']+|[0-9]+|[?,.!:"=_\-%#@\&\]\)]"#;

/// Runs of ASCII letters and apostrophes.
pub const ALPHA_PATTERN: &'static str = r#"[[:alpha:]']+"#;

/// The texts of the successive non-overlapping matches of the regular
/// expression `pattern` in `text`, left to right, as the regex crate finds
/// them; `None` when the regex crate does not compile `pattern`.
pub uninterp spec fn regex_matches(pattern: Seq<char>, text: Seq<char>) -> Option<Seq<Seq<char>>>;

/// Relies on `regex::Regex::new`, which compiles `pattern` or reports it
/// invalid, and on `regex::Regex::find_iter`, which yields the successive
/// non-overlapping matches in `text`; the text of each match is kept.
#[verifier::external_body]
fn find_matches(pattern: &str, text: &str) -> (r: Option<Vec<String>>)
    ensures
        r is Some <==> regex_matches(pattern@, text@) is Some,
        r matches Some(v) ==> symbols_of(v@) == regex_matches(pattern@, text@)->0,
{
    match regex::Regex::new(pattern) {
        Ok(re) => Some(re.find_iter(text).map(|m| m.as_str().to_string()).collect()),
        Err(_) => None,
    }
}

/// The matches of `pattern` in `text`; none when the pattern is invalid.
pub open spec fn matches_or_none(pattern: Seq<char>, text: Seq<char>) -> Seq<Seq<char>> {
    match regex_matches(pattern, text) {
        Some(ts) => ts,
        None => seq![],
    }
}

/// The tokens of `line`: words with their apostrophes, numbers and
/// punctuation marks, in order and with their case kept.
pub open spec fn line_tokens(line: Seq<char>) -> Seq<Seq<char>> {
    matches_or_none(TOKEN_PATTERN@, line)
}

/// The alphabetic words of `line`, lower-cased.
pub open spec fn alpha_tokens(line: Seq<char>) -> Seq<Seq<char>> {
    matches_or_none(ALPHA_PATTERN@, line).map_values(|t: Seq<char>| lower_of(t))
}

/// The tokens of several lines, one line after the other.
pub open spec fn lines_tokens(lines: Seq<Seq<char>>) -> Seq<Seq<char>>
    decreases lines.len(),
{
    if lines.len() == 0 {
        seq![]
    } else {
        lines_tokens(lines.drop_last()) + line_tokens(lines.last())
    }
}

/// Breaks a line into word, number and punctuation tokens; an apostrophe
/// inside a word stays with it, and case is kept.
pub fn tokenize_line(line: &str) -> (r: Vec<String>)
    ensures
        symbols_of(r@) == line_tokens(line@),
{
    match find_matches(TOKEN_PATTERN, line) {
        Some(tokens) => tokens,
        None => {
            let r: Vec<String> = Vec::new();
            assert(symbols_of(r@) =~= seq![]);
            r
        },
    }
}

/// Breaks a line into its alphabetic words (apostrophes included),
/// lower-cased.
pub fn tokenize_line_alphas_lowercase(line: &str) -> (r: Vec<String>)
    ensures
        symbols_of(r@) == alpha_tokens(line@),
{
    let mut r: Vec<String> = Vec::new();
    match find_matches(ALPHA_PATTERN, line) {
        Some(tokens) => {
            let ghost ts = symbols_of(tokens@);
            let mut i: usize = 0;
            while i < tokens.len()
                invariant
                    i <= tokens.len(),
                    ts == symbols_of(tokens@),
                    symbols_of(r@) == ts.take(i as int).map_values(|t: Seq<char>| lower_of(t)),
                decreases tokens.len() - i,
            {
                let ghost old_r = symbols_of(r@);
                r.push(lowercase(tokens[i].as_str()));
                assert(symbols_of(r@) =~= old_r.push(lower_of(ts[i as int])));
                assert(ts.take(i + 1).map_values(|t: Seq<char>| lower_of(t)) =~= ts.take(
                    i as int,
                ).map_values(|t: Seq<char>| lower_of(t)).push(lower_of(ts[i as int])));
                i += 1;
            }
            assert(ts.take(i as int) =~= ts);
        },
        None => {
            assert(symbols_of(r@) =~= seq![]);
        },
    }
    r
}

/// The tokens of each line, in order, as `tokenize_line` gives them.
pub fn tokenize_reader(lines: Vec<String>) -> (r: Vec<String>)
    ensures
        symbols_of(r@) == lines_tokens(symbols_of(lines@)),
{
    let ghost ls = symbols_of(lines@);
    let mut r: Vec<String> = Vec::new();
    let mut i: usize = 0;
    assert(symbols_of(r@) =~= lines_tokens(ls.take(0)));
    while i < lines.len()
        invariant
            i <= lines.len(),
            ls == symbols_of(lines@),
            symbols_of(r@) == lines_tokens(ls.take(i as int)),
        decreases lines.len() - i,
    {
        let mut tokens = tokenize_line(lines[i].as_str());
        let ghost old_r = symbols_of(r@);
        let ghost tv = symbols_of(tokens@);
        r.append(&mut tokens);
        assert(symbols_of(r@) =~= old_r + tv);
        assert(ls.take(i + 1).drop_last() =~= ls.take(i as int));
        i += 1;
    }
    assert(ls.take(i as int) =~= ls);
    r
}

} // verus!
