//! The code patterns of the industry classification, matched with the
//! `regex` crate.

use vstd::prelude::*;
use crate::text::{is_ascii_alnum, is_ascii_digit};

verus! {

#[verifier::external_type_specification]
#[verifier::external_body]
pub struct ExRegex(regex::Regex);

#[verifier::external_type_specification]
#[verifier::external_body]
pub struct ExRegexError(regex::Error);

/// Whether `Regex::new` accepts `pattern`.
pub uninterp spec fn regex_compiles(pattern: Seq<char>) -> bool;

/// Whether `Regex::is_match` finds a match of `pattern` in `haystack`.
pub uninterp spec fn regex_finds(pattern: Seq<char>, haystack: Seq<char>) -> bool;

/// The text of the first capture group of the first match of `pattern` in
/// `haystack` (`Regex::captures`), if there is a match.
pub uninterp spec fn regex_first_group(pattern: Seq<char>, haystack: Seq<char>) -> Option<Seq<char>>;

/// Every character is ASCII.
pub open spec fn all_ascii(s: Seq<char>) -> bool {
    forall|i: int| 0 <= i < s.len() ==> (#[trigger] s[i] as u32) < 128
}

/// The end of the run of ASCII digits that starts at `i`.
pub open spec fn digit_run_end(s: Seq<char>, i: int) -> int
    decreases s.len() - i,
{
    if 0 <= i < s.len() && is_ascii_digit(s[i]) {
        digit_run_end(s, i + 1)
    } else {
        i
    }
}

/// The first index from `i` on that holds an ASCII digit, or the length.
pub open spec fn first_digit(s: Seq<char>, i: int) -> int
    decreases s.len() - i,
{
    if i < 0 || i >= s.len() {
        s.len() as int
    } else if is_ascii_digit(s[i]) {
        i
    } else {
        first_digit(s, i + 1)
    }
}

/// The leftmost decimal number in `s`: a run of digits, with a point and
/// further digits where they follow.
pub open spec fn leftmost_number(s: Seq<char>) -> Option<Seq<char>> {
    let i = first_digit(s, 0);
    if i >= s.len() {
        None
    } else {
        let j = digit_run_end(s, i);
        if j + 1 < s.len() && s[j] == '.' && is_ascii_digit(s[j + 1]) {
            Some(s.subrange(i, digit_run_end(s, j + 1)))
        } else {
            Some(s.subrange(i, j))
        }
    }
}

/// Every character is an ASCII letter or digit.
pub open spec fn all_ascii_alnum(s: Seq<char>) -> bool {
    forall|i: int| 0 <= i < s.len() ==> is_ascii_alnum(#[trigger] s[i])
}

/// A section letter `A`..`T` followed by exactly `digits` ASCII digits.
pub open spec fn section_code(s: Seq<char>, digits: nat) -> bool {
    &&& s.len() == digits + 1
    &&& 'A' <= s[0] && s[0] <= 'T'
    &&& forall|i: int| 1 <= i < s.len() ==> is_ascii_digit(#[trigger] s[i])
}

/// A compiled pattern together with the text it was compiled from.
pub struct Pattern {
    regex: regex::Regex,
    text: Ghost<Seq<char>>,
}

impl Pattern {
    pub closed spec fn source(self) -> Seq<char> {
        self.text@
    }
}

/// `Regex::new`: compiles `pattern`. Its syntax documentation makes the
/// anchored section-code patterns of this crate valid patterns.
#[verifier::external_body]
pub(crate) fn compile(pattern: &str) -> (r: Result<Pattern, regex::Error>)
    ensures
        r is Ok <==> regex_compiles(pattern@),
        r matches Ok(p) ==> p.source() == pattern@,
        (pattern@ == "^[A-T]$"@ || pattern@ == "^[A-T]\\d{2}$"@ || pattern@ == "^[A-T]\\d{3}$"@
            || pattern@ == "^[A-T]\\d{4}$"@ || pattern@ == "^[A-T](?:\\d{2}|\\d{3}|\\d{4})?$"@
            || pattern@ == "(\\d+(?:\\.\\d+)?)"@) ==> r is Ok,
{
    match regex::Regex::new(pattern) {
        Ok(regex) => Ok(Pattern { regex, text: Ghost(pattern@) }),
        Err(e) => Err(e),
    }
}

/// `Regex::is_match`: whether the pattern matches somewhere in
/// `haystack`. By the documented syntax (`^` and `$` anchor at the ends of
/// the haystack, `[A-T]` is that range, `\d` is a decimal digit, `{n}`
/// repeats exactly `n` times, `?` makes a group optional), on a haystack
/// of ASCII letters and digits the anchored section-code patterns accept
/// exactly a section letter followed by the stated number of digits.
#[verifier::external_body]
pub(crate) fn is_match(p: &Pattern, haystack: &str) -> (r: bool)
    ensures
        r == regex_finds(p.source(), haystack@),
        all_ascii_alnum(haystack@) && p.source() == "^[A-T]$"@ ==> (r == section_code(
            haystack@,
            0,
        )),
        all_ascii_alnum(haystack@) && p.source() == "^[A-T]\\d{2}$"@ ==> (r == section_code(
            haystack@,
            2,
        )),
        all_ascii_alnum(haystack@) && p.source() == "^[A-T]\\d{3}$"@ ==> (r == section_code(
            haystack@,
            3,
        )),
        all_ascii_alnum(haystack@) && p.source() == "^[A-T]\\d{4}$"@ ==> (r == section_code(
            haystack@,
            4,
        )),
        all_ascii_alnum(haystack@) && p.source() == "^[A-T](?:\\d{2}|\\d{3}|\\d{4})?$"@ ==> (r
            == (section_code(haystack@, 0) || section_code(haystack@, 2) || section_code(
            haystack@,
            3,
        ) || section_code(haystack@, 4))),
{
    p.regex.is_match(haystack)
}

/// `Regex::captures`, taking the text of group 1 of the first match. By
/// the documented semantics (the leftmost match, preferring longer
/// repetitions and taking an optional group where it can, `\d` a decimal
/// digit), on an ASCII haystack the decimal-number pattern captures the
/// leftmost number.
#[verifier::external_body]
pub(crate) fn first_group(p: &Pattern, haystack: &str) -> (r: Option<String>)
    ensures
        match r {
            Some(g) => regex_first_group(p.source(), haystack@) == Some(g@),
            None => regex_first_group(p.source(), haystack@) is None,
        },
        all_ascii(haystack@) && p.source() == "(\\d+(?:\\.\\d+)?)"@ ==> match r {
            Some(g) => leftmost_number(haystack@) == Some(g@),
            None => leftmost_number(haystack@) is None,
        },
{
    p.regex.captures(haystack).and_then(|c| c.get(1)).map(|m| m.as_str().to_owned())
}

} // verus!
