//! Input validation: project names and upstream URLs.

use vstd::prelude::*;

verus! {

/// ASCII letter.
pub open spec fn is_ascii_letter(c: char) -> bool {
    (65 <= c as u32 <= 90) || (97 <= c as u32 <= 122)
}

/// ASCII letter, digit, `-` or `_`.
pub open spec fn is_name_char(c: char) -> bool {
    is_ascii_letter(c) || (48 <= c as u32 <= 57) || c as u32 == 45 || c as u32 == 95
}

/// A valid project name: non-empty, at most 64 characters, a letter
/// first, then letters, digits, `-` or `_`.
pub open spec fn spec_valid_project_name(s: Seq<char>) -> bool {
    &&& 1 <= s.len() <= 64
    &&& is_ascii_letter(s[0])
    &&& forall|i: int| 0 <= i < s.len() ==> is_name_char(#[trigger] s[i])
}

/// Why a project name was rejected.
#[derive(Debug, Clone, Copy, PartialEq, Eq)]
pub enum NameError {
    /// The name is empty.
    Empty,
    /// More than 64 characters.
    TooLong,
    /// The first character is not an ASCII letter.
    BadStart,
    /// A character is not a letter, digit, `-` or `_`.
    BadChar,
}

/// Validates a project name, accepting exactly `spec_valid_project_name`.
pub fn validate_project_name(input: &str) -> (r: Result<(), NameError>)
    ensures
        r is Ok <==> spec_valid_project_name(input@),
        r matches Err(e) ==> {
            &&& e == NameError::Empty <==> input@.len() == 0
            &&& e == NameError::TooLong <==> input@.len() > 64
            &&& e == NameError::BadStart <==> (1 <= input@.len() <= 64 && !is_ascii_letter(
                input@[0],
            ))
            &&& e == NameError::BadChar <==> (1 <= input@.len() <= 64 && is_ascii_letter(input@[0])
                && exists|i: int| 0 <= i < input@.len() && !is_name_char(#[trigger] input@[i]))
        },
{
    let n = input.unicode_len();
    if n == 0 {
        return Err(NameError::Empty);
    }
    if n > 64 {
        return Err(NameError::TooLong);
    }
    let first = input.get_char(0);
    let fu = first as u32;
    if !((65 <= fu && fu <= 90) || (97 <= fu && fu <= 122)) {
        return Err(NameError::BadStart);
    }
    let mut i: usize = 0;
    while i < n
        invariant
            n == input@.len(),
            1 <= n <= 64,
            is_ascii_letter(input@[0]),
            i <= n,
            forall|j: int| 0 <= j < i ==> is_name_char(#[trigger] input@[j]),
        decreases n - i,
    {
        let c = input.get_char(i);
        let u = c as u32;
        if !((65 <= u && u <= 90) || (97 <= u && u <= 122) || (48 <= u && u <= 57) || u == 45 || u
            == 95) {
            return Err(NameError::BadChar);
        }
        i = i + 1;
    }
    Ok(())
}

/// Whether the URL parser accepts the text; a pure function of the text.
pub uninterp spec fn url_ok_of(s: Seq<char>) -> bool;

/// The normal (serialized) form that the URL parser gives a valid URL; a
/// pure function of the input text.
pub uninterp spec fn url_normal_of(s: Seq<char>) -> Seq<char>;

/// Relies on url::Url::parse with its default options and its Display
/// serialization: acceptance and the normalized text both depend on the
/// input text alone.
#[verifier::external_body]
fn parse_url(s: &String) -> (r: Option<String>)
    ensures
        r is Some <==> url_ok_of(s@),
        r matches Some(u) ==> u@ == url_normal_of(s@),
{
    match url::Url::parse(s.as_str()) {
        Ok(u) => Some(u.to_string()),
        Err(_) => None,
    }
}

/// The URL in its normal form exactly when the parser accepts it.
pub fn normalize_url(s: &String) -> (r: Option<String>)
    ensures
        r is Some <==> url_ok_of(s@),
        r matches Some(u) ==> u@ == url_normal_of(s@),
{
    parse_url(s)
}

/// The URL was rejected by the parser.
#[derive(Debug, Clone, Copy, PartialEq, Eq)]
pub struct UrlError;

/// Interactive-prompt validator for URLs.
pub struct URLValidator;

impl URLValidator {
    /// Accepts the input exactly when the URL parser does.
    pub fn validate(&self, input: &String) -> (r: Result<(), UrlError>)
        ensures
            r is Ok <==> url_ok_of(input@),
    {
        match normalize_url(input) {
            Some(_) => Ok(()),
            None => Err(UrlError),
        }
    }
}

/// Interactive-prompt validator for project names.
pub struct ProjectNameValidator;

impl ProjectNameValidator {
    /// Accepts the input when `validate_project_name` does.
    pub fn validate(&self, input: &String) -> (r: Result<(), NameError>)
        ensures
            r is Ok <==> spec_valid_project_name(input@),
    {
        validate_project_name(input.as_str())
    }
}

} // verus!
