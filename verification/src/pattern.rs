use vstd::prelude::*;

verus! {

/// What `regex::Regex::new` reports for a pattern: `None` when it compiles, else the
/// text of its error.
pub uninterp spec fn regex_new_error(pattern: Seq<char>) -> Option<Seq<char>>;

/// What `regex::Regex::is_match` answers for a compiled pattern and a subject.
pub uninterp spec fn regex_matches(pattern: Seq<char>, subject: Seq<char>) -> bool;

/// The texts of the capture groups that `regex::Regex::captures` finds, by group number.
pub uninterp spec fn regex_group_texts(pattern: Seq<char>, subject: Seq<char>) -> Seq<
    Option<Seq<char>>,
>;

/// The names that `regex::Regex::capture_names` gives the capture groups, by group number.
pub uninterp spec fn regex_group_names(pattern: Seq<char>) -> Seq<Option<Seq<char>>>;

/// The mathematical form of a list of optional strings.
pub open spec fn opt_strings(v: Seq<Option<String>>) -> Seq<Option<Seq<char>>> {
    v.map_values(
        |o: Option<String>|
            match o {
                Some(s) => Some(s@),
                None => None,
            },
    )
}

/// Whether a pattern compiles.
pub open spec fn regex_compiles(pattern: Seq<char>) -> bool {
    regex_new_error(pattern) is None
}

/// Calls `regex::Regex::new`: `None` when the pattern compiles, else the error's text.
#[verifier::external_body]
pub(crate) fn regex_check(pattern: &str) -> (r: Option<String>)
    ensures
        r is None <==> regex_new_error(pattern@) is None,
        r matches Some(m) ==> regex_new_error(pattern@) == Some(m@),
{
    match regex::Regex::new(pattern) {
        Ok(_) => None,
        Err(e) => Some(e.to_string()),
    }
}

/// Calls `regex::Regex::is_match` after compiling the pattern; `None` when the pattern
/// does not compile.
#[verifier::external_body]
pub(crate) fn regex_find(pattern: &str, subject: &str) -> (r: Option<bool>)
    ensures
        r is None <==> !regex_compiles(pattern@),
        r matches Some(b) ==> b == regex_matches(pattern@, subject@),
{
    match regex::Regex::new(pattern) {
        Ok(re) => Some(re.is_match(subject)),
        Err(_) => None,
    }
}

/// Calls `regex::Regex::captures` on a compiled pattern. As its documentation says, it
/// finds groups exactly when the pattern matches, and group 0, the whole match, is then
/// always present.
#[verifier::external_body]
pub(crate) fn regex_captures(pattern: &str, subject: &str) -> (r: Option<Vec<Option<String>>>)
    requires
        regex_compiles(pattern@),
    ensures
        r is Some <==> regex_matches(pattern@, subject@),
        r matches Some(g) ==> opt_strings(g@) == regex_group_texts(pattern@, subject@)
            && g@.len() > 0 && g@[0] is Some,
{
    match regex::Regex::new(pattern) {
        Ok(re) => re.captures(subject).map(
            |c| c.iter().map(|m| m.map(|m| m.as_str().to_string())).collect(),
        ),
        Err(_) => None,
    }
}

/// Calls `regex::Regex::capture_names` on a compiled pattern.
#[verifier::external_body]
pub(crate) fn regex_names(pattern: &str) -> (r: Vec<Option<String>>)
    requires
        regex_compiles(pattern@),
    ensures
        opt_strings(r@) == regex_group_names(pattern@),
{
    match regex::Regex::new(pattern) {
        Ok(re) => re.capture_names().map(|n| n.map(|s| s.to_string())).collect(),
        Err(_) => Vec::new(),
    }
}

} // verus!
