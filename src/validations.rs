use vstd::prelude::*;

use crate::error::DebianVersionError;
use crate::text::chars_of;

verus! {

/// An ASCII digit.
pub open spec fn is_digit(c: char) -> bool {
    '0' <= c <= '9'
}

/// An ASCII letter.
pub open spec fn is_letter(c: char) -> bool {
    ('a' <= c <= 'z') || ('A' <= c <= 'Z')
}

/// A character allowed in a revision, and in an upstream version that has
/// no revision after it: ASCII alphanumerics and `+ . ~ :`.
pub open spec fn is_valid_char(c: char) -> bool {
    is_digit(c) || is_letter(c) || c == '+' || c == '.' || c == '~' || c == ':'
}

/// A character allowed in an upstream version; `-` only when a revision follows.
pub open spec fn is_upstream_char(c: char, with_revision: bool) -> bool {
    is_valid_char(c) || (with_revision && c == '-')
}

/// Every character of `s` is allowed in a revision.
pub open spec fn all_valid_chars(s: Seq<char>) -> bool {
    forall|i: int| 0 <= i < s.len() ==> is_valid_char(#[trigger] s[i])
}

/// Every character of `s` is allowed in an upstream version.
pub open spec fn all_upstream_chars(s: Seq<char>, with_revision: bool) -> bool {
    forall|i: int| 0 <= i < s.len() ==> is_upstream_char(#[trigger] s[i], with_revision)
}

/// The verdict on an upstream version candidate, rules taken in order:
/// non-empty, leading digit, alphabet.
pub open spec fn upstream_check(s: Seq<char>, with_revision: bool) -> Result<bool, DebianVersionError> {
    if s.len() == 0 {
        Err(DebianVersionError::EmptyUpstream)
    } else if !is_digit(s[0]) {
        Err(DebianVersionError::UpstreamStartWithDigit)
    } else if !all_upstream_chars(s, with_revision) {
        Err(DebianVersionError::UpstreamInvalidCharacters)
    } else {
        Ok(true)
    }
}

/// The verdict on a revision candidate: non-empty, then alphabet.
pub open spec fn revision_check(s: Seq<char>) -> Result<bool, DebianVersionError> {
    if s.len() == 0 {
        Err(DebianVersionError::EmptyRevision)
    } else if !all_valid_chars(s) {
        Err(DebianVersionError::RevisionInvalidCharacters)
    } else {
        Ok(true)
    }
}

/// Whether `c` is an ASCII digit.
pub fn is_digit_char(c: char) -> (r: bool)
    ensures
        r == is_digit(c),
{
    '0' <= c && c <= '9'
}

/// Whether `c` is allowed in a revision.
pub fn is_valid_character(c: char) -> (r: bool)
    ensures
        r == is_valid_char(c),
{
    is_digit_char(c) || ('a' <= c && c <= 'z') || ('A' <= c && c <= 'Z') || c == '+' || c == '.'
        || c == '~' || c == ':'
}

fn all_upstream_characters(v: &Vec<char>, from: usize, to: usize, with_revision: bool) -> (r: bool)
    requires
        from <= to <= v.len(),
    ensures
        r == all_upstream_chars(v@.subrange(from as int, to as int), with_revision),
{
    let ghost s = v@.subrange(from as int, to as int);
    let mut i: usize = from;
    while i < to
        invariant
            from <= i <= to <= v.len(),
            s == v@.subrange(from as int, to as int),
            forall|k: int| 0 <= k < i - from ==> is_upstream_char(#[trigger] s[k], with_revision),
        decreases to - i,
    {
        let c = v[i];
        if !(is_valid_character(c) || (with_revision && c == '-')) {
            assert(s[i - from] == c);
            return false;
        }
        i += 1;
    }
    true
}

fn all_valid_characters(v: &Vec<char>, from: usize, to: usize) -> (r: bool)
    requires
        from <= to <= v.len(),
    ensures
        r == all_valid_chars(v@.subrange(from as int, to as int)),
{
    let ghost s = v@.subrange(from as int, to as int);
    let mut i: usize = from;
    while i < to
        invariant
            from <= i <= to <= v.len(),
            s == v@.subrange(from as int, to as int),
            forall|k: int| 0 <= k < i - from ==> is_valid_char(#[trigger] s[k]),
        decreases to - i,
    {
        if !is_valid_character(v[i]) {
            assert(s[i - from] == v@[i as int]);
            return false;
        }
        i += 1;
    }
    true
}

/// Whether every character of `s` is allowed in a revision.
pub fn only_valid_chars(s: &str) -> (r: bool)
    ensures
        r == all_valid_chars(s@),
{
    let v = chars_of(s);
    assert(v@.subrange(0, v@.len() as int) =~= v@);
    all_valid_characters(&v, 0, v.len())
}

/// Checks the upstream version candidate `v[from..to]`.
pub fn check_upstream(v: &Vec<char>, from: usize, to: usize, with_revision: bool) -> (r: Result<
    bool,
    DebianVersionError,
>)
    requires
        from <= to <= v.len(),
    ensures
        r == upstream_check(v@.subrange(from as int, to as int), with_revision),
{
    if from == to {
        Err(DebianVersionError::EmptyUpstream)
    } else if !is_digit_char(v[from]) {
        Err(DebianVersionError::UpstreamStartWithDigit)
    } else if !all_upstream_characters(v, from, to, with_revision) {
        Err(DebianVersionError::UpstreamInvalidCharacters)
    } else {
        Ok(true)
    }
}

/// Checks the revision candidate `v[from..to]`.
pub fn check_revision(v: &Vec<char>, from: usize, to: usize) -> (r: Result<bool, DebianVersionError>)
    requires
        from <= to <= v.len(),
    ensures
        r == revision_check(v@.subrange(from as int, to as int)),
{
    if from == to {
        Err(DebianVersionError::EmptyRevision)
    } else if !all_valid_characters(v, from, to) {
        Err(DebianVersionError::RevisionInvalidCharacters)
    } else {
        Ok(true)
    }
}

/// Checks a whole string as an upstream version.
fn check_upstream_str(s: &str, with_revision: bool) -> (r: Result<bool, DebianVersionError>)
    ensures
        r == upstream_check(s@, with_revision),
{
    let v = chars_of(s);
    assert(v@.subrange(0, v@.len() as int) =~= v@);
    check_upstream(&v, 0, v.len(), with_revision)
}

/// Checks a whole string as a revision.
fn check_revision_str(s: &str) -> (r: Result<bool, DebianVersionError>)
    ensures
        r == revision_check(s@),
{
    let v = chars_of(s);
    assert(v@.subrange(0, v@.len() as int) =~= v@);
    check_revision(&v, 0, v.len())
}

/// Validation of a string as the upstream part of a version.
pub trait ValidateUpstreamVersion: View<V = Seq<char>> {
    /// Validates `self` as an upstream version that a revision follows (`-` allowed).
    fn validate_with_revision(&self) -> (r: Result<bool, DebianVersionError>)
        ensures
            r == upstream_check(self@, true),
    ;

    /// Validates `self` as an upstream version with no revision after it (`-` refused).
    fn validate_without_revision(&self) -> (r: Result<bool, DebianVersionError>)
        ensures
            r == upstream_check(self@, false),
    ;
}

impl ValidateUpstreamVersion for str {
    fn validate_with_revision(&self) -> (r: Result<bool, DebianVersionError>) {
        check_upstream_str(self, true)
    }

    fn validate_without_revision(&self) -> (r: Result<bool, DebianVersionError>) {
        check_upstream_str(self, false)
    }
}

impl ValidateUpstreamVersion for String {
    fn validate_with_revision(&self) -> (r: Result<bool, DebianVersionError>) {
        check_upstream_str(self.as_str(), true)
    }

    fn validate_without_revision(&self) -> (r: Result<bool, DebianVersionError>) {
        check_upstream_str(self.as_str(), false)
    }
}

/// Validation of a string as the revision part of a version.
pub trait ValidateDebianRevision: View<V = Seq<char>> {
    /// Validates `self` as a revision: non-empty, alphanumerics and `+ . ~ :` only.
    fn validate(&self) -> (r: Result<bool, DebianVersionError>)
        ensures
            r == revision_check(self@),
    ;
}

impl ValidateDebianRevision for str {
    fn validate(&self) -> (r: Result<bool, DebianVersionError>) {
        check_revision_str(self)
    }
}

impl ValidateDebianRevision for String {
    fn validate(&self) -> (r: Result<bool, DebianVersionError>) {
        check_revision_str(self.as_str())
    }
}

} // verus!
