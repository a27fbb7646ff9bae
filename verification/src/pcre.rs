//! Regular expressions: what the highlighter takes from PCRE2.
//!
//! What the linked PCRE2 makes of a pattern is a function of the pattern and of
//! the options it is built with, and what a search finds is a function of the
//! regular expression, the subject and the start. Only whether a search gives
//! up is not: how far it may go depends on whether there is machine code for
//! the pattern, so that the same search may fail on one machine and succeed
//! on another. Of a search that fails nothing is stated.

use vstd::prelude::*;

use pcre2::bytes::{CaptureLocations, Regex, RegexBuilder};

verus! {

/// `pcre2::bytes::Regex`, a compiled pattern.
#[verifier::external_type_specification]
#[verifier::external_body]
pub struct ExRegex(pcre2::bytes::Regex);

/// `pcre2::bytes::CaptureLocations`, where the groups of a match are.
#[verifier::external_type_specification]
#[verifier::external_body]
pub struct ExCaptureLocations(pcre2::bytes::CaptureLocations);

/// `pcre2::Error`, why a pattern does not compile or a search failed.
#[verifier::external_type_specification]
#[verifier::external_body]
pub struct ExError(pcre2::Error);

/// What `RegexBuilder::build` makes of a pattern.
pub uninterp spec fn built_regex(
    pattern: Seq<char>,
    multi_line: bool,
    crlf: bool,
    jit: bool,
    jit_stack: int,
) -> Result<Regex, pcre2::Error>;

/// What `Regex::captures_len` counts.
pub uninterp spec fn regex_groups(regex: Regex) -> int;

/// What `Regex::capture_names` lists.
pub uninterp spec fn regex_group_names(regex: Regex) -> Seq<Option<Seq<char>>>;

/// Where `Regex::find_at` finds a match.
pub uninterp spec fn first_match(regex: Regex, subject: Seq<u8>, start: int) -> Option<(int, int)>;

/// Where the groups of the match are that `Regex::captures_read_at` finds.
pub uninterp spec fn first_groups(regex: Regex, subject: Seq<u8>, start: int) -> Option<
    Seq<Option<(int, int)>>,
>;

/// The groups that a `CaptureLocations` holds.
pub uninterp spec fn held_groups(locations: CaptureLocations) -> Seq<Option<(int, int)>>;

/// The words of a `pcre2::Error`.
pub uninterp spec fn error_words(error: pcre2::Error) -> Seq<char>;

pub open spec fn group_name_views(names: Seq<Option<String>>) -> Seq<Option<Seq<char>>> {
    names.map_values(
        |n: Option<String>|
            match n {
                Some(text) => Some(text@),
                None => None,
            },
    )
}

/// Two offsets.
pub open spec fn pair_ints(pair: Option<(usize, usize)>) -> Option<(int, int)> {
    match pair {
        Some((a, b)) => Some((a as int, b as int)),
        None => None,
    }
}

/// A regular expression that can be searched for: one that was built with room
/// for the stack of its machine code.
#[derive(Clone, Debug)]
pub struct Pattern {
    regex: Regex,
}

impl View for Pattern {
    type V = Regex;

    closed spec fn view(&self) -> Regex {
        self.regex
    }
}

/// `RegexBuilder::build`: the regular expression of a pattern, or why there is
/// none. Machine code that cannot be had is no error. The pattern `(?<`, a
/// group without a name, is not accepted. The stack of the machine code is
/// made at the first search, which panics where it cannot be; a size of zero
/// or beyond what memory can hold is left out.
#[verifier::external_body]
pub(crate) fn build_regex(
    pattern: &str,
    multi_line: bool,
    crlf: bool,
    jit: bool,
    jit_stack: usize,
) -> (r: Result<Pattern, pcre2::Error>)
    requires
        0 < jit_stack <= 0x4000_0000,
    ensures
        match r {
            Ok(p) => built_regex(pattern@, multi_line, crlf, jit, jit_stack as int) == Ok::<
                Regex,
                pcre2::Error,
            >(p@),
            Err(e) => built_regex(pattern@, multi_line, crlf, jit, jit_stack as int) == Err::<
                Regex,
                pcre2::Error,
            >(e),
        },
        pattern@ == "(?<"@ ==> r is Err,
{
    let mut builder = RegexBuilder::new();
    builder.multi_line(multi_line).crlf(crlf);
    builder.jit_if_available(jit).max_jit_stack_size(Some(jit_stack));
    Ok(Pattern { regex: builder.build(pattern)? })
}

/// `Regex::captures_len`: how many groups there are, the whole match included.
pub assume_specification[ pcre2::bytes::Regex::captures_len ](regex: &pcre2::bytes::Regex) -> (r:
    usize)
    ensures
        r == regex_groups(*regex),
;

/// `Clone` of `Regex`: the same regular expression, with scratch memory of its
/// own.
pub assume_specification[ <pcre2::bytes::Regex as Clone>::clone ](
    regex: &pcre2::bytes::Regex,
) -> (r: pcre2::bytes::Regex)
    ensures
        r == *regex,
;

impl Pattern {
    pub fn duplicate(&self) -> (r: Pattern)
        ensures
            r@ == self@,
    {
        Pattern { regex: self.regex.clone() }
    }

    /// How many groups there are, the whole match included.
    pub fn group_count(&self) -> (r: usize)
        ensures
            r == regex_groups(self@),
    {
        self.regex.captures_len()
    }
}

/// `Regex::capture_names`: what each group is called.
#[verifier::external_body]
pub(crate) fn capture_names(pattern: &Pattern) -> (r: Vec<Option<String>>)
    ensures
        group_name_views(r@) == regex_group_names(pattern@),
{
    pattern.regex.capture_names().to_vec()
}

/// `Display` of `pcre2::Error`: the error in words.
#[verifier::external_body]
pub(crate) fn error_text(error: &pcre2::Error) -> (r: String)
    ensures
        r@ == error_words(*error),
{
    error.to_string()
}

/// `Regex::find_at`: the first match at or behind `start`, as the offsets at
/// which it starts and ends. It lies in the subject and ends at `start` or
/// behind it. A match that moves its own start (`\K`) can start elsewhere, so
/// nothing is said of the start but that it lies in the subject. Whether the
/// search fails, and how, is not stated: its limits depend on the machine.
#[verifier::external_body]
pub(crate) fn find_match(pattern: &Pattern, subject: &[u8], start: usize) -> (r: Result<
    Option<(usize, usize)>,
    pcre2::Error,
>)
    requires
        start <= subject@.len(),
    ensures
        match r {
            Ok(found) => pair_ints(found) == first_match(pattern@, subject@, start as int),
            Err(_) => true,
        },
        match r {
            Ok(Some((s, e))) => s <= subject@.len() && start <= e <= subject@.len(),
            _ => true,
        },
{
    Ok(pattern.regex.find_at(subject, start)?.map(|m| (m.start(), m.end())))
}

/// `CaptureLocations::get`: where the group is, if there is such a group and
/// it took part in the match.
pub assume_specification[ pcre2::bytes::CaptureLocations::get ](
    locations: &pcre2::bytes::CaptureLocations,
    i: usize,
) -> (r: Option<(usize, usize)>)
    ensures
        pair_ints(r) == group_at(held_groups(*locations), i as int),
;

/// A search with the groups of the last match.
pub(crate) struct CaptureSearch<'r> {
    pattern: &'r Pattern,
    locations: CaptureLocations,
}

impl<'r> CaptureSearch<'r> {
    /// What is searched for.
    pub(crate) closed spec fn regex(&self) -> Regex {
        self.pattern@
    }

    /// The groups of the last match.
    pub(crate) closed spec fn groups(&self) -> Seq<Option<(int, int)>> {
        held_groups(self.locations)
    }

    /// `Regex::capture_locations`: room for the groups of a match.
    #[verifier::external_body]
    pub(crate) fn new(pattern: &'r Pattern) -> (r: CaptureSearch<'r>)
        ensures
            r.regex() == pattern@,
    {
        CaptureSearch { pattern, locations: pattern.regex.capture_locations() }
    }

    /// `Regex::captures_read_at`: the first match at or behind `start`, with
    /// its groups kept. The first of them is the match itself, which lies as
    /// that of `find_match`. Whether the search fails is not stated.
    #[verifier::external_body]
    pub(crate) fn find_match(&mut self, subject: &[u8], start: usize) -> (r: Result<
        Option<(usize, usize)>,
        pcre2::Error,
    >)
        requires
            start <= subject@.len(),
        ensures
            final(self).regex() == old(self).regex(),
            match r {
                Ok(Some((s, e))) => first_groups(old(self).regex(), subject@, start as int) == Some(
                    final(self).groups(),
                ) && final(self).groups().len() > 0 && final(self).groups()[0] == Some(
                    (s as int, e as int),
                ),
                Ok(None) => first_groups(old(self).regex(), subject@, start as int) is None,
                Err(_) => true,
            },
            match r {
                Ok(Some((s, e))) => s <= subject@.len() && start <= e <= subject@.len(),
                _ => true,
            },
    {
        let found = self.pattern.regex.captures_read_at(&mut self.locations, subject, start)?;
        Ok(found.map(|m| (m.start(), m.end())))
    }

    /// Where the group is, if there is such a group and it took part in the
    /// last match.
    pub(crate) fn group(&self, index: usize) -> (r: Option<(usize, usize)>)
        ensures
            pair_ints(r) == group_at(self.groups(), index as int),
    {
        self.locations.get(index)
    }
}

/// The group of a number, if there is one and it took part in the match.
pub open spec fn group_at(groups: Seq<Option<(int, int)>>, index: int) -> Option<(int, int)> {
    if 0 <= index < groups.len() {
        groups[index]
    } else {
        None
    }
}

} // verus!
