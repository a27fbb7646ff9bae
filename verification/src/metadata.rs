//! Inheritance lists and detection hints of profiles: made uniform, without
//! repetitions, and held to bounds.

use vstd::prelude::*;
use vstd::utf8::*;

use crate::text::{
    chars_of, concat3, decimal, decimal_text, lowered, same_chars, text_from, text_views,
    to_lower_chars, trim, trimmed,
};

verus! {

/// Longest entry, in bytes.
pub const MAX_PROFILE_METADATA_ENTRY_BYTES: usize = 256;

/// Most detection hints of one profile.
pub const MAX_PROFILE_DETECTION_HINTS: usize = 32;

/// Most bytes of detection hints of one profile.
pub const MAX_PROFILE_DETECTION_BYTES: usize = 4096;

/// Most parents of one profile.
pub const MAX_PROFILE_INHERITANCE_ENTRIES: usize = 32;

/// Most bytes of parent names of one profile.
pub const MAX_PROFILE_INHERITANCE_BYTES: usize = 4096;

/// Most detection hints of all profiles together.
pub const MAX_STORE_DETECTION_HINTS: usize = 512;

/// Most bytes of detection hints of all profiles together.
pub const MAX_STORE_DETECTION_BYTES: usize = 65536;

/// Most parents of all profiles together.
pub const MAX_STORE_INHERITANCE_ENTRIES: usize = 512;

/// Most bytes of parent names of all profiles together.
pub const MAX_STORE_INHERITANCE_BYTES: usize = 65536;

/// Whose metadata is bounded.
#[derive(Clone, Copy, Debug, PartialEq, Eq, Structural)]
pub enum MetadataScope {
    Profile,
    Store,
}

/// Which metadata is bounded.
#[derive(Clone, Copy, Debug, PartialEq, Eq, Structural)]
pub enum MetadataKind {
    Detection,
    Inheritance,
}

/// What of it is bounded.
#[derive(Clone, Copy, Debug, PartialEq, Eq, Structural)]
pub enum MetadataMeasure {
    Count,
    EntryBytes,
    TotalBytes,
}

/// A bound that metadata is over.
#[derive(Clone, Copy, Debug, PartialEq, Eq, Structural)]
pub struct ProfileMetadataLimitError {
    pub scope: MetadataScope,
    pub kind: MetadataKind,
    pub measure: MetadataMeasure,
    pub actual: usize,
    pub limit: usize,
}

/// The content of a [`ProfileMetadataLimitError`].
pub struct MetadataIssue {
    pub scope: MetadataScope,
    pub kind: MetadataKind,
    pub measure: MetadataMeasure,
    pub actual: int,
    pub limit: int,
}

impl View for ProfileMetadataLimitError {
    type V = MetadataIssue;

    open spec fn view(&self) -> MetadataIssue {
        MetadataIssue {
            scope: self.scope,
            kind: self.kind,
            measure: self.measure,
            actual: self.actual as int,
            limit: self.limit as int,
        }
    }
}

pub open spec fn scope_name(scope: MetadataScope) -> Seq<char> {
    match scope {
        MetadataScope::Profile => "profile"@,
        MetadataScope::Store => "profile store"@,
    }
}

/// What is measured, in words.
pub open spec fn measure_name(kind: MetadataKind, measure: MetadataMeasure) -> Seq<char> {
    match kind {
        MetadataKind::Detection => match measure {
            MetadataMeasure::Count => " detection hint count is "@,
            MetadataMeasure::EntryBytes => " detection hint entry bytes is "@,
            MetadataMeasure::TotalBytes => " detection hint bytes is "@,
        },
        MetadataKind::Inheritance => match measure {
            MetadataMeasure::Count => " inheritance entry count is "@,
            MetadataMeasure::EntryBytes => " inheritance entry bytes is "@,
            MetadataMeasure::TotalBytes => " inheritance entry bytes is "@,
        },
    }
}

impl MetadataIssue {
    pub open spec fn message(self) -> Seq<char> {
        scope_name(self.scope) + measure_name(self.kind, self.measure) + decimal(
            self.actual as nat,
        ) + "; limit is "@ + decimal(self.limit as nat)
    }
}

impl ProfileMetadataLimitError {
    /// The error in words.
    pub fn message(&self) -> (r: String)
        ensures
            r@ == self@.message(),
    {
        let scope = match self.scope {
            MetadataScope::Profile => "profile",
            MetadataScope::Store => "profile store",
        };
        let measure = match self.kind {
            MetadataKind::Detection => match self.measure {
                MetadataMeasure::Count => " detection hint count is ",
                MetadataMeasure::EntryBytes => " detection hint entry bytes is ",
                MetadataMeasure::TotalBytes => " detection hint bytes is ",
            },
            MetadataKind::Inheritance => match self.measure {
                MetadataMeasure::Count => " inheritance entry count is ",
                MetadataMeasure::EntryBytes => " inheritance entry bytes is ",
                MetadataMeasure::TotalBytes => " inheritance entry bytes is ",
            },
        };
        let head = concat3(scope, measure, decimal_text(self.actual as u64).as_str());
        concat3(head.as_str(), "; limit is ", decimal_text(self.limit as u64).as_str())
    }
}

/// How long `s` is in bytes.
pub open spec fn byte_len(s: Seq<char>) -> int {
    encode_utf8(s).len() as int
}

/// How long the text is in bytes.
pub fn text_byte_len(s: &str) -> (r: usize)
    ensures
        r == byte_len(s@),
{
    s.as_bytes().len()
}

/// Bounds on the metadata of one profile.
#[derive(Clone, Copy, Debug)]
pub struct MetadataBudget {
    pub kind: MetadataKind,
    pub max_entries: usize,
    pub max_entry_bytes: usize,
    pub max_total_bytes: usize,
}

/// Bounds on detection hints.
pub open spec fn detection_budget() -> MetadataBudget {
    MetadataBudget {
        kind: MetadataKind::Detection,
        max_entries: MAX_PROFILE_DETECTION_HINTS,
        max_entry_bytes: MAX_PROFILE_METADATA_ENTRY_BYTES,
        max_total_bytes: MAX_PROFILE_DETECTION_BYTES,
    }
}

/// Bounds on inheritance lists.
pub open spec fn inheritance_budget() -> MetadataBudget {
    MetadataBudget {
        kind: MetadataKind::Inheritance,
        max_entries: MAX_PROFILE_INHERITANCE_ENTRIES,
        max_entry_bytes: MAX_PROFILE_METADATA_ENTRY_BYTES,
        max_total_bytes: MAX_PROFILE_INHERITANCE_BYTES,
    }
}

/// What entries are compared by: detection hints without regard to case.
pub open spec fn entry_key(s: Seq<char>, any_case: bool) -> Seq<char> {
    if any_case {
        lowered(s)
    } else {
        s
    }
}

/// An entry of `kept` has the key of `s`.
pub open spec fn key_known(kept: Seq<Seq<char>>, s: Seq<char>, any_case: bool) -> bool {
    exists|k: int|
        0 <= k < kept.len() && entry_key(#[trigger] kept[k], any_case) == entry_key(s, any_case)
}

/// `n`, or the largest `usize`.
pub open spec fn saturated(n: int) -> int {
    if n <= usize::MAX {
        n
    } else {
        usize::MAX as int
    }
}

/// How long the entries are together, in bytes.
pub open spec fn total_bytes(entries: Seq<Seq<char>>) -> int
    decreases entries.len(),
{
    if entries.len() == 0 {
        0
    } else {
        total_bytes(entries.drop_last()) + byte_len(entries.last())
    }
}

pub open spec fn limit_issue(budget: MetadataBudget, measure: MetadataMeasure, actual: int) -> MetadataIssue {
    MetadataIssue {
        scope: MetadataScope::Profile,
        kind: budget.kind,
        measure,
        actual,
        limit: match measure {
            MetadataMeasure::Count => budget.max_entries as int,
            MetadataMeasure::EntryBytes => budget.max_entry_bytes as int,
            MetadataMeasure::TotalBytes => budget.max_total_bytes as int,
        },
    }
}

/// `kept` with one more entry: trimmed, and left out where it is empty or
/// known; an issue where it goes over a bound.
pub open spec fn with_entry(
    kept: Seq<Seq<char>>,
    entry: Seq<char>,
    any_case: bool,
    budget: MetadataBudget,
) -> Result<Seq<Seq<char>>, MetadataIssue> {
    let t = trimmed(entry);
    if byte_len(entry) > budget.max_entry_bytes {
        Err(limit_issue(budget, MetadataMeasure::EntryBytes, byte_len(entry)))
    } else if t.len() == 0 || key_known(kept, t, any_case) {
        Ok(kept)
    } else if kept.len() + 1 > budget.max_entries {
        Err(limit_issue(budget, MetadataMeasure::Count, kept.len() as int + 1))
    } else if saturated(total_bytes(kept) + byte_len(t)) > budget.max_total_bytes {
        Err(
            limit_issue(
                budget,
                MetadataMeasure::TotalBytes,
                saturated(total_bytes(kept) + byte_len(t)),
            ),
        )
    } else {
        Ok(kept.push(t))
    }
}

/// The entries, normalized in their order, or the first bound that they go
/// over.
pub open spec fn normalized(entries: Seq<Seq<char>>, any_case: bool, budget: MetadataBudget) -> Result<
    Seq<Seq<char>>,
    MetadataIssue,
>
    decreases entries.len(),
{
    if entries.len() == 0 {
        Ok(Seq::empty())
    } else {
        match normalized(entries.drop_last(), any_case, budget) {
            Ok(kept) => with_entry(kept, entries.last(), any_case, budget),
            Err(issue) => Err(issue),
        }
    }
}

/// Both lists of one profile, normalized within the bounds.
pub open spec fn normalized_profile(inherits: Seq<Seq<char>>, detection: Seq<Seq<char>>) -> Result<
    (Seq<Seq<char>>, Seq<Seq<char>>),
    MetadataIssue,
> {
    match normalized(inherits, false, inheritance_budget()) {
        Ok(parents) => match normalized(detection, true, detection_budget()) {
            Ok(hints) => Ok((parents, hints)),
            Err(issue) => Err(issue),
        },
        Err(issue) => Err(issue),
    }
}

/// The entries, normalized in their order, with no bound on them.
pub open spec fn normalized_freely(entries: Seq<Seq<char>>, any_case: bool) -> Seq<Seq<char>>
    decreases entries.len(),
{
    if entries.len() == 0 {
        Seq::empty()
    } else {
        let kept = normalized_freely(entries.drop_last(), any_case);
        let t = trimmed(entries.last());
        if t.len() == 0 || key_known(kept, t, any_case) {
            kept
        } else {
            kept.push(t)
        }
    }
}

/// Normalized entries are within the bounds, trimmed, not empty, and no two
/// of them have the same key.
pub open spec fn in_budget(kept: Seq<Seq<char>>, any_case: bool, budget: MetadataBudget) -> bool {
    &&& kept.len() <= budget.max_entries
    &&& saturated(total_bytes(kept)) <= budget.max_total_bytes
    &&& tidy(kept, any_case)
}

/// No entry is empty, and no two have the same key.
pub open spec fn tidy(kept: Seq<Seq<char>>, any_case: bool) -> bool {
    &&& forall|k: int| 0 <= k < kept.len() ==> (#[trigger] kept[k]).len() > 0
    &&& forall|j: int, k: int|
        0 <= j < k < kept.len() ==> entry_key(#[trigger] kept[j], any_case) != entry_key(
            #[trigger] kept[k],
            any_case,
        )
}

proof fn lemma_tidy_push(kept: Seq<Seq<char>>, t: Seq<char>, any_case: bool)
    requires
        tidy(kept, any_case),
        t.len() > 0,
        !key_known(kept, t, any_case),
    ensures
        tidy(kept.push(t), any_case),
{
    let all = kept.push(t);
    assert forall|j: int, k: int| 0 <= j < k < all.len() implies entry_key(
        #[trigger] all[j],
        any_case,
    ) != entry_key(#[trigger] all[k], any_case) by {
        assert(all[j] == kept[j]);
        if k < kept.len() {
            assert(all[k] == kept[k]);
        }
    }
}

/// Whatever the entries are, what normalization keeps of them is within the
/// bounds and without repetitions.
pub proof fn normalized_metadata_is_bounded(
    entries: Seq<Seq<char>>,
    any_case: bool,
    budget: MetadataBudget,
)
    ensures
        match normalized(entries, any_case, budget) {
            Ok(kept) => in_budget(kept, any_case, budget),
            Err(issue) => issue.actual > issue.limit,
        },
    decreases entries.len(),
{
    if entries.len() > 0 {
        normalized_metadata_is_bounded(entries.drop_last(), any_case, budget);
        if let Ok(kept) = normalized(entries.drop_last(), any_case, budget) {
            let t = trimmed(entries.last());
            if t.len() > 0 && !key_known(kept, t, any_case) {
                lemma_tidy_push(kept, t, any_case);
                assert(kept.push(t).drop_last() =~= kept);
            }
        }
    }
}

/// Normalization without bounds repeats nothing either, and is what bounded
/// normalization gives where no bound is reached.
pub proof fn free_normalization_is_tidy(
    entries: Seq<Seq<char>>,
    any_case: bool,
    budget: MetadataBudget,
)
    ensures
        tidy(normalized_freely(entries, any_case), any_case),
        match normalized(entries, any_case, budget) {
            Ok(kept) => kept == normalized_freely(entries, any_case),
            Err(_) => true,
        },
    decreases entries.len(),
{
    if entries.len() > 0 {
        free_normalization_is_tidy(entries.drop_last(), any_case, budget);
        let kept = normalized_freely(entries.drop_last(), any_case);
        let t = trimmed(entries.last());
        if t.len() > 0 && !key_known(kept, t, any_case) {
            lemma_tidy_push(kept, t, any_case);
        }
    }
}

fn key_of(s: &[char], any_case: bool) -> (r: Vec<char>)
    ensures
        r@ == entry_key(s@, any_case),
{
    if any_case {
        to_lower_chars(s)
    } else {
        vstd::slice::slice_to_vec(s)
    }
}

fn knows_key(kept: &Vec<String>, s: &[char], any_case: bool) -> (r: bool)
    ensures
        r == key_known(text_views(kept@), s@, any_case),
{
    let key = key_of(s, any_case);
    let ghost all = text_views(kept@);
    let mut i: usize = 0;
    while i < kept.len()
        invariant
            i <= kept@.len(),
            all == text_views(kept@),
            key@ == entry_key(s@, any_case),
            forall|k: int| 0 <= k < i ==> entry_key(#[trigger] all[k], any_case) != key@,
        decreases kept@.len() - i,
    {
        assert(all[i as int] == kept@[i as int]@);
        let other = key_of(chars_of(kept[i].as_str()).as_slice(), any_case);
        if same_chars(other.as_slice(), key.as_slice()) {
            return true;
        }
        i = i + 1;
    }
    false
}

fn over_limit(budget: MetadataBudget, measure: MetadataMeasure, actual: usize) -> (r:
    ProfileMetadataLimitError)
    ensures
        r@ == limit_issue(budget, measure, actual as int),
{
    ProfileMetadataLimitError {
        scope: MetadataScope::Profile,
        kind: budget.kind,
        measure,
        actual,
        limit: match measure {
            MetadataMeasure::Count => budget.max_entries,
            MetadataMeasure::EntryBytes => budget.max_entry_bytes,
            MetadataMeasure::TotalBytes => budget.max_total_bytes,
        },
    }
}

proof fn lemma_total_push(kept: Seq<Seq<char>>, t: Seq<char>)
    ensures
        total_bytes(kept.push(t)) == total_bytes(kept) + byte_len(t),
{
    assert(kept.push(t).drop_last() =~= kept);
}

/// Normalizes the lists of one profile and holds them to the bounds.
pub fn normalize_and_validate_profile_metadata(inherits: &Vec<String>, detection: &Vec<String>) -> (r:
    Result<(Vec<String>, Vec<String>), ProfileMetadataLimitError>)
    ensures
        match r {
            Ok((parents, hints)) => normalized_profile(
                text_views(inherits@),
                text_views(detection@),
            ) == Ok::<(Seq<Seq<char>>, Seq<Seq<char>>), MetadataIssue>(
                (text_views(parents@), text_views(hints@)),
            ),
            Err(issue) => normalized_profile(text_views(inherits@), text_views(detection@)) == Err::<
                (Seq<Seq<char>>, Seq<Seq<char>>),
                MetadataIssue,
            >(issue@),
        },
{
    let parents = match normalize_metadata_entries(
        inherits,
        false,
        MetadataBudget {
            kind: MetadataKind::Inheritance,
            max_entries: MAX_PROFILE_INHERITANCE_ENTRIES,
            max_entry_bytes: MAX_PROFILE_METADATA_ENTRY_BYTES,
            max_total_bytes: MAX_PROFILE_INHERITANCE_BYTES,
        },
    ) {
        Ok(parents) => parents,
        Err(issue) => return Err(issue),
    };
    let hints = match normalize_metadata_entries(
        detection,
        true,
        MetadataBudget {
            kind: MetadataKind::Detection,
            max_entries: MAX_PROFILE_DETECTION_HINTS,
            max_entry_bytes: MAX_PROFILE_METADATA_ENTRY_BYTES,
            max_total_bytes: MAX_PROFILE_DETECTION_BYTES,
        },
    ) {
        Ok(hints) => hints,
        Err(issue) => return Err(issue),
    };
    Ok((parents, hints))
}

fn normalize_entries_freely(entries: &Vec<String>, ascii_case_insensitive: bool) -> (r: Vec<String>)
    ensures
        text_views(r@) == normalized_freely(text_views(entries@), ascii_case_insensitive),
{
    let ghost all = text_views(entries@);
    let mut kept: Vec<String> = Vec::new();
    let mut i: usize = 0;
    assert(all.take(0) =~= Seq::<Seq<char>>::empty());
    assert(text_views(kept@) =~= Seq::<Seq<char>>::empty());
    while i < entries.len()
        invariant
            i <= entries@.len(),
            all == text_views(entries@),
            text_views(kept@) == normalized_freely(all.take(i as int), ascii_case_insensitive),
        decreases entries@.len() - i,
    {
        let ghost now = text_views(kept@);
        assert(all.take(i + 1).drop_last() =~= all.take(i as int));
        assert(all[i as int] == entries@[i as int]@);
        let chars = chars_of(entries[i].as_str());
        let t = trim(chars.as_slice());
        if t.len() > 0 && !knows_key(&kept, t, ascii_case_insensitive) {
            kept.push(text_from(t));
            assert(text_views(kept@) =~= now.push(t@));
        }
        i = i + 1;
    }
    assert(all.take(i as int) =~= all);
    kept
}

/// Normalizes the lists of a profile that the program itself made.
pub fn normalize_profile_metadata_unbounded(inherits: &Vec<String>, detection: &Vec<String>) -> (r: (
    Vec<String>,
    Vec<String>,
))
    ensures
        text_views(r.0@) == normalized_freely(text_views(inherits@), false),
        text_views(r.1@) == normalized_freely(text_views(detection@), true),
{
    (normalize_entries_freely(inherits, false), normalize_entries_freely(detection, true))
}

/// Entries as text views, or the issue.
pub open spec fn entries_result(r: Result<Vec<String>, ProfileMetadataLimitError>) -> Result<
    Seq<Seq<char>>,
    MetadataIssue,
> {
    match r {
        Ok(kept) => Ok(text_views(kept@)),
        Err(issue) => Err(issue@),
    }
}

/// Makes the entries of one list uniform and holds them to `budget`.
pub fn normalize_metadata_entries(
    entries: &Vec<String>,
    ascii_case_insensitive: bool,
    budget: MetadataBudget,
) -> (r: Result<Vec<String>, ProfileMetadataLimitError>)
    ensures
        entries_result(r) == normalized(text_views(entries@), ascii_case_insensitive, budget),
{
    let ghost all = text_views(entries@);
    let mut kept: Vec<String> = Vec::new();
    let mut total: usize = 0;
    let mut i: usize = 0;
    assert(all.take(0) =~= Seq::<Seq<char>>::empty());
    assert(text_views(kept@) =~= Seq::<Seq<char>>::empty());
    while i < entries.len()
        invariant
            i <= entries@.len(),
            all == text_views(entries@),
            kept@.len() <= i,
            normalized(all.take(i as int), ascii_case_insensitive, budget) == Ok::<
                Seq<Seq<char>>,
                MetadataIssue,
            >(text_views(kept@)),
            total == saturated(total_bytes(text_views(kept@))),
            total_bytes(text_views(kept@)) >= 0,
            total <= budget.max_total_bytes,
            kept@.len() <= budget.max_entries,
        decreases entries@.len() - i,
    {
        let ghost now = text_views(kept@);
        assert(all.take(i + 1).drop_last() =~= all.take(i as int));
        assert(all[i as int] == entries@[i as int]@);
        let ghost rest = all.skip(i + 1);
        let entry = entries[i].as_str();
        let size = text_byte_len(entry);
        if size > budget.max_entry_bytes {
            proof {
                lemma_normalized_stops(all, i + 1, ascii_case_insensitive, budget);
            }
            return Err(over_limit(budget, MetadataMeasure::EntryBytes, size));
        }
        let chars = chars_of(entry);
        let t = trim(chars.as_slice());
        if t.len() > 0 && !knows_key(&kept, t, ascii_case_insensitive) {
            assert(text_views(kept@).len() == kept@.len());
            if kept.len() + 1 > budget.max_entries {
                proof {
                    lemma_normalized_stops(all, i + 1, ascii_case_insensitive, budget);
                }
                return Err(over_limit(budget, MetadataMeasure::Count, kept.len() + 1));
            }
            let text = text_from(t);
            let t_size = text_byte_len(text.as_str());
            proof {
                lemma_trimmed_is_no_longer(entry@);
            }
            let next = total.saturating_add(t_size);
            if next > budget.max_total_bytes {
                proof {
                    lemma_normalized_stops(all, i + 1, ascii_case_insensitive, budget);
                }
                return Err(over_limit(budget, MetadataMeasure::TotalBytes, next));
            }
            proof {
                lemma_total_push(now, text@);
            }
            kept.push(text);
            assert(text_views(kept@) =~= now.push(t@));
            total = next;
        }
        i = i + 1;
    }
    assert(all.take(i as int) =~= all);
    Ok(kept)
}

/// Once a bound is reached, later entries change nothing.
proof fn lemma_normalized_stops(all: Seq<Seq<char>>, i: int, any_case: bool, budget: MetadataBudget)
    requires
        0 <= i <= all.len(),
        normalized(all.take(i), any_case, budget) is Err,
    ensures
        normalized(all, any_case, budget) == normalized(all.take(i), any_case, budget),
    decreases all.len() - i,
{
    if i < all.len() {
        assert(all.take(i + 1).drop_last() =~= all.take(i));
        lemma_normalized_stops(all, i + 1, any_case, budget);
    } else {
        assert(all.take(i) =~= all);
    }
}

pub proof fn lemma_encode_concat(a: Seq<char>, b: Seq<char>)
    ensures
        encode_utf8(a + b) == encode_utf8(a) + encode_utf8(b),
    decreases a.len(),
{
    if a.len() == 0 {
        assert(a + b =~= b);
        assert(encode_utf8(a) + encode_utf8(b) =~= encode_utf8(b));
    } else {
        assert((a + b).drop_first() =~= a.drop_first() + b);
        lemma_encode_concat(a.drop_first(), b);
        assert(encode_utf8(a + b) =~= encode_utf8(a) + encode_utf8(b));
    }
}

proof fn lemma_bytes_of_part(s: Seq<char>, from: int, to: int)
    requires
        0 <= from <= to <= s.len(),
    ensures
        byte_len(s.subrange(from, to)) <= byte_len(s),
{
    let a = s.subrange(0, from);
    let b = s.subrange(from, to);
    let c = s.subrange(to, s.len() as int);
    assert(s =~= a + b + c);
    lemma_encode_concat(a + b, c);
    lemma_encode_concat(a, b);
}

proof fn lemma_trimmed_is_no_longer(s: Seq<char>)
    ensures
        byte_len(trimmed(s)) <= byte_len(s),
{
    crate::text::lemma_skip(s, 0);
    crate::text::lemma_space_start(s, s.len() as int);
    assert(s.subrange(0, 0) =~= Seq::<char>::empty());
    lemma_bytes_of_part(s, 0, 0);
    let start = crate::text::skip_space(s, 0);
    let end = crate::text::space_start(s, s.len() as int);
    if start < s.len() {
        if end <= start {
            assert(crate::text::whitespace(s[start]));
        }
        lemma_bytes_of_part(s, start, end);
    }
}

} // verus!
