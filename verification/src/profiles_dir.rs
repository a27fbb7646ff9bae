//! Profiles of the user: how much of their directory is read, and how they
//! join the bundled ones.

use vstd::prelude::*;

use crate::config::{append_rules, rule_views, RuleSpec};
use crate::documents::{LoadedProfileFile, LoadedView};
use crate::metadata::{normalized_profile, MetadataIssue, ProfileMetadataLimitError};
use crate::profiles::{
    lookup, same_issue, store_overflow, user_profile, with_profile, ProfileStore, ProfileView,
};
use crate::signals::copy_texts;
use crate::terminal_text::{escape_untrusted, escaped};
use crate::text::{concat, concat3, copy_text, decimal, decimal_text, same_text, text_views};

verus! {

/// How many files are read.
pub const MAX_PROFILES_D_FILES: usize = 128;

/// How many bytes they may have together.
pub const MAX_PROFILES_D_BYTES: u64 = 8_388_608;

/// How many entries of the directory are looked at.
pub const MAX_PROFILES_D_ENTRIES: usize = 1024;

/// How many bytes a configuration or profile file may have.
pub const MAX_CONFIG_FILE_BYTES: u64 = 1_048_576;

/// How many bytes a fixture may have.
pub const MAX_PROFILE_TEST_FILE_BYTES: u64 = 16_777_216;

/// Why the directory is not read.
#[derive(Clone, Copy, Debug, PartialEq, Eq, Structural)]
pub enum BudgetError {
    Files(usize),
    Bytes(u64),
    Entries,
}

impl BudgetError {
    pub open spec fn text(self) -> Seq<char> {
        match self {
            BudgetError::Files(count) => "profiles.d contains "@ + decimal(count as nat)
                + " profile files; limit is "@ + decimal(MAX_PROFILES_D_FILES as nat),
            BudgetError::Bytes(size) => "profiles.d aggregate size is "@ + decimal(size as nat)
                + " bytes; limit is "@ + decimal(MAX_PROFILES_D_BYTES as nat) + " bytes"@,
            BudgetError::Entries => "profiles.d contains more than "@ + decimal(
                MAX_PROFILES_D_ENTRIES as nat,
            ) + " directory entries"@,
        }
    }

    /// The error in words.
    pub fn message(&self) -> (r: String)
        ensures
            r@ == self.text(),
    {
        match self {
            BudgetError::Files(count) => {
                let number = decimal_text(*count as u64);
                let limit = decimal_text(MAX_PROFILES_D_FILES as u64);
                let head = concat3(
                    "profiles.d contains ",
                    number.as_str(),
                    " profile files; limit is ",
                );
                concat(head.as_str(), limit.as_str())
            },
            BudgetError::Bytes(size) => {
                let number = decimal_text(*size);
                let limit = decimal_text(MAX_PROFILES_D_BYTES);
                let head = concat3(
                    "profiles.d aggregate size is ",
                    number.as_str(),
                    " bytes; limit is ",
                );
                concat3(head.as_str(), limit.as_str(), " bytes")
            },
            BudgetError::Entries => {
                let limit = decimal_text(MAX_PROFILES_D_ENTRIES as u64);
                concat3("profiles.d contains more than ", limit.as_str(), " directory entries")
            },
        }
    }
}

/// Whether this many files with this many bytes can be read.
pub fn enforce_profiles_d_budget(file_count: usize, aggregate_bytes: u64) -> (r: Result<
    (),
    BudgetError,
>)
    ensures
        r == (if file_count > MAX_PROFILES_D_FILES {
            Err(BudgetError::Files(file_count))
        } else if aggregate_bytes > MAX_PROFILES_D_BYTES {
            Err(BudgetError::Bytes(aggregate_bytes))
        } else {
            Ok(())
        }),
{
    if file_count > MAX_PROFILES_D_FILES {
        return Err(BudgetError::Files(file_count));
    }
    if aggregate_bytes > MAX_PROFILES_D_BYTES {
        return Err(BudgetError::Bytes(aggregate_bytes));
    }
    Ok(())
}

/// Whether this many entries can be looked at.
pub fn enforce_profiles_d_entry_budget(entry_count: usize) -> (r: Result<(), BudgetError>)
    ensures
        r == (if entry_count > MAX_PROFILES_D_ENTRIES {
            Err(BudgetError::Entries)
        } else {
            Ok(())
        }),
{
    if entry_count > MAX_PROFILES_D_ENTRIES {
        return Err(BudgetError::Entries);
    }
    Ok(())
}

/// Whether a file with this extension is a profile.
pub fn is_yaml_extension(extension: Option<&str>) -> (r: bool)
    ensures
        r == (extension matches Some(e) && (e@ == "yml"@ || e@ == "yaml"@)),
{
    match extension {
        Some(extension) => same_text(extension, "yml") || same_text(extension, "yaml"),
        None => false,
    }
}

/// Why a file is not read: its kind, what it is, and the bound.
pub open spec fn too_large(kind: Seq<char>, len: Option<u64>, max_bytes: u64) -> Seq<char> {
    match len {
        Some(n) => kind + " file is too large ("@ + decimal(n as nat) + " bytes; limit "@ + decimal(
            max_bytes as nat,
        ) + ")"@,
        None => kind + " file is too large (more than "@ + decimal(max_bytes as nat) + " bytes)"@,
    }
}

/// Whether a file of `len` bytes is too long, and the error in words if so.
pub fn check_file_len(kind: &str, len: u64, max_bytes: u64) -> (r: Result<(), String>)
    ensures
        match r {
            Ok(()) => len <= max_bytes,
            Err(text) => len > max_bytes && text@ == too_large(kind@, Some(len), max_bytes),
        },
{
    if len <= max_bytes {
        return Ok(());
    }
    let number = decimal_text(len);
    let limit = decimal_text(max_bytes);
    let mut text = concat3(kind, " file is too large (", number.as_str());
    text.append(" bytes; limit ");
    text.append(limit.as_str());
    text.append(")");
    Err(text)
}

/// Whether more bytes than allowed were read, and the error in words if so.
pub fn check_read_len(kind: &str, read: usize, max_bytes: u64) -> (r: Result<(), String>)
    ensures
        match r {
            Ok(()) => read <= max_bytes,
            Err(text) => read > max_bytes && text@ == too_large(kind@, None, max_bytes),
        },
{
    if read as u64 <= max_bytes {
        return Ok(());
    }
    let limit = decimal_text(max_bytes);
    let mut text = concat3(kind, " file is too large (more than ", limit.as_str());
    text.append(" bytes)");
    Err(text)
}

/// The profiles once one of the user has joined them.
#[verifier::opaque]
pub open spec fn joined_by(profiles: Seq<ProfileView>, file: LoadedView) -> Result<
    Seq<ProfileView>,
    MetadataIssue,
> {
    match normalized_profile(file.inherits, file.detection) {
        Err(issue) => Err(issue),
        Ok((parents, hints)) => match store_overflow(profiles, file.name, parents, hints) {
            Some(issue) => Err(issue),
            None => Ok(
                with_profile(profiles, user_profile(file.name, parents, hints, file.rules)),
            ),
        },
    }
}

/// The profiles once those of the user have joined them, in their order.
pub open spec fn joined_all(profiles: Seq<ProfileView>, files: Seq<LoadedView>) -> Result<
    Seq<ProfileView>,
    MetadataIssue,
>
    decreases files.len(),
{
    if files.len() == 0 {
        Ok(profiles)
    } else {
        match joined_all(profiles, files.drop_last()) {
            Err(issue) => Err(issue),
            Ok(before) => joined_by(before, files.last()),
        }
    }
}

/// What the user is told of a profile that takes the place of another.
pub open spec fn override_notice(name: Seq<char>) -> Seq<char> {
    "prismtty: user profile '"@ + escaped(name)
        + "' from profiles.d overrides the built-in profile of the same name"@
}

/// What the user is told, a text for each profile that takes the place of
/// another.
pub open spec fn override_notices(profiles: Seq<ProfileView>, files: Seq<LoadedView>) -> Seq<
    Seq<char>,
>
    decreases files.len(),
{
    if files.len() == 0 {
        Seq::empty()
    } else {
        let told = override_notices(profiles, files.drop_last());
        match joined_all(profiles, files.drop_last()) {
            Ok(before) => if lookup(before, files.last().name) is Some {
                told.push(override_notice(files.last().name))
            } else {
                told
            },
            Err(_) => told,
        }
    }
}

pub open spec fn loaded_views(files: Seq<LoadedProfileFile>) -> Seq<LoadedView> {
    files.map_values(|f: LoadedProfileFile| f@)
}

proof fn lemma_joined_all_fails(profiles: Seq<ProfileView>, files: Seq<LoadedView>, n: int)
    requires
        0 <= n <= files.len(),
        joined_all(profiles, files.take(n)) is Err,
    ensures
        joined_all(profiles, files) == joined_all(profiles, files.take(n)),
    decreases files.len() - n,
{
    if n < files.len() {
        assert(files.take(n + 1).drop_last() =~= files.take(n));
        lemma_joined_all_fails(profiles, files, n + 1);
    } else {
        assert(files.take(n) =~= files);
    }
}

/// Adds a profile of the user; tells whether one of that name was there.
fn add_user_profile(store: &mut ProfileStore, file: &LoadedProfileFile) -> (r: Result<
    bool,
    ProfileMetadataLimitError,
>)
    requires
        old(store).wf(),
    ensures
        final(store).wf(),
        match joined_by(old(store)@, file@) {
            Err(issue) => r matches Err(e) && same_issue(e@, issue),
            Ok(profiles) => r == Ok::<bool, ProfileMetadataLimitError>(
                lookup(old(store)@, file@.name) is Some,
            ) && final(store)@ == profiles,
        },
{
    let mut rules: Vec<RuleSpec> = Vec::new();
    append_rules(&mut rules, &file.rules);
    assert(rule_views(rules@) =~= rule_views(file.rules@));
    reveal(joined_by);
    store.try_insert_user_profile(
        copy_text(file.meta.name.as_str()),
        copy_texts(&file.meta.inherits),
        copy_texts(&file.meta.detection),
        rules,
    )
}

/// Adds the profiles of the user to `store`. With the store come the texts
/// for the user.
pub fn add_user_profiles(store: ProfileStore, files: &Vec<LoadedProfileFile>) -> (r: Result<
    (ProfileStore, Vec<String>),
    ProfileMetadataLimitError,
>)
    requires
        store.wf(),
    ensures
        match joined_all(store@, loaded_views(files@)) {
            Err(issue) => r matches Err(e) && same_issue(e@, issue),
            Ok(profiles) => match r {
                Err(_) => false,
                Ok((full, notices)) => full.wf() && full@ == profiles && text_views(notices@)
                    == override_notices(store@, loaded_views(files@)),
            },
        },
{
    let ghost first = store@;
    let ghost all = loaded_views(files@);
    let mut full = store;
    let mut notices: Vec<String> = Vec::new();
    let mut i: usize = 0;
    assert(all.take(0) =~= Seq::<LoadedView>::empty());
    assert(text_views(notices@) =~= Seq::<Seq<char>>::empty());
    while i < files.len()
        invariant
            i <= files@.len(),
            all == loaded_views(files@),
            first == store@,
            full.wf(),
            joined_all(first, all.take(i as int)) == Ok::<Seq<ProfileView>, MetadataIssue>(full@),
            text_views(notices@) == override_notices(first, all.take(i as int)),
        decreases files@.len() - i,
    {
        let file = &files[i];
        assert(all[i as int] == file@);
        assert(all.take(i + 1).drop_last() =~= all.take(i as int));
        assert(all.take(i + 1).last() == file@);
        let shadowed = match add_user_profile(&mut full, file) {
            Ok(shadowed) => shadowed,
            Err(e) => {
                proof {
                    lemma_joined_all_fails(first, all, i + 1);
                }
                return Err(e);
            },
        };
        if shadowed {
            let ghost told = text_views(notices@);
            let name = escape_untrusted(file.meta.name.as_str());
            notices.push(
                concat3(
                    "prismtty: user profile '",
                    name.as_str(),
                    "' from profiles.d overrides the built-in profile of the same name",
                ),
            );
            assert(text_views(notices@) =~= told.push(override_notice(file@.name)));
        }
        i = i + 1;
    }
    assert(all.take(i as int) =~= all);
    Ok((full, notices))
}

} // verus!
