//! The commands that show and check profiles.

use vstd::prelude::*;

use crate::config::{append_rules, rule_views, PrismConfig, RuleSpec, RuleView};
use crate::documents::LoadedProfileFile;
use crate::metadata::normalized_freely;
use crate::profiles::{user_profile, with_profile, Profile, ProfileStore, ProfileView};
use crate::session::{build_highlighter_for_profiles_with_store, built, SessionError};
use crate::signals::copy_texts;
use crate::style::ColorMode;
use crate::text::{concat, copy_text, text_views};

verus! {

/// Names with commas between them.
pub open spec fn comma_list(names: Seq<Seq<char>>) -> Seq<char>
    decreases names.len(),
{
    if names.len() == 0 {
        Seq::empty()
    } else if names.len() == 1 {
        names[0]
    } else {
        comma_list(names.drop_last()) + ", "@ + names.last()
    }
}

pub open spec fn list_or_none(names: Seq<Seq<char>>) -> Seq<char> {
    if names.len() == 0 {
        "none"@
    } else {
        comma_list(names)
    }
}

/// The lines that show a profile.
pub open spec fn shown(profile: ProfileView) -> Seq<Seq<char>> {
    seq![
        "profile: "@ + profile.name,
        "inherits: "@ + list_or_none(profile.inherits),
        "detection: "@ + list_or_none(profile.detection),
        "rules:"@,
    ] + profile.rules.map_values(|rule: RuleView| "  - "@ + rule.description)
}

fn list_text(names: &Vec<String>) -> (r: String)
    ensures
        r@ == list_or_none(text_views(names@)),
{
    let ghost all = text_views(names@);
    if names.len() == 0 {
        return copy_text("none");
    }
    let mut out = String::new();
    let mut i: usize = 0;
    assert(out@ =~= comma_list(all.take(0)));
    while i < names.len()
        invariant
            i <= names@.len(),
            all == text_views(names@),
            out@ == comma_list(all.take(i as int)),
        decreases names@.len() - i,
    {
        assert(all.take(i + 1).drop_last() =~= all.take(i as int));
        assert(all[i as int] == names@[i as int]@);
        if i > 0 {
            out.append(", ");
        }
        out.append(names[i].as_str());
        assert(i == 0 ==> out@ =~= all.take(1)[0]);
        i = i + 1;
    }
    assert(all.take(i as int) =~= all);
    out
}

/// The lines that show a profile.
pub fn profile_lines(profile: &Profile) -> (r: Vec<String>)
    ensures
        text_views(r@) == shown(profile@),
{
    let mut lines: Vec<String> = Vec::new();
    lines.push(concat("profile: ", profile.name.as_str()));
    let parents = list_text(&profile.inherits);
    lines.push(concat("inherits: ", parents.as_str()));
    let hints = list_text(&profile.detection);
    lines.push(concat("detection: ", hints.as_str()));
    lines.push(copy_text("rules:"));
    let ghost head = seq![
        "profile: "@ + profile@.name,
        "inherits: "@ + list_or_none(profile@.inherits),
        "detection: "@ + list_or_none(profile@.detection),
        "rules:"@,
    ];
    let ghost rest = profile@.rules.map_values(|rule: RuleView| "  - "@ + rule.description);
    let mut i: usize = 0;
    assert(text_views(lines@) =~= head + rest.take(0));
    while i < profile.rules.len()
        invariant
            i <= profile.rules@.len(),
            rest == profile@.rules.map_values(|rule: RuleView| "  - "@ + rule.description),
            text_views(lines@) == head + rest.take(i as int),
        decreases profile.rules@.len() - i,
    {
        let ghost before = text_views(lines@);
        lines.push(concat("  - ", profile.rules[i].description.as_str()));
        assert(profile@.rules[i as int] == profile.rules@[i as int]@);
        assert(text_views(lines@) =~= before.push(rest[i as int]));
        assert(text_views(lines@) =~= head + rest.take(i + 1));
        i = i + 1;
    }
    assert(rest.take(i as int) =~= rest);
    lines
}

/// The profiles with the one that a file holds, whatever its size.
pub open spec fn with_file(profiles: Seq<ProfileView>, file: LoadedProfileFile) -> Seq<ProfileView> {
    with_profile(
        profiles,
        user_profile(
            file.meta.name@,
            normalized_freely(text_views(file.meta.inherits@), false),
            normalized_freely(text_views(file.meta.detection@), true),
            rule_views(file.rules@),
        ),
    )
}

/// Whether the profile that a file holds can be used next to those in `store`.
pub fn check_profile_file(store: ProfileStore, file: &LoadedProfileFile) -> (r: Result<
    (),
    SessionError,
>)
    requires
        store.wf(),
    ensures
        match built(
            with_file(store@, *file),
            Seq::empty(),
            seq![file.meta.name@],
            ColorMode::TrueColor,
        ) {
            Ok(_) => r is Ok,
            Err(issue) => r matches Err(e) && e@ == issue,
        },
{
    let mut store = store;
    let mut rules: Vec<RuleSpec> = Vec::new();
    append_rules(&mut rules, &file.rules);
    assert(rule_views(rules@) =~= rule_views(file.rules@));
    store.insert_profile(
        copy_text(file.meta.name.as_str()),
        copy_texts(&file.meta.inherits),
        copy_texts(&file.meta.detection),
        rules,
    );
    let mut names: Vec<String> = Vec::new();
    names.push(copy_text(file.meta.name.as_str()));
    assert(text_views(names@) =~= seq![file.meta.name@]);
    let none = PrismConfig::default();
    match build_highlighter_for_profiles_with_store(&store, &names, ColorMode::TrueColor, &none) {
        Ok(_) => Ok(()),
        Err(e) => Err(e),
    }
}

} // verus!
