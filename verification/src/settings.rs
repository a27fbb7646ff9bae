//! Laws about what the user asks for: options, commands and limits, and what
//! the program reports back.

use vstd::prelude::*;

use crate::cache::HIGHLIGHTER_CACHE_LIMIT;
use crate::compiled::{MAX_COMPILED_RULES, MAX_TOTAL_PATTERN_BYTES};
use crate::controls::visible;
use crate::lossy::lossy_text;
use crate::metadata::{
    MAX_PROFILE_DETECTION_BYTES, MAX_PROFILE_DETECTION_HINTS, MAX_PROFILE_INHERITANCE_BYTES,
    MAX_PROFILE_INHERITANCE_ENTRIES, MAX_PROFILE_METADATA_ENTRY_BYTES, MAX_STORE_DETECTION_BYTES,
    MAX_STORE_DETECTION_HINTS, MAX_STORE_INHERITANCE_BYTES, MAX_STORE_INHERITANCE_ENTRIES,
};
use crate::options::{action, depth, profiles_action, separator, ActionView, Options, UsageIssue};
use crate::process::{exit_byte, WaitOutcome};
use crate::profiles::{detected, detection_is_unique, is_detection, ProfileView};
use crate::profiles_dir::{
    MAX_CONFIG_FILE_BYTES, MAX_PROFILES_D_BYTES, MAX_PROFILES_D_ENTRIES, MAX_PROFILES_D_FILES,
    MAX_PROFILE_TEST_FILE_BYTES,
};
use crate::session::SLOW_RULE_WARN_THRESHOLD;
use crate::style::ColorMode;
use crate::style_text::hex_digit;
use crate::text::text_views;
use crate::trace::hex_line;

verus! {

/// Profiles that are asked for are used whatever the output says; without
/// detection it is the generic profile; else what the output tells of.
pub proof fn asked_profiles_are_used(
    options: Options,
    profiles: Seq<ProfileView>,
    sample: Seq<u8>,
    names: Seq<Seq<char>>,
)
    requires
        is_detection(profiles, lossy_text(visible(sample)), names),
    ensures
        options.profiles@.len() > 0 ==> options.chosen(profiles, sample) == text_views(
            options.profiles@,
        ),
        options.profiles@.len() == 0 && options.no_auto_detect ==> options.chosen(profiles, sample)
            == seq![seq!['g', 'e', 'n', 'e', 'r', 'i', 'c']],
        options.profiles@.len() == 0 && !options.no_auto_detect ==> options.chosen(profiles, sample)
            == names,
{
    reveal_strlit("generic");
    assert("generic"@ =~= seq!['g', 'e', 'n', 'e', 'r', 'i', 'c']);
    let text = lossy_text(visible(sample));
    detection_is_unique(profiles, text, names, detected(profiles, text));
}

/// Profiles follow a session, unless nobody types into it, or profiles were
/// asked for, or detection or switching is off.
pub proof fn switching_can_be_turned_off(options: Options, interactive: bool)
    ensures
        !interactive ==> !options.follows(interactive),
        options.profiles@.len() > 0 ==> !options.follows(interactive) && !options.detects(),
        options.no_auto_detect ==> !options.follows(interactive) && !options.detects(),
        options.no_dynamic_profile ==> !options.follows(interactive),
        interactive && options.profiles@.len() == 0 && !options.no_auto_detect
            && !options.no_dynamic_profile ==> options.follows(interactive),
        options.profiles@.len() == 0 && !options.no_auto_detect ==> options.detects(),
{
}

/// Full color is for terminals that have it, or where it is asked for.
pub proof fn full_color_is_asked_for_or_told(force: bool, told: bool)
    ensures
        depth(force, told) == ColorMode::TrueColor <==> force || told,
        !force && !told ==> depth(force, told) == ColorMode::Xterm256,
{
}

/// The exit code of a child is passed on; a signal that ended it counts from
/// 128 on.
pub proof fn exit_codes_are_passed_on(code: i32, signal: u8)
    ensures
        0 <= code <= 255 ==> exit_byte(WaitOutcome::Exited(code)) == code,
        signal <= 127 ==> exit_byte(WaitOutcome::Signaled(signal)) == 128 + signal,
        !(0 <= code <= 255) ==> exit_byte(WaitOutcome::Exited(code)) == 255,
{
}

/// Help comes before everything else, then the version, then reloading. With
/// no command the input is highlighted, and a command other than `profiles` is
/// run.
pub proof fn switches_come_before_commands(
    args: Seq<Seq<char>>,
    command: Seq<Seq<char>>,
    version: bool,
    reload: bool,
)
    ensures
        action(true, version, reload, args, command) == Ok::<ActionView, UsageIssue>(
            ActionView::Help,
        ),
        action(false, true, reload, args, command) == Ok::<ActionView, UsageIssue>(
            ActionView::Version,
        ),
        action(false, false, true, args, command) == Ok::<ActionView, UsageIssue>(
            ActionView::Reload,
        ),
        command.len() == 0 ==> action(false, false, false, args, command) == Ok::<
            ActionView,
            UsageIssue,
        >(ActionView::Stdin),
        command.len() > 0 && command[0] != "profiles"@ ==> action(
            false,
            false,
            false,
            args,
            command,
        ) == Ok::<ActionView, UsageIssue>(ActionView::Run),
        args.len() > 1 && args[0] == "--"@ && args[1] == "profiles"@ && command.len() > 0 ==> action(
            false,
            false,
            false,
            args,
            command,
        ) == Ok::<ActionView, UsageIssue>(ActionView::Run),
{
}

proof fn lemma_no_separator(args: Seq<Seq<char>>, i: int)
    requires
        0 <= i <= args.len(),
        forall|k: int| i <= k < args.len() ==> #[trigger] args[k] != "--"@,
    ensures
        separator(args, i) is None,
    decreases args.len() - i,
{
    if i < args.len() {
        assert(args[i] != "--"@);
        lemma_no_separator(args, i + 1);
    }
}

/// The profile commands: to list them, to show one, to validate a file and to
/// test one on a fixture.
pub proof fn profile_commands_take_their_arguments(command: Seq<Seq<char>>)
    requires
        command.len() > 0,
        forall|k: int| 1 <= k < command.len() ==> #[trigger] command[k] != "--"@,
    ensures
        command.len() == 1 ==> profiles_action(command, 1) == Ok::<ActionView, UsageIssue>(
            ActionView::ProfilesList,
        ),
        command.len() > 1 && command[1] == "list"@ ==> profiles_action(command, 1) == Ok::<
            ActionView,
            UsageIssue,
        >(ActionView::ProfilesList),
        command.len() > 2 && command[1] == "show"@ ==> profiles_action(command, 1) == Ok::<
            ActionView,
            UsageIssue,
        >(ActionView::ProfilesShow(command[2])),
        command.len() == 2 && command[1] == "show"@ ==> profiles_action(command, 1) == Err::<
            ActionView,
            UsageIssue,
        >(UsageIssue::ShowNeedsProfile),
        command.len() > 2 && command[1] == "validate"@ ==> profiles_action(command, 1) == Ok::<
            ActionView,
            UsageIssue,
        >(ActionView::ProfilesValidate(2)),
        command.len() == 2 && command[1] == "validate"@ ==> profiles_action(command, 1) == Err::<
            ActionView,
            UsageIssue,
        >(UsageIssue::ValidateNeedsPath),
        command.len() > 3 && command[1] == "test"@ ==> profiles_action(command, 1) == Ok::<
            ActionView,
            UsageIssue,
        >(ActionView::ProfilesTest { profile: command[2], fixture: 3 }),
        command.len() == 3 && command[1] == "test"@ ==> profiles_action(command, 1) == Err::<
            ActionView,
            UsageIssue,
        >(UsageIssue::TestNeedsFixture),
        command.len() == 2 && command[1] == "test"@ ==> profiles_action(command, 1) == Err::<
            ActionView,
            UsageIssue,
        >(UsageIssue::TestNeedsProfile),
        command.len() > 1 && command[1] != "list"@ && command[1] != "show"@ && command[1]
            != "validate"@ && command[1] != "test"@ ==> profiles_action(command, 1) == Err::<
            ActionView,
            UsageIssue,
        >(UsageIssue::UnknownSubcommand(command[1])),
{
    reveal_strlit("list");
    reveal_strlit("show");
    reveal_strlit("validate");
    reveal_strlit("test");
    assert("list"@[0] == 'l' && "show"@[0] == 's' && "validate"@[0] == 'v' && "test"@[0] == 't');
    lemma_no_separator(command, 1);
}

/// A trace shows every byte as two hexadecimal digits, with a space between
/// bytes.
pub proof fn traces_show_every_byte(s: Seq<u8>, k: int)
    requires
        0 <= k < s.len(),
    ensures
        hex_line(s).len() == 3 * s.len() - 1,
        hex_line(s)[3 * k] == hex_digit(s[k] as int / 16),
        hex_line(s)[3 * k + 1] == hex_digit(s[k] as int % 16),
        k + 1 < s.len() ==> hex_line(s)[3 * k + 2] == ' ',
    decreases s.len(),
{
    if s.len() > 1 {
        let n = s.len() - 1;
        let before = s.drop_last();
        traces_show_every_byte(before, if k < n {
            k
        } else {
            0
        });
        if k < n {
            assert(before[k] == s[k]);
        }
    }
}

/// How much is taken of what users and devices give.
pub proof fn limits_are_fixed()
    ensures
        MAX_COMPILED_RULES == 512,
        MAX_TOTAL_PATTERN_BYTES == 262144,
        MAX_PROFILE_METADATA_ENTRY_BYTES == 256,
        MAX_PROFILE_DETECTION_HINTS == 32,
        MAX_PROFILE_DETECTION_BYTES == 4096,
        MAX_PROFILE_INHERITANCE_ENTRIES == 32,
        MAX_PROFILE_INHERITANCE_BYTES == 4096,
        MAX_STORE_DETECTION_HINTS == 512,
        MAX_STORE_DETECTION_BYTES == 65536,
        MAX_STORE_INHERITANCE_ENTRIES == 512,
        MAX_STORE_INHERITANCE_BYTES == 65536,
        MAX_PROFILES_D_FILES == 128,
        MAX_PROFILES_D_BYTES == 8_388_608,
        MAX_PROFILES_D_ENTRIES == 1024,
        MAX_CONFIG_FILE_BYTES == 1_048_576,
        MAX_PROFILE_TEST_FILE_BYTES == 16_777_216,
        HIGHLIGHTER_CACHE_LIMIT == 32,
        SLOW_RULE_WARN_THRESHOLD == 5_000_000_000,
{
}

} // verus!
