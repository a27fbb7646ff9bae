//! What the command line asks for, and what follows from it.

use vstd::prelude::*;

use crate::controls::{strip_ansi, visible};
use crate::lossy::{decode_lossy, lossy_text};
use crate::profiles::{detected, generic, ProfileStore, ProfileView};
use crate::selection::{is_generic_profile_set, only_generic};
use crate::signals::copy_texts;
use crate::style::ColorMode;
use crate::text::{
    chars_of, concat3, copy_text, lowered, same_text, text_from, text_views, to_lower_chars,
    trim, trimmed,
};

verus! {

/// The switches of the command line.
#[derive(Clone, Debug)]
pub struct Options {
    /// The profiles to use, where any are named.
    pub profiles: Vec<String>,
    pub no_auto_detect: bool,
    pub strip_ansi: bool,
    pub sanitize: bool,
    pub force_rgb: bool,
    pub benchmark: bool,
    pub show_profile: bool,
    pub local_echo: bool,
    pub no_dynamic_profile: bool,
    pub no_minimal_reset: bool,
}

impl Default for Options {
    fn default() -> (r: Self)
        ensures
            text_views(r.profiles@) == Seq::<Seq<char>>::empty(),
            !r.no_auto_detect && !r.strip_ansi && !r.sanitize && !r.force_rgb && !r.benchmark,
            !r.show_profile && !r.local_echo && !r.no_dynamic_profile && !r.no_minimal_reset,
    {
        let r = Options {
            profiles: Vec::new(),
            no_auto_detect: false,
            strip_ansi: false,
            sanitize: false,
            force_rgb: false,
            benchmark: false,
            show_profile: false,
            local_echo: false,
            no_dynamic_profile: false,
            no_minimal_reset: false,
        };
        assert(text_views(r.profiles@) =~= Seq::<Seq<char>>::empty());
        r
    }
}

impl Options {
    /// Whether profiles are told from the output.
    pub open spec fn detects(self) -> bool {
        self.profiles@.len() == 0 && !self.no_auto_detect
    }

    /// Whether profiles follow the session.
    pub open spec fn follows(self, interactive: bool) -> bool {
        interactive && self.detects() && !self.no_dynamic_profile
    }

    /// The profiles to use for output that starts with `sample`.
    pub open spec fn chosen(self, profiles: Seq<ProfileView>, sample: Seq<u8>) -> Seq<Seq<char>> {
        if self.profiles@.len() > 0 {
            text_views(self.profiles@)
        } else if self.no_auto_detect {
            seq![generic()]
        } else {
            detected(profiles, lossy_text(visible(sample)))
        }
    }
}

pub fn auto_detect_enabled(options: &Options) -> (r: bool)
    ensures
        r == options.detects(),
{
    options.profiles.len() == 0 && !options.no_auto_detect
}

pub fn dynamic_profile_enabled(options: &Options, interactive: bool) -> (r: bool)
    ensures
        r == options.follows(interactive),
{
    interactive && auto_detect_enabled(options) && !options.no_dynamic_profile
}

/// Whether more output may still tell a profile.
pub fn should_continue_auto_detect(options: &Options, profile_names: &Vec<String>) -> (r: bool)
    ensures
        r == (options.detects() && only_generic(text_views(profile_names@))),
{
    auto_detect_enabled(options) && is_generic_profile_set(profile_names)
}

/// The profiles to use for output that starts with `sample`.
pub fn select_profile_names_with_store(
    options: &Options,
    store: &ProfileStore,
    sample: &[u8],
) -> (r: Vec<String>)
    requires
        store.wf(),
    ensures
        text_views(r@) == options.chosen(store@, sample@),
{
    if options.profiles.len() > 0 {
        copy_texts(&options.profiles)
    } else if options.no_auto_detect {
        let mut names: Vec<String> = Vec::new();
        names.push(copy_text("generic"));
        assert(text_views(names@) =~= seq![generic()]);
        names
    } else {
        let visible_sample = strip_ansi(sample);
        let sample_text = decode_lossy(visible_sample.as_slice());
        store.detect_profiles(sample_text.as_str())
    }
}

/// The color depth: full where it is asked for or where the terminal says
/// that it has it.
pub open spec fn depth(force_rgb: bool, terminal_truecolor: bool) -> ColorMode {
    if force_rgb || terminal_truecolor {
        ColorMode::TrueColor
    } else {
        ColorMode::Xterm256
    }
}

pub fn color_mode_for_context(
    options: &Options,
    _interactive: bool,
    terminal_truecolor: bool,
) -> (r: ColorMode)
    ensures
        r == depth(options.force_rgb, terminal_truecolor),
{
    if options.force_rgb || terminal_truecolor {
        ColorMode::TrueColor
    } else {
        ColorMode::Xterm256
    }
}

/// Whether output read from a pipe is treated as that of a terminal that
/// someone types into: where it is shown on one.
pub fn stdin_mode_interactive_highlighting(stdout_is_terminal: bool) -> (r: bool)
    ensures
        r == stdout_is_terminal,
{
    stdout_is_terminal
}

/// Whether this value of `COLORTERM` tells of full color.
pub fn names_truecolor(value: &str) -> (r: bool)
    ensures
        r == (value@ == "truecolor"@ || value@ == "24bit"@),
{
    same_text(value, "truecolor") || same_text(value, "24bit")
}

/// The words that switch an environment variable off.
pub open spec fn off_word(word: Seq<char>) -> bool {
    word == ""@ || word == "0"@ || word == "false"@ || word == "no"@ || word == "off"@
}

/// Whether an environment variable with this value is switched on.
pub fn env_flag_value_enabled(value: &str) -> (r: bool)
    ensures
        r == !off_word(lowered(trimmed(value@))),
{
    let chars = chars_of(value);
    let word = text_from(to_lower_chars(trim(chars.as_slice())).as_slice());
    !(same_text(word.as_str(), "") || same_text(word.as_str(), "0") || same_text(
        word.as_str(),
        "false",
    ) || same_text(word.as_str(), "no") || same_text(word.as_str(), "off"))
}

/// What the program is to do.
#[derive(Clone, Debug)]
pub enum Action {
    Help,
    Version,
    Reload,
    ProfilesList,
    ProfilesShow(String),
    /// The file is the argument at this index of the command.
    ProfilesValidate(usize),
    /// The fixture is the argument at this index of the command.
    ProfilesTest { profile: String, fixture: usize },
    Stdin,
    Run,
}

/// The content of an [`Action`].
pub enum ActionView {
    Help,
    Version,
    Reload,
    ProfilesList,
    ProfilesShow(Seq<char>),
    ProfilesValidate(int),
    ProfilesTest { profile: Seq<char>, fixture: int },
    Stdin,
    Run,
}

impl View for Action {
    type V = ActionView;

    open spec fn view(&self) -> ActionView {
        match self {
            Action::Help => ActionView::Help,
            Action::Version => ActionView::Version,
            Action::Reload => ActionView::Reload,
            Action::ProfilesList => ActionView::ProfilesList,
            Action::ProfilesShow(name) => ActionView::ProfilesShow(name@),
            Action::ProfilesValidate(path) => ActionView::ProfilesValidate(*path as int),
            Action::ProfilesTest { profile, fixture } => ActionView::ProfilesTest {
                profile: profile@,
                fixture: *fixture as int,
            },
            Action::Stdin => ActionView::Stdin,
            Action::Run => ActionView::Run,
        }
    }
}

/// What is wrong with the arguments of `profiles`.
#[derive(Clone, Debug)]
pub enum UsageError {
    ShowNeedsProfile,
    ValidateNeedsPath,
    TestNeedsProfile,
    TestNeedsFixture,
    UnknownSubcommand(String),
}

/// The content of a [`UsageError`].
pub enum UsageIssue {
    ShowNeedsProfile,
    ValidateNeedsPath,
    TestNeedsProfile,
    TestNeedsFixture,
    UnknownSubcommand(Seq<char>),
}

impl View for UsageError {
    type V = UsageIssue;

    open spec fn view(&self) -> UsageIssue {
        match self {
            UsageError::ShowNeedsProfile => UsageIssue::ShowNeedsProfile,
            UsageError::ValidateNeedsPath => UsageIssue::ValidateNeedsPath,
            UsageError::TestNeedsProfile => UsageIssue::TestNeedsProfile,
            UsageError::TestNeedsFixture => UsageIssue::TestNeedsFixture,
            UsageError::UnknownSubcommand(name) => UsageIssue::UnknownSubcommand(name@),
        }
    }
}

impl UsageIssue {
    pub open spec fn text(self) -> Seq<char> {
        match self {
            UsageIssue::ShowNeedsProfile => "profiles show required value: profile name"@,
            UsageIssue::ValidateNeedsPath => "profiles validate required value: profile path"@,
            UsageIssue::TestNeedsProfile => "profiles test required value: profile name"@,
            UsageIssue::TestNeedsFixture => "profiles test required value: fixture path"@,
            UsageIssue::UnknownSubcommand(name) => "unknown profiles subcommand '"@ + name + "'"@,
        }
    }
}

impl UsageError {
    /// The error in words.
    pub fn message(&self) -> (r: String)
        ensures
            r@ == self@.text(),
    {
        match self {
            UsageError::ShowNeedsProfile => copy_text("profiles show required value: profile name"),
            UsageError::ValidateNeedsPath => copy_text(
                "profiles validate required value: profile path",
            ),
            UsageError::TestNeedsProfile => copy_text("profiles test required value: profile name"),
            UsageError::TestNeedsFixture => copy_text("profiles test required value: fixture path"),
            UsageError::UnknownSubcommand(name) => concat3(
                "unknown profiles subcommand '",
                name.as_str(),
                "'",
            ),
        }
    }
}

/// Where the first separator `--` stands from `i` on.
pub open spec fn separator(args: Seq<Seq<char>>, i: int) -> Option<int>
    decreases args.len() - i,
{
    if i < 0 || i >= args.len() {
        None
    } else if args[i] == "--"@ {
        Some(i)
    } else {
        separator(args, i + 1)
    }
}

/// Where the `k`-th argument stands when the first separator from `from` on
/// does not count.
pub open spec fn place(args: Seq<Seq<char>>, from: int, k: int) -> int {
    match separator(args, from) {
        Some(at) => if from + k < at {
            from + k
        } else {
            from + k + 1
        },
        None => from + k,
    }
}

/// What `profiles` with the arguments behind `from` asks for.
pub open spec fn profiles_action(command: Seq<Seq<char>>, from: int) -> Result<
    ActionView,
    UsageIssue,
> {
    let first = place(command, from, 0);
    let second = place(command, from, 1);
    let third = place(command, from, 2);
    if first >= command.len() || command[first] == "list"@ {
        Ok(ActionView::ProfilesList)
    } else if command[first] == "show"@ {
        if second < command.len() {
            Ok(ActionView::ProfilesShow(command[second]))
        } else {
            Err(UsageIssue::ShowNeedsProfile)
        }
    } else if command[first] == "validate"@ {
        if second < command.len() {
            Ok(ActionView::ProfilesValidate(second))
        } else {
            Err(UsageIssue::ValidateNeedsPath)
        }
    } else if command[first] == "test"@ {
        if second >= command.len() {
            Err(UsageIssue::TestNeedsProfile)
        } else if third >= command.len() {
            Err(UsageIssue::TestNeedsFixture)
        } else {
            Ok(ActionView::ProfilesTest { profile: command[second], fixture: third })
        }
    } else {
        Err(UsageIssue::UnknownSubcommand(command[first]))
    }
}

/// What the command line asks for. `args` is all of it, `command` the part
/// that is no switch. `profiles` names the profile commands, unless it is the
/// first argument behind a separator.
pub open spec fn action(
    help: bool,
    version: bool,
    reload: bool,
    args: Seq<Seq<char>>,
    command: Seq<Seq<char>>,
) -> Result<ActionView, UsageIssue> {
    if help {
        Ok(ActionView::Help)
    } else if version {
        Ok(ActionView::Version)
    } else if reload {
        Ok(ActionView::Reload)
    } else if command.len() == 0 {
        Ok(ActionView::Stdin)
    } else if command[0] == "profiles"@ && !forced_profiles(args) {
        profiles_action(command, 1)
    } else {
        Ok(ActionView::Run)
    }
}

/// Whether a program named `profiles` stands behind the first separator.
pub open spec fn forced_profiles(args: Seq<Seq<char>>) -> bool {
    separator(args, 0) matches Some(at) && at + 1 < args.len() && args[at + 1] == "profiles"@
}

fn find_separator(args: &Vec<String>, from: usize) -> (r: Option<usize>)
    requires
        from <= args@.len(),
    ensures
        match r {
            Some(at) => separator(text_views(args@), from as int) == Some(at as int) && from <= at
                < args@.len(),
            None => separator(text_views(args@), from as int) is None,
        },
{
    let ghost all = text_views(args@);
    let mut i: usize = from;
    while i < args.len()
        invariant
            from <= i <= args@.len(),
            all == text_views(args@),
            separator(all, from as int) == separator(all, i as int),
        decreases args@.len() - i,
    {
        assert(all[i as int] == args@[i as int]@);
        if same_text(args[i].as_str(), "--") {
            return Some(i);
        }
        i = i + 1;
    }
    None
}

fn find_place(args: &Vec<String>, from: usize, k: usize) -> (r: Option<usize>)
    requires
        from <= args@.len(),
        k <= 2,
    ensures
        match r {
            Some(at) => at == place(text_views(args@), from as int, k as int) && at < args@.len(),
            None => place(text_views(args@), from as int, k as int) >= args@.len(),
        },
{
    let len = args.len();
    if len - from <= k {
        return None;
    }
    let at = match find_separator(args, from) {
        Some(separator) => if from + k < separator {
            from + k
        } else {
            from + k + 1
        },
        None => from + k,
    };
    if at < len {
        Some(at)
    } else {
        None
    }
}

/// What `profiles` with the arguments behind `from` asks for.
pub fn parse_profiles_command(command: &Vec<String>, from: usize) -> (r: Result<Action, UsageError>)
    requires
        from <= command@.len(),
    ensures
        match profiles_action(text_views(command@), from as int) {
            Ok(a) => r matches Ok(b) && b@ == a,
            Err(e) => r matches Err(f) && f@ == e,
        },
{
    let ghost all = text_views(command@);
    assert(forall|i: int| 0 <= i < command@.len() ==> all[i] == #[trigger] command@[i]@);
    let first = match find_place(command, from, 0) {
        Some(at) => at,
        None => return Ok(Action::ProfilesList),
    };
    let subcommand = command[first].as_str();
    let second = find_place(command, from, 1);
    if same_text(subcommand, "list") {
        Ok(Action::ProfilesList)
    } else if same_text(subcommand, "show") {
        match second {
            Some(at) => Ok(Action::ProfilesShow(copy_text(command[at].as_str()))),
            None => Err(UsageError::ShowNeedsProfile),
        }
    } else if same_text(subcommand, "validate") {
        match second {
            Some(at) => Ok(Action::ProfilesValidate(at)),
            None => Err(UsageError::ValidateNeedsPath),
        }
    } else if same_text(subcommand, "test") {
        match second {
            None => Err(UsageError::TestNeedsProfile),
            Some(at) => match find_place(command, from, 2) {
                None => Err(UsageError::TestNeedsFixture),
                Some(fixture) => Ok(
                    Action::ProfilesTest { profile: copy_text(command[at].as_str()), fixture },
                ),
            },
        }
    } else {
        Err(UsageError::UnknownSubcommand(copy_text(subcommand)))
    }
}

/// What the command line asks for. `args` is all of it, `command` the part
/// that is no switch.
pub fn select_action(
    help: bool,
    version: bool,
    reload: bool,
    args: &Vec<String>,
    command: &Vec<String>,
) -> (r: Result<Action, UsageError>)
    ensures
        match action(help, version, reload, text_views(args@), text_views(command@)) {
            Ok(a) => r matches Ok(b) && b@ == a,
            Err(e) => r matches Err(f) && f@ == e,
        },
{
    if help {
        return Ok(Action::Help);
    }
    if version {
        return Ok(Action::Version);
    }
    if reload {
        return Ok(Action::Reload);
    }
    assert(text_views(command@).len() == command@.len());
    if command.len() == 0 {
        return Ok(Action::Stdin);
    }
    let forced = match find_separator(args, 0) {
        Some(at) => {
            assert(forall|i: int|
                0 <= i < args@.len() ==> text_views(args@)[i] == #[trigger] args@[i]@);
            let len = args.len();
            at + 1 < len && same_text(args[at + 1].as_str(), "profiles")
        },
        None => false,
    };
    assert(text_views(command@)[0] == command@[0]@);
    if same_text(command[0].as_str(), "profiles") && !forced {
        return parse_profiles_command(command, 1);
    }
    Ok(Action::Run)
}

} // verus!
