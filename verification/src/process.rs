//! Other processes: how a child ended, which sessions are alive, and what the
//! environment of a child looks like.

use vstd::prelude::*;

use crate::text::{chars_of, concat, copy_text, same_text};

verus! {

/// How a child process ended.
#[derive(Clone, Copy, Debug, PartialEq, Eq, Structural)]
pub enum WaitOutcome {
    /// It exited with this code.
    Exited(i32),
    /// This signal ended it.
    Signaled(u8),
    /// Anything else.
    Other,
}

/// An exit code as one byte; codes that do not fit count as 255.
pub open spec fn code_byte(raw: int) -> int {
    if 0 <= raw <= 255 {
        raw
    } else {
        255
    }
}

/// The exit code that tells how a child ended: its own code, or 128 and the
/// signal.
pub open spec fn exit_byte(outcome: WaitOutcome) -> int {
    match outcome {
        WaitOutcome::Exited(code) => code_byte(code as int),
        WaitOutcome::Signaled(signal) => code_byte(128 + signal),
        WaitOutcome::Other => 1,
    }
}

/// An exit code as one byte, without wrapping to a misleading success.
pub fn exit_code_byte(raw: u32) -> (r: u8)
    ensures
        r == code_byte(raw as int),
{
    if raw <= 255 {
        raw as u8
    } else {
        255
    }
}

/// The exit code that tells how a child ended.
pub fn exit_code_from_wait(outcome: WaitOutcome) -> (r: u8)
    ensures
        r == exit_byte(outcome),
{
    match outcome {
        WaitOutcome::Exited(code) => if 0 <= code && code <= 255 {
            code as u8
        } else {
            255
        },
        WaitOutcome::Signaled(signal) => if signal <= 127 {
            128 + signal
        } else {
            255
        },
        WaitOutcome::Other => 1,
    }
}

/// A child that failed or was killed never looks like one that succeeded.
pub proof fn failures_stay_failures(outcome: WaitOutcome)
    ensures
        exit_byte(outcome) == 0 <==> outcome == WaitOutcome::Exited(0),
        0 <= exit_byte(outcome) <= 255,
{
}

/// The error number for a process that exists but belongs to someone else.
pub const EPERM: i32 = 1;

/// Whether a process exists, by what a probe with no signal returned.
pub fn process_is_alive_from_kill_result(result: i32, errno: Option<i32>) -> (r: bool)
    ensures
        r == (result == 0 || errno == Some(EPERM)),
{
    if result == 0 {
        return true;
    }
    match errno {
        Some(number) => number == EPERM,
        None => false,
    }
}

/// The number that decimal digits stand for, from `i` on, with `n` before
/// them.
pub open spec fn digits_from(s: Seq<char>, i: int, n: nat) -> Option<nat>
    decreases s.len() - i,
{
    if i < 0 || i >= s.len() {
        Some(n)
    } else if !('0' <= s[i] <= '9') {
        None
    } else {
        digits_from(s, i + 1, n * 10 + (s[i] as nat - 0x30) as nat)
    }
}

/// The process that a file is named after: a decimal number, with or without
/// a plus sign.
pub open spec fn process_number(name: Seq<char>) -> Option<u32> {
    let start: int = if name.len() > 0 && name[0] == '+' { 1 } else { 0 };
    if start >= name.len() {
        None
    } else {
        match digits_from(name, start, 0) {
            Some(n) => if n <= u32::MAX {
                Some(n as u32)
            } else {
                None
            },
            None => None,
        }
    }
}

proof fn lemma_digits_grow(s: Seq<char>, i: int, n: nat)
    requires
        0 <= i,
    ensures
        digits_from(s, i, n) matches Some(m) ==> m >= n,
    decreases s.len() - i,
{
    if i < s.len() && '0' <= s[i] <= '9' {
        lemma_digits_grow(s, i + 1, n * 10 + (s[i] as nat - 0x30) as nat);
    }
}

/// The process that a file is named after.
pub fn pid_from_name(name: &str) -> (r: Option<u32>)
    ensures
        r == process_number(name@),
{
    let chars = chars_of(name);
    let len = chars.len();
    let start: usize = if len > 0 && chars[0] == '+' {
        1
    } else {
        0
    };
    if start >= len {
        return None;
    }
    let mut i: usize = start;
    let mut n: u32 = 0;
    while i < len
        invariant
            start <= i <= len,
            start < len,
            start == (if name@[0] == '+' {
                1int
            } else {
                0int
            }),
            len == chars@.len(),
            chars@ == name@,
            digits_from(name@, start as int, 0) == digits_from(name@, i as int, n as nat),
        decreases len - i,
    {
        let c = chars[i];
        if !('0' <= c && c <= '9') {
            return None;
        }
        let digit: u32 = c as u32 - 0x30;
        if n > 429496729 || n == 429496729 && digit > 5 {
            proof {
                lemma_digits_grow(name@, i + 1, (n * 10 + digit) as nat);
            }
            return None;
        }
        n = n * 10 + digit;
        i = i + 1;
    }
    Some(n)
}

/// Notices that a file has been written to.
#[derive(Clone, Debug)]
pub struct ReloadWatcher {
    last_seen: Option<i128>,
}

impl View for ReloadWatcher {
    type V = Option<i128>;

    closed spec fn view(&self) -> Option<i128> {
        self.last_seen
    }
}

impl ReloadWatcher {
    /// Times are nanoseconds; none stands for a file that is not there.
    pub fn new(now: Option<i128>) -> (r: Self)
        ensures
            r@ == now,
    {
        ReloadWatcher { last_seen: now }
    }

    /// Whether the file has been written to since it was last looked at.
    pub fn reload_requested(&mut self, current: Option<i128>) -> (r: bool)
        ensures
            r == (current is Some && current != old(self)@),
            final(self)@ == (if r {
                current
            } else {
                old(self)@
            }),
    {
        match current {
            None => false,
            Some(time) => {
                let changed = match self.last_seen {
                    Some(seen) => seen != time,
                    None => true,
                };
                if changed {
                    self.last_seen = Some(time);
                }
                changed
            },
        }
    }
}

/// A change to the environment of a child.
#[derive(Clone, Debug)]
pub enum EnvStep {
    /// The value of one variable, if it has one, becomes that of another.
    Preserve { from: String, to: String },
    Remove(String),
    Assign { name: String, value: String },
}

/// The content of an [`EnvStep`].
pub enum EnvStepView {
    Preserve { from: Seq<char>, to: Seq<char> },
    Remove(Seq<char>),
    Assign { name: Seq<char>, value: Seq<char> },
}

impl View for EnvStep {
    type V = EnvStepView;

    open spec fn view(&self) -> EnvStepView {
        match self {
            EnvStep::Preserve { from, to } => EnvStepView::Preserve { from: from@, to: to@ },
            EnvStep::Remove(name) => EnvStepView::Remove(name@),
            EnvStep::Assign { name, value } => EnvStepView::Assign { name: name@, value: value@ },
        }
    }
}

pub open spec fn env_step_views(steps: Seq<EnvStep>) -> Seq<EnvStepView> {
    steps.map_values(|s: EnvStep| s@)
}

/// The variables by which iTerm tells a shell that it runs in iTerm.
pub open spec fn iterm_variables() -> Seq<Seq<char>> {
    seq![
        "TERM_PROGRAM"@,
        "TERM_PROGRAM_VERSION"@,
        "LC_TERMINAL"@,
        "LC_TERMINAL_VERSION"@,
        "ITERM_SESSION_ID"@,
        "ITERM_PROFILE"@,
    ]
}

/// A variable is renamed: its value is kept under another name.
pub open spec fn renamed(names: Seq<Seq<char>>) -> Seq<EnvStepView>
    decreases names.len(),
{
    if names.len() == 0 {
        Seq::empty()
    } else {
        renamed(names.drop_last()) + seq![
            EnvStepView::Preserve { from: names.last(), to: "PRISMTTY_PARENT_"@ + names.last() },
            EnvStepView::Remove(names.last()),
        ]
    }
}

/// What keeps the shell integration of iTerm out of a nested shell.
pub open spec fn iterm_guard(interactive: bool, iterm_parent: bool) -> Seq<EnvStepView> {
    if interactive && iterm_parent {
        renamed(iterm_variables()) + seq![
            EnvStepView::Assign {
                name: "ITERM_SHELL_INTEGRATION_INSTALLED"@,
                value: "prismtty"@,
            },
            EnvStepView::Assign { name: "ITERM2_SQUELCH_MARK"@, value: "1"@ },
            EnvStepView::Assign { name: "PRISMTTY_NESTED_ITERM"@, value: "1"@ },
        ]
    } else {
        Seq::empty()
    }
}

fn rename(steps: &mut Vec<EnvStep>, name: &str)
    ensures
        env_step_views(final(steps)@) == env_step_views(old(steps)@) + seq![
            EnvStepView::Preserve { from: name@, to: "PRISMTTY_PARENT_"@ + name@ },
            EnvStepView::Remove(name@),
        ],
{
    let ghost before = env_step_views(steps@);
    steps.push(EnvStep::Preserve { from: copy_text(name), to: concat("PRISMTTY_PARENT_", name) });
    steps.push(EnvStep::Remove(copy_text(name)));
    assert(env_step_views(steps@) =~= before + seq![
        EnvStepView::Preserve { from: name@, to: "PRISMTTY_PARENT_"@ + name@ },
        EnvStepView::Remove(name@),
    ]);
}

fn assign(steps: &mut Vec<EnvStep>, name: &str, value: &str)
    ensures
        env_step_views(final(steps)@) == env_step_views(old(steps)@).push(
            EnvStepView::Assign { name: name@, value: value@ },
        ),
{
    let ghost before = env_step_views(steps@);
    steps.push(EnvStep::Assign { name: copy_text(name), value: copy_text(value) });
    assert(env_step_views(steps@) =~= before.push(
        EnvStepView::Assign { name: name@, value: value@ },
    ));
}

/// The changes that keep the shell integration of iTerm out of a nested shell.
pub fn iterm_shell_integration_guard(interactive: bool, iterm_parent: bool) -> (r: Vec<EnvStep>)
    ensures
        env_step_views(r@) == iterm_guard(interactive, iterm_parent),
{
    let mut steps: Vec<EnvStep> = Vec::new();
    assert(env_step_views(steps@) =~= Seq::empty());
    if !interactive || !iterm_parent {
        return steps;
    }
    rename(&mut steps, "TERM_PROGRAM");
    rename(&mut steps, "TERM_PROGRAM_VERSION");
    rename(&mut steps, "LC_TERMINAL");
    rename(&mut steps, "LC_TERMINAL_VERSION");
    rename(&mut steps, "ITERM_SESSION_ID");
    rename(&mut steps, "ITERM_PROFILE");
    proof {
        let one = Seq::empty().push("TERM_PROGRAM"@);
        let two = one.push("TERM_PROGRAM_VERSION"@);
        let three = two.push("LC_TERMINAL"@);
        let four = three.push("LC_TERMINAL_VERSION"@);
        let five = four.push("ITERM_SESSION_ID"@);
        lemma_renamed_push(Seq::empty(), "TERM_PROGRAM"@);
        lemma_renamed_push(one, "TERM_PROGRAM_VERSION"@);
        lemma_renamed_push(two, "LC_TERMINAL"@);
        lemma_renamed_push(three, "LC_TERMINAL_VERSION"@);
        lemma_renamed_push(four, "ITERM_SESSION_ID"@);
        lemma_renamed_push(five, "ITERM_PROFILE"@);
        assert(five.push("ITERM_PROFILE"@) =~= iterm_variables());
    }
    assert(env_step_views(steps@) =~= renamed(iterm_variables()));
    assign(&mut steps, "ITERM_SHELL_INTEGRATION_INSTALLED", "prismtty");
    assign(&mut steps, "ITERM2_SQUELCH_MARK", "1");
    assign(&mut steps, "PRISMTTY_NESTED_ITERM", "1");
    assert(env_step_views(steps@) =~= iterm_guard(true, true));
    steps
}

proof fn lemma_renamed_push(names: Seq<Seq<char>>, name: Seq<char>)
    ensures
        renamed(names.push(name)) == renamed(names) + seq![
            EnvStepView::Preserve { from: name, to: "PRISMTTY_PARENT_"@ + name },
            EnvStepView::Remove(name),
        ],
{
    assert(names.push(name).drop_last() =~= names);
}

/// Whether the program runs in iTerm, by three variables of the environment.
pub fn parent_terminal_is_iterm(
    session_id_set: bool,
    term_program: Option<&str>,
    lc_terminal: Option<&str>,
) -> (r: bool)
    ensures
        r == (session_id_set || (term_program matches Some(t) && t@ == "iTerm.app"@) || (
        lc_terminal matches Some(t) && t@ == "iTerm.app"@)),
{
    if session_id_set {
        return true;
    }
    if let Some(name) = term_program {
        if same_text(name, "iTerm.app") {
            return true;
        }
    }
    match lc_terminal {
        Some(name) => same_text(name, "iTerm.app"),
        None => false,
    }
}

/// What is wrong with a file or directory that should be the user's own.
#[derive(Clone, Copy, Debug, PartialEq, Eq, Structural)]
pub enum PrivacyIssue {
    /// It is of another kind.
    WrongKind,
    /// It belongs to someone else.
    NotOwned,
    /// Others may use it; these are its permissions.
    Permissions(u32),
}

/// Whether a file that the user named can be written to: a regular file of
/// the user's own that nobody else may use.
pub fn check_trace_file(regular: bool, owner: u32, user: u32, permissions: u32) -> (r: Result<
    (),
    PrivacyIssue,
>)
    ensures
        r == (if !regular {
            Err(PrivacyIssue::WrongKind)
        } else if owner != user {
            Err(PrivacyIssue::NotOwned)
        } else if permissions % 512 != 384 {
            Err(PrivacyIssue::Permissions((permissions % 512) as u32))
        } else {
            Ok(())
        }),
{
    if !regular {
        return Err(PrivacyIssue::WrongKind);
    }
    if owner != user {
        return Err(PrivacyIssue::NotOwned);
    }
    let mode: u32 = permissions % 512;
    if mode != 384 {
        return Err(PrivacyIssue::Permissions(mode));
    }
    Ok(())
}

/// Whether a file or directory of the program can be used: of the kind it
/// should be, and the user's own.
pub fn check_own(expected_kind: bool, owner: u32, user: u32) -> (r: Result<(), PrivacyIssue>)
    ensures
        r == (if !expected_kind {
            Err(PrivacyIssue::WrongKind)
        } else if owner != user {
            Err(PrivacyIssue::NotOwned)
        } else {
            Ok(())
        }),
{
    if !expected_kind {
        return Err(PrivacyIssue::WrongKind);
    }
    if owner != user {
        return Err(PrivacyIssue::NotOwned);
    }
    Ok(())
}

/// The size of a terminal, in cells and in pixels.
#[derive(Clone, Copy, Debug, PartialEq, Eq, Structural)]
pub struct TerminalSize {
    pub rows: u16,
    pub cols: u16,
    pub pixel_width: u16,
    pub pixel_height: u16,
}

/// The size that a terminal told, if it told one.
pub fn told_terminal_size(told: bool, size: TerminalSize) -> (r: Option<TerminalSize>)
    ensures
        r == (if !told || size.rows == 0 || size.cols == 0 {
            None
        } else {
            Some(size)
        }),
{
    if !told || size.rows == 0 || size.cols == 0 {
        return None;
    }
    Some(size)
}

/// The size to use: that of a standard terminal where none is told.
pub fn fallback_pty_size(size: Option<TerminalSize>) -> (r: TerminalSize)
    ensures
        r == (match size {
            Some(told) => told,
            None => (TerminalSize { rows: 24, cols: 80, pixel_width: 0, pixel_height: 0 }),
        }),
{
    match size {
        Some(told) => told,
        None => TerminalSize { rows: 24, cols: 80, pixel_width: 0, pixel_height: 0 },
    }
}

} // verus!
