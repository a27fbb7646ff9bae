use prismtty::completion::{
    harden_bash_filename_completion, name_zsh_aliases, BASH_SAFE_COMPGEN_HELPER,
};
use prismtty::options::{
    auto_detect_enabled, color_mode_for_context, dynamic_profile_enabled, env_flag_value_enabled,
    names_truecolor, select_action, select_profile_names_with_store, should_continue_auto_detect,
    stdin_mode_interactive_highlighting, Action, Options,
};
use prismtty::process::{
    check_own, check_trace_file, exit_code_byte, exit_code_from_wait, fallback_pty_size,
    iterm_shell_integration_guard, parent_terminal_is_iterm, pid_from_name,
    process_is_alive_from_kill_result, told_terminal_size, EnvStep, PrivacyIssue, ReloadWatcher,
    TerminalSize, WaitOutcome,
};
use prismtty::profiles_dir::{
    check_file_len, check_read_len, enforce_profiles_d_budget, enforce_profiles_d_entry_budget,
    is_yaml_extension, MAX_PROFILES_D_BYTES, MAX_PROFILES_D_ENTRIES, MAX_PROFILES_D_FILES,
};
use prismtty::reporter::ProfileReporter;
use prismtty::style::ColorMode;
use prismtty::trace::{trace_hex, trace_line};
use prismtty::ProfileStore;

fn texts(words: &[&str]) -> Vec<String> {
    words.iter().map(|word| word.to_string()).collect()
}

#[test]
fn profiles_d_budget_accepts_exact_limits() {
    assert!(
        enforce_profiles_d_budget(
            MAX_PROFILES_D_FILES,
            MAX_PROFILES_D_BYTES,
        )
        .is_ok()
    );
}

#[test]
fn profiles_d_budget_rejects_excess_files_or_bytes() {
    let too_many = enforce_profiles_d_budget(
        MAX_PROFILES_D_FILES + 1,
        MAX_PROFILES_D_BYTES,
    )
    .expect_err("one extra profile file must be rejected")
    .message();
    assert!(too_many.contains("profile files"), "{too_many}");

    let too_large = enforce_profiles_d_budget(
        MAX_PROFILES_D_FILES,
        MAX_PROFILES_D_BYTES + 1,
    )
    .expect_err("one extra aggregate byte must be rejected")
    .message();
    assert!(too_large.contains("aggregate size"), "{too_large}");
}

#[test]
fn profiles_d_directory_entry_budget_has_an_exact_boundary() {
    assert!(enforce_profiles_d_entry_budget(MAX_PROFILES_D_ENTRIES).is_ok());
    let error = enforce_profiles_d_entry_budget(MAX_PROFILES_D_ENTRIES + 1)
        .expect_err("one extra directory entry must be rejected")
        .message();
    assert!(error.contains("directory entries"), "{error}");
}

#[test]
fn interactive_color_mode_keeps_truecolor_when_terminal_supports_it() {
    let options = Options::default();
    assert_eq!(
        color_mode_for_context(&options, true, true),
        ColorMode::TrueColor
    );
    assert_eq!(
        color_mode_for_context(&options, true, false),
        ColorMode::Xterm256
    );

    let options = Options {
        force_rgb: true,
        ..Options::default()
    };
    assert_eq!(
        color_mode_for_context(&options, true, true),
        ColorMode::TrueColor
    );
}

#[test]
fn profile_reporter_waits_for_auto_detect_promotion() {
    let mut reporter = ProfileReporter::new(true, true);

    assert!(reporter.message_for(&vec!["generic".to_string()]).is_none());
    assert_eq!(
        reporter.message_for(&vec!["generic".to_string(), "cisco".to_string()]),
        Some("prismtty: profiles selected: generic, cisco".to_string())
    );
}

#[test]
fn profile_reporter_escapes_untrusted_profile_names() {
    let mut reporter = ProfileReporter::new(true, false);
    let message = reporter
        .message_for(&vec!["router\u{1b}]0;title\u{7}".to_string()])
        .expect("forced profile is reported");

    assert_eq!(
        message,
        "prismtty: profiles selected: router\\x1b]0;title\\x07"
    );
}

#[test]
fn dynamic_profile_switching_is_default_only_for_interactive_auto_detect() {
    let options = Options::default();
    assert!(dynamic_profile_enabled(&options, true));
    assert!(!dynamic_profile_enabled(&options, false));

    let forced = Options {
        profiles: vec!["juniper".to_string()],
        ..Options::default()
    };
    assert!(!dynamic_profile_enabled(&forced, true));

    let no_auto = Options {
        no_auto_detect: true,
        ..Options::default()
    };
    assert!(!dynamic_profile_enabled(&no_auto, true));

    let opt_out = Options {
        no_dynamic_profile: true,
        ..Options::default()
    };
    assert!(!dynamic_profile_enabled(&opt_out, true));
}

#[test]
fn env_flag_value_distinguishes_on_and_off() {
    for on in ["1", "true", "yes", "on", "enabled"] {
        assert!(
            env_flag_value_enabled(on),
            "{on:?} should be enabled"
        );
    }
    for off in ["0", "false", "no", "off", "", "  0  "] {
        assert!(
            !env_flag_value_enabled(off),
            "{off:?} should be disabled"
        );
    }
}

#[test]
fn stdin_mode_uses_interactive_highlighting_when_output_is_terminal() {
    assert!(stdin_mode_interactive_highlighting(true));
    assert!(!stdin_mode_interactive_highlighting(false));
}

#[test]
fn trace_hex_encodes_bytes_for_diagnostics() {
    assert_eq!(trace_hex(b"echo\r\n"), "65 63 68 6f 0d 0a");
}

#[test]
fn exit_code_byte_clamps_codes_above_255() {
    assert_eq!(exit_code_byte(0), 0);
    assert_eq!(exit_code_byte(1), 1);
    assert_eq!(exit_code_byte(255), 255);
    assert_eq!(exit_code_byte(256), 255);
    assert_eq!(exit_code_byte(u32::MAX), 255);
}

#[test]
fn exit_code_from_wait_maps_signal_deaths_to_128_plus_signal() {
    assert_eq!(exit_code_from_wait(WaitOutcome::Exited(0)), 0);
    assert_eq!(exit_code_from_wait(WaitOutcome::Exited(42)), 42);
    assert_eq!(exit_code_from_wait(WaitOutcome::Signaled(15)), 143);
    assert_eq!(exit_code_from_wait(WaitOutcome::Signaled(11)), 139);
    assert_eq!(exit_code_from_wait(WaitOutcome::Exited(-1)), 255);
    assert_eq!(exit_code_from_wait(WaitOutcome::Other), 1);
}

#[test]
fn process_liveness_treats_permission_denied_as_alive() {
    assert!(process_is_alive_from_kill_result(-1, Some(nix::libc::EPERM)));
    assert!(!process_is_alive_from_kill_result(-1, Some(nix::libc::ESRCH)));
    assert!(process_is_alive_from_kill_result(0, None));
}

#[test]
fn pty_size_falls_back_to_standard_terminal_dimensions() {
    let standard = portable_pty::PtySize::default();
    assert_eq!(
        fallback_pty_size(None),
        TerminalSize { rows: 24, cols: 80, pixel_width: 0, pixel_height: 0 }
    );
    assert_eq!((standard.rows, standard.cols), (24, 80));
    let small = TerminalSize { rows: 0, cols: 80, pixel_width: 1, pixel_height: 1 };
    assert_eq!(told_terminal_size(true, small), None);
    let real = TerminalSize { rows: 50, cols: 132, pixel_width: 1, pixel_height: 2 };
    assert_eq!(told_terminal_size(true, real), Some(real));
    assert_eq!(told_terminal_size(false, real), None);
    assert_eq!(fallback_pty_size(Some(real)), real);
}

fn applied(
    environment: &[(&str, &str)],
    steps: &[EnvStep],
) -> Vec<(String, String)> {
    let mut all: Vec<(String, String)> =
        environment.iter().map(|(k, v)| (k.to_string(), v.to_string())).collect();
    for step in steps {
        match step {
            EnvStep::Preserve { from, to } => {
                if let Some((_, value)) = all.iter().find(|(k, _)| k == from).cloned() {
                    all.push((to.clone(), value));
                }
            }
            EnvStep::Remove(name) => all.retain(|(k, _)| k != name),
            EnvStep::Assign { name, value } => all.push((name.clone(), value.clone())),
        }
    }
    all
}

#[test]
fn iterm_shell_integration_guard_removes_nested_iterm_environment() {
    let parent = [
        ("TERM_PROGRAM", "iTerm.app"),
        ("TERM_PROGRAM_VERSION", "3.6.0"),
        ("LC_TERMINAL", "iTerm.app"),
        ("LC_TERMINAL_VERSION", "3.6.0"),
        ("ITERM_SESSION_ID", "w0t0p0"),
        ("ITERM_PROFILE", "Default"),
    ];
    let child = applied(&parent, &iterm_shell_integration_guard(true, true));
    let get = |key: &str| child.iter().find(|(k, _)| k == key).map(|(_, v)| v.as_str());

    for (key, value) in parent {
        assert!(get(key).is_none(), "{key} should be removed");
        assert_eq!(get(&format!("PRISMTTY_PARENT_{key}")), Some(value));
    }
    assert_eq!(get("ITERM2_SQUELCH_MARK"), Some("1"));
    assert_eq!(get("ITERM_SHELL_INTEGRATION_INSTALLED"), Some("prismtty"));
    assert_eq!(get("PRISMTTY_NESTED_ITERM"), Some("1"));
}

#[test]
fn iterm_shell_integration_guard_keeps_environment_for_non_iterm_or_noninteractive() {
    assert!(iterm_shell_integration_guard(true, false).is_empty());
    assert!(iterm_shell_integration_guard(false, true).is_empty());
    assert!(parent_terminal_is_iterm(true, None, None));
    assert!(parent_terminal_is_iterm(false, Some("iTerm.app"), None));
    assert!(parent_terminal_is_iterm(false, Some("xterm"), Some("iTerm.app")));
    assert!(!parent_terminal_is_iterm(false, Some("xterm"), None));
}

fn action_of(args: &[&str], command: &[&str]) -> Action {
    select_action(false, false, false, &texts(args), &texts(command)).expect("arguments parse")
}

#[test]
fn parser_contract_double_dash_allows_wrapped_profiles_command() {
    assert!(matches!(
        action_of(&["--profile", "cisco", "--", "profiles", "list"], &["profiles", "list"]),
        Action::Run
    ));
}

#[test]
fn parser_contract_double_dash_inside_profiles_subcommand_is_stripped() {
    let command = ["profiles", "test", "cisco", "--", "fixture.txt"];
    match action_of(&command, &command) {
        Action::ProfilesTest { profile, fixture } => {
            assert_eq!(profile, "cisco");
            assert_eq!(command[fixture], "fixture.txt");
        }
        other => panic!("unexpected action {other:?}"),
    }
    let command = ["profiles", "validate", "--", "custom.yml"];
    match action_of(&command, &command) {
        Action::ProfilesValidate(path) => assert_eq!(command[path], "custom.yml"),
        other => panic!("unexpected action {other:?}"),
    }
}

#[test]
fn parser_contract_profiles_show_without_name_is_usage_error_for_show() {
    let command = texts(&["profiles", "show"]);
    let message = select_action(false, false, false, &command, &command)
        .expect_err("a profile name is required")
        .message();

    assert!(message.contains("profiles show"));
}

#[test]
fn parser_contract_profiles_subcommands_parse_after_global_options() {
    match action_of(
        &["--profile", "generic", "profiles", "show", "cisco"],
        &["profiles", "show", "cisco"],
    ) {
        Action::ProfilesShow(name) => assert_eq!(name, "cisco"),
        other => panic!("unexpected action {other:?}"),
    }
}

#[test]
fn every_usage_error_names_what_is_missing() {
    for (command, expected) in [
        (vec!["profiles", "show"], "profiles show required value: profile name"),
        (vec!["profiles", "validate", "--"], "profiles validate required value: profile path"),
        (vec!["profiles", "test"], "profiles test required value: profile name"),
        (vec!["profiles", "test", "cisco"], "profiles test required value: fixture path"),
        (vec!["profiles", "edit"], "unknown profiles subcommand 'edit'"),
    ] {
        let command = texts(&command);
        let error = select_action(false, false, false, &command, &command)
            .expect_err("the command is incomplete");
        assert_eq!(error.message(), expected);
    }
}

#[test]
fn switches_come_before_commands() {
    let none = texts(&[]);
    let profiles = texts(&["profiles"]);
    assert!(matches!(select_action(true, true, true, &none, &profiles), Ok(Action::Help)));
    assert!(matches!(select_action(false, true, true, &none, &profiles), Ok(Action::Version)));
    assert!(matches!(select_action(false, false, true, &none, &profiles), Ok(Action::Reload)));
    assert!(matches!(action_of(&["profiles"], &["profiles"]), Action::ProfilesList));
    assert!(matches!(action_of(&["profiles", "list"], &["profiles", "list"]), Action::ProfilesList));
    assert!(matches!(action_of(&[], &[]), Action::Stdin));
    assert!(matches!(action_of(&["ssh", "router"], &["ssh", "router"]), Action::Run));
}

#[test]
fn profiles_are_forced_detected_or_generic() {
    let store = ProfileStore::builtin();
    let banner = b"\x1b[1m--- JUNOS 22.4R3 Kernel 64-bit\x1b[0m\n";
    let forced = Options { profiles: texts(&["cisco", "versa"]), ..Options::default() };
    assert_eq!(
        select_profile_names_with_store(&forced, &store, banner),
        texts(&["cisco", "versa"])
    );
    let plain = Options { no_auto_detect: true, ..Options::default() };
    assert_eq!(select_profile_names_with_store(&plain, &store, banner), texts(&["generic"]));
    let detecting = Options::default();
    assert_eq!(
        select_profile_names_with_store(&detecting, &store, banner),
        texts(&["generic", "juniper"])
    );
    assert!(auto_detect_enabled(&detecting));
    assert!(should_continue_auto_detect(&detecting, &texts(&["generic"])));
    assert!(!should_continue_auto_detect(&detecting, &texts(&["generic", "cisco"])));
    assert!(!should_continue_auto_detect(&plain, &texts(&["generic"])));
}

#[test]
fn terminals_name_their_color_depth() {
    assert!(names_truecolor("truecolor"));
    assert!(names_truecolor("24bit"));
    assert!(!names_truecolor("256"));
}

#[test]
fn reporters_do_not_repeat_themselves() {
    let mut reporter = ProfileReporter::new(true, false);
    assert!(reporter.message_for(&texts(&["generic"])).is_some());
    assert!(reporter.message_for(&texts(&["generic"])).is_none());
    assert!(reporter.message_for(&texts(&["cisco"])).is_some());
    let mut silent = ProfileReporter::new(false, false);
    assert!(silent.message_for(&texts(&["cisco"])).is_none());
}

#[test]
fn trace_lines_have_fixed_width_times() {
    assert_eq!(trace_line(7, 42, "IN", b"a\r"), "   7.000042 IN 61 0d");
    assert_eq!(trace_line(12345, 999999, "OUT", b""), "12345.999999 OUT ");
    assert_eq!(trace_hex(b""), "");
}

#[test]
fn pid_files_are_named_after_processes() {
    assert_eq!(pid_from_name("4242"), Some(4242));
    assert_eq!(pid_from_name("+7"), Some(7));
    assert_eq!(pid_from_name("4294967295"), Some(u32::MAX));
    for name in ["", "+", "12a", "-1", "4294967296", "99999999999"] {
        assert_eq!(pid_from_name(name), None, "{name}");
        assert!(name.parse::<u32>().is_err());
    }
}

#[test]
fn reloads_are_noticed_once() {
    let mut watcher = ReloadWatcher::new(None);
    assert!(!watcher.reload_requested(None));
    assert!(watcher.reload_requested(Some(5)));
    assert!(!watcher.reload_requested(Some(5)));
    assert!(!watcher.reload_requested(None));
    assert!(watcher.reload_requested(Some(6)));
}

#[test]
fn private_files_are_regular_owned_and_closed_to_others() {
    assert_eq!(check_trace_file(true, 10, 10, 0o100600), Ok(()));
    assert_eq!(check_trace_file(false, 10, 10, 0o600), Err(PrivacyIssue::WrongKind));
    assert_eq!(check_trace_file(true, 11, 10, 0o600), Err(PrivacyIssue::NotOwned));
    assert_eq!(check_trace_file(true, 10, 10, 0o644), Err(PrivacyIssue::Permissions(0o644)));
    assert_eq!(check_own(true, 10, 10), Ok(()));
    assert_eq!(check_own(false, 10, 10), Err(PrivacyIssue::WrongKind));
    assert_eq!(check_own(true, 0, 10), Err(PrivacyIssue::NotOwned));
}

#[test]
fn budget_messages_are_exact() {
    assert_eq!(
        enforce_profiles_d_budget(129, 0).unwrap_err().message(),
        "profiles.d contains 129 profile files; limit is 128"
    );
    assert_eq!(
        enforce_profiles_d_budget(1, 8388609).unwrap_err().message(),
        "profiles.d aggregate size is 8388609 bytes; limit is 8388608 bytes"
    );
    assert_eq!(
        enforce_profiles_d_entry_budget(1025).unwrap_err().message(),
        "profiles.d contains more than 1024 directory entries"
    );
    assert_eq!(
        check_file_len("config", 11, 10),
        Err("config file is too large (11 bytes; limit 10)".to_string())
    );
    assert_eq!(check_file_len("config", 10, 10), Ok(()));
    assert_eq!(
        check_read_len("config", 11, 10),
        Err("config file is too large (more than 10 bytes)".to_string())
    );
    assert_eq!(check_read_len("config", 10, 10), Ok(()));
    assert!(is_yaml_extension(Some("yml")));
    assert!(is_yaml_extension(Some("yaml")));
    assert!(!is_yaml_extension(Some("txt")));
    assert!(!is_yaml_extension(None));
}

#[test]
fn completions_keep_candidates_whole() {
    let generated = "a\nCOMPREPLY=( $(compgen -W \"${opts}\" -- \"${cur}\") )\nCOMPREPLY=($(compgen -f \"${cur}\"))\n";
    assert_eq!(
        harden_bash_filename_completion(generated),
        Some(format!(
            "{BASH_SAFE_COMPGEN_HELPER}a\n_prismtty_compgen -W \"${{opts}}\" -- \"${{cur}}\"\n_prismtty_compgen -f -- \"${{cur}}\"\n"
        ))
    );
    assert_eq!(harden_bash_filename_completion("COMPREPLY=($(compgen -x))"), None);
    assert_eq!(
        name_zsh_aliases("#compdef prismtty\n#compdef prismtty\n"),
        Some("#compdef prismtty ptty ct\n#compdef prismtty\n".to_string())
    );
    assert_eq!(name_zsh_aliases("#compdef other\n"), None);
}
