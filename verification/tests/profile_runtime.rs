use prismtty::profile_runtime::{ProfileRuntime, CLOSE_MARKER_WINDOW_LIMIT, PROFILE_STACK_LIMIT};
use prismtty::remote::{observed_close_markers, ClosePolicy, RemoteAttempt};
use prismtty::ProfileStore;

fn names(profiles: &[&str]) -> Vec<String> {
    profiles.iter().map(|profile| profile.to_string()).collect()
}

fn contains_close_marker(text: &str) -> bool {
    let chars: Vec<char> = text.chars().collect();
    !observed_close_markers(&chars).is_empty()
}

fn pending(runtime: &ProfileRuntime) -> Option<(ClosePolicy, Option<String>)> {
    runtime
        .state()
        .pending_remote
        .as_ref()
        .map(|attempt| (attempt.policy, attempt.target.as_ref().map(|t| t.iter().collect())))
}

fn pending_target(runtime: &ProfileRuntime) -> Option<String> {
    pending(runtime).and_then(|(_, target)| target)
}

#[test]
fn learns_linux_baseline_from_local_shell_output() {
    let store = ProfileStore::builtin();
    let mut runtime = ProfileRuntime::new(names(&["generic"]));

    let changed = runtime.observe_output(
        b"OS: Ubuntu 24.04.4 LTS\nKernel: Linux 6.8.0\nTerminal: /dev/pts/1\n",
        &store,
    );

    assert_eq!(changed, Some(names(&["generic", "linux-unix"])));
    assert_eq!(runtime.active_profiles(), names(&["generic", "linux-unix"]));
}

#[test]
fn promotes_to_remote_vendor_after_ssh_input_hint() {
    let store = ProfileStore::builtin();
    let mut runtime = ProfileRuntime::new(names(&["generic", "linux-unix"]));

    runtime.observe_input(b"ssh router-a\r");
    let changed = runtime.observe_output(b"--- JUNOS 22.4R3 Kernel 64-bit\n", &store);

    assert_eq!(changed, Some(names(&["generic", "juniper"])));
    assert_eq!(runtime.active_profiles(), names(&["generic", "juniper"]));
}

#[test]
fn strong_banner_cycle_unwinds_existing_profiles_instead_of_growing_stack() {
    let store = ProfileStore::builtin();
    let mut runtime = ProfileRuntime::new(names(&["generic", "linux-unix"]));

    runtime.observe_input(b"ssh router-a\r");
    assert_eq!(
        runtime.observe_output(b"Cisco IOS Software\n", &store),
        Some(names(&["generic", "cisco"]))
    );
    assert_eq!(
        runtime.observe_output(b"--- JUNOS 22.4R3 Kernel 64-bit\n", &store),
        Some(names(&["generic", "juniper"]))
    );
    assert_eq!(
        runtime.observe_output(b"Version: FortiGate v7.2.8\n", &store),
        Some(names(&["generic", "fortinet"]))
    );

    for _ in 0..4 {
        assert_eq!(
            runtime.observe_output(b"Cisco IOS Software\n", &store),
            Some(names(&["generic", "cisco"]))
        );
        assert_eq!(
            runtime.observe_output(b"--- JUNOS 22.4R3 Kernel 64-bit\n", &store),
            Some(names(&["generic", "juniper"]))
        );
        assert_eq!(
            runtime.observe_output(b"Version: FortiGate v7.2.8\n", &store),
            Some(names(&["generic", "fortinet"]))
        );
    }

    assert!(
        runtime.stack_len() <= 3,
        "cycling through known strong profiles should not grow the profile stack without bound"
    );
}

#[test]
fn dynamic_detection_defers_small_banner_chunks_until_newline() {
    let store = ProfileStore::builtin();
    let mut runtime = ProfileRuntime::new(names(&["generic", "linux-unix"]));

    assert_eq!(
        runtime.observe_output(b"Cisco Nexus Operating System (NX-OS) Software", &store),
        None
    );
    assert_eq!(runtime.active_profiles(), names(&["generic", "linux-unix"]));

    assert_eq!(
        runtime.observe_output(b"\n", &store),
        Some(names(&["generic", "cisco"]))
    );
    assert_eq!(runtime.active_profiles(), names(&["generic", "cisco"]));
}

#[test]
fn oversized_input_line_is_invalidated_until_newline() {
    let mut runtime = ProfileRuntime::new(names(&["generic", "linux-unix"]));

    runtime.observe_input(&vec![b'a'; 8192]);

    assert!(runtime.input_line().is_empty());
    assert!(!runtime.input_line_reliable());
    runtime.observe_input(b"\rssh router-a\r");
    assert!(runtime.input_line_reliable());
    assert_eq!(
        pending_target(&runtime).as_deref(),
        Some("router-a")
    );
}

// getopt-style commands accept combined short flags (`-4p 2222`) and
// attached values (`-p2222`); the close target must still be the host.
#[test]
fn combined_short_options_do_not_shift_the_remote_target() {
    for line in [
        "ssh -4p 2222 router-a\r",
        "ssh -vp 2222 router-a\r",
        "ssh -p2222 router-a\r",
        "ssh -4p2222 router-a\r",
        "ssh -46 router-a\r",
    ] {
        let mut runtime = ProfileRuntime::new(names(&["generic", "linux-unix"]));
        runtime.observe_input(line.as_bytes());
        assert_eq!(
            pending_target(&runtime).as_deref(),
            Some("router-a"),
            "{line:?}"
        );
    }
}

#[test]
fn split_close_marker_pops_remote_profile() {
    let store = ProfileStore::builtin();
    let mut runtime = ProfileRuntime::new(names(&["generic", "linux-unix"]));

    runtime.observe_input(b"ssh router-a\r");
    assert_eq!(
        runtime.observe_output(b"--- JUNOS 22.4R3 Kernel 64-bit\n", &store),
        Some(names(&["generic", "juniper"]))
    );

    assert_eq!(runtime.observe_output(b"Connection clo", &store), None);
    let changed = runtime.observe_output(b"sed\r\n", &store);

    assert_eq!(changed, Some(names(&["generic", "linux-unix"])));
    assert_eq!(runtime.active_profiles(), names(&["generic", "linux-unix"]));
}

// A read boundary can split a benign line right after a marker-shaped
// prefix; only terminated lines may count as teardown markers.
#[test]
fn partial_trailing_line_is_not_a_close_marker() {
    let store = ProfileStore::builtin();
    let mut runtime = ProfileRuntime::new(names(&["generic", "linux-unix"]));

    runtime.observe_input(b"ssh router-a\r");
    assert_eq!(
        runtime.observe_output(b"--- JUNOS 22.4R3 Kernel 64-bit\n", &store),
        Some(names(&["generic", "juniper"]))
    );

    assert_eq!(
        runtime.observe_output(b"Connection to router-a closed", &store),
        None
    );
    assert_eq!(
        runtime.observe_output(b" by administrator.\r\n", &store),
        None
    );
    assert_eq!(runtime.active_profiles(), names(&["generic", "juniper"]));

    // The genuine marker still pops once its line is complete.
    assert_eq!(
        runtime.observe_output(b"Connection to router-a closed.\r\n", &store),
        Some(names(&["generic", "linux-unix"]))
    );
}

#[test]
fn unsolicited_close_marker_does_not_change_an_unarmed_profile() {
    let store = ProfileStore::builtin();
    let mut runtime = ProfileRuntime::new(names(&["generic", "linux-unix"]));
    runtime.switch_to(names(&["generic", "juniper"]), None, false);

    let changed = runtime.observe_output(b"Connection to unrelated-host closed.\n", &store);

    assert_eq!(changed, None);
    assert_eq!(runtime.active_profiles(), names(&["generic", "juniper"]));
    assert_eq!(runtime.stack_len(), 0);
}

// Only a teardown-shaped line should count as a close marker; benign output
// that merely contains the words must not pop the profile.
#[test]
fn close_marker_requires_a_teardown_shaped_line() {
    assert!(contains_close_marker(
        "connection to 192.0.2.5 closed.\n"
    ));
    assert!(contains_close_marker(
        "connection closed by remote host\r\n"
    ));
    assert!(contains_close_marker("logout\n"));

    assert!(!contains_close_marker(
        "apr 01 connection to 192.0.2.5 closed and reopened\n"
    ));
    assert!(!contains_close_marker(
        "the connection closed flag is documented here\n"
    ));
    assert!(!contains_close_marker(
        "connection closed flag is false\n"
    ));
}

#[test]
fn remote_hint_promotes_fortinet_on_first_prompt() {
    let store = ProfileStore::builtin();
    let mut runtime = ProfileRuntime::new(names(&["generic", "linux-unix"]));

    runtime.observe_input(b"ssh firewall-a\r");
    let changed = runtime.observe_output(b"FW-EDGE # ", &store);

    assert_eq!(changed, Some(names(&["generic", "fortinet"])));
    assert_eq!(runtime.active_profiles(), names(&["generic", "fortinet"]));
    assert_eq!(runtime.stack_len(), 1);
    assert_eq!(
        runtime.observe_output(b"Connection to firewall-a closed.\n", &store),
        Some(names(&["generic", "linux-unix"]))
    );
}

#[test]
fn local_shell_wrapper_command_promotes_fortinet_on_first_prompt() {
    let store = ProfileStore::builtin();
    let mut runtime = ProfileRuntime::new(names(&["generic", "linux-unix"]));

    runtime.observe_input(b"fw\r");
    let changed = runtime.observe_output(b"FW-EDGE # ", &store);

    assert_eq!(changed, Some(names(&["generic", "fortinet"])));
    assert_eq!(runtime.active_profiles(), names(&["generic", "fortinet"]));
    assert_eq!(runtime.stack_len(), 1);
    assert_eq!(
        runtime.observe_output(b"Connection to fw closed.\n", &store),
        Some(names(&["generic", "linux-unix"]))
    );
}

#[test]
fn promotes_all_builtin_remote_profiles_from_strong_banners() {
    let store = ProfileStore::builtin();

    for (sample, expected) in [
        (
            "--- JUNOS 22.4R3 Kernel 64-bit\n",
            names(&["generic", "juniper"]),
        ),
        (
            "Cisco Nexus Operating System (NX-OS) Software\n",
            names(&["generic", "cisco"]),
        ),
        (
            "Version: FortiGate-VM64 v7.4\n",
            names(&["generic", "fortinet"]),
        ),
        ("ArubaOS-CX Version 10.13\n", names(&["generic", "arubacx"])),
        (
            "Arista Networks EOS version 4.31\n",
            names(&["generic", "arista"]),
        ),
        ("PAN-OS 11.1\n", names(&["generic", "palo-alto"])),
        ("Versa Director 22.1\n", names(&["generic", "versa"])),
    ] {
        let mut runtime = ProfileRuntime::new(names(&["generic", "linux-unix"]));
        assert_eq!(
            runtime.observe_output(sample.as_bytes(), &store),
            Some(expected)
        );
        assert_eq!(runtime.stack_len(), 1);
        assert_eq!(
            runtime.observe_output(b"Connection closed.\n", &store),
            Some(names(&["generic", "linux-unix"]))
        );
    }
}

#[test]
fn weak_generic_output_does_not_downgrade_remote_profile() {
    let store = ProfileStore::builtin();
    let mut runtime = ProfileRuntime::new(names(&["generic", "juniper"]));

    let changed = runtime.observe_output(b"show configuration | display set\n", &store);

    assert_eq!(changed, None);
    assert_eq!(runtime.active_profiles(), names(&["generic", "juniper"]));
}

#[test]
fn active_remote_ignores_weak_command_output_from_other_profiles() {
    let store = ProfileStore::builtin();
    let mut runtime = ProfileRuntime::new(names(&["generic", "linux-unix"]));

    runtime.observe_input(b"ssh router-a\r");
    assert_eq!(
        runtime.observe_output(b"--- JUNOS 22.4R3 Kernel 64-bit\n", &store),
        Some(names(&["generic", "juniper"]))
    );

    let changed = runtime.observe_output(
        b"show interfaces descriptions\nshow ip route\nrouter ospf 1\ndiagnose debug flow\n",
        &store,
    );

    assert_eq!(changed, None);
    assert_eq!(runtime.active_profiles(), names(&["generic", "juniper"]));
}

#[test]
fn active_remote_does_not_accumulate_multiple_specific_profiles() {
    let store = ProfileStore::builtin();
    let mut runtime = ProfileRuntime::new(names(&["generic", "linux-unix"]));

    runtime.observe_input(b"ssh router-a\r");
    assert_eq!(
        runtime.observe_output(b"--- JUNOS 22.4R3 Kernel 64-bit\nlabuser@mx480>\n", &store,),
        Some(names(&["generic", "juniper"]))
    );

    for chunk in [
        b"labuser@mx480> show interfaces descriptions\nshow ip route\n".as_slice(),
        b"labuser@mx480> show interfaces descriptions\nshow ip route\n".as_slice(),
    ] {
        assert_eq!(runtime.observe_output(chunk, &store), None);
    }

    assert_eq!(runtime.active_profiles(), names(&["generic", "juniper"]));
}

#[test]
fn locked_remote_requires_remote_hint_before_prompt_based_switch() {
    let store = ProfileStore::builtin();
    let mut runtime = ProfileRuntime::new(names(&["generic", "juniper"]));

    assert_eq!(runtime.observe_output(b"CoreSW#\n", &store), None);
    assert_eq!(runtime.observe_output(b"CoreSW#\n", &store), None);
    assert_eq!(runtime.active_profiles(), names(&["generic", "juniper"]));

    runtime.observe_input(b"ssh core-sw\r");
    assert_eq!(runtime.observe_output(b"CoreSW#\n", &store), None);
    assert_eq!(
        runtime.observe_output(b"CoreSW#\n", &store),
        Some(names(&["generic", "cisco"]))
    );
}

#[test]
fn command_output_words_do_not_arm_remote_candidate() {
    let store = ProfileStore::builtin();
    let mut runtime = ProfileRuntime::new(names(&["generic", "cisco"]));

    assert_eq!(runtime.observe_output(b"cu\n", &store), None);
    assert_eq!(runtime.observe_output(b"FW-EDGE #\n", &store), None);
    assert_eq!(runtime.observe_output(b"FW-EDGE #\n", &store), None);
    assert_eq!(runtime.active_profiles(), names(&["generic", "cisco"]));
}

#[test]
fn active_cisco_ignores_fortinet_words_in_interface_descriptions() {
    let store = ProfileStore::builtin();
    let mut runtime = ProfileRuntime::new(names(&["generic", "cisco"]));

    let changed = runtime.observe_output(
        b"Eth1/46       eth  40G     [VPC37] FortiGate firewall uplink Eth1/49\n",
        &store,
    );

    assert_eq!(changed, None);
    assert_eq!(runtime.active_profiles(), names(&["generic", "cisco"]));
}

#[test]
fn nested_remote_close_pops_to_previous_profile() {
    let store = ProfileStore::builtin();
    let mut runtime = ProfileRuntime::new(names(&["generic", "linux-unix"]));

    runtime.observe_input(b"ssh router-a\r");
    assert_eq!(
        runtime.observe_output(b"--- JUNOS 22.4R3 Kernel 64-bit\n", &store),
        Some(names(&["generic", "juniper"]))
    );
    runtime.observe_input(b"ssh core-sw\r");
    assert_eq!(
        runtime.observe_output(b"Cisco Nexus Operating System (NX-OS) Software\n", &store),
        Some(names(&["generic", "cisco"]))
    );

    assert_eq!(
        runtime.observe_output(b"Connection to core-sw closed.\n", &store),
        Some(names(&["generic", "juniper"]))
    );
    assert_eq!(
        runtime.observe_output(b"Connection to router-a closed.\n", &store),
        Some(names(&["generic", "linux-unix"]))
    );
}

#[test]
fn one_remote_close_unwinds_all_banner_refinements_for_that_connection() {
    let store = ProfileStore::builtin();
    let mut runtime = ProfileRuntime::new(names(&["generic", "linux-unix"]));

    runtime.observe_input(b"ssh router-a\r");
    assert_eq!(
        runtime.observe_output(b"Cisco IOS Software\n", &store),
        Some(names(&["generic", "cisco"]))
    );
    assert_eq!(
        runtime.observe_output(b"--- JUNOS 22.4R3 Kernel 64-bit\n", &store),
        Some(names(&["generic", "juniper"]))
    );
    assert_eq!(runtime.stack_len(), 1);

    assert_eq!(
        runtime.observe_output(b"Connection to router-a closed.\n", &store),
        Some(names(&["generic", "linux-unix"]))
    );
    assert_eq!(runtime.stack_len(), 0);
}

#[test]
fn failed_nested_remote_attempt_does_not_pop_the_parent_connection() {
    let store = ProfileStore::builtin();
    let mut runtime = ProfileRuntime::new(names(&["generic", "linux-unix"]));

    runtime.observe_input(b"ssh router-a\r");
    runtime.observe_output(b"--- JUNOS 22.4R3 Kernel 64-bit\n", &store);
    runtime.observe_input(b"ssh missing-host\r");

    assert_eq!(
        runtime.observe_output(b"Connection to missing-host closed.\n", &store),
        None
    );
    assert_eq!(runtime.active_profiles(), names(&["generic", "juniper"]));
    assert_eq!(runtime.stack_len(), 1);
}

#[test]
fn edited_nested_attempt_does_not_mask_a_targeted_parent_close() {
    let store = ProfileStore::builtin();
    let mut runtime = ProfileRuntime::new(names(&["generic", "linux-unix"]));

    runtime.observe_input(b"ssh router-a\r");
    assert_eq!(
        runtime.observe_output(b"--- JUNOS 22.4R3 Kernel 64-bit\n", &store),
        Some(names(&["generic", "juniper"]))
    );
    runtime.accept_transition();
    runtime.observe_input(b"ssh hot\x1b[Ds\r");

    assert_eq!(
        runtime.observe_output(b"Connection to router-a closed.\n", &store),
        Some(names(&["generic", "linux-unix"]))
    );
    assert_eq!(pending(&runtime), None);
    assert_eq!(runtime.stack_len(), 0);
}

#[test]
fn failed_remote_open_followed_by_local_prompt_does_not_create_a_frame() {
    let store = ProfileStore::builtin();

    for failure in [
        "ssh: Could not resolve hostname missing: nodename nor servname provided\nuser@local$ ",
        "ssh: connect to host 192.0.2.10 port 22: Connection refused\nuser@local$ ",
        "user@missing: Permission denied (publickey,password).\nuser@local$ ",
        "Host key verification failed.\nuser@local$ ",
        "kex_exchange_identification: read: Connection reset by peer\nuser@local$ ",
    ] {
        let mut runtime = ProfileRuntime::new(names(&["generic", "linux-unix"]));
        runtime.observe_input(b"ssh missing\r");

        assert_eq!(runtime.observe_output(failure.as_bytes(), &store), None);
        assert_eq!(runtime.active_profiles(), names(&["generic", "linux-unix"]));
        assert_eq!(runtime.stack_len(), 0);
        assert!(runtime.at_local_baseline(&store));

        assert_eq!(
            runtime.observe_output(b"FW-EDGE # ", &store),
            Some(names(&["generic", "fortinet"]))
        );
    }
}

#[test]
fn close_marker_prose_does_not_pop_an_established_remote_profile() {
    let store = ProfileStore::builtin();
    let mut runtime = ProfileRuntime::new(names(&["generic", "linux-unix"]));
    runtime.observe_input(b"ssh router-a\r");
    runtime.observe_output(b"--- JUNOS 22.4R3 Kernel 64-bit\n", &store);

    assert_eq!(
        runtime.observe_output(b"Connection closed flag is false\n", &store),
        None
    );
    assert_eq!(runtime.active_profiles(), names(&["generic", "juniper"]));
    assert_eq!(runtime.stack_len(), 1);
    assert_eq!(
        runtime.observe_output(b"warning: channel was not closed by remote host.\n", &store),
        None
    );
    assert_eq!(runtime.stack_len(), 1);
}

#[test]
fn truncated_close_marker_window_does_not_turn_prose_into_a_teardown_line() {
    let store = ProfileStore::builtin();
    let mut runtime = ProfileRuntime::new(names(&["generic", "linux-unix"]));
    runtime.observe_input(b"ssh router-a\r");
    runtime.observe_output(b"--- JUNOS 22.4R3 Kernel 64-bit\n", &store);

    let marker = "connection closed";
    let tail = "x".repeat(CLOSE_MARKER_WINDOW_LIMIT - marker.len() - 1);
    let output = format!("status message says {marker}\n{tail}");
    assert_eq!(runtime.observe_output(output.as_bytes(), &store), None);
    assert_eq!(runtime.active_profiles(), names(&["generic", "juniper"]));
    assert_eq!(runtime.stack_len(), 1);
}

#[test]
fn supported_remote_commands_unwind_on_their_protocol_teardown_marker() {
    let store = ProfileStore::builtin();
    for (command, marker) in [
        ("ssh router", "Connection to router closed.\n"),
        ("mosh router", "Connection closed.\n"),
        ("telnet router", "Connection closed by foreign host.\n"),
        ("screen /dev/ttyUSB0", "[screen is terminating]\n"),
        ("cu -l /dev/ttyUSB0", "Disconnected.\n"),
        ("minicom router", "Leaving Minicom..\n"),
        ("picocom /dev/ttyUSB0", "Terminating...\n"),
    ] {
        let mut runtime = ProfileRuntime::new(names(&["generic", "linux-unix"]));
        runtime.observe_input(format!("{command}\r").as_bytes());
        assert_eq!(
            runtime.observe_output(b"--- JUNOS 22.4R3 Kernel 64-bit\n", &store),
            Some(names(&["generic", "juniper"]))
        );
        assert_eq!(
            runtime.observe_output(marker.as_bytes(), &store),
            Some(names(&["generic", "linux-unix"])),
            "{command} did not unwind on {marker:?}"
        );
    }
}

#[test]
fn ssh_option_values_with_spaces_preserve_the_close_target() {
    let store = ProfileStore::builtin();

    for command in [
        b"ssh -o \"ProxyCommand foo\" router-a\r".as_slice(),
        b"ssh -o 'ProxyCommand foo' router-a\r".as_slice(),
        b"ssh -o ProxyCommand\\ foo router-a\r".as_slice(),
        b"ssh -P work router-a\r".as_slice(),
    ] {
        let mut runtime = ProfileRuntime::new(names(&["generic", "linux-unix"]));
        runtime.observe_input(command);
        assert_eq!(
            runtime.observe_output(b"--- JUNOS 22.4R3 Kernel 64-bit\n", &store),
            Some(names(&["generic", "juniper"]))
        );
        assert_eq!(
            runtime.observe_output(b"Connection to router-a closed.\n", &store),
            Some(names(&["generic", "linux-unix"])),
            "command {command:?} retained the wrong SSH close target"
        );
    }
}

#[test]
fn input_tracking_handles_cancellation_line_kill_and_editing_controls() {
    let mut runtime = ProfileRuntime::new(names(&["generic", "linux-unix"]));

    runtime.observe_input(b"ssh cancelled\x03echo ok\r");
    assert_eq!(pending(&runtime), None);

    runtime.observe_input(b"ssh cancelled\x15echo ok\r");
    assert_eq!(pending(&runtime), None);

    runtime.observe_input(b"ssh hot\x1b[Ds\r");
    assert_eq!(
        pending(&runtime),
        Some((ClosePolicy::SshLike, None))
    );
    runtime = ProfileRuntime::new(names(&["generic", "linux-unix"]));

    runtime.observe_input(b"ssh wrong\x17router\r");
    assert_eq!(
        pending(&runtime),
        Some((ClosePolicy::SshLike, None))
    );
    runtime = ProfileRuntime::new(names(&["generic", "linux-unix"]));

    runtime.observe_input(b"\x1b[200~ssh router\x1b[201~\r");
    assert_eq!(
        pending(&runtime).map(|(policy, _)| policy),
        Some(ClosePolicy::SshLike)
    );
    runtime = ProfileRuntime::new(names(&["generic", "linux-unix"]));

    runtime.observe_input(b"ssh\x1bOD router\r");
    assert_eq!(
        pending(&runtime),
        Some((ClosePolicy::SshLike, None))
    );
}

#[test]
fn edited_nested_ssh_command_preserves_unknown_target_frame() {
    let store = ProfileStore::builtin();
    let mut runtime = ProfileRuntime::new(names(&["generic", "linux-unix"]));

    runtime.observe_input(b"ssh router-a\r");
    assert_eq!(
        runtime.observe_output(b"--- JUNOS 22.4R3 Kernel 64-bit\n", &store),
        Some(names(&["generic", "juniper"]))
    );
    runtime.accept_transition();

    runtime.observe_input(b"ssh hot\x1b[Ds\r");
    assert_eq!(
        runtime.observe_output(b"Version: FortiGate-VM64 v7.4.0\n", &store),
        Some(names(&["generic", "fortinet"]))
    );
    runtime.accept_transition();
    assert_eq!(runtime.stack_len(), 2);

    assert_eq!(
        runtime.observe_output(b"Connection closed.\n", &store),
        Some(names(&["generic", "juniper"]))
    );
    assert_eq!(runtime.stack_len(), 1);
    assert_eq!(
        runtime.observe_output(b"Connection to router-a closed.\n", &store),
        Some(names(&["generic", "linux-unix"]))
    );
    assert_eq!(runtime.stack_len(), 0);
}

#[test]
fn edited_ssh_from_generic_does_not_learn_remote_linux_as_baseline() {
    let store = ProfileStore::builtin();
    let mut runtime = ProfileRuntime::new(names(&["generic"]));

    runtime.observe_input(b"ssh hot\x1b[Ds\r");
    assert!(runtime.state().baseline_locked);
    assert_eq!(
        runtime.observe_output(
            b"OS: Ubuntu 24.04.4 LTS\nKernel: Linux 6.8.0\nTerminal: /dev/pts/1\n",
            &store,
        ),
        Some(names(&["generic", "linux-unix"]))
    );
    assert_eq!(runtime.stack_len(), 1);

    assert_eq!(
        runtime.observe_output(b"Connection to host closed.\n", &store),
        Some(names(&["generic"]))
    );
    assert_eq!(runtime.stack_len(), 0);
}

#[test]
fn protocol_specific_open_failures_do_not_create_phantom_frames() {
    let store = ProfileStore::builtin();
    for (command, failure) in [
        (
            "telnet missing",
            "telnet: Unable to connect to remote host: Connection refused\nuser@local$ ",
        ),
        (
            "screen missing",
            "Cannot open your terminal '/dev/ttyUSB9' - please check.\nuser@local$ ",
        ),
        (
            "picocom /dev/ttyUSB9",
            "FATAL: cannot open /dev/ttyUSB9: No such file or directory\nuser@local$ ",
        ),
    ] {
        let mut runtime = ProfileRuntime::new(names(&["generic", "linux-unix"]));
        runtime.observe_input(format!("{command}\r").as_bytes());
        assert_eq!(runtime.observe_output(failure.as_bytes(), &store), None);
        assert_eq!(runtime.stack_len(), 0, "{command} created a phantom frame");
        assert!(runtime.at_local_baseline(&store));
    }
}

#[test]
fn parent_close_during_nested_attempt_unwinds_parent_by_target() {
    let store = ProfileStore::builtin();
    let mut runtime = ProfileRuntime::new(names(&["generic", "linux-unix"]));
    runtime.observe_input(b"ssh router-a\r");
    runtime.observe_output(b"--- JUNOS 22.4R3 Kernel 64-bit\n", &store);
    runtime.observe_input(b"ssh router-b\r");

    assert_eq!(
        runtime.observe_output(b"Disconnected.\nConnection to router-a closed.\n", &store,),
        Some(names(&["generic", "linux-unix"]))
    );
    assert_eq!(pending(&runtime), None);
    assert_eq!(runtime.stack_len(), 0);
}

#[test]
fn prompt_only_detection_requires_repetition_without_input_hint() {
    let store = ProfileStore::builtin();
    let mut runtime = ProfileRuntime::new(names(&["generic"]));

    assert_eq!(runtime.observe_output(b"labuser@mx480>\n", &store), None);
    assert_eq!(
        runtime.observe_output(b"labuser@mx480>\n", &store),
        Some(names(&["generic", "juniper"]))
    );
}

// Overflowing the profile stack must evict the OLDEST entry so the
// remaining history stays contiguous and pops restore the right profiles.
// The eviction used to always remove index 1, stranding the oldest entry
// forever and corrupting the restore order for deeply nested sessions.
#[test]
fn profile_stack_overflow_preserves_a_route_to_the_baseline() {
    let mut runtime = ProfileRuntime::new(names(&["generic"]));

    for index in 0..(PROFILE_STACK_LIMIT + 2) {
        let switched = runtime.switch_to(
            vec![format!("vendor-{index}")],
            Some(RemoteAttempt {
                policy: ClosePolicy::Generic,
                target: None,
            }),
            false,
        );
        assert!(switched.is_some(), "switch {index} must take effect");
    }

    assert_eq!(runtime.stack_len(), PROFILE_STACK_LIMIT);
    assert_eq!(
        runtime.state().stack.first().map(|frame| frame.profiles.clone()),
        Some(names(&["generic"])),
        "the baseline frame must survive overflow"
    );
    assert_eq!(
        runtime.state().stack.last().map(|frame| frame.profiles.clone()),
        Some(vec!["vendor-8".to_string()]),
        "newest entry must be the previously active vendor-8"
    );
    while !runtime.state().stack.is_empty() {
        let _ = runtime.pop_profile();
    }
    assert_eq!(runtime.active_profiles(), names(&["generic"]));
}

#[test]
fn rejected_profile_transition_restores_runtime_state() {
    let store = ProfileStore::builtin();
    let mut runtime = ProfileRuntime::new(names(&["generic", "linux-unix"]));
    runtime.observe_input(b"ssh router-a\r");
    assert_eq!(
        runtime.observe_output(b"--- JUNOS 22.4R3 Kernel 64-bit\n", &store),
        Some(names(&["generic", "juniper"]))
    );
    assert_eq!(runtime.stack_len(), 1);

    runtime.reject_transition();

    assert_eq!(runtime.active_profiles(), names(&["generic", "linux-unix"]));
    assert_eq!(runtime.stack_len(), 1);
    assert_eq!(pending(&runtime), None);
}

#[test]
fn accepted_profile_transition_discards_rollback_state() {
    let store = ProfileStore::builtin();
    let mut runtime = ProfileRuntime::new(names(&["generic", "linux-unix"]));
    runtime.observe_input(b"ssh router-a\r");
    assert!(
        runtime
            .observe_output(b"--- JUNOS 22.4R3 Kernel 64-bit\n", &store)
            .is_some()
    );

    runtime.accept_transition();
    runtime.reject_transition();

    assert_eq!(runtime.active_profiles(), names(&["generic", "juniper"]));
    assert_eq!(runtime.stack_len(), 1);
}

#[test]
fn rejected_nested_transition_keeps_parent_close_accounting() {
    let store = ProfileStore::builtin();
    let mut runtime = ProfileRuntime::new(names(&["generic", "linux-unix"]));
    runtime.observe_input(b"ssh router-a\r");
    assert!(
        runtime
            .observe_output(b"--- JUNOS 22.4R3 Kernel 64-bit\n", &store)
            .is_some()
    );
    runtime.accept_transition();

    runtime.observe_input(b"ssh router-b\r");
    assert_eq!(
        runtime.observe_output(b"Cisco IOS Software\n", &store),
        Some(names(&["generic", "cisco"]))
    );
    runtime.reject_transition();
    assert_eq!(runtime.active_profiles(), names(&["generic", "juniper"]));
    assert_eq!(runtime.stack_len(), 2);
    assert_eq!(pending(&runtime), None);

    assert_eq!(
        runtime.observe_output(b"Connection closed.\n", &store),
        None
    );
    assert_eq!(runtime.active_profiles(), names(&["generic", "juniper"]));
    assert_eq!(runtime.stack_len(), 1);
    assert_eq!(pending(&runtime), None);
}

#[test]
fn rejected_nested_transition_survives_additional_nesting() {
    let store = ProfileStore::builtin();
    let mut runtime = ProfileRuntime::new(names(&["generic", "linux-unix"]));
    runtime.observe_input(b"ssh router-a\r");
    assert!(
        runtime
            .observe_output(b"--- JUNOS 22.4R3 Kernel 64-bit\n", &store)
            .is_some()
    );
    runtime.accept_transition();

    runtime.observe_input(b"ssh router-b\r");
    assert!(
        runtime
            .observe_output(b"Cisco IOS Software\n", &store)
            .is_some()
    );
    runtime.reject_transition();
    assert_eq!(runtime.stack_len(), 2);

    runtime.observe_input(b"ssh router-c\r");
    assert!(
        runtime
            .observe_output(b"Version: FortiGate-VM64 v7.4.0\n", &store)
            .is_some()
    );
    runtime.accept_transition();
    assert_eq!(runtime.stack_len(), 3);
    assert_eq!(runtime.active_profiles(), names(&["generic", "fortinet"]));

    assert_eq!(
        runtime.observe_output(b"Connection to router-c closed.\n", &store),
        Some(names(&["generic", "juniper"]))
    );
    assert_eq!(runtime.stack_len(), 2);
    assert_eq!(
        runtime.observe_output(b"Connection closed.\n", &store),
        None
    );
    assert_eq!(runtime.active_profiles(), names(&["generic", "juniper"]));
    assert_eq!(runtime.stack_len(), 1);
}

#[test]
fn rejected_prompt_transition_retries_after_reload() {
    let store = ProfileStore::builtin();
    let mut runtime = ProfileRuntime::new(names(&["generic", "linux-unix"]));
    runtime.observe_input(b"ssh router-a\r");
    assert!(
        runtime
            .observe_output(b"--- JUNOS 22.4R3 Kernel 64-bit\n", &store)
            .is_some()
    );
    runtime.accept_transition();

    runtime.observe_input(b"ssh firewall\r");
    assert_eq!(
        runtime.observe_output(b"FW-EDGE # ", &store),
        Some(names(&["generic", "fortinet"]))
    );
    runtime.reject_transition();
    assert!(
        runtime.state().stack
            .last()
            .is_some_and(|frame| frame.unresolved_detection)
    );

    runtime.observe_input(b"ssh router-c\r");
    assert_eq!(
        runtime.observe_output(b"Cisco IOS Software\n", &store),
        Some(names(&["generic", "cisco"]))
    );
    runtime.accept_transition();
    assert_eq!(
        runtime.observe_output(b"Connection to router-c closed.\n", &store),
        Some(names(&["generic", "juniper"]))
    );
    runtime.accept_transition();
    assert!(
        runtime.state().stack
            .last()
            .is_some_and(|frame| frame.unresolved_detection),
        "accepting the child close must not resolve its rejected parent"
    );

    runtime.accept_reload_generation();
    assert_eq!(
        runtime.observe_output(b"FW-EDGE # ", &store),
        Some(names(&["generic", "fortinet"]))
    );
    runtime.accept_transition();
    assert!(
        runtime.state().stack
            .last()
            .is_some_and(|frame| !frame.unresolved_detection)
    );
}

#[test]
fn reload_validation_exposes_and_preserves_hidden_profile_frames() {
    let mut store = ProfileStore::builtin();
    store.insert_profile("custom".to_string(), Vec::new(), Vec::new(), Vec::new());
    let mut runtime = ProfileRuntime::new(names(&["generic", "custom"]));
    assert!(
        runtime
            .switch_to(
                names(&["generic", "juniper"]),
                Some(RemoteAttempt {
                    policy: ClosePolicy::SshLike,
                    target: Some("router-a".chars().collect()),
                }),
                false,
            )
            .is_some()
    );
    assert_eq!(runtime.stack_len(), 1);
    assert!(
        runtime
            .profile_sets_for_reload()
            .contains(&names(&["generic", "custom"]))
    );

    runtime.accept_reload_generation();

    assert_eq!(runtime.stack_len(), 1);
    assert_eq!(
        runtime.state().stack.first().map(|frame| frame.profiles.clone()),
        Some(names(&["generic", "custom"]))
    );
    assert_eq!(runtime.state().baseline_profiles, names(&["generic", "custom"]));
    assert_eq!(
        runtime.observe_output(b"Connection to router-a closed.\n", &store),
        Some(names(&["generic", "custom"]))
    );
}

#[test]
fn reload_preserves_same_profile_nesting() {
    let store = ProfileStore::builtin();
    let mut runtime = ProfileRuntime::new(names(&["generic", "linux-unix"]));
    runtime.observe_input(b"ssh router-a\r");
    assert!(
        runtime
            .observe_output(b"--- JUNOS 22.4R3 Kernel 64-bit\n", &store)
            .is_some()
    );
    runtime.accept_transition();
    runtime.observe_input(b"ssh router-b\r");
    assert_eq!(
        runtime.observe_output(b"--- JUNOS 22.4R3 Kernel 64-bit\n", &store),
        None
    );
    assert_eq!(runtime.stack_len(), 2);

    runtime.accept_reload_generation();

    assert_eq!(runtime.stack_len(), 2);
    assert_eq!(
        runtime.observe_output(b"Connection to router-b closed.\n", &store),
        None
    );
    assert_eq!(runtime.active_profiles(), names(&["generic", "juniper"]));
    assert_eq!(runtime.stack_len(), 1);
    assert_eq!(
        runtime.observe_output(b"Connection to router-a closed.\n", &store),
        Some(names(&["generic", "linux-unix"]))
    );
}

#[test]
fn reload_preserves_pending_remote_detection_hint() {
    let mut runtime = ProfileRuntime::new(names(&["generic", "juniper"]));
    runtime.observe_input(b"ssh router-b\r");

    runtime.accept_reload_generation();

    assert_eq!(
        pending_target(&runtime).as_deref(),
        Some("router-b")
    );
    assert!(runtime.state().baseline_locked);
}
