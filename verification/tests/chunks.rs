use prismtty::chunks::{prepare_chunk, ChunkFilterState};
use prismtty::escapes::MAX_INCOMPLETE_ESCAPE_BYTES;
use prismtty::profile_runtime::ProfileRuntime;
use prismtty::ProfileStore;

#[test]
fn strip_mode_carries_split_escape_across_reads() {
    let mut carry = ChunkFilterState::default();
    let first = prepare_chunk(b"hello\x1b[3", true, false, &mut carry);
    let second = prepare_chunk(b"1m world", true, false, &mut carry);
    let mut visible = first.bytes().to_vec();
    visible.extend_from_slice(second.bytes());
    assert_eq!(
        visible,
        b"hello world",
        "split escape tail leaked into stripped output: {:?}",
        String::from_utf8_lossy(&visible)
    );
}

#[test]
fn strip_mode_drops_oversized_incomplete_escape_carry() {
    let mut carry = ChunkFilterState::default();
    let mut input = b"\x1b[".to_vec();
    input.extend(std::iter::repeat_n(
        b'1',
        MAX_INCOMPLETE_ESCAPE_BYTES + 1,
    ));

    let chunk = prepare_chunk(&input, true, false, &mut carry);

    assert!(
        chunk.bytes().is_empty(),
        "oversized incomplete escape should be stripped as control data"
    );
    assert!(
        carry.carry.is_empty(),
        "oversized incomplete escape carry must not grow without bound"
    );
}

#[test]
fn sanitize_mode_drops_split_string_escape_across_reads() {
    let mut carry = ChunkFilterState::default();
    let first = prepare_chunk(b"safe\x1b]52;c;", false, true, &mut carry);
    let second = prepare_chunk(b"aGVsbG8=\x07 after", false, true, &mut carry);
    let mut visible = first.bytes().to_vec();
    visible.extend_from_slice(second.bytes());
    assert_eq!(
        visible,
        b"safe after",
        "split OSC 52 leaked into sanitized output: {:?}",
        String::from_utf8_lossy(&visible)
    );
}

#[test]
fn preserve_mode_hides_split_string_payloads_from_dynamic_profile_detection() {
    for (prefix, tail) in [
        (
            b"\x1b]0;".as_slice(),
            b"--- JUNOS 22.4R3 Kernel 64-bit\n\x07visible\n".as_slice(),
        ),
        (
            b"\x1bP".as_slice(),
            b"--- JUNOS 22.4R3 Kernel 64-bit\n\x1b\\visible\n".as_slice(),
        ),
        (
            b"\x9d0;".as_slice(),
            b"--- JUNOS 22.4R3 Kernel 64-bit\n\x07visible\n".as_slice(),
        ),
        (
            b"\x90".as_slice(),
            b"--- JUNOS 22.4R3 Kernel 64-bit\n\x9cvisible\n".as_slice(),
        ),
        (
            b"\x1b[1\x1b]0;".as_slice(),
            b"--- JUNOS 22.4R3 Kernel 64-bit\n\x07visible\n".as_slice(),
        ),
    ] {
        let mut state = ChunkFilterState::default();
        let first = prepare_chunk(prefix, false, false, &mut state);
        let second = prepare_chunk(tail, false, false, &mut state);

        assert!(first.bytes().is_empty());
        assert_eq!(second.bytes(), [prefix, tail].concat());
        assert_eq!(second.visible_bytes(), b"visible\n");

        let store = ProfileStore::builtin();
        let mut runtime =
            ProfileRuntime::new(vec!["generic".to_string()]);
        assert_eq!(runtime.observe_output(first.visible_bytes(), &store), None);
        assert_eq!(runtime.observe_output(second.visible_bytes(), &store), None);
        assert_eq!(runtime.active_profiles(), vec!["generic".to_string()]);
    }
}

#[test]
fn sanitize_mode_drops_split_c1_string_escape_across_reads() {
    let mut carry = ChunkFilterState::default();
    let first = prepare_chunk(b"safe\x9d52;c;", false, true, &mut carry);
    let second = prepare_chunk(b"aGVsbG8=\x07 after", false, true, &mut carry);
    let mut visible = first.bytes().to_vec();
    visible.extend_from_slice(second.bytes());
    assert_eq!(
        visible,
        b"safe after",
        "split C1 OSC 52 leaked into sanitized output: {:?}",
        String::from_utf8_lossy(&visible)
    );
}

#[test]
fn filtered_modes_drop_split_utf8_encoded_c1_strings() {
    for (strip_existing_ansi, sanitize) in [(true, false), (false, true)] {
        for (input, expected) in [
            (
                b"safe\xc2\x9d52;c;aGVsbG8=\x07 after".as_slice(),
                b"safe after".as_slice(),
            ),
            (
                b"safe\xc2\x90dcs\xc2\x9c after".as_slice(),
                b"safe after".as_slice(),
            ),
        ] {
            for split in 0..=input.len() {
                let mut state = ChunkFilterState::default();
                let mut output = prepare_chunk(
                    &input[..split],
                    strip_existing_ansi,
                    sanitize,
                    &mut state,
                )
                .bytes()
                .to_vec();
                output.extend_from_slice(
                    prepare_chunk(
                        &input[split..],
                        strip_existing_ansi,
                        sanitize,
                        &mut state,
                    )
                    .bytes(),
                );

                assert_eq!(output, expected, "unsafe split at {split}");
                assert!(state.carry.is_empty(), "carry remained at split {split}");
            }
        }
    }
}

#[test]
fn filtered_modes_keep_discarding_oversized_utf8_encoded_c1_strings() {
    for (strip_existing_ansi, sanitize) in [(true, false), (false, true)] {
        let mut state = ChunkFilterState::default();
        let mut oversized = b"safe\xc2\x90".to_vec();
        oversized.extend(std::iter::repeat_n(
            b'x',
            MAX_INCOMPLETE_ESCAPE_BYTES + 1,
        ));

        let mut output =
            prepare_chunk(&oversized, strip_existing_ansi, sanitize, &mut state)
                .bytes()
                .to_vec();
        output.extend_from_slice(
            prepare_chunk(b"\xc2", strip_existing_ansi, sanitize, &mut state).bytes(),
        );
        output.extend_from_slice(
            prepare_chunk(b"\x9c after", strip_existing_ansi, sanitize, &mut state)
                .bytes(),
        );

        assert_eq!(output, b"safe after");
        assert!(state.carry.is_empty());
    }
}

#[test]
fn filtered_modes_resume_after_split_can_or_sub_cancels_string() {
    for (strip_existing_ansi, sanitize) in [(true, false), (false, true)] {
        for control in [
            b"\x1b]52;abc".as_slice(),
            b"\x1bPabc".as_slice(),
            b"\x9d52;abc".as_slice(),
            b"\x90abc".as_slice(),
        ] {
            for cancel in [0x18, 0x1a] {
                let mut state = ChunkFilterState::default();
                let mut first = b"before".to_vec();
                first.extend_from_slice(control);
                let mut output =
                    prepare_chunk(&first, strip_existing_ansi, sanitize, &mut state)
                        .bytes()
                        .to_vec();
                let second = [cancel, b'a', b'f', b't', b'e', b'r', b'\n'];
                output.extend_from_slice(
                    prepare_chunk(&second, strip_existing_ansi, sanitize, &mut state)
                        .bytes(),
                );

                assert_eq!(output, b"beforeafter\n");
                assert!(state.carry.is_empty());
            }
        }
    }
}

#[test]
fn sanitize_mode_keeps_discarding_oversized_strings_until_their_terminator() {
    for (introducer, terminator) in [
        (b"\x1b]".as_slice(), b"\x07".as_slice()),
        (b"\x9d".as_slice(), b"\x07".as_slice()),
        (b"\x1bP".as_slice(), b"\x1b\\".as_slice()),
        (b"\x1bX".as_slice(), b"\x1b\\".as_slice()),
        (b"\x1b^".as_slice(), b"\x1b\\".as_slice()),
        (b"\x1b_".as_slice(), b"\x1b\\".as_slice()),
        (b"\x90".as_slice(), b"\x9c".as_slice()),
        (b"\x98".as_slice(), b"\x9c".as_slice()),
        (b"\x9e".as_slice(), b"\x9c".as_slice()),
        (b"\x9f".as_slice(), b"\x9c".as_slice()),
    ] {
        let mut carry = ChunkFilterState::default();
        let mut first = b"safe".to_vec();
        first.extend_from_slice(introducer);
        first.extend(std::iter::repeat_n(
            b'x',
            MAX_INCOMPLETE_ESCAPE_BYTES + 1,
        ));

        let mut output = prepare_chunk(&first, false, true, &mut carry)
            .bytes()
            .to_vec();
        output.extend_from_slice(
            prepare_chunk(b"\x1b[2J\x9b2J", false, true, &mut carry).bytes(),
        );
        if terminator == b"\x1b\\" {
            output.extend_from_slice(
                prepare_chunk(b"\x1b", false, true, &mut carry).bytes(),
            );
            output.extend_from_slice(
                prepare_chunk(b"\\after", false, true, &mut carry).bytes(),
            );
        } else {
            let mut final_chunk = terminator.to_vec();
            final_chunk.extend_from_slice(b"after");
            output.extend_from_slice(
                prepare_chunk(&final_chunk, false, true, &mut carry).bytes(),
            );
        }

        assert_eq!(
            output, b"safeafter",
            "payload escaped from {introducer:02x?}: {output:02x?}"
        );
        assert!(carry.carry.is_empty());
    }
}

#[test]
fn sanitize_mode_resumes_after_split_can_or_sub_cancels_oversized_string() {
    for control in [
        b"\x1b]52;".as_slice(),
        b"\x1bP".as_slice(),
        b"\x9d52;".as_slice(),
        b"\x90".as_slice(),
    ] {
        for cancel in [0x18, 0x1a] {
            let mut state = ChunkFilterState::default();
            let mut first = b"before".to_vec();
            first.extend_from_slice(control);
            first.extend(std::iter::repeat_n(
                b'x',
                MAX_INCOMPLETE_ESCAPE_BYTES + 1,
            ));

            let mut output = prepare_chunk(&first, false, true, &mut state)
                .bytes()
                .to_vec();
            output.extend_from_slice(
                prepare_chunk(&[cancel], false, true, &mut state).bytes(),
            );
            output.extend_from_slice(
                prepare_chunk(b"after\n", false, true, &mut state).bytes(),
            );

            assert_eq!(output, b"beforeafter\n");
            assert!(state.carry.is_empty());
        }
    }
}

#[test]
fn sanitize_oversized_discard_ignores_non_c1_utf8_continuations() {
    let mut carry = ChunkFilterState::default();
    let mut first = b"safe\x1bP".to_vec();
    first.extend(std::iter::repeat_n(
        b'x',
        MAX_INCOMPLETE_ESCAPE_BYTES + 1,
    ));

    let mut output = prepare_chunk(&first, false, true, &mut carry)
        .bytes()
        .to_vec();
    for chunk in [
        b"\xc2".as_slice(),
        b"\xa9".as_slice(),
        b"\xe2".as_slice(),
        b"\x9d".as_slice(),
        b"\x9c\x1b[2J".as_slice(),
        b"\x1b".as_slice(),
        b"\\after".as_slice(),
    ] {
        output.extend_from_slice(prepare_chunk(chunk, false, true, &mut carry).bytes());
    }

    assert_eq!(output, b"safeafter");
    assert!(carry.carry.is_empty());
}

#[test]
fn sanitize_tracker_rebases_after_filtering_a_visible_prefix() {
    let mut carry = ChunkFilterState::default();
    let mut output = prepare_chunk(b"safe\x1b]ab\x1b]", false, true, &mut carry)
        .bytes()
        .to_vec();
    output
        .extend_from_slice(prepare_chunk(b"\x07after", false, true, &mut carry).bytes());

    assert_eq!(output, b"safeafter");
    assert!(carry.carry.is_empty());
}

#[test]
fn sanitize_mode_carries_cancelled_prefix_until_nested_string_terminates() {
    for (first, second) in [
        (
            b"safe\x1b[1\x1b]52;c;".as_slice(),
            b"SGVsbG8=\x07Jafter".as_slice(),
        ),
        (
            b"safe\x1b(\x1b]52;c;".as_slice(),
            b"SGVsbG8=\x07Jafter".as_slice(),
        ),
        (
            b"safe\x9b1\x9d52;c;".as_slice(),
            b"SGVsbG8=\x07Jafter".as_slice(),
        ),
        (
            b"safe\x1b[1\x1b".as_slice(),
            b"]52;c;SGVsbG8=\x07Jafter".as_slice(),
        ),
    ] {
        let mut carry = ChunkFilterState::default();
        let mut output = prepare_chunk(first, false, true, &mut carry)
            .bytes()
            .to_vec();
        output.extend_from_slice(prepare_chunk(second, false, true, &mut carry).bytes());

        assert_eq!(output, b"safeJafter", "unsafe output for {first:02x?}");
        assert!(carry.carry.is_empty());
    }
}

#[test]
fn sanitize_mode_discards_oversized_string_reached_through_cancelled_csi() {
    let mut carry = ChunkFilterState::default();
    let mut first = b"safe\x1b[1\x1b]52;c;".to_vec();
    first.extend(std::iter::repeat_n(
        b'x',
        MAX_INCOMPLETE_ESCAPE_BYTES + 1,
    ));

    let mut output = prepare_chunk(&first, false, true, &mut carry)
        .bytes()
        .to_vec();
    output.extend_from_slice(
        prepare_chunk(b"\x1b[2J\x9b2J", false, true, &mut carry).bytes(),
    );
    output.extend_from_slice(
        prepare_chunk(b"\x07Jafter", false, true, &mut carry).bytes(),
    );

    assert_eq!(output, b"safeJafter");
    assert!(carry.carry.is_empty());
}

#[test]
fn sanitize_mode_preserves_split_utf8_across_reads() {
    let mut carry = ChunkFilterState::default();
    let first = prepare_chunk(b"prompt \xe2", false, true, &mut carry);
    let second = prepare_chunk(b"\x9d\xaf ready", false, true, &mut carry);
    let mut visible = first.bytes().to_vec();
    visible.extend_from_slice(second.bytes());
    assert_eq!(visible, "prompt \u{276f} ready".as_bytes());
}

#[test]
fn strip_mode_preserves_utf8_when_each_c1_valued_continuation_is_split() {
    let mut carry = ChunkFilterState::default();
    let chunks = [
        b"prompt \xe2".as_slice(),
        b"\x9d".as_slice(),
        b"\xaf ready".as_slice(),
    ];
    let mut visible = Vec::new();

    for chunk in chunks {
        visible.extend_from_slice(prepare_chunk(chunk, true, false, &mut carry).bytes());
    }

    assert!(carry.carry.is_empty());
    assert_eq!(visible, "prompt \u{276f} ready".as_bytes());
}
