use prismtty::benchmark::BenchmarkReport;
use prismtty::compiled::{MAX_COMPILED_RULES, MAX_TOTAL_PATTERN_BYTES};
use prismtty::config::{ConfigError, RuleSpec, RuleStyle};
use prismtty::controls::{
    alternate_screen_command, contains_bracketed_paste_disable_tokens, is_csi_sequence,
    is_cursor_positioning_sequence, is_interactive_layout_boundary_sequence, strip_ansi, Token,
};
use prismtty::documents::{CaptureKeyDoc, ColorDoc, RuleDoc, RulesDoc};
use prismtty::escapes::{
    incomplete_sanitize_start, incomplete_top_level_escape_start, next_stateful_control_start,
    MAX_INCOMPLETE_ESCAPE_BYTES,
};
use prismtty::prompt_echo::visible_byte_map_and_ansi_ranges;
use prismtty::prompt_sgr::{neutralize_prompt_echo_source_sgr, ResetMode};
use prismtty::sanitize::strip_string_escapes;
use prismtty::sgr::NativeSgrState;
use prismtty::streaming::AnsiChunk;
use prismtty::style::Style;
use prismtty::{Highlighter, PrismConfig, StreamingHighlighter};
use serde_norway::Value;

fn color_doc(color: &Value) -> ColorDoc {
    match color {
        Value::String(text) => ColorDoc::Text(text.clone()),
        Value::Mapping(captures) => ColorDoc::Captures(
            captures
                .iter()
                .map(|(key, style)| {
                    let key = match key {
                        Value::Number(number) => match number.as_u64() {
                            Some(index) => CaptureKeyDoc::Number(index),
                            None => CaptureKeyDoc::OtherNumber(number.to_string()),
                        },
                        Value::String(name) => CaptureKeyDoc::Text(name.clone()),
                        other => CaptureKeyDoc::Other(format!("{other:?}")),
                    };
                    (key, style.as_str().map(str::to_string))
                })
                .collect(),
        ),
        _ => ColorDoc::Other,
    }
}

fn rule_doc(rule: &Value) -> RuleDoc {
    let text = |name: &str| rule.get(name).and_then(Value::as_str).unwrap_or("").to_string();
    RuleDoc {
        description: text("description"),
        regex: text("regex"),
        color: color_doc(rule.get("color").expect("rules have a color")),
        exclusive: rule.get("exclusive").and_then(Value::as_bool).unwrap_or(false),
    }
}

fn from_chromaterm_yaml(yaml: &str) -> Result<PrismConfig, ConfigError> {
    let value: Value = serde_norway::from_str(yaml).expect("YAML parses");
    let rules = value
        .get("rules")
        .and_then(Value::as_sequence)
        .map(|rules| rules.iter().map(rule_doc).collect())
        .unwrap_or_default();
    PrismConfig::from_rules_doc(&RulesDoc { profile: None, palette: Vec::new(), rules })
}

fn timed(highlighter: &Highlighter, input: &[u8]) -> BenchmarkReport {
    let mut stream = StreamingHighlighter::new_with_benchmark(highlighter.clone());
    let _ = stream.push(input);
    let _ = stream.finish();
    stream.benchmark_report().expect("benchmark enabled").clone()
}

fn start_text(state: &NativeSgrState) -> Option<String> {
    state.ansi_start().map(|bytes| String::from_utf8(bytes).expect("a sequence is text"))
}

fn incomplete_escape_start(bytes: &[u8]) -> Option<usize> {
    let mut search_from = 0;
    let mut last = None;
    while let Some(start) = next_stateful_control_start(bytes, search_from) {
        last = Some(start);
        search_from = start + 1;
    }
    last.filter(|start| escape_is_incomplete_at(bytes, *start))
}

fn escape_is_incomplete_at(bytes: &[u8], start: usize) -> bool {
    incomplete_top_level_escape_start(&bytes[start..]) == Some(0)
}

#[test]
fn rule_timings_collect_without_benchmark_mode() {
    let config = from_chromaterm_yaml(
        "rules:\n  - description: up state\n    regex: up\n    color: f#00ff00\n",
    )
    .expect("config parses");
    let mut stream =
        StreamingHighlighter::new(Highlighter::from_config(config).expect("rules compile"));

    let _ = stream.push_str("link up\n");

    assert!(
        stream.benchmark_report().is_none(),
        "report is exposed only in benchmark mode"
    );
    let slowest = stream
        .slowest_rule()
        .expect("timings collected in every mode");
    assert_eq!(slowest.description, "up state");
}

#[test]
fn streaming_constructors_default_to_minimal_resets() {
    let highlighter = Highlighter::from_config(PrismConfig::default()).expect("empty config");

    assert!(!StreamingHighlighter::new(highlighter.clone()).no_minimal_resets());
    assert!(!StreamingHighlighter::new_interactive(highlighter.clone()).no_minimal_resets());
    assert!(!StreamingHighlighter::new_with_benchmark(highlighter.clone()).no_minimal_resets());
    assert!(
        !StreamingHighlighter::new_interactive_with_benchmark(highlighter).no_minimal_resets()
    );
}

#[test]
fn benchmark_keeps_distinct_rules_with_the_same_description_separate() {
    let config = from_chromaterm_yaml(
        r##"
rules:
  - description: duplicate label
    regex: 'x'
    color: f#ff0000
  - description: duplicate label
    regex: 'y'
    color: f#00ff00
"##,
    )
    .expect("config parses");
    let highlighter = Highlighter::from_config(config).expect("rules compile");

    let report = timed(&highlighter, b"xy");

    assert_eq!(report.rules().len(), 2);
    assert_eq!(
        report
            .rules()
            .iter()
            .map(|rule| rule.match_count)
            .collect::<Vec<_>>(),
        vec![1, 1]
    );
}

#[test]
fn benchmark_identity_cannot_collide_through_metadata_delimiters() {
    let style = Style::parse("bold").expect("style parses");
    let config = PrismConfig {
        rules: vec![
            RuleSpec {
                description: "a".to_string(),
                regex: "b\u{1f}c".to_string(),
                style: RuleStyle::Whole(style.clone()),
                exclusive: false,
            },
            RuleSpec {
                description: "a\u{1f}b".to_string(),
                regex: "c".to_string(),
                style: RuleStyle::Whole(style),
                exclusive: false,
            },
        ],
        enabled_profiles: Vec::new(),
    };
    let highlighter = Highlighter::from_config(config).expect("rules compile");

    let report = timed(&highlighter, b"b\x1fc");

    assert_eq!(report.rules().len(), 2);
}

#[test]
fn compile_rejects_capture_styles_that_reference_missing_groups() {
    for color in ["2: f#ff0000", "missing: f#ff0000"] {
        let config = from_chromaterm_yaml(&format!(
            r##"
rules:
  - description: capture validation
    regex: '(?P<present>x)'
    color:
      {color}
"##
        ))
        .expect("config parses");

        let message = Highlighter::from_config(config)
            .expect_err("missing capture reference should fail")
            .message();
        assert!(message.contains("capture validation"), "{message}");
        assert!(message.contains("does not exist"), "{message}");
    }
}

#[test]
fn compile_rejects_rule_and_pattern_aggregates_above_limits() {
    let rule = RuleSpec {
        description: "bounded rule".to_string(),
        regex: "x".to_string(),
        style: RuleStyle::Whole(
            Style::parse("bold").expect("style parses"),
        ),
        exclusive: false,
    };
    let too_many = PrismConfig {
        rules: vec![rule.clone(); MAX_COMPILED_RULES + 1],
        enabled_profiles: Vec::new(),
    };
    assert!(Highlighter::from_config(too_many).is_err());

    let maximum_rule_count = PrismConfig {
        rules: vec![rule.clone(); MAX_COMPILED_RULES],
        enabled_profiles: Vec::new(),
    };
    assert!(Highlighter::from_config(maximum_rule_count).is_ok());

    let oversized = PrismConfig {
        rules: vec![RuleSpec {
            regex: "x".repeat(MAX_TOTAL_PATTERN_BYTES + 1),
            ..rule.clone()
        }],
        enabled_profiles: Vec::new(),
    };
    assert!(Highlighter::from_config(oversized).is_err());

    let comment_payload = "x".repeat(MAX_TOTAL_PATTERN_BYTES - 5);
    let maximum_pattern = PrismConfig {
        rules: vec![RuleSpec {
            regex: format!("(?#{} )", comment_payload),
            ..rule
        }],
        enabled_profiles: Vec::new(),
    };
    assert_eq!(
        maximum_pattern.rules[0].regex.len(),
        MAX_TOTAL_PATTERN_BYTES
    );
    assert!(Highlighter::from_config(maximum_pattern).is_ok());
}

#[test]
fn match_limit_errors_are_recorded_in_rule_telemetry() {
    let config = from_chromaterm_yaml(
        r##"
rules:
  - description: bounded pathological rule
    regex: '^(a+)+$'
    color: f#ff0000
"##,
    )
    .expect("config parses");
    let highlighter = Highlighter::from_config(config).expect("rule compiles");
    let mut input = vec![b'a'; 8 * 1024];
    input.push(b'!');

    let report = timed(&highlighter, &input);

    assert_eq!(report.rules().len(), 1);
    let failure = report
        .first_rule_error()
        .expect("match error telemetry is recorded");
    assert!(failure.count > 0);
    assert!(failure.last.is_some());
    let error = highlighter
        .try_highlight_bytes(&input)
        .expect_err("fallible batch API must report the match limit");
    assert!(error.description.contains("bounded pathological rule"));
    assert_eq!(highlighter.highlight_bytes(&input), input);
}

#[test]
fn streaming_quarantines_a_rule_after_its_first_match_error() {
    let config = from_chromaterm_yaml(
        r##"
rules:
  - description: bounded pathological rule
    regex: '^(a+)+$'
    color: f#ff0000
  - description: healthy suffix
    regex: '!'
    color: f#00ff00
"##,
    )
    .expect("config parses");
    let highlighter = Highlighter::from_config(config).expect("rules compile");
    let mut streaming = StreamingHighlighter::new_with_benchmark(highlighter);
    let mut input = vec![b'a'; 8 * 1024];
    input.extend_from_slice(b"!\n");

    let first = streaming.push(&input);
    let second = streaming.push(&input);

    assert!(
        first
            .windows(b"\x1b[38".len())
            .any(|window| window == b"\x1b[38")
    );
    assert!(
        second
            .windows(b"\x1b[38".len())
            .any(|window| window == b"\x1b[38")
    );
    let failed = streaming
        .benchmark_report()
        .expect("benchmark enabled")
        .first_rule_error()
        .expect("failed rule recorded");
    assert_eq!(failed.description, "bounded pathological rule");
    assert_eq!(failed.count, 1, "failed rule must not be retried");
}

#[test]
fn profile_switches_do_not_bypass_rule_quarantine() {
    let config = from_chromaterm_yaml(
        "rules:\n  - description: bounded pathological rule\n    regex: '^(a+)+$'\n    color: f#ff0000\n",
    )
    .expect("config parses");
    let pathological = Highlighter::from_config(config.clone()).expect("rule compiles");
    let recompiled_pathological = Highlighter::from_config(config).expect("rule recompiles");
    let healthy = Highlighter::from_config(PrismConfig::default()).expect("empty config");
    let mut streaming = StreamingHighlighter::new_with_benchmark(pathological.clone());
    let mut input = vec![b'a'; 8 * 1024];
    input.extend_from_slice(b"!\n");

    let _ = streaming.push(&input);
    streaming.replace_highlighter(healthy);
    let _ = streaming.push(b"healthy\n");
    streaming.replace_highlighter(recompiled_pathological.clone());
    let _ = streaming.push(&input);

    let report = streaming.benchmark_report().expect("benchmark enabled");
    let error_count = report
        .rules_with_errors()
        .iter()
        .map(|line| line.count)
        .sum::<usize>();
    assert_eq!(error_count, 1, "recompiled profile switch retried the rule");

    streaming.replace_highlighter_generation(recompiled_pathological);
    let _ = streaming.push(&input);
    let failed = streaming
        .benchmark_report()
        .expect("benchmark enabled")
        .first_rule_error()
        .expect("failed rule recorded");
    assert_eq!(
        failed.count, 1,
        "new generation should retry its rules once"
    );
}

#[test]
fn generation_replacement_discards_stale_telemetry() {
    let mut streaming = StreamingHighlighter::new_with_benchmark(
        Highlighter::from_config(PrismConfig::default()).expect("empty config"),
    );

    for generation in 0..64 {
        let config = from_chromaterm_yaml(&format!(
            "rules:\n  - description: generation {generation}\n    regex: x\n    color: f#ffffff\n"
        ))
        .expect("config parses");
        streaming.replace_highlighter_generation(
            Highlighter::from_config(config).expect("rule compiles"),
        );
        let _ = streaming.push(b"x\n");
        assert_eq!(
            streaming
                .benchmark_report()
                .expect("benchmark enabled")
                .rules()
                .len(),
            1
        );
    }
}

#[test]
fn strip_string_escapes_drops_only_string_sequences() {
    // OSC 52 clipboard write, BEL-terminated.
    assert_eq!(
        strip_string_escapes(b"safe\x1b]52;c;aGVsbG8=\x07 after"),
        b"safe after".to_vec()
    );
    // OSC 0 title, ST-terminated.
    assert_eq!(
        strip_string_escapes(b"a\x1b]0;evil title\x1b\\b"),
        b"ab".to_vec()
    );
    // DCS, SOS, PM, APC payloads.
    assert_eq!(
        strip_string_escapes(
            b"x\x1bPpayload\x1b\\y\x1bXs\x1b\\z\x1b^p\x1b\\w\x1b_a\x1b\\v"
        ),
        b"xyzwv".to_vec()
    );
    // 8-bit C1 string controls have the same terminal effects as their
    // ESC-prefixed forms and must be stripped by --sanitize too.
    assert_eq!(
        strip_string_escapes(
            b"a\x9d52;c;aGVsbG8=\x07b\x90dcs\x9cc\x98sos\x9cd\x9epm\x9ce\x9fapc\x9cf"
        ),
        b"abcdef".to_vec()
    );
    let utf8_c1_strings =
        b"a\xc2\x9d52;c;aGVsbG8=\x07b\xc2\x90dcs\xc2\x9cc\xc2\x98sos\xc2\x9cd\xc2\x9epm\xc2\x9ce\xc2\x9fapc\xc2\x9cf";
    assert_eq!(
        strip_string_escapes(utf8_c1_strings),
        b"abcdef".to_vec()
    );
    assert_eq!(strip_ansi(utf8_c1_strings), b"abcdef".to_vec());
    assert_eq!(
        strip_string_escapes(b"safe\xc2\x9b1\xc2\x9d52;c;SGVsbG8=\x07Jafter"),
        b"safeJafter".to_vec()
    );
    assert_eq!(
        strip_string_escapes(b"copyright \xc2\xa9"),
        b"copyright \xc2\xa9".to_vec()
    );
    let utf8_prompt = "prompt \u{276f} ready".as_bytes();
    assert_eq!(
        strip_string_escapes(utf8_prompt),
        utf8_prompt.to_vec()
    );
    // CSI/SGR and simple escapes pass through unchanged.
    assert_eq!(
        strip_string_escapes(b"\x1b[1;38;2;0;255;0mok\x1b[0m\x1b[2J\x1b(B"),
        b"\x1b[1;38;2;0;255;0mok\x1b[0m\x1b[2J\x1b(B".to_vec()
    );
    assert_eq!(
        strip_string_escapes(b"\x9b1mok\x9b0m"),
        b"\x9b1mok\x9b0m".to_vec()
    );
    // An unterminated OSC at end of input is dropped, not passed through.
    assert_eq!(
        strip_string_escapes(b"tail\x1b]52;c;aGVsbG8="),
        b"tail".to_vec()
    );
    assert_eq!(
        strip_string_escapes(b"tail\x9d52;c;aGVsbG8="),
        b"tail".to_vec()
    );
}

#[test]
fn sanitize_drops_cancelled_control_prefixes_that_restart_as_strings() {
    for input in [
        b"safe\x1b[1\x1b]52;c;SGVsbG8=\x07Jafter".as_slice(),
        b"safe\x1b(\x1b]52;c;SGVsbG8=\x07Jafter".as_slice(),
        b"safe\x9b1\x9d52;c;SGVsbG8=\x07Jafter".as_slice(),
        b"safe\x1b[1\x9d52;c;SGVsbG8=\x07Jafter".as_slice(),
    ] {
        assert_eq!(
            strip_string_escapes(input),
            b"safeJafter",
            "nested string survived cancellation: {input:02x?}"
        );
    }

    for cancel in [0x18, 0x1a] {
        let input = [
            b"safe\x1b[1".as_slice(),
            &[cancel],
            b"\x1b]52;c;SGVsbG8=\x07Jafter".as_slice(),
        ]
        .concat();
        let expected = [b"safe\x1b[1".as_slice(), &[cancel], b"Jafter"].concat();
        assert_eq!(strip_string_escapes(&input), expected);
    }
}

#[test]
fn sanitize_drops_unterminated_strings_reached_through_cancellation() {
    for input in [
        b"safe\x1b[1\x1b]52;c;unterminated".as_slice(),
        b"safe\x1b(\x1b]52;c;unterminated".as_slice(),
        b"safe\x9b1\x9d52;c;unterminated".as_slice(),
    ] {
        assert_eq!(strip_string_escapes(input), b"safe");
        assert_eq!(incomplete_sanitize_start(input), Some(4));
    }
}

#[test]
fn sanitize_finds_nested_strings_after_oversized_cancelled_csi_prefixes() {
    for csi in [b"\x1b[".as_slice(), b"\x9b".as_slice()] {
        let mut input = b"safe".to_vec();
        input.extend_from_slice(csi);
        input.extend(std::iter::repeat_n(
            b'1',
            MAX_INCOMPLETE_ESCAPE_BYTES + 1,
        ));
        input.extend_from_slice(b"\x1b]52;c;SGVsbG8=\x07Jafter");

        assert_eq!(strip_string_escapes(&input), b"safeJafter");
    }
}

#[test]
fn string_controls_end_at_can_or_sub_and_resume_visible_output() {
    for control in [
        b"\x1b]52;abc".as_slice(),
        b"\x1bPabc".as_slice(),
        b"\x1bXabc".as_slice(),
        b"\x1b^abc".as_slice(),
        b"\x1b_abc".as_slice(),
        b"\x9d52;abc".as_slice(),
        b"\x90abc".as_slice(),
        b"\x98abc".as_slice(),
        b"\x9eabc".as_slice(),
        b"\x9fabc".as_slice(),
    ] {
        for cancel in [0x18, 0x1a] {
            let input = [b"before".as_slice(), control, &[cancel], b"after\n"].concat();
            assert_eq!(strip_string_escapes(&input), b"beforeafter\n");

            let highlighter = Highlighter::from_config(PrismConfig::default())
                .expect("empty config compiles");
            let mut streaming = StreamingHighlighter::new(highlighter);
            let mut output = streaming.push(&input);
            output.extend(streaming.finish());
            assert_eq!(output, input);
            assert_eq!(strip_ansi(&output), b"beforeafter\n");

            let mut split_streaming = StreamingHighlighter::new(
                Highlighter::from_config(PrismConfig::default())
                    .expect("empty config compiles"),
            );
            let first = [b"before".as_slice(), control].concat();
            let second = [cancel, b'a', b'f', b't', b'e', b'r', b'\n'];
            let mut split_output = split_streaming.push(&first);
            split_output.extend(split_streaming.push(&second));
            split_output.extend(split_streaming.finish());
            assert_eq!(split_output, input);
            assert_eq!(strip_ansi(&split_output), b"beforeafter\n");
        }
    }
}

#[test]
fn oversized_string_discard_ends_at_split_can_or_sub() {
    let highlighter =
        Highlighter::from_config(PrismConfig::default()).expect("empty config compiles");

    for control in [
        b"\x1b]52;".as_slice(),
        b"\x1bP".as_slice(),
        b"\x9d52;".as_slice(),
        b"\x90".as_slice(),
    ] {
        for cancel in [0x18, 0x1a] {
            let mut streaming = StreamingHighlighter::new(highlighter.clone());
            let mut first = b"before".to_vec();
            first.extend_from_slice(control);
            first.extend(std::iter::repeat_n(
                b'x',
                MAX_INCOMPLETE_ESCAPE_BYTES + 1,
            ));

            let mut output = streaming.push(&first);
            output.extend(streaming.push(&[cancel]));
            output.extend(streaming.push(b"after\n"));
            output.extend(streaming.finish());

            assert_eq!(output, b"beforeafter\n");
        }
    }
}

#[test]
fn streaming_finish_drops_cancelled_prefix_with_unterminated_nested_string() {
    let highlighter =
        Highlighter::from_config(PrismConfig::default()).expect("empty config compiles");

    for input in [
        b"safe\x1b[1\x1b]52;c;unterminated".as_slice(),
        b"safe\x1b(\x1b]52;c;unterminated".as_slice(),
        b"safe\x9b1\x9d52;c;unterminated".as_slice(),
    ] {
        let mut streaming = StreamingHighlighter::new(highlighter.clone());
        let mut output = streaming.push(input);
        output.extend(streaming.finish());
        assert_eq!(output, b"safe", "unsafe EOF output: {output:02x?}");
    }
}

#[test]
fn finish_neutralizes_every_incomplete_control_in_a_cancellation_chain() {
    for (input, expected) in [
        (b"safe\x1b[1\x1b[".as_slice(), b"safe^[1^[".as_slice()),
        (b"safe\x1b(\x1b(".as_slice(), b"safe^(^(".as_slice()),
        (b"safe\x9b1\x9b".as_slice(), b"safe^1^".as_slice()),
        (
            b"safe\x1b[1\x1b[2\x1b[".as_slice(),
            b"safe^[1^[2^[".as_slice(),
        ),
    ] {
        let highlighter =
            Highlighter::from_config(PrismConfig::default()).expect("empty config compiles");
        let mut streaming = StreamingHighlighter::new(highlighter);
        let mut output = streaming.push(input);
        output.extend(streaming.finish());

        assert_eq!(output, expected);
        assert_eq!(incomplete_top_level_escape_start(&output), None);
    }
}

#[test]
fn oversized_nested_csi_neutralizes_the_entire_cancellation_chain() {
    for prefix in [
        b"safe\x1b[1\x1b[".as_slice(),
        b"safe\x9b1\x9b".as_slice(),
        b"safe\x1b[1\x1b[2\x1b[".as_slice(),
    ] {
        let highlighter =
            Highlighter::from_config(PrismConfig::default()).expect("empty config compiles");
        let mut streaming = StreamingHighlighter::new(highlighter);
        let mut input = prefix.to_vec();
        input.extend(std::iter::repeat_n(
            b'1',
            MAX_INCOMPLETE_ESCAPE_BYTES + 1,
        ));

        let mut output = streaming.push(&input);
        output.extend(streaming.finish());

        assert!(!output.contains(&0x1b), "raw ESC survived: {output:02x?}");
        assert!(
            !output.contains(&0x9b),
            "raw C1 CSI survived: {output:02x?}"
        );
        assert_eq!(incomplete_top_level_escape_start(&output), None);
    }
}

#[test]
fn general_esc_intermediates_and_single_shifts_are_carried_and_safe_at_eof() {
    let highlighter =
        Highlighter::from_config(PrismConfig::default()).expect("empty config compiles");

    for partial in [
        b"\x1b ".as_slice(),
        b"\x1b$".as_slice(),
        b"\x1b!".as_slice(),
        b"\x1b&".as_slice(),
        b"\x1b$(".as_slice(),
        b"\x1bN".as_slice(),
        b"\x1bO".as_slice(),
        b"\x8e".as_slice(),
        b"\x8f".as_slice(),
    ] {
        let mut streaming = StreamingHighlighter::new(highlighter.clone());
        let mut input = b"safe".to_vec();
        input.extend_from_slice(partial);
        let mut output = streaming.push(&input);
        output.extend(streaming.finish());

        assert!(!output.contains(&0x1b), "raw ESC survived: {output:02x?}");
        assert!(
            !output.contains(&0x8e),
            "raw C1 SS2 survived: {output:02x?}"
        );
        assert!(
            !output.contains(&0x8f),
            "raw C1 SS3 survived: {output:02x?}"
        );
        assert_eq!(incomplete_top_level_escape_start(&output), None);
    }

    for (partial, visible) in [
        (b"\x1b ".as_slice(), b"safeafter".as_slice()),
        (b"\x1b$".as_slice(), b"safeafter".as_slice()),
        (b"\x1b$(".as_slice(), b"safeafter".as_slice()),
        (b"\x1bN".as_slice(), b"safeBafter".as_slice()),
        (b"\x1bO".as_slice(), b"safeBafter".as_slice()),
        (b"\x8e".as_slice(), b"safeBafter".as_slice()),
        (b"\x8f".as_slice(), b"safeBafter".as_slice()),
    ] {
        let mut streaming = StreamingHighlighter::new(highlighter.clone());
        let mut first = b"safe".to_vec();
        first.extend_from_slice(partial);
        let mut output = streaming.push(&first);
        output.extend(streaming.push(b"Bafter"));
        output.extend(streaming.finish());

        let mut expected = first;
        expected.extend_from_slice(b"Bafter");
        assert_eq!(output, expected);
        assert_eq!(strip_ansi(&output), visible);
    }
}

#[test]
fn unterminated_escape_past_the_cap_is_treated_as_complete() {
    // A short unterminated CSI is still incomplete (carry it across reads).
    assert!(escape_is_incomplete_at(b"\x1b[1;2", 0));

    // One longer than the cap is treated as complete (flush, don't buffer).
    let mut oversized = b"\x1b[".to_vec();
    oversized.extend(std::iter::repeat_n(
        b';',
        MAX_INCOMPLETE_ESCAPE_BYTES,
    ));
    assert!(!escape_is_incomplete_at(&oversized, 0));
}

#[test]
fn interactive_buffered_tab_completion_tail_is_flagged_as_prompt_echo() {
    let highlighter =
        Highlighter::from_config(PrismConfig::default()).expect("empty config compiles");
    let mut streaming = StreamingHighlighter::new_interactive(highlighter);

    let _ = streaming.push_str("LAB-N9K-CORE-01# ");
    assert_eq!(streaming.push_str("sh lo"), "sh lo");

    let redraw = "\x1b[23D\x1b[J\rLAB-N9K-CORE-01# sh log\r\r\nlogging   login     \r\r\n\x1b[J\rLAB-N9K-CORE-01# sh log";
    let out = streaming.push_str(redraw);
    let visible = strip_ansi(out.as_bytes());

    // The trailing token is withheld (the live bug): only "...# sh " is emitted.
    assert!(
        visible.ends_with(b"LAB-N9K-CORE-01# sh "),
        "tail should be withheld: {out:?}"
    );
    assert_eq!(streaming.buffered_echo(), b"log");

    // New signal: the buffered tail provably came from a prompt-echo redraw.
    assert!(streaming.buffered_echo_completes_prompt_line());

    // The idle flush surfaces exactly the tail.
    assert_eq!(strip_ansi(&streaming.flush_buffered_echo()), b"log");
    assert!(streaming.finish().is_empty());
}

#[test]
fn raw_c1_prompt_source_sgr_is_neutralized_before_command_echo() {
    let input = b"router# \x9b31mshow up";
    let output =
        neutralize_prompt_echo_source_sgr(input, b"", ResetMode::Minimal);

    assert!(
        !output.contains(&0x9b),
        "source C1 SGR survived: {output:02x?}"
    );
    assert!(
        output
            .windows(b"\x1b[39m".len())
            .any(|window| window == b"\x1b[39m"),
        "command boundary reset missing: {output:02x?}"
    );
    assert_eq!(strip_ansi(&output), b"router# show up");
}

#[test]
fn split_prompt_neutralizes_leading_source_sgr_before_command_echo() {
    let highlighter =
        Highlighter::from_config(PrismConfig::default()).expect("empty config compiles");

    for source_sgr in [
        b"\x1b[31m".as_slice(),
        b"\x9b31m".as_slice(),
        b"\xc2\x9b31m".as_slice(),
    ] {
        let mut streaming = StreamingHighlighter::new_interactive(highlighter.clone());
        assert_eq!(streaming.push(b"FGT01 # "), b"FGT01 # ");

        let mut chunk = source_sgr.to_vec();
        chunk.extend_from_slice(b"show");
        let mut output = streaming.push(&chunk);
        output.extend(streaming.finish());

        assert!(
            !output
                .windows(source_sgr.len())
                .any(|window| window == source_sgr),
            "leading source SGR survived: {output:02x?}"
        );
        assert_eq!(strip_ansi(&output), b"show");
        assert!(
            output
                .windows(b"\x1b[39mshow".len())
                .any(|window| window == b"\x1b[39mshow"),
            "command reset missing: {output:02x?}"
        );
    }
}

#[test]
fn interactive_line_splitting_ignores_newlines_inside_string_controls() {
    let highlighter = Highlighter::from_config(PrismConfig::default()).expect("empty config");

    for input in [
        b"\x1b]0;hidden\n\x1b[2J\x07user@host$ cmd\n".as_slice(),
        b"\x1bPignored\r\n\x1b[31m\x1b\\user@host$ cmd\n".as_slice(),
        b"\x9d0;hidden\n\x9b2J\x9cuser@host$ cmd\n".as_slice(),
    ] {
        let mut streaming = StreamingHighlighter::new_interactive(highlighter.clone());
        let mut output = streaming.push(input);
        output.extend(streaming.finish());

        assert_eq!(
            output, input,
            "string control was split or rewritten: {output:02x?}"
        );
        assert_eq!(strip_ansi(&output), b"user@host$ cmd\n");
    }
}

#[test]
fn buffered_echo_withholds_incomplete_utf8_tail() {
    let highlighter =
        Highlighter::from_config(PrismConfig::default()).expect("empty config compiles");
    let mut streaming = StreamingHighlighter::new_interactive(highlighter);

    // Interactive chunk ending mid-codepoint (first two bytes of '❯' U+276F =
    // E2 9D AF). The partial multibyte must not be surfaced by the idle flush.
    let _ = streaming.push(b"echo \xe2\x9d");
    assert!(
        streaming.buffered_echo().is_empty(),
        "incomplete UTF-8 tail must stay buffered: {:?}",
        streaming.buffered_echo()
    );
    assert!(streaming.flush_buffered_echo().is_empty());

    // Completing the codepoint surfaces the whole character.
    let out = streaming.push(b"\xafx");
    assert!(
        strip_ansi(&out)
            .windows(3)
            .any(|w| w == "❯".as_bytes()),
        "completed codepoint should surface intact: {out:?}"
    );
}

#[test]
fn program_output_does_not_qualify_for_prompt_echo_flush() {
    // Plain bulk output split mid-token: buffered via the normal streaming
    // branch, so provenance is false and it is not eligible.
    let highlighter =
        Highlighter::from_config(PrismConfig::default()).expect("empty config compiles");
    let mut streaming = StreamingHighlighter::new_interactive(highlighter);
    let _ = streaming.push(b"interface Vlan11");
    assert_eq!(streaming.buffered_echo(), b"Vlan11");
    assert!(
        !streaming.buffered_echo_completes_prompt_line(),
        "bulk program output must not qualify as a prompt-echo redraw tail"
    );

    // Output whose line resembles `word# text` must likewise never trigger
    // the flush (it is emitted as prompt-echo passthrough, not stranded as a
    // buffered tail with prompt-echo provenance).
    let highlighter =
        Highlighter::from_config(PrismConfig::default()).expect("empty config compiles");
    let mut streaming = StreamingHighlighter::new_interactive(highlighter);
    let _ = streaming.push(b"status# Vlan11");
    assert!(
        !streaming.buffered_echo_completes_prompt_line(),
        "prompt-shaped program output must not trigger the prompt-echo flush"
    );
}

#[test]
fn password_prompt_after_command_does_not_qualify_for_prompt_echo_flush() {
    let highlighter =
        Highlighter::from_config(PrismConfig::default()).expect("empty config compiles");
    let mut streaming = StreamingHighlighter::new_interactive(highlighter);

    let _ = streaming.push(b"host# ssh admin@192.0.2.1\r\n");
    let _ = streaming.push(b"Password: ");
    // A non-echoed password produces no buffered token, and `Password: ` is
    // not a `prompt# command` line, so the prompt-echo flush cannot fire.
    assert!(streaming.buffered_echo().is_empty());
    assert!(!streaming.buffered_echo_completes_prompt_line());
}

#[test]
fn more_paging_prompt_does_not_qualify_for_prompt_echo_flush() {
    let highlighter =
        Highlighter::from_config(PrismConfig::default()).expect("empty config compiles");
    let mut streaming = StreamingHighlighter::new_interactive(highlighter);

    let _ = streaming.push(b"a line of output\r\n");
    let _ = streaming.push(b"\x1b[7m--More--\x1b[27m");
    assert!(
        !streaming.buffered_echo_completes_prompt_line(),
        "the --More-- pager prompt is not a prompt-echo command line"
    );
}

#[test]
fn prompt_echo_redraw_split_across_writes_loses_no_text() {
    let highlighter =
        Highlighter::from_config(PrismConfig::default()).expect("empty config compiles");
    let mut streaming = StreamingHighlighter::new_interactive(highlighter);

    let _ = streaming.push_str("LAB-N9K-CORE-01# ");
    let _ = streaming.push_str("sh lo");

    // The same redraw delivered as two fragmented writes must not lose the
    // command tail; the idle flush plus finish() surface anything buffered.
    let full = "\x1b[23D\x1b[J\rLAB-N9K-CORE-01# sh log\r\r\nlogging   login     \r\r\n\x1b[J\rLAB-N9K-CORE-01# sh log";
    let mid = full.len() / 2;
    let mut visible = strip_ansi(streaming.push_str(&full[..mid]).as_bytes());
    visible.extend(strip_ansi(
        streaming.push_str(&full[mid..]).as_bytes(),
    ));
    visible.extend(strip_ansi(&streaming.flush_buffered_echo()));
    visible.extend(strip_ansi(&streaming.finish()));
    let needle = b"LAB-N9K-CORE-01# sh log";
    assert!(
        visible.windows(needle.len()).any(|w| w == needle),
        "command tail lost across a split redraw: {visible:?}"
    );
}

#[test]
fn local_shell_dollar_prompt_completion_tail_qualifies_for_prompt_echo_flush() {
    let highlighter =
        Highlighter::from_config(PrismConfig::default()).expect("empty config compiles");
    let mut streaming = StreamingHighlighter::new_interactive(highlighter);

    // A local shell `$` prompt redrawing the command after Tab, ending in a
    // bare token, must qualify exactly like a network device (vendor-agnostic).
    let _ = streaming.push_str("user@host:~$ ");
    let _ = streaming.push_str("git lo");
    let redraw = "\x1b[20D\x1b[J\ruser@host:~$ git log\r\r\nlog       logout    \r\r\n\x1b[J\ruser@host:~$ git log";
    let _ = streaming.push_str(redraw);

    assert_eq!(streaming.buffered_echo(), b"log");
    assert!(
        streaming.buffered_echo_completes_prompt_line(),
        "a $-prompt completion redraw tail must qualify"
    );
    assert_eq!(strip_ansi(&streaming.flush_buffered_echo()), b"log");
}

#[test]
fn streaming_does_not_buffer_unterminated_escape_without_bound() {
    let highlighter =
        Highlighter::from_config(PrismConfig::default()).expect("empty config compiles");
    let mut streaming = StreamingHighlighter::new(highlighter);

    let mut input = b"\x1b[".to_vec();
    input.extend(std::iter::repeat_n(
        b';',
        MAX_INCOMPLETE_ESCAPE_BYTES + 1,
    ));
    let out = streaming.push(&input);

    assert!(
        out.len() >= MAX_INCOMPLETE_ESCAPE_BYTES,
        "an unterminated escape past the cap must be flushed, not buffered (got {} bytes)",
        out.len()
    );
}

#[test]
fn oversized_string_controls_remain_discarded_until_their_real_terminator() {
    let highlighter =
        Highlighter::from_config(PrismConfig::default()).expect("empty config compiles");

    for interactive in [false, true] {
        for (introducer, terminator) in [
            (b"\x1b]".as_slice(), b"\x07".as_slice()),
            (b"\x9d".as_slice(), b"\x07".as_slice()),
            (b"\x1bP".as_slice(), b"\x1b\\".as_slice()),
            (b"\x1bX".as_slice(), b"\x1b\\".as_slice()),
            (b"\x1b^".as_slice(), b"\x1b\\".as_slice()),
            (b"\x1b_".as_slice(), b"\x1b\\".as_slice()),
            (b"\x90".as_slice(), b"\x9c".as_slice()),
            (b"\x98".as_slice(), b"\x9c".as_slice()),
            (b"\x9e".as_slice(), b"\x9c".as_slice()),
            (b"\x9f".as_slice(), b"\x9c".as_slice()),
        ] {
            let mut streaming = if interactive {
                StreamingHighlighter::new_interactive(highlighter.clone())
            } else {
                StreamingHighlighter::new(highlighter.clone())
            };
            let mut first = b"safe".to_vec();
            first.extend_from_slice(introducer);
            first.extend(std::iter::repeat_n(
                b'x',
                MAX_INCOMPLETE_ESCAPE_BYTES + 1,
            ));

            let mut output = streaming.push(&first);
            output.extend(streaming.push(b"\x1b[2J\x9b2J"));
            if terminator == b"\x1b\\" {
                output.extend(streaming.push(b"\x1b"));
                output.extend(streaming.push(b"\\after"));
            } else {
                let mut final_chunk = terminator.to_vec();
                final_chunk.extend_from_slice(b"after");
                output.extend(streaming.push(&final_chunk));
            }
            output.extend(streaming.finish());

            assert_eq!(
                output, b"safeafter",
                "payload escaped from {introducer:02x?}: {output:02x?}"
            );
            assert!(
                !output.windows(4).any(|window| window == b"\x1b[2J"),
                "nested CSI became active for {introducer:02x?}: {output:02x?}"
            );
        }
    }
}

#[test]
fn oversized_string_discard_ignores_non_c1_utf8_continuations() {
    let highlighter =
        Highlighter::from_config(PrismConfig::default()).expect("empty config compiles");
    let mut streaming = StreamingHighlighter::new(highlighter);
    let mut first = b"safe\x1bP".to_vec();
    first.extend(std::iter::repeat_n(
        b'x',
        MAX_INCOMPLETE_ESCAPE_BYTES + 1,
    ));

    let mut output = streaming.push(&first);
    output.extend(streaming.push(b"\xc2"));
    output.extend(streaming.push(b"\xa9"));
    output.extend(streaming.push(b"\xe2"));
    output.extend(streaming.push(b"\x9d"));
    output.extend(streaming.push(b"\x9c\x1b[2J"));
    output.extend(streaming.push(b"\x1b"));
    output.extend(streaming.push(b"\\after"));
    output.extend(streaming.finish());

    assert_eq!(output, b"safeafter");
    assert!(!output.windows(4).any(|window| window == b"\x1b[2J"));
}

#[test]
fn oversized_string_discard_recovers_raw_st_after_malformed_utf8() {
    let highlighter =
        Highlighter::from_config(PrismConfig::default()).expect("empty config compiles");

    for introducer in [b"\x1b]".as_slice(), b"\x1bP".as_slice()] {
        let mut streaming = StreamingHighlighter::new(highlighter.clone());
        let mut first = b"safe".to_vec();
        first.extend_from_slice(introducer);
        first.extend(std::iter::repeat_n(
            b'x',
            MAX_INCOMPLETE_ESCAPE_BYTES + 1,
        ));

        let mut output = streaming.push(&first);
        output.extend(streaming.push(b"\xe2"));
        output.extend(streaming.push(b"\x9c"));
        output.extend(streaming.push(b"after"));
        output.extend(streaming.finish());

        assert_eq!(
            output, b"safeafter",
            "malformed UTF-8 hid the suffix after {introducer:02x?}"
        );
    }
}

#[test]
fn oversized_string_discard_replays_utf8_suffix_after_cross_chunk_raw_st() {
    let highlighter =
        Highlighter::from_config(PrismConfig::default()).expect("empty config compiles");
    let mut streaming = StreamingHighlighter::new(highlighter);
    let mut first = b"safe\x1bP".to_vec();
    first.extend(std::iter::repeat_n(
        b'x',
        MAX_INCOMPLETE_ESCAPE_BYTES + 1,
    ));

    let mut output = streaming.push(&first);
    output.extend(streaming.push(b"\xf0\x9c\x80"));
    output.extend(streaming.push(b"after"));
    output.extend(streaming.finish());

    assert_eq!(output, b"safe\x80after");
}

#[test]
fn fragmented_incomplete_csi_is_neutralized_at_the_non_string_work_cap() {
    let highlighter =
        Highlighter::from_config(PrismConfig::default()).expect("empty config compiles");
    let mut streaming = StreamingHighlighter::new(highlighter);
    let mut output = streaming.push(b"\x1b[");

    for _ in 0..1_025 {
        output.extend(streaming.push(b";"));
    }

    assert!(
        !output.is_empty(),
        "fragmented CSI remained buffered beyond the intended work cap"
    );
    assert!(!output.contains(&0x1b), "raw ESC was emitted after the cap");
}

#[test]
fn string_tracker_rebases_after_emitting_a_visible_prefix() {
    let highlighter =
        Highlighter::from_config(PrismConfig::default()).expect("empty config compiles");
    let mut streaming = StreamingHighlighter::new(highlighter);

    let mut output = streaming.push(b"safe\x1b]ab\x1b]");
    output.extend(streaming.push(b"\x07after"));
    output.extend(streaming.finish());

    assert_eq!(output, b"safe\x1b]ab\x1b]\x07after");
}

#[test]
fn interactive_minimal_reset_keeps_text_attributes_and_backgrounds() {
    let config = from_chromaterm_yaml(
        r##"
rules:
  - description: rich state
    regex: '\bup\b'
    color: f#00ff00 b#0000ff bold underline
"##,
    )
    .expect("config parses");
    let highlighter = Highlighter::from_config(config).expect("highlighter builds");
    let mut streaming = StreamingHighlighter::new_interactive(highlighter);
    streaming.set_no_minimal_resets(false);

    let output = String::from_utf8(streaming.push(b"up down\n")).expect("output is utf8");

    assert!(output.contains("\x1b[4;38;2;0;255;0;48;2;0;0;255mup"));
    assert!(output.contains("\x1b[24;39;49m"));
}

#[test]
fn interactive_flush_buffered_echo_surfaces_colon_prompt_typed_characters() {
    // Reproduces the interactive echo bug: at a colon/menu-style prompt that
    // the detector does not recognise (e.g. useradd's "Full Name []:" or a
    // 1/2/3 menu), a typed character is buffered as an incomplete token and
    // stays invisible until another byte arrives. flush_buffered_echo surfaces
    // it once the input source goes idle (a keystroke-sized read with nothing
    // following).
    let highlighter =
        Highlighter::from_config(PrismConfig::default()).expect("empty config compiles");
    let mut streaming = StreamingHighlighter::new_interactive(highlighter);

    assert_eq!(streaming.push_str("Full Name []: "), "Full Name []: ");

    // The keystroke is held back by the streaming token buffer (the bug).
    assert_eq!(streaming.push_str("1"), "");
    // Going idle surfaces the buffered echo from that push, not a later one.
    assert_eq!(
        String::from_utf8(streaming.flush_buffered_echo()).expect("echo is UTF-8"),
        "1"
    );

    // A second keystroke behaves identically.
    assert_eq!(streaming.push_str("j"), "");
    assert_eq!(
        String::from_utf8(streaming.flush_buffered_echo()).expect("echo is UTF-8"),
        "j"
    );

    // Nothing remains buffered.
    assert!(streaming.finish().is_empty());
}

#[test]
fn flush_buffered_echo_never_emits_a_partial_escape_sequence() {
    let highlighter =
        Highlighter::from_config(PrismConfig::default()).expect("empty config compiles");
    let mut streaming = StreamingHighlighter::new_interactive(highlighter);

    assert_eq!(streaming.push_str("Choice []: "), "Choice []: ");
    // A read that ends mid escape sequence leaves only the partial escape buffered.
    assert_eq!(streaming.push_str("\x1b["), "");
    // An idle flush must keep the incomplete escape buffered, never emit it raw.
    assert!(streaming.flush_buffered_echo().is_empty());
    // The completing bytes produce the full sequence.
    assert_eq!(streaming.push_str("0m"), "\x1b[0m");
    assert!(streaming.finish().is_empty());
}

#[test]
fn interactive_finish_neutralizes_incomplete_csi_before_resetting_overlay() {
    let config = from_chromaterm_yaml(
        "rules:\n  - description: up state\n    regex: up\n    color: f#00ff00\n",
    )
    .expect("config parses");
    let highlighter = Highlighter::from_config(config).expect("rules compile");
    let mut streaming = StreamingHighlighter::new_interactive(highlighter);

    let mut output = streaming.push(b"up\x1b[31");
    assert!(
        output
            .windows(b"\x1b[38".len())
            .any(|bytes| bytes == b"\x1b[38"),
        "the highlight overlay should be active before finish: {output:02x?}"
    );
    output.extend(streaming.finish());

    assert_eq!(strip_ansi(&output), b"up^[31");
    assert_eq!(incomplete_escape_start(&output), None);
    assert!(
        output
            .windows(b"\x1b[39m^[31".len())
            .any(|bytes| bytes == b"\x1b[39m^[31"),
        "the generated reset must precede neutralized CSI text: {output:02x?}"
    );
}

#[test]
fn finish_drops_unterminated_string_controls_and_preserves_visible_prefix() {
    let highlighter =
        Highlighter::from_config(PrismConfig::default()).expect("empty config compiles");

    for suffix in [
        b"\x1b]0;unfinished title".as_slice(),
        b"\x1b]0;payload with nested csi \x1b[".as_slice(),
        b"\x1b]0;payload with complete nested csi \x1b[31m".as_slice(),
        b"\x1bPunfinished dcs".as_slice(),
        b"\x1bXunfinished sos".as_slice(),
        b"\x1b^unfinished pm".as_slice(),
        b"\x1b_unfinished apc".as_slice(),
        b"\x9d0;unfinished title".as_slice(),
        b"\x9d0;payload with nested csi \x9b31".as_slice(),
        b"\x9d0;payload with complete nested csi \x9b31m".as_slice(),
        b"\x90unfinished dcs".as_slice(),
        b"\x98unfinished sos".as_slice(),
        b"\x9eunfinished pm".as_slice(),
        b"\x9funfinished apc".as_slice(),
    ] {
        let mut input = b"safe prefix".to_vec();
        input.extend_from_slice(suffix);
        let mut streaming = StreamingHighlighter::new_interactive(highlighter.clone());

        let mut output = streaming.push(&input);
        output.extend(streaming.finish());

        assert_eq!(output, b"safe prefix", "unsafe EOF output: {output:02x?}");
    }
}

#[test]
fn completed_string_control_keeps_nested_incomplete_looking_bytes_in_its_payload() {
    let highlighter =
        Highlighter::from_config(PrismConfig::default()).expect("empty config compiles");

    for input in [
        b"safe\x1b]0;payload\x1b[\x07after".as_slice(),
        b"safe\x9d0;payload\x9b31\x9cafter".as_slice(),
    ] {
        let mut streaming = StreamingHighlighter::new_interactive(highlighter.clone());
        let mut output = streaming.push(input);
        output.extend(streaming.finish());
        assert_eq!(
            output, input,
            "completed string control changed: {output:02x?}"
        );
    }
}

#[test]
fn finish_neutralizes_raw_c1_csi_and_drops_raw_c1_strings() {
    let highlighter =
        Highlighter::from_config(PrismConfig::default()).expect("empty config compiles");

    let mut csi = StreamingHighlighter::new_interactive(highlighter.clone());
    let mut csi_output = csi.push(b"safe\x9b31");
    csi_output.extend(csi.finish());
    assert_eq!(csi_output, b"safe^31");
    assert!(!csi_output.contains(&0x9b));

    let mut osc = StreamingHighlighter::new_interactive(highlighter);
    let mut osc_output = osc.push(b"safe\x9d0;unfinished");
    osc_output.extend(osc.finish());
    assert_eq!(osc_output, b"safe");
    assert!(!osc_output.contains(&0x9d));
}

#[test]
fn noninteractive_finish_never_emits_an_incomplete_terminal_control() {
    let highlighter =
        Highlighter::from_config(PrismConfig::default()).expect("empty config compiles");

    let mut csi = StreamingHighlighter::new(highlighter.clone());
    let mut csi_output = csi.push(b"plain\x1b[2;");
    csi_output.extend(csi.finish());
    assert_eq!(csi_output, b"plain^[2;");
    assert_eq!(incomplete_escape_start(&csi_output), None);

    let mut dcs = StreamingHighlighter::new(highlighter);
    let mut dcs_output = dcs.push(b"plain\x1bPunfinished");
    dcs_output.extend(dcs.finish());
    assert_eq!(dcs_output, b"plain");
    assert_eq!(incomplete_escape_start(&dcs_output), None);
}

#[test]
fn finish_preserves_incomplete_utf8_bytes_that_contain_c1_values() {
    let config = from_chromaterm_yaml(
        "rules:\n  - description: lead byte\n    regex: '\\xE2'\n    color: f#00ff00\n",
    )
    .expect("config parses");
    let highlighter = Highlighter::from_config(config).expect("rule compiles");

    for interactive in [false, true] {
        let mut streaming = if interactive {
            StreamingHighlighter::new_interactive(highlighter.clone())
        } else {
            StreamingHighlighter::new(highlighter.clone())
        };
        let input = b"\xe2\x9d";
        let mut output = streaming.push(input);
        output.extend(streaming.finish());
        assert_eq!(output, input, "partial UTF-8 changed: {output:02x?}");
    }
}

#[test]
fn flush_buffered_echo_is_noop_for_noninteractive_streams() {
    let config = from_chromaterm_yaml(
        r##"
rules:
  - description: documentation IPv4 addresses
    regex: '\b192\.0\.2\.\d+\b'
    color: f#00ffff
"##,
    )
    .expect("config parses");
    let highlighter = Highlighter::from_config(config).expect("rules compile");
    let mut streaming = StreamingHighlighter::new(highlighter);

    // Noninteractive streaming speculatively buffers a partial token so a token
    // split across reads is still highlighted as a unit.
    assert_eq!(streaming.push_str("ip 192.0."), "ip ");
    // An echo flush must not disturb noninteractive token buffering.
    assert!(streaming.flush_buffered_echo().is_empty());
    // The rest of the token completes and is highlighted as a single span.
    let mut output = String::from("ip ");
    output.push_str(&streaming.push_str("2.1\n"));
    assert!(
        output.contains("\x1b[38;2;0;255;255m192.0.2.1\x1b[0m"),
        "{output:?}"
    );
}

#[test]
fn malformed_extended_sgr_color_parameters_are_not_reinterpreted_as_attributes() {
    let mut state = NativeSgrState::new();

    state.apply_sequence(b"\x1b[38;5m");
    assert_eq!(start_text(&state), None);

    state.apply_sequence(b"\x1b[48;2;3;4m");
    assert_eq!(start_text(&state), None);
}

#[test]
fn empty_sgr_parameters_reset_native_state_before_following_codes() {
    let mut state = NativeSgrState::new();

    state.apply_sequence(b"\x1b[1m");
    state.apply_sequence(b"\x1b[;31m");

    assert_eq!(start_text(&state).as_deref(), Some("\x1b[31m"));
}

#[test]
fn native_state_restores_faint_conceal_overline_and_attribute_variants() {
    let mut state = NativeSgrState::new();

    state.apply_sequence(b"\x1b[2;6;8;21;53m");
    assert_eq!(start_text(&state).as_deref(), Some("\x1b[2;6;8;21;53m"));

    state.apply_sequence(b"\x1b[22;25;28;24;55m");
    assert_eq!(start_text(&state), None);
}

#[test]
fn native_state_preserves_colon_underline_and_replaces_exclusive_variants() {
    let mut state = NativeSgrState::new();

    state.apply_sequence(b"\x1b[4:3m");
    assert_eq!(start_text(&state).as_deref(), Some("\x1b[4:3m"));

    state.apply_sequence(b"\x1b[21m");
    state.apply_sequence(b"\x1b[4m");
    assert_eq!(start_text(&state).as_deref(), Some("\x1b[4m"));

    state.apply_sequence(b"\x1b[12m");
    state.apply_sequence(b"\x1b[11m");
    assert_eq!(start_text(&state).as_deref(), Some("\x1b[4;11m"));
}

#[test]
fn native_colon_sgr_reconstructs_only_exact_safe_parameters() {
    let mut state = NativeSgrState::new();

    state.apply_sequence(b"\x1b[4:03m");
    state.apply_sequence(b"\x1b[38:05:042m");
    let empty_color_space = [b"\x1b[48:2:".as_slice(), b":001:002:003m"].concat();
    state.apply_sequence(&empty_color_space);
    state.apply_sequence(b"\x1b[58:2:000:004:005:006m");
    let expected = ["\x1b[4:3;38:5:42;48:2:", ":1:2:3;58:2:0:4:5:6m"].concat();
    assert_eq!(start_text(&state).as_deref(), Some(expected.as_str()));

    let extra_rgb_field = [b"\x1b[48:2:".as_slice(), b":1:2:3:4m"].concat();
    for invalid in [
        b"\x1b[4:3:0m".as_slice(),
        b"\x1b[38:5:42:0m".as_slice(),
        extra_rgb_field.as_slice(),
        b"\x1b[4:3:\x07m".as_slice(),
        b"\x1b[38:5:42:\nm".as_slice(),
    ] {
        let mut state = NativeSgrState::new();
        state.apply_sequence(invalid);
        assert_eq!(start_text(&state), None, "accepted {invalid:02x?}");
    }
}

#[test]
fn highlighted_output_does_not_reemit_controls_from_malformed_colon_sgr() {
    let config = from_chromaterm_yaml(
        "rules:\n  - description: marker\n    regex: 'x'\n    color: f#ff0000\n",
    )
    .expect("config parses");
    let highlighter = Highlighter::from_config(config).expect("rule compiles");

    for prefix in [b"\x1b[4:3:\x07m".as_slice(), b"\x1b[38:5:42:\nm".as_slice()] {
        let mut input = prefix.to_vec();
        input.push(b'x');
        let output = highlighter.highlight_bytes(&input);
        let input_controls = input
            .iter()
            .filter(|byte| matches!(**byte, b'\x07' | b'\n'))
            .count();
        let output_controls = output
            .iter()
            .filter(|byte| matches!(**byte, b'\x07' | b'\n'))
            .count();

        assert_eq!(output_controls, input_controls, "output {output:02x?}");
        assert!(output.ends_with(b"\x1b[0m"), "output {output:02x?}");
    }
}

#[test]
fn native_colon_underline_is_restored_after_prism_underline() {
    let mut state = NativeSgrState::new();
    state.apply_sequence(b"\x1b[4:3m");
    let prism_style = Style {
        underline: true,
        ..Style::default()
    };

    assert_eq!(
        state.restore_after_interactive_style(&prism_style),
        b"\x1b[24;4:3m"
    );
}

#[test]
fn regex_compile_diagnostics_escape_untrusted_rule_descriptions() {
    let config = from_chromaterm_yaml(
        r#"
rules:
  - description: "bad\u001b]0;title\u0007"
    regex: '('
    color: f#ff0000
"#,
    )
    .expect("config parses before regex compilation");

    let message = Highlighter::from_config(config)
        .expect_err("invalid regex should fail")
        .message();

    assert!(!message.contains('\u{1b}'), "{message:?}");
    assert!(!message.contains('\u{7}'), "{message:?}");
    assert!(message.contains("\\x1b"), "{message:?}");
    assert!(message.contains("\\x07"), "{message:?}");
}

#[test]
fn raw_c1_controls_are_not_visible_or_highlightable_text() {
    let config = from_chromaterm_yaml(
        r##"
rules:
  - description: control payload
    regex: '31m'
    color: f#ff0000
"##,
    )
    .expect("config parses");
    let highlighter = Highlighter::from_config(config).expect("rule compiles");
    let input = b"before\x9b31mafter\x9b0m\n";

    assert_eq!(highlighter.highlight_bytes(input), input);
    assert_eq!(strip_ansi(input), b"beforeafter\n");
    assert_eq!(
        AnsiChunk::from_slice(input).visible_bytes(),
        b"beforeafter\n"
    );
}

#[test]
fn raw_c1_string_controls_are_sanitized_but_c1_csi_is_preserved() {
    let input = b"safe\x9d0;title\x07\x9b31mred\x9b0m\n";

    assert_eq!(
        strip_string_escapes(input),
        b"safe\x9b31mred\x9b0m\n"
    );
}

#[test]
fn raw_c1_mode_contract_covers_every_control_byte() {
    for control in 0x80u8..=0x9f {
        let sequence = match control {
            0x9b => vec![control, b'3', b'1', b'm'],
            0x9d => vec![control, b'x', 0x07],
            0x90 | 0x98 | 0x9e | 0x9f => vec![control, b'x', 0x9c],
            _ => vec![control],
        };
        let mut input = b"a".to_vec();
        input.extend_from_slice(&sequence);
        input.push(b'b');

        assert_eq!(strip_ansi(&input), b"ab", "control 0x{control:02x}");
        let expected_sanitized = if matches!(control, 0x90 | 0x98 | 0x9d | 0x9e | 0x9f) {
            b"ab".to_vec()
        } else {
            input.clone()
        };
        assert_eq!(
            strip_string_escapes(&input),
            expected_sanitized,
            "control 0x{control:02x}"
        );
    }
}

#[test]
fn utf8_continuation_bytes_do_not_terminate_string_controls() {
    // U+071C is DC 9C in UTF-8. Its continuation byte is numerically the
    // 8-bit ST control, but it remains payload while part of valid UTF-8.
    for introducer in [b"\x1b]0;".as_slice(), b"\x9d0;".as_slice()] {
        let mut input = b"before".to_vec();
        input.extend_from_slice(introducer);
        input.extend_from_slice("hidden \u{071c} payload".as_bytes());
        input.push(0x07);
        input.extend_from_slice(b"after");

        assert_eq!(strip_string_escapes(&input), b"beforeafter");
        assert_eq!(strip_ansi(&input), b"beforeafter");
    }
}

#[test]
fn malformed_utf8_before_raw_st_does_not_hide_visible_suffix_text() {
    for introducer in [b"\x1b]0;".as_slice(), b"\x9d0;".as_slice()] {
        let mut input = b"before".to_vec();
        input.extend_from_slice(introducer);
        input.extend_from_slice(&[0xe2, 0x9c]);
        input.extend_from_slice(b"after");

        assert_eq!(strip_string_escapes(&input), b"beforeafter");
        assert_eq!(strip_ansi(&input), b"beforeafter");
    }
}

#[test]
fn raw_c1_csi_and_strings_are_carried_across_read_boundaries() {
    assert_eq!(incomplete_escape_start(b"ok\x9b31"), Some(2));
    assert_eq!(incomplete_sanitize_start(b"ok\x9dtitle"), Some(2));
}

#[test]
fn raw_c1_csi_updates_terminal_state_checks() {
    assert_eq!(alternate_screen_command(b"\x9b?1049h"), Some(true));
    assert!(is_cursor_positioning_sequence(b"\x9b2H"));
}

#[test]
fn utf8_c1_csi_matches_raw_c1_csi_in_every_classifier() {
    assert_eq!(
        alternate_screen_command(b"\xc2\x9b?1049h"),
        Some(true)
    );
    assert_eq!(
        alternate_screen_command(b"\xc2\x9b?1049l"),
        Some(false)
    );
    assert!(is_csi_sequence(b"\xc2\x9b2H"));
    assert!(is_cursor_positioning_sequence(b"\xc2\x9b2H"));
    assert!(is_interactive_layout_boundary_sequence(
        b"\xc2\x9b2J"
    ));
    assert!(contains_bracketed_paste_disable_tokens(&[
        Token::Ansi(b"\xc2\x9b?2004l".to_vec())
    ]));

    let mut state = NativeSgrState::new();
    state.apply_sequence(b"\xc2\x9b31m");
    assert_eq!(start_text(&state).as_deref(), Some("\x1b[31m"));
    state.apply_sequence(b"\xc2\x9b0m");
    assert_eq!(start_text(&state), None);

    // The visible-byte map must agree with the tokenizer: the control is
    // not visible text, and it is an SGR range.
    let (visible, ranges) = visible_byte_map_and_ansi_ranges(b"a\xc2\x9b31mb");
    assert_eq!(
        visible.iter().map(|(byte, _)| *byte).collect::<Vec<_>>(),
        b"ab"
    );
    assert_eq!(ranges, vec![(1, 6)]);
}

#[test]
fn incomplete_escape_scan_checks_the_suffix_candidate() {
    assert_eq!(incomplete_escape_start(b"ok\x1b[31mstill\x1b["), Some(12));
    assert_eq!(incomplete_escape_start(b"ok\x1b[31m"), None);
}

/// The bytes without SGR sequences.
fn without_sgr(bytes: &[u8]) -> Vec<u8> {
    let mut out = Vec::new();
    let mut i = 0;
    while i < bytes.len() {
        if bytes[i..].starts_with(b"\x1b[") {
            let len = bytes[i + 2..]
                .iter()
                .position(|b| !(0x30..=0x3b).contains(b))
                .map(|n| n + 3)
                .unwrap_or(0);
            if len > 0 && bytes[i + len - 1] == b'm' {
                i += len;
                continue;
            }
        }
        out.push(bytes[i]);
        i += 1;
    }
    out
}

fn number_config() -> PrismConfig {
    from_chromaterm_yaml("rules:\n  - description: n\n    regex: '\\d+'\n    color: f#ff0000\n")
        .expect("config parses")
}

#[test]
fn streams_change_nothing_but_colors() {
    let chunks: [&[u8]; 5] = [
        b"eth 12 up\x1b[2K 34\r\n56",
        b"7 \x1b]0;title 8\x07 words\xe2\x94",
        b"\x80 9\n\x1b[31mred 10\x1b[0m",
        b"user@host:~$ ls 11\r\n12 files\r\n",
        b"tail 13",
    ];
    for interactive in [false, true] {
        let highlighter = Highlighter::from_config(number_config()).expect("rules compile");
        let mut stream = if interactive {
            StreamingHighlighter::new_interactive(highlighter)
        } else {
            StreamingHighlighter::new(highlighter)
        };
        let mut out = Vec::new();
        let mut given = Vec::new();
        for chunk in chunks {
            given.extend_from_slice(chunk);
            out.extend(stream.push(chunk));
        }
        out.extend(stream.finish());
        assert_ne!(out, given);
        assert_eq!(without_sgr(&out), without_sgr(&given));
    }
}

#[test]
fn highlighting_the_same_input_twice_gives_the_same_output() {
    let highlighter = Highlighter::from_config(number_config()).expect("rules compile");
    let input = b"12 \x1b[1mx 34\x1b[0m\n5";
    let first = highlighter.try_highlight_bytes(input).expect("rules match");
    assert_eq!(highlighter.try_highlight_bytes(input).expect("rules match"), first);
    assert_eq!(
        highlighter.try_highlight_bytes(b"a 7").expect("rules match"),
        b"a \x1b[38;2;255;0;0m7\x1b[0m"
    );
}

#[test]
fn compile_errors_end_with_the_words_of_pcre2() {
    let config = from_chromaterm_yaml(
        "rules:\n  - description: bad\n    regex: '('\n    color: bold\n",
    )
    .expect("config parses");
    let message = Highlighter::from_config(config).expect_err("pattern is open").message();
    assert!(message.starts_with("rule 'bad' failed to compile: "));
    assert!(message.contains("missing closing parenthesis"));
}

#[test]
fn a_rule_has_one_line_in_the_report() {
    let rule = |description: &str| RuleSpec {
        description: description.to_string(),
        regex: "x".to_string(),
        style: RuleStyle::Whole(Style::default()),
        exclusive: false,
    };
    let mut report = BenchmarkReport::new();
    report.record(&rule("a"), 5, 1, &None);
    report.record(&rule("b"), 9, 2, &Some("limit".to_string()));
    report.record(&rule("a"), 7, 3, &None);
    let lines: Vec<_> = report
        .rules()
        .iter()
        .map(|line| (line.description.as_str(), line.duration, line.match_count))
        .collect();
    assert_eq!(lines, vec![("a", 12, 4), ("b", 9, 2)]);
    assert_eq!(report.first_rule_error().map(|line| line.description).as_deref(), Some("b"));
}

#[test]
fn attributes_are_restored_in_the_order_of_their_codes() {
    let mut state = NativeSgrState::new();
    state.apply_sequence(b"\x1b[9;20;1;3m");
    assert_eq!(start_text(&state).as_deref(), Some("\x1b[1;3;9m"));
}
