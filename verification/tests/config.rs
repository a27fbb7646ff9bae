use prismtty::config::{CaptureRef, ConfigError, PrismConfig, RuleStyle, RESERVED_PROFILE_RUNTIME_MESSAGE};
use prismtty::documents::{
    profile_file_from_doc, strong_signal_from_fields, CaptureKeyDoc, ColorDoc, LoadedProfileFile,
    MissingField, ProfileMetaDoc, ProfileYamlMode, RuleDoc, RulesDoc, StrongSignalKind,
};
use prismtty::metadata::MAX_PROFILE_DETECTION_HINTS;
use prismtty::prompts::PromptMatcherKind;
use prismtty::signals::{PromptConfidence, ProfileRuntimeMeta, StrongSignal};
use prismtty::palette::parse_palette;
use prismtty::style::{ColorMode, Rgb, Style};
use prismtty::terminal_text::escape_untrusted;
use serde_norway::Value;

fn color_doc(color: &Value) -> ColorDoc {
    match color {
        Value::String(text) => ColorDoc::Text(text.clone()),
        Value::Mapping(captures) => ColorDoc::Captures(
            captures
                .iter()
                .map(|(key, style)| {
                    let key = match key {
                        Value::Number(number) => match number.as_u64() {
                            Some(index) => CaptureKeyDoc::Number(index),
                            None => CaptureKeyDoc::OtherNumber(number.to_string()),
                        },
                        Value::String(name) => CaptureKeyDoc::Text(name.clone()),
                        other => CaptureKeyDoc::Other(format!("{other:?}")),
                    };
                    (key, style.as_str().map(str::to_string))
                })
                .collect(),
        ),
        _ => ColorDoc::Other,
    }
}

fn rule_doc(rule: &Value) -> RuleDoc {
    let text = |name: &str| rule.get(name).and_then(Value::as_str).unwrap_or("").to_string();
    RuleDoc {
        description: text("description"),
        regex: text("regex"),
        color: color_doc(rule.get("color").expect("rules have a color")),
        exclusive: rule.get("exclusive").and_then(Value::as_bool).unwrap_or(false),
    }
}

fn prompt_kind(value: Option<&Value>) -> PromptMatcherKind {
    match value.and_then(Value::as_str) {
        Some("cisco_host_marker") => PromptMatcherKind::CiscoHostMarker,
        _ => PromptMatcherKind::NoPrompt,
    }
}

fn strings(value: Option<&Value>) -> Vec<String> {
    value
        .and_then(Value::as_sequence)
        .map(|all| {
            all.iter().map(|text| text.as_str().expect("entries are text").to_string()).collect()
        })
        .unwrap_or_default()
}

fn rules_doc(yaml: &str) -> RulesDoc {
    let value: Value = serde_norway::from_str(yaml).expect("YAML parses");
    let mut palette: Vec<(String, String)> = value
        .get("palette")
        .and_then(Value::as_mapping)
        .map(|palette| {
            palette
                .iter()
                .map(|(name, color)| {
                    (
                        name.as_str().expect("names are text").to_string(),
                        color.as_str().expect("colors are text").to_string(),
                    )
                })
                .collect()
        })
        .unwrap_or_default();
    palette.sort();
    let profile = value.get("profile").map(|profile| ProfileMetaDoc {
        name: profile.get("name").and_then(Value::as_str).expect("a name").to_string(),
        inherits: strings(profile.get("inherits")),
        detection: strings(profile.get("detection")),
        runtime: profile.get("runtime").map(|runtime| ProfileRuntimeMeta {
            priority: runtime.get("priority").and_then(Value::as_u64).expect("a number") as u16,
            local_baseline: false,
            strong_signals: Vec::new(),
            negative_signals: Vec::new(),
            startup_prompt: prompt_kind(runtime.get("startup_prompt")),
            runtime_prompt: prompt_kind(runtime.get("runtime_prompt")),
            prompt_confidence: PromptConfidence::Repeated,
        }),
    });
    let rules = value
        .get("rules")
        .and_then(Value::as_sequence)
        .map(|rules| rules.iter().map(rule_doc).collect())
        .unwrap_or_default();
    RulesDoc { profile, palette, rules }
}

fn from_chromaterm_yaml(yaml: &str) -> Result<PrismConfig, ConfigError> {
    PrismConfig::from_rules_doc(&rules_doc(yaml))
}

fn parse_profile_yaml(yaml: &str) -> Result<LoadedProfileFile, ConfigError> {
    profile_file_from_doc(rules_doc(yaml), ProfileYamlMode::User)
}

#[test]
fn capture_names_must_match_pcre2_identifier_shape() {
    let yaml = r#"
rules:
  - description: named capture
    regex: '(?P<name>\w+)'
    color:
      _valid_name_1: f#ffffff
      bad-name: f#ff0000
"#;

    let err = from_chromaterm_yaml(yaml)
        .expect_err("invalid capture name should fail during config parsing");

    assert_eq!(
        err.message(),
        "rule 'named capture' has invalid capture key: bad-name"
    );
}

#[test]
fn config_diagnostics_escape_untrusted_terminal_metadata() {
    let yaml = r#"
rules:
  - description: "bad\u001b]0;title\u0007"
    regex: '(?P<name>\w+)'
    color:
      "bad\u001b[31m": f#ffffff
"#;

    let message = from_chromaterm_yaml(yaml)
        .expect_err("invalid capture name should fail")
        .message();

    assert!(!message.contains('\u{1b}'), "{message:?}");
    assert!(!message.contains('\u{7}'), "{message:?}");
    assert!(message.contains("\\x1b"), "{message:?}");
    assert!(message.contains("\\x07"), "{message:?}");
}

#[test]
fn user_profile_runtime_is_reserved() {
    let yaml = r#"
profile:
  name: custom-router
  runtime:
    priority: 5
    startup_prompt: cisco_host_marker
    runtime_prompt: cisco_host_marker
    strong_signals: []
rules: []
"#;

    let err = parse_profile_yaml(yaml).expect_err("user profile.runtime must be rejected");

    assert_eq!(err.message(), RESERVED_PROFILE_RUNTIME_MESSAGE);
}

#[test]
fn profile_metadata_is_normalized_and_deduplicated() {
    let yaml = r#"
profile:
  name: custom-router
  inherits: [" generic ", generic, "base", "base ", ""]
  detection: [" JUNOS ", junos, "jUnOs", " IOS ", ""]
rules: []
"#;

    let loaded = parse_profile_yaml(yaml).expect("bounded profile metadata should parse");

    assert_eq!(loaded.meta.inherits, ["generic", "base"]);
    assert_eq!(loaded.meta.detection, ["JUNOS", "IOS"]);
}

#[test]
fn profile_parser_rejects_metadata_one_over_the_limit_with_safe_diagnostics() {
    let mut yaml =
        String::from("profile:\n  name: \"bad\\u001b]0;title\\u0007\"\n  detection:\n");
    for index in 0..=MAX_PROFILE_DETECTION_HINTS {
        yaml.push_str(&format!("    - hint-{index}\n"));
    }
    yaml.push_str("rules: []\n");

    let error = parse_profile_yaml(&yaml)
        .expect_err("one unique hint above the limit must fail during parsing");
    assert!(matches!(error, ConfigError::Yaml(_)));
    let message = error.message();

    assert_eq!(
        message,
        format!(
            "failed to parse YAML: profile detection hint count is {}; limit is {}",
            MAX_PROFILE_DETECTION_HINTS + 1,
            MAX_PROFILE_DETECTION_HINTS
        )
    );
    assert!(!message.contains('\u{1b}'), "{message:?}");
    assert!(!message.contains('\u{7}'), "{message:?}");
}

#[test]
fn malformed_non_ascii_rgb_color_returns_error_without_panic() {
    assert!(Style::parse("f#\u{20ac}\u{20ac}").is_err());
}

#[test]
fn escapes_terminal_and_bidirectional_controls_without_changing_unicode_text() {
    assert_eq!(
        escape_untrusted("router\u{1b}]0;spoof\u{7}\n\u{2028}\u{2029}\u{202e}\u{e9}"),
        "router\\x1b]0;spoof\\x07\\n\\u{2028}\\u{2029}\\u{202e}\u{e9}"
    );
}

#[test]
fn profile_files_need_a_name_and_bundled_ones_a_runtime() {
    let error = parse_profile_yaml("rules: []\n").expect_err("the profile section is missing");
    assert_eq!(error.message(), "profile files must include profile.name");

    let doc = rules_doc("profile:\n  name: custom\nrules: []\n");
    let error = profile_file_from_doc(doc, ProfileYamlMode::Bundled)
        .expect_err("bundled profiles have runtime metadata");
    assert_eq!(error.message(), "bundled profile files must include profile.runtime");
}

#[test]
fn captures_are_styled_in_the_order_of_their_groups() {
    let config = from_chromaterm_yaml(
        "rules:\n  - description: d\n    regex: '(a)(?P<n>b)'\n    color:\n      n: bold\n      2: f#0000ff\n      1: f#ff0000\n",
    )
    .expect("config parses");
    match &config.rules[0].style {
        RuleStyle::Captures(captures) => {
            assert_eq!(captures.len(), 3);
            assert!(matches!(captures[0].0, CaptureRef::Index(1)));
            assert!(matches!(captures[1].0, CaptureRef::Index(2)));
            assert!(matches!(&captures[2].0, CaptureRef::Name(name) if name == "n"));
            assert_eq!(captures[0].1.foreground, Some(Rgb { r: 255, g: 0, b: 0 }));
        }
        RuleStyle::Whole(_) => panic!("capture styles were expected"),
    }
}

#[test]
fn palettes_name_colors() {
    let config = from_chromaterm_yaml(
        "palette:\n  sky: '#102030'\nrules:\n  - description: d\n    regex: x\n    color: f.sky\n",
    )
    .expect("config parses");
    match &config.rules[0].style {
        RuleStyle::Whole(style) => {
            assert_eq!(style.foreground, Some(Rgb { r: 16, g: 32, b: 48 }));
            assert_eq!(
                style.ansi_start_with_mode(ColorMode::TrueColor),
                "\u{1b}[38;2;16;32;48m"
            );
        }
        RuleStyle::Captures(_) => panic!("a whole style was expected"),
    }
    let error = from_chromaterm_yaml("palette:\n  sky: blue\nrules: []\n")
        .expect_err("the color is no color");
    assert!(error.message().starts_with("palette has invalid color: "));
    assert!(parse_palette(&vec![("sky".to_string(), "blue".to_string())]).is_err());
}

#[test]
fn styles_that_are_no_styles_are_named() {
    let error = from_chromaterm_yaml(
        "rules:\n  - description: odd\n    regex: x\n    color: [1, 2]\n",
    )
    .expect_err("a list is no style");
    assert!(error.message().starts_with("rule 'odd' has invalid style: "));
    let error = from_chromaterm_yaml(
        "rules:\n  - description: odd\n    regex: x\n    color: sparkling\n",
    )
    .expect_err("an unknown word is no style");
    assert!(error.message().starts_with("rule 'odd' has invalid style: "));
}

#[test]
fn signals_need_the_fields_of_their_kind() {
    let some = |text: &str| Some(text.to_string());
    assert!(matches!(
        strong_signal_from_fields(StrongSignalKind::Contains, some("JUNOS"), None, None),
        Ok(StrongSignal::Contains { value }) if value == "JUNOS"
    ));
    assert_eq!(
        strong_signal_from_fields(StrongSignalKind::Contains, None, None, None).unwrap_err(),
        MissingField::Value
    );
    assert_eq!(
        strong_signal_from_fields(StrongSignalKind::ContainsAny, None, None, None).unwrap_err(),
        MissingField::Values
    );
    let prefixed =
        |prefix: Option<String>, values: Option<Vec<String>>| {
            strong_signal_from_fields(StrongSignalKind::LinePrefixAndAny, None, values, prefix)
        };
    assert_eq!(prefixed(None, None).unwrap_err().name(), "prefix");
    assert_eq!(prefixed(some("Version:"), None).unwrap_err().name(), "values");
    assert!(prefixed(some("Version:"), Some(vec!["FortiGate".to_string()])).is_ok());
}
