use prismtty::config::{ConfigError, PrismConfig, RuleSpec, RuleStyle};
use prismtty::detection::is_detection_word_byte;
use prismtty::metadata::{
    normalize_and_validate_profile_metadata, ProfileMetadataLimitError,
    MAX_PROFILE_DETECTION_BYTES, MAX_PROFILE_DETECTION_HINTS, MAX_PROFILE_INHERITANCE_BYTES,
    MAX_PROFILE_INHERITANCE_ENTRIES, MAX_PROFILE_METADATA_ENTRY_BYTES, MAX_STORE_DETECTION_BYTES,
    MAX_STORE_DETECTION_HINTS, MAX_STORE_INHERITANCE_BYTES, MAX_STORE_INHERITANCE_ENTRIES,
};
use prismtty::profiles::Profile;
use prismtty::prompts::PromptMatcherKind;
use prismtty::selection::is_generic_profile_set;
use prismtty::style::{Rgb, Style};
use prismtty::text::{contains_case_insensitive, starts_with_case_insensitive};
use prismtty::{Highlighter, ProfileStore};

fn chars(text: &str) -> Vec<char> {
    text.chars().collect()
}

fn all_profiles(store: &ProfileStore) -> Vec<&Profile> {
    (0..store.len()).map(|index| store.nth(index)).collect()
}

fn validated(
    inherits: Vec<String>,
    detection: Vec<String>,
) -> Result<(Vec<String>, Vec<String>), ProfileMetadataLimitError> {
    normalize_and_validate_profile_metadata(&inherits, &detection)
}

fn fixed_length_entries(prefix: &str, count: usize, length: usize) -> Vec<String> {
    (0..count)
        .map(|index| {
            let label = format!("{prefix}-{index:04}-");
            assert!(label.len() <= length, "test label must fit entry length");
            format!("{label}{}", "x".repeat(length - label.len()))
        })
        .collect()
}

fn reference_contains_detection_hint(haystack: &str, hint: &str) -> bool {
    let needle = hint.as_bytes();
    if needle.is_empty() || needle.len() > haystack.len() {
        return false;
    }

    haystack
        .as_bytes()
        .windows(needle.len())
        .enumerate()
        .any(|(start, window)| {
            if !window.eq_ignore_ascii_case(needle) {
                return false;
            }
            let end = start + needle.len();
            let starts_on_boundary = !is_detection_word_byte(needle[0])
                || start == 0
                || !is_detection_word_byte(haystack.as_bytes()[start - 1]);
            let ends_on_boundary = !is_detection_word_byte(needle[needle.len() - 1])
                || end == haystack.len()
                || !is_detection_word_byte(haystack.as_bytes()[end]);
            starts_on_boundary && ends_on_boundary
        })
}

fn reference_hint_profiles(store: &ProfileStore, sample: &str) -> Vec<String> {
    let mut detected = all_profiles(store)
        .iter()
        .filter(|profile| {
            profile.name != "generic"
                && profile
                    .detection
                    .iter()
                    .any(|hint| reference_contains_detection_hint(sample, hint))
        })
        .map(|profile| (profile.runtime.priority, profile.name.clone()))
        .collect::<Vec<_>>();
    detected.sort();

    let mut with_generic = vec!["generic".to_string()];
    with_generic.extend(detected.into_iter().map(|(_, name)| name));
    with_generic
}

fn next_generated(seed: &mut u64) -> u64 {
    *seed = seed
        .wrapping_mul(6_364_136_223_846_793_005)
        .wrapping_add(1_442_695_040_888_963_407);
    *seed
}

fn generated_ascii(seed: &mut u64, max_len: usize) -> String {
    const ALPHABET: &[u8] = b"abCDxyZ019_ -.:/";
    let len = (next_generated(seed) as usize) % (max_len + 1);
    (0..len)
        .map(|_| {
            let index = (next_generated(seed) as usize) % ALPHABET.len();
            ALPHABET[index] as char
        })
        .collect()
}

fn generated_ascii_case(seed: &mut u64, value: &str) -> String {
    value
        .bytes()
        .map(|byte| {
            (if next_generated(seed) & 1 == 0 {
                byte.to_ascii_lowercase()
            } else {
                byte.to_ascii_uppercase()
            }) as char
        })
        .collect()
}

// Two selected profiles that inherit each other must surface the cycle as
// an error. Pre-filtering in `top_level_profile_names` used to drop both
// (each looks "inherited by" the other), silently yielding a config with
// zero rules and no diagnostic.

#[test]
fn per_profile_detection_metadata_accepts_exact_limits_and_rejects_one_over() {
    let exact_count = fixed_length_entries("hint", MAX_PROFILE_DETECTION_HINTS, 16);
    let (_, normalized) =
        validated(Vec::new(), exact_count)
            .expect("exact detection count limit should be accepted");
    assert_eq!(normalized.len(), MAX_PROFILE_DETECTION_HINTS);

    let count_error = validated(
        Vec::new(),
        fixed_length_entries("hint", MAX_PROFILE_DETECTION_HINTS + 1, 16),
    )
    .expect_err("one hint above the count limit must be rejected");
    assert!(count_error.message().contains("detection hint count"));

    let exact_bytes = fixed_length_entries(
        "hint",
        MAX_PROFILE_DETECTION_BYTES / MAX_PROFILE_METADATA_ENTRY_BYTES,
        MAX_PROFILE_METADATA_ENTRY_BYTES,
    );
    validated(Vec::new(), exact_bytes.clone())
        .expect("exact detection byte limit should be accepted");

    let mut one_byte_over = exact_bytes;
    one_byte_over.push("z".to_string());
    let byte_error = validated(Vec::new(), one_byte_over)
        .expect_err("one byte above the detection byte limit must be rejected");
    assert!(byte_error.message().contains("detection hint bytes"));

    validated(
        Vec::new(),
        vec!["x".repeat(MAX_PROFILE_METADATA_ENTRY_BYTES)],
    )
    .expect("an exact-length detection hint should be accepted");
    let entry_error = validated(
        Vec::new(),
        vec!["x".repeat(MAX_PROFILE_METADATA_ENTRY_BYTES + 1)],
    )
    .expect_err("an oversized detection hint must be rejected");
    assert!(
        entry_error
            .message()
            .contains("detection hint entry bytes")
    );
}

#[test]
fn per_profile_inheritance_metadata_accepts_exact_limits_and_rejects_one_over() {
    let exact_count =
        fixed_length_entries("parent", MAX_PROFILE_INHERITANCE_ENTRIES, 16);
    let (normalized, _) =
        validated(exact_count, Vec::new())
            .expect("exact inheritance count limit should be accepted");
    assert_eq!(normalized.len(), MAX_PROFILE_INHERITANCE_ENTRIES);

    let count_error = validated(
        fixed_length_entries("parent", MAX_PROFILE_INHERITANCE_ENTRIES + 1, 16),
        Vec::new(),
    )
    .expect_err("one parent above the count limit must be rejected");
    assert!(count_error.message().contains("inheritance entry count"));

    let exact_bytes = fixed_length_entries(
        "parent",
        MAX_PROFILE_INHERITANCE_BYTES / MAX_PROFILE_METADATA_ENTRY_BYTES,
        MAX_PROFILE_METADATA_ENTRY_BYTES,
    );
    validated(exact_bytes.clone(), Vec::new())
        .expect("exact inheritance byte limit should be accepted");

    let mut one_byte_over = exact_bytes;
    one_byte_over.push("z".to_string());
    let byte_error = validated(one_byte_over, Vec::new())
        .expect_err("one byte above the inheritance byte limit must be rejected");
    assert!(byte_error.message().contains("inheritance entry bytes"));

    validated(
        vec!["x".repeat(MAX_PROFILE_METADATA_ENTRY_BYTES)],
        Vec::new(),
    )
    .expect("an exact-length inheritance name should be accepted");
    let entry_error = validated(
        vec!["x".repeat(MAX_PROFILE_METADATA_ENTRY_BYTES + 1)],
        Vec::new(),
    )
    .expect_err("an oversized inheritance name must be rejected");
    assert!(entry_error.message().contains("inheritance entry bytes"));
}

#[test]
fn store_detection_metadata_accepts_exact_aggregate_limits_and_replacements() {
    let mut count_store = ProfileStore::default();
    let profile_count = MAX_STORE_DETECTION_HINTS / MAX_PROFILE_DETECTION_HINTS;
    for profile_index in 0..profile_count {
        count_store
            .try_insert_user_profile(
                format!("count-{profile_index}"),
                Vec::new(),
                fixed_length_entries(
                    &format!("h{profile_index}"),
                    MAX_PROFILE_DETECTION_HINTS,
                    16,
                ),
                Vec::new(),
            )
            .expect("aggregate detection count up to the exact limit should be accepted");
    }
    assert!(
        count_store
            .try_insert_user_profile(
                "count-0".to_string(),
                Vec::new(),
                fixed_length_entries("replacement", MAX_PROFILE_DETECTION_HINTS, 20,),
                Vec::new(),
            )
            .expect("replacing a profile must subtract its old metadata first")
    );
    let count_error = count_store
        .try_insert_user_profile(
            "one-over".to_string(),
            Vec::new(),
            vec!["z".to_string()],
            Vec::new(),
        )
        .expect_err("one hint above the store count limit must be rejected");
    assert!(
        count_error
            .message()
            .contains("store detection hint count")
    );

    let mut byte_store = ProfileStore::default();
    let entries_per_profile =
        MAX_PROFILE_DETECTION_BYTES / MAX_PROFILE_METADATA_ENTRY_BYTES;
    let profile_count = MAX_STORE_DETECTION_BYTES / MAX_PROFILE_DETECTION_BYTES;
    for profile_index in 0..profile_count {
        byte_store
            .try_insert_user_profile(
                format!("bytes-{profile_index}"),
                Vec::new(),
                fixed_length_entries(
                    &format!("b{profile_index}"),
                    entries_per_profile,
                    MAX_PROFILE_METADATA_ENTRY_BYTES,
                ),
                Vec::new(),
            )
            .expect("aggregate detection bytes up to the exact limit should be accepted");
    }
    let byte_error = byte_store
        .try_insert_user_profile(
            "one-over".to_string(),
            Vec::new(),
            vec!["z".to_string()],
            Vec::new(),
        )
        .expect_err("one byte above the store detection limit must be rejected");
    assert!(
        byte_error
            .message()
            .contains("store detection hint bytes")
    );
}

#[test]
fn store_inheritance_metadata_accepts_exact_aggregate_limits() {
    let mut count_store = ProfileStore::default();
    let profile_count =
        MAX_STORE_INHERITANCE_ENTRIES / MAX_PROFILE_INHERITANCE_ENTRIES;
    for profile_index in 0..profile_count {
        count_store
            .try_insert_user_profile(
                format!("count-{profile_index}"),
                fixed_length_entries(
                    &format!("p{profile_index}"),
                    MAX_PROFILE_INHERITANCE_ENTRIES,
                    16,
                ),
                Vec::new(),
                Vec::new(),
            )
            .expect("aggregate inheritance count up to the exact limit should be accepted");
    }
    let count_error = count_store
        .try_insert_user_profile(
            "one-over".to_string(),
            vec!["z".to_string()],
            Vec::new(),
            Vec::new(),
        )
        .expect_err("one parent above the store count limit must be rejected");
    assert!(
        count_error
            .message()
            .contains("store inheritance entry count")
    );

    let mut byte_store = ProfileStore::default();
    let entries_per_profile =
        MAX_PROFILE_INHERITANCE_BYTES / MAX_PROFILE_METADATA_ENTRY_BYTES;
    let profile_count =
        MAX_STORE_INHERITANCE_BYTES / MAX_PROFILE_INHERITANCE_BYTES;
    for profile_index in 0..profile_count {
        byte_store
            .try_insert_user_profile(
                format!("bytes-{profile_index}"),
                fixed_length_entries(
                    &format!("p{profile_index}"),
                    entries_per_profile,
                    MAX_PROFILE_METADATA_ENTRY_BYTES,
                ),
                Vec::new(),
                Vec::new(),
            )
            .expect("aggregate inheritance bytes up to the exact limit should be accepted");
    }
    let byte_error = byte_store
        .try_insert_user_profile(
            "one-over".to_string(),
            vec!["z".to_string()],
            Vec::new(),
            Vec::new(),
        )
        .expect_err("one byte above the store inheritance limit must be rejected");
    assert!(
        byte_error
            .message()
            .contains("store inheritance entry bytes")
    );
}

#[test]
fn insert_profile_reports_shadowing_a_builtin() {
    let mut store = ProfileStore::builtin();
    assert!(
        store.insert_profile("cisco".to_string(), Vec::new(), Vec::new(), Vec::new()),
        "overriding a built-in profile name must report a shadow"
    );
    assert!(
        !store.insert_profile("user-only".to_string(), Vec::new(), Vec::new(), Vec::new()),
        "a fresh profile name must not report a shadow"
    );
}

#[test]
fn builtin_profiles_have_valid_runtime_metadata_and_highlighter_rules() {
    let store = ProfileStore::builtin();

    for profile in all_profiles(&store).iter() {
        assert!(
            profile.runtime.priority < 100,
            "built-in profile {} should use a bundled runtime priority below user profiles",
            profile.name
        );
        let config =
            PrismConfig::from_profiles(&store, &[profile.name.as_str()])
                .expect("built-in profile config should resolve");
        Highlighter::from_config(config).expect("built-in regexes and styles should compile");
    }
}

#[test]
fn prompt_matchers_keep_vendor_specific_behavior() {
    assert!(PromptMatcherKind::CiscoHostMarker.matches(&chars("Router(config-if)#")));
    assert!(!PromptMatcherKind::AristaHostMarker.matches(&chars("Router(config-if)#")));
    assert!(PromptMatcherKind::AristaHostMarker.matches(&chars("leaf01#")));
    assert!(!PromptMatcherKind::PaloAltoUserAtHost.matches(&chars("admin@router>")));
    assert!(PromptMatcherKind::PaloAltoUserAtHost.matches(&chars("admin@pa-edge>")));
    assert!(PromptMatcherKind::UnixUserAtHostPath.matches(&chars("cdassy@MacBook-Pro ~ %")));
    assert!(!PromptMatcherKind::UnixUserAtHostPath.matches(&chars("admin@mx480%")));
}

#[test]
fn child_profile_rules_take_precedence_over_inherited_exclusive_rules() {
    let mut store = ProfileStore::default();
    store.insert_profile(
        "base".to_string(),
        Vec::new(),
        Vec::new(),
        vec![RuleSpec {
            description: "base catch-all".to_string(),
            regex: r"\b\w+\b".to_string(),
            style: RuleStyle::Whole(Style::parse("f#ff0000").expect("base style parses")),
            exclusive: true,
        }],
    );
    store.insert_profile(
        "router".to_string(),
        vec!["base".to_string()],
        Vec::new(),
        vec![RuleSpec {
            description: "router keyword".to_string(),
            regex: r"\brouter\b".to_string(),
            style: RuleStyle::Whole(Style::parse("f#0000ff").expect("child style parses")),
            exclusive: true,
        }],
    );

    let config = PrismConfig::from_profiles(&store, &["base", "router"])
        .expect("profile inheritance resolves");
    let highlighter = Highlighter::from_config(config).expect("highlighter builds");
    let spans = highlighter.style_spans(b"router");

    assert_eq!(spans.len(), 1);
    assert_eq!(spans[0].style.foreground, Some(Rgb { r: 0, g: 0, b: 255 }));
}

#[test]
fn prompt_matchers_do_not_embed_cross_vendor_negative_signals() {
    assert!(
        PromptMatcherKind::JunosUserAtHost
            .matches(&chars("admin@mx480>\nPAN-OS 11.1\nVersa Director\n"))
    );
    assert!(
        PromptMatcherKind::CiscoHostMarker
            .matches(&chars("CoreSW#\nArubaOS-CX Version 10.13\nhpe-restd\n"))
    );
}

#[test]
fn bundled_negative_signals_block_only_startup_prompt_detection() {
    let store = ProfileStore::builtin();

    let juniper_from_prompt = store.detect_profiles("admin@mx480>\nPAN-OS 11.1\n");
    assert!(
        !juniper_from_prompt.contains(&"juniper".to_string()),
        "Juniper prompt startup detection should be blocked by bundled PAN-OS negative signal"
    );

    let cisco_from_prompt = store.detect_profiles("CoreSW#\nArubaOS-CX Version 10.13\n");
    assert!(
        !cisco_from_prompt.contains(&"cisco".to_string()),
        "Cisco prompt startup detection should be blocked by bundled ArubaCX negative signal"
    );

    let juniper_from_weak_hint = store.detect_profiles("commit check\nPAN-OS 11.1\n");
    assert!(
        juniper_from_weak_hint.contains(&"juniper".to_string()),
        "Negative signals must not block weak detection hints"
    );

    let cisco_from_weak_hint = store.detect_profiles("line protocol is up\nArubaOS-CX\n");
    assert!(
        cisco_from_weak_hint.contains(&"cisco".to_string()),
        "Negative signals must not block weak detection hints"
    );
}

#[test]
fn builtin_profiles_mark_only_generic_and_linux_as_local_baseline() {
    let store = ProfileStore::builtin();

    assert!(store.is_local_baseline_profile("generic"));
    assert!(store.is_local_baseline_profile("linux-unix"));

    for profile in [
        "arista",
        "arubacx",
        "cisco",
        "fortinet",
        "juniper",
        "palo-alto",
        "versa",
    ] {
        assert!(
            !store.is_local_baseline_profile(profile),
            "{profile} must not be treated as a local-shell baseline"
        );
    }
}

#[test]
fn generic_profile_set_helper_matches_only_single_generic() {
    assert!(is_generic_profile_set(&vec!["generic".to_string()]));
    assert!(!is_generic_profile_set(&vec![
        "generic".to_string(),
        "linux-unix".to_string(),
    ]));
    assert!(!is_generic_profile_set(&vec!["cisco".to_string()]));
}

#[test]
fn case_insensitive_signal_helpers_match_without_lowercase_allocations() {
    assert!(contains_case_insensitive(
        &chars("Version: FortiGate-VM64 v7.4"),
        &chars("fortigate")
    ));
    assert!(contains_case_insensitive(&chars("cafe PAN-OS"), &chars("PAN-os")));
    assert!(!contains_case_insensitive(&chars("JUNOS"), &chars("ios")));
    assert!(starts_with_case_insensitive(
        &chars("Version: FortiGate-VM64 v7.4"),
        &chars("version:")
    ));
}

#[test]
fn multi_pattern_detection_matches_simple_reference_across_generated_cases() {
    let mut store = ProfileStore::default();
    store.insert_profile(
        "fixed-boundaries".to_string(),
        Vec::new(),
        vec![
            "junos".to_string(),
            "-edge".to_string(),
            "v1.".to_string(),
            "_id".to_string(),
            "id_".to_string(),
            "Café".to_string(),
        ],
        Vec::new(),
    );

    let mut seed = 0x6a09_e667_f3bc_c909_u64;
    for profile_index in 0..12 {
        let hints = (0..8)
            .map(|_| {
                let generated = generated_ascii(&mut seed, 20);
                if generated.trim().is_empty() {
                    format!("hint-{profile_index}")
                } else {
                    generated
                }
            })
            .collect();
        store.insert_profile(
            format!("generated-{profile_index:02}"),
            Vec::new(),
            hints,
            Vec::new(),
        );
    }

    let normalized_hints = all_profiles(&store).iter()
        .flat_map(|profile| profile.detection.iter().cloned())
        .collect::<Vec<_>>();
    let fixed_samples = [
        "prefix JUNOS suffix",
        "prejunosx",
        "router-edge",
        "routerx-edge",
        "release v1. ready",
        "release v1.x",
        "_id id_",
        "x_idy xid_x",
        "CAFé",
        "CAFÉ",
        "",
    ];
    for sample in fixed_samples {
        assert_eq!(
            store.detect_profiles(sample),
            reference_hint_profiles(&store, sample),
            "fixed sample mismatch for {sample:?}"
        );
    }

    const NEIGHBORS: &[&str] = &["", "x", " ", "-", "_", "/"];
    for case in 0..1_000 {
        let mut sample = generated_ascii(&mut seed, 160);
        if case % 3 == 0 {
            let hint = &normalized_hints
                [(next_generated(&mut seed) as usize) % normalized_hints.len()];
            let prefix = NEIGHBORS[(next_generated(&mut seed) as usize) % NEIGHBORS.len()];
            let suffix = NEIGHBORS[(next_generated(&mut seed) as usize) % NEIGHBORS.len()];
            sample.push_str(prefix);
            sample.push_str(&generated_ascii_case(&mut seed, hint));
            sample.push_str(suffix);
            sample.push_str(&generated_ascii(&mut seed, 80));
        }

        assert_eq!(
            store.detect_profiles(&sample),
            reference_hint_profiles(&store, &sample),
            "generated sample {case} mismatch for {sample:?}"
        );
    }
}

#[test]
fn aggregate_detection_scan_has_sparse_linear_structure() {
    let mut store = ProfileStore::default();
    for profile_index in 0..16 {
        let hints = (0..MAX_PROFILE_DETECTION_HINTS)
            .map(|hint_index| {
                let index = profile_index * MAX_PROFILE_DETECTION_HINTS + hint_index;
                format!("{}z{index:03}", "a".repeat(28))
            })
            .collect();
        store
            .try_insert_user_profile(
                format!("profile-{profile_index:02}"),
                Vec::new(),
                hints,
                Vec::new(),
            )
            .expect("exact aggregate hint count remains valid");
    }

    let haystack = "a".repeat(64 * 1024);
    let (matched_profiles, metrics) = store
        .detection_matcher()
        .scan_with_metrics(haystack.as_bytes());
    let structure = store.detection_matcher().structure();

    assert!(!matched_profiles.into_iter().any(|matched| matched));
    assert_eq!(metrics.bytes_examined, haystack.len());
    assert!(
        metrics.transition_lookups <= metrics.symbols_examined * 2,
        "aggregate scan performed {} transition lookups for {} symbols",
        metrics.transition_lookups,
        metrics.symbols_examined
    );
    assert!(metrics.failure_steps <= haystack.len());
    assert_eq!(metrics.output_checks, 0);
    assert_eq!(structure.pattern_count, MAX_STORE_DETECTION_HINTS);
    assert_eq!(structure.edge_count + 1, structure.node_count);
    assert!(
        structure.transition_slots <= structure.edge_count.saturating_mul(4).max(1),
        "sparse edges retained {} slots for {} transitions",
        structure.transition_slots,
        structure.edge_count
    );
}

#[test]
fn word_boundaries_prune_overlapping_output_floods() {
    let mut store = ProfileStore::default();
    for profile_index in 0..16 {
        let hints = (1..=MAX_PROFILE_DETECTION_HINTS)
            .map(|length| "a".repeat(length))
            .collect();
        store
            .try_insert_user_profile(
                format!("profile-{profile_index:02}"),
                Vec::new(),
                hints,
                Vec::new(),
            )
            .expect("overlapping hints fit the aggregate metadata budget");
    }

    let haystack = "a".repeat(64 * 1024);
    let (matched_profiles, metrics) = store
        .detection_matcher()
        .scan_with_metrics(haystack.as_bytes());

    assert!(!matched_profiles.into_iter().any(|matched| matched));
    assert_eq!(metrics.bytes_examined, haystack.len());
    assert!(metrics.symbols_examined <= haystack.len() + 2);
    assert!(metrics.transition_lookups <= metrics.symbols_examined * 2);
    assert_eq!(
        metrics.output_checks, 0,
        "word-internal suffixes must not become boundary-valid outputs"
    );
}

#[test]
fn detection_matcher_rebuilds_after_insert_replace_and_clone() {
    let mut store = ProfileStore::default();
    store.insert_profile(
        "router".to_string(),
        Vec::new(),
        vec!["first-os".to_string()],
        Vec::new(),
    );
    assert_eq!(
        store.detect_profiles("FIRST-OS ready"),
        vec!["generic", "router"]
    );

    assert!(store.insert_profile(
        "router".to_string(),
        Vec::new(),
        vec!["second-os".to_string()],
        Vec::new(),
    ));
    assert_eq!(store.detect_profiles("first-os ready"), vec!["generic"]);
    assert_eq!(
        store.detect_profiles("SECOND-OS ready"),
        vec!["generic", "router"]
    );

    let cloned = store.duplicate();
    assert_eq!(
        cloned.detect_profiles("second-os ready"),
        vec!["generic", "router"]
    );
}

#[test]
fn mutually_inheriting_selected_profiles_error_instead_of_empty_config() {
    let mut store = ProfileStore::default();
    store.insert_profile(
        "alpha".to_string(),
        vec!["beta".to_string()],
        Vec::new(),
        vec![RuleSpec {
            description: "alpha keyword".to_string(),
            regex: r"\bup\b".to_string(),
            style: RuleStyle::Whole(Style::parse("f#00ff00").expect("style parses")),
            exclusive: false,
        }],
    );
    store.insert_profile(
        "beta".to_string(),
        vec!["alpha".to_string()],
        Vec::new(),
        Vec::new(),
    );

    match PrismConfig::from_profiles(&store, &["alpha", "beta"]) {
        Err(ConfigError::CyclicProfileInheritance(cycle)) => {
            assert!(
                cycle.contains("alpha") && cycle.contains("beta"),
                "cycle message should name both profiles: {cycle}"
            );
        }
        Err(other) => panic!("expected cyclic-inheritance error, got: {other:?}"),
        Ok(_) => panic!("expected cyclic-inheritance error, got a silently empty config"),
    }
}
