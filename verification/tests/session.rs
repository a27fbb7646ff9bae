use prismtty::cache::{HighlighterCache, HIGHLIGHTER_CACHE_LIMIT};
use prismtty::config::{RuleSpec, RuleStyle};
use prismtty::documents::{LoadedProfileFile, ProfileMetaDoc};
use prismtty::listing::{check_profile_file, profile_lines};
use prismtty::options::Options;
use prismtty::output_loop::{apply_automatic_profile_switch, OutputLoop};
use prismtty::profile_runtime::ProfileRuntime;
use prismtty::profiles_dir::add_user_profiles;
use prismtty::session::{HighlightSession, ProfileSwitchOutcome, RuleWarning};
use prismtty::streaming::AnsiChunk;
use prismtty::style::{ColorMode, Style};
use prismtty::{Highlighter, PrismConfig, ProfileStore};

fn names(profiles: &[&str]) -> Vec<String> {
    profiles.iter().map(|profile| profile.to_string()).collect()
}

fn rule(description: &str, regex: &str, color: &str) -> RuleSpec {
    RuleSpec {
        description: description.to_string(),
        regex: regex.to_string(),
        style: RuleStyle::Whole(Style::parse(color).expect("style parses")),
        exclusive: false,
    }
}

fn overlay(rules: Vec<RuleSpec>) -> PrismConfig {
    PrismConfig { rules, enabled_profiles: Vec::new() }
}

fn sample_highlighter() -> Highlighter {
    Highlighter::from_config(PrismConfig::default()).expect("highlighter compiles")
}

fn session(
    store: ProfileStore,
    overlay: PrismConfig,
    interactive: bool,
    profiles: &[&str],
) -> HighlightSession {
    HighlightSession::new(
        &Options::default(),
        store,
        overlay,
        interactive,
        ColorMode::TrueColor,
        names(profiles),
    )
    .ok()
    .expect("session builds")
}

fn contains(haystack: &[u8], needle: &[u8]) -> bool {
    haystack.windows(needle.len()).any(|window| window == needle)
}

// Switching back to a previously-seen profile set must reuse the cached
// compiled highlighter instead of recompiling, so untrusted output that
// flaps the detected profile cannot force unbounded recompilation.
#[test]
fn highlighter_cache_reuses_compiled_highlighters_for_seen_profile_sets() {
    let mut cache = HighlighterCache::default();
    let set_a = names(&["generic", "cisco"]);
    let set_b = names(&["generic", "juniper"]);
    let mut builds = 0usize;

    cache
        .get_or_build(&set_a, || {
            builds += 1;
            Ok::<_, ()>(sample_highlighter())
        })
        .unwrap();
    cache
        .get_or_build(&set_b, || {
            builds += 1;
            Ok::<_, ()>(sample_highlighter())
        })
        .unwrap();
    cache
        .get_or_build(&set_a, || {
            builds += 1;
            Ok::<_, ()>(sample_highlighter())
        })
        .unwrap();

    assert_eq!(
        builds, 2,
        "switching back to a seen profile set must not recompile"
    );
}

#[test]
fn highlighter_cache_evicts_only_the_least_recently_used_entry() {
    let mut cache = HighlighterCache::default();
    let mut builds = 0usize;
    let sets = (0..HIGHLIGHTER_CACHE_LIMIT)
        .map(|index| vec![format!("profile-{index}")])
        .collect::<Vec<_>>();

    for set in &sets {
        cache
            .get_or_build(set, || {
                builds += 1;
                Ok::<_, ()>(sample_highlighter())
            })
            .unwrap();
    }
    cache
        .get_or_build(&sets[0], || {
            builds += 1;
            Ok::<_, ()>(sample_highlighter())
        })
        .unwrap();
    cache
        .get_or_build(&names(&["overflow"]), || {
            builds += 1;
            Ok::<_, ()>(sample_highlighter())
        })
        .unwrap();
    cache
        .get_or_build(&sets[0], || {
            builds += 1;
            Ok::<_, ()>(sample_highlighter())
        })
        .unwrap();

    assert_eq!(
        builds,
        HIGHLIGHTER_CACHE_LIMIT + 1,
        "the recently used entry must survive one capacity eviction"
    );
    assert_eq!(cache.len(), HIGHLIGHTER_CACHE_LIMIT);
}

#[test]
fn failed_builds_are_not_cached() {
    let mut cache = HighlighterCache::default();
    let set = names(&["broken"]);
    assert!(cache.get_or_build(&set, || Err::<Highlighter, _>("broken")).is_err());
    assert_eq!(cache.len(), 0);
    assert!(cache.get(&set).is_none());
}

#[test]
fn failed_profile_switch_keeps_the_last_good_session() {
    let mut store = ProfileStore::builtin();
    store.insert_profile(
        "oversized".to_string(),
        Vec::new(),
        vec!["OversizedOS".to_string()],
        vec![rule("bounded", "bounded", "f#ffffff"); 513],
    );
    let mut session = session(store, PrismConfig::default(), false, &["generic"]);
    let wanted = names(&["generic", "oversized"]);

    assert!(
        session.switch_profiles(wanted.clone()).is_err(),
        "an aggregate-over-limit profile must be rejected"
    );
    assert_eq!(
        session.profile_names(),
        &names(&["generic"]),
        "a failed compile must not change the selected profile set"
    );
    assert_eq!(session.rejected_count(), 1);
    match session.switch_profiles(wanted) {
        Ok((outcome, message)) => {
            assert_eq!(outcome, ProfileSwitchOutcome::Rejected);
            assert_eq!(message, None);
        }
        Err(_) => panic!("a deterministic rejected set is skipped without recompiling"),
    }
    assert_eq!(session.rejected_count(), 1);

    assert_eq!(
        session.push(&AnsiChunk::from_slice(b"still usable\n")),
        b"still usable\n"
    );
}

#[test]
fn failed_dynamic_profile_switch_rolls_back_runtime_transition() {
    let runtime_store = ProfileStore::builtin();
    let mut session_store = runtime_store.duplicate();
    session_store.insert_profile(
        "juniper".to_string(),
        Vec::new(),
        vec!["JUNOS".to_string()],
        vec![rule("bounded", "bounded", "f#ffffff"); 513],
    );

    let initial = names(&["generic", "linux-unix"]);
    let mut runtime = ProfileRuntime::new(initial.clone());
    runtime.observe_input(b"ssh router-a\r");
    let proposed = runtime
        .observe_output(b"--- JUNOS 22.4R3 Kernel 64-bit\n", &runtime_store)
        .expect("runtime proposes Juniper");

    let mut session = session(
        session_store,
        PrismConfig::default(),
        true,
        &["generic", "linux-unix"],
    );
    let mut runtime = Some(runtime);
    let (accepted, notice) =
        apply_automatic_profile_switch(&mut session, &mut runtime, proposed);
    assert!(!accepted, "an invalid detected profile must be ignored");
    assert!(notice.expect("the user is told").starts_with(
        "prismtty: automatic profile switch ignored; keeping last known good rules: "
    ));
    assert_eq!(session.profile_names(), &initial);
    let runtime = runtime.expect("the runtime stays");
    assert_eq!(runtime.active_profiles(), initial);
    assert_eq!(runtime.stack_len(), 1);
}

#[test]
fn rejected_profile_set_is_bounded_until_overlay_reload() {
    let mut store = ProfileStore::builtin();
    store.insert_profile(
        "juniper".to_string(),
        Vec::new(),
        Vec::new(),
        vec![rule("one more", "one-more", "f#ffffff")],
    );
    let many: Vec<RuleSpec> = (0..512)
        .map(|index| rule(&format!("overlay-{index}"), &format!("token-{index}"), "f#ffffff"))
        .collect();
    let target = names(&["generic", "juniper"]);
    let mut session = session(store.duplicate(), overlay(many), false, &["generic"]);

    assert!(
        session.switch_profiles(target.clone()).is_err(),
        "the larger profile set crosses the aggregate limit"
    );
    assert_eq!(session.rejected_count(), 1);
    assert!(matches!(
        session.switch_profiles(target.clone()),
        Ok((ProfileSwitchOutcome::Rejected, None))
    ));

    assert!(session.reload_with_store(store, PrismConfig::default(), &Vec::new()).is_ok());
    assert_eq!(session.rejected_count(), 0);
    assert!(matches!(
        session.switch_profiles(target),
        Ok((ProfileSwitchOutcome::Switched, _))
    ));
}

#[test]
fn dynamic_reload_requires_buildable_retained_profiles() {
    let mut current_store = ProfileStore::builtin();
    current_store.insert_profile("custom".to_string(), Vec::new(), Vec::new(), Vec::new());
    let mut session = session(current_store, PrismConfig::default(), true, &["custom"]);

    let mut next_store = ProfileStore::builtin();
    next_store.insert_profile("custom".to_string(), Vec::new(), Vec::new(), Vec::new());
    next_store.insert_profile(
        "generic".to_string(),
        Vec::new(),
        Vec::new(),
        vec![rule("bounded", "bounded", "f#ffffff"); 513],
    );

    assert!(
        session
            .reload_with_store(next_store, PrismConfig::default(), &vec![names(&["generic"])])
            .is_err(),
        "a dynamic reload must reject an unusable retained frame"
    );
    assert_eq!(session.profile_names(), &names(&["custom"]));
    assert!(
        session
            .profile_store()
            .profile("generic")
            .is_some_and(|profile| profile.rules.len() < 513),
        "the previous store remains installed after rejection"
    );
}

#[test]
fn reload_rebuilds_from_disk_and_keeps_last_good_rules_on_failure() {
    let token = |color: &str| overlay(vec![rule("reload token", "reload-token", color)]);
    let mut session = session(
        ProfileStore::builtin(),
        token("f#ff0000"),
        false,
        &["generic"],
    );
    let chunk = AnsiChunk::from_slice(b"reload-token\n");
    assert!(contains(&session.push(&chunk), b"\x1b[38;2;255;0;0mreload-token"));

    assert!(session.slow_rule_warning_at(0).is_some());
    assert!(session.slow_rule_warned());
    assert!(
        session
            .reload_with_store(ProfileStore::builtin(), token("f#0000ff"), &Vec::new())
            .is_ok()
    );
    assert!(
        !session.slow_rule_warned(),
        "new generation may emit a fresh warning"
    );
    assert!(contains(&session.push(&chunk), b"\x1b[38;2;0;0;255mreload-token"));

    let broken = overlay(vec![rule("broken", "(", "f#ff0000")]);
    assert!(session.reload_with_store(ProfileStore::builtin(), broken, &Vec::new()).is_err());
    assert!(contains(&session.push(&chunk), b"\x1b[38;2;0;0;255mreload-token"));
}

#[test]
fn profile_switches_use_one_overlay_snapshot_until_reload() {
    let local = overlay(vec![rule("local", "local", "f#00ff00")]);
    let mut session = session(ProfileStore::builtin(), local, false, &["generic"]);
    for profiles in [names(&["generic", "cisco"]), names(&["generic", "juniper"])] {
        assert!(matches!(
            session.switch_profiles(profiles),
            Ok((ProfileSwitchOutcome::Switched, _))
        ));
        assert!(contains(
            &session.push(&AnsiChunk::from_slice(b"local\n")),
            b"\x1b[38;2;0;255;0mlocal"
        ));
    }
    let broken = overlay(vec![rule("invalid", "(", "f#ffffff")]);
    let error = session
        .reload_with_store(ProfileStore::builtin(), broken, &Vec::new())
        .expect_err("an invalid new overlay generation is rejected transactionally");
    assert!(error.message().starts_with("rule 'invalid' failed to compile: "));
    assert_eq!(session.profile_names(), &names(&["generic", "juniper"]));
}

#[test]
fn initial_highlighter_is_cached_for_safe_unwind() {
    let mut session =
        session(ProfileStore::builtin(), PrismConfig::default(), false, &["generic"]);
    assert!(matches!(
        session.switch_profiles(names(&["generic", "cisco"])),
        Ok((ProfileSwitchOutcome::Switched, _))
    ));
    assert!(matches!(
        session.switch_profiles(names(&["generic"])),
        Ok((ProfileSwitchOutcome::Switched, _))
    ));
    assert!(matches!(
        session.switch_profiles(names(&["generic"])),
        Ok((ProfileSwitchOutcome::Unchanged, None))
    ));
    assert_eq!(session.profile_names(), &names(&["generic"]));
}

// The slow-rule warning names the slowest rule once per session; the
// threshold is injected so the test does not depend on wall-clock time.
#[test]
fn slow_rule_warning_fires_once_per_session() {
    let state = || overlay(vec![rule("state\u{1b}", "up", "f#00ff00")]);
    let chunk = AnsiChunk::from_slice(b"status up\n");
    let mut warned = session(ProfileStore::builtin(), state(), false, &["generic"]);
    let _ = warned.push(&chunk);

    let warning = warned
        .slow_rule_warning_at(0)
        .expect("zero threshold names the slowest rule");
    let message = warning.message("0.0");
    assert_eq!(
        message,
        "prismtty: rule 'state\\x1b' has spent 0.0s matching; a slow regex is degrading throughput (profile with --benchmark)"
    );
    assert!(
        message.contains("--benchmark"),
        "warning should point at --benchmark: {message}"
    );
    assert!(
        warned.slow_rule_warning_at(0).is_none(),
        "warning must fire at most once per session"
    );
    // A healthy rule set never crosses the real threshold.
    let mut fresh = session(ProfileStore::builtin(), state(), false, &["generic"]);
    let _ = fresh.push(&chunk);
    assert!(fresh.slow_rule_warning().is_none());
}

#[test]
fn rules_that_fail_are_named_first() {
    let bad = overlay(vec![rule("pathological", "^(a+)+$", "f#ff0000")]);
    let mut session = session(ProfileStore::builtin(), bad, false, &["generic"]);
    let mut input = vec![b'a'; 8 * 1024];
    input.extend_from_slice(b"!\n");
    let _ = session.push(&AnsiChunk::new(input));
    match session.slow_rule_warning() {
        Some(RuleWarning::Failed { description, error }) => {
            assert_eq!(description, "pathological");
            assert!(!error.is_empty());
        }
        other => panic!("unexpected warning {other:?}"),
    }
}

fn started(options: Options, interactive: bool, typed: bool, first: &[u8]) -> OutputLoop {
    let (running, chunk, _) = OutputLoop::start(
        options,
        ProfileStore::builtin(),
        PrismConfig::default(),
        interactive,
        ColorMode::TrueColor,
        typed,
        first,
    )
    .ok()
    .expect("the loop starts");
    assert_eq!(chunk.bytes(), first);
    running
}

#[test]
fn the_loop_follows_a_session_to_a_device_and_back() {
    let options = Options { show_profile: true, ..Options::default() };
    let mut running = started(options, true, true, b"OS: Ubuntu 24.04.4 LTS\n");
    let typed = vec![b"ssh router-a\r".to_vec()];
    let chunk = running.read(b"--- JUNOS 22.4R3 Kernel 64-bit\n");
    assert_eq!(
        running.follow(&typed, &chunk),
        Some("prismtty: profiles selected: generic, juniper".to_string())
    );
    assert_eq!(running.detect(&chunk), (None, None));
    assert_eq!(running.render(&chunk), chunk.bytes());
    assert!(running.warning().is_none());

    let chunk = running.read(b"Connection to router-a closed.\n");
    assert_eq!(
        running.follow(&Vec::new(), &chunk),
        Some("prismtty: profiles selected: generic, linux-unix".to_string())
    );
    assert!(running.reload(ProfileStore::builtin(), PrismConfig::default()).is_ok());
    let (left, end) = running.finish();
    assert_eq!((left, end), (None, Vec::new()));
    assert!(running.report_current().is_none());
    assert!(running.benchmark_report().is_none());
}

#[test]
fn the_loop_detects_profiles_in_piped_output() {
    let options = Options { show_profile: true, benchmark: true, ..Options::default() };
    let mut running = started(options, false, false, b"plain\n");
    let chunk = running.read(b"Cisco IOS Software\n");
    assert_eq!(
        running.detect(&chunk),
        (Some("prismtty: profiles selected: generic, cisco".to_string()), None)
    );
    assert!(running.benchmark_report().is_some());
}

#[test]
fn the_loop_stops_looking_after_its_sample() {
    let options = Options { show_profile: true, ..Options::default() };
    let mut running = started(options, false, false, b"plain\n");
    let filler = vec![b'.'; 70_000];
    let chunk = running.read(&filler);
    assert_eq!(
        running.detect(&chunk),
        (None, None),
        "the generic profile alone is never told while detection is on"
    );
    let chunk = running.read(b"Cisco IOS Software\n");
    assert_eq!(running.detect(&chunk), (None, None));
}

#[test]
fn the_loop_shows_echo_and_what_is_left() {
    let mut running = started(Options::default(), true, false, b"Full Name []: ");
    let chunk = running.read(b"Full Name []: ");
    let _ = running.render(&chunk);
    let chunk = running.read(b"j");
    assert!(running.render(&chunk).is_empty());
    let mut recent = Some(b"j".to_vec());
    let (reason, shown) = running
        .flush_echo(true, Some(0), Some(0), &mut recent)
        .expect("typed text is echoed");
    assert_eq!((reason.name(), shown), ("echo-suffix", b"j".to_vec()));
    assert_eq!(recent, Some(Vec::new()));
    assert!(running.flush_echo(true, Some(0), Some(0), &mut recent).is_none());

    let chunk = running.read(b"\xe2\x9d");
    assert!(chunk.bytes().is_empty());
    let (left, end) = running.finish();
    let mut rest = left.expect("a cut character waits");
    rest.extend(end);
    assert_eq!(rest, b"\xe2\x9d");
}

fn file(name: &str, regex: &str) -> LoadedProfileFile {
    LoadedProfileFile {
        meta: ProfileMetaDoc {
            name: name.to_string(),
            inherits: vec!["generic".to_string()],
            detection: vec!["CustomOS".to_string()],
            runtime: None,
        },
        runtime: None,
        rules: vec![rule("custom rule", regex, "bold")],
    }
}

#[test]
fn user_profiles_join_the_store() {
    let (store, notices) = add_user_profiles(
        ProfileStore::builtin(),
        &vec![file("custom", "x"), file("cisco", "y")],
    )
    .expect("the profiles are small");
    assert_eq!(
        notices,
        vec!["prismtty: user profile 'cisco' from profiles.d overrides the built-in profile of the same name".to_string()]
    );
    let custom = store.profile("custom").expect("the profile is there");
    assert_eq!(
        profile_lines(custom),
        names(&[
            "profile: custom",
            "inherits: generic",
            "detection: CustomOS",
            "rules:",
            "  - custom rule",
        ])
    );
    assert_eq!(
        profile_lines(store.profile("generic").expect("always there"))[..3],
        names(&["profile: generic", "inherits: none", "detection: none"])[..]
    );
    let mut oversized = file("large", "x");
    oversized.meta.detection = (0..40).map(|index| format!("hint-{index}")).collect();
    assert!(add_user_profiles(ProfileStore::builtin(), &vec![oversized]).is_err());
}

#[test]
fn profile_files_are_checked_against_the_store() {
    assert!(check_profile_file(ProfileStore::builtin(), &file("custom", "x")).is_ok());
    let error = check_profile_file(ProfileStore::builtin(), &file("custom", "("))
        .expect_err("the pattern does not compile");
    assert!(error.message().starts_with("rule 'custom rule' failed to compile: "));
    let mut orphan = file("custom", "x");
    orphan.meta.inherits = vec!["nobody".to_string()];
    let error = check_profile_file(ProfileStore::builtin(), &orphan)
        .expect_err("the parent is not there");
    assert_eq!(error.message(), "unknown profile 'nobody'");
}
