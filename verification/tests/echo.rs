use prismtty::echo::{
    consume_echo_suffix, local_echo_bytes, poll_idle, record_recent_input,
    should_flush_input_echo, EchoFlush, LocalEchoState, RECENT_INPUT_WINDOW,
};
use prismtty::controls::strip_ansi;
use prismtty::{Highlighter, PrismConfig, StreamingHighlighter};

#[test]
fn consume_echo_suffix_matches_only_genuine_echo() {
    // A buffered token that is a suffix of recent input is genuine echo:
    // matched and cleared so retained input cannot linger past its use.
    let mut recent = b"update add test.example.com 3600 A 192.0.2.1".to_vec();
    assert!(consume_echo_suffix(&mut recent, b"192.0.2.1"));
    assert!(
        recent.is_empty(),
        "matched input is cleared after the echo tail is surfaced"
    );
    // The same program-output bytes no longer match once consumed.
    assert!(!consume_echo_suffix(&mut recent, b"192.0.2.1"));

    // A program-output token that was never typed does not match (this is the
    // echo-off regression guard): recent input is the keystroke, not "Vlan11".
    let mut typed = b"x".to_vec();
    assert!(!consume_echo_suffix(&mut typed, b"Vlan11"));
    assert_eq!(typed, b"x", "non-matching input is left untouched");

    // Empty recent input matches nothing.
    let mut empty = Vec::new();
    assert!(!consume_echo_suffix(&mut empty, b"Vlan11"));
}

#[test]
fn consume_echo_suffix_ignores_trailing_completion_trigger() {
    // A device consumes Tab/`?` from the command line without echoing it, so
    // the buffered redraw tail still matches the typed command once the
    // trailing trigger byte is ignored.
    let mut tab = b"sh lo\t".to_vec();
    assert!(consume_echo_suffix(&mut tab, b"lo"));
    assert!(tab.is_empty(), "matched input is cleared");

    let mut question = b"sh lo?".to_vec();
    assert!(consume_echo_suffix(&mut question, b"lo"));

    // A program-output token still does not match non-trigger type-ahead.
    let mut typed = b"x".to_vec();
    assert!(!consume_echo_suffix(&mut typed, b"Vlan11"));
    assert_eq!(typed, b"x");

    // recent_input of only trigger bytes collapses match_end to 0: no false
    // match, no panic.
    let mut all_triggers = b"\t\t?".to_vec();
    assert!(!consume_echo_suffix(&mut all_triggers, b"lo"));
    assert_eq!(all_triggers, b"\t\t?");
}

#[test]
fn local_echo_bytes_echo_printable_enter_and_backspace() {
    assert_eq!(
        local_echo_bytes(b"show\x7f route\r\x1b[A"),
        b"show\x08 \x08 route\r\n"
    );
}

#[test]
fn local_echo_state_buffers_split_escape_sequences() {
    let mut echo = LocalEchoState::default();

    assert!(echo.push(b"\x1b").is_empty());
    assert!(echo.push(b"[A").is_empty());
    assert_eq!(echo.push(b"show\r"), b"show\r\n");
}

#[test]
fn record_recent_input_scopes_to_current_line() {
    // Recording no longer depends on ECHO state; instead the buffer is scoped
    // to the in-progress line, so a submitted or aborted line (and any secret
    // in it) does not linger.
    let mut recent: Vec<u8> = Vec::new();

    // Plain typing accumulates for echo matching.
    record_recent_input(&mut recent, b"show version");
    assert_eq!(recent.as_slice(), b"show version");

    // A submitted line (CR) drops; an embedded newline keeps only the tail.
    record_recent_input(&mut recent, b"\r");
    assert!(recent.is_empty());
    record_recent_input(&mut recent, b"ab\ncd");
    assert_eq!(recent.as_slice(), b"cd");

    // Abort/kill controls drop the in-progress line immediately, so a partial
    // password cannot be retained.
    record_recent_input(&mut recent, b"secret\x03"); // Ctrl-C
    assert!(
        recent.is_empty(),
        "Ctrl-C abandons the line, dropping any partial secret"
    );
    record_recent_input(&mut recent, b"secret\x1c"); // Ctrl-\
    assert!(
        recent.is_empty(),
        "Ctrl-\\ abandons the line, dropping any partial secret"
    );
    record_recent_input(&mut recent, b"pw\x15retyped"); // Ctrl-U
    assert_eq!(
        recent.as_slice(),
        b"retyped",
        "Ctrl-U kills the line, keeping only what is typed after"
    );
}

#[test]
fn should_flush_input_echo_requires_interactive_buffered_and_recent_input() {
    // Not interactive: the interactive guard short-circuits, so a
    // non-interactive stream never flushes.
    assert!(should_flush_input_echo(false, None, None, b"tok", false, &mut None).is_none());
    // Interactive but nothing buffered: never flushes.
    let mut recent = Some(b"tok".to_vec());
    assert!(should_flush_input_echo(true, None, None, b"", false, &mut recent).is_none());
    // Interactive with buffered echo but no recent input: never flushes.
    assert!(should_flush_input_echo(true, None, None, b"tok", false, &mut None).is_none());
}

#[test]
fn should_flush_input_echo_flushes_only_matching_idle_echo() {
    let idle = Some(0);
    let busy = Some(1);

    // Buffered token is a suffix of recent input + idle: flush and clear it.
    let mut recent = Some(b"router# show ".to_vec());
    assert_eq!(
        should_flush_input_echo(true, idle, idle, b"show ", false, &mut recent),
        Some(EchoFlush::EchoSuffix),
    );
    assert_eq!(EchoFlush::EchoSuffix.name(), "echo-suffix");
    assert_eq!(recent, Some(Vec::new()));

    // Token is not recent input (program output): do not flush, leave it.
    let mut recent = Some(b"x".to_vec());
    assert!(should_flush_input_echo(true, idle, idle, b"Vlan11", false, &mut recent).is_none());
    assert_eq!(recent, Some(b"x".to_vec()));

    // Pending data == not idle: wait, do not consume.
    let mut recent = Some(b"show ".to_vec());
    assert!(should_flush_input_echo(true, busy, busy, b"show ", false, &mut recent).is_none());
    assert_eq!(recent, Some(b"show ".to_vec()));
}

#[test]
fn should_flush_input_echo_flushes_buffered_prompt_echo_without_byte_match() {
    let idle = Some(0);
    let busy = Some(1);

    let mut recent = Some(b"sh lo\t".to_vec());
    assert_eq!(
        should_flush_input_echo(true, idle, idle, b"log", true, &mut recent),
        Some(EchoFlush::PromptEcho),
    );
    assert_eq!(EchoFlush::PromptEcho.name(), "prompt-echo");
    assert_eq!(
        recent,
        Some(b"sh lo\t".to_vec()),
        "prompt-echo flush must not drop typed-ahead input"
    );

    // Without the prompt-echo flag and without a byte match, nothing flushes.
    let mut recent = Some(b"sh lo\t".to_vec());
    assert!(should_flush_input_echo(true, idle, idle, b"zzz", false, &mut recent).is_none());

    // Strict idle: pending output means the prompt-echo tail is not flushed.
    let mut recent = Some(b"sh lo\t".to_vec());
    assert!(should_flush_input_echo(true, busy, busy, b"log", true, &mut recent).is_none());

    // A failed look at the terminal counts as idle for echo only.
    let mut recent = Some(b"sh lo\t".to_vec());
    assert!(should_flush_input_echo(true, Some(-1), Some(-1), b"log", true, &mut recent).is_none());
    assert_eq!(
        should_flush_input_echo(true, Some(-1), Some(-1), b"lo", true, &mut recent),
        Some(EchoFlush::EchoSuffix)
    );
}

#[test]
fn read_loop_surfaces_cisco_tab_redraw_tail_on_idle() {
    let highlighter =
        Highlighter::from_config(PrismConfig::default()).expect("empty config compiles");
    let mut streaming = StreamingHighlighter::new_interactive(highlighter);
    let _ = streaming.push_str("LAB-N9K-CORE-01# ");
    let _ = streaming.push_str("sh lo");
    let redraw = "\x1b[23D\x1b[J\rLAB-N9K-CORE-01# sh log\r\r\nlogging   login     \r\r\n\x1b[J\rLAB-N9K-CORE-01# sh log";
    let _ = streaming.push_str(redraw);

    let mut recent = Some(b"sh lo\t".to_vec());
    assert_eq!(
        should_flush_input_echo(
            true,
            Some(0),
            Some(0),
            streaming.buffered_echo(),
            streaming.buffered_echo_completes_prompt_line(),
            &mut recent,
        ),
        Some(EchoFlush::PromptEcho),
        "idle prompt-echo redraw tail must be flushed by the read-loop gate"
    );
    assert_eq!(recent, Some(b"sh lo\t".to_vec()));
    assert_eq!(strip_ansi(&streaming.flush_buffered_echo()), b"log");
}

#[test]
fn polls_tell_idle_from_busy() {
    assert!(!poll_idle(None, true));
    assert!(!poll_idle(None, false));
    assert!(poll_idle(Some(0), false));
    assert!(!poll_idle(Some(-1), false));
    assert!(poll_idle(Some(-1), true));
    assert!(!poll_idle(Some(1), true));
}

#[test]
fn remembered_input_is_bounded_and_holds_one_line() {
    let mut recent: Vec<u8> = vec![b'a'; RECENT_INPUT_WINDOW];
    record_recent_input(&mut recent, b"bc");
    assert_eq!(recent.len(), RECENT_INPUT_WINDOW);
    assert!(recent.ends_with(b"abc"));
    record_recent_input(&mut recent, b"one\x1atwo\x04three");
    assert_eq!(recent, b"three");
}
