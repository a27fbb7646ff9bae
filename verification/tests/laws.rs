use prismtty::chunks::{prepare_chunk, ChunkFilterState};
use prismtty::config::{PrismConfig, RuleSpec, RuleStyle};
use prismtty::controls::strip_ansi;
use prismtty::echo::LocalEchoState;
use prismtty::highlight::bytes_or_input;
use prismtty::metadata::{normalize_metadata_entries, MetadataBudget, MetadataKind};
use prismtty::palette::parse_palette;
use prismtty::sanitize::strip_string_escapes;
use prismtty::sgr::NativeSgrState;
use prismtty::split::streaming_split_at;
use prismtty::style::{ColorMode, Rgb, Style};
use prismtty::{Highlighter, ProfileStore, StreamingHighlighter};

fn numbers() -> Highlighter {
    let config = PrismConfig {
        rules: vec![RuleSpec {
            description: "number".to_string(),
            regex: "\\d+".to_string(),
            style: RuleStyle::Whole(Style::parse("f#ff0000 bold").expect("style parses")),
            exclusive: false,
        }],
        ..PrismConfig::default()
    };
    Highlighter::from_config(config).expect("rules compile")
}

/// The bytes without SGR sequences that begin with `ESC [`.
fn without_sgr(bytes: &[u8]) -> Vec<u8> {
    let mut out = Vec::new();
    let mut i = 0;
    while i < bytes.len() {
        if bytes[i..].starts_with(b"\x1b[") {
            let mut end = i + 2;
            while end < bytes.len() && !(0x40..=0x7e).contains(&bytes[end]) {
                end += 1;
            }
            if end < bytes.len() && bytes[end] == b'm' {
                i = end + 1;
                continue;
            }
        }
        out.push(bytes[i]);
        i += 1;
    }
    out
}

const TEXT: &[u8] = "eth 12 \u{25cb}\x1b[2K34\r\n\x1b]0;title 8 \u{2714}\x07 5 \x1b[1mx 6\x1b(B\x1b[0m\x1b= \u{e9}7\n\
    \x1bPq 9 \u{e9}\x1b\\tail 10".as_bytes();

/// C1 controls, in two bytes and in one.
const C1_TEXT: &[u8] = b"eth 12 \xc2\x9b31m34\xc2\x9b0m \xc2\x9dt 8\rx\xc2\x9c5 \xc2\x90q 9\x1b\\6 \xc2\x84\
    7\x9d0;a 4\x9c 1\x9b1m5\x9b0m \x85tail 10";

/// Controls that CAN and SUB cancel, and controls with control characters in them.
const CANCELLED_TEXT: &[u8] = b"eth 12 \x1b]0;t 8\x18 5 \x1b[3\x1a6 \x1b[1\r;3\n1m7\x1b(\x18 8\x1bPq\x1a 9\
    \x1b\x18 1\x9d0\x182\x1b \tF3\x1b\x07 tail 10";

/// Control strings with escapes and C1 controls in them.
const NESTED_TEXT: &[u8] = b"eth 12 \x1b]0;a\x1b[31m 4\x1b\x07 6 \x1bPtmux;\x1b\x1b[1m7\x1b\\8 \
    \x1b]0;\xc2\x9b1m\x80\xa0\x07 9 tail 10";

#[test]
fn streams_show_their_input_wherever_it_is_cut() {
    for text in [TEXT, C1_TEXT, CANCELLED_TEXT, NESTED_TEXT] {
        let shown = strip_ansi(text);
        for cut in 0..text.len() {
            for second in [cut, (cut + 1).min(text.len()), (cut + 7).min(text.len())] {
                let mut stream = StreamingHighlighter::new(numbers());
                let mut out = stream.push(&text[..cut]);
                out.extend(stream.push(&text[cut..second]));
                out.extend(stream.push(&text[second..]));
                out.extend(stream.finish());
                assert_eq!(strip_ansi(&out), shown, "cut at {cut} and {second}");
                assert_ne!(out, text);
            }
        }
    }
}

#[test]
fn controls_leave_the_text_around_them() {
    assert_eq!(strip_ansi(C1_TEXT), b"eth 12 34 5 6 7 15 tail 10");
    assert_eq!(strip_ansi(CANCELLED_TEXT), b"eth 12  5 6 7 8 9 123 tail 10");
    assert_eq!(strip_ansi(NESTED_TEXT), b"eth 12  6 8  9 tail 10");
    assert_eq!(streaming_split_at(b"a\xc2\x9b31m"), 6);
    assert_eq!(streaming_split_at(b"a\xc2\x9b31"), 1);
    assert_eq!(streaming_split_at(b"a\x9b31m"), 5);
    assert_eq!(streaming_split_at(b"a\xc2\x9dt\rx"), 1);
}

#[test]
fn highlighted_text_stays_text() {
    let highlighter = numbers();
    let text = "\u{e9}12\u{2714} \x1b[31m3\u{1f600}4\x1b]0;\u{dc}\x07 \u{9b}1m5";
    let bytes = highlighter.highlight_bytes(text.as_bytes());
    let styled = highlighter.highlight_str(text);
    assert_eq!(styled.as_bytes(), bytes);
    assert_ne!(styled, text);
    // An escape before a character of several bytes takes its first byte.
    let cut = "12\x1b\u{e9}3";
    assert_eq!(strip_ansi(cut.as_bytes()), b"12\xa93");
    assert_eq!(highlighter.highlight_str(cut), cut);
}

#[test]
fn streams_give_text_for_text() {
    let text = "\u{e9}12\u{2714} \x1b[31m3\u{1f600}4\x1b]0;\u{dc} 7\x07 \u{9b}1m5\u{9d}t\u{9c}6";
    for cut in 0..=text.len() {
        let mut stream = StreamingHighlighter::new(numbers());
        let mut outs = vec![stream.push(&text.as_bytes()[..cut])];
        outs.push(stream.push(&text.as_bytes()[cut..]));
        outs.push(stream.finish());
        for out in outs {
            assert!(String::from_utf8(out).is_ok(), "cut at {cut}");
        }
    }
    let mut live = StreamingHighlighter::new_interactive(numbers());
    let mut shown = live.push_str("user@host:~$ \u{e9}1\r\n\u{2714} 2\n");
    shown.push_str(&live.push_str("\x1b[1m\u{1f600} 3\n"));
    shown.push_str(&String::from_utf8(live.finish()).expect("valid text"));
    assert_eq!(
        strip_ansi(shown.as_bytes()),
        "user@host:~$ \u{e9}1\r\n\u{2714} 2\n\u{1f600} 3\n".as_bytes(),
    );
}

#[test]
fn live_streams_show_chunks_of_whole_units() {
    let chunks: [&[u8]; 6] = [
        "\u{2570}\u{2500}\u{25cb} ".as_bytes(),
        b"\x1b[32mls 1\x1b[0m\r\n",
        "12 files \u{2714}\r\nuser@host:~$ \x1b[1mcat 3\r\n4\r".as_bytes(),
        b"5 \x1b]0;title 6\x07\n",
        b"router# show 7",
        b"\n8\n",
    ];
    let mut stream = StreamingHighlighter::new_interactive(numbers());
    let mut out = Vec::new();
    let mut given = Vec::new();
    for chunk in chunks {
        given.extend_from_slice(chunk);
        out.extend(stream.push(chunk));
        out.extend(stream.flush_buffered_echo());
    }
    out.extend(stream.finish());
    assert_eq!(strip_ansi(&out), strip_ansi(&given));
}

#[test]
fn a_line_that_waits_goes_before_the_next_one() {
    let given: &[u8] = b"user@host:~$ ls 1\r\nab\x1bO\ncd 12\r\n";
    let mut stream = StreamingHighlighter::new_interactive(numbers());
    let mut out = stream.push(given);
    out.extend(stream.finish());
    assert_eq!(without_sgr(&out), given);
}

#[test]
fn a_stream_that_has_ended_gives_nothing_more() {
    for mut stream in [
        StreamingHighlighter::new(numbers()),
        StreamingHighlighter::new_interactive(numbers()),
    ] {
        let mut out = stream.push(b"word 12");
        out.extend(stream.finish());
        assert_eq!(strip_ansi(&out), b"word 12");
        assert_eq!(stream.finish(), b"");
    }
}

#[test]
fn highlighting_keeps_a_title_that_is_cut_off() {
    let input = b"word 12 \x1b]0;\xe2\x9c";
    let out = numbers().highlight_bytes(input);
    assert_ne!(out, input);
    assert_eq!(strip_ansi(&out), strip_ansi(input));
}

#[test]
fn failed_highlighting_leaves_the_input() {
    assert_eq!(bytes_or_input(Ok(b"styled".to_vec()), b"input"), b"styled");
    let highlighter = numbers();
    let tried = highlighter.try_highlight_bytes(b"a 7").expect("rules match");
    assert_eq!(highlighter.highlight_bytes(b"a 7"), tried);
}

#[test]
fn stripping_twice_is_stripping_once() {
    let input = b"a\xc2\x1b[31m\xa9 \xe2\x9c\x93\x9b1m\xe2\x1b]0;x\x07\x9c b\x1b";
    let once = strip_ansi(input);
    assert_eq!(once, b"a\xc2\xa9 \xe2\x9c\x93\xe2 b");
    assert_eq!(strip_ansi(&once), once);
}

#[test]
fn sanitizing_twice_is_sanitizing_once() {
    let input = "a\x1b[3\x1b]0;x\x07b\x1b[1mc\u{9b}2m\u{9d}t\u{9c}d\u{2714}\x1bP1q\x1b\\\x1b(Be".as_bytes();
    let once = strip_string_escapes(input);
    assert_eq!(once, "ab\x1b[1mc\u{9b}2md\u{2714}\x1b(Be".as_bytes());
    assert_eq!(strip_string_escapes(&once), once);
    // A character that is broken off joins with what follows a string.
    let broken = b"\xe2\x1b]0;x\x07\x84\x8e\xe2\x9d";
    let once = strip_string_escapes(broken);
    assert_eq!(once, b"\xe2\x84\x8e\xe2\x9d");
    assert_eq!(strip_string_escapes(&once), b"\xe2\x84\x8e\xe2");
    // One that is broken off elsewhere does not.
    let latin = b"caf\xe9 \x1b]0;x\x07\xe9\x1bPq\x1b\\ok";
    let once = strip_string_escapes(latin);
    assert_eq!(once, b"caf\xe9 \xe9ok");
    assert_eq!(strip_string_escapes(&once), once);
}

#[test]
fn sanitizing_keeps_input_that_holds_no_string() {
    let inputs: [&[u8]; 5] = [
        b"\xe9 ",
        "\u{41e}\u{440}".as_bytes(),
        b"\xd0\x9e",
        b"\x1b[31m12\x1b[0m\x9b1mx",
        b"\xe2\xac",
    ];
    for input in inputs {
        assert_eq!(strip_string_escapes(input), input);
    }
    assert_ne!(strip_string_escapes(b"\x9e"), b"\x9e");
}

#[test]
fn reads_may_cut_output_anywhere() {
    for text in [TEXT, C1_TEXT, CANCELLED_TEXT, NESTED_TEXT] {
        for (strip, sanitize) in [(false, false), (true, false), (false, true)] {
            let whole = if strip {
                strip_ansi(text)
            } else if sanitize {
                strip_string_escapes(text)
            } else {
                text.to_vec()
            };
            for cut in 0..=text.len() {
                let mut state = ChunkFilterState::default();
                let mut out =
                    prepare_chunk(&text[..cut], strip, sanitize, &mut state).bytes().to_vec();
                out.extend_from_slice(
                    prepare_chunk(&text[cut..], strip, sanitize, &mut state).bytes(),
                );
                assert_eq!(out, whole, "cut at {cut}");
                assert_eq!(state.finish(strip, sanitize), None);
            }
        }
    }
}

#[test]
fn typed_input_may_be_cut_anywhere() {
    let typed = b"ls -l\x7f\x1b[A\x1bx\x1b[1;5Cok\r";
    let mut state = LocalEchoState::default();
    let whole = state.push(typed);
    assert_eq!(whole, b"ls -l\x08 \x08xok\r\n");
    for cut in 0..=typed.len() {
        let mut state = LocalEchoState::default();
        let mut shown = state.push(&typed[..cut]);
        shown.extend(state.push(&typed[cut..]));
        assert_eq!(shown, whole, "cut at {cut}");
    }
}

#[test]
fn restoring_takes_a_style_back() {
    let style = Style::parse("f#102030 b#405060 bold italic underline blink invert strike")
        .expect("style parses");
    for rendition in [
        &b"\x1b[m"[..],
        b"\x1b[1;2;4:3;31;48;5;7m",
        b"\x1b[2;3;21;6;38;2;1;2;3m",
        b"\x1b[53;58:5:9;97;107;8m",
        b"\x1b[38:2::9:8:7;7;9m",
    ] {
        for mode in [ColorMode::TrueColor, ColorMode::Xterm256, ColorMode::Ansi16] {
            let mut native = NativeSgrState::new();
            native.apply_sequence(rendition);
            let mut terminal = NativeSgrState::new();
            terminal.apply_sequence(rendition);
            terminal.apply_sequence(style.ansi_start_with_mode(mode).as_bytes());
            assert_ne!(terminal.ansi_start(), native.ansi_start());
            terminal.apply_sequence(&native.restore_after_interactive_style(&style));
            assert_eq!(terminal.ansi_start(), native.ansi_start());
        }
    }
}

#[test]
fn palette_colors_are_found_in_any_case() {
    let entries = vec![("Sky-Blue".to_string(), " #0a0B0c ".to_string())];
    let palette = parse_palette(&entries).expect("palette parses");
    let color = Rgb { r: 10, g: 11, b: 12 };
    for name in ["sky-blue", "SKY-BLUE", "Sky-bluE"] {
        let text = Style::parse_with_palette(&format!("f.{name}"), Some(&palette)).expect("found");
        assert_eq!(text.foreground, Some(color));
        let ground = Style::parse_with_palette(&format!("b.{name}"), Some(&palette)).expect("found");
        assert_eq!(ground.background, Some(color));
        assert_eq!(
            Style::parse_with_palette(&format!("f.{name}"), None).expect_err("no palette"),
            "palette color 'sky-blue' used, but no palette was specified"
        );
    }
}

#[test]
fn profile_names_come_in_order() {
    let names = ProfileStore::builtin().names();
    assert!(names.len() > 1);
    assert!(names.windows(2).all(|pair| pair[0] < pair[1]));
}

#[test]
fn budgets_without_bounds_take_everything() {
    let budget = MetadataBudget {
        kind: MetadataKind::Detection,
        max_entries: usize::MAX,
        max_entry_bytes: usize::MAX,
        max_total_bytes: usize::MAX,
    };
    let entries = vec![" IOS ".to_string(), "ios".to_string(), "NX".to_string()];
    let kept = normalize_metadata_entries(&entries, true, budget).expect("nothing is over");
    assert_eq!(kept, vec!["IOS".to_string(), "NX".to_string()]);
}
