//! PrismTTY: terminal output highlighting with device-aware profiles.
//!
//! The library holds the engine of the program: the terminal control grammar,
//! the string-control filter, the highlighter and its streaming state, the
//! profile store with its detection matcher, and the profile runtime that
//! follows a session from one device to the next.

pub mod arrival;
pub mod banners;
pub mod benchmark;
pub mod builtin;
pub mod bytes;
pub mod cache;
pub mod chunks;
pub mod command_lines;
pub mod compiled;
pub mod completion;
pub mod config;
pub mod controls;
pub mod detection;
pub mod documents;
pub mod echo;
pub mod emit;
pub mod endings;
pub mod escapes;
pub mod held;
pub mod highlight;
pub mod hints;
pub mod hues;
pub mod inheritance;
pub mod inherited;
pub mod invisible;
pub mod keystrokes;
pub mod listing;
pub mod logins;
pub mod lossy;
pub mod matching;
pub mod metadata;
pub mod options;
pub mod output_loop;
pub mod overlay;
pub mod paint;
pub mod palette;
pub mod pcre;
pub mod prompt_cuts;
pub mod prompt_echo;
pub mod prompt_forms;
pub mod prompt_sgr;
pub mod process;
pub mod profile_runtime;
pub mod profiles;
pub mod profiles_dir;
pub mod prompts;
pub mod reads;
pub mod recolor;
pub mod remote;
pub mod renditions;
pub mod reporter;
pub mod reports;
pub mod restoring;
pub mod sanitize;
pub mod sanitizing;
pub mod selection;
pub mod session;
pub mod settings;
pub mod sgr;
pub mod signals;
pub mod split;
pub mod stream_model;
pub mod stream_text;
pub mod streaming;
pub mod string_filter;
pub mod stripping;
pub mod style;
pub mod style_text;
pub mod switching;
pub mod terminal;
pub mod terminal_text;
pub mod text;
pub mod trace;
pub mod unicode;
pub mod units;
pub mod utf8;
pub mod waiting;
pub mod walks;
pub mod weave;
pub mod window;

pub use config::PrismConfig;
pub use highlight::{Highlighter, RuleMatchError, StyledSpan};
pub use profiles::ProfileStore;
pub use streaming::StreamingHighlighter;
