//! Rule and profile documents: what a parsed file means.

use vstd::prelude::*;
use vstd::string::*;

use crate::config::{
    capture_less, capture_views, rule_views, CaptureRef, CaptureView, ConfigError, ConfigIssue,
    PrismConfig, RuleSpec, RuleStyle, RuleStyleView, RuleView,
};
use crate::metadata::{normalize_and_validate_profile_metadata, normalized_profile};
use crate::palette::{pair_views, palette_of, parse_palette, style_of, Palette};
use crate::signals::{ProfileRuntimeMeta, RuntimeView, SignalView, StrongSignal};
use crate::style::{Rgb, Style};
use crate::terminal_text::{escape_untrusted, escaped};
use crate::text::{
    ascii_alnum_char, ascii_digit_char, ascii_letter_char, chars_of, concat, copy_text, decimal,
    decimal_text, is_ascii_alnum_char, is_ascii_digit_char, is_ascii_letter_char,
    lemma_text_less_irreflexive, lemma_text_less_total, lemma_text_less_transitive, text_less,
    text_views, trim, trimmed,
};

verus! {

/// A key of a capture-group mapping.
#[derive(Clone, Debug)]
pub enum CaptureKeyDoc {
    /// A number that is a group number.
    Number(u64),
    /// Any other number, as written.
    OtherNumber(String),
    Text(String),
    /// Anything else, as shown to the reader.
    Other(String),
}

/// The color of a rule.
#[derive(Clone, Debug)]
pub enum ColorDoc {
    Text(String),
    /// Keys with the color of each, where it is text, in the order of the
    /// document.
    Captures(Vec<(CaptureKeyDoc, Option<String>)>),
    Other,
}

/// A rule as written.
#[derive(Clone, Debug)]
pub struct RuleDoc {
    pub description: String,
    pub regex: String,
    pub color: ColorDoc,
    pub exclusive: bool,
}

/// What a profile file says of the profile.
#[derive(Clone, Debug)]
pub struct ProfileMetaDoc {
    pub name: String,
    /// Profiles that this one builds on.
    pub inherits: Vec<String>,
    /// Text that startup output is searched for.
    pub detection: Vec<String>,
    pub runtime: Option<ProfileRuntimeMeta>,
}

/// A file as written. The palette is in the order of its names.
#[derive(Clone, Debug)]
pub struct RulesDoc {
    pub profile: Option<ProfileMetaDoc>,
    pub palette: Vec<(String, String)>,
    pub rules: Vec<RuleDoc>,
}

/// A profile file that was found in order.
#[derive(Clone, Debug)]
pub struct LoadedProfileFile {
    pub meta: ProfileMetaDoc,
    /// What only bundled profiles have.
    pub runtime: Option<ProfileRuntimeMeta>,
    pub rules: Vec<RuleSpec>,
}

/// Who wrote a profile file.
#[derive(Clone, Copy, Debug, PartialEq, Eq, Structural)]
pub enum ProfileYamlMode {
    User,
    Bundled,
}

/// Colors by name.
pub type Colors = Seq<(Seq<char>, Rgb)>;

/// The value of a string of decimal digits.
pub open spec fn digit_value(s: Seq<char>) -> nat
    decreases s.len(),
{
    if s.len() == 0 {
        0
    } else {
        digit_value(s.drop_last()) * 10 + ((s.last() as int) - 0x30) as nat
    }
}

pub open spec fn all_digit_chars(s: Seq<char>) -> bool {
    forall|k: int| 0 <= k < s.len() ==> ascii_digit_char(#[trigger] s[k])
}

/// A letter or underscore, then letters, digits and underscores.
pub open spec fn capture_name(s: Seq<char>) -> bool {
    &&& s.len() > 0
    &&& ascii_letter_char(s[0]) || s[0] == '_'
    &&& forall|k: int| 1 <= k < s.len() ==> ascii_alnum_char(#[trigger] s[k]) || s[k] == '_'
}

pub open spec fn key_issue(description: Seq<char>, key: Seq<char>) -> ConfigIssue {
    ConfigIssue::InvalidCaptureKey { description: escaped(description), key: escaped(key) }
}

pub open spec fn style_issue(description: Seq<char>, message: Seq<char>) -> ConfigIssue {
    ConfigIssue::InvalidStyle { description: escaped(description), message }
}

/// The group that a text key names.
pub open spec fn text_key(description: Seq<char>, name: Seq<char>) -> Result<
    CaptureView,
    ConfigIssue,
> {
    if all_digit_chars(name) {
        if name.len() > 0 && digit_value(name) <= usize::MAX {
            Ok(CaptureView::Index(digit_value(name) as usize))
        } else {
            Err(key_issue(description, name))
        }
    } else if capture_name(name) {
        Ok(CaptureView::Name(name))
    } else {
        Err(key_issue(description, name))
    }
}

/// The group that a key names.
pub open spec fn key_of(description: Seq<char>, key: CaptureKeyDoc) -> Result<
    CaptureView,
    ConfigIssue,
> {
    match key {
        CaptureKeyDoc::Number(n) => Ok(CaptureView::Index(n as usize)),
        CaptureKeyDoc::OtherNumber(text) => Err(key_issue(description, text@)),
        CaptureKeyDoc::Text(name) => text_key(description, name@),
        CaptureKeyDoc::Other(text) => Err(key_issue(description, text@)),
    }
}

/// The palette, where it has a color.
pub open spec fn some_colors(palette: Colors) -> Option<Colors> {
    if palette.len() > 0 {
        Some(palette)
    } else {
        None
    }
}

/// The style that a color text stands for.
pub open spec fn style_text(description: Seq<char>, spec: Seq<char>, palette: Colors) -> Result<
    Style,
    ConfigIssue,
> {
    match style_of(spec, some_colors(palette)) {
        Ok(style) => Ok(style),
        Err(issue) => Err(style_issue(description, escaped(issue.message()))),
    }
}

/// Where `key` stands among references in order, from `i` on.
pub open spec fn capture_place(captures: Seq<(CaptureView, Style)>, key: CaptureView, i: int) -> int
    decreases captures.len() - i,
{
    if 0 <= i < captures.len() && capture_less(captures[i].0, key) {
        capture_place(captures, key, i + 1)
    } else {
        i
    }
}

/// References with `key` in its place, in place of what it had before.
pub open spec fn with_capture(
    captures: Seq<(CaptureView, Style)>,
    key: CaptureView,
    style: Style,
) -> Seq<(CaptureView, Style)> {
    let place = capture_place(captures, key, 0);
    if place < captures.len() && captures[place].0 == key {
        captures.update(place, (key, style))
    } else {
        captures.insert(place, (key, style))
    }
}

/// The references of the first `n` keys, or the first error among them.
pub open spec fn captures_of(
    description: Seq<char>,
    captures: Seq<(CaptureKeyDoc, Option<String>)>,
    palette: Colors,
    n: int,
) -> Result<Seq<(CaptureView, Style)>, ConfigIssue>
    decreases n,
{
    if n <= 0 {
        Ok(Seq::empty())
    } else {
        match captures_of(description, captures, palette, n - 1) {
            Err(issue) => Err(issue),
            Ok(before) => match key_of(description, captures[n - 1].0) {
                Err(issue) => Err(issue),
                Ok(key) => match captures[n - 1].1 {
                    None => Err(style_issue(description, "capture color must be a string"@)),
                    Some(spec) => match style_text(description, spec@, palette) {
                        Err(issue) => Err(issue),
                        Ok(style) => Ok(with_capture(before, key, style)),
                    },
                },
            },
        }
    }
}

/// What a color stands for.
pub open spec fn color_of(description: Seq<char>, color: ColorDoc, palette: Colors) -> Result<
    RuleStyleView,
    ConfigIssue,
> {
    match color {
        ColorDoc::Text(spec) => match style_text(description, spec@, palette) {
            Ok(style) => Ok(RuleStyleView::Whole(style)),
            Err(issue) => Err(issue),
        },
        ColorDoc::Captures(captures) => match captures_of(
            description,
            captures@,
            palette,
            captures@.len() as int,
        ) {
            Ok(views) => Ok(RuleStyleView::Captures(views)),
            Err(issue) => Err(issue),
        },
        ColorDoc::Other => Err(
            style_issue(description, "color must be a string or capture-group mapping"@),
        ),
    }
}

/// What rule `idx` is called.
pub open spec fn rule_name(description: Seq<char>, idx: int) -> Seq<char> {
    if trimmed(description).len() == 0 {
        "rule "@ + decimal((idx + 1) as nat)
    } else {
        description
    }
}

/// What rule `idx` of a document stands for.
pub open spec fn rule_of(doc: RuleDoc, idx: int, palette: Colors) -> Result<RuleView, ConfigIssue> {
    let description = rule_name(doc.description@, idx);
    match color_of(description, doc.color, palette) {
        Ok(style) => Ok(
            RuleView { description, regex: doc.regex@, style, exclusive: doc.exclusive },
        ),
        Err(issue) => Err(issue),
    }
}

/// What the first `n` rules stand for, or the first error among them.
pub open spec fn rules_of(docs: Seq<RuleDoc>, palette: Colors, n: int) -> Result<
    Seq<RuleView>,
    ConfigIssue,
>
    decreases n,
{
    if n <= 0 {
        Ok(Seq::empty())
    } else {
        match rules_of(docs, palette, n - 1) {
            Err(issue) => Err(issue),
            Ok(before) => match rule_of(docs[n - 1], n - 1, palette) {
                Err(issue) => Err(issue),
                Ok(rule) => Ok(before.push(rule)),
            },
        }
    }
}

/// The rules of a document.
pub open spec fn document_rules(doc: RulesDoc) -> Result<Seq<RuleView>, ConfigIssue> {
    match palette_of(pair_views(doc.palette@), 0, Seq::empty()) {
        Err(issue) => Err(ConfigIssue::InvalidPalette(issue.message())),
        Ok(palette) => rules_of(doc.rules@, palette, doc.rules@.len() as int),
    }
}

/// The content of a [`LoadedProfileFile`].
pub struct LoadedView {
    pub name: Seq<char>,
    pub inherits: Seq<Seq<char>>,
    pub detection: Seq<Seq<char>>,
    pub runtime: Option<RuntimeView>,
    pub rules: Seq<RuleView>,
}

pub open spec fn runtime_view(runtime: Option<ProfileRuntimeMeta>) -> Option<RuntimeView> {
    match runtime {
        Some(meta) => Some(meta@),
        None => None,
    }
}

impl View for LoadedProfileFile {
    type V = LoadedView;

    open spec fn view(&self) -> LoadedView {
        LoadedView {
            name: self.meta.name@,
            inherits: text_views(self.meta.inherits@),
            detection: text_views(self.meta.detection@),
            runtime: runtime_view(self.runtime),
            rules: rule_views(self.rules@),
        }
    }
}

/// What a profile file stands for.
pub open spec fn profile_file(doc: RulesDoc, mode: ProfileYamlMode) -> Result<
    LoadedView,
    ConfigIssue,
> {
    match doc.profile {
        None => Err(ConfigIssue::MissingProfileName),
        Some(meta) => if trimmed(meta.name@).len() == 0 {
            Err(ConfigIssue::MissingProfileName)
        } else {
            match normalized_profile(text_views(meta.inherits@), text_views(meta.detection@)) {
                Err(issue) => Err(ConfigIssue::Yaml(issue)),
                Ok((inherits, detection)) => if mode == ProfileYamlMode::User && meta.runtime
                    is Some {
                    Err(ConfigIssue::ReservedProfileRuntime)
                } else if mode == ProfileYamlMode::Bundled && meta.runtime is None {
                    Err(ConfigIssue::MissingProfileRuntime)
                } else {
                    match document_rules(doc) {
                        Err(issue) => Err(issue),
                        Ok(rules) => Ok(
                            LoadedView {
                                name: meta.name@,
                                inherits,
                                detection,
                                runtime: runtime_view(meta.runtime),
                                rules,
                            },
                        ),
                    }
                },
            }
        },
    }
}

fn key_error(description: &str, key: &str) -> (r: ConfigError)
    ensures
        r@ == key_issue(description@, key@),
{
    ConfigError::InvalidCaptureKey {
        description: escape_untrusted(description),
        key: escape_untrusted(key),
    }
}

fn style_error(description: &str, message: String) -> (r: ConfigError)
    ensures
        r@ == style_issue(description@, message@),
{
    ConfigError::InvalidStyle { description: escape_untrusted(description), message }
}

fn only_digits(s: &[char]) -> (r: bool)
    ensures
        r == all_digit_chars(s@),
{
    let mut i: usize = 0;
    while i < s.len()
        invariant
            i <= s@.len(),
            forall|k: int| 0 <= k < i ==> ascii_digit_char(#[trigger] s@[k]),
        decreases s@.len() - i,
    {
        if !is_ascii_digit_char(s[i]) {
            return false;
        }
        i = i + 1;
    }
    true
}

/// Whether the text can name a group.
pub fn is_valid_capture_name(s: &[char]) -> (r: bool)
    ensures
        r == capture_name(s@),
{
    if s.len() == 0 || !(is_ascii_letter_char(s[0]) || s[0] == '_') {
        return false;
    }
    let mut i: usize = 1;
    while i < s.len()
        invariant
            1 <= i <= s@.len(),
            forall|k: int| 1 <= k < i ==> ascii_alnum_char(#[trigger] s@[k]) || s@[k] == '_',
        decreases s@.len() - i,
    {
        if !(is_ascii_alnum_char(s[i]) || s[i] == '_') {
            return false;
        }
        i = i + 1;
    }
    true
}

proof fn lemma_digit_value_grows(s: Seq<char>, i: int)
    requires
        0 <= i <= s.len(),
        all_digit_chars(s),
    ensures
        digit_value(s.take(i)) <= digit_value(s),
    decreases s.len() - i,
{
    if i < s.len() {
        lemma_digit_value_grows(s, i + 1);
        assert(s.take(i + 1).drop_last() =~= s.take(i));
        assert(s.take(i + 1).last() == s[i]);
        assert(ascii_digit_char(s[i]));
    } else {
        assert(s.take(i) =~= s);
    }
}

fn parse_digits(s: &[char]) -> (r: Option<usize>)
    requires
        all_digit_chars(s@),
    ensures
        match r {
            Some(n) => s@.len() > 0 && n == digit_value(s@),
            None => s@.len() == 0 || digit_value(s@) > usize::MAX,
        },
{
    if s.len() == 0 {
        return None;
    }
    let mut value: usize = 0;
    let mut i: usize = 0;
    assert(s@.take(0) =~= Seq::<char>::empty());
    while i < s.len()
        invariant
            i <= s@.len(),
            s@.len() > 0,
            all_digit_chars(s@),
            value == digit_value(s@.take(i as int)),
        decreases s@.len() - i,
    {
        assert(s@.take(i + 1).drop_last() =~= s@.take(i as int));
        assert(s@.take(i + 1).last() == s@[i as int]);
        assert(ascii_digit_char(s@[i as int]));
        let digit: u32 = s[i] as u32 - 0x30;
        let d: usize = digit as usize;
        proof {
            lemma_digit_value_grows(s@, i + 1);
        }
        if value > (usize::MAX - d) / 10 {
            return None;
        }
        value = value * 10 + d;
        i = i + 1;
    }
    assert(s@.take(i as int) =~= s@);
    Some(value)
}

/// The group that a text key names.
pub fn parse_capture_ref_string(description: &str, name: &str) -> (r: Result<
    CaptureRef,
    ConfigError,
>)
    ensures
        match r {
            Ok(key) => text_key(description@, name@) == Ok::<CaptureView, ConfigIssue>(key@),
            Err(error) => text_key(description@, name@) == Err::<CaptureView, ConfigIssue>(error@),
        },
{
    let chars = chars_of(name);
    if only_digits(chars.as_slice()) {
        return match parse_digits(chars.as_slice()) {
            Some(n) => Ok(CaptureRef::Index(n)),
            None => Err(key_error(description, name)),
        };
    }
    if is_valid_capture_name(chars.as_slice()) {
        Ok(CaptureRef::Name(copy_text(name)))
    } else {
        Err(key_error(description, name))
    }
}

/// The group that a key names.
pub fn parse_capture_ref(description: &str, key: &CaptureKeyDoc) -> (r: Result<
    CaptureRef,
    ConfigError,
>)
    ensures
        match r {
            Ok(group) => key_of(description@, *key) == Ok::<CaptureView, ConfigIssue>(group@),
            Err(error) => key_of(description@, *key) == Err::<CaptureView, ConfigIssue>(error@),
        },
{
    match key {
        CaptureKeyDoc::Number(n) => Ok(CaptureRef::Index(*n as usize)),
        CaptureKeyDoc::OtherNumber(text) => Err(key_error(description, text.as_str())),
        CaptureKeyDoc::Text(name) => parse_capture_ref_string(description, name.as_str()),
        CaptureKeyDoc::Other(text) => Err(key_error(description, text.as_str())),
    }
}

/// The style that a color text stands for.
pub fn parse_style(description: &str, spec: &str, palette: &Palette) -> (r: Result<
    Style,
    ConfigError,
>)
    ensures
        match r {
            Ok(style) => style_text(description@, spec@, palette@) == Ok::<Style, ConfigIssue>(
                style,
            ),
            Err(error) => style_text(description@, spec@, palette@) == Err::<Style, ConfigIssue>(
                error@,
            ),
        },
{
    assert(palette@.len() == palette.entries@.len());
    let parsed = if palette.entries.len() > 0 {
        Style::parse_with_palette(spec, Some(palette))
    } else {
        Style::parse_with_palette(spec, None)
    };
    match parsed {
        Ok(style) => Ok(style),
        Err(message) => Err(style_error(description, escape_untrusted(message.as_str()))),
    }
}

/// Puts a group with its style in its place.
fn insert_capture(captures: &mut Vec<(CaptureRef, Style)>, key: CaptureRef, style: Style)
    ensures
        capture_views(final(captures)@) == with_capture(
            capture_views(old(captures)@),
            key@,
            style,
        ),
{
    let ghost before = capture_views(captures@);
    assert(before.len() == captures@.len());
    let mut place: usize = 0;
    while place < captures.len() && captures[place].0.is_before(&key)
        invariant
            place <= captures@.len(),
            before == capture_views(captures@),
            capture_place(before, key@, 0) == capture_place(before, key@, place as int),
        decreases captures@.len() - place,
    {
        assert(before[place as int].0 == captures@[place as int].0@);
        place = place + 1;
    }
    if place < captures.len() {
        assert(before[place as int] == (captures@[place as int].0@, captures@[place as int].1));
    }
    let ghost view = key@;
    if place < captures.len() && captures[place].0.same(&key) {
        captures.set(place, (key, style));
        assert(capture_views(captures@) =~= before.update(place as int, (view, style)));
    } else {
        captures.insert(place, (key, style));
        assert(capture_views(captures@) =~= before.insert(place as int, (view, style)));
    }
}

proof fn lemma_captures_fail(
    description: Seq<char>,
    captures: Seq<(CaptureKeyDoc, Option<String>)>,
    palette: Colors,
    n: int,
    m: int,
)
    requires
        0 <= n <= m,
        captures_of(description, captures, palette, n) is Err,
    ensures
        captures_of(description, captures, palette, m) == captures_of(
            description,
            captures,
            palette,
            n,
        ),
    decreases m - n,
{
    if n < m {
        lemma_captures_fail(description, captures, palette, n, m - 1);
    }
}

/// What a color stands for.
pub fn parse_color_doc(description: &str, color: &ColorDoc, palette: &Palette) -> (r: Result<
    RuleStyle,
    ConfigError,
>)
    ensures
        match r {
            Ok(style) => color_of(description@, *color, palette@) == Ok::<
                RuleStyleView,
                ConfigIssue,
            >(style@),
            Err(error) => color_of(description@, *color, palette@) == Err::<
                RuleStyleView,
                ConfigIssue,
            >(error@),
        },
{
    match color {
        ColorDoc::Text(spec) => match parse_style(description, spec.as_str(), palette) {
            Ok(style) => Ok(RuleStyle::Whole(style)),
            Err(error) => Err(error),
        },
        ColorDoc::Captures(captures) => {
            let ghost all = captures@;
            let mut parsed: Vec<(CaptureRef, Style)> = Vec::new();
            let mut i: usize = 0;
            assert(capture_views(parsed@) =~= Seq::<(CaptureView, Style)>::empty());
            while i < captures.len()
                invariant
                    i <= captures@.len(),
                    all == captures@,
                    color == (ColorDoc::Captures(*captures)),
                    captures_of(description@, all, palette@, i as int) == Ok::<
                        Seq<(CaptureView, Style)>,
                        ConfigIssue,
                    >(capture_views(parsed@)),
                decreases captures@.len() - i,
            {
                let ghost goal = captures_of(description@, all, palette@, i + 1);
                proof {
                    if goal is Err {
                        lemma_captures_fail(
                            description@,
                            all,
                            palette@,
                            i + 1,
                            all.len() as int,
                        );
                    }
                }
                let key = match parse_capture_ref(description, &captures[i].0) {
                    Ok(key) => key,
                    Err(error) => return Err(error),
                };
                match &captures[i].1 {
                    None => {
                        return Err(
                            style_error(description, copy_text("capture color must be a string")),
                        );
                    },
                    Some(spec) => match parse_style(description, spec.as_str(), palette) {
                        Ok(style) => insert_capture(&mut parsed, key, style),
                        Err(error) => return Err(error),
                    },
                }
                i = i + 1;
            }
            Ok(RuleStyle::Captures(parsed))
        },
        ColorDoc::Other => Err(
            style_error(
                description,
                copy_text("color must be a string or capture-group mapping"),
            ),
        ),
    }
}

/// What a rule is called.
fn described(description: &str, number: usize) -> (r: String)
    requires
        number > 0,
    ensures
        r@ == rule_name(description@, number - 1),
{
    let chars = chars_of(description);
    if trim(chars.as_slice()).len() == 0 {
        concat("rule ", decimal_text(number as u64).as_str())
    } else {
        copy_text(description)
    }
}

proof fn lemma_rules_fail(docs: Seq<RuleDoc>, palette: Colors, n: int, m: int)
    requires
        0 <= n <= m,
        rules_of(docs, palette, n) is Err,
    ensures
        rules_of(docs, palette, m) == rules_of(docs, palette, n),
    decreases m - n,
{
    if n < m {
        lemma_rules_fail(docs, palette, n, m - 1);
    }
}

/// What the rules of a document stand for.
pub fn parse_rule_docs(docs: &Vec<RuleDoc>, palette: &Palette) -> (r: Result<
    Vec<RuleSpec>,
    ConfigError,
>)
    ensures
        match r {
            Ok(rules) => rules_of(docs@, palette@, docs@.len() as int) == Ok::<
                Seq<RuleView>,
                ConfigIssue,
            >(rule_views(rules@)),
            Err(error) => rules_of(docs@, palette@, docs@.len() as int) == Err::<
                Seq<RuleView>,
                ConfigIssue,
            >(error@),
        },
{
    let mut rules: Vec<RuleSpec> = Vec::new();
    let mut i: usize = 0;
    assert(rule_views(rules@) =~= Seq::<RuleView>::empty());
    while i < docs.len()
        invariant
            i <= docs@.len(),
            rules_of(docs@, palette@, i as int) == Ok::<Seq<RuleView>, ConfigIssue>(
                rule_views(rules@),
            ),
        decreases docs@.len() - i,
    {
        proof {
            if rules_of(docs@, palette@, i + 1) is Err {
                lemma_rules_fail(docs@, palette@, i + 1, docs@.len() as int);
            }
        }
        let description = described(docs[i].description.as_str(), i + 1);
        match parse_color_doc(description.as_str(), &docs[i].color, palette) {
            Err(error) => return Err(error),
            Ok(style) => {
                let ghost before = rule_views(rules@);
                let rule = RuleSpec {
                    description,
                    regex: copy_text(docs[i].regex.as_str()),
                    style,
                    exclusive: docs[i].exclusive,
                };
                let ghost view = rule@;
                rules.push(rule);
                assert(rule_views(rules@) =~= before.push(view));
            },
        }
        i = i + 1;
    }
    Ok(rules)
}

/// The rules of a document.
fn rules_from_doc(doc: &RulesDoc) -> (r: Result<Vec<RuleSpec>, ConfigError>)
    ensures
        match r {
            Ok(rules) => document_rules(*doc) == Ok::<Seq<RuleView>, ConfigIssue>(
                rule_views(rules@),
            ),
            Err(error) => document_rules(*doc) == Err::<Seq<RuleView>, ConfigIssue>(error@),
        },
{
    match parse_palette(&doc.palette) {
        Err(message) => Err(ConfigError::InvalidPalette(message)),
        Ok(palette) => parse_rule_docs(&doc.rules, &palette),
    }
}

impl PrismConfig {
    /// The configuration that a rule document stands for.
    pub fn from_rules_doc(doc: &RulesDoc) -> (r: Result<PrismConfig, ConfigError>)
        ensures
            match r {
                Ok(config) => document_rules(*doc) == Ok::<Seq<RuleView>, ConfigIssue>(
                    config@.rules,
                ) && config@.enabled_profiles.len() == 0,
                Err(error) => document_rules(*doc) == Err::<Seq<RuleView>, ConfigIssue>(error@),
            },
    {
        match rules_from_doc(doc) {
            Ok(rules) => Ok(PrismConfig { rules, enabled_profiles: Vec::new() }),
            Err(error) => Err(error),
        }
    }
}

/// The profile that a profile document stands for. What a user's file says of
/// the runtime is rejected; a bundled file must say it.
pub fn profile_file_from_doc(doc: RulesDoc, mode: ProfileYamlMode) -> (r: Result<
    LoadedProfileFile,
    ConfigError,
>)
    ensures
        match r {
            Ok(file) => profile_file(doc, mode) == Ok::<LoadedView, ConfigIssue>(file@)
                && file.meta.runtime is None,
            Err(error) => profile_file(doc, mode) == Err::<LoadedView, ConfigIssue>(error@),
        },
{
    let rules = rules_from_doc(&doc);
    match doc.profile {
        None => Err(ConfigError::MissingProfileName),
        Some(meta) => {
            let name = chars_of(meta.name.as_str());
            if trim(name.as_slice()).len() == 0 {
                return Err(ConfigError::MissingProfileName);
            }
            match normalize_and_validate_profile_metadata(&meta.inherits, &meta.detection) {
                Err(issue) => Err(ConfigError::Yaml(issue)),
                Ok((inherits, detection)) => {
                    if mode == ProfileYamlMode::User && meta.runtime.is_some() {
                        return Err(ConfigError::ReservedProfileRuntime);
                    }
                    if mode == ProfileYamlMode::Bundled && meta.runtime.is_none() {
                        return Err(ConfigError::MissingProfileRuntime);
                    }
                    match rules {
                        Err(error) => Err(error),
                        Ok(rules) => Ok(
                            LoadedProfileFile {
                                meta: ProfileMetaDoc {
                                    name: meta.name,
                                    inherits,
                                    detection,
                                    runtime: None,
                                },
                                runtime: meta.runtime,
                                rules,
                            },
                        ),
                    }
                },
            }
        },
    }
}

/// Groups are in the order of their references, each at most once.
pub open spec fn captures_ordered(captures: Seq<(CaptureView, Style)>) -> bool {
    forall|i: int, j: int|
        0 <= i < j < captures.len() ==> capture_less(
            (#[trigger] captures[i]).0,
            (#[trigger] captures[j]).0,
        )
}

proof fn lemma_capture_order(a: CaptureView, b: CaptureView, c: CaptureView)
    ensures
        capture_less(a, b) || capture_less(b, a) || a == b,
        !capture_less(a, a),
        capture_less(a, b) && capture_less(b, c) ==> capture_less(a, c),
{
    if let CaptureView::Name(s) = a {
        if let CaptureView::Name(t) = b {
            lemma_text_less_total(s, t);
            if let CaptureView::Name(u) = c {
                if text_less(s, t) && text_less(t, u) {
                    lemma_text_less_transitive(s, t, u);
                }
            }
        }
        lemma_text_less_irreflexive(s);
    }
}

proof fn lemma_capture_place(captures: Seq<(CaptureView, Style)>, key: CaptureView, i: int)
    requires
        0 <= i <= captures.len(),
    ensures
        i <= capture_place(captures, key, i) <= captures.len(),
        forall|k: int|
            i <= k < capture_place(captures, key, i) ==> capture_less(
                (#[trigger] captures[k]).0,
                key,
            ),
        capture_place(captures, key, i) < captures.len() ==> !capture_less(
            captures[capture_place(captures, key, i)].0,
            key,
        ),
    decreases captures.len() - i,
{
    if i < captures.len() && capture_less(captures[i].0, key) {
        lemma_capture_place(captures, key, i + 1);
    }
}

proof fn lemma_with_capture_ordered(
    captures: Seq<(CaptureView, Style)>,
    key: CaptureView,
    style: Style,
)
    requires
        captures_ordered(captures),
    ensures
        captures_ordered(with_capture(captures, key, style)),
{
    let place = capture_place(captures, key, 0);
    lemma_capture_place(captures, key, 0);
    let after = with_capture(captures, key, style);
    if place < captures.len() && captures[place].0 == key {
        assert forall|i: int, j: int| 0 <= i < j < after.len() implies capture_less(
            (#[trigger] after[i]).0,
            (#[trigger] after[j]).0,
        ) by {
            assert(after[i].0 == captures[i].0 && after[j].0 == captures[j].0);
        }
    } else {
        assert forall|i: int, j: int| 0 <= i < j < after.len() implies capture_less(
            (#[trigger] after[i]).0,
            (#[trigger] after[j]).0,
        ) by {
            let x = if i < place {
                i
            } else {
                i - 1
            };
            let y = if j < place {
                j
            } else {
                j - 1
            };
            if i != place && j != place {
                assert(after[i] == captures[x] && after[j] == captures[y]);
            } else if i == place {
                assert(after[j] == captures[y]);
                lemma_capture_order(captures[place].0, key, key);
                if y > place {
                    assert(capture_less(captures[place].0, captures[y].0));
                    lemma_capture_order(key, captures[place].0, captures[y].0);
                }
            } else {
                assert(after[i] == captures[i]);
            }
        }
    }
}

/// The groups that a document colors are in order, each at most once.
pub proof fn documents_color_groups_in_order(
    description: Seq<char>,
    captures: Seq<(CaptureKeyDoc, Option<String>)>,
    palette: Colors,
    n: int,
)
    requires
        captures_of(description, captures, palette, n) is Ok,
    ensures
        captures_ordered(captures_of(description, captures, palette, n)->Ok_0),
    decreases n,
{
    if n > 0 {
        documents_color_groups_in_order(description, captures, palette, n - 1);
        let before = captures_of(description, captures, palette, n - 1)->Ok_0;
        let key = key_of(description, captures[n - 1].0)->Ok_0;
        let style = style_text(description, captures[n - 1].1->Some_0@, palette)->Ok_0;
        lemma_with_capture_ordered(before, key, style);
    }
}

/// The kinds of strong signals.
#[derive(Clone, Copy, Debug, PartialEq, Eq, Structural)]
pub enum StrongSignalKind {
    Contains,
    ContainsAny,
    LinePrefixAndAny,
}

/// A field that a signal of its kind must have and that is not there.
#[derive(Clone, Copy, Debug, PartialEq, Eq, Structural)]
pub enum MissingField {
    Value,
    Values,
    Prefix,
}

impl MissingField {
    pub open spec fn text(self) -> Seq<char> {
        match self {
            MissingField::Value => "value"@,
            MissingField::Values => "values"@,
            MissingField::Prefix => "prefix"@,
        }
    }

    /// The field as a file writes it.
    pub fn name(self) -> (r: &'static str)
        ensures
            r@ == self.text(),
    {
        match self {
            MissingField::Value => "value",
            MissingField::Values => "values",
            MissingField::Prefix => "prefix",
        }
    }
}

/// The signal that these fields make.
pub open spec fn signal_of(
    kind: StrongSignalKind,
    value: Option<String>,
    values: Option<Vec<String>>,
    prefix: Option<String>,
) -> Result<SignalView, MissingField> {
    match kind {
        StrongSignalKind::Contains => match value {
            Some(v) => Ok(SignalView::Contains(v@)),
            None => Err(MissingField::Value),
        },
        StrongSignalKind::ContainsAny => match values {
            Some(vs) => Ok(SignalView::ContainsAny(text_views(vs@))),
            None => Err(MissingField::Values),
        },
        StrongSignalKind::LinePrefixAndAny => match prefix {
            None => Err(MissingField::Prefix),
            Some(p) => match values {
                Some(vs) => Ok(SignalView::LinePrefixAndAny(p@, text_views(vs@))),
                None => Err(MissingField::Values),
            },
        },
    }
}

/// Makes a signal of the fields that its kind must have.
pub fn strong_signal_from_fields(
    kind: StrongSignalKind,
    value: Option<String>,
    values: Option<Vec<String>>,
    prefix: Option<String>,
) -> (r: Result<StrongSignal, MissingField>)
    ensures
        match signal_of(kind, value, values, prefix) {
            Ok(view) => r matches Ok(signal) && signal@ == view,
            Err(field) => r == Err::<StrongSignal, MissingField>(field),
        },
{
    match kind {
        StrongSignalKind::Contains => match value {
            Some(value) => Ok(StrongSignal::Contains { value }),
            None => Err(MissingField::Value),
        },
        StrongSignalKind::ContainsAny => match values {
            Some(values) => Ok(StrongSignal::ContainsAny { values }),
            None => Err(MissingField::Values),
        },
        StrongSignalKind::LinePrefixAndAny => match prefix {
            None => Err(MissingField::Prefix),
            Some(prefix) => match values {
                Some(values) => Ok(StrongSignal::LinePrefixAndAny { prefix, values }),
                None => Err(MissingField::Values),
            },
        },
    }
}

} // verus!
