//! Style specifications and named color palettes.

use vstd::prelude::*;
use vstd::string::*;
use vstd::utf8::*;

use crate::style::{Rgb, Style};
use crate::text::{
    ascii_alnum_char, char_views, chars_of, concat3, copy_text, is_ascii_alnum_char, lowered,
    same_chars, skip_word, split_words, text_from, to_lower_chars, trim, trimmed, whitespace, words,
    words_from,
};

verus! {

/// Why a style specification is refused.
pub enum StyleIssue {
    UnsupportedToken(Seq<char>),
    SecondForeground,
    SecondBackground,
    HexLength(Seq<char>),
    HexDigits(Seq<char>),
    NoPalette(Seq<char>),
    UnknownColor(Seq<char>),
    Nothing,
}

impl StyleIssue {
    pub open spec fn message(self) -> Seq<char> {
        match self {
            StyleIssue::UnsupportedToken(token) => "unsupported style token '"@ + token + "'"@,
            StyleIssue::SecondForeground => "style accepts only one foreground color"@,
            StyleIssue::SecondBackground => "style accepts only one background color"@,
            StyleIssue::HexLength(hex) => "expected 6 hex digits in '#"@ + hex + "'"@,
            StyleIssue::HexDigits(hex) => "invalid hex color '#"@ + hex + "'"@,
            StyleIssue::NoPalette(name) => "palette color '"@ + name
                + "' used, but no palette was specified"@,
            StyleIssue::UnknownColor(name) => "palette color '"@ + name + "' not found"@,
            StyleIssue::Nothing => "style must set at least one attribute"@,
        }
    }
}

pub open spec fn hex_char(c: char) -> bool {
    0x30 <= (c as int) <= 0x39 || 0x41 <= (c as int) <= 0x46 || 0x61 <= (c as int) <= 0x66
}

pub open spec fn hex_value(c: char) -> int {
    if (c as int) <= 0x39 {
        (c as int) - 0x30
    } else if (c as int) <= 0x46 {
        (c as int) - 0x37
    } else {
        (c as int) - 0x57
    }
}

pub open spec fn all_hex(s: Seq<char>) -> bool {
    forall|k: int| 0 <= k < s.len() ==> hex_char(#[trigger] s[k])
}

/// The color that six hexadecimal digits stand for.
pub open spec fn rgb_of(hex: Seq<char>) -> Result<Rgb, StyleIssue> {
    if encode_utf8(hex).len() != 6 {
        Err(StyleIssue::HexLength(hex))
    } else if !all_hex(hex) {
        Err(StyleIssue::HexDigits(hex))
    } else {
        Ok(
            Rgb {
                r: (hex_value(hex[0]) * 16 + hex_value(hex[1])) as u8,
                g: (hex_value(hex[2]) * 16 + hex_value(hex[3])) as u8,
                b: (hex_value(hex[4]) * 16 + hex_value(hex[5])) as u8,
            },
        )
    }
}

fn is_hex_char(c: char) -> (r: bool)
    ensures
        r == hex_char(c),
{
    let n = c as u32;
    (0x30 <= n && n <= 0x39) || (0x41 <= n && n <= 0x46) || (0x61 <= n && n <= 0x66)
}

fn parse_channel(high: char, low: char) -> (r: u8)
    requires
        hex_char(high),
        hex_char(low),
    ensures
        r == hex_value(high) * 16 + hex_value(low),
{
    hex_digit_value(high) * 16 + hex_digit_value(low)
}

fn hex_digit_value(c: char) -> (r: u8)
    requires
        hex_char(c),
    ensures
        r == hex_value(c),
        r < 16,
{
    let n = c as u32;
    if n <= 0x39 {
        (n - 0x30) as u8
    } else if n <= 0x46 {
        (n - 0x37) as u8
    } else {
        (n - 0x57) as u8
    }
}

fn parse_rgb(hex: &[char]) -> (r: Result<Rgb, String>)
    ensures
        match rgb_of(hex@) {
            Ok(color) => r == Ok::<Rgb, String>(color),
            Err(issue) => r matches Err(message) && message@ == issue.message(),
        },
{
    let text = text_from(hex);
    if text.as_str().as_bytes().len() != 6 {
        return Err(concat3("expected 6 hex digits in '#", text.as_str(), "'"));
    }
    let mut i: usize = 0;
    while i < hex.len()
        invariant
            i <= hex@.len(),
            forall|k: int| 0 <= k < i ==> hex_char(#[trigger] hex@[k]),
            encode_utf8(hex@).len() == 6,
            text@ == hex@,
        decreases hex@.len() - i,
    {
        if !is_hex_char(hex[i]) {
            assert(!hex_char(hex@[i as int]));
            return Err(concat3("invalid hex color '#", text.as_str(), "'"));
        }
        i = i + 1;
    }
    proof {
        assert forall|k: int| 0 <= k < hex@.len() implies '\0' <= #[trigger] hex@[k]
            <= '\u{7f}' by {
            assert(hex_char(hex@[k]));
        }
        assert(is_ascii_chars(hex@));
        is_ascii_chars_encode_utf8(hex@);
        assert(hex@.len() == 6);
    }
    Ok(
        Rgb {
            r: parse_channel(hex[0], hex[1]),
            g: parse_channel(hex[2], hex[3]),
            b: parse_channel(hex[4], hex[5]),
        },
    )
}

/// Named colors.
#[derive(Debug)]
pub struct Palette {
    pub entries: Vec<(String, Rgb)>,
}

impl View for Palette {
    type V = Seq<(Seq<char>, Rgb)>;

    open spec fn view(&self) -> Seq<(Seq<char>, Rgb)> {
        self.entries@.map_values(|e: (String, Rgb)| (e.0@, e.1))
    }
}

/// The color of that name among the entries from `i` on.
pub open spec fn color_from(entries: Seq<(Seq<char>, Rgb)>, name: Seq<char>, i: int) -> Option<Rgb>
    decreases entries.len() - i,
{
    if !(0 <= i < entries.len()) {
        None
    } else if entries[i].0 == name {
        Some(entries[i].1)
    } else {
        color_from(entries, name, i + 1)
    }
}

impl Palette {
    pub fn is_empty(&self) -> (r: bool)
        ensures
            r == (self@.len() == 0),
    {
        self.entries.len() == 0
    }

    pub fn get(&self, name: &[char]) -> (r: Option<Rgb>)
        ensures
            r == color_from(self@, name@, 0),
    {
        let mut i: usize = 0;
        while i < self.entries.len()
            invariant
                i <= self.entries@.len(),
                color_from(self@, name@, 0) == color_from(self@, name@, i as int),
            decreases self.entries@.len() - i,
        {
            assert(self@[i as int] == (self.entries@[i as int].0@, self.entries@[i as int].1));
            if same_chars(chars_of(self.entries[i].0.as_str()).as_slice(), name) {
                return Some(self.entries[i].1);
            }
            i = i + 1;
        }
        None
    }
}

/// The palette color that a style token names.
pub open spec fn palette_color(palette: Option<Seq<(Seq<char>, Rgb)>>, name: Seq<char>) -> Result<
    Rgb,
    StyleIssue,
> {
    match palette {
        None => Err(StyleIssue::NoPalette(name)),
        Some(entries) => match color_from(entries, name, 0) {
            Some(color) => Ok(color),
            None => Err(StyleIssue::UnknownColor(name)),
        },
    }
}

fn resolve_palette_color(palette: Option<&Palette>, name: &[char]) -> (r: Result<Rgb, String>)
    ensures
        match palette_color(palette_view(palette), name@) {
            Ok(color) => r == Ok::<Rgb, String>(color),
            Err(issue) => r matches Err(message) && message@ == issue.message(),
        },
{
    match palette {
        None => Err(
            concat3(
                "palette color '",
                text_from(name).as_str(),
                "' used, but no palette was specified",
            ),
        ),
        Some(palette) => match palette.get(name) {
            Some(color) => Ok(color),
            None => Err(concat3("palette color '", text_from(name).as_str(), "' not found")),
        },
    }
}

pub open spec fn palette_view(palette: Option<&Palette>) -> Option<Seq<(Seq<char>, Rgb)>> {
    match palette {
        Some(p) => Some(p@),
        None => None,
    }
}

pub open spec fn with_foreground(style: Style, color: Result<Rgb, StyleIssue>) -> Result<
    Style,
    StyleIssue,
> {
    match color {
        Ok(color) => if style.foreground is Some {
            Err(StyleIssue::SecondForeground)
        } else {
            Ok(Style { foreground: Some(color), ..style })
        },
        Err(issue) => Err(issue),
    }
}

pub open spec fn with_background(style: Style, color: Result<Rgb, StyleIssue>) -> Result<
    Style,
    StyleIssue,
> {
    match color {
        Ok(color) => if style.background is Some {
            Err(StyleIssue::SecondBackground)
        } else {
            Ok(Style { background: Some(color), ..style })
        },
        Err(issue) => Err(issue),
    }
}

/// `style` with one more token of a specification, in small letters.
pub open spec fn with_token(
    style: Style,
    token: Seq<char>,
    palette: Option<Seq<(Seq<char>, Rgb)>>,
) -> Result<Style, StyleIssue> {
    let rest = token.subrange(2, token.len() as int);
    if token == "bold"@ {
        Ok(Style { bold: true, ..style })
    } else if token == "blink"@ {
        Ok(Style { blink: true, ..style })
    } else if token == "invert"@ {
        Ok(Style { invert: true, ..style })
    } else if token == "italic"@ {
        Ok(Style { italic: true, ..style })
    } else if token == "strike"@ {
        Ok(Style { strike: true, ..style })
    } else if token == "underline"@ {
        Ok(Style { underline: true, ..style })
    } else if token.len() >= 2 && token[0] == 'f' && token[1] == '#' {
        with_foreground(style, rgb_of(rest))
    } else if token.len() >= 2 && token[0] == 'b' && token[1] == '#' {
        with_background(style, rgb_of(rest))
    } else if token.len() >= 2 && token[0] == 'f' && token[1] == '.' {
        with_foreground(style, palette_color(palette, rest))
    } else if token.len() >= 2 && token[0] == 'b' && token[1] == '.' {
        with_background(style, palette_color(palette, rest))
    } else {
        Err(StyleIssue::UnsupportedToken(token))
    }
}

/// `style` with the tokens from `i` on.
pub open spec fn with_tokens(
    style: Style,
    tokens: Seq<Seq<char>>,
    i: int,
    palette: Option<Seq<(Seq<char>, Rgb)>>,
) -> Result<Style, StyleIssue>
    decreases tokens.len() - i,
{
    if !(0 <= i < tokens.len()) {
        if style == Style::plain() {
            Err(StyleIssue::Nothing)
        } else {
            Ok(style)
        }
    } else {
        match with_token(style, lowered(tokens[i]), palette) {
            Ok(next) => with_tokens(next, tokens, i + 1, palette),
            Err(issue) => Err(issue),
        }
    }
}

/// The style that the specification `spec` describes.
pub open spec fn style_of(spec: Seq<char>, palette: Option<Seq<(Seq<char>, Rgb)>>) -> Result<
    Style,
    StyleIssue,
> {
    with_tokens(Style::plain(), words(spec), 0, palette)
}

fn set_foreground(style: Style, color: Rgb) -> (r: Result<Style, String>)
    ensures
        match with_foreground(style, Ok(color)) {
            Ok(next) => r == Ok::<Style, String>(next),
            Err(issue) => r matches Err(message) && message@ == issue.message(),
        },
{
    if style.foreground.is_some() {
        return Err(copy_text("style accepts only one foreground color"));
    }
    Ok(Style { foreground: Some(color), ..style })
}

fn set_background(style: Style, color: Rgb) -> (r: Result<Style, String>)
    ensures
        match with_background(style, Ok(color)) {
            Ok(next) => r == Ok::<Style, String>(next),
            Err(issue) => r matches Err(message) && message@ == issue.message(),
        },
{
    if style.background.is_some() {
        return Err(copy_text("style accepts only one background color"));
    }
    Ok(Style { background: Some(color), ..style })
}

fn is_word(token: &[char], word: &str) -> (r: bool)
    ensures
        r == (token@ == word@),
{
    same_chars(token, chars_of(word).as_slice())
}

fn add_token(style: Style, token: &[char], palette: Option<&Palette>) -> (r: Result<
    Style,
    String,
>)
    ensures
        match with_token(style, token@, palette_view(palette)) {
            Ok(next) => r == Ok::<Style, String>(next),
            Err(issue) => r matches Err(message) && message@ == issue.message(),
        },
{
    if is_word(token, "bold") {
        return Ok(Style { bold: true, ..style });
    }
    if is_word(token, "blink") {
        return Ok(Style { blink: true, ..style });
    }
    if is_word(token, "invert") {
        return Ok(Style { invert: true, ..style });
    }
    if is_word(token, "italic") {
        return Ok(Style { italic: true, ..style });
    }
    if is_word(token, "strike") {
        return Ok(Style { strike: true, ..style });
    }
    if is_word(token, "underline") {
        return Ok(Style { underline: true, ..style });
    }
    if token.len() >= 2 && (token[0] == 'f' || token[0] == 'b') && (token[1] == '#' || token[1]
        == '.') {
        let rest = vstd::slice::slice_subrange(token, 2, token.len());
        let color = if token[1] == '#' {
            parse_rgb(rest)
        } else {
            resolve_palette_color(palette, rest)
        };
        return match color {
            Ok(color) => if token[0] == 'f' {
                set_foreground(style, color)
            } else {
                set_background(style, color)
            },
            Err(message) => Err(message),
        };
    }
    Err(concat3("unsupported style token '", text_from(token).as_str(), "'"))
}

impl Style {
    /// Parses a style specification without a palette.
    pub fn parse(spec: &str) -> (r: Result<Style, String>)
        ensures
            match style_of(spec@, None) {
                Ok(style) => r == Ok::<Style, String>(style),
                Err(issue) => r matches Err(message) && message@ == issue.message(),
            },
    {
        Style::parse_with_palette(spec, None)
    }

    /// Parses a style specification with optional named palette colors.
    pub fn parse_with_palette(spec: &str, palette: Option<&Palette>) -> (r: Result<Style, String>)
        ensures
            match style_of(spec@, palette_view(palette)) {
                Ok(style) => r == Ok::<Style, String>(style),
                Err(issue) => r matches Err(message) && message@ == issue.message(),
            },
    {
        let tokens = split_words(chars_of(spec).as_slice());
        let ghost all = words(spec@);
        let mut style = Style::default();
        let mut i: usize = 0;
        while i < tokens.len()
            invariant
                i <= tokens@.len(),
                char_views(tokens@) == all,
                all == words(spec@),
                style_of(spec@, palette_view(palette)) == with_tokens(
                    style,
                    all,
                    i as int,
                    palette_view(palette),
                ),
            decreases tokens@.len() - i,
        {
            assert(all[i as int] == tokens@[i as int]@);
            let token = to_lower_chars(tokens[i].as_slice());
            match add_token(style, token.as_slice(), palette) {
                Ok(next) => {
                    style = next;
                },
                Err(message) => {
                    return Err(message);
                },
            }
            i = i + 1;
        }
        if style.is_empty() {
            return Err(copy_text("style must set at least one attribute"));
        }
        Ok(style)
    }
}

/// Every style that parses sets something.
pub proof fn parsed_styles_are_not_plain(spec: Seq<char>, palette: Option<Seq<(Seq<char>, Rgb)>>)
    ensures
        style_of(spec, palette) matches Ok(style) ==> style != Style::plain(),
{
    lemma_with_tokens_not_plain(Style::plain(), words(spec), 0, palette);
}

proof fn lemma_with_tokens_not_plain(
    style: Style,
    tokens: Seq<Seq<char>>,
    i: int,
    palette: Option<Seq<(Seq<char>, Rgb)>>,
)
    ensures
        with_tokens(style, tokens, i, palette) matches Ok(s) ==> s != Style::plain(),
    decreases tokens.len() - i,
{
    if 0 <= i < tokens.len() {
        if let Ok(next) = with_token(style, lowered(tokens[i]), palette) {
            lemma_with_tokens_not_plain(next, tokens, i + 1, palette);
        }
    }
}

/// Why a palette is refused.
pub enum PaletteIssue {
    BadName(Seq<char>),
    Reserved(Seq<char>),
    Duplicate(Seq<char>),
    NoHash(Seq<char>),
    BadColor(StyleIssue),
}

impl PaletteIssue {
    pub open spec fn message(self) -> Seq<char> {
        match self {
            PaletteIssue::BadName(name) => "palette color name '"@ + name
                + "' must contain only alphanumerics, dashes, and underscores"@,
            PaletteIssue::Reserved(name) => "palette color name '"@ + name + "' is reserved"@,
            PaletteIssue::Duplicate(name) => "palette color '"@ + name + "' is duplicated"@,
            PaletteIssue::NoHash(name) => "palette color '"@ + name
                + "' must be in #123abc format"@,
            PaletteIssue::BadColor(issue) => issue.message(),
        }
    }
}

pub open spec fn palette_name_char(c: char) -> bool {
    ascii_alnum_char(c) || c == '-' || c == '_'
}

pub open spec fn palette_name(name: Seq<char>) -> bool {
    name.len() > 0 && forall|k: int| 0 <= k < name.len() ==> palette_name_char(#[trigger] name[k])
}

pub open spec fn reserved_name(name: Seq<char>) -> bool {
    name == "fg"@ || name == "bg"@ || name == "blink"@ || name == "bold"@ || name == "invert"@
        || name == "italic"@ || name == "strike"@ || name == "underline"@
}

/// One palette entry, read behind `known` ones.
pub open spec fn palette_entry(
    known: Seq<(Seq<char>, Rgb)>,
    name: Seq<char>,
    value: Seq<char>,
) -> Result<Rgb, PaletteIssue> {
    let hash = trimmed(value);
    if !palette_name(name) {
        Err(PaletteIssue::BadName(name))
    } else if reserved_name(name) {
        Err(PaletteIssue::Reserved(name))
    } else if color_from(known, name, 0) is Some {
        Err(PaletteIssue::Duplicate(name))
    } else if !(hash.len() > 0 && hash[0] == '#') {
        Err(PaletteIssue::NoHash(name))
    } else {
        match rgb_of(hash.subrange(1, hash.len() as int)) {
            Ok(color) => Ok(color),
            Err(issue) => Err(PaletteIssue::BadColor(issue)),
        }
    }
}

/// The palette made of the entries from `i` on, behind `known` ones.
pub open spec fn palette_of(
    input: Seq<(Seq<char>, Seq<char>)>,
    i: int,
    known: Seq<(Seq<char>, Rgb)>,
) -> Result<Seq<(Seq<char>, Rgb)>, PaletteIssue>
    decreases input.len() - i,
{
    if !(0 <= i < input.len()) {
        Ok(known)
    } else {
        let name = lowered(input[i].0);
        match palette_entry(known, name, input[i].1) {
            Ok(color) => palette_of(input, i + 1, known.push((name, color))),
            Err(issue) => Err(issue),
        }
    }
}

pub open spec fn pair_views(input: Seq<(String, String)>) -> Seq<(Seq<char>, Seq<char>)> {
    input.map_values(|e: (String, String)| (e.0@, e.1@))
}

fn is_palette_name(name: &[char]) -> (r: bool)
    ensures
        r == palette_name(name@),
{
    if name.len() == 0 {
        return false;
    }
    let mut i: usize = 0;
    while i < name.len()
        invariant
            i <= name@.len(),
            forall|k: int| 0 <= k < i ==> palette_name_char(#[trigger] name@[k]),
        decreases name@.len() - i,
    {
        if !(is_ascii_alnum_char(name[i]) || name[i] == '-' || name[i] == '_') {
            assert(!palette_name_char(name@[i as int]));
            return false;
        }
        i = i + 1;
    }
    true
}

/// Parses a palette from names and `#rrggbb` values, in the order of the
/// names.
pub fn parse_palette(input: &Vec<(String, String)>) -> (r: Result<Palette, String>)
    ensures
        match palette_of(pair_views(input@), 0, Seq::empty()) {
            Ok(entries) => r matches Ok(palette) && palette@ == entries,
            Err(issue) => r matches Err(message) && message@ == issue.message(),
        },
{
    let mut palette = Palette { entries: Vec::new() };
    let ghost all = pair_views(input@);
    assert(palette@ =~= Seq::<(Seq<char>, Rgb)>::empty());
    let mut i: usize = 0;
    while i < input.len()
        invariant
            i <= input@.len(),
            all == pair_views(input@),
            palette_of(all, 0, Seq::empty()) == palette_of(all, i as int, palette@),
        decreases input@.len() - i,
    {
        assert(all[i as int] == (input@[i as int].0@, input@[i as int].1@));
        let lower = to_lower_chars(chars_of(input[i].0.as_str()).as_slice());
        let name = text_from(lower.as_slice());
        if !is_palette_name(lower.as_slice()) {
            return Err(
                concat3(
                    "palette color name '",
                    name.as_str(),
                    "' must contain only alphanumerics, dashes, and underscores",
                ),
            );
        }
        if is_word(lower.as_slice(), "fg") || is_word(lower.as_slice(), "bg") || is_word(
            lower.as_slice(),
            "blink",
        ) || is_word(lower.as_slice(), "bold") || is_word(lower.as_slice(), "invert") || is_word(
            lower.as_slice(),
            "italic",
        ) || is_word(lower.as_slice(), "strike") || is_word(lower.as_slice(), "underline") {
            return Err(concat3("palette color name '", name.as_str(), "' is reserved"));
        }
        if palette.get(lower.as_slice()).is_some() {
            return Err(concat3("palette color '", name.as_str(), "' is duplicated"));
        }
        let value = chars_of(input[i].1.as_str());
        let hash = trim(value.as_slice());
        if !(hash.len() > 0 && hash[0] == '#') {
            return Err(concat3("palette color '", name.as_str(), "' must be in #123abc format"));
        }
        match parse_rgb(vstd::slice::slice_subrange(hash, 1, hash.len())) {
            Ok(color) => {
                let ghost before = palette@;
                palette.entries.push((name, color));
                assert(palette@ =~= before.push((lower@, color)));
            },
            Err(message) => {
                return Err(message);
            },
        }
        i = i + 1;
    }
    Ok(palette)
}

/// The value of a palette entry as a color.
pub open spec fn entry_color(value: Seq<char>) -> Result<Rgb, StyleIssue> {
    rgb_of(trimmed(value).subrange(1, trimmed(value).len() as int))
}

proof fn lemma_color_behind(entries: Seq<(Seq<char>, Rgb)>, more: (Seq<char>, Rgb), name: Seq<char>, i: int)
    requires
        0 <= i <= entries.len(),
    ensures
        color_from(entries, name, i) is Some ==> color_from(entries.push(more), name, i)
            == color_from(entries, name, i),
        color_from(entries, name, i) is None && more.0 == name ==> color_from(
            entries.push(more),
            name,
            i,
        ) == Some(more.1),
    decreases entries.len() - i,
{
    if i < entries.len() {
        assert(entries.push(more)[i] == entries[i]);
        lemma_color_behind(entries, more, name, i + 1);
    } else {
        assert(entries.push(more)[i] == more);
    }
}

proof fn lemma_palette_keeps(
    input: Seq<(Seq<char>, Seq<char>)>,
    i: int,
    known: Seq<(Seq<char>, Rgb)>,
    name: Seq<char>,
)
    requires
        0 <= i <= input.len(),
        color_from(known, name, 0) is Some,
    ensures
        palette_of(input, i, known) matches Ok(entries) ==> color_from(entries, name, 0)
            == color_from(known, name, 0),
    decreases input.len() - i,
{
    if i < input.len() {
        let here = lowered(input[i].0);
        if let Ok(color) = palette_entry(known, here, input[i].1) {
            lemma_color_behind(known, (here, color), name, 0);
            lemma_palette_keeps(input, i + 1, known.push((here, color)), name);
        }
    }
}

proof fn lemma_palette_finds(
    input: Seq<(Seq<char>, Seq<char>)>,
    i: int,
    known: Seq<(Seq<char>, Rgb)>,
    k: int,
)
    requires
        0 <= i <= k < input.len(),
        palette_of(input, i, known) is Ok,
    ensures
        palette_name(lowered(input[k].0)),
        entry_color(input[k].1) is Ok,
        color_from(palette_of(input, i, known)->Ok_0, lowered(input[k].0), 0) == Some(
            entry_color(input[k].1)->Ok_0,
        ),
    decreases input.len() - i,
{
    let name = lowered(input[i].0);
    let color = palette_entry(known, name, input[i].1)->Ok_0;
    lemma_color_behind(known, (name, color), name, 0);
    if i == k {
        lemma_palette_keeps(input, i + 1, known.push((name, color)), name);
    } else {
        lemma_palette_finds(input, i + 1, known.push((name, color)), k);
    }
}

proof fn lemma_word_end(s: Seq<char>, i: int)
    requires
        0 <= i <= s.len(),
        forall|k: int| i <= k < s.len() ==> !whitespace(#[trigger] s[k]),
    ensures
        skip_word(s, i) == s.len(),
    decreases s.len() - i,
{
    if i < s.len() {
        lemma_word_end(s, i + 1);
    }
}

/// A text without white space is one word.
proof fn lemma_one_word(s: Seq<char>)
    requires
        s.len() > 0,
        forall|k: int| 0 <= k < s.len() ==> !whitespace(#[trigger] s[k]),
    ensures
        words(s) == seq![s],
{
    lemma_word_end(s, 0);
    assert(s.subrange(0, s.len() as int) =~= s);
    assert(words_from(s, s.len() as int) =~= Seq::<Seq<char>>::empty());
    assert(seq![s] + words_from(s, s.len() as int) =~= seq![s]);
}

/// A style that names a color of a palette.
pub open spec fn naming(mark: char, name: Seq<char>) -> Seq<char> {
    seq![mark, '.'] + name
}

proof fn lemma_naming(mark: char, written: Seq<char>)
    requires
        mark == 'f' || mark == 'b',
        palette_name(lowered(written)),
    ensures
        words(naming(mark, written)) == seq![naming(mark, written)],
        lowered(naming(mark, written)) == naming(mark, lowered(written)),
{
    let s = naming(mark, written);
    assert forall|k: int| 0 <= k < s.len() implies !whitespace(#[trigger] s[k]) by {
        if k >= 2 {
            assert(s[k] == written[k - 2]);
            assert(palette_name_char(lowered(written)[k - 2]));
        }
    }
    lemma_one_word(s);
    assert(lowered(s) =~= naming(mark, lowered(written)));
}

proof fn lemma_named_token(mark: char, name: Seq<char>, palette: Option<Seq<(Seq<char>, Rgb)>>)
    requires
        mark == 'f' || mark == 'b',
    ensures
        with_token(Style::plain(), naming(mark, name), palette) == (if mark == 'f' {
            with_foreground(Style::plain(), palette_color(palette, name))
        } else {
            with_background(Style::plain(), palette_color(palette, name))
        }),
{
    reveal_strlit("bold");
    reveal_strlit("blink");
    reveal_strlit("invert");
    reveal_strlit("italic");
    reveal_strlit("strike");
    reveal_strlit("underline");
    let token = naming(mark, name);
    assert(token[0] == mark && token[1] == '.');
    assert(token.subrange(2, token.len() as int) =~= name);
    assert("bold"@[1] == 'o' && "blink"@[1] == 'l' && "invert"@[1] == 'n' && "italic"@[1] == 't'
        && "strike"@[1] == 't' && "underline"@[1] == 'n');
}

/// A color of a palette is found under its name, in capital and in small
/// letters, for text and for its background.
pub proof fn palette_colors_are_found(
    input: Seq<(Seq<char>, Seq<char>)>,
    entries: Seq<(Seq<char>, Rgb)>,
    k: int,
    written: Seq<char>,
)
    requires
        palette_of(input, 0, Seq::empty()) == Ok::<Seq<(Seq<char>, Rgb)>, PaletteIssue>(entries),
        0 <= k < input.len(),
        lowered(written) == lowered(input[k].0),
    ensures
        entry_color(input[k].1) matches Ok(color) && style_of(
            naming('f', written),
            Some(entries),
        ) == Ok::<Style, StyleIssue>(Style { foreground: Some(color), ..Style::plain() })
            && style_of(naming('b', written), Some(entries)) == Ok::<Style, StyleIssue>(
            Style { background: Some(color), ..Style::plain() },
        ),
{
    let name = lowered(written);
    lemma_palette_finds(input, 0, Seq::empty(), k);
    lemma_naming('f', written);
    lemma_naming('b', written);
    lemma_named_token('f', name, Some(entries));
    lemma_named_token('b', name, Some(entries));
    reveal_with_fuel(with_tokens, 2);
}

/// Without a palette no color has a name.
pub proof fn palette_colors_need_a_palette(written: Seq<char>)
    requires
        palette_name(lowered(written)),
    ensures
        style_of(naming('f', written), None) == Err::<Style, StyleIssue>(
            StyleIssue::NoPalette(lowered(written)),
        ),
        style_of(naming('b', written), None) == Err::<Style, StyleIssue>(
            StyleIssue::NoPalette(lowered(written)),
        ),
{
    lemma_naming('f', written);
    lemma_naming('b', written);
    lemma_named_token('f', lowered(written), None);
    lemma_named_token('b', lowered(written), None);
}

} // verus!
