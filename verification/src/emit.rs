//! Writing highlighted text: styles go on and off between the bytes of the
//! text, and control sequences of the program pass through.

use vstd::prelude::*;

use crate::bytes::push_all;
use crate::controls::{text_of, token_views, Token, TokenView};
use crate::prompt_sgr::ResetMode;
use crate::sgr::{after_sequence, restore_bytes, NativeSgrState, SgrState};
use crate::style::{sgr, style_start, ColorMode, Style};

verus! {

/// `style` as it is used with a reset mode: minimal resets cannot take back
/// bold text in every terminal, so there it is left out.
pub open spec fn fitted(style: Style, reset: ResetMode) -> Style {
    match reset {
        ResetMode::Full => style,
        ResetMode::Minimal => Style { bold: false, ..style },
    }
}

/// The style that visible byte `pos` is to have.
pub open spec fn wanted(styles: Seq<Option<Style>>, pos: int, reset: ResetMode) -> Option<Style> {
    if 0 <= pos < styles.len() {
        match styles[pos] {
            Some(style) => if fitted(style, reset) == Style::plain() {
                None
            } else {
                Some(fitted(style, reset))
            },
            None => None,
        }
    } else {
        None
    }
}

/// What takes back `style` where the program's own rendition is `native`.
pub open spec fn style_reset(style: Style, native: SgrState, reset: ResetMode) -> Seq<u8> {
    match reset {
        ResetMode::Full => seq![0x1bu8, 0x5bu8, 0x30u8, 0x6du8] + (if native.parts().len() > 0 {
            sgr(native.parts())
        } else {
            Seq::empty()
        }),
        ResetMode::Minimal => restore_bytes(native, style),
    }
}

/// What puts a style on, if there is one.
pub open spec fn started(style: Option<Style>, color: ColorMode) -> Seq<u8> {
    match style {
        Some(style) => style_start(style, color),
        None => Seq::empty(),
    }
}

/// What takes a style back, if there is one.
pub open spec fn ended(style: Option<Style>, native: SgrState, reset: ResetMode) -> Seq<u8> {
    match style {
        Some(style) => style_reset(style, native, reset),
        None => Seq::empty(),
    }
}

/// Blanks that an interactive style stays on over.
pub open spec fn spacing(b: u8) -> bool {
    b == 0x20 || b == 0x09
}

/// Output so far: its bytes, the program's own rendition, and the style that
/// is on.
pub struct Pen {
    pub out: Seq<u8>,
    pub native: SgrState,
    pub active: Option<Style>,
}

/// How output is written. A live stream leaves a style on over blanks and at
/// the end; other output takes it back where it ends.
pub struct Inks {
    pub live: bool,
    pub color: ColorMode,
    pub reset: ResetMode,
}

impl Pen {
    /// Behind a control sequence of the program, the style goes on again.
    pub open spec fn after_control(self, inks: Inks, bytes: Seq<u8>) -> Pen {
        Pen {
            out: self.out + bytes + started(self.active, inks.color),
            native: after_sequence(self.native, bytes),
            active: self.active,
        }
    }

    pub open spec fn after_byte(self, inks: Inks, b: u8, want: Option<Style>) -> Pen {
        if self.active == want || (inks.live && want is None && spacing(b)) {
            Pen { out: self.out.push(b), ..self }
        } else if inks.live && want is Some {
            Pen { out: (self.out + started(want, inks.color)).push(b), active: want, ..self }
        } else {
            Pen {
                out: (self.out + ended(self.active, self.native, inks.reset) + started(
                    want,
                    inks.color,
                )).push(b),
                active: want,
                ..self
            }
        }
    }

    /// Behind the visible bytes `text`, the first of which has the style
    /// `styles[pos]`.
    pub open spec fn after_text(
        self,
        inks: Inks,
        text: Seq<u8>,
        styles: Seq<Option<Style>>,
        pos: int,
    ) -> Pen
        decreases text.len(),
    {
        if text.len() == 0 {
            self
        } else {
            self.after_text(inks, text.drop_last(), styles, pos).after_byte(
                inks,
                text.last(),
                wanted(styles, pos + text.len() - 1, inks.reset),
            )
        }
    }

    /// Behind all of `tokens`, whose visible bytes have the styles `styles`.
    pub open spec fn after_tokens(
        self,
        inks: Inks,
        tokens: Seq<TokenView>,
        styles: Seq<Option<Style>>,
    ) -> Pen
        decreases tokens.len(),
    {
        if tokens.len() == 0 {
            self
        } else {
            let before = self.after_tokens(inks, tokens.drop_last(), styles);
            match tokens.last() {
                TokenView::Ansi(bytes) => before.after_control(inks, bytes),
                TokenView::Text(text) => before.after_text(
                    inks,
                    text,
                    styles,
                    text_of(tokens.drop_last()).len() as int,
                ),
            }
        }
    }
}

/// The pen at the start of output.
pub open spec fn pen(native: SgrState, active: Option<Style>) -> Pen {
    Pen { out: Seq::empty(), native, active }
}

/// Complete output: every style is taken back at its end.
pub open spec fn highlighted(
    tokens: Seq<TokenView>,
    styles: Seq<Option<Style>>,
    color: ColorMode,
    reset: ResetMode,
    native: SgrState,
) -> Seq<u8> {
    let done = pen(native, None).after_tokens(Inks { live: false, color, reset }, tokens, styles);
    done.out + ended(done.active, done.native, reset)
}

fn style_for_reset_mode(style: Style, reset_mode: ResetMode) -> (r: Style)
    ensures
        r == fitted(style, reset_mode),
{
    match reset_mode {
        ResetMode::Full => style,
        ResetMode::Minimal => Style { bold: false, ..style },
    }
}

fn wanted_style(styles: &[Option<Style>], pos: usize, reset_mode: ResetMode) -> (r: Option<Style>)
    ensures
        r == wanted(styles@, pos as int, reset_mode),
{
    if pos < styles.len() {
        if let Some(style) = styles[pos] {
            let style = style_for_reset_mode(style, reset_mode);
            if !style.is_empty() {
                return Some(style);
            }
        }
    }
    None
}

/// The bytes that take back `style` without touching what the program itself
/// set.
pub fn style_reset_bytes(style: &Style, native_sgr: &NativeSgrState, reset_mode: ResetMode) -> (r:
    Vec<u8>)
    ensures
        r@ == style_reset(*style, native_sgr@, reset_mode),
{
    match reset_mode {
        ResetMode::Full => {
            let mut output: Vec<u8> = vec![0x1bu8, 0x5bu8, 0x30u8, 0x6du8];
            assert(output@ =~= seq![0x1bu8, 0x5bu8, 0x30u8, 0x6du8]);
            if let Some(native) = native_sgr.ansi_start() {
                push_all(&mut output, native.as_slice());
            }
            assert(output@ =~= style_reset(*style, native_sgr@, reset_mode));
            output
        },
        ResetMode::Minimal => native_sgr.restore_after_interactive_style(style),
    }
}

pub fn same_style(a: Option<Style>, b: Option<Style>) -> (r: bool)
    ensures
        r == (a == b),
{
    match a {
        Some(a) => match b {
            Some(b) => a == b,
            None => false,
        },
        None => b.is_none(),
    }
}

fn push_start(output: &mut Vec<u8>, style: Option<Style>, color_mode: ColorMode)
    ensures
        final(output)@ == old(output)@ + started(style, color_mode),
{
    if let Some(style) = style {
        let start = style.start_bytes(color_mode);
        push_all(output, start.as_slice());
    }
    assert(output@ =~= old(output)@ + started(style, color_mode));
}

fn push_end(
    output: &mut Vec<u8>,
    style: Option<Style>,
    native_sgr: &NativeSgrState,
    reset_mode: ResetMode,
)
    ensures
        final(output)@ == old(output)@ + ended(style, native_sgr@, reset_mode),
{
    if let Some(style) = style {
        let end = style_reset_bytes(&style, native_sgr, reset_mode);
        push_all(output, end.as_slice());
    }
    assert(output@ =~= old(output)@ + ended(style, native_sgr@, reset_mode));
}

fn emit_byte(
    output: &mut Vec<u8>,
    live: bool,
    byte: u8,
    want: Option<Style>,
    color_mode: ColorMode,
    reset_mode: ResetMode,
    native_sgr: &NativeSgrState,
    active_style: &mut Option<Style>,
)
    ensures
        (Pen { out: final(output)@, native: native_sgr@, active: *final(active_style) }) == (Pen {
            out: old(output)@,
            native: native_sgr@,
            active: *old(active_style),
        }).after_byte(Inks { live, color: color_mode, reset: reset_mode }, byte, want),
{
    let active = *active_style;
    if same_style(active, want) || (live && want.is_none() && (byte == 0x20 || byte == 0x09)) {
        output.push(byte);
    } else if live && want.is_some() {
        push_start(output, want, color_mode);
        output.push(byte);
        *active_style = want;
    } else {
        push_end(output, active, native_sgr, reset_mode);
        push_start(output, want, color_mode);
        output.push(byte);
        *active_style = want;
    }
}

fn emit_text(
    output: &mut Vec<u8>,
    live: bool,
    text: &[u8],
    styles: &[Option<Style>],
    pos: usize,
    color_mode: ColorMode,
    reset_mode: ResetMode,
    native_sgr: &NativeSgrState,
    active_style: &mut Option<Style>,
)
    requires
        pos + text@.len() <= usize::MAX,
    ensures
        (Pen { out: final(output)@, native: native_sgr@, active: *final(active_style) }) == (Pen {
            out: old(output)@,
            native: native_sgr@,
            active: *old(active_style),
        }).after_text(
            Inks { live, color: color_mode, reset: reset_mode },
            text@,
            styles@,
            pos as int,
        ),
{
    let ghost first = Pen { out: output@, native: native_sgr@, active: *active_style };
    let ghost inks = Inks { live, color: color_mode, reset: reset_mode };
    let mut i: usize = 0;
    while i < text.len()
        invariant
            i <= text@.len(),
            pos + text@.len() <= usize::MAX,
            inks == (Inks { live, color: color_mode, reset: reset_mode }),
            first == (Pen {
                out: old(output)@,
                native: native_sgr@,
                active: *old(active_style),
            }),
            (Pen { out: output@, native: native_sgr@, active: *active_style })
                == first.after_text(inks, text@.take(i as int), styles@, pos as int),
        decreases text@.len() - i,
    {
        let want = wanted_style(styles, pos + i, reset_mode);
        assert(text@.take(i + 1).drop_last() =~= text@.take(i as int));
        emit_byte(
            output,
            live,
            text[i],
            want,
            color_mode,
            reset_mode,
            native_sgr,
            active_style,
        );
        i = i + 1;
    }
    assert(text@.take(i as int) =~= text@);
}

pub proof fn lemma_text_of_take(tokens: Seq<TokenView>, i: int)
    requires
        0 <= i <= tokens.len(),
    ensures
        text_of(tokens.take(i)).len() <= text_of(tokens).len(),
    decreases tokens.len() - i,
{
    if i < tokens.len() {
        lemma_text_of_take(tokens, i + 1);
        assert(tokens.take(i + 1).drop_last() =~= tokens.take(i));
    } else {
        assert(tokens.take(i) =~= tokens);
    }
}

fn emit_tokens(
    live: bool,
    tokens: &[Token],
    styles: &[Option<Style>],
    color_mode: ColorMode,
    reset_mode: ResetMode,
    native_sgr: &mut NativeSgrState,
    active_style: &mut Option<Style>,
) -> (r: Vec<u8>)
    requires
        text_of(token_views(tokens@)).len() <= usize::MAX,
    ensures
        (Pen { out: r@, native: final(native_sgr)@, active: *final(active_style) }) == pen(
            old(native_sgr)@,
            *old(active_style),
        ).after_tokens(
            Inks { live, color: color_mode, reset: reset_mode },
            token_views(tokens@),
            styles@,
        ),
{
    let ghost first = pen(native_sgr@, *active_style);
    let ghost inks = Inks { live, color: color_mode, reset: reset_mode };
    let ghost views = token_views(tokens@);
    let mut output: Vec<u8> = Vec::new();
    let mut visible_pos: usize = 0;
    let mut i: usize = 0;
    assert(output@ =~= Seq::<u8>::empty());
    while i < tokens.len()
        invariant
            i <= tokens@.len(),
            views == token_views(tokens@),
            inks == (Inks { live, color: color_mode, reset: reset_mode }),
            first == pen(old(native_sgr)@, *old(active_style)),
            text_of(views).len() <= usize::MAX,
            visible_pos == text_of(views.take(i as int)).len(),
            (Pen { out: output@, native: native_sgr@, active: *active_style })
                == first.after_tokens(inks, views.take(i as int), styles@),
        decreases tokens@.len() - i,
    {
        assert(views.take(i + 1).drop_last() =~= views.take(i as int));
        assert(views[i as int] == tokens@[i as int]@);
        proof {
            lemma_text_of_take(views, i + 1);
        }
        match &tokens[i] {
            Token::Ansi(bytes) => {
                native_sgr.apply_sequence(bytes.as_slice());
                push_all(&mut output, bytes.as_slice());
                push_start(&mut output, *active_style, color_mode);
            },
            Token::Text(text) => {
                emit_text(
                    &mut output,
                    live,
                    text.as_slice(),
                    styles,
                    visible_pos,
                    color_mode,
                    reset_mode,
                    native_sgr,
                    active_style,
                );
                visible_pos = visible_pos + text.len();
            },
        }
        i = i + 1;
    }
    assert(views.take(i as int) =~= views);
    output
}

/// Writes tokens with styles on their visible bytes, and takes the last style
/// back.
pub fn emit_highlighted(
    tokens: &[Token],
    styles: &[Option<Style>],
    color_mode: ColorMode,
    reset_mode: ResetMode,
    native_sgr: &mut NativeSgrState,
) -> (r: Vec<u8>)
    requires
        text_of(token_views(tokens@)).len() <= usize::MAX,
    ensures
        r@ == highlighted(
            token_views(tokens@),
            styles@,
            color_mode,
            reset_mode,
            old(native_sgr)@,
        ),
        final(native_sgr)@ == pen(old(native_sgr)@, None).after_tokens(
            Inks { live: false, color: color_mode, reset: reset_mode },
            token_views(tokens@),
            styles@,
        ).native,
{
    let mut active: Option<Style> = None;
    let mut output = emit_tokens(
        false,
        tokens,
        styles,
        color_mode,
        reset_mode,
        native_sgr,
        &mut active,
    );
    push_end(&mut output, active, native_sgr, reset_mode);
    output
}

/// Writes tokens with styles on their visible bytes to a live stream, in which
/// `active_style` is on before, and leaves the last style on.
pub fn emit_interactive_highlighted(
    tokens: &[Token],
    styles: &[Option<Style>],
    color_mode: ColorMode,
    reset_mode: ResetMode,
    native_sgr: &mut NativeSgrState,
    active_style: &mut Option<Style>,
) -> (r: Vec<u8>)
    requires
        text_of(token_views(tokens@)).len() <= usize::MAX,
    ensures
        (Pen { out: r@, native: final(native_sgr)@, active: *final(active_style) }) == pen(
            old(native_sgr)@,
            *old(active_style),
        ).after_tokens(
            Inks { live: true, color: color_mode, reset: reset_mode },
            token_views(tokens@),
            styles@,
        ),
{
    emit_tokens(true, tokens, styles, color_mode, reset_mode, native_sgr, active_style)
}

} // verus!
