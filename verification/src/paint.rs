//! Laying the styles of matches over visible text.

use vstd::prelude::*;

use crate::matching::{span_views, RuleRun, Span};
use crate::style::Style;
use crate::utf8::{continuation, is_continuation_byte};

verus! {

/// The start of the character that byte `i` belongs to.
pub open spec fn char_floor(s: Seq<u8>, i: int) -> int
    decreases i,
{
    if 0 < i < s.len() && continuation(s[i]) {
        char_floor(s, i - 1)
    } else {
        i
    }
}

/// The end of the character that a span up to `i` cuts.
pub open spec fn char_ceil(s: Seq<u8>, i: int) -> int
    decreases s.len() - i,
{
    if 0 <= i < s.len() && continuation(s[i]) {
        char_ceil(s, i + 1)
    } else {
        i
    }
}

/// Styles laid over text so far, and which bytes take no further style.
pub struct Paint {
    pub styles: Seq<Style>,
    pub guarded: Seq<bool>,
}

/// No byte is guarded from `a` up to `b`.
pub open spec fn unguarded(guarded: Seq<bool>, a: int, b: int) -> bool {
    forall|k: int| a <= k < b ==> !#[trigger] guarded[k]
}

impl Paint {
    /// Nothing laid over `len` bytes.
    pub open spec fn blank(len: nat) -> Paint {
        Paint {
            styles: Seq::new(len, |k: int| Style::plain()),
            guarded: Seq::new(len, |k: int| false),
        }
    }

    /// One style for each byte of `s`.
    pub open spec fn fits(self, s: Seq<u8>) -> bool {
        self.styles.len() == s.len() && self.guarded.len() == s.len()
    }

    /// With the style merged in from `a` up to `b`, and the bytes guarded if
    /// `exclusive`.
    pub open spec fn covered(self, a: int, b: int, style: Style, exclusive: bool) -> Paint {
        Paint {
            styles: Seq::new(
                self.styles.len(),
                |k: int|
                    if a <= k < b {
                        self.styles[k].merged(style)
                    } else {
                        self.styles[k]
                    },
            ),
            guarded: Seq::new(
                self.guarded.len(),
                |k: int| self.guarded[k] || (exclusive && a <= k < b),
            ),
        }
    }

    /// With `span` laid over, widened to whole characters, unless it is empty,
    /// leaves the text or touches a guarded byte.
    pub open spec fn with_span(self, s: Seq<u8>, span: Span, exclusive: bool) -> Paint {
        let a = char_floor(s, span.start);
        let b = char_ceil(s, span.end);
        if 0 <= span.start < span.end <= s.len() && unguarded(self.guarded, a, b) {
            self.covered(a, b, span.style, exclusive)
        } else {
            self
        }
    }

    /// With the spans laid over in order.
    pub open spec fn with_spans(self, s: Seq<u8>, spans: Seq<Span>, exclusive: bool) -> Paint
        decreases spans.len(),
    {
        if spans.len() == 0 {
            self
        } else {
            self.with_spans(s, spans.drop_last(), exclusive).with_span(s, spans.last(), exclusive)
        }
    }

    /// The style of each byte, where there is one.
    pub open spec fn result(self) -> Seq<Option<Style>> {
        self.styles.map_values(
            |style: Style|
                if style == Style::plain() {
                    None::<Style>
                } else {
                    Some(style)
                },
        )
    }

    /// Bytes of one character have one style.
    pub open spec fn snapped(self, s: Seq<u8>) -> bool {
        forall|k: int|
            0 < k < s.len() && continuation(s[k]) ==> #[trigger] self.styles[k] == self.styles[k
                - 1]
    }
}

/// Bytes of one character have one style.
pub open spec fn whole_characters(s: Seq<u8>, styles: Seq<Option<Style>>) -> bool {
    forall|k: int|
        0 < k < s.len() && continuation(s[k]) ==> #[trigger] styles[k] == styles[k - 1]
}

pub proof fn lemma_char_floor(s: Seq<u8>, i: int)
    requires
        0 <= i <= s.len(),
    ensures
        0 <= char_floor(s, i) <= i,
        char_floor(s, i) == 0 || char_floor(s, i) == s.len() || !continuation(s[char_floor(s, i)]),
        i < s.len() ==> char_floor(s, i) < s.len(),
    decreases i,
{
    if 0 < i < s.len() && continuation(s[i]) {
        lemma_char_floor(s, i - 1);
    }
}

pub proof fn lemma_char_ceil(s: Seq<u8>, i: int)
    requires
        0 <= i <= s.len(),
    ensures
        i <= char_ceil(s, i) <= s.len(),
        char_ceil(s, i) == s.len() || !continuation(s[char_ceil(s, i)]),
    decreases s.len() - i,
{
    if i < s.len() && continuation(s[i]) {
        lemma_char_ceil(s, i + 1);
    }
}

/// Laying spans over text never gives the bytes of one character different
/// styles.
pub proof fn spans_keep_characters_whole(
    paint: Paint,
    s: Seq<u8>,
    spans: Seq<Span>,
    exclusive: bool,
)
    requires
        paint.fits(s),
        paint.snapped(s),
    ensures
        paint.with_spans(s, spans, exclusive).fits(s),
        paint.with_spans(s, spans, exclusive).snapped(s),
    decreases spans.len(),
{
    if spans.len() > 0 {
        spans_keep_characters_whole(paint, s, spans.drop_last(), exclusive);
        let before = paint.with_spans(s, spans.drop_last(), exclusive);
        let span = spans.last();
        if 0 <= span.start < span.end <= s.len() {
            lemma_char_floor(s, span.start);
            lemma_char_ceil(s, span.end);
        }
        let after = before.with_span(s, span, exclusive);
        assert forall|k: int| 0 < k < s.len() && continuation(s[k]) implies #[trigger] after.styles[k]
            == after.styles[k - 1] by {
            assert(before.styles[k] == before.styles[k - 1]);
        }
    }
}

pub proof fn lemma_result_whole(paint: Paint, s: Seq<u8>)
    requires
        paint.fits(s),
        paint.snapped(s),
    ensures
        whole_characters(s, paint.result()),
        paint.result().len() == s.len(),
{
    assert forall|k: int| 0 < k < s.len() && continuation(s[k]) implies #[trigger] paint.result()[k]
        == paint.result()[k - 1] by {
        assert(paint.styles[k] == paint.styles[k - 1]);
    }
}

/// Largest character boundary at or below `index`.
pub fn floor_char_boundary(bytes: &[u8], index: usize) -> (r: usize)
    requires
        index <= bytes@.len(),
    ensures
        r == char_floor(bytes@, index as int),
{
    let mut i: usize = index;
    while i > 0 && i < bytes.len() && is_continuation_byte(bytes[i])
        invariant
            i <= bytes@.len(),
            char_floor(bytes@, i as int) == char_floor(bytes@, index as int),
        decreases i,
    {
        i = i - 1;
    }
    i
}

/// Smallest character boundary at or above `index`.
pub fn ceil_char_boundary(bytes: &[u8], index: usize) -> (r: usize)
    requires
        index <= bytes@.len(),
    ensures
        r == char_ceil(bytes@, index as int),
{
    let mut i: usize = index;
    while i < bytes.len() && is_continuation_byte(bytes[i])
        invariant
            i <= bytes@.len(),
            char_ceil(bytes@, i as int) == char_ceil(bytes@, index as int),
        decreases bytes@.len() - i,
    {
        i = i + 1;
    }
    i
}

/// Text being painted.
pub struct Canvas {
    pub styles: Vec<Style>,
    pub guarded: Vec<bool>,
}

impl View for Canvas {
    type V = Paint;

    open spec fn view(&self) -> Paint {
        Paint { styles: self.styles@, guarded: self.guarded@ }
    }
}

impl Canvas {
    pub fn new(len: usize) -> (r: Canvas)
        ensures
            r@ == Paint::blank(len as nat),
    {
        let mut styles: Vec<Style> = Vec::new();
        let mut guarded: Vec<bool> = Vec::new();
        let mut i: usize = 0;
        while i < len
            invariant
                i <= len,
                styles@.len() == i,
                guarded@.len() == i,
                forall|k: int| 0 <= k < i ==> #[trigger] styles@[k] == Style::plain(),
                forall|k: int| 0 <= k < i ==> !#[trigger] guarded@[k],
            decreases len - i,
        {
            styles.push(Style::default());
            guarded.push(false);
            i = i + 1;
        }
        let r = Canvas { styles, guarded };
        assert(r@.styles =~= Paint::blank(len as nat).styles);
        assert(r@.guarded =~= Paint::blank(len as nat).guarded);
        r
    }

    fn is_unguarded(&self, a: usize, b: usize) -> (r: bool)
        requires
            a <= b <= self.guarded@.len(),
        ensures
            r == unguarded(self@.guarded, a as int, b as int),
    {
        let mut i: usize = a;
        while i < b
            invariant
                a <= i <= b,
                b <= self.guarded@.len(),
                forall|k: int| a <= k < i ==> !#[trigger] self.guarded@[k],
            decreases b - i,
        {
            if self.guarded[i] {
                assert(self@.guarded[i as int]);
                return false;
            }
            i = i + 1;
        }
        true
    }

    fn cover(&mut self, a: usize, b: usize, style: Style, exclusive: bool)
        requires
            a <= b <= old(self).styles@.len(),
            old(self).styles@.len() == old(self).guarded@.len(),
        ensures
            final(self)@ == old(self)@.covered(a as int, b as int, style, exclusive),
    {
        let ghost first = self@;
        let mut i: usize = a;
        while i < b
            invariant
                a <= i <= b,
                b <= self.styles@.len(),
                self.styles@.len() == first.styles.len(),
                self.guarded@.len() == first.guarded.len(),
                first.styles.len() == first.guarded.len(),
                forall|k: int|
                    0 <= k < self.styles@.len() ==> #[trigger] self.styles@[k] == (if a <= k < i {
                        first.styles[k].merged(style)
                    } else {
                        first.styles[k]
                    }),
                forall|k: int|
                    0 <= k < self.guarded@.len() ==> #[trigger] self.guarded@[k] == (
                    first.guarded[k] || (exclusive && a <= k < i)),
            decreases b - i,
        {
            let mut mixed = self.styles[i];
            mixed.merge_from(&style);
            self.styles.set(i, mixed);
            if exclusive {
                self.guarded.set(i, true);
            }
            i = i + 1;
        }
        let ghost done = first.covered(a as int, b as int, style, exclusive);
        assert(self@.styles =~= done.styles);
        assert(self@.guarded =~= done.guarded);
    }

    /// Lays the spans of a rule over the text.
    pub fn paint(&mut self, visible: &[u8], run: &RuleRun, exclusive: bool)
        requires
            old(self)@.fits(visible@),
        ensures
            final(self)@ == old(self)@.with_spans(visible@, run@.spans, exclusive),
            final(self)@.fits(visible@),
    {
        let ghost first = self@;
        let ghost all = run@.spans;
        let mut i: usize = 0;
        assert(all.take(0) =~= Seq::<Span>::empty());
        while i < run.spans.len()
            invariant
                i <= run.spans@.len(),
                all == span_views(run.spans@),
                self@.fits(visible@),
                self@ == first.with_spans(visible@, all.take(i as int), exclusive),
            decreases run.spans@.len() - i,
        {
            let (start, end, style) = run.spans[i];
            assert(all[i as int] == Span { start: start as int, end: end as int, style });
            assert(all.take(i + 1).drop_last() =~= all.take(i as int));
            assert(all.take(i + 1).last() == all[i as int]);
            if start < end && end <= visible.len() {
                let a = floor_char_boundary(visible, start);
                let b = ceil_char_boundary(visible, end);
                proof {
                    lemma_char_floor(visible@, start as int);
                    lemma_char_ceil(visible@, end as int);
                }
                if self.is_unguarded(a, b) {
                    self.cover(a, b, style, exclusive);
                }
            }
            i = i + 1;
        }
        assert(all.take(i as int) =~= all);
    }

    /// The style of each byte, where there is one.
    pub fn finish(&self) -> (r: Vec<Option<Style>>)
        ensures
            r@ == self@.result(),
    {
        let mut styles: Vec<Option<Style>> = Vec::new();
        let mut i: usize = 0;
        while i < self.styles.len()
            invariant
                i <= self.styles@.len(),
                styles@.len() == i,
                forall|k: int| 0 <= k < i ==> #[trigger] styles@[k] == self@.result()[k],
            decreases self.styles@.len() - i,
        {
            let style = self.styles[i];
            if style.is_empty() {
                styles.push(None);
            } else {
                styles.push(Some(style));
            }
            i = i + 1;
        }
        assert(styles@ =~= self@.result());
        styles
    }
}

} // verus!
