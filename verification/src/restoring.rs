//! Taking a style back leaves the rendition that was there before.

use vstd::prelude::*;

use crate::bytes::{all_digits, digits, digits_read_back, joined_with, lemma_digits, number};
use crate::controls::{csi_intro, fields, fields_from, index_from, lemma_index_from};
use crate::sgr::{
    after_colon, after_fields, after_sequence, attribute_group, attribute_part, attribute_parts,
    colon_color, ended_groups, field_number, group_parts, lemma_code_ordered, lemma_filter_ordered,
    lemma_with_attribute_ordered, option_part, ordered, part_number, restore_bytes, restore_parts,
    restored_color, restored_group, semicolon_color, sgr_number, with_attribute, SgrAttribute,
    SgrState,
};
use crate::style::{
    ansi16, ansi16_codes_are_color_codes, color_part, color_parts, part_if, sgr, style_parts,
    style_start, xterm256, xterm256_codes_are_color_codes, ColorMode, Rgb, Style,
};

verus! {

/// One SGR parameter, with what belongs to it.
pub enum Part {
    /// A number by itself.
    Code(u16),
    /// A variant of underlining.
    Under(u8),
    /// A color of the palette of 256, written with semicolons or colons.
    Indexed { colon: bool, target: u16, n: u16 },
    /// A color by its channels, written with semicolons or colons.
    Direct { colon: bool, target: u16, r: u16, g: u16, b: u16 },
    /// A color by its channels, with the place for a color space.
    Spaced { target: u16, space: Option<u16>, r: u16, g: u16, b: u16 },
}

pub open spec fn color_target(target: u16) -> bool {
    target == 38 || target == 48 || target == 58
}

impl Part {
    pub open spec fn valid(self) -> bool {
        match self {
            Part::Code(code) => !color_target(code),
            Part::Under(n) => 1 <= n <= 5,
            Part::Indexed { colon: _, target, n } => color_target(target) && n <= 255,
            Part::Direct { colon: _, target, r, g, b } => color_target(target) && r <= 255 && g
                <= 255 && b <= 255,
            Part::Spaced { target, space: _, r, g, b } => color_target(target) && r <= 255 && g
                <= 255 && b <= 255,
        }
    }

    /// The numbers of the parameter, as text.
    pub open spec fn words(self) -> Seq<Seq<u8>> {
        match self {
            Part::Code(code) => seq![digits(code as nat)],
            Part::Under(n) => seq![digits(4), digits(n as nat)],
            Part::Indexed { colon: _, target, n } => seq![
                digits(target as nat),
                digits(5),
                digits(n as nat),
            ],
            Part::Direct { colon: _, target, r, g, b } => seq![
                digits(target as nat),
                digits(2),
                digits(r as nat),
                digits(g as nat),
                digits(b as nat),
            ],
            Part::Spaced { target, space, r, g, b } => seq![
                digits(target as nat),
                digits(2),
                match space {
                    Some(n) => digits(n as nat),
                    None => Seq::empty(),
                },
                digits(r as nat),
                digits(g as nat),
                digits(b as nat),
            ],
        }
    }

    /// Whether its numbers stand in one field, with colons between them.
    pub open spec fn colons(self) -> bool {
        match self {
            Part::Code(_) => false,
            Part::Under(_) => true,
            Part::Indexed { colon, .. } => colon,
            Part::Direct { colon, .. } => colon,
            Part::Spaced { .. } => true,
        }
    }

    pub open spec fn text(self) -> Seq<u8> {
        joined_with(
            self.words(),
            if self.colons() {
                0x3a
            } else {
                0x3b
            },
        )
    }

    pub open spec fn fields(self) -> Seq<Seq<u8>> {
        if self.colons() {
            seq![self.text()]
        } else {
            self.words()
        }
    }

    /// What it does to a rendition.
    pub open spec fn apply(self, st: SgrState) -> SgrState {
        match self {
            Part::Code(code) => st.after_code(code),
            Part::Under(n) => st.with_attr(SgrAttribute { code: 4, sub: n }),
            Part::Indexed { target, .. } => st.with_color(target, self.text()),
            Part::Direct { target, .. } => st.with_color(target, self.text()),
            Part::Spaced { target, .. } => st.with_color(target, self.text()),
        }
    }
}

pub open spec fn sepless(x: Seq<u8>, sep: u8) -> bool {
    forall|k: int| 0 <= k < x.len() ==> #[trigger] x[k] != sep
}

proof fn lemma_index_none(x: Seq<u8>, sep: u8, i: int)
    requires
        sepless(x, sep),
        0 <= i <= x.len(),
    ensures
        index_from(x, sep, i) == x.len(),
    decreases x.len() - i,
{
    if i < x.len() {
        lemma_index_none(x, sep, i + 1);
    }
}

pub proof fn lemma_one_field(x: Seq<u8>, sep: u8)
    requires
        sepless(x, sep),
    ensures
        fields(x, sep) == seq![x],
{
    lemma_index_none(x, sep, 0);
    assert(x.subrange(0, x.len() as int) =~= x);
}

proof fn lemma_index_joined(a: Seq<u8>, b: Seq<u8>, sep: u8, i: int)
    requires
        0 <= i <= a.len(),
    ensures
        index_from(a.push(sep) + b, sep, i) == index_from(a, sep, i),
    decreases a.len() - i,
{
    let s = a.push(sep) + b;
    if i < a.len() {
        assert(s[i] == a[i]);
        if a[i] != sep {
            lemma_index_joined(a, b, sep, i + 1);
        }
    } else {
        assert(s[i] == sep);
    }
}

proof fn lemma_index_behind(a: Seq<u8>, b: Seq<u8>, sep: u8, i: int)
    requires
        0 <= i <= b.len(),
    ensures
        index_from(a.push(sep) + b, sep, a.len() + 1 + i) == a.len() + 1 + index_from(b, sep, i),
    decreases b.len() - i,
{
    let s = a.push(sep) + b;
    if i < b.len() {
        assert(s[a.len() + 1 + i] == b[i]);
        if b[i] != sep {
            lemma_index_behind(a, b, sep, i + 1);
        }
    }
}

proof fn lemma_fields_behind(a: Seq<u8>, b: Seq<u8>, sep: u8, i: int)
    requires
        0 <= i <= b.len(),
    ensures
        fields_from(a.push(sep) + b, sep, a.len() + 1 + i) == fields_from(b, sep, i),
    decreases b.len() - i,
{
    let s = a.push(sep) + b;
    let n = a.len() + 1;
    lemma_index_behind(a, b, sep, i);
    lemma_index_from(b, sep, i);
    let k = index_from(b, sep, i);
    if k < b.len() {
        lemma_fields_behind(a, b, sep, k + 1);
        assert(s.subrange(n + i, n + k) =~= b.subrange(i, k));
    } else {
        assert(s.subrange(n + i, s.len() as int) =~= b.subrange(i, b.len() as int));
    }
}

pub proof fn lemma_fields_joined(a: Seq<u8>, b: Seq<u8>, sep: u8, i: int)
    requires
        0 <= i <= a.len(),
    ensures
        fields_from(a.push(sep) + b, sep, i) == fields_from(a, sep, i) + fields(b, sep),
    decreases a.len() - i,
{
    let s = a.push(sep) + b;
    lemma_index_joined(a, b, sep, i);
    lemma_index_from(a, sep, i);
    let k = index_from(a, sep, i);
    assert(s.subrange(i, k) =~= a.subrange(i, k));
    if k < a.len() {
        lemma_fields_joined(a, b, sep, k + 1);
        assert(seq![a.subrange(i, k)] + (fields_from(a, sep, k + 1) + fields(b, sep)) =~= (seq![
            a.subrange(i, k),
        ] + fields_from(a, sep, k + 1)) + fields(b, sep));
    } else {
        lemma_fields_behind(a, b, sep, 0);
    }
}

/// Words that are put together with a separator come apart again.
proof fn lemma_fields_of_words(words: Seq<Seq<u8>>, sep: u8)
    requires
        words.len() > 0,
        forall|k: int| 0 <= k < words.len() ==> sepless(#[trigger] words[k], sep),
    ensures
        fields(joined_with(words, sep), sep) == words,
    decreases words.len(),
{
    if words.len() == 1 {
        lemma_one_field(words[0], sep);
        assert(seq![words[0]] =~= words);
    } else {
        let head = words.drop_last();
        assert forall|k: int| 0 <= k < head.len() implies sepless(#[trigger] head[k], sep) by {
            assert(head[k] == words[k]);
        }
        lemma_fields_of_words(head, sep);
        lemma_fields_joined(joined_with(head, sep), words.last(), sep, 0);
        assert(sepless(words[words.len() - 1], sep));
        lemma_one_field(words.last(), sep);
        assert(head + seq![words.last()] =~= words);
    }
}

proof fn lemma_digits_sepless(n: nat, sep: u8)
    requires
        sep > 0x39,
    ensures
        sepless(digits(n), sep),
        digits(n).len() > 0,
{
    lemma_digits(n);
    let d = digits(n);
    assert forall|k: int| 0 <= k < d.len() implies #[trigger] d[k] != sep by {}
}

proof fn lemma_words_sepless(part: Part, sep: u8)
    requires
        sep > 0x39,
    ensures
        forall|k: int| 0 <= k < part.words().len() ==> sepless(#[trigger] part.words()[k], sep),
        part.words().len() > 0,
{
    assert forall|n: nat| sepless(#[trigger] digits(n), sep) by {
        lemma_digits_sepless(n, sep);
    }
}

/// The text of sequences of digits, and colons between them.
proof fn lemma_joined_sepless(words: Seq<Seq<u8>>, by: u8, sep: u8)
    requires
        by != sep,
        forall|k: int| 0 <= k < words.len() ==> sepless(#[trigger] words[k], sep),
    ensures
        sepless(joined_with(words, by), sep),
    decreases words.len(),
{
    if words.len() == 1 {
        assert(sepless(words[0], sep));
    } else if words.len() > 1 {
        let head = words.drop_last();
        assert forall|k: int| 0 <= k < head.len() implies sepless(#[trigger] head[k], sep) by {
            assert(head[k] == words[k]);
        }
        lemma_joined_sepless(head, by, sep);
        assert(sepless(words[words.len() - 1], sep));
        let a = joined_with(head, by).push(by);
        let s = a + words.last();
        assert forall|k: int| 0 <= k < s.len() implies #[trigger] s[k] != sep by {
            if k < joined_with(head, by).len() {
                assert(s[k] == joined_with(head, by)[k]);
            } else if k > joined_with(head, by).len() {
                assert(s[k] == words.last()[k - a.len()]);
            }
        }
    }
}

proof fn lemma_part_fields(part: Part)
    ensures
        fields(part.text(), 0x3b) == part.fields(),
        part.fields().len() > 0,
{
    lemma_words_sepless(part, 0x3b);
    if part.colons() {
        lemma_joined_sepless(part.words(), 0x3a, 0x3b);
        lemma_one_field(part.text(), 0x3b);
    } else {
        lemma_fields_of_words(part.words(), 0x3b);
    }
}

/// The fields of `part` stand in `f` from `i` on.
spec fn part_at(f: Seq<Seq<u8>>, i: int, part: Part) -> bool {
    &&& 0 <= i
    &&& i + part.fields().len() <= f.len()
    &&& forall|k: int| 0 <= k < part.fields().len() ==> #[trigger] f[i + k] == part.fields()[k]
}

proof fn lemma_number(n: u16)
    ensures
        number(digits(n as nat)) == Some(n),
        sgr_number(digits(n as nat)) == Some(n),
        digits(n as nat).len() > 0,
        !digits(n as nat).contains(0x3a),
{
    digits_read_back(n);
    lemma_digits_sepless(n as nat, 0x3a);
    lemma_digits(n as nat);
    assert(all_digits(digits(n as nat)));
    assert(digits(n as nat)[0] != 0x2b);
}

proof fn lemma_has_colon(words: Seq<Seq<u8>>)
    requires
        words.len() >= 2,
    ensures
        joined_with(words, 0x3a).contains(0x3a),
{
    let a = joined_with(words.drop_last(), 0x3a);
    let s = a.push(0x3a) + words.last();
    assert(s[a.len() as int] == 0x3a);
}

#[verifier::rlimit(80)]
#[verifier::spinoff_prover]
proof fn lemma_colon_part(st: SgrState, part: Part)
    requires
        part.valid(),
        part.colons(),
    ensures
        after_colon(st, fields(part.text(), 0x3a)) == part.apply(st),
        part.text().contains(0x3a),
{
    let words = part.words();
    lemma_words_sepless(part, 0x3a);
    lemma_fields_of_words(words, 0x3a);
    lemma_has_colon(words);
    lemma_number(4);
    lemma_number(5);
    lemma_number(2);
    match part {
        Part::Code(_) => {},
        Part::Under(n) => {
            lemma_number(n as u16);
            assert(part_number(words, 0) == Some(4u16));
            assert(part_number(words, 1) == Some(n as u16));
        },
        Part::Indexed { target, n, .. } => {
            lemma_number(target);
            lemma_number(n);
            assert(part_number(words, 0) == Some(target));
            assert(part_number(words, 1) == Some(5u16));
            assert(part_number(words, 2) == Some(n));
            assert(words =~= seq![digits(target as nat), digits(5), digits(n as nat)]);
            assert(colon_color(target, words) == Some(part.text()));
        },
        Part::Direct { target, r, g, b, .. } => {
            lemma_number(target);
            lemma_number(r);
            lemma_number(g);
            lemma_number(b);
            assert(part_number(words, 0) == Some(target));
            assert(part_number(words, 1) == Some(2u16));
            assert(part_number(words, 2) == Some(r));
            assert(part_number(words, 3) == Some(g));
            assert(part_number(words, 4) == Some(b));
            assert(colon_color(target, words) == Some(part.text()));
        },
        Part::Spaced { target, space, r, g, b } => {
            lemma_number(target);
            lemma_number(r);
            lemma_number(g);
            lemma_number(b);
            if let Some(n) = space {
                lemma_number(n);
            }
            assert(part_number(words, 0) == Some(target));
            assert(part_number(words, 1) == Some(2u16));
            assert(part_number(words, 2) == space);
            assert(part_number(words, 3) == Some(r));
            assert(part_number(words, 4) == Some(g));
            assert(part_number(words, 5) == Some(b));
            let inner = if words[2].len() == 0 {
                Seq::<u8>::empty()
            } else {
                digits(part_number(words, 2)->Some_0 as nat)
            };
            assert(inner =~= words[2]);
            assert(words =~= seq![
                digits(target as nat),
                digits(2),
                inner,
                digits(r as nat),
                digits(g as nat),
                digits(b as nat),
            ]);
            assert(colon_color(target, words) == Some(part.text()));
        },
    }
}

/// Reading a parameter does what it stands for.
proof fn lemma_part_applies(st: SgrState, f: Seq<Seq<u8>>, i: int, part: Part)
    requires
        part.valid(),
        part_at(f, i, part),
    ensures
        after_fields(st, f, i) == after_fields(part.apply(st), f, i + part.fields().len()),
{
    assert(f[i + 0] == part.fields()[0]);
    if part.colons() {
        lemma_colon_part(st, part);
    } else {
        match part {
            Part::Code(code) => {
                lemma_number(code);
            },
            Part::Indexed { target, n, .. } => {
                assert(f[i + 1] == part.fields()[1] && f[i + 2] == part.fields()[2]);
                lemma_number(target);
                lemma_number(5);
                lemma_number(n);
            },
            Part::Direct { target, r, g, b, .. } => {
                assert(f[i + 1] == part.fields()[1] && f[i + 2] == part.fields()[2] && f[i + 3]
                    == part.fields()[3] && f[i + 4] == part.fields()[4]);
                lemma_number(target);
                lemma_number(2);
                lemma_number(r);
                lemma_number(g);
                lemma_number(b);
            },
            _ => {},
        }
    }
}

pub open spec fn texts(parts: Seq<Part>) -> Seq<Seq<u8>> {
    parts.map_values(|p: Part| p.text())
}

pub open spec fn all_valid(parts: Seq<Part>) -> bool {
    forall|k: int| 0 <= k < parts.len() ==> (#[trigger] parts[k]).valid()
}

/// The rendition behind the parameters.
pub open spec fn applied(st: SgrState, parts: Seq<Part>) -> SgrState
    decreases parts.len(),
{
    if parts.len() == 0 {
        st
    } else {
        parts.last().apply(applied(st, parts.drop_last()))
    }
}

pub proof fn lemma_applied_one(st: SgrState, part: Part)
    ensures
        applied(st, seq![part]) == part.apply(st),
{
    assert(seq![part].drop_last() =~= Seq::<Part>::empty());
    assert(applied(st, Seq::<Part>::empty()) == st);
}

pub proof fn lemma_applied_concat(st: SgrState, a: Seq<Part>, b: Seq<Part>)
    ensures
        applied(st, a + b) == applied(applied(st, a), b),
    decreases b.len(),
{
    if b.len() == 0 {
        assert(a + b =~= a);
    } else {
        assert((a + b).drop_last() =~= a + b.drop_last());
        lemma_applied_concat(st, a, b.drop_last());
    }
}

/// The fields of the first parameters end at the result; those of all of them
/// are read one after another.
#[verifier::rlimit(80)]
#[verifier::spinoff_prover]
proof fn lemma_parts_read(st: SgrState, parts: Seq<Part>, rest: Seq<Seq<u8>>)
    requires
        parts.len() > 0,
        all_valid(parts),
    ensures
        ({
            let f = fields(joined_with(texts(parts), 0x3b), 0x3b);
            after_fields(st, f + rest, 0) == after_fields(applied(st, parts), f + rest, f.len() as int)
        }),
    decreases parts.len(),
{
    let last = parts.last();
    let all = texts(parts);
    let f = fields(joined_with(all, 0x3b), 0x3b);
    lemma_part_fields(last);
    assert(parts[parts.len() - 1].valid());
    if parts.len() == 1 {
        assert(all[0] == last.text());
        assert forall|k: int| 0 <= k < last.fields().len() implies #[trigger] (f + rest)[0 + k]
            == last.fields()[k] by {}
        lemma_part_applies(st, f + rest, 0, last);
        lemma_applied_one(st, last);
        assert(parts =~= seq![last]);
    } else {
        let head = parts.drop_last();
        assert(all.drop_last() =~= texts(head));
        assert(all.last() == last.text());
        let a = joined_with(texts(head), 0x3b);
        let g = fields(a, 0x3b);
        let h = last.fields();
        lemma_fields_joined(a, last.text(), 0x3b, 0);
        assert(f == g + h);
        assert forall|k: int| 0 <= k < head.len() implies (#[trigger] head[k]).valid() by {
            assert(head[k] == parts[k]);
        }
        lemma_parts_read(st, head, h + rest);
        assert(g + (h + rest) =~= f + rest);
        let n = g.len() as int;
        assert forall|k: int| 0 <= k < h.len() implies #[trigger] (f + rest)[n + k] == h[k] by {}
        lemma_part_applies(applied(st, head), f + rest, n, last);
    }
}

/// An SGR sequence does what its parameters stand for.
pub proof fn lemma_sgr_applies(st: SgrState, parts: Seq<Part>)
    requires
        parts.len() > 0,
        all_valid(parts),
    ensures
        after_sequence(st, sgr(texts(parts))) == applied(st, parts),
{
    let body = joined_with(texts(parts), 0x3b);
    let s = sgr(texts(parts));
    let f = fields(body, 0x3b);
    assert(s.subrange(0, 2) =~= seq![0x1bu8, 0x5bu8]);
    assert(s.subrange(2, s.len() - 1) =~= body);
    lemma_body_not_empty(parts);
    lemma_parts_read(st, parts, Seq::empty());
    assert(f + Seq::<Seq<u8>>::empty() =~= f);
}

/// A sequence with one plain code does what the code stands for.
pub proof fn lemma_code_applies(st: SgrState, code: u16)
    requires
        !color_target(code),
    ensures
        after_sequence(st, sgr(seq![digits(code as nat)])) == st.after_code(code),
{
    let parts = seq![Part::Code(code)];
    lemma_sgr_applies(st, parts);
    lemma_applied_one(st, Part::Code(code));
    assert(texts(parts) =~= seq![digits(code as nat)]) by {
        assert(joined_with(seq![digits(code as nat)], 0x3b) == digits(code as nat));
    }
}

proof fn lemma_body_not_empty(parts: Seq<Part>)
    requires
        parts.len() > 0,
    ensures
        joined_with(texts(parts), 0x3b).len() > 0,
{
    let all = texts(parts);
    if parts.len() == 1 {
        let p = parts[0];
        assert(all[0] == p.text());
        lemma_words_sepless(p, 0x3b);
        match p {
            Part::Code(code) => lemma_number(code),
            _ => {},
        }
    }
}

/// The color can be written as a parameter that sets it.
pub open spec fn color_part_of(color: Seq<u8>, target: u16, part: Part) -> bool {
    &&& part.valid()
    &&& part.text() == color
    &&& match part {
        Part::Code(code) => match target {
            38 => 30 <= code <= 37 || 90 <= code <= 97,
            48 => 40 <= code <= 47 || 100 <= code <= 107,
            _ => false,
        },
        Part::Under(_) => false,
        Part::Indexed { target: t, .. } => t == target,
        Part::Direct { target: t, .. } => t == target,
        Part::Spaced { target: t, .. } => t == target,
    }
}

pub open spec fn writable_color(color: Option<Seq<u8>>, target: u16) -> bool {
    match color {
        Some(text) => exists|part: Part| #[trigger] color_part_of(text, target, part),
        None => true,
    }
}

/// The attribute can be written as a parameter that sets it.
pub open spec fn attribute_as(a: SgrAttribute) -> Part {
    if a.sub == 0 {
        Part::Code(a.code)
    } else {
        Part::Under(a.sub)
    }
}

pub open spec fn writable_attribute(a: SgrAttribute) -> bool {
    attribute_group(a.code) != 0 && (a.sub == 0 || (a.code == 4 && a.sub <= 5))
}

/// A rendition that SGR sequences can lead to.
pub open spec fn writable(st: SgrState) -> bool {
    &&& writable_color(st.fg, 38)
    &&& writable_color(st.bg, 48)
    &&& writable_color(st.underline, 58)
    &&& forall|a: SgrAttribute| #[trigger] st.attributes.contains(a) ==> writable_attribute(a)
    &&& ordered(st.attributes)
}

proof fn lemma_attribute_text(a: SgrAttribute)
    requires
        writable_attribute(a),
    ensures
        attribute_part(a) == attribute_as(a).text(),
        attribute_as(a).valid(),
        forall|st: SgrState| #[trigger] attribute_as(a).apply(st) == st.with_attr(a),
{
    assert(joined_with(seq![digits(a.code as nat)], 0x3b) == digits(a.code as nat));
}

pub proof fn lemma_with_contains(attributes: Seq<SgrAttribute>, a: SgrAttribute, x: SgrAttribute)
    ensures
        with_attribute(attributes, a).contains(x) <==> x == a || (attributes.contains(x)
            && attribute_group(x.code) != attribute_group(a.code)),
{
    let group = attribute_group(a.code);
    let p = |y: SgrAttribute| attribute_group(y.code) != group;
    let low = |y: SgrAttribute| y.code < a.code;
    let high = |y: SgrAttribute| y.code > a.code;
    let rest = attributes.filter(p);
    let below = rest.filter(low);
    let above = rest.filter(high);
    let all = below.push(a) + above;
    lemma_filter_contains(attributes, p, x);
    lemma_filter_contains(rest, low, x);
    lemma_filter_contains(rest, high, x);
    if all.contains(x) {
        let k = choose|k: int| 0 <= k < all.len() && all[k] == x;
        if k < below.len() {
            assert(below[k] == x);
            assert(below.contains(x));
        } else if k > below.len() {
            assert(above[k - below.len() - 1] == x);
            assert(above.contains(x));
        }
    }
    if x == a {
        assert(all[below.len() as int] == a);
    } else if below.contains(x) {
        let k = choose|k: int| 0 <= k < below.len() && below[k] == x;
        assert(all[k] == x);
    } else if above.contains(x) {
        let k = choose|k: int| 0 <= k < above.len() && above[k] == x;
        assert(all[below.len() + 1 + k] == x);
    }
}

proof fn lemma_filter_contains(
    s: Seq<SgrAttribute>,
    p: spec_fn(SgrAttribute) -> bool,
    x: SgrAttribute,
)
    ensures
        s.filter(p).contains(x) <==> s.contains(x) && p(x),
{
    if s.filter(p).contains(x) {
        s.lemma_filter_contains_rev(p, x);
        let k = choose|k: int| 0 <= k < s.filter(p).len() && s.filter(p)[k] == x;
        s.lemma_filter_pred(p, k);
    }
    if s.contains(x) && p(x) {
        let k = choose|k: int| 0 <= k < s.len() && s[k] == x;
        s.lemma_filter_contains(p, k);
    }
}

pub proof fn lemma_without_contains(st: SgrState, group: u16, x: SgrAttribute)
    ensures
        st.without(group).attributes.contains(x) <==> st.attributes.contains(x) && attribute_group(
            x.code,
        ) != group,
{
    lemma_filter_contains(
        st.attributes,
        |y: SgrAttribute| attribute_group(y.code) != group,
        x,
    );
}

/// Attributes in order are told by which of them there are.
pub proof fn lemma_same_attributes(a: Seq<SgrAttribute>, b: Seq<SgrAttribute>)
    requires
        ordered(a),
        ordered(b),
        forall|x: SgrAttribute| #[trigger] a.contains(x) <==> b.contains(x),
    ensures
        a == b,
    decreases a.len(),
{
    if a.len() == 0 {
        if b.len() > 0 {
            assert(b.contains(b[0]));
            assert(a.contains(b[0]));
        }
        assert(a =~= b);
    } else {
        assert(a.contains(a[0]));
        assert(b.contains(a[0]));
        let j = choose|j: int| 0 <= j < b.len() && b[j] == a[0];
        assert(b.contains(b[0]));
        assert(a.contains(b[0]));
        let i = choose|i: int| 0 <= i < a.len() && a[i] == b[0];
        assert(i > 0 ==> a[0].code < a[i].code);
        assert(j > 0 ==> b[0].code < b[j].code);
        assert(a[0] == b[0]);
        let c = a.skip(1);
        let d = b.skip(1);
        assert forall|x: int, y: int| 0 <= x < y < c.len() implies (#[trigger] c[x]).code < (
        #[trigger] c[y]).code && attribute_group(c[x].code) != attribute_group(c[y].code) by {
            assert(c[x] == a[x + 1] && c[y] == a[y + 1]);
        }
        assert forall|x: int, y: int| 0 <= x < y < d.len() implies (#[trigger] d[x]).code < (
        #[trigger] d[y]).code && attribute_group(d[x].code) != attribute_group(d[y].code) by {
            assert(d[x] == b[x + 1] && d[y] == b[y + 1]);
        }
        assert forall|x: SgrAttribute| #[trigger] c.contains(x) <==> d.contains(x) by {
            lemma_skip_contains(a, x);
            lemma_skip_contains(b, x);
            assert(a.contains(x) <==> b.contains(x));
        }
        lemma_same_attributes(c, d);
        assert(a =~= seq![a[0]] + c);
        assert(b =~= seq![b[0]] + d);
    }
}

proof fn lemma_skip_contains(a: Seq<SgrAttribute>, x: SgrAttribute)
    requires
        ordered(a),
        a.len() > 0,
    ensures
        a.skip(1).contains(x) <==> a.contains(x) && x != a[0],
{
    let c = a.skip(1);
    if c.contains(x) {
        let k = choose|k: int| 0 <= k < c.len() && c[k] == x;
        assert(a[k + 1] == x);
        assert(a[0].code < a[k + 1].code);
    }
    if a.contains(x) && x != a[0] {
        let k = choose|k: int| 0 <= k < a.len() && a[k] == x;
        assert(c[k - 1] == x);
    }
}

/// The two renditions have the same colors.
spec fn same_colors(a: SgrState, b: SgrState) -> bool {
    a.fg == b.fg && a.bg == b.bg && a.underline == b.underline
}

/// The attribute that a group holds, as parameters.
spec fn held(st: SgrState, group: u16) -> Seq<Part> {
    st.attributes.filter(|a: SgrAttribute| attribute_group(a.code) == group).map_values(
        |a: SgrAttribute| attribute_as(a),
    )
}

#[verifier::rlimit(80)]
#[verifier::spinoff_prover]
proof fn lemma_held(x: SgrState, st: SgrState, group: u16)
    requires
        writable(st),
        ordered(x.attributes),
        forall|a: SgrAttribute| #[trigger]
            x.attributes.contains(a) ==> attribute_group(a.code) != group,
    ensures
        texts(held(st, group)) == group_parts(st.attributes, group),
        all_valid(held(st, group)),
        ({
            let y = applied(x, held(st, group));
            &&& same_colors(x, y)
            &&& ordered(y.attributes)
            &&& forall|a: SgrAttribute| #[trigger]
                y.attributes.contains(a) <==> if attribute_group(a.code) == group {
                    st.attributes.contains(a)
                } else {
                    x.attributes.contains(a)
                }
        }),
{
    let p = |a: SgrAttribute| attribute_group(a.code) == group;
    let h = st.attributes.filter(p);
    let parts = held(st, group);
    lemma_filter_ordered(st.attributes, p);
    if h.len() >= 2 {
        assert(attribute_group(h[0].code) != attribute_group(h[1].code));
        assert(p(h[0]) && p(h[1]));
    }
    assert forall|k: int| 0 <= k < h.len() implies writable_attribute(#[trigger] h[k]) by {
        assert(st.attributes.contains(h[k]));
    }
    assert forall|k: int| 0 <= k < h.len() implies attribute_part(#[trigger] h[k]) == attribute_as(
        h[k],
    ).text() && attribute_as(h[k]).valid() by {
        lemma_attribute_text(h[k]);
    }
    assert(texts(parts) =~= attribute_parts(h));
    assert forall|k: int| 0 <= k < parts.len() implies (#[trigger] parts[k]).valid() by {
        assert(parts[k] == attribute_as(h[k]));
    }
    let y = applied(x, parts);
    if h.len() == 1 {
        lemma_attribute_text(h[0]);
        lemma_applied_one(x, attribute_as(h[0]));
        assert(parts =~= seq![attribute_as(h[0])]);
        assert(y == x.with_attr(h[0]));
        lemma_with_attribute_ordered(x.attributes, h[0]);
    }
    assert forall|a: SgrAttribute| #[trigger] y.attributes.contains(a) <==> if attribute_group(
        a.code,
    ) == group {
        st.attributes.contains(a)
    } else {
        x.attributes.contains(a)
    } by {
        lemma_filter_contains(st.attributes, p, a);
        if h.len() == 1 {
            lemma_with_contains(x.attributes, h[0], a);
            assert(h.contains(a) <==> a == h[0]) by {
                assert(h[0] == h[0]);
                if h.contains(a) {
                    let k = choose|k: int| 0 <= k < h.len() && h[k] == a;
                    assert(k == 0);
                }
            }
            assert(p(h[0]));
        } else {
            assert(!h.contains(a));
        }
    }
}

/// The parameters that end an attribute and put back what its groups held.
spec fn group_back(st: SgrState, on: bool, code: u16, first: u16, second: u16) -> Seq<Part> {
    if !on {
        Seq::empty()
    } else if first == second {
        seq![Part::Code(code)] + held(st, first)
    } else {
        seq![Part::Code(code)] + held(st, first) + held(st, second)
    }
}

#[verifier::rlimit(40)]
#[verifier::spinoff_prover]
proof fn lemma_group_back(
    x: SgrState,
    st: SgrState,
    on: bool,
    code: u16,
    first: u16,
    second: u16,
)
    requires
        writable(st),
        ordered(x.attributes),
        code != 0,
        !color_target(code),
        attribute_group(code) == 0,
        ended_groups(code) == (first, second),
        first != 0,
    ensures
        texts(group_back(st, on, code, first, second)) == restored_group(
            st,
            on,
            code as nat,
            first,
            second,
        ),
        all_valid(group_back(st, on, code, first, second)),
        ({
            let y = applied(x, group_back(st, on, code, first, second));
            &&& same_colors(x, y)
            &&& ordered(y.attributes)
            &&& forall|a: SgrAttribute| #[trigger]
                y.attributes.contains(a) <==> if on && (attribute_group(a.code) == first
                    || attribute_group(a.code) == second) {
                    st.attributes.contains(a)
                } else {
                    x.attributes.contains(a)
                }
        }),
{
    if on {
        let one = seq![Part::Code(code)];
        let x1 = x.without(first).without(second);
        lemma_applied_one(x, Part::Code(code));
        assert(applied(x, one) == x1);
        lemma_code_ordered(x, code);
        assert forall|a: SgrAttribute| #[trigger] x1.attributes.contains(a) <==> x.attributes.contains(
            a,
        ) && attribute_group(a.code) != first && attribute_group(a.code) != second by {
            lemma_without_contains(x, first, a);
            lemma_without_contains(x.without(first), second, a);
        }
        lemma_held(x1, st, first);
        let x2 = applied(x1, held(st, first));
        lemma_applied_concat(x, one, held(st, first));
        assert(texts(one) =~= seq![digits(code as nat)]);
        assert(texts(one + held(st, first)) =~= texts(one) + texts(held(st, first)));
        if first != second {
            lemma_held(x2, st, second);
            lemma_applied_concat(x, one + held(st, first), held(st, second));
            assert(texts(one + held(st, first) + held(st, second)) =~= texts(
                one + held(st, first),
            ) + texts(held(st, second)));
        }
    } else {
        assert(texts(Seq::<Part>::empty()) =~= Seq::<Seq<u8>>::empty());
    }
}

spec fn switch(on: bool, code: u16) -> Seq<Part> {
    if on {
        seq![Part::Code(code)]
    } else {
        Seq::empty()
    }
}

proof fn lemma_switch(x: SgrState, on: bool, code: u16)
    requires
        ordered(x.attributes),
        attribute_group(code) == code,
        code != 0,
        !color_target(code),
    ensures
        texts(switch(on, code)) == part_if(on, digits(code as nat)),
        all_valid(switch(on, code)),
        ({
            let y = applied(x, switch(on, code));
            &&& same_colors(x, y)
            &&& ordered(y.attributes)
            &&& forall|a: SgrAttribute| #[trigger]
                y.attributes.contains(a) <==> if on && attribute_group(a.code) == code {
                    a == (SgrAttribute { code, sub: 0 })
                } else {
                    x.attributes.contains(a)
                }
        }),
{
    let parts = switch(on, code);
    assert(texts(parts) =~= part_if(on, digits(code as nat)));
    if on {
        let own = SgrAttribute { code, sub: 0 };
        lemma_applied_one(x, Part::Code(code));
        assert(applied(x, parts) == x.with_attr(own));
        lemma_with_attribute_ordered(x.attributes, own);
        assert forall|a: SgrAttribute| #[trigger] x.with_attr(own).attributes.contains(a) <==> if on
            && attribute_group(a.code) == code {
            a == own
        } else {
            x.attributes.contains(a)
        } by {
            lemma_with_contains(x.attributes, own, a);
        }
    }
}

spec fn color_as(color: Rgb, mode: ColorMode, base: u16) -> Part {
    match mode {
        ColorMode::Ansi16 => Part::Code((ansi16(color) + base - 30) as u16),
        ColorMode::TrueColor => Part::Direct {
            colon: false,
            target: (base + 8) as u16,
            r: color.r as u16,
            g: color.g as u16,
            b: color.b as u16,
        },
        ColorMode::Xterm256 => Part::Indexed {
            colon: false,
            target: (base + 8) as u16,
            n: xterm256(color) as u16,
        },
    }
}

spec fn paint(color: Option<Rgb>, mode: ColorMode, base: u16) -> Seq<Part> {
    match color {
        Some(color) => seq![color_as(color, mode, base)],
        None => Seq::empty(),
    }
}

proof fn lemma_paint(x: SgrState, color: Option<Rgb>, mode: ColorMode, base: u16)
    requires
        base == 30 || base == 40,
    ensures
        texts(paint(color, mode, base)) == color_parts(color, mode, base as nat),
        all_valid(paint(color, mode, base)),
        ({
            let y = applied(x, paint(color, mode, base));
            &&& y.attributes == x.attributes
            &&& y.underline == x.underline
            &&& base == 40 || color is None ==> y.fg == x.fg
            &&& base == 30 || color is None ==> y.bg == x.bg
            &&& base == 30 && color is Some ==> y.fg == Some(
                color_part(color->Some_0, mode, base as nat),
            )
            &&& base == 40 && color is Some ==> y.bg == Some(
                color_part(color->Some_0, mode, base as nat),
            )
        }),
{
    let parts = paint(color, mode, base);
    assert(texts(parts) =~= color_parts(color, mode, base as nat)) by {
        if let Some(c) = color {
            xterm256_codes_are_color_codes(c);
            ansi16_codes_are_color_codes(c);
            assert(parts[0].text() =~= color_part(c, mode, base as nat));
        }
    }
    if let Some(c) = color {
        xterm256_codes_are_color_codes(c);
        ansi16_codes_are_color_codes(c);
        lemma_applied_one(x, color_as(c, mode, base));
        assert(texts(parts)[0] == color_part(c, mode, base as nat));
        assert(parts[0].text() == color_part(c, mode, base as nat));
        if mode is Ansi16 {
            assert(color_part(c, mode, base as nat) == digits((ansi16(c) + base - 30) as nat));
        }
    }
}

spec fn style_as(style: Style, mode: ColorMode) -> Seq<Part> {
    switch(style.bold, 1) + switch(style.italic, 3) + switch(style.underline, 4) + switch(
        style.blink,
        5,
    ) + switch(style.invert, 7) + switch(style.strike, 9) + paint(style.foreground, mode, 30)
        + paint(style.background, mode, 40)
}

/// The group holds an attribute that the style sets.
pub open spec fn touched(style: Style, group: u16) -> bool {
    ||| style.bold && group == 1
    ||| style.italic && group == 3
    ||| style.underline && group == 4
    ||| style.blink && group == 5
    ||| style.invert && group == 7
    ||| style.strike && group == 9
}

proof fn lemma_join(x: SgrState, a: Seq<Part>, b: Seq<Part>)
    requires
        all_valid(a),
        all_valid(b),
    ensures
        all_valid(a + b),
        texts(a + b) == texts(a) + texts(b),
        applied(x, a + b) == applied(applied(x, a), b),
{
    lemma_applied_concat(x, a, b);
    assert(texts(a + b) =~= texts(a) + texts(b));
}

#[verifier::rlimit(60)]
#[verifier::spinoff_prover]
proof fn lemma_style_as(st: SgrState, style: Style, mode: ColorMode)
    requires
        ordered(st.attributes),
    ensures
        texts(style_as(style, mode)) == style_parts(style, mode),
        all_valid(style_as(style, mode)),
        ({
            let y = applied(st, style_as(style, mode));
            &&& ordered(y.attributes)
            &&& y.underline == st.underline
            &&& style.foreground is None ==> y.fg == st.fg
            &&& style.background is None ==> y.bg == st.bg
            &&& style.foreground is Some ==> y.fg == Some(
                color_part(style.foreground->Some_0, mode, 30),
            )
            &&& style.background is Some ==> y.bg == Some(
                color_part(style.background->Some_0, mode, 40),
            )
            &&& forall|a: SgrAttribute| #[trigger]
                y.attributes.contains(a) <==> if touched(style, attribute_group(a.code)) {
                    a.sub == 0 && a.code == attribute_group(a.code)
                } else {
                    st.attributes.contains(a)
                }
        }),
{
    let p1 = switch(style.bold, 1);
    let p2 = switch(style.italic, 3);
    let p3 = switch(style.underline, 4);
    let p4 = switch(style.blink, 5);
    let p5 = switch(style.invert, 7);
    let p6 = switch(style.strike, 9);
    let p7 = paint(style.foreground, mode, 30);
    let p8 = paint(style.background, mode, 40);
    lemma_switch(st, style.bold, 1);
    let x1 = applied(st, p1);
    lemma_switch(x1, style.italic, 3);
    lemma_join(st, p1, p2);
    let x2 = applied(x1, p2);
    lemma_switch(x2, style.underline, 4);
    lemma_join(st, p1 + p2, p3);
    let x3 = applied(x2, p3);
    lemma_switch(x3, style.blink, 5);
    lemma_join(st, p1 + p2 + p3, p4);
    let x4 = applied(x3, p4);
    lemma_switch(x4, style.invert, 7);
    lemma_join(st, p1 + p2 + p3 + p4, p5);
    let x5 = applied(x4, p5);
    lemma_switch(x5, style.strike, 9);
    lemma_join(st, p1 + p2 + p3 + p4 + p5, p6);
    let x6 = applied(x5, p6);
    lemma_paint(x6, style.foreground, mode, 30);
    lemma_join(st, p1 + p2 + p3 + p4 + p5 + p6, p7);
    let x7 = applied(x6, p7);
    lemma_paint(x7, style.background, mode, 40);
    lemma_join(st, p1 + p2 + p3 + p4 + p5 + p6 + p7, p8);
    let y = applied(x7, p8);
    assert forall|a: SgrAttribute| #[trigger] y.attributes.contains(a) <==> if touched(
        style,
        attribute_group(a.code),
    ) {
        a.sub == 0 && a.code == attribute_group(a.code)
    } else {
        st.attributes.contains(a)
    } by {
        let g = attribute_group(a.code);
        let own = a.sub == 0 && a.code == g;
        assert(y.attributes.contains(a) <==> x6.attributes.contains(a));
        assert(x6.attributes.contains(a) <==> if style.strike && g == 9 {
            own
        } else {
            x5.attributes.contains(a)
        });
        assert(x5.attributes.contains(a) <==> if style.invert && g == 7 {
            own
        } else {
            x4.attributes.contains(a)
        });
        assert(x4.attributes.contains(a) <==> if style.blink && g == 5 {
            own
        } else {
            x3.attributes.contains(a)
        });
        assert(x3.attributes.contains(a) <==> if style.underline && g == 4 {
            own
        } else {
            x2.attributes.contains(a)
        });
        assert(x2.attributes.contains(a) <==> if style.italic && g == 3 {
            own
        } else {
            x1.attributes.contains(a)
        });
        assert(x1.attributes.contains(a) <==> if style.bold && g == 1 {
            own
        } else {
            st.attributes.contains(a)
        });
    }
}

/// The parameter that puts a color back.
spec fn color_back(on: bool, color: Option<Seq<u8>>, target: u16, default: u16) -> Seq<Part> {
    if !on {
        Seq::empty()
    } else {
        match color {
            Some(c) => seq![choose|part: Part| #[trigger] color_part_of(c, target, part)],
            None => seq![Part::Code(default)],
        }
    }
}

proof fn lemma_color_back(
    x: SgrState,
    on: bool,
    color: Option<Seq<u8>>,
    target: u16,
    default: u16,
)
    requires
        writable_color(color, target),
        (target == 38 && default == 39) || (target == 48 && default == 49),
    ensures
        texts(color_back(on, color, target, default)) == restored_color(on, color, default as nat),
        all_valid(color_back(on, color, target, default)),
        applied(x, color_back(on, color, target, default)) == (if !on {
            x
        } else if target == 38 {
            SgrState { fg: color, ..x }
        } else {
            SgrState { bg: color, ..x }
        }),
{
    let parts = color_back(on, color, target, default);
    assert(texts(parts) =~= restored_color(on, color, default as nat));
    if on {
        lemma_applied_one(x, parts[0]);
        assert(parts =~= seq![parts[0]]);
    }
}

spec fn restore_as(st: SgrState, style: Style) -> Seq<Part> {
    group_back(st, style.bold, 22, 1, 2) + group_back(st, style.italic, 23, 3, 3) + group_back(
        st,
        style.underline,
        24,
        4,
        4,
    ) + group_back(st, style.blink, 25, 5, 5) + group_back(st, style.invert, 27, 7, 7) + group_back(
        st,
        style.strike,
        29,
        9,
        9,
    ) + color_back(style.foreground is Some, st.fg, 38, 39) + color_back(
        style.background is Some,
        st.bg,
        48,
        49,
    )
}

#[verifier::rlimit(60)]
#[verifier::spinoff_prover]
proof fn lemma_restore_as(x: SgrState, st: SgrState, style: Style)
    requires
        writable(st),
        ordered(x.attributes),
    ensures
        texts(restore_as(st, style)) == restore_parts(st, style),
        all_valid(restore_as(st, style)),
        ({
            let y = applied(x, restore_as(st, style));
            &&& ordered(y.attributes)
            &&& y.underline == x.underline
            &&& y.fg == if style.foreground is Some {
                st.fg
            } else {
                x.fg
            }
            &&& y.bg == if style.background is Some {
                st.bg
            } else {
                x.bg
            }
            &&& forall|a: SgrAttribute| #[trigger]
                y.attributes.contains(a) <==> if touched(style, attribute_group(a.code)) || (
                style.bold && attribute_group(a.code) == 2) {
                    st.attributes.contains(a)
                } else {
                    x.attributes.contains(a)
                }
        }),
{
    let p1 = group_back(st, style.bold, 22, 1, 2);
    let p2 = group_back(st, style.italic, 23, 3, 3);
    let p3 = group_back(st, style.underline, 24, 4, 4);
    let p4 = group_back(st, style.blink, 25, 5, 5);
    let p5 = group_back(st, style.invert, 27, 7, 7);
    let p6 = group_back(st, style.strike, 29, 9, 9);
    let p7 = color_back(style.foreground is Some, st.fg, 38, 39);
    let p8 = color_back(style.background is Some, st.bg, 48, 49);
    lemma_group_back(x, st, style.bold, 22, 1, 2);
    let x1 = applied(x, p1);
    lemma_group_back(x1, st, style.italic, 23, 3, 3);
    lemma_join(x, p1, p2);
    let x2 = applied(x1, p2);
    lemma_group_back(x2, st, style.underline, 24, 4, 4);
    lemma_join(x, p1 + p2, p3);
    let x3 = applied(x2, p3);
    lemma_group_back(x3, st, style.blink, 25, 5, 5);
    lemma_join(x, p1 + p2 + p3, p4);
    let x4 = applied(x3, p4);
    lemma_group_back(x4, st, style.invert, 27, 7, 7);
    lemma_join(x, p1 + p2 + p3 + p4, p5);
    let x5 = applied(x4, p5);
    lemma_group_back(x5, st, style.strike, 29, 9, 9);
    lemma_join(x, p1 + p2 + p3 + p4 + p5, p6);
    let x6 = applied(x5, p6);
    lemma_color_back(x6, style.foreground is Some, st.fg, 38, 39);
    lemma_join(x, p1 + p2 + p3 + p4 + p5 + p6, p7);
    let x7 = applied(x6, p7);
    lemma_color_back(x7, style.background is Some, st.bg, 48, 49);
    lemma_join(x, p1 + p2 + p3 + p4 + p5 + p6 + p7, p8);
    let y = applied(x7, p8);
    assert forall|a: SgrAttribute| #[trigger] y.attributes.contains(a) <==> if touched(
        style,
        attribute_group(a.code),
    ) || (style.bold && attribute_group(a.code) == 2) {
        st.attributes.contains(a)
    } else {
        x.attributes.contains(a)
    } by {
        let g = attribute_group(a.code);
        assert(y.attributes == x6.attributes);
        assert(x6.attributes.contains(a) <==> if style.strike && g == 9 {
            st.attributes.contains(a)
        } else {
            x5.attributes.contains(a)
        });
        assert(x5.attributes.contains(a) <==> if style.invert && g == 7 {
            st.attributes.contains(a)
        } else {
            x4.attributes.contains(a)
        });
        assert(x4.attributes.contains(a) <==> if style.blink && g == 5 {
            st.attributes.contains(a)
        } else {
            x3.attributes.contains(a)
        });
        assert(x3.attributes.contains(a) <==> if style.underline && g == 4 {
            st.attributes.contains(a)
        } else {
            x2.attributes.contains(a)
        });
        assert(x2.attributes.contains(a) <==> if style.italic && g == 3 {
            st.attributes.contains(a)
        } else {
            x1.attributes.contains(a)
        });
    }
}

proof fn lemma_style_not_empty(st: SgrState, style: Style, mode: ColorMode)
    requires
        style != Style::plain(),
    ensures
        style_as(style, mode).len() > 0,
        restore_as(st, style).len() > 0,
{
}

/// What the sequence that switches on a style does to a rendition.
pub proof fn lemma_style_started(st: SgrState, style: Style, mode: ColorMode)
    requires
        ordered(st.attributes),
        style != Style::plain(),
    ensures
        ({
            let y = after_sequence(st, style_start(style, mode));
            &&& ordered(y.attributes)
            &&& y.underline == st.underline
            &&& y.fg == match style.foreground {
                Some(c) => Some(color_part(c, mode, 30)),
                None => st.fg,
            }
            &&& y.bg == match style.background {
                Some(c) => Some(color_part(c, mode, 40)),
                None => st.bg,
            }
            &&& forall|a: SgrAttribute| #[trigger]
                y.attributes.contains(a) <==> if touched(style, attribute_group(a.code)) {
                    a.sub == 0 && a.code == attribute_group(a.code)
                } else {
                    st.attributes.contains(a)
                }
        }),
{
    lemma_style_not_empty(st, style, mode);
    lemma_style_as(st, style, mode);
    lemma_sgr_applies(st, style_as(style, mode));
}

/// What the sequence that takes a style back does to a rendition.
pub proof fn lemma_style_ended(x: SgrState, st: SgrState, style: Style)
    requires
        writable(st),
        ordered(x.attributes),
        style != Style::plain(),
    ensures
        ({
            let y = after_sequence(x, restore_bytes(st, style));
            &&& restore_bytes(st, style).len() > 0
            &&& ordered(y.attributes)
            &&& y.underline == x.underline
            &&& y.fg == if style.foreground is Some {
                st.fg
            } else {
                x.fg
            }
            &&& y.bg == if style.background is Some {
                st.bg
            } else {
                x.bg
            }
            &&& forall|a: SgrAttribute| #[trigger]
                y.attributes.contains(a) <==> if touched(style, attribute_group(a.code)) || (
                style.bold && attribute_group(a.code) == 2) {
                    st.attributes.contains(a)
                } else {
                    x.attributes.contains(a)
                }
        }),
{
    lemma_style_not_empty(st, style, ColorMode::TrueColor);
    lemma_restore_as(x, st, style);
    assert(texts(restore_as(st, style)).len() == restore_as(st, style).len());
    lemma_sgr_applies(x, restore_as(st, style));
}

/// The parameters of a rendition.
spec fn rendition_as(st: SgrState) -> Seq<Part> {
    st.attributes.map_values(|a: SgrAttribute| attribute_as(a)) + color_back(
        st.fg is Some,
        st.fg,
        38,
        39,
    ) + color_back(st.bg is Some, st.bg, 48, 49) + underline_back(st.underline)
}

spec fn underline_back(color: Option<Seq<u8>>) -> Seq<Part> {
    match color {
        Some(c) => seq![choose|part: Part| #[trigger] color_part_of(c, 58, part)],
        None => Seq::empty(),
    }
}

proof fn lemma_attributes_written(x: SgrState, st: SgrState, n: int)
    requires
        writable(st),
        x.attributes.len() == 0,
        0 <= n <= st.attributes.len(),
    ensures
        ({
            let parts = st.attributes.take(n).map_values(|a: SgrAttribute| attribute_as(a));
            &&& all_valid(parts)
            &&& texts(parts) == attribute_parts(st.attributes.take(n))
            &&& same_colors(applied(x, parts), x)
            &&& applied(x, parts).attributes == st.attributes.take(n)
        }),
    decreases n,
{
    let first = st.attributes.take(n);
    let parts = first.map_values(|a: SgrAttribute| attribute_as(a));
    if n == 0 {
        assert(parts =~= Seq::<Part>::empty());
        assert(texts(parts) =~= attribute_parts(first));
        assert(x.attributes =~= first);
    } else {
        let before = st.attributes.take(n - 1);
        let a = st.attributes[n - 1];
        let head = before.map_values(|a: SgrAttribute| attribute_as(a));
        lemma_attributes_written(x, st, n - 1);
        assert(st.attributes.contains(a));
        lemma_attribute_text(a);
        assert(parts =~= head.push(attribute_as(a)));
        assert(parts.drop_last() =~= head);
        assert(texts(parts) =~= texts(head).push(attribute_as(a).text()));
        assert(attribute_parts(first) =~= attribute_parts(before).push(attribute_part(a)));
        let y = applied(x, head);
        assert(applied(x, parts) == y.with_attr(a));
        assert forall|i: int, j: int| 0 <= i < j < first.len() implies (#[trigger] first[i]).code < (
        #[trigger] first[j]).code && attribute_group(first[i].code) != attribute_group(
            first[j].code,
        ) by {
            assert(first[i] == st.attributes[i] && first[j] == st.attributes[j]);
        }
        assert forall|i: int, j: int| 0 <= i < j < before.len() implies (#[trigger] before[i]).code
            < (#[trigger] before[j]).code && attribute_group(before[i].code) != attribute_group(
            before[j].code,
        ) by {
            assert(before[i] == st.attributes[i] && before[j] == st.attributes[j]);
        }
        lemma_with_attribute_ordered(before, a);
        assert forall|z: SgrAttribute| #[trigger] with_attribute(before, a).contains(z)
            <==> first.contains(z) by {
            lemma_with_contains(before, a, z);
            if first.contains(z) {
                let k = choose|k: int| 0 <= k < first.len() && first[k] == z;
                if k < n - 1 {
                    assert(before[k] == z);
                    assert(attribute_group(first[k].code) != attribute_group(first[n - 1].code));
                }
            }
            if z == a {
                assert(first[n - 1] == z);
            } else if before.contains(z) {
                let k = choose|k: int| 0 <= k < before.len() && before[k] == z;
                assert(first[k] == z);
            }
        }
        lemma_same_attributes(with_attribute(before, a), first);
    }
}

/// Written out in full, a rendition is what it was.
#[verifier::rlimit(40)]
pub proof fn lemma_rendition_written(st: SgrState)
    requires
        writable(st),
    ensures
        st.parts().len() > 0 ==> after_sequence(SgrState::initial(), sgr(st.parts())) == st,
        st.parts().len() == 0 ==> st == SgrState::initial(),
{
    let x = SgrState::initial();
    let n = st.attributes.len() as int;
    lemma_attributes_written(x, st, n);
    assert(st.attributes.take(n) =~= st.attributes);
    let p1 = st.attributes.map_values(|a: SgrAttribute| attribute_as(a));
    let p2 = color_back(st.fg is Some, st.fg, 38, 39);
    let p3 = color_back(st.bg is Some, st.bg, 48, 49);
    let p4 = underline_back(st.underline);
    let x1 = applied(x, p1);
    lemma_color_back(x1, st.fg is Some, st.fg, 38, 39);
    lemma_join(x, p1, p2);
    let x2 = applied(x1, p2);
    lemma_color_back(x2, st.bg is Some, st.bg, 48, 49);
    lemma_join(x, p1 + p2, p3);
    let x3 = applied(x2, p3);
    assert(texts(p4) =~= option_part(st.underline));
    assert(all_valid(p4));
    if st.underline is Some {
        lemma_applied_one(x3, p4[0]);
        assert(p4 =~= seq![p4[0]]);
    }
    lemma_join(x, p1 + p2 + p3, p4);
    let all = rendition_as(st);
    assert(texts(p2) =~= option_part(st.fg));
    assert(texts(p3) =~= option_part(st.bg));
    assert(texts(all) == st.parts());
    assert(texts(all).len() == all.len());
    assert(applied(x, all) =~= st);
    if all.len() > 0 {
        lemma_sgr_applies(x, all);
    } else {
        assert(st.attributes.len() == 0);
        assert(st =~= x);
    }
}

/// Behind a style, what takes it back leads to the rendition from before it:
/// nothing that the program itself has set is lost.
pub proof fn restoring_takes_a_style_back(st: SgrState, style: Style, mode: ColorMode)
    requires
        writable(st),
        style != Style::plain(),
    ensures
        after_sequence(
            after_sequence(st, style_start(style, mode)),
            restore_bytes(st, style),
        ) == st,
{
    let on = applied(st, style_as(style, mode));
    lemma_style_not_empty(st, style, mode);
    lemma_style_as(st, style, mode);
    lemma_sgr_applies(st, style_as(style, mode));
    lemma_restore_as(on, st, style);
    assert(texts(restore_as(st, style)).len() == restore_as(st, style).len());
    lemma_sgr_applies(on, restore_as(st, style));
    let end = applied(on, restore_as(st, style));
    assert forall|a: SgrAttribute| #[trigger] end.attributes.contains(a) <==> st.attributes.contains(
        a,
    ) by {
        assert(!touched(style, attribute_group(a.code)) ==> (on.attributes.contains(a)
            <==> st.attributes.contains(a)));
    }
    lemma_same_attributes(end.attributes, st.attributes);
    assert(end =~= st);
}

proof fn lemma_semicolon_writable(f: Seq<Seq<u8>>, i: int, code: u16)
    requires
        color_target(code),
        field_number(f, i) == Some(code),
    ensures
        writable_color(semicolon_color(f, i).0, code),
{
    if let Some(c) = semicolon_color(f, i).0 {
        let part = if field_number(f, i + 1) == Some(5u16) {
            Part::Indexed { colon: false, target: code, n: field_number(f, i + 2)->Some_0 }
        } else {
            Part::Direct {
                colon: false,
                target: code,
                r: field_number(f, i + 2)->Some_0,
                g: field_number(f, i + 3)->Some_0,
                b: field_number(f, i + 4)->Some_0,
            }
        };
        assert(part.text() =~= c);
        assert(color_part_of(c, code, part));
    }
}

proof fn lemma_colon_writable(target: u16, p: Seq<Seq<u8>>)
    requires
        color_target(target),
    ensures
        writable_color(colon_color(target, p), target),
{
    if let Some(c) = colon_color(target, p) {
        let part = if part_number(p, 1) == Some(5u16) {
            Part::Indexed { colon: true, target, n: part_number(p, 2)->Some_0 }
        } else if p.len() == 5 {
            Part::Direct {
                colon: true,
                target,
                r: part_number(p, 2)->Some_0,
                g: part_number(p, 3)->Some_0,
                b: part_number(p, 4)->Some_0,
            }
        } else {
            Part::Spaced {
                target,
                space: if p[2].len() == 0 {
                    None
                } else {
                    part_number(p, 2)
                },
                r: part_number(p, 3)->Some_0,
                g: part_number(p, 4)->Some_0,
                b: part_number(p, 5)->Some_0,
            }
        };
        if part is Spaced {
            let inner = if p[2].len() == 0 {
                Seq::<u8>::empty()
            } else {
                digits(part_number(p, 2)->Some_0 as nat)
            };
            assert(part.words()[2] =~= inner);
            assert(part.words() =~= seq![
                digits(target as nat),
                digits(2),
                inner,
                digits(part_number(p, 3)->Some_0 as nat),
                digits(part_number(p, 4)->Some_0 as nat),
                digits(part_number(p, 5)->Some_0 as nat),
            ]);
        }
        assert(part.text() =~= c);
        assert(color_part_of(c, target, part));
    }
}

proof fn lemma_with_writable(st: SgrState, a: SgrAttribute)
    requires
        writable(st),
        writable_attribute(a),
    ensures
        writable(st.with_attr(a)),
{
    lemma_with_attribute_ordered(st.attributes, a);
    assert forall|x: SgrAttribute| #[trigger] st.with_attr(a).attributes.contains(
        x,
    ) implies writable_attribute(x) by {
        lemma_with_contains(st.attributes, a, x);
    }
}

proof fn lemma_without_writable(st: SgrState, group: u16)
    requires
        writable(st),
    ensures
        writable(st.without(group)),
{
    lemma_filter_ordered(st.attributes, |x: SgrAttribute| attribute_group(x.code) != group);
    assert forall|x: SgrAttribute| #[trigger] st.without(group).attributes.contains(
        x,
    ) implies writable_attribute(x) by {
        lemma_without_contains(st, group, x);
    }
}

proof fn lemma_code_color(c: Seq<u8>, target: u16, part: Part)
    requires
        color_part_of(c, target, part),
    ensures
        writable_color(Some(c), target),
{
    let color = Some(c);
    assert(color->Some_0 == c);
    assert(color_part_of(color->Some_0, target, part));
}

proof fn lemma_code_writable(st: SgrState, code: u16)
    requires
        writable(st),
        !color_target(code),
    ensures
        writable(st.after_code(code)),
{
    let c = digits(code as nat);
    if code == 0 {
        assert(writable(SgrState::initial()));
    } else if attribute_group(code) != 0 {
        lemma_with_writable(st, SgrAttribute { code, sub: 0 });
    } else if ended_groups(code).0 != 0 {
        lemma_without_writable(st, ended_groups(code).0);
        lemma_without_writable(st.without(ended_groups(code).0), ended_groups(code).1);
    } else if 30 <= code <= 37 || 90 <= code <= 97 {
        lemma_code_color(c, 38, Part::Code(code));
    } else if 40 <= code <= 47 || 100 <= code <= 107 {
        lemma_code_color(c, 48, Part::Code(code));
    } else {
        let end = st.after_code(code);
        assert(end.attributes == st.attributes);
        assert(writable_color(end.fg, 38));
        assert(writable_color(end.bg, 48));
        assert(writable_color(end.underline, 58));
    }
}

proof fn lemma_fields_writable(st: SgrState, f: Seq<Seq<u8>>, i: int)
    requires
        writable(st),
    ensures
        writable(after_fields(st, f, i)),
    decreases f.len() - i,
{
    if 0 <= i < f.len() {
        if f[i].contains(0x3a) {
            let p = fields(f[i], 0x3a);
            if let Some(target) = part_number(p, 0) {
                if color_target(target) {
                    lemma_colon_writable(target, p);
                } else if target == 4 && p.len() == 2 {
                    lemma_without_writable(st, 4);
                    if let Some(n) = part_number(p, 1) {
                        if 1 <= n <= 5 {
                            lemma_with_writable(st, SgrAttribute { code: 4, sub: n as u8 });
                        }
                    }
                }
            }
            lemma_fields_writable(after_colon(st, p), f, i + 1);
        } else if f[i].len() == 0 {
            lemma_code_writable(st, 0);
            lemma_fields_writable(st.after_code(0), f, i + 1);
        } else {
            match sgr_number(f[i]) {
                Some(code) => {
                    if color_target(code) {
                        lemma_semicolon_writable(f, i, code);
                        let (color, taken) = semicolon_color(f, i);
                        if taken >= 1 {
                            let next = match color {
                                Some(color) => st.with_color(code, color),
                                None => st,
                            };
                            lemma_fields_writable(next, f, i + taken);
                        }
                    } else {
                        lemma_code_writable(st, code);
                        lemma_fields_writable(st.after_code(code), f, i + 1);
                    }
                },
                None => lemma_fields_writable(st, f, i + 1),
            }
        }
    }
}

/// The rendition that a terminal starts with is writable, and control sequences
/// lead from writable renditions to writable ones.
pub proof fn renditions_stay_writable(st: SgrState, s: Seq<u8>)
    ensures
        writable(SgrState::initial()),
        writable(st) ==> writable(after_sequence(st, s)),
{
    let n = csi_intro(s);
    if writable(st) && !(n == 0 || s.last() != 0x6d) && n != s.len() - 1 {
        lemma_fields_writable(st, fields(s.subrange(n, s.len() - 1), 0x3b), 0);
    }
}

} // verus!
