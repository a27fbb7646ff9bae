//! Laws about graphic renditions: what each SGR parameter does to them, and
//! that parameters act one after another.

use vstd::prelude::*;

use crate::bytes::{digits, joined_with};
use crate::restoring::{
    all_valid, applied, color_target, lemma_applied_concat, lemma_applied_one, lemma_code_applies,
    lemma_sgr_applies, lemma_with_contains, lemma_without_contains, texts, Part,
};
use crate::sgr::{after_sequence, attribute_group, ended_groups, SgrAttribute, SgrState};
use crate::style::{sgr, Rgb};

verus! {

/// The code switches an attribute on.
pub open spec fn attribute_code(code: u16) -> bool {
    1 <= code <= 9 || 11 <= code <= 21 || code == 26 || 51 <= code <= 53 || 60 <= code <= 64 || code
        == 73 || code == 74
}

/// Two attributes that cannot be on together: italic and Fraktur, the two
/// underlines, the two speeds of blinking, the fonts, frame and circle, the
/// ideogram lines, raised and lowered text.
pub open spec fn one_place(a: u16, b: u16) -> bool {
    ||| a == b
    ||| (a == 3 || a == 20) && (b == 3 || b == 20)
    ||| (a == 4 || a == 21) && (b == 4 || b == 21)
    ||| (a == 5 || a == 6) && (b == 5 || b == 6)
    ||| 11 <= a <= 19 && 11 <= b <= 19
    ||| 51 <= a <= 52 && 51 <= b <= 52
    ||| 60 <= a <= 64 && 60 <= b <= 64
    ||| 73 <= a <= 74 && 73 <= b <= 74
}

/// The code switches the attribute `a` off: 22 bold and faint, 23 italic, 24
/// underline, 25 blinking, 27 inverse, 28 concealed, 29 struck out, and so on.
pub open spec fn switches_off(code: u16, a: u16) -> bool {
    ||| code == 0
    ||| code == 10 && 11 <= a <= 19
    ||| code == 22 && (a == 1 || a == 2)
    ||| code == 23 && (a == 3 || a == 20)
    ||| code == 24 && (a == 4 || a == 21)
    ||| code == 25 && (a == 5 || a == 6)
    ||| code == 27 && a == 7
    ||| code == 28 && a == 8
    ||| code == 29 && a == 9
    ||| code == 50 && a == 26
    ||| code == 54 && (a == 51 || a == 52)
    ||| code == 55 && a == 53
    ||| code == 65 && 60 <= a <= 64
    ||| code == 75 && (a == 73 || a == 74)
}

proof fn lemma_places(code: u16, a: u16)
    requires
        attribute_code(a),
    ensures
        attribute_code(code) <==> attribute_group(code) != 0,
        attribute_code(code) ==> (one_place(code, a) <==> attribute_group(code) == attribute_group(
            a,
        )),
        code != 0 ==> (switches_off(code, a) <==> ended_groups(code).0 != 0 && (attribute_group(a)
            == ended_groups(code).0 || attribute_group(a) == ended_groups(code).1)),
        !(attribute_code(code) && ended_groups(code).0 != 0),
{
}

/// A code by itself switches its attribute on, in place of what cannot be on
/// together with it, or switches attributes off; or it sets the color of the
/// text or of its background, or gives back the default color. It changes
/// nothing else.
pub proof fn codes_change_what_they_name(st: SgrState, code: u16)
    requires
        code != 38 && code != 48 && code != 58,
        forall|x: SgrAttribute| #[trigger]
            st.attributes.contains(x) ==> attribute_code(x.code),
    ensures
        ({
            let y = after_sequence(st, sgr(seq![digits(code as nat)]));
            &&& forall|x: SgrAttribute| #[trigger]
                y.attributes.contains(x) <==> {
                    ||| attribute_code(code) && x.code == code && x.sub == 0
                    ||| st.attributes.contains(x) && !switches_off(code, x.code) && !(
                    attribute_code(code) && one_place(code, x.code))
                }
            &&& y.fg == if 30 <= code <= 37 || 90 <= code <= 97 {
                Some(digits(code as nat))
            } else if code == 0 || code == 39 {
                None
            } else {
                st.fg
            }
            &&& y.bg == if 40 <= code <= 47 || 100 <= code <= 107 {
                Some(digits(code as nat))
            } else if code == 0 || code == 49 {
                None
            } else {
                st.bg
            }
            &&& y.underline == if code == 0 || code == 59 {
                None
            } else {
                st.underline
            }
        }),
{
    lemma_code_applies(st, code);
    let y = st.after_code(code);
    assert forall|x: SgrAttribute| #[trigger] y.attributes.contains(x) <==> {
        ||| attribute_code(code) && x.code == code && x.sub == 0
        ||| st.attributes.contains(x) && !switches_off(code, x.code) && !(attribute_code(code)
            && one_place(code, x.code))
    } by {
        lemma_places(code, 1);
        if st.attributes.contains(x) {
            lemma_places(code, x.code);
        }
        if code == 0 {
            assert(y.attributes =~= Seq::<SgrAttribute>::empty());
            assert(!y.attributes.contains(x));
        } else if attribute_group(code) != 0 {
            lemma_with_contains(st.attributes, SgrAttribute { code, sub: 0 }, x);
        } else if ended_groups(code).0 != 0 {
            let g = ended_groups(code);
            lemma_without_contains(st, g.0, x);
            lemma_without_contains(st.without(g.0), g.1, x);
        }
    }
}

/// The parameters of a sequence act one after another.
pub proof fn parameters_act_in_turn(st: SgrState, a: Seq<Part>, b: Seq<Part>)
    requires
        a.len() > 0,
        b.len() > 0,
        all_valid(a),
        all_valid(b),
    ensures
        after_sequence(st, sgr(texts(a + b))) == after_sequence(
            after_sequence(st, sgr(texts(a))),
            sgr(texts(b)),
        ),
{
    assert(all_valid(a + b)) by {
        assert forall|k: int| 0 <= k < (a + b).len() implies (#[trigger] (a + b)[k]).valid() by {
            if k < a.len() {
                assert((a + b)[k] == a[k]);
            } else {
                assert((a + b)[k] == b[k - a.len()]);
            }
        }
    }
    lemma_sgr_applies(st, a + b);
    lemma_sgr_applies(st, a);
    lemma_sgr_applies(applied(st, a), b);
    lemma_applied_concat(st, a, b);
}

/// The color stands for the text behind 38, for its background behind 48, for
/// the underline behind 58, and nothing else changes.
pub open spec fn colored(st: SgrState, y: SgrState, target: u16, color: Seq<u8>) -> bool {
    &&& y.attributes == st.attributes
    &&& y.fg == if target == 38 {
        Some(color)
    } else {
        st.fg
    }
    &&& y.bg == if target == 48 {
        Some(color)
    } else {
        st.bg
    }
    &&& y.underline == if target == 58 {
        Some(color)
    } else {
        st.underline
    }
}

proof fn lemma_one_part(st: SgrState, p: Part)
    requires
        p.valid(),
    ensures
        after_sequence(st, sgr(seq![p.text()])) == p.apply(st),
{
    assert(all_valid(seq![p]));
    assert(texts(seq![p]) =~= seq![p.text()]);
    lemma_sgr_applies(st, seq![p]);
    lemma_applied_one(st, p);
}

/// A color by its number is kept as it is written, with semicolons or with
/// colons.
pub proof fn numbered_colors_are_kept(st: SgrState, target: u16, sep: u8, n: u8)
    requires
        target == 38 || target == 48 || target == 58,
        sep == 0x3a || sep == 0x3b,
    ensures
        ({
            let color = joined_with(seq![digits(target as nat), digits(5), digits(n as nat)], sep);
            colored(st, after_sequence(st, sgr(seq![color])), target, color)
        }),
{
    let p = Part::Indexed { colon: sep == 0x3a, target, n: n as u16 };
    assert(color_target(target));
    lemma_one_part(st, p);
    assert(p.words() == seq![digits(target as nat), digits(5), digits(n as nat)]);
}

/// A color by its channels is kept as it is written, with semicolons or with
/// colons.
pub proof fn channel_colors_are_kept(st: SgrState, target: u16, sep: u8, c: Rgb)
    requires
        target == 38 || target == 48 || target == 58,
        sep == 0x3a || sep == 0x3b,
    ensures
        ({
            let color = joined_with(
                seq![
                    digits(target as nat),
                    digits(2),
                    digits(c.r as nat),
                    digits(c.g as nat),
                    digits(c.b as nat),
                ],
                sep,
            );
            colored(st, after_sequence(st, sgr(seq![color])), target, color)
        }),
{
    let p = Part::Direct {
        colon: sep == 0x3a,
        target,
        r: c.r as u16,
        g: c.g as u16,
        b: c.b as u16,
    };
    assert(color_target(target));
    lemma_one_part(st, p);
    assert(p.words() == seq![
        digits(target as nat),
        digits(2),
        digits(c.r as nat),
        digits(c.g as nat),
        digits(c.b as nat),
    ]);
}

/// Between colons there may be an empty place for a color space.
pub proof fn color_spaces_may_be_left_out(st: SgrState, target: u16, c: Rgb)
    requires
        target == 38 || target == 48 || target == 58,
    ensures
        ({
            let color = joined_with(
                seq![
                    digits(target as nat),
                    digits(2),
                    Seq::empty(),
                    digits(c.r as nat),
                    digits(c.g as nat),
                    digits(c.b as nat),
                ],
                0x3a,
            );
            colored(st, after_sequence(st, sgr(seq![color])), target, color)
        }),
{
    let p = Part::Spaced {
        target,
        space: None,
        r: c.r as u16,
        g: c.g as u16,
        b: c.b as u16,
    };
    assert(color_target(target));
    lemma_one_part(st, p);
    assert(p.words() == seq![
        digits(target as nat),
        digits(2),
        Seq::empty(),
        digits(c.r as nat),
        digits(c.g as nat),
        digits(c.b as nat),
    ]);
}

/// The underline has five forms, each in place of the others.
pub proof fn underlines_have_forms(st: SgrState, n: u8)
    requires
        1 <= n <= 5,
        forall|x: SgrAttribute| #[trigger]
            st.attributes.contains(x) ==> attribute_code(x.code),
    ensures
        ({
            let form = seq![0x34u8, 0x3au8, (0x30 + n) as u8];
            let y = after_sequence(st, sgr(seq![form]));
            &&& forall|x: SgrAttribute| #[trigger]
                y.attributes.contains(x) <==> x.code == 4 && x.sub == n || (st.attributes.contains(x)
                    && x.code != 4 && x.code != 21)
            &&& y.fg == st.fg
            &&& y.bg == st.bg
            &&& y.underline == st.underline
        }),
{
    let p = Part::Under(n);
    let form = seq![0x34u8, 0x3au8, (0x30 + n) as u8];
    reveal_with_fuel(digits, 2);
    reveal_with_fuel(joined_with, 3);
    assert(digits(4) =~= seq![0x34u8]);
    assert(digits(n as nat) =~= seq![(0x30 + n) as u8]);
    assert(p.text() =~= form);
    lemma_one_part(st, p);
    let y = p.apply(st);
    assert forall|x: SgrAttribute| #[trigger] y.attributes.contains(x) <==> x.code == 4 && x.sub
        == n || (st.attributes.contains(x) && x.code != 4 && x.code != 21) by {
        lemma_with_contains(st.attributes, SgrAttribute { code: 4, sub: n }, x);
        if st.attributes.contains(x) {
            lemma_places(4, x.code);
        }
    }
}

/// A sequence without parameters gives back the rendition that a terminal
/// starts with.
pub proof fn empty_sequences_reset(st: SgrState)
    ensures
        ({
            let y = after_sequence(st, seq![0x1bu8, 0x5bu8, 0x6du8]);
            &&& y.fg is None
            &&& y.bg is None
            &&& y.underline is None
            &&& y.attributes.len() == 0
        }),
{
    let s = seq![0x1bu8, 0x5bu8, 0x6du8];
    assert(s.subrange(0, 2) =~= seq![0x1bu8, 0x5bu8]);
}

} // verus!
