//! The graphic rendition that the program behind the terminal has set itself,
//! as its SGR sequences tell, and how to go back to it.

use vstd::prelude::*;

use crate::bytes::{digit_bytes, digits, join_with, joined_with, number, parse_number, vec_views};
use crate::controls::{byte_views, csi_intro, csi_introducer_len, fields, split_fields};
use crate::style::{sgr, sgr_bytes, Style};

verus! {

/// A text attribute: its SGR code and, for an underline style given as `4:n`,
/// the style `n`; 0 stands for the plain code.
#[derive(Clone, Copy, Debug, PartialEq, Eq, Structural)]
pub struct SgrAttribute {
    pub code: u16,
    pub sub: u8,
}

/// The group of attributes that `code` belongs to; a group holds one of them
/// at a time. 0 stands for no group.
pub open spec fn attribute_group(code: u16) -> u16 {
    if code == 1 || code == 2 || (7 <= code <= 9) || code == 26 || code == 53 {
        code
    } else if code == 3 || code == 20 {
        3
    } else if code == 4 || code == 21 {
        4
    } else if code == 5 || code == 6 {
        5
    } else if 11 <= code <= 19 {
        10
    } else if code == 51 || code == 52 {
        51
    } else if 60 <= code <= 64 {
        60
    } else if code == 73 || code == 74 {
        73
    } else {
        0
    }
}

fn group_of(code: u16) -> (r: u16)
    ensures
        r == attribute_group(code),
{
    if code == 1 || code == 2 || (7 <= code && code <= 9) || code == 26 || code == 53 {
        code
    } else if code == 3 || code == 20 {
        3
    } else if code == 4 || code == 21 {
        4
    } else if code == 5 || code == 6 {
        5
    } else if 11 <= code && code <= 19 {
        10
    } else if code == 51 || code == 52 {
        51
    } else if 60 <= code && code <= 64 {
        60
    } else if code == 73 || code == 74 {
        73
    } else {
        0
    }
}

/// The group that the reset `code` ends, with the second group of 22.
pub open spec fn ended_groups(code: u16) -> (u16, u16) {
    if code == 10 {
        (10, 10)
    } else if code == 22 {
        (1, 2)
    } else if code == 23 {
        (3, 3)
    } else if code == 24 {
        (4, 4)
    } else if code == 25 {
        (5, 5)
    } else if code == 27 {
        (7, 7)
    } else if code == 28 {
        (8, 8)
    } else if code == 29 {
        (9, 9)
    } else if code == 50 {
        (26, 26)
    } else if code == 54 {
        (51, 51)
    } else if code == 55 {
        (53, 53)
    } else if code == 65 {
        (60, 60)
    } else if code == 75 {
        (73, 73)
    } else {
        (0, 0)
    }
}

fn groups_ended_by(code: u16) -> (r: (u16, u16))
    ensures
        r == ended_groups(code),
{
    if code == 10 {
        (10, 10)
    } else if code == 22 {
        (1, 2)
    } else if code == 23 {
        (3, 3)
    } else if code == 24 {
        (4, 4)
    } else if code == 25 {
        (5, 5)
    } else if code == 27 {
        (7, 7)
    } else if code == 28 {
        (8, 8)
    } else if code == 29 {
        (9, 9)
    } else if code == 50 {
        (26, 26)
    } else if code == 54 {
        (51, 51)
    } else if code == 55 {
        (53, 53)
    } else if code == 65 {
        (60, 60)
    } else if code == 75 {
        (73, 73)
    } else {
        (0, 0)
    }
}

/// The SGR parameter of an attribute.
pub open spec fn attribute_part(a: SgrAttribute) -> Seq<u8> {
    if a.sub == 0 {
        digits(a.code as nat)
    } else {
        joined_with(seq![digits(a.code as nat), digits(a.sub as nat)], 0x3a)
    }
}

/// A graphic rendition: colors as SGR parameters, and attributes in the order
/// of their codes.
#[verifier::ext_equal]
pub struct SgrState {
    pub fg: Option<Seq<u8>>,
    pub bg: Option<Seq<u8>>,
    pub underline: Option<Seq<u8>>,
    pub attributes: Seq<SgrAttribute>,
}

/// Attributes in strictly ascending order of their codes, at most one of each
/// group.
pub open spec fn ordered(attributes: Seq<SgrAttribute>) -> bool {
    forall|i: int, j: int|
        0 <= i < j < attributes.len() ==> (#[trigger] attributes[i]).code < (
        #[trigger] attributes[j]).code && attribute_group(attributes[i].code) != attribute_group(
            attributes[j].code,
        )
}

pub open spec fn without_group(attributes: Seq<SgrAttribute>, group: u16) -> Seq<SgrAttribute> {
    attributes.filter(|a: SgrAttribute| attribute_group(a.code) != group)
}

pub open spec fn codes_below(attributes: Seq<SgrAttribute>, code: u16) -> Seq<SgrAttribute> {
    attributes.filter(|a: SgrAttribute| a.code < code)
}

pub open spec fn codes_above(attributes: Seq<SgrAttribute>, code: u16) -> Seq<SgrAttribute> {
    attributes.filter(|a: SgrAttribute| a.code > code)
}

/// The attributes with `a` in place of what its group held.
pub open spec fn with_attribute(attributes: Seq<SgrAttribute>, a: SgrAttribute) -> Seq<
    SgrAttribute,
> {
    let rest = without_group(attributes, attribute_group(a.code));
    codes_below(rest, a.code).push(a) + codes_above(rest, a.code)
}

pub open spec fn attribute_parts(attributes: Seq<SgrAttribute>) -> Seq<Seq<u8>> {
    attributes.map_values(|a: SgrAttribute| attribute_part(a))
}

pub open spec fn option_part(part: Option<Seq<u8>>) -> Seq<Seq<u8>> {
    match part {
        Some(p) => seq![p],
        None => Seq::empty(),
    }
}

impl SgrState {
    /// The rendition that a terminal starts with.
    pub open spec fn initial() -> SgrState {
        SgrState { fg: None, bg: None, underline: None, attributes: Seq::empty() }
    }

    pub open spec fn with_color(self, target: u16, color: Seq<u8>) -> SgrState {
        if target == 38 {
            SgrState { fg: Some(color), ..self }
        } else if target == 48 {
            SgrState { bg: Some(color), ..self }
        } else if target == 58 {
            SgrState { underline: Some(color), ..self }
        } else {
            self
        }
    }

    pub open spec fn with_attr(self, a: SgrAttribute) -> SgrState {
        SgrState { attributes: with_attribute(self.attributes, a), ..self }
    }

    pub open spec fn without(self, group: u16) -> SgrState {
        SgrState { attributes: without_group(self.attributes, group), ..self }
    }

    /// The rendition after the plain SGR code `code`.
    pub open spec fn after_code(self, code: u16) -> SgrState {
        if code == 0 {
            SgrState::initial()
        } else if attribute_group(code) != 0 {
            self.with_attr(SgrAttribute { code, sub: 0 })
        } else if ended_groups(code).0 != 0 {
            self.without(ended_groups(code).0).without(ended_groups(code).1)
        } else if 30 <= code <= 37 || 90 <= code <= 97 {
            SgrState { fg: Some(digits(code as nat)), ..self }
        } else if code == 39 {
            SgrState { fg: None, ..self }
        } else if 40 <= code <= 47 || 100 <= code <= 107 {
            SgrState { bg: Some(digits(code as nat)), ..self }
        } else if code == 49 {
            SgrState { bg: None, ..self }
        } else if code == 59 {
            SgrState { underline: None, ..self }
        } else {
            self
        }
    }

    /// The SGR parameters that lead from the initial rendition to this one.
    pub open spec fn parts(self) -> Seq<Seq<u8>> {
        attribute_parts(self.attributes) + option_part(self.fg) + option_part(self.bg)
            + option_part(self.underline)
    }
}

/// The number in an SGR parameter between semicolons; it may have a plus sign.
pub open spec fn sgr_number(s: Seq<u8>) -> Option<u16> {
    if s.len() > 0 && s[0] == 0x2b {
        number(s.subrange(1, s.len() as int))
    } else {
        number(s)
    }
}

/// The number in field `i`, if there is that field.
pub open spec fn field_number(f: Seq<Seq<u8>>, i: int) -> Option<u16> {
    if 0 <= i < f.len() {
        sgr_number(f[i])
    } else {
        None
    }
}

pub open spec fn channel(n: Option<u16>) -> bool {
    n matches Some(v) && v <= 255
}

pub open spec fn at_most(a: int, b: int) -> int {
    if a <= b {
        a
    } else {
        b
    }
}

/// The extended color whose fields begin at `i`, as an SGR parameter, and how
/// many fields it takes.
pub open spec fn semicolon_color(f: Seq<Seq<u8>>, i: int) -> (Option<Seq<u8>>, int) {
    let target = digits(field_number(f, i)->Some_0 as nat);
    match field_number(f, i + 1) {
        Some(kind) => if kind == 5 {
            (
                if channel(field_number(f, i + 2)) {
                    Some(
                        joined_with(
                            seq![target, digits(5), digits(field_number(f, i + 2)->Some_0 as nat)],
                            0x3b,
                        ),
                    )
                } else {
                    None
                },
                at_most(f.len() - i, 3),
            )
        } else if kind == 2 {
            (
                if channel(field_number(f, i + 2)) && channel(field_number(f, i + 3)) && channel(
                    field_number(f, i + 4),
                ) {
                    Some(
                        joined_with(
                            seq![
                                target,
                                digits(2),
                                digits(field_number(f, i + 2)->Some_0 as nat),
                                digits(field_number(f, i + 3)->Some_0 as nat),
                                digits(field_number(f, i + 4)->Some_0 as nat),
                            ],
                            0x3b,
                        ),
                    )
                } else {
                    None
                },
                at_most(f.len() - i, 5),
            )
        } else {
            (None, 2)
        },
        None => (None, 1),
    }
}

/// The number in part `i` of a parameter with colons.
pub open spec fn part_number(p: Seq<Seq<u8>>, i: int) -> Option<u16> {
    if 0 <= i < p.len() {
        number(p[i])
    } else {
        None
    }
}

/// The extended color written with colons, as an SGR parameter.
pub open spec fn colon_color(target: u16, p: Seq<Seq<u8>>) -> Option<Seq<u8>> {
    let t = digits(target as nat);
    if part_number(p, 1) == Some(5u16) && p.len() == 3 && channel(part_number(p, 2)) {
        Some(joined_with(seq![t, digits(5), digits(part_number(p, 2)->Some_0 as nat)], 0x3a))
    } else if part_number(p, 1) == Some(2u16) && p.len() == 5 && channel(part_number(p, 2))
        && channel(part_number(p, 3)) && channel(part_number(p, 4)) {
        Some(
            joined_with(
                seq![
                    t,
                    digits(2),
                    digits(part_number(p, 2)->Some_0 as nat),
                    digits(part_number(p, 3)->Some_0 as nat),
                    digits(part_number(p, 4)->Some_0 as nat),
                ],
                0x3a,
            ),
        )
    } else if part_number(p, 1) == Some(2u16) && p.len() == 6 && (p[2].len() == 0 || part_number(
        p,
        2,
    ) is Some) && channel(part_number(p, 3)) && channel(part_number(p, 4)) && channel(
        part_number(p, 5),
    ) {
        Some(
            joined_with(
                seq![
                    t,
                    digits(2),
                    if p[2].len() == 0 {
                        Seq::empty()
                    } else {
                        digits(part_number(p, 2)->Some_0 as nat)
                    },
                    digits(part_number(p, 3)->Some_0 as nat),
                    digits(part_number(p, 4)->Some_0 as nat),
                    digits(part_number(p, 5)->Some_0 as nat),
                ],
                0x3a,
            ),
        )
    } else {
        None
    }
}

/// The rendition after a parameter with colons.
pub open spec fn after_colon(st: SgrState, p: Seq<Seq<u8>>) -> SgrState {
    match part_number(p, 0) {
        Some(target) => if target == 4 && p.len() == 2 {
            match part_number(p, 1) {
                Some(n) => if n == 0 {
                    st.without(4)
                } else if n <= 5 {
                    st.with_attr(SgrAttribute { code: 4, sub: n as u8 })
                } else {
                    st
                },
                None => st,
            }
        } else if target == 38 || target == 48 || target == 58 {
            match colon_color(target, p) {
                Some(color) => st.with_color(target, color),
                None => st,
            }
        } else {
            st
        },
        None => st,
    }
}

/// The rendition after the SGR parameters from field `i` on.
pub open spec fn after_fields(st: SgrState, f: Seq<Seq<u8>>, i: int) -> SgrState
    decreases f.len() - i,
{
    if !(0 <= i < f.len()) {
        st
    } else if f[i].contains(0x3a) {
        after_fields(after_colon(st, fields(f[i], 0x3a)), f, i + 1)
    } else if f[i].len() == 0 {
        after_fields(st.after_code(0), f, i + 1)
    } else {
        match sgr_number(f[i]) {
            Some(code) => if code == 38 || code == 48 || code == 58 {
                let (color, taken) = semicolon_color(f, i);
                if taken >= 1 {
                    after_fields(
                        match color {
                            Some(color) => st.with_color(code, color),
                            None => st,
                        },
                        f,
                        i + taken,
                    )
                } else {
                    st
                }
            } else {
                after_fields(st.after_code(code), f, i + 1)
            },
            None => after_fields(st, f, i + 1),
        }
    }
}

/// The rendition after the control sequence `s`.
pub open spec fn after_sequence(st: SgrState, s: Seq<u8>) -> SgrState {
    let n = csi_intro(s);
    if n == 0 || s.last() != 0x6d {
        st
    } else if n == s.len() - 1 {
        SgrState::initial()
    } else {
        after_fields(st, fields(s.subrange(n, s.len() - 1), 0x3b), 0)
    }
}

pub proof fn lemma_filter_ordered(attributes: Seq<SgrAttribute>, p: spec_fn(SgrAttribute) -> bool)
    requires
        ordered(attributes),
    ensures
        ordered(attributes.filter(p)),
        forall|k: int|
            0 <= k < attributes.filter(p).len() ==> p(#[trigger] attributes.filter(p)[k])
                && attributes.contains(attributes.filter(p)[k]),
    decreases attributes.len(),
{
    reveal(Seq::filter);
    if attributes.len() > 0 {
        let head = attributes.drop_last();
        let last = attributes.last();
        let kept = head.filter(p);
        let all = attributes.filter(p);
        assert(ordered(head)) by {
            assert forall|i: int, j: int| 0 <= i < j < head.len() implies (
            #[trigger] head[i]).code < (#[trigger] head[j]).code && attribute_group(head[i].code)
                != attribute_group(head[j].code) by {
                assert(head[i] == attributes[i] && head[j] == attributes[j]);
            }
        }
        lemma_filter_ordered(head, p);
        assert forall|k: int| 0 <= k < kept.len() implies attributes.contains(#[trigger] kept[k])
            && kept[k].code < last.code && attribute_group(kept[k].code) != attribute_group(
            last.code,
        ) by {
            let m = choose|m: int| 0 <= m < head.len() && head[m] == kept[k];
            assert(attributes[m] == kept[k]);
            assert(attributes[attributes.len() - 1] == last);
        }
        assert(attributes.contains(last)) by {
            assert(attributes[attributes.len() - 1] == last);
        }
        if p(last) {
            assert(all == kept.push(last));
            assert forall|k: int| 0 <= k < all.len() implies p(#[trigger] all[k])
                && attributes.contains(all[k]) by {
                if k < kept.len() {
                    assert(all[k] == kept[k]);
                }
            }
            assert forall|i: int, j: int| 0 <= i < j < all.len() implies (#[trigger] all[i]).code
                < (#[trigger] all[j]).code && attribute_group(all[i].code) != attribute_group(
                all[j].code,
            ) by {
                assert(all[i] == kept[i]);
                if j < kept.len() {
                    assert(all[j] == kept[j]);
                }
            }
        } else {
            assert(all == kept);
        }
    }
}

pub proof fn lemma_with_attribute_ordered(attributes: Seq<SgrAttribute>, a: SgrAttribute)
    requires
        ordered(attributes),
    ensures
        ordered(with_attribute(attributes, a)),
{
    let group = attribute_group(a.code);
    let rest = without_group(attributes, group);
    let low = codes_below(rest, a.code);
    let high = codes_above(rest, a.code);
    let all = with_attribute(attributes, a);
    lemma_filter_ordered(attributes, |x: SgrAttribute| attribute_group(x.code) != group);
    lemma_filter_ordered(rest, |x: SgrAttribute| x.code < a.code);
    lemma_filter_ordered(rest, |x: SgrAttribute| x.code > a.code);
    assert forall|k: int| 0 <= k < rest.len() implies attribute_group((#[trigger] rest[k]).code)
        != group by {}
    assert forall|k: int| 0 <= k < low.len() implies (#[trigger] low[k]).code < a.code
        && attribute_group(low[k].code) != group && rest.contains(low[k]) by {
        let m = choose|m: int| 0 <= m < rest.len() && rest[m] == low[k];
        assert(attribute_group(rest[m].code) != group);
    }
    assert forall|k: int| 0 <= k < high.len() implies (#[trigger] high[k]).code > a.code
        && attribute_group(high[k].code) != group && rest.contains(high[k]) by {
        let m = choose|m: int| 0 <= m < rest.len() && rest[m] == high[k];
        assert(attribute_group(rest[m].code) != group);
    }
    assert forall|i: int, j: int| 0 <= i < j < all.len() implies (#[trigger] all[i]).code < (
    #[trigger] all[j]).code && attribute_group(all[i].code) != attribute_group(all[j].code) by {
        let n = low.len() as int;
        if j < n {
            assert(all[i] == low[i] && all[j] == low[j]);
        } else if j == n {
            assert(all[i] == low[i] && all[j] == a);
        } else if i == n {
            assert(all[i] == a && all[j] == high[j - n - 1]);
        } else if i > n {
            assert(all[i] == high[i - n - 1] && all[j] == high[j - n - 1]);
        } else {
            assert(all[i] == low[i] && all[j] == high[j - n - 1]);
            let x = choose|x: int| 0 <= x < rest.len() && rest[x] == low[i];
            let y = choose|y: int| 0 <= y < rest.len() && rest[y] == high[j - n - 1];
            if x < y {
                assert(attribute_group(rest[x].code) != attribute_group(rest[y].code));
            } else {
                assert(x == y || rest[y].code < rest[x].code);
            }
        }
    }
}

proof fn lemma_without_ordered(st: SgrState, group: u16)
    requires
        ordered(st.attributes),
    ensures
        ordered(st.without(group).attributes),
{
    lemma_filter_ordered(st.attributes, |x: SgrAttribute| attribute_group(x.code) != group);
}

pub proof fn lemma_code_ordered(st: SgrState, code: u16)
    requires
        ordered(st.attributes),
    ensures
        ordered(st.after_code(code).attributes),
{
    lemma_with_attribute_ordered(st.attributes, SgrAttribute { code, sub: 0 });
    let groups = ended_groups(code);
    lemma_without_ordered(st, groups.0);
    lemma_without_ordered(st.without(groups.0), groups.1);
}

proof fn lemma_colon_ordered(st: SgrState, p: Seq<Seq<u8>>)
    requires
        ordered(st.attributes),
    ensures
        ordered(after_colon(st, p).attributes),
{
    lemma_without_ordered(st, 4);
    if let Some(n) = part_number(p, 1) {
        lemma_with_attribute_ordered(st.attributes, SgrAttribute { code: 4, sub: n as u8 });
    }
}

proof fn lemma_fields_ordered(st: SgrState, f: Seq<Seq<u8>>, i: int)
    requires
        ordered(st.attributes),
    ensures
        ordered(after_fields(st, f, i).attributes),
    decreases f.len() - i,
{
    if 0 <= i < f.len() {
        if f[i].contains(0x3a) {
            lemma_colon_ordered(st, fields(f[i], 0x3a));
            lemma_fields_ordered(after_colon(st, fields(f[i], 0x3a)), f, i + 1);
        } else if f[i].len() == 0 {
            lemma_code_ordered(st, 0);
            lemma_fields_ordered(st.after_code(0), f, i + 1);
        } else {
            match sgr_number(f[i]) {
                Some(code) => if code == 38 || code == 48 || code == 58 {
                    let (color, taken) = semicolon_color(f, i);
                    if taken >= 1 {
                        let next = match color {
                            Some(color) => st.with_color(code, color),
                            None => st,
                        };
                        lemma_fields_ordered(next, f, i + taken);
                    }
                } else {
                    lemma_code_ordered(st, code);
                    lemma_fields_ordered(st.after_code(code), f, i + 1);
                },
                None => lemma_fields_ordered(st, f, i + 1),
            }
        }
    }
}

/// A control sequence leaves the attributes of a rendition in order, with at
/// most one of each group.
pub proof fn renditions_stay_ordered(st: SgrState, s: Seq<u8>)
    requires
        ordered(st.attributes),
    ensures
        ordered(after_sequence(st, s).attributes),
{
    let n = csi_intro(s);
    if !(n == 0 || s.last() != 0x6d) && n != s.len() - 1 {
        lemma_fields_ordered(st, fields(s.subrange(n, s.len() - 1), 0x3b), 0);
    }
}

/// Graphic rendition of the program behind the terminal.
#[derive(Clone, Debug)]
pub struct NativeSgrState {
    pub foreground: Option<Vec<u8>>,
    pub background: Option<Vec<u8>>,
    pub underline_color: Option<Vec<u8>>,
    pub attributes: Vec<SgrAttribute>,
}

pub open spec fn option_view(v: Option<Vec<u8>>) -> Option<Seq<u8>> {
    match v {
        Some(bytes) => Some(bytes@),
        None => None,
    }
}

impl View for NativeSgrState {
    type V = SgrState;

    open spec fn view(&self) -> SgrState {
        SgrState {
            fg: option_view(self.foreground),
            bg: option_view(self.background),
            underline: option_view(self.underline_color),
            attributes: self.attributes@,
        }
    }
}

fn copy_option(v: &Option<Vec<u8>>) -> (r: Option<Vec<u8>>)
    ensures
        option_view(r) == option_view(*v),
{
    match v {
        Some(bytes) => Some(vstd::slice::slice_to_vec(bytes.as_slice())),
        None => None,
    }
}

fn push_part(parts: &mut Vec<Vec<u8>>, part: &Option<Vec<u8>>)
    ensures
        vec_views(final(parts)@) == vec_views(old(parts)@) + option_part(option_view(*part)),
{
    let ghost before = vec_views(parts@);
    if let Some(bytes) = part {
        parts.push(vstd::slice::slice_to_vec(bytes.as_slice()));
    }
    assert(vec_views(parts@) =~= before + option_part(option_view(*part)));
}

fn push_number(parts: &mut Vec<Vec<u8>>, n: u16)
    ensures
        vec_views(final(parts)@) == vec_views(old(parts)@).push(digits(n as nat)),
{
    let ghost before = vec_views(parts@);
    parts.push(digit_bytes(n));
    assert(vec_views(parts@) =~= before.push(digits(n as nat)));
}

fn attribute_bytes(a: SgrAttribute) -> (r: Vec<u8>)
    ensures
        r@ == attribute_part(a),
{
    if a.sub == 0 {
        digit_bytes(a.code)
    } else {
        let mut parts: Vec<Vec<u8>> = Vec::new();
        push_number(&mut parts, a.code);
        push_number(&mut parts, a.sub as u16);
        assert(vec_views(parts@) =~= seq![digits(a.code as nat), digits(a.sub as nat)]);
        join_with(&parts, 0x3a)
    }
}

fn parse_sgr_number(parameter: &[u8]) -> (r: Option<u16>)
    ensures
        r == sgr_number(parameter@),
{
    if parameter.len() > 0 && parameter[0] == 0x2b {
        parse_number(vstd::slice::slice_subrange(parameter, 1, parameter.len()))
    } else {
        parse_number(parameter)
    }
}

fn number_of_field(parameters: &Vec<Vec<u8>>, i: usize) -> (r: Option<u16>)
    ensures
        r == field_number(byte_views(parameters@), i as int),
{
    if i < parameters.len() {
        assert(byte_views(parameters@)[i as int] == parameters@[i as int]@);
        parse_sgr_number(parameters[i].as_slice())
    } else {
        None
    }
}

fn number_of_part(parts: &Vec<Vec<u8>>, i: usize) -> (r: Option<u16>)
    ensures
        r == part_number(byte_views(parts@), i as int),
{
    if i < parts.len() {
        assert(byte_views(parts@)[i as int] == parts@[i as int]@);
        parse_number(parts[i].as_slice())
    } else {
        None
    }
}

fn is_channel(n: Option<u16>) -> (r: bool)
    ensures
        r == channel(n),
{
    match n {
        Some(v) => v <= 255,
        None => false,
    }
}

fn join3(a: u16, b: u16, c: u16, sep: u8) -> (r: Vec<u8>)
    ensures
        r@ == joined_with(seq![digits(a as nat), digits(b as nat), digits(c as nat)], sep),
{
    let mut parts: Vec<Vec<u8>> = Vec::new();
    push_number(&mut parts, a);
    push_number(&mut parts, b);
    push_number(&mut parts, c);
    assert(vec_views(parts@) =~= seq![digits(a as nat), digits(b as nat), digits(c as nat)]);
    join_with(&parts, sep)
}

fn join5(a: u16, b: u16, c: u16, d: u16, e: u16, sep: u8) -> (r: Vec<u8>)
    ensures
        r@ == joined_with(
            seq![
                digits(a as nat),
                digits(b as nat),
                digits(c as nat),
                digits(d as nat),
                digits(e as nat),
            ],
            sep,
        ),
{
    let mut parts: Vec<Vec<u8>> = Vec::new();
    push_number(&mut parts, a);
    push_number(&mut parts, b);
    push_number(&mut parts, c);
    push_number(&mut parts, d);
    push_number(&mut parts, e);
    assert(vec_views(parts@) =~= seq![
        digits(a as nat),
        digits(b as nat),
        digits(c as nat),
        digits(d as nat),
        digits(e as nat),
    ]);
    join_with(&parts, sep)
}

fn parse_semicolon_extended_color(parameters: &Vec<Vec<u8>>, i: usize, target: u16) -> (r: (
    Option<Vec<u8>>,
    usize,
))
    requires
        i < parameters@.len(),
        field_number(byte_views(parameters@), i as int) == Some(target),
    ensures
        option_view(r.0) == semicolon_color(byte_views(parameters@), i as int).0,
        r.1 == semicolon_color(byte_views(parameters@), i as int).1,
        r.1 >= 1,
        i + r.1 <= parameters@.len(),
{
    let len = parameters.len();
    let rest: usize = len - i;
    if rest < 2 {
        return (None, 1);
    }
    match number_of_field(parameters, i + 1) {
        Some(kind) => if kind == 5 {
            let taken: usize = if rest < 3 {
                rest
            } else {
                3
            };
            if rest < 3 {
                return (None, taken);
            }
            let color = number_of_field(parameters, i + 2);
            if !is_channel(color) {
                return (None, taken);
            }
            (Some(join3(target, 5, color.unwrap(), 0x3b)), taken)
        } else if kind == 2 {
            let taken: usize = if rest < 5 {
                rest
            } else {
                5
            };
            if rest < 5 {
                return (None, taken);
            }
            let red = number_of_field(parameters, i + 2);
            let green = number_of_field(parameters, i + 3);
            let blue = number_of_field(parameters, i + 4);
            if !is_channel(red) || !is_channel(green) || !is_channel(blue) {
                return (None, taken);
            }
            (Some(join5(target, 2, red.unwrap(), green.unwrap(), blue.unwrap(), 0x3b)), taken)
        } else {
            (None, 2)
        },
        None => (None, 1),
    }
}

fn canonical_colon_color(target: u16, parts: &Vec<Vec<u8>>) -> (r: Option<Vec<u8>>)
    ensures
        option_view(r) == colon_color(target, byte_views(parts@)),
{
    let ghost p = byte_views(parts@);
    let mode = match number_of_part(parts, 1) {
        Some(mode) => mode,
        None => return None,
    };
    let len = parts.len();
    if mode == 5 && len == 3 {
        let color = number_of_part(parts, 2);
        if !is_channel(color) {
            return None;
        }
        return Some(join3(target, 5, color.unwrap(), 0x3a));
    }
    if mode == 2 && len == 5 {
        let red = number_of_part(parts, 2);
        let green = number_of_part(parts, 3);
        let blue = number_of_part(parts, 4);
        if !is_channel(red) || !is_channel(green) || !is_channel(blue) {
            return None;
        }
        return Some(join5(target, 2, red.unwrap(), green.unwrap(), blue.unwrap(), 0x3a));
    }
    if mode == 2 && len == 6 {
        assert(p[2] == parts@[2]@);
        let space = number_of_part(parts, 2);
        let red = number_of_part(parts, 3);
        let green = number_of_part(parts, 4);
        let blue = number_of_part(parts, 5);
        if (parts[2].len() != 0 && space.is_none()) || !is_channel(red) || !is_channel(green)
            || !is_channel(blue) {
            return None;
        }
        let mut out: Vec<Vec<u8>> = Vec::new();
        push_number(&mut out, target);
        push_number(&mut out, 2);
        if parts[2].len() == 0 {
            let empty: Vec<u8> = Vec::new();
            let ghost before = vec_views(out@);
            assert(empty@ =~= Seq::<u8>::empty());
            out.push(empty);
            assert(vec_views(out@) =~= before.push(Seq::<u8>::empty()));
        } else {
            push_number(&mut out, space.unwrap());
        }
        push_number(&mut out, red.unwrap());
        push_number(&mut out, green.unwrap());
        push_number(&mut out, blue.unwrap());
        assert(vec_views(out@) =~= seq![
            digits(target as nat),
            digits(2),
            if p[2].len() == 0 {
                Seq::empty()
            } else {
                digits(part_number(p, 2)->Some_0 as nat)
            },
            digits(part_number(p, 3)->Some_0 as nat),
            digits(part_number(p, 4)->Some_0 as nat),
            digits(part_number(p, 5)->Some_0 as nat),
        ]);
        return Some(join_with(&out, 0x3a));
    }
    None
}

fn has_colon(bytes: &[u8]) -> (r: bool)
    ensures
        r == bytes@.contains(0x3a),
{
    let mut i: usize = 0;
    while i < bytes.len()
        invariant
            i <= bytes@.len(),
            forall|k: int| 0 <= k < i ==> bytes@[k] != 0x3a,
        decreases bytes@.len() - i,
    {
        if bytes[i] == 0x3a {
            assert(bytes@[i as int] == 0x3a);
            return true;
        }
        i = i + 1;
    }
    false
}

proof fn lemma_filter_step(s: Seq<SgrAttribute>, i: int, p: spec_fn(SgrAttribute) -> bool)
    requires
        0 <= i < s.len(),
    ensures
        s.take(i + 1).filter(p) == (if p(s[i]) {
            s.take(i).filter(p).push(s[i])
        } else {
            s.take(i).filter(p)
        }),
{
    reveal(Seq::filter);
    assert(s.take(i + 1).drop_last() =~= s.take(i));
}

impl NativeSgrState {
    pub fn new() -> (r: Self)
        ensures
            r@ == SgrState::initial(),
    {
        let r = NativeSgrState {
            foreground: None,
            background: None,
            underline_color: None,
            attributes: Vec::new(),
        };
        assert(r@ =~= SgrState::initial());
        r
    }

    /// A copy of the state.
    pub fn duplicate(&self) -> (r: Self)
        ensures
            r@ == self@,
    {
        let r = NativeSgrState {
            foreground: copy_option(&self.foreground),
            background: copy_option(&self.background),
            underline_color: copy_option(&self.underline_color),
            attributes: vstd::slice::slice_to_vec(self.attributes.as_slice()),
        };
        assert(r@ =~= self@);
        r
    }

    fn reset_all(&mut self)
        ensures
            final(self)@ == SgrState::initial(),
    {
        *self = NativeSgrState::new();
    }

    fn remove_attributes(&mut self, group: u16)
        ensures
            final(self)@ == old(self)@.without(group),
    {
        let ghost p = |a: SgrAttribute| attribute_group(a.code) != group;
        let mut kept: Vec<SgrAttribute> = Vec::new();
        let mut i: usize = 0;
        let ghost before = self@;
        assert(self.attributes@.take(0).filter(p) =~= Seq::<SgrAttribute>::empty()) by {
            reveal(Seq::filter);
        }
        while i < self.attributes.len()
            invariant
                i <= self.attributes@.len(),
                self@ == before,
                p == (|a: SgrAttribute| attribute_group(a.code) != group),
                kept@ == self.attributes@.take(i as int).filter(p),
            decreases self.attributes@.len() - i,
        {
            proof {
                lemma_filter_step(self.attributes@, i as int, p);
            }
            let a = self.attributes[i];
            if group_of(a.code) != group {
                kept.push(a);
            }
            i = i + 1;
        }
        assert(self.attributes@.take(i as int) =~= self.attributes@);
        self.attributes = kept;
        assert(self@ =~= before.without(group));
    }

    fn set_attribute(&mut self, a: SgrAttribute)
        ensures
            final(self)@ == old(self)@.with_attr(a),
    {
        let ghost before = self@;
        self.remove_attributes(group_of(a.code));
        let ghost rest = self.attributes@;
        let ghost low = |x: SgrAttribute| x.code < a.code;
        let ghost high = |x: SgrAttribute| x.code > a.code;
        let mut below: Vec<SgrAttribute> = Vec::new();
        let mut above: Vec<SgrAttribute> = Vec::new();
        let mut i: usize = 0;
        assert(rest.take(0).filter(low) =~= Seq::<SgrAttribute>::empty()
            && rest.take(0).filter(high) =~= Seq::<SgrAttribute>::empty()) by {
            reveal(Seq::filter);
        }
        while i < self.attributes.len()
            invariant
                i <= rest.len(),
                rest == self.attributes@,
                self@.fg == before.fg,
                self@.bg == before.bg,
                self@.underline == before.underline,
                low == (|x: SgrAttribute| x.code < a.code),
                high == (|x: SgrAttribute| x.code > a.code),
                below@ == rest.take(i as int).filter(low),
                above@ == rest.take(i as int).filter(high),
            decreases rest.len() - i,
        {
            proof {
                lemma_filter_step(rest, i as int, low);
                lemma_filter_step(rest, i as int, high);
            }
            let x = self.attributes[i];
            if x.code < a.code {
                below.push(x);
            }
            if x.code > a.code {
                above.push(x);
            }
            i = i + 1;
        }
        assert(rest.take(i as int) =~= rest);
        below.push(a);
        below.append(&mut above);
        self.attributes = below;
        assert(self@ =~= before.with_attr(a));
    }

    fn set_color(&mut self, target: u16, color: Vec<u8>)
        ensures
            final(self)@ == old(self)@.with_color(target, color@),
    {
        let ghost before = self@;
        if target == 38 {
            self.foreground = Some(color);
        } else if target == 48 {
            self.background = Some(color);
        } else if target == 58 {
            self.underline_color = Some(color);
        }
        assert(self@ =~= before.with_color(target, color@));
    }

    fn apply_plain_code(&mut self, code: u16)
        ensures
            final(self)@ == old(self)@.after_code(code),
    {
        let ghost before = self@;
        if code == 0 {
            self.reset_all();
        } else if group_of(code) != 0 {
            self.set_attribute(SgrAttribute { code, sub: 0 });
        } else if groups_ended_by(code).0 != 0 {
            let (first, second) = groups_ended_by(code);
            self.remove_attributes(first);
            self.remove_attributes(second);
        } else if (30 <= code && code <= 37) || (90 <= code && code <= 97) {
            self.foreground = Some(digit_bytes(code));
        } else if code == 39 {
            self.foreground = None;
        } else if (40 <= code && code <= 47) || (100 <= code && code <= 107) {
            self.background = Some(digit_bytes(code));
        } else if code == 49 {
            self.background = None;
        } else if code == 59 {
            self.underline_color = None;
        }
        assert(self@ =~= before.after_code(code));
    }

    fn apply_colon_parameter(&mut self, parameter: &[u8])
        ensures
            final(self)@ == after_colon(old(self)@, fields(parameter@, 0x3a)),
    {
        let parts = split_fields(parameter, 0x3a);
        let target = match number_of_part(&parts, 0) {
            Some(target) => target,
            None => return,
        };
        if target == 4 && parts.len() == 2 {
            if let Some(n) = number_of_part(&parts, 1) {
                if n == 0 {
                    self.remove_attributes(4);
                } else if n <= 5 {
                    self.set_attribute(SgrAttribute { code: 4, sub: n as u8 });
                }
            }
        } else if target == 38 || target == 48 || target == 58 {
            if let Some(color) = canonical_colon_color(target, &parts) {
                self.set_color(target, color);
            }
        }
    }

    /// Takes note of a control sequence of the program.
    pub fn apply_sequence(&mut self, bytes: &[u8])
        ensures
            final(self)@ == after_sequence(old(self)@, bytes@),
    {
        let body_start = match csi_introducer_len(bytes) {
            Some(n) => n,
            None => return,
        };
        let len = bytes.len();
        if bytes[len - 1] != 0x6d {
            return;
        }
        assert(body_start < len) by {
            assert(bytes@.subrange(0, body_start as int).last() == bytes@[body_start - 1]);
            assert(seq![0x1bu8, 0x5bu8].last() == 0x5b);
            assert(seq![0xc2u8, 0x9bu8].last() == 0x9b);
            assert(seq![0x9bu8].last() == 0x9b);
        }
        if body_start == len - 1 {
            self.reset_all();
            return;
        }
        let parameters = split_fields(
            vstd::slice::slice_subrange(bytes, body_start, len - 1),
            0x3b,
        );
        let ghost f = fields(bytes@.subrange(body_start as int, len - 1), 0x3b);
        let mut idx: usize = 0;
        while idx < parameters.len()
            invariant
                idx <= parameters@.len(),
                byte_views(parameters@) == f,
                after_fields(old(self)@, f, 0) == after_fields(self@, f, idx as int),
            decreases parameters@.len() - idx,
        {
            assert(f[idx as int] == parameters@[idx as int]@);
            let parameter = parameters[idx].as_slice();
            if has_colon(parameter) {
                self.apply_colon_parameter(parameter);
                idx = idx + 1;
                continue;
            }
            if parameter.len() == 0 {
                self.apply_plain_code(0);
                idx = idx + 1;
                continue;
            }
            match parse_sgr_number(parameter) {
                Some(code) => {
                    if code == 38 || code == 48 || code == 58 {
                        let (color, taken) = parse_semicolon_extended_color(
                            &parameters,
                            idx,
                            code,
                        );
                        if let Some(color) = color {
                            self.set_color(code, color);
                        }
                        idx = idx + taken;
                    } else {
                        self.apply_plain_code(code);
                        idx = idx + 1;
                    }
                },
                None => {
                    idx = idx + 1;
                },
            }
        }
    }

    /// The SGR sequence that leads from the initial rendition to this one;
    /// nothing where this is the initial rendition.
    pub fn ansi_start(&self) -> (r: Option<Vec<u8>>)
        ensures
            match r {
                Some(bytes) => self@.parts().len() > 0 && bytes@ == sgr(self@.parts()),
                None => self@.parts().len() == 0,
            },
    {
        let mut parts: Vec<Vec<u8>> = Vec::new();
        let mut i: usize = 0;
        while i < self.attributes.len()
            invariant
                i <= self.attributes@.len(),
                vec_views(parts@) == attribute_parts(self.attributes@.take(i as int)),
            decreases self.attributes@.len() - i,
        {
            let ghost before = vec_views(parts@);
            parts.push(attribute_bytes(self.attributes[i]));
            assert(vec_views(parts@) =~= before.push(attribute_part(self.attributes@[i as int])));
            assert(attribute_parts(self.attributes@.take(i + 1)) =~= before.push(
                attribute_part(self.attributes@[i as int]),
            ));
            i = i + 1;
        }
        assert(self.attributes@.take(i as int) =~= self.attributes@);
        push_part(&mut parts, &self.foreground);
        push_part(&mut parts, &self.background);
        push_part(&mut parts, &self.underline_color);
        assert(vec_views(parts@).len() == parts@.len());
        if parts.len() == 0 {
            return None;
        }
        Some(sgr_bytes(&parts))
    }
}

/// The attribute that a group holds, as SGR parameters: none or one.
pub open spec fn group_parts(attributes: Seq<SgrAttribute>, group: u16) -> Seq<Seq<u8>> {
    attribute_parts(attributes.filter(|a: SgrAttribute| attribute_group(a.code) == group))
}

/// SGR parameters that end the attribute of `style` with reset code `code`
/// and put back what the groups `first` and `second` held.
pub open spec fn restored_group(st: SgrState, on: bool, code: nat, first: u16, second: u16) -> Seq<
    Seq<u8>,
> {
    if !on {
        Seq::empty()
    } else if first == second {
        seq![digits(code)] + group_parts(st.attributes, first)
    } else {
        seq![digits(code)] + group_parts(st.attributes, first) + group_parts(
            st.attributes,
            second,
        )
    }
}

/// SGR parameter that puts back a color, or the default color `code`.
pub open spec fn restored_color(on: bool, color: Option<Seq<u8>>, code: nat) -> Seq<Seq<u8>> {
    if !on {
        Seq::empty()
    } else {
        match color {
            Some(c) => seq![c],
            None => seq![digits(code)],
        }
    }
}

/// The SGR parameters that take back only what `style` set.
pub open spec fn restore_parts(st: SgrState, style: Style) -> Seq<Seq<u8>> {
    restored_group(st, style.bold, 22, 1, 2) + restored_group(st, style.italic, 23, 3, 3)
        + restored_group(st, style.underline, 24, 4, 4) + restored_group(st, style.blink, 25, 5, 5)
        + restored_group(st, style.invert, 27, 7, 7) + restored_group(st, style.strike, 29, 9, 9)
        + restored_color(style.foreground is Some, st.fg, 39) + restored_color(
        style.background is Some,
        st.bg,
        49,
    )
}

/// What takes back only what `style` set: one SGR sequence, or nothing.
pub open spec fn restore_bytes(st: SgrState, style: Style) -> Seq<u8> {
    if restore_parts(st, style).len() == 0 {
        Seq::empty()
    } else {
        sgr(restore_parts(st, style))
    }
}

impl NativeSgrState {
    fn push_group(&self, parts: &mut Vec<Vec<u8>>, group: u16)
        ensures
            vec_views(final(parts)@) == vec_views(old(parts)@) + group_parts(
                self@.attributes,
                group,
            ),
    {
        let ghost p = |a: SgrAttribute| attribute_group(a.code) == group;
        let ghost before = vec_views(parts@);
        let mut i: usize = 0;
        assert(attribute_parts(self.attributes@.take(0).filter(p)) =~= Seq::<Seq<u8>>::empty())
            by {
            reveal(Seq::filter);
        }
        assert(vec_views(parts@) =~= before + attribute_parts(
            self.attributes@.take(0).filter(p),
        ));
        while i < self.attributes.len()
            invariant
                i <= self.attributes@.len(),
                p == (|a: SgrAttribute| attribute_group(a.code) == group),
                vec_views(parts@) == before + attribute_parts(
                    self.attributes@.take(i as int).filter(p),
                ),
            decreases self.attributes@.len() - i,
        {
            proof {
                lemma_filter_step(self.attributes@, i as int, p);
            }
            let a = self.attributes[i];
            let ghost f = self.attributes@.take(i as int).filter(p);
            if group_of(a.code) == group {
                let ghost now = vec_views(parts@);
                parts.push(attribute_bytes(a));
                assert(vec_views(parts@) =~= now.push(attribute_part(a)));
                assert(attribute_parts(f.push(a)) =~= attribute_parts(f).push(attribute_part(a)));
                assert(vec_views(parts@) =~= before + attribute_parts(f.push(a)));
            }
            i = i + 1;
        }
        assert(self.attributes@.take(i as int) =~= self.attributes@);
    }

    fn restore_attribute_group(
        &self,
        parts: &mut Vec<Vec<u8>>,
        on: bool,
        reset: u16,
        first: u16,
        second: u16,
    )
        ensures
            vec_views(final(parts)@) == vec_views(old(parts)@) + restored_group(
                self@,
                on,
                reset as nat,
                first,
                second,
            ),
    {
        let ghost before = vec_views(parts@);
        if on {
            push_number(parts, reset);
            self.push_group(parts, first);
            if first != second {
                self.push_group(parts, second);
            }
        }
        assert(vec_views(parts@) =~= before + restored_group(
            self@,
            on,
            reset as nat,
            first,
            second,
        ));
    }

    /// What takes back only what `style` set, and leaves the rest of the
    /// rendition alone.
    pub fn restore_after_interactive_style(&self, style: &Style) -> (r: Vec<u8>)
        ensures
            r@ == restore_bytes(self@, *style),
    {
        let mut parts: Vec<Vec<u8>> = Vec::new();
        assert(vec_views(parts@) =~= Seq::<Seq<u8>>::empty());
        self.restore_attribute_group(&mut parts, style.bold, 22, 1, 2);
        assert(vec_views(parts@) =~= restored_group(self@, style.bold, 22, 1, 2));
        self.restore_attribute_group(&mut parts, style.italic, 23, 3, 3);
        self.restore_attribute_group(&mut parts, style.underline, 24, 4, 4);
        self.restore_attribute_group(&mut parts, style.blink, 25, 5, 5);
        self.restore_attribute_group(&mut parts, style.invert, 27, 7, 7);
        self.restore_attribute_group(&mut parts, style.strike, 29, 9, 9);
        push_restored_color(&mut parts, style.foreground.is_some(), &self.foreground, 39);
        push_restored_color(&mut parts, style.background.is_some(), &self.background, 49);
        assert(vec_views(parts@).len() == parts@.len());
        if parts.len() == 0 {
            let none: Vec<u8> = Vec::new();
            assert(none@ =~= Seq::<u8>::empty());
            return none;
        }
        sgr_bytes(&parts)
    }
}

fn push_restored_color(parts: &mut Vec<Vec<u8>>, on: bool, color: &Option<Vec<u8>>, reset: u16)
    ensures
        vec_views(final(parts)@) == vec_views(old(parts)@) + restored_color(
            on,
            option_view(*color),
            reset as nat,
        ),
{
    let ghost before = vec_views(parts@);
    if on {
        if color.is_some() {
            push_part(parts, color);
        } else {
            push_number(parts, reset);
        }
    }
    assert(vec_views(parts@) =~= before + restored_color(on, option_view(*color), reset as nat));
}

} // verus!
