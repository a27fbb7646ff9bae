//! Small helpers on byte strings.

use vstd::prelude::*;

verus! {

/// Bytes that ASCII counts as white space: tab, line feed, form feed,
/// carriage return and space.
pub open spec fn ascii_whitespace(b: u8) -> bool {
    b == 0x20 || b == 0x09 || b == 0x0a || b == 0x0c || b == 0x0d
}

pub open spec fn ascii_digit(b: u8) -> bool {
    0x30 <= b <= 0x39
}

pub open spec fn ascii_upper(b: u8) -> bool {
    0x41 <= b <= 0x5a
}

pub open spec fn ascii_lower(b: u8) -> bool {
    0x61 <= b <= 0x7a
}

pub open spec fn ascii_alphanumeric(b: u8) -> bool {
    ascii_digit(b) || ascii_upper(b) || ascii_lower(b)
}

/// Printable ASCII without the space.
pub open spec fn ascii_graphic(b: u8) -> bool {
    0x21 <= b <= 0x7e
}

/// The byte with an ASCII capital mapped to its small letter.
pub open spec fn lower(b: u8) -> u8 {
    if ascii_upper(b) {
        (b + 32) as u8
    } else {
        b
    }
}

pub fn is_ascii_whitespace(b: u8) -> (r: bool)
    ensures
        r == ascii_whitespace(b),
{
    b == 0x20 || b == 0x09 || b == 0x0a || b == 0x0c || b == 0x0d
}

pub fn is_ascii_digit(b: u8) -> (r: bool)
    ensures
        r == ascii_digit(b),
{
    0x30 <= b && b <= 0x39
}

pub fn is_ascii_alphanumeric(b: u8) -> (r: bool)
    ensures
        r == ascii_alphanumeric(b),
{
    (0x30 <= b && b <= 0x39) || (0x41 <= b && b <= 0x5a) || (0x61 <= b && b <= 0x7a)
}

pub fn is_ascii_graphic(b: u8) -> (r: bool)
    ensures
        r == ascii_graphic(b),
{
    0x21 <= b && b <= 0x7e
}

pub fn to_lower(b: u8) -> (r: u8)
    ensures
        r == lower(b),
{
    if 0x41 <= b && b <= 0x5a {
        b + 32
    } else {
        b
    }
}

/// Appends `part` to `out`.
pub fn push_all(out: &mut Vec<u8>, part: &[u8])
    ensures
        final(out)@ == old(out)@ + part@,
{
    let ghost before = out@;
    out.extend_from_slice(part);
    assert(out@ =~= before + part@);
}

/// A copy of `bytes[from..to]`.
pub fn copy_range(bytes: &[u8], from: usize, to: usize) -> (r: Vec<u8>)
    requires
        from <= to <= bytes@.len(),
    ensures
        r@ == bytes@.subrange(from as int, to as int),
{
    vstd::slice::slice_to_vec(vstd::slice::slice_subrange(bytes, from, to))
}

/// Whether the two byte strings are the same.
pub fn same_bytes(a: &[u8], b: &[u8]) -> (r: bool)
    ensures
        r == (a@ == b@),
{
    if a.len() != b.len() {
        return false;
    }
    let mut i: usize = 0;
    while i < a.len()
        invariant
            i <= a@.len(),
            a@.len() == b@.len(),
            forall|k: int| 0 <= k < i ==> a@[k] == b@[k],
        decreases a@.len() - i,
    {
        if a[i] != b[i] {
            assert(a@[i as int] != b@[i as int]);
            return false;
        }
        i = i + 1;
    }
    assert(a@ =~= b@);
    true
}

pub open spec fn starts_with(s: Seq<u8>, prefix: Seq<u8>) -> bool {
    prefix.len() <= s.len() && s.subrange(0, prefix.len() as int) == prefix
}

pub open spec fn ends_with(s: Seq<u8>, suffix: Seq<u8>) -> bool {
    suffix.len() <= s.len() && s.subrange(s.len() - suffix.len(), s.len() as int) == suffix
}

pub fn has_prefix(s: &[u8], prefix: &[u8]) -> (r: bool)
    ensures
        r == starts_with(s@, prefix@),
{
    if prefix.len() > s.len() {
        return false;
    }
    same_bytes(vstd::slice::slice_subrange(s, 0, prefix.len()), prefix)
}

pub fn has_suffix(s: &[u8], suffix: &[u8]) -> (r: bool)
    ensures
        r == ends_with(s@, suffix@),
{
    if suffix.len() > s.len() {
        return false;
    }
    same_bytes(vstd::slice::slice_subrange(s, s.len() - suffix.len(), s.len()), suffix)
}

/// The decimal digits of `n`.
pub open spec fn digits(n: nat) -> Seq<u8>
    decreases n,
{
    if n < 10 {
        seq![(0x30 + n) as u8]
    } else {
        digits(n / 10).push((0x30 + n % 10) as u8)
    }
}

pub fn digit_bytes(n: u16) -> (r: Vec<u8>)
    ensures
        r@ == digits(n as nat),
    decreases n,
{
    if n < 10 {
        let mut out: Vec<u8> = Vec::new();
        out.push(0x30 + n as u8);
        assert(out@ =~= digits(n as nat));
        out
    } else {
        let mut out = digit_bytes(n / 10);
        out.push(0x30 + (n % 10) as u8);
        out
    }
}

/// The parts, with `sep` between each two.
pub open spec fn joined_with(parts: Seq<Seq<u8>>, sep: u8) -> Seq<u8>
    decreases parts.len(),
{
    if parts.len() == 0 {
        Seq::empty()
    } else if parts.len() == 1 {
        parts[0]
    } else {
        joined_with(parts.drop_last(), sep).push(sep) + parts.last()
    }
}

pub open spec fn vec_views(parts: Seq<Vec<u8>>) -> Seq<Seq<u8>> {
    parts.map_values(|p: Vec<u8>| p@)
}

pub fn join_with(parts: &Vec<Vec<u8>>, sep: u8) -> (r: Vec<u8>)
    ensures
        r@ == joined_with(vec_views(parts@), sep),
{
    let mut out: Vec<u8> = Vec::new();
    let mut i: usize = 0;
    let ghost views = vec_views(parts@);
    while i < parts.len()
        invariant
            i <= parts@.len(),
            views == vec_views(parts@),
            out@ == joined_with(views.take(i as int), sep),
        decreases parts@.len() - i,
    {
        assert(views.take(i + 1).drop_last() =~= views.take(i as int));
        if i > 0 {
            out.push(sep);
        }
        push_all(&mut out, parts[i].as_slice());
        assert(out@ =~= joined_with(views.take(i + 1), sep));
        i = i + 1;
    }
    assert(views.take(i as int) =~= views);
    out
}

/// The value of a string of decimal digits.
pub open spec fn digits_value(s: Seq<u8>) -> nat
    decreases s.len(),
{
    if s.len() == 0 {
        0
    } else {
        digits_value(s.drop_last()) * 10 + (s.last() - 0x30) as nat
    }
}

pub open spec fn all_digits(s: Seq<u8>) -> bool {
    forall|k: int| 0 <= k < s.len() ==> ascii_digit(#[trigger] s[k])
}

/// The number that `s`, one or more decimal digits, stands for, if it fits in
/// 16 bits.
pub open spec fn number(s: Seq<u8>) -> Option<u16> {
    if s.len() > 0 && all_digits(s) && digits_value(s) <= 0xffff {
        Some(digits_value(s) as u16)
    } else {
        None
    }
}

proof fn lemma_digits_value_grows(s: Seq<u8>, i: int)
    requires
        0 <= i <= s.len(),
        all_digits(s),
    ensures
        digits_value(s.take(i)) <= digits_value(s),
    decreases s.len() - i,
{
    if i == s.len() {
        assert(s.take(i) =~= s);
    } else {
        assert(s.take(i + 1).drop_last() =~= s.take(i));
        lemma_digits_value_grows(s, i + 1);
    }
}

pub fn parse_number(s: &[u8]) -> (r: Option<u16>)
    ensures
        r == number(s@),
{
    if s.len() == 0 {
        return None;
    }
    let mut k: usize = 0;
    while k < s.len()
        invariant
            k <= s@.len(),
            forall|j: int| 0 <= j < k ==> ascii_digit(#[trigger] s@[j]),
        decreases s@.len() - k,
    {
        if !is_ascii_digit(s[k]) {
            assert(!ascii_digit(s@[k as int]));
            return None;
        }
        k = k + 1;
    }
    let mut value: u32 = 0;
    let mut i: usize = 0;
    assert(s@.take(0) =~= Seq::<u8>::empty());
    while i < s.len()
        invariant
            i <= s@.len(),
            all_digits(s@),
            value == digits_value(s@.take(i as int)),
            value <= 0xffff,
        decreases s@.len() - i,
    {
        assert(s@.take(i + 1).drop_last() =~= s@.take(i as int));
        assert(ascii_digit(s@[i as int]));
        value = value * 10 + (s[i] - 0x30) as u32;
        if value > 0xffff {
            proof {
                lemma_digits_value_grows(s@, i + 1);
            }
            return None;
        }
        i = i + 1;
    }
    assert(s@.take(i as int) =~= s@);
    Some(value as u16)
}

pub proof fn lemma_digits(n: nat)
    ensures
        digits(n).len() >= 1,
        all_digits(digits(n)),
        digits_value(digits(n)) == n,
    decreases n,
{
    if n < 10 {
        let d = digits(n);
        assert(d.drop_last() =~= Seq::<u8>::empty());
        reveal_with_fuel(digits_value, 2);
    } else {
        lemma_digits(n / 10);
        let d = digits(n);
        assert(d.drop_last() =~= digits(n / 10));
        assert(digits_value(d) == digits_value(digits(n / 10)) * 10 + (d.last() - 0x30) as nat);
    }
}

/// Writing a number and reading it again gives that number.
pub proof fn digits_read_back(n: u16)
    ensures
        number(digits(n as nat)) == Some(n),
{
    lemma_digits(n as nat);
}

/// `b` has the bytes of `a` at the offsets `at`, which ascend.
pub open spec fn found_at(a: Seq<u8>, b: Seq<u8>, at: Seq<int>) -> bool {
    &&& at.len() == a.len()
    &&& forall|i: int| 0 <= i < at.len() ==> 0 <= #[trigger] at[i] < b.len() && b[at[i]] == a[i]
    &&& forall|i: int, j: int| 0 <= i < j < at.len() ==> #[trigger] at[i] < #[trigger] at[j]
}

/// `b` holds the bytes of `a`, in order.
pub open spec fn subsequence(a: Seq<u8>, b: Seq<u8>) -> bool {
    exists|at: Seq<int>| #[trigger] found_at(a, b, at)
}

pub proof fn lemma_subsequence_self(a: Seq<u8>)
    ensures
        subsequence(a, a),
{
    let at = Seq::new(a.len(), |i: int| i);
    assert(found_at(a, a, at));
}

pub proof fn lemma_subsequence_empty(b: Seq<u8>)
    ensures
        subsequence(Seq::empty(), b),
{
    assert(found_at(Seq::empty(), b, Seq::empty()));
}

pub proof fn lemma_subsequence_concat(a: Seq<u8>, b: Seq<u8>, c: Seq<u8>, d: Seq<u8>)
    requires
        subsequence(a, b),
        subsequence(c, d),
    ensures
        subsequence(a + c, b + d),
{
    let x = choose|at: Seq<int>| #[trigger] found_at(a, b, at);
    let y = choose|at: Seq<int>| #[trigger] found_at(c, d, at);
    let n = b.len() as int;
    let z = x + Seq::new(y.len(), |i: int| y[i] + n);
    assert forall|i: int| 0 <= i < z.len() implies 0 <= #[trigger] z[i] < (b + d).len() && (b
        + d)[z[i]] == (a + c)[i] by {
        if i < x.len() {
            assert(z[i] == x[i]);
        } else {
            assert(z[i] == y[i - x.len()] + n);
        }
    }
    assert forall|i: int, j: int| 0 <= i < j < z.len() implies #[trigger] z[i] < #[trigger] z[j] by {
        if j < x.len() {
            assert(z[i] == x[i] && z[j] == x[j]);
        } else if i < x.len() {
            assert(z[i] == x[i] && z[j] == y[j - x.len()] + n);
        } else {
            assert(z[i] == y[i - x.len()] + n && z[j] == y[j - x.len()] + n);
        }
    }
    assert(found_at(a + c, b + d, z));
}

} // verus!
