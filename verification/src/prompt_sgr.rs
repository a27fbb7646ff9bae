//! Colors that a prompt leaves on over the command that is typed behind it.

use vstd::prelude::*;

use crate::bytes::{ascii_whitespace, copy_range, is_ascii_whitespace, push_all};
use crate::controls::{control_at, control_end, lemma_control_end};
use crate::prompt_echo::{
    echo_at, has_ink, is_echo_at, is_prompt_line, lemma_sgr_ranges, pair_ints, prompt_line,
    range_ints, sgr_ranges, shown_at, shown_break, shown_bytes, shown_line,
    visible_byte_map_and_ansi_ranges,
};
use crate::sgr::{after_sequence, NativeSgrState, SgrState};

verus! {

/// How a style is taken back: by a reset of everything, or of what was set.
#[derive(Clone, Copy, Debug, PartialEq, Eq, Structural)]
pub enum ResetMode {
    Full,
    Minimal,
}

/// First offset at or behind `i` that is not white space.
pub open spec fn ink_from(s: Seq<u8>, i: int) -> int
    decreases s.len() - i,
{
    if 0 <= i < s.len() && ascii_whitespace(s[i]) {
        ink_from(s, i + 1)
    } else {
        i
    }
}

pub proof fn lemma_ink_from(s: Seq<u8>, i: int)
    requires
        0 <= i <= s.len(),
    ensures
        i <= ink_from(s, i) <= s.len(),
        forall|k: int| i <= k < ink_from(s, i) ==> ascii_whitespace(#[trigger] s[k]),
        ink_from(s, i) < s.len() ==> !ascii_whitespace(s[ink_from(s, i)]),
        has_ink(s.subrange(i, s.len() as int)) == (ink_from(s, i) < s.len()),
    decreases s.len() - i,
{
    if i < s.len() && ascii_whitespace(s[i]) {
        lemma_ink_from(s, i + 1);
    }
    let rest = s.subrange(i, s.len() as int);
    let k = ink_from(s, i);
    if k < s.len() {
        assert(!ascii_whitespace(rest[k - i]));
    } else {
        assert forall|j: int| 0 <= j < rest.len() implies ascii_whitespace(#[trigger] rest[j]) by {
            assert(rest[j] == s[i + j]);
        }
    }
}

/// The first length at or behind `end` at which a prompt ends that a command
/// follows.
pub open spec fn echo_from(line: Seq<u8>, end: int) -> Option<int>
    decreases line.len() - end,
{
    if !(1 <= end < line.len()) {
        None
    } else if echo_at(line, end) {
        Some(end)
    } else {
        echo_from(line, end + 1)
    }
}

/// Where the prompt of a line ends and its command begins. A line that goes
/// on a prompt line is all command.
pub open spec fn echo_bounds(line: Seq<u8>, goes_on: bool) -> Option<(int, int)> {
    if goes_on {
        if ink_from(line, 0) < line.len() {
            Some((0, ink_from(line, 0)))
        } else {
            None
        }
    } else {
        match echo_from(line, 1) {
            Some(end) => Some((end, ink_from(line, end))),
            None => None,
        }
    }
}

pub proof fn lemma_echo_bounds(line: Seq<u8>, goes_on: bool)
    ensures
        match echo_bounds(line, goes_on) {
            Some((a, b)) => (if goes_on {
                a == 0
            } else {
                a >= 1
            }) && a <= b < line.len(),
            None => true,
        },
{
    lemma_ink_from(line, 0);
    if !goes_on {
        lemma_echo_from(line, 1);
    }
}

proof fn lemma_echo_from(line: Seq<u8>, end: int)
    requires
        1 <= end,
    ensures
        match echo_from(line, end) {
            Some(e) => end <= e && e <= ink_from(line, e) < line.len(),
            None => true,
        },
    decreases line.len() - end,
{
    if end < line.len() {
        if echo_at(line, end) {
            lemma_ink_from(line, end);
        } else {
            lemma_echo_from(line, end + 1);
        }
    }
}

fn first_ink(s: &[u8], from: usize) -> (r: usize)
    requires
        from <= s@.len(),
    ensures
        r == ink_from(s@, from as int),
        from <= r <= s@.len(),
{
    let mut i: usize = from;
    while i < s.len() && is_ascii_whitespace(s[i])
        invariant
            from <= i <= s@.len(),
            ink_from(s@, from as int) == ink_from(s@, i as int),
        decreases s@.len() - i,
    {
        i = i + 1;
    }
    i
}

pub fn prompt_echo_sgr_bounds(line: &[u8], first_line_continues_prompt: bool) -> (r: Option<
    (usize, usize),
>)
    ensures
        match r {
            Some((a, b)) => echo_bounds(line@, first_line_continues_prompt) == Some(
                (a as int, b as int),
            ) && a <= b < line@.len(),
            None => echo_bounds(line@, first_line_continues_prompt) is None,
        },
{
    proof {
        lemma_echo_bounds(line@, first_line_continues_prompt);
    }
    if first_line_continues_prompt {
        let start = first_ink(line, 0);
        if start < line.len() {
            return Some((0, start));
        }
        return None;
    }
    let mut end: usize = 1;
    while end < line.len()
        invariant
            1 <= end,
            !first_line_continues_prompt,
            echo_from(line@, 1) == echo_from(line@, end as int),
        decreases line@.len() - end,
    {
        if is_echo_at(line, end) {
            proof {
                lemma_ink_from(line@, end as int);
            }
            return Some((end, first_ink(line, end)));
        }
        end = end + 1;
    }
    None
}

/// The rendition after the sequences of `s` that `ranges` lists.
pub open spec fn sgr_after(s: Seq<u8>, ranges: Seq<(int, int)>) -> SgrState
    decreases ranges.len(),
{
    if ranges.len() == 0 {
        SgrState::initial()
    } else {
        after_sequence(
            sgr_after(s, ranges.drop_last()),
            s.subrange(ranges.last().0, ranges.last().1),
        )
    }
}

/// The ranges that start at `from` or behind it, and before `to`.
pub open spec fn ranges_within(ranges: Seq<(int, int)>, from: int, to: int) -> Seq<(int, int)> {
    ranges.filter(|r: (int, int)| from <= r.0 < to)
}

/// What to do about colors behind prompts: which SGR sequences to drop, and
/// where to reset.
pub struct SgrPlan {
    pub removed: Seq<(int, int)>,
    pub resets: Seq<int>,
}

impl SgrPlan {
    pub open spec fn nothing() -> SgrPlan {
        SgrPlan { removed: Seq::empty(), resets: Seq::empty() }
    }

    pub open spec fn followed_by(self, next: SgrPlan) -> SgrPlan {
        SgrPlan { removed: self.removed + next.removed, resets: self.resets + next.resets }
    }
}

/// The plan for the line whose visible bytes are `v[i..end]`: where a prompt
/// and a command stand on it, and the SGR sequences behind the prompt leave a
/// style on, they are dropped and the command starts with a reset.
pub open spec fn line_plan(s: Seq<u8>, v: Seq<(u8, int)>, goes_on: bool, i: int, end: int) -> SgrPlan {
    let continues = i == 0 && goes_on;
    match echo_bounds(shown_bytes(v).subrange(i, end), continues) {
        Some((prompt, command)) => {
            let from = if continues {
                0
            } else {
                v[i + prompt - 1].1 + 1
            };
            let to = if end < v.len() {
                v[end].1
            } else {
                s.len() as int
            };
            let ranges = ranges_within(sgr_ranges(s, 0), from, to);
            if sgr_after(s, ranges).parts().len() > 0 {
                SgrPlan { removed: ranges, resets: seq![v[i + command].1] }
            } else {
                SgrPlan::nothing()
            }
        },
        None => SgrPlan::nothing(),
    }
}

/// The plan for all lines from visible byte `i` on.
pub open spec fn plan_from(s: Seq<u8>, v: Seq<(u8, int)>, goes_on: bool, i: int) -> SgrPlan
    decreases v.len() - i,
{
    let end = shown_break(v, i);
    if !(0 <= i <= end) || i > v.len() {
        SgrPlan::nothing()
    } else if end >= v.len() {
        line_plan(s, v, goes_on, i, end)
    } else {
        line_plan(s, v, goes_on, i, end).followed_by(plan_from(s, v, goes_on, end + 1))
    }
}

/// The plan for `s`, which follows the visible line `before`.
pub open spec fn sgr_plan(s: Seq<u8>, before: Seq<u8>) -> SgrPlan {
    plan_from(s, shown_at(s, 0), prompt_line(before), 0)
}

/// The reset that a command starts with.
pub open spec fn echo_reset(mode: ResetMode) -> Seq<u8> {
    match mode {
        ResetMode::Full => seq![0x1bu8, 0x5bu8, 0x30u8, 0x6du8],
        ResetMode::Minimal => seq![0x1bu8, 0x5bu8, 0x33u8, 0x39u8, 0x6du8],
    }
}

/// `s[i..]` with the plan carried out.
pub open spec fn replanned(s: Seq<u8>, plan: SgrPlan, reset: Seq<u8>, i: int) -> Seq<u8>
    decreases s.len() - i,
{
    let head = if plan.resets.contains(i) {
        reset
    } else {
        Seq::empty()
    };
    if !(0 <= i < s.len()) {
        head
    } else if control_at(s, i) && plan.removed.contains((i, control_end(s, i))) {
        proof {
            lemma_control_end(s, i);
        }
        head + replanned(s, plan, reset, control_end(s, i))
    } else {
        head + seq![s[i]] + replanned(s, plan, reset, i + 1)
    }
}

/// `s` without the colors that prompts leave on over their commands.
pub open spec fn without_prompt_colors(s: Seq<u8>, before: Seq<u8>, mode: ResetMode) -> Seq<u8> {
    if sgr_plan(s, before).removed.len() == 0 {
        s
    } else {
        replanned(s, sgr_plan(s, before), echo_reset(mode), 0)
    }
}

/// The sequences to drop are controls of `s`.
pub open spec fn drops_controls(s: Seq<u8>, removed: Seq<(int, int)>) -> bool {
    forall|k: int|
        0 <= k < removed.len() ==> 0 <= (#[trigger] removed[k]).0 < s.len() && control_at(
            s,
            removed[k].0,
        ) && removed[k].1 == control_end(s, removed[k].0)
}

proof fn lemma_filter_push<A>(s: Seq<A>, i: int, p: spec_fn(A) -> bool)
    requires
        0 <= i < s.len(),
    ensures
        s.take(i + 1).filter(p) == (if p(s[i]) {
            s.take(i).filter(p).push(s[i])
        } else {
            s.take(i).filter(p)
        }),
{
    reveal(Seq::filter);
    assert(s.take(i + 1).drop_last() =~= s.take(i));
}

fn ranges_between(ranges: &Vec<(usize, usize)>, from: usize, to: usize) -> (r: Vec<(usize, usize)>)
    ensures
        range_ints(r@) == ranges_within(range_ints(ranges@), from as int, to as int),
{
    let ghost all = range_ints(ranges@);
    let ghost p = |r: (int, int)| from as int <= r.0 < to as int;
    let mut kept: Vec<(usize, usize)> = Vec::new();
    let mut i: usize = 0;
    assert(all.take(0).filter(p) =~= Seq::<(int, int)>::empty()) by {
        reveal(Seq::filter);
    }
    while i < ranges.len()
        invariant
            i <= ranges@.len(),
            all == range_ints(ranges@),
            p == (|r: (int, int)| from as int <= r.0 < to as int),
            range_ints(kept@) == all.take(i as int).filter(p),
        decreases ranges@.len() - i,
    {
        proof {
            lemma_filter_push(all, i as int, p);
        }
        let (start, end) = ranges[i];
        assert(all[i as int] == (start as int, end as int));
        if from <= start && start < to {
            let ghost now = range_ints(kept@);
            kept.push((start, end));
            assert(range_ints(kept@) =~= now.push((start as int, end as int)));
        }
        i = i + 1;
    }
    assert(all.take(i as int) =~= all);
    kept
}

fn source_sgr_leaves_active_style(input: &[u8], ranges: &Vec<(usize, usize)>) -> (r: bool)
    requires
        forall|k: int|
            0 <= k < ranges@.len() ==> (#[trigger] ranges@[k]).0 <= ranges@[k].1 <= input@.len(),
    ensures
        r == (sgr_after(input@, range_ints(ranges@)).parts().len() > 0),
{
    let ghost all = range_ints(ranges@);
    let mut state = NativeSgrState::new();
    let mut i: usize = 0;
    while i < ranges.len()
        invariant
            i <= ranges@.len(),
            all == range_ints(ranges@),
            state@ == sgr_after(input@, all.take(i as int)),
            forall|k: int|
                0 <= k < ranges@.len() ==> (#[trigger] ranges@[k]).0 <= ranges@[k].1
                    <= input@.len(),
        decreases ranges@.len() - i,
    {
        let (start, end) = ranges[i];
        assert(ranges@[i as int] == (start, end));
        state.apply_sequence(vstd::slice::slice_subrange(input, start, end));
        assert(all.take(i + 1).drop_last() =~= all.take(i as int));
        assert(all.take(i + 1).last() == (start as int, end as int));
        i = i + 1;
    }
    assert(all.take(i as int) =~= all);
    state.ansi_start().is_some()
}

pub open spec fn int_views(v: Seq<usize>) -> Seq<int> {
    v.map_values(|n: usize| n as int)
}

/// Which SGR sequences to drop, and where to reset, so that prompts do not
/// color the commands behind them.
fn prompt_echo_source_sgr_plan(input: &[u8], previous: &[u8]) -> (r: (
    Vec<(usize, usize)>,
    Vec<usize>,
))
    ensures
        range_ints(r.0@) == sgr_plan(input@, previous@).removed,
        int_views(r.1@) == sgr_plan(input@, previous@).resets,
        drops_controls(input@, range_ints(r.0@)),
{
    let ghost s = input@;
    let ghost v = shown_at(s, 0);
    let ghost before = previous@;
    let (shown, ranges) = visible_byte_map_and_ansi_ranges(input);
    proof {
        lemma_sgr_ranges(s, 0);
    }
    let goes_on = is_prompt_line(previous);
    let len = input.len();
    let mut removed: Vec<(usize, usize)> = Vec::new();
    let mut resets: Vec<usize> = Vec::new();
    let mut line_start: usize = 0;
    let ghost whole = sgr_plan(s, before);
    assert(SgrPlan { removed: range_ints(removed@), resets: int_views(resets@) }.followed_by(
        plan_from(s, v, goes_on, 0),
    ) == whole) by {
        assert(range_ints(removed@) + whole.removed =~= whole.removed);
        assert(int_views(resets@) + whole.resets =~= whole.resets);
    }
    loop
        invariant_except_break
            (SgrPlan { removed: range_ints(removed@), resets: int_views(resets@) }).followed_by(
                plan_from(s, v, goes_on, line_start as int),
            ) == whole,
        invariant
            s == input@,
            len == s.len(),
            v == shown_at(s, 0),
            pair_ints(shown@) == v,
            range_ints(ranges@) == sgr_ranges(s, 0),
            goes_on == prompt_line(before),
            whole == sgr_plan(s, before),
            line_start <= shown@.len(),
            forall|k: int| 0 <= k < shown@.len() ==> (#[trigger] shown@[k]).1 < len,
            forall|k: int|
                0 <= k < ranges@.len() ==> (#[trigger] ranges@[k]).0 < ranges@[k].1 <= len,
            drops_controls(s, sgr_ranges(s, 0)),
            drops_controls(s, range_ints(removed@)),
            before == previous@,
        ensures
            range_ints(removed@) == whole.removed,
            int_views(resets@) == whole.resets,
        decreases shown@.len() - line_start,
    {
        let ghost i = line_start as int;
        let ghost old_plan = SgrPlan {
            removed: range_ints(removed@),
            resets: int_views(resets@),
        };
        let continues = line_start == 0 && goes_on;
        let (line, line_end) = shown_line(&shown, line_start);
        let ghost here = line_plan(s, v, goes_on, i, line_end as int);
        if let Some((prompt, command)) = prompt_echo_sgr_bounds(line.as_slice(), continues) {
            proof {
                lemma_echo_bounds(line@, continues);
            }
            let line_raw_end: usize = if line_end < shown.len() {
                assert(v[line_end as int].1 == shown@[line_end as int].1);
                shown[line_end].1
            } else {
                len
            };
            let sgr_start_raw: usize = if continues {
                0
            } else {
                assert(v[i + prompt - 1].1 == shown@[i + prompt - 1].1);
                shown[line_start + prompt - 1].1 + 1
            };
            assert(v[i + command].1 == shown@[i + command].1);
            let command_start_raw = shown[line_start + command].1;
            let mut line_ranges = ranges_between(&ranges, sgr_start_raw, line_raw_end);
            let ghost picked = range_ints(line_ranges@);
            proof {
                lemma_within_keeps(s, sgr_ranges(s, 0), sgr_start_raw as int, line_raw_end as int);
                assert forall|k: int| 0 <= k < line_ranges@.len() implies (
                #[trigger] line_ranges@[k]).0 <= line_ranges@[k].1 <= len by {
                    assert(picked[k].0 == line_ranges@[k].0 && picked[k].1 == line_ranges@[k].1);
                    lemma_control_end(s, picked[k].0);
                }
            }
            if source_sgr_leaves_active_style(input, &line_ranges) {
                removed.append(&mut line_ranges);
                resets.push(command_start_raw);
                assert(range_ints(removed@) =~= old_plan.removed + picked);
                assert(int_views(resets@) =~= old_plan.resets + seq![command_start_raw as int]);
                assert(drops_controls(s, range_ints(removed@))) by {
                    let all = range_ints(removed@);
                    assert forall|k: int| 0 <= k < all.len() implies 0 <= (#[trigger] all[k]).0
                        < s.len() && control_at(s, all[k].0) && all[k].1 == control_end(
                        s,
                        all[k].0,
                    ) by {
                        if k < old_plan.removed.len() {
                            assert(all[k] == old_plan.removed[k]);
                        } else {
                            assert(all[k] == picked[k - old_plan.removed.len()]);
                        }
                    }
                }
            }
        }
        let ghost new_plan = SgrPlan {
            removed: range_ints(removed@),
            resets: int_views(resets@),
        };
        assert(new_plan.removed =~= old_plan.followed_by(here).removed);
        assert(new_plan.resets =~= old_plan.followed_by(here).resets);
        if line_end >= shown.len() {
            assert(plan_from(s, v, goes_on, i) == here);
            break;
        }
        let ghost rest = plan_from(s, v, goes_on, line_end + 1);
        assert(new_plan.followed_by(rest).removed =~= old_plan.followed_by(
            here.followed_by(rest),
        ).removed);
        assert(new_plan.followed_by(rest).resets =~= old_plan.followed_by(
            here.followed_by(rest),
        ).resets);
        line_start = line_end + 1;
    }
    (removed, resets)
}

proof fn lemma_within_keeps(s: Seq<u8>, ranges: Seq<(int, int)>, from: int, to: int)
    requires
        drops_controls(s, ranges),
    ensures
        drops_controls(s, ranges_within(ranges, from, to)),
    decreases ranges.len(),
{
    reveal(Seq::filter);
    if ranges.len() > 0 {
        assert forall|k: int| 0 <= k < ranges.drop_last().len() implies 0 <= (
        #[trigger] ranges.drop_last()[k]).0 < s.len() && control_at(s, ranges.drop_last()[k].0)
            && ranges.drop_last()[k].1 == control_end(s, ranges.drop_last()[k].0) by {
            assert(ranges.drop_last()[k] == ranges[k]);
        }
        lemma_within_keeps(s, ranges.drop_last(), from, to);
        let last = ranges[ranges.len() - 1];
        let shorter = ranges_within(ranges.drop_last(), from, to);
        let longer = ranges_within(ranges, from, to);
        assert forall|k: int| 0 <= k < longer.len() implies 0 <= (#[trigger] longer[k]).0 < s.len()
            && control_at(s, longer[k].0) && longer[k].1 == control_end(s, longer[k].0) by {
            if k < shorter.len() {
                assert(longer[k] == shorter[k]);
            } else {
                assert(longer[k] == last);
            }
        }
    }
}

/// Whether a prompt would color the command behind it.
pub fn prompt_echo_has_active_source_sgr(input: &[u8], previous: &[u8]) -> (r: bool)
    ensures
        r == (sgr_plan(input@, previous@).removed.len() > 0),
{
    let (removed, _resets) = prompt_echo_source_sgr_plan(input, previous);
    assert(range_ints(removed@).len() == removed@.len());
    removed.len() > 0
}

fn range_end_at(ranges: &Vec<(usize, usize)>, start: usize) -> (r: Option<usize>)
    ensures
        match r {
            Some(end) => range_ints(ranges@).contains((start as int, end as int)),
            None => forall|e: int| !#[trigger] range_ints(ranges@).contains((start as int, e)),
        },
{
    let ghost all = range_ints(ranges@);
    let mut i: usize = 0;
    while i < ranges.len()
        invariant
            i <= ranges@.len(),
            all == range_ints(ranges@),
            forall|k: int| 0 <= k < i ==> (#[trigger] all[k]).0 != start,
        decreases ranges@.len() - i,
    {
        assert(all[i as int] == (ranges@[i as int].0 as int, ranges@[i as int].1 as int));
        if ranges[i].0 == start {
            return Some(ranges[i].1);
        }
        i = i + 1;
    }
    None
}

fn has_position(positions: &Vec<usize>, idx: usize) -> (r: bool)
    ensures
        r == int_views(positions@).contains(idx as int),
{
    let ghost all = int_views(positions@);
    let mut i: usize = 0;
    while i < positions.len()
        invariant
            i <= positions@.len(),
            all == int_views(positions@),
            forall|k: int| 0 <= k < i ==> #[trigger] all[k] != idx,
        decreases positions@.len() - i,
    {
        assert(all[i as int] == positions@[i as int]);
        if positions[i] == idx {
            return true;
        }
        i = i + 1;
    }
    false
}

fn push_reset(out: &mut Vec<u8>, mode: ResetMode)
    ensures
        final(out)@ == old(out)@ + echo_reset(mode),
{
    match mode {
        ResetMode::Full => {
            let reset: [u8; 4] = [0x1b, 0x5b, 0x30, 0x6d];
            assert(reset@ =~= echo_reset(mode));
            push_all(out, &reset);
        },
        ResetMode::Minimal => {
            let reset: [u8; 5] = [0x1b, 0x5b, 0x33, 0x39, 0x6d];
            assert(reset@ =~= echo_reset(mode));
            push_all(out, &reset);
        },
    }
}

/// Drops the colors that prompts leave on over the commands behind them.
pub fn neutralize_prompt_echo_source_sgr(
    input: &[u8],
    previous: &[u8],
    reset_mode: ResetMode,
) -> (r: Vec<u8>)
    ensures
        r@ == without_prompt_colors(input@, previous@, reset_mode),
{
    let (removed, resets) = prompt_echo_source_sgr_plan(input, previous);
    let ghost s = input@;
    let ghost plan = sgr_plan(s, previous@);
    let ghost reset = echo_reset(reset_mode);
    assert(range_ints(removed@).len() == removed@.len());
    if removed.len() == 0 {
        return copy_range(input, 0, input.len());
    }
    let mut output: Vec<u8> = Vec::new();
    let mut idx: usize = 0;
    assert(output@ + replanned(s, plan, reset, 0) =~= replanned(s, plan, reset, 0));
    while idx < input.len()
        invariant
            s == input@,
            idx <= s.len(),
            range_ints(removed@) == plan.removed,
            int_views(resets@) == plan.resets,
            drops_controls(s, plan.removed),
            reset == echo_reset(reset_mode),
            output@ + replanned(s, plan, reset, idx as int) == replanned(s, plan, reset, 0),
        decreases s.len() - idx,
    {
        let ghost before = output@;
        if has_position(&resets, idx) {
            push_reset(&mut output, reset_mode);
        }
        let ghost head = if plan.resets.contains(idx as int) {
            reset
        } else {
            Seq::<u8>::empty()
        };
        assert(output@ =~= before + head);
        match range_end_at(&removed, idx) {
            Some(end) => {
                proof {
                    let k = choose|k: int|
                        0 <= k < plan.removed.len() && plan.removed[k] == (
                            idx as int,
                            end as int,
                        );
                    assert(plan.removed[k].1 == control_end(s, idx as int));
                    lemma_control_end(s, idx as int);
                }
                assert(before + (head + replanned(s, plan, reset, end as int)) =~= output@
                    + replanned(s, plan, reset, end as int));
                idx = end;
            },
            None => {
                assert(!plan.removed.contains((idx as int, control_end(s, idx as int))));
                output.push(input[idx]);
                assert(before + (head + seq![s[idx as int]] + replanned(
                    s,
                    plan,
                    reset,
                    idx + 1,
                )) =~= output@ + replanned(s, plan, reset, idx + 1));
                idx = idx + 1;
            },
        }
    }
    if has_position(&resets, idx) {
        push_reset(&mut output, reset_mode);
    }
    assert(output@ =~= replanned(s, plan, reset, 0));
    output
}

} // verus!
