//! A stream shows what it was given: the visible text of its output is the
//! visible text of its input, however the input is cut into chunks.

use vstd::prelude::*;

use crate::arrival::{
    fit, last_cut, lemma_filter_passes, lemma_fit_concat, lemma_so_far, lemma_split_so_far,
    lemma_well_formed_cut, lemma_well_formed_whole, so_far, tracks, well_formed,
};
use crate::bytes::subsequence;
use crate::controls::{tokens_of, visible};
use crate::escapes::or_all;
use crate::highlight::HighlighterView;
use crate::recolor::{
    added_colors_keep_all_bytes, changing, color_control, color_edits, edited,
    finishing_changes_colors_only, handed, hands_out, lemma_combined_recolors, lemma_hands_on,
    lemma_kept_fit, lemma_nothing, lemma_settles_recolors, recolored, recoloring_goes_on,
    showing_echo_changes_colors_only, unedited, Care, Edit,
};
use crate::split::stream_split;
use crate::stream_model::{
    begins_with, behind, chunk_ends, chunk_run, chunk_start, combined_run, echo_keeps_settings,
    finishes, finishing_keeps_settings, gives, keeping, left_over, output_run, pushes,
    pushing_keeps_settings, settles, shows_echo, taking, tokens_run, whole_run, Step, Stream,
};
use crate::streaming::fresh;
use crate::string_filter::{filtered, OversizedStringControlMode};
use crate::units::{
    cut_at, lemma_cut_ends, lemma_cut_within, lemma_next_cut, lemma_sound_concat, lemma_sound_unit,
    lemma_visible_sound, rest_of, shown_part, sound, whole, whole_control, whole_csi,
};
use crate::utf8::cut_char_start;
use crate::weave::{one_sgr, tidy};

verus! {

/// SGR sequences are added, and the units of the text are left whole.
pub open spec fn careful_adding() -> Care {
    Care { whole: true, drops: false }
}

/// SGR sequences are added and dropped, and the units of the text are left
/// whole.
pub open spec fn careful_changing() -> Care {
    Care { whole: true, drops: true }
}

proof fn lemma_sgr_whole(t: Seq<u8>)
    requires
        one_sgr(t),
    ensures
        whole_csi(t),
{
}

proof fn lemma_color_unseen(t: Seq<u8>)
    requires
        color_control(t),
        whole(t),
    ensures
        whole_control(t),
{
}

proof fn lemma_unit_shown(u: Seq<u8>)
    requires
        whole(u),
    ensures
        sound(u),
        whole_control(u) ==> shown_part(u) == Seq::<u8>::empty(),
{
    lemma_sound_unit(u, Seq::empty());
    assert(u + Seq::<u8>::empty() =~= u);
}

pub proof fn lemma_edits_show(edits: Seq<Edit>, care: Care)
    requires
        care.whole,
        color_edits(edits, care),
    ensures
        sound(unedited(edits)),
        sound(edited(edits)),
        shown_part(unedited(edits)) == shown_part(edited(edits)),
    decreases edits.len(),
{
    if edits.len() > 0 {
        let before = edits.drop_last();
        let last = edits.last();
        assert forall|k: int| 0 <= k < before.len() implies (#[trigger] before[k]).is_color(
            care,
        ) by {
            assert(before[k] == edits[k]);
        }
        assert(edits[edits.len() - 1].is_color(care));
        lemma_edits_show(before, care);
        match last {
            Edit::Kept(u) => lemma_unit_shown(u),
            Edit::Added(t) => {
                lemma_sgr_whole(t);
                lemma_unit_shown(t);
            },
            Edit::Dropped(t) => {
                lemma_color_unseen(t);
                lemma_unit_shown(t);
            },
        }
        lemma_sound_concat(unedited(before), last.before());
        lemma_sound_concat(edited(before), last.after());
    }
}

/// A change of colors that leaves units whole does not change what is shown.
pub proof fn careful_recoloring_shows_the_same(out: Seq<u8>, s: Seq<u8>, care: Care)
    requires
        care.whole,
        recolored(out, s, care),
    ensures
        sound(s),
        sound(out),
        visible(out) == visible(s),
{
    reveal(recolored);
    let edits = choose|edits: Seq<Edit>| #[trigger]
        color_edits(edits, care) && edited(edits) == out && unedited(edits) == s;
    lemma_edits_show(edits, care);
    lemma_visible_sound(s);
    lemma_visible_sound(out);
}

/// What happens to a stream: a chunk comes, or the kept echo of typed text is
/// shown.
pub enum Feed {
    Chunk(Seq<u8>),
    Echo,
}

impl Feed {
    pub open spec fn bytes(self) -> Seq<u8> {
        match self {
            Feed::Chunk(bytes) => bytes,
            Feed::Echo => Seq::empty(),
        }
    }

    /// It can give `out`.
    #[verifier::opaque]
    pub open spec fn leads(self, st: Stream, out: Seq<u8>, end: Stream) -> bool {
        match self {
            Feed::Chunk(bytes) => pushes(st, bytes, out, end),
            Feed::Echo => shows_echo(st, out, end),
        }
    }
}

/// All that comes to a stream.
pub open spec fn fed(feeds: Seq<Feed>) -> Seq<u8>
    decreases feeds.len(),
{
    if feeds.len() == 0 {
        Seq::empty()
    } else {
        fed(feeds.drop_last()) + feeds.last().bytes()
    }
}

/// One after the other, the feeds can give `out`.
pub open spec fn streamed(st: Stream, feeds: Seq<Feed>, out: Seq<u8>, end: Stream) -> bool
    decreases feeds.len(),
{
    if feeds.len() == 0 {
        out == Seq::<u8>::empty() && end == st
    } else {
        exists|o: Seq<u8>, mid: Stream| #[trigger]
            gives(o, mid) && streamed(st, feeds.drop_last(), o, mid) && begins_with(out, o) && feeds.last().leads(
                mid,
                behind(out, o),
                end,
            )
    }
}

/// Nothing is kept and no control string is open.
pub open spec fn at_rest(st: Stream) -> bool {
    tidy(st.native) && st.pending.len() == 0 && st.filter is Normal
}

/// A new stream is at rest.
pub proof fn fresh_streams_are_at_rest(h: HighlighterView, live: bool)
    ensures
        at_rest(fresh(h, live)),
{
}

/// Where a stream that nobody types at stands in the well-formed text `x`:
/// `got` bytes have come, the first `p` of them are out, the others are kept.
#[verifier::opaque]
pub open spec fn underway(st: Stream, x: Seq<u8>, got: int, p: int, out: Seq<u8>) -> bool {
    &&& !st.live
    &&& tidy(st.native)
    &&& 0 <= p <= got <= x.len()
    &&& cut_at(x, p)
    &&& recolored(out, x.subrange(0, p), careful_adding())
    &&& st.pending == x.subrange(p, got)
    &&& tracks(st.filter, rest_of(x, p), got - p)
}

/// What a chunk does to a stream that nobody types at: of the well-formed text
/// `r`, `had` bytes were kept.
#[verifier::rlimit(60)]
#[verifier::spinoff_prover]
proof fn lemma_quiet_chunk(
    st: Stream,
    r: Seq<u8>,
    had: int,
    bytes: Seq<u8>,
    o: Seq<u8>,
    end: Stream,
) -> (split: int)
    requires
        !st.live,
        tidy(st.native),
        well_formed(r),
        r.len() <= usize::MAX,
        0 <= had <= r.len(),
        had + bytes.len() <= r.len(),
        st.pending + bytes == so_far(r, had + bytes.len()),
        tracks(st.filter, r, had),
        Feed::Chunk(bytes).leads(st, o, end),
    ensures
        0 <= split <= had + bytes.len(),
        cut_at(r, split),
        recolored(o, r.subrange(0, split), careful_adding()),
        end.pending == r.subrange(split, had + bytes.len()),
        tracks(end.filter, rest_of(r, split), had + bytes.len() - split),
        tidy(end.native),
        !end.live,
{
    reveal(Feed::leads);
    pushing_keeps_settings(st, bytes, o, end);
    let m = had + bytes.len();
    let s = so_far(r, m);
    lemma_filter_passes(st.filter, r, had, m);
    lemma_so_far(r, m);
    lemma_split_so_far(r, m);
    let split = stream_split(s);
    let mode = filtered(st.filter, s).1;
    let start = Stream { pending: Seq::empty(), filter: mode, ..st };
    let now = taking(start, s);
    assert(combined_run(start, s, o, end));
    assert(whole_run(now, s, o, end));
    assert(settles(keeping(now, s, split, false), s.subrange(0, split), o, end)) by {
        reveal(whole_run);
    }
    assert(s.subrange(0, split) =~= r.subrange(0, split));
    lemma_settles_recolors(
        keeping(now, s, split, false),
        s.subrange(0, split),
        o,
        end,
        careful_adding(),
    );
    assert(end.pending =~= r.subrange(split, m));
    split
}

#[verifier::rlimit(60)]
#[verifier::spinoff_prover]
pub proof fn lemma_chunk_underway(
    st: Stream,
    x: Seq<u8>,
    got: int,
    p: int,
    out: Seq<u8>,
    bytes: Seq<u8>,
    o: Seq<u8>,
    end: Stream,
) -> (q: int)
    requires
        well_formed(x),
        x.len() <= usize::MAX,
        underway(st, x, got, p, out),
        got + bytes.len() <= x.len(),
        bytes == x.subrange(got, got + bytes.len()),
        Feed::Chunk(bytes).leads(st, o, end),
    ensures
        underway(end, x, got + bytes.len(), q, out + o),
{
    reveal(underway);
    let r = rest_of(x, p);
    let care = careful_adding();
    assert(well_formed(r)) by {
        lemma_well_formed_cut(x, p);
    }
    assert(st.pending + bytes =~= so_far(r, got - p + bytes.len()));
    let split = lemma_quiet_chunk(st, r, got - p, bytes, o, end);
    lemma_cut_within(x, p, split);
    recoloring_goes_on(out, x.subrange(0, p), o, r.subrange(0, split), care);
    assert(x.subrange(0, p) + r.subrange(0, split) =~= x.subrange(0, p + split));
    assert(rest_of(x, p + split) =~= rest_of(r, split));
    assert(end.pending =~= x.subrange(p + split, got + bytes.len()));
    p + split
}

proof fn lemma_echo_underway(
    st: Stream,
    x: Seq<u8>,
    got: int,
    p: int,
    out: Seq<u8>,
    o: Seq<u8>,
    end: Stream,
)
    requires
        underway(st, x, got, p, out),
        Feed::Echo.leads(st, o, end),
    ensures
        underway(end, x, got, p, out + o),
{
    reveal(underway);
    reveal(Feed::leads);
    assert(out + o =~= out);
}

#[verifier::rlimit(60)]
#[verifier::spinoff_prover]
pub proof fn lemma_streamed_underway(
    st: Stream,
    feeds: Seq<Feed>,
    out: Seq<u8>,
    end: Stream,
    x: Seq<u8>,
) -> (p: int)
    requires
        at_rest(st),
        !st.live,
        well_formed(x),
        x.len() <= usize::MAX,
        fed(feeds).len() <= x.len(),
        fed(feeds) == x.subrange(0, fed(feeds).len() as int),
        streamed(st, feeds, out, end),
    ensures
        underway(end, x, fed(feeds).len() as int, p, out),
    decreases feeds.len(),
{
    if feeds.len() == 0 {
        reveal(underway);
        lemma_cut_ends(x);
        lemma_nothing(careful_adding());
        assert(x.subrange(0, 0) =~= Seq::<u8>::empty());
        assert(st.pending =~= x.subrange(0, 0));
        0
    } else {
        let before = feeds.drop_last();
        let bytes = feeds.last().bytes();
        let (o, mid) = choose|o: Seq<u8>, mid: Stream| #[trigger]
            gives(o, mid) && streamed(st, before, o, mid) && begins_with(out, o) && feeds.last().leads(
                mid,
                behind(out, o),
                end,
            );
        let got = fed(before).len() as int;
        assert(fed(before) =~= fed(feeds).subrange(0, got));
        assert(fed(before) =~= x.subrange(0, got));
        assert(bytes =~= fed(feeds).subrange(got, got + bytes.len()));
        assert(bytes =~= x.subrange(got, got + bytes.len()));
        let p = lemma_streamed_underway(st, before, o, mid, x);
        assert(o + behind(out, o) =~= out);
        match feeds.last() {
            Feed::Chunk(_) => lemma_chunk_underway(
                mid,
                x,
                got,
                p,
                o,
                bytes,
                behind(out, o),
                end,
            ),
            Feed::Echo => {
                lemma_echo_underway(mid, x, got, p, o, behind(out, o), end);
                p
            },
        }
    }
}

/// However well-formed text is cut into chunks, within a character or a control
/// or between them: a stream that nobody types at shows it as it is, and adds
/// SGR sequences to it and nothing else.
#[verifier::rlimit(60)]
#[verifier::spinoff_prover]
pub proof fn streams_keep_visible_text(
    st: Stream,
    feeds: Seq<Feed>,
    out: Seq<u8>,
    mid: Stream,
    rest: Seq<u8>,
    end: Stream,
)
    requires
        at_rest(st),
        !st.live,
        streamed(st, feeds, out, mid),
        finishes(mid, rest, end),
        well_formed(fed(feeds)),
        fed(feeds).len() <= usize::MAX,
    ensures
        visible(out + rest) == visible(fed(feeds)),
        subsequence(fed(feeds), out + rest),
        recolored(out + rest, fed(feeds), careful_adding()),
{
    let x = fed(feeds);
    let care = careful_adding();
    assert(x =~= x.subrange(0, x.len() as int));
    let p = lemma_streamed_underway(st, feeds, out, mid, x);
    reveal(underway);
    lemma_well_formed_cut(x, p);
    assert(mid.pending =~= rest_of(x, p));
    lemma_well_formed_whole(mid.pending);
    assert(left_over(mid) == mid.pending);
    finishing_changes_colors_only(mid, rest, end, care);
    recoloring_goes_on(out, x.subrange(0, p), rest, mid.pending, care);
    assert(x.subrange(0, p) + mid.pending =~= x);
    careful_recoloring_shows_the_same(out + rest, x, care);
    added_colors_keep_all_bytes(out + rest, x, true);
}

/// Every chunk is well formed by itself; where someone types, no carriage
/// return stands within a control.
pub open spec fn whole_chunks(feeds: Seq<Feed>, live: bool) -> bool {
    forall|k: int| 0 <= k < feeds.len() ==> fit((#[trigger] feeds[k]).bytes(), live)
}

#[verifier::rlimit(60)]
#[verifier::spinoff_prover]
proof fn lemma_whole_chunk(
    st: Stream,
    bytes: Seq<u8>,
    out: Seq<u8>,
    end: Stream,
)
    requires
        tidy(st.native),
        st.filter is Normal,
        fit(st.pending, st.live),
        fit(bytes, st.live),
        st.pending.len() + bytes.len() <= usize::MAX,
        Feed::Chunk(bytes).leads(st, out, end),
    ensures
        hands_out(st.pending + bytes, out, end.pending, careful_changing()),
        tidy(end.native),
        end.filter is Normal,
{
    reveal(Feed::leads);
    let s = st.pending + bytes;
    let m = s.len() as int;
    lemma_fit_concat(st.pending, bytes, st.live);
    assert(so_far(s, m) =~= s);
    lemma_filter_passes(st.filter, s, 0, m);
    lemma_so_far(s, m);
    lemma_well_formed_whole(s);
    let b = last_cut(s, m, 0);
    if b < m {
        lemma_next_cut(s, b);
    }
    let mode = filtered(st.filter, s).1;
    lemma_combined_recolors(
        Stream { pending: Seq::empty(), filter: mode, ..st },
        s,
        out,
        end,
        careful_changing(),
    );
}

proof fn lemma_feed_live(feed: Feed, st: Stream, out: Seq<u8>, end: Stream)
    requires
        feed.leads(st, out, end),
    ensures
        end.live == st.live,
{
    reveal(Feed::leads);
    match feed {
        Feed::Chunk(bytes) => pushing_keeps_settings(st, bytes, out, end),
        Feed::Echo => echo_keeps_settings(st, out, end),
    }
}

#[verifier::rlimit(60)]
#[verifier::spinoff_prover]
pub proof fn lemma_streamed_whole(st: Stream, feeds: Seq<Feed>, out: Seq<u8>, end: Stream)
    requires
        at_rest(st),
        whole_chunks(feeds, st.live),
        fed(feeds).len() <= usize::MAX,
        streamed(st, feeds, out, end),
    ensures
        fit(fed(feeds), st.live),
        end.live == st.live,
        hands_out(fed(feeds), out, end.pending, careful_changing()),
        tidy(end.native),
        end.filter is Normal,
    decreases feeds.len(),
{
    let care = careful_changing();
    let none = Seq::<u8>::empty();
    if feeds.len() == 0 {
        lemma_cut_ends(none);
        lemma_nothing(care);
        assert(none.subrange(0, 0) =~= none);
        assert(end.pending =~= none);
        assert(handed(none, none, 0, out, end.pending, care));
    } else {
        let before = feeds.drop_last();
        let bytes = feeds.last().bytes();
        let (o, mid) = choose|o: Seq<u8>, mid: Stream| #[trigger]
            gives(o, mid) && streamed(st, before, o, mid) && begins_with(out, o) && feeds.last().leads(
                mid,
                behind(out, o),
                end,
            );
        let more = behind(out, o);
        assert forall|k: int| 0 <= k < before.len() implies fit(
            (#[trigger] before[k]).bytes(),
            st.live,
        ) by {
            assert(before[k] == feeds[k]);
        }
        assert(fit(feeds[feeds.len() - 1].bytes(), st.live));
        lemma_streamed_whole(st, before, o, mid);
        lemma_kept_fit(fed(before), o, mid.pending, care, st.live);
        lemma_kept_len(fed(before), o, mid.pending, care);
        lemma_feed_live(feeds.last(), mid, more, end);
        match feeds.last() {
            Feed::Chunk(_) => lemma_whole_chunk(mid, bytes, more, end),
            Feed::Echo => {
                reveal(Feed::leads);
                showing_echo_changes_colors_only(mid, more, end, care);
                assert(mid.pending + bytes =~= mid.pending);
            },
        }
        lemma_hands_on(fed(before), o, mid.pending, bytes, more, end.pending, care);
        lemma_fit_concat(fed(before), bytes, st.live);
        assert(o + more =~= out);
    }
}

proof fn lemma_kept_len(given: Seq<u8>, out: Seq<u8>, kept: Seq<u8>, care: Care)
    requires
        hands_out(given, out, kept, care),
    ensures
        kept.len() <= given.len(),
{
    let (s, n) = choose|s: Seq<u8>, n: int| #[trigger] handed(given, s, n, out, kept, care);
}

/// Where every chunk is well-formed text, a stream shows it as it is, whether
/// someone types at it or not; all that changes are colors. (Where someone
/// types, a carriage return within a control could be taken for the end of a
/// command.)
#[verifier::rlimit(60)]
#[verifier::spinoff_prover]
pub proof fn live_streams_keep_visible_text(
    st: Stream,
    feeds: Seq<Feed>,
    out: Seq<u8>,
    mid: Stream,
    rest: Seq<u8>,
    end: Stream,
)
    requires
        at_rest(st),
        whole_chunks(feeds, st.live),
        streamed(st, feeds, out, mid),
        finishes(mid, rest, end),
        fed(feeds).len() <= usize::MAX,
    ensures
        visible(out + rest) == visible(fed(feeds)),
        recolored(out + rest, fed(feeds), careful_changing()),
{
    let x = fed(feeds);
    let care = careful_changing();
    lemma_streamed_whole(st, feeds, out, mid);
    lemma_kept_fit(x, out, mid.pending, care, st.live);
    lemma_well_formed_whole(mid.pending);
    assert(left_over(mid) == mid.pending);
    finishing_changes_colors_only(mid, rest, end, care);
    let (s, n) = choose|s: Seq<u8>, n: int| #[trigger] handed(x, s, n, out, mid.pending, care);
    recoloring_goes_on(out, x.subrange(0, n), rest, mid.pending, care);
    assert(x.subrange(0, n) + mid.pending =~= x);
    careful_recoloring_shows_the_same(out + rest, x, care);
}

/// A stream that has ended has nothing more to give.
#[verifier::rlimit(60)]
#[verifier::spinoff_prover]
pub proof fn finishing_twice_gives_nothing(
    st: Stream,
    out: Seq<u8>,
    end: Stream,
    again: Seq<u8>,
    last: Stream,
)
    requires
        tidy(st.native),
        finishes(st, out, end),
        finishes(end, again, last),
    ensures
        again.len() == 0,
{
    let care = changing();
    finishing_changes_colors_only(st, out, end, care);
    finishing_keeps_settings(st, out, end);
    let none = Seq::<u8>::empty();
    assert(end.pending =~= none);
    lemma_well_formed_whole(none);
    let rest = left_over(end);
    assert(rest =~= none);
    let start = Stream { pending: none, filter: OversizedStringControlMode::Normal, ..end };
    let cut = or_all(rest, cut_char_start(rest));
    assert(rest.subrange(0, cut) =~= none);
    let (o, mid) = choose|o: Seq<u8>, mid: Stream| #[trigger]
        output_run(start, rest.subrange(0, cut), o, mid) && ({
            let body = o + rest.subrange(cut, rest.len() as int);
            if end.live {
                again == body + mid.overlay_end() && last == mid.bare()
            } else {
                again == body && last == mid
            }
        });
    if !start.live {
        reveal(chunk_run);
        let done = choose|done: Step| #[trigger]
            tokens_run(chunk_start(start), tokens_of(none), done) && chunk_ends(done, o, mid);
        assert(tokens_of(none).len() == 0);
    }
}

} // verus!
