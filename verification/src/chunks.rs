//! Raw terminal output, cut and cleaned into chunks that hold whole controls
//! and whole characters.

use vstd::prelude::*;

use crate::bytes::{copy_range, push_all};
use crate::controls::{strip_ansi, visible};
use crate::escapes::{
    incomplete_sanitize_start, lemma_settled_len, settled_len, MAX_INCOMPLETE_ESCAPE_BYTES,
};
use crate::sanitize::{sanitized, strip_string_escapes};
use crate::stream_model::incoming;
use crate::streaming::AnsiChunk;
use crate::string_filter::{filtered, OversizedStringControlFilter, OversizedStringControlMode};
use crate::utf8::{cut_char_start, is_incomplete_utf8_prefix};

verus! {

/// What is removed from the output: every control, the control strings, or
/// nothing.
pub open spec fn cleaned(strip: bool, sanitize: bool, s: Seq<u8>) -> Seq<u8> {
    if strip {
        visible(s)
    } else if sanitize {
        sanitized(s)
    } else {
        s
    }
}

/// A chunk, what waits for the next one, and how the string filter stands.
#[verifier::ext_equal]
pub struct Prepared {
    pub chunk: Seq<u8>,
    pub carry: Seq<u8>,
    pub mode: OversizedStringControlMode,
}

/// What waits for the next chunk: the open end of `s`, unless it is too long.
pub open spec fn carried(s: Seq<u8>) -> Seq<u8> {
    let rest = s.subrange(settled_len(s), s.len() as int);
    if rest.len() > MAX_INCOMPLETE_ESCAPE_BYTES {
        Seq::empty()
    } else {
        rest
    }
}

/// The chunk that `input` gives.
pub open spec fn prepared(
    carry: Seq<u8>,
    mode: OversizedStringControlMode,
    strip: bool,
    sanitize: bool,
    input: Seq<u8>,
) -> Prepared {
    let (taken, awake) = incoming(mode, input);
    match taken {
        None => Prepared { chunk: Seq::empty(), carry, mode: awake },
        Some(bytes) => {
            let (combined, next) = filtered(awake, carry + bytes);
            Prepared {
                chunk: cleaned(strip, sanitize, combined.subrange(0, settled_len(combined))),
                carry: carried(combined),
                mode: next,
            }
        },
    }
}

/// What is left at the end of the stream: a cut character stays as it is, an
/// open control is cleaned like the rest.
pub open spec fn trailing(strip: bool, sanitize: bool, carry: Seq<u8>) -> Seq<u8> {
    if cut_char_start(carry) == Some(0int) {
        carry
    } else {
        cleaned(strip, sanitize, carry)
    }
}

/// Output that is neither stripped nor sanitized, and holds no oversized
/// control string, loses no byte: each chunk and what waits behind it are
/// together what had waited and what was read.
pub proof fn preserving_loses_nothing(
    carry: Seq<u8>,
    mode: OversizedStringControlMode,
    input: Seq<u8>,
)
    requires
        !(mode is Discarding),
        filtered(mode, carry + input).0 == carry + input,
        carry.len() + input.len() - settled_len(carry + input) <= MAX_INCOMPLETE_ESCAPE_BYTES,
    ensures
        prepared(carry, mode, false, false, input).chunk + prepared(
            carry,
            mode,
            false,
            false,
            input,
        ).carry == carry + input,
{
    let s = carry + input;
    lemma_settled_len(s);
    assert(s.subrange(0, settled_len(s)) + s.subrange(settled_len(s), s.len() as int) =~= s);
}

/// Cleans output as the two switches say.
fn clean(strip: bool, sanitize: bool, bytes: &[u8]) -> (r: Vec<u8>)
    ensures
        r@ == cleaned(strip, sanitize, bytes@),
{
    if strip {
        strip_ansi(bytes)
    } else if sanitize {
        strip_string_escapes(bytes)
    } else {
        let copy = copy_range(bytes, 0, bytes.len());
        assert(copy@ =~= bytes@);
        copy
    }
}

/// What one chunk leaves for the next.
#[derive(Clone, Debug)]
pub struct ChunkFilterState {
    pub carry: Vec<u8>,
    pub oversized_string_controls: OversizedStringControlFilter,
}

impl Default for ChunkFilterState {
    fn default() -> (r: Self)
        ensures
            r.wf(),
            r.carry@ == Seq::<u8>::empty(),
            r.oversized_string_controls.mode == OversizedStringControlMode::Normal,
    {
        ChunkFilterState {
            carry: Vec::new(),
            oversized_string_controls: OversizedStringControlFilter::new(),
        }
    }
}

impl ChunkFilterState {
    pub open spec fn wf(self) -> bool {
        self.oversized_string_controls.wf()
    }

    /// The bytes to write at the end of the stream, if any are left.
    pub fn finish(&mut self, strip_existing_ansi: bool, sanitize: bool) -> (r: Option<Vec<u8>>)
        ensures
            final(self).oversized_string_controls == old(self).oversized_string_controls,
            final(self).carry@ == Seq::<u8>::empty(),
            match r {
                Some(bytes) => old(self).carry@.len() > 0 && bytes@ == trailing(
                    strip_existing_ansi,
                    sanitize,
                    old(self).carry@,
                ),
                None => old(self).carry@.len() == 0,
            },
    {
        let mut carry: Vec<u8> = Vec::new();
        std::mem::swap(&mut carry, &mut self.carry);
        if carry.len() == 0 {
            None
        } else if is_incomplete_utf8_prefix(carry.as_slice()) {
            Some(carry)
        } else {
            Some(clean(strip_existing_ansi, sanitize, carry.as_slice()))
        }
    }
}

/// Turns newly read bytes into the next chunk.
pub fn prepare_chunk(
    input: &[u8],
    strip_existing_ansi: bool,
    sanitize: bool,
    state: &mut ChunkFilterState,
) -> (r: AnsiChunk)
    requires
        old(state).wf(),
    ensures
        final(state).wf(),
        r.wf(),
        (Prepared {
            chunk: r@,
            carry: final(state).carry@,
            mode: final(state).oversized_string_controls.mode,
        }) == prepared(
            old(state).carry@,
            old(state).oversized_string_controls.mode,
            strip_existing_ansi,
            sanitize,
            input@,
        ),
{
    let taken = match state.oversized_string_controls.consume_discarded(input) {
        Some(taken) => taken,
        None => {
            let chunk = AnsiChunk::new(Vec::new());
            assert(chunk@ =~= Seq::<u8>::empty());
            return chunk;
        },
    };
    let mut joined: Vec<u8> = Vec::new();
    std::mem::swap(&mut joined, &mut state.carry);
    push_all(&mut joined, taken.as_slice());
    let combined = state.oversized_string_controls.filter_reassembled(joined.as_slice());
    proof {
        lemma_settled_len(combined@);
    }
    let split = match incomplete_sanitize_start(combined.as_slice()) {
        Some(at) => at,
        None => combined.len(),
    };
    if combined.len() - split <= MAX_INCOMPLETE_ESCAPE_BYTES {
        state.carry = copy_range(combined.as_slice(), split, combined.len());
    }
    let settled = copy_range(combined.as_slice(), 0, split);
    AnsiChunk::new(clean(strip_existing_ansi, sanitize, settled.as_slice()))
}

} // verus!
