//! Recorded audio, and how it is cut into frames.

use vstd::prelude::*;

verus! {

/// Frames have so many samples a second.
pub const TARGET_SAMPLE_RATE: u32 = 16_000;

/// Frames are so many milliseconds long.
pub const FRAME_MS: u32 = 20;

/// Frames have so many samples.
pub const FRAME_SAMPLES: usize = 320;

/// Some consecutive samples of one channel.
#[derive(Debug, Clone, PartialEq, Eq)]
pub struct AudioFrame {
    pub pcm: Vec<i16>,
    pub sample_rate: u32,
}

/// How many samples a frame is made from where the device gives `input_rate` samples a second.
pub fn input_samples_per_frame(input_rate: u32) -> (samples: usize)
    ensures
        samples == input_rate * FRAME_MS / 1000,
{
    let samples: u64 = (input_rate as u64) * 20 / 1000;
    assert(input_rate * FRAME_MS == input_rate * 20) by (nonlinear_arith)
        requires
            FRAME_MS == 20,
    ;
    samples as usize
}

/// The whole chunks of `n` that `s` starts with.
pub open spec fn chunks_of<T>(s: Seq<T>, n: int) -> Seq<Seq<T>>
    decreases s.len(),
{
    if n <= 0 || s.len() < n {
        Seq::empty()
    } else {
        seq![s.take(n)] + chunks_of(s.skip(n), n)
    }
}

/// What is left of `s` behind its whole chunks of `n`.
pub open spec fn rest_of<T>(s: Seq<T>, n: int) -> Seq<T>
    decreases s.len(),
{
    if n <= 0 || s.len() < n {
        s
    } else {
        rest_of(s.skip(n), n)
    }
}

/// The contents of vectors.
pub open spec fn contents<T>(v: Seq<Vec<T>>) -> Seq<Seq<T>> {
    v.map_values(|x: Vec<T>| x@)
}

/// Takes the whole chunks of `chunk_len` samples out of `buffer`; what is left over stays in it.
pub fn drain_chunks<T: Copy>(buffer: &mut Vec<T>, chunk_len: usize) -> (chunks: Vec<Vec<T>>)
    requires
        chunk_len > 0,
    ensures
        contents(chunks@) == chunks_of(old(buffer)@, chunk_len as int),
        final(buffer)@ == rest_of(old(buffer)@, chunk_len as int),
{
    let ghost all = buffer@;
    let mut chunks: Vec<Vec<T>> = Vec::new();
    let mut at: usize = 0;
    assert(all.skip(0) == all);
    assert(contents(chunks@) + chunks_of(all, chunk_len as int) == chunks_of(
        all,
        chunk_len as int,
    ));
    while buffer.len() - at >= chunk_len
        invariant
            all == buffer@,
            *buffer == *old(buffer),
            at <= buffer.len(),
            chunk_len > 0,
            chunks_of(all, chunk_len as int) == contents(chunks@) + chunks_of(
                all.skip(at as int),
                chunk_len as int,
            ),
            rest_of(all, chunk_len as int) == rest_of(all.skip(at as int), chunk_len as int),
        decreases buffer@.len() - at,
    {
        let ghost rest = all.skip(at as int);
        let ghost before = contents(chunks@);
        let mut chunk: Vec<T> = Vec::new();
        let mut i: usize = 0;
        while i < chunk_len
            invariant
                all == buffer@,
                i <= chunk_len,
                at + chunk_len <= buffer.len(),
                chunk@ == all.subrange(at as int, at + i),
            decreases chunk_len - i,
        {
            chunk.push(buffer[at + i]);
            i += 1;
        }
        proof {
            assert(chunk@ == rest.take(chunk_len as int));
            assert(rest.skip(chunk_len as int) == all.skip(at + chunk_len));
        }
        let ghost one = chunk@;
        chunks.push(chunk);
        at += chunk_len;
        proof {
            assert(contents(chunks@) == before.push(one));
            assert(before + (seq![one] + chunks_of(all.skip(at as int), chunk_len as int))
                == before.push(one) + chunks_of(all.skip(at as int), chunk_len as int));
        }
    }
    let mut left: Vec<T> = Vec::new();
    let mut i: usize = at;
    while i < buffer.len()
        invariant
            all == buffer@,
            at <= i <= buffer.len(),
            left@ == all.subrange(at as int, i as int),
        decreases buffer@.len() - i,
    {
        left.push(buffer[i]);
        i += 1;
    }
    assert(left@ == all.skip(at as int));
    assert(contents(chunks@) + Seq::<Seq<T>>::empty() == contents(chunks@));
    *buffer = left;
    chunks
}

/// Cutting into chunks loses nothing: the chunks, one after the other, and then the rest are what
/// was there; and what is left over is shorter than a chunk.
pub proof fn chunks_lose_nothing<T>(s: Seq<T>, n: int)
    requires
        n > 0,
    ensures
        rest_of(s, n).len() < n,
        flat(chunks_of(s, n)) + rest_of(s, n) == s,
        forall|k: int| 0 <= k < chunks_of(s, n).len() ==> (#[trigger] chunks_of(s, n)[k]).len() == n,
    decreases s.len(),
{
    if s.len() >= n {
        chunks_lose_nothing(s.skip(n), n);
        let rest = chunks_of(s.skip(n), n);
        lemma_flat_prepend(s.take(n), rest);
        assert(s.take(n) + flat(rest) + rest_of(s, n) == s.take(n) + (flat(rest) + rest_of(s, n)));
        assert(s.take(n) + s.skip(n) == s);
        assert forall|k: int| 0 <= k < chunks_of(s, n).len() implies (
        #[trigger] chunks_of(s, n)[k]).len() == n by {
            if k > 0 {
                assert(chunks_of(s, n)[k] == rest[k - 1]);
            }
        }
    } else {
        assert(flat(chunks_of(s, n)) + rest_of(s, n) == s);
    }
}

/// Pieces one after the other.
pub open spec fn flat<T>(pieces: Seq<Seq<T>>) -> Seq<T>
    decreases pieces.len(),
{
    if pieces.len() == 0 {
        Seq::empty()
    } else {
        flat(pieces.drop_last()) + pieces.last()
    }
}

proof fn lemma_flat_prepend<T>(first: Seq<T>, rest: Seq<Seq<T>>)
    ensures
        flat(seq![first] + rest) == first + flat(rest),
    decreases rest.len(),
{
    let all = seq![first] + rest;
    if rest.len() == 0 {
        assert(all.drop_last() == Seq::<Seq<T>>::empty());
        assert(flat(all.drop_last()) == Seq::<T>::empty());
        assert(flat(all) == first + flat(rest));
    } else {
        lemma_flat_prepend(first, rest.drop_last());
        assert(all.drop_last() == seq![first] + rest.drop_last());
        assert(flat(all) == first + flat(rest));
    }
}

/// A second of recording is sixteen thousand samples, in fifty frames of the same length.
pub proof fn fifty_frames_are_a_second()
    ensures
        TARGET_SAMPLE_RATE == 16_000,
        50 * FRAME_SAMPLES == TARGET_SAMPLE_RATE,
        50 * FRAME_MS == 1_000,
{
}

} // verus!
