//! Making phrases final while recording goes on.
//!
//! Speech is found in the recording again and again as it grows. Once the speaker pauses, all
//! speech since the last final phrase is transcribed as one phrase. A cursor counts the samples
//! that final phrases have used up; it only ever moves forward.

use vstd::prelude::*;
use std::ops::Range;
use crate::dictation::normalize_dictation_commands;
use crate::guards::{
    build_rolling_prompt, is_prompt_echo, is_repetition_loop, is_safe_whisper_output,
};
use crate::text::{to_chars, trim};
use crate::traditional::Traditional;
use crate::dictation::normalized;
use crate::guards::{is_echo, is_loop, is_safe, prompt_of};
use crate::text::{is_space, lemma_blank, strs, texts, trimmed};

verus! {

/// The pause that ends a phrase, in samples: two seconds.
pub const ROLLING_TRAILING_SILENCE_SAMPLES: usize = 32_000;

/// The pause that ends a long phrase, in samples: one second.
pub const ROLLING_TRAILING_SILENCE_FAST: usize = 16_000;

/// From so many samples of speech on, a phrase is long: five seconds.
pub const ROLLING_PENDING_SPEECH_FAST_LOCK: usize = 80_000;

/// Below so many samples of speech, no pause ends a phrase: one and a half seconds.
pub const ROLLING_MIN_LOCK_SPEECH: usize = 24_000;

/// The pause that ends a phrase while the user is editing, in samples: a tenth of a second. The
/// sooner the phrase ends, the sooner the next one is typed.
pub const ROLLING_TRAILING_SILENCE_EDITING: usize = 1_600;

/// Ranges as pairs of indices.
pub open spec fn spans(ranges: Seq<Range<usize>>) -> Seq<(int, int)> {
    ranges.map_values(|r: Range<usize>| (r.start as int, r.end as int))
}

/// What is left of `segments` behind the cursor: those before it go, one across it is cut.
pub open spec fn behind(segments: Seq<(int, int)>, cursor: int) -> Seq<(int, int)>
    decreases segments.len(),
{
    if segments.len() == 0 {
        segments
    } else {
        let (from, to) = segments.last();
        let start = if from < cursor {
            cursor
        } else {
            from
        };
        if start < to {
            behind(segments.drop_last(), cursor).push((start, to))
        } else {
            behind(segments.drop_last(), cursor)
        }
    }
}

/// The segments behind the cursor.
pub fn segments_pending(segments: &[Range<usize>], finalized_samples: usize) -> (pending: Vec<
    Range<usize>,
>)
    ensures
        spans(pending@) == behind(spans(segments@), finalized_samples as int),
{
    let ghost all = spans(segments@);
    let mut pending: Vec<Range<usize>> = Vec::new();
    let mut i: usize = 0;
    assert(spans(pending@) == behind(all.take(0), finalized_samples as int));
    while i < segments.len()
        invariant
            i <= segments@.len(),
            all == spans(segments@),
            spans(pending@) == behind(all.take(i as int), finalized_samples as int),
        decreases segments@.len() - i,
    {
        let ghost before = spans(pending@);
        proof {
            assert(all.take(i + 1).drop_last() == all.take(i as int));
            assert(all.take(i + 1).last() == all[i as int]);
        }
        let start: usize = if segments[i].start < finalized_samples {
            finalized_samples
        } else {
            segments[i].start
        };
        let end: usize = segments[i].end;
        if start < end {
            pending.push(start..end);
            assert(spans(pending@) == before.push((start as int, end as int)));
        }
        i += 1;
    }
    assert(all.take(i as int) == all);
    pending
}

/// Every segment that is left lies behind the cursor, holds something, and comes from one of the
/// segments that were there.
pub proof fn pending_speech_is_behind_the_cursor(segments: Seq<(int, int)>, cursor: int)
    ensures
        forall|k: int|
            0 <= k < behind(segments, cursor).len() ==> {
                let s = #[trigger] behind(segments, cursor)[k];
                cursor <= s.0 < s.1
            },
        forall|k: int|
            0 <= k < behind(segments, cursor).len() ==> exists|j: int|
                0 <= j < segments.len() && (#[trigger] segments[j]).1 == (#[trigger] behind(
                    segments,
                    cursor,
                )[k]).1 && segments[j].0 <= behind(segments, cursor)[k].0,
    decreases segments.len(),
{
    if segments.len() > 0 {
        let init = segments.drop_last();
        pending_speech_is_behind_the_cursor(init, cursor);
        let b = behind(init, cursor);
        let all = behind(segments, cursor);
        assert forall|k: int| 0 <= k < all.len() implies cursor <= (#[trigger] all[k]).0
            < all[k].1 by {
            if k < b.len() {
                assert(all[k] == b[k]);
            }
        }
        assert forall|k: int| 0 <= k < all.len() implies exists|j: int|
            0 <= j < segments.len() && (#[trigger] segments[j]).1 == (#[trigger] all[k]).1
                && segments[j].0 <= all[k].0 by {
            if k < b.len() {
                assert(all[k] == b[k]);
                let j = choose|j: int|
                    0 <= j < init.len() && (#[trigger] init[j]).1 == b[k].1 && init[j].0 <= b[k].0;
                assert(segments[j] == init[j]);
            } else {
                assert(segments[segments.len() - 1].1 == all[k].1);
            }
        }
    }
}

/// The pause that ends a phrase after so much speech; the greatest number there is where no pause
/// does.
pub open spec fn pause_for(pending: int) -> int {
    if pending < ROLLING_MIN_LOCK_SPEECH {
        usize::MAX as int
    } else if pending >= ROLLING_PENDING_SPEECH_FAST_LOCK {
        ROLLING_TRAILING_SILENCE_FAST as int
    } else {
        ROLLING_TRAILING_SILENCE_SAMPLES as int
    }
}

/// The pause that ends a phrase after `pending_speech_samples` of speech: the longer the phrase,
/// the shorter the pause. `usize::MAX` stands for never.
pub fn rolling_trailing_silence_for(pending_speech_samples: usize) -> (pause: usize)
    ensures
        pause == pause_for(pending_speech_samples as int),
{
    if pending_speech_samples < ROLLING_MIN_LOCK_SPEECH {
        usize::MAX
    } else if pending_speech_samples >= ROLLING_PENDING_SPEECH_FAST_LOCK {
        ROLLING_TRAILING_SILENCE_FAST
    } else {
        ROLLING_TRAILING_SILENCE_SAMPLES
    }
}

/// More speech never calls for a longer pause.
pub proof fn longer_phrases_need_no_longer_pause(a: int, b: int)
    requires
        0 <= a <= b,
    ensures
        pause_for(b) <= pause_for(a),
{
}

/// What takes the place of the pause that ends a phrase: a very short one while the user is
/// editing.
pub fn pause_instead(editing: bool) -> (pause: Option<usize>)
    ensures
        pause == if editing {
            Some(ROLLING_TRAILING_SILENCE_EDITING)
        } else {
            None
        },
{
    if editing {
        Some(ROLLING_TRAILING_SILENCE_EDITING)
    } else {
        None
    }
}

/// Whether the speaker has paused: enough silence behind the last of the segments.
pub open spec fn has_paused(ends: Seq<usize>, buffer_len: int, pause: int) -> bool {
    &&& ends.len() > 0
    &&& (if buffer_len >= ends.last() {
        buffer_len - ends.last()
    } else {
        0
    }) >= pause
}

/// Which segments become final now: all that are not yet, once recording has ended or the speaker
/// has paused; none before.
pub fn segments_ready_to_finalize(
    segment_ends: &[usize],
    buffer_len: usize,
    finalized: usize,
    trailing_silence_samples: usize,
    is_final: bool,
) -> (ready: Range<usize>)
    ensures
        ({
            let total = segment_ends@.len() as int;
            let done = if finalized < total {
                finalized as int
            } else {
                total
            };
            let now = is_final || has_paused(
                segment_ends@,
                buffer_len as int,
                trailing_silence_samples as int,
            );
            ready.start == done && ready.end == if now {
                total
            } else {
                done
            }
        }),
        ready.start <= ready.end <= segment_ends@.len(),
{
    let total: usize = segment_ends.len();
    let now = is_final || (total > 0 && buffer_len.saturating_sub(segment_ends[total - 1])
        >= trailing_silence_samples);
    let end: usize = if now || finalized > total {
        total
    } else {
        finalized
    };
    let start: usize = if finalized < end {
        finalized
    } else {
        end
    };
    start..end
}

/// Whether closing a session has delivered all speech: a phrase became final, or there was no
/// speech left. If not, the live transcript has to be used.
pub fn rolling_final_flush_delivered(phrase_locked: bool, pending_speech_samples: usize) -> (b: bool)
    ensures
        b == (phrase_locked || pending_speech_samples == 0),
{
    phrase_locked || pending_speech_samples == 0
}

// ---------------------------------------------------------------------------
// One step
// ---------------------------------------------------------------------------

/// The segments moved by `offset`.
pub open spec fn moved(segments: Seq<(int, int)>, offset: int) -> Seq<(int, int)> {
    segments.map_values(|s: (int, int)| (s.0 + offset, s.1 + offset))
}

/// How many samples the segments hold together.
pub open spec fn total_len(segments: Seq<(int, int)>) -> int
    decreases segments.len(),
{
    if segments.len() == 0 {
        0
    } else {
        total_len(segments.drop_last()) + (segments.last().1 - segments.last().0)
    }
}

/// The samples of the segments, one segment after the other.
pub open spec fn cut_out<T>(pcm: Seq<T>, segments: Seq<(int, int)>) -> Seq<T>
    decreases segments.len(),
{
    if segments.len() == 0 {
        Seq::empty()
    } else {
        cut_out(pcm, segments.drop_last()) + pcm.subrange(segments.last().0, segments.last().1)
    }
}

/// The samples of the segments, one segment after the other.
pub fn concat_speech<T: Copy>(ranges: &[Range<usize>], samples: &[T]) -> (speech: Vec<T>)
    requires
        forall|k: int|
            0 <= k < ranges@.len() ==> (#[trigger] ranges@[k]).start <= ranges@[k].end
                <= samples@.len(),
    ensures
        speech@ == cut_out(samples@, spans(ranges@)),
{
    let ghost all = spans(ranges@);
    let mut speech: Vec<T> = Vec::new();
    let mut i: usize = 0;
    while i < ranges.len()
        invariant
            i <= ranges@.len(),
            all == spans(ranges@),
            forall|k: int|
                0 <= k < ranges@.len() ==> (#[trigger] ranges@[k]).start <= ranges@[k].end
                    <= samples@.len(),
            speech@ == cut_out(samples@, all.take(i as int)),
        decreases ranges@.len() - i,
    {
        proof {
            assert(all.take(i + 1).drop_last() == all.take(i as int));
            assert(all.take(i + 1).last() == all[i as int]);
        }
        let start: usize = ranges[i].start;
        let end: usize = ranges[i].end;
        let ghost before = speech@;
        let mut k: usize = start;
        while k < end
            invariant
                start <= k <= end <= samples@.len(),
                speech@ == before + samples@.subrange(start as int, k as int),
            decreases end - k,
        {
            speech.push(samples[k]);
            k += 1;
            assert(samples@.subrange(start as int, k as int) == samples@.subrange(
                start as int,
                k - 1,
            ).push(samples@[k - 1]));
        }
        i += 1;
    }
    assert(all.take(i as int) == all);
    speech
}

/// A segment that was found, cut down to what was recorded. One that ends before it starts is
/// empty.
pub open spec fn clamped(segment: (int, int), total: int) -> (int, int) {
    let end = at_most(segment.1, total);
    (at_most(segment.0, end), end)
}

/// The segments cut down to what was recorded, without the empty ones.
pub open spec fn speech_in(found: Seq<(int, int)>, total: int) -> Seq<(int, int)>
    decreases found.len(),
{
    if found.len() == 0 {
        Seq::empty()
    } else {
        let rest = speech_in(found.drop_last(), total);
        let last = clamped(found.last(), total);
        if last.0 < last.1 {
            rest.push(last)
        } else {
            rest
        }
    }
}

/// Segments as pairs of numbers.
pub open spec fn bounds_of(found: Seq<(usize, usize)>) -> Seq<(int, int)> {
    found.map_values(|s: (usize, usize)| (s.0 as int, s.1 as int))
}

/// The speech that was found in `total` samples: the segments cut down to what was recorded,
/// without the empty ones.
pub fn speech_ranges(found: &[(usize, usize)], total: usize) -> (ranges: Vec<Range<usize>>)
    ensures
        spans(ranges@) == speech_in(bounds_of(found@), total as int),
        forall|k: int|
            0 <= k < ranges@.len() ==> (#[trigger] ranges@[k]).start < ranges@[k].end <= total,
{
    let ghost all = bounds_of(found@);
    let mut ranges: Vec<Range<usize>> = Vec::new();
    let mut i: usize = 0;
    assert(spans(ranges@) == Seq::<(int, int)>::empty());
    while i < found.len()
        invariant
            i <= found@.len(),
            all == bounds_of(found@),
            spans(ranges@) == speech_in(all.take(i as int), total as int),
            forall|k: int|
                0 <= k < ranges@.len() ==> (#[trigger] ranges@[k]).start < ranges@[k].end <= total,
        decreases found@.len() - i,
    {
        proof {
            assert(all.take(i + 1).drop_last() == all.take(i as int));
            assert(all.take(i + 1).last() == all[i as int]);
        }
        let ghost before = spans(ranges@);
        let end: usize = if found[i].1 <= total {
            found[i].1
        } else {
            total
        };
        let start: usize = if found[i].0 <= end {
            found[i].0
        } else {
            end
        };
        if start < end {
            ranges.push(start..end);
            assert(spans(ranges@) == before.push((start as int, end as int)));
        }
        i += 1;
    }
    assert(all.take(i as int) == all);
    ranges
}

/// The smaller of two numbers.
pub open spec fn at_most(a: int, limit: int) -> int {
    if a <= limit {
        a
    } else {
        limit
    }
}

/// Something to transcribe: the samples, what to prompt the transcriber with, and where the cursor
/// goes when the transcript is accepted.
#[derive(Debug, PartialEq, Eq)]
pub struct SpanRequest {
    pub span: Vec<i16>,
    pub prompt: Option<String>,
    pub end: usize,
}

/// What one step has found: how much speech is not yet final, and what to transcribe now.
#[derive(Debug, PartialEq, Eq)]
pub struct RollingPlan {
    pub pending_speech_samples: usize,
    pub request: Option<SpanRequest>,
}

/// The speech that is not yet final, in samples of the whole recording. `segments` counts from the
/// cursor on.
pub open spec fn unfinished(segments: Seq<(int, int)>, finalized: int, len: int) -> Seq<(int, int)> {
    behind(moved(segments, at_most(finalized, len)), finalized)
}

/// The prompt, where there are terms to prompt with.
pub open spec fn prompt_for(terms: Option<&[&str]>) -> Option<Seq<char>> {
    match terms {
        Some(t) => Some(prompt_of(strs(t@))),
        None => None,
    }
}

/// A phrase ends now: recording has ended, or the speaker has paused long enough. There has to be
/// some speech.
pub open spec fn phrase_ends(
    pending: Seq<(int, int)>,
    len: int,
    is_final: bool,
    pause: Option<usize>,
) -> bool {
    let needed = match pause {
        Some(p) => p as int,
        None => pause_for(at_most(total_len(pending), usize::MAX as int)),
    };
    pending.len() > 0 && (is_final || (if len >= pending.last().1 {
        len - pending.last().1
    } else {
        0
    }) >= needed)
}

/// While the user is editing, every phrase ends that would end otherwise.
pub proof fn editing_ends_phrases_no_later(pending: Seq<(int, int)>, len: int, is_final: bool)
    requires
        phrase_ends(pending, len, is_final, None),
    ensures
        phrase_ends(pending, len, is_final, Some(ROLLING_TRAILING_SILENCE_EDITING)),
{
}

/// Where in the recording to look for speech: from the cursor on.
pub fn rolling_offset(pcm_len: usize, finalized_samples: usize) -> (offset: usize)
    ensures
        offset == at_most(finalized_samples as int, pcm_len as int),
{
    if finalized_samples < pcm_len {
        finalized_samples
    } else {
        pcm_len
    }
}

/// Decides what to do about the speech that was found in `pcm` from the cursor on. `pause` takes
/// the place of the pause that ends a phrase, where it is given.
pub fn plan_rolling_tick(
    pcm: &[i16],
    segments: &[Range<usize>],
    finalized_samples: usize,
    is_final: bool,
    prompt_terms: Option<&[&str]>,
    pause: Option<usize>,
) -> (plan: RollingPlan)
    requires
        forall|i: int|
            0 <= i < segments@.len() ==> (#[trigger] segments@[i]).start <= segments@[i].end
                <= pcm@.len() - at_most(finalized_samples as int, pcm@.len() as int),
    ensures
        ({
            let pending = unfinished(
                spans(segments@),
                finalized_samples as int,
                pcm@.len() as int,
            );
            &&& plan.pending_speech_samples == at_most(total_len(pending), usize::MAX as int)
            &&& plan.request is Some <==> phrase_ends(
                pending,
                pcm@.len() as int,
                is_final,
                pause,
            )
            &&& plan.request matches Some(request) ==> {
                &&& request.span@ == cut_out(pcm@, pending)
                &&& request.end == pending.last().1
                &&& match request.prompt {
                    Some(p) => prompt_for(prompt_terms) == Some(p@),
                    None => prompt_for(prompt_terms) is None,
                }
            }
        }),
        plan.request matches Some(request) ==> {
            &&& finalized_samples < request.end <= pcm@.len()
            &&& request.span@.len() == plan.pending_speech_samples
        },
{
    let offset: usize = rolling_offset(pcm.len(), finalized_samples);
    let ghost found = spans(segments@);
    let mut absolute: Vec<Range<usize>> = Vec::new();
    let mut i: usize = 0;
    while i < segments.len()
        invariant
            i <= segments@.len(),
            found == spans(segments@),
            offset <= pcm.len(),
            forall|k: int|
                0 <= k < segments@.len() ==> (#[trigger] segments@[k]).start <= segments@[k].end
                    <= pcm@.len() - offset,
            spans(absolute@) == moved(found, offset as int).take(i as int),
            forall|k: int| 0 <= k < i ==> (#[trigger] absolute@[k]).end <= pcm@.len(),
        decreases segments@.len() - i,
    {
        let ghost before = spans(absolute@);
        absolute.push(segments[i].start + offset..segments[i].end + offset);
        assert(spans(absolute@) == before.push(moved(found, offset as int)[i as int]));
        i += 1;
    }
    assert(moved(found, offset as int).take(i as int) == moved(found, offset as int));
    let pending = segments_pending(absolute.as_slice(), finalized_samples);
    let ghost ps = spans(pending@);
    proof {
        pending_speech_is_behind_the_cursor(spans(absolute@), finalized_samples as int);
        assert forall|k: int| 0 <= k < pending@.len() implies finalized_samples <= (
        #[trigger] pending@[k]).start < pending@[k].end <= pcm@.len() by {
            assert(ps[k] == (pending@[k].start as int, pending@[k].end as int));
            let j = choose|j: int|
                0 <= j < spans(absolute@).len() && (#[trigger] spans(absolute@)[j]).1 == ps[k].1
                    && spans(absolute@)[j].0 <= ps[k].0;
            assert(spans(absolute@)[j].1 == absolute@[j].end);
        }
    }
    // How much speech there is, and where each segment ends.
    let mut speech: usize = 0;
    let mut ends: Vec<usize> = Vec::new();
    i = 0;
    while i < pending.len()
        invariant
            i <= pending@.len(),
            ps == spans(pending@),
            forall|k: int|
                0 <= k < pending@.len() ==> finalized_samples <= (#[trigger] pending@[k]).start
                    < pending@[k].end <= pcm@.len(),
            speech == at_most(total_len(ps.take(i as int)), usize::MAX as int),
            total_len(ps.take(i as int)) >= 0,
            ends@.len() == i,
            forall|k: int| 0 <= k < i ==> #[trigger] ends@[k] == pending@[k].end,
        decreases pending@.len() - i,
    {
        proof {
            assert(ps.take(i + 1).drop_last() == ps.take(i as int));
            assert(ps.take(i + 1).last() == ps[i as int]);
        }
        speech = speech.saturating_add(pending[i].end - pending[i].start);
        ends.push(pending[i].end);
        i += 1;
    }
    assert(ps.take(i as int) == ps);
    let needed: usize = match pause {
        Some(p) => p,
        None => rolling_trailing_silence_for(speech),
    };
    let ready = segments_ready_to_finalize(ends.as_slice(), pcm.len(), 0, needed, is_final);
    proof {
        if ends@.len() > 0 {
            assert(ends@.last() == ps.last().1);
        }
    }
    if ready.start >= ready.end {
        return RollingPlan { pending_speech_samples: speech, request: None };
    }
    let span: Vec<i16> = concat_speech(pending.as_slice(), pcm);
    proof {
        assert forall|k: int| 0 <= k < ps.len() implies 0 <= (#[trigger] ps[k]).0 <= ps[k].1
            <= pcm@.len() by {
            assert(ps[k] == (pending@[k].start as int, pending@[k].end as int));
        }
        counted_speech_is_what_is_transcribed(pcm@, ps);
        assert(span@.len() == span.len() <= usize::MAX);
    }
    let prompt = match prompt_terms {
        Some(terms) => Some(build_rolling_prompt(terms)),
        None => None,
    };
    let end: usize = pending[pending.len() - 1].end;
    RollingPlan { pending_speech_samples: speech, request: Some(SpanRequest { span, prompt, end }) }
}

/// What one step comes to.
#[derive(Debug, PartialEq, Eq)]
pub struct RollingTickOutcome {
    /// The phrase that became final.
    pub phrase: Option<String>,
    /// Transcripts that were not trusted; the same speech is tried again later.
    pub rejected: Vec<String>,
    /// The cursor after the step.
    pub finalized_samples: usize,
    /// How much speech was not yet final before the step.
    pub pending_speech_samples: usize,
}

/// A transcript is not trusted: it holds foreign characters, repeats itself, or is the prompt.
pub open spec fn is_distrusted(transcript: Seq<char>, terms: Option<&[&str]>) -> bool {
    ||| !is_safe(transcript)
    ||| is_loop(transcript)
    ||| match terms {
        Some(t) => is_echo(transcript, strs(t@)),
        None => false,
    }
}

/// An outcome without a phrase: the cursor stays.
pub open spec fn nothing_locked(
    o: RollingTickOutcome,
    rejected: Seq<Seq<char>>,
    cursor: usize,
    pending: usize,
) -> bool {
    &&& o.phrase is None
    &&& texts(o.rejected@) == rejected
    &&& o.finalized_samples == cursor
    &&& o.pending_speech_samples == pending
}

/// What a step comes to once `transcript` is there, with `converted` being the transcript in
/// traditional Chinese.
pub open spec fn outcome_is(
    o: RollingTickOutcome,
    plan: RollingPlan,
    cursor: usize,
    transcript: Seq<char>,
    converted: Seq<char>,
    terms: Option<&[&str]>,
) -> bool {
    let pending = plan.pending_speech_samples;
    if plan.request is None || trimmed(transcript).len() == 0 {
        nothing_locked(o, Seq::empty(), cursor, pending)
    } else if is_distrusted(transcript, terms) {
        nothing_locked(o, seq![transcript], cursor, pending)
    } else {
        &&& o.phrase matches Some(p) && p@ == normalized(converted)
        &&& texts(o.rejected@) == Seq::<Seq<char>>::empty()
        &&& o.finalized_samples == plan.request->0.end
        &&& o.pending_speech_samples == pending
    }
}

/// Whether a transcript may become a phrase at all: it says something, and it is trusted.
pub fn is_accepted(transcript: &str, prompt_terms: Option<&[&str]>) -> (b: bool)
    ensures
        b == (trimmed(transcript@).len() > 0 && !is_distrusted(transcript@, prompt_terms)),
{
    let chars = to_chars(transcript);
    if trim(chars.as_slice()).len() == 0 {
        return false;
    }
    if !is_safe_whisper_output(transcript) || is_repetition_loop(transcript) {
        return false;
    }
    match prompt_terms {
        Some(terms) => !is_prompt_echo(transcript, terms),
        None => true,
    }
}

/// Takes the transcript of the planned span in, together with the same transcript in traditional
/// Chinese, and says what the step comes to.
pub fn settle_rolling_tick(
    plan: &RollingPlan,
    finalized_samples: usize,
    transcript: &str,
    converted: &str,
    prompt_terms: Option<&[&str]>,
) -> (outcome: RollingTickOutcome)
    ensures
        outcome_is(
            outcome,
            *plan,
            finalized_samples,
            transcript@,
            converted@,
            prompt_terms,
        ),
{
    let mut rejected: Vec<String> = Vec::new();
    assert(texts(rejected@) == Seq::<Seq<char>>::empty());
    let pending: usize = plan.pending_speech_samples;
    match &plan.request {
        Some(request) => {
            if is_accepted(transcript, prompt_terms) {
                RollingTickOutcome {
                    phrase: Some(normalize_dictation_commands(converted)),
                    rejected,
                    finalized_samples: request.end,
                    pending_speech_samples: pending,
                }
            } else {
                let chars = to_chars(transcript);
                if trim(chars.as_slice()).len() > 0 {
                    rejected.push(transcript.to_owned());
                    assert(texts(rejected@) == seq![transcript@]);
                }
                RollingTickOutcome {
                    phrase: None,
                    rejected,
                    finalized_samples,
                    pending_speech_samples: pending,
                }
            }
        },
        None => RollingTickOutcome {
            phrase: None,
            rejected,
            finalized_samples,
            pending_speech_samples: pending,
        },
    }
}

/// Takes the transcript of the planned span in and says what the step comes to: a trusted
/// transcript becomes a phrase in traditional Chinese with its dictation commands carried out, and
/// the cursor moves behind its speech.
pub fn finish_rolling_tick(
    plan: &RollingPlan,
    finalized_samples: usize,
    transcript: &str,
    prompt_terms: Option<&[&str]>,
    traditional: &Traditional,
) -> (outcome: RollingTickOutcome)
    ensures
        outcome_is(
            outcome,
            *plan,
            finalized_samples,
            transcript@,
            traditional.converted(transcript@),
            prompt_terms,
        ),
{
    let converted = traditional.to_traditional(transcript);
    settle_rolling_tick(plan, finalized_samples, transcript, converted.as_str(), prompt_terms)
}

/// The cursor never moves back, moves only when a phrase becomes final, and then stops where the
/// phrase's last speech ends.
pub proof fn cursor_only_moves_with_a_phrase(
    o: RollingTickOutcome,
    plan: RollingPlan,
    cursor: usize,
    transcript: Seq<char>,
    converted: Seq<char>,
    terms: Option<&[&str]>,
)
    requires
        outcome_is(o, plan, cursor, transcript, converted, terms),
        plan.request matches Some(request) ==> cursor < request.end,
    ensures
        cursor <= o.finalized_samples,
        o.phrase is None ==> o.finalized_samples == cursor,
        o.phrase is Some ==> cursor < o.finalized_samples,
{
}

/// Speech is transcribed again later, and nothing is taken from it, where its transcript says nothing,
/// holds characters of other scripts, repeats itself or copies the prompt out; what was not trusted
/// is put on record. Any other transcript becomes a phrase, converted and with its commands carried
/// out, and uses up the speech.
pub proof fn only_doubtful_transcripts_are_tried_again(
    o: RollingTickOutcome,
    plan: RollingPlan,
    cursor: usize,
    transcript: Seq<char>,
    converted: Seq<char>,
    terms: Option<&[&str]>,
)
    requires
        outcome_is(o, plan, cursor, transcript, converted, terms),
        plan.request is Some,
    ensures
        ({
            let speaks = exists|i: int|
                0 <= i < transcript.len() && !is_space(#[trigger] transcript[i]);
            let copied = terms is Some && is_echo(transcript, strs((terms->0)@));
            let doubtful = !is_safe(transcript) || is_loop(transcript) || copied;
            &&& speaks && !doubtful <==> o.phrase is Some
            &&& o.phrase matches Some(p) ==> p@ == normalized(converted) && o.finalized_samples
                == (plan.request->0).end && o.rejected@.len() == 0
            &&& o.phrase is None ==> o.finalized_samples == cursor
            &&& speaks && doubtful ==> texts(o.rejected@) == seq![transcript]
            &&& !speaks ==> o.rejected@.len() == 0
            &&& o.pending_speech_samples == plan.pending_speech_samples
        }),
{
    lemma_blank(transcript);
    assert(texts(o.rejected@).len() == o.rejected@.len());
}

/// Nothing becomes final, and nothing is put on record, while there is nothing to transcribe.
pub proof fn no_phrase_without_a_request(
    o: RollingTickOutcome,
    plan: RollingPlan,
    cursor: usize,
    transcript: Seq<char>,
    converted: Seq<char>,
    terms: Option<&[&str]>,
)
    requires
        outcome_is(o, plan, cursor, transcript, converted, terms),
        plan.request is None,
    ensures
        o.phrase is None,
        o.rejected@.len() == 0,
        o.finalized_samples == cursor,
        o.pending_speech_samples == plan.pending_speech_samples,
{
    assert(texts(o.rejected@).len() == o.rejected@.len());
}

/// Once the cursor is behind some speech, that speech is never transcribed again: what is cut out
/// later lies behind the cursor, wherever speech is found.
pub proof fn final_speech_is_not_transcribed_again(
    segments: Seq<(int, int)>,
    finalized: int,
    len: int,
)
    ensures
        forall|k: int|
            0 <= k < unfinished(segments, finalized, len).len() ==> finalized <= (
            #[trigger] unfinished(segments, finalized, len)[k]).0,
{
    pending_speech_is_behind_the_cursor(moved(segments, at_most(finalized, len)), finalized);
}

// ---------------------------------------------------------------------------
// How much speech there is, and which
// ---------------------------------------------------------------------------

/// The samples of one segment are those from its start to its end, and it holds as many.
pub proof fn one_segment_is_its_samples<T>(pcm: Seq<T>, from: int, to: int)
    requires
        0 <= from <= to <= pcm.len(),
    ensures
        cut_out(pcm, seq![(from, to)]) == pcm.subrange(from, to),
        total_len(seq![(from, to)]) == to - from,
{
    let one = seq![(from, to)];
    assert(one.drop_last() == Seq::<(int, int)>::empty());
    assert(cut_out(pcm, one.drop_last()) == Seq::<T>::empty());
    assert(total_len(one.drop_last()) == 0);
    assert(Seq::<T>::empty() + pcm.subrange(from, to) == pcm.subrange(from, to));
}

/// Segments together hold what the first of them and then the others hold, and as much as both.
pub proof fn speech_adds_up<T>(pcm: Seq<T>, a: Seq<(int, int)>, b: Seq<(int, int)>)
    ensures
        cut_out(pcm, a + b) == cut_out(pcm, a) + cut_out(pcm, b),
        total_len(a + b) == total_len(a) + total_len(b),
    decreases b.len(),
{
    if b.len() == 0 {
        assert(a + b == a);
        assert(cut_out(pcm, a) + cut_out(pcm, b) == cut_out(pcm, a));
    } else {
        speech_adds_up(pcm, a, b.drop_last());
        assert((a + b).drop_last() == a + b.drop_last());
        assert((a + b).last() == b.last());
        assert(cut_out(pcm, a + b) == cut_out(pcm, a) + cut_out(pcm, b));
    }
}

/// The speech that is counted is the speech that is handed to the transcriber: so many samples.
pub proof fn counted_speech_is_what_is_transcribed<T>(pcm: Seq<T>, segments: Seq<(int, int)>)
    requires
        forall|k: int|
            0 <= k < segments.len() ==> 0 <= (#[trigger] segments[k]).0 <= segments[k].1
                <= pcm.len(),
    ensures
        total_len(segments) == cut_out(pcm, segments).len(),
    decreases segments.len(),
{
    if segments.len() > 0 {
        let init = segments.drop_last();
        assert forall|k: int| 0 <= k < init.len() implies 0 <= (#[trigger] init[k]).0 <= init[k].1
            <= pcm.len() by {
            assert(init[k] == segments[k]);
        }
        counted_speech_is_what_is_transcribed(pcm, init);
        let last = segments[segments.len() - 1];
        assert(0 <= last.0 <= last.1 <= pcm.len());
    }
}

/// Sample `t` lies in one of the segments.
pub open spec fn covers(segments: Seq<(int, int)>, t: int) -> bool {
    exists|k: int| 0 <= k < segments.len() && (#[trigger] segments[k]).0 <= t < segments[k].1
}

/// The segments follow one another.
pub open spec fn follow_one_another(segments: Seq<(int, int)>) -> bool {
    forall|j: int, k: int|
        0 <= j < k < segments.len() ==> (#[trigger] segments[j]).1 <= (#[trigger] segments[k]).0
}

proof fn lemma_covers_push(segments: Seq<(int, int)>, last: (int, int), t: int)
    ensures
        covers(segments.push(last), t) <==> covers(segments, t) || last.0 <= t < last.1,
{
    let all = segments.push(last);
    if covers(segments, t) {
        let k = choose|k: int|
            0 <= k < segments.len() && (#[trigger] segments[k]).0 <= t < segments[k].1;
        assert(all[k].0 <= t < all[k].1);
    }
    if last.0 <= t < last.1 {
        assert(all[segments.len() as int].0 <= t < all[segments.len() as int].1);
    }
    if covers(all, t) {
        let k = choose|k: int| 0 <= k < all.len() && (#[trigger] all[k]).0 <= t < all[k].1;
        if k < segments.len() {
            assert(segments[k].0 <= t < segments[k].1);
        }
    }
}

/// A sample is left behind the cursor exactly where it is speech and not before the cursor; the
/// segments that are left follow one another as they did.
pub proof fn all_speech_behind_the_cursor_is_left(segments: Seq<(int, int)>, cursor: int, t: int)
    ensures
        covers(behind(segments, cursor), t) <==> covers(segments, t) && cursor <= t,
        follow_one_another(segments) ==> follow_one_another(behind(segments, cursor)),
    decreases segments.len(),
{
    if segments.len() > 0 {
        let init = segments.drop_last();
        let last = segments.last();
        all_speech_behind_the_cursor_is_left(init, cursor, t);
        assert(init.push(last) == segments);
        lemma_covers_push(init, last, t);
        let start = if last.0 < cursor {
            cursor
        } else {
            last.0
        };
        lemma_covers_push(behind(init, cursor), (start, last.1), t);
        if follow_one_another(segments) {
            assert forall|j: int, k: int| 0 <= j < k < init.len() implies (#[trigger] init[j]).1
                <= (#[trigger] init[k]).0 by {
                assert(init[j] == segments[j] && init[k] == segments[k]);
            }
            let all = behind(segments, cursor);
            let b = behind(init, cursor);
            pending_speech_is_behind_the_cursor(init, cursor);
            assert forall|j: int, k: int| 0 <= j < k < all.len() implies (#[trigger] all[j]).1 <= (
            #[trigger] all[k]).0 by {
                assert(all[j] == b[j]);
                if k < b.len() {
                    assert(all[k] == b[k]);
                } else {
                    let i = choose|i: int|
                        0 <= i < init.len() && (#[trigger] init[i]).1 == b[j].1 && init[i].0
                            <= b[j].0;
                    assert(init[i] == segments[i]);
                    assert(segments[i].1 <= segments[segments.len() - 1].0);
                }
            }
        } else {
            assert(covers(behind(segments, cursor), t) <==> covers(segments, t) && cursor <= t);
        }
    } else {
        assert(behind(segments, cursor) == segments);
        assert(!covers(segments, t));
    }
}

/// A sample of the whole recording is not yet final exactly where it is not before the cursor and
/// speech was found there, counted from the cursor on.
pub proof fn speech_is_pending_until_it_is_final(
    segments: Seq<(int, int)>,
    finalized: int,
    len: int,
    t: int,
)
    requires
        0 <= finalized <= len,
    ensures
        covers(unfinished(segments, finalized, len), t) <==> finalized <= t && covers(
            segments,
            t - finalized,
        ),
        follow_one_another(segments) ==> follow_one_another(unfinished(segments, finalized, len)),
{
    let there = moved(segments, finalized);
    all_speech_behind_the_cursor_is_left(there, finalized, t);
    assert(covers(there, t) <==> covers(segments, t - finalized)) by {
        if covers(there, t) {
            let k = choose|k: int| 0 <= k < there.len() && (#[trigger] there[k]).0 <= t < there[k].1;
            assert(segments[k].0 <= t - finalized < segments[k].1);
        }
        if covers(segments, t - finalized) {
            let k = choose|k: int|
                0 <= k < segments.len() && (#[trigger] segments[k]).0 <= t - finalized
                    < segments[k].1;
            assert(there[k].0 <= t < there[k].1);
        }
    }
    if follow_one_another(segments) {
        assert forall|j: int, k: int| 0 <= j < k < there.len() implies (#[trigger] there[j]).1 <= (
        #[trigger] there[k]).0 by {
            assert(segments[j].1 <= segments[k].0);
        }
    }
}

/// Cutting segments down to what was recorded leaves exactly the samples that were recorded.
pub proof fn recorded_speech_is_kept(found: Seq<(int, int)>, total: int, t: int)
    ensures
        covers(speech_in(found, total), t) <==> covers(found, t) && t < total,
    decreases found.len(),
{
    if found.len() > 0 {
        let init = found.drop_last();
        recorded_speech_is_kept(init, total, t);
        assert(init.push(found.last()) == found);
        lemma_covers_push(init, found.last(), t);
        lemma_covers_push(speech_in(init, total), clamped(found.last(), total), t);
    }
}

/// When a phrase ends, by the speech that would be transcribed and the silence behind it, at
/// sixteen thousand samples a second: at the end of the recording; after five seconds of speech, at
/// a pause of one second; after one and a half, at a pause of two; before that at no pause.
pub proof fn phrases_end_at_pauses<T>(pcm: Seq<T>, pending: Seq<(int, int)>, is_final: bool)
    requires
        pcm.len() <= usize::MAX,
        pending.len() > 0,
        forall|k: int|
            0 <= k < pending.len() ==> 0 <= (#[trigger] pending[k]).0 < pending[k].1 <= pcm.len(),
    ensures
        ({
            let speech = cut_out(pcm, pending).len();
            let silence = pcm.len() - pending.last().1;
            phrase_ends(pending, pcm.len() as int, is_final, None) <==> {
                ||| is_final
                ||| speech >= 80_000 && silence >= 16_000
                ||| speech >= 24_000 && silence >= 32_000
            }
        }),
        !phrase_ends(Seq::empty(), pcm.len() as int, is_final, None),
{
    counted_speech_is_what_is_transcribed(pcm, pending);
    assert(0 <= pending[pending.len() - 1].0);
}

} // verus!
