//! What the transcriber is asked, and what becomes of its answer.

use vstd::prelude::*;
use vstd::slice::slice_subrange;
use crate::dictation::normalize_dictation_commands;
use crate::error::RaflowError;
use crate::text::{eq_folded, push_all, same_chars, to_chars, to_text, trim};
use crate::dictation::normalized;
use crate::text::{lower, same_folded, texts, trimmed};

verus! {

/// So many samples make one unit of the transcriber's window.
pub const SAMPLES_PER_AUDIO_CTX_TOKEN: usize = 320;

/// The whole window, in units.
pub const AUDIO_CTX_MAX: i32 = 1_500;

/// The smallest window that gives good transcripts, in units.
pub const AUDIO_CTX_MIN: i32 = 512;

/// What the window holds more than the speech, in units.
pub const AUDIO_CTX_MARGIN: i32 = 64;

/// The window for so many samples: what they take, rounded up, with a margin, within its limits.
pub open spec fn window_for(samples: int) -> int {
    let needed = (samples + (SAMPLES_PER_AUDIO_CTX_TOKEN - 1)) / (SAMPLES_PER_AUDIO_CTX_TOKEN as int)
        + AUDIO_CTX_MARGIN;
    if needed < AUDIO_CTX_MIN {
        AUDIO_CTX_MIN as int
    } else if needed > AUDIO_CTX_MAX {
        AUDIO_CTX_MAX as int
    } else {
        needed
    }
}

/// The window for so many samples of speech.
pub fn audio_ctx_for_samples(samples: usize) -> (units: i32)
    ensures
        units == window_for(samples as int),
{
    let whole: usize = samples / SAMPLES_PER_AUDIO_CTX_TOKEN;
    let needed: usize = if samples % SAMPLES_PER_AUDIO_CTX_TOKEN == 0 {
        whole
    } else {
        whole + 1
    };
    assert(needed == (samples + 319) / 320);
    if needed >= 1_436 {
        AUDIO_CTX_MAX
    } else if needed <= 448 {
        AUDIO_CTX_MIN
    } else {
        needed as i32 + AUDIO_CTX_MARGIN
    }
}

/// What the transcriber is to heed.
#[derive(Debug, PartialEq, Eq)]
pub struct DecodeOptions {
    pub language: String,
    /// What the transcript is to be taken to follow on.
    pub initial_prompt: Option<String>,
    /// The window, in units.
    pub audio_ctx: i32,
    /// No guessing: the likeliest words, and no sounds other than speech.
    pub strict: bool,
}

/// The example that makes whole recordings come out in traditional Chinese.
pub open spec fn whole_prompt() -> Seq<char> {
    "以下是繁體中文的逐字稿，可能夾雜英文技術術語：「我用 Cursor 打開這個 專案，然後 npm install 跑起來。」"@
}

/// How a whole recording is transcribed.
pub fn whole_options(language: &str, samples: usize) -> (options: DecodeOptions)
    ensures
        options.language@ == language@,
        options.initial_prompt matches Some(p) && p@ == whole_prompt(),
        options.audio_ctx == window_for(samples as int),
        !options.strict,
{
    DecodeOptions {
        language: language.to_owned(),
        initial_prompt: Some(
            "以下是繁體中文的逐字稿，可能夾雜英文技術術語：「我用 Cursor 打開這個 專案，然後 npm install 跑起來。」".to_owned(),
        ),
        audio_ctx: audio_ctx_for_samples(samples),
        strict: false,
    }
}

/// How speech that was cut out of a recording is transcribed.
pub fn span_options(language: &str, samples: usize, prompt: Option<&str>) -> (options: DecodeOptions)
    ensures
        options.language@ == language@,
        match (options.initial_prompt, prompt) {
            (Some(p), Some(q)) => p@ == q@,
            (None, None) => true,
            _ => false,
        },
        options.audio_ctx == window_for(samples as int),
        options.strict,
{
    DecodeOptions {
        language: language.to_owned(),
        initial_prompt: match prompt {
            Some(p) => Some(p.to_owned()),
            None => None,
        },
        audio_ctx: audio_ctx_for_samples(samples),
        strict: true,
    }
}

/// The segments, each without the white space around it, one after the other.
pub open spec fn run_together(segments: Seq<Seq<char>>) -> Seq<char>
    decreases segments.len(),
{
    if segments.len() == 0 {
        Seq::empty()
    } else {
        run_together(segments.drop_last()) + trimmed(segments.last())
    }
}

/// The transcript that the segments of an answer make up.
pub fn join_segments(segments: &[String]) -> (text: String)
    ensures
        text@ == run_together(texts(segments@)),
{
    let ghost all = texts(segments@);
    let mut out: Vec<char> = Vec::new();
    let mut i: usize = 0;
    while i < segments.len()
        invariant
            i <= segments@.len(),
            all == texts(segments@),
            out@ == run_together(all.take(i as int)),
        decreases segments@.len() - i,
    {
        let chars = to_chars(segments[i].as_str());
        push_all(&mut out, trim(chars.as_slice()));
        i += 1;
        assert(all.take(i as int).drop_last() == all.take(i - 1));
        assert(all.take(i as int).last() == all[i - 1]);
    }
    assert(all.take(i as int) == all);
    to_text(out.as_slice())
}

/// The transcript of a whole recording: its segments, with dictation commands carried out.
pub fn whole_transcript(segments: &[String]) -> (text: String)
    ensures
        text@ == normalized(run_together(texts(segments@))),
{
    let text = join_segments(segments);
    normalize_dictation_commands(text.as_str())
}

/// Whether there is anything to transcribe, and a model to do it with. A missing model counts only
/// where there is something to transcribe.
pub fn check_transcription(samples: usize, model_exists: bool, model_path: &str) -> (r: Result<
    bool,
    RaflowError,
>)
    ensures
        if samples == 0 {
            r == Ok::<bool, RaflowError>(false)
        } else if !model_exists {
            r matches Err(RaflowError::WhisperModelMissing { path }) && path@ == model_path@
        } else {
            r == Ok::<bool, RaflowError>(true)
        },
{
    if samples == 0 {
        Ok(false)
    } else if !model_exists {
        Err(RaflowError::WhisperModelMissing { path: model_path.to_owned() })
    } else {
        Ok(true)
    }
}

/// Whether a model can be loaded from where it is said to be: it has to exist, and its path has to
/// be text. `shown` is the path as it can be shown.
pub fn check_model(found: bool, path: Option<&str>, shown: &str) -> (r: Result<String, RaflowError>)
    ensures
        if !found {
            r matches Err(RaflowError::WhisperModelMissing { path: p }) && p@ == shown@
        } else {
            match path {
                Some(text) => r matches Ok(p) && p@ == text@,
                None => r matches Err(RaflowError::WhisperLoad { detail }) && detail@
                    == "model path is not valid UTF-8: "@ + shown@,
            }
        },
{
    if !found {
        return Err(RaflowError::WhisperModelMissing { path: shown.to_owned() });
    }
    match path {
        Some(text) => Ok(text.to_owned()),
        None => {
            let mut detail = "model path is not valid UTF-8: ".to_owned();
            detail.append(shown);
            Err(RaflowError::WhisperLoad { detail })
        },
    }
}

// ---------------------------------------------------------------------------
// The live transcript beside it
// ---------------------------------------------------------------------------

/// The live transcript without the characters that final phrases stand for; empty where there are
/// no more.
pub fn strip_committed_prefix(cumulative: &str, committed_chars: usize) -> (rest: String)
    ensures
        rest@ == if committed_chars <= cumulative@.len() {
            cumulative@.skip(committed_chars as int)
        } else {
            Seq::empty()
        },
{
    let chars = to_chars(cumulative);
    if committed_chars >= chars.len() {
        return String::new();
    }
    let rest = slice_subrange(chars.as_slice(), committed_chars, chars.len());
    assert(rest@ == cumulative@.skip(committed_chars as int));
    to_text(rest)
}

// ---------------------------------------------------------------------------
// Switches
// ---------------------------------------------------------------------------

/// The switch for final phrases while recording: on, unless it is set to nothing, `0` or `false`.
pub open spec fn rolling_flag(value: Option<&str>) -> bool {
    match value {
        None => true,
        Some(v) => {
            let t = trimmed(v@);
            !(t.len() == 0 || t == "0"@ || same_folded(t, "false"@))
        },
    }
}

/// The switch for final phrases while recording.
pub fn parse_rolling_flag(value: Option<&str>) -> (on: bool)
    ensures
        on == rolling_flag(value),
{
    match value {
        None => true,
        Some(v) => {
            let chars = to_chars(v);
            let t = trim(chars.as_slice());
            !(t.len() == 0 || same_chars(t, to_chars("0").as_slice()) || eq_folded(
                t,
                to_chars("false").as_slice(),
            ))
        },
    }
}

/// The switch for tracing restored terms: off, unless it is set to `1`, `true`, `yes` or `on`.
pub open spec fn trace_flag(value: Option<&str>) -> bool {
    match value {
        None => false,
        Some(v) => {
            let t = trimmed(v@);
            ||| t == "1"@
            ||| same_folded(t, "true"@)
            ||| same_folded(t, "yes"@)
            ||| same_folded(t, "on"@)
        },
    }
}

/// The switch for tracing restored terms. Traces hold what was said, so they are off by default.
pub fn parse_restore_trace_flag(value: Option<&str>) -> (on: bool)
    ensures
        on == trace_flag(value),
{
    match value {
        None => false,
        Some(v) => {
            let chars = to_chars(v);
            let t = trim(chars.as_slice());
            same_chars(t, to_chars("1").as_slice()) || eq_folded(t, to_chars("true").as_slice())
                || eq_folded(t, to_chars("yes").as_slice()) || eq_folded(
                t,
                to_chars("on").as_slice(),
            )
        },
    }
}

// ---------------------------------------------------------------------------
// What the window is, and how segments are joined
// ---------------------------------------------------------------------------

/// The window holds the speech and the margin behind it, and is no larger than it has to be, within
/// its limits. One unit of it is three hundred and twenty samples.
pub proof fn windows_hold_the_speech(samples: int)
    requires
        samples >= 0,
    ensures
        512 <= window_for(samples) <= 1500,
        window_for(samples) < 1500 ==> 320 * (window_for(samples) - 64) >= samples,
        window_for(samples) > 512 ==> 320 * (window_for(samples) - 65) < samples,
{
}

/// Segments are joined in order, each without the white space around it and with nothing between.
pub proof fn segments_are_joined_in_order(a: Seq<Seq<char>>, b: Seq<Seq<char>>, one: Seq<char>)
    ensures
        run_together(a + b) == run_together(a) + run_together(b),
        run_together(seq![one]) == trimmed(one),
    decreases b.len(),
{
    assert(seq![one].drop_last() =~= Seq::<Seq<char>>::empty());
    assert(run_together(seq![one].drop_last()) =~= Seq::<char>::empty());
    assert(Seq::<char>::empty() + trimmed(one) =~= trimmed(one));
    if b.len() == 0 {
        assert(a + b =~= a);
        assert(run_together(a) + run_together(b) =~= run_together(a));
    } else {
        segments_are_joined_in_order(a, b.drop_last(), one);
        assert((a + b).drop_last() =~= a + b.drop_last());
        assert((a + b).last() == b.last());
        assert(run_together(a + b) =~= run_together(a) + run_together(b));
    }
}

/// The letters of a text, in either case.
pub open spec fn spells(text: Seq<char>, lower: Seq<char>, upper: Seq<char>) -> bool {
    &&& text.len() == lower.len() == upper.len()
    &&& forall|i: int| 0 <= i < text.len() ==> #[trigger] text[i] == lower[i] || text[i] == upper[i]
}

/// Final phrases while recording are switched off by a blank, by the digit zero and by the word
/// false, in any case and with any white space around it, and by nothing else; restored terms are
/// traced only where one of the four words for it is set.
pub proof fn switches_read_their_words(value: &str)
    ensures
        ({
            let t = trimmed(value@);
            &&& rolling_flag(Some(value)) <==> !(t.len() == 0 || t == seq!['0'] || spells(
                t,
                seq!['f', 'a', 'l', 's', 'e'],
                seq!['F', 'A', 'L', 'S', 'E'],
            ))
            &&& trace_flag(Some(value)) <==> t == seq!['1'] || spells(
                t,
                seq!['t', 'r', 'u', 'e'],
                seq!['T', 'R', 'U', 'E'],
            ) || spells(t, seq!['y', 'e', 's'], seq!['Y', 'E', 'S']) || spells(
                t,
                seq!['o', 'n'],
                seq!['O', 'N'],
            )
        }),
        rolling_flag(None),
        !trace_flag(None),
{
    reveal_strlit("0");
    reveal_strlit("1");
    reveal_strlit("false");
    reveal_strlit("true");
    reveal_strlit("yes");
    reveal_strlit("on");
    assert("0"@ =~= seq!['0']);
    assert("1"@ =~= seq!['1']);
    let t = trimmed(value@);
    lemma_spells(t, "false"@, seq!['F', 'A', 'L', 'S', 'E']);
    lemma_spells(t, "true"@, seq!['T', 'R', 'U', 'E']);
    lemma_spells(t, "yes"@, seq!['Y', 'E', 'S']);
    lemma_spells(t, "on"@, seq!['O', 'N']);
    assert("false"@ =~= seq!['f', 'a', 'l', 's', 'e']);
    assert("true"@ =~= seq!['t', 'r', 'u', 'e']);
    assert("yes"@ =~= seq!['y', 'e', 's']);
    assert("on"@ =~= seq!['o', 'n']);
}

proof fn lemma_spells(t: Seq<char>, small: Seq<char>, large: Seq<char>)
    requires
        small.len() == large.len(),
        forall|i: int|
            0 <= i < small.len() ==> 'a' <= #[trigger] small[i] <= 'z' && large[i] as int == small[i] as int - 32,
    ensures
        same_folded(t, small) <==> spells(t, small, large),
{
    if same_folded(t, small) {
        assert forall|i: int| 0 <= i < t.len() implies #[trigger] t[i] == small[i] || t[i]
            == large[i] by {
            assert(lower(t[i]) == lower(small[i]));
        }
    }
    if spells(t, small, large) {
        assert forall|i: int| 0 <= i < t.len() implies lower(#[trigger] t[i]) == lower(
            small[i],
        ) by {
            assert(t[i] == small[i] || t[i] == large[i]);
        }
    }
}

} // verus!
