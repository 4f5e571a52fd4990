//! Sessions of the recogniser, and how phrases become final in them.

use std::ops::Range;

use raflow::audio::AudioFrame;
use raflow::error::RaflowError;
use raflow::recognizer::{
    check_frame, settle_final, RecognitionStep, Recognizer, MAX_PCM_SAMPLES_FOR_WHISPER,
};
use raflow::rolling::{
    concat_speech, finish_rolling_tick, is_accepted, pause_instead, plan_rolling_tick,
    rolling_offset,
    settle_rolling_tick, speech_ranges, RollingPlan, RollingTickOutcome,
};
use raflow::traditional::Traditional;
use raflow::transcript::TranscriptUpdate;
use raflow::whisper::{join_segments, span_options, whole_options, whole_transcript};

fn frame(sample: i16, n: usize) -> AudioFrame {
    AudioFrame {
        pcm: vec![sample; n],
        sample_rate: 16_000,
    }
}

fn rolling_session() -> Recognizer {
    let mut r = Recognizer::new("zh-TW", true, true);
    r.begin("zh-TW", true, true, None, None);
    assert!(r.session_rolling());
    r
}

fn partial(s: &str) -> RecognitionStep {
    RecognitionStep::Send(TranscriptUpdate::Partial(s.to_string()))
}

fn final_of(s: &str) -> RecognitionStep {
    RecognitionStep::Send(TranscriptUpdate::Final(s.to_string()))
}

fn outcome(phrase: Option<&str>, finalized: usize, pending: usize) -> RollingTickOutcome {
    RollingTickOutcome {
        phrase: phrase.map(|s| s.to_string()),
        rejected: Vec::new(),
        finalized_samples: finalized,
        pending_speech_samples: pending,
    }
}

#[test]
fn pcm_buffer_accumulates_and_truncates() {
    let mut r = Recognizer::new("zh-TW", false, true);
    r.begin("zh-TW", true, false, None, None);
    r.keep_frame(&frame(1, 1_440_000));
    assert_eq!(r.pcm().len(), 1_440_000);
    r.keep_frame(&frame(2, 1));
    assert_eq!(
        r.pcm().len(),
        MAX_PCM_SAMPLES_FOR_WHISPER,
        "should truncate to MAX_PCM_SAMPLES_FOR_WHISPER"
    );
    assert_eq!(r.pcm().last(), Some(&2));
}

#[test]
fn samples_stay_in_place_while_phrases_become_final() {
    let mut r = rolling_session();
    r.keep_frame(&frame(1, 1_440_000));
    r.keep_frame(&frame(2, 1));
    assert_eq!(r.pcm().len(), 1_440_001);
    assert_eq!(r.pcm()[0], 1);
}

#[test]
fn start_switches_recognizer_when_locale_differs() {
    let mut r = Recognizer::new("zh-TW", true, true);
    assert!(!r.needs_locale("zh-TW"));
    assert!(r.needs_locale("en-US"));
    r.begin("en-US", true, true, None, None);
    assert!(!r.needs_locale("en-US"), "locale must switch to en-US");
}

#[test]
fn with_whisper_attaches_context_marker() {
    let mut without = Recognizer::new("zh-TW", true, false);
    without.begin("zh-TW", true, true, None, None);
    assert!(!without.session_rolling(), "default backend has no whisper");
    assert!(rolling_session().session_rolling());
}

#[test]
fn a_session_knows_the_terms_of_the_user() {
    let mut r = Recognizer::new("zh-TW", true, true);
    r.begin("zh-TW", true, true, Some("MyService\n"), Some("on"));
    assert_eq!(r.prompt_terms()[0], "MyService");
    assert_eq!(r.vocabulary().last().map(String::as_str), Some("MyService"));
    assert!(r.traces());
    assert!(!rolling_session().traces());
}

#[test]
fn drafts_leave_out_what_is_final() {
    let mut r = rolling_session();
    assert_eq!(r.on_result("你好", false), partial("你好"));
    assert_eq!(r.open_draft(), "你好");
    let updates = r.on_tick(&outcome(Some("你好，"), 500, 500), false);
    assert_eq!(updates, vec![TranscriptUpdate::PhraseFinal("你好，".to_string())]);
    assert_eq!(r.finalized_samples(), 500);
    assert_eq!(r.on_result("你好世界", false), partial("世界"));
    assert_eq!(r.open_draft(), "世界");
}

#[test]
fn phrases_get_their_terms_back() {
    let mut r = rolling_session();
    r.on_result("我們用ArgoCD部署", false);
    let updates = r.on_tick(&outcome(Some("我們用R5CT部署。"), 10, 10), false);
    assert_eq!(
        updates,
        vec![TranscriptUpdate::PhraseFinal("我們用ArgoCD部署。".to_string())]
    );
}

#[test]
fn a_session_ends_in_exactly_one_final() {
    let mut locked = rolling_session();
    locked.on_result("好", false);
    assert_eq!(
        locked.on_tick(&outcome(Some("好。"), 9, 9), true),
        vec![
            TranscriptUpdate::PhraseFinal("好。".to_string()),
            TranscriptUpdate::Final(String::new())
        ]
    );
    assert_eq!(locked.on_result("好", true), RecognitionStep::Nothing);

    let mut silent = rolling_session();
    assert_eq!(
        silent.on_tick(&outcome(None, 0, 0), true),
        vec![TranscriptUpdate::Final(String::new())]
    );
    assert_eq!(silent.on_result("", true), RecognitionStep::Nothing);

    let mut rejected = rolling_session();
    assert_eq!(rejected.on_tick(&outcome(None, 0, 9), true), vec![]);
    assert_eq!(rejected.on_result("好的", true), final_of("好的"));

    let mut failed = rolling_session();
    failed.on_tick_failed(false);
    assert_eq!(failed.on_result("好的", true), RecognitionStep::Nothing);
    failed.on_tick_failed(true);
    assert_eq!(failed.on_result("好的", true), final_of("好的"));
}

#[test]
fn mixed_sessions_are_transcribed_again() {
    let mut r = Recognizer::new("zh-TW", false, true);
    r.begin("zh-TW", true, false, None, None);
    r.keep_frame(&frame(7, 3));
    assert_eq!(
        r.on_result("我用 Cursor", true),
        RecognitionStep::Transcribe {
            pcm: vec![7, 7, 7],
            fallback: "我用 Cursor".to_string()
        }
    );
    assert_eq!(r.on_result("我用 Cursor", true), final_of("我用 Cursor"));

    r.begin("en-US", true, false, None, None);
    r.keep_frame(&frame(7, 3));
    assert_eq!(r.on_result("hello", true), final_of("hello"));

    r.begin("zh-TW", false, true, None, None);
    r.keep_frame(&frame(7, 3));
    assert!(!r.session_rolling());
    assert_eq!(r.on_result("我用 Cursor", true), final_of("我用 Cursor"));
}

#[test]
fn untrusted_transcripts_give_way_to_the_recognisers_own() {
    let settle = |t: Result<&str, RaflowError>| {
        settle_final("原文".to_string(), t.map(|s| s.to_string()))
    };
    assert_eq!(settle(Ok("新文")), TranscriptUpdate::Final("新文".to_string()));
    for bad in ["", "  ", "안녕"] {
        assert_eq!(settle(Ok(bad)), TranscriptUpdate::Final("原文".to_string()), "{bad:?}");
    }
    assert_eq!(
        settle(Err(RaflowError::SpeechBusy)),
        TranscriptUpdate::Final("原文".to_string())
    );
}

#[test]
fn empty_frames_are_refused() {
    assert_eq!(check_frame(&frame(0, 320)), Ok(320));
    assert_eq!(
        check_frame(&frame(0, 0)),
        Err(RaflowError::SpeechAuthorization {
            status: "empty audio frame".to_string()
        })
    );
}

#[test]
fn found_speech_is_cut_down_to_the_recording() {
    let found = [
        (0, 1_600),
        (800, 2_400),
        (0, 32_000),
        (1_600, 1_600),
        (800, 480),
        (48_000, 64_000),
    ];
    let expected: Vec<Range<usize>> = vec![0..1_600, 800..2_400, 0..16_000];
    assert_eq!(speech_ranges(&found, 16_000), expected);
    assert_eq!(concat_speech(&[1..3, 0..1], &[10, 20, 30]), vec![20, 30, 10]);
    assert_eq!(rolling_offset(10, 4), 4);
    assert_eq!(rolling_offset(10, 14), 10);
}

#[test]
fn a_phrase_is_planned_once_the_speaker_pauses() {
    let pcm: Vec<i16> = (0..80_000).map(|i| (i % 100) as i16).collect();
    let segments: Vec<Range<usize>> = vec![100..30_100];
    let running = plan_rolling_tick(&pcm[..40_000], &segments, 0, false, None, None);
    assert_eq!(running.pending_speech_samples, 30_000);
    assert_eq!(running.request, None);

    let paused = plan_rolling_tick(&pcm, &segments, 0, false, Some(&["K8S"]), None);
    let request = paused.request.unwrap();
    assert_eq!(request.span, pcm[100..30_100].to_vec());
    assert_eq!(request.end, 30_100);
    assert!(request.prompt.unwrap().contains("K8S"));

    let ended = plan_rolling_tick(&pcm[..40_000], &segments, 0, true, None, None);
    assert_eq!(ended.request.map(|r| r.end), Some(30_100));
    let patient = plan_rolling_tick(&pcm, &segments, 0, false, None, Some(usize::MAX));
    assert_eq!(patient.request, None);
    let silent = plan_rolling_tick(&pcm, &[], 0, true, None, None);
    assert_eq!(
        silent,
        RollingPlan {
            pending_speech_samples: 0,
            request: None
        }
    );
}

#[test]
fn speech_before_the_cursor_is_not_transcribed_again() {
    let pcm = vec![1_i16; 1_000];
    let segments: Vec<Range<usize>> = vec![0..200];
    let plan = plan_rolling_tick(&pcm, &segments, 600, true, None, None);
    let request = plan.request.unwrap();
    assert_eq!(request.end, 800);
    assert_eq!(request.span.len(), 200);
}

#[test]
fn trusted_transcripts_move_the_cursor() {
    let pcm = vec![1_i16; 1_000];
    let segments: Vec<Range<usize>> = vec![0..200];
    let terms: &[&str] = &["ArgoCD", "GitLab CI"];
    let plan = plan_rolling_tick(&pcm, &segments, 0, true, Some(terms), None);
    let cc = Traditional::load();
    let done = finish_rolling_tick(&plan, 0, "软件逗點", Some(terms), &cc);
    assert_eq!(done.phrase.as_deref(), Some("軟體，"));
    assert_eq!((done.finalized_samples, done.pending_speech_samples), (200, 200));
    assert!(done.rejected.is_empty());

    for bad in ["안녕하세요", "這是測試這是測試這是測試", "ArgoCD、GitLab CI"] {
        assert!(!is_accepted(bad, Some(terms)));
        let kept = settle_rolling_tick(&plan, 0, bad, bad, Some(terms));
        assert_eq!(kept.phrase, None);
        assert_eq!(kept.finalized_samples, 0);
        assert_eq!(kept.rejected, vec![bad.to_string()]);
    }
    let nothing = settle_rolling_tick(&plan, 0, " ", " ", None);
    assert_eq!((nothing.phrase, nothing.rejected.len()), (None, 0));
    assert!(is_accepted("好", None));
}

#[test]
fn segments_make_up_a_transcript() {
    let segments = vec![" 你好".to_string(), " 世界逗點 ".to_string()];
    assert_eq!(join_segments(&segments), "你好世界逗點");
    assert_eq!(whole_transcript(&segments), "你好世界，");
    let whole = whole_options("zh", 16_000);
    assert_eq!((whole.language.as_str(), whole.audio_ctx, whole.strict), ("zh", 512, false));
    assert!(whole.initial_prompt.unwrap().starts_with("以下是繁體中文的逐字稿"));
    let span = span_options("zh", 320_000, Some("詞彙：K8S"));
    assert_eq!((span.audio_ctx, span.strict), (1_064, true));
    assert_eq!(span.initial_prompt.as_deref(), Some("詞彙：K8S"));
    assert_eq!(span_options("zh", 1, None).initial_prompt, None);
}

#[test]
fn phrases_end_sooner_while_the_user_is_editing() {
    assert_eq!(pause_instead(false), None);
    assert_eq!(pause_instead(true), Some(1_600));
    let pcm = vec![1_i16; 11_600];
    let segments = [0..10_000];
    assert!(plan_rolling_tick(&pcm, &segments, 0, false, None, None).request.is_none());
    assert!(plan_rolling_tick(&pcm, &segments, 0, false, None, pause_instead(true))
        .request
        .is_some());
    assert!(plan_rolling_tick(&pcm[..11_599], &segments, 0, false, None, pause_instead(true))
        .request
        .is_none());
}
