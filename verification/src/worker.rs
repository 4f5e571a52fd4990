//! What the worker does about the outcome of each event.
//!
//! The application waits for keys, frames and the timer, hands them to [`App`], and performs the
//! actions that come back from here.
//!
//! [`App`]: crate::session::App

use vstd::prelude::*;
use crate::error::RaflowError;
use crate::permissions::error_report;
use crate::session::Transition;
use crate::permissions::report_text;

verus! {

/// Something for the worker to do.
#[derive(Debug, PartialEq, Eq)]
pub enum WorkerAction {
    /// Start to capture audio; what comes of it goes to [`after_capture`].
    StartCapture,
    /// Stop capturing audio.
    StopCapture,
    /// Write a line to the log.
    Log(String),
    /// Report an error.
    Report(String),
    /// Tell the event loop that a recording has started.
    RecordingStarted,
    /// Tell the event loop that a recording has stopped.
    RecordingStopped,
}

/// An action as text.
pub enum WorkerText {
    StartCapture,
    StopCapture,
    Log(Seq<char>),
    Report(Seq<char>),
    RecordingStarted,
    RecordingStopped,
}

impl View for WorkerAction {
    type V = WorkerText;

    open spec fn view(&self) -> WorkerText {
        match self {
            WorkerAction::StartCapture => WorkerText::StartCapture,
            WorkerAction::StopCapture => WorkerText::StopCapture,
            WorkerAction::Log(s) => WorkerText::Log(s@),
            WorkerAction::Report(s) => WorkerText::Report(s@),
            WorkerAction::RecordingStarted => WorkerText::RecordingStarted,
            WorkerAction::RecordingStopped => WorkerText::RecordingStopped,
        }
    }
}

/// Actions as text.
pub open spec fn worker_texts(actions: Seq<WorkerAction>) -> Seq<WorkerText> {
    actions.map_values(|a: WorkerAction| a@)
}

/// What is done once the key has been handled.
pub open spec fn hotkey_actions(outcome: Result<Transition, RaflowError>) -> Seq<WorkerText> {
    match outcome {
        Ok(Transition::StartRecording) => seq![WorkerText::StartCapture],
        Ok(Transition::StopRecording) => seq![
            WorkerText::StopCapture,
            WorkerText::Log("○ stopped"@),
            WorkerText::RecordingStopped,
        ],
        Ok(Transition::Unchanged) => Seq::empty(),
        Err(e) => seq![WorkerText::Report(report_text("! hotkey handling failed"@, e))],
    }
}

/// What is done once the key has been handled.
pub fn after_hotkey(outcome: &Result<Transition, RaflowError>) -> (actions: Vec<WorkerAction>)
    ensures
        worker_texts(actions@) == hotkey_actions(*outcome),
{
    let mut actions: Vec<WorkerAction> = Vec::new();
    match outcome {
        Ok(Transition::StartRecording) => {
            actions.push(WorkerAction::StartCapture);
        },
        Ok(Transition::StopRecording) => {
            actions.push(WorkerAction::StopCapture);
            actions.push(WorkerAction::Log("○ stopped".to_owned()));
            actions.push(WorkerAction::RecordingStopped);
        },
        Ok(Transition::Unchanged) => {},
        Err(e) => {
            actions.push(WorkerAction::Report(error_report("! hotkey handling failed", e)));
        },
    }
    assert(worker_texts(actions@) =~= hotkey_actions(*outcome));
    actions
}

/// What is done once capturing audio has started or has failed to.
pub open spec fn capture_actions(outcome: Result<(), RaflowError>) -> Seq<WorkerText> {
    match outcome {
        Ok(_) => seq![WorkerText::Log("● recording"@), WorkerText::RecordingStarted],
        Err(e) => seq![WorkerText::Report(report_text("! audio start failed"@, e))],
    }
}

/// What is done once capturing audio has started or has failed to.
pub fn after_capture(outcome: &Result<(), RaflowError>) -> (actions: Vec<WorkerAction>)
    ensures
        worker_texts(actions@) == capture_actions(*outcome),
{
    let mut actions: Vec<WorkerAction> = Vec::new();
    match outcome {
        Ok(_) => {
            actions.push(WorkerAction::Log("● recording".to_owned()));
            actions.push(WorkerAction::RecordingStarted);
        },
        Err(e) => {
            actions.push(WorkerAction::Report(error_report("! audio start failed", e)));
        },
    }
    assert(worker_texts(actions@) =~= capture_actions(*outcome));
    actions
}

/// Reports an error, where there is one.
fn report_failure(prefix: &str, outcome: &Result<(), RaflowError>) -> (report: Option<String>)
    ensures
        match outcome {
            Ok(_) => report is None,
            Err(e) => report matches Some(text) && text@ == report_text(prefix@, *e),
        },
{
    match outcome {
        Ok(_) => None,
        Err(e) => Some(error_report(prefix, e)),
    }
}

/// What is reported once the timer has been handled.
pub fn after_timer(outcome: &Result<(), RaflowError>) -> (report: Option<String>)
    ensures
        match outcome {
            Ok(_) => report is None,
            Err(e) => report matches Some(text) && text@ == report_text(
                "! rolling tick failed"@,
                *e,
            ),
        },
{
    report_failure("! rolling tick failed", outcome)
}

/// What is reported once a frame has been handled.
pub fn after_frame(outcome: &Result<(), RaflowError>) -> (report: Option<String>)
    ensures
        match outcome {
            Ok(_) => report is None,
            Err(e) => report matches Some(text) && text@ == report_text(
                "! frame handling failed"@,
                *e,
            ),
        },
{
    report_failure("! frame handling failed", outcome)
}

/// Capturing starts only when a recording has started, and stops only when one has stopped.
pub proof fn capture_follows_the_recording(outcome: Result<Transition, RaflowError>)
    ensures
        hotkey_actions(outcome).contains(WorkerText::StartCapture) <==> outcome
            == Ok::<Transition, RaflowError>(Transition::StartRecording),
        hotkey_actions(outcome).contains(WorkerText::StopCapture) <==> outcome
            == Ok::<Transition, RaflowError>(Transition::StopRecording),
{
    match outcome {
        Ok(Transition::StartRecording) => {
            assert(hotkey_actions(outcome)[0] == WorkerText::StartCapture);
        },
        Ok(Transition::StopRecording) => {
            assert(hotkey_actions(outcome)[0] == WorkerText::StopCapture);
        },
        _ => {},
    }
}

/// The event loop is told of a recording only once audio is captured, and of its end whenever one
/// has stopped.
pub proof fn event_loop_is_told_of_recordings(
    outcome: Result<Transition, RaflowError>,
    captured: Result<(), RaflowError>,
)
    ensures
        capture_actions(captured).contains(WorkerText::RecordingStarted) <==> captured is Ok,
        !hotkey_actions(outcome).contains(WorkerText::RecordingStarted),
        hotkey_actions(outcome).contains(WorkerText::RecordingStopped) <==> outcome
            == Ok::<Transition, RaflowError>(Transition::StopRecording),
        !capture_actions(captured).contains(WorkerText::RecordingStopped),
{
    if captured is Ok {
        assert(capture_actions(captured)[1] == WorkerText::RecordingStarted);
    }
    if outcome == Ok::<Transition, RaflowError>(Transition::StopRecording) {
        assert(hotkey_actions(outcome)[2] == WorkerText::RecordingStopped);
    }
}

/// Whatever goes wrong is reported, and nothing else is done about it; nothing is reported where
/// all went well.
pub proof fn failures_are_reported(
    outcome: Result<Transition, RaflowError>,
    captured: Result<(), RaflowError>,
    k: int,
)
    ensures
        0 <= k < hotkey_actions(outcome).len() ==> (hotkey_actions(outcome)[k] is Report
            <==> outcome is Err),
        0 <= k < capture_actions(captured).len() ==> (capture_actions(captured)[k] is Report
            <==> captured is Err),
        outcome is Err ==> hotkey_actions(outcome).len() == 1,
        captured is Err ==> capture_actions(captured).len() == 1,
{
}

// ---------------------------------------------------------------------------
// The transcriber
// ---------------------------------------------------------------------------

/// What is done about the transcriber's model when the tool starts.
#[derive(Debug, PartialEq, Eq)]
pub enum ModelPlan {
    /// It is not known where the model is.
    NoPath,
    /// The model is not there; the log says what to do about it.
    Missing { log: String },
    /// The model is loaded from here.
    Load { path: String },
}

/// What is done about the transcriber's model, from where it is and whether it is there.
pub fn plan_model(path: Option<String>, found: bool) -> (plan: ModelPlan)
    ensures
        match path {
            None => plan == ModelPlan::NoPath,
            Some(p) => if found {
                plan == (ModelPlan::Load { path: p })
            } else {
                plan matches ModelPlan::Missing { log } && log@
                    == "raflow: whisper disabled — model not found at "@ + p@
                    + "\n  → 跑 `make whisper-model-small` 下載 ggml-small.bin (~466 MB)\n  → 或設 RAFLOW_WHISPER_MODEL=/path/to/your.bin"@
            },
        },
{
    match path {
        None => ModelPlan::NoPath,
        Some(p) => {
            if found {
                ModelPlan::Load { path: p }
            } else {
                let mut log = "raflow: whisper disabled — model not found at ".to_owned();
                log.append(p.as_str());
                log.append(
                    "\n  → 跑 `make whisper-model-small` 下載 ggml-small.bin (~466 MB)\n  → 或設 RAFLOW_WHISPER_MODEL=/path/to/your.bin",
                );
                ModelPlan::Missing { log }
            }
        },
    }
}

/// What the log says once the model at `path` has been loaded or could not be.
pub fn model_log(path: &str, outcome: &Result<(), RaflowError>) -> (log: String)
    ensures
        log@ == match outcome {
            Ok(_) => "raflow: whisper enabled (model: "@ + path@ + ")"@,
            Err(e) => "raflow: whisper disabled — load failed: "@ + e.message_text()
                + "\n  (回退到 Apple Speech only；確認 raflow-app 編譯時是否帶 --features whisper)"@,
        },
{
    match outcome {
        Ok(_) => {
            let mut log = "raflow: whisper enabled (model: ".to_owned();
            log.append(path);
            log.append(")");
            log
        },
        Err(e) => {
            let mut log = "raflow: whisper disabled — load failed: ".to_owned();
            let message = e.message();
            log.append(message.as_str());
            log.append(
                "\n  (回退到 Apple Speech only；確認 raflow-app 編譯時是否帶 --features whisper)",
            );
            log
        },
    }
}

/// What the log says about the correction when the worker starts.
pub fn correction_log(on: bool) -> (log: &'static str)
    ensures
        log@ == if on {
            "raflow: Whisper 智慧校正 ON（句級滾動；需 whisper + VAD model）；\n  每 1000ms 對已閉合語音段跑 Whisper 送 PhraseFinal。可由 menu bar 切換。"@
        } else {
            "raflow: Whisper 智慧校正 OFF（所見即所得）；可由 menu bar 開啟。"@
        },
{
    if on {
        "raflow: Whisper 智慧校正 ON（句級滾動；需 whisper + VAD model）；\n  每 1000ms 對已閉合語音段跑 Whisper 送 PhraseFinal。可由 menu bar 切換。"
    } else {
        "raflow: Whisper 智慧校正 OFF（所見即所得）；可由 menu bar 開啟。"
    }
}

} // verus!
