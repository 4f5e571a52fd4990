//! Permissions of the operating system: which are missing, and what to tell the user.

use vstd::prelude::*;
use crate::error::RaflowError;
use crate::text::{contains_text, occurs_at};

verus! {

/// A permission that the tool needs.
#[derive(Debug, Clone, Copy, PartialEq, Eq)]
pub enum Permission {
    Microphone,
    SpeechRecognition,
    Accessibility,
}

impl Permission {
    /// The name of the permission in the system settings.
    pub open spec fn title_text(self) -> Seq<char> {
        match self {
            Permission::Microphone => "麥克風"@,
            Permission::SpeechRecognition => "語音辨識"@,
            Permission::Accessibility => "輔助使用"@,
        }
    }

    /// What the permission is for, and what happens without it.
    pub open spec fn symptom_text(self) -> Seq<char> {
        match self {
            Permission::Microphone => "收音；沒開會錄到靜音、說話完全沒有任何字"@,
            Permission::SpeechRecognition => "把語音即時轉成文字；沒開無法辨識"@,
            Permission::Accessibility => "自動把文字打進輸入框；沒開只能手動 Cmd+V 貼上"@,
        }
    }

    /// The link to the page of the system settings.
    pub open spec fn url_text(self) -> Seq<char> {
        match self {
            Permission::Microphone =>
                "x-apple.systempreferences:com.apple.settings.PrivacySecurity.extension?Privacy_Microphone"@,
            Permission::SpeechRecognition =>
                "x-apple.systempreferences:com.apple.settings.PrivacySecurity.extension?Privacy_SpeechRecognition"@,
            Permission::Accessibility =>
                "x-apple.systempreferences:com.apple.settings.PrivacySecurity.extension?Privacy_Accessibility"@,
        }
    }

    /// The name of the permission in the system settings.
    pub fn title(self) -> (text: &'static str)
        ensures
            text@ == self.title_text(),
    {
        match self {
            Permission::Microphone => "麥克風",
            Permission::SpeechRecognition => "語音辨識",
            Permission::Accessibility => "輔助使用",
        }
    }

    /// What the permission is for, and what happens without it.
    pub fn symptom(self) -> (text: &'static str)
        ensures
            text@ == self.symptom_text(),
    {
        match self {
            Permission::Microphone => "收音；沒開會錄到靜音、說話完全沒有任何字",
            Permission::SpeechRecognition => "把語音即時轉成文字；沒開無法辨識",
            Permission::Accessibility => "自動把文字打進輸入框；沒開只能手動 Cmd+V 貼上",
        }
    }

    /// The link to the page of the system settings.
    pub fn settings_url(self) -> (url: &'static str)
        ensures
            url@ == self.url_text(),
    {
        match self {
            Permission::Microphone =>
                "x-apple.systempreferences:com.apple.settings.PrivacySecurity.extension?Privacy_Microphone",
            Permission::SpeechRecognition =>
                "x-apple.systempreferences:com.apple.settings.PrivacySecurity.extension?Privacy_SpeechRecognition",
            Permission::Accessibility =>
                "x-apple.systempreferences:com.apple.settings.PrivacySecurity.extension?Privacy_Accessibility",
        }
    }
}

/// Which permissions are granted.
#[derive(Debug, Clone, Copy, PartialEq, Eq)]
pub struct PermissionSnapshot {
    pub microphone: bool,
    pub speech_recognition: bool,
    pub accessibility: bool,
}

impl PermissionSnapshot {
    /// The permission is granted.
    pub open spec fn has(self, p: Permission) -> bool {
        match p {
            Permission::Microphone => self.microphone,
            Permission::SpeechRecognition => self.speech_recognition,
            Permission::Accessibility => self.accessibility,
        }
    }

    /// Whether the permission is granted.
    pub fn granted(&self, p: Permission) -> (b: bool)
        ensures
            b == self.has(p),
    {
        match p {
            Permission::Microphone => self.microphone,
            Permission::SpeechRecognition => self.speech_recognition,
            Permission::Accessibility => self.accessibility,
        }
    }

    /// The permissions that are not granted, always in the same order.
    pub fn missing(&self) -> (list: Vec<Permission>)
        ensures
            list@ == missing_of(*self),
    {
        let mut list: Vec<Permission> = Vec::new();
        if !self.granted(Permission::Microphone) {
            list.push(Permission::Microphone);
        }
        if !self.granted(Permission::SpeechRecognition) {
            list.push(Permission::SpeechRecognition);
        }
        if !self.granted(Permission::Accessibility) {
            list.push(Permission::Accessibility);
        }
        assert(list@ =~= missing_of(*self));
        list
    }
}

/// The permission, unless it is granted.
pub open spec fn unless_granted(s: PermissionSnapshot, p: Permission) -> Seq<Permission> {
    if s.has(p) {
        Seq::empty()
    } else {
        seq![p]
    }
}

/// The permissions that are not granted, in the order in which they are shown.
pub open spec fn missing_of(s: PermissionSnapshot) -> Seq<Permission> {
    unless_granted(s, Permission::Microphone) + unless_granted(s, Permission::SpeechRecognition)
        + unless_granted(s, Permission::Accessibility)
}

/// What is missing is exactly what is not granted, each once, the microphone first and
/// accessibility last.
pub proof fn missing_is_what_is_not_granted(s: PermissionSnapshot, p: Permission)
    ensures
        missing_of(s).contains(p) <==> !s.has(p),
        missing_of(s).no_duplicates(),
        missing_of(s).len() == 0 <==> s.microphone && s.speech_recognition && s.accessibility,
        !s.has(Permission::Microphone) ==> missing_of(s).first() == Permission::Microphone,
        !s.has(Permission::Accessibility) ==> missing_of(s).last() == Permission::Accessibility,
{
    let m = missing_of(s);
    let a = unless_granted(s, Permission::Microphone);
    let b = unless_granted(s, Permission::SpeechRecognition);
    if !s.has(p) {
        match p {
            Permission::Microphone => {
                assert(m[0] == p);
            },
            Permission::SpeechRecognition => {
                assert(m[a.len() as int] == p);
            },
            Permission::Accessibility => {
                assert(m[(a.len() + b.len()) as int] == p);
            },
        }
    }
    if m.contains(p) {
        let k = choose|k: int| 0 <= k < m.len() && m[k] == p;
        assert(m[k] == p);
    }
}

/// The permissions as they were just found.
pub fn capture_snapshot(microphone: bool, speech_recognition: bool, accessibility: bool) -> (s:
    PermissionSnapshot)
    ensures
        s == (PermissionSnapshot { microphone, speech_recognition, accessibility }),
{
    PermissionSnapshot { microphone, speech_recognition, accessibility }
}

// ---------------------------------------------------------------------------
// Asking for permissions
// ---------------------------------------------------------------------------

/// A digit.
pub open spec fn digit(n: nat) -> char {
    ((48 + n % 10) as u8) as char
}

/// A number in decimal.
pub open spec fn decimal(n: nat) -> Seq<char>
    decreases n,
{
    if n < 10 {
        seq![digit(n)]
    } else {
        decimal(n / 10).push(digit(n % 10))
    }
}

/// A number in decimal.
fn to_decimal(n: usize) -> (text: Vec<char>)
    ensures
        text@ == decimal(n as nat),
    decreases n,
{
    if n < 10 {
        let mut text: Vec<char> = Vec::new();
        text.push((48u8 + (n as u8)) as char);
        assert(n as u8 == n);
        text
    } else {
        let mut text = to_decimal(n / 10);
        let d: u8 = (n % 10) as u8;
        assert(d == n % 10);
        text.push((48u8 + d) as char);
        text
    }
}

/// The entries for the first `k` permissions of the list, numbered from one.
pub open spec fn entries(missing: Seq<Permission>, k: nat) -> Seq<char>
    decreases k,
{
    if k == 0 {
        Seq::empty()
    } else {
        entries(missing, (k - 1) as nat) + "\n"@ + decimal(k) + ". "@ + missing[k - 1].title_text()
            + "——"@ + missing[k - 1].symptom_text()
    }
}

/// What the user is told about missing permissions; nothing where none is missing.
pub open spec fn onboarding_text(missing: Seq<Permission>) -> Option<Seq<char>> {
    if missing.len() == 0 {
        None
    } else {
        Some(
            "raflow 還需要以下權限才能正常運作：\n"@ + entries(missing, missing.len())
                + "\n\n點「開啟系統設定」會直接跳到第一項的設定頁；在清單裡把 raflow 打勾即可。\n改完可從 menu bar 圖示 →「診斷…」再次確認剩下幾項。"@
                + (if missing.contains(Permission::Accessibility) {
                "\n\n⚠ 「輔助使用」授權後，請從 menu →「重新啟動 raflow」重啟一次才會生效（其他權限即時生效、不用重啟）。"@
            } else {
                Seq::empty()
            })
                + "\n\n（若雙擊 Cmd 完全沒反應，同樣是「輔助使用」未授權——raflow 的雙擊偵測以它為準，不需另外開「輸入監控」。）"@,
        )
    }
}

/// The number that some digits stand for.
pub open spec fn number_of(digits: Seq<char>) -> int
    decreases digits.len(),
{
    if digits.len() == 0 {
        0
    } else {
        10 * number_of(digits.drop_last()) + (digits.last() as int - 48)
    }
}

/// A number is written with digits only, without a zero in front, and can be read back.
pub proof fn numbers_are_written_in_full(n: nat)
    ensures
        number_of(decimal(n)) == n,
        decimal(n).len() > 0,
        forall|k: int| 0 <= k < decimal(n).len() ==> '0' <= #[trigger] decimal(n)[k] <= '9',
        n > 0 ==> decimal(n)[0] != '0',
    decreases n,
{
    if n < 10 {
        assert(decimal(n).drop_last() == Seq::<char>::empty());
        assert(number_of(decimal(n).drop_last()) == 0);
    } else {
        numbers_are_written_in_full(n / 10);
        assert(decimal(n).drop_last() == decimal(n / 10));
        assert forall|k: int| 0 <= k < decimal(n).len() implies '0' <= #[trigger] decimal(n)[k]
            <= '9' by {
            if k < decimal(n).len() - 1 {
                assert(decimal(n)[k] == decimal(n / 10)[k]);
            }
        }
        assert(decimal(n)[0] == decimal(n / 10)[0]);
    }
}

/// Each permission that is missing is named on a line of its own, by its place in the list, with
/// what it is for.
pub proof fn each_missing_permission_is_explained(missing: Seq<Permission>, k: int)
    requires
        0 <= k < missing.len(),
    ensures
        onboarding_text(missing) is Some,
        contains_text(
            onboarding_text(missing)->0,
            "\n"@ + decimal((k + 1) as nat) + ". "@ + missing[k].title_text() + "——"@
                + missing[k].symptom_text(),
        ),
{
    let line = "\n"@ + decimal((k + 1) as nat) + ". "@ + missing[k].title_text() + "——"@
        + missing[k].symptom_text();
    lemma_entries(missing, missing.len(), k);
    let listed = entries(missing, missing.len());
    let at = choose|at: int| occurs_at(listed, line, at);
    let text = onboarding_text(missing)->0;
    let head = "raflow 還需要以下權限才能正常運作：\n"@;
    let i = head.len() + at;
    assert(text.subrange(i, i + line.len()) =~= listed.subrange(at, at + line.len()));
    assert(occurs_at(text, line, i));
}

proof fn lemma_entries(missing: Seq<Permission>, n: nat, k: int)
    requires
        0 <= k < n <= missing.len(),
    ensures
        contains_text(
            entries(missing, n),
            "\n"@ + decimal((k + 1) as nat) + ". "@ + missing[k].title_text() + "——"@
                + missing[k].symptom_text(),
        ),
    decreases n,
{
    let line = "\n"@ + decimal((k + 1) as nat) + ". "@ + missing[k].title_text() + "——"@
        + missing[k].symptom_text();
    let front = entries(missing, (n - 1) as nat);
    let all = entries(missing, n);
    if k == n - 1 {
        let i = front.len() as int;
        assert(all =~= front + line);
        assert(all.subrange(i, i + line.len()) =~= line);
        assert(occurs_at(all, line, i));
    } else {
        lemma_entries(missing, (n - 1) as nat, k);
        let at = choose|at: int| occurs_at(front, line, at);
        assert(all.subrange(at, at + line.len()) =~= front.subrange(at, at + line.len()));
        assert(occurs_at(all, line, at));
    }
}

/// What the user is told about missing permissions; nothing where none is missing.
pub fn onboarding_body(missing: &[Permission]) -> (body: Option<String>)
    ensures
        match body {
            Some(text) => onboarding_text(missing@) == Some(text@),
            None => onboarding_text(missing@) is None,
        },
{
    if missing.len() == 0 {
        return None;
    }
    let mut body = "raflow 還需要以下權限才能正常運作：\n".to_owned();
    let ghost head = body@;
    let mut accessibility: bool = false;
    let mut i: usize = 0;
    assert(head + entries(missing@, 0) == head);
    while i < missing.len()
        invariant
            i <= missing@.len(),
            missing@.len() == missing.len(),
            body@ == head + entries(missing@, i as nat),
            accessibility == exists|k: int|
                0 <= k < i && #[trigger] missing@[k] == Permission::Accessibility,
        decreases missing@.len() - i,
    {
        let ghost before = entries(missing@, i as nat);
        let p = missing[i];
        body.append("\n");
        let number = to_decimal(i + 1);
        let mut k: usize = 0;
        let ghost so_far = body@;
        while k < number.len()
            invariant
                k <= number@.len(),
                body@ == so_far + number@.take(k as int),
            decreases number@.len() - k,
        {
            body.push(number[k]);
            k += 1;
            assert(number@.take(k as int) == number@.take(k - 1).push(number@[k - 1]));
        }
        assert(number@.take(k as int) == number@);
        body.append(". ");
        body.append(p.title());
        body.append("——");
        body.append(p.symptom());
        match p {
            Permission::Accessibility => {
                accessibility = true;
            },
            _ => {},
        }
        proof {
            let now = entries(missing@, (i + 1) as nat);
            assert(now == before + "\n"@ + decimal((i + 1) as nat) + ". "@ + p.title_text() + "——"@
                + p.symptom_text());
            assert(body@ == head + now);
        }
        i += 1;
    }
    let ghost listed = body@;
    body.append(
        "\n\n點「開啟系統設定」會直接跳到第一項的設定頁；在清單裡把 raflow 打勾即可。\n改完可從 menu bar 圖示 →「診斷…」再次確認剩下幾項。",
    );
    let ghost told = body@;
    assert(accessibility == missing@.contains(Permission::Accessibility));
    if accessibility {
        body.append(
            "\n\n⚠ 「輔助使用」授權後，請從 menu →「重新啟動 raflow」重啟一次才會生效（其他權限即時生效、不用重啟）。",
        );
    } else {
        assert(told + Seq::<char>::empty() == told);
    }
    body.append(
        "\n\n（若雙擊 Cmd 完全沒反應，同樣是「輔助使用」未授權——raflow 的雙擊偵測以它為準，不需另外開「輸入監控」。）",
    );
    Some(body)
}

/// What the user is told about an error that a permission can mend.
pub open spec fn hint_text(err: RaflowError) -> Option<Seq<char>> {
    match err {
        RaflowError::SpeechAuthorization { .. } => Some(
            "→ 開啟系統設定至「隱私權與安全性 → 語音辨識」授權 raflow：\n  open 'x-apple.systempreferences:com.apple.settings.PrivacySecurity.extension?Privacy_SpeechRecognition'"@,
        ),
        RaflowError::AudioCapture { .. } => Some(
            "→ 若是麥克風權限問題，開啟「隱私權與安全性 → 麥克風」授權 raflow：\n  open 'x-apple.systempreferences:com.apple.settings.PrivacySecurity.extension?Privacy_Microphone'"@,
        ),
        RaflowError::TextInject { .. } => Some(
            "→ enigo 透過 CGEvent 模擬鍵盤，需「輔助使用（Accessibility）」授權：\n  open 'x-apple.systempreferences:com.apple.settings.PrivacySecurity.extension?Privacy_Accessibility'"@,
        ),
        RaflowError::HotkeyRegister { .. } => Some(
            "→ 雙擊 Cmd 偵測註冊失敗。多半是 Input Monitoring 權限未授予：\n  open 'x-apple.systempreferences:com.apple.settings.PrivacySecurity.extension?Privacy_ListenEvent'"@,
        ),
        _ => None,
    }
}

/// What the user is told about an error that a permission can mend.
pub fn permission_hint(err: &RaflowError) -> (hint: Option<&'static str>)
    ensures
        match hint {
            Some(text) => hint_text(*err) == Some(text@),
            None => hint_text(*err) is None,
        },
{
    match err {
        RaflowError::SpeechAuthorization { .. } => Some(
            "→ 開啟系統設定至「隱私權與安全性 → 語音辨識」授權 raflow：\n  open 'x-apple.systempreferences:com.apple.settings.PrivacySecurity.extension?Privacy_SpeechRecognition'",
        ),
        RaflowError::AudioCapture { .. } => Some(
            "→ 若是麥克風權限問題，開啟「隱私權與安全性 → 麥克風」授權 raflow：\n  open 'x-apple.systempreferences:com.apple.settings.PrivacySecurity.extension?Privacy_Microphone'",
        ),
        RaflowError::TextInject { .. } => Some(
            "→ enigo 透過 CGEvent 模擬鍵盤，需「輔助使用（Accessibility）」授權：\n  open 'x-apple.systempreferences:com.apple.settings.PrivacySecurity.extension?Privacy_Accessibility'",
        ),
        RaflowError::HotkeyRegister { .. } => Some(
            "→ 雙擊 Cmd 偵測註冊失敗。多半是 Input Monitoring 權限未授予：\n  open 'x-apple.systempreferences:com.apple.settings.PrivacySecurity.extension?Privacy_ListenEvent'",
        ),
        _ => None,
    }
}

/// The hint about an error that a permission can mend opens the page of that permission; other errors
/// than these and that of the hotkey have none.
pub proof fn hints_open_the_right_page(err: RaflowError)
    ensures
        match err {
            RaflowError::SpeechAuthorization { .. } => hint_text(err) is Some && contains_text(
                hint_text(err)->0,
                Permission::SpeechRecognition.url_text(),
            ),
            RaflowError::AudioCapture { .. } => hint_text(err) is Some && contains_text(
                hint_text(err)->0,
                Permission::Microphone.url_text(),
            ),
            RaflowError::TextInject { .. } => hint_text(err) is Some && contains_text(
                hint_text(err)->0,
                Permission::Accessibility.url_text(),
            ),
            RaflowError::HotkeyRegister { .. } => hint_text(err) is Some,
            _ => hint_text(err) is None,
        },
{
    match err {
        RaflowError::SpeechAuthorization { .. } => {
            reveal_strlit(
                "→ 開啟系統設定至「隱私權與安全性 → 語音辨識」授權 raflow：\n  open 'x-apple.systempreferences:com.apple.settings.PrivacySecurity.extension?Privacy_SpeechRecognition'",
            );
            reveal_strlit("x-apple.systempreferences:com.apple.settings.PrivacySecurity.extension?Privacy_SpeechRecognition");
            let hint = hint_text(err)->0;
            let url = Permission::SpeechRecognition.url_text();
            assert(hint.subrange(44, 140) =~= url);
            assert(occurs_at(hint, url, 44));
        },
        RaflowError::AudioCapture { .. } => {
            reveal_strlit(
                "→ 若是麥克風權限問題，開啟「隱私權與安全性 → 麥克風」授權 raflow：\n  open 'x-apple.systempreferences:com.apple.settings.PrivacySecurity.extension?Privacy_Microphone'",
            );
            reveal_strlit("x-apple.systempreferences:com.apple.settings.PrivacySecurity.extension?Privacy_Microphone");
            let hint = hint_text(err)->0;
            let url = Permission::Microphone.url_text();
            assert(hint.subrange(48, 137) =~= url);
            assert(occurs_at(hint, url, 48));
        },
        RaflowError::TextInject { .. } => {
            reveal_strlit(
                "→ enigo 透過 CGEvent 模擬鍵盤，需「輔助使用（Accessibility）」授權：\n  open 'x-apple.systempreferences:com.apple.settings.PrivacySecurity.extension?Privacy_Accessibility'",
            );
            reveal_strlit("x-apple.systempreferences:com.apple.settings.PrivacySecurity.extension?Privacy_Accessibility");
            let hint = hint_text(err)->0;
            let url = Permission::Accessibility.url_text();
            assert(hint.subrange(58, 150) =~= url);
            assert(occurs_at(hint, url, 58));
        },
        _ => {},
    }
}

/// What is printed of an error: where it came up, its message, and on a line of its own what a
/// permission can mend.
pub open spec fn report_text(prefix: Seq<char>, err: RaflowError) -> Seq<char> {
    prefix + ": "@ + err.message_text() + (match hint_text(err) {
        Some(hint) => "\n"@ + hint,
        None => Seq::empty(),
    })
}

/// What is printed of an error: where it came up, its message, and on a line of its own what a
/// permission can mend.
pub fn error_report(prefix: &str, err: &RaflowError) -> (text: String)
    ensures
        text@ == report_text(prefix@, *err),
{
    let mut text = prefix.to_owned();
    text.append(": ");
    let message = err.message();
    text.append(message.as_str());
    let ghost told = text@;
    match permission_hint(err) {
        Some(hint) => {
            text.append("\n");
            text.append(hint);
            assert(text@ == told + ("\n"@ + hint@));
        },
        None => {
            assert(told + Seq::<char>::empty() == told);
        },
    }
    text
}

// ---------------------------------------------------------------------------
// Diagnostics
// ---------------------------------------------------------------------------

/// How a row of the diagnostics is doing.
#[derive(Debug, Clone, Copy, PartialEq, Eq)]
pub enum DiagLevel {
    Ready,
    Warn,
}

impl DiagLevel {
    /// The icon in front of a row.
    pub fn icon(self) -> (icon: &'static str)
        ensures
            icon@ == match self {
                DiagLevel::Ready => "✅"@,
                DiagLevel::Warn => "⚠️"@,
            },
    {
        match self {
            DiagLevel::Ready => "✅",
            DiagLevel::Warn => "⚠️",
        }
    }
}

/// One row of the diagnostics.
#[derive(Debug, PartialEq, Eq)]
pub struct DiagRow {
    pub label: &'static str,
    pub level: DiagLevel,
    pub detail: String,
}

/// A row as text.
pub struct RowText {
    pub label: Seq<char>,
    pub level: DiagLevel,
    pub detail: Seq<char>,
}

impl View for DiagRow {
    type V = RowText;

    open spec fn view(&self) -> RowText {
        RowText { label: self.label@, level: self.level, detail: self.detail@ }
    }
}

/// What the diagnostics go by.
#[derive(Debug, Clone, Copy)]
pub struct DiagInputs {
    pub microphone: bool,
    pub speech_recognition: bool,
    pub accessibility: bool,
    /// Accessibility was granted after the tool was started, and does not count until it is
    /// started again.
    pub accessibility_needs_restart: bool,
    pub whisper_model_ready: bool,
    pub vad_model_ready: bool,
}

/// A row that is fine or is not.
pub open spec fn row(
    ready: bool,
    label: Seq<char>,
    fine: Seq<char>,
    warning: Seq<char>,
) -> RowText {
    if ready {
        RowText { label, level: DiagLevel::Ready, detail: fine }
    } else {
        RowText { label, level: DiagLevel::Warn, detail: warning }
    }
}

/// The rows of the diagnostics, always in the same order.
pub open spec fn diagnostic_rows(i: DiagInputs) -> Seq<RowText> {
    seq![
        row(i.microphone, "麥克風"@, "已授權"@, "未授權——說話錄到靜音、完全沒有字"@),
        row(i.speech_recognition, "語音辨識"@, "已授權"@, "未授權——無法把語音轉成文字"@),
        row(
            i.accessibility && !i.accessibility_needs_restart,
            "輔助使用"@,
            "已授權"@,
            if i.accessibility {
                "已授權，但需重新啟動 raflow 才生效（menu →「重新啟動 raflow」）"@
            } else {
                "未授權——只能手動 Cmd+V 貼上"@
            },
        ),
        row(
            i.whisper_model_ready,
            "Whisper 模型"@,
            "已就緒"@,
            "缺檔——終校停用，回退 Apple 即時輸出"@,
        ),
        row(
            i.vad_model_ready,
            "VAD 模型"@,
            "已就緒"@,
            "缺檔——退化為整段校正（非句級滾動）"@,
        ),
    ]
}

/// Rows as text.
pub open spec fn row_texts(rows: Seq<DiagRow>) -> Seq<RowText> {
    rows.map_values(|r: DiagRow| r@)
}

fn make_row(ready: bool, label: &'static str, fine: &str, warning: &str) -> (r: DiagRow)
    ensures
        r@ == row(ready, label@, fine@, warning@),
{
    if ready {
        DiagRow { label, level: DiagLevel::Ready, detail: fine.to_owned() }
    } else {
        DiagRow { label, level: DiagLevel::Warn, detail: warning.to_owned() }
    }
}

/// The diagnostics.
pub fn build_diagnostic(inputs: &DiagInputs) -> (rows: Vec<DiagRow>)
    ensures
        row_texts(rows@) == diagnostic_rows(*inputs),
{
    let accessibility_warning = if inputs.accessibility {
        "已授權，但需重新啟動 raflow 才生效（menu →「重新啟動 raflow」）"
    } else {
        "未授權——只能手動 Cmd+V 貼上"
    };
    let mut rows: Vec<DiagRow> = Vec::new();
    rows.push(
        make_row(
            inputs.microphone,
            "麥克風",
            "已授權",
            "未授權——說話錄到靜音、完全沒有字",
        ),
    );
    rows.push(
        make_row(
            inputs.speech_recognition,
            "語音辨識",
            "已授權",
            "未授權——無法把語音轉成文字",
        ),
    );
    rows.push(
        make_row(
            inputs.accessibility && !inputs.accessibility_needs_restart,
            "輔助使用",
            "已授權",
            accessibility_warning,
        ),
    );
    rows.push(
        make_row(
            inputs.whisper_model_ready,
            "Whisper 模型",
            "已就緒",
            "缺檔——終校停用，回退 Apple 即時輸出",
        ),
    );
    rows.push(
        make_row(
            inputs.vad_model_ready,
            "VAD 模型",
            "已就緒",
            "缺檔——退化為整段校正（非句級滾動）",
        ),
    );
    assert(row_texts(rows@) =~= diagnostic_rows(*inputs));
    rows
}

/// The rows are for the three permissions and the two models, and each warns exactly where its own
/// is missing, accessibility also where it does not count yet.
pub proof fn rows_warn_of_what_is_missing(i: DiagInputs)
    ensures
        diagnostic_rows(i).len() == 5,
        diagnostic_rows(i)[0].level is Warn <==> !i.microphone,
        diagnostic_rows(i)[1].level is Warn <==> !i.speech_recognition,
        diagnostic_rows(i)[2].level is Warn <==> !i.accessibility || i.accessibility_needs_restart,
        diagnostic_rows(i)[3].level is Warn <==> !i.whisper_model_ready,
        diagnostic_rows(i)[4].level is Warn <==> !i.vad_model_ready,
        diagnostic_rows(i)[0].label == Permission::Microphone.title_text(),
        diagnostic_rows(i)[1].label == Permission::SpeechRecognition.title_text(),
        diagnostic_rows(i)[2].label == Permission::Accessibility.title_text(),
{
}

/// The page of the system settings for the first permission that is missing.
pub open spec fn first_url(i: DiagInputs) -> Option<Seq<char>> {
    if !i.microphone {
        Some(Permission::Microphone.url_text())
    } else if !i.speech_recognition {
        Some(Permission::SpeechRecognition.url_text())
    } else if !i.accessibility {
        Some(Permission::Accessibility.url_text())
    } else {
        None
    }
}

/// The page of the system settings for the first permission that is missing; a missing model is
/// nothing that the settings can mend.
pub fn first_actionable_settings_url(inputs: &DiagInputs) -> (url: Option<&'static str>)
    ensures
        match url {
            Some(text) => first_url(*inputs) == Some(text@),
            None => first_url(*inputs) is None,
        },
{
    if !inputs.microphone {
        Some(Permission::Microphone.settings_url())
    } else if !inputs.speech_recognition {
        Some(Permission::SpeechRecognition.settings_url())
    } else if !inputs.accessibility {
        Some(Permission::Accessibility.settings_url())
    } else {
        None
    }
}

/// Whether a model can be used: its path is known, and a file is there.
pub fn model_file_ready(is_file: Option<bool>) -> (ready: bool)
    ensures
        ready == (is_file == Some(true)),
{
    match is_file {
        Some(b) => b,
        None => false,
    }
}

/// What the diagnostics go by. That the tool has to be started again counts only where the
/// permission is granted.
pub fn collect_diag_inputs(
    snapshot: PermissionSnapshot,
    accessibility_needs_restart: bool,
    whisper_model: Option<bool>,
    vad_model: Option<bool>,
) -> (inputs: DiagInputs)
    ensures
        inputs == (DiagInputs {
            microphone: snapshot.microphone,
            speech_recognition: snapshot.speech_recognition,
            accessibility: snapshot.accessibility,
            accessibility_needs_restart: snapshot.accessibility && accessibility_needs_restart,
            whisper_model_ready: whisper_model == Some(true),
            vad_model_ready: vad_model == Some(true),
        }),
{
    DiagInputs {
        microphone: snapshot.microphone,
        speech_recognition: snapshot.speech_recognition,
        accessibility: snapshot.accessibility,
        accessibility_needs_restart: snapshot.accessibility && accessibility_needs_restart,
        whisper_model_ready: model_file_ready(whisper_model),
        vad_model_ready: model_file_ready(vad_model),
    }
}

/// The first permission that is missing is the one whose page is offered, and a page is offered
/// exactly where a permission is missing.
pub proof fn offered_page_is_for_the_first_missing(i: DiagInputs)
    ensures
        ({
            let s = PermissionSnapshot {
                microphone: i.microphone,
                speech_recognition: i.speech_recognition,
                accessibility: i.accessibility,
            };
            match first_url(i) {
                Some(url) => missing_of(s).len() > 0 && url == missing_of(s).first().url_text(),
                None => missing_of(s).len() == 0,
            }
        }),
{
}

// ---------------------------------------------------------------------------
// Dialogs
// ---------------------------------------------------------------------------

/// A dialog: its title, what it says, and its buttons, the main one first.
#[derive(Debug, PartialEq, Eq)]
pub struct Dialog {
    pub title: &'static str,
    pub body: String,
    pub buttons: Vec<&'static str>,
}

/// The dialog about missing permissions; none where none is missing.
pub fn onboarding_dialog(missing: &[Permission]) -> (dialog: Option<Dialog>)
    ensures
        match dialog {
            Some(d) => {
                &&& d.title@ == "raflow 需要一些權限"@
                &&& onboarding_text(missing@) == Some(d.body@)
                &&& d.buttons@.len() == 2
                &&& d.buttons@[0]@ == "開啟系統設定"@
                &&& d.buttons@[1]@ == "稍後"@
            },
            None => missing@.len() == 0,
        },
{
    match onboarding_body(missing) {
        Some(body) => Some(
            Dialog { title: "raflow 需要一些權限", body, buttons: vec!["開啟系統設定", "稍後"] },
        ),
        None => None,
    }
}

/// The page to open after the dialog about missing permissions: that of the first one, where the
/// main button was pressed.
pub fn page_after_onboarding(missing: &[Permission], main_button: bool) -> (url: Option<
    &'static str,
>)
    ensures
        match url {
            Some(text) => main_button && missing@.len() > 0 && text@
                == missing@.first().url_text(),
            None => !main_button || missing@.len() == 0,
        },
{
    if main_button && missing.len() > 0 {
        Some(missing[0].settings_url())
    } else {
        None
    }
}

/// The dialog that the diagnostics are shown in: a button for the settings where they can mend
/// something, else one that just closes it.
pub fn diagnostic_dialog(inputs: &DiagInputs) -> (dialog: Dialog)
    ensures
        dialog.title@ == "raflow 診斷"@,
        dialog.body@ == "各項即時狀態："@,
        if first_url(*inputs) is Some {
            &&& dialog.buttons@.len() == 2
            &&& dialog.buttons@[0]@ == "開啟系統設定"@
            &&& dialog.buttons@[1]@ == "關閉"@
        } else {
            dialog.buttons@.len() == 1 && dialog.buttons@[0]@ == "好"@
        },
{
    let buttons: Vec<&'static str> = if first_actionable_settings_url(inputs).is_some() {
        vec!["開啟系統設定", "關閉"]
    } else {
        vec!["好"]
    };
    Dialog { title: "raflow 診斷", body: "各項即時狀態：".to_owned(), buttons }
}

/// The page to open after the diagnostics: the one that was offered, where the main button was
/// pressed.
pub fn page_after_diagnostics(inputs: &DiagInputs, main_button: bool) -> (url: Option<&'static str>)
    ensures
        match url {
            Some(text) => main_button && first_url(*inputs) == Some(text@),
            None => !main_button || first_url(*inputs) is None,
        },
{
    if main_button {
        first_actionable_settings_url(inputs)
    } else {
        None
    }
}

/// The dialog that offers to start the tool again after accessibility was granted.
pub fn restart_dialog() -> (dialog: Dialog)
    ensures
        dialog.title@ == "需要重新啟動 raflow"@,
        dialog.body@
            == "「輔助使用」已授權，但要**重新啟動 raflow** 才會生效（macOS 對 Accessibility 的行為：啟動後才授權不會即時套用）。重啟前文字仍可用 Cmd+V 從剪貼簿貼上。"@,
        dialog.buttons@.len() == 2,
        dialog.buttons@[0]@ == "立即重新啟動"@,
        dialog.buttons@[1]@ == "稍後"@,
{
    Dialog {
        title: "需要重新啟動 raflow",
        body:
            "「輔助使用」已授權，但要**重新啟動 raflow** 才會生效（macOS 對 Accessibility 的行為：啟動後才授權不會即時套用）。重啟前文字仍可用 Cmd+V 從剪貼簿貼上。".to_owned(),
        buttons: vec!["立即重新啟動", "稍後"],
    }
}

} // verus!
