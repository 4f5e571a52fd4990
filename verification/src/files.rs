//! Changes of the user's files, decided from what was read.

use vstd::prelude::*;
use crate::error::RaflowError;
use crate::replacements::upsert_replacement;
use crate::terms::upsert_contextual_priority_term;
use crate::text::same_text;
use crate::replacements::upserted;
use crate::terms::promoted;
use crate::text::trimmed;

verus! {

/// What came of reading a file.
#[derive(Debug, PartialEq, Eq)]
pub enum FileRead {
    Contents(String),
    /// The file is not there.
    Missing,
    /// The file could not be read, for this reason.
    Failed(String),
}

/// What is to be done with a file.
#[derive(Debug, PartialEq, Eq)]
pub enum FileUpdate {
    /// It is left alone.
    Keep,
    /// These are its new contents.
    Write(String),
}

impl FileRead {
    /// What the file holds; nothing where it is not there.
    pub open spec fn text(self) -> Seq<char> {
        match self {
            FileRead::Contents(s) => s@,
            _ => Seq::empty(),
        }
    }
}

/// What is to be done with a file that was read, where `m` is what becomes of its contents. A file
/// that could not be read is an error and is not touched, and neither is one whose change is
/// refused or changes nothing.
pub open spec fn update_is(
    r: Result<FileUpdate, RaflowError>,
    path: Seq<char>,
    read: FileRead,
    m: Result<Seq<char>, Seq<char>>,
) -> bool {
    match read {
        FileRead::Failed(reason) => {
            &&& r matches Err(RaflowError::ConfigLoad { path: p, source })
            &&& p@ == path
            &&& source@ == reason@
        },
        _ => match m {
            Ok(text) => if text == read.text() {
                r matches Ok(FileUpdate::Keep)
            } else {
                r matches Ok(FileUpdate::Write(s)) && s@ == text
            },
            Err(detail) => r matches Err(RaflowError::InvalidReplacement { detail: d }) && d@
                == detail,
        },
    }
}

/// What is to be done with the file of corrections, at `path`, for a correction.
pub fn upsert_replacement_file(path: &str, read: FileRead, heard: &str, correct: &str) -> (r: Result<
    FileUpdate,
    RaflowError,
>)
    ensures
        update_is(r, path@, read, upserted(read.text(), trimmed(heard@), trimmed(correct@))),
{
    let existing: String = match read {
        FileRead::Contents(s) => s,
        FileRead::Missing => String::new(),
        FileRead::Failed(source) => {
            return Err(RaflowError::ConfigLoad { path: path.to_owned(), source });
        },
    };
    assert(existing@ == read.text());
    match upsert_replacement(existing.as_str(), heard, correct) {
        Ok(updated) => {
            if same_text(updated.as_str(), existing.as_str()) {
                Ok(FileUpdate::Keep)
            } else {
                Ok(FileUpdate::Write(updated))
            }
        },
        Err(err) => Err(err),
    }
}

/// What is to be done with the file of terms, at `path`, to give a term the first place.
pub fn upsert_contextual_priority_term_file(path: &str, read: FileRead, term: &str) -> (r: Result<
    FileUpdate,
    RaflowError,
>)
    ensures
        update_is(r, path@, read, promoted(read.text(), trimmed(term@))),
{
    let existing: String = match read {
        FileRead::Contents(s) => s,
        FileRead::Missing => String::new(),
        FileRead::Failed(source) => {
            return Err(RaflowError::ConfigLoad { path: path.to_owned(), source });
        },
    };
    assert(existing@ == read.text());
    match upsert_contextual_priority_term(existing.as_str(), term) {
        Ok(updated) => {
            if same_text(updated.as_str(), existing.as_str()) {
                Ok(FileUpdate::Keep)
            } else {
                Ok(FileUpdate::Write(updated))
            }
        },
        Err(err) => Err(err),
    }
}

/// A file that could not be read is never written over, and is not taken for an empty one.
pub proof fn unreadable_files_are_left_alone(
    r: Result<FileUpdate, RaflowError>,
    path: Seq<char>,
    reason: String,
    m: Result<Seq<char>, Seq<char>>,
)
    requires
        update_is(r, path, FileRead::Failed(reason), m),
    ensures
        r matches Err(RaflowError::ConfigLoad { .. }),
{
}

/// Once what was decided is done, the file holds what it was to hold, whether it had to be written
/// or not; and it is not written without need.
pub proof fn updated_files_hold_what_they_should(
    update: FileUpdate,
    path: Seq<char>,
    read: FileRead,
    m: Result<Seq<char>, Seq<char>>,
)
    requires
        update_is(Ok(update), path, read, m),
    ensures
        m is Ok,
        match update {
            FileUpdate::Write(s) => s@ == m->Ok_0 && s@ != read.text(),
            FileUpdate::Keep => read.text() == m->Ok_0,
        },
{
}

/// A change is refused only for a reason of its own or of the file: where the file could be read and
/// the change can be made, it is made.
pub proof fn possible_changes_are_made(
    r: Result<FileUpdate, RaflowError>,
    path: Seq<char>,
    read: FileRead,
    text: Seq<char>,
)
    requires
        update_is(r, path, read, Ok(text)),
        !(read is Failed),
    ensures
        r is Ok,
{
}

/// A file of the user that is to be opened in an editor.
#[derive(Debug, PartialEq, Eq)]
pub enum OpenPlan {
    /// It is not known where the file is.
    NoPath,
    /// It is there.
    Open(String),
    /// It is not there: it is made from a template first.
    CreateAndOpen(String),
}

/// How a file of the user is opened, from where it is and whether it is there.
pub fn open_user_config(path: Option<String>, found: bool) -> (plan: OpenPlan)
    ensures
        plan == (match path {
            None => OpenPlan::NoPath,
            Some(p) => if found {
                OpenPlan::Open(p)
            } else {
                OpenPlan::CreateAndOpen(p)
            },
        }),
{
    match path {
        None => OpenPlan::NoPath,
        Some(p) => {
            if found {
                OpenPlan::Open(p)
            } else {
                OpenPlan::CreateAndOpen(p)
            }
        },
    }
}

/// What a new file of terms holds: comments only.
pub const CONTEXTUAL_TERMS_TEMPLATE: &'static str =
    "# raflow 自訂術語（每行一個；# 開頭為註解）\n#\n# 內建已涵蓋約 120 個常用術語（Kubernetes / Docker / AWS / Terraform /\n# PostgreSQL / ChatGPT…），這裡只需要放「內建沒有的、你自己常用的」詞。\n#\n# 最上方的詞優先進入 Whisper 修正提示（上限 30）——把最常被聽錯的放最前面。\n# 改完存檔後，下次「雙擊 Cmd 開始錄音」即生效，不必重啟 app。\n#\n# 範例（拿掉開頭的 # 即生效）：\n# Raycast\n# LangChain\n# 客戶專案代號\n";

/// What a new file of corrections holds: comments only.
pub const REPLACEMENTS_TEMPLATE: &'static str =
    "# raflow 取代規則（每行：聽錯 => 正確；# 開頭為註解）\n#\n# 用途：對「穩定重現的誤認」做確定性修正——同一個詞每次都被聽成同一個\n# 錯法時，加一條規則一勞永逸。英文比對不分大小寫；長規則自動優先。\n# 改完存檔後，下次錄音即生效，不必重啟 app。\n#\n# 範例（拿掉開頭的 # 即生效）：\n# Teraphone => Terraform\n# 阿狗CD => ArgoCD\n";

} // verus!
