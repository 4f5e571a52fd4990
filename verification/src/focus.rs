//! Where the keyboard focus is: whether a text field has it, and which application.

use vstd::prelude::*;
use crate::text::same_text;
use crate::text::strs;

verus! {

/// The roles of elements that text can be typed into.
pub open spec fn text_roles() -> Seq<Seq<char>> {
    seq!["AXTextField"@, "AXTextArea"@, "AXSearchField"@, "AXSecureTextField"@, "AXComboBox"@]
}

/// The roles of elements that text can be typed into.
pub fn editable_roles() -> (roles: Vec<&'static str>)
    ensures
        strs(roles@) == text_roles(),
{
    let roles: Vec<&'static str> = vec![
        "AXTextField",
        "AXTextArea",
        "AXSearchField",
        "AXSecureTextField",
        "AXComboBox",
    ];
    assert(strs(roles@) =~= text_roles());
    roles
}

/// The element that has the focus.
#[derive(Debug, PartialEq, Eq)]
pub struct FocusInfo {
    /// Its role; `<unknown>` where it has none.
    pub role: String,
    /// Text can be typed into it.
    pub editable: bool,
}

/// What is known about the focus.
#[derive(Debug, PartialEq, Eq)]
pub enum FocusDetection {
    /// The tool may not ask.
    Untrusted,
    /// No element could be found.
    Unknown,
    /// An element has it.
    Detected(FocusInfo),
}

impl FocusDetection {
    /// The floating panel is not shown: only an element that certainly takes no text calls for it.
    pub open spec fn hides_panel(self) -> bool {
        match self {
            FocusDetection::Untrusted => true,
            FocusDetection::Unknown => true,
            FocusDetection::Detected(info) => info.editable,
        }
    }

    /// Whether the floating panel is not shown.
    pub fn suppresses_panel(&self) -> (b: bool)
        ensures
            b == self.hides_panel(),
    {
        match self {
            FocusDetection::Untrusted => true,
            FocusDetection::Unknown => true,
            FocusDetection::Detected(info) => info.editable,
        }
    }
}

/// Text can be typed into an element: by its role, or because a selection can be set in it.
pub open spec fn takes_text(role: Option<&str>, supports_text_range: bool) -> bool {
    supports_text_range || match role {
        Some(r) => text_roles().contains(r@),
        None => false,
    }
}

/// Whether text can be typed into an element.
pub fn classify(role: Option<&str>, supports_text_range: bool) -> (editable: bool)
    ensures
        editable == takes_text(role, supports_text_range),
{
    match role {
        Some(r) => {
            let roles = editable_roles();
            let mut i: usize = 0;
            while i < roles.len()
                invariant
                    i <= roles@.len(),
                    strs(roles@) == text_roles(),
                    role == Some(r),
                    forall|k: int| 0 <= k < i ==> text_roles()[k] != r@,
                decreases roles@.len() - i,
            {
                assert(text_roles()[i as int] == roles@[i as int]@);
                if same_text(roles[i], r) {
                    assert(text_roles().contains(r@));
                    return true;
                }
                i += 1;
            }
            assert(text_roles().len() == roles@.len());
            supports_text_range
        },
        None => supports_text_range,
    }
}

/// What is known about the focus, from whether the tool may ask and from the element that was
/// found: its role, and whether a selection can be set in it.
pub fn detect_focus(trusted: bool, element: Option<(Option<String>, bool)>) -> (found:
    FocusDetection)
    ensures
        match found {
            FocusDetection::Untrusted => !trusted,
            FocusDetection::Unknown => trusted && element is None,
            FocusDetection::Detected(info) => {
                &&& trusted
                &&& element is Some
                &&& match (element->0).0 {
                    Some(role) => {
                        &&& info.role@ == role@
                        &&& info.editable == ((element->0).1 || text_roles().contains(role@))
                    },
                    None => {
                        &&& info.role@ == "<unknown>"@
                        &&& info.editable == (element->0).1
                    },
                }
            },
        },
{
    if !trusted {
        return FocusDetection::Untrusted;
    }
    match element {
        None => FocusDetection::Unknown,
        Some((role, supports_text_range)) => match role {
            Some(role) => {
                let editable = classify(Some(role.as_str()), supports_text_range);
                FocusDetection::Detected(FocusInfo { role, editable })
            },
            None => {
                let editable = classify(None, supports_text_range);
                FocusDetection::Detected(FocusInfo { role: "<unknown>".to_owned(), editable })
            },
        },
    }
}

/// Whether the tool may ask about other applications, after it has entered itself in the list of
/// the system settings: what the system answered to the entry, or, where the entry could not be
/// made, what it answers without one.
pub fn register_silently(answer: Option<bool>, trusted: bool) -> (b: bool)
    ensures
        b == (match answer {
            Some(t) => t,
            None => trusted,
        }),
{
    match answer {
        Some(t) => t,
        None => trusted,
    }
}

/// The process that has the focus. `focused` is what was found about the application that has it:
/// whether its process could be told, and the process. Nothing where the tool may not ask, where
/// no application has the focus, or where what was told is no process.
pub fn frontmost_app_pid(trusted: bool, focused: Option<(bool, i32)>) -> (pid: Option<i32>)
    ensures
        match focused {
            Some((told, p)) => if trusted && told && p > 0 {
                pid == Some(p)
            } else {
                pid is None
            },
            None => pid is None,
        },
{
    match focused {
        Some((told, p)) => {
            if trusted && told && p > 0 {
                Some(p)
            } else {
                None
            }
        },
        None => None,
    }
}

} // verus!
