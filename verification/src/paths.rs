//! Where files are kept. Paths are text, with `/` between their parts.

use vstd::prelude::*;
use crate::text::to_chars;

verus! {

/// A path with a name added: parted by `/`, unless there is nothing in front of it or the path
/// ends in one.
pub open spec fn joined(dir: Seq<char>, name: Seq<char>) -> Seq<char> {
    if dir.len() == 0 || dir.last() == '/' {
        dir + name
    } else {
        dir.push('/') + name
    }
}

/// A path with the name of something relative added.
pub fn join_path(dir: &str, name: &str) -> (path: String)
    ensures
        path@ == joined(dir@, name@),
{
    let chars = to_chars(dir);
    let mut path = dir.to_owned();
    if chars.len() > 0 && chars[chars.len() - 1] != '/' {
        path.push('/');
    }
    path.append(name);
    path
}

/// The directory that the tool keeps its files in.
pub open spec fn support_dir(home: Seq<char>) -> Seq<char> {
    joined(joined(joined(home, "Library"@), "Application Support"@), "raflow"@)
}

/// The directory that the tool keeps its files in.
pub fn app_support_dir(home: &str) -> (path: String)
    ensures
        path@ == support_dir(home@),
{
    let library = join_path(home, "Library");
    let support = join_path(library.as_str(), "Application Support");
    join_path(support.as_str(), "raflow")
}

/// A file of the tool: where the environment says, else under its directory; nowhere where there
/// is neither.
pub open spec fn file_path(
    over: Option<&str>,
    home: Option<&str>,
    name: Seq<char>,
) -> Option<Seq<char>> {
    match over {
        Some(p) => Some(p@),
        None => match home {
            Some(h) => Some(joined(support_dir(h@), name)),
            None => None,
        },
    }
}

/// The text of a path, where there is one.
pub open spec fn path_text(path: Option<String>) -> Option<Seq<char>> {
    match path {
        Some(p) => Some(p@),
        None => None,
    }
}

fn resolve(over: Option<&str>, home: Option<&str>, name: &str) -> (path: Option<String>)
    ensures
        path_text(path) == file_path(over, home, name@),
{
    match over {
        Some(p) => Some(p.to_owned()),
        None => match home {
            Some(h) => {
                let dir = app_support_dir(h);
                Some(join_path(dir.as_str(), name))
            },
            None => None,
        },
    }
}

/// The file of the settings. `over` is what `RAFLOW_SETTINGS` holds, `home` what `HOME` holds.
pub fn settings_path(over: Option<&str>, home: Option<&str>) -> (path: Option<String>)
    ensures
        path_text(path) == file_path(over, home, "settings.json"@),
{
    resolve(over, home, "settings.json")
}

/// The file of the corrections. `over` is what `RAFLOW_REPLACEMENTS` holds.
pub fn replacements_path(over: Option<&str>, home: Option<&str>) -> (path: Option<String>)
    ensures
        path_text(path) == file_path(over, home, "replacements.txt"@),
{
    resolve(over, home, "replacements.txt")
}

/// The file of the terms. `over` is what `RAFLOW_CONTEXTUAL_TERMS` holds.
pub fn contextual_terms_path(over: Option<&str>, home: Option<&str>) -> (path: Option<String>)
    ensures
        path_text(path) == file_path(over, home, "contextual_terms.txt"@),
{
    resolve(over, home, "contextual_terms.txt")
}

// ---------------------------------------------------------------------------
// Models
// ---------------------------------------------------------------------------

/// The directory that models are kept in.
pub open spec fn models_dir_of(home: Seq<char>) -> Seq<char> {
    joined(support_dir(home), "models"@)
}

/// The directory that models are kept in.
pub fn models_dir(home: &str) -> (path: String)
    ensures
        path@ == models_dir_of(home@),
{
    let dir = app_support_dir(home);
    join_path(dir.as_str(), "models")
}

/// The name of the model to use: the large one where its file is there, else the small one,
/// whether its file is there or not.
pub open spec fn preferred_model(turbo_found: bool) -> Seq<char> {
    if turbo_found {
        "ggml-large-v3-turbo-q5_0.bin"@
    } else {
        "ggml-small.bin"@
    }
}

/// The model to use, from whether the large one is in the directory.
pub fn preferred_model_in(models_dir: &str, turbo_found: bool) -> (path: String)
    ensures
        path@ == joined(models_dir@, preferred_model(turbo_found)),
{
    if turbo_found {
        join_path(models_dir, "ggml-large-v3-turbo-q5_0.bin")
    } else {
        join_path(models_dir, "ggml-small.bin")
    }
}

/// The transcription model where the environment does not name one.
pub fn default_model_path(home: Option<&str>, turbo_found: bool) -> (path:
    Option<String>)
    ensures
        path_text(path) == match home {
            Some(h) => Some(joined(models_dir_of(h@), preferred_model(turbo_found))),
            None => None,
        },
{
    match home {
        Some(h) => {
            let dir = models_dir(h);
            Some(preferred_model_in(dir.as_str(), turbo_found))
        },
        None => None,
    }
}

/// The transcription model. `over` is what `RAFLOW_WHISPER_MODEL` holds.
pub fn resolve_model_path(
    over: Option<&str>,
    home: Option<&str>,
    turbo_found: bool,
) -> (path: Option<String>)
    ensures
        path_text(path) == match over {
            Some(p) => Some(p@),
            None => match home {
                Some(h) => Some(
                    joined(models_dir_of(h@), preferred_model(turbo_found)),
                ),
                None => None,
            },
        },
{
    match over {
        Some(p) => Some(p.to_owned()),
        None => default_model_path(home, turbo_found),
    }
}

/// The speech detection model where the environment does not name one.
pub fn default_vad_model_path(home: Option<&str>) -> (path: Option<String>)
    ensures
        path_text(path) == match home {
            Some(h) => Some(joined(models_dir_of(h@), "ggml-silero-v6.2.0.bin"@)),
            None => None,
        },
{
    match home {
        Some(h) => {
            let dir = models_dir(h);
            Some(join_path(dir.as_str(), "ggml-silero-v6.2.0.bin"))
        },
        None => None,
    }
}

/// The speech detection model. `over` is what `RAFLOW_VAD_MODEL` holds.
pub fn resolve_vad_model_path(over: Option<&str>, home: Option<&str>) -> (path: Option<String>)
    ensures
        path_text(path) == match over {
            Some(p) => Some(p@),
            None => match home {
                Some(h) => Some(joined(models_dir_of(h@), "ggml-silero-v6.2.0.bin"@)),
                None => None,
            },
        },
{
    match over {
        Some(p) => Some(p.to_owned()),
        None => default_vad_model_path(home),
    }
}

} // verus!
