//! Project-side data model and the path rules used to locate a project's
//! files: resolving a user-supplied path to the project file, resolving
//! media paths relative to the project directory, and the default
//! location a new project is saved under.
//!
//! Paths are handled as plain text with `/` and `\` accepted as
//! separators; the surrounding application turns them into real
//! filesystem paths.

use vstd::prelude::*;
use crate::text::{last_where, lemma_last_where_at, lemma_last_where_none, lower_seq, spec_trim, trim_str, eq_ignore_ascii_case_str};

verus! {

/// Easing curve of a manually edited zoom segment.
#[derive(Debug, Clone, Copy, PartialEq, Eq, Structural)]
pub enum ZoomEasing {
    Linear,
    EaseIn,
    EaseOut,
    EaseInOut,
}

impl Default for ZoomEasing {
    fn default() -> (r: Self)
        ensures
            r == ZoomEasing::EaseInOut,
    {
        ZoomEasing::EaseInOut
    }
}

/// Background drawn behind the framed video.
#[derive(Debug, Clone)]
pub enum Background {
    Solid { color: String },
    Gradient { from: String, to: String, direction: String },
}

impl Default for Background {
    fn default() -> (r: Self)
        ensures
            r matches Background::Solid { color } && color@ == "#1a1a2e"@,
    {
        Background::Solid { color: String::from_str("#1a1a2e") }
    }
}

/// Export settings of a project.
#[derive(Debug, Clone)]
pub struct ExportSettings {
    pub width: u32,
    pub height: u32,
    pub fps: u32,
    pub codec: String,
}

impl Default for ExportSettings {
    fn default() -> (r: Self)
        ensures
            r.width == 1920,
            r.height == 1080,
            r.fps == 30,
            r.codec@ == "h264"@,
    {
        ExportSettings {
            width: 1920,
            height: 1080,
            fps: 30,
            codec: String::from_str("h264"),
        }
    }
}

/// One entry of the project listing shown to the user.
#[derive(Debug, Clone)]
pub struct ProjectListItem {
    pub id: String,
    pub name: String,
    pub created_at: u64,
    pub duration_ms: u64,
    pub video_width: u32,
    pub video_height: u32,
    pub project_path: String,
    pub folder_path: String,
    pub modified_time_ms: u64,
}

/// Whether `c` separates path components.
pub open spec fn is_path_sep(c: char) -> bool {
    c == '/' || c == '\\'
}

fn is_path_sep_exec(c: char) -> (r: bool)
    ensures
        r == is_path_sep(c),
{
    c == '/' || c == '\\'
}

/// The final path component: everything after the last separator, or
/// the whole path when it has none.
pub open spec fn spec_file_name(s: Seq<char>) -> Seq<char> {
    match last_where(s, |c: char| is_path_sep(c)) {
        None => s,
        Some(k) => s.subrange(k + 1, s.len() as int),
    }
}

/// Whether a path names a JSON file: its final component has a `.` past
/// its first character, and what follows the last `.` reads `json` up
/// to ASCII case.
pub open spec fn spec_is_json_path(s: Seq<char>) -> bool {
    let name = spec_file_name(s);
    match last_where(name, |c: char| c == '.') {
        None => false,
        Some(d) => d > 0 && lower_seq(name.subrange(d + 1, name.len() as int)) == lower_seq(
            "json"@,
        ),
    }
}

fn is_json_path_exec(s: &str) -> (r: bool)
    ensures
        r == spec_is_json_path(s@),
{
    let n: usize = s.unicode_len();
    let mut j: usize = n;
    while j > 0 && !is_path_sep_exec(s.get_char(j - 1))
        invariant
            n == s@.len(),
            0 <= j <= n,
            forall|k: int| j <= k < n ==> !is_path_sep(s@[k]),
        decreases j,
    {
        j = j - 1;
    }
    proof {
        if j > 0 {
            lemma_last_where_at(s@, |c: char| is_path_sep(c), j - 1);
        } else {
            lemma_last_where_none(s@, |c: char| is_path_sep(c));
            assert(s@.subrange(0, n as int) =~= s@);
        }
    }
    let name: &str = s.substring_char(j, n);
    proof {
        assert(name@ == spec_file_name(s@));
    }
    let nl: usize = name.unicode_len();
    let mut k: usize = nl;
    while k > 0 && name.get_char(k - 1) != '.'
        invariant
            nl == name@.len(),
            0 <= k <= nl,
            forall|q: int| k <= q < nl ==> name@[q] != '.',
        decreases k,
    {
        k = k - 1;
    }
    if k == 0 {
        proof {
            lemma_last_where_none(name@, |c: char| c == '.');
        }
        return false;
    }
    proof {
        lemma_last_where_at(name@, |c: char| c == '.', k - 1);
    }
    if k - 1 == 0 {
        return false;
    }
    let ext: &str = name.substring_char(k, nl);
    let r: bool = eq_ignore_ascii_case_str(ext, "json");
    r
}

/// The project file a user-supplied path names: the path itself when it
/// already names a JSON file, else `project.json` inside it. An empty
/// (or all-whitespace) path is an error. The path is trimmed first.
pub fn resolve_project_file(path: &str) -> (r: Result<String, String>)
    ensures
        match r {
            Err(e) => spec_trim(path@).len() == 0 && e@ == "Project path is empty"@,
            Ok(p) => spec_trim(path@).len() > 0 && p@ == if spec_is_json_path(spec_trim(path@)) {
                spec_trim(path@)
            } else {
                spec_trim(path@) + "/project.json"@
            },
        },
{
    let trimmed: String = trim_str(path);
    if trimmed.as_str().unicode_len() == 0 {
        return Err(String::from_str("Project path is empty"));
    }
    if is_json_path_exec(trimmed.as_str()) {
        Ok(trimmed)
    } else {
        Ok(trimmed.concat("/project.json"))
    }
}

/// Whether `c` is an ASCII letter.
pub open spec fn is_ascii_alpha(c: char) -> bool {
    ('A' <= c && c <= 'Z') || ('a' <= c && c <= 'z')
}

/// Whether a path stands on its own: it starts with a separator, or
/// with a drive letter, a colon and a separator.
pub open spec fn spec_is_absolute_path(s: Seq<char>) -> bool {
    s.len() > 0 && (is_path_sep(s[0]) || (s.len() >= 3 && is_ascii_alpha(s[0]) && s[1] == ':'
        && is_path_sep(s[2])))
}

fn is_absolute_path_exec(s: &str) -> (r: bool)
    ensures
        r == spec_is_absolute_path(s@),
{
    let n: usize = s.unicode_len();
    if n == 0 {
        return false;
    }
    let c0: char = s.get_char(0);
    if is_path_sep_exec(c0) {
        return true;
    }
    if n >= 3 {
        let alpha: bool = ('A' <= c0 && c0 <= 'Z') || ('a' <= c0 && c0 <= 'z');
        return alpha && s.get_char(1) == ':' && is_path_sep_exec(s.get_char(2));
    }
    false
}

/// The location of a media file named by a project: the path itself when
/// absolute, else the path joined under the project directory. An empty
/// (or all-whitespace) path is an error. The path is trimmed first.
pub fn resolve_media_path(project_dir: &str, raw_path: &str) -> (r: Result<String, String>)
    ensures
        match r {
            Err(e) => spec_trim(raw_path@).len() == 0 && e@ == "Project videoPath is empty"@,
            Ok(p) => spec_trim(raw_path@).len() > 0 && p@ == if spec_is_absolute_path(
                spec_trim(raw_path@),
            ) {
                spec_trim(raw_path@)
            } else {
                project_dir@ + "/"@ + spec_trim(raw_path@)
            },
        },
{
    let trimmed: String = trim_str(raw_path);
    if trimmed.as_str().unicode_len() == 0 {
        return Err(String::from_str("Project videoPath is empty"));
    }
    if is_absolute_path_exec(trimmed.as_str()) {
        Ok(trimmed)
    } else {
        let base: String = String::from_str(project_dir);
        let joined: String = base.concat("/");
        Ok(joined.concat(trimmed.as_str()))
    }
}

/// The default project file location for a recording: the recording's
/// folder under the application directory inside the videos folder.
pub fn default_project_file(videos_base: &str, project_id: &str) -> (r: String)
    ensures
        r@ == videos_base@ + "/NeuroScreenCaster/"@ + project_id@ + "/project.json"@,
{
    let base: String = String::from_str(videos_base);
    let with_app: String = base.concat("/NeuroScreenCaster/");
    let with_id: String = with_app.concat(project_id);
    with_id.concat("/project.json")
}

} // verus!
