//! File locations: where settings, saves, previews and the performance log
//! live, as relative paths built component by component. Opening, reading
//! and writing the files happens at the program's edge.

use vstd::prelude::*;
use std::path::PathBuf;
use crate::text::{decimal, lemma_decimal_digits, push_str};
use vstd::string::StringExecFns;

verus! {

#[verifier::external_type_specification]
#[verifier::external_body]
pub struct ExPathBuf(PathBuf);

/// The components of a path, each as text: a path is the list of them
/// (what `Path::components` walks).
pub uninterp spec fn path_parts(p: PathBuf) -> Seq<Seq<char>>;

/// A component that a path reads back as one normal component on every
/// platform: not empty, not `.` or `..`, and without separators or a drive
/// colon.
pub open spec fn plain_part(s: Seq<char>) -> bool {
    &&& s.len() > 0
    &&& s != "."@
    &&& s != ".."@
    &&& forall|i: int| 0 <= i < s.len() ==> #[trigger] s[i] != '/' && s[i] != '\\' && s[i] != ':'
}

/// `PathBuf::from` on one plain component, or on `.`: the path is that
/// single component.
#[verifier::external_body]
fn path_from(s: &str) -> (p: PathBuf)
    requires
        plain_part(s@) || s@ == "."@,
    ensures
        path_parts(p) == seq![s@],
{
    PathBuf::from(s)
}

/// `Path::join` with a relative plain component: the component is appended
/// after the base's own. What joining anything else gives is left unsaid.
#[verifier::external_body]
fn path_join(base: &PathBuf, part: &str) -> (p: PathBuf)
    ensures
        plain_part(part@) ==> path_parts(p) == path_parts(*base).push(part@),
{
    base.join(part)
}

/// What `Path::file_stem` gives for a path with these components, as text
/// (`None` with no final normal component, or when it is not UTF-8).
pub uninterp spec fn file_stem_of(parts: Seq<Seq<char>>) -> Option<Seq<char>>;

/// `Path::file_stem`, as an owned string: the result depends on the path's
/// components alone.
#[verifier::external_body]
fn path_file_stem(p: &PathBuf) -> (r: Option<String>)
    ensures
        match r {
            Some(s) => file_stem_of(path_parts(*p)) == Some(s@),
            None => file_stem_of(path_parts(*p)) is None,
        },
{
    match p.file_stem() {
        Some(s) => match s.to_str() {
            Some(t) => Some(t.to_string()),
            None => None,
        },
        None => None,
    }
}

/// Whether `Path::parent` finds a parent for a path with these components
/// (it does not for an empty path or one that ends in a root or prefix).
pub uninterp spec fn has_parent(parts: Seq<Seq<char>>) -> bool;

/// `Path::parent`, as an owned path: the path without its final component.
#[verifier::external_body]
fn path_parent(p: &PathBuf) -> (r: Option<PathBuf>)
    ensures
        r is Some <==> has_parent(path_parts(*p)),
        r matches Some(q) ==> path_parts(q) == path_parts(*p).drop_last(),
{
    match p.parent() {
        Some(q) => Some(q.to_path_buf()),
        None => None,
    }
}

proof fn lemma_plain_literal(s: Seq<char>)
    requires
        s.len() > 2,
        forall|i: int| 0 <= i < s.len() ==> #[trigger] s[i] != '/' && s[i] != '\\' && s[i] != ':',
    ensures
        plain_part(s),
{
    reveal_strlit(".");
    reveal_strlit("..");
}

/// `userdata/`: settings, saves and the log live under it.
pub fn userdata_dir() -> (r: PathBuf)
    ensures
        path_parts(r) == seq!["userdata"@],
{
    proof {
        reveal_strlit("userdata");
        lemma_plain_literal("userdata"@);
    }
    path_from("userdata")
}

fn join_plain(base: &PathBuf, part: &str) -> (r: PathBuf)
    requires
        part@.len() > 2,
        forall|i: int| 0 <= i < part@.len() ==> #[trigger] part@[i] != '/' && part@[i] != '\\' && part@[i] != ':',
    ensures
        path_parts(r) == path_parts(*base).push(part@),
{
    proof {
        lemma_plain_literal(part@);
    }
    path_join(base, part)
}

/// `userdata/saves/`.
pub fn saves_dir() -> (r: PathBuf)
    ensures
        path_parts(r) == seq!["userdata"@, "saves"@],
{
    let base = userdata_dir();
    proof {
        reveal_strlit("saves");
    }
    let r = join_plain(&base, "saves");
    assert(path_parts(r) =~= seq!["userdata"@, "saves"@]);
    r
}

/// `userdata/settings.json`.
pub fn settings_path() -> (r: PathBuf)
    ensures
        path_parts(r) == seq!["userdata"@, "settings.json"@],
{
    let base = userdata_dir();
    proof {
        reveal_strlit("settings.json");
    }
    let r = join_plain(&base, "settings.json");
    assert(path_parts(r) =~= seq!["userdata"@, "settings.json"@]);
    r
}

/// `userdata/perf_log.txt`.
pub fn log_path() -> (r: PathBuf)
    ensures
        path_parts(r) == seq!["userdata"@, "perf_log.txt"@],
{
    let base = userdata_dir();
    proof {
        reveal_strlit("perf_log.txt");
    }
    let r = join_plain(&base, "perf_log.txt");
    assert(path_parts(r) =~= seq!["userdata"@, "perf_log.txt"@]);
    r
}

/// `userdata/saves/manual.json`.
pub fn manual_save_path() -> (r: PathBuf)
    ensures
        path_parts(r) == seq!["userdata"@, "saves"@, "manual.json"@],
{
    let base = saves_dir();
    proof {
        reveal_strlit("manual.json");
    }
    let r = join_plain(&base, "manual.json");
    assert(path_parts(r) =~= seq!["userdata"@, "saves"@, "manual.json"@]);
    r
}

/// `userdata/saves/autosave_<slot>.json`.
pub fn autosave_path(slot: usize) -> (r: PathBuf)
    ensures
        path_parts(r) == seq!["userdata"@, "saves"@, crate::save::autosave_name(slot as nat)],
{
    let base = saves_dir();
    let name = crate::save::autosave_file_name(slot);
    proof {
        reveal_strlit("autosave_");
        reveal_strlit(".json");
        lemma_decimal_digits(slot as nat);
        let s = name@;
        let d = decimal(slot as nat);
        assert(s =~= "autosave_"@ + d + ".json"@);
        assert forall|i: int| 0 <= i < s.len() implies #[trigger] s[i] != '/' && s[i] != '\\' && s[i] != ':' by {
            if 9 <= i < 9 + d.len() {
                assert(s[i] == d[i - 9]);
            }
        }
    }
    let r = join_plain(&base, name.as_str());
    assert(path_parts(r) =~= seq!["userdata"@, "saves"@, crate::save::autosave_name(slot as nat)]);
    r
}

/// Name of the preview image beside a save: the save's file stem (or
/// `save`) followed by `_preview.png`.
pub open spec fn preview_name(save_parts: Seq<Seq<char>>) -> Seq<char> {
    let stem = match file_stem_of(save_parts) {
        Some(stem) => stem,
        None => "save"@,
    };
    stem + "_preview.png"@
}

/// The directory a save sits in: its parent, or `.` without one.
pub open spec fn save_dir_parts(save_parts: Seq<Seq<char>>) -> Seq<Seq<char>> {
    if has_parent(save_parts) {
        save_parts.drop_last()
    } else {
        seq!["."@]
    }
}

/// The preview image that goes with a save file: beside it, named after its
/// stem (`manual.json` → `manual_preview.png`).
pub fn preview_path_for(save_json: &PathBuf) -> (r: PathBuf)
    ensures
        plain_part(preview_name(path_parts(*save_json))) ==> path_parts(r) == save_dir_parts(
            path_parts(*save_json),
        ).push(preview_name(path_parts(*save_json))),
{
    let mut name = match path_file_stem(save_json) {
        Some(stem) => stem,
        None => String::from_str("save"),
    };
    push_str(&mut name, "_preview.png");
    let dir = match path_parent(save_json) {
        Some(q) => q,
        None => {
            proof {
                reveal_strlit(".");
            }
            path_from(".")
        },
    };
    path_join(&dir, name.as_str())
}

} // verus!
