use std::path::PathBuf;
use vstd::prelude::*;

verus! {

#[verifier::external_type_specification]
#[verifier::external_body]
pub struct ExPathBuf(PathBuf);

/// Folder, under the user's data directory, that holds everything by default.
pub const BASE_SCHEME_JS_FOLDER: &'static str = ".scheme-js";

/// Relies on dirs::data_dir for the user's data directory, when the platform has one.
#[verifier::external_body]
fn data_dir() -> (r: Option<PathBuf>) {
    dirs::data_dir()
}

/// Relies on std::path::Path::join for `base` extended by the component `name`.
#[verifier::external_body]
fn join_path(base: &PathBuf, name: &str) -> (r: PathBuf) {
    base.join(name)
}

/// The folder everything is stored under: `base_path` when given, else
/// `BASE_SCHEME_JS_FOLDER` in the user's data directory; `None` when neither
/// exists.
pub fn get_base_path(base_path: Option<PathBuf>) -> (r: Option<PathBuf>)
    ensures
        base_path is Some ==> r == base_path,
{
    match base_path {
        Some(p) => Some(p),
        None => match data_dir() {
            Some(d) => Some(join_path(&d, BASE_SCHEME_JS_FOLDER)),
            None => None,
        },
    }
}

} // verus!
