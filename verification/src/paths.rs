//! Where the client keeps its files.
use std::path::PathBuf;

use vstd::prelude::*;
use vstd::utf8::encode_utf8;

verus! {

/// `std::path::PathBuf`, an owned path.
#[verifier::external_type_specification]
#[verifier::external_body]
pub struct ExPathBuf(std::path::PathBuf);

/// The components of a path, as `Path::components` walks them, each by its
/// bytes.
pub uninterp spec fn path_components(path: PathBuf) -> Seq<Seq<u8>>;

/// Calls `dirs::config_dir`: the user's directory for configuration, if there
/// is one. It comes from the environment, so nothing is said of it.
#[verifier::external_body]
fn config_dir() -> (r: Option<PathBuf>) {
    dirs::config_dir()
}

/// Calls `dirs::data_dir`: the user's directory for data, if there is one. It
/// comes from the environment, so nothing is said of it.
#[verifier::external_body]
fn data_dir() -> (r: Option<PathBuf>) {
    dirs::data_dir()
}

/// Is it what was answered when the user's directory for configuration was
/// asked for?
pub closed spec fn users_config_dir(dir: Option<PathBuf>) -> bool {
    call_ensures(config_dir, (), dir)
}

/// Is it what was answered when the user's directory for data was asked for?
pub closed spec fn users_data_dir(dir: Option<PathBuf>) -> bool {
    call_ensures(data_dir, (), dir)
}

/// A name that is one component of a path on every system: letters, digits,
/// hyphens and full stops, a letter first.
pub open spec fn plain_name(s: Seq<char>) -> bool {
    &&& s.len() > 0
    &&& 'a' <= s[0] <= 'z'
    &&& forall|i: int|
        0 <= i < s.len() ==> 'a' <= #[trigger] s[i] <= 'z' || '0' <= s[i] <= '9' || s[i] == '-'
            || s[i] == '.'
}

/// Calls `Path::join`: joining a name to a path adds it as the last
/// component.
#[verifier::external_body]
fn join(path: PathBuf, name: &str) -> (r: PathBuf)
    requires
        plain_name(name@),
    ensures
        path_components(r) == path_components(path).push(encode_utf8(name@)),
{
    path.join(name)
}

/// Makes a path of a single full stop, the current directory, with
/// `PathBuf::from`; that is its one component.
#[verifier::external_body]
fn current_dir() -> (r: PathBuf)
    ensures
        path_components(r) == seq![encode_utf8("."@)],
{
    PathBuf::from(".")
}

/// The components of the directory, or of the current one where there is
/// none.
pub open spec fn base_components(dir: Option<PathBuf>) -> Seq<Seq<u8>> {
    match dir {
        Some(path) => path_components(path),
        None => seq![encode_utf8("."@)],
    }
}

/// Is it a path to `name` in `folder`, wherever that is?
pub open spec fn lies_in(path: PathBuf, folder: Seq<char>, name: Seq<char>) -> bool {
    let parts = path_components(path);
    let n = parts.len() as int;
    n >= 2 && parts[n - 2] == encode_utf8(folder) && parts[n - 1] == encode_utf8(name)
}

/// `name` in `folder` in the directory, or in the current one where there is
/// none.
fn path_in(dir: Option<PathBuf>, folder: &str, name: &str) -> (r: PathBuf)
    requires
        plain_name(folder@),
        plain_name(name@),
    ensures
        path_components(r) == base_components(dir).push(encode_utf8(folder@)).push(
            encode_utf8(name@),
        ),
        lies_in(r, folder@, name@),
{
    let base = match dir {
        Some(path) => path,
        None => current_dir(),
    };
    join(join(base, folder), name)
}

/// Where the registry is kept, given the user's configuration directory.
pub fn config_path_in(dir: Option<PathBuf>) -> (r: PathBuf)
    ensures
        path_components(r) == base_components(dir).push(encode_utf8("froklog-watch"@)).push(
            encode_utf8("config.toml"@),
        ),
        lies_in(r, "froklog-watch"@, "config.toml"@),
{
    proof {
        reveal_strlit("froklog-watch");
        reveal_strlit("config.toml");
    }
    path_in(dir, "froklog-watch", "config.toml")
}

/// Where the registry is kept.
pub fn config_path() -> (r: PathBuf)
    ensures
        exists|dir: Option<PathBuf>| #[trigger]
            users_config_dir(dir) && path_components(r) == base_components(dir).push(
                encode_utf8("froklog-watch"@),
            ).push(encode_utf8("config.toml"@)),
        lies_in(r, "froklog-watch"@, "config.toml"@),
{
    let dir = config_dir();
    assert(users_config_dir(dir));
    config_path_in(dir)
}

/// Where the pronunciation table is kept, given the user's configuration
/// directory.
pub fn pronounce_path_in(dir: Option<PathBuf>) -> (r: PathBuf)
    ensures
        path_components(r) == base_components(dir).push(encode_utf8("froklog-watch"@)).push(
            encode_utf8("pronounce.toml"@),
        ),
        lies_in(r, "froklog-watch"@, "pronounce.toml"@),
{
    proof {
        reveal_strlit("froklog-watch");
        reveal_strlit("pronounce.toml");
    }
    path_in(dir, "froklog-watch", "pronounce.toml")
}

/// How to say the words a speech engine has never seen is kept in a plain
/// `key = "value"` file: here.
pub fn pronounce_path() -> (r: PathBuf)
    ensures
        exists|dir: Option<PathBuf>| #[trigger]
            users_config_dir(dir) && path_components(r) == base_components(dir).push(
                encode_utf8("froklog-watch"@),
            ).push(encode_utf8("pronounce.toml"@)),
        lies_in(r, "froklog-watch"@, "pronounce.toml"@),
{
    let dir = config_dir();
    assert(users_config_dir(dir));
    pronounce_path_in(dir)
}

/// Where piper's voices are installed, given the user's data directory.
pub fn voices_dir_in(dir: Option<PathBuf>) -> (r: PathBuf)
    ensures
        path_components(r) == base_components(dir).push(encode_utf8("piper"@)).push(
            encode_utf8("voices"@),
        ),
        lies_in(r, "piper"@, "voices"@),
{
    proof {
        reveal_strlit("piper");
        reveal_strlit("voices");
    }
    path_in(dir, "piper", "voices")
}

/// Where piper's voices are installed.
pub fn voices_dir() -> (r: PathBuf)
    ensures
        exists|dir: Option<PathBuf>| #[trigger]
            users_data_dir(dir) && path_components(r) == base_components(dir).push(
                encode_utf8("piper"@),
            ).push(encode_utf8("voices"@)),
        lies_in(r, "piper"@, "voices"@),
{
    let dir = data_dir();
    assert(users_data_dir(dir));
    voices_dir_in(dir)
}

} // verus!
