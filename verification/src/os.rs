//! Trusted boundary: the calls into the `tempdir` and `uuid` crates and the
//! one filesystem probe that the allocator consults. Each wrapper makes one
//! outside call; nothing here is verified beyond its stated contract.
//!
//! Path strings use `/` as the separator, as the rest of the library's path
//! model does.

use vstd::prelude::*;

verus! {

#[verifier::external_type_specification]
#[verifier::external_body]
pub struct ExTempDir(tempdir::TempDir);

#[verifier::external_type_specification]
#[verifier::external_body]
pub struct ExIoError(std::io::Error);

/// `leaf` placed directly below the directory `dir`.
pub open spec fn joined_path(dir: Seq<char>, leaf: Seq<char>) -> Seq<char> {
    dir + seq!['/'] + leaf
}

/// The name that `tempdir` gives a freshly created directory: the prefix,
/// a dot, and a 12-character random suffix holding no separator.
pub open spec fn tempdir_leaf_name(prefix: Seq<char>, leaf: Seq<char>) -> bool {
    &&& leaf.len() == prefix.len() + 13
    &&& leaf.subrange(0, prefix.len() as int) == prefix
    &&& leaf[prefix.len() as int] == '.'
    &&& forall|j: int| prefix.len() < j < leaf.len() ==> leaf[j] != '/'
}

/// The path of a freshly created temporary directory: a fresh leaf for
/// `prefix` directly below some directory.
pub open spec fn tempdir_path_shape(prefix: Seq<char>, p: Seq<char>) -> bool {
    exists|dir: Seq<char>, leaf: Seq<char>|
        p == joined_path(dir, leaf) && tempdir_leaf_name(prefix, leaf)
}

/// The path of a freshly created temporary directory directly below `base`.
pub open spec fn tempdir_path_under(base: Seq<char>, prefix: Seq<char>, p: Seq<char>) -> bool {
    exists|leaf: Seq<char>| p == joined_path(base, leaf) && tempdir_leaf_name(prefix, leaf)
}

/// A plainly shaped absolute directory path: rooted at `/` and not ending
/// with a separator.
pub open spec fn plain_abs_dir(p: Seq<char>) -> bool {
    p.len() > 0 && p[0] == '/' && p[p.len() - 1] != '/'
}

/// Relies on `tempdir::TempDir::new`: creates a fresh, uniquely named
/// directory — the prefix, a dot, and a 12-character random suffix —
/// inside the operating system's temporary directory, and returns the
/// handle together with the created path, rendered as a string (lossily,
/// should a component not be valid Unicode; the fresh leaf itself is
/// ASCII). The directory is deleted when the handle drops.
#[verifier::external_body]
pub(crate) fn tempdir_new(prefix: &str) -> (r: Result<
    (tempdir::TempDir, String),
    std::io::Error,
>)
    requires
        prefix@.len() > 0,
        forall|j: int| 0 <= j < prefix@.len() ==> prefix@[j] != '/',
    ensures
        r matches Ok(dp) ==> tempdir_path_shape(prefix@, dp.1@),
{
    let dir = tempdir::TempDir::new(prefix)?;
    let path = dir.path().to_string_lossy().into_owned();
    Ok((dir, path))
}

/// Relies on `tempdir::TempDir::new_in`: as `TempDir::new`, but the fresh
/// directory is created inside the given directory (a relative base is
/// first joined onto the current directory).
#[verifier::external_body]
pub(crate) fn tempdir_new_in(base: &String, prefix: &str) -> (r: Result<
    (tempdir::TempDir, String),
    std::io::Error,
>)
    requires
        prefix@.len() > 0,
        forall|j: int| 0 <= j < prefix@.len() ==> prefix@[j] != '/',
    ensures
        r matches Ok(dp) ==> {
            &&& tempdir_path_shape(prefix@, dp.1@)
            &&& (plain_abs_dir(base@) ==> tempdir_path_under(base@, prefix@, dp.1@))
        },
{
    let dir = tempdir::TempDir::new_in(base.as_str(), prefix)?;
    let path = dir.path().to_string_lossy().into_owned();
    Ok((dir, path))
}

/// Relies on `tempdir::TempDir::close`: deletes the directory now and gives
/// up ownership of the handle.
#[verifier::external_body]
pub(crate) fn tempdir_close(dir: tempdir::TempDir) -> Result<(), std::io::Error> {
    dir.close()
}

/// Relies on `uuid::Uuid::new_v4`: a freshly generated random (version 4)
/// UUID; its hyphenated rendering is always 36 ASCII characters, all of
/// them hexadecimal digits or hyphens.
#[verifier::external_body]
pub(crate) fn uuid_string() -> (r: String)
    ensures
        r@.len() == 36,
        forall|j: int| 0 <= j < r@.len() ==> r@[j] != '/',
{
    uuid::Uuid::new_v4().hyphenated().to_string()
}

/// Relies on `std::path::Path::exists`: whether the path points at an
/// existing filesystem entity at the moment of the call.
#[verifier::external_body]
pub(crate) fn path_exists(path: &String) -> bool {
    std::path::Path::new(path.as_str()).exists()
}

} // verus!
