//! The parts of a path, as `std::path::Path` tells them apart.

use crate::text::text_model;
use vstd::prelude::*;

verus! {

/// The final component of `path` as `std::path::Path::file_name` gives it,
/// or `None` where the path has none.
pub uninterp spec fn path_file_name(path: Seq<char>) -> Option<Seq<char>>;

/// The position of the last dot in `name`, or -1 where it holds none.
pub open spec fn last_dot(name: Seq<char>) -> int
    decreases name.len(),
{
    if name.len() == 0 {
        -1
    } else if name.last() == '.' {
        name.len() - 1
    } else {
        last_dot(name.drop_last())
    }
}

/// The extension of `path`: what follows the last dot in its final
/// component. There is none where the path has no final component, where
/// that component holds no dot, and where its only dot stands at its start.
pub open spec fn path_extension(path: Seq<char>) -> Option<Seq<char>> {
    match path_file_name(path) {
        Some(name) => if last_dot(name) <= 0 {
            None
        } else {
            Some(name.subrange(last_dot(name) + 1, name.len() as int))
        },
        None => None,
    }
}

/// The basename under which a path is compared with others: its final
/// component, whatever directory it lies in. A path without one has the
/// empty basename.
pub open spec fn base_name(path: Seq<char>) -> Seq<char> {
    match path_file_name(path) {
        Some(name) => name,
        None => Seq::empty(),
    }
}

/// Calls `std::path::Path::file_name` on `path` and hands the component back
/// as a text. The component of a path that is a text is a text too, so
/// nothing is lost on the way.
#[verifier::external_body]
pub(crate) fn file_name(path: &str) -> (name: Option<String>)
    ensures
        text_model(name) == path_file_name(path@),
{
    std::path::Path::new(path).file_name().map(|name| name.to_string_lossy().into_owned())
}

/// Calls `std::path::Path::extension` on `path` and hands the extension back
/// as a text: the part of the final component behind its last dot, unless
/// that dot is missing or stands at the start of the component.
#[verifier::external_body]
pub(crate) fn extension(path: &str) -> (found: Option<String>)
    ensures
        text_model(found) == path_extension(path@),
{
    std::path::Path::new(path).extension().map(|found| found.to_string_lossy().into_owned())
}

} // verus!
