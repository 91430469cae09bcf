//! The editor preview: where a buffer is served from, the url it is served at, and the text it
//! holds.

use vstd::prelude::*;

use crate::path::{relative_url, relative_url_of};
use crate::text::{join, seq_join, views};

verus! {

/// Links out of the buffer are resolved against the directory it lives in when there is one,
/// else against the working directory, else against `.`.
pub open spec fn preview_root_of(buffer_dir: Option<Seq<char>>, buffer_dir_is_dir: bool, current_dir: Option<Seq<char>>) -> Seq<char> {
    match buffer_dir {
        Some(dir) if buffer_dir_is_dir => dir,
        _ => match current_dir {
            Some(dir) => dir,
            None => "."@,
        },
    }
}

/// The directory a buffer is previewed from (see [`preview_root_of`]); `buffer_dir` is the parent
/// of the buffer's file name, and `buffer_dir_is_dir` whether that is a directory on disk.
pub fn preview_root(buffer_dir: Option<String>, buffer_dir_is_dir: bool, current_dir: Option<String>) -> (root: String)
    ensures
        root@ == preview_root_of(
            crate::resolve::opt_view(buffer_dir),
            buffer_dir_is_dir,
            crate::resolve::opt_view(current_dir),
        ),
{
    match buffer_dir {
        Some(dir) if buffer_dir_is_dir => dir,
        _ => match current_dir {
            Some(dir) => dir,
            None => String::from_str("."),
        },
    }
}

/// The url the buffer is served at, relative to the preview root, which is what the server
/// matches requests against and builds the breadcrumb from; empty for a buffer without a name.
pub fn preview_file_name(root_dir: &str, buffer_name: Option<String>) -> (file_name: String)
    ensures
        file_name@ == match crate::resolve::opt_view(buffer_name) {
            Some(name) => relative_url_of(root_dir@, name),
            None => Seq::<char>::empty(),
        },
{
    match buffer_name {
        Some(name) => relative_url(root_dir, name.as_str()),
        None => String::new(),
    }
}

/// The text of a buffer: its lines joined with newlines.
pub fn buffer_text(lines: &Vec<String>) -> (text: String)
    ensures
        text@ == seq_join(views(lines@), "\n"@),
{
    join(lines, "\n")
}

} // verus!
