//! What meread was pointed at, where it serves from, and when a change on disk calls for a
//! rebuild.

use vstd::prelude::*;

use crate::path::{
    components, parent, parent_of, path_components, path_starts_with, push_component,
    relative_url, relative_url_of, starts_with,
};
use crate::resolve::{index_file_of, readme_of};
use crate::text::{same_text, views};

verus! {

/// What meread was pointed at: the page served at the root url, and the thing the watcher
/// regenerates when the tree changes.
pub enum Target {
    /// A markdown file, rendered as it is.
    Document(String),
    /// A directory, rendered as a browsable listing of what is in it.
    Directory(String),
}

/// The mathematical form of a [`Target`].
pub enum TargetView {
    Document(Seq<char>),
    Directory(Seq<char>),
}

impl View for Target {
    type V = TargetView;

    open spec fn view(&self) -> TargetView {
        match self {
            Target::Document(path) => TargetView::Document(path@),
            Target::Directory(path) => TargetView::Directory(path@),
        }
    }
}

/// The path of a target.
pub open spec fn target_path(target: TargetView) -> Seq<char> {
    match target {
        TargetView::Document(path) => path,
        TargetView::Directory(path) => path,
    }
}

impl Target {
    /// The path meread was pointed at.
    pub fn path(&self) -> (path: &str)
        ensures
            path@ == target_path(self@),
    {
        match self {
            Target::Document(path) | Target::Directory(path) => path.as_str(),
        }
    }
}

/// The index files looked for in a directory, in the order they are preferred.
pub fn index_file_candidates(dir: &str) -> (candidates: (String, String))
    ensures
        candidates.0@ == readme_of(dir@),
        candidates.1@ == index_file_of(dir@),
{
    (push_component(dir, "README.md"), push_component(dir, "index.md"))
}

/// What a path amounts to: a directory renders its README.md (or index.md) when it has one, as it
/// always has; without one, or with --list, it is browsable instead. `readme_is_file` and
/// `index_is_file` tell whether the two [`index_file_candidates`] are files.
pub open spec fn target_of(path: Seq<char>, is_dir: bool, list: bool, readme_is_file: bool, index_is_file: bool) -> TargetView {
    if !is_dir {
        TargetView::Document(path)
    } else if list {
        TargetView::Directory(path)
    } else if readme_is_file {
        TargetView::Document(readme_of(path))
    } else if index_is_file {
        TargetView::Document(index_file_of(path))
    } else {
        TargetView::Directory(path)
    }
}

/// What a (canonical) path amounts to (see [`target_of`]).
pub fn target_for(path: &str, is_dir: bool, list: bool, readme_is_file: bool, index_is_file: bool) -> (target: Target)
    ensures
        target@ == target_of(path@, is_dir, list, readme_is_file, index_is_file),
{
    if !is_dir || list {
        if !is_dir {
            Target::Document(path.to_owned())
        } else {
            Target::Directory(path.to_owned())
        }
    } else {
        let (readme, index_file) = index_file_candidates(path);
        if readme_is_file {
            Target::Document(readme)
        } else if index_is_file {
            Target::Document(index_file)
        } else {
            Target::Directory(path.to_owned())
        }
    }
}

/// Why serving cannot start.
pub enum ServeError {
    /// A document with no parent directory to serve from (it would be the file system root).
    NoParent,
    /// The target is not inside the root directory.
    OutsideRoot,
}

/// Where serving starts: the root directory, and the url of the served page below it.
pub struct ServePlan {
    pub root_dir: String,
    pub index_path: String,
}

/// The directory served: `root` when given, else the document's own directory, else the
/// browsed directory itself.
pub open spec fn root_dir_of(target: TargetView, root: Option<Seq<char>>) -> Option<Seq<char>> {
    match root {
        Some(dir) => Some(dir),
        None => match target {
            TargetView::Document(path) => parent_of(path),
            TargetView::Directory(dir) => Some(dir),
        },
    }
}

/// Everything below the root is servable, so that links out of the document can be followed.
/// The document's own directory is the smallest root that makes sense; `root` serves a wider tree.
/// `root` is expected canonical, as the target is.
pub fn plan_serve(target: &Target, root: Option<String>) -> (plan: Result<ServePlan, ServeError>)
    ensures
        match plan {
            Ok(plan) => {
                &&& root_dir_of(target@, crate::resolve::opt_view(root)) == Some(plan.root_dir@)
                &&& path_starts_with(target_path(target@), plan.root_dir@)
                &&& plan.index_path@ == relative_url_of(plan.root_dir@, target_path(target@))
            },
            Err(ServeError::NoParent) => root_dir_of(target@, crate::resolve::opt_view(root)) is None,
            Err(ServeError::OutsideRoot) => root_dir_of(target@, crate::resolve::opt_view(root)) matches Some(dir)
                && !path_starts_with(target_path(target@), dir),
        },
        root matches Some(given) ==> match plan {
            Ok(plan) => plan.root_dir@ == given@ && plan.index_path@ == relative_url_of(
                given@,
                target_path(target@),
            ),
            Err(error) => error is OutsideRoot && !path_starts_with(target_path(target@), given@),
        },
{
    let root_dir = match root {
        Some(dir) => dir,
        None => match target {
            Target::Document(path) => match parent(path.as_str()) {
                Some(dir) => dir,
                None => return Err(ServeError::NoParent),
            },
            Target::Directory(dir) => dir.clone(),
        },
    };
    if !starts_with(target.path(), root_dir.as_str()) {
        return Err(ServeError::OutsideRoot);
    }
    let index_path = relative_url(root_dir.as_str(), target.path());
    Ok(ServePlan { root_dir, index_path })
}

/// A root that is given is the root served, whatever was pointed at, a browsed directory as much
/// as a document: serving starts exactly when the target lies inside it, with the target's url
/// below it as the served page's.
pub proof fn lemma_given_root_is_served(target: TargetView, given: Seq<char>)
    ensures
        root_dir_of(target, Some(given)) == Some(given),
{
}

/// One batch of file system events, as the watcher reports it: whether its kind is a creation,
/// modification or removal, and the paths it is about.
pub struct FsEvent {
    pub relevant: bool,
    pub paths: Vec<String>,
}

/// Two paths name the same thing when their components agree (`PathBuf` equality).
pub open spec fn same_path(a: Seq<char>, b: Seq<char>) -> bool {
    path_components(a) == path_components(b)
}

/// Whether the event mentions `path`.
pub open spec fn mentions(event: FsEvent, path: Seq<char>) -> bool {
    exists|i: int| 0 <= i < event.paths.len() && same_path(#[trigger] event.paths@[i]@, path)
}

/// Whether a batch of events calls for a rebuild: something was created, modified or removed,
/// and a document only cares about its own file, a listing about anything below it.
pub open spec fn triggers_rebuild_of(target: TargetView, events: Seq<FsEvent>) -> bool {
    &&& exists|i: int| 0 <= i < events.len() && #[trigger] events[i].relevant
    &&& match target {
        TargetView::Document(path) => exists|i: int|
            0 <= i < events.len() && mentions(#[trigger] events[i], path),
        TargetView::Directory(_) => true,
    }
}

fn same_path_exec(a: &str, b: &str) -> (same: bool)
    ensures
        same == same_path(a@, b@),
{
    let x = components(a);
    let y = components(b);
    if x.len() != y.len() {
        assert(views(x@).len() != views(y@).len());
        return false;
    }
    let mut i: usize = 0;
    while i < x.len()
        invariant
            x.len() == y.len(),
            i <= x.len(),
            views(x@) == path_components(a@),
            views(y@) == path_components(b@),
            forall|j: int| 0 <= j < i ==> views(x@)[j] == views(y@)[j],
        decreases x.len() - i,
    {
        assert(views(x@)[i as int] == x@[i as int]@);
        assert(views(y@)[i as int] == y@[i as int]@);
        if !same_text(x[i].as_str(), y[i].as_str()) {
            return false;
        }
        i = i + 1;
    }
    assert(views(x@) =~= views(y@));
    true
}

fn event_mentions(event: &FsEvent, path: &str) -> (found: bool)
    ensures
        found == mentions(*event, path@),
{
    let mut i: usize = 0;
    while i < event.paths.len()
        invariant
            i <= event.paths.len(),
            forall|j: int| 0 <= j < i ==> !same_path(#[trigger] event.paths@[j]@, path@),
        decreases event.paths.len() - i,
    {
        if same_path_exec(event.paths[i].as_str(), path) {
            return true;
        }
        i = i + 1;
    }
    false
}

/// Whether a batch of events calls for a rebuild of `target` (see [`triggers_rebuild_of`]).
pub fn triggers_rebuild(target: &Target, events: &Vec<FsEvent>) -> (rebuild: bool)
    ensures
        rebuild == triggers_rebuild_of(target@, events@),
{
    let mut any_relevant = false;
    let mut i: usize = 0;
    while i < events.len()
        invariant
            i <= events.len(),
            any_relevant == exists|j: int| 0 <= j < i && #[trigger] events@[j].relevant,
        decreases events.len() - i,
    {
        if events[i].relevant {
            any_relevant = true;
        }
        i = i + 1;
    }
    if !any_relevant {
        return false;
    }
    match target {
        Target::Directory(_) => true,
        Target::Document(path) => {
            let mut k: usize = 0;
            while k < events.len()
                invariant
                    k <= events.len(),
                    target@ == TargetView::Document(path@),
                    exists|j: int| 0 <= j < events.len() && #[trigger] events@[j].relevant,
                    forall|j: int| 0 <= j < k ==> !mentions(#[trigger] events@[j], path@),
                decreases events.len() - k,
            {
                if event_mentions(&events[k], path.as_str()) {
                    assert(mentions(events@[k as int], path@));
                    return true;
                }
                k = k + 1;
            }
            false
        },
    }
}

/// A document is rebuilt when something was created, modified or removed and some event names the
/// document among its paths, at whatever place in the event's list of paths (an editor's atomic
/// save renames a temporary file over the document, and reports both).
pub proof fn lemma_document_rebuilt_when_named(
    path: Seq<char>,
    events: Seq<FsEvent>,
    relevant: int,
    event: int,
    place: int,
)
    requires
        0 <= relevant < events.len(),
        events[relevant].relevant,
        0 <= event < events.len(),
        0 <= place < events[event].paths.len(),
        path_components(events[event].paths@[place]@) == path_components(path),
    ensures
        triggers_rebuild_of(TargetView::Document(path), events),
{
    assert(mentions(events[event], path));
}

/// A document is not rebuilt for events none of whose paths name it, nor for events none of which
/// is a creation, modification or removal.
pub proof fn lemma_document_not_rebuilt_unless_named(path: Seq<char>, events: Seq<FsEvent>)
    requires
        (forall|event: int, place: int|
            0 <= event < events.len() && 0 <= place < events[event].paths.len()
                ==> path_components(#[trigger] events[event].paths@[place]@) != path_components(path))
            || (forall|event: int| 0 <= event < events.len() ==> !#[trigger] events[event].relevant),
    ensures
        !triggers_rebuild_of(TargetView::Document(path), events),
{
}

/// A browsed directory is rebuilt for any creation, modification or removal below the root, and
/// for nothing else.
pub proof fn lemma_directory_rebuilt_on_any_change(dir: Seq<char>, events: Seq<FsEvent>)
    ensures
        triggers_rebuild_of(TargetView::Directory(dir), events) <==> exists|event: int|
            0 <= event < events.len() && #[trigger] events[event].relevant,
{
}

} // verus!
