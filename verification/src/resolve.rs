//! Working out what a request path below the served root is answered with.
//!
//! Resolution needs the disk: whether a path exists (and what it canonically is), whether it is a
//! directory, whether a file is there. A [`Resolver`] asks those questions one at a time as
//! [`Probe`]s; whoever drives it answers them from the real file system. Its contract is stated
//! against a model of the disk, [`Disk`]: whatever the disk holds, answering every probe truthfully
//! ends in [`resolution`] for that disk.

use vstd::prelude::*;

use crate::path::{
    is_markdown, is_markdown_path, lemma_starts_with_itself,
    path_starts_with, push_component, pushed, pushed_all, relative_url, relative_url_of,
    starts_with,
};
use crate::text::{same_text, split, split_on, views};

verus! {

/// What a request is answered with.
pub enum Resolved {
    /// The document meread was started with, which is kept rendered in memory.
    Index,
    /// Some other markdown file below the root, to be rendered on the fly.
    Markdown(String),
    /// A directory below the root with no index file, to be shown as a browsable listing.
    Directory(String),
    /// Not markdown; serve the bytes as they are.
    File(String),
    NotFound,
}

/// The mathematical form of a [`Resolved`].
pub enum Resolution {
    Index,
    Markdown(Seq<char>),
    Directory(Seq<char>),
    File(Seq<char>),
    NotFound,
}

impl View for Resolved {
    type V = Resolution;

    open spec fn view(&self) -> Resolution {
        match self {
            Resolved::Index => Resolution::Index,
            Resolved::Markdown(path) => Resolution::Markdown(path@),
            Resolved::Directory(path) => Resolution::Directory(path@),
            Resolved::File(path) => Resolution::File(path@),
            Resolved::NotFound => Resolution::NotFound,
        }
    }
}

/// A model of the disk as resolution sees it.
pub struct Disk {
    /// The canonical form of a path, if it exists (`Path::canonicalize`).
    pub canonical: spec_fn(Seq<char>) -> Option<Seq<char>>,
    /// Whether a path is a directory (`Path::is_dir`).
    pub is_dir: spec_fn(Seq<char>) -> bool,
    /// Whether a path is a file (`Path::is_file`).
    pub is_file: spec_fn(Seq<char>) -> bool,
}

/// The path a request path names below `root_dir`: the root with every `/`-separated piece of
/// the request pushed onto it.
pub open spec fn candidate_of(root_dir: Seq<char>, request_path: Seq<char>) -> Seq<char> {
    pushed_all(root_dir, split_on(request_path, '/'))
}

/// Resolve `request_path` against `root_dir`: its canonical path, unless it does not exist or
/// escapes the root (`..`, symlinks out of the tree, ..).
pub open spec fn within_of(root_dir: Seq<char>, request_path: Seq<char>, disk: Disk) -> Option<
    Seq<char>,
> {
    match (disk.canonical)(candidate_of(root_dir, request_path)) {
        Some(path) => if path_starts_with(path, root_dir) {
            Some(path)
        } else {
            None
        },
        None => None,
    }
}

/// Markdown that happens to be the served document is answered from memory, so that it stays live.
pub open spec fn markdown_or_index_of(root_dir: Seq<char>, path: Seq<char>, index_path: Seq<char>) -> Resolution {
    if relative_url_of(root_dir, path) == index_path {
        Resolution::Index
    } else {
        Resolution::Markdown(path)
    }
}

/// The first index file looked for in a directory.
pub open spec fn readme_of(dir: Seq<char>) -> Seq<char> {
    pushed(dir, "README.md"@)
}

/// The second index file looked for in a directory.
pub open spec fn index_file_of(dir: Seq<char>) -> Seq<char> {
    pushed(dir, "index.md"@)
}

/// Whether `path` lies inside `root_dir` once canonicalized, so that a symlink out of the tree
/// does not count as inside.
pub open spec fn canonically_inside(root_dir: Seq<char>, path: Seq<char>, disk: Disk) -> bool {
    match (disk.canonical)(path) {
        Some(canonical) => path_starts_with(canonical, root_dir),
        None => false,
    }
}

/// An index file that is there is taken, as in a directory with a README nothing is listed; but it
/// is only served when it lies inside the root once canonicalized, and one that leads out of the
/// tree through a symlink makes the directory not found.
pub open spec fn index_file_checked(root_dir: Seq<char>, index_path: Seq<char>, file: Seq<char>, disk: Disk) -> Resolution {
    if canonically_inside(root_dir, file, disk) {
        markdown_or_index_of(root_dir, file, index_path)
    } else {
        Resolution::NotFound
    }
}

/// A directory without a README.md file: its index.md when that is a file, else a listing.
pub open spec fn index_file_page(root_dir: Seq<char>, index_path: Seq<char>, dir: Seq<char>, disk: Disk) -> Resolution {
    if (disk.is_file)(index_file_of(dir)) {
        index_file_checked(root_dir, index_path, index_file_of(dir), disk)
    } else {
        Resolution::Directory(dir)
    }
}

/// A directory that is not the served page: its README.md when that is a file, else its index.md
/// when that is a file, else a listing; an index file is served only from inside the root (see
/// [`index_file_checked`]).
pub open spec fn readme_page(root_dir: Seq<char>, index_path: Seq<char>, dir: Seq<char>, disk: Disk) -> Resolution {
    if (disk.is_file)(readme_of(dir)) {
        index_file_checked(root_dir, index_path, readme_of(dir), disk)
    } else {
        index_file_page(root_dir, index_path, dir, disk)
    }
}

/// A directory: the directory itself being the served page has to win over its README, or
/// --list could never show anything.
pub open spec fn dir_page(root_dir: Seq<char>, index_path: Seq<char>, dir: Seq<char>, disk: Disk) -> Resolution {
    if relative_url_of(root_dir, dir) == index_path {
        Resolution::Index
    } else {
        readme_page(root_dir, index_path, dir, disk)
    }
}

/// What an existing path inside the root is answered with.
pub open spec fn found_page(root_dir: Seq<char>, index_path: Seq<char>, path: Seq<char>, disk: Disk) -> Resolution {
    if (disk.is_dir)(path) {
        dir_page(root_dir, index_path, path, disk)
    } else if is_markdown_path(path) {
        markdown_or_index_of(root_dir, path, index_path)
    } else {
        Resolution::File(path)
    }
}

/// Extensionless links (`[guide](docs/guide)`) are how markdown files refer to each other on
/// github, so `<path>.md` is tried before giving up; and with nothing on disk, the served document
/// may still be a buffer that was never written there.
pub open spec fn fallback_page(root_dir: Seq<char>, request_path: Seq<char>, index_path: Seq<char>, disk: Disk) -> Resolution {
    match within_of(root_dir, request_path + ".md"@, disk) {
        Some(path) => found_page(root_dir, index_path, path, disk),
        None => if request_path == index_path {
            Resolution::Index
        } else {
            Resolution::NotFound
        },
    }
}

/// What a request path below `root_dir` is answered with, on a disk like `disk`.
///
/// Every path is resolved against the tree first and only then compared with `index_path`, so that
/// the root keeps a url of its own (`/`) even when the served document lives further down.
pub open spec fn resolution(root_dir: Seq<char>, request_path: Seq<char>, index_path: Seq<char>, disk: Disk) -> Resolution {
    if request_path.len() == 0 {
        found_page(root_dir, index_path, root_dir, disk)
    } else {
        match within_of(root_dir, request_path, disk) {
            Some(path) => found_page(root_dir, index_path, path, disk),
            None => fallback_page(root_dir, request_path, index_path, disk),
        }
    }
}

/// A question about the disk.
pub enum Probe {
    /// The canonical form of this path, if it exists.
    Canonicalize(String),
    /// Whether this path is a directory.
    IsDir(String),
    /// Whether this path is a file.
    IsFile(String),
}

/// The mathematical form of a [`Probe`].
pub enum ProbeView {
    Canonicalize(Seq<char>),
    IsDir(Seq<char>),
    IsFile(Seq<char>),
}

impl View for Probe {
    type V = ProbeView;

    open spec fn view(&self) -> ProbeView {
        match self {
            Probe::Canonicalize(path) => ProbeView::Canonicalize(path@),
            Probe::IsDir(path) => ProbeView::IsDir(path@),
            Probe::IsFile(path) => ProbeView::IsFile(path@),
        }
    }
}

/// The answer to a [`Probe`]: a canonical path (or none) for [`Probe::Canonicalize`], a flag for
/// the others.
pub enum Answer {
    Canonical(Option<String>),
    Flag(bool),
}

/// The mathematical form of an optional path.
pub open spec fn opt_view(path: Option<String>) -> Option<Seq<char>> {
    match path {
        Some(p) => Some(p@),
        None => None,
    }
}

/// Whether `answer` is the kind of answer `probe` asks for.
pub open spec fn fits(probe: ProbeView, answer: Answer) -> bool {
    match probe {
        ProbeView::Canonicalize(_) => answer is Canonical,
        _ => answer is Flag,
    }
}

/// Whether `answer` is what `disk` says to `probe`.
pub open spec fn disk_answers(disk: Disk, probe: ProbeView, answer: Answer) -> bool {
    match (probe, answer) {
        (ProbeView::Canonicalize(path), Answer::Canonical(canonical)) => (disk.canonical)(path)
            == opt_view(canonical),
        (ProbeView::IsDir(path), Answer::Flag(flag)) => (disk.is_dir)(path) == flag,
        (ProbeView::IsFile(path), Answer::Flag(flag)) => (disk.is_file)(path) == flag,
        _ => false,
    }
}

/// Where a resolution stands.
enum Stage {
    /// Waiting for the canonical form of the request path.
    Plain,
    /// Waiting for the canonical form of the request path with `.md` appended.
    WithMd,
    /// Waiting to hear whether the found path is a directory.
    Found(String),
    /// Waiting to hear whether the directory has a README.md.
    Readme(String),
    /// Waiting for the canonical form of the directory's README.md, which is a file.
    ReadmeInside(String),
    /// Waiting to hear whether the directory has an index.md.
    IndexFile(String),
    /// Waiting for the canonical form of the directory's index.md, which is a file.
    IndexFileInside(String),
}

/// A resolution under way.
pub struct Resolver {
    root_dir: String,
    request_path: String,
    index_path: String,
    stage: Stage,
}

/// What comes of answering a probe: another probe to answer, or the resolution.
pub enum Step {
    Next(Resolver),
    Done(Resolved),
}

impl Resolver {
    /// What this resolution ends in on `disk`, if every probe is answered as `disk` would.
    pub closed spec fn outcome(self, disk: Disk) -> Resolution {
        let root = self.root_dir@;
        let request = self.request_path@;
        let index = self.index_path@;
        match self.stage {
            Stage::Plain => match within_of(root, request, disk) {
                Some(path) => found_page(root, index, path, disk),
                None => fallback_page(root, request, index, disk),
            },
            Stage::WithMd => fallback_page(root, request, index, disk),
            Stage::Found(path) => found_page(root, index, path@, disk),
            Stage::Readme(dir) => readme_page(root, index, dir@, disk),
            Stage::ReadmeInside(dir) => index_file_checked(root, index, readme_of(dir@), disk),
            Stage::IndexFile(dir) => index_file_page(root, index, dir@, disk),
            Stage::IndexFileInside(dir) => index_file_checked(root, index, index_file_of(dir@), disk),
        }
    }

    /// The question this resolution waits on.
    pub closed spec fn pending(self) -> ProbeView {
        let root = self.root_dir@;
        let request = self.request_path@;
        match self.stage {
            Stage::Plain => ProbeView::Canonicalize(candidate_of(root, request)),
            Stage::WithMd => ProbeView::Canonicalize(candidate_of(root, request + ".md"@)),
            Stage::Found(path) => ProbeView::IsDir(path@),
            Stage::Readme(dir) => ProbeView::IsFile(readme_of(dir@)),
            Stage::ReadmeInside(dir) => ProbeView::Canonicalize(readme_of(dir@)),
            Stage::IndexFile(dir) => ProbeView::IsFile(index_file_of(dir@)),
            Stage::IndexFileInside(dir) => ProbeView::Canonicalize(index_file_of(dir@)),
        }
    }

    /// How many more questions this resolution can ask, this one included.
    pub closed spec fn probes_left(self) -> nat {
        match self.stage {
            Stage::Plain => 7,
            Stage::WithMd => 6,
            Stage::Found(_) => 5,
            Stage::Readme(_) => 4,
            Stage::ReadmeInside(_) => 3,
            Stage::IndexFile(_) => 2,
            Stage::IndexFileInside(_) => 1,
        }
    }

    /// The question to answer next.
    pub fn probe(&self) -> (probe: Probe)
        ensures
            probe@ == self.pending(),
    {
        match &self.stage {
            Stage::Plain => Probe::Canonicalize(candidate_path(self.root_dir.as_str(), self.request_path.as_str())),
            Stage::WithMd => {
                let mut with_md = self.request_path.clone();
                with_md.append(".md");
                Probe::Canonicalize(candidate_path(self.root_dir.as_str(), with_md.as_str()))
            },
            Stage::Found(path) => Probe::IsDir(path.clone()),
            Stage::Readme(dir) => Probe::IsFile(push_component(dir.as_str(), "README.md")),
            Stage::ReadmeInside(dir) => Probe::Canonicalize(push_component(dir.as_str(), "README.md")),
            Stage::IndexFile(dir) => Probe::IsFile(push_component(dir.as_str(), "index.md")),
            Stage::IndexFileInside(dir) => Probe::Canonicalize(push_component(dir.as_str(), "index.md")),
        }
    }

    /// Take the answer to [`Self::probe`]: on every disk that gives this answer, the resolution
    /// ends where it would have ended before.
    pub fn answer(self, answer: Answer) -> (step: Step)
        requires
            fits(self.pending(), answer),
        ensures
            forall|disk: Disk|
                #[trigger] disk_answers(disk, self.pending(), answer) ==> match step {
                    Step::Next(next) => next.outcome(disk) == self.outcome(disk),
                    Step::Done(resolved) => resolved@ == self.outcome(disk),
                },
            step matches Step::Next(next) ==> next.probes_left() < self.probes_left(),
    {
        let Resolver { root_dir, request_path, index_path, stage } = self;
        match (stage, answer) {
            (Stage::Plain, Answer::Canonical(found)) => {
                match resolve_within(root_dir.as_str(), found) {
                    Some(path) => Step::Next(Resolver { root_dir, request_path, index_path, stage: Stage::Found(path) }),
                    None => Step::Next(Resolver { root_dir, request_path, index_path, stage: Stage::WithMd }),
                }
            },
            (Stage::WithMd, Answer::Canonical(found)) => {
                match resolve_within(root_dir.as_str(), found) {
                    Some(path) => Step::Next(Resolver { root_dir, request_path, index_path, stage: Stage::Found(path) }),
                    None => {
                        if same_text(request_path.as_str(), index_path.as_str()) {
                            Step::Done(Resolved::Index)
                        } else {
                            Step::Done(Resolved::NotFound)
                        }
                    },
                }
            },
            (Stage::Found(path), Answer::Flag(is_dir)) => {
                if is_dir {
                    let relative = relative_url(root_dir.as_str(), path.as_str());
                    if same_text(relative.as_str(), index_path.as_str()) {
                        Step::Done(Resolved::Index)
                    } else {
                        Step::Next(Resolver { root_dir, request_path, index_path, stage: Stage::Readme(path) })
                    }
                } else if is_markdown(path.as_str()) {
                    Step::Done(markdown_or_index(root_dir.as_str(), path, index_path.as_str()))
                } else {
                    Step::Done(Resolved::File(path))
                }
            },
            (Stage::Readme(dir), Answer::Flag(is_file)) => {
                if is_file {
                    Step::Next(Resolver { root_dir, request_path, index_path, stage: Stage::ReadmeInside(dir) })
                } else {
                    Step::Next(Resolver { root_dir, request_path, index_path, stage: Stage::IndexFile(dir) })
                }
            },
            (Stage::ReadmeInside(dir), Answer::Canonical(found)) => {
                match resolve_within(root_dir.as_str(), found) {
                    Some(_) => {
                        let readme = push_component(dir.as_str(), "README.md");
                        Step::Done(markdown_or_index(root_dir.as_str(), readme, index_path.as_str()))
                    },
                    None => Step::Done(Resolved::NotFound),
                }
            },
            (Stage::IndexFile(dir), Answer::Flag(is_file)) => {
                if is_file {
                    Step::Next(Resolver { root_dir, request_path, index_path, stage: Stage::IndexFileInside(dir) })
                } else {
                    Step::Done(Resolved::Directory(dir))
                }
            },
            (Stage::IndexFileInside(dir), Answer::Canonical(found)) => {
                match resolve_within(root_dir.as_str(), found) {
                    Some(_) => {
                        let index_file = push_component(dir.as_str(), "index.md");
                        Step::Done(markdown_or_index(root_dir.as_str(), index_file, index_path.as_str()))
                    },
                    None => Step::Done(Resolved::NotFound),
                }
            },
            _ => {
                // ruled out by `fits`
                Step::Done(Resolved::NotFound)
            },
        }
    }
}

/// Work out what a request path below `root_dir` should be answered with: starts a resolution,
/// whose probes the caller answers from disk.
///
/// `request_path` is expected to be percent-decoded and free of leading and trailing slashes;
/// `index_path` is the served document's path below the root.
pub fn resolve(root_dir: &str, request_path: &str, index_path: &str) -> (resolver: Resolver)
    ensures
        forall|disk: Disk| #[trigger]
            resolver.outcome(disk) == resolution(root_dir@, request_path@, index_path@, disk),
        resolver.probes_left() <= 7,
{
    let stage = if request_path.unicode_len() == 0 {
        Stage::Found(root_dir.to_owned())
    } else {
        Stage::Plain
    };
    Resolver {
        root_dir: root_dir.to_owned(),
        request_path: request_path.to_owned(),
        index_path: index_path.to_owned(),
        stage,
    }
}

/// The path a request path names below `root_dir` (see [`candidate_of`]).
pub fn candidate_path(root_dir: &str, request_path: &str) -> (candidate: String)
    ensures
        candidate@ == candidate_of(root_dir@, request_path@),
{
    let parts = split(request_path, '/');
    let mut candidate = root_dir.to_owned();
    let mut i: usize = 0;
    while i < parts.len()
        invariant
            i <= parts.len(),
            candidate@ == pushed_all(root_dir@, views(parts@).take(i as int)),
        decreases parts.len() - i,
    {
        assert(views(parts@).take(i + 1).drop_last() =~= views(parts@).take(i as int));
        assert(views(parts@).take(i + 1).last() == parts@[i as int]@);
        candidate = push_component(candidate.as_str(), parts[i].as_str());
        i = i + 1;
    }
    assert(views(parts@).take(parts.len() as int) =~= views(parts@));
    candidate
}

/// The canonical form of a candidate path, kept only when it lies inside `root_dir`: a path that
/// does not exist (`None`) or escapes the root (`..`, symlinks out of the tree, ..) resolves to
/// nothing.
pub fn resolve_within(root_dir: &str, canonical: Option<String>) -> (inside: Option<String>)
    ensures
        opt_view(inside) == match opt_view(canonical) {
            Some(path) => if path_starts_with(path, root_dir@) {
                Some(path)
            } else {
                None
            },
            None => None,
        },
{
    match canonical {
        Some(path) => if starts_with(path.as_str(), root_dir) {
            Some(path)
        } else {
            None
        },
        None => None,
    }
}

/// Markdown that happens to be the served document is answered from memory, so that it stays live.
pub fn markdown_or_index(root_dir: &str, path: String, index_path: &str) -> (resolved: Resolved)
    ensures
        resolved@ == markdown_or_index_of(root_dir@, path@, index_path@),
{
    let relative = relative_url(root_dir, path.as_str());
    if same_text(relative.as_str(), index_path) {
        Resolved::Index
    } else {
        Resolved::Markdown(path)
    }
}

/// The path a resolution serves from disk, if it serves one.
pub open spec fn served_path(resolved: Resolution) -> Option<Seq<char>> {
    match resolved {
        Resolution::Markdown(path) => Some(path),
        Resolution::Directory(path) => Some(path),
        Resolution::File(path) => Some(path),
        _ => None,
    }
}

/// Whether `path` is what the disk gives as the canonical form of some path.
pub open spec fn is_canonical_form(path: Seq<char>, disk: Disk) -> bool {
    exists|other: Seq<char>| #[trigger] (disk.canonical)(other) == Some(path)
}

/// Whether serving `path` stays inside `root_dir`: either `path` is itself a canonical path inside
/// the root, or it canonicalizes to a path inside the root.
pub open spec fn reaches_inside(root_dir: Seq<char>, path: Seq<char>, disk: Disk) -> bool {
    (is_canonical_form(path, disk) && path_starts_with(path, root_dir)) || canonically_inside(
        root_dir,
        path,
        disk,
    )
}

proof fn lemma_found_page_inside(root_dir: Seq<char>, index_path: Seq<char>, path: Seq<char>, disk: Disk)
    requires
        is_canonical_form(path, disk),
        path_starts_with(path, root_dir),
    ensures
        served_path(found_page(root_dir, index_path, path, disk)) matches Some(p)
            ==> reaches_inside(root_dir, p, disk),
{
}

/// Nothing outside the root is ever served, whatever the request and whatever the disk holds: a
/// path answered with (a markdown file, a listed directory or a file served as bytes) is either a
/// canonical path inside `root_dir` or a path (an index file) that canonicalizes to one inside it,
/// so neither `..` nor a symlink out of the tree leads outside. The root is canonical, as the
/// server makes it.
pub proof fn lemma_resolution_stays_inside(
    root_dir: Seq<char>,
    request_path: Seq<char>,
    index_path: Seq<char>,
    disk: Disk,
)
    requires
        (disk.canonical)(root_dir) == Some(root_dir),
    ensures
        served_path(resolution(root_dir, request_path, index_path, disk)) matches Some(p)
            ==> reaches_inside(root_dir, p, disk),
{
    lemma_starts_with_itself(root_dir);
    lemma_found_page_inside(root_dir, index_path, root_dir, disk);
    let candidate = candidate_of(root_dir, request_path);
    if let Some(p) = within_of(root_dir, request_path, disk) {
        assert((disk.canonical)(candidate) == Some(p));
        lemma_found_page_inside(root_dir, index_path, p, disk);
    }
    let with_md = candidate_of(root_dir, request_path + ".md"@);
    if let Some(p) = within_of(root_dir, request_path + ".md"@, disk) {
        assert((disk.canonical)(with_md) == Some(p));
        lemma_found_page_inside(root_dir, index_path, p, disk);
    }
}

/// Whether `disk` canonicalizes as a file system does: the canonical form of a path is its own
/// canonical form.
pub open spec fn canonical_is_stable(disk: Disk) -> bool {
    forall|path: Seq<char>| #[trigger]
        (disk.canonical)(path) matches Some(canonical) ==> (disk.canonical)(canonical) == Some(
            canonical,
        )
}

/// On a disk that canonicalizes as a file system does, every path served lies inside the root once
/// canonicalized.
pub proof fn lemma_served_paths_canonicalize_inside(
    root_dir: Seq<char>,
    request_path: Seq<char>,
    index_path: Seq<char>,
    disk: Disk,
)
    requires
        canonical_is_stable(disk),
        (disk.canonical)(root_dir) == Some(root_dir),
    ensures
        served_path(resolution(root_dir, request_path, index_path, disk)) matches Some(p)
            ==> canonically_inside(root_dir, p, disk),
{
    lemma_resolution_stays_inside(root_dir, request_path, index_path, disk);
    if let Some(p) = served_path(resolution(root_dir, request_path, index_path, disk)) {
        if is_canonical_form(p, disk) && path_starts_with(p, root_dir) {
            let other = choose|other: Seq<char>| #[trigger] (disk.canonical)(other) == Some(p);
            assert((disk.canonical)(other) == Some(p));
            assert((disk.canonical)(p) == Some(p));
        }
    }
}

/// A request whose path, as written and with `.md` appended, does not exist or leads out of the
/// root (through `..` or a symlink) is refused: not found, unless it names the served document,
/// which is answered from memory.
pub proof fn lemma_escaping_request_is_refused(
    root_dir: Seq<char>,
    request_path: Seq<char>,
    index_path: Seq<char>,
    disk: Disk,
)
    requires
        request_path.len() > 0,
        within_of(root_dir, request_path, disk) is None,
        within_of(root_dir, request_path + ".md"@, disk) is None,
    ensures
        resolution(root_dir, request_path, index_path, disk) == if request_path == index_path {
            Resolution::Index
        } else {
            Resolution::NotFound
        },
{
}

/// A directory is listed only when it is a directory that is not the served page and has neither
/// a README.md nor an index.md file: a directory with an index file is never listed.
pub proof fn lemma_listing_only_without_index_files(
    root_dir: Seq<char>,
    request_path: Seq<char>,
    index_path: Seq<char>,
    disk: Disk,
)
    ensures
        resolution(root_dir, request_path, index_path, disk) matches Resolution::Directory(dir) ==> {
            &&& (disk.is_dir)(dir)
            &&& relative_url_of(root_dir, dir) != index_path
            &&& !(disk.is_file)(readme_of(dir))
            &&& !(disk.is_file)(index_file_of(dir))
        },
{
}

} // verus!
