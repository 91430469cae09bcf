use meread::resolve::{resolve, Answer, Probe, Resolved, Step};
use meread::site::breadcrumb_html;

/// A directory tree held in memory, rooted at a scratch path, answering the resolver's probes
/// the way the file system would, symlinks included.
struct TempDir {
    base: String,
    dirs: Vec<String>,
    files: Vec<String>,
    links: Vec<(String, String)>,
}

impl TempDir {
    fn new(name: &str) -> Self {
        let base = format!("/tmp/meread-test-{}", name);
        let mut dir = TempDir { base: base.clone(), dirs: Vec::new(), files: Vec::new(), links: Vec::new() };
        dir.add_dir_and_parents(&base);
        dir
    }

    fn add_dir_and_parents(&mut self, path: &str) {
        let mut current = String::new();
        for part in path.split('/').filter(|p| !p.is_empty()) {
            current.push('/');
            current.push_str(part);
            if !self.dirs.contains(&current) {
                self.dirs.push(current.clone());
            }
        }
    }

    fn dir(&mut self, relative: &str) -> String {
        let path = format!("{}/{}", self.base, relative);
        self.add_dir_and_parents(&path);
        path
    }

    fn file(&mut self, relative: &str, _contents: &str) -> String {
        let path = format!("{}/{}", self.base, relative);
        if let Some((parent, _)) = path.rsplit_once('/') {
            self.add_dir_and_parents(parent);
        }
        self.files.push(path.clone());
        path
    }

    fn canonical(&self) -> String {
        self.base.clone()
    }

    fn holds(&self, path: &str) -> bool {
        path == "/" || self.dirs.iter().any(|d| d == path) || self.files.iter().any(|f| f == path)
    }

    /// A symlink at `relative` pointing at the absolute path `target`.
    fn symlink(&mut self, relative: &str, target: &str) {
        let path = format!("{}/{}", self.base, relative);
        self.links.push((path, target.to_string()));
    }

    fn canonicalize(&self, path: &str) -> Option<String> {
        let mut pending: Vec<String> = path.split('/').rev().map(str::to_string).collect();
        let mut stack: Vec<String> = Vec::new();
        let mut hops = 0;
        while let Some(part) = pending.pop() {
            match part.as_str() {
                "" | "." => {}
                ".." => {
                    stack.pop();
                }
                name => {
                    stack.push(name.to_string());
                    let current = format!("/{}", stack.join("/"));
                    if let Some((_, target)) = self.links.iter().find(|(link, _)| *link == current) {
                        hops += 1;
                        if hops > 40 {
                            return None;
                        }
                        stack.clear();
                        pending.extend(target.split('/').rev().map(str::to_string));
                    }
                }
            }
        }
        let normal = format!("/{}", stack.join("/"));
        if self.holds(&normal) { Some(normal) } else { None }
    }

    fn is_dir(&self, path: &str) -> bool {
        self.canonicalize(path).is_some_and(|p| p == "/" || self.dirs.iter().any(|d| *d == p))
    }

    fn is_file(&self, path: &str) -> bool {
        self.canonicalize(path).is_some_and(|p| self.files.iter().any(|f| *f == p))
    }

    fn resolve(&self, root: &str, request_path: &str, index_path: &str) -> Resolved {
        let mut resolver = resolve(root, request_path, index_path);
        loop {
            let answer = match resolver.probe() {
                Probe::Canonicalize(path) => Answer::Canonical(self.canonicalize(&path)),
                Probe::IsDir(path) => Answer::Flag(self.is_dir(&path)),
                Probe::IsFile(path) => Answer::Flag(self.is_file(&path)),
            };
            match resolver.answer(answer) {
                Step::Next(next) => resolver = next,
                Step::Done(resolved) => return resolved,
            }
        }
    }
}

fn join(root: &str, relative: &str) -> String {
    format!("{}/{}", root, relative)
}

fn assert_markdown(resolved: &Resolved, expected: &str) {
    match resolved {
        Resolved::Markdown(path) => assert_eq!(path, expected),
        _ => panic!("expected markdown at {}", expected),
    }
}

#[test]
fn empty_path_and_index_path_hit_the_cached_document() {
    let mut dir = TempDir::new("resolve_index");
    dir.file("README.md", "");

    let root = dir.canonical();

    assert!(matches!(dir.resolve(&root, "", "README.md"), Resolved::Index));
    assert!(matches!(dir.resolve(&root, "README.md", "README.md"), Resolved::Index));
}

#[test]
fn directory_without_index_file_becomes_a_listing() {
    let mut dir = TempDir::new("resolve_listing");
    dir.dir("notes");
    dir.file("notes/ideas.md", "");

    let root = dir.canonical();

    match dir.resolve(&root, "notes", "") {
        Resolved::Directory(path) => assert_eq!(path, join(&root, "notes")),
        _ => panic!("expected a listing"),
    }
}

#[test]
fn directory_with_index_file_renders_it() {
    let mut dir = TempDir::new("resolve_dir_index");
    dir.file("docs/index.md", "");

    let root = dir.canonical();

    assert_markdown(&dir.resolve(&root, "docs", ""), &join(&root, "docs/index.md"));
}

#[test]
fn extensionless_links_fall_back_to_md() {
    let mut dir = TempDir::new("resolve_extensionless");
    dir.file("docs/guide.md", "");

    let root = dir.canonical();

    assert_markdown(&dir.resolve(&root, "docs/guide", ""), &join(&root, "docs/guide.md"));
}

#[test]
fn non_markdown_files_are_served_as_bytes() {
    let mut dir = TempDir::new("resolve_file");
    dir.file("diagram.png", "");

    let root = dir.canonical();

    match dir.resolve(&root, "diagram.png", "") {
        Resolved::File(path) => assert_eq!(path, join(&root, "diagram.png")),
        _ => panic!("expected a file"),
    }
}

#[test]
fn paths_escaping_the_root_are_rejected() {
    let mut dir = TempDir::new("resolve_escape");
    dir.file("inside/README.md", "");
    dir.file("outside.md", "");

    let root = join(&dir.canonical(), "inside");

    assert!(matches!(dir.resolve(&root, "../outside.md", ""), Resolved::NotFound));
    assert!(matches!(dir.resolve(&root, "nope.md", ""), Resolved::NotFound));
}

#[test]
fn root_url_browses_the_root_when_the_document_lives_deeper() {
    let mut dir = TempDir::new("resolve_wider_root");
    dir.file("archive/deep.md", "");

    let root = dir.canonical();

    // `meread archive/deep.md --root .`: `/` is the root listing, not the document
    match dir.resolve(&root, "", "archive/deep.md") {
        Resolved::Directory(path) => assert_eq!(path, root),
        _ => panic!("expected the root listing"),
    }
    assert!(matches!(
        dir.resolve(&root, "archive/deep.md", "archive/deep.md"),
        Resolved::Index
    ));
}

#[test]
fn a_browsed_directory_wins_over_its_readme() {
    let mut dir = TempDir::new("resolve_list_flag");
    dir.file("README.md", "");

    let root = dir.canonical();

    // `meread . --list`: the listing is the served page, the README a page below it
    assert!(matches!(dir.resolve(&root, "", ""), Resolved::Index));
    assert_markdown(&dir.resolve(&root, "README.md", ""), &join(&root, "README.md"));
}

#[test]
fn a_document_never_written_to_disk_is_still_served() {
    let dir = TempDir::new("resolve_unsaved");
    let root = dir.canonical();

    // the nvim plugin previews the buffer, which may not exist as a file yet
    assert!(matches!(dir.resolve(&root, "unsaved.md", "unsaved.md"), Resolved::Index));
}

#[test]
fn breadcrumb_links_every_ancestor() {
    let dir = TempDir::new("breadcrumb");
    let root = dir.canonical();
    let root_label = root.rsplit('/').next().unwrap().to_string();

    assert_eq!(breadcrumb_html(&root, ""), format!("<span>{}</span>", root_label));
    assert_eq!(
        breadcrumb_html(&root, "docs/My Notes.md"),
        format!(
            "<a href=\"/\">{}</a> / <a href=\"/docs/\">docs</a> / <span>My Notes.md</span>",
            root_label
        )
    );
}

#[test]
fn readme_is_preferred_over_index_md() {
    let mut dir = TempDir::new("resolve_both_indexes");
    dir.file("docs/README.md", "");
    dir.file("docs/index.md", "");

    let root = dir.canonical();

    assert_markdown(&dir.resolve(&root, "docs", ""), &join(&root, "docs/README.md"));
}

#[test]
fn a_directory_index_that_is_the_served_document_is_answered_from_memory() {
    let mut dir = TempDir::new("resolve_dir_readme_index");
    dir.file("docs/README.md", "");

    let root = dir.canonical();

    assert!(matches!(dir.resolve(&root, "docs", "docs/README.md"), Resolved::Index));
}

#[test]
fn markdown_extension_is_matched_ignoring_case() {
    let mut dir = TempDir::new("resolve_upper_md");
    dir.file("NOTES.MD", "");
    dir.file("long.Markdown", "");

    let root = dir.canonical();

    assert_markdown(&dir.resolve(&root, "NOTES.MD", ""), &join(&root, "NOTES.MD"));
    assert_markdown(&dir.resolve(&root, "long.Markdown", ""), &join(&root, "long.Markdown"));
}

#[test]
fn a_hidden_markdown_file_is_markdown_but_a_bare_dot_md_is_not() {
    let mut dir = TempDir::new("resolve_dotfiles");
    dir.file(".hidden.md", "");
    dir.file(".md", "");

    let root = dir.canonical();

    assert_markdown(&dir.resolve(&root, ".hidden.md", ""), &join(&root, ".hidden.md"));
    assert!(matches!(dir.resolve(&root, ".md", ""), Resolved::File(_)));
}

#[test]
fn the_resolver_asks_at_most_five_questions() {
    let dir = TempDir::new("resolve_probe_count");
    let root = dir.canonical();

    let mut resolver = resolve(&root, "missing", "");
    let mut asked = 0;
    loop {
        asked += 1;
        let answer = match resolver.probe() {
            Probe::Canonicalize(path) => Answer::Canonical(dir.canonicalize(&path)),
            Probe::IsDir(path) => Answer::Flag(dir.is_dir(&path)),
            Probe::IsFile(path) => Answer::Flag(dir.is_file(&path)),
        };
        match resolver.answer(answer) {
            Step::Next(next) => resolver = next,
            Step::Done(resolved) => {
                assert!(matches!(resolved, Resolved::NotFound));
                break;
            }
        }
    }
    assert_eq!(asked, 2);
}

#[test]
fn the_first_probe_asks_for_the_request_below_the_root() {
    let resolver = resolve("/srv/docs", "a/b c.md", "");
    match resolver.probe() {
        Probe::Canonicalize(path) => assert_eq!(path, "/srv/docs/a/b c.md"),
        _ => panic!("expected a canonicalize probe"),
    }
}

#[test]
fn an_index_file_linking_out_of_the_root_is_not_served() {
    let mut dir = TempDir::new("resolve_readme_escape");
    dir.dir("inside");
    let outside = dir.file("outside.md", "");
    dir.symlink("inside/README.md", &outside);

    let root = join(&dir.canonical(), "inside");

    // the directory has a README, so it is not listed; the README leads out of the tree, so it is
    // not served either
    assert!(matches!(dir.resolve(&root, "", "zzz"), Resolved::NotFound));
    // and a request for it by name finds nothing inside the root
    assert!(matches!(dir.resolve(&root, "README.md", "zzz"), Resolved::NotFound));
}

#[test]
fn an_escaping_readme_is_not_passed_over_for_index_md() {
    let mut dir = TempDir::new("resolve_readme_escape_index");
    dir.dir("inside");
    let outside = dir.file("outside.md", "");
    dir.symlink("inside/README.md", &outside);
    dir.file("inside/index.md", "");

    let root = join(&dir.canonical(), "inside");

    assert!(matches!(dir.resolve(&root, "", "zzz"), Resolved::NotFound));
    assert_markdown(&dir.resolve(&root, "index.md", "zzz"), &join(&root, "index.md"));
}

#[test]
fn an_escaping_index_md_is_not_listed() {
    let mut dir = TempDir::new("resolve_index_escape");
    dir.dir("inside/docs");
    let outside = dir.file("outside.md", "");
    dir.symlink("inside/docs/index.md", &outside);

    let root = join(&dir.canonical(), "inside");

    assert!(matches!(dir.resolve(&root, "docs", ""), Resolved::NotFound));
}

#[test]
fn an_index_file_linking_inside_the_root_is_served() {
    let mut dir = TempDir::new("resolve_readme_inside_link");
    let intro = dir.file("docs/intro.md", "");
    dir.symlink("README.md", &intro);

    let root = dir.canonical();

    assert_markdown(&dir.resolve(&root, "", "zzz"), &join(&root, "README.md"));
}
