use meread::path::{file_name, is_markdown, parent, starts_with};
use meread::preview::{buffer_text, preview_file_name, preview_root};
use meread::relative_url;
use meread::target::{
    index_file_candidates, plan_serve, target_for, triggers_rebuild, FsEvent, ServeError, Target,
};

#[test]
fn a_file_is_a_document() {
    match target_for("/srv/a.md", false, false, false, false) {
        Target::Document(path) => assert_eq!(path, "/srv/a.md"),
        _ => panic!("expected a document"),
    }
}

#[test]
fn a_directory_renders_its_readme_then_its_index() {
    let (readme, index) = index_file_candidates("/srv/docs");
    assert_eq!(readme, "/srv/docs/README.md");
    assert_eq!(index, "/srv/docs/index.md");

    match target_for("/srv/docs", true, false, true, true) {
        Target::Document(path) => assert_eq!(path, "/srv/docs/README.md"),
        _ => panic!("expected the readme"),
    }
    match target_for("/srv/docs", true, false, false, true) {
        Target::Document(path) => assert_eq!(path, "/srv/docs/index.md"),
        _ => panic!("expected the index"),
    }
    match target_for("/srv/docs", true, false, false, false) {
        Target::Directory(path) => assert_eq!(path, "/srv/docs"),
        _ => panic!("expected a listing"),
    }
}

#[test]
fn list_browses_even_with_a_readme() {
    let target = target_for("/srv/docs", true, true, true, true);
    assert!(matches!(target, Target::Directory(_)));
    assert_eq!(target.path(), "/srv/docs");
}

#[test]
fn a_document_is_served_from_its_own_directory() {
    let plan = plan_serve(&Target::Document("/srv/docs/guide.md".to_string()), None).ok().unwrap();
    assert_eq!(plan.root_dir, "/srv/docs");
    assert_eq!(plan.index_path, "guide.md");
}

#[test]
fn a_wider_root_serves_the_document_deeper_down() {
    let plan = plan_serve(
        &Target::Document("/srv/archive/deep.md".to_string()),
        Some("/srv".to_string()),
    )
    .ok()
    .unwrap();
    assert_eq!(plan.root_dir, "/srv");
    assert_eq!(plan.index_path, "archive/deep.md");
}

#[test]
fn a_browsed_directory_is_its_own_root() {
    let plan = plan_serve(&Target::Directory("/srv/notes".to_string()), None).ok().unwrap();
    assert_eq!(plan.root_dir, "/srv/notes");
    assert_eq!(plan.index_path, "");
}

#[test]
fn a_target_outside_the_root_is_refused() {
    let refused = plan_serve(&Target::Document("/srv/a.md".to_string()), Some("/home".to_string()));
    assert!(matches!(refused, Err(ServeError::OutsideRoot)));
    let refused = plan_serve(&Target::Document("/srvx/a.md".to_string()), Some("/srv".to_string()));
    assert!(matches!(refused, Err(ServeError::OutsideRoot)));
}

#[test]
fn the_file_system_root_has_no_parent() {
    let refused = plan_serve(&Target::Document("/".to_string()), None);
    assert!(matches!(refused, Err(ServeError::NoParent)));
}

fn event(relevant: bool, paths: &[&str]) -> FsEvent {
    FsEvent { relevant, paths: paths.iter().map(|p| p.to_string()).collect() }
}

#[test]
fn a_document_rebuilds_only_for_its_own_file() {
    let target = Target::Document("/srv/a.md".to_string());
    assert!(triggers_rebuild(&target, &vec![event(true, &["/srv/a.md"])]));
    assert!(triggers_rebuild(&target, &vec![event(true, &["/srv//a.md/"])]));
    assert!(!triggers_rebuild(&target, &vec![event(true, &["/srv/b.md"])]));
    assert!(!triggers_rebuild(&target, &vec![event(false, &["/srv/a.md"])]));
    assert!(!triggers_rebuild(&target, &Vec::new()));
}

#[test]
fn a_listing_rebuilds_for_anything() {
    let target = Target::Directory("/srv".to_string());
    assert!(triggers_rebuild(&target, &vec![event(false, &[]), event(true, &["/srv/x/y.png"])]));
    assert!(!triggers_rebuild(&target, &vec![event(false, &["/srv/x"])]));
}

#[test]
fn paths_follow_the_component_rules() {
    assert_eq!(relative_url("/srv", "/srv/docs/a.md"), "docs/a.md");
    assert_eq!(relative_url("/srv", "/srv"), "");
    assert_eq!(relative_url("/srv/", "/srv//docs/./a.md/"), "docs/a.md");
    assert_eq!(relative_url("/srv", "/other/a.md"), "//other/a.md");
    assert!(starts_with("/srv/docs", "/srv"));
    assert!(!starts_with("/srvx", "/srv"));
    assert_eq!(file_name("/srv/docs/a.md"), Some("a.md".to_string()));
    assert_eq!(file_name("/"), None);
    assert_eq!(file_name("/srv/.."), None);
    assert_eq!(parent("/srv/docs/a.md"), Some("/srv/docs".to_string()));
    assert_eq!(parent("/srv"), Some("/".to_string()));
    assert_eq!(parent("/"), None);
    assert_eq!(parent("a.md"), Some("".to_string()));
    assert!(is_markdown("/srv/x.md"));
    assert!(is_markdown("notes.MarkDown"));
    assert!(!is_markdown("/srv/x.md.png"));
    assert!(!is_markdown("/srv/.md"));
    assert!(!is_markdown("/srv/md"));
}

#[test]
fn the_preview_serves_from_the_buffer_directory() {
    assert_eq!(preview_root(Some("/home/me/notes".to_string()), true, Some("/cwd".to_string())), "/home/me/notes");
    assert_eq!(preview_root(Some("/gone".to_string()), false, Some("/cwd".to_string())), "/cwd");
    assert_eq!(preview_root(None, false, None), ".");
    assert_eq!(preview_file_name("/home/me/notes", Some("/home/me/notes/todo.md".to_string())), "todo.md");
    assert_eq!(preview_file_name("/home/me/notes", None), "");
    assert_eq!(
        buffer_text(&vec!["# title".to_string(), "".to_string(), "text".to_string()]),
        "# title\n\ntext"
    );
}
