use meread::resolve::Resolved;
use meread::serve::{
    browser_url, debounce, page_header, reply_for, route, DebounceEvent, DebounceStep, Reply, Route,
    ASSET_PREFIX,
};

#[test]
fn only_get_is_served() {
    assert!(matches!(route("POST", "/README.md"), Route::MethodNotAllowed));
    assert!(matches!(route("HEAD", "whatever"), Route::MethodNotAllowed));
}

#[test]
fn the_reload_socket_has_its_own_url() {
    assert!(matches!(route("GET", "/~~~meread-reload"), Route::Reload));
}

#[test]
fn assets_are_served_from_their_prefix() {
    match route("GET", "/~~~meread/styles.css") {
        Route::Asset(path) => assert_eq!(path, "styles.css"),
        _ => panic!("expected an asset"),
    }
    assert_eq!(ASSET_PREFIX, "~~~meread");
}

#[test]
fn page_paths_are_decoded_and_lose_their_slashes() {
    match route("GET", "/docs/My%20Notes/") {
        Route::Page(path) => assert_eq!(path, "docs/My Notes"),
        _ => panic!("expected a page"),
    }
    match route("GET", "/") {
        Route::Page(path) => assert_eq!(path, ""),
        _ => panic!("expected the root page"),
    }
    match route("GET", "/~~~meread") {
        Route::Page(path) => assert_eq!(path, "~~~meread"),
        _ => panic!("expected a page"),
    }
}

#[test]
fn files_carry_their_guessed_mime_type() {
    match reply_for("/srv", Resolved::File("/srv/diagram.png".to_string())) {
        Reply::File { path, mime } => {
            assert_eq!(path, "/srv/diagram.png");
            assert_eq!(mime, "image/png");
        }
        _ => panic!("expected a file"),
    }
    match reply_for("/srv", Resolved::File("/srv/LICENSE".to_string())) {
        Reply::File { mime, .. } => assert_eq!(mime, "application/octet-stream"),
        _ => panic!("expected a file"),
    }
}

#[test]
fn pages_carry_title_and_breadcrumb() {
    match reply_for("/srv/notes", Resolved::Markdown("/srv/notes/docs/guide.md".to_string())) {
        Reply::Markdown { path, header } => {
            assert_eq!(path, "/srv/notes/docs/guide.md");
            assert_eq!(header.relative, "docs/guide.md");
            assert_eq!(header.title, "docs/guide.md");
            assert_eq!(
                header.breadcrumb,
                "<a href=\"/\">notes</a> / <a href=\"/docs/\">docs</a> / <span>guide.md</span>"
            );
        }
        _ => panic!("expected markdown"),
    }
    match reply_for("/srv/notes", Resolved::Directory("/srv/notes".to_string())) {
        Reply::Listing { dir, header } => {
            assert_eq!(dir, "/srv/notes");
            assert_eq!(header.relative, "");
            assert_eq!(header.title, "notes");
            assert_eq!(header.breadcrumb, "<span>notes</span>");
        }
        _ => panic!("expected a listing"),
    }
    assert!(matches!(reply_for("/srv", Resolved::Index), Reply::Cached));
    assert!(matches!(reply_for("/srv", Resolved::NotFound), Reply::NotFound));
}

#[test]
fn page_header_of_a_deep_directory() {
    let header = page_header("/srv", "/srv/a b/c#d");
    assert_eq!(header.relative, "a b/c#d");
    assert_eq!(header.title, "a b/c#d");
    assert_eq!(
        header.breadcrumb,
        "<a href=\"/\">srv</a> / <a href=\"/a%20b/\">a b</a> / <span>c#d</span>"
    );
}

#[test]
fn the_browser_opens_the_document_url() {
    assert_eq!(
        browser_url("127.0.0.1:3000", "docs/My Notes.md"),
        "http://127.0.0.1:3000/docs/My%20Notes.md"
    );
    assert_eq!(browser_url("localhost:8080", ""), "http://localhost:8080/");
}

#[test]
fn a_trailing_slash_names_the_same_page() {
    for url in ["/docs", "/docs/My%20Notes.md", "/100%25", "/a%2", "/"] {
        let slashed = format!("{}/", url);
        match (route("GET", url), route("GET", &slashed)) {
            (Route::Page(plain), Route::Page(with_slash)) => assert_eq!(plain, with_slash),
            _ => panic!("expected two pages for {}", url),
        }
    }
    // the one exception: the slash turns `/~~~meread` into the asset prefix
    assert!(matches!(route("GET", "/~~~meread/"), Route::Asset(_)));
}

#[test]
fn urls_naming_the_same_page_take_the_same_route() {
    for (first, second) in [("/docs/", "/docs"), ("/My%20Notes.md", "/My Notes.md"), ("/a%2fb", "/a/b/")] {
        match (route("GET", first), route("GET", second)) {
            (Route::Page(a), Route::Page(b)) => assert_eq!(a, b),
            _ => panic!("expected two pages for {} and {}", first, second),
        }
    }
}

#[test]
fn a_burst_of_versions_rebuilds_the_latest() {
    let mut pending = "one".to_string();
    for newer in ["two", "three"] {
        match debounce(pending, DebounceEvent::Newer(newer.to_string())) {
            DebounceStep::Wait(next) => pending = next,
            DebounceStep::Rebuild(_) => panic!("rebuilt while versions were still arriving"),
        }
    }
    match debounce(pending, DebounceEvent::Quiet) {
        DebounceStep::Rebuild(latest) => assert_eq!(latest, "three"),
        DebounceStep::Wait(_) => panic!("expected a rebuild once quiet"),
    }
}
