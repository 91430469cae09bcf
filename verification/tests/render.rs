use meread::render::{export_page, page_html};

#[test]
fn a_page_wraps_the_body_under_its_breadcrumb() {
    let html = page_html("<p>hi</p>\n", "docs/a<b>.md", "<span>x</span>", false, false);
    assert_eq!(
        html,
        "<!DOCTYPE html>\n<html data-theme=\"dark\">\n<head>\n<meta charset=\"utf-8\">\n<title>docs/a&lt;b&gt;.md</title>\n</head>\n<body>\n<nav><span>x</span></nav>\n<article class=\"markdown-body\">\n<p>hi</p>\n</article>\n</body>\n</html>\n"
    );
}

#[test]
fn the_served_document_carries_the_reload_script() {
    let html = page_html("", "README.md", "", true, true);
    assert!(html.starts_with("<!DOCTYPE html>\n<html data-theme=\"light\">"));
    assert!(html.contains("/~~~meread-reload"));
    assert!(html.ends_with("</script></body>\n</html>\n"));
    assert!(!page_html("", "README.md", "", true, false).contains("WebSocket"));
}

#[test]
fn an_exported_page_has_no_breadcrumb() {
    let html = export_page("<h1>Notes</h1>\n", "notes.md", false);
    assert_eq!(html, page_html("<h1>Notes</h1>\n", "notes.md", "", false, true));
    assert!(html.contains("<title>notes.md</title>"));
    assert!(html.contains("<nav></nav>"));
}
