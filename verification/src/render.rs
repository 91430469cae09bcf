//! Pages as they are served and exported: the html that markdown was rendered to, set in the page
//! template with its title, breadcrumb and colour scheme.

use vstd::prelude::*;

use crate::listing::{escape_html, escaped};

verus! {

/// The script that reloads the served document when it changes: the live-reload socket sends the
/// new page, which replaces the old one.
pub open spec fn reload_script() -> Seq<char> {
    "<script>new WebSocket(`ws://${location.host}/~~~meread-reload`).onmessage = (message) => { document.open(); document.write(message.data); document.close(); };</script>"@
}

/// The page template: `body` (rendered markdown) under the breadcrumb, titled with `title`
/// (escaped), in the light or the dark scheme; the served document also carries the reload script.
pub open spec fn page_of(body: Seq<char>, title: Seq<char>, breadcrumb: Seq<char>, light: bool, is_index: bool) -> Seq<char> {
    "<!DOCTYPE html>\n<html data-theme=\""@ + (if light {
        "light"@
    } else {
        "dark"@
    }) + "\">\n<head>\n<meta charset=\"utf-8\">\n<title>"@ + escaped(title)
        + "</title>\n</head>\n<body>\n<nav>"@ + breadcrumb
        + "</nav>\n<article class=\"markdown-body\">\n"@ + body + "</article>\n"@ + (if is_index {
        reload_script()
    } else {
        Seq::<char>::empty()
    }) + "</body>\n</html>\n"@
}

/// A full html page around `body`, the html that markdown was rendered to (see [`page_of`]).
pub fn page_html(body: &str, title: &str, breadcrumb: &str, light: bool, is_index: bool) -> (html: String)
    ensures
        html@ == page_of(body@, title@, breadcrumb@, light, is_index),
{
    let mut html = String::from_str("<!DOCTYPE html>\n<html data-theme=\"");
    if light {
        html.append("light");
    } else {
        html.append("dark");
    }
    html.append("\">\n<head>\n<meta charset=\"utf-8\">\n<title>");
    html.append(escape_html(title).as_str());
    html.append("</title>\n</head>\n<body>\n<nav>");
    html.append(breadcrumb);
    html.append("</nav>\n<article class=\"markdown-body\">\n");
    html.append(body);
    html.append("</article>\n");
    if is_index {
        html.append("<script>new WebSocket(`ws://${location.host}/~~~meread-reload`).onmessage = (message) => { document.open(); document.write(message.data); document.close(); };</script>");
    }
    html.append("</body>\n</html>\n");
    html
}

/// The page an exported document is written as: titled with its file name, with no breadcrumb,
/// since a single exported page has no tree to navigate.
pub fn export_page(body: &str, file_name: &str, light: bool) -> (html: String)
    ensures
        html@ == page_of(body@, file_name@, ""@, light, true),
{
    page_html(body, file_name, "", light, true)
}

} // verus!
