//! What the server does with a request: which route it takes, and what a resolved path is
//! answered with.

use vstd::prelude::*;

use crate::path::{extension_of, relative_url, relative_url_of};
use crate::resolve::Resolved;
use crate::site::{breadcrumb_html, breadcrumb_of, index_url, index_url_of, page_title, page_title_of};
use crate::text::{chars_of, same_text, string_of};
use crate::url::{decode_percent, decoded_path, lemma_decoded_path_slash};

verus! {

/// URL prefix reserved for meread's own urls, so that the rest of the URL space can be served from
/// the document root: a request below `/~~~meread/` is routed as an asset and never looked up in
/// the served tree (see [`route_of`]).
pub const ASSET_PREFIX: &'static str = "~~~meread";

/// The url the live-reload websocket connects to.
pub open spec fn reload_url() -> Seq<char> {
    "/~~~meread-reload"@
}

/// `ASSET_PREFIX` as it appears in a request path.
pub open spec fn asset_url_prefix() -> Seq<char> {
    "/~~~meread/"@
}

/// `text` without its trailing slashes (`trim_end_matches('/')`).
pub open spec fn without_trailing_slashes(text: Seq<char>) -> Seq<char>
    decreases text.len(),
{
    if text.len() > 0 && text.last() == '/' {
        without_trailing_slashes(text.drop_last())
    } else {
        text
    }
}

/// Where a request goes.
pub enum Route {
    /// Anything but `GET` is refused.
    MethodNotAllowed,
    /// The live-reload websocket.
    Reload,
    /// One of meread's own assets, by its path below the asset prefix.
    Asset(String),
    /// A path below the root, percent-decoded and without leading or trailing slashes.
    Page(String),
}

/// The mathematical form of a [`Route`].
pub enum RouteView {
    MethodNotAllowed,
    Reload,
    Asset(Seq<char>),
    Page(Seq<char>),
}

impl View for Route {
    type V = RouteView;

    open spec fn view(&self) -> RouteView {
        match self {
            Route::MethodNotAllowed => RouteView::MethodNotAllowed,
            Route::Reload => RouteView::Reload,
            Route::Asset(path) => RouteView::Asset(path@),
            Route::Page(path) => RouteView::Page(path@),
        }
    }
}

/// The route a request with this method and url takes: `/docs/` and `/docs` name the same thing,
/// and file names may arrive percent-encoded.
pub open spec fn route_of(method: Seq<char>, url: Seq<char>) -> RouteView {
    let prefix = asset_url_prefix();
    if method != "GET"@ {
        RouteView::MethodNotAllowed
    } else if url == reload_url() {
        RouteView::Reload
    } else if prefix.len() <= url.len() && url.take(prefix.len() as int) == prefix {
        RouteView::Asset(url.skip(prefix.len() as int))
    } else {
        RouteView::Page(without_trailing_slashes(decoded_path(url.drop_first())))
    }
}

/// `/docs/` and `/docs` name the same thing: a trailing slash on the url of a page changes
/// nothing about where the request goes, for every page url but `/~~~meread`, which the slash
/// would turn into the asset prefix.
pub proof fn lemma_trailing_slash_names_same_page(url: Seq<char>)
    requires
        url.len() > 0,
        url[0] == '/',
        route_of("GET"@, url) is Page,
        url != "/~~~meread"@,
    ensures
        route_of("GET"@, url + "/"@) == route_of("GET"@, url),
{
    reveal_strlit("/");
    reveal_strlit("/~~~meread/");
    reveal_strlit("/~~~meread-reload");
    reveal_strlit("/~~~meread");
    let slashed = url + "/"@;
    let prefix = asset_url_prefix();
    assert(slashed != reload_url()) by {
        assert(slashed.last() == '/');
        assert(reload_url().last() != '/');
    }
    assert(!(prefix.len() <= slashed.len() && slashed.take(prefix.len() as int) == prefix)) by {
        if prefix.len() <= slashed.len() && slashed.take(prefix.len() as int) == prefix {
            if url.len() >= prefix.len() {
                assert(url.take(prefix.len() as int) =~= slashed.take(prefix.len() as int));
            } else {
                assert(url =~= slashed.take(prefix.len() as int).drop_last());
                assert(url =~= "/~~~meread"@);
            }
        }
    }
    assert(slashed.drop_first() =~= url.drop_first() + "/"@);
    lemma_decoded_path_slash(url.drop_first());
    let decoded = decoded_path(url.drop_first());
    assert((decoded + "/"@).drop_last() =~= decoded);
}

/// Two page urls whose paths decode and trim to the same path below the root take the same
/// route, and so get the same answer: `/docs/` and `/docs`, or `/My%20Notes.md` and
/// `/My Notes.md`, name the same page.
pub proof fn lemma_same_page_same_route(first: Seq<char>, second: Seq<char>)
    requires
        route_of("GET"@, first) is Page,
        route_of("GET"@, second) is Page,
        without_trailing_slashes(decoded_path(first.drop_first())) == without_trailing_slashes(
            decoded_path(second.drop_first()),
        ),
    ensures
        route_of("GET"@, first) == route_of("GET"@, second),
{
}

/// What the live-reload loop hears while a new version of the document waits to be rendered.
pub enum DebounceEvent {
    /// A newer version arrived within the debounce interval.
    Newer(String),
    /// The interval passed without one (or the sender is gone).
    Quiet,
}

/// What the live-reload loop does next.
pub enum DebounceStep {
    /// Keep waiting, with this version pending.
    Wait(String),
    /// Render this version and tell every open page.
    Rebuild(String),
}

/// The mathematical form of a [`DebounceEvent`].
pub enum DebounceEventView {
    Newer(Seq<char>),
    Quiet,
}

/// The mathematical form of a [`DebounceStep`].
pub enum DebounceStepView {
    Wait(Seq<char>),
    Rebuild(Seq<char>),
}

impl View for DebounceEvent {
    type V = DebounceEventView;

    open spec fn view(&self) -> DebounceEventView {
        match self {
            DebounceEvent::Newer(newer) => DebounceEventView::Newer(newer@),
            DebounceEvent::Quiet => DebounceEventView::Quiet,
        }
    }
}

impl View for DebounceStep {
    type V = DebounceStepView;

    open spec fn view(&self) -> DebounceStepView {
        match self {
            DebounceStep::Wait(pending) => DebounceStepView::Wait(pending@),
            DebounceStep::Rebuild(latest) => DebounceStepView::Rebuild(latest@),
        }
    }
}

/// One step of debouncing: a version that arrives within the interval replaces the one pending,
/// and once the interval passes quietly the pending version is rendered.
pub open spec fn debounce_step(pending: Seq<char>, event: DebounceEventView) -> DebounceStepView {
    match event {
        DebounceEventView::Newer(newer) => DebounceStepView::Wait(newer),
        DebounceEventView::Quiet => DebounceStepView::Rebuild(pending),
    }
}

/// The version pending once every version of `burst` has arrived, in order, each within the
/// interval.
pub open spec fn pending_after(pending: Seq<char>, burst: Seq<Seq<char>>) -> Seq<char>
    decreases burst.len(),
{
    if burst.len() == 0 {
        pending
    } else {
        match debounce_step(
            pending_after(pending, burst.drop_last()),
            DebounceEventView::Newer(burst.last()),
        ) {
            DebounceStepView::Wait(next) => next,
            DebounceStepView::Rebuild(latest) => latest,
        }
    }
}

/// Debouncing (see [`debounce_step`]): a burst of edits costs one rebuild.
pub fn debounce(pending: String, event: DebounceEvent) -> (step: DebounceStep)
    ensures
        step@ == debounce_step(pending@, event@),
{
    match event {
        DebounceEvent::Newer(newer) => DebounceStep::Wait(newer),
        DebounceEvent::Quiet => DebounceStep::Rebuild(pending),
    }
}

/// The latest version wins, with one rebuild: while the versions of a burst keep arriving within
/// the interval nothing is rebuilt, and once the interval passes quietly the last version of the
/// burst (or the pending one, for an empty burst) is rendered, the ones before it skipped.
pub proof fn lemma_burst_rebuilds_latest(pending: Seq<char>, burst: Seq<Seq<char>>)
    ensures
        forall|i: int|
            0 <= i < burst.len() ==> #[trigger] debounce_step(
                pending_after(pending, burst.take(i)),
                DebounceEventView::Newer(burst[i]),
            ) is Wait,
        debounce_step(pending_after(pending, burst), DebounceEventView::Quiet)
            == DebounceStepView::Rebuild(
            if burst.len() == 0 {
                pending
            } else {
                burst.last()
            },
        ),
{
}

fn trim_trailing_slashes(text: &str) -> (trimmed: String)
    ensures
        trimmed@ == without_trailing_slashes(text@),
{
    let mut chars = chars_of(text);
    while chars.len() > 0 && chars[chars.len() - 1] == '/'
        invariant
            without_trailing_slashes(chars@) == without_trailing_slashes(text@),
        decreases chars.len(),
    {
        let ghost before = chars@;
        chars.pop();
        assert(chars@ =~= before.drop_last());
    }
    string_of(&chars)
}

/// The route a request with this method and url takes (see [`route_of`]); a `GET` url has to
/// start with `/`, as every request line's path does.
pub fn route(method: &str, url: &str) -> (route: Route)
    requires
        method@ == "GET"@ ==> url@.len() > 0 && url@[0] == '/',
    ensures
        route@ == route_of(method@, url@),
{
    if !same_text(method, "GET") {
        return Route::MethodNotAllowed;
    }
    if same_text(url, "/~~~meread-reload") {
        return Route::Reload;
    }
    let chars = chars_of(url);
    let prefix = chars_of("/~~~meread/");
    let mut has_prefix = prefix.len() <= chars.len();
    let mut i: usize = 0;
    while has_prefix && i < prefix.len()
        invariant
            prefix@ == asset_url_prefix(),
            chars@ == url@,
            has_prefix ==> prefix.len() <= chars.len(),
            i <= prefix.len(),
            has_prefix ==> forall|j: int| 0 <= j < i ==> chars@[j] == prefix@[j],
            !has_prefix ==> !(prefix.len() <= chars.len() && chars@.take(prefix.len() as int) == prefix@),
        decreases prefix.len() - i,
    {
        if chars[i] != prefix[i] {
            assert(chars@.take(prefix.len() as int)[i as int] != prefix@[i as int]);
            has_prefix = false;
        }
        i = i + 1;
    }
    if has_prefix {
        assert(chars@.take(prefix.len() as int) =~= prefix@);
        let mut rest: Vec<char> = Vec::new();
        let mut k: usize = prefix.len();
        while k < chars.len()
            invariant
                prefix.len() <= k <= chars.len(),
                rest@ == chars@.subrange(prefix.len() as int, k as int),
            decreases chars.len() - k,
        {
            rest.push(chars[k]);
            k = k + 1;
            assert(rest@ =~= chars@.subrange(prefix.len() as int, k as int));
        }
        assert(chars@.subrange(prefix.len() as int, chars.len() as int) =~= chars@.skip(prefix.len() as int));
        return Route::Asset(string_of(&rest));
    }
    let mut path: Vec<char> = Vec::new();
    let mut k: usize = 1;
    while k < chars.len()
        invariant
            1 <= k <= chars.len(),
            path@ == chars@.subrange(1, k as int),
        decreases chars.len() - k,
    {
        path.push(chars[k]);
        k = k + 1;
        assert(path@ =~= chars@.subrange(1, k as int));
    }
    assert(chars@.subrange(1, chars.len() as int) =~= url@.drop_first());
    let decoded = decode_percent(string_of(&path).as_str());
    Route::Page(trim_trailing_slashes(decoded.as_str()))
}

/// The MIME type `mime_guess` guesses for a path from its extension.
pub uninterp spec fn guessed_mime(path: Seq<char>) -> Seq<char>;

/// `mime_guess::from_path(path).first_or_octet_stream()`, written out; its result is named
/// [`guessed_mime`]. A path without an extension has no guess, and falls back to
/// `application/octet-stream`.
#[verifier::external_body]
fn guess_mime(path: &str) -> (mime: String)
    ensures
        mime@ == guessed_mime(path@),
        extension_of(path@) is None ==> mime@ == "application/octet-stream"@,
{
    mime_guess::from_path(path).first_or_octet_stream().to_string()
}

/// How a page other than the served document is headed.
pub struct PageHeader {
    /// Its path below the root, as a url path.
    pub relative: String,
    /// What goes in `<title>`.
    pub title: String,
    /// The trail of links back up the tree.
    pub breadcrumb: String,
}

/// The relative url, title and breadcrumb of the page for `path` below `root_dir`.
pub fn page_header(root_dir: &str, path: &str) -> (header: PageHeader)
    ensures
        header.relative@ == relative_url_of(root_dir@, path@),
        header.title@ == page_title_of(root_dir@, header.relative@),
        header.breadcrumb@ == breadcrumb_of(root_dir@, header.relative@),
{
    let relative = relative_url(root_dir, path);
    let title = page_title(root_dir, relative.as_str());
    let breadcrumb = breadcrumb_html(root_dir, relative.as_str());
    PageHeader { relative, title, breadcrumb }
}

/// What a resolved request is answered with.
pub enum Reply {
    /// The served document, from memory.
    Cached,
    /// A markdown file rendered on the fly.
    Markdown { path: String, header: PageHeader },
    /// A browsable listing of a directory.
    Listing { dir: String, header: PageHeader },
    /// Bytes straight from disk, from the path resolution already checked to be inside the root.
    File { path: String, mime: String },
    NotFound,
}

/// What a resolved request is answered with: pages carry their header, files their MIME type.
pub fn reply_for(root_dir: &str, resolved: Resolved) -> (reply: Reply)
    ensures
        match (resolved, reply) {
            (Resolved::Index, Reply::Cached) => true,
            (Resolved::Markdown(p), Reply::Markdown { path, header }) => {
                &&& path@ == p@
                &&& header.relative@ == relative_url_of(root_dir@, p@)
                &&& header.title@ == page_title_of(root_dir@, header.relative@)
                &&& header.breadcrumb@ == breadcrumb_of(root_dir@, header.relative@)
            },
            (Resolved::Directory(d), Reply::Listing { dir, header }) => {
                &&& dir@ == d@
                &&& header.relative@ == relative_url_of(root_dir@, d@)
                &&& header.title@ == page_title_of(root_dir@, header.relative@)
                &&& header.breadcrumb@ == breadcrumb_of(root_dir@, header.relative@)
            },
            (Resolved::File(p), Reply::File { path, mime }) => path@ == p@ && mime@ == guessed_mime(p@),
            (Resolved::NotFound, Reply::NotFound) => true,
            _ => false,
        },
{
    match resolved {
        Resolved::Index => Reply::Cached,
        Resolved::Markdown(path) => {
            let header = page_header(root_dir, path.as_str());
            Reply::Markdown { path, header }
        },
        Resolved::Directory(dir) => {
            let header = page_header(root_dir, dir.as_str());
            Reply::Listing { dir, header }
        },
        Resolved::File(path) => {
            let mime = guess_mime(path.as_str());
            Reply::File { path, mime }
        },
        Resolved::NotFound => Reply::NotFound,
    }
}

/// The address the browser is pointed at: the document's own url, not `/`, which is the root of
/// the tree and may be a different page entirely when --root was widened.
pub fn browser_url(address: &str, index_path: &str) -> (url: String)
    ensures
        url@ == "http://"@ + address@ + "/"@ + index_url_of(index_path@),
{
    let mut url = String::from_str("http://");
    url.append(address);
    url.append("/");
    url.append(index_url(index_path).as_str());
    url
}

} // verus!
