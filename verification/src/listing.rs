//! Browsable directory listings.
//!
//! A listing is generated *markdown*, not a bespoke html page, so it flows through the same
//! rendering pipeline as a real document and gets the github styling, the in-memory index cache
//! and live reload for free.

use vstd::prelude::*;

use crate::order::{
    as_ints, key_less, key_views, lemma_key_less_facts, lemma_sorted_order_exists,
    lemma_sorted_order_unique, sort_order, sorted_order, SortKey,
};
use crate::path::is_markdown;
use crate::path::is_markdown_path;
use crate::site::{page_title, page_title_of};
use crate::text::{chars_of, push_char, same_text};
use crate::url::{
    decoded_path, encode_path_segment, encoded_segment, lemma_encode_utf8_concat,
    lemma_no_percent_bytes, lemma_unescape_encoded, lemma_unescaped_plain_prefix, unescaped,
};
use vstd::utf8::encode_utf8;

verus! {

/// What one character becomes in html body text or a double-quoted attribute.
pub open spec fn escaped_char(c: char) -> Seq<char> {
    if c == '&' {
        "&amp;"@
    } else if c == '<' {
        "&lt;"@
    } else if c == '>' {
        "&gt;"@
    } else if c == '"' {
        "&quot;"@
    } else if c == '\'' {
        "&#39;"@
    } else {
        seq![c]
    }
}

/// `text` escaped for html body text or a double-quoted attribute.
pub open spec fn escaped(text: Seq<char>) -> Seq<char>
    decreases text.len(),
{
    if text.len() == 0 {
        Seq::<char>::empty()
    } else {
        escaped(text.drop_last()) + escaped_char(text.last())
    }
}

/// Escape text for inclusion in html body text or a double-quoted attribute.
pub fn escape_html(text: &str) -> (html: String)
    ensures
        html@ == escaped(text@),
{
    let n = text.unicode_len();
    let mut html = String::new();
    let mut i: usize = 0;
    while i < n
        invariant
            n == text@.len(),
            i <= n,
            html@ == escaped(text@.take(i as int)),
        decreases n - i,
    {
        let c = text.get_char(i);
        assert(text@.take(i + 1).drop_last() =~= text@.take(i as int));
        if c == '&' {
            html.append("&amp;");
        } else if c == '<' {
            html.append("&lt;");
        } else if c == '>' {
            html.append("&gt;");
        } else if c == '"' {
            html.append("&quot;");
        } else if c == '\'' {
            html.append("&#39;");
        } else {
            push_char(&mut html, c);
        }
        i = i + 1;
    }
    assert(text@.take(n as int) =~= text@);
    html
}

/// What `str::to_lowercase` makes of a text: its Unicode lowercase mapping.
pub uninterp spec fn lowercase(text: Seq<char>) -> Seq<char>;

/// `str::to_lowercase`; its result is named [`lowercase`].
#[verifier::external_body]
fn to_lowercase(text: &str) -> (lower: String)
    ensures
        lower@ == lowercase(text@),
{
    text.to_lowercase()
}

/// A directory entry as read from disk: its name and whether it is a directory.
pub struct DirEntry {
    pub name: String,
    pub is_dir: bool,
}

/// The names and kinds of the entries read.
pub open spec fn dir_entry_views(entries: Seq<DirEntry>) -> Seq<(Seq<char>, bool)> {
    entries.map_values(|entry: DirEntry| (entry.name@, entry.is_dir))
}

/// Names never shown in a listing. `.git` is enormous and never interesting; other dotfiles are
/// listed, since browsing a repo's `.github/` is useful.
pub open spec fn is_skipped(name: Seq<char>) -> bool {
    name == ".git"@
}

/// What an entry shows: directories keep a trailing `/`.
pub open spec fn entry_label(name: Seq<char>, is_dir: bool) -> Seq<char> {
    if is_dir {
        name + "/"@
    } else {
        name
    }
}

/// Where an entry links, absolute from the server root; directories with a trailing slash, so
/// that relative links inside the page they resolve to point at the right directory.
pub open spec fn entry_href(rel_path: Seq<char>, name: Seq<char>, is_dir: bool) -> Seq<char> {
    "/"@ + (if rel_path.len() == 0 {
        Seq::<char>::empty()
    } else {
        rel_path + "/"@
    }) + encoded_segment(name) + (if is_dir {
        "/"@
    } else {
        Seq::<char>::empty()
    })
}

/// Things that render as a page of their own (directories and markdown files), as opposed to
/// things that open as raw bytes.
pub open spec fn is_page(name: Seq<char>, is_dir: bool) -> bool {
    is_dir || is_markdown_path(name)
}

/// The listed entries (label, href, is directory) of one group, pages or files, in the order
/// they were read.
pub open spec fn group_of(rel_path: Seq<char>, entries: Seq<(Seq<char>, bool)>, pages: bool) -> Seq<
    (Seq<char>, Seq<char>, bool),
>
    decreases entries.len(),
{
    if entries.len() == 0 {
        Seq::empty()
    } else {
        let before = group_of(rel_path, entries.drop_last(), pages);
        let (name, is_dir) = entries.last();
        if !is_skipped(name) && is_page(name, is_dir) == pages {
            before.push((entry_label(name, is_dir), entry_href(rel_path, name, is_dir), is_dir))
        } else {
            before
        }
    }
}

/// What a group is sorted by: directories first, then the lowercase label.
pub open spec fn group_keys(group: Seq<(Seq<char>, Seq<char>, bool)>) -> Seq<(bool, Seq<char>)> {
    group.map_values(|entry: (Seq<char>, Seq<char>, bool)| (!entry.2, lowercase(entry.0)))
}

/// A group in listing order.
pub open spec fn in_listing_order(group: Seq<(Seq<char>, Seq<char>, bool)>) -> Seq<
    (Seq<char>, Seq<char>, bool),
> {
    let order = sorted_order(group_keys(group));
    Seq::new(group.len(), |k: int| group[order[k]])
}

/// One entry of a listing: raw html rather than a markdown link, so that `[`, `_` and `*` in
/// file names need no escaping.
pub open spec fn item_line(entry: (Seq<char>, Seq<char>, bool)) -> Seq<char> {
    "<li><a href=\""@ + escaped(entry.1) + "\">"@ + escaped(entry.0) + "</a></li>\n"@
}

/// The lines of all entries.
pub open spec fn item_lines(entries: Seq<(Seq<char>, Seq<char>, bool)>) -> Seq<char>
    decreases entries.len(),
{
    if entries.len() == 0 {
        Seq::<char>::empty()
    } else {
        item_lines(entries.drop_last()) + item_line(entries.last())
    }
}

/// A headed list of entries, or nothing for no entries.
pub open spec fn section_of(heading: Seq<char>, entries: Seq<(Seq<char>, Seq<char>, bool)>) -> Seq<
    char,
> {
    if entries.len() == 0 {
        Seq::<char>::empty()
    } else {
        "\n## "@ + heading + "\n\n<ul>\n"@ + item_lines(entries) + "</ul>\n"@
    }
}

/// The markdown of a listing of `dir`, whose entries were read as `entries`.
pub open spec fn listing_of(dir: Seq<char>, rel_path: Seq<char>, entries: Seq<(Seq<char>, bool)>) -> Seq<
    char,
> {
    let pages = in_listing_order(group_of(rel_path, entries, true));
    let files = in_listing_order(group_of(rel_path, entries, false));
    "# "@ + page_title_of(dir, rel_path) + "/\n"@ + (if pages.len() == 0 && files.len() == 0 {
        "\n*empty directory*\n"@
    } else {
        section_of("Pages"@, pages) + section_of("Files"@, files)
    })
}

/// An entry as it will appear in the listing.
struct Listed {
    /// What to show. Directories keep a trailing `/`.
    label: String,
    /// Where it links, relative to the server root.
    href: String,
    is_dir: bool,
}

spec fn listed_views(group: Seq<Listed>) -> Seq<(Seq<char>, Seq<char>, bool)> {
    group.map_values(|entry: Listed| (entry.label@, entry.href@, entry.is_dir))
}

fn href_of(rel_path: &str, name: &str, is_dir: bool) -> (href: String)
    ensures
        href@ == entry_href(rel_path@, name@, is_dir),
{
    let mut href = String::from_str("/");
    if rel_path.unicode_len() > 0 {
        href.append(rel_path);
        href.append("/");
    }
    href.append(encode_path_segment(name).as_str());
    if is_dir {
        href.append("/");
    }
    href
}

fn group_entries(rel_path: &str, entries: &Vec<DirEntry>, pages: bool) -> (group: Vec<Listed>)
    ensures
        listed_views(group@) == group_of(rel_path@, dir_entry_views(entries@), pages),
{
    let mut group: Vec<Listed> = Vec::new();
    let mut i: usize = 0;
    while i < entries.len()
        invariant
            i <= entries.len(),
            listed_views(group@) == group_of(rel_path@, dir_entry_views(entries@).take(i as int), pages),
        decreases entries.len() - i,
    {
        let ghost seen = dir_entry_views(entries@).take(i + 1);
        assert(seen.drop_last() =~= dir_entry_views(entries@).take(i as int));
        assert(seen.last() == (entries@[i as int].name@, entries@[i as int].is_dir));
        let entry = &entries[i];
        let name = entry.name.as_str();
        proof {
            reveal_strlit(".git");
        }
        let skipped = same_text(name, ".git");
        let page = entry.is_dir || is_markdown(name);
        if !skipped && page == pages {
            let label = if entry.is_dir {
                let mut label = entry.name.clone();
                label.append("/");
                label
            } else {
                entry.name.clone()
            };
            let listed = Listed { label, href: href_of(rel_path, name, entry.is_dir), is_dir: entry.is_dir };
            let ghost before = group@;
            group.push(listed);
            assert(listed_views(group@) =~= listed_views(before).push((listed.label@, listed.href@, listed.is_dir)));
        }
        i = i + 1;
    }
    assert(dir_entry_views(entries@).take(entries.len() as int) =~= dir_entry_views(entries@));
    group
}

/// Appends the section `heading` holding `group`, sorted directories first and then
/// alphabetically ignoring case.
fn push_section(markdown: &mut String, heading: &str, group: &Vec<Listed>)
    ensures
        final(markdown)@ == old(markdown)@ + section_of(heading@, in_listing_order(listed_views(group@))),
{
    let ghost gv = listed_views(group@);
    if group.len() == 0 {
        assert(old(markdown)@ + Seq::<char>::empty() =~= old(markdown)@);
        return;
    }
    let mut keys: Vec<SortKey> = Vec::new();
    let mut i: usize = 0;
    while i < group.len()
        invariant
            gv == listed_views(group@),
            i <= group.len(),
            key_views(keys@) == group_keys(gv).take(i as int),
        decreases group.len() - i,
    {
        let lower = to_lowercase(group[i].label.as_str());
        let key = SortKey { not_dir: !group[i].is_dir, lower: chars_of(lower.as_str()) };
        assert(gv[i as int] == (group@[i as int].label@, group@[i as int].href@, group@[i as int].is_dir));
        assert(group_keys(gv)[i as int] == (key.not_dir, key.lower@));
        let ghost before = keys@;
        keys.push(key);
        assert(key_views(keys@) =~= key_views(before).push((key.not_dir, key.lower@)));
        i = i + 1;
        assert(key_views(keys@) =~= group_keys(gv).take(i as int));
    }
    assert(group_keys(gv).take(group.len() as int) =~= group_keys(gv));
    let order = sort_order(&keys);
    proof {
        lemma_sorted_order_unique(group_keys(gv), as_ints(order@), sorted_order(group_keys(gv)));
    }
    proof {
        assert forall|m: int| 0 <= m < order.len() implies 0 <= #[trigger] order@[m] < group.len() by {
            assert(as_ints(order@)[m] == order@[m] as int);
        }
    }
    let ghost ordered = in_listing_order(gv);
    let ghost start = markdown@;
    markdown.append("\n## ");
    markdown.append(heading);
    markdown.append("\n\n<ul>\n");
    let ghost head = markdown@;
    let mut k: usize = 0;
    while k < order.len()
        invariant
            gv == listed_views(group@),
            order.len() == group.len(),
            ordered == in_listing_order(gv),
            as_ints(order@) == sorted_order(group_keys(gv)),
            forall|m: int| 0 <= m < order.len() ==> 0 <= #[trigger] order@[m] < group.len(),
            k <= order.len(),
            markdown@ == head + item_lines(ordered.take(k as int)),
        decreases order.len() - k,
    {
        let entry = &group[order[k]];
        assert(ordered[k as int] == gv[order@[k as int] as int]);
        assert(ordered.take(k + 1).drop_last() =~= ordered.take(k as int));
        markdown.append("<li><a href=\"");
        markdown.append(escape_html(entry.href.as_str()).as_str());
        markdown.append("\">");
        markdown.append(escape_html(entry.label.as_str()).as_str());
        markdown.append("</a></li>\n");
        k = k + 1;
        assert(markdown@ =~= head + item_lines(ordered.take(k as int)));
    }
    assert(ordered.take(order.len() as int) =~= ordered);
    markdown.append("</ul>\n");
    assert(markdown@ =~= start + section_of(heading@, ordered));
}

/// Generate the markdown for a browsable listing of `dir`, whose entries were read as `entries`.
///
/// `rel_path` is `dir` relative to the server root, with `/` separators and no leading or trailing
/// slash; the empty string means `dir` *is* the root.
pub fn listing_markdown(dir: &str, rel_path: &str, entries: &Vec<DirEntry>) -> (markdown: String)
    ensures
        markdown@ == listing_of(dir@, rel_path@, dir_entry_views(entries@)),
{
    let pages = group_entries(rel_path, entries, true);
    let files = group_entries(rel_path, entries, false);
    let title = page_title(dir, rel_path);
    let mut markdown = String::from_str("# ");
    markdown.append(title.as_str());
    markdown.append("/\n");
    if pages.len() == 0 && files.len() == 0 {
        markdown.append("\n*empty directory*\n");
        return markdown;
    }
    push_section(&mut markdown, "Pages", &pages);
    push_section(&mut markdown, "Files", &files);
    markdown
}

/// Characters html reads as markup, or as the end of a quoted attribute.
pub open spec fn is_markup_char(c: char) -> bool {
    c == '<' || c == '>' || c == '"' || c == '\''
}

/// Escaped text holds no character that html would read as markup or as the end of an
/// attribute, whatever the text.
pub proof fn lemma_escaped_is_inert(text: Seq<char>)
    ensures
        forall|i: int| 0 <= i < escaped(text).len() ==> !is_markup_char(#[trigger] escaped(text)[i]),
    decreases text.len(),
{
    if text.len() > 0 {
        lemma_escaped_is_inert(text.drop_last());
        reveal_strlit("&amp;");
        reveal_strlit("&lt;");
        reveal_strlit("&gt;");
        reveal_strlit("&quot;");
        reveal_strlit("&#39;");
        let head = escaped(text.drop_last());
        let tail = escaped_char(text.last());
        assert forall|i: int| 0 <= i < escaped(text).len() implies !is_markup_char(#[trigger] escaped(text)[i]) by {
            if i < head.len() {
                assert(escaped(text)[i] == head[i]);
            } else {
                assert(escaped(text)[i] == tail[i - head.len()]);
            }
        }
    }
}

/// The request path a listing link stands for: the entry's path below the root, a directory's
/// with its trailing slash.
pub open spec fn entry_request_path(rel_path: Seq<char>, name: Seq<char>, is_dir: bool) -> Seq<char> {
    (if rel_path.len() == 0 {
        Seq::<char>::empty()
    } else {
        rel_path + "/"@
    }) + name + (if is_dir {
        "/"@
    } else {
        Seq::<char>::empty()
    })
}

proof fn lemma_no_percent_concat(a: Seq<char>, b: Seq<char>)
    requires
        !a.contains('%'),
        !b.contains('%'),
    ensures
        !(a + b).contains('%'),
{
    if (a + b).contains('%') {
        let k = choose|k: int| 0 <= k < (a + b).len() && (a + b)[k] == '%';
        if k < a.len() {
            assert(a[k] == '%');
        } else {
            assert(b[k - a.len()] == '%');
        }
    }
}

/// A link in a listing leads back to its entry: past its leading `/`, the server decodes the
/// href into the entry's path below the root, for every entry name, when the listed directory's
/// own path holds no `%` (that path is written into the link as it is).
pub proof fn lemma_listing_link_leads_to_entry(rel_path: Seq<char>, name: Seq<char>, is_dir: bool)
    requires
        !rel_path.contains('%'),
    ensures
        decoded_path(entry_href(rel_path, name, is_dir).drop_first()) == entry_request_path(
            rel_path,
            name,
            is_dir,
        ),
{
    reveal_strlit("/");
    let slash = "/"@;
    assert(!slash.contains('%')) by {
        if slash.contains('%') {
            let k = choose|k: int| 0 <= k < slash.len() && slash[k] == '%';
            assert(slash[0] == '/');
        }
    }
    let before = if rel_path.len() == 0 {
        Seq::<char>::empty()
    } else {
        rel_path + slash
    };
    let after = if is_dir {
        slash
    } else {
        Seq::<char>::empty()
    };
    if rel_path.len() > 0 {
        lemma_no_percent_concat(rel_path, slash);
    } else {
        assert(!before.contains('%'));
    }
    assert(!after.contains('%'));
    let link = before + encoded_segment(name) + after;
    assert(entry_href(rel_path, name, is_dir).drop_first() =~= link);
    lemma_encode_utf8_concat(before, encoded_segment(name) + after);
    lemma_encode_utf8_concat(encoded_segment(name), after);
    lemma_no_percent_bytes(before);
    lemma_no_percent_bytes(after);
    assert(before + encoded_segment(name) + after =~= before + (encoded_segment(name) + after));
    lemma_unescaped_plain_prefix(
        encode_utf8(before),
        encode_utf8(encoded_segment(name)) + encode_utf8(after),
    );
    lemma_unescape_encoded(name, encode_utf8(after));
    lemma_unescaped_plain_prefix(encode_utf8(after), Seq::<u8>::empty());
    assert(encode_utf8(after) + Seq::<u8>::empty() =~= encode_utf8(after));
    assert(unescaped(Seq::<u8>::empty()) =~= Seq::<u8>::empty());
    let target = entry_request_path(rel_path, name, is_dir);
    assert(target =~= before + (name + after));
    lemma_encode_utf8_concat(before, name + after);
    lemma_encode_utf8_concat(name, after);
    assert(unescaped(encode_utf8(link)) =~= encode_utf8(target));
    vstd::utf8::encode_utf8_valid_utf8(target);
    vstd::utf8::encode_utf8_decode_utf8(target);
}

/// A group is listed in order: directories before everything else, and then by the whole
/// lowercase label (`notes-1.md` before `notes-2.md`), so that no entry is listed after one that
/// sorts after it; and every entry of the group is listed, each in its place once.
pub proof fn lemma_listing_is_sorted(group: Seq<(Seq<char>, Seq<char>, bool)>)
    ensures
        ({
            let listed = in_listing_order(group);
            &&& listed.len() == group.len()
            &&& forall|i: int, j: int|
                0 <= i < j < listed.len() ==> !key_less(
                    (!(#[trigger] listed[j]).2, lowercase(listed[j].0)),
                    (!(#[trigger] listed[i]).2, lowercase(listed[i].0)),
                )
            &&& forall|k: int| 0 <= k < group.len() ==> listed.contains(#[trigger] group[k])
        }),
{
    let keys = group_keys(group);
    let order = sorted_order(keys);
    lemma_sorted_order_exists(keys);
    let listed = in_listing_order(group);
    assert forall|i: int, j: int| 0 <= i < j < listed.len() implies !key_less(
        (!(#[trigger] listed[j]).2, lowercase(listed[j].0)),
        (!(#[trigger] listed[i]).2, lowercase(listed[i].0)),
    ) by {
        assert(0 <= order[i] < group.len() && 0 <= order[j] < group.len());
        assert(listed[i] == group[order[i]]);
        assert(listed[j] == group[order[j]]);
        assert(keys[order[i]] == (!group[order[i]].2, lowercase(group[order[i]].0)));
        assert(keys[order[j]] == (!group[order[j]].2, lowercase(group[order[j]].0)));
        lemma_key_less_facts(keys[order[i]], keys[order[j]], keys[order[i]]);
    }
    assert forall|k: int| 0 <= k < group.len() implies listed.contains(#[trigger] group[k]) by {
        assert(order.contains(k));
        let a = choose|a: int| 0 <= a < order.len() && order[a] == k;
        assert(listed[a] == group[k]);
    }
}

} // verus!
