//! What every served page carries: its title, its url and the breadcrumb trail back up the tree.

use vstd::prelude::*;

use crate::listing::{escape_html, escaped};
use crate::path::{file_name, file_name_of};
use crate::text::{join, lemma_join_extend_last, lemma_split_on_nonempty, lemma_views_push, seq_join, split, split_on, views};
use crate::url::{decoded_path, encode_path_segment, encoded_segment, lemma_decode_encode_round_trip};

verus! {

/// What to put in `<title>`: the path below the root, or the root's own name for the root itself
/// (`/` when the root has no name).
pub open spec fn page_title_of(root_dir: Seq<char>, relative: Seq<char>) -> Seq<char> {
    if relative.len() == 0 {
        match file_name_of(root_dir) {
            Some(name) => name,
            None => "/"@,
        }
    } else {
        relative
    }
}

/// Every piece encoded for a url.
pub open spec fn encoded_all(parts: Seq<Seq<char>>) -> Seq<Seq<char>> {
    parts.map_values(|part: Seq<char>| encoded_segment(part))
}

/// A relative path as it has to be written in a url: every segment encoded, `/` kept.
pub open spec fn index_url_of(relative: Seq<char>) -> Seq<char> {
    seq_join(encoded_all(split_on(relative, '/')), seq!['/'])
}

/// The non-empty pieces, in order.
pub open spec fn nonempty_parts(parts: Seq<Seq<char>>) -> Seq<Seq<char>>
    decreases parts.len(),
{
    if parts.len() == 0 {
        Seq::<Seq<char>>::empty()
    } else if parts.last().len() == 0 {
        nonempty_parts(parts.drop_last())
    } else {
        nonempty_parts(parts.drop_last()).push(parts.last())
    }
}

/// The link to the directory made of the first `count` segments.
pub open spec fn ancestor_href(segments: Seq<Seq<char>>, count: int) -> Seq<char> {
    seq_join(encoded_all(segments.take(count)), "/"@)
}

/// The crumb for segment `i`: a link for an ancestor, plain text for the last segment.
pub open spec fn crumb(segments: Seq<Seq<char>>, i: int) -> Seq<char> {
    if i + 1 == segments.len() {
        "<span>"@ + escaped(segments[i]) + "</span>"@
    } else {
        "<a href=\"/"@ + escaped(ancestor_href(segments, i + 1)) + "/\">"@ + escaped(segments[i])
            + "</a>"@
    }
}

/// The crumbs of a page: a link to the root, then one per segment of its path.
pub open spec fn crumbs(root_label: Seq<char>, segments: Seq<Seq<char>>) -> Seq<Seq<char>> {
    Seq::new(
        segments.len() + 1,
        |k: int|
            if k == 0 {
                "<a href=\"/\">"@ + escaped(root_label) + "</a>"@
            } else {
                crumb(segments, k - 1)
            },
    )
}

/// A trail of links back up the tree, e.g. `meread / docs / guide.md`, with every ancestor
/// clickable and the current page plain.
pub open spec fn breadcrumb_of(root_dir: Seq<char>, relative: Seq<char>) -> Seq<char> {
    let root_label = page_title_of(root_dir, Seq::<char>::empty());
    let segments = nonempty_parts(split_on(relative, '/'));
    if segments.len() == 0 {
        "<span>"@ + escaped(root_label) + "</span>"@
    } else {
        seq_join(crumbs(root_label, segments), " / "@)
    }
}

/// What to put in `<title>`: the path below the root, or the root's own name for the root itself.
pub fn page_title(root_dir: &str, relative: &str) -> (title: String)
    ensures
        title@ == page_title_of(root_dir@, relative@),
{
    if relative.unicode_len() == 0 {
        match file_name(root_dir) {
            Some(name) => name,
            None => String::from_str("/"),
        }
    } else {
        relative.to_owned()
    }
}

fn encode_all(parts: &Vec<String>, count: usize) -> (encoded: Vec<String>)
    requires
        count <= parts.len(),
    ensures
        views(encoded@) == encoded_all(views(parts@).take(count as int)),
{
    let mut encoded: Vec<String> = Vec::new();
    let mut i: usize = 0;
    while i < count
        invariant
            count <= parts.len(),
            i <= count,
            views(encoded@) == encoded_all(views(parts@).take(i as int)),
        decreases count - i,
    {
        let ghost before = encoded@;
        encoded.push(encode_path_segment(parts[i].as_str()));
        proof {
            lemma_views_push(before, encoded@.last());
            assert(views(encoded@) =~= encoded_all(views(parts@).take(i + 1)));
        }
        i = i + 1;
    }
    encoded
}

/// A relative path as it has to be written in a url.
pub fn index_url(relative: &str) -> (url: String)
    ensures
        url@ == index_url_of(relative@),
{
    let parts = split(relative, '/');
    let encoded = encode_all(&parts, parts.len());
    assert(views(parts@).take(parts.len() as int) =~= views(parts@));
    let sep = "/";
    proof {
        reveal_strlit("/");
        assert(sep@ =~= seq!['/']);
    }
    join(&encoded, sep)
}

fn nonempty_segments(parts: &Vec<String>) -> (segments: Vec<String>)
    ensures
        views(segments@) == nonempty_parts(views(parts@)),
{
    let mut segments: Vec<String> = Vec::new();
    let mut i: usize = 0;
    while i < parts.len()
        invariant
            i <= parts.len(),
            views(segments@) == nonempty_parts(views(parts@).take(i as int)),
        decreases parts.len() - i,
    {
        assert(views(parts@).take(i + 1).drop_last() =~= views(parts@).take(i as int));
        assert(views(parts@).take(i + 1).last() == parts@[i as int]@);
        if parts[i].unicode_len() > 0 {
            let ghost before = segments@;
            segments.push(parts[i].clone());
            proof {
                lemma_views_push(before, parts@[i as int]);
            }
        }
        i = i + 1;
    }
    assert(views(parts@).take(parts.len() as int) =~= views(parts@));
    segments
}

/// A trail of links back up the tree, e.g. `meread / docs / guide.md`, with every ancestor
/// clickable and the current page plain.
pub fn breadcrumb_html(root_dir: &str, relative: &str) -> (html: String)
    ensures
        html@ == breadcrumb_of(root_dir@, relative@),
{
    let root_label = page_title(root_dir, "");
    proof {
        reveal_strlit("");
        assert(""@ =~= Seq::<char>::empty());
    }
    let segments = nonempty_segments(&split(relative, '/'));
    if segments.len() == 0 {
        let mut html = String::from_str("<span>");
        html.append(escape_html(root_label.as_str()).as_str());
        html.append("</span>");
        return html;
    }
    let ghost segs = views(segments@);
    let mut crumb_texts: Vec<String> = Vec::new();
    let mut first = String::from_str("<a href=\"/\">");
    first.append(escape_html(root_label.as_str()).as_str());
    first.append("</a>");
    crumb_texts.push(first);
    let mut i: usize = 0;
    while i < segments.len()
        invariant
            segs == views(segments@),
            segs.len() > 0,
            root_label@ == page_title_of(root_dir@, Seq::<char>::empty()),
            i <= segments.len(),
            views(crumb_texts@) == crumbs(root_label@, segs).take(i + 1),
        decreases segments.len() - i,
    {
        let segment = segments[i].as_str();
        let mut text;
        if i + 1 == segments.len() {
            text = String::from_str("<span>");
            text.append(escape_html(segment).as_str());
            text.append("</span>");
        } else {
            let href = join(&encode_all(&segments, i + 1), "/");
            text = String::from_str("<a href=\"/");
            text.append(escape_html(href.as_str()).as_str());
            text.append("/\">");
            text.append(escape_html(segment).as_str());
            text.append("</a>");
        }
        assert(text@ == crumb(segs, i as int));
        let ghost before = crumb_texts@;
        crumb_texts.push(text);
        proof {
            lemma_views_push(before, text);
            assert(views(crumb_texts@) =~= crumbs(root_label@, segs).take(i + 2));
        }
        i = i + 1;
    }
    assert(crumbs(root_label@, segs).take(segs.len() + 1int) =~= crumbs(root_label@, segs));
    join(&crumb_texts, " / ")
}

proof fn lemma_encoded_segment_concat(a: Seq<char>, b: Seq<char>)
    ensures
        encoded_segment(a + b) == encoded_segment(a) + encoded_segment(b),
    decreases a.len(),
{
    if a.len() == 0 {
        assert(a + b =~= b);
    } else {
        assert((a + b).drop_first() =~= a.drop_first() + b);
        lemma_encoded_segment_concat(a.drop_first(), b);
        assert(encoded_segment(a + b) =~= encoded_segment(a) + encoded_segment(b));
    }
}

proof fn lemma_encoded_single(c: char)
    ensures
        encoded_segment(seq![c]) == crate::url::encoded_char(c),
{
    assert(seq![c].drop_first() =~= Seq::<char>::empty());
    assert(seq![c][0] == c);
    assert(encoded_segment(Seq::<char>::empty()) =~= Seq::<char>::empty());
    assert(crate::url::encoded_char(c) + Seq::<char>::empty() =~= crate::url::encoded_char(c));
}

/// Encoding a relative path segment by segment is encoding it whole: `/` needs no escape.
pub proof fn lemma_index_url_is_encoded_path(relative: Seq<char>)
    ensures
        index_url_of(relative) == encoded_segment(relative),
    decreases relative.len(),
{
    if relative.len() == 0 {
        assert(split_on(relative, '/') =~= seq![Seq::<char>::empty()]);
        assert(encoded_all(split_on(relative, '/')) =~= seq![Seq::<char>::empty()]);
    } else {
        let init = relative.drop_last();
        let c = relative.last();
        let before = split_on(init, '/');
        lemma_index_url_is_encoded_path(init);
        lemma_split_on_nonempty(init, '/');
        assert(relative =~= init + seq![c]);
        lemma_encoded_segment_concat(init, seq![c]);
        lemma_encoded_single(c);
        if c == '/' {
            let after = before.push(Seq::<char>::empty());
            assert(encoded_all(after) =~= encoded_all(before).push(Seq::<char>::empty()));
            assert(encoded_all(after).drop_last() =~= encoded_all(before));
            assert(seq_join(encoded_all(after), seq!['/']) =~= seq_join(encoded_all(before), seq!['/'])
                + seq!['/']);
        } else {
            let last = before.last();
            let after = before.update(before.len() - 1, last.push(c));
            assert(last.push(c) =~= last + seq![c]);
            lemma_encoded_segment_concat(last, seq![c]);
            assert(encoded_all(after) =~= encoded_all(before).update(
                before.len() - 1,
                encoded_all(before).last() + crate::url::encoded_char(c),
            ));
            lemma_join_extend_last(encoded_all(before), seq!['/'], crate::url::encoded_char(c));
        }
    }
}

/// The url of a page leads back to it: decoding what [`index_url`] wrote gives the relative path
/// back, for every relative path.
pub proof fn lemma_index_url_round_trip(relative: Seq<char>)
    ensures
        decoded_path(index_url_of(relative)) == relative,
{
    lemma_index_url_is_encoded_path(relative);
    lemma_decode_encode_round_trip(relative);
}

/// Encoding a path joined from pieces is joining the encoded pieces: `/` needs no escape.
proof fn lemma_encoded_join(parts: Seq<Seq<char>>)
    ensures
        encoded_segment(seq_join(parts, seq!['/'])) == seq_join(encoded_all(parts), seq!['/']),
    decreases parts.len(),
{
    if parts.len() == 0 {
        assert(encoded_segment(Seq::<char>::empty()) =~= Seq::<char>::empty());
    } else if parts.len() == 1 {
        assert(encoded_all(parts)[0] == encoded_segment(parts[0]));
    } else {
        let init = parts.drop_last();
        lemma_encoded_join(init);
        assert(encoded_all(parts).drop_last() =~= encoded_all(init));
        assert(encoded_all(parts).last() == encoded_segment(parts.last()));
        lemma_encoded_segment_concat(seq_join(init, seq!['/']) + seq!['/'], parts.last());
        lemma_encoded_segment_concat(seq_join(init, seq!['/']), seq!['/']);
        lemma_encoded_single('/');
    }
}

/// The breadcrumb of a page below the root: a link to the root, then a link to every ancestor
/// directory, then the page's own name as plain text, separated by ` / `. The link to the
/// ancestor made of the first `k` segments goes to that ancestor's url from the root, all `k`
/// segments and not its name alone (`/docs/guides/`, not `/guides/`), which decodes back to the
/// ancestor's path (see [`lemma_index_url_round_trip`]).
pub proof fn lemma_breadcrumb_links_ancestors(root_dir: Seq<char>, relative: Seq<char>)
    requires
        nonempty_parts(split_on(relative, '/')).len() > 0,
    ensures
        ({
            let segments = nonempty_parts(split_on(relative, '/'));
            let n = segments.len();
            breadcrumb_of(root_dir, relative) == seq_join(
                Seq::new(
                    n + 1,
                    |k: int|
                        if k == 0 {
                            "<a href=\"/\">"@ + escaped(page_title_of(root_dir, Seq::<char>::empty()))
                                + "</a>"@
                        } else if k == n {
                            "<span>"@ + escaped(segments[k - 1]) + "</span>"@
                        } else {
                            "<a href=\"/"@ + escaped(index_url_of(seq_join(segments.take(k), "/"@)))
                                + "/\">"@ + escaped(segments[k - 1]) + "</a>"@
                        },
                ),
                " / "@,
            )
        }),
{
    reveal_strlit("/");
    assert("/"@ =~= seq!['/']);
    let segments = nonempty_parts(split_on(relative, '/'));
    let n = segments.len();
    let root_label = page_title_of(root_dir, Seq::<char>::empty());
    let expected = Seq::new(
        n + 1,
        |k: int|
            if k == 0 {
                "<a href=\"/\">"@ + escaped(root_label) + "</a>"@
            } else if k == n {
                "<span>"@ + escaped(segments[k - 1]) + "</span>"@
            } else {
                "<a href=\"/"@ + escaped(index_url_of(seq_join(segments.take(k), "/"@))) + "/\">"@
                    + escaped(segments[k - 1]) + "</a>"@
            },
    );
    assert forall|k: int| 0 < k < n implies ancestor_href(segments, k) == index_url_of(
        seq_join(segments.take(k), "/"@),
    ) by {
        lemma_index_url_is_encoded_path(seq_join(segments.take(k), "/"@));
        lemma_encoded_join(segments.take(k));
    }
    assert(crumbs(root_label, segments) =~= expected);
}

} // verus!
