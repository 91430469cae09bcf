//! Unix paths held as text, with the component model of `std::path::Path`: a leading `/` is the
//! root, a leading `.` is kept, repeated separators, inner `.` and trailing slashes fall away.

use vstd::prelude::*;

use crate::text::{chars_of, join, lemma_views_push, push_char, same_text, seq_join, split, split_on, views};

verus! {

/// The component that stands for the root directory.
pub open spec fn root_component() -> Seq<char> {
    seq!['/']
}

/// The component that stands for the current directory.
pub open spec fn cur_component() -> Seq<char> {
    seq!['.']
}

/// The component that stands for the parent directory.
pub open spec fn parent_component() -> Seq<char> {
    seq!['.', '.']
}

/// The component a path starts with before its names: the root for an absolute path, `.` for a
/// path that starts with `./` (or is `.`), nothing otherwise.
pub open spec fn leading_component(path: Seq<char>) -> Seq<Seq<char>> {
    if path.len() > 0 && path[0] == '/' {
        seq![root_component()]
    } else if path == cur_component() || (path.len() >= 2 && path[0] == '.' && path[1] == '/') {
        seq![cur_component()]
    } else {
        Seq::<Seq<char>>::empty()
    }
}

/// The pieces between separators that name something: empty pieces and `.` fall away.
pub open spec fn named_parts(parts: Seq<Seq<char>>) -> Seq<Seq<char>>
    decreases parts.len(),
{
    if parts.len() == 0 {
        Seq::<Seq<char>>::empty()
    } else {
        let before = named_parts(parts.drop_last());
        if parts.last().len() == 0 || parts.last() == cur_component() {
            before
        } else {
            before.push(parts.last())
        }
    }
}

/// The components of `path`, as `Path::components` yields them.
pub open spec fn path_components(path: Seq<char>) -> Seq<Seq<char>> {
    leading_component(path) + named_parts(split_on(path, '/'))
}

/// Whether the components of `base` are the first components of `path` (`Path::starts_with`).
pub open spec fn path_starts_with(path: Seq<char>, base: Seq<char>) -> bool {
    let p = path_components(path);
    let b = path_components(base);
    b.len() <= p.len() && p.take(b.len() as int) == b
}

/// `path`'s location below `root` as a url path: its components past the root's, joined with `/`;
/// all of `path`'s components when it does not lie below `root`.
pub open spec fn relative_url_of(root: Seq<char>, path: Seq<char>) -> Seq<char> {
    let comps = path_components(path);
    if path_starts_with(path, root) {
        seq_join(comps.skip(path_components(root).len() as int), seq!['/'])
    } else {
        seq_join(comps, seq!['/'])
    }
}

/// A component that names an entry (not the root, `.` or `..`).
pub open spec fn is_name_component(component: Seq<char>) -> bool {
    component != root_component() && component != cur_component() && component
        != parent_component()
}

/// The final component of `path` when it names an entry (`Path::file_name`).
pub open spec fn file_name_of(path: Seq<char>) -> Option<Seq<char>> {
    let comps = path_components(path);
    if comps.len() > 0 && is_name_component(comps.last()) {
        Some(comps.last())
    } else {
        None
    }
}

/// Components written back out as a path.
pub open spec fn rendered(comps: Seq<Seq<char>>) -> Seq<char> {
    if comps.len() > 0 && comps[0] == root_component() {
        root_component() + seq_join(comps.drop_first(), seq!['/'])
    } else {
        seq_join(comps, seq!['/'])
    }
}

/// The path without its final component (`Path::parent`), written in normal form; nothing for the
/// root and for the empty path.
pub open spec fn parent_of(path: Seq<char>) -> Option<Seq<char>> {
    let comps = path_components(path);
    if comps.len() == 0 || comps.last() == root_component() {
        None
    } else {
        Some(rendered(comps.drop_last()))
    }
}

/// `buf` with `component` appended as `PathBuf::push` appends it: an absolute component replaces
/// the path, otherwise a separator is put in between unless `buf` is empty or already ends in one.
pub open spec fn pushed(buf: Seq<char>, component: Seq<char>) -> Seq<char> {
    if component.len() > 0 && component[0] == '/' {
        component
    } else if buf.len() > 0 && buf.last() != '/' {
        buf + seq!['/'] + component
    } else {
        buf + component
    }
}

/// `buf` with every piece of `parts` pushed in turn.
pub open spec fn pushed_all(buf: Seq<char>, parts: Seq<Seq<char>>) -> Seq<char>
    decreases parts.len(),
{
    if parts.len() == 0 {
        buf
    } else {
        pushed(pushed_all(buf, parts.drop_last()), parts.last())
    }
}

/// The position of the last `c` in `text`, or -1 when there is none.
pub open spec fn last_index_of(text: Seq<char>, c: char) -> int
    decreases text.len(),
{
    if text.len() == 0 {
        -1
    } else if text.last() == c {
        text.len() - 1
    } else {
        last_index_of(text.drop_last(), c)
    }
}

pub proof fn lemma_last_index_of(text: Seq<char>, c: char)
    ensures
        -1 <= last_index_of(text, c) < text.len(),
        last_index_of(text, c) >= 0 ==> text[last_index_of(text, c)] == c,
    decreases text.len(),
{
    if text.len() > 0 && text.last() != c {
        lemma_last_index_of(text.drop_last(), c);
    }
}

/// The extension of a file name (`Path::extension`): what follows its last `.`, unless that dot
/// is the first character or there is none.
pub open spec fn name_extension(name: Seq<char>) -> Option<Seq<char>> {
    let dot = last_index_of(name, '.');
    if name == parent_component() || dot <= 0 {
        None
    } else {
        Some(name.skip(dot + 1))
    }
}

/// The extension of `path`'s file name.
pub open spec fn extension_of(path: Seq<char>) -> Option<Seq<char>> {
    match file_name_of(path) {
        Some(name) => name_extension(name),
        None => None,
    }
}

/// The code of `c` with ascii upper case folded to lower case.
pub open spec fn ascii_folded(c: char) -> u32 {
    if 'A' <= c <= 'Z' {
        (c as u32 + 32) as u32
    } else {
        c as u32
    }
}

/// Whether `a` and `b` are equal ignoring ascii case (`eq_ignore_ascii_case`).
pub open spec fn eq_ignoring_ascii_case(a: Seq<char>, b: Seq<char>) -> bool {
    a.len() == b.len() && forall|i: int| 0 <= i < a.len() ==> ascii_folded(a[i]) == ascii_folded(b[i])
}

/// Whether `path` names a markdown file: its extension is `md` or `markdown`, in any ascii case.
pub open spec fn is_markdown_path(path: Seq<char>) -> bool {
    match extension_of(path) {
        Some(ext) => eq_ignoring_ascii_case(ext, seq!['m', 'd']) || eq_ignoring_ascii_case(
            ext,
            seq!['m', 'a', 'r', 'k', 'd', 'o', 'w', 'n'],
        ),
        None => false,
    }
}

fn named_parts_of(parts: &Vec<String>) -> (named: Vec<String>)
    ensures
        views(named@) == named_parts(views(parts@)),
{
    let mut named: Vec<String> = Vec::new();
    let mut i: usize = 0;
    proof {
        reveal_strlit(".");
        assert("."@ =~= cur_component());
    }
    while i < parts.len()
        invariant
            i <= parts.len(),
            views(named@) == named_parts(views(parts@).take(i as int)),
            "."@ == cur_component(),
        decreases parts.len() - i,
    {
        let ghost before = views(parts@).take(i as int);
        let ghost last = parts@[i as int]@;
        assert(views(parts@).take(i + 1).drop_last() =~= before);
        assert(views(parts@).take(i + 1).last() == last);
        let part = &parts[i];
        let skip = part.unicode_len() == 0 || same_text(part.as_str(), ".");
        assert(skip == (last.len() == 0 || last == cur_component()));
        if !skip {
            let ghost old_named = named@;
            named.push(part.clone());
            proof {
                lemma_views_push(old_named, parts@[i as int]);
            }
        }
        i = i + 1;
    }
    assert(views(parts@).take(parts.len() as int) =~= views(parts@));
    named
}

/// The components of `path`, as `Path::components` yields them (see [`path_components`]).
pub fn components(path: &str) -> (comps: Vec<String>)
    ensures
        views(comps@) == path_components(path@),
{
    let chars = chars_of(path);
    let mut comps: Vec<String> = Vec::new();
    if chars.len() > 0 && chars[0] == '/' {
        comps.push(String::from_str("/"));
        proof {
            reveal_strlit("/");
            assert("/"@ =~= root_component());
        }
    } else if (chars.len() == 1 && chars[0] == '.') || (chars.len() >= 2 && chars[0] == '.'
        && chars[1] == '/') {
        comps.push(String::from_str("."));
        proof {
            reveal_strlit(".");
            assert("."@ =~= cur_component());
        }
        assert(chars.len() == 1 ==> chars@ =~= cur_component());
    } else {
        assert(chars@ != cur_component());
    }
    assert(views(comps@) =~= leading_component(path@));
    let parts = split(path, '/');
    let mut named = named_parts_of(&parts);
    let ghost lead = views(comps@);
    comps.append(&mut named);
    assert(views(comps@) =~= lead + named_parts(split_on(path@, '/')));
    comps
}

/// `buf` with `component` appended as `PathBuf::push` appends it (see [`pushed`]).
pub fn push_component(buf: &str, component: &str) -> (joined: String)
    ensures
        joined@ == pushed(buf@, component@),
{
    let buf_chars = chars_of(buf);
    let comp_chars = chars_of(component);
    if comp_chars.len() > 0 && comp_chars[0] == '/' {
        return component.to_owned();
    }
    let mut joined = buf.to_owned();
    if buf_chars.len() > 0 && buf_chars[buf_chars.len() - 1] != '/' {
        push_char(&mut joined, '/');
    }
    joined.append(component);
    joined
}

/// Whether the components of `base` are the first components of `path` (`Path::starts_with`).
pub fn starts_with(path: &str, base: &str) -> (inside: bool)
    ensures
        inside == path_starts_with(path@, base@),
{
    let p = components(path);
    let b = components(base);
    if b.len() > p.len() {
        return false;
    }
    let mut i: usize = 0;
    while i < b.len()
        invariant
            b.len() <= p.len(),
            i <= b.len(),
            forall|j: int| 0 <= j < i ==> views(p@)[j] == views(b@)[j],
            views(p@).len() == p.len(),
            views(b@).len() == b.len(),
            views(p@) == path_components(path@),
            views(b@) == path_components(base@),
        decreases b.len() - i,
    {
        assert(views(p@)[i as int] == p@[i as int]@);
        assert(views(b@)[i as int] == b@[i as int]@);
        if !same_text(p[i].as_str(), b[i].as_str()) {
            assert(views(p@).take(b.len() as int)[i as int] != views(b@)[i as int]);
            assert(views(p@).take(b.len() as int) != views(b@));
            return false;
        }
        i = i + 1;
    }
    assert(views(p@).take(b.len() as int) =~= views(b@));
    true
}

/// `path`'s location below `root_dir` as a url path: `/` separators, no leading or trailing slash,
/// empty when `path` *is* the root.
pub fn relative_url(root_dir: &str, path: &str) -> (relative: String)
    ensures
        relative@ == relative_url_of(root_dir@, path@),
{
    let comps = components(path);
    let sep = "/";
    proof {
        reveal_strlit("/");
        assert(sep@ =~= seq!['/']);
    }
    if starts_with(path, root_dir) {
        let root_len = components(root_dir).len();
        let mut rest: Vec<String> = Vec::new();
        let mut i: usize = root_len;
        while i < comps.len()
            invariant
                root_len <= i <= comps.len(),
                views(rest@) == views(comps@).subrange(root_len as int, i as int),
            decreases comps.len() - i,
        {
            let ghost old_rest = rest@;
            rest.push(comps[i].clone());
            proof {
                lemma_views_push(old_rest, comps@[i as int]);
            }
            i = i + 1;
            assert(views(rest@) =~= views(comps@).subrange(root_len as int, i as int));
        }
        assert(views(comps@).subrange(root_len as int, comps.len() as int) =~= views(comps@).skip(
            root_len as int,
        ));
        join(&rest, sep)
    } else {
        join(&comps, sep)
    }
}

fn is_name(component: &str) -> (name: bool)
    ensures
        name == is_name_component(component@),
{
    proof {
        reveal_strlit("/");
        reveal_strlit(".");
        reveal_strlit("..");
        assert("/"@ =~= root_component());
        assert("."@ =~= cur_component());
        assert(".."@ =~= parent_component());
    }
    !same_text(component, "/") && !same_text(component, ".") && !same_text(component, "..")
}

/// The final component of `path` when it names an entry (`Path::file_name`).
pub fn file_name(path: &str) -> (name: Option<String>)
    ensures
        name matches Some(n) ==> file_name_of(path@) == Some(n@),
        name is None ==> file_name_of(path@) is None,
{
    let comps = components(path);
    if comps.len() > 0 && is_name(comps[comps.len() - 1].as_str()) {
        Some(comps[comps.len() - 1].clone())
    } else {
        None
    }
}

/// The path without its final component (`Path::parent`), in normal form.
pub fn parent(path: &str) -> (up: Option<String>)
    ensures
        up matches Some(u) ==> parent_of(path@) == Some(u@),
        up is None ==> parent_of(path@) is None,
{
    proof {
        reveal_strlit("/");
        assert("/"@ =~= root_component());
    }
    let mut comps = components(path);
    if comps.len() == 0 || same_text(comps[comps.len() - 1].as_str(), "/") {
        return None;
    }
    let ghost all = views(comps@);
    comps.pop();
    assert(views(comps@) =~= all.drop_last());
    if comps.len() > 0 && same_text(comps[0].as_str(), "/") {
        let rest = comps.split_off(1);
        assert(views(rest@) =~= all.drop_last().drop_first());
        let mut out = String::from_str("/");
        let joined = join(&rest, "/");
        out.append(joined.as_str());
        Some(out)
    } else {
        Some(join(&comps, "/"))
    }
}

fn last_dot(chars: &Vec<char>) -> (dot: Option<usize>)
    ensures
        dot matches Some(k) ==> k == last_index_of(chars@, '.'),
        dot is None ==> last_index_of(chars@, '.') == -1,
{
    let mut i: usize = chars.len();
    assert(chars@.take(i as int) =~= chars@);
    while i > 0
        invariant
            i <= chars.len(),
            last_index_of(chars@, '.') == last_index_of(chars@.take(i as int), '.'),
        decreases i,
    {
        assert(chars@.take(i as int).drop_last() =~= chars@.take(i - 1));
        if chars[i - 1] == '.' {
            return Some(i - 1);
        }
        i = i - 1;
    }
    None
}

fn folded(c: char) -> (code: u32)
    ensures
        code == ascii_folded(c),
{
    if 'A' <= c && c <= 'Z' {
        c as u32 + 32
    } else {
        c as u32
    }
}

fn ends_with_ignoring_ascii_case(chars: &Vec<char>, from: usize, word: &str) -> (same: bool)
    requires
        from <= chars.len(),
    ensures
        same == eq_ignoring_ascii_case(chars@.skip(from as int), word@),
{
    let w = chars_of(word);
    if chars.len() - from != w.len() {
        return false;
    }
    let mut i: usize = 0;
    while i < w.len()
        invariant
            from <= chars.len(),
            chars.len() - from == w.len(),
            w@ == word@,
            i <= w.len(),
            forall|j: int| 0 <= j < i ==> ascii_folded(chars@.skip(from as int)[j]) == ascii_folded(w@[j]),
        decreases w.len() - i,
    {
        assert(chars@.skip(from as int)[i as int] == chars@[from + i]);
        if folded(chars[from + i]) != folded(w[i]) {
            assert(ascii_folded(chars@.skip(from as int)[i as int]) != ascii_folded(word@[i as int]));
            return false;
        }
        i = i + 1;
    }
    true
}

/// Whether `path` names a markdown file: its extension is `md` or `markdown`, in any ascii case.
pub fn is_markdown(path: &str) -> (markdown: bool)
    ensures
        markdown == is_markdown_path(path@),
{
    proof {
        reveal_strlit("..");
        reveal_strlit("md");
        reveal_strlit("markdown");
    }
    let name = match file_name(path) {
        Some(name) => name,
        None => return false,
    };
    let chars = chars_of(name.as_str());
    if same_text(name.as_str(), "..") {
        return false;
    }
    proof {
        lemma_last_index_of(chars@, '.');
    }
    let start = match last_dot(&chars) {
        Some(dot) if dot > 0 => dot + 1,
        _ => return false,
    };
    ends_with_ignoring_ascii_case(&chars, start, "md")
        || ends_with_ignoring_ascii_case(&chars, start, "markdown")
}

/// Every path lies inside itself.
pub proof fn lemma_starts_with_itself(path: Seq<char>)
    ensures
        path_starts_with(path, path),
{
    let comps = path_components(path);
    assert(comps.take(comps.len() as int) =~= comps);
}

/// The root's own url path is empty, whatever the root.
pub proof fn lemma_relative_url_of_root(root_dir: Seq<char>)
    ensures
        relative_url_of(root_dir, root_dir) == Seq::<char>::empty(),
{
    lemma_starts_with_itself(root_dir);
    let comps = path_components(root_dir);
    assert(comps.skip(comps.len() as int) =~= Seq::<Seq<char>>::empty());
}

proof fn lemma_last_index_is(text: Seq<char>, c: char, k: int)
    requires
        0 <= k < text.len(),
        text[k] == c,
        forall|j: int| k < j < text.len() ==> text[j] != c,
    ensures
        last_index_of(text, c) == k,
    decreases text.len(),
{
    if k < text.len() - 1 {
        assert(text.last() == text[text.len() - 1]);
        lemma_last_index_is(text.drop_last(), c, k);
    }
}

/// A file is markdown exactly when what follows the last dot of its name (a dot that is not the
/// name's first character) is `md` or `markdown`, in any ascii case: in `README.zh.md` that is
/// `md`, and earlier dots do not count.
pub proof fn lemma_markdown_by_last_dot(path: Seq<char>, name: Seq<char>, dot: int)
    requires
        file_name_of(path) == Some(name),
        name != parent_component(),
        0 < dot < name.len(),
        name[dot] == '.',
        forall|j: int| dot < j < name.len() ==> name[j] != '.',
    ensures
        is_markdown_path(path) == (eq_ignoring_ascii_case(name.skip(dot + 1), seq!['m', 'd'])
            || eq_ignoring_ascii_case(
            name.skip(dot + 1),
            seq!['m', 'a', 'r', 'k', 'd', 'o', 'w', 'n'],
        )),
{
    lemma_last_index_is(name, '.', dot);
}

/// A file whose name has no dot past its first character (`README`, `.hidden`) is never markdown.
pub proof fn lemma_no_dot_no_markdown(path: Seq<char>, name: Seq<char>)
    requires
        file_name_of(path) == Some(name),
        forall|j: int| 0 < j < name.len() ==> name[j] != '.',
    ensures
        !is_markdown_path(path),
{
    lemma_last_index_of(name, '.');
}

} // verus!
