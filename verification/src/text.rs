//! Character-level text helpers shared by the url, path and listing code: splitting on a
//! separator, joining with one, and building strings a character at a time.

use vstd::prelude::*;

verus! {

/// The views of a sequence of strings.
pub open spec fn views(parts: Seq<String>) -> Seq<Seq<char>> {
    parts.map_values(|part: String| part@)
}

/// `text` cut at every `sep`, as `str::split` does: `n` separators give `n + 1` pieces, empty
/// pieces included, and the empty text gives one empty piece.
pub open spec fn split_on(text: Seq<char>, sep: char) -> Seq<Seq<char>>
    decreases text.len(),
{
    if text.len() == 0 {
        seq![Seq::<char>::empty()]
    } else {
        let before = split_on(text.drop_last(), sep);
        if text.last() == sep {
            before.push(Seq::<char>::empty())
        } else {
            before.update(before.len() - 1, before.last().push(text.last()))
        }
    }
}

/// `parts` glued together with `sep` between neighbours.
pub open spec fn seq_join(parts: Seq<Seq<char>>, sep: Seq<char>) -> Seq<char>
    decreases parts.len(),
{
    if parts.len() == 0 {
        Seq::<char>::empty()
    } else if parts.len() == 1 {
        parts[0]
    } else {
        seq_join(parts.drop_last(), sep) + sep + parts.last()
    }
}

pub proof fn lemma_split_on_nonempty(text: Seq<char>, sep: char)
    ensures
        split_on(text, sep).len() >= 1,
    decreases text.len(),
{
    if text.len() > 0 {
        lemma_split_on_nonempty(text.drop_last(), sep);
    }
}

/// Pieces never hold the separator.
pub proof fn lemma_split_on_pieces(text: Seq<char>, sep: char)
    ensures
        forall|i: int, j: int|
            0 <= i < split_on(text, sep).len() && 0 <= j < split_on(text, sep)[i].len()
                ==> split_on(text, sep)[i][j] != sep,
    decreases text.len(),
{
    if text.len() > 0 {
        lemma_split_on_pieces(text.drop_last(), sep);
        lemma_split_on_nonempty(text.drop_last(), sep);
    }
}

/// Extending the last piece extends the joined text.
pub proof fn lemma_join_extend_last(parts: Seq<Seq<char>>, sep: Seq<char>, tail: Seq<char>)
    requires
        parts.len() >= 1,
    ensures
        seq_join(parts.update(parts.len() - 1, parts.last() + tail), sep) == seq_join(parts, sep)
            + tail,
{
    let updated = parts.update(parts.len() - 1, parts.last() + tail);
    if parts.len() == 1 {
        assert(updated[0] == parts[0] + tail);
    } else {
        assert(updated.drop_last() =~= parts.drop_last());
        assert(updated.last() == parts.last() + tail);
        assert(seq_join(parts.drop_last(), sep) + sep + (parts.last() + tail) =~= seq_join(
            parts.drop_last(),
            sep,
        ) + sep + parts.last() + tail);
    }
}

/// Splitting on a separator and joining with it again gives the text back.
pub proof fn lemma_join_split(text: Seq<char>, sep: char)
    ensures
        seq_join(split_on(text, sep), seq![sep]) == text,
    decreases text.len(),
{
    if text.len() == 0 {
    } else {
        let before = split_on(text.drop_last(), sep);
        lemma_join_split(text.drop_last(), sep);
        lemma_split_on_nonempty(text.drop_last(), sep);
        if text.last() == sep {
            let after = before.push(Seq::<char>::empty());
            assert(after.drop_last() =~= before);
            assert(seq_join(after, seq![sep]) =~= text.drop_last() + seq![sep]);
            assert(text =~= text.drop_last() + seq![sep]);
        } else {
            assert(before.last().push(text.last()) =~= before.last() + seq![text.last()]);
            lemma_join_extend_last(before, seq![sep], seq![text.last()]);
            assert(text =~= text.drop_last() + seq![text.last()]);
        }
    }
}

pub proof fn lemma_views_push(parts: Seq<String>, part: String)
    ensures
        views(parts.push(part)) == views(parts).push(part@),
{
    assert(views(parts.push(part)) =~= views(parts).push(part@));
}

/// Appends one character to `text` through `String::push`, which std documents as appending
/// the given char to the end of the string; the contract claims exactly that and is trusted.
#[verifier::external_body]
pub(crate) fn push_char(text: &mut String, c: char)
    ensures
        final(text)@ == old(text)@.push(c),
{
    text.push(c);
}

/// The characters of `text`, in order.
pub fn chars_of(text: &str) -> (chars: Vec<char>)
    ensures
        chars@ == text@,
{
    let n = text.unicode_len();
    let mut chars: Vec<char> = Vec::new();
    let mut i: usize = 0;
    while i < n
        invariant
            n == text@.len(),
            i <= n,
            chars@ == text@.take(i as int),
        decreases n - i,
    {
        chars.push(text.get_char(i));
        i = i + 1;
        assert(chars@ =~= text@.take(i as int));
    }
    assert(text@.take(n as int) =~= text@);
    chars
}

/// Whether two texts are the same character for character.
pub fn same_text(a: &str, b: &str) -> (same: bool)
    ensures
        same == (a@ == b@),
{
    let n = a.unicode_len();
    if n != b.unicode_len() {
        return false;
    }
    let mut i: usize = 0;
    while i < n
        invariant
            n == a@.len(),
            n == b@.len(),
            i <= n,
            forall|j: int| 0 <= j < i ==> a@[j] == b@[j],
        decreases n - i,
    {
        if a.get_char(i) != b.get_char(i) {
            return false;
        }
        i = i + 1;
    }
    assert(a@ =~= b@);
    true
}

/// `text` cut at every `sep` (see [`split_on`]).
pub fn split(text: &str, sep: char) -> (parts: Vec<String>)
    ensures
        views(parts@) == split_on(text@, sep),
{
    let n = text.unicode_len();
    let mut parts: Vec<String> = Vec::new();
    let mut current = String::new();
    let mut i: usize = 0;
    while i < n
        invariant
            n == text@.len(),
            i <= n,
            views(parts@).push(current@) == split_on(text@.take(i as int), sep),
        decreases n - i,
    {
        let c = text.get_char(i);
        let ghost before = views(parts@).push(current@);
        assert(text@.take(i + 1).drop_last() =~= text@.take(i as int));
        if c == sep {
            parts.push(current);
            current = String::new();
            assert(views(parts@).push(current@) =~= before.push(Seq::<char>::empty()));
        } else {
            push_char(&mut current, c);
            assert(views(parts@).push(current@) =~= before.update(
                before.len() - 1,
                before.last().push(c),
            ));
        }
        i = i + 1;
    }
    assert(text@.take(n as int) =~= text@);
    parts.push(current);
    assert(views(parts@) =~= split_on(text@, sep));
    parts
}

/// `parts` glued together with `sep` between neighbours (see [`seq_join`]).
pub fn join(parts: &Vec<String>, sep: &str) -> (joined: String)
    ensures
        joined@ == seq_join(views(parts@), sep@),
{
    let mut joined = String::new();
    let mut i: usize = 0;
    while i < parts.len()
        invariant
            i <= parts.len(),
            joined@ == seq_join(views(parts@).take(i as int), sep@),
        decreases parts.len() - i,
    {
        let ghost prefix = views(parts@).take(i + 1);
        assert(prefix.drop_last() =~= views(parts@).take(i as int));
        if i > 0 {
            joined.append(sep);
        }
        joined.append(parts[i].as_str());
        i = i + 1;
        assert(joined@ =~= seq_join(prefix, sep@));
    }
    assert(views(parts@).take(parts.len() as int) =~= views(parts@));
    joined
}

/// The text spelled by `chars`.
pub fn string_of(chars: &Vec<char>) -> (text: String)
    ensures
        text@ == chars@,
{
    let mut text = String::new();
    let mut i: usize = 0;
    while i < chars.len()
        invariant
            i <= chars.len(),
            text@ == chars@.take(i as int),
        decreases chars.len() - i,
    {
        push_char(&mut text, chars[i]);
        i = i + 1;
        assert(text@ =~= chars@.take(i as int));
    }
    assert(chars@.take(chars.len() as int) =~= chars@);
    text
}

} // verus!
