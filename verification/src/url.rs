//! Percent-encoding for the small part of it that matters here: file names with spaces and other
//! url-significant characters have to survive the round trip from a generated listing link back
//! into a path below the root.

use vstd::prelude::*;
use vstd::utf8::*;

use crate::text::push_char;

verus! {

broadcast use vstd::string::group_string_axioms;

/// What one character of a name becomes in a url path segment: `%`, space, `#` and `?` are
/// escaped, everything else (non-ascii included) is kept as it is.
pub open spec fn encoded_char(c: char) -> Seq<char> {
    if c == '%' {
        seq!['%', '2', '5']
    } else if c == ' ' {
        seq!['%', '2', '0']
    } else if c == '#' {
        seq!['%', '2', '3']
    } else if c == '?' {
        seq!['%', '3', 'F']
    } else {
        seq![c]
    }
}

/// A name as it has to be written in a url path segment.
pub open spec fn encoded_segment(name: Seq<char>) -> Seq<char>
    decreases name.len(),
{
    if name.len() == 0 {
        Seq::<char>::empty()
    } else {
        encoded_char(name[0]) + encoded_segment(name.drop_first())
    }
}

/// The value of an ascii hex digit, either case.
pub open spec fn hex_digit(byte: u8) -> Option<u8> {
    if 0x30 <= byte <= 0x39 {
        Some((byte - 0x30) as u8)
    } else if 0x61 <= byte <= 0x66 {
        Some((byte - 0x61 + 10) as u8)
    } else if 0x41 <= byte <= 0x46 {
        Some((byte - 0x41 + 10) as u8)
    } else {
        None
    }
}

/// Whether `bytes` starts with a complete `%XX` escape.
pub open spec fn starts_with_escape(bytes: Seq<u8>) -> bool {
    &&& bytes.len() >= 3
    &&& bytes[0] == 0x25
    &&& hex_digit(bytes[1]) is Some
    &&& hex_digit(bytes[2]) is Some
}

/// `bytes` with every complete `%XX` escape replaced by the byte it stands for, scanning from the
/// left; anything else, a lone or malformed `%` included, is kept as written.
pub open spec fn unescaped(bytes: Seq<u8>) -> Seq<u8>
    decreases bytes.len(),
{
    if bytes.len() == 0 {
        Seq::<u8>::empty()
    } else if starts_with_escape(bytes) {
        seq![(hex_digit(bytes[1]).unwrap() * 16 + hex_digit(bytes[2]).unwrap()) as u8]
            + unescaped(bytes.skip(3))
    } else {
        seq![bytes[0]] + unescaped(bytes.skip(1))
    }
}

/// The request path `path` with its escapes decoded; when the decoded bytes are not valid utf-8
/// the path is kept as it was written.
pub open spec fn decoded_path(path: Seq<char>) -> Seq<char> {
    let bytes = unescaped(encode_utf8(path));
    if valid_utf8(bytes) {
        decode_utf8(bytes)
    } else {
        path
    }
}

/// Percent-encode the characters that would otherwise change the meaning of a url path segment.
/// Non-ascii is left alone; browsers send it back as-is and it round-trips fine.
pub fn encode_path_segment(name: &str) -> (encoded: String)
    ensures
        encoded@ == encoded_segment(name@),
{
    let n = name.unicode_len();
    let mut encoded = String::new();
    let mut i: usize = 0;
    assert(name@.skip(0) =~= name@);
    assert(encoded@ + encoded_segment(name@.skip(0)) =~= encoded_segment(name@));
    while i < n
        invariant
            n == name@.len(),
            i <= n,
            encoded@ + encoded_segment(name@.skip(i as int)) == encoded_segment(name@),
        decreases n - i,
    {
        let c = name.get_char(i);
        assert(name@.skip(i as int).drop_first() =~= name@.skip(i + 1));
        if c == '%' {
            push_char(&mut encoded, '%');
            push_char(&mut encoded, '2');
            push_char(&mut encoded, '5');
        } else if c == ' ' {
            push_char(&mut encoded, '%');
            push_char(&mut encoded, '2');
            push_char(&mut encoded, '0');
        } else if c == '#' {
            push_char(&mut encoded, '%');
            push_char(&mut encoded, '2');
            push_char(&mut encoded, '3');
        } else if c == '?' {
            push_char(&mut encoded, '%');
            push_char(&mut encoded, '3');
            push_char(&mut encoded, 'F');
        } else {
            push_char(&mut encoded, c);
        }
        i = i + 1;
        assert(encoded@ + encoded_segment(name@.skip(i as int)) =~= encoded_segment(name@));
    }
    assert(name@.skip(n as int) =~= Seq::<char>::empty());
    assert(encoded@ =~= encoded@ + encoded_segment(name@.skip(n as int)));
    encoded
}

/// The value of an ascii hex digit, either case.
pub fn hex_value(byte: u8) -> (value: Option<u8>)
    ensures
        value == hex_digit(byte),
{
    if 0x30 <= byte && byte <= 0x39 {
        Some(byte - 0x30)
    } else if 0x61 <= byte && byte <= 0x66 {
        Some(byte - 0x61 + 10)
    } else if 0x41 <= byte && byte <= 0x46 {
        Some(byte - 0x41 + 10)
    } else {
        None
    }
}

/// Reads `bytes` as utf-8 text, as `String::from_utf8` does: text exactly when the bytes are well
/// formed utf-8, and then the characters they encode.
#[verifier::external_body]
fn text_from_utf8(bytes: Vec<u8>) -> (text: Option<String>)
    ensures
        text is Some <==> valid_utf8(bytes@),
        text matches Some(t) ==> t@ == decode_utf8(bytes@),
{
    String::from_utf8(bytes).ok()
}

/// Decode `%XX` escapes in a request path. Invalid escapes are left as written, so a file actually
/// named `100%` still resolves.
pub fn decode_percent(path: &str) -> (decoded: String)
    ensures
        decoded@ == decoded_path(path@),
{
    let bytes = path.as_bytes();
    let ghost all = bytes@;
    let mut decoded: Vec<u8> = Vec::new();
    let mut i: usize = 0;
    assert(all.skip(0) =~= all);
    assert(decoded@ + unescaped(all.skip(0)) =~= unescaped(all));
    while i < bytes.len()
        invariant
            bytes@ == all,
            i <= bytes.len(),
            decoded@ + unescaped(all.skip(i as int)) == unescaped(all),
        decreases bytes.len() - i,
    {
        if bytes[i] == 0x25 && bytes.len() - i > 2 {
            let high = hex_value(bytes[i + 1]);
            let low = hex_value(bytes[i + 2]);
            if let (Some(h), Some(l)) = (high, low) {
                assert(starts_with_escape(all.skip(i as int)));
                assert(all.skip(i as int).skip(3) =~= all.skip(i + 3));
                decoded.push(h * 16 + l);
                i = i + 3;
                assert(decoded@ + unescaped(all.skip(i as int)) =~= unescaped(all));
                continue;
            }
        }
        assert(!starts_with_escape(all.skip(i as int)));
        assert(all.skip(i as int).skip(1) =~= all.skip(i + 1));
        decoded.push(bytes[i]);
        i = i + 1;
        assert(decoded@ + unescaped(all.skip(i as int)) =~= unescaped(all));
    }
    assert(all.skip(i as int) =~= Seq::<u8>::empty());
    assert(decoded@ =~= decoded@ + unescaped(all.skip(i as int)));
    match text_from_utf8(decoded) {
        Some(text) => text,
        None => path.to_owned(),
    }
}


pub proof fn lemma_encode_utf8_concat(a: Seq<char>, b: Seq<char>)
    ensures
        encode_utf8(a + b) == encode_utf8(a) + encode_utf8(b),
    decreases a.len(),
{
    if a.len() == 0 {
        assert(a + b =~= b);
    } else {
        assert((a + b).drop_first() =~= a.drop_first() + b);
        lemma_encode_utf8_concat(a.drop_first(), b);
        assert(encode_utf8(a + b) =~= encode_utf8(a) + encode_utf8(b));
    }
}

proof fn lemma_width_1_byte(v: u32)
    by (bit_vector)
    requires
        v < 0x80,
    ensures
        (v & 0x7F) as u8 == v as u8,
{
}

proof fn lemma_high_bytes(v: u32)
    by (bit_vector)
    ensures
        (0xC0 | ((v >> 6) & 0x1F) as u8) >= 0x80,
        (0xE0 | ((v >> 12) & 0x0F) as u8) >= 0x80,
        (0xF0 | ((v >> 18) & 0x7) as u8) >= 0x80,
        (0x80 | (v & 0x3F) as u8) >= 0x80,
        (0x80 | ((v >> 6) & 0x3F) as u8) >= 0x80,
        (0x80 | ((v >> 12) & 0x3F) as u8) >= 0x80,
{
}

/// The utf-8 bytes of one character: the character itself when it is ascii, otherwise bytes that
/// all have the high bit set.
proof fn lemma_scalar_bytes(c: char)
    ensures
        (c as u32) < 0x80 ==> encode_scalar(c as u32) == seq![(c as u32) as u8],
        (c as u32) >= 0x80 ==> forall|i: int|
            0 <= i < encode_scalar(c as u32).len() ==> #[trigger] encode_scalar(c as u32)[i] >= 0x80,
{
    let v = c as u32;
    if v < 0x80 {
        lemma_width_1_byte(v);
    } else {
        lemma_high_bytes(v);
    }
}

/// Bytes that hold no `%` pass through unescaping untouched.
pub proof fn lemma_unescaped_plain_prefix(x: Seq<u8>, y: Seq<u8>)
    requires
        forall|i: int| 0 <= i < x.len() ==> x[i] != 0x25,
    ensures
        unescaped(x + y) == x + unescaped(y),
    decreases x.len(),
{
    if x.len() == 0 {
        assert(x + y =~= y);
    } else {
        assert((x + y).skip(1) =~= x.skip(1) + y);
        lemma_unescaped_plain_prefix(x.skip(1), y);
        assert(x + unescaped(y) =~= seq![x[0]] + (x.skip(1) + unescaped(y)));
    }
}

proof fn lemma_ascii_bytes(s: Seq<char>)
    requires
        forall|i: int| 0 <= i < s.len() ==> (s[i] as u32) < 0x80,
    ensures
        encode_utf8(s) == s.map_values(|c: char| (c as u32) as u8),
    decreases s.len(),
{
    if s.len() > 0 {
        lemma_scalar_bytes(s[0]);
        lemma_ascii_bytes(s.drop_first());
        assert(encode_utf8(s) =~= s.map_values(|c: char| (c as u32) as u8));
    }
}

/// The utf-8 bytes of a character that is not `%` hold no `%` byte.
proof fn lemma_no_percent_byte(c: char)
    requires
        c != '%',
    ensures
        forall|i: int|
            0 <= i < encode_scalar(c as u32).len() ==> #[trigger] encode_scalar(c as u32)[i] != 0x25,
{
    lemma_scalar_bytes(c);
    vstd::utf8::char_u32_cast(c, c as u32);
    if (c as u32) < 0x80 {
        assert(('%' as u32) == 0x25);
        assert((c as u32) != 0x25) by {
            if (c as u32) == 0x25 {
                vstd::utf8::char_u32_cast('%', 0x25);
            }
        }
    }
}

/// Unescaping the bytes of an encoded name, whatever follows them, gives back the bytes of the
/// name followed by whatever unescaping makes of the rest.
pub proof fn lemma_unescape_encoded(name: Seq<char>, rest: Seq<u8>)
    ensures
        unescaped(encode_utf8(encoded_segment(name)) + rest) == encode_utf8(name) + unescaped(rest),
    decreases name.len(),
{
    if name.len() == 0 {
        assert(encode_utf8(encoded_segment(name)) + rest =~= rest);
        assert(encode_utf8(name) + unescaped(rest) =~= unescaped(rest));
    } else {
        let c = name[0];
        let tail_chars = name.drop_first();
        let tail = encode_utf8(encoded_segment(tail_chars));
        lemma_unescape_encoded(tail_chars, rest);
        lemma_encode_utf8_concat(encoded_char(c), encoded_segment(tail_chars));
        lemma_scalar_bytes(c);
        let bytes = encode_utf8(encoded_char(c)) + tail + rest;
        assert(encode_utf8(encoded_segment(name)) + rest =~= bytes);
        if c == '%' || c == ' ' || c == '#' || c == '?' {
            lemma_ascii_bytes(encoded_char(c));
            let escape = encode_utf8(encoded_char(c));
            assert(escape.len() == 3);
            assert(escape[0] == 0x25);
            assert(bytes.skip(3) =~= tail + rest);
            assert(starts_with_escape(bytes));
            assert(unescaped(bytes) =~= encode_utf8(name) + unescaped(rest));
        } else {
            assert(encoded_char(c) =~= seq![c]);
            assert(encode_utf8(seq![c]) =~= encode_scalar(c as u32)) by {
                assert(seq![c].drop_first() =~= Seq::<char>::empty());
                assert(seq![c][0] == c);
                assert(encode_utf8(Seq::<char>::empty()) =~= Seq::<u8>::empty());
                assert(encode_scalar(c as u32) + Seq::<u8>::empty() =~= encode_scalar(c as u32));
            }
            lemma_no_percent_byte(c);
            lemma_unescaped_plain_prefix(encode_scalar(c as u32), tail + rest);
            assert(bytes =~= encode_scalar(c as u32) + (tail + rest));
            assert(encode_scalar(c as u32) + (encode_utf8(tail_chars) + unescaped(rest)) =~= encode_utf8(name) + unescaped(rest));
        }
    }
}

/// Decoding what [`encode_path_segment`] produced gives the name back, for every name: a file
/// name survives the trip from a generated link back into a request path.
pub proof fn lemma_decode_encode_round_trip(name: Seq<char>)
    ensures
        decoded_path(encoded_segment(name)) == name,
{
    lemma_unescape_encoded(name, Seq::<u8>::empty());
    assert(encode_utf8(encoded_segment(name)) + Seq::<u8>::empty() =~= encode_utf8(encoded_segment(name)));
    assert(encode_utf8(name) + unescaped(Seq::<u8>::empty()) =~= encode_utf8(name));
    vstd::utf8::encode_utf8_valid_utf8(name);
    vstd::utf8::encode_utf8_decode_utf8(name);
}

/// The utf-8 bytes of a text without `%` hold no `%` byte.
pub proof fn lemma_no_percent_bytes(text: Seq<char>)
    requires
        !text.contains('%'),
    ensures
        forall|i: int| 0 <= i < encode_utf8(text).len() ==> encode_utf8(text)[i] != 0x25,
    decreases text.len(),
{
    if text.len() > 0 {
        assert(text[0] != '%') by {
            assert(text.contains(text[0]));
        }
        lemma_no_percent_byte(text[0]);
        assert(!text.drop_first().contains('%')) by {
            if text.drop_first().contains('%') {
                let k = choose|k: int| 0 <= k < text.drop_first().len() && text.drop_first()[k] == '%';
                assert(text[k + 1] == '%');
            }
        }
        lemma_no_percent_bytes(text.drop_first());
        let first = encode_scalar(text[0] as u32);
        let rest = encode_utf8(text.drop_first());
        assert forall|i: int| 0 <= i < encode_utf8(text).len() implies encode_utf8(text)[i] != 0x25 by {
            if i < first.len() {
                assert(encode_utf8(text)[i] == first[i]);
            } else {
                assert(encode_utf8(text)[i] == rest[i - first.len()]);
            }
        }
    }
}

/// A `/` byte after any bytes passes through unescaping untouched: it can never complete an
/// escape.
proof fn lemma_unescaped_slash(bytes: Seq<u8>)
    ensures
        unescaped(bytes + seq![0x2Fu8]) == unescaped(bytes) + seq![0x2Fu8],
    decreases bytes.len(),
{
    let slash = seq![0x2Fu8];
    let whole = bytes + slash;
    if bytes.len() == 0 {
        assert(whole =~= slash);
        assert(!starts_with_escape(slash));
        assert(slash.skip(1) =~= Seq::<u8>::empty());
        assert(unescaped(Seq::<u8>::empty()) =~= Seq::<u8>::empty());
        assert(unescaped(slash) =~= seq![slash[0]] + unescaped(slash.skip(1)));
        assert(unescaped(slash) =~= slash);
        assert(unescaped(bytes) + slash =~= slash);
    } else if starts_with_escape(bytes) {
        assert(whole[0] == bytes[0] && whole[1] == bytes[1] && whole[2] == bytes[2]);
        assert(starts_with_escape(whole));
        assert(whole.skip(3) =~= bytes.skip(3) + slash);
        lemma_unescaped_slash(bytes.skip(3));
        assert(unescaped(whole) =~= unescaped(bytes) + slash);
    } else {
        assert(!starts_with_escape(whole)) by {
            if bytes.len() >= 3 {
                assert(whole[0] == bytes[0] && whole[1] == bytes[1] && whole[2] == bytes[2]);
            } else if bytes.len() == 2 {
                assert(whole[2] == 0x2F);
            }
        }
        assert(whole[0] == bytes[0]);
        assert(whole.skip(1) =~= bytes.skip(1) + slash);
        lemma_unescaped_slash(bytes.skip(1));
        assert(unescaped(whole) =~= unescaped(bytes) + slash);
    }
}

/// A trailing `/` on a request path comes through decoding as it is, whatever precedes it.
pub proof fn lemma_decoded_path_slash(path: Seq<char>)
    ensures
        decoded_path(path + "/"@) == decoded_path(path) + "/"@,
{
    reveal_strlit("/");
    let slash = "/"@;
    let slash_byte = seq![0x2Fu8];
    assert(slash =~= seq!['/']);
    lemma_ascii_bytes(slash);
    assert(('/' as u32) == 0x2F);
    assert(encode_utf8(slash) =~= slash_byte);
    lemma_encode_utf8_concat(path, slash);
    let bytes = unescaped(encode_utf8(path));
    lemma_unescaped_slash(encode_utf8(path));
    assert(unescaped(encode_utf8(path + slash)) == bytes + slash_byte);
    vstd::utf8::encode_utf8_valid_utf8(slash);
    vstd::utf8::encode_utf8_decode_utf8(slash);
    if valid_utf8(bytes) {
        vstd::utf8::valid_utf8_concat(bytes, slash_byte);
        let whole = bytes + slash_byte;
        if bytes.len() > 0 {
            vstd::utf8::is_char_boundary_iff_not_is_continuation_byte(whole, bytes.len() as int);
            assert(whole[bytes.len() as int] == 0x2F);
        } else {
            vstd::utf8::is_char_boundary_start_end_of_seq(whole);
        }
        vstd::utf8::decode_utf8_split(whole, bytes.len() as int);
        assert(whole.subrange(0, bytes.len() as int) =~= bytes);
        assert(whole.subrange(bytes.len() as int, whole.len() as int) =~= slash_byte);
    } else {
        if valid_utf8(bytes + slash_byte) {
            let whole = bytes + slash_byte;
            if bytes.len() > 0 {
                vstd::utf8::is_char_boundary_iff_not_is_continuation_byte(whole, bytes.len() as int);
                assert(whole[bytes.len() as int] == 0x2F);
            } else {
                vstd::utf8::is_char_boundary_start_end_of_seq(whole);
            }
            vstd::utf8::valid_utf8_split(whole, bytes.len() as int);
            assert(whole.subrange(0, bytes.len() as int) =~= bytes);
        }
    }
}

/// A path without `%` decodes to itself.
pub proof fn lemma_decode_without_escapes(path: Seq<char>)
    requires
        !path.contains('%'),
    ensures
        decoded_path(path) == path,
{
    lemma_no_percent_bytes(path);
    lemma_unescaped_plain_prefix(encode_utf8(path), Seq::<u8>::empty());
    assert(encode_utf8(path) + Seq::<u8>::empty() =~= encode_utf8(path));
    vstd::utf8::encode_utf8_valid_utf8(path);
    vstd::utf8::encode_utf8_decode_utf8(path);
}

} // verus!
