use meread::site::index_url;
use meread::url::{decode_percent, encode_path_segment, hex_value};

#[test]
fn encodes_only_url_significant_characters() {
    assert_eq!(encode_path_segment("ideas.md"), "ideas.md");
    assert_eq!(encode_path_segment("My Notes.md"), "My%20Notes.md");
    assert_eq!(encode_path_segment("a#b?c%d"), "a%23b%3Fc%25d");
    assert_eq!(encode_path_segment("räksmörgås.md"), "räksmörgås.md");
}

#[test]
fn decodes_escapes() {
    assert_eq!(decode_percent("My%20Notes.md"), "My Notes.md");
    assert_eq!(decode_percent("a%23b%3fc"), "a#b?c");
    assert_eq!(decode_percent("plain/path.md"), "plain/path.md");
}

#[test]
fn leaves_invalid_escapes_alone() {
    assert_eq!(decode_percent("100%"), "100%");
    assert_eq!(decode_percent("100%25"), "100%");
    assert_eq!(decode_percent("%zz"), "%zz");
    assert_eq!(decode_percent("%2"), "%2");
}

#[test]
fn round_trips() {
    for name in ["ideas.md", "My Notes.md", "a#b?c%d", "räksmörgås.md"] {
        assert_eq!(decode_percent(&encode_path_segment(name)), name);
    }
}

#[test]
fn decodes_multibyte_escapes() {
    assert_eq!(decode_percent("r%C3%A4ksm%c3%b6rg%C3%A5s.md"), "räksmörgås.md");
}

#[test]
fn escapes_that_are_not_utf8_leave_the_path_as_written() {
    assert_eq!(decode_percent("%ff.md"), "%ff.md");
    assert_eq!(decode_percent("a%C3"), "a%C3");
}

#[test]
fn hex_digits_in_both_cases() {
    assert_eq!(hex_value(b'0'), Some(0));
    assert_eq!(hex_value(b'9'), Some(9));
    assert_eq!(hex_value(b'a'), Some(10));
    assert_eq!(hex_value(b'F'), Some(15));
    assert_eq!(hex_value(b'g'), None);
    assert_eq!(hex_value(b'%'), None);
}

#[test]
fn index_url_encodes_every_segment_and_keeps_slashes() {
    assert_eq!(index_url("docs/My Notes.md"), "docs/My%20Notes.md");
    assert_eq!(index_url(""), "");
    assert_eq!(index_url("a#1/b?2/100%"), "a%231/b%3F2/100%25");
}

#[test]
fn index_url_round_trips() {
    for relative in ["docs/My Notes.md", "a#1/b?2/100%", "räksmörgås/x y.md", ""] {
        assert_eq!(decode_percent(&index_url(relative)), relative);
    }
}

#[test]
fn a_trailing_slash_decodes_as_itself() {
    assert_eq!(decode_percent("a%2/"), "a%2/");
    assert_eq!(decode_percent("My%20Notes/"), "My Notes/");
    // an escape that makes bad utf-8 keeps the whole path as written, slash included
    assert_eq!(decode_percent("%C3/"), "%C3/");
    assert_eq!(decode_percent("%C3%A4/"), "ä/");
}
