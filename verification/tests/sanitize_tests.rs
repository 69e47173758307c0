use std::path::{PathBuf, MAIN_SEPARATOR};

use lha_header::{parse_pathname, parse_str_nilterm, split_data_at_nil_or_end};

fn parse_filename(data: &[u8]) -> String {
    parse_str_nilterm(data, false, false)
}

fn as_pathbuf(path: &Vec<String>) -> PathBuf {
    path.iter().collect()
}

fn rendered(path: &Vec<String>) -> String {
    path.join(&MAIN_SEPARATOR.to_string())
}

#[test]
fn split_data_at_nil_or_end_works() {
    assert_eq!((&b"Foo"[..], None), split_data_at_nil_or_end(b"Foo"));
    assert_eq!(
        (&b"Foo"[..], Some(&b"Bar"[..])),
        split_data_at_nil_or_end(b"Foo\x00Bar")
    );
    assert_eq!((&[][..], Some(&b"Bar"[..])), split_data_at_nil_or_end(b"\x00Bar"));
}

#[test]
fn path_parser_works() {
    assert_eq!("", parse_filename(b""));
    assert_eq!("Hello World!", parse_filename(b"Hello World!"));
    if std::path::is_separator('/') {
        assert_eq!("_Hello_World_", parse_filename(b"/Hello/World/"));
    }
    if std::path::is_separator('\\') {
        assert_eq!("_Hello_World_", parse_filename(br"\Hello\World\"));
    }
    assert_eq!("Hello%00World%7f", parse_filename(b"Hello\x00World\x7f"));
    assert_eq!("Hello%01World%ff", parse_filename(b"Hello\x01World\xff"));
    assert_eq!("Hello", parse_str_nilterm(b"Hello\x00World\xff", true, false));
    if std::path::is_separator('/') {
        assert_eq!("He_llo", parse_str_nilterm(b"He/llo\x00World\xff", true, false));
        assert_eq!("He/llo", parse_str_nilterm(b"He/llo\x00World\xff", true, true));
        assert_eq!(
            "He/llo%00World%ff",
            parse_str_nilterm(b"He/llo\x00World\xff", false, true)
        );
        assert_eq!("_Hello%1fWorld%80", parse_filename(b"/Hello\x1fWorld\x80"));
    }
    let mut path: Vec<String> = Vec::new();
    parse_pathname(b"", &mut path);
    assert!(as_pathbuf(&path).is_relative());
    assert_eq!("", rendered(&path));
    parse_pathname(b"/", &mut path);
    assert!(as_pathbuf(&path).is_relative());
    assert_eq!("", rendered(&path));
    parse_pathname(br"\", &mut path);
    assert!(as_pathbuf(&path).is_relative());
    assert_eq!("", rendered(&path));
    parse_pathname(br".", &mut path);
    assert!(as_pathbuf(&path).is_relative());
    assert_eq!("", rendered(&path));
    parse_pathname(br"..", &mut path);
    assert!(as_pathbuf(&path).is_relative());
    assert_eq!("", rendered(&path));
    parse_pathname(br"./..", &mut path);
    assert!(as_pathbuf(&path).is_relative());
    assert_eq!("", rendered(&path));
    parse_pathname(br".\..", &mut path);
    assert!(as_pathbuf(&path).is_relative());
    assert_eq!("", rendered(&path));
    parse_pathname(br"/..\./", &mut path);
    assert!(as_pathbuf(&path).is_relative());
    assert_eq!("", rendered(&path));
    parse_pathname(br"\../.\", &mut path);
    assert!(as_pathbuf(&path).is_relative());
    assert_eq!("", rendered(&path));
    parse_pathname(br"foo/bar\baz", &mut path);
    assert!(as_pathbuf(&path).is_relative());
    let expect = format!("foo{}bar{}baz", MAIN_SEPARATOR, MAIN_SEPARATOR);
    assert_eq!(expect, rendered(&path));
    path.clear();
    parse_pathname(br"\foo/bar\baz/", &mut path);
    assert!(as_pathbuf(&path).is_relative());
    let expect = format!("foo{}bar{}baz", MAIN_SEPARATOR, MAIN_SEPARATOR);
    assert_eq!(expect, rendered(&path));
    path.clear();
    parse_pathname(br"/foo\bar/baz\", &mut path);
    assert!(as_pathbuf(&path).is_relative());
    let expect = format!("foo{}bar{}baz", MAIN_SEPARATOR, MAIN_SEPARATOR);
    assert_eq!(expect, rendered(&path));
    path.clear();
    parse_pathname(b"foo\xffbar\xffbaz", &mut path);
    assert!(as_pathbuf(&path).is_relative());
    let expect = format!("foo{}bar{}baz", MAIN_SEPARATOR, MAIN_SEPARATOR);
    assert_eq!(expect, rendered(&path));
    path.clear();
    parse_pathname(b"\xfffoo\xffb\x91ar\xffbaz\xff", &mut path);
    assert!(as_pathbuf(&path).is_relative());
    let expect = format!("foo{}b%91ar{}baz", MAIN_SEPARATOR, MAIN_SEPARATOR);
    assert_eq!(expect, rendered(&path));
    path.clear();
}

#[test]
fn sanitize_string_ascii_passthrough() {
    assert_eq!("Hello World!", parse_str_nilterm(b"Hello World!", false, false));
}

#[test]
fn sanitize_string_nil_terminates_before_escape() {
    assert_eq!("Hello", parse_str_nilterm(b"Hello\x00World\xff", true, false));
}

#[test]
fn sanitize_string_escapes_controls() {
    assert_eq!(
        "Hello%00World%7f",
        parse_str_nilterm(b"Hello\x00World\x7f", false, false)
    );
}

#[test]
fn sanitize_path_strips_traversal() {
    let mut path: Vec<String> = Vec::new();
    parse_pathname(b"/..\\.\\", &mut path);
    assert!(path.is_empty());
}

#[test]
fn sanitize_path_normalizes_separators() {
    let mut path: Vec<String> = Vec::new();
    parse_pathname(b"\\foo/bar\\baz/", &mut path);
    assert_eq!(vec!["foo".to_string(), "bar".to_string(), "baz".to_string()], path);
}

#[test]
fn sanitize_path_handles_ff_separator_and_escapes() {
    let mut path: Vec<String> = Vec::new();
    parse_pathname(b"\xfffoo\xffb\x91ar\xffbaz\xff", &mut path);
    assert_eq!(
        vec!["foo".to_string(), "b%91ar".to_string(), "baz".to_string()],
        path
    );
}

#[test]
fn sanitize_path_reparse_is_stable() {
    let mut path: Vec<String> = Vec::new();
    parse_pathname(b"\xfffoo\xffb\x91ar\xff..\xff.\xffbaz\xff", &mut path);
    let joined = path.join("/");
    let mut again: Vec<String> = Vec::new();
    parse_pathname(joined.as_bytes(), &mut again);
    assert_eq!(path, again);
}
