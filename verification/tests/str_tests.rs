use rk_utils::StringUtil;

#[test]
fn test_substring() {
    let s = "Hello, World!";
    assert_eq!(s.substring(0, 5), "Hello");
    assert_eq!(s.substring(7, 12), "World");
    assert_eq!(s.substring(-6, -1), "World");
}

#[test]
fn test_unquote() {
    let quoted_str = "\"Hello World!\"";
    assert_eq!(quoted_str.unquote(true, None), "Hello World!");

    let quoted_str = "'Hello World!'";
    assert_eq!(quoted_str.unquote(true, None), "Hello World!");

    let quoted_str = "'Hello \\'World!'";
    assert_eq!(quoted_str.unquote(true, None), "Hello 'World!");

    let s = "'\\'Hello, World!\\''";
    assert_eq!(s.unquote(true, None), "'Hello, World!'");
}

#[test]
fn is_quoted() {
    let quoted_str = "\"Hello World!\"";
    assert!(quoted_str.is_quoted());

    let quoted_str = "'Hello World!'";
    assert!(quoted_str.is_quoted());

    let quoted_str = "Hello World!";
    assert!(!quoted_str.is_quoted());
}

#[test]
fn test_join_path_segments() {
    assert_eq!(
        "http://example.com".join_path_segments(vec!["/path"]),
        "http://example.com/path"
    );
    assert_eq!(
        "http://example.com".join_path_segments(vec!["path"]),
        "http://example.com/path"
    );
    assert_eq!(
        "http://example.com/".join_path_segments(vec!["path"]),
        "http://example.com/path"
    );
    assert_eq!(
        "http://example.com/".join_path_segments(vec!["/path"]),
        "http://example.com/path"
    );
}

#[test]
fn is_quoted_needs_matching_ends() {
    assert!(!"".is_quoted());
    assert!("'".is_quoted());
    assert!(!"'abc\"".is_quoted());
    assert!(!"abc'".is_quoted());
    assert!(!"«abc«".is_quoted());
}

#[test]
fn substring_counts_from_the_end() {
    let s = "Hello, World!";
    assert_eq!(s.substring(7, 0), "World!");
    assert_eq!(s.substring(-6, 0), "World!");
    assert_eq!(s.substring(0, -8), "Hello");
    assert_eq!(s.substring(0, 0), "Hello, World!");
    assert_eq!(s.substring(13, 13), "");
    assert_eq!(s.substring(1, -1), "ello, World");
}

#[test]
fn substring_with_crossed_offsets_is_empty() {
    let s = "Hello, World!";
    assert_eq!(s.substring(5, 3), "");
    assert_eq!(s.substring(100, 3), "");
    assert_eq!(s.substring(-100, 5), "");
    assert_eq!(s.substring(-20, -30), "");
    assert_eq!("".substring(0, 0), "");
}

#[test]
fn substring_takes_byte_offsets() {
    let s = "héllo";
    assert_eq!(s.len(), 6);
    assert_eq!(s.substring(0, 1), "h");
    assert_eq!(s.substring(1, 3), "é");
    assert_eq!(s.substring(3, 0), "llo");
    assert_eq!(s.substring(-3, 0), "llo");
}

#[test]
fn unquote_leaves_unwrapped_strings() {
    assert_eq!("Hello".unquote(true, None), "Hello");
    assert_eq!("'Hello\"".unquote(true, None), "'Hello\"");
    assert_eq!("'".unquote(true, None), "'");
    assert_eq!("".unquote(true, None), "");
    assert_eq!("xHellox".unquote(true, None), "xHellox");
    assert_eq!("''".unquote(true, None), "");
    assert_eq!("é".unquote(false, None), "é");
}

#[test]
fn unquote_keeps_escapes_unless_asked() {
    assert_eq!("'Hello \\'World!'".unquote(false, None), "Hello \\'World!");
    assert_eq!("'a\\\"b'".unquote(true, None), "a\\\"b");
    assert_eq!("\"a\\\"b\"".unquote(true, None), "a\"b");
    assert_eq!("'a\\\\'b'".unquote(true, None), "a\\'b");
    assert_eq!("'a\\'".unquote(true, None), "a\\");
}

#[test]
fn unquote_with_a_quote_set() {
    let set = vec!['x', '|'];
    assert_eq!("xHellox".unquote(true, Some(&set)), "Hello");
    assert_eq!("|a\\|b|".unquote(true, Some(&set)), "a|b");
    assert_eq!("|a\\|b|".unquote(false, Some(&set)), "a\\|b");
    assert_eq!("'Hello'".unquote(true, Some(&set)), "'Hello'");
    let backslash = vec!['\\'];
    assert_eq!("\\a\\\\\\b\\".unquote(true, Some(&backslash)), "a\\\\b");
}

#[test]
fn url_to_nodes_splits_on_slashes() {
    assert_eq!("/cloud/instance/".url_to_nodes(), vec!["/", "cloud", "instance"]);
    assert_eq!("/cloud//instance".url_to_nodes(), vec!["/", "cloud", "instance"]);
    assert_eq!("cloud".url_to_nodes(), vec!["/", "cloud"]);
    assert_eq!("/".url_to_nodes(), vec!["/"]);
    assert_eq!("".url_to_nodes(), vec!["/"]);
    assert_eq!("///".url_to_nodes(), vec!["/"]);
    assert_eq!("a/é/b".url_to_nodes(), vec!["/", "a", "é", "b"]);
}

#[test]
fn ensure_prefix_and_suffix() {
    assert_eq!("path".ensure_prefix("/"), "/path");
    assert_eq!("/path".ensure_prefix("/"), "/path");
    assert_eq!("".ensure_prefix("/"), "/");
    assert_eq!("path".ensure_prefix(""), "path");
    assert_eq!("path".ensure_suffix("/"), "path/");
    assert_eq!("path/".ensure_suffix("/"), "path/");
    assert_eq!("".ensure_suffix("ab"), "ab");
    assert_eq!("b".ensure_suffix("ab"), "bab");
}

#[test]
fn drop_prefix_and_suffix() {
    assert_eq!("/path".drop_prefix("/"), "path");
    assert_eq!("path".drop_prefix("/"), "path");
    assert_eq!("//path".drop_prefix("/"), "/path");
    assert_eq!("path".drop_prefix(""), "path");
    assert_eq!("path".drop_prefix("path"), "");
    assert_eq!("path/".drop_suffix("/"), "path");
    assert_eq!("path".drop_suffix("/"), "path");
    assert_eq!("path".drop_suffix(""), "path");
    assert_eq!("héé".drop_suffix("é"), "hé");
    assert_eq!("éh".drop_prefix("é"), "h");
}

#[test]
fn join_path_segment_puts_one_slash_between() {
    assert_eq!("a".join_path_segment("b"), "a/b");
    assert_eq!("a/".join_path_segment("/b"), "a/b");
    assert_eq!("a//".join_path_segment("//b"), "a///b");
    assert_eq!("".join_path_segment(""), "/");
    assert_eq!("a".join_path_segments(vec![]), "a");
    assert_eq!("a".join_path_segments(vec!["b", "/c", "d/"]), "a/b/c/d/");
}
