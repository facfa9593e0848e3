use interp::text::{decimal_text, is_text, relative, resolve, rest_stem, unescape};
use interp::Error;

#[test]
fn integers_are_written_in_decimal() {
    assert_eq!(decimal_text(0), "0");
    assert_eq!(decimal_text(7), "7");
    assert_eq!(decimal_text(10), "10");
    assert_eq!(decimal_text(-5), "-5");
    assert_eq!(decimal_text(1234567890), "1234567890");
    assert_eq!(decimal_text(i64::MAX), "9223372036854775807");
    assert_eq!(decimal_text(i64::MIN), "-9223372036854775808");
    assert_eq!(decimal_text(-100), "-100");
}

#[test]
fn escapes_are_replaced() {
    assert_eq!(unescape(""), Ok(String::new()));
    assert_eq!(unescape("plain"), Ok("plain".to_string()));
    assert_eq!(unescape("a\\nb"), Ok("a\nb".to_string()));
    assert_eq!(unescape("a\\tb"), Ok("a\tb".to_string()));
    assert_eq!(unescape("a\\\\b"), Ok("a\\b".to_string()));
    assert_eq!(unescape("\\\\n"), Ok("\\n".to_string()));
    assert_eq!(unescape("\\\\\\n"), Ok("\\\n".to_string()));
    assert_eq!(unescape("\\n\\n"), Ok("\n\n".to_string()));
    assert_eq!(unescape("caf\u{e9}\\n"), Ok("caf\u{e9}\n".to_string()));
}

#[test]
fn malformed_escapes_fail() {
    assert_eq!(unescape("\\q"), Err(Error::BadEscape('q')));
    assert_eq!(unescape("ab\\"), Err(Error::OpenEscape));
    assert_eq!(unescape("\\"), Err(Error::OpenEscape));
    assert_eq!(unescape("a\\xb\\"), Err(Error::BadEscape('x')));
    assert_eq!(unescape("\\\\\\"), Err(Error::OpenEscape));
    assert_eq!(unescape("\\N"), Err(Error::BadEscape('N')));
    assert_eq!(unescape("\\ "), Err(Error::BadEscape(' ')));
}

#[test]
fn three_dots_mark_a_rest_parameter() {
    assert_eq!(rest_stem("b..."), Some("b".to_string()));
    assert_eq!(rest_stem("..."), Some(String::new()));
    assert_eq!(rest_stem("a...."), Some("a.".to_string()));
    assert_eq!(rest_stem("b.."), None);
    assert_eq!(rest_stem("...b"), None);
    assert_eq!(rest_stem(""), None);
    assert_eq!(rest_stem("\u{e9}t\u{e9}..."), Some("\u{e9}t\u{e9}".to_string()));
}

#[test]
fn relative_paths_start_with_dots() {
    assert!(relative("./a"));
    assert!(relative("../a"));
    assert!(relative("./"));
    assert!(relative("../"));
    assert!(!relative("a"));
    assert!(!relative("/a"));
    assert!(!relative(".a"));
    assert!(!relative(".."));
    assert!(!relative("..."));
    assert!(!relative(""));
    assert!(!relative("."));
}

#[test]
fn modules_are_looked_for_beside_the_file() {
    assert_eq!(resolve("dir/main.irl", "./m"), Some("dir/./m.irl".to_string()));
    assert_eq!(resolve("dir/main.irl", "../m"), Some("dir/../m.irl".to_string()));
    assert_eq!(resolve("main.irl", "./m"), Some("./m.irl".to_string()));
    assert_eq!(resolve("", "./m"), Some("./m.irl".to_string()));
    assert_eq!(resolve("/main.irl", "./m"), Some("/./m.irl".to_string()));
    assert_eq!(resolve("a/b/c.irl", "./d/e"), Some("a/b/./d/e.irl".to_string()));
    assert_eq!(resolve("dir/main.irl", "m"), None);
    assert_eq!(resolve("dir/main.irl", "/m"), None);
}

#[test]
fn the_extension_is_added_or_replaced() {
    assert_eq!(resolve("", "./m.irl"), Some("./m.irl".to_string()));
    assert_eq!(resolve("", "./m.txt"), Some("./m.irl".to_string()));
    assert_eq!(resolve("", "./m.tar.gz"), Some("./m.tar.irl".to_string()));
    assert_eq!(resolve("", "./.hidden"), Some("./.hidden.irl".to_string()));
    assert_eq!(resolve("", "./a.b/c"), Some("./a.b/c.irl".to_string()));
    assert_eq!(resolve("", "../m"), Some("../m.irl".to_string()));
    assert_eq!(resolve("", "./m."), Some("./m.irl".to_string()));
    assert_eq!(resolve("", "./irl"), Some("./irl.irl".to_string()));
    assert_eq!(resolve("", "./m.IRL"), Some("./m.irl".to_string()));
    assert_eq!(resolve("v1.2/main.irl", "./m"), Some("v1.2/./m.irl".to_string()));
}

#[test]
fn texts_compare_by_content() {
    assert!(is_text(&"fn".to_string(), "fn"));
    assert!(!is_text(&"fn".to_string(), "f"));
    assert!(!is_text(&"".to_string(), "fn"));
    assert!(is_text(&"".to_string(), ""));
}
