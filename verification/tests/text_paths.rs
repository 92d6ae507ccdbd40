use exmodhop::paths::{path_file_name, path_join};
use exmodhop::text::{
    chars_lt, chars_of, decimal_string, join_strings, lower_hex_string, split_chars, trim_chars,
    utf8_string,
};

#[test]
fn join_strings_puts_separator_between_parts() {
    let parts = vec!["Foo".to_string(), "Bar".to_string(), "Baz".to_string()];
    assert_eq!(join_strings(&parts, "."), "Foo.Bar.Baz");
    assert_eq!(join_strings(&vec!["Only".to_string()], "."), "Only");
    assert_eq!(join_strings(&Vec::new(), "."), "");
}

#[test]
fn decimal_string_writes_digits() {
    assert_eq!(decimal_string(0), "0");
    assert_eq!(decimal_string(7), "7");
    assert_eq!(decimal_string(10), "10");
    assert_eq!(decimal_string(1234567), "1234567");
    assert_eq!(decimal_string(usize::MAX), usize::MAX.to_string());
}

#[test]
fn lower_hex_string_writes_two_digits_per_byte() {
    assert_eq!(lower_hex_string(&[0x00, 0x0f, 0xa5, 0xff]), "000fa5ff");
    assert_eq!(lower_hex_string(&[]), "");
}

#[test]
fn trim_chars_removes_unicode_whitespace_at_both_ends() {
    let t = trim_chars(&chars_of(" \t\n a b \u{3000}\r\n"));
    assert_eq!(t.iter().collect::<String>(), "a b");
    assert!(trim_chars(&chars_of("  \n")).is_empty());
    let t = trim_chars(&chars_of("\u{a0}x\u{85}"));
    assert_eq!(t.iter().collect::<String>(), "x");
}

#[test]
fn split_chars_splits_like_str_split() {
    let pieces = |s: &str| -> Vec<String> {
        split_chars(&chars_of(s), '\t').iter().map(|p| p.iter().collect()).collect()
    };
    assert_eq!(pieces("a\tb\tc"), vec!["a", "b", "c"]);
    assert_eq!(pieces(""), vec![""]);
    assert_eq!(pieces("\t"), vec!["", ""]);
    assert_eq!(pieces("a\t\tb\t"), vec!["a", "", "b", ""]);
    for s in ["x\ty", "\tlead", "trail\t", "no tabs"] {
        assert_eq!(pieces(s), s.split('\t').collect::<Vec<_>>());
    }
}

#[test]
fn chars_lt_orders_like_str() {
    let pairs = [("a", "b"), ("a", "ab"), ("", "a"), ("Zed", "apple"), ("é", "z"), ("same", "same")];
    for (a, b) in pairs {
        assert_eq!(chars_lt(&chars_of(a), &chars_of(b)), a < b, "{a} < {b}");
        assert_eq!(chars_lt(&chars_of(b), &chars_of(a)), b < a, "{b} < {a}");
    }
}

#[test]
fn utf8_string_reads_valid_text_only() {
    assert_eq!(utf8_string("héllo".as_bytes()), Some("héllo".to_string()));
    assert_eq!(utf8_string(&[0x66, 0xff, 0x6f]), None);
}

#[test]
fn path_join_adds_separator_when_needed() {
    assert_eq!(path_join("/home/dev/app", "lib"), "/home/dev/app/lib");
    assert_eq!(path_join("/home/dev/app/", "lib"), "/home/dev/app/lib");
    assert_eq!(path_join("", "lib"), "lib");
    assert_eq!(path_join("/home/dev", "/etc"), "/etc");
    assert_eq!(path_join("/home/dev", ".config/exmodhop"), "/home/dev/.config/exmodhop");
}

#[test]
fn path_join_agrees_with_pathbuf() {
    for (base, rel) in [("a", "b"), ("a/", "b"), ("/", "x"), ("a", "/b"), ("a/b", "c/d")] {
        let expected = std::path::Path::new(base).join(rel);
        assert_eq!(path_join(base, rel), expected.to_str().unwrap());
    }
}

#[test]
fn path_file_name_takes_last_name() {
    let name = |p: &str| path_file_name(p);
    assert_eq!(name("/home/dev/hello_world"), Some("hello_world".to_string()));
    assert_eq!(name("/home/dev/hello_world/"), Some("hello_world".to_string()));
    assert_eq!(name("hello_world/."), Some("hello_world".to_string()));
    assert_eq!(name("/"), None);
    assert_eq!(name(""), None);
    assert_eq!(name("."), None);
    assert_eq!(name("a/.."), None);
    for p in ["/a/b", "a//b//", "./x", "x/./", "/..", "../y"] {
        let expected = std::path::Path::new(p).file_name().map(|n| n.to_str().unwrap().to_string());
        assert_eq!(name(p), expected, "{p}");
    }
}
