use querypath_fmt::path_text::{file_name_chars, is_component_exec, path_components, text_compare};
use querypath_fmt::text::{
    chars_of, chunk_chars, decimal_chars, digit_len, ends_with_chars, push_pad_left, push_pad_right, push_repeat,
    skip_chars, string_of, take_chars,
};

fn v(s: &str) -> Vec<char> {
    s.chars().collect()
}

fn st(c: &[char]) -> String {
    c.iter().collect()
}

#[test]
fn chars_and_strings_round_trip() {
    assert_eq!(chars_of("añ└─x"), vec!['a', 'ñ', '└', '─', 'x']);
    assert_eq!(chars_of(""), Vec::<char>::new());
    assert_eq!(string_of(&vec!['z', 'é', '•']), "zé•");
    assert_eq!(string_of(&vec![]), "");
    assert_eq!(string_of(&chars_of("proj/ł")), "proj/ł");
}

#[test]
fn decimal_digits() {
    assert_eq!(st(&decimal_chars(0)), "0");
    assert_eq!(st(&decimal_chars(7)), "7");
    assert_eq!(st(&decimal_chars(1234567890)), "1234567890");
    assert_eq!(st(&decimal_chars(u64::MAX)), u64::MAX.to_string());
    assert_eq!(digit_len(0), 1);
    assert_eq!(digit_len(99), 2);
    assert_eq!(digit_len(100), 3);
    assert_eq!(digit_len(u64::MAX), 20);
}

#[test]
fn padding_and_repeating() {
    let mut out = v("<");
    push_pad_right(&mut out, &v("ab"), 4);
    push_pad_left(&mut out, &v("cd"), 5, '0');
    push_pad_right(&mut out, &v("toolong"), 3);
    push_repeat(&mut out, '-', 2);
    assert_eq!(st(&out), "<ab  000cdtoolong--");
}

#[test]
fn chunks_rebuild_the_text() {
    let chunks = chunk_chars(&v("abcdefgh"), 3);
    let parts: Vec<String> = chunks.iter().map(|c| st(c)).collect();
    assert_eq!(parts, vec!["abc", "def", "gh"]);
    assert_eq!(parts.concat(), "abcdefgh");
    assert!(parts.iter().all(|p| !p.is_empty() && p.chars().count() <= 3));
    assert_eq!(chunk_chars(&v(""), 3), vec![Vec::<char>::new()]);
    assert_eq!(chunk_chars(&v("ab"), 5), vec![v("ab")]);
}

#[test]
fn suffixes_and_slices() {
    assert!(ends_with_chars(&v("src/main.rs"), &v("main.rs")));
    assert!(ends_with_chars(&v("abc"), &v("")));
    assert!(!ends_with_chars(&v("rs"), &v("main.rs")));
    assert!(!ends_with_chars(&v("main.rx"), &v("main.rs")));
    assert_eq!(take_chars(&v("abcdef"), 2), v("ab"));
    assert_eq!(skip_chars(&v("abcdef"), 4), v("ef"));
    assert_eq!(skip_chars(&v("ab"), 2), v(""));
}

#[test]
fn path_components_skip_empty_and_dot() {
    let parts = |s: &str, b: bool| -> Vec<String> { path_components(&v(s), b).iter().map(|p| st(p)).collect() };
    assert_eq!(parts("./a//b/./c/", true), vec!["a", "b", "c"]);
    assert_eq!(parts("a\\b/c", true), vec!["a", "b", "c"]);
    assert_eq!(parts("a\\b/c", false), vec!["a\\b", "c"]);
    assert_eq!(parts("..", true), vec![".."]);
    assert!(parts("", true).is_empty());
    assert!(parts("/./", true).is_empty());
    assert!(is_component_exec(&v("x")));
    assert!(is_component_exec(&v("..")));
    assert!(!is_component_exec(&v(".")));
    assert!(!is_component_exec(&v("")));
}

#[test]
fn file_names() {
    let name = |s: &str| file_name_chars(&v(s)).map(|n| st(&n));
    assert_eq!(name("/home/u/proj"), Some("proj".to_string()));
    assert_eq!(name("/home/u/proj/"), Some("proj".to_string()));
    assert_eq!(name("proj/."), Some("proj".to_string()));
    assert_eq!(name("/"), None);
    assert_eq!(name("."), None);
    assert_eq!(name("a/.."), None);
    assert_eq!(name(""), None);
}

#[test]
fn text_order_is_by_character() {
    assert!(text_compare(&v("Z"), &v("a")) < 0);
    assert!(text_compare(&v("ab"), &v("abc")) < 0);
    assert!(text_compare(&v("b"), &v("abc")) > 0);
    assert_eq!(text_compare(&v("same"), &v("same")), 0);
    assert!(text_compare(&v("é"), &v("z")) > 0);
    assert!(text_compare(&v(""), &v("a")) < 0);
}
