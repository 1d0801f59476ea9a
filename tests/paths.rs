use mofu::path::{chars_of, is_ancestor_of, sorts_before, string_of, temp_candidate};

fn v(s: &str) -> Vec<char> {
    s.chars().collect()
}

#[test]
fn separator_sorts_first() {
    assert!(sorts_before(&v("/t/a"), &v("/t/a/b")));
    assert!(sorts_before(&v("/t/a/b"), &v("/t/a.x")));
    assert!(!sorts_before(&v("/t/a.x"), &v("/t/a/b")));
    assert!(sorts_before(&v("/t/a"), &v("/t/a")));
    assert!(sorts_before(&v(""), &v("/")));
    assert!(!sorts_before(&v("/b"), &v("/a")));
}

#[test]
fn ancestors_end_at_a_separator() {
    assert!(is_ancestor_of(&v("/t/a"), &v("/t/a/b")));
    assert!(is_ancestor_of(&v("/t/a"), &v("/t/a/b/c")));
    assert!(is_ancestor_of(&v("/"), &v("/t")));
    assert!(!is_ancestor_of(&v("/t/a"), &v("/t/ab")));
    assert!(!is_ancestor_of(&v("/t/a"), &v("/t/a")));
    assert!(!is_ancestor_of(&v("/t/a/b"), &v("/t/a")));
}

#[test]
fn temporary_names_replace_the_extension() {
    assert_eq!(temp_candidate(&v("/t/a"), 0), v("/t/a.temp_0"));
    assert_eq!(temp_candidate(&v("/t/a.txt"), 12), v("/t/a.temp_12"));
    assert_eq!(temp_candidate(&v("/t/a.tar.gz"), 3), v("/t/a.tar.temp_3"));
    assert_eq!(temp_candidate(&v("/t/.hidden"), 0), v("/t/.hidden.temp_0"));
    assert_eq!(temp_candidate(&v("/t/dir.d/a"), 1), v("/t/dir.d/a.temp_1"));
    assert_eq!(temp_candidate(&v("/t/a/"), 0), v("/t/a.temp_0"));
    assert_eq!(temp_candidate(&v("/t/a"), 1234567), v("/t/a.temp_1234567"));
}

#[test]
fn text_and_characters_convert() {
    assert_eq!(chars_of("/t/é"), v("/t/é"));
    assert_eq!(string_of(&v("/t/é")), "/t/é");
    assert_eq!(string_of(&v("")), "");
}
