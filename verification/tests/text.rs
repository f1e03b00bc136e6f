use translator_core::text::{
    from_chars, from_chars_unwrapped, join_range, push_decimal, to_chars, trim_range,
};

#[test]
fn strings_and_characters_convert_both_ways() {
    let v = to_chars("ça va?");
    assert_eq!(v, vec!['ç', 'a', ' ', 'v', 'a', '?']);
    assert_eq!(from_chars(&v, 0, v.len()), "ça va?");
    assert_eq!(from_chars(&v, 3, 5), "va");
    assert_eq!(from_chars(&v, 2, 2), "");
    assert_eq!(from_chars_unwrapped(&to_chars("a\nb\n\nc"), 0, 6), "a b  c");
    assert_eq!(from_chars_unwrapped(&to_chars("a\nb"), 1, 2), " ");
}

#[test]
fn trimming_finds_the_inner_bounds() {
    let v = to_chars(" \t a b \n");
    assert_eq!(trim_range(&v, 0, v.len()), (3, 6));
    assert_eq!(trim_range(&v, 3, 6), (3, 6));
    assert_eq!(trim_range(&v, 4, 5), (5, 5));
    assert_eq!(trim_range(&v, 0, 2), (2, 2));
    assert_eq!(trim_range(&v, 0, 0), (0, 0));
    let text: String = v.iter().collect();
    let (a, b) = trim_range(&v, 0, v.len());
    assert_eq!(from_chars(&v, a, b), text.trim());
}

#[test]
fn parts_are_joined_with_the_separator_between() {
    let parts: Vec<String> = ["a", "b", "", "c"].iter().map(|s| s.to_string()).collect();
    assert_eq!(join_range(&parts, 0, 4, " "), "a b  c");
    assert_eq!(join_range(&parts, 1, 2, ", "), "b");
    assert_eq!(join_range(&parts, 2, 2, ", "), "");
    assert_eq!(join_range(&parts, 0, 2, ""), "ab");
    assert_eq!(join_range(&parts, 0, 4, "--"), parts.join("--"));
}

#[test]
fn numbers_are_written_in_decimal() {
    for n in [0usize, 7, 10, 42, 100, 909, 65536, usize::MAX] {
        let mut s = String::from("n=");
        push_decimal(&mut s, n);
        assert_eq!(s, format!("n={}", n));
    }
}
