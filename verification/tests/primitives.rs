use tagstream::{find_closing_tag, find_sub};

#[test]
fn find_sub_first_occurrence() {
    assert_eq!(find_sub(b"abcabc", b"bc", 0), Some(1));
    assert_eq!(find_sub(b"abcabc", b"bc", 2), Some(4));
    assert_eq!(find_sub(b"abcabc", b"zz", 0), None);
    assert_eq!(find_sub(b"abcabc", b"", 3), Some(3));
    assert_eq!(find_sub(b"ab", b"abc", 0), None);
}

#[test]
fn closing_tag_simple() {
    // `<a>x</a>`: content starts at 3, closing marker `</a>` ends at 8.
    assert_eq!(find_closing_tag(b"<a>x</a>", 3, b"a"), Some(8));
}

#[test]
fn closing_tag_skips_nested_same_name() {
    // `<a>x<a>y</a>z</a>`: the first `</a>` closes the inner `<a`, the
    // outer level closes at the end of the buffer.
    assert_eq!(find_closing_tag(b"<a>x<a>y</a>z</a>", 3, b"a"), Some(17));
}

#[test]
fn closing_tag_ignores_other_names() {
    assert_eq!(find_closing_tag(b"<a>x<b>y</b>z</a>", 3, b"a"), Some(17));
}

#[test]
fn closing_tag_missing() {
    assert_eq!(find_closing_tag(b"<a>x", 3, b"a"), None);
    // A nested open marker with only one closing marker leaves the outer
    // level unresolved.
    assert_eq!(find_closing_tag(b"<a>x<a>y</a>", 3, b"a"), None);
}
