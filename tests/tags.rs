use std::cmp::Ordering;

use snafu::tags::{Tag, TagFormatError};

fn tag(major: Option<u16>, minor: Option<u16>, arch: Option<u16>) -> Tag {
    Tag { major, minor, arch }
}

#[test]
fn test_tag_parse() {
    let (tag, len) = Tag::parse("3.5");
    assert_eq!(len, 3);
    assert_eq!(tag.to_string(), "3.5");
}

#[test]
fn test_tag_parse_arch() {
    let (tag, len) = Tag::parse("3.5-32");
    assert_eq!(len, 6);
    assert_eq!(tag.to_string(), "3.5-32");
}

#[test]
fn test_tag_parse_python() {
    let (tag, len) = Tag::parse("python3.5");
    assert_eq!(len, 3);
    assert_eq!(tag.to_string(), "3.5");
}

#[test]
fn test_tag_parse_python_arch() {
    let (tag, len) = Tag::parse("python3.5-32");
    assert_eq!(len, 6);
    assert_eq!(tag.to_string(), "3.5-32");
}

#[test]
fn test_tag_parse_python_major() {
    let (tag, len) = Tag::parse("python3");
    assert_eq!(len, 1);
    assert_eq!(tag.to_string(), "3");
}

#[test]
fn test_tag_parse_easy_install() {
    let (tag, len) = Tag::parse("easy_install-3.5");
    assert_eq!(len, 4);
    assert_eq!(tag.to_string(), "3.5");
}

#[test]
fn test_tag_parse_easy_install_arch() {
    let (tag, len) = Tag::parse("easy_install-3.5-32");
    assert_eq!(len, 7);
    assert_eq!(tag.to_string(), "3.5-32");
}

#[test]
fn test_tag_parse_easy_install_major() {
    let (tag, len) = Tag::parse("easy_install-3-32");
    assert_eq!(len, 5);
    assert_eq!(tag.to_string(), "3-32");
}

#[test]
fn test_tag_contains() {
    let lh = Tag::from_name("3");
    let rh = Tag::from_name("3.5");
    assert_eq!(lh.contains(&rh), true);
    assert_eq!(rh.contains(&lh), false);
}

#[test]
fn test_tag_contains_arch() {
    let lh = Tag::from_name("3.5");
    let rh = Tag::from_name("3.5-32");
    assert_eq!(lh.contains(&rh), true);
    assert_eq!(rh.contains(&lh), false);
}

#[test]
fn parse_gives_fields() {
    assert_eq!(Tag::parse("3.5"), (tag(Some(3), Some(5), None), 3));
    assert_eq!(Tag::parse("3.5-32"), (tag(Some(3), Some(5), Some(32)), 6));
    assert_eq!(Tag::parse("python3.5-32"), (tag(Some(3), Some(5), Some(32)), 6));
    assert_eq!(Tag::parse("easy_install-3.6"), (tag(Some(3), Some(6), None), 4));
}

#[test]
fn parse_full_suffix_with_name() {
    assert_eq!(Tag::parse("pip-3.10-64"), (tag(Some(3), Some(10), Some(64)), 8));
    assert_eq!(Tag::parse("-27.1-32"), (tag(Some(27), Some(1), Some(32)), 8));
}

#[test]
fn parse_multi_digit_groups() {
    assert_eq!(Tag::parse("python3.12"), (tag(Some(3), Some(12), None), 4));
    assert_eq!(Tag::parse("python310"), (tag(Some(310), None, None), 3));
}

#[test]
fn parse_without_tag() {
    assert_eq!(Tag::parse("python"), (tag(None, None, None), 0));
    assert_eq!(Tag::parse(""), (tag(None, None, None), 0));
}

#[test]
fn parse_trailing_dash_is_not_taken() {
    assert_eq!(Tag::parse("python-"), (tag(None, None, None), 0));
}

#[test]
fn parse_dash_and_digits_without_version_is_major() {
    // A dash and digits with no version before them give the major.
    assert_eq!(Tag::parse("python-32"), (tag(Some(32), None, None), 3));
    assert_eq!(Tag::parse("pip-3"), (tag(Some(3), None, None), 2));
    assert_eq!(Tag::parse("-32"), (tag(Some(32), None, None), 3));
    assert_eq!(Tag::parse("x.-32"), (tag(Some(32), None, None), 4));
}

#[test]
fn parse_extra_groups_keep_first_two() {
    assert_eq!(Tag::parse("3.5.7"), (tag(Some(3), Some(5), None), 5));
}

#[test]
fn parse_empty_groups() {
    assert_eq!(Tag::parse("python3."), (tag(Some(3), None, None), 2));
    assert_eq!(Tag::parse("a.5"), (tag(Some(5), None, None), 2));
    assert_eq!(Tag::parse(".5"), (tag(Some(5), None, None), 2));
    assert_eq!(Tag::parse("python..3.6"), (tag(Some(3), Some(6), None), 5));
    assert_eq!(Tag::parse("3..5"), (tag(Some(3), None, None), 4));
}

#[test]
fn parse_non_ascii_name() {
    assert_eq!(Tag::parse("pythön3.6"), (tag(Some(3), Some(6), None), 3));
}

#[test]
fn parse_wraps_large_numbers_to_sixteen_bits() {
    assert_eq!(Tag::parse("70000"), (tag(Some(4464), None, None), 5));
    assert_eq!(Tag::parse("65535"), (tag(Some(65535), None, None), 5));
}

#[test]
fn parse_strict_whole_text() {
    assert_eq!(Tag::parse_strict("3.5-32"), Ok(tag(Some(3), Some(5), Some(32))));
    assert_eq!(Tag::parse_strict(".5"), Ok(tag(Some(5), None, None)));
    assert_eq!(Tag::parse_strict("-32"), Ok(tag(Some(32), None, None)));
    assert_eq!(Tag::parse_strict(""), Ok(tag(None, None, None)));
}

#[test]
fn parse_strict_rejects_name() {
    assert_eq!(
        Tag::parse_strict("python3.5"),
        Err(TagFormatError { parsed: 3, length: 9 })
    );
    assert_eq!(
        Tag::parse_strict("3.5-"),
        Err(TagFormatError { parsed: 0, length: 4 })
    );
}

#[test]
fn to_string_forms() {
    assert_eq!(tag(Some(3), Some(10), Some(64)).to_string(), "3.10-64");
    assert_eq!(tag(Some(3), None, Some(32)).to_string(), "3-32");
    assert_eq!(tag(Some(0), None, None).to_string(), "0");
    assert_eq!(tag(Some(65535), Some(100), None).to_string(), "65535.100");
    assert_eq!(tag(None, Some(5), Some(32)).to_string(), "");
}

#[test]
fn wildcard_is_no_major() {
    assert!(tag(None, None, None).is_wildcard());
    assert!(tag(None, Some(5), Some(64)).is_wildcard());
    assert!(!tag(Some(2), None, None).is_wildcard());
}

#[test]
fn contains_is_reflexive() {
    for t in [
        tag(Some(3), Some(5), Some(32)),
        tag(Some(2), Some(7), None),
        tag(None, None, None),
        tag(None, None, Some(64)),
    ] {
        assert!(t.contains(&t));
    }
}

#[test]
fn contains_major_only() {
    assert!(tag(Some(3), None, None).contains(&tag(Some(3), Some(5), None)));
    assert!(!tag(Some(3), Some(5), None).contains(&tag(Some(3), None, None)));
}

#[test]
fn contains_checks_arch_and_major() {
    assert!(!tag(None, None, Some(32)).contains(&tag(Some(3), Some(5), Some(64))));
    assert!(tag(None, None, Some(32)).contains(&tag(Some(3), Some(5), Some(32))));
    assert!(!tag(Some(2), None, None).contains(&tag(Some(3), Some(5), None)));
    assert!(!tag(Some(3), Some(6), None).contains(&tag(Some(3), Some(5), None)));
    assert!(tag(None, None, None).contains(&tag(Some(3), Some(5), Some(64))));
}

#[test]
fn ordering_chain() {
    let a = tag(None, None, None);
    let b = tag(Some(3), None, None);
    let c = tag(Some(3), Some(5), None);
    let d = tag(Some(3), Some(5), Some(32));
    let e = tag(Some(3), Some(5), Some(64));
    assert!(a < b);
    assert!(b < c);
    assert!(c < d);
    assert!(d < e);
    assert!(a < e);
}

#[test]
fn ordering_is_field_by_field() {
    assert_eq!(tag(Some(3), None, Some(64)).compare(&tag(Some(3), Some(0), None)), Ordering::Less);
    assert_eq!(tag(Some(4), None, None).compare(&tag(Some(3), Some(9), Some(64))), Ordering::Greater);
    assert_eq!(tag(Some(3), Some(5), None).compare(&tag(Some(3), Some(5), None)), Ordering::Equal);
    assert_eq!(
        tag(Some(3), None, Some(64)).partial_cmp(&tag(Some(3), Some(0), None)),
        Some(Ordering::Less)
    );
}
