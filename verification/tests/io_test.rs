use carte::io::{read_pics, ReadError};
use carte::types::{PicType, Pics};

fn sorted_tags(p: &Pics, i: usize) -> Vec<String> {
    let mut v = p[i].tags.to_vec();
    v.sort();
    v
}

#[test]
fn reads_the_example() {
    let text = "4\nH 3 cat beach sun\nV 2 selfie smile\nV 2 garden selfie\nH 2 garden cat\n";
    let p = read_pics(text).unwrap();
    assert_eq!(p.len(), 4);
    for i in 0..4 {
        assert_eq!(p[i].id, i);
    }
    assert!(matches!(p[0].source, PicType::H(0)));
    assert!(matches!(p[1].source, PicType::V(1)));
    assert!(matches!(p[2].source, PicType::V(2)));
    assert!(matches!(p[3].source, PicType::H(3)));
    assert_eq!(sorted_tags(&p, 0), vec!["beach", "cat", "sun"]);
    assert_eq!(sorted_tags(&p, 3), vec!["cat", "garden"]);
}

#[test]
fn last_line_without_line_feed() {
    let p = read_pics("2\nH 1 a\nV 1 b").unwrap();
    assert_eq!(p.len(), 2);
    assert_eq!(sorted_tags(&p, 1), vec!["b"]);
}

#[test]
fn carriage_returns_before_line_feeds_are_dropped() {
    let p = read_pics("2\r\nH 1 a\r\nV 1 b\r\n").unwrap();
    assert_eq!(p.len(), 2);
    assert_eq!(sorted_tags(&p, 0), vec!["a"]);
    assert_eq!(sorted_tags(&p, 1), vec!["b"]);
    // A carriage return at the very end, with no line feed, stays in the tag.
    let q = read_pics("1\nH 1 a\r").unwrap();
    assert_eq!(sorted_tags(&q, 0), vec!["a\r"]);
}

#[test]
fn header_is_trimmed_and_may_have_a_plus() {
    assert_eq!(read_pics("  +1 \t\nH 0\n").unwrap().len(), 1);
    assert_eq!(read_pics("7").unwrap().len(), 0);
    // The count in the header need not match the number of lines.
    assert_eq!(read_pics("0\nH 0\nH 0\n").unwrap().len(), 2);
}

#[test]
fn tags_are_a_set_and_empty_words_count() {
    let p = read_pics("1\nH 9 a a  b\n").unwrap();
    assert_eq!(sorted_tags(&p, 0), vec!["", "a", "b"]);
}

#[test]
fn bad_header() {
    assert_eq!(read_pics(""), Err(ReadError::BadHeader));
    assert_eq!(read_pics("x\nH 1 a\n"), Err(ReadError::BadHeader));
    assert_eq!(read_pics("-1\n"), Err(ReadError::BadHeader));
    assert_eq!(read_pics("+\n"), Err(ReadError::BadHeader));
    assert_eq!(read_pics("99999999999999999999999\n"), Err(ReadError::BadHeader));
}

#[test]
fn missing_tag_count() {
    assert_eq!(read_pics("2\nH 1 a\nV\n"), Err(ReadError::MissingTagCount(1)));
    assert_eq!(read_pics("2\nX\n"), Err(ReadError::MissingTagCount(0)));
    // An empty line in the middle has no tag count either.
    assert_eq!(read_pics("2\n\nH 1 a\n"), Err(ReadError::MissingTagCount(0)));
}

#[test]
fn bad_tag_count() {
    assert_eq!(read_pics("1\nH x a\n"), Err(ReadError::BadTagCount(0)));
    assert_eq!(read_pics("1\nH  a\n"), Err(ReadError::BadTagCount(0)));
}

#[test]
fn unknown_kind() {
    assert_eq!(read_pics("2\nH 1 a\nX 1 a\n"), Err(ReadError::UnknownKind(1)));
    assert_eq!(read_pics("1\nHH 1 a\n"), Err(ReadError::UnknownKind(0)));
    assert_eq!(read_pics("1\nh 1 a\n"), Err(ReadError::UnknownKind(0)));
}

#[test]
fn first_bad_line_wins() {
    assert_eq!(read_pics("3\nH 1 a\nX 1 a\nV\n"), Err(ReadError::UnknownKind(1)));
}
