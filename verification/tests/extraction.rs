use lawgraph::edges::extract_section_refs;
use lawgraph::html::{normalize_whitespace, strip_html};
use lawgraph::nodes::format_i64;

#[test]
fn test_extract_section_refs_simple() {
    let text = "See § 1-200 and § 2.2-3700 for details.".as_bytes().to_vec();
    let refs = extract_section_refs(&text);
    assert!(refs.contains(&b"1-200".to_vec()));
    assert!(refs.contains(&b"2.2-3700".to_vec()));
}

#[test]
fn test_extract_href_refs() {
    let text = r#"<a href="https://law.lis.virginia.gov/vacode/19.2-392">link</a>"#
        .as_bytes()
        .to_vec();
    let refs = extract_section_refs(&text);
    assert!(refs.contains(&b"19.2-392".to_vec()));
}

#[test]
fn test_extract_singular_exact_set() {
    let text = "See § 1-200 and § 2.2-3700 for details.".as_bytes().to_vec();
    let refs = extract_section_refs(&text);
    assert_eq!(refs, vec![b"1-200".to_vec(), b"2.2-3700".to_vec()]);
}

#[test]
fn test_extract_plural_list() {
    let text = "§§ 1-200, 1-201 and 1-202".as_bytes().to_vec();
    let refs = extract_section_refs(&text);
    assert_eq!(
        refs,
        vec![b"1-200".to_vec(), b"1-201".to_vec(), b"1-202".to_vec()]
    );
}

#[test]
fn test_extract_dedup_and_order() {
    let text = "§ 9-100 cites § 2-50 and again § 9-100.".as_bytes().to_vec();
    let refs = extract_section_refs(&text);
    assert_eq!(refs, vec![b"2-50".to_vec(), b"9-100".to_vec()]);
}

#[test]
fn test_extract_ignores_plain_numbers() {
    let text = b"Chapter 12 has 300 words and mentions 1-200 without a mark.".to_vec();
    let refs = extract_section_refs(&text);
    assert!(refs.is_empty());
}

#[test]
fn test_strip_simple_html() {
    let input = b"<p>Hello <b>world</b></p>".to_vec();
    assert_eq!(strip_html(&input), b"Hello world".to_vec());
}

#[test]
fn test_strip_preserves_plain_text() {
    let input = b"No HTML here".to_vec();
    assert_eq!(strip_html(&input), b"No HTML here".to_vec());
}

#[test]
fn test_normalizes_whitespace() {
    let input = b"<p>  too   many    spaces  </p>".to_vec();
    assert_eq!(strip_html(&input), b"too many spaces".to_vec());
}

#[test]
fn test_empty_input() {
    assert_eq!(strip_html(&Vec::new()), Vec::<u8>::new());
}

#[test]
fn test_normalize_whitespace_direct() {
    assert_eq!(
        normalize_whitespace(&b"  a\t b \n  c  ".to_vec()),
        b"a b c".to_vec()
    );
    assert_eq!(normalize_whitespace(&b"".to_vec()), Vec::<u8>::new());
}

#[test]
fn test_format_keys() {
    assert_eq!(format_i64(0), b"0".to_vec());
    assert_eq!(format_i64(1234), b"1234".to_vec());
    assert_eq!(format_i64(-5), b"-5".to_vec());
}
