use pdf_catalog::artifacts::{PdfPagesDimensions, PdfPagesThumbnails, PdfStrokes};
use pdf_catalog::decimal::{decimal_text, parse_u32};
use pdf_catalog::pages::PageMap;

#[test]
fn decimal_text_values() {
    assert_eq!(decimal_text(0), "0");
    assert_eq!(decimal_text(7), "7");
    assert_eq!(decimal_text(1234), "1234");
    assert_eq!(decimal_text(u64::MAX), "18446744073709551615");
}

#[test]
fn parse_page_keys() {
    assert_eq!(parse_u32("42"), Some(42));
    assert_eq!(parse_u32("+7"), Some(7));
    assert_eq!(parse_u32("007"), Some(7));
    assert_eq!(parse_u32("4294967295"), Some(u32::MAX));
    assert_eq!(parse_u32("4294967296"), None);
    assert_eq!(parse_u32("99999999999999999999"), None);
    assert_eq!(parse_u32(""), None);
    assert_eq!(parse_u32("+"), None);
    assert_eq!(parse_u32("-1"), None);
    assert_eq!(parse_u32("12a"), None);
    assert_eq!(parse_u32(" 1"), None);
}

#[test]
fn parse_agrees_with_std() {
    for s in ["0", "1", "+12", "00", "4294967295", "4294967296", "", "x", "1 ", "٣"] {
        assert_eq!(parse_u32(s), s.parse::<u32>().ok(), "{s}");
    }
}

#[test]
fn thumbnails_insert_and_replace() {
    let mut t = PdfPagesThumbnails::new();
    t.insert(3, String::from("/t/page_3_a.jpg"));
    t.insert(1, String::from("/t/page_1_a.jpg"));
    t.insert(3, String::from("/t/page_3_b.jpg"));
    assert_eq!(t.get(3).unwrap(), "/t/page_3_b.jpg");
    assert_eq!(t.get(1).unwrap(), "/t/page_1_a.jpg");
    assert!(t.get(2).is_none());
    let pages: Vec<u32> = t.pages().entries().iter().map(|e| e.0).collect();
    assert_eq!(pages, vec![1, 3]);
}

#[test]
fn strokes_round_trip_pages_two_and_five() {
    let mut s: PdfStrokes<&str> = PdfStrokes::new();
    s.insert(5, "e");
    s.insert(2, "a");
    s.insert(2, "b");
    let stored: Vec<(String, Vec<&str>)> = s
        .pages()
        .keyed_entries()
        .into_iter()
        .map(|(k, v)| (k, v.clone()))
        .collect();
    assert_eq!(
        stored,
        vec![(String::from("2"), vec!["a", "b"]), (String::from("5"), vec!["e"])]
    );
    let back = PdfStrokes::from_keyed_entries(stored).ok().unwrap();
    assert_eq!(back.get(2).unwrap(), &vec!["a", "b"]);
    assert_eq!(back.get(5).unwrap(), &vec!["e"]);
    assert!(back.get(3).is_none());
    assert_eq!(back.pages().len(), 2);
}

#[test]
fn empty_mapping_round_trip() {
    let s: PdfStrokes<u8> = PdfStrokes::new();
    let stored: Vec<(String, Vec<u8>)> = s
        .pages()
        .keyed_entries()
        .into_iter()
        .map(|(k, v)| (k, v.clone()))
        .collect();
    assert!(stored.is_empty());
    let back = PdfStrokes::from_keyed_entries(stored).ok().unwrap();
    assert!(back.pages().is_empty());
}

#[test]
fn bad_key_is_an_error() {
    let r = PdfPagesThumbnails::from_keyed_entries(vec![
        (String::from("1"), String::from("a")),
        (String::from("one"), String::from("b")),
    ]);
    assert_eq!(r.err(), Some(String::from("one")));
    let ok = PdfPagesThumbnails::from_keyed_entries(vec![(String::from("+4"), String::from("d"))]);
    assert_eq!(ok.ok().unwrap().get(4).unwrap(), "d");
}

#[test]
fn later_entry_for_same_page_wins() {
    let m = PageMap::from_keyed_entries(vec![
        (String::from("3"), 'a'),
        (String::from("03"), 'b'),
    ])
    .ok()
    .unwrap();
    assert_eq!(m.get(3), Some(&'b'));
    assert_eq!(m.len(), 1);
}

#[test]
fn missing_pages_of_partial_dimensions() {
    let mut d: PdfPagesDimensions<(u32, u32)> = PdfPagesDimensions::new();
    d.insert(1, (10, 20));
    d.insert(2, (10, 20));
    assert_eq!(d.missing_pages(4), vec![3, 4]);
    assert_eq!(d.missing_pages(2), Vec::<u32>::new());
    assert_eq!(PdfPagesDimensions::<u8>::new().missing_pages(3), vec![1, 2, 3]);
}

#[test]
fn dimensions_cover_all_pages() {
    let mut d: PdfPagesDimensions<u8> = PdfPagesDimensions::new();
    assert!(!d.covers_all(None));
    assert!(d.covers_all(Some(0)));
    assert!(!d.covers_all(Some(2)));
    d.insert(1, 0);
    d.insert(2, 0);
    assert!(d.covers_all(Some(2)));
    assert!(!d.covers_all(Some(3)));
    assert!(!d.covers_all(None));
}
