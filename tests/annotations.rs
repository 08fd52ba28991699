use pdf_catalog::bookmarks::{add_bookmark, delete_bookmark, update_bookmark, BookmarkError, PdfBookmark};
use pdf_catalog::text::{is_blank, is_white_space};

fn pages(b: &[PdfBookmark]) -> Vec<(u32, String)> {
    b.iter().map(|x| (x.page_number, x.label.clone())).collect()
}

#[test]
fn blank_text() {
    assert!(is_blank(""));
    assert!(is_blank("  \t\n"));
    assert!(is_blank("\u{2003}"));
    assert!(!is_blank(" a "));
    assert!(!is_blank("x"));
}

#[test]
fn add_bookmarks() {
    let mut b = Vec::new();
    assert_eq!(add_bookmark(&mut b, 3, String::from("Intro")), Ok(()));
    assert_eq!(add_bookmark(&mut b, 1, String::from("Cover")), Ok(()));
    assert_eq!(pages(&b), vec![(3, String::from("Intro")), (1, String::from("Cover"))]);
}

#[test]
fn second_bookmark_on_a_page_is_refused() {
    let mut b = Vec::new();
    add_bookmark(&mut b, 4, String::from("first")).unwrap();
    assert_eq!(add_bookmark(&mut b, 4, String::from("second")), Err(BookmarkError::DuplicatePage));
    assert_eq!(pages(&b), vec![(4, String::from("first"))]);
    assert_eq!(update_bookmark(&mut b, Some(String::from("second")), 4), Ok(()));
    assert_eq!(pages(&b), vec![(4, String::from("second"))]);
}

#[test]
fn blank_label_is_refused() {
    let mut b = Vec::new();
    assert_eq!(add_bookmark(&mut b, 1, String::from("   ")), Err(BookmarkError::EmptyLabel));
    assert!(b.is_empty());
    add_bookmark(&mut b, 1, String::from("ok")).unwrap();
    assert_eq!(update_bookmark(&mut b, Some(String::from("")), 1), Err(BookmarkError::EmptyLabel));
    assert_eq!(pages(&b), vec![(1, String::from("ok"))]);
}

#[test]
fn update_missing_and_keep_label() {
    let mut b = Vec::new();
    add_bookmark(&mut b, 2, String::from("two")).unwrap();
    assert_eq!(update_bookmark(&mut b, Some(String::from("x")), 9), Err(BookmarkError::NotFound));
    assert_eq!(update_bookmark(&mut b, None, 9), Err(BookmarkError::NotFound));
    assert_eq!(update_bookmark(&mut b, None, 2), Ok(()));
    assert_eq!(pages(&b), vec![(2, String::from("two"))]);
}

#[test]
fn delete_bookmarks() {
    let mut b = Vec::new();
    add_bookmark(&mut b, 1, String::from("a")).unwrap();
    add_bookmark(&mut b, 2, String::from("b")).unwrap();
    add_bookmark(&mut b, 3, String::from("c")).unwrap();
    assert_eq!(delete_bookmark(&mut b, 2), Ok(()));
    assert_eq!(pages(&b), vec![(1, String::from("a")), (3, String::from("c"))]);
    assert_eq!(delete_bookmark(&mut b, 2), Err(BookmarkError::NotFound));
}

#[test]
fn delete_removes_every_bookmark_of_the_page() {
    let mut b = vec![
        PdfBookmark { page_number: 5, label: String::from("x") },
        PdfBookmark { page_number: 6, label: String::from("y") },
        PdfBookmark { page_number: 5, label: String::from("z") },
    ];
    assert_eq!(delete_bookmark(&mut b, 5), Ok(()));
    assert_eq!(pages(&b), vec![(6, String::from("y"))]);
}

#[test]
fn white_space_agrees_with_std() {
    for u in 0u32..=0x10ffff {
        if let Some(c) = char::from_u32(u) {
            assert_eq!(is_white_space(c), c.is_whitespace(), "{u:#x}");
        }
    }
    assert!(is_blank("\u{85}\u{a0}\u{3000}"));
}
