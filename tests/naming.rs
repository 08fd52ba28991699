use pdf_catalog::layout::{
    next_run_number,
    clone_file_name, cover_file_name, cover_file_name_now, document_folder_name, thumbnail_file_name,
    thumbnail_file_name_now,
};

#[test]
fn document_file_names() {
    assert_eq!(document_folder_name(12), "pdf_12");
    assert_eq!(clone_file_name(12), "12.pdf");
    assert_eq!(cover_file_name(12, "20240131_235959"), "12_cover_20240131_235959.jpg");
    assert_eq!(thumbnail_file_name(3, 2, "20240131_235959"), "page_3_2_20240131_235959.jpg");
    assert_ne!(thumbnail_file_name(3, 1, "x"), thumbnail_file_name(3, 2, "x"));
}

#[test]
fn names_with_current_time() {
    let c = cover_file_name_now(4);
    assert!(c.starts_with("4_cover_") && c.ends_with(".jpg"));
    let stamp = &c["4_cover_".len()..c.len() - 4];
    assert_eq!(stamp.len(), 15);
    assert_eq!(&stamp[8..9], "_");
    let t = thumbnail_file_name_now(10, 7);
    assert!(t.starts_with("page_10_7_") && t.ends_with(".jpg"));
}

#[test]
fn run_numbers() {
    assert_eq!(next_run_number(0), Some(1));
    assert_eq!(next_run_number(41), Some(42));
    assert_eq!(next_run_number(u64::MAX), None);
}
