use pdf_catalog::catalog::{Catalog, CatalogError, PdfEntry};

fn entry(id: u64) -> PdfEntry {
    PdfEntry::new(
        id,
        format!("/src/doc{id}.pdf"),
        format!("/data/pdf_{id}/{id}.pdf"),
        format!("/data/pdf_{id}/{id}_cover_20240101_000000.jpg"),
        format!("doc{id}.pdf"),
    )
}

fn register(c: &mut Catalog, name: &str) -> Result<u64, CatalogError> {
    c.register(
        format!("/src/{name}"),
        String::from("clone"),
        String::from("cover"),
        name.to_string(),
    )
}

#[test]
fn empty_catalog_allocates_one() {
    let mut c = Catalog::new();
    assert_eq!(c.next_identity(), Some(1));
    assert_eq!(register(&mut c, "a.pdf"), Ok(1));
    assert_eq!(c.len(), 1);
    assert_eq!(c.entries()[0].id, 1);
    assert_eq!(c.entries()[0].file_name, "a.pdf");
}

#[test]
fn next_identity_is_max_plus_one() {
    let mut c = Catalog::from_entries(vec![entry(3), entry(7), entry(9)], 0).ok().unwrap();
    assert_eq!(c.next_identity(), Some(10));
    assert_eq!(register(&mut c, "x.pdf"), Ok(10));
    assert_eq!(c.next_identity(), Some(11));
}

#[test]
fn deleted_identity_is_not_reused() {
    let mut c = Catalog::new();
    for name in ["a", "b", "c"] {
        register(&mut c, name).unwrap();
    }
    assert!(c.remove(2));
    assert_eq!(c.next_identity(), Some(4));
    assert!(c.remove(3));
    assert_eq!(c.last_issued(), 3);
    assert_eq!(c.next_identity(), Some(4));
    assert_eq!(register(&mut c, "d"), Ok(4));
    let ids: Vec<u64> = c.entries().iter().map(|e| e.id).collect();
    assert_eq!(ids, vec![1, 4]);
}

#[test]
fn emptied_catalog_keeps_counting() {
    let mut c = Catalog::new();
    register(&mut c, "a").unwrap();
    register(&mut c, "b").unwrap();
    assert!(c.remove(1));
    assert!(c.remove(2));
    assert_eq!(c.len(), 0);
    assert_eq!(register(&mut c, "c"), Ok(3));
}

#[test]
fn stored_mark_is_restored() {
    let c = Catalog::from_entries(vec![entry(2), entry(4)], 9).ok().unwrap();
    assert_eq!(c.last_issued(), 9);
    assert_eq!(c.next_identity(), Some(10));
    let older = Catalog::from_entries(vec![entry(2), entry(4)], 0).ok().unwrap();
    assert_eq!(older.last_issued(), 4);
    assert_eq!(older.next_identity(), Some(5));
    assert_eq!(Catalog::from_entries(vec![], 6).ok().unwrap().next_identity(), Some(7));
}

#[test]
fn lookup_after_registrations_and_deletions() {
    let mut c = Catalog::new();
    for i in 0..10 {
        register(&mut c, &format!("f{i}")).unwrap();
    }
    assert!(c.remove(4));
    assert!(c.remove(1));
    assert!(c.remove(10));
    assert!(!c.remove(4));
    assert_eq!(register(&mut c, "again"), Ok(11));
    for id in [2u64, 3, 5, 6, 7, 8, 9, 11] {
        let e = c.lookup(id).unwrap();
        assert_eq!(e.id, id);
    }
    assert!(c.lookup(1).is_none());
    assert!(c.lookup(4).is_none());
    assert!(c.lookup(10).is_none());
    assert_eq!(c.find(11), Some(c.len() - 1));
    assert_eq!(c.lookup(11).unwrap().file_name, "again");
}

#[test]
fn unsorted_store_is_refused() {
    assert!(matches!(
        Catalog::from_entries(vec![entry(2), entry(1)], 0),
        Err(CatalogError::Unsorted)
    ));
    assert!(matches!(
        Catalog::from_entries(vec![entry(2), entry(2)], 0),
        Err(CatalogError::Unsorted)
    ));
    assert!(Catalog::from_entries(vec![], 0).is_ok());
}

#[test]
fn rename_entry() {
    let mut c = Catalog::from_entries(vec![entry(1), entry(5)], 0).ok().unwrap();
    assert_eq!(c.rename(5, String::from("renamed.pdf")), Ok(()));
    assert_eq!(c.lookup(5).unwrap().file_name, "renamed.pdf");
    assert_eq!(c.lookup(1).unwrap().file_name, "doc1.pdf");
    assert_eq!(c.rename(2, String::from("x")), Err(CatalogError::NotFound));
    assert_eq!(c.rename(5, String::new()), Err(CatalogError::EmptyName));
    assert_eq!(c.rename(5, String::from(" \t ")), Err(CatalogError::EmptyName));
    assert_eq!(c.rename(2, String::from("  ")), Err(CatalogError::EmptyName));
    assert_eq!(c.lookup(5).unwrap().file_name, "renamed.pdf");
}

#[test]
fn identities_exhausted() {
    let mut c = Catalog::from_entries(vec![entry(u64::MAX)], 0).ok().unwrap();
    assert_eq!(c.next_identity(), None);
    assert_eq!(register(&mut c, "z"), Err(CatalogError::IdentitiesExhausted));
    assert_eq!(c.len(), 1);
}

#[test]
fn remove_keeps_order_of_rest() {
    let mut c = Catalog::from_entries(vec![entry(1), entry(2), entry(3)], 0).ok().unwrap();
    assert!(c.remove(1));
    let ids: Vec<u64> = c.into_entries().iter().map(|e| e.id).collect();
    assert_eq!(ids, vec![2, 3]);
}
