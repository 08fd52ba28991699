use pdf_catalog::collections::{CollectionError, CollectionsFile};

fn s(x: &str) -> String {
    String::from(x)
}

fn sample() -> CollectionsFile {
    let mut f = CollectionsFile::new();
    f.create_with_id(s("c1"), s("Work"), s("#ff0000")).unwrap();
    f.create_with_id(s("c2"), s("Home"), s("#00ff00")).unwrap();
    f
}

fn members(f: &CollectionsFile, i: usize) -> Vec<String> {
    let mut v = f.collections[i].pdf_ids.clone();
    v.sort();
    v
}

#[test]
fn create_collections() {
    let f = sample();
    assert_eq!(f.collections.len(), 2);
    assert_eq!(f.collections[1].id, "c2");
    assert_eq!(f.collections[1].name, "Home");
    assert_eq!(f.collections[1].color, "#00ff00");
    assert!(f.collections[1].pdf_ids.is_empty());
}

#[test]
fn create_refusals() {
    let mut f = sample();
    assert_eq!(f.create_with_id(s("c3"), s(" "), s("#000")), Err(CollectionError::EmptyName));
    assert_eq!(f.create_with_id(s("c3"), s("Work"), s("#000")), Err(CollectionError::DuplicateName));
    assert_eq!(f.collections.len(), 2);
}

#[test]
fn create_with_time_identity() {
    let mut f = sample();
    assert_eq!(f.create_collection(s("Later"), s("#123456")), Ok(()));
    let c = f.collections.last().unwrap();
    assert_eq!(c.name, "Later");
    assert!(!c.id.is_empty());
    assert!(c.id.chars().all(|ch| ch.is_ascii_digit()));
}

#[test]
fn rename_collections() {
    let mut f = sample();
    assert_eq!(f.rename_collection(&s("c1"), s("Job")), Ok(()));
    assert_eq!(f.collections[0].name, "Job");
    assert_eq!(f.rename_collection(&s("c1"), s("Home")), Err(CollectionError::DuplicateName));
    assert_eq!(f.rename_collection(&s("c2"), s("Home")), Ok(()));
    assert_eq!(f.rename_collection(&s("zz"), s("Other")), Err(CollectionError::NotFound));
    assert_eq!(f.rename_collection(&s("c1"), s("")), Err(CollectionError::EmptyName));
    assert_eq!(f.collections[0].name, "Job");
}

#[test]
fn delete_and_recolor() {
    let mut f = sample();
    assert_eq!(f.change_collection_color(&s("c2"), s("#abcdef")), Ok(()));
    assert_eq!(f.collections[1].color, "#abcdef");
    assert_eq!(f.change_collection_color(&s("c9"), s("#abcdef")), Err(CollectionError::NotFound));
    assert_eq!(f.delete_collection(&s("c1")), Ok(()));
    assert_eq!(f.collections.len(), 1);
    assert_eq!(f.collections[0].id, "c2");
    assert_eq!(f.delete_collection(&s("c1")), Err(CollectionError::NotFound));
}

#[test]
fn documents_in_collections() {
    let mut f = sample();
    assert_eq!(f.add_pdf_to_collection(&s("c1"), s("7")), Ok(()));
    assert_eq!(f.add_pdf_to_collection(&s("c1"), s("7")), Ok(()));
    assert_eq!(f.add_pdf_to_collection(&s("c1"), s("8")), Ok(()));
    assert_eq!(members(&f, 0), vec![s("7"), s("8")]);
    assert_eq!(f.remove_pdf_from_collection(&s("c1"), &s("7")), Ok(()));
    assert_eq!(members(&f, 0), vec![s("8")]);
    assert_eq!(f.add_pdf_to_collection(&s("nope"), s("7")), Err(CollectionError::NotFound));
    assert_eq!(f.remove_pdf_from_collection(&s("nope"), &s("7")), Err(CollectionError::NotFound));
}

#[test]
fn toggle_documents() {
    let mut f = sample();
    assert_eq!(f.toggle_pdf_in_collection(&s("c2"), s("3")), Ok(true));
    assert_eq!(members(&f, 1), vec![s("3")]);
    assert_eq!(f.toggle_pdf_in_collection(&s("c2"), s("3")), Ok(false));
    assert!(members(&f, 1).is_empty());
    assert_eq!(f.toggle_pdf_in_collection(&s("x"), s("3")), Err(CollectionError::NotFound));
}

#[test]
fn remove_document_everywhere() {
    let mut f = sample();
    f.add_pdf_to_collection(&s("c1"), s("5")).unwrap();
    f.add_pdf_to_collection(&s("c2"), s("5")).unwrap();
    f.add_pdf_to_collection(&s("c2"), s("6")).unwrap();
    assert_eq!(f.remove_pdf_from_all_collections(&s("5")), 2);
    assert!(members(&f, 0).is_empty());
    assert_eq!(members(&f, 1), vec![s("6")]);
    assert_eq!(f.remove_pdf_from_all_collections(&s("5")), 0);
}
