use hiyori::collections::{
    create_collection, delete_collection, get_collection, get_collection_thumbnail,
    get_collections, insert_collection, set_collection_thumbnail,
};
use hiyori::errors::StoreError;
use hiyori::images::get_image_data;
use hiyori::store::Store;

#[test]
fn create_then_get_returns_the_collection() {
    let mut store = Store::new();
    let c = create_collection(&mut store, String::from("Library"), None).unwrap();
    let got = get_collection(&store, &c.id).unwrap();
    assert_eq!(got.name, "Library");
    assert_eq!(got.parent_id, None);
    assert_eq!(got.thumbnail_id, None);
}

#[test]
fn create_with_missing_parent_is_rejected() {
    let mut store = Store::new();
    let r = create_collection(
        &mut store,
        String::from("Orphan"),
        Some(String::from("no-such-collection")),
    );
    assert_eq!(r.unwrap_err(), StoreError::InvalidParent);
    assert_eq!(store.collection_count(), 0);
}

#[test]
fn insert_with_taken_id_is_store_unavailable() {
    let mut store = Store::new();
    insert_collection(&mut store, String::from("c1"), String::from("A"), None).unwrap();
    let r = insert_collection(&mut store, String::from("c1"), String::from("B"), None);
    assert_eq!(r.unwrap_err(), StoreError::StoreUnavailable);
    assert_eq!(store.collection_count(), 1);
}

#[test]
fn listing_roots_and_children() {
    let mut store = Store::new();
    let a = create_collection(&mut store, String::from("A"), None).unwrap();
    let b = create_collection(&mut store, String::from("B"), Some(a.id.clone())).unwrap();
    let roots = get_collections(&store, &None);
    assert_eq!(roots.len(), 1);
    assert_eq!(roots[0].id, a.id);
    let children = get_collections(&store, &Some(a.id.clone()));
    assert_eq!(children.len(), 1);
    assert_eq!(children[0].id, b.id);
    assert_eq!(children[0].name, "B");
}

#[test]
fn delete_childless_collection_then_get_is_gone() {
    let mut store = Store::new();
    let c = create_collection(&mut store, String::from("Solo"), None).unwrap();
    assert!(delete_collection(&mut store, &c.id).is_ok());
    assert!(get_collection(&store, &c.id).is_none());
}

#[test]
fn delete_with_child_is_rejected_and_collection_stays() {
    let mut store = Store::new();
    let a = create_collection(&mut store, String::from("A"), None).unwrap();
    let _b = create_collection(&mut store, String::from("B"), Some(a.id.clone())).unwrap();
    assert_eq!(delete_collection(&mut store, &a.id).unwrap_err(), StoreError::HasChildren);
    assert!(get_collection(&store, &a.id).is_some());
}

#[test]
fn delete_child_then_parent_both_succeed() {
    let mut store = Store::new();
    let a = create_collection(&mut store, String::from("A"), None).unwrap();
    let b = create_collection(&mut store, String::from("B"), Some(a.id.clone())).unwrap();
    assert_eq!(delete_collection(&mut store, &a.id).unwrap_err(), StoreError::HasChildren);
    assert!(delete_collection(&mut store, &b.id).is_ok());
    assert!(delete_collection(&mut store, &a.id).is_ok());
    assert_eq!(store.collection_count(), 0);
}

#[test]
fn delete_of_missing_collection_is_not_found() {
    let mut store = Store::new();
    let missing = String::from("missing");
    assert_eq!(delete_collection(&mut store, &missing).unwrap_err(), StoreError::NotFound);
}

#[test]
fn thumbnail_of_fresh_collection_is_absent() {
    let mut store = Store::new();
    let c = create_collection(&mut store, String::from("C"), None).unwrap();
    assert_eq!(get_collection_thumbnail(&store, &c.id).unwrap_err(), StoreError::NoThumbnail);
    let missing = String::from("missing");
    assert_eq!(get_collection_thumbnail(&store, &missing).unwrap_err(), StoreError::NotFound);
}

#[test]
fn set_thumbnail_then_read_it_back() {
    let mut store = Store::new();
    let c = create_collection(&mut store, String::from("C"), None).unwrap();
    let t = set_collection_thumbnail(&mut store, &c.id, String::from("image/png"), vec![5, 6])
        .unwrap();
    let got = get_collection_thumbnail(&store, &c.id).unwrap();
    assert_eq!(got.id, t);
    assert_eq!(got.mime, "image/png");
    assert_eq!(got.content, vec![5, 6]);
}

#[test]
fn thumbnail_swap_replaces_and_frees_the_old_blob() {
    let mut store = Store::new();
    let c = create_collection(&mut store, String::from("C"), None).unwrap();
    let t1 = set_collection_thumbnail(&mut store, &c.id, String::from("image/png"), vec![1])
        .unwrap();
    let t2 = set_collection_thumbnail(&mut store, &c.id, String::from("image/jpeg"), vec![2, 2])
        .unwrap();
    assert_ne!(t1, t2);
    let got = get_collection_thumbnail(&store, &c.id).unwrap();
    assert_eq!(got.mime, "image/jpeg");
    assert_eq!(got.content, vec![2, 2]);
    assert!(get_image_data(&store, t1).is_none());
    assert_eq!(store.blob_count(), 1);
}

#[test]
fn set_thumbnail_on_missing_collection_is_not_found() {
    let mut store = Store::new();
    let missing = String::from("missing");
    let r = set_collection_thumbnail(&mut store, &missing, String::from("image/png"), vec![1]);
    assert_eq!(r.unwrap_err(), StoreError::NotFound);
    assert_eq!(store.blob_count(), 0);
}

#[test]
fn delete_collection_removes_its_thumbnail_blob() {
    let mut store = Store::new();
    let c = create_collection(&mut store, String::from("C"), None).unwrap();
    let t = set_collection_thumbnail(&mut store, &c.id, String::from("image/png"), vec![1])
        .unwrap();
    assert!(delete_collection(&mut store, &c.id).is_ok());
    assert!(get_image_data(&store, t).is_none());
    assert_eq!(store.blob_count(), 0);
}

#[test]
fn error_messages_name_each_failure() {
    assert_eq!(StoreError::NotFound.message(), "not found");
    assert_eq!(StoreError::InvalidParent.message(), "parent collection does not exist");
    assert_eq!(StoreError::CollectionNotFound.message(), "collection does not exist");
    assert_eq!(StoreError::HasChildren.message(), "collection still has children");
    assert_eq!(StoreError::InvalidFormat.message(), "file is not an epub");
    assert_eq!(StoreError::CorruptArchive.message(), "epub archive cannot be read");
    assert_eq!(StoreError::NoThumbnail.message(), "collection has no thumbnail");
    assert_eq!(StoreError::StoreUnavailable.message(), "store unavailable");
}
