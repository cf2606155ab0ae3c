use hiyori::images::{create_image_data, delete_image_data, get_image_data, ImageData};
use hiyori::store::Store;

#[test]
fn put_then_get_returns_identical_pair() {
    let mut store = Store::new();
    let id = create_image_data(
        &mut store,
        ImageData { id: 0, mime: String::from("image/png"), content: vec![1, 2, 3, 255] },
    )
    .unwrap();
    let blob = get_image_data(&store, id).unwrap();
    assert_eq!(blob.mime, "image/png");
    assert_eq!(blob.content, vec![1, 2, 3, 255]);
}

#[test]
fn put_then_get_roundtrips_empty_content() {
    let mut store = Store::new();
    let id = create_image_data(
        &mut store,
        ImageData { id: 0, mime: String::from("application/octet-stream"), content: vec![] },
    )
    .unwrap();
    let blob = get_image_data(&store, id).unwrap();
    assert_eq!(blob.mime, "application/octet-stream");
    assert!(blob.content.is_empty());
}

#[test]
fn two_identical_puts_make_two_blobs() {
    let mut store = Store::new();
    let a = create_image_data(
        &mut store,
        ImageData { id: 0, mime: String::from("image/png"), content: vec![9] },
    )
    .unwrap();
    let b = create_image_data(
        &mut store,
        ImageData { id: 0, mime: String::from("image/png"), content: vec![9] },
    )
    .unwrap();
    assert_ne!(a, b);
    assert_eq!(store.blob_count(), 2);
}

#[test]
fn delete_removes_the_blob() {
    let mut store = Store::new();
    let id = create_image_data(
        &mut store,
        ImageData { id: 0, mime: String::from("image/png"), content: vec![7] },
    )
    .unwrap();
    assert!(delete_image_data(&mut store, id).is_ok());
    assert!(get_image_data(&store, id).is_none());
    assert_eq!(store.blob_count(), 0);
}

#[test]
fn delete_of_missing_blob_is_not_found() {
    let mut store = Store::new();
    assert_eq!(
        delete_image_data(&mut store, 42),
        Err(hiyori::errors::StoreError::NotFound)
    );
}

#[test]
fn new_store_is_empty() {
    let store = Store::new();
    assert_eq!(store.blob_count(), 0);
    assert_eq!(store.collection_count(), 0);
    assert_eq!(store.book_count(), 0);
}
