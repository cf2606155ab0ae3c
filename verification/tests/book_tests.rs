use hiyori::books::{
    create_book, delete_book, get_book, get_book_image, get_book_images, get_book_pages,
    get_books_by_collection, insert_book, PageSource,
};
use hiyori::collections::create_collection;
use hiyori::errors::StoreError;
use hiyori::images::get_image_data;
use hiyori::store::Store;

fn page(mime: &str, content: &[u8], file_name: &str) -> PageSource {
    PageSource {
        mime: String::from(mime),
        content: content.to_vec(),
        file_name: String::from(file_name),
    }
}

#[test]
fn insert_book_files_pages_in_order() {
    let mut store = Store::new();
    let c = create_collection(&mut store, String::from("Library"), None).unwrap();
    let book = insert_book(
        &mut store,
        String::from("b1"),
        String::from("A Book"),
        c.id.clone(),
        vec![
            (String::from("p1"), page("image/jpeg", &[1], "one.jpg")),
            (String::from("p2"), page("image/png", &[2, 2], "two.png")),
        ],
    )
    .unwrap();
    assert_eq!(book.id, "b1");
    assert_eq!(book.name, "A Book");
    assert_eq!(book.collection_id, c.id);
    let pages = get_book_pages(&store, &book.id);
    assert_eq!(pages.len(), 2);
    assert_eq!(pages[0].page_number, 0);
    assert_eq!(pages[0].file_name, "one.jpg");
    assert_eq!(pages[1].page_number, 1);
    assert_eq!(pages[1].file_name, "two.png");
    let blob = get_image_data(&store, pages[1].image_id).unwrap();
    assert_eq!(blob.mime, "image/png");
    assert_eq!(blob.content, vec![2, 2]);
}

#[test]
fn insert_book_into_missing_collection_is_rejected() {
    let mut store = Store::new();
    let r = insert_book(
        &mut store,
        String::from("b1"),
        String::from("A Book"),
        String::from("no-such-collection"),
        vec![],
    );
    assert_eq!(r.unwrap_err(), StoreError::CollectionNotFound);
    assert_eq!(store.book_count(), 0);
    assert_eq!(store.blob_count(), 0);
}

#[test]
fn insert_book_with_duplicate_page_ids_is_rejected() {
    let mut store = Store::new();
    let c = create_collection(&mut store, String::from("Library"), None).unwrap();
    let r = insert_book(
        &mut store,
        String::from("b1"),
        String::from("A Book"),
        c.id.clone(),
        vec![
            (String::from("p"), page("image/jpeg", &[1], "one.jpg")),
            (String::from("p"), page("image/png", &[2], "two.png")),
        ],
    );
    assert_eq!(r.unwrap_err(), StoreError::StoreUnavailable);
    assert_eq!(store.book_count(), 0);
    assert_eq!(store.blob_count(), 0);
}

#[test]
fn insert_book_with_taken_id_is_rejected() {
    let mut store = Store::new();
    let c = create_collection(&mut store, String::from("Library"), None).unwrap();
    insert_book(&mut store, String::from("b1"), String::from("A"), c.id.clone(), vec![]).unwrap();
    let r = insert_book(&mut store, String::from("b1"), String::from("B"), c.id.clone(), vec![]);
    assert_eq!(r.unwrap_err(), StoreError::StoreUnavailable);
    assert_eq!(store.book_count(), 1);
}

#[test]
fn create_book_draws_ids_and_numbers_pages() {
    let mut store = Store::new();
    let c = create_collection(&mut store, String::from("Library"), None).unwrap();
    let book = create_book(
        &mut store,
        String::from("Drawn"),
        c.id.clone(),
        vec![page("image/jpeg", &[1], "a.jpg"), page("image/jpeg", &[2], "b.jpg")],
    )
    .unwrap();
    assert!(!book.id.is_empty());
    let pages = get_book_pages(&store, &book.id);
    assert_eq!(pages.len(), 2);
    assert_eq!(pages[0].page_number, 0);
    assert_eq!(pages[1].page_number, 1);
    assert_ne!(pages[0].id, pages[1].id);
}

#[test]
fn get_book_of_missing_id_is_none() {
    let store = Store::new();
    let missing = String::from("missing");
    assert!(get_book(&store, &missing).is_none());
    assert!(get_book_pages(&store, &missing).is_empty());
}

#[test]
fn get_book_image_resolves_by_pair_of_ids() {
    let mut store = Store::new();
    let c = create_collection(&mut store, String::from("Library"), None).unwrap();
    insert_book(
        &mut store,
        String::from("b1"),
        String::from("A Book"),
        c.id.clone(),
        vec![
            (String::from("p1"), page("image/jpeg", &[1], "one.jpg")),
            (String::from("p2"), page("image/png", &[2], "two.png")),
        ],
    )
    .unwrap();
    let b1 = String::from("b1");
    let p2 = String::from("p2");
    let img = get_book_image(&store, &b1, &p2).unwrap();
    assert_eq!(img.page_number, 1);
    assert_eq!(img.book_id, "b1");
    let nope = String::from("nope");
    assert!(get_book_image(&store, &b1, &nope).is_none());
    assert!(get_book_image(&store, &nope, &p2).is_none());
}

#[test]
fn repeated_page_reads_return_the_same_sequence() {
    let mut store = Store::new();
    let c = create_collection(&mut store, String::from("Library"), None).unwrap();
    insert_book(
        &mut store,
        String::from("b1"),
        String::from("A Book"),
        c.id.clone(),
        vec![
            (String::from("p1"), page("image/jpeg", &[1], "one.jpg")),
            (String::from("p2"), page("image/png", &[2], "two.png")),
        ],
    )
    .unwrap();
    let b1 = String::from("b1");
    let first = get_book_pages(&store, &b1);
    let second = get_book_pages(&store, &b1);
    assert_eq!(first.len(), second.len());
    for (x, y) in first.iter().zip(second.iter()) {
        assert_eq!(x.id, y.id);
        assert_eq!(x.page_number, y.page_number);
        assert_eq!(x.image_id, y.image_id);
    }
    let images = get_book_images(&store, &b1);
    assert_eq!(images.len(), first.len());
}

#[test]
fn listing_by_collection_is_sorted_by_title() {
    let mut store = Store::new();
    let c = create_collection(&mut store, String::from("Library"), None).unwrap();
    let other = create_collection(&mut store, String::from("Other"), None).unwrap();
    insert_book(&mut store, String::from("b1"), String::from("beta"), c.id.clone(), vec![])
        .unwrap();
    insert_book(&mut store, String::from("b2"), String::from("alpha"), c.id.clone(), vec![])
        .unwrap();
    insert_book(&mut store, String::from("b3"), String::from("gamma"), c.id.clone(), vec![])
        .unwrap();
    insert_book(&mut store, String::from("b4"), String::from("aaa"), other.id.clone(), vec![])
        .unwrap();
    let books = get_books_by_collection(&store, &c.id);
    assert_eq!(books.len(), 3);
    assert_eq!(books[0].name, "alpha");
    assert_eq!(books[1].name, "beta");
    assert_eq!(books[2].name, "gamma");
}

#[test]
fn delete_book_removes_pages_and_their_blobs() {
    let mut store = Store::new();
    let c = create_collection(&mut store, String::from("Library"), None).unwrap();
    let book = insert_book(
        &mut store,
        String::from("b1"),
        String::from("A Book"),
        c.id.clone(),
        vec![
            (String::from("p1"), page("image/jpeg", &[1], "one.jpg")),
            (String::from("p2"), page("image/png", &[2], "two.png")),
        ],
    )
    .unwrap();
    let blob_ids: Vec<u64> = book.pages.iter().map(|p| p.image_id).collect();
    assert!(delete_book(&mut store, &book.id).is_ok());
    assert!(get_book(&store, &book.id).is_none());
    for t in blob_ids {
        assert!(get_image_data(&store, t).is_none());
    }
    assert_eq!(store.blob_count(), 0);
    assert_eq!(store.book_count(), 0);
}

#[test]
fn delete_of_missing_book_is_not_found() {
    let mut store = Store::new();
    let missing = String::from("missing");
    assert_eq!(delete_book(&mut store, &missing).unwrap_err(), StoreError::NotFound);
}

#[test]
fn delete_collection_cascades_over_books_and_blobs() {
    let mut store = Store::new();
    let c = create_collection(&mut store, String::from("Library"), None).unwrap();
    let keep = create_collection(&mut store, String::from("Keep"), None).unwrap();
    let doomed = insert_book(
        &mut store,
        String::from("b1"),
        String::from("Doomed"),
        c.id.clone(),
        vec![(String::from("p1"), page("image/jpeg", &[1], "one.jpg"))],
    )
    .unwrap();
    let kept = insert_book(
        &mut store,
        String::from("b2"),
        String::from("Kept"),
        keep.id.clone(),
        vec![(String::from("p1"), page("image/png", &[2], "two.png"))],
    )
    .unwrap();
    assert!(hiyori::collections::delete_collection(&mut store, &c.id).is_ok());
    assert!(get_book(&store, &doomed.id).is_none());
    assert!(get_image_data(&store, doomed.pages[0].image_id).is_none());
    let still = get_book(&store, &kept.id).unwrap();
    assert_eq!(still.name, "Kept");
    assert!(get_image_data(&store, kept.pages[0].image_id).is_some());
    assert_eq!(store.book_count(), 1);
    assert_eq!(store.blob_count(), 1);
}
