use hiyori::books::get_book_pages;
use hiyori::collections::create_collection;
use hiyori::errors::StoreError;
use hiyori::images::get_image_data;
use hiyori::ingest::from_epub;
use hiyori::store::Store;
use std::io::Write;

const EPUB_MIME: &str = "application/epub+zip";

fn epub_bytes(title: Option<&str>, resources: &[(&str, &str, &[u8])]) -> Vec<u8> {
    let mut zip = zip::ZipWriter::new(std::io::Cursor::new(Vec::new()));
    let opts = zip::write::SimpleFileOptions::default();
    zip.start_file("META-INF/container.xml", opts).unwrap();
    let mut container = String::new();
    container.push_str("<?xml version=\"1.0\"?>");
    container.push_str("<container version=\"1.0\" ");
    container.push_str("xmlns=\"urn:oasis:names:tc:opendocument:xmlns:container\">");
    container.push_str("<rootfiles><rootfile full-path=\"OEBPS/content.opf\" ");
    container.push_str("media-type=\"application/oebps-package+xml\"/></rootfiles></container>");
    zip.write_all(container.as_bytes()).unwrap();
    let mut manifest = String::new();
    for (i, (path, mime, _)) in resources.iter().enumerate() {
        manifest.push_str(&format!(
            "<item id=\"r{}\" href=\"{}\" media-type=\"{}\"/>",
            i, path, mime
        ));
    }
    manifest.push_str("<item id=\"c1\" href=\"ch1.xhtml\" media-type=\"application/xhtml+xml\"/>");
    let title_tag = match title {
        Some(t) => format!("<dc:title>{}</dc:title>", t),
        None => String::new(),
    };
    let mut opf = String::new();
    opf.push_str("<?xml version=\"1.0\" encoding=\"UTF-8\"?>");
    opf.push_str("<package xmlns=\"http://www.idpf.org/2007/opf\" version=\"2.0\">");
    opf.push_str(&format!("<metadata xmlns:dc=\"http://purl.org/dc/elements/1.1/\">{}</metadata>", title_tag));
    opf.push_str(&format!("<manifest>{}</manifest>", manifest));
    opf.push_str("<spine><itemref idref=\"c1\"/></spine></package>");
    zip.start_file("OEBPS/content.opf", opts).unwrap();
    zip.write_all(opf.as_bytes()).unwrap();
    zip.start_file("OEBPS/ch1.xhtml", opts).unwrap();
    zip.write_all(b"<html><body/></html>").unwrap();
    let mut written: Vec<&str> = Vec::new();
    for (path, _, content) in resources {
        if written.contains(path) {
            continue;
        }
        written.push(path);
        zip.start_file(format!("OEBPS/{}", path), opts).unwrap();
        zip.write_all(content).unwrap();
    }
    zip.finish().unwrap().into_inner()
}

#[test]
fn ingesting_three_images_makes_three_dense_pages() {
    let mut store = Store::new();
    let lib = create_collection(&mut store, String::from("Library"), None).unwrap();
    let bytes = epub_bytes(
        Some("Moby Dick"),
        &[
            ("img/p2.png", "image/png", &[2, 2]),
            ("img/p1.jpg", "image/jpeg", &[1]),
            ("style.css", "text/css", b"body{}"),
            ("img/p3.jpg", "image/jpeg", &[3, 3, 3]),
        ],
    );
    let declared = String::from(EPUB_MIME);
    let book = from_epub(&mut store, &declared, lib.id.clone(), &bytes).unwrap();
    assert_eq!(book.name, "Moby Dick");
    assert_eq!(book.collection_id, lib.id);
    let pages = get_book_pages(&store, &book.id);
    assert_eq!(pages.len(), 3);
    assert_eq!(pages[0].page_number, 0);
    assert_eq!(pages[1].page_number, 1);
    assert_eq!(pages[2].page_number, 2);
    assert_eq!(pages[0].file_name, "p1.jpg");
    assert_eq!(pages[1].file_name, "p2.png");
    assert_eq!(pages[2].file_name, "p3.jpg");
    let first = get_image_data(&store, pages[0].image_id).unwrap();
    assert_eq!(first.mime, "image/jpeg");
    assert_eq!(first.content, vec![1]);
    let second = get_image_data(&store, pages[1].image_id).unwrap();
    assert_eq!(second.mime, "image/png");
    assert_eq!(second.content, vec![2, 2]);
    let third = get_image_data(&store, pages[2].image_id).unwrap();
    assert_eq!(third.content, vec![3, 3, 3]);
}

#[test]
fn ingest_then_delete_frees_every_page_blob() {
    let mut store = Store::new();
    let lib = create_collection(&mut store, String::from("Library"), None).unwrap();
    let bytes = epub_bytes(
        Some("Moby Dick"),
        &[
            ("img/p1.jpg", "image/jpeg", &[1]),
            ("img/p2.jpg", "image/jpeg", &[2]),
            ("img/p3.jpg", "image/jpeg", &[3]),
        ],
    );
    let declared = String::from(EPUB_MIME);
    let book = from_epub(&mut store, &declared, lib.id.clone(), &bytes).unwrap();
    assert_eq!(book.name, "Moby Dick");
    let pages = get_book_pages(&store, &book.id);
    assert_eq!(pages.len(), 3);
    let blob_ids: Vec<u64> = pages.iter().map(|p| p.image_id).collect();
    assert!(hiyori::books::delete_book(&mut store, &book.id).is_ok());
    assert!(hiyori::books::get_book(&store, &book.id).is_none());
    for t in blob_ids {
        assert!(get_image_data(&store, t).is_none());
    }
    assert_eq!(store.blob_count(), 0);
}

#[test]
fn ingest_with_plain_text_content_type_is_rejected() {
    let mut store = Store::new();
    let lib = create_collection(&mut store, String::from("Library"), None).unwrap();
    let bytes = epub_bytes(Some("Moby Dick"), &[("img/p1.jpg", "image/jpeg", &[1])]);
    let declared = String::from("text/plain");
    let r = from_epub(&mut store, &declared, lib.id.clone(), &bytes);
    assert_eq!(r.unwrap_err(), StoreError::InvalidFormat);
    assert_eq!(store.book_count(), 0);
    assert_eq!(store.blob_count(), 0);
}

#[test]
fn ingest_into_missing_collection_is_rejected() {
    let mut store = Store::new();
    let bytes = epub_bytes(Some("Moby Dick"), &[("img/p1.jpg", "image/jpeg", &[1])]);
    let declared = String::from(EPUB_MIME);
    let r = from_epub(&mut store, &declared, String::from("no-such-collection"), &bytes);
    assert_eq!(r.unwrap_err(), StoreError::CollectionNotFound);
    assert_eq!(store.book_count(), 0);
    assert_eq!(store.blob_count(), 0);
}

#[test]
fn ingest_of_garbage_bytes_is_corrupt() {
    let mut store = Store::new();
    let lib = create_collection(&mut store, String::from("Library"), None).unwrap();
    let declared = String::from(EPUB_MIME);
    let garbage = vec![0, 1, 2, 3, 4, 5];
    let r = from_epub(&mut store, &declared, lib.id.clone(), &garbage);
    assert_eq!(r.unwrap_err(), StoreError::CorruptArchive);
    assert_eq!(store.book_count(), 0);
    assert_eq!(store.blob_count(), 0);
}

#[test]
fn ingest_of_archive_with_rootless_container_is_corrupt() {
    let mut zip = zip::ZipWriter::new(std::io::Cursor::new(Vec::new()));
    let opts = zip::write::SimpleFileOptions::default();
    zip.start_file("META-INF/container.xml", opts).unwrap();
    let mut container = String::new();
    container.push_str("<?xml version=\"1.0\"?>");
    container.push_str("<container version=\"1.0\" ");
    container.push_str("xmlns=\"urn:oasis:names:tc:opendocument:xmlns:container\">");
    container.push_str("<rootfiles><rootfile full-path=\"\" ");
    container.push_str("media-type=\"application/oebps-package+xml\"/></rootfiles></container>");
    zip.write_all(container.as_bytes()).unwrap();
    let bytes = zip.finish().unwrap().into_inner();
    let mut store = Store::new();
    let lib = create_collection(&mut store, String::from("Library"), None).unwrap();
    let declared = String::from(EPUB_MIME);
    let r = from_epub(&mut store, &declared, lib.id.clone(), &bytes);
    assert_eq!(r.unwrap_err(), StoreError::CorruptArchive);
    assert_eq!(store.book_count(), 0);
    assert_eq!(store.blob_count(), 0);
}

#[test]
fn ingest_of_container_rooted_at_a_rootfile_element_is_corrupt() {
    // The document element is itself named `rootfile` and carries a good
    // path; the parser resolves the nested one, whose path is rootless.
    let mut zip = zip::ZipWriter::new(std::io::Cursor::new(Vec::new()));
    let opts = zip::write::SimpleFileOptions::default();
    zip.start_file("META-INF/container.xml", opts).unwrap();
    let mut container = String::new();
    container.push_str("<?xml version=\"1.0\"?>");
    container.push_str("<rootfile full-path=\"a/b.opf\">");
    container.push_str("<rootfile full-path=\"\"/>");
    container.push_str("</rootfile>");
    zip.write_all(container.as_bytes()).unwrap();
    let bytes = zip.finish().unwrap().into_inner();
    let mut store = Store::new();
    let lib = create_collection(&mut store, String::from("Library"), None).unwrap();
    let declared = String::from(EPUB_MIME);
    let r = from_epub(&mut store, &declared, lib.id.clone(), &bytes);
    assert_eq!(r.unwrap_err(), StoreError::CorruptArchive);
    assert_eq!(store.book_count(), 0);
    assert_eq!(store.blob_count(), 0);
}

#[test]
fn ingest_of_titleless_archive_is_corrupt() {
    let mut store = Store::new();
    let lib = create_collection(&mut store, String::from("Library"), None).unwrap();
    let bytes = epub_bytes(None, &[("img/p1.jpg", "image/jpeg", &[1])]);
    let declared = String::from(EPUB_MIME);
    let r = from_epub(&mut store, &declared, lib.id.clone(), &bytes);
    assert_eq!(r.unwrap_err(), StoreError::CorruptArchive);
    assert_eq!(store.book_count(), 0);
    assert_eq!(store.blob_count(), 0);
}

#[test]
fn resources_sharing_a_path_order_deterministically() {
    let mut store = Store::new();
    let lib = create_collection(&mut store, String::from("Library"), None).unwrap();
    // Two manifest items name the same archive entry under different
    // media types: equal paths, so the tie falls to the mime.
    let bytes = epub_bytes(
        Some("Twin"),
        &[
            ("img/p.jpg", "image/png", &[7]),
            ("img/p.jpg", "image/jpeg", &[7]),
        ],
    );
    let declared = String::from(EPUB_MIME);
    let book = from_epub(&mut store, &declared, lib.id.clone(), &bytes).unwrap();
    let pages = get_book_pages(&store, &book.id);
    assert_eq!(pages.len(), 2);
    let first = get_image_data(&store, pages[0].image_id).unwrap();
    let second = get_image_data(&store, pages[1].image_id).unwrap();
    assert_eq!(first.mime, "image/jpeg");
    assert_eq!(second.mime, "image/png");
    assert_eq!(first.content, vec![7]);
    assert_eq!(second.content, vec![7]);
}

#[test]
fn ingest_of_imageless_archive_makes_an_empty_book() {
    let mut store = Store::new();
    let lib = create_collection(&mut store, String::from("Library"), None).unwrap();
    let bytes = epub_bytes(Some("Blank"), &[("style.css", "text/css", b"body{}")]);
    let declared = String::from(EPUB_MIME);
    let book = from_epub(&mut store, &declared, lib.id.clone(), &bytes).unwrap();
    assert_eq!(book.name, "Blank");
    assert!(get_book_pages(&store, &book.id).is_empty());
    assert_eq!(store.blob_count(), 0);
}

#[test]
fn configs_hold_their_three_settings() {
    let c = hiyori::configs::Configs {
        sst: String::from("secret"),
        database_url: String::from("mysql://localhost/hiyori"),
        bind_url: String::from("127.0.0.1:8080"),
    };
    assert_eq!(c.sst, "secret");
    assert_eq!(c.database_url, "mysql://localhost/hiyori");
    assert_eq!(c.bind_url, "127.0.0.1:8080");
}
