use vstd::prelude::*;

use crate::books::{Book, BookV, PageSource};
use crate::errors::StoreError;
use crate::images::ImageDataV;
use crate::store::{collection_present, Store, StoreV};
use epub::archive::EpubArchive;
use epub::doc::EpubDoc;
use std::io::Cursor;
use std::path::Path;
use vstd::multiset::Multiset;
use vstd::string::StringExecFns;
use xml::reader::{EventReader, XmlEvent};

verus! {

/// One resource of an uploaded archive: its internal path, the bare file
/// name, its media type, and its bytes.
#[derive(Debug)]
pub struct EpubResource {
    pub path: String,
    pub file_name: String,
    pub mime: String,
    pub content: Vec<u8>,
}

/// The mathematical value of an [`EpubResource`].
#[verifier::ext_equal]
pub ghost struct EpubResourceV {
    pub path: Seq<char>,
    pub file_name: Seq<char>,
    pub mime: Seq<char>,
    pub content: Seq<u8>,
}

impl View for EpubResource {
    type V = EpubResourceV;

    open spec fn view(&self) -> EpubResourceV {
        EpubResourceV {
            path: self.path@,
            file_name: self.file_name@,
            mime: self.mime@,
            content: self.content@,
        }
    }
}

impl DeepView for EpubResource {
    type V = EpubResourceV;

    open spec fn deep_view(&self) -> EpubResourceV {
        self.view()
    }
}

impl EpubResource {
    /// An explicit copy with a contract; a derived clone would promise
    /// nothing to the verifier.
    pub fn duplicate(&self) -> (r: EpubResource)
        ensures
            r@ == self@,
    {
        EpubResource {
            path: self.path.clone(),
            file_name: self.file_name.clone(),
            mime: self.mime.clone(),
            content: self.content.clone(),
        }
    }
}

/// A parsed archive: its primary title, if one is declared, and its
/// resources, in no particular order.
#[derive(Debug)]
pub struct Epub {
    pub title: Option<String>,
    pub resources: Vec<EpubResource>,
}

/// What an archive's bytes parse to: the title and the bag of resources.
/// The listing order of resources is no function of the bytes, so only a
/// multiset is determined.
#[verifier::ext_equal]
pub ghost struct EpubParse {
    pub title: Option<Seq<char>>,
    pub resources: Multiset<EpubResourceV>,
}

/// What the EPUB parser resolves a byte string to; `None` when the bytes
/// are no well-formed archive.
pub uninterp spec fn parsed_epub(bytes: Seq<u8>) -> Option<EpubParse>;

/// Relies on epub::archive::EpubArchive::get_container_file: the bytes
/// of META-INF/container.xml, when the archive opens and holds one.
/// Called only inside `read_epub`, so it carries no contract of its own.
#[verifier::external_body]
fn container_bytes(bytes: &Vec<u8>) -> Option<Vec<u8>> {
    let mut archive = EpubArchive::from_reader(Cursor::new(bytes.clone())).ok()?;
    archive.get_container_file().ok()
}

/// Relies on xml's EventReader: whether the container names a root file
/// with no parent directory — the case the EPUB parser aborts on rather
/// than erring — or cannot be read by this scan at all. The parser
/// resolves the first `rootfile` element strictly below the document
/// element, in document order; the document element itself never
/// counts, so the scan skips the first start element. Called only
/// inside `read_epub`, so it carries no contract of its own.
#[verifier::external_body]
fn container_names_rootless_file(container: &Vec<u8>) -> bool {
    let mut seen_root = false;
    for ev in EventReader::new(container.as_slice()) {
        match ev {
            Ok(XmlEvent::StartElement { name, attributes, .. }) => {
                if seen_root && name.local_name == "rootfile" {
                    return attributes.iter().any(|a| a.name.local_name == "full-path"
                        && Path::new(&a.value).parent().is_none());
                }
                seen_root = true;
            },
            Err(_) => return true,
            _ => {},
        }
    }
    false
}

/// Relies on epub::doc::EpubDoc — from_reader, get_title, the resources
/// map and get_resource_by_path — to decompose an archive; an archive
/// whose container declares a rootless root file is turned away first
/// (see `container_names_rootless_file`), since the parser would abort
/// on it. The parse is a function of the bytes alone, except for the
/// order in which the resources are listed.
#[verifier::external_body]
fn read_epub(bytes: &Vec<u8>) -> (r: Option<Epub>)
    ensures
        match r {
            Some(e) => parsed_epub(bytes@) == Some(
                EpubParse {
                    title: crate::collections::opt_str_view(e.title),
                    resources: e.resources.deep_view().to_multiset(),
                },
            ),
            None => parsed_epub(bytes@) is None,
        },
{
    if container_bytes(bytes).map_or(false, |c| container_names_rootless_file(&c)) {
        return None;
    }
    let mut doc = EpubDoc::from_reader(Cursor::new(bytes.clone())).ok()?;
    let title = doc.get_title();
    let items: Vec<_> = doc.resources.values().map(|i| (i.path.clone(), i.mime.clone())).collect();
    let mut resources = Vec::new();
    for (path, mime) in items {
        let content = doc.get_resource_by_path(&path)?;
        let file_name = path.file_name().map(|n| n.to_string_lossy().into_owned()).unwrap_or_default();
        resources.push(EpubResource { path: path.to_string_lossy().into_owned(), file_name, mime, content });
    }
    Some(Epub { title, resources })
}

/// The declared content type an upload must carry.
pub open spec fn epub_mime() -> Seq<char> {
    "application/epub+zip"@
}

/// A resource that becomes a page: a JPEG or PNG image.
pub open spec fn is_image_resource(r: EpubResourceV) -> bool {
    r.mime == "image/jpeg"@ || r.mime == "image/png"@
}

/// Whether resource `a` sorts at or before `b`: by internal path first,
/// with the remaining fields breaking ties, so that two resources tie
/// only when they are equal and a sorted arrangement is a function of
/// the bag of resources alone.
pub open spec fn res_le(a: EpubResourceV, b: EpubResourceV) -> bool {
    if a.path != b.path {
        crate::order::seq_char_le(a.path, b.path)
    } else if a.mime != b.mime {
        crate::order::seq_char_le(a.mime, b.mime)
    } else if a.file_name != b.file_name {
        crate::order::seq_char_le(a.file_name, b.file_name)
    } else {
        crate::order::seq_u8_le(a.content, b.content)
    }
}

/// The resource order is total.
pub proof fn lemma_res_le_total(a: EpubResourceV, b: EpubResourceV)
    ensures
        res_le(a, b) || res_le(b, a),
{
    if a.path != b.path {
        crate::order::lemma_seq_char_le_total(a.path, b.path);
    } else if a.mime != b.mime {
        crate::order::lemma_seq_char_le_total(a.mime, b.mime);
    } else if a.file_name != b.file_name {
        crate::order::lemma_seq_char_le_total(a.file_name, b.file_name);
    } else {
        crate::order::lemma_seq_u8_le_total(a.content, b.content);
    }
}

/// The resource order is transitive.
pub proof fn lemma_res_le_trans(a: EpubResourceV, b: EpubResourceV, c: EpubResourceV)
    requires
        res_le(a, b),
        res_le(b, c),
    ensures
        res_le(a, c),
{
    if a.path != b.path && b.path != c.path {
        crate::order::lemma_seq_char_le_trans(a.path, b.path, c.path);
        if a.path == c.path {
            crate::order::lemma_seq_char_le_antisym(a.path, b.path);
        }
    } else if a.path == b.path && b.path == c.path {
        if a.mime != b.mime && b.mime != c.mime {
            crate::order::lemma_seq_char_le_trans(a.mime, b.mime, c.mime);
            if a.mime == c.mime {
                crate::order::lemma_seq_char_le_antisym(a.mime, b.mime);
            }
        } else if a.mime == b.mime && b.mime == c.mime {
            if a.file_name != b.file_name && b.file_name != c.file_name {
                crate::order::lemma_seq_char_le_trans(a.file_name, b.file_name, c.file_name);
                if a.file_name == c.file_name {
                    crate::order::lemma_seq_char_le_antisym(a.file_name, b.file_name);
                }
            } else if a.file_name == b.file_name && b.file_name == c.file_name {
                crate::order::lemma_seq_u8_le_trans(a.content, b.content, c.content);
            }
        }
    }
}

/// Whether resource `a` sorts at or before `b`.
fn resource_le(a: &EpubResource, b: &EpubResource) -> (r: bool)
    ensures
        r == res_le(a@, b@),
{
    if !(a.path == b.path) {
        return crate::order::str_le(a.path.as_str(), b.path.as_str());
    }
    if !(a.mime == b.mime) {
        return crate::order::str_le(a.mime.as_str(), b.mime.as_str());
    }
    if !(a.file_name == b.file_name) {
        return crate::order::str_le(a.file_name.as_str(), b.file_name.as_str());
    }
    crate::order::bytes_le(&a.content, &b.content)
}

/// Resources in ascending path order; ties between equal paths broken by
/// the remaining fields, so the arrangement is deterministic.
pub open spec fn sorted_by_path(s: Seq<EpubResourceV>) -> bool {
    forall|i: int, j: int| 0 <= i < j < s.len() ==> res_le(#[trigger] s[i], #[trigger] s[j])
}

/// Sorts resources into ascending path order, ties broken by the whole
/// value, by insertion.
fn sort_resources_by_path(v: Vec<EpubResource>) -> (r: Vec<EpubResource>)
    ensures
        sorted_by_path(r.deep_view()),
        r.deep_view().to_multiset() == v.deep_view().to_multiset(),
{
    let n = v.len();
    let mut out: Vec<EpubResource> = Vec::new();
    let mut i: usize = 0;
    proof {
        assert(out.deep_view() =~= Seq::<EpubResourceV>::empty());
        assert(v.deep_view().subrange(0, 0) =~= Seq::<EpubResourceV>::empty());
        Seq::<EpubResourceV>::empty().to_multiset_ensures();
    }
    while i < n
        invariant
            n == v.len(),
            i <= n,
            sorted_by_path(out.deep_view()),
            out.deep_view().to_multiset() == v.deep_view().subrange(0, i as int).to_multiset(),
        decreases n - i,
    {
        let b = v[i].duplicate();
        proof {
            assert(b@ == v.deep_view()[i as int]);
        }
        let mut j: usize = 0;
        while j < out.len() && resource_le(&out[j], &b)
            invariant
                j <= out.len(),
                n == v.len(),
                i < n,
                b@ == v.deep_view()[i as int],
                sorted_by_path(out.deep_view()),
                out.deep_view().to_multiset() == v.deep_view().subrange(
                    0,
                    i as int,
                ).to_multiset(),
                forall|l: int| 0 <= l < j ==> res_le(#[trigger] out.deep_view()[l], b@),
            decreases out.len() - j,
        {
            proof {
                assert(out.deep_view()[j as int] == out@[j as int]@);
            }
            j += 1;
        }
        let ghost out0 = out.deep_view();
        let ghost v0 = out@;
        let ghost bk = b;
        let ghost bv = b@;
        proof {
            if j < out.len() {
                lemma_res_le_total(out0[j as int], bv);
            }
        }
        out.insert(j, b);
        proof {
            assert forall|l: int| 0 <= l < out@.len() implies out.deep_view()[l] == out0.insert(
                j as int,
                bv,
            )[l] by {
                v0.insert_ensures(j as int, bk);
                out0.insert_ensures(j as int, bv);
                if l < j {
                    assert(out@[l] == v0[l]);
                    assert(out0[l] == v0[l].deep_view());
                } else if l == j {
                    assert(out@[l] == bk);
                } else {
                    assert(out@[l] == v0[l - 1]);
                    assert(out0[l - 1] == v0[l - 1].deep_view());
                }
            }
            assert(out.deep_view() =~= out0.insert(j as int, bv));
            out0.insert_ensures(j as int, bv);
            assert forall|p: int, q: int|
                0 <= p < q < out.deep_view().len() implies res_le(
                #[trigger] out.deep_view()[p],
                #[trigger] out.deep_view()[q],
            ) by {
                let dv = out.deep_view();
                let jj = j as int;
                if p < jj && q < jj {
                    assert(dv[p] == out0[p] && dv[q] == out0[q]);
                } else if p < jj && q == jj {
                    assert(dv[p] == out0[p] && dv[q] == bv);
                } else if p < jj && q > jj {
                    assert(dv[p] == out0[p] && dv[q] == out0[q - 1]);
                } else if p == jj {
                    assert(dv[p] == bv && dv[q] == out0[q - 1]);
                    if q - 1 == jj {
                        lemma_res_le_total(out0[jj], bv);
                    } else {
                        lemma_res_le_total(out0[jj], bv);
                        lemma_res_le_trans(bv, out0[jj], out0[q - 1]);
                    }
                } else {
                    assert(dv[p] == out0[p - 1] && dv[q] == out0[q - 1]);
                }
            }
            crate::order::lemma_insert_to_multiset(out0, j as int, bv);
            assert(v.deep_view().subrange(0, i + 1).drop_last() =~= v.deep_view().subrange(
                0,
                i as int,
            ));
            assert(v.deep_view().subrange(0, i + 1) =~= v.deep_view().subrange(
                0,
                i as int,
            ).push(bv));
            v.deep_view().subrange(0, i as int).to_multiset_ensures();
        }
        i += 1;
    }
    proof {
        assert(v.deep_view().subrange(0, n as int) =~= v.deep_view());
    }
    out
}

/// The qualifying image resources of an archive, in ascending path
/// order: exactly the page plan ingestion materializes.
pub fn plan_pages(epub: &Epub) -> (r: Vec<EpubResource>)
    ensures
        sorted_by_path(r.deep_view()),
        r.deep_view().to_multiset() == epub.resources.deep_view().filter(
            |x: EpubResourceV| is_image_resource(x),
        ).to_multiset(),
{
    let jpeg = String::from_str("image/jpeg");
    let png = String::from_str("image/png");
    let n = epub.resources.len();
    let mut picked: Vec<EpubResource> = Vec::new();
    let mut i: usize = 0;
    while i < n
        invariant
            n == epub.resources.len(),
            i <= n,
            jpeg@ == "image/jpeg"@,
            png@ == "image/png"@,
            picked.deep_view() =~= epub.resources.deep_view().subrange(0, i as int).filter(
                |x: EpubResourceV| is_image_resource(x),
            ),
        decreases n - i,
    {
        proof {
            crate::store::lemma_filter_take_step(
                epub.resources.deep_view(),
                |x: EpubResourceV| is_image_resource(x),
                i as int,
            );
        }
        let res = &epub.resources[i];
        proof {
            assert(res@ == epub.resources.deep_view()[i as int]);
        }
        if res.mime == jpeg || res.mime == png {
            picked.push(res.duplicate());
        }
        proof {
            assert(picked.deep_view() =~= epub.resources.deep_view().subrange(0, i + 1).filter(
                |x: EpubResourceV| is_image_resource(x),
            ));
        }
        i += 1;
    }
    proof {
        assert(epub.resources.deep_view().subrange(0, n as int) =~= epub.resources.deep_view());
    }
    sort_resources_by_path(picked)
}

/// Whether an upload is honoured, and with which failure it is not:
/// a wrong declared content type is `InvalidFormat`, an unresolved
/// target collection `CollectionNotFound`, and an unparsable or
/// title-less archive `CorruptArchive`.
pub open spec fn ingest_check(
    s: StoreV,
    declared: Seq<char>,
    cid: Seq<char>,
    bytes: Seq<u8>,
) -> Result<(), StoreError> {
    if declared != epub_mime() {
        Err(StoreError::InvalidFormat)
    } else if !collection_present(s.collections, cid) {
        Err(StoreError::CollectionNotFound)
    } else {
        match parsed_epub(bytes) {
            None => Err(StoreError::CorruptArchive),
            Some(m) => if m.title is None {
                Err(StoreError::CorruptArchive)
            } else {
                Ok(())
            },
        }
    }
}

/// The blobs ingestion stores: one per planned resource, in plan order.
pub open spec fn resource_blobs(start: u64, rs: Seq<EpubResourceV>) -> Seq<ImageDataV> {
    Seq::new(
        rs.len(),
        |i: int| ImageDataV { id: (start + i) as u64, mime: rs[i].mime, content: rs[i].content },
    )
}

/// Page `k` of an ingested book carries planned resource `k`.
pub open spec fn page_from_resource(
    p: crate::books::BookImageV,
    k: int,
    book_id: Seq<char>,
    start: u64,
    rs: Seq<EpubResourceV>,
) -> bool {
    &&& p.page_number == k
    &&& p.book_id == book_id
    &&& p.file_name == rs[k].file_name
    &&& p.image_id == (start + k) as u64
}

/// The store and book an ingestion produced, through the witness `rs`:
/// the archive's qualifying resources in ascending path order, each made
/// one blob and one page.
pub open spec fn ingested_book_via(
    pre: StoreV,
    post: StoreV,
    b: BookV,
    cid: Seq<char>,
    m: EpubParse,
    rs: Seq<EpubResourceV>,
) -> bool {
    &&& rs.to_multiset() == m.resources.filter(|x: EpubResourceV| is_image_resource(x))
    &&& sorted_by_path(rs)
    &&& m.title == Some(b.name)
    &&& b.collection_id == cid
    &&& b.pages.len() == rs.len()
    &&& forall|k: int|
        0 <= k < rs.len() ==> page_from_resource(
            #[trigger] b.pages[k],
            k,
            b.id,
            pre.next_blob_id,
            rs,
        )
    &&& post.books == pre.books.push(b)
    &&& post.collections == pre.collections
    &&& post.next_blob_id == pre.next_blob_id + rs.len()
    &&& post.blobs == pre.blobs + resource_blobs(pre.next_blob_id, rs)
}

/// An ingestion produced `b`: some path-sorted arrangement of the
/// archive's qualifying resources became its pages.
pub open spec fn ingested_book(
    pre: StoreV,
    post: StoreV,
    b: BookV,
    cid: Seq<char>,
    m: EpubParse,
) -> bool {
    exists|rs: Seq<EpubResourceV>| ingested_book_via(pre, post, b, cid, m, rs)
}

/// The ingestion pipeline: validates the declared content type and the
/// target collection, parses the archive, takes its title — an archive
/// that names none is rejected as corrupt — and materializes one book
/// whose pages are the archive's JPEG and PNG resources in ascending
/// path order. A declared cover resource gets no special treatment: it
/// is folded into the ordinary page sequence.
pub fn from_epub(
    store: &mut Store,
    declared_mime: &String,
    collection_id: String,
    bytes: &Vec<u8>,
) -> (r: Result<Book, StoreError>)
    requires
        old(store)@.wf(),
    ensures
        final(store)@.wf(),
        r is Err ==> final(store)@ == old(store)@,
        ingest_check(old(store)@, declared_mime@, collection_id@, bytes@) matches Err(e) ==> r
            == Result::<Book, StoreError>::Err(e),
        r is Ok ==> ingest_check(old(store)@, declared_mime@, collection_id@, bytes@) is Ok,
        ingest_check(old(store)@, declared_mime@, collection_id@, bytes@) is Ok ==> (r is Ok || r
            == Result::<Book, StoreError>::Err(StoreError::StoreUnavailable)),
        r matches Ok(b) ==> parsed_epub(bytes@) matches Some(m) && ingested_book(
            old(store)@,
            final(store)@,
            b@,
            collection_id@,
            m,
        ),
{
    let ghost pre = store@;
    if !(*declared_mime == String::from_str("application/epub+zip")) {
        return Err(StoreError::InvalidFormat);
    }
    if crate::collections::find_collection_idx(&store.collections, &collection_id).is_none() {
        return Err(StoreError::CollectionNotFound);
    }
    let parsed = match read_epub(bytes) {
        Some(e) => e,
        None => {
            return Err(StoreError::CorruptArchive);
        },
    };
    let ghost m = parsed_epub(bytes@).unwrap();
    let ghost resv = parsed.resources.deep_view();
    let Epub { title, resources } = parsed;
    let title = match title {
        Some(t) => t,
        None => {
            return Err(StoreError::CorruptArchive);
        },
    };
    let archive = Epub { title: None, resources };
    let planned = plan_pages(&archive);
    let ghost rs = planned.deep_view();
    proof {
        crate::store::lemma_filter_to_multiset(resv, |x: EpubResourceV| is_image_resource(x));
        assert(rs.to_multiset() == m.resources.filter(|x: EpubResourceV| is_image_resource(x)));
    }
    let np = planned.len();
    let mut rest = planned;
    let mut sources: Vec<PageSource> = Vec::new();
    let mut k: usize = 0;
    while k < np
        invariant
            np == rs.len(),
            k <= np,
            rest@.len() == np - k,
            forall|l: int| 0 <= l < rest@.len() ==> (#[trigger] rest@[l])@ == rs[l + k],
            sources@.len() == k,
            forall|l: int|
                0 <= l < k ==> source_of_resource(#[trigger] sources.deep_view()[l], rs[l]),
        decreases np - k,
    {
        let ghost rest0 = rest@;
        let ghost s0 = sources@;
        let ghost dv0 = sources.deep_view();
        let res = rest.remove(0);
        let EpubResource { path: _, file_name, mime, content } = res;
        sources.push(PageSource { mime, content, file_name });
        proof {
            assert forall|l: int| 0 <= l < rest@.len() implies (#[trigger] rest@[l])@ == rs[l + k
                + 1] by {
                assert(rest@[l] == rest0[l + 1]);
            }
            assert forall|l: int| 0 <= l < k + 1 implies source_of_resource(
                #[trigger] sources.deep_view()[l],
                rs[l],
            ) by {
                if l < k {
                    assert(sources@[l] == s0[l]);
                    assert(sources.deep_view()[l] == s0[l].deep_view());
                    assert(dv0[l] == s0[l].deep_view());
                    assert(source_of_resource(dv0[l], rs[l]));
                } else {
                    assert(res@ == rs[k as int]);
                }
            }
        }
        k += 1;
    }
    let ghost srcs = sources.deep_view();
    let r = crate::books::create_book(store, title, collection_id, sources);
    match r {
        Ok(b) => {
            proof {
                assert(srcs.len() == rs.len());
                assert(resource_blobs(pre.next_blob_id, rs) =~= crate::books::source_blobs(
                    pre.next_blob_id,
                    srcs,
                ));
                assert forall|k2: int| 0 <= k2 < rs.len() implies page_from_resource(
                    #[trigger] b@.pages[k2],
                    k2,
                    b@.id,
                    pre.next_blob_id,
                    rs,
                ) by {
                    assert(crate::books::page_matches_source(
                        b@.pages[k2],
                        k2,
                        b@.id,
                        pre.next_blob_id,
                        srcs,
                    ));
                    assert(source_of_resource(srcs[k2], rs[k2]));
                }
                assert(ingested_book_via(pre, store@, b@, collection_id@, m, rs));
            }
            Ok(b)
        },
        Err(e) => {
            proof {
                assert(e != StoreError::CollectionNotFound);
            }
            Err(e)
        },
    }
}

/// Page source `s` carries resource `r`: its type, bytes and file name.
pub open spec fn source_of_resource(s: crate::books::PageSourceV, r: EpubResourceV) -> bool {
    s.mime == r.mime && s.content == r.content && s.file_name == r.file_name
}

} // verus!
