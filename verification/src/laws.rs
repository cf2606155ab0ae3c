use vstd::prelude::*;

use crate::books::BookImageV;
use crate::collections::{
    delete_collection_check, delete_collection_post, find_collection, has_child, set_thumb_in,
    set_thumbnail_post, thumbnail_of, CollectionV,
};
use crate::errors::StoreError;
use crate::images::{find_blob, ImageDataV};
use crate::ingest::{ingested_book, ingested_book_via, is_image_resource, EpubParse, EpubResourceV};
use crate::store::{blob_present, blob_space_left, collection_present, put_blob, StoreV};

verus! {

/// Deleting a childless collection is honoured, and the collection is
/// no longer retrievable afterwards.
pub proof fn lemma_delete_then_get(s: StoreV, id: Seq<char>)
    requires
        s.wf(),
        find_collection(s.collections, id) is Some,
        !has_child(s.collections, id),
    ensures
        delete_collection_check(s, id) == Result::<(), StoreError>::Ok(()),
        find_collection(delete_collection_post(s, id).collections, id) is None,
{
    let cpred = |c: CollectionV| c.id != id;
    let t = delete_collection_post(s, id);
    crate::collections::lemma_find_collection_ensures(t.collections, id);
    if find_collection(t.collections, id) is Some {
        let c = find_collection(t.collections, id).unwrap();
        let i = choose|i: int| 0 <= i < t.collections.len() && t.collections[i] == c;
        s.collections.lemma_filter_pred(cpred, i);
        assert(false);
    }
}

/// Deleting a collection that still has a child is refused with
/// `HasChildren`, and the collection stays retrievable.
pub proof fn lemma_delete_with_children_keeps(s: StoreV, id: Seq<char>)
    requires
        find_collection(s.collections, id) is Some,
        has_child(s.collections, id),
    ensures
        delete_collection_check(s, id) == Result::<(), StoreError>::Err(StoreError::HasChildren),
        find_collection(s.collections, id) is Some,
{
}

/// An ingested book has exactly one page per qualifying image resource
/// of the archive, with page numbers forming the dense sequence
/// 0, 1, ... in resource-path sort order.
pub proof fn lemma_ingest_page_count(
    pre: StoreV,
    post: StoreV,
    b: crate::books::BookV,
    cid: Seq<char>,
    m: EpubParse,
)
    requires
        ingested_book(pre, post, b, cid, m),
    ensures
        b.pages.len() == m.resources.filter(|x: EpubResourceV| is_image_resource(x)).len(),
        forall|k: int| 0 <= k < b.pages.len() ==> (#[trigger] b.pages[k]).page_number == k,
{
    let rs = choose|rs: Seq<EpubResourceV>| ingested_book_via(pre, post, b, cid, m, rs);
    rs.to_multiset_ensures();
    assert forall|k: int| 0 <= k < b.pages.len() implies (#[trigger] b.pages[k]).page_number
        == k by {
        assert(crate::ingest::page_from_resource(b.pages[k], k, b.id, pre.next_blob_id, rs));
    }
}

/// Round trip: after a put, the fresh id resolves to the identical
/// mime and content pair, for any bytes including empty content.
pub proof fn lemma_put_get_roundtrip(s: StoreV, mime: Seq<char>, content: Seq<u8>)
    requires
        s.wf(),
        blob_space_left(s),
    ensures
        find_blob(put_blob(s, mime, content).blobs, s.next_blob_id) == Some(
            ImageDataV { id: s.next_blob_id, mime, content },
        ),
{
    assert(forall|i: int|
        0 <= i < s.blobs.len() ==> (#[trigger] s.blobs[i]).id != s.next_blob_id);
    crate::images::lemma_find_blob_push(
        s.blobs,
        ImageDataV { id: s.next_blob_id, mime, content },
        s.next_blob_id,
    );
}

/// Reading a book's pages is a pure function of the store: absent
/// intervening writes, repeated reads return the same ordered sequence.
pub proof fn lemma_get_pages_repeatable(
    s: StoreV,
    id: Seq<char>,
    r1: Seq<BookImageV>,
    r2: Seq<BookImageV>,
)
    requires
        r1 == crate::books::spec_book_pages(s, id),
        r2 == crate::books::spec_book_pages(s, id),
    ensures
        r1 == r2,
{
}

/// Rewiring one collection's thumbnail moves lookups with it.
proof fn lemma_find_set_thumb(cs: Seq<CollectionV>, cid: Seq<char>, t: u64)
    ensures
        find_collection(set_thumb_in(cs, cid, t), cid) == match find_collection(cs, cid) {
            Some(c) => Some(
                CollectionV {
                    id: c.id,
                    name: c.name,
                    parent_id: c.parent_id,
                    thumbnail_id: Some(t),
                },
            ),
            None => None,
        },
    decreases cs.len(),
{
    if cs.len() > 0 {
        assert(set_thumb_in(cs, cid, t)[0] == if cs[0].id == cid {
            CollectionV {
                id: cs[0].id,
                name: cs[0].name,
                parent_id: cs[0].parent_id,
                thumbnail_id: Some(t),
            }
        } else {
            cs[0]
        });
        assert(set_thumb_in(cs, cid, t).drop_first() =~= set_thumb_in(cs.drop_first(), cid, t));
        lemma_find_set_thumb(cs.drop_first(), cid, t);
    }
}

/// Thumbnail swap: after a second `setThumbnail`, the collection's
/// thumbnail resolves to the second pair, and the first swap's blob is
/// no longer retrievable. The first swap also keeps the collection
/// present with blob-id space left, so the exec contract obliges the
/// second call to succeed in turn.
pub proof fn lemma_thumbnail_swap(
    s: StoreV,
    cid: Seq<char>,
    m1: Seq<char>,
    b1: Seq<u8>,
    m2: Seq<char>,
    b2: Seq<u8>,
)
    requires
        s.wf(),
        collection_present(s.collections, cid),
        s.next_blob_id + 2 <= u64::MAX,
    ensures
        ({
            let s1 = set_thumbnail_post(s, cid, m1, b1);
            let s2 = set_thumbnail_post(s1, cid, m2, b2);
            &&& collection_present(s1.collections, cid)
            &&& crate::store::blob_space_left(s1)
            &&& thumbnail_of(s2, cid) == Result::<ImageDataV, StoreError>::Ok(
                ImageDataV { id: s1.next_blob_id, mime: m2, content: b2 },
            )
            &&& find_blob(s2.blobs, s.next_blob_id) is None
        }),
{
    let id1 = s.next_blob_id;
    let id2 = (s.next_blob_id + 1) as u64;
    let s1 = set_thumbnail_post(s, cid, m1, b1);
    let s2 = set_thumbnail_post(s1, cid, m2, b2);
    assert(collection_present(s1.collections, cid)) by {
        let i = choose|i: int|
            0 <= i < s.collections.len() && (#[trigger] s.collections[i]).id == cid;
        assert((#[trigger] s1.collections[i]).id == cid);
    }
    crate::collections::lemma_find_collection_ensures(s.collections, cid);
    let c0 = find_collection(s.collections, cid).unwrap();
    lemma_find_set_thumb(s.collections, cid, id1);
    let c1 = find_collection(s1.collections, cid).unwrap();
    assert(c1.thumbnail_id == Some(id1));
    assert(s1.next_blob_id == id2);
    lemma_find_set_thumb(s1.collections, cid, id2);
    let c2 = find_collection(s2.collections, cid).unwrap();
    assert(c2.thumbnail_id == Some(id2));
    // Every blob the first swap left behind has an id below `id2`.
    let nb1 = ImageDataV { id: id1, mime: m1, content: b1 };
    let nb2 = ImageDataV { id: id2, mime: m2, content: b2 };
    let pushed1 = s.blobs.push(nb1);
    assert forall|i: int| 0 <= i < s1.blobs.len() implies (#[trigger] s1.blobs[i]).id < id2 by {
        match c0.thumbnail_id {
            Some(t0) => {
                crate::store::lemma_filter_sub(pushed1, |b: ImageDataV| b.id != t0);
                let j = choose|j: int| 0 <= j < pushed1.len() && pushed1[j] == s1.blobs[i];
                if j < s.blobs.len() {
                    assert(s.blobs[j].id < s.next_blob_id);
                }
            },
            None => {
                let j = i;
                if j < s.blobs.len() {
                    assert(s.blobs[j].id < s.next_blob_id);
                }
            },
        }
    }
    // The second swap removes the first blob and stores the second.
    let pushed2 = s1.blobs.push(nb2);
    let bpred = |b: ImageDataV| b.id != id1;
    assert(s2.blobs == pushed2.filter(bpred));
    crate::store::lemma_filter_sub(pushed2, bpred);
    crate::images::lemma_find_blob_ensures(s2.blobs, id2);
    assert(pushed2[s1.blobs.len() as int] == nb2);
    pushed2.lemma_filter_contains(bpred, s1.blobs.len() as int);
    match find_blob(s2.blobs, id2) {
        Some(b) => {
            let i = choose|i: int| 0 <= i < s2.blobs.len() && s2.blobs[i] == b;
            let j = choose|j: int| 0 <= j < pushed2.len() && pushed2[j] == s2.blobs[i];
            if j < s1.blobs.len() {
                assert(s1.blobs[j].id < id2);
                assert(false);
            }
            assert(b == nb2);
        },
        None => {
            let i = choose|i: int| 0 <= i < s2.blobs.len() && #[trigger] s2.blobs[i] == nb2;
            assert(false);
        },
    }
    crate::images::lemma_find_blob_ensures(s2.blobs, id1);
    match find_blob(s2.blobs, id1) {
        Some(b) => {
            let i = choose|i: int| 0 <= i < s2.blobs.len() && s2.blobs[i] == b;
            pushed2.lemma_filter_pred(bpred, i);
            assert(false);
        },
        None => {},
    }
}

} // verus!
